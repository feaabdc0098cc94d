//! Round-trip laws: the canonical text of a well-formed path parses back
//! to exactly the same segments, so canonical text is a fixed point of
//! parse-then-render.

use vstd::prelude::*;

use crate::segment::SegView;
use crate::segment::is_bare_char;
use crate::segment::is_digit_char;
use crate::segment::needs_quoting;
use crate::segment::seg_wf;
use crate::segment::path_wf;
use crate::parse::ErrView;
use crate::parse::parse_quoted;
use crate::parse::parse_field_at;
use crate::parse::parse_index_at;
use crate::parse::parse_from;
use crate::parse::parse_path;
use crate::parse::scan_bare_end;
use crate::parse::scan_digit_end;
use crate::render::escape_char;
use crate::render::escape_name;
use crate::render::render_field;
use crate::render::render_index;
use crate::render::render_seg;
use crate::render::render_from;
use crate::render::render_path;
use crate::render::dec_digits;
use crate::render::lemma_dec_digits;

verus! {

/// A word embedded in a larger string is read off character by character.
proof fn lemma_embed_index(s: Seq<char>, p: int, w: Seq<char>, j: int)
    requires
        0 <= p,
        0 <= j < w.len(),
        p + w.len() <= s.len(),
        s.subrange(p, p + w.len()) == w,
    ensures
        s[p + j] == w[j],
{
    assert(s.subrange(p, p + w.len())[j] == w[j]);
}

/// Indexing the left part of a concatenation.
proof fn lemma_cat_left(x: Seq<char>, y: Seq<char>, i: int)
    requires
        0 <= i < x.len(),
    ensures
        (x + y)[i] == x[i],
{
}

/// Indexing the right part of a concatenation.
proof fn lemma_cat_right(x: Seq<char>, y: Seq<char>, i: int)
    requires
        x.len() <= i < x.len() + y.len(),
    ensures
        (x + y)[i] == y[i - x.len()],
{
}

/// Scanning bare characters stops exactly at the end of a bare run.
proof fn lemma_scan_bare_exact(s: Seq<char>, q: int, e: int)
    requires
        0 <= q <= e <= s.len(),
        forall|j: int| q <= j < e ==> is_bare_char(#[trigger] s[j]),
        e < s.len() ==> !is_bare_char(s[e]),
    ensures
        scan_bare_end(s, q) == e,
    decreases e - q,
{
    if q < e {
        lemma_scan_bare_exact(s, q + 1, e);
    }
}

/// Scanning digits stops exactly at the end of a digit run.
proof fn lemma_scan_digit_exact(s: Seq<char>, q: int, e: int)
    requires
        0 <= q <= e <= s.len(),
        forall|j: int| q <= j < e ==> is_digit_char(#[trigger] s[j]),
        e < s.len() ==> !is_digit_char(s[e]),
    ensures
        scan_digit_end(s, q) == e,
    decreases e - q,
{
    if q < e {
        lemma_scan_digit_exact(s, q + 1, e);
    }
}

/// Reading an escaped name back out of its quotes undoes the escaping.
proof fn lemma_unescape_escape(s: Seq<char>, open_q: int, r: int, name: Seq<char>)
    requires
        0 <= r,
        r + escape_name(name).len() < s.len(),
        s.subrange(r, r + escape_name(name).len()) == escape_name(name),
        s[r + escape_name(name).len()] == '"',
    ensures
        parse_quoted(s, open_q, r) == Ok::<(Seq<char>, int), ErrView>(
            (name, r + escape_name(name).len() + 1),
        ),
    decreases name.len(),
{
    let en = escape_name(name);
    let k = en.len() as int;
    if name.len() == 0 {
        assert(s[r] == '"');
        assert(name =~= Seq::<char>::empty());
    } else {
        let c = name[0];
        let tail = name.drop_first();
        let ec = escape_char(c);
        let et = escape_name(tail);
        assert(en == ec + et);
        if c == '"' || c == '\\' {
            assert(ec =~= seq!['\\', c]);
            assert(s[r] == '\\') by {
                lemma_cat_left(ec, et, 0);
                lemma_embed_index(s, r, en, 0);
            }
            assert(s[r + 1] == c) by {
                lemma_cat_left(ec, et, 1);
                lemma_embed_index(s, r, en, 1);
            }
            assert(s.subrange(r + 2, r + 2 + et.len()) =~= et) by {
                assert forall|j: int| 0 <= j < et.len() implies s.subrange(
                    r + 2,
                    r + 2 + et.len(),
                )[j] == et[j] by {
                    lemma_cat_right(ec, et, 2 + j);
                    lemma_embed_index(s, r, en, 2 + j);
                }
            }
            lemma_unescape_escape(s, open_q, r + 2, tail);
            assert(seq![s[r + 1]] + tail =~= name);
        } else {
            assert(ec =~= seq![c]);
            assert(s[r] == c) by {
                lemma_cat_left(ec, et, 0);
                lemma_embed_index(s, r, en, 0);
            }
            assert(s[r] != '"' && s[r] != '\\');
            assert(s.subrange(r + 1, r + 1 + et.len()) =~= et) by {
                assert forall|j: int| 0 <= j < et.len() implies s.subrange(
                    r + 1,
                    r + 1 + et.len(),
                )[j] == et[j] by {
                    lemma_cat_right(ec, et, 1 + j);
                    lemma_embed_index(s, r, en, 1 + j);
                }
            }
            lemma_unescape_escape(s, open_q, r + 1, tail);
            assert(seq![s[r]] + tail =~= name);
        }
    }
}

/// A rendered field, followed by a separator, a bracket or the end of
/// input, parses back to its name and quoting flag.
proof fn lemma_field_parses_back(s: Seq<char>, q: int, name: Seq<char>, quoted: bool)
    requires
        0 <= q,
        needs_quoting(name) ==> quoted,
        q + render_field(name, quoted).len() <= s.len(),
        s.subrange(q, q + render_field(name, quoted).len()) == render_field(name, quoted),
        q + render_field(name, quoted).len() < s.len() ==> !is_bare_char(
            s[q + render_field(name, quoted).len()],
        ),
    ensures
        parse_field_at(s, q) == Ok::<(Seq<char>, bool, int), ErrView>(
            (name, quoted, q + render_field(name, quoted).len()),
        ),
{
    let rf = render_field(name, quoted);
    let f = rf.len() as int;
    if quoted {
        let en = escape_name(name);
        let left = seq!['"'] + en;
        assert(rf == left + seq!['"']);
        assert(s[q] == '"') by {
            lemma_cat_left(seq!['"'], en, 0);
            lemma_cat_left(left, seq!['"'], 0);
            lemma_embed_index(s, q, rf, 0);
        }
        assert(s[q + 1 + en.len()] == '"') by {
            lemma_cat_right(left, seq!['"'], f - 1);
            lemma_embed_index(s, q, rf, f - 1);
        }
        assert(s.subrange(q + 1, q + 1 + en.len()) =~= en) by {
            assert forall|j: int| 0 <= j < en.len() implies s.subrange(
                q + 1,
                q + 1 + en.len(),
            )[j] == en[j] by {
                lemma_cat_right(seq!['"'], en, 1 + j);
                lemma_cat_left(left, seq!['"'], 1 + j);
                lemma_embed_index(s, q, rf, 1 + j);
            }
        }
        lemma_unescape_escape(s, q, q + 1, name);
    } else {
        assert(name.len() > 0);
        assert(!is_digit_char(name[0]));
        assert(forall|i: int| 0 <= i < name.len() ==> is_bare_char(#[trigger] name[i]));
        assert(rf == name);
        assert(s[q] == name[0]) by {
            lemma_embed_index(s, q, rf, 0);
        }
        assert(is_bare_char(s[q]) && !is_digit_char(s[q]));
        assert(s[q] != '"') by {
            assert(!is_bare_char('"'));
        }
        assert(forall|j: int| q <= j < q + f ==> is_bare_char(#[trigger] s[j])) by {
            assert forall|j: int| q <= j < q + f implies is_bare_char(s[j]) by {
                lemma_embed_index(s, q, rf, j - q);
                assert(s[j] == name[j - q]);
            }
        }
        lemma_scan_bare_exact(s, q, q + f);
        assert(s.subrange(q, q + f) =~= name);
    }
}

/// A rendered index parses back to its value.
proof fn lemma_index_parses_back(s: Seq<char>, p: int, idx: int)
    requires
        0 <= p,
        i64::MIN <= idx <= i64::MAX,
        p + render_index(idx).len() <= s.len(),
        s.subrange(p, p + render_index(idx).len()) == render_index(idx),
    ensures
        parse_index_at(s, p) == Ok::<(int, int), ErrView>((idx, p + render_index(idx).len())),
{
    let ri = render_index(idx);
    let f = ri.len() as int;
    let mag: nat = if idx < 0 {
        (-idx) as nat
    } else {
        idx as nat
    };
    let ds = dec_digits(mag);
    lemma_dec_digits(mag);
    let head: Seq<char> = if idx < 0 {
        seq!['[', '-']
    } else {
        seq!['[']
    };
    let left = head + ds;
    assert(ri == left + seq![']']);
    let b = p + 1;
    let d0 = p + head.len();
    assert(s[p] == '[') by {
        lemma_cat_left(head, ds, 0);
        lemma_cat_left(left, seq![']'], 0);
        lemma_embed_index(s, p, ri, 0);
    }
    if idx < 0 {
        assert(s[b] == '-') by {
            lemma_cat_left(head, ds, 1);
            lemma_cat_left(left, seq![']'], 1);
            lemma_embed_index(s, p, ri, 1);
        }
    } else {
        assert(s[b] == ds[0]) by {
            lemma_cat_right(head, ds, 1);
            lemma_cat_left(left, seq![']'], 1);
            lemma_embed_index(s, p, ri, 1);
        }
        assert(is_digit_char(ds[0]));
        assert(s[b] != '-') by {
            assert(!is_digit_char('-'));
        }
    }
    let e = d0 + ds.len();
    assert(s[e] == ']') by {
        lemma_cat_right(left, seq![']'], f - 1);
        lemma_embed_index(s, p, ri, f - 1);
    }
    assert(forall|j: int| d0 <= j < e ==> is_digit_char(#[trigger] s[j])) by {
        assert forall|j: int| d0 <= j < e implies is_digit_char(s[j]) by {
            lemma_cat_right(head, ds, j - p);
            lemma_cat_left(left, seq![']'], j - p);
            lemma_embed_index(s, p, ri, j - p);
            assert(s[j] == ds[j - d0]);
        }
    }
    assert(!is_digit_char(']'));
    lemma_scan_digit_exact(s, d0, e);
    assert(s.subrange(d0, e) =~= ds) by {
        assert forall|j: int| 0 <= j < ds.len() implies s.subrange(d0, e)[j] == ds[j] by {
            lemma_cat_right(head, ds, head.len() as int + j);
            lemma_cat_left(left, seq![']'], head.len() as int + j);
            lemma_embed_index(s, p, ri, head.len() as int + j);
        }
    }
}

/// Every segment after the first opens with `.` or `[`, never with a bare
/// character.
proof fn lemma_render_seg_first(x: SegView)
    ensures
        render_seg(x, false).len() >= 1,
        !is_bare_char(render_seg(x, false)[0]),
        render_seg(x, false)[0] == '.' || render_seg(x, false)[0] == '[',
{
    match x {
        SegView::Field { name, quoted } => {
            let rf = render_field(name, quoted);
            assert(render_seg(x, false) == seq!['.'] + rf);
            lemma_cat_left(seq!['.'], rf, 0);
            assert(!is_bare_char('.'));
        },
        SegView::Index { index } => {
            let mag: nat = if index < 0 {
                (-index) as nat
            } else {
                index as nat
            };
            lemma_dec_digits(mag);
            let head: Seq<char> = if index < 0 {
                seq!['[', '-']
            } else {
                seq!['[']
            };
            let left = head + dec_digits(mag);
            assert(render_seg(x, false) == left + seq![']']);
            lemma_cat_left(head, dec_digits(mag), 0);
            lemma_cat_left(left, seq![']'], 0);
            assert(render_seg(x, false)[0] == '[');
            assert(!is_bare_char('['));
        },
    }
}

/// The rendered tail of a path parses back to exactly those segments.
proof fn lemma_parse_from_render(s: Seq<char>, p: int, rest: Seq<SegView>)
    requires
        0 <= p,
        s.len() == p + render_from(rest).len(),
        s.subrange(p, s.len() as int) == render_from(rest),
        forall|i: int| 0 <= i < rest.len() ==> seg_wf(#[trigger] rest[i]),
    ensures
        parse_from(s, p) == Ok::<Seq<SegView>, ErrView>(rest),
    decreases rest.len(),
{
    let rr = render_from(rest);
    if rest.len() == 0 {
        assert(rest =~= Seq::<SegView>::empty());
    } else {
        let first = rest[0];
        let tail = rest.drop_first();
        let r0 = render_seg(first, false);
        let rt = render_from(tail);
        assert(rr == r0 + rt);
        lemma_render_seg_first(first);
        assert(seg_wf(first));
        let nx = p + r0.len();
        assert(s.subrange(nx, s.len() as int) =~= rt) by {
            assert forall|j: int| 0 <= j < rt.len() implies s.subrange(nx, s.len() as int)[j]
                == rt[j] by {
                lemma_cat_right(r0, rt, r0.len() as int + j);
                lemma_embed_index(s, p, rr, r0.len() as int + j);
            }
        }
        if nx < s.len() {
            lemma_render_seg_first(tail[0]);
            assert(render_from(tail) == render_seg(tail[0], false) + render_from(
                tail.drop_first(),
            ));
            assert(rt[0] == render_seg(tail[0], false)[0]) by {
                lemma_cat_left(render_seg(tail[0], false), render_from(tail.drop_first()), 0);
            }
            assert(s[nx] == rt[0]) by {
                lemma_cat_right(r0, rt, r0.len() as int);
                lemma_embed_index(s, p, rr, r0.len() as int);
            }
            assert(!is_bare_char(s[nx]));
        }
        assert(s[p] == r0[0]) by {
            lemma_cat_left(r0, rt, 0);
            lemma_embed_index(s, p, rr, 0);
        }
        match first {
            SegView::Field { name, quoted } => {
                let rf = render_field(name, quoted);
                assert(r0 == seq!['.'] + rf);
                assert(s[p] == '.') by {
                    lemma_cat_left(seq!['.'], rf, 0);
                }
                assert(s.subrange(p + 1, p + 1 + rf.len()) =~= rf) by {
                    assert forall|j: int| 0 <= j < rf.len() implies s.subrange(
                        p + 1,
                        p + 1 + rf.len(),
                    )[j] == rf[j] by {
                        lemma_cat_right(seq!['.'], rf, 1 + j);
                        lemma_cat_left(r0, rt, 1 + j);
                        lemma_embed_index(s, p, rr, 1 + j);
                    }
                }
                lemma_field_parses_back(s, p + 1, name, quoted);
                lemma_parse_from_render(s, nx, tail);
                assert(seq![first] + tail =~= rest);
            },
            SegView::Index { index } => {
                assert(r0 == render_index(index));
                assert(s.subrange(p, p + r0.len()) =~= r0) by {
                    assert forall|j: int| 0 <= j < r0.len() implies s.subrange(
                        p,
                        p + r0.len(),
                    )[j] == r0[j] by {
                        lemma_cat_left(r0, rt, j);
                        lemma_embed_index(s, p, rr, j);
                    }
                }
                lemma_index_parses_back(s, p, index);
                lemma_parse_from_render(s, nx, tail);
                assert(seq![first] + tail =~= rest);
            },
        }
    }
}

/// Semantic round trip: parsing the canonical text of any well-formed path
/// yields exactly that path's segments.
pub proof fn lemma_parse_render_path(segs: Seq<SegView>)
    requires
        path_wf(segs),
    ensures
        parse_path(render_path(segs)) == Ok::<Seq<SegView>, ErrView>(segs),
{
    let s = render_path(segs);
    if segs.len() == 0 {
        assert(segs =~= Seq::<SegView>::empty());
    } else {
        let first = segs[0];
        let tail = segs.drop_first();
        let r0 = render_seg(first, true);
        let rt = render_from(tail);
        assert(s == r0 + rt);
        assert(first is Field);
        assert(seg_wf(first));
        let name = first.arrow_Field_name();
        let quoted = first.arrow_Field_quoted();
        assert(r0 == render_field(name, quoted));
        if !quoted {
            assert(!needs_quoting(name));
            assert(name.len() > 0);
        }
        assert(r0.len() >= 1);
        assert(s.len() > 0);
        let nx = r0.len() as int;
        assert(s.subrange(0, s.len() as int) =~= s);
        assert(s.subrange(nx, s.len() as int) =~= rt) by {
            assert forall|j: int| 0 <= j < rt.len() implies s.subrange(nx, s.len() as int)[j]
                == rt[j] by {
                lemma_cat_right(r0, rt, nx + j);
                lemma_embed_index(s, 0, s, nx + j);
            }
        }
        if nx < s.len() {
            lemma_render_seg_first(tail[0]);
            assert(render_from(tail) == render_seg(tail[0], false) + render_from(
                tail.drop_first(),
            ));
            assert(rt[0] == render_seg(tail[0], false)[0]) by {
                lemma_cat_left(render_seg(tail[0], false), render_from(tail.drop_first()), 0);
            }
            assert(s[nx] == rt[0]) by {
                lemma_cat_right(r0, rt, nx);
            }
            assert(!is_bare_char(s[nx]));
        }
        assert(s.subrange(0, nx) =~= r0) by {
            assert forall|j: int| 0 <= j < r0.len() implies s.subrange(0, nx)[j] == r0[j] by {
                lemma_cat_left(r0, rt, j);
            }
        }
        lemma_field_parses_back(s, 0, name, quoted);
        lemma_parse_from_render(s, nx, tail);
        assert(seq![first] + tail =~= segs);
    }
}

/// Canonical text is a fixed point: parsing it and rendering the result
/// gives the same text back.
pub proof fn lemma_canonical_fixed_point(segs: Seq<SegView>)
    requires
        path_wf(segs),
    ensures
        parse_path(render_path(segs)) matches Ok(t) && render_path(t) == render_path(segs),
{
    lemma_parse_render_path(segs);
}

} // verus!
