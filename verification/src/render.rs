//! Canonical textual form of a path.
//!
//! Fields after the first are preceded by `.`; indices are wrapped in
//! `[` `]` with no separator; a field marked as quoted is wrapped in `"`
//! with `"` and `\` escaped by a backslash. The canonical string of a
//! well-formed path parses back to the very same segments.

use vstd::prelude::*;
use vstd::arithmetic::div_mod::lemma_fundamental_div_mod;

use crate::segment::SegView;
use crate::parse::dec_val;
use crate::parse::digit_val;
use crate::segment::is_digit_char;

verus! {

/// The character for one decimal digit.
pub open spec fn digit_char(d: int) -> char {
    if d == 0 {
        '0'
    } else if d == 1 {
        '1'
    } else if d == 2 {
        '2'
    } else if d == 3 {
        '3'
    } else if d == 4 {
        '4'
    } else if d == 5 {
        '5'
    } else if d == 6 {
        '6'
    } else if d == 7 {
        '7'
    } else if d == 8 {
        '8'
    } else {
        '9'
    }
}

/// Decimal digits of `n`, most significant first, no leading zero.
pub open spec fn dec_digits(n: nat) -> Seq<char>
    decreases n,
{
    if n < 10 {
        seq![digit_char(n as int)]
    } else {
        dec_digits(n / 10) + seq![digit_char((n % 10) as int)]
    }
}

/// The decimal rendering of `n` is made of digits and reads back as `n`.
pub proof fn lemma_dec_digits(n: nat)
    ensures
        dec_digits(n).len() >= 1,
        forall|i: int| 0 <= i < dec_digits(n).len() ==> is_digit_char(#[trigger] dec_digits(n)[i]),
        dec_val(dec_digits(n)) == n,
    decreases n,
{
    if n < 10 {
        assert(dec_val(dec_digits(n)) == dec_val(Seq::<char>::empty()) * 10 + digit_val(
            digit_char(n as int),
        )) by {
            assert(dec_digits(n).drop_last() =~= Seq::<char>::empty());
        }
    } else {
        lemma_dec_digits(n / 10);
        lemma_fundamental_div_mod(n as int, 10);
        assert(dec_digits(n).drop_last() =~= dec_digits(n / 10));
        assert(dec_digits(n).last() == digit_char((n % 10) as int));
    }
}

/// How one character of a field name appears inside quotes.
pub open spec fn escape_char(c: char) -> Seq<char> {
    if c == '"' || c == '\\' {
        seq!['\\', c]
    } else {
        seq![c]
    }
}

/// A field name with `"` and `\` escaped, as it appears inside quotes.
pub open spec fn escape_name(name: Seq<char>) -> Seq<char>
    decreases name.len(),
{
    if name.len() == 0 {
        Seq::empty()
    } else {
        escape_char(name[0]) + escape_name(name.drop_first())
    }
}

/// Escaping distributes over appending one character at the end.
pub proof fn lemma_escape_name_snoc(name: Seq<char>, c: char)
    ensures
        escape_name(name.push(c)) == escape_name(name) + escape_char(c),
    decreases name.len(),
{
    if name.len() == 0 {
        let p = name.push(c);
        assert(p.len() == 1);
        assert(p[0] == c);
        assert(p.drop_first() =~= Seq::<char>::empty());
        assert(escape_name(p) == escape_char(c) + escape_name(Seq::<char>::empty()));
        assert(escape_name(Seq::<char>::empty()) == Seq::<char>::empty());
        assert(escape_name(p) =~= escape_name(name) + escape_char(c));
    } else {
        lemma_escape_name_snoc(name.drop_first(), c);
        assert(name.push(c).drop_first() =~= name.drop_first().push(c));
        assert(name.push(c)[0] == name[0]);
        assert(escape_char(name[0]) + (escape_name(name.drop_first()) + escape_char(c))
            =~= (escape_char(name[0]) + escape_name(name.drop_first())) + escape_char(c));
    }
}

/// A field as it appears in canonical text.
pub open spec fn render_field(name: Seq<char>, quoted: bool) -> Seq<char> {
    if quoted {
        seq!['"'] + escape_name(name) + seq!['"']
    } else {
        name
    }
}

/// An index as it appears in canonical text.
pub open spec fn render_index(i: int) -> Seq<char> {
    if i < 0 {
        seq!['[', '-'] + dec_digits((-i) as nat) + seq![']']
    } else {
        seq!['['] + dec_digits(i as nat) + seq![']']
    }
}

/// One segment as it appears in canonical text; only a field that is not
/// the first segment takes a leading separator.
pub open spec fn render_seg(v: SegView, first: bool) -> Seq<char> {
    match v {
        SegView::Field { name, quoted } => if first {
            render_field(name, quoted)
        } else {
            seq!['.'] + render_field(name, quoted)
        },
        SegView::Index { index } => render_index(index),
    }
}

/// The canonical text of every segment after the first.
pub open spec fn render_from(segs: Seq<SegView>) -> Seq<char>
    decreases segs.len(),
{
    if segs.len() == 0 {
        Seq::empty()
    } else {
        render_seg(segs[0], false) + render_from(segs.drop_first())
    }
}

/// The canonical text of a whole path; the root path renders as the empty
/// string.
pub open spec fn render_path(segs: Seq<SegView>) -> Seq<char> {
    if segs.len() == 0 {
        Seq::empty()
    } else {
        render_seg(segs[0], true) + render_from(segs.drop_first())
    }
}

/// Rendering the tail distributes over appending one segment.
pub proof fn lemma_render_from_snoc(segs: Seq<SegView>, x: SegView)
    ensures
        render_from(segs.push(x)) == render_from(segs) + render_seg(x, false),
    decreases segs.len(),
{
    if segs.len() == 0 {
        let p = segs.push(x);
        assert(p.len() == 1);
        assert(p[0] == x);
        assert(p.drop_first() =~= Seq::<SegView>::empty());
        assert(render_from(p) == render_seg(x, false) + render_from(Seq::<SegView>::empty()));
        assert(render_from(Seq::<SegView>::empty()) == Seq::<char>::empty());
        assert(render_from(p) =~= render_from(segs) + render_seg(x, false));
    } else {
        lemma_render_from_snoc(segs.drop_first(), x);
        assert(segs.push(x).drop_first() =~= segs.drop_first().push(x));
        assert(segs.push(x)[0] == segs[0]);
        assert(render_seg(segs[0], false) + (render_from(segs.drop_first()) + render_seg(x, false))
            =~= (render_seg(segs[0], false) + render_from(segs.drop_first())) + render_seg(
            x,
            false,
        ));
    }
}

/// Rendering a path distributes over appending one segment.
pub proof fn lemma_render_path_snoc(segs: Seq<SegView>, x: SegView)
    ensures
        render_path(segs.push(x)) == render_path(segs) + render_seg(x, segs.len() == 0),
{
    if segs.len() == 0 {
        let p = segs.push(x);
        assert(p.len() == 1);
        assert(p[0] == x);
        assert(p.drop_first() =~= Seq::<SegView>::empty());
        assert(render_path(p) == render_seg(x, true) + render_from(Seq::<SegView>::empty()));
        assert(render_from(Seq::<SegView>::empty()) == Seq::<char>::empty());
        assert(render_path(p) =~= render_path(segs) + render_seg(x, true));
    } else {
        lemma_render_from_snoc(segs.drop_first(), x);
        assert(segs.push(x).drop_first() =~= segs.drop_first().push(x));
        assert(segs.push(x)[0] == segs[0]);
        assert(render_seg(segs[0], true) + (render_from(segs.drop_first()) + render_seg(x, false))
            =~= (render_seg(segs[0], true) + render_from(segs.drop_first())) + render_seg(
            x,
            false,
        ));
    }
}

/// Relies on std's `String::push`: appends the character to the end of the
/// string's character sequence.
#[verifier::external_body]
pub(crate) fn push_char(s: &mut String, c: char)
    ensures
        final(s)@ == old(s)@ + seq![c],
{
    s.push(c);
}

/// Executable form of [`digit_char`].
fn digit_to_char(d: u64) -> (r: char)
    requires
        d < 10,
    ensures
        r == digit_char(d as int),
{
    if d == 0 {
        '0'
    } else if d == 1 {
        '1'
    } else if d == 2 {
        '2'
    } else if d == 3 {
        '3'
    } else if d == 4 {
        '4'
    } else if d == 5 {
        '5'
    } else if d == 6 {
        '6'
    } else if d == 7 {
        '7'
    } else if d == 8 {
        '8'
    } else {
        '9'
    }
}

/// Appends the decimal rendering of `n`.
pub(crate) fn push_dec_digits(out: &mut String, n: u64)
    ensures
        final(out)@ == old(out)@ + dec_digits(n as nat),
    decreases n,
{
    if n >= 10 {
        push_dec_digits(out, n / 10);
        let d = digit_to_char(n % 10);
        push_char(out, d);
        proof {
            assert((old(out)@ + dec_digits((n / 10) as nat)) + seq![d] =~= old(out)@ + (dec_digits(
                (n / 10) as nat,
            ) + seq![d]));
        }
    } else {
        push_char(out, digit_to_char(n));
    }
}

/// Appends the name with `"` and `\` escaped.
pub(crate) fn push_escaped(out: &mut String, name: &str)
    ensures
        final(out)@ == old(out)@ + escape_name(name@),
{
    let n = name.unicode_len();
    let mut i: usize = 0;
    proof {
        assert(name@.subrange(0, 0) =~= Seq::<char>::empty());
        assert(escape_name(name@.subrange(0, 0)) =~= Seq::<char>::empty());
        assert(out@ =~= old(out)@ + escape_name(name@.subrange(0, 0)));
    }
    while i < n
        invariant
            n == name@.len(),
            0 <= i <= n,
            out@ == old(out)@ + escape_name(name@.subrange(0, i as int)),
        decreases n - i,
    {
        let c = name.get_char(i);
        if c == '"' || c == '\\' {
            push_char(out, '\\');
            push_char(out, c);
        } else {
            push_char(out, c);
        }
        proof {
            lemma_escape_name_snoc(name@.subrange(0, i as int), c);
            assert(name@.subrange(0, i + 1) =~= name@.subrange(0, i as int).push(c));
            assert((old(out)@ + escape_name(name@.subrange(0, i as int))) + escape_char(c)
                =~= old(out)@ + escape_name(name@.subrange(0, i + 1)));
        }
        i = i + 1;
    }
    proof {
        assert(name@.subrange(0, n as int) =~= name@);
    }
}

/// Appends the canonical text of one segment.
pub(crate) fn push_segment(out: &mut String, seg: &crate::segment::Segment<'_>, first: bool)
    ensures
        final(out)@ == old(out)@ + render_seg(seg@, first),
{
    match seg {
        crate::segment::Segment::Field { name, requires_quoting } => {
            if !first {
                push_char(out, '.');
            }
            if *requires_quoting {
                push_char(out, '"');
                push_escaped(out, name.as_str());
                push_char(out, '"');
                proof {
                    assert(out@ =~= old(out)@ + render_seg(seg@, first));
                }
            } else {
                out.append(name.as_str());
                proof {
                    assert(out@ =~= old(out)@ + render_seg(seg@, first));
                }
            }
        },
        crate::segment::Segment::Index { index } => {
            push_char(out, '[');
            let i = *index;
            let ghost gi = i as int;
            if i < 0 {
                push_char(out, '-');
                let mag: u64 = if i == i64::MIN {
                    9223372036854775808u64
                } else {
                    (-i) as u64
                };
                proof {
                    assert(mag as nat == (-gi) as nat);
                }
                push_dec_digits(out, mag);
            } else {
                push_dec_digits(out, i as u64);
            }
            push_char(out, ']');
            proof {
                assert(out@ =~= old(out)@ + render_seg(seg@, first));
            }
        },
    }
}

} // verus!
