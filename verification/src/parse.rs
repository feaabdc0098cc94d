//! The path grammar, as specification functions over character sequences.
//!
//! A path is a field segment followed by any number of `.field`, `."..."`
//! and `[index]` steps. Within quotes, `\"` and `\\` are the only escape
//! sequences; a quoted name stores the unescaped value. An index body is an
//! optional `-` and one or more decimal digits, and must fit in an `i64`.
//! Offsets in errors count characters from the start of the input.
//!
//! Error taxonomy, with the offset each carries:
//! - `UnterminatedQuote`: the opening `"`.
//! - `UnterminatedBracket`: the opening `[`.
//! - `InvalidIndex`: the first character of the bracket body.
//! - `EmptySegment`: the position where a field name should have begun.
//! - `UnexpectedCharacter`: the offending character (a character that can
//!   start no field, or an unrecognized escape).
//! - `TrailingInput`: the first character after a complete segment that is
//!   not `.`, `[` or the end of input.

use vstd::prelude::*;

use crate::segment::SegView;
use crate::segment::is_bare_char;
use crate::segment::is_digit_char;
use crate::segment::needs_quoting;
use crate::segment::seg_wf;
use crate::segment::path_wf;

verus! {

/// Why a path failed to parse.
#[derive(Clone, Copy, Debug, PartialEq, Eq, Structural)]
pub enum ParseErrorKind {
    UnterminatedQuote,
    UnterminatedBracket,
    InvalidIndex,
    EmptySegment,
    UnexpectedCharacter,
    TrailingInput,
}

/// A parse failure: what went wrong, and at which character offset.
#[derive(Clone, Copy, Debug, PartialEq, Eq, Structural)]
pub struct ParseError {
    pub kind: ParseErrorKind,
    pub offset: usize,
}

/// The mathematical value of a parse failure (unbounded offset).
pub struct ErrView {
    pub kind: ParseErrorKind,
    pub offset: int,
}

/// Value of an ASCII decimal digit.
pub open spec fn digit_val(c: char) -> int {
    c as u32 - 48
}

/// Value of a digit string, most significant digit first.
pub open spec fn dec_val(ds: Seq<char>) -> int
    decreases ds.len(),
{
    if ds.len() == 0 {
        0
    } else {
        dec_val(ds.drop_last()) * 10 + digit_val(ds.last())
    }
}

/// First position at or after `q` holding no bare character.
pub open spec fn scan_bare_end(s: Seq<char>, q: int) -> int
    decreases s.len() - q,
{
    if q < s.len() && is_bare_char(s[q]) {
        scan_bare_end(s, q + 1)
    } else {
        q
    }
}

/// First position at or after `q` holding no decimal digit.
pub open spec fn scan_digit_end(s: Seq<char>, q: int) -> int
    decreases s.len() - q,
{
    if q < s.len() && is_digit_char(s[q]) {
        scan_digit_end(s, q + 1)
    } else {
        q
    }
}

/// The body of a quoted field, read from position `r` (just past some prefix
/// of the quoted text) up to the closing quote. `open_q` is the offset of the
/// opening quote, used in errors. Yields the unescaped name and the position
/// after the closing quote.
pub open spec fn parse_quoted(s: Seq<char>, open_q: int, r: int) -> Result<(Seq<char>, int), ErrView>
    decreases s.len() - r,
{
    if r >= s.len() {
        Err(ErrView { kind: ParseErrorKind::UnterminatedQuote, offset: open_q })
    } else if s[r] == '"' {
        Ok((Seq::empty(), r + 1))
    } else if s[r] == '\\' {
        if r + 1 >= s.len() {
            Err(ErrView { kind: ParseErrorKind::UnterminatedQuote, offset: open_q })
        } else if s[r + 1] == '"' || s[r + 1] == '\\' {
            match parse_quoted(s, open_q, r + 2) {
                Ok((name, nx)) => Ok((seq![s[r + 1]] + name, nx)),
                Err(e) => Err(e),
            }
        } else {
            Err(ErrView { kind: ParseErrorKind::UnexpectedCharacter, offset: r + 1 })
        }
    } else {
        match parse_quoted(s, open_q, r + 1) {
            Ok((name, nx)) => Ok((seq![s[r]] + name, nx)),
            Err(e) => Err(e),
        }
    }
}

/// A field segment beginning at `q`: a quoted or a bare name. Yields the
/// logical name, whether it was quoted, and the position after it.
pub open spec fn parse_field_at(s: Seq<char>, q: int) -> Result<(Seq<char>, bool, int), ErrView> {
    if q >= s.len() {
        Err(ErrView { kind: ParseErrorKind::EmptySegment, offset: q })
    } else if s[q] == '"' {
        match parse_quoted(s, q, q + 1) {
            Ok((name, nx)) => Ok((name, true, nx)),
            Err(e) => Err(e),
        }
    } else if is_bare_char(s[q]) && !is_digit_char(s[q]) {
        let e = scan_bare_end(s, q);
        Ok((s.subrange(q, e), false, e))
    } else if s[q] == '.' || s[q] == '[' {
        Err(ErrView { kind: ParseErrorKind::EmptySegment, offset: q })
    } else {
        Err(ErrView { kind: ParseErrorKind::UnexpectedCharacter, offset: q })
    }
}

/// An index segment whose opening bracket stands at `br`. Yields the signed
/// value and the position after the closing bracket.
pub open spec fn parse_index_at(s: Seq<char>, br: int) -> Result<(int, int), ErrView> {
    let b = br + 1;
    if b >= s.len() {
        Err(ErrView { kind: ParseErrorKind::UnterminatedBracket, offset: br })
    } else {
        let neg = s[b] == '-';
        let d0 = if neg { b + 1 } else { b };
        let e = scan_digit_end(s, d0);
        if e >= s.len() {
            Err(ErrView { kind: ParseErrorKind::UnterminatedBracket, offset: br })
        } else if s[e] != ']' {
            Err(ErrView { kind: ParseErrorKind::InvalidIndex, offset: b })
        } else if e == d0 {
            Err(ErrView { kind: ParseErrorKind::InvalidIndex, offset: b })
        } else {
            let v = dec_val(s.subrange(d0, e));
            if neg {
                if v > i64::MAX as int + 1 {
                    Err(ErrView { kind: ParseErrorKind::InvalidIndex, offset: b })
                } else {
                    Ok((-v, e + 1))
                }
            } else {
                if v > i64::MAX as int {
                    Err(ErrView { kind: ParseErrorKind::InvalidIndex, offset: b })
                } else {
                    Ok((v, e + 1))
                }
            }
        }
    }
}

/// Bare-character scanning stays inside the string and stops exactly at the
/// first non-bare character.
pub proof fn lemma_scan_bare(s: Seq<char>, q: int)
    requires
        0 <= q <= s.len(),
    ensures
        q <= scan_bare_end(s, q) <= s.len(),
        forall|j: int| q <= j < scan_bare_end(s, q) ==> is_bare_char(#[trigger] s[j]),
        scan_bare_end(s, q) < s.len() ==> !is_bare_char(s[scan_bare_end(s, q)]),
    decreases s.len() - q,
{
    if q < s.len() && is_bare_char(s[q]) {
        lemma_scan_bare(s, q + 1);
    }
}

/// Digit scanning stays inside the string and stops exactly at the first
/// non-digit character.
pub proof fn lemma_scan_digit(s: Seq<char>, q: int)
    requires
        0 <= q <= s.len(),
    ensures
        q <= scan_digit_end(s, q) <= s.len(),
        forall|j: int| q <= j < scan_digit_end(s, q) ==> is_digit_char(#[trigger] s[j]),
        scan_digit_end(s, q) < s.len() ==> !is_digit_char(s[scan_digit_end(s, q)]),
    decreases s.len() - q,
{
    if q < s.len() && is_digit_char(s[q]) {
        lemma_scan_digit(s, q + 1);
    }
}

/// A successfully parsed quoted body ends strictly past where it began and
/// inside the string.
pub proof fn lemma_parse_quoted_bounds(s: Seq<char>, open_q: int, r: int)
    requires
        0 <= r <= s.len(),
    ensures
        parse_quoted(s, open_q, r) matches Ok((name, nx)) ==> r < nx <= s.len(),
    decreases s.len() - r,
{
    if r < s.len() {
        if s[r] == '"' {
        } else if s[r] == '\\' {
            if r + 2 <= s.len() {
                lemma_parse_quoted_bounds(s, open_q, r + 2);
            }
        } else {
            lemma_parse_quoted_bounds(s, open_q, r + 1);
        }
    }
}

/// A successfully parsed field ends strictly past where it began and inside
/// the string; a bare field needs no quoting.
pub proof fn lemma_parse_field_at(s: Seq<char>, q: int)
    requires
        0 <= q,
    ensures
        parse_field_at(s, q) matches Ok((name, quoted, nx)) ==> {
            &&& q < nx <= s.len()
            &&& (!quoted ==> !needs_quoting(name))
        },
{
    if q < s.len() {
        if s[q] == '"' {
            lemma_parse_quoted_bounds(s, q, q + 1);
        } else if is_bare_char(s[q]) && !is_digit_char(s[q]) {
            lemma_scan_bare(s, q);
            if let Ok((name, quoted, nx)) = parse_field_at(s, q) {
                assert(name == s.subrange(q, scan_bare_end(s, q)));
                assert(name.len() > 0);
                assert(name[0] == s[q]);
                assert(forall|i: int| 0 <= i < name.len() ==> is_bare_char(#[trigger] name[i]));
            }
        }
    }
}

/// A successfully parsed index ends strictly past its bracket, inside the
/// string, with a value in the `i64` range.
pub proof fn lemma_parse_index_at(s: Seq<char>, br: int)
    requires
        0 <= br < s.len(),
    ensures
        parse_index_at(s, br) matches Ok((v, nx)) ==> {
            &&& br + 1 < nx <= s.len()
            &&& i64::MIN <= v <= i64::MAX
        },
{
    let b = br + 1;
    if b < s.len() {
        let neg = s[b] == '-';
        let d0 = if neg { b + 1 } else { b };
        if d0 <= s.len() {
            lemma_scan_digit(s, d0);
        }
        if let Ok((v, nx)) = parse_index_at(s, br) {
            let e = scan_digit_end(s, d0);
            lemma_dec_val_nonneg(s.subrange(d0, e));
        }
    }
}

/// The value of a digit string is non-negative.
pub proof fn lemma_dec_val_nonneg(ds: Seq<char>)
    requires
        forall|i: int| 0 <= i < ds.len() ==> is_digit_char(#[trigger] ds[i]),
    ensures
        dec_val(ds) >= 0,
    decreases ds.len(),
{
    if ds.len() > 0 {
        lemma_dec_val_nonneg(ds.drop_last());
    }
}

/// The remainder of a path after its first segment: at each step either the
/// input ends, a `.` introduces a field, or a `[` introduces an index.
pub open spec fn parse_from(s: Seq<char>, p: int) -> Result<Seq<SegView>, ErrView>
    decreases s.len() - p
    when 0 <= p
    via parse_from_dec
{
    if p >= s.len() {
        Ok(Seq::empty())
    } else if s[p] == '.' {
        match parse_field_at(s, p + 1) {
            Ok((name, quoted, nx)) => match parse_from(s, nx) {
                Ok(rest) => Ok(seq![SegView::Field { name, quoted }] + rest),
                Err(e) => Err(e),
            },
            Err(e) => Err(e),
        }
    } else if s[p] == '[' {
        match parse_index_at(s, p) {
            Ok((v, nx)) => match parse_from(s, nx) {
                Ok(rest) => Ok(seq![SegView::Index { index: v }] + rest),
                Err(e) => Err(e),
            },
            Err(e) => Err(e),
        }
    } else {
        Err(ErrView { kind: ParseErrorKind::TrailingInput, offset: p })
    }
}

#[via_fn]
proof fn parse_from_dec(s: Seq<char>, p: int) {
    if 0 <= p < s.len() {
        lemma_parse_field_at(s, p + 1);
        lemma_parse_index_at(s, p);
    }
}

/// The whole grammar: the empty input is the root path; otherwise a first
/// field segment followed by the remaining steps, consuming all input.
pub open spec fn parse_path(s: Seq<char>) -> Result<Seq<SegView>, ErrView> {
    if s.len() == 0 {
        Ok(Seq::empty())
    } else {
        match parse_field_at(s, 0) {
            Ok((name, quoted, nx)) => match parse_from(s, nx) {
                Ok(rest) => Ok(seq![SegView::Field { name, quoted }] + rest),
                Err(e) => Err(e),
            },
            Err(e) => Err(e),
        }
    }
}

/// Every segment the tail parser yields is well formed.
pub proof fn lemma_parse_from_wf(s: Seq<char>, p: int)
    requires
        0 <= p,
    ensures
        parse_from(s, p) matches Ok(segs) ==> forall|i: int|
            0 <= i < segs.len() ==> seg_wf(#[trigger] segs[i]),
    decreases s.len() - p,
{
    if p < s.len() {
        if s[p] == '.' {
            lemma_parse_field_at(s, p + 1);
            if let Ok((name, quoted, nx)) = parse_field_at(s, p + 1) {
                lemma_parse_from_wf(s, nx);
            }
        } else if s[p] == '[' {
            lemma_parse_index_at(s, p);
            if let Ok((v, nx)) = parse_index_at(s, p) {
                lemma_parse_from_wf(s, nx);
            }
        }
    }
}

/// Whatever the parser accepts is a well-formed path.
pub proof fn lemma_parse_path_wf(s: Seq<char>)
    ensures
        parse_path(s) matches Ok(segs) ==> path_wf(segs),
{
    if s.len() > 0 {
        lemma_parse_field_at(s, 0);
        if let Ok((name, quoted, nx)) = parse_field_at(s, 0) {
            lemma_parse_from_wf(s, nx);
        }
    }
}

} // verus!

use crate::lookup::Lookup;
use crate::lookup::seg_views;
use crate::lookup::lemma_seg_views_push;
use crate::segment::Segment;
use crate::segment::FieldBuf;
use crate::segment::bare_char;
use crate::segment::digit_char_test;
use crate::render::push_char;
use vstd::arithmetic::div_mod::lemma_fundamental_div_mod;

verus! {

/// Prepending already-parsed segments to the outcome of the rest.
pub open spec fn glue(pre: Seq<SegView>, res: Result<Seq<SegView>, ErrView>) -> Result<
    Seq<SegView>,
    ErrView,
> {
    match res {
        Ok(rest) => Ok(pre + rest),
        Err(e) => Err(e),
    }
}

/// Scanning may resume after any run of bare characters.
proof fn lemma_scan_bare_skip(s: Seq<char>, q: int, i: int)
    requires
        0 <= q <= i <= s.len(),
        forall|j: int| q <= j < i ==> is_bare_char(#[trigger] s[j]),
    ensures
        scan_bare_end(s, q) == scan_bare_end(s, i),
    decreases i - q,
{
    if q < i {
        lemma_scan_bare_skip(s, q + 1, i);
    }
}

/// Scanning may resume after any run of digits.
proof fn lemma_scan_digit_skip(s: Seq<char>, q: int, i: int)
    requires
        0 <= q <= i <= s.len(),
        forall|j: int| q <= j < i ==> is_digit_char(#[trigger] s[j]),
    ensures
        scan_digit_end(s, q) == scan_digit_end(s, i),
    decreases i - q,
{
    if q < i {
        lemma_scan_digit_skip(s, q + 1, i);
    }
}

/// A quoted body without escapes up to its closing quote is read verbatim.
proof fn lemma_quoted_plain(s: Seq<char>, open_q: int, r0: int, e: int)
    requires
        0 <= r0 <= e < s.len(),
        forall|j: int| r0 <= j < e ==> #[trigger] s[j] != '"' && s[j] != '\\',
        s[e] == '"',
    ensures
        parse_quoted(s, open_q, r0) == Ok::<(Seq<char>, int), ErrView>((s.subrange(r0, e), e + 1)),
    decreases e - r0,
{
    if r0 == e {
        assert(s.subrange(r0, e) =~= Seq::<char>::empty());
    } else {
        lemma_quoted_plain(s, open_q, r0 + 1, e);
        assert(seq![s[r0]] + s.subrange(r0 + 1, e) =~= s.subrange(r0, e));
    }
}

/// A quoted body that runs to the end of input without escapes or a closing
/// quote is unterminated.
proof fn lemma_quoted_runs_out(s: Seq<char>, open_q: int, r0: int)
    requires
        0 <= r0 <= s.len(),
        forall|j: int| r0 <= j < s.len() ==> #[trigger] s[j] != '"' && s[j] != '\\',
    ensures
        parse_quoted(s, open_q, r0) == Err::<(Seq<char>, int), ErrView>(
            ErrView { kind: ParseErrorKind::UnterminatedQuote, offset: open_q },
        ),
    decreases s.len() - r0,
{
    if r0 < s.len() {
        lemma_quoted_runs_out(s, open_q, r0 + 1);
    }
}

/// Position of the first `"` or `\` at or after `from`, or the end.
fn find_special(s: &str, n: usize, from: usize) -> (r: usize)
    requires
        n == s@.len(),
        from <= n,
    ensures
        from <= r <= n,
        forall|j: int| from <= j < r ==> #[trigger] s@[j] != '"' && s@[j] != '\\',
        r < n ==> (s@[r as int] == '"' || s@[r as int] == '\\'),
{
    let mut i: usize = from;
    while i < n
        invariant
            n == s@.len(),
            from <= i <= n,
            forall|j: int| from <= j < i ==> #[trigger] s@[j] != '"' && s@[j] != '\\',
        decreases n - i,
    {
        let c = s.get_char(i);
        if c == '"' || c == '\\' {
            return i;
        }
        i = i + 1;
    }
    i
}

/// Executable form of [`scan_bare_end`].
fn scan_bare_from(s: &str, n: usize, from: usize) -> (r: usize)
    requires
        n == s@.len(),
        from <= n,
    ensures
        r as int == scan_bare_end(s@, from as int),
        from <= r <= n,
{
    let mut i: usize = from;
    while i < n
        invariant
            n == s@.len(),
            from <= i <= n,
            forall|j: int| from <= j < i ==> is_bare_char(#[trigger] s@[j]),
        decreases n - i,
    {
        if !bare_char(s.get_char(i)) {
            proof {
                lemma_scan_bare_skip(s@, from as int, i as int);
            }
            return i;
        }
        i = i + 1;
    }
    proof {
        lemma_scan_bare_skip(s@, from as int, i as int);
    }
    i
}

/// Reads a quoted field whose opening quote stands at `oq`. Borrows from the
/// input when the body holds no escape sequence; unescapes into an owned
/// string otherwise.
fn scan_quoted<'a>(s: &'a str, n: usize, oq: usize) -> (r: Result<(FieldBuf<'a>, usize), ParseError>)
    requires
        n == s@.len(),
        oq < n,
        s@[oq as int] == '"',
    ensures
        match r {
            Ok((name, nx)) => parse_quoted(s@, oq as int, oq as int + 1) == Ok::<
                (Seq<char>, int),
                ErrView,
            >((name@, nx as int)),
            Err(e) => parse_quoted(s@, oq as int, oq as int + 1) matches Err(ev) && ev.kind
                == e.kind && ev.offset == e.offset as int,
        },
{
    // First pass: look for the closing quote; borrow if no escape appears.
    let e = find_special(s, n, oq + 1);
    if e >= n {
        proof {
            lemma_quoted_runs_out(s@, oq as int, oq as int + 1);
        }
        return Err(ParseError { kind: ParseErrorKind::UnterminatedQuote, offset: oq });
    }
    if s.get_char(e) == '"' {
        let name = s.substring_char(oq + 1, e);
        proof {
            lemma_quoted_plain(s@, oq as int, oq as int + 1, e as int);
        }
        return Ok((FieldBuf::Borrowed(name), e + 1));
    }
    // An escape occurs; unescape into an owned buffer from the start.
    let mut acc = String::new();
    let mut r: usize = oq + 1;
    proof {
        if let Ok((nm, nx)) = parse_quoted(s@, oq as int, r as int) {
            assert(acc@ + nm =~= nm);
        }
    }
    loop
        invariant
            n == s@.len(),
            oq < r <= n,
            parse_quoted(s@, oq as int, oq as int + 1) == (match parse_quoted(
                s@,
                oq as int,
                r as int,
            ) {
                Ok((nm, nx)) => Ok::<(Seq<char>, int), ErrView>((acc@ + nm, nx)),
                Err(e) => Err(e),
            }),
        decreases n - r,
    {
        if r >= n {
            return Err(ParseError { kind: ParseErrorKind::UnterminatedQuote, offset: oq });
        }
        let c = s.get_char(r);
        if c == '"' {
            proof {
                assert(acc@ + Seq::<char>::empty() =~= acc@);
            }
            return Ok((FieldBuf::Owned(acc), r + 1));
        }
        if c == '\\' {
            if r + 1 >= n {
                return Err(ParseError { kind: ParseErrorKind::UnterminatedQuote, offset: oq });
            }
            let c2 = s.get_char(r + 1);
            if c2 == '"' || c2 == '\\' {
                let ghost oacc = acc@;
                push_char(&mut acc, c2);
                proof {
                    if let Ok((nm, nx)) = parse_quoted(s@, oq as int, r as int + 2) {
                        assert(oacc + (seq![c2] + nm) =~= acc@ + nm);
                    }
                }
                r = r + 2;
            } else {
                return Err(
                    ParseError { kind: ParseErrorKind::UnexpectedCharacter, offset: r + 1 },
                );
            }
        } else {
            let ghost oacc = acc@;
            push_char(&mut acc, c);
            proof {
                if let Ok((nm, nx)) = parse_quoted(s@, oq as int, r as int + 1) {
                    assert(oacc + (seq![c] + nm) =~= acc@ + nm);
                }
            }
            r = r + 1;
        }
    }
}

/// Reads a field segment beginning at `q`.
fn scan_field<'a>(s: &'a str, n: usize, q: usize) -> (r: Result<
    (FieldBuf<'a>, bool, usize),
    ParseError,
>)
    requires
        n == s@.len(),
        q <= n,
    ensures
        match r {
            Ok((name, quoted, nx)) => parse_field_at(s@, q as int) == Ok::<
                (Seq<char>, bool, int),
                ErrView,
            >((name@, quoted, nx as int)),
            Err(e) => parse_field_at(s@, q as int) matches Err(ev) && ev.kind == e.kind
                && ev.offset == e.offset as int,
        },
{
    if q >= n {
        return Err(ParseError { kind: ParseErrorKind::EmptySegment, offset: q });
    }
    let c = s.get_char(q);
    if c == '"' {
        match scan_quoted(s, n, q) {
            Ok((name, nx)) => Ok((name, true, nx)),
            Err(e) => Err(e),
        }
    } else if bare_char(c) && !digit_char_test(c) {
        let e = scan_bare_from(s, n, q);
        let name = s.substring_char(q, e);
        Ok((FieldBuf::Borrowed(name), false, e))
    } else if c == '.' || c == '[' {
        Err(ParseError { kind: ParseErrorKind::EmptySegment, offset: q })
    } else {
        Err(ParseError { kind: ParseErrorKind::UnexpectedCharacter, offset: q })
    }
}

} // verus!

verus! {

/// Reads an index segment whose opening bracket stands at `br`.
fn scan_index(s: &str, n: usize, br: usize) -> (r: Result<(i64, usize), ParseError>)
    requires
        n == s@.len(),
        br < n,
        s@[br as int] == '[',
    ensures
        match r {
            Ok((v, nx)) => parse_index_at(s@, br as int) == Ok::<(int, int), ErrView>(
                (v as int, nx as int),
            ),
            Err(e) => parse_index_at(s@, br as int) matches Err(ev) && ev.kind == e.kind
                && ev.offset == e.offset as int,
        },
{
    let b = br + 1;
    if b >= n {
        return Err(ParseError { kind: ParseErrorKind::UnterminatedBracket, offset: br });
    }
    let neg = s.get_char(b) == '-';
    let d0 = if neg {
        b + 1
    } else {
        b
    };
    let limit: u64 = if neg {
        9223372036854775808
    } else {
        9223372036854775807
    };
    let mut i: usize = d0;
    let mut acc: u64 = 0;
    let mut over = false;
    proof {
        assert(s@.subrange(d0 as int, d0 as int) =~= Seq::<char>::empty());
    }
    while i < n && digit_char_test(s.get_char(i))
        invariant
            n == s@.len(),
            d0 <= i <= n,
            limit >= 9223372036854775807,
            forall|j: int| d0 <= j < i ==> is_digit_char(#[trigger] s@[j]),
            !over ==> acc as int == dec_val(s@.subrange(d0 as int, i as int)) && acc <= limit,
            over ==> dec_val(s@.subrange(d0 as int, i as int)) > limit,
        decreases n - i,
    {
        let c = s.get_char(i);
        let d: u64 = (c as u32 - 48) as u64;
        let ghost pv = dec_val(s@.subrange(d0 as int, i as int));
        proof {
            assert(is_digit_char(s@[i as int]));
            assert(d < 10);
            assert(s@.subrange(d0 as int, i as int + 1).drop_last() =~= s@.subrange(
                d0 as int,
                i as int,
            ));
            assert(s@.subrange(d0 as int, i as int + 1).last() == s@[i as int]);
            assert(dec_val(s@.subrange(d0 as int, i as int + 1)) == pv * 10 + digit_val(
                s@[i as int],
            ));
            lemma_dec_val_nonneg(s@.subrange(d0 as int, i as int));
        }
        if !over {
            if acc <= (limit - d) / 10 {
                proof {
                    lemma_fundamental_div_mod((limit - d) as int, 10);
                    assert(acc as int * 10 + d as int <= limit as int);
                }
                acc = acc * 10 + d;
            } else {
                proof {
                    lemma_fundamental_div_mod((limit - d) as int, 10);
                    assert(acc as int * 10 + d as int > limit as int);
                }
                over = true;
            }
        }
        i = i + 1;
    }
    proof {
        lemma_scan_digit_skip(s@, d0 as int, i as int);
    }
    if i >= n {
        return Err(ParseError { kind: ParseErrorKind::UnterminatedBracket, offset: br });
    }
    let c = s.get_char(i);
    if c != ']' {
        return Err(ParseError { kind: ParseErrorKind::InvalidIndex, offset: b });
    }
    if i == d0 {
        return Err(ParseError { kind: ParseErrorKind::InvalidIndex, offset: b });
    }
    if over {
        return Err(ParseError { kind: ParseErrorKind::InvalidIndex, offset: b });
    }
    if neg {
        if acc == 9223372036854775808 {
            Ok((i64::MIN, i + 1))
        } else {
            Ok((-(acc as i64), i + 1))
        }
    } else {
        Ok((acc as i64, i + 1))
    }
}

/// Parses a whole path; the empty input yields the root path. Bare field
/// names reference the input buffer; only escape sequences force a copy.
pub fn parse_lookup<'a>(s: &'a str) -> (r: Result<Lookup<'a>, ParseError>)
    ensures
        match r {
            Ok(l) => {
                &&& parse_path(s@) == Ok::<Seq<SegView>, ErrView>(l@)
                &&& l.wf()
            },
            Err(e) => parse_path(s@) matches Err(ev) && ev.kind == e.kind && ev.offset
                == e.offset as int,
        },
{
    let n = s.unicode_len();
    if n == 0 {
        return Ok(Lookup::root());
    }
    let mut segs: Vec<Segment<'a>> = Vec::new();
    proof {
        assert(seg_views(segs@) =~= Seq::<SegView>::empty());
    }
    let first = scan_field(s, n, 0);
    let mut p: usize = 0;
    match first {
        Err(e) => {
            return Err(e);
        },
        Ok((name, quoted, nx)) => {
            proof {
                lemma_parse_field_at(s@, 0);
            }
            let ghost osegs = segs@;
            let seg = Segment::Field { name, requires_quoting: quoted };
            let ghost sv = seg@;
            segs.push(seg);
            proof {
                lemma_seg_views_push(osegs, seg);
                if let Ok(rest) = parse_from(s@, nx as int) {
                    assert(seq![sv] + rest =~= seg_views(segs@) + rest);
                }
            }
            p = nx;
        },
    }
    while p < n
        invariant
            n == s@.len(),
            p <= n,
            parse_path(s@) == glue(seg_views(segs@), parse_from(s@, p as int)),
        decreases n - p,
    {
        let c = s.get_char(p);
        if c == '.' {
            match scan_field(s, n, p + 1) {
                Err(e) => {
                    return Err(e);
                },
                Ok((name, quoted, nx)) => {
                    proof {
                        lemma_parse_field_at(s@, p as int + 1);
                    }
                    let ghost osegs = segs@;
                    let seg = Segment::Field { name, requires_quoting: quoted };
                    let ghost sv = seg@;
                    segs.push(seg);
                    proof {
                        lemma_seg_views_push(osegs, seg);
                        if let Ok(rest) = parse_from(s@, nx as int) {
                            assert(seg_views(osegs) + (seq![sv] + rest) =~= seg_views(segs@)
                                + rest);
                        }
                    }
                    p = nx;
                },
            }
        } else if c == '[' {
            match scan_index(s, n, p) {
                Err(e) => {
                    return Err(e);
                },
                Ok((v, nx)) => {
                    proof {
                        lemma_parse_index_at(s@, p as int);
                    }
                    let ghost osegs = segs@;
                    let seg = Segment::Index { index: v };
                    let ghost sv = seg@;
                    segs.push(seg);
                    proof {
                        lemma_seg_views_push(osegs, seg);
                        if let Ok(rest) = parse_from(s@, nx as int) {
                            assert(seg_views(osegs) + (seq![sv] + rest) =~= seg_views(segs@)
                                + rest);
                        }
                    }
                    p = nx;
                },
            }
        } else {
            return Err(ParseError { kind: ParseErrorKind::TrailingInput, offset: p });
        }
    }
    proof {
        assert(parse_from(s@, p as int) == Ok::<Seq<SegView>, ErrView>(Seq::empty()));
        assert(seg_views(segs@) + Seq::<SegView>::empty() =~= seg_views(segs@));
        lemma_parse_path_wf(s@);
    }
    Ok(Lookup::from_segments(segs))
}

} // verus!
