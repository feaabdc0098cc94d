//! A single step of a path: a named field or a signed sequence index.
//!
//! A field's textual payload either references the input buffer that was
//! parsed (no unescaping was needed) or owns an independent string (escape
//! sequences forced a copy). The distinction is invisible to equality,
//! hashing and rendering: every logical operation goes through the view,
//! a sequence of characters.

use vstd::prelude::*;

verus! {

/// Characters that may appear in an unquoted field name: ASCII letters,
/// digits, `_` and `-`.
pub open spec fn is_bare_char(c: char) -> bool {
    (97 <= c as u32 && c as u32 <= 122)  // 'a'..='z'
    || (65 <= c as u32 && c as u32 <= 90)  // 'A'..='Z'
    || (48 <= c as u32 && c as u32 <= 57)  // '0'..='9'
    || c == '_'
    || c == '-'
}

/// ASCII decimal digit.
pub open spec fn is_digit_char(c: char) -> bool {
    48 <= c as u32 && c as u32 <= 57
}

/// A field name must be quoted in canonical text when it is empty, begins
/// with a digit, or contains any character outside the bare set.
pub open spec fn needs_quoting(name: Seq<char>) -> bool {
    ||| name.len() == 0
    ||| is_digit_char(name[0])
    ||| exists|i: int| 0 <= i < name.len() && !is_bare_char(name[i])
}

/// Executable form of [`is_bare_char`].
pub fn bare_char(c: char) -> (r: bool)
    ensures
        r == is_bare_char(c),
{
    let u = c as u32;
    (97 <= u && u <= 122) || (65 <= u && u <= 90) || (48 <= u && u <= 57) || c == '_' || c == '-'
}

/// Executable form of [`is_digit_char`].
pub fn digit_char_test(c: char) -> (r: bool)
    ensures
        r == is_digit_char(c),
{
    let u = c as u32;
    48 <= u && u <= 57
}

/// Executable form of [`needs_quoting`].
pub fn field_needs_quoting(name: &str) -> (r: bool)
    ensures
        r == needs_quoting(name@),
{
    let n = name.unicode_len();
    if n == 0 {
        return true;
    }
    if digit_char_test(name.get_char(0)) {
        return true;
    }
    let mut i: usize = 0;
    while i < n
        invariant
            n == name@.len(),
            0 <= i <= n,
            forall|j: int| 0 <= j < i ==> is_bare_char(name@[j]),
        decreases n - i,
    {
        if !bare_char(name.get_char(i)) {
            return true;
        }
        i = i + 1;
    }
    false
}

/// The textual payload of a field segment: either a slice of the original
/// input buffer, or an owned copy made while unescaping.
#[derive(Debug)]
pub enum FieldBuf<'a> {
    Borrowed(&'a str),
    Owned(String),
}

impl<'a> View for FieldBuf<'a> {
    type V = Seq<char>;

    open spec fn view(&self) -> Seq<char> {
        match self {
            FieldBuf::Borrowed(s) => s@,
            FieldBuf::Owned(s) => s@,
        }
    }
}

impl<'a> FieldBuf<'a> {
    /// The name as a string slice, whichever representation backs it.
    pub fn as_str(&self) -> (r: &str)
        ensures
            r@ == self@,
    {
        match self {
            FieldBuf::Borrowed(s) => s,
            FieldBuf::Owned(s) => s.as_str(),
        }
    }

    /// An owned copy, free of any tie to the parsed input buffer.
    pub fn detach(&self) -> (r: FieldBuf<'static>)
        ensures
            r@ == self@,
    {
        FieldBuf::Owned(self.as_str().to_owned())
    }
}

impl<'a> Clone for FieldBuf<'a> {
    fn clone(&self) -> (r: Self)
        ensures
            r@ == self@,
    {
        match self {
            FieldBuf::Borrowed(s) => FieldBuf::Borrowed(s),
            FieldBuf::Owned(s) => FieldBuf::Owned(s.clone()),
        }
    }
}

/// The mathematical value of a segment: the logical (unescaped) name and
/// its quoting flag, or the signed index.
#[verifier::ext_equal]
pub enum SegView {
    Field { name: Seq<char>, quoted: bool },
    Index { index: int },
}

/// One step of a path.
#[derive(Debug)]
pub enum Segment<'a> {
    /// A named field. `requires_quoting` records that the canonical text
    /// writes the name in quotes.
    Field { name: FieldBuf<'a>, requires_quoting: bool },
    /// A sequence position; negative values count from the end.
    Index { index: i64 },
}

impl<'a> View for Segment<'a> {
    type V = SegView;

    open spec fn view(&self) -> SegView {
        match self {
            Segment::Field { name, requires_quoting } => SegView::Field {
                name: name@,
                quoted: *requires_quoting,
            },
            Segment::Index { index } => SegView::Index { index: *index as int },
        }
    }
}

/// A segment is well formed when a name that the grammar cannot write bare
/// carries the quoting flag, and an index lies in the machine range.
pub open spec fn seg_wf(v: SegView) -> bool {
    match v {
        SegView::Field { name, quoted } => needs_quoting(name) ==> quoted,
        SegView::Index { index } => i64::MIN <= index <= i64::MAX,
    }
}

/// A path is well formed when every segment is, and the path does not begin
/// with an index: the grammar opens every path with a field segment.
pub open spec fn path_wf(segs: Seq<SegView>) -> bool {
    &&& forall|i: int| 0 <= i < segs.len() ==> seg_wf(#[trigger] segs[i])
    &&& segs.len() > 0 ==> segs[0] is Field
}

impl<'a> Segment<'a> {
    /// The field name, when this segment is a field.
    pub fn as_field(&self) -> (r: Option<&str>)
        ensures
            match r {
                Some(s) => self@ is Field && s@ == self@.arrow_Field_name(),
                None => self@ is Index,
            },
    {
        match self {
            Segment::Field { name, .. } => Some(name.as_str()),
            Segment::Index { .. } => None,
        }
    }

    /// The index value, when this segment is an index.
    pub fn as_index(&self) -> (r: Option<i64>)
        ensures
            match r {
                Some(i) => self@ is Index && i as int == self@.arrow_Index_index(),
                None => self@ is Field,
            },
    {
        match self {
            Segment::Field { .. } => None,
            Segment::Index { index } => Some(*index),
        }
    }

    /// Whether a field segment is written quoted in canonical text.
    pub fn is_quoted(&self) -> (r: bool)
        ensures
            r == (self@ is Field && self@.arrow_Field_quoted()),
    {
        match self {
            Segment::Field { requires_quoting, .. } => *requires_quoting,
            Segment::Index { .. } => false,
        }
    }

    /// An owned copy, free of any tie to the parsed input buffer.
    pub fn detach(&self) -> (r: Segment<'static>)
        ensures
            r@ == self@,
    {
        match self {
            Segment::Field { name, requires_quoting } => Segment::Field {
                name: name.detach(),
                requires_quoting: *requires_quoting,
            },
            Segment::Index { index } => Segment::Index { index: *index },
        }
    }
}

impl<'a> Clone for Segment<'a> {
    fn clone(&self) -> (r: Self)
        ensures
            r@ == self@,
    {
        match self {
            Segment::Field { name, requires_quoting } => Segment::Field {
                name: name.clone(),
                requires_quoting: *requires_quoting,
            },
            Segment::Index { index } => Segment::Index { index: *index },
        }
    }
}

/// Character-by-character string comparison.
pub fn str_eq_chars(a: &str, b: &str) -> (r: bool)
    ensures
        r == (a@ == b@),
{
    let na = a.unicode_len();
    let nb = b.unicode_len();
    if na != nb {
        return false;
    }
    let mut i: usize = 0;
    while i < na
        invariant
            na == a@.len(),
            na == b@.len(),
            0 <= i <= na,
            forall|j: int| 0 <= j < i ==> a@[j] == b@[j],
        decreases na - i,
    {
        if a.get_char(i) != b.get_char(i) {
            return false;
        }
        i = i + 1;
    }
    proof {
        assert(a@ =~= b@);
    }
    true
}

impl<'a> PartialEq for Segment<'a> {
    /// Structural equality over the logical value: name and quoting flag, or
    /// index. Whether a name is buffer-referenced or owned plays no part.
    fn eq(&self, other: &Self) -> (r: bool) {
        match (self, other) {
            (
                Segment::Field { name: na, requires_quoting: qa },
                Segment::Field { name: nb, requires_quoting: qb },
            ) => *qa == *qb && str_eq_chars(na.as_str(), nb.as_str()),
            (Segment::Index { index: ia }, Segment::Index { index: ib }) => *ia == *ib,
            _ => false,
        }
    }
}

impl<'a> vstd::std_specs::cmp::PartialEqSpecImpl for Segment<'a> {
    open spec fn obeys_eq_spec() -> bool {
        true
    }

    open spec fn eq_spec(&self, other: &Self) -> bool {
        self@ == other@
    }
}

impl<'a> Eq for Segment<'a> {

}

} // verus!
