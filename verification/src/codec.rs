//! The wire form of a path.
//!
//! For any serialization format that carries a path as a scalar, the wire
//! form is exactly the canonical string: serializing writes
//! `to_canonical_string`, deserializing feeds the decoded string through the
//! parser and surfaces the same error taxonomy. Tying the wire form to the
//! grammar means any grammar change is a wire-format break.

use vstd::prelude::*;

use crate::lookup::Lookup;
use crate::parse::ErrView;
use crate::parse::ParseError;
use crate::parse::parse_lookup;
use crate::parse::parse_path;
use crate::render::render_path;
use crate::roundtrip::lemma_parse_render_path;
use crate::segment::SegView;
use crate::segment::path_wf;

verus! {

/// The scalar wire representation: the canonical string.
pub fn to_wire(l: &Lookup<'_>) -> (r: String)
    ensures
        r@ == render_path(l@),
{
    l.to_canonical_string()
}

/// Reads a path back from its wire representation.
pub fn from_wire<'a>(s: &'a str) -> (r: Result<Lookup<'a>, ParseError>)
    ensures
        match r {
            Ok(l) => {
                &&& parse_path(s@) == Ok::<Seq<SegView>, ErrView>(l@)
                &&& l.wf()
            },
            Err(e) => parse_path(s@) matches Err(ev) && ev.kind == e.kind && ev.offset
                == e.offset as int,
        },
{
    parse_lookup(s)
}

/// Serialization round trip: deserializing the wire form of any well-formed
/// path yields exactly the same path.
pub proof fn lemma_wire_round_trip(segs: Seq<SegView>)
    requires
        path_wf(segs),
    ensures
        parse_path(render_path(segs)) == Ok::<Seq<SegView>, ErrView>(segs),
{
    lemma_parse_render_path(segs);
}

} // verus!
