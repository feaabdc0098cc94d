//! The path value: an ordered sequence of segments, root to leaf.
//!
//! A `Lookup` is compared, hashed and rendered through its logical view
//! alone; whether a segment's name references the parsed buffer or owns a
//! copy is invisible. A well-formed path never begins with an index, and
//! every field whose name the grammar cannot write bare carries its quoting
//! flag; parsing and the constructors below only ever build such paths.

use vstd::prelude::*;

use crate::segment::FieldBuf;
use crate::segment::Segment;
use crate::segment::SegView;
use crate::segment::field_needs_quoting;
use crate::segment::needs_quoting;
use crate::segment::path_wf;
use crate::parse::ErrView;
use crate::parse::ParseError;
use crate::parse::parse_path;
use crate::render::push_segment;
use crate::render::render_path;
use crate::render::lemma_render_path_snoc;

verus! {

/// The logical view of a segment sequence.
pub open spec fn seg_views<'a>(v: Seq<Segment<'a>>) -> Seq<SegView> {
    v.map_values(|s: Segment<'a>| s@)
}

/// Taking views distributes over appending one segment.
pub proof fn lemma_seg_views_push<'a>(v: Seq<Segment<'a>>, x: Segment<'a>)
    ensures
        seg_views(v.push(x)) == seg_views(v).push(x@),
{
    assert(seg_views(v.push(x)) =~= seg_views(v).push(x@));
}

/// An ordered address into nested structured data.
#[derive(Debug)]
pub struct Lookup<'a> {
    segments: Vec<Segment<'a>>,
}

impl<'a> View for Lookup<'a> {
    type V = Seq<SegView>;

    closed spec fn view(&self) -> Seq<SegView> {
        seg_views(self.segments@)
    }
}

impl<'a> Lookup<'a> {
    /// Every `Lookup` that the library hands out satisfies this.
    pub open spec fn wf(&self) -> bool {
        path_wf(self@)
    }

    /// The root path: no segments at all.
    pub fn root() -> (r: Lookup<'a>)
        ensures
            r@ == Seq::<SegView>::empty(),
            r.wf(),
    {
        let r = Lookup { segments: Vec::new() };
        proof {
            assert(r@ =~= Seq::<SegView>::empty());
        }
        r
    }

    /// Number of segments.
    pub fn len(&self) -> (n: usize)
        ensures
            n == self@.len(),
    {
        self.segments.len()
    }

    /// Whether this is the root path.
    pub fn is_root(&self) -> (r: bool)
        ensures
            r == (self@.len() == 0),
    {
        self.segments.len() == 0
    }

    /// Read access to the segments, in order.
    pub fn segments(&self) -> (r: &Vec<Segment<'a>>)
        ensures
            seg_views(r@) == self@,
    {
        &self.segments
    }

    /// The segment at position `i`.
    pub fn get(&self, i: usize) -> (r: &Segment<'a>)
        requires
            i < self@.len(),
        ensures
            r@ == self@[i as int],
    {
        &self.segments[i]
    }

    /// Builds a path from its segments.
    pub fn from_segments(segments: Vec<Segment<'a>>) -> (r: Lookup<'a>)
        requires
            path_wf(seg_views(segments@)),
        ensures
            r@ == seg_views(segments@),
            r.wf(),
    {
        Lookup { segments }
    }

    /// Appends a field segment; the quoting flag records whether the
    /// grammar can write the name bare.
    pub fn push_field(&mut self, name: String)
        requires
            old(self).wf(),
        ensures
            final(self)@ == old(self)@.push(
                SegView::Field { name: name@, quoted: needs_quoting(name@) },
            ),
            final(self).wf(),
    {
        let quoted = field_needs_quoting(name.as_str());
        let seg = Segment::Field { name: FieldBuf::Owned(name), requires_quoting: quoted };
        let ghost osegs = self.segments@;
        self.segments.push(seg);
        proof {
            lemma_seg_views_push(osegs, seg);
        }
    }

    /// Appends an index segment. A path cannot begin with an index: the
    /// grammar opens every path with a field.
    pub fn push_index(&mut self, index: i64)
        requires
            old(self).wf(),
            old(self)@.len() > 0,
        ensures
            final(self)@ == old(self)@.push(SegView::Index { index: index as int }),
            final(self).wf(),
    {
        let seg = Segment::Index { index };
        let ghost osegs = self.segments@;
        self.segments.push(seg);
        proof {
            lemma_seg_views_push(osegs, seg);
        }
    }

    /// Removes and returns the trailing segment; on the root path, a no-op.
    pub fn pop(&mut self) -> (r: Option<Segment<'a>>)
        requires
            old(self).wf(),
        ensures
            final(self).wf(),
            old(self)@.len() == 0 ==> {
                &&& r is None
                &&& final(self)@ == old(self)@
            },
            old(self)@.len() > 0 ==> {
                &&& r matches Some(s) && s@ == old(self)@.last()
                &&& final(self)@ == old(self)@.drop_last()
            },
    {
        let r = self.segments.pop();
        proof {
            if old(self)@.len() == 0 {
                assert(self@ =~= old(self)@);
            } else {
                assert(self@ =~= old(self)@.drop_last());
            }
        }
        r
    }

    /// Whether `other`'s segments form a prefix of this path's.
    pub fn starts_with(&self, other: &Lookup<'_>) -> (r: bool)
        ensures
            r == other@.is_prefix_of(self@),
    {
        let n = other.segments.len();
        if n > self.segments.len() {
            return false;
        }
        let mut i: usize = 0;
        while i < n
            invariant
                n == other@.len(),
                n <= self@.len(),
                0 <= i <= n,
                forall|j: int| 0 <= j < i ==> self@[j] == other@[j],
            decreases n - i,
        {
            if !(self.segments[i] == other.segments[i]) {
                proof {
                    assert(self@[i as int] != other@[i as int]);
                    assert(!(other@ =~= self@.subrange(0, n as int)));
                }
                return false;
            }
            i = i + 1;
        }
        proof {
            assert(other@ =~= self@.subrange(0, n as int));
        }
        true
    }

    /// The concatenation of two paths, `self` first.
    pub fn merge(&self, suffix: &Lookup<'_>) -> (r: Lookup<'a>)
        requires
            self.wf(),
            suffix.wf(),
        ensures
            r@ == self@ + suffix@,
            r.wf(),
    {
        let mut segments: Vec<Segment<'a>> = Vec::new();
        let n = self.segments.len();
        let mut i: usize = 0;
        while i < n
            invariant
                n == self@.len(),
                0 <= i <= n,
                seg_views(segments@) == self@.subrange(0, i as int),
            decreases n - i,
        {
            let ghost osegs = segments@;
            let seg = self.segments[i].detach();
            segments.push(seg);
            proof {
                lemma_seg_views_push(osegs, seg);
                assert(self@.subrange(0, i + 1) =~= self@.subrange(0, i as int).push(
                    self@[i as int],
                ));
            }
            i = i + 1;
        }
        let m = suffix.segments.len();
        let mut j: usize = 0;
        while j < m
            invariant
                m == suffix@.len(),
                0 <= j <= m,
                seg_views(segments@) == self@.subrange(0, self@.len() as int) + suffix@.subrange(
                    0,
                    j as int,
                ),
            decreases m - j,
        {
            let ghost osegs = segments@;
            let seg = suffix.segments[j].detach();
            segments.push(seg);
            proof {
                lemma_seg_views_push(osegs, seg);
                assert(seg_views(segments@) =~= self@.subrange(0, self@.len() as int)
                    + suffix@.subrange(0, j + 1));
            }
            j = j + 1;
        }
        let r = Lookup { segments };
        proof {
            assert(self@.subrange(0, self@.len() as int) =~= self@);
            assert(suffix@.subrange(0, suffix@.len() as int) =~= suffix@);
            assert(r@ =~= self@ + suffix@);
        }
        r
    }

    /// An owned copy of the whole path, free of any tie to the input buffer
    /// that parsing borrowed from.
    pub fn detach(&self) -> (r: Lookup<'static>)
        ensures
            r@ == self@,
    {
        let mut segments: Vec<Segment<'static>> = Vec::new();
        let n = self.segments.len();
        let mut i: usize = 0;
        while i < n
            invariant
                n == self@.len(),
                0 <= i <= n,
                seg_views(segments@) == self@.subrange(0, i as int),
            decreases n - i,
        {
            let ghost osegs = segments@;
            let seg = self.segments[i].detach();
            segments.push(seg);
            proof {
                lemma_seg_views_push(osegs, seg);
                assert(self@.subrange(0, i + 1) =~= self@.subrange(0, i as int).push(
                    self@[i as int],
                ));
            }
            i = i + 1;
        }
        let r = Lookup { segments };
        proof {
            assert(r@ =~= self@);
        }
        r
    }

    /// Parses a path from text; the empty input yields the root path.
    pub fn parse(s: &'a str) -> (r: Result<Lookup<'a>, ParseError>)
        ensures
            match r {
                Ok(l) => {
                    &&& parse_path(s@) == Ok::<Seq<SegView>, ErrView>(l@)
                    &&& l.wf()
                },
                Err(e) => parse_path(s@) matches Err(ev) && ev.kind == e.kind && ev.offset
                    == e.offset as int,
            },
    {
        crate::parse::parse_lookup(s)
    }

    /// The canonical textual form: the inverse of parsing.
    pub fn to_canonical_string(&self) -> (r: String)
        ensures
            r@ == render_path(self@),
    {
        let mut out = String::new();
        let n = self.segments.len();
        let mut i: usize = 0;
        proof {
            assert(self@.subrange(0, 0) =~= Seq::<SegView>::empty());
        }
        while i < n
            invariant
                n == self@.len(),
                0 <= i <= n,
                out@ == render_path(self@.subrange(0, i as int)),
            decreases n - i,
        {
            push_segment(&mut out, &self.segments[i], i == 0);
            proof {
                lemma_render_path_snoc(self@.subrange(0, i as int), self@[i as int]);
                assert(self@.subrange(0, i + 1) =~= self@.subrange(0, i as int).push(
                    self@[i as int],
                ));
            }
            i = i + 1;
        }
        proof {
            assert(self@.subrange(0, n as int) =~= self@);
        }
        out
    }
}

impl<'a> Clone for Lookup<'a> {
    fn clone(&self) -> (r: Self)
        ensures
            r@ == self@,
    {
        let mut segments: Vec<Segment<'a>> = Vec::new();
        let n = self.segments.len();
        let mut i: usize = 0;
        while i < n
            invariant
                n == self@.len(),
                n == self.segments@.len(),
                0 <= i <= n,
                seg_views(segments@) == self@.subrange(0, i as int),
            decreases n - i,
        {
            let ghost osegs = segments@;
            let seg = self.segments[i].clone();
            segments.push(seg);
            proof {
                lemma_seg_views_push(osegs, seg);
                assert(self@.subrange(0, i + 1) =~= self@.subrange(0, i as int).push(
                    self@[i as int],
                ));
            }
            i = i + 1;
        }
        let r = Lookup { segments };
        proof {
            assert(self@.subrange(0, n as int) =~= self@);
            assert(r@ =~= self@);
        }
        r
    }
}

impl<'a> PartialEq for Lookup<'a> {
    /// Structural equality, segment by segment, over the logical view.
    fn eq(&self, other: &Self) -> (r: bool) {
        let n = self.segments.len();
        if n != other.segments.len() {
            proof {
                assert(self@.len() != other@.len());
            }
            return false;
        }
        let mut i: usize = 0;
        while i < n
            invariant
                n == self@.len(),
                n == other@.len(),
                0 <= i <= n,
                forall|j: int| 0 <= j < i ==> self@[j] == other@[j],
            decreases n - i,
        {
            if !(self.segments[i] == other.segments[i]) {
                proof {
                    assert(self@[i as int] != other@[i as int]);
                }
                return false;
            }
            i = i + 1;
        }
        proof {
            assert(self@ =~= other@);
        }
        true
    }
}

impl<'a> vstd::std_specs::cmp::PartialEqSpecImpl for Lookup<'a> {
    open spec fn obeys_eq_spec() -> bool {
        true
    }

    open spec fn eq_spec(&self, other: &Self) -> bool {
        self@ == other@
    }
}

impl<'a> Eq for Lookup<'a> {

}

/// A merged path always starts with its prefix: concatenation never
/// disturbs the segments it is given.
pub proof fn lemma_merge_starts_with(a: Seq<SegView>, b: Seq<SegView>)
    ensures
        a.is_prefix_of(a + b),
{
    assert((a + b).subrange(0, a.len() as int) =~= a);
}

} // verus!

verus! {

/// One mixing step of the hash: xor, then multiply by the FNV prime
/// modulo two to the sixty-fourth.
pub open spec fn mix(h: u64, x: u64) -> u64 {
    (((h ^ x) * 0x100000001b3) % 0x10000000000000000) as u64
}

/// Executable form of [`mix`].
fn mix_hash(h: u64, x: u64) -> (r: u64)
    ensures
        r == mix(h, x),
{
    let y: u64 = h ^ x;
    proof {
        vstd::arithmetic::mul::lemma_mul_inequality(
            y as int,
            u64::MAX as int,
            0x100000001b3,
        );
    }
    let prod: u128 = (y as u128) * 0x100000001b3u128;
    let m: u128 = prod % 0x10000000000000000u128;
    m as u64
}

/// Folding a field name into the hash, one character at a time.
pub open spec fn hash_name_from(h: u64, name: Seq<char>) -> u64
    decreases name.len(),
{
    if name.len() == 0 {
        h
    } else {
        hash_name_from(mix(h, name[0] as u64), name.drop_first())
    }
}

/// Folding one segment into the hash: a tag for the segment's sort, then
/// its content.
pub open spec fn hash_seg(h: u64, v: SegView) -> u64 {
    match v {
        SegView::Field { name, quoted } => hash_name_from(
            mix(mix(mix(h, 1), if quoted { 1 } else { 0 }), name.len() as u64),
            name,
        ),
        SegView::Index { index } => if index >= 0 {
            mix(mix(h, 2), index as u64)
        } else {
            mix(mix(h, 3), (-index) as u64)
        },
    }
}

/// Folding a whole path into the hash.
pub open spec fn hash_path_from(h: u64, segs: Seq<SegView>) -> u64
    decreases segs.len(),
{
    if segs.len() == 0 {
        h
    } else {
        hash_path_from(hash_seg(h, segs[0]), segs.drop_first())
    }
}

/// The hash of a path: a function of the logical segments alone.
pub open spec fn path_hash_of(segs: Seq<SegView>) -> u64 {
    hash_path_from(0xcbf29ce484222325, segs)
}

/// Executable form of [`hash_seg`].
fn hash_segment(h: u64, seg: &Segment<'_>) -> (r: u64)
    ensures
        r == hash_seg(h, seg@),
{
    match seg {
        Segment::Field { name, requires_quoting } => {
            let mut h2 = mix_hash(h, 1);
            h2 = mix_hash(
                h2,
                if *requires_quoting {
                    1
                } else {
                    0
                },
            );
            let ns = name.as_str();
            let n = ns.unicode_len();
            h2 = mix_hash(h2, n as u64);
            let ghost h0 = h2;
            let mut i: usize = 0;
            proof {
                assert(ns@.skip(0) =~= ns@);
            }
            while i < n
                invariant
                    n == ns@.len(),
                    0 <= i <= n,
                    hash_name_from(h0, ns@) == hash_name_from(h2, ns@.skip(i as int)),
                decreases n - i,
            {
                let c = ns.get_char(i);
                proof {
                    assert(ns@.skip(i as int)[0] == ns@[i as int]);
                    assert(ns@.skip(i as int).drop_first() =~= ns@.skip(i as int + 1));
                }
                h2 = mix_hash(h2, c as u64);
                i = i + 1;
            }
            proof {
                assert(ns@.skip(n as int) =~= Seq::<char>::empty());
            }
            h2
        },
        Segment::Index { index } => {
            if *index >= 0 {
                mix_hash(mix_hash(h, 2), *index as u64)
            } else if *index == i64::MIN {
                mix_hash(mix_hash(h, 3), 9223372036854775808u64)
            } else {
                mix_hash(mix_hash(h, 3), (-*index) as u64)
            }
        },
    }
}

impl<'a> Lookup<'a> {
    /// A hash of the path, determined by the logical segments alone:
    /// whether a name is buffer-referenced or owned cannot influence it.
    pub fn path_hash(&self) -> (r: u64)
        ensures
            r == path_hash_of(self@),
    {
        let mut h: u64 = 0xcbf29ce484222325;
        let ghost h0 = h;
        let n = self.segments.len();
        let mut i: usize = 0;
        proof {
            assert(self@.skip(0) =~= self@);
        }
        while i < n
            invariant
                n == self@.len(),
                0 <= i <= n,
                hash_path_from(h0, self@) == hash_path_from(h, self@.skip(i as int)),
            decreases n - i,
        {
            proof {
                assert(self@.skip(i as int)[0] == self@[i as int]);
                assert(self@.skip(i as int).drop_first() =~= self@.skip(i as int + 1));
            }
            h = hash_segment(h, &self.segments[i]);
            i = i + 1;
        }
        proof {
            assert(self@.skip(n as int) =~= Seq::<SegView>::empty());
        }
        h
    }
}

/// Representation never shows: two paths with the same logical segments
/// hash identically and render identically, whether their names reference
/// a parsed buffer or own their text.
pub proof fn lemma_representation_invisible(a: Seq<SegView>, b: Seq<SegView>)
    requires
        a == b,
    ensures
        path_hash_of(a) == path_hash_of(b),
        render_path(a) == render_path(b),
{
}

} // verus!

verus! {

/// Three-way comparison of two character sequences: by code point, with a
/// proper prefix ordered first.
pub open spec fn cmp_chars(a: Seq<char>, b: Seq<char>) -> core::cmp::Ordering
    decreases a.len(),
{
    if a.len() == 0 && b.len() == 0 {
        core::cmp::Ordering::Equal
    } else if a.len() == 0 {
        core::cmp::Ordering::Less
    } else if b.len() == 0 {
        core::cmp::Ordering::Greater
    } else if a[0] == b[0] {
        cmp_chars(a.drop_first(), b.drop_first())
    } else if (a[0] as u32) < (b[0] as u32) {
        core::cmp::Ordering::Less
    } else {
        core::cmp::Ordering::Greater
    }
}

/// `false` orders before `true`.
pub open spec fn cmp_bool(a: bool, b: bool) -> core::cmp::Ordering {
    if a == b {
        core::cmp::Ordering::Equal
    } else if !a {
        core::cmp::Ordering::Less
    } else {
        core::cmp::Ordering::Greater
    }
}

/// Three-way comparison of two segments: fields order before indices;
/// fields compare by name, then by quoting flag; indices numerically.
pub open spec fn cmp_seg(a: SegView, b: SegView) -> core::cmp::Ordering {
    match (a, b) {
        (SegView::Field { name: na, quoted: qa }, SegView::Field { name: nb, quoted: qb }) => {
            if cmp_chars(na, nb) is Equal {
                cmp_bool(qa, qb)
            } else {
                cmp_chars(na, nb)
            }
        },
        (SegView::Field { .. }, SegView::Index { .. }) => core::cmp::Ordering::Less,
        (SegView::Index { .. }, SegView::Field { .. }) => core::cmp::Ordering::Greater,
        (SegView::Index { index: ia }, SegView::Index { index: ib }) => {
            if ia < ib {
                core::cmp::Ordering::Less
            } else if ia > ib {
                core::cmp::Ordering::Greater
            } else {
                core::cmp::Ordering::Equal
            }
        },
    }
}

/// Three-way comparison of two paths: segment by segment, with a proper
/// prefix ordered first.
pub open spec fn cmp_segs(a: Seq<SegView>, b: Seq<SegView>) -> core::cmp::Ordering
    decreases a.len(),
{
    if a.len() == 0 && b.len() == 0 {
        core::cmp::Ordering::Equal
    } else if a.len() == 0 {
        core::cmp::Ordering::Less
    } else if b.len() == 0 {
        core::cmp::Ordering::Greater
    } else if cmp_seg(a[0], b[0]) is Equal {
        cmp_segs(a.drop_first(), b.drop_first())
    } else {
        cmp_seg(a[0], b[0])
    }
}

/// Executable form of [`cmp_chars`].
fn cmp_names(a: &str, b: &str) -> (r: core::cmp::Ordering)
    ensures
        r == cmp_chars(a@, b@),
{
    let na = a.unicode_len();
    let nb = b.unicode_len();
    let mut i: usize = 0;
    proof {
        assert(a@.skip(0) =~= a@);
        assert(b@.skip(0) =~= b@);
    }
    while i < na || i < nb
        invariant
            na == a@.len(),
            nb == b@.len(),
            i <= na,
            i <= nb,
            cmp_chars(a@, b@) == cmp_chars(a@.skip(i as int), b@.skip(i as int)),
        decreases na - i,
    {
        if i >= na {
            return core::cmp::Ordering::Less;
        }
        if i >= nb {
            return core::cmp::Ordering::Greater;
        }
        let ca = a.get_char(i);
        let cb = b.get_char(i);
        proof {
            assert(a@.skip(i as int)[0] == a@[i as int]);
            assert(b@.skip(i as int)[0] == b@[i as int]);
            assert(a@.skip(i as int).drop_first() =~= a@.skip(i as int + 1));
            assert(b@.skip(i as int).drop_first() =~= b@.skip(i as int + 1));
        }
        if ca != cb {
            if (ca as u32) < (cb as u32) {
                return core::cmp::Ordering::Less;
            }
            return core::cmp::Ordering::Greater;
        }
        i = i + 1;
    }
    proof {
        assert(a@.skip(i as int).len() == 0);
        assert(b@.skip(i as int).len() == 0);
    }
    core::cmp::Ordering::Equal
}

/// Executable form of [`cmp_seg`].
fn cmp_segment(a: &Segment<'_>, b: &Segment<'_>) -> (r: core::cmp::Ordering)
    ensures
        r == cmp_seg(a@, b@),
{
    match (a, b) {
        (
            Segment::Field { name: na, requires_quoting: qa },
            Segment::Field { name: nb, requires_quoting: qb },
        ) => {
            let c = cmp_names(na.as_str(), nb.as_str());
            match c {
                core::cmp::Ordering::Equal => {
                    if *qa == *qb {
                        core::cmp::Ordering::Equal
                    } else if !*qa {
                        core::cmp::Ordering::Less
                    } else {
                        core::cmp::Ordering::Greater
                    }
                },
                _ => c,
            }
        },
        (Segment::Field { .. }, Segment::Index { .. }) => core::cmp::Ordering::Less,
        (Segment::Index { .. }, Segment::Field { .. }) => core::cmp::Ordering::Greater,
        (Segment::Index { index: ia }, Segment::Index { index: ib }) => {
            if *ia < *ib {
                core::cmp::Ordering::Less
            } else if *ia > *ib {
                core::cmp::Ordering::Greater
            } else {
                core::cmp::Ordering::Equal
            }
        },
    }
}

impl<'a> Lookup<'a> {
    /// Three-way comparison with another path, over the logical segments
    /// alone.
    pub fn compare(&self, other: &Lookup<'_>) -> (r: core::cmp::Ordering)
        ensures
            r == cmp_segs(self@, other@),
    {
        let na = self.segments.len();
        let nb = other.segments.len();
        let mut i: usize = 0;
        proof {
            assert(self@.skip(0) =~= self@);
            assert(other@.skip(0) =~= other@);
        }
        while i < na || i < nb
            invariant
                na == self@.len(),
                nb == other@.len(),
                i <= na,
                i <= nb,
                cmp_segs(self@, other@) == cmp_segs(self@.skip(i as int), other@.skip(i as int)),
            decreases na - i,
        {
            if i >= na {
                return core::cmp::Ordering::Less;
            }
            if i >= nb {
                return core::cmp::Ordering::Greater;
            }
            proof {
                assert(self@.skip(i as int)[0] == self@[i as int]);
                assert(other@.skip(i as int)[0] == other@[i as int]);
                assert(self@.skip(i as int).drop_first() =~= self@.skip(i as int + 1));
                assert(other@.skip(i as int).drop_first() =~= other@.skip(i as int + 1));
            }
            let c = cmp_segment(&self.segments[i], &other.segments[i]);
            match c {
                core::cmp::Ordering::Equal => {
                    i = i + 1;
                },
                _ => {
                    return c;
                },
            }
        }
        proof {
            assert(self@.skip(i as int).len() == 0);
            assert(other@.skip(i as int).len() == 0);
        }
        core::cmp::Ordering::Equal
    }
}

impl<'a> PartialOrd for Lookup<'a> {
    /// Total over the logical view; representation plays no part.
    fn partial_cmp(&self, other: &Self) -> (r: Option<core::cmp::Ordering>) {
        Some(self.compare(other))
    }
}

impl<'a> vstd::std_specs::cmp::PartialOrdSpecImpl for Lookup<'a> {
    open spec fn obeys_partial_cmp_spec() -> bool {
        true
    }

    open spec fn partial_cmp_spec(&self, other: &Self) -> Option<core::cmp::Ordering> {
        Some(cmp_segs(self@, other@))
    }
}

/// The order refines equality: two character sequences compare `Equal`
/// exactly when they are equal.
proof fn lemma_cmp_chars_refines_eq(a: Seq<char>, b: Seq<char>)
    ensures
        (cmp_chars(a, b) is Equal) <==> a == b,
    decreases a.len(),
{
    if a.len() == 0 && b.len() == 0 {
        assert(a =~= b);
    } else if a.len() > 0 && b.len() > 0 {
        lemma_cmp_chars_refines_eq(a.drop_first(), b.drop_first());
        if cmp_chars(a, b) is Equal {
            assert(a[0] == b[0]);
            assert(a =~= b) by {
                assert(forall|i: int| 1 <= i < a.len() ==> #[trigger] a[i] == a.drop_first()[
                    i - 1
                ]);
                assert(forall|i: int| 1 <= i < b.len() ==> #[trigger] b[i] == b.drop_first()[
                    i - 1
                ]);
            }
        }
        if a == b {
            assert(a.drop_first() == b.drop_first());
        }
    }
}

/// The order refines equality at the segment level.
proof fn lemma_cmp_seg_refines_eq(a: SegView, b: SegView)
    ensures
        (cmp_seg(a, b) is Equal) <==> a == b,
{
    match (a, b) {
        (SegView::Field { name: na, quoted: qa }, SegView::Field { name: nb, quoted: qb }) => {
            lemma_cmp_chars_refines_eq(na, nb);
        },
        _ => {},
    }
}

/// The order refines equality: two paths compare `Equal` exactly when
/// their logical segment sequences are equal.
pub proof fn lemma_cmp_refines_eq(a: Seq<SegView>, b: Seq<SegView>)
    ensures
        (cmp_segs(a, b) is Equal) <==> a == b,
    decreases a.len(),
{
    if a.len() == 0 && b.len() == 0 {
        assert(a =~= b);
    } else if a.len() > 0 && b.len() > 0 {
        lemma_cmp_seg_refines_eq(a[0], b[0]);
        lemma_cmp_refines_eq(a.drop_first(), b.drop_first());
        if cmp_segs(a, b) is Equal {
            assert(a =~= b) by {
                assert(forall|i: int| 1 <= i < a.len() ==> #[trigger] a[i] == a.drop_first()[
                    i - 1
                ]);
                assert(forall|i: int| 1 <= i < b.len() ==> #[trigger] b[i] == b.drop_first()[
                    i - 1
                ]);
            }
        }
        if a == b {
            assert(a.drop_first() == b.drop_first());
        }
    }
}

} // verus!
