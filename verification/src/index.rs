//! Output indices.
use vstd::prelude::*;

verus! {

/// The integer types usable as output triangle indices.
pub trait EarcutIndex: Copy + core::fmt::Debug {
    /// Whether the vertex index `v` can be represented.
    spec fn fits(v: usize) -> bool;

    /// The vertex index that this value stands for.
    spec fn vertex(self) -> usize;

    /// The value that stands for the vertex index `v`.
    spec fn index_of(v: usize) -> Self;

    /// Whether the vertex index `v` can be represented in this type.
    fn can_hold(v: usize) -> (r: bool)
        ensures
            r == Self::fits(v),
    ;

    /// Converts a vertex index; the index must fit in the type.
    fn from_usize(v: usize) -> (r: Self)
        requires
            Self::fits(v),
        ensures
            r == Self::index_of(v),
            r.vertex() == v,
    ;

    /// The vertex index as a `usize`.
    fn to_usize(self) -> (r: usize)
        ensures
            r == self.vertex(),
    ;
}

impl EarcutIndex for u16 {
    open spec fn fits(v: usize) -> bool {
        v <= u16::MAX
    }

    open spec fn vertex(self) -> usize {
        self as usize
    }

    open spec fn index_of(v: usize) -> Self {
        v as u16
    }

    fn can_hold(v: usize) -> (r: bool)
        ensures
            r == (v <= 0xffff),
    {
        v <= u16::MAX as usize
    }

    fn from_usize(v: usize) -> (r: Self)
        ensures
            r as int == v as int,
    {
        v as u16
    }

    fn to_usize(self) -> (r: usize)
        ensures
            r as int == self as int,
    {
        self as usize
    }
}

impl EarcutIndex for u32 {
    open spec fn fits(v: usize) -> bool {
        v <= u32::MAX
    }

    open spec fn vertex(self) -> usize {
        self as usize
    }

    open spec fn index_of(v: usize) -> Self {
        v as u32
    }

    fn can_hold(v: usize) -> (r: bool)
        ensures
            r == (v <= 0xffff_ffff),
    {
        v <= u32::MAX as usize
    }

    fn from_usize(v: usize) -> (r: Self)
        ensures
            r as int == v as int,
    {
        v as u32
    }

    fn to_usize(self) -> (r: usize)
        ensures
            r as int == self as int,
    {
        self as usize
    }
}

impl EarcutIndex for u64 {
    open spec fn fits(v: usize) -> bool {
        true
    }

    open spec fn vertex(self) -> usize {
        self as usize
    }

    open spec fn index_of(v: usize) -> Self {
        v as u64
    }

    fn can_hold(v: usize) -> (r: bool)
        ensures
            r,
    {
        true
    }

    fn from_usize(v: usize) -> (r: Self)
        ensures
            r as int == v as int,
    {
        v as u64
    }

    fn to_usize(self) -> (r: usize)
        ensures
            self <= usize::MAX ==> r as int == self as int,
    {
        self as usize
    }
}

impl EarcutIndex for usize {
    open spec fn fits(v: usize) -> bool {
        true
    }

    open spec fn vertex(self) -> usize {
        self
    }

    open spec fn index_of(v: usize) -> Self {
        v
    }

    fn can_hold(v: usize) -> (r: bool)
        ensures
            r,
    {
        true
    }

    fn from_usize(v: usize) -> (r: Self)
        ensures
            r as int == v as int,
    {
        v
    }

    fn to_usize(self) -> (r: usize)
        ensures
            r as int == self as int,
    {
        self
    }
}

/// The output indices that stand for vertex indices.
pub open spec fn indices<N: EarcutIndex>(s: Seq<usize>) -> Seq<N> {
    Seq::new(s.len(), |k: int| N::index_of(s[k]))
}

/// The second list is the first with output indices added, each of which is the one that stands
/// for its vertex index.
pub open spec fn extended<N: EarcutIndex>(t: Seq<N>, u: Seq<N>) -> bool {
    &&& t.len() <= u.len()
    &&& forall|k: int|
        #![trigger u[k]]
        0 <= k < u.len() ==> (if k < t.len() {
            u[k] == t[k]
        } else {
            u[k] == N::index_of(u[k].vertex())
        })
}

/// The vertex indices that a list of output indices stands for.
pub open spec fn vertices<N: EarcutIndex>(t: Seq<N>) -> Seq<usize> {
    Seq::new(t.len(), |k: int| t[k].vertex())
}

// ---------------------------------------------------------------------------------------------
// The number that stands for a vertex is its index
// ---------------------------------------------------------------------------------------------
/// In `u16` a vertex index below 65536 is the number itself, and every number stands for the vertex
/// with that index.
pub proof fn lemma_index_u16(v: usize, x: u16)
    ensures
        <u16 as EarcutIndex>::fits(v) <==> v <= 0xffff,
        v <= 0xffff ==> <u16 as EarcutIndex>::index_of(v) as int == v as int,
        x.vertex() as int == x as int,
{
}

/// In `u32` a vertex index below 2 to the 32nd is the number itself, and every number stands for
/// the vertex with that index.
pub proof fn lemma_index_u32(v: usize, x: u32)
    ensures
        <u32 as EarcutIndex>::fits(v) <==> v <= 0xffff_ffff,
        v <= 0xffff_ffff ==> <u32 as EarcutIndex>::index_of(v) as int == v as int,
        x.vertex() as int == x as int,
{
}

/// In `u64` a vertex index is the number itself, and every number stands for the vertex with
/// that index.
pub proof fn lemma_index_u64(v: usize, x: u64)
    ensures
        <u64 as EarcutIndex>::fits(v),
        <u64 as EarcutIndex>::index_of(v) as int == v as int,
        x <= usize::MAX ==> x.vertex() as int == x as int,
{
}

/// In `usize` a vertex index is the number itself, and every number stands for the vertex with
/// that index.
pub proof fn lemma_index_usize(v: usize, x: usize)
    ensures
        <usize as EarcutIndex>::fits(v),
        <usize as EarcutIndex>::index_of(v) as int == v as int,
        x.vertex() as int == x as int,
{
}

/// A list of vertex indices in `u16` is the list of the numbers themselves, in their order, and the
/// other way round.
pub proof fn lemma_indices_u16(s: Seq<usize>, t: Seq<u16>)
    ensures
        indices::<u16>(s).len() == s.len(),
        forall|k: int|
            0 <= k < s.len() && s[k] <= 0xffff ==> (#[trigger] indices::<u16>(s)[k]) as int
                == s[k] as int,
        vertices(t).len() == t.len(),
        forall|k: int|
            0 <= k < t.len() ==> (#[trigger] vertices(t)[k]) as int == t[k] as int,
{
}

/// A list of vertex indices in `u32` is the list of the numbers themselves, in their order, and the
/// other way round.
pub proof fn lemma_indices_u32(s: Seq<usize>, t: Seq<u32>)
    ensures
        indices::<u32>(s).len() == s.len(),
        forall|k: int|
            0 <= k < s.len() && s[k] <= 0xffff_ffff ==> (#[trigger] indices::<u32>(s)[k]) as int
                == s[k] as int,
        vertices(t).len() == t.len(),
        forall|k: int|
            0 <= k < t.len() ==> (#[trigger] vertices(t)[k]) as int == t[k] as int,
{
}

/// A list of vertex indices in `u64` is the list of the numbers themselves, in their order, and the
/// other way round.
pub proof fn lemma_indices_u64(s: Seq<usize>, t: Seq<u64>)
    ensures
        indices::<u64>(s).len() == s.len(),
        forall|k: int|
            0 <= k < s.len() ==> (#[trigger] indices::<u64>(s)[k]) as int == s[k] as int,
        vertices(t).len() == t.len(),
        forall|k: int|
            0 <= k < t.len() && t[k] <= usize::MAX ==> (#[trigger] vertices(t)[k]) as int
                == t[k] as int,
{
}

/// A list of vertex indices in `usize` is the list of the numbers themselves, in their order, and
/// the other way round.
pub proof fn lemma_indices_usize(s: Seq<usize>, t: Seq<usize>)
    ensures
        indices::<usize>(s).len() == s.len(),
        forall|k: int|
            0 <= k < s.len() ==> (#[trigger] indices::<usize>(s)[k]) as int == s[k] as int,
        vertices(t).len() == t.len(),
        forall|k: int|
            0 <= k < t.len() ==> (#[trigger] vertices(t)[k]) as int == t[k] as int,
{
}

} // verus!
