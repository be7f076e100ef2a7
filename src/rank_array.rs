//! Ranks of trie-array nodes stored in a prefix-summed Elias-Fano encoding.

use sucds::int_vectors::{Access, PrefixSummedEliasFano};
use vstd::prelude::*;

verus! {

#[verifier::external_type_specification]
#[verifier::external_body]
pub struct ExPrefixSummedEliasFano(sucds::int_vectors::PrefixSummedEliasFano);

/// The integers held by a prefix-summed Elias-Fano sequence, in order.
pub uninterp spec fn ef_ints(a: PrefixSummedEliasFano) -> Seq<usize>;

/// Sum of a sequence of integers.
pub open spec fn seq_sum(s: Seq<usize>) -> int
    decreases s.len(),
{
    if s.len() == 0 {
        0
    } else {
        seq_sum(s.drop_last()) + s.last()
    }
}

/// Relies on sucds's PrefixSummedEliasFano::from_slice: a non-empty input
/// whose sum stays below usize::MAX is encoded as it is.
#[verifier::external_body]
fn ef_from_slice(vals: &[usize]) -> (r: Option<PrefixSummedEliasFano>)
    requires
        vals@.len() > 0,
        seq_sum(vals@) < usize::MAX,
    ensures
        r is Some,
        ef_ints(r->Some_0) == vals@,
{
    PrefixSummedEliasFano::from_slice(vals).ok()
}

/// Relies on sucds's Access::access for PrefixSummedEliasFano: the integer at
/// `pos`, or `None` past the end.
#[verifier::external_body]
fn ef_access(a: &PrefixSummedEliasFano, pos: usize) -> (r: Option<usize>)
    ensures
        pos < ef_ints(*a).len() ==> r == Some(ef_ints(*a)[pos as int]),
        pos >= ef_ints(*a).len() ==> r is None,
{
    a.access(pos)
}

/// Relies on sucds's PrefixSummedEliasFano::len: the number of integers.
#[verifier::external_body]
fn ef_len(a: &PrefixSummedEliasFano) -> (r: usize)
    ensures
        r == ef_ints(*a).len(),
{
    a.len()
}

/// A read-only array of ranks, one per node position.
pub struct EliasFanoRankArray {
    // `None` for an array of no positions, which the encoding cannot hold
    count_ranks: Option<PrefixSummedEliasFano>,
}

impl View for EliasFanoRankArray {
    type V = Seq<usize>;

    closed spec fn view(&self) -> Seq<usize> {
        match self.count_ranks {
            Some(a) => ef_ints(a),
            None => Seq::empty(),
        }
    }
}

impl EliasFanoRankArray {
    /// Encodes `count_ranks`; an empty input gives an array of length zero.
    pub fn build(count_ranks: Vec<usize>) -> (r: Self)
        requires
            seq_sum(count_ranks@) < usize::MAX,
        ensures
            r@ == count_ranks@,
    {
        if count_ranks.len() == 0 {
            return EliasFanoRankArray { count_ranks: None };
        }
        let encoded = ef_from_slice(count_ranks.as_slice());
        EliasFanoRankArray { count_ranks: encoded }
    }

    /// Number of positions.
    pub fn len(&self) -> (r: usize)
        ensures
            r == self@.len(),
    {
        match &self.count_ranks {
            Some(a) => ef_len(a),
            None => 0,
        }
    }

    /// The rank at position `i`.
    pub fn get(&self, i: usize) -> (r: usize)
        requires
            i < self@.len(),
        ensures
            r == self@[i as int],
    {
        match &self.count_ranks {
            Some(a) => match ef_access(a, i) {
                Some(x) => x,
                None => {
                    assert(false);
                    0
                },
            },
            None => 0,
        }
    }
}

impl Default for EliasFanoRankArray {
    fn default() -> (r: Self)
        ensures
            r@ == Seq::<usize>::empty(),
    {
        EliasFanoRankArray { count_ranks: None }
    }
}

} // verus!
