//! Frequency ranking of count values, one n-gram order after another.

use crate::compact::{cv_ints, cv_new, cv_push, cv_width, fits_in, needed_bits};
use vstd::arithmetic::power2::pow2;
use std::collections::HashMap;
use sucds::int_vectors::CompactVector;
use vstd::prelude::*;

verus! {

broadcast use vstd::std_specs::hash::group_hash_axioms;

/// `u` comes before `v` in the ranking of table `m`: it is more frequent, or
/// as frequent and numerically smaller.
pub open spec fn ranks_before(m: Map<usize, nat>, u: usize, v: usize) -> bool {
    m[u] > m[v] || (m[u] == m[v] && u < v)
}

/// `s` lists every value of table `m` exactly once, ordered by decreasing
/// frequency and, among equal frequencies, by increasing value.
pub open spec fn ranked(m: Map<usize, nat>, s: Seq<usize>) -> bool {
    &&& forall|i: int, j: int| 0 <= i < j < s.len() ==> ranks_before(m, #[trigger] s[i], #[trigger] s[j])
    &&& forall|i: int| 0 <= i < s.len() ==> m.contains_key(#[trigger] s[i])
    &&& forall|v: usize| m.contains_key(v) ==> s.contains(v)
}

/// Table `m` after one more observation of `x`.
pub open spec fn bumped(m: Map<usize, nat>, x: usize) -> Map<usize, nat> {
    m.insert(x, if m.contains_key(x) { m[x] + 1 } else { 1 })
}

/// The order of observations within an order does not matter: eating `x`
/// then `y` leaves the same table as eating `y` then `x`.
pub proof fn lemma_eat_order_irrelevant(m: Map<usize, nat>, x: usize, y: usize)
    ensures
        bumped(bumped(m, x), y) == bumped(bumped(m, y), x),
{
    assert(bumped(bumped(m, x), y) =~= bumped(bumped(m, y), x));
}

/// `w` is the fewest bits, at least one, that hold every value of `s`.
pub open spec fn least_width(s: Seq<usize>, w: nat) -> bool {
    &&& 1 <= w <= 64
    &&& forall|i: int| 0 <= i < s.len() ==> fits_in(#[trigger] s[i], w)
    &&& w == 1 || exists|i: int| 0 <= i < s.len() && pow2((w - 1) as nat) <= #[trigger] s[i]
}

/// What `rank` answers for `value` in the sorted sequence `s`.
pub open spec fn rank_in(s: Seq<usize>, value: usize, r: Option<usize>) -> bool {
    match r {
        Some(i) => i < s.len() && s[i as int] == value,
        None => !s.contains(value),
    }
}

spec fn has_key(s: Seq<(usize, u64)>, v: usize) -> bool {
    exists|p: int| 0 <= p < s.len() && (#[trigger] s[p]).0 == v
}

spec fn pair_before(a: (usize, u64), b: (usize, u64)) -> bool {
    a.1 > b.1 || (a.1 == b.1 && a.0 < b.0)
}

/// The frequency table `m` is held by `pairs`, one pair per distinct value.
spec fn holds_table(pairs: Seq<(usize, u64)>, m: Map<usize, nat>) -> bool {
    &&& forall|i: int, j: int| 0 <= i < j < pairs.len() ==> (#[trigger] pairs[i]).0 != (#[trigger] pairs[j]).0
    &&& forall|i: int| 0 <= i < pairs.len() ==> m.contains_key((#[trigger] pairs[i]).0) && m[pairs[i].0] == pairs[i].1 as nat
    &&& forall|v: usize| m.contains_key(v) ==> exists|i: int| 0 <= i < pairs.len() && (#[trigger] pairs[i]).0 == v
}

fn precedes(a: (usize, u64), b: (usize, u64)) -> (r: bool)
    ensures
        r == pair_before(a, b),
{
    a.1 > b.1 || (a.1 == b.1 && a.0 < b.0)
}

/// `m` maps each value of `s` to its position in `s`, and nothing else.
spec fn indexes(m: Map<usize, usize>, s: Seq<usize>) -> bool {
    &&& forall|v: usize| #[trigger] m.contains_key(v) ==> m[v] < s.len() && s[m[v] as int] == v
    &&& forall|p: int| 0 <= p < s.len() ==> m.contains_key(#[trigger] s[p])
}

/// Accumulates count values for the order in progress and keeps, for every
/// finished order, its values ranked by frequency.
pub struct CountsBuilder {
    // value and frequency of each value eaten in the order in progress
    pending: Vec<(usize, u64)>,
    // position in `pending` of each value eaten in the order in progress
    slots: HashMap<usize, usize>,
    // frequency table of the order in progress
    freqs: Ghost<Map<usize, nat>>,
    // frequency table of each finished order
    tables: Ghost<Seq<Map<usize, nat>>>,
    // for each finished order, the rank of each of its values
    v2r_maps: Vec<HashMap<usize, usize>>,
    // for each finished order, its values in rank order
    sorted_sequences: Vec<CompactVector>,
}

impl CountsBuilder {
    /// Frequency of each value eaten since the last finished order.
    pub closed spec fn current(&self) -> Map<usize, nat> {
        self.freqs@
    }

    /// Number of finished orders.
    pub closed spec fn num_orders(&self) -> nat {
        self.tables@.len()
    }

    /// Frequency table of finished order `o`.
    pub closed spec fn table(&self, o: int) -> Map<usize, nat> {
        self.tables@[o]
    }

    /// Values of finished order `o` in rank order.
    pub closed spec fn sequence(&self, o: int) -> Seq<usize> {
        cv_ints(self.sorted_sequences@[o])
    }

    /// Bits per value of the compact sequence of finished order `o`.
    pub closed spec fn width(&self, o: int) -> nat {
        cv_width(self.sorted_sequences@[o])
    }

    pub closed spec fn wf(&self) -> bool {
        &&& holds_table(self.pending@, self.freqs@)
        &&& forall|v: usize| #[trigger] self.slots@.contains_key(v) <==> self.freqs@.contains_key(v)
        &&& forall|v: usize| #[trigger] self.slots@.contains_key(v) ==> self.slots@[v] < self.pending@.len()
            && self.pending@[self.slots@[v] as int].0 == v
        &&& forall|v: usize| #[trigger] self.freqs@.contains_key(v) ==> self.freqs@[v] >= 1
        &&& self.v2r_maps@.len() == self.tables@.len()
        &&& self.sorted_sequences@.len() == self.tables@.len()
        &&& forall|o: int| 0 <= o < self.tables@.len() ==> ranked(#[trigger] self.tables@[o], cv_ints(self.sorted_sequences@[o]))
        &&& forall|o: int| 0 <= o < self.tables@.len() ==> indexes((#[trigger] self.v2r_maps@[o])@, cv_ints(self.sorted_sequences@[o]))
        &&& forall|o: int| 0 <= o < self.tables@.len() ==> least_width(cv_ints(#[trigger] self.sorted_sequences@[o]), cv_width(self.sorted_sequences@[o]))
    }

    /// Records one observation of `x` in the order in progress.
    pub fn eat_value(&mut self, x: usize)
        requires
            old(self).wf(),
            old(self).current().contains_key(x) ==> old(self).current()[x] < u64::MAX,
        ensures
            final(self).wf(),
            final(self).current() == bumped(old(self).current(), x),
            final(self).num_orders() == old(self).num_orders(),
            forall|o: int| 0 <= o < old(self).num_orders() ==> final(self).table(o) == old(self).table(o)
                && final(self).sequence(o) == old(self).sequence(o),
    {
        match self.slots.get(&x) {
            Some(slot) => {
                let i = *slot;
                let f = self.pending[i].1;
                let ghost p0 = self.pending@;
                proof {
                    assert(self.pending@[i as int].1 as nat == self.freqs@[x]);
                }
                self.pending.set(i, (x, f + 1));
                self.freqs = Ghost(self.freqs@.insert(x, (f + 1) as nat));
                proof {
                    let p = self.pending@;
                    assert forall|v: usize| self.freqs@.contains_key(v) implies exists|k: int| 0 <= k < p.len() && (#[trigger] p[k]).0 == v by {
                        if v != x {
                            let k = choose|k: int| 0 <= k < p0.len() && (#[trigger] p0[k]).0 == v;
                            assert(p[k].0 == v);
                        } else {
                            assert(p[i as int].0 == v);
                        }
                    }
                    assert forall|v: usize| #[trigger] self.slots@.contains_key(v) implies self.slots@[v] < p.len()
                        && p[self.slots@[v] as int].0 == v by {
                        assert(p0[self.slots@[v] as int].0 == v);
                    }
                }
            },
            None => {
                let n = self.pending.len();
                let ghost p0 = self.pending@;
                proof {
                    assert(!self.freqs@.contains_key(x));
                }
                self.slots.insert(x, n);
                self.pending.push((x, 1));
                self.freqs = Ghost(self.freqs@.insert(x, 1));
                proof {
                    let p = self.pending@;
                    assert forall|v: usize| self.freqs@.contains_key(v) implies exists|k: int| 0 <= k < p.len() && (#[trigger] p[k]).0 == v by {
                        if v != x {
                            let k = choose|k: int| 0 <= k < p0.len() && (#[trigger] p0[k]).0 == v;
                            assert(p[k].0 == v);
                        } else {
                            assert(p[n as int].0 == v);
                        }
                    }
                    assert forall|v: usize| #[trigger] self.slots@.contains_key(v) implies self.slots@[v] < p.len()
                        && p[self.slots@[v] as int].0 == v by {
                        if v != x {
                            assert(p0[self.slots@[v] as int].0 == v);
                        }
                    }
                    assert forall|k1: int, k2: int| 0 <= k1 < k2 < p.len() implies (#[trigger] p[k1]).0 != (#[trigger] p[k2]).0 by {
                        if k2 == n {
                            assert(p0[k1].0 != x) by {
                                if p0[k1].0 == x {
                                    assert(self.freqs@.contains_key(x));
                                }
                            }
                        }
                    }
                }
            },
        }
    }

    /// Finishes the order in progress: its distinct values, ranked by
    /// decreasing frequency and then increasing value, become a new order,
    /// and the next order starts with an empty table.
    pub fn build_sequence(&mut self)
        requires
            old(self).wf(),
        ensures
            final(self).wf(),
            final(self).current() == Map::<usize, nat>::empty(),
            final(self).num_orders() == old(self).num_orders() + 1,
            forall|o: int| 0 <= o < old(self).num_orders() ==> final(self).table(o) == old(self).table(o)
                && final(self).sequence(o) == old(self).sequence(o),
            final(self).table(old(self).num_orders() as int) == old(self).current(),
            ranked(old(self).current(), final(self).sequence(old(self).num_orders() as int)),
            least_width(final(self).sequence(old(self).num_orders() as int), final(self).width(old(self).num_orders() as int)),
    {
        let ghost table = self.freqs@;
        let ghost pend = self.pending@;
        let n = self.pending.len();
        let mut sorted: Vec<(usize, u64)> = Vec::new();
        let mut max_value: usize = 0;
        let mut i: usize = 0;
        while i < n
            invariant
                n == pend.len(),
                self.pending@ == pend,
                holds_table(pend, table),
                i <= n,
                forall|p: int, q: int| 0 <= p < q < sorted@.len() ==> pair_before(#[trigger] sorted@[p], #[trigger] sorted@[q]),
                forall|p: int| 0 <= p < sorted@.len() ==> table.contains_key((#[trigger] sorted@[p]).0)
                    && table[sorted@[p].0] == sorted@[p].1 as nat && sorted@[p].0 <= max_value,
                forall|p: int, k: int| 0 <= p < sorted@.len() && i <= k < n ==> (#[trigger] sorted@[p]).0 != (#[trigger] pend[k]).0,
                forall|k: int| 0 <= k < i ==> has_key(sorted@, (#[trigger] pend[k]).0),
                max_value == 0 || has_key(sorted@, max_value),
            decreases n - i,
        {
            let e = self.pending[i];
            let ghost old_max = max_value;
            if e.0 > max_value {
                max_value = e.0;
            }
            let mut j: usize = 0;
            while j < sorted.len() && precedes(sorted[j], e)
                invariant
                    j <= sorted@.len(),
                    forall|p: int| 0 <= p < j ==> pair_before(#[trigger] sorted@[p], e),
                decreases sorted@.len() - j,
            {
                j = j + 1;
            }
            let ghost s = sorted@;
            proof {
                assert forall|p: int| 0 <= p < s.len() implies (#[trigger] s[p]).0 != e.0 by {
                    assert(e == pend[i as int]);
                }
            }
            sorted.insert(j, e);
            proof {
                let t = sorted@;
                assert(t.len() == s.len() + 1);
                assert forall|p: int, q: int| 0 <= p < q < t.len() implies pair_before(#[trigger] t[p], #[trigger] t[q]) by {
                    if q < j {
                        assert(t[p] == s[p] && t[q] == s[q]);
                    } else if q == j {
                        assert(t[p] == s[p]);
                    } else if p < j {
                        assert(t[p] == s[p] && t[q] == s[q - 1]);
                    } else if p == j {
                        assert(t[q] == s[q - 1]);
                        assert(pair_before(e, s[j as int]));
                        if q - 1 > j {
                            assert(pair_before(s[j as int], s[q - 1]));
                        }
                    } else {
                        assert(t[p] == s[p - 1] && t[q] == s[q - 1]);
                    }
                }
                assert forall|p: int| 0 <= p < t.len() implies table.contains_key((#[trigger] t[p]).0)
                    && table[t[p].0] == t[p].1 as nat && t[p].0 <= max_value by {
                    if p < j {
                        assert(t[p] == s[p]);
                    } else if p > j {
                        assert(t[p] == s[p - 1]);
                    } else {
                        assert(e == pend[i as int]);
                    }
                }
                assert forall|p: int, k: int| 0 <= p < t.len() && i + 1 <= k < n implies (#[trigger] t[p]).0 != (#[trigger] pend[k]).0 by {
                    if p < j {
                        assert(t[p] == s[p]);
                    } else if p > j {
                        assert(t[p] == s[p - 1]);
                    } else {
                        assert(e == pend[i as int]);
                    }
                }
                if max_value != 0 {
                    if max_value == e.0 {
                        assert(t[j as int] == e);
                    } else {
                        assert(max_value == old_max);
                        let p = choose|p: int| 0 <= p < s.len() && (#[trigger] s[p]).0 == max_value;
                        if p < j {
                            assert(t[p] == s[p]);
                        } else {
                            assert(t[p + 1] == s[p]);
                        }
                    }
                }
                assert forall|k: int| 0 <= k < i + 1 implies has_key(t, (#[trigger] pend[k]).0) by {
                    if k == i {
                        assert(t[j as int] == e);
                    } else {
                        let p = choose|p: int| 0 <= p < s.len() && (#[trigger] s[p]).0 == pend[k].0;
                        if p < j {
                            assert(t[p] == s[p]);
                        } else {
                            assert(t[p + 1] == s[p]);
                        }
                    }
                }
            }
            i = i + 1;
        }
        assert(i == n);
        let width = needed_bits(max_value);
        proof {
            if width != 1 {
                vstd::arithmetic::power2::lemma_pow2_pos((width - 1) as nat);
                assert(max_value != 0);
                assert(has_key(sorted@, max_value));
            }
        }
        let ghost max_at: int = if max_value == 0 { 0 } else { choose|p: int| 0 <= p < sorted@.len() && (#[trigger] sorted@[p]).0 == max_value };
        if let Some(mut cv) = cv_new(width) {
            let mut v2r_map: HashMap<usize, usize> = HashMap::new();
            let mut k: usize = 0;
            while k < sorted.len()
                invariant
                    k <= sorted@.len(),
                    cv_ints(cv).len() == k,
                    forall|p: int| 0 <= p < k ==> cv_ints(cv)[p] == (#[trigger] sorted@[p]).0,
                    forall|v: usize| #[trigger] v2r_map@.contains_key(v) ==> v2r_map@[v] < k && cv_ints(cv)[v2r_map@[v] as int] == v,
                    forall|p: int| 0 <= p < k ==> v2r_map@.contains_key(#[trigger] cv_ints(cv)[p]),
                    forall|p: int| 0 <= p < sorted@.len() ==> table.contains_key((#[trigger] sorted@[p]).0)
                        && table[sorted@[p].0] == sorted@[p].1 as nat && sorted@[p].0 <= max_value,
                    forall|p: int, q: int| 0 <= p < q < sorted@.len() ==> pair_before(#[trigger] sorted@[p], #[trigger] sorted@[q]),
                    forall|kk: int| 0 <= kk < pend.len() ==> has_key(sorted@, (#[trigger] pend[kk]).0),
                    holds_table(pend, table),
                    fits_in(max_value, width as nat),
                    cv_width(cv) == width,
                    width == 1 || (0 <= max_at < sorted@.len() && sorted@[max_at].0 == max_value && pow2((width - 1) as nat) <= max_value),
                decreases sorted@.len() - k,
            {
                let v = sorted[k].0;
                let ghost before = cv_ints(cv);
                let pushed = cv_push(&mut cv, v);
                assert(pushed);
                proof {
                    assert forall|q: int| 0 <= q < k implies cv_ints(cv)[q] != v by {
                        assert(cv_ints(cv)[q] == before[q]);
                        assert(pair_before(sorted@[q], sorted@[k as int]));
                    }
                }
                v2r_map.insert(v, k);
                k = k + 1;
                proof {
                    let s = cv_ints(cv);
                    assert forall|p: int| 0 <= p < k implies v2r_map@.contains_key(#[trigger] s[p]) by {
                        if p < k - 1 {
                            assert(s[p] == before[p]);
                        }
                    }
                    assert forall|w: usize| #[trigger] v2r_map@.contains_key(w) implies v2r_map@[w] < k && s[v2r_map@[w] as int] == w by {
                        if w != v {
                            assert(s[v2r_map@[w] as int] == before[v2r_map@[w] as int]);
                        }
                    }
                }
            }
            proof {
                let s = cv_ints(cv);
                assert forall|p: int, q: int| 0 <= p < q < s.len() implies ranks_before(table, #[trigger] s[p], #[trigger] s[q]) by {
                    assert(pair_before(sorted@[p], sorted@[q]));
                }
                assert forall|v: usize| table.contains_key(v) implies s.contains(v) by {
                    let kk = choose|kk: int| 0 <= kk < pend.len() && (#[trigger] pend[kk]).0 == v;
                    let p = choose|p: int| 0 <= p < sorted@.len() && (#[trigger] sorted@[p]).0 == pend[kk].0;
                    assert(s[p] == v);
                }
                assert forall|p: int| 0 <= p < s.len() implies table.contains_key(#[trigger] s[p]) by {
                    assert(s[p] == sorted@[p].0);
                }
                assert(ranked(table, s));
            }
            proof {
                let s = cv_ints(cv);
                assert forall|p: int| 0 <= p < s.len() implies fits_in(#[trigger] s[p], width as nat) by {
                    assert(s[p] == sorted@[p].0);
                }
                if width != 1 {
                    assert(s[max_at] == max_value);
                }
            }
            self.v2r_maps.push(v2r_map);
            self.sorted_sequences.push(cv);
            self.tables = Ghost(self.tables@.push(table));
            self.pending.clear();
            self.slots.clear();
            self.freqs = Ghost(Map::empty());
            proof {
                assert forall|o: int| 0 <= o < self.tables@.len() implies ranked(#[trigger] self.tables@[o], cv_ints(self.sorted_sequences@[o])) by {
                    if o < old(self).tables@.len() {
                        assert(self.sorted_sequences@[o] == old(self).sorted_sequences@[o]);
                    }
                }
                assert forall|o: int| 0 <= o < self.tables@.len() implies least_width(cv_ints(#[trigger] self.sorted_sequences@[o]), cv_width(self.sorted_sequences@[o])) by {
                    if o < old(self).tables@.len() {
                        assert(self.sorted_sequences@[o] == old(self).sorted_sequences@[o]);
                    }
                }
                assert forall|o: int| 0 <= o < self.tables@.len() implies indexes((#[trigger] self.v2r_maps@[o])@, cv_ints(self.sorted_sequences@[o])) by {
                    if o < old(self).tables@.len() {
                        assert(self.v2r_maps@[o] == old(self).v2r_maps@[o]);
                        assert(self.sorted_sequences@[o] == old(self).sorted_sequences@[o]);
                    }
                }
            }
        } else {
            assert(false);
        }
    }

    /// Returns the rank of `value` in finished order `order`, or `None` when
    /// `value` was not eaten in that order or `order` is not finished yet.
    pub fn rank(&self, order: usize, value: usize) -> (r: Option<usize>)
        requires
            self.wf(),
            order <= self.num_orders(),
        ensures
            order < self.num_orders() ==> rank_in(self.sequence(order as int), value, r),
            order == self.num_orders() ==> r is None,
    {
        if order == self.v2r_maps.len() {
            return None;
        }
        match self.v2r_maps[order].get(&value) {
            Some(r) => Some(*r),
            None => None,
        }
    }

    /// Hands out the compact sequence of every finished order.
    pub fn release(self) -> (r: Vec<CompactVector>)
        requires
            self.wf(),
        ensures
            r@.len() == self.num_orders(),
            forall|o: int| 0 <= o < r@.len() ==> cv_ints(#[trigger] r@[o]) == self.sequence(o),
            forall|o: int| 0 <= o < r@.len() ==> cv_width(#[trigger] r@[o]) == self.width(o)
                && least_width(self.sequence(o), self.width(o)),
    {
        self.sorted_sequences
    }
}

impl Default for CountsBuilder {
    fn default() -> (r: Self)
        ensures
            r.wf(),
            r.current() == Map::<usize, nat>::empty(),
            r.num_orders() == 0,
    {
        CountsBuilder {
            pending: Vec::new(),
            slots: HashMap::new(),
            freqs: Ghost(Map::empty()),
            tables: Ghost(Seq::empty()),
            v2r_maps: Vec::new(),
            sorted_sequences: Vec::new(),
        }
    }
}

/// Every value eaten during a finished order has a rank, and that rank is the
/// value's position in the order's values sorted by decreasing frequency and
/// then increasing value.
pub proof fn lemma_eaten_value_has_rank(b: &CountsBuilder, o: int, v: usize)
    requires
        b.wf(),
        0 <= o < b.num_orders(),
        b.table(o).contains_key(v),
    ensures
        ranked(b.table(o), b.sequence(o)),
        forall|r: Option<usize>| #[trigger] rank_in(b.sequence(o), v, r) ==> (r matches Some(i)
            && b.sequence(o)[i as int] == v),
{
}

/// An order in which no value was eaten has an empty sequence, and no value
/// has a rank in it.
pub proof fn lemma_empty_order(b: &CountsBuilder, o: int)
    requires
        b.wf(),
        0 <= o < b.num_orders(),
        b.table(o) == Map::<usize, nat>::empty(),
    ensures
        b.sequence(o).len() == 0,
        forall|v: usize, r: Option<usize>| #[trigger] rank_in(b.sequence(o), v, r) ==> r is None,
{
    if b.sequence(o).len() > 0 {
        assert(b.table(o).contains_key(b.sequence(o)[0]));
    }
}

/// Of two values eaten equally often in an order, the smaller one has the
/// smaller rank.
pub proof fn lemma_tie_break(b: &CountsBuilder, o: int, u: usize, v: usize)
    requires
        b.wf(),
        0 <= o < b.num_orders(),
        b.table(o).contains_key(u),
        b.table(o).contains_key(v),
        b.table(o)[u] == b.table(o)[v],
        u < v,
    ensures
        forall|ru: usize, rv: usize| #[trigger] rank_in(b.sequence(o), u, Some(ru)) && #[trigger] rank_in(b.sequence(o), v, Some(rv)) ==> ru < rv,
{
    let s = b.sequence(o);
    let m = b.table(o);
    assert forall|ru: usize, rv: usize| #[trigger] rank_in(s, u, Some(ru)) && #[trigger] rank_in(s, v, Some(rv)) implies ru < rv by {
        if rv < ru {
            assert(ranks_before(m, s[rv as int], s[ru as int]));
        }
    }
}

/// The sequence of an order and its ranks are inverse: the value at position
/// `r` has rank `r`.
pub proof fn lemma_position_rank_round_trip(b: &CountsBuilder, o: int, r: int)
    requires
        b.wf(),
        0 <= o < b.num_orders(),
        0 <= r < b.sequence(o).len(),
    ensures
        forall|x: Option<usize>| #[trigger] rank_in(b.sequence(o), b.sequence(o)[r], x) ==> x == Some(r as usize),
{
    let s = b.sequence(o);
    let m = b.table(o);
    assert(s.contains(s[r]));
    assert forall|x: Option<usize>| #[trigger] rank_in(s, s[r], x) implies x == Some(r as usize) by {
        if let Some(i) = x {
            if (i as int) < r {
                assert(ranks_before(m, s[i as int], s[r]));
            } else if (i as int) > r {
                assert(ranks_before(m, s[r], s[i as int]));
            }
        }
    }
}

} // verus!
