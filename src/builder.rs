//! Drives the count ranking and the vocabulary from per-order records.

use crate::counts::CountsBuilder;
use crate::vocabulary::{builds, Vocabulary};
use vstd::string::StringSliceAdditionalSpecFns;
use vstd::prelude::*;

verus! {

/// Frequency of each count value among `records`.
pub open spec fn record_freqs(records: Seq<(String, usize)>) -> Map<usize, nat>
    decreases records.len(),
{
    if records.len() == 0 {
        Map::empty()
    } else {
        let m = record_freqs(records.drop_last());
        let v = records.last().1;
        m.insert(v, if m.contains_key(v) { m[v] + 1 } else { 1 })
    }
}

proof fn lemma_record_freqs_bounded(records: Seq<(String, usize)>)
    ensures
        forall|v: usize| #[trigger] record_freqs(records).contains_key(v) ==> record_freqs(records)[v] <= records.len(),
    decreases records.len(),
{
    if records.len() > 0 {
        lemma_record_freqs_bounded(records.drop_last());
        let m = record_freqs(records.drop_last());
        assert forall|v: usize| #[trigger] record_freqs(records).contains_key(v) implies record_freqs(records)[v] <= records.len() by {
            if m.contains_key(v) {
                assert(m[v] <= records.drop_last().len());
            }
        }
    }
}

/// Builds the pieces of a count language model from the records of each
/// n-gram order, order 0 first.
pub struct TrieCountLmBuilder {
    loaders: Vec<Vec<(String, usize)>>,
    vocab: Option<Vocabulary>,
    counts_builder: CountsBuilder,
}

impl TrieCountLmBuilder {
    pub closed spec fn loaders(&self) -> Seq<Seq<(String, usize)>> {
        self.loaders@.map_values(|l: Vec<(String, usize)>| l@)
    }

    pub closed spec fn counts(&self) -> CountsBuilder {
        self.counts_builder
    }

    pub closed spec fn vocab(&self) -> Option<Vocabulary> {
        self.vocab
    }

    pub closed spec fn wf(&self) -> bool {
        &&& self.counts_builder.wf()
        &&& self.vocab matches Some(v) ==> v.wf()
    }

    /// A builder over `loaders`, nothing built yet.
    pub fn new(loaders: Vec<Vec<(String, usize)>>) -> (r: Self)
        ensures
            r.wf(),
            r.loaders() == loaders@.map_values(|l: Vec<(String, usize)>| l@),
            r.vocab() is None,
            r.counts().num_orders() == 0,
            r.counts().current() == Map::<usize, nat>::empty(),
    {
        TrieCountLmBuilder {
            loaders,
            vocab: None,
            counts_builder: CountsBuilder::default(),
        }
    }

    /// Ranks the count values of every order, one finished order per loader.
    pub fn build_counts(&mut self)
        requires
            old(self).wf(),
            old(self).counts().current() == Map::<usize, nat>::empty(),
        ensures
            final(self).wf(),
            final(self).loaders() == old(self).loaders(),
            final(self).vocab() == old(self).vocab(),
            final(self).counts().current() == Map::<usize, nat>::empty(),
            final(self).counts().num_orders() == old(self).counts().num_orders() + old(self).loaders().len(),
            forall|o: int| 0 <= o < old(self).counts().num_orders() ==> final(self).counts().table(o) == old(self).counts().table(o)
                && final(self).counts().sequence(o) == old(self).counts().sequence(o),
            forall|o: int| 0 <= o < old(self).loaders().len() ==> {
                let k = old(self).counts().num_orders() + o;
                &&& final(self).counts().table(k) == record_freqs(#[trigger] old(self).loaders()[o])
                &&& crate::counts::ranked(record_freqs(old(self).loaders()[o]), final(self).counts().sequence(k))
            },
    {
        let ghost base = self.counts_builder.num_orders();
        let ghost start = self.counts_builder;
        let n = self.loaders.len();
        let mut o: usize = 0;
        while o < n
            invariant
                n == self.loaders@.len(),
                self.loaders@ == old(self).loaders@,
                self.vocab == old(self).vocab,
                self.wf(),
                o <= n,
                base == start.num_orders(),
                self.counts_builder.current() == Map::<usize, nat>::empty(),
                self.counts_builder.num_orders() == base + o,
                forall|p: int| 0 <= p < base ==> self.counts_builder.table(p) == start.table(p)
                    && self.counts_builder.sequence(p) == start.sequence(p),
                forall|p: int| 0 <= p < o ==> {
                    &&& self.counts_builder.table(base + p) == record_freqs((#[trigger] self.loaders@[p])@)
                    &&& crate::counts::ranked(record_freqs(self.loaders@[p]@), self.counts_builder.sequence(base + p))
                },
            decreases n - o,
        {
            let m = self.loaders[o].len();
            let mut j: usize = 0;
            while j < m
                invariant
                    n == self.loaders@.len(),
                    o < n,
                    m == self.loaders@[o as int]@.len(),
                    self.loaders@ == old(self).loaders@,
                    self.vocab == old(self).vocab,
                    self.wf(),
                    j <= m,
                    base == start.num_orders(),
                    self.counts_builder.current() == record_freqs(self.loaders@[o as int]@.take(j as int)),
                    self.counts_builder.num_orders() == base + o,
                    forall|p: int| 0 <= p < base ==> self.counts_builder.table(p) == start.table(p)
                        && self.counts_builder.sequence(p) == start.sequence(p),
                    forall|p: int| 0 <= p < o ==> {
                        &&& self.counts_builder.table(base + p) == record_freqs((#[trigger] self.loaders@[p])@)
                        &&& crate::counts::ranked(record_freqs(self.loaders@[p]@), self.counts_builder.sequence(base + p))
                    },
                decreases m - j,
            {
                let x = self.loaders[o][j].1;
                proof {
                    let recs = self.loaders@[o as int]@;
                    lemma_record_freqs_bounded(recs.take(j as int));
                    assert(recs.take(j + 1).drop_last() == recs.take(j as int));
                }
                self.counts_builder.eat_value(x);
                j = j + 1;
            }
            proof {
                assert(self.loaders@[o as int]@.take(m as int) == self.loaders@[o as int]@);
            }
            self.counts_builder.build_sequence();
            o = o + 1;
        }
        proof {
            assert forall|p: int| 0 <= p < old(self).loaders().len() implies old(self).loaders()[p] == self.loaders@[p]@ by {}
        }
    }

    /// Builds the vocabulary from the tokens of order 0, as
    /// `Vocabulary::new` does on them; it stays unset when they are refused.
    pub fn build_vocabulary(&mut self)
        requires
            old(self).wf(),
            old(self).loaders().len() > 0,
            old(self).loaders()[0].len() < 0x8000_0000,
        ensures
            final(self).wf(),
            final(self).loaders() == old(self).loaders(),
            final(self).counts() == old(self).counts(),
            exists|t: Seq<&str>| #[trigger] builds(t, final(self).vocab()) && t.len() == old(self).loaders()[0].len()
                && forall|i: int| 0 <= i < t.len() ==> (#[trigger] t[i])@ == old(self).loaders()[0][i].0@,
    {
        let records = &self.loaders[0];
        let mut tokens: Vec<&str> = Vec::new();
        let mut i: usize = 0;
        while i < records.len()
            invariant
                i <= records@.len(),
                tokens@.len() == i,
                forall|k: int| 0 <= k < i ==> (#[trigger] tokens@[k])@ == records@[k].0@,
            decreases records@.len() - i,
        {
            tokens.push(records[i].0.as_str());
            i = i + 1;
        }
        let vocab = Vocabulary::new(tokens.as_slice());
        proof {
            assert(builds(tokens@, vocab));
        }
        self.vocab = vocab;
    }

    /// The rank of `value` in finished order `order`, as
    /// `CountsBuilder::rank` gives it.
    pub fn rank(&self, order: usize, value: usize) -> (r: Option<usize>)
        requires
            self.wf(),
            order <= self.counts().num_orders(),
        ensures
            order < self.counts().num_orders() ==> crate::counts::rank_in(self.counts().sequence(order as int), value, r),
            order == self.counts().num_orders() ==> r is None,
    {
        self.counts_builder.rank(order, value)
    }

    /// The id of `token` in the vocabulary, or `None` when it is not in it
    /// or no vocabulary was built.
    pub fn token_id(&self, token: &str) -> (r: Option<usize>)
        requires
            self.wf(),
        ensures
            self.vocab() is None ==> r is None,
            self.vocab() matches Some(voc) ==> match r {
                Some(i) => i < voc.keys().len() && voc.keys()[i as int] == token.spec_bytes(),
                None => !voc.keys().contains(token.spec_bytes()),
            },
    {
        match &self.vocab {
            Some(voc) => voc.get(token),
            None => None,
        }
    }
}

} // verus!
