//! Exact-match lookup from token to id over a double-array trie.

use vstd::prelude::*;
use vstd::string::StringSliceAdditionalSpecFns;
use yada::builder::DoubleArrayBuilder;
use yada::DoubleArray;

verus! {

broadcast use vstd::seq_lib::group_to_multiset_ensures;

/// `a` comes strictly before `b` in byte-wise lexicographic order.
#[verifier::opaque]
pub open spec fn bytes_lt(a: Seq<u8>, b: Seq<u8>) -> bool {
    exists|i: int|
        0 <= i <= a.len() && i <= b.len() && a.take(i) == b.take(i) && ((i == a.len() && i < b.len())
            || (i < a.len() && i < b.len() && a[i] < b[i]))
}

/// No byte of `s` is zero.
pub open spec fn nul_free(s: Seq<u8>) -> bool {
    forall|i: int| 0 <= i < s.len() ==> s[i] != 0
}

/// `k` is the bytes of one of `tokens`.
pub open spec fn is_token_of(tokens: Seq<&str>, k: Seq<u8>) -> bool {
    exists|j: int| 0 <= j < tokens.len() && (#[trigger] tokens[j]).spec_bytes() == k
}

/// A keyset for the trie: key bytes with their values.
pub open spec fn byte_keyset(ks: Seq<(&str, u32)>) -> Seq<(Seq<u8>, u32)> {
    ks.map_values(|p: (&str, u32)| (p.0.spec_bytes(), p.1))
}

/// Bytes of all keys, each counted with one more for its terminator.
pub open spec fn keyset_total(ks: Seq<(Seq<u8>, u32)>) -> int
    decreases ks.len(),
{
    if ks.len() == 0 {
        0
    } else {
        keyset_total(ks.drop_last()) + ks.last().0.len() + 1
    }
}

/// Bytes of all tokens, each counted with one more for its terminator.
pub open spec fn tokens_total(s: Seq<&str>) -> int
    decreases s.len(),
{
    if s.len() == 0 {
        0
    } else {
        tokens_total(s.drop_last()) + s.last().spec_bytes().len() + 1
    }
}

/// The largest total key size a trie is built for; it keeps yada's node
/// offsets below their 2^29 limit.
pub open spec fn trie_size_limit() -> int {
    0x10_0000
}

/// A keyset that yada builds a trie from: non-empty, keys in strictly
/// increasing byte order without zero bytes, values below 2^31, and small
/// enough in total.
pub open spec fn buildable(ks: Seq<(Seq<u8>, u32)>) -> bool {
    &&& ks.len() > 0
    &&& forall|i: int| 0 < i < ks.len() ==> bytes_lt(ks[i - 1].0, (#[trigger] ks[i]).0)
    &&& forall|i: int| 0 <= i < ks.len() ==> nul_free((#[trigger] ks[i]).0) && ks[i].1 < 0x8000_0000
    &&& keyset_total(ks) < trie_size_limit()
}

/// The bytes of the trie that yada builds from a keyset.
pub uninterp spec fn trie_bytes(ks: Seq<(Seq<u8>, u32)>) -> Seq<u8>;

/// What the trie held in `data` finds for `key`.
pub uninterp spec fn trie_value(data: Seq<u8>, key: Seq<u8>) -> Option<u32>;

/// Relies on std's `sort_unstable` for slices of `&str`: a permutation in
/// non-decreasing byte-wise order.
#[verifier::external_body]
fn sort_tokens(v: &mut Vec<&str>)
    ensures
        final(v)@.to_multiset() == old(v)@.to_multiset(),
        forall|i: int, j: int| 0 <= i < j < final(v)@.len() ==> !bytes_lt(final(v)@[j].spec_bytes(), final(v)@[i].spec_bytes()),
{
    v.sort_unstable();
}

/// Relies on yada's DoubleArrayBuilder::build: on a buildable keyset it
/// returns the trie, which finds each key's value and nothing for other keys.
#[verifier::external_body]
fn trie_build(keyset: &[(&str, u32)]) -> (r: Option<Vec<u8>>)
    requires
        buildable(byte_keyset(keyset@)),
    ensures
        r is Some,
        r->Some_0@ == trie_bytes(byte_keyset(keyset@)),
        r->Some_0@.len() > 0,
        forall|i: int| 0 <= i < keyset@.len() ==> trie_value(r->Some_0@, #[trigger] byte_keyset(keyset@)[i].0) == Some(keyset@[i].1),
        forall|k: Seq<u8>| nul_free(k) && (forall|i: int| 0 <= i < keyset@.len() ==> #[trigger] byte_keyset(keyset@)[i].0 != k)
            ==> #[trigger] trie_value(r->Some_0@, k) is None,
{
    DoubleArrayBuilder::build(keyset)
}

/// Relies on yada's DoubleArray::exact_match_search on a trie that yada built
/// from a buildable keyset.
#[verifier::external_body]
fn trie_search(data: &[u8], key: &str) -> (r: Option<u32>)
    requires
        exists|ks: Seq<(Seq<u8>, u32)>| buildable(ks) && data@ == trie_bytes(ks),
        nul_free(key.spec_bytes()),
    ensures
        r == trie_value(data@, key.spec_bytes()),
{
    DoubleArray::new(data).exact_match_search(key)
}

proof fn lemma_tokens_total_remove(s: Seq<&str>, k: int)
    requires
        0 <= k < s.len(),
    ensures
        tokens_total(s) == tokens_total(s.remove(k)) + s[k].spec_bytes().len() + 1,
    decreases s.len(),
{
    if k == s.len() - 1 {
        assert(s.remove(k) =~= s.drop_last());
    } else {
        let d = s.drop_last();
        lemma_tokens_total_remove(d, k);
        assert(s.remove(k).drop_last() =~= d.remove(k));
        assert(s.remove(k).last() == s.last());
    }
}

proof fn lemma_tokens_total_permutation(s: Seq<&str>, t: Seq<&str>)
    requires
        s.to_multiset() == t.to_multiset(),
    ensures
        tokens_total(s) == tokens_total(t),
    decreases s.len(),
{
    broadcast use vstd::multiset::group_multiset_axioms;

    if s.len() == 0 {
        assert(t.len() == t.to_multiset().len());
    } else {
        let x = s.last();
        let d = s.drop_last();
        assert(d.push(x) =~= s);
        assert(s.to_multiset() == d.to_multiset().insert(x));
        assert(t.to_multiset().count(x) > 0);
        assert(t.contains(x));
        let k = choose|k: int| 0 <= k < t.len() && t[k] == x;
        assert(t.remove(k).to_multiset() == t.to_multiset().remove(x));
        assert(d.to_multiset().insert(x).remove(x) =~= d.to_multiset());
        lemma_tokens_total_permutation(d, t.remove(k));
        lemma_tokens_total_remove(t, k);
    }
}

proof fn lemma_keyset_total_of_tokens(ks: Seq<(Seq<u8>, u32)>, s: Seq<&str>)
    requires
        ks.len() == s.len(),
        forall|i: int| 0 <= i < s.len() ==> (#[trigger] ks[i]).0 == s[i].spec_bytes(),
    ensures
        keyset_total(ks) == tokens_total(s),
    decreases s.len(),
{
    if s.len() > 0 {
        lemma_keyset_total_of_tokens(ks.drop_last(), s.drop_last());
    }
}

proof fn lemma_bytes_lt_total(a: Seq<u8>, b: Seq<u8>)
    requires
        a != b,
    ensures
        bytes_lt(a, b) || bytes_lt(b, a),
    decreases a.len(),
{
    reveal(bytes_lt);
    assert(a.take(0) =~= b.take(0));
    if a.len() == 0 {
        if b.len() == 0 {
            assert(a =~= b);
        }
        assert(bytes_lt(a, b));
    } else if b.len() == 0 {
        assert(bytes_lt(b, a));
    } else if a[0] != b[0] {
        if a[0] < b[0] {
            assert(bytes_lt(a, b));
        } else {
            assert(bytes_lt(b, a));
        }
    } else {
        let a1 = a.drop_first();
        let b1 = b.drop_first();
        if a1 == b1 {
            assert(a =~= seq![a[0]] + a1);
            assert(b =~= seq![b[0]] + b1);
        }
        lemma_bytes_lt_total(a1, b1);
        if bytes_lt(a1, b1) {
            let i = choose|i: int|
                0 <= i <= a1.len() && i <= b1.len() && a1.take(i) == b1.take(i) && ((i == a1.len() && i < b1.len())
                    || (i < a1.len() && i < b1.len() && a1[i] < b1[i]));
            assert(a.take(i + 1) =~= seq![a[0]] + a1.take(i));
            assert(b.take(i + 1) =~= seq![b[0]] + b1.take(i));
            if i < a1.len() {
                assert(a[i + 1] == a1[i]);
            }
            if i < b1.len() {
                assert(b[i + 1] == b1[i]);
            }
            assert(bytes_lt(a, b));
        } else {
            let i = choose|i: int|
                0 <= i <= b1.len() && i <= a1.len() && b1.take(i) == a1.take(i) && ((i == b1.len() && i < a1.len())
                    || (i < b1.len() && i < a1.len() && b1[i] < a1[i]));
            assert(a.take(i + 1) =~= seq![a[0]] + a1.take(i));
            assert(b.take(i + 1) =~= seq![b[0]] + b1.take(i));
            if i < a1.len() {
                assert(a[i + 1] == a1[i]);
            }
            if i < b1.len() {
                assert(b[i + 1] == b1[i]);
            }
            assert(bytes_lt(b, a));
        }
    }
}

fn bytes_less(a: &[u8], b: &[u8]) -> (r: bool)
    ensures
        r == bytes_lt(a@, b@),
{
    let mut i: usize = 0;
    while i < a.len() && i < b.len() && a[i] == b[i]
        invariant
            i <= a@.len(),
            i <= b@.len(),
            a@.take(i as int) == b@.take(i as int),
        decreases a@.len() - i,
    {
        proof {
            assert(a@.take(i + 1) == a@.take(i as int).push(a@[i as int]));
            assert(b@.take(i + 1) == b@.take(i as int).push(b@[i as int]));
        }
        i = i + 1;
    }
    reveal(bytes_lt);
    let r = if i < a.len() && i < b.len() {
        a[i] < b[i]
    } else {
        i == a.len() && i < b.len()
    };
    proof {
        if r {
            assert(bytes_lt(a@, b@));
        } else {
            assert forall|j: int|
                0 <= j <= a@.len() && j <= b@.len() && a@.take(j) == b@.take(j) implies !((j == a@.len() && j < b@.len())
                    || (j < a@.len() && j < b@.len() && a@[j] < b@[j])) by {
                if j < i {
                    assert(a@.take(i as int)[j] == a@[j]);
                    assert(b@.take(i as int)[j] == b@[j]);
                } else if j > i {
                    assert(a@.take(j)[i as int] == a@[i as int]);
                    assert(b@.take(j)[i as int] == b@[i as int]);
                }
            }
        }
    }
    r
}

fn has_nul(s: &[u8]) -> (r: bool)
    ensures
        r == !nul_free(s@),
{
    let mut i: usize = 0;
    while i < s.len()
        invariant
            i <= s@.len(),
            forall|k: int| 0 <= k < i ==> s@[k] != 0,
        decreases s@.len() - i,
    {
        if s[i] == 0 {
            return true;
        }
        i = i + 1;
    }
    false
}

/// The bytes of each token.
pub open spec fn key_bytes(v: Seq<&str>) -> Seq<Seq<u8>> {
    v.map_values(|t: &str| t.spec_bytes())
}

/// The keyset that gives each key its position as value.
pub open spec fn keyset_of(keys: Seq<Seq<u8>>) -> Seq<(Seq<u8>, u32)> {
    Seq::new(keys.len(), |i: int| (keys[i], i as u32))
}

/// What `Vocabulary::new(tokens)` gives: `None` exactly when a token holds a
/// zero byte, two tokens are equal, or the tokens are too large in total;
/// otherwise a vocabulary of exactly those tokens.
pub open spec fn builds(tokens: Seq<&str>, r: Option<Vocabulary>) -> bool {
    &&& r is Some <==> acceptable(tokens)
    &&& r matches Some(voc) ==> voc.built_from(tokens)
}

/// An immutable map from token to id, where a token's id is its position
/// among all tokens in byte-wise lexicographic order.
pub struct Vocabulary {
    // the trie, empty for a vocabulary of no tokens
    data: Vec<u8>,
    // the tokens' bytes in increasing order; position is id
    keys: Ghost<Seq<Seq<u8>>>,
}

impl Vocabulary {
    /// The tokens' bytes in increasing order; a token's position is its id.
    pub closed spec fn keys(&self) -> Seq<Seq<u8>> {
        self.keys@
    }

    /// A well-formed vocabulary whose keys are exactly the bytes of `tokens`.
    pub open spec fn built_from(&self, tokens: Seq<&str>) -> bool {
        &&& self.wf()
        &&& self.keys().len() == tokens.len()
        &&& forall|j: int| 0 <= j < tokens.len() ==> self.keys().contains(#[trigger] tokens[j].spec_bytes())
        &&& forall|i: int| 0 <= i < self.keys().len() ==> is_token_of(tokens, #[trigger] self.keys()[i])
    }

    pub closed spec fn wf(&self) -> bool {
        let keys = self.keys@;
        let data = self.data@;
        &&& keys.len() < 0x8000_0000
        &&& forall|i: int| 0 < i < keys.len() ==> bytes_lt(keys[i - 1], #[trigger] keys[i])
        &&& forall|i: int| 0 <= i < keys.len() ==> nul_free(#[trigger] keys[i])
        &&& keys.len() == 0 <==> data.len() == 0
        &&& keys.len() > 0 ==> buildable(keyset_of(keys)) && data == trie_bytes(keyset_of(keys))
        &&& keys.len() > 0 ==> forall|i: int| 0 <= i < keys.len() ==> trie_value(data, #[trigger] keys[i]) == Some(i as u32)
        &&& keys.len() > 0 ==> forall|k: Seq<u8>| nul_free(k) && !keys.contains(k) ==> #[trigger] trie_value(data, k) is None
    }

    /// Builds the vocabulary of `tokens`. Ids follow the byte-wise
    /// lexicographic order of the tokens, whatever their order in `tokens`.
    /// Gives `None` exactly when a token holds a zero byte, when a token
    /// occurs twice, or when the tokens are too large in total for the trie.
    pub fn new(tokens: &[&str]) -> (r: Option<Self>)
        requires
            tokens@.len() < 0x8000_0000,
        ensures
            builds(tokens@, r),
    {
        let mut v: Vec<&str> = Vec::new();
        let mut i: usize = 0;
        while i < tokens.len()
            invariant
                i <= tokens@.len(),
                v@ == tokens@.take(i as int),
            decreases tokens@.len() - i,
        {
            v.push(tokens[i]);
            i = i + 1;
            proof {
                assert(v@ == tokens@.take(i as int));
            }
        }
        assert(v@ == tokens@);
        sort_tokens(&mut v);
        let n = v.len();
        proof {
            lemma_admissible_iff_acceptable(tokens@, v@);
        }
        if !admissible(&v) {
            return None;
        }
        let ghost keys = key_bytes(v@);
        proof {
            lemma_keys_of_tokens(tokens@, v@);
        }
        if n == 0 {
            return Some(Vocabulary { data: Vec::new(), keys: Ghost(keys) });
        }
        let mut keyset: Vec<(&str, u32)> = Vec::new();
        let mut k: usize = 0;
        while k < n
            invariant
                n == v@.len(),
                n < 0x8000_0000,
                k <= n,
                keyset@.len() == k,
                forall|p: int| 0 <= p < k ==> #[trigger] keyset@[p] == (v@[p], p as u32),
            decreases n - k,
        {
            keyset.push((v[k], k as u32));
            k = k + 1;
        }
        proof {
            assert(byte_keyset(keyset@) =~= keyset_of(keys));
            lemma_keyset_total_of_tokens(keyset_of(keys), v@);
        }
        match trie_build(keyset.as_slice()) {
            None => None,
            Some(data) => {
                let voc = Vocabulary { data, keys: Ghost(keys) };
                proof {
                    let bk = byte_keyset(keyset@);
                    assert forall|i: int| 0 <= i < keys.len() implies trie_value(data@, #[trigger] keys[i]) == Some(i as u32) by {
                        assert(bk[i].0 == keys[i]);
                    }
                    assert forall|kk: Seq<u8>| nul_free(kk) && !keys.contains(kk) implies #[trigger] trie_value(data@, kk) is None by {
                        assert forall|i: int| 0 <= i < keyset@.len() implies #[trigger] bk[i].0 != kk by {
                            assert(keys[i] == bk[i].0);
                        }
                    }
                }
                Some(voc)
            },
        }
    }

    /// The id of `token`, or `None` when it is not in the vocabulary.
    pub fn get(&self, token: &str) -> (r: Option<usize>)
        requires
            self.wf(),
        ensures
            match r {
                Some(i) => i < self.keys().len() && self.keys()[i as int] == token.spec_bytes(),
                None => !self.keys().contains(token.spec_bytes()),
            },
    {
        if self.data.len() == 0 {
            return None;
        }
        if has_nul(token.as_bytes()) {
            return None;
        }
        match trie_search(self.data.as_slice(), token) {
            Some(x) => {
                proof {
                    let kb = token.spec_bytes();
                    if !self.keys@.contains(kb) {
                        assert(trie_value(self.data@, kb) is None);
                    }
                    let i = choose|i: int| 0 <= i < self.keys@.len() && self.keys@[i] == kb;
                    assert(trie_value(self.data@, self.keys@[i]) == Some(i as u32));
                }
                Some(x as usize)
            },
            None => {
                proof {
                    let kb = token.spec_bytes();
                    if self.keys@.contains(kb) {
                        let i = choose|i: int| 0 <= i < self.keys@.len() && self.keys@[i] == kb;
                        assert(trie_value(self.data@, self.keys@[i]) == Some(i as u32));
                    }
                }
                None
            },
        }
    }
}

proof fn lemma_bytes_lt_transitive(a: Seq<u8>, b: Seq<u8>, c: Seq<u8>)
    requires
        bytes_lt(a, b),
        bytes_lt(b, c),
    ensures
        bytes_lt(a, c),
{
    reveal(bytes_lt);
    let i = choose|i: int|
        0 <= i <= a.len() && i <= b.len() && a.take(i) == b.take(i) && ((i == a.len() && i < b.len())
            || (i < a.len() && i < b.len() && a[i] < b[i]));
    let j = choose|j: int|
        0 <= j <= b.len() && j <= c.len() && b.take(j) == c.take(j) && ((j == b.len() && j < c.len())
            || (j < b.len() && j < c.len() && b[j] < c[j]));
    if i <= j {
        assert(b.take(i) == b.take(j).take(i));
        assert(c.take(i) == c.take(j).take(i));
        if i < j {
            assert(b.take(j)[i] == b[i] && c.take(j)[i] == c[i]);
        }
        assert(a.take(i) == c.take(i));
    } else {
        assert(a.take(j) == a.take(i).take(j));
        assert(b.take(j) == b.take(i).take(j));
        assert(a.take(i)[j] == a[j] && b.take(i)[j] == b[j]);
        assert(a.take(j) == c.take(j));
    }
}

proof fn lemma_bytes_lt_irreflexive(a: Seq<u8>)
    ensures
        !bytes_lt(a, a),
{
    reveal(bytes_lt);
}

proof fn lemma_sorted_keys(s: Seq<Seq<u8>>, i: int, j: int)
    requires
        strictly_sorted(s),
        0 <= i < j < s.len(),
    ensures
        bytes_lt(s[i], s[j]),
    decreases j - i,
{
    if j > i + 1 {
        lemma_sorted_keys(s, i, j - 1);
        lemma_bytes_lt_transitive(s[i], s[j - 1], s[j]);
    }
}

spec fn strictly_sorted(s: Seq<Seq<u8>>) -> bool {
    forall|k: int| 0 < k < s.len() ==> bytes_lt(s[k - 1], #[trigger] s[k])
}

proof fn lemma_sorted_key_at(a: Seq<Seq<u8>>, b: Seq<Seq<u8>>, i: int, j: int, k: int)
    requires
        strictly_sorted(a),
        strictly_sorted(b),
        0 <= i < a.len(),
        a.len() == b.len(),
        0 <= j < b.len() && b[j] == a[i],
        0 <= k < a.len() && a[k] == b[i],
        forall|p: int| 0 <= p < i ==> a[p] == b[p],
    ensures
        a[i] == b[i],
{
    if j < i {
        assert(b[j] == a[j]);
        lemma_sorted_keys(a, j, i);
        lemma_bytes_lt_irreflexive(a[i]);
    } else if j > i {
        lemma_sorted_keys(b, i, j);
        if k < i {
            assert(a[k] == b[k]);
            lemma_sorted_keys(b, k, i);
            lemma_bytes_lt_irreflexive(b[i]);
        } else if k == i {
            lemma_bytes_lt_irreflexive(a[i]);
        } else {
            lemma_sorted_keys(a, i, k);
            lemma_bytes_lt_transitive(a[i], b[i], a[i]);
            lemma_bytes_lt_irreflexive(a[i]);
        }
    }
}

proof fn lemma_sorted_keys_equal_upto(a: Seq<Seq<u8>>, b: Seq<Seq<u8>>, n: int)
    requires
        strictly_sorted(a),
        strictly_sorted(b),
        a.len() == b.len(),
        forall|k: int| 0 <= k < a.len() ==> #[trigger] b.contains(a[k]),
        forall|k: int| 0 <= k < b.len() ==> #[trigger] a.contains(b[k]),
        0 <= n <= a.len(),
    ensures
        forall|p: int| 0 <= p < n ==> a[p] == b[p],
    decreases n,
{
    if n > 0 {
        lemma_sorted_keys_equal_upto(a, b, n - 1);
        let i = n - 1;
        assert(b.contains(a[i]));
        let j = choose|j: int| 0 <= j < b.len() && b[j] == a[i];
        assert(a.contains(b[i]));
        let k = choose|k: int| 0 <= k < a.len() && a[k] == b[i];
        lemma_sorted_key_at(a, b, i, j, k);
    }
}

/// Ids depend on the set of tokens alone: building from acceptable tokens
/// succeeds, and two builds from the same tokens, given in any order, have the
/// same keys, so `get` gives every string the same answer in both.
pub proof fn lemma_ids_independent_of_input_order(t1: Seq<&str>, t2: Seq<&str>, r1: Option<Vocabulary>, r2: Option<Vocabulary>)
    requires
        acceptable(t1),
        acceptable(t2),
        t1.to_multiset() == t2.to_multiset(),
        builds(t1, r1),
        builds(t2, r2),
    ensures
        r1 is Some,
        r2 is Some,
        r1->Some_0.keys() == r2->Some_0.keys(),
{
    let v1 = r1->Some_0;
    let v2 = r2->Some_0;
    let a = v1.keys();
    let b = v2.keys();
    assert(t1.len() == t1.to_multiset().len());
    assert(t2.len() == t2.to_multiset().len());
    assert forall|k: int| 0 <= k < a.len() implies #[trigger] b.contains(a[k]) by {
        assert(is_token_of(t1, a[k]));
        let j = choose|j: int| 0 <= j < t1.len() && (#[trigger] t1[j]).spec_bytes() == a[k];
        assert(t1.contains(t1[j]));
        assert(t1.to_multiset().count(t1[j]) > 0);
        assert(t2.to_multiset().count(t1[j]) > 0);
        assert(t2.contains(t1[j]));
        let q = choose|q: int| 0 <= q < t2.len() && t2[q] == t1[j];
        assert(b.contains(t2[q].spec_bytes()));
    }
    assert forall|k: int| 0 <= k < b.len() implies #[trigger] a.contains(b[k]) by {
        assert(is_token_of(t2, b[k]));
        let j = choose|j: int| 0 <= j < t2.len() && (#[trigger] t2[j]).spec_bytes() == b[k];
        assert(t2.contains(t2[j]));
        assert(t2.to_multiset().count(t2[j]) > 0);
        assert(t1.to_multiset().count(t2[j]) > 0);
        assert(t1.contains(t2[j]));
        let q = choose|q: int| 0 <= q < t1.len() && t1[q] == t2[j];
        assert(a.contains(t1[q].spec_bytes()));
    }
    lemma_sorted_keys_equal_upto(a, b, a.len() as int);
    assert(a =~= b);
}

proof fn lemma_tokens_total_prefix(s: Seq<&str>, i: int)
    requires
        0 < i <= s.len(),
    ensures
        tokens_total(s.take(i)) == tokens_total(s.take(i - 1)) + s[i - 1].spec_bytes().len() + 1,
        tokens_total(s.take(i)) <= tokens_total(s),
    decreases s.len() - i,
{
    assert(s.take(i).drop_last() =~= s.take(i - 1));
    if i < s.len() {
        lemma_tokens_total_prefix(s, i + 1);
    } else {
        assert(s.take(i) =~= s);
    }
}

/// Sorting distinct tokens orders them strictly.
proof fn lemma_distinct_sorted_is_strict(tokens: Seq<&str>, v: Seq<&str>)
    requires
        v.to_multiset() == tokens.to_multiset(),
        forall|p: int, q: int| 0 <= p < q < tokens.len() ==> #[trigger] tokens[p].spec_bytes() != #[trigger] tokens[q].spec_bytes(),
        forall|j: int| 0 <= j < tokens.len() ==> nul_free(#[trigger] tokens[j].spec_bytes()),
        forall|i: int, j: int| 0 <= i < j < v.len() ==> !bytes_lt(v[j].spec_bytes(), v[i].spec_bytes()),
    ensures
        forall|k: int| 0 < k < v.len() ==> bytes_lt(v[k - 1].spec_bytes(), (#[trigger] v[k]).spec_bytes()),
        forall|k: int| 0 <= k < v.len() ==> nul_free((#[trigger] v[k]).spec_bytes()),
{
    assert(tokens.no_duplicates()) by {
        assert forall|p: int, q: int| 0 <= p < tokens.len() && 0 <= q < tokens.len() && p != q implies tokens[p] != tokens[q] by {
            if p < q {
                assert(tokens[p].spec_bytes() != tokens[q].spec_bytes());
            } else {
                assert(tokens[q].spec_bytes() != tokens[p].spec_bytes());
            }
        }
    }
    tokens.lemma_multiset_has_no_duplicates();
    v.lemma_multiset_has_no_duplicates_conv();
    assert forall|k: int| 0 <= k < v.len() implies nul_free((#[trigger] v[k]).spec_bytes()) by {
        assert(v.contains(v[k]));
        assert(v.to_multiset().count(v[k]) > 0);
        assert(tokens.to_multiset().count(v[k]) > 0);
        assert(tokens.contains(v[k]));
    }
    assert forall|k: int| 0 < k < v.len() implies bytes_lt(v[k - 1].spec_bytes(), (#[trigger] v[k]).spec_bytes()) by {
        assert(v.contains(v[k]));
        assert(v.to_multiset().count(v[k]) > 0);
        assert(tokens.to_multiset().count(v[k]) > 0);
        assert(tokens.contains(v[k]));
        let q = choose|q: int| 0 <= q < tokens.len() && tokens[q] == v[k];
        assert(v.contains(v[k - 1]));
        assert(v.to_multiset().count(v[k - 1]) > 0);
        assert(tokens.to_multiset().count(v[k - 1]) > 0);
        assert(tokens.contains(v[k - 1]));
        let p = choose|p: int| 0 <= p < tokens.len() && tokens[p] == v[k - 1];
        assert(v[k - 1] != v[k]);
        assert(p != q);
        if p < q {
            assert(tokens[p].spec_bytes() != tokens[q].spec_bytes());
        } else {
            assert(tokens[q].spec_bytes() != tokens[p].spec_bytes());
        }
        lemma_bytes_lt_total(v[k - 1].spec_bytes(), v[k].spec_bytes());
    }
}

/// The sorted tokens `v` can be keys of a trie.
spec fn admissible_spec(v: Seq<&str>) -> bool {
    &&& forall|k: int| 0 <= k < v.len() ==> nul_free((#[trigger] v[k]).spec_bytes())
    &&& forall|k: int| 0 < k < v.len() ==> bytes_lt(v[k - 1].spec_bytes(), (#[trigger] v[k]).spec_bytes())
    &&& tokens_total(v) < trie_size_limit()
}

/// The tokens a vocabulary is built from: no zero byte, no two equal, and
/// small enough in total.
pub open spec fn acceptable(tokens: Seq<&str>) -> bool {
    &&& forall|j: int| 0 <= j < tokens.len() ==> nul_free(#[trigger] tokens[j].spec_bytes())
    &&& forall|p: int, q: int| 0 <= p < q < tokens.len() ==> #[trigger] tokens[p].spec_bytes() != #[trigger] tokens[q].spec_bytes()
    &&& tokens_total(tokens) < trie_size_limit()
}

fn admissible(v: &Vec<&str>) -> (r: bool)
    ensures
        r == admissible_spec(v@),
{
    let n = v.len();
    let mut total: usize = 0;
    let mut i: usize = 0;
    while i < n
        invariant
            n == v@.len(),
            i <= n,
            total == tokens_total(v@.take(i as int)),
            total < trie_size_limit(),
            forall|k: int| 0 <= k < i ==> nul_free(#[trigger] v@[k].spec_bytes()),
            forall|k: int| 0 < k < i ==> bytes_lt(v@[k - 1].spec_bytes(), (#[trigger] v@[k]).spec_bytes()),
        decreases n - i,
    {
        if has_nul(v[i].as_bytes()) {
            return false;
        }
        if i > 0 && !bytes_less(v[i - 1].as_bytes(), v[i].as_bytes()) {
            return false;
        }
        let len = v[i].as_bytes().len();
        proof {
            lemma_tokens_total_prefix(v@, i + 1);
        }
        if len >= 0x10_0000 - total - 1 {
            proof {
                assert(v@.take(n as int) =~= v@);
                if i + 1 < n {
                    lemma_tokens_total_prefix(v@, n as int);
                    lemma_tokens_total_monotone(v@, i + 1, n as int);
                }
            }
            return false;
        }
        total = total + len + 1;
        i = i + 1;
    }
    assert(v@.take(n as int) =~= v@);
    true
}

proof fn lemma_tokens_total_monotone(s: Seq<&str>, i: int, j: int)
    requires
        0 <= i <= j <= s.len(),
    ensures
        tokens_total(s.take(i)) <= tokens_total(s.take(j)),
    decreases j - i,
{
    if i < j {
        lemma_tokens_total_prefix(s, j);
        lemma_tokens_total_monotone(s, i, j - 1);
    }
}

proof fn lemma_admissible_iff_acceptable(tokens: Seq<&str>, v: Seq<&str>)
    requires
        v.to_multiset() == tokens.to_multiset(),
        forall|i: int, j: int| 0 <= i < j < v.len() ==> !bytes_lt(v[j].spec_bytes(), v[i].spec_bytes()),
    ensures
        admissible_spec(v) == acceptable(tokens),
        v.len() == tokens.len(),
{
    assert(v.len() == v.to_multiset().len());
    assert(tokens.len() == tokens.to_multiset().len());
    lemma_tokens_total_permutation(v, tokens);
    if acceptable(tokens) {
        lemma_distinct_sorted_is_strict(tokens, v);
    }
    if admissible_spec(v) {
        assert forall|j: int| 0 <= j < tokens.len() implies nul_free(#[trigger] tokens[j].spec_bytes()) by {
            assert(tokens.contains(tokens[j]));
            assert(tokens.to_multiset().count(tokens[j]) > 0);
            assert(v.contains(tokens[j]));
            let k = choose|k: int| 0 <= k < v.len() && v[k] == tokens[j];
            assert(nul_free(v[k].spec_bytes()));
        }
        let keys = key_bytes(v);
        assert(strictly_sorted(keys));
        assert forall|p: int, q: int| 0 <= p < q < keys.len() implies #[trigger] keys[p] != #[trigger] keys[q] by {
            lemma_sorted_keys(keys, p, q);
            lemma_bytes_lt_irreflexive(keys[p]);
        }
        assert(v.no_duplicates());
        v.lemma_multiset_has_no_duplicates();
        tokens.lemma_multiset_has_no_duplicates_conv();
        assert forall|i: int, j: int| 0 <= i < j < tokens.len() implies #[trigger] tokens[i].spec_bytes() != #[trigger] tokens[j].spec_bytes() by {
            assert(tokens.contains(tokens[i]));
            assert(tokens.to_multiset().count(tokens[i]) > 0);
            assert(v.contains(tokens[i]));
            let p = choose|p: int| 0 <= p < v.len() && v[p] == tokens[i];
            assert(tokens.contains(tokens[j]));
            assert(tokens.to_multiset().count(tokens[j]) > 0);
            assert(v.contains(tokens[j]));
            let q = choose|q: int| 0 <= q < v.len() && v[q] == tokens[j];
            assert(keys[p] == tokens[i].spec_bytes());
            assert(keys[q] == tokens[j].spec_bytes());
            if p == q {
                assert(tokens[i] == tokens[j]);
            }
        }
    }
}

proof fn lemma_keys_of_tokens(tokens: Seq<&str>, v: Seq<&str>)
    requires
        v.to_multiset() == tokens.to_multiset(),
    ensures
        forall|j: int| 0 <= j < tokens.len() ==> key_bytes(v).contains(#[trigger] tokens[j].spec_bytes()),
        forall|i: int| 0 <= i < v.len() ==> is_token_of(tokens, #[trigger] key_bytes(v)[i]),
{
    let keys = key_bytes(v);
    assert forall|j: int| 0 <= j < tokens.len() implies keys.contains(#[trigger] tokens[j].spec_bytes()) by {
        assert(tokens.contains(tokens[j]));
        assert(tokens.to_multiset().count(tokens[j]) > 0);
        assert(v.contains(tokens[j]));
        let p = choose|p: int| 0 <= p < v.len() && v[p] == tokens[j];
        assert(keys[p] == tokens[j].spec_bytes());
    }
    assert forall|i: int| 0 <= i < keys.len() implies is_token_of(tokens, #[trigger] keys[i]) by {
        assert(v.contains(v[i]));
        assert(v.to_multiset().count(v[i]) > 0);
        assert(tokens.to_multiset().count(v[i]) > 0);
        assert(tokens.contains(v[i]));
        let j = choose|j: int| 0 <= j < tokens.len() && tokens[j] == v[i];
        assert(keys[i] == tokens[j].spec_bytes());
    }
}

} // verus!
