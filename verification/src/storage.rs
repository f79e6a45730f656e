//! The node's local set: a token-ordered mapping from value hash to value.
//!
//! Semantically the store is a mapping `token -> value` in which every
//! token is the hash of its value and each token holds at most one value;
//! hash collisions silently overwrite.

use vstd::prelude::*;
use crate::consistent_hash::{
    first_at_least, first_token_eq, has_token, lemma_first_at_least, lemma_first_token_eq,
    lemma_first_token_eq_has, lemma_remove_first_token, lemma_sorted_insert,
    remove_first_token, sorted_insert, token_of, tokens_sorted, ConsistentHash,
};

verus! {

/// A trait for basic storage operations. The contracts live on the
/// implementation; the node dispatches against the concrete store.
pub trait Storage<T> {
    /// Adds a value to the storage. Returns `true` if its token was new.
    fn add(&mut self, value: T) -> bool;

    /// Checks if a value exists in the storage.
    fn check(&self, value: &T) -> bool;

    /// Gets the number of elements in the storage.
    fn get_count(&self) -> usize;

    /// Removes the entry keyed by the given token, if present.
    fn remove(&mut self, value: u64) -> bool;

    /// The value keyed by the given token, if present.
    fn get_value_by_key(&self, key: u64) -> Option<&T>;

    /// The values whose tokens lie in `[start, end]`, both ends included,
    /// in token order.
    fn get_values(&self, start: u64, end: u64) -> Vec<&T>;

    /// The tokens in `[start, end]`, both ends included, in order.
    fn get_keys_in_range(&self, start: u64, end: u64) -> Vec<u64>;
}

/// A local set ordered by token.
pub struct BTreeStorage<T> {
    data: Vec<(u64, T)>,
}

/// True when every entry's token is the hash of its value.
pub open spec fn entries_hash_linked(s: Seq<(u64, Seq<char>)>) -> bool {
    forall|i: int| 0 <= i < s.len() ==> #[trigger] s[i].0 == token_of(s[i].1)
}

/// True of a token lying in the inclusive range `[lo, hi]`.
pub open spec fn token_in_range(t: u64, lo: u64, hi: u64) -> bool {
    lo <= t && t <= hi
}

/// The values of the entries whose tokens lie in `[lo, hi]`, in entry
/// order.
pub open spec fn values_in_range(s: Seq<(u64, Seq<char>)>, lo: u64, hi: u64) -> Seq<Seq<char>>
    decreases s.len(),
{
    if s.len() == 0 {
        Seq::empty()
    } else {
        (if token_in_range(s[0].0, lo, hi) {
            seq![s[0].1]
        } else {
            Seq::empty()
        }) + values_in_range(s.drop_first(), lo, hi)
    }
}

/// The tokens of the entries lying in `[lo, hi]`, in entry order.
pub open spec fn keys_in_range(s: Seq<(u64, Seq<char>)>, lo: u64, hi: u64) -> Seq<u64>
    decreases s.len(),
{
    if s.len() == 0 {
        Seq::empty()
    } else {
        (if token_in_range(s[0].0, lo, hi) {
            seq![s[0].0]
        } else {
            Seq::empty()
        }) + keys_in_range(s.drop_first(), lo, hi)
    }
}

pub proof fn lemma_values_in_range_push(s: Seq<(u64, Seq<char>)>, x: (u64, Seq<char>), lo: u64, hi: u64)
    ensures
        values_in_range(s.push(x), lo, hi) == values_in_range(s, lo, hi) + (
        if token_in_range(x.0, lo, hi) {
            seq![x.1]
        } else {
            Seq::<Seq<char>>::empty()
        }),
    decreases s.len(),
{
    let tail = if token_in_range(x.0, lo, hi) {
        seq![x.1]
    } else {
        Seq::<Seq<char>>::empty()
    };
    if s.len() == 0 {
        assert(s.push(x)[0] == x);
        assert(s.push(x).drop_first() =~= Seq::<(u64, Seq<char>)>::empty());
        assert(values_in_range(Seq::<(u64, Seq<char>)>::empty(), lo, hi)
            =~= Seq::<Seq<char>>::empty());
        assert(values_in_range(s.push(x), lo, hi) =~= values_in_range(s, lo, hi) + tail);
    } else {
        lemma_values_in_range_push(s.drop_first(), x, lo, hi);
        assert(s.push(x).drop_first() =~= s.drop_first().push(x));
        assert(s.push(x)[0] == s[0]);
        assert(values_in_range(s.push(x), lo, hi) =~= values_in_range(s, lo, hi) + tail);
    }
}

pub proof fn lemma_keys_in_range_push(s: Seq<(u64, Seq<char>)>, x: (u64, Seq<char>), lo: u64, hi: u64)
    ensures
        keys_in_range(s.push(x), lo, hi) == keys_in_range(s, lo, hi) + (
        if token_in_range(x.0, lo, hi) {
            seq![x.0]
        } else {
            Seq::<u64>::empty()
        }),
    decreases s.len(),
{
    let tail = if token_in_range(x.0, lo, hi) {
        seq![x.0]
    } else {
        Seq::<u64>::empty()
    };
    if s.len() == 0 {
        assert(s.push(x)[0] == x);
        assert(s.push(x).drop_first() =~= Seq::<(u64, Seq<char>)>::empty());
        assert(keys_in_range(Seq::<(u64, Seq<char>)>::empty(), lo, hi) =~= Seq::<u64>::empty());
        assert(keys_in_range(s.push(x), lo, hi) =~= keys_in_range(s, lo, hi) + tail);
    } else {
        lemma_keys_in_range_push(s.drop_first(), x, lo, hi);
        assert(s.push(x).drop_first() =~= s.drop_first().push(x));
        assert(s.push(x)[0] == s[0]);
        assert(keys_in_range(s.push(x), lo, hi) =~= keys_in_range(s, lo, hi) + tail);
    }
}

impl BTreeStorage<String> {
    /// The store's mathematical value: its entries in order.
    pub closed spec fn entries(&self) -> Seq<(u64, Seq<char>)> {
        Seq::new(self.data@.len(), |i: int| (self.data@[i].0, self.data@[i].1@))
    }

    /// Well-formedness: entries are strictly ordered by token, and every
    /// token is the hash of its value.
    pub open spec fn wf(&self) -> bool {
        &&& tokens_sorted(self.entries())
        &&& entries_hash_linked(self.entries())
    }

    /// Creates an empty store.
    pub fn new() -> (s: Self)
        ensures
            s.wf(),
            s.entries() =~= Seq::<(u64, Seq<char>)>::empty(),
    {
        Self { data: Vec::new() }
    }

    /// The index of the first entry whose token is at least `t`.
    fn lower_bound(&self, t: u64) -> (i: usize)
        ensures
            i == first_at_least(self.entries(), t),
    {
        let n = self.data.len();
        let mut i: usize = 0;
        while i < n && self.data[i].0 < t
            invariant
                n == self.entries().len(),
                i <= n,
                forall|j: int| 0 <= j < i ==> self.entries()[j].0 < t,
            decreases n - i,
        {
            i = i + 1;
        }
        proof {
            lemma_first_at_least(self.entries(), t);
            let f = first_at_least(self.entries(), t);
            if i < f {
                assert(self.entries()[i as int].0 < t);
            }
            if f < i {
                assert(self.entries()[f].0 < t);
            }
        }
        i
    }

    /// The index of the first entry whose token equals `t`.
    fn find_token(&self, t: u64) -> (i: usize)
        ensures
            i == first_token_eq(self.entries(), t),
    {
        let n = self.data.len();
        let mut i: usize = 0;
        while i < n && self.data[i].0 != t
            invariant
                n == self.entries().len(),
                i <= n,
                forall|j: int| 0 <= j < i ==> self.entries()[j].0 != t,
            decreases n - i,
        {
            i = i + 1;
        }
        proof {
            lemma_first_token_eq(self.entries(), t);
            let f = first_token_eq(self.entries(), t);
            if i < f {
                assert(self.entries()[i as int].0 == t);
            }
            if f < i {
                assert(self.entries()[f].0 != t);
            }
        }
        i
    }
}

impl Storage<String> for BTreeStorage<String> {
    fn add(&mut self, value: String) -> (r: bool)
        ensures
            final(self).entries() == sorted_insert(
                old(self).entries(),
                token_of(value@),
                value@,
            ),
            old(self).wf() ==> final(self).wf(),
            old(self).wf() ==> r == !has_token(old(self).entries(), token_of(value@)),
    {
        let hash = ConsistentHash::calculate_hash(value.as_str());
        let i = self.lower_bound(hash);
        let ghost olde = self.entries();
        proof {
            lemma_first_at_least(olde, hash);
            if old(self).wf() {
                lemma_sorted_insert(olde, hash, value@);
                lemma_first_token_eq_has(olde, hash);
            }
        }
        if i < self.data.len() && self.data[i].0 == hash {
            let ghost oldd = self.data@;
            self.data.remove(i);
            self.data.insert(i, (hash, value));
            proof {
                assert(self.data@ =~= oldd.update(i as int, (hash, oldd[i as int].1)).update(
                    i as int,
                    (hash, self.data@[i as int].1),
                ).update(i as int, self.data@[i as int]));
                assert(self.entries() =~= sorted_insert(olde, hash, value@));
                if old(self).wf() {
                    assert(has_token(olde, hash));
                }
            }
            false
        } else {
            self.data.insert(i, (hash, value));
            proof {
                assert(self.entries() =~= sorted_insert(olde, hash, value@));
                if old(self).wf() {
                    assert(!has_token(olde, hash)) by {
                        if has_token(olde, hash) {
                            lemma_first_token_eq_has(olde, hash);
                            let j = first_token_eq(olde, hash);
                            lemma_first_token_eq(olde, hash);
                            assert(olde[j].0 == hash);
                            if j < i as int {
                                assert(olde[j].0 < hash);
                            } else {
                                assert(i < olde.len() ==> olde[i as int].0 >= hash);
                                if j > i as int {
                                    assert(olde[i as int].0 < olde[j].0);
                                }
                            }
                        }
                    }
                }
            }
            true
        }
    }

    fn check(&self, value: &String) -> (r: bool)
        ensures
            r == has_token(self.entries(), token_of(value@)),
    {
        let hash = ConsistentHash::calculate_hash(value.as_str());
        let i = self.find_token(hash);
        proof {
            lemma_first_token_eq_has(self.entries(), hash);
        }
        i < self.data.len()
    }

    fn get_count(&self) -> (r: usize)
        ensures
            r == self.entries().len(),
    {
        self.data.len()
    }

    fn remove(&mut self, value: u64) -> (r: bool)
        ensures
            final(self).entries() == remove_first_token(old(self).entries(), value),
            r == has_token(old(self).entries(), value),
            old(self).wf() ==> final(self).wf(),
    {
        let i = self.find_token(value);
        proof {
            lemma_first_token_eq(self.entries(), value);
            lemma_first_token_eq_has(self.entries(), value);
        }
        if i < self.data.len() {
            let ghost olde = self.entries();
            self.data.remove(i);
            proof {
                assert(self.entries() =~= olde.remove(i as int));
                if old(self).wf() {
                    lemma_remove_first_token(olde, value);
                }
            }
            true
        } else {
            proof {
                assert(self.entries() =~= remove_first_token(self.entries(), value));
            }
            false
        }
    }

    fn get_value_by_key(&self, key: u64) -> (r: Option<&String>)
        ensures
            match r {
                Some(v) => first_token_eq(self.entries(), key) < self.entries().len()
                    && v@ == self.entries()[first_token_eq(self.entries(), key)].1,
                None => !has_token(self.entries(), key),
            },
    {
        let i = self.find_token(key);
        proof {
            lemma_first_token_eq(self.entries(), key);
            lemma_first_token_eq_has(self.entries(), key);
        }
        if i < self.data.len() {
            Some(&self.data[i].1)
        } else {
            None
        }
    }

    fn get_values(&self, start: u64, end: u64) -> (r: Vec<&String>)
        ensures
            r@.len() == values_in_range(self.entries(), start, end).len(),
            forall|i: int|
                0 <= i < r@.len() ==> r@[i]@ == values_in_range(self.entries(), start, end)[i],
    {
        let n = self.data.len();
        let mut out: Vec<&String> = Vec::new();
        let mut i: usize = 0;
        while i < n
            invariant
                n == self.entries().len(),
                i <= n,
                out@.len() == values_in_range(self.entries().take(i as int), start, end).len(),
                forall|j: int|
                    0 <= j < out@.len() ==> out@[j]@ == values_in_range(
                        self.entries().take(i as int),
                        start,
                        end,
                    )[j],
            decreases n - i,
        {
            proof {
                lemma_values_in_range_push(
                    self.entries().take(i as int),
                    self.entries()[i as int],
                    start,
                    end,
                );
                assert(self.entries().take(i + 1) =~= self.entries().take(i as int).push(
                    self.entries()[i as int],
                ));
            }
            let p = &self.data[i];
            if start <= p.0 && p.0 <= end {
                out.push(&p.1);
            }
            i = i + 1;
        }
        proof {
            assert(self.entries().take(n as int) =~= self.entries());
        }
        out
    }

    fn get_keys_in_range(&self, start: u64, end: u64) -> (r: Vec<u64>)
        ensures
            r@ == keys_in_range(self.entries(), start, end),
    {
        let n = self.data.len();
        let mut out: Vec<u64> = Vec::new();
        let mut i: usize = 0;
        while i < n
            invariant
                n == self.entries().len(),
                i <= n,
                out@ == keys_in_range(self.entries().take(i as int), start, end),
            decreases n - i,
        {
            proof {
                lemma_keys_in_range_push(
                    self.entries().take(i as int),
                    self.entries()[i as int],
                    start,
                    end,
                );
                assert(self.entries().take(i + 1) =~= self.entries().take(i as int).push(
                    self.entries()[i as int],
                ));
            }
            let p = &self.data[i];
            if start <= p.0 && p.0 <= end {
                out.push(p.0);
                proof {
                    assert(out@ =~= keys_in_range(self.entries().take(i + 1), start, end));
                }
            } else {
                proof {
                    assert(out@ =~= keys_in_range(self.entries().take(i + 1), start, end));
                }
            }
            i = i + 1;
        }
        proof {
            assert(self.entries().take(n as int) =~= self.entries());
        }
        out
    }
}

/// True of a token lying in any of the given inclusive ranges.
pub open spec fn token_in_ranges(t: u64, ranges: Seq<crate::consistent_hash_ring::Range>) -> bool {
    exists|i: int|
        0 <= i < ranges.len() && token_in_range(t, ranges[i].start, ranges[i].end)
}

/// The values collected by a batch get: for each range in order, the
/// values whose tokens it covers, in token order.
pub open spec fn spec_get_batch(
    s: Seq<(u64, Seq<char>)>,
    ranges: Seq<crate::consistent_hash_ring::Range>,
) -> Seq<Seq<char>>
    decreases ranges.len(),
{
    if ranges.len() == 0 {
        Seq::empty()
    } else {
        values_in_range(s, ranges[0].start, ranges[0].end) + spec_get_batch(
            s,
            ranges.drop_first(),
        )
    }
}

/// The store after a batch add: each value inserted in order.
pub open spec fn spec_add_batch(s: Seq<(u64, Seq<char>)>, items: Seq<Seq<char>>) -> Seq<
    (u64, Seq<char>),
>
    decreases items.len(),
{
    if items.len() == 0 {
        s
    } else {
        spec_add_batch(sorted_insert(s, token_of(items[0]), items[0]), items.drop_first())
    }
}

/// The keys collected by a batch drop: for each range in order, the
/// tokens it covers.
pub open spec fn spec_collect_keys(
    s: Seq<(u64, Seq<char>)>,
    ranges: Seq<crate::consistent_hash_ring::Range>,
) -> Seq<u64>
    decreases ranges.len(),
{
    if ranges.len() == 0 {
        Seq::empty()
    } else {
        keys_in_range(s, ranges[0].start, ranges[0].end) + spec_collect_keys(
            s,
            ranges.drop_first(),
        )
    }
}

/// The store after removing, one by one, the entries keyed by each token
/// of `ks`.
pub open spec fn remove_tokens(s: Seq<(u64, Seq<char>)>, ks: Seq<u64>) -> Seq<(u64, Seq<char>)>
    decreases ks.len(),
{
    if ks.len() == 0 {
        s
    } else {
        remove_tokens(remove_first_token(s, ks[0]), ks.drop_first())
    }
}

/// The entries whose tokens are not in `ks`, in order.
pub open spec fn entries_excluding(s: Seq<(u64, Seq<char>)>, ks: Seq<u64>) -> Seq<
    (u64, Seq<char>),
>
    decreases s.len(),
{
    if s.len() == 0 {
        Seq::empty()
    } else {
        (if ks.contains(s[0].0) {
            Seq::empty()
        } else {
            seq![s[0]]
        }) + entries_excluding(s.drop_first(), ks)
    }
}

/// The store after a batch drop: the entries whose tokens no range
/// covers, in order.
pub open spec fn spec_drop_batch(
    s: Seq<(u64, Seq<char>)>,
    ranges: Seq<crate::consistent_hash_ring::Range>,
) -> Seq<(u64, Seq<char>)>
    decreases s.len(),
{
    if s.len() == 0 {
        Seq::empty()
    } else {
        (if token_in_ranges(s[0].0, ranges) {
            Seq::empty()
        } else {
            seq![s[0]]
        }) + spec_drop_batch(s.drop_first(), ranges)
    }
}

pub proof fn lemma_remove_tokens_push(s: Seq<(u64, Seq<char>)>, ks: Seq<u64>, k: u64)
    ensures
        remove_tokens(s, ks.push(k)) == remove_first_token(remove_tokens(s, ks), k),
    decreases ks.len(),
{
    if ks.len() == 0 {
        assert(ks.push(k)[0] == k);
        assert(ks.push(k).drop_first() =~= Seq::<u64>::empty());
        assert(remove_tokens(remove_first_token(s, k), Seq::<u64>::empty())
            == remove_first_token(s, k));
        assert(remove_tokens(s, Seq::<u64>::empty()) == s);
    } else {
        lemma_remove_tokens_push(remove_first_token(s, ks[0]), ks.drop_first(), k);
        assert(ks.push(k)[0] == ks[0]);
        assert(ks.push(k).drop_first() =~= ks.drop_first().push(k));
    }
}

proof fn lemma_entries_excluding_none(s: Seq<(u64, Seq<char>)>, ks: Seq<u64>)
    requires
        forall|i: int| 0 <= i < s.len() ==> !ks.contains(#[trigger] s[i].0),
    ensures
        entries_excluding(s, ks) == s,
    decreases s.len(),
{
    if s.len() > 0 {
        assert(!ks.contains(s[0].0));
        assert(forall|i: int|
            0 <= i < s.drop_first().len() ==> !ks.contains(#[trigger] s.drop_first()[i].0));
        lemma_entries_excluding_none(s.drop_first(), ks);
        assert(entries_excluding(s, ks) =~= s);
    }
}

proof fn lemma_remove_first_is_excluding(s: Seq<(u64, Seq<char>)>, k: u64)
    requires
        tokens_sorted(s),
    ensures
        remove_first_token(s, k) == entries_excluding(s, seq![k]),
    decreases s.len(),
{
    crate::consistent_hash::lemma_first_token_eq(s, k);
    if s.len() == 0 {
        assert(first_token_eq(s, k) == 0);
        assert(remove_first_token(s, k) == s);
        assert(entries_excluding(s, seq![k]) =~= Seq::<(u64, Seq<char>)>::empty());
        assert(s =~= Seq::<(u64, Seq<char>)>::empty());
    } else if s[0].0 == k {
        assert(seq![k][0] == s[0].0);
        assert(seq![k].contains(s[0].0));
        assert forall|i: int| 0 <= i < s.drop_first().len() implies !seq![k].contains(
            #[trigger] s.drop_first()[i].0,
        ) by {
            assert(s.drop_first()[i] == s[i + 1]);
            assert(s[0].0 < s[i + 1].0);
        }
        lemma_entries_excluding_none(s.drop_first(), seq![k]);
        assert(first_token_eq(s, k) == 0);
        assert(remove_first_token(s, k) =~= s.drop_first());
        assert(entries_excluding(s, seq![k]) =~= s.drop_first());
    } else {
        assert(!seq![k].contains(s[0].0)) by {
            if seq![k].contains(s[0].0) {
                let i = choose|i: int| 0 <= i < 1 && seq![k][i] == s[0].0;
                assert(seq![k][0] == k);
            }
        }
        lemma_remove_first_is_excluding(s.drop_first(), k);
        let f = first_token_eq(s, k);
        if f < s.len() {
            assert(remove_first_token(s, k) == s.remove(f));
            crate::consistent_hash::lemma_first_token_eq(s.drop_first(), k);
            assert(first_token_eq(s.drop_first(), k) == f - 1);
            assert(remove_first_token(s.drop_first(), k) == s.drop_first().remove(f - 1));
            assert(s.remove(f) =~= seq![s[0]] + s.drop_first().remove(f - 1));
            assert(remove_first_token(s, k) =~= entries_excluding(s, seq![k]));
        } else {
            crate::consistent_hash::lemma_first_token_eq(s.drop_first(), k);
            crate::consistent_hash::lemma_first_token_eq_has(s, k);
            crate::consistent_hash::lemma_first_token_eq_has(s.drop_first(), k);
            assert(!has_token(s.drop_first(), k)) by {
                if has_token(s.drop_first(), k) {
                    let i = choose|i: int|
                        0 <= i < s.drop_first().len() && s.drop_first()[i].0 == k;
                    assert(s[i + 1].0 == k);
                }
            }
            assert(remove_first_token(s.drop_first(), k) == s.drop_first());
            assert(remove_first_token(s, k) =~= entries_excluding(s, seq![k]));
        }
    }
}

proof fn lemma_excluding_sorted(s: Seq<(u64, Seq<char>)>, ks: Seq<u64>)
    requires
        tokens_sorted(s),
    ensures
        tokens_sorted(entries_excluding(s, ks)),
        forall|j: int|
            0 <= j < entries_excluding(s, ks).len() ==> s.contains(
                #[trigger] entries_excluding(s, ks)[j],
            ),
    decreases s.len(),
{
    if s.len() > 0 {
        lemma_excluding_sorted(s.drop_first(), ks);
        let out = entries_excluding(s, ks);
        let rest = entries_excluding(s.drop_first(), ks);
        assert forall|j: int| 0 <= j < out.len() implies s.contains(#[trigger] out[j]) by {
            if ks.contains(s[0].0) {
                assert(out[j] == rest[j]);
                assert(s.drop_first().contains(rest[j]));
                let i = choose|i: int|
                    0 <= i < s.drop_first().len() && s.drop_first()[i] == rest[j];
                assert(s[i + 1] == rest[j]);
            } else {
                if j == 0 {
                    assert(out[0] == s[0]);
                } else {
                    assert(out[j] == rest[j - 1]);
                    let i = choose|i: int|
                        0 <= i < s.drop_first().len() && s.drop_first()[i] == rest[j - 1];
                    assert(s[i + 1] == rest[j - 1]);
                }
            }
        }
        assert forall|a: int, b: int| 0 <= a < b < out.len() implies out[a].0 < out[b].0 by {
            if ks.contains(s[0].0) {
            } else {
                if a == 0 {
                    assert(out[b] == rest[b - 1]);
                    assert(s.drop_first().contains(rest[b - 1]));
                    let i = choose|i: int|
                        0 <= i < s.drop_first().len() && s.drop_first()[i] == rest[b - 1];
                    assert(s[i + 1] == rest[b - 1]);
                    assert(s[0].0 < s[i + 1].0);
                }
            }
        }
    }
}

proof fn lemma_excluding_compose(s: Seq<(u64, Seq<char>)>, a: Seq<u64>, b: Seq<u64>)
    ensures
        entries_excluding(entries_excluding(s, a), b) == entries_excluding(s, a + b),
    decreases s.len(),
{
    if s.len() == 0 {
        assert(entries_excluding(entries_excluding(s, a), b) =~= entries_excluding(s, a + b));
    } else {
        lemma_excluding_compose(s.drop_first(), a, b);
        assert((a + b).contains(s[0].0) <==> (a.contains(s[0].0) || b.contains(s[0].0))) by {
            if (a + b).contains(s[0].0) {
                let i = choose|i: int| 0 <= i < (a + b).len() && (a + b)[i] == s[0].0;
                if i < a.len() {
                    assert(a[i] == s[0].0);
                } else {
                    assert(b[i - a.len()] == s[0].0);
                }
            }
            if a.contains(s[0].0) {
                let i = choose|i: int| 0 <= i < a.len() && a[i] == s[0].0;
                assert((a + b)[i] == s[0].0);
            }
            if b.contains(s[0].0) {
                let i = choose|i: int| 0 <= i < b.len() && b[i] == s[0].0;
                assert((a + b)[a.len() + i] == s[0].0);
            }
        }
        if a.contains(s[0].0) {
            assert(entries_excluding(s, a) == entries_excluding(s.drop_first(), a));
            assert(entries_excluding(entries_excluding(s, a), b) =~= entries_excluding(
                s,
                a + b,
            ));
        } else if b.contains(s[0].0) {
            assert(entries_excluding(s, a) =~= seq![s[0]] + entries_excluding(
                s.drop_first(),
                a,
            ));
            assert(entries_excluding(s, a)[0] == s[0]);
            assert(entries_excluding(s, a).drop_first() =~= entries_excluding(
                s.drop_first(),
                a,
            ));
            assert(entries_excluding(entries_excluding(s, a), b) =~= entries_excluding(
                s,
                a + b,
            ));
        } else {
            assert(entries_excluding(s, a) =~= seq![s[0]] + entries_excluding(
                s.drop_first(),
                a,
            ));
            assert(entries_excluding(s, a)[0] == s[0]);
            assert(entries_excluding(s, a).drop_first() =~= entries_excluding(
                s.drop_first(),
                a,
            ));
            assert(entries_excluding(entries_excluding(s, a), b) =~= entries_excluding(
                s,
                a + b,
            ));
        }
    }
}

/// Removing one collected token after another from a sorted store is the
/// same as keeping the entries whose tokens are not collected.
pub proof fn lemma_remove_tokens_is_excluding(s: Seq<(u64, Seq<char>)>, ks: Seq<u64>)
    requires
        tokens_sorted(s),
    ensures
        remove_tokens(s, ks) == entries_excluding(s, ks),
        tokens_sorted(remove_tokens(s, ks)),
    decreases ks.len(),
{
    if ks.len() == 0 {
        assert forall|i: int| 0 <= i < s.len() implies !ks.contains(#[trigger] s[i].0) by {}
        lemma_entries_excluding_none(s, ks);
    } else {
        let k0 = ks[0];
        lemma_remove_first_is_excluding(s, k0);
        lemma_excluding_sorted(s, seq![k0]);
        lemma_remove_tokens_is_excluding(entries_excluding(s, seq![k0]), ks.drop_first());
        lemma_excluding_compose(s, seq![k0], ks.drop_first());
        assert(seq![k0] + ks.drop_first() =~= ks);
    }
}

/// A congruence: excluding a token set is excluding the ranges it stands
/// for, whenever membership agrees on every stored token.
pub proof fn lemma_excluding_is_drop_batch(
    s: Seq<(u64, Seq<char>)>,
    ks: Seq<u64>,
    ranges: Seq<crate::consistent_hash_ring::Range>,
)
    requires
        forall|i: int|
            0 <= i < s.len() ==> (ks.contains(#[trigger] s[i].0) <==> token_in_ranges(
                s[i].0,
                ranges,
            )),
    ensures
        entries_excluding(s, ks) == spec_drop_batch(s, ranges),
    decreases s.len(),
{
    if s.len() > 0 {
        assert(forall|i: int|
            0 <= i < s.drop_first().len() ==> (ks.contains(#[trigger] s.drop_first()[i].0)
                <==> token_in_ranges(s.drop_first()[i].0, ranges)));
        lemma_excluding_is_drop_batch(s.drop_first(), ks, ranges);
        assert(ks.contains(s[0].0) <==> token_in_ranges(s[0].0, ranges));
        assert(entries_excluding(s, ks) =~= spec_drop_batch(s, ranges));
    }
}

/// Membership in the keys of one range: exactly the stored tokens the
/// range covers.
pub proof fn lemma_keys_in_range_membership(s: Seq<(u64, Seq<char>)>, lo: u64, hi: u64, t: u64)
    ensures
        keys_in_range(s, lo, hi).contains(t) <==> (has_token(s, t) && token_in_range(
            t,
            lo,
            hi,
        )),
    decreases s.len(),
{
    if s.len() == 0 {
    } else {
        lemma_keys_in_range_membership(s.drop_first(), lo, hi, t);
        let ks = keys_in_range(s, lo, hi);
        let rest = keys_in_range(s.drop_first(), lo, hi);
        if token_in_range(s[0].0, lo, hi) {
            assert(ks =~= seq![s[0].0] + rest);
            if ks.contains(t) {
                let i = choose|i: int| 0 <= i < ks.len() && ks[i] == t;
                if i == 0 {
                    assert(s[0].0 == t);
                } else {
                    assert(rest[i - 1] == t);
                    assert(rest.contains(t));
                }
            }
            if has_token(s, t) && token_in_range(t, lo, hi) {
                let i = choose|i: int| 0 <= i < s.len() && s[i].0 == t;
                if i == 0 {
                    assert(ks[0] == t);
                } else {
                    assert(s.drop_first()[i - 1].0 == t);
                    assert(has_token(s.drop_first(), t));
                    let j = choose|j: int| 0 <= j < rest.len() && rest[j] == t;
                    assert(ks[j + 1] == t);
                }
            }
        } else {
            assert(ks =~= rest);
            if has_token(s, t) && token_in_range(t, lo, hi) {
                let i = choose|i: int| 0 <= i < s.len() && s[i].0 == t;
                assert(i != 0);
                assert(s.drop_first()[i - 1].0 == t);
                assert(has_token(s.drop_first(), t));
            }
            if rest.contains(t) {
                assert(has_token(s.drop_first(), t));
                let i = choose|i: int| 0 <= i < s.drop_first().len() && s.drop_first()[i].0 == t;
                assert(s[i + 1].0 == t);
            }
        }
    }
}

/// Membership in the collected keys of a batch drop: exactly the stored
/// tokens some range covers.
pub proof fn lemma_collect_keys_membership(
    s: Seq<(u64, Seq<char>)>,
    ranges: Seq<crate::consistent_hash_ring::Range>,
    t: u64,
)
    ensures
        spec_collect_keys(s, ranges).contains(t) <==> (has_token(s, t) && token_in_ranges(
            t,
            ranges,
        )),
    decreases ranges.len(),
{
    if ranges.len() == 0 {
    } else {
        lemma_collect_keys_membership(s, ranges.drop_first(), t);
        lemma_keys_in_range_membership(s, ranges[0].start, ranges[0].end, t);
        let whole = spec_collect_keys(s, ranges);
        let head = keys_in_range(s, ranges[0].start, ranges[0].end);
        let rest = spec_collect_keys(s, ranges.drop_first());
        assert(whole == head + rest);
        assert(whole.contains(t) <==> (head.contains(t) || rest.contains(t))) by {
            if whole.contains(t) {
                let i = choose|i: int| 0 <= i < whole.len() && whole[i] == t;
                if i < head.len() {
                    assert(head[i] == t);
                } else {
                    assert(rest[i - head.len()] == t);
                }
            }
            if head.contains(t) {
                let i = choose|i: int| 0 <= i < head.len() && head[i] == t;
                assert(whole[i] == t);
            }
            if rest.contains(t) {
                let i = choose|i: int| 0 <= i < rest.len() && rest[i] == t;
                assert(whole[head.len() + i] == t);
            }
        }
        assert(token_in_ranges(t, ranges) <==> (token_in_range(t, ranges[0].start, ranges[0].end)
            || token_in_ranges(t, ranges.drop_first()))) by {
            if token_in_ranges(t, ranges) {
                let i = choose|i: int|
                    0 <= i < ranges.len() && token_in_range(t, ranges[i].start, ranges[i].end);
                if i > 0 {
                    assert(token_in_range(
                        t,
                        ranges.drop_first()[i - 1].start,
                        ranges.drop_first()[i - 1].end,
                    ));
                }
            }
            if token_in_range(t, ranges[0].start, ranges[0].end) {
                assert(token_in_range(t, ranges[0].start, ranges[0].end));
            }
            if token_in_ranges(t, ranges.drop_first()) {
                let i = choose|i: int|
                    0 <= i < ranges.drop_first().len() && token_in_range(
                        t,
                        ranges.drop_first()[i].start,
                        ranges.drop_first()[i].end,
                    );
                assert(token_in_range(t, ranges[i + 1].start, ranges[i + 1].end));
            }
        }
    }
}

/// The whole story of a batch drop on a well-formed store: collecting the
/// keys of every range and removing them one by one keeps exactly the
/// entries outside every range.
pub proof fn lemma_drop_batch(
    s: Seq<(u64, Seq<char>)>,
    ranges: Seq<crate::consistent_hash_ring::Range>,
)
    requires
        tokens_sorted(s),
    ensures
        remove_tokens(s, spec_collect_keys(s, ranges)) == spec_drop_batch(s, ranges),
        tokens_sorted(spec_drop_batch(s, ranges)),
{
    let ks = spec_collect_keys(s, ranges);
    lemma_remove_tokens_is_excluding(s, ks);
    assert forall|i: int|
        0 <= i < s.len() implies (ks.contains(#[trigger] s[i].0) <==> token_in_ranges(
        s[i].0,
        ranges,
    )) by {
        lemma_collect_keys_membership(s, ranges, s[i].0);
        assert(has_token(s, s[i].0));
    }
    lemma_excluding_is_drop_batch(s, ks, ranges);
}

pub proof fn lemma_get_batch_push(
    s: Seq<(u64, Seq<char>)>,
    ranges: Seq<crate::consistent_hash_ring::Range>,
    r: crate::consistent_hash_ring::Range,
)
    ensures
        spec_get_batch(s, ranges.push(r)) == spec_get_batch(s, ranges) + values_in_range(
            s,
            r.start,
            r.end,
        ),
    decreases ranges.len(),
{
    if ranges.len() == 0 {
        assert(ranges.push(r)[0] == r);
        assert(ranges.push(r).drop_first() =~= Seq::<crate::consistent_hash_ring::Range>::empty());
        assert(spec_get_batch(s, Seq::<crate::consistent_hash_ring::Range>::empty())
            =~= Seq::<Seq<char>>::empty());
        assert(spec_get_batch(s, ranges.push(r)) =~= spec_get_batch(s, ranges)
            + values_in_range(s, r.start, r.end));
    } else {
        lemma_get_batch_push(s, ranges.drop_first(), r);
        assert(ranges.push(r).drop_first() =~= ranges.drop_first().push(r));
        assert(ranges.push(r)[0] == ranges[0]);
        assert(spec_get_batch(s, ranges.push(r)) =~= spec_get_batch(s, ranges)
            + values_in_range(s, r.start, r.end));
    }
}

pub proof fn lemma_collect_keys_push(
    s: Seq<(u64, Seq<char>)>,
    ranges: Seq<crate::consistent_hash_ring::Range>,
    r: crate::consistent_hash_ring::Range,
)
    ensures
        spec_collect_keys(s, ranges.push(r)) == spec_collect_keys(s, ranges) + keys_in_range(
            s,
            r.start,
            r.end,
        ),
    decreases ranges.len(),
{
    if ranges.len() == 0 {
        assert(ranges.push(r)[0] == r);
        assert(ranges.push(r).drop_first() =~= Seq::<crate::consistent_hash_ring::Range>::empty());
        assert(spec_collect_keys(s, Seq::<crate::consistent_hash_ring::Range>::empty())
            =~= Seq::<u64>::empty());
        assert(spec_collect_keys(s, ranges.push(r)) =~= spec_collect_keys(s, ranges)
            + keys_in_range(s, r.start, r.end));
    } else {
        lemma_collect_keys_push(s, ranges.drop_first(), r);
        assert(ranges.push(r).drop_first() =~= ranges.drop_first().push(r));
        assert(ranges.push(r)[0] == ranges[0]);
        assert(spec_collect_keys(s, ranges.push(r)) =~= spec_collect_keys(s, ranges)
            + keys_in_range(s, r.start, r.end));
    }
}

/// Membership after a batch drop: exactly the entries whose tokens no
/// range covers survive.
pub proof fn lemma_drop_batch_membership(
    s: Seq<(u64, Seq<char>)>,
    ranges: Seq<crate::consistent_hash_ring::Range>,
    e: (u64, Seq<char>),
)
    ensures
        spec_drop_batch(s, ranges).contains(e) <==> (s.contains(e) && !token_in_ranges(
            e.0,
            ranges,
        )),
    decreases s.len(),
{
    if s.len() == 0 {
    } else {
        lemma_drop_batch_membership(s.drop_first(), ranges, e);
        let out = spec_drop_batch(s, ranges);
        let rest = spec_drop_batch(s.drop_first(), ranges);
        if token_in_ranges(s[0].0, ranges) {
            assert(out =~= rest);
            if s.contains(e) && !token_in_ranges(e.0, ranges) {
                let i = choose|i: int| 0 <= i < s.len() && s[i] == e;
                assert(i != 0);
                assert(s.drop_first()[i - 1] == e);
                assert(s.drop_first().contains(e));
            }
            if rest.contains(e) {
                assert(s.drop_first().contains(e));
                let i = choose|i: int| 0 <= i < s.drop_first().len() && s.drop_first()[i] == e;
                assert(s[i + 1] == e);
            }
        } else {
            assert(out =~= seq![s[0]] + rest);
            if out.contains(e) {
                let i = choose|i: int| 0 <= i < out.len() && out[i] == e;
                if i == 0 {
                    assert(e == s[0]);
                } else {
                    assert(rest[i - 1] == e);
                    assert(rest.contains(e));
                    assert(s.drop_first().contains(e));
                    let k = choose|k: int|
                        0 <= k < s.drop_first().len() && s.drop_first()[k] == e;
                    assert(s[k + 1] == e);
                }
            }
            if s.contains(e) && !token_in_ranges(e.0, ranges) {
                let i = choose|i: int| 0 <= i < s.len() && s[i] == e;
                if i == 0 {
                    assert(out[0] == e);
                } else {
                    assert(s.drop_first()[i - 1] == e);
                    assert(s.drop_first().contains(e));
                    let k = choose|k: int| 0 <= k < rest.len() && rest[k] == e;
                    assert(out[k + 1] == e);
                }
            }
        }
    }
}

/// Token presence after a batch drop.
pub proof fn lemma_drop_batch_has_token(
    s: Seq<(u64, Seq<char>)>,
    ranges: Seq<crate::consistent_hash_ring::Range>,
    t: u64,
)
    ensures
        has_token(spec_drop_batch(s, ranges), t) <==> (has_token(s, t) && !token_in_ranges(
            t,
            ranges,
        )),
{
    let out = spec_drop_batch(s, ranges);
    if has_token(out, t) {
        let i = choose|i: int| 0 <= i < out.len() && out[i].0 == t;
        assert(out.contains(out[i]));
        lemma_drop_batch_membership(s, ranges, out[i]);
        let e = out[i];
        let k = choose|k: int| 0 <= k < s.len() && s[k] == e;
        assert(s[k].0 == t);
    }
    if has_token(s, t) && !token_in_ranges(t, ranges) {
        let i = choose|i: int| 0 <= i < s.len() && s[i].0 == t;
        assert(s.contains(s[i]));
        lemma_drop_batch_membership(s, ranges, s[i]);
        let k = choose|k: int| 0 <= k < out.len() && out[k] == s[i];
        assert(out[k].0 == t);
    }
}

} // verus!
