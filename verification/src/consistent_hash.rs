//! The 64-bit token hash used everywhere in the system: for value tokens,
//! for virtual-node tokens and for batch-removal keys.
//!
//! The hash must be deterministic across processes and platforms and
//! identical for client, server and rebalancer; its value on a given string
//! is named by the uninterpreted function [`token_of`].

use vstd::prelude::*;

verus! {

/// The token that the hash assigns to a string: the low 64 bits of
/// MurmurHash3 x64 128 with seed 0. The result depends on the characters
/// alone, so it is the same in every process and on every machine.
pub uninterp spec fn token_of(s: Seq<char>) -> u64;

/// Namespace for the token hash function.
pub struct ConsistentHash;

impl ConsistentHash {
    /// Relies on murmur3::murmur3_x64_128 (seed 0, low 64 bits kept):
    /// the result is a pure function of the input bytes, so two calls on
    /// equal strings agree; reading from an in-memory cursor cannot fail.
    #[verifier::external_body]
    pub fn calculate_hash(value: &str) -> (r: u64)
        ensures
            r == token_of(value@),
    {
        let hash = murmur3::murmur3_x64_128(&mut std::io::Cursor::new(value), 0).unwrap();
        hash as u64
    }
}

} // verus!

verus! {

/// True when a sequence of token-keyed entries is strictly ordered by
/// token: the shape shared by the ring and a node's local store.
pub open spec fn tokens_sorted<T>(s: Seq<(u64, T)>) -> bool {
    forall|i: int, j: int| 0 <= i < j < s.len() ==> s[i].0 < s[j].0
}

/// The first index whose token is at least `t`; the length when no token
/// is.
pub open spec fn first_at_least<T>(s: Seq<(u64, T)>, t: u64) -> int
    decreases s.len(),
{
    if s.len() == 0 {
        0
    } else if s[0].0 >= t {
        0
    } else {
        1 + first_at_least(s.drop_first(), t)
    }
}

pub proof fn lemma_first_at_least<T>(s: Seq<(u64, T)>, t: u64)
    ensures
        0 <= first_at_least(s, t) <= s.len(),
        forall|j: int| 0 <= j < first_at_least(s, t) ==> s[j].0 < t,
        first_at_least(s, t) < s.len() ==> s[first_at_least(s, t)].0 >= t,
    decreases s.len(),
{
    if s.len() > 0 && s[0].0 < t {
        lemma_first_at_least(s.drop_first(), t);
        assert forall|j: int| 0 <= j < first_at_least(s, t) implies s[j].0 < t by {
            if j > 0 {
                assert(s.drop_first()[j - 1].0 < t);
            }
        }
    }
}

/// The first index whose token equals `t`; the length when none does.
pub open spec fn first_token_eq<T>(s: Seq<(u64, T)>, t: u64) -> int
    decreases s.len(),
{
    if s.len() == 0 {
        0
    } else if s[0].0 == t {
        0
    } else {
        1 + first_token_eq(s.drop_first(), t)
    }
}

pub proof fn lemma_first_token_eq<T>(s: Seq<(u64, T)>, t: u64)
    ensures
        0 <= first_token_eq(s, t) <= s.len(),
        forall|j: int| 0 <= j < first_token_eq(s, t) ==> s[j].0 != t,
        first_token_eq(s, t) < s.len() ==> s[first_token_eq(s, t)].0 == t,
    decreases s.len(),
{
    if s.len() > 0 && s[0].0 != t {
        lemma_first_token_eq(s.drop_first(), t);
        assert forall|j: int| 0 <= j < first_token_eq(s, t) implies s[j].0 != t by {
            if j > 0 {
                assert(s.drop_first()[j - 1].0 != t);
            }
        }
    }
}

/// True when some entry carries the token `t`.
pub open spec fn has_token<T>(s: Seq<(u64, T)>, t: u64) -> bool {
    exists|i: int| 0 <= i < s.len() && s[i].0 == t
}

pub proof fn lemma_first_token_eq_has<T>(s: Seq<(u64, T)>, t: u64)
    ensures
        has_token(s, t) <==> first_token_eq(s, t) < s.len(),
{
    lemma_first_token_eq(s, t);
    if has_token(s, t) {
        let i = choose|i: int| 0 <= i < s.len() && s[i].0 == t;
        assert(first_token_eq(s, t) <= i);
    }
}

/// Insertion into a token-sorted entry sequence: an entry with the same
/// token is overwritten in place; otherwise the new entry lands where it
/// keeps the order.
pub open spec fn sorted_insert<T>(s: Seq<(u64, T)>, t: u64, v: T) -> Seq<(u64, T)> {
    let i = first_at_least(s, t);
    if i < s.len() && s[i].0 == t {
        s.update(i, (t, v))
    } else {
        s.subrange(0, i) + seq![(t, v)] + s.subrange(i, s.len() as int)
    }
}

/// Removal of the first entry carrying token `t`, if any.
pub open spec fn remove_first_token<T>(s: Seq<(u64, T)>, t: u64) -> Seq<(u64, T)> {
    let i = first_token_eq(s, t);
    if i < s.len() {
        s.remove(i)
    } else {
        s
    }
}

/// What insertion does to a sorted sequence: order is kept, the new token
/// is present with the new value, and every other entry is untouched.
pub proof fn lemma_sorted_insert<T>(s: Seq<(u64, T)>, t: u64, v: T)
    requires
        tokens_sorted(s),
    ensures
        tokens_sorted(sorted_insert(s, t, v)),
        has_token(sorted_insert(s, t, v), t),
        forall|x: u64| has_token(sorted_insert(s, t, v), x) <==> (x == t || has_token(s, x)),
        forall|j: int|
            0 <= j < sorted_insert(s, t, v).len() ==> (#[trigger] sorted_insert(s, t, v)[j]
                == (t, v) || s.contains(sorted_insert(s, t, v)[j])),
        has_token(s, t) ==> sorted_insert(s, t, v).len() == s.len(),
        !has_token(s, t) ==> sorted_insert(s, t, v).len() == s.len() + 1,
        sorted_insert(s, t, v).contains((t, v)),
        forall|e: (u64, T)| s.contains(e) && e.0 != t ==> sorted_insert(s, t, v).contains(e),
        forall|e: (u64, T)|
            sorted_insert(s, t, v).contains(e) ==> e == (t, v) || s.contains(e),
{
    lemma_first_at_least(s, t);
    let i = first_at_least(s, t);
    let out = sorted_insert(s, t, v);
    assert(out[i] == (t, v));
    assert(out.contains((t, v)));
    if i < s.len() && s[i].0 == t {
        assert forall|e: (u64, T)| s.contains(e) && e.0 != t implies out.contains(e) by {
            let j = choose|j: int| 0 <= j < s.len() && s[j] == e;
            assert(out[j] == e);
        }
        assert forall|e: (u64, T)| out.contains(e) implies e == (t, v) || s.contains(e) by {
            let j = choose|j: int| 0 <= j < out.len() && out[j] == e;
            if j != i {
                assert(s[j] == e);
            }
        }
        assert(has_token(s, t));
        assert forall|x: u64| has_token(out, x) implies (x == t || has_token(s, x)) by {
            let j = choose|j: int| 0 <= j < out.len() && out[j].0 == x;
            if j != i {
                assert(s[j].0 == x);
            }
        }
        assert forall|x: u64| (x == t || has_token(s, x)) implies has_token(out, x) by {
            if x == t {
                assert(out[i].0 == t);
            } else {
                let j = choose|j: int| 0 <= j < s.len() && s[j].0 == x;
                assert(out[if j == i { i } else { j }].0 == x || s[i].0 == x);
            }
        }
    } else {
        assert(!has_token(s, t)) by {
            if has_token(s, t) {
                let j = choose|j: int| 0 <= j < s.len() && s[j].0 == t;
                assert(j < i || (i < s.len() && s[i].0 >= t));
            }
        }
        assert forall|e: (u64, T)| s.contains(e) && e.0 != t implies out.contains(e) by {
            let j = choose|j: int| 0 <= j < s.len() && s[j] == e;
            if j < i {
                assert(out[j] == e);
            } else {
                assert(out[j + 1] == e);
            }
        }
        assert forall|e: (u64, T)| out.contains(e) implies e == (t, v) || s.contains(e) by {
            let j = choose|j: int| 0 <= j < out.len() && out[j] == e;
            if j < i {
                assert(s[j] == e);
            } else if j > i {
                assert(s[j - 1] == e);
            }
        }
        assert(out.len() == s.len() + 1);
        assert(out[i] == (t, v));
        assert(forall|j: int| 0 <= j < i ==> out[j] == s[j]);
        assert(forall|j: int| i < j < out.len() ==> out[j] == s[j - 1]);
        assert(tokens_sorted(out)) by {
            assert forall|a: int, b: int| 0 <= a < b < out.len() implies out[a].0 < out[b].0 by {
                if a == i {
                    assert(out[b] == s[b - 1] && s[b - 1].0 >= t && s[b - 1].0 != t);
                } else if b == i {
                    assert(out[a] == s[a] && s[a].0 < t);
                } else if a < i && b > i {
                    assert(out[a] == s[a] && out[b] == s[b - 1]);
                    if a < b - 1 {
                        assert(s[a].0 < s[b - 1].0);
                    }
                }
            }
        }
        assert forall|x: u64| has_token(out, x) implies (x == t || has_token(s, x)) by {
            let j = choose|j: int| 0 <= j < out.len() && out[j].0 == x;
            if j < i {
                assert(s[j].0 == x);
            } else if j > i {
                assert(s[j - 1].0 == x);
            }
        }
        assert forall|x: u64| (x == t || has_token(s, x)) implies has_token(out, x) by {
            if x == t {
                assert(out[i].0 == t);
            } else {
                let j = choose|j: int| 0 <= j < s.len() && s[j].0 == x;
                if j < i {
                    assert(out[j].0 == x);
                } else {
                    assert(out[j + 1].0 == x);
                }
            }
        }
    }
}

/// What removal does to a sorted sequence.
pub proof fn lemma_remove_first_token<T>(s: Seq<(u64, T)>, t: u64)
    requires
        tokens_sorted(s),
    ensures
        tokens_sorted(remove_first_token(s, t)),
        !has_token(remove_first_token(s, t), t),
        forall|x: u64|
            x != t ==> (has_token(remove_first_token(s, t), x) <==> has_token(s, x)),
        forall|j: int|
            0 <= j < remove_first_token(s, t).len() ==> s.contains(
                #[trigger] remove_first_token(s, t)[j],
            ),
        has_token(s, t) ==> remove_first_token(s, t).len() == s.len() - 1,
        !has_token(s, t) ==> remove_first_token(s, t) == s,
{
    lemma_first_token_eq(s, t);
    lemma_first_token_eq_has(s, t);
    let i = first_token_eq(s, t);
    let out = remove_first_token(s, t);
    if i < s.len() {
        assert(forall|j: int| 0 <= j < i ==> out[j] == s[j]);
        assert(forall|j: int| i <= j < out.len() ==> out[j] == s[j + 1]);
        assert forall|x: u64| x != t && has_token(s, x) implies has_token(out, x) by {
            let j = choose|j: int| 0 <= j < s.len() && s[j].0 == x;
            if j < i {
                assert(out[j].0 == x);
            } else {
                assert(out[j - 1].0 == x);
            }
        }
        assert forall|x: u64| has_token(out, x) implies (x != t && has_token(s, x)) by {
            let j = choose|j: int| 0 <= j < out.len() && out[j].0 == x;
            if j < i {
                assert(s[j].0 == x);
                assert(s[j].0 != t);
            } else {
                assert(s[j + 1].0 == x);
                assert(s[i].0 == t && s[i].0 < s[j + 1].0);
            }
        }
    }
}

/// In a token-sorted sequence, one token carries at most one entry.
pub proof fn lemma_sorted_unique_value<T>(s: Seq<(u64, T)>, e1: (u64, T), e2: (u64, T))
    requires
        tokens_sorted(s),
        s.contains(e1),
        s.contains(e2),
        e1.0 == e2.0,
    ensures
        e1 == e2,
{
    let i = choose|i: int| 0 <= i < s.len() && s[i] == e1;
    let j = choose|j: int| 0 <= j < s.len() && s[j] == e2;
    if i < j {
        assert(s[i].0 < s[j].0);
    }
    if j < i {
        assert(s[j].0 < s[i].0);
    }
}

} // verus!
