//! The consistent-hash ring: an ordered mapping from 64-bit tokens to node
//! indexes, with `REPLICAS` virtual tokens per node.
//!
//! For each node, one token per virtual replica `i` is inserted, the token
//! being the hash of `"<address>:<i>"`; a later insertion overwrites an
//! earlier one on a token collision. A value belongs to the node at the
//! first token at or past the value's hash, wrapping to the smallest token.

use vstd::prelude::*;
use vstd::string::{StrSliceExecFns, StringExecFns};
use crate::consistent_hash::{
    first_at_least, lemma_first_at_least, lemma_sorted_insert, sorted_insert, token_of,
    tokens_sorted, ConsistentHash,
};
use crate::numerals::{spec_decimal, u64_to_string};

verus! {

/// The number of virtual replicas each node occupies on the ring.
pub const REPLICAS: usize = 10;

/// A storage node, identified by its network address.
#[derive(Debug, Clone)]
pub struct Node {
    pub address: String,
}

/// An arc of the ring, bounded by two tokens. The batch handlers treat the
/// bounds as inclusive on both ends.
#[derive(Debug, Clone, Copy, PartialEq, Eq, Structural)]
pub struct Range {
    pub start: u64,
    pub end: u64,
}

/// The key hashed for one virtual replica: `"<address>:<i>"`.
pub open spec fn replica_key(addr: Seq<char>, i: nat) -> Seq<char> {
    addr + ":"@ + spec_decimal(i)
}

/// The ring after inserting the first `count` replica tokens of one node,
/// in replica order.
pub open spec fn spec_build_ring(
    s: Seq<(u64, usize)>,
    addr: Seq<char>,
    node_index: usize,
    count: nat,
) -> Seq<(u64, usize)>
    decreases count,
{
    if count == 0 {
        s
    } else {
        sorted_insert(
            spec_build_ring(s, addr, node_index, (count - 1) as nat),
            token_of(replica_key(addr, (count - 1) as nat)),
            node_index,
        )
    }
}

/// The ring built from the first `n` of the given node addresses, each
/// with `REPLICAS` virtual tokens, in insertion order.
pub open spec fn spec_ring_of(addrs: Seq<Seq<char>>, n: nat) -> Seq<(u64, usize)>
    decreases n,
{
    if n == 0 {
        Seq::empty()
    } else {
        spec_build_ring(
            spec_ring_of(addrs, (n - 1) as nat),
            addrs[n - 1],
            (n - 1) as usize,
            REPLICAS as nat,
        )
    }
}

/// Building one node's replica tokens never shrinks the ring, and leaves
/// at least one entry once any replica is inserted.
pub proof fn lemma_build_ring_len(
    s: Seq<(u64, usize)>,
    addr: Seq<char>,
    node_index: usize,
    count: nat,
)
    requires
        tokens_sorted(s),
    ensures
        tokens_sorted(spec_build_ring(s, addr, node_index, count)),
        spec_build_ring(s, addr, node_index, count).len() >= s.len(),
        count > 0 ==> spec_build_ring(s, addr, node_index, count).len() >= 1,
    decreases count,
{
    if count > 0 {
        lemma_build_ring_len(s, addr, node_index, (count - 1) as nat);
        let prev = spec_build_ring(s, addr, node_index, (count - 1) as nat);
        lemma_sorted_insert(prev, token_of(replica_key(addr, (count - 1) as nat)), node_index);
    }
}

/// The ring built from any prefix of the members is ordered by token.
pub proof fn lemma_ring_of_sorted(addrs: Seq<Seq<char>>, n: nat)
    ensures
        tokens_sorted(spec_ring_of(addrs, n)),
    decreases n,
{
    if n > 0 {
        lemma_ring_of_sorted(addrs, (n - 1) as nat);
        lemma_build_ring_len(
            spec_ring_of(addrs, (n - 1) as nat),
            addrs[n - 1],
            (n - 1) as usize,
            REPLICAS as nat,
        );
    }
}

/// The ring index that owns token `h`: the first entry at or past `h`,
/// wrapping to the first entry.
pub open spec fn owner_index(ring: Seq<(u64, usize)>, h: u64) -> int {
    if first_at_least(ring, h) < ring.len() {
        first_at_least(ring, h)
    } else {
        0
    }
}

/// True when some ring token is at or past `h`.
pub open spec fn some_token_at_least(ring: Seq<(u64, usize)>, h: u64) -> bool {
    exists|k: int| 0 <= k < ring.len() && ring[k].0 >= h
}

/// Ring ownership is the smallest token at or past the hash, wrapping to
/// the smallest token when none is.
pub proof fn lemma_owner_smallest_token(ring: Seq<(u64, usize)>, h: u64)
    requires
        tokens_sorted(ring),
        ring.len() > 0,
    ensures
        0 <= owner_index(ring, h) < ring.len(),
        some_token_at_least(ring, h) ==> ring[owner_index(ring, h)].0 >= h && forall|k: int|
            0 <= k < ring.len() && (#[trigger] ring[k].0) >= h ==> ring[owner_index(ring, h)].0
                <= ring[k].0,
        !some_token_at_least(ring, h) ==> owner_index(ring, h) == 0 && forall|k: int|
            0 <= k < ring.len() ==> ring[owner_index(ring, h)].0 <= (#[trigger] ring[k].0),
{
    lemma_first_at_least(ring, h);
    let f = first_at_least(ring, h);
    if f < ring.len() {
        assert(ring[f].0 >= h);
        assert forall|k: int|
            0 <= k < ring.len() && ring[k].0 >= h implies ring[f].0 <= ring[k].0 by {
            if k < f {
                assert(ring[k].0 < h);
            }
        }
    } else {
        assert(!some_token_at_least(ring, h)) by {
            if some_token_at_least(ring, h) {
                let k = choose|k: int| 0 <= k < ring.len() && ring[k].0 >= h;
                assert(ring[k].0 < h);
            }
        }
        assert(forall|k: int| 0 < k < ring.len() ==> ring[0].0 < (#[trigger] ring[k].0));
    }
}

/// The ranges of the ring entries owned by `target`, scanning the first
/// `i` entries: each such entry ends a range that starts at the previous
/// entry's token, or at zero for the very first entry. The first arc is
/// not closed against the last token.
pub open spec fn spec_ranges_for(
    ring: Seq<(u64, usize)>,
    addrs: Seq<Seq<char>>,
    target: Seq<char>,
    i: int,
) -> Seq<Range>
    decreases i,
{
    if i <= 0 {
        Seq::empty()
    } else {
        spec_ranges_for(ring, addrs, target, i - 1) + (
        if 0 <= ring[i - 1].1 < addrs.len() && addrs[ring[i - 1].1 as int] == target {
            seq![
                Range {
                    start: if i - 1 == 0 {
                        0
                    } else {
                        ring[i - 2].0
                    },
                    end: ring[i - 1].0,
                },
            ]
        } else {
            Seq::empty()
        })
    }
}

/// Whether two string slices hold the same characters.
pub(crate) fn str_eq(a: &str, b: &str) -> (r: bool)
    ensures
        r == (a@ == b@),
{
    let n = a.unicode_len();
    let m = b.unicode_len();
    if n != m {
        assert(a@.len() != b@.len());
        return false;
    }
    let mut i: usize = 0;
    while i < n
        invariant
            n == a@.len(),
            n == b@.len(),
            i <= n,
            forall|j: int| 0 <= j < i ==> a@[j] == b@[j],
        decreases n - i,
    {
        if a.get_char(i) != b.get_char(i) {
            return false;
        }
        i = i + 1;
    }
    proof {
        assert(a@ =~= b@);
    }
    true
}

/// Builds the replica key `"<address>:<i>"`.
pub(crate) fn make_replica_key(address: &str, i: u64) -> (key: String)
    ensures
        key@ == replica_key(address@, i as nat),
{
    let mut key = String::from_str(address);
    key.append(":");
    let digits = u64_to_string(i);
    key.append(digits.as_str());
    key
}

/// Inserts one token into a sorted ring, overwriting on an equal token.
pub(crate) fn insert_ring_entry(ring: &mut Vec<(u64, usize)>, t: u64, node_index: usize) -> (nothing: ())
    requires
        tokens_sorted(old(ring)@),
    ensures
        final(ring)@ == sorted_insert(old(ring)@, t, node_index),
        tokens_sorted(final(ring)@),
{
    proof {
        lemma_first_at_least(old(ring)@, t);
        lemma_sorted_insert(old(ring)@, t, node_index);
    }
    let n = ring.len();
    let mut i: usize = 0;
    while i < n && ring[i].0 < t
        invariant
            n == ring@.len(),
            i <= n,
            ring@ == old(ring)@,
            forall|j: int| 0 <= j < i ==> ring@[j].0 < t,
        decreases n - i,
    {
        i = i + 1;
    }
    proof {
        let f = first_at_least(ring@, t);
        if i < f {
            assert(ring@[i as int].0 < t);
        }
        if f < i {
            assert(ring@[f].0 < t);
        }
    }
    if i < n && ring[i].0 == t {
        let ghost before = ring@;
        ring.remove(i);
        ring.insert(i, (t, node_index));
        proof {
            assert(ring@ =~= sorted_insert(before, t, node_index));
        }
    } else {
        let ghost before = ring@;
        ring.insert(i, (t, node_index));
        proof {
            assert(ring@ =~= sorted_insert(before, t, node_index));
        }
    }
}

/// The consistent-hash ring over an ordered list of nodes.
pub struct ConsistentHashRing {
    ring: Vec<(u64, usize)>,
    nodes: Vec<Node>,
}

impl ConsistentHashRing {
    /// The ring's entries: token and node index, ordered by token.
    pub closed spec fn ring_view(&self) -> Seq<(u64, usize)> {
        self.ring@
    }

    /// The member addresses, in insertion order.
    pub closed spec fn addresses(&self) -> Seq<Seq<char>> {
        Seq::new(self.nodes@.len(), |i: int| self.nodes@[i].address@)
    }

    /// Well-formedness: the ring is ordered by token and every entry
    /// points at a member.
    pub open spec fn wf(&self) -> bool {
        &&& tokens_sorted(self.ring_view())
        &&& forall|i: int|
            0 <= i < self.ring_view().len() ==> #[trigger] self.ring_view()[i].1
                < self.addresses().len()
    }

    /// Builds the ring: for each node in order, `REPLICAS` virtual
    /// tokens, later insertions overwriting earlier ones on collision.
    pub fn new(nodes: Vec<Node>) -> (r: ConsistentHashRing)
        ensures
            r.wf(),
            r.addresses() == Seq::new(nodes@.len(), |i: int| nodes@[i].address@),
            r.ring_view() == spec_ring_of(
                Seq::new(nodes@.len(), |i: int| nodes@[i].address@),
                nodes@.len(),
            ),
            nodes@.len() > 0 ==> r.ring_view().len() > 0,
    {
        let ghost addrs = Seq::new(nodes@.len(), |i: int| nodes@[i].address@);
        let mut ring: Vec<(u64, usize)> = Vec::new();
        let n = nodes.len();
        let mut index: usize = 0;
        while index < n
            invariant
                n == nodes@.len(),
                index <= n,
                addrs == Seq::new(nodes@.len(), |i: int| nodes@[i].address@),
                tokens_sorted(ring@),
                ring@ == spec_ring_of(addrs, index as nat),
                forall|j: int| 0 <= j < ring@.len() ==> #[trigger] ring@[j].1 < index,
            decreases n - index,
        {
            let address = &nodes[index].address;
            let mut i: usize = 0;
            while i < REPLICAS
                invariant
                    n == nodes@.len(),
                    index < n,
                    addrs == Seq::new(nodes@.len(), |i: int| nodes@[i].address@),
                    i <= REPLICAS,
                    address@ == addrs[index as int],
                    tokens_sorted(ring@),
                    ring@ == spec_build_ring(
                        spec_ring_of(addrs, index as nat),
                        addrs[index as int],
                        index,
                        i as nat,
                    ),
                    forall|j: int| 0 <= j < ring@.len() ==> #[trigger] ring@[j].1 <= index,
                decreases REPLICAS - i,
            {
                let key = make_replica_key(address.as_str(), i as u64);
                let token = ConsistentHash::calculate_hash(key.as_str());
                proof {
                    lemma_sorted_insert(ring@, token, index);
                }
                insert_ring_entry(&mut ring, token, index);
                i = i + 1;
            }
            index = index + 1;
        }
        let r = ConsistentHashRing { ring, nodes };
        proof {
            assert(r.addresses() =~= addrs);
            if r.nodes@.len() > 0 {
                lemma_ring_of_sorted(addrs, (r.nodes@.len() - 1) as nat);
                lemma_build_ring_len(
                    spec_ring_of(addrs, (r.nodes@.len() - 1) as nat),
                    addrs[r.nodes@.len() - 1],
                    (r.nodes@.len() - 1) as usize,
                    REPLICAS as nat,
                );
            }
        }
        r
    }

    /// The address of the node owning `value`: the node at the first
    /// token at or past `hash(value)`, wrapping to the first token. A
    /// lookup on an empty ring is a programmer error.
    pub fn get_node_address(&self, value: &str) -> (r: &str)
        requires
            self.wf(),
            self.ring_view().len() > 0,
        ensures
            r@ == self.addresses()[self.ring_view()[owner_index(
                self.ring_view(),
                token_of(value@),
            )].1 as int],
    {
        let hash = ConsistentHash::calculate_hash(value);
        let n = self.ring.len();
        let mut i: usize = 0;
        while i < n && self.ring[i].0 < hash
            invariant
                n == self.ring_view().len(),
                i <= n,
                forall|j: int| 0 <= j < i ==> self.ring_view()[j].0 < hash,
            decreases n - i,
        {
            i = i + 1;
        }
        proof {
            lemma_first_at_least(self.ring_view(), hash);
            let f = first_at_least(self.ring_view(), hash);
            if i < f {
                assert(self.ring_view()[i as int].0 < hash);
            }
            if f < i {
                assert(self.ring_view()[f].0 < hash);
            }
        }
        let index = if i < n {
            self.ring[i].1
        } else {
            self.ring[0].1
        };
        self.nodes[index].address.as_str()
    }

    /// The ranges that `look_up_node` owns: for each of its ring entries
    /// in token order, the arc from the previous entry's token (zero for
    /// the very first entry) to its own. This is the exact contract the
    /// rebalancer depends on; the first arc is not closed against the
    /// last token.
    pub fn get_ranges_for_node(&self, look_up_node: &str) -> (r: Vec<Range>)
        requires
            self.wf(),
        ensures
            r@ == spec_ranges_for(
                self.ring_view(),
                self.addresses(),
                look_up_node@,
                self.ring_view().len() as int,
            ),
    {
        let mut ranges: Vec<Range> = Vec::new();
        let n = self.ring.len();
        let mut i: usize = 0;
        while i < n
            invariant
                self.wf(),
                n == self.ring_view().len(),
                i <= n,
                ranges@ == spec_ranges_for(
                    self.ring_view(),
                    self.addresses(),
                    look_up_node@,
                    i as int,
                ),
            decreases n - i,
        {
            let (current_hash, current_node_index) = self.ring[i];
            if str_eq(self.nodes[current_node_index].address.as_str(), look_up_node) {
                let previous_hash = if i == 0 {
                    0
                } else {
                    self.ring[i - 1].0
                };
                ranges.push(Range { start: previous_hash, end: current_hash });
            }
            i = i + 1;
        }
        ranges
    }

    /// The 64-bit token of a string; every component uses this same hash.
    pub fn calculate_hash(value: &str) -> (r: u64)
        ensures
            r == token_of(value@),
    {
        ConsistentHash::calculate_hash(value)
    }

    /// Appends a node to the member list and inserts its `REPLICAS`
    /// tokens. No existing tokens are removed or re-seeded.
    pub fn add_node(&mut self, node: Node) -> (nothing: ())
        requires
            old(self).wf(),
        ensures
            final(self).wf(),
            final(self).addresses() == old(self).addresses().push(node.address@),
            final(self).ring_view() == spec_build_ring(
                old(self).ring_view(),
                node.address@,
                old(self).addresses().len() as usize,
                REPLICAS as nat,
            ),
            final(self).ring_view().len() > 0,
    {
        let ghost old_addrs = self.addresses();
        let node_index = self.nodes.len();
        self.nodes.push(node);
        proof {
            assert(self.addresses() =~= old_addrs.push(self.nodes@[node_index as int].address@));
        }
        let address = &self.nodes[node_index].address;
        let mut i: usize = 0;
        while i < REPLICAS
            invariant
                node_index < self.nodes@.len(),
                address@ == self.addresses()[node_index as int],
                self.addresses() == old(self).addresses().push(address@),
                i <= REPLICAS,
                tokens_sorted(self.ring_view()),
                self.ring_view() == spec_build_ring(
                    old(self).ring_view(),
                    address@,
                    node_index,
                    i as nat,
                ),
                forall|j: int|
                    0 <= j < self.ring_view().len() ==> #[trigger] self.ring_view()[j].1
                        <= node_index,
            decreases REPLICAS - i,
        {
            let key = make_replica_key(address.as_str(), i as u64);
            let token = ConsistentHash::calculate_hash(key.as_str());
            proof {
                lemma_sorted_insert(self.ring_view(), token, node_index);
            }
            insert_ring_entry(&mut self.ring, token, node_index);
            i = i + 1;
        }
        proof {
            lemma_build_ring_len(
                old(self).ring_view(),
                address@,
                node_index,
                REPLICAS as nat,
            );
        }
    }
}

} // verus!
