//! The client's view of the cluster: a member list and a borrowed
//! consistent-hash ring over it, enough to route one value to its owner.

use vstd::prelude::*;
use crate::consistent_hash::{
    first_at_least, lemma_first_at_least, lemma_sorted_insert, token_of, tokens_sorted,
    ConsistentHash,
};
use crate::consistent_hash_ring::{
    insert_ring_entry, lemma_build_ring_len, lemma_ring_of_sorted, make_replica_key,
    owner_index, spec_build_ring, spec_ring_of, REPLICAS,
};

verus! {

/// The cluster membership a client is configured with.
#[derive(Debug)]
pub struct Cluster {
    pub nodes: Vec<String>,
}

impl Cluster {
    /// The member addresses, in order.
    pub open spec fn addresses(&self) -> Seq<Seq<char>> {
        Seq::new(self.nodes@.len(), |i: int| self.nodes@[i]@)
    }
}

/// A consistent-hash ring borrowing the cluster it routes for.
pub struct ConsistentHashRing<'a> {
    cluster: &'a Cluster,
    ring: Vec<(u64, usize)>,
}

impl<'a> ConsistentHashRing<'a> {
    /// The ring's entries: token and member index, ordered by token.
    pub closed spec fn ring_view(&self) -> Seq<(u64, usize)> {
        self.ring@
    }

    /// The member addresses the ring routes over.
    pub closed spec fn addresses(&self) -> Seq<Seq<char>> {
        self.cluster.addresses()
    }

    /// Well-formedness: ordered tokens, every entry pointing at a member.
    pub open spec fn wf(&self) -> bool {
        &&& tokens_sorted(self.ring_view())
        &&& forall|i: int|
            0 <= i < self.ring_view().len() ==> #[trigger] self.ring_view()[i].1
                < self.addresses().len()
    }

    /// Builds the ring over the cluster's members, `REPLICAS` virtual
    /// tokens each.
    pub fn new(cluster: &'a Cluster) -> (r: ConsistentHashRing<'a>)
        ensures
            r.wf(),
            r.addresses() == cluster.addresses(),
            r.ring_view() == spec_ring_of(cluster.addresses(), cluster.addresses().len()),
            cluster.addresses().len() > 0 ==> r.ring_view().len() > 0,
    {
        let ghost addrs = cluster.addresses();
        let mut ring: Vec<(u64, usize)> = Vec::new();
        let n = cluster.nodes.len();
        let mut index: usize = 0;
        while index < n
            invariant
                n == cluster.nodes@.len(),
                index <= n,
                addrs == cluster.addresses(),
                tokens_sorted(ring@),
                ring@ == spec_ring_of(addrs, index as nat),
                forall|j: int| 0 <= j < ring@.len() ==> #[trigger] ring@[j].1 < index,
            decreases n - index,
        {
            let address = &cluster.nodes[index];
            let mut i: usize = 0;
            while i < REPLICAS
                invariant
                    n == cluster.nodes@.len(),
                    index < n,
                    addrs == cluster.addresses(),
                    i <= REPLICAS,
                    address@ == addrs[index as int],
                    tokens_sorted(ring@),
                    ring@ == spec_build_ring(
                        spec_ring_of(addrs, index as nat),
                        addrs[index as int],
                        index,
                        i as nat,
                    ),
                    forall|j: int| 0 <= j < ring@.len() ==> #[trigger] ring@[j].1 <= index,
                decreases REPLICAS - i,
            {
                let key = make_replica_key(address.as_str(), i as u64);
                let token = ConsistentHash::calculate_hash(key.as_str());
                proof {
                    lemma_sorted_insert(ring@, token, index);
                }
                insert_ring_entry(&mut ring, token, index);
                i = i + 1;
            }
            index = index + 1;
        }
        proof {
            if cluster.addresses().len() > 0 {
                lemma_ring_of_sorted(addrs, (cluster.addresses().len() - 1) as nat);
                lemma_build_ring_len(
                    spec_ring_of(addrs, (cluster.addresses().len() - 1) as nat),
                    addrs[cluster.addresses().len() - 1],
                    (cluster.addresses().len() - 1) as usize,
                    REPLICAS as nat,
                );
            }
        }
        ConsistentHashRing { cluster, ring }
    }

    /// The address of the member owning `value`: the member at the first
    /// token at or past `hash(value)`, wrapping to the first token.
    pub fn get_node_address(&self, value: &str) -> (r: &str)
        requires
            self.wf(),
            self.ring_view().len() > 0,
        ensures
            r@ == self.addresses()[self.ring_view()[owner_index(
                self.ring_view(),
                token_of(value@),
            )].1 as int],
    {
        let hash = ConsistentHash::calculate_hash(value);
        let n = self.ring.len();
        let mut i: usize = 0;
        while i < n && self.ring[i].0 < hash
            invariant
                n == self.ring_view().len(),
                i <= n,
                forall|j: int| 0 <= j < i ==> self.ring_view()[j].0 < hash,
            decreases n - i,
        {
            i = i + 1;
        }
        proof {
            lemma_first_at_least(self.ring_view(), hash);
            let f = first_at_least(self.ring_view(), hash);
            if i < f {
                assert(self.ring_view()[i as int].0 < hash);
            }
            if f < i {
                assert(self.ring_view()[f].0 < hash);
            }
        }
        let index = if i < n {
            self.ring[i].1
        } else {
            self.ring[0].1
        };
        self.cluster.nodes[index].as_str()
    }
}

} // verus!
