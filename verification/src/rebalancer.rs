//! The rebalancing protocol run when a new node joins.
//!
//! The tool adds the new node to its local ring, computes the ranges the
//! new node takes over, and then drives three strictly sequential phases:
//! `GetBatch` to every old member, one `AddBatch` to the new node, and
//! `DropBatch` to every old member. [`Rebalancer`] is that protocol as a
//! state machine from response to next request; the surrounding tool
//! performs the connections and hands each response back.

use vstd::prelude::*;
use crate::consistent_hash::{
    has_token, lemma_sorted_insert, lemma_sorted_unique_value, sorted_insert, token_of,
    tokens_sorted,
};
use crate::consistent_hash_ring::{
    spec_build_ring, spec_ranges_for, ConsistentHashRing, Node, Range, REPLICAS,
};
use crate::protocol::types::{ReqV, Request, RespV, Response};
use crate::storage::{
    entries_hash_linked, lemma_drop_batch_has_token, lemma_drop_batch_membership,
    spec_add_batch, spec_drop_batch, spec_get_batch, token_in_range, token_in_ranges,
    values_in_range,
};

verus! {

/// Adds the node to the tool's local ring and returns the ranges its
/// virtual tokens now own.
pub fn add_node(node: Node, ring: &mut ConsistentHashRing) -> (r: Vec<Range>)
    requires
        old(ring).wf(),
    ensures
        final(ring).wf(),
        final(ring).addresses() == old(ring).addresses().push(node.address@),
        final(ring).ring_view() == spec_build_ring(
            old(ring).ring_view(),
            node.address@,
            old(ring).addresses().len() as usize,
            REPLICAS as nat,
        ),
        r@ == spec_ranges_for(
            final(ring).ring_view(),
            final(ring).addresses(),
            node.address@,
            final(ring).ring_view().len() as int,
        ),
{
    let address = node.address.clone();
    ring.add_node(node);
    ring.get_ranges_for_node(address.as_str())
}

/// Where the rebalance stands: which of the three phases runs next.
#[derive(Debug, Clone, Copy, PartialEq, Eq, Structural)]
pub enum RebalancePhase {
    Gathering,
    Delivering,
    Dropping,
    Done,
}

fn copy_ranges(ranges: &Vec<Range>) -> (r: Vec<Range>)
    ensures
        r@ == ranges@,
{
    let mut out: Vec<Range> = Vec::new();
    let n = ranges.len();
    let mut i: usize = 0;
    while i < n
        invariant
            n == ranges@.len(),
            i <= n,
            out@ == ranges@.take(i as int),
        decreases n - i,
    {
        out.push(ranges[i]);
        proof {
            assert(ranges@.take(i + 1) =~= ranges@.take(i as int).push(ranges@[i as int]));
        }
        i = i + 1;
    }
    proof {
        assert(ranges@.take(n as int) =~= ranges@);
    }
    out
}

fn clone_strings(items: &Vec<String>) -> (r: Vec<String>)
    ensures
        r.deep_view() == items.deep_view(),
{
    let mut out: Vec<String> = Vec::new();
    let n = items.len();
    let mut i: usize = 0;
    while i < n
        invariant
            n == items@.len(),
            i <= n,
            out.deep_view() == items.deep_view().take(i as int),
        decreases n - i,
    {
        let ghost before = out.deep_view();
        out.push(items[i].clone());
        proof {
            assert(out.deep_view() =~= before.push(items.deep_view()[i as int]));
            assert(items.deep_view().take(i + 1) =~= items.deep_view().take(i as int).push(
                items.deep_view()[i as int],
            ));
        }
        i = i + 1;
    }
    proof {
        assert(items.deep_view().take(n as int) =~= items.deep_view());
    }
    out
}

/// One rebalance in flight: the three phases as a state machine. The
/// phases are strictly sequential — every member is read before the new
/// node receives anything, and nothing is dropped before the new node has
/// received the whole batch — so no value is ever absent from both its
/// old and its new owner.
pub struct Rebalancer {
    members: Vec<Node>,
    new_node: Node,
    ranges: Vec<Range>,
    collected: Vec<String>,
    phase: RebalancePhase,
    position: usize,
}

impl Rebalancer {
    /// The addresses of the members holding data before the join.
    pub closed spec fn members(&self) -> Seq<Seq<char>> {
        Seq::new(self.members@.len(), |i: int| self.members@[i].address@)
    }

    /// The joining node's address.
    pub closed spec fn new_address(&self) -> Seq<char> {
        self.new_node.address@
    }

    /// The ranges the new node takes over.
    pub closed spec fn ranges(&self) -> Seq<Range> {
        self.ranges@
    }

    /// The values gathered from the members so far.
    pub closed spec fn collected(&self) -> Seq<Seq<char>> {
        self.collected.deep_view()
    }

    /// The phase that runs next.
    pub closed spec fn phase(&self) -> RebalancePhase {
        self.phase
    }

    /// Which member the current phase addresses next.
    pub closed spec fn position(&self) -> int {
        self.position as int
    }

    /// Well-formedness: the per-member phases stand before a member.
    pub open spec fn wf(&self) -> bool {
        (self.phase() == RebalancePhase::Gathering || self.phase() == RebalancePhase::Dropping)
            ==> self.position() < self.members().len()
    }

    /// Starts a rebalance: the members will be read in order, then the
    /// new node filled, then the members pruned.
    pub fn new(members: Vec<Node>, new_node: Node, ranges: Vec<Range>) -> (r: Rebalancer)
        ensures
            r.wf(),
            r.members() == Seq::new(members@.len(), |i: int| members@[i].address@),
            r.new_address() == new_node.address@,
            r.ranges() == ranges@,
            r.collected() =~= Seq::<Seq<char>>::empty(),
            r.position() == 0,
            r.phase() == if members@.len() == 0 {
                RebalancePhase::Delivering
            } else {
                RebalancePhase::Gathering
            },
    {
        let phase = if members.len() == 0 {
            RebalancePhase::Delivering
        } else {
            RebalancePhase::Gathering
        };
        Rebalancer { members, new_node, ranges, collected: Vec::new(), phase, position: 0 }
    }

    /// The next request to send and the address to send it to; nothing
    /// once the rebalance is done.
    pub fn next_request(&self) -> (r: Option<(String, Request)>)
        requires
            self.wf(),
        ensures
            match self.phase() {
                RebalancePhase::Gathering => r matches Some((a, req)) && a@ == self.members()[
                    self.position()] && req@ == ReqV::GetBatch(self.ranges()),
                RebalancePhase::Delivering => r matches Some((a, req)) && a@
                    == self.new_address() && req@ == ReqV::AddBatch(self.collected()),
                RebalancePhase::Dropping => r matches Some((a, req)) && a@ == self.members()[
                    self.position()] && req@ == ReqV::DropBatch(self.ranges()),
                RebalancePhase::Done => r is None,
            },
    {
        match self.phase {
            RebalancePhase::Gathering => {
                let address = self.members[self.position].address.clone();
                Some((address, Request::GetBatch(copy_ranges(&self.ranges))))
            },
            RebalancePhase::Delivering => {
                let address = self.new_node.address.clone();
                Some((address, Request::AddBatch(clone_strings(&self.collected))))
            },
            RebalancePhase::Dropping => {
                let address = self.members[self.position].address.clone();
                Some((address, Request::DropBatch(copy_ranges(&self.ranges))))
            },
            RebalancePhase::Done => None,
        }
    }

    /// Feeds back the response to the last request, advancing the
    /// protocol: a gathered `Array` joins the collected values, any other
    /// gathered reply contributes nothing; the delivery and drop replies
    /// only move the phase on.
    pub fn on_response(&mut self, response: Response) -> (nothing: ())
        requires
            old(self).wf(),
        ensures
            final(self).wf(),
            final(self).members() == old(self).members(),
            final(self).new_address() == old(self).new_address(),
            final(self).ranges() == old(self).ranges(),
            match old(self).phase() {
                RebalancePhase::Gathering => {
                    &&& final(self).collected() == old(self).collected() + (
                    match response@ {
                        RespV::Array(vs) => vs,
                        _ => Seq::<Seq<char>>::empty(),
                    })
                    &&& if old(self).position() + 1 == old(self).members().len() {
                        final(self).phase() == RebalancePhase::Delivering
                    } else {
                        final(self).phase() == RebalancePhase::Gathering
                            && final(self).position() == old(self).position() + 1
                    }
                },
                RebalancePhase::Delivering => {
                    &&& final(self).collected() == old(self).collected()
                    &&& if old(self).members().len() == 0 {
                        final(self).phase() == RebalancePhase::Done
                    } else {
                        final(self).phase() == RebalancePhase::Dropping
                            && final(self).position() == 0
                    }
                },
                RebalancePhase::Dropping => {
                    &&& final(self).collected() == old(self).collected()
                    &&& if old(self).position() + 1 == old(self).members().len() {
                        final(self).phase() == RebalancePhase::Done
                    } else {
                        final(self).phase() == RebalancePhase::Dropping
                            && final(self).position() == old(self).position() + 1
                    }
                },
                RebalancePhase::Done => final(self).collected() == old(self).collected()
                    && final(self).phase() == RebalancePhase::Done,
            },
    {
        match self.phase {
            RebalancePhase::Gathering => {
                let ghost before = self.collected.deep_view();
                match response {
                    Response::Array(mut values) => {
                        let ghost incoming = values.deep_view();
                        self.collected.append(&mut values);
                        proof {
                            assert(self.collected.deep_view() =~= before + incoming);
                        }
                    },
                    _ => {
                        proof {
                            assert(self.collected.deep_view() =~= before
                                + Seq::<Seq<char>>::empty());
                        }
                    },
                }
                let n = self.members.len();
                if self.position + 1 == n {
                    self.phase = RebalancePhase::Delivering;
                } else {
                    self.position = self.position + 1;
                }
            },
            RebalancePhase::Delivering => {
                if self.members.len() == 0 {
                    self.phase = RebalancePhase::Done;
                } else {
                    self.phase = RebalancePhase::Dropping;
                    self.position = 0;
                }
            },
            RebalancePhase::Dropping => {
                let n = self.members.len();
                if self.position + 1 == n {
                    self.phase = RebalancePhase::Done;
                } else {
                    self.position = self.position + 1;
                }
            },
            RebalancePhase::Done => {},
        }
    }

    /// Hands the member list back with the new node appended, once the
    /// rebalance is done: the joined membership the tool keeps for the
    /// next round.
    pub fn into_members(self) -> (r: Vec<Node>)
        requires
            self.phase() == RebalancePhase::Done,
        ensures
            Seq::new(r@.len(), |i: int| r@[i].address@) == self.members().push(
                self.new_address(),
            ),
    {
        let mut members = self.members;
        let ghost before = Seq::new(members@.len(), |i: int| members@[i].address@);
        members.push(self.new_node);
        proof {
            assert(Seq::new(members@.len(), |i: int| members@[i].address@) =~= before.push(
                members@[members@.len() - 1].address@,
            ));
        }
        members
    }
}

/// Everything a batch get over all members returns: each member's
/// in-range values, member by member.
pub open spec fn spec_gathered(stores: Seq<Seq<(u64, Seq<char>)>>, ranges: Seq<Range>) -> Seq<
    Seq<char>,
>
    decreases stores.len(),
{
    if stores.len() == 0 {
        Seq::empty()
    } else {
        spec_get_batch(stores[0], ranges) + spec_gathered(stores.drop_first(), ranges)
    }
}

proof fn lemma_values_in_range_contains(s: Seq<(u64, Seq<char>)>, lo: u64, hi: u64, t: u64, v: Seq<char>)
    requires
        s.contains((t, v)),
        token_in_range(t, lo, hi),
    ensures
        values_in_range(s, lo, hi).contains(v),
    decreases s.len(),
{
    let i = choose|i: int| 0 <= i < s.len() && s[i] == (t, v);
    if i == 0 {
        assert(values_in_range(s, lo, hi)[0] == v);
    } else {
        assert(s.drop_first()[i - 1] == (t, v));
        lemma_values_in_range_contains(s.drop_first(), lo, hi, t, v);
        let rest = values_in_range(s.drop_first(), lo, hi);
        let k = choose|k: int| 0 <= k < rest.len() && rest[k] == v;
        if token_in_range(s[0].0, lo, hi) {
            assert(values_in_range(s, lo, hi)[k + 1] == v);
        } else {
            assert(values_in_range(s, lo, hi)[k] == v);
        }
    }
}

proof fn lemma_values_in_range_origin(s: Seq<(u64, Seq<char>)>, lo: u64, hi: u64, v: Seq<char>)
    requires
        values_in_range(s, lo, hi).contains(v),
    ensures
        exists|i: int|
            0 <= i < s.len() && #[trigger] s[i].1 == v && token_in_range(s[i].0, lo, hi),
    decreases s.len(),
{
    let out = values_in_range(s, lo, hi);
    let k = choose|k: int| 0 <= k < out.len() && out[k] == v;
    if token_in_range(s[0].0, lo, hi) && k == 0 {
        assert(s[0].1 == v && token_in_range(s[0].0, lo, hi));
    } else {
        let rest = values_in_range(s.drop_first(), lo, hi);
        if token_in_range(s[0].0, lo, hi) {
            assert(rest[k - 1] == v);
        } else {
            assert(rest[k] == v);
        }
        lemma_values_in_range_origin(s.drop_first(), lo, hi, v);
        let i = choose|i: int|
            0 <= i < s.drop_first().len() && #[trigger] s.drop_first()[i].1 == v
                && token_in_range(s.drop_first()[i].0, lo, hi);
        assert(s[i + 1].1 == v && token_in_range(s[i + 1].0, lo, hi));
    }
}

proof fn lemma_get_batch_contains(s: Seq<(u64, Seq<char>)>, ranges: Seq<Range>, t: u64, v: Seq<char>)
    requires
        s.contains((t, v)),
        token_in_ranges(t, ranges),
    ensures
        spec_get_batch(s, ranges).contains(v),
    decreases ranges.len(),
{
    let k = choose|k: int|
        0 <= k < ranges.len() && token_in_range(t, ranges[k].start, ranges[k].end);
    let head = values_in_range(s, ranges[0].start, ranges[0].end);
    let rest = spec_get_batch(s, ranges.drop_first());
    if k == 0 {
        lemma_values_in_range_contains(s, ranges[0].start, ranges[0].end, t, v);
        let i = choose|i: int| 0 <= i < head.len() && head[i] == v;
        assert(spec_get_batch(s, ranges)[i] == v);
    } else {
        assert(token_in_range(t, ranges.drop_first()[k - 1].start, ranges.drop_first()[k
            - 1].end));
        lemma_get_batch_contains(s, ranges.drop_first(), t, v);
        let i = choose|i: int| 0 <= i < rest.len() && rest[i] == v;
        assert(spec_get_batch(s, ranges)[head.len() + i] == v);
    }
}

proof fn lemma_get_batch_origin(s: Seq<(u64, Seq<char>)>, ranges: Seq<Range>, v: Seq<char>)
    requires
        spec_get_batch(s, ranges).contains(v),
    ensures
        exists|i: int|
            0 <= i < s.len() && #[trigger] s[i].1 == v && token_in_ranges(s[i].0, ranges),
    decreases ranges.len(),
{
    let out = spec_get_batch(s, ranges);
    let k = choose|k: int| 0 <= k < out.len() && out[k] == v;
    let head = values_in_range(s, ranges[0].start, ranges[0].end);
    let rest = spec_get_batch(s, ranges.drop_first());
    if k < head.len() {
        assert(head[k] == v);
        lemma_values_in_range_origin(s, ranges[0].start, ranges[0].end, v);
        let i = choose|i: int|
            0 <= i < s.len() && #[trigger] s[i].1 == v && token_in_range(
                s[i].0,
                ranges[0].start,
                ranges[0].end,
            );
        assert(token_in_ranges(s[i].0, ranges));
    } else {
        assert(rest[k - head.len()] == v);
        lemma_get_batch_origin(s, ranges.drop_first(), v);
        let i = choose|i: int|
            0 <= i < s.len() && #[trigger] s[i].1 == v && token_in_ranges(
                s[i].0,
                ranges.drop_first(),
            );
        let m = choose|m: int|
            0 <= m < ranges.drop_first().len() && token_in_range(
                s[i].0,
                ranges.drop_first()[m].start,
                ranges.drop_first()[m].end,
            );
        assert(token_in_range(s[i].0, ranges[m + 1].start, ranges[m + 1].end));
        assert(token_in_ranges(s[i].0, ranges));
    }
}

proof fn lemma_gathered_contains(
    stores: Seq<Seq<(u64, Seq<char>)>>,
    ranges: Seq<Range>,
    j: int,
    t: u64,
    v: Seq<char>,
)
    requires
        0 <= j < stores.len(),
        stores[j].contains((t, v)),
        token_in_ranges(t, ranges),
    ensures
        spec_gathered(stores, ranges).contains(v),
    decreases stores.len(),
{
    let head = spec_get_batch(stores[0], ranges);
    let rest = spec_gathered(stores.drop_first(), ranges);
    if j == 0 {
        lemma_get_batch_contains(stores[0], ranges, t, v);
        let i = choose|i: int| 0 <= i < head.len() && head[i] == v;
        assert(spec_gathered(stores, ranges)[i] == v);
    } else {
        assert(stores.drop_first()[j - 1].contains((t, v)));
        lemma_gathered_contains(stores.drop_first(), ranges, j - 1, t, v);
        let i = choose|i: int| 0 <= i < rest.len() && rest[i] == v;
        assert(spec_gathered(stores, ranges)[head.len() + i] == v);
    }
}

proof fn lemma_gathered_origin(stores: Seq<Seq<(u64, Seq<char>)>>, ranges: Seq<Range>, v: Seq<char>)
    requires
        spec_gathered(stores, ranges).contains(v),
    ensures
        exists|i: int, k: int|
            0 <= i < stores.len() && 0 <= k < stores[i].len() && (#[trigger] stores[i][k]).1
                == v && token_in_ranges(stores[i][k].0, ranges),
    decreases stores.len(),
{
    let out = spec_gathered(stores, ranges);
    let p = choose|p: int| 0 <= p < out.len() && out[p] == v;
    let head = spec_get_batch(stores[0], ranges);
    let rest = spec_gathered(stores.drop_first(), ranges);
    if p < head.len() {
        assert(head[p] == v);
        lemma_get_batch_origin(stores[0], ranges, v);
        let k = choose|k: int|
            0 <= k < stores[0].len() && #[trigger] stores[0][k].1 == v && token_in_ranges(
                stores[0][k].0,
                ranges,
            );
        assert(stores[0][k].1 == v && token_in_ranges(stores[0][k].0, ranges));
    } else {
        assert(rest[p - head.len()] == v);
        lemma_gathered_origin(stores.drop_first(), ranges, v);
        let (i, k): (int, int) = choose|i: int, k: int|
            0 <= i < stores.drop_first().len() && 0 <= k < stores.drop_first()[i].len() && (
            #[trigger] stores.drop_first()[i][k]).1 == v && token_in_ranges(
                stores.drop_first()[i][k].0,
                ranges,
            );
        assert(stores[i + 1][k].1 == v && token_in_ranges(stores[i + 1][k].0, ranges));
    }
}

proof fn lemma_add_batch_has_token(s: Seq<(u64, Seq<char>)>, items: Seq<Seq<char>>, x: u64)
    requires
        tokens_sorted(s),
    ensures
        tokens_sorted(spec_add_batch(s, items)),
        has_token(spec_add_batch(s, items), x) <==> (has_token(s, x) || exists|i: int|
            0 <= i < items.len() && token_of(#[trigger] items[i]) == x),
    decreases items.len(),
{
    if items.len() > 0 {
        lemma_sorted_insert(s, token_of(items[0]), items[0]);
        let s1 = sorted_insert(s, token_of(items[0]), items[0]);
        lemma_add_batch_has_token(s1, items.drop_first(), x);
        if has_token(spec_add_batch(s, items), x) {
            if !has_token(s, x) {
                if has_token(s1, x) {
                    assert(token_of(items[0]) == x);
                } else {
                    let i = choose|i: int|
                        0 <= i < items.drop_first().len() && token_of(
                            #[trigger] items.drop_first()[i],
                        ) == x;
                    assert(token_of(items[i + 1]) == x);
                }
            }
        }
        if has_token(s, x) {
            assert(has_token(s1, x));
        }
        if exists|i: int| 0 <= i < items.len() && token_of(#[trigger] items[i]) == x {
            let i = choose|i: int| 0 <= i < items.len() && token_of(#[trigger] items[i]) == x;
            if i == 0 {
                assert(has_token(s1, x));
            } else {
                assert(token_of(items.drop_first()[i - 1]) == x);
            }
        }
    }
}

proof fn lemma_add_batch_value(s: Seq<(u64, Seq<char>)>, items: Seq<Seq<char>>, t: u64, v: Seq<char>)
    requires
        tokens_sorted(s),
        token_of(v) == t,
        forall|i: int|
            0 <= i < items.len() && token_of(#[trigger] items[i]) == t ==> items[i] == v,
        s.contains((t, v)) || items.contains(v),
        has_token(s, t) ==> s.contains((t, v)),
    ensures
        spec_add_batch(s, items).contains((t, v)),
    decreases items.len(),
{
    if items.len() == 0 {
        if !s.contains((t, v)) {
            let i = choose|i: int| 0 <= i < items.len() && items[i] == v;
            assert(false);
        }
    } else {
        lemma_sorted_insert(s, token_of(items[0]), items[0]);
        let s1 = sorted_insert(s, token_of(items[0]), items[0]);
        if token_of(items[0]) == t {
            assert(items[0] == v);
            assert(s1.contains((t, v)));
            lemma_add_batch_value(s1, items.drop_first(), t, v);
        } else {
            assert(forall|i: int|
                0 <= i < items.drop_first().len() && token_of(
                    #[trigger] items.drop_first()[i],
                ) == t ==> items.drop_first()[i] == v);
            if s.contains((t, v)) {
                assert(s1.contains((t, v)));
            } else {
                let i = choose|i: int| 0 <= i < items.len() && items[i] == v;
                assert(i != 0);
                assert(items.drop_first()[i - 1] == v);
                assert(items.drop_first().contains(v));
            }
            assert(has_token(s1, t) ==> s1.contains((t, v))) by {
                if has_token(s1, t) {
                    let k = choose|k: int| 0 <= k < s1.len() && s1[k].0 == t;
                    assert(s1.contains(s1[k]));
                    assert(s1[k] == (token_of(items[0]), items[0]) || s.contains(s1[k]));
                    assert(s.contains(s1[k]));
                    assert(has_token(s, t));
                }
            }
            lemma_add_batch_value(s1, items.drop_first(), t, v);
        }
    }
}

/// Batch conservation. Take the members' stores before a rebalance, each
/// ordered by token, every token the hash of its value, and a value `v`
/// under token `t` held by exactly the member `j`. After the full
/// get/add/drop sequence, `v` sits on exactly one of its old owner and
/// the new node, and on the new node exactly when some migrated range
/// covers its token.
pub proof fn lemma_rebalance_conservation(
    stores: Seq<Seq<(u64, Seq<char>)>>,
    ranges: Seq<Range>,
    j: int,
    t: u64,
    v: Seq<char>,
)
    requires
        forall|i: int|
            0 <= i < stores.len() ==> tokens_sorted(#[trigger] stores[i]) && entries_hash_linked(
                stores[i],
            ),
        0 <= j < stores.len(),
        stores[j].contains((t, v)),
        forall|i: int| 0 <= i < stores.len() && i != j ==> !has_token(#[trigger] stores[i], t),
    ensures
        ({
            let new_store = spec_add_batch(Seq::empty(), spec_gathered(stores, ranges));
            let old_owner_after = spec_drop_batch(stores[j], ranges);
            &&& (token_in_ranges(t, ranges) ==> new_store.contains((t, v)) && !has_token(
                old_owner_after,
                t,
            ))
            &&& (!token_in_ranges(t, ranges) ==> old_owner_after.contains((t, v))
                && !has_token(new_store, t))
        }),
{
    let gathered = spec_gathered(stores, ranges);
    let new_store = spec_add_batch(Seq::empty(), gathered);
    let old_owner_after = spec_drop_batch(stores[j], ranges);
    assert(token_of(v) == t) by {
        let k = choose|k: int| 0 <= k < stores[j].len() && stores[j][k] == (t, v);
        assert(stores[j][k].0 == token_of(stores[j][k].1));
    }
    lemma_drop_batch_has_token(stores[j], ranges, t);
    lemma_drop_batch_membership(stores[j], ranges, (t, v));
    assert(tokens_sorted(Seq::<(u64, Seq<char>)>::empty()));
    if token_in_ranges(t, ranges) {
        lemma_gathered_contains(stores, ranges, j, t, v);
        assert forall|i: int|
            0 <= i < gathered.len() && token_of(#[trigger] gathered[i]) == t implies gathered[i]
            == v by {
            let w = gathered[i];
            assert(gathered.contains(w));
            lemma_gathered_origin(stores, ranges, w);
            let (a, k): (int, int) = choose|a: int, k: int|
                0 <= a < stores.len() && 0 <= k < stores[a].len() && (#[trigger] stores[a][k]).1
                    == w && token_in_ranges(stores[a][k].0, ranges);
            assert(stores[a][k].0 == token_of(stores[a][k].1));
            assert(stores[a][k].0 == t);
            assert(has_token(stores[a], t));
            assert(a == j);
            assert(stores[j].contains(stores[j][k]));
            lemma_sorted_unique_value(stores[j], (t, v), stores[j][k]);
        }
        lemma_add_batch_value(Seq::empty(), gathered, t, v);
    } else {
        lemma_add_batch_has_token(Seq::empty(), gathered, t);
        assert(!has_token(new_store, t)) by {
            if has_token(new_store, t) {
                let i = choose|i: int|
                    0 <= i < gathered.len() && token_of(#[trigger] gathered[i]) == t;
                let w = gathered[i];
                assert(gathered.contains(w));
                lemma_gathered_origin(stores, ranges, w);
                let (a, k): (int, int) = choose|a: int, k: int|
                    0 <= a < stores.len() && 0 <= k < stores[a].len() && (
                    #[trigger] stores[a][k]).1 == w && token_in_ranges(
                        stores[a][k].0,
                        ranges,
                    );
                assert(stores[a][k].0 == token_of(stores[a][k].1));
                assert(stores[a][k].0 == t);
            }
        }
    }
}

} // verus!
