//! Handler for the "drop batch" command.

use vstd::prelude::*;
use vstd::string::StringExecFns;
use crate::consistent_hash::{lemma_first_token_eq, lemma_first_token_eq_has};
use crate::consistent_hash_ring::Range;
use crate::error::AppResult;
use crate::handlers::{drop_batch_message, wrong_handler_message, Handler};
use crate::numerals::u64_to_string;
use crate::protocol::types::{ReqV, Request, RespV, Response};
use crate::storage::{
    lemma_collect_keys_push, lemma_drop_batch, lemma_remove_tokens_push, remove_tokens,
    spec_collect_keys, spec_drop_batch, BTreeStorage, Storage,
};

verus! {

/// Collects the keys each range covers, removes them one by one, and
/// reports how many entries actually left the store. On a well-formed
/// store this keeps exactly the entries outside every range, as the
/// `DropBatch` arm of [`crate::handlers::spec_process`] describes.
pub(crate) fn do_drop_batch(storage: &mut BTreeStorage<String>, ranges: &Vec<Range>) -> (resp:
    Response)
    ensures
        final(storage).entries() == remove_tokens(
            old(storage).entries(),
            spec_collect_keys(old(storage).entries(), ranges@),
        ),
        resp@ == RespV::String(
            drop_batch_message(
                (old(storage).entries().len() - final(storage).entries().len()) as nat,
            ),
        ),
        old(storage).wf() ==> final(storage).wf() && final(storage).entries()
            == spec_drop_batch(old(storage).entries(), ranges@),
{
    let n = ranges.len();
    let mut keys: Vec<u64> = Vec::new();
    let mut i: usize = 0;
    while i < n
        invariant
            n == ranges@.len(),
            i <= n,
            keys@ == spec_collect_keys(storage.entries(), ranges@.take(i as int)),
        decreases n - i,
    {
        let r = ranges[i];
        let mut range_keys = storage.get_keys_in_range(r.start, r.end);
        proof {
            lemma_collect_keys_push(storage.entries(), ranges@.take(i as int), ranges@[i as int]);
            assert(ranges@.take(i + 1) =~= ranges@.take(i as int).push(ranges@[i as int]));
        }
        keys.append(&mut range_keys);
        i = i + 1;
    }
    proof {
        assert(ranges@.take(n as int) =~= ranges@);
    }
    let ghost orig = storage.entries();
    let m = keys.len();
    let mut count: usize = 0;
    let mut j: usize = 0;
    while j < m
        invariant
            m == keys@.len(),
            j <= m,
            count <= j,
            storage.entries() == remove_tokens(orig, keys@.take(j as int)),
            storage.entries().len() <= orig.len(),
            count == orig.len() - storage.entries().len(),
            old(storage).wf() ==> storage.wf(),
            orig == old(storage).entries(),
            keys@ == spec_collect_keys(orig, ranges@),
        decreases m - j,
    {
        proof {
            lemma_remove_tokens_push(orig, keys@.take(j as int), keys@[j as int]);
            assert(keys@.take(j + 1) =~= keys@.take(j as int).push(keys@[j as int]));
            lemma_first_token_eq(storage.entries(), keys@[j as int]);
            lemma_first_token_eq_has(storage.entries(), keys@[j as int]);
        }
        let removed = storage.remove(keys[j]);
        if removed {
            count = count + 1;
        }
        j = j + 1;
    }
    proof {
        assert(keys@.take(m as int) =~= keys@);
        if old(storage).wf() {
            lemma_drop_batch(orig, ranges@);
        }
    }
    let mut message = String::from_str("Removed: ");
    let count_str = u64_to_string(count as u64);
    message.append(count_str.as_str());
    Response::String(message)
}

/// A handler that drops the values keyed by the provided ranges of
/// tokens.
pub struct DropBatch<T> {
    storage: BTreeStorage<T>,
}

impl DropBatch<String> {
    /// The handler's store contents.
    pub closed spec fn entries(&self) -> Seq<(u64, Seq<char>)> {
        self.storage.entries()
    }

    /// Well-formedness of the handler's store.
    pub closed spec fn wf(&self) -> bool {
        self.storage.wf()
    }

    /// Creates a new `DropBatch` handler over the given storage.
    pub fn new(storage: BTreeStorage<String>) -> (h: Self)
        ensures
            h.entries() == storage.entries(),
            h.wf() == storage.wf(),
    {
        Self { storage }
    }
}

impl Handler for DropBatch<String> {
    fn handle(&mut self, request: Request) -> (r: AppResult<Response>)
        ensures
            old(self).wf() ==> final(self).wf(),
            match request@ {
                ReqV::DropBatch(rs) => old(self).wf() ==> final(self).entries()
                    == spec_drop_batch(old(self).entries(), rs) && (r matches Ok(resp)
                    && resp@ == RespV::String(
                    drop_batch_message(
                        (old(self).entries().len() - final(self).entries().len()) as nat,
                    ),
                )),
                _ => final(self).entries() == old(self).entries() && (r matches Ok(resp)
                    && resp@ == RespV::String(wrong_handler_message())),
            },
    {
        match request {
            Request::DropBatch(ranges) => Ok(do_drop_batch(&mut self.storage, &ranges)),
            _ => Ok(Response::String(String::from_str("Wrong handler!"))),
        }
    }
}

} // verus!
