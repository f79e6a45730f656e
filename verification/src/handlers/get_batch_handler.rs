//! Handler for the "get batch" command.

use vstd::prelude::*;
use vstd::string::StringExecFns;
use crate::consistent_hash_ring::Range;
use crate::error::AppResult;
use crate::handlers::{wrong_handler_message, Handler};
use crate::protocol::types::{ReqV, Request, RespV, Response};
use crate::storage::{
    lemma_get_batch_push, spec_get_batch, values_in_range, BTreeStorage, Storage,
};

verus! {

/// Collects, for each range in order, the stored values whose tokens the
/// range covers, as the `GetBatch` arm of
/// [`crate::handlers::spec_process`] describes.
pub(crate) fn do_get_batch(storage: &BTreeStorage<String>, ranges: &Vec<Range>) -> (resp:
    Response)
    ensures
        resp@ == RespV::Array(spec_get_batch(storage.entries(), ranges@)),
{
    let mut values: Vec<String> = Vec::new();
    let n = ranges.len();
    let mut i: usize = 0;
    while i < n
        invariant
            n == ranges@.len(),
            i <= n,
            values.deep_view() == spec_get_batch(storage.entries(), ranges@.take(i as int)),
        decreases n - i,
    {
        let r = ranges[i];
        let range_values = storage.get_values(r.start, r.end);
        let ghost vir = values_in_range(storage.entries(), r.start, r.end);
        let m = range_values.len();
        let mut j: usize = 0;
        while j < m
            invariant
                m == range_values@.len(),
                m == vir.len(),
                j <= m,
                forall|k: int| 0 <= k < m ==> range_values@[k]@ == vir[k],
                values.deep_view() == spec_get_batch(storage.entries(), ranges@.take(i as int))
                    + vir.take(j as int),
            decreases m - j,
        {
            let ghost before = values.deep_view();
            values.push(range_values[j].clone());
            proof {
                assert(values.deep_view() =~= before.push(vir[j as int]));
                assert(vir.take(j + 1) =~= vir.take(j as int).push(vir[j as int]));
                assert(values.deep_view() =~= spec_get_batch(
                    storage.entries(),
                    ranges@.take(i as int),
                ) + vir.take(j + 1));
            }
            j = j + 1;
        }
        proof {
            assert(vir.take(m as int) =~= vir);
            lemma_get_batch_push(storage.entries(), ranges@.take(i as int), ranges@[i as int]);
            assert(ranges@.take(i + 1) =~= ranges@.take(i as int).push(ranges@[i as int]));
        }
        i = i + 1;
    }
    proof {
        assert(ranges@.take(n as int) =~= ranges@);
    }
    Response::Array(values)
}

/// A handler that collects a batch of values by ranges of tokens.
pub struct GetBatchHandler<T> {
    storage: BTreeStorage<T>,
}

impl GetBatchHandler<String> {
    /// The handler's store contents.
    pub closed spec fn entries(&self) -> Seq<(u64, Seq<char>)> {
        self.storage.entries()
    }

    /// Well-formedness of the handler's store.
    pub closed spec fn wf(&self) -> bool {
        self.storage.wf()
    }

    /// Creates a new `GetBatchHandler` over the given storage.
    pub fn new(storage: BTreeStorage<String>) -> (h: Self)
        ensures
            h.entries() == storage.entries(),
            h.wf() == storage.wf(),
    {
        Self { storage }
    }
}

impl Handler for GetBatchHandler<String> {
    fn handle(&mut self, request: Request) -> (r: AppResult<Response>)
        ensures
            final(self).entries() == old(self).entries(),
            old(self).wf() ==> final(self).wf(),
            match request@ {
                ReqV::GetBatch(rs) => r matches Ok(resp) && resp@ == RespV::Array(
                    spec_get_batch(old(self).entries(), rs),
                ),
                _ => r matches Ok(resp) && resp@ == RespV::String(wrong_handler_message()),
            },
    {
        match request {
            Request::GetBatch(ranges) => Ok(do_get_batch(&self.storage, &ranges)),
            _ => Ok(Response::String(String::from_str("Wrong handler!"))),
        }
    }
}

} // verus!
