//! Handler for the "add batch" command.

use vstd::prelude::*;
use vstd::string::StringExecFns;
use crate::error::AppResult;
use crate::handlers::{add_batch_message, wrong_handler_message, Handler};
use crate::numerals::u64_to_string;
use crate::protocol::types::{ReqV, Request, RespV, Response};
use crate::storage::{spec_add_batch, BTreeStorage, Storage};

verus! {

/// Inserts each value of a batch in order and reports how many were
/// handed in, as the `AddBatch` arm of [`crate::handlers::spec_process`]
/// describes.
pub(crate) fn do_add_batch(storage: &mut BTreeStorage<String>, items: Vec<String>) -> (resp:
    Response)
    ensures
        final(storage).entries() == spec_add_batch(old(storage).entries(), items.deep_view()),
        resp@ == RespV::String(add_batch_message(items.deep_view().len())),
        old(storage).wf() ==> final(storage).wf(),
{
    let n = items.len();
    proof {
        assert(items.deep_view().skip(0) =~= items.deep_view());
    }
    let mut i: usize = 0;
    while i < n
        invariant
            n == items@.len(),
            i <= n,
            spec_add_batch(old(storage).entries(), items.deep_view()) == spec_add_batch(
                storage.entries(),
                items.deep_view().skip(i as int),
            ),
            old(storage).wf() ==> storage.wf(),
        decreases n - i,
    {
        proof {
            assert(items.deep_view().skip(i as int)[0] == items.deep_view()[i as int]);
            assert(items.deep_view().skip(i as int).drop_first() =~= items.deep_view().skip(
                i + 1,
            ));
        }
        storage.add(items[i].clone());
        i = i + 1;
    }
    proof {
        assert(items.deep_view().skip(n as int).len() == 0);
    }
    let mut message = String::from_str("Inserted batch of ");
    let count_str = u64_to_string(n as u64);
    message.append(count_str.as_str());
    Response::String(message)
}

/// A handler that adds a batch of values to the storage it guards.
pub struct AddBatchHandler<T> {
    storage: BTreeStorage<T>,
}

impl AddBatchHandler<String> {
    /// The handler's store contents.
    pub closed spec fn entries(&self) -> Seq<(u64, Seq<char>)> {
        self.storage.entries()
    }

    /// Well-formedness of the handler's store.
    pub closed spec fn wf(&self) -> bool {
        self.storage.wf()
    }

    /// Creates a new `AddBatchHandler` over the given storage.
    pub fn new(storage: BTreeStorage<String>) -> (h: Self)
        ensures
            h.entries() == storage.entries(),
            h.wf() == storage.wf(),
    {
        Self { storage }
    }
}

impl Handler for AddBatchHandler<String> {
    fn handle(&mut self, request: Request) -> (r: AppResult<Response>)
        ensures
            old(self).wf() ==> final(self).wf(),
            match request@ {
                ReqV::AddBatch(items) => final(self).entries() == spec_add_batch(
                    old(self).entries(),
                    items,
                ) && (r matches Ok(resp) && resp@ == RespV::String(
                    add_batch_message(items.len()),
                )),
                _ => final(self).entries() == old(self).entries() && (r matches Ok(resp)
                    && resp@ == RespV::String(wrong_handler_message())),
            },
    {
        match request {
            Request::AddBatch(items) => Ok(do_add_batch(&mut self.storage, items)),
            _ => Ok(Response::String(String::from_str("Wrong handler!"))),
        }
    }
}

} // verus!
