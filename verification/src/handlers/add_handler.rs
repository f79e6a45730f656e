//! Handler for the "add" command.

use vstd::prelude::*;
use vstd::string::StringExecFns;
use crate::consistent_hash::{sorted_insert, token_of};
use crate::error::AppResult;
use crate::handlers::{add_message, wrong_handler_message, Handler};
use crate::numerals::u64_to_string;
use crate::protocol::types::{ReqV, Request, RespV, Response};
use crate::storage::{BTreeStorage, Storage};

verus! {

/// Inserts one value and reports the new count, as the `Add` arm of
/// [`crate::handlers::spec_process`] describes.
pub(crate) fn do_add(storage: &mut BTreeStorage<String>, value: String) -> (resp: Response)
    ensures
        final(storage).entries() == sorted_insert(
            old(storage).entries(),
            token_of(value@),
            value@,
        ),
        resp@ == RespV::String(add_message(value@, final(storage).entries().len())),
        old(storage).wf() ==> final(storage).wf(),
{
    storage.add(value.clone());
    let count = storage.get_count();
    let mut message = String::from_str("Added ");
    message.append(value.as_str());
    message.append(", there are currently ");
    let count_str = u64_to_string(count as u64);
    message.append(count_str.as_str());
    Response::String(message)
}

/// A handler that adds a value to the storage it guards.
pub struct AddHandler<T> {
    storage: BTreeStorage<T>,
}

impl AddHandler<String> {
    /// The handler's store contents.
    pub closed spec fn entries(&self) -> Seq<(u64, Seq<char>)> {
        self.storage.entries()
    }

    /// Well-formedness of the handler's store.
    pub closed spec fn wf(&self) -> bool {
        self.storage.wf()
    }

    /// Creates a new `AddHandler` over the given storage.
    pub fn new(storage: BTreeStorage<String>) -> (h: Self)
        ensures
            h.entries() == storage.entries(),
            h.wf() == storage.wf(),
    {
        Self { storage }
    }
}

impl Handler for AddHandler<String> {
    fn handle(&mut self, request: Request) -> (r: AppResult<Response>)
        ensures
            match request@ {
                ReqV::Add(v) => {
                    &&& final(self).entries() == sorted_insert(
                        old(self).entries(),
                        token_of(v),
                        v,
                    )
                    &&& (r matches Ok(resp) && resp@ == RespV::String(
                        add_message(v, final(self).entries().len()),
                    ))
                },
                _ => final(self).entries() == old(self).entries() && (r matches Ok(resp)
                    && resp@ == RespV::String(wrong_handler_message())),
            },
            old(self).wf() ==> final(self).wf(),
    {
        match request {
            Request::Add(value) => Ok(do_add(&mut self.storage, value)),
            _ => Ok(Response::String(String::from_str("Wrong handler!"))),
        }
    }
}

} // verus!
