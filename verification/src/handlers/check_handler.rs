//! Handler for the "check" command.

use vstd::prelude::*;
use vstd::string::StringExecFns;
use crate::consistent_hash::{has_token, token_of};
use crate::error::AppResult;
use crate::handlers::{check_miss_message, wrong_handler_message, Handler};
use crate::protocol::types::{ReqV, Request, RespV, Response};
use crate::storage::{BTreeStorage, Storage};

verus! {

/// Looks one value up, as the `Check` arm of
/// [`crate::handlers::spec_process`] describes: `Bool(true)` when the
/// value's token is present, a message otherwise. The asymmetric reply
/// type is part of the contract.
pub(crate) fn do_check(storage: &BTreeStorage<String>, value: &String) -> (resp: Response)
    ensures
        resp@ == if has_token(storage.entries(), token_of(value@)) {
            RespV::Bool(true)
        } else {
            RespV::String(check_miss_message(value@))
        },
{
    if storage.check(value) {
        Response::Bool(true)
    } else {
        let mut message = String::from_str("Value: ");
        message.append(value.as_str());
        message.append(" doesn't exist");
        Response::String(message)
    }
}

/// A handler that checks whether a value exists in the storage it guards.
pub struct CheckHandler<T> {
    storage: BTreeStorage<T>,
}

impl CheckHandler<String> {
    /// The handler's store contents.
    pub closed spec fn entries(&self) -> Seq<(u64, Seq<char>)> {
        self.storage.entries()
    }

    /// Well-formedness of the handler's store.
    pub closed spec fn wf(&self) -> bool {
        self.storage.wf()
    }

    /// Creates a new `CheckHandler` over the given storage.
    pub fn new(storage: BTreeStorage<String>) -> (h: Self)
        ensures
            h.entries() == storage.entries(),
            h.wf() == storage.wf(),
    {
        Self { storage }
    }
}

impl Handler for CheckHandler<String> {
    fn handle(&mut self, request: Request) -> (r: AppResult<Response>)
        ensures
            final(self).entries() == old(self).entries(),
            old(self).wf() ==> final(self).wf(),
            match request@ {
                ReqV::Check(v) => r matches Ok(resp) && resp@ == (
                if has_token(old(self).entries(), token_of(v)) {
                    RespV::Bool(true)
                } else {
                    RespV::String(check_miss_message(v))
                }),
                _ => r matches Ok(resp) && resp@ == RespV::String(wrong_handler_message()),
            },
    {
        match request {
            Request::Check(value) => Ok(do_check(&self.storage, &value)),
            _ => Ok(Response::String(String::from_str("Wrong handler!"))),
        }
    }
}

} // verus!
