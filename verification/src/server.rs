//! The storage node's core: one store and the request dispatcher.
//!
//! The accept loop, the worker threads and the lock around the store are
//! I/O plumbing and live outside the library; every worker funnels each
//! received request through [`Server::process_message`], one at a time.

use vstd::prelude::*;
use vstd::string::{StrSliceExecFns, StringExecFns};
use crate::handlers::spec_process;
use crate::handlers::add_batch_handler::do_add_batch;
use crate::handlers::add_handler::do_add;
use crate::handlers::check_handler::do_check;
use crate::handlers::drop_batch_handler::do_drop_batch;
use crate::handlers::get_batch_handler::do_get_batch;
use crate::numerals::{is_i32_string, parse_i32, spec_parse_i32};
use crate::protocol::types::{Request, Response};
use crate::storage::BTreeStorage;

verus! {

/// The first index of `c` in `s`; the length when `c` does not occur.
pub open spec fn first_char_eq(s: Seq<char>, c: char) -> int
    decreases s.len(),
{
    if s.len() == 0 {
        0
    } else if s[0] == c {
        0
    } else {
        1 + first_char_eq(s.drop_first(), c)
    }
}

pub proof fn lemma_first_char_eq(s: Seq<char>, c: char)
    ensures
        0 <= first_char_eq(s, c) <= s.len(),
        forall|j: int| 0 <= j < first_char_eq(s, c) ==> s[j] != c,
        first_char_eq(s, c) < s.len() ==> s[first_char_eq(s, c)] == c,
    decreases s.len(),
{
    if s.len() > 0 && s[0] != c {
        lemma_first_char_eq(s.drop_first(), c);
        assert forall|j: int| 0 <= j < first_char_eq(s, c) implies s[j] != c by {
            if j > 0 {
                assert(s.drop_first()[j - 1] != c);
            }
        }
    }
}

/// The piece of a `port=<n>` argument between the first `'='` and the
/// next `'='` or the end: what the original argument parser handed to the
/// integer parser.
pub open spec fn port_piece(s: Seq<char>) -> Seq<char> {
    let i = first_char_eq(s, '=');
    let rest = s.skip(i + 1);
    rest.take(first_char_eq(rest, '='))
}

/// A well-formed port argument: it holds an `'='`, and what follows
/// parses as an `i32`. The original aborted on anything else.
pub open spec fn port_arg_valid(s: Seq<char>) -> bool {
    first_char_eq(s, '=') < s.len() && is_i32_string(port_piece(s))
}

/// True when `s` begins with `prefix`.
pub open spec fn spec_starts_with(s: Seq<char>, prefix: Seq<char>) -> bool {
    s.len() >= prefix.len() && s.take(prefix.len() as int) == prefix
}

/// The index of the first argument that begins with "port"; the length
/// when none does.
pub open spec fn first_port_arg(args: Seq<Seq<char>>) -> int
    decreases args.len(),
{
    if args.len() == 0 {
        0
    } else if spec_starts_with(args[0], "port"@) {
        0
    } else {
        1 + first_port_arg(args.drop_first())
    }
}

pub proof fn lemma_first_port_arg(args: Seq<Seq<char>>)
    ensures
        0 <= first_port_arg(args) <= args.len(),
        forall|j: int| 0 <= j < first_port_arg(args) ==> !spec_starts_with(args[j], "port"@),
        first_port_arg(args) < args.len() ==> spec_starts_with(
            args[first_port_arg(args)],
            "port"@,
        ),
    decreases args.len(),
{
    if args.len() > 0 && !spec_starts_with(args[0], "port"@) {
        lemma_first_port_arg(args.drop_first());
        assert forall|j: int| 0 <= j < first_port_arg(args) implies !spec_starts_with(
            args[j],
            "port"@,
        ) by {
            if j > 0 {
                assert(!spec_starts_with(args.drop_first()[j - 1], "port"@));
            }
        }
    }
}

/// Whether `s` begins with `prefix`, exactly as [`spec_starts_with`]
/// describes.
fn str_starts_with(s: &str, prefix: &str) -> (b: bool)
    ensures
        b == spec_starts_with(s@, prefix@),
{
    let n = s.unicode_len();
    let m = prefix.unicode_len();
    if n < m {
        return false;
    }
    let mut i: usize = 0;
    while i < m
        invariant
            m <= n,
            n == s@.len(),
            m == prefix@.len(),
            i <= m,
            forall|j: int| 0 <= j < i ==> s@[j] == prefix@[j],
        decreases m - i,
    {
        if s.get_char(i) != prefix.get_char(i) {
            assert(s@.take(m as int)[i as int] != prefix@[i as int]);
            return false;
        }
        i = i + 1;
    }
    proof {
        assert(s@.take(m as int) =~= prefix@);
    }
    true
}

/// The first index of `c` in `s`, exactly as [`first_char_eq`] describes.
fn find_char(s: &str, c: char) -> (i: usize)
    requires
        s@.len() <= usize::MAX,
    ensures
        i == first_char_eq(s@, c),
{
    let n = s.unicode_len();
    let mut i: usize = 0;
    while i < n && s.get_char(i) != c
        invariant
            n == s@.len(),
            i <= n,
            forall|j: int| 0 <= j < i ==> s@[j] != c,
        decreases n - i,
    {
        i = i + 1;
    }
    proof {
        lemma_first_char_eq(s@, c);
        let f = first_char_eq(s@, c);
        if i < f {
            assert(s@[i as int] == c);
        }
        if f < i {
            assert(s@[f] != c);
        }
    }
    i
}

/// The main server struct: it owns the node's local set and answers one
/// request at a time.
pub struct Server {
    storage: BTreeStorage<String>,
}

impl Server {
    /// The store's contents.
    pub closed spec fn entries(&self) -> Seq<(u64, Seq<char>)> {
        self.storage.entries()
    }

    /// Well-formedness of the store.
    pub closed spec fn wf(&self) -> bool {
        self.storage.wf()
    }

    /// Creates a new `Server` instance with empty storage.
    pub fn new() -> (s: Self)
        ensures
            s.wf(),
            s.entries() =~= Seq::<(u64, Seq<char>)>::empty(),
    {
        Self { storage: BTreeStorage::new() }
    }

    /// Answers a single request: dispatches on the variant, mutates or
    /// reads the local set, and returns exactly one response, as
    /// [`spec_process`] describes.
    pub fn process_message(&mut self, request: Request) -> (resp: Response)
        requires
            old(self).wf(),
        ensures
            final(self).wf(),
            final(self).entries() == spec_process(old(self).entries(), request@).0,
            resp@ == spec_process(old(self).entries(), request@).1,
    {
        match request {
            Request::Add(value) => do_add(&mut self.storage, value),
            Request::Check(value) => do_check(&self.storage, &value),
            Request::AddBatch(items) => do_add_batch(&mut self.storage, items),
            Request::GetBatch(ranges) => do_get_batch(&self.storage, &ranges),
            Request::DropBatch(ranges) => do_drop_batch(&mut self.storage, &ranges),
        }
    }

    /// Parses the port number out of one `port=<n>` argument. The
    /// original aborted on a malformed argument, so a well-formed one is
    /// required here; the process entry point checks the shape first.
    pub fn parse_port(arg: &String) -> (r: i32)
        requires
            port_arg_valid(arg@),
        ensures
            r == spec_parse_i32(port_piece(arg@)),
    {
        let n = arg.as_str().unicode_len();
        let eq = find_char(arg.as_str(), '=');
        proof {
            lemma_first_char_eq(arg@, '=');
        }
        let rest = arg.as_str().substring_char(eq + 1, n);
        proof {
            assert(rest@ =~= arg@.skip(eq + 1));
        }
        let second = find_char(rest, '=');
        proof {
            lemma_first_char_eq(rest@, '=');
        }
        let piece = rest.substring_char(0, second);
        proof {
            assert(piece@ =~= port_piece(arg@));
        }
        parse_i32(piece)
    }

    /// Retrieves the port number from the command line arguments,
    /// defaulting to 4000 when no argument begins with "port". The first
    /// such argument must be well-formed, as the original aborted
    /// otherwise.
    pub fn get_port(args: Vec<String>) -> (r: i32)
        requires
            first_port_arg(args.deep_view()) < args.deep_view().len() ==> port_arg_valid(
                args.deep_view()[first_port_arg(args.deep_view())],
            ),
        ensures
            r == if first_port_arg(args.deep_view()) < args.deep_view().len() {
                spec_parse_i32(port_piece(args.deep_view()[first_port_arg(args.deep_view())]))
            } else {
                4000
            },
    {
        let n = args.len();
        let mut i: usize = 0;
        while i < n && !str_starts_with(args[i].as_str(), "port")
            invariant
                n == args@.len(),
                i <= n,
                forall|j: int| 0 <= j < i ==> !spec_starts_with(args.deep_view()[j], "port"@),
                first_port_arg(args.deep_view()) < args.deep_view().len() ==> port_arg_valid(
                    args.deep_view()[first_port_arg(args.deep_view())],
                ),
            decreases n - i,
        {
            i = i + 1;
        }
        proof {
            lemma_first_port_arg(args.deep_view());
            let f = first_port_arg(args.deep_view());
            if i < f {
                assert(spec_starts_with(args.deep_view()[i as int], "port"@));
            }
            if f < i {
                assert(!spec_starts_with(args.deep_view()[f], "port"@));
            }
        }
        if i < n {
            Server::parse_port(&args[i])
        } else {
            4000
        }
    }
}

} // verus!
