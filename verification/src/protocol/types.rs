//! Wire-level value types: frame header fields and the request/response
//! bodies, together with their byte encodings and mathematical views.

use vstd::prelude::*;
use crate::consistent_hash_ring::Range;

verus! {

/// Frame header flags.
#[derive(Clone, Copy, Debug, PartialEq, Eq, Structural)]
pub enum Flags {
    Empty,
    Compression,
    Tracing,
    CustomPayload,
    Warning,
}

/// Frame direction: a request or a response.
#[derive(Clone, Copy, Debug, PartialEq, Eq, Structural)]
pub enum Version {
    Request,
    Response,
}

/// Frame opcode. The core only ever emits `Query`; the remaining kinds are
/// part of the header format and must round-trip through the codec.
#[derive(Clone, Copy, Debug, PartialEq, Eq, Structural)]
pub enum Opcode {
    Error,
    Startup,
    Ready,
    Authenticate,
    Options,
    Supported,
    Query,
    Result,
    Prepare,
    Execute,
    Register,
    Event,
    Batch,
    AuthChallenge,
    AuthResponse,
    AuthSuccess,
}

impl Version {
    /// The byte that carries this variant on the wire.
    pub open spec fn as_byte(self) -> u8 {
        match self {
            Version::Request => 0x04,
            Version::Response => 0x84,
        }
    }

    /// The variant carried by a byte, if any.
    pub open spec fn spec_from_byte(b: u8) -> Option<Version> {
        if b == 0x04 {
            Some(Version::Request)
        } else if b == 0x84 {
            Some(Version::Response)
        } else {
            None
        }
    }

    pub fn to_byte(self) -> (b: u8)
        ensures
            b == self.as_byte(),
    {
        match self {
            Version::Request => 0x04,
            Version::Response => 0x84,
        }
    }

    /// Decodes a version byte; an unknown byte is a fatal protocol error.
    pub fn from_byte(b: u8) -> (v: Option<Version>)
        ensures
            v == Version::spec_from_byte(b),
    {
        match b {
            0x04 => Some(Version::Request),
            0x84 => Some(Version::Response),
            _ => None,
        }
    }
}

impl Flags {
    /// The byte that carries this variant on the wire.
    pub open spec fn as_byte(self) -> u8 {
        match self {
            Flags::Empty => 0x00,
            Flags::Compression => 0x01,
            Flags::Tracing => 0x02,
            Flags::CustomPayload => 0x04,
            Flags::Warning => 0x08,
        }
    }

    /// The variant carried by a byte, if any.
    pub open spec fn spec_from_byte(b: u8) -> Option<Flags> {
        if b == 0x00 {
            Some(Flags::Empty)
        } else if b == 0x01 {
            Some(Flags::Compression)
        } else if b == 0x02 {
            Some(Flags::Tracing)
        } else if b == 0x04 {
            Some(Flags::CustomPayload)
        } else if b == 0x08 {
            Some(Flags::Warning)
        } else {
            None
        }
    }

    pub fn to_byte(self) -> (b: u8)
        ensures
            b == self.as_byte(),
    {
        match self {
            Flags::Empty => 0x00,
            Flags::Compression => 0x01,
            Flags::Tracing => 0x02,
            Flags::CustomPayload => 0x04,
            Flags::Warning => 0x08,
        }
    }

    /// Decodes a flags byte; an unknown byte is a fatal protocol error.
    pub fn from_byte(b: u8) -> (v: Option<Flags>)
        ensures
            v == Flags::spec_from_byte(b),
    {
        match b {
            0x00 => Some(Flags::Empty),
            0x01 => Some(Flags::Compression),
            0x02 => Some(Flags::Tracing),
            0x04 => Some(Flags::CustomPayload),
            0x08 => Some(Flags::Warning),
            _ => None,
        }
    }
}

impl Opcode {
    /// The byte that carries this variant on the wire.
    pub open spec fn as_byte(self) -> u8 {
        match self {
            Opcode::Error => 0x00,
            Opcode::Startup => 0x01,
            Opcode::Ready => 0x02,
            Opcode::Authenticate => 0x03,
            Opcode::Options => 0x05,
            Opcode::Supported => 0x06,
            Opcode::Query => 0x07,
            Opcode::Result => 0x08,
            Opcode::Prepare => 0x09,
            Opcode::Execute => 0x0a,
            Opcode::Register => 0x0b,
            Opcode::Event => 0x0c,
            Opcode::Batch => 0x0d,
            Opcode::AuthChallenge => 0x0e,
            Opcode::AuthResponse => 0x0f,
            Opcode::AuthSuccess => 0x10,
        }
    }

    /// The variant carried by a byte, if any.
    pub open spec fn spec_from_byte(b: u8) -> Option<Opcode> {
        if b == 0x00 {
            Some(Opcode::Error)
        } else if b == 0x01 {
            Some(Opcode::Startup)
        } else if b == 0x02 {
            Some(Opcode::Ready)
        } else if b == 0x03 {
            Some(Opcode::Authenticate)
        } else if b == 0x05 {
            Some(Opcode::Options)
        } else if b == 0x06 {
            Some(Opcode::Supported)
        } else if b == 0x07 {
            Some(Opcode::Query)
        } else if b == 0x08 {
            Some(Opcode::Result)
        } else if b == 0x09 {
            Some(Opcode::Prepare)
        } else if b == 0x0a {
            Some(Opcode::Execute)
        } else if b == 0x0b {
            Some(Opcode::Register)
        } else if b == 0x0c {
            Some(Opcode::Event)
        } else if b == 0x0d {
            Some(Opcode::Batch)
        } else if b == 0x0e {
            Some(Opcode::AuthChallenge)
        } else if b == 0x0f {
            Some(Opcode::AuthResponse)
        } else if b == 0x10 {
            Some(Opcode::AuthSuccess)
        } else {
            None
        }
    }

    pub fn to_byte(self) -> (b: u8)
        ensures
            b == self.as_byte(),
    {
        match self {
            Opcode::Error => 0x00,
            Opcode::Startup => 0x01,
            Opcode::Ready => 0x02,
            Opcode::Authenticate => 0x03,
            Opcode::Options => 0x05,
            Opcode::Supported => 0x06,
            Opcode::Query => 0x07,
            Opcode::Result => 0x08,
            Opcode::Prepare => 0x09,
            Opcode::Execute => 0x0a,
            Opcode::Register => 0x0b,
            Opcode::Event => 0x0c,
            Opcode::Batch => 0x0d,
            Opcode::AuthChallenge => 0x0e,
            Opcode::AuthResponse => 0x0f,
            Opcode::AuthSuccess => 0x10,
        }
    }

    /// Decodes an opcode byte; an unknown byte is a fatal protocol error.
    pub fn from_byte(b: u8) -> (v: Option<Opcode>)
        ensures
            v == Opcode::spec_from_byte(b),
    {
        match b {
            0x00 => Some(Opcode::Error),
            0x01 => Some(Opcode::Startup),
            0x02 => Some(Opcode::Ready),
            0x03 => Some(Opcode::Authenticate),
            0x05 => Some(Opcode::Options),
            0x06 => Some(Opcode::Supported),
            0x07 => Some(Opcode::Query),
            0x08 => Some(Opcode::Result),
            0x09 => Some(Opcode::Prepare),
            0x0a => Some(Opcode::Execute),
            0x0b => Some(Opcode::Register),
            0x0c => Some(Opcode::Event),
            0x0d => Some(Opcode::Batch),
            0x0e => Some(Opcode::AuthChallenge),
            0x0f => Some(Opcode::AuthResponse),
            0x10 => Some(Opcode::AuthSuccess),
            _ => None,
        }
    }
}

/// A request addressed to a storage node.
#[derive(Debug)]
pub enum Request {
    Add(String),
    Check(String),
    AddBatch(Vec<String>),
    GetBatch(Vec<Range>),
    DropBatch(Vec<Range>),
}

/// A storage node's reply.
#[derive(Debug)]
pub enum Response {
    String(String),
    Array(Vec<String>),
    Bool(bool),
}

/// The mathematical value of a [`Request`].
pub enum ReqV {
    Add(Seq<char>),
    Check(Seq<char>),
    AddBatch(Seq<Seq<char>>),
    GetBatch(Seq<Range>),
    DropBatch(Seq<Range>),
}

/// The mathematical value of a [`Response`].
pub enum RespV {
    String(Seq<char>),
    Array(Seq<Seq<char>>),
    Bool(bool),
}

impl View for Request {
    type V = ReqV;

    open spec fn view(&self) -> ReqV {
        match self {
            Request::Add(s) => ReqV::Add(s@),
            Request::Check(s) => ReqV::Check(s@),
            Request::AddBatch(items) => ReqV::AddBatch(items.deep_view()),
            Request::GetBatch(ranges) => ReqV::GetBatch(ranges@),
            Request::DropBatch(ranges) => ReqV::DropBatch(ranges@),
        }
    }
}

impl View for Response {
    type V = RespV;

    open spec fn view(&self) -> RespV {
        match self {
            Response::String(s) => RespV::String(s@),
            Response::Array(items) => RespV::Array(items.deep_view()),
            Response::Bool(b) => RespV::Bool(*b),
        }
    }
}

fn string_vec_eq(a: &Vec<String>, b: &Vec<String>) -> (r: bool)
    ensures
        r == (a.deep_view() =~= b.deep_view()),
{
    if a.len() != b.len() {
        assert(a.deep_view().len() != b.deep_view().len());
        return false;
    }
    let n = a.len();
    let mut i: usize = 0;
    while i < n
        invariant
            n == a@.len() == b@.len(),
            i <= n,
            forall|j: int| 0 <= j < i ==> a.deep_view()[j] == b.deep_view()[j],
        decreases n - i,
    {
        if !a[i].eq(&b[i]) {
            assert(a.deep_view()[i as int] != b.deep_view()[i as int]);
            return false;
        }
        i = i + 1;
    }
    assert(a.deep_view() =~= b.deep_view());
    true
}

fn range_vec_eq(a: &Vec<Range>, b: &Vec<Range>) -> (r: bool)
    ensures
        r == (a@ =~= b@),
{
    if a.len() != b.len() {
        return false;
    }
    let n = a.len();
    let mut i: usize = 0;
    while i < n
        invariant
            n == a@.len() == b@.len(),
            i <= n,
            forall|j: int| 0 <= j < i ==> a@[j] == b@[j],
        decreases n - i,
    {
        if !(a[i] == b[i]) {
            return false;
        }
        i = i + 1;
    }
    assert(a@ =~= b@);
    true
}

impl PartialEq for Request {
    fn eq(&self, other: &Request) -> (r: bool) {
        match (self, other) {
            (Request::Add(a), Request::Add(b)) => a.eq(b),
            (Request::Check(a), Request::Check(b)) => a.eq(b),
            (Request::AddBatch(a), Request::AddBatch(b)) => string_vec_eq(a, b),
            (Request::GetBatch(a), Request::GetBatch(b)) => range_vec_eq(a, b),
            (Request::DropBatch(a), Request::DropBatch(b)) => range_vec_eq(a, b),
            _ => false,
        }
    }
}

impl vstd::std_specs::cmp::PartialEqSpecImpl for Request {
    open spec fn obeys_eq_spec() -> bool {
        true
    }

    open spec fn eq_spec(&self, other: &Request) -> bool {
        match (self@, other@) {
            (ReqV::Add(a), ReqV::Add(b)) => a =~= b,
            (ReqV::Check(a), ReqV::Check(b)) => a =~= b,
            (ReqV::AddBatch(a), ReqV::AddBatch(b)) => a =~= b,
            (ReqV::GetBatch(a), ReqV::GetBatch(b)) => a =~= b,
            (ReqV::DropBatch(a), ReqV::DropBatch(b)) => a =~= b,
            _ => false,
        }
    }
}

impl PartialEq for Response {
    fn eq(&self, other: &Response) -> (r: bool) {
        match (self, other) {
            (Response::String(a), Response::String(b)) => a.eq(b),
            (Response::Array(a), Response::Array(b)) => string_vec_eq(a, b),
            (Response::Bool(a), Response::Bool(b)) => a == b,
            _ => false,
        }
    }
}

impl vstd::std_specs::cmp::PartialEqSpecImpl for Response {
    open spec fn obeys_eq_spec() -> bool {
        true
    }

    open spec fn eq_spec(&self, other: &Response) -> bool {
        match (self@, other@) {
            (RespV::String(a), RespV::String(b)) => a =~= b,
            (RespV::Array(a), RespV::Array(b)) => a =~= b,
            (RespV::Bool(a), RespV::Bool(b)) => a == b,
            _ => false,
        }
    }
}

} // verus!
