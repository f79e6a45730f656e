//! Binary serialization of request and response bodies.
//!
//! The encoding matches the reference layout: little-endian scalars,
//! 64-bit length prefixes for strings and sequences, and a 32-bit tag for
//! the variant, in declaration order.

use vstd::prelude::*;
use vstd::string::StrSliceExecFns;
use vstd::utf8::{decode_utf8, encode_utf8, valid_utf8};
use crate::consistent_hash_ring::Range;
use crate::error::Error;
use crate::protocol::frame::{spec_encode_frame, Frame, FrameV};
use crate::protocol::types::{Flags, Opcode, ReqV, Request, RespV, Response, Version};

verus! {

/// 256 to the `k`-th power: the number of values `k` bytes can carry.
pub open spec fn pow256(k: nat) -> nat
    decreases k,
{
    if k == 0 {
        1
    } else {
        256 * pow256((k - 1) as nat)
    }
}

/// The `count` little-endian bytes of `x` (modulo `256^count`).
pub open spec fn spec_le_bytes(x: nat, count: nat) -> Seq<u8>
    decreases count,
{
    if count == 0 {
        Seq::empty()
    } else {
        seq![(x % 256) as u8] + spec_le_bytes(x / 256, (count - 1) as nat)
    }
}

/// The value carried by a little-endian byte sequence.
pub open spec fn spec_le_val(bytes: Seq<u8>) -> nat
    decreases bytes.len(),
{
    if bytes.len() == 0 {
        0
    } else {
        (bytes[0] + 256 * spec_le_val(bytes.drop_first())) as nat
    }
}

pub proof fn lemma_le_bytes_len(x: nat, count: nat)
    ensures
        spec_le_bytes(x, count).len() == count,
    decreases count,
{
    if count > 0 {
        lemma_le_bytes_len(x / 256, (count - 1) as nat);
    }
}

pub proof fn lemma_le_val_bound(bytes: Seq<u8>)
    ensures
        spec_le_val(bytes) < pow256(bytes.len() as nat),
    decreases bytes.len(),
{
    if bytes.len() > 0 {
        lemma_le_val_bound(bytes.drop_first());
    }
}

/// Writing `x` in `count` little-endian bytes and reading them back gives
/// `x`, whenever `x` fits in `count` bytes.
pub proof fn lemma_le_round_trip(x: nat, count: nat)
    requires
        x < pow256(count),
    ensures
        spec_le_bytes(x, count).len() == count,
        spec_le_val(spec_le_bytes(x, count)) == x,
    decreases count,
{
    lemma_le_bytes_len(x, count);
    if count > 0 {
        assert(x / 256 < pow256((count - 1) as nat)) by {
            if x / 256 >= pow256((count - 1) as nat) {
                assert(x >= 256 * pow256((count - 1) as nat)) by (nonlinear_arith)
                    requires
                        x / 256 >= pow256((count - 1) as nat),
                ;
            }
        }
        lemma_le_round_trip(x / 256, (count - 1) as nat);
        let bytes = spec_le_bytes(x, count);
        assert(bytes.drop_first() =~= spec_le_bytes(x / 256, (count - 1) as nat));
        assert(spec_le_val(bytes) == x % 256 + 256 * (x / 256));
    }
}

/// Appends the eight little-endian bytes of `x`.
fn push_u64_le(out: &mut Vec<u8>, x: u64) -> (nothing: ())
    ensures
        final(out)@ == old(out)@ + spec_le_bytes(x as nat, 8),
{
    let b0 = (x % 0x100) as u8;
    let x1 = x / 0x100;
    let b1 = (x1 % 0x100) as u8;
    let x2 = x1 / 0x100;
    let b2 = (x2 % 0x100) as u8;
    let x3 = x2 / 0x100;
    let b3 = (x3 % 0x100) as u8;
    let x4 = x3 / 0x100;
    let b4 = (x4 % 0x100) as u8;
    let x5 = x4 / 0x100;
    let b5 = (x5 % 0x100) as u8;
    let x6 = x5 / 0x100;
    let b6 = (x6 % 0x100) as u8;
    let x7 = x6 / 0x100;
    let b7 = (x7 % 0x100) as u8;
    out.push(b0);
    out.push(b1);
    out.push(b2);
    out.push(b3);
    out.push(b4);
    out.push(b5);
    out.push(b6);
    out.push(b7);
    proof {
        reveal_with_fuel(spec_le_bytes, 9);
        assert(out@ =~= old(out)@ + spec_le_bytes(x as nat, 8));
    }
}

/// Appends the four little-endian bytes of `x`.
fn push_u32_le(out: &mut Vec<u8>, x: u32) -> (nothing: ())
    ensures
        final(out)@ == old(out)@ + spec_le_bytes(x as nat, 4),
{
    let b0 = (x % 0x100) as u8;
    let x1 = x / 0x100;
    let b1 = (x1 % 0x100) as u8;
    let x2 = x1 / 0x100;
    let b2 = (x2 % 0x100) as u8;
    let x3 = x2 / 0x100;
    let b3 = (x3 % 0x100) as u8;
    out.push(b0);
    out.push(b1);
    out.push(b2);
    out.push(b3);
    proof {
        reveal_with_fuel(spec_le_bytes, 5);
        assert(out@ =~= old(out)@ + spec_le_bytes(x as nat, 4));
    }
}

/// Reads the 64-bit little-endian integer at `pos`.
fn read_u64_le(bytes: &[u8], pos: usize) -> (x: u64)
    requires
        pos + 8 <= bytes@.len(),
    ensures
        x as nat == spec_le_val(bytes@.subrange(pos as int, pos as int + 8)),
{
    let len = bytes.len();
    proof {
        assert(pos + 8 <= len);
    }
    let b0 = *vstd::slice::slice_index_get(bytes, pos) as u64;
    let b1 = *vstd::slice::slice_index_get(bytes, pos + 1) as u64;
    let b2 = *vstd::slice::slice_index_get(bytes, pos + 2) as u64;
    let b3 = *vstd::slice::slice_index_get(bytes, pos + 3) as u64;
    let b4 = *vstd::slice::slice_index_get(bytes, pos + 4) as u64;
    let b5 = *vstd::slice::slice_index_get(bytes, pos + 5) as u64;
    let b6 = *vstd::slice::slice_index_get(bytes, pos + 6) as u64;
    let b7 = *vstd::slice::slice_index_get(bytes, pos + 7) as u64;
    let x = b0 + 0x100 * (b1 + 0x100 * (b2 + 0x100 * (b3 + 0x100 * (b4 + 0x100 * (b5
        + 0x100 * (b6 + 0x100 * b7))))));
    proof {
        let p = pos as int;
        let s0 = bytes@.subrange(p, p + 8);
        let s1 = bytes@.subrange(p + 1, p + 8);
        let s2 = bytes@.subrange(p + 2, p + 8);
        let s3 = bytes@.subrange(p + 3, p + 8);
        let s4 = bytes@.subrange(p + 4, p + 8);
        let s5 = bytes@.subrange(p + 5, p + 8);
        let s6 = bytes@.subrange(p + 6, p + 8);
        let s7 = bytes@.subrange(p + 7, p + 8);
        let s8 = bytes@.subrange(p + 8, p + 8);
        assert(s0.drop_first() =~= s1);
        assert(s1.drop_first() =~= s2);
        assert(s2.drop_first() =~= s3);
        assert(s3.drop_first() =~= s4);
        assert(s4.drop_first() =~= s5);
        assert(s5.drop_first() =~= s6);
        assert(s6.drop_first() =~= s7);
        assert(s7.drop_first() =~= s8);
        assert(spec_le_val(s8) == 0);
        assert(spec_le_val(s7) == s7[0] + 256 * spec_le_val(s8));
        assert(spec_le_val(s6) == s6[0] + 256 * spec_le_val(s7));
        assert(spec_le_val(s5) == s5[0] + 256 * spec_le_val(s6));
        assert(spec_le_val(s4) == s4[0] + 256 * spec_le_val(s5));
        assert(spec_le_val(s3) == s3[0] + 256 * spec_le_val(s4));
        assert(spec_le_val(s2) == s2[0] + 256 * spec_le_val(s3));
        assert(spec_le_val(s1) == s1[0] + 256 * spec_le_val(s2));
        assert(spec_le_val(s0) == s0[0] + 256 * spec_le_val(s1));
    }
    x
}

/// Reads the 32-bit little-endian integer at `pos`.
fn read_u32_le(bytes: &[u8], pos: usize) -> (x: u32)
    requires
        pos + 4 <= bytes@.len(),
    ensures
        x as nat == spec_le_val(bytes@.subrange(pos as int, pos as int + 4)),
{
    let len = bytes.len();
    proof {
        assert(pos + 4 <= len);
    }
    let b0 = *vstd::slice::slice_index_get(bytes, pos) as u32;
    let b1 = *vstd::slice::slice_index_get(bytes, pos + 1) as u32;
    let b2 = *vstd::slice::slice_index_get(bytes, pos + 2) as u32;
    let b3 = *vstd::slice::slice_index_get(bytes, pos + 3) as u32;
    let x = b0 + 0x100 * (b1 + 0x100 * (b2 + 0x100 * b3));
    proof {
        let p = pos as int;
        let s0 = bytes@.subrange(p, p + 4);
        let s1 = bytes@.subrange(p + 1, p + 4);
        let s2 = bytes@.subrange(p + 2, p + 4);
        let s3 = bytes@.subrange(p + 3, p + 4);
        let s4 = bytes@.subrange(p + 4, p + 4);
        assert(s0.drop_first() =~= s1);
        assert(s1.drop_first() =~= s2);
        assert(s2.drop_first() =~= s3);
        assert(s3.drop_first() =~= s4);
        assert(spec_le_val(s4) == 0);
        assert(spec_le_val(s3) == s3[0] + 256 * spec_le_val(s4));
        assert(spec_le_val(s2) == s2[0] + 256 * spec_le_val(s3));
        assert(spec_le_val(s1) == s1[0] + 256 * spec_le_val(s2));
        assert(spec_le_val(s0) == s0[0] + 256 * spec_le_val(s1));
    }
    x
}

/// The error type of `String::from_utf8`; it comes from the standard
/// library, so it is opaque to verification.
#[verifier::external_type_specification]
#[verifier::external_body]
pub struct ExFromUtf8Error(std::string::FromUtf8Error);

/// Relies on String::from_utf8: it succeeds exactly on valid UTF-8 input,
/// and then returns the string those bytes encode.
pub assume_specification[ std::string::String::from_utf8 ](vec: Vec<u8>) -> (r: Result<
    String,
    std::string::FromUtf8Error,
>)
    ensures
        r is Ok <==> valid_utf8(vec@),
        r matches Ok(s) ==> s@ == decode_utf8(vec@),
;

/// A string whose UTF-8 encoding fits under a 64-bit length prefix; every
/// executable string does.
pub open spec fn string_serializable(s: Seq<char>) -> bool {
    encode_utf8(s).len() < pow256(8)
}

/// The encoded bytes of one string: a 64-bit length prefix and the UTF-8
/// bytes.
pub open spec fn spec_str_bytes(s: Seq<char>) -> Seq<u8> {
    spec_le_bytes(encode_utf8(s).len() as nat, 8) + encode_utf8(s)
}

/// Appends the encoding of one string.
fn push_string(out: &mut Vec<u8>, s: &str) -> (nothing: ())
    ensures
        final(out)@ == old(out)@ + spec_str_bytes(s@),
{
    let mut bytes = s.as_bytes_vec();
    let n = bytes.len() as u64;
    push_u64_le(out, n);
    out.append(&mut bytes);
    proof {
        assert(out@ =~= old(out)@ + spec_str_bytes(s@));
    }
}

/// The string starting at `pos`, with the position just past it, when the
/// bytes there hold a length prefix, enough bytes, and valid UTF-8.
pub open spec fn spec_parse_string(bytes: Seq<u8>, pos: int) -> Option<(Seq<char>, int)> {
    if pos + 8 <= bytes.len() {
        let n = spec_le_val(bytes.subrange(pos, pos + 8)) as int;
        if pos + 8 + n <= bytes.len() && valid_utf8(bytes.subrange(pos + 8, pos + 8 + n)) {
            Some((decode_utf8(bytes.subrange(pos + 8, pos + 8 + n)), pos + 8 + n))
        } else {
            None
        }
    } else {
        None
    }
}

/// Parses the string at `pos`, exactly as [`spec_parse_string`] describes.
fn parse_string(bytes: &[u8], pos: usize) -> (r: Result<(String, usize), Error>)
    requires
        pos <= bytes@.len(),
    ensures
        match spec_parse_string(bytes@, pos as int) {
            Some(sp) => r matches Ok(rp) && rp.0@ == sp.0 && rp.1 == sp.1,
            None => r matches Err(e) && e is ParseError,
        },
{
    let len = bytes.len();
    if len - pos < 8 {
        return Err(Error::ParseError);
    }
    let n = read_u64_le(bytes, pos);
    proof {
        lemma_le_val_bound(bytes@.subrange(pos as int, pos as int + 8));
    }
    if n > (len - pos - 8) as u64 {
        return Err(Error::ParseError);
    }
    let nn = n as usize;
    let sub = vstd::slice::slice_subrange(bytes, pos + 8, pos + 8 + nn);
    let vec = vstd::slice::slice_to_vec(sub);
    match String::from_utf8(vec) {
        Ok(s) => Ok((s, pos + 8 + nn)),
        Err(_) => Err(Error::ParseError),
    }
}

/// The concatenated encodings of a sequence of strings.
pub open spec fn spec_strings_bytes(items: Seq<Seq<char>>) -> Seq<u8>
    decreases items.len(),
{
    if items.len() == 0 {
        Seq::empty()
    } else {
        spec_str_bytes(items[0]) + spec_strings_bytes(items.drop_first())
    }
}

/// The encoded bytes of a string sequence: a 64-bit count and the strings.
pub open spec fn spec_string_list_bytes(items: Seq<Seq<char>>) -> Seq<u8> {
    spec_le_bytes(items.len(), 8) + spec_strings_bytes(items)
}

/// The encoded bytes of one range: both tokens, little-endian.
pub open spec fn spec_range_bytes(r: Range) -> Seq<u8> {
    spec_le_bytes(r.start as nat, 8) + spec_le_bytes(r.end as nat, 8)
}

/// The concatenated encodings of a sequence of ranges.
pub open spec fn spec_ranges_bytes(rs: Seq<Range>) -> Seq<u8>
    decreases rs.len(),
{
    if rs.len() == 0 {
        Seq::empty()
    } else {
        spec_range_bytes(rs[0]) + spec_ranges_bytes(rs.drop_first())
    }
}

/// The encoded bytes of a range sequence: a 64-bit count and the ranges.
pub open spec fn spec_range_list_bytes(rs: Seq<Range>) -> Seq<u8> {
    spec_le_bytes(rs.len(), 8) + spec_ranges_bytes(rs)
}

/// The encoded bytes of a request: a 32-bit variant tag in declaration
/// order, then the payload.
pub open spec fn spec_serialize_request(r: ReqV) -> Seq<u8> {
    match r {
        ReqV::Add(s) => spec_le_bytes(0, 4) + spec_str_bytes(s),
        ReqV::Check(s) => spec_le_bytes(1, 4) + spec_str_bytes(s),
        ReqV::AddBatch(items) => spec_le_bytes(2, 4) + spec_string_list_bytes(items),
        ReqV::GetBatch(rs) => spec_le_bytes(3, 4) + spec_range_list_bytes(rs),
        ReqV::DropBatch(rs) => spec_le_bytes(4, 4) + spec_range_list_bytes(rs),
    }
}

/// The encoded bytes of a response: a 32-bit variant tag in declaration
/// order, then the payload.
pub open spec fn spec_serialize_response(r: RespV) -> Seq<u8> {
    match r {
        RespV::String(s) => spec_le_bytes(0, 4) + spec_str_bytes(s),
        RespV::Array(items) => spec_le_bytes(1, 4) + spec_string_list_bytes(items),
        RespV::Bool(b) => spec_le_bytes(2, 4) + seq![if b { 1u8 } else { 0u8 }],
    }
}

/// A request whose counts and string encodings fit their 64-bit prefixes;
/// every executable request does.
pub open spec fn request_serializable(r: ReqV) -> bool {
    match r {
        ReqV::Add(s) => string_serializable(s),
        ReqV::Check(s) => string_serializable(s),
        ReqV::AddBatch(items) => items.len() < pow256(8) && forall|i: int|
            0 <= i < items.len() ==> string_serializable(#[trigger] items[i]),
        ReqV::GetBatch(rs) => rs.len() < pow256(8),
        ReqV::DropBatch(rs) => rs.len() < pow256(8),
    }
}

/// A response whose counts and string encodings fit their 64-bit prefixes.
pub open spec fn response_serializable(r: RespV) -> bool {
    match r {
        RespV::String(s) => string_serializable(s),
        RespV::Array(items) => items.len() < pow256(8) && forall|i: int|
            0 <= i < items.len() ==> string_serializable(#[trigger] items[i]),
        RespV::Bool(_) => true,
    }
}

proof fn lemma_strings_bytes_push(items: Seq<Seq<char>>, x: Seq<char>)
    ensures
        spec_strings_bytes(items.push(x)) == spec_strings_bytes(items) + spec_str_bytes(x),
    decreases items.len(),
{
    if items.len() == 0 {
        assert(items.push(x).drop_first() =~= Seq::<Seq<char>>::empty());
        assert(items.push(x)[0] == x);
        assert(spec_strings_bytes(Seq::<Seq<char>>::empty()) =~= Seq::<u8>::empty());
        assert(spec_strings_bytes(items) =~= Seq::<u8>::empty());
        assert(spec_strings_bytes(items.push(x)) =~= spec_strings_bytes(items)
            + spec_str_bytes(x));
    } else {
        lemma_strings_bytes_push(items.drop_first(), x);
        assert(items.push(x).drop_first() =~= items.drop_first().push(x));
        assert(items.push(x)[0] == items[0]);
        assert(spec_strings_bytes(items.push(x)) =~= spec_strings_bytes(items)
            + spec_str_bytes(x));
    }
}

proof fn lemma_ranges_bytes_push(rs: Seq<Range>, x: Range)
    ensures
        spec_ranges_bytes(rs.push(x)) == spec_ranges_bytes(rs) + spec_range_bytes(x),
    decreases rs.len(),
{
    if rs.len() == 0 {
        assert(rs.push(x).drop_first() =~= Seq::<Range>::empty());
        assert(rs.push(x)[0] == x);
        assert(spec_ranges_bytes(Seq::<Range>::empty()) =~= Seq::<u8>::empty());
        assert(spec_ranges_bytes(rs) =~= Seq::<u8>::empty());
        assert(spec_ranges_bytes(rs.push(x)) =~= spec_ranges_bytes(rs) + spec_range_bytes(x));
    } else {
        lemma_ranges_bytes_push(rs.drop_first(), x);
        assert(rs.push(x).drop_first() =~= rs.drop_first().push(x));
        assert(rs.push(x)[0] == rs[0]);
        assert(spec_ranges_bytes(rs.push(x)) =~= spec_ranges_bytes(rs) + spec_range_bytes(x));
    }
}

/// Appends the encoding of a string sequence.
fn push_string_list(out: &mut Vec<u8>, items: &Vec<String>) -> (nothing: ())
    ensures
        final(out)@ == old(out)@ + spec_string_list_bytes(items.deep_view()),
{
    let n = items.len() as u64;
    push_u64_le(out, n);
    let ghost base = out@;
    let mut i: usize = 0;
    while i < items.len()
        invariant
            i <= items@.len(),
            base == old(out)@ + spec_le_bytes(items.deep_view().len(), 8),
            out@ == base + spec_strings_bytes(items.deep_view().take(i as int)),
        decreases items@.len() - i,
    {
        let ghost prefix = items.deep_view().take(i as int);
        push_string(out, items[i].as_str());
        proof {
            lemma_strings_bytes_push(prefix, items.deep_view()[i as int]);
            assert(items.deep_view().take(i + 1) =~= prefix.push(items.deep_view()[i as int]));
        }
        i = i + 1;
    }
    proof {
        assert(items.deep_view().take(items.deep_view().len() as int) =~= items.deep_view());
    }
}

/// Appends the encoding of a range sequence.
fn push_range_list(out: &mut Vec<u8>, rs: &Vec<Range>) -> (nothing: ())
    ensures
        final(out)@ == old(out)@ + spec_range_list_bytes(rs@),
{
    let n = rs.len() as u64;
    push_u64_le(out, n);
    let ghost base = out@;
    let mut i: usize = 0;
    while i < rs.len()
        invariant
            i <= rs@.len(),
            base == old(out)@ + spec_le_bytes(rs@.len(), 8),
            out@ == base + spec_ranges_bytes(rs@.take(i as int)),
        decreases rs@.len() - i,
    {
        let ghost prefix = rs@.take(i as int);
        let r = rs[i];
        push_u64_le(out, r.start);
        push_u64_le(out, r.end);
        proof {
            lemma_ranges_bytes_push(prefix, rs@[i as int]);
            assert(rs@.take(i + 1) =~= prefix.push(rs@[i as int]));
            assert(out@ =~= base + spec_ranges_bytes(rs@.take(i + 1)));
        }
        i = i + 1;
    }
    proof {
        assert(rs@.take(rs@.len() as int) =~= rs@);
    }
}

/// Serializes a request, exactly as [`spec_serialize_request`] describes.
pub fn serialize_request(req: &Request) -> (out: Vec<u8>)
    ensures
        out@ == spec_serialize_request(req@),
{
    let mut out: Vec<u8> = Vec::new();
    match req {
        Request::Add(s) => {
            push_u32_le(&mut out, 0);
            push_string(&mut out, s.as_str());
        },
        Request::Check(s) => {
            push_u32_le(&mut out, 1);
            push_string(&mut out, s.as_str());
        },
        Request::AddBatch(items) => {
            push_u32_le(&mut out, 2);
            push_string_list(&mut out, items);
        },
        Request::GetBatch(rs) => {
            push_u32_le(&mut out, 3);
            push_range_list(&mut out, rs);
        },
        Request::DropBatch(rs) => {
            push_u32_le(&mut out, 4);
            push_range_list(&mut out, rs);
        },
    }
    out
}

/// Serializes a response, exactly as [`spec_serialize_response`] describes.
pub fn serialize_response(resp: &Response) -> (out: Vec<u8>)
    ensures
        out@ == spec_serialize_response(resp@),
{
    let mut out: Vec<u8> = Vec::new();
    match resp {
        Response::String(s) => {
            push_u32_le(&mut out, 0);
            push_string(&mut out, s.as_str());
        },
        Response::Array(items) => {
            push_u32_le(&mut out, 1);
            push_string_list(&mut out, items);
        },
        Response::Bool(b) => {
            push_u32_le(&mut out, 2);
            out.push(if *b { 1 } else { 0 });
            proof {
                assert(out@ =~= spec_serialize_response(resp@));
            }
        },
    }
    out
}

/// The strings starting at `pos`, `k` of them, with the position past the
/// last, when the bytes there hold that many well-formed strings.
pub open spec fn spec_parse_strings(bytes: Seq<u8>, pos: int, k: nat) -> Option<
    (Seq<Seq<char>>, int),
>
    decreases k,
{
    if k == 0 {
        Some((Seq::empty(), pos))
    } else {
        match spec_parse_string(bytes, pos) {
            Option::None => None,
            Option::Some((s, p)) => match spec_parse_strings(bytes, p, (k - 1) as nat) {
                Option::None => None,
                Option::Some((ss, q)) => Some((seq![s] + ss, q)),
            },
        }
    }
}

/// The string sequence starting at `pos`: a 64-bit count, then the strings.
pub open spec fn spec_parse_string_list(bytes: Seq<u8>, pos: int) -> Option<
    (Seq<Seq<char>>, int),
> {
    if pos + 8 <= bytes.len() {
        spec_parse_strings(bytes, pos + 8, spec_le_val(bytes.subrange(pos, pos + 8)))
    } else {
        None
    }
}

/// The range starting at `pos`: two 64-bit tokens.
pub open spec fn spec_parse_range(bytes: Seq<u8>, pos: int) -> Option<(Range, int)> {
    if pos + 16 <= bytes.len() {
        Some(
            (
                Range {
                    start: spec_le_val(bytes.subrange(pos, pos + 8)) as u64,
                    end: spec_le_val(bytes.subrange(pos + 8, pos + 16)) as u64,
                },
                pos + 16,
            ),
        )
    } else {
        None
    }
}

/// The ranges starting at `pos`, `k` of them.
pub open spec fn spec_parse_ranges(bytes: Seq<u8>, pos: int, k: nat) -> Option<
    (Seq<Range>, int),
>
    decreases k,
{
    if k == 0 {
        Some((Seq::empty(), pos))
    } else {
        match spec_parse_range(bytes, pos) {
            Option::None => None,
            Option::Some((r, p)) => match spec_parse_ranges(bytes, p, (k - 1) as nat) {
                Option::None => None,
                Option::Some((rs, q)) => Some((seq![r] + rs, q)),
            },
        }
    }
}

/// The range sequence starting at `pos`: a 64-bit count, then the ranges.
pub open spec fn spec_parse_range_list(bytes: Seq<u8>, pos: int) -> Option<(Seq<Range>, int)> {
    if pos + 8 <= bytes.len() {
        spec_parse_ranges(bytes, pos + 8, spec_le_val(bytes.subrange(pos, pos + 8)))
    } else {
        None
    }
}

/// The request carried by a body, if it holds one: a known 32-bit tag, a
/// well-formed payload, and nothing after it.
pub open spec fn spec_deserialize_request(bytes: Seq<u8>) -> Option<ReqV> {
    if bytes.len() < 4 {
        None
    } else {
        let tag = spec_le_val(bytes.subrange(0, 4));
        if tag == 0 {
            match spec_parse_string(bytes, 4) {
                Option::None => None,
                Option::Some((s, p)) => if p == bytes.len() {
                    Some(ReqV::Add(s))
                } else {
                    None
                },
            }
        } else if tag == 1 {
            match spec_parse_string(bytes, 4) {
                Option::None => None,
                Option::Some((s, p)) => if p == bytes.len() {
                    Some(ReqV::Check(s))
                } else {
                    None
                },
            }
        } else if tag == 2 {
            match spec_parse_string_list(bytes, 4) {
                Option::None => None,
                Option::Some((ss, p)) => if p == bytes.len() {
                    Some(ReqV::AddBatch(ss))
                } else {
                    None
                },
            }
        } else if tag == 3 {
            match spec_parse_range_list(bytes, 4) {
                Option::None => None,
                Option::Some((rs, p)) => if p == bytes.len() {
                    Some(ReqV::GetBatch(rs))
                } else {
                    None
                },
            }
        } else if tag == 4 {
            match spec_parse_range_list(bytes, 4) {
                Option::None => None,
                Option::Some((rs, p)) => if p == bytes.len() {
                    Some(ReqV::DropBatch(rs))
                } else {
                    None
                },
            }
        } else {
            None
        }
    }
}

/// The response carried by a body, if it holds one.
pub open spec fn spec_deserialize_response(bytes: Seq<u8>) -> Option<RespV> {
    if bytes.len() < 4 {
        None
    } else {
        let tag = spec_le_val(bytes.subrange(0, 4));
        if tag == 0 {
            match spec_parse_string(bytes, 4) {
                Option::None => None,
                Option::Some((s, p)) => if p == bytes.len() {
                    Some(RespV::String(s))
                } else {
                    None
                },
            }
        } else if tag == 1 {
            match spec_parse_string_list(bytes, 4) {
                Option::None => None,
                Option::Some((ss, p)) => if p == bytes.len() {
                    Some(RespV::Array(ss))
                } else {
                    None
                },
            }
        } else if tag == 2 {
            if bytes.len() == 5 && (bytes[4] == 0 || bytes[4] == 1) {
                Some(RespV::Bool(bytes[4] == 1))
            } else {
                None
            }
        } else {
            None
        }
    }
}

/// Parses the strings at `pos`, `k` of them, exactly as
/// [`spec_parse_strings`] describes.
fn parse_string_vec(bytes: &[u8], pos: usize, k: u64) -> (r: Result<(Vec<String>, usize), Error>)
    requires
        pos <= bytes@.len(),
    ensures
        match spec_parse_strings(bytes@, pos as int, k as nat) {
            Option::Some(sp) => r matches Ok(rp) && rp.0.deep_view() == sp.0 && rp.1 == sp.1,
            Option::None => r matches Err(e) && e is ParseError,
        },
{
    let mut acc: Vec<String> = Vec::new();
    let mut cur: usize = pos;
    let mut j: u64 = 0;
    while j < k
        invariant
            pos <= bytes@.len(),
            cur <= bytes@.len(),
            j <= k,
            spec_parse_strings(bytes@, pos as int, k as nat) == (match spec_parse_strings(
                bytes@,
                cur as int,
                (k - j) as nat,
            ) {
                Option::None => None::<(Seq<Seq<char>>, int)>,
                Option::Some((ss, q)) => Some((acc.deep_view() + ss, q)),
            }),
        decreases k - j,
    {
        let ghost rest = (k - j) as nat;
        match parse_string(bytes, cur) {
            Ok((s, next)) => {
                proof {
                    let (sv, pv) = spec_parse_string(bytes@, cur as int).unwrap();
                    if let Option::Some((ss2, q2)) = spec_parse_strings(
                        bytes@,
                        pv,
                        (rest - 1) as nat,
                    ) {
                        assert(acc.deep_view().push(sv) + ss2 =~= acc.deep_view() + (seq![sv]
                            + ss2));
                    }
                }
                let ghost old_acc = acc.deep_view();
                acc.push(s);
                proof {
                    assert(acc.deep_view() =~= old_acc.push(s@));
                }
                cur = next;
                j = j + 1;
            },
            Err(_) => {
                return Err(Error::ParseError);
            },
        }
    }
    proof {
        assert(acc.deep_view() + Seq::<Seq<char>>::empty() =~= acc.deep_view());
    }
    Ok((acc, cur))
}

/// Parses the ranges at `pos`, `k` of them, exactly as
/// [`spec_parse_ranges`] describes.
fn parse_range_vec(bytes: &[u8], pos: usize, k: u64) -> (r: Result<(Vec<Range>, usize), Error>)
    requires
        pos <= bytes@.len(),
    ensures
        match spec_parse_ranges(bytes@, pos as int, k as nat) {
            Option::Some(rp) => r matches Ok(out) && out.0@ == rp.0 && out.1 == rp.1,
            Option::None => r matches Err(e) && e is ParseError,
        },
{
    let len = bytes.len();
    let mut acc: Vec<Range> = Vec::new();
    let mut cur: usize = pos;
    let mut j: u64 = 0;
    while j < k
        invariant
            pos <= bytes@.len(),
            cur <= bytes@.len(),
            len == bytes@.len(),
            j <= k,
            spec_parse_ranges(bytes@, pos as int, k as nat) == (match spec_parse_ranges(
                bytes@,
                cur as int,
                (k - j) as nat,
            ) {
                Option::None => None::<(Seq<Range>, int)>,
                Option::Some((rs, q)) => Some((acc@ + rs, q)),
            }),
        decreases k - j,
    {
        let ghost rest = (k - j) as nat;
        if len - cur < 16 {
            return Err(Error::ParseError);
        }
        let start = read_u64_le(bytes, cur);
        let end = read_u64_le(bytes, cur + 8);
        let rg = Range { start, end };
        proof {
            let (rv, pv) = spec_parse_range(bytes@, cur as int).unwrap();
            assert(rv == rg) by {
                lemma_le_val_bound(bytes@.subrange(cur as int, cur as int + 8));
                lemma_le_val_bound(bytes@.subrange(cur as int + 8, cur as int + 16));
            }
            if let Option::Some((rs2, q2)) = spec_parse_ranges(bytes@, pv, (rest - 1) as nat) {
                assert(acc@.push(rg) + rs2 =~= acc@ + (seq![rg] + rs2));
            }
        }
        acc.push(rg);
        cur = cur + 16;
        j = j + 1;
    }
    proof {
        assert(acc@ + Seq::<Range>::empty() =~= acc@);
    }
    Ok((acc, cur))
}

/// Deserializes a request body, exactly as [`spec_deserialize_request`]
/// describes: a body that does not hold a request is a parse error.
pub fn deserialize_request(bytes: &[u8]) -> (r: Result<Request, Error>)
    ensures
        match spec_deserialize_request(bytes@) {
            Option::Some(rv) => r matches Ok(req) && req@ == rv,
            Option::None => r matches Err(e) && e is ParseError,
        },
{
    let len = bytes.len();
    if len < 4 {
        return Err(Error::ParseError);
    }
    let tag = read_u32_le(bytes, 0);
    if tag == 0 || tag == 1 {
        match parse_string(bytes, 4) {
            Ok((s, p)) => {
                if p != len {
                    return Err(Error::ParseError);
                }
                if tag == 0 {
                    Ok(Request::Add(s))
                } else {
                    Ok(Request::Check(s))
                }
            },
            Err(_) => Err(Error::ParseError),
        }
    } else if tag == 2 {
        if len - 4 < 8 {
            return Err(Error::ParseError);
        }
        let k = read_u64_le(bytes, 4);
        match parse_string_vec(bytes, 12, k) {
            Ok((items, p)) => {
                if p != len {
                    return Err(Error::ParseError);
                }
                Ok(Request::AddBatch(items))
            },
            Err(_) => Err(Error::ParseError),
        }
    } else if tag == 3 || tag == 4 {
        if len - 4 < 8 {
            return Err(Error::ParseError);
        }
        let k = read_u64_le(bytes, 4);
        match parse_range_vec(bytes, 12, k) {
            Ok((rs, p)) => {
                if p != len {
                    return Err(Error::ParseError);
                }
                if tag == 3 {
                    Ok(Request::GetBatch(rs))
                } else {
                    Ok(Request::DropBatch(rs))
                }
            },
            Err(_) => Err(Error::ParseError),
        }
    } else {
        Err(Error::ParseError)
    }
}

/// Deserializes a response body, exactly as [`spec_deserialize_response`]
/// describes: a body that does not hold a response is a parse error.
pub fn deserialize_response(bytes: &[u8]) -> (r: Result<Response, Error>)
    ensures
        match spec_deserialize_response(bytes@) {
            Option::Some(rv) => r matches Ok(resp) && resp@ == rv,
            Option::None => r matches Err(e) && e is ParseError,
        },
{
    let len = bytes.len();
    if len < 4 {
        return Err(Error::ParseError);
    }
    let tag = read_u32_le(bytes, 0);
    if tag == 0 {
        match parse_string(bytes, 4) {
            Ok((s, p)) => {
                if p != len {
                    return Err(Error::ParseError);
                }
                Ok(Response::String(s))
            },
            Err(_) => Err(Error::ParseError),
        }
    } else if tag == 1 {
        if len - 4 < 8 {
            return Err(Error::ParseError);
        }
        let k = read_u64_le(bytes, 4);
        match parse_string_vec(bytes, 12, k) {
            Ok((items, p)) => {
                if p != len {
                    return Err(Error::ParseError);
                }
                Ok(Response::Array(items))
            },
            Err(_) => Err(Error::ParseError),
        }
    } else if tag == 2 {
        if len != 5 {
            return Err(Error::ParseError);
        }
        let b = *vstd::slice::slice_index_get(bytes, 4);
        if b == 0 {
            Ok(Response::Bool(false))
        } else if b == 1 {
            Ok(Response::Bool(true))
        } else {
            Err(Error::ParseError)
        }
    } else {
        Err(Error::ParseError)
    }
}

proof fn lemma_pow256_8()
    ensures
        pow256(4) == 0x1_0000_0000,
        pow256(8) == 0x1_0000_0000_0000_0000,
{
    reveal_with_fuel(pow256, 9);
}

/// Parsing an encoded string embedded in a larger buffer finds the string
/// and stops right after it.
proof fn lemma_parse_string_of_encoding(pre: Seq<u8>, t: Seq<char>, post: Seq<u8>)
    requires
        string_serializable(t),
    ensures
        spec_parse_string(pre + spec_str_bytes(t) + post, pre.len() as int) == Some(
            (t, (pre.len() + spec_str_bytes(t).len()) as int),
        ),
        spec_str_bytes(t).len() == 8 + encode_utf8(t).len(),
{
    broadcast use vstd::utf8::encode_utf8_valid_utf8;
    broadcast use vstd::utf8::encode_utf8_decode_utf8;

    let n = encode_utf8(t).len();
    lemma_le_round_trip(n, 8);
    let bytes = pre + spec_str_bytes(t) + post;
    let pos = pre.len() as int;
    assert(bytes.subrange(pos, pos + 8) =~= spec_le_bytes(n, 8));
    assert(spec_le_val(bytes.subrange(pos, pos + 8)) == n);
    assert(bytes.subrange(pos + 8, pos + 8 + n as int) =~= encode_utf8(t));
    assert(decode_utf8(encode_utf8(t)) == t);
}

/// Parsing the concatenated encodings of `k` strings finds them all.
proof fn lemma_parse_strings_of_encoding(pre: Seq<u8>, items: Seq<Seq<char>>, post: Seq<u8>)
    requires
        forall|i: int| 0 <= i < items.len() ==> string_serializable(#[trigger] items[i]),
    ensures
        spec_parse_strings(pre + spec_strings_bytes(items) + post, pre.len() as int, items.len())
            == Some((items, (pre.len() + spec_strings_bytes(items).len()) as int)),
    decreases items.len(),
{
    let bytes = pre + spec_strings_bytes(items) + post;
    let pos = pre.len() as int;
    if items.len() == 0 {
        assert(spec_strings_bytes(items) =~= Seq::<u8>::empty());
        assert(spec_parse_strings(bytes, pos, 0) == Some((Seq::<Seq<char>>::empty(), pos)));
        assert(items =~= Seq::<Seq<char>>::empty());
    } else {
        let first = items[0];
        let rest = items.drop_first();
        let pre2 = pre + spec_str_bytes(first);
        let post2 = post;
        assert(bytes =~= pre + spec_str_bytes(first) + (spec_strings_bytes(rest) + post));
        assert(bytes =~= pre2 + spec_strings_bytes(rest) + post2);
        lemma_parse_string_of_encoding(pre, first, spec_strings_bytes(rest) + post);
        assert(spec_parse_string(bytes, pos) == Some((first, pos + spec_str_bytes(first).len())));
        lemma_parse_strings_of_encoding(pre2, rest, post2);
        assert(spec_parse_strings(bytes, pre2.len() as int, rest.len()) == Some(
            (rest, (pre2.len() + spec_strings_bytes(rest).len()) as int),
        ));
        assert(seq![first] + rest =~= items);
    }
}

/// Parsing an encoded range embedded in a larger buffer finds the range.
proof fn lemma_parse_range_of_encoding(pre: Seq<u8>, r: Range, post: Seq<u8>)
    ensures
        spec_parse_range(pre + spec_range_bytes(r) + post, pre.len() as int) == Some(
            (r, (pre.len() + 16) as int),
        ),
        spec_range_bytes(r).len() == 16,
{
    lemma_pow256_8();
    lemma_le_round_trip(r.start as nat, 8);
    lemma_le_round_trip(r.end as nat, 8);
    let bytes = pre + spec_range_bytes(r) + post;
    let pos = pre.len() as int;
    assert(bytes.subrange(pos, pos + 8) =~= spec_le_bytes(r.start as nat, 8));
    assert(bytes.subrange(pos + 8, pos + 16) =~= spec_le_bytes(r.end as nat, 8));
}

/// Parsing the concatenated encodings of `k` ranges finds them all.
proof fn lemma_parse_ranges_of_encoding(pre: Seq<u8>, rs: Seq<Range>, post: Seq<u8>)
    ensures
        spec_parse_ranges(pre + spec_ranges_bytes(rs) + post, pre.len() as int, rs.len())
            == Some((rs, (pre.len() + spec_ranges_bytes(rs).len()) as int)),
    decreases rs.len(),
{
    let bytes = pre + spec_ranges_bytes(rs) + post;
    let pos = pre.len() as int;
    if rs.len() == 0 {
        assert(spec_ranges_bytes(rs) =~= Seq::<u8>::empty());
        assert(spec_parse_ranges(bytes, pos, 0) == Some((Seq::<Range>::empty(), pos)));
        assert(rs =~= Seq::<Range>::empty());
    } else {
        let first = rs[0];
        let rest = rs.drop_first();
        let pre2 = pre + spec_range_bytes(first);
        assert(bytes =~= pre + spec_range_bytes(first) + (spec_ranges_bytes(rest) + post));
        assert(bytes =~= pre2 + spec_ranges_bytes(rest) + post);
        lemma_parse_range_of_encoding(pre, first, spec_ranges_bytes(rest) + post);
        lemma_parse_ranges_of_encoding(pre2, rest, post);
        assert(seq![first] + rest =~= rs);
    }
}

/// Body round trip for requests: deserializing the serialization of any
/// serializable request gives the request back.
pub proof fn lemma_request_round_trip(r: ReqV)
    requires
        request_serializable(r),
    ensures
        spec_deserialize_request(spec_serialize_request(r)) == Some(r),
{
    lemma_pow256_8();
    let bytes = spec_serialize_request(r);
    match r {
        ReqV::Add(t) => {
            lemma_le_round_trip(0, 4);
            assert(bytes =~= spec_le_bytes(0, 4) + spec_str_bytes(t) + Seq::<u8>::empty());
            assert(bytes.subrange(0, 4) =~= spec_le_bytes(0, 4));
            lemma_parse_string_of_encoding(spec_le_bytes(0, 4), t, Seq::empty());
        },
        ReqV::Check(t) => {
            lemma_le_round_trip(1, 4);
            assert(bytes =~= spec_le_bytes(1, 4) + spec_str_bytes(t) + Seq::<u8>::empty());
            assert(bytes.subrange(0, 4) =~= spec_le_bytes(1, 4));
            lemma_parse_string_of_encoding(spec_le_bytes(1, 4), t, Seq::empty());
        },
        ReqV::AddBatch(items) => {
            lemma_le_round_trip(2, 4);
            lemma_le_round_trip(items.len(), 8);
            let tag = spec_le_bytes(2, 4);
            let count = spec_le_bytes(items.len(), 8);
            assert(bytes =~= tag + count + spec_strings_bytes(items) + Seq::<u8>::empty());
            assert(bytes.subrange(0, 4) =~= tag);
            assert(bytes.subrange(4, 12) =~= count);
            lemma_parse_strings_of_encoding(tag + count, items, Seq::empty());
        },
        ReqV::GetBatch(rs) => {
            lemma_le_round_trip(3, 4);
            lemma_le_round_trip(rs.len(), 8);
            let tag = spec_le_bytes(3, 4);
            let count = spec_le_bytes(rs.len(), 8);
            assert(bytes =~= tag + count + spec_ranges_bytes(rs) + Seq::<u8>::empty());
            assert(bytes.subrange(0, 4) =~= tag);
            assert(bytes.subrange(4, 12) =~= count);
            lemma_parse_ranges_of_encoding(tag + count, rs, Seq::empty());
        },
        ReqV::DropBatch(rs) => {
            lemma_le_round_trip(4, 4);
            lemma_le_round_trip(rs.len(), 8);
            let tag = spec_le_bytes(4, 4);
            let count = spec_le_bytes(rs.len(), 8);
            assert(bytes =~= tag + count + spec_ranges_bytes(rs) + Seq::<u8>::empty());
            assert(bytes.subrange(0, 4) =~= tag);
            assert(bytes.subrange(4, 12) =~= count);
            lemma_parse_ranges_of_encoding(tag + count, rs, Seq::empty());
        },
    }
}

/// Body round trip for responses.
pub proof fn lemma_response_round_trip(r: RespV)
    requires
        response_serializable(r),
    ensures
        spec_deserialize_response(spec_serialize_response(r)) == Some(r),
{
    lemma_pow256_8();
    let bytes = spec_serialize_response(r);
    match r {
        RespV::String(t) => {
            lemma_le_round_trip(0, 4);
            assert(bytes =~= spec_le_bytes(0, 4) + spec_str_bytes(t) + Seq::<u8>::empty());
            assert(bytes.subrange(0, 4) =~= spec_le_bytes(0, 4));
            lemma_parse_string_of_encoding(spec_le_bytes(0, 4), t, Seq::empty());
        },
        RespV::Array(items) => {
            lemma_le_round_trip(1, 4);
            lemma_le_round_trip(items.len(), 8);
            let tag = spec_le_bytes(1, 4);
            let count = spec_le_bytes(items.len(), 8);
            assert(bytes =~= tag + count + spec_strings_bytes(items) + Seq::<u8>::empty());
            assert(bytes.subrange(0, 4) =~= tag);
            assert(bytes.subrange(4, 12) =~= count);
            lemma_parse_strings_of_encoding(tag + count, items, Seq::empty());
        },
        RespV::Bool(b) => {
            lemma_le_round_trip(2, 4);
            lemma_le_bytes_len(2, 4);
            assert(bytes.subrange(0, 4) =~= spec_le_bytes(2, 4));
            assert(bytes.len() == 5);
            assert(bytes[4] == if b { 1u8 } else { 0u8 });
        },
    }
}

/// Serializes a request and frames it, as the writer puts one message on
/// the wire: version `Request`, empty flags, stream 0, opcode `Query`. A
/// body too long for the 32-bit length field cannot be framed.
pub fn request_message_bytes(req: &Request) -> (r: Result<Vec<u8>, Error>)
    ensures
        ({
            let body = spec_serialize_request(req@);
            if body.len() <= u32::MAX {
                r matches Ok(bytes) && bytes@ == spec_encode_frame(
                    FrameV {
                        version: Version::Request,
                        flags: Flags::Empty,
                        stream: 0,
                        opcode: Opcode::Query,
                        length: body.len() as u32,
                        body: body,
                    },
                )
            } else {
                r matches Err(e) && e is InvalidRequestContent
            }
        }),
{
    let body = serialize_request(req);
    if (body.len() as u64) > 0xffff_ffffu64 {
        return Err(Error::InvalidRequestContent);
    }
    let length = body.len() as u32;
    let frame = Frame::new(Version::Request, None, None, Opcode::Query, length, body);
    match frame.encode() {
        Ok(bytes) => Ok(bytes),
        Err(_) => Err(Error::InvalidRequestContent),
    }
}

/// Serializes a response and frames it, as the writer puts one message on
/// the wire: version `Response`, empty flags, stream 0, opcode `Query`.
pub fn response_message_bytes(resp: &Response) -> (r: Result<Vec<u8>, Error>)
    ensures
        ({
            let body = spec_serialize_response(resp@);
            if body.len() <= u32::MAX {
                r matches Ok(bytes) && bytes@ == spec_encode_frame(
                    FrameV {
                        version: Version::Response,
                        flags: Flags::Empty,
                        stream: 0,
                        opcode: Opcode::Query,
                        length: body.len() as u32,
                        body: body,
                    },
                )
            } else {
                r matches Err(e) && e is InvalidRequestContent
            }
        }),
{
    let body = serialize_response(resp);
    if (body.len() as u64) > 0xffff_ffffu64 {
        return Err(Error::InvalidRequestContent);
    }
    let length = body.len() as u32;
    let frame = Frame::new(Version::Response, None, None, Opcode::Query, length, body);
    match frame.encode() {
        Ok(bytes) => Ok(bytes),
        Err(_) => Err(Error::InvalidRequestContent),
    }
}

/// The request carried by a received frame's body.
pub fn request_from_frame(frame: &Frame) -> (r: Result<Request, Error>)
    ensures
        match spec_deserialize_request(frame@.body) {
            Option::Some(rv) => r matches Ok(req) && req@ == rv,
            Option::None => r matches Err(e) && e is ParseError,
        },
{
    deserialize_request(frame.body.as_slice())
}

/// The response carried by a received frame's body.
pub fn response_from_frame(frame: &Frame) -> (r: Result<Response, Error>)
    ensures
        match spec_deserialize_response(frame@.body) {
            Option::Some(rv) => r matches Ok(resp) && resp@ == rv,
            Option::None => r matches Err(e) && e is ParseError,
        },
{
    deserialize_response(frame.body.as_slice())
}

} // verus!
