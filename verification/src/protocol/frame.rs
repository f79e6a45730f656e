//! The frame: a fixed 9-byte header followed by a body of `length` bytes.
//!
//! Layout: version (1 byte), flags (1 byte), stream (big-endian u16),
//! opcode (1 byte), length (big-endian u32), body (`length` bytes).

use vstd::prelude::*;
use crate::error::Error;

pub use crate::protocol::types::{Flags, Opcode, Version};

verus! {

/// A single wire frame.
#[derive(Debug, Clone)]
pub struct Frame {
    pub version: Version,
    pub flags: Flags,
    pub stream: u16,
    pub opcode: Opcode,
    pub length: u32,
    pub body: Vec<u8>,
}

/// The mathematical value of a [`Frame`].
pub struct FrameV {
    pub version: Version,
    pub flags: Flags,
    pub stream: u16,
    pub opcode: Opcode,
    pub length: u32,
    pub body: Seq<u8>,
}

impl View for Frame {
    type V = FrameV;

    open spec fn view(&self) -> FrameV {
        FrameV {
            version: self.version,
            flags: self.flags,
            stream: self.stream,
            opcode: self.opcode,
            length: self.length,
            body: self.body@,
        }
    }
}

/// A frame whose fields fit the wire layout: the length field equals the
/// body's length.
pub open spec fn frame_well_formed(f: FrameV) -> bool {
    f.length == f.body.len()
}

/// The two big-endian bytes of a 16-bit integer.
pub open spec fn spec_u16_be(x: u16) -> Seq<u8> {
    seq![(x / 0x100) as u8, (x % 0x100) as u8]
}

/// The four big-endian bytes of a 32-bit integer.
pub open spec fn spec_u32_be(x: u32) -> Seq<u8> {
    seq![
        (x / 0x100_0000) as u8,
        ((x / 0x1_0000) % 0x100) as u8,
        ((x / 0x100) % 0x100) as u8,
        (x % 0x100) as u8,
    ]
}

/// The 16-bit integer carried by two big-endian bytes.
pub open spec fn spec_u16_from_be(b0: u8, b1: u8) -> u16 {
    (b0 * 0x100 + b1) as u16
}

/// The 32-bit integer carried by four big-endian bytes.
pub open spec fn spec_u32_from_be(b0: u8, b1: u8, b2: u8, b3: u8) -> u32 {
    (((b0 * 0x100_0000) as u64 + (b1 * 0x1_0000) as u64 + (b2 * 0x100) as u64
        + b3 as u64)) as u32
}

/// The encoded bytes of a frame: the 9-byte header followed by the body.
pub open spec fn spec_encode_frame(f: FrameV) -> Seq<u8> {
    seq![f.version.as_byte(), f.flags.as_byte()] + spec_u16_be(f.stream) + seq![
        f.opcode.as_byte(),
    ] + spec_u32_be(f.length) + f.body
}

/// The frame carried by a byte buffer, if it holds one: a well-formed
/// 9-byte header followed by at least `length` body bytes. Trailing bytes
/// beyond the body are ignored, as a stream reader would leave them.
pub open spec fn spec_decode_frame(bytes: Seq<u8>) -> Option<FrameV> {
    if bytes.len() < 9 {
        None
    } else {
        let version = Version::spec_from_byte(bytes[0]);
        let flags = Flags::spec_from_byte(bytes[1]);
        let stream = spec_u16_from_be(bytes[2], bytes[3]);
        let opcode = Opcode::spec_from_byte(bytes[4]);
        let length = spec_u32_from_be(bytes[5], bytes[6], bytes[7], bytes[8]);
        if version is None || flags is None || opcode is None || bytes.len() < 9 + length {
            None
        } else {
            Some(
                FrameV {
                    version: version.unwrap(),
                    flags: flags.unwrap(),
                    stream: stream,
                    opcode: opcode.unwrap(),
                    length: length,
                    body: bytes.subrange(9, 9 + length as int),
                },
            )
        }
    }
}

impl Frame {
    /// Creates a new frame with the given parameters.
    ///
    /// Flags and stream are optional, defaulting to empty flags and stream 0.
    pub fn new(
        version: Version,
        flags: Option<Flags>,
        stream: Option<u16>,
        opcode: Opcode,
        length: u32,
        body: Vec<u8>,
    ) -> (f: Frame)
        ensures
            f@ == (FrameV {
                version,
                flags: if flags is Some { flags.unwrap() } else { Flags::Empty },
                stream: if stream is Some { stream.unwrap() } else { 0 },
                opcode,
                length,
                body: body@,
            }),
    {
        let flags = match flags {
            Some(fl) => fl,
            None => Flags::Empty,
        };
        let stream = match stream {
            Some(st) => st,
            None => 0,
        };
        Frame { version, flags, stream, opcode, length, body }
    }

    /// Encodes the frame into a vector of bytes, laid out exactly as
    /// [`spec_encode_frame`] describes. The `Result` never holds an error;
    /// the type is kept so that writers can propagate it uniformly.
    pub fn encode(self) -> (r: Result<Vec<u8>, std::io::Error>)
        ensures
            r is Ok,
            r matches Ok(bytes) ==> bytes@ == spec_encode_frame(self@),
    {
        let mut bytes: Vec<u8> = Vec::new();
        bytes.push(self.version.to_byte());
        bytes.push(self.flags.to_byte());
        bytes.push((self.stream / 0x100) as u8);
        bytes.push((self.stream % 0x100) as u8);
        bytes.push(self.opcode.to_byte());
        bytes.push((self.length / 0x100_0000) as u8);
        bytes.push(((self.length / 0x1_0000) % 0x100) as u8);
        bytes.push(((self.length / 0x100) % 0x100) as u8);
        bytes.push((self.length % 0x100) as u8);
        let mut body = self.body;
        bytes.append(&mut body);
        proof {
            assert(bytes@ =~= spec_encode_frame(self@));
        }
        Ok(bytes)
    }

    /// Reads the body length out of a frame header. The caller hands the
    /// first 9 bytes of a message; a shorter buffer is a connection fault.
    pub fn decode_length(header: &[u8]) -> (r: Result<u32, Error>)
        ensures
            header@.len() >= 9 ==> (r matches Ok(n) && n == spec_u32_from_be(
                header@[5],
                header@[6],
                header@[7],
                header@[8],
            )),
            header@.len() < 9 ==> (r matches Err(e) && e is ConnectionError),
    {
        if header.len() < 9 {
            return Err(Error::ConnectionError(None));
        }
        let b0 = *vstd::slice::slice_index_get(header, 5) as u64;
        let b1 = *vstd::slice::slice_index_get(header, 6) as u64;
        let b2 = *vstd::slice::slice_index_get(header, 7) as u64;
        let b3 = *vstd::slice::slice_index_get(header, 8) as u64;
        Ok((b0 * 0x100_0000 + b1 * 0x1_0000 + b2 * 0x100 + b3) as u32)
    }

    /// Decodes a frame from a byte buffer holding a complete message,
    /// exactly as [`spec_decode_frame`] describes: an unknown version,
    /// flags or opcode byte, or a buffer shorter than the header plus the
    /// announced body, is a fatal protocol error.
    pub fn decode(bytes: &[u8]) -> (r: Result<Frame, Error>)
        ensures
            match spec_decode_frame(bytes@) {
                Some(fv) => r matches Ok(f) && f@ == fv,
                None => r matches Err(e) && e is ParseError,
            },
    {
        if bytes.len() < 9 {
            return Err(Error::ParseError);
        }
        let version = match Version::from_byte(*vstd::slice::slice_index_get(bytes, 0)) {
            Some(v) => v,
            None => {
                return Err(Error::ParseError);
            },
        };
        let flags = match Flags::from_byte(*vstd::slice::slice_index_get(bytes, 1)) {
            Some(f) => f,
            None => {
                return Err(Error::ParseError);
            },
        };
        let s0 = *vstd::slice::slice_index_get(bytes, 2) as u32;
        let s1 = *vstd::slice::slice_index_get(bytes, 3) as u32;
        let stream = (s0 * 0x100 + s1) as u16;
        let opcode = match Opcode::from_byte(*vstd::slice::slice_index_get(bytes, 4)) {
            Some(o) => o,
            None => {
                return Err(Error::ParseError);
            },
        };
        let b0 = *vstd::slice::slice_index_get(bytes, 5) as u64;
        let b1 = *vstd::slice::slice_index_get(bytes, 6) as u64;
        let b2 = *vstd::slice::slice_index_get(bytes, 7) as u64;
        let b3 = *vstd::slice::slice_index_get(bytes, 8) as u64;
        let length = (b0 * 0x100_0000 + b1 * 0x1_0000 + b2 * 0x100 + b3) as u32;
        if ((bytes.len() - 9) as u64) < (length as u64) {
            return Err(Error::ParseError);
        }
        let body_slice = vstd::slice::slice_subrange(bytes, 9, 9 + length as usize);
        let body = vstd::slice::slice_to_vec(body_slice);
        Ok(Frame { version, flags, stream, opcode, length, body })
    }
}

/// Frame round trip: decoding the encoding of any well-formed frame gives
/// the frame back.
pub proof fn lemma_frame_round_trip(f: FrameV)
    requires
        frame_well_formed(f),
    ensures
        spec_decode_frame(spec_encode_frame(f)) == Some(f),
{
    let bytes = spec_encode_frame(f);
    assert(bytes.len() == 9 + f.body.len());
    assert(bytes[0] == f.version.as_byte());
    assert(bytes[1] == f.flags.as_byte());
    assert(bytes[2] == (f.stream / 0x100) as u8);
    assert(bytes[3] == (f.stream % 0x100) as u8);
    assert(bytes[4] == f.opcode.as_byte());
    assert(bytes[5] == (f.length / 0x100_0000) as u8);
    assert(bytes[6] == ((f.length / 0x1_0000) % 0x100) as u8);
    assert(bytes[7] == ((f.length / 0x100) % 0x100) as u8);
    assert(bytes[8] == (f.length % 0x100) as u8);
    assert(Version::spec_from_byte(f.version.as_byte()) == Some(f.version));
    assert(Flags::spec_from_byte(f.flags.as_byte()) == Some(f.flags));
    assert(Opcode::spec_from_byte(f.opcode.as_byte()) == Some(f.opcode));
    assert(spec_u16_from_be((f.stream / 0x100) as u8, (f.stream % 0x100) as u8)
        == f.stream);
    assert(spec_u32_from_be(
        (f.length / 0x100_0000) as u8,
        ((f.length / 0x1_0000) % 0x100) as u8,
        ((f.length / 0x100) % 0x100) as u8,
        (f.length % 0x100) as u8,
    ) == f.length);
    assert(bytes.subrange(9, 9 + f.length as int) =~= f.body);
}

} // verus!
