//! Binary framing of the streaming protocol.
//!
//! Frames are maps from field-name strings to values, written in a compact
//! tagged binary form: small unsigned integers inline (one byte below 128,
//! else a width tag and big-endian bytes), strings as a length-tagged header
//! followed by UTF-8 bytes, byte strings likewise, and `nil` for an absent
//! optional value. The encoding of every frame kind is defined by a spec
//! function; the executable encoders and decoders are proved against them,
//! and decoding inverts encoding.

use vstd::prelude::*;

verus! {

use vstd::utf8::{encode_utf8, decode_utf8, valid_utf8};
use crate::protocol::{
    Message,
    MessageView,
    MessageType,
    DataMessage,
    DataMessageView,
    ControlMessageView,
    SampleRequestView,
    ErrorMessage,
    ErrorMessageView,
};

/// Tag for an absent optional value.
pub const TAG_NIL: u8 = 0xc0;

/// Largest length a string or byte string may carry on the wire.
pub const WIRE_LEN_LIMIT: u64 = 0x1_0000_0000;

/// An unsigned integer in its shortest form: one bare byte below 128, else a
/// width tag (`0xcc`/`0xcd`/`0xce`/`0xcf`) and the value big-endian.
pub open spec fn enc_uint(n: u64) -> Seq<u8> {
    if n < 0x80 {
        seq![n as u8]
    } else if n < 0x100 {
        seq![0xccu8, n as u8]
    } else if n < 0x1_0000 {
        seq![0xcdu8, (n >> 8) as u8, n as u8]
    } else if n < 0x1_0000_0000 {
        seq![0xceu8, (n >> 24) as u8, (n >> 16) as u8, (n >> 8) as u8, n as u8]
    } else {
        seq![
            0xcfu8,
            (n >> 56) as u8,
            (n >> 48) as u8,
            (n >> 40) as u8,
            (n >> 32) as u8,
            (n >> 24) as u8,
            (n >> 16) as u8,
            (n >> 8) as u8,
            n as u8,
        ]
    }
}

/// Header of a string of `len` UTF-8 bytes: `0xa0 | len` below 32, else a
/// width tag (`0xd9`/`0xda`/`0xdb`) and the length big-endian.
pub open spec fn str_hdr(len: u64) -> Seq<u8> {
    if len < 32 {
        seq![(0xa0 + len) as u8]
    } else if len < 0x100 {
        seq![0xd9u8, len as u8]
    } else if len < 0x1_0000 {
        seq![0xdau8, (len >> 8) as u8, len as u8]
    } else {
        seq![0xdbu8, (len >> 24) as u8, (len >> 16) as u8, (len >> 8) as u8, len as u8]
    }
}

/// A string: its header, then its UTF-8 bytes.
pub open spec fn enc_str(s: Seq<char>) -> Seq<u8> {
    str_hdr(encode_utf8(s).len() as u64) + encode_utf8(s)
}

/// Header of a byte string of `len` bytes: a width tag
/// (`0xc4`/`0xc5`/`0xc6`) and the length big-endian.
pub open spec fn bin_hdr(len: u64) -> Seq<u8> {
    if len < 0x100 {
        seq![0xc4u8, len as u8]
    } else if len < 0x1_0000 {
        seq![0xc5u8, (len >> 8) as u8, len as u8]
    } else {
        seq![0xc6u8, (len >> 24) as u8, (len >> 16) as u8, (len >> 8) as u8, len as u8]
    }
}

/// A byte string: its header, then its bytes.
pub open spec fn enc_bin(b: Seq<u8>) -> Seq<u8> {
    bin_hdr(b.len() as u64) + b
}

/// `s` fits the wire's length limit for strings.
pub open spec fn str_fits(s: Seq<char>) -> bool {
    encode_utf8(s).len() < WIRE_LEN_LIMIT
}

/// `b` fits the wire's length limit for byte strings.
pub open spec fn bin_fits(b: Seq<u8>) -> bool {
    b.len() < WIRE_LEN_LIMIT
}

// Field names, already encoded as short strings.
pub open spec fn key_type() -> Seq<u8> {
    seq![0xa4u8, 0x74, 0x79, 0x70, 0x65]
}

pub open spec fn key_id() -> Seq<u8> {
    seq![0xa2u8, 0x69, 0x64]
}

pub open spec fn key_timestamp() -> Seq<u8> {
    seq![0xa9u8, 0x74, 0x69, 0x6d, 0x65, 0x73, 0x74, 0x61, 0x6d, 0x70]
}

pub open spec fn key_payload() -> Seq<u8> {
    seq![0xa7u8, 0x70, 0x61, 0x79, 0x6c, 0x6f, 0x61, 0x64]
}

pub open spec fn key_offset() -> Seq<u8> {
    seq![0xa6u8, 0x6f, 0x66, 0x66, 0x73, 0x65, 0x74]
}

pub open spec fn key_total() -> Seq<u8> {
    seq![0xa5u8, 0x74, 0x6f, 0x74, 0x61, 0x6c]
}

pub open spec fn key_chunk() -> Seq<u8> {
    seq![0xa5u8, 0x63, 0x68, 0x75, 0x6e, 0x6b]
}

pub open spec fn key_command() -> Seq<u8> {
    seq![0xa7u8, 0x63, 0x6f, 0x6d, 0x6d, 0x61, 0x6e, 0x64]
}

pub open spec fn key_params() -> Seq<u8> {
    seq![0xa6u8, 0x70, 0x61, 0x72, 0x61, 0x6d, 0x73]
}

pub open spec fn key_sample_size() -> Seq<u8> {
    seq![0xabu8, 0x73, 0x61, 0x6d, 0x70, 0x6c, 0x65, 0x5f, 0x73, 0x69, 0x7a, 0x65]
}

pub open spec fn key_method() -> Seq<u8> {
    seq![0xa6u8, 0x6d, 0x65, 0x74, 0x68, 0x6f, 0x64]
}

pub open spec fn key_code() -> Seq<u8> {
    seq![0xa4u8, 0x63, 0x6f, 0x64, 0x65]
}

pub open spec fn key_message() -> Seq<u8> {
    seq![0xa7u8, 0x6d, 0x65, 0x73, 0x73, 0x61, 0x67, 0x65]
}

pub open spec fn key_details() -> Seq<u8> {
    seq![0xa7u8, 0x64, 0x65, 0x74, 0x61, 0x69, 0x6c, 0x73]
}

/// The three frame tags, as encoded strings.
pub open spec fn enc_msgtype(t: MessageType) -> Seq<u8> {
    match t {
        MessageType::Data => seq![0xa4u8, 0x64, 0x61, 0x74, 0x61],
        MessageType::Control => seq![0xa7u8, 0x63, 0x6f, 0x6e, 0x74, 0x72, 0x6f, 0x6c],
        MessageType::Error => seq![0xa5u8, 0x65, 0x72, 0x72, 0x6f, 0x72],
    }
}

/// An optional already-serialized value: `nil` when absent, the raw bytes
/// when present.
pub open spec fn enc_opt_raw(p: Option<Seq<u8>>) -> Seq<u8> {
    match p {
        None => seq![TAG_NIL],
        Some(raw) => raw,
    }
}

/// The envelope: a four-entry map `{type, id, timestamp, payload}`.
pub open spec fn spec_encode_message(m: MessageView) -> Seq<u8> {
    seq![0x84u8] + key_type() + enc_msgtype(m.type_field) + key_id() + enc_str(m.id)
        + key_timestamp() + enc_uint(m.timestamp) + key_payload() + enc_bin(m.payload)
}

/// A data payload: a three-entry map `{offset, total, chunk}`.
pub open spec fn spec_encode_data(d: DataMessageView) -> Seq<u8> {
    seq![0x83u8] + key_offset() + enc_uint(d.offset as u64) + key_total() + enc_uint(
        d.total as u64,
    ) + key_chunk() + enc_bin(d.chunk)
}

/// A control payload: a two-entry map `{command, params}`, `params` either
/// `nil` or a serialized value running to the end of the payload.
pub open spec fn spec_encode_control(c: ControlMessageView) -> Seq<u8> {
    seq![0x82u8] + key_command() + enc_str(c.command) + key_params() + enc_opt_raw(c.params)
}

/// Sample-request parameters: `{sample_size}` alone or `{sample_size, method}`
/// with `method` a string or `nil`.
pub open spec fn spec_encode_sample_request(r: SampleRequestView) -> Seq<u8> {
    match r.method {
        None => seq![0x82u8] + key_sample_size() + enc_uint(r.sample_size as u64) + key_method()
            + seq![TAG_NIL],
        Some(m) => seq![0x82u8] + key_sample_size() + enc_uint(r.sample_size as u64) + key_method()
            + enc_str(m),
    }
}

/// An error payload: a three-entry map `{code, message, details}`.
pub open spec fn spec_encode_error(e: ErrorMessageView) -> Seq<u8> {
    seq![0x83u8] + key_code() + enc_uint(e.code as u64) + key_message() + enc_str(e.message)
        + key_details() + enc_opt_raw(e.details)
}

/// Consume an expected byte sequence, or fail.
pub open spec fn parse_exact(b: Seq<u8>, prefix: Seq<u8>) -> Option<Seq<u8>> {
    if prefix.len() <= b.len() && b.take(prefix.len() as int) == prefix {
        Some(b.skip(prefix.len() as int))
    } else {
        None
    }
}

/// Read an unsigned integer in any of its tagged forms.
pub open spec fn parse_uint(b: Seq<u8>) -> Option<(u64, Seq<u8>)> {
    if b.len() >= 1 && b[0] < 0x80 {
        Some((b[0] as u64, b.skip(1)))
    } else if b.len() >= 2 && b[0] == 0xcc {
        Some((b[1] as u64, b.skip(2)))
    } else if b.len() >= 3 && b[0] == 0xcd {
        Some((((b[1] as u64) << 8) | (b[2] as u64), b.skip(3)))
    } else if b.len() >= 5 && b[0] == 0xce {
        Some(
            (
                ((b[1] as u64) << 24) | ((b[2] as u64) << 16) | ((b[3] as u64) << 8) | (
                b[4] as u64),
                b.skip(5),
            ),
        )
    } else if b.len() >= 9 && b[0] == 0xcf {
        Some(
            (
                ((b[1] as u64) << 56) | ((b[2] as u64) << 48) | ((b[3] as u64) << 40) | ((
                b[4] as u64) << 32) | ((b[5] as u64) << 24) | ((b[6] as u64) << 16) | ((
                b[7] as u64) << 8) | (b[8] as u64),
                b.skip(9),
            ),
        )
    } else {
        None
    }
}

/// Read a string header, yielding the byte length of the string.
pub open spec fn parse_str_hdr(b: Seq<u8>) -> Option<(u64, Seq<u8>)> {
    if b.len() >= 1 && 0xa0 <= b[0] && b[0] < 0xc0 {
        Some(((b[0] - 0xa0) as u64, b.skip(1)))
    } else if b.len() >= 2 && b[0] == 0xd9 {
        Some((b[1] as u64, b.skip(2)))
    } else if b.len() >= 3 && b[0] == 0xda {
        Some((((b[1] as u64) << 8) | (b[2] as u64), b.skip(3)))
    } else if b.len() >= 5 && b[0] == 0xdb {
        Some(
            (
                ((b[1] as u64) << 24) | ((b[2] as u64) << 16) | ((b[3] as u64) << 8) | (
                b[4] as u64),
                b.skip(5),
            ),
        )
    } else {
        None
    }
}

/// Read a string: header, then that many bytes, which must be valid UTF-8.
pub open spec fn parse_str(b: Seq<u8>) -> Option<(Seq<char>, Seq<u8>)> {
    match parse_str_hdr(b) {
        None => None,
        Some((len, rest)) => {
            if rest.len() >= len && valid_utf8(rest.take(len as int)) {
                Some((decode_utf8(rest.take(len as int)), rest.skip(len as int)))
            } else {
                None
            }
        },
    }
}

/// Read a byte-string header, yielding the length.
pub open spec fn parse_bin_hdr(b: Seq<u8>) -> Option<(u64, Seq<u8>)> {
    if b.len() >= 2 && b[0] == 0xc4 {
        Some((b[1] as u64, b.skip(2)))
    } else if b.len() >= 3 && b[0] == 0xc5 {
        Some((((b[1] as u64) << 8) | (b[2] as u64), b.skip(3)))
    } else if b.len() >= 5 && b[0] == 0xc6 {
        Some(
            (
                ((b[1] as u64) << 24) | ((b[2] as u64) << 16) | ((b[3] as u64) << 8) | (
                b[4] as u64),
                b.skip(5),
            ),
        )
    } else {
        None
    }
}

/// Read a byte string: header, then that many bytes.
pub open spec fn parse_bin(b: Seq<u8>) -> Option<(Seq<u8>, Seq<u8>)> {
    match parse_bin_hdr(b) {
        None => None,
        Some((len, rest)) => {
            if rest.len() >= len {
                Some((rest.take(len as int), rest.skip(len as int)))
            } else {
                None
            }
        },
    }
}

/// Read a frame-type tag.
pub open spec fn parse_msgtype(b: Seq<u8>) -> Option<(MessageType, Seq<u8>)> {
    match parse_exact(b, enc_msgtype(MessageType::Data)) {
        Some(r) => Some((MessageType::Data, r)),
        None => match parse_exact(b, enc_msgtype(MessageType::Control)) {
            Some(r) => Some((MessageType::Control, r)),
            None => match parse_exact(b, enc_msgtype(MessageType::Error)) {
                Some(r) => Some((MessageType::Error, r)),
                None => None,
            },
        },
    }
}

/// Parse a whole frame envelope; the frame must hold exactly one map
/// `{type, id, timestamp, payload}` and nothing after it.
pub open spec fn parse_message(b: Seq<u8>) -> Option<MessageView> {
    match parse_exact(b, seq![0x84u8] + key_type()) {
        None => None,
        Some(r1) => match parse_msgtype(r1) {
            None => None,
            Some((t, r2)) => match parse_exact(r2, key_id()) {
                None => None,
                Some(r3) => match parse_str(r3) {
                    None => None,
                    Some((id, r4)) => match parse_exact(r4, key_timestamp()) {
                        None => None,
                        Some(r5) => match parse_uint(r5) {
                            None => None,
                            Some((ts, r6)) => match parse_exact(r6, key_payload()) {
                                None => None,
                                Some(r7) => match parse_bin(r7) {
                                    None => None,
                                    Some((payload, r8)) => {
                                        if r8.len() == 0 {
                                            Some(
                                                MessageView {
                                                    type_field: t,
                                                    id: id,
                                                    timestamp: ts,
                                                    payload: payload,
                                                },
                                            )
                                        } else {
                                            None
                                        }
                                    },
                                },
                            },
                        },
                    },
                },
            },
        },
    }
}

/// Parse a control payload: `{command, params}` where `params` is `nil` for
/// an absent value or the serialized value running to the end of the payload.
pub open spec fn parse_control(b: Seq<u8>) -> Option<ControlMessageView> {
    match parse_exact(b, seq![0x82u8] + key_command()) {
        None => None,
        Some(r1) => match parse_str(r1) {
            None => None,
            Some((command, r2)) => match parse_exact(r2, key_params()) {
                None => None,
                Some(rest) => {
                    if rest.len() == 0 {
                        None
                    } else if rest == seq![TAG_NIL] {
                        Some(ControlMessageView { command, params: None })
                    } else {
                        Some(ControlMessageView { command, params: Some(rest) })
                    }
                },
            },
        },
    }
}

/// Parse sample-request parameters: a map holding `sample_size` and, in its
/// two-entry form, `method` as a string or `nil`.
pub open spec fn parse_sample_request(b: Seq<u8>) -> Option<SampleRequestView> {
    if b.len() >= 1 && b[0] == 0x81 {
        match parse_exact(b.skip(1), key_sample_size()) {
            None => None,
            Some(r1) => match parse_uint(r1) {
                None => None,
                Some((n, rest)) => {
                    if rest.len() == 0 && n <= usize::MAX as u64 {
                        Some(SampleRequestView { sample_size: n as usize, method: None })
                    } else {
                        None
                    }
                },
            },
        }
    } else if b.len() >= 1 && b[0] == 0x82 {
        match parse_exact(b.skip(1), key_sample_size()) {
            None => None,
            Some(r1) => match parse_uint(r1) {
                None => None,
                Some((n, r2)) => {
                    if n <= usize::MAX as u64 {
                        match parse_exact(r2, key_method()) {
                            None => None,
                            Some(r3) => {
                                if r3 == seq![TAG_NIL] {
                                    Some(
                                        SampleRequestView { sample_size: n as usize, method: None },
                                    )
                                } else {
                                    match parse_str(r3) {
                                        None => None,
                                        Some((m, r4)) => {
                                            if r4.len() == 0 {
                                                Some(
                                                    SampleRequestView {
                                                        sample_size: n as usize,
                                                        method: Some(m),
                                                    },
                                                )
                                            } else {
                                                None
                                            }
                                        },
                                    }
                                }
                            },
                        }
                    } else {
                        None
                    }
                },
            },
        }
    } else {
        None
    }
}

/// Parse a data payload: `{offset, total, chunk}` with nothing after it.
pub open spec fn parse_data(b: Seq<u8>) -> Option<DataMessageView> {
    match parse_exact(b, seq![0x83u8] + key_offset()) {
        None => None,
        Some(r1) => match parse_uint(r1) {
            None => None,
            Some((off, r2)) => match parse_exact(r2, key_total()) {
                None => None,
                Some(r3) => match parse_uint(r3) {
                    None => None,
                    Some((tot, r4)) => match parse_exact(r4, key_chunk()) {
                        None => None,
                        Some(r5) => match parse_bin(r5) {
                            None => None,
                            Some((chunk, r6)) => {
                                if r6.len() == 0 && off <= usize::MAX as u64 && tot <= usize::MAX
                                    as u64 {
                                    Some(
                                        DataMessageView {
                                            offset: off as usize,
                                            total: tot as usize,
                                            chunk,
                                        },
                                    )
                                } else {
                                    None
                                }
                            },
                        },
                    },
                },
            },
        },
    }
}

/// Relies on `String::from_utf8`: it succeeds exactly on valid UTF-8 and
/// yields the string those bytes encode.
#[verifier::external_body]
fn bytes_to_string(b: Vec<u8>) -> (r: Option<String>)
    ensures
        match r {
            Some(s) => valid_utf8(b@) && s@ == decode_utf8(b@),
            None => !valid_utf8(b@),
        },
{
    match String::from_utf8(b) {
        Ok(s) => Some(s),
        Err(_) => None,
    }
}

proof fn lemma_skip_skip(b: Seq<u8>, p: int, q: int)
    requires
        0 <= p,
        0 <= q,
        p + q <= b.len(),
    ensures
        b.skip(p).skip(q) == b.skip(p + q),
{
    assert(b.skip(p).skip(q) =~= b.skip(p + q));
}

/// Match an expected byte sequence at `pos`.
fn read_exact(buf: &[u8], pos: usize, prefix: &[u8]) -> (r: Option<usize>)
    requires
        pos <= buf@.len(),
    ensures
        match r {
            Some(p2) => {
                &&& p2 == pos + prefix@.len()
                &&& p2 <= buf@.len()
                &&& parse_exact(buf@.skip(pos as int), prefix@) == Some(buf@.skip(p2 as int))
            },
            None => parse_exact(buf@.skip(pos as int), prefix@) is None,
        },
{
    let ghost tail = buf@.skip(pos as int);
    let n = prefix.len();
    if buf.len() - pos < n {
        return None;
    }
    let mut i: usize = 0;
    while i < n
        invariant
            pos + n <= buf@.len() <= usize::MAX,
            n == prefix@.len(),
            0 <= i <= n,
            tail == buf@.skip(pos as int),
            forall|j: int| 0 <= j < i ==> tail[j] == prefix@[j],
        decreases n - i,
    {
        let a = *vstd::slice::slice_index_get(buf, pos + i);
        let e = *vstd::slice::slice_index_get(prefix, i);
        proof {
            assert(tail[i as int] == buf@[pos + i]);
        }
        if a != e {
            proof {
                if parse_exact(tail, prefix@) is Some {
                    assert(tail.take(n as int) == prefix@);
                    assert(tail.take(n as int)[i as int] == tail[i as int]);
                }
            }
            return None;
        }
        i = i + 1;
    }
    proof {
        assert(tail.take(n as int) =~= prefix@);
        lemma_skip_skip(buf@, pos as int, n as int);
    }
    Some(pos + n)
}

/// Read an unsigned integer at `pos`.
fn read_uint(buf: &[u8], pos: usize) -> (r: Option<(u64, usize)>)
    requires
        pos <= buf@.len(),
    ensures
        match r {
            Some(vp) => {
                &&& pos < vp.1 <= buf@.len()
                &&& parse_uint(buf@.skip(pos as int)) == Some((vp.0, buf@.skip(vp.1 as int)))
            },
            None => parse_uint(buf@.skip(pos as int)) is None,
        },
{
    let ghost tail = buf@.skip(pos as int);
    let remaining = buf.len() - pos;
    if remaining < 1 {
        return None;
    }
    let b0 = *vstd::slice::slice_index_get(buf, pos);
    proof {
        assert(tail[0] == b0);
    }
    if b0 < 0x80 {
        proof {
            lemma_skip_skip(buf@, pos as int, 1);
        }
        return Some((b0 as u64, pos + 1));
    }
    if b0 == 0xcc {
        if remaining < 2 {
            return None;
        }
        let b1 = *vstd::slice::slice_index_get(buf, pos + 1);
        proof {
            assert(tail[1] == b1);
            lemma_skip_skip(buf@, pos as int, 2);
        }
        return Some((b1 as u64, pos + 2));
    }
    if b0 == 0xcd {
        if remaining < 3 {
            return None;
        }
        let b1 = *vstd::slice::slice_index_get(buf, pos + 1);
        let b2 = *vstd::slice::slice_index_get(buf, pos + 2);
        proof {
            assert(tail[1] == b1 && tail[2] == b2);
            lemma_skip_skip(buf@, pos as int, 3);
        }
        return Some((((b1 as u64) << 8u64) | (b2 as u64), pos + 3));
    }
    if b0 == 0xce {
        if remaining < 5 {
            return None;
        }
        let b1 = *vstd::slice::slice_index_get(buf, pos + 1);
        let b2 = *vstd::slice::slice_index_get(buf, pos + 2);
        let b3 = *vstd::slice::slice_index_get(buf, pos + 3);
        let b4 = *vstd::slice::slice_index_get(buf, pos + 4);
        proof {
            assert(tail[1] == b1 && tail[2] == b2 && tail[3] == b3 && tail[4] == b4);
            lemma_skip_skip(buf@, pos as int, 5);
        }
        return Some(
            (
                ((b1 as u64) << 24u64) | ((b2 as u64) << 16u64) | ((b3 as u64) << 8u64) | (
                b4 as u64),
                pos + 5,
            ),
        );
    }
    if b0 == 0xcf {
        if remaining < 9 {
            return None;
        }
        let b1 = *vstd::slice::slice_index_get(buf, pos + 1);
        let b2 = *vstd::slice::slice_index_get(buf, pos + 2);
        let b3 = *vstd::slice::slice_index_get(buf, pos + 3);
        let b4 = *vstd::slice::slice_index_get(buf, pos + 4);
        let b5 = *vstd::slice::slice_index_get(buf, pos + 5);
        let b6 = *vstd::slice::slice_index_get(buf, pos + 6);
        let b7 = *vstd::slice::slice_index_get(buf, pos + 7);
        let b8 = *vstd::slice::slice_index_get(buf, pos + 8);
        proof {
            assert(tail[1] == b1 && tail[2] == b2 && tail[3] == b3 && tail[4] == b4);
            assert(tail[5] == b5 && tail[6] == b6 && tail[7] == b7 && tail[8] == b8);
            lemma_skip_skip(buf@, pos as int, 9);
        }
        return Some(
            (
                ((b1 as u64) << 56u64) | ((b2 as u64) << 48u64) | ((b3 as u64) << 40u64) | ((
                b4 as u64) << 32u64) | ((b5 as u64) << 24u64) | ((b6 as u64) << 16u64) | ((
                b7 as u64) << 8u64) | (b8 as u64),
                pos + 9,
            ),
        );
    }
    None
}

/// Read a string at `pos`.
fn read_str(buf: &[u8], pos: usize) -> (r: Option<(String, usize)>)
    requires
        pos <= buf@.len(),
    ensures
        match r {
            Some(sp) => {
                &&& pos < sp.1 <= buf@.len()
                &&& parse_str(buf@.skip(pos as int)) == Some((sp.0@, buf@.skip(sp.1 as int)))
            },
            None => parse_str(buf@.skip(pos as int)) is None,
        },
{
    let ghost tail = buf@.skip(pos as int);
    let remaining = buf.len() - pos;
    if remaining < 1 {
        return None;
    }
    let b0 = *vstd::slice::slice_index_get(buf, pos);
    proof {
        assert(tail[0] == b0);
    }
    let len: u64;
    let hpos: usize;
    if 0xa0 <= b0 && b0 < 0xc0 {
        len = (b0 - 0xa0) as u64;
        hpos = pos + 1;
        proof {
            lemma_skip_skip(buf@, pos as int, 1);
        }
    } else if b0 == 0xd9 {
        if remaining < 2 {
            return None;
        }
        let b1 = *vstd::slice::slice_index_get(buf, pos + 1);
        proof {
            assert(tail[1] == b1);
            lemma_skip_skip(buf@, pos as int, 2);
        }
        len = b1 as u64;
        hpos = pos + 2;
    } else if b0 == 0xda {
        if remaining < 3 {
            return None;
        }
        let b1 = *vstd::slice::slice_index_get(buf, pos + 1);
        let b2 = *vstd::slice::slice_index_get(buf, pos + 2);
        proof {
            assert(tail[1] == b1 && tail[2] == b2);
            lemma_skip_skip(buf@, pos as int, 3);
        }
        len = ((b1 as u64) << 8u64) | (b2 as u64);
        hpos = pos + 3;
    } else if b0 == 0xdb {
        if remaining < 5 {
            return None;
        }
        let b1 = *vstd::slice::slice_index_get(buf, pos + 1);
        let b2 = *vstd::slice::slice_index_get(buf, pos + 2);
        let b3 = *vstd::slice::slice_index_get(buf, pos + 3);
        let b4 = *vstd::slice::slice_index_get(buf, pos + 4);
        proof {
            assert(tail[1] == b1 && tail[2] == b2 && tail[3] == b3 && tail[4] == b4);
            lemma_skip_skip(buf@, pos as int, 5);
        }
        len = ((b1 as u64) << 24u64) | ((b2 as u64) << 16u64) | ((b3 as u64) << 8u64) | (
        b4 as u64);
        hpos = pos + 5;
    } else {
        return None;
    }
    proof {
        assert(parse_str_hdr(tail) == Some((len, buf@.skip(hpos as int))));
    }
    let rem2 = buf.len() - hpos;
    if (rem2 as u64) < len {
        return None;
    }
    let len_us = len as usize;
    let body = vstd::slice::slice_subrange(buf, hpos, hpos + len_us);
    let bv = vstd::slice::slice_to_vec(body);
    let ghost rest = buf@.skip(hpos as int);
    proof {
        assert(rest.take(len as int) =~= buf@.subrange(hpos as int, hpos + len_us as int));
        lemma_skip_skip(buf@, hpos as int, len as int);
        assert(rest.skip(len as int) == buf@.skip(hpos + len_us as int));
    }
    match bytes_to_string(bv) {
        Some(s) => Some((s, hpos + len_us)),
        None => None,
    }
}

/// Read a byte string at `pos`.
fn read_bin(buf: &[u8], pos: usize) -> (r: Option<(Vec<u8>, usize)>)
    requires
        pos <= buf@.len(),
    ensures
        match r {
            Some(bp) => {
                &&& pos < bp.1 <= buf@.len()
                &&& parse_bin(buf@.skip(pos as int)) == Some((bp.0@, buf@.skip(bp.1 as int)))
            },
            None => parse_bin(buf@.skip(pos as int)) is None,
        },
{
    let ghost tail = buf@.skip(pos as int);
    let remaining = buf.len() - pos;
    if remaining < 1 {
        return None;
    }
    let b0 = *vstd::slice::slice_index_get(buf, pos);
    proof {
        assert(tail[0] == b0);
    }
    let len: u64;
    let hpos: usize;
    if b0 == 0xc4 {
        if remaining < 2 {
            return None;
        }
        let b1 = *vstd::slice::slice_index_get(buf, pos + 1);
        proof {
            assert(tail[1] == b1);
            lemma_skip_skip(buf@, pos as int, 2);
        }
        len = b1 as u64;
        hpos = pos + 2;
    } else if b0 == 0xc5 {
        if remaining < 3 {
            return None;
        }
        let b1 = *vstd::slice::slice_index_get(buf, pos + 1);
        let b2 = *vstd::slice::slice_index_get(buf, pos + 2);
        proof {
            assert(tail[1] == b1 && tail[2] == b2);
            lemma_skip_skip(buf@, pos as int, 3);
        }
        len = ((b1 as u64) << 8u64) | (b2 as u64);
        hpos = pos + 3;
    } else if b0 == 0xc6 {
        if remaining < 5 {
            return None;
        }
        let b1 = *vstd::slice::slice_index_get(buf, pos + 1);
        let b2 = *vstd::slice::slice_index_get(buf, pos + 2);
        let b3 = *vstd::slice::slice_index_get(buf, pos + 3);
        let b4 = *vstd::slice::slice_index_get(buf, pos + 4);
        proof {
            assert(tail[1] == b1 && tail[2] == b2 && tail[3] == b3 && tail[4] == b4);
            lemma_skip_skip(buf@, pos as int, 5);
        }
        len = ((b1 as u64) << 24u64) | ((b2 as u64) << 16u64) | ((b3 as u64) << 8u64) | (
        b4 as u64);
        hpos = pos + 5;
    } else {
        return None;
    }
    proof {
        assert(parse_bin_hdr(tail) == Some((len, buf@.skip(hpos as int))));
    }
    let rem2 = buf.len() - hpos;
    if (rem2 as u64) < len {
        return None;
    }
    let len_us = len as usize;
    let body = vstd::slice::slice_subrange(buf, hpos, hpos + len_us);
    let bv = vstd::slice::slice_to_vec(body);
    let ghost rest = buf@.skip(hpos as int);
    proof {
        assert(rest.take(len as int) =~= buf@.subrange(hpos as int, hpos + len_us as int));
        lemma_skip_skip(buf@, hpos as int, len as int);
    }
    Some((bv, hpos + len_us))
}

/// Read a frame-type tag at `pos`.
fn read_msgtype(buf: &[u8], pos: usize) -> (r: Option<(MessageType, usize)>)
    requires
        pos <= buf@.len(),
    ensures
        match r {
            Some(tp) => {
                &&& pos < tp.1 <= buf@.len()
                &&& parse_msgtype(buf@.skip(pos as int)) == Some((tp.0, buf@.skip(tp.1 as int)))
            },
            None => parse_msgtype(buf@.skip(pos as int)) is None,
        },
{
    let kd = vec![0xa4u8, 0x64, 0x61, 0x74, 0x61];
    proof {
        assert(kd@ =~= enc_msgtype(MessageType::Data));
    }
    match read_exact(buf, pos, kd.as_slice()) {
        Some(p2) => {
            return Some((MessageType::Data, p2));
        },
        None => {},
    }
    let kc = vec![0xa7u8, 0x63, 0x6f, 0x6e, 0x74, 0x72, 0x6f, 0x6c];
    proof {
        assert(kc@ =~= enc_msgtype(MessageType::Control));
    }
    match read_exact(buf, pos, kc.as_slice()) {
        Some(p2) => {
            return Some((MessageType::Control, p2));
        },
        None => {},
    }
    let ke = vec![0xa5u8, 0x65, 0x72, 0x72, 0x6f, 0x72];
    proof {
        assert(ke@ =~= enc_msgtype(MessageType::Error));
    }
    match read_exact(buf, pos, ke.as_slice()) {
        Some(p2) => {
            return Some((MessageType::Error, p2));
        },
        None => {},
    }
    None
}

/// Decode a whole frame envelope, which must fill `buf` exactly.
#[verifier::rlimit(50)]
pub fn decode_message(buf: &[u8]) -> (r: Option<Message>)
    ensures
        match r {
            Some(m) => parse_message(buf@) == Some(m@),
            None => parse_message(buf@) is None,
        },
{
    proof {
        assert(buf@.skip(0) =~= buf@);
    }
    let p0 = vec![0x84u8, 0xa4, 0x74, 0x79, 0x70, 0x65];
    proof {
        assert(p0@ =~= seq![0x84u8] + key_type());
    }
    let pos = match read_exact(buf, 0, p0.as_slice()) {
        Some(p) => p,
        None => {
            return None;
        },
    };
    let (t, pos) = match read_msgtype(buf, pos) {
        Some(x) => x,
        None => {
            return None;
        },
    };
    let kid = vec![0xa2u8, 0x69, 0x64];
    proof {
        assert(kid@ =~= key_id());
    }
    let pos = match read_exact(buf, pos, kid.as_slice()) {
        Some(p) => p,
        None => {
            return None;
        },
    };
    let (id, pos) = match read_str(buf, pos) {
        Some(x) => x,
        None => {
            return None;
        },
    };
    let kts = vec![0xa9u8, 0x74, 0x69, 0x6d, 0x65, 0x73, 0x74, 0x61, 0x6d, 0x70];
    proof {
        assert(kts@ =~= key_timestamp());
    }
    let pos = match read_exact(buf, pos, kts.as_slice()) {
        Some(p) => p,
        None => {
            return None;
        },
    };
    let (ts, pos) = match read_uint(buf, pos) {
        Some(x) => x,
        None => {
            return None;
        },
    };
    let kpl = vec![0xa7u8, 0x70, 0x61, 0x79, 0x6c, 0x6f, 0x61, 0x64];
    proof {
        assert(kpl@ =~= key_payload());
    }
    let pos = match read_exact(buf, pos, kpl.as_slice()) {
        Some(p) => p,
        None => {
            return None;
        },
    };
    let (payload, pos) = match read_bin(buf, pos) {
        Some(x) => x,
        None => {
            return None;
        },
    };
    if pos != buf.len() {
        proof {
            assert(buf@.skip(pos as int).len() != 0);
        }
        return None;
    }
    proof {
        assert(buf@.skip(pos as int).len() == 0);
    }
    Some(Message { type_field: t, id, timestamp: ts, payload })
}

/// Decode a control payload, which must fill `buf` exactly.
#[verifier::rlimit(50)]
pub fn decode_control(buf: &[u8]) -> (r: Option<crate::protocol::ControlMessage>)
    ensures
        match r {
            Some(c) => parse_control(buf@) == Some(c@),
            None => parse_control(buf@) is None,
        },
{
    proof {
        assert(buf@.skip(0) =~= buf@);
    }
    let p0 = vec![0x82u8, 0xa7, 0x63, 0x6f, 0x6d, 0x6d, 0x61, 0x6e, 0x64];
    proof {
        assert(p0@ =~= seq![0x82u8] + key_command());
    }
    let pos = match read_exact(buf, 0, p0.as_slice()) {
        Some(p) => p,
        None => {
            return None;
        },
    };
    let (command, pos) = match read_str(buf, pos) {
        Some(x) => x,
        None => {
            return None;
        },
    };
    let kp = vec![0xa6u8, 0x70, 0x61, 0x72, 0x61, 0x6d, 0x73];
    proof {
        assert(kp@ =~= key_params());
    }
    let pos = match read_exact(buf, pos, kp.as_slice()) {
        Some(p) => p,
        None => {
            return None;
        },
    };
    let ghost rest = buf@.skip(pos as int);
    if pos == buf.len() {
        proof {
            assert(rest.len() == 0);
        }
        return None;
    }
    let first = *vstd::slice::slice_index_get(buf, pos);
    if buf.len() - pos == 1 && first == TAG_NIL {
        proof {
            assert(rest[0] == TAG_NIL && rest.len() == 1);
            assert(rest =~= seq![TAG_NIL]);
        }
        return Some(crate::protocol::ControlMessage { command, params: None });
    }
    proof {
        assert(rest[0] == buf@[pos as int]);
        assert(rest != seq![TAG_NIL]);
    }
    let raw_slice = vstd::slice::slice_subrange(buf, pos, buf.len());
    let raw = vstd::slice::slice_to_vec(raw_slice);
    proof {
        assert(raw@ =~= rest);
    }
    Some(crate::protocol::ControlMessage { command, params: Some(raw) })
}

/// Decode sample-request parameters, which must fill `buf` exactly.
#[verifier::rlimit(50)]
pub fn decode_sample_request(buf: &[u8]) -> (r: Option<crate::protocol::SampleRequest>)
    ensures
        match r {
            Some(q) => parse_sample_request(buf@) == Some(q@),
            None => parse_sample_request(buf@) is None,
        },
{
    if buf.len() < 1 {
        return None;
    }
    let b0 = *vstd::slice::slice_index_get(buf, 0);
    let kss = vec![0xabu8, 0x73, 0x61, 0x6d, 0x70, 0x6c, 0x65, 0x5f, 0x73, 0x69, 0x7a, 0x65];
    proof {
        assert(kss@ =~= key_sample_size());
    }
    if b0 == 0x81 {
        let pos = match read_exact(buf, 1, kss.as_slice()) {
            Some(p) => p,
            None => {
                return None;
            },
        };
        let (n, pos) = match read_uint(buf, pos) {
            Some(x) => x,
            None => {
                return None;
            },
        };
        if pos != buf.len() {
            proof {
                assert(buf@.skip(pos as int).len() != 0);
            }
            return None;
        }
        if n > usize::MAX as u64 {
            return None;
        }
        proof {
            assert(buf@.skip(pos as int).len() == 0);
        }
        return Some(crate::protocol::SampleRequest { sample_size: n as usize, method: None });
    }
    if b0 != 0x82 {
        return None;
    }
    let pos = match read_exact(buf, 1, kss.as_slice()) {
        Some(p) => p,
        None => {
            return None;
        },
    };
    let (n, pos) = match read_uint(buf, pos) {
        Some(x) => x,
        None => {
            return None;
        },
    };
    if n > usize::MAX as u64 {
        return None;
    }
    let km = vec![0xa6u8, 0x6d, 0x65, 0x74, 0x68, 0x6f, 0x64];
    proof {
        assert(km@ =~= key_method());
    }
    let pos = match read_exact(buf, pos, km.as_slice()) {
        Some(p) => p,
        None => {
            return None;
        },
    };
    let ghost r3 = buf@.skip(pos as int);
    if buf.len() - pos == 1 {
        let first = *vstd::slice::slice_index_get(buf, pos);
        if first == TAG_NIL {
            proof {
                assert(r3[0] == TAG_NIL && r3.len() == 1);
                assert(r3 =~= seq![TAG_NIL]);
            }
            return Some(crate::protocol::SampleRequest { sample_size: n as usize, method: None });
        }
    }
    proof {
        if r3.len() == 1 {
            assert(r3[0] == buf@[pos as int]);
        }
        assert(r3 != seq![TAG_NIL]);
    }
    let (m, pos) = match read_str(buf, pos) {
        Some(x) => x,
        None => {
            return None;
        },
    };
    if pos != buf.len() {
        proof {
            assert(buf@.skip(pos as int).len() != 0);
        }
        return None;
    }
    proof {
        assert(buf@.skip(pos as int).len() == 0);
    }
    Some(crate::protocol::SampleRequest { sample_size: n as usize, method: Some(m) })
}

/// Decode a data payload, which must fill `buf` exactly.
#[verifier::rlimit(50)]
pub fn decode_data(buf: &[u8]) -> (r: Option<DataMessage>)
    ensures
        match r {
            Some(d) => parse_data(buf@) == Some(d@),
            None => parse_data(buf@) is None,
        },
{
    proof {
        assert(buf@.skip(0) =~= buf@);
    }
    let p0 = vec![0x83u8, 0xa6, 0x6f, 0x66, 0x66, 0x73, 0x65, 0x74];
    proof {
        assert(p0@ =~= seq![0x83u8] + key_offset());
    }
    let pos = match read_exact(buf, 0, p0.as_slice()) {
        Some(p) => p,
        None => {
            return None;
        },
    };
    let (off, pos) = match read_uint(buf, pos) {
        Some(x) => x,
        None => {
            return None;
        },
    };
    let kt = vec![0xa5u8, 0x74, 0x6f, 0x74, 0x61, 0x6c];
    proof {
        assert(kt@ =~= key_total());
    }
    let pos = match read_exact(buf, pos, kt.as_slice()) {
        Some(p) => p,
        None => {
            return None;
        },
    };
    let (tot, pos) = match read_uint(buf, pos) {
        Some(x) => x,
        None => {
            return None;
        },
    };
    let kc = vec![0xa5u8, 0x63, 0x68, 0x75, 0x6e, 0x6b];
    proof {
        assert(kc@ =~= key_chunk());
    }
    let pos = match read_exact(buf, pos, kc.as_slice()) {
        Some(p) => p,
        None => {
            return None;
        },
    };
    let (chunk, pos) = match read_bin(buf, pos) {
        Some(x) => x,
        None => {
            return None;
        },
    };
    if pos != buf.len() {
        proof {
            assert(buf@.skip(pos as int).len() != 0);
        }
        return None;
    }
    if off > usize::MAX as u64 || tot > usize::MAX as u64 {
        return None;
    }
    proof {
        assert(buf@.skip(pos as int).len() == 0);
    }
    Some(DataMessage { offset: off as usize, total: tot as usize, chunk })
}


proof fn lemma_parse_exact_enc(prefix: Seq<u8>, rest: Seq<u8>)
    ensures
        parse_exact(prefix + rest, prefix) == Some(rest),
{
    assert((prefix + rest).take(prefix.len() as int) =~= prefix);
    assert((prefix + rest).skip(prefix.len() as int) =~= rest);
}

/// Decoding inverts encoding for unsigned integers.
pub proof fn lemma_parse_uint_enc(n: u64, rest: Seq<u8>)
    ensures
        parse_uint(enc_uint(n) + rest) == Some((n, rest)),
{
    let b = enc_uint(n) + rest;
    if n < 0x80 {
        assert(b[0] == n as u8);
        assert((n as u8) as u64 == n) by (bit_vector)
            requires
                n < 0x80,
        ;
        assert(b.skip(1) =~= rest);
    } else if n < 0x100 {
        assert(b[0] == 0xcc && b[1] == n as u8);
        assert((n as u8) as u64 == n) by (bit_vector)
            requires
                n < 0x100,
        ;
        assert(b.skip(2) =~= rest);
    } else if n < 0x1_0000 {
        assert(b[0] == 0xcd && b[1] == (n >> 8) as u8 && b[2] == n as u8);
        assert(((((n >> 8) as u8) as u64) << 8u64) | ((n as u8) as u64) == n) by (bit_vector)
            requires
                n < 0x1_0000,
        ;
        assert(b.skip(3) =~= rest);
    } else if n < 0x1_0000_0000 {
        assert(b[0] == 0xce && b[1] == (n >> 24) as u8 && b[2] == (n >> 16) as u8 && b[3] == (n
            >> 8) as u8 && b[4] == n as u8);
        assert(((((n >> 24) as u8) as u64) << 24u64) | ((((n >> 16) as u8) as u64) << 16u64) | ((((n
            >> 8) as u8) as u64) << 8u64) | ((n as u8) as u64) == n) by (bit_vector)
            requires
                n < 0x1_0000_0000,
        ;
        assert(b.skip(5) =~= rest);
    } else {
        assert(b[0] == 0xcf && b[1] == (n >> 56) as u8 && b[2] == (n >> 48) as u8 && b[3] == (n
            >> 40) as u8 && b[4] == (n >> 32) as u8 && b[5] == (n >> 24) as u8 && b[6] == (n
            >> 16) as u8 && b[7] == (n >> 8) as u8 && b[8] == n as u8);
        assert(((((n >> 56) as u8) as u64) << 56u64) | ((((n >> 48) as u8) as u64) << 48u64) | ((((n
            >> 40) as u8) as u64) << 40u64) | ((((n >> 32) as u8) as u64) << 32u64) | ((((n
            >> 24) as u8) as u64) << 24u64) | ((((n >> 16) as u8) as u64) << 16u64) | ((((n
            >> 8) as u8) as u64) << 8u64) | ((n as u8) as u64) == n) by (bit_vector);
        assert(b.skip(9) =~= rest);
    }
}

/// Decoding inverts encoding for strings that fit the wire limit.
pub proof fn lemma_parse_str_enc(s: Seq<char>, rest: Seq<u8>)
    requires
        str_fits(s),
    ensures
        parse_str(enc_str(s) + rest) == Some((s, rest)),
{
    broadcast use vstd::utf8::encode_utf8_valid_utf8;
    broadcast use vstd::utf8::encode_utf8_decode_utf8;

    let u = encode_utf8(s);
    let len = u.len() as u64;
    let b = enc_str(s) + rest;
    let tail = u + rest;
    assert(b =~= str_hdr(len) + tail);
    if len < 32 {
        assert(b[0] == (0xa0 + len) as u8);
        assert(0xa0 <= ((0xa0 + len) as u8) && ((0xa0 + len) as u8) < 0xc0 && (((0xa0 + len) as u8)
            - 0xa0) as u64 == len) by (bit_vector)
            requires
                len < 32,
        ;
        assert(b.skip(1) =~= tail);
        assert(parse_str_hdr(b) == Some((len, tail)));
    } else if len < 0x100 {
        assert(b[0] == 0xd9 && b[1] == len as u8);
        assert((len as u8) as u64 == len) by (bit_vector)
            requires
                len < 0x100,
        ;
        assert(b.skip(2) =~= tail);
        assert(parse_str_hdr(b) == Some((len, tail)));
    } else if len < 0x1_0000 {
        assert(b[0] == 0xda && b[1] == (len >> 8) as u8 && b[2] == len as u8);
        assert(((((len >> 8) as u8) as u64) << 8u64) | ((len as u8) as u64) == len) by (bit_vector)
            requires
                len < 0x1_0000,
        ;
        assert(b.skip(3) =~= tail);
        assert(parse_str_hdr(b) == Some((len, tail)));
    } else {
        assert(b[0] == 0xdb && b[1] == (len >> 24) as u8 && b[2] == (len >> 16) as u8 && b[3] == (
        len >> 8) as u8 && b[4] == len as u8);
        assert(((((len >> 24) as u8) as u64) << 24u64) | ((((len >> 16) as u8) as u64) << 16u64) | (
        (((len >> 8) as u8) as u64) << 8u64) | ((len as u8) as u64) == len) by (bit_vector)
            requires
                len < 0x1_0000_0000,
        ;
        assert(b.skip(5) =~= tail);
        assert(parse_str_hdr(b) == Some((len, tail)));
    }
    assert(tail.take(len as int) =~= u);
    assert(tail.skip(len as int) =~= rest);
    assert(decode_utf8(u) == s);
}

/// Decoding inverts encoding for byte strings that fit the wire limit.
pub proof fn lemma_parse_bin_enc(v: Seq<u8>, rest: Seq<u8>)
    requires
        bin_fits(v),
    ensures
        parse_bin(enc_bin(v) + rest) == Some((v, rest)),
{
    let len = v.len() as u64;
    let b = enc_bin(v) + rest;
    let tail = v + rest;
    assert(b =~= bin_hdr(len) + tail);
    if len < 0x100 {
        assert(b[0] == 0xc4 && b[1] == len as u8);
        assert((len as u8) as u64 == len) by (bit_vector)
            requires
                len < 0x100,
        ;
        assert(b.skip(2) =~= tail);
        assert(parse_bin_hdr(b) == Some((len, tail)));
    } else if len < 0x1_0000 {
        assert(b[0] == 0xc5 && b[1] == (len >> 8) as u8 && b[2] == len as u8);
        assert(((((len >> 8) as u8) as u64) << 8u64) | ((len as u8) as u64) == len) by (bit_vector)
            requires
                len < 0x1_0000,
        ;
        assert(b.skip(3) =~= tail);
        assert(parse_bin_hdr(b) == Some((len, tail)));
    } else {
        assert(b[0] == 0xc6 && b[1] == (len >> 24) as u8 && b[2] == (len >> 16) as u8 && b[3] == (
        len >> 8) as u8 && b[4] == len as u8);
        assert(((((len >> 24) as u8) as u64) << 24u64) | ((((len >> 16) as u8) as u64) << 16u64) | (
        (((len >> 8) as u8) as u64) << 8u64) | ((len as u8) as u64) == len) by (bit_vector)
            requires
                len < 0x1_0000_0000,
        ;
        assert(b.skip(5) =~= tail);
        assert(parse_bin_hdr(b) == Some((len, tail)));
    }
    assert(tail.take(len as int) =~= v);
    assert(tail.skip(len as int) =~= rest);
}

proof fn lemma_parse_msgtype_enc(t: MessageType, rest: Seq<u8>)
    ensures
        parse_msgtype(enc_msgtype(t) + rest) == Some((t, rest)),
{
    let b = enc_msgtype(t) + rest;
    lemma_parse_exact_enc(enc_msgtype(t), rest);
    match t {
        MessageType::Data => {
        },
        MessageType::Control => {
            assert(b[0] == 0xa7);
            if parse_exact(b, enc_msgtype(MessageType::Data)) is Some {
                assert(b.take(5)[0] == b[0]);
            }
        },
        MessageType::Error => {
            assert(b[0] == 0xa5);
            if parse_exact(b, enc_msgtype(MessageType::Data)) is Some {
                assert(b.take(5)[0] == b[0]);
            }
            if parse_exact(b, enc_msgtype(MessageType::Control)) is Some {
                assert(b.take(8)[0] == b[0]);
            }
        },
    }
}

/// Decoding inverts encoding for whole frame envelopes.
pub proof fn lemma_message_round_trip(m: MessageView)
    requires
        str_fits(m.id),
        bin_fits(m.payload),
    ensures
        parse_message(spec_encode_message(m)) == Some(m),
{
    let b = spec_encode_message(m);
    let p1 = seq![0x84u8] + key_type();
    let r1 = enc_msgtype(m.type_field) + (key_id() + (enc_str(m.id) + (key_timestamp() + (enc_uint(
        m.timestamp,
    ) + (key_payload() + enc_bin(m.payload))))));
    assert(b =~= p1 + r1);
    lemma_parse_exact_enc(p1, r1);
    let r2 = key_id() + (enc_str(m.id) + (key_timestamp() + (enc_uint(m.timestamp) + (key_payload()
        + enc_bin(m.payload)))));
    lemma_parse_msgtype_enc(m.type_field, r2);
    let r3 = enc_str(m.id) + (key_timestamp() + (enc_uint(m.timestamp) + (key_payload() + enc_bin(
        m.payload,
    ))));
    lemma_parse_exact_enc(key_id(), r3);
    let r4 = key_timestamp() + (enc_uint(m.timestamp) + (key_payload() + enc_bin(m.payload)));
    lemma_parse_str_enc(m.id, r4);
    let r5 = enc_uint(m.timestamp) + (key_payload() + enc_bin(m.payload));
    lemma_parse_exact_enc(key_timestamp(), r5);
    let r6 = key_payload() + enc_bin(m.payload);
    lemma_parse_uint_enc(m.timestamp, r6);
    let r7 = enc_bin(m.payload);
    lemma_parse_exact_enc(key_payload(), r7);
    assert(r7 =~= enc_bin(m.payload) + Seq::<u8>::empty());
    lemma_parse_bin_enc(m.payload, Seq::<u8>::empty());
    assert(parse_message(b) == Some(
        MessageView {
            type_field: m.type_field,
            id: m.id,
            timestamp: m.timestamp,
            payload: m.payload,
        },
    ));
    assert(MessageView {
        type_field: m.type_field,
        id: m.id,
        timestamp: m.timestamp,
        payload: m.payload,
    } == m);
}

/// Decoding inverts encoding for control payloads whose `params`, when
/// present, are non-empty and not the single `nil` byte (which stands for an
/// absent value).
pub proof fn lemma_control_round_trip(c: ControlMessageView)
    requires
        str_fits(c.command),
        c.params matches Some(p) ==> p.len() > 0 && p != seq![TAG_NIL],
    ensures
        parse_control(spec_encode_control(c)) == Some(c),
{
    let b = spec_encode_control(c);
    let p1 = seq![0x82u8] + key_command();
    let r1 = enc_str(c.command) + (key_params() + enc_opt_raw(c.params));
    assert(b =~= p1 + r1);
    lemma_parse_exact_enc(p1, r1);
    let r2 = key_params() + enc_opt_raw(c.params);
    lemma_parse_str_enc(c.command, r2);
    let r3 = enc_opt_raw(c.params);
    lemma_parse_exact_enc(key_params(), r3);
    match c.params {
        None => {
            assert(r3 =~= seq![TAG_NIL]);
            assert(ControlMessageView { command: c.command, params: None } == c);
        },
        Some(p) => {
            assert(r3 == p);
            assert(ControlMessageView { command: c.command, params: Some(p) } == c);
        },
    }
}

/// Decoding inverts encoding for sample-request parameters.
pub proof fn lemma_sample_request_round_trip(q: SampleRequestView)
    requires
        q.method matches Some(m) ==> str_fits(m),
    ensures
        parse_sample_request(spec_encode_sample_request(q)) == Some(q),
{
    let b = spec_encode_sample_request(q);
    let n = q.sample_size as u64;
    match q.method {
        None => {
            let r1 = enc_uint(n) + (key_method() + seq![TAG_NIL]);
            assert(b =~= seq![0x82u8] + (key_sample_size() + r1));
            assert(b[0] == 0x82);
            assert(b.skip(1) =~= key_sample_size() + r1);
            lemma_parse_exact_enc(key_sample_size(), r1);
            let r2 = key_method() + seq![TAG_NIL];
            lemma_parse_uint_enc(n, r2);
            lemma_parse_exact_enc(key_method(), seq![TAG_NIL]);
            assert(SampleRequestView { sample_size: q.sample_size, method: None } == q);
        },
        Some(m) => {
            let r1 = enc_uint(n) + (key_method() + enc_str(m));
            assert(b =~= seq![0x82u8] + (key_sample_size() + r1));
            assert(b[0] == 0x82);
            assert(b.skip(1) =~= key_sample_size() + r1);
            lemma_parse_exact_enc(key_sample_size(), r1);
            let r2 = key_method() + enc_str(m);
            lemma_parse_uint_enc(n, r2);
            lemma_parse_exact_enc(key_method(), enc_str(m));
            let r3 = enc_str(m);
            if r3 == seq![TAG_NIL] {
                assert(r3[0] == TAG_NIL);
                assert(str_hdr(encode_utf8(m).len() as u64)[0] == r3[0]);
                assert(false) by {
                    let len = encode_utf8(m).len() as u64;
                    if len < 32 {
                        assert((0xa0 + len) as u8 != 0xc0u8) by (bit_vector)
                            requires
                                len < 32,
                        ;
                    }
                };
            }
            assert(r3 =~= enc_str(m) + Seq::<u8>::empty());
            lemma_parse_str_enc(m, Seq::<u8>::empty());
            assert(SampleRequestView { sample_size: q.sample_size, method: Some(m) } == q);
        },
    }
}

/// Decoding inverts encoding for data payloads.
pub proof fn lemma_data_round_trip(d: DataMessageView)
    requires
        bin_fits(d.chunk),
    ensures
        parse_data(spec_encode_data(d)) == Some(d),
{
    let b = spec_encode_data(d);
    let p1 = seq![0x83u8] + key_offset();
    let r1 = enc_uint(d.offset as u64) + (key_total() + (enc_uint(d.total as u64) + (key_chunk()
        + enc_bin(d.chunk))));
    assert(b =~= p1 + r1);
    lemma_parse_exact_enc(p1, r1);
    let r2 = key_total() + (enc_uint(d.total as u64) + (key_chunk() + enc_bin(d.chunk)));
    lemma_parse_uint_enc(d.offset as u64, r2);
    let r3 = enc_uint(d.total as u64) + (key_chunk() + enc_bin(d.chunk));
    lemma_parse_exact_enc(key_total(), r3);
    let r4 = key_chunk() + enc_bin(d.chunk);
    lemma_parse_uint_enc(d.total as u64, r4);
    let r5 = enc_bin(d.chunk);
    lemma_parse_exact_enc(key_chunk(), r5);
    assert(r5 =~= enc_bin(d.chunk) + Seq::<u8>::empty());
    lemma_parse_bin_enc(d.chunk, Seq::<u8>::empty());
    assert(DataMessageView { offset: d.offset, total: d.total, chunk: d.chunk } == d);
}

/// Append raw bytes.
fn put_raw(out: &mut Vec<u8>, b: &[u8])
    ensures
        final(out)@ == old(out)@ + b@,
{
    let ghost base = out@;
    let n = b.len();
    let mut i: usize = 0;
    proof {
        assert(out@ =~= base + b@.subrange(0, 0));
    }
    while i < n
        invariant
            n == b@.len(),
            0 <= i <= n,
            out@ == base + b@.subrange(0, i as int),
        decreases n - i,
    {
        let x = *vstd::slice::slice_index_get(b, i);
        out.push(x);
        proof {
            assert(out@ =~= base + b@.subrange(0, i as int + 1));
        }
        i = i + 1;
    }
    proof {
        assert(b@.subrange(0, n as int) =~= b@);
    }
}

/// Append an unsigned integer in its shortest form.
fn put_uint(out: &mut Vec<u8>, n: u64)
    ensures
        final(out)@ == old(out)@ + enc_uint(n),
{
    let ghost base = out@;
    if n < 0x80 {
        out.push(n as u8);
        proof {
            assert(out@ =~= base + enc_uint(n));
        }
    } else if n < 0x100 {
        out.push(0xcc);
        out.push(n as u8);
        proof {
            assert(out@ =~= base + enc_uint(n));
        }
    } else if n < 0x1_0000 {
        out.push(0xcd);
        out.push(#[verifier::truncate] ((n >> 8) as u8));
        out.push(#[verifier::truncate] (n as u8));
        proof {
            assert(out@ =~= base + enc_uint(n));
        }
    } else if n < 0x1_0000_0000 {
        out.push(0xce);
        out.push(#[verifier::truncate] ((n >> 24) as u8));
        out.push(#[verifier::truncate] ((n >> 16) as u8));
        out.push(#[verifier::truncate] ((n >> 8) as u8));
        out.push(#[verifier::truncate] (n as u8));
        proof {
            assert(out@ =~= base + enc_uint(n));
        }
    } else {
        out.push(0xcf);
        out.push(#[verifier::truncate] ((n >> 56) as u8));
        out.push(#[verifier::truncate] ((n >> 48) as u8));
        out.push(#[verifier::truncate] ((n >> 40) as u8));
        out.push(#[verifier::truncate] ((n >> 32) as u8));
        out.push(#[verifier::truncate] ((n >> 24) as u8));
        out.push(#[verifier::truncate] ((n >> 16) as u8));
        out.push(#[verifier::truncate] ((n >> 8) as u8));
        out.push(#[verifier::truncate] (n as u8));
        proof {
            assert(out@ =~= base + enc_uint(n));
        }
    }
}

/// Append a string: header, then UTF-8 bytes.
fn put_str(out: &mut Vec<u8>, s: &str)
    requires
        str_fits(s@),
    ensures
        final(out)@ == old(out)@ + enc_str(s@),
{
    let ghost base = out@;
    let bytes = s.as_bytes();
    let len = bytes.len();
    let len64 = len as u64;
    if len < 32 {
        out.push(0xa0 + len as u8);
    } else if len < 0x100 {
        out.push(0xd9);
        out.push(#[verifier::truncate] (len64 as u8));
    } else if len < 0x1_0000 {
        out.push(0xda);
        out.push(#[verifier::truncate] ((len64 >> 8) as u8));
        out.push(#[verifier::truncate] (len64 as u8));
    } else {
        out.push(0xdb);
        out.push(#[verifier::truncate] ((len64 >> 24) as u8));
        out.push(#[verifier::truncate] ((len64 >> 16) as u8));
        out.push(#[verifier::truncate] ((len64 >> 8) as u8));
        out.push(#[verifier::truncate] (len64 as u8));
    }
    proof {
        assert(out@ =~= base + str_hdr(encode_utf8(s@).len() as u64));
    }
    put_raw(out, bytes);
    proof {
        assert(out@ =~= base + enc_str(s@));
    }
}

/// Append a byte string: header, then bytes.
fn put_bin(out: &mut Vec<u8>, b: &[u8])
    requires
        bin_fits(b@),
    ensures
        final(out)@ == old(out)@ + enc_bin(b@),
{
    let ghost base = out@;
    let len = b.len();
    let len64 = len as u64;
    if len < 0x100 {
        out.push(0xc4);
        out.push(#[verifier::truncate] (len64 as u8));
    } else if len < 0x1_0000 {
        out.push(0xc5);
        out.push(#[verifier::truncate] ((len64 >> 8) as u8));
        out.push(#[verifier::truncate] (len64 as u8));
    } else {
        out.push(0xc6);
        out.push(#[verifier::truncate] ((len64 >> 24) as u8));
        out.push(#[verifier::truncate] ((len64 >> 16) as u8));
        out.push(#[verifier::truncate] ((len64 >> 8) as u8));
        out.push(#[verifier::truncate] (len64 as u8));
    }
    proof {
        assert(out@ =~= base + bin_hdr(b@.len() as u64));
    }
    put_raw(out, b);
    proof {
        assert(out@ =~= base + enc_bin(b@));
    }
}

/// Append a frame-type tag.
fn put_msgtype(out: &mut Vec<u8>, t: MessageType)
    ensures
        final(out)@ == old(out)@ + enc_msgtype(t),
{
    let ghost base = out@;
    match t {
        MessageType::Data => {
            let k = vec![0xa4u8, 0x64, 0x61, 0x74, 0x61];
            put_raw(out, k.as_slice());
        },
        MessageType::Control => {
            let k = vec![0xa7u8, 0x63, 0x6f, 0x6e, 0x74, 0x72, 0x6f, 0x6c];
            put_raw(out, k.as_slice());
        },
        MessageType::Error => {
            let k = vec![0xa5u8, 0x65, 0x72, 0x72, 0x6f, 0x72];
            put_raw(out, k.as_slice());
        },
    }
    proof {
        assert(out@ =~= base + enc_msgtype(t));
    }
}

/// Encode the envelope of one frame.
pub fn encode_message(m: &Message) -> (r: Vec<u8>)
    requires
        str_fits(m.id@),
        bin_fits(m.payload@),
    ensures
        r@ == spec_encode_message(m@),
{
    let mut out: Vec<u8> = Vec::new();
    out.push(0x84);
    let k_type = vec![0xa4u8, 0x74, 0x79, 0x70, 0x65];
    put_raw(&mut out, k_type.as_slice());
    put_msgtype(&mut out, m.type_field);
    let k_id = vec![0xa2u8, 0x69, 0x64];
    put_raw(&mut out, k_id.as_slice());
    put_str(&mut out, m.id.as_str());
    let k_ts = vec![0xa9u8, 0x74, 0x69, 0x6d, 0x65, 0x73, 0x74, 0x61, 0x6d, 0x70];
    put_raw(&mut out, k_ts.as_slice());
    put_uint(&mut out, m.timestamp);
    let k_pl = vec![0xa7u8, 0x70, 0x61, 0x79, 0x6c, 0x6f, 0x61, 0x64];
    put_raw(&mut out, k_pl.as_slice());
    put_bin(&mut out, m.payload.as_slice());
    proof {
        assert(out@ =~= spec_encode_message(m@));
    }
    out
}

/// Encode a data payload.
pub fn encode_data(d: &DataMessage) -> (r: Vec<u8>)
    requires
        bin_fits(d.chunk@),
    ensures
        r@ == spec_encode_data(d@),
{
    let mut out: Vec<u8> = Vec::new();
    out.push(0x83);
    let k_off = vec![0xa6u8, 0x6f, 0x66, 0x66, 0x73, 0x65, 0x74];
    put_raw(&mut out, k_off.as_slice());
    put_uint(&mut out, d.offset as u64);
    let k_tot = vec![0xa5u8, 0x74, 0x6f, 0x74, 0x61, 0x6c];
    put_raw(&mut out, k_tot.as_slice());
    put_uint(&mut out, d.total as u64);
    let k_ch = vec![0xa5u8, 0x63, 0x68, 0x75, 0x6e, 0x6b];
    put_raw(&mut out, k_ch.as_slice());
    put_bin(&mut out, d.chunk.as_slice());
    proof {
        assert(out@ =~= spec_encode_data(d@));
    }
    out
}

/// Encode a control payload, as a client sends it.
pub fn encode_control(c: &crate::protocol::ControlMessage) -> (r: Vec<u8>)
    requires
        str_fits(c.command@),
    ensures
        r@ == spec_encode_control(c@),
{
    let mut out: Vec<u8> = Vec::new();
    out.push(0x82);
    let k_cmd = vec![0xa7u8, 0x63, 0x6f, 0x6d, 0x6d, 0x61, 0x6e, 0x64];
    put_raw(&mut out, k_cmd.as_slice());
    put_str(&mut out, c.command.as_str());
    let k_par = vec![0xa6u8, 0x70, 0x61, 0x72, 0x61, 0x6d, 0x73];
    put_raw(&mut out, k_par.as_slice());
    match &c.params {
        None => {
            out.push(TAG_NIL);
        },
        Some(raw) => {
            put_raw(&mut out, raw.as_slice());
        },
    }
    proof {
        assert(out@ =~= spec_encode_control(c@));
    }
    out
}

/// Encode sample-request parameters, as a client sends them.
pub fn encode_sample_request(q: &crate::protocol::SampleRequest) -> (r: Vec<u8>)
    requires
        q.method matches Some(m) ==> str_fits(m@),
    ensures
        r@ == spec_encode_sample_request(q@),
{
    let mut out: Vec<u8> = Vec::new();
    out.push(0x82);
    let k_ss = vec![0xabu8, 0x73, 0x61, 0x6d, 0x70, 0x6c, 0x65, 0x5f, 0x73, 0x69, 0x7a, 0x65];
    put_raw(&mut out, k_ss.as_slice());
    put_uint(&mut out, q.sample_size as u64);
    let k_m = vec![0xa6u8, 0x6d, 0x65, 0x74, 0x68, 0x6f, 0x64];
    put_raw(&mut out, k_m.as_slice());
    match &q.method {
        None => {
            out.push(TAG_NIL);
        },
        Some(m) => {
            put_str(&mut out, m.as_str());
        },
    }
    proof {
        assert(out@ =~= spec_encode_sample_request(q@));
    }
    out
}

/// Encode an error payload.
pub fn encode_error(e: &ErrorMessage) -> (r: Vec<u8>)
    requires
        str_fits(e.message@),
    ensures
        r@ == spec_encode_error(e@),
{
    let mut out: Vec<u8> = Vec::new();
    out.push(0x83);
    let k_code = vec![0xa4u8, 0x63, 0x6f, 0x64, 0x65];
    put_raw(&mut out, k_code.as_slice());
    put_uint(&mut out, e.code as u64);
    let k_msg = vec![0xa7u8, 0x6d, 0x65, 0x73, 0x73, 0x61, 0x67, 0x65];
    put_raw(&mut out, k_msg.as_slice());
    put_str(&mut out, e.message.as_str());
    let k_det = vec![0xa7u8, 0x64, 0x65, 0x74, 0x61, 0x69, 0x6c, 0x73];
    put_raw(&mut out, k_det.as_slice());
    match &e.details {
        None => {
            out.push(TAG_NIL);
        },
        Some(raw) => {
            put_raw(&mut out, raw.as_slice());
        },
    }
    proof {
        assert(out@ =~= spec_encode_error(e@));
    }
    out
}

} // verus!
