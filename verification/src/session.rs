//! The per-session protocol engine.
//!
//! A session binds one duplex channel to one file. Inbound frames are decoded
//! and dispatched: only `Control` frames carrying the `sample` command are
//! served; anything else fails the session. A served sample is split into
//! bounded chunks, each wrapped in one `Data` frame; a failure is reported as
//! one `Error` frame. The embedding application owns the channel itself: it
//! reads raw frames in, writes raw frames out, and resolves a file identifier
//! to its byte view on a cache miss.

use vstd::prelude::*;

verus! {

use vstd::string::{StringExecFns, StringSliceAdditionalSpecFns};
use vstd::utf8::{encode_utf8, is_ascii_chars};
use crate::cache::{Cache, spec_cache_key, spec_put, has_key, find_key};
use crate::codec::{
    parse_message,
    parse_control,
    parse_sample_request,
    decode_message,
    decode_control,
    decode_sample_request,
    encode_message,
    encode_data,
    encode_error,
    spec_encode_message,
    spec_encode_data,
    spec_encode_error,
    str_fits,
    WIRE_LEN_LIMIT,
};
use crate::errors::{AppError, spec_describe, spec_status_code};
use crate::protocol::{
    Message,
    MessageView,
    MessageType,
    DataMessage,
    DataMessageView,
    ErrorMessage,
    ErrorMessageView,
    SampleRequest,
};
use crate::sampler::{
    UniformSampler,
    takes_full_path,
    spec_coverage,
    spec_window_size,
    spec_windows_count,
    spec_max_offset,
    spec_uniform_sample,
    is_sorted,
};

/// Size of one streamed chunk: 256 KiB.
pub const CHUNK_SIZE: usize = 0x4_0000;

/// The UTF-8 bytes of the one recognized command.
pub open spec fn sample_command() -> Seq<u8> {
    seq![0x73u8, 0x61, 0x6d, 0x70, 0x6c, 0x65]
}

/// `c` spells the `sample` command.
pub open spec fn is_sample_command(c: Seq<char>) -> bool {
    encode_utf8(c) == sample_command()
}

/// Relies on `uuid::Uuid::new_v4` and its canonical `Display` form: a fresh
/// random identifier of 36 ASCII characters (hexadecimal and hyphens).
#[verifier::external_body]
fn fresh_message_id() -> (r: String)
    ensures
        r@.len() == 36,
        is_ascii_chars(r@),
{
    uuid::Uuid::new_v4().to_string()
}

/// Relies on `chrono::Utc::now`: the current time in seconds since the
/// epoch, cast to the unsigned count the wire carries. Nothing is assumed of
/// the value.
#[verifier::external_body]
fn now_seconds() -> u64 {
    chrono::Utc::now().timestamp() as u64
}

/// Compare a command against the `sample` keyword, byte for byte.
fn is_sample(cmd: &String) -> (r: bool)
    ensures
        r == is_sample_command(cmd@),
{
    let b = cmd.as_str().as_bytes();
    let ghost u = encode_utf8(cmd@);
    if b.len() != 6 {
        proof {
            assert(u != sample_command());
        }
        return false;
    }
    let expected = vec![0x73u8, 0x61, 0x6d, 0x70, 0x6c, 0x65];
    let mut i: usize = 0;
    while i < 6
        invariant
            b@.len() == 6,
            u == encode_utf8(cmd@),
            b@ == u,
            expected@ =~= sample_command(),
            0 <= i <= 6,
            forall|j: int| 0 <= j < i ==> b@[j] == sample_command()[j],
        decreases 6 - i,
    {
        if *vstd::slice::slice_index_get(b, i) != expected[i] {
            proof {
                assert(b@[i as int] != expected@[i as int]);
                assert(expected@[i as int] == sample_command()[i as int]);
                if u == sample_command() {
                    assert(u[i as int] == sample_command()[i as int]);
                }
                assert(u != sample_command());
            }
            return false;
        }
        i = i + 1;
    }
    proof {
        assert(u =~= sample_command());
    }
    true
}

/// Decode and dispatch one inbound frame: exactly the frames holding one
/// `Control` envelope whose command is `sample` with well-formed parameters
/// are accepted. An undecodable frame, or any frame that is not `Control`, is
/// an `InvalidMessage`; a decodable control frame with another command or
/// with absent or malformed parameters is a `BadRequest`.
pub fn parse_request(frame: &[u8]) -> (r: Result<SampleRequest, AppError>)
    ensures
        match r {
            Ok(q) => {
                &&& parse_message(frame@) matches Some(m)
                &&& m.type_field == MessageType::Control
                &&& parse_control(m.payload) matches Some(c)
                &&& is_sample_command(c.command)
                &&& c.params matches Some(p)
                &&& parse_sample_request(p) == Some(q@)
            },
            Err(e) => match e {
                AppError::InvalidMessage => {
                    ||| parse_message(frame@) is None
                    ||| {
                        &&& parse_message(frame@) matches Some(m)
                        &&& (m.type_field != MessageType::Control || parse_control(
                            m.payload,
                        ) is None)
                    }
                },
                AppError::BadRequest(_) => {
                    &&& parse_message(frame@) matches Some(m)
                    &&& m.type_field == MessageType::Control
                    &&& parse_control(m.payload) matches Some(c)
                    &&& {
                        ||| !is_sample_command(c.command)
                        ||| c.params is None
                        ||| {
                            &&& c.params matches Some(p)
                            &&& parse_sample_request(p) is None
                        }
                    }
                },
                _ => false,
            },
        },
{
    let message = match decode_message(frame) {
        Some(m) => m,
        None => {
            return Err(AppError::InvalidMessage);
        },
    };
    match message.type_field {
        MessageType::Control => {},
        _ => {
            return Err(AppError::InvalidMessage);
        },
    }
    let control = match decode_control(message.payload.as_slice()) {
        Some(c) => c,
        None => {
            return Err(AppError::InvalidMessage);
        },
    };
    if !is_sample(&control.command) {
        let msg = String::from_str("Unknown command: ").concat(control.command.as_str());
        return Err(AppError::BadRequest(msg));
    }
    let params = match control.params {
        Some(p) => p,
        None => {
            return Err(AppError::BadRequest(String::from_str("Missing sample parameters")));
        },
    };
    match decode_sample_request(params.as_slice()) {
        Some(q) => Ok(q),
        None => Err(AppError::BadRequest(String::from_str("Invalid sample parameters"))),
    }
}

/// Validate the requested size and consult the cache. Rejects a size above
/// the configured maximum without touching the cache; otherwise returns the
/// cached sample (marking it most recently used) or reports a miss.
pub fn cached_sample(
    cache: &mut Cache,
    file_id: &str,
    sample_size: usize,
    max_sample_size: usize,
) -> (r: Result<Option<Vec<u8>>, AppError>)
    requires
        old(cache).inv(),
    ensures
        final(cache).inv(),
        final(cache).spec_capacity() == old(cache).spec_capacity(),
        ({
            let key = spec_cache_key(file_id.spec_bytes(), sample_size as u64);
            match r {
                Err(e) => {
                    &&& sample_size > max_sample_size
                    &&& e matches AppError::InvalidSampleSize(s) && s == sample_size
                    &&& final(cache).model() == old(cache).model()
                },
                Ok(o) => {
                    &&& sample_size <= max_sample_size
                    &&& match o {
                        Some(d) => {
                            let i = find_key(old(cache).model(), key);
                            &&& has_key(old(cache).model(), key)
                            &&& d@ == old(cache).model()[i].1
                            &&& final(cache).model() == old(cache).model().remove(i).push(
                                (key, d@),
                            )
                        },
                        None => {
                            &&& !has_key(old(cache).model(), key)
                            &&& final(cache).model() == old(cache).model()
                        },
                    }
                },
            }
        }),
{
    if sample_size > max_sample_size {
        return Err(AppError::InvalidSampleSize(sample_size));
    }
    let key = Cache::make_key(file_id, sample_size);
    Ok(cache.get(key))
}

/// Sample the file's bytes on a cache miss, store a copy of the result under
/// the request's key, and return it. The result has the exact shape stated on
/// [`UniformSampler::sample`]; the cache afterwards holds it as described by
/// [`spec_put`].
pub fn sample_and_store(
    cache: &mut Cache,
    file_id: &str,
    sample_size: usize,
    data: &[u8],
) -> (r: Vec<u8>)
    requires
        old(cache).inv(),
    ensures
        final(cache).inv(),
        final(cache).spec_capacity() == old(cache).spec_capacity(),
        final(cache).model() == spec_put(
            old(cache).model(),
            spec_cache_key(file_id.spec_bytes(), sample_size as u64),
            r@,
            old(cache).spec_capacity(),
        ),
        r@.len() <= if sample_size as int >= data@.len() {
            sample_size as int
        } else {
            data@.len() as int
        },
        takes_full_path(data@.len(), sample_size as nat) ==> r@ == data@,
        !takes_full_path(data@.len(), sample_size as nat) ==> {
            &&& r@.len() == spec_coverage(sample_size as nat)
            &&& exists|sorted: Seq<usize>|
                {
                    &&& is_sorted(sorted)
                    &&& sorted.len() == spec_windows_count(sample_size as nat)
                    &&& (forall|k: int|
                        0 <= k < sorted.len() ==> sorted[k] <= spec_max_offset(
                            data@.len(),
                            sample_size as nat,
                        ))
                    &&& r@ == spec_uniform_sample(
                        data@,
                        sorted,
                        spec_window_size(sample_size as nat),
                    )
                }
        },
{
    let sampler = UniformSampler;
    let result = sampler.sample(data, sample_size);
    let key = Cache::make_key(file_id, sample_size);
    let copy = vstd::slice::slice_to_vec(result.data.as_slice());
    cache.put(key, copy);
    result.data
}

/// All chunk payloads in order.
pub open spec fn concat_chunks(s: Seq<DataMessage>) -> Seq<u8>
    decreases s.len(),
{
    if s.len() == 0 {
        Seq::empty()
    } else {
        s[0]@.chunk + concat_chunks(s.drop_first())
    }
}

proof fn lemma_concat_chunks_push(s: Seq<DataMessage>, d: DataMessage)
    ensures
        concat_chunks(s.push(d)) == concat_chunks(s) + d@.chunk,
    decreases s.len(),
{
    if s.len() == 0 {
        assert(s.push(d).drop_first() =~= Seq::<DataMessage>::empty());
        assert(s.push(d)[0] == d);
        assert(concat_chunks(Seq::<DataMessage>::empty()) == Seq::<u8>::empty());
        assert(concat_chunks(s.push(d)) == d@.chunk + Seq::<u8>::empty());
        assert(d@.chunk + Seq::<u8>::empty() =~= d@.chunk);
        assert(concat_chunks(s) + d@.chunk =~= d@.chunk);
    } else {
        assert(s.push(d).drop_first() =~= s.drop_first().push(d));
        lemma_concat_chunks_push(s.drop_first(), d);
        assert(s.push(d)[0] == s[0]);
        assert(concat_chunks(s.push(d)) == s[0]@.chunk + concat_chunks(s.drop_first().push(d)));
        assert(s[0]@.chunk + (concat_chunks(s.drop_first()) + d@.chunk) =~= (s[0]@.chunk
            + concat_chunks(s.drop_first())) + d@.chunk);
    }
}

/// The chunks of `sample` cut every `cs` bytes: entry `i` starts at `i * cs`,
/// carries the sample's length as `total`, and holds the bytes up to the next
/// cut or the sample's end.
pub open spec fn chunks_shape(r: Seq<DataMessage>, sample: Seq<u8>, cs: int) -> bool {
    forall|i: int|
        0 <= i < r.len() ==> {
            &&& (#[trigger] r[i])@.offset == i * cs
            &&& i * cs < sample.len()
            &&& r[i]@.total == sample.len()
            &&& r[i]@.chunk == sample.subrange(
                i * cs,
                if (i + 1) * cs <= sample.len() {
                    (i + 1) * cs
                } else {
                    sample.len() as int
                },
            )
        }
}

/// Split a sample into fixed-size chunks. Concatenating the chunks in order
/// reproduces the sample exactly; every chunk but the last holds
/// `chunk_size` bytes, offsets rise by `chunk_size`, every entry carries the
/// sample's full length as `total`, and the last chunk ends exactly at
/// `total`, so a receiver can reassemble the sample and detect its end.
pub fn chunk_sample(sample: &[u8], chunk_size: usize) -> (r: Vec<DataMessage>)
    requires
        chunk_size > 0,
    ensures
        concat_chunks(r@) == sample@,
        chunks_shape(r@, sample@, chunk_size as int),
        r@.len() == 0 <==> sample@.len() == 0,
        r@.len() > 0 ==> r@.last()@.offset + r@.last()@.chunk.len() == sample@.len(),
    {
    let total = sample.len();
    let mut r: Vec<DataMessage> = Vec::new();
    let mut offset: usize = 0;
    let ghost cs = chunk_size as int;
    proof {
        assert(sample@.subrange(0, 0) =~= Seq::<u8>::empty());
        assert(concat_chunks(r@) == Seq::<u8>::empty());
    }
    while offset < total
        invariant
            total == sample@.len(),
            chunk_size > 0,
            cs == chunk_size as int,
            0 <= offset <= total,
            offset == r@.len() * cs || offset == total,
            concat_chunks(r@) == sample@.subrange(0, offset as int),
            chunks_shape(r@, sample@, cs),
            r@.len() > 0 ==> r@.last()@.offset + r@.last()@.chunk.len() == offset,
        decreases total - offset,
    {
        let end = if total - offset >= chunk_size {
            offset + chunk_size
        } else {
            total
        };
        let chunk_slice = vstd::slice::slice_subrange(sample, offset, end);
        let chunk = vstd::slice::slice_to_vec(chunk_slice);
        let ghost r0 = r@;
        let d = DataMessage { offset, total, chunk };
        r.push(d);
        proof {
            let k = r0.len() as int;
            assert(offset == k * cs);
            assert(r@ =~= r0.push(d));
            lemma_concat_chunks_push(r0, d);
            assert(sample@.subrange(0, offset as int) + sample@.subrange(
                offset as int,
                end as int,
            ) =~= sample@.subrange(0, end as int));
            assert((k + 1) * cs == k * cs + cs) by (nonlinear_arith);
            assert forall|i: int| 0 <= i < r@.len() implies {
                &&& (#[trigger] r@[i])@.offset == i * cs
                &&& i * cs < sample@.len()
                &&& r@[i]@.total == sample@.len()
                &&& r@[i]@.chunk == sample@.subrange(
                    i * cs,
                    if (i + 1) * cs <= sample@.len() {
                        (i + 1) * cs
                    } else {
                        sample@.len() as int
                    },
                )
            } by {
                if i < k {
                    assert(r@[i] == r0[i]);
                } else {
                    assert(r@[i] == d);
                    assert(i == k);
                    assert(d@.offset == k * cs);
                    assert(d@.chunk == sample@.subrange(offset as int, end as int));
                    if (k + 1) * cs <= total {
                        assert(end == offset + chunk_size);
                        assert(end as int == (k + 1) * cs);
                    } else {
                        assert(end == total);
                    }
                }
            }
            assert(chunks_shape(r@, sample@, cs));
        }
        offset = end;
    }
    proof {
        assert(sample@.subrange(0, total as int) =~= sample@);
        if r@.len() == 0 {
            assert(concat_chunks(r@) == Seq::<u8>::empty());
            assert(sample@.subrange(0, offset as int).len() == 0);
        }
    }
    r
}

/// Build one `Data` frame around a chunk: a fresh identifier, the current
/// time, and the chunk's encoded payload inside an encoded envelope.
fn build_data_frame(d: &DataMessage) -> (r: (Vec<u8>, Ghost<Seq<char>>, Ghost<u64>))
    requires
        d.chunk@.len() + 64 < WIRE_LEN_LIMIT,
    ensures
        str_fits(r.1@),
        r.0@ == spec_encode_message(
            MessageView {
                type_field: MessageType::Data,
                id: r.1@,
                timestamp: r.2@,
                payload: spec_encode_data(d@),
            },
        ),
{
    let payload = encode_data(d);
    let id = fresh_message_id();
    let ts = now_seconds();
    proof {
        broadcast use vstd::string::is_ascii_spec_bytes;
        broadcast use vstd::utf8::is_ascii_chars_encode_utf8;

        assert(encode_utf8(id@).len() == 36);
        assert(payload@.len() < WIRE_LEN_LIMIT);
    }
    let message = Message { type_field: MessageType::Data, id, timestamp: ts, payload };
    let ghost wid = message.id@;
    let ghost wts = message.timestamp;
    let out = encode_message(&message);
    (out, Ghost(wid), Ghost(wts))
}

/// The chunk of `sample` that stands at index `i` of its chunking.
pub open spec fn spec_chunk_at(sample: Seq<u8>, i: int) -> DataMessageView {
    DataMessageView {
        offset: (i * CHUNK_SIZE as int) as usize,
        total: sample.len() as usize,
        chunk: sample.subrange(
            i * CHUNK_SIZE as int,
            if (i + 1) * CHUNK_SIZE as int <= sample.len() {
                (i + 1) * CHUNK_SIZE as int
            } else {
                sample.len() as int
            },
        ),
    }
}

/// Frame `j` is a `Data` envelope, under some fresh identifier and time,
/// whose payload encodes exactly [`spec_chunk_at`]`(sample, j)`.
pub open spec fn frame_matches(f: Vec<u8>, sample: Seq<u8>, j: int) -> bool {
    exists|id: Seq<char>, ts: u64|
        {
            &&& str_fits(id)
            &&& f@ == #[trigger] spec_encode_message(
                MessageView {
                    type_field: MessageType::Data,
                    id: id,
                    timestamp: ts,
                    payload: spec_encode_data(spec_chunk_at(sample, j)),
                },
            )
        }
}

/// Every frame wraps the corresponding chunk of `sample`, in order.
pub open spec fn frames_match(r: Seq<Vec<u8>>, sample: Seq<u8>) -> bool
    decreases r.len(),
{
    if r.len() == 0 {
        true
    } else {
        frames_match(r.drop_last(), sample) && frame_matches(r.last(), sample, r.len() - 1)
    }
}

/// Split a sample into [`CHUNK_SIZE`] chunks and wrap each in one `Data`
/// frame, in strictly increasing offset order: frame `i` carries exactly the
/// chunk that [`chunk_sample`] places at index `i`.
pub fn build_data_frames(sample: &[u8]) -> (r: Vec<Vec<u8>>)
    ensures
        r@.len() == 0 <==> sample@.len() == 0,
        frames_match(r@, sample@),
{
    let chunks = chunk_sample(sample, CHUNK_SIZE);
    let mut r: Vec<Vec<u8>> = Vec::new();
    let n = chunks.len();
    let mut i: usize = 0;
    while i < n
        invariant
            n == chunks@.len(),
            0 <= i <= n,
            r@.len() == i,
            chunks@.len() == 0 <==> sample@.len() == 0,
            chunks_shape(chunks@, sample@, CHUNK_SIZE as int),
            frames_match(r@, sample@),
        decreases n - i,
    {
        proof {
            let gi = i as int;
            assert((gi + 1) * (CHUNK_SIZE as int) == gi * (CHUNK_SIZE as int) + CHUNK_SIZE as int)
                by (nonlinear_arith);
            assert(chunks@[gi]@.chunk.len() <= CHUNK_SIZE);
        }
        let (frame, wid, wts) = build_data_frame(&chunks[i]);
        let ghost r0 = r@;
        r.push(frame);
        proof {
            let gi = i as int;
            assert(r@ =~= r0.push(frame));
            assert(chunks@[gi]@ == spec_chunk_at(sample@, gi));
            assert(r@[gi]@ == spec_encode_message(
                MessageView {
                    type_field: MessageType::Data,
                    id: wid@,
                    timestamp: wts@,
                    payload: spec_encode_data(spec_chunk_at(sample@, gi)),
                },
            ));
            assert(frame_matches(frame, sample@, gi)) by {
                assert(str_fits(wid@) && frame@ == spec_encode_message(
                    MessageView {
                        type_field: MessageType::Data,
                        id: wid@,
                        timestamp: wts@,
                        payload: spec_encode_data(spec_chunk_at(sample@, gi)),
                    },
                ));
            }
            assert(r@.drop_last() =~= r0);
            assert(r@.last() == frame);
            assert(frames_match(r@, sample@));
        }
        i = i + 1;
    }
    r
}


/// Build the one `Error` frame a failing session sends before closing: the
/// error's status classification as the code and its description as the
/// message (a description too long for the wire, which no error produced by
/// this crate reaches, is replaced by a fixed fallback).
pub fn build_error_frame(e: &AppError) -> (r: Vec<u8>)
    ensures
        exists|id: Seq<char>, ts: u64, msg: Seq<char>|
            {
                &&& str_fits(id)
                &&& msg == if encode_utf8(spec_describe(e)).len() + 64 < WIRE_LEN_LIMIT {
                    spec_describe(e)
                } else {
                    "Bad request"@
                }
                &&& r@ == #[trigger] spec_encode_message(
                    MessageView {
                        type_field: MessageType::Error,
                        id: id,
                        timestamp: ts,
                        payload: spec_encode_error(
                            ErrorMessageView {
                                code: spec_status_code(e),
                                message: msg,
                                details: None,
                            },
                        ),
                    },
                )
            },
{
    let described = e.describe();
    let message_text = if (described.as_str().as_bytes().len() as u64) < WIRE_LEN_LIMIT - 64 {
        described
    } else {
        let fallback = String::from_str("Bad request");
        proof {
            reveal_strlit("Bad request");
            broadcast use vstd::utf8::is_ascii_chars_encode_utf8;

            assert(is_ascii_chars(fallback@));
        }
        fallback
    };
    let code = e.status_code();
    let error_msg = ErrorMessage { code, message: message_text, details: None };
    let payload = encode_error(&error_msg);
    proof {
        assert(payload@.len() < WIRE_LEN_LIMIT);
    }
    let id = fresh_message_id();
    let ts = now_seconds();
    proof {
        broadcast use vstd::string::is_ascii_spec_bytes;
        broadcast use vstd::utf8::is_ascii_chars_encode_utf8;

        assert(encode_utf8(id@).len() == 36);
    }
    let message = Message { type_field: MessageType::Error, id, timestamp: ts, payload };
    let out = encode_message(&message);
    out
}

} // verus!
