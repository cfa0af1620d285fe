//! File streaming.
//!
//! Request flow:
//! - A opens bidirectional stream with B
//! - A sends init request length
//! - A sends init request
//! - B receives init request
//! - B sends init response length
//! - B sends init response
//! - B starts sending file until end
//! - A receives init response
//! - A starts receiving file until end or seek

use crate::bytes::{big_endian, to_big_endian, u32_is_read_back, u32_to_bytes};
use crate::codec::{
    decode_number, decode_range, encode_number, encode_range, number_read, optional_bytes,
    range_bytes, range_read, varint, varint_prefix_free,
};
use crate::key::NodeId;
use vstd::prelude::*;
use vstd::slice::slice_subrange;

verus! {

/// A request for part of a file: up to `end`, or up to the end of the file.
#[derive(Debug, Clone, Copy, PartialEq, Eq)]
pub struct InitRequest {
    pub file_hash: u64,
    pub start: u64,
    pub end: Option<u64>,
}

/// The reply to a request, before the content.
#[derive(Debug, Clone, Copy, PartialEq, Eq)]
pub struct InitResponse {
    pub content_length: u64,
}

/// A body behind its length in four bytes.
pub open spec fn framed(body: Seq<u8>) -> Seq<u8> {
    to_big_endian(body.len(), 4) + body
}

/// Puts a short body behind its length.
fn frame(body: Vec<u8>) -> (bytes: Vec<u8>)
    requires
        body@.len() <= u32::MAX,
    ensures
        bytes@ == framed(body@),
{
    let mut body = body;
    let head = u32_to_bytes(body.len() as u32);
    let mut bytes: Vec<u8> = Vec::new();
    bytes.push(head[0]);
    bytes.push(head[1]);
    bytes.push(head[2]);
    bytes.push(head[3]);
    assert(bytes@ =~= head@);
    bytes.append(&mut body);
    bytes
}

/// A number takes at most ten bytes.
proof fn varint_is_short(n: u64)
    ensures
        1 <= varint(n).len() <= 10,
{
    assert(digits_limit(9) == 0x8000_0000_0000_0000 * 128) by {
        reveal_with_fuel(digits_limit, 10);
    }
    varint_digits(n, 9);
}

/// What fits in so many and one more groups of seven bits.
spec fn digits_limit(groups: nat) -> nat
    decreases groups,
{
    if groups == 0 {
        128
    } else {
        128 * digits_limit((groups - 1) as nat)
    }
}

proof fn varint_digits(n: u64, groups: nat)
    requires
        n < digits_limit(groups),
    ensures
        1 <= varint(n).len() <= groups + 1,
    decreases groups,
{
    if n >= 128 {
        varint_digits(n / 128, (groups - 1) as nat);
    }
}

impl InitRequest {
    /// The bytes of the request.
    pub open spec fn body(self) -> Seq<u8> {
        range_bytes(self.file_hash, self.start, self.end)
    }

    /// The request as it is sent: its length, and its bytes.
    pub fn to_frame(&self) -> (bytes: Vec<u8>)
        ensures
            bytes@ == framed(self.body()),
    {
        let body = encode_range(self.file_hash, self.start, self.end);
        proof {
            varint_is_short(self.file_hash);
            varint_is_short(self.start);
            if let Some(end) = self.end {
                varint_is_short(end);
            }
            assert(optional_bytes(self.end).len() <= 11);
        }
        frame(body)
    }

    /// Reads the bytes of a request, or tells why they are none. What was
    /// written is read back.
    pub fn from_body(bytes: &[u8]) -> (request: Result<InitRequest, String>)
        ensures
            match range_read(bytes@) {
                Ok((file_hash, start, end)) => request == Ok::<_, String>(
                    InitRequest { file_hash, start, end },
                ),
                Err(why) => request matches Err(cause) && cause@ == why,
            },
            forall|written: InitRequest|
                bytes@ == #[trigger] written.body() ==> request == Ok::<_, String>(written),
    {
        match decode_range(bytes) {
            Ok((file_hash, start, end)) => Ok(InitRequest { file_hash, start, end }),
            Err(cause) => Err(cause),
        }
    }

    /// Where the part of a file of the given length ends.
    pub open spec fn end_of(self, content_length: u64) -> u64 {
        match self.end {
            Some(end) => end,
            None => content_length,
        }
    }

    /// Where the requested part starts and ends, or nothing where it would
    /// end before it starts.
    pub fn range(&self, content_length: u64) -> (range: Option<(u64, u64)>)
        ensures
            range == if self.start <= self.end_of(content_length) {
                Some((self.start, self.end_of(content_length)))
            } else {
                None
            },
    {
        let end = match self.end {
            Some(end) => end,
            None => content_length,
        };
        if self.start <= end {
            Some((self.start, end))
        } else {
            None
        }
    }
}

impl InitResponse {
    /// The bytes of the response.
    pub open spec fn body(self) -> Seq<u8> {
        varint(self.content_length)
    }

    /// The response as it is sent: its length, and its bytes.
    pub fn to_frame(&self) -> (bytes: Vec<u8>)
        ensures
            bytes@ == framed(self.body()),
    {
        let body = encode_number(self.content_length);
        proof {
            varint_is_short(self.content_length);
        }
        frame(body)
    }

    /// Reads the bytes of a response, or tells why they are none. What was
    /// written is read back.
    pub fn from_body(bytes: &[u8]) -> (response: Result<InitResponse, String>)
        ensures
            match number_read(bytes@) {
                Ok(content_length) => response == Ok::<_, String>(InitResponse { content_length }),
                Err(why) => response matches Err(cause) && cause@ == why,
            },
            forall|written: InitResponse|
                bytes@ == #[trigger] written.body() ==> response == Ok::<_, String>(written),
    {
        match decode_number(bytes) {
            Ok(content_length) => Ok(InitResponse { content_length }),
            Err(cause) => Err(cause),
        }
    }
}

/// A position in a content, or its end where the position is beyond it.
pub open spec fn clipped(position: u64, length: nat) -> int {
    if position <= length {
        position as int
    } else {
        length as int
    }
}

/// The bytes of a content from `start` to `end`, as far as there are any.
pub open spec fn part(content: Seq<u8>, start: u64, end: u64) -> Seq<u8> {
    content.subrange(clipped(start, content.len()), clipped(end, content.len()))
}

/// A position in a content, or its end where the position is beyond it.
fn clip(position: u64, length: usize) -> (clip: usize)
    ensures
        clip == clipped(position, length as nat),
{
    if position <= length as u64 {
        position as usize
    } else {
        length
    }
}

/// The bytes of a content that are sent for a range.
pub fn select_part(content: &[u8], start: u64, end: u64) -> (bytes: &[u8])
    requires
        start <= end,
    ensures
        bytes@ == part(content@, start, end),
{
    let from = clip(start, content.len());
    let to = clip(end, content.len());
    slice_subrange(content, from, to)
}

/// What is sent for a request: the length of the content, and the requested
/// part of it, or nothing where that would end before it starts.
pub fn serve<'a>(request: &InitRequest, content: &'a [u8]) -> (reply: (
    InitResponse,
    Option<&'a [u8]>,
))
    ensures
        reply.0.content_length == content@.len(),
        reply.1 is Some <==> request.start <= request.end_of(reply.0.content_length),
        reply.1 matches Some(bytes) ==> bytes@ == part(
            content@,
            request.start,
            request.end_of(reply.0.content_length),
        ),
{
    let content_length = content.len() as u64;
    let bytes = match request.range(content_length) {
        Some((start, end)) => Some(select_part(content, start, end)),
        None => None,
    };
    (InitResponse { content_length }, bytes)
}

/// A file that a peer streams, with support for seeking.
///
/// A stream is opened initially, and replaced if seeking is needed.
#[derive(Debug, Clone, Copy, PartialEq, Eq)]
pub struct ProtocolStream {
    pub peer_id: NodeId,
    pub file_hash: u64,
    pub content_length: u64,
}

impl ProtocolStream {
    /// The request with which a stream of a whole file is opened.
    pub fn create_request(file_hash: u64) -> (request: InitRequest)
        ensures
            request == (InitRequest { file_hash, start: 0, end: None }),
    {
        InitRequest { file_hash, start: 0, end: None }
    }

    /// A stream of a file, once its peer has told its length.
    pub fn create(peer_id: NodeId, file_hash: u64, response: InitResponse) -> (stream: Self)
        ensures
            stream.peer_id == peer_id,
            stream.file_hash == file_hash,
            stream.content_length == response.content_length,
    {
        ProtocolStream { peer_id, file_hash, content_length: response.content_length }
    }

    /// The length of the file.
    pub fn content_length(&self) -> (length: Option<u64>)
        ensures
            length == Some(self.content_length),
    {
        Some(self.content_length)
    }

    /// What to ask the peer for to continue at another position. Nothing is
    /// asked for at or behind the end of the file: the stream is then empty.
    pub open spec fn continues_at(self, start: u64, end: Option<u64>) -> Option<InitRequest> {
        if start >= self.content_length {
            None
        } else {
            Some(InitRequest { file_hash: self.file_hash, start, end })
        }
    }

    /// What to ask the peer for to read a range, or nothing where the stream
    /// is to be empty.
    pub fn seek_range(&self, start: u64, end: Option<u64>) -> (request: Option<InitRequest>)
        ensures
            request == self.continues_at(start, end),
            request is Some <==> start < self.content_length,
            request matches Some(asked) ==> asked.file_hash == self.file_hash && asked.start
                == start && asked.end == end,
    {
        if start >= self.content_length {
            None
        } else {
            Some(InitRequest { file_hash: self.file_hash, start, end })
        }
    }

    /// What to ask the peer for after the connection was lost.
    pub fn reconnect(&self, current_position: u64) -> (request: Option<InitRequest>)
        ensures
            request == self.continues_at(current_position, None),
            request is Some <==> current_position < self.content_length,
            request matches Some(asked) ==> asked.file_hash == self.file_hash && asked.start
                == current_position && asked.end is None,
    {
        self.seek_range(current_position, None)
    }

    /// Streams can be sought in.
    pub fn supports_seek(&self) -> (yes: bool)
        ensures
            yes,
    {
        true
    }
}

/// A frame starts with the length of its body.
pub proof fn frame_tells_length(body: Seq<u8>)
    requires
        body.len() <= u32::MAX,
    ensures
        framed(body).len() == 4 + body.len(),
        big_endian(framed(body).take(4)) == body.len(),
        framed(body).skip(4) == body,
{
    u32_is_read_back(body.len() as u32);
    assert(framed(body).take(4) =~= to_big_endian(body.len(), 4));
    assert(framed(body).skip(4) =~= body);
}

/// A request without an end from the start gets the whole content.
pub proof fn whole_file_is_sent(content: Seq<u8>)
    requires
        content.len() <= u64::MAX,
    ensures
        part(content, 0, content.len() as u64) == content,
{
    assert(part(content, 0, content.len() as u64) =~= content);
}

/// Two adjoining parts make one: what was received up to a position, and what
/// is sent from there on, is what would have been sent at once.
pub proof fn parts_adjoin(content: Seq<u8>, start: u64, middle: u64, end: u64)
    requires
        start <= middle <= end,
    ensures
        part(content, start, middle) + part(content, middle, end) == part(content, start, end),
{
    assert(part(content, start, middle) + part(content, middle, end) =~= part(
        content,
        start,
        end,
    ));
}

/// Reconnecting at any position loses nothing: what was received before, and
/// what the new stream brings (none at the end), is the whole file.
pub proof fn reconnecting_loses_nothing(stream: ProtocolStream, content: Seq<u8>, position: u64)
    requires
        content.len() == stream.content_length,
        position <= content.len(),
    ensures
        content.take(position as int) + (match stream.continues_at(position, None) {
            Some(request) => part(
                content,
                request.start,
                request.end_of(stream.content_length),
            ),
            None => Seq::empty(),
        }) == content,
{
    let rest = match stream.continues_at(position, None) {
        Some(request) => part(content, request.start, request.end_of(stream.content_length)),
        None => Seq::empty(),
    };
    assert(content.take(position as int) + rest =~= content);
}

/// Seeking and reconnecting stay in the file: before its end, the peer is asked
/// for the same file, from the position and up to the end that were asked for;
/// at or behind its end, for nothing.
pub proof fn seeking_stays_in_the_file(stream: ProtocolStream, start: u64, end: Option<u64>)
    ensures
        stream.continues_at(start, end) is Some <==> start < stream.content_length,
        stream.continues_at(start, end) matches Some(request) ==> {
            &&& request.file_hash == stream.file_hash
            &&& request.start == start
            &&& request.end == end
        },
{
}

/// Whoever asks for part of a file gets the bytes that stand there: as many as
/// lie between start and end, in their places.
pub proof fn parts_hold_the_bytes_in_place(content: Seq<u8>, start: u64, end: u64)
    requires
        start <= end,
    ensures
        end <= content.len() ==> part(content, start, end).len() == end - start,
        start <= content.len() < end ==> part(content, start, end).len() == content.len() - start,
        start >= content.len() ==> part(content, start, end).len() == 0,
        forall|i: int|
            0 <= i < part(content, start, end).len() ==> #[trigger] part(content, start, end)[i]
                == content[start + i],
{
}

/// A request without an end goes up to the end of the file, and one with an end
/// up to there.
pub proof fn requests_end_where_they_say(request: InitRequest, content_length: u64, end: u64)
    ensures
        request.end is None ==> request.end_of(content_length) == content_length,
        request.end == Some(end) ==> request.end_of(content_length) == end,
{
}

/// What is sent after seeking is the rest of the file from there on, for every
/// position in it.
pub proof fn seeking_brings_the_rest(stream: ProtocolStream, content: Seq<u8>, start: u64)
    requires
        content.len() == stream.content_length,
        start < content.len(),
    ensures
        stream.continues_at(start, None) matches Some(request) && part(
            content,
            request.start,
            request.end_of(stream.content_length),
        ) == content.skip(start as int),
{
    assert(part(content, start, stream.content_length) =~= content.skip(start as int));
}

/// Two requests have the same bytes only where they are the same request.
pub proof fn requests_have_their_own_bytes(a: InitRequest, b: InitRequest)
    requires
        a.body() == b.body(),
    ensures
        a == b,
{
    let rest_a = varint(a.start) + optional_bytes(a.end);
    let rest_b = varint(b.start) + optional_bytes(b.end);
    assert(a.body() =~= varint(a.file_hash) + rest_a);
    assert(b.body() =~= varint(b.file_hash) + rest_b);
    varint_prefix_free(a.file_hash, b.file_hash, rest_a, rest_b);
    varint_prefix_free(a.start, b.start, optional_bytes(a.end), optional_bytes(b.end));
    assert(optional_bytes(a.end)[0] == optional_bytes(b.end)[0]);
    match (a.end, b.end) {
        (Some(x), Some(y)) => {
            assert(varint(x) =~= optional_bytes(a.end).skip(1));
            assert(varint(y) =~= optional_bytes(b.end).skip(1));
            let none = Seq::<u8>::empty();
            assert(varint(x) + none =~= varint(y) + none);
            varint_prefix_free(x, y, none, none);
        },
        _ => {},
    }
}

/// Two responses have the same bytes only where they tell the same length.
pub proof fn responses_have_their_own_bytes(a: InitResponse, b: InitResponse)
    requires
        a.body() == b.body(),
    ensures
        a == b,
{
    let none = Seq::<u8>::empty();
    assert(a.body() + none =~= b.body() + none);
    varint_prefix_free(a.content_length, b.content_length, none, none);
}

} // verus!
