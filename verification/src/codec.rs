//! The bytes that are signed and sent.
//!
//! Values are written in the format of the postcard crate: an unsigned number
//! as groups of seven bits, least significant first; a list as its length and
//! its items; a tuple as its items.

use crate::clock::Entries;
use crate::key::NodeId;
use vstd::prelude::*;

verus! {

/// A number in groups of seven bits, least significant first. All groups but
/// the last have their high bit set.
pub open spec fn varint(n: u64) -> Seq<u8>
    decreases n,
{
    if n < 128 {
        seq![n as u8]
    } else {
        seq![(n % 128 + 128) as u8] + varint(n / 128)
    }
}

/// Clock entries, one after the other: the key of a node, and its number.
pub open spec fn entry_list(entries: Entries) -> Seq<u8>
    decreases entries.len(),
{
    if entries.len() == 0 {
        Seq::empty()
    } else {
        entries[0].0.bytes@ + varint(entries[0].1) + entry_list(entries.drop_first())
    }
}

/// A clock: how many entries it has, and the entries.
pub open spec fn clock_bytes(entries: Entries) -> Seq<u8> {
    varint(entries.len() as u64) + entry_list(entries)
}

/// An optional number: a byte that tells whether there is one, and the number.
pub open spec fn optional_bytes(n: Option<u64>) -> Seq<u8> {
    match n {
        Some(n) => seq![1u8] + varint(n),
        None => seq![0u8],
    }
}

/// A request for part of a file: the file, where to start, where to end.
pub open spec fn range_bytes(file: u64, start: u64, end: Option<u64>) -> Seq<u8> {
    varint(file) + varint(start) + optional_bytes(end)
}

/// What `postcard::from_bytes` reads as a number, a number and an optional
/// number, or the text of its error.
pub uninterp spec fn range_read(bytes: Seq<u8>) -> Result<(u64, u64, Option<u64>), Seq<char>>;

/// What `postcard::from_bytes` reads as a number, or the text of its error.
pub uninterp spec fn number_read(bytes: Seq<u8>) -> Result<u64, Seq<char>>;

/// `postcard::to_stdvec` on a list of pairs of 32 bytes and a number. It fails
/// on no such list: writing to a growing buffer does not.
#[verifier::external_body]
pub(crate) fn encode_entries(entries: &Vec<(NodeId, u64)>) -> (bytes: Vec<u8>)
    ensures
        bytes@ == clock_bytes(entries@),
{
    let plain: Vec<([u8; 32], u64)> = entries.iter().map(|entry| (entry.0.bytes, entry.1)).collect();
    postcard::to_stdvec(&plain).unwrap()
}

/// `postcard::to_stdvec` on a tag and 32 bytes, which is how it writes the
/// variant of an enum that holds a key. It does not fail on them.
#[verifier::external_body]
pub(crate) fn encode_tagged_key(tag: u32, key: &[u8; 32]) -> (bytes: Vec<u8>)
    ensures
        bytes@ == varint(tag as u64) + key@,
{
    postcard::to_stdvec(&(tag, key)).unwrap()
}

/// `postcard::to_stdvec` on a tag, a number and 32 bytes, which is how it
/// writes the variant of an enum that holds a number and a key. It does not
/// fail on them.
#[verifier::external_body]
pub(crate) fn encode_tagged_number_key(tag: u32, number: u64, key: &[u8; 32]) -> (bytes: Vec<u8>)
    ensures
        bytes@ == varint(tag as u64) + varint(number) + key@,
{
    postcard::to_stdvec(&(tag, number, key)).unwrap()
}

/// `postcard::to_stdvec` on a number, a number and an optional number. It does
/// not fail on them.
#[verifier::external_body]
pub(crate) fn encode_range(file: u64, start: u64, end: Option<u64>) -> (bytes: Vec<u8>)
    ensures
        bytes@ == range_bytes(file, start, end),
{
    postcard::to_stdvec(&(file, start, end)).unwrap()
}

/// `postcard::to_stdvec` on a number. It does not fail on one.
#[verifier::external_body]
pub(crate) fn encode_number(number: u64) -> (bytes: Vec<u8>)
    ensures
        bytes@ == varint(number),
{
    postcard::to_stdvec(&number).unwrap()
}

/// `postcard::from_bytes` for a number, a number and an optional number. What
/// it reads is a function of the bytes, and so is its error, which is written
/// out by `anyhow::Error`, with its sources. It reads back what was written.
#[verifier::external_body]
pub(crate) fn decode_range(bytes: &[u8]) -> (read: Result<(u64, u64, Option<u64>), String>)
    ensures
        read is Ok <==> range_read(bytes@) is Ok,
        read is Ok ==> read->Ok_0 == range_read(bytes@)->Ok_0,
        read is Err ==> read->Err_0@ == range_read(bytes@)->Err_0,
        forall|file: u64, start: u64, end: Option<u64>|
            bytes@ == #[trigger] range_bytes(file, start, end) ==> read is Ok && read->Ok_0 == (
                file,
                start,
                end,
            ),
{
    postcard::from_bytes(bytes).map_err(|e| format!("{:#}", anyhow::Error::new(e)))
}

/// `postcard::from_bytes` for a number. What it reads is a function of the
/// bytes, and so is its error, which is written out by `anyhow::Error`, with
/// its sources. It reads back what was written.
#[verifier::external_body]
pub(crate) fn decode_number(bytes: &[u8]) -> (read: Result<u64, String>)
    ensures
        read is Ok <==> number_read(bytes@) is Ok,
        read is Ok ==> read->Ok_0 == number_read(bytes@)->Ok_0,
        read is Err ==> read->Err_0@ == number_read(bytes@)->Err_0,
        forall|number: u64|
            bytes@ == #[trigger] varint(number) ==> read is Ok && read->Ok_0 == number,
{
    postcard::from_bytes(bytes).map_err(|e| format!("{:#}", anyhow::Error::new(e)))
}

/// A number is read off the front of what follows it: where two encodings with
/// something behind them are the same, so are the numbers, and what is behind.
pub proof fn varint_prefix_free(a: u64, b: u64, s: Seq<u8>, t: Seq<u8>)
    requires
        varint(a) + s == varint(b) + t,
    ensures
        a == b,
        s == t,
    decreases a,
{
    let left = varint(a) + s;
    let right = varint(b) + t;
    assert(left[0] == right[0]);
    if a < 128 {
        assert(left[0] == a as u8);
        assert(b < 128) by {
            if b >= 128 {
                assert(right[0] == (b % 128 + 128) as u8);
            }
        }
        assert(right[0] == b as u8);
        assert(s =~= left.skip(1));
        assert(t =~= right.skip(1));
    } else {
        assert(left[0] == (a % 128 + 128) as u8);
        assert(b >= 128) by {
            if b < 128 {
                assert(right[0] == b as u8);
            }
        }
        assert(right[0] == (b % 128 + 128) as u8);
        assert(a % 128 == b % 128);
        assert(left.skip(1) =~= varint(a / 128) + s);
        assert(right.skip(1) =~= varint(b / 128) + t);
        varint_prefix_free(a / 128, b / 128, s, t);
    }
}

/// Entries are read off the front of what follows them.
proof fn entry_list_prefix_free(a: Entries, b: Entries, s: Seq<u8>, t: Seq<u8>)
    requires
        a.len() == b.len(),
        entry_list(a) + s == entry_list(b) + t,
    ensures
        a == b,
        s == t,
    decreases a.len(),
{
    if a.len() == 0 {
        assert(entry_list(a) + s =~= s);
        assert(entry_list(b) + t =~= t);
        assert(a =~= b);
    } else {
        let left = entry_list(a) + s;
        let right = entry_list(b) + t;
        let rest_a = entry_list(a.drop_first()) + s;
        let rest_b = entry_list(b.drop_first()) + t;
        assert(left =~= a[0].0.bytes@ + (varint(a[0].1) + rest_a));
        assert(right =~= b[0].0.bytes@ + (varint(b[0].1) + rest_b));
        assert(a[0].0.bytes@ =~= left.take(32));
        assert(b[0].0.bytes@ =~= right.take(32));
        assert(a[0].0.bytes =~= b[0].0.bytes) by {
            assert forall|i: int| 0 <= i < 32 implies a[0].0.bytes[i] == b[0].0.bytes[i] by {
                assert(left.take(32)[i] == right.take(32)[i]);
            }
        }
        assert(varint(a[0].1) + rest_a =~= left.skip(32));
        assert(varint(b[0].1) + rest_b =~= right.skip(32));
        varint_prefix_free(a[0].1, b[0].1, rest_a, rest_b);
        entry_list_prefix_free(a.drop_first(), b.drop_first(), s, t);
        assert(a =~= seq![a[0]] + a.drop_first());
        assert(b =~= seq![b[0]] + b.drop_first());
    }
}

/// A clock is read off the front of what follows it.
pub proof fn clock_bytes_prefix_free(a: Entries, b: Entries, s: Seq<u8>, t: Seq<u8>)
    requires
        a.len() <= u64::MAX,
        b.len() <= u64::MAX,
        clock_bytes(a) + s == clock_bytes(b) + t,
    ensures
        a == b,
        s == t,
{
    assert(clock_bytes(a) + s =~= varint(a.len() as u64) + (entry_list(a) + s));
    assert(clock_bytes(b) + t =~= varint(b.len() as u64) + (entry_list(b) + t));
    varint_prefix_free(a.len() as u64, b.len() as u64, entry_list(a) + s, entry_list(b) + t);
    entry_list_prefix_free(a, b, s, t);
}

} // verus!
