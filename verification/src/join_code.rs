//! Join codes: the text that a member hands to a node that wants to join.
//!
//! The text is base64 of the member's identifier and a one-time code.

use crate::bytes::{
    big_endian, bytes_of_number_of_bytes, to_big_endian, u64_from_bytes, u64_is_read_back,
    u64_to_bytes,
};
use crate::key::{is_public_key, key_refusal, NodeId};
use crate::text::{is_plain_word, put_together};
use base64::Engine;
use vstd::prelude::*;

verus! {

/// Why a text is no join code.
#[derive(Debug, PartialEq, Eq)]
pub enum JoinCodeError {
    /// It is not base64, for the given reason.
    Undecodable(String),
    /// It does not hold 40 bytes.
    WrongLength,
    /// Its first 32 bytes are no node identifier, for the given reason.
    NotANode(String),
}

impl JoinCodeError {
    /// What to tell the user.
    pub open spec fn text(self) -> Seq<char> {
        match self {
            JoinCodeError::Undecodable(cause) => "failed to decode join code: "@ + cause@,
            JoinCodeError::WrongLength => "wrong length for join code"@,
            JoinCodeError::NotANode(cause) => "failed to parse join code: "@ + cause@,
        }
    }

    /// What to tell the user.
    pub fn message(&self) -> (message: String)
        ensures
            message@ == self.text(),
    {
        match self {
            JoinCodeError::Undecodable(cause) => put_together(
                "failed to decode join code: ",
                cause.as_str(),
            ),
            JoinCodeError::WrongLength => "wrong length for join code".to_string(),
            JoinCodeError::NotANode(cause) => put_together(
                "failed to parse join code: ",
                cause.as_str(),
            ),
        }
    }
}

/// The bytes of a join code: the identifier of a node, and its one-time code.
pub open spec fn join_bytes(node_id: NodeId, code: u64) -> Seq<u8> {
    node_id.bytes@ + to_big_endian(code as nat, 8)
}

/// The text of a join code.
pub open spec fn join_text(node_id: NodeId, code: u64) -> Seq<char> {
    base64_text(join_bytes(node_id, code))
}

/// Whether bytes are the join code of a node and a one-time code.
pub open spec fn reads_as(bytes: Seq<u8>, node_id: NodeId, code: u64) -> bool {
    bytes == join_bytes(node_id, code) && is_public_key(node_id.bytes@)
}

/// What `encode` of base64's `STANDARD_NO_PAD` engine writes.
pub uninterp spec fn base64_text(bytes: Seq<u8>) -> Seq<char>;

/// What `decode` of base64's `STANDARD_NO_PAD` engine reads, or the text of its
/// error.
pub uninterp spec fn base64_bytes(text: Seq<char>) -> Result<Seq<u8>, Seq<char>>;

/// `Engine::encode` of base64's `STANDARD_NO_PAD` engine. The text is a
/// function of the bytes, and made of the characters of the standard alphabet:
/// ASCII letters, digits, plus signs and slashes. Each of them stands for six
/// bits, so 40 bytes give 54.
#[verifier::external_body]
fn encode_base64(bytes: &[u8; 40]) -> (text: String)
    ensures
        text@ == base64_text(bytes@),
        is_plain_word(text@),
        text@.len() == 54,
{
    base64::prelude::BASE64_STANDARD_NO_PAD.encode(bytes)
}

/// `Engine::decode` of base64's `STANDARD_NO_PAD` engine. What it reads is a
/// function of the text, and so is its error, which is written out by
/// `anyhow::Error`, with its sources. It reads back what the same engine wrote.
#[verifier::external_body]
fn decode_base64(text: &str) -> (bytes: Result<Vec<u8>, String>)
    ensures
        bytes is Ok <==> base64_bytes(text@) is Ok,
        bytes is Ok ==> bytes->Ok_0@ == base64_bytes(text@)->Ok_0,
        bytes is Err ==> bytes->Err_0@ == base64_bytes(text@)->Err_0,
        forall|written: Seq<u8>|
            text@ == #[trigger] base64_text(written) ==> bytes is Ok && bytes->Ok_0@ == written,
{
    base64::prelude::BASE64_STANDARD_NO_PAD.decode(text)
        .map_err(|e| format!("{:#}", anyhow::Error::new(e)))
}

/// Makes the join code of a node.
pub fn make_join_code(node_id: NodeId, code: u64) -> (text: String)
    ensures
        text@ == join_text(node_id, code),
        is_plain_word(text@),
        text@.len() == 54,
{
    let tail = u64_to_bytes(code);
    let mut bytes = [0u8;40];
    let mut i: usize = 0;
    while i < 40
        invariant
            i <= 40,
            tail@ == to_big_endian(code as nat, 8),
            forall|j: int| 0 <= j < i ==> bytes@[j] == join_bytes(node_id, code)[j],
        decreases 40 - i,
    {
        bytes[i] = if i < 32 {
            node_id.bytes[i]
        } else {
            tail[i - 32]
        };
        i = i + 1;
    }
    assert(bytes@ =~= join_bytes(node_id, code));
    encode_base64(&bytes)
}

/// Reads a join code. What [`make_join_code`] made of a node is read back.
pub fn parse_join_code(text: &str) -> (read: Result<(NodeId, u64), JoinCodeError>)
    ensures
        base64_bytes(text@) matches Err(why) ==> undecodable(read, why),
        base64_bytes(text@) matches Ok(bytes) ==> parsed(bytes, read),
        forall|node_id: NodeId, code: u64|
            is_public_key(node_id.bytes@) && text@ == #[trigger] join_text(node_id, code)
                ==> read == Ok::<_, JoinCodeError>((node_id, code)),
{
    match decode_base64(text) {
        Err(cause) => Err(JoinCodeError::Undecodable(cause)),
        Ok(bytes) => {
            let read = parse_join_bytes(bytes.as_slice());
            proof {
                assert forall|node_id: NodeId, code: u64|
                    is_public_key(node_id.bytes@) && text@ == #[trigger] join_text(
                        node_id,
                        code,
                    ) implies read == Ok::<_, JoinCodeError>((node_id, code)) by {
                    assert(bytes@ == join_bytes(node_id, code));
                    join_bytes_parse(node_id, code, read);
                }
            }
            read
        },
    }
}

/// Whether `read` says that a text is not base64, and why.
pub open spec fn undecodable(
    read: Result<(NodeId, u64), JoinCodeError>,
    why: Seq<char>,
) -> bool {
    read matches Err(JoinCodeError::Undecodable(cause)) && cause@ == why
}

/// Whether `read` is what is read from the bytes of a join code.
pub open spec fn parsed(bytes: Seq<u8>, read: Result<(NodeId, u64), JoinCodeError>) -> bool {
    match read {
        Ok((node_id, code)) => reads_as(bytes, node_id, code),
        Err(JoinCodeError::WrongLength) => bytes.len() != 40,
        Err(JoinCodeError::NotANode(cause)) => bytes.len() == 40 && key_refusal(bytes.take(32))
            == Some(cause@),
        Err(JoinCodeError::Undecodable(_)) => false,
    }
}

/// Reads the bytes of a join code.
pub fn parse_join_bytes(bytes: &[u8]) -> (read: Result<(NodeId, u64), JoinCodeError>)
    ensures
        parsed(bytes@, read),
{
    if bytes.len() != 40 {
        return Err(JoinCodeError::WrongLength);
    }
    let mut head = [0u8;32];
    let mut tail = [0u8;8];
    let mut i: usize = 0;
    while i < 40
        invariant
            i <= 40,
            bytes@.len() == 40,
            forall|j: int| 0 <= j < i && j < 32 ==> head@[j] == bytes@[j],
            forall|j: int| 0 <= j < 8 && j + 32 < i ==> tail@[j] == bytes@[j + 32],
        decreases 40 - i,
    {
        if i < 32 {
            head[i] = bytes[i];
        } else {
            tail[i - 32] = bytes[i];
        }
        i = i + 1;
    }
    assert(head@ =~= bytes@.take(32));
    match NodeId::from_bytes(&head) {
        Err(cause) => Err(JoinCodeError::NotANode(cause)),
        Ok(node_id) => {
            let code = u64_from_bytes(tail.as_slice());
            proof {
                bytes_of_number_of_bytes(tail@);
                assert(bytes@ =~= join_bytes(node_id, code));
            }
            Ok((node_id, code))
        },
    }
}

/// The bytes of the join code of a node are read as that node and code.
proof fn join_bytes_parse(node_id: NodeId, code: u64, read: Result<(NodeId, u64), JoinCodeError>)
    requires
        is_public_key(node_id.bytes@),
        parsed(join_bytes(node_id, code), read),
    ensures
        read == Ok::<_, JoinCodeError>((node_id, code)),
{
    let bytes = join_bytes(node_id, code);
    u64_is_read_back(code);
    assert(bytes.take(32) =~= node_id.bytes@);
    if let Ok((other, number)) = read {
        u64_is_read_back(number);
        assert(other.bytes@ =~= bytes.take(32));
        assert(other.bytes =~= node_id.bytes);
        assert(to_big_endian(code as nat, 8) =~= bytes.skip(32));
        assert(to_big_endian(number as nat, 8) =~= bytes.skip(32));
    }
}

/// A join code is 40 bytes: those of the node, and the code in eight more. Bytes
/// are read exactly where there are 40 of them and the first 32 are a public
/// key, and then as that key and the number in the rest.
pub proof fn join_bytes_are_node_and_code(
    bytes: Seq<u8>,
    read: Result<(NodeId, u64), JoinCodeError>,
)
    requires
        parsed(bytes, read),
    ensures
        read is Ok <==> bytes.len() == 40 && is_public_key(bytes.take(32)),
        read matches Ok((node_id, code)) ==> node_id.bytes@ == bytes.take(32) && code
            == big_endian(bytes.skip(32)),
        read matches Err(JoinCodeError::WrongLength) ==> bytes.len() != 40,
        bytes.len() != 40 ==> read == Err::<(NodeId, u64), _>(JoinCodeError::WrongLength),
{
    if let Ok((node_id, code)) = read {
        u64_is_read_back(code);
        assert(bytes.take(32) =~= node_id.bytes@);
        assert(bytes.skip(32) =~= to_big_endian(code as nat, 8));
    }
}

/// Different nodes or codes have different bytes.
pub proof fn join_bytes_differ(a: NodeId, code_a: u64, b: NodeId, code_b: u64)
    requires
        join_bytes(a, code_a) == join_bytes(b, code_b),
    ensures
        a == b,
        code_a == code_b,
        join_bytes(a, code_a).len() == 40,
{
    let x = join_bytes(a, code_a);
    let y = join_bytes(b, code_b);
    u64_is_read_back(code_a);
    u64_is_read_back(code_b);
    assert(x.take(32) =~= a.bytes@);
    assert(y.take(32) =~= b.bytes@);
    assert(a.bytes =~= b.bytes);
    assert(x.skip(32) =~= to_big_endian(code_a as nat, 8));
    assert(y.skip(32) =~= to_big_endian(code_b as nat, 8));
}

/// What is wrong with a join code is told, with the cause behind it.
pub proof fn join_code_errors_tell_their_cause(cause: String)
    ensures
        JoinCodeError::Undecodable(cause).text() == "failed to decode join code: "@ + cause@,
        JoinCodeError::NotANode(cause).text() == "failed to parse join code: "@ + cause@,
{
}

} // verus!
