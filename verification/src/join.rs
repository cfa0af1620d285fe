//! Group management protocol: one-time codes with which nodes join a group.

use crate::bytes::{big_endian, u64_from_bytes, u64_is_read_back, u64_to_bytes, to_big_endian};
use crate::time::{Stopwatch, LONGEST, SECOND};
use vstd::prelude::*;

verus! {

/// How long a code is good for.
pub const CODE_TTL: u128 = 120 * SECOND;

/// How long before its end a code is no longer handed out.
pub const EXPIRES_SOON_THRESHOLD: u128 = 60 * SECOND;

/// How long after its end a code is still remembered.
pub const OLD_THRESHOLD: u128 = 600 * SECOND;

/// The answer to a request to join.
#[derive(Debug, Clone, Copy, PartialEq, Eq, Structural)]
pub enum Response {
    Success,
    ErrorInvalid,
    ErrorExpired,
    ErrorUsed,
}

impl Response {
    /// The byte that stands for the answer.
    pub open spec fn byte(self) -> u8 {
        match self {
            Response::Success => 0,
            Response::ErrorInvalid => 1,
            Response::ErrorExpired => 2,
            Response::ErrorUsed => 3,
        }
    }

    /// The byte that stands for the answer.
    pub fn to_byte(&self) -> (byte: u8)
        ensures
            byte == self.byte(),
    {
        match self {
            Response::Success => 0,
            Response::ErrorInvalid => 1,
            Response::ErrorExpired => 2,
            Response::ErrorUsed => 3,
        }
    }
}

/// Why a node could not join.
#[derive(Debug, Clone, Copy, PartialEq, Eq, Structural)]
pub enum JoinError {
    /// The reply is not one byte.
    UnexpectedReply,
    /// The byte of the reply stands for no answer.
    UnknownReply,
    /// The code is not known.
    Invalid,
    /// The code is expired.
    Expired,
    /// The code was already used.
    Used,
}

impl JoinError {
    /// What to tell the user.
    pub open spec fn text(self) -> Seq<char> {
        match self {
            JoinError::UnexpectedReply => "unexpected response from join protocol"@,
            JoinError::UnknownReply => "failed to parse join response"@,
            JoinError::Invalid => "code is invalid"@,
            JoinError::Expired => "code is expired"@,
            JoinError::Used => "code was already used"@,
        }
    }

    /// What to tell the user.
    pub fn message(&self) -> (message: String)
        ensures
            message@ == self.text(),
    {
        match self {
            JoinError::UnexpectedReply => "unexpected response from join protocol".to_string(),
            JoinError::UnknownReply => "failed to parse join response".to_string(),
            JoinError::Invalid => "code is invalid".to_string(),
            JoinError::Expired => "code is expired".to_string(),
            JoinError::Used => "code was already used".to_string(),
        }
    }
}

/// The answer that a byte stands for. The byte of an expired code reads as an
/// invalid one.
pub open spec fn response_of(byte: u8) -> Result<Response, JoinError> {
    if byte == 0 {
        Ok(Response::Success)
    } else if byte == 1 || byte == 2 {
        Ok(Response::ErrorInvalid)
    } else if byte == 3 {
        Ok(Response::ErrorUsed)
    } else {
        Err(JoinError::UnknownReply)
    }
}

impl TryFrom<u8> for Response {
    type Error = JoinError;

    fn try_from(value: u8) -> (response: Result<Self, JoinError>) {
        match value {
            0 => Ok(Response::Success),
            1 => Ok(Response::ErrorInvalid),
            2 => Ok(Response::ErrorInvalid),
            3 => Ok(Response::ErrorUsed),
            _ => Err(JoinError::UnknownReply),
        }
    }
}

impl vstd::std_specs::convert::TryFromSpecImpl<u8> for Response {
    open spec fn obeys_try_from_spec() -> bool {
        true
    }

    open spec fn try_from_spec(value: u8) -> Result<Self, JoinError> {
        response_of(value)
    }
}

/// A one-time code. Times are nanoseconds since a start.
#[derive(Debug, Clone, Copy, PartialEq, Eq, Structural)]
pub struct Code {
    pub code: u64,
    pub expires_at: u128,
    pub used: bool,
}

impl Code {
    /// Whether the code has expired at a time.
    pub open spec fn expired(self, now: int) -> bool {
        now >= self.expires_at
    }

    /// Whether the code has expired or expires soon at a time.
    pub open spec fn expiring(self, now: int) -> bool {
        now >= self.expires_at - EXPIRES_SOON_THRESHOLD
    }

    /// Whether the code can be forgotten at a time.
    pub open spec fn outdated(self, now: int) -> bool {
        now >= self.expires_at + OLD_THRESHOLD
    }

    /// Whether the code can be handed out at a time.
    pub open spec fn usable(self, now: int) -> bool {
        !self.expiring(now) && !self.used
    }

    /// A code that is made now.
    pub fn new(code: u64, now: u128) -> (made: Self)
        requires
            now + CODE_TTL <= u128::MAX,
        ensures
            made == (Code { code, expires_at: (now + CODE_TTL) as u128, used: false }),
    {
        Code { code, expires_at: now + CODE_TTL, used: false }
    }

    /// Whether the code has expired.
    pub fn is_expired(&self, now: u128) -> (yes: bool)
        ensures
            yes == self.expired(now as int),
            yes <==> now >= self.expires_at,
    {
        now >= self.expires_at
    }

    /// Whether the code has expired or expires soon.
    pub fn expires_soon(&self, now: u128) -> (yes: bool)
        ensures
            yes == self.expiring(now as int),
            yes <==> now + 60_000_000_000 >= self.expires_at,
    {
        now >= self.expires_at || self.expires_at - now <= EXPIRES_SOON_THRESHOLD
    }

    /// Whether the code can be forgotten.
    pub fn is_old(&self, now: u128) -> (yes: bool)
        ensures
            yes == self.outdated(now as int),
            yes <==> now >= self.expires_at + 600_000_000_000,
    {
        now >= self.expires_at && now - self.expires_at >= OLD_THRESHOLD
    }
}

/// The codes that are still remembered at a time.
pub open spec fn remembered(codes: Seq<Code>, now: int) -> Seq<Code> {
    codes.filter(|c: Code| !c.outdated(now))
}

/// Whether `i` is the first code that can be handed out.
pub open spec fn first_usable(codes: Seq<Code>, now: int, i: int) -> bool {
    &&& 0 <= i < codes.len()
    &&& codes[i].usable(now)
    &&& forall|j: int| 0 <= j < i ==> !(#[trigger] codes[j]).usable(now)
}

/// Whether no code can be handed out.
pub open spec fn none_usable(codes: Seq<Code>, now: int) -> bool {
    forall|i: int| 0 <= i < codes.len() ==> !(#[trigger] codes[i]).usable(now)
}

/// Whether `code` is handed out at a time, and leaves `after`: the first code
/// that can be, or, where there is none, a fresh one.
pub open spec fn handed_out(
    before: Seq<Code>,
    now: u128,
    fresh: u64,
    code: u64,
    after: Seq<Code>,
) -> bool {
    let kept = remembered(before, now as int);
    if none_usable(kept, now as int) {
        &&& code == fresh
        &&& after == kept.push(
            Code { code: fresh, expires_at: (now + CODE_TTL) as u128, used: false },
        )
    } else {
        &&& after == kept
        &&& exists|i: int| #[trigger] first_usable(kept, now as int, i) && code == kept[i].code
    }
}

/// Whether `i` is the first code with a number.
pub open spec fn first_with(codes: Seq<Code>, code: u64, i: int) -> bool {
    &&& 0 <= i < codes.len()
    &&& codes[i].code == code
    &&& forall|j: int| 0 <= j < i ==> (#[trigger] codes[j]).code != code
}

/// Whether a code is known.
pub open spec fn is_known(codes: Seq<Code>, code: u64) -> bool {
    exists|i: int| first_with(codes, code, i)
}

/// What a request to join comes to.
#[derive(Debug, Clone, Copy, PartialEq, Eq, Structural)]
pub enum Verdict {
    /// The request is not eight bytes.
    Malformed,
    /// The code is not known.
    Unknown,
    /// The code was already used.
    Used(u64),
    /// The code is expired.
    Expired(u64),
    /// The node joins.
    Joined(u64),
}

impl Verdict {
    /// The answer to the request.
    pub open spec fn answer(self) -> Response {
        match self {
            Verdict::Malformed => Response::ErrorInvalid,
            Verdict::Unknown => Response::ErrorInvalid,
            Verdict::Used(_) => Response::ErrorUsed,
            Verdict::Expired(_) => Response::ErrorExpired,
            Verdict::Joined(_) => Response::Success,
        }
    }

    /// The answer to the request.
    pub fn response(&self) -> (response: Response)
        ensures
            response == self.answer(),
    {
        match self {
            Verdict::Malformed => Response::ErrorInvalid,
            Verdict::Unknown => Response::ErrorInvalid,
            Verdict::Used(_) => Response::ErrorUsed,
            Verdict::Expired(_) => Response::ErrorExpired,
            Verdict::Joined(_) => Response::Success,
        }
    }

    /// Whether the node becomes a member of the group.
    pub fn joins(&self) -> (yes: bool)
        ensures
            yes == (*self is Joined),
    {
        match self {
            Verdict::Joined(_) => true,
            _ => false,
        }
    }
}

/// What a request with a code comes to at a time.
pub open spec fn verdict_on(codes: Seq<Code>, code: u64, now: int) -> Verdict {
    if is_known(codes, code) {
        let found = codes[choose|i: int| first_with(codes, code, i)];
        if found.used {
            Verdict::Used(code)
        } else if found.expired(now) {
            Verdict::Expired(code)
        } else {
            Verdict::Joined(code)
        }
    } else {
        Verdict::Unknown
    }
}

/// The codes after a request with a code.
pub open spec fn codes_after(codes: Seq<Code>, code: u64, now: int) -> Seq<Code> {
    if verdict_on(codes, code, now) is Joined {
        let i = choose|i: int| first_with(codes, code, i);
        codes.update(i, Code { used: true, ..codes[i] })
    } else {
        codes
    }
}

/// What a request comes to at a time.
pub open spec fn verdict(codes: Seq<Code>, request: Seq<u8>, now: int) -> Verdict {
    if request.len() == 8 {
        verdict_on(codes, big_endian(request) as u64, now)
    } else {
        Verdict::Malformed
    }
}

/// The codes after a request.
pub open spec fn codes_after_request(codes: Seq<Code>, request: Seq<u8>, now: int) -> Seq<Code> {
    if request.len() == 8 {
        codes_after(codes, big_endian(request) as u64, now)
    } else {
        codes
    }
}

/// The codes of a node that lets others join its group.
pub struct JoinProtocol {
    codes: Vec<Code>,
    stopwatch: Stopwatch,
}

impl View for JoinProtocol {
    type V = Seq<Code>;

    closed spec fn view(&self) -> Seq<Code> {
        self.codes@
    }
}

impl JoinProtocol {
    /// What the times of the codes are counted on.
    pub closed spec fn stopwatch(self) -> Stopwatch {
        self.stopwatch
    }

    /// The name under which the protocol is negotiated.
    pub fn alpn() -> (name: &'static str)
        ensures
            name@ == "aster/join/0"@,
    {
        "aster/join/0"
    }

    /// No codes yet.
    pub fn new() -> (join: Self)
        ensures
            join@ == Seq::<Code>::empty(),
    {
        JoinProtocol { codes: Vec::new(), stopwatch: Stopwatch::new() }
    }

    /// Get a code that doesn't expire soon. What it is depends on the time and
    /// on chance.
    pub fn get_code(&mut self) -> (code: u64)
        ensures
            exists|now: u128, fresh: u64| #[trigger]
                handed_out(old(self)@, now, fresh, code, final(self)@) && now <= LONGEST,
            final(self).stopwatch() == old(self).stopwatch(),
    {
        let now = self.stopwatch.elapsed();
        let fresh = random_code();
        self.get_code_at(now, fresh)
    }

    /// Get a code that doesn't expire soon: at the given time, and with the
    /// given code where a fresh one is needed.
    pub fn get_code_at(&mut self, now: u128, fresh: u64) -> (code: u64)
        requires
            now + CODE_TTL <= u128::MAX,
        ensures
            handed_out(old(self)@, now, fresh, code, final(self)@),
            final(self).stopwatch() == old(self).stopwatch(),
    {
        self.gc_codes(now);
        match self.find_usable(now) {
            Some(code) => code,
            None => {
                self.codes.push(Code::new(fresh, now));
                fresh
            },
        }
    }

    /// Forgets old codes.
    pub fn gc_codes(&mut self, now: u128)
        ensures
            final(self)@ == remembered(old(self)@, now as int),
            final(self).stopwatch() == old(self).stopwatch(),
    {
        let ghost all = self.codes@;
        let mut kept: Vec<Code> = Vec::new();
        let mut i: usize = 0;
        proof {
            reveal(Seq::filter);
            assert(kept@ =~= remembered(all.take(0), now as int));
        }
        while i < self.codes.len()
            invariant
                i <= all.len(),
                all == self.codes@,
                kept@ == remembered(all.take(i as int), now as int),
            decreases all.len() - i,
        {
            proof {
                reveal(Seq::filter);
                assert(all.take(i + 1).drop_last() =~= all.take(i as int));
            }
            if !self.codes[i].is_old(now) {
                kept.push(self.codes[i]);
            }
            i = i + 1;
        }
        assert(all.take(all.len() as int) =~= all);
        self.codes = kept;
    }

    /// The first code that can be handed out.
    fn find_usable(&self, now: u128) -> (found: Option<u64>)
        ensures
            found is None <==> none_usable(self@, now as int),
            found matches Some(code) ==> exists|i: int| #[trigger]
                first_usable(self@, now as int, i) && code == self@[i].code,
    {
        let mut i: usize = 0;
        while i < self.codes.len()
            invariant
                i <= self.codes@.len(),
                forall|j: int| 0 <= j < i ==> !(#[trigger] self.codes@[j]).usable(now as int),
            decreases self.codes@.len() - i,
        {
            if !self.codes[i].expires_soon(now) && !self.codes[i].used {
                assert(first_usable(self@, now as int, i as int));
                return Some(self.codes[i].code);
            }
            i = i + 1;
        }
        None
    }

    /// Decides a request to join, now.
    pub fn accept(&mut self, request: &[u8]) -> (outcome: Verdict)
        ensures
            exists|now: u128| #[trigger]
                verdict(old(self)@, request@, now as int) == outcome && final(self)@
                    == codes_after_request(old(self)@, request@, now as int) && now <= LONGEST,
            final(self).stopwatch() == old(self).stopwatch(),
    {
        let now = self.stopwatch.elapsed();
        self.accept_at(request, now)
    }

    /// Decides a request to join: a code that is known, unused and not expired
    /// lets the node join, and is used from then on.
    pub fn accept_at(&mut self, request: &[u8], now: u128) -> (outcome: Verdict)
        ensures
            outcome == verdict(old(self)@, request@, now as int),
            final(self)@ == codes_after_request(old(self)@, request@, now as int),
            final(self).stopwatch() == old(self).stopwatch(),
    {
        if request.len() != 8 {
            return Verdict::Malformed;
        }
        let code = u64_from_bytes(request);
        let mut i: usize = 0;
        while i < self.codes.len()
            invariant
                i <= self.codes@.len(),
                self@ == old(self)@,
                self.stopwatch == old(self).stopwatch,
                request@.len() == 8,
                code == big_endian(request@),
                forall|j: int| 0 <= j < i ==> (#[trigger] self.codes@[j]).code != code,
            decreases self.codes@.len() - i,
        {
            if self.codes[i].code == code {
                proof {
                    first_with_is_unique(self@, code, i as int);
                }
                if self.codes[i].used {
                    return Verdict::Used(code);
                }
                if self.codes[i].is_expired(now) {
                    return Verdict::Expired(code);
                }
                let found = self.codes[i];
                self.codes[i] = Code { code: found.code, expires_at: found.expires_at, used: true };
                return Verdict::Joined(code);
            }
            i = i + 1;
        }
        Verdict::Unknown
    }
}

/// `Rng::gen` of `rand::thread_rng` for a `u64`. Nothing is claimed of the
/// number.
#[verifier::external_body]
fn random_code() -> (code: u64) {
    rand::Rng::gen(&mut rand::thread_rng())
}

/// The bytes of a request to join with a code.
pub fn join_request(code: u64) -> (request: [u8; 8])
    ensures
        request@ == to_big_endian(code as nat, 8),
{
    u64_to_bytes(code)
}

/// What a reply means to the node that wants to join.
pub open spec fn reply_means(reply: Seq<u8>) -> Result<(), JoinError> {
    if reply.len() != 1 {
        Err(JoinError::UnexpectedReply)
    } else {
        match response_of(reply[0]) {
            Ok(Response::Success) => Ok(()),
            Ok(Response::ErrorInvalid) => Err(JoinError::Invalid),
            Ok(Response::ErrorExpired) => Err(JoinError::Expired),
            Ok(Response::ErrorUsed) => Err(JoinError::Used),
            Err(e) => Err(e),
        }
    }
}

/// Reads a reply to a request to join.
pub fn read_reply(reply: &[u8]) -> (joined: Result<(), JoinError>)
    ensures
        joined == reply_means(reply@),
{
    if reply.len() != 1 {
        return Err(JoinError::UnexpectedReply);
    }
    match Response::try_from(reply[0]) {
        Ok(Response::Success) => Ok(()),
        Ok(Response::ErrorInvalid) => Err(JoinError::Invalid),
        Ok(Response::ErrorExpired) => Err(JoinError::Expired),
        Ok(Response::ErrorUsed) => Err(JoinError::Used),
        Err(e) => Err(e),
    }
}

/// At most one code is the first with a number.
proof fn first_with_is_unique(codes: Seq<Code>, code: u64, i: int)
    requires
        first_with(codes, code, i),
    ensures
        forall|j: int| #[trigger] first_with(codes, code, j) ==> j == i,
{
    assert forall|j: int| #[trigger] first_with(codes, code, j) implies j == i by {
        if j < i {
            assert(codes[j].code != code);
        } else if i < j {
            assert(codes[i].code != code);
        }
    }
}

/// A code joins once: after it let a node join, it is used, whatever the time.
pub proof fn code_joins_once(codes: Seq<Code>, code: u64, now: int, later: int)
    requires
        verdict_on(codes, code, now) is Joined,
    ensures
        verdict_on(codes_after(codes, code, now), code, later) == Verdict::Used(code),
{
    let i = choose|i: int| first_with(codes, code, i);
    let after = codes_after(codes, code, now);
    assert(first_with(after, code, i)) by {
        assert forall|j: int| 0 <= j < i implies (#[trigger] after[j]).code != code by {
            assert(codes[j].code != code);
        }
    }
    first_with_is_unique(after, code, i);
}

/// A used code stays used, whatever requests come in between.
pub proof fn used_stays_used(codes: Seq<Code>, code: u64, other: u64, now: int, later: int)
    requires
        verdict_on(codes, code, now) == Verdict::Used(code),
    ensures
        verdict_on(codes_after(codes, other, now), code, later) == Verdict::Used(code),
{
    let i = choose|i: int| first_with(codes, code, i);
    let after = codes_after(codes, other, now);
    assert(first_with(after, code, i)) by {
        assert forall|j: int| 0 <= j < i implies (#[trigger] after[j]).code != code by {
            assert(codes[j].code != code);
        }
    }
    first_with_is_unique(after, code, i);
}

/// A request changes nothing unless it lets a node join.
pub proof fn refusal_changes_nothing(codes: Seq<Code>, request: Seq<u8>, now: int)
    requires
        !(verdict(codes, request, now) is Joined),
    ensures
        codes_after_request(codes, request, now) == codes,
{
}

/// A code that was never made lets nobody join.
pub proof fn unknown_code_is_refused(codes: Seq<Code>, code: u64, now: int)
    requires
        forall|i: int| 0 <= i < codes.len() ==> (#[trigger] codes[i]).code != code,
    ensures
        verdict_on(codes, code, now) == Verdict::Unknown,
{
}

/// Whether no two codes have the same number.
pub open spec fn codes_differ(codes: Seq<Code>) -> bool {
    forall|i: int, j: int|
        0 <= i < j < codes.len() ==> (#[trigger] codes[i]).code != (#[trigger] codes[j]).code
}

/// A code that was handed out lets a node join at least for the next minute,
/// where no two codes have the same number.
pub proof fn handed_out_code_joins(
    before: Seq<Code>,
    now: u128,
    fresh: u64,
    code: u64,
    after: Seq<Code>,
    later: int,
)
    requires
        handed_out(before, now, fresh, code, after),
        codes_differ(after),
        now + CODE_TTL <= u128::MAX,
        now <= later <= now + EXPIRES_SOON_THRESHOLD,
    ensures
        verdict_on(after, code, later) == Verdict::Joined(code),
{
    let kept = remembered(before, now as int);
    let i = if none_usable(kept, now as int) {
        kept.len() as int
    } else {
        choose|i: int| #[trigger] first_usable(kept, now as int, i) && code == kept[i].code
    };
    assert(after[i].code == code);
    assert(first_with(after, code, i)) by {
        assert forall|j: int| 0 <= j < i implies (#[trigger] after[j]).code != code by {
            assert(after[j].code != after[i].code);
        }
    }
    first_with_is_unique(after, code, i);
}

/// Handing out codes keeps their numbers different, where a fresh one is.
pub proof fn handing_out_keeps_codes_different(
    before: Seq<Code>,
    now: u128,
    fresh: u64,
    code: u64,
    after: Seq<Code>,
)
    requires
        codes_differ(before),
        handed_out(before, now, fresh, code, after),
        forall|i: int| 0 <= i < before.len() ==> (#[trigger] before[i]).code != fresh,
    ensures
        codes_differ(after),
{
    let kept = remembered(before, now as int);
    remembering_keeps_codes_different(before, now as int);
    assert forall|i: int| 0 <= i < kept.len() implies (#[trigger] kept[i]).code != fresh by {
        assert(kept.contains(kept[i]));
        before.lemma_filter_contains_rev(|c: Code| !c.outdated(now as int), kept[i]);
    }
}

proof fn remembering_keeps_codes_different(codes: Seq<Code>, now: int)
    requires
        codes_differ(codes),
    ensures
        codes_differ(remembered(codes, now)),
    decreases codes.len(),
{
    reveal(Seq::filter);
    if codes.len() > 0 {
        let rest = codes.drop_last();
        let pred = |c: Code| !c.outdated(now);
        assert(codes_differ(rest)) by {
            assert forall|i: int, j: int| 0 <= i < j < rest.len() implies (
            #[trigger] rest[i]).code != (#[trigger] rest[j]).code by {
                assert(codes[i].code != codes[j].code);
            }
        }
        remembering_keeps_codes_different(rest, now);
        let kept = remembered(rest, now);
        assert forall|i: int| 0 <= i < kept.len() implies (#[trigger] kept[i]).code
            != codes.last().code by {
            assert(kept.contains(kept[i]));
            rest.lemma_filter_contains_rev(pred, kept[i]);
            let k = choose|k: int| 0 <= k < rest.len() && rest[k] == kept[i];
            assert(codes[k].code != codes[codes.len() - 1].code);
        }
    }
}

/// Answering requests keeps the numbers of codes different.
pub proof fn answering_keeps_codes_different(codes: Seq<Code>, request: Seq<u8>, now: int)
    requires
        codes_differ(codes),
    ensures
        codes_differ(codes_after_request(codes, request, now)),
{
    let after = codes_after_request(codes, request, now);
    assert forall|i: int, j: int| 0 <= i < j < after.len() implies (#[trigger] after[i]).code != (
    #[trigger] after[j]).code by {
        assert(codes[i].code != codes[j].code);
    }
}

/// The bytes that a node sends for a code ask for that code.
pub proof fn request_is_for_its_code(codes: Seq<Code>, code: u64, now: int)
    ensures
        verdict(codes, to_big_endian(code as nat, 8), now) == verdict_on(codes, code, now),
{
    u64_is_read_back(code);
}

/// A node is told what its request came to. Only that a code is expired is
/// told as that it is invalid.
pub proof fn node_is_told(outcome: Verdict)
    ensures
        reply_means(seq![outcome.answer().byte()]) == (match outcome {
            Verdict::Joined(_) => Ok(()),
            Verdict::Used(_) => Err(JoinError::Used),
            Verdict::Malformed => Err(JoinError::Invalid),
            Verdict::Unknown => Err(JoinError::Invalid),
            Verdict::Expired(_) => Err(JoinError::Invalid),
        }),
{
}

/// An answer is read back from its byte, unless it is that a code is expired.
pub proof fn response_is_read_back(response: Response)
    requires
        response != Response::ErrorExpired,
    ensures
        response_of(response.byte()) == Ok::<_, JoinError>(response),
{
}

/// From its end on, a code lets nobody join: it is told as used where a node
/// joined with it, and as expired where none did. The codes stay as they are.
pub proof fn ended_code_lets_nobody_join(codes: Seq<Code>, i: int, now: int)
    requires
        0 <= i < codes.len(),
        forall|j: int| 0 <= j < i ==> (#[trigger] codes[j]).code != codes[i].code,
        now >= codes[i].expires_at,
    ensures
        verdict_on(codes, codes[i].code, now) == if codes[i].used {
            Verdict::Used(codes[i].code)
        } else {
            Verdict::Expired(codes[i].code)
        },
        codes_after(codes, codes[i].code, now) == codes,
{
    assert(first_with(codes, codes[i].code, i));
    first_with_is_unique(codes, codes[i].code, i);
}

/// Before its end, a code that no node has joined with lets one join. From then
/// on it is used; its number and its end, and all other codes, stay.
pub proof fn unused_code_lets_one_join(codes: Seq<Code>, i: int, now: int)
    requires
        0 <= i < codes.len(),
        forall|j: int| 0 <= j < i ==> (#[trigger] codes[j]).code != codes[i].code,
        now < codes[i].expires_at,
        !codes[i].used,
    ensures
        verdict_on(codes, codes[i].code, now) == Verdict::Joined(codes[i].code),
        ({
            let after = codes_after(codes, codes[i].code, now);
            &&& after.len() == codes.len()
            &&& after[i].used
            &&& after[i].code == codes[i].code
            &&& after[i].expires_at == codes[i].expires_at
            &&& forall|j: int| 0 <= j < codes.len() && j != i ==> #[trigger] after[j] == codes[j]
        }),
{
    assert(first_with(codes, codes[i].code, i));
    first_with_is_unique(codes, codes[i].code, i);
}

/// A used code lets nobody join, before its end too.
pub proof fn used_code_lets_nobody_join(codes: Seq<Code>, i: int, now: int)
    requires
        0 <= i < codes.len(),
        forall|j: int| 0 <= j < i ==> (#[trigger] codes[j]).code != codes[i].code,
        codes[i].used,
    ensures
        verdict_on(codes, codes[i].code, now) == Verdict::Used(codes[i].code),
        codes_after(codes, codes[i].code, now) == codes,
{
    assert(first_with(codes, codes[i].code, i));
    first_with_is_unique(codes, codes[i].code, i);
}

/// Who joins was handed a code: a node joins only with the number of a code
/// that is unused and has not ended.
pub proof fn joining_takes_a_good_code(codes: Seq<Code>, request: Seq<u8>, now: int)
    requires
        verdict(codes, request, now) is Joined,
    ensures
        request.len() == 8,
        exists|i: int|
            0 <= i < codes.len() && (#[trigger] codes[i]).code == big_endian(request)
                && !codes[i].used && now < codes[i].expires_at,
        verdict(codes, request, now)->Joined_0 == big_endian(request),
{
    crate::bytes::eight_bytes(request);
    let code = big_endian(request) as u64;
    let i = choose|i: int| first_with(codes, code, i);
    assert(codes[i].code == code);
}

/// A request that is not eight bytes long is malformed, and no other one is.
pub proof fn requests_are_eight_bytes(codes: Seq<Code>, request: Seq<u8>, now: int)
    ensures
        verdict(codes, request, now) is Malformed <==> request.len() != 8,
        request.len() != 8 ==> codes_after_request(codes, request, now) == codes,
        request.len() == 8 ==> verdict(codes, request, now) == verdict_on(
            codes,
            big_endian(request) as u64,
            now,
        ) && codes_after_request(codes, request, now) == codes_after(
            codes,
            big_endian(request) as u64,
            now,
        ),
{
}

/// A code ends two minutes after it is made: where no code ends later than
/// that, handing one out keeps it so, and what is handed out lets nobody join
/// from two minutes later on.
pub proof fn codes_end_after_two_minutes(
    before: Seq<Code>,
    now: u128,
    fresh: u64,
    code: u64,
    after: Seq<Code>,
    later: int,
)
    requires
        handed_out(before, now, fresh, code, after),
        now + 120_000_000_000 <= u128::MAX,
        forall|i: int|
            0 <= i < before.len() ==> (#[trigger] before[i]).expires_at <= now + 120_000_000_000,
    ensures
        forall|i: int|
            0 <= i < after.len() ==> (#[trigger] after[i]).expires_at <= now + 120_000_000_000,
        later >= now + 120_000_000_000 ==> !(verdict_on(after, code, later) is Joined),
{
    let kept = remembered(before, now as int);
    assert forall|i: int| 0 <= i < kept.len() implies (#[trigger] kept[i]).expires_at <= now
        + 120_000_000_000 by {
        assert(kept.contains(kept[i]));
        before.lemma_filter_contains_rev(|c: Code| !c.outdated(now as int), kept[i]);
        let k = choose|k: int| 0 <= k < before.len() && before[k] == kept[i];
        assert(before[k].expires_at <= now + 120_000_000_000);
    }
    assert forall|i: int| 0 <= i < after.len() implies (#[trigger] after[i]).expires_at <= now
        + 120_000_000_000 by {
        if i < kept.len() {
            assert(after[i] == kept[i]);
        }
    }
    if later >= now + 120_000_000_000 && is_known(after, code) {
        let i = choose|i: int| first_with(after, code, i);
        ended_code_lets_nobody_join(after, i, later);
    }
}

/// What is handed out is good for another minute: where no two codes have the
/// same number, it lets a node join at any time up to a minute later.
pub proof fn handed_out_code_is_good_for_a_minute(
    before: Seq<Code>,
    now: u128,
    fresh: u64,
    code: u64,
    after: Seq<Code>,
    later: int,
)
    requires
        handed_out(before, now, fresh, code, after),
        codes_differ(after),
        now + 120_000_000_000 <= u128::MAX,
        now <= later <= now + 60_000_000_000,
    ensures
        verdict_on(after, code, later) == Verdict::Joined(code),
{
    handed_out_code_joins(before, now, fresh, code, after, later);
}

/// A code that is unused and good for more than a minute is handed out again:
/// no new one is made. Where there is none such, a new one is made, which is
/// good for two minutes.
pub proof fn good_code_is_handed_out_again(
    before: Seq<Code>,
    now: u128,
    fresh: u64,
    code: u64,
    after: Seq<Code>,
)
    requires
        handed_out(before, now, fresh, code, after),
        now + 120_000_000_000 <= u128::MAX,
    ensures
        (exists|i: int|
            0 <= i < before.len() && !(#[trigger] before[i]).used && before[i].expires_at > now
                + 60_000_000_000) ==> after.len() <= before.len() && exists|i: int|
            0 <= i < before.len() && (#[trigger] before[i]).code == code && !before[i].used
                && before[i].expires_at > now + 60_000_000_000 && after.contains(before[i]),
        (forall|i: int|
            0 <= i < before.len() ==> (#[trigger] before[i]).used || before[i].expires_at <= now
                + 60_000_000_000) ==> code == fresh && after.len() > 0 && after.last() == (Code {
            code: fresh,
            expires_at: (now + 120_000_000_000) as u128,
            used: false,
        }),
{
    let t = now as int;
    let kept = remembered(before, t);
    let pred = |c: Code| !c.outdated(t);
    remembering_shortens(before, t);
    if exists|i: int|
        0 <= i < before.len() && !(#[trigger] before[i]).used && before[i].expires_at > now
            + 60_000_000_000 {
        let i = choose|i: int|
            0 <= i < before.len() && !(#[trigger] before[i]).used && before[i].expires_at > now
                + 60_000_000_000;
        assert(pred(before[i]));
        before.lemma_filter_contains(pred, i);
        let k = choose|k: int| 0 <= k < kept.len() && kept[k] == before[i];
        assert(kept[k].usable(t));
        assert(!none_usable(kept, t));
        let f = choose|f: int| #[trigger] first_usable(kept, t, f) && code == kept[f].code;
        assert(kept.contains(kept[f]));
        before.lemma_filter_contains_rev(pred, kept[f]);
        let g = choose|g: int| 0 <= g < before.len() && before[g] == kept[f];
        assert(before[g].code == code);
    }
    if forall|i: int|
        0 <= i < before.len() ==> (#[trigger] before[i]).used || before[i].expires_at <= now
            + 60_000_000_000 {
        assert forall|k: int| 0 <= k < kept.len() implies !(#[trigger] kept[k]).usable(t) by {
            assert(kept.contains(kept[k]));
            before.lemma_filter_contains_rev(pred, kept[k]);
            let g = choose|g: int| 0 <= g < before.len() && before[g] == kept[k];
            assert(before[g].used || before[g].expires_at <= now + 60_000_000_000);
        }
        assert(none_usable(kept, t));
    }
}

proof fn remembering_shortens(codes: Seq<Code>, now: int)
    ensures
        remembered(codes, now).len() <= codes.len(),
    decreases codes.len(),
{
    reveal(Seq::filter);
    if codes.len() > 0 {
        remembering_shortens(codes.drop_last(), now);
    }
}

proof fn first_usable_is_remembered(codes: Seq<Code>, now: int, i: int)
    requires
        first_usable(codes, now, i),
    ensures
        exists|k: int| #[trigger]
            first_usable(remembered(codes, now), now, k) && remembered(codes, now)[k] == codes[i],
    decreases codes.len(),
{
    reveal(Seq::filter);
    let pred = |c: Code| !c.outdated(now);
    let rest = codes.drop_last();
    let kept = remembered(rest, now);
    let all = remembered(codes, now);
    if i < rest.len() {
        assert forall|j: int| 0 <= j < i implies !(#[trigger] rest[j]).usable(now) by {
            assert(rest[j] == codes[j]);
        }
        first_usable_is_remembered(rest, now, i);
        let k = choose|k: int| #[trigger] first_usable(kept, now, k) && kept[k] == rest[i];
        assert forall|j: int| 0 <= j < k implies !(#[trigger] all[j]).usable(now) by {
            assert(all[j] == kept[j]);
        }
        assert(first_usable(all, now, k));
    } else {
        assert(pred(codes.last()));
        assert(all == kept.push(codes.last()));
        let k = kept.len() as int;
        assert forall|j: int| 0 <= j < k implies !(#[trigger] all[j]).usable(now) by {
            assert(all[j] == kept[j]);
            assert(kept.contains(kept[j]));
            rest.lemma_filter_contains_rev(pred, kept[j]);
            let g = choose|g: int| 0 <= g < rest.len() && rest[g] == kept[j];
            assert(codes[g] == rest[g]);
        }
        assert(first_usable(all, now, k));
    }
}

/// Of the codes that are unused and good for more than a minute, the one that
/// was made first is handed out.
pub proof fn first_good_code_is_handed_out(
    before: Seq<Code>,
    now: u128,
    fresh: u64,
    code: u64,
    after: Seq<Code>,
    i: int,
)
    requires
        handed_out(before, now, fresh, code, after),
        0 <= i < before.len(),
        !before[i].used,
        before[i].expires_at > now + 60_000_000_000,
        forall|j: int|
            0 <= j < i ==> (#[trigger] before[j]).used || before[j].expires_at <= now
                + 60_000_000_000,
    ensures
        code == before[i].code,
        after == remembered(before, now as int),
{
    let t = now as int;
    let kept = remembered(before, t);
    assert forall|j: int| 0 <= j < i implies !(#[trigger] before[j]).usable(t) by {
        assert(before[j].used || before[j].expires_at <= now + 60_000_000_000);
    }
    assert(first_usable(before, t, i));
    first_usable_is_remembered(before, t, i);
    let k = choose|k: int| #[trigger] first_usable(kept, t, k) && kept[k] == before[i];
    assert(kept[k].usable(t));
    let f = choose|f: int| #[trigger] first_usable(kept, t, f) && code == kept[f].code;
    if f < k {
        assert(!kept[f].usable(t));
    } else if k < f {
        assert(!kept[k].usable(t));
    }
}

/// A code is remembered up to ten minutes after its end, and forgotten from
/// then on: each code for itself, and in the order in which they were made.
pub proof fn codes_are_remembered_for_ten_minutes(codes: Seq<Code>, code: Code, now: int)
    ensures
        remembered(Seq::empty(), now) == Seq::<Code>::empty(),
        remembered(codes.push(code), now) == if now < code.expires_at + 600_000_000_000 {
            remembered(codes, now).push(code)
        } else {
            remembered(codes, now)
        },
{
    reveal(Seq::filter);
    assert(codes.push(code).drop_last() =~= codes);
}

/// What goes over the wire: zero lets the node join, one and two tell that the
/// code is not known or has ended, three that it was used, and nothing else is
/// an answer.
pub proof fn answers_on_the_wire(byte: u8, reply: Seq<u8>)
    ensures
        Response::Success.byte() == 0,
        Response::ErrorInvalid.byte() == 1,
        Response::ErrorExpired.byte() == 2,
        Response::ErrorUsed.byte() == 3,
        reply_means(seq![byte]) == (if byte == 0 {
            Ok(())
        } else if byte == 1 || byte == 2 {
            Err(JoinError::Invalid)
        } else if byte == 3 {
            Err(JoinError::Used)
        } else {
            Err(JoinError::UnknownReply)
        }),
        reply.len() != 1 ==> reply_means(reply) == Err::<(), _>(JoinError::UnexpectedReply),
{
}

/// A node is answered that it joined exactly where it did.
pub proof fn success_is_answered_to_who_joins(outcome: Verdict)
    ensures
        outcome.answer() == Response::Success <==> outcome is Joined,
        outcome.answer() == Response::ErrorUsed <==> outcome is Used,
        outcome.answer() == Response::ErrorExpired <==> outcome is Expired,
        outcome.answer() == Response::ErrorInvalid <==> outcome is Malformed || outcome is Unknown,
{
}

} // verus!
