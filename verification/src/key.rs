//! Node identities: ed25519 keys and signatures as plain bytes.

use vstd::prelude::*;

verus! {

/// A public key, in its 32-byte compressed form.
#[derive(Debug, Clone, Copy, Eq, Hash)]
pub struct PublicKey {
    pub bytes: [u8; 32],
}

/// The identifier of a node is its public key.
pub type NodeId = PublicKey;

impl PartialEq for PublicKey {
    fn eq(&self, other: &Self) -> (same: bool) {
        let mut i: usize = 0;
        while i < 32
            invariant
                i <= 32,
                forall|j: int| 0 <= j < i ==> self.bytes@[j] == other.bytes@[j],
            decreases 32 - i,
        {
            if self.bytes[i] != other.bytes[i] {
                return false;
            }
            i = i + 1;
        }
        assert(self.bytes =~= other.bytes);
        true
    }
}

impl vstd::std_specs::cmp::PartialEqSpecImpl for PublicKey {
    open spec fn obeys_eq_spec() -> bool {
        true
    }

    open spec fn eq_spec(&self, other: &Self) -> bool {
        *self == *other
    }
}

impl PublicKey {
    /// Whether this key comes before another one: byte by byte, at the first
    /// byte in which they differ, it holds the smaller byte.
    pub open spec fn before(self, other: Self) -> bool {
        exists|k: int| self.smaller_at(other, k)
    }

    /// Whether `k` is the first byte in which the keys differ, and this key
    /// holds the smaller byte there.
    pub open spec fn smaller_at(self, other: Self, k: int) -> bool {
        &&& 0 <= k < 32
        &&& self.bytes@[k] < other.bytes@[k]
        &&& forall|j: int| 0 <= j < k ==> self.bytes@[j] == other.bytes@[j]
    }

    /// Decides [`PublicKey::before`].
    pub fn is_before(&self, other: &Self) -> (less: bool)
        ensures
            less == self.before(*other),
    {
        let mut i: usize = 0;
        while i < 32
            invariant
                i <= 32,
                forall|j: int| 0 <= j < i ==> self.bytes@[j] == other.bytes@[j],
            decreases 32 - i,
        {
            if self.bytes[i] != other.bytes[i] {
                let less = self.bytes[i] < other.bytes[i];
                proof {
                    if less {
                        assert(self.smaller_at(*other, i as int));
                    } else if self.before(*other) {
                        let k = choose|k: int| self.smaller_at(*other, k);
                        assert(k <= i);
                        assert(i <= k);
                    }
                }
                return less;
            }
            i = i + 1;
        }
        false
    }

    /// The order of keys is irreflexive.
    pub proof fn before_irreflexive(a: Self)
        ensures
            !a.before(a),
    {
    }

    /// The order of keys is transitive.
    pub proof fn before_transitive(a: Self, b: Self, c: Self)
        requires
            a.before(b),
            b.before(c),
        ensures
            a.before(c),
    {
        let i = choose|k: int| a.smaller_at(b, k);
        let j = choose|k: int| b.smaller_at(c, k);
        let k = if i < j { i } else { j };
        assert(a.smaller_at(c, k));
    }

    /// Of two different keys, one comes before the other.
    pub proof fn before_total(a: Self, b: Self)
        ensures
            a == b || a.before(b) || b.before(a),
    {
        if a != b {
            let k = Self::first_difference(a, b, 0);
            if a.bytes@[k] < b.bytes@[k] {
                assert(a.smaller_at(b, k));
            } else {
                assert(b.smaller_at(a, k));
            }
        }
    }

    proof fn first_difference(a: Self, b: Self, from: int) -> (k: int)
        requires
            a != b,
            0 <= from <= 32,
            forall|j: int| 0 <= j < from ==> a.bytes@[j] == b.bytes@[j],
        ensures
            0 <= k < 32,
            a.bytes@[k] != b.bytes@[k],
            forall|j: int| 0 <= j < k ==> a.bytes@[j] == b.bytes@[j],
        decreases 32 - from,
    {
        if from == 32 {
            assert(a.bytes =~= b.bytes);
            0
        } else if a.bytes@[from] != b.bytes@[from] {
            from
        } else {
            Self::first_difference(a, b, from + 1)
        }
    }

    /// The key that 32 bytes hold, or why they are not the compressed form of a
    /// point of the curve.
    pub fn from_bytes(bytes: &[u8; 32]) -> (key: Result<PublicKey, String>)
        ensures
            key is Ok <==> is_public_key(bytes@),
            key matches Ok(k) ==> k.bytes == *bytes,
            key matches Err(cause) ==> key_refusal(bytes@) == Some(cause@),
    {
        match refuse_point(bytes) {
            None => Ok(PublicKey { bytes: *bytes }),
            Some(cause) => Err(cause),
        }
    }

    /// The key that a text names, in hexadecimal or base32, or why it names
    /// none.
    pub fn parse(text: &str) -> (key: Result<PublicKey, String>)
        ensures
            key is Ok <==> public_key_named(text@) is Ok,
            key matches Ok(k) ==> public_key_named(text@) == Ok::<Seq<u8>, Seq<char>>(k.bytes@)
                && is_public_key(k.bytes@),
            key matches Err(cause) ==> public_key_named(text@) == Err::<Seq<u8>, Seq<char>>(
                cause@,
            ),
    {
        match parse_public_key(text) {
            Ok(bytes) => Ok(PublicKey { bytes }),
            Err(cause) => Err(cause),
        }
    }

    /// Whether `signature` is one of the holder of this key on `message`.
    pub fn verify(&self, message: &[u8], signature: &Signature) -> (accepted: bool)
        ensures
            accepted == signature_accepted(self.bytes@, message@, signature.bytes@),
    {
        verify_signature(&self.bytes, message, &signature.bytes)
    }
}

/// A signature, in its 64-byte form.
#[derive(Debug, Clone, Copy, PartialEq, Eq, Hash)]
pub struct Signature {
    pub bytes: [u8; 64],
}

/// A key pair: 32 secret bytes, and the public key that they give.
#[derive(Clone, Copy)]
pub struct SecretKey {
    bytes: [u8; 32],
    public: PublicKey,
}

impl SecretKey {
    #[verifier::type_invariant]
    spec fn is_pair(self) -> bool {
        &&& self.public.bytes@ == derived_public_key(self.bytes@)
        &&& is_public_key(self.public.bytes@)
    }

    /// The secret half of the pair.
    pub closed spec fn secret(self) -> Seq<u8> {
        self.bytes@
    }

    /// The public half of the pair.
    pub closed spec fn id(self) -> PublicKey {
        self.public
    }

    /// A new key pair, from the randomness of the operating system.
    pub fn generate() -> (key: SecretKey)
        ensures
            key.id().bytes@ == derived_public_key(key.secret()),
    {
        let bytes = random_secret();
        SecretKey::from_bytes(&bytes)
    }

    /// The key pair of 32 secret bytes.
    pub fn from_bytes(bytes: &[u8; 32]) -> (key: SecretKey)
        ensures
            key.secret() == bytes@,
            key.id().bytes@ == derived_public_key(bytes@),
    {
        let public = PublicKey { bytes: derive_public(bytes) };
        SecretKey { bytes: *bytes, public }
    }

    /// The secret bytes.
    pub fn to_bytes(&self) -> (bytes: [u8; 32])
        ensures
            bytes@ == self.secret(),
    {
        self.bytes
    }

    /// The public key of the pair.
    pub fn public(&self) -> (key: PublicKey)
        ensures
            key == self.id(),
            key.bytes@ == derived_public_key(self.secret()),
            is_public_key(key.bytes@),
    {
        proof {
            use_type_invariant(self);
        }
        self.public
    }

    /// Signs a message. The public key of the pair accepts the signature,
    /// unless its first half is the neutral point of the curve.
    pub fn sign(&self, message: &[u8]) -> (signature: Signature)
        ensures
            signature.bytes@ == ed25519_signature(self.secret(), message@),
            !commits_to_neutral_point(signature.bytes@) ==> signature_accepted(
                self.id().bytes@,
                message@,
                signature.bytes@,
            ),
    {
        proof {
            use_type_invariant(self);
        }
        Signature { bytes: sign_message(&self.bytes, message) }
    }
}

/// Whether the first half of a signature encodes the neutral point, the one
/// commitment that strict verification turns down.
pub open spec fn commits_to_neutral_point(signature: Seq<u8>) -> bool {
    &&& signature[0] == 1
    &&& forall|i: int| 1 <= i < 32 ==> signature[i] == 0
}

/// The text of the error with which `iroh_base::PublicKey::from_bytes` turns
/// bytes down, if it does.
pub uninterp spec fn key_refusal(bytes: Seq<u8>) -> Option<Seq<char>>;

/// Whether bytes are a public key.
pub open spec fn is_public_key(bytes: Seq<u8>) -> bool {
    key_refusal(bytes) is None
}

/// What `iroh_base::PublicKey::from_str` reads, or the text of its error.
pub uninterp spec fn public_key_named(text: Seq<char>) -> Result<Seq<u8>, Seq<char>>;

/// What `iroh_base::SecretKey::public` derives.
pub uninterp spec fn derived_public_key(secret: Seq<u8>) -> Seq<u8>;

/// What `iroh_base::SecretKey::sign` computes.
pub uninterp spec fn ed25519_signature(secret: Seq<u8>, message: Seq<u8>) -> Seq<u8>;

/// What `iroh_base::PublicKey::verify` decides.
pub uninterp spec fn signature_accepted(
    public: Seq<u8>,
    message: Seq<u8>,
    signature: Seq<u8>,
) -> bool;

/// `iroh_base::PublicKey::from_bytes`: whether it turns the bytes down, which
/// is whether they do not decompress to a point of the curve. The answer is a
/// function of the bytes, and so is the error, which is written out by
/// `anyhow::Error`, with its sources.
#[verifier::external_body]
fn refuse_point(bytes: &[u8; 32]) -> (refusal: Option<String>)
    ensures
        refusal is Some <==> key_refusal(bytes@) is Some,
        refusal matches Some(cause) ==> key_refusal(bytes@) == Some(cause@),
{
    iroh_base::PublicKey::from_bytes(bytes).err()
        .map(|e| format!("{:#}", anyhow::Error::new(e)))
}

/// `iroh_base::PublicKey::from_str`: the bytes of the key that a hexadecimal
/// or base32 text names, or an error, which is written out by `anyhow::Error`,
/// with its sources. The answer is a function of the text, and what it names
/// is a public key.
#[verifier::external_body]
fn parse_public_key(text: &str) -> (key: Result<[u8; 32], String>)
    ensures
        key is Ok <==> public_key_named(text@) is Ok,
        key is Ok ==> key->Ok_0@ == public_key_named(text@)->Ok_0 && is_public_key(key->Ok_0@),
        key is Err ==> key->Err_0@ == public_key_named(text@)->Err_0,
{
    text.parse::<iroh_base::PublicKey>().map(|key| *key.as_bytes())
        .map_err(|e| format!("{:#}", anyhow::Error::new(e)))
}

/// `iroh_base::SecretKey::generate` on `rand::rngs::OsRng`. Nothing is claimed
/// of the bytes.
#[verifier::external_body]
fn random_secret() -> (secret: [u8; 32]) {
    iroh_base::SecretKey::generate(rand::rngs::OsRng).to_bytes()
}

/// `iroh_base::SecretKey::public`: the public key is a function of the secret
/// bytes, and the compressed form of a point of the curve.
#[verifier::external_body]
fn derive_public(secret: &[u8; 32]) -> (public: [u8; 32])
    ensures
        public@ == derived_public_key(secret@),
        is_public_key(public@),
{
    *iroh_base::SecretKey::from_bytes(secret).public().as_bytes()
}

/// `iroh_base::SecretKey::sign`: ed25519 signing is deterministic, so the
/// signature is a function of the secret bytes and the message. Verification
/// under the derived public key accepts it, unless the commitment in its first
/// half is the neutral point.
#[verifier::external_body]
fn sign_message(secret: &[u8; 32], message: &[u8]) -> (signature: [u8; 64])
    ensures
        signature@ == ed25519_signature(secret@, message@),
        !commits_to_neutral_point(signature@) ==> signature_accepted(
            derived_public_key(secret@),
            message@,
            signature@,
        ),
{
    iroh_base::SecretKey::from_bytes(secret).sign(message).to_bytes()
}

/// `iroh_base::PublicKey::verify`: strict ed25519 verification, a function of
/// the key, the message and the signature. Bytes that are no public key accept
/// nothing.
#[verifier::external_body]
fn verify_signature(public: &[u8; 32], message: &[u8], signature: &[u8; 64]) -> (accepted: bool)
    ensures
        accepted == signature_accepted(public@, message@, signature@),
{
    match iroh_base::PublicKey::from_bytes(public) {
        Ok(key) => key.verify(message, &iroh_base::Signature::from_bytes(signature)).is_ok(),
        Err(_) => false,
    }
}

/// Keys compare by the first byte in which they differ.
pub proof fn first_difference_decides(a: PublicKey, b: PublicKey, k: int)
    requires
        0 <= k < 32,
        forall|j: int| 0 <= j < k ==> a.bytes@[j] == b.bytes@[j],
        a.bytes@[k] < b.bytes@[k],
    ensures
        a.before(b),
        !b.before(a),
{
    assert(a.smaller_at(b, k));
    if b.before(a) {
        let l = choose|l: int| b.smaller_at(a, l);
        if l < k {
            assert(a.bytes@[l] == b.bytes@[l]);
        } else if k < l {
            assert(b.bytes@[k] == a.bytes@[k]);
        }
    }
}

} // verus!
