//! SHA-256 hashing of byte strings, rendered as lowercase hex.
use vstd::prelude::*;

use sha2::{Digest, Sha256};
use vstd::string::StringSliceAdditionalSpecFns;

verus! {

/// The SHA-256 digest of a byte string, as the `sha2` crate computes it.
pub uninterp spec fn sha256(data: Seq<u8>) -> Seq<u8>;

/// The lowercase hex digit of a value below 16.
pub open spec fn hex_digit(n: u8) -> char {
    if n < 10 {
        (48 + n) as char
    } else {
        (87 + n) as char
    }
}

/// Each byte spelled as two lowercase hex digits, high half first.
pub open spec fn hex_lower(bytes: Seq<u8>) -> Seq<char>
    decreases bytes.len(),
{
    if bytes.len() == 0 {
        Seq::empty()
    } else {
        hex_lower(bytes.drop_last()) + seq![
            hex_digit(bytes.last() / 16),
            hex_digit(bytes.last() % 16),
        ]
    }
}

/// A character is one of `0-9a-f`.
pub open spec fn is_lower_hex_char(c: char) -> bool {
    ('0' <= c && c <= '9') || ('a' <= c && c <= 'f')
}

/// The hex string of the SHA-256 digest of `data`.
pub open spec fn spec_hash_hex(data: Seq<u8>) -> Seq<char> {
    hex_lower(sha256(data))
}

/// The value of a lowercase hex digit.
pub open spec fn hex_value(c: char) -> int {
    if c as int <= 57 {
        c as int - 48
    } else {
        c as int - 87
    }
}

/// `h` spells the bytes `b`: two lowercase hex digits per byte, the high
/// half first, read back as the byte.
pub open spec fn spells_bytes(h: Seq<char>, b: Seq<u8>) -> bool {
    &&& h.len() == 2 * b.len()
    &&& forall|i: int| 0 <= i < h.len() ==> is_lower_hex_char(#[trigger] h[i])
    &&& forall|i: int|
        0 <= i < b.len() ==> hex_value(h[2 * i]) * 16 + hex_value(h[2 * i + 1]) == #[trigger] b[i]
}

proof fn lemma_hex_digit_value(x: u8)
    requires
        x < 16,
    ensures
        hex_value(hex_digit(x)) == x,
        is_lower_hex_char(hex_digit(x)),
{
    if x < 10 {
        assert(hex_digit(x) as int == 48 + x);
    } else {
        assert(hex_digit(x) as int == 87 + x);
    }
}

/// The hex rendering of a byte string spells every one of its bytes, and
/// nothing else.
pub proof fn lemma_hex_lower_spells(bytes: Seq<u8>)
    ensures
        spells_bytes(hex_lower(bytes), bytes),
    decreases bytes.len(),
{
    lemma_hex_lower_shape(bytes);
    if bytes.len() > 0 {
        let pre = bytes.drop_last();
        let n = bytes.len() - 1;
        let b = bytes.last();
        lemma_hex_lower_spells(pre);
        let h = hex_lower(bytes);
        let hp = hex_lower(pre);
        assert(b / 16 < 16);
        assert(b % 16 < 16);
        lemma_hex_digit_value(b / 16);
        lemma_hex_digit_value(b % 16);
        assert((b / 16) * 16 + b % 16 == b) by (bit_vector);
        assert forall|i: int| 0 <= i < bytes.len() implies hex_value(h[2 * i]) * 16 + hex_value(
            h[2 * i + 1],
        ) == #[trigger] bytes[i] by {
            if i < n {
                assert(h[2 * i] == hp[2 * i]);
                assert(h[2 * i + 1] == hp[2 * i + 1]);
                assert(pre[i] == bytes[i]);
            } else {
                assert(h[2 * i] == hex_digit(b / 16));
                assert(h[2 * i + 1] == hex_digit(b % 16));
            }
        }
    }
}

/// The hash of a byte string spells the SHA-256 digest of that byte string,
/// byte by byte.
pub proof fn lemma_hash_hex_spells_digest(data: Seq<u8>)
    ensures
        spells_bytes(spec_hash_hex(data), sha256(data)),
{
    lemma_hex_lower_spells(sha256(data));
}

/// A hex rendering has two digits per byte, each one of `0-9a-f`.
pub proof fn lemma_hex_lower_shape(bytes: Seq<u8>)
    ensures
        hex_lower(bytes).len() == 2 * bytes.len(),
        forall|i: int| 0 <= i < hex_lower(bytes).len() ==> is_lower_hex_char(#[trigger] hex_lower(bytes)[i]),
    decreases bytes.len(),
{
    if bytes.len() > 0 {
        let prefix = bytes.drop_last();
        lemma_hex_lower_shape(prefix);
        let b = bytes.last();
        assert(b / 16 < 16);
        assert(b % 16 < 16);
        let tail = seq![hex_digit(b / 16), hex_digit(b % 16)];
        assert forall|i: int| 0 <= i < hex_lower(bytes).len() implies is_lower_hex_char(
            #[trigger] hex_lower(bytes)[i],
        ) by {
            if i < hex_lower(prefix).len() {
                assert(hex_lower(bytes)[i] == hex_lower(prefix)[i]);
            } else {
                assert(hex_lower(bytes)[i] == tail[i - hex_lower(prefix).len()]);
            }
        }
    }
}

/// A SHA-256 computation over bytes fed to it piece by piece. It holds a
/// `sha2::Sha256`, whose type Verus cannot declare (it is an alias of a
/// wrapper generic over `typenum` bounds), so the struct is opaque.
#[verifier::external_body]
pub struct StreamHasher {
    hasher: Sha256,
}

/// The bytes fed so far to a stream hasher, in order.
pub uninterp spec fn fed_bytes(h: StreamHasher) -> Seq<u8>;

impl StreamHasher {
    /// The bytes fed so far, in order.
    pub open spec fn fed(&self) -> Seq<u8> {
        fed_bytes(*self)
    }
}

/// Calls `<sha2::Sha256 as digest::Digest>::new`. Claimed: the hasher has
/// been fed nothing.
#[verifier::external_body]
fn sha256_start() -> (s: StreamHasher)
    ensures
        fed_bytes(s) == Seq::<u8>::empty(),
{
    StreamHasher { hasher: Sha256::new() }
}

/// Calls `<sha2::Sha256 as digest::Digest>::update`, which processes `data`
/// after what the hasher was fed before. Claimed: the bytes fed are now the
/// earlier ones followed by `data`.
#[verifier::external_body]
fn sha256_feed(s: &mut StreamHasher, data: &[u8])
    ensures
        fed_bytes(*final(s)) == fed_bytes(*old(s)) + data@,
{
    s.hasher.update(data);
}

/// Calls `<sha2::Sha256 as digest::Digest>::finalize`. Claimed: the result is
/// the value named `sha256` for all the bytes fed, and it is 32 bytes long
/// (`Sha256`'s output size is `U32` in the crate's source).
#[verifier::external_body]
fn sha256_finish(s: StreamHasher) -> (digest: Vec<u8>)
    ensures
        digest@ == sha256(fed_bytes(s)),
        digest@.len() == 32,
{
    s.hasher.finalize().to_vec()
}

impl StreamHasher {
    /// A hasher that has been fed nothing.
    pub fn new() -> (s: Self)
        ensures
            s.fed() == Seq::<u8>::empty(),
    {
        sha256_start()
    }

    /// Feed the hasher the next piece of its input.
    pub fn update(&mut self, data: &[u8])
        ensures
            final(self).fed() == old(self).fed() + data@,
    {
        sha256_feed(self, data);
    }

    /// The hex string of the SHA-256 digest of all the bytes fed.
    pub fn finish(self) -> (h: String)
        ensures
            h@ == spec_hash_hex(self.fed()),
            spells_bytes(h@, sha256(self.fed())),
            h@.len() == 64,
            forall|i: int| 0 <= i < h@.len() ==> is_lower_hex_char(#[trigger] h@[i]),
    {
        let digest = sha256_finish(self);
        hex_string(digest.as_slice())
    }
}

/// Calls `hex::encode`. Claimed: the result spells each byte of `data` as two
/// lowercase hex digits, high half first (the crate maps `byte >> 4` and
/// `byte & 0x0F` through the table `0123456789abcdef`).
#[verifier::external_body]
fn hex_encode(data: &[u8]) -> (s: String)
    ensures
        s@ == hex_lower(data@),
{
    hex::encode(data)
}

/// The lowercase hex rendering of a byte string: two digits per byte.
pub fn hex_string(bytes: &[u8]) -> (s: String)
    ensures
        s@ == hex_lower(bytes@),
        spells_bytes(s@, bytes@),
        s@.len() == 2 * bytes@.len(),
        forall|i: int| 0 <= i < s@.len() ==> is_lower_hex_char(#[trigger] s@[i]),
{
    proof {
        lemma_hex_lower_shape(bytes@);
        lemma_hex_lower_spells(bytes@);
    }
    hex_encode(bytes)
}

/// Hash raw bytes and return hex string
pub fn hash_bytes(data: &[u8]) -> (h: String)
    ensures
        h@ == spec_hash_hex(data@),
        spells_bytes(h@, sha256(data@)),
        h@.len() == 64,
        forall|i: int| 0 <= i < h@.len() ==> is_lower_hex_char(#[trigger] h@[i]),
{
    let mut hasher = StreamHasher::new();
    hasher.update(data);
    assert(hasher.fed() =~= data@);
    hasher.finish()
}

/// Hash a string
pub fn hash_string(input: &str) -> (h: String)
    ensures
        h@ == spec_hash_hex(input.spec_bytes()),
        spells_bytes(h@, sha256(input.spec_bytes())),
        h@.len() == 64,
        forall|i: int| 0 <= i < h@.len() ==> is_lower_hex_char(#[trigger] h@[i]),
{
    hash_bytes(input.as_bytes())
}

} // verus!
