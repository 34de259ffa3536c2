//! Content hashes: SHA-256 digests in lowercase hex, a streaming hasher for
//! file contents, and the 64-bit fingerprint of an archive member.
use vstd::prelude::*;
use sha2::Digest;
use crate::text::chars_of;

verus! {

/// The SHA-256 digest of a byte sequence, as the `sha2` crate computes it.
pub uninterp spec fn sha256(data: Seq<u8>) -> Seq<u8>;

/// Calls `sha2::Sha256::digest`: the contract names the digest of `data` and
/// states that it is 32 bytes long (the output size of SHA-256).
#[verifier::external_body]
fn sha256_digest(data: &[u8]) -> (r: Vec<u8>)
    ensures
        r@ == sha256(data@),
        r@.len() == 32,
{
    sha2::Sha256::digest(data).to_vec()
}

/// The lowercase hex digit of a nibble.
pub open spec fn hex_char(d: int) -> char {
    if d < 10 {
        ((48 + d) as u8) as char
    } else {
        ((87 + d) as u8) as char
    }
}

/// Bytes as lowercase hex text, two digits per byte, high nibble first.
pub open spec fn lower_hex(b: Seq<u8>) -> Seq<char> {
    Seq::new(2 * b.len(), |i: int| hex_char(if i % 2 == 0 { (b[i / 2] as int) / 16 } else { (b[i / 2] as int) % 16 }))
}

/// Calls `hex::encode`, which writes each byte as two lowercase hex digits,
/// high nibble first.
#[verifier::external_body]
fn hex_encode(data: &[u8]) -> (r: String)
    ensures
        r@ == lower_hex(data@),
{
    hex::encode(data)
}

/// The SHA-256 digest of `data` in lowercase hex.
pub fn hash_bytes(data: &[u8]) -> (r: String)
    ensures
        r@ == lower_hex(sha256(data@)),
        r@.len() == 64,
{
    let d = sha256_digest(data);
    hex_encode(d.as_slice())
}

/// A SHA-256 hasher fed piece by piece: it holds a `sha2::Sha256`, opaque to
/// proofs, and what it has been fed is named by `absorbed`.
#[verifier::external_body]
pub struct ContentHasher {
    inner: sha2::Sha256,
}

/// The bytes a hasher has been fed so far.
pub uninterp spec fn absorbed(h: ContentHasher) -> Seq<u8>;

/// Calls `sha2::Sha256::new`: a hasher that has been fed nothing.
#[verifier::external_body]
fn hasher_new() -> (h: ContentHasher)
    ensures
        absorbed(h) == Seq::<u8>::empty(),
{
    ContentHasher { inner: sha2::Sha256::new() }
}

/// Calls `Digest::update` on a `sha2::Sha256`: the hasher has then been fed `chunk` too.
#[verifier::external_body]
fn hasher_update(h: &mut ContentHasher, chunk: &[u8])
    ensures
        absorbed(*final(h)) == absorbed(*old(h)) + chunk@,
{
    h.inner.update(chunk)
}

/// Calls `Digest::finalize` on a `sha2::Sha256`: the digest of all it was fed,
/// the same as `sha2::Sha256::digest` of those bytes.
#[verifier::external_body]
fn hasher_finalize(h: ContentHasher) -> (r: Vec<u8>)
    ensures
        r@ == sha256(absorbed(h)),
{
    h.inner.finalize().to_vec()
}

impl ContentHasher {
    /// A hasher that has been fed nothing.
    pub fn new() -> (h: Self)
        ensures
            absorbed(h) == Seq::<u8>::empty(),
    {
        hasher_new()
    }

    /// Feeds `chunk` to the hasher.
    pub fn update(&mut self, chunk: &[u8])
        ensures
            absorbed(*final(self)) == absorbed(*old(self)) + chunk@,
    {
        hasher_update(self, chunk)
    }

    /// The digest of all bytes fed, in lowercase hex.
    pub fn finish(self) -> (r: String)
        ensures
            r@ == lower_hex(sha256(absorbed(self))),
    {
        let d = hasher_finalize(self);
        hex_encode(d.as_slice())
    }
}

/// What a hasher holding `fed` holds after `update` with each of `chunks` in
/// turn (as `update`'s contract says).
pub open spec fn fed_in_turn(fed: Seq<u8>, chunks: Seq<Seq<u8>>) -> Seq<u8>
    decreases chunks.len(),
{
    if chunks.len() == 0 {
        fed
    } else {
        fed_in_turn(fed, chunks.drop_last()) + chunks.last()
    }
}

/// Hashing in chunks is hashing the whole: a new `ContentHasher` fed the
/// chunks in turn holds their concatenation, so its `finish` gives the text
/// that `hash_bytes` gives for the whole content.
pub proof fn law_chunks_hash_as_whole(chunks: Seq<Seq<u8>>)
    ensures
        fed_in_turn(Seq::empty(), chunks) == chunks.flatten(),
        lower_hex(sha256(fed_in_turn(Seq::empty(), chunks))) == lower_hex(sha256(chunks.flatten())),
    decreases chunks.len(),
{
    if chunks.len() == 0 {
        assert(chunks.flatten() =~= Seq::<u8>::empty());
    } else {
        law_chunks_hash_as_whole(chunks.drop_last());
        chunks.lemma_flatten_and_flatten_alt_are_equivalent();
        chunks.drop_last().lemma_flatten_and_flatten_alt_are_equivalent();
    }
}

/// The value of a lowercase hex digit.
pub open spec fn hex_value(c: char) -> int {
    if '0' <= c <= '9' {
        c as int - 48
    } else {
        c as int - 87
    }
}

/// The number written by lowercase hex digits.
pub open spec fn hex_number(s: Seq<char>) -> nat
    decreases s.len(),
{
    if s.len() == 0 {
        0
    } else {
        (hex_number(s.drop_last()) * 16 + hex_value(s.last())) as nat
    }
}

proof fn lemma_hex_char(d: int)
    requires
        0 <= d < 16,
    ensures
        hex_value(hex_char(d)) == d,
{
}

/// The fingerprint of a small archive member: the first 16 hex digits of the
/// SHA-256 digest of its content, read as a number.
pub fn entry_fingerprint(content: &[u8]) -> (r: u64)
    ensures
        r == hex_number(lower_hex(sha256(content@)).take(16)),
{
    let h = hash_bytes(content);
    let ghost text = h@;
    let mut v: u64 = 0;
    let mut i: usize = 0;
    let cs = chars_of(h.as_str());
    while i < 16
        invariant
            i <= 16,
            text.len() == 64,
            text == lower_hex(sha256(content@)),
            v == hex_number(text.take(i as int)),
            v < pow16(i as nat),
            cs@ == text,
        decreases 16 - i,
    {
        let c = cs[i];
        let d = if '0' <= c && c <= '9' { (c as u32 - 48) as u64 } else { (c as u32 - 87) as u64 };
        proof {
            let b = sha256(content@);
            let k = i as int;
            let nib = if k % 2 == 0 { (b[k / 2] as int) / 16 } else { (b[k / 2] as int) % 16 };
            assert(text[k] == hex_char(nib));
            lemma_hex_char(nib);
            assert(text.take(k + 1).drop_last() =~= text.take(k));
            assert(v * 16 + d < pow16((i + 1) as nat)) by (nonlinear_arith)
                requires v < pow16(i as nat), d < 16, pow16((i + 1) as nat) == 16 * pow16(i as nat);
            assert(pow16((i + 1) as nat) <= pow16(16)) by {
                lemma_pow16_mono((i + 1) as nat, 16);
            }
            assert(pow16(16) == 0x1_0000_0000_0000_0000) by {
                reveal_with_fuel(pow16, 17);
            }
        }
        v = v * 16 + d;
        i = i + 1;
    }
    v
}

/// Sixteen to the power `k`.
pub open spec fn pow16(k: nat) -> nat
    decreases k,
{
    if k == 0 {
        1
    } else {
        16 * pow16((k - 1) as nat)
    }
}

proof fn lemma_pow16_mono(a: nat, b: nat)
    requires
        a <= b,
    ensures
        pow16(a) <= pow16(b),
    decreases b,
{
    if a < b {
        lemma_pow16_mono(a, (b - 1) as nat);
    }
}

/// The fingerprint of a large archive member: its size with the byte length of
/// its name mixed in by exclusive or.
pub fn large_entry_fingerprint(size: u64, name: &str) -> (r: u64)
    ensures
        r == size ^ (name.len() as u64),
{
    size ^ (name.len() as u64)
}

} // verus!
