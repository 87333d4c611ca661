//! STREAM (LE31) encryption and decryption over the supported AEADs.
use crate::error::Error;
use crate::primitives::{AAD_MAX, AEAD_TAG_SIZE, BLOCK_SIZE, COUNTER_MAX, KEY_LEN};
use aead::stream::{NewStream, StreamLE31, StreamPrimitive};
use aead::{KeyInit, Payload};
use aes_gcm::Aes256Gcm;
use chacha20poly1305::XChaCha20Poly1305;
use vstd::prelude::*;

verus! {

/// The AEADs that a stream can be sealed with.
#[derive(Clone, Copy, Debug, PartialEq, Eq, Structural)]
pub enum Algorithm {
    XChaCha20Poly1305,
    Aes256Gcm,
}

impl Algorithm {
    /// Nonce length of the algorithm, without the four bytes that STREAM keeps
    /// for its counter and last-block flag.
    pub open spec fn spec_nonce_len(self) -> nat {
        match self {
            Algorithm::XChaCha20Poly1305 => 20,
            Algorithm::Aes256Gcm => 8,
        }
    }

    /// The nonce length that a stream of this algorithm takes.
    pub fn nonce_len(&self) -> (r: usize)
        ensures
            r == self.spec_nonce_len(),
    {
        match self {
            Algorithm::XChaCha20Poly1305 => 20,
            Algorithm::Aes256Gcm => 8,
        }
    }
}

/// The block that XChaCha20-Poly1305 under STREAM LE31 seals `msg` into, with
/// the given key, nonce, position, last-block flag and associated data.
pub uninterp spec fn xchacha20poly1305_le31_seal(
    key: Seq<u8>,
    nonce: Seq<u8>,
    position: nat,
    last: bool,
    aad: Seq<u8>,
    msg: Seq<u8>,
) -> Seq<u8>;

/// The block that AES-256-GCM under STREAM LE31 seals `msg` into, with the
/// given key, nonce, position, last-block flag and associated data.
pub uninterp spec fn aes256gcm_le31_seal(
    key: Seq<u8>,
    nonce: Seq<u8>,
    position: nat,
    last: bool,
    aad: Seq<u8>,
    msg: Seq<u8>,
) -> Seq<u8>;

/// Relies on aead's `StreamLE31::encrypt` over `XChaCha20Poly1305`: it seals
/// one block at the given position, appending a 16-byte tag, and fails only
/// for a position past the LE31 counter (or a message far over one block).
#[verifier::external_body]
fn xchacha_seal(key: &[u8; KEY_LEN], nonce: &[u8], position: u32, last: bool, aad: &[u8], msg: &[u8]) -> (r: Option<Vec<u8>>)
    requires
        nonce@.len() == 20,
    ensures
        r is Some ==> r->Some_0@ == xchacha20poly1305_le31_seal(key@, nonce@, position as nat, last, aad@, msg@),
        r is Some ==> r->Some_0@.len() == msg@.len() + AEAD_TAG_SIZE,
        position <= COUNTER_MAX && msg@.len() <= BLOCK_SIZE ==> r is Some,
{
    let stream = StreamLE31::from_aead(XChaCha20Poly1305::new(key.into()), nonce.into());
    stream.encrypt(position, last, Payload { msg, aad }).ok()
}

/// Relies on aead's `StreamLE31::encrypt` over `Aes256Gcm`: it seals one block
/// at the given position, appending a 16-byte tag, and fails only for a
/// position past the LE31 counter or data over the GCM limits.
#[verifier::external_body]
fn aes_seal(key: &[u8; KEY_LEN], nonce: &[u8], position: u32, last: bool, aad: &[u8], msg: &[u8]) -> (r: Option<Vec<u8>>)
    requires
        nonce@.len() == 8,
    ensures
        r is Some ==> r->Some_0@ == aes256gcm_le31_seal(key@, nonce@, position as nat, last, aad@, msg@),
        r is Some ==> r->Some_0@.len() == msg@.len() + AEAD_TAG_SIZE,
        position <= COUNTER_MAX && msg@.len() <= BLOCK_SIZE && aad@.len() <= AAD_MAX ==> r is Some,
{
    let stream = StreamLE31::from_aead(Aes256Gcm::new(key.into()), nonce.into());
    stream.encrypt(position, last, Payload { msg, aad }).ok()
}

/// Relies on aead's `StreamLE31::decrypt` over `XChaCha20Poly1305`: a block is
/// opened only if it is the seal of what comes out, and the seal of a message
/// at an admissible position always opens to that message.
#[verifier::external_body]
fn xchacha_open(key: &[u8; KEY_LEN], nonce: &[u8], position: u32, last: bool, aad: &[u8], ct: &[u8]) -> (r: Option<Vec<u8>>)
    requires
        nonce@.len() == 20,
    ensures
        r is Some ==> xchacha20poly1305_le31_seal(key@, nonce@, position as nat, last, aad@, r->Some_0@) == ct@,
        r is Some ==> r->Some_0@.len() + AEAD_TAG_SIZE == ct@.len(),
        forall|m: Seq<u8>|
            position <= COUNTER_MAX && m.len() <= BLOCK_SIZE && m.len() + AEAD_TAG_SIZE == ct@.len()
                && #[trigger] xchacha20poly1305_le31_seal(key@, nonce@, position as nat, last, aad@, m) == ct@
                ==> (r is Some && r->Some_0@ == m),
{
    let stream = StreamLE31::from_aead(XChaCha20Poly1305::new(key.into()), nonce.into());
    stream.decrypt(position, last, Payload { msg: ct, aad }).ok()
}

/// Relies on aead's `StreamLE31::decrypt` over `Aes256Gcm`: a block is opened
/// only if it is the seal of what comes out, and the seal of a message at an
/// admissible position, with admissible associated data, always opens to that
/// message.
#[verifier::external_body]
fn aes_open(key: &[u8; KEY_LEN], nonce: &[u8], position: u32, last: bool, aad: &[u8], ct: &[u8]) -> (r: Option<Vec<u8>>)
    requires
        nonce@.len() == 8,
    ensures
        r is Some ==> aes256gcm_le31_seal(key@, nonce@, position as nat, last, aad@, r->Some_0@) == ct@,
        r is Some ==> r->Some_0@.len() + AEAD_TAG_SIZE == ct@.len(),
        forall|m: Seq<u8>|
            position <= COUNTER_MAX && m.len() <= BLOCK_SIZE && aad@.len() <= AAD_MAX
                && m.len() + AEAD_TAG_SIZE == ct@.len()
                && #[trigger] aes256gcm_le31_seal(key@, nonce@, position as nat, last, aad@, m) == ct@
                ==> (r is Some && r->Some_0@ == m),
{
    let stream = StreamLE31::from_aead(Aes256Gcm::new(key.into()), nonce.into());
    stream.decrypt(position, last, Payload { msg: ct, aad }).ok()
}

/// Associated data within what the AEAD of `algorithm` accepts: any length
/// for XChaCha20-Poly1305, at most `AAD_MAX` bytes for AES-256-GCM.
pub open spec fn aad_fits(algorithm: Algorithm, aad: Seq<u8>) -> bool {
    match algorithm {
        Algorithm::XChaCha20Poly1305 => true,
        Algorithm::Aes256Gcm => aad.len() <= AAD_MAX,
    }
}

/// The block that `algorithm` seals `msg` into at `position`.
pub open spec fn seal_block(
    algorithm: Algorithm,
    key: Seq<u8>,
    nonce: Seq<u8>,
    position: nat,
    last: bool,
    aad: Seq<u8>,
    msg: Seq<u8>,
) -> Seq<u8> {
    match algorithm {
        Algorithm::XChaCha20Poly1305 => xchacha20poly1305_le31_seal(key, nonce, position, last, aad, msg),
        Algorithm::Aes256Gcm => aes256gcm_le31_seal(key, nonce, position, last, aad, msg),
    }
}

/// The STREAM ciphertext of `pt` from `position` on: each full block of
/// `BLOCK_SIZE` bytes is sealed as a middle block, and what is left after the
/// last full block (possibly nothing) is sealed as the last block.
#[verifier::opaque]
pub open spec fn seal_stream_at(
    algorithm: Algorithm,
    key: Seq<u8>,
    nonce: Seq<u8>,
    aad: Seq<u8>,
    pt: Seq<u8>,
    position: nat,
) -> Seq<u8>
    decreases pt.len(),
{
    if pt.len() < BLOCK_SIZE {
        seal_block(algorithm, key, nonce, position, true, aad, pt)
    } else {
        seal_block(algorithm, key, nonce, position, false, aad, pt.take(BLOCK_SIZE as int))
            + seal_stream_at(algorithm, key, nonce, aad, pt.skip(BLOCK_SIZE as int), position + 1)
    }
}

/// The STREAM ciphertext of the whole of `pt`.
pub open spec fn seal_stream(algorithm: Algorithm, key: Seq<u8>, nonce: Seq<u8>, aad: Seq<u8>, pt: Seq<u8>) -> Seq<u8> {
    seal_stream_at(algorithm, key, nonce, aad, pt, 0)
}

/// Every block of `pt` from `position` on stands at a position that the LE31
/// counter admits, and seals into a frame of its own length plus a tag.
#[verifier::opaque]
pub open spec fn framed_at(
    algorithm: Algorithm,
    key: Seq<u8>,
    nonce: Seq<u8>,
    aad: Seq<u8>,
    pt: Seq<u8>,
    position: nat,
) -> bool
    decreases pt.len(),
{
    if pt.len() < BLOCK_SIZE {
        position <= COUNTER_MAX
            && seal_block(algorithm, key, nonce, position, true, aad, pt).len() == pt.len() + AEAD_TAG_SIZE
    } else {
        position < COUNTER_MAX
            && seal_block(algorithm, key, nonce, position, false, aad, pt.take(BLOCK_SIZE as int)).len()
                == BLOCK_SIZE + AEAD_TAG_SIZE
            && framed_at(algorithm, key, nonce, aad, pt.skip(BLOCK_SIZE as int), position + 1)
    }
}

/// `ct` is a STREAM ciphertext whose decryption is `pt`: its frames are the
/// seals of the blocks of `pt`, at their positions, under `aad`.
pub open spec fn is_stream_of(
    algorithm: Algorithm,
    key: Seq<u8>,
    nonce: Seq<u8>,
    aad: Seq<u8>,
    ct: Seq<u8>,
    pt: Seq<u8>,
) -> bool {
    ct == seal_stream(algorithm, key, nonce, aad, pt) && framed_at(algorithm, key, nonce, aad, pt, 0)
}

/// Number of full blocks in a plaintext of `len` bytes.
pub open spec fn full_blocks(len: nat) -> nat {
    len / (BLOCK_SIZE as nat)
}

/// A plaintext of `len >= BLOCK_SIZE` bytes has one full block more than
/// what is left after its first block.
proof fn lemma_full_blocks_step(len: nat)
    requires
        len >= BLOCK_SIZE,
    ensures
        full_blocks(len) == full_blocks((len - BLOCK_SIZE) as nat) + 1,
{
    let b = BLOCK_SIZE as int;
    let rest = len - b;
    vstd::arithmetic::div_mod::lemma_fundamental_div_mod(rest, b);
    let q = rest / b;
    let m = rest % b;
    assert((q + 1) * b == q * b + b) by (nonlinear_arith);
    assert(b * q == q * b) by (nonlinear_arith);
    vstd::arithmetic::div_mod::lemma_fundamental_div_mod_converse(len as int, b, q + 1, m);
}

/// A ciphertext with at least one full frame starts with the seal of the
/// first full block, and goes on with the stream of the rest.
proof fn lemma_stream_first_frame(
    algorithm: Algorithm,
    key: Seq<u8>,
    nonce: Seq<u8>,
    aad: Seq<u8>,
    pt: Seq<u8>,
    position: nat,
    ct: Seq<u8>,
)
    requires
        seal_stream_at(algorithm, key, nonce, aad, pt, position) == ct,
        framed_at(algorithm, key, nonce, aad, pt, position),
        ct.len() >= BLOCK_SIZE + AEAD_TAG_SIZE,
    ensures
        pt.len() >= BLOCK_SIZE,
        position < COUNTER_MAX,
        seal_block(algorithm, key, nonce, position, false, aad, pt.take(BLOCK_SIZE as int))
            == ct.take((BLOCK_SIZE + AEAD_TAG_SIZE) as int),
        seal_stream_at(algorithm, key, nonce, aad, pt.skip(BLOCK_SIZE as int), position + 1)
            == ct.skip((BLOCK_SIZE + AEAD_TAG_SIZE) as int),
        framed_at(algorithm, key, nonce, aad, pt.skip(BLOCK_SIZE as int), position + 1),
{
    reveal(seal_stream_at);
    reveal(framed_at);
    let c0 = seal_block(algorithm, key, nonce, position, false, aad, pt.take(BLOCK_SIZE as int));
    let c1 = seal_stream_at(algorithm, key, nonce, aad, pt.skip(BLOCK_SIZE as int), position + 1);
    assert(ct == c0 + c1);
    assert(ct.take((BLOCK_SIZE + AEAD_TAG_SIZE) as int) =~= c0);
    assert(ct.skip((BLOCK_SIZE + AEAD_TAG_SIZE) as int) =~= c1);
}

/// A ciphertext shorter than a full frame is the seal of the whole
/// plaintext as a last block.
proof fn lemma_stream_last_frame(
    algorithm: Algorithm,
    key: Seq<u8>,
    nonce: Seq<u8>,
    aad: Seq<u8>,
    pt: Seq<u8>,
    position: nat,
    ct: Seq<u8>,
)
    requires
        seal_stream_at(algorithm, key, nonce, aad, pt, position) == ct,
        framed_at(algorithm, key, nonce, aad, pt, position),
        ct.len() < BLOCK_SIZE + AEAD_TAG_SIZE,
    ensures
        pt.len() < BLOCK_SIZE,
        pt.len() + AEAD_TAG_SIZE == ct.len(),
        seal_block(algorithm, key, nonce, position, true, aad, pt) == ct,
{
    reveal(seal_stream_at);
    reveal(framed_at);
    if pt.len() >= BLOCK_SIZE {
        let c0 = seal_block(algorithm, key, nonce, position, false, aad, pt.take(BLOCK_SIZE as int));
        let c1 = seal_stream_at(algorithm, key, nonce, aad, pt.skip(BLOCK_SIZE as int), position + 1);
        assert(ct == c0 + c1);
    }
}

/// A plaintext shorter than a block streams as one last block.
proof fn lemma_stream_single_frame(
    algorithm: Algorithm,
    key: Seq<u8>,
    nonce: Seq<u8>,
    aad: Seq<u8>,
    m: Seq<u8>,
    position: nat,
)
    requires
        m.len() < BLOCK_SIZE,
        position <= COUNTER_MAX,
        seal_block(algorithm, key, nonce, position, true, aad, m).len() == m.len() + AEAD_TAG_SIZE,
    ensures
        seal_stream_at(algorithm, key, nonce, aad, m, position) == seal_block(algorithm, key, nonce, position, true, aad, m),
        framed_at(algorithm, key, nonce, aad, m, position),
{
    reveal(seal_stream_at);
    reveal(framed_at);
}

/// A full block sealed in front of the stream of a rest is the stream of the
/// two together.
proof fn lemma_stream_prepend_frame(
    algorithm: Algorithm,
    key: Seq<u8>,
    nonce: Seq<u8>,
    aad: Seq<u8>,
    m: Seq<u8>,
    t: Seq<u8>,
    position: nat,
)
    requires
        m.len() == BLOCK_SIZE,
        position < COUNTER_MAX,
        seal_block(algorithm, key, nonce, position, false, aad, m).len() == BLOCK_SIZE + AEAD_TAG_SIZE,
        framed_at(algorithm, key, nonce, aad, t, position + 1),
    ensures
        seal_stream_at(algorithm, key, nonce, aad, m + t, position)
            == seal_block(algorithm, key, nonce, position, false, aad, m) + seal_stream_at(algorithm, key, nonce, aad, t, position + 1),
        framed_at(algorithm, key, nonce, aad, m + t, position),
{
    reveal(seal_stream_at);
    reveal(framed_at);
    let t0 = m + t;
    assert(t0.take(BLOCK_SIZE as int) =~= m);
    assert(t0.skip(BLOCK_SIZE as int) =~= t);
}

/// Size of a STREAM ciphertext: every block, the empty last one included,
/// adds one tag to the plaintext. So a body is a run of full frames of
/// `BLOCK_SIZE + AEAD_TAG_SIZE` bytes and one shorter final frame.
pub proof fn lemma_stream_length(
    algorithm: Algorithm,
    key: Seq<u8>,
    nonce: Seq<u8>,
    aad: Seq<u8>,
    pt: Seq<u8>,
    position: nat,
)
    requires
        framed_at(algorithm, key, nonce, aad, pt, position),
    ensures
        seal_stream_at(algorithm, key, nonce, aad, pt, position).len() == pt.len() + (full_blocks(pt.len()) + 1)
            * AEAD_TAG_SIZE,
    decreases pt.len(),
{
    reveal(seal_stream_at);
    reveal(framed_at);
    if pt.len() >= BLOCK_SIZE {
        let rest = pt.skip(BLOCK_SIZE as int);
        lemma_stream_length(algorithm, key, nonce, aad, rest, position + 1);
        lemma_full_blocks_step(pt.len());
        let f = full_blocks(rest.len()) as int;
        assert((f + 2) * (AEAD_TAG_SIZE as int) == (f + 1) * (AEAD_TAG_SIZE as int) + AEAD_TAG_SIZE) by (nonlinear_arith);
    } else {
        assert(full_blocks(pt.len()) == 0);
    }
}

/// A run of whole frames is never a STREAM ciphertext: every stream ends in
/// a frame shorter than a full one. So a stream with its last frame cut off
/// (nothing, when that was the only frame) is refused by decryption.
pub proof fn lemma_whole_frames_are_no_stream(
    algorithm: Algorithm,
    key: Seq<u8>,
    nonce: Seq<u8>,
    aad: Seq<u8>,
    ct: Seq<u8>,
    pt: Seq<u8>,
)
    requires
        (ct.len() as int) % ((BLOCK_SIZE + AEAD_TAG_SIZE) as int) == 0,
    ensures
        !is_stream_of(algorithm, key, nonce, aad, ct, pt),
{
    if is_stream_of(algorithm, key, nonce, aad, ct, pt) {
        lemma_stream_length(algorithm, key, nonce, aad, pt, 0);
        let b = BLOCK_SIZE as int;
        let t = AEAD_TAG_SIZE as int;
        let f = b + t;
        let n = pt.len() as int;
        vstd::arithmetic::div_mod::lemma_fundamental_div_mod(n, b);
        let q = n / b;
        let rem = n % b;
        assert(full_blocks(pt.len()) == q);
        assert(ct.len() == n + (q + 1) * t);
        assert(q * f == b * q + q * t) by (nonlinear_arith)
            requires
                f == b + t,
        ;
        assert((q + 1) * t == q * t + t) by (nonlinear_arith);
        assert(ct.len() == q * f + (rem + t));
        vstd::arithmetic::div_mod::lemma_fundamental_div_mod_converse(ct.len() as int, f, q, rem + t);
    }
}

/// Seals one block with the AEAD of `algorithm`.
fn seal_with(
    algorithm: Algorithm,
    key: &[u8; KEY_LEN],
    nonce: &[u8],
    position: u32,
    last: bool,
    aad: &[u8],
    msg: &[u8],
) -> (r: Option<Vec<u8>>)
    requires
        nonce@.len() == algorithm.spec_nonce_len(),
    ensures
        r is Some ==> r->Some_0@ == seal_block(algorithm, key@, nonce@, position as nat, last, aad@, msg@),
        r is Some ==> r->Some_0@.len() == msg@.len() + AEAD_TAG_SIZE,
        position <= COUNTER_MAX && msg@.len() <= BLOCK_SIZE && aad_fits(algorithm, aad@) ==> r is Some,
{
    match algorithm {
        Algorithm::XChaCha20Poly1305 => xchacha_seal(key, nonce, position, last, aad, msg),
        Algorithm::Aes256Gcm => aes_seal(key, nonce, position, last, aad, msg),
    }
}

/// Opens one block with the AEAD of `algorithm`.
fn open_with(
    algorithm: Algorithm,
    key: &[u8; KEY_LEN],
    nonce: &[u8],
    position: u32,
    last: bool,
    aad: &[u8],
    ct: &[u8],
) -> (r: Option<Vec<u8>>)
    requires
        nonce@.len() == algorithm.spec_nonce_len(),
    ensures
        r is Some ==> seal_block(algorithm, key@, nonce@, position as nat, last, aad@, r->Some_0@) == ct@,
        r is Some ==> r->Some_0@.len() + AEAD_TAG_SIZE == ct@.len(),
        forall|m: Seq<u8>|
            position <= COUNTER_MAX && m.len() <= BLOCK_SIZE && aad_fits(algorithm, aad@)
                && m.len() + AEAD_TAG_SIZE == ct@.len()
                && #[trigger] seal_block(algorithm, key@, nonce@, position as nat, last, aad@, m) == ct@
                ==> (r is Some && r->Some_0@ == m),
{
    match algorithm {
        Algorithm::XChaCha20Poly1305 => xchacha_open(key, nonce, position, last, aad, ct),
        Algorithm::Aes256Gcm => aes_open(key, nonce, position, last, aad, ct),
    }
}

/// A STREAM encryptor: the algorithm, key and nonce of one stream, and the
/// position of the next block. `encrypt_last` consumes it, so that nothing
/// can be sealed after the last block.
pub struct StreamEncryption {
    algorithm: Algorithm,
    key: [u8; KEY_LEN],
    nonce: Vec<u8>,
    position: u32,
}

impl StreamEncryption {
    /// The AEAD of the stream.
    pub closed spec fn algorithm(&self) -> Algorithm {
        self.algorithm
    }

    /// The stream's key.
    pub closed spec fn key(&self) -> Seq<u8> {
        self.key@
    }

    /// The stream's nonce, without the STREAM counter bytes.
    pub closed spec fn nonce(&self) -> Seq<u8> {
        self.nonce@
    }

    /// Position of the next block to be sealed.
    pub closed spec fn position(&self) -> nat {
        self.position as nat
    }

    /// The nonce fits the algorithm and the position fits the LE31 counter.
    pub closed spec fn wf(&self) -> bool {
        &&& self.nonce@.len() == self.algorithm.spec_nonce_len()
        &&& self.position <= COUNTER_MAX
    }

    /// Sets up the encryption of one stream, from its first block.
    /// Fails with `NonceLengthMismatch` exactly when the nonce does not have
    /// the algorithm's length.
    pub fn new(key: [u8; KEY_LEN], nonce: &[u8], algorithm: Algorithm) -> (r: Result<Self, Error>)
        ensures
            nonce@.len() == algorithm.spec_nonce_len() <==> r is Ok,
            r is Err ==> r == Err::<Self, Error>(Error::NonceLengthMismatch),
            r is Ok ==> ({
                let e = r->Ok_0;
                &&& e.wf()
                &&& e.algorithm() == algorithm
                &&& e.key() == key@
                &&& e.nonce() == nonce@
                &&& e.position() == 0
            }),
    {
        if nonce.len() != algorithm.nonce_len() {
            return Err(Error::NonceLengthMismatch);
        }
        Ok(StreamEncryption { algorithm, key, nonce: vstd::slice::slice_to_vec(nonce), position: 0 })
    }

    /// Seals `msg` as the block at the current position, and moves on to the
    /// next position. Fails with `Encrypt`, and changes nothing, when the
    /// counter has reached its maximum (the last block needs a position too)
    /// or when the AEAD refuses.
    pub fn encrypt_next(&mut self, aad: &[u8], msg: &[u8]) -> (r: Result<Vec<u8>, Error>)
        requires
            old(self).wf(),
        ensures
            final(self).wf(),
            final(self).algorithm() == old(self).algorithm(),
            final(self).key() == old(self).key(),
            final(self).nonce() == old(self).nonce(),
            r is Ok ==> r->Ok_0@ == seal_block(
                old(self).algorithm(),
                old(self).key(),
                old(self).nonce(),
                old(self).position(),
                false,
                aad@,
                msg@,
            ),
            r is Ok ==> r->Ok_0@.len() == msg@.len() + AEAD_TAG_SIZE,
            r is Ok ==> final(self).position() == old(self).position() + 1,
            r is Err ==> r == Err::<Vec<u8>, Error>(Error::Encrypt) && final(self).position() == old(self).position(),
            old(self).position() < COUNTER_MAX && msg@.len() <= BLOCK_SIZE && aad_fits(old(self).algorithm(), aad@) ==> r is Ok,
            old(self).position() == COUNTER_MAX ==> r is Err,
    {
        if self.position == COUNTER_MAX {
            return Err(Error::Encrypt);
        }
        match seal_with(self.algorithm, &self.key, &self.nonce, self.position, false, aad, msg) {
            Some(block) => {
                self.position = self.position + 1;
                Ok(block)
            },
            None => Err(Error::Encrypt),
        }
    }

    /// Seals `msg` as the last block of the stream, at the current position.
    pub fn encrypt_last(self, aad: &[u8], msg: &[u8]) -> (r: Result<Vec<u8>, Error>)
        requires
            self.wf(),
        ensures
            r is Ok ==> r->Ok_0@ == seal_block(self.algorithm(), self.key(), self.nonce(), self.position(), true, aad@, msg@),
            r is Ok ==> r->Ok_0@.len() == msg@.len() + AEAD_TAG_SIZE,
            r is Err ==> r == Err::<Vec<u8>, Error>(Error::Encrypt),
            msg@.len() <= BLOCK_SIZE && aad_fits(self.algorithm(), aad@) ==> r is Ok,
    {
        match seal_with(self.algorithm, &self.key, &self.nonce, self.position, true, aad, msg) {
            Some(block) => Ok(block),
            None => Err(Error::Encrypt),
        }
    }

    /// Seals one chunk as it was read from a source: a full block of
    /// `BLOCK_SIZE` bytes as a middle block, after which the encryptor comes
    /// back for the next chunk; anything shorter as the last block, after
    /// which the stream is finished.
    pub fn encrypt_chunk(self, aad: &[u8], chunk: &[u8]) -> (r: Result<(Vec<u8>, Option<StreamEncryption>), Error>)
        requires
            self.wf(),
            chunk@.len() <= BLOCK_SIZE,
        ensures
            r is Err ==> r == Err::<(Vec<u8>, Option<StreamEncryption>), Error>(Error::Encrypt),
            r is Ok ==> r->Ok_0.0@ == seal_block(
                self.algorithm(),
                self.key(),
                self.nonce(),
                self.position(),
                chunk@.len() < BLOCK_SIZE,
                aad@,
                chunk@,
            ),
            r is Ok && chunk@.len() < BLOCK_SIZE ==> r->Ok_0.1 is None,
            r is Ok && chunk@.len() == BLOCK_SIZE ==> ({
                let next = r->Ok_0.1;
                &&& next is Some
                &&& next->Some_0.wf()
                &&& next->Some_0.algorithm() == self.algorithm()
                &&& next->Some_0.key() == self.key()
                &&& next->Some_0.nonce() == self.nonce()
                &&& next->Some_0.position() == self.position() + 1
            }),
            (chunk@.len() < BLOCK_SIZE || self.position() < COUNTER_MAX) && aad_fits(self.algorithm(), aad@) ==> r is Ok,
    {
        if chunk.len() == BLOCK_SIZE {
            let mut this = self;
            let frame = this.encrypt_next(aad, chunk)?;
            Ok((frame, Some(this)))
        } else {
            let frame = self.encrypt_last(aad, chunk)?;
            Ok((frame, None))
        }
    }

    /// Encrypts the whole of `reader` as the rest of the stream: each full
    /// block of `BLOCK_SIZE` bytes with `encrypt_next`, then what is left
    /// (possibly nothing) with `encrypt_last`, all under `aad`. The result is
    /// the concatenation of the sealed blocks.
    pub fn encrypt_streams(self, reader: &[u8], aad: &[u8]) -> (r: Result<Vec<u8>, Error>)
        requires
            self.wf(),
        ensures
            r is Ok ==> r->Ok_0@ == seal_stream_at(self.algorithm(), self.key(), self.nonce(), aad@, reader@, self.position()),
            r is Ok ==> framed_at(self.algorithm(), self.key(), self.nonce(), aad@, reader@, self.position()),
            r is Err ==> r == Err::<Vec<u8>, Error>(Error::Encrypt),
            self.position() + full_blocks(reader@.len()) <= COUNTER_MAX && aad_fits(self.algorithm(), aad@) ==> r is Ok,
            self.position() + full_blocks(reader@.len()) > COUNTER_MAX ==> r is Err,
    {
        reveal(seal_stream_at);
        reveal(framed_at);
        let ghost alg = self.algorithm();
        let ghost key = self.key();
        let ghost nonce = self.nonce();
        let ghost start = self.position();
        let mut this = self;
        let mut out: Vec<u8> = Vec::new();
        let mut offset: usize = 0;
        proof {
            assert(reader@.skip(0) =~= reader@);
            assert(out@ + seal_stream_at(alg, key, nonce, aad@, reader@, start) =~= seal_stream_at(alg, key, nonce, aad@, reader@, start));
        }
        loop
            invariant
                this.wf(),
                start == self.position() && alg == self.algorithm() && key == self.key() && nonce == self.nonce(),
                this.algorithm() == alg,
                this.key() == key,
                this.nonce() == nonce,
                offset <= reader@.len(),
                this.position() + full_blocks((reader@.len() - offset) as nat) == start + full_blocks(reader@.len()),
                out@ + seal_stream_at(alg, key, nonce, aad@, reader@.skip(offset as int), this.position())
                    == seal_stream_at(alg, key, nonce, aad@, reader@, start),
                framed_at(alg, key, nonce, aad@, reader@.skip(offset as int), this.position())
                    ==> framed_at(alg, key, nonce, aad@, reader@, start),
            decreases reader@.len() - offset,
        {
            proof {
                reveal(seal_stream_at);
                reveal(framed_at);
            }
            let ghost rest = reader@.skip(offset as int);
            if reader.len() - offset >= BLOCK_SIZE {
                let block = vstd::slice::slice_subrange(reader, offset, offset + BLOCK_SIZE);
                let ghost p = this.position();
                proof {
                    lemma_full_blocks_step((reader@.len() - offset) as nat);
                    assert(rest.take(BLOCK_SIZE as int) =~= block@);
                    assert(rest.skip(BLOCK_SIZE as int) =~= reader@.skip(offset + BLOCK_SIZE));
                }
                let sealed = this.encrypt_next(aad, block);
                match sealed {
                    Ok(mut frame) => {
                        proof {
                            assert(out@ + frame@ + seal_stream_at(alg, key, nonce, aad@, reader@.skip(offset + BLOCK_SIZE), p + 1)
                                =~= out@ + seal_stream_at(alg, key, nonce, aad@, rest, p));
                        }
                        out.append(&mut frame);
                        offset = offset + BLOCK_SIZE;
                    },
                    Err(e) => {
                        assert(start + full_blocks(reader@.len()) <= COUNTER_MAX ==> p < COUNTER_MAX);
                        return Err(e);
                    },
                }
            } else {
                let block = vstd::slice::slice_subrange(reader, offset, reader.len());
                proof {
                    assert(rest =~= block@);
                    assert(full_blocks((reader@.len() - offset) as nat) == 0);
                }
                let sealed = this.encrypt_last(aad, block);
                match sealed {
                    Ok(mut frame) => {
                        assert(seal_stream_at(alg, key, nonce, aad@, rest, this.position()) == frame@);
                        let ghost before = out@;
                        out.append(&mut frame);
                        assert(out@ == before + seal_stream_at(alg, key, nonce, aad@, rest, this.position()));
                        return Ok(out);
                    },
                    Err(e) => {
                        return Err(e);
                    },
                }
            }
        }
    }

    /// Encrypts `bytes` as a whole stream under `key`, `nonce` and `aad`.
    pub fn encrypt_bytes(key: [u8; KEY_LEN], nonce: &[u8], algorithm: Algorithm, bytes: &[u8], aad: &[u8]) -> (r:
        Result<Vec<u8>, Error>)
        ensures
            nonce@.len() != algorithm.spec_nonce_len() ==> r == Err::<Vec<u8>, Error>(Error::NonceLengthMismatch),
            r is Ok ==> r->Ok_0@ == seal_stream(algorithm, key@, nonce@, aad@, bytes@),
            r is Ok ==> is_stream_of(algorithm, key@, nonce@, aad@, r->Ok_0@, bytes@),
            r is Ok ==> r->Ok_0@.len() == bytes@.len() + (full_blocks(bytes@.len()) + 1) * AEAD_TAG_SIZE,
            nonce@.len() == algorithm.spec_nonce_len() && r is Err ==> r == Err::<Vec<u8>, Error>(Error::Encrypt),
            nonce@.len() == algorithm.spec_nonce_len() && full_blocks(bytes@.len()) <= COUNTER_MAX && aad_fits(algorithm, aad@)
                ==> r is Ok,
            full_blocks(bytes@.len()) > COUNTER_MAX ==> r is Err,
    {
        let encryptor = Self::new(key, nonce, algorithm)?;
        let r = encryptor.encrypt_streams(bytes, aad);
        proof {
            if r is Ok {
                lemma_stream_length(algorithm, key@, nonce@, aad@, bytes@, 0);
            }
        }
        r
    }
}

/// A STREAM decryptor: the algorithm, key and nonce of one stream, and the
/// position of the next block. `decrypt_last` consumes it, so that nothing
/// can be opened after the last block.
pub struct StreamDecryption {
    algorithm: Algorithm,
    key: [u8; KEY_LEN],
    nonce: Vec<u8>,
    position: u32,
}

impl StreamDecryption {
    /// The AEAD of the stream.
    pub closed spec fn algorithm(&self) -> Algorithm {
        self.algorithm
    }

    /// The stream's key.
    pub closed spec fn key(&self) -> Seq<u8> {
        self.key@
    }

    /// The stream's nonce, without the STREAM counter bytes.
    pub closed spec fn nonce(&self) -> Seq<u8> {
        self.nonce@
    }

    /// Position of the next block to be opened.
    pub closed spec fn position(&self) -> nat {
        self.position as nat
    }

    /// The nonce fits the algorithm and the position fits the LE31 counter.
    pub closed spec fn wf(&self) -> bool {
        &&& self.nonce@.len() == self.algorithm.spec_nonce_len()
        &&& self.position <= COUNTER_MAX
    }

    /// Sets up the decryption of one stream, from its first block.
    /// Fails with `NonceLengthMismatch` exactly when the nonce does not have
    /// the algorithm's length.
    pub fn new(key: [u8; KEY_LEN], nonce: &[u8], algorithm: Algorithm) -> (r: Result<Self, Error>)
        ensures
            nonce@.len() == algorithm.spec_nonce_len() <==> r is Ok,
            r is Err ==> r == Err::<Self, Error>(Error::NonceLengthMismatch),
            r is Ok ==> ({
                let d = r->Ok_0;
                &&& d.wf()
                &&& d.algorithm() == algorithm
                &&& d.key() == key@
                &&& d.nonce() == nonce@
                &&& d.position() == 0
            }),
    {
        if nonce.len() != algorithm.nonce_len() {
            return Err(Error::NonceLengthMismatch);
        }
        Ok(StreamDecryption { algorithm, key, nonce: vstd::slice::slice_to_vec(nonce), position: 0 })
    }

    /// Opens `ct` as a middle block at the current position, and moves on to
    /// the next position. Succeeds exactly on the seal of a message at this
    /// position (below the counter's maximum), and then returns that message;
    /// otherwise fails with `Decrypt` and changes nothing.
    pub fn decrypt_next(&mut self, aad: &[u8], ct: &[u8]) -> (r: Result<Vec<u8>, Error>)
        requires
            old(self).wf(),
        ensures
            final(self).wf(),
            final(self).algorithm() == old(self).algorithm(),
            final(self).key() == old(self).key(),
            final(self).nonce() == old(self).nonce(),
            r is Ok ==> seal_block(
                old(self).algorithm(),
                old(self).key(),
                old(self).nonce(),
                old(self).position(),
                false,
                aad@,
                r->Ok_0@,
            ) == ct@,
            r is Ok ==> r->Ok_0@.len() + AEAD_TAG_SIZE == ct@.len(),
            r is Ok ==> old(self).position() < COUNTER_MAX && final(self).position() == old(self).position() + 1,
            r is Err ==> r == Err::<Vec<u8>, Error>(Error::Decrypt) && final(self).position() == old(self).position(),
            forall|m: Seq<u8>|
                old(self).position() < COUNTER_MAX && m.len() <= BLOCK_SIZE && aad_fits(old(self).algorithm(), aad@)
                    && m.len() + AEAD_TAG_SIZE == ct@.len()
                    && #[trigger] seal_block(old(self).algorithm(), old(self).key(), old(self).nonce(), old(self).position(), false, aad@, m) == ct@
                    ==> (r is Ok && r->Ok_0@ == m),
    {
        if self.position == COUNTER_MAX {
            return Err(Error::Decrypt);
        }
        match open_with(self.algorithm, &self.key, &self.nonce, self.position, false, aad, ct) {
            Some(block) => {
                self.position = self.position + 1;
                Ok(block)
            },
            None => Err(Error::Decrypt),
        }
    }

    /// Opens `ct` as the last block of the stream, at the current position.
    /// Succeeds exactly on the seal of a message as a last block at this
    /// position, and then returns that message; otherwise fails with `Decrypt`.
    pub fn decrypt_last(self, aad: &[u8], ct: &[u8]) -> (r: Result<Vec<u8>, Error>)
        requires
            self.wf(),
        ensures
            r is Ok ==> seal_block(self.algorithm(), self.key(), self.nonce(), self.position(), true, aad@, r->Ok_0@) == ct@,
            r is Ok ==> r->Ok_0@.len() + AEAD_TAG_SIZE == ct@.len(),
            r is Err ==> r == Err::<Vec<u8>, Error>(Error::Decrypt),
            forall|m: Seq<u8>|
                m.len() <= BLOCK_SIZE && aad_fits(self.algorithm(), aad@) && m.len() + AEAD_TAG_SIZE == ct@.len()
                    && #[trigger] seal_block(self.algorithm(), self.key(), self.nonce(), self.position(), true, aad@, m) == ct@
                    ==> (r is Ok && r->Ok_0@ == m),
    {
        match open_with(self.algorithm, &self.key, &self.nonce, self.position, true, aad, ct) {
            Some(block) => Ok(block),
            None => Err(Error::Decrypt),
        }
    }

    /// Opens one frame as it was read from a source: a full frame of
    /// `BLOCK_SIZE + AEAD_TAG_SIZE` bytes as a middle block, after which the
    /// decryptor comes back for the next frame; anything shorter as the last
    /// block, after which the stream is finished.
    pub fn decrypt_chunk(self, aad: &[u8], chunk: &[u8]) -> (r: Result<(Vec<u8>, Option<StreamDecryption>), Error>)
        requires
            self.wf(),
            chunk@.len() <= BLOCK_SIZE + AEAD_TAG_SIZE,
        ensures
            r is Err ==> r == Err::<(Vec<u8>, Option<StreamDecryption>), Error>(Error::Decrypt),
            r is Ok ==> seal_block(
                self.algorithm(),
                self.key(),
                self.nonce(),
                self.position(),
                chunk@.len() < BLOCK_SIZE + AEAD_TAG_SIZE,
                aad@,
                r->Ok_0.0@,
            ) == chunk@,
            r is Ok ==> r->Ok_0.0@.len() + AEAD_TAG_SIZE == chunk@.len(),
            r is Ok && chunk@.len() < BLOCK_SIZE + AEAD_TAG_SIZE ==> r->Ok_0.1 is None,
            r is Ok && chunk@.len() == BLOCK_SIZE + AEAD_TAG_SIZE ==> ({
                let next = r->Ok_0.1;
                &&& next is Some
                &&& next->Some_0.wf()
                &&& next->Some_0.algorithm() == self.algorithm()
                &&& next->Some_0.key() == self.key()
                &&& next->Some_0.nonce() == self.nonce()
                &&& next->Some_0.position() == self.position() + 1
            }),
            forall|m: Seq<u8>|
                chunk@.len() < BLOCK_SIZE + AEAD_TAG_SIZE && aad_fits(self.algorithm(), aad@) && m.len() + AEAD_TAG_SIZE
                    == chunk@.len() && #[trigger] seal_block(
                    self.algorithm(),
                    self.key(),
                    self.nonce(),
                    self.position(),
                    true,
                    aad@,
                    m,
                ) == chunk@ ==> (r is Ok && r->Ok_0.0@ == m),
            forall|m: Seq<u8>|
                chunk@.len() == BLOCK_SIZE + AEAD_TAG_SIZE && self.position() < COUNTER_MAX && aad_fits(self.algorithm(), aad@)
                    && m.len() == BLOCK_SIZE && #[trigger] seal_block(
                    self.algorithm(),
                    self.key(),
                    self.nonce(),
                    self.position(),
                    false,
                    aad@,
                    m,
                ) == chunk@ ==> (r is Ok && r->Ok_0.0@ == m),
    {
        if chunk.len() == BLOCK_SIZE + AEAD_TAG_SIZE {
            let mut this = self;
            let block = this.decrypt_next(aad, chunk)?;
            Ok((block, Some(this)))
        } else {
            let block = self.decrypt_last(aad, chunk)?;
            Ok((block, None))
        }
    }

    /// Decrypts the whole of `reader` as the rest of the stream: each full
    /// frame of `BLOCK_SIZE + AEAD_TAG_SIZE` bytes with `decrypt_next`, then
    /// what is left with `decrypt_last`, all under `aad`. It succeeds exactly
    /// when `reader` is the STREAM ciphertext of some plaintext from the
    /// current position on, and then returns that plaintext; otherwise it
    /// fails with `Decrypt`.
    #[verifier::rlimit(100)]
    #[verifier::spinoff_prover]
    pub fn decrypt_streams(self, reader: &[u8], aad: &[u8]) -> (r: Result<Vec<u8>, Error>)
        requires
            self.wf(),
        ensures
            r is Ok ==> reader@ == seal_stream_at(self.algorithm(), self.key(), self.nonce(), aad@, r->Ok_0@, self.position()),
            r is Ok ==> framed_at(self.algorithm(), self.key(), self.nonce(), aad@, r->Ok_0@, self.position()),
            r is Err ==> r == Err::<Vec<u8>, Error>(Error::Decrypt),
            forall|pt: Seq<u8>|
                aad_fits(self.algorithm(), aad@) && #[trigger] seal_stream_at(self.algorithm(), self.key(), self.nonce(), aad@, pt, self.position())
                    == reader@ && framed_at(self.algorithm(), self.key(), self.nonce(), aad@, pt, self.position())
                    ==> (r is Ok && r->Ok_0@ == pt),
    {
        let ghost alg = self.algorithm();
        let ghost key = self.key();
        let ghost nonce = self.nonce();
        let ghost start = self.position();
        let mut this = self;
        let mut out: Vec<u8> = Vec::new();
        let mut offset: usize = 0;
        let frame_len: usize = BLOCK_SIZE + AEAD_TAG_SIZE;
        proof {
            assert(reader@.skip(0) =~= reader@);
            assert forall|t: Seq<u8>| #[trigger] (out@ + t) == t by {
                assert(out@ + t =~= t);
            }
            assert forall|pt: Seq<u8>|
                aad_fits(alg, aad@) && #[trigger] seal_stream_at(alg, key, nonce, aad@, pt, start) == reader@
                    && framed_at(alg, key, nonce, aad@, pt, start)
                implies out@.len() <= pt.len() && pt.take(out@.len() as int) == out@
                    && seal_stream_at(alg, key, nonce, aad@, pt.skip(out@.len() as int), this.position())
                        == reader@.skip(offset as int)
                    && framed_at(alg, key, nonce, aad@, pt.skip(out@.len() as int), this.position()) by {
                assert(pt.take(0) =~= out@);
                assert(pt.skip(0) =~= pt);
            }
        }
        loop
            invariant
                this.wf(),
                start == self.position() && alg == self.algorithm() && key == self.key() && nonce == self.nonce(),
                this.algorithm() == alg,
                this.key() == key,
                this.nonce() == nonce,
                frame_len == BLOCK_SIZE + AEAD_TAG_SIZE,
                offset <= reader@.len(),
                forall|t: Seq<u8>|
                    #[trigger] seal_stream_at(alg, key, nonce, aad@, t, this.position()) == reader@.skip(offset as int)
                        && framed_at(alg, key, nonce, aad@, t, this.position())
                        ==> reader@ == seal_stream_at(alg, key, nonce, aad@, out@ + t, start)
                            && framed_at(alg, key, nonce, aad@, out@ + t, start),
                forall|pt: Seq<u8>|
                    aad_fits(alg, aad@) && #[trigger] seal_stream_at(alg, key, nonce, aad@, pt, start) == reader@
                        && framed_at(alg, key, nonce, aad@, pt, start)
                        ==> out@.len() <= pt.len() && pt.take(out@.len() as int) == out@
                            && seal_stream_at(alg, key, nonce, aad@, pt.skip(out@.len() as int), this.position())
                                == reader@.skip(offset as int)
                            && framed_at(alg, key, nonce, aad@, pt.skip(out@.len() as int), this.position()),
            decreases reader@.len() - offset,
        {
            let ghost rest = reader@.skip(offset as int);
            let ghost p = this.position();
            let ghost before = out@;
            if reader.len() - offset >= frame_len {
                let frame = vstd::slice::slice_subrange(reader, offset, offset + frame_len);
                proof {
                    assert(rest.take(frame_len as int) =~= frame@);
                    assert(rest.skip(frame_len as int) =~= reader@.skip(offset + frame_len));
                    assert forall|pt: Seq<u8>|
                        aad_fits(alg, aad@) && #[trigger] seal_stream_at(alg, key, nonce, aad@, pt, start) == reader@
                            && framed_at(alg, key, nonce, aad@, pt, start)
                        implies ({
                            let u = pt.skip(before.len() as int);
                            &&& u.len() >= BLOCK_SIZE
                            &&& p < COUNTER_MAX
                            &&& seal_block(alg, key, nonce, p, false, aad@, u.take(BLOCK_SIZE as int)) == frame@
                        }) by {
                        lemma_stream_first_frame(alg, key, nonce, aad@, pt.skip(before.len() as int), p, rest);
                    }
                }
                let opened = this.decrypt_next(aad, frame);
                match opened {
                    Ok(mut m) => {
                        let ghost mm = m@;
                        proof {
                            assert forall|t: Seq<u8>|
                                #[trigger] seal_stream_at(alg, key, nonce, aad@, t, p + 1) == reader@.skip(offset + frame_len)
                                    && framed_at(alg, key, nonce, aad@, t, p + 1)
                                implies reader@ == seal_stream_at(alg, key, nonce, aad@, before + mm + t, start)
                                    && framed_at(alg, key, nonce, aad@, before + mm + t, start) by {
                                lemma_stream_prepend_frame(alg, key, nonce, aad@, mm, t, p);
                                assert(seal_stream_at(alg, key, nonce, aad@, mm + t, p) =~= rest);
                                assert(before + (mm + t) =~= before + mm + t);
                            }
                            assert forall|pt: Seq<u8>|
                                aad_fits(alg, aad@) && #[trigger] seal_stream_at(alg, key, nonce, aad@, pt, start) == reader@
                                    && framed_at(alg, key, nonce, aad@, pt, start)
                                implies (before + mm).len() <= pt.len() && pt.take((before + mm).len() as int) == before + mm
                                    && seal_stream_at(alg, key, nonce, aad@, pt.skip((before + mm).len() as int), p + 1)
                                        == reader@.skip(offset + frame_len)
                                    && framed_at(alg, key, nonce, aad@, pt.skip((before + mm).len() as int), p + 1) by {
                                let u = pt.skip(before.len() as int);
                                lemma_stream_first_frame(alg, key, nonce, aad@, u, p, rest);
                                let bl = before.len() as int;
                                assert(mm == u.take(BLOCK_SIZE as int));
                                assert(pt.take(bl) == before);
                                assert forall|i: int| 0 <= i < bl + BLOCK_SIZE implies #[trigger] pt[i] == (before + mm)[i] by {
                                    if i < bl {
                                        assert(pt.take(bl)[i] == pt[i]);
                                    } else {
                                        assert(u[i - bl] == pt[i]);
                                        assert(u.take(BLOCK_SIZE as int)[i - bl] == u[i - bl]);
                                    }
                                }
                                assert(pt.take((before + mm).len() as int) =~= before + mm);
                                assert(pt.skip((before + mm).len() as int) =~= u.skip(BLOCK_SIZE as int));
                            }
                        }
                        out.append(&mut m);
                        offset = offset + frame_len;
                        proof {
                            assert(out@ == before + mm);
                        }
                    },
                    Err(e) => {
                        return Err(e);
                    },
                }
            } else {
                let frame = vstd::slice::slice_subrange(reader, offset, reader.len());
                proof {
                    assert(rest =~= frame@);
                    assert forall|pt: Seq<u8>|
                        aad_fits(alg, aad@) && #[trigger] seal_stream_at(alg, key, nonce, aad@, pt, start) == reader@
                            && framed_at(alg, key, nonce, aad@, pt, start)
                        implies ({
                            let u = pt.skip(before.len() as int);
                            &&& u.len() < BLOCK_SIZE
                            &&& u.len() + AEAD_TAG_SIZE == frame@.len()
                            &&& seal_block(alg, key, nonce, p, true, aad@, u) == frame@
                        }) by {
                        lemma_stream_last_frame(alg, key, nonce, aad@, pt.skip(before.len() as int), p, rest);
                    }
                }
                let opened = this.decrypt_last(aad, frame);
                match opened {
                    Ok(mut m) => {
                        let ghost mm = m@;
                        proof {
                            lemma_stream_single_frame(alg, key, nonce, aad@, mm, p);
                            assert(seal_stream_at(alg, key, nonce, aad@, mm, p) == rest);
                            assert forall|pt: Seq<u8>|
                                aad_fits(alg, aad@) && #[trigger] seal_stream_at(alg, key, nonce, aad@, pt, start) == reader@
                                    && framed_at(alg, key, nonce, aad@, pt, start)
                                implies pt == before + mm by {
                                let u = pt.skip(before.len() as int);
                                lemma_stream_last_frame(alg, key, nonce, aad@, u, p, rest);
                                assert(mm == u);
                                assert(pt =~= pt.take(before.len() as int) + u);
                            }
                        }
                        out.append(&mut m);
                        proof {
                            assert(out@ == before + mm);
                        }
                        return Ok(out);
                    },
                    Err(e) => {
                        return Err(e);
                    },
                }
            }
        }
    }

    /// Decrypts `bytes` as a whole stream under `key`, `nonce` and `aad`.
    pub fn decrypt_bytes(key: [u8; KEY_LEN], nonce: &[u8], algorithm: Algorithm, bytes: &[u8], aad: &[u8]) -> (r:
        Result<Vec<u8>, Error>)
        ensures
            nonce@.len() != algorithm.spec_nonce_len() ==> r == Err::<Vec<u8>, Error>(Error::NonceLengthMismatch),
            r is Ok ==> is_stream_of(algorithm, key@, nonce@, aad@, bytes@, r->Ok_0@),
            nonce@.len() == algorithm.spec_nonce_len() && r is Err ==> r == Err::<Vec<u8>, Error>(Error::Decrypt),
            forall|pt: Seq<u8>|
                nonce@.len() == algorithm.spec_nonce_len() && aad_fits(algorithm, aad@)
                    && #[trigger] is_stream_of(algorithm, key@, nonce@, aad@, bytes@, pt) ==> (r is Ok && r->Ok_0@ == pt),
    {
        let decryptor = Self::new(key, nonce, algorithm)?;
        decryptor.decrypt_streams(bytes, aad)
    }
}

} // verus!
