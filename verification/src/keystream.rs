use chacha20::cipher::{KeyIvInit, StreamCipher, StreamCipherError, StreamCipherSeek};
use vstd::prelude::*;

verus! {

/// Number of keystream bytes that one ChaCha20 state can hand out: the block
/// counter has 32 bits, a block has 64 bytes, and the cipher refuses to
/// produce the block with the highest counter value.
pub const KEYSTREAM_LEN: u64 = 274_877_906_880;

/// The ChaCha20 state of one direction.
///
/// Opaque to the verifier. What the contracts say of it goes through its view:
/// the key and the nonce it was made with, and its position in their
/// keystream.
#[verifier::external_body]
pub struct Keystream {
    inner: chacha20::ChaCha20,
}

/// `cipher::StreamCipherError`, which the buffer-to-buffer transform returns
/// when it cannot do its work.
#[verifier::external_type_specification]
#[verifier::external_body]
pub struct ExStreamCipherError(StreamCipherError);

/// The byte at offset `pos` of the ChaCha20 keystream (RFC 8439: 96-bit
/// nonce, block counter starting at zero) of a 32-byte key and a 12-byte
/// nonce, as `chacha20::ChaCha20` produces it.
pub uninterp spec fn chacha20_keystream(key: Seq<u8>, nonce: Seq<u8>, pos: nat) -> u8;

/// The key that a cipher state was made with.
pub uninterp spec fn key_of(c: Keystream) -> Seq<u8>;

/// The nonce that a cipher state was made with.
pub uninterp spec fn nonce_of(c: Keystream) -> Seq<u8>;

/// The number of keystream bytes that lie before the next byte a cipher
/// state will use: what `StreamCipherSeek::current_pos` reports.
pub uninterp spec fn position_of(c: Keystream) -> nat;

/// Mathematical model of a [`Keystream`].
pub struct KeystreamView {
    /// The key.
    pub key: Seq<u8>,
    /// The nonce.
    pub nonce: Seq<u8>,
    /// Offset in the keystream of the next byte to use.
    pub pos: nat,
}

impl KeystreamView {
    /// At least `n` more bytes can be transformed.
    pub open spec fn has(self, n: nat) -> bool {
        self.pos + n <= KEYSTREAM_LEN
    }

    /// The same keystream, `n` bytes further on.
    pub open spec fn advanced(self, n: nat) -> KeystreamView {
        KeystreamView { key: self.key, nonce: self.nonce, pos: self.pos + n }
    }

    /// The same keystream, `n` bytes back.
    pub open spec fn rewound(self, n: nat) -> KeystreamView {
        KeystreamView { key: self.key, nonce: self.nonce, pos: (self.pos - n) as nat }
    }

    /// The keystream byte `offset` bytes past the position.
    pub open spec fn byte_at(self, offset: nat) -> u8 {
        chacha20_keystream(self.key, self.nonce, self.pos + offset)
    }

    /// `data` XORed byte by byte with the keystream from the position on:
    /// what encrypting `data` gives, and what decrypting it gives.
    pub open spec fn mask(self, data: Seq<u8>) -> Seq<u8> {
        Seq::new(data.len(), |i: int| data[i] ^ self.byte_at(i as nat))
    }
}

impl View for Keystream {
    type V = KeystreamView;

    open spec fn view(&self) -> KeystreamView {
        KeystreamView { key: key_of(*self), nonce: nonce_of(*self), pos: position_of(*self) }
    }
}

/// `ChaCha20::new` (`KeyIvInit::new`): a fresh state for `key` and `nonce`,
/// at the start of their keystream.
#[verifier::external_body]
pub(crate) fn cipher_new(key: &[u8; 32], nonce: &[u8; 12]) -> (c: Keystream)
    ensures
        key_of(c) == key@,
        nonce_of(c) == nonce@,
        position_of(c) == 0,
{
    Keystream { inner: chacha20::ChaCha20::new(key.into(), nonce.into()) }
}

/// `StreamCipher::apply_keystream`: XORs `buf` in place with the next
/// `buf.len()` keystream bytes and moves the position past them. The call
/// panics when fewer bytes are left, which `requires` rules out.
#[verifier::external_body]
pub(crate) fn cipher_apply(c: &mut Keystream, buf: &mut [u8])
    requires
        position_of(*old(c)) + old(buf)@.len() <= KEYSTREAM_LEN,
    ensures
        key_of(*final(c)) == key_of(*old(c)),
        nonce_of(*final(c)) == nonce_of(*old(c)),
        position_of(*final(c)) == position_of(*old(c)) + old(buf)@.len(),
        final(buf)@.len() == old(buf)@.len(),
        forall|i: int|
            0 <= i < old(buf)@.len() ==> #[trigger] final(buf)@[i] == old(buf)@[i]
                ^ chacha20_keystream(
                key_of(*old(c)),
                nonce_of(*old(c)),
                position_of(*old(c)) + i as nat,
            ),
{
    c.inner.apply_keystream(buf)
}

/// `StreamCipher::apply_keystream_b2b`: XORs `input` with the next keystream
/// bytes into `output`. It succeeds exactly when the two buffers have one
/// length and that many keystream bytes are left; then the position moves
/// past them. When it fails, neither the state nor `output` has changed.
#[verifier::external_body]
pub(crate) fn cipher_apply_b2b(c: &mut Keystream, input: &[u8], output: &mut [u8]) -> (r: Result<
    (),
    StreamCipherError,
>)
    ensures
        r is Ok <==> input@.len() == old(output)@.len() && position_of(*old(c)) + input@.len()
            <= KEYSTREAM_LEN,
        key_of(*final(c)) == key_of(*old(c)),
        nonce_of(*final(c)) == nonce_of(*old(c)),
        final(output)@.len() == old(output)@.len(),
        r is Ok ==> position_of(*final(c)) == position_of(*old(c)) + input@.len(),
        r is Ok ==> forall|i: int|
            0 <= i < input@.len() ==> #[trigger] final(output)@[i] == input@[i]
                ^ chacha20_keystream(
                key_of(*old(c)),
                nonce_of(*old(c)),
                position_of(*old(c)) + i as nat,
            ),
        r is Err ==> position_of(*final(c)) == position_of(*old(c)),
        r is Err ==> final(output)@ == old(output)@,
{
    c.inner.apply_keystream_b2b(input, output)
}

/// `StreamCipherSeek::current_pos`, asked for a `u64`: the position.
#[verifier::external_body]
pub(crate) fn cipher_current_pos(c: &Keystream) -> (pos: u64)
    ensures
        pos == position_of(*c),
{
    c.inner.current_pos()
}

/// `StreamCipherSeek::seek`: moves the position to `pos` and leaves key and
/// nonce as they are. `requires` keeps `pos` inside the keystream.
#[verifier::external_body]
pub(crate) fn cipher_seek(c: &mut Keystream, pos: u64)
    requires
        pos <= KEYSTREAM_LEN,
    ensures
        key_of(*final(c)) == key_of(*old(c)),
        nonce_of(*final(c)) == nonce_of(*old(c)),
        position_of(*final(c)) == pos,
{
    c.inner.seek(pos)
}

impl KeystreamView {
    /// Masking is its own inverse: masking twice at one position gives the
    /// data back.
    pub proof fn lemma_mask_involutive(self, data: Seq<u8>)
        ensures
            self.mask(self.mask(data)) == data,
    {
        assert forall|i: int| 0 <= i < data.len() implies self.mask(self.mask(data))[i]
            == data[i] by {
            let b = data[i];
            let k = self.byte_at(i as nat);
            assert((b ^ k) ^ k == b) by (bit_vector);
        }
        assert(self.mask(self.mask(data)) =~= data);
    }

    /// Masking `a` and then, from where that ended, `b` is masking the two
    /// in one piece.
    pub proof fn lemma_mask_concat(self, a: Seq<u8>, b: Seq<u8>)
        ensures
            self.mask(a + b) == self.mask(a) + self.advanced(a.len()).mask(b),
    {
        assert(self.mask(a + b) =~= self.mask(a) + self.advanced(a.len()).mask(b));
    }

    /// Two keystreams turn a byte at one offset into different bytes exactly
    /// when they differ at that offset.
    pub proof fn lemma_mask_differs(self, other: KeystreamView, offset: nat, byte: u8)
        ensures
            (byte ^ self.byte_at(offset)) != (byte ^ other.byte_at(offset)) <==> self.byte_at(
                offset,
            ) != other.byte_at(offset),
    {
        let j = self.byte_at(offset);
        let k = other.byte_at(offset);
        assert(((byte ^ j) != (byte ^ k)) <==> (j != k)) by (bit_vector);
    }
}

} // verus!
