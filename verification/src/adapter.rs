use crate::keystream::{
    cipher_apply, cipher_apply_b2b, cipher_current_pos, cipher_new,
    cipher_seek, Keystream, KEYSTREAM_LEN,
};
use crate::nonce::{
    complement, complement_nonce, lemma_complement_differs, lemma_complement_involutive,
};
use crate::write::{step_ready, step_result, WriteAction, WriteEvent};
use vstd::prelude::*;

verus! {

/// A transport together with the two ChaCha20 states that decrypt what is
/// read from it and encrypt what is written to it.
pub struct ChaCha<T> {
    /// The inner transport.
    pub wrapped: T,
    /// State of the read direction.
    pub read: Keystream,
    /// State of the write direction.
    pub write: Keystream,
}

impl<T> ChaCha<T> {
    /// The two directions were keyed with `key`, the read direction with
    /// the nonce `iv` and the write direction with its complement.
    pub open spec fn keyed_with(&self, key: Seq<u8>, iv: Seq<u8>) -> bool {
        &&& self.read@.key == key
        &&& self.read@.nonce == iv
        &&& self.write@.key == key
        &&& self.write@.nonce == complement(iv)
    }

    /// Both directions have one key, and the nonce of the write direction
    /// is the complement of the nonce of the read direction.
    pub open spec fn paired(&self) -> bool {
        self.keyed_with(self.read@.key, self.read@.nonce)
    }

    /// Wraps `wrapped`. No byte moves: both directions start at position
    /// zero of their keystreams.
    pub fn new(wrapped: T, key: &[u8; 32], iv: [u8; 12]) -> (adapter: Self)
        ensures
            adapter.wrapped == wrapped,
            adapter.keyed_with(key@, iv@),
            adapter.paired(),
            adapter.read@.pos == 0,
            adapter.write@.pos == 0,
    {
        let iv2 = complement_nonce(iv);
        ChaCha { wrapped, read: cipher_new(key, &iv), write: cipher_new(key, &iv2) }
    }

    /// Number of bytes decrypted so far.
    pub fn read_position(&self) -> (pos: u64)
        ensures
            pos == self.read@.pos,
    {
        cipher_current_pos(&self.read)
    }

    /// Number of bytes encrypted and taken by the transport so far, plus one
    /// while an offer is waiting for its answer.
    pub fn write_position(&self) -> (pos: u64)
        ensures
            pos == self.write@.pos,
    {
        cipher_current_pos(&self.write)
    }

    /// Decrypts what a read of the transport left in `buf`: the first
    /// `count` bytes, in place. The rest of `buf` stays as it is.
    pub fn decrypt_read(&mut self, buf: &mut [u8], count: usize)
        requires
            count <= old(buf)@.len(),
            old(self).read@.has(count as nat),
        ensures
            final(buf)@ == old(self).read@.mask(old(buf)@.take(count as int)) + old(buf)@.skip(
                count as int,
            ),
            final(self).read@ == old(self).read@.advanced(count as nat),
            final(self).write@ == old(self).write@,
            final(self).wrapped == old(self).wrapped,
    {
        let (head, _tail) = buf.split_at_mut(count);
        cipher_apply(&mut self.read, head);
        assert(final(buf)@ =~= old(self).read@.mask(old(buf)@.take(count as int)) + old(buf)@.skip(
            count as int,
        ));
    }

    /// Decrypts what a read of the transport left in `buf`, where that can
    /// be done: `count` bytes fit in `buf` and the read direction has as
    /// many keystream bytes left. Otherwise nothing changes, and the result
    /// is `false`.
    pub fn try_decrypt_read(&mut self, buf: &mut [u8], count: usize) -> (done: bool)
        ensures
            done <==> count <= old(buf)@.len() && old(self).read@.has(count as nat),
            done ==> final(buf)@ == old(self).read@.mask(old(buf)@.take(count as int)) + old(
                buf,
            )@.skip(count as int),
            done ==> final(self).read@ == old(self).read@.advanced(count as nat),
            !done ==> final(buf)@ == old(buf)@ && final(self).read@ == old(self).read@,
            final(self).write@ == old(self).write@,
            final(self).wrapped == old(self).wrapped,
    {
        let pos: u64 = cipher_current_pos(&self.read);
        if count <= buf.len() && pos <= KEYSTREAM_LEN && count as u64 <= KEYSTREAM_LEN - pos {
            self.decrypt_read(buf, count);
            true
        } else {
            false
        }
    }

    /// Takes one step of a write of `buf`, a `write` or a `write_all`.
    ///
    /// The driver starts with [`WriteEvent::Begin`]. Each time the step asks
    /// for an offer, the driver hands that one byte to the transport and
    /// comes back with the answer, until the step ends the call. Where the
    /// transport fails, the driver returns its error and takes no further
    /// step: the byte on offer has then used up its keystream byte.
    pub fn write_step(&mut self, buf: &[u8], event: WriteEvent) -> (action: WriteAction)
        requires
            step_ready(old(self).write@, buf@, event),
        ensures
            (final(self).write@, action) == step_result(old(self).write@, buf@, event),
            final(self).read@ == old(self).read@,
            final(self).wrapped == old(self).wrapped,
    {
        let len: usize = buf.len();
        let next: usize = match event {
            WriteEvent::Begin => 0,
            WriteEvent::Replied { index, accepted } => {
                if accepted == 0 {
                    let cur: u64 = cipher_current_pos(&self.write) - 1;
                    cipher_seek(&mut self.write, cur);
                    return WriteAction::Done { written: index };
                }
                index + 1
            },
            WriteEvent::Delivered { index } => index + 1,
        };
        if next < len {
            let src: [u8; 1] = [buf[next]];
            let mut dst: [u8; 1] = [0u8];
            let _ = cipher_apply_b2b(&mut self.write, &src, &mut dst);
            WriteAction::Offer { byte: dst[0], index: next }
        } else {
            WriteAction::Done { written: len }
        }
    }

    /// Tells whether [`ChaCha::write_step`] can take the step.
    fn write_ready(&self, buf: &[u8], event: WriteEvent) -> (ready: bool)
        ensures
            ready == step_ready(self.write@, buf@, event),
    {
        let pos: u64 = cipher_current_pos(&self.write);
        let len: usize = buf.len();
        match event {
            WriteEvent::Begin => len == 0 || pos < KEYSTREAM_LEN,
            WriteEvent::Replied { index, accepted } => {
                if index >= len {
                    false
                } else if accepted == 0 {
                    1 <= pos && pos <= KEYSTREAM_LEN
                } else {
                    index + 1 >= len || pos < KEYSTREAM_LEN
                }
            },
            WriteEvent::Delivered { index } => index < len && (index + 1 >= len || pos
                < KEYSTREAM_LEN),
        }
    }

    /// Takes one step of a write of `buf` where [`ChaCha::write_step`] can
    /// take it. Otherwise nothing changes, and the result is `None`.
    pub fn try_write_step(&mut self, buf: &[u8], event: WriteEvent) -> (action: Option<
        WriteAction,
    >)
        ensures
            action is Some <==> step_ready(old(self).write@, buf@, event),
            action matches Some(a) ==> (final(self).write@, a) == step_result(
                old(self).write@,
                buf@,
                event,
            ),
            action is None ==> final(self).write@ == old(self).write@,
            final(self).read@ == old(self).read@,
            final(self).wrapped == old(self).wrapped,
    {
        if self.write_ready(buf, event) {
            Some(self.write_step(buf, event))
        } else {
            None
        }
    }
}

/// Round trip. Of two adapters keyed with one key and with complementary
/// nonces, each decrypts what the other encrypts: a direction of the one and
/// the opposite direction of the other, standing at one position, turn any
/// bytes into ciphertext and back into themselves.
pub proof fn lemma_round_trip<T, U>(
    near: ChaCha<T>,
    far: ChaCha<U>,
    key: Seq<u8>,
    iv: Seq<u8>,
    data: Seq<u8>,
)
    requires
        near.keyed_with(key, iv),
        far.keyed_with(key, complement(iv)),
    ensures
        near.write@.pos == far.read@.pos ==> far.read@.mask(near.write@.mask(data)) == data,
        far.write@.pos == near.read@.pos ==> near.read@.mask(far.write@.mask(data)) == data,
{
    lemma_complement_involutive(iv);
    if near.write@.pos == far.read@.pos {
        assert(near.write@ == far.read@);
        near.write@.lemma_mask_involutive(data);
    }
    if far.write@.pos == near.read@.pos {
        assert(far.write@ == near.read@);
        far.write@.lemma_mask_involutive(data);
    }
}

/// The directions of one adapter are keyed apart: the nonce of the write
/// direction differs from that of the read direction in every byte. At one
/// position they turn a byte into different bytes wherever their keystreams
/// differ there, and nowhere else.
pub proof fn lemma_directions_differ<T>(adapter: ChaCha<T>, key: Seq<u8>, iv: Seq<u8>, byte: u8)
    requires
        adapter.keyed_with(key, iv),
        adapter.read@.pos == adapter.write@.pos,
    ensures
        forall|i: int|
            0 <= i < iv.len() ==> #[trigger] adapter.write@.nonce[i] != adapter.read@.nonce[i],
        adapter.read@.byte_at(0) != adapter.write@.byte_at(0) <==> (byte ^ adapter.read@.byte_at(0))
            != (byte ^ adapter.write@.byte_at(0)),
{
    lemma_complement_differs(iv);
    adapter.read@.lemma_mask_differs(adapter.write@, 0, byte);
}

} // verus!
