use crate::keystream::KeystreamView;
use vstd::prelude::*;

verus! {

/// What the driver of a write reports to the adapter.
#[derive(Clone, Copy, Debug, PartialEq, Eq)]
pub enum WriteEvent {
    /// The call starts: no byte has been offered yet.
    Begin,
    /// The transport's `write` answered the byte offered for `index` with
    /// the number of bytes it took.
    Replied { index: usize, accepted: usize },
    /// The transport's `write_all` took the byte offered for `index`.
    Delivered { index: usize },
}

/// What the driver of a write has to do next.
#[derive(Clone, Copy, Debug, PartialEq, Eq)]
pub enum WriteAction {
    /// Hand `byte`, the ciphertext of the source byte at `index`, to the
    /// transport, alone.
    Offer { byte: u8, index: usize },
    /// End the call: `written` source bytes went through.
    Done { written: usize },
}

/// The inputs on which a step can be taken: the event names a byte of `buf`
/// that an offer was made for, and the keystream has the byte that the step
/// will use or give back.
pub open spec fn step_ready(ks: KeystreamView, buf: Seq<u8>, event: WriteEvent) -> bool {
    match event {
        WriteEvent::Begin => buf.len() > 0 ==> ks.has(1),
        WriteEvent::Replied { index, accepted } => {
            &&& index < buf.len()
            &&& accepted == 0 ==> 1 <= ks.pos && ks.has(0)
            &&& accepted != 0 && index + 1 < buf.len() ==> ks.has(1)
        },
        WriteEvent::Delivered { index } => {
            &&& index < buf.len()
            &&& index + 1 < buf.len() ==> ks.has(1)
        },
    }
}

/// Moves on to the source byte at `next`: offers its ciphertext, which uses
/// up one keystream byte, or ends the call when `buf` has no such byte.
pub open spec fn offer_or_done(ks: KeystreamView, buf: Seq<u8>, next: int) -> (
    KeystreamView,
    WriteAction,
) {
    if 0 <= next < buf.len() {
        (ks.advanced(1), WriteAction::Offer { byte: buf[next] ^ ks.byte_at(0), index: next as usize })
    } else {
        (ks, WriteAction::Done { written: buf.len() as usize })
    }
}

/// The write direction after a step, and the action the step asks for.
///
/// A byte that the transport did not take (`accepted` is zero) ends the call
/// with the count of the bytes before it, and gives its keystream byte back.
pub open spec fn step_result(ks: KeystreamView, buf: Seq<u8>, event: WriteEvent) -> (
    KeystreamView,
    WriteAction,
) {
    match event {
        WriteEvent::Begin => offer_or_done(ks, buf, 0),
        WriteEvent::Replied { index, accepted } => if accepted == 0 {
            (ks.rewound(1), WriteAction::Done { written: index })
        } else {
            offer_or_done(ks, buf, index + 1)
        },
        WriteEvent::Delivered { index } => offer_or_done(ks, buf, index + 1),
    }
}

/// How one write call ended.
pub struct WriteRun {
    /// The write direction after the call.
    pub ks: KeystreamView,
    /// The count that the call returns, or `None` when the transport failed
    /// and the call returned its error.
    pub written: Option<usize>,
    /// The bytes that the transport took, in order.
    pub taken: Seq<u8>,
}

/// One write call, from `event` on, over a transport that answers the
/// offers in turn with `replies`. Where `replies` ends before the call does,
/// the transport failed on the offer that got no answer.
pub open spec fn write_run(
    ks: KeystreamView,
    buf: Seq<u8>,
    event: WriteEvent,
    replies: Seq<usize>,
) -> WriteRun
    decreases replies.len(),
{
    let (next, action) = step_result(ks, buf, event);
    match action {
        WriteAction::Done { written } => WriteRun {
            ks: next,
            written: Some(written),
            taken: Seq::empty(),
        },
        WriteAction::Offer { byte, index } => if replies.len() == 0 {
            WriteRun { ks: next, written: None, taken: Seq::empty() }
        } else {
            let rest = write_run(
                next,
                buf,
                WriteEvent::Replied { index, accepted: replies[0] },
                replies.drop_first(),
            );
            WriteRun {
                ks: rest.ks,
                written: rest.written,
                taken: if replies[0] != 0 {
                    seq![byte] + rest.taken
                } else {
                    rest.taken
                },
            }
        },
    }
}

/// The number of replies at the head of `replies`, `limit` at most, that
/// took a byte.
pub open spec fn leading_accepts(replies: Seq<usize>, limit: nat) -> nat
    decreases replies.len(),
{
    if limit == 0 || replies.len() == 0 || replies[0] == 0 {
        0
    } else {
        1 + leading_accepts(replies.drop_first(), (limit - 1) as nat)
    }
}

/// The call ends by itself, with a count: the transport answers every offer
/// that the call makes.
pub open spec fn answers_all(replies: Seq<usize>, limit: nat) -> bool {
    leading_accepts(replies, limit) == limit || leading_accepts(replies, limit) < replies.len()
}

proof fn lemma_leading_accepts_bounds(replies: Seq<usize>, limit: nat)
    ensures
        leading_accepts(replies, limit) <= limit,
        leading_accepts(replies, limit) <= replies.len(),
    decreases replies.len(),
{
    if !(limit == 0 || replies.len() == 0 || replies[0] == 0) {
        lemma_leading_accepts_bounds(replies.drop_first(), (limit - 1) as nat);
    }
}

proof fn lemma_run_after_offer(
    base: KeystreamView,
    buf: Seq<u8>,
    index: usize,
    accepted: usize,
    replies: Seq<usize>,
)
    requires
        index < buf.len() <= usize::MAX,
    ensures
        ({
            let run = write_run(
                base.advanced(index as nat + 1),
                buf,
                WriteEvent::Replied { index, accepted },
                replies,
            );
            let stop = index + 1 + run.taken.len();
            if accepted == 0 {
                &&& run.ks == base.advanced(index as nat)
                &&& run.written == Some(index)
                &&& run.taken.len() == 0
            } else {
                &&& stop <= buf.len()
                &&& run.taken == base.advanced(index as nat + 1).mask(
                    buf.subrange(index + 1, stop),
                )
                &&& run.taken.len() == leading_accepts(replies, (buf.len() - index - 1) as nat)
                &&& if stop == buf.len() || run.taken.len() < replies.len() {
                    run.written == Some(stop as usize) && run.ks == base.advanced(stop as nat)
                } else {
                    run.written is None && run.ks == base.advanced(stop as nat + 1)
                }
            }
        }),
    decreases replies.len(),
{
    let here = base.advanced(index as nat + 1);
    let run = write_run(here, buf, WriteEvent::Replied { index, accepted }, replies);
    if accepted == 0 {
        assert(here.rewound(1) == base.advanced(index as nat));
    } else if index + 1 < buf.len() {
        let byte = buf[index + 1] ^ here.byte_at(0);
        let after = base.advanced((index + 1) as nat + 1);
        assert(here.advanced(1) == after);
        if replies.len() == 0 {
            assert(run.taken =~= here.mask(buf.subrange(index + 1, index + 1)));
        } else {
            let next: usize = (index + 1) as usize;
            lemma_run_after_offer(base, buf, next, replies[0], replies.drop_first());
            let rest = write_run(
                after,
                buf,
                WriteEvent::Replied { index: next, accepted: replies[0] },
                replies.drop_first(),
            );
            if replies[0] == 0 {
                assert(run.taken =~= here.mask(buf.subrange(index + 1, index + 1)));
            } else {
                let stop = index + 1 + run.taken.len();
                assert(run.taken == seq![byte] + rest.taken);
                assert(rest.taken == after.mask(buf.subrange(index + 2, stop)));
                assert(run.taken =~= here.mask(buf.subrange(index + 1, stop)));
            }
        }
    } else {
        assert(run.taken =~= here.mask(buf.subrange(index + 1, index + 1)));
    }
}

/// A write call in closed form. The transport takes the bytes up to the
/// first offer that it refuses or fails on, `n` of them, and what it takes is
/// the source masked from where the write direction stood. A call that ends
/// by itself returns `n` and leaves the write direction `n` bytes on: one
/// keystream byte for each byte taken, none for the byte refused. A call cut
/// short by a transport failure leaves it one byte further, at the byte that
/// was on offer.
pub proof fn lemma_write_run(ks: KeystreamView, buf: Seq<u8>, replies: Seq<usize>)
    requires
        buf.len() <= usize::MAX,
    ensures
        ({
            let run = write_run(ks, buf, WriteEvent::Begin, replies);
            let n = leading_accepts(replies, buf.len());
            &&& n <= buf.len()
            &&& run.taken == ks.mask(buf.take(n as int))
            &&& if answers_all(replies, buf.len()) {
                run.written == Some(n as usize) && run.ks == ks.advanced(n)
            } else {
                run.written is None && run.ks == ks.advanced(n + 1)
            }
        }),
{
    let run = write_run(ks, buf, WriteEvent::Begin, replies);
    lemma_leading_accepts_bounds(replies, buf.len());
    assert(ks.advanced(0) == ks);
    if buf.len() == 0 {
        assert(run.taken =~= ks.mask(buf.take(0)));
    } else if replies.len() == 0 {
        assert(run.taken =~= ks.mask(buf.take(0)));
    } else {
        lemma_run_after_offer(ks, buf, 0, replies[0], replies.drop_first());
        let rest = write_run(
            ks.advanced(1),
            buf,
            WriteEvent::Replied { index: 0, accepted: replies[0] },
            replies.drop_first(),
        );
        if replies[0] == 0 {
            assert(run.taken =~= ks.mask(buf.take(0)));
        } else {
            let n = leading_accepts(replies, buf.len());
            assert(n == 1 + rest.taken.len());
            assert(rest.taken == ks.advanced(1).mask(buf.subrange(1, n as int)));
            assert(run.taken == seq![buf[0] ^ ks.byte_at(0)] + rest.taken);
            assert(run.taken =~= ks.mask(buf.take(n as int)));
        }
    }
}

/// A write taken up again after a short write continues the keystream. Let
/// a first call on `buf` end by itself after `n` bytes, and a second call
/// offer the rest of `buf`, of which the transport takes `m`. Then the two
/// calls together hand the transport exactly what one call hands a transport
/// that takes `n + m` bytes without a break, and where both ways end by
/// themselves they leave the write direction at one position: no keystream
/// byte is skipped and none is used twice.
pub proof fn lemma_resumed_write(
    ks: KeystreamView,
    buf: Seq<u8>,
    first: Seq<usize>,
    second: Seq<usize>,
    unbroken: Seq<usize>,
)
    requires
        buf.len() <= usize::MAX,
        answers_all(first, buf.len()),
        leading_accepts(unbroken, buf.len()) == leading_accepts(first, buf.len())
            + leading_accepts(
            second,
            (buf.len() - leading_accepts(first, buf.len())) as nat,
        ),
    ensures
        ({
            let n = leading_accepts(first, buf.len());
            let rest = buf.skip(n as int);
            let one = write_run(ks, buf, WriteEvent::Begin, first);
            let two = write_run(one.ks, rest, WriteEvent::Begin, second);
            let whole = write_run(ks, buf, WriteEvent::Begin, unbroken);
            &&& one.written == Some(n as usize)
            &&& one.taken + two.taken == whole.taken
            &&& answers_all(second, rest.len()) && answers_all(unbroken, buf.len()) ==> two.ks
                == whole.ks
        }),
{
    let n = leading_accepts(first, buf.len());
    let rest = buf.skip(n as int);
    let m = leading_accepts(second, rest.len());
    lemma_write_run(ks, buf, first);
    lemma_write_run(ks.advanced(n), rest, second);
    lemma_write_run(ks, buf, unbroken);
    ks.lemma_mask_concat(buf.take(n as int), rest.take(m as int));
    assert(buf.take(n as int) + rest.take(m as int) =~= buf.take((n + m) as int));
    assert(ks.advanced(n).advanced(m) == ks.advanced(n + m));
}

/// One write call of a session: the source bytes and the transport's
/// answers to the offers.
pub struct WriteCall {
    pub buf: Seq<u8>,
    pub replies: Seq<usize>,
}

/// The number of bytes that the transport takes over the calls of a session.
pub open spec fn session_taken(calls: Seq<WriteCall>) -> nat
    decreases calls.len(),
{
    if calls.len() == 0 {
        0
    } else {
        leading_accepts(calls[0].replies, calls[0].buf.len()) + session_taken(calls.drop_first())
    }
}

/// The write direction after the calls of a session, made one after
/// another.
pub open spec fn session_end(ks: KeystreamView, calls: Seq<WriteCall>) -> KeystreamView
    decreases calls.len(),
{
    if calls.len() == 0 {
        ks
    } else {
        session_end(
            write_run(ks, calls[0].buf, WriteEvent::Begin, calls[0].replies).ks,
            calls.drop_first(),
        )
    }
}

/// Over any session of write calls that end by themselves, whatever the
/// transport takes and refuses and however often a refused byte is offered
/// again, the write direction moves on by exactly the number of bytes that
/// the transport took.
pub proof fn lemma_session_position(ks: KeystreamView, calls: Seq<WriteCall>)
    requires
        forall|i: int|
            0 <= i < calls.len() ==> (#[trigger] calls[i]).buf.len() <= usize::MAX && answers_all(
                calls[i].replies,
                calls[i].buf.len(),
            ),
    ensures
        session_end(ks, calls) == ks.advanced(session_taken(calls)),
    decreases calls.len(),
{
    if calls.len() == 0 {
        assert(ks.advanced(0) == ks);
    } else {
        let n = leading_accepts(calls[0].replies, calls[0].buf.len());
        let tail = calls.drop_first();
        lemma_write_run(ks, calls[0].buf, calls[0].replies);
        assert forall|i: int| 0 <= i < tail.len() implies (#[trigger] tail[i]).buf.len()
            <= usize::MAX && answers_all(tail[i].replies, tail[i].buf.len()) by {
            assert(tail[i] == calls[i + 1]);
        }
        lemma_session_position(ks.advanced(n), tail);
        assert(ks.advanced(n).advanced(session_taken(tail)) == ks.advanced(session_taken(calls)));
    }
}

} // verus!
