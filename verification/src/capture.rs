//! The capture side: cutting the bytes of a loopback stream into chunks of equal length.
//!
//! [`CaptureLoop`] decides; whoever drives it performs the action that it names (reading the
//! device, sending a chunk, waiting) and hands back what came of it.

use crate::peak;
use crate::single::Single;
use std::collections::VecDeque;
use vstd::prelude::*;

verus! {

/// Frames in one chunk.
pub const CHUNK_FRAMES: usize = 480;

/// What came of the last action.
pub enum CaptureEvent {
    /// The stop flag was read.
    StopFlag(bool),
    /// The device was read, and gave these bytes.
    Captured(VecDeque<u8>),
    /// A chunk was offered to the playback side, which took it (`true`) or refused it.
    Sent(bool),
    /// The wait for the device is over.
    Woken,
}

/// What is to be done next.
pub enum CaptureAction {
    /// Read the stop flag.
    CheckStop,
    /// Read the device.
    Read,
    /// Show the level, and offer the chunk to the playback side.
    Send { chunk: Vec<u8>, level: Single },
    /// Wait for the device.
    Wait,
    /// Stop the stream and show the level.
    Close { level: Single },
}

/// An event, by what it says.
pub enum CaptureInput {
    StopFlag(bool),
    Captured(Seq<u8>),
    Sent(bool),
    Woken,
}

/// An action, by what it asks for.
pub enum CaptureOutput {
    CheckStop,
    Read,
    Send(Seq<u8>),
    Wait,
    Close,
}

impl View for CaptureEvent {
    type V = CaptureInput;

    open spec fn view(&self) -> CaptureInput {
        match self {
            CaptureEvent::StopFlag(stop) => CaptureInput::StopFlag(*stop),
            CaptureEvent::Captured(bytes) => CaptureInput::Captured(bytes@),
            CaptureEvent::Sent(taken) => CaptureInput::Sent(*taken),
            CaptureEvent::Woken => CaptureInput::Woken,
        }
    }
}

impl View for CaptureAction {
    type V = CaptureOutput;

    open spec fn view(&self) -> CaptureOutput {
        match self {
            CaptureAction::CheckStop => CaptureOutput::CheckStop,
            CaptureAction::Read => CaptureOutput::Read,
            CaptureAction::Send { chunk, level } => CaptureOutput::Send(chunk@),
            CaptureAction::Wait => CaptureOutput::Wait,
            CaptureAction::Close { level } => CaptureOutput::Close,
        }
    }
}

impl CaptureAction {
    /// The level that goes with the action is the peak of the chunk, and zero at the end.
    pub open spec fn level_is_right(&self) -> bool {
        match self {
            CaptureAction::Send { chunk, level } => peak::is_peak_of(*level, chunk@),
            CaptureAction::Close { level } => level.bits == 0,
            _ => true,
        }
    }
}

/// The oldest chunk leaves the queue; with less than a chunk there, it is time to wait.
pub open spec fn cut(queue: Seq<u8>, chunk_bytes: nat) -> (Seq<u8>, CaptureOutput) {
    if queue.len() >= chunk_bytes {
        (queue.skip(chunk_bytes as int), CaptureOutput::Send(queue.take(chunk_bytes as int)))
    } else {
        (queue, CaptureOutput::Wait)
    }
}

/// The queue after an event, and the action that follows.
pub open spec fn capture_step(queue: Seq<u8>, chunk_bytes: nat, input: CaptureInput) -> (
    Seq<u8>,
    CaptureOutput,
) {
    match input {
        CaptureInput::StopFlag(true) => (queue, CaptureOutput::Close),
        CaptureInput::StopFlag(false) => (queue, CaptureOutput::Read),
        CaptureInput::Captured(bytes) => cut(queue + bytes, chunk_bytes),
        CaptureInput::Sent(true) => cut(queue, chunk_bytes),
        CaptureInput::Sent(false) => (queue, CaptureOutput::Wait),
        CaptureInput::Woken => (queue, CaptureOutput::CheckStop),
    }
}

/// The capture side's state: the bytes that were captured and not sent yet.
pub struct CaptureLoop {
    queue: VecDeque<u8>,
    chunk_bytes: usize,
}

impl CaptureLoop {
    /// The bytes that were captured and not sent yet, oldest first.
    pub closed spec fn queue(&self) -> Seq<u8> {
        self.queue@
    }

    /// The length of a chunk.
    pub closed spec fn chunk_bytes(&self) -> nat {
        self.chunk_bytes as nat
    }

    /// An empty queue, for a stream whose frames take `block_align` bytes each.
    pub fn new(block_align: u16) -> (result: CaptureLoop)
        ensures
            result.queue() == Seq::<u8>::empty(),
            result.chunk_bytes() == CHUNK_FRAMES * block_align,
            result.chunk_bytes() == 480 * block_align,
    {
        let chunk_bytes: usize = CHUNK_FRAMES * (block_align as usize);
        CaptureLoop { queue: VecDeque::with_capacity(chunk_bytes * 4), chunk_bytes }
    }

    /// The oldest chunk with its level, or a wait where there is none.
    fn next_chunk(&mut self) -> (action: CaptureAction)
        ensures
            final(self).chunk_bytes() == old(self).chunk_bytes(),
            (final(self).queue(), action@) == cut(old(self).queue(), old(self).chunk_bytes()),
            action.level_is_right(),
    {
        if self.queue.len() < self.chunk_bytes {
            return CaptureAction::Wait;
        }
        let mut chunk: Vec<u8> = Vec::new();
        let ghost before = self.queue@;
        while chunk.len() < self.chunk_bytes
            invariant
                chunk@.len() <= self.chunk_bytes <= before.len(),
                self.chunk_bytes == old(self).chunk_bytes,
                chunk@ == before.take(chunk@.len() as int),
                self.queue@ == before.skip(chunk@.len() as int),
            decreases self.chunk_bytes - chunk@.len(),
        {
            let byte: u8 = match self.queue.pop_front() {
                Some(byte) => byte,
                None => 0,
            };
            chunk.push(byte);
            assert(chunk@ =~= before.take(chunk@.len() as int));
            assert(self.queue@ =~= before.skip(chunk@.len() as int));
        }
        let level: Single = peak::peak_level_from_f32le(chunk.as_slice());
        CaptureAction::Send { chunk, level }
    }

    /// Takes in what came of the last action, and names the next one.
    pub fn step(&mut self, event: CaptureEvent) -> (action: CaptureAction)
        ensures
            final(self).chunk_bytes() == old(self).chunk_bytes(),
            (final(self).queue(), action@) == capture_step(
                old(self).queue(),
                old(self).chunk_bytes(),
                event@,
            ),
            action.level_is_right(),
            event matches CaptureEvent::StopFlag(stop) ==> {
                &&& action is Close <==> stop
                &&& action is Read <==> !stop
                &&& final(self).queue() == old(self).queue()
            },
            event is Woken ==> action is CheckStop && final(self).queue() == old(self).queue(),
            event == CaptureEvent::Sent(false) ==> action is Wait && final(self).queue() == old(
                self,
            ).queue(),
            event == CaptureEvent::Sent(true) || event is Captured ==> {
                let fresh = match event {
                    CaptureEvent::Captured(bytes) => bytes@,
                    _ => Seq::empty(),
                };
                let waiting = old(self).queue() + fresh;
                if waiting.len() < old(self).chunk_bytes() {
                    action is Wait && final(self).queue() == waiting
                } else {
                    &&& action matches CaptureAction::Send { chunk, level }
                    &&& chunk@.len() == old(self).chunk_bytes()
                    &&& chunk@ + final(self).queue() == waiting
                }
            },
            action matches CaptureAction::Send { chunk, level } ==> peak::is_peak_of(level, chunk@),
            action matches CaptureAction::Close { level } ==> level.bits == 0,
    {
        match event {
            CaptureEvent::StopFlag(stop) => {
                if stop {
                    CaptureAction::Close { level: Single::zero() }
                } else {
                    CaptureAction::Read
                }
            },
            CaptureEvent::Captured(bytes) => {
                let mut fresh = bytes;
                self.queue.append(&mut fresh);
                self.next_chunk()
            },
            CaptureEvent::Sent(taken) => {
                if taken {
                    self.next_chunk()
                } else {
                    CaptureAction::Wait
                }
            },
            CaptureEvent::Woken => CaptureAction::CheckStop,
        }
    }
}

/// The stream is closed after no event but a stop flag that is set, and always after that one; the
/// device is read after no event but a stop flag that is not set, and always after that one; the
/// stop flag is read when the wait is over, and at no other time. Neither the queue nor the length
/// of a chunk has a part in it, and none of these events touches the queue.
pub proof fn law_stop_flag_decides(queue: Seq<u8>, chunk_bytes: nat, input: CaptureInput)
    ensures
        capture_step(queue, chunk_bytes, input).1 is Close <==> input == CaptureInput::StopFlag(
            true,
        ),
        capture_step(queue, chunk_bytes, input).1 is Read <==> input == CaptureInput::StopFlag(
            false,
        ),
        capture_step(queue, chunk_bytes, input).1 is CheckStop <==> input == CaptureInput::Woken,
        input is StopFlag || input is Woken ==> capture_step(queue, chunk_bytes, input).0 == queue,
{
}

/// After a read, a chunk is offered exactly if the bytes that were queued and the fresh ones come
/// to a chunk together: it is then their first bytes, and the rest stays queued in order. Only
/// where less than a chunk is there is it time to wait, and then every byte stays queued.
pub proof fn law_read_is_followed_by_a_chunk(queue: Seq<u8>, chunk_bytes: nat, bytes: Seq<u8>)
    ensures
        ({
            let (after, output) = capture_step(queue, chunk_bytes, CaptureInput::Captured(bytes));
            &&& output is Send <==> queue.len() + bytes.len() >= chunk_bytes
            &&& output is Wait <==> queue.len() + bytes.len() < chunk_bytes
            &&& output matches CaptureOutput::Send(chunk) ==> {
                &&& chunk.len() == chunk_bytes
                &&& after.len() == queue.len() + bytes.len() - chunk_bytes
                &&& forall|i: int|
                    0 <= i < queue.len() ==> #[trigger] queue[i] == (chunk + after)[i]
                &&& forall|i: int|
                    0 <= i < bytes.len() ==> #[trigger] bytes[i] == (chunk + after)[queue.len()
                        + i]
            }
            &&& output is Wait ==> after == queue + bytes
        }),
{
}

/// After a chunk was taken, the next one follows as it would after a read that gave no bytes;
/// after one was refused it is time to wait, however much is queued, and the queue stays as it is.
pub proof fn law_taken_chunk_is_followed_by_the_next(queue: Seq<u8>, chunk_bytes: nat)
    ensures
        capture_step(queue, chunk_bytes, CaptureInput::Sent(true)) == capture_step(
            queue,
            chunk_bytes,
            CaptureInput::Captured(Seq::empty()),
        ),
        capture_step(queue, chunk_bytes, CaptureInput::Sent(false)) == (
            queue,
            CaptureOutput::Wait,
        ),
{
    assert(queue + Seq::<u8>::empty() =~= queue);
}

/// It does not matter in how many parts the bytes of a chunk are read: two reads, of which the
/// first did not complete a chunk, come to the same as one read of both.
pub proof fn law_reads_can_be_joined(queue: Seq<u8>, chunk_bytes: nat, a: Seq<u8>, b: Seq<u8>)
    requires
        queue.len() + a.len() < chunk_bytes,
    ensures
        ({
            let (between, output) = capture_step(queue, chunk_bytes, CaptureInput::Captured(a));
            &&& output is Wait
            &&& capture_step(between, chunk_bytes, CaptureInput::Captured(b)) == capture_step(
                queue,
                chunk_bytes,
                CaptureInput::Captured(a + b),
            )
        }),
{
    assert((queue + a) + b =~= queue + (a + b));
}

/// A run of the capture side: its queue and its actions after a row of events.
pub open spec fn capture_run(
    queue: Seq<u8>,
    chunk_bytes: nat,
    inputs: Seq<CaptureInput>,
) -> (Seq<u8>, Seq<CaptureOutput>)
    decreases inputs.len(),
{
    if inputs.len() == 0 {
        (queue, Seq::empty())
    } else {
        let (queue_before, outputs) = capture_run(queue, chunk_bytes, inputs.drop_last());
        let (queue_after, output) = capture_step(queue_before, chunk_bytes, inputs.last());
        (queue_after, outputs.push(output))
    }
}

/// All bytes that the device gave, in order.
pub open spec fn captured_bytes(inputs: Seq<CaptureInput>) -> Seq<u8>
    decreases inputs.len(),
{
    if inputs.len() == 0 {
        Seq::empty()
    } else {
        captured_bytes(inputs.drop_last()) + match inputs.last() {
            CaptureInput::Captured(bytes) => bytes,
            _ => Seq::empty(),
        }
    }
}

/// All bytes of the chunks that were offered to the playback side, in order.
pub open spec fn sent_bytes(outputs: Seq<CaptureOutput>) -> Seq<u8>
    decreases outputs.len(),
{
    if outputs.len() == 0 {
        Seq::empty()
    } else {
        sent_bytes(outputs.drop_last()) + match outputs.last() {
            CaptureOutput::Send(chunk) => chunk,
            _ => Seq::empty(),
        }
    }
}

/// All bytes of the chunks that the playback side took, in order.
pub open spec fn taken_bytes(inputs: Seq<CaptureInput>, outputs: Seq<CaptureOutput>) -> Seq<u8>
    decreases inputs.len(),
{
    if inputs.len() < 2 {
        Seq::empty()
    } else {
        taken_bytes(inputs.drop_last(), outputs.drop_last()) + match (
            outputs[inputs.len() - 2],
            inputs.last(),
        ) {
            (CaptureOutput::Send(chunk), CaptureInput::Sent(true)) => chunk,
            _ => Seq::empty(),
        }
    }
}

/// The bytes of the chunk that was offered last, where nothing happened since.
pub open spec fn offered_bytes(outputs: Seq<CaptureOutput>) -> Seq<u8> {
    if outputs.len() == 0 {
        Seq::empty()
    } else {
        match outputs.last() {
            CaptureOutput::Send(chunk) => chunk,
            _ => Seq::empty(),
        }
    }
}

/// Every chunk that is offered is taken: the next thing that happens, if any, is that.
pub open spec fn none_refused(inputs: Seq<CaptureInput>, outputs: Seq<CaptureOutput>) -> bool {
    forall|i: int|
        0 <= i < inputs.len() - 1 && #[trigger] outputs[i] is Send ==> inputs[i + 1]
            == CaptureInput::Sent(true)
}

/// Whatever happens, the chunks offered so far, joined, and then what is still queued, are the
/// bytes captured so far: none lost, none added, none out of order.
pub proof fn law_capture_keeps_every_byte(
    queue: Seq<u8>,
    chunk_bytes: nat,
    inputs: Seq<CaptureInput>,
)
    ensures
        ({
            let (queue_after, outputs) = capture_run(queue, chunk_bytes, inputs);
            sent_bytes(outputs) + queue_after == queue + captured_bytes(inputs)
        }),
    decreases inputs.len(),
{
    let (queue_after, outputs) = capture_run(queue, chunk_bytes, inputs);
    if inputs.len() == 0 {
        assert(sent_bytes(outputs) + queue_after =~= queue + captured_bytes(inputs));
    } else {
        law_capture_keeps_every_byte(queue, chunk_bytes, inputs.drop_last());
        let (queue_before, earlier) = capture_run(queue, chunk_bytes, inputs.drop_last());
        assert(outputs.drop_last() =~= earlier);
        let fresh = match inputs.last() {
            CaptureInput::Captured(bytes) => bytes,
            _ => Seq::empty(),
        };
        let gone = match outputs.last() {
            CaptureOutput::Send(chunk) => chunk,
            _ => Seq::empty(),
        };
        assert(gone + queue_after =~= queue_before + fresh);
        assert(sent_bytes(outputs) + queue_after =~= sent_bytes(earlier) + (gone + queue_after));
        assert((sent_bytes(earlier) + queue_before) + fresh =~= sent_bytes(earlier) + (queue_before
            + fresh));
        assert(queue + captured_bytes(inputs) =~= (queue + captured_bytes(inputs.drop_last()))
            + fresh);
    }
}

/// Where none is refused, the chunks that were taken are those that were offered, but for one
/// that may still be on offer.
pub proof fn law_offered_chunks_are_taken(
    queue: Seq<u8>,
    chunk_bytes: nat,
    inputs: Seq<CaptureInput>,
)
    requires
        none_refused(inputs, capture_run(queue, chunk_bytes, inputs).1),
    ensures
        ({
            let outputs = capture_run(queue, chunk_bytes, inputs).1;
            sent_bytes(outputs) == taken_bytes(inputs, outputs) + offered_bytes(outputs)
        }),
    decreases inputs.len(),
{
    let outputs = capture_run(queue, chunk_bytes, inputs).1;
    if inputs.len() == 0 {
        assert(sent_bytes(outputs) =~= taken_bytes(inputs, outputs) + offered_bytes(outputs));
    } else {
        let earlier = capture_run(queue, chunk_bytes, inputs.drop_last()).1;
        lemma_one_action_per_event(queue, chunk_bytes, inputs.drop_last());
        assert(outputs.drop_last() =~= earlier);
        assert forall|i: int|
            0 <= i < inputs.drop_last().len() - 1 && #[trigger] earlier[i] is Send implies
            inputs.drop_last()[i + 1] == CaptureInput::Sent(true) by {
            assert(outputs[i] == earlier[i]);
        }
        law_offered_chunks_are_taken(queue, chunk_bytes, inputs.drop_last());
        if inputs.len() >= 2 {
            assert(outputs[inputs.len() - 2] == earlier.last());
            assert(taken_bytes(inputs, outputs) =~= taken_bytes(inputs.drop_last(), earlier)
                + offered_bytes(earlier));
        } else {
            assert(earlier.len() == 0);
            assert(taken_bytes(inputs, outputs) =~= taken_bytes(inputs.drop_last(), earlier)
                + offered_bytes(earlier));
        }
        assert(sent_bytes(outputs) == sent_bytes(earlier) + offered_bytes(outputs));
    }
}

/// The chunks that were offered to the playback side, in order.
pub open spec fn offers(outputs: Seq<CaptureOutput>) -> Seq<Seq<u8>>
    decreases outputs.len(),
{
    if outputs.len() == 0 {
        Seq::empty()
    } else {
        match outputs.last() {
            CaptureOutput::Send(chunk) => offers(outputs.drop_last()).push(chunk),
            _ => offers(outputs.drop_last()),
        }
    }
}

/// Which of the chunks that were offered were taken, by their places among the offers.
pub open spec fn taken_places(inputs: Seq<CaptureInput>, outputs: Seq<CaptureOutput>) -> Seq<nat>
    decreases inputs.len(),
{
    if inputs.len() < 2 {
        Seq::empty()
    } else {
        let earlier = taken_places(inputs.drop_last(), outputs.drop_last());
        match (outputs[inputs.len() - 2], inputs.last()) {
            (CaptureOutput::Send(chunk), CaptureInput::Sent(true)) => earlier.push(
                (offers(outputs.drop_last()).len() - 1) as nat,
            ),
            _ => earlier,
        }
    }
}

/// The `k`-th chunk of a source.
pub open spec fn chunk_of(source: Seq<u8>, chunk_bytes: nat, k: nat) -> Seq<u8> {
    source.subrange((k * chunk_bytes) as int, (k * chunk_bytes + chunk_bytes) as int)
}

/// The chunks of a source at the given places, joined.
pub open spec fn chunks_at(source: Seq<u8>, chunk_bytes: nat, places: Seq<nat>) -> Seq<u8>
    decreases places.len(),
{
    if places.len() == 0 {
        Seq::empty()
    } else {
        chunks_at(source, chunk_bytes, places.drop_last()) + chunk_of(
            source,
            chunk_bytes,
            places.last(),
        )
    }
}

/// Each offer has the length of a chunk, and stands where it should in what was sent.
proof fn lemma_offers_make_up_what_was_sent(
    queue: Seq<u8>,
    chunk_bytes: nat,
    inputs: Seq<CaptureInput>,
)
    ensures
        ({
            let outputs = capture_run(queue, chunk_bytes, inputs).1;
            let sent = sent_bytes(outputs);
            &&& sent.len() == offers(outputs).len() * chunk_bytes
            &&& forall|k: int|
                0 <= k < offers(outputs).len() ==> #[trigger] offers(outputs)[k] == chunk_of(
                    sent,
                    chunk_bytes,
                    k as nat,
                )
        }),
    decreases inputs.len(),
{
    let outputs = capture_run(queue, chunk_bytes, inputs).1;
    if inputs.len() == 0 {
        assert(0 * chunk_bytes == 0) by (nonlinear_arith);
    } else {
        lemma_offers_make_up_what_was_sent(queue, chunk_bytes, inputs.drop_last());
        let earlier = capture_run(queue, chunk_bytes, inputs.drop_last()).1;
        assert(outputs.drop_last() =~= earlier);
        let before = offers(earlier);
        if let CaptureOutput::Send(chunk) = outputs.last() {
            let n = before.len();
            assert((n + 1) * chunk_bytes == n * chunk_bytes + chunk_bytes) by (nonlinear_arith);
            assert forall|k: int| 0 <= k < offers(outputs).len() implies #[trigger] offers(
                outputs,
            )[k] == chunk_of(sent_bytes(outputs), chunk_bytes, k as nat) by {
                if k < n {
                    assert(offers(outputs)[k] == before[k]);
                    assert(k * chunk_bytes + chunk_bytes <= n * chunk_bytes) by (nonlinear_arith)
                        requires
                            0 <= k < n,
                    ;
                    assert(k * chunk_bytes >= 0) by (nonlinear_arith)
                        requires
                            0 <= k,
                    ;
                    assert(chunk_of(sent_bytes(outputs), chunk_bytes, k as nat) =~= chunk_of(
                        sent_bytes(earlier),
                        chunk_bytes,
                        k as nat,
                    ));
                } else {
                    assert(chunk_of(sent_bytes(outputs), chunk_bytes, k as nat) =~= chunk);
                }
            }
        } else {
            assert(sent_bytes(outputs) =~= sent_bytes(earlier));
        }
    }
}

/// Whatever is refused or taken, the chunk that is offered as the `k`-th is the `k`-th chunk of
/// what was captured.
pub proof fn law_offers_are_the_chunks_of_the_source(
    queue: Seq<u8>,
    chunk_bytes: nat,
    inputs: Seq<CaptureInput>,
    k: int,
)
    requires
        0 <= k < offers(capture_run(queue, chunk_bytes, inputs).1).len(),
    ensures
        k * chunk_bytes + chunk_bytes <= (queue + captured_bytes(inputs)).len(),
        offers(capture_run(queue, chunk_bytes, inputs).1)[k] == chunk_of(
            queue + captured_bytes(inputs),
            chunk_bytes,
            k as nat,
        ),
{
    let (queue_after, outputs) = capture_run(queue, chunk_bytes, inputs);
    let sent = sent_bytes(outputs);
    let n = offers(outputs).len();
    lemma_offers_make_up_what_was_sent(queue, chunk_bytes, inputs);
    law_capture_keeps_every_byte(queue, chunk_bytes, inputs);
    assert(k * chunk_bytes + chunk_bytes <= n * chunk_bytes) by (nonlinear_arith)
        requires
            0 <= k < n,
    ;
    assert(k * chunk_bytes >= 0) by (nonlinear_arith)
        requires
            0 <= k,
    ;
    assert(chunk_of(sent, chunk_bytes, k as nat) =~= chunk_of(
        sent + queue_after,
        chunk_bytes,
        k as nat,
    ));
}

/// Taken chunks are offers, in the order in which they were offered, each at most once.
proof fn lemma_taken_places(
    queue: Seq<u8>,
    chunk_bytes: nat,
    inputs: Seq<CaptureInput>,
    source: Seq<u8>,
)
    requires
        ({
            let outputs = capture_run(queue, chunk_bytes, inputs).1;
            forall|k: int|
                0 <= k < offers(outputs).len() ==> #[trigger] offers(outputs)[k] == chunk_of(
                    source,
                    chunk_bytes,
                    k as nat,
                )
        }),
    ensures
        ({
            let outputs = capture_run(queue, chunk_bytes, inputs).1;
            let places = taken_places(inputs, outputs);
            &&& forall|i: int|
                0 <= i < places.len() ==> #[trigger] places[i] < offers(outputs).len()
            &&& forall|i: int, j: int|
                0 <= i < j < places.len() ==> #[trigger] places[i] < #[trigger] places[j]
            &&& places.len() > 0 && outputs.len() > 0 && outputs.last() is Send ==> places.last()
                < offers(outputs).len() - 1
            &&& taken_bytes(inputs, outputs) == chunks_at(source, chunk_bytes, places)
        }),
    decreases inputs.len(),
{
    let outputs = capture_run(queue, chunk_bytes, inputs).1;
    lemma_one_action_per_event(queue, chunk_bytes, inputs);
    if inputs.len() >= 2 {
        let earlier = capture_run(queue, chunk_bytes, inputs.drop_last()).1;
        lemma_one_action_per_event(queue, chunk_bytes, inputs.drop_last());
        assert(outputs.drop_last() =~= earlier);
        assert forall|k: int| 0 <= k < offers(earlier).len() implies #[trigger] offers(earlier)[k]
            == chunk_of(source, chunk_bytes, k as nat) by {
            assert(offers(outputs)[k] == offers(earlier)[k]);
        }
        lemma_taken_places(queue, chunk_bytes, inputs.drop_last(), source);
        let fewer = taken_places(inputs.drop_last(), earlier);
        let places = taken_places(inputs, outputs);
        assert(outputs[inputs.len() - 2] == earlier.last());
        if earlier.last() is Send && inputs.last() == CaptureInput::Sent(true) {
            let k = offers(earlier).len() - 1;
            assert(places.drop_last() =~= fewer);
            assert(offers(earlier)[k] == chunk_of(source, chunk_bytes, k as nat));
            assert(forall|i: int| 0 <= i < fewer.len() ==> #[trigger] fewer[i] <= fewer.last());
        }
    }
}

/// Whatever is refused, what the playback side took are chunks of what was captured: whole ones,
/// in order, and none twice.
pub proof fn law_taken_chunks_are_chunks_of_the_source(
    queue: Seq<u8>,
    chunk_bytes: nat,
    inputs: Seq<CaptureInput>,
)
    ensures
        ({
            let outputs = capture_run(queue, chunk_bytes, inputs).1;
            let places = taken_places(inputs, outputs);
            &&& taken_bytes(inputs, outputs) == chunks_at(
                queue + captured_bytes(inputs),
                chunk_bytes,
                places,
            )
            &&& forall|i: int|
                0 <= i < places.len() ==> #[trigger] places[i] < offers(outputs).len()
            &&& forall|i: int, j: int|
                0 <= i < j < places.len() ==> #[trigger] places[i] < #[trigger] places[j]
        }),
{
    let outputs = capture_run(queue, chunk_bytes, inputs).1;
    let source = queue + captured_bytes(inputs);
    assert forall|k: int| 0 <= k < offers(outputs).len() implies #[trigger] offers(outputs)[k]
        == chunk_of(source, chunk_bytes, k as nat) by {
        law_offers_are_the_chunks_of_the_source(queue, chunk_bytes, inputs, k);
    }
    lemma_taken_places(queue, chunk_bytes, inputs, source);
}

/// Every chunk that is offered has the same length.
pub proof fn law_chunks_have_equal_length(
    queue: Seq<u8>,
    chunk_bytes: nat,
    inputs: Seq<CaptureInput>,
    i: int,
)
    requires
        0 <= i < inputs.len(),
    ensures
        capture_run(queue, chunk_bytes, inputs).1.len() == inputs.len(),
        capture_run(queue, chunk_bytes, inputs).1[i] matches CaptureOutput::Send(chunk)
            ==> chunk.len() == chunk_bytes,
    decreases inputs.len(),
{
    lemma_one_action_per_event(queue, chunk_bytes, inputs);
    if i < inputs.len() - 1 {
        law_chunks_have_equal_length(queue, chunk_bytes, inputs.drop_last(), i);
    } else {
        lemma_one_action_per_event(queue, chunk_bytes, inputs.drop_last());
    }
}

/// A run answers each event with one action.
proof fn lemma_one_action_per_event(queue: Seq<u8>, chunk_bytes: nat, inputs: Seq<CaptureInput>)
    ensures
        capture_run(queue, chunk_bytes, inputs).1.len() == inputs.len(),
    decreases inputs.len(),
{
    if inputs.len() > 0 {
        lemma_one_action_per_event(queue, chunk_bytes, inputs.drop_last());
    }
}

/// While the playback side takes every chunk, the backlog goes out chunk by chunk: `count` chunks
/// later it is `count` chunks shorter, and once less than a chunk is left it is time to wait.
pub proof fn law_backlog_drains(queue: Seq<u8>, chunk_bytes: nat, count: nat)
    requires
        chunk_bytes > 0,
    ensures
        ({
            let taken = Seq::new(count, |i: int| CaptureInput::Sent(true));
            let (left, outputs) = capture_run(queue, chunk_bytes, taken);
            if count * chunk_bytes <= queue.len() {
                &&& left == queue.skip((count * chunk_bytes) as int)
                &&& forall|i: int|
                    0 <= i < count ==> #[trigger] outputs[i] == CaptureOutput::Send(
                        queue.subrange(i * chunk_bytes, i * chunk_bytes + chunk_bytes),
                    )
            } else {
                &&& left.len() == queue.len() % chunk_bytes
                &&& outputs.last() == CaptureOutput::Wait
            }
        }),
    decreases count,
{
    let taken = Seq::new(count, |i: int| CaptureInput::Sent(true));
    let (left, outputs) = capture_run(queue, chunk_bytes, taken);
    if count == 0 {
        assert(left =~= queue.skip(0));
        assert(0 * chunk_bytes == 0) by (nonlinear_arith);
    } else {
        let fewer = (count - 1) as nat;
        law_backlog_drains(queue, chunk_bytes, fewer);
        lemma_one_action_per_event(queue, chunk_bytes, taken.drop_last());
        assert(taken.drop_last() =~= Seq::new(fewer, |i: int| CaptureInput::Sent(true)));
        let (left_before, earlier) = capture_run(queue, chunk_bytes, taken.drop_last());
        assert(count * chunk_bytes == fewer * chunk_bytes + chunk_bytes) by (nonlinear_arith)
            requires
                count == fewer + 1,
        ;
        if count * chunk_bytes <= queue.len() {
            assert(left =~= queue.skip((count * chunk_bytes) as int));
            assert(left_before.take(chunk_bytes as int) =~= queue.subrange(
                (fewer * chunk_bytes) as int,
                (fewer * chunk_bytes + chunk_bytes) as int,
            ));
            assert forall|i: int| 0 <= i < count implies #[trigger] outputs[i]
                == CaptureOutput::Send(
                queue.subrange(i * chunk_bytes, i * chunk_bytes + chunk_bytes),
            ) by {
                if i < fewer {
                    assert(outputs[i] == earlier[i]);
                }
            }
        } else if fewer * chunk_bytes <= queue.len() {
            vstd::arithmetic::div_mod::lemma_fundamental_div_mod_converse(
                queue.len() as int,
                chunk_bytes as int,
                fewer as int,
                queue.len() - fewer * chunk_bytes,
            );
        } else {
            vstd::arithmetic::div_mod::lemma_mod_bound(queue.len() as int, chunk_bytes as int);
        }
    }
}

} // verus!
