//! The playback side: feeding the output device from the chunks that arrive, and with silence
//! where none do.
//!
//! [`PlaybackLoop`] decides; whoever drives it performs the action that it names (asking the
//! device for its free space, receiving a chunk, writing, waiting) and hands back what came of it.

use crate::capture;
use crate::peak;
use crate::single::Single;
use std::collections::VecDeque;
use vstd::prelude::*;

verus! {

/// Frames for which the queue has room at first.
pub const INITIAL_FRAMES: usize = 4096;

/// What came of the last action.
pub enum PlaybackEvent {
    /// The stop flag was read.
    StopFlag(bool),
    /// The device has room for this many frames.
    Space(u32),
    /// A chunk arrived, or there was none to take.
    Received(Option<Vec<u8>>),
    /// The bytes were written to the device.
    Written,
    /// The wait for the device is over.
    Woken,
}

/// What is to be done next.
pub enum PlaybackAction {
    /// Read the stop flag.
    CheckStop,
    /// Ask the device for its free space.
    QuerySpace,
    /// Take a chunk from the capture side, without waiting for one.
    Receive,
    /// Show the level, and write `frames` frames, which are `bytes`.
    Write { frames: usize, bytes: VecDeque<u8>, level: Single },
    /// Wait for the device.
    Wait,
    /// Stop the stream and show the level.
    Close { level: Single },
}

/// An event, by what it says.
pub enum PlaybackInput {
    StopFlag(bool),
    Space(nat),
    Received(Option<Seq<u8>>),
    Written,
    Woken,
}

/// An action, by what it asks for.
pub enum PlaybackOutput {
    CheckStop,
    QuerySpace,
    Receive,
    Write(nat, Seq<u8>),
    Wait,
    Close,
}

impl View for PlaybackEvent {
    type V = PlaybackInput;

    open spec fn view(&self) -> PlaybackInput {
        match self {
            PlaybackEvent::StopFlag(stop) => PlaybackInput::StopFlag(*stop),
            PlaybackEvent::Space(frames) => PlaybackInput::Space(*frames as nat),
            PlaybackEvent::Received(Some(chunk)) => PlaybackInput::Received(Some(chunk@)),
            PlaybackEvent::Received(None) => PlaybackInput::Received(None),
            PlaybackEvent::Written => PlaybackInput::Written,
            PlaybackEvent::Woken => PlaybackInput::Woken,
        }
    }
}

impl View for PlaybackAction {
    type V = PlaybackOutput;

    open spec fn view(&self) -> PlaybackOutput {
        match self {
            PlaybackAction::CheckStop => PlaybackOutput::CheckStop,
            PlaybackAction::QuerySpace => PlaybackOutput::QuerySpace,
            PlaybackAction::Receive => PlaybackOutput::Receive,
            PlaybackAction::Write { frames, bytes, level } => PlaybackOutput::Write(
                *frames as nat,
                bytes@,
            ),
            PlaybackAction::Wait => PlaybackOutput::Wait,
            PlaybackAction::Close { level } => PlaybackOutput::Close,
        }
    }
}

impl PlaybackAction {
    /// The level that goes with the action is the peak of what is written, and zero at the end.
    pub open spec fn level_is_right(&self) -> bool {
        match self {
            PlaybackAction::Write { frames, bytes, level } => peak::is_peak_of(*level, bytes@),
            PlaybackAction::Close { level } => level.bits == 0,
            _ => true,
        }
    }
}

/// The playback side's state: the bytes that wait to be written, the size of a frame, and how
/// many frames the device last asked for.
pub struct PlaybackState {
    pub queue: Seq<u8>,
    pub block_align: nat,
    pub frames: nat,
}

/// `count` bytes of silence.
pub open spec fn silence(count: nat) -> Seq<u8> {
    Seq::new(count, |i: int| 0u8)
}

impl PlaybackState {
    /// How many bytes the device asked for.
    pub open spec fn need(self) -> nat {
        self.frames * self.block_align
    }

    /// How many bytes are missing to serve the device.
    pub open spec fn shortage(self) -> nat {
        if self.queue.len() < self.need() {
            (self.need() - self.queue.len()) as nat
        } else {
            0
        }
    }

    /// The same state with `bytes` at the end of the queue.
    pub open spec fn fed(self, bytes: Seq<u8>) -> PlaybackState {
        PlaybackState { queue: self.queue + bytes, ..self }
    }

    /// Writes what the device asked for, once the queue holds it.
    pub open spec fn serve(self) -> (PlaybackState, PlaybackOutput) {
        if self.queue.len() < self.need() {
            (self, PlaybackOutput::Receive)
        } else {
            (
                PlaybackState { queue: self.queue.skip(self.need() as int), ..self },
                PlaybackOutput::Write(self.frames, self.queue.take(self.need() as int)),
            )
        }
    }

    /// The bytes that an event adds to the queue: a chunk, or silence in place of what is missing
    /// where no chunk is there.
    pub open spec fn supply(self, input: PlaybackInput) -> Seq<u8> {
        match input {
            PlaybackInput::Received(Some(chunk)) => chunk,
            PlaybackInput::Received(None) => silence(self.shortage()),
            _ => Seq::empty(),
        }
    }

    /// The state after an event, and the action that follows.
    pub open spec fn step(self, input: PlaybackInput) -> (PlaybackState, PlaybackOutput) {
        match input {
            PlaybackInput::StopFlag(true) => (self, PlaybackOutput::Close),
            PlaybackInput::StopFlag(false) => (self, PlaybackOutput::QuerySpace),
            PlaybackInput::Space(frames) => if frames == 0 {
                (self, PlaybackOutput::Wait)
            } else {
                PlaybackState { frames, ..self }.serve()
            },
            PlaybackInput::Received(_) => self.fed(self.supply(input)).serve(),
            PlaybackInput::Written => (self, PlaybackOutput::Wait),
            PlaybackInput::Woken => (self, PlaybackOutput::CheckStop),
        }
    }
}

/// The playback side's state, as it is held.
pub struct PlaybackLoop {
    queue: VecDeque<u8>,
    block_align: usize,
    frames: usize,
}

impl View for PlaybackLoop {
    type V = PlaybackState;

    closed spec fn view(&self) -> PlaybackState {
        PlaybackState {
            queue: self.queue@,
            block_align: self.block_align as nat,
            frames: self.frames as nat,
        }
    }
}

impl PlaybackLoop {
    /// The bytes that the device asked for fit in memory.
    #[verifier::type_invariant]
    spec fn fits(self) -> bool {
        self.frames * self.block_align <= usize::MAX / 2
    }

    /// An empty queue, for a stream whose frames take `block_align` bytes each.
    pub fn new(block_align: u16) -> (result: PlaybackLoop)
        ensures
            result@ == (PlaybackState {
                queue: Seq::<u8>::empty(),
                block_align: block_align as nat,
                frames: 0,
            }),
    {
        let align: usize = block_align as usize;
        PlaybackLoop {
            queue: VecDeque::with_capacity(align * INITIAL_FRAMES),
            block_align: align,
            frames: 0,
        }
    }

    /// Writes what the device asked for, once `queue` holds it.
    fn serve(queue: &mut VecDeque<u8>, block_align: usize, frames: usize) -> (action:
        PlaybackAction)
        requires
            frames * block_align <= usize::MAX / 2,
        ensures
            ({
                let state = PlaybackState {
                    queue: old(queue)@,
                    block_align: block_align as nat,
                    frames: frames as nat,
                };
                (PlaybackState { queue: final(queue)@, ..state }, action@) == state.serve()
            }),
            action.level_is_right(),
    {
        let need: usize = frames * block_align;
        if queue.len() < need {
            return PlaybackAction::Receive;
        }
        let level: Single = peak::peak_level_from_queue_prefix_f32le(queue, need);
        proof {
            peak::law_queue_prefix_is_a_buffer(queue@, need as nat);
        }
        let mut bytes: VecDeque<u8> = queue.split_off(need);
        std::mem::swap(queue, &mut bytes);
        PlaybackAction::Write { frames, bytes, level }
    }

    /// Takes in what came of the last action, and names the next one. The bytes that the device
    /// asks for have to fit in memory.
    pub fn step(&mut self, event: PlaybackEvent) -> (action: PlaybackAction)
        requires
            event@ matches PlaybackInput::Space(frames) ==> frames * old(self)@.block_align
                <= usize::MAX / 2,
        ensures
            (final(self)@, action@) == old(self)@.step(event@),
            action.level_is_right(),
            event matches PlaybackEvent::StopFlag(stop) ==> {
                &&& action is Close <==> stop
                &&& action is QuerySpace <==> !stop
                &&& final(self)@ == old(self)@
            },
            event is Woken ==> action is CheckStop && final(self)@ == old(self)@,
            event is Written || event == PlaybackEvent::Space(0) ==> action is Wait && final(self)@
                == old(self)@,
            event matches PlaybackEvent::Space(frames) ==> (frames > 0 ==> {
                let need = frames * old(self)@.block_align;
                &&& final(self)@.frames == frames
                &&& final(self)@.block_align == old(self)@.block_align
                &&& if old(self)@.queue.len() < need {
                    action is Receive && final(self)@.queue == old(self)@.queue
                } else {
                    &&& action matches PlaybackAction::Write { frames: count, bytes, level }
                    &&& count == frames
                    &&& bytes@.len() == need
                    &&& bytes@ + final(self)@.queue == old(self)@.queue
                }
            }),
            event matches PlaybackEvent::Received(received) ==> {
                let need = old(self)@.frames * old(self)@.block_align;
                &&& final(self)@.frames == old(self)@.frames
                &&& final(self)@.block_align == old(self)@.block_align
                &&& match received {
                    Some(chunk) => {
                        let waiting = old(self)@.queue + chunk@;
                        if waiting.len() < need {
                            action is Receive && final(self)@.queue == waiting
                        } else {
                            &&& action matches PlaybackAction::Write { frames, bytes, level }
                            &&& frames == old(self)@.frames
                            &&& bytes@.len() == need
                            &&& bytes@ + final(self)@.queue == waiting
                        }
                    },
                    None => {
                        &&& action matches PlaybackAction::Write { frames, bytes, level }
                        &&& frames == old(self)@.frames
                        &&& bytes@.len() == need
                        &&& old(self)@.queue.len() >= need ==> bytes@ + final(self)@.queue == old(
                            self,
                        )@.queue
                        &&& old(self)@.queue.len() < need ==> {
                            &&& final(self)@.queue.len() == 0
                            &&& bytes@.take(old(self)@.queue.len() as int) == old(self)@.queue
                            &&& forall|i: int|
                                old(self)@.queue.len() <= i < need ==> #[trigger] bytes@[i] == 0
                        }
                    },
                }
            },
            action matches PlaybackAction::Write { frames, bytes, level } ==> peak::is_peak_of(
                level,
                bytes@,
            ),
            action matches PlaybackAction::Close { level } ==> level.bits == 0,
    {
        proof {
            use_type_invariant(&*self);
        }
        let mut queue: VecDeque<u8> = VecDeque::new();
        std::mem::swap(&mut queue, &mut self.queue);
        let action: PlaybackAction = match event {
            PlaybackEvent::StopFlag(stop) => {
                if stop {
                    PlaybackAction::Close { level: Single::zero() }
                } else {
                    PlaybackAction::QuerySpace
                }
            },
            PlaybackEvent::Space(frames) => {
                if frames == 0 {
                    PlaybackAction::Wait
                } else {
                    self.frames = frames as usize;
                    Self::serve(&mut queue, self.block_align, self.frames)
                }
            },
            PlaybackEvent::Received(received) => {
                match received {
                    Some(chunk) => {
                        extend_queue(&mut queue, &chunk);
                    },
                    None => {
                        let need: usize = self.frames * self.block_align;
                        if queue.len() < need {
                            let ghost before = queue@;
                            queue.resize(need, 0);
                            assert(queue@ =~= before + silence((need - before.len()) as nat)) by {
                                assert(queue@.subrange(0, before.len() as int) == before);
                                assert forall|i: int| 0 <= i < before.len() implies queue@[i]
                                    == before[i] by {
                                    assert(queue@.subrange(0, before.len() as int)[i] == queue@[i]);
                                }
                            }
                        } else {
                            assert(queue@ =~= queue@ + silence(0));
                        }
                    },
                }
                Self::serve(&mut queue, self.block_align, self.frames)
            },
            PlaybackEvent::Written => PlaybackAction::Wait,
            PlaybackEvent::Woken => PlaybackAction::CheckStop,
        };
        self.queue = queue;
        action
    }
}

/// A run of the playback side: its state and its actions after a row of events.
pub open spec fn playback_run(state: PlaybackState, inputs: Seq<PlaybackInput>) -> (
    PlaybackState,
    Seq<PlaybackOutput>,
)
    decreases inputs.len(),
{
    if inputs.len() == 0 {
        (state, Seq::empty())
    } else {
        let (before, outputs) = playback_run(state, inputs.drop_last());
        let (after, output) = before.step(inputs.last());
        (after, outputs.push(output))
    }
}

/// All bytes that went into the queue during a run, in order: chunks, and silence.
pub open spec fn supplied_bytes(state: PlaybackState, inputs: Seq<PlaybackInput>) -> Seq<u8>
    decreases inputs.len(),
{
    if inputs.len() == 0 {
        Seq::empty()
    } else {
        let before = playback_run(state, inputs.drop_last()).0;
        supplied_bytes(state, inputs.drop_last()) + before.supply(inputs.last())
    }
}

/// All bytes of the chunks that arrived, in order.
pub open spec fn received_bytes(inputs: Seq<PlaybackInput>) -> Seq<u8>
    decreases inputs.len(),
{
    if inputs.len() == 0 {
        Seq::empty()
    } else {
        received_bytes(inputs.drop_last()) + match inputs.last() {
            PlaybackInput::Received(Some(chunk)) => chunk,
            _ => Seq::empty(),
        }
    }
}

/// All bytes that were written to the device, in order.
pub open spec fn written_bytes(outputs: Seq<PlaybackOutput>) -> Seq<u8>
    decreases outputs.len(),
{
    if outputs.len() == 0 {
        Seq::empty()
    } else {
        written_bytes(outputs.drop_last()) + match outputs.last() {
            PlaybackOutput::Write(frames, bytes) => bytes,
            _ => Seq::empty(),
        }
    }
}

/// Whatever happens, what was written so far and then what is still queued are the bytes that
/// went in: none lost, none added, none out of order.
pub proof fn law_playback_keeps_every_byte(state: PlaybackState, inputs: Seq<PlaybackInput>)
    ensures
        ({
            let (after, outputs) = playback_run(state, inputs);
            written_bytes(outputs) + after.queue == state.queue + supplied_bytes(state, inputs)
        }),
    decreases inputs.len(),
{
    let (after, outputs) = playback_run(state, inputs);
    if inputs.len() == 0 {
        assert(written_bytes(outputs) + after.queue =~= state.queue + supplied_bytes(
            state,
            inputs,
        ));
    } else {
        law_playback_keeps_every_byte(state, inputs.drop_last());
        let (before, earlier) = playback_run(state, inputs.drop_last());
        assert(outputs.drop_last() =~= earlier);
        let fresh = before.supply(inputs.last());
        let gone = match outputs.last() {
            PlaybackOutput::Write(frames, bytes) => bytes,
            _ => Seq::empty(),
        };
        assert(gone + after.queue =~= before.queue + fresh);
        assert(written_bytes(outputs) + after.queue =~= written_bytes(earlier) + (gone
            + after.queue));
        assert((written_bytes(earlier) + before.queue) + fresh =~= written_bytes(earlier) + (
        before.queue + fresh));
        assert(state.queue + supplied_bytes(state, inputs) =~= (state.queue + supplied_bytes(
            state,
            inputs.drop_last(),
        )) + fresh);
    }
}

/// The stream is closed after no event but a stop flag that is set, and always after that one; the
/// device is asked for its space after no event but a stop flag that is not set, and always after
/// that one; the stop flag is read when the wait is over, and at no other time; and it is time to
/// wait once the bytes were written or where there is no space, and at no other time. Whatever is
/// queued and however much was last asked for has no part in it, and none of these events changes
/// the state.
pub proof fn law_next_action(state: PlaybackState, input: PlaybackInput)
    ensures
        state.step(input).1 is Close <==> input == PlaybackInput::StopFlag(true),
        state.step(input).1 is QuerySpace <==> input == PlaybackInput::StopFlag(false),
        state.step(input).1 is CheckStop <==> input == PlaybackInput::Woken,
        state.step(input).1 is Wait <==> input == PlaybackInput::Written || input
            == PlaybackInput::Space(0),
        input is StopFlag || input is Woken || input is Written || input == PlaybackInput::Space(0)
            ==> state.step(input).0 == state,
{
}

/// Once the device has room for some frames, they are written exactly if the bytes that are queued
/// come to as many: then the first bytes of the queue go out and the rest stays in order. Else a
/// chunk is asked for, and the queue stays as it is.
pub proof fn law_space_is_filled(state: PlaybackState, frames: nat)
    requires
        frames > 0,
    ensures
        ({
            let need = frames * state.block_align;
            let (after, output) = state.step(PlaybackInput::Space(frames));
            &&& after.frames == frames
            &&& after.block_align == state.block_align
            &&& output is Write <==> state.queue.len() >= need
            &&& output is Receive <==> state.queue.len() < need
            &&& output is Receive ==> after.queue == state.queue
            &&& output matches PlaybackOutput::Write(count, bytes) ==> {
                &&& count == frames
                &&& bytes.len() == need
                &&& after.queue.len() == state.queue.len() - need
                &&& forall|i: int|
                    0 <= i < state.queue.len() ==> #[trigger] state.queue[i] == (bytes
                        + after.queue)[i]
            }
        }),
{
}

/// A chunk that arrives goes behind what is queued. Then the frames that were asked for are
/// written exactly if the bytes come to as many; else another chunk is asked for.
pub proof fn law_chunk_is_queued(state: PlaybackState, chunk: Seq<u8>)
    ensures
        ({
            let need = state.frames * state.block_align;
            let (after, output) = state.step(PlaybackInput::Received(Some(chunk)));
            &&& after.frames == state.frames
            &&& after.block_align == state.block_align
            &&& output is Write <==> state.queue.len() + chunk.len() >= need
            &&& output is Receive <==> state.queue.len() + chunk.len() < need
            &&& output is Receive ==> after.queue == state.queue + chunk
            &&& output matches PlaybackOutput::Write(count, bytes) ==> {
                &&& count == state.frames
                &&& bytes.len() == need
                &&& after.queue.len() == state.queue.len() + chunk.len() - need
                &&& forall|i: int|
                    0 <= i < state.queue.len() ==> #[trigger] state.queue[i] == (bytes
                        + after.queue)[i]
                &&& forall|i: int|
                    0 <= i < chunk.len() ==> #[trigger] chunk[i] == (bytes + after.queue)[
                    state.queue.len() + i]
            }
        }),
{
}

/// Where no chunk is there, the frames that were asked for are written at once and in full: first
/// what is queued, then zero bytes up to their length. What was queued beyond it stays.
pub proof fn law_missing_chunk_is_silence(state: PlaybackState)
    ensures
        ({
            let need = state.frames * state.block_align;
            let (after, output) = state.step(PlaybackInput::Received(None));
            &&& after.frames == state.frames
            &&& after.block_align == state.block_align
            &&& output matches PlaybackOutput::Write(count, bytes)
            &&& count == state.frames
            &&& bytes.len() == need
            &&& after.queue.len() == if state.queue.len() > need {
                state.queue.len() - need
            } else {
                0
            }
            &&& forall|i: int|
                0 <= i < state.queue.len() ==> #[trigger] state.queue[i] == (bytes + after.queue)[i]
            &&& forall|i: int| state.queue.len() <= i < need ==> #[trigger] bytes[i] == 0
        }),
{
}

/// It does not matter in how many chunks the bytes arrive: two chunks, of which the first did not
/// suffice, come to the same as one of both.
pub proof fn law_chunks_can_be_joined(state: PlaybackState, a: Seq<u8>, b: Seq<u8>)
    requires
        state.queue.len() + a.len() < state.frames * state.block_align,
    ensures
        ({
            let (between, output) = state.step(PlaybackInput::Received(Some(a)));
            &&& output is Receive
            &&& between.step(PlaybackInput::Received(Some(b))) == state.step(
                PlaybackInput::Received(Some(a + b)),
            )
        }),
{
    assert((state.queue + a) + b =~= state.queue + (a + b));
}

/// Silence is as long as it is meant to be, and all zero.
pub proof fn law_silence_is_zero(count: nat)
    ensures
        silence(count).len() == count,
        forall|i: int| 0 <= i < count ==> #[trigger] silence(count)[i] == 0,
{
}

/// The device is always handed whole frames, as many as it last had room for.
pub proof fn law_writes_are_whole_frames(state: PlaybackState, input: PlaybackInput)
    ensures
        state.step(input).1 matches PlaybackOutput::Write(frames, bytes) ==> {
            &&& bytes.len() == frames * state.block_align
            &&& frames == match input {
                PlaybackInput::Space(room) => room,
                _ => state.frames,
            }
        },
        state.step(input).0.block_align == state.block_align,
{
}

/// The device never waits for the capture side: where no chunk is there, what it asked for is
/// written at once, ending in exactly as much silence as was missing.
pub proof fn law_underrun_is_filled_with_silence(state: PlaybackState)
    requires
        state.queue.len() < state.need(),
    ensures
        state.step(PlaybackInput::Received(None)) == (
            PlaybackState { queue: Seq::empty(), ..state },
            PlaybackOutput::Write(state.frames, state.queue + silence(state.shortage())),
        ),
{
    let padded = state.queue + silence(state.shortage());
    assert(padded.skip(state.need() as int) =~= Seq::empty());
    assert(padded.take(state.need() as int) =~= padded);
}

/// A chunk is asked for only while bytes are missing, and each byte that arrives
/// makes it one fewer.
pub proof fn law_receiving_makes_progress(state: PlaybackState, input: PlaybackInput)
    ensures
        state.step(input).1 is Receive ==> state.step(input).0.shortage() > 0,
        input matches PlaybackInput::Received(Some(chunk)) ==> (state.step(input).1 is Receive
            ==> state.step(input).0.shortage() == state.shortage() - chunk.len()),
{
}

/// Which of the bytes that were queued at first or went in during a run are audio (`true`), and
/// which are silence in place of audio that was missing.
pub open spec fn origins(state: PlaybackState, inputs: Seq<PlaybackInput>) -> Seq<bool>
    decreases inputs.len(),
{
    if inputs.len() == 0 {
        Seq::new(state.queue.len(), |i: int| true)
    } else {
        let before = playback_run(state, inputs.drop_last()).0;
        let is_audio = inputs.last() != PlaybackInput::Received(None);
        origins(state, inputs.drop_last()) + Seq::new(
            before.supply(inputs.last()).len(),
            |i: int| is_audio,
        )
    }
}

/// The bytes that are audio, the silence in between left out.
pub open spec fn audio_of(bytes: Seq<u8>, origins: Seq<bool>) -> Seq<u8>
    decreases bytes.len(),
{
    if bytes.len() == 0 {
        Seq::empty()
    } else {
        let earlier = audio_of(bytes.drop_last(), origins.drop_last());
        if origins.last() {
            earlier.push(bytes.last())
        } else {
            earlier
        }
    }
}

/// The audio of two runs of bytes together is the audio of the one and then of the other.
proof fn lemma_audio_of_joined(a: Seq<u8>, b: Seq<u8>, from_a: Seq<bool>, from_b: Seq<bool>)
    requires
        a.len() == from_a.len(),
        b.len() == from_b.len(),
    ensures
        audio_of(a + b, from_a + from_b) == audio_of(a, from_a) + audio_of(b, from_b),
    decreases b.len(),
{
    if b.len() == 0 {
        assert(a + b =~= a);
        assert(from_a + from_b =~= from_a);
        assert(audio_of(a, from_a) + audio_of(b, from_b) =~= audio_of(a, from_a));
    } else {
        lemma_audio_of_joined(a, b.drop_last(), from_a, from_b.drop_last());
        assert((a + b).drop_last() =~= a + b.drop_last());
        assert((from_a + from_b).drop_last() =~= from_a + from_b.drop_last());
        assert(audio_of(a + b, from_a + from_b) =~= audio_of(a, from_a) + audio_of(b, from_b));
    }
}

/// Where all bytes are of one kind, all of them or none are audio.
proof fn lemma_audio_of_one_kind(bytes: Seq<u8>, origins: Seq<bool>, is_audio: bool)
    requires
        bytes.len() == origins.len(),
        forall|i: int| 0 <= i < origins.len() ==> #[trigger] origins[i] == is_audio,
    ensures
        audio_of(bytes, origins) == if is_audio {
            bytes
        } else {
            Seq::empty()
        },
    decreases bytes.len(),
{
    if bytes.len() > 0 {
        assert forall|i: int| 0 <= i < origins.drop_last().len() implies #[trigger]
            origins.drop_last()[i] == is_audio by {
            assert(origins.drop_last()[i] == origins[i]);
        }
        lemma_audio_of_one_kind(bytes.drop_last(), origins.drop_last(), is_audio);
        assert(origins[origins.len() - 1] == is_audio);
        assert(bytes.drop_last().push(bytes.last()) =~= bytes);
    } else {
        assert(bytes =~= Seq::empty());
    }
}

/// Of all that went in, the audio is what was queued at first and the chunks that arrived; the
/// rest is zero bytes.
proof fn lemma_audio_is_what_arrived(state: PlaybackState, inputs: Seq<PlaybackInput>)
    ensures
        ({
            let all = state.queue + supplied_bytes(state, inputs);
            let kinds = origins(state, inputs);
            &&& kinds.len() == all.len()
            &&& audio_of(all, kinds) == state.queue + received_bytes(inputs)
            &&& forall|i: int| 0 <= i < all.len() && !(#[trigger] kinds[i]) ==> all[i] == 0
        }),
    decreases inputs.len(),
{
    let all = state.queue + supplied_bytes(state, inputs);
    let kinds = origins(state, inputs);
    if inputs.len() == 0 {
        assert(all =~= state.queue);
        assert(state.queue + received_bytes(inputs) =~= state.queue);
        lemma_audio_of_one_kind(all, kinds, true);
    } else {
        let fewer = inputs.drop_last();
        lemma_audio_is_what_arrived(state, fewer);
        let before = playback_run(state, fewer).0;
        let fresh = before.supply(inputs.last());
        let is_audio = inputs.last() != PlaybackInput::Received(None);
        let fresh_kinds = Seq::new(fresh.len(), |i: int| is_audio);
        let earlier = state.queue + supplied_bytes(state, fewer);
        assert(all =~= earlier + fresh);
        lemma_audio_of_joined(earlier, fresh, origins(state, fewer), fresh_kinds);
        lemma_audio_of_one_kind(fresh, fresh_kinds, is_audio);
        assert(state.queue + received_bytes(inputs) =~= (state.queue + received_bytes(fewer))
            + audio_of(fresh, fresh_kinds));
        assert forall|i: int| 0 <= i < all.len() && !(#[trigger] kinds[i]) implies all[i] == 0 by {
            if i < earlier.len() {
                assert(origins(state, fewer)[i] == kinds[i]);
                assert(earlier[i] == all[i]);
            } else {
                assert(kinds[i] == fresh_kinds[i - earlier.len()]);
                assert(all[i] == fresh[i - earlier.len()]);
            }
        }
    }
}

/// However often audio was missing, nothing but silence was added for it: the audio in what was
/// written, and then that in what is still queued, are what was queued at first and the chunks
/// that arrived, in order; everything else in them is zero bytes.
pub proof fn law_playback_adds_only_silence(state: PlaybackState, inputs: Seq<PlaybackInput>)
    ensures
        ({
            let (after, outputs) = playback_run(state, inputs);
            let written = written_bytes(outputs);
            let kinds = origins(state, inputs);
            &&& kinds.len() == written.len() + after.queue.len()
            &&& audio_of(written, kinds.take(written.len() as int)) + audio_of(
                after.queue,
                kinds.skip(written.len() as int),
            ) == state.queue + received_bytes(inputs)
            &&& forall|i: int| 0 <= i < written.len() && !(#[trigger] kinds[i]) ==> written[i] == 0
        }),
{
    let (after, outputs) = playback_run(state, inputs);
    let written = written_bytes(outputs);
    let kinds = origins(state, inputs);
    law_playback_keeps_every_byte(state, inputs);
    lemma_audio_is_what_arrived(state, inputs);
    let first = kinds.take(written.len() as int);
    let rest = kinds.skip(written.len() as int);
    assert(kinds.len() == (written + after.queue).len());
    assert(kinds =~= first + rest);
    lemma_audio_of_joined(written, after.queue, first, rest);
    assert forall|i: int| 0 <= i < written.len() && !(#[trigger] kinds[i]) implies written[i]
        == 0 by {
        assert((written + after.queue)[i] == written[i]);
    }
}

/// The audio in what was written is the beginning of what was queued at first and arrived since.
pub proof fn law_written_audio_is_a_prefix(state: PlaybackState, inputs: Seq<PlaybackInput>)
    ensures
        ({
            let (after, outputs) = playback_run(state, inputs);
            let written = written_bytes(outputs);
            audio_of(written, origins(state, inputs).take(written.len() as int)).is_prefix_of(
                state.queue + received_bytes(inputs),
            )
        }),
{
    law_playback_adds_only_silence(state, inputs);
    let (after, outputs) = playback_run(state, inputs);
    let written = written_bytes(outputs);
    let kinds = origins(state, inputs);
    let audio = audio_of(written, kinds.take(written.len() as int));
    let waiting = audio_of(after.queue, kinds.skip(written.len() as int));
    assert((audio + waiting).take(audio.len() as int) =~= audio);
}

/// As long as a chunk is there whenever one is wanted, all that is written is audio.
pub proof fn law_all_is_audio_without_underrun(state: PlaybackState, inputs: Seq<PlaybackInput>)
    requires
        forall|i: int|
            0 <= i < inputs.len() ==> #[trigger] inputs[i] != PlaybackInput::Received(None),
    ensures
        ({
            let (after, outputs) = playback_run(state, inputs);
            let written = written_bytes(outputs);
            let kinds = origins(state, inputs);
            &&& audio_of(written, kinds.take(written.len() as int)) == written
            &&& audio_of(after.queue, kinds.skip(written.len() as int)) == after.queue
        }),
{
    let (after, outputs) = playback_run(state, inputs);
    let written = written_bytes(outputs);
    let kinds = origins(state, inputs);
    law_playback_adds_only_silence(state, inputs);
    lemma_origins_without_underrun(state, inputs);
    lemma_audio_of_one_kind(written, kinds.take(written.len() as int), true);
    lemma_audio_of_one_kind(after.queue, kinds.skip(written.len() as int), true);
}

/// As long as a chunk is there whenever one is wanted, only audio goes in.
proof fn lemma_origins_without_underrun(state: PlaybackState, inputs: Seq<PlaybackInput>)
    requires
        forall|i: int|
            0 <= i < inputs.len() ==> #[trigger] inputs[i] != PlaybackInput::Received(None),
    ensures
        forall|i: int|
            0 <= i < origins(state, inputs).len() ==> #[trigger] origins(state, inputs)[i],
    decreases inputs.len(),
{
    if inputs.len() > 0 {
        assert forall|i: int| 0 <= i < inputs.drop_last().len() implies #[trigger]
            inputs.drop_last()[i] != PlaybackInput::Received(None) by {
            assert(inputs.drop_last()[i] == inputs[i]);
        }
        lemma_origins_without_underrun(state, inputs.drop_last());
        assert(inputs[inputs.len() - 1] != PlaybackInput::Received(None));
        let earlier = origins(state, inputs.drop_last());
        assert forall|i: int| 0 <= i < origins(state, inputs).len() implies #[trigger] origins(
            state,
            inputs,
        )[i] by {
            if i < earlier.len() {
                assert(origins(state, inputs)[i] == earlier[i]);
            }
        }
    }
}

/// The second output plays what the first one played, whatever happens on the way. Both sides
/// start empty, and what is between them keeps its order. Then the audio in what was written, the
/// audio that waits to be written and what is under way are, in this order, whole chunks of what
/// was captured: those that were taken, in the order of the source and none twice. Whatever else
/// was written is silence.
pub proof fn law_output_plays_chunks_of_the_source(
    chunk_bytes: nat,
    block_align: nat,
    capture_inputs: Seq<capture::CaptureInput>,
    playback_inputs: Seq<PlaybackInput>,
    under_way: Seq<u8>,
)
    requires
        ({
            let capture_outputs = capture::capture_run(
                Seq::empty(),
                chunk_bytes,
                capture_inputs,
            ).1;
            received_bytes(playback_inputs) + under_way == capture::taken_bytes(
                capture_inputs,
                capture_outputs,
            )
        }),
    ensures
        ({
            let start = PlaybackState { queue: Seq::empty(), block_align, frames: 0 };
            let (after, outputs) = playback_run(start, playback_inputs);
            let written = written_bytes(outputs);
            let kinds = origins(start, playback_inputs);
            let capture_outputs = capture::capture_run(
                Seq::empty(),
                chunk_bytes,
                capture_inputs,
            ).1;
            let places = capture::taken_places(capture_inputs, capture_outputs);
            &&& audio_of(written, kinds.take(written.len() as int)) + audio_of(
                after.queue,
                kinds.skip(written.len() as int),
            ) + under_way == capture::chunks_at(
                capture::captured_bytes(capture_inputs),
                chunk_bytes,
                places,
            )
            &&& forall|i: int, j: int|
                0 <= i < j < places.len() ==> #[trigger] places[i] < #[trigger] places[j]
            &&& forall|i: int| 0 <= i < written.len() && !(#[trigger] kinds[i]) ==> written[i] == 0
        }),
{
    let start = PlaybackState { queue: Seq::empty(), block_align, frames: 0 };
    law_playback_adds_only_silence(start, playback_inputs);
    capture::law_taken_chunks_are_chunks_of_the_source(Seq::empty(), chunk_bytes, capture_inputs);
    assert(start.queue + received_bytes(playback_inputs) =~= received_bytes(playback_inputs));
    assert(Seq::empty() + capture::captured_bytes(capture_inputs) =~= capture::captured_bytes(
        capture_inputs,
    ));
}

/// Where no chunk is refused, the second output plays everything that the first one played: the
/// audio in what was written, the audio that waits to be written, what is under way between the
/// two sides, what is on offer and what waits to be offered are, in this order, exactly what was
/// captured. Where a chunk is also there whenever one is wanted, there is no silence in between.
pub proof fn law_output_duplicates_the_source(
    chunk_bytes: nat,
    block_align: nat,
    capture_inputs: Seq<capture::CaptureInput>,
    playback_inputs: Seq<PlaybackInput>,
    under_way: Seq<u8>,
)
    requires
        ({
            let (unsent, capture_outputs) = capture::capture_run(
                Seq::empty(),
                chunk_bytes,
                capture_inputs,
            );
            &&& capture::none_refused(capture_inputs, capture_outputs)
            &&& received_bytes(playback_inputs) + under_way == capture::taken_bytes(
                capture_inputs,
                capture_outputs,
            )
        }),
    ensures
        ({
            let start = PlaybackState { queue: Seq::empty(), block_align, frames: 0 };
            let (after, outputs) = playback_run(start, playback_inputs);
            let written = written_bytes(outputs);
            let kinds = origins(start, playback_inputs);
            let (unsent, capture_outputs) = capture::capture_run(
                Seq::empty(),
                chunk_bytes,
                capture_inputs,
            );
            let pending = under_way + capture::offered_bytes(capture_outputs) + unsent;
            &&& audio_of(written, kinds.take(written.len() as int)) + audio_of(
                after.queue,
                kinds.skip(written.len() as int),
            ) + pending == capture::captured_bytes(capture_inputs)
            &&& (forall|i: int|
                0 <= i < playback_inputs.len() ==> #[trigger] playback_inputs[i]
                    != PlaybackInput::Received(None)) ==> written + after.queue + pending
                == capture::captured_bytes(capture_inputs)
        }),
{
    let start = PlaybackState { queue: Seq::empty(), block_align, frames: 0 };
    let (after, outputs) = playback_run(start, playback_inputs);
    let written = written_bytes(outputs);
    let kinds = origins(start, playback_inputs);
    let (unsent, capture_outputs) = capture::capture_run(
        Seq::empty(),
        chunk_bytes,
        capture_inputs,
    );
    let offered = capture::offered_bytes(capture_outputs);
    let played = audio_of(written, kinds.take(written.len() as int)) + audio_of(
        after.queue,
        kinds.skip(written.len() as int),
    );
    law_playback_adds_only_silence(start, playback_inputs);
    capture::law_offered_chunks_are_taken(Seq::empty(), chunk_bytes, capture_inputs);
    capture::law_capture_keeps_every_byte(Seq::empty(), chunk_bytes, capture_inputs);
    assert(start.queue + received_bytes(playback_inputs) =~= received_bytes(playback_inputs));
    assert(Seq::empty() + capture::captured_bytes(capture_inputs) =~= capture::captured_bytes(
        capture_inputs,
    ));
    assert(played + (under_way + offered + unsent) =~= ((played + under_way) + offered) + unsent);
    if forall|i: int|
        0 <= i < playback_inputs.len() ==> #[trigger] playback_inputs[i]
            != PlaybackInput::Received(None) {
        law_all_is_audio_without_underrun(start, playback_inputs);
    }
}

/// Puts the bytes of `chunk` at the end of `queue`.
fn extend_queue(queue: &mut VecDeque<u8>, chunk: &Vec<u8>)
    ensures
        final(queue)@ == old(queue)@ + chunk@,
{
    let mut idx: usize = 0;
    while idx < chunk.len()
        invariant
            idx <= chunk@.len(),
            queue@ == old(queue)@ + chunk@.take(idx as int),
        decreases chunk@.len() - idx,
    {
        queue.push_back(chunk[idx]);
        idx = idx + 1;
        assert(queue@ =~= old(queue)@ + chunk@.take(idx as int));
    }
    assert(chunk@.take(idx as int) =~= chunk@);
}

} // verus!
