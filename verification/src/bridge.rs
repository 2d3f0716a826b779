//! The bridge between the two sides: whether its threads run, and what its meters show.

use crate::meters::{self, LevelMeters};
use crate::single::Single;
use vstd::prelude::*;

verus! {

/// Why the bridge could not be started.
#[derive(Clone, Copy, Debug, PartialEq, Eq, Structural)]
pub enum StartError {
    /// The capture thread could not be spawned.
    CaptureThread,
    /// The playback thread could not be spawned.
    PlaybackThread,
}

impl StartError {
    /// The error in words.
    pub open spec fn text(self) -> Seq<char> {
        match self {
            StartError::CaptureThread => "failed to start capture thread"@,
            StartError::PlaybackThread => "failed to start playback thread"@,
        }
    }

    /// The error in words.
    pub fn message(self) -> (result: String)
        ensures
            result@ == self.text(),
            self is CaptureThread ==> result@ == "failed to start capture thread"@,
            self is PlaybackThread ==> result@ == "failed to start playback thread"@,
    {
        match self {
            StartError::CaptureThread => "failed to start capture thread".to_owned(),
            StartError::PlaybackThread => "failed to start playback thread".to_owned(),
        }
    }
}

/// What happened while the bridge is being started.
#[derive(Clone, Copy, Debug, PartialEq, Eq, Structural)]
pub enum StartEvent {
    /// The start was asked for.
    Requested,
    /// The capture thread was spawned (`true`) or could not be.
    CaptureSpawned(bool),
    /// The playback thread was spawned (`true`) or could not be.
    PlaybackSpawned(bool),
}

/// What is to be done next to start the bridge.
#[derive(Clone, Copy, Debug, PartialEq, Eq, Structural)]
pub enum StartAction {
    /// Spawn the capture thread.
    SpawnCapture,
    /// Spawn the playback thread.
    SpawnPlayback,
    /// The bridge runs.
    Started,
    /// The bridge could not be started.
    Failed(StartError),
}

/// Whether the bridge runs after an event, and the action that follows.
pub open spec fn start_step(running: bool, event: StartEvent) -> (bool, StartAction) {
    match event {
        StartEvent::Requested => if running {
            (true, StartAction::Started)
        } else {
            (false, StartAction::SpawnCapture)
        },
        StartEvent::CaptureSpawned(true) => (running, StartAction::SpawnPlayback),
        StartEvent::CaptureSpawned(false) => (
            running,
            StartAction::Failed(StartError::CaptureThread),
        ),
        StartEvent::PlaybackSpawned(true) => (true, StartAction::Started),
        StartEvent::PlaybackSpawned(false) => (
            running,
            StartAction::Failed(StartError::PlaybackThread),
        ),
    }
}

/// Whether the bridge runs after a row of events.
pub open spec fn runs_after(running: bool, events: Seq<StartEvent>) -> bool
    decreases events.len(),
{
    if events.len() == 0 {
        running
    } else {
        start_step(runs_after(running, events.drop_last()), events.last()).0
    }
}

/// The bridge: whether its two threads run, and its meters.
pub struct AudioBridge {
    pub worker: bool,
    pub meters: LevelMeters,
}

impl AudioBridge {
    /// Whether the two threads run.
    pub open spec fn running(&self) -> bool {
        self.worker
    }

    /// A bridge at rest, with both meters at zero.
    pub fn new() -> (result: AudioBridge)
        ensures
            !result.running(),
            !result.worker,
            result.meters.input_level().bits == 0,
            result.meters.output_level().bits == 0,
    {
        AudioBridge { worker: false, meters: LevelMeters::new() }
    }

    /// Whether the two threads run.
    pub fn is_running(&self) -> (result: bool)
        ensures
            result == self.running(),
            result == self.worker,
    {
        self.worker
    }

    /// What the meters show: the input's level, then the output's.
    pub fn levels(&self) -> (levels: (Single, Single))
        ensures
            levels == (self.meters.input_level(), self.meters.output_level()),
            meters::in_range(levels.0),
            meters::in_range(levels.1),
    {
        self.meters.get()
    }

    /// Takes in what happened while the bridge is being started, and names the next action. It
    /// counts as running once both threads are there.
    pub fn start(&mut self, event: StartEvent) -> (action: StartAction)
        ensures
            (final(self).running(), action) == start_step(old(self).running(), event),
            final(self).meters == old(self).meters,
            final(self).worker <==> old(self).worker || event == StartEvent::PlaybackSpawned(true),
            action is Started <==> event == StartEvent::PlaybackSpawned(true) || event
                == StartEvent::Requested && old(self).worker,
            action is SpawnCapture <==> event == StartEvent::Requested && !old(self).worker,
            action is SpawnPlayback <==> event == StartEvent::CaptureSpawned(true),
            action == StartAction::Failed(StartError::CaptureThread) <==> event
                == StartEvent::CaptureSpawned(false),
            action == StartAction::Failed(StartError::PlaybackThread) <==> event
                == StartEvent::PlaybackSpawned(false),
    {
        match event {
            StartEvent::Requested => {
                if self.worker {
                    StartAction::Started
                } else {
                    StartAction::SpawnCapture
                }
            },
            StartEvent::CaptureSpawned(spawned) => {
                if spawned {
                    StartAction::SpawnPlayback
                } else {
                    StartAction::Failed(StartError::CaptureThread)
                }
            },
            StartEvent::PlaybackSpawned(spawned) => {
                if spawned {
                    self.worker = true;
                    StartAction::Started
                } else {
                    StartAction::Failed(StartError::PlaybackThread)
                }
            },
        }
    }

    /// Puts the bridge at rest, with both meters at zero. Its threads, where there are any, have
    /// ended before.
    pub fn stop(&mut self)
        ensures
            !final(self).running(),
            !final(self).worker,
            final(self).meters.input_level().bits == 0,
            final(self).meters.output_level().bits == 0,
    {
        self.worker = false;
        self.meters.reset();
    }
}

/// A bridge at rest runs after a start exactly if both threads could be spawned; otherwise the
/// first thread that could not is the error, and it stays at rest.
pub proof fn law_start_needs_both_threads(capture: bool, playback: bool)
    ensures
        start_step(false, StartEvent::Requested) == (false, StartAction::SpawnCapture),
        !capture ==> start_step(false, StartEvent::CaptureSpawned(capture)) == (
            false,
            StartAction::Failed(StartError::CaptureThread),
        ),
        capture ==> start_step(false, StartEvent::CaptureSpawned(capture)) == (
            false,
            StartAction::SpawnPlayback,
        ),
        !playback ==> start_step(false, StartEvent::PlaybackSpawned(playback)) == (
            false,
            StartAction::Failed(StartError::PlaybackThread),
        ),
        playback ==> start_step(false, StartEvent::PlaybackSpawned(playback)) == (
            true,
            StartAction::Started,
        ),
{
}

/// What follows an event while the bridge is being started. Only a playback thread that was spawned
/// makes the bridge run, and nothing makes it rest; each action follows one kind of event, and the
/// error names the thread that could not be spawned.
pub proof fn law_start_by_event(running: bool, event: StartEvent)
    ensures
        start_step(running, event).0 <==> running || event == StartEvent::PlaybackSpawned(true),
        start_step(running, event).1 is Started <==> event == StartEvent::PlaybackSpawned(true)
            || event == StartEvent::Requested && running,
        start_step(running, event).1 is SpawnCapture <==> event == StartEvent::Requested
            && !running,
        start_step(running, event).1 is SpawnPlayback <==> event == StartEvent::CaptureSpawned(
            true,
        ),
        start_step(running, event).1 == StartAction::Failed(StartError::CaptureThread) <==> event
            == StartEvent::CaptureSpawned(false),
        start_step(running, event).1 == StartAction::Failed(StartError::PlaybackThread) <==> event
            == StartEvent::PlaybackSpawned(false),
{
}

/// The bridge runs exactly if it did before or the playback thread was spawned at some time in a
/// row of events, whatever else happened among them.
pub proof fn law_bridge_runs_once_playback_was_spawned(running: bool, events: Seq<StartEvent>)
    ensures
        runs_after(running, events) <==> running || exists|i: int|
            0 <= i < events.len() && #[trigger] events[i] == StartEvent::PlaybackSpawned(true),
    decreases events.len(),
{
    if events.len() > 0 {
        let earlier = events.drop_last();
        law_bridge_runs_once_playback_was_spawned(running, earlier);
        if exists|i: int|
            0 <= i < earlier.len() && #[trigger] earlier[i] == StartEvent::PlaybackSpawned(true) {
            let i = choose|i: int|
                0 <= i < earlier.len() && #[trigger] earlier[i] == StartEvent::PlaybackSpawned(
                    true,
                );
            assert(events[i] == earlier[i]);
        }
        if exists|i: int|
            0 <= i < events.len() && #[trigger] events[i] == StartEvent::PlaybackSpawned(true) {
            let i = choose|i: int|
                0 <= i < events.len() && #[trigger] events[i] == StartEvent::PlaybackSpawned(true);
            if i < earlier.len() {
                assert(earlier[i] == events[i]);
            }
        }
        assert(events[events.len() - 1] == events.last());
    }
}

/// Starting a bridge that runs spawns nothing.
pub proof fn law_start_is_idempotent()
    ensures
        start_step(true, StartEvent::Requested) == (true, StartAction::Started),
{
}

} // verus!
