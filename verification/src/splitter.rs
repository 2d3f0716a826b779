//! The state behind the window: the devices, the choice among them, the bridge and its histories.

use crate::bridge::AudioBridge;
use crate::bridge::StartError;
use crate::devices;
use crate::meters::{self, HISTORY_LEN};
use crate::single::{self, Single};
use std::collections::VecDeque;
use vstd::prelude::*;
use vstd::string::StringExecFns;

verus! {

/// The window's state.
pub struct SplitterApp {
    pub bridge: AudioBridge,
    pub source_name: String,
    pub devices: Vec<String>,
    pub selected: usize,
    pub status: String,
    pub input_history: VecDeque<Single>,
    pub output_history: VecDeque<Single>,
}

/// What a press of the start/stop button asks for.
pub enum ToggleAction {
    /// End the threads of the bridge, then report with [`SplitterApp::stopped`].
    Stop,
    /// Start the bridge towards this device, then report with [`SplitterApp::started`].
    Start(String),
    /// Nothing: there is no device.
    Nothing,
}

/// A history in which nothing was heard yet.
pub open spec fn quiet_history() -> Seq<Single> {
    Seq::new(HISTORY_LEN as nat, |i: int| Single { bits: 0 })
}

/// The name of the source, where it could not be read a stand-in.
pub open spec fn source_text(default_name: Option<String>) -> Seq<char> {
    match default_name {
        Some(name) => name@,
        None => "Default Speaker"@,
    }
}

/// The name of the source, where it could not be read a stand-in.
fn source_or_default(default_name: Option<String>) -> (result: String)
    ensures
        result@ == source_text(default_name),
{
    match default_name {
        Some(name) => name,
        None => "Default Speaker".to_owned(),
    }
}

/// A history in which nothing was heard yet.
fn new_history() -> (result: VecDeque<Single>)
    ensures
        result@ == quiet_history(),
{
    let mut history: VecDeque<Single> = VecDeque::new();
    while history.len() < HISTORY_LEN
        invariant
            history@.len() <= HISTORY_LEN,
            history@ == quiet_history().take(history@.len() as int),
        decreases HISTORY_LEN - history@.len(),
    {
        history.push_back(Single::zero());
        assert(history@ =~= quiet_history().take(history@.len() as int));
    }
    assert(history@ =~= quiet_history());
    history
}

impl SplitterApp {
    /// The choice is a device that exists, or the first place; the histories are full.
    pub open spec fn well_formed(&self) -> bool {
        &&& self.selected == 0 || self.selected < self.devices@.len()
        &&& self.input_history@.len() == HISTORY_LEN
        &&& self.output_history@.len() == HISTORY_LEN
    }

    /// The state is well formed, the devices are listed in order, and the histories hold nothing
    /// but numbers between zero and one.
    pub open spec fn is_sound(&self) -> bool {
        &&& self.well_formed()
        &&& devices::is_sorted(devices::texts(self.devices@))
        &&& meters::all_in_unit_range(self.input_history@)
        &&& meters::all_in_unit_range(self.output_history@)
    }

    /// The name of the chosen device; nothing where there is none.
    pub open spec fn target(&self) -> Seq<char> {
        if self.selected < self.devices@.len() {
            self.devices@[self.selected as int]@
        } else {
            Seq::empty()
        }
    }

    /// The state at first, given the devices and the name of the default one as far as they could
    /// be read.
    pub fn new(listed: Option<Vec<String>>, default_name: Option<String>) -> (result: SplitterApp)
        ensures
            result.well_formed(),
            !result.bridge.running(),
            result.bridge.meters.input_level().bits == 0,
            result.bridge.meters.output_level().bits == 0,
            result.source_name@ == source_text(default_name),
            default_name matches Some(name) ==> result.source_name@ == name@,
            default_name is None ==> result.source_name@ == "Default Speaker"@,
            match listed {
                Some(devices) => result.devices == devices,
                None => result.devices@.len() == 0,
            },
            devices::is_preferred_device(
                devices::texts(result.devices@),
                result.selected as int,
            ),
            result.status@ == "idle"@,
            result.input_history@ == quiet_history(),
            result.output_history@ == quiet_history(),
            result.input_history@.len() == 180,
            result.output_history@.len() == 180,
            forall|i: int| 0 <= i < 180 ==> (#[trigger] result.input_history@[i]).bits == 0,
            forall|i: int| 0 <= i < 180 ==> (#[trigger] result.output_history@[i]).bits == 0,
            (listed matches Some(devices) ==> devices::is_sorted(devices::texts(devices@)))
                ==> result.is_sound(),
    {
        proof {
            single::lemma_units_landmarks();
        }
        let devices: Vec<String> = match listed {
            Some(devices) => devices,
            None => Vec::new(),
        };
        let selected: usize = devices::preferred_device(&devices);
        SplitterApp {
            bridge: AudioBridge::new(),
            source_name: source_or_default(default_name),
            devices,
            selected,
            status: "idle".to_owned(),
            input_history: new_history(),
            output_history: new_history(),
        }
    }

    /// The name of the chosen device; empty where there is none.
    pub fn selected_name(&self) -> (result: String)
        ensures
            result@ == self.target(),
            self.selected < self.devices@.len() ==> result@ == self.devices@[self.selected as int]@,
            self.selected >= self.devices@.len() ==> result@.len() == 0,
    {
        if self.selected < self.devices.len() {
            self.devices[self.selected].clone()
        } else {
            String::new()
        }
    }

    /// What the device box shows.
    pub fn selected_text(&self) -> (result: String)
        ensures
            result@ == if self.selected < self.devices@.len() {
                self.target()
            } else {
                "<no device>"@
            },
            self.selected < self.devices@.len() ==> result@ == self.devices@[self.selected as int]@,
            self.selected >= self.devices@.len() ==> result@ == "<no device>"@,
    {
        if self.selected < self.devices.len() {
            self.devices[self.selected].clone()
        } else {
            "<no device>".to_owned()
        }
    }

    /// What the start/stop button says.
    pub fn toggle_label(&self) -> (result: &'static str)
        ensures
            result@ == if self.bridge.running() {
                "Stop"@
            } else {
                "Start"@
            },
            self.bridge.worker ==> result@ == "Stop"@,
            !self.bridge.worker ==> result@ == "Start"@,
    {
        if self.bridge.is_running() {
            "Stop"
        } else {
            "Start"
        }
    }

    /// Chooses a device of the list.
    pub fn select(&mut self, index: usize)
        requires
            index < old(self).devices@.len(),
        ensures
            final(self).selected == index,
            final(self).devices == old(self).devices,
            final(self).bridge == old(self).bridge,
            final(self).source_name == old(self).source_name,
            final(self).status == old(self).status,
            final(self).input_history == old(self).input_history,
            final(self).output_history == old(self).output_history,
            old(self).well_formed() ==> final(self).well_formed(),
            old(self).is_sound() ==> final(self).is_sound(),
    {
        self.selected = index;
    }

    /// Takes in a new list of devices and the name of the default one, or the reason why there is
    /// no list. The choice stays where it was, or goes to the first place where the list has
    /// become too short.
    pub fn refresh_devices(
        &mut self,
        listed: Result<Vec<String>, String>,
        default_name: Option<String>,
    )
        ensures
            match listed {
                Ok(devices) => {
                    &&& final(self).devices == devices
                    &&& final(self).selected == if old(self).selected >= devices@.len() {
                        0
                    } else {
                        old(self).selected
                    }
                    &&& final(self).source_name@ == source_text(default_name)
                    &&& default_name matches Some(name) ==> final(self).source_name@ == name@
                    &&& default_name is None ==> final(self).source_name@ == "Default Speaker"@
                    &&& final(self).status@ == "device list refreshed"@
                },
                Err(reason) => {
                    &&& final(self).devices == old(self).devices
                    &&& final(self).selected == old(self).selected
                    &&& final(self).source_name == old(self).source_name
                    &&& final(self).status@ == "refresh failed: "@ + reason@
                },
            },
            final(self).bridge == old(self).bridge,
            final(self).input_history == old(self).input_history,
            final(self).output_history == old(self).output_history,
            old(self).well_formed() ==> final(self).well_formed(),
            old(self).is_sound() && (listed matches Ok(devices) ==> devices::is_sorted(
                devices::texts(devices@),
            )) ==> final(self).is_sound(),
    {
        match listed {
            Ok(devices) => {
                self.devices = devices;
                if self.selected >= self.devices.len() {
                    self.selected = 0;
                }
                self.source_name = source_or_default(default_name);
                self.status = "device list refreshed".to_owned();
            },
            Err(reason) => {
                self.status = "refresh failed: ".to_owned().concat(reason.as_str());
            },
        }
    }

    /// The start/stop button was pressed: names what is to be done, and says so where nothing
    /// can be.
    pub fn toggle(&mut self) -> (action: ToggleAction)
        ensures
            match action {
                ToggleAction::Stop => old(self).bridge.running(),
                ToggleAction::Start(target) => {
                    &&& !old(self).bridge.running()
                    &&& target@ == old(self).target()
                    &&& target@.len() > 0
                },
                ToggleAction::Nothing => {
                    &&& !old(self).bridge.running()
                    &&& old(self).target().len() == 0
                },
            },
            action is Stop <==> old(self).bridge.worker,
            action is Start <==> !old(self).bridge.worker && old(self).selected < old(
                self,
            ).devices@.len() && old(self).devices@[old(self).selected as int]@.len() > 0,
            action matches ToggleAction::Start(target) ==> target@ == old(self).devices@[old(
                self,
            ).selected as int]@,
            final(self).status@ == if action is Nothing {
                "no render device found; enable a virtual cable first"@
            } else {
                old(self).status@
            },
            final(self).bridge == old(self).bridge,
            final(self).source_name == old(self).source_name,
            final(self).devices == old(self).devices,
            final(self).selected == old(self).selected,
            final(self).input_history == old(self).input_history,
            final(self).output_history == old(self).output_history,
            old(self).well_formed() ==> final(self).well_formed(),
            old(self).is_sound() ==> final(self).is_sound(),
    {
        if self.bridge.is_running() {
            return ToggleAction::Stop;
        }
        let target: String = self.selected_name();
        if target.as_str().is_empty() {
            self.status = "no render device found; enable a virtual cable first".to_owned();
            return ToggleAction::Nothing;
        }
        ToggleAction::Start(target)
    }

    /// The threads of the bridge have ended: the bridge is at rest.
    pub fn stopped(&mut self)
        ensures
            !final(self).bridge.running(),
            final(self).bridge.meters.input_level().bits == 0,
            final(self).bridge.meters.output_level().bits == 0,
            final(self).status@ == "stopped"@,
            final(self).source_name == old(self).source_name,
            final(self).devices == old(self).devices,
            final(self).selected == old(self).selected,
            final(self).input_history == old(self).input_history,
            final(self).output_history == old(self).output_history,
            old(self).well_formed() ==> final(self).well_formed(),
            old(self).is_sound() ==> final(self).is_sound(),
    {
        self.bridge.stop();
        self.status = "stopped".to_owned();
    }

    /// The bridge was started towards `target`, or could not be.
    pub fn started(&mut self, target: &str, outcome: Result<(), StartError>)
        ensures
            final(self).status@ == match outcome {
                Ok(_) => "running: speaker loopback -> "@ + target@,
                Err(error) => "start failed: "@ + error.text(),
            },
            outcome == Err::<(), StartError>(StartError::CaptureThread) ==> final(self).status@
                == "start failed: "@ + "failed to start capture thread"@,
            outcome == Err::<(), StartError>(StartError::PlaybackThread) ==> final(self).status@
                == "start failed: "@ + "failed to start playback thread"@,
            final(self).bridge == old(self).bridge,
            final(self).source_name == old(self).source_name,
            final(self).devices == old(self).devices,
            final(self).selected == old(self).selected,
            final(self).input_history == old(self).input_history,
            final(self).output_history == old(self).output_history,
            old(self).well_formed() ==> final(self).well_formed(),
            old(self).is_sound() ==> final(self).is_sound(),
    {
        match outcome {
            Ok(_) => {
                self.status = "running: speaker loopback -> ".to_owned().concat(target);
            },
            Err(error) => {
                self.status = "start failed: ".to_owned().concat(error.message().as_str());
            },
        }
    }

    /// Adds the current levels to the histories, and gives them back: the input's, then the
    /// output's.
    pub fn update_histories(&mut self) -> (levels: (Single, Single))
        ensures
            levels == (
                old(self).bridge.meters.input_level(),
                old(self).bridge.meters.output_level(),
            ),
            meters::in_range(levels.0),
            meters::in_range(levels.1),
            final(self).input_history@ == meters::pushed(old(self).input_history@, levels.0),
            final(self).output_history@ == meters::pushed(old(self).output_history@, levels.1),
            old(self).input_history@.len() == 180 ==> final(self).input_history@ == old(
                self,
            ).input_history@.drop_first().push(levels.0),
            old(self).output_history@.len() == 180 ==> final(self).output_history@ == old(
                self,
            ).output_history@.drop_first().push(levels.1),
            old(self).well_formed() ==> {
                &&& final(self).input_history@ == old(self).input_history@.drop_first().push(
                    levels.0,
                )
                &&& final(self).output_history@ == old(self).output_history@.drop_first().push(
                    levels.1,
                )
            },
            final(self).bridge == old(self).bridge,
            final(self).source_name == old(self).source_name,
            final(self).devices == old(self).devices,
            final(self).selected == old(self).selected,
            final(self).status == old(self).status,
            old(self).well_formed() ==> final(self).well_formed(),
            old(self).is_sound() && !levels.0.is_nan() && !levels.1.is_nan()
                ==> final(self).is_sound(),
    {
        let (input, output) = self.bridge.levels();
        proof {
            if self.is_sound() && !input.is_nan() && !output.is_nan() {
                meters::law_history_stays_in_range(self.input_history@, input);
                meters::law_history_stays_in_range(self.output_history@, output);
            }
        }
        meters::push_level(&mut self.input_history, input);
        meters::push_level(&mut self.output_history, output);
        (input, output)
    }
}

} // verus!
