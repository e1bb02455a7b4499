//! The decisions of the device manager: which connected device drives the
//! stroking (oscillate) output and which the vibrate output, when to scan
//! for devices, when to stop scanning, and where the periodic control
//! commands go. The manager performs each command and reports its outcome
//! back as the next event.

use vstd::prelude::*;

verus! {

/// A kind of scalar actuator that a device reports.
#[derive(Clone, Copy, Debug, PartialEq, Eq, Structural)]
pub enum Actuator {
    Oscillate,
    Vibrate,
    Other,
}

/// A connected device: its index on the server and its name.
#[derive(Debug)]
pub struct Device {
    pub index: u32,
    pub name: String,
}

/// What happened since the last step.
#[derive(Debug)]
pub enum DeviceEvent {
    /// An attempt to connect to the server ended.
    ConnectFinished { ok: bool },
    /// A device connected, with the actuator kinds of its scalar commands.
    DeviceAdded { device: Device, actuators: Vec<Actuator> },
    /// The device with this name went away.
    DeviceRemoved { name: String },
    /// The server reports that scanning ended (the scan is no longer
    /// running, so a later scan check may start a new one).
    ScanningFinished,
    /// The periodic scan check is due.
    ScanTick,
    /// The periodic control update is due.
    ControlTick,
    /// A start-scanning request ended.
    ScanStarted { ok: bool },
    /// A stop-scanning request ended.
    ScanStopped { ok: bool },
}

/// What the manager is to do next.
#[derive(Clone, Copy, Debug, PartialEq, Eq, Structural)]
pub enum DeviceCommand {
    Nothing,
    /// Try connecting again after the retry delay.
    RetryConnect,
    StartScanning,
    StopScanning,
    /// Send the latest levels to the devices with these indices.
    SendLevels { oscillate: Option<u32>, vibrate: Option<u32> },
}

/// The device manager's state: the device in each output slot and whether
/// a scan is running.
#[derive(Debug)]
pub struct DeviceController {
    pub oscillate: Option<Device>,
    pub vibrate: Option<Device>,
    pub scanning: bool,
}

/// Both outputs have a device.
pub open spec fn has_both(c: DeviceController) -> bool {
    c.oscillate is Some && c.vibrate is Some
}

/// The slot after the device named `name` went away.
pub open spec fn without_named(slot: Option<Device>, name: String) -> Option<Device> {
    match slot {
        Some(d) => if d.name@ == name@ {
            None
        } else {
            slot
        },
        None => slot,
    }
}

/// The index of the device in a slot, if any.
pub open spec fn slot_index(slot: Option<Device>) -> Option<u32> {
    match slot {
        Some(d) => Some(d.index),
        None => None,
    }
}

/// The state after `event`.
pub open spec fn next_state(c: DeviceController, event: DeviceEvent) -> DeviceController {
    match event {
        DeviceEvent::DeviceAdded { device, actuators } => DeviceController {
            oscillate: if actuators@.contains(Actuator::Oscillate) {
                Some(device)
            } else {
                c.oscillate
            },
            vibrate: if actuators@.contains(Actuator::Vibrate) {
                Some(device)
            } else {
                c.vibrate
            },
            scanning: c.scanning,
        },
        DeviceEvent::DeviceRemoved { name } => DeviceController {
            oscillate: without_named(c.oscillate, name),
            vibrate: without_named(c.vibrate, name),
            scanning: c.scanning,
        },
        DeviceEvent::ScanStarted { ok } => DeviceController { scanning: c.scanning || ok, ..c },
        DeviceEvent::ScanStopped { ok } => DeviceController { scanning: c.scanning && !ok, ..c },
        DeviceEvent::ScanningFinished => DeviceController { scanning: false, ..c },
        _ => c,
    }
}

/// The command that `event` calls for.
pub open spec fn command_for(c: DeviceController, event: DeviceEvent) -> DeviceCommand {
    match event {
        DeviceEvent::ConnectFinished { ok } => if ok {
            DeviceCommand::Nothing
        } else {
            DeviceCommand::RetryConnect
        },
        DeviceEvent::DeviceAdded { .. } => if has_both(next_state(c, event)) && c.scanning {
            DeviceCommand::StopScanning
        } else {
            DeviceCommand::Nothing
        },
        DeviceEvent::ScanTick => if !has_both(c) && !c.scanning {
            DeviceCommand::StartScanning
        } else {
            DeviceCommand::Nothing
        },
        DeviceEvent::ControlTick => DeviceCommand::SendLevels {
            oscillate: slot_index(c.oscillate),
            vibrate: slot_index(c.vibrate),
        },
        _ => DeviceCommand::Nothing,
    }
}

proof fn lemma_contains_push(s: Seq<Actuator>, x: Actuator, y: Actuator)
    ensures
        s.push(x).contains(y) <==> (s.contains(y) || x == y),
{
    if s.push(x).contains(y) {
        let j = choose|j: int| 0 <= j < s.push(x).len() && s.push(x)[j] == y;
        if j < s.len() {
            assert(s[j] == y);
        }
    }
    if s.contains(y) {
        let j = choose|j: int| 0 <= j < s.len() && s[j] == y;
        assert(s.push(x)[j] == y);
    }
    if x == y {
        assert(s.push(x)[s.len() as int] == y);
    }
}

/// Law: a control update changes nothing and addresses exactly the devices
/// that fill the slots.
pub proof fn lemma_control_tick(c: DeviceController)
    ensures
        next_state(c, DeviceEvent::ControlTick) == c,
        command_for(c, DeviceEvent::ControlTick) == (DeviceCommand::SendLevels {
            oscillate: slot_index(c.oscillate),
            vibrate: slot_index(c.vibrate),
        }),
{
}

/// Law: after a device goes away, no slot holds a device of that name, a
/// slot holding a device of another name keeps it, and scanning is as it was.
pub proof fn lemma_removed_device_is_gone(c: DeviceController, name: String)
    ensures
        ({
            let n = next_state(c, DeviceEvent::DeviceRemoved { name });
            &&& !(n.oscillate is Some && n.oscillate->0.name@ == name@)
            &&& !(n.vibrate is Some && n.vibrate->0.name@ == name@)
            &&& (c.oscillate is Some && c.oscillate->0.name@ != name@) ==> n.oscillate == c.oscillate
            &&& (c.vibrate is Some && c.vibrate->0.name@ != name@) ==> n.vibrate == c.vibrate
            &&& n.scanning == c.scanning
        }),
        command_for(c, DeviceEvent::DeviceRemoved { name }) == DeviceCommand::Nothing,
{
}

/// Law: scanning is told to stop only while a scan runs and once both
/// outputs have a device.
pub proof fn lemma_stop_only_when_complete(c: DeviceController, event: DeviceEvent)
    requires
        command_for(c, event) == DeviceCommand::StopScanning,
    ensures
        c.scanning,
        has_both(next_state(c, event)),
{
}

/// Law: a scan is started only while an output lacks a device and no scan
/// runs, and deciding so changes nothing.
pub proof fn lemma_start_only_when_incomplete(c: DeviceController, event: DeviceEvent)
    requires
        command_for(c, event) == DeviceCommand::StartScanning,
    ensures
        !has_both(c),
        !c.scanning,
        next_state(c, event) == c,
{
}

/// Law: the scanning flag changes only when a scan starts or ends: a
/// successful start turns it on; a successful stop, or the server reporting
/// that scanning finished, turns it off.
pub proof fn lemma_scanning_changes_only_on_outcomes(c: DeviceController, event: DeviceEvent)
    ensures
        next_state(c, event).scanning != c.scanning ==> {
            ||| (event matches DeviceEvent::ScanStarted { ok } && ok && !c.scanning && next_state(
                c,
                event,
            ).scanning)
            ||| (event matches DeviceEvent::ScanStopped { ok } && ok && c.scanning && !next_state(
                c,
                event,
            ).scanning)
            ||| (event is ScanningFinished && c.scanning && !next_state(c, event).scanning)
        },
{
}

/// Law: scanning is kept active until both outputs have a device: after the
/// server ends a scan while an output lacks a device, the next scan check
/// starts a new scan.
pub proof fn lemma_scan_restarts_after_it_finishes(c: DeviceController)
    requires
        !has_both(c),
    ensures
        command_for(next_state(c, DeviceEvent::ScanningFinished), DeviceEvent::ScanTick)
            == DeviceCommand::StartScanning,
{
}

/// Law: with both outputs filled and no scan running, a scan check asks for
/// nothing.
pub proof fn lemma_complete_controller_stays_idle(c: DeviceController)
    requires
        has_both(c),
        !c.scanning,
    ensures
        command_for(c, DeviceEvent::ScanTick) == DeviceCommand::Nothing,
        next_state(c, DeviceEvent::ScanTick) == c,
{
}

/// Law: a device that reports a kind of actuator takes that slot, and a
/// device that reports neither kind changes nothing.
pub proof fn lemma_added_device_slots(c: DeviceController, device: Device, actuators: Vec<Actuator>)
    ensures
        ({
            let n = next_state(c, DeviceEvent::DeviceAdded { device, actuators });
            &&& actuators@.contains(Actuator::Oscillate) ==> n.oscillate == Some(device)
            &&& actuators@.contains(Actuator::Vibrate) ==> n.vibrate == Some(device)
            &&& !actuators@.contains(Actuator::Oscillate) ==> n.oscillate == c.oscillate
            &&& !actuators@.contains(Actuator::Vibrate) ==> n.vibrate == c.vibrate
            &&& n.scanning == c.scanning
        }),
{
}

/// Law: adding a device and then removing it by its name leaves no slot
/// holding that name.
pub proof fn lemma_add_then_remove(c: DeviceController, device: Device, actuators: Vec<Actuator>)
    ensures
        ({
            let name = device.name;
            let n = next_state(
                next_state(c, DeviceEvent::DeviceAdded { device, actuators }),
                DeviceEvent::DeviceRemoved { name },
            );
            &&& !(n.oscillate is Some && n.oscillate->0.name@ == name@)
            &&& !(n.vibrate is Some && n.vibrate->0.name@ == name@)
        }),
{
}

/// Law: the command each event calls for, in terms of the state before it:
/// a new device leads to stopping the scan exactly when a scan runs and,
/// counting the device's own actuators, both outputs then have a device; a
/// scan check starts a scan exactly when no scan runs and an output lacks a
/// device; a control update goes to the devices in the two slots; a failed
/// connection, and only that, is retried; every other event asks for
/// nothing.
pub proof fn lemma_commands(c: DeviceController, event: DeviceEvent)
    ensures
        event matches DeviceEvent::DeviceAdded { device, actuators } ==> (command_for(c, event)
            == DeviceCommand::StopScanning <==> c.scanning && (c.oscillate is Some
            || actuators@.contains(Actuator::Oscillate)) && (c.vibrate is Some
            || actuators@.contains(Actuator::Vibrate))),
        event matches DeviceEvent::DeviceAdded { device, actuators } ==> (command_for(c, event)
            == DeviceCommand::StopScanning || command_for(c, event) == DeviceCommand::Nothing),
        event is ScanTick ==> (command_for(c, event) == DeviceCommand::StartScanning <==> !c.scanning
            && (c.oscillate is None || c.vibrate is None)),
        event is ScanTick ==> (command_for(c, event) == DeviceCommand::StartScanning || command_for(
            c,
            event,
        ) == DeviceCommand::Nothing),
        event is ControlTick ==> command_for(c, event) == (DeviceCommand::SendLevels {
            oscillate: match c.oscillate {
                Some(d) => Some(d.index),
                None => None,
            },
            vibrate: match c.vibrate {
                Some(d) => Some(d.index),
                None => None,
            },
        }),
        event matches DeviceEvent::ConnectFinished { ok } ==> command_for(c, event) == if ok {
            DeviceCommand::Nothing
        } else {
            DeviceCommand::RetryConnect
        },
        (event is DeviceRemoved || event is ScanningFinished || event is ScanStarted
            || event is ScanStopped) ==> command_for(c, event) == DeviceCommand::Nothing,
{
}

/// Law: how the events other than a device coming or going change the state:
/// a finished start request sets the scanning flag if it succeeded, a
/// finished stop request clears it if it succeeded, the end of a scan clears
/// it, and connection results and periodic checks change nothing; none of
/// them touches the device slots.
pub proof fn lemma_state_changes(c: DeviceController, event: DeviceEvent)
    ensures
        !(event is DeviceAdded || event is DeviceRemoved) ==> next_state(c, event).oscillate
            == c.oscillate && next_state(c, event).vibrate == c.vibrate,
        event matches DeviceEvent::ScanStarted { ok } ==> next_state(c, event).scanning == (
        c.scanning || ok),
        event matches DeviceEvent::ScanStopped { ok } ==> next_state(c, event).scanning == (
        c.scanning && !ok),
        event is ScanningFinished ==> !next_state(c, event).scanning,
        (event is ConnectFinished || event is ScanTick || event is ControlTick) ==> next_state(
            c,
            event,
        ) == c,
{
}

fn copy_device(d: &Device) -> (copy: Device)
    ensures
        copy == *d,
{
    Device { index: d.index, name: d.name.clone() }
}

fn named(slot: &Option<Device>, name: &String) -> (r: bool)
    ensures
        r == (slot is Some && slot->0.name@ == name@),
{
    match slot {
        Some(d) => d.name == *name,
        None => false,
    }
}

impl DeviceController {
    /// No devices, not scanning.
    pub fn new() -> (c: DeviceController)
        ensures
            c.oscillate is None,
            c.vibrate is None,
            !c.scanning,
    {
        DeviceController { oscillate: None, vibrate: None, scanning: false }
    }

    /// Both outputs have a device.
    pub fn has_both(&self) -> (r: bool)
        ensures
            r == has_both(*self),
    {
        self.oscillate.is_some() && self.vibrate.is_some()
    }

    /// Takes in one event and returns the command it calls for.
    pub fn step(&mut self, event: DeviceEvent) -> (command: DeviceCommand)
        ensures
            *final(self) == next_state(*old(self), event),
            command == command_for(*old(self), event),
    {
        let ghost e = event;
        match event {
            DeviceEvent::ConnectFinished { ok } => {
                if ok {
                    DeviceCommand::Nothing
                } else {
                    DeviceCommand::RetryConnect
                }
            },
            DeviceEvent::DeviceAdded { device, actuators } => {
                let mut oscillates = false;
                let mut vibrates = false;
                let mut k: usize = 0;
                assert(actuators@.take(0) =~= Seq::<Actuator>::empty());
                while k < actuators.len()
                    invariant
                        k <= actuators.len(),
                        oscillates == actuators@.take(k as int).contains(Actuator::Oscillate),
                        vibrates == actuators@.take(k as int).contains(Actuator::Vibrate),
                    decreases actuators.len() - k,
                {
                    proof {
                        assert(actuators@.take(k + 1) =~= actuators@.take(k as int).push(actuators@[k as int]));
                        lemma_contains_push(actuators@.take(k as int), actuators@[k as int], Actuator::Oscillate);
                        lemma_contains_push(actuators@.take(k as int), actuators@[k as int], Actuator::Vibrate);
                    }
                    match actuators[k] {
                        Actuator::Oscillate => {
                            oscillates = true;
                        },
                        Actuator::Vibrate => {
                            vibrates = true;
                        },
                        Actuator::Other => {},
                    }
                    k += 1;
                }
                assert(actuators@.take(actuators.len() as int) =~= actuators@);
                if oscillates && vibrates {
                    self.oscillate = Some(copy_device(&device));
                    self.vibrate = Some(device);
                } else if oscillates {
                    self.oscillate = Some(device);
                } else if vibrates {
                    self.vibrate = Some(device);
                }
                if self.has_both() && self.scanning {
                    DeviceCommand::StopScanning
                } else {
                    DeviceCommand::Nothing
                }
            },
            DeviceEvent::DeviceRemoved { name } => {
                if named(&self.oscillate, &name) {
                    self.oscillate = None;
                }
                if named(&self.vibrate, &name) {
                    self.vibrate = None;
                }
                DeviceCommand::Nothing
            },
            DeviceEvent::ScanningFinished => {
                self.scanning = false;
                DeviceCommand::Nothing
            },
            DeviceEvent::ScanTick => {
                if !self.has_both() && !self.scanning {
                    DeviceCommand::StartScanning
                } else {
                    DeviceCommand::Nothing
                }
            },
            DeviceEvent::ControlTick => {
                let oscillate = match &self.oscillate {
                    Some(d) => Some(d.index),
                    None => None,
                };
                let vibrate = match &self.vibrate {
                    Some(d) => Some(d.index),
                    None => None,
                };
                DeviceCommand::SendLevels { oscillate, vibrate }
            },
            DeviceEvent::ScanStarted { ok } => {
                if ok {
                    self.scanning = true;
                }
                DeviceCommand::Nothing
            },
            DeviceEvent::ScanStopped { ok } => {
                if ok {
                    self.scanning = false;
                }
                DeviceCommand::Nothing
            },
        }
    }
}

} // verus!
