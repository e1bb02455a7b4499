use funscript_control::device_control::{
    Actuator, Device, DeviceCommand, DeviceController, DeviceEvent,
};

fn device(index: u32, name: &str) -> Device {
    Device { index, name: name.to_string() }
}

fn slot_names(c: &DeviceController) -> (Option<String>, Option<String>) {
    (
        c.oscillate.as_ref().map(|d| d.name.clone()),
        c.vibrate.as_ref().map(|d| d.name.clone()),
    )
}

#[test]
fn scanning_runs_until_both_devices_are_there() {
    let mut c = DeviceController::new();
    assert_eq!(c.step(DeviceEvent::ScanTick), DeviceCommand::StartScanning);
    assert_eq!(c.step(DeviceEvent::ScanStarted { ok: true }), DeviceCommand::Nothing);
    assert!(c.scanning);
    assert_eq!(c.step(DeviceEvent::ScanTick), DeviceCommand::Nothing);
    let cmd = c.step(DeviceEvent::DeviceAdded {
        device: device(1, "Stroker"),
        actuators: vec![Actuator::Oscillate],
    });
    assert_eq!(cmd, DeviceCommand::Nothing);
    let cmd = c.step(DeviceEvent::DeviceAdded {
        device: device(2, "Egg"),
        actuators: vec![Actuator::Other, Actuator::Vibrate],
    });
    assert_eq!(cmd, DeviceCommand::StopScanning);
    assert!(c.scanning);
    c.step(DeviceEvent::ScanStopped { ok: true });
    assert!(!c.scanning);
    assert_eq!(c.step(DeviceEvent::ScanTick), DeviceCommand::Nothing);
    assert_eq!(
        c.step(DeviceEvent::ControlTick),
        DeviceCommand::SendLevels { oscillate: Some(1), vibrate: Some(2) }
    );
}

#[test]
fn failed_scan_requests_keep_the_flag() {
    let mut c = DeviceController::new();
    assert_eq!(c.step(DeviceEvent::ScanTick), DeviceCommand::StartScanning);
    c.step(DeviceEvent::ScanStarted { ok: false });
    assert!(!c.scanning);
    assert_eq!(c.step(DeviceEvent::ScanTick), DeviceCommand::StartScanning);
    c.step(DeviceEvent::ScanStarted { ok: true });
    c.step(DeviceEvent::DeviceAdded {
        device: device(3, "Both"),
        actuators: vec![Actuator::Oscillate, Actuator::Vibrate],
    });
    c.step(DeviceEvent::ScanStopped { ok: false });
    assert!(c.scanning);
}

#[test]
fn removal_clears_the_slots_of_that_name() {
    let mut c = DeviceController::new();
    c.step(DeviceEvent::DeviceAdded {
        device: device(3, "Both"),
        actuators: vec![Actuator::Oscillate, Actuator::Vibrate],
    });
    assert_eq!(slot_names(&c), (Some("Both".to_string()), Some("Both".to_string())));
    c.step(DeviceEvent::DeviceRemoved { name: "Other".to_string() });
    assert_eq!(slot_names(&c), (Some("Both".to_string()), Some("Both".to_string())));
    c.step(DeviceEvent::DeviceRemoved { name: "Both".to_string() });
    assert_eq!(slot_names(&c), (None, None));
    assert_eq!(
        c.step(DeviceEvent::ControlTick),
        DeviceCommand::SendLevels { oscillate: None, vibrate: None }
    );
    assert_eq!(c.step(DeviceEvent::ScanTick), DeviceCommand::StartScanning);
}

#[test]
fn devices_without_scalar_outputs_change_nothing() {
    let mut c = DeviceController::new();
    let cmd = c.step(DeviceEvent::DeviceAdded {
        device: device(4, "Light"),
        actuators: vec![Actuator::Other],
    });
    assert_eq!(cmd, DeviceCommand::Nothing);
    assert_eq!(slot_names(&c), (None, None));
}

#[test]
fn failed_connection_is_retried() {
    let mut c = DeviceController::new();
    assert_eq!(c.step(DeviceEvent::ConnectFinished { ok: false }), DeviceCommand::RetryConnect);
    assert_eq!(c.step(DeviceEvent::ConnectFinished { ok: true }), DeviceCommand::Nothing);
}

#[test]
fn scanning_restarts_after_the_server_ends_it() {
    let mut c = DeviceController::new();
    assert_eq!(c.step(DeviceEvent::ScanTick), DeviceCommand::StartScanning);
    c.step(DeviceEvent::ScanStarted { ok: true });
    c.step(DeviceEvent::DeviceAdded {
        device: device(1, "Stroker"),
        actuators: vec![Actuator::Oscillate],
    });
    assert_eq!(c.step(DeviceEvent::ScanTick), DeviceCommand::Nothing);
    assert_eq!(c.step(DeviceEvent::ScanningFinished), DeviceCommand::Nothing);
    assert!(!c.scanning);
    assert_eq!(c.step(DeviceEvent::ScanTick), DeviceCommand::StartScanning);
}
