use meetily_speaker::devices::{device_step, settle_device, DeviceStep};

#[test]
fn test_bluetooth_override_logic() {}

#[test]
fn bluetooth_default_looks_for_builtin_unless_kept() {
    assert!(matches!(device_step(Some("AirPods"), true, false), DeviceStep::FindBuiltin("AirPods")));
    assert!(matches!(device_step(Some("AirPods"), true, true), DeviceStep::Use("AirPods")));
    assert!(matches!(device_step(Some("MacBook Mic"), false, false), DeviceStep::Use("MacBook Mic")));
    assert!(matches!(device_step::<&str>(None, true, false), DeviceStep::NoDevice));
}

#[test]
fn builtin_replaces_bluetooth_when_found() {
    assert_eq!(settle_device("AirPods", Some("MacBook Mic")), "MacBook Mic");
    assert_eq!(settle_device("AirPods", None), "AirPods");
}
