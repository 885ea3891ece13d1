use devctrl::registry::{Device, DeviceRegistry};

fn dev(uuid: u128, last_alive: i64, dev_type: &str) -> Device {
    Device { uuid, last_alive, dev_type: dev_type.to_string() }
}

#[test]
fn register_then_lookup() {
    let mut reg = DeviceRegistry::new();
    assert!(reg.add_dev(dev(7, 100, "sensor1"), 100).is_ok());
    let d = reg.get_dev(7, 105).expect("registered device is live");
    assert_eq!(d.uuid, 7);
    assert_eq!(d.last_alive, 100);
    assert_eq!(d.dev_type, "sensor1");
}

#[test]
fn duplicate_register_fails_within_timeout() {
    let mut reg = DeviceRegistry::new();
    assert!(reg.add_dev(dev(7, 100, "sensor1"), 100).is_ok());
    // second registration with the same id, 9 s later: still live
    assert!(reg.add_dev(dev(7, 109, "sensor1"), 109).is_err());
    // a different id is fine
    assert!(reg.add_dev(dev(8, 109, "sensor1"), 109).is_ok());
}

#[test]
fn expired_record_behaves_absent() {
    let mut reg = DeviceRegistry::new();
    assert!(reg.add_dev(dev(7, 100, "sensor1"), 100).is_ok());
    // exactly at the timeout the record is expired
    assert!(reg.get_dev(7, 110).is_err());
    assert!(reg.update_dev(7, 111, 110).is_err());
    // just before the timeout it is still live
    let mut reg2 = DeviceRegistry::new();
    assert!(reg2.add_dev(dev(7, 100, "sensor1"), 100).is_ok());
    assert!(reg2.get_dev(7, 109).is_ok());
}

#[test]
fn register_over_expired_record_succeeds() {
    let mut reg = DeviceRegistry::new();
    assert!(reg.add_dev(dev(7, 100, "old"), 100).is_ok());
    assert!(reg.add_dev(dev(7, 120, "new"), 120).is_ok());
    let d = reg.get_dev(7, 121).expect("re-registered device is live");
    assert_eq!(d.dev_type, "new");
    assert_eq!(d.last_alive, 120);
}

#[test]
fn never_registered_is_not_found_and_not_created() {
    let mut reg = DeviceRegistry::new();
    assert!(reg.get_dev(7, 100).is_err());
    assert!(reg.update_dev(7, 100, 100).is_err());
    // the failed calls did not create a record
    assert!(reg.get_dev(7, 100).is_err());
}

#[test]
fn touch_overwrites_last_alive_only() {
    let mut reg = DeviceRegistry::new();
    assert!(reg.add_dev(dev(7, 100, "sensor1"), 100).is_ok());
    assert!(reg.update_dev(7, 104, 104).is_ok());
    let d = reg.get_dev(7, 104).expect("touched device is live");
    assert_eq!(d.last_alive, 104);
    assert_eq!(d.dev_type, "sensor1");
    // a touch with a client-declared time keeps the device alive longer
    assert!(reg.get_dev(7, 113).is_ok());
}
