use devctrl::codec::{Request, RequestData, Response, ResponseData};
use devctrl::protocol::{handle_line, handle_request, ConnState};
use devctrl::registry::DeviceRegistry;

const U: &str = "550e8400-e29b-41d4-a716-446655440000";
const DEFAULT_INTERVAL: u64 = 500;

fn req(uuid: &str, rtc: Option<i64>, data: RequestData) -> Request {
    Request { uuid: uuid.to_string(), rtc_unix: rtc, data }
}

fn startup(uuid: &str, rtc: Option<i64>) -> Request {
    req(uuid, rtc, RequestData::Startup { dev_type: "sensor1".to_string() })
}

fn keepalive(uuid: &str, rtc: Option<i64>) -> Request {
    req(uuid, rtc, RequestData::KeepAlive)
}

fn transmit(uuid: &str, rtc: Option<i64>, channel: &str, data: &[&str]) -> Request {
    req(
        uuid,
        rtc,
        RequestData::Transmit {
            channel: channel.to_string(),
            data: data.iter().map(|s| s.to_string()).collect(),
        },
    )
}

fn err_value(resp: &Response) -> &str {
    match &resp.data {
        ResponseData::Failure { value } => value,
        _ => panic!("expected a failure response"),
    }
}

#[test]
fn startup_keepalive_expiry_scenario() {
    let mut reg = DeviceRegistry::new();
    let mut conn = ConnState { last_implicit: 1000 };

    // Startup -> Configure with the configured default, success
    let (resp, cmd) = handle_request(&mut reg, &mut conn, &startup(U, Some(1000)), 1000, DEFAULT_INTERVAL);
    assert!(resp.success);
    assert_eq!(resp.rtc_unix, 1000);
    assert!(cmd.is_none());
    match resp.data {
        ResponseData::Configure { sensor_interval } => assert_eq!(sensor_interval, DEFAULT_INTERVAL),
        _ => panic!("expected Configure"),
    }

    // KeepAlive before the timeout -> KeepAliveConfirm, success
    let (resp, _) = handle_request(&mut reg, &mut conn, &keepalive(U, Some(1005)), 1005, DEFAULT_INTERVAL);
    assert!(resp.success);
    assert!(matches!(resp.data, ResponseData::KeepAliveConfirm));

    // after the timeout elapses with no signal, KeepAlive -> Err
    let (resp, _) = handle_request(&mut reg, &mut conn, &keepalive(U, Some(1020)), 1020, DEFAULT_INTERVAL);
    assert!(!resp.success);
    assert_eq!(err_value(&resp), "device not found");
}

#[test]
fn duplicate_startup_is_rejected() {
    let mut reg = DeviceRegistry::new();
    let mut conn = ConnState { last_implicit: 0 };
    let (first, _) = handle_request(&mut reg, &mut conn, &startup(U, Some(100)), 100, DEFAULT_INTERVAL);
    assert!(first.success);
    let (second, _) = handle_request(&mut reg, &mut conn, &startup(U, Some(105)), 105, DEFAULT_INTERVAL);
    assert!(!second.success);
    assert_eq!(err_value(&second), "cannot register device with same uuid twice");
}

#[test]
fn keepalive_and_transmit_for_unknown_device_fail() {
    let mut reg = DeviceRegistry::new();
    let mut conn = ConnState { last_implicit: 0 };
    let (resp, _) = handle_request(&mut reg, &mut conn, &keepalive(U, Some(100)), 100, DEFAULT_INTERVAL);
    assert!(!resp.success);
    assert_eq!(err_value(&resp), "device not found");
    // a transmit outside the threshold window (would touch)
    let (resp, cmd) = handle_request(&mut reg, &mut conn, &transmit(U, Some(100), "c", &["1"]), 100, DEFAULT_INTERVAL);
    assert!(!resp.success);
    assert!(cmd.is_none());
    // a transmit within the threshold window (read-only path)
    conn.last_implicit = 99;
    let (resp, cmd) = handle_request(&mut reg, &mut conn, &transmit(U, Some(100), "c", &["1"]), 100, DEFAULT_INTERVAL);
    assert!(!resp.success);
    assert!(cmd.is_none());
    // no device was implicitly created
    assert!(reg.get_dev(0x550e8400e29b41d4a716446655440000u128, 100).is_err());
}

#[test]
fn transmit_coalesces_implicit_keepalives() {
    let mut reg = DeviceRegistry::new();
    let mut conn = ConnState { last_implicit: 1000 };
    let (resp, _) = handle_request(&mut reg, &mut conn, &startup(U, Some(1000)), 1000, DEFAULT_INTERVAL);
    assert!(resp.success);
    let id = 0x550e8400e29b41d4a716446655440000u128;

    // three transmits within the 5 s window: none writes a keepalive
    for t in [1001, 1002, 1004] {
        let (resp, cmd) = handle_request(&mut reg, &mut conn, &transmit(U, Some(t), "c", &["1.5"]), t, DEFAULT_INTERVAL);
        assert!(resp.success);
        let cmd = cmd.expect("successful transmit dispatches");
        assert_eq!(cmd.channel, "c");
        assert_eq!(cmd.samples, vec!["1.5".to_string()]);
        assert_eq!(reg.get_dev(id, t).unwrap().last_alive, 1000);
    }

    // the next transmit past the threshold writes exactly one
    let (resp, _) = handle_request(&mut reg, &mut conn, &transmit(U, Some(1006), "c", &["1.5"]), 1006, DEFAULT_INTERVAL);
    assert!(resp.success);
    assert_eq!(reg.get_dev(id, 1006).unwrap().last_alive, 1006);
    assert_eq!(conn.last_implicit, 1006);
}

#[test]
fn transmit_echoes_and_dispatches() {
    let mut reg = DeviceRegistry::new();
    let mut conn = ConnState { last_implicit: 0 };
    handle_request(&mut reg, &mut conn, &startup(U, Some(100)), 100, DEFAULT_INTERVAL);
    let (resp, cmd) = handle_request(&mut reg, &mut conn, &transmit(U, Some(106), "temp", &["1", "-2.5"]), 106, DEFAULT_INTERVAL);
    assert!(resp.success);
    match &resp.data {
        ResponseData::Transmit { channel, data } => {
            assert_eq!(channel, "temp");
            assert_eq!(data, &vec!["1".to_string(), "-2.5".to_string()]);
        }
        _ => panic!("expected a transmit echo"),
    }
    let cmd = cmd.expect("dispatch event");
    // the device id is handed on in canonical hyphenated form,
    // whatever form the request used
    assert_eq!(cmd.device, U);
}

#[test]
fn uuid_text_is_canonicalized() {
    let mut reg = DeviceRegistry::new();
    let mut conn = ConnState { last_implicit: 0 };
    let upper = "550E8400-E29B-41D4-A716-446655440000";
    handle_request(&mut reg, &mut conn, &startup(upper, Some(100)), 100, DEFAULT_INTERVAL);
    let (resp, cmd) = handle_request(&mut reg, &mut conn, &transmit(upper, Some(106), "c", &[]), 106, DEFAULT_INTERVAL);
    assert!(resp.success);
    // parsing and re-printing the id lower-cases it
    assert_eq!(cmd.expect("dispatch event").device, U);
}

#[test]
fn invalid_uuid_is_a_validation_error() {
    let mut reg = DeviceRegistry::new();
    let mut conn = ConnState { last_implicit: 0 };
    let (resp, cmd) = handle_request(&mut reg, &mut conn, &startup("not-a-uuid", Some(100)), 100, DEFAULT_INTERVAL);
    assert!(!resp.success);
    assert_eq!(err_value(&resp), "invalid device id");
    assert!(cmd.is_none());
}

#[test]
fn missing_rtc_uses_server_time() {
    let mut reg = DeviceRegistry::new();
    let mut conn = ConnState { last_implicit: 0 };
    handle_request(&mut reg, &mut conn, &startup(U, None), 200, DEFAULT_INTERVAL);
    let id = 0x550e8400e29b41d4a716446655440000u128;
    assert_eq!(reg.get_dev(id, 200).unwrap().last_alive, 200);
}

#[test]
fn handle_line_full_exchange() {
    let mut reg = DeviceRegistry::new();
    let mut conn = ConnState { last_implicit: 1000 };
    let line = format!(
        "{{\"uuid\":\"{}\",\"rtc_unix\":1000,\"data\":{{\"type\":\"Startup\",\"dev_type\":\"sensor1\"}}}}",
        U
    );
    let (resp, text, cmd) = handle_line(&mut reg, &mut conn, &line, 1000, DEFAULT_INTERVAL);
    assert!(resp.success);
    assert!(cmd.is_none());
    assert_eq!(
        text,
        "{\"success\":true,\"rtc_unix\":1000,\"data\":{\"type\":\"Configure\",\"sensor_interval\":500}}"
    );
}

#[test]
fn handle_line_malformed_stays_open() {
    let mut reg = DeviceRegistry::new();
    let mut conn = ConnState { last_implicit: 0 };
    let (resp, text, cmd) = handle_line(&mut reg, &mut conn, "not json", 42, DEFAULT_INTERVAL);
    assert!(!resp.success);
    assert!(cmd.is_none());
    assert_eq!(
        text,
        "{\"success\":false,\"rtc_unix\":42,\"data\":{\"type\":\"Err\",\"value\":\"malformed request\"}}"
    );
    // the registry is untouched and the next request still works
    let line = format!("{{\"uuid\":\"{}\",\"data\":{{\"type\":\"Startup\",\"dev_type\":\"s\"}}}}", U);
    let (resp, _, _) = handle_line(&mut reg, &mut conn, &line, 43, DEFAULT_INTERVAL);
    assert!(resp.success);
}
