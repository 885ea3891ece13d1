use devctrl::codec::{
    decode_request, decode_response, encode_request, encode_response, Request, RequestData,
    Response, ResponseData,
};

fn req(uuid: &str, rtc: Option<i64>, data: RequestData) -> Request {
    Request { uuid: uuid.to_string(), rtc_unix: rtc, data }
}

fn resp(success: bool, rtc: i64, data: ResponseData) -> Response {
    Response { success, rtc_unix: rtc, data }
}

fn samples(v: &[&str]) -> Vec<String> {
    v.iter().map(|s| s.to_string()).collect()
}

fn assert_req_eq(a: &Request, b: &Request) {
    assert_eq!(a.uuid, b.uuid);
    assert_eq!(a.rtc_unix, b.rtc_unix);
    match (&a.data, &b.data) {
        (RequestData::Startup { dev_type: x }, RequestData::Startup { dev_type: y }) => {
            assert_eq!(x, y)
        }
        (RequestData::KeepAlive, RequestData::KeepAlive) => {}
        (
            RequestData::Transmit { channel: c1, data: d1 },
            RequestData::Transmit { channel: c2, data: d2 },
        ) => {
            assert_eq!(c1, c2);
            assert_eq!(d1, d2);
        }
        _ => panic!("request bodies differ"),
    }
}

fn assert_resp_eq(a: &Response, b: &Response) {
    assert_eq!(a.success, b.success);
    assert_eq!(a.rtc_unix, b.rtc_unix);
    match (&a.data, &b.data) {
        (ResponseData::Failure { value: x }, ResponseData::Failure { value: y }) => {
            assert_eq!(x, y)
        }
        (
            ResponseData::Configure { sensor_interval: x },
            ResponseData::Configure { sensor_interval: y },
        ) => assert_eq!(x, y),
        (ResponseData::KeepAliveConfirm, ResponseData::KeepAliveConfirm) => {}
        (
            ResponseData::Transmit { channel: c1, data: d1 },
            ResponseData::Transmit { channel: c2, data: d2 },
        ) => {
            assert_eq!(c1, c2);
            assert_eq!(d1, d2);
        }
        _ => panic!("response bodies differ"),
    }
}

#[test]
fn encode_startup_exact() {
    let r = req(
        "550e8400-e29b-41d4-a716-446655440000",
        Some(1234),
        RequestData::Startup { dev_type: "sensor1".to_string() },
    );
    assert_eq!(
        encode_request(&r),
        "{\"uuid\":\"550e8400-e29b-41d4-a716-446655440000\",\"rtc_unix\":1234,\"data\":{\"type\":\"Startup\",\"dev_type\":\"sensor1\"}}"
    );
}

#[test]
fn encode_keepalive_null_rtc_exact() {
    let r = req("u", None, RequestData::KeepAlive);
    assert_eq!(
        encode_request(&r),
        "{\"uuid\":\"u\",\"rtc_unix\":null,\"data\":{\"type\":\"KeepAlive\"}}"
    );
}

#[test]
fn encode_transmit_exact() {
    let r = req(
        "u",
        Some(-5),
        RequestData::Transmit { channel: "temp".to_string(), data: samples(&["1.5", "-2e3"]) },
    );
    assert_eq!(
        encode_request(&r),
        "{\"uuid\":\"u\",\"rtc_unix\":-5,\"data\":{\"type\":\"Transmit\",\"channel\":\"temp\",\"data\":[1.5,-2e3]}}"
    );
}

#[test]
fn encode_err_response_exact() {
    let r = resp(false, 77, ResponseData::Failure { value: "device not found".to_string() });
    assert_eq!(
        encode_response(&r),
        "{\"success\":false,\"rtc_unix\":77,\"data\":{\"type\":\"Err\",\"value\":\"device not found\"}}"
    );
}

#[test]
fn request_round_trips() {
    let cases = vec![
        req("550e8400-e29b-41d4-a716-446655440000", Some(1234), RequestData::Startup {
            dev_type: "sensor1".to_string(),
        }),
        req("id-with-\"quote\"-and-\\slash", None, RequestData::KeepAlive),
        req("u", Some(i64::MIN), RequestData::Transmit {
            channel: "line\nbreak\tand\rreturns".to_string(),
            data: samples(&[]),
        }),
        req("u", Some(i64::MAX), RequestData::Transmit {
            channel: "c".to_string(),
            data: samples(&["0", "-0.5", "3.25e-2", "1E+9"]),
        }),
    ];
    for r in &cases {
        let line = encode_request(r);
        let back = decode_request(&line).expect("canonical encoding decodes");
        assert_req_eq(r, &back);
    }
}

#[test]
fn response_round_trips() {
    let cases = vec![
        resp(false, -1, ResponseData::Failure { value: "boom \"x\"\n".to_string() }),
        resp(true, 1000, ResponseData::Configure { sensor_interval: u64::MAX }),
        resp(true, 0, ResponseData::Configure { sensor_interval: 0 }),
        resp(true, 42, ResponseData::KeepAliveConfirm),
        resp(true, 42, ResponseData::Transmit {
            channel: "temp".to_string(),
            data: samples(&["1", "2.5"]),
        }),
    ];
    for r in &cases {
        let line = encode_response(r);
        let back = decode_response(&line).expect("canonical encoding decodes");
        assert_resp_eq(r, &back);
    }
}

#[test]
fn decode_accepts_absent_rtc_field() {
    let back = decode_request("{\"uuid\":\"u\",\"data\":{\"type\":\"KeepAlive\"}}")
        .expect("absent rtc_unix reads as null");
    assert_eq!(back.rtc_unix, None);
    assert_eq!(back.uuid, "u");
}

#[test]
fn decode_rejects_malformed_lines() {
    let bad = [
        "",
        "{",
        "not json at all",
        "{\"uuid\":\"u\",\"rtc_unix\":null,\"data\":{\"type\":\"Unknown\"}}",
        "{\"uuid\":\"u\",\"rtc_unix\":,\"data\":{\"type\":\"KeepAlive\"}}",
        "{\"uuid\":\"u\",\"rtc_unix\":null,\"data\":{\"type\":\"KeepAlive\"}}trailing",
        "{\"uuid\":\"u\",\"rtc_unix\":null,\"data\":{\"type\":\"Transmit\",\"channel\":\"c\",\"data\":[1,]}}",
        "{\"uuid\":\"u\",\"rtc_unix\":99999999999999999999999,\"data\":{\"type\":\"KeepAlive\"}}",
    ];
    for line in &bad {
        assert!(decode_request(line).is_err(), "should reject: {}", line);
    }
}

#[test]
fn decode_number_limits() {
    // i64 bounds round-trip through the decoder
    let back = decode_request(
        "{\"uuid\":\"u\",\"rtc_unix\":-9223372036854775808,\"data\":{\"type\":\"KeepAlive\"}}",
    )
    .expect("i64::MIN parses");
    assert_eq!(back.rtc_unix, Some(i64::MIN));
    // one past i64::MAX is rejected
    assert!(decode_request(
        "{\"uuid\":\"u\",\"rtc_unix\":9223372036854775808,\"data\":{\"type\":\"KeepAlive\"}}"
    )
    .is_err());
}
