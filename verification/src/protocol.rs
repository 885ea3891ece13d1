use vstd::prelude::*;

use crate::codec::{
    dec_request, decode_request, enc_response, encode_response, views_of, ReqView,
    ReqDataView, RespDataView, RespView, Request, RequestData, Response, ResponseData,
};
use crate::registry::{Device, DeviceRegistry};

verus! {

/// Seconds that must pass between two implicit keepalive writes caused
/// by one connection's transmit stream.  Bounds write amplification
/// from high-frequency telemetry.
pub const IMPLICIT_KEEPALIVE_S: i64 = 5;

/// What `uuid::Uuid::try_parse` yields on a string: the 128-bit value,
/// or nothing when the string is no UUID text form.  A function of the
/// string alone.
pub uninterp spec fn uuid_value(s: Seq<char>) -> Option<u128>;

/// The hyphenated text form of a UUID value.  A function of the value
/// alone.
pub uninterp spec fn uuid_text(id: u128) -> Seq<char>;

/// Relies on `uuid::Uuid::try_parse`: accepts the UUID text forms and
/// returns the parsed value; deterministic in the string.
#[verifier::external_body]
fn parse_uuid(s: &str) -> (r: Option<u128>)
    ensures
        r == uuid_value(s@),
{
    match uuid::Uuid::try_parse(s) {
        Ok(u) => Some(u.as_u128()),
        Err(_) => None,
    }
}

/// Relies on `uuid::Uuid::to_string` (via `Uuid::from_u128`): writes
/// the hyphenated text form; deterministic in the value.
#[verifier::external_body]
fn uuid_string(id: u128) -> (r: String)
    ensures
        r@ == uuid_text(id),
{
    uuid::Uuid::from_u128(id).to_string()
}

/// Per-connection protocol state: when this connection last wrote an
/// implicit keepalive from its transmit stream.
pub struct ConnState {
    pub last_implicit: i64,
}

/// One dispatch event, handed to the embedding program to fan out to
/// the script listeners after the response is written.
pub struct BroadcastCmd {
    /// Hyphenated text form of the transmitting device's id.
    pub device: String,
    pub channel: String,
    /// Sample lexemes, as received on the wire.
    pub samples: Vec<String>,
}

/// The event time of a request: the client's declared clock when it
/// carries one, else the server receive time.
pub open spec fn resolved_time(rtc: Option<i64>, now: i64) -> i64 {
    match rtc {
        Some(t) => t,
        None => now,
    }
}

/// An implicit keepalive write is due when at least the threshold has
/// passed since this connection's last one.
pub open spec fn touch_due(last_implicit: i64, t: i64) -> bool {
    t - last_implicit >= IMPLICIT_KEEPALIVE_S
}

/// Lookup functions on every other id are untouched.
pub open spec fn reg_frame(pre: DeviceRegistry, post: DeviceRegistry, id: u128) -> bool {
    &&& forall|id2: u128| id2 != id ==> #[trigger] post.has_id(id2) == pre.has_id(id2)
    &&& forall|id2: u128|
        id2 != id && pre.has_id(id2) ==> #[trigger] post.rec(id2) == pre.rec(id2)
}

/// The record for `id` now reads `last_alive == t` and nothing else
/// about it moved but possibly its type.
pub open spec fn reg_written(pre: DeviceRegistry, post: DeviceRegistry, id: u128, t: i64) -> bool {
    &&& post.wf()
    &&& post.has_id(id)
    &&& post.rec(id).uuid == id
    &&& post.rec(id).last_alive == t
    &&& reg_frame(pre, post, id)
}

/// How one decoded request transforms the registry and the connection
/// state, and what it answers.  This is the protocol's contract; both
/// `handle_request` and `handle_line` promise it.
pub open spec fn request_step(
    pre_reg: DeviceRegistry,
    post_reg: DeviceRegistry,
    pre_conn: ConnState,
    post_conn: ConnState,
    rv: ReqView,
    now: i64,
    dflt: u64,
    resp: RespView,
    cmd: Option<BroadcastCmd>,
) -> bool {
    let t = resolved_time(rv.rtc_unix, now);
    &&& resp.rtc_unix == now
    &&& match uuid_value(rv.uuid) {
        None => {
            &&& resp.success == false
            &&& resp.data == (RespDataView::Failure { value: "invalid device id"@ })
            &&& post_reg == pre_reg
            &&& post_conn == pre_conn
            &&& cmd is None
        },
        Some(id) => match rv.data {
            ReqDataView::Startup { dev_type } => {
                &&& post_conn == pre_conn
                &&& cmd is None
                &&& if pre_reg.has_live(id, now) {
                    &&& resp.success == false
                    &&& resp.data == (RespDataView::Failure {
                        value: "cannot register device with same uuid twice"@,
                    })
                    &&& post_reg == pre_reg
                } else {
                    &&& resp.success == true
                    &&& resp.data == (RespDataView::Configure { sensor_interval: dflt })
                    &&& reg_written(pre_reg, post_reg, id, t)
                    &&& post_reg.rec(id).dev_type@ == dev_type
                }
            },
            ReqDataView::KeepAlive => {
                &&& post_conn == pre_conn
                &&& cmd is None
                &&& if pre_reg.has_live(id, now) {
                    &&& resp.success == true
                    &&& resp.data == RespDataView::KeepAliveConfirm
                    &&& reg_written(pre_reg, post_reg, id, t)
                    &&& post_reg.rec(id).dev_type == pre_reg.rec(id).dev_type
                } else {
                    &&& resp.success == false
                    &&& resp.data == (RespDataView::Failure { value: "device not found"@ })
                    &&& post_reg == pre_reg
                }
            },
            ReqDataView::Transmit { channel, data } => {
                let due = touch_due(pre_conn.last_implicit, t);
                &&& post_conn.last_implicit == if due {
                    t
                } else {
                    pre_conn.last_implicit
                }
                &&& if pre_reg.has_live(id, now) {
                    &&& resp.success == true
                    &&& resp.data == (RespDataView::Transmit { channel, data })
                    &&& cmd matches Some(c) && c.device@ == uuid_text(id) && c.channel@ == channel
                        && views_of(c.samples@) == data
                    &&& if due {
                        &&& reg_written(pre_reg, post_reg, id, t)
                        &&& post_reg.rec(id).dev_type == pre_reg.rec(id).dev_type
                    } else {
                        post_reg == pre_reg
                    }
                } else {
                    &&& resp.success == false
                    &&& resp.data == (RespDataView::Failure { value: "device not found"@ })
                    &&& post_reg == pre_reg
                    &&& cmd is None
                }
            },
        },
    }
}

/// A failed response with the given message, timestamped `now`.
fn fail_resp(now: i64, msg: &str) -> (r: Response)
    ensures
        r@ == (RespView {
            success: false,
            rtc_unix: now,
            data: RespDataView::Failure { value: msg@ },
        }),
{
    Response { success: false, rtc_unix: now, data: ResponseData::Failure { value: msg.to_owned() } }
}

/// The threshold predicate, computed without overflow.
fn implicit_due(last_implicit: i64, t: i64) -> (r: bool)
    ensures
        r == touch_due(last_implicit, t),
{
    (t as i128) - (last_implicit as i128) >= IMPLICIT_KEEPALIVE_S as i128
}

/// A copy of a string list with the same views.
fn clone_strings(v: &Vec<String>) -> (r: Vec<String>)
    ensures
        views_of(r@) == views_of(v@),
{
    let mut r: Vec<String> = Vec::new();
    let mut i: usize = 0;
    while i < v.len()
        invariant
            i <= v@.len(),
            r@.len() == i,
            forall|j: int| 0 <= j < i ==> r@[j]@ == #[trigger] v@[j]@,
        decreases v@.len() - i,
    {
        r.push(v[i].clone());
        i = i + 1;
    }
    proof {
        assert(views_of(r@) =~= views_of(v@));
    }
    r
}

/// Handle one decoded request against the registry and this
/// connection's state.  Returns the response and, for a successful
/// transmit, the dispatch event the embedding program fans out.
pub fn handle_request(
    reg: &mut DeviceRegistry,
    conn: &mut ConnState,
    req: &Request,
    now: i64,
    default_interval_ms: u64,
) -> (r: (Response, Option<BroadcastCmd>))
    requires
        old(reg).wf(),
    ensures
        final(reg).wf(),
        request_step(
            *old(reg),
            *final(reg),
            *old(conn),
            *final(conn),
            req@,
            now,
            default_interval_ms,
            r.0@,
            r.1,
        ),
{
    let t = match req.rtc_unix {
        Some(x) => x,
        None => now,
    };
    match parse_uuid(req.uuid.as_str()) {
        None => (fail_resp(now, "invalid device id"), None),
        Some(id) => match &req.data {
            RequestData::Startup { dev_type } => {
                let dev = Device { uuid: id, last_alive: t, dev_type: dev_type.clone() };
                match reg.add_dev(dev, now) {
                    Ok(_) => (
                        Response {
                            success: true,
                            rtc_unix: now,
                            data: ResponseData::Configure {
                                sensor_interval: default_interval_ms,
                            },
                        },
                        None,
                    ),
                    Err(_) => (fail_resp(now, "cannot register device with same uuid twice"), None),
                }
            },
            RequestData::KeepAlive => match reg.update_dev(id, t, now) {
                Ok(_) => (
                    Response { success: true, rtc_unix: now, data: ResponseData::KeepAliveConfirm },
                    None,
                ),
                Err(_) => (fail_resp(now, "device not found"), None),
            },
            RequestData::Transmit { channel, data } => {
                let due = implicit_due(conn.last_implicit, t);
                if due {
                    conn.last_implicit = t;
                }
                let alive = if due {
                    match reg.update_dev(id, t, now) {
                        Ok(_) => true,
                        Err(_) => false,
                    }
                } else {
                    match reg.get_dev(id, now) {
                        Ok(_) => true,
                        Err(_) => false,
                    }
                };
                if alive {
                    let cmd = BroadcastCmd {
                        device: uuid_string(id),
                        channel: channel.clone(),
                        samples: clone_strings(data),
                    };
                    (
                        Response {
                            success: true,
                            rtc_unix: now,
                            data: ResponseData::Transmit {
                                channel: channel.clone(),
                                data: clone_strings(data),
                            },
                        },
                        Some(cmd),
                    )
                } else {
                    (fail_resp(now, "device not found"), None)
                }
            },
        },
    }
}

/// Handle one raw line: decode it, run the protocol step, and encode
/// the response.  A line that does not parse answers a failure and
/// changes nothing; the connection stays open either way.
pub fn handle_line(
    reg: &mut DeviceRegistry,
    conn: &mut ConnState,
    line: &str,
    now: i64,
    default_interval_ms: u64,
) -> (r: (Response, String, Option<BroadcastCmd>))
    requires
        old(reg).wf(),
    ensures
        final(reg).wf(),
        r.1@ == enc_response(r.0@),
        match dec_request(line@) {
            Some(rv) => request_step(
                *old(reg),
                *final(reg),
                *old(conn),
                *final(conn),
                rv,
                now,
                default_interval_ms,
                r.0@,
                r.2,
            ),
            None => {
                &&& r.0@ == (RespView {
                    success: false,
                    rtc_unix: now,
                    data: RespDataView::Failure { value: "malformed request"@ },
                })
                &&& *final(reg) == *old(reg)
                &&& *final(conn) == *old(conn)
                &&& r.2 is None
            },
        },
{
    match decode_request(line) {
        Ok(req) => {
            let rc = handle_request(reg, conn, &req, now, default_interval_ms);
            let text = encode_response(&rc.0);
            (rc.0, text, rc.1)
        },
        Err(_) => {
            let resp = fail_resp(now, "malformed request");
            let text = encode_response(&resp);
            (resp, text, None)
        },
    }
}

/// Number of implicit keepalive writes that a run of transmit event
/// times causes, starting from a given last-write time: one whenever
/// the threshold has elapsed, which then resets the reference point —
/// the recurrence `handle_request` follows for `last_implicit`.
pub open spec fn touch_count(last: i64, times: Seq<i64>) -> nat
    decreases times.len(),
{
    if times.len() == 0 {
        0
    } else if touch_due(last, times[0]) {
        1 + touch_count(times[0], times.drop_first())
    } else {
        touch_count(last, times.drop_first())
    }
}

/// After a write at or after `lo`, no transmit before
/// `lo + IMPLICIT_KEEPALIVE_S` writes again.
proof fn lemma_no_touch_within(last: i64, times: Seq<i64>, lo: i64)
    requires
        last >= lo,
        forall|i: int| 0 <= i < times.len() ==> #[trigger] times[i] < lo + IMPLICIT_KEEPALIVE_S,
    ensures
        touch_count(last, times) == 0,
    decreases times.len(),
{
    if times.len() > 0 {
        assert(times[0] - last < IMPLICIT_KEEPALIVE_S);
        let rest = times.drop_first();
        assert(forall|i: int| 0 <= i < rest.len() ==> #[trigger] rest[i] == times[i + 1]);
        lemma_no_touch_within(last, rest, lo);
    }
}

/// Any number of consecutive transmits whose event times all fall
/// within one threshold window of the first cause at most one implicit
/// keepalive write to the registry, not one each.
pub proof fn lemma_implicit_coalescing(last: i64, times: Seq<i64>)
    requires
        times.len() > 0,
        forall|i: int, j: int| 0 <= i <= j < times.len() ==> #[trigger] times[i] <= #[trigger] times[j],
        forall|i: int| 0 <= i < times.len() ==> #[trigger] times[i] < times[0] + IMPLICIT_KEEPALIVE_S,
    ensures
        touch_count(last, times) <= 1,
    decreases times.len(),
{
    let rest = times.drop_first();
    assert(forall|i: int| 0 <= i < rest.len() ==> #[trigger] rest[i] == times[i + 1]);
    if touch_due(last, times[0]) {
        lemma_no_touch_within(times[0], rest, times[0]);
    } else {
        if times.len() > 1 {
            assert(forall|i: int, j: int|
                0 <= i <= j < rest.len() ==> #[trigger] rest[i] <= #[trigger] rest[j]);
            assert(forall|i: int|
                0 <= i < rest.len() ==> #[trigger] rest[i] < rest[0] + IMPLICIT_KEEPALIVE_S);
            lemma_implicit_coalescing(last, rest);
        }
    }
}

} // verus!
