use vstd::prelude::*;

verus! {

// ===================================================================== //
// Wire protocol data model
//
// One JSON object per line.  Sample values travel as their wire number
// lexemes (e.g. `-12.5e3`), preserved verbatim by the codec; their
// numeric interpretation is the embedding program's business, which
// keeps the codec exact and total on what it accepts.
// ===================================================================== //

/// Body of one device request.
pub enum RequestData {
    Startup { dev_type: String },
    KeepAlive,
    Transmit { channel: String, data: Vec<String> },
}

/// One request line: device id text, optional client-declared epoch
/// seconds, and the body.
pub struct Request {
    pub uuid: String,
    pub rtc_unix: Option<i64>,
    pub data: RequestData,
}

/// Body of one gateway response.  `Failure` carries the wire tag `Err`.
pub enum ResponseData {
    Failure { value: String },
    Configure { sensor_interval: u64 },
    KeepAliveConfirm,
    Transmit { channel: String, data: Vec<String> },
}

/// One response line.
pub struct Response {
    pub success: bool,
    pub rtc_unix: i64,
    pub data: ResponseData,
}

/// The line could not be parsed as a request or response.
#[derive(Debug)]
pub struct ProtocolError;

// ===================================================================== //
// Mathematical views
// ===================================================================== //

#[verifier::ext_equal]
pub enum ReqDataView {
    Startup { dev_type: Seq<char> },
    KeepAlive,
    Transmit { channel: Seq<char>, data: Seq<Seq<char>> },
}

#[verifier::ext_equal]
pub struct ReqView {
    pub uuid: Seq<char>,
    pub rtc_unix: Option<i64>,
    pub data: ReqDataView,
}

#[verifier::ext_equal]
pub enum RespDataView {
    Failure { value: Seq<char> },
    Configure { sensor_interval: u64 },
    KeepAliveConfirm,
    Transmit { channel: Seq<char>, data: Seq<Seq<char>> },
}

#[verifier::ext_equal]
pub struct RespView {
    pub success: bool,
    pub rtc_unix: i64,
    pub data: RespDataView,
}

/// The views of a sequence of strings.
pub open spec fn views_of(v: Seq<String>) -> Seq<Seq<char>> {
    v.map_values(|s: String| s@)
}

impl View for Request {
    type V = ReqView;

    open spec fn view(&self) -> ReqView {
        ReqView {
            uuid: self.uuid@,
            rtc_unix: self.rtc_unix,
            data: match self.data {
                RequestData::Startup { dev_type } => ReqDataView::Startup { dev_type: dev_type@ },
                RequestData::KeepAlive => ReqDataView::KeepAlive,
                RequestData::Transmit { channel, data } => ReqDataView::Transmit {
                    channel: channel@,
                    data: views_of(data@),
                },
            },
        }
    }
}

impl View for Response {
    type V = RespView;

    open spec fn view(&self) -> RespView {
        RespView {
            success: self.success,
            rtc_unix: self.rtc_unix,
            data: match self.data {
                ResponseData::Failure { value } => RespDataView::Failure { value: value@ },
                ResponseData::Configure { sensor_interval } => RespDataView::Configure {
                    sensor_interval,
                },
                ResponseData::KeepAliveConfirm => RespDataView::KeepAliveConfirm,
                ResponseData::Transmit { channel, data } => RespDataView::Transmit {
                    channel: channel@,
                    data: views_of(data@),
                },
            },
        }
    }
}

// ===================================================================== //
// Character classes
// ===================================================================== //

pub open spec fn is_digit(c: char) -> bool {
    '0' as u32 <= c as u32 && c as u32 <= '9' as u32
}

pub open spec fn digit_val(c: char) -> int {
    c as u32 - '0' as u32
}

/// The decimal digit character for `d`; meaningful for `0 <= d <= 9`.
pub open spec fn digit_char(d: int) -> char {
    if d == 0 { '0' }
    else if d == 1 { '1' }
    else if d == 2 { '2' }
    else if d == 3 { '3' }
    else if d == 4 { '4' }
    else if d == 5 { '5' }
    else if d == 6 { '6' }
    else if d == 7 { '7' }
    else if d == 8 { '8' }
    else { '9' }
}

/// Characters that may form a sample's number lexeme.
pub open spec fn sample_char(c: char) -> bool {
    is_digit(c) || c == '-' || c == '+' || c == '.' || c == 'e' || c == 'E'
}

/// A well-formed sample lexeme: non-empty, number characters only.
pub open spec fn is_lexeme(s: Seq<char>) -> bool {
    s.len() > 0 && forall|i: int| 0 <= i < s.len() ==> sample_char(s[i])
}

pub open spec fn all_lexemes(ls: Seq<Seq<char>>) -> bool {
    forall|i: int| 0 <= i < ls.len() ==> is_lexeme(ls[i])
}

/// A character that stands for itself inside a JSON string.
pub open spec fn plain_char(c: char) -> bool {
    c != '"' && c != '\\' && c as u32 >= 0x20
}

/// A character the codec can carry inside a string: anything except
/// control characters other than newline, carriage return and tab
/// (those three are escaped; so are the quote and the backslash).
pub open spec fn wire_char_ok(c: char) -> bool {
    plain_char(c) || c == '"' || c == '\\' || c == '\n' || c == '\r' || c == '\t'
}

pub open spec fn wire_str_ok(s: Seq<char>) -> bool {
    forall|i: int| 0 <= i < s.len() ==> wire_char_ok(s[i])
}

// ===================================================================== //
// Specification encoders
// ===================================================================== //

/// Escape sequence for one character inside a JSON string.
pub open spec fn esc_char(c: char) -> Seq<char> {
    if c == '"' { seq!['\\', '"'] }
    else if c == '\\' { seq!['\\', '\\'] }
    else if c == '\n' { seq!['\\', 'n'] }
    else if c == '\r' { seq!['\\', 'r'] }
    else if c == '\t' { seq!['\\', 't'] }
    else { seq![c] }
}

/// The inverse of `esc_char` on its second character.
pub open spec fn unesc_char(c: char) -> Option<char> {
    if c == '"' { Some('"') }
    else if c == '\\' { Some('\\') }
    else if c == 'n' { Some('\n') }
    else if c == 'r' { Some('\r') }
    else if c == 't' { Some('\t') }
    else { None }
}

/// A string's body as it appears between quotes on the wire.
pub open spec fn esc(s: Seq<char>) -> Seq<char>
    decreases s.len(),
{
    if s.len() == 0 {
        Seq::empty()
    } else {
        esc(s.drop_last()) + esc_char(s.last())
    }
}

/// Decimal numeral of a non-negative integer.
pub open spec fn enc_nat(n: int) -> Seq<char>
    decreases n,
{
    if n < 10 {
        seq![digit_char(n)]
    } else {
        enc_nat(n / 10).push(digit_char(n % 10))
    }
}

/// Decimal numeral of a signed 64-bit value.
pub open spec fn enc_i64(n: i64) -> Seq<char> {
    if n >= 0 {
        enc_nat(n as int)
    } else {
        seq!['-'] + enc_nat(-(n as int))
    }
}

pub open spec fn enc_rtc(o: Option<i64>) -> Seq<char> {
    match o {
        None => "null"@,
        Some(n) => enc_i64(n),
    }
}

pub open spec fn enc_bool(b: bool) -> Seq<char> {
    if b { "true"@ } else { "false"@ }
}

/// Comma-joined sample lexemes, as they stand between `[` and `]`.
pub open spec fn enc_samples(ls: Seq<Seq<char>>) -> Seq<char>
    decreases ls.len(),
{
    if ls.len() == 0 {
        Seq::empty()
    } else if ls.len() == 1 {
        ls[0]
    } else {
        ls[0] + seq![','] + enc_samples(ls.drop_first())
    }
}

pub open spec fn enc_req_data(d: ReqDataView) -> Seq<char> {
    match d {
        ReqDataView::Startup { dev_type } => "Startup\",\"dev_type\":\""@ + esc(dev_type)
            + "\"}}"@,
        ReqDataView::KeepAlive => "KeepAlive\"}}"@,
        ReqDataView::Transmit { channel, data } => "Transmit\",\"channel\":\""@ + esc(channel)
            + "\""@ + ",\"data\":["@ + enc_samples(data) + "]}}"@,
    }
}

/// The canonical wire line of a request (without the newline).
pub open spec fn enc_request(r: ReqView) -> Seq<char> {
    "{\"uuid\":\""@ + esc(r.uuid) + "\""@ + ",\"rtc_unix\":"@ + enc_rtc(r.rtc_unix)
        + ",\"data\":{\"type\":\""@ + enc_req_data(r.data)
}

pub open spec fn enc_resp_data(d: RespDataView) -> Seq<char> {
    match d {
        RespDataView::Failure { value } => "Err\",\"value\":\""@ + esc(value) + "\"}}"@,
        RespDataView::Configure { sensor_interval } => "Configure\",\"sensor_interval\":"@
            + enc_nat(sensor_interval as int) + "}}"@,
        RespDataView::KeepAliveConfirm => "KeepAliveConfirm\"}}"@,
        RespDataView::Transmit { channel, data } => "Transmit\",\"channel\":\""@ + esc(channel)
            + "\""@ + ",\"data\":["@ + enc_samples(data) + "]}}"@,
    }
}

/// The canonical wire line of a response (without the newline).
pub open spec fn enc_response(r: RespView) -> Seq<char> {
    "{\"success\":"@ + enc_bool(r.success) + ",\"rtc_unix\":"@ + enc_i64(r.rtc_unix)
        + ",\"data\":{\"type\":\""@ + enc_resp_data(r.data)
}

// ===================================================================== //
// Specification parsers
//
// Each partial parser takes the unconsumed suffix of the line and
// returns the parsed value together with the remaining suffix, or
// `None` when the suffix does not start with the expected form.
// ===================================================================== //

/// Consume an exact literal.
pub open spec fn p_lit(s: Seq<char>, lit: Seq<char>) -> Option<Seq<char>> {
    if lit.len() <= s.len() && s.subrange(0, lit.len() as int) == lit {
        Some(s.subrange(lit.len() as int, s.len() as int))
    } else {
        None
    }
}

/// Consume a string body up to and including its closing quote,
/// undoing the escapes that `esc` writes.
pub open spec fn p_string(s: Seq<char>) -> Option<(Seq<char>, Seq<char>)>
    decreases s.len(),
{
    if s.len() == 0 {
        None
    } else if s[0] == '"' {
        Some((Seq::empty(), s.drop_first()))
    } else if s[0] == '\\' {
        if s.len() < 2 {
            None
        } else {
            match unesc_char(s[1]) {
                Some(c) => match p_string(s.subrange(2, s.len() as int)) {
                    Some(t_r) => Some((seq![c] + t_r.0, t_r.1)),
                    None => None,
                },
                None => None,
            }
        }
    } else if plain_char(s[0]) {
        match p_string(s.drop_first()) {
            Some(t_r) => Some((seq![s[0]] + t_r.0, t_r.1)),
            None => None,
        }
    } else {
        None
    }
}

/// Consume the maximal non-empty run of decimal digits.
pub open spec fn p_digits(s: Seq<char>) -> Option<(Seq<char>, Seq<char>)>
    decreases s.len(),
{
    if s.len() == 0 || !is_digit(s[0]) {
        None
    } else if s.len() == 1 || !is_digit(s[1]) {
        Some((seq![s[0]], s.drop_first()))
    } else {
        match p_digits(s.drop_first()) {
            Some(d_r) => Some((seq![s[0]] + d_r.0, d_r.1)),
            None => None,
        }
    }
}

/// The value of a digit run.
pub open spec fn digits_val(ds: Seq<char>) -> int
    decreases ds.len(),
{
    if ds.len() == 0 {
        0
    } else {
        digits_val(ds.drop_last()) * 10 + digit_val(ds.last())
    }
}

pub open spec fn pow10(k: nat) -> int
    decreases k,
{
    if k == 0 {
        1
    } else {
        10 * pow10((k - 1) as nat)
    }
}

/// Consume an unsigned decimal number.  Runs of more than 20 digits
/// are not accepted (no `u64` numeral is that long).
pub open spec fn p_u64(s: Seq<char>) -> Option<(u64, Seq<char>)> {
    match p_digits(s) {
        Some(d_r) => if d_r.0.len() <= 20 && digits_val(d_r.0) <= u64::MAX {
            Some((digits_val(d_r.0) as u64, d_r.1))
        } else {
            None
        },
        None => None,
    }
}

/// Consume a signed decimal number within the `i64` range.
pub open spec fn p_i64(s: Seq<char>) -> Option<(i64, Seq<char>)> {
    if s.len() > 0 && s[0] == '-' {
        match p_digits(s.drop_first()) {
            Some(d_r) => if d_r.0.len() <= 20 && digits_val(d_r.0) <= 0x8000000000000000 {
                Some(((-digits_val(d_r.0)) as i64, d_r.1))
            } else {
                None
            },
            None => None,
        }
    } else {
        match p_digits(s) {
            Some(d_r) => if d_r.0.len() <= 20 && digits_val(d_r.0) <= i64::MAX {
                Some((digits_val(d_r.0) as i64, d_r.1))
            } else {
                None
            },
            None => None,
        }
    }
}

/// Consume the value of the optional client timestamp: `null` or a
/// signed number.
pub open spec fn p_rtc(s: Seq<char>) -> Option<(Option<i64>, Seq<char>)> {
    match p_lit(s, "null"@) {
        Some(r) => Some((None, r)),
        None => match p_i64(s) {
            Some(v_r) => Some((Some(v_r.0), v_r.1)),
            None => None,
        },
    }
}

/// Consume the optional `rtc_unix` field; an absent field reads as
/// `null`.
pub open spec fn p_rtc_field(s: Seq<char>) -> Option<(Option<i64>, Seq<char>)> {
    match p_lit(s, ",\"rtc_unix\":"@) {
        Some(r) => p_rtc(r),
        None => Some((None, s)),
    }
}

pub open spec fn p_bool(s: Seq<char>) -> Option<(bool, Seq<char>)> {
    match p_lit(s, "true"@) {
        Some(r) => Some((true, r)),
        None => match p_lit(s, "false"@) {
            Some(r) => Some((false, r)),
            None => None,
        },
    }
}

/// Consume the maximal non-empty run of number-lexeme characters.
pub open spec fn p_lexeme(s: Seq<char>) -> Option<(Seq<char>, Seq<char>)>
    decreases s.len(),
{
    if s.len() == 0 || !sample_char(s[0]) {
        None
    } else if s.len() == 1 || !sample_char(s[1]) {
        Some((seq![s[0]], s.drop_first()))
    } else {
        match p_lexeme(s.drop_first()) {
            Some(l_r) => Some((seq![s[0]] + l_r.0, l_r.1)),
            None => None,
        }
    }
}

/// A successful lexeme parse consumes at least one character.
proof fn lemma_p_lexeme_shrinks(s: Seq<char>)
    requires
        p_lexeme(s) is Some,
    ensures
        ({
            let l_r = p_lexeme(s)->0;
            l_r.1.len() < s.len()
        }),
    decreases s.len(),
{
    if !(s.len() == 0 || !sample_char(s[0])) && !(s.len() == 1 || !sample_char(s[1])) {
        if p_lexeme(s.drop_first()) is Some {
            lemma_p_lexeme_shrinks(s.drop_first());
        }
    }
}

/// Consume a non-empty comma-separated lexeme list up to and including
/// the closing bracket.
pub open spec fn p_samples_ne(s: Seq<char>) -> Option<(Seq<Seq<char>>, Seq<char>)>
    decreases s.len() via p_samples_ne_dec
{
    match p_lexeme(s) {
        Some(l_r) => if l_r.1.len() == 0 {
            None
        } else if l_r.1[0] == ']' {
            Some((seq![l_r.0], l_r.1.drop_first()))
        } else if l_r.1[0] == ',' {
            match p_samples_ne(l_r.1.drop_first()) {
                Some(ls_r) => Some((seq![l_r.0] + ls_r.0, ls_r.1)),
                None => None,
            }
        } else {
            None
        },
        None => None,
    }
}

#[via_fn]
proof fn p_samples_ne_dec(s: Seq<char>) {
    if p_lexeme(s) is Some {
        lemma_p_lexeme_shrinks(s);
    }
}

/// Consume a (possibly empty) sample list up to and including the
/// closing bracket.
pub open spec fn p_samples(s: Seq<char>) -> Option<(Seq<Seq<char>>, Seq<char>)> {
    if s.len() > 0 && s[0] == ']' {
        Some((Seq::empty(), s.drop_first()))
    } else {
        p_samples_ne(s)
    }
}

/// Consume a request body, starting right after `{"type":"`.
pub open spec fn p_req_body(s: Seq<char>) -> Option<(ReqDataView, Seq<char>)> {
    match p_lit(s, "Startup\",\"dev_type\":\""@) {
        Some(r) => match p_string(r) {
            Some(d_r) => match p_lit(d_r.1, "}}"@) {
                Some(r2) => Some((ReqDataView::Startup { dev_type: d_r.0 }, r2)),
                None => None,
            },
            None => None,
        },
        None => match p_lit(s, "KeepAlive\"}}"@) {
            Some(r) => Some((ReqDataView::KeepAlive, r)),
            None => match p_lit(s, "Transmit\",\"channel\":\""@) {
                Some(r) => match p_string(r) {
                    Some(c_r) => match p_lit(c_r.1, ",\"data\":["@) {
                        Some(r2) => match p_samples(r2) {
                            Some(ls_r) => match p_lit(ls_r.1, "}}"@) {
                                Some(r3) => Some((ReqDataView::Transmit {
                                    channel: c_r.0,
                                    data: ls_r.0,
                                }, r3)),
                                None => None,
                            },
                            None => None,
                        },
                        None => None,
                    },
                    None => None,
                },
                None => None,
            },
        },
    }
}

/// Parse a whole request line.
pub open spec fn dec_request(s: Seq<char>) -> Option<ReqView> {
    match p_lit(s, "{\"uuid\":\""@) {
        Some(r1) => match p_string(r1) {
            Some(u_r) => match p_rtc_field(u_r.1) {
                Some(rtc_r) => match p_lit(rtc_r.1, ",\"data\":{\"type\":\""@) {
                    Some(r4) => match p_req_body(r4) {
                        Some(d_r) => if d_r.1.len() == 0 {
                            Some(ReqView { uuid: u_r.0, rtc_unix: rtc_r.0, data: d_r.0 })
                        } else {
                            None
                        },
                        None => None,
                    },
                    None => None,
                },
                None => None,
            },
            None => None,
        },
        None => None,
    }
}

/// Consume a response body, starting right after `{"type":"`.
pub open spec fn p_resp_body(s: Seq<char>) -> Option<(RespDataView, Seq<char>)> {
    match p_lit(s, "Err\",\"value\":\""@) {
        Some(r) => match p_string(r) {
            Some(v_r) => match p_lit(v_r.1, "}}"@) {
                Some(r2) => Some((RespDataView::Failure { value: v_r.0 }, r2)),
                None => None,
            },
            None => None,
        },
        None => match p_lit(s, "Configure\",\"sensor_interval\":"@) {
            Some(r) => match p_u64(r) {
                Some(n_r) => match p_lit(n_r.1, "}}"@) {
                    Some(r2) => Some((RespDataView::Configure { sensor_interval: n_r.0 }, r2)),
                    None => None,
                },
                None => None,
            },
            None => match p_lit(s, "KeepAliveConfirm\"}}"@) {
                Some(r) => Some((RespDataView::KeepAliveConfirm, r)),
                None => match p_lit(s, "Transmit\",\"channel\":\""@) {
                    Some(r) => match p_string(r) {
                        Some(c_r) => match p_lit(c_r.1, ",\"data\":["@) {
                            Some(r2) => match p_samples(r2) {
                                Some(ls_r) => match p_lit(ls_r.1, "}}"@) {
                                    Some(r3) => Some((RespDataView::Transmit {
                                        channel: c_r.0,
                                        data: ls_r.0,
                                    }, r3)),
                                    None => None,
                                },
                                None => None,
                            },
                            None => None,
                        },
                        None => None,
                    },
                    None => None,
                },
            },
        },
    }
}

/// Parse a whole response line.
pub open spec fn dec_response(s: Seq<char>) -> Option<RespView> {
    match p_lit(s, "{\"success\":"@) {
        Some(r1) => match p_bool(r1) {
            Some(b_r) => match p_lit(b_r.1, ",\"rtc_unix\":"@) {
                Some(r2) => match p_i64(r2) {
                    Some(t_r) => match p_lit(t_r.1, ",\"data\":{\"type\":\""@) {
                        Some(r4) => match p_resp_body(r4) {
                            Some(d_r) => if d_r.1.len() == 0 {
                                Some(RespView { success: b_r.0, rtc_unix: t_r.0, data: d_r.0 })
                            } else {
                                None
                            },
                            None => None,
                        },
                        None => None,
                    },
                    None => None,
                },
                None => None,
            },
            None => None,
        },
        None => None,
    }
}

// ===================================================================== //
// Executable encoding
// ===================================================================== //

/// Relies on `String::push`: appends exactly the given character.
#[verifier::external_body]
fn push_char(s: &mut String, c: char)
    ensures
        final(s)@ == old(s)@.push(c),
{
    s.push(c);
}

/// A `String` holding exactly the given characters.
pub fn string_of_chars(v: &Vec<char>) -> (r: String)
    ensures
        r@ == v@,
{
    let mut r = String::new();
    let mut i: usize = 0;
    while i < v.len()
        invariant
            i <= v@.len(),
            r@ == v@.subrange(0, i as int),
        decreases v@.len() - i,
    {
        push_char(&mut r, v[i]);
        proof {
            assert(v@.subrange(0, i as int).push(v@[i as int]) =~= v@.subrange(0, i + 1));
        }
        i = i + 1;
    }
    proof {
        assert(v@.subrange(0, v@.len() as int) =~= v@);
    }
    r
}

/// The characters of a string slice, in order.
pub fn chars_of_str(s: &str) -> (r: Vec<char>)
    ensures
        r@ == s@,
{
    let n = s.unicode_len();
    let mut r: Vec<char> = Vec::new();
    let mut i: usize = 0;
    while i < n
        invariant
            n == s@.len(),
            i <= n,
            r@ == s@.subrange(0, i as int),
        decreases n - i,
    {
        r.push(s.get_char(i));
        proof {
            assert(s@.subrange(0, i as int).push(s@[i as int]) =~= s@.subrange(0, i + 1));
        }
        i = i + 1;
    }
    proof {
        assert(s@.subrange(0, n as int) =~= s@);
    }
    r
}

/// Appends the characters of `s` to `out`.
fn push_str_chars(out: &mut Vec<char>, s: &str)
    ensures
        final(out)@ == old(out)@ + s@,
{
    let n = s.unicode_len();
    let mut i: usize = 0;
    while i < n
        invariant
            n == s@.len(),
            i <= n,
            out@ == old(out)@ + s@.subrange(0, i as int),
        decreases n - i,
    {
        out.push(s.get_char(i));
        proof {
            assert(s@.subrange(0, i as int).push(s@[i as int]) =~= s@.subrange(0, i + 1));
            assert((old(out)@ + s@.subrange(0, i as int)).push(s@[i as int]) =~= old(out)@
                + s@.subrange(0, i + 1));
        }
        i = i + 1;
    }
    proof {
        assert(s@.subrange(0, n as int) =~= s@);
    }
}

/// Appends the escaped body of `s` to `out`.
fn push_esc(out: &mut Vec<char>, s: &str)
    ensures
        final(out)@ == old(out)@ + esc(s@),
{
    let n = s.unicode_len();
    let mut i: usize = 0;
    while i < n
        invariant
            n == s@.len(),
            i <= n,
            out@ == old(out)@ + esc(s@.subrange(0, i as int)),
        decreases n - i,
    {
        let ghost pre = out@;
        let c = s.get_char(i);
        if c == '"' {
            out.push('\\');
            out.push('"');
        } else if c == '\\' {
            out.push('\\');
            out.push('\\');
        } else if c == '\n' {
            out.push('\\');
            out.push('n');
        } else if c == '\r' {
            out.push('\\');
            out.push('r');
        } else if c == '\t' {
            out.push('\\');
            out.push('t');
        } else {
            out.push(c);
        }
        proof {
            assert(out@ =~= pre + esc_char(c));
            let p = s@.subrange(0, i as int);
            let q = s@.subrange(0, i + 1);
            assert(q.drop_last() =~= p);
            assert(q.last() == c);
            assert(esc(q) == esc(p) + esc_char(c));
            assert(out@ =~= old(out)@ + esc(q));
        }
        i = i + 1;
    }
    proof {
        assert(s@.subrange(0, n as int) =~= s@);
    }
}

/// The decimal digit character for `d`.
fn digit_of(d: u64) -> (c: char)
    requires
        d < 10,
    ensures
        c == digit_char(d as int),
{
    if d == 0 { '0' }
    else if d == 1 { '1' }
    else if d == 2 { '2' }
    else if d == 3 { '3' }
    else if d == 4 { '4' }
    else if d == 5 { '5' }
    else if d == 6 { '6' }
    else if d == 7 { '7' }
    else if d == 8 { '8' }
    else { '9' }
}

/// Appends the decimal numeral of `n` to `out`.
fn push_u64(out: &mut Vec<char>, n: u64)
    ensures
        final(out)@ == old(out)@ + enc_nat(n as int),
    decreases n,
{
    if n < 10 {
        out.push(digit_of(n));
        proof {
            assert(old(out)@.push(digit_char(n as int)) =~= old(out)@ + enc_nat(n as int));
        }
    } else {
        push_u64(out, n / 10);
        out.push(digit_of(n % 10));
        proof {
            assert((old(out)@ + enc_nat((n / 10) as int)).push(digit_char((n % 10) as int))
                =~= old(out)@ + enc_nat(n as int));
        }
    }
}

/// Appends the decimal numeral of a signed value to `out`.
fn push_i64(out: &mut Vec<char>, n: i64)
    ensures
        final(out)@ == old(out)@ + enc_i64(n),
{
    if n >= 0 {
        push_u64(out, n as u64);
    } else {
        out.push('-');
        let m: u64 = (-(n as i128)) as u64;
        push_u64(out, m);
        proof {
            assert(old(out)@.push('-') + enc_nat(m as int) =~= old(out)@ + (seq!['-'] + enc_nat(
                -(n as int))));
        }
    }
}

/// `enc_samples` over a list extended by one more lexeme.
proof fn lemma_enc_samples_push(ls: Seq<Seq<char>>, x: Seq<char>)
    ensures
        enc_samples(ls.push(x)) == if ls.len() == 0 { x } else {
            enc_samples(ls) + seq![','] + x
        },
    decreases ls.len(),
{
    let e = ls.push(x);
    if ls.len() == 0 {
        assert(e.len() == 1);
        assert(e[0] == x);
    } else if ls.len() == 1 {
        assert(e.len() == 2);
        assert(e.drop_first() =~= seq![x]);
        assert(enc_samples(seq![x]) == x);
        assert(enc_samples(ls) == ls[0]);
        assert(e[0] + seq![','] + x =~= ls[0] + seq![','] + x);
    } else {
        assert(e.drop_first() =~= ls.drop_first().push(x));
        lemma_enc_samples_push(ls.drop_first(), x);
        assert(enc_samples(e) == e[0] + seq![','] + enc_samples(e.drop_first()));
        assert(enc_samples(ls) == ls[0] + seq![','] + enc_samples(ls.drop_first()));
        assert(ls[0] + seq![','] + (enc_samples(ls.drop_first()) + seq![','] + x) =~= (ls[0]
            + seq![','] + enc_samples(ls.drop_first())) + seq![','] + x);
    }
}

/// Appends the comma-joined sample lexemes to `out`.
fn push_samples(out: &mut Vec<char>, data: &Vec<String>)
    ensures
        final(out)@ == old(out)@ + enc_samples(views_of(data@)),
{
    let ghost vs = views_of(data@);
    let n = data.len();
    if n == 0 {
        return ;
    }
    push_str_chars(out, data[0].as_str());
    proof {
        assert(vs.subrange(0, 1) =~= seq![vs[0]]);
        assert(enc_samples(seq![vs[0]]) == vs[0]);
        assert(vs[0] == data@[0]@);
    }
    let mut i: usize = 1;
    while i < n
        invariant
            n == data@.len(),
            vs == views_of(data@),
            vs.len() == n,
            1 <= i <= n,
            out@ == old(out)@ + enc_samples(vs.subrange(0, i as int)),
        decreases n - i,
    {
        let ghost pre = out@;
        out.push(',');
        push_str_chars(out, data[i].as_str());
        proof {
            let p = vs.subrange(0, i as int);
            let q = vs.subrange(0, i + 1);
            assert(vs[i as int] == data@[i as int]@);
            assert(out@ =~= pre + seq![','] + vs[i as int]);
            lemma_enc_samples_push(p, vs[i as int]);
            assert(p.push(vs[i as int]) =~= q);
            assert(p.len() >= 1);
            assert(out@ =~= old(out)@ + enc_samples(q));
        }
        i = i + 1;
    }
    proof {
        assert(vs.subrange(0, n as int) =~= vs);
    }
}

/// Encode a request as its canonical wire line (without the newline).
pub fn encode_request(req: &Request) -> (r: String)
    ensures
        r@ == enc_request(req@),
{
    let mut out: Vec<char> = Vec::new();
    push_str_chars(&mut out, "{\"uuid\":\"");
    push_esc(&mut out, req.uuid.as_str());
    push_str_chars(&mut out, "\"");
    push_str_chars(&mut out, ",\"rtc_unix\":");
    match &req.rtc_unix {
        None => push_str_chars(&mut out, "null"),
        Some(n) => push_i64(&mut out, *n),
    }
    push_str_chars(&mut out, ",\"data\":{\"type\":\"");
    match &req.data {
        RequestData::Startup { dev_type } => {
            push_str_chars(&mut out, "Startup\",\"dev_type\":\"");
            push_esc(&mut out, dev_type.as_str());
            push_str_chars(&mut out, "\"}}");
        },
        RequestData::KeepAlive => {
            push_str_chars(&mut out, "KeepAlive\"}}");
        },
        RequestData::Transmit { channel, data } => {
            push_str_chars(&mut out, "Transmit\",\"channel\":\"");
            push_esc(&mut out, channel.as_str());
            push_str_chars(&mut out, "\"");
            push_str_chars(&mut out, ",\"data\":[");
            push_samples(&mut out, data);
            push_str_chars(&mut out, "]}}");
        },
    }
    proof {
        assert(out@ =~= enc_request(req@));
    }
    string_of_chars(&out)
}

/// Encode a response as its canonical wire line (without the newline).
pub fn encode_response(resp: &Response) -> (r: String)
    ensures
        r@ == enc_response(resp@),
{
    let mut out: Vec<char> = Vec::new();
    push_str_chars(&mut out, "{\"success\":");
    if resp.success {
        push_str_chars(&mut out, "true");
    } else {
        push_str_chars(&mut out, "false");
    }
    push_str_chars(&mut out, ",\"rtc_unix\":");
    push_i64(&mut out, resp.rtc_unix);
    push_str_chars(&mut out, ",\"data\":{\"type\":\"");
    match &resp.data {
        ResponseData::Failure { value } => {
            push_str_chars(&mut out, "Err\",\"value\":\"");
            push_esc(&mut out, value.as_str());
            push_str_chars(&mut out, "\"}}");
        },
        ResponseData::Configure { sensor_interval } => {
            push_str_chars(&mut out, "Configure\",\"sensor_interval\":");
            push_u64(&mut out, *sensor_interval);
            push_str_chars(&mut out, "}}");
        },
        ResponseData::KeepAliveConfirm => {
            push_str_chars(&mut out, "KeepAliveConfirm\"}}");
        },
        ResponseData::Transmit { channel, data } => {
            push_str_chars(&mut out, "Transmit\",\"channel\":\"");
            push_esc(&mut out, channel.as_str());
            push_str_chars(&mut out, "\"");
            push_str_chars(&mut out, ",\"data\":[");
            push_samples(&mut out, data);
            push_str_chars(&mut out, "]}}");
        },
    }
    proof {
        assert(out@ =~= enc_response(resp@));
    }
    string_of_chars(&out)
}

// ===================================================================== //
// Executable decoding
// ===================================================================== //

/// The unconsumed suffix of a line, from position `i`.
pub open spec fn sfx(s: Seq<char>, i: int) -> Seq<char> {
    s.subrange(i, s.len() as int)
}

/// Consume an exact literal.
fn x_lit(v: &Vec<char>, i: usize, lit: &Vec<char>) -> (r: Option<usize>)
    requires
        i <= v@.len(),
    ensures
        match r {
            Some(j) => i <= j <= v@.len() && j == i + lit@.len() && p_lit(
                sfx(v@, i as int),
                lit@,
            ) == Some(sfx(v@, j as int)),
            None => p_lit(sfx(v@, i as int), lit@) is None,
        },
{
    if v.len() - i < lit.len() {
        return None;
    }
    let mut k: usize = 0;
    while k < lit.len()
        invariant
            i + lit@.len() <= v@.len(),
            v@.len() <= usize::MAX,
            k <= lit@.len(),
            forall|m: int| 0 <= m < k ==> v@[i + m] == lit@[m],
        decreases lit@.len() - k,
    {
        if v[i + k] != lit[k] {
            proof {
                let s = sfx(v@, i as int);
                assert(s.subrange(0, lit@.len() as int)[k as int] == v@[i + k]);
                assert(s.subrange(0, lit@.len() as int) != lit@);
            }
            return None;
        }
        k = k + 1;
    }
    proof {
        let s = sfx(v@, i as int);
        assert(s.subrange(0, lit@.len() as int) =~= lit@);
        assert(s.subrange(lit@.len() as int, s.len() as int) =~= sfx(v@, i + lit@.len()));
    }
    Some(i + lit.len())
}

/// Consume a string body up to and including its closing quote.
fn x_string(v: &Vec<char>, i: usize) -> (r: Option<(String, usize)>)
    requires
        i <= v@.len(),
    ensures
        match r {
            Some(s_j) => i <= s_j.1 <= v@.len() && p_string(sfx(v@, i as int)) == Some(
                (s_j.0@, sfx(v@, s_j.1 as int)),
            ),
            None => p_string(sfx(v@, i as int)) is None,
        },
{
    let mut acc = String::new();
    let mut j: usize = i;
    proof {
        if p_string(sfx(v@, i as int)) is Some {
            let t_r = p_string(sfx(v@, i as int))->0;
            assert(Seq::<char>::empty() + t_r.0 =~= t_r.0);
        }
    }
    loop
        invariant
            i <= j <= v@.len(),
            match p_string(sfx(v@, j as int)) {
                Some(t_r) => p_string(sfx(v@, i as int)) == Some((acc@ + t_r.0, t_r.1)),
                None => p_string(sfx(v@, i as int)) is None,
            },
        decreases v@.len() - j,
    {
        if j == v.len() {
            proof {
                assert(sfx(v@, j as int).len() == 0);
            }
            return None;
        }
        let ghost s = sfx(v@, j as int);
        proof {
            assert(s.len() == v@.len() - j);
            assert(s[0] == v@[j as int]);
        }
        let c = v[j];
        if c == '"' {
            proof {
                assert(s.drop_first() =~= sfx(v@, j + 1));
                assert(p_string(s) == Some((Seq::<char>::empty(), sfx(v@, j + 1))));
                let t_r = p_string(s)->0;
                assert(acc@ + t_r.0 =~= acc@);
            }
            return Some((acc, j + 1));
        } else if c == '\\' {
            if j + 1 == v.len() {
                proof {
                    assert(s.len() < 2);
                }
                return None;
            }
            let e = v[j + 1];
            proof {
                assert(s[1] == e);
            }
            if e == '"' || e == '\\' || e == 'n' || e == 'r' || e == 't' {
                let c2: char = if e == '"' { '"' } else if e == '\\' { '\\' } else if e == 'n' {
                    '\n'
                } else if e == 'r' { '\r' } else { '\t' };
                proof {
                    assert(unesc_char(e) == Some(c2));
                }
                let ghost acc0 = acc@;
                push_char(&mut acc, c2);
                proof {
                    assert(s.subrange(2, s.len() as int) =~= sfx(v@, j + 2));
                    if p_string(sfx(v@, j + 2)) is Some {
                        let t_r = p_string(sfx(v@, j + 2))->0;
                        assert(p_string(s) == Some((seq![c2] + t_r.0, t_r.1)));
                        assert(acc0 + (seq![c2] + t_r.0) =~= acc@ + t_r.0);
                    } else {
                        assert(p_string(s) is None);
                    }
                }
                j = j + 2;
            } else {
                proof {
                    assert(unesc_char(e) is None);
                }
                return None;
            }
        } else if (c as u32) >= 0x20 {
            let ghost acc0 = acc@;
            push_char(&mut acc, c);
            proof {
                assert(plain_char(c));
                assert(s.drop_first() =~= sfx(v@, j + 1));
                if p_string(sfx(v@, j + 1)) is Some {
                    let t_r = p_string(sfx(v@, j + 1))->0;
                    assert(p_string(s) == Some((seq![c] + t_r.0, t_r.1)));
                    assert(acc0 + (seq![c] + t_r.0) =~= acc@ + t_r.0);
                } else {
                    assert(p_string(s) is None);
                }
            }
            j = j + 1;
        } else {
            proof {
                assert(!plain_char(s[0]) && s[0] != '"' && s[0] != '\\');
            }
            return None;
        }
    }
}

/// A maximal digit run parses as exactly that run.
proof fn lemma_p_digits_run(s: Seq<char>, k: int)
    requires
        1 <= k <= s.len(),
        forall|m: int| 0 <= m < k ==> is_digit(s[m]),
        k < s.len() ==> !is_digit(s[k]),
    ensures
        p_digits(s) == Some((s.subrange(0, k), sfx(s, k))),
    decreases k,
{
    if k == 1 {
        assert(seq![s[0]] =~= s.subrange(0, 1));
        assert(s.drop_first() =~= sfx(s, 1));
    } else {
        let t = s.drop_first();
        assert(forall|m: int| 0 <= m < k - 1 ==> is_digit(#[trigger] t[m]));
        assert(k - 1 < t.len() ==> !is_digit(t[k - 1]));
        lemma_p_digits_run(t, k - 1);
        assert(seq![s[0]] + t.subrange(0, k - 1) =~= s.subrange(0, k));
        assert(sfx(t, k - 1) =~= sfx(s, k));
    }
}

/// A maximal lexeme-character run parses as exactly that run.
proof fn lemma_p_lexeme_run(s: Seq<char>, k: int)
    requires
        1 <= k <= s.len(),
        forall|m: int| 0 <= m < k ==> sample_char(s[m]),
        k < s.len() ==> !sample_char(s[k]),
    ensures
        p_lexeme(s) == Some((s.subrange(0, k), sfx(s, k))),
    decreases k,
{
    if k == 1 {
        assert(seq![s[0]] =~= s.subrange(0, 1));
        assert(s.drop_first() =~= sfx(s, 1));
    } else {
        let t = s.drop_first();
        assert(forall|m: int| 0 <= m < k - 1 ==> sample_char(#[trigger] t[m]));
        assert(k - 1 < t.len() ==> !sample_char(t[k - 1]));
        lemma_p_lexeme_run(t, k - 1);
        assert(seq![s[0]] + t.subrange(0, k - 1) =~= s.subrange(0, k));
        assert(sfx(t, k - 1) =~= sfx(s, k));
    }
}

proof fn lemma_pow10_mono(a: nat, b: nat)
    requires
        a <= b,
    ensures
        pow10(a) <= pow10(b),
    decreases b,
{
    if a < b {
        lemma_pow10_mono(a, (b - 1) as nat);
        assert(pow10((b - 1) as nat) >= 1) by {
            lemma_pow10_pos((b - 1) as nat);
        }
    }
}

proof fn lemma_pow10_pos(k: nat)
    ensures
        pow10(k) >= 1,
    decreases k,
{
    if k > 0 {
        lemma_pow10_pos((k - 1) as nat);
    }
}

/// The value of a digit run is bounded by a power of ten.
proof fn lemma_digits_val_bound(ds: Seq<char>)
    requires
        forall|m: int| 0 <= m < ds.len() ==> is_digit(ds[m]),
    ensures
        0 <= digits_val(ds) < pow10(ds.len() as nat),
    decreases ds.len(),
{
    if ds.len() == 0 {
    } else {
        let p = ds.drop_last();
        assert(forall|m: int| 0 <= m < p.len() ==> is_digit(#[trigger] p[m]));
        lemma_digits_val_bound(p);
        assert(is_digit(ds.last()));
        assert(digit_val(ds.last()) <= 9);
    }
}

/// Position right after the digit run starting at `i`.
fn scan_digits(v: &Vec<char>, i: usize) -> (r: usize)
    requires
        i <= v@.len(),
    ensures
        i <= r <= v@.len(),
        forall|m: int| i <= m < r ==> is_digit(v@[m]),
        r < v@.len() ==> !is_digit(v@[r as int]),
{
    let mut j = i;
    while j < v.len() && (v[j] as u32) >= 48 && (v[j] as u32) <= 57
        invariant
            i <= j <= v@.len(),
            forall|m: int| i <= m < j ==> is_digit(v@[m]),
        decreases v@.len() - j,
    {
        proof {
            assert('0' as u32 == 48 && '9' as u32 == 57);
        }
        j = j + 1;
    }
    proof {
        assert('0' as u32 == 48 && '9' as u32 == 57);
    }
    j
}

/// Fold the digit run `[i, end)` into its value.
fn digits_value(v: &Vec<char>, i: usize, end: usize) -> (r: u128)
    requires
        i <= end <= v@.len(),
        end - i <= 20,
        forall|m: int| i <= m < end ==> is_digit(v@[m]),
    ensures
        r == digits_val(v@.subrange(i as int, end as int)),
{
    let mut acc: u128 = 0;
    let mut m = i;
    while m < end
        invariant
            i <= m <= end,
            end <= v@.len(),
            end - i <= 20,
            forall|t: int| i <= t < end ==> is_digit(v@[t]),
            acc == digits_val(v@.subrange(i as int, m as int)),
        decreases end - m,
    {
        proof {
            let p = v@.subrange(i as int, m as int);
            assert(forall|t: int| 0 <= t < p.len() ==> is_digit(#[trigger] p[t]));
            lemma_digits_val_bound(p);
            lemma_pow10_mono(p.len() as nat, 20);
            reveal_with_fuel(pow10, 21);
            assert(pow10(20) == 100000000000000000000);
        }
        let d = (v[m] as u32) - 48;
        proof {
            assert('0' as u32 == 48);
            assert(d == digit_val(v@[m as int]));
            assert(d <= 9);
        }
        acc = acc * 10 + (d as u128);
        proof {
            let q = v@.subrange(i as int, m + 1);
            assert(q.drop_last() =~= v@.subrange(i as int, m as int));
            assert(q.last() == v@[m as int]);
        }
        m = m + 1;
    }
    acc
}

/// Consume an unsigned decimal number.
fn x_u64(v: &Vec<char>, i: usize) -> (r: Option<(u64, usize)>)
    requires
        i <= v@.len(),
    ensures
        match r {
            Some(n_j) => i <= n_j.1 <= v@.len() && p_u64(sfx(v@, i as int)) == Some(
                (n_j.0, sfx(v@, n_j.1 as int)),
            ),
            None => p_u64(sfx(v@, i as int)) is None,
        },
{
    let ghost s = sfx(v@, i as int);
    let end = scan_digits(v, i);
    if end == i {
        proof {
            if s.len() > 0 {
                assert(s[0] == v@[i as int]);
                assert(!is_digit(s[0]));
            }
        }
        return None;
    }
    proof {
        assert(forall|m: int| 0 <= m < end - i ==> is_digit(#[trigger] s[m]));
        assert(end - i < s.len() ==> !is_digit(s[end - i]));
        lemma_p_digits_run(s, end - i);
        assert(s.subrange(0, end - i) =~= v@.subrange(i as int, end as int));
        assert(sfx(s, end - i) =~= sfx(v@, end as int));
    }
    if end - i > 20 {
        return None;
    }
    let val = digits_value(v, i, end);
    if val > u64::MAX as u128 {
        None
    } else {
        Some((val as u64, end))
    }
}

/// Consume a signed decimal number.
fn x_i64(v: &Vec<char>, i: usize) -> (r: Option<(i64, usize)>)
    requires
        i <= v@.len(),
    ensures
        match r {
            Some(n_j) => i <= n_j.1 <= v@.len() && p_i64(sfx(v@, i as int)) == Some(
                (n_j.0, sfx(v@, n_j.1 as int)),
            ),
            None => p_i64(sfx(v@, i as int)) is None,
        },
{
    let ghost s = sfx(v@, i as int);
    if i < v.len() && v[i] == '-' {
        proof {
            assert(s[0] == '-');
            assert(s.drop_first() =~= sfx(v@, i + 1));
        }
        let ghost t = sfx(v@, i + 1);
        let end = scan_digits(v, i + 1);
        if end == i + 1 {
            proof {
                if t.len() > 0 {
                    assert(t[0] == v@[i + 1]);
                    assert(!is_digit(t[0]));
                }
            }
            return None;
        }
        proof {
            assert(forall|m: int| 0 <= m < end - (i + 1) ==> is_digit(#[trigger] t[m]));
            assert(end - (i + 1) < t.len() ==> !is_digit(t[end - (i + 1)]));
            lemma_p_digits_run(t, end - (i + 1));
            assert(t.subrange(0, end - (i + 1)) =~= v@.subrange(i + 1, end as int));
            assert(sfx(t, end - (i + 1)) =~= sfx(v@, end as int));
        }
        if end - (i + 1) > 20 {
            return None;
        }
        let val = digits_value(v, i + 1, end);
        if val > 0x8000000000000000u128 {
            None
        } else {
            let n: i64 = (-(val as i128)) as i64;
            Some((n, end))
        }
    } else {
        proof {
            if s.len() > 0 {
                assert(s[0] == v@[i as int]);
            }
        }
        let end = scan_digits(v, i);
        if end == i {
            proof {
                if s.len() > 0 {
                    assert(!is_digit(s[0]));
                }
            }
            return None;
        }
        proof {
            assert(forall|m: int| 0 <= m < end - i ==> is_digit(#[trigger] s[m]));
            assert(end - i < s.len() ==> !is_digit(s[end - i]));
            lemma_p_digits_run(s, end - i);
            assert(s.subrange(0, end - i) =~= v@.subrange(i as int, end as int));
            assert(sfx(s, end - i) =~= sfx(v@, end as int));
        }
        if end - i > 20 {
            return None;
        }
        let val = digits_value(v, i, end);
        if val > i64::MAX as u128 {
            None
        } else {
            Some((val as i64, end))
        }
    }
}

/// Consume the optional `rtc_unix` field.
fn x_rtc_field(v: &Vec<char>, i: usize) -> (r: Option<(Option<i64>, usize)>)
    requires
        i <= v@.len(),
    ensures
        match r {
            Some(o_j) => i <= o_j.1 <= v@.len() && p_rtc_field(sfx(v@, i as int)) == Some(
                (o_j.0, sfx(v@, o_j.1 as int)),
            ),
            None => p_rtc_field(sfx(v@, i as int)) is None,
        },
{
    let lit = chars_of_str(",\"rtc_unix\":");
    match x_lit(v, i, &lit) {
        None => Some((None, i)),
        Some(j) => {
            let nul = chars_of_str("null");
            match x_lit(v, j, &nul) {
                Some(j2) => Some((None, j2)),
                None => match x_i64(v, j) {
                    Some(n_j) => Some((Some(n_j.0), n_j.1)),
                    None => None,
                },
            }
        },
    }
}

/// Whether `c` may form part of a sample's number lexeme.
fn is_sample(c: char) -> (r: bool)
    ensures
        r == sample_char(c),
{
    let cu = c as u32;
    proof {
        assert('0' as u32 == 48 && '9' as u32 == 57);
    }
    (cu >= 48 && cu <= 57) || c == '-' || c == '+' || c == '.' || c == 'e' || c == 'E'
}

/// Consume a sample lexeme as a string.
fn x_lexeme(v: &Vec<char>, i: usize) -> (r: Option<(String, usize)>)
    requires
        i <= v@.len(),
    ensures
        match r {
            Some(s_j) => i < s_j.1 <= v@.len() && p_lexeme(sfx(v@, i as int)) == Some(
                (s_j.0@, sfx(v@, s_j.1 as int)),
            ),
            None => p_lexeme(sfx(v@, i as int)) is None,
        },
{
    let ghost s = sfx(v@, i as int);
    let mut j = i;
    while j < v.len() && is_sample(v[j])
        invariant
            i <= j <= v@.len(),
            forall|m: int| i <= m < j ==> sample_char(v@[m]),
        decreases v@.len() - j,
    {
        j = j + 1;
    }
    proof {
        assert('0' as u32 == 48 && '9' as u32 == 57);
        assert(j < v@.len() ==> !sample_char(v@[j as int]));
    }
    if j == i {
        proof {
            if s.len() > 0 {
                assert(s[0] == v@[i as int]);
                assert(!sample_char(s[0]));
            }
        }
        return None;
    }
    proof {
        assert(forall|m: int| 0 <= m < j - i ==> sample_char(#[trigger] s[m]));
        assert(j - i < s.len() ==> !sample_char(s[j - i]));
        lemma_p_lexeme_run(s, j - i);
        assert(s.subrange(0, j - i) =~= v@.subrange(i as int, j as int));
        assert(sfx(s, j - i) =~= sfx(v@, j as int));
    }
    let mut acc = String::new();
    let mut m = i;
    while m < j
        invariant
            i <= m <= j <= v@.len(),
            acc@ == v@.subrange(i as int, m as int),
        decreases j - m,
    {
        push_char(&mut acc, v[m]);
        proof {
            assert(v@.subrange(i as int, m as int).push(v@[m as int]) =~= v@.subrange(
                i as int,
                m + 1,
            ));
        }
        m = m + 1;
    }
    Some((acc, j))
}

/// Consume a sample list up to and including the closing bracket.
fn x_samples(v: &Vec<char>, i: usize) -> (r: Option<(Vec<String>, usize)>)
    requires
        i <= v@.len(),
    ensures
        match r {
            Some(ls_j) => i <= ls_j.1 <= v@.len() && p_samples(sfx(v@, i as int)) == Some(
                (views_of(ls_j.0@), sfx(v@, ls_j.1 as int)),
            ),
            None => p_samples(sfx(v@, i as int)) is None,
        },
{
    if i < v.len() && v[i] == ']' {
        let empty: Vec<String> = Vec::new();
        proof {
            let s = sfx(v@, i as int);
            assert(s[0] == ']');
            assert(s.drop_first() =~= sfx(v@, i + 1));
            assert(views_of(empty@) =~= Seq::<Seq<char>>::empty());
        }
        return Some((empty, i + 1));
    }
    proof {
        let s = sfx(v@, i as int);
        if s.len() > 0 {
            assert(s[0] == v@[i as int]);
        }
        assert(p_samples(s) == p_samples_ne(s));
    }
    let mut acc: Vec<String> = Vec::new();
    let mut j = i;
    proof {
        if p_samples_ne(sfx(v@, i as int)) is Some {
            let ls_r = p_samples_ne(sfx(v@, i as int))->0;
            assert(views_of(acc@) + ls_r.0 =~= ls_r.0);
        }
    }
    loop
        invariant
            i <= j <= v@.len(),
            p_samples(sfx(v@, i as int)) == p_samples_ne(sfx(v@, i as int)),
            match p_samples_ne(sfx(v@, j as int)) {
                Some(ls_r) => p_samples_ne(sfx(v@, i as int)) == Some(
                    (views_of(acc@) + ls_r.0, ls_r.1),
                ),
                None => p_samples_ne(sfx(v@, i as int)) is None,
            },
        decreases v@.len() - j,
    {
        let ghost s = sfx(v@, j as int);
        let lex_j = match x_lexeme(v, j) {
            Some(p) => p,
            None => {
                return None;
            },
        };
        let lex = lex_j.0;
        let j2 = lex_j.1;
        proof {
            assert(sfx(v@, j2 as int).len() == v@.len() - j2);
        }
        if j2 == v.len() {
            proof {
                let l_r = p_lexeme(s)->0;
                assert(l_r.1.len() == 0);
            }
            return None;
        }
        let c = v[j2];
        proof {
            let l_r = p_lexeme(s)->0;
            assert(l_r.1 == sfx(v@, j2 as int));
            assert(l_r.1[0] == c);
        }
        if c == ']' {
            let ghost acc0 = acc@;
            acc.push(lex);
            proof {
                let l_r = p_lexeme(s)->0;
                assert(l_r.1.drop_first() =~= sfx(v@, j2 + 1));
                assert(p_samples_ne(s) == Some((seq![lex@], sfx(v@, j2 + 1))));
                assert(views_of(acc@) =~= views_of(acc0) + seq![lex@]);
            }
            return Some((acc, j2 + 1));
        } else if c == ',' {
            let ghost acc0 = acc@;
            acc.push(lex);
            proof {
                let l_r = p_lexeme(s)->0;
                assert(l_r.1.drop_first() =~= sfx(v@, j2 + 1));
                if p_samples_ne(sfx(v@, j2 + 1)) is Some {
                    let ls_r = p_samples_ne(sfx(v@, j2 + 1))->0;
                    assert(p_samples_ne(s) == Some((seq![lex@] + ls_r.0, ls_r.1)));
                    assert(views_of(acc0) + (seq![lex@] + ls_r.0) =~= views_of(acc@) + ls_r.0);
                } else {
                    assert(p_samples_ne(s) is None);
                }
            }
            j = j2 + 1;
        } else {
            proof {
                let l_r = p_lexeme(s)->0;
                assert(l_r.1[0] != ']' && l_r.1[0] != ',' && l_r.1.len() > 0);
            }
            return None;
        }
    }
}

/// Decode a request line; accepts exactly the grammar of `dec_request`.
#[verifier::rlimit(50)]
pub fn decode_request(line: &str) -> (r: Result<Request, ProtocolError>)
    ensures
        match dec_request(line@) {
            Some(rv) => r is Ok && r->Ok_0@ == rv,
            None => r is Err,
        },
{
    let v = chars_of_str(line);
    proof {
        assert(sfx(v@, 0) =~= line@);
    }
    let l_open = chars_of_str("{\"uuid\":\"");
    let i1 = match x_lit(&v, 0, &l_open) {
        Some(j) => j,
        None => {
            return Err(ProtocolError);
        },
    };
    let uuid_i2 = match x_string(&v, i1) {
        Some(p) => p,
        None => {
            return Err(ProtocolError);
        },
    };
    let rtc_i3 = match x_rtc_field(&v, uuid_i2.1) {
        Some(p) => p,
        None => {
            return Err(ProtocolError);
        },
    };
    let l_data = chars_of_str(",\"data\":{\"type\":\"");
    let i4 = match x_lit(&v, rtc_i3.1, &l_data) {
        Some(j) => j,
        None => {
            return Err(ProtocolError);
        },
    };
    let l_startup = chars_of_str("Startup\",\"dev_type\":\"");
    let l_keepalive = chars_of_str("KeepAlive\"}}");
    let l_transmit = chars_of_str("Transmit\",\"channel\":\"");
    let l_arr = chars_of_str(",\"data\":[");
    let l_end = chars_of_str("}}");
    match x_lit(&v, i4, &l_startup) {
        Some(i5) => {
            let dt_i6 = match x_string(&v, i5) {
                Some(p) => p,
                None => {
                    return Err(ProtocolError);
                },
            };
            let i7 = match x_lit(&v, dt_i6.1, &l_end) {
                Some(j) => j,
                None => {
                    return Err(ProtocolError);
                },
            };
            if i7 != v.len() {
                return Err(ProtocolError);
            }
            let req = Request {
                uuid: uuid_i2.0,
                rtc_unix: rtc_i3.0,
                data: RequestData::Startup { dev_type: dt_i6.0 },
            };
            proof {
                assert(sfx(v@, i7 as int).len() == 0);
                assert(dec_request(line@) == Some(req@));
            }
            Ok(req)
        },
        None => match x_lit(&v, i4, &l_keepalive) {
            Some(i5) => {
                if i5 != v.len() {
                    return Err(ProtocolError);
                }
                let req = Request {
                    uuid: uuid_i2.0,
                    rtc_unix: rtc_i3.0,
                    data: RequestData::KeepAlive,
                };
                proof {
                    assert(sfx(v@, i5 as int).len() == 0);
                    assert(dec_request(line@) == Some(req@));
                }
                Ok(req)
            },
            None => match x_lit(&v, i4, &l_transmit) {
                Some(i5) => {
                    let ch_i6 = match x_string(&v, i5) {
                        Some(p) => p,
                        None => {
                            return Err(ProtocolError);
                        },
                    };
                    let i7 = match x_lit(&v, ch_i6.1, &l_arr) {
                        Some(j) => j,
                        None => {
                            return Err(ProtocolError);
                        },
                    };
                    let ls_i8 = match x_samples(&v, i7) {
                        Some(p) => p,
                        None => {
                            return Err(ProtocolError);
                        },
                    };
                    let i9 = match x_lit(&v, ls_i8.1, &l_end) {
                        Some(j) => j,
                        None => {
                            return Err(ProtocolError);
                        },
                    };
                    if i9 != v.len() {
                        return Err(ProtocolError);
                    }
                    let req = Request {
                        uuid: uuid_i2.0,
                        rtc_unix: rtc_i3.0,
                        data: RequestData::Transmit { channel: ch_i6.0, data: ls_i8.0 },
                    };
                    proof {
                        assert(sfx(v@, i9 as int).len() == 0);
                        assert(dec_request(line@) == Some(req@));
                    }
                    Ok(req)
                },
                None => Err(ProtocolError),
            },
        },
    }
}

/// Decode a response line; accepts exactly the grammar of
/// `dec_response`.
#[verifier::rlimit(50)]
pub fn decode_response(line: &str) -> (r: Result<Response, ProtocolError>)
    ensures
        match dec_response(line@) {
            Some(rv) => r is Ok && r->Ok_0@ == rv,
            None => r is Err,
        },
{
    let v = chars_of_str(line);
    proof {
        assert(sfx(v@, 0) =~= line@);
    }
    let l_open = chars_of_str("{\"success\":");
    let i1 = match x_lit(&v, 0, &l_open) {
        Some(j) => j,
        None => {
            return Err(ProtocolError);
        },
    };
    let l_true = chars_of_str("true");
    let l_false = chars_of_str("false");
    let succ_i2 = match x_lit(&v, i1, &l_true) {
        Some(j) => (true, j),
        None => match x_lit(&v, i1, &l_false) {
            Some(j) => (false, j),
            None => {
                return Err(ProtocolError);
            },
        },
    };
    let l_rtc = chars_of_str(",\"rtc_unix\":");
    let i3 = match x_lit(&v, succ_i2.1, &l_rtc) {
        Some(j) => j,
        None => {
            return Err(ProtocolError);
        },
    };
    let t_i4 = match x_i64(&v, i3) {
        Some(p) => p,
        None => {
            return Err(ProtocolError);
        },
    };
    let l_data = chars_of_str(",\"data\":{\"type\":\"");
    let i5 = match x_lit(&v, t_i4.1, &l_data) {
        Some(j) => j,
        None => {
            return Err(ProtocolError);
        },
    };
    let l_err = chars_of_str("Err\",\"value\":\"");
    let l_conf = chars_of_str("Configure\",\"sensor_interval\":");
    let l_kac = chars_of_str("KeepAliveConfirm\"}}");
    let l_transmit = chars_of_str("Transmit\",\"channel\":\"");
    let l_arr = chars_of_str(",\"data\":[");
    let l_end = chars_of_str("}}");
    match x_lit(&v, i5, &l_err) {
        Some(i6) => {
            let val_i7 = match x_string(&v, i6) {
                Some(p) => p,
                None => {
                    return Err(ProtocolError);
                },
            };
            let i8 = match x_lit(&v, val_i7.1, &l_end) {
                Some(j) => j,
                None => {
                    return Err(ProtocolError);
                },
            };
            if i8 != v.len() {
                return Err(ProtocolError);
            }
            let resp = Response {
                success: succ_i2.0,
                rtc_unix: t_i4.0,
                data: ResponseData::Failure { value: val_i7.0 },
            };
            proof {
                assert(sfx(v@, i8 as int).len() == 0);
                assert(dec_response(line@) == Some(resp@));
            }
            Ok(resp)
        },
        None => match x_lit(&v, i5, &l_conf) {
            Some(i6) => {
                let n_i7 = match x_u64(&v, i6) {
                    Some(p) => p,
                    None => {
                        return Err(ProtocolError);
                    },
                };
                let i8 = match x_lit(&v, n_i7.1, &l_end) {
                    Some(j) => j,
                    None => {
                        return Err(ProtocolError);
                    },
                };
                if i8 != v.len() {
                    return Err(ProtocolError);
                }
                let resp = Response {
                    success: succ_i2.0,
                    rtc_unix: t_i4.0,
                    data: ResponseData::Configure { sensor_interval: n_i7.0 },
                };
                proof {
                    assert(sfx(v@, i8 as int).len() == 0);
                    assert(dec_response(line@) == Some(resp@));
                }
                Ok(resp)
            },
            None => match x_lit(&v, i5, &l_kac) {
                Some(i6) => {
                    if i6 != v.len() {
                        return Err(ProtocolError);
                    }
                    let resp = Response {
                        success: succ_i2.0,
                        rtc_unix: t_i4.0,
                        data: ResponseData::KeepAliveConfirm,
                    };
                    proof {
                        assert(sfx(v@, i6 as int).len() == 0);
                        assert(dec_response(line@) == Some(resp@));
                    }
                    Ok(resp)
                },
                None => match x_lit(&v, i5, &l_transmit) {
                    Some(i6) => {
                        let ch_i7 = match x_string(&v, i6) {
                            Some(p) => p,
                            None => {
                                return Err(ProtocolError);
                            },
                        };
                        let i8 = match x_lit(&v, ch_i7.1, &l_arr) {
                            Some(j) => j,
                            None => {
                                return Err(ProtocolError);
                            },
                        };
                        let ls_i9 = match x_samples(&v, i8) {
                            Some(p) => p,
                            None => {
                                return Err(ProtocolError);
                            },
                        };
                        let i10 = match x_lit(&v, ls_i9.1, &l_end) {
                            Some(j) => j,
                            None => {
                                return Err(ProtocolError);
                            },
                        };
                        if i10 != v.len() {
                            return Err(ProtocolError);
                        }
                        let resp = Response {
                            success: succ_i2.0,
                            rtc_unix: t_i4.0,
                            data: ResponseData::Transmit { channel: ch_i7.0, data: ls_i9.0 },
                        };
                        proof {
                            assert(sfx(v@, i10 as int).len() == 0);
                            assert(dec_response(line@) == Some(resp@));
                        }
                        Ok(resp)
                    },
                    None => Err(ProtocolError),
                },
            },
        },
    }
}

// ===================================================================== //
// Round trip: parsing a canonical encoding gives back the value
// ===================================================================== //

/// A request the wire form can carry: strings hold only characters the
/// codec can escape, samples are number lexemes.
pub open spec fn req_wf(r: ReqView) -> bool {
    wire_str_ok(r.uuid) && match r.data {
        ReqDataView::Startup { dev_type } => wire_str_ok(dev_type),
        ReqDataView::KeepAlive => true,
        ReqDataView::Transmit { channel, data } => wire_str_ok(channel) && all_lexemes(data),
    }
}

/// A response the wire form can carry.
pub open spec fn resp_wf(r: RespView) -> bool {
    match r.data {
        RespDataView::Failure { value } => wire_str_ok(value),
        RespDataView::Configure { sensor_interval } => true,
        RespDataView::KeepAliveConfirm => true,
        RespDataView::Transmit { channel, data } => wire_str_ok(channel) && all_lexemes(data),
    }
}

/// A literal at the head of the input is consumed exactly.
proof fn lemma_p_lit_pre(lit: Seq<char>, rest: Seq<char>)
    ensures
        p_lit(lit + rest, lit) == Some(rest),
{
    let s = lit + rest;
    assert(s.subrange(0, lit.len() as int) =~= lit);
    assert(s.subrange(lit.len() as int, s.len() as int) =~= rest);
}

/// `esc` also decomposes at the front.
proof fn lemma_esc_first(s: Seq<char>)
    requires
        s.len() > 0,
    ensures
        esc(s) == esc_char(s[0]) + esc(s.drop_first()),
    decreases s.len(),
{
    if s.len() == 1 {
        assert(s.drop_last() =~= Seq::<char>::empty());
        assert(s.drop_first() =~= Seq::<char>::empty());
        assert(Seq::<char>::empty() + esc_char(s.last()) =~= esc_char(s[0]));
        assert(esc_char(s[0]) + Seq::<char>::empty() =~= esc_char(s[0]));
    } else {
        let p = s.drop_last();
        lemma_esc_first(p);
        assert(p.drop_first() =~= s.drop_first().drop_last());
        assert(s.drop_first().last() == s.last());
        assert(p[0] == s[0]);
        assert((esc_char(s[0]) + esc(p.drop_first())) + esc_char(s.last()) =~= esc_char(s[0]) + (
        esc(p.drop_first()) + esc_char(s.last())));
    }
}

/// Unescaping undoes escaping, for every carryable string.
proof fn lemma_p_string_rt(s: Seq<char>, rest: Seq<char>)
    requires
        wire_str_ok(s),
    ensures
        p_string(esc(s) + seq!['"'] + rest) == Some((s, rest)),
    decreases s.len(),
{
    let u = esc(s) + seq!['"'] + rest;
    if s.len() == 0 {
        assert(esc(s) =~= Seq::<char>::empty());
        assert(u =~= seq!['"'] + rest);
        assert(u[0] == '"');
        assert(u.drop_first() =~= rest);
        assert(s =~= Seq::<char>::empty());
    } else {
        let c = s[0];
        let s2 = s.drop_first();
        assert(wire_char_ok(c));
        assert forall|m: int| 0 <= m < s2.len() implies wire_char_ok(#[trigger] s2[m]) by {
            assert(s2[m] == s[m + 1]);
        }
        lemma_esc_first(s);
        let tail = esc(s2) + seq!['"'] + rest;
        lemma_p_string_rt(s2, rest);
        assert(u =~= esc_char(c) + tail);
        if c == '"' || c == '\\' || c == '\n' || c == '\r' || c == '\t' {
            let e = esc_char(c)[1];
            assert(u[0] == '\\');
            assert(u.len() >= 2);
            assert(u[1] == e);
            assert(unesc_char(e) == Some(c));
            assert(u.subrange(2, u.len() as int) =~= tail);
            assert(seq![c] + s2 =~= s);
        } else {
            assert(plain_char(c));
            assert(u[0] == c);
            assert(u.drop_first() =~= tail);
            assert(seq![c] + s2 =~= s);
        }
    }
}

/// Every character of a numeral is a digit.
proof fn lemma_enc_nat_digits(n: int)
    requires
        n >= 0,
    ensures
        enc_nat(n).len() >= 1,
        forall|m: int| 0 <= m < enc_nat(n).len() ==> is_digit(enc_nat(n)[m]),
    decreases n,
{
    if n < 10 {
        assert(is_digit(digit_char(n)));
    } else {
        lemma_enc_nat_digits(n / 10);
        assert(is_digit(digit_char(n % 10)));
        assert(forall|m: int|
            0 <= m < enc_nat(n / 10).len() ==> enc_nat(n)[m] == enc_nat(n / 10)[m]);
    }
}

/// The numeral of `n` has the value `n`.
proof fn lemma_enc_nat_val(n: int)
    requires
        n >= 0,
    ensures
        digits_val(enc_nat(n)) == n,
    decreases n,
{
    if n < 10 {
        assert(enc_nat(n) == seq![digit_char(n)]);
        assert(seq![digit_char(n)].drop_last() =~= Seq::<char>::empty());
        assert(digits_val(Seq::<char>::empty()) == 0);
        assert(digit_val(digit_char(n)) == n);
    } else {
        lemma_enc_nat_val(n / 10);
        let e = enc_nat(n);
        assert(e.len() > 0);
        assert(digits_val(e) == digits_val(e.drop_last()) * 10 + digit_val(e.last()));
        assert(e.drop_last() =~= enc_nat(n / 10));
        assert(e.last() == digit_char(n % 10));
        assert(digit_val(digit_char(n % 10)) == n % 10);
        vstd::arithmetic::div_mod::lemma_fundamental_div_mod(n, 10);
    }
}

/// A value below `pow10(k)` has a numeral of at most `k` digits.
proof fn lemma_enc_nat_len(n: int, k: nat)
    requires
        0 <= n < pow10(k),
        k >= 1,
    ensures
        enc_nat(n).len() <= k,
    decreases n,
{
    if n < 10 {
    } else {
        reveal_with_fuel(pow10, 2);
        assert(k >= 2) by {
            if k == 1 {
                assert(pow10(1) == 10);
            }
        }
        assert(pow10(k) == 10 * pow10((k - 1) as nat));
        vstd::arithmetic::div_mod::lemma_fundamental_div_mod(n, 10);
        assert(n / 10 < pow10((k - 1) as nat)) by {
            if n / 10 >= pow10((k - 1) as nat) {
                assert(10 * (n / 10) >= 10 * pow10((k - 1) as nat));
            }
        }
        lemma_enc_nat_len(n / 10, (k - 1) as nat);
    }
}

/// Parsing the numeral of a `u64` at the head of the input gives the
/// value back.
proof fn lemma_p_u64_rt(n: u64, rest: Seq<char>)
    requires
        rest.len() > 0,
        !is_digit(rest[0]),
    ensures
        p_u64(enc_nat(n as int) + rest) == Some((n, rest)),
{
    let ds = enc_nat(n as int);
    lemma_enc_nat_digits(n as int);
    lemma_enc_nat_val(n as int);
    reveal_with_fuel(pow10, 22);
    assert(pow10(20) == 100000000000000000000);
    lemma_enc_nat_len(n as int, 20);
    let s = ds + rest;
    assert forall|m: int| 0 <= m < ds.len() implies is_digit(#[trigger] s[m]) by {
        assert(s[m] == ds[m]);
    }
    assert(s[ds.len() as int] == rest[0]);
    lemma_p_digits_run(s, ds.len() as int);
    assert(s.subrange(0, ds.len() as int) =~= ds);
    assert(sfx(s, ds.len() as int) =~= rest);
}

/// Parsing the numeral of an `i64` at the head of the input gives the
/// value back.
proof fn lemma_p_i64_rt(n: i64, rest: Seq<char>)
    requires
        rest.len() > 0,
        !is_digit(rest[0]),
    ensures
        p_i64(enc_i64(n) + rest) == Some((n, rest)),
{
    reveal_with_fuel(pow10, 22);
    assert(pow10(20) == 100000000000000000000);
    if n >= 0 {
        let ds = enc_nat(n as int);
        lemma_enc_nat_digits(n as int);
        lemma_enc_nat_val(n as int);
        lemma_enc_nat_len(n as int, 20);
        let s = ds + rest;
        assert(s[0] == ds[0]);
        assert(is_digit(s[0]));
        assert(s[0] != '-');
        assert forall|m: int| 0 <= m < ds.len() implies is_digit(#[trigger] s[m]) by {
            assert(s[m] == ds[m]);
        }
        assert(s[ds.len() as int] == rest[0]);
        lemma_p_digits_run(s, ds.len() as int);
        assert(s.subrange(0, ds.len() as int) =~= ds);
        assert(sfx(s, ds.len() as int) =~= rest);
    } else {
        let m = -(n as int);
        let ds = enc_nat(m);
        lemma_enc_nat_digits(m);
        lemma_enc_nat_val(m);
        lemma_enc_nat_len(m, 20);
        let s = enc_i64(n) + rest;
        assert(s =~= seq!['-'] + (ds + rest));
        assert(s[0] == '-');
        let t = ds + rest;
        assert(s.drop_first() =~= t);
        assert forall|q: int| 0 <= q < ds.len() implies is_digit(#[trigger] t[q]) by {
            assert(t[q] == ds[q]);
        }
        assert(t[ds.len() as int] == rest[0]);
        lemma_p_digits_run(t, ds.len() as int);
        assert(t.subrange(0, ds.len() as int) =~= ds);
        assert(sfx(t, ds.len() as int) =~= rest);
        assert(digits_val(ds) <= 0x8000000000000000);
        assert((-digits_val(ds)) as i64 == n);
    }
}

/// Parsing a lexeme at the head of the input gives it back.
proof fn lemma_p_lexeme_rt(lex: Seq<char>, rest: Seq<char>)
    requires
        is_lexeme(lex),
        rest.len() > 0,
        !sample_char(rest[0]),
    ensures
        p_lexeme(lex + rest) == Some((lex, rest)),
{
    let s = lex + rest;
    assert forall|m: int| 0 <= m < lex.len() implies sample_char(#[trigger] s[m]) by {
        assert(s[m] == lex[m]);
    }
    assert(s[lex.len() as int] == rest[0]);
    lemma_p_lexeme_run(s, lex.len() as int);
    assert(s.subrange(0, lex.len() as int) =~= lex);
    assert(sfx(s, lex.len() as int) =~= rest);
}

/// Parsing an encoded non-empty sample list gives it back.
proof fn lemma_p_samples_ne_rt(ls: Seq<Seq<char>>, rest: Seq<char>)
    requires
        ls.len() >= 1,
        all_lexemes(ls),
    ensures
        p_samples_ne(enc_samples(ls) + seq![']'] + rest) == Some((ls, rest)),
    decreases ls.len(),
{
    let u = enc_samples(ls) + seq![']'] + rest;
    let lex = ls[0];
    assert(is_lexeme(lex));
    if ls.len() == 1 {
        assert(enc_samples(ls) == lex);
        let tail = seq![']'] + rest;
        assert(u =~= lex + tail);
        assert(!sample_char(']'));
        lemma_p_lexeme_rt(lex, tail);
        assert(tail[0] == ']');
        assert(tail.drop_first() =~= rest);
        assert(seq![lex] =~= ls);
    } else {
        let ls2 = ls.drop_first();
        assert(enc_samples(ls) == lex + seq![','] + enc_samples(ls2));
        let tail = seq![','] + (enc_samples(ls2) + seq![']'] + rest);
        assert(u =~= lex + tail);
        assert(!sample_char(','));
        lemma_p_lexeme_rt(lex, tail);
        assert(tail[0] == ',');
        assert(tail.drop_first() =~= enc_samples(ls2) + seq![']'] + rest);
        assert forall|m: int| 0 <= m < ls2.len() implies is_lexeme(#[trigger] ls2[m]) by {
            assert(ls2[m] == ls[m + 1]);
        }
        lemma_p_samples_ne_rt(ls2, rest);
        assert(seq![lex] + ls2 =~= ls);
    }
}

/// Parsing an encoded sample list gives it back.
proof fn lemma_p_samples_rt(ls: Seq<Seq<char>>, rest: Seq<char>)
    requires
        all_lexemes(ls),
    ensures
        p_samples(enc_samples(ls) + seq![']'] + rest) == Some((ls, rest)),
{
    let u = enc_samples(ls) + seq![']'] + rest;
    if ls.len() == 0 {
        assert(enc_samples(ls) =~= Seq::<char>::empty());
        assert(u =~= seq![']'] + rest);
        assert(u[0] == ']');
        assert(u.drop_first() =~= rest);
        assert(ls =~= Seq::<Seq<char>>::empty());
    } else {
        let lex = ls[0];
        assert(is_lexeme(lex));
        assert(enc_samples(ls).len() >= 1 && enc_samples(ls)[0] == lex[0]) by {
            if ls.len() == 1 {
                assert(enc_samples(ls) == lex);
            } else {
                assert(enc_samples(ls) == lex + seq![','] + enc_samples(ls.drop_first()));
            }
        }
        assert(u[0] == lex[0]);
        assert(sample_char(u[0]));
        assert(u[0] != ']');
        lemma_p_samples_ne_rt(ls, rest);
    }
}

/// Parsing the encoded body of a request gives it back.
proof fn lemma_p_req_body_rt(d: ReqDataView)
    requires
        match d {
            ReqDataView::Startup { dev_type } => wire_str_ok(dev_type),
            ReqDataView::KeepAlive => true,
            ReqDataView::Transmit { channel, data } => wire_str_ok(channel) && all_lexemes(data),
        },
    ensures
        p_req_body(enc_req_data(d)) == Some((d, Seq::<char>::empty())),
{
    reveal_strlit("\"");
    reveal_strlit("Startup\",\"dev_type\":\"");
    reveal_strlit("KeepAlive\"}}");
    reveal_strlit("Transmit\",\"channel\":\"");
    reveal_strlit(",\"data\":[");
    reveal_strlit("\"}}");
    reveal_strlit("]}}");
    reveal_strlit("}}");
    let body = enc_req_data(d);
    match d {
        ReqDataView::Startup { dev_type } => {
            let brest = esc(dev_type) + seq!['"'] + "}}"@;
            assert(body =~= "Startup\",\"dev_type\":\""@ + brest);
            lemma_p_lit_pre("Startup\",\"dev_type\":\""@, brest);
            lemma_p_string_rt(dev_type, "}}"@);
            assert("}}"@ + Seq::<char>::empty() =~= "}}"@);
            lemma_p_lit_pre("}}"@, Seq::empty());
        },
        ReqDataView::KeepAlive => {
            assert(body == "KeepAlive\"}}"@);
            assert(p_lit(body, "Startup\",\"dev_type\":\""@) is None);
            assert(body =~= "KeepAlive\"}}"@ + Seq::<char>::empty());
            lemma_p_lit_pre("KeepAlive\"}}"@, Seq::empty());
        },
        ReqDataView::Transmit { channel, data } => {
            let srest = enc_samples(data) + seq![']'] + "}}"@;
            let crest = ",\"data\":["@ + srest;
            assert(body =~= "Transmit\",\"channel\":\""@ + (esc(channel) + seq!['"'] + crest));
            assert(body[0] == 'T');
            assert(p_lit(body, "Startup\",\"dev_type\":\""@) is None) by {
                if "Startup\",\"dev_type\":\""@.len() <= body.len() {
                    assert(body.subrange(0, 21)[0] == body[0]);
                }
            }
            assert(p_lit(body, "KeepAlive\"}}"@) is None) by {
                if "KeepAlive\"}}"@.len() <= body.len() {
                    assert(body.subrange(0, 12)[0] == body[0]);
                }
            }
            lemma_p_lit_pre("Transmit\",\"channel\":\""@, esc(channel) + seq!['"'] + crest);
            lemma_p_string_rt(channel, crest);
            assert(crest =~= ",\"data\":["@ + srest);
            lemma_p_lit_pre(",\"data\":["@, srest);
            lemma_p_samples_rt(data, "}}"@);
            assert("}}"@ + Seq::<char>::empty() =~= "}}"@);
            lemma_p_lit_pre("}}"@, Seq::empty());
        },
    }
}

/// Round trip: decoding the canonical encoding of a well-formed
/// request yields that request, exactly.
#[verifier::rlimit(80)]
pub proof fn lemma_request_roundtrip(rv: ReqView)
    requires
        req_wf(rv),
    ensures
        dec_request(enc_request(rv)) == Some(rv),
{
    reveal_strlit("{\"uuid\":\"");
    reveal_strlit("\"");
    reveal_strlit(",\"rtc_unix\":");
    reveal_strlit("null");
    reveal_strlit(",\"data\":{\"type\":\"");
    let u = enc_request(rv);
    let body = enc_req_data(rv.data);
    let rest3 = ",\"data\":{\"type\":\""@ + body;
    let rest2 = ",\"rtc_unix\":"@ + enc_rtc(rv.rtc_unix) + rest3;
    assert(u =~= "{\"uuid\":\""@ + (esc(rv.uuid) + seq!['"'] + rest2));
    lemma_p_lit_pre("{\"uuid\":\""@, esc(rv.uuid) + seq!['"'] + rest2);
    lemma_p_string_rt(rv.uuid, rest2);
    assert(rest2 =~= ",\"rtc_unix\":"@ + (enc_rtc(rv.rtc_unix) + rest3));
    lemma_p_lit_pre(",\"rtc_unix\":"@, enc_rtc(rv.rtc_unix) + rest3);
    assert(rest3[0] == ',');
    assert(!is_digit(','));
    match rv.rtc_unix {
        None => {
            assert(enc_rtc(rv.rtc_unix) + rest3 =~= "null"@ + rest3);
            lemma_p_lit_pre("null"@, rest3);
        },
        Some(nv) => {
            let w = enc_i64(nv) + rest3;
            assert(w[0] == enc_i64(nv)[0]) by {
                if nv >= 0 {
                    lemma_enc_nat_digits(nv as int);
                } else {
                    assert(enc_i64(nv)[0] == '-');
                }
            }
            assert(w[0] != 'n') by {
                if nv >= 0 {
                    lemma_enc_nat_digits(nv as int);
                    assert(is_digit(w[0]));
                } else {
                    assert(w[0] == '-');
                }
            }
            assert(p_lit(w, "null"@) is None) by {
                if "null"@.len() <= w.len() {
                    assert(w.subrange(0, 4)[0] == w[0]);
                    assert(w.subrange(0, 4) != "null"@);
                }
            }
            lemma_p_i64_rt(nv, rest3);
        },
    }
    lemma_p_lit_pre(",\"data\":{\"type\":\""@, body);
    lemma_p_req_body_rt(rv.data);
}

/// Parsing the encoded body of a response gives it back.
proof fn lemma_p_resp_body_rt(d: RespDataView)
    requires
        match d {
            RespDataView::Failure { value } => wire_str_ok(value),
            RespDataView::Configure { sensor_interval } => true,
            RespDataView::KeepAliveConfirm => true,
            RespDataView::Transmit { channel, data } => wire_str_ok(channel) && all_lexemes(data),
        },
    ensures
        p_resp_body(enc_resp_data(d)) == Some((d, Seq::<char>::empty())),
{
    reveal_strlit("\"");
    reveal_strlit("Err\",\"value\":\"");
    reveal_strlit("Configure\",\"sensor_interval\":");
    reveal_strlit("KeepAliveConfirm\"}}");
    reveal_strlit("Transmit\",\"channel\":\"");
    reveal_strlit(",\"data\":[");
    reveal_strlit("\"}}");
    reveal_strlit("]}}");
    reveal_strlit("}}");
    let body = enc_resp_data(d);
    match d {
        RespDataView::Failure { value } => {
            let brest = esc(value) + seq!['"'] + "}}"@;
            assert(body =~= "Err\",\"value\":\""@ + brest);
            lemma_p_lit_pre("Err\",\"value\":\""@, brest);
            lemma_p_string_rt(value, "}}"@);
            assert("}}"@ + Seq::<char>::empty() =~= "}}"@);
            lemma_p_lit_pre("}}"@, Seq::empty());
        },
        RespDataView::Configure { sensor_interval } => {
            let brest = enc_nat(sensor_interval as int) + "}}"@;
            assert(body =~= "Configure\",\"sensor_interval\":"@ + brest);
            assert(body[0] == 'C');
            assert(p_lit(body, "Err\",\"value\":\""@) is None) by {
                if "Err\",\"value\":\""@.len() <= body.len() {
                    assert(body.subrange(0, 15)[0] == body[0]);
                }
            }
            lemma_p_lit_pre("Configure\",\"sensor_interval\":"@, brest);
            assert("}}"@[0] == '}');
            assert(!is_digit('}'));
            lemma_p_u64_rt(sensor_interval, "}}"@);
            assert("}}"@ + Seq::<char>::empty() =~= "}}"@);
            lemma_p_lit_pre("}}"@, Seq::empty());
        },
        RespDataView::KeepAliveConfirm => {
            assert(body == "KeepAliveConfirm\"}}"@);
            assert(body[0] == 'K');
            assert(p_lit(body, "Err\",\"value\":\""@) is None) by {
                if "Err\",\"value\":\""@.len() <= body.len() {
                    assert(body.subrange(0, 15)[0] == body[0]);
                }
            }
            assert(p_lit(body, "Configure\",\"sensor_interval\":"@) is None);
            assert(body =~= "KeepAliveConfirm\"}}"@ + Seq::<char>::empty());
            lemma_p_lit_pre("KeepAliveConfirm\"}}"@, Seq::empty());
        },
        RespDataView::Transmit { channel, data } => {
            let srest = enc_samples(data) + seq![']'] + "}}"@;
            let crest = ",\"data\":["@ + srest;
            assert(body =~= "Transmit\",\"channel\":\""@ + (esc(channel) + seq!['"'] + crest));
            assert(body[0] == 'T');
            assert(p_lit(body, "Err\",\"value\":\""@) is None) by {
                if "Err\",\"value\":\""@.len() <= body.len() {
                    assert(body.subrange(0, 15)[0] == body[0]);
                }
            }
            assert(p_lit(body, "Configure\",\"sensor_interval\":"@) is None) by {
                if "Configure\",\"sensor_interval\":"@.len() <= body.len() {
                    assert(body.subrange(0, 30)[0] == body[0]);
                }
            }
            assert(p_lit(body, "KeepAliveConfirm\"}}"@) is None) by {
                if "KeepAliveConfirm\"}}"@.len() <= body.len() {
                    assert(body.subrange(0, 19)[0] == body[0]);
                }
            }
            lemma_p_lit_pre("Transmit\",\"channel\":\""@, esc(channel) + seq!['"'] + crest);
            lemma_p_string_rt(channel, crest);
            assert(crest =~= ",\"data\":["@ + srest);
            lemma_p_lit_pre(",\"data\":["@, srest);
            lemma_p_samples_rt(data, "}}"@);
            assert("}}"@ + Seq::<char>::empty() =~= "}}"@);
            lemma_p_lit_pre("}}"@, Seq::empty());
        },
    }
}

/// Round trip: decoding the canonical encoding of a well-formed
/// response yields that response, exactly.
#[verifier::rlimit(80)]
pub proof fn lemma_response_roundtrip(rv: RespView)
    requires
        resp_wf(rv),
    ensures
        dec_response(enc_response(rv)) == Some(rv),
{
    reveal_strlit("{\"success\":");
    reveal_strlit("true");
    reveal_strlit("false");
    reveal_strlit(",\"rtc_unix\":");
    reveal_strlit(",\"data\":{\"type\":\"");
    let u = enc_response(rv);
    let body = enc_resp_data(rv.data);
    let rest3 = ",\"data\":{\"type\":\""@ + body;
    let rest2 = ",\"rtc_unix\":"@ + enc_i64(rv.rtc_unix) + rest3;
    assert(u =~= "{\"success\":"@ + (enc_bool(rv.success) + rest2));
    lemma_p_lit_pre("{\"success\":"@, enc_bool(rv.success) + rest2);
    let w = enc_bool(rv.success) + rest2;
    if rv.success {
        assert(w =~= "true"@ + rest2);
        lemma_p_lit_pre("true"@, rest2);
    } else {
        assert(w =~= "false"@ + rest2);
        assert(w[0] == 'f');
        assert(p_lit(w, "true"@) is None) by {
            if "true"@.len() <= w.len() {
                assert(w.subrange(0, 4)[0] == w[0]);
            }
        }
        lemma_p_lit_pre("false"@, rest2);
    }
    assert(rest2 =~= ",\"rtc_unix\":"@ + (enc_i64(rv.rtc_unix) + rest3));
    lemma_p_lit_pre(",\"rtc_unix\":"@, enc_i64(rv.rtc_unix) + rest3);
    assert(rest3[0] == ',');
    assert(!is_digit(','));
    lemma_p_i64_rt(rv.rtc_unix, rest3);
    lemma_p_lit_pre(",\"data\":{\"type\":\""@, body);
    lemma_p_resp_body_rt(rv.data);
}

} // verus!
