use vstd::prelude::*;

use std::collections::HashMap;

use crate::json::{as_bool, as_text, index, parsed_json, read_json, JsonValue};
use crate::metric::{empty_i64_metric_json, metric_rows, rows_json_text, value_or_zero};
use crate::number::{int_text, push_int_text};
use crate::outside::{
    in_chrono_range, is_v4_uuid_text, midnight_after_days, new_uuid_text, utc_midnight_after, utc_now, UtcInstant,
};

verus! {

broadcast use vstd::std_specs::hash::group_hash_axioms;

/// The `settings` text that adds a client to an inbound of the panel: the user's id, its
/// e-mail `email-inbound` and the expiry, written into the text as they are.
pub open spec fn add_settings_text(uuid: Seq<char>, email: Seq<char>, inbound: i64, expiry: i64) -> Seq<
    char,
> {
    "{\"clients\":[{\"id\":\""@ + uuid + "\",\"email\":\""@ + email + "-"@ + int_text(
        inbound as int,
    ) + "\",\"enable\":true,\"expiryTime\":"@ + int_text(expiry as int) + "}]}"@
}

/// What `serde_json` writes for the object `{"id": inbound, "settings": settings}`. It depends
/// on its arguments alone.
pub uninterp spec fn id_settings_text(inbound: i64, settings: Seq<char>) -> Seq<char>;

/// The object `{"id": inbound, "settings": settings}` built as a `serde_json::Value` and written
/// with `to_string`, as the panel's `addClient` takes it. The result is named by
/// [`id_settings_text`].
#[verifier::external_body]
fn id_settings_json(inbound: i64, settings: &str) -> (res: String)
    ensures
        res@ == id_settings_text(inbound, settings@),
{
    let mut body = serde_json::Map::new();
    body.insert("id".to_string(), serde_json::Value::from(inbound));
    body.insert("settings".to_string(), serde_json::Value::from(settings));
    serde_json::Value::Object(body).to_string()
}

/// The JSON body that adds a client to an inbound: `{"id": inbound, "settings": settings}`,
/// as `serde_json` writes it.
pub open spec fn add_body_text(uuid: Seq<char>, email: Seq<char>, inbound: i64, expiry: i64) -> Seq<
    char,
> {
    id_settings_text(inbound, add_settings_text(uuid, email, inbound, expiry))
}

/// The JSON body that adds the client `uuid`/`email` to `inbound`, expiring at `expiry_ms`.
pub fn add_client_body(uuid: &str, email: &str, inbound: i64, expiry_ms: i64) -> (res: String)
    ensures
        res@ == add_body_text(uuid@, email@, inbound, expiry_ms),
{
    let mut settings = String::new();
    settings.append("{\"clients\":[{\"id\":\"");
    settings.append(uuid);
    settings.append("\",\"email\":\"");
    settings.append(email);
    settings.append("-");
    push_int_text(&mut settings, inbound);
    settings.append("\",\"enable\":true,\"expiryTime\":");
    push_int_text(&mut settings, expiry_ms);
    settings.append("}]}");
    assert(settings@ =~= add_settings_text(uuid@, email@, inbound, expiry_ms));
    id_settings_json(inbound, settings.as_str())
}

/// A request that adds a client to an inbound: its expiry and its JSON body.
pub struct AddClientRequest {
    pub expiry_ms: i64,
    pub body: String,
}

/// The expiry of an add request, if there is one.
pub open spec fn add_expiry(res: Option<AddClientRequest>) -> Option<i64> {
    match res {
        Some(r) => Some(r.expiry_ms),
        None => None,
    }
}

/// The request that adds the client `uuid`/`email` to `inbound` for `days` days when the clock
/// reads `now`: it expires at the midnight (UTC) `days` days after the date of `now`; nothing
/// where `chrono` cannot represent that day.
pub fn add_client_request_at(
    uuid: &str,
    email: &str,
    days: i64,
    inbound: i64,
    now: &UtcInstant,
) -> (res: Option<AddClientRequest>)
    ensures
        add_expiry(res) == utc_midnight_after(now.secs, now.nanos, days),
        now.nanos < 1_000_000_000 ==> (res is Some <==> (in_chrono_range(now.secs / 86_400)
            && in_chrono_range(now.secs / 86_400 + days))),
        res matches Some(r) ==> r.expiry_ms == (now.secs / 86_400 + days) * 86_400_000,
        res matches Some(r) ==> (r.expiry_ms % 86_400_000 == 0 && r.body@ == add_body_text(
            uuid@,
            email@,
            inbound,
            r.expiry_ms,
        )),
{
    match midnight_after_days(now, days) {
        Some(expiry_ms) => Some(
            AddClientRequest { expiry_ms, body: add_client_body(uuid, email, inbound, expiry_ms) },
        ),
        None => None,
    }
}

/// The request that adds the client `uuid`/`email` to `inbound` for `days` days: it expires at
/// the midnight (UTC) `days` days after today by the clock's reading; nothing where `chrono`
/// cannot represent that day. Which reading the clock gives is not known, so the expiry is
/// stated as `chrono`'s midnight for some reading.
pub fn add_client_request(uuid: &str, email: &str, days: i64, inbound: i64) -> (res: Option<
    AddClientRequest,
>)
    ensures
        exists|secs: i64, nanos: u32| #[trigger]
            utc_midnight_after(secs, nanos, days) == add_expiry(res),
        res matches Some(r) ==> (r.expiry_ms % 86_400_000 == 0 && r.body@ == add_body_text(
            uuid@,
            email@,
            inbound,
            r.expiry_ms,
        )),
{
    let now = utc_now();
    let res = add_client_request_at(uuid, email, days, inbound, &now);
    assert(utc_midnight_after(now.secs, now.nanos, days) == add_expiry(res));
    res
}

/// What `serde_json` writes for `{"clients": [client]}`, the client an object with `enable`,
/// `email`, `id`, `up`, `down`, `expiryTime` and `lastOnline`. It depends on its arguments
/// alone.
pub uninterp spec fn client_settings_text(
    uuid: Seq<char>,
    email: Seq<char>,
    enable: bool,
    up: i64,
    down: i64,
    expiry: i64,
    last_online: i64,
) -> Seq<char>;

/// The object `{"clients": [client]}` built as a `serde_json::Value` and written with
/// `to_string`, as the panel's `updateClient` takes it. The result is named by
/// [`client_settings_text`].
#[verifier::external_body]
fn client_settings_json(
    uuid: &str,
    email: &str,
    enable: bool,
    up: i64,
    down: i64,
    expiry: i64,
    last_online: i64,
) -> (res: String)
    ensures
        res@ == client_settings_text(uuid@, email@, enable, up, down, expiry, last_online),
{
    let mut c = serde_json::Map::new();
    c.insert("enable".to_string(), serde_json::Value::from(enable));
    c.insert("email".to_string(), serde_json::Value::from(email));
    c.insert("id".to_string(), serde_json::Value::from(uuid));
    c.insert("up".to_string(), serde_json::Value::from(up));
    c.insert("down".to_string(), serde_json::Value::from(down));
    c.insert("expiryTime".to_string(), serde_json::Value::from(expiry));
    c.insert("lastOnline".to_string(), serde_json::Value::from(last_online));
    let mut settings = serde_json::Map::new();
    settings.insert("clients".to_string(), serde_json::Value::Array(vec![c.into()]));
    serde_json::Value::Object(settings).to_string()
}

/// The `settings` text that updates a client of an inbound: its status, e-mail
/// `email-inbound`, id, traffic, expiry and last activity, as `serde_json` writes them.
pub open spec fn update_settings_text(
    uuid: Seq<char>,
    email: Seq<char>,
    inbound: i64,
    enable: bool,
    up: i64,
    down: i64,
    expiry: i64,
    last_online: i64,
) -> Seq<char> {
    client_settings_text(
        uuid,
        email + "-"@ + int_text(inbound as int),
        enable,
        up,
        down,
        expiry,
        last_online,
    )
}

/// The form body that updates a client: `id=inbound&settings=settings`.
pub open spec fn update_body_text(inbound: i64, settings: Seq<char>) -> Seq<char> {
    "id="@ + int_text(inbound as int) + "&settings="@ + settings
}

/// The `settings` text that updates the client `uuid`/`email` of `inbound`.
pub fn update_client_settings(
    uuid: &str,
    email: &str,
    inbound: i64,
    enable: bool,
    up: i64,
    down: i64,
    expiry_ms: i64,
    last_online: i64,
) -> (res: String)
    ensures
        res@ == update_settings_text(
            uuid@,
            email@,
            inbound,
            enable,
            up,
            down,
            expiry_ms,
            last_online,
        ),
{
    let mut name = String::new();
    name.append(email);
    name.append("-");
    push_int_text(&mut name, inbound);
    proof {
        reveal_strlit("-");
    }
    assert(name@ =~= email@ + "-"@ + int_text(inbound as int));
    client_settings_json(uuid, name.as_str(), enable, up, down, expiry_ms, last_online)
}

/// The form body that updates a client of `inbound` with `settings`.
pub fn update_client_body(inbound: i64, settings: &str) -> (res: String)
    ensures
        res@ == update_body_text(inbound, settings@),
{
    let mut body = String::new();
    body.append("id=");
    push_int_text(&mut body, inbound);
    body.append("&settings=");
    body.append(settings);
    assert(body@ =~= update_body_text(inbound, settings@));
    body
}

/// The path, below the panel's address, that updates the client `uuid`.
pub fn update_client_path(uuid: &str) -> (res: String)
    ensures
        res@ == "/panel/api/inbounds/updateClient/"@ + uuid@,
{
    let mut path = String::new();
    path.append("/panel/api/inbounds/updateClient/");
    path.append(uuid);
    path
}

/// The value a metric holds for an inbound, `0` where it holds none.
pub fn value_or_zero_of(metric: &HashMap<i64, i64>, inbound: i64) -> (res: i64)
    ensures
        res == value_or_zero(metric@, inbound),
{
    match metric.get(&inbound) {
        Some(v) => *v,
        None => 0,
    }
}

/// The expiry of an update request, if there is one.
pub open spec fn update_expiry(res: Option<UpdateClientRequest>) -> Option<i64> {
    match res {
        Some(r) => Some(r.expiry_ms),
        None => None,
    }
}

/// A request that updates a client of an inbound: the expiry it sets and its form body.
pub struct UpdateClientRequest {
    pub expiry_ms: i64,
    pub body: String,
}

/// The request that updates the client `uuid`/`email` of `inbound` when the clock reads
/// `now`: its status, its traffic and last activity on that inbound (`0` where the metrics hold
/// none), and an expiry at the midnight (UTC) `days` days after the date of `now`; nothing
/// where `chrono` cannot represent that day.
pub fn update_client_request_at(
    uuid: &str,
    email: &str,
    days: i64,
    inbound: i64,
    enable: bool,
    up: &HashMap<i64, i64>,
    down: &HashMap<i64, i64>,
    last_online: &HashMap<i64, i64>,
    now: &UtcInstant,
) -> (res: Option<UpdateClientRequest>)
    ensures
        update_expiry(res) == utc_midnight_after(now.secs, now.nanos, days),
        now.nanos < 1_000_000_000 ==> (res is Some <==> (in_chrono_range(now.secs / 86_400)
            && in_chrono_range(now.secs / 86_400 + days))),
        res matches Some(r) ==> r.expiry_ms == (now.secs / 86_400 + days) * 86_400_000,
        res matches Some(r) ==> (r.expiry_ms % 86_400_000 == 0 && r.body@ == update_body_text(
            inbound,
            update_settings_text(
                uuid@,
                email@,
                inbound,
                enable,
                value_or_zero(up@, inbound),
                value_or_zero(down@, inbound),
                r.expiry_ms,
                value_or_zero(last_online@, inbound),
            ),
        )),
{
    let inbound_up = value_or_zero_of(up, inbound);
    let inbound_down = value_or_zero_of(down, inbound);
    let inbound_last_online = value_or_zero_of(last_online, inbound);
    match midnight_after_days(now, days) {
        Some(expiry_ms) => {
            let settings = update_client_settings(
                uuid,
                email,
                inbound,
                enable,
                inbound_up,
                inbound_down,
                expiry_ms,
                inbound_last_online,
            );
            Some(
                UpdateClientRequest {
                    expiry_ms,
                    body: update_client_body(inbound, settings.as_str()),
                },
            )
        },
        None => None,
    }
}

/// The request that updates the client `uuid`/`email` of `inbound`: its status, its traffic
/// and last activity on that inbound (`0` where the metrics hold none), and an expiry at the
/// midnight (UTC) `days` days after today by the clock's reading; nothing where `chrono` cannot
/// represent that day. Which reading the clock gives is not known, so the expiry is stated as
/// `chrono`'s midnight for some reading.
pub fn update_client_request(
    uuid: &str,
    email: &str,
    days: i64,
    inbound: i64,
    enable: bool,
    up: &HashMap<i64, i64>,
    down: &HashMap<i64, i64>,
    last_online: &HashMap<i64, i64>,
) -> (res: Option<UpdateClientRequest>)
    ensures
        exists|secs: i64, nanos: u32| #[trigger]
            utc_midnight_after(secs, nanos, days) == update_expiry(res),
        res matches Some(r) ==> (r.expiry_ms % 86_400_000 == 0 && r.body@ == update_body_text(
            inbound,
            update_settings_text(
                uuid@,
                email@,
                inbound,
                enable,
                value_or_zero(up@, inbound),
                value_or_zero(down@, inbound),
                r.expiry_ms,
                value_or_zero(last_online@, inbound),
            ),
        )),
{
    let now = utc_now();
    let res = update_client_request_at(uuid, email, days, inbound, enable, up, down, last_online, &now);
    assert(utc_midnight_after(now.secs, now.nanos, days) == update_expiry(res));
    res
}

/// The failure line of an update of `inbound`, or nothing where it succeeded: it succeeded
/// when the HTTP status is a success and the reply is JSON whose `success` is `true`. The line
/// names the inbound, the reply's `msg` (or `updateClient failed`) and the status.
pub open spec fn update_failure_text(
    inbound: i64,
    status_success: bool,
    status_text: Seq<char>,
    reply: Option<JsonValue>,
) -> Option<Seq<char>> {
    let api_success = match reply {
        Some(p) => as_bool(index(p, "success"@)) == Some(true),
        None => false,
    };
    let message = match reply {
        Some(p) => match as_text(index(p, "msg"@)) {
            Some(m) => m,
            None => "updateClient failed"@,
        },
        None => "updateClient failed"@,
    };
    if status_success && api_success {
        None
    } else {
        Some(
            "inbound "@ + int_text(inbound as int) + ": "@ + message + " (status "@ + status_text
                + ")"@,
        )
    }
}

/// The failure line of an update of `inbound` (see [`update_failure_text`]).
pub fn update_failure(
    inbound: i64,
    status_success: bool,
    status_text: &str,
    reply: &Option<JsonValue>,
) -> (res: Option<String>)
    ensures
        match res {
            Some(s) => update_failure_text(inbound, status_success, status_text@, *reply)
                == Some(s@),
            None => update_failure_text(inbound, status_success, status_text@, *reply) is None,
        },
{
    let api_success = match reply {
        Some(p) => match crate::json::get_field(p, "success") {
            Some(JsonValue::Bool(b)) => *b,
            _ => false,
        },
        None => false,
    };
    if status_success && api_success {
        return None;
    }
    let mut line = String::new();
    line.append("inbound ");
    push_int_text(&mut line, inbound);
    line.append(": ");
    let mut found = false;
    if let Some(p) = reply {
        if let Some(JsonValue::Str(m)) = crate::json::get_field(p, "msg") {
            line.append(m.as_str());
            found = true;
        }
    }
    if !found {
        line.append("updateClient failed");
    }
    line.append(" (status ");
    line.append(status_text);
    line.append(")");
    assert(line@ =~= update_failure_text(inbound, status_success, status_text@, *reply).unwrap());
    Some(line)
}

/// The failure line of an update of `inbound` whose reply body is `body` (see
/// [`update_failure_text`]): a body that `serde_json` does not read as JSON counts as no reply.
pub fn update_failure_from_reply(
    inbound: i64,
    status_success: bool,
    status_text: &str,
    body: &str,
) -> (res: Option<String>)
    ensures
        match res {
            Some(s) => update_failure_text(inbound, status_success, status_text@, parsed_json(body@))
                == Some(s@),
            None => update_failure_text(
                inbound,
                status_success,
                status_text@,
                parsed_json(body@),
            ) is None,
        },
{
    let reply = match read_json(body) {
        Ok(doc) => Some(doc),
        Err(_) => None,
    };
    update_failure(inbound, status_success, status_text, &reply)
}

/// The failure lines, separated by `; `.
pub open spec fn joined_failures(lines: Seq<Seq<char>>) -> Seq<char>
    decreases lines.len(),
{
    if lines.len() == 0 {
        seq![]
    } else if lines.len() == 1 {
        lines[0]
    } else {
        joined_failures(lines.drop_last()) + "; "@ + lines.last()
    }
}

/// The failure lines, separated by `; ` (`join("; ")`).
pub fn join_failures(lines: &Vec<String>) -> (res: String)
    ensures
        res@ == joined_failures(crate::chars::views(lines@)),
{
    let ghost v = crate::chars::views(lines@);
    let mut out = String::new();
    let mut i: usize = 0;
    assert(v.take(0) =~= Seq::<Seq<char>>::empty());
    while i < lines.len()
        invariant
            i <= lines.len(),
            v == crate::chars::views(lines@),
            out@ == joined_failures(v.take(i as int)),
        decreases lines.len() - i,
    {
        if i > 0 {
            out.append("; ");
        }
        out.append(lines[i].as_str());
        assert(v.take(i + 1).drop_last() =~= v.take(i as int));
        assert(v[i as int] == lines@[i as int]@);
        if i == 0 {
            assert(out@ =~= joined_failures(v.take(1)));
        } else {
            assert(out@ =~= joined_failures(v.take(i + 1)));
        }
        i = i + 1;
    }
    assert(v.take(i as int) =~= v);
    out
}

/// What extending the user `email` comes to: success where no inbound failed, else an error
/// that lists the failures.
pub fn extend_outcome(email: &str, failures: &Vec<String>) -> (res: Result<(), String>)
    ensures
        failures.len() == 0 ==> res is Ok,
        failures.len() > 0 ==> (res matches Err(e) && e@ == "failed to extend user "@ + email@
            + ": "@ + joined_failures(crate::chars::views(failures@))),
{
    if failures.len() == 0 {
        return Ok(());
    }
    let details = join_failures(failures);
    let mut e = String::new();
    e.append("failed to extend user ");
    e.append(email);
    e.append(": ");
    e.append(details.as_str());
    Err(e)
}

/// What a login reply comes to: nothing more to do where its HTTP status is a success, else
/// the error `login failed`.
pub fn login_outcome(status_success: bool) -> (res: Result<(), String>)
    ensures
        status_success ==> res is Ok,
        !status_success ==> (res matches Err(e) && e@ == "login failed"@),
{
    if status_success {
        Ok(())
    } else {
        Err(String::from_str("login failed"))
    }
}

/// What the reply to adding a client comes to: nothing more to do where its HTTP status is a
/// success, else the error `addClient failed: ` followed by the status.
pub fn add_client_outcome(status_success: bool, status_text: &str) -> (res: Result<(), String>)
    ensures
        status_success ==> res is Ok,
        !status_success ==> (res matches Err(e) && e@ == "addClient failed: "@ + status_text@),
{
    if status_success {
        return Ok(());
    }
    let mut e = String::new();
    e.append("addClient failed: ");
    e.append(status_text);
    Err(e)
}

/// What a new user is stored with: a fresh id and empty metrics (its traffic metric, which
/// holds floating-point numbers, aside).
pub struct NewUser {
    pub uuid: String,
    pub up_json: String,
    pub down_json: String,
    pub last_online_json: String,
}

/// A new user: a fresh random id, and metrics that hold `0` for each configured inbound.
pub fn new_user_record() -> (res: NewUser)
    ensures
        is_v4_uuid_text(res.uuid@),
        res.up_json@ == rows_json_text(metric_rows(Map::empty())),
        res.down_json@ == rows_json_text(metric_rows(Map::empty())),
        res.last_online_json@ == rows_json_text(metric_rows(Map::empty())),
{
    NewUser {
        uuid: new_uuid_text(),
        up_json: empty_i64_metric_json(),
        down_json: empty_i64_metric_json(),
        last_online_json: empty_i64_metric_json(),
    }
}

/// The days a user has left after `days` more are added to the `db_days` it had.
pub fn added_days(db_days: i64, days: i32) -> (res: i64)
    requires
        i64::MIN <= db_days + days <= i64::MAX,
    ensures
        res == db_days + days,
{
    db_days + days as i64
}

} // verus!
