use vstd::prelude::*;

use std::collections::HashMap;

use crate::json::{
    as_bool, as_i64, as_items, as_text, get_field, index, json_document, read_json, JsonValue,
};
use crate::names::{name_base, TrimNameSuffix};
use crate::outside::{
    days_toward_zero, in_chrono_range, utc_date_of_millis, utc_date_text, utc_whole_days, whole_days_until,
    UtcInstant,
};

verus! {

broadcast use vstd::std_specs::hash::group_hash_axioms;

/// Why the panel's list of inbounds could not be read.
#[derive(PartialEq, Eq, Structural)]
pub enum SyncError {
    /// The reply has no `obj` array.
    NoObj,
    /// An inbound has no `clientStats` array.
    NoClientStats,
    /// A user's expiry is an instant `chrono` cannot represent.
    InvalidExpiry,
}

/// The message a sync error is reported with.
pub open spec fn error_text(e: SyncError) -> Seq<char> {
    match e {
        SyncError::NoObj => "no obj"@,
        SyncError::NoClientStats => "no clientStats"@,
        SyncError::InvalidExpiry => "invalid expiryTime"@,
    }
}

impl SyncError {
    /// The message the error is reported with.
    pub fn message(&self) -> (res: &'static str)
        ensures
            res@ == error_text(*self),
    {
        match self {
            SyncError::NoObj => "no obj",
            SyncError::NoClientStats => "no clientStats",
            SyncError::InvalidExpiry => "invalid expiryTime",
        }
    }
}

/// What the panel says of one client of an inbound.
pub struct ClientView {
    pub uuid: Seq<char>,
    pub name: Seq<char>,
    pub enable: bool,
    pub up: i64,
    pub down: i64,
    pub last_online: i64,
    pub expiry: i64,
}

/// A client of an inbound as the panel lists it: missing or ill-typed fields read as empty,
/// `false` or `0`; the name is the e-mail without its `-inbound` suffix.
pub open spec fn client_view(c: JsonValue) -> ClientView {
    ClientView {
        uuid: match as_text(index(c, "uuid"@)) {
            Some(s) => s,
            None => seq![],
        },
        name: name_base(
            match as_text(index(c, "email"@)) {
                Some(s) => s,
                None => seq![],
            },
        ),
        enable: match as_bool(index(c, "enable"@)) {
            Some(b) => b,
            None => false,
        },
        up: match as_i64(index(c, "up"@)) {
            Some(n) => n,
            None => 0,
        },
        down: match as_i64(index(c, "down"@)) {
            Some(n) => n,
            None => 0,
        },
        last_online: match as_i64(index(c, "lastOnline"@)) {
            Some(n) => n,
            None => 0,
        },
        expiry: match as_i64(index(c, "expiryTime"@)) {
            Some(n) => n,
            None => 0,
        },
    }
}

/// A user as the sync collects it from the panel.
pub struct UserView {
    pub uuid: Seq<char>,
    pub name: Seq<char>,
    pub is_active: bool,
    pub max_expiry: i64,
    pub up: Map<i64, i64>,
    pub down: Map<i64, i64>,
    pub last_online: Map<i64, i64>,
}

/// A user of the panel, gathered from its clients on all inbounds. Its total traffic on an
/// inbound is the sum of `up` and `down` there.
pub struct SyncedUser {
    pub uuid: String,
    pub name: String,
    pub is_active: bool,
    pub max_expiry: i64,
    pub up: HashMap<i64, i64>,
    pub down: HashMap<i64, i64>,
    pub last_online: HashMap<i64, i64>,
}

impl SyncedUser {
    /// The user as a value.
    pub open spec fn model(&self) -> UserView {
        UserView {
            uuid: self.uuid@,
            name: self.name@,
            is_active: self.is_active,
            max_expiry: self.max_expiry,
            up: self.up@,
            down: self.down@,
            last_online: self.last_online@,
        }
    }
}

/// The users as values.
pub open spec fn models(users: Seq<SyncedUser>) -> Seq<UserView> {
    users.map_values(|u: SyncedUser| u.model())
}

/// A user after one more of its clients, on `inbound`, is read: it takes the client's name,
/// is active if it was or the client is enabled, keeps the later expiry, and records the
/// client's traffic and last activity for that inbound.
pub open spec fn merged(u: UserView, inbound: i64, c: ClientView) -> UserView {
    UserView {
        uuid: u.uuid,
        name: c.name,
        is_active: u.is_active || c.enable,
        max_expiry: if c.expiry > u.max_expiry {
            c.expiry
        } else {
            u.max_expiry
        },
        up: u.up.insert(inbound, c.up),
        down: u.down.insert(inbound, c.down),
        last_online: u.last_online.insert(inbound, c.last_online),
    }
}

/// The user a client starts when its id is new.
pub open spec fn fresh(c: ClientView) -> UserView {
    UserView {
        uuid: c.uuid,
        name: c.name,
        is_active: c.enable,
        max_expiry: c.expiry,
        up: Map::empty(),
        down: Map::empty(),
        last_online: Map::empty(),
    }
}

/// Whether some user in `t` has the id `uuid`.
pub open spec fn has_user(t: Seq<UserView>, uuid: Seq<char>) -> bool {
    exists|i: int| 0 <= i < t.len() && (#[trigger] t[i]).uuid == uuid
}

/// The place of the user with the id `uuid` in `t`.
pub open spec fn user_at(t: Seq<UserView>, uuid: Seq<char>) -> int {
    choose|i: int| 0 <= i < t.len() && (#[trigger] t[i]).uuid == uuid
}

/// Whether no two users in `t` have the same id.
pub open spec fn distinct_users(t: Seq<UserView>) -> bool {
    forall|i: int, j: int| 0 <= i < j < t.len() ==> (#[trigger] t[i]).uuid != (#[trigger] t[j]).uuid
}

/// The users after one more client, on `inbound`, is read: a client without an id is
/// skipped; one whose id is known is merged into its user; any other starts a new user at
/// the end.
pub open spec fn apply_client(t: Seq<UserView>, inbound: i64, client: JsonValue) -> Seq<UserView> {
    let c = client_view(client);
    if c.uuid.len() == 0 {
        t
    } else if has_user(t, c.uuid) {
        t.update(user_at(t, c.uuid), merged(t[user_at(t, c.uuid)], inbound, c))
    } else {
        t.push(merged(fresh(c), inbound, c))
    }
}

/// The users after the clients `clients` of `inbound` are read, in order.
pub open spec fn apply_clients(t: Seq<UserView>, inbound: i64, clients: Seq<JsonValue>) -> Seq<
    UserView,
>
    decreases clients.len(),
{
    if clients.len() == 0 {
        t
    } else {
        apply_client(apply_clients(t, inbound, clients.drop_last()), inbound, clients.last())
    }
}

/// The users gathered from the inbounds `inbounds`, in order: an inbound without an integer
/// `id` is skipped; one without a `clientStats` array stops the sync.
pub open spec fn gather(inbounds: Seq<JsonValue>) -> Result<Seq<UserView>, SyncError>
    decreases inbounds.len(),
{
    if inbounds.len() == 0 {
        Ok(seq![])
    } else {
        match gather(inbounds.drop_last()) {
            Err(e) => Err(e),
            Ok(t) => {
                let inbound = inbounds.last();
                match as_i64(index(inbound, "id"@)) {
                    None => Ok(t),
                    Some(id) => match as_items(index(inbound, "clientStats"@)) {
                        None => Err(SyncError::NoClientStats),
                        Some(clients) => Ok(apply_clients(t, id, clients)),
                    },
                }
            },
        }
    }
}

/// The users listed in the panel's reply to the inbound list: those of its `obj` array.
pub open spec fn synced_users(reply: JsonValue) -> Result<Seq<UserView>, SyncError> {
    match as_items(index(reply, "obj"@)) {
        None => Err(SyncError::NoObj),
        Some(inbounds) => gather(inbounds),
    }
}

/// The string field `key` of `v` (`v[key].as_str()`).
fn text_field<'a>(v: &'a JsonValue, key: &str) -> (res: Option<&'a String>)
    ensures
        match res {
            Some(s) => as_text(index(*v, key@)) == Some(s@),
            None => as_text(index(*v, key@)) is None,
        },
{
    match get_field(v, key) {
        Some(JsonValue::Str(s)) => Some(s),
        _ => None,
    }
}

/// The integer field `key` of `v` (`v[key].as_i64()`).
fn int_field(v: &JsonValue, key: &str) -> (res: Option<i64>)
    ensures
        res == as_i64(index(*v, key@)),
{
    match get_field(v, key) {
        Some(JsonValue::Int(n)) => Some(*n),
        _ => None,
    }
}

/// The boolean field `key` of `v` (`v[key].as_bool()`).
fn bool_field(v: &JsonValue, key: &str) -> (res: Option<bool>)
    ensures
        res == as_bool(index(*v, key@)),
{
    match get_field(v, key) {
        Some(JsonValue::Bool(b)) => Some(*b),
        _ => None,
    }
}

/// The array field `key` of `v` (`v[key].as_array()`).
fn items_field<'a>(v: &'a JsonValue, key: &str) -> (res: Option<&'a Vec<JsonValue>>)
    ensures
        match res {
            Some(items) => as_items(index(*v, key@)) == Some(items@),
            None => as_items(index(*v, key@)) is None,
        },
{
    match get_field(v, key) {
        Some(JsonValue::Array(items)) => Some(items),
        _ => None,
    }
}

/// The place of the user with the id `uuid` in `users`, if there is one.
fn find_user(users: &Vec<SyncedUser>, uuid: &str) -> (res: Option<usize>)
    requires
        distinct_users(models(users@)),
    ensures
        match res {
            Some(i) => has_user(models(users@), uuid@) && i == user_at(models(users@), uuid@),
            None => !has_user(models(users@), uuid@),
        },
{
    let ghost t = models(users@);
    let mut i: usize = 0;
    while i < users.len()
        invariant
            i <= users.len(),
            t == models(users@),
            distinct_users(t),
            forall|k: int| 0 <= k < i ==> (#[trigger] t[k]).uuid != uuid@,
        decreases users.len() - i,
    {
        assert(t[i as int] == users@[i as int].model());
        if crate::json::same_text(users[i].uuid.as_str(), uuid) {
            assert(t[i as int].uuid == uuid@);
            let ghost j = user_at(t, uuid@);
            assert(t[j].uuid == uuid@);
            assert(j == i) by {
                if j < i {
                    assert(t[j].uuid != uuid@);
                } else if j > i {
                    assert(t[i as int].uuid != t[j].uuid);
                }
            }
            return Some(i);
        }
        i = i + 1;
    }
    None
}

/// Merges one more client, on `inbound`, into its user.
fn merge_client(user: &mut SyncedUser, inbound: i64, name: String, enable: bool, up: i64, down: i64, last_online: i64, expiry: i64)
    ensures
        final(user).model() == merged(
            old(user).model(),
            inbound,
            ClientView {
                uuid: old(user).uuid@,
                name: name@,
                enable,
                up,
                down,
                last_online,
                expiry,
            },
        ),
{
    user.name = name;
    user.is_active = user.is_active || enable;
    if expiry > user.max_expiry {
        user.max_expiry = expiry;
    }
    user.up.insert(inbound, up);
    user.down.insert(inbound, down);
    user.last_online.insert(inbound, last_online);
}

/// Reads one more client, on `inbound`, into the users (see [`apply_client`]).
fn read_client(users: &mut Vec<SyncedUser>, inbound: i64, c: &JsonValue)
    requires
        distinct_users(models(old(users)@)),
    ensures
        distinct_users(models(final(users)@)),
        models(final(users)@) == apply_client(models(old(users)@), inbound, *c),
{
    let ghost t = models(users@);
    let ghost cv = client_view(*c);
    let uuid = match text_field(c, "uuid") {
        Some(s) => s.clone(),
        None => String::new(),
    };
    if uuid.as_str().is_empty() {
        return;
    }
    let email = match text_field(c, "email") {
        Some(s) => s.as_str().trim_name_suffix(),
        None => String::new(),
    };
    let enable = match bool_field(c, "enable") {
        Some(b) => b,
        None => false,
    };
    let up = match int_field(c, "up") {
        Some(n) => n,
        None => 0,
    };
    let down = match int_field(c, "down") {
        Some(n) => n,
        None => 0,
    };
    let last_online = match int_field(c, "lastOnline") {
        Some(n) => n,
        None => 0,
    };
    let expiry = match int_field(c, "expiryTime") {
        Some(n) => n,
        None => 0,
    };
    assert(uuid@ == cv.uuid);
    assert(email@ == cv.name);
    match find_user(users, uuid.as_str()) {
        Some(i) => {
            let ghost before = users@;
            merge_client(&mut users[i], inbound, email, enable, up, down, last_online, expiry);
            assert(users@ == before.update(i as int, users@[i as int]));
            assert(models(users@) =~= t.update(i as int, merged(t[i as int], inbound, cv)));
            assert forall|a: int, b: int|
                0 <= a < b < models(users@).len() implies (#[trigger] models(users@)[a]).uuid
                != (#[trigger] models(users@)[b]).uuid by {
                assert(t[a].uuid != t[b].uuid);
            }
        },
        None => {
            let mut user = SyncedUser {
                uuid,
                name: email.clone(),
                is_active: enable,
                max_expiry: expiry,
                up: HashMap::new(),
                down: HashMap::new(),
                last_online: HashMap::new(),
            };
            assert(user.model() == fresh(cv));
            merge_client(&mut user, inbound, email, enable, up, down, last_online, expiry);
            users.push(user);
            assert(models(users@) =~= t.push(merged(fresh(cv), inbound, cv)));
            assert forall|a: int, b: int|
                0 <= a < b < models(users@).len() implies (#[trigger] models(users@)[a]).uuid
                != (#[trigger] models(users@)[b]).uuid by {
                if b < t.len() {
                    assert(t[a].uuid != t[b].uuid);
                } else {
                    assert(models(users@)[a] == t[a]);
                    if t[a].uuid == cv.uuid {
                        assert(has_user(t, cv.uuid));
                    }
                }
            }
        },
    }
}

/// Reads the clients of `inbound`, in order, into the users (see [`apply_clients`]).
fn read_clients(users: &mut Vec<SyncedUser>, inbound: i64, clients: &Vec<JsonValue>)
    requires
        distinct_users(models(old(users)@)),
    ensures
        distinct_users(models(final(users)@)),
        models(final(users)@) == apply_clients(models(old(users)@), inbound, clients@),
{
    let ghost t0 = models(users@);
    let mut i: usize = 0;
    assert(clients@.take(0) =~= Seq::<JsonValue>::empty());
    while i < clients.len()
        invariant
            i <= clients.len(),
            distinct_users(models(users@)),
            models(users@) == apply_clients(t0, inbound, clients@.take(i as int)),
        decreases clients.len() - i,
    {
        assert(clients@.take(i + 1).drop_last() =~= clients@.take(i as int));
        assert(clients@.take(i + 1).last() == clients@[i as int]);
        read_client(users, inbound, &clients[i]);
        i = i + 1;
    }
    assert(clients@.take(i as int) =~= clients@);
}

/// The users listed in the panel's reply to the inbound list (see [`synced_users`]), each id
/// once, in the order their ids first appear.
pub fn collect_synced_users(reply: &JsonValue) -> (res: Result<Vec<SyncedUser>, SyncError>)
    ensures
        match res {
            Ok(users) => synced_users(*reply) == Ok::<Seq<UserView>, SyncError>(models(users@))
                && distinct_users(models(users@)),
            Err(e) => synced_users(*reply) == Err::<Seq<UserView>, SyncError>(e),
        },
{
    let inbounds = match items_field(reply, "obj") {
        Some(items) => items,
        None => return Err(SyncError::NoObj),
    };
    let mut users: Vec<SyncedUser> = Vec::new();
    let mut i: usize = 0;
    assert(inbounds@.take(0) =~= Seq::<JsonValue>::empty());
    assert(models(users@) =~= Seq::<UserView>::empty());
    while i < inbounds.len()
        invariant
            i <= inbounds.len(),
            distinct_users(models(users@)),
            gather(inbounds@.take(i as int)) == Ok::<Seq<UserView>, SyncError>(models(users@)),
            synced_users(*reply) == gather(inbounds@),
        decreases inbounds.len() - i,
    {
        let ghost prefix = inbounds@.take(i + 1);
        assert(prefix.drop_last() =~= inbounds@.take(i as int));
        assert(prefix.last() == inbounds@[i as int]);
        let inbound = &inbounds[i];
        i = i + 1;
        let inbound_id = match int_field(inbound, "id") {
            Some(id) => id,
            None => continue,
        };
        let clients = match items_field(inbound, "clientStats") {
            Some(items) => items,
            None => {
                assert(gather(prefix) == Err::<Seq<UserView>, SyncError>(SyncError::NoClientStats));
                assert(prefix == inbounds@.take(i as int));
                proof {
                    lemma_gather_stops(inbounds@, i as int);
                }
                return Err(SyncError::NoClientStats);
            },
        };
        read_clients(&mut users, inbound_id, clients);
    }
    assert(inbounds@.take(i as int) =~= inbounds@);
    Ok(users)
}

/// The users listed in the panel's reply body `body` to the inbound list: the parser's message
/// where `serde_json` does not read it as JSON; else the users that [`collect_synced_users`]
/// gathers from the document, or its error's message.
pub fn synced_users_from_reply(body: &str) -> (res: Result<Vec<SyncedUser>, String>)
    ensures
        match json_document(body@) {
            Err(m) => res matches Err(e) && e@ == m,
            Ok(doc) => match synced_users(doc) {
                Ok(t) => res matches Ok(users) && models(users@) == t && distinct_users(
                    models(users@),
                ),
                Err(se) => res matches Err(e) && e@ == error_text(se),
            },
        },
{
    let doc = match read_json(body) {
        Ok(d) => d,
        Err(m) => return Err(m),
    };
    match collect_synced_users(&doc) {
        Ok(users) => Ok(users),
        Err(e) => Err(String::from_str(e.message())),
    }
}

/// Once an inbound stops the gathering, no later inbound resumes it.
proof fn lemma_gather_stops(inbounds: Seq<JsonValue>, k: int)
    requires
        0 < k <= inbounds.len(),
        gather(inbounds.take(k)) == Err::<Seq<UserView>, SyncError>(SyncError::NoClientStats),
    ensures
        gather(inbounds) == Err::<Seq<UserView>, SyncError>(SyncError::NoClientStats),
    decreases inbounds.len() - k,
{
    if k == inbounds.len() {
        assert(inbounds.take(k) =~= inbounds);
    } else {
        assert(inbounds.take(k + 1).drop_last() =~= inbounds.take(k));
        lemma_gather_stops(inbounds, k + 1);
    }
}

/// The characters of an optional string.
pub open spec fn text_of(s: Option<String>) -> Option<Seq<char>> {
    match s {
        Some(x) => Some(x@),
        None => None,
    }
}

/// The days left and the next payment date of a user, given what `chrono` says of its latest
/// expiry `max_expiry` (see [`user_schedule`]).
pub open spec fn schedule_of(
    max_expiry: i64,
    date: Option<Seq<char>>,
    days: Option<i64>,
) -> Result<(i64, Seq<char>), SyncError> {
    if max_expiry > 0 {
        match (date, days) {
            (Some(d), Some(n)) => Ok((n, d)),
            _ => Err(SyncError::InvalidExpiry),
        }
    } else {
        Ok((0, seq![]))
    }
}

/// The days left and the next payment date of a user whose latest expiry is `max_expiry`,
/// given the expiry's date and the whole days to it as `chrono` computes them: none and an
/// empty date where the user has no expiry; an error where `chrono` cannot represent it.
pub fn schedule_from(max_expiry: i64, date: Option<String>, days: Option<i64>) -> (res: Result<
    (i64, String),
    SyncError,
>)
    ensures
        match res {
            Ok((n, d)) => schedule_of(max_expiry, text_of(date), days) == Ok::<
                (i64, Seq<char>),
                SyncError,
            >((n, d@)),
            Err(e) => schedule_of(max_expiry, text_of(date), days) == Err::<
                (i64, Seq<char>),
                SyncError,
            >(e),
        },
        res matches Ok((n, d)) ==> (max_expiry > 0 ==> text_of(date) == Some(d@) && days == Some(
            n,
        )),
        max_expiry > 0 ==> (res is Ok <==> (date is Some && days is Some)),
        max_expiry <= 0 ==> (res matches Ok((n, d)) && n == 0 && d@.len() == 0),
{
    if max_expiry > 0 {
        match (date, days) {
            (Some(d), Some(n)) => Ok((n, d)),
            _ => Err(SyncError::InvalidExpiry),
        }
    } else {
        Ok((0, String::new()))
    }
}

/// The days left and the next payment date of a user whose latest expiry is `max_expiry`:
/// none and an empty date where it has no expiry; else the whole days from `now` to the
/// expiry and the expiry's date. An expiry that `chrono` cannot represent is an error.
pub fn user_schedule(max_expiry: i64, now: &UtcInstant) -> (res: Result<(i64, String), SyncError>)
    ensures
        match res {
            Ok((n, d)) => schedule_of(
                max_expiry,
                utc_date_text(max_expiry),
                utc_whole_days(now.secs, now.nanos, max_expiry),
            ) == Ok::<(i64, Seq<char>), SyncError>((n, d@)),
            Err(e) => schedule_of(
                max_expiry,
                utc_date_text(max_expiry),
                utc_whole_days(now.secs, now.nanos, max_expiry),
            ) == Err::<(i64, Seq<char>), SyncError>(e),
        },
        now.nanos < 1_000_000_000 ==> (res is Err <==> (max_expiry > 0 && !(in_chrono_range(
            max_expiry / 86_400_000,
        ) && in_chrono_range(now.secs / 86_400)))),
        res matches Ok((n, d)) ==> (max_expiry > 0 ==> utc_date_text(max_expiry) == Some(d@)
            && utc_whole_days(now.secs, now.nanos, max_expiry) == Some(n)),
        res matches Ok((n, _)) ==> (max_expiry > 0 && now.nanos < 1_000_000_000 ==> n
            == days_toward_zero(max_expiry * 1_000_000 - (now.secs * 1_000_000_000 + now.nanos))),
{
    if max_expiry > 0 {
        let date = utc_date_of_millis(max_expiry);
        let days = whole_days_until(now, max_expiry);
        proof {
            assert(text_of(date) == utc_date_text(max_expiry));
        }
        schedule_from(max_expiry, date, days)
    } else {
        schedule_from(max_expiry, None, None)
    }
}

/// Reading one more client loses nothing: every user keeps its place and id, an active user
/// stays active and no expiry goes back; the client's user then exists, takes the client's
/// name, traffic and last activity for the inbound, is active if the client is enabled, and
/// expires no earlier than the client. Ids stay distinct.
pub proof fn lemma_reading_a_client_loses_nothing(t: Seq<UserView>, inbound: i64, client: JsonValue)
    requires
        distinct_users(t),
    ensures
        ({
            let r = apply_client(t, inbound, client);
            let c = client_view(client);
            &&& distinct_users(r)
            &&& r.len() >= t.len()
            &&& forall|i: int|
                0 <= i < t.len() ==> {
                    &&& (#[trigger] r[i]).uuid == t[i].uuid
                    &&& t[i].is_active ==> r[i].is_active
                    &&& r[i].max_expiry >= t[i].max_expiry
                }
            &&& c.uuid.len() > 0 ==> {
                &&& has_user(r, c.uuid)
                &&& r[user_at(r, c.uuid)].name == c.name
                &&& (c.enable ==> r[user_at(r, c.uuid)].is_active)
                &&& r[user_at(r, c.uuid)].max_expiry >= c.expiry
                &&& r[user_at(r, c.uuid)].up[inbound] == c.up
                &&& r[user_at(r, c.uuid)].down[inbound] == c.down
                &&& r[user_at(r, c.uuid)].last_online[inbound] == c.last_online
            }
        }),
{
    let r = apply_client(t, inbound, client);
    let c = client_view(client);
    if c.uuid.len() > 0 {
        let k: int = if has_user(t, c.uuid) {
            user_at(t, c.uuid)
        } else {
            t.len() as int
        };
        assert(r[k].uuid == c.uuid);
        assert(has_user(r, c.uuid));
        let j = user_at(r, c.uuid);
        assert(distinct_users(r)) by {
            assert forall|a: int, b: int| 0 <= a < b < r.len() implies (#[trigger] r[a]).uuid
                != (#[trigger] r[b]).uuid by {
                if b < t.len() {
                    assert(t[a].uuid != t[b].uuid);
                } else if t[a].uuid == c.uuid {
                    assert(has_user(t, c.uuid));
                }
            }
        }
        assert(j == k) by {
            if j != k {
                if j < k {
                    assert(r[j].uuid != r[k].uuid);
                } else {
                    assert(r[k].uuid != r[j].uuid);
                }
            }
        }
    }
}

/// The clients that the gathering reads from the inbounds `inbounds`, in order: those of each
/// inbound with an integer `id` and a `clientStats` array.
pub open spec fn listed_clients(inbounds: Seq<JsonValue>) -> Seq<JsonValue>
    decreases inbounds.len(),
{
    if inbounds.len() == 0 {
        seq![]
    } else {
        let inbound = inbounds.last();
        listed_clients(inbounds.drop_last()) + match as_i64(index(inbound, "id"@)) {
            None => seq![],
            Some(_) => match as_items(index(inbound, "clientStats"@)) {
                Some(clients) => clients,
                None => seq![],
            },
        }
    }
}

/// Whether the `k`-th client of `cs` belongs to the user with the id `uuid`.
pub open spec fn client_of(cs: Seq<JsonValue>, k: int, uuid: Seq<char>) -> bool {
    0 <= k < cs.len() && client_view(cs[k]).uuid == uuid
}

/// Whether the user `u` is what the clients `cs` say of its id: its id is not empty, it has a
/// client, it is active exactly when one of its clients is enabled, and it expires at the
/// latest expiry of its clients.
pub open spec fn user_fits(u: UserView, cs: Seq<JsonValue>) -> bool {
    &&& u.uuid.len() > 0
    &&& exists|k: int| #[trigger] client_of(cs, k, u.uuid)
    &&& u.is_active <==> exists|k: int| #[trigger]
        client_of(cs, k, u.uuid) && client_view(cs[k]).enable
    &&& forall|k: int| #[trigger]
        client_of(cs, k, u.uuid) ==> client_view(cs[k]).expiry <= u.max_expiry
    &&& exists|k: int| #[trigger]
        client_of(cs, k, u.uuid) && client_view(cs[k]).expiry == u.max_expiry
}

/// Whether the users `t` are exactly what the clients `cs` say: ids are distinct, every
/// client with an id has its user, and every user fits its clients.
pub open spec fn summarizes(t: Seq<UserView>, cs: Seq<JsonValue>) -> bool {
    &&& distinct_users(t)
    &&& forall|k: int|
        0 <= k < cs.len() && client_view(#[trigger] cs[k]).uuid.len() > 0 ==> has_user(
            t,
            client_view(cs[k]).uuid,
        )
    &&& forall|i: int| 0 <= i < t.len() ==> user_fits(#[trigger] t[i], cs)
}

proof fn lemma_push_client_of(cs: Seq<JsonValue>, c: JsonValue)
    ensures
        forall|k: int, u: Seq<char>|
            0 <= k < cs.len() ==> (#[trigger] client_of(cs.push(c), k, u) == client_of(cs, k, u)),
        forall|u: Seq<char>|
            #[trigger] client_of(cs.push(c), cs.len() as int, u) == (client_view(c).uuid == u),
{
    assert forall|k: int, u: Seq<char>| 0 <= k < cs.len() implies (#[trigger] client_of(
        cs.push(c),
        k,
        u,
    ) == client_of(cs, k, u)) by {
        assert(cs.push(c)[k] == cs[k]);
    }
    assert(cs.push(c)[cs.len() as int] == c);
}

/// A user keeps fitting when a client of another user is added.
proof fn lemma_fits_other_client(u: UserView, cs: Seq<JsonValue>, c: JsonValue)
    requires
        user_fits(u, cs),
        client_view(c).uuid != u.uuid,
    ensures
        user_fits(u, cs.push(c)),
{
    let cs2 = cs.push(c);
    lemma_push_client_of(cs, c);
    let k1 = choose|k: int| #[trigger] client_of(cs, k, u.uuid);
    assert(client_of(cs2, k1, u.uuid));
    if u.is_active {
        let k2 = choose|k: int| #[trigger] client_of(cs, k, u.uuid) && client_view(cs[k]).enable;
        assert(client_of(cs2, k2, u.uuid) && client_view(cs2[k2]).enable);
    }
    if exists|k: int| #[trigger] client_of(cs2, k, u.uuid) && client_view(cs2[k]).enable {
        let k2 = choose|k: int| #[trigger] client_of(cs2, k, u.uuid) && client_view(cs2[k]).enable;
        assert(k2 < cs.len());
        assert(client_of(cs, k2, u.uuid) && client_view(cs[k2]).enable);
    }
    assert forall|k: int| #[trigger]
        client_of(cs2, k, u.uuid) implies client_view(cs2[k]).expiry <= u.max_expiry by {
        assert(k < cs.len());
        assert(client_of(cs, k, u.uuid));
    }
    let k3 = choose|k: int| #[trigger]
        client_of(cs, k, u.uuid) && client_view(cs[k]).expiry == u.max_expiry;
    assert(client_of(cs2, k3, u.uuid) && client_view(cs2[k3]).expiry == u.max_expiry);
}

/// A user merged with one more of its clients fits the clients with that one added.
proof fn lemma_fits_merged(u: UserView, cs: Seq<JsonValue>, inbound: i64, c: JsonValue)
    requires
        user_fits(u, cs),
        client_view(c).uuid == u.uuid,
    ensures
        user_fits(merged(u, inbound, client_view(c)), cs.push(c)),
{
    let cs2 = cs.push(c);
    let cv = client_view(c);
    let m = merged(u, inbound, cv);
    let n = cs.len() as int;
    lemma_push_client_of(cs, c);
    assert(client_of(cs2, n, u.uuid));
    assert(cs2[n] == c);
    if u.is_active {
        let k2 = choose|k: int| #[trigger] client_of(cs, k, u.uuid) && client_view(cs[k]).enable;
        assert(client_of(cs2, k2, u.uuid) && client_view(cs2[k2]).enable);
    }
    if cv.enable {
        assert(client_of(cs2, n, u.uuid) && client_view(cs2[n]).enable);
    }
    if exists|k: int| #[trigger] client_of(cs2, k, u.uuid) && client_view(cs2[k]).enable {
        let k2 = choose|k: int| #[trigger] client_of(cs2, k, u.uuid) && client_view(cs2[k]).enable;
        if k2 < n {
            assert(client_of(cs, k2, u.uuid) && client_view(cs[k2]).enable);
        }
    }
    assert forall|k: int| #[trigger]
        client_of(cs2, k, u.uuid) implies client_view(cs2[k]).expiry <= m.max_expiry by {
        if k < n {
            assert(client_of(cs, k, u.uuid));
        }
    }
    if cv.expiry > u.max_expiry {
        assert(client_of(cs2, n, u.uuid) && client_view(cs2[n]).expiry == m.max_expiry);
    } else {
        let k3 = choose|k: int| #[trigger]
            client_of(cs, k, u.uuid) && client_view(cs[k]).expiry == u.max_expiry;
        assert(client_of(cs2, k3, u.uuid) && client_view(cs2[k3]).expiry == m.max_expiry);
    }
    assert(m.uuid == u.uuid);
    assert(m.uuid.len() > 0);
    assert(exists|k: int| #[trigger] client_of(cs2, k, m.uuid));
    assert(m.is_active <==> exists|k: int| #[trigger]
        client_of(cs2, k, m.uuid) && client_view(cs2[k]).enable);
    assert(forall|k: int| #[trigger]
        client_of(cs2, k, m.uuid) ==> client_view(cs2[k]).expiry <= m.max_expiry);
    assert(exists|k: int| #[trigger]
        client_of(cs2, k, m.uuid) && client_view(cs2[k]).expiry == m.max_expiry);
}

/// A user started by a client whose id no earlier client has fits the clients with it added.
proof fn lemma_fits_fresh(cs: Seq<JsonValue>, inbound: i64, c: JsonValue)
    requires
        client_view(c).uuid.len() > 0,
        forall|k: int| !#[trigger] client_of(cs, k, client_view(c).uuid),
    ensures
        user_fits(merged(fresh(client_view(c)), inbound, client_view(c)), cs.push(c)),
{
    let cs2 = cs.push(c);
    let cv = client_view(c);
    let m = merged(fresh(cv), inbound, cv);
    let n = cs.len() as int;
    lemma_push_client_of(cs, c);
    assert(cs2[n] == c);
    assert(client_of(cs2, n, cv.uuid));
    assert forall|k: int| #[trigger] client_of(cs2, k, cv.uuid) implies k == n by {
        if k < n {
            assert(client_of(cs, k, cv.uuid));
        }
    }
    if cv.enable {
        assert(client_of(cs2, n, cv.uuid) && client_view(cs2[n]).enable);
    }
    assert(client_of(cs2, n, cv.uuid) && client_view(cs2[n]).expiry == m.max_expiry);
    assert(m.uuid == cv.uuid);
    assert(m.is_active == cv.enable);
    if exists|k: int| #[trigger] client_of(cs2, k, cv.uuid) && client_view(cs2[k]).enable {
        let k2 = choose|k: int| #[trigger] client_of(cs2, k, cv.uuid) && client_view(cs2[k]).enable;
        assert(k2 == n);
        assert(cv.enable);
    }
    assert forall|k: int| #[trigger]
        client_of(cs2, k, cv.uuid) implies client_view(cs2[k]).expiry <= m.max_expiry by {
        assert(k == n);
    }
}

proof fn lemma_summarizes_step(t: Seq<UserView>, cs: Seq<JsonValue>, inbound: i64, c: JsonValue)
    requires
        summarizes(t, cs),
    ensures
        summarizes(apply_client(t, inbound, c), cs.push(c)),
{
    let r = apply_client(t, inbound, c);
    let cs2 = cs.push(c);
    let cv = client_view(c);
    let n = cs.len() as int;
    assert(cs2[n] == c);
    lemma_reading_a_client_loses_nothing(t, inbound, c);
    lemma_push_client_of(cs, c);
    assert forall|k: int|
        0 <= k < cs2.len() && client_view(#[trigger] cs2[k]).uuid.len() > 0 implies has_user(
        r,
        client_view(cs2[k]).uuid,
    ) by {
        if k < n {
            assert(cs2[k] == cs[k]);
            let u = client_view(cs[k]).uuid;
            assert(has_user(t, u));
            let i = choose|i: int| 0 <= i < t.len() && (#[trigger] t[i]).uuid == u;
            assert(r[i].uuid == u);
        }
    }
    if cv.uuid.len() == 0 {
        assert forall|i: int| 0 <= i < r.len() implies user_fits(#[trigger] r[i], cs2) by {
            assert(user_fits(t[i], cs));
            lemma_fits_other_client(t[i], cs, c);
        }
    } else if has_user(t, cv.uuid) {
        let p = user_at(t, cv.uuid);
        assert forall|i: int| 0 <= i < r.len() implies user_fits(#[trigger] r[i], cs2) by {
            assert(user_fits(t[i], cs));
            if i == p {
                lemma_fits_merged(t[i], cs, inbound, c);
            } else {
                assert(t[i].uuid != t[p].uuid) by {
                    if i < p {
                        assert(t[i].uuid != t[p].uuid);
                    } else {
                        assert(t[p].uuid != t[i].uuid);
                    }
                }
                lemma_fits_other_client(t[i], cs, c);
            }
        }
    } else {
        assert forall|k: int| !#[trigger] client_of(cs, k, cv.uuid) by {
            if client_of(cs, k, cv.uuid) {
                assert(client_view(cs[k]).uuid.len() > 0);
                assert(has_user(t, client_view(cs[k]).uuid));
            }
        }
        assert forall|i: int| 0 <= i < r.len() implies user_fits(#[trigger] r[i], cs2) by {
            if i < t.len() {
                assert(user_fits(t[i], cs));
                assert(t[i].uuid != cv.uuid);
                lemma_fits_other_client(t[i], cs, c);
            } else {
                lemma_fits_fresh(cs, inbound, c);
            }
        }
    }
}

proof fn lemma_summarizes_clients(t: Seq<UserView>, cs: Seq<JsonValue>, inbound: i64, more: Seq<JsonValue>)
    requires
        summarizes(t, cs),
    ensures
        summarizes(apply_clients(t, inbound, more), cs + more),
    decreases more.len(),
{
    if more.len() == 0 {
        assert(cs + more =~= cs);
    } else {
        lemma_summarizes_clients(t, cs, inbound, more.drop_last());
        lemma_summarizes_step(
            apply_clients(t, inbound, more.drop_last()),
            cs + more.drop_last(),
            inbound,
            more.last(),
        );
        assert((cs + more.drop_last()).push(more.last()) =~= cs + more);
    }
}

proof fn lemma_gather_summarizes(inbounds: Seq<JsonValue>)
    requires
        gather(inbounds) is Ok,
    ensures
        summarizes(gather(inbounds)->Ok_0, listed_clients(inbounds)),
    decreases inbounds.len(),
{
    if inbounds.len() == 0 {
        assert(summarizes(Seq::<UserView>::empty(), Seq::<JsonValue>::empty()));
    } else {
        let rest = inbounds.drop_last();
        lemma_gather_summarizes(rest);
        let t0 = gather(rest)->Ok_0;
        let inbound = inbounds.last();
        match as_i64(index(inbound, "id"@)) {
            None => {
                assert(listed_clients(inbounds) =~= listed_clients(rest));
            },
            Some(id) => {
                let clients = as_items(index(inbound, "clientStats"@))->Some_0;
                lemma_summarizes_clients(t0, listed_clients(rest), id, clients);
            },
        }
    }
}

/// The sync's users are exactly what the listed clients say: each id once; every client with
/// an id has its user; a user is active exactly when one of its clients is enabled, and
/// expires at the latest expiry among its clients.
pub proof fn lemma_synced_users_fit_their_clients(reply: JsonValue)
    requires
        synced_users(reply) is Ok,
    ensures
        summarizes(
            synced_users(reply)->Ok_0,
            listed_clients(as_items(index(reply, "obj"@))->Some_0),
        ),
{
    lemma_gather_summarizes(as_items(index(reply, "obj"@))->Some_0);
}

/// A client without an id changes nothing, wherever it stands among the clients read.
proof fn lemma_apply_skips_client_without_id(
    t: Seq<UserView>,
    inbound: i64,
    clients: Seq<JsonValue>,
    k: int,
    c: JsonValue,
)
    requires
        0 <= k <= clients.len(),
        client_view(c).uuid.len() == 0,
    ensures
        apply_clients(t, inbound, clients.insert(k, c)) == apply_clients(t, inbound, clients),
    decreases clients.len(),
{
    let longer = clients.insert(k, c);
    if k == clients.len() {
        assert(longer.drop_last() =~= clients);
        assert(longer.last() == c);
    } else {
        lemma_apply_skips_client_without_id(t, inbound, clients.drop_last(), k, c);
        assert(longer.drop_last() =~= clients.drop_last().insert(k, c));
        assert(longer.last() == clients.last());
    }
}

/// An inbound without an integer id changes nothing, wherever it stands in the list.
proof fn lemma_gather_skips_inbound_without_id(inbounds: Seq<JsonValue>, k: int, x: JsonValue)
    requires
        0 <= k <= inbounds.len(),
        as_i64(index(x, "id"@)) is None,
    ensures
        gather(inbounds.insert(k, x)) == gather(inbounds),
    decreases inbounds.len(),
{
    let longer = inbounds.insert(k, x);
    if k == inbounds.len() {
        assert(longer.drop_last() =~= inbounds);
        assert(longer.last() == x);
    } else {
        lemma_gather_skips_inbound_without_id(inbounds.drop_last(), k, x);
        assert(longer.drop_last() =~= inbounds.drop_last().insert(k, x));
        assert(longer.last() == inbounds.last());
    }
}

/// Whether the inbound `y` is the inbound `x` with the client `c` put among its clients at
/// place `k`: same id, and the clients of `x` with `c` inserted.
pub open spec fn with_one_more_client(x: JsonValue, y: JsonValue, k: int, c: JsonValue) -> bool {
    &&& as_i64(index(y, "id"@)) == as_i64(index(x, "id"@))
    &&& as_items(index(x, "clientStats"@)) is Some
    &&& 0 <= k <= as_items(index(x, "clientStats"@))->Some_0.len()
    &&& as_items(index(y, "clientStats"@)) == Some(
        as_items(index(x, "clientStats"@))->Some_0.insert(k, c),
    )
}

/// A client without an id, put among the clients of one inbound, changes nothing.
proof fn lemma_gather_skips_client_without_id(
    inbounds: Seq<JsonValue>,
    j: int,
    y: JsonValue,
    k: int,
    c: JsonValue,
)
    requires
        0 <= j < inbounds.len(),
        with_one_more_client(inbounds[j], y, k, c),
        client_view(c).uuid.len() == 0,
    ensures
        gather(inbounds.update(j, y)) == gather(inbounds),
    decreases inbounds.len(),
{
    let changed = inbounds.update(j, y);
    if j == inbounds.len() - 1 {
        assert(changed.drop_last() =~= inbounds.drop_last());
        assert(changed.last() == y);
        let x = inbounds.last();
        match as_i64(index(x, "id"@)) {
            None => {},
            Some(id) => {
                let clients = as_items(index(x, "clientStats"@))->Some_0;
                match gather(inbounds.drop_last()) {
                    Err(_) => {},
                    Ok(t) => {
                        lemma_apply_skips_client_without_id(t, id, clients, k, c);
                    },
                }
            },
        }
    } else {
        lemma_gather_skips_client_without_id(inbounds.drop_last(), j, y, k, c);
        assert(changed.drop_last() =~= inbounds.drop_last().update(j, y));
        assert(changed.last() == inbounds.last());
    }
}

/// A sync skips what has no id: a reply whose inbound list holds one more inbound without an
/// integer `id`, anywhere in it, gives the same users, or the same error, as the reply
/// without it.
pub proof fn lemma_inbound_without_id_changes_nothing(
    reply: JsonValue,
    more: JsonValue,
    k: int,
    x: JsonValue,
)
    requires
        as_items(index(reply, "obj"@)) is Some,
        0 <= k <= as_items(index(reply, "obj"@))->Some_0.len(),
        as_items(index(more, "obj"@)) == Some(as_items(index(reply, "obj"@))->Some_0.insert(k, x)),
        as_i64(index(x, "id"@)) is None,
    ensures
        synced_users(more) == synced_users(reply),
{
    lemma_gather_skips_inbound_without_id(as_items(index(reply, "obj"@))->Some_0, k, x);
}

/// A sync skips what has no id: a reply in which one inbound lists one more client whose
/// `uuid` is missing or empty, anywhere among its clients, gives the same users, or the same
/// error, as the reply without it.
pub proof fn lemma_client_without_id_changes_nothing(
    reply: JsonValue,
    more: JsonValue,
    j: int,
    y: JsonValue,
    k: int,
    c: JsonValue,
)
    requires
        as_items(index(reply, "obj"@)) is Some,
        0 <= j < as_items(index(reply, "obj"@))->Some_0.len(),
        as_items(index(more, "obj"@)) == Some(as_items(index(reply, "obj"@))->Some_0.update(j, y)),
        with_one_more_client(as_items(index(reply, "obj"@))->Some_0[j], y, k, c),
        client_view(c).uuid.len() == 0,
    ensures
        synced_users(more) == synced_users(reply),
{
    lemma_gather_skips_client_without_id(as_items(index(reply, "obj"@))->Some_0, j, y, k, c);
}

/// The next payment date is the expiry's own date whenever there is an expiry, however many
/// days are left (none, some, or fewer than none), and the days left are the given days.
pub proof fn lemma_schedule_keeps_the_expiry_date(max_expiry: i64, date: Seq<char>, days: i64)
    requires
        max_expiry > 0,
    ensures
        schedule_of(max_expiry, Some(date), Some(days)) matches Ok((n, d)) && n == days && d
            == date,
{
}

/// The sync's users are named by their clients' ids, verbatim: every user's id is the whole
/// `uuid` text of one of the listed clients, and every listed client whose `uuid` text is not
/// empty has a user with exactly that id.
pub proof fn lemma_synced_user_ids_are_client_ids(reply: JsonValue)
    requires
        synced_users(reply) is Ok,
    ensures
        ({
            let t = synced_users(reply)->Ok_0;
            let cs = listed_clients(as_items(index(reply, "obj"@))->Some_0);
            &&& forall|i: int|
                0 <= i < t.len() ==> t[i].uuid.len() > 0 && exists|k: int|
                    0 <= k < cs.len() && #[trigger] as_text(index(cs[k], "uuid"@)) == Some(
                        #[trigger] t[i].uuid,
                    )
            &&& forall|k: int|
                0 <= k < cs.len() && #[trigger] as_text(index(cs[k], "uuid"@)) is Some
                    && as_text(index(cs[k], "uuid"@))->Some_0.len() > 0 ==> exists|i: int|
                    0 <= i < t.len() && #[trigger] t[i].uuid == as_text(index(cs[k], "uuid"@))->Some_0
        }),
{
    lemma_synced_users_fit_their_clients(reply);
    let t = synced_users(reply)->Ok_0;
    let cs = listed_clients(as_items(index(reply, "obj"@))->Some_0);
    assert forall|i: int| 0 <= i < t.len() implies t[i].uuid.len() > 0 && exists|k: int|
        0 <= k < cs.len() && #[trigger] as_text(index(cs[k], "uuid"@)) == Some(
            #[trigger] t[i].uuid,
        ) by {
        assert(user_fits(t[i], cs));
        let k = choose|k: int| #[trigger] client_of(cs, k, t[i].uuid);
        assert(client_view(cs[k]).uuid == t[i].uuid);
        assert(as_text(index(cs[k], "uuid"@)) == Some(t[i].uuid));
    }
    assert forall|k: int|
        0 <= k < cs.len() && #[trigger] as_text(index(cs[k], "uuid"@)) is Some && as_text(
            index(cs[k], "uuid"@),
        )->Some_0.len() > 0 implies exists|i: int|
        0 <= i < t.len() && #[trigger] t[i].uuid == as_text(index(cs[k], "uuid"@))->Some_0 by {
        assert(client_view(cs[k]).uuid == as_text(index(cs[k], "uuid"@))->Some_0);
        assert(has_user(t, client_view(cs[k]).uuid));
    }
}

/// The latest expiry a client of the panel states: its `expiryTime` integer, `0` where it has
/// none.
pub open spec fn stated_expiry(c: JsonValue) -> i64 {
    match as_i64(index(c, "expiryTime"@)) {
        Some(n) => n,
        None => 0,
    }
}

/// The sync's users read their clients' own fields: a user is active exactly when one of the
/// listed clients with its id verbatim has `enable` set to `true`, and it expires at the
/// latest `expiryTime` among those clients (a missing one counting as `0`).
pub proof fn lemma_synced_users_read_their_clients(reply: JsonValue)
    requires
        synced_users(reply) is Ok,
    ensures
        ({
            let t = synced_users(reply)->Ok_0;
            let cs = listed_clients(as_items(index(reply, "obj"@))->Some_0);
            forall|i: int|
                0 <= i < t.len() ==> {
                    &&& (#[trigger] t[i]).is_active <==> exists|k: int|
                        0 <= k < cs.len() && as_text(index(cs[k], "uuid"@)) == Some(t[i].uuid)
                            && #[trigger] as_bool(index(cs[k], "enable"@)) == Some(true)
                    &&& forall|k: int|
                        0 <= k < cs.len() && #[trigger] as_text(index(cs[k], "uuid"@)) == Some(
                            t[i].uuid,
                        ) ==> stated_expiry(cs[k]) <= t[i].max_expiry
                    &&& exists|k: int|
                        0 <= k < cs.len() && as_text(index(cs[k], "uuid"@)) == Some(t[i].uuid)
                            && #[trigger] stated_expiry(cs[k]) == t[i].max_expiry
                }
        }),
{
    lemma_synced_users_fit_their_clients(reply);
    let t = synced_users(reply)->Ok_0;
    let cs = listed_clients(as_items(index(reply, "obj"@))->Some_0);
    assert forall|i: int| 0 <= i < t.len() implies {
        &&& (#[trigger] t[i]).is_active <==> exists|k: int|
            0 <= k < cs.len() && as_text(index(cs[k], "uuid"@)) == Some(t[i].uuid)
                && #[trigger] as_bool(index(cs[k], "enable"@)) == Some(true)
        &&& forall|k: int|
            0 <= k < cs.len() && #[trigger] as_text(index(cs[k], "uuid"@)) == Some(t[i].uuid)
                ==> stated_expiry(cs[k]) <= t[i].max_expiry
        &&& exists|k: int|
            0 <= k < cs.len() && as_text(index(cs[k], "uuid"@)) == Some(t[i].uuid)
                && #[trigger] stated_expiry(cs[k]) == t[i].max_expiry
    } by {
        let u = t[i];
        assert(user_fits(u, cs));
        assert forall|k: int| 0 <= k < cs.len() implies (#[trigger] client_of(cs, k, u.uuid)
            <==> as_text(index(cs[k], "uuid"@)) == Some(u.uuid)) by {}
        assert forall|k: int| 0 <= k < cs.len() implies client_view(cs[k]).enable == (as_bool(
            index(cs[k], "enable"@),
        ) == Some(true)) && client_view(cs[k]).expiry == #[trigger] stated_expiry(cs[k]) by {}
        if u.is_active {
            let k = choose|k: int| #[trigger] client_of(cs, k, u.uuid) && client_view(cs[k]).enable;
            assert(as_bool(index(cs[k], "enable"@)) == Some(true));
        }
        if exists|k: int|
            0 <= k < cs.len() && as_text(index(cs[k], "uuid"@)) == Some(u.uuid)
                && #[trigger] as_bool(index(cs[k], "enable"@)) == Some(true) {
            let k = choose|k: int|
                0 <= k < cs.len() && as_text(index(cs[k], "uuid"@)) == Some(u.uuid)
                    && #[trigger] as_bool(index(cs[k], "enable"@)) == Some(true);
            assert(client_of(cs, k, u.uuid) && client_view(cs[k]).enable);
        }
        assert forall|k: int|
            0 <= k < cs.len() && #[trigger] as_text(index(cs[k], "uuid"@)) == Some(u.uuid)
                implies stated_expiry(cs[k]) <= u.max_expiry by {
            assert(client_of(cs, k, u.uuid));
        }
        let k = choose|k: int| #[trigger] client_of(cs, k, u.uuid) && client_view(cs[k]).expiry
            == u.max_expiry;
        assert(stated_expiry(cs[k]) == u.max_expiry);
    }
}

} // verus!
