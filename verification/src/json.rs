//! JSON values as far as they are edited here: the server is entered in the configuration of an
//! agent.

use crate::text;
use vstd::prelude::*;

verus! {

/// A JSON value. A number is kept as it is written.
pub enum Json {
    Null,
    Bool(bool),
    Number(String),
    Text(String),
    List(Vec<Json>),
    Object(Vec<Member>),
}

/// A member of an object.
pub struct Member {
    pub key: String,
    pub value: Json,
}

/// The member that holds the servers in the configuration of an agent.
pub const SERVERS_KEY: &'static str = "mcpServers";

/// The keys and values of members.
pub open spec fn member_views(ms: Seq<Member>) -> Seq<(Seq<char>, Json)> {
    Seq::new(ms.len(), |i: int| (ms[i].key@, ms[i].value))
}

/// The position of the first member with a key, from position `i` on, or the number of members.
pub open spec fn place_of(ms: Seq<(Seq<char>, Json)>, key: Seq<char>, i: int) -> int
    decreases ms.len() - i,
{
    if i >= ms.len() {
        ms.len() as int
    } else if ms[i].0 == key {
        i
    } else {
        place_of(ms, key, i + 1)
    }
}

/// The value of the member with a key.
pub open spec fn value_of(ms: Seq<(Seq<char>, Json)>, key: Seq<char>) -> Option<Json> {
    let i = place_of(ms, key, 0);
    if i < ms.len() {
        Some(ms[i].1)
    } else {
        None
    }
}

/// Members with a value set under a key: in the place of the value before it, or behind the
/// others.
pub open spec fn with_member(ms: Seq<(Seq<char>, Json)>, key: Seq<char>, value: Json) -> Seq<
    (Seq<char>, Json),
> {
    let i = place_of(ms, key, 0);
    if i < ms.len() {
        ms.update(i, (key, value))
    } else {
        ms.push((key, value))
    }
}

/// The members of a value: none where it is no object.
pub open spec fn members_of(v: Json) -> Seq<(Seq<char>, Json)> {
    match v {
        Json::Object(ms) => member_views(ms@),
        _ => Seq::empty(),
    }
}

/// Whether members can be set in a value: it is an object, or null, which stands for one without
/// members.
pub open spec fn takes_members(v: Json) -> bool {
    v is Null || v is Object
}

/// The servers of a configuration.
pub open spec fn servers_of(config: Json) -> Seq<(Seq<char>, Json)> {
    match value_of(members_of(config), SERVERS_KEY@) {
        Some(servers) => members_of(servers),
        None => Seq::empty(),
    }
}

/// Whether a server can be entered in a configuration.
pub open spec fn takes_servers(config: Json) -> bool {
    &&& takes_members(config)
    &&& value_of(members_of(config), SERVERS_KEY@) matches Some(servers) ==> takes_members(servers)
}

/// Whether `after` is the configuration `before` with the entry of a server.
pub open spec fn is_registered(before: Json, name: Seq<char>, entry: Json, after: Json) -> bool {
    &&& after is Object
    &&& value_of(members_of(after), SERVERS_KEY@) matches Some(servers) && servers is Object
        && members_of(after) == with_member(members_of(before), SERVERS_KEY@, servers)
    &&& servers_of(after) == with_member(servers_of(before), name, entry)
}

proof fn lemma_place_of(ms: Seq<(Seq<char>, Json)>, key: Seq<char>, i: int)
    requires
        0 <= i <= ms.len(),
    ensures
        i <= place_of(ms, key, i) <= ms.len(),
        place_of(ms, key, i) < ms.len() ==> ms[place_of(ms, key, i)].0 == key,
        forall|k: int| i <= k < place_of(ms, key, i) ==> (#[trigger] ms[k]).0 != key,
    decreases ms.len() - i,
{
    if i < ms.len() && ms[i].0 != key {
        lemma_place_of(ms, key, i + 1);
    }
}

/// The first position is the only one with nothing in front of it.
proof fn lemma_place_is(ms: Seq<(Seq<char>, Json)>, key: Seq<char>, i: int)
    requires
        0 <= i <= ms.len(),
        i < ms.len() ==> ms[i].0 == key,
        forall|k: int| 0 <= k < i ==> (#[trigger] ms[k]).0 != key,
    ensures
        place_of(ms, key, 0) == i,
{
    lemma_place_of(ms, key, 0);
}

/// A value that is set is found under its key, and what is under other keys stays.
pub proof fn law_setting_a_member(
    ms: Seq<(Seq<char>, Json)>,
    key: Seq<char>,
    value: Json,
    other: Seq<char>,
)
    ensures
        value_of(with_member(ms, key, value), key) == Some(value),
        other != key ==> value_of(with_member(ms, key, value), other) == value_of(ms, other),
{
    let after = with_member(ms, key, value);
    lemma_place_of(ms, key, 0);
    let i = place_of(ms, key, 0);
    lemma_place_is(after, key, i);
    if other != key {
        lemma_place_of(ms, other, 0);
        let k = place_of(ms, other, 0);
        lemma_place_of(after, other, 0);
        let j = place_of(after, other, 0);
        if k < ms.len() {
            assert forall|n: int| 0 <= n < k implies (#[trigger] after[n]).0 != other by {
                assert(ms[n].0 != other);
            }
            lemma_place_is(after, other, k);
        } else {
            assert forall|n: int| 0 <= n < after.len() implies (#[trigger] after[n]).0 != other by {
                if n < ms.len() {
                    assert(ms[n].0 != other);
                }
            }
            if j < after.len() {
                assert(after[j].0 == other);
            }
        }
    }
}

/// The server is found under its name after it was entered. The other servers, and what else is
/// in the configuration, stay.
pub proof fn law_registering_keeps_the_rest(
    before: Json,
    name: Seq<char>,
    entry: Json,
    after: Json,
    other: Seq<char>,
)
    requires
        is_registered(before, name, entry, after),
    ensures
        takes_servers(after),
        value_of(servers_of(after), name) == Some(entry),
        other != name ==> value_of(servers_of(after), other) == value_of(servers_of(before), other),
        other != SERVERS_KEY@ ==> value_of(members_of(after), other) == value_of(
            members_of(before),
            other,
        ),
{
    law_setting_a_member(servers_of(before), name, entry, other);
    let servers = value_of(members_of(after), SERVERS_KEY@)->0;
    law_setting_a_member(members_of(before), SERVERS_KEY@, servers, other);
}

/// Entering a server again, with the same entry, changes no server.
pub proof fn law_registering_twice_is_registering_once(
    before: Json,
    name: Seq<char>,
    entry: Json,
    once: Json,
    twice: Json,
)
    requires
        is_registered(before, name, entry, once),
        is_registered(once, name, entry, twice),
    ensures
        servers_of(twice) == servers_of(once),
{
    let ms = servers_of(before);
    let after = with_member(ms, name, entry);
    lemma_place_of(ms, name, 0);
    lemma_place_is(after, name, place_of(ms, name, 0));
    assert(with_member(after, name, entry) =~= after);
}

/// Finds the first member with a key.
fn find(ms: &Vec<Member>, key: &str) -> (r: Option<usize>)
    ensures
        r matches Some(i) ==> i == place_of(member_views(ms@), key@, 0) && i < ms@.len(),
        r is None ==> place_of(member_views(ms@), key@, 0) == ms@.len(),
{
    let mut i: usize = 0;
    while i < ms.len()
        invariant
            i <= ms@.len(),
            place_of(member_views(ms@), key@, 0) == place_of(member_views(ms@), key@, i as int),
        decreases ms.len() - i,
    {
        if text::str_eq(ms[i].key.as_str(), key) {
            return Some(i);
        }
        i += 1;
    }
    None
}

/// Sets a value under a key.
fn set_member(ms: &mut Vec<Member>, key: String, value: Json)
    ensures
        member_views(final(ms)@) == with_member(member_views(old(ms)@), key@, value),
{
    let ghost before = member_views(ms@);
    match find(ms, key.as_str()) {
        Some(i) => {
            ms.set(i, Member { key, value });
        },
        None => {
            ms.push(Member { key, value });
        },
    }
    assert(member_views(ms@) =~= with_member(before, key@, value));
}

/// Whether a server can be entered in a configuration.
pub fn can_register(config: &Json) -> (r: bool)
    ensures
        r == takes_servers(*config),
{
    match config {
        Json::Null => true,
        Json::Object(ms) => match find(ms, SERVERS_KEY) {
            Some(i) => match &ms[i].value {
                Json::Null => true,
                Json::Object(_) => true,
                _ => false,
            },
            None => true,
        },
        _ => false,
    }
}

/// Enters a server in the configuration of an agent.
pub fn register_server(config: Json, name: String, entry: Json) -> (r: Json)
    requires
        takes_servers(config),
    ensures
        is_registered(config, name@, entry, r),
{
    let mut members: Vec<Member> = match config {
        Json::Object(ms) => ms,
        _ => Vec::new(),
    };
    let ghost before = member_views(members@);
    assert(before =~= members_of(config));
    let mut servers: Vec<Member> = Vec::new();
    if let Some(i) = find(&members, SERVERS_KEY) {
        let m = members.remove(i);
        if let Json::Object(ms) = m.value {
            servers = ms;
        }
        members.insert(i, Member { key: m.key, value: Json::Null });
    }
    assert(member_views(servers@) =~= servers_of(config));
    set_member(&mut servers, name, entry);
    let ghost after = servers@;
    let ghost cleared = member_views(members@);
    let value = Json::Object(servers);
    set_member(&mut members, text::copy(SERVERS_KEY), value);
    proof {
        lemma_place_of(before, SERVERS_KEY@, 0);
        let i = place_of(before, SERVERS_KEY@, 0);
        assert forall|k: int| 0 <= k < i implies (#[trigger] cleared[k]).0 != SERVERS_KEY@ by {
            assert(cleared[k] == before[k]);
        }
        lemma_place_is(cleared, SERVERS_KEY@, i);
        assert(member_views(members@) =~= with_member(before, SERVERS_KEY@, value));
        law_setting_a_member(before, SERVERS_KEY@, value, name@);
    }
    Json::Object(members)
}

/// Whether a value is the entry that starts a program as a server.
pub open spec fn is_entry(v: Json, program: Seq<char>) -> bool {
    let ms = members_of(v);
    &&& ms.len() == 3
    &&& ms[0].0 == "command"@ && (ms[0].1 matches Json::Text(t) && t@ == program)
    &&& ms[1].0 == "args"@ && (ms[1].1 matches Json::List(l) && l@.len() == 1 && (
    l@[0] matches Json::Text(t) && t@ == "serve"@))
    &&& ms[2].0 == "env"@ && (ms[2].1 matches Json::Object(e) && e@.len() == 0)
}

/// The entry that starts a program as a server.
pub fn server_entry(program: &str) -> (r: Json)
    ensures
        is_entry(r, program@),
{
    let mut args: Vec<Json> = Vec::new();
    args.push(Json::Text(text::copy("serve")));
    let mut ms: Vec<Member> = Vec::new();
    ms.push(Member { key: text::copy("command"), value: Json::Text(text::copy(program)) });
    ms.push(Member { key: text::copy("args"), value: Json::List(args) });
    ms.push(Member { key: text::copy("env"), value: Json::Object(Vec::new()) });
    Json::Object(ms)
}

/// Members are listed one by one, with the key and the value of each.
pub proof fn law_members_are_listed_one_by_one(ms: Seq<Member>, i: int)
    requires
        0 <= i < ms.len(),
    ensures
        member_views(ms).len() == ms.len(),
        member_views(ms)[i] == (ms[i].key@, ms[i].value),
{
}

} // verus!
