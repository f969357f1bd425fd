//! A JSON value model for the settings file, and the hook rules over it.
use vstd::prelude::*;
use crate::text::{contains, lemma_find_self, str_contains, str_eq};

verus! {

/// The settings key that holds the hooks, and the key of a hook entry's hook list.
pub const HOOKS_KEY: &'static str = "hooks";
/// The key of a hook's command line.
pub const COMMAND_KEY: &'static str = "command";
/// The key of a hook's kind.
pub const TYPE_KEY: &'static str = "type";

/// A JSON value as the settings logic reads it. Numbers keep the exact text
/// that the JSON parser printed for them.
pub enum JsonValue {
    Null,
    Bool(bool),
    Number(String),
    Str(String),
    Array(Vec<JsonValue>),
    Object(Vec<JsonMember>),
}

/// One `key: value` member of a JSON object.
pub struct JsonMember {
    pub key: String,
    pub value: JsonValue,
}

/// The mathematical form of a JSON value.
pub enum Json {
    Null,
    Bool(bool),
    Number(Seq<char>),
    Str(Seq<char>),
    Array(Seq<Json>),
    Object(Seq<(Seq<char>, Json)>),
}

/// The mathematical form of a JSON value.
pub open spec fn json_view(v: JsonValue) -> Json
    decreases v,
{
    match v {
        JsonValue::Null => Json::Null,
        JsonValue::Bool(b) => Json::Bool(b),
        JsonValue::Number(n) => Json::Number(n@),
        JsonValue::Str(s) => Json::Str(s@),
        JsonValue::Array(items) => Json::Array(
            Seq::new(items@.len(), |i: int| if 0 <= i < items@.len() { json_view(items@[i]) } else { Json::Null }),
        ),
        JsonValue::Object(ms) => Json::Object(
            Seq::new(ms@.len(), |i: int| if 0 <= i < ms@.len() { (ms@[i].key@, json_view(ms@[i].value)) } else { (Seq::empty(), Json::Null) }),
        ),
    }
}

/// The mathematical form of the members of an object.
pub open spec fn members_view(ms: Seq<JsonMember>) -> Seq<(Seq<char>, Json)> {
    Seq::new(ms.len(), |i: int| (ms[i].key@, json_view(ms[i].value)))
}

/// The mathematical form of the items of an array.
pub open spec fn items_view(items: Seq<JsonValue>) -> Seq<Json> {
    Seq::new(items.len(), |i: int| json_view(items[i]))
}

/// An object's form is the form of its members; an array's the form of its
/// items.
pub proof fn lemma_json_view_containers(v: JsonValue)
    ensures
        v matches JsonValue::Object(ms) ==> json_view(v) == Json::Object(members_view(ms@)),
        v matches JsonValue::Array(items) ==> json_view(v) == Json::Array(items_view(items@)),
{
    match v {
        JsonValue::Object(ms) => {
            assert(json_view(v)->Object_0 =~= members_view(ms@));
        },
        JsonValue::Array(items) => {
            assert(json_view(v)->Array_0 =~= items_view(items@));
        },
        _ => {},
    }
}

// ---------------------------------------------------------------------------
// Member lookup and update
// ---------------------------------------------------------------------------

/// The first member at or after `i` whose key is `key`.
pub open spec fn key_index_from(ms: Seq<(Seq<char>, Json)>, key: Seq<char>, i: int) -> Option<int>
    decreases ms.len() - i,
{
    if i < 0 || i >= ms.len() {
        None
    } else if ms[i].0 == key {
        Some(i)
    } else {
        key_index_from(ms, key, i + 1)
    }
}

/// The position of the member with key `key`.
pub open spec fn key_index(ms: Seq<(Seq<char>, Json)>, key: Seq<char>) -> Option<int> {
    key_index_from(ms, key, 0)
}

/// A found member has the key; no member before it does; none has it where
/// nothing is found.
pub proof fn lemma_key_index_from(ms: Seq<(Seq<char>, Json)>, key: Seq<char>, i: int)
    requires
        0 <= i,
    ensures
        key_index_from(ms, key, i) matches Some(k) ==> i <= k < ms.len() && ms[k].0 == key && (
        forall|j: int| i <= j < k ==> ms[j].0 != key),
        key_index_from(ms, key, i) is None ==> forall|j: int| i <= j < ms.len() ==> ms[j].0 != key,
    decreases ms.len() - i,
{
    if i < ms.len() && ms[i].0 != key {
        lemma_key_index_from(ms, key, i + 1);
    }
}

/// `value.get(key)`: the member's value for an object that has the key;
/// nothing otherwise (also for values that are not objects).
pub open spec fn get(v: Json, key: Seq<char>) -> Option<Json> {
    match v {
        Json::Object(ms) => match key_index(ms, key) {
            Some(i) => Some(ms[i].1),
            None => None,
        },
        _ => None,
    }
}

/// An object with the member `key` set to `val`: replaced in place where the
/// key exists, appended otherwise.
pub open spec fn put(v: Json, key: Seq<char>, val: Json) -> Json {
    match v {
        Json::Object(ms) => match key_index(ms, key) {
            Some(i) => Json::Object(ms.update(i, (ms[i].0, val))),
            None => Json::Object(ms.push((key, val))),
        },
        _ => v,
    }
}

/// The first member with key `key` is at `k`.
pub proof fn lemma_key_index_is(ms: Seq<(Seq<char>, Json)>, key: Seq<char>, k: int)
    requires
        0 <= k < ms.len(),
        ms[k].0 == key,
        forall|j: int| 0 <= j < k ==> ms[j].0 != key,
    ensures
        key_index(ms, key) == Some(k),
{
    lemma_key_index_from(ms, key, 0);
    match key_index(ms, key) {
        Some(k2) => {
            if k2 < k {
                assert(ms[k2].0 != key);
            } else if k2 > k {
                assert(ms[k].0 != key);
            }
        },
        None => {
            assert(ms[k].0 != key);
        },
    }
}

/// No member has key `key`.
pub proof fn lemma_key_index_none(ms: Seq<(Seq<char>, Json)>, key: Seq<char>)
    requires
        forall|j: int| 0 <= j < ms.len() ==> ms[j].0 != key,
    ensures
        key_index(ms, key) is None,
{
    lemma_key_index_from(ms, key, 0);
    if let Some(k) = key_index(ms, key) {
        assert(ms[k].0 == key);
    }
}

/// After `put`, `get` gives the new value for that key and the old value for
/// every other key.
pub proof fn lemma_get_put(v: Json, key: Seq<char>, val: Json, other: Seq<char>)
    requires
        v is Object,
    ensures
        get(put(v, key, val), key) == Some(val),
        other != key ==> get(put(v, key, val), other) == get(v, other),
{
    let ms = v->Object_0;
    lemma_key_index_from(ms, key, 0);
    lemma_key_index_from(ms, other, 0);
    let ms2 = match key_index(ms, key) {
        Some(i) => ms.update(i, (ms[i].0, val)),
        None => ms.push((key, val)),
    };
    let pos = match key_index(ms, key) {
        Some(i) => i,
        None => ms.len() as int,
    };
    assert(put(v, key, val) == Json::Object(ms2));
    assert forall|j: int| 0 <= j < ms2.len() && j != pos implies ms2[j] == ms[j] by {}
    assert(ms2[pos] == (key, val));
    lemma_key_index_is(ms2, key, pos);
    if other != key {
        match key_index(ms, other) {
            Some(k) => {
                lemma_key_index_is(ms2, other, k);
            },
            None => {
                lemma_key_index_none(ms2, other);
            },
        }
    }
}

/// The position of the member named `key`.
pub fn find_key(ms: &Vec<JsonMember>, key: &str) -> (r: Option<usize>)
    ensures
        match r {
            Some(i) => key_index(members_view(ms@), key@) == Some(i as int),
            None => key_index(members_view(ms@), key@) is None,
        },
{
    let ghost mv = members_view(ms@);
    let mut i: usize = 0;
    while i < ms.len()
        invariant
            i <= ms@.len(),
            mv == members_view(ms@),
            key_index(mv, key@) == key_index_from(mv, key@, i as int),
        decreases ms@.len() - i,
    {
        if str_eq(ms[i].key.as_str(), key) {
            return Some(i);
        }
        i = i + 1;
    }
    None
}

/// `value.get(key)`.
pub fn get_member<'a>(v: &'a JsonValue, key: &str) -> (r: Option<&'a JsonValue>)
    ensures
        match r {
            Some(x) => get(json_view(*v), key@) == Some(json_view(*x)),
            None => get(json_view(*v), key@) is None,
        },
{
    proof {
        lemma_json_view_containers(*v);
    }
    match v {
        JsonValue::Object(ms) => match find_key(ms, key) {
            Some(i) => {
                proof {
                    lemma_key_index_from(members_view(ms@), key@, 0);
                }
                Some(&ms[i].value)
            },
            None => None,
        },
        _ => None,
    }
}

// ---------------------------------------------------------------------------
// Hooks in the settings file
// ---------------------------------------------------------------------------

/// A hook whose `command` is a string containing `needle`.
pub open spec fn command_contains(hook: Json, needle: Seq<char>) -> bool {
    match get(hook, COMMAND_KEY@) {
        Some(Json::Str(s)) => contains(s, needle),
        _ => false,
    }
}

/// A hook entry whose `hooks` array holds such a hook.
pub open spec fn entry_has_command(entry: Json, needle: Seq<char>) -> bool {
    match get(entry, HOOKS_KEY@) {
        Some(Json::Array(hs)) => exists|j: int| 0 <= j < hs.len() && command_contains(#[trigger] hs[j], needle),
        _ => false,
    }
}

/// `settings.hooks[event]` is an array holding an entry with a hook whose
/// command contains `needle`.
pub open spec fn has_hook_command(settings: Json, event: Seq<char>, needle: Seq<char>) -> bool {
    match get(settings, HOOKS_KEY@) {
        Some(hooks) => match get(hooks, event) {
            Some(Json::Array(es)) => exists|i: int|
                0 <= i < es.len() && entry_has_command(#[trigger] es[i], needle),
            _ => false,
        },
        None => false,
    }
}

/// Whether a hook event already contains a command substring.
pub fn hook_has_command(settings: &JsonValue, event: &str, needle: &str) -> (r: bool)
    ensures
        r == has_hook_command(json_view(*settings), event@, needle@),
{
    let hooks = match get_member(settings, HOOKS_KEY) {
        Some(h) => h,
        None => return false,
    };
    let event_hooks = match get_member(hooks, event) {
        Some(e) => e,
        None => return false,
    };
    proof {
        lemma_json_view_containers(*event_hooks);
    }
    let arr = match event_hooks {
        JsonValue::Array(a) => a,
        _ => return false,
    };
    let mut i: usize = 0;
    while i < arr.len()
        invariant
            i <= arr@.len(),
            json_view(*event_hooks) == Json::Array(items_view(arr@)),
            get(json_view(*settings), HOOKS_KEY@) == Some(json_view(*hooks)),
            get(json_view(*hooks), event@) == Some(json_view(*event_hooks)),
            forall|k: int| 0 <= k < i ==> !entry_has_command(#[trigger] items_view(arr@)[k], needle@),
        decreases arr@.len() - i,
    {
        if entry_has_command_exec(&arr[i], needle) {
            assert(entry_has_command(items_view(arr@)[i as int], needle@));
            assert(get(get(json_view(*settings), HOOKS_KEY@).unwrap(), event@).unwrap()->Array_0
                == items_view(arr@));
            return true;
        }
        i = i + 1;
    }
    false
}

/// Whether a hook entry's `hooks` array holds a hook whose command contains
/// `needle`.
fn entry_has_command_exec(entry: &JsonValue, needle: &str) -> (r: bool)
    ensures
        r == entry_has_command(json_view(*entry), needle@),
{
    let inner = match get_member(entry, HOOKS_KEY) {
        Some(h) => h,
        None => return false,
    };
    proof {
        lemma_json_view_containers(*inner);
    }
    let hooks = match inner {
        JsonValue::Array(a) => a,
        _ => return false,
    };
    let mut j: usize = 0;
    while j < hooks.len()
        invariant
            j <= hooks@.len(),
            json_view(*inner) == Json::Array(items_view(hooks@)),
            get(json_view(*entry), HOOKS_KEY@) == Some(json_view(*inner)),
            forall|k: int| 0 <= k < j ==> !command_contains(#[trigger] items_view(hooks@)[k], needle@),
        decreases hooks@.len() - j,
    {
        if let Some(cmd) = get_member(&hooks[j], COMMAND_KEY) {
            if let JsonValue::Str(s) = cmd {
                if str_contains(s.as_str(), needle) {
                    assert(command_contains(items_view(hooks@)[j as int], needle@));
                    assert(get(json_view(*entry), HOOKS_KEY@).unwrap()->Array_0 == items_view(hooks@));
                    return true;
                }
            }
        }
        j = j + 1;
    }
    false
}

/// The hook entry that runs `command`:
/// `{"hooks": [{"type": "command", "command": command}]}`.
pub open spec fn hook_entry(command: Seq<char>) -> Json {
    Json::Object(
        seq![
            (
                HOOKS_KEY@,
                Json::Array(
                    seq![Json::Object(seq![(TYPE_KEY@, Json::Str(COMMAND_KEY@)), (COMMAND_KEY@, Json::Str(command))])],
                ),
            ),
        ],
    )
}

/// The settings with the hook entry for `command` appended to
/// `hooks[event]`, creating `hooks` and the event's array where missing.
pub open spec fn with_hook_entry(settings: Json, event: Seq<char>, command: Seq<char>) -> Json {
    let hooks = match get(settings, HOOKS_KEY@) {
        Some(h) => h,
        None => Json::Object(Seq::empty()),
    };
    let entries = match get(hooks, event) {
        Some(Json::Array(a)) => a,
        _ => Seq::empty(),
    };
    put(settings, HOOKS_KEY@, put(hooks, event, Json::Array(entries.push(hook_entry(command)))))
}

/// The settings are an object, `hooks` is absent or an object, and
/// `hooks[event]` is absent or an array: the shapes on which a hook entry can
/// be added.
pub open spec fn hook_insertable(settings: Json, event: Seq<char>) -> bool {
    &&& settings is Object
    &&& match get(settings, HOOKS_KEY@) {
        None => true,
        Some(h) => h is Object && match get(h, event) {
            None => true,
            Some(a) => a is Array,
        },
    }
}

/// Whether a hook entry can be added to `hooks[event]`.
pub fn can_add_hook_entry(settings: &JsonValue, event: &str) -> (r: bool)
    ensures
        r == hook_insertable(json_view(*settings), event@),
{
    proof {
        lemma_json_view_containers(*settings);
    }
    if let JsonValue::Object(_) = settings {
    } else {
        return false;
    }
    match get_member(settings, HOOKS_KEY) {
        None => true,
        Some(h) => {
            proof {
                lemma_json_view_containers(*h);
            }
            if let JsonValue::Object(_) = h {
                match get_member(h, event) {
                    None => true,
                    Some(a) => {
                        proof {
                            lemma_json_view_containers(*a);
                        }
                        if let JsonValue::Array(_) = a {
                            true
                        } else {
                            false
                        }
                    },
                }
            } else {
                false
            }
        },
    }
}

/// `{"type": "command", "command": command}` wrapped as a hook entry.
fn hook_entry_value(command: &str) -> (r: JsonValue)
    ensures
        json_view(r) == hook_entry(command@),
{
    let mut inner: Vec<JsonMember> = Vec::new();
    inner.push(JsonMember { key: String::from_str(TYPE_KEY), value: JsonValue::Str(String::from_str(COMMAND_KEY)) });
    inner.push(JsonMember { key: String::from_str(COMMAND_KEY), value: JsonValue::Str(String::from_str(command)) });
    let hook = JsonValue::Object(inner);
    let mut hooks: Vec<JsonValue> = Vec::new();
    hooks.push(hook);
    let mut outer: Vec<JsonMember> = Vec::new();
    outer.push(JsonMember { key: String::from_str(HOOKS_KEY), value: JsonValue::Array(hooks) });
    let r = JsonValue::Object(outer);
    proof {
        lemma_json_view_containers(r);
        lemma_json_view_containers(JsonValue::Array(hooks));
        lemma_json_view_containers(hook);
        assert(members_view(inner@) =~= seq![(TYPE_KEY@, Json::Str(COMMAND_KEY@)), (COMMAND_KEY@, Json::Str(command@))]);
        assert(items_view(hooks@) =~= seq![json_view(hook)]);
        assert(members_view(outer@) =~= seq![(HOOKS_KEY@, json_view(JsonValue::Array(hooks)))]);
    }
    r
}

/// Puts member `key` back into an object's members `orig`, from which the
/// member at `pos` (where `find_key` found the key) was taken out; appends it
/// where the key was not found.
fn put_member(
    ms: &mut Vec<JsonMember>,
    pos: Option<usize>,
    key: String,
    value: JsonValue,
    Ghost(orig): Ghost<Seq<JsonMember>>,
)
    requires
        match pos {
            Some(i) => i < orig.len() && old(ms)@ == orig.remove(i as int) && key_index(
                members_view(orig),
                key@,
            ) == Some(i as int),
            None => old(ms)@ == orig && key_index(members_view(orig), key@) is None,
        },
    ensures
        Json::Object(members_view(final(ms)@)) == put(Json::Object(members_view(orig)), key@, json_view(value)),
{
    let ghost mv = members_view(orig);
    match pos {
        Some(i) => {
            proof {
                lemma_key_index_from(mv, key@, 0);
            }
            ms.insert(i, JsonMember { key, value });
            proof {
                assert(members_view(ms@) =~= mv.update(i as int, (mv[i as int].0, json_view(value))));
            }
        },
        None => {
            ms.push(JsonMember { key, value });
            proof {
                assert(members_view(ms@) =~= mv.push((key@, json_view(value))));
            }
        },
    }
}

/// Adds a hook entry running `command` to `hooks[event]`, creating the
/// `hooks` object and the event's array where needed.
pub fn add_hook_entry(settings: &mut JsonValue, event: &str, command: &str)
    requires
        hook_insertable(json_view(*old(settings)), event@),
    ensures
        json_view(*final(settings)) == with_hook_entry(json_view(*old(settings)), event@, command@),
{
    let ghost s0 = json_view(*settings);
    let mut taken = JsonValue::Null;
    std::mem::swap(&mut taken, settings);
    proof {
        lemma_json_view_containers(taken);
    }
    let mut members = match taken {
        JsonValue::Object(ms) => ms,
        _ => {
            assert(false);
            Vec::new()
        },
    };
    let ghost m0 = members@;
    let hooks_pos = find_key(&members, HOOKS_KEY);
    proof {
        lemma_key_index_from(members_view(m0), HOOKS_KEY@, 0);
    }
    let mut hooks_members: Vec<JsonMember> = match hooks_pos {
        Some(i) => {
            let h = members.remove(i);
            proof {
                lemma_json_view_containers(h.value);
            }
            match h.value {
                JsonValue::Object(hm) => hm,
                _ => {
                    assert(false);
                    Vec::new()
                },
            }
        },
        None => Vec::new(),
    };
    let ghost hm0 = hooks_members@;
    let ghost hooks0 = Json::Object(members_view(hm0));
    proof {
        if hooks_pos is None {
            assert(members_view(hm0) =~= Seq::<(Seq<char>, Json)>::empty());
        }
    }
    assert(hooks0 == match get(s0, HOOKS_KEY@) {
        Some(h) => h,
        None => Json::Object(Seq::empty()),
    });
    let ev_pos = find_key(&hooks_members, event);
    proof {
        lemma_key_index_from(members_view(hm0), event@, 0);
    }
    let mut arr: Vec<JsonValue> = match ev_pos {
        Some(j) => {
            let a = hooks_members.remove(j);
            proof {
                lemma_json_view_containers(a.value);
            }
            match a.value {
                JsonValue::Array(items) => items,
                _ => {
                    assert(false);
                    Vec::new()
                },
            }
        },
        None => Vec::new(),
    };
    let ghost arr0 = items_view(arr@);
    proof {
        if ev_pos is None {
            assert(arr0 =~= Seq::<Json>::empty());
        }
    }
    assert(arr0 == match get(hooks0, event@) {
        Some(Json::Array(a)) => a,
        _ => Seq::empty(),
    });
    let entry = hook_entry_value(command);
    arr.push(entry);
    proof {
        assert(items_view(arr@) =~= arr0.push(hook_entry(command@)));
        lemma_json_view_containers(JsonValue::Array(arr));
    }
    put_member(&mut hooks_members, ev_pos, String::from_str(event), JsonValue::Array(arr), Ghost(hm0));
    let new_hooks = JsonValue::Object(hooks_members);
    proof {
        lemma_json_view_containers(new_hooks);
    }
    put_member(&mut members, hooks_pos, String::from_str(HOOKS_KEY), new_hooks, Ghost(m0));
    *settings = JsonValue::Object(members);
    proof {
        lemma_json_view_containers(*settings);
    }
}

// ---------------------------------------------------------------------------
// Laws of the hook rules
// ---------------------------------------------------------------------------

/// The hook entry written for `command` runs a command containing `command`.
proof fn lemma_hook_entry_has_command(command: Seq<char>)
    ensures
        entry_has_command(hook_entry(command), command),
{
    reveal_strlit("type");
    reveal_strlit("command");
    reveal_strlit("hooks");
    let inner = seq![(TYPE_KEY@, Json::Str(COMMAND_KEY@)), (COMMAND_KEY@, Json::Str(command))];
    assert(TYPE_KEY@.len() == 4);
    assert(COMMAND_KEY@.len() == 7);
    assert(inner[0].0 != COMMAND_KEY@);
    lemma_key_index_is(inner, COMMAND_KEY@, 1);
    lemma_find_self(vstd::utf8::encode_utf8(command));
    let outer = seq![(HOOKS_KEY@, Json::Array(seq![Json::Object(inner)]))];
    lemma_key_index_is(outer, HOOKS_KEY@, 0);
    let hs = seq![Json::Object(inner)];
    assert(command_contains(hs[0], command));
    assert(get(hook_entry(command), HOOKS_KEY@).unwrap()->Array_0 == hs);
}

/// The parts of the settings that adding a hook entry touches: the hooks
/// object after the change, and the event's entries before it.
proof fn lemma_with_hook_entry_parts(settings: Json, event: Seq<char>, command: Seq<char>)
    requires
        hook_insertable(settings, event),
    ensures
        ({
            let hooks = match get(settings, HOOKS_KEY@) {
                Some(h) => h,
                None => Json::Object(Seq::empty()),
            };
            let entries = match get(hooks, event) {
                Some(Json::Array(a)) => a,
                _ => Seq::empty(),
            };
            let new_hooks = put(hooks, event, Json::Array(entries.push(hook_entry(command))));
            &&& hooks is Object
            &&& get(with_hook_entry(settings, event, command), HOOKS_KEY@) == Some(new_hooks)
            &&& get(new_hooks, event) == Some(Json::Array(entries.push(hook_entry(command))))
            &&& forall|other: Seq<char>| other != event ==> #[trigger] get(new_hooks, other) == get(hooks, other)
        }),
{
    let hooks = match get(settings, HOOKS_KEY@) {
        Some(h) => h,
        None => Json::Object(Seq::empty()),
    };
    let entries = match get(hooks, event) {
        Some(Json::Array(a)) => a,
        _ => Seq::empty(),
    };
    let new_hooks = put(hooks, event, Json::Array(entries.push(hook_entry(command))));
    lemma_get_put(settings, HOOKS_KEY@, new_hooks, HOOKS_KEY@);
    lemma_get_put(hooks, event, Json::Array(entries.push(hook_entry(command))), event);
    assert forall|other: Seq<char>| other != event implies #[trigger] get(new_hooks, other) == get(hooks, other) by {
        lemma_get_put(hooks, event, Json::Array(entries.push(hook_entry(command))), other);
    }
}

/// Adding a hook entry for `command` under `event` makes `hook_has_command`
/// find `command` there.
pub proof fn lemma_added_hook_is_found(settings: Json, event: Seq<char>, command: Seq<char>)
    requires
        hook_insertable(settings, event),
    ensures
        has_hook_command(with_hook_entry(settings, event, command), event, command),
{
    lemma_with_hook_entry_parts(settings, event, command);
    lemma_hook_entry_has_command(command);
    let hooks = match get(settings, HOOKS_KEY@) {
        Some(h) => h,
        None => Json::Object(Seq::empty()),
    };
    let entries = match get(hooks, event) {
        Some(Json::Array(a)) => a,
        _ => Seq::empty(),
    };
    let es = entries.push(hook_entry(command));
    let s2 = with_hook_entry(settings, event, command);
    assert(es[entries.len() as int] == hook_entry(command));
    assert(get(get(s2, HOOKS_KEY@).unwrap(), event).unwrap()->Array_0 == es);
}

/// Adding a hook entry keeps every hook command that was already found, under
/// every event.
pub proof fn lemma_add_hook_keeps_commands(
    settings: Json,
    event: Seq<char>,
    command: Seq<char>,
    other_event: Seq<char>,
    needle: Seq<char>,
)
    requires
        hook_insertable(settings, event),
        has_hook_command(settings, other_event, needle),
    ensures
        has_hook_command(with_hook_entry(settings, event, command), other_event, needle),
{
    lemma_with_hook_entry_parts(settings, event, command);
    let hooks = get(settings, HOOKS_KEY@).unwrap();
    let entries = match get(hooks, event) {
        Some(Json::Array(a)) => a,
        _ => Seq::empty(),
    };
    let new_hooks = put(hooks, event, Json::Array(entries.push(hook_entry(command))));
    let old_es = get(hooks, other_event).unwrap()->Array_0;
    let i = choose|i: int| 0 <= i < old_es.len() && entry_has_command(#[trigger] old_es[i], needle);
    let s2 = with_hook_entry(settings, event, command);
    let new_es = get(get(s2, HOOKS_KEY@).unwrap(), other_event).unwrap()->Array_0;
    if other_event == event {
        assert(new_es == old_es.push(hook_entry(command)));
        assert(new_es[i] == old_es[i]);
    } else {
        assert(get(s2, HOOKS_KEY@).unwrap() == new_hooks);
        lemma_get_put(hooks, event, Json::Array(entries.push(hook_entry(command))), other_event);
        assert(get(new_hooks, other_event) == get(hooks, other_event));
        assert(new_es[i] == old_es[i]);
    }
}

/// After a hook entry is added, the settings still have the shape on which
/// another can be added under the same event.
pub proof fn lemma_add_hook_keeps_insertable(settings: Json, event: Seq<char>, command: Seq<char>)
    requires
        hook_insertable(settings, event),
    ensures
        hook_insertable(with_hook_entry(settings, event, command), event),
{
    lemma_with_hook_entry_parts(settings, event, command);
}

/// Adding a hook entry leaves every top-level member of the settings other
/// than `hooks` as it was, and every event under `hooks` other than `event`;
/// under `event` it appends exactly the new entry to what was there.
pub proof fn lemma_add_hook_keeps_other_members(
    settings: Json,
    event: Seq<char>,
    command: Seq<char>,
    key: Seq<char>,
    other_event: Seq<char>,
)
    requires
        hook_insertable(settings, event),
    ensures
        key != HOOKS_KEY@ ==> get(with_hook_entry(settings, event, command), key) == get(settings, key),
        get(with_hook_entry(settings, event, command), HOOKS_KEY@) matches Some(after) && ({
            let before = match get(settings, HOOKS_KEY@) {
                Some(h) => h,
                None => Json::Object(Seq::empty()),
            };
            &&& other_event != event ==> get(after, other_event) == get(before, other_event)
            &&& get(after, event) == Some(
                Json::Array(
                    match get(before, event) {
                        Some(Json::Array(a)) => a,
                        _ => Seq::empty(),
                    }.push(hook_entry(command)),
                ),
            )
        }),
{
    let hooks = match get(settings, HOOKS_KEY@) {
        Some(h) => h,
        None => Json::Object(Seq::empty()),
    };
    let entries = match get(hooks, event) {
        Some(Json::Array(a)) => a,
        _ => Seq::empty(),
    };
    let new_hooks = put(hooks, event, Json::Array(entries.push(hook_entry(command))));
    lemma_get_put(settings, HOOKS_KEY@, new_hooks, key);
    lemma_get_put(hooks, event, Json::Array(entries.push(hook_entry(command))), other_event);
}

/// The hook at position `j` of the `hooks` array of the entry at position `i`
/// of `settings.hooks[event]`, where there is one.
pub open spec fn hook_at(settings: Json, event: Seq<char>, i: int, j: int) -> Option<Json> {
    match get(settings, HOOKS_KEY@) {
        Some(hooks) => match get(hooks, event) {
            Some(Json::Array(es)) => if 0 <= i < es.len() {
                match get(es[i], HOOKS_KEY@) {
                    Some(Json::Array(hs)) => if 0 <= j < hs.len() {
                        Some(hs[j])
                    } else {
                        None
                    },
                    _ => None,
                }
            } else {
                None
            },
            _ => None,
        },
        None => None,
    }
}

/// A hook command is found wherever it stands: when the hook at any
/// position `j` of any entry `i` under `hooks[event]` has a `command` string
/// containing `needle`.
pub proof fn lemma_command_found_at_any_position(
    settings: Json,
    event: Seq<char>,
    needle: Seq<char>,
    i: int,
    j: int,
    cmd: Seq<char>,
)
    requires
        match get(settings, HOOKS_KEY@) {
            Some(hooks) => match get(hooks, event) {
                Some(Json::Array(es)) => 0 <= i < es.len() && match get(es[i], HOOKS_KEY@) {
                    Some(Json::Array(hs)) => 0 <= j < hs.len() && get(hs[j], COMMAND_KEY@) == Some(
                        Json::Str(cmd),
                    ),
                    _ => false,
                },
                _ => false,
            },
            None => false,
        },
        contains(cmd, needle),
    ensures
        has_hook_command(settings, event, needle),
{
    let hooks = get(settings, HOOKS_KEY@)->0;
    let es = get(hooks, event)->0->Array_0;
    let hs = get(es[i], HOOKS_KEY@)->0->Array_0;
    assert(command_contains(hs[j], needle));
    assert(entry_has_command(es[i], needle));
}

/// And a hook command is found only there.
pub proof fn lemma_command_found_only_there(settings: Json, event: Seq<char>, needle: Seq<char>)
    requires
        has_hook_command(settings, event, needle),
    ensures
        exists|i: int, j: int, cmd: Seq<char>|
            #![trigger hook_at(settings, event, i, j), contains(cmd, needle)]
            (hook_at(settings, event, i, j) matches Some(h) && get(h, COMMAND_KEY@) == Some(
                Json::Str(cmd),
            )) && contains(cmd, needle),
{
    let hooks = get(settings, HOOKS_KEY@)->0;
    let es = get(hooks, event)->0->Array_0;
    let i = choose|i: int| 0 <= i < es.len() && entry_has_command(#[trigger] es[i], needle);
    let hs = get(es[i], HOOKS_KEY@)->0->Array_0;
    let j = choose|j: int| 0 <= j < hs.len() && command_contains(#[trigger] hs[j], needle);
    let cmd = get(hs[j], COMMAND_KEY@)->0->Str_0;
    assert(hook_at(settings, event, i, j) == Some(hs[j]));
    assert(get(hs[j], COMMAND_KEY@) == Some(Json::Str(cmd)));
}

// ---------------------------------------------------------------------------
// JSON text (serde_json)
// ---------------------------------------------------------------------------

/// A value of `serde_json::Value`, carried through the bridge below.
#[verifier::external_type_specification]
#[verifier::external_body]
pub struct ExSerdeValue(serde_json::Value);

/// What `serde_json::from_str::<serde_json::Value>` gives for a text, taken
/// over into the library's form; `None` where parsing fails.
pub uninterp spec fn parsed_json(text: Seq<char>) -> Option<Json>;

/// The text that `serde_json::to_string_pretty` gives for the
/// `serde_json::Value` with the library's form `v` (each number read back
/// from its text); `None` where that fails.
pub uninterp spec fn pretty_json(v: Json) -> Option<Seq<char>>;

/// Calls `serde_json::from_str::<serde_json::Value>` and takes the value over
/// into the library's form, variant for variant. The contract names the
/// result (`parsed_json`) and says that it is missing exactly when parsing
/// fails.
#[verifier::external_body]
pub(crate) fn parse_json(text: &str) -> (r: Option<JsonValue>)
    ensures
        match r {
            Some(v) => parsed_json(text@) == Some(json_view(v)),
            None => parsed_json(text@) is None,
        },
{
    match serde_json::from_str::<serde_json::Value>(text) {
        Ok(v) => Some(json_of_value(v)),
        Err(_) => None,
    }
}

/// Takes a value over into a `serde_json::Value` and calls
/// `serde_json::to_string_pretty` on it. The contract names the text
/// (`pretty_json`); where either step fails the result is the error's
/// message, which the contract leaves unsaid.
#[verifier::external_body]
pub(crate) fn render_pretty(v: &JsonValue) -> (r: Result<String, String>)
    ensures
        match r {
            Ok(t) => pretty_json(json_view(*v)) == Some(t@),
            Err(_) => pretty_json(json_view(*v)) is None,
        },
{
    match value_of_json(v) {
        Ok(x) => match serde_json::to_string_pretty(&x) {
            Ok(t) => Ok(t),
            Err(e) => Err(e.to_string()),
        },
        Err(e) => Err(e),
    }
}

/// A `serde_json::Value` in the library's form, variant for variant, a
/// number by the text it prints as. Part of `parse_json`.
#[verifier::external_body]
fn json_of_value(v: serde_json::Value) -> JsonValue {
    match v {
        serde_json::Value::Null => JsonValue::Null,
        serde_json::Value::Bool(b) => JsonValue::Bool(b),
        serde_json::Value::Number(n) => JsonValue::Number(n.to_string()),
        serde_json::Value::String(s) => JsonValue::Str(s),
        serde_json::Value::Array(a) => JsonValue::Array(a.into_iter().map(json_of_value).collect()),
        serde_json::Value::Object(m) => JsonValue::Object(
            m.into_iter().map(|(key, value)| JsonMember { key, value: json_of_value(value) }).collect(),
        ),
    }
}

/// The `serde_json::Value` of a value in the library's form, variant for
/// variant, each number read back from its text (the parser's message where
/// that fails). Part of `render_pretty`.
#[verifier::external_body]
fn value_of_json(v: &JsonValue) -> Result<serde_json::Value, String> {
    Ok(match v {
        JsonValue::Null => serde_json::Value::Null,
        JsonValue::Bool(b) => serde_json::Value::Bool(*b),
        JsonValue::Number(t) => serde_json::Value::Number(serde_json::from_str(t).map_err(|e| e.to_string())?),
        JsonValue::Str(s) => serde_json::Value::String(s.clone()),
        JsonValue::Array(a) => serde_json::Value::Array(a.iter().map(value_of_json).collect::<Result<_, _>>()?),
        JsonValue::Object(ms) => serde_json::Value::Object(
            ms.iter().map(|m| Ok((m.key.clone(), value_of_json(&m.value)?))).collect::<Result<_, String>>()?,
        ),
    })
}

} // verus!
