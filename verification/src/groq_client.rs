//! What the language model answers: the reply text and the memory changes
//! it proposes, read from the JSON it returns.

use vstd::prelude::*;
use crate::kg::{Yaml, YamlValue};
use crate::parse::{convert_json_to_yaml, json_as_yaml, json_parse, parse_json};
use crate::text::{
    chars_eq, chars_of, ends_with, owned, slice_chars, starts_with, starts_with_exec, string_of,
    string_views, trim, trim_exec,
};

verus! {

broadcast use vstd::string::group_string_axioms;

/// A fact to store in the knowledge graph.
#[derive(Debug)]
pub struct KgUpdate {
    pub path: String,
    pub value: YamlValue,
}

/// The memory changes proposed with a reply.
#[derive(Debug)]
pub struct MemoryDelta {
    pub kg_updates: Vec<KgUpdate>,
    pub memory_updates: Vec<String>,
    pub current_topic: Option<String>,
}

/// A reply and its memory changes.
#[derive(Debug)]
pub struct GroqResponse {
    pub response: String,
    pub delta: MemoryDelta,
}

impl MemoryDelta {
    /// No changes.
    pub fn empty() -> (d: MemoryDelta)
        ensures
            d.kg_updates.len() == 0,
            d.memory_updates.len() == 0,
            d.current_topic is None,
    {
        MemoryDelta { kg_updates: Vec::new(), memory_updates: Vec::new(), current_topic: None }
    }
}

/// The knowledge-graph updates by view.
pub open spec fn kg_update_views(us: Seq<KgUpdate>) -> Seq<(Seq<char>, Yaml)> {
    us.map_values(|u: KgUpdate| (u.path@, u.value@))
}


// ---------------------------------------------------------------------------
// JSON values
// ---------------------------------------------------------------------------

/// A JSON value. Numbers are kept as the text JSON prints for them; object
/// entries keep their order.
#[derive(Debug)]
pub enum JsonValue {
    Null,
    Bool(bool),
    Number(String),
    String(String),
    Array(Vec<JsonValue>),
    Object(Vec<(String, JsonValue)>),
}

/// The mathematical value of a `JsonValue`.
pub enum Json {
    Null,
    Bool(bool),
    Number(Seq<char>),
    Str(Seq<char>),
    Array(Seq<Json>),
    Object(Seq<(Seq<char>, Json)>),
}

pub open spec fn deep_json(v: JsonValue) -> Json
    decreases v,
{
    match v {
        JsonValue::Null => Json::Null,
        JsonValue::Bool(b) => Json::Bool(b),
        JsonValue::Number(n) => Json::Number(n@),
        JsonValue::String(s) => Json::Str(s@),
        JsonValue::Array(items) => Json::Array(deep_json_items(items@)),
        JsonValue::Object(entries) => Json::Object(deep_json_entries(entries@)),
    }
}

pub open spec fn deep_json_items(s: Seq<JsonValue>) -> Seq<Json>
    decreases s,
{
    if s.len() == 0 {
        Seq::empty()
    } else {
        deep_json_items(s.drop_last()).push(deep_json(s.last()))
    }
}

pub open spec fn deep_json_entries(s: Seq<(String, JsonValue)>) -> Seq<(Seq<char>, Json)>
    decreases s,
{
    if s.len() == 0 {
        Seq::empty()
    } else {
        deep_json_entries(s.drop_last()).push((s.last().0@, deep_json(s.last().1)))
    }
}

pub proof fn lemma_deep_json_items(s: Seq<JsonValue>)
    ensures
        deep_json_items(s).len() == s.len(),
        forall|i: int| 0 <= i < s.len() ==> #[trigger] deep_json_items(s)[i] == deep_json(s[i]),
    decreases s.len(),
{
    if s.len() > 0 {
        lemma_deep_json_items(s.drop_last());
        assert forall|i: int| 0 <= i < s.len() implies #[trigger] deep_json_items(s)[i] == deep_json(
            s[i],
        ) by {
            if i < s.len() - 1 {
                assert(s.drop_last()[i] == s[i]);
            }
        }
    }
}

pub proof fn lemma_deep_json_entries(s: Seq<(String, JsonValue)>)
    ensures
        deep_json_entries(s).len() == s.len(),
        forall|i: int|
            0 <= i < s.len() ==> #[trigger] deep_json_entries(s)[i] == (s[i].0@, deep_json(s[i].1)),
    decreases s.len(),
{
    if s.len() > 0 {
        lemma_deep_json_entries(s.drop_last());
        assert forall|i: int| 0 <= i < s.len() implies #[trigger] deep_json_entries(s)[i] == (
            s[i].0@,
            deep_json(s[i].1),
        ) by {
            if i < s.len() - 1 {
                assert(s.drop_last()[i] == s[i]);
            }
        }
    }
}

impl View for JsonValue {
    type V = Json;

    open spec fn view(&self) -> Json {
        deep_json(*self)
    }
}

/// The first entry index at or after `i` with key `key`.
pub open spec fn json_find_from(m: Seq<(Seq<char>, Json)>, key: Seq<char>, i: int) -> Option<int>
    decreases m.len() - i,
{
    if i < 0 || i >= m.len() {
        None
    } else if m[i].0 == key {
        Some(i)
    } else {
        json_find_from(m, key, i + 1)
    }
}

/// The member `key` of an object (`Value::get`); nothing for other values.
pub open spec fn json_get(j: Json, key: Seq<char>) -> Option<Json> {
    match j {
        Json::Object(m) => match json_find_from(m, key, 0) {
            Some(i) => Some(m[i].1),
            None => None,
        },
        _ => None,
    }
}

/// The string a value holds (`Value::as_str`).
pub open spec fn json_str(j: Option<Json>) -> Option<Seq<char>> {
    match j {
        Some(Json::Str(s)) => Some(s),
        _ => None,
    }
}

/// The items of an array (`Value::as_array`).
pub open spec fn json_array(j: Option<Json>) -> Option<Seq<Json>> {
    match j {
        Some(Json::Array(items)) => Some(items),
        _ => None,
    }
}

fn json_get_exec<'a>(j: &'a JsonValue, key: &str) -> (r: Option<&'a JsonValue>)
    ensures
        match r {
            Some(x) => json_get(j@, key@) == Some(x@),
            None => json_get(j@, key@) is None,
        },
{
    match j {
        JsonValue::Object(m) => {
            proof {
                lemma_deep_json_entries(m@);
            }
            let ghost e = deep_json_entries(m@);
            let kv = chars_of(key);
            let n = m.len();
            for i in 0..n
                invariant
                    n == m.len(),
                    *j == JsonValue::Object(*m),
                    kv@ == key@,
                    e == deep_json_entries(m@),
                    e.len() == m.len(),
                    forall|k: int| 0 <= k < m.len() ==> #[trigger] e[k] == (m@[k].0@, deep_json(m@[k].1)),
                    json_find_from(e, key@, 0) == json_find_from(e, key@, i as int),
            {
                let mk = chars_of(m[i].0.as_str());
                if chars_eq(&mk, &kv) {
                    assert(e[i as int].0 == key@);
                    return Some(&m[i].1);
                }
            }
            None
        },
        _ => None,
    }
}

fn json_str_exec(j: Option<&JsonValue>) -> (r: Option<String>)
    ensures
        match r {
            Some(s) => json_str(match j {
                Some(x) => Some(x@),
                None => None,
            }) == Some(s@),
            None => json_str(match j {
                Some(x) => Some(x@),
                None => None,
            }) is None,
        },
{
    match j {
        Some(JsonValue::String(s)) => Some(s.clone()),
        _ => None,
    }
}

// ---------------------------------------------------------------------------
// Reading the model's answer
// ---------------------------------------------------------------------------

/// `s` with every leading occurrence of `p` removed (`trim_start_matches`).
pub open spec fn strip_prefixes(s: Seq<char>, p: Seq<char>) -> Seq<char>
    decreases s.len(),
{
    if p.len() > 0 && starts_with(s, p) {
        strip_prefixes(s.skip(p.len() as int), p)
    } else {
        s
    }
}

/// `s` with every trailing occurrence of `p` removed (`trim_end_matches`).
pub open spec fn strip_suffixes(s: Seq<char>, p: Seq<char>) -> Seq<char>
    decreases s.len(),
{
    if p.len() > 0 && ends_with(s, p) {
        strip_suffixes(s.take(s.len() - p.len()), p)
    } else {
        s
    }
}

/// The model's answer with a Markdown code fence around it removed: trimmed,
/// leading `` ```json `` and trailing `` ``` `` stripped, trimmed again.
pub open spec fn cleaned_reply(content: Seq<char>) -> Seq<char> {
    trim(strip_suffixes(strip_prefixes(trim(content), "```json"@), "```"@))
}

fn ends_with_exec(s: &Vec<char>, p: &Vec<char>) -> (r: bool)
    ensures
        r == ends_with(s@, p@),
{
    if p.len() > s.len() {
        return false;
    }
    let tail = slice_chars(s, s.len() - p.len(), s.len());
    assert(tail@ =~= s@.skip(s@.len() - p@.len()));
    chars_eq(&tail, p)
}

/// The answer text without its code fence (see `cleaned_reply`).
pub fn clean_reply(content: &str) -> (r: String)
    ensures
        r@ == cleaned_reply(content@),
{
    let v = chars_of(content);
    let mut t = trim_exec(&v);
    let fence = chars_of("```json");
    proof {
        reveal_strlit("```json");
        reveal_strlit("```");
    }
    while fence.len() > 0 && starts_with_exec(&t, &fence)
        invariant
            fence@ == "```json"@,
            strip_prefixes(trim(content@), "```json"@) == strip_prefixes(t@, "```json"@),
        decreases t.len(),
    {
        let rest = slice_chars(&t, fence.len(), t.len());
        assert(rest@ =~= t@.skip(fence@.len() as int));
        t = rest;
    }
    let close = chars_of("```");
    while close.len() > 0 && ends_with_exec(&t, &close)
        invariant
            close@ == "```"@,
            strip_suffixes(strip_prefixes(trim(content@), "```json"@), "```"@) == strip_suffixes(
                t@,
                "```"@,
            ),
        decreases t.len(),
    {
        let rest = slice_chars(&t, 0, t.len() - close.len());
        assert(rest@ =~= t@.take(t@.len() - close@.len()));
        t = rest;
    }
    let r = trim_exec(&t);
    string_of(&r)
}

pub open spec fn no_response_text() -> Seq<char> {
    "(no response field)"@
}

/// The reply text: the `response` member if it is a string, else the
/// `summary` member if it is, else a placeholder.
pub open spec fn reply_text(v: Json) -> Seq<char> {
    match json_str(json_get(v, "response"@)) {
        Some(s) => s,
        None => match json_str(json_get(v, "summary"@)) {
            Some(s) => s,
            None => no_response_text(),
        },
    }
}

/// The knowledge-graph updates among array items: those objects with a
/// string `path` and a `value`, in order.
pub open spec fn kg_updates_of(items: Seq<Json>) -> Seq<(Seq<char>, Yaml)>
    decreases items.len(),
{
    if items.len() == 0 {
        Seq::empty()
    } else {
        let rest = kg_updates_of(items.drop_last());
        let it = items.last();
        match (json_str(json_get(it, "path"@)), json_get(it, "value"@)) {
            (Some(p), Some(val)) => match json_as_yaml(val) {
                Some(y) => rest.push((p, y)),
                None => rest,
            },
            _ => rest,
        }
    }
}

/// The update an item of the `kg_updates` array stands for: its string
/// `path` and its `value` as YAML, when it has both and the value converts.
pub open spec fn item_update(it: Json) -> Option<(Seq<char>, Yaml)> {
    match json_str(json_get(it, "path"@)) {
        Some(p) => match json_get(it, "value"@) {
            Some(val) => match json_as_yaml(val) {
                Some(y) => Some((p, y)),
                None => None,
            },
            None => None,
        },
        None => None,
    }
}

/// Every well-formed item of the `kg_updates` array yields its update, in
/// the order of the array, and nothing else is yielded: the updates are
/// exactly the items' updates with the ill-formed items skipped, so each
/// well-formed item's update is among them and their number is the number of
/// well-formed items.
pub proof fn law_every_update_item_is_kept(items: Seq<Json>)
    ensures
        kg_updates_of(items) == items.filter_map(|it: Json| item_update(it)),
        forall|i: int|
            0 <= i < items.len() && (#[trigger] item_update(items[i])) is Some ==> kg_updates_of(
                items,
            ).contains(item_update(items[i])->Some_0),
        kg_updates_of(items).len() == items.filter(|it: Json| item_update(it) is Some).len(),
    decreases items.len(),
{
    let f = |it: Json| item_update(it);
    let wf = |it: Json| item_update(it) is Some;
    reveal(Seq::filter);
    if items.len() > 0 {
        let rest = items.drop_last();
        law_every_update_item_is_kept(rest);
        assert(kg_updates_of(items) =~= items.filter_map(f));
        assert forall|i: int|
            0 <= i < items.len() && (#[trigger] item_update(items[i])) is Some implies kg_updates_of(
                items,
            ).contains(item_update(items[i])->Some_0) by {
            if i < items.len() - 1 {
                assert(rest[i] == items[i]);
                let x = item_update(items[i])->Some_0;
                let k = choose|k: int| 0 <= k < kg_updates_of(rest).len() && kg_updates_of(rest)[k] == x;
                assert(kg_updates_of(items)[k] == x);
            } else {
                let x = item_update(items[i])->Some_0;
                assert(kg_updates_of(items).last() == x);
                assert(kg_updates_of(items)[kg_updates_of(items).len() - 1] == x);
            }
        }
    }
}

/// The strings among array items, in order.
pub open spec fn strings_of(items: Seq<Json>) -> Seq<Seq<char>>
    decreases items.len(),
{
    if items.len() == 0 {
        Seq::empty()
    } else {
        let rest = strings_of(items.drop_last());
        match items.last() {
            Json::Str(s) => rest.push(s),
            _ => rest,
        }
    }
}

fn kg_updates_exec(items: &Vec<JsonValue>) -> (r: Vec<KgUpdate>)
    ensures
        kg_update_views(r@) == kg_updates_of(deep_json_items(items@)),
{
    proof {
        lemma_deep_json_items(items@);
    }
    let ghost e = deep_json_items(items@);
    let mut out: Vec<KgUpdate> = Vec::new();
    let n = items.len();
    for i in 0..n
        invariant
            n == items.len(),
            e == deep_json_items(items@),
            e.len() == items.len(),
            forall|k: int| 0 <= k < items.len() ==> #[trigger] e[k] == deep_json(items@[k]),
            kg_update_views(out@) == kg_updates_of(e.take(i as int)),
    {
        assert(e.take(i + 1).drop_last() =~= e.take(i as int));
        assert(e.take(i + 1).last() == items@[i as int]@);
        let item = &items[i];
        let path = json_str_exec(json_get_exec(item, "path"));
        let value = json_get_exec(item, "value");
        match (path, value) {
            (Some(p), Some(v)) => match convert_json_to_yaml(v) {
                Some(y) => {
                    let ghost before = kg_update_views(out@);
                    out.push(KgUpdate { path: p, value: y });
                    assert(kg_update_views(out@) =~= before.push((p@, y@)));
                },
                None => {},
            },
            _ => {},
        }
    }
    assert(e.take(n as int) =~= e);
    out
}

fn strings_exec(items: &Vec<JsonValue>) -> (r: Vec<String>)
    ensures
        string_views(r@) == strings_of(deep_json_items(items@)),
{
    proof {
        lemma_deep_json_items(items@);
    }
    let ghost e = deep_json_items(items@);
    let mut out: Vec<String> = Vec::new();
    let n = items.len();
    for i in 0..n
        invariant
            n == items.len(),
            e == deep_json_items(items@),
            e.len() == items.len(),
            forall|k: int| 0 <= k < items.len() ==> #[trigger] e[k] == deep_json(items@[k]),
            string_views(out@) == strings_of(e.take(i as int)),
    {
        assert(e.take(i + 1).drop_last() =~= e.take(i as int));
        assert(e.take(i + 1).last() == items@[i as int]@);
        match &items[i] {
            JsonValue::String(s) => {
                let ghost before = string_views(out@);
                out.push(s.clone());
                assert(string_views(out@) =~= before.push(s@));
            },
            _ => {},
        }
    }
    assert(e.take(n as int) =~= e);
    out
}

/// The reply and memory changes in the model's parsed answer: the reply
/// text (see `reply_text`), the knowledge-graph updates from the
/// `kg_updates` array, the strings of the `memory_updates` array, and the
/// `current_topic` string; a missing or ill-typed member gives nothing.
pub fn response_from_json(value: &JsonValue) -> (r: GroqResponse)
    ensures
        r.response@ == reply_text(value@),
        kg_update_views(r.delta.kg_updates@) == (match json_array(json_get(value@, "kg_updates"@)) {
            Some(items) => kg_updates_of(items),
            None => Seq::empty(),
        }),
        string_views(r.delta.memory_updates@) == (match json_array(
            json_get(value@, "memory_updates"@),
        ) {
            Some(items) => strings_of(items),
            None => Seq::empty(),
        }),
        match r.delta.current_topic {
            Some(t) => json_str(json_get(value@, "current_topic"@)) == Some(t@),
            None => json_str(json_get(value@, "current_topic"@)) is None,
        },
{
    let response = match json_str_exec(json_get_exec(value, "response")) {
        Some(s) => s,
        None => match json_str_exec(json_get_exec(value, "summary")) {
            Some(s) => s,
            None => owned("(no response field)"),
        },
    };
    let kg_updates = match json_get_exec(value, "kg_updates") {
        Some(JsonValue::Array(items)) => kg_updates_exec(items),
        _ => {
            let v: Vec<KgUpdate> = Vec::new();
            assert(kg_update_views(v@) =~= Seq::<(Seq<char>, Yaml)>::empty());
            v
        },
    };
    let memory_updates = match json_get_exec(value, "memory_updates") {
        Some(JsonValue::Array(items)) => strings_exec(items),
        _ => {
            let v: Vec<String> = Vec::new();
            assert(string_views(v@) =~= Seq::<Seq<char>>::empty());
            v
        },
    };
    let current_topic = json_str_exec(json_get_exec(value, "current_topic"));
    GroqResponse { response, delta: MemoryDelta { kg_updates, memory_updates, current_topic } }
}

/// Why the model's answer could not be read.
#[derive(Debug, Clone, Copy, PartialEq, Eq, Structural)]
pub enum ResponseError {
    /// The answer, its code fence removed, is not JSON.
    NotJson,
}

impl ResponseError {
    /// The text reported for this error.
    pub fn message(&self) -> (r: String)
        ensures
            r@ == "parsing JSON response"@,
    {
        "parsing JSON response".to_owned()
    }
}

/// The reply and memory changes in the model's answer: its code fence
/// removed (`cleaned_reply`), then parsed as JSON and read by
/// `response_from_json`; an error when it is not JSON.
pub fn parse_response(content: &str) -> (r: Result<GroqResponse, ResponseError>)
    ensures
        match json_parse(cleaned_reply(content@)) {
            None => r == Err::<GroqResponse, ResponseError>(ResponseError::NotJson),
            Some(v) => r matches Ok(resp) && resp.response@ == reply_text(v) && kg_update_views(
                resp.delta.kg_updates@,
            ) == (match json_array(json_get(v, "kg_updates"@)) {
                Some(items) => kg_updates_of(items),
                None => Seq::empty(),
            }) && string_views(resp.delta.memory_updates@) == (match json_array(
                json_get(v, "memory_updates"@),
            ) {
                Some(items) => strings_of(items),
                None => Seq::empty(),
            }) && (match resp.delta.current_topic {
                Some(t) => json_str(json_get(v, "current_topic"@)) == Some(t@),
                None => json_str(json_get(v, "current_topic"@)) is None,
            }),
        },
{
    let cleaned = clean_reply(content);
    match parse_json(cleaned.as_str()) {
        Some(v) => Ok(response_from_json(&v)),
        None => Err(ResponseError::NotJson),
    }
}

/// The text of the first choice's message in a chat completion
/// (`body["choices"][0]["message"]["content"]`), if it is a string.
pub open spec fn completion_content(body: Json) -> Option<Seq<char>> {
    match json_array(json_get(body, "choices"@)) {
        Some(choices) => if choices.len() > 0 {
            match json_get(choices[0], "message"@) {
                Some(msg) => json_str(json_get(msg, "content"@)),
                None => None,
            }
        } else {
            None
        },
        None => None,
    }
}

/// The text of the first choice's message (see `completion_content`).
pub fn completion_text(body: &JsonValue) -> (r: Option<String>)
    ensures
        match r {
            Some(s) => completion_content(body@) == Some(s@),
            None => completion_content(body@) is None,
        },
{
    match json_get_exec(body, "choices") {
        Some(JsonValue::Array(choices)) => {
            proof {
                lemma_deep_json_items(choices@);
            }
            if choices.len() == 0 {
                return None;
            }
            match json_get_exec(&choices[0], "message") {
                Some(msg) => json_str_exec(json_get_exec(msg, "content")),
                None => None,
            }
        },
        _ => None,
    }
}

/// Why a chat completion carried no answer.
#[derive(Debug, Clone, Copy, PartialEq, Eq, Structural)]
pub enum CompletionError {
    /// The response body is not JSON.
    NotJson,
    /// The body has no string content in its first choice's message.
    NoContent,
}

impl CompletionError {
    /// The text reported for this error.
    pub fn message(&self) -> (r: String)
        ensures
            r@ == (match self {
                CompletionError::NotJson => "parsing Groq response"@,
                CompletionError::NoContent => "missing content in Groq response"@,
            }),
    {
        match self {
            CompletionError::NotJson => "parsing Groq response".to_owned(),
            CompletionError::NoContent => "missing content in Groq response".to_owned(),
        }
    }
}

/// The answer text in the body of a chat-completion response: the body
/// parsed as JSON, then its first choice's message content (see
/// `completion_content`).
pub fn completion_from_body(body: &str) -> (r: Result<String, CompletionError>)
    ensures
        match json_parse(body@) {
            None => r == Err::<String, CompletionError>(CompletionError::NotJson),
            Some(j) => match completion_content(j) {
                Some(c) => r matches Ok(s) && s@ == c,
                None => r == Err::<String, CompletionError>(CompletionError::NoContent),
            },
        },
{
    match parse_json(body) {
        None => Err(CompletionError::NotJson),
        Some(v) => match completion_text(&v) {
            Some(c) => Ok(c),
            None => Err(CompletionError::NoContent),
        },
    }
}

/// How an HTTP status is treated: success, an error worth retrying (server
/// errors and 429), or a final error.
#[derive(Debug, Clone, Copy, PartialEq, Eq, Structural)]
pub enum StatusClass {
    Success,
    Transient,
    Fatal,
}

/// The class of an HTTP status code.
pub open spec fn status_class_spec(code: u16) -> StatusClass {
    if (500 <= code && code <= 599) || code == 429 {
        StatusClass::Transient
    } else if 200 <= code && code <= 299 {
        StatusClass::Success
    } else {
        StatusClass::Fatal
    }
}

/// The class of an HTTP status code (see `status_class_spec`).
pub fn status_class(code: u16) -> (r: StatusClass)
    ensures
        r == status_class_spec(code),
{
    if (500 <= code && code <= 599) || code == 429 {
        StatusClass::Transient
    } else if 200 <= code && code <= 299 {
        StatusClass::Success
    } else {
        StatusClass::Fatal
    }
}

// ---------------------------------------------------------------------------
// Retrying a request
// ---------------------------------------------------------------------------

/// How one attempt at a request ended.
#[derive(Debug, Clone, Copy, PartialEq, Eq, Structural)]
pub enum Attempt {
    /// The request could not be sent (a network error).
    SendFailed,
    /// The server answered with this HTTP status.
    Status(u16),
}

/// What to do after an attempt.
#[derive(Debug, Clone, Copy, PartialEq, Eq, Structural)]
pub enum RetryStep {
    /// Take the response.
    Accept,
    /// Send the request again.
    Retry,
    /// Give up with the attempt's error.
    Fail,
}

/// The retry policy after an attempt, when `tries` retries have been made
/// already and at most `max` are allowed: a success is taken, a final error
/// given up on, and a network error, a server error or a 429 retried while
/// retries are left.
pub open spec fn retry_spec(tries: nat, a: Attempt, max: nat) -> RetryStep {
    let transient = match a {
        Attempt::SendFailed => true,
        Attempt::Status(code) => status_class_spec(code) == StatusClass::Transient,
    };
    if transient {
        if tries < max {
            RetryStep::Retry
        } else {
            RetryStep::Fail
        }
    } else {
        match a {
            Attempt::Status(code) => if status_class_spec(code) == StatusClass::Success {
                RetryStep::Accept
            } else {
                RetryStep::Fail
            },
            Attempt::SendFailed => RetryStep::Fail,
        }
    }
}

/// The retry policy (see `retry_spec`).
pub fn retry_step(tries: usize, a: Attempt, max: usize) -> (s: RetryStep)
    ensures
        s == retry_spec(tries as nat, a, max as nat),
{
    let transient = match a {
        Attempt::SendFailed => true,
        Attempt::Status(code) => status_class(code) == StatusClass::Transient,
    };
    if transient {
        if tries < max {
            RetryStep::Retry
        } else {
            RetryStep::Fail
        }
    } else {
        match a {
            Attempt::Status(code) => if status_class(code) == StatusClass::Success {
                RetryStep::Accept
            } else {
                RetryStep::Fail
            },
            Attempt::SendFailed => RetryStep::Fail,
        }
    }
}

/// A request ends after at most `max + 1` attempts, and an answer that is
/// neither a network error, a server error nor a 429 ends it at once: each
/// retry leaves one retry fewer, and the policy never retries once none is
/// left.
pub proof fn law_retries_are_bounded(tries: nat, a: Attempt, max: nat)
    ensures
        retry_spec(tries, a, max) == RetryStep::Retry ==> tries < max,
        retry_spec(tries, a, max) == RetryStep::Retry <==> (tries < max && match a {
            Attempt::SendFailed => true,
            Attempt::Status(code) => status_class_spec(code) == StatusClass::Transient,
        }),
        a matches Attempt::Status(code) && status_class_spec(code) == StatusClass::Fatal
            ==> retry_spec(tries, a, max) == RetryStep::Fail,
{
}

} // verus!
