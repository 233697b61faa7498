//! JSON values as plain data, and their compact text.
use vstd::prelude::*;

use crate::table;
use crate::table::Table;
use crate::text;

verus! {

/// A JSON number. A float is held as the text it is written as.
pub enum Number {
    Unsigned(u64),
    Negative(i64),
    Float(String),
}

pub enum JsonValue {
    Null,
    Bool(bool),
    Number(Number),
    String(String),
    Array(Vec<JsonValue>),
    Object(Table<JsonValue>),
}

/// What a JSON value says.
pub ghost enum Json {
    Null,
    Bool(bool),
    Unsigned(u64),
    Negative(i64),
    Float(Seq<char>),
    Text(Seq<char>),
    Array(Seq<Json>),
    Object(Seq<(Seq<char>, Json)>),
}

pub open spec fn json_of(v: JsonValue) -> Json
    decreases v,
{
    match v {
        JsonValue::Null => Json::Null,
        JsonValue::Bool(b) => Json::Bool(b),
        JsonValue::Number(Number::Unsigned(n)) => Json::Unsigned(n),
        JsonValue::Number(Number::Negative(n)) => Json::Negative(n),
        JsonValue::Number(Number::Float(t)) => Json::Float(t@),
        JsonValue::String(s) => Json::Text(s@),
        JsonValue::Array(a) => Json::Array(
            Seq::new(
                a@.len(),
                |i: int|
                    if 0 <= i < a@.len() {
                        json_of(a@[i])
                    } else {
                        Json::Null
                    },
            ),
        ),
        JsonValue::Object(t) => Json::Object(members(t)),
    }
}

/// The members of an object.
pub closed spec fn members(t: Table<JsonValue>) -> Seq<(Seq<char>, Json)>
    decreases t,
{
    Seq::new(
        t.entries@.len(),
        |i: int|
            (
                t.entries@[i].0@,
                if 0 <= i < t.entries@.len() {
                    json_of(t.entries@[i].1)
                } else {
                    Json::Null
                },
            ),
    )
}

/// `json_of`, as a function.
pub open spec fn to_json() -> spec_fn(JsonValue) -> Json {
    |v: JsonValue| json_of(v)
}

/// The members of an object are the entries of its table.
pub proof fn lemma_members(t: Table<JsonValue>)
    ensures
        members(t) == table::mapped(t@, to_json()),
{
    t.lemma_view();
    assert(members(t) =~= table::mapped(t@, to_json()));
}

impl View for JsonValue {
    type V = Json;

    open spec fn view(&self) -> Json {
        json_of(*self)
    }
}

impl JsonValue {
    /// Copies a value.
    pub fn copy(&self) -> (out: JsonValue)
        ensures
            out@ == self@,
        decreases self,
    {
        match self {
            JsonValue::Null => JsonValue::Null,
            JsonValue::Bool(b) => JsonValue::Bool(*b),
            JsonValue::Number(Number::Unsigned(n)) => JsonValue::Number(Number::Unsigned(*n)),
            JsonValue::Number(Number::Negative(n)) => JsonValue::Number(Number::Negative(*n)),
            JsonValue::Number(Number::Float(t)) => JsonValue::Number(Number::Float(t.clone())),
            JsonValue::String(s) => JsonValue::String(s.clone()),
            JsonValue::Array(a) => {
                let copied: JsonValue = JsonValue::Array(copy_array(a));
                proof {
                    assert(json_of(copied)->Array_0 =~= json_of(*self)->Array_0);
                }
                copied
            },
            JsonValue::Object(t) => JsonValue::Object(copy_table(t)),
        }
    }
}

/// Copies the items of an array.
pub fn copy_array(a: &Vec<JsonValue>) -> (out: Vec<JsonValue>)
    ensures
        out@.len() == a@.len(),
        forall|j: int| 0 <= j < a@.len() ==> json_of(#[trigger] out@[j]) == json_of(a@[j]),
    decreases a,
{
    let mut out: Vec<JsonValue> = Vec::new();
    let mut i: usize = 0;
    while i < a.len()
        invariant
            i <= a@.len(),
            out@.len() == i,
            forall|j: int| 0 <= j < i ==> json_of(#[trigger] out@[j]) == json_of(a@[j]),
        decreases a@.len() - i,
    {
        out.push(a[i].copy());
        i += 1;
    }
    out
}

/// Copies the table of an object.
pub fn copy_table(t: &Table<JsonValue>) -> (out: Table<JsonValue>)
    ensures
        members(out) == members(*t),
    decreases t,
{
    let mut entries: Vec<(String, JsonValue)> = Vec::new();
    let mut i: usize = 0;
    proof {
        use_type_invariant(t);
    }
    while i < t.entries.len()
        invariant
            i <= t.entries@.len(),
            entries@.len() == i,
            forall|j: int|
                0 <= j < i ==> (#[trigger] entries@[j]).0@ == t.entries@[j].0@ && json_of(
                    entries@[j].1,
                ) == json_of(t.entries@[j].1),
        decreases t.entries@.len() - i,
    {
        entries.push((t.entries[i].0.clone(), t.entries[i].1.copy()));
        i += 1;
    }
    proof {
        t.lemma_view();
        Table { entries }.lemma_view();
        assert(table::ordered(Table { entries }@)) by {
            let new = Table { entries }@;
            assert forall|a: int, b: int| 0 <= a < b < new.len() implies text::before(
                #[trigger] new[a].0,
                #[trigger] new[b].0,
            ) by {
                assert(new[a].0 == t@[a].0 && new[b].0 == t@[b].0);
                assert(text::before(t@[a].0, t@[b].0));
            }
        }
    }
    let out: Table<JsonValue> = Table { entries };
    proof {
        assert(members(out) =~= members(*t));
    }
    out
}

/// A digit of a hexadecimal number below sixteen, in lower case.
pub open spec fn low_hex(n: int) -> char {
    if n < 10 {
        (48 + n) as char
    } else {
        (87 + n) as char
    }
}

/// How a character stands in a quoted text: quotation marks, backslashes and control
/// characters are escaped, those without a letter of their own by their number.
pub open spec fn escaped_char(c: char) -> Seq<char> {
    if c == '"' || c == '\\' {
        seq!['\\', c]
    } else if c == '\u{8}' {
        seq!['\\', 'b']
    } else if c == '\t' {
        seq!['\\', 't']
    } else if c == '\n' {
        seq!['\\', 'n']
    } else if c == '\u{c}' {
        seq!['\\', 'f']
    } else if c == '\r' {
        seq!['\\', 'r']
    } else if (c as int) < 32 {
        seq!['\\', 'u', '0', '0', low_hex(c as int / 16), low_hex(c as int % 16)]
    } else {
        seq![c]
    }
}

/// A text with every character as it stands in a quoted one.
pub open spec fn escaped_text(s: Seq<char>) -> Seq<char>
    decreases s.len(),
{
    if s.len() == 0 {
        seq![]
    } else {
        escaped_text(s.drop_last()) + escaped_char(s.last())
    }
}

/// A text between quotation marks.
pub open spec fn quoted(s: Seq<char>) -> Seq<char> {
    seq!['"'] + escaped_text(s) + seq!['"']
}

/// Calls `serde_json::to_string` on a string, which cannot fail: the text between
/// quotation marks, with quotation marks, backslashes and control characters escaped.
#[verifier::external_body]
pub(crate) fn quote(s: &str) -> (out: String)
    ensures
        out@ == quoted(s@),
{
    serde_json::to_string(s).unwrap_or_default()
}

/// The compact text of a value.
pub open spec fn rendered(j: Json) -> Seq<char>
    decreases j, 0nat,
{
    match j {
        Json::Null => "null"@,
        Json::Bool(b) => if b {
            "true"@
        } else {
            "false"@
        },
        Json::Unsigned(n) => text::decimal_of(n as nat),
        Json::Negative(n) => if n < 0 {
            "-"@ + text::decimal_of((-n) as nat)
        } else {
            text::decimal_of(n as nat)
        },
        Json::Float(t) => t,
        Json::Text(s) => quoted(s),
        Json::Array(items) => "["@ + rendered_items(items, items.len()) + "]"@,
        Json::Object(list) => "{"@ + rendered_members(list, list.len()) + "}"@,
    }
}

/// The compact texts of the first `n` items, with commas between them.
pub open spec fn rendered_items(items: Seq<Json>, n: nat) -> Seq<char>
    decreases items, n,
{
    if n == 0 || n > items.len() {
        seq![]
    } else if n == 1 {
        rendered(items[0])
    } else {
        rendered_items(items, (n - 1) as nat) + ","@ + rendered(items[n - 1])
    }
}

/// The compact texts of the first `n` members, with commas between them.
pub open spec fn rendered_members(list: Seq<(Seq<char>, Json)>, n: nat) -> Seq<char>
    decreases list, n,
{
    if n == 0 || n > list.len() {
        seq![]
    } else if n == 1 {
        quoted(list[0].0) + ":"@ + rendered(list[0].1)
    } else {
        rendered_members(list, (n - 1) as nat) + ","@ + quoted(list[n - 1].0) + ":"@ + rendered(
            list[n - 1].1,
        )
    }
}

/// The compact text of some items, with commas between them.
fn render_items(a: &Vec<JsonValue>) -> (out: String)
    ensures
        out@ == rendered_items(json_of(JsonValue::Array(*a))->Array_0, a@.len()),
    decreases a,
{
    let ghost items = json_of(JsonValue::Array(*a))->Array_0;
    let mut out: String = String::new();
    let mut i: usize = 0;
    while i < a.len()
        invariant
            i <= a@.len(),
            items == json_of(JsonValue::Array(*a))->Array_0,
            out@ == rendered_items(items, i as nat),
        decreases a@.len() - i,
    {
        let item: String = a[i].to_text();
        proof {
            assert(items[i as int] == json_of(a@[i as int]));
        }
        if i == 0 {
            out = item;
        } else {
            out.append(",");
            out.append(item.as_str());
        }
        i += 1;
    }
    out
}

/// The compact text of some members, with commas between them.
fn render_members(t: &Table<JsonValue>) -> (out: String)
    ensures
        out@ == rendered_members(members(*t), members(*t).len()),
    decreases t,
{
    let mut out: String = String::new();
    let mut i: usize = 0;
    while i < t.entries.len()
        invariant
            i <= t.entries@.len(),
            out@ == rendered_members(members(*t), i as nat),
        decreases t.entries@.len() - i,
    {
        let key: String = quote(t.entries[i].0.as_str());
        let item: String = t.entries[i].1.to_text();
        proof {
            assert(members(*t)[i as int] == (
                t.entries@[i as int].0@,
                json_of(t.entries@[i as int].1),
            ));
        }
        if i == 0 {
            out = key;
        } else {
            out.append(",");
            out.append(key.as_str());
        }
        out.append(":");
        out.append(item.as_str());
        i += 1;
    }
    out
}

impl JsonValue {
    /// The compact text of a value.
    pub fn to_text(&self) -> (out: String)
        ensures
            out@ == rendered(self@),
        decreases self,
    {
        match self {
            JsonValue::Null => String::from_str("null"),
            JsonValue::Bool(b) => if *b {
                String::from_str("true")
            } else {
                String::from_str("false")
            },
            JsonValue::Number(Number::Unsigned(n)) => text::decimal(*n),
            JsonValue::Number(Number::Negative(n)) => if *n < 0 {
                let mut out: String = String::from_str("-");
                let size: u64 = if *n == i64::MIN {
                    9223372036854775808
                } else {
                    (-*n) as u64
                };
                out.append(text::decimal(size).as_str());
                out
            } else {
                text::decimal(*n as u64)
            },
            JsonValue::Number(Number::Float(t)) => t.clone(),
            JsonValue::String(s) => quote(s.as_str()),
            JsonValue::Array(a) => {
                let mut out: String = String::from_str("[");
                out.append(render_items(a).as_str());
                out.append("]");
                out
            },
            JsonValue::Object(t) => {
                let mut out: String = String::from_str("{");
                out.append(render_members(t).as_str());
                out.append("}");
                out
            },
        }
    }

    pub fn as_str(&self) -> (out: Option<&str>)
        ensures
            match (out, text_in(self@)) {
                (Some(s), Some(t)) => s@ == t,
                (None, None) => true,
                _ => false,
            },
    {
        match self {
            JsonValue::String(s) => Some(s.as_str()),
            _ => None,
        }
    }

    pub fn as_u64(&self) -> (out: Option<u64>)
        ensures
            out == unsigned_in(self@),
    {
        match self {
            JsonValue::Number(Number::Unsigned(n)) => Some(*n),
            _ => None,
        }
    }

    pub fn as_bool(&self) -> (out: Option<bool>)
        ensures
            out == bool_in(self@),
    {
        match self {
            JsonValue::Bool(b) => Some(*b),
            _ => None,
        }
    }

    pub fn as_array(&self) -> (out: Option<&Vec<JsonValue>>)
        ensures
            match (out, self@) {
                (Some(a), Json::Array(items)) => {
                    &&& a@.len() == items.len()
                    &&& forall|i: int| 0 <= i < items.len() ==> (#[trigger] a@[i])@ == items[i]
                },
                (None, Json::Array(_)) => false,
                (None, _) => true,
                _ => false,
            },
    {
        match self {
            JsonValue::Array(a) => Some(a),
            _ => None,
        }
    }

    /// The member of an object under a key.
    pub fn get(&self, key: &str) -> (out: Option<&JsonValue>)
        ensures
            match (out, member_in(self@, key@)) {
                (Some(v), Some(w)) => v@ == w,
                (None, None) => true,
                _ => false,
            },
    {
        match self {
            JsonValue::Object(t) => {
                proof {
                    lemma_members(*t);
                    table::lemma_mapped_lookup(t@, to_json(), key@);
                }
                t.get(key)
            },
            _ => None,
        }
    }
}

/// The text that a value is, where it is one.
pub open spec fn text_in(j: Json) -> Option<Seq<char>> {
    match j {
        Json::Text(s) => Some(s),
        _ => None,
    }
}

/// The unsigned number that a value is, where it is one.
pub open spec fn unsigned_in(j: Json) -> Option<u64> {
    match j {
        Json::Unsigned(n) => Some(n),
        _ => None,
    }
}

pub open spec fn bool_in(j: Json) -> Option<bool> {
    match j {
        Json::Bool(b) => Some(b),
        _ => None,
    }
}

/// The member of an object under a key.
pub open spec fn member_in(j: Json, key: Seq<char>) -> Option<Json> {
    match j {
        Json::Object(list) => table::lookup(list, key),
        _ => None,
    }
}

/// `serde_json::Value`: a parsed JSON value, read only through `unpack`.
#[verifier::external_type_specification]
#[verifier::external_body]
pub struct ExValue(serde_json::Value);

/// What a `serde_json::Value` holds, the members of its objects in the order of
/// their keys.
pub uninterp spec fn contents(v: serde_json::Value) -> Json;

/// What `serde_json::from_str` reads in a text, `None` where it is not JSON.
pub uninterp spec fn parsed(s: Seq<char>) -> Option<Json>;

/// One level of a parsed value.
pub enum Level {
    Null,
    Bool(bool),
    Number(Number),
    Text(String),
    Array(Vec<serde_json::Value>),
    Object(Vec<(String, serde_json::Value)>),
}

/// What one level and what is below it say.
pub open spec fn level_json(level: Level) -> Json {
    match level {
        Level::Null => Json::Null,
        Level::Bool(b) => Json::Bool(b),
        Level::Number(n) => json_of(JsonValue::Number(n)),
        Level::Text(s) => Json::Text(s@),
        Level::Array(a) => Json::Array(a@.map_values(|v: serde_json::Value| contents(v))),
        Level::Object(m) => Json::Object(
            m@.map_values(|e: (String, serde_json::Value)| (e.0@, contents(e.1))),
        ),
    }
}

/// Calls `serde_json::from_str` for a `serde_json::Value`. Whether the text is
/// JSON, and what it holds, are functions of the text.
#[verifier::external_body]
fn parse_value(s: &str) -> (out: Option<serde_json::Value>)
    ensures
        match (out, parsed(s@)) {
            (Some(v), Some(j)) => contents(v) == j,
            (None, None) => true,
            _ => false,
        },
{
    serde_json::from_str(s).ok()
}

/// Takes one level off a `serde_json::Value` by its variants, its numbers by
/// `Number::as_u64`, `Number::as_i64` and their text. A `serde_json::Map` hands
/// out its members in the order of their keys.
#[verifier::external_body]
fn unpack(v: serde_json::Value) -> (out: Level)
    ensures
        level_json(out) == contents(v),
        level_json(out) matches Json::Object(list) ==> table::ordered(list),
{
    match v {
        serde_json::Value::Null => Level::Null,
        serde_json::Value::Bool(b) => Level::Bool(b),
        serde_json::Value::Number(n) => Level::Number(match (n.as_u64(), n.as_i64()) {
            (Some(u), _) => Number::Unsigned(u),
            (None, Some(i)) => Number::Negative(i),
            (None, None) => Number::Float(n.to_string()),
        }),
        serde_json::Value::String(s) => Level::Text(s),
        serde_json::Value::Array(a) => Level::Array(a),
        serde_json::Value::Object(m) => Level::Object(m.into_iter().collect()),
    }
}

/// The value that a parsed value holds.
fn from_parsed(v: serde_json::Value) -> (out: JsonValue)
    ensures
        out@ == contents(v),
    decreases contents(v),
{
    let ghost whole = contents(v);
    let level: Level = unpack(v);
    let ghost opened = level;
    match level {
        Level::Null => JsonValue::Null,
        Level::Bool(b) => JsonValue::Bool(b),
        Level::Number(n) => JsonValue::Number(n),
        Level::Text(s) => JsonValue::String(s),
        Level::Array(a) => {
            let ghost all = a@;
            let mut a: Vec<serde_json::Value> = a;
            let mut out: Vec<JsonValue> = Vec::new();
            while a.len() > 0
                invariant
                    whole == contents(v),
                    whole == Json::Array(all.map_values(|v: serde_json::Value| contents(v))),
                    a@.len() + out@.len() == all.len(),
                    forall|i: int| 0 <= i < out@.len() ==> json_of(#[trigger] out@[i]) == contents(
                        all[i],
                    ),
                    forall|i: int| 0 <= i < a@.len() ==> #[trigger] a@[i] == all[out@.len() + i],
                decreases a@.len(),
            {
                let ghost k = out@.len() as int;
                let first: serde_json::Value = a.remove(0);
                proof {
                    assert(first == all[k]);
                    assert(whole->Array_0[k] == contents(first));
                    assert(decreases_to!(whole => whole->Array_0[k]));
                }
                out.push(from_parsed(first));
            }
            let value: JsonValue = JsonValue::Array(out);
            proof {
                assert(json_of(value)->Array_0 =~= whole->Array_0);
            }
            value
        },
        Level::Object(m) => {
            let ghost all = m@;
            let ghost list = all.map_values(
                |e: (String, serde_json::Value)| (e.0@, contents(e.1)),
            );
            let mut m: Vec<(String, serde_json::Value)> = m;
            let mut out: Table<JsonValue> = Table::new();
            let ghost mut k: int = 0;
            proof {
                assert(list.take(0) =~= seq![]);
                assert(table::mapped(out@, to_json()) =~= seq![]);
            }
            while m.len() > 0
                invariant
                    whole == contents(v),
                    whole == Json::Object(list),
                    table::ordered(list),
                    list == all.map_values(
                        |e: (String, serde_json::Value)| (e.0@, contents(e.1)),
                    ),
                    0 <= k,
                    k + m@.len() == all.len(),
                    table::mapped(out@, to_json()) == list.take(k),
                    forall|i: int| 0 <= i < m@.len() ==> #[trigger] m@[i] == all[k + i],
                decreases m@.len(),
            {
                let (key, first) = m.remove(0);
                proof {
                    assert((key, first) == all[k]);
                    assert(list[k] == (key@, contents(first)));
                    assert(whole->Object_0 == list);
                    assert(decreases_to!(whole => whole->Object_0[k].1));
                }
                let ghost before = out@;
                let ghost name = key@;
                let value: JsonValue = from_parsed(first);
                out.insert(key, value);
                proof {
                    table::lemma_mapped_put(before, to_json(), name, value);
                    let so_far = list.take(k);
                    assert forall|i: int| 0 <= i < so_far.len() implies text::before(
                        #[trigger] so_far[i].0,
                        name,
                    ) by {
                        assert(text::before(list[i].0, list[k].0));
                    }
                    table::lemma_put_last(so_far, name, value@);
                    assert(list.take(k + 1) =~= so_far.push(list[k]));
                }
                proof {
                    k = k + 1;
                }
            }
            proof {
                assert(list.take(k) =~= list);
                lemma_members(out);
            }
            JsonValue::Object(out)
        },
    }
}

/// Reads a text as JSON.
pub fn parse(s: &str) -> (out: Option<JsonValue>)
    ensures
        match (out, parsed(s@)) {
            (Some(v), Some(j)) => v@ == j,
            (None, None) => true,
            _ => false,
        },
{
    match parse_value(s) {
        Some(v) => Some(from_parsed(v)),
        None => None,
    }
}

} // verus!
