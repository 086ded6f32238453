//! JSON texts: reading members and values out of them, and writing them.

use vstd::prelude::*;

use crate::seqs;
use crate::text;

verus! {

/// What `serde_json` finds in a text: parsed as a JSON value, the string
/// under a name of the outermost object.
pub uninterp spec fn string_member(json: Seq<char>, name: Seq<char>) -> Option<Seq<char>>;

/// Calls `serde_json::from_str` for a `serde_json::Value`, then `Value::get`
/// and `Value::as_str`. The result is a function of the text and the name:
/// the string that the parsed object holds under the name; nothing when the
/// text is not JSON, is not an object, has no such member, or holds something
/// else under it. How JSON is read is not stated here.
#[verifier::external_body]
pub(crate) fn get_string(json: &str, name: &str) -> (r: Option<String>)
    ensures
        text::opt_view(r) == string_member(json@, name@),
{
    let value = serde_json::from_str::<serde_json::Value>(json).ok()?;
    value.get(name)?.as_str().map(|s| s.to_string())
}

/// What `serde_json` reads from a text as an array of strings.
pub uninterp spec fn string_list(json: Seq<char>) -> Option<Seq<Seq<char>>>;

/// What a list that was read says.
pub open spec fn list_view(v: Option<Vec<String>>) -> Option<Seq<Seq<char>>> {
    match v {
        Some(v) => Some(text::views(v@)),
        None => None,
    }
}

/// Calls `serde_json::from_str` for a `Vec<String>`. The result is a function
/// of the text: the strings of the array, or nothing when the text is not a
/// JSON array of strings. Strings that were written as a JSON array are read
/// back as they were. How other JSON is read is not stated here.
#[verifier::external_body]
pub(crate) fn read_strings(json: &str) -> (r: Option<Vec<String>>)
    ensures
        list_view(r) == string_list(json@),
        forall|v: Seq<Seq<char>>|
            json@ == #[trigger] rendered(texts_view(v)) ==> list_view(r) == Some(v),
{
    serde_json::from_str::<Vec<String>>(json).ok()
}

/// What `serde_json` reads from a text as one string.
pub uninterp spec fn string_value(json: Seq<char>) -> Option<Seq<char>>;

/// Calls `serde_json::from_str` for a `String`. The result is a function of
/// the text: the string, or nothing when the text is no JSON string. How JSON
/// is read is not stated here.
#[verifier::external_body]
pub(crate) fn read_string(json: &str) -> (r: Option<String>)
    ensures
        text::opt_view(r) == string_value(json@),
{
    serde_json::from_str::<String>(json).ok()
}

/// What `serde_json` writes for the array that it reads from a text.
pub uninterp spec fn compact_list(json: Seq<char>) -> Option<Seq<char>>;

/// Calls `serde_json::from_str` for a `Vec<serde_json::Value>`, then
/// `serde_json::to_string` on it. The result is a function of the text: the
/// array without insignificant white space, or nothing when the text is not a
/// JSON array. How JSON is read, and how its values are written, is not stated
/// here.
#[verifier::external_body]
pub(crate) fn rewrite_list(json: &str) -> (r: Option<String>)
    ensures
        text::opt_view(r) == compact_list(json@),
{
    let items = serde_json::from_str::<Vec<serde_json::Value>>(json).ok()?;
    serde_json::to_string(&items).ok()
}

/// What `serde_json` writes for the value that it reads from a text.
pub uninterp spec fn compact_value(json: Seq<char>) -> Option<Seq<char>>;

/// Calls `serde_json::from_str` for a `serde_json::Value`, then
/// `serde_json::to_string` on it. The result is a function of the text: the
/// value without insignificant white space, or nothing when the text is not
/// JSON. How JSON is read, and how its values are written, is not stated here.
#[verifier::external_body]
pub(crate) fn rewrite_value(json: &str) -> (r: Option<String>)
    ensures
        text::opt_view(r) == compact_value(json@),
{
    let value = serde_json::from_str::<serde_json::Value>(json).ok()?;
    serde_json::to_string(&value).ok()
}

/// How a character stands inside a JSON string.
pub open spec fn escaped(c: char) -> Seq<char> {
    if c == '"' {
        seq!['\\', '"']
    } else if c == '\\' {
        seq!['\\', '\\']
    } else if c == '\n' {
        seq!['\\', 'n']
    } else if c == '\r' {
        seq!['\\', 'r']
    } else if c == '\t' {
        seq!['\\', 't']
    } else if c as int == 8 {
        seq!['\\', 'b']
    } else if c as int == 12 {
        seq!['\\', 'f']
    } else if (c as int) < 32 {
        seq![
            '\\',
            'u',
            '0',
            '0',
            text::digit_char(c as int / 16),
            text::digit_char(c as int % 16),
        ]
    } else {
        seq![c]
    }
}

/// How a text stands inside a JSON string.
pub open spec fn escaped_text(s: Seq<char>) -> Seq<char>
    decreases s.len(),
{
    if s.len() == 0 {
        seq![]
    } else {
        escaped(s[0]) + escaped_text(s.skip(1))
    }
}

/// A text as a JSON string.
pub open spec fn quote(s: Seq<char>) -> Seq<char> {
    seq!['"'] + escaped_text(s) + seq!['"']
}

/// Calls `serde_json::Value::from` and `Value`'s `to_string`, which write a
/// text as a JSON string: between quotes, with a backslash before quotes and
/// backslashes, and control characters as escapes.
#[verifier::external_body]
pub(crate) fn quoted(s: &str) -> (r: String)
    ensures
        r@ == quote(s@),
{
    serde_json::Value::from(s).to_string()
}

/// A JSON value. `Verbatim` is a value that is text already.
pub enum Json {
    Null,
    Flag(bool),
    Number(i64),
    Text(String),
    List(Vec<Json>),
    Object(Vec<(String, Json)>),
    Verbatim(String),
}

/// What a `Json` says.
#[verifier::ext_equal]
pub enum JsonView {
    Null,
    Flag(bool),
    Number(int),
    Text(Seq<char>),
    List(Seq<JsonView>),
    Object(Seq<(Seq<char>, JsonView)>),
    Verbatim(Seq<char>),
}

/// What a value says.
pub open spec fn tree(j: Json) -> JsonView
    decreases j,
{
    match j {
        Json::Null => JsonView::Null,
        Json::Flag(b) => JsonView::Flag(b),
        Json::Number(n) => JsonView::Number(n as int),
        Json::Text(s) => JsonView::Text(s@),
        Json::List(v) => JsonView::List(
            Seq::new(
                v@.len(),
                |i: int|
                    if 0 <= i < v@.len() {
                        tree(v@[i])
                    } else {
                        JsonView::Null
                    },
            ),
        ),
        Json::Object(v) => JsonView::Object(
            Seq::new(
                v@.len(),
                |i: int|
                    if 0 <= i < v@.len() {
                        (v@[i].0@, tree(v@[i].1))
                    } else {
                        (seq![], JsonView::Null)
                    },
            ),
        ),
        Json::Verbatim(s) => JsonView::Verbatim(s@),
    }
}

impl View for Json {
    type V = JsonView;

    open spec fn view(&self) -> JsonView {
        tree(*self)
    }
}

/// The text of an array of values, given their texts.
pub open spec fn list_text(items: Seq<Seq<char>>) -> Seq<char> {
    "["@ + text::join(items, ","@) + "]"@
}

/// The text of an object's member, given the value's text.
pub open spec fn member_text(name: Seq<char>, value: Seq<char>) -> Seq<char> {
    quote(name) + ":"@ + value
}

/// The text of an object, given the texts of its members.
pub open spec fn object_text(members: Seq<Seq<char>>) -> Seq<char> {
    "{"@ + text::join(members, ","@) + "}"@
}

/// The text of a value, without white space between its parts.
pub open spec fn rendered(j: JsonView) -> Seq<char>
    decreases j,
{
    match j {
        JsonView::Null => "null"@,
        JsonView::Flag(b) => if b {
            "true"@
        } else {
            "false"@
        },
        JsonView::Number(n) => text::dec_int(n),
        JsonView::Text(s) => quote(s),
        JsonView::List(v) => list_text(rendered_items(v)),
        JsonView::Object(v) => object_text(rendered_members(v)),
        JsonView::Verbatim(s) => s,
    }
}

/// The texts of the values of an array.
pub open spec fn rendered_items(v: Seq<JsonView>) -> Seq<Seq<char>>
    decreases v,
{
    if v.len() == 0 {
        seq![]
    } else {
        rendered_items(v.drop_last()).push(rendered(v.last()))
    }
}

/// The texts of the members of an object.
pub open spec fn rendered_members(v: Seq<(Seq<char>, JsonView)>) -> Seq<Seq<char>>
    decreases v,
{
    if v.len() == 0 {
        seq![]
    } else {
        rendered_members(v.drop_last()).push(member_text(v.last().0, rendered(v.last().1)))
    }
}

/// The value of the first member with a name.
pub open spec fn member_in(members: Seq<(Seq<char>, JsonView)>, name: Seq<char>) -> JsonView
    decreases members.len(),
{
    if members.len() == 0 {
        JsonView::Null
    } else if members[0].0 == name {
        members[0].1
    } else {
        member_in(members.skip(1), name)
    }
}

/// The member of an object with a name; null when there is none.
pub open spec fn member(j: JsonView, name: Seq<char>) -> JsonView {
    match j {
        JsonView::Object(v) => member_in(v, name),
        _ => JsonView::Null,
    }
}

/// The text that a value is, if it is one.
pub open spec fn as_text(j: JsonView) -> Option<Seq<char>> {
    match j {
        JsonView::Text(s) => Some(s),
        _ => None,
    }
}

/// The text that a value is; empty when it is none.
pub open spec fn text_or_empty(j: JsonView) -> Seq<char> {
    match j {
        JsonView::Text(s) => s,
        _ => seq![],
    }
}

impl Json {
    /// The value as text, without white space between its parts.
    pub fn render(&self) -> (r: String)
        ensures
            r@ == rendered(self@),
        decreases self,
    {
        match self {
            Json::Null => text::owned("null"),
            Json::Flag(b) => text::owned(
                if *b {
                    "true"
                } else {
                    "false"
                },
            ),
            Json::Number(n) => text::dec_i64(*n),
            Json::Text(s) => quoted(s.as_str()),
            Json::List(v) => {
                let ghost all = self@->List_0;
                let mut parts: Vec<String> = Vec::new();
                let mut i: usize = 0;
                assert(text::views(parts@) =~= rendered_items(all.take(0)));
                while i < v.len()
                    invariant
                        i <= v@.len(),
                        *self == Json::List(*v),
                        all.len() == v@.len(),
                        forall|k: int| 0 <= k < all.len() ==> #[trigger] all[k] == v@[k]@,
                        text::views(parts@) == rendered_items(all.take(i as int)),
                    decreases v@.len() - i,
                {
                    proof {
                        assert(decreases_to!(*self => self->List_0));
                        assert(decreases_to!(self->List_0 => self->List_0@));
                        assert(decreases_to!(v@ => v@[i as int]));
                    }
                    let ghost before = text::views(parts@);
                    parts.push(v[i].render());
                    proof {
                        seqs::lemma_take_step(all, i as int);
                        assert(text::views(parts@) =~= before.push(rendered(all[i as int])));
                    }
                    i = i + 1;
                }
                assert(all.take(v@.len() as int) =~= all);
                text::owned("[").concat(text::joined(&parts, ",").as_str()).concat("]")
            },
            Json::Object(v) => {
                let ghost all = self@->Object_0;
                let mut parts: Vec<String> = Vec::new();
                let mut i: usize = 0;
                assert(text::views(parts@) =~= rendered_members(all.take(0)));
                while i < v.len()
                    invariant
                        i <= v@.len(),
                        *self == Json::Object(*v),
                        all.len() == v@.len(),
                        forall|k: int|
                            0 <= k < all.len() ==> #[trigger] all[k] == (v@[k].0@, v@[k].1@),
                        text::views(parts@) == rendered_members(all.take(i as int)),
                    decreases v@.len() - i,
                {
                    proof {
                        assert(decreases_to!(*self => self->Object_0));
                        assert(decreases_to!(self->Object_0 => self->Object_0@));
                        assert(decreases_to!(v@ => v@[i as int]));
                        assert(decreases_to!(v@[i as int] => v@[i as int].1));
                    }
                    let value = v[i].1.render();
                    let ghost before = text::views(parts@);
                    parts.push(quoted(v[i].0.as_str()).concat(":").concat(value.as_str()));
                    proof {
                        seqs::lemma_take_step(all, i as int);
                        assert(text::views(parts@) =~= before.push(
                            member_text(all[i as int].0, rendered(all[i as int].1)),
                        ));
                    }
                    i = i + 1;
                }
                assert(all.take(v@.len() as int) =~= all);
                text::owned("{").concat(text::joined(&parts, ",").as_str()).concat("}")
            },
            Json::Verbatim(s) => text::owned(s.as_str()),
        }
    }

    /// The member of an object with a name.
    pub fn get(&self, name: &str) -> (r: Option<&Json>)
        ensures
            match r {
                Some(j) => j@ == member(self@, name@),
                None => member(self@, name@) is Null,
            },
    {
        match self {
            Json::Object(v) => {
                let ghost all = self@->Object_0;
                let mut i: usize = 0;
                assert(all.skip(0) =~= all);
                while i < v.len()
                    invariant
                        i <= v@.len(),
                        *self == Json::Object(*v),
                        self@ == JsonView::Object(all),
                        all.len() == v@.len(),
                        forall|k: int|
                            0 <= k < all.len() ==> #[trigger] all[k] == (v@[k].0@, v@[k].1@),
                        member_in(all.skip(i as int), name@) == member_in(all, name@),
                    decreases v@.len() - i,
                {
                    assert(all.skip(i as int)[0] == all[i as int]);
                    if text::same(v[i].0.as_str(), name) {
                        return Some(&v[i].1);
                    }
                    assert(all.skip(i as int).skip(1) =~= all.skip(i + 1));
                    i = i + 1;
                }
                None
            },
            _ => None,
        }
    }

    /// The text of the member of an object with a name.
    pub fn text_of(&self, name: &str) -> (r: Option<&str>)
        ensures
            match r {
                Some(t) => as_text(member(self@, name@)) == Some(t@),
                None => as_text(member(self@, name@)) is None,
            },
    {
        match self.get(name) {
            Some(Json::Text(s)) => Some(s.as_str()),
            _ => None,
        }
    }

    /// The text of a member as JSON; null when there is none.
    pub fn rendered_member(&self, name: &str) -> (r: String)
        ensures
            r@ == rendered(member(self@, name@)),
    {
        match self.get(name) {
            Some(j) => j.render(),
            None => text::owned("null"),
        }
    }
}

/// A list of members in the making.
pub open spec fn members(v: Seq<(String, Json)>) -> Seq<(Seq<char>, JsonView)> {
    v.map_values(|m: (String, Json)| (m.0@, m.1@))
}

/// Add a member to an object in the making.
pub fn add_member(v: &mut Vec<(String, Json)>, name: &str, value: Json)
    ensures
        members(final(v)@) == members(old(v)@).push((name@, value@)),
{
    let ghost before = members(v@);
    let ghost item = value@;
    v.push((text::owned(name), value));
    assert(members(v@) =~= before.push((name@, item)));
}

/// Make an object of its members.
pub fn object_of(v: Vec<(String, Json)>) -> (r: Json)
    ensures
        r@ == JsonView::Object(members(v@)),
{
    let ghost m = members(v@);
    let r = Json::Object(v);
    assert(r@->Object_0 =~= m);
    r
}

/// A number, or null.
pub open spec fn number_or_null(n: Option<i64>) -> JsonView {
    match n {
        Some(n) => JsonView::Number(n as int),
        None => JsonView::Null,
    }
}

/// Make a number, or null.
pub fn optional_number(n: Option<i64>) -> (r: Json)
    ensures
        r@ == number_or_null(n),
{
    match n {
        Some(n) => Json::Number(n),
        None => Json::Null,
    }
}

/// Make a text.
pub fn text_json(s: &str) -> (r: Json)
    ensures
        r@ == JsonView::Text(s@),
{
    Json::Text(text::owned(s))
}

/// A list of texts.
pub open spec fn texts_view(v: Seq<Seq<char>>) -> JsonView {
    JsonView::List(v.map_values(|s: Seq<char>| JsonView::Text(s)))
}

/// Make a list of texts.
pub fn texts_json(v: &Vec<String>) -> (r: Json)
    ensures
        r@ == texts_view(text::views(v@)),
{
    let mut items: Vec<Json> = Vec::new();
    let mut i: usize = 0;
    while i < v.len()
        invariant
            i <= v@.len(),
            items@.len() == i,
            forall|k: int| 0 <= k < i ==> (#[trigger] items@[k])@ == JsonView::Text(v@[k]@),
        decreases v@.len() - i,
    {
        items.push(text_json(v[i].as_str()));
        i = i + 1;
    }
    let r = Json::List(items);
    assert(r@->List_0 =~= text::views(v@).map_values(|s: Seq<char>| JsonView::Text(s)));
    r
}

/// Values are written by their kind: what a list or an object holds stands in
/// it in order, with commas between.
pub proof fn law_values_are_written(j: JsonView)
    ensures
        j is Null ==> rendered(j) == "null"@,
        j == JsonView::Flag(true) ==> rendered(j) == "true"@,
        j == JsonView::Flag(false) ==> rendered(j) == "false"@,
        j matches JsonView::Number(n) ==> (n >= 0 ==> rendered(j) == text::digits(n as nat, 10)),
        j matches JsonView::Number(n) ==> (n < 0 ==> rendered(j) == seq!['-'] + text::digits(
            (-n) as nat,
            10,
        )),
        j matches JsonView::Text(s) ==> rendered(j) == quote(s),
        j matches JsonView::List(v) ==> rendered(j) == "["@ + text::join(
            Seq::new(v.len(), |i: int| rendered(v[i])),
            ","@,
        ) + "]"@,
        j matches JsonView::Object(v) ==> rendered(j) == "{"@ + text::join(
            Seq::new(v.len(), |i: int| quote(v[i].0) + ":"@ + rendered(v[i].1)),
            ","@,
        ) + "}"@,
{
    match j {
        JsonView::List(v) => {
            lemma_items(v);
        },
        JsonView::Object(v) => {
            lemma_members(v);
        },
        _ => {},
    }
}

proof fn lemma_items(v: Seq<JsonView>)
    ensures
        rendered_items(v) == Seq::new(v.len(), |i: int| rendered(v[i])),
    decreases v.len(),
{
    if v.len() > 0 {
        lemma_items(v.drop_last());
    }
    assert(rendered_items(v) =~= Seq::new(v.len(), |i: int| rendered(v[i])));
}

proof fn lemma_members(v: Seq<(Seq<char>, JsonView)>)
    ensures
        rendered_members(v) == Seq::new(
            v.len(),
            |i: int| quote(v[i].0) + ":"@ + rendered(v[i].1),
        ),
    decreases v.len(),
{
    if v.len() > 0 {
        lemma_members(v.drop_last());
    }
    assert(rendered_members(v) =~= Seq::new(
        v.len(),
        |i: int| quote(v[i].0) + ":"@ + rendered(v[i].1),
    ));
}

/// A member is the first of its name; where there is none it is null.
pub proof fn law_members_are_found(v: Seq<(Seq<char>, JsonView)>, name: Seq<char>, i: int)
    requires
        0 <= i <= v.len(),
        forall|k: int| 0 <= k < i ==> (#[trigger] v[k]).0 != name,
        i < v.len() ==> v[i].0 == name,
    ensures
        member(JsonView::Object(v), name) == (if i < v.len() {
            v[i].1
        } else {
            JsonView::Null
        }),
    decreases v.len(),
{
    if i > 0 {
        assert(v[0].0 != name);
        let t = v.skip(1);
        assert forall|k: int| 0 <= k < i - 1 implies (#[trigger] t[k]).0 != name by {
            assert(t[k] == v[k + 1]);
        }
        law_members_are_found(t, name, i - 1);
    }
}

} // verus!
