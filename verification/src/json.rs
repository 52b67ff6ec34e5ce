//! JSON documents as plain values, read with `serde_json`.

use crate::double::Double;
use crate::tally;
use crate::text;
use vstd::prelude::*;

verus! {

/// A JSON number in the forms that a reader can ask for.
#[derive(Clone, Copy, Debug, PartialEq, Eq, Structural)]
pub struct JsonNumber {
    /// The number as a `u64`, where it is one.
    pub unsigned: Option<u64>,
    /// The number as an `i64`, where it is one.
    pub signed: Option<i64>,
    /// The nearest floating point number.
    pub double: Option<Double>,
}

/// A JSON document.
#[derive(Debug)]
pub enum Json {
    Null,
    Bool(bool),
    Number(JsonNumber),
    Str(String),
    Array(Vec<Json>),
    Object(Vec<(String, Json)>),
}

/// What a JSON document says.
pub enum JsonTree {
    Null,
    Bool(bool),
    Number(JsonNumber),
    Str(Seq<char>),
    Array(Seq<JsonTree>),
    Object(Seq<(Seq<char>, JsonTree)>),
}

impl Json {
    pub open spec fn tree(self) -> JsonTree
        decreases self,
    {
        match self {
            Json::Null => JsonTree::Null,
            Json::Bool(b) => JsonTree::Bool(b),
            Json::Number(n) => JsonTree::Number(n),
            Json::Str(s) => JsonTree::Str(s@),
            Json::Array(items) => JsonTree::Array(
                Seq::new(
                    items@.len(),
                    |i: int|
                        if 0 <= i < items@.len() {
                            items@[i].tree()
                        } else {
                            JsonTree::Null
                        },
                ),
            ),
            Json::Object(fields) => JsonTree::Object(
                Seq::new(
                    fields@.len(),
                    |i: int|
                        if 0 <= i < fields@.len() {
                            (fields@[i].0@, fields@[i].1.tree())
                        } else {
                            (Seq::<char>::empty(), JsonTree::Null)
                        },
                ),
            ),
        }
    }
}

/// The value of the first member named `key`.
pub open spec fn member(fields: Seq<(Seq<char>, JsonTree)>, key: Seq<char>) -> Option<JsonTree>
    decreases fields.len(),
{
    if fields.len() == 0 {
        None
    } else if fields[0].0 == key {
        Some(fields[0].1)
    } else {
        member(fields.drop_first(), key)
    }
}

/// The place that `token` names in an array: a number without a sign and
/// without leading zeros.
pub open spec fn array_place(token: Seq<char>) -> Option<nat> {
    if token.len() > 0 && text::all_digits(token) && (token.len() == 1 || token[0] != '0') {
        Some(text::digits_value(token))
    } else {
        None
    }
}

/// One step of a JSON pointer.
pub open spec fn step(tree: JsonTree, token: Seq<char>) -> Option<JsonTree> {
    match tree {
        JsonTree::Object(fields) => member(fields, token),
        JsonTree::Array(items) => match array_place(token) {
            Some(i) => if i < items.len() {
                Some(items[i as int])
            } else {
                None
            },
            None => None,
        },
        _ => None,
    }
}

/// The steps `tokens`, one after the other.
pub open spec fn walk(tree: JsonTree, tokens: Seq<Seq<char>>) -> Option<JsonTree>
    decreases tokens.len(),
{
    if tokens.len() == 0 {
        Some(tree)
    } else {
        match walk(tree, tokens.drop_last()) {
            Some(found) => step(found, tokens.last()),
            None => None,
        }
    }
}

/// `s` with each `first` that `second` follows, and that `second`, replaced by `by`.
pub open spec fn replaced(s: Seq<char>, first: char, second: char, by: char) -> Seq<char>
    decreases s.len(),
{
    if s.len() == 0 {
        s
    } else if s.len() > 1 && s[0] == first && s[1] == second {
        seq![by] + replaced(s.skip(2), first, second, by)
    } else {
        seq![s[0]] + replaced(s.drop_first(), first, second, by)
    }
}

/// A token of a JSON pointer with its escapes resolved.
pub open spec fn unescaped(token: Seq<char>) -> Seq<char> {
    replaced(replaced(token, '~', '1', '/'), '~', '0', '~')
}

/// What the JSON pointer `path` leads to.
pub open spec fn tree_at(tree: JsonTree, path: Seq<char>) -> Option<JsonTree> {
    if path.len() == 0 {
        Some(tree)
    } else if path[0] != '/' {
        None
    } else {
        walk(
            tree,
            text::split_on(path, '/').drop_first().map_values(|t: Seq<char>| unescaped(t)),
        )
    }
}

/// No object of the document has two members of one name.
pub open spec fn names_differ(tree: JsonTree) -> bool
    decreases tree,
{
    match tree {
        JsonTree::Array(items) => forall|i: int|
            0 <= i < items.len() ==> names_differ(#[trigger] items[i]),
        JsonTree::Object(fields) => {
            &&& forall|i: int, j: int|
                0 <= i < j < fields.len() ==> (#[trigger] fields[i]).0 != (#[trigger] fields[j]).0
            &&& forall|i: int| 0 <= i < fields.len() ==> names_differ((#[trigger] fields[i]).1)
        },
        _ => true,
    }
}

proof fn lemma_member_found(fields: Seq<(Seq<char>, JsonTree)>, key: Seq<char>)
    requires
        member(fields, key) is Some,
    ensures
        exists|i: int| 0 <= i < fields.len() && member(fields, key) == Some((#[trigger] fields[i]).1),
    decreases fields.len(),
{
    if fields[0].0 != key {
        let rest = fields.drop_first();
        lemma_member_found(rest, key);
        let i = choose|i: int|
            0 <= i < rest.len() && member(rest, key) == Some((#[trigger] rest[i]).1);
        assert(fields[i + 1] == rest[i]);
    }
}

proof fn lemma_walk_keeps_names(tree: JsonTree, tokens: Seq<Seq<char>>)
    requires
        names_differ(tree),
        walk(tree, tokens) is Some,
    ensures
        names_differ(walk(tree, tokens)->0),
    decreases tokens.len(),
{
    if tokens.len() > 0 {
        lemma_walk_keeps_names(tree, tokens.drop_last());
        let found = walk(tree, tokens.drop_last())->0;
        if let JsonTree::Object(fields) = found {
            lemma_member_found(fields, tokens.last());
        }
    }
}

/// What a pointer leads to in a document without doubled names has none either.
pub proof fn lemma_pointer_keeps_names(tree: JsonTree, path: Seq<char>)
    requires
        names_differ(tree),
        tree_at(tree, path) is Some,
    ensures
        names_differ(tree_at(tree, path)->0),
{
    if path.len() > 0 {
        lemma_walk_keeps_names(
            tree,
            text::split_on(path, '/').drop_first().map_values(|t: Seq<char>| unescaped(t)),
        );
    }
}

/// The text at `path`; empty where there is none.
pub open spec fn text_at(tree: JsonTree, path: Seq<char>) -> Seq<char> {
    match tree_at(tree, path) {
        Some(JsonTree::Str(s)) => s,
        _ => Seq::empty(),
    }
}

/// The unsigned number at `path`; zero where there is none.
pub open spec fn u64_at(tree: JsonTree, path: Seq<char>) -> u64 {
    match tree_at(tree, path) {
        Some(found) => match u64_in(found) {
            Some(n) => n,
            None => 0,
        },
        None => 0,
    }
}

/// The signed number at `path`; zero where there is none.
pub open spec fn i64_at(tree: JsonTree, path: Seq<char>) -> i64 {
    match tree_at(tree, path) {
        Some(found) => match i64_in(found) {
            Some(n) => n,
            None => 0,
        },
        None => 0,
    }
}

/// The floating point number at `path`; zero where there is none.
pub open spec fn double_at(tree: JsonTree, path: Seq<char>) -> Double {
    match tree_at(tree, path) {
        Some(JsonTree::Number(n)) => match n.double {
            Some(x) => x,
            None => Double { bits: 0 },
        },
        _ => Double { bits: 0 },
    }
}

/// The entries of the array at `path`, if there is one.
pub open spec fn array_at(tree: JsonTree, path: Seq<char>) -> Option<Seq<JsonTree>> {
    match tree_at(tree, path) {
        Some(JsonTree::Array(items)) => Some(items),
        _ => None,
    }
}

/// The entries of the array at `path`; none where there is no array.
pub open spec fn entries_at(tree: JsonTree, path: Seq<char>) -> Seq<JsonTree> {
    match array_at(tree, path) {
        Some(items) => items,
        None => Seq::empty(),
    }
}

/// The members of the object at `path`; none where there is no object.
pub open spec fn fields_at(tree: JsonTree, path: Seq<char>) -> Seq<(Seq<char>, JsonTree)> {
    match tree_at(tree, path) {
        Some(JsonTree::Object(fields)) => fields,
        _ => Seq::empty(),
    }
}

/// The signed numbers among the entries.
pub open spec fn ints_among(items: Seq<JsonTree>) -> Seq<i64> {
    tally::picked(items, |t: JsonTree| i64_in(t))
}

/// The texts among the entries.
pub open spec fn texts_among(items: Seq<JsonTree>) -> Seq<Seq<char>> {
    tally::picked(items, |t: JsonTree| text_in(t))
}

/// What an optional document says.
pub open spec fn opt_tree(json: Option<&Json>) -> Option<JsonTree> {
    match json {
        Some(json) => Some(json.tree()),
        None => None,
    }
}

/// The entries of the array at `path` of a document that may be missing.
pub open spec fn opt_entries_at(tree: Option<JsonTree>, path: Seq<char>) -> Seq<JsonTree> {
    match tree {
        Some(tree) => entries_at(tree, path),
        None => Seq::empty(),
    }
}

pub open spec fn u64_in(tree: JsonTree) -> Option<u64> {
    match tree {
        JsonTree::Number(n) => n.unsigned,
        _ => None,
    }
}

pub open spec fn i64_in(tree: JsonTree) -> Option<i64> {
    match tree {
        JsonTree::Number(n) => n.signed,
        _ => None,
    }
}

pub open spec fn text_in(tree: JsonTree) -> Option<Seq<char>> {
    match tree {
        JsonTree::Str(s) => Some(s),
        _ => None,
    }
}

/// What each of the documents says.
pub open spec fn trees(items: Seq<Json>) -> Seq<JsonTree> {
    items.map_values(|j: Json| j.tree())
}

/// `serde_json::Value`, which only this module sees.
#[verifier::external_type_specification]
#[verifier::external_body]
pub struct ExValue(serde_json::Value);

/// The top of a `serde_json::Value`.
pub(crate) enum Shape {
    Null,
    Bool(bool),
    Number(JsonNumber),
    Str(String),
    Array(Vec<serde_json::Value>),
    Object(Vec<(String, serde_json::Value)>),
}

/// What a `serde_json::Value` holds.
pub uninterp spec fn value_tree(value: serde_json::Value) -> JsonTree;

/// What `serde_json::from_str` makes of a text: the document it reads, or the
/// text of its error.
pub uninterp spec fn json_read(input: Seq<char>) -> Result<JsonTree, Seq<char>>;

pub(crate) open spec fn shape_tree(shape: Shape) -> JsonTree {
    match shape {
        Shape::Null => JsonTree::Null,
        Shape::Bool(b) => JsonTree::Bool(b),
        Shape::Number(n) => JsonTree::Number(n),
        Shape::Str(s) => JsonTree::Str(s@),
        Shape::Array(items) => JsonTree::Array(
            items@.map_values(|v: serde_json::Value| value_tree(v)),
        ),
        Shape::Object(fields) => JsonTree::Object(
            fields@.map_values(|f: (String, serde_json::Value)| (f.0@, value_tree(f.1))),
        ),
    }
}

/// No two members of the object have the same name.
pub(crate) open spec fn members_differ(shape: Shape) -> bool {
    shape matches Shape::Object(fields) ==> forall|i: int, j: int|
        0 <= i < j < fields@.len() ==> (#[trigger] fields@[i]).0@ != (#[trigger] fields@[j]).0@
}

/// Tells the variants of `serde_json::Value` apart and hands out what they hold.
/// A number is taken as `Number::as_u64`, `Number::as_i64` and `Number::as_f64`
/// give it, the last as its bit pattern. The members of an object come in the
/// order in which its map hands them out, each name once.
#[verifier::external_body]
fn shape_of(value: serde_json::Value) -> (shape: Shape)
    ensures
        value_tree(value) == shape_tree(shape),
        members_differ(shape),
{
    match value {
        serde_json::Value::Null => Shape::Null,
        serde_json::Value::Bool(b) => Shape::Bool(b),
        serde_json::Value::Number(n) => Shape::Number(JsonNumber {
            unsigned: n.as_u64(),
            signed: n.as_i64(),
            double: n.as_f64().map(|x| Double { bits: x.to_bits() }),
        }),
        serde_json::Value::String(s) => Shape::Str(s),
        serde_json::Value::Array(items) => Shape::Array(items),
        serde_json::Value::Object(fields) => Shape::Object(fields.into_iter().collect()),
    }
}

/// `serde_json::from_str`: reads one JSON document. What it reads, or the text of
/// its error, follows from `input` alone and is named `json_read`.
#[verifier::external_body]
fn read_value(input: &str) -> (result: Result<serde_json::Value, String>)
    ensures
        match result {
            Ok(value) => json_read(input@) == Ok::<JsonTree, Seq<char>>(value_tree(value)),
            Err(message) => json_read(input@) == Err::<JsonTree, Seq<char>>(message@),
        },
{
    serde_json::from_str(input).map_err(|err: serde_json::Error| err.to_string())
}

fn json_of(value: serde_json::Value) -> (json: Json)
    ensures
        json.tree() == value_tree(value),
        names_differ(json.tree()),
    decreases value_tree(value),
{
    match shape_of(value) {
        Shape::Null => Json::Null,
        Shape::Bool(b) => Json::Bool(b),
        Shape::Number(n) => Json::Number(n),
        Shape::Str(s) => Json::Str(s),
        Shape::Array(items) => {
            let ghost all = items@;
            let mut out: Vec<Json> = Vec::new();
            for item in it: items
                invariant
                    it.seq() == all,
                    out@.len() == it.index(),
                    value_tree(value) == JsonTree::Array(
                        all.map_values(|v: serde_json::Value| value_tree(v)),
                    ),
                    forall|i: int|
                        0 <= i < out@.len() ==> (#[trigger] out@[i]).tree() == value_tree(all[i])
                            && names_differ(out@[i].tree()),
            {
                let ghost k = it.index() as int;
                assert(value_tree(item) == value_tree(value)->Array_0[k]);
                assert(decreases_to!(value_tree(value) => value_tree(value)->Array_0[k]));
                out.push(json_of(item));
            }
            let ghost parts = out@;
            let json = Json::Array(out);
            let ghost trees = json.tree()->Array_0;
            assert(trees =~= value_tree(value)->Array_0);
            assert forall|i: int| 0 <= i < trees.len() implies names_differ(
                #[trigger] trees[i],
            ) by {
                assert(trees[i] == parts[i].tree());
            }
            json
        },
        Shape::Object(fields) => {
            let ghost all = fields@;
            let mut out: Vec<(String, Json)> = Vec::new();
            for field in it: fields
                invariant
                    it.seq() == all,
                    out@.len() == it.index(),
                    value_tree(value) == JsonTree::Object(
                        all.map_values(
                            |f: (String, serde_json::Value)| (f.0@, value_tree(f.1)),
                        ),
                    ),
                    forall|i: int|
                        0 <= i < out@.len() ==> (#[trigger] out@[i]).0 == all[i].0
                            && out@[i].1.tree() == value_tree(all[i].1) && names_differ(
                            out@[i].1.tree(),
                        ),
            {
                let ghost k = it.index() as int;
                let (name, item) = field;
                assert(value_tree(item) == value_tree(value)->Object_0[k].1);
                assert(decreases_to!(value_tree(value) => value_tree(value)->Object_0[k]));
                assert(decreases_to!(value_tree(value)->Object_0[k] => value_tree(value)->Object_0[k].1));
                out.push((name, json_of(item)));
            }
            let ghost parts = out@;
            let json = Json::Object(out);
            let ghost members = json.tree()->Object_0;
            assert(members =~= value_tree(value)->Object_0);
            assert forall|i: int, j: int| 0 <= i < j < members.len() implies (
            #[trigger] members[i]).0 != (#[trigger] members[j]).0 by {
                assert(all[i].0@ != all[j].0@);
            }
            assert forall|i: int| 0 <= i < members.len() implies names_differ(
                (#[trigger] members[i]).1,
            ) by {
                assert(members[i].1 == parts[i].1.tree());
            }
            json
        },
    }
}

/// Reads one JSON document, or gives the text of the error. No object of the
/// document has two members of one name.
pub fn parse_json(input: &str) -> (result: Result<Json, String>)
    ensures
        match result {
            Ok(json) => json_read(input@) == Ok::<JsonTree, Seq<char>>(json.tree())
                && names_differ(json.tree()),
            Err(message) => json_read(input@) == Err::<JsonTree, Seq<char>>(message@),
        },
{
    match read_value(input) {
        Ok(value) => Ok(json_of(value)),
        Err(message) => Err(message),
    }
}

/// The members of an object, by what they say.
pub open spec fn field_trees(fields: Seq<(String, Json)>) -> Seq<(Seq<char>, JsonTree)> {
    fields.map_values(|f: (String, Json)| (f.0@, f.1.tree()))
}

proof fn lemma_member_at(fields: Seq<(Seq<char>, JsonTree)>, key: Seq<char>, at: int)
    requires
        0 <= at <= fields.len(),
        forall|i: int| 0 <= i < at ==> (#[trigger] fields[i]).0 != key,
        at < fields.len() ==> fields[at].0 == key,
    ensures
        member(fields, key) == if at < fields.len() {
            Some(fields[at].1)
        } else {
            None
        },
    decreases at,
{
    if at > 0 {
        assert(fields[0].0 != key);
        let tail = fields.drop_first();
        assert forall|i: int| 0 <= i < at - 1 implies (#[trigger] tail[i]).0 != key by {
            assert(tail[i] == fields[i + 1]);
        }
        lemma_member_at(tail, key, at - 1);
    }
}

/// `chars` with each `first` that `second` follows, and that `second`, replaced by `by`.
fn replace_pairs(chars: &Vec<char>, first: char, second: char, by: char) -> (out: Vec<char>)
    ensures
        out@ == replaced(chars@, first, second, by),
{
    let mut out: Vec<char> = Vec::new();
    let mut i: usize = 0;
    assert(chars@.skip(0) =~= chars@);
    while i < chars.len()
        invariant
            i <= chars@.len(),
            replaced(chars@, first, second, by) == out@ + replaced(
                chars@.skip(i as int),
                first,
                second,
                by,
            ),
        decreases chars@.len() - i,
    {
        let ghost rest = chars@.skip(i as int);
        if chars.len() - i > 1 && chars[i] == first && chars[i + 1] == second {
            out.push(by);
            i = i + 2;
            assert(rest.skip(2) =~= chars@.skip(i as int));
        } else {
            out.push(chars[i]);
            i = i + 1;
            assert(rest.drop_first() =~= chars@.skip(i as int));
        }
        assert(replaced(chars@, first, second, by) =~= out@ + replaced(
            chars@.skip(i as int),
            first,
            second,
            by,
        ));
    }
    assert(chars@.skip(i as int) =~= Seq::<char>::empty());
    assert(replaced(chars@, first, second, by) =~= out@);
    out
}

fn unescape(token: &str) -> (out: String)
    ensures
        out@ == unescaped(token@),
{
    let chars = text::chars_of(token);
    let slashes = replace_pairs(&chars, '~', '1', '/');
    let tildes = replace_pairs(&slashes, '~', '0', '~');
    let out = text::text_between(&tildes, 0, tildes.len());
    assert(out@ =~= tildes@);
    out
}

impl Json {
    /// One step of a JSON pointer.
    fn child(&self, token: &str) -> (found: Option<&Json>)
        ensures
            match found {
                Some(json) => step(self.tree(), token@) == Some(json.tree()),
                None => step(self.tree(), token@) is None,
            },
    {
        match self {
            Json::Object(fields) => {
                let ghost all = self.tree()->Object_0;
                assert(all =~= field_trees(fields@));
                let mut i: usize = 0;
                while i < fields.len()
                    invariant
                        i <= fields@.len(),
                        all == field_trees(fields@),
                        forall|k: int| 0 <= k < i ==> (#[trigger] all[k]).0 != token@,
                        self.tree() == JsonTree::Object(all),
                    decreases fields@.len() - i,
                {
                    assert(all[i as int] == (fields@[i as int].0@, fields@[i as int].1.tree()));
                    if text::same_text(fields[i].0.as_str(), token) {
                        proof {
                            lemma_member_at(all, token@, i as int);
                        }
                        return Some(&fields[i].1);
                    }
                    i = i + 1;
                }
                proof {
                    lemma_member_at(all, token@, i as int);
                }
                None
            },
            Json::Array(items) => {
                let ghost all = self.tree()->Array_0;
                assert(all =~= trees(items@));
                let chars = text::chars_of(token);
                if chars.len() > 1 && chars[0] == '0' {
                    return None;
                }
                if chars.len() > 0 && chars[0] == '+' {
                    assert(!text::is_digit(token@[0]));
                    return None;
                }
                let len: usize = items.len();
                match text::parse_u64(token) {
                    Some(n) => {
                        if n < len as u64 {
                            assert(all[n as int] == items@[n as int].tree());
                            Some(&items[n as usize])
                        } else {
                            None
                        }
                    },
                    None => None,
                }
            },
            _ => None,
        }
    }

    /// What the JSON pointer `path` leads to.
    pub fn pointer(&self, path: &str) -> (found: Option<&Json>)
        ensures
            match found {
                Some(json) => tree_at(self.tree(), path@) == Some(json.tree()),
                None => tree_at(self.tree(), path@) is None,
            },
    {
        if path.is_empty() {
            return Some(self);
        }
        let chars = text::chars_of(path);
        if chars[0] != '/' {
            return None;
        }
        let parts = text::split_text(path, '/');
        let ghost tokens = text::split_on(path@, '/').drop_first().map_values(
            |t: Seq<char>| unescaped(t),
        );
        let mut at = self;
        let mut i: usize = 1;
        assert(tokens.take(0) =~= Seq::<Seq<char>>::empty());
        while i < parts.len()
            invariant
                1 <= i <= parts@.len(),
                text::texts(parts@) == text::split_on(path@, '/'),
                tokens == text::split_on(path@, '/').drop_first().map_values(
                    |t: Seq<char>| unescaped(t),
                ),
                walk(self.tree(), tokens.take(i - 1)) == Some(at.tree()),
                path@.len() > 0,
                path@[0] == '/',
                tree_at(self.tree(), path@) == walk(self.tree(), tokens),
            decreases parts@.len() - i,
        {
            let token = unescape(parts[i].as_str());
            assert(text::texts(parts@)[i as int] == parts@[i as int]@);
            assert(token@ == tokens[i - 1]);
            assert(tokens.take(i as int).drop_last() =~= tokens.take(i - 1));
            assert(tokens.take(i as int).last() == token@);
            match at.child(token.as_str()) {
                Some(found) => {
                    at = found;
                },
                None => {
                    proof {
                        lemma_walk_stops(self.tree(), tokens, i as int);
                    }
                    return None;
                },
            }
            i = i + 1;
        }
        assert(text::texts(parts@).len() == parts@.len());
        assert(tokens.take(tokens.len() as int) =~= tokens);
        Some(at)
    }

    pub fn as_str(&self) -> (found: Option<&str>)
        ensures
            match found {
                Some(s) => text_in(self.tree()) == Some(s@),
                None => text_in(self.tree()) is None,
            },
    {
        match self {
            Json::Str(s) => Some(s.as_str()),
            _ => None,
        }
    }

    pub fn as_bool(&self) -> (found: Option<bool>)
        ensures
            match found {
                Some(b) => self.tree() == JsonTree::Bool(b),
                None => !(self.tree() is Bool),
            },
    {
        match self {
            Json::Bool(b) => Some(*b),
            _ => None,
        }
    }

    pub fn as_u64(&self) -> (found: Option<u64>)
        ensures
            found == u64_in(self.tree()),
    {
        match self {
            Json::Number(n) => n.unsigned,
            _ => None,
        }
    }

    pub fn as_i64(&self) -> (found: Option<i64>)
        ensures
            found == i64_in(self.tree()),
    {
        match self {
            Json::Number(n) => n.signed,
            _ => None,
        }
    }

    pub fn as_double(&self) -> (found: Option<Double>)
        ensures
            found == match self.tree() {
                JsonTree::Number(n) => n.double,
                _ => None,
            },
    {
        match self {
            Json::Number(n) => n.double,
            _ => None,
        }
    }

    pub fn as_array(&self) -> (found: Option<&Vec<Json>>)
        ensures
            match found {
                Some(items) => self.tree() == JsonTree::Array(trees(items@)),
                None => !(self.tree() is Array),
            },
    {
        match self {
            Json::Array(items) => {
                assert(self.tree()->Array_0 =~= trees(items@));
                Some(items)
            },
            _ => None,
        }
    }

    pub fn as_object(&self) -> (found: Option<&Vec<(String, Json)>>)
        ensures
            match found {
                Some(fields) => self.tree() == JsonTree::Object(field_trees(fields@)),
                None => !(self.tree() is Object),
            },
    {
        match self {
            Json::Object(fields) => {
                assert(self.tree()->Object_0 =~= field_trees(fields@));
                Some(fields)
            },
            _ => None,
        }
    }

    /// The entries of the array at `path`, if there is one.
    pub fn array(&self, path: &str) -> (found: Option<&Vec<Json>>)
        ensures
            match found {
                Some(items) => array_at(self.tree(), path@) == Some(trees(items@)),
                None => array_at(self.tree(), path@) is None,
            },
    {
        match self.pointer(path) {
            Some(json) => json.as_array(),
            None => None,
        }
    }

    /// The entries of the array at `path`; none where there is no array.
    pub fn entries(&self, path: &str) -> (found: &[Json])
        ensures
            trees(found@) == entries_at(self.tree(), path@),
    {
        match self.array(path) {
            Some(items) => items.as_slice(),
            None => {
                assert(trees(Seq::<Json>::empty()) =~= Seq::<JsonTree>::empty());
                &[]
            },
        }
    }}

/// A walk that fails after some of its steps fails as a whole.
proof fn lemma_walk_stops(tree: JsonTree, tokens: Seq<Seq<char>>, n: int)
    requires
        0 <= n <= tokens.len(),
        walk(tree, tokens.take(n)) is None,
    ensures
        walk(tree, tokens) is None,
    decreases tokens.len(),
{
    if n < tokens.len() {
        assert(tokens.drop_last().take(n) =~= tokens.take(n));
        lemma_walk_stops(tree, tokens.drop_last(), n);
    } else {
        assert(tokens.take(n) =~= tokens);
    }
}

/// The entries of the array at `path` of a document that may be missing.
pub fn opt_entries<'a>(json: Option<&'a Json>, path: &str) -> (found: &'a [Json])
    ensures
        trees(found@) == opt_entries_at(opt_tree(json), path@),
{
    match json {
        Some(json) => json.entries(path),
        None => {
            assert(trees(Seq::<Json>::empty()) =~= Seq::<JsonTree>::empty());
            &[]
        },
    }
}

/// The signed numbers among the entries.
pub fn ints_of(items: &[Json]) -> (out: Vec<i64>)
    ensures
        out@ == ints_among(trees(items@)),
{
    let ghost all = trees(items@);
    let mut out: Vec<i64> = Vec::new();
    let mut i: usize = 0;
    while i < items.len()
        invariant
            i <= items@.len(),
            all == trees(items@),
            out@ == ints_among(all.take(i as int)),
        decreases items@.len() - i,
    {
        assert(all.take(i + 1).drop_last() =~= all.take(i as int));
        if let Some(n) = items[i].as_i64() {
            out.push(n);
        }
        i = i + 1;
    }
    assert(all.take(all.len() as int) =~= all);
    out
}

/// The texts among the entries.
pub fn texts_of(items: &[Json]) -> (out: Vec<String>)
    ensures
        text::texts(out@) == texts_among(trees(items@)),
{
    let ghost all = trees(items@);
    let mut out: Vec<String> = Vec::new();
    let mut i: usize = 0;
    assert(text::texts(out@) =~= Seq::<Seq<char>>::empty());
    while i < items.len()
        invariant
            i <= items@.len(),
            all == trees(items@),
            text::texts(out@) == texts_among(all.take(i as int)),
        decreases items@.len() - i,
    {
        assert(all.take(i + 1).drop_last() =~= all.take(i as int));
        let ghost before = text::texts(out@);
        if let Some(s) = items[i].as_str() {
            out.push(s.to_owned());
            assert(text::texts(out@) =~= before.push(s@));
        }
        i = i + 1;
    }
    assert(all.take(all.len() as int) =~= all);
    out
}

} // verus!
