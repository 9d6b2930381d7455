//! A model of JSON documents, as manifests hold them.
//!
//! A document is parsed once (through the trusted boundary at the bottom of
//! this file), held as a [`Json`] value, rewritten by verified code, and
//! rendered back to text only when a manifest is persisted.  Numbers are
//! carried opaquely, never interpreted: a manifest rewrite touches only
//! string-valued dependency entries and preserves everything else.
use vstd::prelude::*;

verus! {

broadcast use
    vstd::std_specs::vec::axiom_vec_index_decreases,
    vstd::std_specs::vec::axiom_vec_decreases_to_view,
    vstd::seq::axiom_seq_index_decreases,
    vstd::string::group_string_axioms;

/// Mathematical form of a JSON document.  Object entries keep their order;
/// a lookup takes the first entry with the asked-for key, as the underlying
/// document maps (which cannot hold a key twice) do.
pub enum JsonData {
    Null,
    Bool(bool),
    /// A number, kept as the opaque parsed value; the library never reads it.
    Num(serde_json::Number),
    Str(Seq<char>),
    Arr(Seq<JsonData>),
    Obj(Seq<(Seq<char>, JsonData)>),
}

/// A JSON document the library can hold and rewrite.
#[derive(Debug)]
pub enum Json {
    Null,
    Bool(bool),
    /// A number, kept as the opaque parsed value; the library never reads it.
    Num(serde_json::Number),
    Str(String),
    Arr(Vec<Json>),
    Obj(Vec<(String, Json)>),
}

/// The serde_json document type, carried opaquely through the library.
#[verifier::external_type_specification]
#[verifier::external_body]
pub struct ExValue(serde_json::Value);

/// The serde_json number type, carried opaquely inside documents.
#[verifier::external_type_specification]
#[verifier::external_body]
pub struct ExNumber(serde_json::Number);

/// The serde_json error type, returned by the parsing boundary.
#[verifier::external_type_specification]
#[verifier::external_body]
pub struct ExJsonError(serde_json::Error);

/// View of a sequence of exec object entries.
pub open spec fn kv_view(es: Seq<(String, Json)>) -> Seq<(Seq<char>, JsonData)>
    decreases es,
{
    Seq::new(
        es.len(),
        |i: int|
            if 0 <= i < es.len() {
                (es[i].0@, es[i].1@)
            } else {
                (Seq::empty(), JsonData::Null)
            },
    )
}

/// View of a sequence of exec array elements.
pub open spec fn arr_view(es: Seq<Json>) -> Seq<JsonData>
    decreases es,
{
    Seq::new(
        es.len(),
        |i: int|
            if 0 <= i < es.len() {
                es[i]@
            } else {
                JsonData::Null
            },
    )
}

impl View for Json {
    type V = JsonData;

    open spec fn view(&self) -> JsonData
        decreases self,
    {
        match self {
            Json::Null => JsonData::Null,
            Json::Bool(b) => JsonData::Bool(*b),
            Json::Num(n) => JsonData::Num(*n),
            Json::Str(s) => JsonData::Str(s@),
            Json::Arr(items) => JsonData::Arr(arr_view(items@)),
            Json::Obj(entries) => JsonData::Obj(kv_view(entries@)),
        }
    }
}

impl DeepView for Json {
    type V = JsonData;

    open spec fn deep_view(&self) -> JsonData {
        self.view()
    }
}

/// The value of the first entry with the given key, if any.
pub open spec fn lookup(es: Seq<(Seq<char>, JsonData)>, key: Seq<char>) -> Option<JsonData>
    decreases es.len(),
{
    if es.len() == 0 {
        None
    } else if es.first().0 == key {
        Some(es.first().1)
    } else {
        lookup(es.drop_first(), key)
    }
}

/// The entries with the first `key` entry's value replaced by `value`;
/// unchanged when no entry has that key.
pub open spec fn set_first(
    es: Seq<(Seq<char>, JsonData)>,
    key: Seq<char>,
    value: JsonData,
) -> Seq<(Seq<char>, JsonData)>
    decreases es.len(),
{
    if es.len() == 0 {
        es
    } else if es.first().0 == key {
        seq![(es.first().0, value)] + es.drop_first()
    } else {
        seq![es.first()] + set_first(es.drop_first(), key, value)
    }
}

/// The entries of a document that is an object.
pub open spec fn obj_entries(d: JsonData) -> Option<Seq<(Seq<char>, JsonData)>> {
    match d {
        JsonData::Obj(es) => Some(es),
        _ => None,
    }
}

/// The entries of the document's `dependencies` object, when the document
/// is an object whose first `dependencies` entry is itself an object.
pub open spec fn dep_entries(d: JsonData) -> Option<Seq<(Seq<char>, JsonData)>> {
    match obj_entries(d) {
        Some(top) => match lookup(top, "dependencies"@) {
            Some(JsonData::Obj(es)) => Some(es),
            _ => None,
        },
        None => None,
    }
}

/// The declared version descriptor of a dependency: present exactly when
/// the `dependencies` object holds a plain string under that name.
pub open spec fn dep_string(d: JsonData, name: Seq<char>) -> Option<Seq<char>> {
    match dep_entries(d) {
        Some(es) => match lookup(es, name) {
            Some(JsonData::Str(s)) => Some(s),
            _ => None,
        },
        None => None,
    }
}

/// Whether the document declares a dependency of that name (a string
/// entry; entries of any other shape do not count).
pub open spec fn declares(d: JsonData, name: Seq<char>) -> bool {
    dep_string(d, name) is Some
}

/// The value of a top-level field of an object document.
pub open spec fn obj_field(d: JsonData, key: Seq<char>) -> Option<JsonData> {
    match obj_entries(d) {
        Some(es) => lookup(es, key),
        None => None,
    }
}

/// The document's `name` field, when it is a string of an object document.
pub open spec fn manifest_name(d: JsonData) -> Option<Seq<char>> {
    match obj_entries(d) {
        Some(top) => match lookup(top, "name"@) {
            Some(JsonData::Str(s)) => Some(s),
            _ => None,
        },
        None => None,
    }
}

/// The document with the declared dependency `name` rewritten to `value`;
/// the document is unchanged when it does not declare `name`.
pub open spec fn set_dep(d: JsonData, name: Seq<char>, value: Seq<char>) -> JsonData {
    if declares(d, name) {
        JsonData::Obj(
            set_first(
                obj_entries(d)->Some_0,
                "dependencies"@,
                JsonData::Obj(set_first(dep_entries(d)->Some_0, name, JsonData::Str(value))),
            ),
        )
    } else {
        d
    }
}

/// Rewriting one key touches no other lookup, and hits exactly when the
/// key was present.
pub proof fn lemma_lookup_set_first(
    es: Seq<(Seq<char>, JsonData)>,
    key: Seq<char>,
    value: JsonData,
    m: Seq<char>,
)
    ensures
        lookup(set_first(es, key, value), m) == if m == key && lookup(es, key) is Some {
            Some(value)
        } else {
            lookup(es, m)
        },
    decreases es.len(),
{
    if es.len() == 0 {
    } else if es.first().0 == key {
        let r = seq![(es.first().0, value)] + es.drop_first();
        assert(r.first() == (es.first().0, value));
        assert(r.drop_first() =~= es.drop_first());
    } else {
        let r = seq![es.first()] + set_first(es.drop_first(), key, value);
        assert(r.first() == es.first());
        assert(r.drop_first() =~= set_first(es.drop_first(), key, value));
        lemma_lookup_set_first(es.drop_first(), key, value, m);
    }
}

/// Where the first match sits at index `i`, the rewrite is an update there.
pub proof fn lemma_set_first_is_update(
    es: Seq<(Seq<char>, JsonData)>,
    key: Seq<char>,
    value: JsonData,
    i: int,
)
    requires
        0 <= i < es.len(),
        es[i].0 == key,
        forall|j: int| 0 <= j < i ==> es[j].0 != key,
    ensures
        set_first(es, key, value) == es.update(i, (es[i].0, value)),
    decreases es.len(),
{
    if i == 0 {
        assert(set_first(es, key, value) =~= es.update(0, (es[0].0, value)));
    } else {
        assert(es.first().0 != key);
        lemma_set_first_is_update(es.drop_first(), key, value, i - 1);
        assert(es.drop_first()[i - 1] == es[i]);
        assert(set_first(es, key, value) =~= es.update(i, (es[i].0, value)));
    }
}

/// The first match at index `i` is what lookup answers.
pub proof fn lemma_lookup_first_match(es: Seq<(Seq<char>, JsonData)>, key: Seq<char>, i: int)
    requires
        0 <= i < es.len(),
        es[i].0 == key,
        forall|j: int| 0 <= j < i ==> es[j].0 != key,
    ensures
        lookup(es, key) == Some(es[i].1),
    decreases es.len(),
{
    if i == 0 {
    } else {
        lemma_lookup_first_match(es.drop_first(), key, i - 1);
    }
}

/// With no entry of that key, lookup finds nothing.
pub proof fn lemma_lookup_absent(es: Seq<(Seq<char>, JsonData)>, key: Seq<char>)
    requires
        forall|j: int| 0 <= j < es.len() ==> es[j].0 != key,
    ensures
        lookup(es, key) is None,
    decreases es.len(),
{
    if es.len() == 0 {
    } else {
        lemma_lookup_absent(es.drop_first(), key);
    }
}

/// A dependency rewrite changes exactly the asked-for declared entry and
/// no other, and never changes which names are declared.
pub proof fn lemma_set_dep_dep_string(d: JsonData, n: Seq<char>, v: Seq<char>, m: Seq<char>)
    ensures
        dep_string(set_dep(d, n, v), m) == if declares(d, n) && m == n {
            Some(v)
        } else {
            dep_string(d, m)
        },
        declares(set_dep(d, n, v), m) == declares(d, m),
{
    if declares(d, n) {
        let top = obj_entries(d)->Some_0;
        let inner = dep_entries(d)->Some_0;
        let inner1 = set_first(inner, n, JsonData::Str(v));
        lemma_lookup_set_first(top, "dependencies"@, JsonData::Obj(inner1), "dependencies"@);
        lemma_lookup_set_first(inner, n, JsonData::Str(v), m);
    }
}

/// A dependency rewrite leaves the manifest's name untouched.
pub proof fn lemma_set_dep_name(d: JsonData, n: Seq<char>, v: Seq<char>)
    ensures
        manifest_name(set_dep(d, n, v)) == manifest_name(d),
{
    reveal_strlit("name");
    reveal_strlit("dependencies");
    if declares(d, n) {
        let top = obj_entries(d)->Some_0;
        let inner = dep_entries(d)->Some_0;
        let inner1 = set_first(inner, n, JsonData::Str(v));
        assert("name"@.len() == 4);
        assert("dependencies"@.len() == 12);
        assert("name"@ != "dependencies"@);
        lemma_lookup_set_first(top, "dependencies"@, JsonData::Obj(inner1), "name"@);
    }
}

/// Relies on serde_json::Number's derived `Clone`: the copy is the same
/// number.
pub assume_specification[ <serde_json::Number as Clone>::clone ](
    n: &serde_json::Number,
) -> (r: serde_json::Number)
    ensures
        r == *n,
;

/// Relies on serde_json::Value's derived `Clone`: the copy is the same
/// document.
pub assume_specification[ <serde_json::Value as Clone>::clone ](
    v: &serde_json::Value,
) -> (r: serde_json::Value)
    ensures
        r == *v,
;

/// What a parsed document holds, as the library's mathematical form; the
/// name stands for the conversion read off a `serde_json::Value`, object
/// entries in the order the document map iterates them.
pub uninterp spec fn value_data(v: serde_json::Value) -> JsonData;

/// What parsing a text yields: the JSON grammar fixes, for each text,
/// whether it parses and to which document.
pub uninterp spec fn parsed_json(text: Seq<char>) -> Option<JsonData>;

/// The pretty-printed text of a document; a function of the document's
/// contents alone.
pub uninterp spec fn pretty_of(d: JsonData) -> Seq<char>;

/// Relies on serde_json::from_str::<Value>: the call parses the text into
/// the document it denotes, or fails exactly when the text is not JSON.
#[verifier::external_body]
pub fn parse_value(text: &str) -> (r: Result<serde_json::Value, serde_json::Error>)
    ensures
        (r is Ok) == (parsed_json(text@) is Some),
        r matches Ok(v) ==> parsed_json(text@) == Some(value_data(v)),
{
    serde_json::from_str(text)
}

/// Converts a parsed document into the library's own form, one variant
/// arm each; numbers are carried over without interpretation.
#[verifier::external_body]
pub fn value_to_json(v: &serde_json::Value) -> (j: Json)
    ensures
        j@ == value_data(*v),
{
    match v {
        serde_json::Value::Null => Json::Null,
        serde_json::Value::Bool(b) => Json::Bool(*b),
        serde_json::Value::Number(n) => Json::Num(n.clone()),
        serde_json::Value::String(s) => Json::Str(s.clone()),
        serde_json::Value::Array(items) => Json::Arr(items.iter().map(value_to_json).collect()),
        serde_json::Value::Object(map) => Json::Obj(
            map.iter().map(|(k, val)| (k.clone(), value_to_json(val))).collect(),
        ),
    }
}

/// Relies on serde_json::Value::get_mut and assignment: rewrites the
/// string entry `name` of the document's `dependencies` object to `value`
/// and touches nothing else; a document of any other shape is left as it
/// is, exactly as `set_dep` says.
#[verifier::external_body]
pub fn set_dep_in_value(v: &mut serde_json::Value, name: &str, value: &str)
    ensures
        value_data(*final(v)) == set_dep(value_data(*old(v)), name@, value@),
{
    if let Some(deps) = v.get_mut("dependencies") {
        if let Some(slot) = deps.get_mut(name) {
            if let serde_json::Value::String(s) = slot {
                *s = value.to_string();
            }
        }
    }
}

/// Relies on serde_json::to_string_pretty, which cannot fail on a
/// document value: string-keyed maps and finite numbers only.  The
/// serializer and parser are lossless companions on document values —
/// maps stay string-keyed and ordered, and with the crate's
/// correctly-rounding float parser (the float_roundtrip feature, which
/// this build enables) every number reparses to itself — so the pretty
/// text parses back to the very same document.
#[verifier::external_body]
pub fn to_pretty(v: &serde_json::Value) -> (s: String)
    ensures
        s@ == pretty_of(value_data(*v)),
        parsed_json(s@) == Some(value_data(*v)),
{
    serde_json::to_string_pretty(v).expect("a document value always serializes")
}

/// A copy of the document, equal under the view.
#[verifier::loop_isolation(false)]
pub fn clone_json(j: &Json) -> (r: Json)
    ensures
        r@ == j@,
    decreases j,
{
    match j {
        Json::Null => Json::Null,
        Json::Bool(b) => Json::Bool(*b),
        Json::Num(n) => Json::Num(n.clone()),
        Json::Str(s) => Json::Str(s.clone()),
        Json::Arr(items) => {
            let mut out: Vec<Json> = Vec::new();
            let mut i: usize = 0;
            while i < items.len()
                invariant
                    i <= items@.len(),
                    out@.len() == i as nat,
                    forall|k: int| 0 <= k < i ==> out@[k]@ == items@[k]@,
                decreases items@.len() - i,
            {
                proof {
                    assert(decreases_to!(*j => j->Arr_0));
                    assert(decreases_to!(j->Arr_0 => j->Arr_0@));
                    assert(decreases_to!(items@ => items@[i as int]));
                    assert(decreases_to!(*j => items@[i as int]));
                }
                out.push(clone_json(&items[i]));
                i = i + 1;
            }
            proof {
                assert(arr_view(out@) =~= arr_view(items@));
            }
            Json::Arr(out)
        },
        Json::Obj(entries) => {
            let mut out: Vec<(String, Json)> = Vec::new();
            let mut i: usize = 0;
            while i < entries.len()
                invariant
                    i <= entries@.len(),
                    out@.len() == i as nat,
                    forall|k: int|
                        0 <= k < i ==> out@[k].0@ == entries@[k].0@ && out@[k].1@
                            == entries@[k].1@,
                decreases entries@.len() - i,
            {
                proof {
                    assert(decreases_to!(*j => j->Obj_0));
                    assert(decreases_to!(j->Obj_0 => j->Obj_0@));
                    assert(decreases_to!(entries@ => entries@[i as int]));
                    assert(decreases_to!(entries@[i as int] => entries@[i as int].1));
                    assert(decreases_to!(*j => entries@[i as int].1));
                }
                let key = entries[i].0.clone();
                let val = clone_json(&entries[i].1);
                out.push((key, val));
                i = i + 1;
            }
            proof {
                assert(kv_view(out@) =~= kv_view(entries@));
            }
            Json::Obj(out)
        },
    }
}

/// The index of the first entry with the given key, if any, tied to what
/// `lookup` answers on the entries' view.
pub fn obj_find(entries: &Vec<(String, Json)>, key: &str) -> (r: Option<usize>)
    ensures
        match r {
            Some(i) => {
                &&& (i as int) < entries@.len()
                &&& entries@[i as int].0@ == key@
                &&& forall|j: int| 0 <= j < i ==> entries@[j].0@ != key@
                &&& lookup(kv_view(entries@), key@) == Some(entries@[i as int].1@)
            },
            None => lookup(kv_view(entries@), key@) is None,
        },
{
    let mut i: usize = 0;
    while i < entries.len()
        invariant
            i <= entries@.len(),
            forall|j: int| 0 <= j < i ==> entries@[j].0@ != key@,
        decreases entries@.len() - i,
    {
        if crate::util::str_eq(entries[i].0.as_str(), key) {
            proof {
                lemma_lookup_first_match(kv_view(entries@), key@, i as int);
            }
            return Some(i);
        }
        i = i + 1;
    }
    proof {
        lemma_lookup_absent(kv_view(entries@), key@);
    }
    None
}

/// The entries with the one at `idx` rewritten to hold `value` under its
/// old key; everything else is copied unchanged.
pub fn entries_with_value(entries: &Vec<(String, Json)>, idx: usize, value: Json) -> (r: Vec<
    (String, Json),
>)
    requires
        (idx as int) < entries@.len(),
    ensures
        kv_view(r@) == kv_view(entries@).update(
            idx as int,
            (entries@[idx as int].0@, value@),
        ),
{
    let mut r: Vec<(String, Json)> = Vec::new();
    let mut i: usize = 0;
    while i < idx
        invariant
            i <= idx,
            (idx as int) < entries@.len(),
            r@.len() == i as nat,
            forall|k: int| 0 <= k < i ==> r@[k].0@ == entries@[k].0@ && r@[k].1@ == entries@[k].1@,
        decreases idx - i,
    {
        let key = entries[i].0.clone();
        let val = clone_json(&entries[i].1);
        r.push((key, val));
        i = i + 1;
    }
    let ghost value_view = value@;
    let n = entries.len();
    r.push((entries[idx].0.clone(), value));
    let mut i: usize = idx + 1;
    while i < entries.len()
        invariant
            idx < i,
            i <= entries@.len(),
            r@.len() == i as nat,
            forall|k: int|
                0 <= k < i && k != idx ==> r@[k].0@ == entries@[k].0@ && r@[k].1@
                    == entries@[k].1@,
            r@[idx as int].0@ == entries@[idx as int].0@,
            r@[idx as int].1@ == value_view,
        decreases entries@.len() - i,
    {
        let key = entries[i].0.clone();
        let val = clone_json(&entries[i].1);
        r.push((key, val));
        i = i + 1;
    }
    proof {
        assert(kv_view(r@) =~= kv_view(entries@).update(
            idx as int,
            (entries@[idx as int].0@, value_view),
        ));
    }
    r
}

/// The declared version descriptor under `name`, read from the document:
/// present exactly when the document's `dependencies` object holds a plain
/// string entry of that name.
pub fn json_dep_string<'a>(doc: &'a Json, name: &str) -> (r: Option<&'a String>)
    ensures
        match r {
            Some(s) => dep_string(doc@, name@) == Some(s@),
            None => dep_string(doc@, name@) is None,
        },
{
    match doc {
        Json::Obj(top) => match obj_find(top, "dependencies") {
            Some(i) => match &top[i].1 {
                Json::Obj(inner) => match obj_find(inner, name) {
                    Some(k) => match &inner[k].1 {
                        Json::Str(s) => Some(s),
                        _ => None,
                    },
                    None => None,
                },
                _ => None,
            },
            None => None,
        },
        _ => None,
    }
}

/// The value of a top-level field of an object document; absent when
/// the document is no object or has no such field.
pub fn json_obj_field<'a>(doc: &'a Json, key: &str) -> (r: Option<&'a Json>)
    ensures
        match r {
            Some(v) => obj_field(doc@, key@) == Some(v@),
            None => obj_field(doc@, key@) is None,
        },
{
    match doc {
        Json::Obj(top) => match obj_find(top, key) {
            Some(i) => Some(&top[i].1),
            None => None,
        },
        _ => None,
    }
}

/// The document's `name` field, when it is a string field of an object.
pub fn json_manifest_name<'a>(doc: &'a Json) -> (r: Option<&'a String>)
    ensures
        match r {
            Some(s) => manifest_name(doc@) == Some(s@),
            None => manifest_name(doc@) is None,
        },
{
    match doc {
        Json::Obj(top) => match obj_find(top, "name") {
            Some(i) => match &top[i].1 {
                Json::Str(s) => Some(s),
                _ => None,
            },
            None => None,
        },
        _ => None,
    }
}

/// The document with the declared dependency `name` rewritten to `value`,
/// and whether the rewrite happened; the copy is unchanged when the
/// document does not declare `name`.
pub fn json_set_dep(doc: &Json, name: &str, value: &str) -> (r: (Json, bool))
    ensures
        r.1 == declares(doc@, name@),
        r.0@ == set_dep(doc@, name@, value@),
{
    match doc {
        Json::Obj(top) => match obj_find(top, "dependencies") {
            Some(i) => {
                let replacement: Option<Vec<(String, Json)>> = match &top[i].1 {
                    Json::Obj(inner) => match obj_find(inner, name) {
                        Some(k) => match &inner[k].1 {
                            Json::Str(_) => {
                                proof {
                                    lemma_set_first_is_update(
                                        kv_view(inner@),
                                        name@,
                                        JsonData::Str(value@),
                                        k as int,
                                    );
                                }
                                Some(
                                    entries_with_value(
                                        inner,
                                        k,
                                        Json::Str(value.to_owned()),
                                    ),
                                )
                            },
                            _ => None,
                        },
                        None => None,
                    },
                    _ => None,
                };
                match replacement {
                    Some(new_inner) => {
                        proof {
                            lemma_set_first_is_update(
                                kv_view(top@),
                                "dependencies"@,
                                JsonData::Obj(kv_view(new_inner@)),
                                i as int,
                            );
                        }
                        let new_top = entries_with_value(top, i, Json::Obj(new_inner));
                        (Json::Obj(new_top), true)
                    },
                    None => (clone_json(doc), false),
                }
            },
            None => (clone_json(doc), false),
        },
        _ => (clone_json(doc), false),
    }
}

} // verus!
