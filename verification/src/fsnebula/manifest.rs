//! The repository manifest as JSON: how a manifest is written as a JSON
//! value and read from one. A member that is optional may be absent or
//! `null`; members that the manifest does not name are passed over.

use vstd::prelude::*;
use vstd::utf8::encode_utf8;
use crate::common::{SHA256Checksum, Stability, lemma_stability_round_trip};
use crate::fsnebula::db::texts;
use crate::fsnebula::json::{
    Json, JsonView, Member, field, items, lemma_list_view_index, list_view, members_view, text,
};
use crate::fsnebula::structs::{
    DependencyView, ExecutableView, FSNDependency, FSNExecutable, FSNMod, FSNModFile, FSNPackage,
    FSNRelType, FSNZipFile, ModFileView, ModView, PackageView, Repo, RepoView, ZipFileView,
    checksum_hex, dependency_views, executable_views, lemma_hex_text_reads_back,
    lemma_rel_word_round_trip, mod_file_views, optional, package_views, parse_checksum,
    release_views, zip_file_views,
};
use crate::hexcode::{hex_bytes, hex_text, is_hex};

verus! {

/// An optional text as JSON: the text, or `null`.
pub open spec fn optional_json(value: Option<Seq<char>>) -> JsonView {
    match value {
        Some(t) => JsonView::Text(t),
        None => JsonView::Null,
    }
}

/// The value is a text or `null`.
pub open spec fn is_optional(json: JsonView) -> bool {
    json is Text || json is Null
}

/// The optional text that a value is.
pub open spec fn read_optional(json: JsonView) -> Option<Seq<char>> {
    match json {
        JsonView::Text(t) => Some(t),
        _ => None,
    }
}

/// A list of texts as JSON.
pub open spec fn texts_json(values: Seq<Seq<char>>) -> JsonView {
    JsonView::List(Seq::new(values.len(), |i: int| JsonView::Text(values[i])))
}

/// The value is a list of texts.
pub open spec fn is_texts(json: JsonView) -> bool {
    json is List && forall|i: int| 0 <= i < items(json).len() ==> (#[trigger] items(json)[i]) is Text
}

/// The texts that a list holds, in order.
pub open spec fn read_texts(json: JsonView) -> Seq<Seq<char>> {
    Seq::new(items(json).len(), |i: int| text(items(json)[i]))
}

/// Adds a member to the members of an object.
fn put(members: &mut Vec<Member>, key: &str, value: Json)
    ensures
        members_view(final(members)@) == members_view(old(members)@).insert(key@, value@),
{
    let ghost before = members@;
    members.push(Member { key: key.to_owned(), value });
    assert(members@.drop_last() == before);
}

/// Adds a value to the items of a list.
fn append(list: &mut Vec<Json>, value: Json)
    ensures
        list_view(final(list)@) == list_view(old(list)@).push(value@),
{
    let ghost before = list@;
    list.push(value);
    assert(list@.drop_last() == before);
}

/// A text as JSON.
fn text_to_json(value: &String) -> (json: Json)
    ensures
        json@ == JsonView::Text(value@),
{
    Json::Text(value.clone())
}

/// An optional text as JSON.
fn optional_to_json(value: &Option<String>) -> (json: Json)
    ensures
        json@ == optional_json(optional(*value)),
{
    match value {
        Some(t) => Json::Text(t.clone()),
        None => Json::Null,
    }
}

/// A list of texts as JSON.
fn texts_to_json(values: &Vec<String>) -> (json: Json)
    ensures
        json@ == texts_json(texts(values@)),
{
    let mut list: Vec<Json> = Vec::new();
    let mut i: usize = 0;
    while i < values.len()
        invariant
            i <= values@.len(),
            list_view(list@) == Seq::new(i as nat, |k: int| JsonView::Text(texts(values@)[k])),
        decreases values.len() - i,
    {
        let ghost before = list_view(list@);
        append(&mut list, Json::Text(values[i].clone()));
        assert(list_view(list@) =~= Seq::new(
            (i + 1) as nat,
            |k: int| JsonView::Text(texts(values@)[k]),
        ));
        i = i + 1;
    }
    Json::List(list)
}

/// The text of the member `key`, if the member is a text.
fn text_at(json: &Json, key: &str) -> (found: Option<String>)
    ensures
        found is Some <==> field(json@, key@) is Text,
        found matches Some(t) ==> t@ == text(field(json@, key@)),
{
    match json.get(key) {
        Some(value) => match value.as_text() {
            Some(t) => Some(t.clone()),
            None => None,
        },
        None => None,
    }
}

/// The optional text of the member `key`, if the member is a text, `null`
/// or absent.
fn optional_at(json: &Json, key: &str) -> (found: Option<Option<String>>)
    ensures
        found is Some <==> is_optional(field(json@, key@)),
        found matches Some(t) ==> optional(t) == read_optional(field(json@, key@)),
{
    match json.get(key) {
        Some(Json::Text(t)) => Some(Some(t.clone())),
        Some(Json::Null) => Some(None),
        Some(_) => None,
        None => Some(None),
    }
}

/// The texts of a list, if every item is a text.
fn texts_of(list: &Vec<Json>) -> (found: Option<Vec<String>>)
    ensures
        found is Some <==> is_texts(JsonView::List(list_view(list@))),
        found matches Some(ts) ==> texts(ts@) == read_texts(JsonView::List(list_view(list@))),
{
    proof {
        lemma_list_view_index(list@);
    }
    let ghost whole = JsonView::List(list_view(list@));
    let mut out: Vec<String> = Vec::new();
    let mut i: usize = 0;
    while i < list.len()
        invariant
            i <= list@.len(),
            whole == JsonView::List(list_view(list@)),
            list_view(list@).len() == list@.len(),
            forall|k: int| 0 <= k < list@.len() ==> #[trigger] list_view(list@)[k] == list@[k]@,
            out@.len() == i,
            forall|k: int| 0 <= k < i ==> (#[trigger] items(whole)[k]) is Text,
            forall|k: int| 0 <= k < i ==> (#[trigger] out@[k])@ == text(items(whole)[k]),
        decreases list.len() - i,
    {
        match list[i].as_text() {
            Some(t) => {
                out.push(t.clone());
            },
            None => {
                assert(!(items(whole)[i as int] is Text));
                return None;
            },
        }
        i = i + 1;
    }
    assert(texts(out@) =~= read_texts(whole));
    Some(out)
}

/// The texts of the member `key`, if the member is a list of texts.
fn texts_at(json: &Json, key: &str) -> (found: Option<Vec<String>>)
    ensures
        found is Some <==> is_texts(field(json@, key@)),
        found matches Some(ts) ==> texts(ts@) == read_texts(field(json@, key@)),
{
    match json.get(key) {
        Some(value) => match value.as_list() {
            Some(list) => texts_of(list),
            None => None,
        },
        None => None,
    }
}

/// A list of texts that is written as JSON reads back as it was.
pub proof fn lemma_texts_round_trip(values: Seq<Seq<char>>)
    ensures
        is_texts(texts_json(values)),
        read_texts(texts_json(values)) == values,
{
    assert(read_texts(texts_json(values)) =~= values);
}

/// The truth value of a value, and `false` where the value is none.
pub open spec fn truth(json: JsonView) -> bool {
    match json {
        JsonView::Bool(b) => b,
        _ => false,
    }
}

/// The whole number of a value, and zero where the value is none.
pub open spec fn whole(json: JsonView) -> i64 {
    match json {
        JsonView::Int(i) => i,
        _ => 0,
    }
}

/// The truth value of the member `key`, if the member is one.
fn bool_at(json: &Json, key: &str) -> (found: Option<bool>)
    ensures
        found is Some <==> field(json@, key@) is Bool,
        found matches Some(b) ==> b == truth(field(json@, key@)),
{
    match json.get(key) {
        Some(value) => value.as_bool(),
        None => None,
    }
}

/// The whole number of the member `key`, if the member is one.
fn int_at(json: &Json, key: &str) -> (found: Option<i64>)
    ensures
        found is Some <==> field(json@, key@) is Int,
        found matches Some(i) ==> i == whole(field(json@, key@)),
{
    match json.get(key) {
        Some(value) => value.as_int(),
        None => None,
    }
}

/// A checksum as JSON: the list of the algorithm's name and the digest in
/// hexadecimal.
pub open spec fn checksum_json(sum: Seq<u8>) -> JsonView {
    JsonView::List(seq![JsonView::Text("sha256"@), JsonView::Text(hex_text(sum))])
}

/// The value is a checksum: a list of the word `sha256` and of a text
/// that is made of pairs of hexadecimal digits.
pub open spec fn is_checksum(json: JsonView) -> bool {
    &&& json is List
    &&& items(json).len() == 2
    &&& items(json)[0] == JsonView::Text("sha256"@)
    &&& items(json)[1] is Text
    &&& is_hex(encode_utf8(text(items(json)[1])))
}

/// The digest that a checksum names.
pub open spec fn read_checksum(json: JsonView) -> Seq<u8> {
    hex_bytes(encode_utf8(text(items(json)[1])))
}

/// A checksum as JSON.
fn checksum_to_json(sum: &SHA256Checksum) -> (json: Json)
    ensures
        json@ == checksum_json(sum@),
{
    let mut list: Vec<Json> = Vec::new();
    append(&mut list, Json::Text("sha256".to_owned()));
    append(&mut list, Json::Text(checksum_hex(sum)));
    assert(list_view(list@) =~= seq![JsonView::Text("sha256"@), JsonView::Text(hex_text(sum@))]);
    Json::List(list)
}

/// The digest of the member `key`, if the member is a checksum.
fn checksum_at(json: &Json, key: &str) -> (found: Option<SHA256Checksum>)
    ensures
        found is Some <==> is_checksum(field(json@, key@)),
        found matches Some(sum) ==> sum@ == read_checksum(field(json@, key@)),
{
    let list = match json.get(key) {
        Some(value) => match value.as_list() {
            Some(list) => list,
            None => {
                return None;
            },
        },
        None => {
            return None;
        },
    };
    proof {
        lemma_list_view_index(list@);
    }
    if list.len() != 2 {
        return None;
    }
    let kind = list[0].as_text()?;
    let digest = list[1].as_text()?;
    match parse_checksum(kind.as_str(), digest.as_str()) {
        Ok(sum) => Some(sum),
        Err(_) => None,
    }
}

/// A checksum that is written as JSON reads back as it was.
proof fn lemma_checksum_json_round_trip(sum: Seq<u8>)
    ensures
        is_checksum(checksum_json(sum)),
        read_checksum(checksum_json(sum)) == sum,
{
    lemma_hex_text_reads_back(sum);
}

/// A stability as JSON: its word, or `null` where none is given.
pub open spec fn stability_json(value: Option<Stability>) -> JsonView {
    match value {
        Some(s) => JsonView::Text(s.spec_text()),
        None => JsonView::Null,
    }
}

/// The value is `null` or the word of a stability.
pub open spec fn is_stability(json: JsonView) -> bool {
    json is Null || (json is Text && Stability::spec_from_text(text(json)) is Some)
}

/// The stability that a value names.
pub open spec fn read_stability(json: JsonView) -> Option<Stability> {
    match json {
        JsonView::Text(t) => Stability::spec_from_text(t),
        _ => None,
    }
}

/// A stability as JSON.
fn stability_to_json(value: &Option<Stability>) -> (json: Json)
    ensures
        json@ == stability_json(*value),
{
    match value {
        Some(s) => Json::Text(s.to_text().to_owned()),
        None => Json::Null,
    }
}

/// The stability of the member `key`, if the member is the word of one,
/// `null` or absent.
fn stability_at(json: &Json, key: &str) -> (found: Option<Option<Stability>>)
    ensures
        found is Some <==> is_stability(field(json@, key@)),
        found matches Some(s) ==> s == read_stability(field(json@, key@)),
{
    match json.get(key) {
        Some(Json::Text(t)) => match Stability::from_text(t.as_str()) {
            Some(s) => Some(Some(s)),
            None => None,
        },
        Some(Json::Null) => Some(None),
        Some(_) => None,
        None => Some(None),
    }
}

/// A stability that is written as JSON reads back as it was.
proof fn lemma_stability_json_round_trip(value: Option<Stability>)
    ensures
        is_stability(stability_json(value)),
        read_stability(stability_json(value)) == value,
{
    if let Some(s) = value {
        lemma_stability_round_trip(s);
    }
}

/// A kind of mod as JSON: its word.
pub open spec fn kind_json(value: FSNRelType) -> JsonView {
    JsonView::Text(value.spec_word())
}

/// The value is the word of a kind of mod.
pub open spec fn is_kind(json: JsonView) -> bool {
    json is Text && FSNRelType::spec_from_word(text(json)) is Some
}

/// The kind of mod that a value names.
pub open spec fn read_kind(json: JsonView) -> FSNRelType {
    match FSNRelType::spec_from_word(text(json)) {
        Some(kind) => kind,
        None => FSNRelType::Mod,
    }
}

/// A kind of mod as JSON.
fn kind_to_json(value: FSNRelType) -> (json: Json)
    ensures
        json@ == kind_json(value),
{
    Json::Text(value.word().to_owned())
}

/// The kind of mod of the member `key`, if the member is the word of one.
fn kind_at(json: &Json, key: &str) -> (found: Option<FSNRelType>)
    ensures
        found is Some <==> is_kind(field(json@, key@)),
        found matches Some(kind) ==> kind == read_kind(field(json@, key@)),
{
    match json.get(key) {
        Some(value) => match value.as_text() {
            Some(t) => FSNRelType::from_word(t.as_str()),
            None => None,
        },
        None => None,
    }
}

/// A kind of mod that is written as JSON reads back as it was.
proof fn lemma_kind_json_round_trip(value: FSNRelType)
    ensures
        is_kind(kind_json(value)),
        read_kind(kind_json(value)) == value,
{
    lemma_rel_word_round_trip(value);
}

/// A dependency as JSON.
pub open spec fn dependency_json(v: DependencyView) -> JsonView {
    JsonView::Object(
        Map::<Seq<char>, JsonView>::empty()
            .insert("id"@, JsonView::Text(v.id))
            .insert("version"@, optional_json(v.version))
            .insert("packages"@, texts_json(v.packages)),
    )
}

/// The value is an object that describes a dependency.
pub open spec fn is_dependency(json: JsonView) -> bool {
    &&& json is Object
    &&& field(json, "id"@) is Text
    &&& is_optional(field(json, "version"@))
    &&& is_texts(field(json, "packages"@))
}

/// What the object that describes a dependency says.
pub open spec fn read_dependency(json: JsonView) -> DependencyView {
    DependencyView {
        id: text(field(json, "id"@)),
        version: read_optional(field(json, "version"@)),
        packages: read_texts(field(json, "packages"@)),
    }
}

/// A dependency as JSON.
fn dependency_to_json(v: &FSNDependency) -> (json: Json)
    ensures
        json@ == dependency_json(v@),
{
    let mut members: Vec<Member> = Vec::new();
    put(&mut members, "id", text_to_json(&v.id));
    put(&mut members, "version", optional_to_json(&v.version));
    put(&mut members, "packages", texts_to_json(&v.packages));
    Json::Object(members)
}

/// What a JSON value says of a dependency. `None` exactly when the value is
/// no object, or a member is missing or is not what it has to be.
fn dependency_from_json(json: &Json) -> (found: Option<FSNDependency>)
    ensures
        found is Some <==> is_dependency(json@),
        found matches Some(v) ==> v@ == read_dependency(json@),
{
    match json {
        Json::Object(_) => {},
        _ => {
            return None;
        },
    }
    let id = text_at(json, "id")?;
    let version = optional_at(json, "version")?;
    let packages = texts_at(json, "packages")?;
    Some(FSNDependency { id, version, packages })
}

/// A dependency that is written as JSON reads back as it was.
proof fn lemma_dependency_round_trip(v: DependencyView)
    ensures
        is_dependency(dependency_json(v)),
        read_dependency(dependency_json(v)) == v,
{
    reveal_strlit("id");
    assert("id"@.len() == 2);
    reveal_strlit("version");
    assert("version"@.len() == 7);
    reveal_strlit("packages");
    assert("packages"@.len() == 8);
    lemma_texts_round_trip(v.packages);
}

/// A list of dependencies as JSON.
pub open spec fn dependencies_json(values: Seq<DependencyView>) -> JsonView {
    JsonView::List(Seq::new(values.len(), |i: int| dependency_json(values[i])))
}

/// The value is a list of objects that describe dependencies.
pub open spec fn are_dependencies(json: JsonView) -> bool {
    json is List && forall|i: int| 0 <= i < items(json).len() ==> is_dependency(#[trigger] items(json)[i])
}

/// What a list of objects that describe dependencies says, in order.
pub open spec fn read_dependencies(json: JsonView) -> Seq<DependencyView> {
    Seq::new(items(json).len(), |i: int| read_dependency(items(json)[i]))
}

/// A list of dependencies as JSON.
fn dependencies_to_json(values: &Vec<FSNDependency>) -> (json: Json)
    ensures
        json@ == dependencies_json(dependency_views(values@)),
{
    let mut list: Vec<Json> = Vec::new();
    let mut i: usize = 0;
    while i < values.len()
        invariant
            i <= values@.len(),
            list_view(list@) == Seq::new(i as nat, |k: int| dependency_json(dependency_views(values@)[k])),
        decreases values.len() - i,
    {
        append(&mut list, dependency_to_json(&values[i]));
        assert(list_view(list@) =~= Seq::new(
            (i + 1) as nat,
            |k: int| dependency_json(dependency_views(values@)[k]),
        ));
        i = i + 1;
    }
    Json::List(list)
}

/// The dependencies of the member `key`, if the member is a list of objects
/// that describe dependencies.
fn dependencies_at(json: &Json, key: &str) -> (found: Option<Vec<FSNDependency>>)
    ensures
        found is Some <==> are_dependencies(field(json@, key@)),
        found matches Some(vs) ==> dependency_views(vs@) == read_dependencies(field(json@, key@)),
{
    let list = match json.get(key) {
        Some(value) => match value.as_list() {
            Some(list) => list,
            None => {
                return None;
            },
        },
        None => {
            return None;
        },
    };
    proof {
        lemma_list_view_index(list@);
    }
    let ghost whole = field(json@, key@);
    let mut out: Vec<FSNDependency> = Vec::new();
    let mut i: usize = 0;
    while i < list.len()
        invariant
            i <= list@.len(),
            whole == field(json@, key@),
            whole is List,
            items(whole) == list_view(list@),
            list_view(list@).len() == list@.len(),
            forall|k: int| 0 <= k < list@.len() ==> #[trigger] list_view(list@)[k] == list@[k]@,
            out@.len() == i,
            forall|k: int| 0 <= k < i ==> is_dependency(#[trigger] items(whole)[k]),
            forall|k: int| 0 <= k < i ==> (#[trigger] out@[k])@ == read_dependency(items(whole)[k]),
        decreases list.len() - i,
    {
        match dependency_from_json(&list[i]) {
            Some(v) => {
                out.push(v);
            },
            None => {
                assert(!is_dependency(items(whole)[i as int]));
                return None;
            },
        }
        i = i + 1;
    }
    assert(dependency_views(out@) =~= read_dependencies(whole));
    Some(out)
}

/// A list of dependencies that is written as JSON reads back as it was.
proof fn lemma_dependencies_round_trip(values: Seq<DependencyView>)
    ensures
        are_dependencies(dependencies_json(values)),
        read_dependencies(dependencies_json(values)) == values,
{
    let written = items(dependencies_json(values));
    assert forall|i: int| 0 <= i < values.len() implies is_dependency(#[trigger] written[i])
        && read_dependency(written[i]) == values[i] by {
        lemma_dependency_round_trip(values[i]);
    }
    assert(read_dependencies(dependencies_json(values)) =~= values);
}

/// An executable as JSON.
pub open spec fn executable_json(v: ExecutableView) -> JsonView {
    JsonView::Object(
        Map::<Seq<char>, JsonView>::empty()
            .insert("file"@, JsonView::Text(v.file))
            .insert("label"@, optional_json(v.label)),
    )
}

/// The value is an object that describes an executable.
pub open spec fn is_executable(json: JsonView) -> bool {
    &&& json is Object
    &&& field(json, "file"@) is Text
    &&& is_optional(field(json, "label"@))
}

/// What the object that describes an executable says.
pub open spec fn read_executable(json: JsonView) -> ExecutableView {
    ExecutableView {
        file: text(field(json, "file"@)),
        label: read_optional(field(json, "label"@)),
    }
}

/// An executable as JSON.
fn executable_to_json(v: &FSNExecutable) -> (json: Json)
    ensures
        json@ == executable_json(v@),
{
    let mut members: Vec<Member> = Vec::new();
    put(&mut members, "file", text_to_json(&v.file));
    put(&mut members, "label", optional_to_json(&v.label));
    Json::Object(members)
}

/// What a JSON value says of an executable. `None` exactly when the value is
/// no object, or a member is missing or is not what it has to be.
fn executable_from_json(json: &Json) -> (found: Option<FSNExecutable>)
    ensures
        found is Some <==> is_executable(json@),
        found matches Some(v) ==> v@ == read_executable(json@),
{
    match json {
        Json::Object(_) => {},
        _ => {
            return None;
        },
    }
    let file = text_at(json, "file")?;
    let label = optional_at(json, "label")?;
    Some(FSNExecutable { file, label })
}

/// An executable that is written as JSON reads back as it was.
proof fn lemma_executable_round_trip(v: ExecutableView)
    ensures
        is_executable(executable_json(v)),
        read_executable(executable_json(v)) == v,
{
    reveal_strlit("file");
    assert("file"@.len() == 4);
    reveal_strlit("label");
    assert("label"@.len() == 5);
}

/// A list of executables as JSON.
pub open spec fn executables_json(values: Seq<ExecutableView>) -> JsonView {
    JsonView::List(Seq::new(values.len(), |i: int| executable_json(values[i])))
}

/// The value is a list of objects that describe executables.
pub open spec fn are_executables(json: JsonView) -> bool {
    json is List && forall|i: int| 0 <= i < items(json).len() ==> is_executable(#[trigger] items(json)[i])
}

/// What a list of objects that describe executables says, in order.
pub open spec fn read_executables(json: JsonView) -> Seq<ExecutableView> {
    Seq::new(items(json).len(), |i: int| read_executable(items(json)[i]))
}

/// A list of executables as JSON.
fn executables_to_json(values: &Vec<FSNExecutable>) -> (json: Json)
    ensures
        json@ == executables_json(executable_views(values@)),
{
    let mut list: Vec<Json> = Vec::new();
    let mut i: usize = 0;
    while i < values.len()
        invariant
            i <= values@.len(),
            list_view(list@) == Seq::new(i as nat, |k: int| executable_json(executable_views(values@)[k])),
        decreases values.len() - i,
    {
        append(&mut list, executable_to_json(&values[i]));
        assert(list_view(list@) =~= Seq::new(
            (i + 1) as nat,
            |k: int| executable_json(executable_views(values@)[k]),
        ));
        i = i + 1;
    }
    Json::List(list)
}

/// The executables of the member `key`, if the member is a list of objects
/// that describe executables.
fn executables_at(json: &Json, key: &str) -> (found: Option<Vec<FSNExecutable>>)
    ensures
        found is Some <==> are_executables(field(json@, key@)),
        found matches Some(vs) ==> executable_views(vs@) == read_executables(field(json@, key@)),
{
    let list = match json.get(key) {
        Some(value) => match value.as_list() {
            Some(list) => list,
            None => {
                return None;
            },
        },
        None => {
            return None;
        },
    };
    proof {
        lemma_list_view_index(list@);
    }
    let ghost whole = field(json@, key@);
    let mut out: Vec<FSNExecutable> = Vec::new();
    let mut i: usize = 0;
    while i < list.len()
        invariant
            i <= list@.len(),
            whole == field(json@, key@),
            whole is List,
            items(whole) == list_view(list@),
            list_view(list@).len() == list@.len(),
            forall|k: int| 0 <= k < list@.len() ==> #[trigger] list_view(list@)[k] == list@[k]@,
            out@.len() == i,
            forall|k: int| 0 <= k < i ==> is_executable(#[trigger] items(whole)[k]),
            forall|k: int| 0 <= k < i ==> (#[trigger] out@[k])@ == read_executable(items(whole)[k]),
        decreases list.len() - i,
    {
        match executable_from_json(&list[i]) {
            Some(v) => {
                out.push(v);
            },
            None => {
                assert(!is_executable(items(whole)[i as int]));
                return None;
            },
        }
        i = i + 1;
    }
    assert(executable_views(out@) =~= read_executables(whole));
    Some(out)
}

/// A list of executables that is written as JSON reads back as it was.
proof fn lemma_executables_round_trip(values: Seq<ExecutableView>)
    ensures
        are_executables(executables_json(values)),
        read_executables(executables_json(values)) == values,
{
    let written = items(executables_json(values));
    assert forall|i: int| 0 <= i < values.len() implies is_executable(#[trigger] written[i])
        && read_executable(written[i]) == values[i] by {
        lemma_executable_round_trip(values[i]);
    }
    assert(read_executables(executables_json(values)) =~= values);
}

/// An archive as JSON.
pub open spec fn zip_file_json(v: ZipFileView) -> JsonView {
    JsonView::Object(
        Map::<Seq<char>, JsonView>::empty()
            .insert("filename"@, JsonView::Text(v.filename))
            .insert("dest"@, JsonView::Text(v.dest))
            .insert("checksum"@, checksum_json(v.checksum))
            .insert("filesize"@, JsonView::Int(v.filesize))
            .insert("urls"@, texts_json(v.urls)),
    )
}

/// The value is an object that describes an archive.
pub open spec fn is_zip_file(json: JsonView) -> bool {
    &&& json is Object
    &&& field(json, "filename"@) is Text
    &&& field(json, "dest"@) is Text
    &&& is_checksum(field(json, "checksum"@))
    &&& field(json, "filesize"@) is Int
    &&& is_texts(field(json, "urls"@))
}

/// What the object that describes an archive says.
pub open spec fn read_zip_file(json: JsonView) -> ZipFileView {
    ZipFileView {
        filename: text(field(json, "filename"@)),
        dest: text(field(json, "dest"@)),
        checksum: read_checksum(field(json, "checksum"@)),
        filesize: whole(field(json, "filesize"@)),
        urls: read_texts(field(json, "urls"@)),
    }
}

/// An archive as JSON.
fn zip_file_to_json(v: &FSNZipFile) -> (json: Json)
    ensures
        json@ == zip_file_json(v@),
{
    let mut members: Vec<Member> = Vec::new();
    put(&mut members, "filename", text_to_json(&v.filename));
    put(&mut members, "dest", text_to_json(&v.dest));
    put(&mut members, "checksum", checksum_to_json(&v.checksum));
    put(&mut members, "filesize", Json::Int(v.filesize));
    put(&mut members, "urls", texts_to_json(&v.urls));
    Json::Object(members)
}

/// What a JSON value says of an archive. `None` exactly when the value is
/// no object, or a member is missing or is not what it has to be.
fn zip_file_from_json(json: &Json) -> (found: Option<FSNZipFile>)
    ensures
        found is Some <==> is_zip_file(json@),
        found matches Some(v) ==> v@ == read_zip_file(json@),
{
    match json {
        Json::Object(_) => {},
        _ => {
            return None;
        },
    }
    let filename = text_at(json, "filename")?;
    let dest = text_at(json, "dest")?;
    let checksum = checksum_at(json, "checksum")?;
    let filesize = int_at(json, "filesize")?;
    let urls = texts_at(json, "urls")?;
    Some(FSNZipFile { filename, dest, checksum, filesize, urls })
}

/// An archive that is written as JSON reads back as it was.
proof fn lemma_zip_file_round_trip(v: ZipFileView)
    ensures
        is_zip_file(zip_file_json(v)),
        read_zip_file(zip_file_json(v)) == v,
{
    reveal_strlit("filename");
    assert("filename"@.len() == 8);
    reveal_strlit("dest");
    assert("dest"@.len() == 4);
    reveal_strlit("checksum");
    assert("checksum"@.len() == 8);
    reveal_strlit("filesize");
    assert("filesize"@.len() == 8);
    reveal_strlit("urls");
    assert("urls"@.len() == 4);
    assert("filename"@[0] != "checksum"@[0]);
    assert("filename"@[4] != "filesize"@[4]);
    assert("dest"@[0] != "urls"@[0]);
    assert("checksum"@[0] != "filesize"@[0]);
    lemma_checksum_json_round_trip(v.checksum);
    lemma_texts_round_trip(v.urls);
}

/// A list of archives as JSON.
pub open spec fn zip_files_json(values: Seq<ZipFileView>) -> JsonView {
    JsonView::List(Seq::new(values.len(), |i: int| zip_file_json(values[i])))
}

/// The value is a list of objects that describe archives.
pub open spec fn are_zip_files(json: JsonView) -> bool {
    json is List && forall|i: int| 0 <= i < items(json).len() ==> is_zip_file(#[trigger] items(json)[i])
}

/// What a list of objects that describe archives says, in order.
pub open spec fn read_zip_files(json: JsonView) -> Seq<ZipFileView> {
    Seq::new(items(json).len(), |i: int| read_zip_file(items(json)[i]))
}

/// A list of archives as JSON.
fn zip_files_to_json(values: &Vec<FSNZipFile>) -> (json: Json)
    ensures
        json@ == zip_files_json(zip_file_views(values@)),
{
    let mut list: Vec<Json> = Vec::new();
    let mut i: usize = 0;
    while i < values.len()
        invariant
            i <= values@.len(),
            list_view(list@) == Seq::new(i as nat, |k: int| zip_file_json(zip_file_views(values@)[k])),
        decreases values.len() - i,
    {
        append(&mut list, zip_file_to_json(&values[i]));
        assert(list_view(list@) =~= Seq::new(
            (i + 1) as nat,
            |k: int| zip_file_json(zip_file_views(values@)[k]),
        ));
        i = i + 1;
    }
    Json::List(list)
}

/// The archives of the member `key`, if the member is a list of objects
/// that describe archives.
fn zip_files_at(json: &Json, key: &str) -> (found: Option<Vec<FSNZipFile>>)
    ensures
        found is Some <==> are_zip_files(field(json@, key@)),
        found matches Some(vs) ==> zip_file_views(vs@) == read_zip_files(field(json@, key@)),
{
    let list = match json.get(key) {
        Some(value) => match value.as_list() {
            Some(list) => list,
            None => {
                return None;
            },
        },
        None => {
            return None;
        },
    };
    proof {
        lemma_list_view_index(list@);
    }
    let ghost whole = field(json@, key@);
    let mut out: Vec<FSNZipFile> = Vec::new();
    let mut i: usize = 0;
    while i < list.len()
        invariant
            i <= list@.len(),
            whole == field(json@, key@),
            whole is List,
            items(whole) == list_view(list@),
            list_view(list@).len() == list@.len(),
            forall|k: int| 0 <= k < list@.len() ==> #[trigger] list_view(list@)[k] == list@[k]@,
            out@.len() == i,
            forall|k: int| 0 <= k < i ==> is_zip_file(#[trigger] items(whole)[k]),
            forall|k: int| 0 <= k < i ==> (#[trigger] out@[k])@ == read_zip_file(items(whole)[k]),
        decreases list.len() - i,
    {
        match zip_file_from_json(&list[i]) {
            Some(v) => {
                out.push(v);
            },
            None => {
                assert(!is_zip_file(items(whole)[i as int]));
                return None;
            },
        }
        i = i + 1;
    }
    assert(zip_file_views(out@) =~= read_zip_files(whole));
    Some(out)
}

/// A list of archives that is written as JSON reads back as it was.
proof fn lemma_zip_files_round_trip(values: Seq<ZipFileView>)
    ensures
        are_zip_files(zip_files_json(values)),
        read_zip_files(zip_files_json(values)) == values,
{
    let written = items(zip_files_json(values));
    assert forall|i: int| 0 <= i < values.len() implies is_zip_file(#[trigger] written[i])
        && read_zip_file(written[i]) == values[i] by {
        lemma_zip_file_round_trip(values[i]);
    }
    assert(read_zip_files(zip_files_json(values)) =~= values);
}

/// A file as JSON.
pub open spec fn mod_file_json(v: ModFileView) -> JsonView {
    JsonView::Object(
        Map::<Seq<char>, JsonView>::empty()
            .insert("filename"@, JsonView::Text(v.filename))
            .insert("archive"@, JsonView::Text(v.archive))
            .insert("orig_name"@, JsonView::Text(v.orig_name))
            .insert("checksum"@, checksum_json(v.checksum)),
    )
}

/// The value is an object that describes a file.
pub open spec fn is_mod_file(json: JsonView) -> bool {
    &&& json is Object
    &&& field(json, "filename"@) is Text
    &&& field(json, "archive"@) is Text
    &&& field(json, "orig_name"@) is Text
    &&& is_checksum(field(json, "checksum"@))
}

/// What the object that describes a file says.
pub open spec fn read_mod_file(json: JsonView) -> ModFileView {
    ModFileView {
        filename: text(field(json, "filename"@)),
        archive: text(field(json, "archive"@)),
        orig_name: text(field(json, "orig_name"@)),
        checksum: read_checksum(field(json, "checksum"@)),
    }
}

/// A file as JSON.
fn mod_file_to_json(v: &FSNModFile) -> (json: Json)
    ensures
        json@ == mod_file_json(v@),
{
    let mut members: Vec<Member> = Vec::new();
    put(&mut members, "filename", text_to_json(&v.filename));
    put(&mut members, "archive", text_to_json(&v.archive));
    put(&mut members, "orig_name", text_to_json(&v.orig_name));
    put(&mut members, "checksum", checksum_to_json(&v.checksum));
    Json::Object(members)
}

/// What a JSON value says of a file. `None` exactly when the value is
/// no object, or a member is missing or is not what it has to be.
fn mod_file_from_json(json: &Json) -> (found: Option<FSNModFile>)
    ensures
        found is Some <==> is_mod_file(json@),
        found matches Some(v) ==> v@ == read_mod_file(json@),
{
    match json {
        Json::Object(_) => {},
        _ => {
            return None;
        },
    }
    let filename = text_at(json, "filename")?;
    let archive = text_at(json, "archive")?;
    let orig_name = text_at(json, "orig_name")?;
    let checksum = checksum_at(json, "checksum")?;
    Some(FSNModFile { filename, archive, orig_name, checksum })
}

/// A file that is written as JSON reads back as it was.
proof fn lemma_mod_file_round_trip(v: ModFileView)
    ensures
        is_mod_file(mod_file_json(v)),
        read_mod_file(mod_file_json(v)) == v,
{
    reveal_strlit("filename");
    assert("filename"@.len() == 8);
    reveal_strlit("archive");
    assert("archive"@.len() == 7);
    reveal_strlit("orig_name");
    assert("orig_name"@.len() == 9);
    reveal_strlit("checksum");
    assert("checksum"@.len() == 8);
    assert("filename"@[0] != "checksum"@[0]);
    lemma_checksum_json_round_trip(v.checksum);
}

/// A list of files as JSON.
pub open spec fn mod_files_json(values: Seq<ModFileView>) -> JsonView {
    JsonView::List(Seq::new(values.len(), |i: int| mod_file_json(values[i])))
}

/// The value is a list of objects that describe files.
pub open spec fn are_mod_files(json: JsonView) -> bool {
    json is List && forall|i: int| 0 <= i < items(json).len() ==> is_mod_file(#[trigger] items(json)[i])
}

/// What a list of objects that describe files says, in order.
pub open spec fn read_mod_files(json: JsonView) -> Seq<ModFileView> {
    Seq::new(items(json).len(), |i: int| read_mod_file(items(json)[i]))
}

/// A list of files as JSON.
fn mod_files_to_json(values: &Vec<FSNModFile>) -> (json: Json)
    ensures
        json@ == mod_files_json(mod_file_views(values@)),
{
    let mut list: Vec<Json> = Vec::new();
    let mut i: usize = 0;
    while i < values.len()
        invariant
            i <= values@.len(),
            list_view(list@) == Seq::new(i as nat, |k: int| mod_file_json(mod_file_views(values@)[k])),
        decreases values.len() - i,
    {
        append(&mut list, mod_file_to_json(&values[i]));
        assert(list_view(list@) =~= Seq::new(
            (i + 1) as nat,
            |k: int| mod_file_json(mod_file_views(values@)[k]),
        ));
        i = i + 1;
    }
    Json::List(list)
}

/// The files of the member `key`, if the member is a list of objects
/// that describe files.
fn mod_files_at(json: &Json, key: &str) -> (found: Option<Vec<FSNModFile>>)
    ensures
        found is Some <==> are_mod_files(field(json@, key@)),
        found matches Some(vs) ==> mod_file_views(vs@) == read_mod_files(field(json@, key@)),
{
    let list = match json.get(key) {
        Some(value) => match value.as_list() {
            Some(list) => list,
            None => {
                return None;
            },
        },
        None => {
            return None;
        },
    };
    proof {
        lemma_list_view_index(list@);
    }
    let ghost whole = field(json@, key@);
    let mut out: Vec<FSNModFile> = Vec::new();
    let mut i: usize = 0;
    while i < list.len()
        invariant
            i <= list@.len(),
            whole == field(json@, key@),
            whole is List,
            items(whole) == list_view(list@),
            list_view(list@).len() == list@.len(),
            forall|k: int| 0 <= k < list@.len() ==> #[trigger] list_view(list@)[k] == list@[k]@,
            out@.len() == i,
            forall|k: int| 0 <= k < i ==> is_mod_file(#[trigger] items(whole)[k]),
            forall|k: int| 0 <= k < i ==> (#[trigger] out@[k])@ == read_mod_file(items(whole)[k]),
        decreases list.len() - i,
    {
        match mod_file_from_json(&list[i]) {
            Some(v) => {
                out.push(v);
            },
            None => {
                assert(!is_mod_file(items(whole)[i as int]));
                return None;
            },
        }
        i = i + 1;
    }
    assert(mod_file_views(out@) =~= read_mod_files(whole));
    Some(out)
}

/// A list of files that is written as JSON reads back as it was.
proof fn lemma_mod_files_round_trip(values: Seq<ModFileView>)
    ensures
        are_mod_files(mod_files_json(values)),
        read_mod_files(mod_files_json(values)) == values,
{
    let written = items(mod_files_json(values));
    assert forall|i: int| 0 <= i < values.len() implies is_mod_file(#[trigger] written[i])
        && read_mod_file(written[i]) == values[i] by {
        lemma_mod_file_round_trip(values[i]);
    }
    assert(read_mod_files(mod_files_json(values)) =~= values);
}

/// A package as JSON.
pub open spec fn package_json(v: PackageView) -> JsonView {
    JsonView::Object(
        Map::<Seq<char>, JsonView>::empty()
            .insert("name"@, JsonView::Text(v.name))
            .insert("notes"@, JsonView::Text(v.notes))
            .insert("status"@, JsonView::Text(v.status))
            .insert("dependencies"@, dependencies_json(v.dependencies))
            .insert("environment"@, optional_json(v.environment))
            .insert("folder"@, optional_json(v.folder))
            .insert("is_vp"@, JsonView::Bool(v.is_vp))
            .insert("executables"@, executables_json(v.executables))
            .insert("files"@, zip_files_json(v.files))
            .insert("filelist"@, mod_files_json(v.filelist)),
    )
}

/// The value is an object that describes a package.
pub open spec fn is_package(json: JsonView) -> bool {
    &&& json is Object
    &&& field(json, "name"@) is Text
    &&& field(json, "notes"@) is Text
    &&& field(json, "status"@) is Text
    &&& are_dependencies(field(json, "dependencies"@))
    &&& is_optional(field(json, "environment"@))
    &&& is_optional(field(json, "folder"@))
    &&& field(json, "is_vp"@) is Bool
    &&& are_executables(field(json, "executables"@))
    &&& are_zip_files(field(json, "files"@))
    &&& are_mod_files(field(json, "filelist"@))
}

/// What the object that describes a package says.
pub open spec fn read_package(json: JsonView) -> PackageView {
    PackageView {
        name: text(field(json, "name"@)),
        notes: text(field(json, "notes"@)),
        status: text(field(json, "status"@)),
        dependencies: read_dependencies(field(json, "dependencies"@)),
        environment: read_optional(field(json, "environment"@)),
        folder: read_optional(field(json, "folder"@)),
        is_vp: truth(field(json, "is_vp"@)),
        executables: read_executables(field(json, "executables"@)),
        files: read_zip_files(field(json, "files"@)),
        filelist: read_mod_files(field(json, "filelist"@)),
    }
}

/// A package as JSON.
fn package_to_json(v: &FSNPackage) -> (json: Json)
    ensures
        json@ == package_json(v@),
{
    let mut members: Vec<Member> = Vec::new();
    put(&mut members, "name", text_to_json(&v.name));
    put(&mut members, "notes", text_to_json(&v.notes));
    put(&mut members, "status", text_to_json(&v.status));
    put(&mut members, "dependencies", dependencies_to_json(&v.dependencies));
    put(&mut members, "environment", optional_to_json(&v.environment));
    put(&mut members, "folder", optional_to_json(&v.folder));
    put(&mut members, "is_vp", Json::Bool(v.is_vp));
    put(&mut members, "executables", executables_to_json(&v.executables));
    put(&mut members, "files", zip_files_to_json(&v.files));
    put(&mut members, "filelist", mod_files_to_json(&v.filelist));
    Json::Object(members)
}

/// What a JSON value says of a package. `None` exactly when the value is
/// no object, or a member is missing or is not what it has to be.
fn package_from_json(json: &Json) -> (found: Option<FSNPackage>)
    ensures
        found is Some <==> is_package(json@),
        found matches Some(v) ==> v@ == read_package(json@),
{
    match json {
        Json::Object(_) => {},
        _ => {
            return None;
        },
    }
    let name = text_at(json, "name")?;
    let notes = text_at(json, "notes")?;
    let status = text_at(json, "status")?;
    let dependencies = dependencies_at(json, "dependencies")?;
    let environment = optional_at(json, "environment")?;
    let folder = optional_at(json, "folder")?;
    let is_vp = bool_at(json, "is_vp")?;
    let executables = executables_at(json, "executables")?;
    let files = zip_files_at(json, "files")?;
    let filelist = mod_files_at(json, "filelist")?;
    Some(
        FSNPackage {
            name,
            notes,
            status,
            dependencies,
            environment,
            folder,
            is_vp,
            executables,
            files,
            filelist,
        },
    )
}

/// A package that is written as JSON reads back as it was.
proof fn lemma_package_round_trip(v: PackageView)
    ensures
        is_package(package_json(v)),
        read_package(package_json(v)) == v,
{
    reveal_strlit("name");
    assert("name"@.len() == 4);
    reveal_strlit("notes");
    assert("notes"@.len() == 5);
    reveal_strlit("status");
    assert("status"@.len() == 6);
    reveal_strlit("dependencies");
    assert("dependencies"@.len() == 12);
    reveal_strlit("environment");
    assert("environment"@.len() == 11);
    reveal_strlit("folder");
    assert("folder"@.len() == 6);
    reveal_strlit("is_vp");
    assert("is_vp"@.len() == 5);
    reveal_strlit("executables");
    assert("executables"@.len() == 11);
    reveal_strlit("files");
    assert("files"@.len() == 5);
    reveal_strlit("filelist");
    assert("filelist"@.len() == 8);
    assert("notes"@[0] != "is_vp"@[0]);
    assert("notes"@[0] != "files"@[0]);
    assert("status"@[0] != "folder"@[0]);
    assert("environment"@[1] != "executables"@[1]);
    assert("is_vp"@[0] != "files"@[0]);
    lemma_dependencies_round_trip(v.dependencies);
    lemma_executables_round_trip(v.executables);
    lemma_zip_files_round_trip(v.files);
    lemma_mod_files_round_trip(v.filelist);
}

/// A list of packages as JSON.
pub open spec fn packages_json(values: Seq<PackageView>) -> JsonView {
    JsonView::List(Seq::new(values.len(), |i: int| package_json(values[i])))
}

/// The value is a list of objects that describe packages.
pub open spec fn are_packages(json: JsonView) -> bool {
    json is List && forall|i: int| 0 <= i < items(json).len() ==> is_package(#[trigger] items(json)[i])
}

/// What a list of objects that describe packages says, in order.
pub open spec fn read_packages(json: JsonView) -> Seq<PackageView> {
    Seq::new(items(json).len(), |i: int| read_package(items(json)[i]))
}

/// A list of packages as JSON.
fn packages_to_json(values: &Vec<FSNPackage>) -> (json: Json)
    ensures
        json@ == packages_json(package_views(values@)),
{
    let mut list: Vec<Json> = Vec::new();
    let mut i: usize = 0;
    while i < values.len()
        invariant
            i <= values@.len(),
            list_view(list@) == Seq::new(i as nat, |k: int| package_json(package_views(values@)[k])),
        decreases values.len() - i,
    {
        append(&mut list, package_to_json(&values[i]));
        assert(list_view(list@) =~= Seq::new(
            (i + 1) as nat,
            |k: int| package_json(package_views(values@)[k]),
        ));
        i = i + 1;
    }
    Json::List(list)
}

/// The packages of the member `key`, if the member is a list of objects
/// that describe packages.
fn packages_at(json: &Json, key: &str) -> (found: Option<Vec<FSNPackage>>)
    ensures
        found is Some <==> are_packages(field(json@, key@)),
        found matches Some(vs) ==> package_views(vs@) == read_packages(field(json@, key@)),
{
    let list = match json.get(key) {
        Some(value) => match value.as_list() {
            Some(list) => list,
            None => {
                return None;
            },
        },
        None => {
            return None;
        },
    };
    proof {
        lemma_list_view_index(list@);
    }
    let ghost whole = field(json@, key@);
    let mut out: Vec<FSNPackage> = Vec::new();
    let mut i: usize = 0;
    while i < list.len()
        invariant
            i <= list@.len(),
            whole == field(json@, key@),
            whole is List,
            items(whole) == list_view(list@),
            list_view(list@).len() == list@.len(),
            forall|k: int| 0 <= k < list@.len() ==> #[trigger] list_view(list@)[k] == list@[k]@,
            out@.len() == i,
            forall|k: int| 0 <= k < i ==> is_package(#[trigger] items(whole)[k]),
            forall|k: int| 0 <= k < i ==> (#[trigger] out@[k])@ == read_package(items(whole)[k]),
        decreases list.len() - i,
    {
        match package_from_json(&list[i]) {
            Some(v) => {
                out.push(v);
            },
            None => {
                assert(!is_package(items(whole)[i as int]));
                return None;
            },
        }
        i = i + 1;
    }
    assert(package_views(out@) =~= read_packages(whole));
    Some(out)
}

/// A list of packages that is written as JSON reads back as it was.
proof fn lemma_packages_round_trip(values: Seq<PackageView>)
    ensures
        are_packages(packages_json(values)),
        read_packages(packages_json(values)) == values,
{
    let written = items(packages_json(values));
    assert forall|i: int| 0 <= i < values.len() implies is_package(#[trigger] written[i])
        && read_package(written[i]) == values[i] by {
        lemma_package_round_trip(values[i]);
    }
    assert(read_packages(packages_json(values)) =~= values);
}

/// A release as JSON.
pub open spec fn release_json(v: ModView) -> JsonView {
    JsonView::Object(
        Map::<Seq<char>, JsonView>::empty()
            .insert("id"@, JsonView::Text(v.id))
            .insert("title"@, JsonView::Text(v.title))
            .insert("version"@, JsonView::Text(v.version))
            .insert("private"@, JsonView::Bool(v.private))
            .insert("stability"@, stability_json(v.stability))
            .insert("parent"@, optional_json(v.parent))
            .insert("description"@, JsonView::Text(v.description))
            .insert("logo"@, optional_json(v.logo))
            .insert("tile"@, optional_json(v.tile))
            .insert("banner"@, optional_json(v.banner))
            .insert("screenshots"@, texts_json(v.screenshots))
            .insert("attachments"@, texts_json(v.attachments))
            .insert("release_thread"@, optional_json(v.release_thread))
            .insert("videos"@, texts_json(v.videos))
            .insert("notes"@, JsonView::Text(v.notes))
            .insert("first_release"@, JsonView::Text(v.first_release))
            .insert("last_update"@, JsonView::Text(v.last_update))
            .insert("cmdline"@, JsonView::Text(v.cmdline))
            .insert("mod_flag"@, texts_json(v.mod_flag))
            .insert("type"@, kind_json(v.mod_type))
            .insert("packages"@, packages_json(v.packages)),
    )
}

/// The value is an object that describes a release.
pub open spec fn is_release(json: JsonView) -> bool {
    &&& json is Object
    &&& field(json, "id"@) is Text
    &&& field(json, "title"@) is Text
    &&& field(json, "version"@) is Text
    &&& field(json, "private"@) is Bool
    &&& is_stability(field(json, "stability"@))
    &&& is_optional(field(json, "parent"@))
    &&& field(json, "description"@) is Text
    &&& is_optional(field(json, "logo"@))
    &&& is_optional(field(json, "tile"@))
    &&& is_optional(field(json, "banner"@))
    &&& is_texts(field(json, "screenshots"@))
    &&& is_texts(field(json, "attachments"@))
    &&& is_optional(field(json, "release_thread"@))
    &&& is_texts(field(json, "videos"@))
    &&& field(json, "notes"@) is Text
    &&& field(json, "first_release"@) is Text
    &&& field(json, "last_update"@) is Text
    &&& field(json, "cmdline"@) is Text
    &&& is_texts(field(json, "mod_flag"@))
    &&& is_kind(field(json, "type"@))
    &&& are_packages(field(json, "packages"@))
}

/// What the object that describes a release says.
pub open spec fn read_release(json: JsonView) -> ModView {
    ModView {
        id: text(field(json, "id"@)),
        title: text(field(json, "title"@)),
        version: text(field(json, "version"@)),
        private: truth(field(json, "private"@)),
        stability: read_stability(field(json, "stability"@)),
        parent: read_optional(field(json, "parent"@)),
        description: text(field(json, "description"@)),
        logo: read_optional(field(json, "logo"@)),
        tile: read_optional(field(json, "tile"@)),
        banner: read_optional(field(json, "banner"@)),
        screenshots: read_texts(field(json, "screenshots"@)),
        attachments: read_texts(field(json, "attachments"@)),
        release_thread: read_optional(field(json, "release_thread"@)),
        videos: read_texts(field(json, "videos"@)),
        notes: text(field(json, "notes"@)),
        first_release: text(field(json, "first_release"@)),
        last_update: text(field(json, "last_update"@)),
        cmdline: text(field(json, "cmdline"@)),
        mod_flag: read_texts(field(json, "mod_flag"@)),
        mod_type: read_kind(field(json, "type"@)),
        packages: read_packages(field(json, "packages"@)),
    }
}

/// A release as JSON.
pub fn release_to_json(v: &FSNMod) -> (json: Json)
    ensures
        json@ == release_json(v@),
{
    let mut members: Vec<Member> = Vec::new();
    put(&mut members, "id", text_to_json(&v.id));
    put(&mut members, "title", text_to_json(&v.title));
    put(&mut members, "version", text_to_json(&v.version));
    put(&mut members, "private", Json::Bool(v.private));
    put(&mut members, "stability", stability_to_json(&v.stability));
    put(&mut members, "parent", optional_to_json(&v.parent));
    put(&mut members, "description", text_to_json(&v.description));
    put(&mut members, "logo", optional_to_json(&v.logo));
    put(&mut members, "tile", optional_to_json(&v.tile));
    put(&mut members, "banner", optional_to_json(&v.banner));
    put(&mut members, "screenshots", texts_to_json(&v.screenshots));
    put(&mut members, "attachments", texts_to_json(&v.attachments));
    put(&mut members, "release_thread", optional_to_json(&v.release_thread));
    put(&mut members, "videos", texts_to_json(&v.videos));
    put(&mut members, "notes", text_to_json(&v.notes));
    put(&mut members, "first_release", text_to_json(&v.first_release));
    put(&mut members, "last_update", text_to_json(&v.last_update));
    put(&mut members, "cmdline", text_to_json(&v.cmdline));
    put(&mut members, "mod_flag", texts_to_json(&v.mod_flag));
    put(&mut members, "type", kind_to_json(v.mod_type));
    put(&mut members, "packages", packages_to_json(&v.packages));
    Json::Object(members)
}

/// What a JSON value says of a release. `None` exactly when the value is
/// no object, or a member is missing or is not what it has to be.
pub fn release_from_json(json: &Json) -> (found: Option<FSNMod>)
    ensures
        found is Some <==> is_release(json@),
        found matches Some(v) ==> v@ == read_release(json@),
{
    match json {
        Json::Object(_) => {},
        _ => {
            return None;
        },
    }
    let id = text_at(json, "id")?;
    let title = text_at(json, "title")?;
    let version = text_at(json, "version")?;
    let private = bool_at(json, "private")?;
    let stability = stability_at(json, "stability")?;
    let parent = optional_at(json, "parent")?;
    let description = text_at(json, "description")?;
    let logo = optional_at(json, "logo")?;
    let tile = optional_at(json, "tile")?;
    let banner = optional_at(json, "banner")?;
    let screenshots = texts_at(json, "screenshots")?;
    let attachments = texts_at(json, "attachments")?;
    let release_thread = optional_at(json, "release_thread")?;
    let videos = texts_at(json, "videos")?;
    let notes = text_at(json, "notes")?;
    let first_release = text_at(json, "first_release")?;
    let last_update = text_at(json, "last_update")?;
    let cmdline = text_at(json, "cmdline")?;
    let mod_flag = texts_at(json, "mod_flag")?;
    let mod_type = kind_at(json, "type")?;
    let packages = packages_at(json, "packages")?;
    Some(
        FSNMod {
            id,
            title,
            version,
            private,
            stability,
            parent,
            description,
            logo,
            tile,
            banner,
            screenshots,
            attachments,
            release_thread,
            videos,
            notes,
            first_release,
            last_update,
            cmdline,
            mod_flag,
            mod_type,
            packages,
        },
    )
}

/// A release that is written as JSON reads back as it was.
proof fn lemma_release_round_trip(v: ModView)
    ensures
        is_release(release_json(v)),
        read_release(release_json(v)) == v,
{
    reveal_strlit("id");
    assert("id"@.len() == 2);
    reveal_strlit("title");
    assert("title"@.len() == 5);
    reveal_strlit("version");
    assert("version"@.len() == 7);
    reveal_strlit("private");
    assert("private"@.len() == 7);
    reveal_strlit("stability");
    assert("stability"@.len() == 9);
    reveal_strlit("parent");
    assert("parent"@.len() == 6);
    reveal_strlit("description");
    assert("description"@.len() == 11);
    reveal_strlit("logo");
    assert("logo"@.len() == 4);
    reveal_strlit("tile");
    assert("tile"@.len() == 4);
    reveal_strlit("banner");
    assert("banner"@.len() == 6);
    reveal_strlit("screenshots");
    assert("screenshots"@.len() == 11);
    reveal_strlit("attachments");
    assert("attachments"@.len() == 11);
    reveal_strlit("release_thread");
    assert("release_thread"@.len() == 14);
    reveal_strlit("videos");
    assert("videos"@.len() == 6);
    reveal_strlit("notes");
    assert("notes"@.len() == 5);
    reveal_strlit("first_release");
    assert("first_release"@.len() == 13);
    reveal_strlit("last_update");
    assert("last_update"@.len() == 11);
    reveal_strlit("cmdline");
    assert("cmdline"@.len() == 7);
    reveal_strlit("mod_flag");
    assert("mod_flag"@.len() == 8);
    reveal_strlit("type");
    assert("type"@.len() == 4);
    reveal_strlit("packages");
    assert("packages"@.len() == 8);
    assert("title"@[0] != "notes"@[0]);
    assert("version"@[0] != "private"@[0]);
    assert("version"@[0] != "cmdline"@[0]);
    assert("private"@[0] != "cmdline"@[0]);
    assert("parent"@[0] != "banner"@[0]);
    assert("parent"@[0] != "videos"@[0]);
    assert("description"@[0] != "screenshots"@[0]);
    assert("description"@[0] != "attachments"@[0]);
    assert("description"@[0] != "last_update"@[0]);
    assert("logo"@[0] != "tile"@[0]);
    assert("logo"@[0] != "type"@[0]);
    assert("tile"@[1] != "type"@[1]);
    assert("banner"@[0] != "videos"@[0]);
    assert("screenshots"@[0] != "attachments"@[0]);
    assert("screenshots"@[0] != "last_update"@[0]);
    assert("attachments"@[0] != "last_update"@[0]);
    assert("mod_flag"@[0] != "packages"@[0]);
    lemma_stability_json_round_trip(v.stability);
    lemma_texts_round_trip(v.screenshots);
    lemma_texts_round_trip(v.attachments);
    lemma_texts_round_trip(v.videos);
    lemma_texts_round_trip(v.mod_flag);
    lemma_kind_json_round_trip(v.mod_type);
    lemma_packages_round_trip(v.packages);
}

/// A list of releases as JSON.
pub open spec fn releases_json(values: Seq<ModView>) -> JsonView {
    JsonView::List(Seq::new(values.len(), |i: int| release_json(values[i])))
}

/// The value is a list of objects that describe releases.
pub open spec fn are_releases(json: JsonView) -> bool {
    json is List && forall|i: int| 0 <= i < items(json).len() ==> is_release(#[trigger] items(json)[i])
}

/// What a list of objects that describe releases says, in order.
pub open spec fn read_releases(json: JsonView) -> Seq<ModView> {
    Seq::new(items(json).len(), |i: int| read_release(items(json)[i]))
}

/// A list of releases as JSON.
fn releases_to_json(values: &Vec<FSNMod>) -> (json: Json)
    ensures
        json@ == releases_json(release_views(values@)),
{
    let mut list: Vec<Json> = Vec::new();
    let mut i: usize = 0;
    while i < values.len()
        invariant
            i <= values@.len(),
            list_view(list@) == Seq::new(i as nat, |k: int| release_json(release_views(values@)[k])),
        decreases values.len() - i,
    {
        append(&mut list, release_to_json(&values[i]));
        assert(list_view(list@) =~= Seq::new(
            (i + 1) as nat,
            |k: int| release_json(release_views(values@)[k]),
        ));
        i = i + 1;
    }
    Json::List(list)
}

/// The releases of the member `key`, if the member is a list of objects
/// that describe releases.
fn releases_at(json: &Json, key: &str) -> (found: Option<Vec<FSNMod>>)
    ensures
        found is Some <==> are_releases(field(json@, key@)),
        found matches Some(vs) ==> release_views(vs@) == read_releases(field(json@, key@)),
{
    let list = match json.get(key) {
        Some(value) => match value.as_list() {
            Some(list) => list,
            None => {
                return None;
            },
        },
        None => {
            return None;
        },
    };
    proof {
        lemma_list_view_index(list@);
    }
    let ghost whole = field(json@, key@);
    let mut out: Vec<FSNMod> = Vec::new();
    let mut i: usize = 0;
    while i < list.len()
        invariant
            i <= list@.len(),
            whole == field(json@, key@),
            whole is List,
            items(whole) == list_view(list@),
            list_view(list@).len() == list@.len(),
            forall|k: int| 0 <= k < list@.len() ==> #[trigger] list_view(list@)[k] == list@[k]@,
            out@.len() == i,
            forall|k: int| 0 <= k < i ==> is_release(#[trigger] items(whole)[k]),
            forall|k: int| 0 <= k < i ==> (#[trigger] out@[k])@ == read_release(items(whole)[k]),
        decreases list.len() - i,
    {
        match release_from_json(&list[i]) {
            Some(v) => {
                out.push(v);
            },
            None => {
                assert(!is_release(items(whole)[i as int]));
                return None;
            },
        }
        i = i + 1;
    }
    assert(release_views(out@) =~= read_releases(whole));
    Some(out)
}

/// A list of releases that is written as JSON reads back as it was.
proof fn lemma_releases_round_trip(values: Seq<ModView>)
    ensures
        are_releases(releases_json(values)),
        read_releases(releases_json(values)) == values,
{
    let written = items(releases_json(values));
    assert forall|i: int| 0 <= i < values.len() implies is_release(#[trigger] written[i])
        && read_release(written[i]) == values[i] by {
        lemma_release_round_trip(values[i]);
    }
    assert(read_releases(releases_json(values)) =~= values);
}

/// A manifest as JSON.
pub open spec fn repo_json(v: RepoView) -> JsonView {
    JsonView::Object(
        Map::<Seq<char>, JsonView>::empty()
            .insert("mods"@, releases_json(v.mods)),
    )
}

/// The value is an object that describes a manifest.
pub open spec fn is_repo(json: JsonView) -> bool {
    &&& json is Object
    &&& are_releases(field(json, "mods"@))
}

/// What the object that describes a manifest says.
pub open spec fn read_repo(json: JsonView) -> RepoView {
    RepoView {
        mods: read_releases(field(json, "mods"@)),
    }
}

/// A manifest as JSON.
pub fn repo_to_json(v: &Repo) -> (json: Json)
    ensures
        json@ == repo_json(v@),
{
    let mut members: Vec<Member> = Vec::new();
    put(&mut members, "mods", releases_to_json(&v.mods));
    Json::Object(members)
}

/// What a JSON value says of a manifest. `None` exactly when the value is
/// no object, or a member is missing or is not what it has to be.
pub fn repo_from_json(json: &Json) -> (found: Option<Repo>)
    ensures
        found is Some <==> is_repo(json@),
        found matches Some(v) ==> v@ == read_repo(json@),
{
    match json {
        Json::Object(_) => {},
        _ => {
            return None;
        },
    }
    let mods = releases_at(json, "mods")?;
    Some(Repo { mods })
}

/// A manifest that is written as JSON reads back as the manifest it was,
/// whatever the order of the members.
pub proof fn lemma_manifest_round_trip(v: RepoView)
    ensures
        is_repo(repo_json(v)),
        read_repo(repo_json(v)) == v,
{
    reveal_strlit("mods");
    assert("mods"@.len() == 4);
    lemma_releases_round_trip(v.mods);
}

} // verus!
