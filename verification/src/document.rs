//! The record parser: from one document, a schema-free tree of tables, lists
//! and scalars, to the descriptor of its node.

use vstd::prelude::*;
use crate::graph::{NodeDescriptor, DescriptorView};

verus! {

/// A parsed document.
#[derive(Debug)]
pub enum Doc {
    Null,
    Bool(bool),
    /// A number that is a non-negative integer below 2^64.
    Unsigned(u64),
    /// Any other number.
    Number,
    Text(String),
    List(Vec<Doc>),
    /// The entries of a table, each key once.
    Table(Vec<(String, Doc)>),
}

/// The keys that the parser looks for.
pub struct Schema {
    /// Top-level key of the document's id.
    pub id_key: String,
    /// Top-level key of the document's filename.
    pub filename_key: String,
    /// In a reference, the key of the id referred to.
    pub marker_key: String,
    /// The key that a table needs besides the marker to be a reference.
    pub name_key: String,
}

/// The index of the first entry at or after `from` with the given key.
pub open spec fn field(entries: Seq<(String, Doc)>, key: Seq<char>, from: int) -> Option<int>
    decreases entries.len() - from,
{
    if from < 0 || from >= entries.len() {
        None
    } else if entries[from].0@ == key {
        Some(from)
    } else {
        field(entries, key, from + 1)
    }
}

/// A table is a reference when it has both the marker key and the name key.
pub open spec fn is_reference(entries: Seq<(String, Doc)>, schema: &Schema) -> bool {
    field(entries, schema.marker_key@, 0) is Some && field(entries, schema.name_key@, 0) is Some
}

/// The id that a scalar stands for.
pub open spec fn as_id(doc: Doc) -> Option<usize> {
    match doc {
        Doc::Unsigned(u) => Some(u as usize),
        _ => None,
    }
}

/// The references found in a document, in the order in which the scan meets
/// them: a reference gives the id under its marker key, or `None` where that
/// is no id, and is not searched further; any other table or list gives the
/// references of its children, last child first.
pub open spec fn refs_of(doc: Doc, schema: &Schema) -> Seq<Option<usize>>
    decreases doc, 0nat,
{
    match doc {
        Doc::List(items) => refs_of_items(items, schema, items.len() as nat),
        Doc::Table(entries) => if is_reference(entries@, schema) {
            seq![as_id(entries[field(entries@, schema.marker_key@, 0)->0].1)]
        } else {
            refs_of_entries(entries, schema, entries.len() as nat)
        },
        _ => Seq::empty(),
    }
}

/// The references of the first `n` items of a list, last item first.
pub open spec fn refs_of_items(items: Vec<Doc>, schema: &Schema, n: nat) -> Seq<Option<usize>>
    decreases items, n,
{
    if n == 0 || n > items.len() {
        Seq::empty()
    } else {
        refs_of(items[n - 1], schema) + refs_of_items(items, schema, (n - 1) as nat)
    }
}

/// The references of the first `n` entries of a table, last entry first.
pub open spec fn refs_of_entries(entries: Vec<(String, Doc)>, schema: &Schema, n: nat) -> Seq<Option<usize>>
    decreases entries, n,
{
    if n == 0 || n > entries.len() {
        Seq::empty()
    } else {
        refs_of(entries[n - 1].1, schema) + refs_of_entries(entries, schema, (n - 1) as nat)
    }
}

/// Every reference gave an id.
pub open spec fn complete(refs: Seq<Option<usize>>) -> bool {
    forall|i: int| 0 <= i < refs.len() ==> (#[trigger] refs[i]) is Some
}

/// The ids of the references.
pub open spec fn values(refs: Seq<Option<usize>>) -> Seq<usize> {
    Seq::new(refs.len(), |i: int| refs[i]->0)
}

/// The text under a top-level key.
pub open spec fn text_at(doc: Doc, key: Seq<char>) -> Option<Seq<char>> {
    match doc {
        Doc::Table(entries) => match field(entries@, key, 0) {
            Some(i) => match entries[i].1 {
                Doc::Text(s) => Some(s@),
                _ => None,
            },
            None => None,
        },
        _ => None,
    }
}

/// The id under a top-level key.
pub open spec fn id_at(doc: Doc, key: Seq<char>) -> Option<usize> {
    match doc {
        Doc::Table(entries) => match field(entries@, key, 0) {
            Some(i) => as_id(entries[i].1),
            None => None,
        },
        _ => None,
    }
}

/// The descriptor of a document, or `None` where the document is skipped:
/// where it lacks a filename that is a text or an id that is an unsigned
/// integer, or where a reference in it has no such id under its marker.
pub open spec fn record_of(doc: Doc, schema: &Schema) -> Option<DescriptorView> {
    match (text_at(doc, schema.filename_key@), id_at(doc, schema.id_key@)) {
        (Some(filename), Some(id)) => if complete(refs_of(doc, schema)) {
            Some(
                DescriptorView {
                    id,
                    filename,
                    outbound_references: values(refs_of(doc, schema)),
                    distance: 0,
                    incoming_truncated: false,
                    outgoing_truncated: false,
                },
            )
        } else {
            None
        },
        _ => None,
    }
}

fn find_field<'a>(entries: &'a Vec<(String, Doc)>, key: &String) -> (found: Option<&'a Doc>)
    ensures
        match field(entries@, key@, 0) {
            Some(i) => 0 <= i < entries.len() && found == Some(&entries[i].1),
            None => found is None,
        },
{
    let mut i: usize = 0;
    while i < entries.len()
        invariant
            i <= entries.len(),
            field(entries@, key@, 0) == field(entries@, key@, i as int),
        decreases entries.len() - i,
    {
        if entries[i].0 == *key {
            return Some(&entries[i].1);
        }
        i += 1;
    }
    None
}

fn id_of(doc: &Doc) -> (id: Option<usize>)
    ensures
        id == as_id(*doc),
{
    match doc {
        Doc::Unsigned(u) => Some(
            #[verifier::truncate]
            (*u as usize),
        ),
        _ => None,
    }
}

// ---------------------------------------------------------------------------
// The scan.
// ---------------------------------------------------------------------------

/// The number of nodes of a document tree.
pub open spec fn weight(doc: Doc) -> nat
    decreases doc, 0nat,
{
    match doc {
        Doc::List(items) => 1 + weight_items(items, items.len() as nat),
        Doc::Table(entries) => 1 + weight_entries(entries, entries.len() as nat),
        _ => 1,
    }
}

/// The number of nodes under the first `n` items of a list.
pub open spec fn weight_items(items: Vec<Doc>, n: nat) -> nat
    decreases items, n,
{
    if n == 0 || n > items.len() {
        0
    } else {
        weight(items[n - 1]) + weight_items(items, (n - 1) as nat)
    }
}

/// The number of nodes under the first `n` entries of a table.
pub open spec fn weight_entries(entries: Vec<(String, Doc)>, n: nat) -> nat
    decreases entries, n,
{
    if n == 0 || n > entries.len() {
        0
    } else {
        weight(entries[n - 1].1) + weight_entries(entries, (n - 1) as nat)
    }
}

spec fn load(stack: Seq<&Doc>) -> nat
    decreases stack.len(),
{
    if stack.len() == 0 {
        0
    } else {
        weight(*stack.last()) + load(stack.drop_last())
    }
}

spec fn pending(stack: Seq<&Doc>, schema: &Schema) -> Seq<Option<usize>>
    decreases stack.len(),
{
    if stack.len() == 0 {
        Seq::empty()
    } else {
        refs_of(*stack.last(), schema) + pending(stack.drop_last(), schema)
    }
}

spec fn lift(ids: Seq<usize>) -> Seq<Option<usize>> {
    Seq::new(ids.len(), |i: int| Some(ids[i]))
}

fn is_container(doc: &Doc) -> (yes: bool)
    ensures
        yes == (doc is List || doc is Table),
{
    match doc {
        Doc::List(_) => true,
        Doc::Table(_) => true,
        _ => false,
    }
}

/// Collects the references of a document with a work list, without
/// recursion. `None` where a reference has no id under its marker.
pub fn scan(root: &Doc, schema: &Schema) -> (found: Option<Vec<usize>>)
    ensures
        match found {
            Some(ids) => complete(refs_of(*root, schema)) && ids@ == values(refs_of(*root, schema)),
            None => !complete(refs_of(*root, schema)),
        },
{
    let mut stack: Vec<&Doc> = Vec::new();
    let mut acc: Vec<usize> = Vec::new();
    stack.push(root);
    proof {
        assert(stack@.drop_last() =~= Seq::<&Doc>::empty());
        assert(pending(stack@.drop_last(), schema) =~= Seq::empty());
        assert(lift(acc@) + pending(stack@, schema) =~= refs_of(*root, schema));
    }
    while stack.len() > 0
        invariant
            lift(acc@) + pending(stack@, schema) == refs_of(*root, schema),
        decreases load(stack@),
    {
        let ghost before = stack@;
        let top: &Doc = stack.pop().unwrap();
        let ghost rest = stack@;
        proof {
            assert(rest =~= before.drop_last());
            assert(before.last() == top);
        }
        match top {
            Doc::Table(entries) => {
                let marker = find_field(entries, &schema.marker_key);
                let name = find_field(entries, &schema.name_key);
                if marker.is_some() && name.is_some() {
                    match id_of(marker.unwrap()) {
                        Some(id) => {
                            acc.push(id);
                            proof {
                                assert(lift(acc@) + pending(rest, schema) =~= refs_of(*root, schema));
                            }
                        },
                        None => {
                            proof {
                                let all = refs_of(*root, schema);
                                let at = acc@.len() as int;
                                assert(all[at] == (lift(acc@) + pending(before, schema))[at]);
                                assert(all[at] is None);
                            }
                            return None;
                        },
                    }
                } else {
                    let mut j: usize = 0;
                    while j < entries.len()
                        invariant
                            j <= entries.len(),
                            pending(stack@, schema) == refs_of_entries(*entries, schema, j as nat) + pending(rest, schema),
                            load(stack@) <= load(rest) + weight_entries(*entries, j as nat),
                        decreases entries.len() - j,
                    {
                        let child: &Doc = &entries[j].1;
                        let ghost prior = stack@;
                        if is_container(child) {
                            stack.push(child);
                            proof {
                                assert(stack@.drop_last() =~= prior);
                            }
                        }
                        proof {
                            assert(pending(stack@, schema) =~= refs_of(*child, schema) + pending(prior, schema));
                            assert(pending(stack@, schema) =~= refs_of_entries(*entries, schema, (j + 1) as nat) + pending(
                                rest,
                                schema,
                            ));
                        }
                        j += 1;
                    }
                    proof {
                        assert(lift(acc@) + pending(stack@, schema) =~= refs_of(*root, schema));
                    }
                }
            },
            Doc::List(items) => {
                let mut j: usize = 0;
                while j < items.len()
                    invariant
                        j <= items.len(),
                        pending(stack@, schema) == refs_of_items(*items, schema, j as nat) + pending(rest, schema),
                        load(stack@) <= load(rest) + weight_items(*items, j as nat),
                    decreases items.len() - j,
                {
                    let child: &Doc = &items[j];
                    let ghost prior = stack@;
                    if is_container(child) {
                        stack.push(child);
                        proof {
                            assert(stack@.drop_last() =~= prior);
                        }
                    }
                    proof {
                        assert(pending(stack@, schema) =~= refs_of(*child, schema) + pending(prior, schema));
                        assert(pending(stack@, schema) =~= refs_of_items(*items, schema, (j + 1) as nat) + pending(
                            rest,
                            schema,
                        ));
                    }
                    j += 1;
                }
                proof {
                    assert(lift(acc@) + pending(stack@, schema) =~= refs_of(*root, schema));
                }
            },
            _ => {
                proof {
                    assert(lift(acc@) + pending(stack@, schema) =~= refs_of(*root, schema));
                }
            },
        }
    }
    proof {
        assert(pending(stack@, schema) =~= Seq::empty());
        assert(lift(acc@) =~= refs_of(*root, schema));
        assert(acc@ =~= values(refs_of(*root, schema)));
    }
    Some(acc)
}

/// The descriptor of a parsed document, or `None` where the document is
/// skipped.
pub fn record_from_doc(doc: &Doc, schema: &Schema) -> (record: Option<NodeDescriptor>)
    ensures
        match record_of(*doc, schema) {
            Some(v) => record is Some && record->0@ == v,
            None => record is None,
        },
{
    let entries = match doc {
        Doc::Table(entries) => entries,
        _ => {
            return None;
        },
    };
    let filename: String = match find_field(entries, &schema.filename_key) {
        Some(Doc::Text(s)) => s.clone(),
        _ => {
            return None;
        },
    };
    let id: usize = match find_field(entries, &schema.id_key) {
        Some(d) => match id_of(d) {
            Some(id) => id,
            None => {
                return None;
            },
        },
        None => {
            return None;
        },
    };
    match scan(doc, schema) {
        Some(refs) => Some(NodeDescriptor::new(id, filename, refs)),
        None => None,
    }
}

// ---------------------------------------------------------------------------
// Reading a document from JSON text.
// ---------------------------------------------------------------------------

/// `serde_json::Error`, held as an opaque value.
#[verifier::external_type_specification]
#[verifier::external_body]
pub struct ExJsonError(serde_json::Error);

/// `serde_json::Value`, held as an opaque value.
#[verifier::external_type_specification]
#[verifier::external_body]
pub struct ExJsonValue(serde_json::Value);

/// The document that `serde_json` reads from a text; `None` where the text
/// is not well-formed JSON.
pub uninterp spec fn json_tree(bytes: Seq<u8>) -> Option<Doc>;

/// Why a document gave no result at all.
#[derive(Debug, PartialEq, Eq, Clone, Copy)]
pub enum ParseError {
    /// The text is not well-formed.
    Malformed,
}

/// A `serde_json::Value` as a `Doc`, variant by variant. A number becomes
/// `Unsigned` where `Number::as_u64` gives a value. Nothing is claimed of the
/// result here.
#[verifier::external_body]
fn doc_of_value(v: &serde_json::Value) -> (d: Doc) {
    match v {
        serde_json::Value::Null => Doc::Null,
        serde_json::Value::Bool(b) => Doc::Bool(*b),
        serde_json::Value::Number(n) => n.as_u64().map_or(Doc::Number, Doc::Unsigned),
        serde_json::Value::String(s) => Doc::Text(s.clone()),
        serde_json::Value::Array(items) => Doc::List(items.iter().map(doc_of_value).collect()),
        serde_json::Value::Object(m) => Doc::Table(m.iter().map(|(k, x)| (k.clone(), doc_of_value(x))).collect()),
    }
}

/// `serde_json::from_slice` to a `serde_json::Value`, converted to a `Doc`.
/// The outcome depends on the text alone: it is an error exactly where
/// `json_tree` is `None`, and else the document that `json_tree` names.
#[verifier::external_body]
fn decode(bytes: &[u8]) -> (r: Result<Doc, serde_json::Error>)
    ensures
        match r {
            Ok(d) => json_tree(bytes@) == Some(d),
            Err(_) => json_tree(bytes@) is None,
        },
{
    match serde_json::from_slice::<serde_json::Value>(bytes) {
        Ok(v) => Ok(doc_of_value(&v)),
        Err(e) => Err(e),
    }
}

/// Parses one raw document. Text that is not well-formed is an error; a
/// document without the required fields is skipped, which is no error.
pub fn parse_record(bytes: &[u8], schema: &Schema) -> (r: Result<Option<NodeDescriptor>, ParseError>)
    ensures
        match json_tree(bytes@) {
            None => r == Err::<Option<NodeDescriptor>, ParseError>(ParseError::Malformed),
            Some(doc) => match record_of(doc, schema) {
                Some(v) => r is Ok && r->Ok_0 is Some && r->Ok_0->0@ == v,
                None => r is Ok && r->Ok_0 is None,
            },
        },
{
    match decode(bytes) {
        Ok(doc) => Ok(record_from_doc(&doc, schema)),
        Err(_) => Err(ParseError::Malformed),
    }
}

impl Schema {
    /// The keys of the corpus this library was written for.
    pub fn standard() -> (schema: Schema)
        ensures
            schema.id_key@ == "__snoID__"@,
            schema.filename_key@ == "__fileName__"@,
            schema.marker_key@ == "__raw__"@,
            schema.name_key@ == "name"@,
    {
        Schema {
            id_key: "__snoID__".to_owned(),
            filename_key: "__fileName__".to_owned(),
            marker_key: "__raw__".to_owned(),
            name_key: "name".to_owned(),
        }
    }
}

} // verus!
