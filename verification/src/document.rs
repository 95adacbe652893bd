//! The registry file as a `toml_edit` document. `toml_edit` parses and
//! prints the file and keeps its comments and layout; everything the
//! registry decides is made on the document's contents, read out as a
//! [`TomlItem`] tree.

use toml_edit::{value, DocumentMut, Item, Table, TableLike, TomlError, Value};
use vstd::prelude::*;

use crate::tree::{
    child, drop_key, entries_of, find, keys_unique, put, put_absent, Entries, Node, TomlItem,
};

verus! {

#[verifier::external_type_specification]
#[verifier::external_body]
pub struct ExDocumentMut(DocumentMut);

#[verifier::external_type_specification]
#[verifier::external_body]
pub struct ExItem(Item);

#[verifier::external_type_specification]
#[verifier::external_body]
pub struct ExTomlError(TomlError);

/// What a TOML item holds.
pub uninterp spec fn item_contents(item: Item) -> TomlItem;

/// What a document holds: its root table.
pub uninterp spec fn document_contents(doc: DocumentMut) -> TomlItem;

/// No table of the document, nested or inline, holds an empty placeholder
/// item (`Item::None`, which `IndexMut` leaves behind and iteration hides).
/// The parser never makes one, and the registry's edits add none.
pub uninterp spec fn document_plain(doc: DocumentMut) -> bool;

/// The text `toml_edit` prints for a document (`Display for DocumentMut`):
/// its comments, layout and tables as the document records them.
pub uninterp spec fn document_text(doc: DocumentMut) -> Seq<char>;

/// What `toml_edit` reads from a text: the contents of the document, or
/// nothing when the text is not TOML.
pub uninterp spec fn toml_parse(text: Seq<char>) -> Option<TomlItem>;

/// A table with no entries.
pub open spec fn empty_table() -> TomlItem {
    TomlItem::Table(Seq::empty())
}

/// The key of the table of assignments.
pub open spec fn ports_key() -> Seq<char> {
    "ports"@
}

/// The entries of the `ports` table, when it is a table.
pub open spec fn ports_entries(t: TomlItem) -> Entries {
    match child(t, ports_key()) {
        Some(TomlItem::Table(pe)) => pe,
        _ => Seq::empty(),
    }
}

/// `ports` is missing or a table, and so is `ports.<dir>`.
pub open spec fn can_add_port(t: TomlItem, dir: Seq<char>) -> bool {
    &&& t is Table
    &&& match child(t, ports_key()) {
        None => true,
        Some(TomlItem::Table(pe)) => match find(pe, dir) {
            None => true,
            Some(d) => d is Table,
        },
        Some(_) => false,
    }
}

/// The contents after `ports.<dir>.<name> = port`: a missing `ports` table
/// and a missing `ports.<dir>` table are appended empty first; an existing
/// name keeps its place.
pub open spec fn with_port(t: TomlItem, dir: Seq<char>, name: Seq<char>, port: u16) -> TomlItem {
    let root = put_absent(entries_of(t), ports_key(), TomlItem::Table(Seq::empty()));
    let pe = put_absent(entries_of(find(root, ports_key())->0), dir, TomlItem::Table(Seq::empty()));
    let names = put(entries_of(find(pe, dir)->0), name, TomlItem::Integer(port as i64));
    TomlItem::Table(put(root, ports_key(), TomlItem::Table(put(pe, dir, TomlItem::Table(names)))))
}

/// The contents after removing `ports.<dir>`.
pub open spec fn without_dir(t: TomlItem, dir: Seq<char>) -> TomlItem {
    TomlItem::Table(
        put(entries_of(t), ports_key(), TomlItem::Table(drop_key(ports_entries(t), dir))),
    )
}

/// The contents after removing `ports.<dir>.<name>`.
pub open spec fn without_name(t: TomlItem, dir: Seq<char>, name: Seq<char>) -> TomlItem {
    let pe = ports_entries(t);
    let names = drop_key(entries_of(find(pe, dir)->0), name);
    TomlItem::Table(put(entries_of(t), ports_key(), TomlItem::Table(put(pe, dir, TomlItem::Table(names)))))
}

/// Parses a registry text with `toml_edit` (`FromStr for DocumentMut`).
/// Claimed: the call succeeds exactly when `toml_parse` gives contents, and
/// the document then holds those contents, whose root is a table; the
/// parser inserts only values, tables and arrays of tables, never a
/// placeholder; and the empty text, which holds no item, gives an empty
/// root table.
#[verifier::external_body]
pub(crate) fn parse_document(text: &str) -> (r: Result<DocumentMut, TomlError>)
    ensures
        r is Ok <==> toml_parse(text@) is Some,
        r matches Ok(d) ==> document_contents(d) == toml_parse(text@)->0,
        r matches Ok(d) ==> document_contents(d) is Table,
        r matches Ok(d) ==> document_plain(d),
        text@.len() == 0 ==> r is Ok && document_contents(r->Ok_0) == empty_table(),
{
    text.parse::<DocumentMut>()
}

/// `DocumentMut::as_item`: the root item, which holds what the document holds.
pub assume_specification[ DocumentMut::as_item ](doc: &DocumentMut) -> (r: &Item)
    ensures
        item_contents(*r) == document_contents(*doc),
;

/// Reads an item out of `toml_edit`, one for one: an integer value
/// (`Value::Integer`), a table (`Item::Table`, walked with `Table::iter`, or
/// an inline table, walked with `TableLike::iter`, as `Item::as_table_like`
/// sees both), or anything else. Claimed: the result is what the item holds,
/// and no table in it holds a key twice (tables are `IndexMap`s).
#[verifier::external_body]
pub(crate) fn item_tree(item: &Item) -> (r: Node)
    ensures
        r@ == item_contents(*item),
        keys_unique(r@),
{
    match item {
        Item::Value(Value::Integer(n)) => Node::Integer(*n.value()),
        Item::Table(t) => Node::Table(t.iter().map(|(k, v)| (k.to_owned(), item_tree(v))).collect()),
        Item::Value(Value::InlineTable(t)) => Node::Table(
            TableLike::iter(t).map(|(k, v)| (k.to_owned(), item_tree(v))).collect(),
        ),
        _ => Node::Other,
    }
}

/// Records `ports.<dir>.<name> = port` in the document as the registry
/// does: `entry(ports)` with an implicit empty table as default, then
/// `entry(dir)` with an empty table as default, then `TableLike::insert`.
/// In a document without placeholders a key that iteration does not show
/// is absent, so the defaults are inserted at the end and a new name is
/// appended; the `expect`s cannot fire under `requires`, and only tables
/// and a value are inserted, no placeholder.
#[verifier::external_body]
pub(crate) fn add_port(doc: &mut DocumentMut, ports: &str, dir: &str, name: &str, port: u16)
    requires
        ports@ == ports_key(),
        can_add_port(document_contents(*old(doc)), dir@),
        document_plain(*old(doc)),
    ensures
        document_contents(*final(doc)) == with_port(document_contents(*old(doc)), dir@, name@, port),
        document_plain(*final(doc)),
    no_unwind
{
    let mut table = Table::new();
    table.set_implicit(true);
    let table = doc.entry(ports).or_insert(Item::Table(table));
    let table = table.as_table_like_mut().expect("ports is a table");
    let names = table.entry(dir).or_insert(Item::Table(Table::new()));
    let names = names.as_table_like_mut().expect("the directory entry is a table");
    names.insert(name, value(i64::from(port)));
}

/// Removes `ports.<dir>` with `TableLike::remove` (`shift_remove`: the order
/// of the rest is kept, and no placeholder is left behind).
#[verifier::external_body]
pub(crate) fn remove_dir(doc: &mut DocumentMut, ports: &str, dir: &str)
    requires
        ports@ == ports_key(),
        document_contents(*old(doc)) is Table,
        child(document_contents(*old(doc)), ports_key()) matches Some(TomlItem::Table(_)),
        document_plain(*old(doc)),
    ensures
        document_contents(*final(doc)) == without_dir(document_contents(*old(doc)), dir@),
        document_plain(*final(doc)),
    no_unwind
{
    let table = doc.get_mut(ports).and_then(Item::as_table_like_mut).expect("ports is a table");
    table.remove(dir);
}

/// Removes `ports.<dir>.<name>` with `TableLike::remove` (`shift_remove`: the
/// order of the rest is kept, and no placeholder is left behind).
#[verifier::external_body]
pub(crate) fn remove_name(doc: &mut DocumentMut, ports: &str, dir: &str, name: &str)
    requires
        ports@ == ports_key(),
        document_contents(*old(doc)) is Table,
        find(ports_entries(document_contents(*old(doc))), dir@) matches Some(TomlItem::Table(_)),
        child(document_contents(*old(doc)), ports_key()) matches Some(TomlItem::Table(_)),
        document_plain(*old(doc)),
    ensures
        document_contents(*final(doc)) == without_name(document_contents(*old(doc)), dir@, name@),
        document_plain(*final(doc)),
    no_unwind
{
    let table = doc.get_mut(ports).and_then(Item::as_table_like_mut).expect("ports is a table");
    let names = table.get_mut(dir).and_then(Item::as_table_like_mut).expect("a table");
    names.remove(name);
}

/// Prints the document (`Display for DocumentMut`), comments and layout
/// included. Claimed: the text is `document_text` of the document, a
/// function of the document alone. How `toml_edit` lays it out (the order
/// of tables, whether an empty implicit table is written) is not stated.
#[verifier::external_body]
pub(crate) fn render_document(doc: &DocumentMut) -> (r: String)
    ensures
        r@ == document_text(*doc),
{
    doc.to_string()
}

/// The contents of a document, read out.
pub(crate) fn document_tree(doc: &DocumentMut) -> (r: Node)
    ensures
        r@ == document_contents(*doc),
        keys_unique(r@),
{
    item_tree(doc.as_item())
}

} // verus!
