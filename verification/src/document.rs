//! TOML documents that are edited in place, seen as what stands at each key path.
use crate::text;
use toml_edit::{DocumentMut, Item};
use vstd::prelude::*;

verus! {

/// The keys that lead to a place in a document, from the root.
pub type KeyPath = Seq<Seq<char>>;

/// What stands at a place in a document.
#[verifier::ext_equal]
pub struct TomlEntry {
    /// It is a value: a string, a number, an array, an inline table and so on.
    pub is_value: bool,
    /// It is a table or an inline table.
    pub is_table: bool,
    /// What it says, where it is a string.
    pub string: Option<Seq<char>>,
}

/// What a document holds is looked at through its items and never directly.
#[verifier::external_type_specification]
#[verifier::external_body]
pub struct ExDocumentMut(toml_edit::DocumentMut);

/// What an item holds is looked at through the functions below.
#[verifier::external_type_specification]
#[verifier::external_body]
pub struct ExItem(toml_edit::Item);

/// Why a text is no TOML document, which is carried and never looked into.
#[verifier::external_type_specification]
#[verifier::external_body]
pub struct ExTomlError(toml_edit::TomlError);

/// What an item holds: an entry for the item itself at the empty path, and one for everything that
/// tables and inline tables inside it lead to, at the path of keys that leads there. Nothing where
/// the item is `Item::None`.
pub uninterp spec fn item_entries(item: toml_edit::Item) -> Map<Seq<Seq<char>>, TomlEntry>;

/// How an item is laid out: everything about it but what its strings say. That is the keys and
/// their order, which tables are inline, dotted or without a header of their own, where each table
/// stands in the document, the whitespace and the comments, and every value that is no string.
/// Carriage returns in the whitespace do not count.
pub uninterp spec fn item_layout(item: toml_edit::Item) -> Seq<char>;

/// Whether the item is one that was read from a text, but for what its strings say.
pub uninterp spec fn item_sound(item: toml_edit::Item) -> bool;

/// What a document holds: the entries of its root.
pub uninterp spec fn document_entries(document: toml_edit::DocumentMut) -> Map<
    Seq<Seq<char>>,
    TomlEntry,
>;

/// How a document is laid out: the layout of its root, and what stands after the last table.
pub uninterp spec fn document_layout(document: toml_edit::DocumentMut) -> Seq<char>;

/// Whether the document is one that was read from a text, but for what its strings say.
pub uninterp spec fn document_sound(document: toml_edit::DocumentMut) -> bool;

/// What the text holds when it is read as a TOML document; `None` where it is none.
pub uninterp spec fn toml_entries(text: Seq<char>) -> Option<Map<Seq<Seq<char>>, TomlEntry>>;

/// How the text is laid out when it is read as a TOML document.
pub uninterp spec fn toml_layout(text: Seq<char>) -> Seq<char>;

/// The entries under a key path, with paths that start there.
pub open spec fn under(entries: Map<KeyPath, TomlEntry>, path: KeyPath) -> Map<KeyPath, TomlEntry> {
    Map::new(|p: KeyPath| entries.contains_key(path + p), |p: KeyPath| entries[path + p])
}

/// The entries with those under one key replaced.
pub open spec fn with_child(
    entries: Map<KeyPath, TomlEntry>,
    key: Seq<char>,
    child: Map<KeyPath, TomlEntry>,
) -> Map<KeyPath, TomlEntry> {
    Map::new(
        |p: KeyPath|
            if p.len() > 0 && p[0] == key {
                child.contains_key(p.drop_first())
            } else {
                entries.contains_key(p)
            },
        |p: KeyPath|
            if p.len() > 0 && p[0] == key {
                child[p.drop_first()]
            } else {
                entries[p]
            },
    )
}

/// The path to the item itself.
pub open spec fn here() -> KeyPath {
    Seq::empty()
}

/// Whether the item itself is a table, as the root of a document is.
pub open spec fn is_root_table(entries: Map<KeyPath, TomlEntry>) -> bool {
    entries.contains_key(here()) && entries[here()].is_table && !entries[here()].is_value
}

/// `DocumentMut::from_str`: reads a document.
#[verifier::external_body]
pub(crate) fn parse_document(text: &str) -> (r: Result<DocumentMut, toml_edit::TomlError>)
    ensures
        match r {
            Ok(document) => {
                &&& document_sound(document)
                &&& toml_entries(text@) == Some(document_entries(document))
                &&& toml_layout(text@) == document_layout(document)
                &&& is_root_table(document_entries(document))
            },
            Err(_) => toml_entries(text@) is None,
        },
{
    text.parse::<DocumentMut>()
}

/// `DocumentMut::to_string`: writes a document out that was read, whatever its strings have become.
/// Reading what it wrote gives the same entries and the same layout.
#[verifier::external_body]
pub(crate) fn render_document(document: &DocumentMut) -> (r: String)
    requires
        document_sound(*document),
    ensures
        toml_entries(r@) == Some(document_entries(*document)),
        toml_layout(r@) == document_layout(*document),
{
    document.to_string()
}

/// `DocumentMut::as_item`: the root of the document.
#[verifier::external_body]
pub(crate) fn root(document: &DocumentMut) -> (r: &Item)
    ensures
        item_entries(*r) == document_entries(*document),
        document_sound(*document) ==> item_sound(*r),
{
    document.as_item()
}

/// `DocumentMut::as_item_mut`: the root of the document. The document then holds what becomes of
/// the root, and is laid out as before if the root is.
#[verifier::external_body]
pub(crate) fn root_mut(document: &mut DocumentMut) -> (r: &mut Item)
    ensures
        item_entries(*r) == document_entries(*old(document)),
        document_sound(*old(document)) ==> item_sound(*r),
        document_entries(*final(document)) == item_entries(*final(r)),
        item_layout(*final(r)) == item_layout(*r) ==> document_layout(*final(document))
            == document_layout(*old(document)),
        document_sound(*old(document)) && item_layout(*final(r)) == item_layout(*r)
            ==> document_sound(*final(document)),
{
    document.as_item_mut()
}

/// `Item::get` with a string: what a table or an inline table has under the key.
#[verifier::external_body]
pub(crate) fn child<'a>(item: &'a Item, key: &str) -> (r: Option<&'a Item>)
    ensures
        match r {
            Some(c) => {
                &&& item_entries(*item).contains_key(seq![key@])
                &&& item_entries(*c) == under(item_entries(*item), seq![key@])
                &&& item_sound(*item) ==> item_sound(*c)
            },
            None => !item_entries(*item).contains_key(seq![key@]),
        },
{
    item.get(key)
}

/// `Item::get_mut` with a string: what a table or an inline table has under a key that is there.
/// The item is then the item with what becomes of that in its place, and is laid out as before if
/// that is.
#[verifier::external_body]
pub(crate) fn child_mut<'a>(item: &'a mut Item, key: &str) -> (r: &'a mut Item)
    requires
        item_entries(*old(item)).contains_key(seq![key@]),
    ensures
        item_entries(*r) == under(item_entries(*old(item)), seq![key@]),
        item_sound(*old(item)) ==> item_sound(*r),
        item_entries(*final(item)) == with_child(
            item_entries(*old(item)),
            key@,
            item_entries(*final(r)),
        ),
        item_layout(*final(r)) == item_layout(*r) ==> item_layout(*final(item)) == item_layout(
            *old(item),
        ),
        item_sound(*old(item)) && item_layout(*final(r)) == item_layout(*r) ==> item_sound(
            *final(item),
        ),
{
    item.get_mut(key).unwrap()
}

/// `Item::is_value`.
#[verifier::external_body]
pub(crate) fn is_value(item: &Item) -> (r: bool)
    requires
        item_entries(*item).contains_key(here()),
    ensures
        r == item_entries(*item)[here()].is_value,
{
    item.is_value()
}

/// `Item::is_table_like`.
#[verifier::external_body]
pub(crate) fn is_table_like(item: &Item) -> (r: bool)
    requires
        item_entries(*item).contains_key(here()),
    ensures
        r == item_entries(*item)[here()].is_table,
{
    item.is_table_like()
}

/// `Item::as_str`: what the item says, where it is a string.
#[verifier::external_body]
pub(crate) fn as_str(item: &Item) -> (r: Option<&str>)
    requires
        item_entries(*item).contains_key(here()),
    ensures
        match r {
            Some(s) => item_entries(*item)[here()].string == Some(s@),
            None => item_entries(*item)[here()].string is None,
        },
{
    item.as_str()
}

/// `Item::as_table_like` and `TableLike::iter`: the keys of a table, each once.
#[verifier::external_body]
pub(crate) fn keys(item: &Item) -> (r: Vec<String>)
    requires
        item_sound(*item),
        item_entries(*item).contains_key(here()),
        item_entries(*item)[here()].is_table,
    ensures
        text::texts(r@).no_duplicates(),
        forall|k: Seq<char>|
            text::texts(r@).contains(k) <==> #[trigger] item_entries(*item).contains_key(seq![k]),
{
    let table = item.as_table_like().unwrap();
    table.iter().map(|(key, _)| key.to_owned()).collect()
}

/// `Item::as_value_mut`, `Value::from` and `Value::decor_mut`: puts another string in place of a
/// string, and keeps the whitespace and the comments around it.
#[verifier::external_body]
pub(crate) fn replace_string(item: &mut Item, text: &str)
    requires
        item_entries(*old(item)).contains_key(here()),
        item_entries(*old(item))[here()].string is Some,
    ensures
        item_entries(*final(item)) == item_entries(*old(item)).insert(
            here(),
            TomlEntry { string: Some(text@), ..item_entries(*old(item))[here()] },
        ),
        item_layout(*final(item)) == item_layout(*old(item)),
        item_sound(*old(item)) ==> item_sound(*final(item)),
{
    let value = item.as_value_mut().unwrap();
    let decor = value.decor().clone();
    *value = toml_edit::Value::from(text);
    *value.decor_mut() = decor;
}

/// Whether every step of the path leads to something.
pub open spec fn leads(entries: Map<KeyPath, TomlEntry>, path: KeyPath) -> bool {
    forall|k: int| 0 <= k <= path.len() ==> entries.contains_key(#[trigger] path.take(k))
}

/// A path that leads somewhere leads on from its first key.
proof fn lemma_leads_on(entries: Map<KeyPath, TomlEntry>, path: KeyPath)
    requires
        path.len() > 0,
    ensures
        leads(entries, path) <==> entries.contains_key(here()) && entries.contains_key(
            seq![path[0]],
        ) && leads(under(entries, seq![path[0]]), path.drop_first()),
{
    let key = seq![path[0]];
    let rest = path.drop_first();
    let sub = under(entries, key);
    assert(path.take(0) =~= here());
    assert(path.take(1) =~= key);
    assert forall|k: int| 0 <= k <= rest.len() implies key + #[trigger] rest.take(k) =~= path.take(
        k + 1,
    ) by {}
    if leads(entries, path) {
        assert(entries.contains_key(path.take(0)));
        assert(entries.contains_key(path.take(1)));
        assert forall|k: int| 0 <= k <= rest.len() implies sub.contains_key(
            #[trigger] rest.take(k),
        ) by {
            assert(entries.contains_key(path.take(k + 1)));
            assert(key + rest.take(k) =~= path.take(k + 1));
        }
    }
    if entries.contains_key(here()) && entries.contains_key(key) && leads(sub, rest) {
        assert forall|k: int| 0 <= k <= path.len() implies entries.contains_key(
            #[trigger] path.take(k),
        ) by {
            if k > 0 {
                assert(sub.contains_key(rest.take(k - 1)));
                assert(key + rest.take(k - 1) =~= path.take(k));
            }
        }
    }
}

/// What a path leads to from the item, where every step of it leads to something.
pub(crate) fn lookup<'a>(item: &'a Item, path: &[String]) -> (r: Option<&'a Item>)
    requires
        item_entries(*item).contains_key(here()),
    ensures
        match r {
            Some(found) => {
                &&& leads(item_entries(*item), text::texts(path@))
                &&& item_entries(*found) == under(item_entries(*item), text::texts(path@))
                &&& item_entries(*found).contains_key(here())
                &&& item_sound(*item) ==> item_sound(*found)
            },
            None => !leads(item_entries(*item), text::texts(path@)),
        },
    decreases path@.len(),
{
    let ghost entries = item_entries(*item);
    let ghost keys = text::texts(path@);
    if path.len() == 0 {
        proof {
            assert(keys.take(0) =~= here());
            assert forall|p: KeyPath| keys + p =~= p by {}
            assert(under(entries, keys) =~= entries);
        }
        return Some(item);
    }
    let rest = vstd::slice::slice_subrange(path, 1, path.len());
    proof {
        assert(text::texts(rest@) =~= keys.drop_first());
        lemma_leads_on(entries, keys);
        assert(keys[0] == path@[0]@);
    }
    match child(item, path[0].as_str()) {
        Some(next) => {
            proof {
                assert(seq![keys[0]] + here() =~= seq![keys[0]]);
                let sub = under(entries, seq![keys[0]]);
                assert forall|p: KeyPath| #[trigger] (keys + p) =~= seq![keys[0]] + (
                keys.drop_first() + p) by {}
                assert(under(sub, keys.drop_first()) =~= under(entries, keys));
                assert(keys + here() =~= keys);
                assert(keys.take(keys.len() as int) =~= keys);
            }
            lookup(next, rest)
        },
        None => None,
    }
}

/// Changing what stands under a key is changing what stands at the longer path.
proof fn lemma_insert_under(
    entries: Map<KeyPath, TomlEntry>,
    key: Seq<char>,
    rest: KeyPath,
    entry: TomlEntry,
)
    ensures
        with_child(entries, key, under(entries, seq![key]).insert(rest, entry)) == entries.insert(
            seq![key] + rest,
            entry,
        ),
{
    let sub = under(entries, seq![key]);
    let path = seq![key] + rest;
    let changed = with_child(entries, key, sub.insert(rest, entry));
    assert(path.drop_first() =~= rest);
    assert forall|p: KeyPath| p.len() > 0 && p[0] == key implies seq![key] + #[trigger] p.drop_first()
        =~= p by {}
    assert(changed =~= entries.insert(path, entry));
}

/// Puts another string in place of the string that the path leads to, and keeps everything else.
pub(crate) fn set_string(item: &mut Item, path: &[String], text: &str)
    requires
        item_sound(*old(item)),
        leads(item_entries(*old(item)), text::texts(path@)),
        item_entries(*old(item))[text::texts(path@)].string is Some,
    ensures
        item_entries(*final(item)) == item_entries(*old(item)).insert(
            text::texts(path@),
            TomlEntry {
                string: Some(text@),
                ..item_entries(*old(item))[text::texts(path@)]
            },
        ),
        item_layout(*final(item)) == item_layout(*old(item)),
        item_sound(*final(item)),
    decreases path@.len(),
{
    let ghost keys = text::texts(path@);
    let ghost entries = item_entries(*item);
    assert(keys.take(keys.len() as int) =~= keys);
    if path.len() == 0 {
        assert(keys =~= here());
        assert(keys.take(0) =~= here());
        replace_string(item, text);
    } else {
        let rest = vstd::slice::slice_subrange(path, 1, path.len());
        proof {
            assert(text::texts(rest@) =~= keys.drop_first());
            lemma_leads_on(entries, keys);
            assert(keys[0] == path@[0]@);
            assert(seq![keys[0]] + keys.drop_first() =~= keys);
            assert(seq![keys[0]] + here() =~= seq![keys[0]]);
            lemma_insert_under(
                entries,
                keys[0],
                keys.drop_first(),
                TomlEntry { string: Some(text@), ..entries[keys] },
            );
        }
        let next = child_mut(item, path[0].as_str());
        assert(item_entries(*next)[keys.drop_first()] == entries[keys]);
        set_string(next, rest, text);
    }
}

} // verus!
