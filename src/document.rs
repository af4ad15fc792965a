//! Nested locale documents and their flattening into dotted keys.
use vstd::prelude::*;
use crate::table::{insert_all, pairs_view, TranslationTable};

verus! {

/// A parsed locale document: a string leaf, a section of named children in the
/// order given, or a leaf of any other kind (a number, a list, ...), which
/// holds no translation.
pub enum Document {
    Text(String),
    Section(Vec<(String, Document)>),
    Other,
}

/// The key of a child named `name` of the section whose key is `prefix`:
/// `prefix.name`, or `name` alone at the top level (`None`). A section named by
/// the empty string is no top level: its children's keys begin with a dot.
pub open spec fn join_key(prefix: Option<Seq<char>>, name: Seq<char>) -> Seq<char> {
    match prefix {
        Some(p) => p + seq!['.'] + name,
        None => name,
    }
}

/// A section key held by reference, as a sequence.
pub open spec fn prefix_view(prefix: Option<&String>) -> Option<Seq<char>> {
    match prefix {
        Some(p) => Some(p@),
        None => None,
    }
}

/// The leaves under the children `items` of a section whose key is `prefix`
/// (`None` at the top level), in the order given, each with its dotted key.
pub open spec fn flatten_items(items: Seq<(String, Document)>, prefix: Option<Seq<char>>) -> Seq<(Seq<char>, Seq<char>)>
    decreases items,
{
    if items.len() == 0 {
        Seq::empty()
    } else {
        let key = join_key(prefix, items.last().0@);
        flatten_items(items.drop_last(), prefix) + match items.last().1 {
            Document::Text(s) => seq![(key, s@)],
            Document::Section(children) => flatten_items(children@, Some(key)),
            Document::Other => Seq::empty(),
        }
    }
}

/// The key of a child named `name` under `prefix`.
fn child_key(prefix: Option<&String>, name: &String) -> (r: String)
    ensures
        r@ == join_key(prefix_view(prefix), name@),
{
    match prefix {
        None => name.clone(),
        Some(prefix) => {
            let mut k = prefix.clone();
            let dot = ".";
            proof {
                reveal_strlit(".");
            }
            k.append(dot);
            k.append(name.as_str());
            k
        },
    }
}

/// Appends to `out` the leaves under `items`, as `flatten_items` lists them.
fn flatten_into(items: &Vec<(String, Document)>, prefix: Option<&String>, out: &mut Vec<(String, String)>)
    ensures
        pairs_view(final(out)@) == pairs_view(old(out)@) + flatten_items(items@, prefix_view(prefix)),
    decreases items@,
{
    let ghost start = pairs_view(out@);
    let mut i: usize = 0;
    assert(items@.subrange(0, 0) =~= Seq::<(String, Document)>::empty());
    assert(start + Seq::<(Seq<char>, Seq<char>)>::empty() =~= start);
    while i < items.len()
        invariant
            i <= items@.len(),
            pairs_view(out@) == start + flatten_items(items@.subrange(0, i as int), prefix_view(prefix)),
        decreases items@.len() - i,
    {
        let ghost before = pairs_view(out@);
        let key = child_key(prefix, &items[i].0);
        let ghost keyv = key@;
        match &items[i].1 {
            Document::Text(s) => {
                out.push((key, s.clone()));
                assert(pairs_view(out@) =~= before + seq![(keyv, s@)]);
            },
            Document::Section(children) => {
                assert(decreases_to!(items@ => items@[i as int]));
                flatten_into(children, Some(&key), out);
            },
            Document::Other => {
                assert(pairs_view(out@) =~= before + Seq::<(Seq<char>, Seq<char>)>::empty());
            },
        }
        let ghost sub = items@.subrange(0, i + 1);
        assert(sub.drop_last() =~= items@.subrange(0, i as int));
        assert(sub.last() == items@[i as int]);
        i = i + 1;
        assert(pairs_view(out@) =~= start + flatten_items(items@.subrange(0, i as int), prefix_view(prefix)));
    }
    assert(items@.subrange(0, i as int) =~= items@);
}

/// The table of a locale file whose document is `doc`: its leaves under their
/// dotted keys, a later leaf overwriting an earlier one with the same key;
/// leaves that are neither strings nor sections are left out. A document that
/// is not a section at its top is no locale file: `None`.
pub fn flatten_document(doc: &Document) -> (r: Option<TranslationTable>)
    ensures
        match doc {
            Document::Text(_) | Document::Other => r is None,
            Document::Section(items) => r matches Some(t)
                && t@ == insert_all(Map::empty(), flatten_items(items@, None)),
        },
{
    match doc {
        Document::Text(_) | Document::Other => None,
        Document::Section(items) => {
            let mut out: Vec<(String, String)> = Vec::new();
            flatten_into(items, None, &mut out);
            assert(pairs_view(out@) =~= flatten_items(items@, None));
            Some(TranslationTable::from_pairs(out))
        },
    }
}

} // verus!
