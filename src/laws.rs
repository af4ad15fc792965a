//! Properties of the store that relate several operations.
use vstd::prelude::*;
use crate::store::{tables_view, TranslationStore};
use crate::template::lemma_fill_no_params;
use crate::table::{insert_all, has_key, lemma_insert_all_contains, lemma_insert_all_last, TranslationTable};

verus! {

/// A key that the current locale's table lacks and the fallback table holds
/// translates, with no parameters, to the fallback table's value.
pub proof fn law_fallback_value(store: &TranslationStore, key: Seq<char>)
    requires
        store.wf(),
        !store.catalog()[store.current()].contains_key(key),
        store.catalog()[store.fallback()].contains_key(key),
    ensures
        store.translation(key, None, Seq::empty()) == store.catalog()[store.fallback()][key],
{
    store.lemma_locales_registered();
    lemma_fill_no_params(store.catalog()[store.fallback()][key]);
}

/// A key that neither the current nor the fallback table holds translates, with
/// no parameters, to itself.
pub proof fn law_missing_key_is_literal(store: &TranslationStore, key: Seq<char>)
    requires
        store.wf(),
        !store.catalog()[store.current()].contains_key(key),
        !store.catalog()[store.fallback()].contains_key(key),
    ensures
        store.translation(key, None, Seq::empty()) == key,
{
    store.lemma_locales_registered();
    lemma_fill_no_params(key);
}

/// After tables are loaded into a catalog, the locales with a table are exactly
/// those the catalog had before together with those of the loaded tables.
pub proof fn law_loaded_locales(
    catalog: Map<Seq<char>, Map<Seq<char>, Seq<char>>>,
    tables: Seq<(String, TranslationTable)>,
)
    ensures
        insert_all(catalog, tables_view(tables)).dom()
            == catalog.dom() + tables.map_values(|e: (String, TranslationTable)| e.0@).to_set(),
{
    let tv = tables_view(tables);
    let ids = tables.map_values(|e: (String, TranslationTable)| e.0@);
    assert forall|k: Seq<char>| #[trigger] insert_all(catalog, tv).dom().contains(k)
        == (catalog.dom() + ids.to_set()).contains(k) by {
        lemma_insert_all_contains(catalog, tv, k);
        if has_key(tv, k) {
            let j = choose|j: int| 0 <= j < tv.len() && #[trigger] tv[j].0 == k;
            assert(ids[j] == k);
        }
        if ids.contains(k) {
            let j = choose|j: int| 0 <= j < ids.len() && ids[j] == k;
            assert(tv[j].0 == k);
        }
    }
    assert(insert_all(catalog, tv).dom() =~= catalog.dom() + ids.to_set());
}

/// A load replaces a locale's table as a whole: afterwards the locale's table is
/// exactly the last loaded table for it, with nothing kept from the one before.
pub proof fn law_reload_replaces_whole_table(
    catalog: Map<Seq<char>, Map<Seq<char>, Seq<char>>>,
    tables: Seq<(String, TranslationTable)>,
    j: int,
)
    requires
        0 <= j < tables.len(),
        forall|i: int| j < i < tables.len() ==> tables[i].0@ != tables[j].0@,
    ensures
        insert_all(catalog, tables_view(tables)).contains_key(tables[j].0@),
        insert_all(catalog, tables_view(tables))[tables[j].0@] == tables[j].1@,
{
    let tv = tables_view(tables);
    assert forall|i: int| j < i < tv.len() implies tv[i].0 != tv[j].0 by {
        assert(tables[i].0@ != tables[j].0@);
    }
    lemma_insert_all_last(catalog, tv, tables[j].0@, j);
}

} // verus!
