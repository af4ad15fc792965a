//! The translation store: a catalog of per-locale tables, the current locale and
//! the fallback locale.
//!
//! Locale files are flattened into dotted keys once, at load time, so a lookup is
//! a scan of one flat table instead of a walk down a nested document. A reload
//! replaces each locale's table as a whole, never key by key, so a reader sees
//! either the old table or the new one.
use vstd::prelude::*;
use crate::table::{insert_all, has_key, keys_distinct, lemma_insert_all_contains,
    lemma_insert_all_push, lemma_insert_all_update, lemma_insert_all_last, TranslationTable};
use crate::template::{fill, substitute_params};

verus! {

/// Why a locale switch was refused.
#[derive(Debug, Clone, Copy, PartialEq, Eq, Structural)]
pub enum LocaleError {
    /// The requested locale has no table in the catalog.
    UnknownLocale,
}

/// Why a load reported failure.
#[derive(Debug, Clone, Copy, PartialEq, Eq, Structural)]
pub enum LoadError {
    /// The directory could not be opened or listed.
    DirectoryUnreadable,
    /// The directory held files, and none of them parsed.
    NothingParsed,
}

/// The mapping from locale identifier to table that a list of loaded tables
/// stands for, as character sequences.
pub open spec fn tables_view(s: Seq<(String, TranslationTable)>) -> Seq<(Seq<char>, Map<Seq<char>, Seq<char>>)> {
    s.map_values(|e: (String, TranslationTable)| (e.0@, e.1@))
}

/// The locale identifiers of a list of loaded tables.
pub open spec fn table_ids(s: Seq<(String, TranslationTable)>) -> Seq<Seq<char>> {
    s.map_values(|e: (String, TranslationTable)| e.0@)
}

/// The number of distinct locale identifiers among `tables`.
fn count_locales(tables: &Vec<(String, TranslationTable)>) -> (r: usize)
    ensures
        r == table_ids(tables@).to_set().len(),
{
    broadcast use vstd::seq_lib::seq_to_set_is_finite, vstd::set::axiom_set_insert_len;
    let ghost ids = table_ids(tables@);
    let mut count: usize = 0;
    let mut i: usize = 0;
    assert(ids.subrange(0, 0).to_set() =~= Set::<Seq<char>>::empty());
    while i < tables.len()
        invariant
            i <= tables@.len(),
            ids == table_ids(tables@),
            count == ids.subrange(0, i as int).to_set().len(),
            count <= i,
        decreases tables@.len() - i,
    {
        let mut seen = false;
        let mut j: usize = 0;
        while j < i
            invariant
                j <= i < tables@.len(),
                ids == table_ids(tables@),
                seen == exists|k: int| 0 <= k < j && ids[k] == ids[i as int],
            decreases i - j,
        {
            let same = tables[j].0 == tables[i].0;
            assert(same == (ids[j as int] == ids[i as int]));
            if same {
                seen = true;
            }
            j = j + 1;
            assert(seen == exists|k: int| 0 <= k < j && ids[k] == ids[i as int]) by {
                if seen && !same {
                    let k = choose|k: int| 0 <= k < j - 1 && ids[k] == ids[i as int];
                }
                if !seen {
                    assert forall|k: int| 0 <= k < j implies ids[k] != ids[i as int] by {}
                }
            }
        }
        let ghost pre = ids.subrange(0, i as int);
        let ghost full = ids.subrange(0, i + 1);
        assert(full.to_set() =~= pre.to_set().insert(ids[i as int])) by {
            assert forall|x: Seq<char>| full.contains(x) <==> pre.contains(x) || x == ids[i as int] by {
                if full.contains(x) {
                    let k = choose|k: int| 0 <= k < full.len() && #[trigger] full[k] == x;
                    if k < i {
                        assert(pre[k] == x);
                    }
                }
                if pre.contains(x) {
                    let k = choose|k: int| 0 <= k < pre.len() && #[trigger] pre[k] == x;
                    assert(full[k] == x);
                }
                if x == ids[i as int] {
                    assert(full[i as int] == x);
                }
            }
        }
        assert(pre.to_set().contains(ids[i as int]) == seen) by {
            if seen {
                let k = choose|k: int| 0 <= k < i && ids[k] == ids[i as int];
                assert(pre[k] == ids[i as int]);
            }
            if pre.contains(ids[i as int]) {
                let k = choose|k: int| 0 <= k < i && pre[k] == ids[i as int];
                assert(ids[k] == ids[i as int]);
            }
        }
        if !seen {
            count = count + 1;
        }
        i = i + 1;
    }
    assert(ids.subrange(0, i as int) =~= ids);
    count
}

/// The template that `key` resolves to: the value in the table of `locale` (or of
/// `current` where no locale is asked for), else the value in the fallback
/// table, else the key itself.
pub open spec fn resolve(
    catalog: Map<Seq<char>, Map<Seq<char>, Seq<char>>>,
    current: Seq<char>,
    fallback: Seq<char>,
    key: Seq<char>,
    locale: Option<Seq<char>>,
) -> Seq<char> {
    let wanted = match locale {
        Some(l) => l,
        None => current,
    };
    if catalog.contains_key(wanted) && catalog[wanted].contains_key(key) {
        catalog[wanted][key]
    } else if catalog.contains_key(fallback) && catalog[fallback].contains_key(key) {
        catalog[fallback][key]
    } else {
        key
    }
}

/// The catalog after `locale`'s table, or an empty one where it has none, gets
/// `key` set to `value`.
pub open spec fn with_translation(
    catalog: Map<Seq<char>, Map<Seq<char>, Seq<char>>>,
    locale: Seq<char>,
    key: Seq<char>,
    value: Seq<char>,
) -> Map<Seq<char>, Map<Seq<char>, Seq<char>>> {
    catalog.insert(
        locale,
        if catalog.contains_key(locale) {
            catalog[locale]
        } else {
            Map::empty()
        }.insert(key, value),
    )
}

/// The catalog after the `(locale, key, value)` triples are set in order.
pub open spec fn with_translations(
    catalog: Map<Seq<char>, Map<Seq<char>, Seq<char>>>,
    triples: Seq<(Seq<char>, Seq<char>, Seq<char>)>,
) -> Map<Seq<char>, Map<Seq<char>, Seq<char>>>
    decreases triples.len(),
{
    if triples.len() == 0 {
        catalog
    } else {
        let t = triples.last();
        with_translation(with_translations(catalog, triples.drop_last()), t.0, t.1, t.2)
    }
}

/// The store shared by every operation of the host.
pub struct TranslationStore {
    catalog: Vec<(String, TranslationTable)>,
    current_locale: String,
    fallback_locale: String,
    source_path: Option<String>,
}

impl TranslationStore {
    /// Each locale identifier and its table.
    pub closed spec fn catalog(&self) -> Map<Seq<char>, Map<Seq<char>, Seq<char>>> {
        insert_all(Map::empty(), tables_view(self.catalog@))
    }

    /// The locale that lookups use when none is asked for.
    pub closed spec fn current(&self) -> Seq<char> {
        self.current_locale@
    }

    /// The locale consulted when a key is missing, fixed at construction.
    pub closed spec fn fallback(&self) -> Seq<char> {
        self.fallback_locale@
    }

    /// The directory the catalog was last loaded from; `None` while nothing was
    /// loaded from disk.
    pub closed spec fn source(&self) -> Option<Seq<char>> {
        match self.source_path {
            Some(p) => Some(p@),
            None => None,
        }
    }

    /// Well-formedness: one entry per locale, and the current and fallback
    /// locales both have a table.
    pub closed spec fn wf(&self) -> bool {
        &&& keys_distinct(tables_view(self.catalog@))
        &&& self.catalog().contains_key(self.current())
        &&& self.catalog().contains_key(self.fallback())
    }

    /// A well-formed store has a table for its current and its fallback locale.
    pub proof fn lemma_locales_registered(&self)
        requires
            self.wf(),
        ensures
            self.catalog().contains_key(self.current()),
            self.catalog().contains_key(self.fallback()),
    {
    }

    /// What `translate` returns.
    pub open spec fn translation(
        &self,
        key: Seq<char>,
        locale: Option<Seq<char>>,
        params: Seq<(Seq<char>, Seq<char>)>,
    ) -> Seq<char> {
        fill(resolve(self.catalog(), self.current(), self.fallback(), key, locale), params)
    }

    /// A store whose current and fallback locale is `default_locale`, with an
    /// empty table registered for it.
    pub fn new(default_locale: String) -> (r: TranslationStore)
        ensures
            r.wf(),
            r.current() == default_locale@,
            r.fallback() == default_locale@,
            r.catalog() == map![default_locale@ => Map::<Seq<char>, Seq<char>>::empty()],
            r.source() is None,
    {
        let current_locale = default_locale.clone();
        let fallback_locale = default_locale.clone();
        let mut catalog: Vec<(String, TranslationTable)> = Vec::new();
        catalog.push((default_locale, TranslationTable::new()));
        let r = TranslationStore { catalog, current_locale, fallback_locale, source_path: None };
        proof {
            let tv = tables_view(r.catalog@);
            assert(tv =~= Seq::<(Seq<char>, Map<Seq<char>, Seq<char>>)>::empty().push(tv[0]));
            lemma_insert_all_push(Map::empty(), Seq::empty(), tv[0]);
            assert(r.catalog() =~= map![current_locale@ => Map::<Seq<char>, Seq<char>>::empty()]);
        }
        r
    }

    /// The position of the entry for `id`, if there is one.
    fn find(&self, id: &String) -> (r: Option<usize>)
        requires
            self.wf(),
        ensures
            match r {
                Some(i) => i < self.catalog@.len() && self.catalog@[i as int].0@ == id@
                    && self.catalog().contains_key(id@)
                    && self.catalog()[id@] == self.catalog@[i as int].1@,
                None => !self.catalog().contains_key(id@),
            },
    {
        let ghost tv = tables_view(self.catalog@);
        let mut i: usize = 0;
        while i < self.catalog.len()
            invariant
                i <= self.catalog@.len(),
                tv == tables_view(self.catalog@),
                keys_distinct(tv),
                forall|j: int| 0 <= j < i ==> tv[j].0 != id@,
            decreases self.catalog@.len() - i,
        {
            if self.catalog[i].0 == *id {
                proof {
                    assert forall|j: int| i < j < tv.len() implies tv[j].0 != id@ by {
                        assert(tv[i as int].0 == id@);
                        assert(tv[j].0 != tv[i as int].0);
                    }
                    lemma_insert_all_last(Map::empty(), tv, id@, i as int);
                }
                return Some(i);
            }
            i = i + 1;
        }
        proof {
            lemma_insert_all_contains(Map::empty(), tv, id@);
            if has_key(tv, id@) {
                let j = choose|j: int| 0 <= j < tv.len() && #[trigger] tv[j].0 == id@;
            }
        }
        None
    }

    /// Puts `table` in as the whole table of `id`, replacing any earlier one.
    pub fn set_table(&mut self, id: String, table: TranslationTable)
        requires
            old(self).wf(),
        ensures
            final(self).wf(),
            final(self).catalog() == old(self).catalog().insert(id@, table@),
            final(self).current() == old(self).current(),
            final(self).fallback() == old(self).fallback(),
            final(self).source() == old(self).source(),
    {
        let ghost tv = tables_view(self.catalog@);
        let ghost tvw = table@;
        match self.find(&id) {
            Some(i) => {
                self.catalog.set(i, (id, table));
                proof {
                    assert(tables_view(self.catalog@) =~= tv.update(i as int, (tv[i as int].0, tvw)));
                    lemma_insert_all_update(tv, i as int, tvw);
                    assert(keys_distinct(tables_view(self.catalog@)));
                }
            },
            None => {
                let ghost idv = id@;
                self.catalog.push((id, table));
                proof {
                    let nv = tables_view(self.catalog@);
                    assert(nv =~= tv.push((idv, tvw)));
                    lemma_insert_all_push(Map::empty(), tv, (idv, tvw));
                    lemma_insert_all_contains(Map::empty(), tv, idv);
                    assert forall|a: int, b: int| 0 <= a < nv.len() && 0 <= b < nv.len() && a != b
                        implies nv[a].0 != nv[b].0 by {
                        if b == tv.len() && a < tv.len() {
                            assert(tv[a].0 == nv[a].0);
                        }
                        if a == tv.len() && b < tv.len() {
                            assert(tv[b].0 == nv[b].0);
                        }
                    }
                }
            },
        }
    }

    /// Sets `key` to `value` in the table of `locale`, registering an empty table
    /// for `locale` first where it has none. Seeds the catalog with built-in
    /// translations before any load.
    pub fn insert_translation(&mut self, locale: String, key: String, value: String)
        requires
            old(self).wf(),
        ensures
            final(self).wf(),
            final(self).catalog() == with_translation(old(self).catalog(), locale@, key@, value@),
            final(self).current() == old(self).current(),
            final(self).fallback() == old(self).fallback(),
            final(self).source() == old(self).source(),
    {
        match self.find(&locale) {
            Some(i) => {
                let ghost tv = tables_view(self.catalog@);
                let (id, mut table) = self.catalog.remove(i);
                table.insert(key, value);
                let ghost tw = table@;
                self.catalog.insert(i, (id, table));
                proof {
                    assert(tables_view(self.catalog@) =~= tv.update(i as int, (tv[i as int].0, tw)));
                    lemma_insert_all_update(tv, i as int, tw);
                    assert(keys_distinct(tables_view(self.catalog@)));
                }
            },
            None => {
                let mut table = TranslationTable::new();
                table.insert(key, value);
                self.set_table(locale, table);
            },
        }
    }

    /// The template string for `key`: from the table of `locale`, or of the
    /// current locale where `locale` is `None`; else from the fallback table; else
    /// the key itself. Its placeholders are then filled from `params` in one
    /// pass (see `fill`): `{name}` becomes the value of a pair named `name`, for
    /// any name; where placeholders of several names start at one place the
    /// longest name wins, and of pairs with one name the first. Inserted values
    /// are not read again, and placeholders without a pair stay as they are.
    /// Never fails.
    pub fn translate(&self, key: &String, locale: Option<&String>, params: &Vec<(String, String)>) -> (r: String)
        requires
            self.wf(),
        ensures
            r@ == self.translation(
                key@,
                match locale {
                    Some(l) => Some(l@),
                    None => None,
                },
                params@.map_values(|p: (String, String)| (p.0@, p.1@)),
            ),
    {
        let wanted: &String = match locale {
            Some(l) => l,
            None => &self.current_locale,
        };
        let mut template: Option<&String> = None;
        if let Some(i) = self.find(wanted) {
            template = self.catalog[i].1.get(key);
        }
        if template.is_none() {
            if let Some(i) = self.find(&self.fallback_locale) {
                template = self.catalog[i].1.get(key);
            }
        }
        match template {
            Some(t) => substitute_params(t.as_str(), params),
            None => substitute_params(key.as_str(), params),
        }
    }

    /// Makes `id` the current locale. Fails, leaving the store as it was, when
    /// the catalog has no table for `id`.
    pub fn set_locale(&mut self, id: String) -> (r: Result<(), LocaleError>)
        requires
            old(self).wf(),
        ensures
            final(self).wf(),
            final(self).catalog() == old(self).catalog(),
            final(self).fallback() == old(self).fallback(),
            final(self).source() == old(self).source(),
            old(self).catalog().contains_key(id@) ==> r == Ok::<(), LocaleError>(()) && final(self).current() == id@,
            !old(self).catalog().contains_key(id@) ==> r == Err::<(), LocaleError>(LocaleError::UnknownLocale)
                && final(self).current() == old(self).current(),
    {
        match self.find(&id) {
            Some(_) => {
                self.current_locale = id;
                Ok(())
            },
            None => Err(LocaleError::UnknownLocale),
        }
    }

    /// The current locale.
    pub fn get_locale(&self) -> (r: String)
        ensures
            r@ == self.current(),
    {
        self.current_locale.clone()
    }

    /// The directory the catalog was last loaded from.
    pub fn get_source_path(&self) -> (r: Option<String>)
        ensures
            match r {
                Some(p) => self.source() == Some(p@),
                None => self.source() is None,
            },
    {
        match &self.source_path {
            Some(p) => Some(p.clone()),
            None => None,
        }
    }

    /// The fallback locale.
    pub fn get_fallback_locale(&self) -> (r: String)
        ensures
            r@ == self.fallback(),
    {
        self.fallback_locale.clone()
    }

    /// Every locale that has a table, each once, in no promised order.
    pub fn get_available_locales(&self) -> (r: Vec<String>)
        requires
            self.wf(),
        ensures
            r@.map_values(|s: String| s@).to_set() == self.catalog().dom(),
            r@.map_values(|s: String| s@).no_duplicates(),
    {
        let ghost tv = tables_view(self.catalog@);
        let mut r: Vec<String> = Vec::new();
        let mut i: usize = 0;
        while i < self.catalog.len()
            invariant
                i <= self.catalog@.len(),
                tv == tables_view(self.catalog@),
                r@.len() == i,
                forall|j: int| 0 <= j < i ==> #[trigger] r@[j]@ == tv[j].0,
            decreases self.catalog@.len() - i,
        {
            r.push(self.catalog[i].0.clone());
            i = i + 1;
        }
        proof {
            let rv = r@.map_values(|s: String| s@);
            assert(rv =~= tv.map_values(|e: (Seq<char>, Map<Seq<char>, Seq<char>>)| e.0));
            assert forall|k: Seq<char>| rv.to_set().contains(k) == self.catalog().dom().contains(k) by {
                lemma_insert_all_contains(Map::empty(), tv, k);
                if has_key(tv, k) {
                    let j = choose|j: int| 0 <= j < tv.len() && #[trigger] tv[j].0 == k;
                    assert(rv[j] == k);
                }
                if rv.contains(k) {
                    let j = choose|j: int| 0 <= j < rv.len() && rv[j] == k;
                    assert(tv[j].0 == k);
                }
            }
            assert(rv.to_set() =~= self.catalog().dom());
            assert forall|a: int, b: int| 0 <= a < rv.len() && 0 <= b < rv.len() && a != b implies rv[a] != rv[b] by {
                assert(tv[a].0 != tv[b].0);
            }
        }
        r
    }

    /// Installs the tables that a load parsed from the directory `dir`, in order,
    /// each replacing the whole earlier table of its locale; `files_seen` is the
    /// number of locale files the directory held. A directory that held files of
    /// which none parsed is refused, leaving the store as it was; otherwise the
    /// result is the number of distinct locales installed and `dir` becomes the
    /// store's source. The current locale never changes.
    pub fn commit_load(&mut self, dir: String, tables: Vec<(String, TranslationTable)>, files_seen: usize) -> (r: Result<usize, LoadError>)
        requires
            old(self).wf(),
        ensures
            final(self).wf(),
            final(self).current() == old(self).current(),
            final(self).fallback() == old(self).fallback(),
            files_seen > 0 && tables@.len() == 0 ==> r == Err::<usize, LoadError>(LoadError::NothingParsed)
                && final(self).catalog() == old(self).catalog()
                && final(self).source() == old(self).source(),
            !(files_seen > 0 && tables@.len() == 0) ==> r == Ok::<usize, LoadError>(table_ids(tables@).to_set().len() as usize)
                && final(self).catalog() == insert_all(old(self).catalog(), tables_view(tables@))
                && final(self).source() == Some(dir@),
    {
        if files_seen > 0 && tables.len() == 0 {
            return Err(LoadError::NothingParsed);
        }
        let count = count_locales(&tables);
        let n = tables.len();
        let ghost tv = tables_view(tables@);
        let ghost before = self.catalog();
        let mut rest = tables;
        let mut done: usize = 0;
        assert(tv.subrange(0, 0) =~= Seq::<(Seq<char>, Map<Seq<char>, Seq<char>>)>::empty());
        while rest.len() > 0
            invariant
                self.wf(),
                self.current() == old(self).current(),
                self.fallback() == old(self).fallback(),
                self.source() == old(self).source(),
                done <= n,
                n == tv.len(),
                tables_view(rest@) == tv.subrange(done as int, n as int),
                self.catalog() == insert_all(before, tv.subrange(0, done as int)),
            decreases rest@.len(),
        {
            let ghost rv = tables_view(rest@);
            let (id, table) = rest.remove(0);
            assert(rv[0] == (id@, table@));
            assert(tables_view(rest@) =~= rv.subrange(1, rv.len() as int));
            self.set_table(id, table);
            assert(tv.subrange(0, done + 1).drop_last() =~= tv.subrange(0, done as int));
            done = done + 1;
        }
        assert(tv.subrange(0, n as int) =~= tv);
        self.source_path = Some(dir);
        Ok(count)
    }

    /// Seeds the catalog with built-in `(locale, key, value)` triples, set in
    /// order; a locale met for the first time gets a table of its own.
    pub fn seed(&mut self, triples: Vec<(String, String, String)>)
        requires
            old(self).wf(),
        ensures
            final(self).wf(),
            final(self).catalog() == with_translations(
                old(self).catalog(),
                triples@.map_values(|t: (String, String, String)| (t.0@, t.1@, t.2@)),
            ),
            final(self).current() == old(self).current(),
            final(self).fallback() == old(self).fallback(),
            final(self).source() == old(self).source(),
    {
        let ghost tv = triples@.map_values(|t: (String, String, String)| (t.0@, t.1@, t.2@));
        let ghost before = self.catalog();
        let n = triples.len();
        let mut rest = triples;
        let mut done: usize = 0;
        assert(tv.subrange(0, 0) =~= Seq::<(Seq<char>, Seq<char>, Seq<char>)>::empty());
        while rest.len() > 0
            invariant
                self.wf(),
                self.current() == old(self).current(),
                self.fallback() == old(self).fallback(),
                self.source() == old(self).source(),
                done <= n,
                n == tv.len(),
                rest@.map_values(|t: (String, String, String)| (t.0@, t.1@, t.2@)) == tv.subrange(done as int, n as int),
                self.catalog() == with_translations(before, tv.subrange(0, done as int)),
            decreases rest@.len(),
        {
            let ghost rv = rest@.map_values(|t: (String, String, String)| (t.0@, t.1@, t.2@));
            let (locale, key, value) = rest.remove(0);
            assert(rv[0] == (locale@, key@, value@));
            assert(rest@.map_values(|t: (String, String, String)| (t.0@, t.1@, t.2@)) =~= rv.subrange(1, rv.len() as int));
            self.insert_translation(locale, key, value);
            assert(tv.subrange(0, done + 1).drop_last() =~= tv.subrange(0, done as int));
            done = done + 1;
        }
        assert(tv.subrange(0, n as int) =~= tv);
    }
}

} // verus!
