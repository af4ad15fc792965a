use i18n_store::{
    candidate_dirs, first_directory, flatten_document, locale_id_of,
    substitute_params, Document, LoadError, LocaleError, TranslationStore, TranslationTable,
};

fn s(x: &str) -> String {
    x.to_string()
}

fn no_params() -> Vec<(String, String)> {
    Vec::new()
}

fn sorted_locales(store: &TranslationStore) -> Vec<String> {
    let mut v = store.get_available_locales();
    v.sort();
    v
}

fn table(pairs: &[(&str, &str)]) -> TranslationTable {
    TranslationTable::from_pairs(pairs.iter().map(|(k, v)| (s(k), s(v))).collect())
}

#[test]
fn new_store_has_default_locale_and_empty_table() {
    let store = TranslationStore::new(s("en"));
    assert_eq!(store.get_locale(), "en");
    assert_eq!(store.get_fallback_locale(), "en");
    assert_eq!(store.get_available_locales(), vec![s("en")]);
    assert_eq!(store.translate(&s("missing.key"), None, &no_params()), "missing.key");
}

#[test]
fn missing_in_current_uses_fallback() {
    let mut store = TranslationStore::new(s("en"));
    store.insert_translation(s("en"), s("menu.file"), s("File"));
    store.insert_translation(s("es"), s("menu.edit"), s("Editar"));
    assert_eq!(store.set_locale(s("es")), Ok(()));
    assert_eq!(store.translate(&s("menu.file"), None, &no_params()), "File");
    assert_eq!(store.translate(&s("menu.edit"), None, &no_params()), "Editar");
}

#[test]
fn missing_everywhere_returns_key() {
    let mut store = TranslationStore::new(s("en"));
    store.insert_translation(s("en"), s("a"), s("A"));
    store.insert_translation(s("de"), s("b"), s("B"));
    store.set_locale(s("de")).unwrap();
    assert_eq!(store.translate(&s("x.y.z"), None, &no_params()), "x.y.z");
    assert_eq!(store.translate(&s("x.y.z"), Some(&s("nl")), &no_params()), "x.y.z");
}

#[test]
fn explicit_locale_overrides_current() {
    let mut store = TranslationStore::new(s("en"));
    store.insert_translation(s("en"), s("hi"), s("Hello"));
    store.insert_translation(s("fr"), s("hi"), s("Bonjour"));
    assert_eq!(store.translate(&s("hi"), Some(&s("fr")), &no_params()), "Bonjour");
    assert_eq!(store.translate(&s("hi"), None, &no_params()), "Hello");
    // An unknown requested locale falls back.
    assert_eq!(store.translate(&s("hi"), Some(&s("xx")), &no_params()), "Hello");
}

#[test]
fn set_unknown_locale_is_refused() {
    let mut store = TranslationStore::new(s("en"));
    assert_eq!(store.set_locale(s("es")), Err(LocaleError::UnknownLocale));
    assert_eq!(store.get_locale(), "en");
    // Case is taken literally.
    assert_eq!(store.set_locale(s("EN")), Err(LocaleError::UnknownLocale));
    assert_eq!(store.set_locale(s("en")), Ok(()));
}

#[test]
fn load_adds_loaded_locales_to_existing_ones() {
    let mut store = TranslationStore::new(s("en"));
    let tables = vec![(s("fr"), table(&[("a", "fa")])), (s("de"), table(&[("a", "da")]))];
    assert_eq!(store.commit_load(s("locales"), tables, 3), Ok(2));
    assert_eq!(sorted_locales(&store), vec![s("de"), s("en"), s("fr")]);
    assert_eq!(store.get_locale(), "en");
    assert_eq!(store.get_source_path(), Some(s("locales")));
}

#[test]
fn load_of_files_none_parsed_fails_and_keeps_store() {
    let mut store = TranslationStore::new(s("en"));
    store.insert_translation(s("en"), s("k"), s("v"));
    assert_eq!(store.commit_load(s("locales"), Vec::new(), 2), Err(LoadError::NothingParsed));
    assert_eq!(store.get_available_locales(), vec![s("en")]);
    assert_eq!(store.translate(&s("k"), None, &no_params()), "v");
    assert_eq!(store.get_source_path(), None);
}

#[test]
fn load_of_empty_directory_succeeds_with_zero() {
    let mut store = TranslationStore::new(s("en"));
    assert_eq!(store.commit_load(s("locales"), Vec::new(), 0), Ok(0));
    assert_eq!(store.get_available_locales(), vec![s("en")]);
}

#[test]
fn nested_document_round_trip() {
    let doc = Document::Section(vec![(
        s("a"),
        Document::Section(vec![(s("b"), Document::Text(s("Hello {name}")))]),
    )]);
    let t = flatten_document(&doc).unwrap();
    let mut store = TranslationStore::new(s("en"));
    assert_eq!(store.commit_load(s("locales"), vec![(s("en"), t)], 1), Ok(1));
    let params = vec![(s("name"), s("World"))];
    assert_eq!(store.translate(&s("a.b"), Some(&s("en")), &params), "Hello World");
}

#[test]
fn reload_replaces_whole_table() {
    let mut store = TranslationStore::new(s("en"));
    store.commit_load(s("locales"), vec![(s("en"), table(&[("old", "O"), ("shared", "1")]))], 1).unwrap();
    store.commit_load(s("locales"), vec![(s("en"), table(&[("sentinel", "S"), ("shared", "2")]))], 1).unwrap();
    assert_eq!(store.translate(&s("sentinel"), None, &no_params()), "S");
    assert_eq!(store.translate(&s("shared"), None, &no_params()), "2");
    assert_eq!(store.translate(&s("old"), None, &no_params()), "old");
}

#[test]
fn later_table_for_same_locale_wins_within_one_load() {
    let mut store = TranslationStore::new(s("en"));
    let tables = vec![(s("en"), table(&[("k", "first")])), (s("en"), table(&[("k", "second")]))];
    assert_eq!(store.commit_load(s("locales"), tables, 2), Ok(1));
    assert_eq!(store.translate(&s("k"), None, &no_params()), "second");
    assert_eq!(store.get_available_locales(), vec![s("en")]);
}

#[test]
fn flatten_nested_sections_to_dotted_keys() {
    let doc = Document::Section(vec![
        (
            s("menu"),
            Document::Section(vec![
                (s("file"), Document::Section(vec![(s("open"), Document::Text(s("Open")))])),
                (s("quit"), Document::Text(s("Quit"))),
            ]),
        ),
        (s("title"), Document::Text(s("App"))),
    ]);
    let t = flatten_document(&doc).unwrap();
    assert_eq!(t.get(&s("menu.file.open")), Some(&s("Open")));
    assert_eq!(t.get(&s("menu.quit")), Some(&s("Quit")));
    assert_eq!(t.get(&s("title")), Some(&s("App")));
    assert_eq!(t.get(&s("menu")), None);
    assert_eq!(t.get(&s("open")), None);
}

#[test]
fn flatten_empty_section_name_is_not_top_level() {
    let doc = Document::Section(vec![
        (s(""), Document::Section(vec![(s("a"), Document::Text(s("inner")))])),
        (s("a"), Document::Text(s("top"))),
    ]);
    let t = flatten_document(&doc).unwrap();
    assert_eq!(t.get(&s("a")), Some(&s("top")));
    assert_eq!(t.get(&s(".a")), Some(&s("inner")));
}

#[test]
fn flatten_duplicate_key_last_wins() {
    let doc = Document::Section(vec![
        (s("a"), Document::Section(vec![(s("b"), Document::Text(s("nested")))])),
        (s("a.b"), Document::Text(s("dotted"))),
    ]);
    let t = flatten_document(&doc).unwrap();
    assert_eq!(t.get(&s("a.b")), Some(&s("dotted")));
    assert!(t.has_overwritten_key());
    assert!(!table(&[("a", "1"), ("b", "2")]).has_overwritten_key());
    assert!(table(&[("a", "1"), ("b", "2"), ("a", "3")]).has_overwritten_key());
}

#[test]
fn flatten_skips_other_leaves() {
    let doc = Document::Section(vec![
        (s("n"), Document::Other),
        (s("sec"), Document::Section(vec![(s("list"), Document::Other), (s("t"), Document::Text(s("T")))])),
    ]);
    let t = flatten_document(&doc).unwrap();
    assert_eq!(t.get(&s("n")), None);
    assert_eq!(t.get(&s("sec.list")), None);
    assert_eq!(t.get(&s("sec.t")), Some(&s("T")));
}

#[test]
fn flatten_rejects_bare_string_document() {
    assert!(flatten_document(&Document::Text(s("x"))).is_none());
    assert!(flatten_document(&Document::Other).is_none());
    let empty = flatten_document(&Document::Section(Vec::new())).unwrap();
    assert!(empty.is_empty());
}

#[test]
fn table_insert_overwrites() {
    let mut t = TranslationTable::new();
    t.insert(s("k"), s("1"));
    t.insert(s("k"), s("2"));
    assert_eq!(t.get(&s("k")), Some(&s("2")));
    assert_eq!(t.get(&s("j")), None);
    assert!(!t.is_empty());
    assert!(TranslationTable::new().is_empty());
}

#[test]
fn seed_sets_triples_in_order() {
    let mut store = TranslationStore::new(s("en"));
    store.seed(vec![
        (s("en"), s("k"), s("one")),
        (s("fr"), s("k"), s("un")),
        (s("en"), s("k"), s("two")),
    ]);
    assert_eq!(sorted_locales(&store), vec![s("en"), s("fr")]);
    assert_eq!(store.translate(&s("k"), None, &no_params()), "two");
    assert_eq!(store.translate(&s("k"), Some(&s("fr")), &no_params()), "un");
}

#[test]
fn loaded_table_takes_precedence_over_seeded() {
    let mut store = TranslationStore::new(s("en"));
    store.seed(vec![(s("en"), s("k"), s("bundled")), (s("en"), s("only"), s("b"))]);
    store.commit_load(s("locales"), vec![(s("en"), table(&[("k", "disk")]))], 1).unwrap();
    assert_eq!(store.translate(&s("k"), None, &no_params()), "disk");
}

#[test]
fn unmatched_placeholders_stay() {
    let params = vec![(s("name"), s("Ann"))];
    assert_eq!(substitute_params("{greeting}, {name}!", &params), "{greeting}, Ann!");
}

#[test]
fn placeholder_replaced_everywhere() {
    let x1 = vec![(s("x"), s("1"))];
    assert_eq!(substitute_params("{x}+{x}={y}", &x1), "1+1={y}");
    assert_eq!(substitute_params("{x}{x}", &vec![(s("x"), s(""))]), "");
    assert_eq!(substitute_params("no braces", &x1), "no braces");
    assert_eq!(substitute_params("{x", &x1), "{x");
    assert_eq!(substitute_params("{{x}}", &x1), "{1}");
    assert_eq!(substitute_params("}{x}{", &x1), "}1{");
    assert_eq!(substitute_params("héllo {nom}", &vec![(s("nom"), s("Zoë"))]), "héllo Zoë");
}

#[test]
fn inserted_values_are_not_rescanned() {
    let params = vec![(s("a"), s("{b}")), (s("b"), s("B"))];
    assert_eq!(substitute_params("{a}", &params), "{b}");
    let params = vec![(s("b"), s("B")), (s("a"), s("{b}"))];
    assert_eq!(substitute_params("{a}", &params), "{b}");
    assert_eq!(substitute_params("{a} {b}", &params), "{b} B");
}

#[test]
fn names_holding_a_closing_brace_are_filled() {
    let params = vec![(s("a}b"), s("X"))];
    assert_eq!(substitute_params("{a}b}", &params), "X");
    let mut store = TranslationStore::new(s("en"));
    store.insert_translation(s("en"), s("k"), s("<{a}b}>"));
    assert_eq!(store.translate(&s("k"), None, &params), "<X>");
    assert_eq!(store.translate(&s("{a}b}"), None, &params), "X");
}

#[test]
fn longest_matching_name_wins_in_any_order() {
    let p1 = vec![(s("a"), s("1")), (s("a}b"), s("2"))];
    let p2 = vec![(s("a}b"), s("2")), (s("a"), s("1"))];
    assert_eq!(substitute_params("{a}b}", &p1), "2");
    assert_eq!(substitute_params("{a}b}", &p2), "2");
    assert_eq!(substitute_params("{a}c}", &p1), "1c}");
    assert_eq!(substitute_params("{a}c}", &p2), "1c}");
}

#[test]
fn names_with_braces_and_empty_name() {
    assert_eq!(substitute_params("{{x}}", &vec![(s("{x"), s("Y"))]), "Y}");
    assert_eq!(substitute_params("a{}b", &vec![(s(""), s("-"))]), "a-b");
}

#[test]
fn first_pair_with_a_name_wins() {
    let params = vec![(s("a"), s("1")), (s("a"), s("2"))];
    assert_eq!(substitute_params("{a}", &params), "1");
}

#[test]
fn translate_with_params_on_fallback_and_literal_key() {
    let mut store = TranslationStore::new(s("en"));
    store.insert_translation(s("en"), s("count"), s("{n} items"));
    let params = vec![(s("n"), s("3"))];
    assert_eq!(store.translate(&s("count"), None, &params), "3 items");
    assert_eq!(store.translate(&s("raw {n}"), None, &params), "raw 3");
}

#[test]
fn candidates_in_priority_order() {
    let c = candidate_dirs(Some(s("/x")), Some(s("/app/bin")), Some(s("/work")));
    assert_eq!(
        c,
        vec![
            s("/x"),
            s("/app/bin/../locales"),
            s("/app/bin/../../locales"),
            s("/app/bin/../../../../Bundle/Resources/locales"),
            s("/work/locales"),
            s("/work/src-tauri/locales"),
        ]
    );
    assert_eq!(candidate_dirs(None, None, Some(s("w"))), vec![s("w/locales"), s("w/src-tauri/locales")]);
    assert!(candidate_dirs(None, None, None).is_empty());
}

#[test]
fn first_directory_picks_first_true() {
    assert_eq!(first_directory(&vec![false, true, true]), Some(1));
    assert_eq!(first_directory(&vec![false, false]), None);
    assert_eq!(first_directory(&Vec::new()), None);
}

#[test]
fn locale_id_from_file_name() {
    assert_eq!(locale_id_of(&s("en.json"), &s("json")), Some(s("en")));
    assert_eq!(locale_id_of(&s("pt-BR.json"), &s("json")), Some(s("pt-BR")));
    assert_eq!(locale_id_of(&s("en.yaml"), &s("json")), None);
    assert_eq!(locale_id_of(&s(".json"), &s("json")), None);
    assert_eq!(locale_id_of(&s("json"), &s("json")), None);
    assert_eq!(locale_id_of(&s("enjson"), &s("json")), None);
    assert_eq!(locale_id_of(&s("a.b.json"), &s("json")), Some(s("a.b")));
}
