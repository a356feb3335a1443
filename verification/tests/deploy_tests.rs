use dot::bytes::{bytes_eq, ends_with, trim_bytes};
use dot::deploy::persist_payload;
use dot::docfmt::{load_store, parse_store, serialize_store};
use dot::mirror::{plan_entry, template_suffix, Action, EntryKind};
use dot::template::{close_marker, missing_from, open_marker, render_if_resolved, Template};
use dot::vars::VarStore;
use dot::Config;

fn bv(s: &str) -> Vec<u8> {
    s.as_bytes().to_vec()
}

fn parse(text: &str) -> Option<Template> {
    Template::parse(&bv(text), &open_marker(), &close_marker())
}

#[test]
fn default_config_does_not_auto_deploy() {
    let c = Config::default();
    assert!(!c.auto_deploy);
}

#[test]
fn template_with_one_variable_renders_scenario_a() {
    let t = parse("port=(<|[PORT]|>)").expect("template should parse");
    let names = t.variable_names();
    assert_eq!(names, vec![bv("PORT")]);
    let mut st = VarStore::new();
    st.set(&bv("PORT"), &bv("8080"));
    let out = t.render(&st);
    assert_eq!(out, bv("port=8080"));
}

#[test]
fn template_without_variables_renders_itself() {
    let t = parse("hello").expect("plain text should parse");
    assert!(t.variable_names().is_empty());
    let st = VarStore::new();
    assert_eq!(t.render(&st), bv("hello"));
}

#[test]
fn unbalanced_delimiter_fails_to_parse() {
    assert!(parse("port=(<|[PORT").is_none());
}

#[test]
fn empty_variable_name_fails_to_parse() {
    assert!(parse("x(<|[]|>)y").is_none());
}

#[test]
fn variable_name_with_space_fails_to_parse() {
    assert!(parse("x(<|[A B]|>)y").is_none());
}

#[test]
fn repeated_variable_listed_once() {
    let t = parse("(<|[A]|>)-(<|[B]|>)-(<|[A]|>)").expect("should parse");
    assert_eq!(t.variable_names(), vec![bv("A"), bv("B")]);
    let mut st = VarStore::new();
    st.set(&bv("A"), &bv("1"));
    st.set(&bv("B"), &bv("2"));
    assert_eq!(t.render(&st), bv("1-2-1"));
}

#[test]
fn stored_variable_is_never_missing() {
    let t = parse("(<|[PORT]|>)/(<|[HOST]|>)/(<|[PORT]|>)").expect("should parse");
    let mut st = VarStore::new();
    st.set(&bv("PORT"), &bv("8080"));
    let missing = missing_from(&t, &st);
    assert_eq!(missing, vec![bv("HOST")]);
}

#[test]
fn fully_stored_template_has_nothing_missing_scenario_b() {
    let t = parse("port=(<|[PORT]|>)").expect("should parse");
    let mut st = VarStore::new();
    st.set(&bv("PORT"), &bv("8080"));
    assert!(missing_from(&t, &st).is_empty());
    assert_eq!(t.render(&st), bv("port=8080"));
}

#[test]
fn rendering_is_owed_exactly_when_nothing_is_missing() {
    let t = parse("port=(<|[PORT]|>)").expect("should parse");
    let mut st = VarStore::new();
    assert!(render_if_resolved(&t, &st).is_none());
    st.set(&bv("PORT"), &bv("8080"));
    assert_eq!(render_if_resolved(&t, &st), Some(bv("port=8080")));
}

#[test]
fn answers_are_trimmed_before_storage() {
    let mut st = VarStore::new();
    st.record_answer(&bv("PORT"), &bv("  8080\n"));
    assert_eq!(st.get(&bv("PORT")), Some(bv("8080")));
}

#[test]
fn store_reuses_set_values() {
    let mut st = VarStore::new();
    assert!(!st.has(&bv("A")));
    assert_eq!(st.get(&bv("A")), None);
    st.set(&bv("A"), &bv("1"));
    assert!(st.has(&bv("A")));
    assert_eq!(st.get(&bv("A")), Some(bv("1")));
    st.set(&bv("A"), &bv("2"));
    assert_eq!(st.get(&bv("A")), Some(bv("2")));
    assert_eq!(st.len(), 1);
}

#[test]
fn serialized_document_is_stable_scenario_a() {
    let mut st = VarStore::new();
    st.set(&bv("PORT"), &bv("8080"));
    assert_eq!(serialize_store(&st), bv("PORT = \"8080\"\n"));
}

#[test]
fn document_round_trips_with_escapes() {
    let mut st = VarStore::new();
    st.set(&bv("A"), &bv("line1\nline2"));
    st.set(&bv("B"), &bv("quote \" and back \\ slash"));
    let doc = serialize_store(&st);
    let back = parse_store(&doc).expect("serialized document should parse");
    assert_eq!(back.get(&bv("A")), Some(bv("line1\nline2")));
    assert_eq!(back.get(&bv("B")), Some(bv("quote \" and back \\ slash")));
    assert_eq!(back.len(), 2);
}

#[test]
fn escaped_document_has_exact_bytes() {
    let mut st = VarStore::new();
    st.set(&bv("A"), &bv("x\"y\\z\nw"));
    assert_eq!(serialize_store(&st), bv("A = \"x\\\"y\\\\z\\nw\"\n"));
}

#[test]
fn raw_newline_or_bad_escape_in_value_is_malformed() {
    assert!(parse_store(&bv("A = \"one\ntwo\"\n")).is_none());
    assert!(parse_store(&bv("A = \"bad\\escape\"\n")).is_none());
}

#[test]
fn malformed_document_loads_as_empty() {
    assert_eq!(load_store(&bv("not a document")).len(), 0);
    assert_eq!(load_store(&bv("A = \"unterminated")).len(), 0);
    assert_eq!(load_store(&bv("A = \"1\"\nA = \"2\"\n")).len(), 0);
    assert_eq!(load_store(&bv("")).len(), 0);
}

#[test]
fn well_formed_document_loads_fully() {
    let st = load_store(&bv("PORT = \"8080\"\nHOST = \"example\"\n"));
    assert_eq!(st.get(&bv("PORT")), Some(bv("8080")));
    assert_eq!(st.get(&bv("HOST")), Some(bv("example")));
}

#[test]
fn unchanged_store_is_not_persisted() {
    let mut original = VarStore::new();
    original.set(&bv("PORT"), &bv("8080"));
    let current = original.duplicate();
    assert!(persist_payload(&original, &current).is_none());
}

#[test]
fn changed_store_is_persisted() {
    let original = VarStore::new();
    let mut current = original.duplicate();
    current.set(&bv("PORT"), &bv("8080"));
    let payload = persist_payload(&original, &current).expect("changed store must be written");
    assert_eq!(payload, bv("PORT = \"8080\"\n"));
}

#[test]
fn directory_entry_is_mirrored_scenario_c() {
    match plan_entry(&bv("empty"), EntryKind::Directory) {
        Action::MakeDir(d) => assert_eq!(d, bv("empty")),
        _ => panic!("a directory must be mirrored as a directory"),
    }
}

#[test]
fn plain_file_is_copied_to_same_relative_path() {
    match plan_entry(&bv("a.txt"), EntryKind::File) {
        Action::CopyFile(d) => assert_eq!(d, bv("a.txt")),
        _ => panic!("a plain file must be byte-copied"),
    }
}

#[test]
fn template_file_loses_suffix() {
    match plan_entry(&bv("b.conf.tielpmet"), EntryKind::File) {
        Action::RenderTemplate(d) => assert_eq!(d, bv("b.conf")),
        _ => panic!("a template file must be rendered"),
    }
}

#[test]
fn template_suffix_only_marks_files_not_directories() {
    match plan_entry(&bv("dir.tielpmet"), EntryKind::Directory) {
        Action::MakeDir(d) => assert_eq!(d, bv("dir.tielpmet")),
        _ => panic!("a directory is never treated as a template"),
    }
}

#[test]
fn root_and_special_entries_are_skipped() {
    assert!(matches!(plan_entry(&bv(""), EntryKind::File), Action::Skip));
    assert!(matches!(plan_entry(&bv("link"), EntryKind::Other), Action::Skip));
}

#[test]
fn suffix_and_byte_helpers_behave() {
    let suffix = template_suffix();
    assert_eq!(suffix, bv(".tielpmet"));
    assert!(ends_with(&bv("b.conf.tielpmet"), &suffix));
    assert!(!ends_with(&bv("b.conf"), &suffix));
    assert!(bytes_eq(&bv("abc"), &bv("abc")));
    assert!(!bytes_eq(&bv("abc"), &bv("abd")));
    assert_eq!(trim_bytes(&bv("\t x \r\n")), bv("x"));
    assert_eq!(trim_bytes(&bv("   ")), bv(""));
}

#[test]
fn second_run_renders_identical_bytes() {
    // First run: PORT is missing, the operator answers, the store is
    // persisted. Second run: the persisted store resolves everything, so
    // nothing is prompted and the rendered bytes are identical.
    let t = parse("port=(<|[PORT]|>)").expect("should parse");
    let mut store = VarStore::new();
    let missing = missing_from(&t, &store);
    assert_eq!(missing, vec![bv("PORT")]);
    for name in &missing {
        store.record_answer(name, &bv("8080\n"));
    }
    let first = t.render(&store);
    let doc = persist_payload(&VarStore::new(), &store).expect("new variable must be persisted");

    let reloaded = load_store(&doc);
    assert!(missing_from(&t, &reloaded).is_empty());
    let second = t.render(&reloaded);
    assert_eq!(first, second);
    assert!(persist_payload(&store, &reloaded).is_none());
}
