use job_tracker::import::import_csv_text;
use job_tracker::store::{Job, Store};
use job_tracker::text::{eq_ignore_case, split_char, trim};

fn empty_store() -> Store {
    Store { jobs: Vec::new(), last_id: 0 }
}

#[test]
fn single_row_imports_one_record() {
    let mut store = empty_store();
    let count = import_csv_text(&mut store, "Acme;Engineer;2024-01-01;CV;Rejected;Berlin");
    assert_eq!(count, Some(1));
    assert_eq!(store.jobs.len(), 1);
    assert_eq!(store.jobs[0].id, 1);
    assert_eq!(store.jobs[0].company, "Acme");
    assert_eq!(store.jobs[0].title, "Engineer");
    assert_eq!(store.jobs[0].date_submitted, "2024-01-01");
    assert_eq!(store.jobs[0].docs_used, "CV");
    assert_eq!(store.jobs[0].location, "Berlin");
    assert_eq!(store.jobs[0].final_answer.as_deref(), Some("Rejected"));
    assert_eq!(store.last_id, 1);
}

#[test]
fn short_row_is_skipped() {
    let mut store = empty_store();
    let count = import_csv_text(&mut store, "Acme;Engineer;2024-01-01;CV;Rejected");
    assert_eq!(count, Some(0));
    assert!(store.jobs.is_empty());
    assert_eq!(store.last_id, 0);
}

#[test]
fn empty_fifth_field_yields_pending_record() {
    let mut store = empty_store();
    let count = import_csv_text(&mut store, "Acme;Engineer;2024-01-01;CV;;Berlin");
    assert_eq!(count, Some(1));
    assert!(store.jobs[0].final_answer.is_none());
}

#[test]
fn reimport_adds_nothing() {
    let text = "Acme;Engineer;2024-01-01;CV;Rejected;Berlin\nGlobex;Analyst;2024-02-02;CV;;Hamburg";
    let mut store = empty_store();
    let first = import_csv_text(&mut store, text);
    assert_eq!(first, Some(2));
    let second = import_csv_text(&mut store, text);
    assert_eq!(second, Some(0));
    assert_eq!(store.jobs.len(), 2);
    assert_eq!(store.last_id, 2);
}

#[test]
fn dedup_is_case_insensitive() {
    let mut store = empty_store();
    let first = import_csv_text(&mut store, "Acme;Engineer;2024-01-01;CV;Rejected;Berlin");
    assert_eq!(first, Some(1));
    let second = import_csv_text(&mut store, "ACME;engineer;2024-03-03;CV;;Munich");
    assert_eq!(second, Some(0));
    assert_eq!(store.jobs.len(), 1);
}

#[test]
fn ids_increase_across_an_import_batch() {
    let text = "A;a;2024-01-01;CV;;X\nB;b;2024-01-01;CV;;X\nC;c;2024-01-01;CV;;X";
    let mut store = empty_store();
    let count = import_csv_text(&mut store, text);
    assert_eq!(count, Some(3));
    let ids: Vec<u32> = store.jobs.iter().map(|j| j.id).collect();
    assert_eq!(ids, vec![1, 2, 3]);
    assert_eq!(store.last_id, 3);
}

#[test]
fn import_after_delete_never_reuses_the_deleted_id() {
    let mut store = empty_store();
    assert_eq!(import_csv_text(&mut store, "A;a;2024-01-01;CV;;X\nB;b;2024-01-01;CV;;X"), Some(2));
    assert!(job_tracker::store::delete(&mut store, 2));
    assert_eq!(import_csv_text(&mut store, "C;c;2024-01-01;CV;;X"), Some(1));
    let ids: Vec<u32> = store.jobs.iter().map(|j| j.id).collect();
    assert_eq!(ids, vec![1, 3]);
}

#[test]
fn fields_are_trimmed_on_import() {
    let mut store = empty_store();
    let count = import_csv_text(&mut store, " Acme ;\tEngineer ;2024-01-01; CV ; Rejected ; Berlin ");
    assert_eq!(count, Some(1));
    assert_eq!(store.jobs[0].company, "Acme");
    assert_eq!(store.jobs[0].title, "Engineer");
    assert_eq!(store.jobs[0].final_answer.as_deref(), Some("Rejected"));
    assert_eq!(store.jobs[0].location, "Berlin");
}

#[test]
fn split_keeps_empty_fields() {
    let fields = split_char("a;;b;", ';');
    assert_eq!(fields, vec!["a".to_string(), "".to_string(), "b".to_string(), "".to_string()]);
}

#[test]
fn trim_removes_surrounding_whitespace_only() {
    assert_eq!(trim("  a b \t"), "a b");
    assert_eq!(trim(""), "");
    assert_eq!(trim(" \r\n "), "");
    assert_eq!(trim("inner"), "inner");
    assert_eq!(trim("\u{A0}\u{2003}wide\u{3000}"), "wide");
}

#[test]
fn case_insensitive_compare_is_ascii_only() {
    assert!(eq_ignore_case("AcMe", "aCmE"));
    assert!(!eq_ignore_case("Acme", "Acme "));
    assert!(!eq_ignore_case("Acme", "Acmf"));
}
