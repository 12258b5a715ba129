use job_tracker::store::{add, add_or_today, delete, update, max_id_exec, render_answer, Job, Store};

fn mk_job(id: u32, company: &str, title: &str, answer: Option<&str>) -> Job {
    Job {
        id,
        company: company.to_string(),
        title: title.to_string(),
        date_submitted: "2024-01-01".to_string(),
        docs_used: "CV".to_string(),
        location: "Berlin".to_string(),
        final_answer: answer.map(|a| a.to_string()),
    }
}

fn mk_store(jobs: Vec<Job>) -> Store {
    let last_id = max_id_exec(&jobs);
    Store { jobs, last_id }
}

#[test]
fn add_to_empty_store_assigns_id_one() {
    let mut store = Store { jobs: Vec::new(), last_id: 0 };
    let rec = add_or_today(
        &mut store,
        "Acme".to_string(),
        "Engineer".to_string(),
        "resume.pdf".to_string(),
        "Berlin".to_string(),
        None,
    );
    assert_eq!(rec.id, 1);
    assert!(rec.final_answer.is_none());
    assert_eq!(rec.company, "Acme");
    assert_eq!(rec.title, "Engineer");
    assert_eq!(rec.docs_used, "resume.pdf");
    assert_eq!(rec.location, "Berlin");
    let today = chrono::Local::now().format("%Y-%m-%d").to_string();
    assert_eq!(rec.date_submitted, today);
    assert_eq!(store.jobs.len(), 1);
    assert_eq!(store.jobs[0].id, 1);
    assert_eq!(store.last_id, 1);
}

#[test]
fn ids_strictly_increase_over_adds() {
    let mut store = Store { jobs: Vec::new(), last_id: 0 };
    let mut last = 0u32;
    for n in 0..5 {
        let rec = add(
            &mut store,
            format!("Company{}", n),
            format!("Title{}", n),
            "CV".to_string(),
            "Berlin".to_string(),
            "2024-01-01".to_string(),
        );
        assert!(rec.id > last);
        last = rec.id;
    }
    for k in 0..store.jobs.len() {
        for m in 0..k {
            assert_ne!(store.jobs[m].id, store.jobs[k].id);
        }
    }
}

#[test]
fn delete_middle_then_add_uses_historical_max() {
    let mut store = mk_store(vec![
        mk_job(1, "A", "a", None),
        mk_job(2, "B", "b", None),
        mk_job(3, "C", "c", None),
    ]);
    let found = delete(&mut store, 2);
    assert!(found);
    let ids: Vec<u32> = store.jobs.iter().map(|j| j.id).collect();
    assert_eq!(ids, vec![1, 3]);
    let rec = add(
        &mut store,
        "D".to_string(),
        "d".to_string(),
        "CV".to_string(),
        "Berlin".to_string(),
        "2024-01-02".to_string(),
    );
    assert_eq!(rec.id, 4);
}

#[test]
fn deleting_the_maximum_id_never_reuses_it() {
    let mut store = mk_store(vec![
        mk_job(1, "A", "a", None),
        mk_job(2, "B", "b", None),
        mk_job(3, "C", "c", None),
    ]);
    assert!(delete(&mut store, 3));
    let rec = add(
        &mut store,
        "D".to_string(),
        "d".to_string(),
        "CV".to_string(),
        "Berlin".to_string(),
        "2024-01-02".to_string(),
    );
    assert_ne!(rec.id, 3);
    assert_eq!(rec.id, 4);
}

#[test]
fn delete_missing_id_reports_not_found() {
    let mut store = mk_store(vec![mk_job(1, "A", "a", None)]);
    let found = delete(&mut store, 9);
    assert!(!found);
    assert_eq!(store.jobs.len(), 1);
}

#[test]
fn update_sets_final_answer() {
    let mut store = mk_store(vec![mk_job(1, "A", "a", None), mk_job(2, "B", "b", None)]);
    let found = update(&mut store, 2, "Rejected".to_string());
    assert!(found);
    assert_eq!(store.jobs[1].final_answer.as_deref(), Some("Rejected"));
    assert!(store.jobs[0].final_answer.is_none());
}

#[test]
fn update_missing_id_leaves_collection_unchanged() {
    let mut store = mk_store(vec![mk_job(1, "A", "a", None), mk_job(3, "C", "c", Some("Offer"))]);
    let before = job_tracker::codec::save_jobs(&store);
    let found = update(&mut store, 2, "Rejected".to_string());
    assert!(!found);
    let after = job_tracker::codec::save_jobs(&store);
    assert_eq!(before, after);
}

#[test]
fn the_mark_is_the_largest_id_present() {
    let jobs = vec![mk_job(7, "A", "a", None), mk_job(3, "B", "b", None)];
    assert_eq!(max_id_exec(&jobs), 7);
    let empty: Vec<Job> = Vec::new();
    assert_eq!(max_id_exec(&empty), 0);
}

#[test]
fn pending_records_render_placeholder() {
    let pending = mk_job(1, "A", "a", None);
    let decided = mk_job(2, "B", "b", Some("Offer"));
    assert_eq!(render_answer(&pending), "Pending");
    assert_eq!(render_answer(&decided), "Offer");
}

#[test]
fn add_with_explicit_date_keeps_it() {
    let mut store = Store { jobs: Vec::new(), last_id: 0 };
    let rec = add_or_today(
        &mut store,
        "Acme".to_string(),
        "Engineer".to_string(),
        "CV".to_string(),
        "Berlin".to_string(),
        Some("1999-12-31".to_string()),
    );
    assert_eq!(rec.date_submitted, "1999-12-31");
}
