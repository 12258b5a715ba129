use job_tracker::codec::{load_jobs, save_jobs};
use job_tracker::store::{max_id_exec, Job, Store};

fn mk_job(id: u32, company: &str, title: &str, answer: Option<&str>) -> Job {
    Job {
        id,
        company: company.to_string(),
        title: title.to_string(),
        date_submitted: "2024-01-01".to_string(),
        docs_used: "CV".to_string(),
        location: "Berlin".to_string(),
        final_answer: answer.map(|a| a.to_string()),
    }
}

fn mk_store(jobs: Vec<Job>) -> Store {
    let last_id = max_id_exec(&jobs);
    Store { jobs, last_id }
}

#[test]
fn save_then_load_restores_every_field_and_the_mark() {
    let store = Store {
        jobs: vec![
            mk_job(1, "Acme", "Engineer", None),
            mk_job(2, "Glo;bex\nInc", "Ana:lyst", Some("Rejected")),
            mk_job(7, "", "", Some("")),
        ],
        last_id: 11,
    };
    let text = save_jobs(&store);
    let back = load_jobs(text.as_str());
    assert_eq!(back.last_id, 11);
    assert_eq!(back.jobs.len(), 3);
    for k in 0..3 {
        assert_eq!(back.jobs[k].id, store.jobs[k].id);
        assert_eq!(back.jobs[k].company, store.jobs[k].company);
        assert_eq!(back.jobs[k].title, store.jobs[k].title);
        assert_eq!(back.jobs[k].date_submitted, store.jobs[k].date_submitted);
        assert_eq!(back.jobs[k].docs_used, store.jobs[k].docs_used);
        assert_eq!(back.jobs[k].location, store.jobs[k].location);
        assert_eq!(back.jobs[k].final_answer, store.jobs[k].final_answer);
    }
}

#[test]
fn save_after_load_is_byte_identical() {
    let store = mk_store(vec![mk_job(1, "Acme", "Engineer", None), mk_job(2, "B", "b", Some("Offer"))]);
    let t1 = save_jobs(&load_jobs(save_jobs(&store).as_str()));
    let t2 = save_jobs(&load_jobs(t1.as_str()));
    assert_eq!(t1, t2);
}

#[test]
fn arbitrary_content_idempotence_through_load() {
    for garbage in ["", "not a store", "H 1\nJ 1\nbroken", "{\"id\":1}"] {
        let t1 = save_jobs(&load_jobs(garbage));
        let t2 = save_jobs(&load_jobs(t1.as_str()));
        assert_eq!(t1, t2);
    }
}

#[test]
fn unparseable_content_loads_as_empty() {
    assert!(load_jobs("").jobs.is_empty());
    assert_eq!(load_jobs("").last_id, 0);
    assert!(load_jobs("garbage").jobs.is_empty());
    assert!(load_jobs("H 1").jobs.is_empty());
    let store = mk_store(vec![mk_job(1, "Acme", "Engineer", None)]);
    let text = save_jobs(&store);
    let mut truncated = text.clone();
    truncated.pop();
    assert!(load_jobs(truncated.as_str()).jobs.is_empty());
    let mut extended = text.clone();
    extended.push('x');
    assert!(load_jobs(extended.as_str()).jobs.is_empty());
}

#[test]
fn a_mark_below_a_record_id_is_rejected_as_corrupt() {
    let honest = save_jobs(&Store { jobs: vec![mk_job(5, "A", "a", None)], last_id: 5 });
    assert_eq!(load_jobs(honest.as_str()).last_id, 5);
    let forged = honest.replacen("H 5", "H 4", 1);
    let back = load_jobs(forged.as_str());
    assert!(back.jobs.is_empty());
    assert_eq!(back.last_id, 0);
}

#[test]
fn saved_form_is_a_marked_header_and_length_prefixed_lines() {
    let store = Store { jobs: vec![mk_job(3, "Acme", "QA", Some("No"))], last_id: 9 };
    let text = save_jobs(&store);
    assert_eq!(text, "H 9\nJ 3\n4:Acme\n2:QA\n10:2024-01-01\n2:CV\n6:Berlin\n=2:No\n");
    let pending = mk_store(vec![mk_job(1, "A", "b", None)]);
    assert_eq!(save_jobs(&pending), "H 1\nJ 1\n1:A\n1:b\n10:2024-01-01\n2:CV\n6:Berlin\n-\n");
}

#[test]
fn number_rendering_is_plain_decimal() {
    assert_eq!(job_tracker::num::u64_to_string(0), "0");
    assert_eq!(job_tracker::num::u64_to_string(12345), "12345");
    assert_eq!(job_tracker::num::u64_to_string(4294967295), "4294967295");
}
