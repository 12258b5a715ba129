use job_tracker::report::{answer_stats, layout_report, pending_count, truncate_text, TextCmd};
use job_tracker::store::Job;

fn mk_job(id: u32, company: &str, title: &str, answer: Option<&str>) -> Job {
    Job {
        id,
        company: company.to_string(),
        title: title.to_string(),
        date_submitted: "2024-01-01".to_string(),
        docs_used: "CV".to_string(),
        location: "Berlin".to_string(),
        final_answer: answer.map(|a| a.to_string()),
    }
}

fn stat_value_after(cmds: &[TextCmd], label: &str) -> Option<String> {
    for (k, c) in cmds.iter().enumerate() {
        if c.text == label && c.x == 10 && k + 1 < cmds.len() {
            let v = &cmds[k + 1];
            if v.x == 60 && v.y == c.y && v.page == c.page {
                return Some(v.text.clone());
            }
        }
    }
    None
}

#[test]
fn statistics_block_counts_three_records() {
    let jobs = vec![
        mk_job(1, "A", "a", None),
        mk_job(2, "B", "b", Some("Rejected")),
        mk_job(3, "C", "c", Some("Rejected")),
    ];
    assert_eq!(jobs.len(), 3);
    assert_eq!(pending_count(&jobs), 1);
    let stats = answer_stats(&jobs);
    assert_eq!(stats.len(), 1);
    assert_eq!(stats[0].label, "Rejected");
    assert_eq!(stats[0].count, 2);
    let cmds = layout_report(&jobs);
    assert_eq!(stat_value_after(&cmds, "Total Applications").as_deref(), Some("3"));
    assert_eq!(stat_value_after(&cmds, "Pending").as_deref(), Some("1"));
    assert_eq!(stat_value_after(&cmds, "Rejected").as_deref(), Some("2"));
}

#[test]
fn statistics_tally_every_distinct_answer_once() {
    let jobs = vec![
        mk_job(1, "A", "a", Some("Offer")),
        mk_job(2, "B", "b", Some("Rejected")),
        mk_job(3, "C", "c", Some("Offer")),
        mk_job(4, "D", "d", None),
        mk_job(5, "E", "e", Some("rejected")),
    ];
    let stats = answer_stats(&jobs);
    let mut pairs: Vec<(String, usize)> =
        stats.iter().map(|lc| (lc.label.clone(), lc.count)).collect();
    pairs.sort();
    assert_eq!(
        pairs,
        vec![
            ("Offer".to_string(), 2),
            ("Rejected".to_string(), 1),
            ("rejected".to_string(), 1),
        ]
    );
}

#[test]
fn truncation_cuts_long_text_with_ellipsis() {
    assert_eq!(truncate_text("a-company-with-a-very-long-name", 25), "a-company-with-a-very-...");
    assert_eq!(truncate_text("a-company-with-a-very-long-name", 25).chars().count(), 25);
    assert_eq!(truncate_text("short", 25), "short");
    assert_eq!(truncate_text("12345678901234567890", 20), "12345678901234567890");
    assert_eq!(truncate_text("123456789012345678901", 20), "12345678901234567...");
}

#[test]
fn every_page_of_records_starts_with_the_header() {
    let mut jobs: Vec<Job> = Vec::new();
    for n in 0..40 {
        jobs.push(mk_job(n + 1, "Company", "Title", None));
    }
    let cmds = layout_report(&jobs);
    assert!(cmds.iter().any(|c| c.page == 1));
    for pg in 0..2 {
        assert!(cmds.iter().any(|c| c.page == pg && c.y == 190 && c.text == "ID"));
    }
    for c in cmds.iter() {
        assert!(c.y >= 4 && c.y <= 190);
    }
}

#[test]
fn record_rows_carry_the_record_texts() {
    let jobs = vec![mk_job(12, "Acme", "Engineer", Some("Offer"))];
    let cmds = layout_report(&jobs);
    assert!(cmds.iter().any(|c| c.text == "12" && c.x == 10 && c.size == 10));
    assert!(cmds.iter().any(|c| c.text == "Acme" && c.x == 30));
    assert!(cmds.iter().any(|c| c.text == "Engineer" && c.x == 80));
    assert!(cmds.iter().any(|c| c.text == "2024-01-01" && c.x == 130));
    assert!(cmds.iter().any(|c| c.text == "Offer" && c.x == 160));
}

#[test]
fn statistics_lines_break_onto_a_fresh_page() {
    let mut jobs: Vec<Job> = Vec::new();
    for n in 0..30 {
        let answer = format!("Answer{}", n);
        jobs.push(mk_job(n + 1, "Company", &format!("Title{}", n), Some(&answer)));
    }
    let cmds = layout_report(&jobs);
    let stats = answer_stats(&jobs);
    assert_eq!(stats.len(), 30);
    for lc in &stats {
        assert_eq!(lc.count, 1);
        assert!(cmds.iter().any(|c| c.text == lc.label));
    }
    let last_stat = cmds.iter().rev().find(|c| c.x == 60).unwrap();
    let first_stat = cmds.iter().find(|c| c.text == "Statistics").unwrap();
    assert!(last_stat.page > first_stat.page);
}
