//! Bulk import of semicolon-delimited rows: positional field mapping,
//! silent skipping of short rows, case-insensitive duplicate suppression on
//! company and title, and id assignment identical to the store's `add` —
//! each accepted row takes the id one past the high-water mark and raises
//! the mark, so ids stay strictly increasing across the whole batch and
//! never revive a deleted id.
//!
//! Rows are treated uniformly: there is no header line, so a heading row
//! that happens to carry six or more fields imports like any other row.

use vstd::prelude::*;
use crate::store::{Job, JobView, Store, views_of, max_id};
use crate::text::{
    ci_eq,
    lemma_ci_eq_refl,
    trim_spec,
    split_spec,
    eq_ignore_case,
    trim,
    split_char,
};

verus! {

/// The views of one parsed row's fields.
pub open spec fn field_views(r: Seq<String>) -> Seq<Seq<char>> {
    r.map_values(|s: String| s@)
}

/// The views of a whole batch of parsed rows.
pub open spec fn rows_views(r: Seq<Vec<String>>) -> Seq<Seq<Seq<char>>> {
    r.map_values(|v: Vec<String>| v@.map_values(|s: String| s@))
}

/// A row is importable only when it yields at least six fields.
pub open spec fn row_ok(r: Seq<Seq<char>>) -> bool {
    r.len() >= 6
}

/// The record a row becomes: company, title, date, documents, answer
/// (empty means pending), location, in that positional order.
pub open spec fn row_record(id: u32, r: Seq<Seq<char>>) -> JobView {
    JobView {
        id,
        company: r[0],
        title: r[1],
        date_submitted: r[2],
        docs_used: r[3],
        location: r[5],
        final_answer: if r[4].len() == 0 {
            None
        } else {
            Some(r[4])
        },
    }
}

/// Whether some record already carries this company and title, compared
/// case-insensitively.
pub open spec fn dup_exists(s: Seq<JobView>, company: Seq<char>, title: Seq<char>) -> bool {
    exists|i: int|
        0 <= i < s.len() && ci_eq((#[trigger] s[i]).company, company) && ci_eq(s[i].title, title)
}

/// The collection, high-water mark and count of newly added records after a
/// batch import: rows are consumed in order; a short row or a duplicate is
/// skipped, any other row is appended under the id one past the mark, which
/// then rises to that id.
pub open spec fn import_spec(s: Seq<JobView>, last: nat, rows: Seq<Seq<Seq<char>>>) -> (
    Seq<JobView>,
    nat,
    nat,
)
    decreases rows.len(),
{
    if rows.len() == 0 {
        (s, last, 0)
    } else {
        let r = rows[0];
        let rest = rows.skip(1);
        if !row_ok(r) || dup_exists(s, r[0], r[1]) {
            import_spec(s, last, rest)
        } else {
            let s2 = s.push(row_record((last + 1) as u32, r));
            let step = import_spec(s2, last + 1, rest);
            (step.0, step.1, step.2 + 1)
        }
    }
}

/// Whether a row with this company and title would be suppressed as a
/// duplicate of a record already in the collection.
pub fn find_dup(jobs: &Vec<Job>, company: &String, title: &String) -> (r: bool)
    ensures
        r == dup_exists(views_of(jobs@), company@, title@),
{
    let mut i: usize = 0;
    while i < jobs.len()
        invariant
            0 <= i <= jobs@.len(),
            forall|k: int|
                0 <= k < i ==> !(ci_eq((#[trigger] views_of(jobs@)[k]).company, company@) && ci_eq(
                    views_of(jobs@)[k].title,
                    title@,
                )),
        decreases jobs@.len() - i,
    {
        if eq_ignore_case(jobs[i].company.as_str(), company.as_str()) && eq_ignore_case(
            jobs[i].title.as_str(),
            title.as_str(),
        ) {
            proof {
                assert(views_of(jobs@)[i as int] == jobs@[i as int]@);
            }
            return true;
        }
        proof {
            assert(views_of(jobs@)[i as int] == jobs@[i as int]@);
        }
        i += 1;
    }
    false
}

/// Merges a batch of parsed rows into the store and returns how many
/// records were newly added, exactly as `import_spec` describes.
pub fn import_rows(st: &mut Store, rows: &Vec<Vec<String>>) -> (count: usize)
    requires
        old(st).last_id + rows@.len() <= u32::MAX,
    ensures
        views_of(final(st).jobs@) == import_spec(
            views_of(old(st).jobs@),
            old(st).last_id as nat,
            rows_views(rows@),
        ).0,
        final(st).last_id as nat == import_spec(
            views_of(old(st).jobs@),
            old(st).last_id as nat,
            rows_views(rows@),
        ).1,
        count == import_spec(
            views_of(old(st).jobs@),
            old(st).last_id as nat,
            rows_views(rows@),
        ).2,
{
    let ghost orig = views_of(old(st).jobs@);
    let ghost origlast = old(st).last_id as nat;
    let ghost rv = rows_views(rows@);
    let mut count: usize = 0;
    let mut i: usize = 0;
    proof {
        assert(rv.skip(0) =~= rv);
    }
    while i < rows.len()
        invariant
            0 <= i <= rows@.len(),
            rv == rows_views(rows@),
            rv.len() == rows@.len(),
            orig == views_of(old(st).jobs@),
            origlast == old(st).last_id as nat,
            count <= i,
            st.last_id as nat <= origlast + i,
            origlast + rows@.len() <= u32::MAX,
            import_spec(orig, origlast, rv).0 == import_spec(
                views_of(st.jobs@),
                st.last_id as nat,
                rv.skip(i as int),
            ).0,
            import_spec(orig, origlast, rv).1 == import_spec(
                views_of(st.jobs@),
                st.last_id as nat,
                rv.skip(i as int),
            ).1,
            import_spec(orig, origlast, rv).2 == count + import_spec(
                views_of(st.jobs@),
                st.last_id as nat,
                rv.skip(i as int),
            ).2,
        decreases rows@.len() - i,
    {
        let ghost cur = views_of(st.jobs@);
        let ghost curlast = st.last_id as nat;
        proof {
            assert(rv.skip(i as int)[0] == rv[i as int]);
            assert(rv.skip(i as int).skip(1) =~= rv.skip(i as int + 1));
            assert(rv[i as int] == rows@[i as int]@.map_values(|s: String| s@));
        }
        let row = &rows[i];
        if row.len() < 6 {
            i += 1;
            continue;
        }
        proof {
            assert(row_ok(rv[i as int]));
            assert(rv[i as int][0] == row@[0]@ && rv[i as int][1] == row@[1]@);
        }
        if find_dup(&st.jobs, &row[0], &row[1]) {
            i += 1;
            continue;
        }
        let id = st.last_id + 1;
        proof {
            assert(rv[i as int][2] == row@[2]@ && rv[i as int][3] == row@[3]@ && rv[i as int][4]
                == row@[4]@ && rv[i as int][5] == row@[5]@);
        }
        let job = Job {
            id,
            company: row[0].clone(),
            title: row[1].clone(),
            date_submitted: row[2].clone(),
            docs_used: row[3].clone(),
            location: row[5].clone(),
            final_answer: if row[4].as_str().is_empty() {
                None
            } else {
                Some(row[4].clone())
            },
        };
        proof {
            assert(job@ == row_record((curlast + 1) as u32, rv[i as int]));
        }
        st.jobs.push(job);
        st.last_id = id;
        count += 1;
        proof {
            assert(views_of(st.jobs@) =~= cur.push(job@));
        }
        i += 1;
    }
    proof {
        assert(rv.skip(i as int).len() == 0);
        assert(rv.skip(i as int) =~= Seq::empty());
    }
    count
}

/// A duplicate that exists before an import still exists afterwards:
/// importing only adds records.
proof fn lemma_import_keeps_dups(
    s: Seq<JobView>,
    last: nat,
    rows: Seq<Seq<Seq<char>>>,
    company: Seq<char>,
    title: Seq<char>,
)
    requires
        dup_exists(s, company, title),
    ensures
        dup_exists(import_spec(s, last, rows).0, company, title),
    decreases rows.len(),
{
    if rows.len() > 0 {
        let r = rows[0];
        let rest = rows.skip(1);
        if !row_ok(r) || dup_exists(s, r[0], r[1]) {
            lemma_import_keeps_dups(s, last, rest, company, title);
        } else {
            let s2 = s.push(row_record((last + 1) as u32, r));
            let w = choose|i: int|
                0 <= i < s.len() && ci_eq((#[trigger] s[i]).company, company) && ci_eq(
                    s[i].title,
                    title,
                );
            assert(s2[w] == s[w]);
            lemma_import_keeps_dups(s2, last + 1, rest, company, title);
        }
    }
}

/// After an import, every importable row of the batch has a case-insensitive
/// duplicate in the result: either it had one before, or it was added itself.
proof fn lemma_import_covers(s: Seq<JobView>, last: nat, rows: Seq<Seq<Seq<char>>>)
    ensures
        forall|i: int|
            0 <= i < rows.len() && row_ok(#[trigger] rows[i]) ==> dup_exists(
                import_spec(s, last, rows).0,
                rows[i][0],
                rows[i][1],
            ),
    decreases rows.len(),
{
    if rows.len() > 0 {
        let r = rows[0];
        let rest = rows.skip(1);
        if !row_ok(r) || dup_exists(s, r[0], r[1]) {
            lemma_import_covers(s, last, rest);
            if row_ok(r) {
                lemma_import_keeps_dups(s, last, rest, r[0], r[1]);
            }
            assert forall|i: int|
                1 <= i < rows.len() && row_ok(#[trigger] rows[i]) implies dup_exists(
                import_spec(s, last, rest).0,
                rows[i][0],
                rows[i][1],
            ) by {
                assert(rest[i - 1] == rows[i]);
                assert(row_ok(rest[i - 1]));
                assert(dup_exists(import_spec(s, last, rest).0, rest[i - 1][0], rest[i - 1][1]));
            }
        } else {
            let s2 = s.push(row_record((last + 1) as u32, r));
            lemma_import_covers(s2, last + 1, rest);
            lemma_ci_eq_refl(r[0]);
            lemma_ci_eq_refl(r[1]);
            assert(dup_exists(s2, r[0], r[1])) by {
                assert(s2[s.len() as int].company == r[0] && s2[s.len() as int].title == r[1]);
            }
            lemma_import_keeps_dups(s2, last + 1, rest, r[0], r[1]);
            assert forall|i: int|
                1 <= i < rows.len() && row_ok(#[trigger] rows[i]) implies dup_exists(
                import_spec(s2, last + 1, rest).0,
                rows[i][0],
                rows[i][1],
            ) by {
                assert(rest[i - 1] == rows[i]);
                assert(row_ok(rest[i - 1]));
                assert(dup_exists(
                    import_spec(s2, last + 1, rest).0,
                    rest[i - 1][0],
                    rest[i - 1][1],
                ));
            }
        }
    }
}

/// A batch whose importable rows all already have duplicates in the
/// collection imports nothing and leaves the store unchanged.
proof fn lemma_import_skips_all(s: Seq<JobView>, last: nat, rows: Seq<Seq<Seq<char>>>)
    requires
        forall|i: int|
            0 <= i < rows.len() && row_ok(#[trigger] rows[i]) ==> dup_exists(
                s,
                rows[i][0],
                rows[i][1],
            ),
    ensures
        import_spec(s, last, rows).0 == s,
        import_spec(s, last, rows).1 == last,
        import_spec(s, last, rows).2 == 0,
    decreases rows.len(),
{
    if rows.len() > 0 {
        let rest = rows.skip(1);
        assert(rows[0] == rows[0]);
        assert(forall|i: int|
            0 <= i < rest.len() && row_ok(#[trigger] rest[i]) ==> rest[i] == rows[i + 1]
                && dup_exists(s, rest[i][0], rest[i][1]));
        lemma_import_skips_all(s, last, rest);
    }
}

/// Importing the same batch twice adds no record the second time: the
/// case-insensitive company-and-title suppression holds across imports.
pub proof fn lemma_reimport_adds_nothing(s: Seq<JobView>, last: nat, rows: Seq<Seq<Seq<char>>>)
    ensures
        import_spec(import_spec(s, last, rows).0, import_spec(s, last, rows).1, rows).2 == 0,
        import_spec(import_spec(s, last, rows).0, import_spec(s, last, rows).1, rows).0
            == import_spec(s, last, rows).0,
        import_spec(import_spec(s, last, rows).0, import_spec(s, last, rows).1, rows).1
            == import_spec(s, last, rows).1,
{
    lemma_import_covers(s, last, rows);
    lemma_import_skips_all(import_spec(s, last, rows).0, import_spec(s, last, rows).1, rows);
}

/// An import keeps ids pairwise distinct and re-establishes the store
/// invariant: every accepted row takes a fresh id above the high-water
/// mark, so ids stay strictly increasing across the whole batch.
pub proof fn lemma_import_keeps_ids_unique(s: Seq<JobView>, last: nat, rows: Seq<Seq<Seq<char>>>)
    requires
        crate::store::ids_unique(s),
        max_id(s) <= last,
        last + rows.len() <= u32::MAX,
    ensures
        crate::store::ids_unique(import_spec(s, last, rows).0),
        max_id(import_spec(s, last, rows).0) <= import_spec(s, last, rows).1,
        import_spec(s, last, rows).1 <= last + rows.len(),
    decreases rows.len(),
{
    if rows.len() > 0 {
        let r = rows[0];
        let rest = rows.skip(1);
        if !row_ok(r) || dup_exists(s, r[0], r[1]) {
            lemma_import_keeps_ids_unique(s, last, rest);
        } else {
            let j = row_record((last + 1) as u32, r);
            assert(j.id as nat == last + 1);
            crate::store::lemma_add_keeps_ids_unique(s, j);
            crate::store::lemma_max_id_push(s, j);
            lemma_import_keeps_ids_unique(s.push(j), last + 1, rest);
        }
    }
}

/// The rows a text yields: lines between newlines, each line split on
/// semicolons, each field trimmed of surrounding whitespace.
pub open spec fn rows_spec(t: Seq<char>) -> Seq<Seq<Seq<char>>> {
    split_spec(t, '\n').map_values(
        |line: Seq<char>| split_spec(line, ';').map_values(|f: Seq<char>| trim_spec(f)),
    )
}

/// Parses a semicolon-delimited text into trimmed rows of fields.
pub fn parse_rows(text: &str) -> (r: Vec<Vec<String>>)
    ensures
        rows_views(r@) == rows_spec(text@),
{
    let ghost target = rows_spec(text@);
    let lines = split_char(text, '\n');
    let mut r: Vec<Vec<String>> = Vec::new();
    let mut i: usize = 0;
    proof {
        assert(rows_views(r@) =~= target.take(0));
    }
    while i < lines.len()
        invariant
            0 <= i <= lines@.len(),
            target == rows_spec(text@),
            lines@.map_values(|f: String| f@) == split_spec(text@, '\n'),
            lines@.len() == split_spec(text@, '\n').len(),
            rows_views(r@) == target.take(i as int),
        decreases lines@.len() - i,
    {
        let ghost line_view = lines@[i as int]@;
        let fields = split_char(lines[i].as_str(), ';');
        let mut trimmed: Vec<String> = Vec::new();
        let mut j: usize = 0;
        proof {
            assert(field_views(trimmed@) =~= split_spec(line_view, ';').map_values(
                |f: Seq<char>| trim_spec(f),
            ).take(0));
        }
        while j < fields.len()
            invariant
                0 <= j <= fields@.len(),
                fields@.map_values(|f: String| f@) == split_spec(line_view, ';'),
                fields@.len() == split_spec(line_view, ';').len(),
                field_views(trimmed@) == split_spec(line_view, ';').map_values(
                    |f: Seq<char>| trim_spec(f),
                ).take(j as int),
            decreases fields@.len() - j,
        {
            let t = trim(fields[j].as_str());
            proof {
                assert(fields@[j as int]@ == split_spec(line_view, ';')[j as int]);
            }
            let ghost pre = trimmed@;
            trimmed.push(t);
            proof {
                assert(field_views(trimmed@) =~= field_views(pre).push(trimmed@.last()@));
                assert(field_views(trimmed@) =~= split_spec(line_view, ';').map_values(
                    |f: Seq<char>| trim_spec(f),
                ).take(j as int + 1));
            }
            j += 1;
        }
        proof {
            let g = split_spec(line_view, ';').map_values(|f: Seq<char>| trim_spec(f));
            assert(field_views(trimmed@) =~= g);
            assert(target[i as int] == g);
        }
        let ghost pre = r@;
        r.push(trimmed);
        proof {
            assert(rows_views(r@) =~= rows_views(pre).push(
                r@.last()@.map_values(|s: String| s@),
            ));
            assert(rows_views(r@) =~= target.take(i as int + 1));
        }
        i += 1;
    }
    proof {
        assert(target.take(i as int) =~= target);
    }
    r
}

/// Parses a semicolon-delimited text and merges its rows into the store.
/// Returns the count of newly added records, or `None` — with the store
/// untouched — when the batch is so large that id assignment could run past
/// the id type's range.
pub fn import_csv_text(st: &mut Store, text: &str) -> (count: Option<usize>)
    ensures
        count matches Some(c) ==> views_of(final(st).jobs@) == import_spec(
            views_of(old(st).jobs@),
            old(st).last_id as nat,
            rows_spec(text@),
        ).0 && final(st).last_id as nat == import_spec(
            views_of(old(st).jobs@),
            old(st).last_id as nat,
            rows_spec(text@),
        ).1 && c == import_spec(
            views_of(old(st).jobs@),
            old(st).last_id as nat,
            rows_spec(text@),
        ).2,
        count is None ==> final(st).jobs@ == old(st).jobs@ && final(st).last_id == old(
            st,
        ).last_id && old(st).last_id + rows_spec(text@).len() > u32::MAX,
{
    let rows = parse_rows(text);
    if rows.len() as u64 > u32::MAX as u64 - st.last_id as u64 {
        return None;
    }
    let c = import_rows(st, &rows);
    Some(c)
}

} // verus!
