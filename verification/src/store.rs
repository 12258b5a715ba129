//! The record store: the `Job` record type, its mathematical view, the
//! `Store` that pairs the collection with the largest id ever assigned, and
//! the pure operations (add, update, delete) together with the laws that
//! govern id assignment. Ids are handed out strictly above the high-water
//! mark, which deletion never lowers, so a deleted id is never reused.

use vstd::prelude::*;
use vstd::pervasive::VecAdditionalExecFns;

verus! {

/// One job-application record.
pub struct Job {
    /// Positive, unique within a well-formed collection, assigned by the store.
    pub id: u32,
    pub company: String,
    pub title: String,
    /// `YYYY-MM-DD`; defaulted to the current local date at creation.
    pub date_submitted: String,
    pub docs_used: String,
    pub location: String,
    /// `None` means the application is still pending.
    pub final_answer: Option<String>,
}

/// The mathematical image of a record: every text field as a `Seq<char>`.
pub ghost struct JobView {
    pub id: u32,
    pub company: Seq<char>,
    pub title: Seq<char>,
    pub date_submitted: Seq<char>,
    pub docs_used: Seq<char>,
    pub location: Seq<char>,
    pub final_answer: Option<Seq<char>>,
}

impl View for Job {
    type V = JobView;

    open spec fn view(&self) -> JobView {
        JobView {
            id: self.id,
            company: self.company@,
            title: self.title@,
            date_submitted: self.date_submitted@,
            docs_used: self.docs_used@,
            location: self.location@,
            final_answer: match self.final_answer {
                Some(a) => Some(a@),
                None => None,
            },
        }
    }
}

/// The view of a whole collection, record by record.
pub open spec fn views_of(s: Seq<Job>) -> Seq<JobView> {
    s.map_values(|j: Job| j@)
}

/// The store: the record collection together with the largest id ever
/// assigned. `last_id` never decreases — in particular not on deletion — so
/// ids derive from the historical maximum and are never reused.
pub struct Store {
    pub jobs: Vec<Job>,
    pub last_id: u32,
}

/// The mathematical image of a store.
pub ghost struct StoreView {
    pub jobs: Seq<JobView>,
    pub last_id: u32,
}

impl View for Store {
    type V = StoreView;

    open spec fn view(&self) -> StoreView {
        StoreView { jobs: views_of(self.jobs@), last_id: self.last_id }
    }
}

/// The store invariant: the high-water mark bounds every id present.
pub open spec fn store_wf(jobs: Seq<JobView>, last_id: u32) -> bool {
    max_id(jobs) <= last_id as nat
}

/// The largest id present, or 0 for an empty collection.
pub open spec fn max_id(s: Seq<JobView>) -> nat
    decreases s.len(),
{
    if s.len() == 0 {
        0
    } else if s.last().id as nat >= max_id(s.drop_last()) {
        s.last().id as nat
    } else {
        max_id(s.drop_last())
    }
}

/// Every id in the collection is at most `max_id`.
proof fn lemma_max_id_bounds(s: Seq<JobView>)
    ensures
        forall|i: int| 0 <= i < s.len() ==> #[trigger] s[i].id as nat <= max_id(s),
    decreases s.len(),
{
    if s.len() > 0 {
        lemma_max_id_bounds(s.drop_last());
        assert(forall|i: int|
            0 <= i < s.len() - 1 ==> s[i] == s.drop_last()[i] && #[trigger] s[i].id as nat
                <= max_id(s.drop_last()));
    }
}

/// The id assigned next — one past the high-water mark — is strictly
/// greater than every id present, so over any sequence of additions the
/// assigned ids are strictly increasing and pairwise distinct.
pub proof fn lemma_fresh_id_above_all(s: Seq<JobView>, last_id: u32)
    requires
        store_wf(s, last_id),
    ensures
        forall|i: int| 0 <= i < s.len() ==> (#[trigger] s[i].id as nat) < last_id as nat + 1,
{
    lemma_max_id_bounds(s);
}

/// Ids are pairwise distinct within the collection.
pub open spec fn ids_unique(s: Seq<JobView>) -> bool {
    forall|i: int, j: int|
        0 <= i < j < s.len() ==> (#[trigger] s[i]).id != (#[trigger] s[j]).id
}

/// Appending a record whose id exceeds every id present preserves id
/// uniqueness: the store invariant survives every `add`.
pub proof fn lemma_add_keeps_ids_unique(s: Seq<JobView>, j: JobView)
    requires
        ids_unique(s),
        max_id(s) < j.id as nat,
    ensures
        ids_unique(s.push(j)),
{
    lemma_max_id_bounds(s);
    assert forall|i: int, k: int|
        0 <= i < k < s.push(j).len() implies (#[trigger] s.push(j)[i]).id != (#[trigger] s.push(
        j,
    )[k]).id by {
        if k < s.len() {
            assert(s.push(j)[i] == s[i] && s.push(j)[k] == s[k]);
        } else {
            assert(s.push(j)[i] == s[i] && s.push(j)[k] == j);
        }
    }
}

/// `max_id` after a push is the larger of the old maximum and the new id.
pub proof fn lemma_max_id_push(s: Seq<JobView>, x: JobView)
    ensures
        max_id(s.push(x)) == if x.id as nat >= max_id(s) {
            x.id as nat
        } else {
            max_id(s)
        },
{
    assert(s.push(x).drop_last() =~= s);
    assert(s.push(x).last() == x);
}

/// Adding under the next id re-establishes the store invariant with the new
/// high-water mark.
pub proof fn lemma_add_preserves_wf(s: Seq<JobView>, last_id: u32, j: JobView)
    requires
        store_wf(s, last_id),
        last_id < u32::MAX,
        j.id == last_id + 1,
    ensures
        store_wf(s.push(j), j.id),
{
    lemma_max_id_push(s, j);
}

/// Computes `max_id` over the live collection.
pub fn max_id_exec(jobs: &Vec<Job>) -> (r: u32)
    ensures
        r as nat == max_id(views_of(jobs@)),
{
    let ghost all = views_of(jobs@);
    let mut m: u32 = 0;
    let mut i: usize = 0;
    while i < jobs.len()
        invariant
            0 <= i <= jobs.len(),
            all == views_of(jobs@),
            all.len() == jobs@.len(),
            m as nat == max_id(all.take(i as int)),
        decreases jobs.len() - i,
    {
        proof {
            assert(all.take(i + 1).drop_last() =~= all.take(i as int));
            assert(all.take(i + 1).last() == all[i as int]);
            lemma_max_id_take_bound(all, i + 1);
        }
        if jobs[i].id > m {
            m = jobs[i].id;
        }
        i += 1;
    }
    proof {
        assert(all.take(jobs@.len() as int) =~= all);
    }
    m
}

/// `max_id` of a prefix never exceeds `max_id` of the whole.
proof fn lemma_max_id_take_bound(s: Seq<JobView>, n: int)
    requires
        0 <= n <= s.len(),
    ensures
        max_id(s.take(n)) <= max_id(s),
    decreases s.len() - n,
{
    if n < s.len() {
        lemma_max_id_take_bound(s, n + 1);
        assert(s.take(n + 1).drop_last() =~= s.take(n));
        assert(max_id(s.take(n)) <= max_id(s.take(n + 1)));
    } else {
        assert(s.take(n) =~= s);
    }
}

/// Whether some record carries the given id.
pub open spec fn has_id(s: Seq<JobView>, id: u32) -> bool {
    exists|i: int| 0 <= i < s.len() && #[trigger] s[i].id == id
}

/// The index of the first record carrying the given id (`s.len()` if none does).
pub open spec fn first_idx(s: Seq<JobView>, id: u32) -> int
    decreases s.len(),
{
    if s.len() == 0 {
        0
    } else if s[0].id == id {
        0
    } else {
        1 + first_idx(s.skip(1), id)
    }
}

proof fn lemma_first_idx_at(s: Seq<JobView>, id: u32, i: int)
    requires
        0 <= i < s.len(),
        s[i].id == id,
        forall|k: int| 0 <= k < i ==> #[trigger] s[k].id != id,
    ensures
        first_idx(s, id) == i,
    decreases s.len(),
{
    if i > 0 {
        lemma_first_idx_at(s.skip(1), id, i - 1);
    }
}

/// The collection with every record carrying the given id removed.
pub open spec fn remove_id(s: Seq<JobView>, id: u32) -> Seq<JobView>
    decreases s.len(),
{
    if s.len() == 0 {
        Seq::empty()
    } else if s.last().id != id {
        remove_id(s.drop_last(), id).push(s.last())
    } else {
        remove_id(s.drop_last(), id)
    }
}

/// A fresh record as the store builds it: `None` answer, caller-chosen texts.
pub open spec fn fresh_view(
    id: u32,
    company: Seq<char>,
    title: Seq<char>,
    date: Seq<char>,
    docs: Seq<char>,
    location: Seq<char>,
) -> JobView {
    JobView {
        id,
        company,
        title,
        date_submitted: date,
        docs_used: docs,
        location,
        final_answer: None,
    }
}

/// A field-by-field copy of a record.
pub fn clone_job(j: &Job) -> (r: Job)
    ensures
        r@ == j@,
{
    Job {
        id: j.id,
        company: j.company.clone(),
        title: j.title.clone(),
        date_submitted: j.date_submitted.clone(),
        docs_used: j.docs_used.clone(),
        location: j.location.clone(),
        final_answer: match &j.final_answer {
            Some(a) => Some(a.clone()),
            None => None,
        },
    }
}

/// Appends a new record under the id one past the high-water mark, raises
/// the mark to that id, and returns a copy of the record for confirmation
/// messaging. The mark derives from every id ever assigned, not from the
/// records present, so a deleted id is never handed out again.
pub fn add(
    st: &mut Store,
    company: String,
    title: String,
    docs: String,
    location: String,
    date: String,
) -> (r: Job)
    requires
        old(st).last_id < u32::MAX,
    ensures
        r.id == old(st).last_id + 1,
        final(st).last_id == r.id,
        r@ == fresh_view(r.id, company@, title@, date@, docs@, location@),
        views_of(final(st).jobs@) == views_of(old(st).jobs@).push(r@),
{
    let id = st.last_id + 1;
    let job = Job {
        id,
        company,
        title,
        date_submitted: date,
        docs_used: docs,
        location,
        final_answer: None,
    };
    let copy = clone_job(&job);
    st.jobs.push(job);
    st.last_id = id;
    proof {
        assert(views_of(st.jobs@) =~= views_of(old(st).jobs@).push(copy@));
    }
    copy
}

/// Appends a new record like `add`, defaulting the submission date to the
/// current local calendar date when none is supplied.
pub fn add_or_today(
    st: &mut Store,
    company: String,
    title: String,
    docs: String,
    location: String,
    date: Option<String>,
) -> (r: Job)
    requires
        old(st).last_id < u32::MAX,
    ensures
        r.id == old(st).last_id + 1,
        final(st).last_id == r.id,
        r@ == fresh_view(
            r.id,
            company@,
            title@,
            r@.date_submitted,
            docs@,
            location@,
        ),
        date matches Some(d) ==> r@.date_submitted == d@,
        views_of(final(st).jobs@) == views_of(old(st).jobs@).push(r@),
{
    let chosen = match date {
        Some(d) => d,
        None => crate::trusted::today_string(),
    };
    crate::store::add(st, company, title, docs, location, chosen)
}

fn update_jobs(jobs: &mut Vec<Job>, id: u32, answer: String) -> (found: bool)
    ensures
        found == has_id(views_of(old(jobs)@), id),
        !found ==> final(jobs)@ == old(jobs)@,
        found ==> views_of(final(jobs)@) == views_of(old(jobs)@).update(
            first_idx(views_of(old(jobs)@), id),
            (JobView {
                final_answer: Some(answer@),
                ..views_of(old(jobs)@)[first_idx(views_of(old(jobs)@), id)]
            }),
        ),
{
    let ghost orig = views_of(old(jobs)@);
    let mut i: usize = 0;
    while i < jobs.len()
        invariant
            0 <= i <= jobs@.len(),
            jobs@ == old(jobs)@,
            orig == views_of(jobs@),
            forall|k: int| 0 <= k < i ==> #[trigger] orig[k].id != id,
        decreases jobs@.len() - i,
    {
        if jobs[i].id == id {
            let old_j = &jobs[i];
            let updated = Job {
                id: old_j.id,
                company: old_j.company.clone(),
                title: old_j.title.clone(),
                date_submitted: old_j.date_submitted.clone(),
                docs_used: old_j.docs_used.clone(),
                location: old_j.location.clone(),
                final_answer: Some(answer),
            };
            proof {
                lemma_first_idx_at(orig, id, i as int);
                assert(orig[i as int] == jobs@[i as int]@);
            }
            jobs.set(i, updated);
            proof {
                assert(views_of(jobs@) =~= orig.update(
                    i as int,
                    (JobView { final_answer: Some(answer@), ..orig[i as int] }),
                ));
            }
            return true;
        }
        i += 1;
    }
    false
}

fn delete_jobs(jobs: &mut Vec<Job>, id: u32) -> (found: bool)
    ensures
        views_of(final(jobs)@) == remove_id(views_of(old(jobs)@), id),
        found == has_id(views_of(old(jobs)@), id),
        !found ==> final(jobs)@ == old(jobs)@,
{
    let ghost orig = views_of(old(jobs)@);
    let mut found = false;
    let mut i: usize = 0;
    let ghost k: int = 0;
    while i < jobs.len()
        invariant
            0 <= i <= jobs@.len(),
            0 <= k <= orig.len(),
            orig == views_of(old(jobs)@),
            jobs@.len() - i == old(jobs)@.len() - k,
            views_of(jobs@).take(i as int) == remove_id(orig.take(k), id),
            jobs@.skip(i as int) == old(jobs)@.skip(k),
            found == has_id(orig.take(k), id),
            !found ==> jobs@ == old(jobs)@ && k == i,
        decreases jobs@.len() - i,
    {
        proof {
            assert(jobs@[i as int] == jobs@.skip(i as int)[0]);
            assert(old(jobs)@.skip(k)[0] == old(jobs)@[k]);
            assert(orig[k] == old(jobs)@[k]@);
            assert(orig.take(k + 1).drop_last() =~= orig.take(k));
            assert(orig.take(k + 1).last() == orig[k]);
        }
        if jobs[i].id == id {
            proof {
                assert(old(jobs)@[k].id == id);
                assert(orig[k].id == id);
            }
            let ghost pre = jobs@;
            jobs.remove(i);
            proof {
                assert(views_of(jobs@).take(i as int) =~= views_of(pre).take(i as int));
                assert forall|m: int| 0 <= m < jobs@.len() - i implies jobs@.skip(i as int)[m]
                    == old(jobs)@.skip(k + 1)[m] by {
                    assert(jobs@[i + m] == pre[i + 1 + m]);
                    assert(pre.skip(i as int)[m + 1] == old(jobs)@.skip(k)[m + 1]);
                }
                assert(jobs@.skip(i as int) =~= old(jobs)@.skip(k + 1));
                assert(has_id(orig.take(k + 1), id)) by {
                    assert(orig.take(k + 1)[k] == orig[k]);
                    assert(orig.take(k + 1)[k].id == id);
                }
            }
            found = true;
        } else {
            proof {
                assert(views_of(jobs@).take(i as int + 1) =~= views_of(jobs@).take(i as int).push(
                    jobs@[i as int]@,
                ));
                assert forall|m: int| 0 <= m < jobs@.len() - i - 1 implies #[trigger] jobs@.skip(
                    i as int + 1,
                )[m] == old(jobs)@.skip(k + 1)[m] by {
                    assert(jobs@.skip(i as int)[m + 1] == old(jobs)@.skip(k)[m + 1]);
                }
                assert(jobs@.skip(i as int + 1) =~= old(jobs)@.skip(k + 1));
                assert(!has_id(orig.take(k + 1), id) <== !has_id(orig.take(k), id)
                    && orig[k].id != id) by {
                    assert(forall|m: int|
                        0 <= m < k + 1 && #[trigger] orig.take(k + 1)[m].id == id ==> (m < k
                            && orig.take(k)[m].id == id) || (m == k && orig[k].id == id));
                };
            }
            i += 1;
        }
        proof {
            k = k + 1;
        }
    }
    proof {
        assert(jobs@.skip(i as int).len() == 0);
        assert(k == orig.len());
        assert(orig.take(k) =~= orig);
        assert(views_of(jobs@).take(i as int) =~= views_of(jobs@));
    }
    found
}

/// Sets the final answer on the first record with a matching id; on a
/// missing id the store is left exactly as it was. The high-water mark is
/// untouched either way.
pub fn update(st: &mut Store, id: u32, answer: String) -> (found: bool)
    ensures
        final(st).last_id == old(st).last_id,
        found == has_id(views_of(old(st).jobs@), id),
        !found ==> final(st).jobs@ == old(st).jobs@,
        found ==> views_of(final(st).jobs@) == views_of(old(st).jobs@).update(
            first_idx(views_of(old(st).jobs@), id),
            (JobView {
                final_answer: Some(answer@),
                ..views_of(old(st).jobs@)[first_idx(views_of(old(st).jobs@), id)]
            }),
        ),
{
    update_jobs(&mut st.jobs, id, answer)
}

/// Removes every record with a matching id, keeping the others in order,
/// and reports whether any removal occurred. The high-water mark is kept,
/// so the removed id stays retired for good.
pub fn delete(st: &mut Store, id: u32) -> (found: bool)
    ensures
        final(st).last_id == old(st).last_id,
        views_of(final(st).jobs@) == remove_id(views_of(old(st).jobs@), id),
        found == has_id(views_of(old(st).jobs@), id),
        !found ==> final(st).jobs@ == old(st).jobs@,
{
    delete_jobs(&mut st.jobs, id)
}

/// The display form of a record's outcome: the stored answer, or the literal
/// `Pending` placeholder when the answer is absent.
pub open spec fn answer_text(a: Option<Seq<char>>) -> Seq<char> {
    match a {
        Some(t) => t,
        None => "Pending"@,
    }
}

/// Renders the outcome column of a record for listing.
pub fn render_answer(j: &Job) -> (r: String)
    ensures
        r@ == answer_text(j@.final_answer),
{
    match &j.final_answer {
        Some(a) => a.clone(),
        None => {
            let p: &str = "Pending";
            p.to_owned()
        },
    }
}

/// Deletion never lowers the largest id present.
proof fn lemma_max_id_remove_le(s: Seq<JobView>, id: u32)
    ensures
        max_id(remove_id(s, id)) <= max_id(s),
    decreases s.len(),
{
    if s.len() > 0 {
        lemma_max_id_remove_le(s.drop_last(), id);
        if s.last().id != id {
            lemma_max_id_push(remove_id(s.drop_last(), id), s.last());
        }
    }
}

/// A deleted id is never assigned again: deletion preserves the store
/// invariant without lowering the high-water mark, and the next id the
/// store hands out lies strictly above that mark — so strictly above every
/// id ever assigned, the deleted one included.
pub proof fn lemma_no_reuse_after_delete(s: Seq<JobView>, last_id: u32, id: u32)
    requires
        store_wf(s, last_id),
        has_id(s, id),
    ensures
        store_wf(remove_id(s, id), last_id),
        (id as nat) < last_id as nat + 1,
{
    lemma_max_id_remove_le(s, id);
    lemma_max_id_bounds(s);
    let i = choose|i: int| 0 <= i < s.len() && #[trigger] s[i].id == id;
    assert(s[i].id as nat <= max_id(s));
}

} // verus!
