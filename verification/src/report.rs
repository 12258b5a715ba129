//! The export layout: column truncation, the summary statistics, and the
//! paginated placement of every piece of text in the report. The layout is
//! computed here as plain positioned text commands (integer millimetres);
//! rendering them into a document is the caller's concern.

use vstd::prelude::*;
use crate::store::{Job, JobView, views_of, answer_text};
use crate::num::dec_digits;
use crate::num::u64_to_string;

verus! {

/// A display string cut to `w` characters, the last three replaced by an
/// ellipsis when the original was longer.
pub open spec fn truncate_spec(s: Seq<char>, w: nat) -> Seq<char> {
    if s.len() > w {
        s.take(w - 3) + seq!['.', '.', '.']
    } else {
        s
    }
}

/// Truncates a display string to `w` characters with an ellipsis marker; a
/// string that already fits is returned unchanged, whatever the width.
pub fn truncate_text(s: &str, w: usize) -> (r: String)
    requires
        s@.len() > w ==> w >= 3,
    ensures
        r@ == truncate_spec(s@, w as nat),
{
    let len = s.unicode_len();
    if len > w {
        let mut t = s.substring_char(0, w - 3).to_owned();
        t.append("...");
        proof {
            reveal_strlit("...");
            assert(t@ =~= s@.take(w as int - 3) + seq!['.', '.', '.']);
        }
        t
    } else {
        s.to_owned()
    }
}

/// How many records are still pending.
pub open spec fn count_pending(s: Seq<JobView>) -> nat
    decreases s.len(),
{
    if s.len() == 0 {
        0
    } else {
        count_pending(s.drop_last()) + if s.last().final_answer is None {
            1nat
        } else {
            0nat
        }
    }
}

/// How many records carry exactly this answer.
pub open spec fn count_answer(s: Seq<JobView>, a: Seq<char>) -> nat
    decreases s.len(),
{
    if s.len() == 0 {
        0
    } else {
        count_answer(s.drop_last(), a) + if s.last().final_answer == Some(a) {
            1nat
        } else {
            0nat
        }
    }
}

/// The distinct non-pending answers, in order of first appearance.
pub open spec fn distinct_answers(s: Seq<JobView>) -> Seq<Seq<char>>
    decreases s.len(),
{
    if s.len() == 0 {
        Seq::empty()
    } else {
        let d = distinct_answers(s.drop_last());
        match s.last().final_answer {
            Some(a) => if d.contains(a) {
                d
            } else {
                d.push(a)
            },
            None => d,
        }
    }
}

/// Counts the pending records.
pub fn pending_count(jobs: &Vec<Job>) -> (r: usize)
    ensures
        r as nat == count_pending(views_of(jobs@)),
{
    let ghost all = views_of(jobs@);
    let mut r: usize = 0;
    let mut i: usize = 0;
    proof {
        assert(all.take(0) =~= Seq::empty());
    }
    while i < jobs.len()
        invariant
            0 <= i <= jobs@.len(),
            all == views_of(jobs@),
            all.len() == jobs@.len(),
            r <= i,
            r as nat == count_pending(all.take(i as int)),
        decreases jobs@.len() - i,
    {
        proof {
            assert(all.take(i as int + 1).drop_last() =~= all.take(i as int));
            assert(all.take(i as int + 1).last() == all[i as int]);
            assert(all[i as int] == jobs@[i as int]@);
        }
        if jobs[i].final_answer.is_none() {
            r += 1;
        }
        i += 1;
    }
    proof {
        assert(all.take(jobs@.len() as int) =~= all);
    }
    r
}

/// One distinct answer and how many records carry it.
pub struct LabelCount {
    pub label: String,
    pub count: usize,
}

/// Tallies every distinct non-pending answer, in order of first appearance.
pub fn answer_stats(jobs: &Vec<Job>) -> (r: Vec<LabelCount>)
    ensures
        r@.map_values(|lc: LabelCount| lc.label@) == distinct_answers(views_of(jobs@)),
        forall|k: int|
            0 <= k < r@.len() ==> (#[trigger] r@[k]).count as nat == count_answer(
                views_of(jobs@),
                r@[k].label@,
            ),
{
    let ghost all = views_of(jobs@);
    let mut r: Vec<LabelCount> = Vec::new();
    let mut i: usize = 0;
    proof {
        assert(all.take(0) =~= Seq::empty());
        assert(r@.map_values(|lc: LabelCount| lc.label@) =~= distinct_answers(all.take(0)));
    }
    while i < jobs.len()
        invariant
            0 <= i <= jobs@.len(),
            all == views_of(jobs@),
            all.len() == jobs@.len(),
            r@.map_values(|lc: LabelCount| lc.label@) == distinct_answers(all.take(i as int)),
            forall|k: int|
                0 <= k < r@.len() ==> (#[trigger] r@[k]).count as nat == count_answer(
                    all.take(i as int),
                    r@[k].label@,
                ) && r@[k].count <= i,
            forall|k1: int, k2: int|
                0 <= k1 < k2 < r@.len() ==> (#[trigger] r@[k1]).label@ != (#[trigger] r@[k2]).label@,
        decreases jobs@.len() - i,
    {
        let ghost labels = r@.map_values(|lc: LabelCount| lc.label@);
        proof {
            assert(all.take(i as int + 1).drop_last() =~= all.take(i as int));
            assert(all.take(i as int + 1).last() == all[i as int]);
            assert(all[i as int] == jobs@[i as int]@);
        }
        match &jobs[i].final_answer {
            None => {
                proof {
                    assert(forall|a: Seq<char>|
                        #[trigger] count_answer(all.take(i as int + 1), a) == count_answer(
                            all.take(i as int),
                            a,
                        ));
                }
            },
            Some(ans) => {
                let ghost a0 = ans@;
                let idx = find_label(&r, ans);
                proof {
                    assert(forall|a: Seq<char>|
                        a != a0 ==> #[trigger] count_answer(all.take(i as int + 1), a)
                            == count_answer(all.take(i as int), a));
                    assert(count_answer(all.take(i as int + 1), a0) == count_answer(
                        all.take(i as int),
                        a0,
                    ) + 1);
                }
                match idx {
                    Some(k) => {
                        proof {
                            assert(labels[k as int] == a0);
                            assert(labels.contains(a0));
                            assert(distinct_answers(all.take(i as int + 1)) == labels);
                        }
                        let bumped = LabelCount {
                            label: r[k].label.clone(),
                            count: r[k].count + 1,
                        };
                        let ghost pre = r@;
                        r.set(k, bumped);
                        proof {
                            assert(r@.map_values(|lc: LabelCount| lc.label@) =~= labels);
                        }
                    },
                    None => {
                        proof {
                            assert(forall|k: int|
                                0 <= k < labels.len() ==> #[trigger] labels[k] != a0);
                            assert(!labels.contains(a0));
                            assert(distinct_answers(all.take(i as int + 1)) == labels.push(a0));
                            assert(count_answer(all.take(i as int), a0) == 0) by {
                                if count_answer(all.take(i as int), a0) != 0 {
                                    lemma_count_answer_distinct(all.take(i as int), a0);
                                }
                            }
                        }
                        let fresh = LabelCount { label: ans.clone(), count: 1 };
                        r.push(fresh);
                        proof {
                            assert(r@.map_values(|lc: LabelCount| lc.label@) =~= labels.push(a0));
                        }
                    },
                }
            },
        }
        i += 1;
    }
    proof {
        assert(all.take(jobs@.len() as int) =~= all);
    }
    r
}

/// An answer that occurs in the collection appears among the distinct
/// answers.
pub proof fn lemma_count_answer_distinct(s: Seq<JobView>, a: Seq<char>)
    requires
        count_answer(s, a) != 0,
    ensures
        distinct_answers(s).contains(a),
    decreases s.len(),
{
    if s.len() > 0 {
        let d = distinct_answers(s.drop_last());
        if s.last().final_answer == Some(a) {
            if !d.contains(a) {
                assert(distinct_answers(s).last() == a);
            } else {
                let w = choose|w: int| 0 <= w < d.len() && d[w] == a;
                assert(distinct_answers(s)[w] == a);
            }
        } else {
            lemma_count_answer_distinct(s.drop_last(), a);
            let w = choose|w: int| 0 <= w < d.len() && d[w] == a;
            assert(distinct_answers(s)[w] == a);
        }
    }
}

/// There are never more distinct answers than records.
pub proof fn lemma_distinct_answers_len(s: Seq<JobView>)
    ensures
        distinct_answers(s).len() <= s.len(),
    decreases s.len(),
{
    if s.len() > 0 {
        lemma_distinct_answers_len(s.drop_last());
    }
}

/// The index of a label among the tallies, if present.
fn find_label(r: &Vec<LabelCount>, label: &String) -> (idx: Option<usize>)
    ensures
        idx matches Some(k) ==> 0 <= k < r@.len() && r@[k as int].label@ == label@,
        idx is None ==> forall|k: int| 0 <= k < r@.len() ==> (#[trigger] r@[k]).label@ != label@,
{
    let mut k: usize = 0;
    while k < r.len()
        invariant
            0 <= k <= r@.len(),
            forall|m: int| 0 <= m < k ==> (#[trigger] r@[m]).label@ != label@,
        decreases r@.len() - k,
    {
        if r[k].label.eq(label) {
            return Some(k);
        }
        k += 1;
    }
    None
}

} // verus!

// The page geometry, in whole millimetres from the bottom-left corner.
verus! {

/// One piece of text placed on a page of the report.
pub struct TextCmd {
    pub page: usize,
    pub x: u32,
    pub y: u32,
    pub size: u32,
    pub text: String,
}

/// The mathematical image of a placed piece of text.
pub ghost struct TextCmdView {
    pub page: int,
    pub x: int,
    pub y: int,
    pub size: int,
    pub text: Seq<char>,
}

impl View for TextCmd {
    type V = TextCmdView;

    open spec fn view(&self) -> TextCmdView {
        TextCmdView {
            page: self.page as int,
            x: self.x as int,
            y: self.y as int,
            size: self.size as int,
            text: self.text@,
        }
    }
}

/// The views of a command list.
pub open spec fn cmd_views(s: Seq<TextCmd>) -> Seq<TextCmdView> {
    s.map_values(|c: TextCmd| c@)
}

pub open spec fn cmdv(page: int, x: int, y: int, size: int, text: Seq<char>) -> TextCmdView {
    TextCmdView { page, x, y, size, text }
}

/// The column header drawn at the top of each page of records.
pub open spec fn header_cmds(page: int) -> Seq<TextCmdView> {
    seq![
        cmdv(page, 10, 190, 12, "ID"@),
        cmdv(page, 30, 190, 12, "Company"@),
        cmdv(page, 80, 190, 12, "Title"@),
        cmdv(page, 130, 190, 12, "Date"@),
        cmdv(page, 160, 190, 12, "Status"@),
    ]
}

/// One record's table row.
pub open spec fn row_cmds(page: int, y: int, j: JobView) -> Seq<TextCmdView> {
    seq![
        cmdv(page, 10, y, 10, dec_digits(j.id as nat)),
        cmdv(page, 30, y, 10, truncate_spec(j.company, 25)),
        cmdv(page, 80, y, 10, truncate_spec(j.title, 25)),
        cmdv(page, 130, y, 10, j.date_submitted),
        cmdv(page, 160, y, 10, truncate_spec(answer_text(j.final_answer), 20)),
    ]
}

/// The cursor of the pagination machine: current page and vertical position.
pub ghost struct LayoutPos {
    pub page: int,
    pub y: int,
}

/// Lays out the record rows from a cursor: a row is drawn at the cursor and
/// the cursor advances by one line height; when the cursor has crossed the
/// bottom margin, a fresh page is opened and the header redrawn first.
pub open spec fn rows_layout(js: Seq<JobView>, st: LayoutPos) -> (Seq<TextCmdView>, LayoutPos)
    decreases js.len(),
{
    if js.len() == 0 {
        (Seq::empty(), st)
    } else if st.y < 20 {
        let rest = rows_layout(js.skip(1), LayoutPos { page: st.page + 1, y: 180 - 6 });
        (header_cmds(st.page + 1) + row_cmds(st.page + 1, 180, js[0]) + rest.0, rest.1)
    } else {
        let rest = rows_layout(js.skip(1), LayoutPos { page: st.page, y: st.y - 6 });
        (row_cmds(st.page, st.y, js[0]) + rest.0, rest.1)
    }
}

/// One line of the statistics block: a label and its count.
pub open spec fn stat_row_cmds(page: int, y: int, label: Seq<char>, n: nat) -> Seq<TextCmdView> {
    seq![cmdv(page, 10, y, 12, label), cmdv(page, 60, y, 12, dec_digits(n))]
}

/// Lays out one statistics line per distinct answer, opening fresh pages as
/// the cursor crosses the bottom margin (without redrawing the header).
pub open spec fn stats_tail_layout(js: Seq<JobView>, labels: Seq<Seq<char>>, st: LayoutPos) -> Seq<
    TextCmdView,
>
    decreases labels.len(),
{
    if labels.len() == 0 {
        Seq::empty()
    } else if st.y < 20 {
        stat_row_cmds(st.page + 1, 190, labels[0], count_answer(js, labels[0]))
            + stats_tail_layout(js, labels.skip(1), LayoutPos { page: st.page + 1, y: 190 - 6 })
    } else {
        stat_row_cmds(st.page, st.y, labels[0], count_answer(js, labels[0])) + stats_tail_layout(
            js,
            labels.skip(1),
            LayoutPos { page: st.page, y: st.y - 6 },
        )
    }
}

/// The statistics block at a given position: title, total count, pending
/// count, then one line per distinct answer.
pub open spec fn stats_block(js: Seq<JobView>, page: int, y: int) -> Seq<TextCmdView> {
    seq![cmdv(page, 10, y, 14, "Statistics"@)] + seq![
        cmdv(page, 10, y - 8, 12, "Total Applications"@),
        cmdv(page, 60, y - 8, 12, dec_digits(js.len())),
    ] + seq![
        cmdv(page, 10, y - 14, 12, "Pending"@),
        cmdv(page, 60, y - 14, 12, dec_digits(count_pending(js))),
    ] + stats_tail_layout(js, distinct_answers(js), LayoutPos { page, y: y - 20 })
}

/// The statistics section after the record rows: a gap below the last row,
/// a fresh page when too little room is left, then the block itself.
pub open spec fn stats_layout(js: Seq<JobView>, st: LayoutPos) -> Seq<TextCmdView> {
    if st.y - 10 < 40 {
        stats_block(js, st.page + 1, 190)
    } else {
        stats_block(js, st.page, st.y - 10)
    }
}

/// The whole report: the header of the first page, every record row with
/// pagination, and the statistics section.
pub open spec fn report_layout(js: Seq<JobView>) -> Seq<TextCmdView> {
    let rows = rows_layout(js, LayoutPos { page: 0, y: 180 });
    header_cmds(0) + rows.0 + stats_layout(js, rows.1)
}

/// Appends one placed piece of text.
fn push_cmd(cmds: &mut Vec<TextCmd>, page: usize, x: u32, y: u32, size: u32, text: String)
    ensures
        cmd_views(final(cmds)@) == cmd_views(old(cmds)@).push(
            cmdv(page as int, x as int, y as int, size as int, text@),
        ),
{
    let ghost pre = cmds@;
    cmds.push(TextCmd { page, x, y, size, text });
    proof {
        assert(cmd_views(cmds@) =~= cmd_views(pre).push(
            cmdv(page as int, x as int, y as int, size as int, text@),
        ));
    }
}

/// Appends the column header for a page.
fn push_header(cmds: &mut Vec<TextCmd>, page: usize)
    ensures
        cmd_views(final(cmds)@) == cmd_views(old(cmds)@) + header_cmds(page as int),
{
    let ghost pre = cmds@;
    push_cmd(cmds, page, 10, 190, 12, "ID".to_owned());
    push_cmd(cmds, page, 30, 190, 12, "Company".to_owned());
    push_cmd(cmds, page, 80, 190, 12, "Title".to_owned());
    push_cmd(cmds, page, 130, 190, 12, "Date".to_owned());
    push_cmd(cmds, page, 160, 190, 12, "Status".to_owned());
    proof {
        assert(cmd_views(cmds@) =~= cmd_views(pre) + header_cmds(page as int));
    }
}

/// Appends one record row at the cursor.
fn push_row(cmds: &mut Vec<TextCmd>, page: usize, y: u32, j: &Job)
    ensures
        cmd_views(final(cmds)@) == cmd_views(old(cmds)@) + row_cmds(page as int, y as int, j@),
{
    let ghost pre = cmds@;
    push_cmd(cmds, page, 10, y, 10, u64_to_string(j.id as u64));
    push_cmd(cmds, page, 30, y, 10, truncate_text(j.company.as_str(), 25));
    push_cmd(cmds, page, 80, y, 10, truncate_text(j.title.as_str(), 25));
    push_cmd(cmds, page, 130, y, 10, j.date_submitted.clone());
    let shown = crate::store::render_answer(j);
    push_cmd(cmds, page, 160, y, 10, truncate_text(shown.as_str(), 20));
    proof {
        assert(cmd_views(cmds@) =~= cmd_views(pre) + row_cmds(page as int, y as int, j@));
    }
}

/// Computes the whole report layout, exactly as `report_layout` states.
#[verifier::rlimit(60)]
pub fn layout_report(jobs: &Vec<Job>) -> (r: Vec<TextCmd>)
    requires
        2 * jobs@.len() + 4 < usize::MAX,
    ensures
        cmd_views(r@) == report_layout(views_of(jobs@)),
{
    let ghost all = views_of(jobs@);
    let mut cmds: Vec<TextCmd> = Vec::new();
    let mut page: usize = 0;
    let mut y: u32 = 180;
    push_header(&mut cmds, 0);
    let ghost st0 = (LayoutPos { page: 0, y: 180 });
    let mut i: usize = 0;
    proof {
        assert(all.skip(0) =~= all);
        assert(cmd_views(Seq::<TextCmd>::empty()) =~= Seq::<TextCmdView>::empty());
        assert(cmd_views(cmds@) =~= Seq::<TextCmdView>::empty() + header_cmds(0));
        assert(header_cmds(0) + rows_layout(all, st0).0 =~= cmd_views(cmds@) + rows_layout(
            all.skip(0),
            st0,
        ).0);
    }
    while i < jobs.len()
        invariant
            0 <= i <= jobs@.len(),
            all == views_of(jobs@),
            all.len() == jobs@.len(),
            2 * jobs@.len() + 4 < usize::MAX,
            page <= i + 1,
            14 <= y <= 190,
            header_cmds(0) + rows_layout(all, st0).0 == cmd_views(cmds@) + rows_layout(
                all.skip(i as int),
                (LayoutPos { page: page as int, y: y as int }),
            ).0,
            rows_layout(all, st0).1 == rows_layout(
                all.skip(i as int),
                (LayoutPos { page: page as int, y: y as int }),
            ).1,
        decreases jobs@.len() - i,
    {
        let ghost cur = (LayoutPos { page: page as int, y: y as int });
        proof {
            assert(all.skip(i as int)[0] == all[i as int]);
            assert(all.skip(i as int).skip(1) =~= all.skip(i as int + 1));
            assert(all[i as int] == jobs@[i as int]@);
        }
        let ghost pre = cmds@;
        let ghost mut appended = Seq::<TextCmdView>::empty();
        if y < 20 {
            page += 1;
            push_header(&mut cmds, page);
            push_row(&mut cmds, page, 180, &jobs[i]);
            y = 180 - 6;
            proof {
                appended = header_cmds(cur.page + 1) + row_cmds(cur.page + 1, 180, all[i as int]);
                assert(cmd_views(cmds@) =~= cmd_views(pre) + appended);
            }
        } else {
            push_row(&mut cmds, page, y, &jobs[i]);
            y = y - 6;
            proof {
                appended = row_cmds(cur.page, cur.y, all[i as int]);
                assert(cmd_views(cmds@) =~= cmd_views(pre) + appended);
            }
        }
        proof {
            let nxt = (LayoutPos { page: page as int, y: y as int });
            assert(rows_layout(all.skip(i as int), cur).0 =~= appended + rows_layout(
                all.skip(i as int + 1),
                nxt,
            ).0);
            assert(rows_layout(all.skip(i as int), cur).1 == rows_layout(
                all.skip(i as int + 1),
                nxt,
            ).1);
            assert(header_cmds(0) + rows_layout(all, st0).0 =~= cmd_views(cmds@) + rows_layout(
                all.skip(i as int + 1),
                nxt,
            ).0);
        }
        i += 1;
    }
    proof {
        assert(all.skip(i as int) =~= Seq::<JobView>::empty());
        assert(rows_layout(Seq::<JobView>::empty(), rows_layout(all, st0).1).0
            =~= Seq::<TextCmdView>::empty());
        assert(cmd_views(cmds@) + Seq::<TextCmdView>::empty() =~= cmd_views(cmds@));
        assert(cmd_views(cmds@) =~= header_cmds(0) + rows_layout(all, st0).0);
    }
    let ghost rows_end = rows_layout(all, st0).1;
    if y < 50 {
        page += 1;
        y = 190;
    } else {
        y = y - 10;
    }
    proof {
        assert(page as int == if rows_end.y - 10 < 40 {
            rows_end.page + 1
        } else {
            rows_end.page
        });
        assert(y as int == if rows_end.y - 10 < 40 {
            190int
        } else {
            rows_end.y - 10
        });
    }
    let ghost before_stats = cmds@;
    let total = jobs.len();
    let pend = pending_count(jobs);
    push_cmd(&mut cmds, page, 10, y, 14, "Statistics".to_owned());
    push_cmd(&mut cmds, page, 10, y - 8, 12, "Total Applications".to_owned());
    push_cmd(&mut cmds, page, 60, y - 8, 12, u64_to_string(total as u64));
    push_cmd(&mut cmds, page, 10, y - 14, 12, "Pending".to_owned());
    push_cmd(&mut cmds, page, 60, y - 14, 12, u64_to_string(pend as u64));
    let stats = answer_stats(jobs);
    let ghost labels = stats@.map_values(|lc: LabelCount| lc.label@);
    let ghost stats_start = (LayoutPos { page: page as int, y: y as int - 20 });
    let mut sy: u32 = y - 20;
    let ghost before_tail = cmds@;
    proof {
        assert(labels.skip(0) =~= labels);
        assert(cmd_views(cmds@) =~= cmd_views(before_stats) + (seq![
            cmdv(page as int, 10, y as int, 14, "Statistics"@),
        ] + seq![
            cmdv(page as int, 10, y as int - 8, 12, "Total Applications"@),
            cmdv(page as int, 60, y as int - 8, 12, dec_digits(all.len())),
        ] + seq![
            cmdv(page as int, 10, y as int - 14, 12, "Pending"@),
            cmdv(page as int, 60, y as int - 14, 12, dec_digits(count_pending(all))),
        ]));
    }
    proof {
        lemma_distinct_answers_len(all);
    }
    let mut k: usize = 0;
    while k < stats.len()
        invariant
            0 <= k <= stats@.len(),
            all == views_of(jobs@),
            labels == stats@.map_values(|lc: LabelCount| lc.label@),
            labels.len() == stats@.len(),
            forall|m: int|
                0 <= m < stats@.len() ==> (#[trigger] stats@[m]).count as nat == count_answer(
                    all,
                    stats@[m].label@,
                ),
            page <= jobs@.len() + 2 + k,
            2 * jobs@.len() + 4 < usize::MAX,
            stats@.len() <= jobs@.len(),
            4 <= sy <= 190,
            cmd_views(cmds@) + stats_tail_layout(
                all,
                labels.skip(k as int),
                (LayoutPos { page: page as int, y: sy as int }),
            ) == cmd_views(before_tail) + stats_tail_layout(all, labels, stats_start),
        decreases stats@.len() - k,
    {
        let ghost cur = (LayoutPos { page: page as int, y: sy as int });
        proof {
            assert(labels.skip(k as int)[0] == labels[k as int]);
            assert(labels.skip(k as int).skip(1) =~= labels.skip(k as int + 1));
            assert(labels[k as int] == stats@[k as int].label@);
        }
        let ghost pre = cmds@;
        if sy < 20 {
            page += 1;
            sy = 190;
        }
        let label_text = stats[k].label.clone();
        let count_text = u64_to_string(stats[k].count as u64);
        push_cmd(&mut cmds, page, 10, sy, 12, label_text);
        push_cmd(&mut cmds, page, 60, sy, 12, count_text);
        sy = sy - 6;
        proof {
            let nxt = (LayoutPos { page: page as int, y: sy as int });
            assert(cmd_views(cmds@) =~= cmd_views(pre) + stat_row_cmds(
                page as int,
                sy as int + 6,
                labels[k as int],
                count_answer(all, labels[k as int]),
            ));
            assert(stats_tail_layout(all, labels.skip(k as int), cur) =~= stat_row_cmds(
                page as int,
                sy as int + 6,
                labels[k as int],
                count_answer(all, labels[k as int]),
            ) + stats_tail_layout(all, labels.skip(k as int + 1), nxt));
            assert(cmd_views(cmds@) + stats_tail_layout(all, labels.skip(k as int + 1), nxt)
                =~= cmd_views(pre) + stats_tail_layout(all, labels.skip(k as int), cur));
        }
        k += 1;
    }
    proof {
        assert(labels.skip(k as int) =~= Seq::<Seq<char>>::empty());
        assert(stats_tail_layout(
            all,
            Seq::<Seq<char>>::empty(),
            (LayoutPos { page: page as int, y: sy as int }),
        ) =~= Seq::<TextCmdView>::empty());
        assert(cmd_views(cmds@) =~= cmd_views(before_tail) + stats_tail_layout(
            all,
            labels,
            stats_start,
        ));
        assert(labels == distinct_answers(all));
        assert(cmd_views(cmds@) =~= cmd_views(before_stats) + stats_block(
            all,
            rows_end.page + if rows_end.y - 10 < 40 {
                1int
            } else {
                0int
            },
            if rows_end.y - 10 < 40 {
                190int
            } else {
                rows_end.y - 10
            },
        ));
        assert(cmd_views(cmds@) =~= cmd_views(before_stats) + stats_layout(all, rows_end));
        assert(cmd_views(cmds@) =~= report_layout(all));
    }
    cmds
}

} // verus!
