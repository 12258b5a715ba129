//! The persisted file format: a human-readable record array headed by the
//! store's high-water mark, and its reader. Loading tolerates arbitrary
//! content — anything that is not a well-formed store reads back as the
//! empty store — and re-saving what was loaded is proved to reproduce the
//! bytes exactly.
//!
//! The file opens with `H <last assigned id>\n`; each record follows as
//! `J <id>\n<field>*5<answer>` with `<field>` = `<len>:<text>\n`, the five
//! fields being company, title, date, documents and location, and
//! `<answer>` = `-\n` for a pending record or `=<field>` for a decided one.
//! A header below the largest record id present is rejected as corrupt, so
//! every loaded store satisfies the store invariant.

use vstd::prelude::*;
use crate::store::{Job, JobView, Store, StoreView, views_of, max_id, max_id_exec, store_wf};
use crate::num::{
    dec_digits,
    digits_val,
    digit_val,
    is_digit,
    lemma_dec_digits_shape,
    lemma_dec_digits_val,
};

verus! {

/// One length-prefixed field line.
pub open spec fn ser_field(v: Seq<char>) -> Seq<char> {
    dec_digits(v.len()) + seq![':'] + v + seq!['\n']
}

/// The answer line: `-` for pending, `=` plus a field line otherwise.
pub open spec fn ser_answer(a: Option<Seq<char>>) -> Seq<char> {
    match a {
        None => seq!['-', '\n'],
        Some(v) => seq!['='] + ser_field(v),
    }
}

/// One whole record.
pub open spec fn ser_job(j: JobView) -> Seq<char> {
    seq!['J', ' '] + dec_digits(j.id as nat) + seq!['\n'] + ser_field(j.company) + ser_field(
        j.title,
    ) + ser_field(j.date_submitted) + ser_field(j.docs_used) + ser_field(j.location) + ser_answer(
        j.final_answer,
    )
}

/// The whole collection, record after record.
pub open spec fn ser_jobs(js: Seq<JobView>) -> Seq<char>
    decreases js.len(),
{
    if js.len() == 0 {
        Seq::empty()
    } else {
        ser_job(js[0]) + ser_jobs(js.skip(1))
    }
}

proof fn lemma_ser_jobs_snoc(js: Seq<JobView>, x: JobView)
    ensures
        ser_jobs(js.push(x)) == ser_jobs(js) + ser_job(x),
    decreases js.len(),
{
    if js.len() == 0 {
        assert(js.push(x)[0] == x);
        assert(js.push(x).skip(1) =~= Seq::empty());
        assert(ser_jobs(Seq::<JobView>::empty()) =~= Seq::<char>::empty());
        assert(ser_jobs(js) =~= Seq::<char>::empty());
        assert(ser_jobs(js.push(x)) =~= ser_jobs(js) + ser_job(x));
    } else {
        lemma_ser_jobs_snoc(js.skip(1), x);
        assert(js.push(x).skip(1) =~= js.skip(1).push(x));
        assert(js.push(x)[0] == js[0]);
        assert(ser_job(js[0]) + (ser_jobs(js.skip(1)) + ser_job(x)) =~= (ser_job(js[0])
            + ser_jobs(js.skip(1))) + ser_job(x));
    }
}

/// The whole store: the high-water-mark header, then the records.
pub open spec fn ser_store(v: StoreView) -> Seq<char> {
    seq!['H', ' '] + dec_digits(v.last_id as nat) + seq!['\n'] + ser_jobs(v.jobs)
}

/// Appends one field line to the output.
fn write_field(out: &mut String, v: &String)
    ensures
        final(out)@ == old(out)@ + ser_field(v@),
{
    let n = v.as_str().unicode_len();
    let ghost before = out@;
    crate::num::push_decimal(out, n as u64);
    out.push(':');
    out.append(v.as_str());
    out.push('\n');
    proof {
        assert(out@ =~= before + ser_field(v@));
    }
}

/// Appends every record, exactly as `ser_jobs` states.
#[verifier::rlimit(60)]
fn write_jobs(out: &mut String, jobs: &Vec<Job>)
    ensures
        final(out)@ == old(out)@ + ser_jobs(views_of(jobs@)),
{
    let ghost all = views_of(jobs@);
    let ghost start = out@;
    let mut i: usize = 0;
    proof {
        assert(ser_jobs(all.take(0)) =~= Seq::empty());
        assert(out@ =~= start + ser_jobs(all.take(0)));
    }
    while i < jobs.len()
        invariant
            0 <= i <= jobs@.len(),
            all == views_of(jobs@),
            all.len() == jobs@.len(),
            out@ == start + ser_jobs(all.take(i as int)),
        decreases jobs@.len() - i,
    {
        let ghost before = out@;
        let j = &jobs[i];
        proof {
            assert(all[i as int] == jobs@[i as int]@);
        }
        out.push('J');
        out.push(' ');
        crate::num::push_decimal(out, j.id as u64);
        out.push('\n');
        proof {
            assert(out@ =~= before + (seq!['J', ' '] + dec_digits(j.id as nat) + seq!['\n']));
        }
        write_field(out, &j.company);
        write_field(out, &j.title);
        write_field(out, &j.date_submitted);
        write_field(out, &j.docs_used);
        write_field(out, &j.location);
        match &j.final_answer {
            None => {
                out.push('-');
                out.push('\n');
            },
            Some(v) => {
                out.push('=');
                write_field(out, v);
            },
        }
        proof {
            assert(out@ =~= before + ser_job(all[i as int]));
            lemma_ser_jobs_snoc(all.take(i as int), all[i as int]);
            assert(all.take(i as int).push(all[i as int]) =~= all.take(i as int + 1));
            assert(out@ =~= start + ser_jobs(all.take(i as int + 1)));
        }
        i += 1;
    }
    proof {
        assert(all.take(jobs@.len() as int) =~= all);
    }
}

/// Serializes the whole store, exactly as `ser_store` states.
pub fn save_jobs(st: &Store) -> (r: String)
    ensures
        r@ == ser_store(st@),
{
    let mut out = String::new();
    out.push('H');
    out.push(' ');
    crate::num::push_decimal(&mut out, st.last_id as u64);
    out.push('\n');
    let ghost hdr = out@;
    proof {
        assert(hdr =~= seq!['H', ' '] + dec_digits(st.last_id as nat) + seq!['\n']);
    }
    write_jobs(&mut out, &st.jobs);
    proof {
        assert(out@ =~= ser_store(st@));
    }
    out
}

/// The end of the run of digits starting at `pos`.
pub open spec fn digit_end(s: Seq<char>, pos: int) -> int
    decreases s.len() - pos,
    when 0 <= pos <= s.len()
{
    if pos == s.len() {
        pos
    } else if !is_digit(s[pos]) {
        pos
    } else {
        digit_end(s, pos + 1)
    }
}

/// Reads one field line at `pos`: a digit run, a colon, that many
/// characters, a newline. Yields the field text and the next position.
pub open spec fn parse_field_at(s: Seq<char>, pos: int) -> Option<(Seq<char>, int)> {
    if !(0 <= pos && pos <= s.len()) {
        None
    } else {
        let e = digit_end(s, pos);
        if e == pos {
            None
        } else {
            let n = digits_val(s.subrange(pos, e)) as int;
            if e < s.len() && s[e] == ':' && e + 1 + n + 1 <= s.len() && s[e + 1 + n] == '\n' {
                Some((s.subrange(e + 1, e + 1 + n), e + 1 + n + 1))
            } else {
                None
            }
        }
    }
}

/// Reads the answer at `pos`: `-` then newline for pending, or `=` then a
/// field line.
pub open spec fn parse_answer_at(s: Seq<char>, pos: int) -> Option<(Option<Seq<char>>, int)> {
    if !(0 <= pos && pos <= s.len()) {
        None
    } else if pos + 2 <= s.len() && s[pos] == '-' && s[pos + 1] == '\n' {
        Some((None, pos + 2))
    } else if pos < s.len() && s[pos] == '=' {
        match parse_field_at(s, pos + 1) {
            Some((v, p)) => Some((Some(v), p)),
            None => None,
        }
    } else {
        None
    }
}

/// Reads one record at `pos`.
pub open spec fn parse_job_at(s: Seq<char>, pos: int) -> Option<(JobView, int)> {
    if !(0 <= pos && pos + 2 <= s.len() && s[pos] == 'J' && s[pos + 1] == ' ') {
        None
    } else {
        let e = digit_end(s, pos + 2);
        if e == pos + 2 {
            None
        } else {
            let idn = digits_val(s.subrange(pos + 2, e));
            if !(e < s.len() && s[e] == '\n' && idn <= u32::MAX as nat) {
                None
            } else {
                match parse_field_at(s, e + 1) {
                    None => None,
                    Some((company, p1)) => match parse_field_at(s, p1) {
                        None => None,
                        Some((title, p2)) => match parse_field_at(s, p2) {
                            None => None,
                            Some((date, p3)) => match parse_field_at(s, p3) {
                                None => None,
                                Some((docs, p4)) => match parse_field_at(s, p4) {
                                    None => None,
                                    Some((location, p5)) => match parse_answer_at(s, p5) {
                                        None => None,
                                        Some((ans, p6)) => Some(
                                            (
                                                JobView {
                                                    id: idn as u32,
                                                    company,
                                                    title,
                                                    date_submitted: date,
                                                    docs_used: docs,
                                                    location,
                                                    final_answer: ans,
                                                },
                                                p6,
                                            ),
                                        ),
                                    },
                                },
                            },
                        },
                    },
                }
            }
        }
    }
}

/// Reads records from `pos` to the end of the input.
pub open spec fn parse_jobs_at(s: Seq<char>, pos: int) -> Option<Seq<JobView>>
    decreases s.len() - pos,
    when 0 <= pos <= s.len()
{
    if pos == s.len() {
        Some(Seq::empty())
    } else {
        match parse_job_at(s, pos) {
            None => None,
            Some((j, p)) => if pos < p <= s.len() {
                match parse_jobs_at(s, p) {
                    None => None,
                    Some(rest) => Some(seq![j] + rest),
                }
            } else {
                None
            },
        }
    }
}

/// Reads the whole store: the `H` header with the high-water mark, then
/// records to the end of the input. A mark below the largest record id is
/// rejected, so whatever parses satisfies the store invariant.
pub open spec fn parse_store_at(s: Seq<char>) -> Option<StoreView> {
    if !(2 <= s.len() && s[0] == 'H' && s[1] == ' ') {
        None
    } else {
        let e = digit_end(s, 2);
        if e == 2 {
            None
        } else {
            let n = digits_val(s.subrange(2, e));
            if !(e < s.len() && s[e] == '\n' && n <= u32::MAX as nat) {
                None
            } else {
                match parse_jobs_at(s, e + 1) {
                    None => None,
                    Some(js) => if max_id(js) <= n {
                        Some(StoreView { jobs: js, last_id: n as u32 })
                    } else {
                        None
                    },
                }
            }
        }
    }
}

/// The empty store: no records, no id ever assigned.
pub open spec fn empty_store() -> StoreView {
    StoreView { jobs: Seq::empty(), last_id: 0 }
}

/// What a persisted text denotes: the parsed store, or the empty store when
/// the text is not a well-formed record array.
pub open spec fn load_spec(t: Seq<char>) -> StoreView {
    match parse_store_at(t) {
        Some(v) => v,
        None => empty_store(),
    }
}

/// Whatever a text loads as satisfies the store invariant: the high-water
/// mark bounds every id present.
pub proof fn lemma_load_wf(t: Seq<char>)
    ensures
        store_wf(load_spec(t).jobs, load_spec(t).last_id),
{
}

proof fn lemma_digit_end_at(s: Seq<char>, pos: int, k: int)
    requires
        0 <= pos <= k <= s.len(),
        forall|m: int| pos <= m < k ==> is_digit(#[trigger] s[m]),
        k == s.len() || !is_digit(s[k]),
    ensures
        digit_end(s, pos) == k,
    decreases k - pos,
{
    if pos < k {
        lemma_digit_end_at(s, pos + 1, k);
    }
}

/// One character of an embedded window, as a ground fact.
proof fn lemma_char_transfer(s: Seq<char>, pos: int, w: Seq<char>, i: int)
    requires
        0 <= pos,
        pos + w.len() <= s.len(),
        s.subrange(pos, pos + w.len() as int) == w,
        0 <= i < w.len(),
    ensures
        s[pos + i] == w[i],
{
    assert(s.subrange(pos, pos + w.len() as int)[i] == s[pos + i]);
}

/// One segment of an embedded window, as a ground fact.
proof fn lemma_subrange_transfer(s: Seq<char>, pos: int, w: Seq<char>, a: int, b: int)
    requires
        0 <= pos,
        pos + w.len() <= s.len(),
        s.subrange(pos, pos + w.len() as int) == w,
        0 <= a <= b <= w.len(),
    ensures
        s.subrange(pos + a, pos + b) == w.subrange(a, b),
{
    assert forall|m: int| 0 <= m < b - a implies s.subrange(pos + a, pos + b)[m] == w.subrange(
        a,
        b,
    )[m] by {
        assert(s.subrange(pos + a, pos + b)[m] == s[pos + a + m]);
        assert(s.subrange(pos, pos + w.len() as int)[a + m] == s[pos + (a + m)]);
        assert(w.subrange(a, b)[m] == w[a + m]);
    }
    assert(s.subrange(pos + a, pos + b) =~= w.subrange(a, b));
}

/// A field line embedded in a larger text reads back as exactly its text.
proof fn lemma_parse_field_roundtrip(s: Seq<char>, pos: int, v: Seq<char>)
    requires
        0 <= pos,
        pos + ser_field(v).len() <= s.len(),
        s.subrange(pos, pos + ser_field(v).len()) == ser_field(v),
    ensures
        parse_field_at(s, pos) == Some((v, pos + ser_field(v).len())),
{
    let d = dec_digits(v.len());
    let dl = d.len() as int;
    let w = ser_field(v);
    let fl = w.len() as int;
    let vl = v.len() as int;
    lemma_dec_digits_shape(v.len());
    lemma_dec_digits_val(v.len());
    assert(fl == dl + 2 + vl);
    assert(w[dl] == ':');
    assert(w[dl + 1 + vl] == '\n');
    assert(w.subrange(0, dl) =~= d);
    assert(w.subrange(dl + 1, dl + 1 + vl) =~= v);
    lemma_char_transfer(s, pos, w, dl);
    lemma_char_transfer(s, pos, w, dl + 1 + vl);
    lemma_subrange_transfer(s, pos, w, 0, dl);
    lemma_subrange_transfer(s, pos, w, dl + 1, dl + 1 + vl);
    assert forall|m: int| pos <= m < pos + dl implies is_digit(#[trigger] s[m]) by {
        lemma_char_transfer(s, pos, w, m - pos);
        assert(w[m - pos] == d[m - pos]);
    }
    assert(!is_digit(':'));
    lemma_digit_end_at(s, pos, pos + dl);
    assert(s.subrange(pos, pos + dl) == d);
    assert(digits_val(s.subrange(pos, pos + dl)) == v.len());
    assert(s.subrange(pos + (dl + 1), pos + (dl + 1 + vl)) == v);
    assert(s.subrange(pos + dl + 1, pos + dl + 1 + vl) == v);
}

/// An answer line embedded in a larger text reads back as exactly its value.
proof fn lemma_parse_answer_roundtrip(s: Seq<char>, pos: int, a: Option<Seq<char>>)
    requires
        0 <= pos,
        pos + ser_answer(a).len() <= s.len(),
        s.subrange(pos, pos + ser_answer(a).len()) == ser_answer(a),
    ensures
        parse_answer_at(s, pos) == Some((a, pos + ser_answer(a).len())),
{
    let w = ser_answer(a);
    match a {
        None => {
            assert(w[0] == '-' && w[1] == '\n');
            lemma_char_transfer(s, pos, w, 0);
            lemma_char_transfer(s, pos, w, 1);
        },
        Some(v) => {
            let fl = ser_field(v).len() as int;
            assert(w[0] == '=');
            lemma_char_transfer(s, pos, w, 0);
            assert(w.subrange(1, 1 + fl) =~= ser_field(v));
            lemma_subrange_transfer(s, pos, w, 1, 1 + fl);
            assert(s.subrange(pos + 1, pos + (1 + fl)) == ser_field(v));
            assert(s.subrange(pos + 1, pos + 1 + fl) == ser_field(v));
            lemma_parse_field_roundtrip(s, pos + 1, v);
            assert(s[pos] != '-');
        },
    }
}

/// A record embedded in a larger text reads back as exactly that record.
#[verifier::rlimit(100)]
proof fn lemma_parse_job_roundtrip(s: Seq<char>, pos: int, j: JobView)
    requires
        0 <= pos,
        pos + ser_job(j).len() <= s.len(),
        s.subrange(pos, pos + ser_job(j).len()) == ser_job(j),
    ensures
        parse_job_at(s, pos) == Some((j, pos + ser_job(j).len())),
{
    let d = dec_digits(j.id as nat);
    let dl = d.len() as int;
    let w = ser_job(j);
    let jl = w.len() as int;
    let f1 = ser_field(j.company);
    let f2 = ser_field(j.title);
    let f3 = ser_field(j.date_submitted);
    let f4 = ser_field(j.docs_used);
    let f5 = ser_field(j.location);
    let an = ser_answer(j.final_answer);
    lemma_dec_digits_shape(j.id as nat);
    lemma_dec_digits_val(j.id as nat);
    assert(jl == 2 + dl + 1 + f1.len() + f2.len() + f3.len() + f4.len() + f5.len() + an.len());
    assert(w[0] == 'J' && w[1] == ' ');
    lemma_char_transfer(s, pos, w, 0);
    lemma_char_transfer(s, pos, w, 1);
    assert(w[2 + dl] == '\n');
    lemma_char_transfer(s, pos, w, 2 + dl);
    assert(s[pos + (2 + dl)] == '\n');
    assert(s[pos + 2 + dl] == '\n');
    assert forall|m: int| pos + 2 <= m < pos + 2 + dl implies is_digit(#[trigger] s[m]) by {
        lemma_char_transfer(s, pos, w, m - pos);
        assert(w[m - pos] == d[m - pos - 2]);
    }
    assert(!is_digit('\n'));
    lemma_digit_end_at(s, pos + 2, pos + 2 + dl);
    assert(w.subrange(2, 2 + dl) =~= d);
    lemma_subrange_transfer(s, pos, w, 2, 2 + dl);
    assert(s.subrange(pos + 2, pos + (2 + dl)) == d);
    assert(s.subrange(pos + 2, pos + 2 + dl) == d);
    assert(digits_val(s.subrange(pos + 2, pos + 2 + dl)) == j.id as nat);
    let o1 = 2 + dl + 1;
    let o2 = o1 + f1.len() as int;
    let o3 = o2 + f2.len() as int;
    let o4 = o3 + f3.len() as int;
    let o5 = o4 + f4.len() as int;
    let o6 = o5 + f5.len() as int;
    assert(w.subrange(o1, o2) =~= f1);
    assert(w.subrange(o2, o3) =~= f2);
    assert(w.subrange(o3, o4) =~= f3);
    assert(w.subrange(o4, o5) =~= f4);
    assert(w.subrange(o5, o6) =~= f5);
    assert(w.subrange(o6, o6 + an.len() as int) =~= an);
    lemma_subrange_transfer(s, pos, w, o1, o2);
    lemma_subrange_transfer(s, pos, w, o2, o3);
    lemma_subrange_transfer(s, pos, w, o3, o4);
    lemma_subrange_transfer(s, pos, w, o4, o5);
    lemma_subrange_transfer(s, pos, w, o5, o6);
    lemma_subrange_transfer(s, pos, w, o6, o6 + an.len() as int);
    let q1 = pos + o1;
    assert(s.subrange(q1, q1 + f1.len() as int) == f1);
    lemma_parse_field_roundtrip(s, q1, j.company);
    let q2 = q1 + f1.len() as int;
    assert(s.subrange(q2, q2 + f2.len() as int) == f2);
    lemma_parse_field_roundtrip(s, q2, j.title);
    let q3 = q2 + f2.len() as int;
    assert(s.subrange(q3, q3 + f3.len() as int) == f3);
    lemma_parse_field_roundtrip(s, q3, j.date_submitted);
    let q4 = q3 + f3.len() as int;
    assert(s.subrange(q4, q4 + f4.len() as int) == f4);
    lemma_parse_field_roundtrip(s, q4, j.docs_used);
    let q5 = q4 + f4.len() as int;
    assert(s.subrange(q5, q5 + f5.len() as int) == f5);
    lemma_parse_field_roundtrip(s, q5, j.location);
    let q6 = q5 + f5.len() as int;
    assert(s.subrange(q6, q6 + an.len() as int) == an);
    lemma_parse_answer_roundtrip(s, q6, j.final_answer);
}

/// A serialized collection embedded as a suffix reads back exactly.
proof fn lemma_parse_jobs_roundtrip(s: Seq<char>, pos: int, js: Seq<JobView>)
    requires
        0 <= pos <= s.len(),
        s.subrange(pos, s.len() as int) == ser_jobs(js),
    ensures
        parse_jobs_at(s, pos) == Some(js),
    decreases js.len(),
{
    if js.len() == 0 {
        assert(pos == s.len());
    } else {
        let j = js[0];
        let w = ser_jobs(js);
        let jl = ser_job(j).len() as int;
        assert(w == ser_job(j) + ser_jobs(js.skip(1)));
        assert(pos + w.len() == s.len());
        assert(s.subrange(pos, pos + w.len() as int) == w);
        assert(w.subrange(0, jl) =~= ser_job(j));
        lemma_subrange_transfer(s, pos, w, 0, jl);
        assert(s.subrange(pos + 0, pos + jl) == ser_job(j));
        assert(s.subrange(pos, pos + jl) == ser_job(j));
        lemma_parse_job_roundtrip(s, pos, j);
        assert(w.subrange(jl, w.len() as int) =~= ser_jobs(js.skip(1)));
        lemma_subrange_transfer(s, pos, w, jl, w.len() as int);
        assert(s.subrange(pos + jl, pos + w.len() as int) == ser_jobs(js.skip(1)));
        assert(s.subrange(pos + jl, s.len() as int) == ser_jobs(js.skip(1)));
        lemma_parse_jobs_roundtrip(s, pos + jl, js.skip(1));
        assert(seq![j] + js.skip(1) =~= js);
    }
}

/// Loading a saved store yields that store back, mark and records alike.
pub proof fn lemma_load_save_roundtrip(v: StoreView)
    requires
        store_wf(v.jobs, v.last_id),
    ensures
        parse_store_at(ser_store(v)) == Some(v),
        load_spec(ser_store(v)) == v,
{
    let s = ser_store(v);
    let d = dec_digits(v.last_id as nat);
    let dl = d.len() as int;
    lemma_dec_digits_shape(v.last_id as nat);
    lemma_dec_digits_val(v.last_id as nat);
    assert(s.subrange(0, s.len() as int) =~= s);
    assert(s[0] == 'H' && s[1] == ' ');
    assert(s[2 + dl] == '\n');
    assert forall|m: int| 2 <= m < 2 + dl implies is_digit(#[trigger] s[m]) by {
        assert(s[m] == d[m - 2]);
    }
    assert(!is_digit('\n'));
    lemma_digit_end_at(s, 2, 2 + dl);
    assert(s.subrange(2, 2 + dl) =~= d);
    assert(digits_val(s.subrange(2, 2 + dl)) == v.last_id as nat);
    assert(s.subrange(2 + dl + 1, s.len() as int) =~= ser_jobs(v.jobs));
    lemma_parse_jobs_roundtrip(s, 2 + dl + 1, v.jobs);
}

/// Saving what was loaded, twice over, reproduces the first saved text
/// byte for byte: persisting without mutation is idempotent.
pub proof fn lemma_save_idempotent(t: Seq<char>)
    ensures
        ser_store(load_spec(ser_store(load_spec(t)))) == ser_store(load_spec(t)),
{
    lemma_load_wf(t);
    lemma_load_save_roundtrip(load_spec(t));
}

fn is_digit_char(c: char) -> (r: bool)
    ensures
        r == is_digit(c),
{
    '0' <= c && c <= '9'
}

/// Scans the digit run at `pos` and reads its value, or reports that the
/// value exceeds `cap`.
fn scan_number(s: &str, pos: usize, cap: u64) -> (r: (usize, Option<u64>))
    requires
        pos <= s@.len(),
    ensures
        r.0 == digit_end(s@, pos as int),
        pos <= r.0 <= s@.len(),
        r.1 matches Some(a) ==> a as nat == digits_val(s@.subrange(pos as int, r.0 as int)) && a
            <= cap,
        r.1 is None ==> digits_val(s@.subrange(pos as int, r.0 as int)) > cap,
{
    let len = s.unicode_len();
    let mut i: usize = pos;
    let mut acc: u128 = 0;
    let mut over = false;
    proof {
        assert(s@.subrange(pos as int, pos as int) =~= Seq::empty());
    }
    while i < len && is_digit_char(s.get_char(i))
        invariant
            pos <= i <= len,
            len == s@.len(),
            forall|m: int| pos <= m < i ==> is_digit(#[trigger] s@[m]),
            !over ==> acc as nat == digits_val(s@.subrange(pos as int, i as int)) && acc <= cap,
            over ==> digits_val(s@.subrange(pos as int, i as int)) > cap,
        decreases len - i,
    {
        let c = s.get_char(i);
        let dv = (c as u32 - 48) as u128;
        proof {
            assert(s@.subrange(pos as int, i as int + 1).drop_last() =~= s@.subrange(
                pos as int,
                i as int,
            ));
            assert(s@.subrange(pos as int, i as int + 1).last() == s@[i as int]);
            assert(digit_val(s@[i as int]) == dv as nat);
        }
        if !over {
            let nd = acc * 10 + dv;
            if nd > cap as u128 {
                over = true;
            } else {
                acc = nd;
            }
        }
        proof {
            if over {
                assert(digits_val(s@.subrange(pos as int, i as int + 1)) > cap);
            }
        }
        i += 1;
    }
    proof {
        lemma_digit_end_at(s@, pos as int, i as int);
    }
    if over {
        (i, None)
    } else {
        (i, Some(acc as u64))
    }
}

/// Reads one field line, as `parse_field_at` states.
fn parse_field(s: &str, pos: usize) -> (r: Option<(String, usize)>)
    requires
        pos <= s@.len(),
    ensures
        r matches Some(vp) ==> parse_field_at(s@, pos as int) == Some((vp.0@, vp.1 as int)) && pos
            < vp.1 <= s@.len(),
        r is None ==> parse_field_at(s@, pos as int) is None,
{
    let len = s.unicode_len();
    let (e, num) = scan_number(s, pos, len as u64);
    if e == pos {
        return None;
    }
    let n: usize = match num {
        None => {
            return None;
        },
        Some(a) => a as usize,
    };
    if e >= len || s.get_char(e) != ':' {
        return None;
    }
    if len - e < 2 || n > len - e - 2 {
        return None;
    }
    if s.get_char(e + 1 + n) != '\n' {
        return None;
    }
    let v = s.substring_char(e + 1, e + 1 + n).to_owned();
    Some((v, e + n + 2))
}

/// Reads one answer line, as `parse_answer_at` states.
fn parse_answer(s: &str, pos: usize) -> (r: Option<(Option<String>, usize)>)
    requires
        pos <= s@.len(),
    ensures
        r matches Some(ap) ==> parse_answer_at(s@, pos as int) == Some(
            (
                match ap.0 {
                    Some(v) => Some(v@),
                    None => None,
                },
                ap.1 as int,
            ),
        ) && pos < ap.1 <= s@.len(),
        r is None ==> parse_answer_at(s@, pos as int) is None,
{
    let len = s.unicode_len();
    if pos < len && pos + 1 < len && s.get_char(pos) == '-' && s.get_char(pos + 1) == '\n' {
        return Some((None, pos + 2));
    }
    if pos < len && s.get_char(pos) == '=' {
        match parse_field(s, pos + 1) {
            Some((v, p)) => Some((Some(v), p)),
            None => None,
        }
    } else {
        None
    }
}

/// Reads one record, as `parse_job_at` states.
fn parse_job(s: &str, pos: usize) -> (r: Option<(Job, usize)>)
    requires
        pos <= s@.len(),
    ensures
        r matches Some(jp) ==> parse_job_at(s@, pos as int) == Some((jp.0@, jp.1 as int)) && pos
            < jp.1 <= s@.len(),
        r is None ==> parse_job_at(s@, pos as int) is None,
{
    let len = s.unicode_len();
    if !(pos < len && pos + 1 < len && s.get_char(pos) == 'J' && s.get_char(pos + 1) == ' ') {
        return None;
    }
    let (e, num) = scan_number(s, pos + 2, u32::MAX as u64);
    if e == pos + 2 {
        return None;
    }
    let idn: u64 = match num {
        None => {
            return None;
        },
        Some(a) => a,
    };
    if e >= len || s.get_char(e) != '\n' {
        return None;
    }
    let (company, p1) = match parse_field(s, e + 1) {
        None => {
            return None;
        },
        Some(vp) => vp,
    };
    let (title, p2) = match parse_field(s, p1) {
        None => {
            return None;
        },
        Some(vp) => vp,
    };
    let (date, p3) = match parse_field(s, p2) {
        None => {
            return None;
        },
        Some(vp) => vp,
    };
    let (docs, p4) = match parse_field(s, p3) {
        None => {
            return None;
        },
        Some(vp) => vp,
    };
    let (location, p5) = match parse_field(s, p4) {
        None => {
            return None;
        },
        Some(vp) => vp,
    };
    let (ans, p6) = match parse_answer(s, p5) {
        None => {
            return None;
        },
        Some(ap) => ap,
    };
    let job = Job {
        id: idn as u32,
        company,
        title,
        date_submitted: date,
        docs_used: docs,
        location,
        final_answer: ans,
    };
    Some((job, p6))
}

/// Reads records from `start` to the end of the input, as `parse_jobs_at`
/// states.
fn parse_jobs(s: &str, start: usize) -> (r: Option<Vec<Job>>)
    requires
        start <= s@.len(),
    ensures
        r matches Some(v) ==> parse_jobs_at(s@, start as int) == Some(views_of(v@)),
        r is None ==> parse_jobs_at(s@, start as int) is None,
{
    let len = s.unicode_len();
    let mut out: Vec<Job> = Vec::new();
    let mut pos: usize = start;
    proof {
        match parse_jobs_at(s@, start as int) {
            Some(k) => {
                assert(views_of(out@) + k =~= k);
            },
            None => {},
        }
    }
    while pos < len
        invariant
            start <= pos <= len,
            len == s@.len(),
            parse_jobs_at(s@, pos as int) matches Some(k) ==> parse_jobs_at(s@, start as int)
                == Some(views_of(out@) + k),
            parse_jobs_at(s@, pos as int) is None ==> parse_jobs_at(s@, start as int) is None,
        decreases len - pos,
    {
        match parse_job(s, pos) {
            None => {
                return None;
            },
            Some((job, p)) => {
                let ghost pre = views_of(out@);
                let ghost p0 = pos as int;
                out.push(job);
                proof {
                    assert(views_of(out@) =~= pre.push(job@));
                    match parse_jobs_at(s@, p as int) {
                        Some(rest) => {
                            assert(parse_jobs_at(s@, p0) == Some(seq![job@] + rest));
                            assert(pre + (seq![job@] + rest) =~= views_of(out@) + rest);
                        },
                        None => {
                            assert(parse_jobs_at(s@, p0) is None);
                        },
                    }
                }
                pos = p;
            },
        }
    }
    proof {
        assert(parse_jobs_at(s@, pos as int) == Some(Seq::<JobView>::empty()));
        assert(views_of(out@) + Seq::<JobView>::empty() =~= views_of(out@));
    }
    Some(out)
}

/// Reads the header and records, as `parse_store_at` states.
fn parse_store(s: &str) -> (r: Option<Store>)
    ensures
        r matches Some(v) ==> parse_store_at(s@) == Some(v@),
        r is None ==> parse_store_at(s@) is None,
{
    let len = s.unicode_len();
    if !(0 < len && 1 < len && s.get_char(0) == 'H' && s.get_char(1) == ' ') {
        return None;
    }
    let (e, num) = scan_number(s, 2, u32::MAX as u64);
    if e == 2 {
        return None;
    }
    let mark: u64 = match num {
        None => {
            return None;
        },
        Some(a) => a,
    };
    if e >= len || s.get_char(e) != '\n' {
        return None;
    }
    match parse_jobs(s, e + 1) {
        None => None,
        Some(v) => {
            let m = max_id_exec(&v);
            if m as u64 <= mark {
                Some(Store { jobs: v, last_id: mark as u32 })
            } else {
                None
            }
        },
    }
}

/// Reads a persisted text back as a store; content that is not a
/// well-formed record array — absent, truncated or foreign — yields the
/// empty store, exactly as `load_spec` states. The result always satisfies
/// the store invariant.
pub fn load_jobs(text: &str) -> (r: Store)
    ensures
        r@ == load_spec(text@),
        store_wf(r@.jobs, r@.last_id),
{
    proof {
        lemma_load_wf(text@);
    }
    match parse_store(text) {
        Some(v) => v,
        None => {
            let st = Store { jobs: Vec::new(), last_id: 0 };
            proof {
                assert(st@.jobs =~= empty_store().jobs);
                assert(st@ == empty_store());
            }
            st
        },
    }
}

} // verus!
