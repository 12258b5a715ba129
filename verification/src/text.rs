//! Verified text utilities: splitting on a separator, trimming surrounding
//! whitespace, and ASCII case-insensitive comparison. The importer's
//! semicolon-delimited row grammar is built from these.

use vstd::prelude::*;

verus! {

/// The whitespace characters that trimming removes: the Unicode
/// `White_Space` set, as `str::trim` uses it.
pub open spec fn is_space(c: char) -> bool {
    c == ' ' || c == '\t' || c == '\n' || c == '\u{B}' || c == '\u{C}' || c == '\r' || c
        == '\u{85}' || c == '\u{A0}' || c == '\u{1680}' || ('\u{2000}' <= c && c <= '\u{200A}')
        || c == '\u{2028}' || c == '\u{2029}' || c == '\u{202F}' || c == '\u{205F}' || c
        == '\u{3000}'
}

/// The input without its leading whitespace.
pub open spec fn trim_front(s: Seq<char>) -> Seq<char>
    decreases s.len(),
{
    if s.len() > 0 && is_space(s[0]) {
        trim_front(s.skip(1))
    } else {
        s
    }
}

/// The input without its trailing whitespace.
pub open spec fn trim_back(s: Seq<char>) -> Seq<char>
    decreases s.len(),
{
    if s.len() > 0 && is_space(s.last()) {
        trim_back(s.drop_last())
    } else {
        s
    }
}

/// The input without leading or trailing whitespace.
pub open spec fn trim_spec(s: Seq<char>) -> Seq<char> {
    trim_back(trim_front(s))
}

/// The position of the first occurrence of `sep` (the length if absent).
pub open spec fn first_sep(s: Seq<char>, sep: char) -> nat
    decreases s.len(),
{
    if s.len() == 0 {
        0
    } else if s[0] == sep {
        0
    } else {
        1 + first_sep(s.skip(1), sep)
    }
}

/// The fields of `s` between occurrences of `sep`, in order. An input
/// without any separator is one field; every separator opens a new field.
pub open spec fn split_spec(s: Seq<char>, sep: char) -> Seq<Seq<char>>
    decreases s.len(),
{
    let i = first_sep(s, sep);
    if i >= s.len() {
        seq![s]
    } else {
        seq![s.take(i as int)] + split_spec(s.skip(i as int + 1), sep)
    }
}

/// The lower-case form of an ASCII letter; any other character is unchanged.
pub open spec fn lower(c: char) -> char {
    if 'A' <= c && c <= 'Z' {
        (((c as u8) + 32) as char)
    } else {
        c
    }
}

/// Equality up to ASCII letter case.
pub open spec fn ci_eq(a: Seq<char>, b: Seq<char>) -> bool {
    a.len() == b.len() && forall|i: int| 0 <= i < a.len() ==> lower(a[i]) == lower(b[i])
}

/// `ci_eq` holds of every sequence and itself.
pub proof fn lemma_ci_eq_refl(a: Seq<char>)
    ensures
        ci_eq(a, a),
{
}

/// Lower-cases one ASCII letter.
pub fn lower_char(c: char) -> (r: char)
    ensures
        r == lower(c),
{
    if 'A' <= c && c <= 'Z' {
        (((c as u8) + 32) as char)
    } else {
        c
    }
}

/// Compares two strings up to ASCII letter case.
pub fn eq_ignore_case(a: &str, b: &str) -> (r: bool)
    ensures
        r == ci_eq(a@, b@),
{
    let alen = a.unicode_len();
    let blen = b.unicode_len();
    if alen != blen {
        return false;
    }
    let mut i: usize = 0;
    while i < alen
        invariant
            0 <= i <= alen,
            alen == a@.len(),
            alen == b@.len(),
            forall|k: int| 0 <= k < i ==> lower(a@[k]) == lower(b@[k]),
        decreases alen - i,
    {
        if lower_char(a.get_char(i)) != lower_char(b.get_char(i)) {
            return false;
        }
        i += 1;
    }
    true
}

proof fn lemma_first_sep_at(s: Seq<char>, sep: char, i: int)
    requires
        0 <= i < s.len(),
        s[i] == sep,
        forall|k: int| 0 <= k < i ==> s[k] != sep,
    ensures
        first_sep(s, sep) == i,
    decreases s.len(),
{
    if i > 0 {
        lemma_first_sep_at(s.skip(1), sep, i - 1);
    }
}

proof fn lemma_first_sep_none(s: Seq<char>, sep: char)
    requires
        forall|k: int| 0 <= k < s.len() ==> s[k] != sep,
    ensures
        first_sep(s, sep) == s.len(),
    decreases s.len(),
{
    if s.len() > 0 {
        lemma_first_sep_none(s.skip(1), sep);
    }
}

/// Splits a string into its fields between occurrences of `sep`.
pub fn split_char(s: &str, sep: char) -> (r: Vec<String>)
    ensures
        r@.map_values(|f: String| f@) == split_spec(s@, sep),
{
    let len = s.unicode_len();
    let mut r: Vec<String> = Vec::new();
    let mut start: usize = 0;
    let mut i: usize = 0;
    proof {
        assert(s@.skip(0) =~= s@);
        assert(r@.map_values(|f: String| f@) + split_spec(s@, sep) =~= split_spec(s@, sep));
    }
    while i < len
        invariant
            0 <= start <= i <= len,
            len == s@.len(),
            forall|k: int| start <= k < i ==> s@[k] != sep,
            split_spec(s@, sep) == r@.map_values(|f: String| f@) + split_spec(
                s@.skip(start as int),
                sep,
            ),
        decreases len - i,
    {
        if s.get_char(i) == sep {
            let field = s.substring_char(start, i).to_owned();
            proof {
                let tail = s@.skip(start as int);
                assert(forall|k: int|
                    0 <= k < i - start ==> #[trigger] tail[k] == s@[k + start] && tail[k] != sep);
                assert(tail[i - start] == sep);
                lemma_first_sep_at(tail, sep, i - start);
                assert(tail.take(i - start) =~= s@.subrange(start as int, i as int));
                assert(tail.skip(i - start + 1) =~= s@.skip(i as int + 1));
                assert((r@.map_values(|f: String| f@) + seq![field@]) + split_spec(
                    s@.skip(i as int + 1),
                    sep,
                ) =~= r@.map_values(|f: String| f@) + (seq![tail.take(i - start)] + split_spec(
                    tail.skip(i - start + 1),
                    sep,
                )));
            }
            let ghost pre = r@;
            r.push(field);
            proof {
                assert(r@.map_values(|f: String| f@) =~= pre.map_values(|f: String| f@) + seq![
                    r@.last()@,
                ]);
            }
            start = i + 1;
        }
        i += 1;
    }
    let field = s.substring_char(start, len).to_owned();
    proof {
        let tail = s@.skip(start as int);
        assert(forall|k: int|
            0 <= k < len - start ==> #[trigger] tail[k] == s@[k + start] && tail[k] != sep);
        lemma_first_sep_none(tail, sep);
        assert(tail =~= s@.subrange(start as int, len as int));
    }
    let ghost pre = r@;
    r.push(field);
    proof {
        assert(r@.map_values(|f: String| f@) =~= pre.map_values(|f: String| f@) + seq![
            r@.last()@,
        ]);
        assert(r@.map_values(|f: String| f@) =~= split_spec(s@, sep));
    }
    r
}

/// Trims surrounding whitespace from a string.
pub fn trim(s: &str) -> (r: String)
    ensures
        r@ == trim_spec(s@),
{
    let len = s.unicode_len();
    let mut start: usize = 0;
    proof {
        assert(s@.skip(0) =~= s@);
    }
    while start < len && is_space_char(s.get_char(start))
        invariant
            0 <= start <= len,
            len == s@.len(),
            trim_front(s@) == trim_front(s@.skip(start as int)),
        decreases len - start,
    {
        proof {
            assert(s@.skip(start as int).skip(1) =~= s@.skip(start as int + 1));
        }
        start += 1;
    }
    proof {
        assert(trim_front(s@) == s@.skip(start as int));
    }
    let mut end: usize = len;
    while end > start && is_space_char(s.get_char(end - 1))
        invariant
            start <= end <= len,
            len == s@.len(),
            trim_front(s@) == s@.skip(start as int),
            trim_back(s@.skip(start as int)) == trim_back(s@.subrange(start as int, end as int)),
        decreases end,
    {
        proof {
            let u = s@.subrange(start as int, end as int);
            assert(u.last() == s@[end - 1]);
            assert(u.drop_last() =~= s@.subrange(start as int, end as int - 1));
        }
        end -= 1;
    }
    proof {
        let u = s@.subrange(start as int, end as int);
        assert(trim_back(u) == u);
    }
    s.substring_char(start, end).to_owned()
}

fn is_space_char(c: char) -> (r: bool)
    ensures
        r == is_space(c),
{
    c == ' ' || c == '\t' || c == '\n' || c == '\u{B}' || c == '\u{C}' || c == '\r' || c
        == '\u{85}' || c == '\u{A0}' || c == '\u{1680}' || ('\u{2000}' <= c && c <= '\u{200A}')
        || c == '\u{2028}' || c == '\u{2029}' || c == '\u{202F}' || c == '\u{205F}' || c
        == '\u{3000}'
}

} // verus!
