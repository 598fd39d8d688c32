//! Candidate words of a text: every substring of each run of Japanese
//! characters.
use vstd::prelude::*;

use vstd::string::StrSliceExecFns;

verus! {

/// A run of characters of the Japanese scripts: the iteration mark 々,
/// hiragana and katakana, the CJK unified ideographs and their extension A,
/// the CJK compatibility ideographs and the halfwidth katakana.
pub const JAPANESE_RUN: &'static str =
    "[\u{3005}\u{3040}-\u{30ff}\u{3400}-\u{4dbf}\u{4e00}-\u{9fff}\u{f900}-\u{faff}\u{ff66}-\u{ff9f}]+";

/// Whether `c` belongs to one of the Japanese scripts.
pub open spec fn is_japanese(c: char) -> bool {
    ||| c == '\u{3005}'
    ||| ('\u{3040}' <= c && c <= '\u{30ff}')
    ||| ('\u{3400}' <= c && c <= '\u{4dbf}')
    ||| ('\u{4e00}' <= c && c <= '\u{9fff}')
    ||| ('\u{f900}' <= c && c <= '\u{faff}')
    ||| ('\u{ff66}' <= c && c <= '\u{ff9f}')
}

/// The maximal runs of Japanese characters of `s`, after the run `cur` that
/// the characters before `s` left open.
pub open spec fn runs_after(s: Seq<char>, cur: Seq<char>) -> Seq<Seq<char>>
    decreases s.len(),
{
    let open = if cur.len() > 0 {
        seq![cur]
    } else {
        seq![]
    };
    if s.len() == 0 {
        open
    } else if is_japanese(s[0]) {
        runs_after(s.drop_first(), cur.push(s[0]))
    } else {
        open + runs_after(s.drop_first(), seq![])
    }
}

/// The maximal runs of Japanese characters of `s`, in order.
pub open spec fn runs(s: Seq<char>) -> Seq<Seq<char>> {
    runs_after(s, seq![])
}

/// The substrings of `r` that start at position `i`, shortest first.
pub open spec fn from_start(r: Seq<char>, i: int) -> Seq<Seq<char>> {
    Seq::new((r.len() - i) as nat, |m: int| r.subrange(i, i + m + 1))
}

/// The non-empty substrings of `r` that start before position `i`, by start,
/// then by length.
pub open spec fn substrings_upto(r: Seq<char>, i: nat) -> Seq<Seq<char>>
    decreases i,
{
    if i == 0 || i > r.len() {
        seq![]
    } else {
        substrings_upto(r, (i - 1) as nat) + from_start(r, i - 1)
    }
}

/// The non-empty substrings of each of `rs`, in order.
pub open spec fn all_substrings(rs: Seq<Seq<char>>) -> Seq<Seq<char>>
    decreases rs.len(),
{
    if rs.len() == 0 {
        seq![]
    } else {
        all_substrings(rs.drop_last()) + substrings_upto(rs.last(), rs.last().len())
    }
}

/// The fragments of a text.
pub open spec fn fragments(s: Seq<char>) -> Seq<Seq<char>> {
    all_substrings(runs(s))
}

/// The texts of a sequence of strings.
pub open spec fn strs(v: Seq<String>) -> Seq<Seq<char>> {
    v.map_values(|s: String| s@)
}

/// The texts of a sequence of string slices.
pub open spec fn slices(v: Seq<&str>) -> Seq<Seq<char>> {
    v.map_values(|s: &str| s@)
}

/// Extraction depends on the text alone: two extractions from one text give
/// the same fragments in the same order.
pub proof fn lemma_fragments_repeatable(t: Seq<char>, a: Seq<&str>, b: Seq<&str>)
    requires
        slices(a) == fragments(t),
        slices(b) == fragments(t),
    ensures
        slices(a) == slices(b),
{
}

/// Relies on `regex::Regex::new` and `regex::Regex::find_iter`: the matches of
/// a one-or-more repetition of a character class are the maximal runs of
/// characters in the class, left to right.
#[verifier::external_body]
fn find_runs<'a>(pattern: &str, text: &'a str) -> (r: Vec<&'a str>)
    requires
        pattern@ == JAPANESE_RUN@,
    ensures
        slices(r@) == runs(text@),
{
    let re = regex::Regex::new(pattern).unwrap();
    re.find_iter(text).map(|m| m.as_str()).collect()
}

/// Every substring of each maximal run of Japanese characters of `data`: by
/// run, then by start, then by length. Each is a slice of `data`.
pub fn iter_fragments<'a>(data: &'a str) -> (r: Vec<&'a str>)
    ensures
        slices(r@) == fragments(data@),
{
    let found = find_runs(JAPANESE_RUN, data);
    let ghost rs = slices(found@);
    let mut r: Vec<&'a str> = Vec::new();
    let mut k: usize = 0;
    while k < found.len()
        invariant
            rs == slices(found@),
            rs == runs(data@),
            k <= found@.len(),
            slices(r@) == all_substrings(rs.take(k as int)),
        decreases found@.len() - k,
    {
        let run: &'a str = found[k];
        let n = run.unicode_len();
        let ghost base = slices(r@);
        let mut i: usize = 0;
        while i < n
            invariant
                n == run@.len(),
                i <= n,
                slices(r@) == base + substrings_upto(run@, i as nat),
            decreases n - i,
        {
            let ghost before = slices(r@);
            let mut j: usize = i;
            while j < n
                invariant
                    n == run@.len(),
                    i < n,
                    i <= j <= n,
                    slices(r@) == before + from_start(run@, i as int).take(j - i),
                decreases n - j,
            {
                let piece: &'a str = run.substring_char(i, j + 1);
                let ghost prev = r@;
                r.push(piece);
                proof {
                    assert(slices(r@) =~= slices(prev).push(piece@));
                    assert(from_start(run@, i as int).take(j + 1 - i) =~= from_start(
                        run@,
                        i as int,
                    ).take(j - i).push(run@.subrange(i as int, j + 1)));
                }
                j = j + 1;
            }
            assert(from_start(run@, i as int).take(j - i) =~= from_start(run@, i as int));
            i = i + 1;
        }
        proof {
            assert(rs.take(k + 1).drop_last() =~= rs.take(k as int));
            assert(rs.take(k + 1).last() == run@);
        }
        k = k + 1;
    }
    assert(rs.take(k as int) =~= rs);
    r
}

} // verus!
