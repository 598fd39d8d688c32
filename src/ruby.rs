//! Removal of ruby annotations (furigana) from HTML text.
use vstd::prelude::*;

use crate::text::starts_with;

verus! {

/// The ruby markup: `<rp>`, `<rt>` and `<rtc>` elements with their content
/// (on one line), and the `<ruby>` tags.
pub const RUBY_MARKUP: &'static str = "<rp>.*?</rp>|<rt>.*?</rt>|<rtc>.*?</rtc>|<ruby>|</ruby>";

/// The length up to the end of the first `close` in `s`, where no line
/// feed comes before it.
pub open spec fn through_close(s: Seq<char>, close: Seq<char>) -> Option<nat>
    decreases s.len(),
{
    if starts_with(s, close) {
        Some(close.len())
    } else if s.len() == 0 || s[0] == '\n' {
        None
    } else {
        match through_close(s.drop_first(), close) {
            Some(n) => Some(n + 1),
            None => None,
        }
    }
}

/// The length of an element that starts `s` with tag `open` and ends with
/// the first `close` on the same line; 0 where there is none.
pub open spec fn element_len(s: Seq<char>, open: Seq<char>, close: Seq<char>) -> nat {
    if starts_with(s, open) {
        match through_close(s.skip(open.len() as int), close) {
            Some(n) => open.len() + n,
            None => 0,
        }
    } else {
        0
    }
}

/// The length of the ruby markup that starts `s`; 0 where there is none.
pub open spec fn markup_len(s: Seq<char>) -> nat {
    let rp = element_len(s, seq!['<', 'r', 'p', '>'], seq!['<', '/', 'r', 'p', '>']);
    let rt = element_len(s, seq!['<', 'r', 't', '>'], seq!['<', '/', 'r', 't', '>']);
    let rtc = element_len(s, seq!['<', 'r', 't', 'c', '>'], seq!['<', '/', 'r', 't', 'c', '>']);
    if rp > 0 {
        rp
    } else if rt > 0 {
        rt
    } else if rtc > 0 {
        rtc
    } else if starts_with(s, seq!['<', 'r', 'u', 'b', 'y', '>']) {
        6
    } else if starts_with(s, seq!['<', '/', 'r', 'u', 'b', 'y', '>']) {
        7
    } else {
        0
    }
}

/// `s` without its ruby markup, removed left to right.
pub open spec fn without_ruby(s: Seq<char>) -> Seq<char>
    decreases s.len(),
{
    if s.len() == 0 {
        s
    } else {
        let n = markup_len(s);
        if 0 < n <= s.len() {
            without_ruby(s.skip(n as int))
        } else {
            seq![s[0]] + without_ruby(s.drop_first())
        }
    }
}

/// Relies on `regex::Regex::new` and `regex::Regex::replace_all`: each match
/// of the ruby markup, leftmost first and without overlap, is replaced by
/// nothing; `.` matches anything but a line feed and `.*?` as little as it can.
#[verifier::external_body]
fn remove_markup(pattern: &str, s: &str) -> (r: String)
    requires
        pattern@ == RUBY_MARKUP@,
    ensures
        r@ == without_ruby(s@),
{
    let re = regex::Regex::new(pattern).unwrap();
    re.replace_all(s, "").into_owned()
}

/// The text of `s` without its ruby annotations: the `<rp>`, `<rt>` and
/// `<rtc>` elements go with their content, the `<ruby>` tags alone.
pub fn remove_ruby(s: &str) -> (r: String)
    ensures
        r@ == without_ruby(s@),
{
    remove_markup(RUBY_MARKUP, s)
}

} // verus!
