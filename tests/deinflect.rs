use edict2::deinflect::{EXPECTED_FIELDS, EXPECTED_REASON, EXPECTED_SUFFIX};
use edict2::{Deinflector, Error};

const RULES: &str = "deinflect header\n\
polite past\n\
negative\n\
ました\tる\t2\t0\n\
ました\tう\t258\t0\n\
ない\tる\t257\t1\n";

fn words(d: &Deinflector, word: &str) -> Vec<(String, u32)> {
    d.deinflect_all(word)
        .into_iter()
        .map(|c| (c.word, c.type_))
        .collect()
}

#[test]
fn deinflect_yields_the_word_first() {
    let d = Deinflector::parse(RULES).unwrap();
    let mut it = d.deinflect("食べました");
    let first = it.next().unwrap();
    assert_eq!(first.word, "食べました");
    assert_eq!(first.type_, 0xff);
    let all = words(&d, "xyz");
    assert_eq!(all, vec![("xyz".to_string(), 0xff)]);
}

#[test]
fn deinflect_undoes_rules_in_stack_order() {
    let d = Deinflector::parse(RULES).unwrap();
    assert_eq!(
        words(&d, "食べました"),
        vec![
            ("食べました".to_string(), 0xff),
            ("食べう".to_string(), 1),
            ("食べる".to_string(), 0),
        ]
    );
}

#[test]
fn iter_yields_the_same_as_deinflect_all() {
    let d = Deinflector::parse(RULES).unwrap();
    let mut it = d.deinflect("食べない");
    let mut seen = Vec::new();
    while let Some(c) = it.next() {
        seen.push((c.word, c.type_));
    }
    assert_eq!(seen, words(&d, "食べない"));
    assert_eq!(
        seen,
        vec![("食べない".to_string(), 0xff), ("食べる".to_string(), 1)]
    );
}

#[test]
fn rule_gated_by_class_is_not_applied() {
    // "ない" needs bit 0; a candidate of type 0x02 does not have it.
    let rules = "h\nneg\nます\tない\t767\t0\nない\tる\t257\t0\n";
    let d = Deinflector::parse(rules).unwrap();
    assert_eq!(
        words(&d, "見ます"),
        vec![("見ます".to_string(), 0xff), ("見ない".to_string(), 2)]
    );
}

#[test]
fn rules_for_suffix_keeps_file_order() {
    let d = Deinflector::parse(RULES).unwrap();
    let rules = d.rules_for_suffix("ました");
    assert_eq!(rules.len(), 2);
    assert_eq!(rules[0].to, "る");
    assert_eq!(rules[0].type_, 2);
    assert_eq!(rules[0].reason, "polite past");
    assert_eq!(rules[1].to, "う");
    assert_eq!(rules[1].type_, 258);
    assert!(d.rules_for_suffix("した").is_empty());
}

#[test]
fn rule_file_with_three_fields_is_rejected() {
    let r = Deinflector::parse("h\nreason\na\tb\t1\n");
    assert_eq!(
        r.err(),
        Some(Error::ParseError { lineno: 3, expected: EXPECTED_FIELDS })
    );
}

#[test]
fn rule_file_with_bad_integer_is_rejected() {
    assert_eq!(
        Deinflector::parse("h\nreason\na\tb\tx\t0\n").err(),
        Some(Error::ParseInteger { lineno: 3 })
    );
    assert_eq!(
        Deinflector::parse("h\nreason\na\tb\t1\t-1\n").err(),
        Some(Error::ParseInteger { lineno: 3 })
    );
    assert_eq!(
        Deinflector::parse("h\nreason\na\tb\t4294967296\t0\n").err(),
        Some(Error::ParseInteger { lineno: 3 })
    );
}

#[test]
fn rule_file_accepts_plus_sign_and_largest_type() {
    let d = Deinflector::parse("h\nreason\na\tb\t+4294967295\t0\n").unwrap();
    assert_eq!(d.rules_for_suffix("a")[0].type_, u32::MAX);
}

#[test]
fn rule_file_with_unknown_reason_is_rejected() {
    assert_eq!(
        Deinflector::parse("h\nreason\na\tb\t1\t1\n").err(),
        Some(Error::ParseError { lineno: 3, expected: EXPECTED_REASON })
    );
}

#[test]
fn rule_file_with_empty_suffix_is_rejected() {
    assert_eq!(
        Deinflector::parse("h\nreason\n\tb\t1\t0\n").err(),
        Some(Error::ParseError { lineno: 3, expected: EXPECTED_SUFFIX })
    );
}

#[test]
fn rule_file_header_is_skipped_and_crlf_accepted() {
    let d = Deinflector::parse("a\tb\tc\r\nreason\r\nx\ty\t1\t0\r\n").unwrap();
    let rules = d.rules_for_suffix("x");
    assert_eq!(rules.len(), 1);
    assert_eq!(rules[0].reason, "reason");
    assert_eq!(rules[0].to, "y");
}

#[test]
fn long_finite_chain_is_followed_to_its_end() {
    // Each step removes one "a": twenty rules apply one after the other.
    let d = Deinflector::parse("h\nshorter\na\t\t32896\t0\n").unwrap();
    let word = "a".repeat(20);
    let all = words(&d, &word);
    assert_eq!(all.len(), 21);
    assert_eq!(all[0], (word.clone(), 0xff));
    for (i, (w, t)) in all.iter().enumerate().skip(1) {
        assert_eq!(w.len(), 20 - i);
        assert_eq!(*t, 0x80);
    }
    assert_eq!(all[20], (String::new(), 0x80));
    let mut it = d.deinflect(&word);
    let mut seen = Vec::new();
    while let Some(c) = it.next() {
        seen.push((c.word, c.type_));
    }
    assert_eq!(seen, all);
}

#[test]
fn rule_cycle_is_drained_with_a_ceiling() {
    // A rule that gives back the same word with a matching type never ends;
    // the iterator still yields one candidate per step.
    let d = Deinflector::parse("h\nloop\na\ta\t257\t0\n").unwrap();
    let mut it = d.deinflect("a");
    let mut seen = Vec::new();
    while seen.len() < 100 {
        match it.next() {
            Some(c) => seen.push((c.word, c.type_)),
            None => break,
        }
    }
    assert_eq!(seen.len(), 100);
    assert_eq!(seen[0], ("a".to_string(), 0xff));
    assert!(seen[1..].iter().all(|(w, t)| w == "a" && *t == 1));
}
