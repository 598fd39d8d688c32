use std::io::{stdout, BufWriter, Write};

use edict2::{Error, SubEdictCreator, SubEnamdictCreator};

const RULES: &str = "deinflect rules\n\
polite past\n\
negative\n\
ました\tる\t2\t0\n\
ない\tる\t257\t1\n";

const DICTIONARY: &str = "EDICT header\n\
食べる [たべる] /(v1,vt) to eat/EntL1358280X/\n\
日本 [にほん(P);にっぽん] /(n) Japan/(P)/EntL1582710X/\n\
本 [ほん] /(n) book/EntL1522150X/\n\
日 [ひ] /(n) day/EntL1582690X/\n";

#[test]
fn test_test() {
    let sub_edict_creator =
        SubEdictCreator::new(DICTIONARY, RULES).expect("failed to load EDICT2");
    let data = "日本で食べない本を読みました。";
    let lines = sub_edict_creator.from(data);
    let mut writer = BufWriter::with_capacity(8192, stdout().lock());
    for line in &lines {
        let _ = writer.write(line.as_bytes()).expect("failed to write line");
        let _ = writer.write(b"\n").expect("failed to write newline");
    }
    assert_eq!(lines.len(), 4);
}

#[test]
fn class_mismatch_rejects_the_deinflected_word() {
    // The rule demands a godan word; 食べる is ichidan.
    let rules = "h\npolite past\nました\tる\t2\t0\n";
    let dict = "h\n食べる /(v1) to eat/EntL1/\n";
    let creator = SubEdictCreator::new(dict, rules).unwrap();
    assert!(creator.from("食べました").is_empty());
    // With a rule that gives an ichidan word, the record is found.
    let rules = "h\npolite past\nました\tる\t257\t0\n";
    let creator = SubEdictCreator::new(dict, rules).unwrap();
    assert_eq!(creator.from("食べました"), vec!["食べる /(v1) to eat/EntL1/"]);
}

#[test]
fn annotate_is_sorted_without_repeats() {
    let creator = SubEdictCreator::new(DICTIONARY, RULES).unwrap();
    let lines = creator.from("日本、日本。食べない、食べる、にほん");
    assert_eq!(
        lines,
        vec![
            "日 [ひ] /(n) day/EntL1582690X/",
            "日本 [にほん(P);にっぽん] /(n) Japan/(P)/EntL1582710X/",
            "本 [ほん] /(n) book/EntL1522150X/",
            "食べる [たべる] /(v1,vt) to eat/EntL1358280X/",
        ]
    );
    let mut sorted = lines.clone();
    sorted.sort();
    sorted.dedup();
    assert_eq!(sorted, lines);
}

#[test]
fn annotate_of_text_without_words_is_empty() {
    let creator = SubEdictCreator::new(DICTIONARY, RULES).unwrap();
    assert!(creator.from("no Japanese here").is_empty());
    assert!(creator.from("").is_empty());
}

#[test]
fn creator_reports_the_first_bad_file() {
    assert_eq!(
        SubEdictCreator::new("h\nbad\n", RULES).err(),
        Some(Error::ParseError { lineno: 2, expected: " /" })
    );
    assert_eq!(
        SubEdictCreator::new(DICTIONARY, "h\nr\na\tb\tc\t0\n").err(),
        Some(Error::ParseInteger { lineno: 3 })
    );
}

#[test]
fn names_are_looked_up_without_deinflection() {
    let names = "ENAMDICT\n\
山田 [やまだ] /(s) Yamada/\n\
田中 [たなか] /(s) Tanaka/\n\
山田 [さんだ] /(p) Sanda/\n";
    let creator = SubEnamdictCreator::new(names).unwrap();
    assert_eq!(
        creator.from("山田さんと田中さん、山田さん"),
        vec![
            "山田 [さんだ] /(p) Sanda/",
            "山田 [やまだ] /(s) Yamada/",
            "田中 [たなか] /(s) Tanaka/",
        ]
    );
    assert_eq!(creator.from("やまだ"), vec!["山田 [やまだ] /(s) Yamada/"]);
    assert_eq!(
        SubEnamdictCreator::new("h\nx [y /(s) z/\n").err(),
        Some(Error::ParseError { lineno: 2, expected: "] /" })
    );
}
