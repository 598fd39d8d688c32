use edict2::edict::{
    type_from_glosses, EXPECTED_GLOSSES, EXPECTED_READINGS_END, EXPECTED_TAGS_END,
};
use edict2::{Edict, Error};

const NIHON: &str = "日本 [にほん(P);にっぽん] /(n) Japan/(P)/EntL1582710X/";
const AYAKASHI: &str = "あやかし /(n) (1) ghost that appears at sea during a shipwreck/(2) something strange or suspicious/EntL2143630X/";

fn lines_under(d: &Edict, key: &str) -> Option<Vec<(String, u32)>> {
    d.lookup(key)
        .map(|es| es.into_iter().map(|e| (e.line.clone(), e.type_)).collect())
}

#[test]
fn headword_and_readings_lead_to_the_record() {
    let data = format!("header\n{NIHON}\n");
    let d = Edict::parse(&data).unwrap();
    let want = Some(vec![(NIHON.to_string(), 0x80)]);
    assert_eq!(lines_under(&d, "日本"), want);
    assert_eq!(lines_under(&d, "にほん"), want);
    assert_eq!(lines_under(&d, "にっぽん"), want);
    assert_eq!(lines_under(&d, "にほん(P)"), None);
}

#[test]
fn record_without_readings_is_indexed_under_its_headword() {
    let data = format!("header\n{AYAKASHI}\n");
    let d = Edict::parse(&data).unwrap();
    assert_eq!(
        lines_under(&d, "あやかし"),
        Some(vec![(AYAKASHI.to_string(), 0x80)])
    );
    assert_eq!(lines_under(&d, "ghost"), None);
    assert_eq!(lines_under(&d, "(n)"), None);
    assert_eq!(lines_under(&d, ""), None);
}

#[test]
fn several_headwords_with_markers_share_a_record() {
    let line = "あの人(P);彼の人 [あのひと] /(pn) he/she/that person/(P)/EntL1000440X/";
    let data = format!("header\n{line}\n");
    let d = Edict::parse(&data).unwrap();
    for key in ["あの人", "彼の人", "あのひと"] {
        assert_eq!(lines_under(&d, key), Some(vec![(line.to_string(), 0x80)]));
    }
}

#[test]
fn records_under_one_key_keep_file_order() {
    let a = "食べる [たべる] /(v1,vt) to eat/EntL1358280X/";
    let b = "食べる [たべる] /(v5r) (made up) to eat differently/EntL9X/";
    let data = format!("header\r\n{a}\r\n{b}");
    let d = Edict::parse(&data).unwrap();
    let want = Some(vec![(a.to_string(), 0x81), (b.to_string(), 0x82)]);
    assert_eq!(lines_under(&d, "食べる"), want);
    assert_eq!(lines_under(&d, "たべる"), want);
}

#[test]
fn header_line_is_not_a_record() {
    let d = Edict::parse("あ /(n) a/\n").unwrap();
    assert_eq!(lines_under(&d, "あ"), None);
    let d = Edict::parse("").unwrap();
    assert_eq!(lines_under(&d, "あ"), None);
}

#[test]
fn type_bits_of_glosses() {
    let t = |s: &str| type_from_glosses(&s.chars().collect());
    assert_eq!(t("v1"), 0x81);
    assert_eq!(t("v5k"), 0x82);
    assert_eq!(t("v5r,vt"), 0x82);
    assert_eq!(t("adj-i"), 0x84);
    assert_eq!(t("vk"), 0x88);
    assert_eq!(t("vs"), 0x90);
    assert_eq!(t("vs-i"), 0x90);
    assert_eq!(t("n"), 0x80);
    assert_eq!(t(""), 0x80);
    assert_eq!(t("v1x"), 0x80);
    assert_eq!(t("v1,v5u,adj-i,vk,vs-s"), 0x9f);
}

#[test]
fn record_without_glosses_is_rejected() {
    assert_eq!(
        Edict::parse("header\nあ\n").err(),
        Some(Error::ParseError { lineno: 2, expected: EXPECTED_GLOSSES })
    );
}

#[test]
fn record_with_unclosed_tags_is_rejected() {
    assert_eq!(
        Edict::parse("header\nい /(n) x/\nあ /(n\n").err(),
        Some(Error::ParseError { lineno: 3, expected: EXPECTED_TAGS_END })
    );
}

#[test]
fn record_with_unclosed_readings_is_rejected() {
    assert_eq!(
        Edict::parse("header\n日本 [にほん /(n) Japan/\n").err(),
        Some(Error::ParseError { lineno: 2, expected: EXPECTED_READINGS_END })
    );
}
