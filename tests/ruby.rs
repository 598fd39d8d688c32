use edict2::remove_ruby;

#[test]
fn ruby_test() {
    assert_eq!(remove_ruby("no ruby"), "no ruby");
    assert_eq!(remove_ruby("あいうえお"), "あいうえお");
    assert_eq!(
        remove_ruby(
            "ベツレヘム　ガザ<ruby>地区<rt>ちく</rt></ruby>で<ruby>亡<rt>な</rt></ruby>くなった<ruby>人<rt>ひと</rt></ruby>のために<ruby>祈<rt>いの</rt></ruby>る"
        ),
        "ベツレヘム　ガザ地区で亡くなった人のために祈る",
    );
}

#[test]
fn ruby_removes_rp_and_rtc_elements() {
    assert_eq!(
        remove_ruby("<ruby>漢<rp>(</rp><rt>かん</rt><rp>)</rp></ruby>字"),
        "漢字"
    );
    assert_eq!(remove_ruby("<ruby>字<rtc>じ</rtc></ruby>"), "字");
}

#[test]
fn ruby_element_does_not_span_lines() {
    assert_eq!(remove_ruby("a<rt>x\ny</rt>b"), "a<rt>x\ny</rt>b");
    assert_eq!(remove_ruby("a<rt>x\ny</rt>b<rt>z</rt>"), "a<rt>x\ny</rt>b");
}

#[test]
fn ruby_lazy_content_stops_at_first_close() {
    assert_eq!(remove_ruby("<rt>a</rt>b</rt>"), "b</rt>");
}
