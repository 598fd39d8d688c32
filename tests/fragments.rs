use edict2::iter_fragments;

#[test]
fn fragments_are_all_substrings_of_each_run() {
    let found = iter_fragments("a日本b語です.");
    assert_eq!(
        found,
        vec!["日", "日本", "本", "語", "語で", "語です", "で", "です", "す"]
    );
}

#[test]
fn fragments_of_text_without_japanese_are_empty() {
    assert!(iter_fragments("hello, world").is_empty());
    assert!(iter_fragments("").is_empty());
}

#[test]
fn fragments_cover_iteration_mark_and_halfwidth_kana() {
    assert_eq!(iter_fragments("x々y"), vec!["々"]);
    assert_eq!(iter_fragments("ｶﾅ"), vec!["ｶ", "ｶﾅ", "ﾅ"]);
}

#[test]
fn fragments_are_the_same_twice() {
    let text = "今日は、いい天気ですね。";
    assert_eq!(iter_fragments(text), iter_fragments(text));
}
