use rust_bm25::analysis::{analyze, analyze_arena};

#[test]
fn analyze_is_deterministic() {
    let text = "Os gatos correram pelas ruas de Lisboa; os cães ladravam!";
    assert_eq!(analyze(text), analyze(text));
}

#[test]
fn analyze_splits_on_everything_but_letters() {
    assert_eq!(analyze("cat,dog;cat.dog"), analyze("cat dog cat dog"));
    assert_eq!(analyze("cat7dog"), analyze("cat dog"));
    assert_eq!(analyze("cat_dog-cat\tdog\n"), analyze("cat dog cat dog"));
}

#[test]
fn analyze_drops_words_shorter_than_two_letters() {
    assert!(analyze("a b c 1 2 3 - x").is_empty());
    assert_eq!(analyze("a cat b").len(), 1);
}

#[test]
fn analyze_drops_words_longer_than_twenty_five_letters() {
    let long26 = "abcdefghijklmnopqrstuvwxyz";
    assert!(analyze(long26).is_empty());
    let long25 = "abcdefghijklmnopqrstuvwxy";
    assert_eq!(analyze(long25).len(), 1);
    assert_eq!(analyze("zz").len(), 1);
}

#[test]
fn analyze_lowercases() {
    assert_eq!(analyze("CAT Dog"), analyze("cat dog"));
}

#[test]
fn analyze_strips_accents() {
    assert_eq!(analyze("ação"), analyze("acao"));
    assert_eq!(analyze("Étude"), analyze("etude"));
}

#[test]
fn analyze_stems_portuguese() {
    assert_eq!(analyze("gatos"), vec!["gat".to_string()]);
    assert_eq!(analyze("gatos"), analyze("gato"));
    assert_eq!(analyze("cat"), vec!["cat".to_string()]);
}

#[test]
fn analyze_keeps_the_order_of_the_words() {
    let terms = analyze("the cat sat");
    assert_eq!(terms.len(), 3);
    assert_eq!(terms[1], "cat");
    assert_eq!(terms[0], analyze("the")[0]);
    assert_eq!(terms[2], analyze("sat")[0]);
}

#[test]
fn analyze_empty_text() {
    assert!(analyze("").is_empty());
    assert!(analyze("   ").is_empty());
}

#[test]
fn analyze_arena_gives_the_same_terms() {
    let bump = bumpalo::Bump::new();
    for text in ["", "the cat sat", "Os GATOS correram; ação 42 x", "abcdefghijklmnopqrstuvwxyz ok"] {
        let owned = analyze(text);
        let arena: Vec<String> = analyze_arena(text, &bump).into_iter().map(|s| s.to_string()).collect();
        assert_eq!(arena, owned);
    }
}
