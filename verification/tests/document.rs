use rust_bm25::document::{
    chunk_text, collect_chars, extract_json_field, is_whitespace, normalize_whitespace, shard_of,
    str_equal,
};

#[test]
fn whitespace_is_what_std_says() {
    for u in 0u32..0x3100 {
        if let Some(c) = char::from_u32(u) {
            assert_eq!(is_whitespace(c), c.is_whitespace(), "U+{:04X}", u);
        }
    }
    assert!(!is_whitespace('\u{FEFF}'));
    assert!(!is_whitespace('\u{1F600}'));
}

#[test]
fn collect_chars_gives_every_character() {
    assert_eq!(collect_chars("aé北🦄"), vec!['a', 'é', '北', '🦄']);
    assert!(collect_chars("").is_empty());
}

#[test]
fn str_equal_compares_texts() {
    assert!(str_equal("cat", "cat"));
    assert!(str_equal("", ""));
    assert!(!str_equal("cat", "cab"));
    assert!(!str_equal("cat", "cats"));
    assert!(!str_equal("é", "e"));
}

#[test]
fn normalize_whitespace_squeezes_and_trims() {
    assert_eq!(normalize_whitespace("  a \t\n b  "), "a b");
    assert_eq!(normalize_whitespace("a"), "a");
    assert_eq!(normalize_whitespace(""), "");
    assert_eq!(normalize_whitespace(" \n\t "), "");
    assert_eq!(normalize_whitespace("x\u{00A0}\u{2003}y"), "x y");
    assert_eq!(normalize_whitespace("one  two   three"), "one two three");
}

#[test]
fn chunk_text_of_empty_text_is_empty() {
    assert!(chunk_text("", 10, 2).is_empty());
    assert!(chunk_text("   \n ", 10, 2).is_empty());
}

#[test]
fn chunk_text_short_text_is_one_trimmed_chunk() {
    assert_eq!(chunk_text("  hello world ", 1000, 100), vec!["hello world".to_string()]);
    assert_eq!(chunk_text("abcde", 5, 1), vec!["abcde".to_string()]);
}

#[test]
fn chunk_text_breaks_at_the_last_space_of_the_window() {
    let chunks = chunk_text("aaaa bbbb cccc dddd", 10, 0);
    assert_eq!(chunks, vec!["aaaa bbbb".to_string(), "cccc dddd".to_string()]);
}

#[test]
fn chunk_text_overlaps_by_characters() {
    let chunks = chunk_text("abcdefghij", 4, 2);
    assert_eq!(
        chunks,
        vec!["abcd".to_string(), "cdef".to_string(), "efgh".to_string(), "ghij".to_string()]
    );
}

#[test]
fn chunk_text_moves_on_when_the_overlap_is_as_long_as_the_chunk() {
    let chunks = chunk_text("abcdefgh", 3, 5);
    assert_eq!(chunks, vec!["abc".to_string(), "def".to_string(), "gh".to_string()]);
}

#[test]
fn chunk_text_counts_characters_not_bytes() {
    let chunks = chunk_text("ééééé", 2, 0);
    assert_eq!(chunks, vec!["éé".to_string(), "éé".to_string(), "é".to_string()]);
}

#[test]
fn chunk_text_looks_back_a_hundred_characters_for_a_space() {
    let mut text = String::from("ab ");
    text.push_str(&"x".repeat(150));
    let chunks = chunk_text(&text, 120, 0);
    assert_eq!(chunks[0].chars().count(), 120);
    let mut text = String::from("a");
    text.push_str(&"x".repeat(30));
    text.push(' ');
    text.push_str(&"y".repeat(150));
    let chunks = chunk_text(&text, 120, 0);
    assert_eq!(chunks[0], format!("a{}", "x".repeat(30)));
}

#[test]
fn chunk_text_windows_stay_within_the_chunk_size() {
    let text = "lorem ipsum dolor sit amet ".repeat(200);
    let chunks = chunk_text(&text, 1000, 100);
    assert!(chunks.len() > 5);
    for c in &chunks {
        assert!(c.chars().count() <= 1000);
        assert!(!c.is_empty());
        assert_eq!(c.trim(), c);
    }
}

#[test]
fn chunk_text_with_chunk_size_zero_has_no_chunks() {
    assert!(chunk_text("abc", 0, 0).is_empty());
}

#[test]
fn extract_json_field_with_and_without_space() {
    assert_eq!(extract_json_field("{\"title\": \"Dom Casmurro\"}", "title"), Some("Dom Casmurro".to_string()));
    assert_eq!(extract_json_field("{\"title\":\"Dom\",\"a\":1}", "title"), Some("Dom".to_string()));
    assert_eq!(extract_json_field("{\"title\": \"\"}", "title"), Some(String::new()));
}

#[test]
fn extract_json_field_missing_or_unclosed() {
    assert_eq!(extract_json_field("{\"title\": \"Dom\"}", "author"), None);
    assert_eq!(extract_json_field("{\"title\": \"Dom", "title"), None);
    assert_eq!(extract_json_field("", "title"), None);
    assert_eq!(extract_json_field("{\"n\": 3}", "n"), None);
}

#[test]
fn extract_json_field_prefers_the_spaced_form() {
    let json = "{\"k\":\"tight\", \"k\": \"spaced\"}";
    assert_eq!(extract_json_field(json, "k"), Some("spaced".to_string()));
}

#[test]
fn shard_is_the_first_two_characters() {
    assert_eq!(shard_of("book123"), "bo");
    assert_eq!(shard_of("ab"), "ab");
    assert_eq!(shard_of("a"), "0a");
    assert_eq!(shard_of(""), "00");
    assert_eq!(shard_of("éévora"), "éé");
}
