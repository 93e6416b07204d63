//! Text analysis: transliterate to ASCII, lowercase, split on everything
//! that is not a letter, keep words of 2 to 25 letters, and stem them.
use bumpalo::Bump;
use rust_stemmers::{Algorithm, Stemmer};
use vstd::prelude::*;
use vstd::string::StrSliceExecFns;
use vstd::utf8::is_ascii_chars;

verus! {

/// Shortest word that is kept, in letters.
pub const MIN_TOKEN_LEN: usize = 2;

/// Longest word that is kept, in letters.
pub const MAX_TOKEN_LEN: usize = 25;

#[verifier::external_type_specification]
#[verifier::external_body]
pub struct ExBump<const MIN_ALIGN: usize>(Bump<MIN_ALIGN>);

/// Name for the ASCII text that `deunicode::deunicode` gives for a text.
pub uninterp spec fn deunicode_of(text: Seq<char>) -> Seq<char>;

/// Name for the stem that the Portuguese stemmer of `rust_stemmers` gives
/// for a word.
pub uninterp spec fn stem_of(word: Seq<char>) -> Seq<char>;

/// The lowercase form of an ASCII capital; any other character itself.
pub open spec fn lower_char(c: char) -> char {
    if 'A' <= c <= 'Z' {
        ((c as u8 + 32) as u8) as char
    } else {
        c
    }
}

/// The text with every ASCII capital replaced by its lowercase form.
pub open spec fn ascii_lower(s: Seq<char>) -> Seq<char> {
    Seq::new(s.len(), |i: int| lower_char(s[i]))
}

/// A lowercase ASCII letter.
pub open spec fn is_letter(c: char) -> bool {
    'a' <= c <= 'z'
}

/// A word of this many letters is kept.
pub open spec fn keeps(len: int) -> bool {
    2 <= len <= 25
}

/// Where the run of letters that ends before `end` starts.
pub open spec fn run_start(s: Seq<char>, end: int) -> int
    decreases end,
{
    if end <= 0 {
        0
    } else if !is_letter(s[end - 1]) {
        end
    } else {
        run_start(s, end - 1)
    }
}

/// The kept words that end before position `i`, each being a whole run of
/// letters that a character other than a letter ends.
pub open spec fn tokens_before(s: Seq<char>, i: int) -> Seq<Seq<char>>
    decreases i,
{
    if i <= 0 {
        Seq::empty()
    } else {
        let earlier = tokens_before(s, i - 1);
        let start = run_start(s, i - 1);
        if !is_letter(s[i - 1]) && keeps(i - 1 - start) {
            earlier.push(s.subrange(start, i - 1))
        } else {
            earlier
        }
    }
}

/// The kept words of a text: the runs of letters that are 2 to 25 long.
pub open spec fn tokens(s: Seq<char>) -> Seq<Seq<char>> {
    let n = s.len() as int;
    let start = run_start(s, n);
    if keeps(n - start) {
        tokens_before(s, n).push(s.subrange(start, n))
    } else {
        tokens_before(s, n)
    }
}

/// The stems of the words.
pub open spec fn stems(words: Seq<Seq<char>>) -> Seq<Seq<char>> {
    Seq::new(words.len(), |k: int| stem_of(words[k]))
}

/// The terms of a text.
pub open spec fn analyze_spec(text: Seq<char>) -> Seq<Seq<char>> {
    stems(tokens(ascii_lower(deunicode_of(text))))
}

/// A word of 2 to 25 lowercase ASCII letters.
pub open spec fn is_word(w: Seq<char>) -> bool {
    &&& keeps(w.len() as int)
    &&& forall|i: int| 0 <= i < w.len() ==> is_letter(#[trigger] w[i])
}

/// The run that ends before `end` lies inside the text and is all letters.
pub proof fn lemma_run_is_letters(s: Seq<char>, end: int)
    requires
        0 <= end <= s.len(),
    ensures
        0 <= run_start(s, end) <= end,
        forall|i: int| run_start(s, end) <= i < end ==> is_letter(#[trigger] s[i]),
    decreases end,
{
    if end > 0 && is_letter(s[end - 1]) {
        lemma_run_is_letters(s, end - 1);
    }
}

/// Every kept word that ends before `i` is a word.
pub proof fn lemma_tokens_before_are_words(s: Seq<char>, i: int)
    requires
        0 <= i <= s.len(),
    ensures
        forall|k: int|
            0 <= k < tokens_before(s, i).len() ==> is_word(#[trigger] tokens_before(s, i)[k]),
    decreases i,
{
    if i > 0 {
        lemma_tokens_before_are_words(s, i - 1);
        lemma_run_is_letters(s, i - 1);
        let earlier = tokens_before(s, i - 1);
        let now = tokens_before(s, i);
        assert forall|k: int| 0 <= k < now.len() implies is_word(#[trigger] now[k]) by {
            if k < earlier.len() {
                assert(now[k] == earlier[k]);
            } else {
                let start = run_start(s, i - 1);
                let w = s.subrange(start, i - 1);
                assert(now[k] == w);
                assert forall|j: int| 0 <= j < w.len() implies is_letter(#[trigger] w[j]) by {
                    assert(w[j] == s[start + j]);
                }
            }
        }
    }
}

/// Every term of a text is the stem of a word of 2 to 25 lowercase ASCII
/// letters.
pub proof fn lemma_terms_are_stems_of_words(text: Seq<char>, k: int)
    requires
        0 <= k < analyze_spec(text).len(),
    ensures
        exists|w: Seq<char>| is_word(w) && analyze_spec(text)[k] == #[trigger] stem_of(w),
{
    let s = ascii_lower(deunicode_of(text));
    let n = s.len() as int;
    lemma_tokens_before_are_words(s, n);
    lemma_run_is_letters(s, n);
    let w = tokens(s)[k];
    assert(is_word(w)) by {
        if k < tokens_before(s, n).len() {
            assert(w == tokens_before(s, n)[k]);
        } else {
            let start = run_start(s, n);
            assert(w == s.subrange(start, n));
            assert forall|j: int| 0 <= j < w.len() implies is_letter(#[trigger] w[j]) by {
                assert(w[j] == s[start + j]);
            }
        }
    }
    assert(analyze_spec(text)[k] == stem_of(w));
}

/// `deunicode::deunicode`: the transliteration of the text, which is ASCII
/// throughout.
#[verifier::external_body]
fn transliterate(text: &str) -> (r: String)
    ensures
        r@ == deunicode_of(text@),
        is_ascii_chars(r@),
{
    deunicode::deunicode(text)
}

/// `str::to_ascii_lowercase`: the text with `A` to `Z` mapped to `a` to `z`
/// and every other character unchanged.
#[verifier::external_body]
fn ascii_lowercase(s: &str) -> (r: String)
    ensures
        r@ == ascii_lower(s@),
{
    s.to_ascii_lowercase()
}

/// `Stemmer::stem` of the Portuguese stemmer that `Stemmer::create` makes.
#[verifier::external_body]
fn stem_word(word: &str) -> (r: String)
    ensures
        r@ == stem_of(word@),
{
    Stemmer::create(Algorithm::Portuguese).stem(word).into_owned()
}

/// `Bump::alloc_str`: a copy of the text that lives in the arena.
#[verifier::external_body]
fn arena_str<'a>(bump: &'a Bump, text: &str) -> (r: &'a str)
    ensures
        r@ == text@,
{
    bump.alloc_str(text)
}

/// `Bump::new`: an empty arena.
#[verifier::external_body]
pub(crate) fn arena_new() -> Bump {
    Bump::new()
}

/// `Bump::reset`: gives the arena's memory free for reuse.
#[verifier::external_body]
pub(crate) fn arena_reset(bump: &mut Bump) {
    bump.reset();
}

/// Lowercasing keeps ASCII text ASCII.
proof fn lemma_lower_is_ascii(s: Seq<char>)
    requires
        is_ascii_chars(s),
    ensures
        is_ascii_chars(ascii_lower(s)),
{
    assert forall|i: int| 0 <= i < s.len() implies '\0' <= #[trigger] ascii_lower(s)[i]
        <= '\u{7f}' by {
        assert('\0' <= s[i] <= '\u{7f}');
    }
}

/// The lowercase ASCII form of the transliterated text.
fn normalize(text: &str) -> (r: String)
    ensures
        r@ == ascii_lower(deunicode_of(text@)),
        is_ascii_chars(r@),
{
    let ascii = transliterate(text);
    proof {
        lemma_lower_is_ascii(ascii@);
    }
    ascii_lowercase(ascii.as_str())
}

/// Tells whether a byte is a lowercase ASCII letter.
fn is_letter_byte(b: u8) -> (r: bool)
    ensures
        r == (97 <= b <= 122),
{
    b >= 97 && b <= 122
}

/// The terms of a text: its words of 2 to 25 letters, lowercased and
/// stemmed, in the order in which they stand in the text.
pub fn analyze(text: &str) -> (terms: Vec<String>)
    ensures
        terms.deep_view() == analyze_spec(text@),
{
    let lower = normalize(text);
    let s: &str = lower.as_str();
    proof {
        vstd::utf8::is_ascii_chars_encode_utf8(s@);
    }
    let bytes: &[u8] = s.as_bytes();
    let n: usize = bytes.len();
    assert(n == s@.len());
    let mut terms: Vec<String> = Vec::new();
    let mut start: usize = 0;
    let mut i: usize = 0;
    while i < n
        invariant
            i <= n,
            n == s@.len(),
            is_ascii_chars(s@),
            start == run_start(s@, i as int),
            start <= i,
            bytes@ == vstd::utf8::encode_utf8(s@),
            n == bytes@.len(),
            terms.deep_view() == stems(tokens_before(s@, i as int)),
        decreases n - i,
    {
        let b: u8 = bytes[i];
        proof {
            vstd::utf8::is_ascii_chars_encode_utf8(s@);
        }
        assert(is_letter(s@[i as int]) == (97 <= b <= 122));
        if !is_letter_byte(b) {
            let len: usize = i - start;
            if len >= MIN_TOKEN_LEN && len <= MAX_TOKEN_LEN {
                let ghost before = terms.deep_view();
                let word: &str = s.substring_ascii(start, i);
                terms.push(stem_word(word));
                assert(terms.deep_view() =~= before.push(stem_of(word@)));
                assert(stems(tokens_before(s@, i + 1)) =~= before.push(stem_of(word@)));
            }
            start = i + 1;
        }
        i = i + 1;
    }
    let len: usize = n - start;
    if len >= MIN_TOKEN_LEN && len <= MAX_TOKEN_LEN {
        let ghost before = terms.deep_view();
        let word: &str = s.substring_ascii(start, n);
        terms.push(stem_word(word));
        assert(terms.deep_view() =~= before.push(stem_of(word@)));
        assert(stems(tokens(s@)) =~= before.push(stem_of(word@)));
    }
    terms
}

/// The views of the terms.
pub open spec fn term_views(terms: Seq<&str>) -> Seq<Seq<char>> {
    Seq::new(terms.len(), |k: int| terms[k]@)
}

/// The terms of a text, as `analyze` gives them, allocated in the arena.
pub fn analyze_arena<'a>(text: &str, bump: &'a Bump) -> (terms: Vec<&'a str>)
    ensures
        term_views(terms@) == analyze_spec(text@),
{
    let lower = normalize(text);
    let s: &'a str = arena_str(bump, lower.as_str());
    proof {
        vstd::utf8::is_ascii_chars_encode_utf8(s@);
    }
    let bytes: &[u8] = s.as_bytes();
    let n: usize = bytes.len();
    assert(n == s@.len());
    let mut terms: Vec<&'a str> = Vec::new();
    let mut start: usize = 0;
    let mut i: usize = 0;
    while i < n
        invariant
            i <= n,
            n == s@.len(),
            is_ascii_chars(s@),
            start == run_start(s@, i as int),
            start <= i,
            bytes@ == vstd::utf8::encode_utf8(s@),
            n == bytes@.len(),
            term_views(terms@) == stems(tokens_before(s@, i as int)),
        decreases n - i,
    {
        let b: u8 = bytes[i];
        proof {
            vstd::utf8::is_ascii_chars_encode_utf8(s@);
        }
        assert(is_letter(s@[i as int]) == (97 <= b <= 122));
        if !is_letter_byte(b) {
            let len: usize = i - start;
            if len >= MIN_TOKEN_LEN && len <= MAX_TOKEN_LEN {
                let ghost before = term_views(terms@);
                let word: &str = s.substring_ascii(start, i);
                let stem = stem_word(word);
                terms.push(arena_str(bump, stem.as_str()));
                assert(term_views(terms@) =~= before.push(stem_of(word@)));
                assert(stems(tokens_before(s@, i + 1)) =~= before.push(stem_of(word@)));
            }
            start = i + 1;
        }
        i = i + 1;
    }
    let len: usize = n - start;
    if len >= MIN_TOKEN_LEN && len <= MAX_TOKEN_LEN {
        let ghost before = term_views(terms@);
        let word: &str = s.substring_ascii(start, n);
        let stem = stem_word(word);
        terms.push(arena_str(bump, stem.as_str()));
        assert(term_views(terms@) =~= before.push(stem_of(word@)));
        assert(stems(tokens(s@)) =~= before.push(stem_of(word@)));
    }
    terms
}

} // verus!
