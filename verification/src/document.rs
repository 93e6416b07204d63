//! Plain-text handling around the index: whitespace, chunking into
//! overlapping windows of characters, and small helpers on book ids and
//! metadata.
use vstd::prelude::*;

verus! {

/// How far back from the end of a window a space is looked for.
pub const BREAK_SEARCH: usize = 100;

/// A character with the Unicode property White_Space.
pub open spec fn is_white(c: char) -> bool {
    let u = c as u32;
    (0x09 <= u <= 0x0D) || u == 0x20 || u == 0x85 || u == 0xA0 || u == 0x1680 || (0x2000 <= u
        <= 0x200A) || u == 0x2028 || u == 0x2029 || u == 0x202F || u == 0x205F || u == 0x3000
}

/// Tells whether a character has the Unicode property White_Space.
pub fn is_whitespace(c: char) -> (r: bool)
    ensures
        r == is_white(c),
{
    let u: u32 = c as u32;
    (0x09 <= u && u <= 0x0D) || u == 0x20 || u == 0x85 || u == 0xA0 || u == 0x1680 || (0x2000 <= u
        && u <= 0x200A) || u == 0x2028 || u == 0x2029 || u == 0x202F || u == 0x205F || u
        == 0x3000
}

/// `String::from_iter` over characters: the text made of the characters.
#[verifier::external_body]
pub(crate) fn string_from_chars(chars: &[char]) -> (r: String)
    ensures
        r@ == chars@,
{
    chars.iter().collect()
}

/// Tells whether two texts are the same.
pub fn str_equal(a: &str, b: &str) -> (r: bool)
    ensures
        r == (a@ == b@),
{
    let x: &[u8] = a.as_bytes();
    let y: &[u8] = b.as_bytes();
    proof {
        if a@ != b@ {
            vstd::utf8::encode_utf8_decode_utf8(a@);
            vstd::utf8::encode_utf8_decode_utf8(b@);
        }
    }
    if x.len() != y.len() {
        return false;
    }
    let n: usize = x.len();
    let mut i: usize = 0;
    while i < n
        invariant
            i <= n,
            n == x@.len(),
            n == y@.len(),
            x@ == vstd::utf8::encode_utf8(a@),
            y@ == vstd::utf8::encode_utf8(b@),
            forall|k: int| 0 <= k < i ==> x@[k] == y@[k],
        decreases n - i,
    {
        if x[i] != y[i] {
            return false;
        }
        i = i + 1;
    }
    assert(x@ =~= y@);
    proof {
        vstd::utf8::encode_utf8_decode_utf8(a@);
        vstd::utf8::encode_utf8_decode_utf8(b@);
    }
    true
}

/// The characters of a text.
pub fn collect_chars(s: &str) -> (out: Vec<char>)
    ensures
        out@ == s@,
{
    let mut out: Vec<char> = Vec::new();
    for c in it: s.chars()
        invariant
            out@ == it.seq().take(it.index() as int),
            it.seq() == s@,
    {
        out.push(c);
        assert(it.seq().take(it.index() + 1) =~= it.seq().take(it.index() as int).push(c));
    }
    assert(s@.take(s@.len() as int) =~= s@);
    out
}

/// Where the first character that is not whitespace stands, or the length
/// if there is none.
pub open spec fn trim_start(s: Seq<char>) -> int
    decreases s.len(),
{
    if s.len() == 0 || !is_white(s[0]) {
        0
    } else {
        1 + trim_start(s.drop_first())
    }
}

/// The place after the last character that is not whitespace, or 0 if there
/// is none.
pub open spec fn trim_end(s: Seq<char>) -> int
    decreases s.len(),
{
    if s.len() == 0 || !is_white(s.last()) {
        s.len() as int
    } else {
        trim_end(s.drop_last())
    }
}

/// The text without the whitespace at its start and at its end.
pub open spec fn trimmed(s: Seq<char>) -> Seq<char> {
    if trim_start(s) >= trim_end(s) {
        Seq::empty()
    } else {
        s.subrange(trim_start(s), trim_end(s))
    }
}

/// The bounds of trimming lie inside the text.
pub proof fn lemma_trim_bounds(s: Seq<char>)
    ensures
        0 <= trim_start(s) <= s.len(),
        0 <= trim_end(s) <= s.len(),
    decreases s.len(),
{
    if s.len() > 0 {
        lemma_trim_bounds(s.drop_first());
        lemma_trim_bounds(s.drop_last());
    }
}

/// The bounds `(from, to)` of the text between `lo` and `hi` without the
/// whitespace at its start and end; `from == to` where nothing is left.
fn trim_bounds(chars: &Vec<char>, lo: usize, hi: usize) -> (r: (usize, usize))
    requires
        lo <= hi <= chars@.len(),
    ensures
        lo <= r.0 <= r.1 <= hi,
        chars@.subrange(r.0 as int, r.1 as int) == trimmed(chars@.subrange(lo as int, hi as int)),
{
    let ghost s = chars@.subrange(lo as int, hi as int);
    let mut from: usize = lo;
    assert(s.skip(0) =~= s);
    while from < hi && is_whitespace(chars[from])
        invariant
            lo <= from <= hi <= chars@.len(),
            s == chars@.subrange(lo as int, hi as int),
            trim_start(s) == (from - lo) + trim_start(s.skip(from - lo)),
        decreases hi - from,
    {
        proof {
            let rest = s.skip(from - lo);
            assert(rest[0] == chars@[from as int]);
            assert(rest.drop_first() =~= s.skip(from - lo + 1));
        }
        from = from + 1;
    }
    proof {
        let rest = s.skip(from - lo);
        if from < hi {
            assert(rest[0] == chars@[from as int]);
        }
        assert(trim_start(s) == from - lo);
    }
    let mut to: usize = hi;
    assert(s.take(hi - lo) =~= s);
    while to > from && is_whitespace(chars[to - 1])
        invariant
            lo <= from <= to <= hi <= chars@.len(),
            s == chars@.subrange(lo as int, hi as int),
            trim_end(s) == trim_end(s.take(to - lo)),
        decreases to,
    {
        proof {
            let front = s.take(to - lo);
            assert(front.last() == chars@[to - 1]);
            assert(front.drop_last() =~= s.take(to - lo - 1));
        }
        to = to - 1;
    }
    proof {
        assert(s.take(hi - lo) =~= s);
        let front = s.take(to - lo);
        if to > from {
            assert(front.last() == chars@[to - 1]);
            assert(trim_end(s) == to - lo);
            assert(chars@.subrange(from as int, to as int) =~= s.subrange(from - lo, to - lo));
        } else {
            lemma_trim_bounds(front);
            assert(trim_end(s) <= to - lo);
            assert(chars@.subrange(from as int, to as int) =~= Seq::<char>::empty());
        }
    }
    (from, to)
}

/// The greatest place in `lo..hi` where a space stands, or `hi` if none
/// does.
pub open spec fn last_space(s: Seq<char>, lo: int, hi: int, at: int) -> int
    decreases at - lo,
{
    if at <= lo {
        hi
    } else if s[at - 1] == ' ' {
        at - 1
    } else {
        last_space(s, lo, hi, at - 1)
    }
}

/// Where the window that starts at `start` ends: `chunk_size` characters on
/// or at the end of the text; before the end of the text, at the last space
/// among the last 100 characters of the window, if there is one after the
/// window's first character.
pub open spec fn window_end(s: Seq<char>, start: int, chunk_size: int) -> int {
    let hard = if start + chunk_size < s.len() {
        start + chunk_size
    } else {
        s.len() as int
    };
    if hard < s.len() {
        let lo = if hard - 100 > start {
            hard - 100
        } else {
            start
        };
        let b = last_space(s, lo, hard, hard);
        if b > start {
            b
        } else {
            hard
        }
    } else {
        hard
    }
}

/// Where the window after one that ran from `start` to `end` starts:
/// `overlap` characters before `end`, or at `end` where that would not move
/// on.
pub open spec fn next_start(start: int, end: int, overlap: int) -> int {
    let advance = if end > overlap {
        end - overlap
    } else {
        end
    };
    if advance <= start {
        end
    } else {
        advance
    }
}

/// The window end lies after the start and inside the text.
pub proof fn lemma_window_end(s: Seq<char>, start: int, chunk_size: int)
    requires
        0 <= start < s.len(),
        chunk_size >= 1,
    ensures
        start < window_end(s, start, chunk_size) <= s.len(),
        window_end(s, start, chunk_size) <= start + chunk_size,
{
    let hard = if start + chunk_size < s.len() {
        start + chunk_size
    } else {
        s.len() as int
    };
    let lo = if hard - 100 > start {
        hard - 100
    } else {
        start
    };
    lemma_last_space(s, lo, hard, hard);
}

/// The last space lies in the range searched, or is the upper bound.
pub proof fn lemma_last_space(s: Seq<char>, lo: int, hi: int, at: int)
    requires
        lo <= at <= hi,
    ensures
        last_space(s, lo, hi, at) == hi || lo <= last_space(s, lo, hi, at) < at,
    decreases at - lo,
{
    if at > lo && s[at - 1] != ' ' {
        lemma_last_space(s, lo, hi, at - 1);
    }
}

/// The chunks of the text from `start` on.
pub open spec fn chunks_from(s: Seq<char>, start: int, chunk_size: int, overlap: int) -> Seq<
    Seq<char>,
>
    decreases s.len() - start,
{
    if start < 0 || start >= s.len() || chunk_size < 1 || overlap < 0 {
        Seq::empty()
    } else {
        let end = window_end(s, start, chunk_size);
        let piece = trimmed(s.subrange(start, end));
        let head = if piece.len() > 0 {
            seq![piece]
        } else {
            Seq::empty()
        };
        if end >= s.len() {
            head
        } else {
            proof {
                lemma_window_end(s, start, chunk_size);
            }
            head + chunks_from(s, next_start(start, end, overlap), chunk_size, overlap)
        }
    }
}

/// The chunks of a text: the whole trimmed text where it has at most
/// `chunk_size` characters, else overlapping windows of at most `chunk_size`
/// characters, each trimmed, empty ones left out.
pub open spec fn chunk_spec(s: Seq<char>, chunk_size: int, overlap: int) -> Seq<Seq<char>> {
    if s.len() == 0 {
        Seq::empty()
    } else if s.len() <= chunk_size {
        if trimmed(s).len() == 0 {
            Seq::empty()
        } else {
            seq![trimmed(s)]
        }
    } else {
        chunks_from(s, 0, chunk_size, overlap)
    }
}

/// Cuts a text into chunks of at most `chunk_size` characters, each
/// starting `overlap` characters before the end of the one before. A window
/// that does not reach the end of the text is cut at its last space, if
/// that lies among its last 100 characters. With a `chunk_size` of 0 a text
/// longer than that has no chunks.
pub fn chunk_text(text: &str, chunk_size: usize, overlap: usize) -> (chunks: Vec<String>)
    ensures
        chunks.deep_view() == chunk_spec(text@, chunk_size as int, overlap as int),
{
    let chars: Vec<char> = collect_chars(text);
    let total: usize = chars.len();
    let mut chunks: Vec<String> = Vec::new();
    if total == 0 {
        assert(chunks.deep_view() =~= Seq::<Seq<char>>::empty());
        return chunks;
    }
    if total <= chunk_size {
        let (from, to) = trim_bounds(&chars, 0, total);
        assert(chars@.subrange(0, total as int) =~= chars@);
        if from < to {
            chunks.push(string_from_chars(vstd::slice::slice_subrange(chars.as_slice(), from, to)));
            assert(chunks.deep_view() =~= seq![trimmed(text@)]);
        } else {
            assert(chunks.deep_view() =~= Seq::<Seq<char>>::empty());
        }
        return chunks;
    }
    if chunk_size == 0 {
        assert(chunks.deep_view() =~= Seq::<Seq<char>>::empty());
        return chunks;
    }
    let ghost s = chars@;
    let ghost all = chunks_from(s, 0, chunk_size as int, overlap as int);
    let mut start: usize = 0;
    assert(chunks.deep_view() =~= Seq::<Seq<char>>::empty());
    while start < total
        invariant_except_break
            all == chunks.deep_view() + chunks_from(
                s,
                start as int,
                chunk_size as int,
                overlap as int,
            ),
        invariant
            s == chars@,
            total == s.len(),
            chunk_size >= 1,
        ensures
            all == chunks.deep_view(),
        decreases total - start,
    {
        let mut end: usize = if chunk_size < total - start {
            start + chunk_size
        } else {
            total
        };
        if end < total {
            let search_limit: usize = if end - start > BREAK_SEARCH {
                end - BREAK_SEARCH
            } else {
                start
            };
            let mut best_break: usize = end;
            let mut i: usize = end;
            while i > search_limit
                invariant_except_break
                    best_break == end,
                    last_space(s, search_limit as int, end as int, end as int) == last_space(
                        s,
                        search_limit as int,
                        end as int,
                        i as int,
                    ),
                invariant
                    search_limit <= i <= end < total,
                    total == chars@.len(),
                    s == chars@,
                ensures
                    search_limit <= end < total,
                    best_break == last_space(s, search_limit as int, end as int, end as int),
                decreases i,
            {
                if chars[i - 1] == ' ' {
                    best_break = i - 1;
                    break;
                }
                i = i - 1;
            }
            if best_break > start {
                end = best_break;
            }
        }
        proof {
            lemma_window_end(s, start as int, chunk_size as int);
        }
        assert(end == window_end(s, start as int, chunk_size as int));
        let ghost before = chunks.deep_view();
        let (from, to) = trim_bounds(&chars, start, end);
        if from < to {
            chunks.push(string_from_chars(vstd::slice::slice_subrange(chars.as_slice(), from, to)));
            assert(chunks.deep_view() =~= before.push(trimmed(s.subrange(start as int, end as int))));
        }
        let advance: usize = if end > overlap {
            end - overlap
        } else {
            end
        };
        let ghost old_start = start;
        if advance <= start {
            start = end;
        } else {
            start = advance;
        }
        assert(start == next_start(old_start as int, end as int, overlap as int));
        if end >= total {
            assert(all =~= chunks.deep_view());
            break;
        }
        assert(all =~= chunks.deep_view() + chunks_from(
            s,
            start as int,
            chunk_size as int,
            overlap as int,
        ));
    }
    chunks
}

/// The text up to position `i` with every run of whitespace replaced by one
/// space and no space at the start.
pub open spec fn squeezed(s: Seq<char>, i: int) -> Seq<char>
    decreases i,
{
    if i <= 0 {
        Seq::empty()
    } else {
        let before = squeezed(s, i - 1);
        if !is_white(s[i - 1]) {
            before.push(s[i - 1])
        } else if i - 1 == 0 || is_white(s[i - 2]) {
            before
        } else {
            before.push(' ')
        }
    }
}

/// The text with every run of whitespace replaced by one space, and none at
/// the start or the end.
pub open spec fn normalized(s: Seq<char>) -> Seq<char> {
    let r = squeezed(s, s.len() as int);
    if r.len() > 0 && r.last() == ' ' {
        r.drop_last()
    } else {
        r
    }
}

/// Replaces every run of whitespace by one space and trims the text.
pub fn normalize_whitespace(text: &str) -> (r: String)
    ensures
        r@ == normalized(text@),
{
    let chars: Vec<char> = collect_chars(text);
    let n: usize = chars.len();
    let mut out: Vec<char> = Vec::new();
    let mut prev_was_space: bool = true;
    let mut i: usize = 0;
    while i < n
        invariant
            i <= n,
            n == chars@.len(),
            out@ == squeezed(chars@, i as int),
            prev_was_space == (i == 0 || is_white(chars@[i - 1])),
        decreases n - i,
    {
        let c: char = chars[i];
        if is_whitespace(c) {
            if !prev_was_space {
                out.push(' ');
                prev_was_space = true;
            }
        } else {
            out.push(c);
            prev_was_space = false;
        }
        i = i + 1;
    }
    let m: usize = out.len();
    if m > 0 && out[m - 1] == ' ' {
        out.pop();
        assert(out@ =~= squeezed(chars@, n as int).drop_last());
    }
    string_from_chars(out.as_slice())
}

/// Where `pat` first stands in `hay` at or after `from`.
pub open spec fn first_match(hay: Seq<char>, pat: Seq<char>, from: int) -> Option<int>
    decreases hay.len() - from,
{
    if from < 0 || from + pat.len() > hay.len() {
        None
    } else if hay.subrange(from, from + pat.len()) == pat {
        Some(from)
    } else if from >= hay.len() {
        None
    } else {
        first_match(hay, pat, from + 1)
    }
}

/// Finds where `pat` first stands in `hay` at or after `from`.
pub fn find_from(hay: &Vec<char>, pat: &Vec<char>, from: usize) -> (r: Option<usize>)
    ensures
        r is Some <==> first_match(hay@, pat@, from as int) is Some,
        r is Some ==> r->Some_0 == first_match(hay@, pat@, from as int)->Some_0 && from
            <= r->Some_0 && r->Some_0 + pat@.len() <= hay@.len() <= usize::MAX,
{
    let n: usize = hay.len();
    let m: usize = pat.len();
    if m > n {
        return None;
    }
    let mut i: usize = from;
    while i <= n - m
        invariant
            m <= n,
            n == hay@.len(),
            m == pat@.len(),
            from <= i,
            first_match(hay@, pat@, from as int) == first_match(hay@, pat@, i as int),
        decreases n - i,
    {
        let mut j: usize = 0;
        while j < m && hay[i + j] == pat[j]
            invariant
                j <= m,
                i + m <= n,
                n == hay@.len(),
                m == pat@.len(),
                forall|k: int| 0 <= k < j ==> hay@[i + k] == pat@[k],
            decreases m - j,
        {
            j = j + 1;
        }
        if j == m {
            assert(hay@.subrange(i as int, i + m) =~= pat@);
            return Some(i);
        }
        assert(hay@.subrange(i as int, i + m)[j as int] != pat@[j as int]);
        i = i + 1;
    }
    None
}

/// The pattern that opens the value of a field, with or without a space
/// after the colon.
pub open spec fn field_pattern(field: Seq<char>, spaced: bool) -> Seq<char> {
    if spaced {
        seq!['"'] + field + seq!['"', ':', ' ', '"']
    } else {
        seq!['"'] + field + seq!['"', ':', '"']
    }
}

/// The text between the first occurrence of the pattern and the next
/// double quote, if both are there.
pub open spec fn value_after(json: Seq<char>, pat: Seq<char>) -> Option<Seq<char>> {
    match first_match(json, pat, 0) {
        Some(i) => match first_match(json, seq!['"'], i + pat.len()) {
            Some(e) => Some(json.subrange(i + pat.len(), e)),
            None => None,
        },
        None => None,
    }
}

/// The value of a string field of a flat JSON text: what stands between
/// `"field": "` (or `"field":"`) and the next double quote.
pub open spec fn json_field(json: Seq<char>, field: Seq<char>) -> Option<Seq<char>> {
    match value_after(json, field_pattern(field, true)) {
        Some(v) => Some(v),
        None => value_after(json, field_pattern(field, false)),
    }
}

/// Extracts the text after the pattern up to the next double quote.
fn extract_after(json: &Vec<char>, pat: &Vec<char>) -> (r: Option<String>)
    ensures
        r is Some <==> value_after(json@, pat@) is Some,
        r is Some ==> Some(r->Some_0@) == value_after(json@, pat@),
{
    let start: usize = match find_from(json, pat, 0) {
        Some(i) => i + pat.len(),
        None => { return None; },
    };
    let mut quote: Vec<char> = Vec::new();
    quote.push('"');
    assert(quote@ =~= seq!['"']);
    match find_from(json, &quote, start) {
        Some(end) => {
            Some(string_from_chars(vstd::slice::slice_subrange(json.as_slice(), start, end)))
        },
        None => None,
    }
}

/// Reads the value of a string field out of a flat JSON text without
/// parsing it.
pub fn extract_json_field(json: &str, field: &str) -> (r: Option<String>)
    ensures
        r is Some <==> json_field(json@, field@) is Some,
        r is Some ==> Some(r->Some_0@) == json_field(json@, field@),
{
    let text: Vec<char> = collect_chars(json);
    let name: Vec<char> = collect_chars(field);
    let mut spaced: Vec<char> = Vec::new();
    spaced.push('"');
    let mut copy = name.clone();
    spaced.append(&mut copy);
    spaced.push('"');
    spaced.push(':');
    spaced.push(' ');
    spaced.push('"');
    assert(spaced@ =~= field_pattern(field@, true));
    match extract_after(&text, &spaced) {
        Some(v) => { return Some(v); },
        None => {},
    }
    let mut tight: Vec<char> = Vec::new();
    tight.push('"');
    let mut copy = name.clone();
    tight.append(&mut copy);
    tight.push('"');
    tight.push(':');
    tight.push('"');
    assert(tight@ =~= field_pattern(field@, false));
    extract_after(&text, &tight)
}

/// The shard of a book id: its first two characters, with `0` put before
/// an id of fewer than two.
pub open spec fn shard_spec(book_id: Seq<char>) -> Seq<char> {
    if book_id.len() >= 2 {
        book_id.take(2)
    } else if book_id.len() == 1 {
        seq!['0', book_id[0]]
    } else {
        seq!['0', '0']
    }
}

/// The name of the directory that holds the chunks of a book.
pub fn shard_of(book_id: &str) -> (r: String)
    ensures
        r@ == shard_spec(book_id@),
{
    let chars: Vec<char> = collect_chars(book_id);
    let mut out: Vec<char> = Vec::new();
    if chars.len() >= 2 {
        out.push(chars[0]);
        out.push(chars[1]);
    } else if chars.len() == 1 {
        out.push('0');
        out.push(chars[0]);
    } else {
        out.push('0');
        out.push('0');
    }
    assert(out@ =~= shard_spec(book_id@));
    string_from_chars(out.as_slice())
}

} // verus!
