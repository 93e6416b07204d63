//! The term dictionary of a segment: an ordered map from term bytes to row
//! numbers, built and read by the `fst` crate.
use fst::automaton::Levenshtein;
use fst::IntoStreamer;
use vstd::prelude::*;
use vstd::utf8::{decode_utf8, encode_utf8, valid_utf8};

verus! {

#[verifier::external_type_specification]
#[verifier::external_body]
#[verifier::reject_recursive_types(D)]
pub struct ExFstMap<D>(fst::Map<D>);

#[verifier::external_type_specification]
#[verifier::external_body]
pub struct ExFstError(fst::Error);

/// `a` comes before `b` in byte order: at the first place where they differ
/// `a` has the smaller byte, or `a` is a proper prefix of `b`.
pub open spec fn bytes_lt(a: Seq<u8>, b: Seq<u8>) -> bool
    decreases a.len(),
{
    if b.len() == 0 {
        false
    } else if a.len() == 0 {
        true
    } else if a[0] != b[0] {
        a[0] < b[0]
    } else {
        bytes_lt(a.drop_first(), b.drop_first())
    }
}

/// The keys of `entries` strictly ascend in byte order.
pub open spec fn keys_ascending(entries: Seq<(Seq<u8>, u64)>) -> bool {
    forall|i: int, j: int| 0 <= i < j < entries.len() ==> bytes_lt(entries[i].0, entries[j].0)
}

/// Some entry has the key.
pub open spec fn has_key(entries: Seq<(Seq<u8>, u64)>, key: Seq<u8>) -> bool {
    exists|i: int| 0 <= i < entries.len() && #[trigger] entries[i].0 == key
}

/// The value stored under `key`, if any entry has it.
pub open spec fn lookup(entries: Seq<(Seq<u8>, u64)>, key: Seq<u8>) -> Option<u64> {
    if has_key(entries, key) {
        Some(entries[choose|i: int| 0 <= i < entries.len() && #[trigger] entries[i].0 == key].1)
    } else {
        None
    }
}

/// The entries as plain values.
pub open spec fn entries_view(entries: Seq<(Vec<u8>, u64)>) -> Seq<(Seq<u8>, u64)> {
    Seq::new(entries.len(), |i: int| (entries[i].0@, entries[i].1))
}

/// Name for the bytes of the map that `fst::Map::from_iter` builds from the
/// entries.
pub uninterp spec fn fst_image(entries: Seq<(Seq<u8>, u64)>) -> Seq<u8>;

/// Name for the entries that a map holds, in key order.
pub uninterp spec fn fst_entries(m: fst::Map<Vec<u8>>) -> Seq<(Seq<u8>, u64)>;

/// Name for the bytes that a map reads from.
pub uninterp spec fn fst_bytes(m: fst::Map<Vec<u8>>) -> Seq<u8>;

/// Name for the keys that a Levenshtein search of the given distance around
/// `term` returns from a map with the given entries.
pub uninterp spec fn fuzzy_keys(entries: Seq<(Seq<u8>, u64)>, term: Seq<char>, dist: u32) -> Seq<
    Seq<u8>,
>;

/// The bytes are those of a map built from ascending keys.
pub open spec fn is_fst_image(bytes: Seq<u8>) -> bool {
    exists|e: Seq<(Seq<u8>, u64)>| keys_ascending(e) && bytes == #[trigger] fst_image(e)
}

/// The map reads from bytes that were built from its own entries, whose
/// keys ascend.
pub open spec fn fst_sound(m: fst::Map<Vec<u8>>) -> bool {
    &&& keys_ascending(fst_entries(m))
    &&& fst_bytes(m) == fst_image(fst_entries(m))
}

/// Byte order is irreflexive.
pub proof fn lemma_bytes_lt_irreflexive(a: Seq<u8>)
    ensures
        !bytes_lt(a, a),
    decreases a.len(),
{
    if a.len() > 0 {
        lemma_bytes_lt_irreflexive(a.drop_first());
    }
}

/// Of two different byte strings one comes before the other.
pub proof fn lemma_bytes_lt_connected(a: Seq<u8>, b: Seq<u8>)
    requires
        a != b,
    ensures
        bytes_lt(a, b) || bytes_lt(b, a),
    decreases a.len(),
{
    if a.len() > 0 && b.len() > 0 && a[0] == b[0] {
        assert(a.drop_first() != b.drop_first()) by {
            if a.drop_first() == b.drop_first() {
                assert(a =~= seq![a[0]] + a.drop_first());
                assert(b =~= seq![b[0]] + b.drop_first());
            }
        }
        lemma_bytes_lt_connected(a.drop_first(), b.drop_first());
    } else if a.len() == 0 {
        assert(b.len() > 0) by {
            if b.len() == 0 {
                assert(a =~= b);
            }
        }
    }
}

/// Different texts have different UTF-8 bytes.
pub proof fn lemma_utf8_injective(a: Seq<char>, b: Seq<char>)
    requires
        a != b,
    ensures
        encode_utf8(a) != encode_utf8(b),
{
    vstd::utf8::encode_utf8_decode_utf8(a);
    vstd::utf8::encode_utf8_decode_utf8(b);
}

/// With ascending keys, the entry at `i` is the one found under its key.
pub proof fn lemma_lookup_finds(entries: Seq<(Seq<u8>, u64)>, i: int)
    requires
        keys_ascending(entries),
        0 <= i < entries.len(),
    ensures
        lookup(entries, entries[i].0) == Some(entries[i].1),
{
    let key = entries[i].0;
    assert(has_key(entries, key));
    let j = choose|j: int| 0 <= j < entries.len() && #[trigger] entries[j].0 == key;
    lemma_bytes_lt_irreflexive(key);
    if j < i {
        assert(bytes_lt(entries[j].0, entries[i].0));
    } else if i < j {
        assert(bytes_lt(entries[i].0, entries[j].0));
    }
}

/// `fst::Map::from_iter`, then the bytes of the map it built. Building
/// succeeds exactly when the keys strictly ascend in byte order.
#[verifier::external_body]
pub(crate) fn fst_build(entries: &Vec<(Vec<u8>, u64)>) -> (r: Result<Vec<u8>, fst::Error>)
    ensures
        r is Ok <==> keys_ascending(entries_view(entries@)),
        r is Ok ==> r->Ok_0@ == fst_image(entries_view(entries@)),
{
    let map = fst::Map::from_iter(entries.iter().map(|e| (&e.0, e.1)))?;
    Ok(map.as_fst().as_bytes().to_vec())
}

/// `fst::Map::new` on owned bytes. Bytes that were built from ascending
/// keys are accepted and give a map that holds exactly those entries.
#[verifier::external_body]
pub(crate) fn fst_open(bytes: Vec<u8>) -> (r: Result<fst::Map<Vec<u8>>, fst::Error>)
    ensures
        r is Ok ==> fst_bytes(r->Ok_0) == bytes@,
        forall|e: Seq<(Seq<u8>, u64)>|
            keys_ascending(e) && bytes@ == #[trigger] fst_image(e) ==> r is Ok && fst_entries(
                r->Ok_0,
            ) == e,
{
    fst::Map::new(bytes)
}

/// `fst::Map::get`: the value stored under the key, if the map has it.
#[verifier::external_body]
pub(crate) fn fst_get(m: &fst::Map<Vec<u8>>, key: &[u8]) -> (r: Option<u64>)
    requires
        fst_sound(*m),
    ensures
        r == lookup(fst_entries(*m), key@),
{
    m.get(key)
}

/// `fst::automaton::Levenshtein::new`, then `fst::Map::search` with the
/// automaton, its matches collected by `into_byte_keys`. An automaton that
/// cannot be built gives no keys.
#[verifier::external_body]
pub(crate) fn fst_fuzzy(m: &fst::Map<Vec<u8>>, term: &str, max_dist: u32) -> (r: Vec<Vec<u8>>)
    requires
        fst_sound(*m),
    ensures
        r.deep_view() == fuzzy_keys(fst_entries(*m), term@, max_dist),
{
    match Levenshtein::new(term, max_dist) {
        Ok(lev) => m.search(lev).into_stream().into_byte_keys(),
        Err(_) => Vec::new(),
    }
}

/// `String::from_utf8`: the text that the bytes encode, if they are valid
/// UTF-8.
#[verifier::external_body]
pub(crate) fn string_from_utf8(bytes: Vec<u8>) -> (r: Option<String>)
    ensures
        r is Some <==> valid_utf8(bytes@),
        r is Some ==> r->Some_0@ == decode_utf8(bytes@),
{
    String::from_utf8(bytes).ok()
}

} // verus!
