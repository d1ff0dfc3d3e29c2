//! Labels for connections: a word of a fixed English list, picked by a
//! hash of the peer's address, so one address always gets the same label.
use vstd::prelude::*;

verus! {

/// Number of characters of the words labels are drawn from.
pub const LABEL_WORD_LEN: usize = 8;

/// The English words of `len` characters, in the order the word list holds them.
pub uninterp spec fn english_words(len: nat) -> Seq<Seq<char>>;

/// The hash of an address, as the standard library's default hasher gives it.
pub uninterp spec fn address_hash(address: Seq<char>) -> u64;

/// The index that a generator seeded with `seed` picks from a list of `len` entries.
pub uninterp spec fn seeded_index(seed: u64, len: nat) -> int;

/// The characters of each string of a list.
pub open spec fn texts(v: Seq<String>) -> Seq<Seq<char>> {
    v.map_values(|s: String| s@)
}

/// The characters of an optional string.
pub open spec fn text_of(r: Option<String>) -> Option<Seq<char>> {
    match r {
        Some(s) => Some(s@),
        None => None,
    }
}

/// Relies on `random_word::all_len` with `Lang::En`: the fixed list of
/// English words of exactly `len` characters: given exactly when the list
/// holds such a word, and then non-empty.
#[verifier::external_body]
fn english_words_of_len(len: usize) -> (r: Option<Vec<String>>)
    ensures
        r is Some <==> english_words(len as nat).len() > 0,
        r matches Some(v) ==> texts(v@) == english_words(len as nat) && v@.len() > 0 && forall|i: int|
            0 <= i < v@.len() ==> (#[trigger] v@[i])@.len() == len,
{
    random_word::all_len(len, random_word::Lang::En).map(|w| w.iter().map(|s| s.to_string()).collect())
}

/// Relies on `std::hash::BuildHasher::hash_one` with the default hasher
/// (`std::hash::DefaultHasher`, whose instances made by `new` all agree):
/// the hash of the address depends on the address alone.
#[verifier::external_body]
fn hash_address(address: &str) -> (r: u64)
    ensures
        r == address_hash(address@),
{
    std::hash::BuildHasher::hash_one(&std::hash::BuildHasherDefault::<std::hash::DefaultHasher>::default(), address)
}

/// Relies on `rand::rngs::StdRng::seed_from_u64` and
/// `rand::seq::IndexedRandom::choose`: on a non-empty list the generator
/// seeded with `seed` picks the entry at an index below the length that
/// depends on the seed and the length alone; on an empty list it picks none.
#[verifier::external_body]
fn choose_seeded(words: &Vec<String>, seed: u64) -> (r: Option<String>)
    ensures
        r is None <==> words@.len() == 0,
        r matches Some(w) ==> 0 <= seeded_index(seed, words@.len()) < words@.len() && w@ == words@[seeded_index(
            seed,
            words@.len(),
        )]@,
{
    let mut rng = <rand::rngs::StdRng as rand::SeedableRng>::seed_from_u64(seed);
    rand::seq::IndexedRandom::choose(words.as_slice(), &mut rng).cloned()
}

/// The label picked from `words` for an address whose hash is `hash`, or
/// none when there is no word.
pub open spec fn label_of(words: Seq<Seq<char>>, hash: u64) -> Option<Seq<char>> {
    if words.len() == 0 {
        None
    } else {
        Some(words[seeded_index(hash, words.len())])
    }
}

/// The words labels are drawn from, when the word list has any.
pub fn label_words() -> (r: Option<Vec<String>>)
    ensures
        r is Some <==> english_words(LABEL_WORD_LEN as nat).len() > 0,
        r matches Some(v) ==> texts(v@) == english_words(LABEL_WORD_LEN as nat) && v@.len() > 0 && forall|i: int|
            0 <= i < v@.len() ==> (#[trigger] v@[i])@.len() == LABEL_WORD_LEN,
{
    english_words_of_len(LABEL_WORD_LEN)
}

/// The label picked from `words` for an address hash.
pub fn label_for_hash(words: &Vec<String>, hash: u64) -> (r: Option<String>)
    ensures
        text_of(r) == label_of(texts(words@), hash),
        words@.len() > 0 ==> 0 <= seeded_index(hash, words@.len()) < words@.len(),
        r is Some <==> words@.len() > 0,
        r matches Some(w) ==> texts(words@).contains(w@),
{
    let r = choose_seeded(words, hash);
    proof {
        if words@.len() > 0 {
            let i = seeded_index(hash, words@.len());
            assert(texts(words@)[i] == words@[i]@);
            assert(texts(words@).len() == words@.len());
        }
    }
    r
}

/// The label of a peer: the same address always gives the same label.
pub fn label_for(words: &Vec<String>, address: &str) -> (r: Option<String>)
    ensures
        text_of(r) == label_of(texts(words@), address_hash(address@)),
        words@.len() > 0 ==> 0 <= seeded_index(address_hash(address@), words@.len()) < words@.len(),
        r is Some <==> words@.len() > 0,
        r matches Some(w) ==> texts(words@).contains(w@),
{
    let h = hash_address(address);
    label_for_hash(words, h)
}

/// The address a peer is known by: the forwarded-for header when the
/// request carries one, else the peer's IP address, else the empty text.
pub fn peer_address(forwarded: Option<String>, peer_ip: Option<String>) -> (r: String)
    ensures
        r@ == (match forwarded {
            Some(f) => f@,
            None => match peer_ip {
                Some(p) => p@,
                None => Seq::<char>::empty(),
            },
        }),
{
    match forwarded {
        Some(f) => f,
        None => match peer_ip {
            Some(p) => p,
            None => String::new(),
        },
    }
}

} // verus!
