use crate::terms::{lex_lt, strictly_ascending};
use fst::IntoStreamer;
use vstd::prelude::*;
use vstd::utf8::{decode_utf8, valid_utf8};

verus! {

#[verifier::external_type_specification]
#[verifier::external_body]
pub struct ExFstSet(fst::Set);

#[verifier::external_type_specification]
#[verifier::external_body]
#[verifier::reject_recursive_types(W)]
pub struct ExFstSetBuilder<W>(fst::SetBuilder<W>);

/// The terms that an ordered term set holds, in its order.
pub uninterp spec fn set_terms(s: fst::Set) -> Seq<Seq<u8>>;

/// Bytes taken by an ordered term set's encoding.
pub uninterp spec fn set_size(s: fst::Set) -> usize;

/// The terms decoded from the encoding of an ordered term set.
pub uninterp spec fn decoded_terms(bytes: Seq<u8>) -> Seq<Seq<u8>>;

/// The set was read from an encoding that a set builder sealed, so that
/// its nodes can be walked. A set read from other bytes passes only fst's
/// header check: its count may be wrong and a walk of it may panic.
pub uninterp spec fn readable(s: fst::Set) -> bool;

/// The bytes are an encoding that a set builder sealed.
pub uninterp spec fn sealed(bytes: Seq<u8>) -> bool;

/// The terms inserted so far into an in-memory set builder, in order.
pub uninterp spec fn built_terms(b: fst::SetBuilder<Vec<u8>>) -> Seq<Seq<u8>>;

/// Bytes written so far by an in-memory set builder.
pub uninterp spec fn built_size(b: fst::SetBuilder<Vec<u8>>) -> usize;

/// The text of a valid UTF-8 byte string, or `None`.
pub open spec fn utf8_text(b: Seq<u8>) -> Option<Seq<char>> {
    if valid_utf8(b) {
        Some(decode_utf8(b))
    } else {
        None
    }
}

/// What a search of an ordered term set by a pattern finds, in the set's
/// order; `None` where the pattern does not compile.
pub uninterp spec fn regex_search(s: fst::Set, pattern: Seq<char>) -> Option<Seq<Seq<u8>>>;

/// What a search of an ordered term set for terms within an edit distance
/// of a word finds, in the set's order; `None` where the automaton cannot be
/// built.
pub uninterp spec fn fuzzy_search(s: fst::Set, word: Seq<char>, distance: u32) -> Option<
    Seq<Seq<u8>>,
>;

/// The characters that have a meaning in a pattern.
pub open spec fn is_meta(c: char) -> bool {
    c == '\\' || c == '.' || c == '+' || c == '*' || c == '?' || c == '(' || c == ')' || c
        == '|' || c == '[' || c == ']' || c == '{' || c == '}' || c == '^' || c == '$' || c
        == '#' || c == '&' || c == '-' || c == '~'
}

/// The escaped form of a term, matching it literally in a pattern: a
/// backslash before each character that has a meaning there.
pub open spec fn escaped(s: Seq<char>) -> Seq<char>
    decreases s.len(),
{
    if s.len() == 0 {
        Seq::empty()
    } else if is_meta(s.last()) {
        escaped(s.drop_last()).push('\\').push(s.last())
    } else {
        escaped(s.drop_last()).push(s.last())
    }
}

/// Relies on fst's `Set::len`: the number of terms in the set.
#[verifier::external_body]
pub(crate) fn graph_len(g: &fst::Set) -> (r: usize)
    requires
        readable(*g),
    ensures
        r == set_terms(*g).len(),
{
    g.len()
}

/// Relies on fst's `Fst::size` (through `Set::as_fst`): the encoding's size.
#[verifier::external_body]
pub(crate) fn graph_size(g: &fst::Set) -> (r: usize)
    ensures
        r == set_size(*g),
{
    g.as_fst().size()
}

/// Relies on fst's `Set::contains`: membership of a term.
#[verifier::external_body]
pub(crate) fn graph_contains(g: &fst::Set, k: &[u8]) -> (r: bool)
    requires
        readable(*g),
    ensures
        r == set_terms(*g).contains(k@),
{
    g.contains(k)
}

/// Relies on fst's `Set::stream` (read out by `Stream::into_bytes`): every
/// term, in strictly ascending byte order.
#[verifier::external_body]
pub(crate) fn graph_stream(g: &fst::Set) -> (r: Vec<Vec<u8>>)
    requires
        readable(*g),
    ensures
        r.deep_view() == set_terms(*g),
        strictly_ascending(r.deep_view()),
{
    g.stream().into_bytes()
}

/// Relies on fst's `Set::from_bytes`: a set read from an encoding holds the
/// terms that the encoding holds, and keeps the bytes as its data (its size
/// is theirs); an encoding that a builder sealed has a valid header, is
/// always read, and gives a set whose nodes can be walked.
#[verifier::external_body]
pub(crate) fn graph_from_bytes(bytes: Vec<u8>) -> (r: Option<fst::Set>)
    ensures
        r matches Some(s) ==> set_terms(s) == decoded_terms(bytes@) && set_size(s)
            == bytes@.len(),
        sealed(bytes@) ==> r is Some,
        r matches Some(s) ==> (sealed(bytes@) ==> readable(s)),
{
    fst::Set::from_bytes(bytes).ok()
}

/// Relies on fst-regex's `Regex::new` and fst's `Set::search`: the terms
/// that the pattern matches, a part of the set's terms in its order.
#[verifier::external_body]
pub(crate) fn graph_search_regex(g: &fst::Set, pattern: &str) -> (r: Option<Vec<Vec<u8>>>)
    requires
        readable(*g),
    ensures
        r is Some <==> regex_search(*g, pattern@) is Some,
        r matches Some(v) ==> v.deep_view() == regex_search(*g, pattern@).unwrap(),
        r matches Some(v) ==> (forall|i: int|
            0 <= i < v.len() ==> set_terms(*g).contains(#[trigger] v.deep_view()[i])),
        r matches Some(v) ==> strictly_ascending(v.deep_view()),
{
    match fst_regex::Regex::new(pattern) {
        Ok(re) => Some(g.search(re).into_stream().into_bytes()),
        Err(_) => None,
    }
}

/// Relies on fst-levenshtein's `Levenshtein::new` and fst's `Set::search`:
/// the terms within the edit distance, a part of the set's terms in its
/// order.
#[verifier::external_body]
pub(crate) fn graph_search_fuzzy(g: &fst::Set, word: &str, distance: u32) -> (r: Option<
    Vec<Vec<u8>>,
>)
    requires
        readable(*g),
    ensures
        r is Some <==> fuzzy_search(*g, word@, distance) is Some,
        r matches Some(v) ==> v.deep_view() == fuzzy_search(*g, word@, distance).unwrap(),
        r matches Some(v) ==> (forall|i: int|
            0 <= i < v.len() ==> set_terms(*g).contains(#[trigger] v.deep_view()[i])),
        r matches Some(v) ==> strictly_ascending(v.deep_view()),
{
    match fst_levenshtein::Levenshtein::new(word, distance) {
        Ok(lev) => Some(g.search(lev).into_stream().into_bytes()),
        Err(_) => None,
    }
}

/// Relies on fst's `SetBuilder::memory`: a builder with nothing inserted.
#[verifier::external_body]
pub(crate) fn builder_new() -> (r: fst::SetBuilder<Vec<u8>>)
    ensures
        built_terms(r) == Seq::<Seq<u8>>::empty(),
{
    fst::SetBuilder::memory()
}

/// Relies on fst's `SetBuilder::insert` (through `Builder::add`): a term
/// above the last one is appended (an in-memory writer does not fail); the
/// last term again is accepted and changes nothing; a term below it is
/// refused and the builder is left as it was.
#[verifier::external_body]
pub(crate) fn builder_insert(b: &mut fst::SetBuilder<Vec<u8>>, k: &[u8]) -> (r: bool)
    ensures
        r == (built_terms(*old(b)).len() == 0 || !lex_lt(k@, built_terms(*old(b)).last())),
        built_terms(*final(b)) == (if r && (built_terms(*old(b)).len() == 0 || lex_lt(
            built_terms(*old(b)).last(),
            k@,
        )) {
            built_terms(*old(b)).push(k@)
        } else {
            built_terms(*old(b))
        }),
{
    b.insert(k).is_ok()
}

/// Relies on fst's `SetBuilder::bytes_written` (a byte count, which fits a
/// `usize` since the bytes are held in memory).
#[verifier::external_body]
pub(crate) fn builder_size(b: &fst::SetBuilder<Vec<u8>>) -> (r: usize)
    ensures
        r == built_size(*b),
{
    b.bytes_written() as usize
}

/// Relies on fst's `SetBuilder::into_inner`: the sealed encoding of the
/// inserted terms. It fails only where its writer fails, and an in-memory
/// writer does not. With nothing inserted it holds the 16-byte header, the
/// 3-byte empty root node and the 16-byte footer.
#[verifier::external_body]
pub(crate) fn builder_finish(b: fst::SetBuilder<Vec<u8>>) -> (r: Option<Vec<u8>>)
    ensures
        r is Some,
        r matches Some(v) ==> decoded_terms(v@) == built_terms(b) && sealed(v@),
        r matches Some(v) ==> (built_terms(b).len() == 0 ==> v@.len() == 35),
{
    b.into_inner().ok()
}

/// Relies on `std::str::from_utf8`: it succeeds exactly on valid UTF-8,
/// and the string holds the characters those bytes encode.
#[verifier::external_body]
pub(crate) fn utf8_string(b: &[u8]) -> (r: Option<String>)
    ensures
        r matches Some(s) ==> utf8_text(b@) == Some(s@),
        r is None ==> utf8_text(b@) is None,
{
    match std::str::from_utf8(b) {
        Ok(s) => Some(s.to_string()),
        Err(_) => None,
    }
}

/// Relies on regex-syntax's `escape`: a backslash before each meta
/// character (`is_meta_character`), the other characters as they are.
#[verifier::external_body]
pub(crate) fn regex_escape(s: &str) -> (r: String)
    ensures
        r@ == escaped(s@),
{
    regex_syntax::escape(s)
}

} // verus!
