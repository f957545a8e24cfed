use vstd::prelude::*;
use indexmap::IndexMap;
use crate::value::{Token, TokenModel};

verus! {

#[verifier::external_type_specification]
#[verifier::external_body]
#[verifier::reject_recursive_types(K)]
#[verifier::reject_recursive_types(V)]
#[verifier::reject_recursive_types(S)]
pub struct ExIndexMap<K, V, S>(IndexMap<K, V, S>);

/// An ordered map from dotted token paths to tokens; keys are unique and
/// insertion order is kept.
pub type TokenSet = IndexMap<String, Token>;

/// What a token set holds, in order: each path with the model of its token.
pub uninterp spec fn token_entries(m: IndexMap<String, Token>) -> Seq<(Seq<char>, TokenModel)>;

/// What a string map holds, in order: each key with its value.
pub uninterp spec fn string_entries(m: IndexMap<String, String>) -> Seq<(Seq<char>, Seq<char>)>;

/// The position of the first entry whose key is `k`, if any.
pub open spec fn index_of<V>(e: Seq<(Seq<char>, V)>, k: Seq<char>) -> Option<int>
    decreases e.len(),
{
    if e.len() == 0 {
        None
    } else {
        match index_of(e.drop_last(), k) {
            Some(i) => Some(i),
            None => if e.last().0 == k {
                Some(e.len() - 1)
            } else {
                None
            },
        }
    }
}

pub open spec fn has_key<V>(e: Seq<(Seq<char>, V)>, k: Seq<char>) -> bool {
    index_of(e, k) is Some
}

/// The value stored under `k`; meaningful where `has_key(e, k)`.
pub open spec fn value_at<V>(e: Seq<(Seq<char>, V)>, k: Seq<char>) -> V {
    e[index_of(e, k)->0].1
}

/// The entries after inserting `(k, v)`: an existing key keeps its place and
/// takes the new value; a new key goes last.
pub open spec fn inserted<V>(e: Seq<(Seq<char>, V)>, k: Seq<char>, v: V) -> Seq<(Seq<char>, V)> {
    match index_of(e, k) {
        Some(i) => e.update(i, (k, v)),
        None => e.push((k, v)),
    }
}

/// No key occurs twice.
pub open spec fn keys_unique<V>(e: Seq<(Seq<char>, V)>) -> bool {
    forall|i: int, j: int| 0 <= i < j < e.len() ==> e[i].0 != e[j].0
}

/// Relies on `IndexMap::new`: the map is empty.
#[verifier::external_body]
pub(crate) fn new_token_set() -> (r: TokenSet)
    ensures
        token_entries(r) == Seq::<(Seq<char>, TokenModel)>::empty(),
{
    IndexMap::new()
}

/// Relies on `IndexMap::len`: the number of entries.
#[verifier::external_body]
pub(crate) fn token_set_len(m: &TokenSet) -> (r: usize)
    ensures
        r == token_entries(*m).len(),
{
    m.len()
}

/// Relies on `IndexMap::get_index`: the entry at a position, in insertion order.
#[verifier::external_body]
pub(crate) fn token_set_entry(m: &TokenSet, i: usize) -> (r: (&String, &Token))
    requires
        i < token_entries(*m).len(),
    ensures
        r.0@ == token_entries(*m)[i as int].0,
        r.1@ == token_entries(*m)[i as int].1,
{
    m.get_index(i).unwrap()
}

/// Relies on `IndexMap::get`: the token stored under a key.
#[verifier::external_body]
pub(crate) fn token_set_get<'a>(m: &'a TokenSet, k: &str) -> (r: Option<&'a Token>)
    ensures
        match r {
            Some(t) => has_key(token_entries(*m), k@) && t@ == value_at(token_entries(*m), k@),
            None => !has_key(token_entries(*m), k@),
        },
{
    m.get(k)
}

/// Relies on `IndexMap::contains_key`.
#[verifier::external_body]
pub(crate) fn token_set_contains(m: &TokenSet, k: &str) -> (r: bool)
    ensures
        r == has_key(token_entries(*m), k@),
{
    m.contains_key(k)
}

/// Relies on `IndexMap::insert`: an existing key keeps its position and takes
/// the new token; a new key is appended.
#[verifier::external_body]
pub(crate) fn token_set_insert(m: &mut TokenSet, k: String, t: Token)
    ensures
        token_entries(*final(m)) == inserted(token_entries(*old(m)), k@, t@),
{
    m.insert(k, t);
}

/// Relies on `IndexMap::new`: the map is empty.
#[verifier::external_body]
pub(crate) fn new_string_map() -> (r: IndexMap<String, String>)
    ensures
        string_entries(r) == Seq::<(Seq<char>, Seq<char>)>::empty(),
{
    IndexMap::new()
}

/// Relies on `IndexMap::insert`: an existing key keeps its position and takes
/// the new value; a new key is appended.
#[verifier::external_body]
pub(crate) fn string_map_insert(m: &mut IndexMap<String, String>, k: String, v: String)
    ensures
        string_entries(*final(m)) == inserted(string_entries(*old(m)), k@, v@),
{
    m.insert(k, v);
}

} // verus!
