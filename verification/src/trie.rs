use radix_trie::Trie as RadixTrie;
use radix_trie::TrieCommon;
use vstd::prelude::*;

verus! {

/// A radix trie of the `radix_trie` crate.
#[verifier::external_type_specification]
#[verifier::external_body]
#[verifier::reject_recursive_types(K)]
#[verifier::reject_recursive_types(V)]
pub struct ExRadixTrie<K, V>(RadixTrie<K, V>);

/// The entries that a radix trie of words holds: each key, by its characters, with its value.
pub uninterp spec fn radix_entries(trie: RadixTrie<&str, u32>) -> Map<Seq<char>, u32>;

/// The entries of an empty trie.
pub open spec fn no_entries() -> Map<Seq<char>, u32> {
    Map::empty()
}

/// `p` is a prefix of `s`.
pub open spec fn is_prefix(p: Seq<char>, s: Seq<char>) -> bool {
    p.len() <= s.len() && s.subrange(0, p.len() as int) == p
}

/// `k` is the longest key of `entries` that is a prefix of `key`.
pub open spec fn longest_prefix_key(entries: Map<Seq<char>, u32>, key: Seq<char>, k: Seq<char>) -> bool {
    &&& entries.contains_key(k)
    &&& is_prefix(k, key)
    &&& forall|other: Seq<char>|
        #[trigger] entries.contains_key(other) && is_prefix(other, key) ==> other.len() <= k.len()
}

/// Calls `radix_trie::Trie::new`, which creates an empty trie.
#[verifier::external_body]
fn new_radix_trie<'a>() -> (trie: RadixTrie<&'a str, u32>)
    ensures
        radix_entries(trie) == no_entries(),
{
    RadixTrie::new()
}

/// Calls `radix_trie::Trie::insert`, which stores the value under the key, in place of any value
/// stored under it before, and returns that value.
#[verifier::external_body]
fn radix_insert<'a>(trie: &mut RadixTrie<&'a str, u32>, key: &'a str, value: u32) -> (previous:
    Option<u32>)
    ensures
        radix_entries(*final(trie)) == radix_entries(*old(trie)).insert(key@, value),
        previous == (if radix_entries(*old(trie)).contains_key(key@) {
            Some(radix_entries(*old(trie))[key@])
        } else {
            None::<u32>
        }),
{
    trie.insert(key, value)
}

/// Calls `radix_trie::Trie::get`, which returns the value stored under the key, if any.
#[verifier::external_body]
fn radix_get<'a>(trie: &'a RadixTrie<&'a str, u32>, key: &str) -> (value: Option<&'a u32>)
    ensures
        match value {
            Some(v) => radix_entries(*trie).contains_key(key@) && *v == radix_entries(*trie)[key@],
            None => !radix_entries(*trie).contains_key(key@),
        },
{
    trie.get(key)
}

/// Calls `radix_trie::Trie::get_ancestor` and takes the key of the node it finds. The crate finds
/// the node with a value whose key's bytes are the longest prefix of the given key's bytes; for
/// strings, the keys whose bytes are a prefix of a string's bytes are the keys whose characters
/// are a prefix of its characters.
#[verifier::external_body]
fn radix_ancestor_key<'a>(trie: &'a RadixTrie<&'a str, u32>, key: &str) -> (found: Option<
    &'a str,
>)
    ensures
        match found {
            Some(k) => longest_prefix_key(radix_entries(*trie), key@, k@),
            None => forall|other: Seq<char>|
                #[trigger] radix_entries(*trie).contains_key(other) ==> !is_prefix(other, key@),
        },
{
    match trie.get_ancestor(key) {
        Some(sub_trie) => sub_trie.key().copied(),
        None => None,
    }
}

/// A key of a [`Trie`] together with its value.
pub struct Node<'a> {
    pub key: &'a str,
    pub value: &'a u32,
}

/// Implements a Trie, hiding the implementation details from the rest of this library.
pub struct Trie<'a> {
    root: RadixTrie<&'a str, u32>,
}

impl<'a> Trie<'a> {
    /// The entries of the trie: each key, by its characters, with its value.
    pub closed spec fn entries(&self) -> Map<Seq<char>, u32> {
        radix_entries(self.root)
    }

    /// Creates an empty Trie.
    pub fn new() -> (trie: Trie<'a>)
        ensures
            trie.entries() == Map::<Seq<char>, u32>::empty(),
    {
        Trie { root: new_radix_trie() }
    }

    /// Inserts the given value into the trie using the given key.
    pub fn insert<'b>(&mut self, key: &'b str, value: u32) where 'b: 'a
        ensures
            final(self).entries() == old(self).entries().insert(key@, value),
    {
        radix_insert(&mut self.root, key, value);
    }

    /// Gets node from the trie with the longest matching prefix.
    ///
    /// For example, if the trie contained the keys: ["ab", "abc", "abcd"], then this would return
    /// as follows:
    ///
    /// * "abd" -> return node for "ab"
    /// * "abc" -> return node for "abc"
    /// * "abcd" -> return node for "abcd"
    /// * "abcde" -> return node for "abcd"
    pub fn get_ancestor<'b>(&'a self, key: &'b str) -> (node: Option<Node<'a>>)
        ensures
            match node {
                Some(n) => longest_prefix_key(self.entries(), key@, n.key@) && *n.value
                    == self.entries()[n.key@],
                None => forall|other: Seq<char>|
                    #[trigger] self.entries().contains_key(other) ==> !is_prefix(other, key@),
            },
    {
        match radix_ancestor_key(&self.root, key) {
            None => None,
            Some(prefix_key) => match radix_get(&self.root, prefix_key) {
                Some(value) => Some(Node { key: prefix_key, value }),
                None => None,
            },
        }
    }
}

} // verus!
