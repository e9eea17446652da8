//! The prefix tree that indexes the keybinding table.
//!
//! The tree itself is the work of the `trie-rs` crate. Nothing in this file
//! is proved: each contract states what the crate's source shows of the
//! function it names, over the entries that a tree holds.

use vstd::prelude::*;

verus! {

/// The prefix tree of `trie-rs`, opaque to the verifier.
#[verifier::external_type_specification]
#[verifier::external_body]
#[verifier::reject_recursive_types(Label)]
#[verifier::reject_recursive_types(Value)]
pub struct ExTrie<Label, Value>(trie_rs::map::Trie<Label, Value>);

/// The builder of a prefix tree of `trie-rs`, opaque to the verifier.
#[verifier::external_type_specification]
#[verifier::external_body]
#[verifier::reject_recursive_types(Label)]
#[verifier::reject_recursive_types(Value)]
pub struct ExTrieBuilder<Label, Value>(trie_rs::map::TrieBuilder<Label, Value>);

/// The tree that indexes key sequences: the labels are key presses as
/// numbers, the values are places in the keybinding table.
pub type KeyTrie = trie_rs::map::Trie<u64, usize>;

/// The builder of a tree that indexes key sequences.
pub type KeyTrieBuilder = trie_rs::map::TrieBuilder<u64, usize>;

/// The entries of a tree: the value stored under each sequence of labels.
pub uninterp spec fn trie_entries(trie: KeyTrie) -> Map<Seq<u64>, usize>;

/// The entries that were pushed to a builder so far.
pub uninterp spec fn builder_entries(builder: KeyTrieBuilder) -> Map<Seq<u64>, usize>;

/// No entries at all.
pub open spec fn no_entries() -> Map<Seq<u64>, usize> {
    Map::empty()
}

/// Whether `short` is the beginning of `long` and `long` goes on after it.
pub open spec fn is_proper_prefix(short: Seq<u64>, long: Seq<u64>) -> bool {
    short.len() < long.len() && long.subrange(0, short.len() as int) == short
}

/// Whether some entry of `entries` begins with `query` and goes on after it.
pub open spec fn has_longer(entries: Map<Seq<u64>, usize>, query: Seq<u64>) -> bool {
    exists|key: Seq<u64>| entries.dom().contains(key) && is_proper_prefix(query, key)
}

/// `TrieBuilder::new`: a builder to which nothing was pushed.
#[verifier::external_body]
pub(crate) fn builder_new() -> (builder: KeyTrieBuilder)
    ensures
        builder_entries(builder) == no_entries(),
{
    trie_rs::map::TrieBuilder::new()
}

/// `TrieBuilder::push`: stores `value` under `entry`, in place of what was
/// stored there. The crate panics on an empty entry, which is left out.
#[verifier::external_body]
pub(crate) fn builder_push(builder: &mut KeyTrieBuilder, entry: &Vec<u64>, value: usize)
    requires
        entry@.len() > 0,
    ensures
        builder_entries(*final(builder)) == builder_entries(*old(builder)).insert(entry@, value),
{
    builder.push(entry, value)
}

/// `TrieBuilder::build`: the tree of the entries that were pushed.
#[verifier::external_body]
pub(crate) fn builder_build(builder: KeyTrieBuilder) -> (trie: KeyTrie)
    ensures
        trie_entries(trie) == builder_entries(builder),
{
    builder.build()
}

/// `Trie::exact_match`: the value stored under exactly `query`, if any.
#[verifier::external_body]
pub(crate) fn exact_match(trie: &KeyTrie, query: &Vec<u64>) -> (r: Option<usize>)
    ensures
        r == (if trie_entries(*trie).dom().contains(query@) {
            Some(trie_entries(*trie)[query@])
        } else {
            None
        }),
{
    trie.exact_match(query).copied()
}

/// `Trie::is_prefix`: whether some entry begins with `query` and goes on
/// after it.
#[verifier::external_body]
pub(crate) fn is_prefix(trie: &KeyTrie, query: &Vec<u64>) -> (r: bool)
    ensures
        r == has_longer(trie_entries(*trie), query@),
{
    trie.is_prefix(query)
}

} // verus!
