//! Insertion-ordered maps of blocks and the two-way map of block labels,
//! with the facts about them that the rest of the library builds on.
use crate::form_blocks::Block;
use crate::ir::CodeView;
use bimap::BiMap;
use indexmap::IndexMap;
use vstd::prelude::*;

verus! {

/// `indexmap::IndexMap`: a hash map that keeps its entries in the order in
/// which their keys were first inserted. Nothing is said of what is inside
/// a value of it.
#[verifier::external_type_specification]
#[verifier::external_body]
#[verifier::reject_recursive_types(K)]
#[verifier::reject_recursive_types(V)]
#[verifier::reject_recursive_types(S)]
pub struct ExIndexMap<K, V, S>(IndexMap<K, V, S>);

/// `bimap::BiHashMap`: a map between left and right values in which every
/// value stands in at most one pair. Nothing is said of what is inside a
/// value of it.
#[verifier::external_type_specification]
#[verifier::external_body]
#[verifier::reject_recursive_types(L)]
#[verifier::reject_recursive_types(R)]
#[verifier::reject_recursive_types(LS)]
#[verifier::reject_recursive_types(RS)]
pub struct ExBiHashMap<L, R, LS, RS>(bimap::BiHashMap<L, R, LS, RS>);

/// The entries of a map from block names to blocks, in the map's order:
/// each name with the model of its block.
pub uninterp spec fn named_blocks(m: IndexMap<String, Block>) -> Seq<(Seq<char>, Seq<CodeView>)>;

/// The entries of a map from block numbers to blocks, in the map's order:
/// each number with the model of its block.
pub uninterp spec fn numbered_blocks(m: IndexMap<i32, Block>) -> Seq<(i32, Seq<CodeView>)>;

/// The pairs of a two-way map between block numbers and labels, as a map
/// from each number to its label.
pub uninterp spec fn label_pairs(m: BiMap<i32, String>) -> Map<i32, Seq<char>>;

/// Whether some entry has the key.
pub open spec fn has_key<K, V>(s: Seq<(K, V)>, k: K) -> bool {
    exists|i: int| 0 <= i < s.len() && (#[trigger] s[i]).0 == k
}

/// Whether no key occurs twice.
pub open spec fn distinct_keys<K, V>(s: Seq<(K, V)>) -> bool {
    forall|i: int, j: int|
        0 <= i < s.len() && 0 <= j < s.len() && i != j ==> (#[trigger] s[i]).0 != (#[trigger] s[j]).0
}

/// The keys, in order.
pub open spec fn keys<K, V>(s: Seq<(K, V)>) -> Seq<K> {
    s.map_values(|e: (K, V)| e.0)
}

/// The entries after an insertion: the value of an entry with that key is
/// replaced where it stands; without such an entry, the pair is added last.
pub open spec fn upsert<K, V>(s: Seq<(K, V)>, k: K, v: V) -> Seq<(K, V)> {
    if has_key(s, k) {
        Seq::new(
            s.len(),
            |i: int|
                if s[i].0 == k {
                    (k, v)
                } else {
                    s[i]
                },
        )
    } else {
        s.push((k, v))
    }
}

/// Insertion keeps the keys distinct.
pub proof fn lemma_upsert_distinct<K, V>(s: Seq<(K, V)>, k: K, v: V)
    requires
        distinct_keys(s),
    ensures
        distinct_keys(upsert(s, k, v)),
        has_key(s, k) ==> keys(upsert(s, k, v)) == keys(s),
        !has_key(s, k) ==> keys(upsert(s, k, v)) == keys(s).push(k),
{
    let t = upsert(s, k, v);
    if has_key(s, k) {
        assert(keys(t) =~= keys(s));
        assert forall|i: int, j: int|
            0 <= i < t.len() && 0 <= j < t.len() && i != j implies (#[trigger] t[i]).0 != (
        #[trigger] t[j]).0 by {
            assert(t[i].0 == s[i].0);
            assert(t[j].0 == s[j].0);
        }
    } else {
        assert(keys(t) =~= keys(s).push(k));
        assert forall|i: int, j: int|
            0 <= i < t.len() && 0 <= j < t.len() && i != j implies (#[trigger] t[i]).0 != (
        #[trigger] t[j]).0 by {
            if i < s.len() {
                assert(t[i] == s[i]);
            }
            if j < s.len() {
                assert(t[j] == s[j]);
            }
        }
    }
}

/// `IndexMap::new`: the new map has no entry.
#[verifier::external_body]
pub(crate) fn named_new() -> (m: IndexMap<String, Block>)
    ensures
        named_blocks(m) == Seq::<(Seq<char>, Seq<CodeView>)>::empty(),
{
    IndexMap::new()
}

/// `IndexMap::insert`: an entry with an equal key keeps its place and gets
/// the new block; otherwise the pair becomes the last entry.
#[verifier::external_body]
pub(crate) fn named_insert(m: &mut IndexMap<String, Block>, name: String, block: Block)
    ensures
        named_blocks(*final(m)) == upsert(named_blocks(*old(m)), name@, block@),
{
    m.insert(name, block);
}

/// `IndexMap::len`: the number of entries.
#[verifier::external_body]
pub(crate) fn named_len(m: &IndexMap<String, Block>) -> (n: usize)
    ensures
        n == named_blocks(*m).len(),
{
    m.len()
}

/// `IndexMap::get_index`: the name and the block of the entry at a
/// position below the length.
#[verifier::external_body]
pub(crate) fn named_get_index(m: &IndexMap<String, Block>, i: usize) -> (e: (&String, &Block))
    requires
        i < named_blocks(*m).len(),
    ensures
        e.0@ == named_blocks(*m)[i as int].0,
        e.1@ == named_blocks(*m)[i as int].1,
{
    m.get_index(i).unwrap()
}

/// `IndexMap::into_iter`: hands out the entries in the map's order.
#[verifier::external_body]
pub(crate) fn named_into_vec(m: IndexMap<String, Block>) -> (v: Vec<(String, Block)>)
    ensures
        v.len() == named_blocks(m).len(),
        forall|i: int|
            0 <= i < v.len() ==> (#[trigger] v[i]).0@ == named_blocks(m)[i].0 && v[i].1@
                == named_blocks(m)[i].1,
{
    m.into_iter().collect()
}

/// `IndexMap::new`: the new map has no entry.
#[verifier::external_body]
pub(crate) fn numbered_new() -> (m: IndexMap<i32, Block>)
    ensures
        numbered_blocks(m) == Seq::<(i32, Seq<CodeView>)>::empty(),
{
    IndexMap::new()
}

/// `IndexMap::insert`: an entry with an equal key keeps its place and gets
/// the new block; otherwise the pair becomes the last entry.
#[verifier::external_body]
pub(crate) fn numbered_insert(m: &mut IndexMap<i32, Block>, num: i32, block: Block)
    ensures
        numbered_blocks(*final(m)) == upsert(numbered_blocks(*old(m)), num, block@),
{
    m.insert(num, block);
}

/// `IndexMap::len`: the number of entries.
#[verifier::external_body]
pub(crate) fn numbered_len(m: &IndexMap<i32, Block>) -> (n: usize)
    ensures
        n == numbered_blocks(*m).len(),
{
    m.len()
}

/// `IndexMap::get_index`: the number and the block of the entry at a
/// position below the length.
#[verifier::external_body]
pub(crate) fn numbered_get_index(m: &IndexMap<i32, Block>, i: usize) -> (e: (i32, &Block))
    requires
        i < numbered_blocks(*m).len(),
    ensures
        e.0 == numbered_blocks(*m)[i as int].0,
        e.1@ == numbered_blocks(*m)[i as int].1,
{
    let (num, block) = m.get_index(i).unwrap();
    (*num, block)
}

/// `IndexMap::get`: the block of the entry with the given number, if there
/// is one.
#[verifier::external_body]
pub(crate) fn numbered_get<'a>(m: &'a IndexMap<i32, Block>, num: i32) -> (r: Option<&'a Block>)
    ensures
        r is Some <==> has_key(numbered_blocks(*m), num),
        r is Some ==> exists|i: int|
            0 <= i < numbered_blocks(*m).len() && (#[trigger] numbered_blocks(*m)[i]).0 == num
                && numbered_blocks(*m)[i].1 == r->0@,
{
    m.get(&num)
}

/// `IndexMap::into_iter`: hands out the entries in the map's order.
#[verifier::external_body]
pub(crate) fn numbered_into_vec(m: IndexMap<i32, Block>) -> (v: Vec<(i32, Block)>)
    ensures
        v.len() == numbered_blocks(m).len(),
        forall|i: int|
            0 <= i < v.len() ==> (#[trigger] v[i]).0 == numbered_blocks(m)[i].0 && v[i].1@
                == numbered_blocks(m)[i].1,
{
    m.into_iter().collect()
}

/// The pairs after an insertion into a two-way map: pairs that hold the new
/// left or the new right value leave, and the new pair enters.
pub open spec fn pair_inserted(pairs: Map<i32, Seq<char>>, num: i32, label: Seq<char>) -> Map<
    i32,
    Seq<char>,
> {
    Map::new(
        |k: i32| k == num || (pairs.contains_key(k) && pairs[k] != label),
        |k: i32|
            if k == num {
                label
            } else {
                pairs[k]
            },
    )
}

/// The pairs of a map that holds none.
pub open spec fn no_pairs() -> Map<i32, Seq<char>> {
    Map::empty()
}

/// Whether no label belongs to two numbers.
pub open spec fn one_to_one(pairs: Map<i32, Seq<char>>) -> bool {
    forall|a: i32, b: i32|
        pairs.contains_key(a) && pairs.contains_key(b) && a != b ==> #[trigger] pairs[a]
            != #[trigger] pairs[b]
}

/// `BiMap::new`: the new map has no pair.
#[verifier::external_body]
pub(crate) fn labels_new() -> (m: BiMap<i32, String>)
    ensures
        label_pairs(m) == no_pairs(),
{
    BiMap::new()
}

/// `BiMap::len`: the number of pairs.
#[verifier::external_body]
pub(crate) fn labels_len(m: &BiMap<i32, String>) -> (n: usize)
    ensures
        n == label_pairs(*m).dom().len(),
{
    m.len()
}

/// `BiMap::insert`: removes the pairs that hold the given number or the
/// given label, then adds the pair.
#[verifier::external_body]
pub(crate) fn labels_insert(m: &mut BiMap<i32, String>, num: i32, label: String)
    ensures
        label_pairs(*final(m)) == pair_inserted(label_pairs(*old(m)), num, label@),
{
    m.insert(num, label);
}

/// `BiMap::get_by_left`: the label paired with a number, if there is one.
#[verifier::external_body]
pub(crate) fn labels_get_by_left<'a>(m: &'a BiMap<i32, String>, num: i32) -> (r: Option<
    &'a String,
>)
    ensures
        r is Some <==> label_pairs(*m).contains_key(num),
        r is Some ==> r->0@ == label_pairs(*m)[num],
{
    m.get_by_left(&num)
}

/// `BiMap::get_by_right`: a number paired with the label, if there is one.
#[verifier::external_body]
pub(crate) fn labels_get_by_right(m: &BiMap<i32, String>, label: &String) -> (r: Option<i32>)
    ensures
        r is Some ==> label_pairs(*m).contains_key(r->0) && label_pairs(*m)[r->0] == label@,
        r is None ==> forall|k: i32|
            label_pairs(*m).contains_key(k) ==> #[trigger] label_pairs(*m)[k] != label@,
{
    m.get_by_right(label).copied()
}

} // verus!
