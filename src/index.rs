use vstd::prelude::*;
use crossbeam_skiplist::SkipMap;
use vstd::utf8::encode_utf8;

verus! {

/// Where the latest `Put` record of a key lies: its segment and byte range.
#[derive(Debug, Clone, Copy, PartialEq, Eq, Structural)]
pub struct CommandPos {
    /// The generation of the segment that holds the record.
    pub gen: u64,
    /// The offset of the record's first byte in that segment.
    pub position: u64,
    /// The number of bytes of the record.
    pub length: u64,
}

#[verifier::external_type_specification]
#[verifier::external_body]
#[verifier::reject_recursive_types(K)]
#[verifier::reject_recursive_types(V)]
pub struct ExSkipMap<K, V>(SkipMap<K, V>);

/// The entries of a skip map of the index, keyed by the characters of each key.
pub uninterp spec fn index_entries(m: SkipMap<String, CommandPos>) -> Map<Seq<char>, CommandPos>;

/// Relies on `SkipMap::new`: a new map holds no entry.
#[verifier::external_body]
pub(crate) fn index_new() -> (r: SkipMap<String, CommandPos>)
    ensures
        index_entries(r).dom() == Set::<Seq<char>>::empty(),
{
    SkipMap::new()
}

/// Relies on `SkipMap::get`: the entry stored under an equal key, if any.
#[verifier::external_body]
pub(crate) fn index_get(m: &SkipMap<String, CommandPos>, key: &String) -> (r: Option<CommandPos>)
    ensures
        r is Some <==> index_entries(*m).contains_key(key@),
        r matches Some(p) ==> p == index_entries(*m)[key@],
{
    m.get(key).map(|e| *e.value())
}

/// Relies on `SkipMap::insert`: the key now maps to the value, replacing any
/// earlier entry.
#[verifier::external_body]
pub(crate) fn index_insert(m: &mut SkipMap<String, CommandPos>, key: String, pos: CommandPos)
    ensures
        index_entries(*final(m)) == index_entries(*old(m)).insert(key@, pos),
{
    m.insert(key, pos);
}

/// Relies on `SkipMap::remove`: the entry of the key leaves the map and is
/// handed back.
#[verifier::external_body]
pub(crate) fn index_remove(m: &mut SkipMap<String, CommandPos>, key: &String) -> (r: Option<CommandPos>)
    ensures
        index_entries(*final(m)) == index_entries(*old(m)).remove(key@),
        r is Some <==> index_entries(*old(m)).contains_key(key@),
        r matches Some(p) ==> p == index_entries(*old(m))[key@],
{
    m.remove(key).map(|e| *e.value())
}

/// `a` orders before `b` as a `String` does: lexicographically by the
/// bytes of the UTF-8 encoding, a proper prefix first.
pub open spec fn key_less(a: Seq<char>, b: Seq<char>) -> bool {
    let x = encode_utf8(a);
    let y = encode_utf8(b);
    exists|i: int|
        0 <= i <= x.len() && i <= y.len() && #[trigger] x.subrange(0, i) == y.subrange(0, i) && ((i == x.len()
            && i < y.len()) || (i < x.len() && i < y.len() && x[i] < y[i]))
}

/// Relies on `SkipMap::iter`: every entry once, in ascending key order.
#[verifier::external_body]
pub(crate) fn index_snapshot(m: &SkipMap<String, CommandPos>) -> (r: Vec<(String, CommandPos)>)
    ensures
        forall|i: int|
            0 <= i < r@.len() ==> #[trigger] index_entries(*m).contains_key(r@[i].0@)
                && index_entries(*m)[r@[i].0@] == r@[i].1,
        forall|k: Seq<char>|
            #[trigger] index_entries(*m).contains_key(k) ==> exists|i: int|
                0 <= i < r@.len() && #[trigger] r@[i].0@ == k,
        forall|i: int, j: int|
            0 <= i < j < r@.len() ==> #[trigger] r@[i].0@ != #[trigger] r@[j].0@,
        forall|i: int, j: int|
            0 <= i < j < r@.len() ==> key_less(#[trigger] r@[i].0@, #[trigger] r@[j].0@),
{
    m.iter().map(|e| (e.key().clone(), *e.value())).collect()
}

} // verus!
