use vstd::prelude::*;
use crossbeam_skiplist::SkipMap;

verus! {

/// Where a record lies: its segment's generation, its offset and its length.
pub type Locator = (u64, usize, usize);

#[verifier::external_type_specification]
#[verifier::external_body]
#[verifier::reject_recursive_types(K)]
#[verifier::reject_recursive_types(V)]
pub struct ExSkipMap<K, V>(SkipMap<K, V>);

/// The entries that an index holds.
pub uninterp spec fn index_entries(m: SkipMap<String, (u64, usize, usize)>) -> Map<
    Seq<char>,
    (u64, usize, usize),
>;

/// The order of `String` keys: lexicographic over bytes, which for UTF-8 is
/// lexicographic over characters.
pub open spec fn key_lt(a: Seq<char>, b: Seq<char>) -> bool
    decreases a.len(),
{
    if a.len() == 0 {
        b.len() > 0
    } else if b.len() == 0 {
        false
    } else if a[0] != b[0] {
        (a[0] as u32) < (b[0] as u32)
    } else {
        key_lt(a.drop_first(), b.drop_first())
    }
}

pub open spec fn key_le(a: Seq<char>, b: Seq<char>) -> bool {
    a == b || key_lt(a, b)
}

pub proof fn lemma_key_lt_irreflexive(a: Seq<char>)
    ensures
        !key_lt(a, a),
    decreases a.len(),
{
    if a.len() > 0 {
        lemma_key_lt_irreflexive(a.drop_first());
    }
}

/// Entries listed in strictly ascending key order.
pub open spec fn ascending(es: Seq<(String, Locator)>) -> bool {
    forall|i: int, j: int| 0 <= i < j < es.len() ==> key_lt(#[trigger] es[i].0@, #[trigger] es[j].0@)
}

/// Relies on `SkipMap::new`: a new map is empty.
#[verifier::external_body]
pub fn index_new() -> (r: SkipMap<String, Locator>)
    ensures
        index_entries(r).is_empty(),
{
    SkipMap::new()
}

/// Relies on `SkipMap::get`: the entry of the key, if any.
#[verifier::external_body]
pub fn index_get(m: &SkipMap<String, Locator>, k: &String) -> (r: Option<Locator>)
    ensures
        match r {
            Some(l) => index_entries(*m).contains_key(k@) && index_entries(*m)[k@] == l,
            None => !index_entries(*m).contains_key(k@),
        },
{
    m.get(k).map(|e| *e.value())
}

/// Relies on `SkipMap::insert`: the key now maps to the locator, replacing any
/// earlier entry.
#[verifier::external_body]
pub fn index_insert(m: &mut SkipMap<String, Locator>, k: String, l: Locator)
    ensures
        index_entries(*final(m)) == index_entries(*old(m)).insert(k@, l),
{
    m.insert(k, l);
}

/// Relies on `SkipMap::remove`: the key's entry is taken out and returned.
#[verifier::external_body]
pub fn index_remove(m: &mut SkipMap<String, Locator>, k: &String) -> (r: Option<Locator>)
    ensures
        index_entries(*final(m)) == index_entries(*old(m)).remove(k@),
        match r {
            Some(l) => index_entries(*old(m)).contains_key(k@) && index_entries(*old(m))[k@]
                == l,
            None => !index_entries(*old(m)).contains_key(k@),
        },
{
    m.remove(k).map(|e| *e.value())
}

/// Relies on `SkipMap::iter`: every entry, in ascending key order.
#[verifier::external_body]
pub fn index_all(m: &SkipMap<String, Locator>) -> (r: Vec<(String, Locator)>)
    ensures
        ascending(r@),
        forall|i: int|
            0 <= i < r@.len() ==> index_entries(*m).contains_key(#[trigger] r@[i].0@)
                && index_entries(*m)[r@[i].0@] == r@[i].1,
        forall|k: Seq<char>|
            #[trigger] index_entries(*m).contains_key(k) ==> exists|i: int|
                0 <= i < r@.len() && r@[i].0@ == k,
{
    m.iter().map(|e| (e.key().clone(), *e.value())).collect()
}

/// Relies on `SkipMap::range` over `start..=end`: the entries whose keys lie
/// between the bounds, both included, in ascending key order.
#[verifier::external_body]
pub fn index_range(m: &SkipMap<String, Locator>, start: &String, end: &String) -> (r: Vec<
    (String, Locator),
>)
    ensures
        ascending(r@),
        forall|i: int|
            0 <= i < r@.len() ==> index_entries(*m).contains_key(#[trigger] r@[i].0@)
                && index_entries(*m)[r@[i].0@] == r@[i].1 && key_le(start@, r@[i].0@) && key_le(
                r@[i].0@,
                end@,
            ),
        forall|k: Seq<char>|
            #[trigger] index_entries(*m).contains_key(k) && key_le(start@, k) && key_le(k, end@)
                ==> exists|i: int| 0 <= i < r@.len() && r@[i].0@ == k,
{
    m.range(start.clone()..=end.clone()).map(|e| (e.key().clone(), *e.value())).collect()
}

} // verus!
