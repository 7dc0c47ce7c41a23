//! The ordered byte store of sled, as far as the cache uses it: the default
//! tree of a sled database, a map from keys to values that is walked in the
//! order of its keys. Where sled reports an error, the calls below hand on
//! its text.

use crate::order::lemma_lex_lt_asymmetric;
use crate::order::lex_lt;
use crate::order::within;
use vstd::prelude::*;

verus! {

#[verifier::external_type_specification]
#[verifier::external_body]
pub struct ExSledTree(sled::Tree);

/// What a store holds: the value under each key.
pub uninterp spec fn entries(tree: sled::Tree) -> Map<Seq<u8>, Seq<u8>>;

/// Keys and values as plain byte strings.
pub open spec fn pair_views(pairs: Seq<(Vec<u8>, Vec<u8>)>) -> Seq<(Seq<u8>, Seq<u8>)> {
    Seq::new(pairs.len(), |i: int| (pairs[i].0@, pairs[i].1@))
}

/// `found` is what a walk from `low` to `high`, both included, finds in
/// `held`: every entry with a key in that range, each once, in the order of
/// the keys.
pub open spec fn is_scan(
    held: Map<Seq<u8>, Seq<u8>>,
    low: Seq<u8>,
    high: Seq<u8>,
    found: Seq<(Seq<u8>, Seq<u8>)>,
) -> bool {
    &&& forall|i: int|
        0 <= i < found.len() ==> {
            &&& within((#[trigger] found[i]).0, low, high)
            &&& held.dom().contains(found[i].0)
            &&& held[found[i].0] == found[i].1
        }
    &&& forall|i: int, j: int|
        0 <= i < j < found.len() ==> lex_lt((#[trigger] found[i]).0, (#[trigger] found[j]).0)
    &&& forall|key: Seq<u8>|
        #[trigger] held.dom().contains(key) && within(key, low, high) ==> exists|i: int|
            0 <= i < found.len() && (#[trigger] found[i]).0 == key
}

/// Two results of one walk have the same keys at their first `upto` places.
proof fn lemma_scans_agree(
    held: Map<Seq<u8>, Seq<u8>>,
    low: Seq<u8>,
    high: Seq<u8>,
    first: Seq<(Seq<u8>, Seq<u8>)>,
    second: Seq<(Seq<u8>, Seq<u8>)>,
    upto: int,
)
    requires
        is_scan(held, low, high, first),
        is_scan(held, low, high, second),
        0 <= upto <= first.len(),
        upto <= second.len(),
    ensures
        forall|j: int| 0 <= j < upto ==> (#[trigger] first[j]).0 == second[j].0,
    decreases upto,
{
    if upto > 0 {
        let i = upto - 1;
        lemma_scans_agree(held, low, high, first, second, i);
        assert(held.dom().contains(first[i].0));
        assert(held.dom().contains(second[i].0));
        let k = choose|k: int| 0 <= k < second.len() && (#[trigger] second[k]).0 == first[i].0;
        let m = choose|m: int| 0 <= m < first.len() && (#[trigger] first[m]).0 == second[i].0;
        if k < i {
            assert(first[k].0 == second[k].0);
            lemma_lex_lt_asymmetric(first[k].0, first[i].0);
        } else if m < i {
            assert(first[m].0 == second[m].0);
            lemma_lex_lt_asymmetric(second[m].0, second[i].0);
        } else if k > i && m > i {
            assert(lex_lt(second[i].0, second[k].0));
            assert(lex_lt(first[i].0, first[m].0));
            lemma_lex_lt_asymmetric(first[i].0, second[i].0);
        }
    }
}

/// A walk has one result only: the contract of a walk leaves nothing open.
pub proof fn lemma_scan_is_unique(
    held: Map<Seq<u8>, Seq<u8>>,
    low: Seq<u8>,
    high: Seq<u8>,
    first: Seq<(Seq<u8>, Seq<u8>)>,
    second: Seq<(Seq<u8>, Seq<u8>)>,
)
    requires
        is_scan(held, low, high, first),
        is_scan(held, low, high, second),
    ensures
        first == second,
{
    if first.len() < second.len() {
        let n = first.len() as int;
        lemma_scans_agree(held, low, high, first, second, n);
        assert(held.dom().contains(second[n].0));
        let m = choose|m: int| 0 <= m < first.len() && (#[trigger] first[m]).0 == second[n].0;
        assert(first[m].0 == second[m].0);
        lemma_lex_lt_asymmetric(second[m].0, second[n].0);
    } else if second.len() < first.len() {
        let n = second.len() as int;
        lemma_scans_agree(held, low, high, first, second, n);
        assert(held.dom().contains(first[n].0));
        let m = choose|m: int| 0 <= m < second.len() && (#[trigger] second[m]).0 == first[n].0;
        assert(first[m].0 == second[m].0);
        lemma_lex_lt_asymmetric(first[m].0, first[n].0);
    } else {
        lemma_scans_agree(held, low, high, first, second, first.len() as int);
        assert forall|j: int| 0 <= j < first.len() implies first[j] == second[j] by {
            assert(first[j].0 == second[j].0);
            assert(held[first[j].0] == first[j].1);
            assert(held[second[j].0] == second[j].1);
        }
        assert(first =~= second);
    }
}

/// `sled::open`: opens the database in the directory `path` and creates it
/// where there is none; the result is its default tree. What the tree
/// holds then is what the disk held: nothing is said of it.
#[verifier::external_body]
pub(crate) fn store_open(path: &str) -> Result<sled::Tree, String> {
    match sled::open(path) {
        Ok(db) => Ok((*db).clone()),
        Err(failure) => Err(failure.to_string()),
    }
}

/// `Tree::insert` of sled: where it returns `Ok`, `key` holds
/// `value` and every other key holds what it held. The value that `key`
/// held before is dropped. Nothing is said of the store after an error.
#[verifier::external_body]
pub(crate) fn store_insert(tree: &mut sled::Tree, key: &[u8], value: Vec<u8>) -> (r: Result<
    (),
    String,
>)
    ensures
        r is Ok ==> entries(*final(tree)) == entries(*old(tree)).insert(key@, value@),
{
    tree.insert(key, value).map(|_| ()).map_err(|failure| failure.to_string())
}

/// `Tree::get` of sled: where it returns `Ok`, the value
/// that `key` holds, copied out, or `None` where the key holds none.
#[verifier::external_body]
pub(crate) fn store_get(tree: &sled::Tree, key: &[u8]) -> (r: Result<Option<Vec<u8>>, String>)
    ensures
        r matches Ok(found) ==> match found {
            Some(value) => entries(*tree).dom().contains(key@) && entries(*tree)[key@] == value@,
            None => !entries(*tree).dom().contains(key@),
        },
{
    tree.get(key).map(|found| found.map(|value| value.to_vec())).map_err(
        |failure| failure.to_string(),
    )
}

/// `Tree::range` of sled over `low..=high`, walked to its
/// end: where no step fails, the entries with a key in the range, copied
/// out, in the lexicographic order of the keys. The first step that fails
/// ends the walk with its error.
#[verifier::external_body]
pub(crate) fn store_range(tree: &sled::Tree, low: &[u8], high: &[u8]) -> (r: Result<
    Vec<(Vec<u8>, Vec<u8>)>,
    String,
>)
    ensures
        r matches Ok(found) ==> is_scan(entries(*tree), low@, high@, pair_views(found@)),
{
    tree.range(low..=high).map(
        |step|
            match step {
                Ok((key, value)) => Ok((key.to_vec(), value.to_vec())),
                Err(failure) => Err(failure.to_string()),
            },
    ).collect()
}

/// `Tree::flush` of sled: where it returns `Ok`, what was
/// written before is on disk. The store holds what it held.
#[verifier::external_body]
pub(crate) fn store_flush(tree: &sled::Tree) -> Result<(), String> {
    tree.flush().map(|_| ()).map_err(|failure| failure.to_string())
}

} // verus!
