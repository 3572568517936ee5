use vstd::prelude::*;

use crate::compare::{same_bytes, CHUNK_SIZE};
use crate::pairs::{get_pairs, is_loc, lists_pairs, path_at, Pair};
use crate::resolve::{resolve_pairs, DuplicateMap};

verus! {

/// Whether the two files of a pair hold the same bytes, where `contents`
/// holds each directory's files, in listing order.
pub open spec fn same_content(contents: Seq<Vec<Vec<u8>>>) -> spec_fn(Pair) -> bool {
    |p: Pair| path_at(contents, p.0)@ == path_at(contents, p.1)@
}

/// Runs the resolver over `pairs` in order, comparing the files' contents
/// only for pairs that are not skipped.
pub fn resolve(pairs: &[Pair], contents: &[Vec<Vec<u8>>]) -> (r: DuplicateMap)
    requires
        forall|k: int|
            0 <= k < pairs@.len() ==> is_loc(contents@, (#[trigger] pairs@[k]).0) && is_loc(
                contents@,
                pairs@[k].1,
            ),
    ensures
        r.wf(),
        r@ == resolve_pairs(pairs@, same_content(contents@)),
{
    let ghost same = same_content(contents@);
    let mut dups = DuplicateMap::new();
    let mut k: usize = 0;
    while k < pairs.len()
        invariant
            same == same_content(contents@),
            forall|i: int|
                0 <= i < pairs@.len() ==> is_loc(contents@, (#[trigger] pairs@[i]).0) && is_loc(
                    contents@,
                    pairs@[i].1,
                ),
            k <= pairs@.len(),
            dups.wf(),
            dups@ == resolve_pairs(pairs@.take(k as int), same),
        decreases pairs@.len() - k,
    {
        let p = pairs[k];
        assert(pairs@.take(k + 1).drop_last() =~= pairs@.take(k as int));
        assert(pairs@.take(k + 1).last() == p);
        if dups.should_compare(p) {
            assert(is_loc(contents@, p.0) && is_loc(contents@, p.1));
            let same_files = same_bytes(
                contents[p.0.0][p.0.1].as_slice(),
                contents[p.1.0][p.1.1].as_slice(),
                CHUNK_SIZE,
            );
            dups.record(p, same_files);
        }
        k += 1;
    }
    assert(pairs@.take(k as int) =~= pairs@);
    dups
}

/// Finds the duplicates among files held in memory: `contents` holds each
/// directory's files, in listing order. Pairs are generated as by
/// `get_pairs`, then resolved in that order; by `lemma_listing_unique` there
/// is one listing of the pairs, so the result is fixed.
pub fn find_duplicates(contents: &[Vec<Vec<u8>>], cross: bool) -> (r: DuplicateMap)
    ensures
        r.wf(),
        exists|ps: Seq<Pair>|
            lists_pairs(contents@, cross, ps) && r@ == resolve_pairs(ps, same_content(contents@)),
{
    let pairs = get_pairs(contents, cross);
    assert forall|k: int| 0 <= k < pairs@.len() implies is_loc(contents@, (#[trigger] pairs@[k]).0)
        && is_loc(contents@, pairs@[k].1) by {
        assert(pairs@.contains(pairs@[k]));
    }
    resolve(pairs.as_slice(), contents)
}

} // verus!
