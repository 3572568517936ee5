use vstd::prelude::*;

use crate::pairs::{Loc, Pair};

verus! {

/// What a list of (duplicate, original) entries maps each duplicate to; a
/// later entry for the same key wins.
pub open spec fn entries_map(s: Seq<(Loc, Loc)>) -> Map<Loc, Loc>
    decreases s.len(),
{
    if s.len() == 0 {
        Map::empty()
    } else {
        entries_map(s.drop_last()).insert(s.last().0, s.last().1)
    }
}

pub open spec fn keys_distinct(s: Seq<(Loc, Loc)>) -> bool {
    forall|i: int, j: int| 0 <= i < j < s.len() ==> (#[trigger] s[i]).0 != (#[trigger] s[j]).0
}

/// One step of the resolver: a pair with a file already classified as a
/// duplicate is skipped; otherwise, if the two files are the same, the second
/// becomes a duplicate of the first.
pub open spec fn resolve_step(m: Map<Loc, Loc>, p: Pair, same: bool) -> Map<Loc, Loc> {
    if !m.contains_key(p.0) && !m.contains_key(p.1) && same {
        m.insert(p.1, p.0)
    } else {
        m
    }
}

/// The map after the pairs `ps` in order, starting from `m`, where `same`
/// tells whether the two files of a pair are identical.
pub open spec fn resolve_from(m: Map<Loc, Loc>, ps: Seq<Pair>, same: spec_fn(Pair) -> bool) -> Map<Loc, Loc>
    decreases ps.len(),
{
    if ps.len() == 0 {
        m
    } else {
        resolve_step(resolve_from(m, ps.drop_last(), same), ps.last(), same(ps.last()))
    }
}

/// The duplicate map that the resolver builds from the pairs `ps`.
pub open spec fn resolve_pairs(ps: Seq<Pair>, same: spec_fn(Pair) -> bool) -> Map<Loc, Loc> {
    resolve_from(Map::empty(), ps, same)
}

proof fn lemma_entries_map_contains(s: Seq<(Loc, Loc)>, l: Loc)
    ensures
        entries_map(s).contains_key(l) <==> exists|i: int| 0 <= i < s.len() && (#[trigger] s[i]).0 == l,
    decreases s.len(),
{
    if s.len() > 0 {
        lemma_entries_map_contains(s.drop_last(), l);
        if exists|i: int| 0 <= i < s.len() && (#[trigger] s[i]).0 == l {
            let i = choose|i: int| 0 <= i < s.len() && (#[trigger] s[i]).0 == l;
            if i < s.len() - 1 {
                assert(s.drop_last()[i] == s[i]);
            }
        }
        if exists|i: int| 0 <= i < s.drop_last().len() && (#[trigger] s.drop_last()[i]).0 == l {
            let i = choose|i: int| 0 <= i < s.drop_last().len() && (#[trigger] s.drop_last()[i]).0 == l;
            assert(s[i] == s.drop_last()[i]);
        }
    }
}

proof fn lemma_entries_map_len(s: Seq<(Loc, Loc)>)
    requires
        keys_distinct(s),
    ensures
        entries_map(s).dom().finite(),
        entries_map(s).len() == s.len(),
    decreases s.len(),
{
    if s.len() > 0 {
        let t = s.drop_last();
        assert(keys_distinct(t)) by {
            assert forall|i: int, j: int| 0 <= i < j < t.len() implies (#[trigger] t[i]).0 != (#[trigger] t[j]).0 by {
                assert(t[i] == s[i] && t[j] == s[j]);
            }
        }
        lemma_entries_map_len(t);
        lemma_entries_map_contains(t, s.last().0);
        if entries_map(t).contains_key(s.last().0) {
            let i = choose|i: int| 0 <= i < t.len() && (#[trigger] t[i]).0 == s.last().0;
            assert(s[i] == t[i]);
            assert(s[s.len() - 1] == s.last());
        }
    }
}

proof fn lemma_dom_grows(m: Map<Loc, Loc>, ps: Seq<Pair>, same: spec_fn(Pair) -> bool, k: int)
    requires
        0 <= k <= ps.len(),
    ensures
        resolve_from(m, ps.take(k), same).dom().subset_of(resolve_from(m, ps, same).dom()),
    decreases ps.len() - k,
{
    if k == ps.len() {
        assert(ps.take(k) =~= ps);
    } else {
        lemma_dom_grows(m, ps, same, k + 1);
        assert(ps.take(k + 1).drop_last() =~= ps.take(k));
        assert(ps.take(k + 1).last() == ps[k]);
    }
}

proof fn lemma_replay_prefix(ps: Seq<Pair>, same: spec_fn(Pair) -> bool, k: int)
    requires
        0 <= k <= ps.len(),
    ensures
        resolve_from(resolve_pairs(ps, same), ps.take(k), same) == resolve_pairs(ps, same),
    decreases k,
{
    let full = resolve_pairs(ps, same);
    if k == 0 {
        assert(ps.take(0) =~= Seq::<Pair>::empty());
    } else {
        lemma_replay_prefix(ps, same, k - 1);
        let p = ps[k - 1];
        assert(ps.take(k).drop_last() =~= ps.take(k - 1));
        assert(ps.take(k).last() == p);
        if !full.contains_key(p.0) && !full.contains_key(p.1) && same(p) {
            lemma_dom_grows(Map::empty(), ps, same, k - 1);
            lemma_dom_grows(Map::empty(), ps, same, k);
            let before = resolve_from(Map::empty(), ps.take(k - 1), same);
            assert(!before.contains_key(p.0) && !before.contains_key(p.1));
            assert(resolve_from(Map::empty(), ps.take(k), same).contains_key(p.1));
        }
    }
}

/// Running the resolver a second time over the same pairs, starting from the
/// map that the first run built (no file deleted in between), changes
/// nothing: every pair is then skipped or found to differ, as it was before.
pub proof fn lemma_resolve_idempotent(ps: Seq<Pair>, same: spec_fn(Pair) -> bool)
    ensures
        resolve_from(resolve_pairs(ps, same), ps, same) == resolve_pairs(ps, same),
{
    lemma_replay_prefix(ps, same, ps.len() as int);
    assert(ps.take(ps.len() as int) =~= ps);
}

/// Identical files collapse onto the first: for three distinct, pairwise
/// identical files `a`, `b`, `c` compared in the order (a, b), (a, c), (b, c),
/// both `b` and `c` become duplicates of `a`, and `c` never of `b`.
pub proof fn lemma_collapse_onto_first(a: Loc, b: Loc, c: Loc, same: spec_fn(Pair) -> bool)
    requires
        a != b,
        a != c,
        b != c,
        same((a, b)),
        same((a, c)),
        same((b, c)),
    ensures
        resolve_pairs(seq![(a, b), (a, c), (b, c)], same) == map![b => a, c => a],
{
    let ps = seq![(a, b), (a, c), (b, c)];
    let m0 = Map::<Loc, Loc>::empty();
    assert(ps.drop_last() =~= seq![(a, b), (a, c)]);
    assert(seq![(a, b), (a, c)].drop_last() =~= seq![(a, b)]);
    assert(seq![(a, b)].drop_last() =~= Seq::<Pair>::empty());
    assert(resolve_from(m0, Seq::<Pair>::empty(), same) == m0);
    assert(seq![(a, b)].last() == (a, b));
    assert(seq![(a, b), (a, c)].last() == (a, c));
    assert(ps.last() == (b, c));
    let m1 = resolve_from(m0, seq![(a, b)], same);
    assert(m1 == m0.insert(b, a));
    let m2 = resolve_from(m0, seq![(a, b), (a, c)], same);
    assert(m2 == m1.insert(c, a));
    assert(resolve_pairs(ps, same) == m2);
    assert(m2 =~= map![b => a, c => a]);
}

proof fn lemma_entries_map_value(s: Seq<(Loc, Loc)>, i: int)
    requires
        keys_distinct(s),
        0 <= i < s.len(),
    ensures
        entries_map(s).contains_key(s[i].0),
        entries_map(s)[s[i].0] == s[i].1,
    decreases s.len(),
{
    if i < s.len() - 1 {
        let t = s.drop_last();
        assert(t[i] == s[i]);
        assert(keys_distinct(t)) by {
            assert forall|a: int, b: int| 0 <= a < b < t.len() implies (#[trigger] t[a]).0 != (#[trigger] t[b]).0 by {
                assert(t[a] == s[a] && t[b] == s[b]);
            }
        }
        lemma_entries_map_value(t, i);
        assert(s[i].0 != s[s.len() - 1].0);
    }
}

/// The duplicates found so far, each with the file it was found identical to.
/// Each duplicate is listed once, in the order it was found.
pub struct DuplicateMap {
    entries: Vec<(Loc, Loc)>,
}

impl View for DuplicateMap {
    type V = Map<Loc, Loc>;

    closed spec fn view(&self) -> Map<Loc, Loc> {
        entries_map(self.entries@)
    }
}

impl DuplicateMap {
    /// No duplicate is listed twice.
    pub closed spec fn wf(&self) -> bool {
        keys_distinct(self.entries@)
    }

    /// An empty map.
    pub fn new() -> (r: Self)
        ensures
            r.wf(),
            r@ == Map::<Loc, Loc>::empty(),
    {
        DuplicateMap { entries: Vec::new() }
    }

    /// The file that `l` was found identical to, if `l` is a duplicate.
    pub fn get(&self, l: Loc) -> (r: Option<Loc>)
        requires
            self.wf(),
        ensures
            r == (if self@.contains_key(l) { Some(self@[l]) } else { None::<Loc> }),
    {
        let mut k: usize = 0;
        while k < self.entries.len()
            invariant
                self.wf(),
                k <= self.entries@.len(),
                forall|i: int| 0 <= i < k ==> (#[trigger] self.entries@[i]).0 != l,
            decreases self.entries@.len() - k,
        {
            let e = self.entries[k];
            if e.0.0 == l.0 && e.0.1 == l.1 {
                proof {
                    lemma_entries_map_value(self.entries@, k as int);
                }
                return Some(e.1);
            }
            k += 1;
        }
        proof {
            lemma_entries_map_contains(self.entries@, l);
        }
        None
    }

    /// The number of duplicates.
    pub fn len(&self) -> (r: usize)
        requires
            self.wf(),
        ensures
            r == self@.len(),
    {
        proof {
            lemma_entries_map_len(self.entries@);
        }
        self.entries.len()
    }

    /// Whether no duplicate was found.
    pub fn is_empty(&self) -> (r: bool)
        requires
            self.wf(),
        ensures
            r == (self@.len() == 0),
    {
        proof {
            lemma_entries_map_len(self.entries@);
        }
        self.entries.len() == 0
    }

    /// The (duplicate, original) entries, in the order they were found.
    pub fn entries(&self) -> (r: &Vec<(Loc, Loc)>)
        requires
            self.wf(),
        ensures
            keys_distinct(r@),
            entries_map(r@) == self@,
    {
        &self.entries
    }

    /// Whether `l` is already classified as a duplicate.
    pub fn contains_key(&self, l: Loc) -> (r: bool)
        ensures
            r == self@.contains_key(l),
    {
        let mut k: usize = 0;
        while k < self.entries.len()
            invariant
                k <= self.entries@.len(),
                forall|i: int| 0 <= i < k ==> (#[trigger] self.entries@[i]).0 != l,
            decreases self.entries@.len() - k,
        {
            let key = self.entries[k].0;
            if key.0 == l.0 && key.1 == l.1 {
                assert(self.entries@[k as int].0 == l);
                proof {
                    lemma_entries_map_contains(self.entries@, l);
                }
                return true;
            }
            k += 1;
        }
        proof {
            lemma_entries_map_contains(self.entries@, l);
        }
        false
    }

    /// Whether the files of `p` must still be compared: neither of them is
    /// classified as a duplicate yet.
    pub fn should_compare(&self, p: Pair) -> (r: bool)
        ensures
            r == (!self@.contains_key(p.0) && !self@.contains_key(p.1)),
    {
        !self.contains_key(p.0) && !self.contains_key(p.1)
    }

    /// Takes in the pair `p`, whose two files are identical or not as `same`
    /// says: one step of the resolver.
    pub fn record(&mut self, p: Pair, same: bool)
        requires
            old(self).wf(),
        ensures
            final(self).wf(),
            final(self)@ == resolve_step(old(self)@, p, same),
    {
        if same && self.should_compare(p) {
            proof {
                lemma_entries_map_contains(self.entries@, p.1);
            }
            let ghost before = self.entries@;
            self.entries.push((p.1, p.0));
            proof {
                assert(self.entries@.drop_last() =~= before);
                assert forall|i: int, j: int| 0 <= i < j < self.entries@.len() implies
                    (#[trigger] self.entries@[i]).0 != (#[trigger] self.entries@[j]).0 by {
                    if j == before.len() {
                        assert(self.entries@[i] == before[i]);
                    } else {
                        assert(self.entries@[i] == before[i] && self.entries@[j] == before[j]);
                    }
                }
            }
        }
    }
}

} // verus!
