use vstd::prelude::*;

verus! {

/// A file's position: the index of its directory among the inputs, then its
/// index in that directory's sorted listing.
pub type Loc = (usize, usize);

/// Two files selected for comparison.
pub type Pair = (Loc, Loc);

/// The place of a pair in emission order: pairs within one directory come
/// first (kind 0), then pairs across two directories (kind 1); inside a kind,
/// by first directory, second directory, first file, second file.
pub type Rank = (int, int, int, int, int);

pub open spec fn dir_len<T>(files: Seq<Vec<T>>, d: int) -> int {
    files[d]@.len() as int
}

/// `p` is one of the pairs that must be compared: two files of one directory,
/// the first listed before the second (unless only cross-directory pairs are
/// wanted), or a file of an earlier directory with a file of a later one.
pub open spec fn is_pair<T>(files: Seq<Vec<T>>, cross: bool, p: Pair) -> bool {
    let (a, b) = p;
    &&& a.0 < files.len()
    &&& b.0 < files.len()
    &&& a.1 < dir_len(files, a.0 as int)
    &&& b.1 < dir_len(files, b.0 as int)
    &&& ((!cross && a.0 == b.0 && a.1 < b.1) || a.0 < b.0)
}

pub open spec fn rank(p: Pair) -> Rank {
    (
        if p.0.0 == p.1.0 { 0 } else { 1 },
        p.0.0 as int,
        p.1.0 as int,
        p.0.1 as int,
        p.1.1 as int,
    )
}

/// Lexicographic order on ranks.
pub open spec fn rank_lt(a: Rank, b: Rank) -> bool {
    a.0 < b.0 || (a.0 == b.0 && (a.1 < b.1 || (a.1 == b.1 && (a.2 < b.2 || (a.2 == b.2 && (a.3
        < b.3 || (a.3 == b.3 && a.4 < b.4)))))))
}

/// Every pair of `out` is wanted and ranks below `cur`, `out` is in strictly
/// increasing rank, and every wanted pair that ranks below `cur` is in `out`.
pub open spec fn emitted_below<T>(files: Seq<Vec<T>>, cross: bool, out: Seq<Pair>, cur: Rank) -> bool {
    &&& forall|k: int|
        0 <= k < out.len() ==> is_pair(files, cross, #[trigger] out[k]) && rank_lt(rank(out[k]), cur)
    &&& forall|k1: int, k2: int|
        0 <= k1 < k2 < out.len() ==> rank_lt(rank(#[trigger] out[k1]), rank(#[trigger] out[k2]))
    &&& forall|p: Pair| is_pair(files, cross, p) && rank_lt(rank(p), cur) ==> #[trigger] out.contains(p)
}

/// `ps` holds every wanted pair exactly once, and nothing else, in strictly
/// increasing rank.
pub open spec fn lists_pairs<T>(files: Seq<Vec<T>>, cross: bool, ps: Seq<Pair>) -> bool {
    &&& forall|p: Pair| ps.contains(p) <==> is_pair(files, cross, p)
    &&& forall|k1: int, k2: int|
        0 <= k1 < k2 < ps.len() ==> rank_lt(rank(#[trigger] ps[k1]), rank(#[trigger] ps[k2]))
}

/// The path at position `l`.
pub open spec fn path_at<T>(files: Seq<Vec<T>>, l: Loc) -> T {
    files[l.0 as int]@[l.1 as int]
}

pub open spec fn is_loc<T>(files: Seq<Vec<T>>, l: Loc) -> bool {
    l.0 < files.len() && l.1 < dir_len(files, l.0 as int)
}

/// No path occurs twice among the listings.
pub open spec fn paths_distinct<T>(files: Seq<Vec<T>>) -> bool {
    forall|l1: Loc, l2: Loc|
        is_loc(files, l1) && is_loc(files, l2) && l1 != l2 ==> path_at(files, l1) != path_at(files, l2)
}

/// No pair is listed twice, and no pair holds one position twice; so when no
/// path occurs twice among the listings, the two paths of every pair differ.
pub proof fn lemma_pairs_distinct<T>(files: Seq<Vec<T>>, cross: bool, ps: Seq<Pair>)
    requires
        lists_pairs(files, cross, ps),
    ensures
        ps.no_duplicates(),
        forall|k: int| 0 <= k < ps.len() ==> (#[trigger] ps[k]).0 != ps[k].1,
        paths_distinct(files) ==> forall|k: int|
            0 <= k < ps.len() ==> path_at(files, (#[trigger] ps[k]).0) != path_at(files, ps[k].1),
{
    assert forall|i: int, j: int| 0 <= i < ps.len() && 0 <= j < ps.len() && i != j implies ps[i] != ps[j] by {
        if i < j {
            assert(rank_lt(rank(ps[i]), rank(ps[j])));
        } else {
            assert(rank_lt(rank(ps[j]), rank(ps[i])));
        }
    }
    assert forall|k: int| 0 <= k < ps.len() implies is_pair(files, cross, #[trigger] ps[k]) by {
        assert(ps.contains(ps[k]));
    }
}

proof fn lemma_listings_agree_below<T>(files: Seq<Vec<T>>, cross: bool, ps1: Seq<Pair>, ps2: Seq<Pair>, k: int)
    requires
        lists_pairs(files, cross, ps1),
        lists_pairs(files, cross, ps2),
        0 <= k <= ps1.len(),
        k <= ps2.len(),
    ensures
        forall|i: int| 0 <= i < k ==> ps1[i] == ps2[i],
    decreases k,
{
    if k > 0 {
        let j = k - 1;
        lemma_listings_agree_below(files, cross, ps1, ps2, j);
        assert(ps2.contains(ps1[j])) by {
            assert(ps1.contains(ps1[j]));
        }
        assert(ps1.contains(ps2[j])) by {
            assert(ps2.contains(ps2[j]));
        }
        let m = choose|m: int| 0 <= m < ps2.len() && ps2[m] == ps1[j];
        let m2 = choose|m2: int| 0 <= m2 < ps1.len() && ps1[m2] == ps2[j];
        if m < j {
            assert(ps1[m] == ps2[m]);
            assert(rank_lt(rank(ps1[m]), rank(ps1[j])));
        }
        if m2 < j {
            assert(ps1[m2] == ps2[m2]);
            assert(rank_lt(rank(ps2[m2]), rank(ps2[j])));
        }
        if m > j && m2 > j {
            assert(rank_lt(rank(ps2[j]), rank(ps2[m])));
            assert(rank_lt(rank(ps1[j]), rank(ps1[m2])));
        }
    }
}

/// The wanted pairs have one listing only: two sequences that both list them
/// exactly once, in strictly increasing rank, are equal.
pub proof fn lemma_listing_unique<T>(files: Seq<Vec<T>>, cross: bool, ps1: Seq<Pair>, ps2: Seq<Pair>)
    requires
        lists_pairs(files, cross, ps1),
        lists_pairs(files, cross, ps2),
    ensures
        ps1 == ps2,
{
    if ps1.len() <= ps2.len() {
        lemma_listings_agree_below(files, cross, ps1, ps2, ps1.len() as int);
        if ps1.len() < ps2.len() {
            let n = ps1.len() as int;
            assert(ps2.contains(ps2[n]));
            assert(is_pair(files, cross, ps2[n]));
            assert(ps1.contains(ps2[n]));
            let m = choose|m: int| 0 <= m < ps1.len() && ps1[m] == ps2[n];
            assert(rank_lt(rank(ps2[m]), rank(ps2[n])));
        }
    } else {
        lemma_listings_agree_below(files, cross, ps1, ps2, ps2.len() as int);
        let n = ps2.len() as int;
        assert(ps1.contains(ps1[n]));
        assert(is_pair(files, cross, ps1[n]));
        assert(ps2.contains(ps1[n]));
        let m = choose|m: int| 0 <= m < ps2.len() && ps2[m] == ps1[n];
        assert(rank_lt(rank(ps1[m]), rank(ps1[n])));
    }
    assert(ps1 =~= ps2);
}

proof fn lemma_advance<T>(files: Seq<Vec<T>>, cross: bool, out: Seq<Pair>, cur: Rank, next: Rank)
    requires
        emitted_below(files, cross, out, cur),
        !rank_lt(next, cur),
        forall|q: Pair| is_pair(files, cross, q) && rank_lt(rank(q), next) ==> rank_lt(rank(q), cur),
    ensures
        emitted_below(files, cross, out, next),
{
}

proof fn lemma_emit<T>(files: Seq<Vec<T>>, cross: bool, out: Seq<Pair>, cur: Rank, p: Pair, next: Rank)
    requires
        emitted_below(files, cross, out, cur),
        is_pair(files, cross, p),
        !rank_lt(rank(p), cur),
        rank_lt(rank(p), next),
        forall|q: Pair|
            is_pair(files, cross, q) && rank_lt(rank(q), next) && !rank_lt(rank(q), cur) ==> q == p,
    ensures
        emitted_below(files, cross, out.push(p), next),
{
    let o2 = out.push(p);
    assert forall|q: Pair| is_pair(files, cross, q) && rank_lt(rank(q), next) implies #[trigger] o2.contains(q) by {
        if rank_lt(rank(q), cur) {
            assert(out.contains(q));
            let k = choose|k: int| 0 <= k < out.len() && out[k] == q;
            assert(o2[k] == q);
        } else {
            assert(o2[out.len() as int] == q);
        }
    }
    assert forall|k1: int, k2: int| 0 <= k1 < k2 < o2.len() implies rank_lt(rank(#[trigger] o2[k1]), rank(#[trigger] o2[k2])) by {
        if k2 < out.len() {
            assert(o2[k1] == out[k1] && o2[k2] == out[k2]);
        } else {
            assert(o2[k1] == out[k1]);
        }
    }
    assert forall|k: int| 0 <= k < o2.len() implies is_pair(files, cross, #[trigger] o2[k]) && rank_lt(rank(o2[k]), next) by {
        if k < out.len() {
            assert(o2[k] == out[k]);
        }
    }
}

/// Lists the pairs of files to compare, as positions in `all_files`.
///
/// Unless `cross` is set, every two files of one directory are paired, in
/// listing order; then every file of each directory is paired with every file
/// of each later directory. The result holds each wanted pair exactly once, in
/// strictly increasing `rank`, which fixes it completely.
pub fn get_pairs<T>(all_files: &[Vec<T>], cross: bool) -> (r: Vec<Pair>)
    ensures
        lists_pairs(all_files@, cross, r@),
{
    let ghost files = all_files@;
    let n = all_files.len();
    let mut out: Vec<Pair> = Vec::new();
    if !cross {
        let mut d: usize = 0;
        while d < n
            invariant
                files == all_files@,
                n == files.len(),
                !cross,
                d <= n,
                emitted_below(files, cross, out@, (0, d as int, d as int, 0, 0)),
            decreases n - d,
        {
            let m = all_files[d].len();
            let mut i: usize = 0;
            proof {
                lemma_advance(files, cross, out@, (0, d as int, d as int, 0, 0), (0, d as int, d as int, 0, 1));
            }
            while i < m
                invariant
                    files == all_files@,
                    n == files.len(),
                    !cross,
                    d < n,
                    m == dir_len(files, d as int),
                    i <= m,
                    emitted_below(files, cross, out@, (0, d as int, d as int, i as int, i + 1)),
                decreases m - i,
            {
                let mut j: usize = i + 1;
                while j < m
                    invariant
                        files == all_files@,
                        n == files.len(),
                        !cross,
                        d < n,
                        m == dir_len(files, d as int),
                        i < j <= m,
                        emitted_below(files, cross, out@, (0, d as int, d as int, i as int, j as int)),
                    decreases m - j,
                {
                    proof {
                        lemma_emit(files, cross, out@, (0, d as int, d as int, i as int, j as int),
                            ((d, i), (d, j)), (0, d as int, d as int, i as int, j + 1));
                    }
                    out.push(((d, i), (d, j)));
                    j += 1;
                }
                proof {
                    lemma_advance(files, cross, out@, (0, d as int, d as int, i as int, j as int),
                        (0, d as int, d as int, i + 1, i + 2));
                }
                i += 1;
            }
            proof {
                lemma_advance(files, cross, out@, (0, d as int, d as int, i as int, i + 1),
                    (0, d + 1, d + 1, 0, 0));
            }
            d += 1;
        }
        proof {
            lemma_advance(files, cross, out@, (0, n as int, n as int, 0, 0), (1, 0, 0, 0, 0));
        }
    }
    let mut d1: usize = 0;
    while d1 < n
        invariant
            files == all_files@,
            n == files.len(),
            d1 <= n,
            emitted_below(files, cross, out@, (1, d1 as int, 0, 0, 0)),
        decreases n - d1,
    {
        let mut d2: usize = d1 + 1;
        proof {
            lemma_advance(files, cross, out@, (1, d1 as int, 0, 0, 0), (1, d1 as int, d1 + 1, 0, 0));
        }
        while d2 < n
            invariant
                files == all_files@,
                n == files.len(),
                d1 < d2 <= n,
                emitted_below(files, cross, out@, (1, d1 as int, d2 as int, 0, 0)),
            decreases n - d2,
        {
            let m1 = all_files[d1].len();
            let m2 = all_files[d2].len();
            let mut i: usize = 0;
            while i < m1
                invariant
                    files == all_files@,
                    n == files.len(),
                    d1 < d2 < n,
                    m1 == dir_len(files, d1 as int),
                    m2 == dir_len(files, d2 as int),
                    i <= m1,
                    emitted_below(files, cross, out@, (1, d1 as int, d2 as int, i as int, 0)),
                decreases m1 - i,
            {
                let mut j: usize = 0;
                while j < m2
                    invariant
                        files == all_files@,
                        n == files.len(),
                        d1 < d2 < n,
                        m1 == dir_len(files, d1 as int),
                        m2 == dir_len(files, d2 as int),
                        i < m1,
                        j <= m2,
                        emitted_below(files, cross, out@, (1, d1 as int, d2 as int, i as int, j as int)),
                    decreases m2 - j,
                {
                    proof {
                        lemma_emit(files, cross, out@, (1, d1 as int, d2 as int, i as int, j as int),
                            ((d1, i), (d2, j)), (1, d1 as int, d2 as int, i as int, j + 1));
                    }
                    out.push(((d1, i), (d2, j)));
                    j += 1;
                }
                proof {
                    lemma_advance(files, cross, out@, (1, d1 as int, d2 as int, i as int, j as int),
                        (1, d1 as int, d2 as int, i + 1, 0));
                }
                i += 1;
            }
            proof {
                lemma_advance(files, cross, out@, (1, d1 as int, d2 as int, i as int, 0),
                    (1, d1 as int, d2 + 1, 0, 0));
            }
            d2 += 1;
        }
        proof {
            lemma_advance(files, cross, out@, (1, d1 as int, d2 as int, 0, 0), (1, d1 + 1, 0, 0, 0));
        }
        d1 += 1;
    }
    proof {
        assert forall|p: Pair| out@.contains(p) implies is_pair(files, cross, p) by {
            let k = choose|k: int| 0 <= k < out@.len() && out@[k] == p;
        }
    }
    out
}

} // verus!
