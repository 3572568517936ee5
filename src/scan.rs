use vstd::prelude::*;

verus! {

/// Lexicographic order on sort keys: a proper prefix comes first.
pub open spec fn lex_le(a: Seq<u16>, b: Seq<u16>) -> bool
    decreases a.len(),
{
    if a.len() == 0 {
        true
    } else if b.len() == 0 {
        false
    } else if a[0] != b[0] {
        a[0] < b[0]
    } else {
        lex_le(a.drop_first(), b.drop_first())
    }
}

proof fn lemma_lex_total(a: Seq<u16>, b: Seq<u16>)
    ensures
        lex_le(a, b) || lex_le(b, a),
    decreases a.len(),
{
    if a.len() > 0 && b.len() > 0 && a[0] == b[0] {
        lemma_lex_total(a.drop_first(), b.drop_first());
    }
}

proof fn lemma_lex_trans(a: Seq<u16>, b: Seq<u16>, c: Seq<u16>)
    requires
        lex_le(a, b),
        lex_le(b, c),
    ensures
        lex_le(a, c),
    decreases a.len(),
{
    if a.len() > 0 && b.len() > 0 && c.len() > 0 && a[0] == b[0] && b[0] == c[0] {
        lemma_lex_trans(a.drop_first(), b.drop_first(), c.drop_first());
    }
}

/// One component in a sort key: its bytes, each raised by one, then a 0.
pub open spec fn encode(c: Seq<u8>) -> Seq<u16> {
    c.map_values(|b: u8| (b + 1) as u16).push(0)
}

/// The sort key of a path given by its components: their encodings in turn.
pub open spec fn key_of(components: Seq<Seq<u8>>) -> Seq<u16>
    decreases components.len(),
{
    if components.len() == 0 {
        Seq::empty()
    } else {
        encode(components[0]) + key_of(components.drop_first())
    }
}

/// Byte strings in strict lexicographic order: a proper prefix comes first.
pub open spec fn bytes_lt(a: Seq<u8>, b: Seq<u8>) -> bool
    decreases a.len(),
{
    if b.len() == 0 {
        false
    } else if a.len() == 0 {
        true
    } else if a[0] != b[0] {
        a[0] < b[0]
    } else {
        bytes_lt(a.drop_first(), b.drop_first())
    }
}

/// Paths given by their components, component by component, each compared
/// by its bytes: the order of `std::path::Path` where the components are
/// plain names.
pub open spec fn path_le(a: Seq<Seq<u8>>, b: Seq<Seq<u8>>) -> bool
    decreases a.len(),
{
    if a.len() == 0 {
        true
    } else if b.len() == 0 {
        false
    } else if a[0] != b[0] {
        bytes_lt(a[0], b[0])
    } else {
        path_le(a.drop_first(), b.drop_first())
    }
}

proof fn lemma_key_of_push(cs: Seq<Seq<u8>>, c: Seq<u8>)
    ensures
        key_of(cs.push(c)) == key_of(cs) + encode(c),
    decreases cs.len(),
{
    if cs.len() == 0 {
        assert(cs.push(c).drop_first() =~= Seq::<Seq<u8>>::empty());
        assert(cs.push(c)[0] == c);
        assert(key_of(cs.push(c).drop_first()) == Seq::<u16>::empty());
        assert(encode(c) + Seq::<u16>::empty() =~= encode(c));
        assert(Seq::<u16>::empty() + encode(c) =~= encode(c));
    } else {
        assert(cs.push(c).drop_first() =~= cs.drop_first().push(c));
        lemma_key_of_push(cs.drop_first(), c);
        assert(cs.push(c)[0] == cs[0]);
        assert(encode(cs[0]) + (key_of(cs.drop_first()) + encode(c)) =~= (encode(cs[0]) + key_of(
            cs.drop_first(),
        )) + encode(c));
    }
}

proof fn lemma_encode_first(x: Seq<u8>, r: Seq<u16>)
    ensures
        (encode(x) + r).len() > 0,
        (encode(x) + r)[0] == (if x.len() == 0 { 0 } else { (x[0] + 1) as u16 }),
        x.len() > 0 ==> (encode(x) + r).drop_first() =~= encode(x.drop_first()) + r,
        x.len() == 0 ==> (encode(x) + r).drop_first() =~= r,
{
}

proof fn lemma_encode_same(x: Seq<u8>, r1: Seq<u16>, r2: Seq<u16>)
    ensures
        lex_le(encode(x) + r1, encode(x) + r2) == lex_le(r1, r2),
    decreases x.len(),
{
    lemma_encode_first(x, r1);
    lemma_encode_first(x, r2);
    if x.len() > 0 {
        lemma_encode_same(x.drop_first(), r1, r2);
    }
}

proof fn lemma_encode_differ(x: Seq<u8>, y: Seq<u8>, r1: Seq<u16>, r2: Seq<u16>)
    requires
        x != y,
    ensures
        lex_le(encode(x) + r1, encode(y) + r2) == bytes_lt(x, y),
    decreases x.len(),
{
    lemma_encode_first(x, r1);
    lemma_encode_first(y, r2);
    if x.len() == 0 && y.len() == 0 {
        assert(x =~= y);
    }
    if x.len() > 0 && y.len() > 0 && x[0] == y[0] {
        assert(x.drop_first() != y.drop_first()) by {
            if x.drop_first() == y.drop_first() {
                assert forall|i: int| 0 <= i < x.len() implies x[i] == y[i] by {
                    if i > 0 {
                        assert(x[i] == x.drop_first()[i - 1]);
                        assert(y[i] == y.drop_first()[i - 1]);
                    }
                }
                assert(x =~= y);
            }
        }
        lemma_encode_differ(x.drop_first(), y.drop_first(), r1, r2);
    }
}

/// Sort keys compare as the paths they were built from: component by
/// component, each component by its bytes.
pub proof fn lemma_key_order(a: Seq<Seq<u8>>, b: Seq<Seq<u8>>)
    ensures
        lex_le(key_of(a), key_of(b)) == path_le(a, b),
    decreases a.len(),
{
    if a.len() > 0 && b.len() > 0 {
        if a[0] == b[0] {
            lemma_encode_same(a[0], key_of(a.drop_first()), key_of(b.drop_first()));
            lemma_key_order(a.drop_first(), b.drop_first());
        } else {
            lemma_encode_differ(a[0], b[0], key_of(a.drop_first()), key_of(b.drop_first()));
        }
    } else if a.len() > 0 {
        lemma_encode_first(a[0], key_of(a.drop_first()));
    }
}

/// The components of a path, as byte strings.
pub open spec fn comps_of(p: Seq<Vec<u8>>) -> Seq<Seq<u8>> {
    p.map_values(|c: Vec<u8>| c@)
}

/// Builds the sort key of a path from its components.
pub fn path_key(components: &Vec<Vec<u8>>) -> (r: Vec<u16>)
    ensures
        r@ == key_of(comps_of(components@)),
{
    let ghost comps = comps_of(components@);
    let mut out: Vec<u16> = Vec::new();
    let mut k: usize = 0;
    while k < components.len()
        invariant
            comps == comps_of(components@),
            k <= components@.len(),
            out@ == key_of(comps.take(k as int)),
        decreases components@.len() - k,
    {
        let c = &components[k];
        let ghost before = out@;
        let mut i: usize = 0;
        assert(c@.take(0).map_values(|b: u8| (b + 1) as u16) =~= Seq::<u16>::empty());
        assert(before + Seq::<u16>::empty() =~= before);
        while i < c.len()
            invariant
                i <= c@.len(),
                out@ == before + c@.take(i as int).map_values(|b: u8| (b + 1) as u16),
            decreases c@.len() - i,
        {
            out.push(c[i] as u16 + 1);
            assert(c@.take(i + 1).map_values(|b: u8| (b + 1) as u16) =~= c@.take(i as int).map_values(
                |b: u8| (b + 1) as u16,
            ).push((c@[i as int] + 1) as u16));
            i += 1;
        }
        out.push(0);
        assert(c@.take(i as int) =~= c@);
        assert(comps.take(k + 1) =~= comps.take(k as int).push(c@));
        proof {
            lemma_key_of_push(comps.take(k as int), c@);
        }
        assert(c@.map_values(|b: u8| (b + 1) as u16).push(0) == encode(c@));
        assert(out@ =~= key_of(comps.take(k + 1)));
        k += 1;
    }
    assert(comps.take(k as int) =~= comps);
    out
}

/// Whether key `a` sorts no later than key `b`.
pub fn key_le(a: &[u16], b: &[u16]) -> (r: bool)
    ensures
        r == lex_le(a@, b@),
{
    let mut i: usize = 0;
    assert(a@.skip(0) =~= a@ && b@.skip(0) =~= b@);
    while i < a.len() && i < b.len()
        invariant
            i <= a@.len(),
            i <= b@.len(),
            lex_le(a@, b@) == lex_le(a@.skip(i as int), b@.skip(i as int)),
        decreases a@.len() - i,
    {
        if a[i] != b[i] {
            return a[i] < b[i];
        }
        assert(a@.skip(i + 1) =~= a@.skip(i as int).drop_first());
        assert(b@.skip(i + 1) =~= b@.skip(i as int).drop_first());
        i += 1;
    }
    i == a.len()
}

/// `order` lists the positions of `keys` in nondecreasing key order.
pub open spec fn sorted_by_key(keys: Seq<Vec<u16>>, order: Seq<usize>) -> bool {
    forall|i: int, j: int|
        0 <= i < j < order.len() ==> lex_le(keys[order[i] as int]@, keys[order[j] as int]@)
}

/// `order` holds each of the positions `0..n` exactly once.
pub open spec fn is_permutation(order: Seq<usize>, n: int) -> bool {
    &&& order.len() == n
    &&& order.no_duplicates()
    &&& forall|i: int| 0 <= i < order.len() ==> order[i] < n
    &&& forall|j: usize| j < n ==> #[trigger] order.contains(j)
}

/// The order in which to list paths with the sort keys `keys`: every position
/// once, by nondecreasing key, and paths with equal keys in their given order.
pub fn sorted_order(keys: &Vec<Vec<u16>>) -> (r: Vec<usize>)
    ensures
        is_permutation(r@, keys@.len() as int),
        sorted_by_key(keys@, r@),
        forall|i: int, j: int|
            0 <= i < j < r@.len() && keys@[r@[i] as int]@ == keys@[r@[j] as int]@ ==> r@[i] < r@[j],
{
    let mut out: Vec<usize> = Vec::new();
    let mut k: usize = 0;
    while k < keys.len()
        invariant
            k <= keys@.len(),
            is_permutation(out@, k as int),
            sorted_by_key(keys@, out@),
            forall|i: int, j: int|
                0 <= i < j < out@.len() && keys@[out@[i] as int]@ == keys@[out@[j] as int]@ ==> out@[i]
                    < out@[j],
        decreases keys@.len() - k,
    {
        let mut pos: usize = 0;
        while pos < out.len() && key_le(keys[out[pos]].as_slice(), keys[k].as_slice())
            invariant
                k < keys@.len(),
                pos <= out@.len(),
                is_permutation(out@, k as int),
                forall|i: int| 0 <= i < pos ==> lex_le(keys@[out@[i] as int]@, keys@[k as int]@),
            decreases out@.len() - pos,
        {
            pos += 1;
        }
        let ghost before = out@;
        out.insert(pos, k);
        proof {
            let kk = keys@[k as int]@;
            if pos < before.len() {
                assert(!lex_le(keys@[before[pos as int] as int]@, kk));
                lemma_lex_total(keys@[before[pos as int] as int]@, kk);
            }
            assert forall|i: int, j: int| 0 <= i < j < out@.len() implies lex_le(
                keys@[out@[i] as int]@,
                keys@[out@[j] as int]@,
            ) by {
                if j < pos {
                } else if j == pos {
                } else if i < pos {
                    lemma_lex_trans(keys@[before[i] as int]@, kk, keys@[before[pos as int] as int]@);
                    if pos < j - 1 {
                        lemma_lex_trans(keys@[before[i] as int]@, keys@[before[pos as int] as int]@,
                            keys@[before[j - 1] as int]@);
                    }
                } else if i == pos {
                    if pos < j - 1 {
                        lemma_lex_trans(kk, keys@[before[pos as int] as int]@, keys@[before[j - 1] as int]@);
                    }
                } else {
                }
            }
            assert forall|i: int, j: int|
                0 <= i < j < out@.len() && keys@[out@[i] as int]@ == keys@[out@[j] as int]@ implies out@[i]
                < out@[j] by {
                if i == pos && j > pos {
                    assert(keys@[before[pos as int] as int]@ == kk);
                    if pos < j - 1 {
                        lemma_lex_trans(kk, keys@[before[pos as int] as int]@, keys@[before[j - 1] as int]@);
                        assert(lex_le(keys@[before[pos as int] as int]@, kk));
                    }
                }
            }
            assert forall|j: usize| j < k + 1 implies #[trigger] out@.contains(j) by {
                if j == k {
                    assert(out@[pos as int] == k);
                } else {
                    assert(before.contains(j));
                    let w = choose|w: int| 0 <= w < before.len() && before[w] == j;
                    if w < pos {
                        assert(out@[w] == j);
                    } else {
                        assert(out@[w + 1] == j);
                    }
                }
            }
        }
        k += 1;
    }
    out
}

/// The order in which to list paths, each given by its components: every
/// position once, by path (component by component), equal paths in their
/// given order.
pub fn listing_order(paths: &Vec<Vec<Vec<u8>>>) -> (r: Vec<usize>)
    ensures
        is_permutation(r@, paths@.len() as int),
        forall|i: int, j: int|
            0 <= i < j < r@.len() ==> path_le(
                comps_of(paths@[r@[i] as int]@),
                comps_of(paths@[r@[j] as int]@),
            ),
        forall|i: int, j: int|
            0 <= i < j < r@.len() && comps_of(paths@[r@[i] as int]@) == comps_of(paths@[r@[j] as int]@)
                ==> r@[i] < r@[j],
{
    let mut keys: Vec<Vec<u16>> = Vec::new();
    let mut k: usize = 0;
    while k < paths.len()
        invariant
            k <= paths@.len(),
            keys@.len() == k,
            forall|i: int| 0 <= i < k ==> (#[trigger] keys@[i])@ == key_of(comps_of(paths@[i]@)),
        decreases paths@.len() - k,
    {
        keys.push(path_key(&paths[k]));
        k += 1;
    }
    let order = sorted_order(&keys);
    proof {
        assert forall|i: int, j: int| 0 <= i < j < order@.len() implies path_le(
            comps_of(paths@[order@[i] as int]@),
            comps_of(paths@[order@[j] as int]@),
        ) by {
            lemma_key_order(comps_of(paths@[order@[i] as int]@), comps_of(paths@[order@[j] as int]@));
        }
    }
    order
}

} // verus!
