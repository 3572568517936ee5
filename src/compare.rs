use vstd::prelude::*;

verus! {

/// Read size used for each of the two files in a comparison.
pub const CHUNK_SIZE: usize = 1048576;

/// What one pair of chunks, read at the same offset of two files, tells.
#[derive(PartialEq, Eq, Structural, Debug, Clone, Copy)]
pub enum ChunkVerdict {
    /// Both files ended together, with all earlier chunks equal.
    Equal,
    /// The chunks differ in length or in content.
    Differ,
    /// The chunks are equal and not empty: read on.
    More,
}

pub open spec fn chunk_verdict(a: Seq<u8>, b: Seq<u8>) -> ChunkVerdict {
    if a.len() != b.len() {
        ChunkVerdict::Differ
    } else if a.len() == 0 {
        ChunkVerdict::Equal
    } else if a == b {
        ChunkVerdict::More
    } else {
        ChunkVerdict::Differ
    }
}

/// Judges two chunks read at the same offset: a read of no bytes is the end
/// of a file.
pub fn compare_chunks(a: &[u8], b: &[u8]) -> (r: ChunkVerdict)
    ensures
        r == chunk_verdict(a@, b@),
{
    if a.len() != b.len() {
        return ChunkVerdict::Differ;
    }
    if a.len() == 0 {
        return ChunkVerdict::Equal;
    }
    let mut k: usize = 0;
    while k < a.len()
        invariant
            a@.len() == b@.len(),
            k <= a@.len(),
            forall|i: int| 0 <= i < k ==> a@[i] == b@[i],
        decreases a@.len() - k,
    {
        if a[k] != b[k] {
            return ChunkVerdict::Differ;
        }
        k += 1;
    }
    assert(a@ =~= b@);
    ChunkVerdict::More
}

/// Whether two byte strings are identical, found as two files are compared:
/// lengths first, then chunk by chunk of `chunk` bytes, stopping at the first
/// chunk that differs.
pub fn same_bytes(a: &[u8], b: &[u8], chunk: usize) -> (r: bool)
    requires
        chunk > 0,
    ensures
        r == (a@ == b@),
{
    if a.len() != b.len() {
        return false;
    }
    let n = a.len();
    let mut pos: usize = 0;
    loop
        invariant
            chunk > 0,
            n == a@.len(),
            n == b@.len(),
            pos <= n,
            a@.subrange(0, pos as int) == b@.subrange(0, pos as int),
        decreases n - pos,
    {
        let end: usize = if n - pos < chunk { n } else { pos + chunk };
        let ca = &a[pos..end];
        let cb = &b[pos..end];
        match compare_chunks(ca, cb) {
            ChunkVerdict::Equal => {
                assert(a@ =~= a@.subrange(0, pos as int));
                assert(b@ =~= b@.subrange(0, pos as int));
                return true;
            },
            ChunkVerdict::Differ => {
                assert(a@.subrange(pos as int, end as int) != b@.subrange(pos as int, end as int));
                assert(a@ != b@) by {
                    if a@ == b@ {
                        assert(a@.subrange(pos as int, end as int) =~= b@.subrange(pos as int, end as int));
                    }
                }
                return false;
            },
            ChunkVerdict::More => {
                assert(a@.subrange(0, end as int) =~= a@.subrange(0, pos as int) + a@.subrange(pos as int, end as int));
                assert(b@.subrange(0, end as int) =~= b@.subrange(0, pos as int) + b@.subrange(pos as int, end as int));
                pos = end;
            },
        }
    }
}

} // verus!
