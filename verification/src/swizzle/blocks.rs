//! The copy model every engine is specified against: a bounded block write,
//! and `scatter`, the fold that applies one guarded block copy per step of a
//! traversal.  The lemmas here turn a `scatter` into a per-byte account.

use vstd::prelude::*;

verus! {

/// One guarded block copy: `bs` bytes of `src` at `soff` replace the bytes
/// of `dest` at `doff`.  A range that does not fit either buffer leaves
/// `dest` unchanged — the engines skip such copies silently.
pub open spec fn write_block(dest: Seq<u8>, src: Seq<u8>, soff: int, doff: int, bs: int) -> Seq<
    u8,
> {
    if 0 <= soff && soff + bs <= src.len() && 0 <= doff && doff + bs <= dest.len() {
        Seq::new(
            dest.len(),
            |i: int|
                if doff <= i < doff + bs {
                    src[soff + (i - doff)]
                } else {
                    dest[i]
                },
        )
    } else {
        dest
    }
}

/// The result of an engine traversal of `n` steps: step `k` copies the block
/// at `soff(k)` to `doff(k)` when `act(k)` holds, in increasing `k`.
pub open spec fn scatter(
    dest: Seq<u8>,
    src: Seq<u8>,
    soff: spec_fn(int) -> int,
    doff: spec_fn(int) -> int,
    act: spec_fn(int) -> bool,
    bs: int,
    n: int,
) -> Seq<u8>
    decreases n,
{
    if n <= 0 {
        dest
    } else if act(n - 1) {
        write_block(
            scatter(dest, src, soff, doff, act, bs, n - 1),
            src,
            soff(n - 1),
            doff(n - 1),
            bs,
        )
    } else {
        scatter(dest, src, soff, doff, act, bs, n - 1)
    }
}

/// Step `k` of the traversal writes byte `i` of the destination.
pub open spec fn covers(
    dlen: int,
    slen: int,
    soff: spec_fn(int) -> int,
    doff: spec_fn(int) -> int,
    act: spec_fn(int) -> bool,
    bs: int,
    k: int,
    i: int,
) -> bool {
    &&& act(k)
    &&& 0 <= soff(k)
    &&& soff(k) + bs <= slen
    &&& 0 <= doff(k)
    &&& doff(k) + bs <= dlen
    &&& doff(k) <= i < doff(k) + bs
}

pub proof fn lemma_scatter_len(
    dest: Seq<u8>,
    src: Seq<u8>,
    soff: spec_fn(int) -> int,
    doff: spec_fn(int) -> int,
    act: spec_fn(int) -> bool,
    bs: int,
    n: int,
)
    ensures
        scatter(dest, src, soff, doff, act, bs, n).len() == dest.len(),
    decreases n,
{
    if n > 0 {
        lemma_scatter_len(dest, src, soff, doff, act, bs, n - 1);
    }
}

/// A byte no step writes keeps its old value.
pub proof fn lemma_scatter_untouched(
    dest: Seq<u8>,
    src: Seq<u8>,
    soff: spec_fn(int) -> int,
    doff: spec_fn(int) -> int,
    act: spec_fn(int) -> bool,
    bs: int,
    n: int,
    i: int,
)
    requires
        0 <= i < dest.len(),
        forall|k: int|
            0 <= k < n ==> !covers(dest.len() as int, src.len() as int, soff, doff, act, bs, k, i),
    ensures
        scatter(dest, src, soff, doff, act, bs, n)[i] == dest[i],
    decreases n,
{
    if n > 0 {
        lemma_scatter_len(dest, src, soff, doff, act, bs, n - 1);
        lemma_scatter_untouched(dest, src, soff, doff, act, bs, n - 1, i);
        assert(!covers(dest.len() as int, src.len() as int, soff, doff, act, bs, n - 1, i));
    }
}

/// A byte whose last writing step is `k` holds the source byte that step
/// copied.
pub proof fn lemma_scatter_hit(
    dest: Seq<u8>,
    src: Seq<u8>,
    soff: spec_fn(int) -> int,
    doff: spec_fn(int) -> int,
    act: spec_fn(int) -> bool,
    bs: int,
    n: int,
    k: int,
    i: int,
)
    requires
        0 <= i < dest.len(),
        0 <= k < n,
        covers(dest.len() as int, src.len() as int, soff, doff, act, bs, k, i),
        forall|k2: int|
            k < k2 < n ==> !covers(dest.len() as int, src.len() as int, soff, doff, act, bs, k2, i),
    ensures
        scatter(dest, src, soff, doff, act, bs, n)[i] == src[soff(k) + (i - doff(k))],
    decreases n,
{
    lemma_scatter_len(dest, src, soff, doff, act, bs, n - 1);
    if k == n - 1 {
    } else {
        lemma_scatter_hit(dest, src, soff, doff, act, bs, n - 1, k, i);
        assert(!covers(dest.len() as int, src.len() as int, soff, doff, act, bs, n - 1, i));
    }
}

/// Copies one block of `bs` bytes from `source` at `soff` into `dest` at
/// `doff`, skipping silently when either range does not fit its buffer.
pub(crate) fn copy_block(source: &Vec<u8>, dest: &mut Vec<u8>, soff: usize, doff: usize, bs: usize)
    ensures
        final(dest)@ == write_block(old(dest)@, source@, soff as int, doff as int, bs as int),
{
    if bs <= source.len() && soff <= source.len() - bs && bs <= dest.len() && doff <= dest.len()
        - bs {
        let mut b: usize = 0;
        while b < bs
            invariant
                b <= bs,
                soff + bs <= source.len(),
                doff + bs <= dest.len(),
                dest@.len() == old(dest)@.len(),
                forall|i: int|
                    0 <= i < dest@.len() ==> dest@[i] == (if doff <= i < doff + b {
                        source@[soff + (i - doff)]
                    } else {
                        old(dest)@[i]
                    }),
            decreases bs - b,
        {
            let v: u8 = source[soff + b];
            dest.set(doff + b, v);
            b = b + 1;
        }
        assert(dest@ =~= write_block(old(dest)@, source@, soff as int, doff as int, bs as int));
    } else {
        assert(dest@ =~= write_block(old(dest)@, source@, soff as int, doff as int, bs as int));
    }
}

} // verus!
