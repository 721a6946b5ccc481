//! The identity on the other qubits tensored with an operation's matrix acts
//! on each run of `d` consecutive amplitudes on its own.
use vstd::prelude::*;

verus! {

/// Block `b` (amplitudes `b*d .. b*d + d`) of `q` is what `f` returns for
/// block `b` of `p`.
pub open spec fn block_mapped<T, F: Fn(Vec<T>) -> Vec<T>>(
    p: Seq<T>,
    q: Seq<T>,
    d: nat,
    f: F,
    b: int,
) -> bool {
    exists|v: Vec<T>, w: Vec<T>|
        v@ == p.subrange(b * d, b * d + d) && w@ == q.subrange(b * d, b * d + d) && f.ensures(
            (v,),
            w,
        )
}

/// `q` is `p` with `f` applied to each of its `count` blocks of `d` amplitudes.
pub open spec fn blocks_mapped<T, F: Fn(Vec<T>) -> Vec<T>>(
    p: Seq<T>,
    q: Seq<T>,
    d: nat,
    count: nat,
    f: F,
) -> bool {
    &&& q.len() == p.len()
    &&& forall|b: int| 0 <= b < count ==> #[trigger] block_mapped(p, q, d, f, b)
}

/// Applies `f` to each block of `d` consecutive entries of `p`, `count` blocks in all.
pub fn map_blocks<T: Copy, F: Fn(Vec<T>) -> Vec<T>>(
    p: &Vec<T>,
    d: usize,
    count: usize,
    f: &F,
) -> (r: Vec<T>)
    requires
        d > 0,
        p@.len() == count * d,
        forall|v: Vec<T>| v@.len() == d ==> #[trigger] f.requires((v,)),
        forall|v: Vec<T>, w: Vec<T>| #[trigger] f.ensures((v,), w) ==> w@.len() == v@.len(),
    ensures
        blocks_mapped(p@, r@, d as nat, count as nat, *f),
{
    let len = p.len();
    let mut out: Vec<T> = Vec::new();
    let mut nb: usize = 0;
    while nb < count
        invariant
            len == p@.len(),
            d > 0,
            p@.len() == count * d,
            nb <= count,
            out@.len() == nb * d,
            forall|v: Vec<T>| v@.len() == d ==> #[trigger] f.requires((v,)),
            forall|v: Vec<T>, w: Vec<T>| #[trigger] f.ensures((v,), w) ==> w@.len() == v@.len(),
            forall|b: int| 0 <= b < nb ==> #[trigger] block_mapped(p@, out@, d as nat, *f, b),
        decreases count - nb,
    {
        proof {
            assert(nb * d + d <= count * d) by (nonlinear_arith)
                requires
                    nb < count,
            ;
        }
        let start = nb * d;
        let mut v: Vec<T> = Vec::new();
        let mut j: usize = 0;
        while j < d
            invariant
                j <= d,
                len == p@.len(),
                start + d <= p@.len(),
                v@ == p@.subrange(start as int, start + j),
            decreases d - j,
        {
            v.push(p[start + j]);
            proof {
                assert(v@ =~= p@.subrange(start as int, start + j + 1));
            }
            j = j + 1;
        }
        let ghost v0 = v;
        let w = f(v);
        let ghost out0 = out@;
        let mut k: usize = 0;
        while k < d
            invariant
                k <= d,
                w@.len() == d,
                out@ == out0 + w@.take(k as int),
            decreases d - k,
        {
            out.push(w[k]);
            proof {
                assert(out@ =~= out0 + w@.take(k as int + 1));
            }
            k = k + 1;
        }
        proof {
            assert((nb + 1) * d == nb * d + d) by (nonlinear_arith);
            assert(w@.take(d as int) =~= w@);
            assert forall|b: int| 0 <= b < nb + 1 implies #[trigger] block_mapped(
                p@,
                out@,
                d as nat,
                *f,
                b,
            ) by {
                if b < nb {
                    assert(b * d + d <= nb * d) by (nonlinear_arith)
                        requires
                            b < nb,
                    ;
                    assert(0 <= b * d) by (nonlinear_arith)
                        requires
                            0 <= b,
                    ;
                    assert(out@.subrange(b * d, b * d + d) =~= out0.subrange(b * d, b * d + d));
                    assert(block_mapped(p@, out0, d as nat, *f, b));
                    let (v1, w1) = choose|v1: Vec<T>, w1: Vec<T>|
                        v1@ == p@.subrange(b * d, b * d + d) && w1@ == out0.subrange(b * d, b * d + d)
                            && f.ensures((v1,), w1);
                    assert(w1@ == out@.subrange(b * d, b * d + d));
                } else {
                    assert(out@.subrange(b * d, b * d + d) =~= w@);
                    assert(v0@ == p@.subrange(b * d, b * d + d));
                }
            }
        }
        nb = nb + 1;
    }
    out
}

} // verus!
