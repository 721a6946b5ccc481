//! Relabelling of qubits: the targets of an operation become qubits
//! `0..k`, the other qubits follow in their original order.
use vstd::prelude::*;
use crate::index::{
    two_pow,
    bit_of,
    from_bits,
    to_bits,
    lemma_from_bits_bound,
    lemma_bit_of_from_bits,
    lemma_from_to_bits,
    qubit_value,
    bits_to_index,
};
use crate::operation::targets_valid;

verus! {

/// The qubits below `m` that are not in `t`, in increasing order.
pub open spec fn others_below(t: Seq<usize>, m: nat) -> Seq<usize>
    decreases m,
{
    if m == 0 {
        Seq::empty()
    } else {
        let prev = others_below(t, (m - 1) as nat);
        if t.contains((m - 1) as usize) {
            prev
        } else {
            prev.push((m - 1) as usize)
        }
    }
}

/// New position `p` holds old qubit `qubit_order(t, size)[p]`: the targets
/// first, in the order given, then every other qubit in increasing order.
pub open spec fn qubit_order(t: Seq<usize>, size: nat) -> Seq<usize> {
    t + others_below(t, size)
}

/// How many entries of `t` lie below `m`.
pub open spec fn count_below(t: Seq<usize>, m: nat) -> nat
    decreases t.len(),
{
    if t.len() == 0 {
        0
    } else {
        count_below(t.drop_last(), m) + (if t.last() < m {
            1nat
        } else {
            0nat
        })
    }
}

proof fn lemma_count_below_step(t: Seq<usize>, m: nat)
    requires
        forall|i: int, j: int| 0 <= i < j < t.len() ==> t[i] != t[j],
        m <= usize::MAX,
    ensures
        count_below(t, m + 1) == count_below(t, m) + (if t.contains(m as usize) {
            1nat
        } else {
            0nat
        }),
    decreases t.len(),
{
    if t.len() > 0 {
        let d = t.drop_last();
        lemma_count_below_step(d, m);
        if t.last() == m as usize {
            assert(!d.contains(m as usize)) by {
                if d.contains(m as usize) {
                    let i = choose|i: int| 0 <= i < d.len() && d[i] == m as usize;
                    assert(t[i] == t[t.len() - 1]);
                }
            }
            assert(t.contains(m as usize)) by {
                assert(t[t.len() - 1] == m as usize);
            }
        } else {
            assert(t.contains(m as usize) == d.contains(m as usize)) by {
                if t.contains(m as usize) {
                    let i = choose|i: int| 0 <= i < t.len() && t[i] == m as usize;
                    assert(d[i] == m as usize);
                }
                if d.contains(m as usize) {
                    let i = choose|i: int| 0 <= i < d.len() && d[i] == m as usize;
                    assert(t[i] == m as usize);
                }
            }
        }
    }
}

proof fn lemma_count_below_all(t: Seq<usize>, m: nat)
    requires
        forall|i: int| 0 <= i < t.len() ==> t[i] < m,
    ensures
        count_below(t, m) == t.len(),
    decreases t.len(),
{
    if t.len() > 0 {
        lemma_count_below_all(t.drop_last(), m);
    }
}

proof fn lemma_others_below_len(t: Seq<usize>, m: nat)
    requires
        forall|i: int, j: int| 0 <= i < j < t.len() ==> t[i] != t[j],
        m <= usize::MAX + 1,
    ensures
        others_below(t, m).len() + count_below(t, m) == m,
    decreases m,
{
    if m > 0 {
        lemma_others_below_len(t, (m - 1) as nat);
        lemma_count_below_step(t, (m - 1) as nat);
    }
    else {
        lemma_count_below_zero(t);
    }
}

proof fn lemma_count_below_zero(t: Seq<usize>)
    ensures
        count_below(t, 0) == 0,
    decreases t.len(),
{
    if t.len() > 0 {
        lemma_count_below_zero(t.drop_last());
    }
}

/// The qubits below `m` that are not targets all lie below `m`.
proof fn lemma_others_below_range(t: Seq<usize>, m: nat)
    requires
        m <= usize::MAX + 1,
    ensures
        forall|p: int| 0 <= p < others_below(t, m).len() ==> others_below(t, m)[p] < m,
    decreases m,
{
    if m > 0 {
        lemma_others_below_range(t, (m - 1) as nat);
        let prev = others_below(t, (m - 1) as nat);
        assert forall|p: int| 0 <= p < prev.len() implies prev[p] < m by {}
        if !t.contains((m - 1) as usize) {
            let o = prev.push((m - 1) as usize);
            assert forall|p: int| 0 <= p < o.len() implies o[p] < m by {
                if p < prev.len() {
                    assert(o[p] == prev[p]);
                }
            }
        }
    }
}

/// With valid targets, the new order names each of the `size` qubits once.
pub proof fn lemma_qubit_order(t: Seq<usize>, size: usize)
    requires
        targets_valid(t, size),
    ensures
        qubit_order(t, size as nat).len() == size,
        forall|p: int|
            0 <= p < size ==> #[trigger] qubit_order(t, size as nat)[p] < size,
{
    lemma_others_below_len(t, size as nat);
    lemma_count_below_all(t, size as nat);
    lemma_others_below_range(t, size as nat);
    let o = qubit_order(t, size as nat);
    assert forall|p: int| 0 <= p < size implies #[trigger] o[p] < size by {
        if p >= t.len() {
            assert(o[p] == others_below(t, size as nat)[p - t.len()]);
        }
    }
}

/// Computes `qubit_order(targets, size)`.
pub fn qubit_permutation(targets: &Vec<usize>, size: usize) -> (r: Vec<usize>)
    ensures
        r@ == qubit_order(targets@, size as nat),
{
    let mut r: Vec<usize> = targets.clone();
    let mut m: usize = 0;
    while m < size
        invariant
            m <= size,
            r@ == qubit_order(targets@, m as nat),
        decreases size - m,
    {
        let mut found = false;
        let mut j: usize = 0;
        while j < targets.len()
            invariant
                j <= targets@.len(),
                found == exists|a: int| 0 <= a < j && targets@[a] == m,
            decreases targets.len() - j,
        {
            if targets[j] == m {
                found = true;
            }
            j = j + 1;
        }
        if !found {
            r.push(m);
        }
        proof {
            let o = others_below(targets@, m as nat);
            if !found {
                assert(r@ =~= targets@ + o.push(m));
            }
        }
        m = m + 1;
    }
    r
}

/// Qubit values of the old index read from new index `i`: new qubit `p`
/// becomes old qubit `perm[p]`.
pub open spec fn placed_bits(i: nat, perm: Seq<usize>, n: nat) -> Seq<bool>
    decreases perm.len(),
{
    if perm.len() == 0 {
        Seq::new(n, |q: int| false)
    } else {
        let last = (perm.len() - 1) as int;
        placed_bits(i, perm.drop_last(), n).update(perm[last] as int, bit_of(i, last as nat))
    }
}

/// The old index whose amplitude stands at new index `i`.
pub open spec fn old_index(i: nat, perm: Seq<usize>, n: nat) -> nat {
    from_bits(placed_bits(i, perm, n))
}

/// The new index whose amplitude returns to old index `i`: new qubit `p`
/// is old qubit `perm[p]`.
pub open spec fn new_index(i: nat, perm: Seq<usize>) -> nat {
    from_bits(Seq::new(perm.len(), |p: int| bit_of(i, perm[p] as nat)))
}

/// The state vector read in the new qubit order.
pub open spec fn permuted<T>(s: Seq<T>, perm: Seq<usize>, n: nat) -> Seq<T> {
    Seq::new(s.len(), |i: int| s[old_index(i as nat, perm, n) as int])
}

/// A state vector in the new qubit order written back in the old one.
pub open spec fn restored<T>(s: Seq<T>, perm: Seq<usize>) -> Seq<T> {
    Seq::new(s.len(), |i: int| s[new_index(i as nat, perm) as int])
}

fn source_index(i: usize, perm: &Vec<usize>, n: usize) -> (r: usize)
    requires
        two_pow(n as nat) <= usize::MAX,
        forall|p: int| 0 <= p < perm@.len() ==> perm@[p] < n,
    ensures
        r == old_index(i as nat, perm@, n as nat),
        r < two_pow(n as nat),
{
    let mut bits: Vec<bool> = Vec::new();
    let mut q: usize = 0;
    while q < n
        invariant
            q <= n,
            bits@ == Seq::new(q as nat, |x: int| false),
        decreases n - q,
    {
        bits.push(false);
        proof {
            assert(bits@ =~= Seq::new((q + 1) as nat, |x: int| false));
        }
        q = q + 1;
    }
    let mut p: usize = 0;
    while p < perm.len()
        invariant
            p <= perm@.len(),
            two_pow(n as nat) <= usize::MAX,
            forall|x: int| 0 <= x < perm@.len() ==> perm@[x] < n,
            bits@ == placed_bits(i as nat, perm@.take(p as int), n as nat),
            bits@.len() == n,
        decreases perm.len() - p,
    {
        let b = qubit_value(i, p);
        bits.set(perm[p], b);
        proof {
            assert(perm@.take(p as int + 1).drop_last() =~= perm@.take(p as int));
        }
        p = p + 1;
    }
    assert(perm@.take(perm@.len() as int) =~= perm@);
    proof {
        lemma_from_bits_bound(bits@);
    }
    bits_to_index(&bits)
}

fn target_index(i: usize, perm: &Vec<usize>) -> (r: usize)
    requires
        two_pow(perm@.len()) <= usize::MAX,
    ensures
        r == new_index(i as nat, perm@),
        r < two_pow(perm@.len()),
{
    let mut bits: Vec<bool> = Vec::new();
    let mut p: usize = 0;
    while p < perm.len()
        invariant
            p <= perm@.len(),
            bits@ == Seq::new(p as nat, |x: int| bit_of(i as nat, perm@[x] as nat)),
        decreases perm.len() - p,
    {
        bits.push(qubit_value(i, perm[p]));
        proof {
            assert(bits@ =~= Seq::new((p + 1) as nat, |x: int| bit_of(i as nat, perm@[x] as nat)));
        }
        p = p + 1;
    }
    proof {
        lemma_from_bits_bound(bits@);
    }
    bits_to_index(&bits)
}

/// Reads `state` in the qubit order `perm` of `n` qubits: entry `i` of the
/// result is entry `old_index(i)` of `state`.
pub fn permute_state<T: Copy>(state: &Vec<T>, perm: &Vec<usize>, n: usize) -> (r: Vec<T>)
    requires
        state@.len() == two_pow(n as nat),
        forall|p: int| 0 <= p < perm@.len() ==> perm@[p] < n,
    ensures
        r@ == permuted(state@, perm@, n as nat),
{
    let len = state.len();
    let mut r: Vec<T> = Vec::new();
    let mut i: usize = 0;
    while i < len
        invariant
            len == state@.len(),
            len == two_pow(n as nat),
            i <= len,
            forall|p: int| 0 <= p < perm@.len() ==> perm@[p] < n,
            r@ == permuted(state@, perm@, n as nat).take(i as int),
        decreases len - i,
    {
        let j = source_index(i, perm, n);
        r.push(state[j]);
        proof {
            assert(r@ =~= permuted(state@, perm@, n as nat).take(i as int + 1));
        }
        i = i + 1;
    }
    assert(permuted(state@, perm@, n as nat).take(len as int) =~= permuted(
        state@,
        perm@,
        n as nat,
    ));
    r
}

/// Writes `state`, held in the qubit order `perm` of all `perm.len()` qubits,
/// back in the original order: entry `i` of the result is entry `new_index(i)`.
pub fn restore_state<T: Copy>(state: &Vec<T>, perm: &Vec<usize>) -> (r: Vec<T>)
    requires
        state@.len() == two_pow(perm@.len()),
    ensures
        r@ == restored(state@, perm@),
{
    let len = state.len();
    let mut r: Vec<T> = Vec::new();
    let mut i: usize = 0;
    while i < len
        invariant
            len == state@.len(),
            len == two_pow(perm@.len()),
            i <= len,
            r@ == restored(state@, perm@).take(i as int),
        decreases len - i,
    {
        let j = target_index(i, perm);
        r.push(state[j]);
        proof {
            assert(r@ =~= restored(state@, perm@).take(i as int + 1));
        }
        i = i + 1;
    }
    assert(restored(state@, perm@).take(len as int) =~= restored(state@, perm@));
    r
}

proof fn lemma_placed_bits_len(i: nat, perm: Seq<usize>, n: nat)
    requires
        forall|a: int| 0 <= a < perm.len() ==> perm[a] < n,
    ensures
        placed_bits(i, perm, n).len() == n,
    decreases perm.len(),
{
    if perm.len() > 0 {
        lemma_placed_bits_len(i, perm.drop_last(), n);
    }
}

/// With distinct entries in `perm`, old qubit `perm[k]` gets the value of new qubit `k`.
proof fn lemma_placed_bits_at(i: nat, perm: Seq<usize>, n: nat, k: int)
    requires
        forall|a: int, b: int| 0 <= a < b < perm.len() ==> perm[a] != perm[b],
        forall|a: int| 0 <= a < perm.len() ==> perm[a] < n,
        0 <= k < perm.len(),
    ensures
        placed_bits(i, perm, n)[perm[k] as int] == bit_of(i, k as nat),
    decreases perm.len(),
{
    lemma_placed_bits_len(i, perm.drop_last(), n);
    if k < perm.len() - 1 {
        lemma_placed_bits_at(i, perm.drop_last(), n, k);
    }
}

/// A qubit below `m` is among the others exactly when it is not a target;
/// the others hold no value twice.
proof fn lemma_others_below_members(t: Seq<usize>, m: nat)
    requires
        m <= usize::MAX + 1,
    ensures
        forall|q: usize| (q < m && !t.contains(q)) <==> others_below(t, m).contains(q),
        forall|a: int, b: int|
            0 <= a < b < others_below(t, m).len() ==> others_below(t, m)[a] != others_below(
                t,
                m,
            )[b],
    decreases m,
{
    if m > 0 {
        let prev = others_below(t, (m - 1) as nat);
        lemma_others_below_members(t, (m - 1) as nat);
        lemma_others_below_range(t, (m - 1) as nat);
        if !t.contains((m - 1) as usize) {
            let o = prev.push((m - 1) as usize);
            assert forall|q: usize| (q < m && !t.contains(q)) <==> o.contains(q) by {
                if q < m && !t.contains(q) {
                    if q == m - 1 {
                        assert(o[prev.len() as int] == q);
                    } else {
                        let a = choose|a: int| 0 <= a < prev.len() && prev[a] == q;
                        assert(o[a] == q);
                    }
                }
                if o.contains(q) {
                    let a = choose|a: int| 0 <= a < o.len() && o[a] == q;
                    if a < prev.len() {
                        assert(prev[a] == q);
                    }
                }
            }
            assert forall|a: int, b: int| 0 <= a < b < o.len() implies o[a] != o[b] by {
                if b == prev.len() {
                    assert(prev[a] < m - 1);
                }
            }
        }
    }
}

/// With valid targets, every one of the `size` qubits has exactly one new position.
pub proof fn lemma_qubit_order_is_permutation(t: Seq<usize>, size: usize)
    requires
        targets_valid(t, size),
    ensures
        qubit_order(t, size as nat).len() == size,
        forall|p: int| 0 <= p < size ==> #[trigger] qubit_order(t, size as nat)[p] < size,
        forall|a: int, b: int|
            0 <= a < b < size ==> qubit_order(t, size as nat)[a] != qubit_order(
                t,
                size as nat,
            )[b],
        forall|q: usize| q < size ==> #[trigger] qubit_order(t, size as nat).contains(q),
{
    lemma_qubit_order(t, size);
    lemma_others_below_members(t, size as nat);
    let r = others_below(t, size as nat);
    let o = qubit_order(t, size as nat);
    assert forall|a: int, b: int| 0 <= a < b < size implies o[a] != o[b] by {
        if b >= t.len() {
            assert(o[b] == r[b - t.len()]);
            assert(r.contains(o[b]));
            if a < t.len() {
                assert(t.contains(o[a]));
            } else {
                assert(o[a] == r[a - t.len()]);
            }
        }
    }
    assert forall|q: usize| q < size implies #[trigger] o.contains(q) by {
        if t.contains(q) {
            let p = choose|p: int| 0 <= p < t.len() && t[p] == q;
            assert(o[p] == q);
        } else {
            assert(r.contains(q));
            let a = choose|a: int| 0 <= a < r.len() && r[a] == q;
            assert(o[t.len() + a] == q);
        }
    }
}

/// Relabelling the qubits for an operation and writing the result back in the
/// original order gives the state it started from: an operation whose matrix
/// is the identity leaves the register as it was.
pub proof fn lemma_relabel_round_trip<T>(s: Seq<T>, t: Seq<usize>, size: usize)
    requires
        targets_valid(t, size),
        s.len() == two_pow(size as nat),
    ensures
        restored(permuted(s, qubit_order(t, size as nat), size as nat), qubit_order(t, size as nat))
            == s,
{
    let o = qubit_order(t, size as nat);
    let n = size as nat;
    lemma_qubit_order_is_permutation(t, size);
    let ps = permuted(s, o, n);
    let rs = restored(ps, o);
    assert forall|i: int| 0 <= i < s.len() implies rs[i] == s[i] by {
        let g = Seq::new(o.len(), |p: int| bit_of(i as nat, o[p] as nat));
        let x = from_bits(g);
        lemma_from_bits_bound(g);
        lemma_placed_bits_len(x, o, n);
        let pb = placed_bits(x, o, n);
        assert forall|q: int| 0 <= q < n implies pb[q] == bit_of(i as nat, q as nat) by {
            assert(o.contains(q as usize));
            let p = choose|p: int| 0 <= p < size && o[p] == q as usize;
            lemma_placed_bits_at(x, o, n, p);
            lemma_bit_of_from_bits(g, p as nat);
        }
        assert(pb =~= to_bits(i as nat, n));
        lemma_from_to_bits(i as nat, n);
    }
    assert(rs =~= s);
}

/// Writing a relabelled state back in the original order and relabelling it
/// again gives the relabelled state.
pub proof fn lemma_restore_round_trip<T>(q: Seq<T>, t: Seq<usize>, size: usize)
    requires
        targets_valid(t, size),
        q.len() == two_pow(size as nat),
    ensures
        permuted(restored(q, qubit_order(t, size as nat)), qubit_order(t, size as nat), size as nat)
            == q,
{
    let o = qubit_order(t, size as nat);
    let n = size as nat;
    lemma_qubit_order_is_permutation(t, size);
    let rs = restored(q, o);
    let ps = permuted(rs, o, n);
    assert forall|i: int| 0 <= i < q.len() implies ps[i] == q[i] by {
        let pb = placed_bits(i as nat, o, n);
        lemma_placed_bits_len(i as nat, o, n);
        lemma_from_bits_bound(pb);
        let x = from_bits(pb);
        let g = Seq::new(o.len(), |p: int| bit_of(x, o[p] as nat));
        assert forall|p: int| 0 <= p < n implies g[p] == bit_of(i as nat, p as nat) by {
            lemma_placed_bits_at(i as nat, o, n, p);
            lemma_bit_of_from_bits(pb, o[p] as nat);
        }
        assert(g =~= to_bits(i as nat, n));
        lemma_from_to_bits(i as nat, n);
    }
    assert(ps =~= q);
}

} // verus!
