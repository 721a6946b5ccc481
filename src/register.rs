//! A register of qubits holding its state vector of `2^N` amplitudes.
//!
//! The register moves amplitudes; the amplitude type `T` and its arithmetic
//! are the caller's.
use vstd::prelude::*;
use crate::error::OperationError;
use vstd::arithmetic::div_mod::lemma_fundamental_div_mod;
use crate::index::{
    two_pow,
    bit_of,
    from_bits,
    power_of_two,
    qubit_value,
    bits_to_index,
    lemma_from_bits_bound,
    lemma_bit_of_from_bits,
    lemma_two_pow_add,
    lemma_two_pow_positive,
    lemma_two_pow_monotone,
};
use crate::blocks::{blocks_mapped, block_mapped, map_blocks};
use crate::operation::{Operation, operation_valid, operation_refused, targets_valid};
use crate::permutation::{
    qubit_order,
    others_below,
    permuted,
    restored,
    lemma_qubit_order,
    lemma_relabel_round_trip,
    lemma_restore_round_trip,
    qubit_permutation,
    permute_state,
    restore_state,
};

verus! {

/// The classical basis state in which qubit `k` is `bits[k]`: `one` at index
/// `from_bits(bits)`, `zero` everywhere else.
pub open spec fn basis_state<T>(bits: Seq<bool>, zero: T, one: T) -> Seq<T> {
    Seq::new(two_pow(bits.len()), |i: int| if i == from_bits(bits) { one } else { zero })
}

/// Amplitude `i` of `s1` is that of `s0` after collapsing qubit `target` onto
/// `outcome`: `rescale` of the old one where the qubit agrees, `zero` elsewhere.
pub open spec fn amplitude_collapsed<T, S: Fn(T) -> T>(
    s0: Seq<T>,
    s1: Seq<T>,
    target: nat,
    outcome: bool,
    zero: T,
    rescale: S,
    i: int,
) -> bool {
    if bit_of(i as nat, target) == outcome {
        rescale.ensures((s0[i],), s1[i])
    } else {
        s1[i] == zero
    }
}

/// `s1` is `s0` collapsed onto qubit `target` being `outcome`.
pub open spec fn collapsed_with<T, S: Fn(T) -> T>(
    s0: Seq<T>,
    s1: Seq<T>,
    target: nat,
    outcome: bool,
    zero: T,
    rescale: S,
) -> bool {
    &&& s1.len() == s0.len()
    &&& forall|i: int|
        0 <= i < s0.len() ==> #[trigger] amplitude_collapsed(s0, s1, target, outcome, zero, rescale, i)
}

/// `s1` is `s0` after an operation on targets `t` of a register of `n`
/// qubits: relabelled so that the targets come first, each run of `2^k`
/// amplitudes passed through `f`, written back in the original order.
pub open spec fn applied<T, F: Fn(Vec<T>) -> Vec<T>>(
    s0: Seq<T>,
    s1: Seq<T>,
    t: Seq<usize>,
    n: nat,
    f: F,
) -> bool {
    exists|q: Seq<T>|
        #[trigger] blocks_mapped(
            permuted(s0, qubit_order(t, n), n),
            q,
            two_pow(t.len()),
            two_pow((n - t.len()) as nat),
            f,
        ) && s1 == restored(q, qubit_order(t, n))
}

/// `f` undoes itself on runs of `d` amplitudes.
pub open spec fn is_involution<T, F: Fn(Vec<T>) -> Vec<T>>(f: F, d: nat) -> bool {
    forall|v: Vec<T>, w: Vec<T>, w2: Vec<T>, u: Vec<T>|
        v@.len() == d && #[trigger] f.ensures((v,), w) && w2@ == w@ && #[trigger] f.ensures(
            (w2,),
            u,
        ) ==> u@ == v@
}

/// A register of `size` qubits with amplitudes of type `T`.
#[derive(Clone)]
pub struct Register<T> {
    state: Vec<T>,
    size: usize,
}

impl<T: Copy> Register<T> {
    /// The state vector.
    pub closed spec fn spec_state(&self) -> Seq<T> {
        self.state@
    }

    /// The number of qubits.
    pub closed spec fn spec_size(&self) -> nat {
        self.size as nat
    }

    /// The state vector has one amplitude per basis state.
    pub open spec fn wf(&self) -> bool {
        self.spec_state().len() == two_pow(self.spec_size())
    }

    /// The register of `input_bits.len()` qubits in the classical state where
    /// qubit `k` is `input_bits[k]`.
    pub fn new(input_bits: &Vec<bool>, zero: T, one: T) -> (r: Self)
        requires
            two_pow(input_bits@.len()) <= usize::MAX,
        ensures
            r.wf(),
            r.spec_size() == input_bits@.len(),
            r.spec_state() == basis_state(input_bits@, zero, one),
    {
        let n = input_bits.len();
        let len = power_of_two(n);
        let at = bits_to_index(input_bits);
        proof {
            lemma_from_bits_bound(input_bits@);
        }
        let mut state: Vec<T> = Vec::new();
        let mut i: usize = 0;
        while i < len
            invariant
                i <= len,
                len == two_pow(input_bits@.len()),
                at == from_bits(input_bits@),
                state@ == basis_state(input_bits@, zero, one).take(i as int),
            decreases len - i,
        {
            if i == at {
                state.push(one);
            } else {
                state.push(zero);
            }
            proof {
                assert(state@ =~= basis_state(input_bits@, zero, one).take(i as int + 1));
            }
            i = i + 1;
        }
        assert(basis_state(input_bits@, zero, one).take(len as int) =~= basis_state(
            input_bits@,
            zero,
            one,
        ));
        Register { state, size: n }
    }

    /// The number of qubits.
    pub fn size(&self) -> (r: usize)
        ensures
            r == self.spec_size(),
    {
        self.size
    }

    /// The state vector; amplitude `i` belongs to the basis state whose qubit
    /// `k` is bit `k` of `i`.
    pub fn state(&self) -> (r: &Vec<T>)
        ensures
            r@ == self.spec_state(),
    {
        &self.state
    }

    /// Checks `op` against this register and, if it can be applied, returns
    /// the state vector read with the targets of `op` as qubits `0..k` and
    /// the other qubits after them in their order. In that order the
    /// operation acts on each run of `2^k` consecutive amplitudes alone.
    pub fn try_permuted_state(&self, op: &Operation<T>) -> (r: Result<Vec<T>, OperationError>)
        requires
            self.wf(),
        ensures
            r is Ok <==> operation_valid(
                op.spec_targets(),
                op.spec_rows(),
                op.spec_cols(),
                self.spec_size() as usize,
            ),
            r matches Err(e) ==> operation_refused(
                op.spec_targets(),
                op.spec_rows(),
                op.spec_cols(),
                self.spec_size() as usize,
                e,
            ),
            r matches Ok(v) ==> v@ == permuted(
                self.spec_state(),
                qubit_order(op.spec_targets(), self.spec_size()),
                self.spec_size(),
            ),
    {
        match op.check(self.size) {
            Err(e) => Err(e),
            Ok(()) => {
                let perm = qubit_permutation(op.targets(), self.size);
                proof {
                    lemma_qubit_order(op.spec_targets(), self.size);
                }
                Ok(permute_state(&self.state, &perm, self.size))
            },
        }
    }

    /// Replaces the state by `new_state`, given in the qubit order that
    /// `try_permuted_state` used for `targets`, written back in the register's
    /// own order.
    pub fn set_permuted_state(&mut self, targets: &Vec<usize>, new_state: &Vec<T>)
        requires
            old(self).wf(),
            targets_valid(targets@, old(self).spec_size() as usize),
            new_state@.len() == old(self).spec_state().len(),
        ensures
            final(self).wf(),
            final(self).spec_size() == old(self).spec_size(),
            final(self).spec_state() == restored(
                new_state@,
                qubit_order(targets@, old(self).spec_size()),
            ),
    {
        let perm = qubit_permutation(targets, self.size);
        proof {
            lemma_qubit_order(targets@, self.size);
        }
        self.state = restore_state(new_state, &perm);
    }

    /// Applies `op`: checks it against the register, relabels the qubits so
    /// that its targets come first, hands each run of `2^k` amplitudes to
    /// `times_matrix` (which multiplies it by the operation's matrix), and
    /// writes the result back in the register's own order. On error the
    /// register is left as it was.
    pub fn try_apply<F: Fn(Vec<T>) -> Vec<T>>(
        &mut self,
        op: &Operation<T>,
        times_matrix: F,
    ) -> (r: Result<(), OperationError>)
        requires
            old(self).wf(),
            forall|v: Vec<T>|
                v@.len() == two_pow(op.spec_targets().len()) ==> #[trigger] times_matrix.requires(
                    (v,),
                ),
            forall|v: Vec<T>, w: Vec<T>| #[trigger]
                times_matrix.ensures((v,), w) ==> w@.len() == v@.len(),
        ensures
            final(self).wf(),
            final(self).spec_size() == old(self).spec_size(),
            r is Ok <==> operation_valid(
                op.spec_targets(),
                op.spec_rows(),
                op.spec_cols(),
                old(self).spec_size() as usize,
            ),
            r matches Err(e) ==> operation_refused(
                op.spec_targets(),
                op.spec_rows(),
                op.spec_cols(),
                old(self).spec_size() as usize,
                e,
            ) && final(self).spec_state() == old(self).spec_state(),
            r is Ok ==> applied(
                old(self).spec_state(),
                final(self).spec_state(),
                op.spec_targets(),
                old(self).spec_size(),
                times_matrix,
            ),
    {
        let p = match self.try_permuted_state(op) {
            Err(e) => {
                return Err(e);
            },
            Ok(p) => p,
        };
        let k = op.arity();
        let len = self.state.len();
        proof {
            lemma_qubit_order(op.spec_targets(), self.size);
            assert(qubit_order(op.spec_targets(), self.size as nat).len() == op.spec_targets().len()
                + others_below(op.spec_targets(), self.size as nat).len());
            lemma_two_pow_add(k as nat, (self.size - k) as nat);
            lemma_two_pow_positive((self.size - k) as nat);
            lemma_two_pow_positive(k as nat);
            lemma_two_pow_monotone(k as nat, self.size as nat);
            lemma_two_pow_monotone((self.size - k) as nat, self.size as nat);
            assert(k as nat + (self.size - k) as nat == self.size as nat);
            assert(p@.len() == len);
            let (x, y) = (two_pow(k as nat) as int, two_pow((self.size - k) as nat) as int);
            assert(x * y == y * x) by (nonlinear_arith);
        }
        let d = power_of_two(k);
        let count = power_of_two(self.size - k);
        let q = map_blocks(&p, d, count, &times_matrix);
        self.set_permuted_state(op.targets(), &q);
        Ok(())
    }

    /// Checks that `target` is a qubit of this register; if so, collapses the
    /// state onto qubit `target` being `outcome`: every basis state that
    /// disagrees gets amplitude `zero`, every other amplitude `a` becomes
    /// `rescale(a)` (division by the square root of the outcome's probability
    /// restores the unit norm). On error the register is left as it was.
    pub fn try_collapse<S: Fn(T) -> T>(
        &mut self,
        target: usize,
        outcome: bool,
        zero: T,
        rescale: S,
    ) -> (r: Result<(), OperationError>)
        requires
            old(self).wf(),
            forall|a: T| #[trigger] rescale.requires((a,)),
        ensures
            final(self).wf(),
            final(self).spec_size() == old(self).spec_size(),
            r is Err <==> target >= old(self).spec_size(),
            r is Err ==> r == Err::<(), OperationError>(OperationError::InvalidTarget(target))
                && final(self).spec_state() == old(self).spec_state(),
            r is Ok ==> collapsed_with(
                old(self).spec_state(),
                final(self).spec_state(),
                target as nat,
                outcome,
                zero,
                rescale,
            ),
    {
        if target >= self.size {
            return Err(OperationError::InvalidTarget(target));
        }
        let ghost s0 = self.state@;
        let len = self.state.len();
        let mut i: usize = 0;
        while i < len
            invariant
                i <= len,
                len == s0.len(),
                self.state@.len() == len,
                self.wf(),
                self.size == old(self).size,
                forall|a: T| #[trigger] rescale.requires((a,)),
                forall|j: int|
                    0 <= j < i ==> #[trigger] amplitude_collapsed(
                        s0,
                        self.state@,
                        target as nat,
                        outcome,
                        zero,
                        rescale,
                        j,
                    ),
                forall|j: int| i <= j < len ==> self.state@[j] == s0[j],
            decreases len - i,
        {
            let a = self.state[i];
            let ghost prev = self.state@;
            if qubit_value(i, target) == outcome {
                let b = rescale(a);
                self.state.set(i, b);
            } else {
                self.state.set(i, zero);
            }
            proof {
                assert forall|j: int| 0 <= j < i + 1 implies #[trigger] amplitude_collapsed(
                    s0,
                    self.state@,
                    target as nat,
                    outcome,
                    zero,
                    rescale,
                    j,
                ) by {
                    if j < i {
                        assert(amplitude_collapsed(s0, prev, target as nat, outcome, zero, rescale, j));
                        assert(self.state@[j] == prev[j]);
                    }
                }
            }
            i = i + 1;
        }
        Ok(())
    }

    /// Sets amplitude `index` to `value`.
    pub fn set_amplitude(&mut self, index: usize, value: T)
        requires
            old(self).wf(),
            index < old(self).spec_state().len(),
        ensures
            final(self).wf(),
            final(self).spec_size() == old(self).spec_size(),
            final(self).spec_state() == old(self).spec_state().update(index as int, value),
    {
        self.state.set(index, value);
    }
}

/// A register built from classical bits is certain of each qubit: its one
/// amplitude `one` sits at a basis state whose qubit `k` is `bits[k]`, and
/// every basis state that disagrees on qubit `k` has amplitude `zero`, so
/// measuring qubit `k` gives `bits[k]` with probability 1.
pub proof fn lemma_classical_qubit<T>(bits: Seq<bool>, zero: T, one: T, k: nat)
    requires
        k < bits.len(),
    ensures
        bit_of(from_bits(bits), k) == bits[k as int],
        forall|i: int|
            0 <= i < two_pow(bits.len()) && bit_of(i as nat, k) != bits[k as int]
                ==> #[trigger] basis_state(bits, zero, one)[i] == zero,
{
    lemma_bit_of_from_bits(bits, k);
}

/// Applying twice, to the same targets, an operation whose block product
/// undoes itself (a self-inverse gate) gives back the state it started from.
pub proof fn lemma_self_inverse_twice<T, F: Fn(Vec<T>) -> Vec<T>>(
    s0: Seq<T>,
    s1: Seq<T>,
    s2: Seq<T>,
    t: Seq<usize>,
    size: usize,
    f: F,
)
    requires
        targets_valid(t, size),
        s0.len() == two_pow(size as nat),
        is_involution(f, two_pow(t.len())),
        applied(s0, s1, t, size as nat, f),
        applied(s1, s2, t, size as nat, f),
    ensures
        s2 == s0,
{
    let n = size as nat;
    let o = qubit_order(t, n);
    let d = two_pow(t.len());
    let count = two_pow((n - t.len()) as nat);
    lemma_qubit_order(t, size);
    assert(o.len() == t.len() + others_below(t, n).len());
    lemma_two_pow_add(t.len(), (n - t.len()) as nat);
    assert(t.len() + (n - t.len()) as nat == n);
    lemma_two_pow_positive(t.len());
    let p0 = permuted(s0, o, n);
    let q1 = choose|q: Seq<T>| #[trigger] blocks_mapped(p0, q, d, count, f) && s1 == restored(q, o);
    lemma_restore_round_trip(q1, t, size);
    let q2 = choose|q: Seq<T>|
        #[trigger] blocks_mapped(permuted(s1, o, n), q, d, count, f) && s2 == restored(q, o);
    assert forall|i: int| 0 <= i < p0.len() implies q2[i] == p0[i] by {
        let b = i / (d as int);
        let j = i % (d as int);
        lemma_fundamental_div_mod(i, d as int);
        assert(0 <= j < d);
        assert(0 <= b) by (nonlinear_arith)
            requires
                0 <= i,
                d > 0,
                b == i / (d as int),
        ;
        assert(b < count) by (nonlinear_arith)
            requires
                i < d * count,
                i == d * b + j,
                0 <= j,
                d > 0,
        ;
        assert(b * d == d * b) by (nonlinear_arith);
        assert(b * d + d <= d * count) by (nonlinear_arith)
            requires
                b < count,
                d > 0,
        ;
        assert(block_mapped(p0, q1, d, f, b));
        assert(block_mapped(q1, q2, d, f, b));
        let (v1, w1) = choose|v1: Vec<T>, w1: Vec<T>|
            v1@ == p0.subrange(b * d, b * d + d) && w1@ == q1.subrange(b * d, b * d + d)
                && f.ensures((v1,), w1);
        let (v2, w2) = choose|v2: Vec<T>, w2: Vec<T>|
            v2@ == q1.subrange(b * d, b * d + d) && w2@ == q2.subrange(b * d, b * d + d)
                && f.ensures((v2,), w2);
        assert(v1@.len() == d);
        assert(v2@ == w1@);
        assert(w2@ == v1@);
        assert(q2[i] == w2@[j]);
        assert(p0[i] == v1@[j]);
    }
    assert(q2 =~= p0);
    lemma_relabel_round_trip(s0, t, size);
}

} // verus!
