//! Basis-state indices and the qubits they encode.
//!
//! Bit `k` of a basis index (least significant first) is the value of qubit `k`.
use vstd::prelude::*;

verus! {

/// `2^n`, the number of basis states of `n` qubits.
pub open spec fn two_pow(n: nat) -> nat
    decreases n,
{
    if n == 0 {
        1
    } else {
        2 * two_pow((n - 1) as nat)
    }
}

/// Value of qubit `k` in the basis state with index `i`.
pub open spec fn bit_of(i: nat, k: nat) -> bool
    decreases k,
{
    if k == 0 {
        i % 2 == 1
    } else {
        bit_of(i / 2, (k - 1) as nat)
    }
}

/// The index whose qubit `k` is `b[k]` for every `k < b.len()` (and 0 above).
pub open spec fn from_bits(b: Seq<bool>) -> nat
    decreases b.len(),
{
    if b.len() == 0 {
        0
    } else {
        (if b[0] {
            1nat
        } else {
            0nat
        }) + 2 * from_bits(b.drop_first())
    }
}

/// The first `n` qubit values of index `i`.
pub open spec fn to_bits(i: nat, n: nat) -> Seq<bool> {
    Seq::new(n, |k: int| bit_of(i, k as nat))
}

pub proof fn lemma_two_pow_positive(n: nat)
    ensures
        two_pow(n) >= 1,
    decreases n,
{
    if n > 0 {
        lemma_two_pow_positive((n - 1) as nat);
    }
}

pub proof fn lemma_two_pow_monotone(a: nat, b: nat)
    requires
        a <= b,
    ensures
        two_pow(a) <= two_pow(b),
    decreases b,
{
    if a < b {
        lemma_two_pow_monotone(a, (b - 1) as nat);
        lemma_two_pow_positive((b - 1) as nat);
    }
}

/// `2^(a+b) = 2^a * 2^b`.
pub proof fn lemma_two_pow_add(a: nat, b: nat)
    ensures
        two_pow(a + b) == two_pow(a) * two_pow(b),
    decreases b,
{
    let x = two_pow(a) as int;
    if b > 0 {
        let c = (b - 1) as nat;
        lemma_two_pow_add(a, c);
        let y = two_pow(c) as int;
        assert(2 * (x * y) == x * (2 * y)) by (nonlinear_arith);
        assert(a + b == (a + c) + 1);
        assert(two_pow(a + b) == 2 * two_pow(a + c));
    } else {
        assert(x * 1 == x);
    }
}

/// An index built from `b.len()` qubit values lies below `2^b.len()`.
pub proof fn lemma_from_bits_bound(b: Seq<bool>)
    ensures
        from_bits(b) < two_pow(b.len()),
    decreases b.len(),
{
    if b.len() > 0 {
        lemma_from_bits_bound(b.drop_first());
    }
}

/// Reading back the qubits of an index built from qubit values gives those values.
pub proof fn lemma_bit_of_from_bits(b: Seq<bool>, k: nat)
    requires
        k < b.len(),
    ensures
        bit_of(from_bits(b), k) == b[k as int],
    decreases b.len(),
{
    let x = from_bits(b);
    let rest = from_bits(b.drop_first());
    let low: nat = if b[0] {
        1
    } else {
        0
    };
    assert(x == low + 2 * rest);
    assert(x % 2 == low) by (nonlinear_arith)
        requires
            x == low + 2 * rest,
            low < 2,
    ;
    if k > 0 {
        assert(x / 2 == rest) by (nonlinear_arith)
            requires
                x == low + 2 * rest,
                low < 2,
        ;
        lemma_bit_of_from_bits(b.drop_first(), (k - 1) as nat);
    }
}

/// Every index below `2^n` is rebuilt from its first `n` qubit values.
pub proof fn lemma_from_to_bits(i: nat, n: nat)
    requires
        i < two_pow(n),
    ensures
        from_bits(to_bits(i, n)) == i,
    decreases n,
{
    if n == 0 {
    } else {
        let b = to_bits(i, n);
        let half = i / 2;
        assert(half < two_pow((n - 1) as nat));
        assert(b.drop_first() =~= to_bits(half, (n - 1) as nat)) by {
            assert forall|k: int| 0 <= k < n - 1 implies b.drop_first()[k] == bit_of(
                half,
                k as nat,
            ) by {
                assert(bit_of(i, (k + 1) as nat) == bit_of(half, k as nat));
            }
        }
        lemma_from_to_bits(half, (n - 1) as nat);
    }
}

/// Computes `2^n`.
pub fn power_of_two(n: usize) -> (r: usize)
    requires
        two_pow(n as nat) <= usize::MAX,
    ensures
        r == two_pow(n as nat),
{
    let mut r: usize = 1;
    let mut k: usize = 0;
    while k < n
        invariant
            k <= n,
            r == two_pow(k as nat),
            two_pow(n as nat) <= usize::MAX,
        decreases n - k,
    {
        proof {
            lemma_two_pow_monotone((k + 1) as nat, n as nat);
        }
        r = r * 2;
        k = k + 1;
    }
    r
}

/// Value of qubit `qubit` in the basis state with index `index`.
pub fn qubit_value(index: usize, qubit: usize) -> (r: bool)
    ensures
        r == bit_of(index as nat, qubit as nat),
{
    let mut rest: usize = index;
    let mut k: usize = 0;
    while k < qubit
        invariant
            k <= qubit,
            bit_of(rest as nat, (qubit - k) as nat) == bit_of(index as nat, qubit as nat),
        decreases qubit - k,
    {
        assert(bit_of(rest as nat, (qubit - k) as nat) == bit_of(
            (rest / 2) as nat,
            (qubit - k - 1) as nat,
        ));
        rest = rest / 2;
        k = k + 1;
    }
    rest % 2 == 1
}

/// The index whose qubit `k` is `bits[k]`.
pub fn bits_to_index(bits: &Vec<bool>) -> (r: usize)
    requires
        two_pow(bits@.len()) <= usize::MAX,
    ensures
        r == from_bits(bits@),
{
    let n = bits.len();
    let mut v: usize = 0;
    let mut p: usize = n;
    while p > 0
        invariant
            p <= n,
            n == bits@.len(),
            two_pow(n as nat) <= usize::MAX,
            v == from_bits(bits@.subrange(p as int, n as int)),
        decreases p,
    {
        p = p - 1;
        let ghost tail = bits@.subrange(p as int + 1, n as int);
        assert(bits@.subrange(p as int, n as int).drop_first() =~= tail);
        proof {
            lemma_from_bits_bound(tail);
            lemma_two_pow_monotone((n - p) as nat, n as nat);
        }
        v = (if bits[p] {
            1usize
        } else {
            0usize
        }) + 2 * v;
    }
    assert(bits@.subrange(0, n as int) =~= bits@);
    v
}

/// The binary numeral of `index` in `w` digits, most significant first.
pub open spec fn binary_digits(index: nat, w: nat) -> Seq<char> {
    Seq::new(w, |p: int| if bit_of(index, (w - 1 - p) as nat) { '1' } else { '0' })
}

/// The label of basis state `index` in a register of `width` qubits: its
/// binary numeral, zero-padded to `width` digits (one digit at least).
pub fn binary_label(index: usize, width: usize) -> (r: Vec<char>)
    ensures
        r@ == binary_digits(index as nat, if width == 0 { 1 } else { width as nat }),
{
    let w: usize = if width == 0 {
        1
    } else {
        width
    };
    let mut r: Vec<char> = Vec::new();
    let mut p: usize = 0;
    while p < w
        invariant
            p <= w,
            w >= 1,
            w == (if width == 0 { 1 } else { width as nat }),
            r@ == binary_digits(index as nat, w as nat).take(p as int),
        decreases w - p,
    {
        let c = if qubit_value(index, w - 1 - p) {
            '1'
        } else {
            '0'
        };
        r.push(c);
        proof {
            assert(r@ =~= binary_digits(index as nat, w as nat).take(p as int + 1));
        }
        p = p + 1;
    }
    assert(binary_digits(index as nat, w as nat).take(w as int) =~= binary_digits(
        index as nat,
        w as nat,
    ));
    r
}

} // verus!
