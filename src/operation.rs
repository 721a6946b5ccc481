//! Gate operations: an ordered list of target qubits and a square matrix.
use vstd::prelude::*;
use crate::error::OperationError;
use crate::index::{two_pow, lemma_two_pow_positive};

verus! {

/// Some value occurs at two positions of `t`.
pub open spec fn has_duplicate(t: Seq<usize>) -> bool {
    exists|i: int, j: int| 0 <= i < j < t.len() && t[i] == t[j]
}

/// `v` occurs twice in `t`, and no smaller value does.
pub open spec fn is_least_duplicate(t: Seq<usize>, v: usize) -> bool {
    &&& exists|i: int, j: int| 0 <= i < j < t.len() && t[i] == v && t[j] == v
    &&& forall|i: int, j: int| 0 <= i < j < t.len() && t[i] == t[j] ==> v <= t[i]
}

/// Position `i` holds the first target of `t` that is not below `size`.
pub open spec fn is_first_out_of_range(t: Seq<usize>, size: usize, i: int) -> bool {
    &&& 0 <= i < t.len()
    &&& t[i] >= size
    &&& forall|j: int| 0 <= j < i ==> t[j] < size
}

/// A `rows` x `cols` matrix is the right shape for an operation on `arity` qubits.
pub open spec fn dims_match(arity: nat, rows: usize, cols: usize) -> bool {
    rows == two_pow(arity) && cols == two_pow(arity)
}

/// Every target is below `size` and none is named twice.
pub open spec fn targets_valid(t: Seq<usize>, size: usize) -> bool {
    &&& !has_duplicate(t)
    &&& forall|i: int| 0 <= i < t.len() ==> t[i] < size
}

/// An operation of these targets and this shape can be applied to `size` qubits.
pub open spec fn operation_valid(t: Seq<usize>, rows: usize, cols: usize, size: usize) -> bool {
    dims_match(t.len(), rows, cols) && targets_valid(t, size)
}

/// The error returned for an operation of these targets and shape on `size` qubits.
/// Shape is checked first, then duplicates, then range.
pub open spec fn operation_refused(
    t: Seq<usize>,
    rows: usize,
    cols: usize,
    size: usize,
    e: OperationError,
) -> bool {
    if !dims_match(t.len(), rows, cols) {
        e == OperationError::InvalidDimensions(rows, cols)
    } else if has_duplicate(t) {
        exists|v: usize| e == OperationError::InvalidTarget(v) && is_least_duplicate(t, v)
    } else {
        exists|i: int|
            is_first_out_of_range(t, size, i) && e == OperationError::InvalidTarget(#[trigger] t[i])
    }
}

/// The value that occurs twice in `targets`, the least such one, or `None`.
pub fn get_duplicate(targets: &Vec<usize>) -> (r: Option<usize>)
    ensures
        r is None <==> !has_duplicate(targets@),
        r matches Some(v) ==> is_least_duplicate(targets@, v),
{
    let t = targets;
    let n = t.len();
    let mut best: Option<usize> = None;
    let mut i: usize = 0;
    while i < n
        invariant
            n == t@.len(),
            i <= n,
            best is None ==> forall|a: int, b: int|
                0 <= a < i && a < b < n ==> t@[a] != t@[b],
            best matches Some(v) ==> exists|a: int, b: int|
                0 <= a < b < n && t@[a] == v && t@[b] == v,
            best matches Some(v) ==> forall|a: int, b: int|
                0 <= a < i && a < b < n && t@[a] == t@[b] ==> v <= t@[a],
        decreases n - i,
    {
        let mut j: usize = i + 1;
        while j < n
            invariant
                n == t@.len(),
                i < n,
                i + 1 <= j <= n,
                best is None ==> forall|a: int, b: int|
                    0 <= a < b < n && (a < i || (a == i && b < j)) ==> t@[a] != t@[b],
                best matches Some(v) ==> exists|a: int, b: int|
                    0 <= a < b < n && t@[a] == v && t@[b] == v,
                best matches Some(v) ==> forall|a: int, b: int|
                    0 <= a < b < n && (a < i || (a == i && b < j)) && t@[a] == t@[b] ==> v
                        <= t@[a],
            decreases n - j,
        {
            if t[i] == t[j] {
                let better = match best {
                    None => true,
                    Some(v) => t[i] < v,
                };
                if better {
                    best = Some(t[i]);
                    assert(0 <= i < j < n && t@[i as int] == t@[i as int] && t@[j as int]
                        == t@[i as int]);
                }
            }
            j = j + 1;
        }
        i = i + 1;
    }
    best
}

/// Tells whether `x` equals `2^k`.
fn is_two_pow(x: usize, k: usize) -> (r: bool)
    ensures
        r == (x == two_pow(k as nat)),
{
    let mut rest: usize = x;
    let mut i: usize = 0;
    assert(x == rest * two_pow(0nat)) by (nonlinear_arith)
        requires
            two_pow(0nat) == 1,
            rest == x,
    ;
    while i < k
        invariant
            i <= k,
            x == rest * two_pow(i as nat),
            (x == two_pow(k as nat)) == (rest == two_pow((k - i) as nat)),
        decreases k - i,
    {
        proof {
            lemma_two_pow_positive((k - i - 1) as nat);
        }
        if rest % 2 != 0 {
            assert(rest != 2 * two_pow((k - i - 1) as nat));
            return false;
        }
        let ghost old_rest = rest;
        rest = rest / 2;
        proof {
            assert(x == rest * two_pow((i + 1) as nat)) by (nonlinear_arith)
                requires
                    x == old_rest * two_pow(i as nat),
                    old_rest == 2 * rest,
                    two_pow((i + 1) as nat) == 2 * two_pow(i as nat),
            ;
        }
        i = i + 1;
    }
    rest == 1
}

/// Checks an operation of targets `t` and a `rows` x `cols` matrix against a
/// register of `size` qubits.
pub fn check_operation(t: &Vec<usize>, rows: usize, cols: usize, size: usize) -> (r: Result<(), OperationError>)
    ensures
        r is Ok <==> operation_valid(t@, rows, cols, size),
        r matches Err(e) ==> operation_refused(t@, rows, cols, size, e),
{
    if !is_two_pow(rows, t.len()) || !is_two_pow(cols, t.len()) {
        return Err(OperationError::InvalidDimensions(rows, cols));
    }
    match get_duplicate(t) {
        Some(v) => {
            return Err(OperationError::InvalidTarget(v));
        },
        None => {},
    }
    let mut i: usize = 0;
    while i < t.len()
        invariant
            i <= t@.len(),
            dims_match(t@.len(), rows, cols),
            !has_duplicate(t@),
            forall|j: int| 0 <= j < i ==> t@[j] < size,
        decreases t.len() - i,
    {
        if t[i] >= size {
            assert(is_first_out_of_range(t@, size, i as int));
            assert(dims_match(t@.len(), rows, cols));
            assert(!has_duplicate(t@));
            assert(operation_refused(t@, rows, cols, size, OperationError::InvalidTarget(t@[i as int])));
            return Err(OperationError::InvalidTarget(t[i]));
        }
        i = i + 1;
    }
    Ok(())
}

/// A gate: distinct target qubits in order, and a `rows` x `cols` matrix held
/// row by row. The shape is checked against the targets when applied.
#[derive(Clone)]
pub struct Operation<T> {
    targets: Vec<usize>,
    rows: usize,
    cols: usize,
    entries: Vec<T>,
}

impl<T: Copy> Operation<T> {
    pub closed spec fn spec_targets(&self) -> Seq<usize> {
        self.targets@
    }

    pub closed spec fn spec_rows(&self) -> usize {
        self.rows
    }

    pub closed spec fn spec_cols(&self) -> usize {
        self.cols
    }

    pub closed spec fn spec_entries(&self) -> Seq<T> {
        self.entries@
    }

    /// The entries fill the matrix exactly.
    pub open spec fn wf(&self) -> bool {
        self.spec_entries().len() == self.spec_rows() * self.spec_cols()
    }

    /// Builds an operation on `targets` whose matrix has `rows` rows and `cols`
    /// columns, `entries` read row by row.
    pub fn new(targets: Vec<usize>, rows: usize, cols: usize, entries: Vec<T>) -> (r: Self)
        requires
            entries@.len() == rows * cols,
        ensures
            r.wf(),
            r.spec_targets() == targets@,
            r.spec_rows() == rows,
            r.spec_cols() == cols,
            r.spec_entries() == entries@,
    {
        Operation { targets, rows, cols, entries }
    }

    pub fn targets(&self) -> (r: &Vec<usize>)
        ensures
            r@ == self.spec_targets(),
    {
        &self.targets
    }

    /// The number of targets.
    pub fn arity(&self) -> (r: usize)
        ensures
            r == self.spec_targets().len(),
    {
        self.targets.len()
    }

    pub fn rows(&self) -> (r: usize)
        ensures
            r == self.spec_rows(),
    {
        self.rows
    }

    pub fn cols(&self) -> (r: usize)
        ensures
            r == self.spec_cols(),
    {
        self.cols
    }

    /// The matrix entry in row `row` and column `col`.
    pub fn entry(&self, row: usize, col: usize) -> (r: T)
        requires
            self.wf(),
            row < self.spec_rows(),
            col < self.spec_cols(),
        ensures
            r == self.spec_entries()[row * self.spec_cols() + col],
    {
        let n = self.entries.len();
        proof {
            let (a, b, c, d) = (row as int, col as int, self.rows as int, self.cols as int);
            assert(a * d + b < c * d && a * d <= c * d) by (nonlinear_arith)
                requires
                    0 <= a < c,
                    0 <= b < d,
            ;
            assert(row * self.cols + col < n);
        }
        self.entries[row * self.cols + col]
    }

    /// Checks this operation against a register of `size` qubits.
    pub fn check(&self, size: usize) -> (r: Result<(), OperationError>)
        ensures
            r is Ok <==> operation_valid(self.spec_targets(), self.spec_rows(), self.spec_cols(), size),
            r matches Err(e) ==> operation_refused(
                self.spec_targets(),
                self.spec_rows(),
                self.spec_cols(),
                size,
                e,
            ),
    {
        check_operation(&self.targets, self.rows, self.cols, size)
    }
}

} // verus!
