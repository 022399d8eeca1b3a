//! What stands between the elements of an array in its text.
//!
//! An array of any rank is written flat, in row-major order. Between two
//! elements stands `", "` while the innermost row goes on, and as many
//! semicolons as axes have just been completed, then a space, where one or
//! more rows end.

use vstd::arithmetic::div_mod::{lemma_fundamental_div_mod, lemma_mod_multiples_basic, lemma_small_mod};
use vstd::prelude::*;
use vstd::string::*;

verus! {

/// The product of the `k` last (innermost) of `dims`.
pub open spec fn inner_product(dims: Seq<u64>, k: nat) -> nat
    decreases k,
{
    if k == 0 || k > dims.len() {
        1
    } else {
        inner_product(dims, (k - 1) as nat) * (dims[dims.len() - k] as nat)
    }
}

/// The number of elements of an array with these dimensions; 1 where it has
/// none.
pub open spec fn element_count(dims: Seq<u64>) -> nat {
    inner_product(dims, dims.len())
}

/// Whether an element at linear index `n` starts a new run of the `k`
/// innermost axes: their extent divides `n`.
pub open spec fn completes(dims: Seq<u64>, n: nat, k: nat) -> bool {
    1 <= k <= dims.len() && inner_product(dims, k) > 0 && n % inner_product(dims, k) == 0
}

/// How many axes beyond the `k` innermost are completed in a row at `n`,
/// counting outward and stopping at the first that is not.
pub open spec fn depth_beyond(dims: Seq<u64>, n: nat, k: nat) -> nat
    decreases dims.len() - k,
{
    if k < dims.len() && completes(dims, n, k + 1) {
        1 + depth_beyond(dims, n, k + 1)
    } else {
        0
    }
}

/// The boundary depth before the element at linear index `n`: the number of
/// axes, counted from the innermost outward, whose combined extent has just
/// been traversed.
pub open spec fn axes_completed(dims: Seq<u64>, n: nat) -> nat {
    depth_beyond(dims, n, 0)
}

/// The separator for a boundary depth.
pub open spec fn separator_text(depth: nat) -> Seq<char> {
    if depth == 0 {
        seq![',', ' ']
    } else {
        Seq::new(depth, |i: int| ';').push(' ')
    }
}

/// What stands before the element at linear index `n` of an array with the
/// dimensions `dims`, for `n` greater than zero.
pub open spec fn separator_before(dims: Seq<u64>, n: nat) -> Seq<char> {
    separator_text(axes_completed(dims, n))
}

/// The boundary depth counts exactly the innermost axes that are completed
/// without a gap: each of the `axes_completed` innermost extents divides `n`,
/// and the next one, if there is one, does not.
pub proof fn lemma_axes_completed_exact(dims: Seq<u64>, n: nat)
    ensures
        axes_completed(dims, n) <= dims.len(),
        forall|k: nat| 1 <= k <= axes_completed(dims, n) ==> completes(dims, n, k),
        axes_completed(dims, n) < dims.len() ==> !completes(
            dims,
            n,
            axes_completed(dims, n) + 1,
        ),
{
    lemma_depth_beyond_exact(dims, n, 0);
}

/// The same for a count that starts behind the `from` innermost axes.
pub proof fn lemma_depth_beyond_exact(dims: Seq<u64>, n: nat, from: nat)
    requires
        from <= dims.len(),
    ensures
        from + depth_beyond(dims, n, from) <= dims.len(),
        forall|k: nat| from < k <= from + depth_beyond(dims, n, from) ==> completes(dims, n, k),
        from + depth_beyond(dims, n, from) < dims.len() ==> !completes(
            dims,
            n,
            from + depth_beyond(dims, n, from) + 1,
        ),
    decreases dims.len() - from,
{
    if from < dims.len() && completes(dims, n, from + 1) {
        lemma_depth_beyond_exact(dims, n, from + 1);
    }
}

/// Counts the axes that are completed before the element at linear index
/// `index`, from the innermost outward.
pub fn boundary_depth(dims: &[u64], index: u64) -> (r: usize)
    ensures
        r == axes_completed(dims@, index as nat),
{
    let rank = dims.len();
    let mut k: usize = 0;
    // The extent of the `k` innermost axes, unless it is `beyond` 64 bits.
    let mut extent: u64 = 1;
    let mut beyond = false;
    while k < rank
        invariant
            rank == dims@.len(),
            k <= rank,
            inner_product(dims@, k as nat) > 0,
            beyond ==> inner_product(dims@, k as nat) > u64::MAX,
            !beyond ==> extent == inner_product(dims@, k as nat),
            axes_completed(dims@, index as nat) == k + depth_beyond(dims@, index as nat, k as nat),
        decreases rank - k,
    {
        let d = dims[rank - 1 - k];
        let ghost inner = inner_product(dims@, k as nat);
        let ghost outer = inner_product(dims@, (k + 1) as nat);
        assert(outer == inner * (d as nat));
        if d == 0 {
            assert(outer == 0) by (nonlinear_arith)
                requires
                    outer == inner * (d as nat),
                    d == 0,
            ;
            return k;
        }
        assert(outer >= inner) by (nonlinear_arith)
            requires
                outer == inner * (d as nat),
                d >= 1,
        ;
        if !beyond {
            match extent.checked_mul(d) {
                Some(product) => {
                    if index % product != 0 {
                        return k;
                    }
                    extent = product;
                },
                None => {
                    beyond = true;
                },
            }
        }
        if beyond {
            if index != 0 {
                proof {
                    lemma_small_mod(index as nat, outer);
                }
                return k;
            }
        }
        k += 1;
    }
    k
}

/// The separator that stands before the element at linear index `index`.
pub fn separator(dims: &[u64], index: u64) -> (r: String)
    ensures
        r@ == separator_before(dims@, index as nat),
{
    let depth = boundary_depth(dims, index);
    let mut out = String::new();
    proof {
        reveal_strlit(", ");
        reveal_strlit(" ");
    }
    if depth == 0 {
        out.append(", ");
        assert(out@ =~= separator_text(0));
        return out;
    }
    let mut i: usize = 0;
    while i < depth
        invariant
            i <= depth,
            out@ == Seq::new(i as nat, |j: int| ';'),
        decreases depth - i,
    {
        proof {
            reveal_strlit(";");
        }
        out.append(";");
        i += 1;
        assert(out@ =~= Seq::new(i as nat, |j: int| ';'));
    }
    out.append(" ");
    assert(out@ =~= separator_text(depth as nat));
    out
}

/// Where an index completes the `k + 1` innermost axes it completes the `k`
/// innermost too: the extents divide one another.
pub proof fn lemma_completes_inner(dims: Seq<u64>, n: nat, k: nat)
    requires
        1 <= k,
        completes(dims, n, k + 1),
    ensures
        completes(dims, n, k),
{
    let inner = inner_product(dims, k);
    let d = dims[dims.len() - (k + 1)] as nat;
    let outer = inner_product(dims, k + 1);
    assert(outer == inner * d);
    assert(inner > 0) by (nonlinear_arith)
        requires
            inner * d > 0,
    ;
    let q = n as int / outer as int;
    lemma_fundamental_div_mod(n as int, outer as int);
    assert(n == (d * q) * inner) by (nonlinear_arith)
        requires
            n == outer * q,
            outer == inner * d,
    ;
    lemma_mod_multiples_basic(d * q, inner as int);
}

/// The boundary depth is the greatest number of innermost axes whose
/// combined extent divides the index.
pub proof fn lemma_axes_completed_greatest(dims: Seq<u64>, n: nat, k: nat)
    requires
        axes_completed(dims, n) < k <= dims.len(),
    ensures
        !completes(dims, n, k),
    decreases k,
{
    lemma_axes_completed_exact(dims, n);
    if k > axes_completed(dims, n) + 1 {
        lemma_axes_completed_greatest(dims, n, (k - 1) as nat);
        if completes(dims, n, k) {
            lemma_completes_inner(dims, n, (k - 1) as nat);
        }
    }
}

/// Between two elements of an array the outermost axis is never completed:
/// the separator has fewer semicolons than the array has axes.
pub proof fn lemma_depth_below_rank(dims: Seq<u64>, n: nat)
    requires
        0 < n < element_count(dims),
    ensures
        axes_completed(dims, n) < dims.len(),
{
    lemma_axes_completed_exact(dims, n);
    if axes_completed(dims, n) == dims.len() {
        if dims.len() > 0 {
            assert(completes(dims, n, dims.len()));
            lemma_small_mod(n, element_count(dims));
        }
    }
}

/// With a zero among the `k` innermost dimensions their product is zero.
pub proof fn lemma_inner_product_zero(dims: Seq<u64>, k: nat, j: int)
    requires
        k <= dims.len(),
        dims.len() - k <= j < dims.len(),
        dims[j] == 0,
    ensures
        inner_product(dims, k) == 0,
    decreases k,
{
    if dims.len() - k == j {
        assert(inner_product(dims, (k - 1) as nat) * 0 == 0) by (nonlinear_arith);
    } else {
        lemma_inner_product_zero(dims, (k - 1) as nat, j);
        assert(0 * (dims[dims.len() - k] as nat) == 0) by (nonlinear_arith);
    }
}

/// Without a zero among the dimensions their products are positive and grow
/// with every axis.
pub proof fn lemma_inner_product_grows(dims: Seq<u64>, j: nat, k: nat)
    requires
        j <= k <= dims.len(),
        forall|i: int| 0 <= i < dims.len() ==> dims[i] > 0,
    ensures
        0 < inner_product(dims, j) <= inner_product(dims, k),
    decreases k,
{
    if k == 0 {
    } else if j == k {
        lemma_inner_product_grows(dims, (k - 1) as nat, (k - 1) as nat);
        let p = inner_product(dims, (k - 1) as nat);
        let d = dims[dims.len() - k] as nat;
        assert(0 < p * d) by (nonlinear_arith)
            requires
                0 < p,
                0 < d,
        ;
    } else {
        lemma_inner_product_grows(dims, j, (k - 1) as nat);
        let p = inner_product(dims, (k - 1) as nat);
        let d = dims[dims.len() - k] as nat;
        assert(p <= p * d) by (nonlinear_arith)
            requires
                0 < p,
                0 < d,
        ;
    }
}

/// The number of elements of an array with the dimensions `dims`, or `None`
/// where it is more than 64 bits hold.
pub fn count_elements(dims: &[u64]) -> (r: Option<u64>)
    ensures
        r == (if element_count(dims@) <= u64::MAX {
            Some(element_count(dims@) as u64)
        } else {
            None
        }),
{
    let rank = dims.len();
    let mut i: usize = 0;
    while i < rank
        invariant
            rank == dims@.len(),
            i <= rank,
            forall|j: int| 0 <= j < i ==> dims@[j] > 0,
        decreases rank - i,
    {
        if dims[i] == 0 {
            proof {
                lemma_inner_product_zero(dims@, rank as nat, i as int);
            }
            return Some(0);
        }
        i += 1;
    }
    let mut k: usize = 0;
    let mut count: u64 = 1;
    while k < rank
        invariant
            rank == dims@.len(),
            k <= rank,
            forall|j: int| 0 <= j < rank ==> dims@[j] > 0,
            count == inner_product(dims@, k as nat),
        decreases rank - k,
    {
        match count.checked_mul(dims[rank - 1 - k]) {
            None => {
                proof {
                    lemma_inner_product_grows(dims@, (k + 1) as nat, rank as nat);
                }
                return None;
            },
            Some(product) => {
                count = product;
            },
        }
        k += 1;
    }
    Some(count)
}

} // verus!
