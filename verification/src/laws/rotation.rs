//! Laws of `permute` and of the holographic `inverse`.

use vstd::arithmetic::div_mod::{lemma_fundamental_div_mod, lemma_fundamental_div_mod_converse};
use vstd::arithmetic::div_mod::{lemma_mod_bound, lemma_mod_twice, lemma_small_mod};
use vstd::arithmetic::div_mod::lemma_sub_mod_noop;
use vstd::prelude::*;

use crate::model::{permuted, reflected};

verus! {

/// Where the element at `i` goes: `shifts` places on, round the end.
pub proof fn permute_moves<T>(s: Seq<T>, shifts: nat, i: int)
    requires
        0 <= i < s.len(),
    ensures
        permuted(s, shifts).len() == s.len(),
        permuted(s, shifts)[(i + shifts) % (s.len() as int)] == s[i],
{
    let n = s.len() as int;
    let k = shifts as int % n;
    lemma_wrap(i, shifts as int, n);
    if i + k < n {
        assert(permuted(s, shifts)[i + k] == s[i]);
    } else {
        assert(permuted(s, shifts)[i + k - n] == s[i]);
    }
}

/// Where the element at `i` comes from.
pub proof fn permute_reads<T>(s: Seq<T>, shifts: nat, i: int)
    requires
        0 <= i < s.len(),
    ensures
        permuted(s, shifts).len() == s.len(),
        permuted(s, shifts)[i] == s[(i - shifts) % (s.len() as int)],
{
    let n = s.len() as int;
    let k = shifts as int % n;
    lemma_unwrap(i, shifts as int, n);
    if i < k {
        assert(permuted(s, shifts)[i] == s[i - k + n]);
    } else {
        assert(permuted(s, shifts)[i] == s[i - k]);
    }
}

/// The remainder of a sum, given the remainder of the second summand.
proof fn lemma_wrap(i: int, shifts: int, n: int)
    requires
        0 <= i < n,
        0 <= shifts,
    ensures
        (i + shifts) % n == (if i + shifts % n < n {
            i + shifts % n
        } else {
            i + shifts % n - n
        }),
{
    let k = shifts % n;
    lemma_mod_bound(shifts, n);
    lemma_fundamental_div_mod(shifts, n);
    let q = shifts / n;
    if i + k < n {
        lemma_fundamental_div_mod_converse(i + shifts, n, q, i + k);
    } else {
        assert(n * (q + 1) == n * q + n) by (nonlinear_arith);
        lemma_fundamental_div_mod_converse(
            i + shifts,
            n,
            q + 1,
            i + k - n,
        );
    }
}

/// The remainder of a difference, given the remainder of the second term.
proof fn lemma_unwrap(i: int, shifts: int, n: int)
    requires
        0 <= i < n,
        0 <= shifts,
    ensures
        (i - shifts) % n == (if i < shifts % n {
            i - shifts % n + n
        } else {
            i - shifts % n
        }),
{
    let k = shifts % n;
    lemma_mod_bound(shifts, n);
    lemma_fundamental_div_mod(shifts, n);
    let q = shifts / n;
    if i < k {
        assert(n * (-q - 1) == -(n * q) - n) by (nonlinear_arith);
        lemma_fundamental_div_mod_converse(
            i - shifts,
            n,
            -q - 1,
            i - k + n,
        );
    } else {
        assert(n * (-q) == -(n * q)) by (nonlinear_arith);
        lemma_fundamental_div_mod_converse(i - shifts, n, -q, i - k);
    }
}

/// Permuting twice is permuting once by the sum of the shifts.
pub proof fn permute_composes<T>(s: Seq<T>, first: nat, second: nat)
    ensures
        permuted(permuted(s, first), second) == permuted(s, first + second),
{
    if s.len() > 0 {
        let n = s.len() as int;
        let once = permuted(s, first);
        assert forall|i: int| 0 <= i < n implies #[trigger] permuted(once, second)[i] == permuted(
            s,
            first + second,
        )[i] by {
            permute_reads(once, second, i);
            let j = (i - second) % n;
            lemma_mod_bound(i - second, n);
            permute_reads(s, first, j);
            permute_reads(s, first + second, i);
            lemma_sub_mod_noop(i - second, first as int, n);
            lemma_mod_twice(i - second, n);
            lemma_sub_mod_noop(j, first as int, n);
        }
        assert(permuted(once, second) =~= permuted(s, first + second));
    }
}

/// Permuting by a multiple of the length changes nothing.
pub proof fn permute_by_length<T>(s: Seq<T>, shifts: nat)
    requires
        s.len() > 0 ==> shifts % s.len() == 0,
    ensures
        permuted(s, shifts) == s,
{
    assert(permuted(s, shifts) =~= s);
}

/// Permuting by what is missing to the length undoes a permutation.
pub proof fn permute_undone<T>(s: Seq<T>, shifts: nat)
    requires
        s.len() > 0,
    ensures
        permuted(permuted(s, shifts), (s.len() - shifts % s.len()) as nat) == s,
{
    let n = s.len() as int;
    let back = (s.len() - shifts % s.len()) as nat;
    lemma_mod_bound(shifts as int, n);
    permute_composes(s, shifts, back);
    lemma_fundamental_div_mod(shifts as int, n);
    let q = shifts as int / n;
    assert(n * (q + 1) == n * q + n) by (nonlinear_arith);
    lemma_fundamental_div_mod_converse((shifts + back) as int, n, q + 1, 0);
    permute_by_length(s, shifts + back);
}

/// The inverse puts the element at `i` at `-i`, round the length.
pub proof fn inverse_moves<T>(s: Seq<T>, i: int)
    requires
        0 <= i < s.len(),
    ensures
        reflected(s).len() == s.len(),
        reflected(s)[(-i) % (s.len() as int)] == s[i],
{
    let n = s.len() as int;
    lemma_unwrap(0, i, n);
    lemma_small_mod(i as nat, n as nat);
}

/// The inverse of the inverse is the vector itself.
pub proof fn inverse_undone<T>(s: Seq<T>)
    ensures
        reflected(reflected(s)) == s,
{
    assert(reflected(reflected(s)) =~= s);
}

/// The inverse of a permuted vector is the inverse, permuted the other way.
pub proof fn inverse_of_permuted<T>(s: Seq<T>, shifts: nat)
    requires
        s.len() > 0,
    ensures
        permuted(reflected(permuted(s, shifts)), shifts) == reflected(s),
{
    let n = s.len() as int;
    let moved = permuted(s, shifts);
    let k = shifts as int % n;
    lemma_mod_bound(shifts as int, n);
    assert forall|i: int| 0 <= i < n implies #[trigger] permuted(reflected(moved), shifts)[i]
        == reflected(s)[i] by {
        let j = if i < k {
            i - k + n
        } else {
            i - k
        };
        assert(permuted(reflected(moved), shifts)[i] == reflected(moved)[j]);
        let m = if j == 0 {
            0
        } else {
            n - j
        };
        assert(reflected(moved)[j] == moved[m]);
        let o = if m < k {
            m - k + n
        } else {
            m - k
        };
        assert(moved[m] == s[o]);
    }
    assert(permuted(reflected(moved), shifts) =~= reflected(s));
}

} // verus!
