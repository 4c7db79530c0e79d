use vstd::prelude::*;
use vstd::set_lib::{lemma_map_size, lemma_set_disjoint_lens, lemma_len_subset};

verus! {

/// Entry `(r, c)` of a row-major boolean matrix of width `w`.
pub open spec fn cell(m: Seq<bool>, w: int, r: int, c: int) -> bool {
    m[r * w + c]
}

/// Distinct cells of a row-major matrix sit at distinct positions.
pub proof fn lemma_cell_pos(w: int, r1: int, c1: int, r2: int, c2: int)
    requires
        0 <= c1 < w,
        0 <= c2 < w,
        0 <= r1,
        0 <= r2,
    ensures
        (r1 * w + c1 == r2 * w + c2) <==> (r1 == r2 && c1 == c2),
{
    if r1 < r2 {
        assert(r1 * w + w <= r2 * w) by (nonlinear_arith)
            requires
                r1 < r2,
                0 <= w,
        ;
    } else if r2 < r1 {
        assert(r2 * w + w <= r1 * w) by (nonlinear_arith)
            requires
                r2 < r1,
                0 <= w,
        ;
    }
}

/// Setting one cell of a matrix to `true` changes that cell only.
pub proof fn lemma_cell_set(m: Seq<bool>, w: int, h: int, r: int, c: int)
    requires
        m.len() == h * w,
        0 <= r < h,
        0 <= c < w,
    ensures
        r * w + c < h * w,
        forall|r2: int, c2: int|
            0 <= r2 < h && 0 <= c2 < w ==> #[trigger] cell(m.update(r * w + c, true), w, r2, c2) == (
            cell(m, w, r2, c2) || (r2 == r && c2 == c)),
{
    lemma_cell_in(w, h, r, c);
    assert forall|r2: int, c2: int| 0 <= r2 < h && 0 <= c2 < w implies #[trigger] cell(
        m.update(r * w + c, true),
        w,
        r2,
        c2,
    ) == (cell(m, w, r2, c2) || (r2 == r && c2 == c)) by {
        lemma_cell_pos(w, r, c, r2, c2);
        lemma_cell_in(w, h, r2, c2);
    }
}

/// A cell inside the matrix bounds sits inside the flat sequence.
pub proof fn lemma_cell_in(w: int, h: int, r: int, c: int)
    requires
        0 <= r < h,
        0 <= c < w,
    ensures
        0 <= r * w + c < h * w,
{
    assert(0 <= r * w + c < h * w) by (nonlinear_arith)
        requires
            0 <= r < h,
            0 <= c < w,
    ;
}

/// A position inside a `h` by `w` matrix splits into its row and column.
pub proof fn lemma_index_split(i: int, w: int, h: int)
    requires
        0 <= i < h * w,
        w > 0,
    ensures
        0 <= i / w < h,
        0 <= i % w < w,
        i == (i / w) * w + i % w,
{
    vstd::arithmetic::div_mod::lemma_fundamental_div_mod(i, w);
    vstd::arithmetic::div_mod::lemma_mod_pos_bound(i, w);
    vstd::arithmetic::div_mod::lemma_div_pos_is_pos(i, w);
    let q = i / w;
    let r = i % w;
    assert(q * w == w * q) by (nonlinear_arith);
    assert(q < h) by (nonlinear_arith)
        requires
            i == q * w + r,
            0 <= r,
            i < h * w,
            w > 0,
    ;
}

/// Number of `true` entries.
pub open spec fn count_true(s: Seq<bool>) -> nat
    decreases s.len(),
{
    if s.len() == 0 {
        0
    } else {
        count_true(s.drop_last()) + if s.last() {
            1nat
        } else {
            0nat
        }
    }
}

/// Pointwise implication between two boolean sequences of the same length.
pub open spec fn le_bits(a: Seq<bool>, b: Seq<bool>) -> bool {
    a.len() == b.len() && forall|i: int| 0 <= i < a.len() && #[trigger] a[i] ==> b[i]
}

/// A sequence has at most as many `true` entries as its length.
pub proof fn lemma_count_bound(s: Seq<bool>)
    ensures
        count_true(s) <= s.len(),
    decreases s.len(),
{
    if s.len() > 0 {
        lemma_count_bound(s.drop_last());
    }
}

/// Turning one `false` entry to `true` adds one to the count.
pub proof fn lemma_count_set(s: Seq<bool>, i: int)
    requires
        0 <= i < s.len(),
        !s[i],
    ensures
        count_true(s.update(i, true)) == count_true(s) + 1,
    decreases s.len(),
{
    let t = s.update(i, true);
    if i == s.len() - 1 {
        assert(t.drop_last() =~= s.drop_last());
    } else {
        assert(t.drop_last() =~= s.drop_last().update(i, true));
        lemma_count_set(s.drop_last(), i);
    }
}

/// A vector of `n` copies of `false`.
pub fn falses(n: usize) -> (v: Vec<bool>)
    ensures
        v@.len() == n,
        forall|i: int| 0 <= i < n ==> !#[trigger] v@[i],
{
    let mut v: Vec<bool> = Vec::new();
    let mut k: usize = 0;
    while k < n
        invariant
            k <= n,
            v@.len() == k,
            forall|i: int| 0 <= i < k ==> !#[trigger] v@[i],
        decreases n - k,
    {
        v.push(false);
        k = k + 1;
    }
    v
}


/// Two to the power `n`.
pub open spec fn two_pow(n: nat) -> nat
    decreases n,
{
    if n == 0 {
        1
    } else {
        2 * two_pow((n - 1) as nat)
    }
}

/// All boolean sequences of length `n`.
pub open spec fn bool_seqs(n: nat) -> Set<Seq<bool>> {
    Set::new(|s: Seq<bool>| s.len() == n)
}

/// There are `2^n` boolean sequences of length `n`.
pub proof fn lemma_bool_seqs(n: nat)
    ensures
        bool_seqs(n).finite(),
        bool_seqs(n).len() == two_pow(n),
    decreases n,
{
    if n == 0 {
        assert(bool_seqs(0) =~= set![Seq::<bool>::empty()]) by {
            assert forall|s: Seq<bool>| bool_seqs(0).contains(s) implies s == Seq::<bool>::empty() by {
                assert(s =~= Seq::<bool>::empty());
            }
        }
        assert(set![Seq::<bool>::empty()].len() == 1);
    } else {
        let m = (n - 1) as nat;
        lemma_bool_seqs(m);
        let prev = bool_seqs(m);
        let f0 = |s: Seq<bool>| s.push(false);
        let f1 = |s: Seq<bool>| s.push(true);
        let a = prev.map(f0);
        let b = prev.map(f1);
        assert(vstd::relations::injective_on(f0, prev)) by {
            assert forall|x: Seq<bool>, y: Seq<bool>| prev.contains(x) && prev.contains(y) && #[trigger] f0(x) == #[trigger] f0(y) implies x == y by {
                assert(x =~= f0(x).drop_last());
                assert(y =~= f0(y).drop_last());
            }
        }
        assert(vstd::relations::injective_on(f1, prev)) by {
            assert forall|x: Seq<bool>, y: Seq<bool>| prev.contains(x) && prev.contains(y) && #[trigger] f1(x) == #[trigger] f1(y) implies x == y by {
                assert(x =~= f1(x).drop_last());
                assert(y =~= f1(y).drop_last());
            }
        }
        lemma_map_size(prev, a, f0);
        lemma_map_size(prev, b, f1);
        assert(a.disjoint(b)) by {
            assert forall|s: Seq<bool>| a.contains(s) implies !b.contains(s) by {
                let x = choose|x: Seq<bool>| prev.contains(x) && f0(x) == s;
                if b.contains(s) {
                    let y = choose|y: Seq<bool>| prev.contains(y) && f1(y) == s;
                    assert(f0(x).last() == false);
                    assert(f1(y).last() == true);
                }
            }
        }
        assert(bool_seqs(n) =~= a + b) by {
            assert forall|s: Seq<bool>| #[trigger] bool_seqs(n).contains(s) implies (a + b).contains(s) by {
                let d = s.drop_last();
                assert(prev.contains(d));
                assert(s =~= d.push(s.last()));
                if s.last() {
                    assert(f1(d) == s);
                    assert(b.contains(s));
                } else {
                    assert(f0(d) == s);
                    assert(a.contains(s));
                }
            }
            assert forall|s: Seq<bool>| (a + b).contains(s) implies #[trigger] bool_seqs(n).contains(s) by {
                if a.contains(s) {
                    let x = choose|x: Seq<bool>| prev.contains(x) && f0(x) == s;
                } else {
                    let y = choose|y: Seq<bool>| prev.contains(y) && f1(y) == s;
                }
            }
        }
        lemma_set_disjoint_lens(a, b);
    }
}

/// Pairwise distinct boolean sequences of length `n` number at most `2^n`.
pub proof fn lemma_distinct_bound(ks: Seq<Seq<bool>>, n: nat)
    requires
        ks.no_duplicates(),
        forall|i: int| 0 <= i < ks.len() ==> (#[trigger] ks[i]).len() == n,
    ensures
        ks.len() <= two_pow(n),
{
    ks.unique_seq_to_set();
    lemma_bool_seqs(n);
    assert(ks.to_set().subset_of(bool_seqs(n))) by {
        assert forall|s: Seq<bool>| ks.to_set().contains(s) implies bool_seqs(n).contains(s) by {
            let i = choose|i: int| 0 <= i < ks.len() && ks[i] == s;
        }
    }
    lemma_len_subset(ks.to_set(), bool_seqs(n));
}

} // verus!
