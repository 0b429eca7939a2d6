//! The cache-index-major order of the lines of one area, as line numbers
//! relative to the area's first line.
//!
//! For an area of `n` lines and a cache of `l` sets, set `i` holds the lines
//! `i, i + l, i + 2l, ...` below `n`; the order lists set 0, then set 1, and
//! so on up to set `l - 1`.
use vstd::arithmetic::div_mod::*;
use vstd::prelude::*;
use vstd::set_lib::*;

verus! {

/// How many of the lines `0..n` fall in set `i` of `l` sets.
pub open spec fn set_len(n: int, l: int, i: int) -> int {
    if 0 <= i < n {
        (n - 1 - i) / l + 1
    } else {
        0
    }
}

/// The lines of set `i`, in increasing order.
pub open spec fn set_lines(n: int, l: int, i: int) -> Seq<int> {
    Seq::new(set_len(n, l, i) as nat, |j: int| i + j * l)
}

/// The lines of sets `i`, `i + 1`, ..., `l - 1`, one set after the other.
pub open spec fn sets_from(n: int, l: int, i: int) -> Seq<int>
    decreases l - i,
{
    if i < 0 || i >= l {
        Seq::empty()
    } else {
        set_lines(n, l, i) + sets_from(n, l, i + 1)
    }
}

/// The lines of sets `0`, ..., `k - 1`, one set after the other.
pub open spec fn sets_before(n: int, l: int, k: int) -> Seq<int>
    decreases k,
{
    if k <= 0 {
        Seq::empty()
    } else {
        sets_before(n, l, k - 1) + set_lines(n, l, k - 1)
    }
}

/// The position in the order at which set `k` begins.
pub open spec fn set_start(n: int, l: int, k: int) -> int
    decreases k,
{
    if k <= 0 {
        0
    } else {
        set_start(n, l, k - 1) + set_len(n, l, k - 1)
    }
}

/// The whole order: every line of an area of `n` lines, set by set.
pub open spec fn line_order(n: int, l: int) -> Seq<int> {
    sets_from(n, l, 0)
}

/// Line `i + j * l` lies in the area exactly when `j` counts fewer lines than
/// set `i` holds.
pub proof fn lemma_set_len(n: int, l: int, i: int, j: int)
    requires
        l > 0,
        0 <= i < l,
        j >= 0,
    ensures
        set_len(n, l, i) >= 0,
        (j < set_len(n, l, i)) == (i + j * l < n),
{
    if 0 <= i < n {
        let x = n - 1 - i;
        lemma_fundamental_div_mod(x, l);
        let q = x / l;
        let r = x % l;
        assert(q >= 0) by {
            lemma_div_pos_is_pos(x, l);
        }
        if j <= q {
            assert(j * l <= q * l) by (nonlinear_arith)
                requires
                    j <= q,
                    l > 0,
            ;
            assert(q * l == l * q) by (nonlinear_arith);
        } else {
            assert(j * l >= (q + 1) * l) by (nonlinear_arith)
                requires
                    j >= q + 1,
                    l > 0,
            ;
            assert((q + 1) * l == l * q + l) by (nonlinear_arith);
        }
    } else {
        assert(j * l >= 0) by (nonlinear_arith)
            requires
                j >= 0,
                l > 0,
        ;
    }
}

/// Line `i + j * l`, with `i` below `l`, falls in set `i`.
pub proof fn lemma_line_set(l: int, i: int, j: int)
    requires
        l > 0,
        0 <= i < l,
    ensures
        (i + j * l) % l == i,
        (i + j * l) / l == j,
{
    lemma_mod_multiples_vanish(j, i, l);
    assert(l * j == j * l) by (nonlinear_arith);
    lemma_small_mod(i as nat, l as nat);
    lemma_fundamental_div_mod(i + j * l, l);
    let q = (i + j * l) / l;
    assert(l * q + i == i + j * l);
    assert(l * (q - j) == 0) by (nonlinear_arith)
        requires
            l * q + i == i + j * l,
    ;
    assert(q - j == 0) by (nonlinear_arith)
        requires
            l * (q - j) == 0,
            l > 0,
    ;
}

/// What `sets_from(n, l, i)` holds: each line below `n` whose set is `i` or
/// later, once.
pub proof fn lemma_sets_from(n: int, l: int, i: int)
    requires
        l > 0,
        n >= 0,
        0 <= i <= l,
    ensures
        forall|p: int|
            0 <= p < sets_from(n, l, i).len() ==> 0 <= #[trigger] sets_from(n, l, i)[p] < n
                && sets_from(n, l, i)[p] % l >= i,
        forall|k: int| 0 <= k < n && k % l >= i ==> #[trigger] sets_from(n, l, i).contains(k),
        sets_from(n, l, i).no_duplicates(),
    decreases l - i,
{
    if i < l {
        lemma_sets_from(n, l, i + 1);
        let head = set_lines(n, l, i);
        let rest = sets_from(n, l, i + 1);
        assert(sets_from(n, l, i) == head + rest);
        assert forall|j: int| 0 <= j < head.len() implies 0 <= #[trigger] head[j] < n && head[j]
            % l == i by {
            lemma_set_len(n, l, i, j);
            lemma_line_set(l, i, j);
            assert(j * l >= 0) by (nonlinear_arith)
                requires
                    j >= 0,
                    l > 0,
            ;
        }
        assert forall|k: int| 0 <= k < n && k % l >= i implies #[trigger] sets_from(
            n,
            l,
            i,
        ).contains(k) by {
            if k % l == i {
                let j = k / l;
                lemma_fundamental_div_mod(k, l);
                assert(l * j == j * l) by (nonlinear_arith);
                assert(j >= 0) by {
                    lemma_div_pos_is_pos(k, l);
                }
                lemma_set_len(n, l, i, j);
                assert(head[j] == k);
                assert(sets_from(n, l, i)[j] == k);
            } else {
                assert(rest.contains(k));
                let p = choose|p: int| 0 <= p < rest.len() && rest[p] == k;
                assert(sets_from(n, l, i)[head.len() + p] == k);
            }
        }
        assert forall|a: int, b: int|
            0 <= a < sets_from(n, l, i).len() && 0 <= b < sets_from(n, l, i).len() && a
                != b implies sets_from(n, l, i)[a] != sets_from(n, l, i)[b] by {
            let s = sets_from(n, l, i);
            if a < head.len() && b < head.len() {
                assert(a * l != b * l) by (nonlinear_arith)
                    requires
                        a != b,
                        l > 0,
                ;
            } else if a < head.len() {
                lemma_line_set(l, i, a);
                assert(s[b] == rest[b - head.len()]);
            } else if b < head.len() {
                lemma_line_set(l, i, b);
                assert(s[a] == rest[a - head.len()]);
            } else {
                assert(s[a] == rest[a - head.len()]);
                assert(s[b] == rest[b - head.len()]);
            }
        }
    } else {
        assert forall|k: int| 0 <= k < n && k % l >= i implies #[trigger] sets_from(
            n,
            l,
            i,
        ).contains(k) by {
            lemma_mod_bound(k, l);
        }
    }
}

/// Sets numbered `n` or more hold none of the lines `0..n`.
pub proof fn lemma_sets_past_end(n: int, l: int, i: int)
    requires
        l > 0,
        0 <= n <= i,
    ensures
        sets_from(n, l, i) == Seq::<int>::empty(),
    decreases l - i,
{
    if i < l {
        lemma_sets_past_end(n, l, i + 1);
        assert(set_lines(n, l, i) =~= Seq::<int>::empty());
    }
}

/// The order splits, at any set `k`, into the sets before `k` and the sets
/// from `k` on; the first part is `set_start(n, l, k)` long.
pub proof fn lemma_split_at_set(n: int, l: int, k: int)
    requires
        l > 0,
        0 <= k <= l,
    ensures
        line_order(n, l) == sets_before(n, l, k) + sets_from(n, l, k),
        sets_before(n, l, k).len() == set_start(n, l, k),
    decreases k,
{
    if k > 0 {
        lemma_split_at_set(n, l, k - 1);
        lemma_set_len(n, l, k - 1, 0);
        assert(sets_from(n, l, k - 1) == set_lines(n, l, k - 1) + sets_from(n, l, k));
        assert(line_order(n, l) == sets_before(n, l, k) + sets_from(n, l, k));
    }
}

/// The order lists every line `0..n` exactly once, and nothing else.
pub proof fn lemma_line_order(n: int, l: int)
    requires
        l > 0,
        n >= 0,
    ensures
        forall|p: int|
            0 <= p < line_order(n, l).len() ==> 0 <= #[trigger] line_order(n, l)[p] < n,
        forall|k: int| 0 <= k < n ==> #[trigger] line_order(n, l).contains(k),
        line_order(n, l).no_duplicates(),
        line_order(n, l).len() == n,
{
    lemma_sets_from(n, l, 0);
    let s = line_order(n, l);
    assert forall|k: int| 0 <= k < n implies #[trigger] s.contains(k) by {
        lemma_mod_bound(k, l);
    }
    assert(s.to_set() =~= set_int_range(0, n));
    s.unique_seq_to_set();
    lemma_int_range(0, n);
}

/// Within set `k`, the entry at position `set_start(n, l, k) + j` of the
/// order is line `k + j * l`.
pub proof fn lemma_order_in_set(n: int, l: int, k: int, j: int)
    requires
        l > 0,
        0 <= k < l,
        0 <= j < set_len(n, l, k),
    ensures
        0 <= set_start(n, l, k),
        set_start(n, l, k) + j < line_order(n, l).len(),
        line_order(n, l)[set_start(n, l, k) + j] == k + j * l,
{
    lemma_split_at_set(n, l, k);
    assert(sets_from(n, l, k) == set_lines(n, l, k) + sets_from(n, l, k + 1));
}

/// The sets together fill the whole order.
pub proof fn lemma_set_start_end(n: int, l: int)
    requires
        l > 0,
        n >= 0,
    ensures
        set_start(n, l, l) == n,
{
    lemma_split_at_set(n, l, l);
    lemma_line_order(n, l);
    assert(sets_from(n, l, l) == Seq::<int>::empty());
}

/// Set starts never go down, and when the area has at least as many lines as
/// the cache has sets, every set holds a line, so they strictly go up.
pub proof fn lemma_set_start_grows(n: int, l: int, k: int)
    requires
        l > 0,
        0 <= k < l,
    ensures
        set_start(n, l, k) <= set_start(n, l, k + 1),
        n >= l ==> set_start(n, l, k) < set_start(n, l, k + 1),
{
    lemma_set_len(n, l, k, 0);
}

} // verus!
