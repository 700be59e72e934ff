//! Why the enumeration never hands out an ordering twice.
//!
//! The enumeration of the orderings of `0..n` is made of blocks. A block of
//! size `m` takes `m! - 1` steps, moves the first `m` entries only, and shows
//! every arrangement of them once. A block of size `m + 1` is `m + 1` blocks of
//! size `m`, called rounds here, with one step between each two that exchanges
//! the entry at `m` with one of the first `m`. Every round has another entry at
//! `m`, so no ordering of one round comes again in another.
//!
//! To know which entry stands at `m` in each round, one has to know where a
//! block leaves the entries it moves: `origin` says so, and `round_origin`
//! says where the entries stand when a round starts.

use crate::permuter::{
    advance, exchanged, factorial, is_permutation, lemma_advance, lemma_factorial_positive,
    lemma_orderings_are_permutations, orderings, partner, rewound, run, start, valid, Enumeration,
};
use vstd::prelude::*;

verus! {

/// The position in the first ordering of a block of size `size` of the entry
/// that stands at `k` in its last ordering. A block of odd size exchanges its
/// first and its last entry. One of even size leaves its last entry first, its
/// first two entries near the end, and moves the others one place down.
spec fn origin(size: int, k: int) -> int {
    if k >= size || k < 0 {
        k
    } else if size % 2 == 1 {
        if k == 0 {
            size - 1
        } else if k == size - 1 {
            0
        } else {
            k
        }
    } else {
        if k == 0 {
            size - 1
        } else if k == size - 1 {
            size - 2
        } else if k == size - 2 {
            1
        } else if k == size - 3 {
            0
        } else {
            k + 1
        }
    }
}

/// `k`, with `i` and `j` taken for one another.
spec fn exchange_at(i: int, j: int, k: int) -> int {
    if k == i {
        j
    } else if k == j {
        i
    } else {
        k
    }
}

/// For even `m`, the positions `0..=m` in the order in which their entries
/// come to stand at `m`, round after round.
spec fn cycle_at(m: int, i: int) -> int {
    if i == 0 {
        m
    } else if i == 1 {
        m - 1
    } else if i == 2 {
        m - 2
    } else if i == m {
        0
    } else {
        i - 2
    }
}

/// The place of position `k` in that order.
spec fn cycle_place(m: int, k: int) -> int {
    if k == m {
        0
    } else if k == m - 1 {
        1
    } else if k == m - 2 {
        2
    } else if k == 0 {
        m
    } else {
        k + 2
    }
}

/// The position in the first ordering of a block of size `m + 1` of the entry
/// that stands at `k` when round `s` of the block starts.
spec fn round_origin(m: int, s: int, k: int) -> int {
    if k > m || k < 0 || s <= 0 {
        k
    } else if m % 2 == 0 {
        let place = cycle_place(m, k) + s;
        cycle_at(
            m,
            if place > m {
                place - (m + 1)
            } else {
                place
            },
        )
    } else {
        if k == m {
            if s == 1 {
                0
            } else if s == m {
                m - 1
            } else {
                m - s
            }
        } else if k == 0 {
            if s == m {
                1
            } else if s % 2 == 1 {
                m - 1
            } else {
                m
            }
        } else if k == m - 1 {
            if s % 2 == 1 {
                m
            } else {
                m - 1
            }
        } else if k < m - s {
            k
        } else if k == m - 2 {
            0
        } else {
            k + 1
        }
    }
}

/// Where a block leaves its entries, it took them from within the block.
proof fn lemma_origin_range(size: int, k: int)
    requires
        2 <= size,
        0 <= k < size,
    ensures
        0 <= origin(size, k) < size,
{
}

/// When a round starts, the entries of the block stand within the block.
proof fn lemma_round_origin_range(m: int, s: int, k: int)
    requires
        2 <= m,
        0 <= s <= m,
        0 <= k <= m,
    ensures
        0 <= round_origin(m, s, k) <= m,
{
}

/// A round starts from where the round before it ended, with the entry at `m`
/// exchanged with its partner.
proof fn lemma_round_origin_step(m: int, s: int, k: int)
    requires
        2 <= m,
        1 <= s <= m,
        0 <= k,
    ensures
        round_origin(m, s, k) == round_origin(
            m,
            s - 1,
            origin(m, exchange_at(m, partner(m, m - s), k)),
        ),
{
}

/// The last round leaves the entries where a block of size `m + 1` is to
/// leave them.
proof fn lemma_round_origin_last(m: int, k: int)
    requires
        2 <= m,
        0 <= k,
    ensures
        round_origin(m, m, origin(m, k)) == origin(m + 1, k),
{
}

/// No two rounds have the same entry at `m`.
proof fn lemma_round_origin_top(m: int, s: int, t: int)
    requires
        2 <= m,
        0 <= s < t <= m,
    ensures
        round_origin(m, s, m) != round_origin(m, t, m),
{
}

/// Steps add up: `b` steps after `a` steps are `a + b` steps.
pub proof fn lemma_run_add(e: Enumeration, a: nat, b: nat)
    ensures
        run(e, a + b) == run(run(e, a), b),
    decreases b,
{
    if b > 0 {
        lemma_run_add(e, a, (b - 1) as nat);
        assert(run(e, a + b) == advance(run(e, (a + b - 1) as nat)));
    }
}

/// A block of size `size` may start at `e`: the cursor is at 1 and every
/// control entry below `size` holds its index.
spec fn block_start(e: Enumeration, n: nat, size: int) -> bool {
    &&& valid(e, n)
    &&& e.cursor == 1
    &&& forall|k: int| 1 <= k < size ==> (#[trigger] e.control[k]) == k
}

/// `last` is where the block of size `size` that starts at `e` ends: the
/// entries have gone where `origin` says, and the control array is that of
/// `e`, rewound from `size`.
spec fn block_end(e: Enumeration, last: Enumeration, n: nat, size: int) -> bool {
    &&& valid(last, n)
    &&& (last.control, last.cursor) == rewound(e.control, size)
    &&& forall|k: int| 0 <= k < n ==> (#[trigger] last.order[k]) == e.order[origin(size, k)]
}

/// `inner` has every entry from `size` on where `e` has it.
spec fn block_keeps(e: Enumeration, inner: Enumeration, n: nat, size: int) -> bool {
    &&& inner.order.len() == n
    &&& forall|k: int| size <= k < n ==> (#[trigger] inner.order[k]) == e.order[k]
}

/// A step count within a block of size `m + 1` falls into one of its rounds.
proof fn lemma_round_of(e: Enumeration, m: nat, u: nat)
    requires
        u < factorial(m + 1),
    ensures
        ({
            let f = factorial(m);
            &&& f >= 1
            &&& u / f <= m
            &&& u % f < f
            &&& u == (u / f) * f + u % f
            &&& run(e, u) == run(run(e, (u / f) * f), u % f)
        }),
{
    let f = factorial(m);
    lemma_factorial_positive(m);
    assert(factorial(m + 1) == (m + 1) * f);
    let s = u / f;
    let r = u % f;
    assert(u == s * f + r && 0 <= r < f && 0 <= s) by (nonlinear_arith)
        requires
            f >= 1,
            s == u / f,
            r == u % f,
    ;
    assert(s <= m) by (nonlinear_arith)
        requires
            u == s * f + r,
            0 <= r,
            f >= 1,
            u < (m + 1) * f,
    ;
    assert(s * f >= 0) by (nonlinear_arith)
        requires
            s >= 0,
            f >= 1,
    ;
    lemma_run_add(e, (s * f) as nat, r);
}

/// The block of size 2: one step, which exchanges the first two entries.
proof fn lemma_block_of_two(e: Enumeration, n: nat)
    requires
        2 <= n,
        block_start(e, n, 2),
    ensures
        block_end(e, run(e, 1), n, 2),
        block_keeps(e, run(e, 0), n, 2),
        block_keeps(e, run(e, 1), n, 2),
        run(e, 0).order != run(e, 1).order,
{
    let last = advance(e);
    assert(run(e, 1) == advance(run(e, 0)));
    lemma_advance(e, n);
    let counted = e.control.update(1, 0usize);
    assert(counted.update(1, 1usize) == e.control);
    assert(rewound(counted, 1) == rewound(e.control, 2));
    assert(last.order == exchanged(e.order, 1, 0));
    assert(e.order[0] != e.order[1]);
    assert(last.order[0] == e.order[1]);
}

/// The control array at the end of a round that is not the last is the one
/// at its start: the entry at `m` has not come down to zero.
proof fn lemma_round_end_control(control: Seq<usize>, m: int)
    requires
        0 <= m < control.len(),
        control[m] != 0,
    ensures
        rewound(control, m) == (control, m),
{
}

/// Where round `s` of the block of size `m + 1` that starts at `e` starts: a
/// block of size `m` may start there, the control entry at `m` has come down
/// by `s`, and the entries stand where `round_origin` says.
proof fn lemma_round_start(e: Enumeration, n: nat, m: nat, s: nat)
    requires
        2 <= m < n,
        block_start(e, n, m as int + 1),
        s <= m,
    ensures
        ({
            let first = run(e, s * factorial(m));
            &&& block_start(first, n, m as int)
            &&& first.control == e.control.update(m as int, (m - s) as usize)
            &&& first.order.len() == n
            &&& forall|k: int|
                0 <= k < n ==> (#[trigger] first.order[k]) == e.order[round_origin(
                    m as int,
                    s as int,
                    k,
                )]
        }),
    decreases 2 * m + 1, s,
{
    let f = factorial(m);
    lemma_factorial_positive(m);
    if s == 0 {
        assert(s * f == 0) by (nonlinear_arith)
            requires
                s == 0,
        ;
        assert(e.control.update(m as int, m as usize) == e.control);
    } else {
        let before = ((s - 1) * f) as nat;
        assert((s - 1) * f >= 0 && s * f == (s - 1) * f + (f - 1) + 1) by (nonlinear_arith)
            requires
                s >= 1,
                f >= 1,
        ;
        lemma_round_start(e, n, m, (s - 1) as nat);
        let earlier = run(e, before);
        lemma_block(earlier, n, m as int);
        let last = run(earlier, (f - 1) as nat);
        lemma_run_add(e, before, (f - 1) as nat);
        assert(run(e, s * f) == advance(run(e, (s * f - 1) as nat)));
        assert(run(e, s * f) == advance(last));
        lemma_round_end_control(earlier.control, m as int);
        assert(last.control == earlier.control);
        assert(last.cursor == m);
        lemma_advance(last, n);
        let first = advance(last);
        let digit = (m - s) as usize;
        let counted = last.control.update(m as int, digit);
        assert(counted[1] == 1);
        lemma_round_end_control(counted, 1);
        assert(first.control == counted);
        assert(first.cursor == 1);
        assert(counted == e.control.update(m as int, digit));
        let j = partner(m as int, m - s);
        assert(first.order == exchanged(last.order, m as int, j));
        assert forall|k: int| 0 <= k < n implies (#[trigger] first.order[k]) == e.order[round_origin(
            m as int,
            s as int,
            k,
        )] by {
            let taken = exchange_at(m as int, j, k);
            assert(first.order[k] == last.order[taken]);
            let from = origin(m as int, taken);
            assert(last.order[taken] == earlier.order[from]);
            if taken < m {
                lemma_origin_range(m as int, taken);
            }
            assert(earlier.order[from] == e.order[round_origin(m as int, s - 1, from)]);
            lemma_round_origin_step(m as int, s as int, k);
        }
    }
}

/// The block of size `size` that starts at `e`: it ends after `size! - 1`
/// steps where `block_end` says, keeps every entry from `size` on in its
/// place, and shows no ordering twice.
proof fn lemma_block(e: Enumeration, n: nat, size: int)
    requires
        2 <= size <= n,
        block_start(e, n, size),
    ensures
        block_end(e, run(e, (factorial(size as nat) - 1) as nat), n, size),
        forall|u: nat| u < factorial(size as nat) ==> block_keeps(e, #[trigger] run(e, u), n, size),
        forall|u: nat, v: nat|
            u < v < factorial(size as nat) ==> (#[trigger] run(e, u)).order != (#[trigger] run(
                e,
                v,
            )).order,
    decreases 2 * size, 0int,
{
    if size == 2 {
        assert(factorial(2) == 2) by {
            reveal_with_fuel(factorial, 3);
        }
        lemma_block_of_two(e, n);
    } else {
        let m = (size - 1) as nat;
        let f = factorial(m);
        lemma_factorial_positive(m);
        assert(factorial(size as nat) == size * f);
        // the end of the block is the end of its last round
        lemma_round_start(e, n, m, m);
        let first = run(e, m * f);
        lemma_block(first, n, m as int);
        let last = run(first, (f - 1) as nat);
        assert(m * f >= 0 && m * f + (f - 1) == size * f - 1) by (nonlinear_arith)
            requires
                size == m + 1,
                f >= 1,
                m >= 0,
        ;
        lemma_run_add(e, m * f, (f - 1) as nat);
        assert(last == run(e, (factorial(size as nat) - 1) as nat));
        assert(first.control.update(m as int, m as usize) == e.control);
        assert(rewound(first.control, m as int) == rewound(e.control, size));
        assert forall|k: int| 0 <= k < n implies (#[trigger] last.order[k]) == e.order[origin(
            size,
            k,
        )] by {
            let from = origin(m as int, k);
            if k < m {
                lemma_origin_range(m as int, k);
            }
            assert(last.order[k] == first.order[from]);
            assert(first.order[from] == e.order[round_origin(m as int, m as int, from)]);
            lemma_round_origin_last(m as int, k);
        }
        // every state of the block lies in one of the rounds
        assert forall|u: nat| u < factorial(size as nat) implies block_keeps(
            e,
            #[trigger] run(e, u),
            n,
            size,
        ) by {
            lemma_block_member(e, n, m, u);
        }
        assert forall|u: nat, v: nat| u < v < factorial(size as nat) implies (#[trigger] run(
            e,
            u,
        )).order != (#[trigger] run(e, v)).order by {
            lemma_block_member(e, n, m, u);
            lemma_block_member(e, n, m, v);
            lemma_round_of(e, m, u);
            lemma_round_of(e, m, v);
            let su = u / f;
            let sv = v / f;
            if su == sv {
                let round = run(e, su * f);
                lemma_round_start(e, n, m, su);
                lemma_block(round, n, m as int);
                assert(u % f < v % f);
                assert(run(round, u % f).order != run(round, v % f).order);
            } else {
                let top_u = round_origin(m as int, su as int, m as int);
                let top_v = round_origin(m as int, sv as int, m as int);
                lemma_round_origin_range(m as int, su as int, m as int);
                lemma_round_origin_range(m as int, sv as int, m as int);
                if su < sv {
                    lemma_round_origin_top(m as int, su as int, sv as int);
                    assert(e.order[top_u] != e.order[top_v]);
                } else {
                    lemma_round_origin_top(m as int, sv as int, su as int);
                    assert(e.order[top_v] != e.order[top_u]);
                }
                assert(run(e, u).order[m as int] == e.order[top_u]);
                assert(run(e, v).order[m as int] == e.order[top_v]);
            }
        }
    }
}

/// A state of the block of size `m + 1` that starts at `e`, `u` steps on,
/// keeps every entry after `m` in its place, and has at `m` the entry with
/// which its round started.
proof fn lemma_block_member(e: Enumeration, n: nat, m: nat, u: nat)
    requires
        2 <= m < n,
        block_start(e, n, m as int + 1),
        u < factorial(m + 1),
    ensures
        block_keeps(e, run(e, u), n, m as int + 1),
        run(e, u).order[m as int] == e.order[round_origin(
            m as int,
            (u / factorial(m)) as int,
            m as int,
        )],
    decreases 2 * m + 1, m + 1,
{
    let f = factorial(m);
    lemma_round_of(e, m, u);
    let s = u / f;
    let r = u % f;
    lemma_round_start(e, n, m, s);
    let round = run(e, s * f);
    lemma_block(round, n, m as int);
    let inner = run(round, r);
    assert(block_keeps(round, inner, n, m as int));
    assert(inner.order[m as int] == round.order[m as int]);
    assert forall|k: int| m + 1 <= k < n implies (#[trigger] run(e, u).order[k]) == e.order[k] by {
        assert(inner.order[k] == round.order[k]);
        assert(round.order[k] == e.order[round_origin(m as int, s as int, k)]);
    }
}

/// The enumeration hands out no ordering twice.
pub proof fn lemma_orderings_distinct(n: nat, a: int, b: int)
    requires
        n <= usize::MAX,
        0 <= a < b < orderings(n).len(),
    ensures
        orderings(n)[a] != orderings(n)[b],
{
    if n >= 2 {
        let e = start(n);
        assert(is_permutation(e.order, n));
        assert(block_start(e, n, n as int));
        lemma_block(e, n, n as int);
        assert(run(e, a as nat).order != run(e, b as nat).order);
    } else {
        assert(factorial(1) == 1) by {
            assert(factorial(0) == 1);
        }
    }
}

/// The enumeration of the orderings of `0..n`, for `n` of at least 1, hands
/// out `n!` orderings, each of them a permutation of `0..n`, and none of them
/// twice.
pub proof fn lemma_orderings_exact(n: nat)
    requires
        1 <= n <= usize::MAX,
    ensures
        orderings(n).len() == factorial(n),
        forall|k: int| 0 <= k < orderings(n).len() ==> is_permutation(#[trigger] orderings(n)[k], n),
        forall|a: int, b: int|
            0 <= a < b < orderings(n).len() ==> (#[trigger] orderings(n)[a]) != (
            #[trigger] orderings(n)[b]),
{
    assert forall|k: int| 0 <= k < orderings(n).len() implies is_permutation(
        #[trigger] orderings(n)[k],
        n,
    ) by {
        lemma_orderings_are_permutations(n, k);
    }
    assert forall|a: int, b: int| 0 <= a < b < orderings(n).len() implies (
    #[trigger] orderings(n)[a]) != (#[trigger] orderings(n)[b]) by {
        lemma_orderings_distinct(n, a, b);
    }
}

} // verus!
