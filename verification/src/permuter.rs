//! Every order in which a number of attackers can attack.
//!
//! The orders are enumerated by positions exchanged: each ordering arises from
//! the one before it by exchanging two of its entries. A control array counts
//! down in the factorial number system and tells which two.

use vstd::prelude::*;

verus! {

/// The product of the whole numbers from 1 to `n`.
pub open spec fn factorial(n: nat) -> nat
    decreases n,
{
    if n == 0 {
        1
    } else {
        n * factorial((n - 1) as nat)
    }
}

/// The state of an enumeration: the current ordering, the control array, and
/// the cursor, the position in the control array that is to count down next.
pub ghost struct Enumeration {
    pub order: Seq<usize>,
    pub control: Seq<usize>,
    pub cursor: int,
}

/// The state in which the enumeration of the orderings of `0..n` starts: the
/// ordering is `0, 1, .., n - 1`, and each entry of the control array holds
/// its own index.
pub open spec fn start(n: nat) -> Enumeration {
    Enumeration {
        order: Seq::new(n, |k: int| k as usize),
        control: Seq::new(n + 1, |k: int| k as usize),
        cursor: 1,
    }
}

/// `order` with the entries at `i` and `j` exchanged.
pub open spec fn exchanged(order: Seq<usize>, i: int, j: int) -> Seq<usize> {
    order.update(i, order[j]).update(j, order[i])
}

/// The control array and cursor, taken from `cursor` upwards past every entry
/// that has counted down to zero; such an entry starts again at its index.
pub open spec fn rewound(control: Seq<usize>, cursor: int) -> (Seq<usize>, int)
    decreases control.len() - cursor,
{
    if 0 <= cursor < control.len() && control[cursor] == 0 {
        rewound(control.update(cursor, cursor as usize), cursor + 1)
    } else {
        (control, cursor)
    }
}

/// The position with which the cursor's position is exchanged when the
/// control entry there has come down to `digit`: at an odd cursor the
/// position `digit`, at an even one the first position.
pub open spec fn partner(cursor: int, digit: int) -> int {
    if cursor % 2 == 1 {
        digit
    } else {
        0
    }
}

/// The state after the next step: the control entry at the cursor counts down
/// by one, the ordering has the cursor's position exchanged with its partner,
/// and the cursor starts again from 1.
pub open spec fn advance(e: Enumeration) -> Enumeration {
    let digit = e.control[e.cursor] - 1;
    let (control, cursor) = rewound(e.control.update(e.cursor, digit as usize), 1);
    Enumeration { order: exchanged(e.order, e.cursor, partner(e.cursor, digit)), control, cursor }
}

/// The state after `k` steps from the state `e`.
pub open spec fn run(e: Enumeration, k: nat) -> Enumeration
    decreases k,
{
    if k == 0 {
        e
    } else {
        advance(run(e, (k - 1) as nat))
    }
}

/// The state after `k` steps from the start.
pub open spec fn nth(n: nat, k: nat) -> Enumeration {
    run(start(n), k)
}

/// The orderings of `0..n` in the order of their enumeration: the ordering of
/// the start and of the state after each step, `n!` in all. Of nothing there
/// is no ordering.
pub open spec fn orderings(n: nat) -> Seq<Seq<usize>> {
    if n == 0 {
        Seq::empty()
    } else {
        Seq::new(factorial(n), |k: int| nth(n, k as nat).order)
    }
}

/// `order` holds each of `0..n` once.
pub open spec fn is_permutation(order: Seq<usize>, n: nat) -> bool {
    &&& order.len() == n
    &&& forall|i: int| 0 <= i < n ==> (#[trigger] order[i]) < n
    &&& forall|i: int, j: int| 0 <= i < j < n ==> (#[trigger] order[i]) != (#[trigger] order[j])
}

/// The steps that are left, read off the control array from `from` upwards:
/// the entry at `k` counts `k!` steps. The last entry is not counted.
pub open spec fn steps_left(control: Seq<usize>, from: int) -> int
    decreases control.len() - from,
{
    if 1 <= from < control.len() - 1 {
        control[from] * factorial(from as nat) + steps_left(control, from + 1)
    } else {
        0
    }
}

/// What holds of every state of the enumeration of the orderings of `0..n`.
pub open spec fn valid(e: Enumeration, n: nat) -> bool {
    &&& n >= 1
    &&& e.control.len() == n + 1
    &&& 1 <= e.cursor <= n
    &&& e.control[n as int] == n
    &&& e.control[e.cursor] >= 1
    &&& forall|k: int| 1 <= k < e.cursor ==> (#[trigger] e.control[k]) == k
    &&& forall|k: int| e.cursor <= k <= n ==> (#[trigger] e.control[k]) <= k
    &&& is_permutation(e.order, n)
}

/// Factorials are positive.
pub proof fn lemma_factorial_positive(n: nat)
    ensures
        factorial(n) >= 1,
    decreases n,
{
    if n > 0 {
        lemma_factorial_positive((n - 1) as nat);
        assert(n * factorial((n - 1) as nat) >= 1) by (nonlinear_arith)
            requires
                n >= 1,
                factorial((n - 1) as nat) >= 1,
        ;
    }
}

/// The count of steps left is never negative.
proof fn lemma_steps_left_nonnegative(control: Seq<usize>, from: int)
    ensures
        steps_left(control, from) >= 0,
    decreases control.len() - from,
{
    if 1 <= from < control.len() - 1 {
        lemma_steps_left_nonnegative(control, from + 1);
        assert(control[from] * factorial(from as nat) >= 0) by (nonlinear_arith)
            requires
                control[from] >= 0,
                factorial(from as nat) >= 0,
        ;
    }
}

/// `steps_left` looks at the control array from `from` upwards only.
proof fn lemma_steps_left_frame(a: Seq<usize>, b: Seq<usize>, from: int)
    requires
        a.len() == b.len(),
        1 <= from,
        forall|k: int| from <= k < a.len() - 1 ==> a[k] == b[k],
    ensures
        steps_left(a, from) == steps_left(b, from),
    decreases a.len() - from,
{
    if from < a.len() - 1 {
        lemma_steps_left_frame(a, b, from + 1);
    }
}

/// Entries that hold their own index, from `low` up to `high`, count
/// `high! - low!` steps.
proof fn lemma_steps_left_full(control: Seq<usize>, low: int, high: int)
    requires
        1 <= low <= high <= control.len() - 1,
        forall|k: int| low <= k < high ==> control[k] == k,
    ensures
        steps_left(control, low) + factorial(low as nat) == steps_left(control, high) + factorial(
            high as nat,
        ),
    decreases high - low,
{
    if low < high {
        lemma_steps_left_full(control, low + 1, high);
        let f = factorial(low as nat);
        assert(factorial((low + 1) as nat) == (low + 1) * f);
        assert(control[low] * f + f == (low + 1) * f) by (nonlinear_arith)
            requires
                control[low] == low,
        ;
    }
}

/// Rewinding from a cursor below which every entry holds its index keeps that
/// so, stops at an entry that is not zero, and loses no step.
proof fn lemma_rewound(control: Seq<usize>, cursor: int, n: nat)
    requires
        n >= 1,
        control.len() == n + 1,
        1 <= cursor <= n,
        control[n as int] == n,
        forall|k: int| 1 <= k < cursor ==> (#[trigger] control[k]) == k,
        forall|k: int| cursor <= k <= n ==> (#[trigger] control[k]) <= k,
    ensures
        ({
            let (rewound_control, stop) = rewound(control, cursor);
            &&& rewound_control.len() == n + 1
            &&& cursor <= stop <= n
            &&& rewound_control[n as int] == n
            &&& rewound_control[stop] >= 1
            &&& forall|k: int| 1 <= k < stop ==> (#[trigger] rewound_control[k]) == k
            &&& forall|k: int| stop <= k <= n ==> (#[trigger] rewound_control[k]) <= k
            &&& steps_left(rewound_control, stop) == steps_left(control, cursor)
        }),
    decreases n - cursor,
{
    if control[cursor] == 0 {
        let reset = control.update(cursor, cursor as usize);
        assert(cursor < n);
        lemma_rewound(reset, cursor + 1, n);
        lemma_steps_left_frame(control, reset, cursor + 1);
        assert(control[cursor] * factorial(cursor as nat) == 0) by (nonlinear_arith)
            requires
                control[cursor] == 0,
        ;
    }
}

/// Exchanging two entries of a permutation gives a permutation.
pub proof fn lemma_exchanged_permutation(order: Seq<usize>, n: nat, i: int, j: int)
    requires
        is_permutation(order, n),
        0 <= i < n,
        0 <= j < n,
    ensures
        is_permutation(exchanged(order, i, j), n),
{
    let result = exchanged(order, i, j);
    assert forall|a: int, b: int| 0 <= a < b < n implies (#[trigger] result[a]) != (
    #[trigger] result[b]) by {
        let source_a = if a == i { j } else if a == j { i } else { a };
        let source_b = if b == i { j } else if b == j { i } else { b };
        assert(result[a] == order[source_a]);
        assert(result[b] == order[source_b]);
        if source_a < source_b {
            assert(order[source_a] != order[source_b]);
        } else {
            assert(order[source_b] != order[source_a]);
        }
    }
}

/// A step from a valid state whose cursor is within the ordering leads to a
/// valid state with one step less left.
pub proof fn lemma_advance(e: Enumeration, n: nat)
    requires
        valid(e, n),
        e.cursor < n,
    ensures
        valid(advance(e), n),
        steps_left(advance(e).control, advance(e).cursor) + 1 == steps_left(e.control, e.cursor),
{
    let i = e.cursor;
    let digit = e.control[i] - 1;
    let counted = e.control.update(i, digit as usize);
    lemma_rewound(counted, 1, n);
    lemma_exchanged_permutation(e.order, n, i, partner(i, digit));
    // steps: with the entries below the cursor full, counting down by one at
    // the cursor takes exactly one step away
    lemma_steps_left_full(counted, 1, i);
    lemma_steps_left_frame(e.control, counted, i + 1);
    let f = factorial(i as nat);
    assert(e.control[i] * f == digit * f + f) by (nonlinear_arith)
        requires
            digit == e.control[i] - 1,
    ;
    assert(factorial(1) == 1) by {
        assert(factorial(0) == 1);
    }
}

/// Every state of the enumeration is valid, and after `k` steps `n! - 1 - k`
/// steps are left.
pub proof fn lemma_nth_valid(n: nat, k: nat)
    requires
        1 <= n <= usize::MAX,
        k < factorial(n),
    ensures
        valid(nth(n, k), n),
        steps_left(nth(n, k).control, nth(n, k).cursor) + k + 1 == factorial(n),
        (nth(n, k).cursor < n) == (k + 1 < factorial(n)),
    decreases k,
{
    if k == 0 {
        let e = start(n);
        lemma_steps_left_full(e.control, 1, n as int);
        assert(factorial(1) == 1) by {
            assert(factorial(0) == 1);
        }
    } else {
        lemma_nth_valid(n, (k - 1) as nat);
        lemma_advance(nth(n, (k - 1) as nat), n);
    }
    let e = nth(n, k);
    if e.cursor < n {
        lemma_factorial_positive(e.cursor as nat);
        lemma_steps_left_nonnegative(e.control, e.cursor + 1);
        assert(e.control[e.cursor] * factorial(e.cursor as nat) >= 1) by (nonlinear_arith)
            requires
                e.control[e.cursor] >= 1,
                factorial(e.cursor as nat) >= 1,
        ;
    }
}

/// The enumeration hands out `n!` orderings of `0..n`, and none of nothing.
pub proof fn lemma_orderings_count(n: nat)
    ensures
        orderings(n).len() == (if n == 0 {
            0
        } else {
            factorial(n)
        }),
{
}

/// Every ordering that the enumeration hands out is a permutation of `0..n`.
pub proof fn lemma_orderings_are_permutations(n: nat, k: int)
    requires
        n <= usize::MAX,
        0 <= k < orderings(n).len(),
    ensures
        is_permutation(orderings(n)[k], n),
{
    lemma_nth_valid(n, k as nat);
}

/// The first ordering is `0, 1, .., n - 1`, and each later one arises from
/// the one before it by the exchange of two different positions.
pub proof fn lemma_orderings_minimal_change(n: nat, k: int)
    requires
        n <= usize::MAX,
        0 <= k < orderings(n).len(),
    ensures
        k == 0 ==> orderings(n)[k] == Seq::new(n, |i: int| i as usize),
        k > 0 ==> exists|i: int, j: int|
            0 <= j < i < n && orderings(n)[k] == #[trigger] exchanged(orderings(n)[k - 1], i, j),
{
    if k > 0 {
        lemma_nth_valid(n, (k - 1) as nat);
        let e = nth(n, (k - 1) as nat);
        let i = e.cursor;
        let j = partner(i, e.control[i] - 1);
        assert(0 <= j < i < n);
        assert(orderings(n)[k] == exchanged(orderings(n)[k - 1], i, j));
    }
}

/// An enumerator of the orders of attack: it hands out every ordering of
/// `0..n` once, each as the positions of the attackers in the order in which
/// they attack.
pub struct AttackerPermuter {
    order: Vec<usize>,
    p: Vec<usize>,
    i: usize,
    n: usize,
    started: bool,
    handed_out: Ghost<nat>,
}

impl AttackerPermuter {
    /// How many attackers are ordered.
    pub closed spec fn count(&self) -> nat {
        self.n as nat
    }

    /// How many orderings have been handed out.
    pub closed spec fn produced(&self) -> nat {
        self.handed_out@
    }

    /// The state of the enumeration that the enumerator is in.
    closed spec fn state(&self) -> Enumeration {
        Enumeration { order: self.order@, control: self.p@, cursor: self.i as int }
    }

    /// The enumerator is in a state of its enumeration.
    pub closed spec fn wf(&self) -> bool {
        &&& self.n < usize::MAX
        &&& self.started == (self.handed_out@ > 0)
        &&& self.handed_out@ <= orderings(self.n as nat).len()
        &&& self.n > 0 ==> self.state() == nth(
            self.n as nat,
            if self.handed_out@ == 0 {
                0
            } else {
                (self.handed_out@ - 1) as nat
            },
        )
    }

    /// The orderings that are still to come, in the order in which they come.
    pub open spec fn upcoming(&self) -> Seq<Seq<usize>> {
        orderings(self.count()).skip(self.produced() as int)
    }

    /// Hands out the next ordering, or `None` when every ordering has been
    /// handed out.
    pub fn next(&mut self) -> (ordering: Option<Vec<usize>>)
        requires
            old(self).wf(),
        ensures
            final(self).wf(),
            final(self).count() == old(self).count(),
            match ordering {
                Some(order) => {
                    &&& old(self).upcoming().len() > 0
                    &&& order@ == old(self).upcoming()[0]
                    &&& final(self).produced() == old(self).produced() + 1
                },
                None => old(self).upcoming().len() == 0 && final(self).produced() == old(
                    self,
                ).produced(),
            },
    {
        if self.n == 0 {
            return None;
        }
        proof {
            lemma_factorial_positive(self.n as nat);
        }
        if !self.started {
            self.started = true;
            self.handed_out = Ghost(1);
            let first = self.order.clone();
            assert(first@ == self.order@);
            return Some(first);
        }
        proof {
            lemma_nth_valid(self.n as nat, (self.handed_out@ - 1) as nat);
        }
        if self.i >= self.n {
            return None;
        }
        let ghost before = self.state();
        let digit = self.p[self.i] - 1;
        self.p.set(self.i, digit);
        let j = if self.i % 2 == 1 { digit } else { 0 };
        let moved_down = self.order[j];
        let moved_up = self.order[self.i];
        self.order.set(self.i, moved_down);
        self.order.set(j, moved_up);
        let ghost counted = self.p@;
        proof {
            lemma_rewound(counted, 1, self.n as nat);
        }
        self.i = 1;
        while self.p[self.i] == 0
            invariant
                self.n == old(self).n,
                self.started,
                self.handed_out == old(self).handed_out,
                self.order@ == exchanged(before.order, before.cursor, j as int),
                self.p@.len() == self.n + 1,
                1 <= self.i <= self.n,
                self.p@[self.n as int] == self.n,
                rewound(self.p@, self.i as int) == rewound(counted, 1),
            decreases self.n - self.i,
        {
            self.p.set(self.i, self.i);
            self.i += 1;
        }
        proof {
            assert(self.state() == advance(before));
            lemma_nth_valid(self.n as nat, self.handed_out@);
        }
        self.handed_out = Ghost(self.handed_out@ + 1);
        let next = self.order.clone();
        assert(next@ == self.order@);
        Some(next)
    }
}

/// An enumerator of the orders of attack of `num_attackers` attackers, with
/// every ordering still to come.
pub fn attacker_permuatations(num_attackers: usize) -> (permuter: AttackerPermuter)
    requires
        num_attackers < usize::MAX,
    ensures
        permuter.wf(),
        permuter.count() == num_attackers,
        permuter.produced() == 0,
        permuter.upcoming() == orderings(num_attackers as nat),
{
    let mut order: Vec<usize> = Vec::new();
    let mut k: usize = 0;
    while k < num_attackers
        invariant
            k <= num_attackers,
            order@.len() == k,
            forall|m: int| 0 <= m < k ==> order@[m] == m,
        decreases num_attackers - k,
    {
        order.push(k);
        k += 1;
    }
    let mut p: Vec<usize> = Vec::new();
    let mut k: usize = 0;
    while k <= num_attackers
        invariant
            k <= num_attackers + 1,
            num_attackers < usize::MAX,
            p@.len() == k,
            forall|m: int| 0 <= m < k ==> p@[m] == m,
        decreases num_attackers + 1 - k,
    {
        p.push(k);
        k += 1;
    }
    let permuter = AttackerPermuter {
        order,
        p,
        i: 1,
        n: num_attackers,
        started: false,
        handed_out: Ghost(0),
    };
    proof {
        assert(permuter.state().order == start(num_attackers as nat).order);
        assert(permuter.state().control == start(num_attackers as nat).control);
        assert(permuter.upcoming() == orderings(num_attackers as nat));
    }
    permuter
}

} // verus!
