//! A bound on how many distinct pairs of stacks hold a fixed number of
//! elements: it is what makes the search finite.
use crate::state::State;
use vstd::prelude::*;
use vstd::set_lib::{lemma_int_range, lemma_len_subset, set_int_range};

verus! {

/// The number of distinct labels (every `u32`).
pub open spec fn label_base() -> nat {
    0x1_0000_0000
}

pub open spec fn power(b: nat, e: nat) -> nat
    decreases e,
{
    if e == 0 {
        1
    } else {
        b * power(b, (e - 1) as nat)
    }
}

/// A stack read as a number in base `label_base()`, front element lowest.
pub open spec fn digits(s: Seq<u32>) -> nat
    decreases s.len(),
{
    if s.len() == 0 {
        0
    } else {
        s[0] as nat + label_base() * digits(s.drop_first())
    }
}

/// A number for a pair of stacks holding `n` elements together.
pub open spec fn pair_code(l: Seq<u32>, r: Seq<u32>, n: nat) -> nat {
    digits(l.add(r)) * (n + 1) + l.len()
}

/// How many pairs of stacks hold `n` elements together, at most.
pub open spec fn pair_bound(n: nat) -> nat {
    power(label_base(), n) * (n + 1)
}

proof fn lemma_digits_bound(s: Seq<u32>)
    ensures
        digits(s) < power(label_base(), s.len()),
    decreases s.len(),
{
    if s.len() > 0 {
        lemma_digits_bound(s.drop_first());
        let d = digits(s.drop_first());
        let p = power(label_base(), s.drop_first().len());
        let x = s[0] as nat;
        let b = label_base();
        assert(x < b);
        assert(x + b * d < b * p) by (nonlinear_arith)
            requires
                x < b,
                d < p,
        ;
    }
}

proof fn lemma_digits_injective(s: Seq<u32>, t: Seq<u32>)
    requires
        s.len() == t.len(),
        digits(s) == digits(t),
    ensures
        s == t,
    decreases s.len(),
{
    if s.len() > 0 {
        let b = label_base();
        let x = s[0] as nat;
        let y = t[0] as nat;
        let ds = digits(s.drop_first());
        let dt = digits(t.drop_first());
        assert(x == y && ds == dt) by (nonlinear_arith)
            requires
                x < b,
                y < b,
                x + b * ds == y + b * dt,
        ;
        lemma_digits_injective(s.drop_first(), t.drop_first());
        assert(s =~= seq![s[0]].add(s.drop_first()));
        assert(t =~= seq![t[0]].add(t.drop_first()));
    }
}

proof fn lemma_pair_code(l1: Seq<u32>, r1: Seq<u32>, l2: Seq<u32>, r2: Seq<u32>, n: nat)
    requires
        l1.len() + r1.len() == n,
        l2.len() + r2.len() == n,
    ensures
        pair_code(l1, r1, n) < pair_bound(n),
        pair_code(l1, r1, n) == pair_code(l2, r2, n) ==> l1 == l2 && r1 == r2,
{
    let d1 = digits(l1.add(r1));
    let d2 = digits(l2.add(r2));
    let p = power(label_base(), n);
    let a = l1.len();
    let c = l2.len();
    lemma_digits_bound(l1.add(r1));
    assert(d1 * (n + 1) + a < p * (n + 1)) by (nonlinear_arith)
        requires
            d1 < p,
            a <= n,
    ;
    if pair_code(l1, r1, n) == pair_code(l2, r2, n) {
        assert(d1 == d2 && a == c) by (nonlinear_arith)
            requires
                a <= n,
                c <= n,
                d1 * (n + 1) + a == d2 * (n + 1) + c,
        ;
        lemma_digits_injective(l1.add(r1), l2.add(r2));
        assert(l1 =~= l1.add(r1).take(a as int));
        assert(l2 =~= l2.add(r2).take(a as int));
        assert(r1 =~= l1.add(r1).skip(a as int));
        assert(r2 =~= l2.add(r2).skip(a as int));
    }
}

/// Configurations with pairwise distinct contents, each holding `n` elements
/// in all, number at most `pair_bound(n)`.
pub proof fn lemma_distinct_states_bounded(states: Seq<State>, n: nat)
    requires
        forall|i: int|
            0 <= i < states.len() ==> #[trigger] states[i].left@.len() + states[i].right@.len()
                == n,
        forall|i: int, j: int|
            0 <= i < states.len() && 0 <= j < states.len() && i != j ==> #[trigger] states[i].contents()
                != #[trigger] states[j].contents(),
    ensures
        states.len() <= pair_bound(n),
{
    let codes = Seq::new(
        states.len(),
        |i: int| pair_code(states[i].left@, states[i].right@, n) as int,
    );
    assert forall|i: int, j: int| 0 <= i < codes.len() && 0 <= j < codes.len() && i != j implies codes[i]
        != codes[j] by {
        lemma_pair_code(states[i].left@, states[i].right@, states[j].left@, states[j].right@, n);
        assert(states[i].contents() != states[j].contents());
    }
    assert(codes.no_duplicates());
    codes.unique_seq_to_set();
    let range = set_int_range(0, pair_bound(n) as int);
    assert forall|x: int| codes.to_set().contains(x) implies range.contains(x) by {
        let i = choose|i: int| 0 <= i < codes.len() && codes[i] == x;
        lemma_pair_code(states[i].left@, states[i].right@, states[i].left@, states[i].right@, n);
    }
    lemma_int_range(0, pair_bound(n) as int);
    lemma_len_subset(codes.to_set(), range);
}

} // verus!
