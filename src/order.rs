//! The order of solution records: by arrangement, lexicographically, then by
//! the length of the solution.
use vstd::prelude::*;

verus! {

/// `a` comes strictly before `b` in lexicographic order (a proper prefix first).
pub open spec fn lex_lt(a: Seq<u32>, b: Seq<u32>) -> bool
    decreases a.len(),
{
    if a.len() == 0 {
        b.len() > 0
    } else if b.len() == 0 {
        false
    } else if a[0] != b[0] {
        a[0] < b[0]
    } else {
        lex_lt(a.drop_first(), b.drop_first())
    }
}

/// The record `(a, la)` comes strictly before `(b, lb)`: by arrangement, then
/// by solution length.
pub open spec fn record_lt(a: Seq<u32>, la: nat, b: Seq<u32>, lb: nat) -> bool {
    lex_lt(a, b) || (a == b && la < lb)
}

pub proof fn lemma_lex_irreflexive(a: Seq<u32>)
    ensures
        !lex_lt(a, a),
    decreases a.len(),
{
    if a.len() > 0 {
        lemma_lex_irreflexive(a.drop_first());
    }
}

pub proof fn lemma_lex_transitive(a: Seq<u32>, b: Seq<u32>, c: Seq<u32>)
    requires
        lex_lt(a, b),
        lex_lt(b, c),
    ensures
        lex_lt(a, c),
    decreases a.len(),
{
    if a.len() > 0 && b.len() > 0 && c.len() > 0 && a[0] == b[0] && b[0] == c[0] {
        lemma_lex_transitive(a.drop_first(), b.drop_first(), c.drop_first());
    }
}

pub proof fn lemma_lex_total(a: Seq<u32>, b: Seq<u32>)
    ensures
        a == b || lex_lt(a, b) || lex_lt(b, a),
    decreases a.len(),
{
    if a.len() > 0 && b.len() > 0 && a[0] == b[0] {
        lemma_lex_total(a.drop_first(), b.drop_first());
        if a.drop_first() == b.drop_first() {
            assert(a =~= seq![a[0]].add(a.drop_first()));
            assert(b =~= seq![b[0]].add(b.drop_first()));
        }
    } else if a.len() == 0 && b.len() == 0 {
        assert(a =~= b);
    }
}

pub proof fn lemma_record_irreflexive(a: Seq<u32>, la: nat)
    ensures
        !record_lt(a, la, a, la),
{
    lemma_lex_irreflexive(a);
}

pub proof fn lemma_record_transitive(a: Seq<u32>, la: nat, b: Seq<u32>, lb: nat, c: Seq<u32>, lc: nat)
    requires
        record_lt(a, la, b, lb),
        record_lt(b, lb, c, lc),
    ensures
        record_lt(a, la, c, lc),
{
    if lex_lt(a, b) && lex_lt(b, c) {
        lemma_lex_transitive(a, b, c);
    }
}

/// Whether `a` comes strictly before `b` in lexicographic order.
pub fn lex_less(a: &Vec<u32>, b: &Vec<u32>) -> (r: bool)
    ensures
        r == lex_lt(a@, b@),
{
    let mut i: usize = 0;
    assert(a@.skip(0) =~= a@ && b@.skip(0) =~= b@);
    while i < a.len() && i < b.len()
        invariant
            i <= a@.len(),
            i <= b@.len(),
            lex_lt(a@, b@) == lex_lt(a@.skip(i as int), b@.skip(i as int)),
        decreases a@.len() - i,
    {
        if a[i] != b[i] {
            return a[i] < b[i];
        }
        assert(a@.skip(i as int).drop_first() =~= a@.skip(i as int + 1));
        assert(b@.skip(i as int).drop_first() =~= b@.skip(i as int + 1));
        i = i + 1;
    }
    i < b.len()
}

/// Whether the record `(a, la)` comes strictly before `(b, lb)`.
pub fn record_less(a: &Vec<u32>, la: usize, b: &Vec<u32>, lb: usize) -> (r: bool)
    ensures
        r == record_lt(a@, la as nat, b@, lb as nat),
{
    if lex_less(a, b) {
        true
    } else if lex_less(b, a) {
        false
    } else {
        proof {
            lemma_lex_total(a@, b@);
        }
        la < lb
    }
}

} // verus!
