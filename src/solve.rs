//! Solutions: the search is run from the goal arrangement outwards, and each
//! path it records, inverted and reversed, leads from an arrangement back to
//! the goal.
use crate::ops::{lemma_inverse_restores, Operation};
use crate::order::{lemma_lex_total, lemma_record_irreflexive, lemma_record_transitive, lex_lt, record_less, record_lt};
use crate::search::{distinct, found_within, get_all_cases, Search};
use crate::state::{run, State};
use vstd::prelude::*;

verus! {

/// An arrangement (a left stack) with the moves that take it to the goal.
pub type Record = (Vec<u32>, Vec<Operation>);

/// The path that undoes `ops`: each move replaced by its inverse, in reverse order.
pub open spec fn inverted(ops: Seq<Operation>) -> Seq<Operation> {
    Seq::new(ops.len(), |k: int| ops[ops.len() - 1 - k].inverse())
}

/// `(a, b)` is reached from `(l0, r0)` by some sequence of meaningful moves.
pub open spec fn reachable(l0: Seq<u32>, r0: Seq<u32>, a: Seq<u32>, b: Seq<u32>) -> bool {
    exists|ops: Seq<Operation>| #[trigger] run(l0, r0, ops) == Some((a, b))
}

/// `sol` takes `(a, b)` to `(l0, r0)`, and no sequence of moves does so in fewer.
pub open spec fn solves(a: Seq<u32>, b: Seq<u32>, sol: Seq<Operation>, l0: Seq<u32>, r0: Seq<u32>) -> bool {
    &&& run(a, b, sol) == Some((l0, r0))
    &&& forall|ops: Seq<Operation>| #[trigger] run(a, b, ops) == Some((l0, r0)) ==> sol.len() <= ops.len()
}

/// Applying a first move, then the rest.
pub proof fn lemma_run_prepend(l: Seq<u32>, r: Seq<u32>, a: Operation, rest: Seq<Operation>)
    ensures
        run(l, r, seq![a].add(rest)) == (if a.meaningful(l, r) {
            run(a.step(l, r).0, a.step(l, r).1, rest)
        } else {
            None
        }),
    decreases rest.len(),
{
    let s = seq![a].add(rest);
    if rest.len() == 0 {
        assert(s.drop_last() =~= Seq::<Operation>::empty());
        assert(s.last() == a);
        assert(run(l, r, s.drop_last()) == Some((l, r)));
        if a.meaningful(l, r) {
            assert(run(a.step(l, r).0, a.step(l, r).1, rest) == Some(a.step(l, r)));
        }
    } else {
        lemma_run_prepend(l, r, a, rest.drop_last());
        assert(s.drop_last() =~= seq![a].add(rest.drop_last()));
        assert(s.last() == rest.last());
    }
}

/// A path taken back move by move, each undone by its inverse in reverse
/// order, returns to where it started.
pub proof fn lemma_inverted_returns(l0: Seq<u32>, r0: Seq<u32>, ops: Seq<Operation>, a: Seq<u32>, b: Seq<u32>)
    requires
        run(l0, r0, ops) == Some((a, b)),
    ensures
        run(a, b, inverted(ops)) == Some((l0, r0)),
    decreases ops.len(),
{
    if ops.len() == 0 {
        assert(inverted(ops) =~= Seq::<Operation>::empty());
    } else {
        let prev = ops.drop_last();
        let m = ops.last();
        let c = run(l0, r0, prev)->0;
        lemma_inverted_returns(l0, r0, prev, c.0, c.1);
        lemma_inverse_restores(m, c.0, c.1);
        assert(inverted(ops) =~= seq![m.inverse()].add(inverted(prev)));
        lemma_run_prepend(a, b, m.inverse(), inverted(prev));
    }
}

/// The path a search records to a configuration, inverted, is a shortest
/// solution from that configuration back to the start of the search.
pub proof fn lemma_recorded_path_solves(search: Search, l0: Seq<u32>, r0: Seq<u32>, i: int)
    requires
        search.explores(l0, r0),
        0 <= i < search.states@.len(),
    ensures
        solves(
            search.states@[i].left@,
            search.states@[i].right@,
            inverted(search.states@[i].operations@),
            l0,
            r0,
        ),
{
    let s = search.states@;
    let (a, b) = s[i].contents();
    lemma_inverted_returns(l0, r0, s[i].operations@, a, b);
    assert forall|ops: Seq<Operation>| #[trigger] run(a, b, ops) == Some((l0, r0)) implies inverted(
        s[i].operations@,
    ).len() <= ops.len() by {
        lemma_inverted_returns(a, b, ops, l0, r0);
        assert(run(l0, r0, inverted(ops)) is Some);
        assert(found_within(s, (a, b), inverted(ops).len()));
        let k = choose|k: int| 0 <= k < s.len() && #[trigger] s[k].contents() == (a, b) && s[k].operations@.len() <= inverted(ops).len();
        assert(distinct(s));
        if k != i {
            assert(s[k].contents() != s[i].contents());
        }
    }
}

/// The path that undoes `ops`.
pub fn invert_path(ops: &Vec<Operation>) -> (r: Vec<Operation>)
    ensures
        r@ == inverted(ops@),
{
    let mut r: Vec<Operation> = Vec::new();
    let mut k: usize = ops.len();
    while k > 0
        invariant
            k <= ops@.len(),
            r@.len() == ops@.len() - k,
            forall|j: int| 0 <= j < r@.len() ==> r@[j] == ops@[ops@.len() - 1 - j].inverse(),
        decreases k,
    {
        k = k - 1;
        r.push(ops[k].reverse());
    }
    assert(r@ =~= inverted(ops@));
    r
}

/// Some pair of stacks with these contents made the goal answer `answer`.
pub open spec fn goal_said<F: Fn(&Vec<u32>, &Vec<u32>) -> bool>(goal: F, a: Seq<u32>, b: Seq<u32>, answer: bool) -> bool {
    exists|x: Vec<u32>, y: Vec<u32>| x@ == a && y@ == b && #[trigger] goal.ensures((&x, &y), answer)
}

/// The goal answered `answer` on the stacks of `st`.
pub open spec fn said<F: Fn(&Vec<u32>, &Vec<u32>) -> bool>(goal: F, st: State, answer: bool) -> bool {
    goal.ensures((&st.left, &st.right), answer)
}

/// `rec` with right stack `right` was made from configuration `s`.
pub open spec fn made_from(rec: Record, right: Seq<u32>, s: State) -> bool {
    &&& rec.0@ == s.left@
    &&& right == s.right@
    &&& rec.1@ == inverted(s.operations@)
}

/// The records are in order of arrangement, then of solution length.
pub open spec fn sorted_records(recs: Seq<Record>) -> bool {
    forall|i: int, j: int|
        0 <= i < j < recs.len() ==> !record_lt(
            #[trigger] recs[j].0@,
            recs[j].1@.len(),
            #[trigger] recs[i].0@,
            recs[i].1@.len(),
        )
}

/// `recs`, with right stacks `rights`, are the solutions from every
/// configuration reachable from `(l0, r0)` that the goal accepts, each once.
pub open spec fn solution_set<F: Fn(&Vec<u32>, &Vec<u32>) -> bool>(
    l0: Seq<u32>,
    r0: Seq<u32>,
    goal: F,
    recs: Seq<Record>,
    rights: Seq<Seq<u32>>,
) -> bool {
    &&& rights.len() == recs.len()
    &&& forall|k: int|
        0 <= k < recs.len() ==> {
            &&& reachable(l0, r0, #[trigger] recs[k].0@, rights[k])
            &&& goal_said(goal, recs[k].0@, rights[k], true)
            &&& solves(recs[k].0@, rights[k], recs[k].1@, l0, r0)
        }
    &&& forall|i: int, j: int|
        0 <= i < recs.len() && 0 <= j < recs.len() && i != j ==> (#[trigger] recs[i].0@, rights[i]) != (
        #[trigger] recs[j].0@, rights[j])
    &&& forall|ops: Seq<Operation>| #[trigger] run(l0, r0, ops) is Some ==> {
        let c = run(l0, r0, ops)->0;
        goal_said(goal, c.0, c.1, false) || exists|k: int| 0 <= k < recs.len() && (#[trigger] recs[k].0@, rights[k]) == c
    }
}

/// The largest solution length among the records, 0 where there is none.
pub open spec fn is_max_length(m: usize, recs: Seq<Record>) -> bool {
    &&& forall|k: int| 0 <= k < recs.len() ==> #[trigger] recs[k].1@.len() <= m
    &&& recs.len() == 0 ==> m == 0
    &&& recs.len() > 0 ==> exists|k: int| 0 <= k < recs.len() && #[trigger] recs[k].1@.len() == m
}

/// Record `k` was made from configuration `srcs[k]`, one of the first `i`,
/// which the goal accepted.
pub open spec fn records_from_prefix<F: Fn(&Vec<u32>, &Vec<u32>) -> bool>(
    goal: F,
    recs: Seq<Record>,
    rights: Seq<Seq<u32>>,
    srcs: Seq<int>,
    s: Seq<State>,
    i: int,
) -> bool {
    &&& srcs.len() == recs.len()
    &&& forall|k: int| 0 <= k < recs.len() ==> #[trigger] record_ok(goal, recs, rights, srcs, s, i, k)
}

/// Record `k` was made from configuration `srcs[k]`, one of the first `i`,
/// which the goal accepted.
pub open spec fn record_ok<F: Fn(&Vec<u32>, &Vec<u32>) -> bool>(
    goal: F,
    recs: Seq<Record>,
    rights: Seq<Seq<u32>>,
    srcs: Seq<int>,
    s: Seq<State>,
    i: int,
    k: int,
) -> bool {
    &&& 0 <= srcs[k] < i
    &&& made_from(recs[k], rights[k], s[srcs[k]])
    &&& said(goal, s[srcs[k]], true)
}

/// Each of the first `i` configurations was rejected by the goal or has a record.
pub open spec fn prefix_covered<F: Fn(&Vec<u32>, &Vec<u32>) -> bool>(
    goal: F,
    recs: Seq<Record>,
    rights: Seq<Seq<u32>>,
    s: Seq<State>,
    i: int,
) -> bool {
    forall|j: int|
        #![trigger s[j]]
        0 <= j < i ==> said(goal, s[j], false) || exists|k: int|
            0 <= k < recs.len() && #[trigger] made_from(recs[k], rights[k], s[j])
}

/// No two records stand for the same pair of stacks.
pub open spec fn distinct_records(recs: Seq<Record>, rights: Seq<Seq<u32>>) -> bool {
    forall|a: int, b: int|
        0 <= a < recs.len() && 0 <= b < recs.len() && a != b ==> (#[trigger] recs[a].0@, rights[a]) != (
        #[trigger] recs[b].0@, rights[b])
}

/// Inserts `rec` after every record that does not come after it, keeping the
/// order; returns the position.
fn insert_sorted(recs: &mut Vec<Record>, rec: Record) -> (p: usize)
    requires
        sorted_records(old(recs)@),
    ensures
        p <= old(recs)@.len(),
        final(recs)@ == old(recs)@.insert(p as int, rec),
        sorted_records(final(recs)@),
{
    let flen = rec.1.len();
    let mut p: usize = recs.len();
    while p > 0 && !record_less(&recs[p - 1].0, recs[p - 1].1.len(), &rec.0, flen)
        invariant
            p <= recs@.len(),
            forall|q: int| p <= q < recs@.len() ==> !record_lt(#[trigger] recs@[q].0@, recs@[q].1@.len(), rec.0@, flen as nat),
        decreases p,
    {
        p = p - 1;
    }
    let ghost old_recs = recs@;
    recs.insert(p, rec);
    proof {
        let nr = recs@;
        let ka = rec.0@;
        let kl = rec.1@.len();
        assert forall|a: int, b: int| 0 <= a < b < nr.len() implies !record_lt(
            #[trigger] nr[b].0@, nr[b].1@.len(), #[trigger] nr[a].0@, nr[a].1@.len()) by {
            if a < p && b < p {
                assert(nr[a] == old_recs[a] && nr[b] == old_recs[b]);
            } else if a >= p + 1 && b >= p + 1 {
                assert(nr[a] == old_recs[a - 1] && nr[b] == old_recs[b - 1]);
            } else if a < p && b == p {
                assert(nr[a] == old_recs[a]);
                let last = old_recs[p - 1];
                assert(record_lt(last.0@, last.1@.len(), ka, kl));
                if record_lt(ka, kl, old_recs[a].0@, old_recs[a].1@.len()) {
                    if a == p - 1 {
                        lemma_record_transitive(ka, kl, last.0@, last.1@.len(), ka, kl);
                        lemma_record_irreflexive(ka, kl);
                    } else {
                        assert(!record_lt(old_recs[p - 1].0@, old_recs[p - 1].1@.len(), old_recs[a].0@, old_recs[a].1@.len()));
                        lemma_record_transitive(last.0@, last.1@.len(), ka, kl, old_recs[a].0@, old_recs[a].1@.len());
                    }
                }
            } else if a < p && b > p {
                assert(nr[a] == old_recs[a] && nr[b] == old_recs[b - 1]);
            } else {
                assert(nr[b] == old_recs[b - 1]);
            }
        }
    }
    p
}

/// Inserting the record of configuration `i`, which the goal accepted, keeps
/// the bookkeeping of the extraction for the first `i + 1` configurations.
proof fn lemma_insert_record<F: Fn(&Vec<u32>, &Vec<u32>) -> bool>(
    goal: F,
    s: Seq<State>,
    i: int,
    recs: Seq<Record>,
    rights: Seq<Seq<u32>>,
    srcs: Seq<int>,
    rec: Record,
    p: int,
    nr: Seq<Record>,
    nrights: Seq<Seq<u32>>,
    nsrcs: Seq<int>,
)
    requires
        0 <= i < s.len(),
        distinct(s),
        0 <= p <= recs.len(),
        rights.len() == recs.len(),
        made_from(rec, s[i].right@, s[i]),
        said(goal, s[i], true),
        records_from_prefix(goal, recs, rights, srcs, s, i),
        prefix_covered(goal, recs, rights, s, i),
        distinct_records(recs, rights),
        nr == recs.insert(p, rec),
        nrights == rights.insert(p, s[i].right@),
        nsrcs == srcs.insert(p, i),
    ensures
        records_from_prefix(goal, nr, nrights, nsrcs, s, i + 1),
        prefix_covered(goal, nr, nrights, s, i + 1),
        distinct_records(nr, nrights),
{
    assert forall|k: int| 0 <= k < nr.len() implies #[trigger] record_ok(goal, nr, nrights, nsrcs, s, i + 1, k) by {
        if k < p {
            assert(record_ok(goal, recs, rights, srcs, s, i, k));
            assert(nr[k] == recs[k] && nrights[k] == rights[k] && nsrcs[k] == srcs[k]);
        } else if k > p {
            assert(record_ok(goal, recs, rights, srcs, s, i, k - 1));
            assert(nr[k] == recs[k - 1] && nrights[k] == rights[k - 1] && nsrcs[k] == srcs[k - 1]);
        }
    }
    assert forall|j: int| #![trigger s[j]] 0 <= j < i + 1 implies said(goal, s[j], false) || exists|k: int|
        0 <= k < nr.len() && #[trigger] made_from(nr[k], nrights[k], s[j]) by {
        if j == i {
            assert(made_from(nr[p], nrights[p], s[j]));
        } else if !said(goal, s[j], false) {
            let k = choose|k: int| 0 <= k < recs.len() && #[trigger] made_from(recs[k], rights[k], s[j]);
            if k < p {
                assert(made_from(nr[k], nrights[k], s[j]));
            } else {
                assert(made_from(nr[k + 1], nrights[k + 1], s[j]));
            }
        }
    }
    assert forall|k: int| 0 <= k < recs.len() implies (recs[k].0@, rights[k]) != (rec.0@, s[i].right@) by {
        let j = srcs[k];
        assert(record_ok(goal, recs, rights, srcs, s, i, k));
        assert(s[j].contents() != s[i].contents());
    }
    assert forall|a: int, b: int| 0 <= a < nr.len() && 0 <= b < nr.len() && a != b implies (#[trigger] nr[a].0@, nrights[a]) != (
        #[trigger] nr[b].0@, nrights[b]) by {
        let oa = if a < p { a } else { a - 1 };
        let ob = if b < p { b } else { b - 1 };
        if a != p && b != p {
            assert(nr[a] == recs[oa] && nrights[a] == rights[oa]);
            assert(nr[b] == recs[ob] && nrights[b] == rights[ob]);
        } else if a == p {
            assert(nr[b] == recs[ob] && nrights[b] == rights[ob]);
        } else {
            assert(nr[a] == recs[oa] && nrights[a] == rights[oa]);
        }
    }
}

/// Solves every arrangement reachable from the goal configuration
/// `(left, right)` that `goal` accepts: the search runs from the goal
/// outwards, and each recorded path is inverted. Returns the longest solution
/// length and the solutions ordered by arrangement, then by length.
pub fn get_solution<F: Fn(&Vec<u32>, &Vec<u32>) -> bool>(left: Vec<u32>, right: Vec<u32>, goal: F) -> (r: (usize, Vec<Record>))
    requires
        forall|x: &Vec<u32>, y: &Vec<u32>| #[trigger] goal.requires((x, y)),
    ensures
        is_max_length(r.0, r.1@),
        sorted_records(r.1@),
        exists|rights: Seq<Seq<u32>>| solution_set(left@, right@, goal, r.1@, rights),
{
    let ghost l0 = left@;
    let ghost r0 = right@;
    let search = get_all_cases(left, right);
    let ghost s = search.states@;
    let mut recs: Vec<Record> = Vec::new();
    let ghost mut rights: Seq<Seq<u32>> = Seq::empty();
    let ghost mut srcs: Seq<int> = Seq::empty();
    let mut i: usize = 0;
    while i < search.states.len()
        invariant
            search.explores(l0, r0),
            s == search.states@,
            forall|x: &Vec<u32>, y: &Vec<u32>| #[trigger] goal.requires((x, y)),
            i <= s.len(),
            rights.len() == recs@.len(),
            sorted_records(recs@),
            records_from_prefix(goal, recs@, rights, srcs, s, i as int),
            prefix_covered(goal, recs@, rights, s, i as int),
            distinct_records(recs@, rights),
        decreases s.len() - i,
    {
        let st = &search.states[i];
        let accepted = goal(&st.left, &st.right);
        if accepted {
            let forward = invert_path(&st.operations);
            let arrangement = st.left.clone();
            proof {
                assert(arrangement@ =~= st.left@);
            }
            let rec: Record = (arrangement, forward);
            let ghost old_recs = recs@;
            let p = insert_sorted(&mut recs, rec);
            proof {
                let nrights = rights.insert(p as int, st.right@);
                let nsrcs = srcs.insert(p as int, i as int);
                lemma_insert_record(goal, s, i as int, old_recs, rights, srcs, rec, p as int, recs@, nrights, nsrcs);
                rights = nrights;
                srcs = nsrcs;
            }
        } else {
            proof {
                assert forall|k: int| 0 <= k < recs@.len() implies #[trigger] record_ok(goal, recs@, rights, srcs, s, i + 1, k) by {
                    assert(record_ok(goal, recs@, rights, srcs, s, i as int, k));
                }
                assert forall|j: int| #![trigger s[j]] 0 <= j < i + 1 implies said(goal, s[j], false) || exists|k: int|
                    0 <= k < recs@.len() && #[trigger] made_from(recs@[k], rights[k], s[j]) by {
                }
            }
        }
        i = i + 1;
    }
    let mut max: usize = 0;
    let mut k: usize = 0;
    while k < recs.len()
        invariant
            k <= recs@.len(),
            forall|j: int| 0 <= j < k ==> #[trigger] recs@[j].1@.len() <= max,
            k == 0 ==> max == 0,
            k > 0 ==> exists|j: int| 0 <= j < k && #[trigger] recs@[j].1@.len() == max,
        decreases recs@.len() - k,
    {
        if recs[k].1.len() > max || k == 0 {
            max = recs[k].1.len();
        }
        k = k + 1;
    }
    proof {
        let out = recs@;
        assert forall|k: int| #![trigger out[k]] 0 <= k < out.len() implies {
            &&& reachable(l0, r0, #[trigger] out[k].0@, rights[k])
            &&& goal_said(goal, out[k].0@, rights[k], true)
            &&& solves(out[k].0@, rights[k], out[k].1@, l0, r0)
        } by {
            let j = srcs[k];
            assert(record_ok(goal, out, rights, srcs, s, s.len() as int, k));
            assert(run(l0, r0, s[j].operations@) == Some((out[k].0@, rights[k])));
            lemma_recorded_path_solves(search, l0, r0, j);
            assert(said(goal, s[j], true));
        }
        assert forall|ops: Seq<Operation>| #[trigger] run(l0, r0, ops) is Some implies ({
            let c = run(l0, r0, ops)->0;
            goal_said(goal, c.0, c.1, false) || exists|k: int| 0 <= k < out.len() && (#[trigger] out[k].0@, rights[k]) == c
        }) by {
            let c = run(l0, r0, ops)->0;
            assert(found_within(s, c, ops.len()));
            let j = choose|j: int| 0 <= j < s.len() && #[trigger] s[j].contents() == c && s[j].operations@.len() <= ops.len();
            if !said(goal, s[j], false) {
                let k = choose|k: int| 0 <= k < out.len() && #[trigger] made_from(out[k], rights[k], s[j]);
                assert((out[k].0@, rights[k]) == c);
            } else {
                assert(said(goal, s[j], false));
            }
        }
        assert(solution_set(l0, r0, goal, out, rights));
    }
    (max, recs)
}

/// Sorted output with no two records for the same arrangement is strictly
/// increasing by arrangement.
pub proof fn lemma_sorted_strict(recs: Seq<Record>)
    requires
        sorted_records(recs),
        forall|i: int, j: int| 0 <= i < recs.len() && 0 <= j < recs.len() && i != j ==> #[trigger] recs[i].0@ != #[trigger] recs[j].0@,
    ensures
        forall|i: int, j: int| 0 <= i < j < recs.len() ==> lex_lt(#[trigger] recs[i].0@, #[trigger] recs[j].0@),
{
    assert forall|i: int, j: int| 0 <= i < j < recs.len() implies lex_lt(#[trigger] recs[i].0@, #[trigger] recs[j].0@) by {
        lemma_lex_total(recs[i].0@, recs[j].0@);
        assert(!record_lt(recs[j].0@, recs[j].1@.len(), recs[i].0@, recs[i].1@.len()));
    }
}

} // verus!
