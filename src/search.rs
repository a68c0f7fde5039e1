//! Breadth-first enumeration of every configuration reachable from a start,
//! each with the first (shortest) path that reaches it.
use crate::count::{lemma_distinct_states_bounded, pair_bound};
use crate::ops::{efficiency_order, lemma_efficiency_order_complete, operations_in_efficiency_order, Operation};
use crate::state::{fingerprint, fingerprint_of, key_of, run, state_key, State};
use std::collections::HashMap;
use vstd::prelude::*;

verus! {

broadcast use vstd::std_specs::hash::group_hash_axioms;

/// The outcome of a search: the configurations in the order they were
/// discovered, which is also layer by layer, and the last layer's distance.
pub struct Search {
    pub max_distance: usize,
    pub states: Vec<State>,
}

/// Some configuration has contents `c` and a path of at most `d` moves.
pub open spec fn found_within(states: Seq<State>, c: (Seq<u32>, Seq<u32>), d: nat) -> bool {
    exists|k: int| 0 <= k < states.len() && #[trigger] states[k].contents() == c && states[k].operations@.len() <= d
}

/// Each configuration is reached from `(l0, r0)` by its own path.
pub open spec fn valid_paths(l0: Seq<u32>, r0: Seq<u32>, states: Seq<State>) -> bool {
    forall|i: int| 0 <= i < states.len() ==> run(l0, r0, #[trigger] states[i].operations@) == Some(states[i].contents())
}

/// Paths never get shorter along the sequence: the layers come in order.
pub open spec fn layered(states: Seq<State>) -> bool {
    forall|i: int, j: int| 0 <= i <= j < states.len() ==> #[trigger] states[i].operations@.len() <= #[trigger] states[j].operations@.len()
}

/// No two configurations have the same contents.
pub open spec fn distinct(states: Seq<State>) -> bool {
    forall|i: int, j: int|
        0 <= i < states.len() && 0 <= j < states.len() && i != j ==> #[trigger] states[i].contents() != #[trigger] states[j].contents()
}

/// Every configuration reachable from `(l0, r0)` in `ops.len()` moves is
/// among `states`, with a path no longer than that.
pub open spec fn complete(l0: Seq<u32>, r0: Seq<u32>, states: Seq<State>) -> bool {
    forall|ops: Seq<Operation>| #[trigger] run(l0, r0, ops) is Some ==> found_within(states, run(l0, r0, ops)->0, ops.len())
}

impl Search {
    /// The search explored everything reachable from `(l0, r0)`, discovering
    /// each configuration once, at its distance from the start.
    pub open spec fn explores(self, l0: Seq<u32>, r0: Seq<u32>) -> bool {
        let s = self.states@;
        &&& s.len() >= 1
        &&& s[0].contents() == (l0, r0)
        &&& s[0].operations@.len() == 0
        &&& valid_paths(l0, r0, s)
        &&& layered(s)
        &&& distinct(s)
        &&& complete(l0, r0, s)
        &&& self.max_distance == s.last().operations@.len()
    }
}

/// The `op` successor of configuration `i`, where `op` is meaningful there, is
/// among `states` at most one layer further.
pub open spec fn successor_found(states: Seq<State>, i: int, op: Operation) -> bool {
    op.meaningful(states[i].left@, states[i].right@) ==> found_within(
        states,
        op.step(states[i].left@, states[i].right@),
        states[i].operations@.len() + 1,
    )
}

/// The first `done` configurations have had every successor recorded.
pub open spec fn expanded(states: Seq<State>, done: int) -> bool {
    forall|i: int, op: Operation| 0 <= i < done ==> #[trigger] successor_found(states, i, op)
}

pub open spec fn state_fingerprint(s: State) -> u64 {
    fingerprint_of(key_of(s.left@, s.right@))
}

/// The index maps the fingerprint of each configuration to a bucket that
/// holds its position, and holds positions only.
pub open spec fn indexed(index: Map<u64, Vec<usize>>, states: Seq<State>) -> bool {
    &&& forall|j: int|
        0 <= j < states.len() ==> index.contains_key(state_fingerprint(#[trigger] states[j]))
            && index[state_fingerprint(states[j])]@.contains(j as usize)
    &&& forall|h: u64, p: int|
        index.contains_key(h) && 0 <= p < index[h]@.len() ==> #[trigger] index[h]@[p] < states.len()
}

fn same_stack(a: &Vec<u32>, b: &Vec<u32>) -> (r: bool)
    ensures
        r == (a@ == b@),
{
    if a.len() != b.len() {
        return false;
    }
    let mut i: usize = 0;
    while i < a.len()
        invariant
            a@.len() == b@.len(),
            i <= a@.len(),
            forall|j: int| 0 <= j < i ==> a@[j] == b@[j],
        decreases a@.len() - i,
    {
        if a[i] != b[i] {
            return false;
        }
        i = i + 1;
    }
    assert(a@ =~= b@);
    true
}

/// Whether some configuration already recorded has the contents of `cand`.
fn lookup(index: &HashMap<u64, Vec<usize>>, states: &Vec<State>, cand: &State, h: u64) -> (found: bool)
    requires
        indexed(index@, states@),
        h == state_fingerprint(*cand),
    ensures
        found <==> exists|j: int| 0 <= j < states@.len() && #[trigger] states@[j].contents() == cand.contents(),
{
    match index.get(&h) {
        None => {
            assert forall|j: int| 0 <= j < states@.len() implies #[trigger] states@[j].contents() != cand.contents() by {
                if states@[j].contents() == cand.contents() {
                    assert(state_fingerprint(states@[j]) == h);
                }
            }
            false
        },
        Some(bucket) => {
            let count = states.len();
            let mut p: usize = 0;
            while p < bucket.len()
                invariant
                    indexed(index@, states@),
                    index@.contains_key(h),
                    index@[h] == *bucket,
                    p <= bucket@.len(),
                    forall|q: int| 0 <= q < p ==> states@[bucket@[q] as int].contents() != cand.contents(),
                decreases bucket@.len() - p,
            {
                let j = bucket[p];
                assert(index@[h]@[p as int] < states@.len());
                let s = &states[j];
                if same_stack(&s.left, &cand.left) && same_stack(&s.right, &cand.right) {
                    assert(states@[j as int].contents() == cand.contents());
                    return true;
                }
                p = p + 1;
            }
            assert forall|j: int| 0 <= j < states@.len() implies #[trigger] states@[j].contents() != cand.contents() by {
                if states@[j].contents() == cand.contents() {
                    assert(key_of(states@[j].left@, states@[j].right@) == key_of(cand.left@, cand.right@));
                    assert(state_fingerprint(states@[j]) == h);
                    assert(index@[h]@.contains(j as usize));
                    let q = choose|q: int| 0 <= q < bucket@.len() && bucket@[q] == j as usize;
                    assert(q < p);
                    assert(j < count);
                    assert((j as usize) as int == j);
                    assert(states@[bucket@[q] as int].contents() != cand.contents());
                }
            }
            false
        },
    }
}

/// Adds position `pos` to the bucket of fingerprint `h`.
fn add_to_index(index: &mut HashMap<u64, Vec<usize>>, h: u64, pos: usize)
    ensures
        final(index)@.dom() == old(index)@.dom().insert(h),
        forall|k: u64| k != h && old(index)@.contains_key(k) ==> #[trigger] final(index)@[k] == old(index)@[k],
        old(index)@.contains_key(h) ==> final(index)@[h]@ == old(index)@[h]@.push(pos),
        !old(index)@.contains_key(h) ==> final(index)@[h]@ == seq![pos],
{
    let taken = index.remove(&h);
    let mut bucket = match taken {
        Some(b) => b,
        None => Vec::new(),
    };
    bucket.push(pos);
    index.insert(h, bucket);
}

/// The fingerprint of a configuration's canonical key.
fn fingerprint_of_state(s: &State) -> (h: u64)
    ensures
        h == state_fingerprint(*s),
{
    let key = state_key(s);
    fingerprint(&key)
}

/// Recording one more configuration loses no successor already recorded.
proof fn lemma_push_keeps_found(before: Seq<State>, x: State, done: int)
    requires
        0 <= done <= before.len(),
        expanded(before, done),
    ensures
        expanded(before.push(x), done),
        forall|i: int, op: Operation| 0 <= i < before.len() && #[trigger] successor_found(before, i, op) ==> successor_found(before.push(x), i, op),
{
    let after = before.push(x);
    assert forall|i: int, op: Operation| 0 <= i < before.len() && #[trigger] successor_found(before, i, op) implies successor_found(after, i, op) by {
        assert(after[i] == before[i]);
        if op.meaningful(before[i].left@, before[i].right@) {
            let c = op.step(before[i].left@, before[i].right@);
            let k = choose|k: int| 0 <= k < before.len() && #[trigger] before[k].contents() == c && before[k].operations@.len() <= before[i].operations@.len() + 1;
            assert(after[k] == before[k]);
        }
    }
    assert forall|i: int, op: Operation| 0 <= i < done implies #[trigger] successor_found(after, i, op) by {
        assert(successor_found(before, i, op));
    }
}

/// From a fully expanded search, every reachable configuration is found within
/// the number of moves of any path to it.
proof fn lemma_expanded_complete(l0: Seq<u32>, r0: Seq<u32>, states: Seq<State>, ops: Seq<Operation>)
    requires
        states.len() >= 1,
        states[0].contents() == (l0, r0),
        states[0].operations@.len() == 0,
        expanded(states, states.len() as int),
    ensures
        run(l0, r0, ops) is Some ==> found_within(states, run(l0, r0, ops)->0, ops.len()),
    decreases ops.len(),
{
    if ops.len() == 0 {
        assert(states[0].contents() == run(l0, r0, ops)->0);
    } else {
        let prev = ops.drop_last();
        lemma_expanded_complete(l0, r0, states, prev);
        if run(l0, r0, ops) is Some {
            let c = run(l0, r0, prev)->0;
            let k = choose|k: int| 0 <= k < states.len() && #[trigger] states[k].contents() == c && states[k].operations@.len() <= prev.len();
            assert(successor_found(states, k, ops.last()));
            let k2 = choose|k2: int|
                0 <= k2 < states.len() && #[trigger] states[k2].contents() == ops.last().step(c.0, c.1)
                    && states[k2].operations@.len() <= states[k].operations@.len() + 1;
            assert(states[k2].contents() == run(l0, r0, ops)->0);
        }
    }
}

/// Shortest paths: no sequence of moves from the start reaches a recorded
/// configuration in fewer moves than the layer it was recorded in.
pub proof fn lemma_first_path_is_shortest(search: Search, l0: Seq<u32>, r0: Seq<u32>, i: int, ops: Seq<Operation>)
    requires
        search.explores(l0, r0),
        0 <= i < search.states@.len(),
        run(l0, r0, ops) == Some(search.states@[i].contents()),
    ensures
        search.states@[i].operations@.len() <= ops.len(),
{
    let s = search.states@;
    assert(found_within(s, run(l0, r0, ops)->0, ops.len()));
    let k = choose|k: int| 0 <= k < s.len() && #[trigger] s[k].contents() == s[i].contents() && s[k].operations@.len() <= ops.len();
    if k != i {
        assert(s[k].contents() != s[i].contents());
    }
}

/// Totality: the recorded contents are exactly the configurations reachable
/// from the start.
pub proof fn lemma_recorded_iff_reachable(search: Search, l0: Seq<u32>, r0: Seq<u32>, c: (Seq<u32>, Seq<u32>))
    requires
        search.explores(l0, r0),
    ensures
        (exists|i: int| 0 <= i < search.states@.len() && #[trigger] search.states@[i].contents() == c)
            <==> (exists|ops: Seq<Operation>| #[trigger] run(l0, r0, ops) == Some(c)),
{
    let s = search.states@;
    if exists|i: int| 0 <= i < s.len() && #[trigger] s[i].contents() == c {
        let i = choose|i: int| 0 <= i < s.len() && #[trigger] s[i].contents() == c;
        assert(run(l0, r0, s[i].operations@) == Some(c));
    }
    if exists|ops: Seq<Operation>| #[trigger] run(l0, r0, ops) == Some(c) {
        let ops = choose|ops: Seq<Operation>| #[trigger] run(l0, r0, ops) == Some(c);
        assert(found_within(s, c, ops.len()));
    }
}

/// Determinism: two searches from the same start record the same contents,
/// each in the same layer, as many configurations, and reach the same
/// maximum distance.
pub proof fn lemma_searches_agree(a: Search, b: Search, l0: Seq<u32>, r0: Seq<u32>)
    requires
        a.explores(l0, r0),
        b.explores(l0, r0),
    ensures
        forall|i: int|
            0 <= i < a.states@.len() ==> exists|j: int|
                0 <= j < b.states@.len() && #[trigger] b.states@[j].contents() == #[trigger] a.states@[i].contents()
                    && b.states@[j].operations@.len() == a.states@[i].operations@.len(),
        a.states@.len() == b.states@.len(),
        a.max_distance == b.max_distance,
{
    lemma_same_count(a, b, l0, r0);
    assert forall|i: int| 0 <= i < a.states@.len() implies exists|j: int|
        0 <= j < b.states@.len() && #[trigger] b.states@[j].contents() == #[trigger] a.states@[i].contents()
            && b.states@[j].operations@.len() == a.states@[i].operations@.len() by {
        lemma_layer_matches(a, b, l0, r0, i);
    }
    let la = a.states@.len() - 1;
    let lb = b.states@.len() - 1;
    lemma_layer_matches(a, b, l0, r0, la);
    lemma_layer_matches(b, a, l0, r0, lb);
    let j = choose|j: int| 0 <= j < b.states@.len() && #[trigger] b.states@[j].contents() == a.states@[la].contents()
        && b.states@[j].operations@.len() == a.states@[la].operations@.len();
    let k = choose|k: int| 0 <= k < a.states@.len() && #[trigger] a.states@[k].contents() == b.states@[lb].contents()
        && a.states@[k].operations@.len() == b.states@[lb].operations@.len();
    assert(b.states@[j].operations@.len() <= b.states@[lb].operations@.len());
    assert(a.states@[k].operations@.len() <= a.states@[la].operations@.len());
}

proof fn lemma_same_count(a: Search, b: Search, l0: Seq<u32>, r0: Seq<u32>)
    requires
        a.explores(l0, r0),
        b.explores(l0, r0),
    ensures
        a.states@.len() == b.states@.len(),
{
    let sa = a.states@;
    let sb = b.states@;
    let ca = Seq::new(sa.len(), |i: int| sa[i].contents());
    let cb = Seq::new(sb.len(), |i: int| sb[i].contents());
    assert forall|i: int, j: int| 0 <= i < ca.len() && 0 <= j < ca.len() && i != j implies ca[i] != ca[j] by {
        assert(sa[i].contents() != sa[j].contents());
    }
    assert forall|i: int, j: int| 0 <= i < cb.len() && 0 <= j < cb.len() && i != j implies cb[i] != cb[j] by {
        assert(sb[i].contents() != sb[j].contents());
    }
    assert(ca.no_duplicates());
    assert(cb.no_duplicates());
    assert forall|c: (Seq<u32>, Seq<u32>)| ca.to_set().contains(c) implies cb.to_set().contains(c) by {
        let i = choose|i: int| 0 <= i < ca.len() && ca[i] == c;
        lemma_layer_matches(a, b, l0, r0, i);
        let j = choose|j: int| 0 <= j < sb.len() && #[trigger] sb[j].contents() == sa[i].contents()
            && sb[j].operations@.len() == sa[i].operations@.len();
        assert(cb[j] == c);
    }
    assert forall|c: (Seq<u32>, Seq<u32>)| cb.to_set().contains(c) implies ca.to_set().contains(c) by {
        let j = choose|j: int| 0 <= j < cb.len() && cb[j] == c;
        lemma_layer_matches(b, a, l0, r0, j);
        let i = choose|i: int| 0 <= i < sa.len() && #[trigger] sa[i].contents() == sb[j].contents()
            && sa[i].operations@.len() == sb[j].operations@.len();
        assert(ca[i] == c);
    }
    assert(ca.to_set() =~= cb.to_set());
    ca.unique_seq_to_set();
    cb.unique_seq_to_set();
}

proof fn lemma_layer_matches(a: Search, b: Search, l0: Seq<u32>, r0: Seq<u32>, i: int)
    requires
        a.explores(l0, r0),
        b.explores(l0, r0),
        0 <= i < a.states@.len(),
    ensures
        exists|j: int|
            0 <= j < b.states@.len() && #[trigger] b.states@[j].contents() == a.states@[i].contents()
                && b.states@[j].operations@.len() == a.states@[i].operations@.len(),
{
    let sa = a.states@;
    let sb = b.states@;
    assert(run(l0, r0, sa[i].operations@) == Some(sa[i].contents()));
    assert(found_within(sb, sa[i].contents(), sa[i].operations@.len()));
    let j = choose|j: int| 0 <= j < sb.len() && #[trigger] sb[j].contents() == sa[i].contents() && sb[j].operations@.len() <= sa[i].operations@.len();
    assert(run(l0, r0, sb[j].operations@) == Some(sb[j].contents()));
    lemma_first_path_is_shortest(a, l0, r0, i, sb[j].operations@);
}

/// Explores, breadth first, every configuration reachable from the stacks
/// `(left, right)`, trying the moves in efficiency order and keeping the first
/// path found to each distinct pair of stacks.
pub fn get_all_cases(left: Vec<u32>, right: Vec<u32>) -> (search: Search)
    ensures
        search.explores(left@, right@),
{
    let ghost l0 = left@;
    let ghost r0 = right@;
    let ghost n: nat = (l0.len() + r0.len()) as nat;
    let start = State::new(left, right);
    let h0 = fingerprint_of_state(&start);
    let mut index: HashMap<u64, Vec<usize>> = HashMap::new();
    add_to_index(&mut index, h0, 0);
    let mut states: Vec<State> = Vec::new();
    states.push(start);
    let order = operations_in_efficiency_order();
    let mut i: usize = 0;
    proof {
        assert(states@[0].operations@ =~= Seq::<Operation>::empty());
        lemma_distinct_states_bounded(states@, n);
        assert(index@[h0]@[0] == 0usize);
        assert(index@.dom() =~= set![h0]);
    }
    while i < states.len()
        invariant
            order@ == efficiency_order(),
            i <= states@.len(),
            states@.len() >= 1,
            states@[0].contents() == (l0, r0),
            states@[0].operations@.len() == 0,
            states@.len() <= pair_bound(n),
            forall|j: int| 0 <= j < states@.len() ==> #[trigger] states@[j].left@.len() + states@[j].right@.len() == n,
            valid_paths(l0, r0, states@),
            layered(states@),
            distinct(states@),
            indexed(index@, states@),
            expanded(states@, i as int),
            i < states@.len() ==> forall|j: int| 0 <= j < states@.len() ==> #[trigger] states@[j].operations@.len() <= states@[i as int].operations@.len() + 1,
        decreases pair_bound(n) - i,
    {
        let mut t: usize = 0;
        while t < order.len()
            invariant
                order@ == efficiency_order(),
                i < states@.len(),
                states@.len() >= 1,
                states@[0].contents() == (l0, r0),
                states@[0].operations@.len() == 0,
                states@.len() <= pair_bound(n),
                forall|j: int| 0 <= j < states@.len() ==> #[trigger] states@[j].left@.len() + states@[j].right@.len() == n,
                valid_paths(l0, r0, states@),
                layered(states@),
                distinct(states@),
                indexed(index@, states@),
                expanded(states@, i as int),
                forall|j: int| 0 <= j < states@.len() ==> #[trigger] states@[j].operations@.len() <= states@[i as int].operations@.len() + 1,
                t <= order@.len(),
                forall|u: int| 0 <= u < t ==> successor_found(states@, i as int, #[trigger] order@[u]),
            decreases order@.len() - t,
        {
            let op = order[t];
            if op.is_meaningful(&states[i].left, &states[i].right) {
                let next = states[i].apply(op);
                let h = fingerprint_of_state(&next);
                let found = lookup(&index, &states, &next, h);
                let ghost cur = states@[i as int];
                if found {
                    let ghost k = choose|k: int| 0 <= k < states@.len() && #[trigger] states@[k].contents() == next.contents();
                    assert(states@[k].operations@.len() <= cur.operations@.len() + 1);
                    assert(found_within(states@, op.step(cur.left@, cur.right@), cur.operations@.len() + 1));
                } else {
                    let ghost before = states@;
                    let pos = states.len();
                    proof {
                        crate::ops::lemma_step_keeps_size(op, cur.left@, cur.right@);
                        assert(next.operations@.drop_last() =~= cur.operations@);
                        assert(run(l0, r0, next.operations@) == Some(next.contents()));
                    }
                    let ghost old_index = index@;
                    states.push(next);
                    add_to_index(&mut index, h, pos);
                    proof {
                        let after = states@;
                        assert(after[pos as int] == next);
                        assert(after == before.push(next));
                        lemma_push_keeps_found(before, next, i as int);
                        assert(distinct(after)) by {
                            assert forall|a: int, b: int|
                                0 <= a < after.len() && 0 <= b < after.len() && a != b implies #[trigger] after[a].contents()
                                    != #[trigger] after[b].contents() by {
                                if a < before.len() && b < before.len() {
                                    assert(before[a] == after[a] && before[b] == after[b]);
                                } else if a < before.len() {
                                    assert(before[a] == after[a]);
                                } else if b < before.len() {
                                    assert(before[b] == after[b]);
                                }
                            }
                        }
                        lemma_distinct_states_bounded(after, n);
                        assert forall|j: int| 0 <= j < after.len() implies index@.contains_key(state_fingerprint(#[trigger] after[j]))
                            && index@[state_fingerprint(after[j])]@.contains(j as usize) by {
                            if j < before.len() {
                                assert(before[j] == after[j]);
                                let hj = state_fingerprint(after[j]);
                                assert(old_index[hj]@.contains(j as usize));
                                if hj == h {
                                    let q = choose|q: int| 0 <= q < old_index[hj]@.len() && old_index[hj]@[q] == j as usize;
                                    assert(index@[hj]@[q] == j as usize);
                                }
                            } else {
                                assert(index@[h]@.last() == pos);
                            }
                        }
                        assert forall|hh: u64, p: int| index@.contains_key(hh) && 0 <= p < index@[hh]@.len() implies #[trigger] index@[hh]@[p] < after.len() by {
                            if hh != h {
                                assert(old_index[hh]@[p] < before.len());
                            } else if old_index.contains_key(h) && p < old_index[h]@.len() {
                                assert(old_index[h]@[p] < before.len());
                            }
                        }
                        assert(found_within(after, op.step(cur.left@, cur.right@), cur.operations@.len() + 1)) by {
                            assert(after[pos as int].contents() == op.step(cur.left@, cur.right@));
                        }
                        assert forall|u: int| 0 <= u < t implies successor_found(after, i as int, #[trigger] order@[u]) by {
                            assert(successor_found(before, i as int, order@[u]));
                        }
                    }
                }
            }
            t = t + 1;
        }
        proof {
            assert forall|k: int, op: Operation| 0 <= k < i + 1 implies #[trigger] successor_found(states@, k, op) by {
                if k == i {
                    lemma_efficiency_order_complete(op);
                    let u = choose|u: int| 0 <= u < order@.len() && order@[u] == op;
                    assert(successor_found(states@, i as int, order@[u]));
                }
            }
        }
        i = i + 1;
    }
    proof {
        assert forall|ops: Seq<Operation>| #[trigger] run(l0, r0, ops) is Some implies found_within(states@, run(l0, r0, ops)->0, ops.len()) by {
            lemma_expanded_complete(l0, r0, states@, ops);
        }
    }
    let last = states.len() - 1;
    let max_distance = states[last].operations.len();
    Search { max_distance, states }
}

} // verus!
