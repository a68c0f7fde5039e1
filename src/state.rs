//! Configurations: a pair of stacks with the moves that led to it, and the
//! canonical key of its contents.
use crate::ops::Operation;
use vstd::prelude::*;

verus! {

/// A pair of stacks and the moves taken from the start of a search to reach it.
#[derive(Clone, Debug)]
pub struct State {
    pub left: Vec<u32>,
    pub right: Vec<u32>,
    pub operations: Vec<Operation>,
}

/// The stacks reached from `(l, r)` by applying `ops` in turn, or `None` where
/// one of them is not meaningful at the point where it is applied.
pub open spec fn run(l: Seq<u32>, r: Seq<u32>, ops: Seq<Operation>) -> Option<(Seq<u32>, Seq<u32>)>
    decreases ops.len(),
{
    if ops.len() == 0 {
        Some((l, r))
    } else {
        match run(l, r, ops.drop_last()) {
            Some(s) => if ops.last().meaningful(s.0, s.1) {
                Some(ops.last().step(s.0, s.1))
            } else {
                None
            },
            None => None,
        }
    }
}

impl State {
    /// The contents of the two stacks, ignoring the path.
    pub open spec fn contents(self) -> (Seq<u32>, Seq<u32>) {
        (self.left@, self.right@)
    }

    /// `next` is this configuration after the meaningful move `op`.
    pub open spec fn stepped(self, op: Operation, next: State) -> bool {
        &&& next.contents() == op.step(self.left@, self.right@)
        &&& next.operations@ == self.operations@.push(op)
    }

    /// A configuration with the given stacks and an empty path.
    pub fn new(left: Vec<u32>, right: Vec<u32>) -> (s: State)
        ensures
            s.left@ == left@,
            s.right@ == right@,
            s.operations@.len() == 0,
    {
        State { left, right, operations: Vec::new() }
    }

    /// The configuration after `op`, which must be meaningful here.
    pub fn apply(&self, op: Operation) -> (next: State)
        requires
            op.meaningful(self.left@, self.right@),
        ensures
            self.stepped(op, next),
    {
        match op {
            Operation::PA => apply_pa(self),
            Operation::PB => apply_pb(self),
            Operation::SA => apply_sa(self),
            Operation::SB => apply_sb(self),
            Operation::SS => apply_ss(self),
            Operation::RA => apply_ra(self),
            Operation::RB => apply_rb(self),
            Operation::RR => apply_rr(self),
            Operation::RRA => apply_rra(self),
            Operation::RRB => apply_rrb(self),
            Operation::RRR => apply_rrr(self),
        }
    }

    /// The configuration after `op`, or `None` where `op` is not meaningful.
    pub fn try_apply(&self, op: Operation) -> (next: Option<State>)
        ensures
            next is Some <==> op.meaningful(self.left@, self.right@),
            next is Some ==> self.stepped(op, next->0),
    {
        if op.is_meaningful(&self.left, &self.right) {
            Some(self.apply(op))
        } else {
            None
        }
    }
}

fn copy_stack(s: &Vec<u32>) -> (r: Vec<u32>)
    ensures
        r@ == s@,
{
    let r = s.clone();
    assert(r@ =~= s@);
    r
}

fn push_front(x: u32, s: &Vec<u32>) -> (r: Vec<u32>)
    ensures
        r@ == seq![x].add(s@),
{
    let mut r = copy_stack(s);
    r.insert(0, x);
    assert(r@ =~= seq![x].add(s@));
    r
}

fn drop_front(s: &Vec<u32>) -> (r: Vec<u32>)
    requires
        s@.len() >= 1,
    ensures
        r@ == s@.drop_first(),
{
    let mut r = copy_stack(s);
    r.remove(0);
    assert(r@ =~= s@.drop_first());
    r
}

fn swap_front_of(s: &Vec<u32>) -> (r: Vec<u32>)
    requires
        s@.len() >= 2,
    ensures
        r@ == crate::ops::swap_front(s@),
{
    let mut r = copy_stack(s);
    let a = r[0];
    let b = r[1];
    r.set(0, b);
    r.set(1, a);
    r
}

fn rotate_of(s: &Vec<u32>) -> (r: Vec<u32>)
    requires
        s@.len() >= 1,
    ensures
        r@ == crate::ops::rotate(s@),
{
    let mut r = copy_stack(s);
    let a = r.remove(0);
    r.push(a);
    assert(r@ =~= crate::ops::rotate(s@));
    r
}

fn reverse_rotate_of(s: &Vec<u32>) -> (r: Vec<u32>)
    requires
        s@.len() >= 1,
    ensures
        r@ == crate::ops::reverse_rotate(s@),
{
    let mut r = copy_stack(s);
    let last = s.len() - 1;
    let a = r.remove(last);
    r.insert(0, a);
    assert(r@ =~= crate::ops::reverse_rotate(s@));
    r
}

fn apply_pa(state: &State) -> (next: State)
    requires
        Operation::PA.meaningful(state.left@, state.right@),
    ensures
        state.stepped(Operation::PA, next),
{
    let left = push_front(state.right[0], &state.left);
    let right = drop_front(&state.right);
    apply_operation(state, Operation::PA, left, right)
}

fn apply_pb(state: &State) -> (next: State)
    requires
        Operation::PB.meaningful(state.left@, state.right@),
    ensures
        state.stepped(Operation::PB, next),
{
    let right = push_front(state.left[0], &state.right);
    let left = drop_front(&state.left);
    apply_operation(state, Operation::PB, left, right)
}

fn apply_sa(state: &State) -> (next: State)
    requires
        Operation::SA.meaningful(state.left@, state.right@),
    ensures
        state.stepped(Operation::SA, next),
{
    apply_operation(state, Operation::SA, swap_front_of(&state.left), copy_stack(&state.right))
}

fn apply_sb(state: &State) -> (next: State)
    requires
        Operation::SB.meaningful(state.left@, state.right@),
    ensures
        state.stepped(Operation::SB, next),
{
    apply_operation(state, Operation::SB, copy_stack(&state.left), swap_front_of(&state.right))
}

fn apply_ss(state: &State) -> (next: State)
    requires
        Operation::SS.meaningful(state.left@, state.right@),
    ensures
        state.stepped(Operation::SS, next),
{
    apply_operation(state, Operation::SS, swap_front_of(&state.left), swap_front_of(&state.right))
}

fn apply_ra(state: &State) -> (next: State)
    requires
        Operation::RA.meaningful(state.left@, state.right@),
    ensures
        state.stepped(Operation::RA, next),
{
    apply_operation(state, Operation::RA, rotate_of(&state.left), copy_stack(&state.right))
}

fn apply_rb(state: &State) -> (next: State)
    requires
        Operation::RB.meaningful(state.left@, state.right@),
    ensures
        state.stepped(Operation::RB, next),
{
    apply_operation(state, Operation::RB, copy_stack(&state.left), rotate_of(&state.right))
}

fn apply_rr(state: &State) -> (next: State)
    requires
        Operation::RR.meaningful(state.left@, state.right@),
    ensures
        state.stepped(Operation::RR, next),
{
    apply_operation(state, Operation::RR, rotate_of(&state.left), rotate_of(&state.right))
}

fn apply_rra(state: &State) -> (next: State)
    requires
        Operation::RRA.meaningful(state.left@, state.right@),
    ensures
        state.stepped(Operation::RRA, next),
{
    apply_operation(state, Operation::RRA, reverse_rotate_of(&state.left), copy_stack(&state.right))
}

fn apply_rrb(state: &State) -> (next: State)
    requires
        Operation::RRB.meaningful(state.left@, state.right@),
    ensures
        state.stepped(Operation::RRB, next),
{
    apply_operation(state, Operation::RRB, copy_stack(&state.left), reverse_rotate_of(&state.right))
}

fn apply_rrr(state: &State) -> (next: State)
    requires
        Operation::RRR.meaningful(state.left@, state.right@),
    ensures
        state.stepped(Operation::RRR, next),
{
    apply_operation(
        state,
        Operation::RRR,
        reverse_rotate_of(&state.left),
        reverse_rotate_of(&state.right),
    )
}

/// The configuration with the given stacks, reached by `op` from `state`.
fn apply_operation(state: &State, op: Operation, left: Vec<u32>, right: Vec<u32>) -> (next: State)
    ensures
        next.left@ == left@,
        next.right@ == right@,
        next.operations@ == state.operations@.push(op),
{
    let mut operations = state.operations.clone();
    assert(operations@ =~= state.operations@);
    operations.push(op);
    State { left, right, operations }
}

/// The value that separates the left stack from the right one in a key; no
/// label can take it.
pub const KEY_SEPARATOR: u64 = 0xffff_ffff_ffff_ffff;

/// The canonical key of a pair of stacks: the labels of the left stack, the
/// separator, then the labels of the right stack.
pub open spec fn key_of(l: Seq<u32>, r: Seq<u32>) -> Seq<u64> {
    l.map_values(|x: u32| x as u64).push(KEY_SEPARATOR).add(r.map_values(|x: u32| x as u64))
}

/// Two pairs of stacks share a key exactly when their contents are the same.
pub proof fn lemma_key_injective(l1: Seq<u32>, r1: Seq<u32>, l2: Seq<u32>, r2: Seq<u32>)
    ensures
        key_of(l1, r1) == key_of(l2, r2) <==> (l1 == l2 && r1 == r2),
{
    if key_of(l1, r1) == key_of(l2, r2) {
        let k = key_of(l1, r1);
        if l1.len() < l2.len() {
            assert(k[l1.len() as int] == KEY_SEPARATOR);
            assert(key_of(l2, r2)[l1.len() as int] == l2[l1.len() as int] as u64);
        }
        if l2.len() < l1.len() {
            assert(k[l2.len() as int] == l1[l2.len() as int] as u64);
            assert(key_of(l2, r2)[l2.len() as int] == KEY_SEPARATOR);
        }
        assert(l1.len() == l2.len());
        assert forall|i: int| 0 <= i < l1.len() implies l1[i] == l2[i] by {
            assert(k[i] == l1[i] as u64);
            assert(key_of(l2, r2)[i] == l2[i] as u64);
        }
        assert(l1 =~= l2);
        assert(k.len() == l1.len() + 1 + r1.len());
        assert(key_of(l2, r2).len() == l2.len() + 1 + r2.len());
        assert(r1.len() == r2.len());
        assert forall|i: int| 0 <= i < r1.len() implies r1[i] == r2[i] by {
            assert(k[l1.len() + 1 + i] == r1[i] as u64);
            assert(key_of(l2, r2)[l1.len() + 1 + i] == r2[i] as u64);
        }
        assert(r1 =~= r2);
    }
}

/// The canonical key of a configuration's contents.
pub fn state_key(state: &State) -> (key: Vec<u64>)
    ensures
        key@ == key_of(state.left@, state.right@),
{
    let mut key: Vec<u64> = Vec::new();
    let mut i: usize = 0;
    while i < state.left.len()
        invariant
            i <= state.left@.len(),
            key@ == state.left@.take(i as int).map_values(|x: u32| x as u64),
        decreases state.left@.len() - i,
    {
        key.push(state.left[i] as u64);
        i = i + 1;
        assert(key@ =~= state.left@.take(i as int).map_values(|x: u32| x as u64));
    }
    assert(state.left@.take(i as int) =~= state.left@);
    key.push(KEY_SEPARATOR);
    let ghost head = key@;
    let mut j: usize = 0;
    while j < state.right.len()
        invariant
            j <= state.right@.len(),
            head == state.left@.map_values(|x: u32| x as u64).push(KEY_SEPARATOR),
            key@ == head.add(state.right@.take(j as int).map_values(|x: u32| x as u64)),
        decreases state.right@.len() - j,
    {
        key.push(state.right[j] as u64);
        j = j + 1;
        assert(key@ =~= head.add(state.right@.take(j as int).map_values(|x: u32| x as u64)));
    }
    assert(state.right@.take(j as int) =~= state.right@);
    key
}

/// The modulus of the fingerprint, a prime below 2^32.
pub const FINGERPRINT_MODULUS: u64 = 4294967291;

/// A polynomial fingerprint of a key, used to bucket keys in the search's index.
pub open spec fn fingerprint_of(k: Seq<u64>) -> u64
    decreases k.len(),
{
    if k.len() == 0 {
        0
    } else {
        ((fingerprint_of(k.drop_last()) as int * 31 + (k.last() % FINGERPRINT_MODULUS) as int)
            % FINGERPRINT_MODULUS as int) as u64
    }
}

/// The fingerprint of a key.
pub fn fingerprint(key: &Vec<u64>) -> (h: u64)
    ensures
        h == fingerprint_of(key@),
{
    let mut h: u64 = 0;
    let mut i: usize = 0;
    while i < key.len()
        invariant
            i <= key@.len(),
            h == fingerprint_of(key@.take(i as int)),
            h < FINGERPRINT_MODULUS,
        decreases key@.len() - i,
    {
        assert(key@.take(i as int + 1).drop_last() =~= key@.take(i as int));
        h = (h * 31 + key[i] % FINGERPRINT_MODULUS) % FINGERPRINT_MODULUS;
        i = i + 1;
    }
    assert(key@.take(i as int) =~= key@);
    h
}

} // verus!
