//! The catalogue of the eleven moves on a pair of stacks: when each one is
//! meaningful, what it does, and which move undoes it.
use vstd::prelude::*;

verus! {

/// The reserved label that pads a stack; it never takes part in a meaningful move.
pub const PLACEHOLDER: u32 = 0;

/// One of the eleven moves on the (left, right) pair of stacks.
#[derive(Clone, Copy, Debug, PartialEq, Eq, Structural)]
pub enum Operation {
    /// Push the front of the right stack onto the front of the left stack.
    PA,
    /// Push the front of the left stack onto the front of the right stack.
    PB,
    /// Swap the two front elements of the left stack.
    SA,
    /// Swap the two front elements of the right stack.
    SB,
    /// Swap the two front elements of both stacks.
    SS,
    /// Move the front of the left stack to its back.
    RA,
    /// Move the front of the right stack to its back.
    RB,
    /// Rotate both stacks.
    RR,
    /// Move the back of the left stack to its front.
    RRA,
    /// Move the back of the right stack to its front.
    RRB,
    /// Reverse-rotate both stacks.
    RRR,
}

/// The front element may be pushed away.
pub open spec fn can_push_from(s: Seq<u32>) -> bool {
    s.len() >= 1 && s[0] != PLACEHOLDER
}

pub open spec fn can_swap(s: Seq<u32>) -> bool {
    s.len() >= 2 && s[0] != PLACEHOLDER && s[1] != PLACEHOLDER
}

pub open spec fn can_rotate(s: Seq<u32>) -> bool {
    s.len() >= 2 && s[0] != PLACEHOLDER
}

pub open spec fn can_reverse_rotate(s: Seq<u32>) -> bool {
    s.len() >= 2 && s[s.len() - 1] != PLACEHOLDER
}

/// Exchange the first two elements.
pub open spec fn swap_front(s: Seq<u32>) -> Seq<u32> {
    s.update(0, s[1]).update(1, s[0])
}

/// The front element goes to the back.
pub open spec fn rotate(s: Seq<u32>) -> Seq<u32> {
    s.drop_first().push(s[0])
}

/// The back element comes to the front.
pub open spec fn reverse_rotate(s: Seq<u32>) -> Seq<u32> {
    seq![s[s.len() - 1]].add(s.drop_last())
}

impl Operation {
    /// Whether the move is meaningful on the stacks `(l, r)`; a move is only
    /// ever applied where this holds.
    pub open spec fn meaningful(self, l: Seq<u32>, r: Seq<u32>) -> bool {
        match self {
            Operation::PA => can_push_from(r),
            Operation::PB => can_push_from(l),
            Operation::SA => can_swap(l),
            Operation::SB => can_swap(r),
            Operation::SS => can_swap(l) && can_swap(r),
            Operation::RA => can_rotate(l),
            Operation::RB => can_rotate(r),
            Operation::RR => can_rotate(l) && can_rotate(r),
            Operation::RRA => can_reverse_rotate(l),
            Operation::RRB => can_reverse_rotate(r),
            Operation::RRR => can_reverse_rotate(l) && can_reverse_rotate(r),
        }
    }

    /// The stacks after the move, where it is meaningful.
    pub open spec fn step(self, l: Seq<u32>, r: Seq<u32>) -> (Seq<u32>, Seq<u32>) {
        match self {
            Operation::PA => (seq![r[0]].add(l), r.drop_first()),
            Operation::PB => (l.drop_first(), seq![l[0]].add(r)),
            Operation::SA => (swap_front(l), r),
            Operation::SB => (l, swap_front(r)),
            Operation::SS => (swap_front(l), swap_front(r)),
            Operation::RA => (rotate(l), r),
            Operation::RB => (l, rotate(r)),
            Operation::RR => (rotate(l), rotate(r)),
            Operation::RRA => (reverse_rotate(l), r),
            Operation::RRB => (l, reverse_rotate(r)),
            Operation::RRR => (reverse_rotate(l), reverse_rotate(r)),
        }
    }

    /// The move that undoes this one.
    pub open spec fn inverse(self) -> Operation {
        match self {
            Operation::PA => Operation::PB,
            Operation::PB => Operation::PA,
            Operation::SA => Operation::SA,
            Operation::SB => Operation::SB,
            Operation::SS => Operation::SS,
            Operation::RA => Operation::RRA,
            Operation::RB => Operation::RRB,
            Operation::RR => Operation::RRR,
            Operation::RRA => Operation::RA,
            Operation::RRB => Operation::RB,
            Operation::RRR => Operation::RR,
        }
    }

    /// The move that undoes this one.
    pub fn reverse(&self) -> (r: Operation)
        ensures
            r == self.inverse(),
    {
        match self {
            Operation::PA => Operation::PB,
            Operation::PB => Operation::PA,
            Operation::SA => Operation::SA,
            Operation::SB => Operation::SB,
            Operation::SS => Operation::SS,
            Operation::RA => Operation::RRA,
            Operation::RB => Operation::RRB,
            Operation::RR => Operation::RRR,
            Operation::RRA => Operation::RA,
            Operation::RRB => Operation::RB,
            Operation::RRR => Operation::RR,
        }
    }

    /// Whether the move is meaningful on the given stacks.
    pub fn is_meaningful(&self, left: &Vec<u32>, right: &Vec<u32>) -> (b: bool)
        ensures
            b == self.meaningful(left@, right@),
    {
        match self {
            Operation::PA => exec_can_push_from(right),
            Operation::PB => exec_can_push_from(left),
            Operation::SA => exec_can_swap(left),
            Operation::SB => exec_can_swap(right),
            Operation::SS => exec_can_swap(left) && exec_can_swap(right),
            Operation::RA => exec_can_rotate(left),
            Operation::RB => exec_can_rotate(right),
            Operation::RR => exec_can_rotate(left) && exec_can_rotate(right),
            Operation::RRA => exec_can_reverse_rotate(left),
            Operation::RRB => exec_can_reverse_rotate(right),
            Operation::RRR => exec_can_reverse_rotate(left) && exec_can_reverse_rotate(right),
        }
    }

    /// The usual short name of the move (`"pa"`, `"rrb"`, ...).
    pub fn name(&self) -> (s: &'static str)
        ensures
            s@ == self.name_spec(),
    {
        match self {
            Operation::PA => "pa",
            Operation::PB => "pb",
            Operation::SA => "sa",
            Operation::SB => "sb",
            Operation::SS => "ss",
            Operation::RA => "ra",
            Operation::RB => "rb",
            Operation::RR => "rr",
            Operation::RRA => "rra",
            Operation::RRB => "rrb",
            Operation::RRR => "rrr",
        }
    }

    pub open spec fn name_spec(self) -> Seq<char> {
        match self {
            Operation::PA => "pa"@,
            Operation::PB => "pb"@,
            Operation::SA => "sa"@,
            Operation::SB => "sb"@,
            Operation::SS => "ss"@,
            Operation::RA => "ra"@,
            Operation::RB => "rb"@,
            Operation::RR => "rr"@,
            Operation::RRA => "rra"@,
            Operation::RRB => "rrb"@,
            Operation::RRR => "rrr"@,
        }
    }
}

fn exec_can_push_from(s: &Vec<u32>) -> (b: bool)
    ensures
        b == can_push_from(s@),
{
    s.len() >= 1 && s[0] != PLACEHOLDER
}

fn exec_can_swap(s: &Vec<u32>) -> (b: bool)
    ensures
        b == can_swap(s@),
{
    s.len() >= 2 && s[0] != PLACEHOLDER && s[1] != PLACEHOLDER
}

fn exec_can_rotate(s: &Vec<u32>) -> (b: bool)
    ensures
        b == can_rotate(s@),
{
    s.len() >= 2 && s[0] != PLACEHOLDER
}

fn exec_can_reverse_rotate(s: &Vec<u32>) -> (b: bool)
    ensures
        b == can_reverse_rotate(s@),
{
    s.len() >= 2 && s[s.len() - 1] != PLACEHOLDER
}

/// The order in which the search tries the moves: rotations first, then
/// single swaps, double rotations, the double swap, and the pushes last.
pub open spec fn efficiency_order() -> Seq<Operation> {
    seq![
        Operation::RA,
        Operation::RB,
        Operation::RRA,
        Operation::RRB,
        Operation::SA,
        Operation::SB,
        Operation::RR,
        Operation::RRR,
        Operation::SS,
        Operation::PA,
        Operation::PB,
    ]
}

/// The moves in the order in which the search tries them.
pub fn operations_in_efficiency_order() -> (r: Vec<Operation>)
    ensures
        r@ == efficiency_order(),
{
    let r = vec![
        Operation::RA,
        Operation::RB,
        Operation::RRA,
        Operation::RRB,
        Operation::SA,
        Operation::SB,
        Operation::RR,
        Operation::RRR,
        Operation::SS,
        Operation::PA,
        Operation::PB,
    ];
    assert(r@ =~= efficiency_order());
    r
}

/// Every move occurs in the efficiency order.
pub proof fn lemma_efficiency_order_complete(op: Operation)
    ensures
        efficiency_order().contains(op),
{
    let o = efficiency_order();
    match op {
        Operation::RA => assert(o[0] == op),
        Operation::RB => assert(o[1] == op),
        Operation::RRA => assert(o[2] == op),
        Operation::RRB => assert(o[3] == op),
        Operation::SA => assert(o[4] == op),
        Operation::SB => assert(o[5] == op),
        Operation::RR => assert(o[6] == op),
        Operation::RRR => assert(o[7] == op),
        Operation::SS => assert(o[8] == op),
        Operation::PA => assert(o[9] == op),
        Operation::PB => assert(o[10] == op),
    }
}

/// Undoing is involutive: the inverse of the inverse is the move itself.
pub proof fn lemma_inverse_involutive(op: Operation)
    ensures
        op.inverse().inverse() == op,
{
}

/// A meaningful move is undone by its inverse: the inverse is meaningful on
/// the stacks the move produced, and gives back the stacks it started from.
pub proof fn lemma_inverse_restores(op: Operation, l: Seq<u32>, r: Seq<u32>)
    requires
        op.meaningful(l, r),
    ensures
        op.inverse().meaningful(op.step(l, r).0, op.step(l, r).1),
        op.inverse().step(op.step(l, r).0, op.step(l, r).1) == (l, r),
{
    let (l2, r2) = op.step(l, r);
    match op {
        Operation::PA => {
            assert(l2.drop_first() =~= l);
            assert(seq![l2[0]].add(r2) =~= r);
        },
        Operation::PB => {
            assert(r2.drop_first() =~= r);
            assert(seq![r2[0]].add(l2) =~= l);
        },
        Operation::SA => {
            assert(swap_front(l2) =~= l);
        },
        Operation::SB => {
            assert(swap_front(r2) =~= r);
        },
        Operation::SS => {
            assert(swap_front(l2) =~= l);
            assert(swap_front(r2) =~= r);
        },
        Operation::RA => {
            assert(reverse_rotate(l2) =~= l);
        },
        Operation::RB => {
            assert(reverse_rotate(r2) =~= r);
        },
        Operation::RR => {
            assert(reverse_rotate(l2) =~= l);
            assert(reverse_rotate(r2) =~= r);
        },
        Operation::RRA => {
            assert(rotate(l2) =~= l);
        },
        Operation::RRB => {
            assert(rotate(r2) =~= r);
        },
        Operation::RRR => {
            assert(rotate(l2) =~= l);
            assert(rotate(r2) =~= r);
        },
    }
}

/// A meaningful move keeps the total number of elements on the two stacks.
pub proof fn lemma_step_keeps_size(op: Operation, l: Seq<u32>, r: Seq<u32>)
    requires
        op.meaningful(l, r),
    ensures
        op.step(l, r).0.len() + op.step(l, r).1.len() == l.len() + r.len(),
{
}

} // verus!
