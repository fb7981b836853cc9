//! Actions: a starting position followed by a list of straight moves, held
//! in a fixed-capacity `arrayvec::ArrayVec`.
use vstd::prelude::*;
use arrayvec::ArrayVec;
use crate::geometry::{Move, Position, NUM_PAWNS};

verus! {

#[verifier::external_type_specification]
#[verifier::external_body]
#[verifier::reject_recursive_types(T)]
pub struct ExArrayVec<T, const CAP: usize>(ArrayVec<T, CAP>);

/// The moves held by an `ArrayVec` of capacity 12, in order.
pub uninterp spec fn arrayvec_moves(v: ArrayVec<Move, 12>) -> Seq<Move>;

/// `ArrayVec::new`: an empty vector (the capacity check that it makes
/// cannot fail for a capacity of 12).
#[verifier::external_body]
fn moves_new() -> (r: ArrayVec<Move, 12>)
    ensures
        arrayvec_moves(r) == Seq::<Move>::empty(),
{
    ArrayVec::new()
}

/// `ArrayVec::push`: appends at the end. It panics when the vector is
/// full, so the caller must leave room.
#[verifier::external_body]
fn moves_push(v: &mut ArrayVec<Move, 12>, m: Move)
    requires
        arrayvec_moves(*old(v)).len() < 12,
    ensures
        arrayvec_moves(*final(v)) == arrayvec_moves(*old(v)).push(m),
{
    v.push(m)
}

/// `ArrayVec::as_slice`: the elements in order; an `ArrayVec` never holds
/// more elements than its capacity.
#[verifier::external_body]
fn moves_as_slice(v: &ArrayVec<Move, 12>) -> (r: &[Move])
    ensures
        r@ == arrayvec_moves(*v),
        r@.len() <= 12,
{
    v.as_slice()
}

/// `Clone::clone` of an `ArrayVec`: the same elements (each cloned; a
/// `Move` is `Copy`).
#[verifier::external_body]
fn moves_clone(v: &ArrayVec<Move, 12>) -> (r: ArrayVec<Move, 12>)
    ensures
        arrayvec_moves(r) == arrayvec_moves(*v),
{
    v.clone()
}

/// An action is a list of moves from a starting position.
/// There might as many moves as there are pieces on the board, in case of jumps.
#[derive(Debug)]
pub struct Action(Position, ArrayVec<Move, NUM_PAWNS>);

impl View for Action {
    type V = (int, Seq<Move>);

    /// The index of the starting position and the moves.
    closed spec fn view(&self) -> (int, Seq<Move>) {
        (self.0@, arrayvec_moves(self.1))
    }
}

impl Action {
    pub fn empty(pos: Position) -> (r: Action)
        ensures
            r@ == (pos@, Seq::<Move>::empty()),
    {
        Action(pos, moves_new())
    }

    pub fn num_moves(&self) -> (r: usize)
        ensures
            r == self@.1.len(),
            r <= 12,
    {
        moves_as_slice(&self.1).len()
    }

    pub fn with_move(pos: Position, mv: Move) -> (r: Action)
        ensures
            r@ == (pos@, seq![mv]),
    {
        let mut a = Action(pos, moves_new());
        a.enqueue(mv);
        assert(Seq::<Move>::empty().push(mv) =~= seq![mv]);
        a
    }

    pub fn with_new_move(&self, mv: Move) -> (r: Action)
        requires
            self@.1.len() < 12,
        ensures
            r@ == (self@.0, self@.1.push(mv)),
    {
        let mut a = self.duplicate();
        a.enqueue(mv);
        a
    }

    pub fn enqueue(&mut self, mv: Move)
        requires
            old(self)@.1.len() < 12,
        ensures
            final(self)@ == (old(self)@.0, old(self)@.1.push(mv)),
    {
        moves_push(&mut self.1, mv);
    }

    /// The starting position.
    pub fn start(&self) -> (r: Position)
        ensures
            r@ == self@.0,
    {
        self.0
    }

    /// The moves, in order.
    pub fn moves(&self) -> (r: &[Move])
        ensures
            r@ == self@.1,
            r@.len() <= 12,
    {
        moves_as_slice(&self.1)
    }

    /// The same action, as a new value.
    pub fn duplicate(&self) -> (r: Action)
        ensures
            r@ == self@,
    {
        Action(self.0, moves_clone(&self.1))
    }

    /// An action made of a start and at most 12 moves.
    pub fn from_parts(start: Position, moves: &Vec<Move>) -> (r: Action)
        requires
            moves@.len() <= 12,
        ensures
            r@ == (start@, moves@),
    {
        let mut a = Action::empty(start);
        let mut k: usize = 0;
        while k < moves.len()
            invariant
                k <= moves@.len() <= 12,
                a@ == (start@, moves@.take(k as int)),
            decreases moves@.len() - k,
        {
            assert(moves@.take(k + 1) =~= moves@.take(k as int).push(moves@[k as int]));
            a.enqueue(moves[k]);
            k += 1;
        }
        assert(moves@.take(moves@.len() as int) =~= moves@);
        a
    }

    /// Both actions have the same start and the same moves.
    pub fn same_as(&self, other: &Action) -> (r: bool)
        ensures
            r == (self@ == other@),
    {
        if self.0.index() != other.0.index() {
            return false;
        }
        let a = moves_as_slice(&self.1);
        let b = moves_as_slice(&other.1);
        if a.len() != b.len() {
            return false;
        }
        let mut k: usize = 0;
        while k < a.len()
            invariant
                k <= a@.len() == b@.len(),
                a@ == self@.1,
                b@ == other@.1,
                forall|j: int| 0 <= j < k ==> a@[j] == b@[j],
            decreases a@.len() - k,
        {
            if !(a[k] == b[k]) {
                assert(self@.1[k as int] != other@.1[k as int]);
                return false;
            }
            k += 1;
        }
        assert(a@ =~= b@);
        true
    }
}

impl Clone for Action {
    fn clone(&self) -> (r: Action)
        ensures
            r@ == self@,
    {
        self.duplicate()
    }
}

impl PartialEq for Action {
    fn eq(&self, other: &Action) -> (r: bool) {
        self.same_as(other)
    }
}

impl Eq for Action {
}

impl vstd::std_specs::cmp::PartialEqSpecImpl for Action {
    open spec fn obeys_eq_spec() -> bool {
        true
    }

    open spec fn eq_spec(&self, other: &Action) -> bool {
        self@ == other@
    }
}

} // verus!
