//! Traversal records: child slots, traversal steps and the stack of steps taken.
use vstd::prelude::*;

use arrayvec::ArrayVec;

use crate::text::push_decimal;
use crate::tree::branch::{address_text, Address};
use crate::tree::Tree;

verus! {

/// An index within a branch's bitmask (0..=63).
#[derive(Clone, Copy, PartialEq, Eq, Structural, Debug)]
pub struct ChildSlot(u8);

impl ChildSlot {
    #[verifier::type_invariant]
    spec fn below_64(self) -> bool {
        self.0 < 64
    }

    /// Returns a slot for `slot` if it is below 64.
    pub fn new(slot: u8) -> (r: Option<Self>)
        ensures
            r is Some <==> slot < 64,
            r matches Some(s) ==> s@ == slot,
    {
        if slot < 64 {
            Some(Self(slot))
        } else {
            None
        }
    }

    /// Returns the slot's position in the bitmask.
    pub fn get(self) -> (r: u8)
        ensures
            r == self@,
            r < 64,
    {
        proof {
            use_type_invariant(&self);
        }
        self.0
    }
}

impl View for ChildSlot {
    type V = u8;

    closed spec fn view(&self) -> u8 {
        self.0
    }
}

impl core::ops::Deref for ChildSlot {
    type Target = u8;

    fn deref(&self) -> (r: &u8)
        ensures
            *r == self@,
    {
        &self.0
    }
}

/// A single step taken during a traversal of the tree: from the parent branch whose
/// address is `to`, into its child slot `slot`.
#[derive(Clone, Copy, PartialEq, Eq, Structural)]
pub struct TraversalStep {
    pub to: Address,
    pub slot: ChildSlot,
}

/// The plain value of a step: the raw address and the slot.
pub open spec fn step_value(step: TraversalStep) -> (u64, u8) {
    (step.to.0, step.slot@)
}

/// `ArrayVec` from the `arrayvec` crate: a vector of fixed capacity.
#[verifier::external_type_specification]
#[verifier::external_body]
#[verifier::reject_recursive_types(T)]
pub struct ExArrayVec<T, const CAP: usize>(ArrayVec<T, CAP>);

/// The steps held by an `ArrayVec` of traversal steps, in order, each as its raw address
/// and slot.
pub uninterp spec fn stack_steps(s: ArrayVec<TraversalStep, 16>) -> Seq<(u64, u8)>;

/// `ArrayVec::new`: an empty vector.
#[verifier::external_body]
fn steps_new() -> (s: ArrayVec<TraversalStep, 16>)
    ensures
        stack_steps(s) == Seq::<(u64, u8)>::empty(),
{
    ArrayVec::new()
}

/// `ArrayVec::push`: appends a step. It panics when the vector is full, which the
/// `requires` leaves out.
#[verifier::external_body]
fn steps_push(s: &mut ArrayVec<TraversalStep, 16>, step: TraversalStep)
    requires
        stack_steps(*old(s)).len() < 16,
    ensures
        stack_steps(*final(s)) == stack_steps(*old(s)).push(step_value(step)),
{
    s.push(step)
}

/// `ArrayVec::len`: the number of steps, never above the capacity 16.
#[verifier::external_body]
fn steps_len(s: &ArrayVec<TraversalStep, 16>) -> (n: usize)
    ensures
        n == stack_steps(*s).len(),
        n <= 16,
{
    s.len()
}

/// Indexing an `ArrayVec` through its slice: the step at position `i`.
#[verifier::external_body]
fn steps_get(s: &ArrayVec<TraversalStep, 16>, i: usize) -> (step: TraversalStep)
    requires
        i < stack_steps(*s).len(),
    ensures
        step_value(step) == stack_steps(*s)[i as int],
{
    s[i]
}

/// `ArrayVec::clone`: a vector of the same steps.
#[verifier::external_body]
fn steps_clone(s: &ArrayVec<TraversalStep, 16>) -> (c: ArrayVec<TraversalStep, 16>)
    ensures
        stack_steps(c) == stack_steps(*s),
{
    s.clone()
}

/// A fixed-capacity stack of [`TraversalStep`]s representing the path taken from the root
/// to the target node, in root-to-leaf order; at most 16 steps.
pub struct TraversalStack(ArrayVec<TraversalStep, 16>);

impl View for TraversalStack {
    type V = Seq<(u64, u8)>;

    closed spec fn view(&self) -> Seq<(u64, u8)> {
        stack_steps(self.0)
    }
}

impl TraversalStack {
    /// Returns an empty stack.
    pub fn new() -> (s: Self)
        ensures
            s@ == Seq::<(u64, u8)>::empty(),
    {
        TraversalStack(steps_new())
    }

    /// Pushes a step onto the stack.
    pub fn push(&mut self, step: TraversalStep)
        requires
            old(self)@.len() < 16,
        ensures
            final(self)@ == old(self)@.push(step_value(step)),
    {
        steps_push(&mut self.0, step)
    }

    /// Returns the number of steps.
    pub fn len(&self) -> (n: usize)
        ensures
            n == self@.len(),
            n <= 16,
    {
        steps_len(&self.0)
    }

    /// Returns the step at position `i`.
    pub fn step(&self, i: usize) -> (step: TraversalStep)
        requires
            i < self@.len(),
        ensures
            step_value(step) == self@[i as int],
    {
        steps_get(&self.0, i)
    }

    /// Renders the stack as a header line with the number of steps, then one line per
    /// step, the last one drawn with a closing corner.
    pub fn debug_string(&self) -> (s: String)
        ensures
            s@ == stack_text(self@),
    {
        proof {
            reveal_strlit("TraversalStack (");
            reveal_strlit(" steps):\n");
            reveal_strlit("├─ ");
            reveal_strlit("└─ ");
            reveal_strlit("\n");
        }
        let n = self.len();
        let mut s = String::new();
        s.append("TraversalStack (");
        push_decimal(&mut s, n as u64);
        s.append(" steps):\n");
        let ghost head = s@;
        let mut i: usize = 0;
        while i < n
            invariant
                i <= n,
                n == self@.len(),
                s@ == head + steps_text(self@, i as int),
            decreases n - i,
        {
            let step = self.step(i);
            if i + 1 < n {
                s.append("├─ ");
            } else {
                s.append("└─ ");
            }
            step_debug_into(&mut s, step);
            s.append("\n");
            proof {
                assert(s@ =~= head + steps_text(self@, (i + 1) as int));
            }
            i = i + 1;
        }
        s
    }
}

impl core::ops::Deref for TraversalStack {
    type Target = ArrayVec<TraversalStep, 16>;

    fn deref(&self) -> (r: &ArrayVec<TraversalStep, 16>)
        ensures
            stack_steps(*r) == self@,
    {
        &self.0
    }
}

impl Default for TraversalStack {
    fn default() -> (s: Self)
        ensures
            s@ == Seq::<(u64, u8)>::empty(),
    {
        TraversalStack::new()
    }
}

impl Clone for TraversalStack {
    fn clone(&self) -> (c: Self)
        ensures
            c@ == self@,
    {
        TraversalStack(steps_clone(&self.0))
    }
}

/// An immutable context for performing immutable actions on the [`Tree`] at an already
/// traversed location, given by its [`TraversalStack`].
pub struct TraversalContext<'a, L> {
    pub tree: &'a Tree<L>,
    pub stack: TraversalStack,
}

/// A mutable context for performing actions on the [`Tree`] at an already traversed
/// location, given by its [`TraversalStack`].
pub struct TraversalContextMut<'a, L> {
    pub tree: &'a mut Tree<L>,
    pub stack: TraversalStack,
}

/// `ChildSlot(n)`.
pub open spec fn slot_text(slot: u8) -> Seq<char> {
    "ChildSlot("@ + crate::text::dec_digits(slot as nat) + ")"@
}

/// `TraversalStep { to: <address>, slot: ChildSlot(n) }`.
pub open spec fn step_text(step: (u64, u8)) -> Seq<char> {
    "TraversalStep { to: "@ + address_text(step.0) + ", slot: "@ + slot_text(step.1) + " }"@
}

/// The lines of the first `n` steps of `steps`.
pub open spec fn steps_text(steps: Seq<(u64, u8)>, n: int) -> Seq<char>
    decreases n,
{
    if n <= 0 {
        Seq::empty()
    } else {
        steps_text(steps, n - 1) + (if n < steps.len() {
            "├─ "@
        } else {
            "└─ "@
        }) + step_text(steps[n - 1]) + "\n"@
    }
}

/// The debug rendering of a traversal stack.
pub open spec fn stack_text(steps: Seq<(u64, u8)>) -> Seq<char> {
    "TraversalStack ("@ + crate::text::dec_digits(steps.len()) + " steps):\n"@ + steps_text(
        steps,
        steps.len() as int,
    )
}

/// The first `n` lines of a stack's rendering are its first `n` steps, each on a line of
/// its own, in order.
proof fn lemma_steps_text_lines(steps: Seq<(u64, u8)>, n: nat)
    requires
        n <= steps.len(),
    ensures
        steps_text(steps, n as int) == Seq::new(
            n,
            |i: int|
                (if i + 1 == steps.len() {
                    "└─ "@
                } else {
                    "├─ "@
                }) + step_text(steps[i]) + "\n"@,
        ).flatten_alt(),
    decreases n,
{
    if n > 0 {
        lemma_steps_text_lines(steps, (n - 1) as nat);
        let line = |i: int|
            (if i + 1 == steps.len() {
                "└─ "@
            } else {
                "├─ "@
            }) + step_text(steps[i]) + "\n"@;
        let lines = Seq::new(n, line);
        assert(lines.drop_last() =~= Seq::new((n - 1) as nat, line));
        assert(steps_text(steps, n as int) =~= lines.drop_last().flatten_alt() + lines.last());
    }
}

/// The rendering of a traversal stack is its header and then one line per step, in order:
/// the line of the last step starts with a closing corner `└─`, and the line of every
/// earlier step with a tee `├─`.
pub proof fn lemma_stack_text_lines(steps: Seq<(u64, u8)>)
    ensures
        stack_text(steps) == "TraversalStack ("@ + crate::text::dec_digits(steps.len())
            + " steps):\n"@ + Seq::new(
            steps.len(),
            |i: int|
                (if i + 1 == steps.len() {
                    "└─ "@
                } else {
                    "├─ "@
                }) + step_text(steps[i]) + "\n"@,
        ).flatten(),
{
    let lines = Seq::new(
        steps.len(),
        |i: int|
            (if i + 1 == steps.len() {
                "└─ "@
            } else {
                "├─ "@
            }) + step_text(steps[i]) + "\n"@,
    );
    lemma_steps_text_lines(steps, steps.len());
    lines.lemma_flatten_and_flatten_alt_are_equivalent();
}

/// Appends the rendering of `step` to `s`.
pub fn step_debug_into(s: &mut String, step: TraversalStep)
    ensures
        final(s)@ == old(s)@ + step_text(step_value(step)),
{
    proof {
        reveal_strlit("TraversalStep { to: ");
        reveal_strlit(", slot: ");
        reveal_strlit("ChildSlot(");
        reveal_strlit(")");
        reveal_strlit(" }");
    }
    s.append("TraversalStep { to: ");
    step.to.debug_into(s);
    s.append(", slot: ");
    s.append("ChildSlot(");
    push_decimal(s, step.slot.get() as u64);
    s.append(")");
    s.append(" }");
    assert(final(s)@ =~= old(s)@ + step_text(step_value(step)));
}

impl TraversalStep {
    /// Renders the step as `TraversalStep { to: <address>, slot: ChildSlot(n) }`.
    pub fn debug_string(&self) -> (s: String)
        ensures
            s@ == step_text(step_value(*self)),
    {
        let mut s = String::new();
        step_debug_into(&mut s, *self);
        assert(s@ =~= step_text(step_value(*self)));
        s
    }
}

} // verus!
