//! The frames that tell the collector where the program keeps references.

use vstd::prelude::*;

verus! {

/// A stack of frames, each with its roots: addresses of objects, or null. A
/// collection puts the new address of a moved object into its root.
pub struct ShadowStack {
    pub frames: Vec<Vec<usize>>,
}

impl View for ShadowStack {
    type V = Seq<Seq<usize>>;

    open spec fn view(&self) -> Seq<Seq<usize>> {
        Seq::new(self.frames@.len(), |i: int| self.frames@[i]@)
    }
}

impl ShadowStack {
    /// A stack without frames.
    pub fn new() -> (stack: ShadowStack)
        ensures
            stack@ == Seq::<Seq<usize>>::empty(),
    {
        let stack = ShadowStack { frames: Vec::new() };
        assert(stack@ =~= Seq::<Seq<usize>>::empty());
        stack
    }
}

/// Registers a frame with `roots`.
pub fn lo_push_frame(stack: &mut ShadowStack, roots: Vec<usize>)
    ensures
        final(stack)@ == old(stack)@.push(roots@),
{
    stack.frames.push(roots);
    assert(stack@ =~= old(stack)@.push(roots@));
}

/// Takes the newest frame off, and hands its roots back.
pub fn lo_pop_frame(stack: &mut ShadowStack) -> (roots: Vec<usize>)
    requires
        old(stack)@.len() > 0,
    ensures
        roots@ == old(stack)@.last(),
        final(stack)@ == old(stack)@.drop_last(),
{
    let roots: Vec<usize> = stack.frames.pop().unwrap();
    assert(stack@ =~= old(stack)@.drop_last());
    roots
}

/// Law: a stack holds as many frames as were put on it, each with its roots, the
/// oldest first.
pub proof fn law_stack_frames(stack: ShadowStack, i: int)
    requires
        0 <= i < stack.frames@.len(),
    ensures
        stack@.len() == stack.frames@.len(),
        stack@[i] == stack.frames@[i]@,
{
}

} // verus!
