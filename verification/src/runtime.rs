//! The runtime as a whole, what is asked of a collector, and what an
//! allocation may come to.

use vstd::prelude::*;

use crate::abort::Abort;
use crate::memory::Heap;
use crate::shadow_stack::ShadowStack;
use crate::state::HeapState;

verus! {

/// Memory, and the frames that hold references into it.
pub struct Runtime {
    pub heap: Heap,
    pub stack: ShadowStack,
}

/// What a runtime holds.
#[verifier::ext_equal]
pub struct RuntimeState {
    pub heap: HeapState,
    pub frames: Seq<Seq<usize>>,
}

impl View for Runtime {
    type V = RuntimeState;

    open spec fn view(&self) -> RuntimeState {
        RuntimeState { heap: self.heap@, frames: self.stack@ }
    }
}

impl Runtime {
    /// What holds of a runtime at all times.
    pub open spec fn wf(&self) -> bool {
        self.heap.wf()
    }

    /// A runtime that holds a program image, with no managed region and no
    /// frames yet.
    pub fn new(image_base: usize, image: Vec<u8>) -> (rt: Runtime)
        requires
            0 < image_base,
            image_base + image@.len() <= usize::MAX,
        ensures
            rt.wf(),
            rt@.heap.blank(),
            rt@.heap.image_base == image_base,
            rt@.heap.image == image@,
            rt@.frames == Seq::<Seq<usize>>::empty(),
    {
        Runtime { heap: Heap::new(image_base, image), stack: ShadowStack::new() }
    }
}

impl RuntimeState {
    /// The state with a frame on top that holds `roots`.
    pub open spec fn with_frame(self, roots: Seq<usize>) -> RuntimeState {
        RuntimeState { frames: self.frames.push(roots), ..self }
    }

    /// The state without its newest frame.
    pub open spec fn without_frame(self) -> RuntimeState {
        RuntimeState { frames: self.frames.drop_last(), ..self }
    }

    /// The state with `object` placed where the next object goes.
    pub open spec fn put(self, object: Seq<u8>) -> RuntimeState {
        RuntimeState { heap: self.heap.put(object), ..self }
    }

    /// The frames of `after` are those of `self`: wherever a root referred to a
    /// string it refers to a string with the same data, and wherever it was null
    /// it is null.
    pub open spec fn keeps_roots(self, after: RuntimeState) -> bool {
        &&& after.frames.len() == self.frames.len()
        &&& forall|i: int|
            0 <= i < self.frames.len() ==> (#[trigger] after.frames[i]).len()
                == self.frames[i].len()
        &&& forall|i: int, j: int|
            #![trigger after.frames[i][j]]
            0 <= i < self.frames.len() && 0 <= j < self.frames[i].len() ==> self.keeps_root(
                self.frames[i][j],
                after,
                after.frames[i][j],
            )
    }

    /// Where `root` is a string, `moved` is one with the same data in `after`;
    /// where `root` is null, so is `moved`.
    pub open spec fn keeps_root(self, root: usize, after: RuntimeState, moved: usize) -> bool {
        &&& self.heap.is_string(root as int) ==> {
            &&& after.heap.is_string(moved as int)
            &&& after.heap.string(moved as int) == self.heap.string(root as int)
        }
        &&& root == 0 ==> moved == 0
    }
}

/// `collect` can run on `before`, and leaves behind a runtime in order, with the
/// same program image and the same managed region.
pub open spec fn collects_from<C: FnOnce(Runtime) -> Runtime>(
    collect: C,
    before: RuntimeState,
) -> bool {
    &&& forall|rt: Runtime|
        rt.wf() && rt@ == before ==> #[trigger] call_requires(collect, (rt,))
    &&& forall|rt: Runtime, after: Runtime|
        rt.wf() && rt@ == before && #[trigger] call_ensures(collect, (rt,), after) ==> {
            &&& after.wf()
            &&& before.heap.same_region(after@.heap)
        }
}

/// `collect`, run on `before`, loses no string that a frame refers to.
pub open spec fn keeps_roots_from<C: FnOnce(Runtime) -> Runtime>(
    collect: C,
    before: RuntimeState,
) -> bool {
    forall|rt: Runtime, after: Runtime|
        rt.wf() && rt@ == before && #[trigger] call_ensures(collect, (rt,), after)
            ==> before.keeps_roots(after@)
}

/// One attempt to place `object`: it goes to the first aligned address behind
/// what is in use, which is the result, or there is no room, and nothing
/// changes.
pub open spec fn attempted(
    before: RuntimeState,
    object: Seq<u8>,
    after: RuntimeState,
    result: Result<usize, Abort>,
) -> bool {
    if before.heap.fits(object.len() as int) {
        &&& result matches Ok(addr)
        &&& addr == before.heap.next()
        &&& after == before.put(object)
    } else {
        &&& result matches Err(abort)
        &&& abort.is_out_of_memory()
        &&& after == before
    }
}

/// An allocation of `object`: where there is room it is placed, and else one
/// collection runs and one more attempt is made on what it leaves.
pub open spec fn allocated<C: FnOnce(Runtime) -> Runtime>(
    collect: C,
    before: RuntimeState,
    object: Seq<u8>,
    after: RuntimeState,
    result: Result<usize, Abort>,
) -> bool {
    if before.heap.fits(object.len() as int) {
        attempted(before, object, after, result)
    } else {
        exists|start: Runtime, end: Runtime|
            {
                &&& start.wf()
                &&& start@ == before
                &&& #[trigger] call_ensures(collect, (start,), end)
                &&& attempted(end@, object, after, result)
            }
    }
}

/// An allocation of `object` while a frame holds `roots`, which is gone
/// afterwards.
pub open spec fn allocated_with_roots<C: FnOnce(Runtime) -> Runtime>(
    collect: C,
    before: RuntimeState,
    roots: Seq<usize>,
    object: Seq<u8>,
    after: RuntimeState,
    result: Result<usize, Abort>,
) -> bool {
    if before.heap.fits(object.len() as int) {
        attempted(before, object, after, result)
    } else {
        exists|start: Runtime, end: Runtime|
            {
                &&& start.wf()
                &&& start@ == before.with_frame(roots)
                &&& #[trigger] call_ensures(collect, (start,), end)
                &&& attempted(end@.without_frame(), object, after, result)
            }
    }
}

/// A successful allocation of `object` at `addr` while a frame held `roots`,
/// after which the frame held `moved`.
pub open spec fn relocated<C: FnOnce(Runtime) -> Runtime>(
    collect: C,
    before: RuntimeState,
    roots: Seq<usize>,
    object: Seq<u8>,
    after: RuntimeState,
    addr: usize,
    moved: Seq<usize>,
) -> bool {
    if before.heap.fits(object.len() as int) {
        &&& attempted(before, object, after, Ok(addr))
        &&& moved == roots
    } else {
        exists|start: Runtime, end: Runtime|
            {
                &&& start.wf()
                &&& start@ == before.with_frame(roots)
                &&& #[trigger] call_ensures(collect, (start,), end)
                &&& attempted(end@.without_frame(), object, after, Ok(addr))
                &&& moved == end@.frames.last()
            }
    }
}

/// A successful allocation places its object on some state in order; any other
/// object of that size would have gone to the same place.
pub proof fn lemma_allocated_place<C: FnOnce(Runtime) -> Runtime>(
    collect: C,
    before: RuntimeState,
    object: Seq<u8>,
    after: RuntimeState,
    result: Result<usize, Abort>,
    other: Seq<u8>,
) -> (place: RuntimeState)
    requires
        collects_from(collect, before),
        before.heap.wf(),
        allocated(collect, before, object, after, result),
        result is Ok,
        other.len() == object.len(),
    ensures
        place.heap.wf(),
        place.heap.fits(object.len() as int),
        before.heap.same_region(place.heap),
        result->Ok_0 == place.heap.next(),
        after == place.put(object),
        allocated(collect, before, other, place.put(other), result),
        keeps_roots_from(collect, before) ==> before.keeps_roots(place),
{
    if before.heap.fits(object.len() as int) {
        assert(before.keeps_roots(before));
        before
    } else {
        let (start, end) = choose|start: Runtime, end: Runtime|
            {
                &&& start.wf()
                &&& start@ == before
                &&& #[trigger] call_ensures(collect, (start,), end)
                &&& attempted(end@, object, after, result)
            };
        assert(attempted(end@, other, end@.put(other), result));
        end@
    }
}

/// Placing an object leaves the strings that frames refer to as they are.
pub proof fn lemma_put_keeps_roots(before: RuntimeState, object: Seq<u8>)
    requires
        before.heap.wf(),
        before.heap.fits(object.len() as int),
    ensures
        before.keeps_roots(before.put(object)),
{
    let after = before.put(object);
    assert forall|i: int, j: int|
        #![trigger after.frames[i][j]]
        0 <= i < before.frames.len() && 0 <= j < before.frames[i].len() implies before.keeps_root(
        before.frames[i][j],
        after,
        after.frames[i][j],
    ) by {
        if before.heap.is_string(before.frames[i][j] as int) {
            before.heap.lemma_put_keeps_string(object, before.frames[i][j] as int);
        }
    }
}

/// What keeps the roots twice keeps them.
pub proof fn lemma_keeps_roots_trans(a: RuntimeState, b: RuntimeState, c: RuntimeState)
    requires
        a.keeps_roots(b),
        b.keeps_roots(c),
    ensures
        a.keeps_roots(c),
{
    assert forall|i: int| 0 <= i < a.frames.len() implies (#[trigger] c.frames[i]).len()
        == a.frames[i].len() by {
        assert(b.frames[i].len() == a.frames[i].len());
    }
    assert forall|i: int, j: int|
        #![trigger c.frames[i][j]]
        0 <= i < a.frames.len() && 0 <= j < a.frames[i].len() implies a.keeps_root(
        a.frames[i][j],
        c,
        c.frames[i][j],
    ) by {
        assert(b.frames[i].len() == a.frames[i].len());
        let middle = b.frames[i][j];
        assert(a.keeps_root(a.frames[i][j], b, middle));
    }
}

/// Law: an allocation loses no string that a frame refers to, whether it
/// succeeds or not, if the collector loses none.
pub proof fn law_allocation_keeps_roots<C: FnOnce(Runtime) -> Runtime>(
    collect: C,
    before: RuntimeState,
    object: Seq<u8>,
    after: RuntimeState,
    result: Result<usize, Abort>,
)
    requires
        collects_from(collect, before),
        keeps_roots_from(collect, before),
        before.heap.wf(),
        allocated(collect, before, object, after, result),
    ensures
        before.keeps_roots(after),
{
    if result is Ok {
        let place = lemma_allocated_place(collect, before, object, after, result, object);
        lemma_put_keeps_roots(place, object);
        lemma_keeps_roots_trans(before, place, after);
    } else {
        assert(!before.heap.fits(object.len() as int));
    }
}

/// A successful allocation with roots places its object on some state in order,
/// on which the moved roots refer to the strings that the roots referred to;
/// any other object of that size would have gone to the same place.
pub proof fn lemma_relocated_place<C: FnOnce(Runtime) -> Runtime>(
    collect: C,
    before: RuntimeState,
    roots: Seq<usize>,
    object: Seq<u8>,
    after: RuntimeState,
    addr: usize,
    moved: Seq<usize>,
    other: Seq<u8>,
) -> (place: RuntimeState)
    requires
        collects_from(collect, before.with_frame(roots)),
        keeps_roots_from(collect, before.with_frame(roots)),
        before.heap.wf(),
        relocated(collect, before, roots, object, after, addr, moved),
        other.len() == object.len(),
    ensures
        place.heap.wf(),
        place.heap.fits(object.len() as int),
        before.heap.same_region(place.heap),
        addr == place.heap.next(),
        after == place.put(object),
        allocated_with_roots(collect, before, roots, other, place.put(other), Ok(addr)),
        moved.len() == roots.len(),
        forall|j: int|
            #![trigger moved[j]]
            0 <= j < roots.len() ==> before.keeps_root(roots[j], place, moved[j]),
{
    if before.heap.fits(object.len() as int) {
        assert(attempted(before, other, before.put(other), Ok(addr)));
        before
    } else {
        let (start, end) = choose|start: Runtime, end: Runtime|
            {
                &&& start.wf()
                &&& start@ == before.with_frame(roots)
                &&& #[trigger] call_ensures(collect, (start,), end)
                &&& attempted(end@.without_frame(), object, after, Ok(addr))
                &&& moved == end@.frames.last()
            };
        let place = end@.without_frame();
        let last = before.frames.len() as int;
        assert(attempted(place, other, place.put(other), Ok(addr)));
        assert(start@.keeps_roots(end@));
        assert(start@.frames[last] == roots);
        assert(end@.frames[last] == moved);
        assert forall|j: int|
            #![trigger moved[j]]
            0 <= j < roots.len() implies before.keeps_root(roots[j], place, moved[j]) by {
            assert(end@.frames[last][j] == moved[j]);
            assert(start@.keeps_root(start@.frames[last][j], end@, end@.frames[last][j]));
        }
        place
    }
}

/// Law: an allocation with roots loses no string that a frame refers to,
/// whether it succeeds or not, if the collector loses none.
pub proof fn law_rooted_allocation_keeps_roots<C: FnOnce(Runtime) -> Runtime>(
    collect: C,
    before: RuntimeState,
    roots: Seq<usize>,
    object: Seq<u8>,
    after: RuntimeState,
    result: Result<usize, Abort>,
)
    requires
        collects_from(collect, before.with_frame(roots)),
        keeps_roots_from(collect, before.with_frame(roots)),
        before.heap.wf(),
        allocated_with_roots(collect, before, roots, object, after, result),
    ensures
        before.keeps_roots(after),
{
    if before.heap.fits(object.len() as int) {
        lemma_put_keeps_roots(before, object);
    } else {
        let (start, end) = choose|start: Runtime, end: Runtime|
            {
                &&& start.wf()
                &&& start@ == before.with_frame(roots)
                &&& #[trigger] call_ensures(collect, (start,), end)
                &&& attempted(end@.without_frame(), object, after, result)
            };
        let place = end@.without_frame();
        assert(start@.keeps_roots(end@));
        assert(before.keeps_roots(place)) by {
            assert forall|i: int| 0 <= i < before.frames.len() implies (
            #[trigger] place.frames[i]).len() == before.frames[i].len() by {
                assert(end@.frames[i].len() == start@.frames[i].len());
            }
            assert forall|i: int, j: int|
                #![trigger place.frames[i][j]]
                0 <= i < before.frames.len() && 0 <= j < before.frames[i].len()
                    implies before.keeps_root(
                before.frames[i][j],
                place,
                place.frames[i][j],
            ) by {
                assert(start@.frames[i] == before.frames[i]);
                assert(end@.frames[i][j] == place.frames[i][j]);
                assert(start@.keeps_root(start@.frames[i][j], end@, end@.frames[i][j]));
            }
        }
        if place.heap.fits(object.len() as int) {
            lemma_put_keeps_roots(place, object);
            lemma_keeps_roots_trans(before, place, after);
        }
    }
}

/// Law: an allocation, and the collection that it may take, keep the program
/// image and the managed region where they are.
pub proof fn law_allocation_keeps_region<C: FnOnce(Runtime) -> Runtime>(
    collect: C,
    before: RuntimeState,
    object: Seq<u8>,
    after: RuntimeState,
    result: Result<usize, Abort>,
)
    requires
        collects_from(collect, before),
        allocated(collect, before, object, after, result),
    ensures
        before.heap.same_region(after.heap),
{
}

/// Law: an allocation with roots, and the collection that it may take, keep the
/// program image and the managed region where they are.
pub proof fn law_rooted_allocation_keeps_region<C: FnOnce(Runtime) -> Runtime>(
    collect: C,
    before: RuntimeState,
    roots: Seq<usize>,
    object: Seq<u8>,
    after: RuntimeState,
    result: Result<usize, Abort>,
)
    requires
        collects_from(collect, before.with_frame(roots)),
        allocated_with_roots(collect, before, roots, object, after, result),
    ensures
        before.heap.same_region(after.heap),
{
}

} // verus!
