//! What holds of the heap over several operations.

use vstd::prelude::*;

use crate::abort::Abort;
use crate::allocator::string_has_size;
use crate::cast::{extends_class, law_extends_reflexive};
use crate::object::{
    lemma_string_bytes_len, lemma_word_bytes_len, object_bytes, rounded_size, string_bytes,
    string_size, ClassDescriptor, CLASS_WIDTH, OBJECT_ALIGN, OBJECT_SIZE,
};
use crate::runtime::{
    allocated, allocated_with_roots, attempted, collects_from, lemma_allocated_place, Runtime,
    RuntimeState,
};
use crate::state::{HeapState, HEAP_ALIGN};

verus! {

/// Law: the semispaces are of equal size, lie side by side, do not overlap, and
/// fill the managed region; both start at a multiple of the heap alignment.
pub proof fn law_semispaces(heap: HeapState)
    requires
        heap.wf(),
        heap.ready(),
    ensures
        heap.from_limit - heap.from_base == heap.to_limit - heap.to_base,
        heap.from_limit == heap.to_base || heap.to_limit == heap.from_base,
        forall|addr: int|
            heap.in_region(addr, 1) <==> (heap.from_base <= addr < heap.from_limit
                || heap.to_base <= addr < heap.to_limit),
        heap.from_base % (HEAP_ALIGN as int) == 0,
        heap.to_base % (HEAP_ALIGN as int) == 0,
{
}

/// Law: a fresh heap is empty and all zeros, holds as much as one semispace, and
/// its first object will be aligned.
pub proof fn law_fresh_heap(heap: HeapState, base: int, semi: int)
    requires
        heap.opened(base, semi).wf(),
        0 < base,
    ensures
        heap.opened(base, semi).ready(),
        heap.opened(base, semi).used() == 0,
        heap.opened(base, semi).aligned(),
        forall|size: int| heap.opened(base, semi).fits(size) <==> size <= semi,
        forall|addr: int| base <= addr < base + 2 * semi ==> heap.opened(base, semi).byte(addr) == 0,
{
}

/// Law: after a shutdown there is no managed region, nothing is in use and
/// nothing fits; one more shutdown changes nothing; and what a heap is set up to
/// be does not depend on what it was.
pub proof fn law_shutdown(heap: HeapState, base: int, semi: int)
    requires
        heap.wf(),
    ensures
        heap.released().wf(),
        heap.released().blank(),
        heap.released().used() == 0,
        forall|size: int| !heap.released().fits(size),
        heap.released().released() == heap.released(),
        heap.released().opened(base, semi) == heap.opened(base, semi),
{
}

/// Law: a flip makes what was inactive active, with the bytes up to `new_free`
/// in use, and leaves the semispace that was active inactive as a whole; memory
/// itself stays as it is.
pub proof fn law_flip(heap: HeapState, new_free: int)
    requires
        heap.wf(),
        heap.to_base <= new_free <= heap.to_limit,
    ensures
        heap.flipped(new_free).wf(),
        heap.flipped(new_free).used() == new_free - heap.to_base,
        heap.flipped(new_free).semi() == heap.semi(),
        heap.flipped(new_free).to_base == heap.from_base,
        heap.flipped(new_free).to_limit == heap.from_limit,
        forall|addr: int| #[trigger] heap.flipped(new_free).byte(addr) == heap.byte(addr),
        heap.same_region(heap.flipped(new_free)),
        heap.ready() ==> forall|size: int|
            heap.flipped(new_free).has_room(size) <==> size <= heap.semi() - (new_free
                - heap.to_base),
{
}

/// Law: flipping back undoes a flip.
pub proof fn law_flip_twice(heap: HeapState, new_free: int)
    ensures
        heap.flipped(new_free).flipped(heap.free) == heap,
{
}

/// Law: a placed object starts at the first aligned address behind the objects
/// before it, takes exactly its size, reads back as what it was made of, and
/// leaves every object and the program image as they were.
pub proof fn law_placed_object(heap: HeapState, object: Seq<u8>)
    requires
        heap.wf(),
        heap.fits(object.len() as int),
    ensures
        heap.put(object).wf(),
        heap.same_region(heap.put(object)),
        heap.free <= heap.next() < heap.free + HEAP_ALIGN,
        heap.put(object).free == heap.next() + object.len(),
        heap.put(object).span(heap.next(), object.len() as int) == object,
        forall|addr: int, len: int|
            #![trigger heap.held(addr, len)]
            0 <= len && heap.held(addr, len) ==> {
                &&& heap.put(object).span(addr, len) == heap.span(addr, len)
                &&& heap.in_use(addr, len) ==> addr + len <= heap.free
            },
{
    heap.lemma_next();
    heap.lemma_put(object);
    assert forall|addr: int, len: int|
        #![trigger heap.held(addr, len)]
        0 <= len && heap.held(addr, len) implies {
        &&& heap.put(object).span(addr, len) == heap.span(addr, len)
        &&& heap.in_use(addr, len) ==> addr + len <= heap.free
    } by {
        let kept = heap.put(object).span(addr, len);
        assert(kept == heap.span(addr, len));
    }
}

/// Law: every object that is placed starts at a multiple of the heap alignment,
/// and so will the one after it; the sizes of objects and strings are multiples
/// of the object alignment.
pub proof fn law_alignment(heap: HeapState, class: u64, size: nat, content: Seq<u8>)
    requires
        heap.wf(),
        size >= OBJECT_SIZE,
    ensures
        heap.aligned(),
        heap.fits(rounded_size(size) as int) ==> heap.put(
            object_bytes(class, rounded_size(size)),
        ).aligned(),
        heap.fits(string_size(content.len()) as int) ==> heap.put(string_bytes(content)).aligned(),
        object_bytes(class, rounded_size(size)).len() % (OBJECT_ALIGN as nat) == 0,
        string_bytes(content).len() % (OBJECT_ALIGN as nat) == 0,
{
    lemma_word_bytes_len(class as nat, CLASS_WIDTH as nat);
    lemma_string_bytes_len(content);
    heap.lemma_next();
    if heap.fits(rounded_size(size) as int) {
        let object = object_bytes(class, rounded_size(size));
        heap.lemma_put(object);
        heap.put(object).lemma_next();
    }
    if heap.fits(string_size(content.len()) as int) {
        heap.lemma_put(string_bytes(content));
        heap.put(string_bytes(content)).lemma_next();
    }
}

/// Law: a string that fits into the heap is never refused as too large.
pub proof fn law_fitting_string_has_size(heap: HeapState, len: nat)
    requires
        heap.wf(),
        heap.fits(string_size(len) as int),
    ensures
        string_has_size(len),
{
    heap.lemma_next();
}

/// Law: whatever is done to a heap that keeps it in order and its region in
/// place, the active semispace is one of the two halves that it was set up
/// with, and what is in use lies within it.
pub proof fn law_halves_stay(states: Seq<HeapState>, heap: HeapState, base: int, semi: int)
    requires
        states.len() > 0,
        states[0] == heap.opened(base, semi),
        0 < base,
        forall|i: int| 0 <= i < states.len() ==> (#[trigger] states[i]).wf(),
        forall|i: int|
            0 <= i < states.len() - 1 ==> (#[trigger] states[i]).same_region(states[i + 1]),
    ensures
        states[0].same_region(states.last()),
        states.last().semi() == semi,
        states.last().from_base == base || states.last().from_base == base + semi,
        states.last().from_limit == states.last().from_base + semi,
        states.last().from_base % (HEAP_ALIGN as int) == 0,
        states.last().from_base <= states.last().free <= states.last().from_limit,
    decreases states.len(),
{
    if states.len() > 1 {
        let fewer = states.drop_last();
        assert forall|i: int| 0 <= i < fewer.len() implies (#[trigger] fewer[i]).wf() by {
            assert(states[i].wf());
        }
        assert forall|i: int| 0 <= i < fewer.len() - 1 implies (#[trigger] fewer[i]).same_region(
            fewer[i + 1],
        ) by {
            assert(states[i].same_region(states[i + 1]));
        }
        law_halves_stay(fewer, heap, base, semi);
        assert(states[states.len() - 2].same_region(states.last()));
    }
    assert(states.last().wf());
}

/// Law: taking bytes off the active semispace, placing an object, writing into
/// memory and a flip keep the program image and the managed region in place.
pub proof fn law_region_kept(
    heap: HeapState,
    size: int,
    object: Seq<u8>,
    addr: int,
    new_free: int,
)
    ensures
        heap.same_region(heap.bumped(size)),
        heap.same_region(heap.put(object)),
        heap.same_region(heap.write(addr, object)),
        heap.same_region(heap.flipped(new_free)),
{
}

/// Law: an object is zero behind the reference to its class.
pub proof fn law_object_zeroed(heap: HeapState, class: u64, size: nat, offset: int)
    requires
        heap.wf(),
        size >= OBJECT_SIZE,
        heap.fits(size as int),
        CLASS_WIDTH <= offset < size,
    ensures
        heap.put(object_bytes(class, size)).byte(heap.next() + offset) == 0,
{
    lemma_word_bytes_len(class as nat, CLASS_WIDTH as nat);
    let object = object_bytes(class, size);
    heap.lemma_put(object);
    assert(heap.put(object).span(heap.next(), size as int)[offset] == object[offset]);
}

/// Law: what is allocated lies at a multiple of the heap alignment, is in use
/// from its address on, and reads back as what it was made of; no object is at
/// null.
pub proof fn law_allocation_reads_back<C: FnOnce(Runtime) -> Runtime>(
    collect: C,
    before: RuntimeState,
    object: Seq<u8>,
    after: RuntimeState,
    addr: usize,
)
    requires
        collects_from(collect, before),
        before.heap.wf(),
        allocated(collect, before, object, after, Ok(addr)),
    ensures
        addr != 0,
        addr % HEAP_ALIGN == 0,
        after.heap.in_use(addr as int, object.len() as int),
        after.heap.span(addr as int, object.len() as int) == object,
{
    let place = lemma_allocated_place(collect, before, object, after, Ok(addr), object);
    place.heap.lemma_put(object);
    place.heap.lemma_next();
}

/// Law: a fresh object is an instance of the class that it was made of, and of
/// everything that the class extends.
pub proof fn law_fresh_instance<C: FnOnce(Runtime) -> Runtime>(
    collect: C,
    before: RuntimeState,
    classes: Seq<ClassDescriptor>,
    class: u64,
    size: nat,
    after: RuntimeState,
    addr: usize,
    target: u64,
)
    requires
        collects_from(collect, before),
        before.heap.wf(),
        class != 0,
        size >= OBJECT_SIZE,
        allocated(collect, before, object_bytes(class, size), after, Ok(addr)),
    ensures
        after.heap.readable(addr as int, OBJECT_SIZE as int),
        extends_class(classes, after.heap.class_at(addr as int), class),
        extends_class(classes, class, target) ==> extends_class(
            classes,
            after.heap.class_at(addr as int),
            target,
        ),
{
    let object = object_bytes(class, size);
    lemma_word_bytes_len(class as nat, CLASS_WIDTH as nat);
    let place = lemma_allocated_place(collect, before, object, after, Ok(addr), object);
    place.heap.lemma_put_object(class, size);
    law_extends_reflexive(classes, class);
}

/// Law: where there is room an allocation succeeds without a collection, and
/// nothing else changes.
pub proof fn law_no_collection_with_room<C: FnOnce(Runtime) -> Runtime>(
    collect: C,
    before: RuntimeState,
    roots: Seq<usize>,
    object: Seq<u8>,
    after: RuntimeState,
    result: Result<usize, Abort>,
)
    requires
        before.heap.fits(object.len() as int),
        allocated(collect, before, object, after, result) || allocated_with_roots(
            collect,
            before,
            roots,
            object,
            after,
            result,
        ),
    ensures
        result matches Ok(addr) && addr == before.heap.next(),
        after == before.put(object),
{
}

/// Law: an allocation aborts only where a collection has run and has left too
/// little room for the request.
pub proof fn law_abort_only_when_full<C: FnOnce(Runtime) -> Runtime>(
    collect: C,
    before: RuntimeState,
    object: Seq<u8>,
    after: RuntimeState,
    abort: Abort,
)
    requires
        allocated(collect, before, object, after, Err(abort)),
    ensures
        abort.is_out_of_memory(),
        !before.heap.fits(object.len() as int),
        !after.heap.fits(object.len() as int),
        exists|start: Runtime, end: Runtime|
            start@ == before && end@ == after && #[trigger] call_ensures(collect, (start,), end),
{
    let (start, end) = choose|start: Runtime, end: Runtime|
        {
            &&& start.wf()
            &&& start@ == before
            &&& #[trigger] call_ensures(collect, (start,), end)
            &&& attempted(end@, object, after, Err(abort))
        };
    assert(end@ == after);
}

} // verus!
