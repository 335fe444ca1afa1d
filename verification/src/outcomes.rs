//! What an allocation comes to, told from the bounds of the heap and its bytes.

use vstd::prelude::*;

use crate::abort::Abort;
use crate::geometry::law_room;
use crate::object::{lemma_string_bytes_len, string_bytes};
use crate::runtime::{
    allocated, allocated_with_roots, attempted, collects_from, keeps_roots_from, relocated, Runtime,
    RuntimeState,
};
use crate::string_ops::{string_copied, string_made};

verus! {

/// One attempt, told from the bounds of the heap.
proof fn lemma_attempt(
    before: RuntimeState,
    object: Seq<u8>,
    after: RuntimeState,
    result: Result<usize, Abort>,
    start: int,
)
    requires
        before.heap.wf(),
        start % 16 == 0,
        before.heap.free <= start < before.heap.free + 16,
        attempted(before, object, after, result),
    ensures
        before.heap.next() == start,
        before.heap.fits(object.len() as int) <==> before.heap.base != 0 && start + object.len()
            <= before.heap.from_limit,
        before.heap.fits(object.len() as int) ==> {
            &&& result matches Ok(addr)
            &&& addr == start
            &&& after.frames == before.frames
            &&& after.heap.free == start + object.len()
            &&& after.heap.image_base == before.heap.image_base
            &&& after.heap.image == before.heap.image
            &&& after.heap.base == before.heap.base
            &&& after.heap.from_base == before.heap.from_base
            &&& after.heap.from_limit == before.heap.from_limit
            &&& after.heap.to_base == before.heap.to_base
            &&& after.heap.to_limit == before.heap.to_limit
            &&& after.heap.region.len() == before.heap.region.len()
            &&& forall|i: int|
                0 <= i < after.heap.region.len() ==> #[trigger] after.heap.region[i] == if start
                    <= after.heap.base + i < start + object.len() {
                    object[after.heap.base + i - start]
                } else {
                    before.heap.region[i]
                }
        },
        !before.heap.fits(object.len() as int) ==> {
            &&& result matches Err(abort)
            &&& abort.code == 137
            &&& abort.message@ == "lo_alloc: out of memory"@
            &&& after == before
        },
{
    law_room(before.heap, start, object.len() as int);
}

/// Law: a request is met without a collection whenever the object ends within
/// the active semispace when it starts at the first multiple of sixteen that is
/// not in use, whatever its size: it goes there, what is in use ends where it
/// ends, and nothing else changes.
pub proof fn law_room_is_used<C: FnOnce(Runtime) -> Runtime>(
    collect: C,
    before: RuntimeState,
    roots: Seq<usize>,
    object: Seq<u8>,
    after: RuntimeState,
    result: Result<usize, Abort>,
    start: int,
)
    requires
        before.heap.wf(),
        before.heap.base != 0,
        start % 16 == 0,
        before.heap.free <= start < before.heap.free + 16,
        start + object.len() <= before.heap.from_limit,
        allocated(collect, before, object, after, result) || allocated_with_roots(
            collect,
            before,
            roots,
            object,
            after,
            result,
        ),
    ensures
        result matches Ok(addr) && addr == start,
        after.frames == before.frames,
        after.heap.free == start + object.len(),
        after.heap.image_base == before.heap.image_base,
        after.heap.image == before.heap.image,
        after.heap.base == before.heap.base,
        after.heap.from_base == before.heap.from_base,
        after.heap.from_limit == before.heap.from_limit,
        after.heap.to_base == before.heap.to_base,
        after.heap.to_limit == before.heap.to_limit,
        after.heap.region.len() == before.heap.region.len(),
        forall|i: int|
            0 <= i < after.heap.region.len() ==> #[trigger] after.heap.region[i] == if start
                <= after.heap.base + i < start + object.len() {
                object[after.heap.base + i - start]
            } else {
                before.heap.region[i]
            },
{
    law_room(before.heap, start, object.len() as int);
    lemma_attempt(before, object, after, result, start);
}

/// Law: where the object would end behind the active semispace one collection
/// runs, on the state as it is. On what it leaves the object is placed if it
/// ends within the active semispace now, and else the process must end.
pub proof fn law_full_heap_collects<C: FnOnce(Runtime) -> Runtime>(
    collect: C,
    before: RuntimeState,
    object: Seq<u8>,
    after: RuntimeState,
    result: Result<usize, Abort>,
    start: int,
) -> (run: (Runtime, Runtime))
    requires
        collects_from(collect, before),
        before.heap.wf(),
        start % 16 == 0,
        before.heap.free <= start < before.heap.free + 16,
        before.heap.base == 0 || start + object.len() > before.heap.from_limit,
        allocated(collect, before, object, after, result),
    ensures
        run.0.wf(),
        run.0@ == before,
        call_ensures(collect, (run.0,), run.1),
        (run.1@.heap.base != 0 && (run.1@.heap.free + 15) / 16 * 16 + object.len()
            <= run.1@.heap.from_limit) ==> {
            let place = (run.1@.heap.free + 15) / 16 * 16;
            &&& result matches Ok(addr)
            &&& addr == place
            &&& after.frames == run.1@.frames
            &&& after.heap.free == place + object.len()
            &&& after.heap.image_base == run.1@.heap.image_base
            &&& after.heap.image == run.1@.heap.image
            &&& after.heap.base == run.1@.heap.base
            &&& after.heap.from_base == run.1@.heap.from_base
            &&& after.heap.from_limit == run.1@.heap.from_limit
            &&& after.heap.to_base == run.1@.heap.to_base
            &&& after.heap.to_limit == run.1@.heap.to_limit
            &&& after.heap.region.len() == run.1@.heap.region.len()
            &&& forall|i: int|
                0 <= i < after.heap.region.len() ==> #[trigger] after.heap.region[i] == if place
                    <= after.heap.base + i < place + object.len() {
                    object[after.heap.base + i - place]
                } else {
                    run.1@.heap.region[i]
                }
        },
        !(run.1@.heap.base != 0 && (run.1@.heap.free + 15) / 16 * 16 + object.len()
            <= run.1@.heap.from_limit) ==> {
            &&& result matches Err(abort)
            &&& abort.code == 137
            &&& abort.message@ == "lo_alloc: out of memory"@
            &&& after.heap == run.1@.heap
            &&& after.frames == run.1@.frames
        },
{
    law_room(before.heap, start, object.len() as int);
    let (first, last) = choose|first: Runtime, last: Runtime|
        {
            &&& first.wf()
            &&& first@ == before
            &&& #[trigger] call_ensures(collect, (first,), last)
            &&& attempted(last@, object, after, result)
        };
    let place = (last@.heap.free + 15) / 16 * 16;
    lemma_attempt(last@, object, after, result, place);
    (first, last)
}

/// Law: where an object that is asked for while a frame holds `roots` would end
/// behind the active semispace, one collection runs, with that frame on top. On
/// what it leaves the object is placed if it ends within the active semispace
/// now, and else the process must end; the frame is gone either way.
pub proof fn law_full_heap_collects_with_roots<C: FnOnce(Runtime) -> Runtime>(
    collect: C,
    before: RuntimeState,
    roots: Seq<usize>,
    object: Seq<u8>,
    after: RuntimeState,
    result: Result<usize, Abort>,
    start: int,
) -> (run: (Runtime, Runtime))
    requires
        collects_from(collect, before.with_frame(roots)),
        before.heap.wf(),
        start % 16 == 0,
        before.heap.free <= start < before.heap.free + 16,
        before.heap.base == 0 || start + object.len() > before.heap.from_limit,
        allocated_with_roots(collect, before, roots, object, after, result),
    ensures
        run.0.wf(),
        run.0@.heap == before.heap,
        run.0@.frames == before.frames.push(roots),
        call_ensures(collect, (run.0,), run.1),
        (run.1@.heap.base != 0 && (run.1@.heap.free + 15) / 16 * 16 + object.len()
            <= run.1@.heap.from_limit) ==> {
            let place = (run.1@.heap.free + 15) / 16 * 16;
            &&& result matches Ok(addr)
            &&& addr == place
            &&& after.frames == run.1@.frames.drop_last()
            &&& after.heap.free == place + object.len()
            &&& after.heap.image_base == run.1@.heap.image_base
            &&& after.heap.image == run.1@.heap.image
            &&& after.heap.base == run.1@.heap.base
            &&& after.heap.from_base == run.1@.heap.from_base
            &&& after.heap.from_limit == run.1@.heap.from_limit
            &&& after.heap.to_base == run.1@.heap.to_base
            &&& after.heap.to_limit == run.1@.heap.to_limit
            &&& after.heap.region.len() == run.1@.heap.region.len()
            &&& forall|i: int|
                0 <= i < after.heap.region.len() ==> #[trigger] after.heap.region[i] == if place
                    <= after.heap.base + i < place + object.len() {
                    object[after.heap.base + i - place]
                } else {
                    run.1@.heap.region[i]
                }
        },
        !(run.1@.heap.base != 0 && (run.1@.heap.free + 15) / 16 * 16 + object.len()
            <= run.1@.heap.from_limit) ==> {
            &&& result matches Err(abort)
            &&& abort.code == 137
            &&& abort.message@ == "lo_alloc: out of memory"@
            &&& after.heap == run.1@.heap
            &&& after.frames == run.1@.frames.drop_last()
        },
{
    law_room(before.heap, start, object.len() as int);
    let (first, last) = choose|first: Runtime, last: Runtime|
        {
            &&& first.wf()
            &&& first@ == before.with_frame(roots)
            &&& #[trigger] call_ensures(collect, (first,), last)
            &&& attempted(last@.without_frame(), object, after, result)
        };
    let place = (last@.heap.free + 15) / 16 * 16;
    lemma_attempt(last@.without_frame(), object, after, result, place);
    (first, last)
}

/// Law: the roots that an allocation hands back are the ones it was given, where
/// no collection ran, and else what the collector put into the frame.
pub proof fn law_moved_roots<C: FnOnce(Runtime) -> Runtime>(
    collect: C,
    before: RuntimeState,
    roots: Seq<usize>,
    object: Seq<u8>,
    after: RuntimeState,
    addr: usize,
    moved: Seq<usize>,
    start: int,
)
    requires
        before.heap.wf(),
        start % 16 == 0,
        before.heap.free <= start < before.heap.free + 16,
        relocated(collect, before, roots, object, after, addr, moved),
    ensures
        allocated_with_roots(collect, before, roots, object, after, Ok(addr)),
        before.heap.base != 0 && start + object.len() <= before.heap.from_limit ==> moved == roots,
        before.heap.base == 0 || start + object.len() > before.heap.from_limit ==> exists|
            first: Runtime,
            last: Runtime,
        |
            {
                &&& first@.heap == before.heap
                &&& first@.frames == before.frames.push(roots)
                &&& #[trigger] call_ensures(collect, (first,), last)
                &&& moved == last@.frames.last()
            },
{
    law_room(before.heap, start, object.len() as int);
}

/// Law: a string is made without a collection whenever its twenty bytes of
/// header and length and its data, rounded up to a multiple of eight, end within
/// the active semispace when they start at the first multiple of sixteen that is
/// not in use, whatever its length up to the greatest `u32`. It goes there, and
/// nothing else changes.
pub proof fn law_string_room_is_used<C: FnOnce(Runtime) -> Runtime>(
    collect: C,
    before: RuntimeState,
    roots: Seq<usize>,
    content: Seq<u8>,
    after: RuntimeState,
    result: Result<usize, Abort>,
    start: int,
    size: int,
)
    requires
        before.heap.wf(),
        before.heap.base != 0,
        start % 16 == 0,
        before.heap.free <= start < before.heap.free + 16,
        size % 8 == 0,
        content.len() + 20 <= size < content.len() + 28,
        start + size <= before.heap.from_limit,
        content.len() <= u32::MAX,
        string_made(collect, before, roots, content, after, result) || string_copied(
            collect,
            before,
            content,
            after,
            result,
        ),
    ensures
        result matches Ok(addr) && addr == start,
        after.heap.is_string(start),
        after.heap.string(start) == content,
        after.frames == before.frames,
        after.heap.free == start + size,
        after.heap.image_base == before.heap.image_base,
        after.heap.image == before.heap.image,
        after.heap.base == before.heap.base,
        after.heap.from_base == before.heap.from_base,
        after.heap.from_limit == before.heap.from_limit,
        after.heap.to_base == before.heap.to_base,
        after.heap.to_limit == before.heap.to_limit,
        after.heap.region.len() == before.heap.region.len(),
        forall|i: int|
            0 <= i < after.heap.region.len() && !(start <= after.heap.base + i < start + size)
                ==> #[trigger] after.heap.region[i] == before.heap.region[i],
{
    let object = string_bytes(content);
    lemma_string_bytes_len(content);
    assert(object.len() == size);
    before.heap.lemma_next();
    law_room(before.heap, start, size);
    law_room_is_used(collect, before, roots, object, after, result, start);
    before.heap.lemma_put_string(content);
    assert(after =~= before.put(object));
}

/// Law: a string that would hold more bytes than the greatest `u32`, or whose
/// size an `isize` could not say, is refused, and nothing changes.
pub proof fn law_string_too_long<C: FnOnce(Runtime) -> Runtime>(
    collect: C,
    before: RuntimeState,
    roots: Seq<usize>,
    content: Seq<u8>,
    after: RuntimeState,
    result: Result<usize, Abort>,
)
    requires
        (string_made(collect, before, roots, content, after, result) && content.len() > u32::MAX)
            || (string_made(collect, before, roots, content, after, result) && content.len() + 27
            > isize::MAX) || (string_copied(collect, before, content, after, result)
            && content.len() + 27 > isize::MAX),
    ensures
        result matches Err(abort) && abort.code == 137 && abort.message@
            == "lo_alloc: out of memory"@,
        after == before,
{
}

/// Law: making a string that is not too long comes to one collection where it
/// would end behind the active semispace. On what the collection leaves the
/// string is placed if it ends within the active semispace now. So making a
/// string aborts only where it is too long, or where it does not fit even after
/// a collection.
pub proof fn law_string_collects<C: FnOnce(Runtime) -> Runtime>(
    collect: C,
    before: RuntimeState,
    roots: Seq<usize>,
    content: Seq<u8>,
    after: RuntimeState,
    result: Result<usize, Abort>,
    start: int,
    size: int,
) -> (run: (Runtime, Runtime))
    requires
        collects_from(collect, before.with_frame(roots)),
        size % 8 == 0,
        content.len() + 20 <= size < content.len() + 28,
        content.len() <= u32::MAX,
        content.len() + 27 <= isize::MAX,
        before.heap.wf(),
        start % 16 == 0,
        before.heap.free <= start < before.heap.free + 16,
        before.heap.base == 0 || start + size > before.heap.from_limit,
        string_made(collect, before, roots, content, after, result),
    ensures
        run.0.wf(),
        run.0@.heap == before.heap,
        run.0@.frames == before.frames.push(roots),
        call_ensures(collect, (run.0,), run.1),
        after.frames == run.1@.frames.drop_last(),
        result is Ok <==> run.1@.heap.base != 0 && (run.1@.heap.free + 15) / 16 * 16 + size
            <= run.1@.heap.from_limit,
        result matches Ok(addr) ==> {
            &&& addr == (run.1@.heap.free + 15) / 16 * 16
            &&& after.heap.is_string(addr as int)
            &&& after.heap.string(addr as int) == content
            &&& after.heap.free == addr + size
        },
        result matches Err(abort) ==> {
            &&& abort.code == 137
            &&& abort.message@ == "lo_alloc: out of memory"@
            &&& after.heap == run.1@.heap
        },
{
    let object = string_bytes(content);
    lemma_string_bytes_len(content);
    assert(object.len() == size);
    let run = law_full_heap_collects_with_roots(
        collect,
        before,
        roots,
        object,
        after,
        result,
        start,
    );
    let place = (run.1@.heap.free + 15) / 16 * 16;
    law_room(run.1@.heap, place, size);
    if result is Ok {
        run.1@.heap.lemma_put_string(content);
        assert(after.heap =~= run.1@.heap.put(object));
    }
    run
}

/// Law: copying bytes into a string that is not too long comes to one collection
/// where the string would end behind the active semispace. On what the
/// collection leaves the string is placed if it ends within the active semispace
/// now, and else the process must end.
pub proof fn law_copy_collects<C: FnOnce(Runtime) -> Runtime>(
    collect: C,
    before: RuntimeState,
    content: Seq<u8>,
    after: RuntimeState,
    result: Result<usize, Abort>,
    start: int,
    size: int,
) -> (run: (Runtime, Runtime))
    requires
        collects_from(collect, before),
        size % 8 == 0,
        content.len() + 20 <= size < content.len() + 28,
        content.len() <= u32::MAX,
        content.len() + 27 <= isize::MAX,
        before.heap.wf(),
        start % 16 == 0,
        before.heap.free <= start < before.heap.free + 16,
        before.heap.base == 0 || start + size > before.heap.from_limit,
        string_copied(collect, before, content, after, result),
    ensures
        run.0.wf(),
        run.0@ == before,
        call_ensures(collect, (run.0,), run.1),
        after.frames == run.1@.frames,
        result is Ok <==> run.1@.heap.base != 0 && (run.1@.heap.free + 15) / 16 * 16 + size
            <= run.1@.heap.from_limit,
        result matches Ok(addr) ==> {
            &&& addr == (run.1@.heap.free + 15) / 16 * 16
            &&& after.heap.is_string(addr as int)
            &&& after.heap.string(addr as int) == content
            &&& after.heap.free == addr + size
        },
        result matches Err(abort) ==> {
            &&& abort.code == 137
            &&& abort.message@ == "lo_alloc: out of memory"@
            &&& after.heap == run.1@.heap
        },
{
    let object = string_bytes(content);
    lemma_string_bytes_len(content);
    assert(object.len() == size);
    let run = law_full_heap_collects(collect, before, object, after, result, start);
    let place = (run.1@.heap.free + 15) / 16 * 16;
    law_room(run.1@.heap, place, size);
    if result is Ok {
        run.1@.heap.lemma_put_string(content);
        assert(after.heap =~= run.1@.heap.put(object));
    }
    run
}

/// Law: a collector is asked for no more than to accept the state that it is run
/// on, and to leave behind a runtime in order whose image and region are where
/// they were.
pub proof fn law_collector_asked<C: FnOnce(Runtime) -> Runtime>(collect: C, before: RuntimeState)
    requires
        forall|rt: Runtime|
            rt.wf() && rt@.heap == before.heap && rt@.frames == before.frames
                ==> #[trigger] call_requires(collect, (rt,)),
        forall|rt: Runtime, after: Runtime|
            rt.wf() && rt@.heap == before.heap && rt@.frames == before.frames
                && #[trigger] call_ensures(collect, (rt,), after) ==> {
                &&& after.wf()
                &&& after@.heap.image_base == before.heap.image_base
                &&& after@.heap.image == before.heap.image
                &&& after@.heap.base == before.heap.base
                &&& after@.heap.region.len() == before.heap.region.len()
            },
    ensures
        collects_from(collect, before),
{
}

/// Law: what a frame refers to is kept exactly where there are as many frames
/// as before, with as many roots each, and each root that referred to a string
/// refers to one with the same data, while one that was null is null.
pub proof fn law_roots_kept(before: RuntimeState, after: RuntimeState)
    ensures
        before.keeps_roots(after) <==> {
            &&& after.frames.len() == before.frames.len()
            &&& forall|i: int|
                0 <= i < before.frames.len() ==> (#[trigger] after.frames[i]).len()
                    == before.frames[i].len()
            &&& forall|i: int, j: int|
                #![trigger after.frames[i][j]]
                0 <= i < before.frames.len() && 0 <= j < before.frames[i].len() ==> {
                    &&& before.heap.is_string(before.frames[i][j] as int) ==> {
                        &&& after.heap.is_string(after.frames[i][j] as int)
                        &&& after.heap.string(after.frames[i][j] as int) == before.heap.string(
                            before.frames[i][j] as int,
                        )
                    }
                    &&& before.frames[i][j] == 0 ==> after.frames[i][j] == 0
                }
        },
{
}

/// Law: a collector keeps the roots exactly where every run of it on the state
/// does.
pub proof fn law_collector_keeps_roots<C: FnOnce(Runtime) -> Runtime>(
    collect: C,
    before: RuntimeState,
)
    ensures
        keeps_roots_from(collect, before) <==> forall|rt: Runtime, after: Runtime|
            rt.wf() && rt@ == before && #[trigger] call_ensures(collect, (rt,), after)
                ==> before.keeps_roots(after@),
{
}

/// Law: a frame that is added holds its roots above all others, and taking it
/// off again undoes that.
pub proof fn law_frames(state: RuntimeState, roots: Seq<usize>)
    ensures
        state.with_frame(roots).heap == state.heap,
        state.with_frame(roots).frames == state.frames.push(roots),
        state.without_frame().heap == state.heap,
        state.without_frame().frames == state.frames.drop_last(),
        state.with_frame(roots).without_frame() == state,
{
    assert(state.with_frame(roots).without_frame() =~= state);
}

/// Law: an allocation succeeds at the first multiple of sixteen that is not in
/// use where the object ends within the active semispace from there; and where
/// it aborts there is too little room for the object before and after.
pub proof fn law_allocation_bounds<C: FnOnce(Runtime) -> Runtime>(
    collect: C,
    before: RuntimeState,
    object: Seq<u8>,
    after: RuntimeState,
    result: Result<usize, Abort>,
)
    requires
        before.heap.wf(),
        after.heap.wf(),
        allocated(collect, before, object, after, result),
    ensures
        before.heap.base != 0 && (before.heap.free + 15) / 16 * 16 + object.len()
            <= before.heap.from_limit ==> {
            &&& result matches Ok(addr)
            &&& addr == (before.heap.free + 15) / 16 * 16
            &&& after.heap.free == addr + object.len()
            &&& after.frames == before.frames
        },
        result is Err ==> after.heap.base == 0 || (after.heap.free + 15) / 16 * 16 + object.len()
            > after.heap.from_limit,
{
    let size = object.len() as int;
    law_room(before.heap, (before.heap.free + 15) / 16 * 16, size);
    law_room(after.heap, (after.heap.free + 15) / 16 * 16, size);
    if !before.heap.fits(size) {
        let (first, last) = choose|first: Runtime, last: Runtime|
            {
                &&& first.wf()
                &&& first@ == before
                &&& #[trigger] call_ensures(collect, (first,), last)
                &&& attempted(last@, object, after, result)
            };
        assert(attempted(last@, object, after, result));
    }
}

/// Law: making a string succeeds at the first multiple of sixteen that is not in
/// use where the string ends within the active semispace from there; where it
/// aborts the string is too long, or there is too little room for it before and
/// after.
pub proof fn law_string_bounds<C: FnOnce(Runtime) -> Runtime>(
    collect: C,
    before: RuntimeState,
    roots: Seq<usize>,
    content: Seq<u8>,
    after: RuntimeState,
    result: Result<usize, Abort>,
)
    requires
        before.heap.wf(),
        after.heap.wf(),
        string_made(collect, before, roots, content, after, result),
    ensures
        content.len() <= u32::MAX && before.heap.base != 0 && (before.heap.free + 15) / 16 * 16 + (
        content.len() + 27) / 8 * 8 <= before.heap.from_limit ==> {
            &&& result matches Ok(addr)
            &&& addr == (before.heap.free + 15) / 16 * 16
            &&& after.heap.free == addr + (content.len() + 27) / 8 * 8
            &&& after.frames == before.frames
        },
        result is Err ==> {
            ||| content.len() > u32::MAX
            ||| content.len() + 27 > isize::MAX
            ||| after.heap.base == 0
            ||| (after.heap.free + 15) / 16 * 16 + (content.len() + 27) / 8 * 8
                > after.heap.from_limit
        },
        content.len() > u32::MAX || content.len() + 27 > isize::MAX ==> result is Err && after
            == before,
{
    let object = string_bytes(content);
    lemma_string_bytes_len(content);
    let size = object.len() as int;
    assert(size == (content.len() + 27) / 8 * 8);
    before.heap.lemma_next();
    law_room(before.heap, (before.heap.free + 15) / 16 * 16, size);
    law_room(after.heap, (after.heap.free + 15) / 16 * 16, size);
    if content.len() <= u32::MAX && content.len() + 27 <= isize::MAX && !before.heap.fits(size) {
        let (first, last) = choose|first: Runtime, last: Runtime|
            {
                &&& first.wf()
                &&& first@ == before.with_frame(roots)
                &&& #[trigger] call_ensures(collect, (first,), last)
                &&& attempted(last@.without_frame(), object, after, result)
            };
        assert(attempted(last@.without_frame(), object, after, result));
    }
}

/// Law: a runtime holds what its heap and its stack hold, and is in order where
/// its heap is.
pub proof fn law_runtime_state(rt: Runtime)
    ensures
        rt@.heap == rt.heap@,
        rt@.frames == rt.stack@,
        rt.wf() <==> rt.heap@.wf(),
{
}

} // verus!
