//! Operations on strings, whose data lie inline in the object.

use vstd::prelude::*;
use vstd::utf8::{
    is_char_boundary, is_char_boundary_iff_not_is_continuation_byte,
    is_char_boundary_start_end_of_seq, is_continuation_byte, valid_utf8, valid_utf8_split,
};

use crate::abort::Abort;
use crate::allocator::{bump_alloc_string, string_has_size};
use crate::memory::Heap;
use crate::object::{
    lemma_string_bytes_len, lemma_word_limits, lemma_word_value_bound, string_bytes,
    string_data_offset, string_size, zeros, STRING_DATA_OFFSET,
    STRING_LENGTH_OFFSET, STRING_LENGTH_WIDTH,
};
use crate::outcomes::law_string_bounds;
use crate::runtime::{
    allocated, allocated_with_roots, attempted, collects_from, keeps_roots_from,
    law_allocation_keeps_roots, law_rooted_allocation_keeps_region,
    law_rooted_allocation_keeps_roots, lemma_allocated_place, lemma_relocated_place, relocated,
    Runtime, RuntimeState,
};
use crate::shadow_stack::{lo_pop_frame, lo_push_frame};
use crate::state::{unfinished_string, HeapState, HEAP_ALIGN};
use crate::text::{
    byte_order, law_order_by_bytes, law_reversed_len, lemma_byte_order_skip, lemma_repeated_len,
    lemma_reversed_character, lemma_reversed_split, repeated, reversed,
};

verus! {

/// The length of the string at `s`.
pub fn string_length(heap: &Heap, s: usize) -> (len: u32)
    requires
        heap.wf(),
        heap@.is_string(s as int),
    ensures
        len == heap@.length_at(s as int),
        len == heap@.string(s as int).len(),
{
    let ghost word = heap@.span(s + STRING_LENGTH_OFFSET, STRING_LENGTH_WIDTH as int);
    proof {
        lemma_word_value_bound(word);
        lemma_word_limits();
    }
    heap.load_word(s + STRING_LENGTH_OFFSET, STRING_LENGTH_WIDTH) as u32
}

/// The data of the string at `s`.
pub fn bytes(heap: &Heap, s: usize) -> (data: &[u8])
    requires
        heap.wf(),
        heap@.is_string(s as int),
    ensures
        data@ == heap@.string(s as int),
{
    let len: u32 = string_length(heap, s);
    heap.load_span(s + string_data_offset(), len as usize)
}

/// The length of a string to be made, or an abort where there is none that a
/// string can have.
pub fn length(value: Option<u32>) -> (result: Result<u32, Abort>)
    ensures
        value matches Some(len) ==> result == Ok::<u32, Abort>(len),
        value is None ==> (result matches Err(abort) && abort.is_out_of_memory()),
{
    match value {
        Some(len) => Ok(len),
        None => Err(Abort::out_of_memory()),
    }
}

/// Places a string with room for `len` bytes while a frame holds `roots`, and
/// hands back its address and the roots as the frame has them afterwards: a
/// collection may have moved what they refer to.
pub fn allocate<C: FnOnce(Runtime) -> Runtime>(
    rt: &mut Runtime,
    len: u32,
    roots: [usize; 2],
    collect: C,
) -> (result: Result<(usize, [usize; 2]), Abort>)
    requires
        old(rt).wf(),
        collects_from(collect, old(rt)@.with_frame(roots@)),
        keeps_roots_from(collect, old(rt)@.with_frame(roots@)),
    ensures
        final(rt).wf(),
        result matches Ok((addr, moved)) ==> {
            &&& string_has_size(len as nat)
            &&& relocated(
                collect,
                old(rt)@,
                roots@,
                string_bytes(zeros(len as int)),
                final(rt)@,
                addr,
                moved@,
            )
            &&& addr % HEAP_ALIGN == 0
            &&& old(rt)@.keeps_root(roots@[0], final(rt)@, moved@[0])
            &&& old(rt)@.keeps_root(roots@[1], final(rt)@, moved@[1])
        },
        old(rt)@.heap.same_region(final(rt)@.heap),
        old(rt)@.keeps_roots(final(rt)@),
        result matches Err(abort) ==> {
            &&& abort.is_out_of_memory()
            &&& !string_has_size(len as nat) ==> final(rt)@ == old(rt)@
            &&& string_has_size(len as nat) ==> allocated_with_roots(
                collect,
                old(rt)@,
                roots@,
                string_bytes(zeros(len as int)),
                final(rt)@,
                Err(abort),
            )
        },
{
    let ghost object = string_bytes(zeros(len as int));
    lo_push_frame(&mut rt.stack, vec![roots[0], roots[1]]);
    let ghost framed = rt@;
    assert(framed =~= old(rt)@.with_frame(roots@)) by {
        assert(framed.frames.last() =~= roots@);
    }
    let result: Result<usize, Abort> = bump_alloc_string(rt, len, collect);
    let ghost ended = rt@;
    assert(framed.keeps_roots(ended));
    let ghost top = old(rt)@.frames.len() as int;
    assert(ended.frames[top].len() == framed.frames[top].len());
    let moved: Vec<usize> = lo_pop_frame(&mut rt.stack);
    proof {
        if !string_has_size(len as nat) {
            assert(rt@ =~= old(rt)@);
        } else if framed.heap.fits(object.len() as int) {
            assert(rt@ =~= old(rt)@.put(object));
        } else {
            let (start, end) = choose|start: Runtime, end: Runtime|
                {
                    &&& start.wf()
                    &&& start@ == framed
                    &&& #[trigger] call_ensures(collect, (start,), end)
                    &&& attempted(end@, object, ended, result)
                };
            if result is Ok {
                assert(rt@ =~= end@.without_frame().put(object));
            } else {
                assert(rt@ =~= end@.without_frame());
            }
            assert(attempted(end@.without_frame(), object, rt@, result));
        }
    }
    match result {
        Ok(addr) => {
            let roots_now: [usize; 2] = [moved[0], moved[1]];
            assert(roots_now@ =~= moved@);
            Ok((addr, roots_now))
        },
        Err(abort) => Err(abort),
    }
}

/// What making a string of `content` comes to, while a frame holds `roots`: an
/// allocation of the string object, or an abort where no string can hold the
/// content.
pub open spec fn string_made<C: FnOnce(Runtime) -> Runtime>(
    collect: C,
    before: RuntimeState,
    roots: Seq<usize>,
    content: Seq<u8>,
    after: RuntimeState,
    result: Result<usize, Abort>,
) -> bool {
    if content.len() <= u32::MAX && string_has_size(content.len()) {
        allocated_with_roots(collect, before, roots, string_bytes(content), after, result)
    } else {
        &&& result matches Err(abort)
        &&& abort.is_out_of_memory()
        &&& after == before
    }
}

/// Law: a string that was made is aligned and holds its content; the program
/// image and the managed region are where they were; and no string that a frame
/// refers to was lost on the way.
pub proof fn law_string_made<C: FnOnce(Runtime) -> Runtime>(
    collect: C,
    before: RuntimeState,
    roots: Seq<usize>,
    content: Seq<u8>,
    after: RuntimeState,
    result: Result<usize, Abort>,
)
    requires
        collects_from(collect, before.with_frame(roots)),
        keeps_roots_from(collect, before.with_frame(roots)),
        before.heap.wf(),
        string_made(collect, before, roots, content, after, result),
    ensures
        result matches Ok(addr) ==> {
            &&& addr % HEAP_ALIGN == 0
            &&& after.heap.is_string(addr as int)
            &&& after.heap.string(addr as int) == content
        },
        before.heap.same_region(after.heap),
        before.keeps_roots(after),
{
    if content.len() <= u32::MAX && string_has_size(content.len()) {
        let object = string_bytes(content);
        lemma_string_bytes_len(content);
        law_rooted_allocation_keeps_region(collect, before, roots, object, after, result);
        law_rooted_allocation_keeps_roots(collect, before, roots, object, after, result);
        if result is Ok {
            if before.heap.fits(object.len() as int) {
                before.heap.lemma_put_string(content);
                before.heap.lemma_next();
            } else {
                let (start, end) = choose|start: Runtime, end: Runtime|
                    {
                        &&& start.wf()
                        &&& start@ == before.with_frame(roots)
                        &&& #[trigger] call_ensures(collect, (start,), end)
                        &&& attempted(end@.without_frame(), object, after, result)
                    };
                end@.heap.lemma_put_string(content);
                end@.heap.lemma_next();
            }
        }
    }
}

/// Copies `count` bytes from `source` behind the `done` bytes of data that are
/// written so far into the newest object, a string with room for `len` bytes
/// that was placed on `place`.
fn append_data(
    heap: &mut Heap,
    object: usize,
    done: usize,
    source: usize,
    count: usize,
    Ghost(place): Ghost<HeapState>,
    Ghost(data): Ghost<Seq<u8>>,
    Ghost(len): Ghost<int>,
)
    requires
        old(heap).wf(),
        place.wf(),
        place.fits(string_size(len as nat) as int),
        object == place.next(),
        done == data.len(),
        done + count <= len,
        place.held(source as int, count as int),
        old(heap)@ == place.put(unfinished_string(data, len)),
    ensures
        final(heap).wf(),
        final(heap)@ == place.put(
            unfinished_string(data + place.span(source as int, count as int), len),
        ),
{
    proof {
        let padded = data + zeros(len - data.len());
        lemma_string_bytes_len(padded);
        place.lemma_put(unfinished_string(data, len));
        let next = place.span(source as int, count as int);
        assert(heap@.span(source as int, count as int) == next);
        place.lemma_fill_string(data, next, len);
    }
    let target: usize = object + string_data_offset() + done;
    heap.copy_nonoverlapping(source, target, count);
}

/// A new string that holds the data of `a` and then those of `b`.
///
/// Where there is no room for it, runs the collector and tries once more;
/// aborts if there is still none, or if no string can be that long.
pub fn lo_string_concat<C: FnOnce(Runtime) -> Runtime>(
    rt: &mut Runtime,
    a: usize,
    b: usize,
    collect: C,
) -> (result: Result<usize, Abort>)
    requires
        old(rt).wf(),
        collects_from(collect, old(rt)@.with_frame(seq![a, b])),
        keeps_roots_from(collect, old(rt)@.with_frame(seq![a, b])),
        old(rt)@.heap.is_string(a as int),
        old(rt)@.heap.is_string(b as int),
    ensures
        final(rt).wf(),
        string_made(
            collect,
            old(rt)@,
            seq![a, b],
            old(rt)@.heap.string(a as int) + old(rt)@.heap.string(b as int),
            final(rt)@,
            result,
        ),
        result matches Ok(addr) ==> {
            &&& addr % HEAP_ALIGN == 0
            &&& final(rt)@.heap.is_string(addr as int)
            &&& final(rt)@.heap.string(addr as int) == old(rt)@.heap.string(a as int) + old(
                rt,
            )@.heap.string(b as int)
        },
        old(rt)@.heap.same_region(final(rt)@.heap),
        old(rt)@.keeps_roots(final(rt)@),
        (old(rt)@.heap.string(a as int).len() + old(rt)@.heap.string(b as int).len()) <= u32::MAX
            && old(rt)@.heap.base != 0 && (old(rt)@.heap.free + 15) / 16 * 16
            + ((old(rt)@.heap.string(a as int).len() + old(rt)@.heap.string(b as int).len())
                + 27) / 8 * 8 <= old(rt)@.heap.from_limit ==> {
            &&& result matches Ok(addr)
            &&& addr == (old(rt)@.heap.free + 15) / 16 * 16
            &&& final(rt)@.heap.free == addr + ((old(rt)@.heap.string(a as int).len()
                + old(rt)@.heap.string(b as int).len()) + 27) / 8 * 8
            &&& final(rt)@.frames == old(rt)@.frames
        },
        result is Err ==> {
            ||| (old(rt)@.heap.string(a as int).len() + old(rt)@.heap.string(b as int).len())
                > u32::MAX
            ||| (old(rt)@.heap.string(a as int).len() + old(rt)@.heap.string(b as int).len()) + 27
                > isize::MAX
            ||| final(rt)@.heap.base == 0
            ||| (final(rt)@.heap.free + 15) / 16 * 16 + ((old(rt)@.heap.string(a as int).len()
                + old(rt)@.heap.string(b as int).len()) + 27) / 8 * 8 > final(rt)@.heap.from_limit
        },
        (old(rt)@.heap.string(a as int).len() + old(rt)@.heap.string(b as int).len()) > u32::MAX
            || (old(rt)@.heap.string(a as int).len() + old(rt)@.heap.string(b as int).len()) + 27
                > isize::MAX ==> result is Err && final(rt)@
            == old(rt)@,
{
    let ghost first = rt@.heap.string(a as int);
    let ghost second = rt@.heap.string(b as int);
    let ghost content = first + second;
    let sum: Option<u32> = string_length(&rt.heap, a).checked_add(string_length(&rt.heap, b));
    let len: u32 = match length(sum) {
        Ok(len) => len,
        Err(abort) => {
            return Err(abort);
        },
    };
    let made: Result<(usize, [usize; 2]), Abort> = allocate(rt, len, [a, b], collect);
    let ghost roots = [a, b]@;
    let ghost blank = string_bytes(zeros(len as int));
    assert(roots =~= seq![a, b]);
    proof {
        lemma_string_bytes_len(content);
        lemma_string_bytes_len(zeros(len as int));
    }
    let result: Result<usize, Abort> = match made {
        Ok((object, moved)) => {
            let ghost place = lemma_relocated_place(
                collect,
                old(rt)@,
                roots,
                blank,
                rt@,
                object,
                moved@,
                string_bytes(content),
            );
            let ghost none = Seq::<u8>::empty();
            assert(none + zeros(len as int) =~= zeros(len as int));
            let a_now: usize = moved[0];
            let b_now: usize = moved[1];
            assert(place.heap.is_string(moved@[0] as int));
            assert(place.heap.is_string(moved@[1] as int));
            proof {
                place.heap.lemma_put_keeps_string(blank, a_now as int);
                place.heap.lemma_put_keeps_string(blank, b_now as int);
            }
            let a_len: usize = string_length(&rt.heap, a_now) as usize;
            let b_len: usize = string_length(&rt.heap, b_now) as usize;
            append_data(
                &mut rt.heap,
                object,
                0,
                a_now + string_data_offset(),
                a_len,
                Ghost(place.heap),
                Ghost(none),
                Ghost(len as int),
            );
            assert(none + first =~= first);
            append_data(
                &mut rt.heap,
                object,
                a_len,
                b_now + string_data_offset(),
                b_len,
                Ghost(place.heap),
                Ghost(first),
                Ghost(len as int),
            );
            assert(content + zeros(0) =~= content);
            assert(rt@ =~= place.put(string_bytes(content)));
            Ok(object)
        },
        Err(abort) => Err(abort),
    };
    proof {
        law_string_made(collect, old(rt)@, roots, content, rt@, result);
        law_string_bounds(collect, old(rt)@, roots, content, rt@, result);
    }
    result
}

/// A new string that holds the data of `s` `n` times.
///
/// Aborts where `n` is negative. Where there is no room for the string, runs the
/// collector and tries once more; aborts if there is still none, or if no
/// string can be that long.
pub fn lo_string_repeat<C: FnOnce(Runtime) -> Runtime>(
    rt: &mut Runtime,
    s: usize,
    n: i32,
    collect: C,
) -> (result: Result<usize, Abort>)
    requires
        old(rt).wf(),
        collects_from(collect, old(rt)@.with_frame(seq![s, 0])),
        keeps_roots_from(collect, old(rt)@.with_frame(seq![s, 0])),
        old(rt)@.heap.is_string(s as int),
    ensures
        final(rt).wf(),
        n < 0 ==> {
            &&& result matches Err(abort)
            &&& abort.is_negative_count(n)
            &&& final(rt)@ == old(rt)@
        },
        n >= 0 ==> string_made(
            collect,
            old(rt)@,
            seq![s, 0],
            repeated(old(rt)@.heap.string(s as int), n as nat),
            final(rt)@,
            result,
        ),
        result matches Ok(addr) ==> {
            &&& addr % HEAP_ALIGN == 0
            &&& final(rt)@.heap.is_string(addr as int)
            &&& final(rt)@.heap.string(addr as int) == repeated(
                old(rt)@.heap.string(s as int),
                n as nat,
            )
        },
        old(rt)@.heap.same_region(final(rt)@.heap),
        old(rt)@.keeps_roots(final(rt)@),
        n >= 0 && (old(rt)@.heap.string(s as int).len() * n) <= u32::MAX && old(rt)@.heap.base != 0
            && (old(rt)@.heap.free + 15) / 16 * 16
            + ((old(rt)@.heap.string(s as int).len() * n) + 27) / 8 * 8 <= old(rt)@.heap.from_limit
                ==> {
            &&& result matches Ok(addr)
            &&& addr == (old(rt)@.heap.free + 15) / 16 * 16
            &&& final(rt)@.heap.free == addr + ((old(rt)@.heap.string(s as int).len() * n)
                + 27) / 8 * 8
            &&& final(rt)@.frames == old(rt)@.frames
        },
        n >= 0 && result is Err ==> {
            ||| (old(rt)@.heap.string(s as int).len() * n) > u32::MAX
            ||| (old(rt)@.heap.string(s as int).len() * n) + 27 > isize::MAX
            ||| final(rt)@.heap.base == 0
            ||| (final(rt)@.heap.free + 15) / 16 * 16 + ((old(rt)@.heap.string(s as int).len() * n)
                + 27) / 8 * 8 > final(rt)@.heap.from_limit
        },
        n >= 0 && (old(rt)@.heap.string(s as int).len() * n) > u32::MAX || n >= 0
            && (old(rt)@.heap.string(s as int).len() * n) + 27 > isize::MAX ==> result is Err
                && final(rt)@
            == old(rt)@,
{
    if n < 0 {
        return Err(Abort::negative_count(n));
    }
    let ghost data = rt@.heap.string(s as int);
    let ghost content = repeated(data, n as nat);
    proof {
        lemma_repeated_len(data, n as nat);
    }
    let product: Option<u32> = string_length(&rt.heap, s).checked_mul(n as u32);
    let len: u32 = match length(product) {
        Ok(len) => len,
        Err(abort) => {
            return Err(abort);
        },
    };
    let made: Result<(usize, [usize; 2]), Abort> = allocate(rt, len, [s, 0], collect);
    let ghost roots = [s, 0]@;
    let ghost blank = string_bytes(zeros(len as int));
    assert(roots =~= seq![s, 0]);
    proof {
        lemma_string_bytes_len(content);
        lemma_string_bytes_len(zeros(len as int));
    }
    let result: Result<usize, Abort> = match made {
        Ok((object, moved)) => {
            let ghost place = lemma_relocated_place(
                collect,
                old(rt)@,
                roots,
                blank,
                rt@,
                object,
                moved@,
                string_bytes(content),
            );
            let ghost none = Seq::<u8>::empty();
            assert(none + zeros(len as int) =~= zeros(len as int));
            let s_now: usize = moved[0];
            assert(place.heap.is_string(moved@[0] as int));
            proof {
                place.heap.lemma_put_keeps_string(blank, s_now as int);
            }
            let s_len: usize = string_length(&rt.heap, s_now) as usize;
            if s_len != 0 {
                fill_repeated(
                    &mut rt.heap,
                    object,
                    s_now,
                    s_len,
                    n as u32,
                    len,
                    Ghost(place.heap),
                );
            } else {
                assert(content =~= zeros(len as int));
            }
            assert(content + zeros(0) =~= content);
            assert(rt@ =~= place.put(string_bytes(content)));
            Ok(object)
        },
        Err(abort) => Err(abort),
    };
    proof {
        law_string_made(collect, old(rt)@, roots, content, rt@, result);
        law_string_bounds(collect, old(rt)@, roots, content, rt@, result);
    }
    result
}

/// Writes the data of the string `s` `count` times into the newest object, a
/// string with room for `len` bytes that was placed on `place`.
fn fill_repeated(
    heap: &mut Heap,
    object: usize,
    s: usize,
    s_len: usize,
    count: u32,
    len: u32,
    Ghost(place): Ghost<HeapState>,
)
    requires
        old(heap).wf(),
        place.wf(),
        place.fits(string_size(len as nat) as int),
        object == place.next(),
        place.is_string(s as int),
        s_len == place.length_at(s as int),
        s_len * count == len,
        old(heap)@ == place.put(unfinished_string(Seq::empty(), len as int)),
    ensures
        final(heap).wf(),
        final(heap)@ == place.put(
            unfinished_string(repeated(place.string(s as int), count as nat), len as int),
        ),
{
    let ghost data = place.string(s as int);
    let mut copies: u32 = 0;
    let mut done: usize = 0;
    while copies < count
        invariant
            heap.wf(),
            place.wf(),
            place.fits(string_size(len as nat) as int),
            object == place.next(),
            place.is_string(s as int),
            s_len == place.length_at(s as int),
            data == place.string(s as int),
            s_len * count == len,
            copies <= count,
            done == s_len * copies,
            done <= len,
            heap@ == place.put(
                unfinished_string(repeated(data, copies as nat), len as int),
            ),
        decreases count - copies,
    {
        proof {
            lemma_repeated_len(data, copies as nat);
            assert(s_len * copies + s_len == s_len * (copies + 1)) by (nonlinear_arith);
            assert(s_len * (copies + 1) <= s_len * count) by (nonlinear_arith)
                requires
                    copies + 1 <= count,
                    0 <= s_len,
            ;
        }
        append_data(
            heap,
            object,
            done,
            s + string_data_offset(),
            s_len,
            Ghost(place),
            Ghost(repeated(data, copies as nat)),
            Ghost(len as int),
        );
        copies = copies + 1;
        done = done + s_len;
    }
}

/// How the data of `a` and `b` compare, byte by byte, a prefix coming first: -1
/// where `a` comes before `b`, 0 where they are equal, and 1 where `a` comes
/// after `b`.
pub fn lo_string_compare(heap: &Heap, a: usize, b: usize) -> (order: i32)
    requires
        heap.wf(),
        heap@.is_string(a as int),
        heap@.is_string(b as int),
    ensures
        order == byte_order(heap@.string(a as int), heap@.string(b as int)),
        forall|i: int|
            0 <= i < heap@.string(a as int).len() && i < heap@.string(b as int).len()
                && (forall|j: int|
                0 <= j < i ==> heap@.string(a as int)[j] == heap@.string(b as int)[j])
                    && #[trigger] heap@.string(a as int)[i]
                < heap@.string(b as int)[i] ==> order == -1,
        forall|i: int|
            0 <= i < heap@.string(a as int).len() && i < heap@.string(b as int).len()
                && (forall|j: int|
                0 <= j < i ==> heap@.string(a as int)[j] == heap@.string(b as int)[j])
                    && #[trigger] heap@.string(a as int)[i]
                > heap@.string(b as int)[i] ==> order == 1,
        order == 0 <==> heap@.string(a as int) == heap@.string(b as int),
{
    proof {
        law_order_by_bytes(heap@.string(a as int), heap@.string(b as int));
    }
    let first: &[u8] = bytes(heap, a);
    let second: &[u8] = bytes(heap, b);
    let mut same: usize = 0;
    while same < first.len() && same < second.len()
        invariant
            same <= first@.len(),
            same <= second@.len(),
            first@ == heap@.string(a as int),
            second@ == heap@.string(b as int),
            forall|i: int| 0 <= i < same ==> first@[i] == second@[i],
        decreases first@.len() - same,
    {
        if first[same] != second[same] {
            proof {
                lemma_byte_order_skip(first@, second@, same as int);
            }
            return if first[same] < second[same] {
                -1
            } else {
                1
            };
        }
        same = same + 1;
    }
    proof {
        lemma_byte_order_skip(first@, second@, same as int);
    }
    if first.len() == second.len() {
        0
    } else if same == first.len() {
        -1
    } else {
        1
    }
}

/// A new string that holds the characters of `s`, whose data are UTF-8, in
/// reverse order.
///
/// Where there is no room for it, runs the collector and tries once more;
/// aborts if there is still none.
pub fn lo_string_reverse<C: FnOnce(Runtime) -> Runtime>(
    rt: &mut Runtime,
    s: usize,
    collect: C,
) -> (result: Result<usize, Abort>)
    requires
        old(rt).wf(),
        collects_from(collect, old(rt)@.with_frame(seq![s, 0])),
        keeps_roots_from(collect, old(rt)@.with_frame(seq![s, 0])),
        old(rt)@.heap.is_string(s as int),
        valid_utf8(old(rt)@.heap.string(s as int)),
    ensures
        final(rt).wf(),
        string_made(
            collect,
            old(rt)@,
            seq![s, 0],
            reversed(old(rt)@.heap.string(s as int)),
            final(rt)@,
            result,
        ),
        result matches Ok(addr) ==> {
            &&& addr % HEAP_ALIGN == 0
            &&& final(rt)@.heap.is_string(addr as int)
            &&& final(rt)@.heap.string(addr as int) == reversed(old(rt)@.heap.string(s as int))
        },
        old(rt)@.heap.same_region(final(rt)@.heap),
        old(rt)@.keeps_roots(final(rt)@),
        old(rt)@.heap.string(s as int).len() <= u32::MAX && old(rt)@.heap.base != 0
            && (old(rt)@.heap.free + 15) / 16 * 16
            + (old(rt)@.heap.string(s as int).len() + 27) / 8 * 8 <= old(rt)@.heap.from_limit ==> {
            &&& result matches Ok(addr)
            &&& addr == (old(rt)@.heap.free + 15) / 16 * 16
            &&& final(rt)@.heap.free == addr + (old(rt)@.heap.string(s as int).len() + 27) / 8 * 8
            &&& final(rt)@.frames == old(rt)@.frames
        },
        result is Err ==> {
            ||| old(rt)@.heap.string(s as int).len() > u32::MAX
            ||| old(rt)@.heap.string(s as int).len() + 27 > isize::MAX
            ||| final(rt)@.heap.base == 0
            ||| (final(rt)@.heap.free + 15) / 16 * 16 + (old(rt)@.heap.string(s as int).len()
                + 27) / 8 * 8 > final(rt)@.heap.from_limit
        },
        old(rt)@.heap.string(s as int).len() > u32::MAX || old(rt)@.heap.string(s as int).len()
            + 27 > isize::MAX ==> result is Err && final(rt)@
            == old(rt)@,
{
    let ghost data = rt@.heap.string(s as int);
    let ghost content = reversed(data);
    proof {
        law_reversed_len(data);
    }
    let len: u32 = string_length(&rt.heap, s);
    let made: Result<(usize, [usize; 2]), Abort> = allocate(rt, len, [s, 0], collect);
    let ghost roots = [s, 0]@;
    let ghost blank = string_bytes(zeros(len as int));
    assert(roots =~= seq![s, 0]);
    proof {
        lemma_string_bytes_len(content);
        lemma_string_bytes_len(zeros(len as int));
    }
    let result: Result<usize, Abort> = match made {
        Ok((object, moved)) => {
            let ghost place = lemma_relocated_place(
                collect,
                old(rt)@,
                roots,
                blank,
                rt@,
                object,
                moved@,
                string_bytes(content),
            );
            let ghost none = Seq::<u8>::empty();
            assert(none + zeros(len as int) =~= zeros(len as int));
            let s_now: usize = moved[0];
            assert(place.heap.is_string(moved@[0] as int));
            fill_reversed(&mut rt.heap, object, s_now, len, Ghost(place.heap));
            assert(content + zeros(0) =~= content);
            assert(rt@ =~= place.put(string_bytes(content)));
            Ok(object)
        },
        Err(abort) => Err(abort),
    };
    proof {
        law_string_made(collect, old(rt)@, roots, content, rt@, result);
        law_string_bounds(collect, old(rt)@, roots, content, rt@, result);
    }
    result
}

/// Writes the characters of the string `s`, the last one first, into the newest
/// object, a string of the same length that was placed on `place`.
fn fill_reversed(
    heap: &mut Heap,
    object: usize,
    s: usize,
    len: u32,
    Ghost(place): Ghost<HeapState>,
)
    requires
        old(heap).wf(),
        place.wf(),
        place.fits(string_size(len as nat) as int),
        object == place.next(),
        place.is_string(s as int),
        len == place.length_at(s as int),
        valid_utf8(place.string(s as int)),
        old(heap)@ == place.put(unfinished_string(Seq::empty(), len as int)),
    ensures
        final(heap).wf(),
        final(heap)@ == place.put(
            unfinished_string(reversed(place.string(s as int)), len as int),
        ),
{
    let ghost data = place.string(s as int);
    let first: usize = s + string_data_offset();
    let mut end: usize = len as usize;
    proof {
        is_char_boundary_start_end_of_seq(data);
        let rest = data.subrange(len as int, len as int);
        assert(rest =~= Seq::<u8>::empty());
        law_reversed_len(rest);
        assert(reversed(rest) =~= Seq::<u8>::empty());
    }
    while end > 0
        invariant
            heap.wf(),
            place.wf(),
            place.fits(string_size(len as nat) as int),
            object == place.next(),
            place.is_string(s as int),
            len == place.length_at(s as int),
            data == place.string(s as int),
            data.len() == len,
            valid_utf8(data),
            first == s + STRING_DATA_OFFSET,
            end <= len,
            is_char_boundary(data, end as int),
            heap@ == place.put(
                unfinished_string(reversed(data.subrange(end as int, len as int)), len as int),
            ),
        decreases end,
    {
        let ghost tail = data.subrange(end as int, len as int);
        let ghost written = reversed(tail);
        proof {
            valid_utf8_split(data, end as int);
            law_reversed_len(tail);
            let padded = written + zeros(len - written.len());
            lemma_string_bytes_len(padded);
            place.lemma_put(unfinished_string(written, len as int));
            assert(heap@.span(first as int, len as int) == place.span(first as int, len as int));
        }
        let mut start: usize = end - 1;
        let mut byte: u8 = heap.load_byte(first + start);
        assert(byte == heap@.span(first as int, len as int)[start as int]);
        while byte >= 0x80 && byte <= 0xbf
            invariant
                heap.wf(),
                heap@.readable(first as int, len as int),
                heap@.span(first as int, len as int) == data,
                first + len <= usize::MAX,
                data.len() == len,
                valid_utf8(data),
                start < end <= len,
                byte == data[start as int],
                forall|i: int| start < i < end ==> is_continuation_byte(#[trigger] data[i]),
            decreases start,
        {
            proof {
                is_char_boundary_start_end_of_seq(data);
                is_char_boundary_iff_not_is_continuation_byte(data, 0);
            }
            start = start - 1;
            byte = heap.load_byte(first + start);
            assert(byte == heap@.span(first as int, len as int)[start as int]);
        }
        proof {
            lemma_next_character(data, start as int, end as int);
            assert(place.span(first + start, end - start) =~= data.subrange(
                start as int,
                end as int,
            ));
        }
        append_data(
            heap,
            object,
            len as usize - end,
            first + start,
            end - start,
            Ghost(place),
            Ghost(written),
            Ghost(len as int),
        );
        end = start;
    }
    assert(data.subrange(0, len as int) =~= data);
}

/// The character in front of `end` begins at `start`, and comes next when the
/// data are reversed.
proof fn lemma_next_character(data: Seq<u8>, start: int, end: int)
    requires
        valid_utf8(data),
        0 <= start < end <= data.len(),
        is_char_boundary(data, end),
        !is_continuation_byte(data[start]),
        forall|i: int| start < i < end ==> is_continuation_byte(#[trigger] data[i]),
    ensures
        is_char_boundary(data, start),
        reversed(data.subrange(start, data.len() as int)) == reversed(
            data.subrange(end, data.len() as int),
        ) + data.subrange(start, end),
{
    let tail = data.subrange(start, data.len() as int);
    let width = end - start;
    is_char_boundary_iff_not_is_continuation_byte(data, start);
    valid_utf8_split(data, start);
    if end == data.len() {
        is_char_boundary_start_end_of_seq(tail);
    } else {
        is_char_boundary_iff_not_is_continuation_byte(data, end);
        assert(tail[width] == data[end]);
        is_char_boundary_iff_not_is_continuation_byte(tail, width);
    }
    valid_utf8_split(tail, width);
    lemma_reversed_split(tail, width);
    let character = tail.subrange(0, width);
    assert(character =~= data.subrange(start, end));
    assert(tail.subrange(width, tail.len() as int) =~= data.subrange(end, data.len() as int));
    assert forall|i: int| 0 < i < character.len() implies is_continuation_byte(
        #[trigger] character[i],
    ) by {
        assert(character[i] == data[start + i]);
    }
    lemma_reversed_character(character);
}

/// `Vec::try_reserve_exact` of the standard library, on an empty buffer: a
/// buffer with room for `len` bytes, or `None` where the host has no memory for
/// it. The buffer is empty. To reserve nothing needs no memory, and succeeds;
/// whether the host can give more than that is left open.
#[verifier::external_body]
pub fn reserve_buffer(len: usize) -> (buffer: Option<Vec<u8>>)
    ensures
        buffer matches Some(empty) ==> empty@ == Seq::<u8>::empty(),
        len == 0 ==> buffer is Some,
{
    let mut buffer: Vec<u8> = Vec::new();
    match buffer.try_reserve_exact(len) {
        Ok(()) => Some(buffer),
        Err(_) => None,
    }
}

/// What copying `content` into a new string comes to: an allocation of the
/// string object, or an abort where no string can hold the content.
pub open spec fn string_copied<C: FnOnce(Runtime) -> Runtime>(
    collect: C,
    before: RuntimeState,
    content: Seq<u8>,
    after: RuntimeState,
    result: Result<usize, Abort>,
) -> bool {
    if string_has_size(content.len()) {
        allocated(collect, before, string_bytes(content), after, result)
    } else {
        &&& result matches Err(abort)
        &&& abort.is_out_of_memory()
        &&& after == before
    }
}

/// A new string that holds the `len` bytes from `source` on, as they were
/// before the call: a collection may move what `source` points into.
///
/// `source` may be null where `len` is zero. Where there is no room for the
/// string, runs the collector and tries once more; aborts if there is still
/// none, or where the host has no memory to hold the bytes meanwhile.
pub fn lo_string_new<C: FnOnce(Runtime) -> Runtime>(
    rt: &mut Runtime,
    source: usize,
    len: u32,
    collect: C,
) -> (result: Result<usize, Abort>)
    requires
        old(rt).wf(),
        collects_from(collect, old(rt)@),
        len == 0 || old(rt)@.heap.readable(source as int, len as int),
    ensures
        final(rt).wf(),
        exists|buffer: Option<Vec<u8>>|
            {
                &&& #[trigger] call_ensures(reserve_buffer, (len as usize,), buffer)
                &&& buffer is Some ==> string_copied(
                    collect,
                    old(rt)@,
                    old(rt)@.heap.span(source as int, len as int),
                    final(rt)@,
                    result,
                )
                &&& buffer is None ==> {
                    &&& result matches Err(abort)
                    &&& abort.is_out_of_memory()
                    &&& final(rt)@ == old(rt)@
                }
            },
        len == 0 ==> string_copied(
            collect,
            old(rt)@,
            old(rt)@.heap.span(source as int, len as int),
            final(rt)@,
            result,
        ),
        result matches Ok(addr) ==> {
            &&& addr % HEAP_ALIGN == 0
            &&& final(rt)@.heap.is_string(addr as int)
            &&& final(rt)@.heap.string(addr as int) == old(rt)@.heap.span(
                source as int,
                len as int,
            )
        },
        old(rt)@.heap.same_region(final(rt)@.heap),
        keeps_roots_from(collect, old(rt)@) ==> old(rt)@.keeps_roots(final(rt)@),
{
    let buffer: Option<Vec<u8>> = reserve_buffer(len as usize);
    string_from_buffer(rt, source, len, buffer, collect)
}

/// A new string that holds the `len` bytes from `source` on, which are kept
/// meanwhile in `buffer`; without a buffer, aborts.
pub fn string_from_buffer<C: FnOnce(Runtime) -> Runtime>(
    rt: &mut Runtime,
    source: usize,
    len: u32,
    buffer: Option<Vec<u8>>,
    collect: C,
) -> (result: Result<usize, Abort>)
    requires
        old(rt).wf(),
        collects_from(collect, old(rt)@),
        len == 0 || old(rt)@.heap.readable(source as int, len as int),
        buffer matches Some(empty) ==> empty@ == Seq::<u8>::empty(),
    ensures
        final(rt).wf(),
        buffer is None ==> {
            &&& result matches Err(abort)
            &&& abort.is_out_of_memory()
            &&& final(rt)@ == old(rt)@
        },
        buffer is Some ==> string_copied(
            collect,
            old(rt)@,
            old(rt)@.heap.span(source as int, len as int),
            final(rt)@,
            result,
        ),
        result matches Ok(addr) ==> {
            &&& addr % HEAP_ALIGN == 0
            &&& final(rt)@.heap.is_string(addr as int)
            &&& final(rt)@.heap.string(addr as int) == old(rt)@.heap.span(
                source as int,
                len as int,
            )
        },
        old(rt)@.heap.same_region(final(rt)@.heap),
        keeps_roots_from(collect, old(rt)@) ==> old(rt)@.keeps_roots(final(rt)@),
        buffer is Some && old(rt)@.heap.base != 0 && (old(rt)@.heap.free + 15) / 16 * 16 + (len
            + 27) / 8 * 8
            <= old(rt)@.heap.from_limit ==> {
            &&& result matches Ok(addr)
            &&& addr == (old(rt)@.heap.free + 15) / 16 * 16
            &&& final(rt)@.heap.free == addr + (len + 27) / 8 * 8
            &&& final(rt)@.frames == old(rt)@.frames
        },
        buffer is Some && result is Err ==> {
            ||| len + 27 > isize::MAX
            ||| final(rt)@.heap.base == 0
            ||| (final(rt)@.heap.free + 15) / 16 * 16 + (len + 27) / 8 * 8
                > final(rt)@.heap.from_limit
        },
{
    let ghost content = rt@.heap.span(source as int, len as int);
    if buffer.is_none() {
        return Err(Abort::out_of_memory());
    }
    let mut copy: Vec<u8> = buffer.unwrap();
    if len != 0 {
        copy.extend_from_slice(rt.heap.load_span(source, len as usize));
    }
    assert(copy@ =~= content);
    let result: Result<usize, Abort> = bump_alloc_string(rt, len, collect);
    if let Ok(addr) = result {
        let ghost blank = string_bytes(zeros(len as int));
        proof {
            lemma_string_bytes_len(content);
            lemma_string_bytes_len(zeros(len as int));
        }
        let ghost place = lemma_allocated_place(
            collect,
            old(rt)@,
            blank,
            rt@,
            result,
            string_bytes(content),
        );
        rt.heap.store_span(addr + string_data_offset(), copy.as_slice());
        proof {
            let none = Seq::<u8>::empty();
            assert(none + zeros(len as int) =~= zeros(len as int));
            assert((none + content) + zeros(0) =~= content);
            place.heap.lemma_fill_string(none, content, len as int);
            assert(rt@ =~= place.put(string_bytes(content)));
            place.heap.lemma_put_string(content);
        }
    }
    proof {
        if string_has_size(len as nat) && keeps_roots_from(collect, old(rt)@) {
            law_allocation_keeps_roots(
                collect,
                old(rt)@,
                string_bytes(content),
                rt@,
                result,
            );
        }
    }
    result
}

} // verus!
