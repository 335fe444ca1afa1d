//! The semispace bump allocator.
//!
//! The managed region is split into two equal semispaces, of which one is
//! active at a time. An object goes to the first aligned address behind the
//! previous one. When there is no room left the collector runs, which copies what is live into the inactive
//! semispace and exchanges the roles of the two, and the request is tried once
//! more.

use vstd::arithmetic::power::pow;
use vstd::arithmetic::power2::{
    is_pow2, is_pow2_equiv, lemma2_to64, lemma2_to64_rest, lemma_pow2_strictly_increases, pow2,
};
use vstd::bits::{lemma_usize_low_bits_mask_is_mod, low_bits_mask};
use vstd::prelude::*;

use crate::abort::{decimal, decimal_digits, Abort};
use crate::memory::Heap;
use crate::object::{
    lemma_string_bytes_len, lemma_word_bytes_len, lemma_zero_word, object_bytes, rounded_size,
    string_bytes, string_data_offset, zeros, ClassDescriptor, CLASS_WIDTH, FLAGS_OFFSET,
    FLAGS_WIDTH, GC_BITS_OFFSET, GC_BITS_WIDTH, LO_STRING_CLASS, OBJECT_ALIGN, OBJECT_SIZE,
    STRING_DATA_OFFSET, STRING_LENGTH_OFFSET, STRING_LENGTH_WIDTH,
};
use crate::outcomes::law_allocation_bounds;
use crate::runtime::{
    allocated, attempted, collects_from, keeps_roots_from, law_allocation_keeps_region,
    law_allocation_keeps_roots, lemma_allocated_place, Runtime,
};
use crate::state::HEAP_ALIGN;

verus! {

/// Bytes in the managed region where the environment does not say.
pub const DEFAULT_HEAP_SIZE: usize = 16 * 1024 * 1024;

/// Clears the bits of `n` below `align`: for a power of two, the greatest
/// multiple of `align` up to `n`.
pub fn align_down(n: usize, align: usize) -> (aligned: usize)
    requires
        0 < align,
    ensures
        aligned == n & !((align - 1) as usize),
        is_pow2(align as int) ==> aligned == n - n % align,
{
    proof {
        if is_pow2(align as int) {
            lemma_mask_is_mod(n, align);
        }
    }
    n & !(align - 1)
}

/// Adds `align - 1` to `n` and clears the bits below `align`: for a power of
/// two, the least multiple of `align` from `n` on.
pub fn align_up(n: usize, align: usize) -> (aligned: usize)
    requires
        0 < align,
        n + (align - 1) <= usize::MAX,
    ensures
        aligned == ((n + (align - 1)) as usize) & !((align - 1) as usize),
        is_pow2(align as int) ==> {
            &&& aligned % align == 0
            &&& n <= aligned < n + align
        },
{
    proof {
        if is_pow2(align as int) {
            let sum = (n + (align - 1)) as usize;
            lemma_mask_is_mod(sum, align);
            let low = sum % align;
            assert((sum - low) % (align as int) == 0) by (nonlinear_arith)
                requires
                    low == sum % align,
                    0 < align,
            ;
        }
    }
    (n + (align - 1)) & !(align - 1)
}

/// Clearing the low bits of `n` takes away its remainder.
proof fn lemma_mask_is_mod(n: usize, align: usize)
    requires
        is_pow2(align as int),
        0 < align,
    ensures
        n & !((align - 1) as usize) == n - n % align,
{
    is_pow2_equiv(align as int);
    let e = choose|e: nat| pow(2, e) == align as int;
    assert(pow2(e) == align as nat);
    if e >= usize::BITS {
        lemma2_to64();
        lemma2_to64_rest();
        if e > usize::BITS {
            lemma_pow2_strictly_increases(usize::BITS as nat, e);
        }
    }
    let mask = (align - 1) as usize;
    assert(low_bits_mask(e) as usize == mask);
    lemma_usize_low_bits_mask_is_mod(n, e);
    assert(n & !mask == n - (n & mask)) by (bit_vector);
}


/// The alignments in use are powers of two.
proof fn lemma_alignments()
    ensures
        is_pow2(OBJECT_ALIGN as int),
        is_pow2(HEAP_ALIGN as int),
{
    reveal_with_fuel(is_pow2, 5);
}

/// The multiple of the object alignment that rounding up leads to.
proof fn lemma_rounded(size: nat, aligned: nat)
    requires
        aligned % (OBJECT_ALIGN as nat) == 0,
        size <= aligned < size + OBJECT_ALIGN,
    ensures
        aligned == rounded_size(size),
{
}

/// The multiple of the heap alignment that rounding up leads to.
proof fn lemma_next_multiple(addr: int, aligned: int)
    requires
        aligned % (HEAP_ALIGN as int) == 0,
        0 <= addr <= aligned < addr + HEAP_ALIGN,
    ensures
        aligned == (addr + (HEAP_ALIGN - 1)) / (HEAP_ALIGN as int) * HEAP_ALIGN,
{
}

/// `c` is a decimal digit.
pub open spec fn is_digit(c: char) -> bool {
    '0' <= c <= '9'
}

/// The number that decimal digits stand for, most significant digit first.
pub open spec fn digits_value(digits: Seq<char>) -> nat
    decreases digits.len(),
{
    if digits.len() == 0 {
        0
    } else {
        10 * digits_value(digits.drop_last()) + (digits.last() as nat - '0' as nat) as nat
    }
}

/// What is left of `text` without a plus sign in front.
pub open spec fn without_plus(text: Seq<char>) -> Seq<char> {
    if text.len() > 0 && text[0] == '+' {
        text.drop_first()
    } else {
        text
    }
}

/// The size that `text` states: an optional plus sign and one or more decimal
/// digits, with a value that a `usize` can hold. Any other text states none.
pub open spec fn stated_size(text: Seq<char>) -> Option<usize> {
    let digits = without_plus(text);
    if digits.len() > 0 && (forall|i: int| 0 <= i < digits.len() ==> is_digit(#[trigger] digits[i]))
        && digits_value(digits) <= usize::MAX {
        Some(digits_value(digits) as usize)
    } else {
        None
    }
}

/// The size of the managed region that `setting` asks for: what it states, if
/// that is enough for two semispaces, and else the default.
pub open spec fn heap_total(setting: Option<&str>) -> nat {
    match setting {
        Some(text) => match stated_size(text@) {
            Some(size) => if size >= 2 * HEAP_ALIGN {
                size as nat
            } else {
                DEFAULT_HEAP_SIZE as nat
            },
            None => DEFAULT_HEAP_SIZE as nat,
        },
        None => DEFAULT_HEAP_SIZE as nat,
    }
}

/// The size of each semispace: half of the whole, rounded down to the heap
/// alignment.
pub open spec fn semispace_size(setting: Option<&str>) -> int {
    let half = heap_total(setting) as int / 2;
    half - half % (HEAP_ALIGN as int)
}

/// More digits do not make a number smaller.
proof fn lemma_digits_grow(digits: Seq<char>, count: int)
    requires
        0 <= count <= digits.len(),
        forall|i: int| 0 <= i < digits.len() ==> is_digit(#[trigger] digits[i]),
    ensures
        digits_value(digits.take(count)) <= digits_value(digits),
    decreases digits.len() - count,
{
    if count == digits.len() {
        assert(digits.take(count) =~= digits);
    } else {
        let longer = digits.take(count + 1);
        assert(longer.drop_last() =~= digits.take(count));
        assert(is_digit(digits[count]));
        lemma_digits_grow(digits, count + 1);
    }
}

/// Reads a size from text: an optional plus sign and decimal digits.
pub fn parse_size(text: &str) -> (size: Option<usize>)
    ensures
        size == stated_size(text@),
{
    let len: usize = text.unicode_len();
    let mut next: usize = 0;
    if len > 0 && text.get_char(0) == '+' {
        next = 1;
    }
    let start: usize = next;
    let ghost digits = without_plus(text@);
    assert(forall|i: int| 0 <= i < digits.len() ==> digits[i] == text@[i + start]);
    if next == len {
        return None;
    }
    let mut value: usize = 0;
    assert(digits.take(0) =~= Seq::<char>::empty());
    while next < len
        invariant
            len == text@.len(),
            start <= next <= len,
            digits.len() == len - start,
            digits == without_plus(text@),
            forall|i: int| 0 <= i < digits.len() ==> digits[i] == text@[i + start],
            forall|i: int| 0 <= i < next - start ==> is_digit(#[trigger] digits[i]),
            value == digits_value(digits.take(next - start)),
        decreases len - next,
    {
        let c = text.get_char(next);
        let ghost done = next - start;
        assert(c == digits[done]);
        if !(c >= '0' && c <= '9') {
            return None;
        }
        let digit: usize = (c as u32 - '0' as u32) as usize;
        let ghost longer = digits.take(done + 1);
        proof {
            assert(longer.drop_last() =~= digits.take(done));
            assert(digits_value(longer) == 10 * value + digit);
            if forall|i: int| 0 <= i < digits.len() ==> is_digit(#[trigger] digits[i]) {
                lemma_digits_grow(digits, done + 1);
            }
        }
        value = match value.checked_mul(10) {
            Some(product) => match product.checked_add(digit) {
                Some(sum) => sum,
                None => return None,
            },
            None => return None,
        };
        next = next + 1;
    }
    assert(digits.take(digits.len() as int) =~= digits);
    Some(value)
}

/// The size of each semispace: half of what `setting` asks for, rounded down to
/// the heap alignment.
pub fn semispace_bytes(setting: Option<&str>) -> (semi: usize)
    ensures
        semi == semispace_size(setting),
        2 * semi <= usize::MAX,
        semi >= HEAP_ALIGN,
        semi % 16 == 0,
        setting matches Some(text) ==> match stated_size(text@) {
            Some(size) => if size >= 32 {
                2 * semi <= size < 2 * semi + 32
            } else {
                semi == 8 * 1024 * 1024
            },
            None => semi == 8 * 1024 * 1024,
        },
        setting is None ==> semi == 8 * 1024 * 1024,
{
    let mut total: usize = DEFAULT_HEAP_SIZE;
    if let Some(text) = setting {
        if let Some(size) = parse_size(text) {
            if size >= 2 * HEAP_ALIGN {
                total = size;
            }
        }
    }
    proof {
        lemma_alignments();
    }
    align_down(total / 2, HEAP_ALIGN)
}

/// Sets up the managed region at `base`, with two equal semispaces of zeros.
///
/// `setting` is the value of the environment variable `LO_HEAP_SIZE`, if it is
/// set; `base` is where the region goes.
pub fn heap_init(heap: &mut Heap, setting: Option<&str>, base: usize)
    requires
        old(heap).wf(),
        2 * semispace_size(setting) <= isize::MAX,
        0 < base,
        base % HEAP_ALIGN == 0,
        base + 2 * semispace_size(setting) <= usize::MAX,
        old(heap)@.image_base + old(heap)@.image.len() <= base || base + 2 * semispace_size(setting)
            <= old(heap)@.image_base,
    ensures
        final(heap).wf(),
        final(heap)@ == old(heap)@.opened(base as int, semispace_size(setting)),
        final(heap)@.from_base == base,
        final(heap)@.free == base,
        final(heap)@.from_limit == final(heap)@.to_base,
        final(heap)@.to_limit - final(heap)@.to_base == final(heap)@.from_limit - base,
        (final(heap)@.from_limit - base) % 16 == 0,
        setting matches Some(text) ==> match stated_size(text@) {
            Some(size) => size >= 32 ==> final(heap)@.to_limit - base <= size
                < final(heap)@.to_limit
                - base + 32,
            None => final(heap)@.to_limit - base == 16 * 1024 * 1024,
        },
        setting is None ==> final(heap)@.to_limit - base == 16 * 1024 * 1024,
{
    let semi: usize = semispace_bytes(setting);
    let region: usize = semi * 2;
    heap.region = vec![0u8; region];
    heap.base = base;
    heap.from_base = base;
    heap.from_limit = base + semi;
    heap.free = base;
    heap.to_base = base + semi;
    heap.to_limit = base + region;
    assert(heap@ =~= old(heap)@.opened(base as int, semispace_size(setting)));
}

/// Gives the managed region back. Without one, does nothing.
pub fn heap_shutdown(heap: &mut Heap)
    requires
        old(heap).wf(),
    ensures
        final(heap).wf(),
        final(heap)@ == old(heap)@.released(),
{
    if heap.base != 0 {
        heap.region = Vec::new();
        heap.base = 0;
        heap.from_base = 0;
        heap.from_limit = 0;
        heap.free = 0;
        heap.to_base = 0;
        heap.to_limit = 0;
    }
    assert(heap@ =~= old(heap)@.released());
}

/// Takes `size` bytes off the active semispace, and says where they start; null
/// where they do not fit, or where there is no managed region.
pub fn bump_if_fits(heap: &mut Heap, size: usize) -> (slot: usize)
    requires
        old(heap).wf(),
    ensures
        final(heap).wf(),
        old(heap)@.has_room(size as int) ==> {
            &&& slot == old(heap)@.free
            &&& slot != 0
            &&& final(heap)@ == old(heap)@.bumped(size as int)
        },
        !old(heap)@.has_room(size as int) ==> slot == 0 && final(heap)@ == old(heap)@,
        old(heap)@.same_region(final(heap)@),
        old(heap)@.base != 0 && old(heap)@.free + size <= old(heap)@.from_limit ==> {
            &&& slot == old(heap)@.free
            &&& final(heap)@.free == slot + size
        },
        old(heap)@.base == 0 || old(heap)@.free + size > old(heap)@.from_limit ==> slot == 0
            && final(heap)@.free == old(heap)@.free,
{
    let bump: usize = heap.free;
    let limit: usize = heap.from_limit;
    match bump.checked_add(size) {
        None => 0,
        Some(new_addr) => {
            if bump == 0 || new_addr > limit {
                0
            } else {
                heap.free = new_addr;
                bump
            }
        },
    }
}

/// Takes `size` bytes off the active semispace from the first aligned address
/// on, and says where they start; null where they do not fit, or where there is
/// no managed region.
fn bump_aligned(heap: &mut Heap, size: usize) -> (slot: usize)
    requires
        old(heap).wf(),
    ensures
        final(heap).wf(),
        old(heap)@.fits(size as int) ==> {
            &&& slot == old(heap)@.next()
            &&& slot != 0
            &&& final(heap)@ == old(heap)@.bumped(old(heap)@.next() - old(heap)@.free + size)
        },
        !old(heap)@.fits(size as int) ==> slot == 0 && final(heap)@ == old(heap)@,
        old(heap)@.base != 0 && (old(heap)@.free + 15) / 16 * 16 + size <= old(heap)@.from_limit
            ==> slot == (old(heap)@.free + 15) / 16 * 16 && final(heap)@.free == slot + size,
{
    proof {
        lemma_alignments();
        heap@.lemma_next();
    }
    let start: usize = align_up(heap.free, HEAP_ALIGN);
    proof {
        lemma_next_multiple(heap.free as int, start as int);
    }
    let padding: usize = start - heap.free;
    match size.checked_add(padding) {
        None => 0,
        Some(total) => {
            let slot: usize = bump_if_fits(heap, total);
            if slot == 0 {
                0
            } else {
                slot + padding
            }
        },
    }
}

/// Places a zeroed object of `size` bytes with its header, at a multiple of the
/// heap alignment. Where there is no
/// room, runs the collector and tries once more; aborts if there is still none.
pub fn alloc_raw<C: FnOnce(Runtime) -> Runtime>(
    rt: &mut Runtime,
    size: usize,
    class: u64,
    collect: C,
) -> (result: Result<usize, Abort>)
    requires
        old(rt).wf(),
        collects_from(collect, old(rt)@),
        size >= OBJECT_SIZE,
    ensures
        final(rt).wf(),
        allocated(collect, old(rt)@, object_bytes(class, size as nat), final(rt)@, result),
        result matches Ok(addr) ==> addr % HEAP_ALIGN == 0,
        old(rt)@.heap.same_region(final(rt)@.heap),
        keeps_roots_from(collect, old(rt)@) ==> old(rt)@.keeps_roots(final(rt)@),
        old(rt)@.heap.base != 0 && (old(rt)@.heap.free + 15) / 16 * 16 + size
            <= old(rt)@.heap.from_limit ==> {
            &&& result matches Ok(addr)
            &&& addr == (old(rt)@.heap.free + 15) / 16 * 16
            &&& final(rt)@.heap.free == addr + size
            &&& final(rt)@.frames == old(rt)@.frames
        },
        result is Err ==> {
            ||| final(rt)@.heap.base == 0
            ||| (final(rt)@.heap.free + 15) / 16 * 16 + size > final(rt)@.heap.from_limit
        },
{
    let ghost object = object_bytes(class, size as nat);
    proof {
        lemma_word_bytes_len(class as nat, CLASS_WIDTH as nat);
    }
    let ghost mut place = rt@;
    let mut slot: usize = bump_aligned(&mut rt.heap, size);
    if slot == 0 {
        let mut taken = Runtime::new(1, Vec::new());
        std::mem::swap(rt, &mut taken);
        let ghost start = taken;
        *rt = collect(taken);
        proof {
            assert(start@ =~= old(rt)@);
            place = rt@;
        }
        slot = bump_aligned(&mut rt.heap, size);
        if slot == 0 {
            let result: Result<usize, Abort> = Err(Abort::out_of_memory());
            assert(attempted(place, object, rt@, result));
            proof {
                law_allocation_bounds(collect, old(rt)@, object, rt@, result);
                if keeps_roots_from(collect, old(rt)@) {
                    law_allocation_keeps_roots(collect, old(rt)@, object, rt@, result);
                }
            }
            return result;
        }
    }
    rt.heap.fill_zero(slot, size);
    rt.heap.store_word(slot, CLASS_WIDTH, class);
    rt.heap.store_word(slot + GC_BITS_OFFSET, GC_BITS_WIDTH, 0);
    rt.heap.store_word(slot + FLAGS_OFFSET, FLAGS_WIDTH, 0);
    let result: Result<usize, Abort> = Ok(slot);
    proof {
        lemma_zero_word(GC_BITS_WIDTH as nat);
        lemma_zero_word(FLAGS_WIDTH as nat);
        assert(rt@ =~= place.put(object)) by {
            assert(rt@.heap.region =~= place.put(object).heap.region);
        }
        assert(attempted(place, object, rt@, result));
        place.heap.lemma_next();
        law_allocation_bounds(collect, old(rt)@, object, rt@, result);
        if keeps_roots_from(collect, old(rt)@) {
            law_allocation_keeps_roots(collect, old(rt)@, object, rt@, result);
        }
    }
    result
}

/// Places a zeroed object of `class`, of the size that its descriptor states,
/// rounded up to the object alignment, at a multiple of the heap alignment.
/// Where there is no room, runs the
/// collector and tries once more; aborts if there is still none.
pub fn lo_alloc<C: FnOnce(Runtime) -> Runtime>(
    rt: &mut Runtime,
    classes: &[ClassDescriptor],
    class: u64,
    collect: C,
) -> (result: Result<usize, Abort>)
    requires
        old(rt).wf(),
        collects_from(collect, old(rt)@),
        1 <= class <= classes@.len(),
        classes@[class - 1].instance_size >= OBJECT_SIZE,
        classes@[class - 1].instance_size + (OBJECT_ALIGN - 1) <= usize::MAX,
    ensures
        final(rt).wf(),
        allocated(
            collect,
            old(rt)@,
            object_bytes(class, rounded_size(classes@[class - 1].instance_size as nat)),
            final(rt)@,
            result,
        ),
        result matches Ok(addr) ==> {
            &&& addr % HEAP_ALIGN == 0
            &&& final(rt)@.heap.class_at(addr as int) == class
        },
        old(rt)@.heap.same_region(final(rt)@.heap),
        keeps_roots_from(collect, old(rt)@) ==> old(rt)@.keeps_roots(final(rt)@),
        old(rt)@.heap.base != 0 && (old(rt)@.heap.free + 15) / 16 * 16
            + (classes@[class - 1].instance_size + 7) / 8 * 8
            <= old(rt)@.heap.from_limit ==> {
            &&& result matches Ok(addr)
            &&& addr == (old(rt)@.heap.free + 15) / 16 * 16
            &&& final(rt)@.heap.free == addr + (classes@[class - 1].instance_size + 7) / 8 * 8
            &&& final(rt)@.frames == old(rt)@.frames
        },
        result is Err ==> {
            ||| final(rt)@.heap.base == 0
            ||| (final(rt)@.heap.free + 15) / 16 * 16 + (classes@[class - 1].instance_size
                + 7) / 8 * 8 > final(rt)@.heap.from_limit
        },
{
    proof {
        lemma_alignments();
    }
    let size: usize = align_up(classes[(class - 1) as usize].instance_size as usize, OBJECT_ALIGN);
    proof {
        lemma_rounded(classes@[class - 1].instance_size as nat, size as nat);
    }
    let result: Result<usize, Abort> = alloc_raw(rt, size, class, collect);
    proof {
        let object = object_bytes(class, size as nat);
        lemma_word_bytes_len(class as nat, CLASS_WIDTH as nat);
        if result is Ok {
            let place = lemma_allocated_place(collect, old(rt)@, object, rt@, result, object);
            place.heap.lemma_put_object(class, size as nat);
        }
    }
    result
}

/// The size of a string with `len` bytes of data, before rounding down, is one
/// that memory can have.
pub open spec fn string_has_size(len: nat) -> bool {
    len + STRING_DATA_OFFSET + (OBJECT_ALIGN - 1) <= isize::MAX
}

/// Places a string with room for `len` bytes of data, which are zeros, at a
/// multiple of the heap alignment. Where there is no room, runs the collector
/// and tries once more; aborts if there is still none, or if no memory could
/// hold such a string.
pub fn bump_alloc_string<C: FnOnce(Runtime) -> Runtime>(
    rt: &mut Runtime,
    len: u32,
    collect: C,
) -> (result: Result<usize, Abort>)
    requires
        old(rt).wf(),
        collects_from(collect, old(rt)@),
    ensures
        final(rt).wf(),
        string_has_size(len as nat) ==> allocated(
            collect,
            old(rt)@,
            string_bytes(zeros(len as int)),
            final(rt)@,
            result,
        ),
        !string_has_size(len as nat) ==> {
            &&& final(rt)@ == old(rt)@
            &&& result matches Err(abort)
            &&& abort.is_out_of_memory()
        },
        result matches Ok(addr) ==> addr % HEAP_ALIGN == 0,
        old(rt)@.heap.same_region(final(rt)@.heap),
        keeps_roots_from(collect, old(rt)@) ==> old(rt)@.keeps_roots(final(rt)@),
        old(rt)@.heap.base != 0 && (old(rt)@.heap.free + 15) / 16 * 16 + (len + 27) / 8 * 8
            <= old(rt)@.heap.from_limit ==> {
            &&& result matches Ok(addr)
            &&& addr == (old(rt)@.heap.free + 15) / 16 * 16
            &&& final(rt)@.heap.free == addr + (len + 27) / 8 * 8
            &&& final(rt)@.frames == old(rt)@.frames
        },
        result is Err ==> {
            ||| len + 27 > isize::MAX
            ||| final(rt)@.heap.base == 0
            ||| (final(rt)@.heap.free + 15) / 16 * 16 + (len + 27) / 8 * 8
                > final(rt)@.heap.from_limit
        },
{
    let sum: Option<usize> = match (len as usize).checked_add(string_data_offset()) {
        Some(size) => size.checked_add(OBJECT_ALIGN - 1),
        None => None,
    };
    if sum.is_none() || sum.unwrap() > isize::MAX as usize {
        return Err(Abort::out_of_memory());
    }
    let padded: usize = sum.unwrap();
    proof {
        lemma_alignments();
    }
    let size: usize = align_down(padded, OBJECT_ALIGN);
    let result: Result<usize, Abort> = alloc_raw(rt, size, LO_STRING_CLASS, collect);
    let ghost blank = object_bytes(LO_STRING_CLASS, size as nat);
    let ghost string = string_bytes(zeros(len as int));
    proof {
        lemma_word_bytes_len(LO_STRING_CLASS as nat, CLASS_WIDTH as nat);
        lemma_word_bytes_len(len as nat, STRING_LENGTH_WIDTH as nat);
        lemma_string_bytes_len(zeros(len as int));
    }
    proof {
        old(rt)@.heap.lemma_next();
        assert(size == (len + 27) / 8 * 8);
    }
    if let Ok(addr) = result {
        let ghost place = lemma_allocated_place(collect, old(rt)@, blank, rt@, result, string);
        rt.heap.store_word(addr + STRING_LENGTH_OFFSET, STRING_LENGTH_WIDTH, len as u64);
        proof {
            assert(rt@ =~= place.put(string)) by {
                assert(rt@.heap.region =~= place.put(string).heap.region);
            }
            law_allocation_keeps_region(collect, old(rt)@, string, rt@, result);
            if keeps_roots_from(collect, old(rt)@) {
                law_allocation_keeps_roots(collect, old(rt)@, string, rt@, result);
            }
        }
    }
    result
}

/// The bounds of the active semispace.
pub fn from_space(heap: &Heap) -> (bounds: (usize, usize))
    ensures
        bounds.0 == heap@.from_base,
        bounds.1 == heap@.from_limit,
{
    (heap.from_base, heap.from_limit)
}

/// Where the inactive semispace starts.
pub fn to_space_base(heap: &Heap) -> (base: usize)
    ensures
        base == heap@.to_base,
{
    heap.to_base
}

/// Ends a collection: exchanges the roles of the semispaces, and lets the next
/// object go to `new_free`, which is where the survivors end.
pub fn flip(heap: &mut Heap, new_free: usize)
    requires
        old(heap).wf(),
        old(heap)@.to_base <= new_free <= old(heap)@.to_limit,
    ensures
        final(heap).wf(),
        final(heap)@ == old(heap)@.flipped(new_free as int),
        old(heap)@.same_region(final(heap)@),
{
    let old_from_base: usize = heap.from_base;
    let old_from_limit: usize = heap.from_limit;
    heap.from_base = heap.to_base;
    heap.from_limit = heap.to_limit;
    heap.to_base = old_from_base;
    heap.to_limit = old_from_limit;
    heap.free = new_free;
}

/// Bytes in use in the active semispace; zero where there is no managed region.
pub fn heap_used(heap: &Heap) -> (used: usize)
    requires
        heap.wf(),
    ensures
        used == heap@.used(),
        used == heap@.free - heap@.from_base,
        !heap@.ready() ==> used == 0,
{
    if heap.from_base == 0 {
        0
    } else {
        heap.free - heap.from_base
    }
}

/// Law: a decimal number states itself as a size, with or without a plus sign,
/// where a `usize` can hold it, and nothing where none can.
pub proof fn law_stated_number(number: nat)
    ensures
        number <= usize::MAX ==> stated_size(decimal(number as int)) == Some(number as usize),
        number <= usize::MAX ==> stated_size(seq!['+'] + decimal(number as int)) == Some(
            number as usize,
        ),
        number > usize::MAX ==> stated_size(decimal(number as int)) is None,
        number > usize::MAX ==> stated_size(seq!['+'] + decimal(number as int)) is None,
{
    let digits = decimal_digits(number);
    lemma_decimal_value(number);
    let signed = seq!['+'] + digits;
    assert(digits[0] != '+');
    assert(without_plus(digits) =~= digits);
    assert(signed.drop_first() =~= digits);
    assert(without_plus(signed) =~= digits);
}

/// The digits of a number stand for it.
proof fn lemma_decimal_value(number: nat)
    ensures
        decimal_digits(number).len() > 0,
        forall|i: int|
            0 <= i < decimal_digits(number).len()
                ==> is_digit(#[trigger] decimal_digits(number)[i]),
        digits_value(decimal_digits(number)) == number,
    decreases number,
{
    let digits = decimal_digits(number);
    if number >= 10 {
        lemma_decimal_value(number / 10);
        assert(digits.drop_last() =~= decimal_digits(number / 10));
    } else {
        assert(digits.drop_last() =~= Seq::<char>::empty());
        assert(digits_value(digits.drop_last()) == 0);
    }
}

/// Law: one digit more makes a size ten times as large and adds what the digit
/// stands for; where that is more than a `usize` can hold, the text states
/// none. One digit alone states what it stands for.
pub proof fn law_stated_digit(text: Seq<char>, c: char)
    requires
        '0' <= c <= '9',
    ensures
        stated_size(seq![c]) == Some((c as nat - 48) as usize),
        stated_size(seq!['+', c]) == Some((c as nat - 48) as usize),
        stated_size(text) matches Some(size) ==> {
            let longer = 10 * size + (c as int - 48);
            &&& longer <= usize::MAX ==> stated_size(text.push(c)) == Some(longer as usize)
            &&& longer > usize::MAX ==> stated_size(text.push(c)) is None
        },
{
    reveal_with_fuel(digits_value, 2);
    let one = seq![c];
    let signed = seq!['+', c];
    assert(one.drop_last() =~= Seq::<char>::empty());
    assert(without_plus(one) =~= one);
    assert(without_plus(signed) =~= one);
    if stated_size(text) is Some {
        let digits = without_plus(text);
        let longer = without_plus(text.push(c));
        assert(longer =~= digits.push(c));
        assert(longer.drop_last() =~= digits);
        assert forall|i: int| 0 <= i < longer.len() implies is_digit(#[trigger] longer[i]) by {
            if i < digits.len() {
                assert(is_digit(digits[i]));
            }
        }
    }
}

/// Law: only digits, with or without one plus sign in front, state a size, and
/// there is at least one of them. Text that states none as too large states
/// none with digits behind it either.
pub proof fn law_stated_text(text: Seq<char>, c: char)
    ensures
        stated_size(text) is Some ==> {
            &&& text.len() > 0
            &&& forall|i: int| 0 < i < text.len() ==> '0' <= #[trigger] text[i] && text[i] <= '9'
            &&& '0' <= text[0] <= '9' || (text[0] == '+' && text.len() > 1)
        },
        text.len() > 0 && text[0] != '+' && stated_size(text) is None ==> stated_size(text.push(c))
            is None,
        text.len() > 1 && stated_size(text) is None ==> stated_size(text.push(c)) is None,
{
    let digits = without_plus(text);
    assert forall|i: int| 0 <= i < digits.len() && is_digit(digits[i]) implies '0'
        <= (#[trigger] digits[i])
        && digits[i] <= '9' by {}
    if stated_size(text) is Some {
        let shift = text.len() - digits.len();
        assert forall|i: int| 0 < i < text.len() implies '0' <= #[trigger] text[i] && text[i]
            <= '9' by {
            assert(text[i] == digits[i - shift]);
            assert(is_digit(digits[i - shift]));
        }
        if text[0] != '+' {
            assert(is_digit(digits[0]));
        }
    } else if digits.len() > 0 && stated_size(text.push(c)) is Some {
        let longer = without_plus(text.push(c));
        assert(longer =~= digits.push(c));
        assert forall|i: int| 0 <= i < digits.len() implies is_digit(#[trigger] digits[i]) by {
            assert(is_digit(longer[i]));
        }
        lemma_digits_grow(longer, digits.len() as int);
        assert(longer.take(digits.len() as int) =~= digits);
    }
}

/// Law: where a setting states a size of at least thirty-two bytes, each
/// semispace takes half of it, less what is over a multiple of sixteen: no
/// larger one would do, and no size is too large to be asked for. Without such a
/// setting each semispace takes eight MiB.
pub proof fn law_semispace_of_setting(setting: Option<&str>)
    ensures
        setting is None ==> semispace_size(setting) == 8 * 1024 * 1024,
        setting matches Some(text) ==> {
            &&& stated_size(text@) is None ==> semispace_size(setting) == 8 * 1024 * 1024
            &&& stated_size(text@) matches Some(size) ==> {
                &&& size < 32 ==> semispace_size(setting) == 8 * 1024 * 1024
                &&& size >= 32 ==> {
                    &&& semispace_size(setting) % 16 == 0
                    &&& 2 * semispace_size(setting) <= size < 2 * semispace_size(setting) + 32
                }
            }
        },
{
}

/// Law: a setting that is a decimal number from thirty-two on gives semispaces
/// that together take that many bytes, less what is over a multiple of
/// thirty-two; a smaller number, or one that a `usize` cannot hold, gives
/// semispaces of eight MiB.
pub proof fn law_semispace_of_number(text: &str, number: nat)
    requires
        text@ == decimal(number as int),
    ensures
        32 <= number <= usize::MAX ==> {
            &&& semispace_size(Some(text)) % 16 == 0
            &&& 2 * semispace_size(Some(text)) <= number < 2 * semispace_size(Some(text)) + 32
        },
        number < 32 || number > usize::MAX ==> semispace_size(Some(text)) == 8 * 1024 * 1024,
{
    law_stated_number(number);
}

/// Law: no string is too large for memory unless twenty bytes, its data and the
/// rounding take more than an `isize` can say.
pub proof fn law_string_has_size(len: nat)
    ensures
        string_has_size(len) <==> len + 27 <= isize::MAX,
{
}

} // verus!
