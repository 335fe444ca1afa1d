//! What the operations on memory do to each byte and each bound.

use vstd::prelude::*;

use crate::object::{law_word_digits, lemma_word_limits, lemma_word_value_bound};
use crate::state::HeapState;

verus! {

/// Law: an object fits exactly where it ends within the active semispace when it
/// starts at the first multiple of sixteen that is not in use, whatever its size;
/// bytes that need no alignment fit where they end within it right behind what
/// is in use.
pub proof fn law_room(heap: HeapState, start: int, size: int)
    requires
        heap.wf(),
        start % 16 == 0,
        heap.free <= start < heap.free + 16,
    ensures
        heap.next() == start,
        heap.fits(size) <==> heap.base != 0 && start + size <= heap.from_limit,
        heap.has_room(size) <==> heap.base != 0 && heap.free + size <= heap.from_limit,
{
    heap.lemma_next();
}

/// Law: there is a managed region where its base is not null; as many bytes are
/// in use as lie between the start of the active semispace and the next free
/// byte.
pub proof fn law_in_use(heap: HeapState)
    requires
        heap.wf(),
    ensures
        heap.ready() <==> heap.base != 0,
        heap.used() == heap.free - heap.from_base,
        heap.semi() == heap.from_limit - heap.from_base,
        heap.base != 0 ==> heap.region.len() == 2 * (heap.from_limit - heap.from_base),
{
}

/// Law: an address in the program image holds what the image has there, and one
/// in the managed region what the region has there.
pub proof fn law_byte(heap: HeapState, addr: int)
    requires
        heap.wf(),
    ensures
        heap.image_base <= addr < heap.image_base + heap.image.len() ==> heap.byte(addr)
            == heap.image[addr - heap.image_base],
        heap.base != 0 && heap.base <= addr < heap.base + heap.region.len() ==> heap.byte(addr)
            == heap.region[addr - heap.base],
{
}

/// Law: a span is made of the bytes from its address on.
pub proof fn law_span(heap: HeapState, addr: int, len: int, i: int)
    requires
        0 <= i < len,
    ensures
        heap.span(addr, len).len() == len,
        heap.span(addr, len)[i] == heap.byte(addr + i),
        heap.span(addr, 0) == Seq::<u8>::empty(),
{
}

/// Law: bytes can be read that lie in the program image or in the managed
/// region; of those, the ones behind the objects of the active semispace, and
/// the whole inactive one, hold no object.
pub proof fn law_places(heap: HeapState, addr: int, len: int)
    ensures
        heap.in_image(addr, len) <==> heap.image_base <= addr && addr + len <= heap.image_base
            + heap.image.len(),
        heap.in_region(addr, len) <==> heap.base != 0 && heap.base <= addr && addr + len
            <= heap.base + heap.region.len(),
        heap.in_use(addr, len) <==> heap.base != 0 && heap.from_base <= addr && addr + len
            <= heap.free,
        heap.readable(addr, len) <==> {
            ||| heap.image_base <= addr && addr + len <= heap.image_base + heap.image.len()
            ||| heap.base != 0 && heap.base <= addr && addr + len <= heap.base + heap.region.len()
        },
        heap.held(addr, len) <==> {
            ||| heap.image_base <= addr && addr + len <= heap.image_base + heap.image.len()
            ||| heap.base != 0 && heap.from_base <= addr && addr + len <= heap.free
        },
{
}

/// Law: the first eight bytes of an object name its class, and the four bytes
/// from the sixteenth on give the length of a string, least significant byte
/// first.
pub proof fn law_header(heap: HeapState, addr: int)
    ensures
        heap.class_at(addr) == heap.byte(addr) + 0x100 * heap.byte(addr + 1) + 0x1_0000 * heap.byte(
            addr + 2,
        ) + 0x100_0000 * heap.byte(addr + 3) + 0x1_0000_0000 * heap.byte(addr + 4)
            + 0x100_0000_0000 * heap.byte(addr + 5) + 0x1_0000_0000_0000 * heap.byte(addr + 6)
            + 0x100_0000_0000_0000 * heap.byte(addr + 7),
        heap.length_at(addr) == heap.byte(addr + 16) + 0x100 * heap.byte(addr + 17) + 0x1_0000
            * heap.byte(addr + 18) + 0x100_0000 * heap.byte(addr + 19),
{
    law_word_digits(heap.span(addr, 8));
    law_word_digits(heap.span(addr + 16, 4));
    lemma_word_value_bound(heap.span(addr, 8));
    lemma_word_limits();
}

/// Law: a string is what names the class of strings, number one, and lies with
/// its twenty bytes of header and length, and with as many bytes of data as it
/// says, in the program image or among the objects of the active semispace.
pub proof fn law_string(heap: HeapState, addr: int)
    ensures
        heap.is_string(addr) <==> {
            &&& heap.class_at(addr) == 1
            &&& {
                ||| heap.image_base <= addr && addr + 20 + heap.length_at(addr) <= heap.image_base
                    + heap.image.len()
                ||| heap.base != 0 && heap.from_base <= addr && addr + 20 + heap.length_at(addr)
                    <= heap.free
            }
        },
        heap.string(addr).len() == heap.length_at(addr),
        forall|i: int|
            0 <= i < heap.length_at(addr) ==> #[trigger] heap.string(addr)[i] == heap.byte(
                addr + 20 + i,
            ),
{
}

/// Law: writing changes the bytes that are written, to what is written, and
/// nothing else.
pub proof fn law_write(heap: HeapState, addr: int, bytes: Seq<u8>, i: int)
    requires
        0 <= i < heap.region.len(),
    ensures
        heap.write(addr, bytes).region.len() == heap.region.len(),
        addr <= heap.base + i < addr + bytes.len() ==> heap.write(addr, bytes).region[i]
            == bytes[heap.base + i - addr],
        heap.base + i < addr || addr + bytes.len() <= heap.base + i ==> heap.write(
            addr,
            bytes,
        ).region[i] == heap.region[i],
        heap.write(addr, bytes).image_base == heap.image_base,
        heap.write(addr, bytes).image == heap.image,
        heap.write(addr, bytes).base == heap.base,
        heap.write(addr, bytes).from_base == heap.from_base,
        heap.write(addr, bytes).from_limit == heap.from_limit,
        heap.write(addr, bytes).free == heap.free,
        heap.write(addr, bytes).to_base == heap.to_base,
        heap.write(addr, bytes).to_limit == heap.to_limit,
{
}

/// Law: taking bytes off the active semispace moves the end of what is in use
/// by as many, and nothing else.
pub proof fn law_bumped(heap: HeapState, size: int)
    ensures
        heap.bumped(size).free == heap.free + size,
        heap.bumped(size).image_base == heap.image_base,
        heap.bumped(size).image == heap.image,
        heap.bumped(size).base == heap.base,
        heap.bumped(size).region == heap.region,
        heap.bumped(size).from_base == heap.from_base,
        heap.bumped(size).from_limit == heap.from_limit,
        heap.bumped(size).to_base == heap.to_base,
        heap.bumped(size).to_limit == heap.to_limit,
{
}

/// Law: placing an object writes it from the first multiple of sixteen on that
/// is not in use, lets what is in use end where the object ends, and changes
/// nothing else.
pub proof fn law_put(heap: HeapState, object: Seq<u8>, start: int, i: int)
    requires
        heap.wf(),
        start % 16 == 0,
        heap.free <= start < heap.free + 16,
        0 <= i < heap.region.len(),
    ensures
        heap.put(object).free == start + object.len(),
        heap.put(object).region.len() == heap.region.len(),
        start <= heap.base + i < start + object.len() ==> heap.put(object).region[i]
            == object[heap.base + i - start],
        heap.base + i < start || start + object.len() <= heap.base + i
            ==> heap.put(object).region[i]
            == heap.region[i],
        heap.put(object).image_base == heap.image_base,
        heap.put(object).image == heap.image,
        heap.put(object).base == heap.base,
        heap.put(object).from_base == heap.from_base,
        heap.put(object).from_limit == heap.from_limit,
        heap.put(object).to_base == heap.to_base,
        heap.put(object).to_limit == heap.to_limit,
{
    law_room(heap, start, 0);
}

/// Law: a flip exchanges the bounds of the semispaces, lets what is in use end
/// at the address that it is given, and changes nothing else.
pub proof fn law_flipped(heap: HeapState, new_free: int)
    ensures
        heap.flipped(new_free).from_base == heap.to_base,
        heap.flipped(new_free).from_limit == heap.to_limit,
        heap.flipped(new_free).to_base == heap.from_base,
        heap.flipped(new_free).to_limit == heap.from_limit,
        heap.flipped(new_free).free == new_free,
        heap.flipped(new_free).image_base == heap.image_base,
        heap.flipped(new_free).image == heap.image,
        heap.flipped(new_free).base == heap.base,
        heap.flipped(new_free).region == heap.region,
{
}

/// Law: a shutdown leaves the program image, and null for all else.
pub proof fn law_released(heap: HeapState)
    ensures
        heap.released().image_base == heap.image_base,
        heap.released().image == heap.image,
        heap.released().base == 0,
        heap.released().region.len() == 0,
        heap.released().from_base == 0,
        heap.released().from_limit == 0,
        heap.released().free == 0,
        heap.released().to_base == 0,
        heap.released().to_limit == 0,
{
}

/// Law: a fresh region has two semispaces side by side, of the size asked for
/// each and zero throughout, of which the lower one is active and empty; the
/// program image is as it was.
pub proof fn law_opened(heap: HeapState, base: int, semi: int)
    requires
        0 <= semi,
    ensures
        heap.opened(base, semi).image_base == heap.image_base,
        heap.opened(base, semi).image == heap.image,
        heap.opened(base, semi).base == base,
        heap.opened(base, semi).region.len() == 2 * semi,
        forall|i: int| 0 <= i < 2 * semi ==> #[trigger] heap.opened(base, semi).region[i] == 0,
        heap.opened(base, semi).from_base == base,
        heap.opened(base, semi).free == base,
        heap.opened(base, semi).from_limit == base + semi,
        heap.opened(base, semi).to_base == base + semi,
        heap.opened(base, semi).to_limit == base + 2 * semi,
{
}

/// Law: memory is in order where the program image lies at proper addresses, and
/// where there is either no managed region or one, apart from the image, of two
/// aligned semispaces side by side, with what is in use within the active one.
/// Nothing more is asked of it.
pub proof fn law_in_order(heap: HeapState, semi: int)
    requires
        0 < heap.image_base,
        heap.image_base + heap.image.len() <= usize::MAX,
        0 < heap.base,
        heap.base % 16 == 0,
        0 < semi,
        semi % 16 == 0,
        heap.region.len() == 2 * semi,
        heap.region.len() <= isize::MAX,
        heap.base + heap.region.len() <= usize::MAX,
        heap.from_limit == heap.from_base + semi,
        heap.to_limit == heap.to_base + semi,
        heap.from_base <= heap.free <= heap.from_limit,
        (heap.from_base == heap.base && heap.to_base == heap.base + semi) || (heap.to_base
            == heap.base && heap.from_base == heap.base + semi),
        heap.image_base + heap.image.len() <= heap.base || heap.base + heap.region.len()
            <= heap.image_base,
    ensures
        heap.wf(),
        heap.released().wf(),
{
}

/// Law: the managed region and the program image are the same, by place and
/// size, exactly where the image has its place and contents and the region its
/// base and length.
pub proof fn law_same_region(heap: HeapState, after: HeapState)
    ensures
        heap.same_region(after) <==> {
            &&& after.image_base == heap.image_base
            &&& after.image == heap.image
            &&& after.base == heap.base
            &&& after.region.len() == heap.region.len()
        },
{
}

/// Law: a heap is blank exactly where nothing of a managed region is set.
pub proof fn law_blank(heap: HeapState)
    ensures
        heap.blank() <==> {
            &&& heap.base == 0
            &&& heap.region.len() == 0
            &&& heap.from_base == 0
            &&& heap.from_limit == 0
            &&& heap.free == 0
            &&& heap.to_base == 0
            &&& heap.to_limit == 0
        },
{
    if heap.region.len() == 0 {
        assert(heap.region =~= Seq::<u8>::empty());
    }
}

} // verus!
