//! Memory as the runtime sees it, byte by byte, and access to it.

use vstd::prelude::*;
use vstd::slice::slice_subrange;

use crate::object::{
    lemma_word_bytes_len, lemma_word_limits, lemma_word_value_bound, word_bytes, word_limit,
    word_value, zeros,
};
use crate::state::HeapState;

verus! {

/// The program image, the managed region, and the bounds of its semispaces.
pub struct Heap {
    pub(crate) image_base: usize,
    pub(crate) image: Vec<u8>,
    pub(crate) base: usize,
    pub(crate) region: Vec<u8>,
    pub(crate) from_base: usize,
    pub(crate) from_limit: usize,
    pub(crate) free: usize,
    pub(crate) to_base: usize,
    pub(crate) to_limit: usize,
}

impl View for Heap {
    type V = HeapState;

    open(crate) spec fn view(&self) -> HeapState {
        HeapState {
            image_base: self.image_base as int,
            image: self.image@,
            base: self.base as int,
            region: self.region@,
            from_base: self.from_base as int,
            from_limit: self.from_limit as int,
            free: self.free as int,
            to_base: self.to_base as int,
            to_limit: self.to_limit as int,
        }
    }
}

impl Heap {
    /// What holds of memory at all times.
    pub open spec fn wf(&self) -> bool {
        self@.wf()
    }

    /// Memory that holds a program image and no managed region yet.
    pub fn new(image_base: usize, image: Vec<u8>) -> (heap: Heap)
        requires
            0 < image_base,
            image_base + image@.len() <= usize::MAX,
        ensures
            heap.wf(),
            heap@.blank(),
            heap@.image_base == image_base,
            heap@.image == image@,
    {
        let heap = Heap {
            image_base,
            image,
            base: 0,
            region: Vec::new(),
            from_base: 0,
            from_limit: 0,
            free: 0,
            to_base: 0,
            to_limit: 0,
        };
        assert(heap@.blank());
        heap
    }

    /// The byte at `addr`.
    pub fn load_byte(&self, addr: usize) -> (value: u8)
        requires
            self.wf(),
            self@.readable(addr as int, 1),
        ensures
            value == self@.byte(addr as int),
    {
        if self.image_base <= addr && addr - self.image_base < self.image.len() {
            self.image[addr - self.image_base]
        } else {
            self.region[addr - self.base]
        }
    }

    /// Puts `value` at `addr`, in the managed region.
    pub fn store_byte(&mut self, addr: usize, value: u8)
        requires
            old(self).wf(),
            old(self)@.in_region(addr as int, 1),
        ensures
            final(self).wf(),
            final(self)@ == old(self)@.write(addr as int, seq![value]),
    {
        let index: usize = addr - self.base;
        self.region.set(index, value);
        assert(self@ =~= old(self)@.write(addr as int, seq![value]));
    }

    /// The `len` bytes from `addr` on.
    pub fn load_span(&self, addr: usize, len: usize) -> (bytes: &[u8])
        requires
            self.wf(),
            self@.readable(addr as int, len as int),
        ensures
            bytes@ == self@.span(addr as int, len as int),
    {
        if self.image_base <= addr && addr - self.image_base <= self.image.len() && len
            <= self.image.len() - (addr - self.image_base) {
            let start: usize = addr - self.image_base;
            let bytes = slice_subrange(self.image.as_slice(), start, start + len);
            assert(bytes@ =~= self@.span(addr as int, len as int));
            bytes
        } else {
            let start: usize = addr - self.base;
            let bytes = slice_subrange(self.region.as_slice(), start, start + len);
            assert(bytes@ =~= self@.span(addr as int, len as int));
            bytes
        }
    }

    /// The word of `width` bytes at `addr`.
    pub fn load_word(&self, addr: usize, width: usize) -> (value: u64)
        requires
            self.wf(),
            self@.readable(addr as int, width as int),
            width <= 8,
        ensures
            value == word_value(self@.span(addr as int, width as int)),
    {
        let mut value: u64 = 0;
        let mut left: usize = width;
        assert(self@.span(addr + width, 0) =~= Seq::<u8>::empty());
        while left > 0
            invariant
                self.wf(),
                self@.readable(addr as int, width as int),
                left <= width <= 8,
                value == word_value(self@.span(addr + left, width - left)),
            decreases left,
        {
            left = left - 1;
            let byte: u8 = self.load_byte(addr + left);
            let ghost span = self@.span(addr + left, width - left);
            proof {
                assert(span.drop_first() =~= self@.span(addr + left + 1, width - left - 1));
                lemma_word_value_bound(span);
                lemma_limit_monotonic(span.len(), 8);
                lemma_word_limits();
            }
            value = byte as u64 + 256 * value;
        }
        value
    }

    /// Puts the low `width` bytes of `value` at `addr`, in the managed region.
    pub fn store_word(&mut self, addr: usize, width: usize, value: u64)
        requires
            old(self).wf(),
            old(self)@.in_region(addr as int, width as int),
        ensures
            final(self).wf(),
            final(self)@ == old(self)@.write(addr as int, word_bytes(value as nat, width as nat)),
    {
        let ghost word = word_bytes(value as nat, width as nat);
        proof {
            lemma_word_bytes_len(value as nat, width as nat);
        }
        let mut rest: u64 = value;
        let mut done: usize = 0;
        assert(word.skip(0) =~= word);
        assert(self@ =~= old(self)@.write(addr as int, word.take(0)));
        while done < width
            invariant
                self.wf(),
                old(self)@.in_region(addr as int, width as int),
                self@ == old(self)@.write(addr as int, word.take(done as int)),
                done <= width,
                word.len() == width,
                word.skip(done as int) == word_bytes(rest as nat, (width - done) as nat),
            decreases width - done,
        {
            let ghost before = self@;
            let ghost tail = word_bytes(rest as nat, (width - done) as nat);
            let byte: u8 = (rest % 256) as u8;
            assert(tail[0] == byte);
            assert(word.skip(done as int)[0] == word[done as int]);
            self.store_byte(addr + done, byte);
            proof {
                lemma_word_bytes_len((rest / 256) as nat, (width - done - 1) as nat);
                assert(word.skip(done + 1) =~= word.skip(done as int).skip(1));
                assert(tail.skip(1) =~= word_bytes(
                    (rest / 256) as nat,
                    (width - done - 1) as nat,
                ));
                assert(self@ =~= old(self)@.write(addr as int, word.take(done + 1)));
            }
            rest = rest / 256;
            done = done + 1;
        }
        assert(word.take(width as int) =~= word);
    }

    /// Puts `len` zero bytes at `addr`, in the managed region.
    pub fn fill_zero(&mut self, addr: usize, len: usize)
        requires
            old(self).wf(),
            old(self)@.in_region(addr as int, len as int),
        ensures
            final(self).wf(),
            final(self)@ == old(self)@.write(addr as int, zeros(len as int)),
    {
        let mut done: usize = 0;
        assert(self@ =~= old(self)@.write(addr as int, zeros(0)));
        while done < len
            invariant
                self.wf(),
                old(self)@.in_region(addr as int, len as int),
                self@ == old(self)@.write(addr as int, zeros(done as int)),
                done <= len,
            decreases len - done,
        {
            self.store_byte(addr + done, 0);
            assert(self@ =~= old(self)@.write(addr as int, zeros(done + 1)));
            done = done + 1;
        }
    }

    /// Puts `bytes` at `addr`, in the managed region.
    pub fn store_span(&mut self, addr: usize, bytes: &[u8])
        requires
            old(self).wf(),
            old(self)@.in_region(addr as int, bytes@.len() as int),
        ensures
            final(self).wf(),
            final(self)@ == old(self)@.write(addr as int, bytes@),
    {
        let mut done: usize = 0;
        assert(self@ =~= old(self)@.write(addr as int, bytes@.take(0)));
        while done < bytes.len()
            invariant
                self.wf(),
                old(self)@.in_region(addr as int, bytes@.len() as int),
                self@ == old(self)@.write(addr as int, bytes@.take(done as int)),
                done <= bytes@.len(),
            decreases bytes@.len() - done,
        {
            self.store_byte(addr + done, bytes[done]);
            assert(self@ =~= old(self)@.write(addr as int, bytes@.take(done + 1)));
            done = done + 1;
        }
        assert(bytes@.take(bytes@.len() as int) =~= bytes@);
    }

    /// Copies `len` bytes from `source` to `target`, which lies in the managed
    /// region and apart from the bytes that are read.
    pub fn copy_nonoverlapping(&mut self, source: usize, target: usize, len: usize)
        requires
            old(self).wf(),
            old(self)@.readable(source as int, len as int),
            old(self)@.in_region(target as int, len as int),
            source + len <= target || target + len <= source,
        ensures
            final(self).wf(),
            final(self)@ == old(self)@.write(
                target as int,
                old(self)@.span(source as int, len as int),
            ),
    {
        let ghost bytes = self@.span(source as int, len as int);
        let mut done: usize = 0;
        assert(self@ =~= old(self)@.write(target as int, bytes.take(0)));
        while done < len
            invariant
                self.wf(),
                old(self).wf(),
                old(self)@.readable(source as int, len as int),
                old(self)@.in_region(target as int, len as int),
                source + len <= target || target + len <= source,
                bytes == old(self)@.span(source as int, len as int),
                self@ == old(self)@.write(target as int, bytes.take(done as int)),
                done <= len,
            decreases len - done,
        {
            let byte: u8 = self.load_byte(source + done);
            assert(byte == bytes[done as int]);
            self.store_byte(target + done, byte);
            assert(self@ =~= old(self)@.write(target as int, bytes.take(done + 1)));
            done = done + 1;
        }
        assert(bytes.take(len as int) =~= bytes);
    }
}

/// Wider words hold more.
proof fn lemma_limit_monotonic(narrow: nat, wide: nat)
    requires
        narrow <= wide,
    ensures
        word_limit(narrow) <= word_limit(wide),
        1 <= word_limit(wide),
    decreases wide,
{
    if narrow < wide {
        lemma_limit_monotonic(narrow, (wide - 1) as nat);
    } else if wide > 0 {
        lemma_limit_monotonic((narrow - 1) as nat, (wide - 1) as nat);
    }
}

} // verus!
