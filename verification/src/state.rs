//! The mathematical model of memory: what every address holds, where the
//! semispaces lie, and how far allocation has come.

use vstd::prelude::*;

use crate::object::{
    lemma_string_bytes_len, lemma_word_bytes_len, lemma_word_limits, law_word_round_trip,
    object_bytes, string_bytes, string_size, word_bytes, word_value, zeros, CLASS_WIDTH,
    LO_STRING_CLASS, OBJECT_SIZE, STRING_DATA_OFFSET, STRING_LENGTH_OFFSET,
    STRING_LENGTH_WIDTH,
};

verus! {

/// The bytes of a string object that is to hold `len` bytes, of whose data only
/// `done` is written so far, the rest being zeros.
pub open spec fn unfinished_string(done: Seq<u8>, len: int) -> Seq<u8> {
    string_bytes(done + zeros(len - done.len()))
}

/// Every object, and each semispace, starts at a multiple of this.
pub const HEAP_ALIGN: usize = 16;

/// The contents of memory and the geometry of the heap.
#[verifier::ext_equal]
pub struct HeapState {
    /// Where the program image starts.
    pub image_base: int,
    /// What the program image holds.
    pub image: Seq<u8>,
    /// Where the managed region starts; null while there is none.
    pub base: int,
    /// What the managed region holds.
    pub region: Seq<u8>,
    /// Where the active semispace starts.
    pub from_base: int,
    /// Where the active semispace ends.
    pub from_limit: int,
    /// Where the objects of the active semispace end.
    pub free: int,
    /// Where the inactive semispace starts.
    pub to_base: int,
    /// Where the inactive semispace ends.
    pub to_limit: int,
}

impl HeapState {
    /// There is a managed region.
    pub open spec fn ready(self) -> bool {
        self.base != 0
    }

    /// The program image occupies proper addresses.
    pub open spec fn image_wf(self) -> bool {
        &&& 0 < self.image_base
        &&& self.image_base + self.image.len() <= usize::MAX
    }

    /// Everything about the managed region is null, as before it is set up.
    pub open spec fn blank(self) -> bool {
        &&& self.base == 0
        &&& self.region == Seq::<u8>::empty()
        &&& self.from_base == 0
        &&& self.from_limit == 0
        &&& self.free == 0
        &&& self.to_base == 0
        &&& self.to_limit == 0
    }

    /// Bytes in each semispace.
    pub open spec fn semi(self) -> int {
        self.from_limit - self.from_base
    }

    /// The managed region consists of two equal, adjacent, aligned semispaces,
    /// one of them active, and lies apart from the program image.
    pub open spec fn split(self) -> bool {
        &&& 0 < self.base
        &&& self.base % (HEAP_ALIGN as int) == 0
        &&& self.base + self.region.len() <= usize::MAX
        &&& self.region.len() <= isize::MAX
        &&& 0 < self.semi()
        &&& self.semi() % (HEAP_ALIGN as int) == 0
        &&& self.to_limit - self.to_base == self.semi()
        &&& self.region.len() == 2 * self.semi()
        &&& {
            ||| self.from_base == self.base && self.to_base == self.base + self.semi()
            ||| self.to_base == self.base && self.from_base == self.base + self.semi()
        }
        &&& self.from_base <= self.free <= self.from_limit
        &&& {
            ||| self.image_base + self.image.len() <= self.base
            ||| self.base + self.region.len() <= self.image_base
        }
    }

    /// What holds of memory at all times.
    pub open spec fn wf(self) -> bool {
        &&& self.image_wf()
        &&& self.blank() || self.split()
    }

    /// Where the next object goes: the first aligned address behind the objects
    /// of the active semispace.
    pub open spec fn next(self) -> int {
        (self.free + (HEAP_ALIGN - 1)) / (HEAP_ALIGN as int) * HEAP_ALIGN
    }

    /// The next object will be aligned.
    pub open spec fn aligned(self) -> bool {
        self.next() % (HEAP_ALIGN as int) == 0
    }

    /// `after` has the program image and the managed region, by place and size,
    /// that `self` has.
    pub open spec fn same_region(self, after: HeapState) -> bool {
        &&& after.image_base == self.image_base
        &&& after.image == self.image
        &&& after.base == self.base
        &&& after.region.len() == self.region.len()
    }

    /// `len` bytes from `addr` on lie in the program image.
    pub open spec fn in_image(self, addr: int, len: int) -> bool {
        self.image_base <= addr && addr + len <= self.image_base + self.image.len()
    }

    /// `len` bytes from `addr` on lie in the managed region.
    pub open spec fn in_region(self, addr: int, len: int) -> bool {
        self.ready() && self.base <= addr && addr + len <= self.base + self.region.len()
    }

    /// `len` bytes from `addr` on lie among the objects of the active
    /// semispace.
    pub open spec fn in_use(self, addr: int, len: int) -> bool {
        self.ready() && self.from_base <= addr && addr + len <= self.free
    }

    /// `len` bytes from `addr` on can be read.
    pub open spec fn readable(self, addr: int, len: int) -> bool {
        self.in_image(addr, len) || self.in_region(addr, len)
    }

    /// `len` bytes from `addr` on belong to the program image or to the
    /// objects of the active semispace.
    pub open spec fn held(self, addr: int, len: int) -> bool {
        self.in_image(addr, len) || self.in_use(addr, len)
    }

    /// The byte at `addr`.
    pub open spec fn byte(self, addr: int) -> u8 {
        if self.in_image(addr, 1) {
            self.image[addr - self.image_base]
        } else {
            self.region[addr - self.base]
        }
    }

    /// The `len` bytes from `addr` on.
    pub open spec fn span(self, addr: int, len: int) -> Seq<u8> {
        Seq::new(len as nat, |i: int| self.byte(addr + i))
    }

    /// The class that the header of the object at `addr` names.
    pub open spec fn class_at(self, addr: int) -> u64 {
        word_value(self.span(addr, CLASS_WIDTH as int)) as u64
    }

    /// The length that the string at `addr` states.
    pub open spec fn length_at(self, addr: int) -> nat {
        word_value(self.span(addr + STRING_LENGTH_OFFSET, STRING_LENGTH_WIDTH as int))
    }

    /// A string lies at `addr`, header and data, in the program image or among
    /// the objects of the active semispace: its class is that of strings.
    pub open spec fn is_string(self, addr: int) -> bool {
        &&& self.held(addr, STRING_DATA_OFFSET as int)
        &&& self.class_at(addr) == LO_STRING_CLASS
        &&& self.held(addr, STRING_DATA_OFFSET + self.length_at(addr))
    }

    /// The data of the string at `addr`.
    pub open spec fn string(self, addr: int) -> Seq<u8> {
        self.span(addr + STRING_DATA_OFFSET, self.length_at(addr) as int)
    }

    /// There is room for `size` more bytes in the active semispace.
    pub open spec fn has_room(self, size: int) -> bool {
        self.ready() && self.free + size <= self.from_limit
    }

    /// There is room for an object of `size` bytes in the active semispace.
    pub open spec fn fits(self, size: int) -> bool {
        self.ready() && self.next() + size <= self.from_limit
    }

    /// Memory with `bytes` written into the managed region at `addr`.
    pub open spec fn write(self, addr: int, bytes: Seq<u8>) -> HeapState {
        HeapState {
            region: Seq::new(
                self.region.len(),
                |i: int|
                    if addr <= self.base + i < addr + bytes.len() {
                        bytes[self.base + i - addr]
                    } else {
                        self.region[i]
                    },
            ),
            ..self
        }
    }

    /// Memory with the next `size` bytes of the active semispace given away.
    pub open spec fn bumped(self, size: int) -> HeapState {
        HeapState { free: self.free + size, ..self }
    }

    /// Memory with `object` placed where the next object goes.
    pub open spec fn put(self, object: Seq<u8>) -> HeapState {
        HeapState {
            free: self.next() + object.len(),
            ..self.write(self.next(), object)
        }
    }

    /// Memory with the roles of the semispaces exchanged, and the bytes up to
    /// `new_free` in use.
    pub open spec fn flipped(self, new_free: int) -> HeapState {
        HeapState {
            from_base: self.to_base,
            from_limit: self.to_limit,
            free: new_free,
            to_base: self.from_base,
            to_limit: self.from_limit,
            ..self
        }
    }

    /// Memory without a managed region.
    pub open spec fn released(self) -> HeapState {
        HeapState {
            base: 0,
            region: Seq::empty(),
            from_base: 0,
            from_limit: 0,
            free: 0,
            to_base: 0,
            to_limit: 0,
            ..self
        }
    }

    /// Memory with a fresh managed region of two semispaces of `semi` zero
    /// bytes each, the lower one active.
    pub open spec fn opened(self, base: int, semi: int) -> HeapState {
        HeapState {
            base,
            region: zeros(2 * semi),
            from_base: base,
            from_limit: base + semi,
            free: base,
            to_base: base + semi,
            to_limit: base + 2 * semi,
            ..self
        }
    }

    /// Bytes that the objects of the active semispace take.
    pub open spec fn used(self) -> int {
        self.free - self.from_base
    }

    /// The next object goes to an aligned address, at most one alignment behind
    /// the objects before it, and not behind the end of the semispace.
    pub proof fn lemma_next(self)
        requires
            self.wf(),
        ensures
            self.aligned(),
            self.free <= self.next() < self.free + HEAP_ALIGN,
            self.next() <= self.from_limit,
            self.free + (HEAP_ALIGN - 1) <= usize::MAX,
    {
        if self.split() {
            lemma_limit_aligned(self.base, self.semi());
            lemma_round_up(self.free, self.from_limit);
        } else {
            lemma_round_up(self.free, 0);
        }
    }

    /// Placing an object keeps memory in order and what is held as it is.
    pub proof fn lemma_put(self, object: Seq<u8>)
        requires
            self.wf(),
            self.fits(object.len() as int),
        ensures
            self.put(object).wf(),
            self.put(object).span(self.next(), object.len() as int) == object,
            self.put(object).in_use(self.next(), object.len() as int),
            forall|addr: int, len: int|
                #![trigger self.put(object).span(addr, len)]
                0 <= len && self.held(addr, len) ==> self.put(object).held(addr, len) && self.put(
                    object,
                ).span(addr, len) == self.span(addr, len),
    {
        let after = self.put(object);
        assert(after.span(self.next(), object.len() as int) =~= object);
        assert forall|addr: int, len: int| 0 <= len && self.held(addr, len) implies after.held(addr, len)
            && #[trigger] after.span(addr, len) == self.span(addr, len) by {
            assert(after.span(addr, len) =~= self.span(addr, len));
        }
    }

    /// Strings stay where they are, and what they are, when an object is
    /// placed.
    pub proof fn lemma_put_keeps_string(self, object: Seq<u8>, addr: int)
        requires
            self.wf(),
            self.fits(object.len() as int),
            self.is_string(addr),
        ensures
            self.put(object).is_string(addr),
            self.put(object).string(addr) == self.string(addr),
    {
        self.lemma_put(object);
        let after = self.put(object);
        let header = STRING_DATA_OFFSET as int;
        assert(after.span(addr, header) == self.span(addr, header));
        assert(after.length_at(addr) == self.length_at(addr)) by {
            let at = addr + STRING_LENGTH_OFFSET;
            assert(self.held(at, STRING_LENGTH_WIDTH as int));
            assert(after.span(at, STRING_LENGTH_WIDTH as int) == self.span(
                at,
                STRING_LENGTH_WIDTH as int,
            ));
        }
        assert(after.class_at(addr) == self.class_at(addr)) by {
            assert(self.held(addr, CLASS_WIDTH as int));
            assert(after.span(addr, CLASS_WIDTH as int) == self.span(addr, CLASS_WIDTH as int));
        }
        let len = self.length_at(addr) as int;
        assert(after.span(addr, header + len) == self.span(addr, header + len));
        assert(self.held(addr + header, len));
        assert(after.span(addr + header, len) == self.span(addr + header, len));
    }

    /// A placed string reads back as what it was made of.
    pub proof fn lemma_put_string(self, content: Seq<u8>)
        requires
            self.wf(),
            content.len() <= u32::MAX,
            self.fits(string_size(content.len()) as int),
        ensures
            self.put(string_bytes(content)).is_string(self.next()),
            self.put(string_bytes(content)).string(self.next()) == content,
            self.put(string_bytes(content)).class_at(self.next()) == LO_STRING_CLASS,
    {
        let object = string_bytes(content);
        lemma_string_bytes_len(content);
        lemma_word_bytes_len(LO_STRING_CLASS as nat, CLASS_WIDTH as nat);
        lemma_word_bytes_len(content.len(), STRING_LENGTH_WIDTH as nat);
        self.lemma_put(object);
        let after = self.put(object);
        let whole = after.span(self.next(), object.len() as int);
        let length_word = word_bytes(content.len(), STRING_LENGTH_WIDTH as nat);
        assert(after.span(self.next() + STRING_LENGTH_OFFSET, STRING_LENGTH_WIDTH as int)
            =~= length_word) by {
            assert forall|i: int| 0 <= i < 4 implies after.byte(
                self.next() + STRING_LENGTH_OFFSET + i,
            ) == length_word[i] by {
                assert(whole[STRING_LENGTH_OFFSET + i] == object[STRING_LENGTH_OFFSET + i]);
            }
        }
        lemma_word_limits();
        law_word_round_trip(content.len(), STRING_LENGTH_WIDTH as nat);
        assert(after.string(self.next()) =~= content) by {
            assert forall|i: int| 0 <= i < content.len() implies after.byte(
                self.next() + STRING_DATA_OFFSET + i,
            ) == content[i] by {
                assert(whole[STRING_DATA_OFFSET + i] == object[STRING_DATA_OFFSET + i]);
            }
        }
        let class_word = word_bytes(LO_STRING_CLASS as nat, CLASS_WIDTH as nat);
        assert(after.span(self.next(), CLASS_WIDTH as int) =~= class_word) by {
            assert forall|i: int| 0 <= i < CLASS_WIDTH implies after.byte(self.next() + i)
                == class_word[i] by {
                assert(whole[i] == object[i]);
            }
        }
        law_word_round_trip(LO_STRING_CLASS as nat, CLASS_WIDTH as nat);
    }

    /// Writing the next bytes of data into a placed string, of whose data only
    /// `done` is written so far.
    pub proof fn lemma_fill_string(self, done: Seq<u8>, next: Seq<u8>, len: int)
        requires
            self.wf(),
            self.fits(string_size(len as nat) as int),
            done.len() + next.len() <= len,
        ensures
            self.put(unfinished_string(done, len)).write(
                self.next() + STRING_DATA_OFFSET + done.len(),
                next,
            ) == self.put(unfinished_string(done + next, len)),
    {
        let before = done + zeros(len - done.len());
        let after = done + next + zeros(len - done.len() - next.len());
        lemma_string_bytes_len(before);
        lemma_string_bytes_len(after);
        lemma_word_bytes_len(LO_STRING_CLASS as nat, CLASS_WIDTH as nat);
        lemma_word_bytes_len(len as nat, STRING_LENGTH_WIDTH as nat);
        let written = self.put(unfinished_string(done, len)).write(
            self.next() + STRING_DATA_OFFSET + done.len(),
            next,
        );
        let target = self.put(unfinished_string(done + next, len));
        assert((done + next) + zeros(len - (done + next).len()) =~= after);
        assert(written.region =~= target.region);
        assert(written =~= target);
    }

    /// A placed object names the class that it was made with.
    pub proof fn lemma_put_object(self, class: u64, size: nat)
        requires
            self.wf(),
            size >= OBJECT_SIZE,
            self.fits(size as int),
        ensures
            object_bytes(class, size).len() == size,
            self.put(object_bytes(class, size)).class_at(self.next()) == class,
    {
        let object = object_bytes(class, size);
        let class_word = word_bytes(class as nat, CLASS_WIDTH as nat);
        lemma_word_bytes_len(class as nat, CLASS_WIDTH as nat);
        self.lemma_put(object);
        let after = self.put(object);
        let whole = after.span(self.next(), size as int);
        assert(after.span(self.next(), CLASS_WIDTH as int) =~= class_word) by {
            assert forall|i: int| 0 <= i < CLASS_WIDTH implies after.byte(self.next() + i)
                == class_word[i] by {
                assert(whole[i] == object[i]);
            }
        }
        lemma_word_limits();
        law_word_round_trip(class as nat, CLASS_WIDTH as nat);
    }
}

/// Rounding up to the heap alignment does not go past an aligned limit.
proof fn lemma_round_up(addr: int, limit: int)
    requires
        0 <= addr <= limit <= usize::MAX,
        limit % (HEAP_ALIGN as int) == 0,
    ensures
        addr <= (addr + (HEAP_ALIGN - 1)) / (HEAP_ALIGN as int) * HEAP_ALIGN <= limit,
        (addr + (HEAP_ALIGN - 1)) / (HEAP_ALIGN as int) * HEAP_ALIGN < addr + HEAP_ALIGN,
        ((addr + (HEAP_ALIGN - 1)) / (HEAP_ALIGN as int) * HEAP_ALIGN) % (HEAP_ALIGN as int) == 0,
        addr + (HEAP_ALIGN - 1) <= usize::MAX,
{
    assert(usize::MAX == 0xffff_ffff || usize::MAX == 0xffff_ffff_ffff_ffff);
}

/// Semispaces end at multiples of the heap alignment.
proof fn lemma_limit_aligned(base: int, semi: int)
    requires
        base % (HEAP_ALIGN as int) == 0,
        semi % (HEAP_ALIGN as int) == 0,
    ensures
        (base + semi) % (HEAP_ALIGN as int) == 0,
        (base + 2 * semi) % (HEAP_ALIGN as int) == 0,
{
}

} // verus!
