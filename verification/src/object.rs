//! How objects are laid out in memory, and what a class descriptor holds.
//!
//! Every object starts with a header of [`OBJECT_SIZE`] bytes: the reference
//! to its class in eight bytes, then the collector's mark word and the flag
//! word in four bytes each. A string goes on with its length in four bytes and
//! its data. All words are stored with their least significant byte first.

use vstd::prelude::*;

verus! {

/// Bytes in an object header.
pub const OBJECT_SIZE: usize = 16;

/// Bytes that hold the class reference, at the start of the header.
pub const CLASS_WIDTH: usize = 8;

/// Where the collector's mark word lies in the header.
pub const GC_BITS_OFFSET: usize = 8;

/// Bytes that hold the collector's mark word.
pub const GC_BITS_WIDTH: usize = 4;

/// Where the flag word lies in the header.
pub const FLAGS_OFFSET: usize = 12;

/// Bytes that hold the flag word.
pub const FLAGS_WIDTH: usize = 4;

/// Where a string keeps its length, counted from the start of the object.
pub const STRING_LENGTH_OFFSET: usize = 16;

/// Bytes that hold the length of a string.
pub const STRING_LENGTH_WIDTH: usize = 4;

/// Where the data of a string begin, counted from the start of the object.
pub const STRING_DATA_OFFSET: usize = 20;

/// Sizes of objects are multiples of this.
pub const OBJECT_ALIGN: usize = 8;

/// The reference to the class of strings.
pub const LO_STRING_CLASS: u64 = 1;

/// What the runtime knows of a class.
///
/// Classes are referred to by number: zero is null, and `k` is the descriptor
/// at position `k - 1` of the program's class table.
pub struct ClassDescriptor {
    /// Bytes that an instance takes, header and fields.
    pub instance_size: u32,
    /// The name of the class, by convention in UTF-8.
    pub name: Vec<u8>,
    /// The class that this one extends, or null.
    pub parent: u64,
}

/// Where the data of a string begin, counted from the start of the object.
pub fn string_data_offset() -> (offset: usize)
    ensures
        offset == STRING_DATA_OFFSET,
{
    STRING_DATA_OFFSET
}

/// The number that `bytes` stand for, least significant byte first.
pub open spec fn word_value(bytes: Seq<u8>) -> nat
    decreases bytes.len(),
{
    if bytes.len() == 0 {
        0
    } else {
        bytes[0] as nat + 256 * word_value(bytes.drop_first())
    }
}

/// The low `width` bytes of `value`, least significant byte first.
pub open spec fn word_bytes(value: nat, width: nat) -> Seq<u8>
    decreases width,
{
    if width == 0 {
        Seq::empty()
    } else {
        seq![(value % 256) as u8] + word_bytes(value / 256, (width - 1) as nat)
    }
}

/// One past the greatest number that `width` bytes can hold.
pub open spec fn word_limit(width: nat) -> nat
    decreases width,
{
    if width == 0 {
        1
    } else {
        256 * word_limit((width - 1) as nat)
    }
}

/// `count` zero bytes.
pub open spec fn zeros(count: int) -> Seq<u8> {
    Seq::new(count as nat, |i: int| 0u8)
}

/// `size` rounded up to a whole number of object alignments.
pub open spec fn rounded_size(size: nat) -> nat {
    ((size + (OBJECT_ALIGN - 1)) / (OBJECT_ALIGN as int) * OBJECT_ALIGN) as nat
}

/// The bytes of a fresh object: the header with its class, and zeros.
pub open spec fn object_bytes(class: u64, size: nat) -> Seq<u8> {
    word_bytes(class as nat, CLASS_WIDTH as nat) + zeros(size - CLASS_WIDTH)
}

/// The bytes that a string with `len` bytes of data takes in memory.
pub open spec fn string_size(len: nat) -> nat {
    rounded_size((len + STRING_DATA_OFFSET) as nat)
}

/// The bytes of a string object that holds `content`, with the zeros that pad
/// it.
pub open spec fn string_bytes(content: Seq<u8>) -> Seq<u8> {
    word_bytes(LO_STRING_CLASS as nat, CLASS_WIDTH as nat) + zeros(OBJECT_SIZE - CLASS_WIDTH)
        + word_bytes(content.len(), STRING_LENGTH_WIDTH as nat) + content + zeros(
        string_size(content.len()) - STRING_DATA_OFFSET - content.len(),
    )
}

/// A word has as many bytes as asked for.
pub proof fn lemma_word_bytes_len(value: nat, width: nat)
    ensures
        word_bytes(value, width).len() == width,
    decreases width,
{
    if width > 0 {
        lemma_word_bytes_len(value / 256, (width - 1) as nat);
    }
}

/// Zero is written as zeros.
pub proof fn lemma_zero_word(width: nat)
    ensures
        word_bytes(0, width) == zeros(width as int),
    decreases width,
{
    if width > 0 {
        lemma_zero_word((width - 1) as nat);
    }
    assert(word_bytes(0, width) =~= zeros(width as int));
}

/// Law: a number written as a word reads back as itself, where the word is
/// wide enough to hold it.
pub proof fn law_word_round_trip(value: nat, width: nat)
    requires
        value < word_limit(width),
    ensures
        word_value(word_bytes(value, width)) == value,
    decreases width,
{
    if width > 0 {
        let rest = word_bytes(value / 256, (width - 1) as nat);
        law_word_round_trip(value / 256, (width - 1) as nat);
        assert(word_bytes(value, width).drop_first() =~= rest);
    }
}

/// `bytes` stand for a number below the limit of their width.
pub proof fn lemma_word_value_bound(bytes: Seq<u8>)
    ensures
        word_value(bytes) < word_limit(bytes.len()),
    decreases bytes.len(),
{
    if bytes.len() > 0 {
        lemma_word_value_bound(bytes.drop_first());
    }
}

/// How much the widths in use can hold.
pub proof fn lemma_word_limits()
    ensures
        word_limit(4) == u32::MAX + 1,
        word_limit(8) == u64::MAX + 1,
{
    reveal_with_fuel(word_limit, 9);
}

/// A string object has the size that its length calls for.
pub proof fn lemma_string_bytes_len(content: Seq<u8>)
    ensures
        string_bytes(content).len() == string_size(content.len()),
        string_size(content.len()) >= STRING_DATA_OFFSET + content.len(),
        string_size(content.len()) < STRING_DATA_OFFSET + content.len() + OBJECT_ALIGN,
        string_size(content.len()) % (OBJECT_ALIGN as nat) == 0,
{
    lemma_word_bytes_len(LO_STRING_CLASS as nat, CLASS_WIDTH as nat);
    lemma_word_bytes_len(content.len(), STRING_LENGTH_WIDTH as nat);
}

/// Law: a size is rounded up to the first multiple of eight from it on.
pub proof fn law_rounded_size(size: nat)
    ensures
        rounded_size(size) % 8 == 0,
        size <= rounded_size(size) < size + 8,
{
}

/// Law: words have their least significant byte first.
pub proof fn law_word_digits(bytes: Seq<u8>)
    ensures
        bytes.len() == 4 ==> word_value(bytes) == bytes[0] + 0x100 * bytes[1] + 0x1_0000 * bytes[2]
            + 0x100_0000 * bytes[3],
        bytes.len() == 8 ==> word_value(bytes) == bytes[0] + 0x100 * bytes[1] + 0x1_0000 * bytes[2]
            + 0x100_0000 * bytes[3] + 0x1_0000_0000 * bytes[4] + 0x100_0000_0000 * bytes[5]
            + 0x1_0000_0000_0000 * bytes[6] + 0x100_0000_0000_0000 * bytes[7],
{
    reveal_with_fuel(word_value, 9);
}

/// Law: a number written as a word has as many bytes as asked for, of which
/// each stands for what is left of the number below the next one.
pub proof fn law_word_written(value: nat, width: nat, i: int)
    requires
        0 <= i < width,
    ensures
        word_bytes(value, width).len() == width,
        word_bytes(value, width)[0] == value % 256,
        i > 0 ==> word_bytes(value, width)[i] == word_bytes(value / 256, (width - 1) as nat)[i - 1],
{
    lemma_word_bytes_len(value, width);
}

/// Law: a fresh object takes its size, names its class in the first eight bytes,
/// and is zero behind them.
pub proof fn law_object_layout(class: u64, size: nat)
    requires
        size >= 16,
    ensures
        object_bytes(class, size).len() == size,
        word_value(object_bytes(class, size).take(8)) == class,
        forall|i: int| 8 <= i < size ==> #[trigger] object_bytes(class, size)[i] == 0,
{
    lemma_word_bytes_len(class as nat, 8);
    lemma_word_limits();
    law_word_round_trip(class as nat, 8);
    assert(object_bytes(class, size).take(8) =~= word_bytes(class as nat, 8));
}

/// Law: a string object takes the first multiple of eight that holds twenty
/// bytes and its data. It names the class of strings in its first eight bytes,
/// and its length in the four that stand before its data; all other bytes are
/// zero.
pub proof fn law_string_layout(content: Seq<u8>)
    requires
        content.len() <= u32::MAX,
    ensures
        string_bytes(content).len() == string_size(content.len()),
        string_bytes(content).len() % 8 == 0,
        content.len() + 20 <= string_bytes(content).len() < content.len() + 28,
        word_value(string_bytes(content).take(8)) == 1,
        word_value(string_bytes(content).subrange(16, 20)) == content.len(),
        forall|i: int| 0 <= i < content.len() ==> #[trigger] content[i] == string_bytes(content)[20
            + i],
        forall|i: int| 8 <= i < 16 ==> #[trigger] string_bytes(content)[i] == 0,
        forall|i: int|
            20 + content.len() <= i < string_bytes(content).len() ==> #[trigger] string_bytes(
                content,
            )[i] == 0,
{
    lemma_string_bytes_len(content);
    lemma_word_bytes_len(1, 8);
    lemma_word_bytes_len(content.len(), 4);
    lemma_word_limits();
    law_word_round_trip(1, 8);
    law_word_round_trip(content.len(), 4);
    assert(string_bytes(content).take(8) =~= word_bytes(1, 8));
    assert(string_bytes(content).subrange(16, 20) =~= word_bytes(content.len(), 4));
}

/// Law: zeros are as many as asked for, and zero.
pub proof fn law_zeros(count: int, i: int)
    requires
        0 <= i < count,
    ensures
        zeros(count).len() == count,
        zeros(count)[i] == 0,
{
}

/// Law: a word of any width is worth its first byte and 256 times what the
/// others are worth; without bytes it is worth nothing. Each byte more lets it
/// hold 256 times as much.
pub proof fn law_word_step(bytes: Seq<u8>)
    ensures
        bytes.len() == 0 ==> word_value(bytes) == 0,
        bytes.len() > 0 ==> word_value(bytes) == bytes[0] + 256 * word_value(bytes.drop_first()),
        word_limit(0) == 1,
        word_limit(bytes.len() + 1) == 256 * word_limit(bytes.len()),
{
}

} // verus!
