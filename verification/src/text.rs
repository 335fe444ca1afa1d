//! Sequences of bytes as text: their order, repetition and reversal.

use vstd::arithmetic::div_mod::lemma_fundamental_div_mod_converse_mod;
use vstd::prelude::*;
use vstd::utf8::{
    decode_first_scalar, decode_utf8, decode_utf8_encode_utf8, decode_utf8_split, encode_utf8,
    encode_utf8_decode_utf8, encode_utf8_valid_utf8, is_char_boundary,
    is_char_boundary_iff_not_is_continuation_byte, is_char_boundary_start_end_of_seq,
    is_continuation_byte, length_of_first_scalar, pop_first_scalar, valid_utf8, valid_utf8_concat,
    valid_utf8_split,
};

verus! {

/// How `a` and `b` compare, byte by byte, a prefix coming first: -1 where `a`
/// comes before `b`, 0 where they are equal, and 1 where `a` comes after `b`.
pub open spec fn byte_order(a: Seq<u8>, b: Seq<u8>) -> int
    decreases a.len(),
{
    if a.len() == 0 && b.len() == 0 {
        0
    } else if a.len() == 0 {
        -1
    } else if b.len() == 0 {
        1
    } else if a[0] < b[0] {
        -1
    } else if a[0] > b[0] {
        1
    } else {
        byte_order(a.drop_first(), b.drop_first())
    }
}

/// `count` copies of `bytes`, one after another.
pub open spec fn repeated(bytes: Seq<u8>, count: nat) -> Seq<u8>
    decreases count,
{
    if count == 0 {
        Seq::empty()
    } else {
        repeated(bytes, (count - 1) as nat) + bytes
    }
}

/// The characters of `bytes`, which are UTF-8, in reverse order.
pub open spec fn reversed(bytes: Seq<u8>) -> Seq<u8> {
    encode_utf8(decode_utf8(bytes).reverse())
}

/// How sequences compare past a common prefix.
pub proof fn lemma_byte_order_skip(a: Seq<u8>, b: Seq<u8>, count: int)
    requires
        0 <= count <= a.len(),
        count <= b.len(),
        forall|i: int| 0 <= i < count ==> a[i] == b[i],
    ensures
        byte_order(a, b) == byte_order(a.skip(count), b.skip(count)),
    decreases count,
{
    if count == 0 {
        assert(a.skip(0) =~= a);
        assert(b.skip(0) =~= b);
    } else {
        assert(a[0] == b[0]);
        assert forall|i: int| 0 <= i < count - 1 implies a.drop_first()[i] == b.drop_first()[i] by {
            assert(a[i + 1] == b[i + 1]);
        }
        lemma_byte_order_skip(a.drop_first(), b.drop_first(), count - 1);
        assert(a.drop_first().skip(count - 1) =~= a.skip(count));
        assert(b.drop_first().skip(count - 1) =~= b.skip(count));
    }
}

/// Law: sequences compare as equal exactly where they are the same.
pub proof fn law_order_equal(a: Seq<u8>, b: Seq<u8>)
    ensures
        byte_order(a, b) == 0 <==> a == b,
    decreases a.len(),
{
    if a.len() > 0 && b.len() > 0 {
        law_order_equal(a.drop_first(), b.drop_first());
        if a[0] == b[0] && a.drop_first() == b.drop_first() {
            assert(a =~= seq![a[0]] + a.drop_first());
            assert(b =~= seq![b[0]] + b.drop_first());
        }
    } else if a.len() == 0 && b.len() == 0 {
        assert(a =~= b);
    }
}

/// Law: comparing the other way round turns the sign.
pub proof fn law_order_antisymmetric(a: Seq<u8>, b: Seq<u8>)
    ensures
        byte_order(a, b) == -byte_order(b, a),
    decreases a.len(),
{
    if a.len() > 0 && b.len() > 0 {
        law_order_antisymmetric(a.drop_first(), b.drop_first());
    }
}

/// Law: the order is transitive.
pub proof fn law_order_transitive(a: Seq<u8>, b: Seq<u8>, c: Seq<u8>)
    requires
        byte_order(a, b) <= 0,
        byte_order(b, c) <= 0,
    ensures
        byte_order(a, c) <= 0,
        byte_order(a, c) == 0 ==> byte_order(a, b) == 0 && byte_order(b, c) == 0,
    decreases a.len(),
{
    if a.len() > 0 && b.len() > 0 && c.len() > 0 {
        if a[0] == b[0] && b[0] == c[0] {
            law_order_transitive(a.drop_first(), b.drop_first(), c.drop_first());
        }
    }
}

/// Law: a text comes before every longer text that starts with it.
pub proof fn law_prefix_first(prefix: Seq<u8>, rest: Seq<u8>)
    ensures
        rest.len() > 0 ==> byte_order(prefix, prefix + rest) == -1,
        rest.len() == 0 ==> byte_order(prefix, prefix + rest) == 0,
{
    lemma_byte_order_skip(prefix, prefix + rest, prefix.len() as int);
}

/// Law: in a row of three texts it does not matter which two are joined first;
/// the empty text changes nothing; and joining UTF-8 gives UTF-8.
pub proof fn law_concat(a: Seq<u8>, b: Seq<u8>, c: Seq<u8>)
    ensures
        (a + b) + c == a + (b + c),
        a + Seq::<u8>::empty() == a,
        Seq::<u8>::empty() + a == a,
        valid_utf8(a) && valid_utf8(b) ==> valid_utf8(a + b),
{
    assert((a + b) + c =~= a + (b + c));
    assert(a + Seq::<u8>::empty() =~= a);
    assert(Seq::<u8>::empty() + a =~= a);
    if valid_utf8(a) && valid_utf8(b) {
        valid_utf8_concat(a, b);
    }
}

/// Repetition multiplies the length.
pub proof fn lemma_repeated_len(bytes: Seq<u8>, count: nat)
    ensures
        repeated(bytes, count).len() == bytes.len() * count,
    decreases count,
{
    if count == 0 {
        assert(bytes.len() * 0 == 0);
    } else {
        lemma_repeated_len(bytes, (count - 1) as nat);
        assert(bytes.len() * (count - 1) + bytes.len() == bytes.len() * count) by (nonlinear_arith);
    }
}

/// Law: repeating first so and then so often is repeating as often as both.
pub proof fn law_repeated_sum(bytes: Seq<u8>, first: nat, second: nat)
    ensures
        repeated(bytes, first + second) == repeated(bytes, first) + repeated(bytes, second),
    decreases second,
{
    if second == 0 {
        assert(repeated(bytes, first) + Seq::<u8>::empty() =~= repeated(bytes, first));
    } else {
        law_repeated_sum(bytes, first, (second - 1) as nat);
        assert(repeated(bytes, first + second) =~= repeated(bytes, first) + repeated(
            bytes,
            second,
        ));
    }
}

/// Law: repeating no times gives the empty text, and once the text itself.
pub proof fn law_repeated_few(bytes: Seq<u8>)
    ensures
        repeated(bytes, 0) == Seq::<u8>::empty(),
        repeated(bytes, 1) == bytes,
{
    reveal_with_fuel(repeated, 2);
    assert(repeated(bytes, 1) =~= bytes);
}

/// Law: repeating UTF-8 gives UTF-8.
pub proof fn law_repeated_valid(bytes: Seq<u8>, count: nat)
    requires
        valid_utf8(bytes),
    ensures
        valid_utf8(repeated(bytes, count)),
    decreases count,
{
    if count > 0 {
        law_repeated_valid(bytes, (count - 1) as nat);
        valid_utf8_concat(repeated(bytes, (count - 1) as nat), bytes);
    }
}

/// Characters are encoded one after another.
pub proof fn lemma_encode_concat(first: Seq<char>, second: Seq<char>)
    ensures
        encode_utf8(first + second) == encode_utf8(first) + encode_utf8(second),
    decreases first.len(),
{
    if first.len() == 0 {
        assert(first + second =~= second);
        assert(encode_utf8(first) + encode_utf8(second) =~= encode_utf8(second));
    } else {
        lemma_encode_concat(first.drop_first(), second);
        assert((first + second).drop_first() =~= first.drop_first() + second);
        assert(encode_utf8(first + second) =~= encode_utf8(first) + encode_utf8(second));
    }
}

/// Text that is split between two characters is reversed part by part, the
/// last part first.
pub proof fn lemma_reversed_split(bytes: Seq<u8>, index: int)
    requires
        valid_utf8(bytes),
        0 <= index <= bytes.len(),
        is_char_boundary(bytes, index),
    ensures
        reversed(bytes) == reversed(bytes.subrange(index, bytes.len() as int)) + reversed(
            bytes.subrange(0, index),
        ),
{
    let head = decode_utf8(bytes.subrange(0, index));
    let tail = decode_utf8(bytes.subrange(index, bytes.len() as int));
    decode_utf8_split(bytes, index);
    assert((head + tail).reverse() =~= tail.reverse() + head.reverse());
    lemma_encode_concat(tail.reverse(), head.reverse());
}

/// A single character is its own reversal.
pub proof fn lemma_reversed_character(bytes: Seq<u8>)
    requires
        valid_utf8(bytes),
        0 < bytes.len(),
        forall|i: int| 0 < i < bytes.len() ==> is_continuation_byte(#[trigger] bytes[i]),
    ensures
        reversed(bytes) == bytes,
{
    let width = length_of_first_scalar(bytes);
    let rest = pop_first_scalar(bytes);
    if width < bytes.len() {
        is_char_boundary_start_end_of_seq(rest);
        assert(is_char_boundary(bytes, width));
        is_char_boundary_iff_not_is_continuation_byte(bytes, width);
        assert(is_continuation_byte(bytes[width]));
    }
    assert(rest =~= Seq::<u8>::empty());
    assert(decode_utf8(rest) =~= Seq::<char>::empty());
    let chars = decode_utf8(bytes);
    assert(chars =~= seq![decode_first_scalar(bytes) as char]);
    assert(chars.reverse() =~= chars);
    decode_utf8_encode_utf8(bytes);
}

/// Law: reversal keeps the length.
pub proof fn law_reversed_len(bytes: Seq<u8>)
    requires
        valid_utf8(bytes),
    ensures
        reversed(bytes).len() == bytes.len(),
    decreases bytes.len(),
{
    if bytes.len() == 0 {
        assert(decode_utf8(bytes).reverse() =~= Seq::<char>::empty());
    } else {
        let width = length_of_first_scalar(bytes);
        let rest = pop_first_scalar(bytes);
        let first = bytes.subrange(0, width);
        is_char_boundary_start_end_of_seq(rest);
        assert(is_char_boundary(bytes, width));
        valid_utf8_split(bytes, width);
        lemma_reversed_split(bytes, width);
        law_reversed_len(rest);
        assert forall|i: int| 0 < i < first.len() implies is_continuation_byte(
            #[trigger] first[i],
        ) by {
            assert(first[i] == bytes[i]);
        }
        lemma_reversed_character(first);
    }
}

/// Law: reversal gives UTF-8, and the reversed characters.
pub proof fn law_reversed_valid(bytes: Seq<u8>)
    requires
        valid_utf8(bytes),
    ensures
        valid_utf8(reversed(bytes)),
        decode_utf8(reversed(bytes)) == decode_utf8(bytes).reverse(),
{
    encode_utf8_valid_utf8(decode_utf8(bytes).reverse());
    encode_utf8_decode_utf8(decode_utf8(bytes).reverse());
}

/// Law: reversing twice gives the text back.
pub proof fn law_reversed_twice(bytes: Seq<u8>)
    requires
        valid_utf8(bytes),
    ensures
        reversed(reversed(bytes)) == bytes,
{
    let chars = decode_utf8(bytes);
    law_reversed_valid(bytes);
    assert(chars.reverse().reverse() =~= chars);
    decode_utf8_encode_utf8(bytes);
}

/// Law: the reversal of two texts in a row is the reversal of the second and
/// then that of the first.
pub proof fn law_reversed_concat(first: Seq<u8>, second: Seq<u8>)
    requires
        valid_utf8(first),
        valid_utf8(second),
    ensures
        valid_utf8(first + second),
        reversed(first + second) == reversed(second) + reversed(first),
{
    valid_utf8_concat(first, second);
    lemma_concat_boundary(first, second);
    let whole = first + second;
    lemma_reversed_split(whole, first.len() as int);
    assert(whole.subrange(0, first.len() as int) =~= first);
    assert(whole.subrange(first.len() as int, whole.len() as int) =~= second);
}

/// Law: the reversal of a repeated text is the repetition of the reversed one.
pub proof fn law_reversed_repeated(bytes: Seq<u8>, count: nat)
    requires
        valid_utf8(bytes),
    ensures
        valid_utf8(repeated(bytes, count)),
        reversed(repeated(bytes, count)) == repeated(reversed(bytes), count),
    decreases count,
{
    law_repeated_valid(bytes, count);
    if count == 0 {
        law_reversed_len(repeated(bytes, 0));
        assert(reversed(repeated(bytes, 0)) =~= Seq::<u8>::empty());
    } else {
        let fewer = (count - 1) as nat;
        law_reversed_repeated(bytes, fewer);
        law_reversed_concat(repeated(bytes, fewer), bytes);
        law_repeated_sum(reversed(bytes), 1, fewer);
        law_repeated_few(reversed(bytes));
    }
}

/// Two texts in a row meet between two characters.
proof fn lemma_concat_boundary(first: Seq<u8>, second: Seq<u8>)
    requires
        valid_utf8(first),
        valid_utf8(second),
    ensures
        is_char_boundary(first + second, first.len() as int),
    decreases first.len(),
{
    valid_utf8_concat(first, second);
    if first.len() > 0 {
        let rest = pop_first_scalar(first);
        lemma_concat_boundary(rest, second);
        assert(pop_first_scalar(first + second) =~= rest + second);
    }
}

/// Law: where two texts first differ, the one with the smaller byte there comes
/// first.
pub proof fn law_first_difference(a: Seq<u8>, b: Seq<u8>, i: int)
    requires
        0 <= i < a.len(),
        i < b.len(),
        forall|j: int| 0 <= j < i ==> a[j] == b[j],
        a[i] != b[i],
    ensures
        (a[i] as int) < (b[i] as int) ==> byte_order(a, b) == -1,
        (a[i] as int) > (b[i] as int) ==> byte_order(a, b) == 1,
{
    lemma_byte_order_skip(a, b, i);
    assert(a.skip(i)[0] == a[i]);
    assert(b.skip(i)[0] == b[i]);
}

/// Law: a repeated text has as many times its length, and goes through its
/// bytes over and over.
pub proof fn law_repeated_bytes(bytes: Seq<u8>, count: nat, i: int)
    requires
        0 <= i < bytes.len() * count,
    ensures
        repeated(bytes, count).len() == bytes.len() * count,
        repeated(bytes, count)[i] == bytes[i % (bytes.len() as int)],
    decreases count,
{
    lemma_repeated_len(bytes, count);
    let len = bytes.len() as int;
    if count == 0 {
        assert(bytes.len() * count == 0);
    } else {
        let fewer = (count - 1) as nat;
        lemma_repeated_len(bytes, fewer);
        assert(len > 0) by (nonlinear_arith)
            requires
                0 < len * count,
                len >= 0,
        ;
        assert(len * fewer + len == len * count) by (nonlinear_arith)
            requires
                fewer == count - 1,
        ;
        if i < len * fewer {
            law_repeated_bytes(bytes, fewer, i);
        } else {
            lemma_fundamental_div_mod_converse_mod(i, len, fewer as int, i - len * fewer);
        }
    }
}

/// Law: the characters of a reversed text are those of the text, counted from
/// its end.
pub proof fn law_reversed_characters(bytes: Seq<u8>, i: int)
    requires
        valid_utf8(bytes),
        0 <= i < decode_utf8(bytes).len(),
    ensures
        valid_utf8(reversed(bytes)),
        decode_utf8(reversed(bytes)).len() == decode_utf8(bytes).len(),
        decode_utf8(reversed(bytes))[i] == decode_utf8(bytes)[decode_utf8(bytes).len() - 1 - i],
{
    law_reversed_valid(bytes);
}

/// Law: the order of two texts is that of the bytes where they first differ;
/// where they do not differ up to the end of one of them, the shorter one comes
/// first, and texts of one length are equal.
pub proof fn law_order_by_bytes(a: Seq<u8>, b: Seq<u8>)
    ensures
        forall|i: int|
            0 <= i < a.len() && i < b.len() && (forall|j: int| 0 <= j < i ==> a[j] == b[j])
                && #[trigger] a[i] < b[i] ==> byte_order(a, b) == -1,
        forall|i: int|
            0 <= i < a.len() && i < b.len() && (forall|j: int| 0 <= j < i ==> a[j] == b[j])
                && #[trigger] a[i] > b[i] ==> byte_order(a, b) == 1,
        a.len() < b.len() && (forall|j: int| 0 <= j < a.len() ==> a[j] == b[j]) ==> byte_order(a, b)
            == -1,
        b.len() < a.len() && (forall|j: int| 0 <= j < b.len() ==> a[j] == b[j]) ==> byte_order(a, b)
            == 1,
        byte_order(a, b) == 0 <==> a == b,
{
    assert forall|i: int|
        0 <= i < a.len() && i < b.len() && (forall|j: int| 0 <= j < i ==> a[j] == b[j])
            && #[trigger] a[i] != b[i] implies byte_order(a, b) == if a[i] < b[i] {
        -1int
    } else {
        1int
    } by {
        law_first_difference(a, b, i);
    }
    if a.len() < b.len() && (forall|j: int| 0 <= j < a.len() ==> a[j] == b[j]) {
        lemma_byte_order_skip(a, b, a.len() as int);
    }
    if b.len() < a.len() && (forall|j: int| 0 <= j < b.len() ==> a[j] == b[j]) {
        lemma_byte_order_skip(a, b, b.len() as int);
    }
    law_order_equal(a, b);
}

} // verus!
