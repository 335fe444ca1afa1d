use lo_runtime::abort::Abort;
use lo_runtime::allocator::{flip, from_space, heap_init, heap_used, to_space_base};
use lo_runtime::runtime::Runtime;
use lo_runtime::shadow_stack::{lo_pop_frame, lo_push_frame};
use lo_runtime::string_ops::{
    allocate, bytes, length, lo_string_compare, lo_string_concat, lo_string_new, lo_string_repeat,
    lo_string_reverse, string_from_buffer, string_length,
};

const IMAGE_BASE: usize = 0x1000;
const HEAP_BASE: usize = 0x100_0000;

/// A runtime whose image holds `text` from its start on.
fn runtime(setting: &str, text: &[u8]) -> Runtime {
    let mut rt = Runtime::new(IMAGE_BASE, text.to_vec());
    heap_init(&mut rt.heap, Some(setting), HEAP_BASE);
    rt
}

fn no_collection(_: Runtime) -> Runtime {
    panic!("no collection is needed")
}

/// Copies the strings that frames refer to into the inactive semispace.
fn copy_strings(mut rt: Runtime) -> Runtime {
    let (base, limit) = from_space(&rt.heap);
    let mut free = to_space_base(&rt.heap);
    let mut moved: Vec<(usize, usize)> = Vec::new();
    for frame in rt.stack.frames.iter_mut() {
        for root in frame.iter_mut() {
            if *root < base || *root >= limit {
                continue;
            }
            let known = moved.iter().find(|pair| pair.0 == *root).map(|pair| pair.1);
            *root = match known {
                Some(target) => target,
                None => {
                    let size = (string_length(&rt.heap, *root) as usize + 20 + 7) / 8 * 8;
                    let target = (free + 15) / 16 * 16;
                    rt.heap.copy_nonoverlapping(*root, target, size);
                    moved.push((*root, target));
                    free = target + size;
                    target
                }
            };
        }
    }
    for addr in base..limit {
        rt.heap.store_byte(addr, 0xdd);
    }
    flip(&mut rt.heap, free);
    rt
}

fn address(result: Result<usize, Abort>) -> usize {
    match result {
        Ok(addr) => addr,
        Err(abort) => panic!("{}", abort.message),
    }
}

fn abort_of(result: Result<usize, Abort>) -> (String, i32) {
    match result {
        Ok(_) => panic!("an abort is due"),
        Err(abort) => (abort.message, abort.code),
    }
}

fn make(rt: &mut Runtime, offset: usize, len: u32) -> usize {
    address(lo_string_new(rt, IMAGE_BASE + offset, len, no_collection))
}

fn data(rt: &Runtime, s: usize) -> Vec<u8> {
    bytes(&rt.heap, s).to_vec()
}

#[test]
fn new_strings_read_back() {
    let mut rt = runtime("1024", b"hello world");
    let s = make(&mut rt, 0, 5);
    let t = make(&mut rt, 6, 5);
    assert_eq!(data(&rt, s), b"hello");
    assert_eq!(data(&rt, t), b"world");
    assert_eq!(heap_used(&rt.heap), 64);
}

#[test]
fn the_empty_string_may_come_from_null() {
    let mut rt = runtime("1024", b"");
    let s = address(lo_string_new(&mut rt, 0, 0, no_collection));
    assert_eq!(string_length(&rt.heap, s), 0);
    assert_eq!(data(&rt, s), b"");
}

#[test]
fn new_strings_copy_their_source_before_a_collection() {
    let mut rt = runtime("128", b"abcdefgh");
    let s = make(&mut rt, 0, 8);
    let inner = s + 20 + 2;
    let t = address(lo_string_new(&mut rt, inner, 4, copy_strings));
    assert_eq!(data(&rt, t), b"cdef");
    let u = address(lo_string_new(&mut rt, t + 20, 4, copy_strings));
    assert_eq!(data(&rt, u), b"cdef");
    assert_eq!(u, HEAP_BASE + 64);
    assert_eq!(heap_used(&rt.heap), 24);
}

#[test]
fn without_a_buffer_a_new_string_aborts() {
    let mut rt = runtime("1024", b"hello");
    let (message, code) = abort_of(string_from_buffer(&mut rt, IMAGE_BASE, 5, None, no_collection));
    assert_eq!(message, "lo_alloc: out of memory");
    assert_eq!(code, 137);
    assert_eq!(heap_used(&rt.heap), 0);
    let s = address(string_from_buffer(&mut rt, IMAGE_BASE, 5, Some(Vec::new()), no_collection));
    assert_eq!(data(&rt, s), b"hello");
}

#[test]
fn a_length_that_no_string_has_aborts() {
    assert!(matches!(length(Some(7)), Ok(7)));
    match length(None) {
        Ok(_) => panic!("an abort is due"),
        Err(abort) => {
            assert_eq!(abort.code, 137);
            assert_eq!(abort.message, "lo_alloc: out of memory");
        }
    }
}

#[test]
fn concat_joins_two_strings() {
    let mut rt = runtime("1024", b"foobar");
    let a = make(&mut rt, 0, 3);
    let b = make(&mut rt, 3, 3);
    let empty = make(&mut rt, 0, 0);
    let joined = address(lo_string_concat(&mut rt, a, b, no_collection));
    assert_eq!(data(&rt, joined), b"foobar");
    let left = address(lo_string_concat(&mut rt, empty, a, no_collection));
    assert_eq!(data(&rt, left), b"foo");
    let right = address(lo_string_concat(&mut rt, a, empty, no_collection));
    assert_eq!(data(&rt, right), b"foo");
    assert_eq!(data(&rt, a), b"foo");
    assert_eq!(data(&rt, b), b"bar");
}

#[test]
fn concat_is_associative() {
    let mut rt = runtime("1024", b"abcd");
    let a = make(&mut rt, 0, 1);
    let b = make(&mut rt, 1, 1);
    let c = make(&mut rt, 2, 2);
    let ab = address(lo_string_concat(&mut rt, a, b, no_collection));
    let ab_c = address(lo_string_concat(&mut rt, ab, c, no_collection));
    let bc = address(lo_string_concat(&mut rt, b, c, no_collection));
    let a_bc = address(lo_string_concat(&mut rt, a, bc, no_collection));
    assert_eq!(data(&rt, ab_c), data(&rt, a_bc));
    assert_eq!(lo_string_compare(&rt.heap, ab_c, a_bc), 0);
}

#[test]
fn concat_follows_its_inputs_through_a_collection() {
    let mut rt = runtime("192", b"left-right");
    let a = make(&mut rt, 0, 4);
    let _garbage = make(&mut rt, 0, 8);
    let b = make(&mut rt, 5, 5);
    assert_eq!(heap_used(&rt.heap), 96);
    let joined = address(lo_string_concat(&mut rt, a, b, copy_strings));
    assert_eq!(joined, HEAP_BASE + 96 + 32 + 32);
    assert_eq!(data(&rt, joined), b"leftright");
    assert_eq!(heap_used(&rt.heap), 96);
    assert!(rt.stack.frames.is_empty());
}

#[test]
fn concat_of_a_string_with_itself_survives_a_collection() {
    let mut rt = runtime("128", b"xyz");
    let a = make(&mut rt, 0, 3);
    let _garbage = make(&mut rt, 0, 3);
    let twice = address(lo_string_concat(&mut rt, a, a, copy_strings));
    assert_eq!(data(&rt, twice), b"xyzxyz");
    assert_eq!(heap_used(&rt.heap), 32 + 32);
}

#[test]
fn strings_in_frames_keep_their_data() {
    let mut rt = runtime("192", b"kept-away");
    let kept = make(&mut rt, 0, 4);
    lo_push_frame(&mut rt.stack, vec![kept, 0]);
    for _ in 0..10 {
        address(lo_string_new(&mut rt, IMAGE_BASE, 9, copy_strings));
        let now = rt.stack.frames[0][0];
        assert_eq!(data(&rt, now), b"kept");
    }
    let roots = lo_pop_frame(&mut rt.stack);
    assert_eq!(roots.len(), 2);
    assert_eq!(roots[1], 0);
    assert_eq!(data(&rt, roots[0]), b"kept");
}

#[test]
fn strings_of_the_image_can_be_joined() {
    let mut image = Vec::new();
    image.extend_from_slice(&1u64.to_le_bytes());
    image.extend_from_slice(&[0; 8]);
    image.extend_from_slice(&2u32.to_le_bytes());
    image.extend_from_slice(b"ok");
    let mut rt = runtime("128", &image);
    let joined = address(lo_string_concat(&mut rt, IMAGE_BASE, IMAGE_BASE, no_collection));
    assert_eq!(data(&rt, joined), b"okok");
    assert_eq!(data(&rt, IMAGE_BASE), b"ok");
}

#[test]
fn allocating_hands_back_the_roots() {
    let mut rt = runtime("128", b"abcd");
    let a = make(&mut rt, 0, 4);
    let _garbage = make(&mut rt, 0, 4);
    match allocate(&mut rt, 4, [a, 0], copy_strings) {
        Ok((object, moved)) => {
            assert_eq!(moved, [HEAP_BASE + 64, 0]);
            assert_eq!(object, HEAP_BASE + 64 + 32);
            assert_eq!(data(&rt, moved[0]), b"abcd");
            assert_eq!(data(&rt, object), vec![0; 4]);
        }
        Err(abort) => panic!("{}", abort.message),
    }
    assert!(rt.stack.frames.is_empty());
}

#[test]
fn a_string_that_never_fits_aborts() {
    let mut rt = runtime("128", b"abcdefgh");
    let a = make(&mut rt, 0, 8);
    let (message, code) = abort_of(lo_string_repeat(&mut rt, a, 6, copy_strings));
    assert_eq!(message, "lo_alloc: out of memory");
    assert_eq!(code, 137);
    assert!(rt.stack.frames.is_empty());
}

#[test]
fn repeat_copies_as_often_as_asked() {
    let mut rt = runtime("1024", b"ab");
    let a = make(&mut rt, 0, 2);
    let empty = make(&mut rt, 0, 0);
    let none = address(lo_string_repeat(&mut rt, a, 0, no_collection));
    assert_eq!(data(&rt, none), b"");
    let once = address(lo_string_repeat(&mut rt, a, 1, no_collection));
    assert_eq!(data(&rt, once), b"ab");
    let thrice = address(lo_string_repeat(&mut rt, a, 3, no_collection));
    assert_eq!(data(&rt, thrice), b"ababab");
    let nothing = address(lo_string_repeat(&mut rt, empty, i32::MAX, no_collection));
    assert_eq!(data(&rt, nothing), b"");
}

#[test]
fn repeat_follows_its_input_through_a_collection() {
    let mut rt = runtime("192", b"abc");
    let a = make(&mut rt, 0, 3);
    for _ in 0..2 {
        make(&mut rt, 0, 1);
    }
    let result = address(lo_string_repeat(&mut rt, a, 5, copy_strings));
    assert_eq!(data(&rt, result), b"abcabcabcabcabc");
    assert_eq!(heap_used(&rt.heap), 32 + 40);
}

#[test]
fn repeating_adds_up() {
    let mut rt = runtime("1024", b"xy");
    let a = make(&mut rt, 0, 2);
    let two = address(lo_string_repeat(&mut rt, a, 2, no_collection));
    let three = address(lo_string_repeat(&mut rt, a, 3, no_collection));
    let five = address(lo_string_repeat(&mut rt, a, 5, no_collection));
    let sum = address(lo_string_concat(&mut rt, two, three, no_collection));
    assert_eq!(data(&rt, sum), data(&rt, five));
}

#[test]
fn negative_counts_abort() {
    let mut rt = runtime("1024", b"ab");
    let a = make(&mut rt, 0, 2);
    let (message, code) = abort_of(lo_string_repeat(&mut rt, a, -1, no_collection));
    assert_eq!(message, "lo_string_repeat: negative count -1");
    assert_eq!(code, 120);
    let (message, _) = abort_of(lo_string_repeat(&mut rt, a, -305, no_collection));
    assert_eq!(message, "lo_string_repeat: negative count -305");
    let (message, _) = abort_of(lo_string_repeat(&mut rt, a, i32::MIN, no_collection));
    assert_eq!(message, "lo_string_repeat: negative count -2147483648");
    assert_eq!(heap_used(&rt.heap), 24);
}

#[test]
fn lengths_past_the_limit_abort_without_a_collection() {
    let text = vec![b'x'; 70_000];
    let mut rt = runtime("1000000", &text);
    let a = make(&mut rt, 0, 70_000);
    let (message, code) = abort_of(lo_string_repeat(&mut rt, a, 70_000, no_collection));
    assert_eq!(message, "lo_alloc: out of memory");
    assert_eq!(code, 137);
}

#[test]
fn strings_compare_byte_by_byte() {
    let mut rt = runtime("4096", "ab\0abcZa\u{e9}b".as_bytes());
    let empty = make(&mut rt, 0, 0);
    let ab = make(&mut rt, 0, 2);
    let ab0 = make(&mut rt, 0, 3);
    let ab_again = make(&mut rt, 3, 2);
    let abc = make(&mut rt, 3, 3);
    let z = make(&mut rt, 6, 1);
    let a = make(&mut rt, 7, 1);
    let e_acute = make(&mut rt, 8, 2);
    let cases = [
        (empty, empty, 0),
        (empty, ab, -1),
        (ab, empty, 1),
        (ab, ab_again, 0),
        (ab, abc, -1),
        (abc, ab, 1),
        (ab, ab0, -1),
        (ab0, abc, -1),
        (z, a, -1),
        (a, e_acute, -1),
        (e_acute, abc, 1),
    ];
    for (left, right, expected) in cases {
        assert_eq!(lo_string_compare(&rt.heap, left, right), expected);
        assert_eq!(lo_string_compare(&rt.heap, right, left), -expected);
        let standard = data(&rt, left).cmp(&data(&rt, right)) as i32;
        assert_eq!(standard, expected);
    }
}

#[test]
fn reverse_turns_characters_not_bytes() {
    let text = "aé漢😀z";
    let mut rt = runtime("1024", text.as_bytes());
    let s = make(&mut rt, 0, text.len() as u32);
    let r = address(lo_string_reverse(&mut rt, s, no_collection));
    assert_eq!(data(&rt, r), "z😀漢éa".as_bytes());
    let back = address(lo_string_reverse(&mut rt, r, no_collection));
    assert_eq!(data(&rt, back), text.as_bytes());
}

#[test]
fn reverse_agrees_with_the_standard_library() {
    let texts = ["", "a", "ab", "é", "éa", "aé", "漢字", "😀😀x", "e\u{301}", "\u{7f}\u{80}\u{7ff}\u{800}\u{ffff}\u{10000}\u{10ffff}"];
    for text in texts {
        let mut rt = runtime("1024", text.as_bytes());
        let s = make(&mut rt, 0, text.len() as u32);
        let r = address(lo_string_reverse(&mut rt, s, no_collection));
        let expected: String = text.chars().rev().collect();
        assert_eq!(data(&rt, r), expected.as_bytes());
    }
}

#[test]
fn reverse_follows_its_input_through_a_collection() {
    let text = "añb";
    let mut rt = runtime("128", text.as_bytes());
    let s = make(&mut rt, 0, 4);
    let _garbage = make(&mut rt, 0, 4);
    let r = address(lo_string_reverse(&mut rt, s, copy_strings));
    assert_eq!(data(&rt, r), "bña".as_bytes());
    assert_eq!(heap_used(&rt.heap), 56);
}

#[test]
fn reverse_of_a_concat_is_the_concat_of_reverses() {
    let mut rt = runtime("1024", "né漢".as_bytes());
    let a = make(&mut rt, 0, 3);
    let b = make(&mut rt, 3, 3);
    let ab = address(lo_string_concat(&mut rt, a, b, no_collection));
    let whole = address(lo_string_reverse(&mut rt, ab, no_collection));
    let ra = address(lo_string_reverse(&mut rt, a, no_collection));
    let rb = address(lo_string_reverse(&mut rt, b, no_collection));
    let parts = address(lo_string_concat(&mut rt, rb, ra, no_collection));
    assert_eq!(data(&rt, whole), data(&rt, parts));
}

#[test]
fn reverse_of_a_repeat_is_the_repeat_of_the_reverse() {
    let mut rt = runtime("1024", "é1".as_bytes());
    let s = make(&mut rt, 0, 3);
    let many = address(lo_string_repeat(&mut rt, s, 3, no_collection));
    let whole = address(lo_string_reverse(&mut rt, many, no_collection));
    let back = address(lo_string_reverse(&mut rt, s, no_collection));
    let parts = address(lo_string_repeat(&mut rt, back, 3, no_collection));
    assert_eq!(data(&rt, whole), "1é1é1é".as_bytes());
    assert_eq!(data(&rt, whole), data(&rt, parts));
}
