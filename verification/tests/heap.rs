use lo_runtime::abort::Abort;
use lo_runtime::allocator::{
    align_down, align_up, alloc_raw, bump_alloc_string, bump_if_fits, flip, from_space, heap_init,
    heap_shutdown, heap_used, lo_alloc, parse_size, semispace_bytes, to_space_base,
    DEFAULT_HEAP_SIZE,
};
use lo_runtime::object::{
    string_data_offset, ClassDescriptor, LO_STRING_CLASS, OBJECT_SIZE, STRING_DATA_OFFSET,
};
use lo_runtime::runtime::Runtime;
use lo_runtime::string_ops::{bytes, string_length};

const IMAGE_BASE: usize = 0x1000;
const HEAP_BASE: usize = 0x10000;

fn runtime(setting: Option<&str>) -> Runtime {
    let mut rt = Runtime::new(IMAGE_BASE, vec![1, 2, 3]);
    heap_init(&mut rt.heap, setting, HEAP_BASE);
    rt
}

fn classes() -> Vec<ClassDescriptor> {
    vec![
        ClassDescriptor { instance_size: 24, name: b"String".to_vec(), parent: 0 },
        ClassDescriptor { instance_size: 16, name: b"Base".to_vec(), parent: 0 },
        ClassDescriptor { instance_size: 21, name: b"Odd".to_vec(), parent: 2 },
    ]
}

fn no_collection(_: Runtime) -> Runtime {
    panic!("no collection is needed")
}

fn drop_everything(mut rt: Runtime) -> Runtime {
    let start = to_space_base(&rt.heap);
    flip(&mut rt.heap, start);
    rt
}

fn address(result: Result<usize, Abort>) -> usize {
    match result {
        Ok(addr) => addr,
        Err(abort) => panic!("{}", abort.message),
    }
}

fn abort_of(result: Result<usize, Abort>) -> (String, i32) {
    match result {
        Ok(_) => panic!("an abort is due"),
        Err(abort) => (abort.message, abort.code),
    }
}

#[test]
fn rounding_to_alignments() {
    assert_eq!(align_up(0, 8), 0);
    assert_eq!(align_up(1, 8), 8);
    assert_eq!(align_up(8, 8), 8);
    assert_eq!(align_up(17, 16), 32);
    assert_eq!(align_down(0, 16), 0);
    assert_eq!(align_down(15, 16), 0);
    assert_eq!(align_down(16, 16), 16);
    assert_eq!(align_down(50, 16), 48);
}

#[test]
fn rounding_masks_bits_for_other_alignments() {
    assert_eq!(align_down(7, 6), 7 & !5);
    assert_eq!(align_up(7, 6), 12 & !5);
}

#[test]
fn sizes_are_read_as_the_standard_library_reads_them() {
    let texts = [
        "", "+", "-", "-1", "0", "7", "+7", "++7", " 7", "7 ", "007", "12a", "a12", "16777216",
        "18446744073709551615", "18446744073709551616", "99999999999999999999999",
        "00000000000000000000000000000001", "1_000", "٣",
    ];
    for text in texts {
        assert_eq!(parse_size(text), text.parse::<usize>().ok(), "{}", text);
    }
}

#[test]
fn semispaces_take_half_of_the_setting() {
    assert_eq!(semispace_bytes(None), DEFAULT_HEAP_SIZE / 2);
    assert_eq!(semispace_bytes(None), 8 * 1024 * 1024);
    assert_eq!(semispace_bytes(Some("64")), 32);
    assert_eq!(semispace_bytes(Some("100")), 48);
    assert_eq!(semispace_bytes(Some("32")), 16);
    assert_eq!(semispace_bytes(Some("31")), DEFAULT_HEAP_SIZE / 2);
    assert_eq!(semispace_bytes(Some("lots")), DEFAULT_HEAP_SIZE / 2);
}

#[test]
fn a_fresh_heap_is_empty_and_zeroed() {
    let rt = runtime(Some("128"));
    assert_eq!(heap_used(&rt.heap), 0);
    assert_eq!(from_space(&rt.heap), (HEAP_BASE, HEAP_BASE + 64));
    assert_eq!(to_space_base(&rt.heap), HEAP_BASE + 64);
    for addr in HEAP_BASE..HEAP_BASE + 128 {
        assert_eq!(rt.heap.load_byte(addr), 0);
    }
    assert_eq!(rt.heap.load_byte(IMAGE_BASE + 2), 3);
}

#[test]
fn nothing_is_used_before_setup_and_after_shutdown() {
    let mut rt = Runtime::new(IMAGE_BASE, Vec::new());
    assert_eq!(heap_used(&rt.heap), 0);
    heap_shutdown(&mut rt.heap);
    assert_eq!(from_space(&rt.heap), (0, 0));
    heap_init(&mut rt.heap, Some("128"), HEAP_BASE);
    assert_eq!(bump_if_fits(&mut rt.heap, 24), HEAP_BASE);
    assert_eq!(heap_used(&rt.heap), 24);
    heap_shutdown(&mut rt.heap);
    heap_shutdown(&mut rt.heap);
    assert_eq!(heap_used(&rt.heap), 0);
    assert_eq!(from_space(&rt.heap), (0, 0));
    assert_eq!(to_space_base(&rt.heap), 0);
    heap_init(&mut rt.heap, Some("64"), HEAP_BASE);
    assert_eq!(from_space(&rt.heap), (HEAP_BASE, HEAP_BASE + 32));
}

#[test]
fn bumping_stops_at_the_limit() {
    let mut rt = runtime(Some("128"));
    assert_eq!(bump_if_fits(&mut rt.heap, 65), 0);
    assert_eq!(bump_if_fits(&mut rt.heap, usize::MAX), 0);
    assert_eq!(heap_used(&rt.heap), 0);
    assert_eq!(bump_if_fits(&mut rt.heap, 40), HEAP_BASE);
    assert_eq!(bump_if_fits(&mut rt.heap, 32), 0);
    assert_eq!(bump_if_fits(&mut rt.heap, 24), HEAP_BASE + 40);
    assert_eq!(bump_if_fits(&mut rt.heap, 1), 0);
    assert_eq!(heap_used(&rt.heap), 64);
}

#[test]
fn bumping_without_a_heap_gives_null() {
    let mut rt = Runtime::new(IMAGE_BASE, Vec::new());
    assert_eq!(bump_if_fits(&mut rt.heap, 0), 0);
    assert_eq!(bump_if_fits(&mut rt.heap, 16), 0);
}

#[test]
fn flips_exchange_the_semispaces() {
    let mut rt = runtime(Some("128"));
    assert_eq!(bump_if_fits(&mut rt.heap, 48), HEAP_BASE);
    flip(&mut rt.heap, HEAP_BASE + 64 + 8);
    assert_eq!(from_space(&rt.heap), (HEAP_BASE + 64, HEAP_BASE + 128));
    assert_eq!(to_space_base(&rt.heap), HEAP_BASE);
    assert_eq!(heap_used(&rt.heap), 8);
    flip(&mut rt.heap, HEAP_BASE + 48);
    assert_eq!(from_space(&rt.heap), (HEAP_BASE, HEAP_BASE + 64));
    assert_eq!(heap_used(&rt.heap), 48);
}

#[test]
fn objects_get_a_header_and_zeros() {
    let mut rt = runtime(Some("256"));
    for addr in HEAP_BASE..HEAP_BASE + 128 {
        rt.heap.store_byte(addr, 0xee);
    }
    let first = address(lo_alloc(&mut rt, &classes(), 2, no_collection));
    let second = address(lo_alloc(&mut rt, &classes(), 3, no_collection));
    assert_eq!(first, HEAP_BASE);
    assert_eq!(second, HEAP_BASE + 16);
    assert_eq!(heap_used(&rt.heap), 16 + 24);
    assert_eq!(rt.heap.load_word(first, 8), 2);
    assert_eq!(rt.heap.load_word(second, 8), 3);
    for offset in 8..OBJECT_SIZE {
        assert_eq!(rt.heap.load_byte(first + offset), 0);
    }
    for offset in 8..24 {
        assert_eq!(rt.heap.load_byte(second + offset), 0);
    }
    assert_eq!(rt.heap.load_byte(second + 24), 0xee);
}

#[test]
fn a_full_semispace_is_collected_once() {
    let mut rt = runtime(Some("64"));
    let mut runs = 0;
    for _ in 0..2 {
        address(lo_alloc(&mut rt, &classes(), 2, no_collection));
    }
    let addr = address(lo_alloc(&mut rt, &classes(), 2, |before| {
        runs += 1;
        assert_eq!(heap_used(&before.heap), 32);
        drop_everything(before)
    }));
    assert_eq!(runs, 1);
    assert_eq!(addr, HEAP_BASE + 32);
    assert_eq!(heap_used(&rt.heap), 16);
}

#[test]
fn a_collection_that_frees_too_little_ends_in_an_abort() {
    let mut rt = runtime(Some("64"));
    for _ in 0..2 {
        address(lo_alloc(&mut rt, &classes(), 2, no_collection));
    }
    let mut runs = 0;
    let (message, code) = abort_of(lo_alloc(&mut rt, &classes(), 2, |before| {
        runs += 1;
        before
    }));
    assert_eq!(runs, 1);
    assert_eq!(message, "lo_alloc: out of memory");
    assert_eq!(code, 137);
    assert_eq!(heap_used(&rt.heap), 32);
}

#[test]
fn an_object_larger_than_a_semispace_never_fits() {
    let mut rt = runtime(Some("64"));
    let (_, code) = abort_of(alloc_raw(&mut rt, 40, 2, drop_everything));
    assert_eq!(code, 137);
}

#[test]
fn allocating_without_a_heap_aborts() {
    let mut rt = Runtime::new(IMAGE_BASE, Vec::new());
    let (message, code) = abort_of(lo_alloc(&mut rt, &classes(), 2, |before| before));
    assert_eq!(message, "lo_alloc: out of memory");
    assert_eq!(code, 137);
}

#[test]
fn string_objects_are_padded_and_zeroed() {
    let mut rt = runtime(Some("256"));
    let empty = address(bump_alloc_string(&mut rt, 0, no_collection));
    assert_eq!(heap_used(&rt.heap), 24);
    let full = address(bump_alloc_string(&mut rt, 4, no_collection));
    assert_eq!(full, HEAP_BASE + 32);
    assert_eq!(heap_used(&rt.heap), 56);
    let spilled = address(bump_alloc_string(&mut rt, 5, no_collection));
    assert_eq!(spilled, HEAP_BASE + 64);
    assert_eq!(heap_used(&rt.heap), 96);
    assert_eq!(string_length(&rt.heap, empty), 0);
    assert_eq!(string_length(&rt.heap, full), 4);
    assert_eq!(bytes(&rt.heap, spilled).to_vec(), vec![0; 5]);
    assert_eq!(rt.heap.load_word(spilled, 8), LO_STRING_CLASS);
    assert_eq!(string_data_offset(), STRING_DATA_OFFSET);
    for addr in [empty, full, spilled] {
        assert_eq!(addr % 16, 0);
    }
}

#[test]
fn words_are_stored_low_byte_first() {
    let mut rt = runtime(Some("64"));
    rt.heap.store_word(HEAP_BASE, 4, 0x0102_0304);
    assert_eq!(rt.heap.load_byte(HEAP_BASE), 4);
    assert_eq!(rt.heap.load_byte(HEAP_BASE + 3), 1);
    rt.heap.store_word(HEAP_BASE + 8, 8, u64::MAX);
    assert_eq!(rt.heap.load_word(HEAP_BASE + 8, 8), u64::MAX);
    assert_eq!(rt.heap.load_word(HEAP_BASE, 8), 0x0102_0304);
}

#[test]
fn every_object_is_aligned() {
    let mut rt = runtime(Some("256"));
    let first = address(lo_alloc(&mut rt, &classes(), 1, no_collection));
    let second = address(lo_alloc(&mut rt, &classes(), 1, no_collection));
    assert_eq!(first, HEAP_BASE);
    assert_eq!(second, HEAP_BASE + 32);
    assert_eq!(heap_used(&rt.heap), 56);
    flip(&mut rt.heap, HEAP_BASE + 128 + 8);
    let third = address(lo_alloc(&mut rt, &classes(), 1, no_collection));
    assert_eq!(third, HEAP_BASE + 128 + 16);
}

#[test]
fn padding_counts_against_the_room() {
    let mut rt = runtime(Some("128"));
    assert_eq!(address(lo_alloc(&mut rt, &classes(), 1, no_collection)), HEAP_BASE);
    assert_eq!(bump_if_fits(&mut rt.heap, 16), HEAP_BASE + 24);
    let mut runs = 0;
    let addr = address(lo_alloc(&mut rt, &classes(), 1, |before| {
        runs += 1;
        drop_everything(before)
    }));
    assert_eq!(runs, 1);
    assert_eq!(addr, HEAP_BASE + 64);
}

#[test]
fn the_halves_stay_through_collections() {
    let mut rt = runtime(Some("128"));
    for _ in 0..20 {
        address(lo_alloc(&mut rt, &classes(), 1, drop_everything));
        let (base, limit) = from_space(&rt.heap);
        assert_eq!(limit - base, 64);
        assert!(base == HEAP_BASE || base == HEAP_BASE + 64);
        assert!(heap_used(&rt.heap) <= 64);
    }
    assert_eq!(rt.heap.load_byte(IMAGE_BASE), 1);
}
