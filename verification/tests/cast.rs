use lo_runtime::abort::Abort;
use lo_runtime::allocator::{heap_init, lo_alloc};
use lo_runtime::cast::{lo_cast_check, lo_instanceof};
use lo_runtime::object::ClassDescriptor;
use lo_runtime::runtime::Runtime;

fn class(name: &[u8], parent: u64) -> ClassDescriptor {
    ClassDescriptor { instance_size: 16, name: name.to_vec(), parent }
}

/// Animal (2) is extended by Dog (3), and Dog by Puppy (4); Rock (5) stands
/// alone, and so does a class with a name that is not UTF-8 (6).
fn classes() -> Vec<ClassDescriptor> {
    vec![
        class(b"String", 0),
        class(b"Animal", 0),
        class(b"Dog", 2),
        class(b"Puppy", 3),
        class(b"Rock", 0),
        class(b"Bad\xff", 0),
    ]
}

fn object(class: u64) -> (Runtime, usize) {
    let mut rt = Runtime::new(64, Vec::new());
    heap_init(&mut rt.heap, Some("128"), 4096);
    match lo_alloc(&mut rt, &classes(), class, |before| before) {
        Ok(addr) => (rt, addr),
        Err(abort) => panic!("{}", abort.message),
    }
}

fn abort_of(result: Result<usize, Abort>) -> (String, i32) {
    match result {
        Ok(_) => panic!("an abort is due"),
        Err(abort) => (abort.message, abort.code),
    }
}

#[test]
fn instances_of_a_class_and_its_ancestors() {
    let (rt, puppy) = object(4);
    assert!(lo_instanceof(&rt.heap, &classes(), puppy, 4));
    assert!(lo_instanceof(&rt.heap, &classes(), puppy, 3));
    assert!(lo_instanceof(&rt.heap, &classes(), puppy, 2));
    assert!(!lo_instanceof(&rt.heap, &classes(), puppy, 5));
    assert!(!lo_instanceof(&rt.heap, &classes(), puppy, 0));
    let (rt, animal) = object(2);
    assert!(lo_instanceof(&rt.heap, &classes(), animal, 2));
    assert!(!lo_instanceof(&rt.heap, &classes(), animal, 3));
}

#[test]
fn null_is_an_instance_of_nothing() {
    let (rt, _) = object(2);
    for target in 0..6 {
        assert!(!lo_instanceof(&rt.heap, &classes(), 0, target));
    }
}

#[test]
fn ancestry_goes_by_identity() {
    let mut table = classes();
    table.push(class(b"Animal", 0));
    let (rt, animal) = object(2);
    assert!(!lo_instanceof(&rt.heap, &table, animal, 7));
}

#[test]
fn valid_casts_return_the_object() {
    let (rt, dog) = object(3);
    assert!(matches!(lo_cast_check(&rt.heap, &classes(), dog, 3), Ok(addr) if addr == dog));
    assert!(matches!(lo_cast_check(&rt.heap, &classes(), dog, 2), Ok(addr) if addr == dog));
    assert!(matches!(lo_cast_check(&rt.heap, &classes(), 0, 5), Ok(0)));
}

#[test]
fn bad_casts_abort() {
    let (rt, dog) = object(3);
    let (message, code) = abort_of(lo_cast_check(&rt.heap, &classes(), dog, 4));
    assert_eq!(message, "lo_cast_check: cannot cast Dog to Puppy");
    assert_eq!(code, 101);
    let (message, _) = abort_of(lo_cast_check(&rt.heap, &classes(), dog, 5));
    assert_eq!(message, "lo_cast_check: cannot cast Dog to Rock");
}

#[test]
fn names_that_are_not_utf8_are_patched() {
    let (rt, dog) = object(3);
    let (message, _) = abort_of(lo_cast_check(&rt.heap, &classes(), dog, 6));
    assert_eq!(message, "lo_cast_check: cannot cast Dog to Bad\u{fffd}");
}

#[test]
fn static_objects_have_a_class_too() {
    let mut image = Vec::new();
    image.extend_from_slice(&3u64.to_le_bytes());
    image.extend_from_slice(&[0; 8]);
    let rt = Runtime::new(64, image);
    assert!(lo_instanceof(&rt.heap, &classes(), 64, 2));
    assert!(!lo_instanceof(&rt.heap, &classes(), 64, 5));
}
