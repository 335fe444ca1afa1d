//! Class ancestry checks.

use vstd::prelude::*;
use vstd::utf8::{decode_utf8, valid_utf8};

use crate::abort::Abort;
use crate::memory::Heap;
use crate::object::{
    lemma_word_limits, lemma_word_value_bound, ClassDescriptor, CLASS_WIDTH, OBJECT_SIZE,
};

verus! {

/// The class that `class` extends, or null.
pub open spec fn parent_of(classes: Seq<ClassDescriptor>, class: u64) -> u64 {
    if 1 <= class <= classes.len() {
        classes[class - 1].parent
    } else {
        0
    }
}

/// The class that is `steps` up from `class`, or null.
pub open spec fn ancestor(classes: Seq<ClassDescriptor>, class: u64, steps: nat) -> u64
    decreases steps,
{
    if steps == 0 {
        class
    } else {
        parent_of(classes, ancestor(classes, class, (steps - 1) as nat))
    }
}

/// `class` is `target` or extends it, directly or not.
pub open spec fn extends_class(classes: Seq<ClassDescriptor>, class: u64, target: u64) -> bool {
    target != 0 && exists|steps: nat| #[trigger] ancestor(classes, class, steps) == target
}

/// The descriptors of `class` and all its ancestors are in the table.
pub open spec fn lineage_valid(classes: Seq<ClassDescriptor>, class: u64) -> bool {
    forall|steps: nat| #[trigger] ancestor(classes, class, steps) <= classes.len()
}

/// Going up from `class` comes to `target` or to an end.
pub open spec fn walk_ends(classes: Seq<ClassDescriptor>, class: u64, target: u64) -> bool {
    exists|steps: nat|
        {
            ||| #[trigger] ancestor(classes, class, steps) == 0
            ||| ancestor(classes, class, steps) == target
        }
}

/// The text that `bytes` stand for, with a replacement character in place of
/// whatever is not UTF-8.
pub uninterp spec fn lossy_text(bytes: Seq<u8>) -> Seq<char>;

/// A name in UTF-8 is given as it is written.
pub open spec fn names_as_written(name: Seq<u8>) -> bool {
    valid_utf8(name) ==> lossy_text(name) == decode_utf8(name)
}

/// `String::from_utf8_lossy` of the standard library: the text that `bytes`
/// stand for, by name, and what the characters are where the bytes are UTF-8.
/// How exactly the invalid parts of other bytes are replaced is left to the
/// name.
#[verifier::external_body]
fn from_utf8_lossy(bytes: &[u8]) -> (text: String)
    ensures
        text@ == lossy_text(bytes@),
        valid_utf8(bytes@) ==> text@ == decode_utf8(bytes@),
{
    String::from_utf8_lossy(bytes).into_owned()
}

/// The class of the object at `obj`.
fn class_of(heap: &Heap, obj: usize) -> (class: u64)
    requires
        heap.wf(),
        heap@.readable(obj as int, OBJECT_SIZE as int),
    ensures
        class == heap@.class_at(obj as int),
{
    proof {
        lemma_word_value_bound(heap@.span(obj as int, CLASS_WIDTH as int));
        lemma_word_limits();
    }
    heap.load_word(obj, CLASS_WIDTH)
}

/// Whether the class of the object at `obj` is `target` or extends it. Null is
/// an instance of no class.
pub fn lo_instanceof(heap: &Heap, classes: &[ClassDescriptor], obj: usize, target: u64) -> (instance: bool)
    requires
        heap.wf(),
        obj != 0 ==> {
            &&& heap@.readable(obj as int, OBJECT_SIZE as int)
            &&& lineage_valid(classes@, heap@.class_at(obj as int))
            &&& walk_ends(classes@, heap@.class_at(obj as int), target)
        },
    ensures
        instance == (obj != 0 && extends_class(classes@, heap@.class_at(obj as int), target)),
        obj == 0 || target == 0 ==> !instance,
        obj != 0 && target != 0 && heap@.class_at(obj as int) == target ==> instance,
        obj != 0 && heap@.class_at(obj as int) != target && 1 <= heap@.class_at(obj as int)
            <= classes@.len() ==> instance == extends_class(
            classes@,
            classes@[heap@.class_at(obj as int) - 1].parent,
            target,
        ),
        obj != 0 && heap@.class_at(obj as int) != target && 1 <= heap@.class_at(obj as int)
            <= classes@.len() && classes@[heap@.class_at(obj as int) - 1].parent == 0 ==> !instance,
{
    if obj == 0 {
        return false;
    }
    let start: u64 = class_of(heap, obj);
    proof {
        law_extends_step(classes@, start, target);
    }
    let ghost last = choose|steps: nat|
        {
            ||| #[trigger] ancestor(classes@, start, steps) == 0
            ||| ancestor(classes@, start, steps) == target
        };
    let mut class: u64 = start;
    let ghost mut steps: nat = 0;
    while class != 0
        invariant
            lineage_valid(classes@, start),
            class == ancestor(classes@, start, steps),
            steps <= last,
            ancestor(classes@, start, last) == 0 || ancestor(classes@, start, last) == target,
            start == heap@.class_at(obj as int),
            obj != 0,
            forall|k: nat| k < steps ==> #[trigger] ancestor(classes@, start, k) != target,
        decreases last - steps,
    {
        if class == target {
            proof {
                law_extends_step(classes@, start, target);
            }
            return true;
        }
        assert(ancestor(classes@, start, steps + 1) == parent_of(classes@, class));
        class = classes[(class - 1) as usize].parent;
        proof {
            steps = steps + 1;
        }
    }
    proof {
        assert forall|k: nat| target != 0 implies #[trigger] ancestor(classes@, start, k)
            != target by {
            if k >= steps {
                lemma_past_null(classes@, start, steps, k);
            }
        }
    }
    false
}

/// Above null there is only null.
proof fn lemma_past_null(classes: Seq<ClassDescriptor>, class: u64, steps: nat, more: nat)
    requires
        ancestor(classes, class, steps) == 0,
        steps <= more,
    ensures
        ancestor(classes, class, more) == 0,
    decreases more,
{
    if steps < more {
        lemma_past_null(classes, class, steps, (more - 1) as nat);
    }
}

/// The object at `obj`, if it is null or an instance of `target`; aborts
/// otherwise.
pub fn lo_cast_check(
    heap: &Heap,
    classes: &[ClassDescriptor],
    obj: usize,
    target: u64,
) -> (result: Result<usize, Abort>)
    requires
        heap.wf(),
        obj != 0 ==> {
            &&& 1 <= target <= classes@.len()
            &&& heap@.readable(obj as int, OBJECT_SIZE as int)
            &&& heap@.class_at(obj as int) != 0
            &&& lineage_valid(classes@, heap@.class_at(obj as int))
            &&& walk_ends(classes@, heap@.class_at(obj as int), target)
        },
    ensures
        (obj == 0 || extends_class(classes@, heap@.class_at(obj as int), target)) ==> result == Ok::<
            usize,
            Abort,
        >(obj),
        !(obj == 0 || extends_class(classes@, heap@.class_at(obj as int), target)) ==> {
            &&& result matches Err(abort)
            &&& abort.is_bad_cast(
                lossy_text(classes@[heap@.class_at(obj as int) - 1].name@),
                lossy_text(classes@[target - 1].name@),
            )
            &&& names_as_written(classes@[heap@.class_at(obj as int) - 1].name@)
            &&& names_as_written(classes@[target - 1].name@)
        },
{
    if obj == 0 || lo_instanceof(heap, classes, obj, target) {
        return Ok(obj);
    }
    let class: u64 = class_of(heap, obj);
    assert(ancestor(classes@, class, 0) == class);
    let from: String = from_utf8_lossy(classes[(class - 1) as usize].name.as_slice());
    let to: String = from_utf8_lossy(classes[(target - 1) as usize].name.as_slice());
    Err(Abort::bad_cast(from.as_str(), to.as_str()))
}

/// Law: a class is an instance of itself.
pub proof fn law_extends_reflexive(classes: Seq<ClassDescriptor>, class: u64)
    requires
        class != 0,
    ensures
        extends_class(classes, class, class),
{
    assert(ancestor(classes, class, 0) == class);
}

/// Law: a class is an instance of the class that it extends.
pub proof fn law_extends_parent(classes: Seq<ClassDescriptor>, class: u64)
    requires
        parent_of(classes, class) != 0,
    ensures
        extends_class(classes, class, parent_of(classes, class)),
{
    assert(ancestor(classes, class, 0) == class);
    assert(ancestor(classes, class, 1) == parent_of(classes, class));
}

/// Law: an instance of a class is an instance of all that the class extends.
pub proof fn law_extends_transitive(
    classes: Seq<ClassDescriptor>,
    low: u64,
    middle: u64,
    high: u64,
)
    requires
        extends_class(classes, low, middle),
        extends_class(classes, middle, high),
    ensures
        extends_class(classes, low, high),
{
    let first = choose|steps: nat| #[trigger] ancestor(classes, low, steps) == middle;
    let second = choose|steps: nat| #[trigger] ancestor(classes, middle, steps) == high;
    lemma_ancestor_sum(classes, low, first, second);
}

/// Going up first so and then so many steps is going up as many as both.
proof fn lemma_ancestor_sum(classes: Seq<ClassDescriptor>, class: u64, first: nat, second: nat)
    ensures
        ancestor(classes, class, first + second) == ancestor(
            classes,
            ancestor(classes, class, first),
            second,
        ),
    decreases second,
{
    if second > 0 {
        lemma_ancestor_sum(classes, class, first, (second - 1) as nat);
    }
}

/// Going up along `path`, which follows the parents in the table.
proof fn lemma_path_is_walk(classes: Seq<ClassDescriptor>, path: Seq<u64>, steps: nat)
    requires
        steps < path.len(),
        forall|i: int| 0 <= i < path.len() - 1 ==> 1 <= #[trigger] path[i] && path[i]
            <= classes.len(),
        forall|i: int, j: int|
            #![trigger path[i], path[j]]
            0 <= i && j == i + 1 && j < path.len() ==> classes[path[i] - 1].parent == path[j],
    ensures
        ancestor(classes, path[0], steps) == path[steps as int],
    decreases steps,
{
    if steps > 0 {
        lemma_path_is_walk(classes, path, (steps - 1) as nat);
        assert(classes[path[steps - 1] - 1].parent == path[steps as int]);
    }
}

/// Law: a class is an instance of `target` exactly where a path along the
/// parents in the table leads from it to `target`, which is not null.
pub proof fn law_extends_path(classes: Seq<ClassDescriptor>, class: u64, target: u64)
    ensures
        extends_class(classes, class, target) <==> target != 0 && exists|path: Seq<u64>|
            {
                &&& path.len() > 0
                &&& path[0] == class
                &&& #[trigger] path.last() == target
                &&& forall|i: int| 0 <= i < path.len() - 1 ==> 1 <= #[trigger] path[i] && path[i]
                    <= classes.len()
                &&& forall|i: int, j: int|
                    #![trigger path[i], path[j]]
                    0 <= i && j == i + 1 && j < path.len() ==> classes[path[i] - 1].parent
                        == path[j]
            },
{
    if extends_class(classes, class, target) {
        let steps = choose|steps: nat| #[trigger] ancestor(classes, class, steps) == target;
        let path = Seq::new((steps + 1) as nat, |i: int| ancestor(classes, class, i as nat));
        assert(path[0] == class);
        assert(path.last() == target);
        assert forall|i: int| 0 <= i < path.len() - 1 implies 1 <= #[trigger] path[i] && path[i]
            <= classes.len() by {
            let j = (i + 1) as nat;
            if !(1 <= path[i] <= classes.len()) {
                assert(ancestor(classes, class, j) == parent_of(classes, path[i]));
                lemma_past_null(classes, class, j, steps);
            }
        }
        assert forall|i: int, j: int|
            #![trigger path[i], path[j]]
            0 <= i && j == i + 1 && j < path.len() implies classes[path[i] - 1].parent
                == path[j] by {
            assert(1 <= path[i] <= classes.len());
            assert(ancestor(classes, class, j as nat) == parent_of(classes, path[i]));
        }
    }
    if target != 0 && exists|path: Seq<u64>|
        {
            &&& path.len() > 0
            &&& path[0] == class
            &&& #[trigger] path.last() == target
            &&& forall|i: int| 0 <= i < path.len() - 1 ==> 1 <= #[trigger] path[i] && path[i]
                <= classes.len()
            &&& forall|i: int, j: int|
                #![trigger path[i], path[j]]
                0 <= i && j == i + 1 && j < path.len() ==> classes[path[i] - 1].parent == path[j]
        } {
        let path = choose|path: Seq<u64>|
            {
                &&& path.len() > 0
                &&& path[0] == class
                &&& #[trigger] path.last() == target
                &&& forall|i: int| 0 <= i < path.len() - 1 ==> 1 <= #[trigger] path[i] && path[i]
                    <= classes.len()
                &&& forall|i: int, j: int|
                    #![trigger path[i], path[j]]
                    0 <= i && j == i + 1 && j < path.len() ==> classes[path[i] - 1].parent
                        == path[j]
            };
        lemma_path_is_walk(classes, path, (path.len() - 1) as nat);
    }
}

/// Law: an instance of `target` is of that class, or its class has a parent
/// whose instances are instances of `target`; nothing else is. So siblings are
/// no instances of each other, and null is an instance of nothing.
pub proof fn law_extends_step(classes: Seq<ClassDescriptor>, class: u64, target: u64)
    ensures
        1 <= class <= classes.len() ==> (extends_class(classes, class, target) <==> target != 0 && (
        class == target || (classes[class - 1].parent != 0 && extends_class(
            classes,
            classes[class - 1].parent,
            target,
        )))),
        !(1 <= class <= classes.len()) ==> (extends_class(classes, class, target) <==> target != 0
            && class == target),
        !extends_class(classes, 0, target),
        !extends_class(classes, class, 0),
{
    assert(ancestor(classes, class, 0) == class);
    let parent = parent_of(classes, class);
    assert(ancestor(classes, class, 1) == parent);
    assert(ancestor(classes, 0, 0) == 0);
    assert forall|steps: nat| #[trigger] ancestor(classes, 0, steps) == 0 by {
        lemma_past_null(classes, 0, 0, steps);
    }
    if extends_class(classes, class, target) && class != target {
        let steps = choose|steps: nat| #[trigger] ancestor(classes, class, steps) == target;
        lemma_ancestor_sum(classes, class, 1, (steps - 1) as nat);
        assert(ancestor(classes, parent, (steps - 1) as nat) == target);
    }
    if extends_class(classes, parent, target) {
        let steps = choose|steps: nat| #[trigger] ancestor(classes, parent, steps) == target;
        lemma_ancestor_sum(classes, class, 1, steps);
        assert(ancestor(classes, class, 1 + steps) == target);
    }
}

/// Law: an object can be checked against any class where a path along the
/// parents in the table leads from its own class to null, however long; and
/// against a class that such a path meets.
pub proof fn law_walk_along_path(classes: Seq<ClassDescriptor>, path: Seq<u64>, target: u64)
    requires
        path.len() > 0,
        path.last() == 0 || path.last() == target,
        forall|i: int| 0 <= i < path.len() - 1 ==> 1 <= #[trigger] path[i] && path[i]
            <= classes.len(),
        forall|i: int, j: int|
            #![trigger path[i], path[j]]
            0 <= i && j == i + 1 && j < path.len() ==> classes[path[i] - 1].parent == path[j],
    ensures
        walk_ends(classes, path[0], target),
        path.last() == 0 ==> lineage_valid(classes, path[0]),
{
    let last = (path.len() - 1) as nat;
    lemma_path_is_walk(classes, path, last);
    assert(ancestor(classes, path[0], last) == path.last());
    if path.last() == 0 {
        assert forall|steps: nat| #[trigger] ancestor(classes, path[0], steps)
            <= classes.len() by {
            if steps < last {
                lemma_path_is_walk(classes, path, steps);
                assert(path[steps as int] <= classes.len());
            } else {
                lemma_past_null(classes, path[0], last, steps);
            }
        }
    }
}

/// Law: in a table whose parents are all in the table, so is every ancestor.
pub proof fn law_table_closed(classes: Seq<ClassDescriptor>, class: u64)
    requires
        class <= classes.len(),
        forall|k: int| 0 <= k < classes.len() ==> (#[trigger] classes[k]).parent <= classes.len(),
    ensures
        lineage_valid(classes, class),
{
    assert forall|steps: nat| #[trigger] ancestor(classes, class, steps) <= classes.len() by {
        lemma_ancestors_in_table(classes, class, steps);
    }
}

/// Every ancestor is in a table whose parents are.
proof fn lemma_ancestors_in_table(classes: Seq<ClassDescriptor>, class: u64, steps: nat)
    requires
        class <= classes.len(),
        forall|k: int| 0 <= k < classes.len() ==> (#[trigger] classes[k]).parent <= classes.len(),
    ensures
        ancestor(classes, class, steps) <= classes.len(),
    decreases steps,
{
    if steps > 0 {
        lemma_ancestors_in_table(classes, class, (steps - 1) as nat);
    }
}

/// Law: what is said of a name is that its text is what its bytes stand for
/// where they are UTF-8.
pub proof fn law_names_as_written(name: Seq<u8>)
    ensures
        names_as_written(name) <==> (valid_utf8(name) ==> lossy_text(name) == decode_utf8(name)),
{
}

/// Going round a circle of ancestors any number of times leads back.
proof fn lemma_circle(classes: Seq<ClassDescriptor>, class: u64, length: nat, rounds: nat)
    requires
        ancestor(classes, class, length) == class,
    ensures
        ancestor(classes, class, length * rounds) == class,
    decreases rounds,
{
    if rounds == 0 {
        assert(length * rounds == 0);
    } else {
        let fewer = (rounds - 1) as nat;
        lemma_circle(classes, class, length, fewer);
        lemma_ancestor_sum(classes, class, length * fewer, length);
        assert(length * fewer + length == length * rounds) by (nonlinear_arith)
            requires
                fewer == rounds - 1,
        ;
    }
}

/// Law: no class is an instance of one that extends it, where going up from it
/// comes to an end; and so two classes that extend the same one are no instances
/// of each other.
pub proof fn law_siblings(
    classes: Seq<ClassDescriptor>,
    first: u64,
    second: u64,
    parent: u64,
    height: nat,
)
    requires
        1 <= first <= classes.len(),
        1 <= second <= classes.len(),
        first != second,
        parent != 0,
        classes[first - 1].parent == parent,
        classes[second - 1].parent == parent,
        ancestor(classes, parent, height) == 0,
    ensures
        !extends_class(classes, parent, first),
        !extends_class(classes, parent, second),
        !extends_class(classes, first, second),
        !extends_class(classes, second, first),
{
    lemma_no_circle(classes, first, parent, height);
    lemma_no_circle(classes, second, parent, height);
    law_extends_step(classes, first, second);
    law_extends_step(classes, second, first);
}

/// A class does not extend its own child, where going up from it comes to an
/// end.
proof fn lemma_no_circle(classes: Seq<ClassDescriptor>, class: u64, parent: u64, height: nat)
    requires
        1 <= class <= classes.len(),
        parent != 0,
        classes[class - 1].parent == parent,
        ancestor(classes, parent, height) == 0,
    ensures
        !extends_class(classes, parent, class),
{
    if extends_class(classes, parent, class) {
        let steps = choose|steps: nat| #[trigger] ancestor(classes, parent, steps) == class;
        let length = steps + 1;
        assert(ancestor(classes, parent, length) == parent);
        lemma_circle(classes, parent, length, height);
        assert(height <= length * height) by (nonlinear_arith)
            requires
                length >= 1,
        ;
        lemma_past_null(classes, parent, height, length * height);
    }
}

} // verus!
