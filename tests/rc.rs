use std::cell::RefCell;

use rc_tree::rc::{Heap, Rc, Weak};

#[test]
fn test() {
    let mut heap = Heap::new();
    let rc = Rc::new(&mut heap, String::from("hello world"));

    let rc2 = Rc::clone(&rc, &mut heap);

    {
        let rc3 = Rc::clone(&rc2, &mut heap);
        assert_eq!(rc.strong_count(&heap), 3);
        assert!(rc3.release(&mut heap).is_none());
    }
    assert_eq!(rc.strong_count(&heap), 2);

    assert!(rc.release(&mut heap).is_none()); // (out of order)

    assert_eq!(rc2.strong_count(&heap), 1);
}

struct A {
    friend: Option<Weak<RefCell<B>>>,
}

struct B {
    friend: Option<Rc<RefCell<A>>>,
}

#[test]
fn weak_cycle() {
    let mut heap_a = Heap::new();
    let mut heap_b = Heap::new();
    let a = Rc::new(&mut heap_a, RefCell::new(A { friend: None }));
    let a2 = Rc::clone(&a, &mut heap_a);
    let b = Rc::new(&mut heap_b, RefCell::new(B { friend: Some(a2) }));

    assert_eq!(a.strong_count(&heap_a), 2);
    assert_eq!(b.strong_count(&heap_b), 1);
    assert_eq!(b.weak_count(&heap_b), 0);

    let wb = Rc::weak(&b, &mut heap_b);
    a.deref(&heap_a).borrow_mut().friend = Some(wb);
    assert_eq!(b.weak_count(&heap_b), 1);
    assert_eq!(a.deref(&heap_a).borrow_mut().friend.as_ref().unwrap().strong_count(&heap_b), 1);

    let b_payload = b.release(&mut heap_b).unwrap();
    assert_eq!(a.deref(&heap_a).borrow_mut().friend.as_ref().unwrap().strong_count(&heap_b), 0);

    // The payload that left `b` gives up the handle to `a` it held.
    let held = b_payload.into_inner().friend.unwrap();
    assert!(held.release(&mut heap_a).is_none());
    assert_eq!(a.strong_count(&heap_a), 1);
}

#[test]
fn counts_of_a_new_cell() {
    let mut heap = Heap::new();
    let rc = Rc::new(&mut heap, 7u32);
    assert_eq!(rc.strong_count(&heap), 1);
    assert_eq!(rc.weak_count(&heap), 0);
    assert_eq!(*rc.deref(&heap), 7);
    assert_eq!(heap.len(), 1);
    assert!(!heap.is_reclaimed(rc.index()));
}

#[test]
fn strong_accounting_over_a_sequence() {
    let mut heap = Heap::new();
    let r1 = Rc::new(&mut heap, 1i32);
    let r2 = r1.clone(&mut heap);
    let r3 = r2.clone(&mut heap);
    assert_eq!(r1.strong_count(&heap), 3);
    assert!(r2.release(&mut heap).is_none());
    assert_eq!(r1.strong_count(&heap), 2);
    let r4 = r3.clone(&mut heap);
    assert_eq!(r1.strong_count(&heap), 3);
    assert!(r1.release(&mut heap).is_none());
    assert!(r3.release(&mut heap).is_none());
    assert_eq!(r4.strong_count(&heap), 1);
    assert_eq!(r4.release(&mut heap), Some(1));
}

#[test]
fn weak_accounting_over_a_sequence() {
    let mut heap = Heap::new();
    let rc = Rc::new(&mut heap, 'w');
    let w1 = rc.weak(&mut heap);
    let w2 = rc.weak(&mut heap);
    assert_eq!(rc.weak_count(&heap), 2);
    assert_eq!(rc.strong_count(&heap), 1);
    w1.release(&mut heap);
    assert_eq!(rc.weak_count(&heap), 1);
    assert_eq!(w2.weak_count(&heap), 1);
    assert_eq!(w2.strong_count(&heap), 1);
}

#[test]
fn last_strong_release_hands_back_payload_and_weak_keeps_storage() {
    let mut heap = Heap::new();
    let rc = Rc::new(&mut heap, String::from("payload"));
    let id = rc.index();
    let weak = rc.weak(&mut heap);
    assert_eq!(rc.release(&mut heap), Some(String::from("payload")));
    assert_eq!(weak.strong_count(&heap), 0);
    assert_eq!(weak.weak_count(&heap), 1);
    assert!(!heap.is_reclaimed(id));
    weak.release(&mut heap);
    assert!(heap.is_reclaimed(id));
}

#[test]
fn clone_then_release_both_reclaims() {
    let mut heap = Heap::new();
    let rc = Rc::new(&mut heap, "x");
    let id = rc.index();
    let rc2 = rc.clone(&mut heap);
    assert_eq!(rc.strong_count(&heap), 2);
    assert!(rc.release(&mut heap).is_none());
    assert_eq!(rc2.strong_count(&heap), 1);
    assert_eq!(rc2.release(&mut heap), Some("x"));
    assert!(heap.is_reclaimed(id));
}

enum Link {
    Strong(Rc<Holder>),
    Weak(Weak<Holder>),
}

struct Holder {
    link: RefCell<Option<Link>>,
}

fn run_cycle(b_first: bool) {
    let mut heap = Heap::new();
    let a = Rc::new(&mut heap, Holder { link: RefCell::new(None) });
    let a_in_b = a.clone(&mut heap);
    let b = Rc::new(&mut heap, Holder { link: RefCell::new(Some(Link::Strong(a_in_b))) });
    let b_in_a = b.weak(&mut heap);
    *a.deref(&heap).link.borrow_mut() = Some(Link::Weak(b_in_a));
    let (ia, ib) = (a.index(), b.index());
    assert_eq!(a.strong_count(&heap), 2);
    assert_eq!(b.weak_count(&heap), 1);

    let mut pending = Vec::new();
    if b_first {
        pending.push(b.release(&mut heap));
        pending.push(a.release(&mut heap));
    } else {
        pending.push(a.release(&mut heap));
        pending.push(b.release(&mut heap));
    }
    // Each payload that leaves its cell gives up the handle it held.
    while let Some(slot) = pending.pop() {
        if let Some(holder) = slot {
            match holder.link.into_inner() {
                Some(Link::Strong(rc)) => pending.push(rc.release(&mut heap)),
                Some(Link::Weak(w)) => w.release(&mut heap),
                None => {}
            }
        }
    }
    assert!(heap.is_reclaimed(ia));
    assert!(heap.is_reclaimed(ib));
}

#[test]
fn cycle_reclaimed_releasing_b_first() {
    run_cycle(true);
}

#[test]
fn cycle_reclaimed_releasing_a_first() {
    run_cycle(false);
}
