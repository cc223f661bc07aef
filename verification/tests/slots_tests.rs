use contextual_stack::slots::{Slot, Slots};

#[test]
fn the_first_slot_is_the_first_above_the_reserved_ones() {
    let mut slots = Slots::<1>::new();
    assert_eq!(slots.allocate().to_usize(), 1);
    let mut wide = Slots::<4>::new();
    assert_eq!(wide.allocate().to_usize(), 4);
    assert_eq!(wide.allocate().to_usize(), 5);
}

#[test]
fn slots_count_up_while_none_comes_back() {
    let mut slots = Slots::<1>::new();
    let got: Vec<usize> = (0..5).map(|_| slots.allocate().to_usize()).collect();
    assert_eq!(got, vec![1, 2, 3, 4, 5]);
}

#[test]
fn allocate_then_deallocate_gives_the_same_slot_again() {
    let mut slots = Slots::<1>::new();
    let _kept = slots.allocate();
    let a = slots.allocate();
    let number = a.to_usize();
    slots.deallocate(a);
    assert!(!slots.is_allocated(&a));
    let b = slots.allocate();
    assert_eq!(b.to_usize(), number);
    assert_eq!(a, b);
}

#[test]
fn the_lowest_hole_is_filled_first() {
    let mut slots = Slots::<1>::new();
    let all: Vec<Slot<1>> = (0..6).map(|_| slots.allocate()).collect();
    slots.deallocate(all[3]);
    slots.deallocate(all[1]);
    slots.deallocate(all[4]);
    assert_eq!(slots.allocate().to_usize(), 2);
    assert_eq!(slots.allocate().to_usize(), 4);
    assert_eq!(slots.allocate().to_usize(), 5);
    assert_eq!(slots.allocate().to_usize(), 7);
}

#[test]
fn giving_back_the_newest_slot_leaves_no_hole() {
    let mut slots = Slots::<1>::new();
    let a = slots.allocate();
    let b = slots.allocate();
    let c = slots.allocate();
    slots.deallocate(c);
    slots.deallocate(b);
    assert!(slots.is_allocated(&a));
    assert!(!slots.is_allocated(&b));
    assert!(!slots.is_allocated(&c));
    assert_eq!(slots.allocate().to_usize(), 2);
    assert_eq!(slots.allocate().to_usize(), 3);
}

#[test]
fn a_hole_below_a_lowered_counter_is_still_used_first() {
    let mut slots = Slots::<1>::new();
    let _a = slots.allocate();
    let b = slots.allocate();
    let c = slots.allocate();
    slots.deallocate(b);
    slots.deallocate(c);
    assert_eq!(slots.allocate().to_usize(), 2);
    assert_eq!(slots.allocate().to_usize(), 3);
    assert_eq!(slots.allocate().to_usize(), 4);
}

#[test]
fn many_holes_come_back_in_rising_order() {
    let mut slots = Slots::<1>::new();
    let all: Vec<Slot<1>> = (0..40).map(|_| slots.allocate()).collect();
    for i in [31usize, 2, 17, 8, 25, 11, 5, 29, 14, 20, 0, 36] {
        slots.deallocate(all[i]);
    }
    let back: Vec<usize> = (0..12).map(|_| slots.allocate().to_usize()).collect();
    assert_eq!(back, vec![1, 3, 6, 9, 12, 15, 18, 21, 26, 30, 32, 37]);
    assert_eq!(slots.allocate().to_usize(), 41);
}

#[test]
fn reserved_slots_lie_below_the_reserve() {
    assert_eq!(Slots::<1>::reserved(0).map(|s| s.to_usize()), Some(0));
    assert!(Slots::<1>::reserved(1).is_none());
    assert_eq!(Slots::<3>::reserved(2).map(|s| s.to_usize()), Some(2));
    assert!(Slots::<3>::reserved(3).is_none());
    assert!(Slots::<0>::reserved(0).is_none());
}

#[test]
fn a_reserved_slot_is_never_outstanding() {
    let mut slots = Slots::<2>::new();
    let reserved = Slots::<2>::reserved(1).unwrap();
    assert!(!slots.is_allocated(&reserved));
    let first = slots.allocate();
    assert_eq!(first.to_usize(), 2);
    assert!(slots.is_allocated(&first));
    assert!(!slots.is_allocated(&reserved));
}

#[test]
fn to_usize_is_the_number_of_the_slot() {
    let mut slots = Slots::<1>::new();
    let first = slots.allocate();
    assert_eq!(first.to_usize(), 1);
    assert_eq!(slots.allocate().to_usize(), 2);
    assert_eq!(Slots::<1>::reserved(0).unwrap().to_usize(), 0);
    assert_eq!(Slots::<5>::reserved(3).unwrap().to_usize(), 3);
    let mut wide = Slots::<5>::new();
    assert_eq!(wide.allocate().to_usize(), 5);
}

#[test]
fn a_new_allocator_has_room() {
    let mut slots = Slots::<1>::new();
    assert!(slots.can_allocate());
    let a = slots.allocate();
    assert!(slots.can_allocate());
    slots.deallocate(a);
    assert!(slots.can_allocate());
}
