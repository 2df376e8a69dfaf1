use micro_voxels::util::free_list::FreeList;

#[test]
fn new_free_list_is_empty() {
    let list: FreeList<u32> = FreeList::default();
    assert_eq!(list.greatest_used_index(), 0);
    assert_eq!(list.len(), 0);
    assert_eq!(list.contains(&3), None);
}

#[test]
fn push_appends_new_values() {
    let mut list: FreeList<u32> = FreeList::default();
    assert_eq!(list.push(10), 0);
    assert_eq!(list.push(20), 1);
    assert_eq!(list.push(30), 2);
    assert_eq!(list.greatest_used_index(), 2);
    assert_eq!(list.as_slice(), &[10, 20, 30]);
    assert_eq!(list.contains(&20), Some(1));
    assert_eq!(list.contains(&40), None);
    // every slot is reserved, so the next new value is appended
    assert_eq!(list.push(40), 3);
    assert_eq!(list.len(), 4);
}

#[test]
fn push_of_present_value_shares_its_slot() {
    let mut list: FreeList<u32> = FreeList::default();
    list.push(10);
    list.push(20);
    assert_eq!(list.push(10), 0);
    assert_eq!(list.push(20), 1);
    assert_eq!(list.as_slice(), &[10, 20]);
    assert_eq!(list.greatest_used_index(), 1);
    assert_eq!(list.len(), 2);
}

#[test]
fn free_of_shared_slot_keeps_it() {
    let mut list: FreeList<u32> = FreeList::default();
    list.push(10);
    list.push(10);
    list.free(0);
    assert_eq!(list.as_slice(), &[10]);
    assert_eq!(list.contains(&10), Some(0));
    // one reference is left: freeing it releases the slot in place
    list.free(0);
    assert_eq!(list.contains(&10), None);
    assert_eq!(list.greatest_used_index(), 0);
    assert_eq!(list.len(), 1);
    assert_eq!(list.push(20), 0);
    assert_eq!(list.as_slice(), &[20]);
}

#[test]
fn free_of_last_reference_resets_the_slot_in_place() {
    let mut list: FreeList<u32> = FreeList::default();
    list.push(10);
    list.push(20);
    list.push(30);
    list.free(1);
    // the slot holds the default value and is free; nothing moves
    assert_eq!(list.as_slice(), &[10, 0, 30]);
    assert_eq!(list.len(), 3);
    assert_eq!(list.greatest_used_index(), 2);
    assert_eq!(list.contains(&20), None);
    assert_eq!(list.contains(&0), None);
    assert_eq!(list.contains(&30), Some(2));
    // the next new value goes to the freed slot
    assert_eq!(list.push(40), 1);
    assert_eq!(list.as_slice(), &[10, 40, 30]);
    assert_eq!(list.push(50), 3);
}

#[test]
fn free_of_only_value_leaves_no_used_index() {
    let mut list: FreeList<u32> = FreeList::default();
    list.push(10);
    list.free(0);
    assert_eq!(list.greatest_used_index(), 0);
    assert_eq!(list.contains(&10), None);
    assert_eq!(list.contains(&0), None);
    assert_eq!(list.len(), 1);
    assert_eq!(list.push(20), 0);
    assert_eq!(list.as_slice(), &[20]);
    assert_eq!(list.len(), 1);
}

#[test]
fn freeing_trailing_value_lowers_greatest_index() {
    let mut list: FreeList<u32> = FreeList::default();
    list.push(5);
    list.push(6);
    list.free(1);
    assert_eq!(list.greatest_used_index(), 0);
    assert_eq!(list.as_slice(), &[5]);
    assert_eq!(list.contains(&6), None);
    assert_eq!(list.contains(&5), Some(0));
    assert_eq!(list.push(7), 1);
    assert_eq!(list.greatest_used_index(), 1);
    assert_eq!(list.as_slice(), &[5, 7]);
}

#[test]
fn freed_slot_is_reused_and_later_slots_keep_their_place() {
    let mut list: FreeList<u32> = FreeList::default();
    list.push(5);
    list.push(6);
    list.free(0);
    assert_eq!(list.greatest_used_index(), 1);
    assert_eq!(list.push(7), 0);
    assert_eq!(list.as_slice(), &[7, 6]);
    assert_eq!(list.contains(&6), Some(1));
    assert_eq!(list.greatest_used_index(), 1);
}

#[test]
fn default_value_in_a_free_slot_is_not_found() {
    let mut list: FreeList<u32> = FreeList::default();
    list.push(5);
    list.push(0);
    list.free(0);
    // slot 0 now holds the default 0 but is free; slot 1 holds 0 in use
    assert_eq!(list.as_slice(), &[0, 0]);
    assert_eq!(list.contains(&0), Some(1));
    assert_eq!(list.push(0), 1);
    // two references on slot 1: one free keeps it
    list.free(1);
    assert_eq!(list.contains(&0), Some(1));
    list.free(1);
    assert_eq!(list.contains(&0), None);
    assert_eq!(list.greatest_used_index(), 0);
    assert_eq!(list.push(9), 0);
    assert_eq!(list.push(8), 1);
    assert_eq!(list.as_slice(), &[9, 8]);
}
