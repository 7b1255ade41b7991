use kernelkit::regex::heap::{B4096, GuardDisabled};
use kernelkit::regex::list::Collection;
use kernelkit::regex::pages::Naive64Pages;

fn new_collection(allocator: &mut Naive64Pages) -> Collection<B4096, GuardDisabled> {
    Collection::new(allocator).unwrap()
}

#[test]
fn handles_empty_data_structure() {
    let mut allocator = Naive64Pages::new();
    let collection = new_collection(&mut allocator);

    assert_eq!(collection.list_count(), 0);
}

#[test]
fn handles_adding_new_list() {
    let mut allocator = Naive64Pages::new();
    let mut collection = new_collection(&mut allocator);

    let idx = collection.list_push_head();
    assert_eq!(idx, 0);

    assert_eq!(collection.list_count(), 1);
    assert_eq!(collection.list_items_count(idx), 0);

    assert_eq!(collection.list_next(idx), idx);
    assert_eq!(collection.list_prev(idx), idx);
}

#[test]
fn handles_list_traversal() {
    let mut allocator = Naive64Pages::new();
    let mut collection = new_collection(&mut allocator);

    let idx1 = collection.list_push_head();
    let idx2 = collection.list_push_head();
    let idx3 = collection.list_push_head();

    assert_eq!(collection.list_next(idx1), idx2);
    assert_eq!(collection.list_next(idx2), idx3);
    assert_eq!(collection.list_next(idx3), idx1);

    assert_eq!(collection.list_prev(idx1), idx3);
    assert_eq!(collection.list_prev(idx3), idx2);
    assert_eq!(collection.list_prev(idx2), idx1);
}

#[test]
fn handles_adding_item_to_the_list() {
    let mut allocator = Naive64Pages::new();
    let mut collection = new_collection(&mut allocator);
    let idx = collection.list_push_head();

    collection.list_items_add(idx, 13);
    collection.list_items_add(idx, 17);

    assert_eq!(collection.list_items_count(idx), 2);
    assert_eq!(collection.list_items_get(idx, 0), 13);
    assert_eq!(collection.list_items_get(idx, 1), 17);
}

#[test]
fn handles_resizing_list() {
    let mut allocator = Naive64Pages::new();
    let mut collection = new_collection(&mut allocator);
    let idx = collection.list_push_head();

    collection.list_items_resize(idx, 2);
    assert_eq!(collection.list_items_count(idx), 2);
}

#[test]
fn handles_setting_item_in_the_list() {
    let mut allocator = Naive64Pages::new();
    let mut collection = new_collection(&mut allocator);
    let idx = collection.list_push_head();

    collection.list_items_resize(idx, 2);
    collection.list_items_set(idx, 0, 13);
    collection.list_items_set(idx, 1, 17);

    assert_eq!(collection.list_items_get(idx, 0), 13);
    assert_eq!(collection.list_items_get(idx, 1), 17);
}

#[test]
fn handles_removing_existing_list_from_the_head() {
    let mut allocator = Naive64Pages::new();
    let mut collection = new_collection(&mut allocator);
    let idx1 = collection.list_push_head();

    collection.list_items_add(idx1, 13);
    collection.list_items_add(idx1, 17);
    assert_eq!(collection.list_items_count(idx1), 2);

    let idx2 = collection.list_push_head();
    collection.list_items_add(idx2, 23);
    assert_eq!(collection.list_items_get(idx2, 0), 23);

    let idx3 = collection.list_pop_head();
    assert_eq!(idx3, idx1);
    assert_eq!(collection.list_items_get(idx3, 0), 13);
    assert_eq!(collection.list_items_get(idx3, 1), 17);

    assert_eq!(collection.list_prev(idx1), idx1);
    assert_eq!(collection.list_next(idx1), idx1);
}

#[test]
fn handles_removing_last_list_from_the_head() {
    let mut allocator = Naive64Pages::new();
    let mut collection = new_collection(&mut allocator);
    let idx1 = collection.list_push_head();

    collection.list_items_add(idx1, 13);
    collection.list_items_add(idx1, 17);
    assert_eq!(collection.list_items_count(idx1), 2);

    let idx2 = collection.list_push_head();
    collection.list_items_add(idx2, 23);
    assert_eq!(collection.list_items_get(idx2, 0), 23);

    let idx3 = collection.list_pop_head();
    assert_eq!(idx3, idx1);
    assert_eq!(collection.list_items_get(idx3, 0), 13);
    assert_eq!(collection.list_items_get(idx3, 1), 17);

    assert_eq!(collection.list_prev(idx1), idx1);
    assert_eq!(collection.list_next(idx1), idx1);

    let idx4 = collection.list_pop_head();
    assert_eq!(idx4, 0);
    assert_eq!(collection.list_count(), 0);

    assert_eq!(collection.head(), 0);
    assert_eq!(collection.tail(), 0);
}

#[test]
fn handles_removing_existing_list_from_the_tail() {
    let mut allocator = Naive64Pages::new();
    let mut collection = new_collection(&mut allocator);
    let idx1 = collection.list_push_head();

    collection.list_items_add(idx1, 13);
    collection.list_items_add(idx1, 17);
    assert_eq!(collection.list_items_count(idx1), 2);

    let idx2 = collection.list_push_head();
    collection.list_items_add(idx2, 23);
    assert_eq!(collection.list_items_get(idx2, 0), 23);

    let idx3 = collection.list_pop_tail();
    assert_eq!(idx3, idx2);
    assert_eq!(collection.list_items_get(idx3, 0), 23);

    assert_eq!(collection.list_prev(idx2), idx2);
    assert_eq!(collection.list_next(idx2), idx2);
}

#[test]
fn handles_removing_last_list_from_the_tail() {
    let mut allocator = Naive64Pages::new();
    let mut collection = new_collection(&mut allocator);
    let idx1 = collection.list_push_head();

    collection.list_items_add(idx1, 13);
    collection.list_items_add(idx1, 17);
    assert_eq!(collection.list_items_count(idx1), 2);

    let idx2 = collection.list_push_head();
    collection.list_items_add(idx2, 23);
    assert_eq!(collection.list_items_get(idx2, 0), 23);

    let idx3 = collection.list_pop_tail();
    assert_eq!(idx3, idx2);
    assert_eq!(collection.list_items_get(idx3, 0), 23);

    assert_eq!(collection.list_prev(idx2), idx2);
    assert_eq!(collection.list_next(idx2), idx2);

    let idx4 = collection.list_pop_tail();
    assert_eq!(idx4, 0);
    assert_eq!(collection.list_count(), 0);

    assert_eq!(collection.head(), 0);
    assert_eq!(collection.tail(), 0);
}

#[test]
fn handles_sorting_of_an_empty_list() {
    let mut allocator = Naive64Pages::new();
    let mut collection = new_collection(&mut allocator);
    let idx = collection.list_push_head();

    collection.list_items_sort(idx);
    assert_eq!(collection.list_items_count(idx), 0);
}

#[test]
fn handles_sorting_of_single_item_list() {
    let mut allocator = Naive64Pages::new();
    let mut collection = new_collection(&mut allocator);
    let idx = collection.list_push_head();

    collection.list_items_add(idx, 13);
    collection.list_items_sort(idx);

    assert_eq!(collection.list_items_count(idx), 1);
    assert_eq!(collection.list_items_get(idx, 0), 13);
}

#[test]
fn handles_sorting_of_four_item_list() {
    let mut allocator = Naive64Pages::new();
    let mut collection = new_collection(&mut allocator);
    let idx = collection.list_push_head();

    collection.list_items_add(idx, 13);
    collection.list_items_add(idx, 31);
    collection.list_items_add(idx, 29);
    collection.list_items_add(idx, 17);

    collection.list_items_sort(idx);
    assert_eq!(collection.list_items_count(idx), 4);

    assert_eq!(collection.list_items_get(idx, 0), 13);
    assert_eq!(collection.list_items_get(idx, 1), 17);
    assert_eq!(collection.list_items_get(idx, 2), 29);
    assert_eq!(collection.list_items_get(idx, 3), 31);
}

#[test]
fn handles_distinct_of_an_empty_list() {
    let mut allocator = Naive64Pages::new();
    let mut collection = new_collection(&mut allocator);
    let idx = collection.list_push_head();

    collection.list_items_distinct(idx);
    assert_eq!(collection.list_items_count(idx), 0);
}

#[test]
fn handles_distinct_of_single_item_list() {
    let mut allocator = Naive64Pages::new();
    let mut collection = new_collection(&mut allocator);
    let idx = collection.list_push_head();

    collection.list_items_add(idx, 13);
    collection.list_items_distinct(idx);

    assert_eq!(collection.list_items_count(idx), 1);
    assert_eq!(collection.list_items_get(idx, 0), 13);
}

#[test]
fn handles_distinct_of_list_with_zero() {
    let mut allocator = Naive64Pages::new();
    let mut collection = new_collection(&mut allocator);
    let idx = collection.list_push_head();

    collection.list_items_add(idx, 0);
    collection.list_items_add(idx, 13);
    collection.list_items_distinct(idx);

    assert_eq!(collection.list_items_count(idx), 1);
    assert_eq!(collection.list_items_get(idx, 0), 13);
}

#[test]
fn handles_distinct_of_list_with_zero_only() {
    let mut allocator = Naive64Pages::new();
    let mut collection = new_collection(&mut allocator);
    let idx = collection.list_push_head();

    collection.list_items_add(idx, 0);
    collection.list_items_distinct(idx);

    assert_eq!(collection.list_items_count(idx), 0);
}

#[test]
fn handles_distinct_of_list_with_zero_only_multiple() {
    let mut allocator = Naive64Pages::new();
    let mut collection = new_collection(&mut allocator);
    let idx = collection.list_push_head();

    collection.list_items_add(idx, 0);
    collection.list_items_add(idx, 0);
    collection.list_items_distinct(idx);

    assert_eq!(collection.list_items_count(idx), 0);
}

#[test]
fn handles_distinct_of_six_item_list() {
    let mut allocator = Naive64Pages::new();
    let mut collection = new_collection(&mut allocator);
    let idx = collection.list_push_head();

    collection.list_items_add(idx, 13);
    collection.list_items_add(idx, 31);
    collection.list_items_add(idx, 29);
    collection.list_items_add(idx, 17);
    collection.list_items_add(idx, 29);
    collection.list_items_add(idx, 13);

    collection.list_items_sort(idx);
    assert_eq!(collection.list_items_count(idx), 6);

    collection.list_items_distinct(idx);
    assert_eq!(collection.list_items_count(idx), 4);

    assert_eq!(collection.list_items_get(idx, 0), 13);
    assert_eq!(collection.list_items_get(idx, 1), 17);
    assert_eq!(collection.list_items_get(idx, 2), 29);
    assert_eq!(collection.list_items_get(idx, 3), 31);
}

#[test]
fn handles_finding_item_in_an_empty_list() {
    let mut allocator = Naive64Pages::new();
    let mut collection = new_collection(&mut allocator);
    let idx = collection.list_push_head();

    assert_eq!(collection.list_items_contains(idx, 13, 0), false);
}

#[test]
fn handles_finding_existing_item_in_the_list() {
    let mut allocator = Naive64Pages::new();
    let mut collection = new_collection(&mut allocator);
    let idx = collection.list_push_head();

    collection.list_items_add(idx, 13);
    collection.list_items_add(idx, 17);
    collection.list_items_add(idx, 29);
    collection.list_items_add(idx, 31);

    assert_eq!(collection.list_items_contains(idx, 13, 4), true);
    assert_eq!(collection.list_items_contains(idx, 17, 4), true);
    assert_eq!(collection.list_items_contains(idx, 29, 4), true);
    assert_eq!(collection.list_items_contains(idx, 31, 4), true);
}

#[test]
fn handles_finding_non_existing_item_in_the_list() {
    let mut allocator = Naive64Pages::new();
    let mut collection = new_collection(&mut allocator);
    let idx = collection.list_push_head();

    collection.list_items_add(idx, 13);
    collection.list_items_add(idx, 17);
    collection.list_items_add(idx, 29);
    collection.list_items_add(idx, 31);

    assert_eq!(collection.list_items_contains(idx, 14, 4), false);
    assert_eq!(collection.list_items_contains(idx, 21, 4), false);
    assert_eq!(collection.list_items_contains(idx, 27, 4), false);
    assert_eq!(collection.list_items_contains(idx, 33, 4), false);
}

#[test]
fn handles_hashing_of_an_empty_list() {
    let mut allocator = Naive64Pages::new();
    let mut collection = new_collection(&mut allocator);
    let idx = collection.list_push_head();

    collection.list_items_hash(idx);
    assert_eq!(collection.list_hash(idx), 0xa793u16);
}

#[test]
fn handles_hashing_of_four_item_list() {
    let mut allocator = Naive64Pages::new();
    let mut collection = new_collection(&mut allocator);
    let idx1 = collection.list_push_head();

    collection.list_items_add(idx1, 13);
    collection.list_items_add(idx1, 31);
    collection.list_items_add(idx1, 29);
    collection.list_items_add(idx1, 17);

    collection.list_items_hash(idx1);
    assert_ne!(collection.list_hash(idx1), 0);

    let idx2 = collection.list_push_head();

    collection.list_items_add(idx2, 13);
    collection.list_items_add(idx2, 31);
    collection.list_items_add(idx2, 29);
    collection.list_items_add(idx2, 17);

    collection.list_items_hash(idx2);
    assert_ne!(collection.list_hash(idx2), 0);

    assert_eq!(collection.list_hash(idx1), collection.list_hash(idx2));
}

#[test]
fn handles_adding_new_set() {
    let mut allocator = Naive64Pages::new();
    let mut collection = new_collection(&mut allocator);
    let idx = collection.set_push_head(8);

    assert_eq!(idx, 0);
    assert_eq!(collection.set_depth(), 1);
    assert_eq!(collection.set_count(), 0);
    assert_eq!(collection.set_capacity(), 8);
}

#[test]
fn handles_adding_a_list_to_an_empty_set() {
    let mut allocator = Naive64Pages::new();
    let mut collection = new_collection(&mut allocator);

    let idx1 = collection.set_push_head(8);
    let idx2 = collection.list_push_head();

    collection.list_items_add(idx2, 13);
    collection.list_items_add(idx2, 17);
    collection.list_items_add(idx2, 29);
    collection.list_items_add(idx2, 31);

    collection.list_items_hash(idx2);
    collection.set_items_add(idx1, idx2);

    assert_eq!(collection.set_depth(), 1);
    assert_eq!(collection.set_count(), 1);
    assert_eq!(collection.set_capacity(), 8);
}

#[test]
fn handles_finding_existing_element_in_the_set() {
    let mut allocator = Naive64Pages::new();
    let mut collection = new_collection(&mut allocator);

    let idx1 = collection.set_push_head(8);
    let idx2 = collection.list_push_head();

    collection.list_items_add(idx2, 13);
    collection.list_items_add(idx2, 17);
    collection.list_items_add(idx2, 29);
    collection.list_items_add(idx2, 31);

    collection.list_items_hash(idx2);
    collection.set_items_add(idx1, idx2);

    let idx3 = collection.list_push_head();

    collection.list_items_add(idx3, 13);
    collection.list_items_add(idx3, 17);
    collection.list_items_add(idx3, 29);
    collection.list_items_add(idx3, 31);
    collection.list_items_hash(idx3);

    let idx4 = collection.set_items_find(idx1, idx3, 4);
    assert_eq!(idx4, idx2);
    assert_ne!(idx4, idx3);
}

#[test]
fn handles_finding_non_existing_element_in_the_set() {
    let mut allocator = Naive64Pages::new();
    let mut collection = new_collection(&mut allocator);

    let idx1 = collection.set_push_head(8);
    let idx2 = collection.list_push_head();

    collection.list_items_add(idx2, 13);
    collection.list_items_add(idx2, 17);
    collection.list_items_add(idx2, 29);
    collection.list_items_add(idx2, 31);

    collection.list_items_hash(idx2);
    collection.set_items_add(idx1, idx2);

    let idx3 = collection.list_push_head();

    collection.list_items_add(idx3, 13);
    collection.list_items_add(idx3, 17);
    collection.list_items_add(idx3, 29);
    collection.list_items_add(idx3, 37);
    collection.list_items_hash(idx3);

    let idx4 = collection.set_items_find(idx1, idx3, 4);
    assert_eq!(idx4, 0);
    assert_ne!(idx4, idx3);
}

#[test]
fn handles_finding_bunch_of_items_in_the_set() {
    let mut allocator = Naive64Pages::new();
    let mut collection = new_collection(&mut allocator);

    let idx = collection.set_push_head(8);
    let mut lists = [0; 16];

    for i in 0..lists.len() {
        lists[i] = collection.list_push_head();

        for j in 0..i + 1 {
            collection.list_items_add(lists[i], j as u16);
        }

        collection.list_items_hash(lists[i]);
        collection.set_items_add(idx, lists[i]);
    }

    for i in 0..lists.len() {
        assert_ne!(collection.set_items_find(idx, lists[i], i as u16 + 1), 0);
    }

    assert_eq!(collection.set_depth(), 4);
    assert_eq!(collection.set_count(), 16);
    assert_eq!(collection.set_capacity(), 120);
}
