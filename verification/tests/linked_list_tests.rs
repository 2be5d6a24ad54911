use data_structures::linked_list::LinkedList;

#[test]
fn insert_at_tail_works() {
    let mut list = LinkedList::<i32>::new();
    let sectond_value = 2;
    list.insert_at_tail(1);
    list.insert_at_tail(sectond_value);
    match list.get(1) {
        Some(val) => assert_eq!(*val, sectond_value),
        None => panic!("Expected to find {sectond_value} ast index 1"),
    }
}

#[test]
fn insert_at_head_works() {
    let mut list = LinkedList::<i32>::new();
    let sectond_value = 2;
    list.insert_at_head(1);
    list.insert_at_head(sectond_value);
    match list.get(0) {
        Some(val) => assert_eq!(*val, sectond_value),
        None => panic!("Expected to find {sectond_value} ast index 1"),
    }
}

#[test]
fn insert_at_ith_can_add_to_tail() {
    let mut list = LinkedList::<i32>::new();
    let sectond_value = 2;
    list.insert_at_ith(0, 0);
    list.insert_at_ith(1, sectond_value);
    match list.get(1) {
        Some(val) => assert_eq!(*val, sectond_value),
        None => panic!("Expected to find {sectond_value} ast index 1"),
    }
}

#[test]
fn create_string_list() {
    let mut list_str = LinkedList::<String>::new();
    list_str.insert_at_tail("A".to_string());
    list_str.insert_at_tail("B".to_string());
    assert_eq!(2, list_str.length);
}

#[test]
fn tail_inserts_read_back_in_order() {
    let mut list = LinkedList::<u64>::new();
    for v in 0..50u64 {
        list.insert_at_tail(v * 7);
    }
    assert_eq!(list.length, 50);
    for i in 0..50i32 {
        assert_eq!(list.get(i), Some(&((i as u64) * 7)));
    }
    assert_eq!(list.get(50), None);
    assert_eq!(list.get(-1), None);
}

#[test]
fn head_inserts_stack_at_the_front() {
    let mut list = LinkedList::<i32>::new();
    for v in [4, 8, 15, 16, 23, 42] {
        list.insert_at_head(v);
        assert_eq!(list.get(0), Some(&v));
    }
    assert_eq!(list.length, 6);
    assert_eq!(list.get(5), Some(&4));
}

#[test]
fn ith_insert_shifts_the_occupant() {
    let mut list = LinkedList::<i32>::new();
    list.insert_at_tail(10);
    list.insert_at_tail(30);
    list.insert_at_ith(1, 20);
    assert_eq!(list.get(0), Some(&10));
    assert_eq!(list.get(1), Some(&20));
    assert_eq!(list.get(2), Some(&30));
    assert_eq!(list.length, 3);
}

#[test]
fn ith_delete_returns_the_occupant() {
    let mut list = LinkedList::<i32>::new();
    for v in [10, 20, 30, 40] {
        list.insert_at_tail(v);
    }
    assert_eq!(list.delete_ith(1), Some(20));
    assert_eq!(list.get(0), Some(&10));
    assert_eq!(list.get(1), Some(&30));
    assert_eq!(list.get(2), Some(&40));
    assert_eq!(list.length, 3);
    assert_eq!(list.delete_ith(3), Some(40));
    assert_eq!(list.length, 2);
    assert_eq!(list.delete_ith(1), Some(30));
    assert_eq!(list.delete_ith(0), Some(10));
    assert_eq!(list.delete_ith(0), None);
    assert_eq!(list.length, 0);
}

#[test]
fn deletes_on_empty_list_return_nothing() {
    let mut list = LinkedList::<i32>::new();
    assert_eq!(list.delete_head(), None);
    assert_eq!(list.deleted_tail(), None);
    assert_eq!(list.delete_ith(0), None);
    assert_eq!(list.length, 0);
}

#[test]
fn tail_insert_then_head_delete_round_trip() {
    let mut list = LinkedList::<i32>::new();
    list.insert_at_tail(99);
    assert_eq!(list.delete_head(), Some(99));
    assert_eq!(list.length, 0);
    assert_eq!(list.delete_head(), None);
}

#[test]
fn delete_tail_returns_last_value() {
    let mut list = LinkedList::<i32>::new();
    list.push_back(1);
    list.push_back(2);
    list.push_back(3);
    assert_eq!(list.deleted_tail(), Some(3));
    assert_eq!(list.deleted_tail(), Some(2));
    assert_eq!(list.length, 1);
    assert_eq!(list.get(0), Some(&1));
}

#[test]
fn cursor_walks_the_list() {
    let mut list = LinkedList::<i32>::new();
    list.insert_at_tail(5);
    list.insert_at_tail(6);
    list.insert_at_tail(7);
    list.reset();
    assert_eq!(list.next(), Some(&5));
    assert_eq!(list.next(), Some(&6));
    assert_eq!(list.next(), Some(&7));
    assert_eq!(list.next(), None);
    list.reset();
    assert_eq!(list.next(), Some(&5));
}

#[test]
fn inserts_leave_the_cursor_on_the_new_node() {
    let mut list = LinkedList::<i32>::default();
    list.insert_at_tail(1);
    list.insert_at_tail(2);
    // The cursor stands on the node the last insert made.
    assert_eq!(list.next(), Some(&2));
    assert_eq!(list.next(), None);
    list.insert_at_head(0);
    assert_eq!(list.next(), Some(&0));
    assert_eq!(list.next(), Some(&1));
}

#[test]
fn repeated_build_and_teardown_releases_every_node() {
    for _ in 0..4 {
        let mut list = LinkedList::<u64>::new();
        for v in 0..100000u64 {
            list.insert_at_tail(v);
        }
        assert_eq!(list.length, 100000);
        list.clear();
        assert_eq!(list.length, 0);
        list.clear();
        assert_eq!(list.length, 0);
    }
}
