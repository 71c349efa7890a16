use linked_list::linked_list::LinkedList;

#[test]
fn three_head_inserts_render_reversed() {
    let mut list = LinkedList::<i64>::new();
    list.insert_at_head(10);
    list.insert_at_head(20);
    list.insert_at_head(30);
    assert_eq!(list.render(), "[30, 20, 10]");
    assert_eq!(list.length, 3);
    assert_eq!(list.len(), 3);
}

#[test]
fn tail_inserts_append_in_order() {
    let mut list = LinkedList::<i64>::new();
    list.insert_at_head(10);
    list.insert_at_head(20);
    list.insert_at_head(30);
    list.insert_at_tail(40);
    list.insert_at_tail(50);
    list.insert_at_tail(60);
    assert_eq!(list.render(), "[30, 20, 10, 40, 50, 60]");
    assert_eq!(list.length, 6);
}

#[test]
fn positional_insert_splices_before_position() {
    let mut list = LinkedList::<i64>::new();
    for v in [10, 20, 30] {
        list.insert_at_head(v);
    }
    for v in [40, 50, 60] {
        list.insert_at_tail(v);
    }
    list.insert_at_ith(4, 1);
    assert_eq!(list.render(), "[30, 20, 10, 40, 1, 50, 60]");
    assert_eq!(list.length, 7);
}

#[test]
fn demo_sequence_of_deletes() {
    let mut list = LinkedList::<i64>::new();
    for v in [10, 20, 30] {
        list.insert_at_head(v);
    }
    for v in [40, 50, 60] {
        list.insert_at_tail(v);
    }
    list.insert_at_ith(4, 1);
    assert_eq!(list.delete_head(), Some(30));
    assert_eq!(list.render(), "[20, 10, 40, 1, 50, 60]");
    assert_eq!(list.delete_tail(), Some(60));
    assert_eq!(list.render(), "[20, 10, 40, 1, 50]");
    assert_eq!(list.delete_ith(3), Some(1));
    assert_eq!(list.render(), "[20, 10, 40, 50]");
    assert_eq!(list.length, 4);
}

#[test]
fn deletes_on_empty_list_return_none() {
    let mut list = LinkedList::<i64>::new();
    assert_eq!(list.delete_head(), None);
    assert_eq!(list.length, 0);
    assert_eq!(list.delete_tail(), None);
    assert_eq!(list.length, 0);
    assert_eq!(list.delete_ith(0), None);
    assert_eq!(list.length, 0);
}

#[test]
fn insert_head_then_delete_head_restores_list() {
    let mut list = LinkedList::<i64>::new();
    list.insert_at_tail(7);
    list.insert_at_tail(8);
    let before = list.render();
    let before_len = list.length;
    list.insert_at_head(99);
    assert_eq!(list.delete_head(), Some(99));
    assert_eq!(list.render(), before);
    assert_eq!(list.length, before_len);
}

#[test]
fn insert_tail_then_delete_tail_restores_list() {
    let mut list = LinkedList::<i64>::new();
    list.insert_at_tail(7);
    list.insert_at_tail(8);
    let before = list.render();
    let before_len = list.length;
    list.insert_at_tail(99);
    assert_eq!(list.delete_tail(), Some(99));
    assert_eq!(list.render(), before);
    assert_eq!(list.length, before_len);
}

#[test]
fn get_returns_value_at_each_position() {
    let mut list = LinkedList::<i64>::new();
    list.insert_at_tail(5);
    list.insert_at_tail(6);
    list.insert_at_tail(7);
    assert_eq!(list.get(0), Some(&5));
    assert_eq!(list.get(1), Some(&6));
    assert_eq!(list.get(2), Some(&7));
}

#[test]
fn get_out_of_range_is_none() {
    let mut list = LinkedList::<i64>::new();
    list.insert_at_tail(5);
    list.insert_at_tail(6);
    assert_eq!(list.get(-1), None);
    assert_eq!(list.get(-100), None);
    assert_eq!(list.get(2), None);
    assert_eq!(list.get(1000), None);
    let empty = LinkedList::<i64>::new();
    assert_eq!(empty.get(0), None);
}

#[test]
fn length_tracks_successful_inserts_minus_deletes() {
    let mut list = LinkedList::<i64>::new();
    assert_eq!(list.delete_head(), None); // unsuccessful delete: length stays 0
    list.insert_at_head(1); // +1
    list.insert_at_tail(2); // +1
    list.insert_at_ith(1, 3); // +1
    assert_eq!(list.delete_tail(), Some(2)); // -1
    assert_eq!(list.delete_head(), Some(1)); // -1
    assert_eq!(list.delete_tail(), Some(3)); // -1
    assert_eq!(list.delete_tail(), None); // unsuccessful
    assert_eq!(list.length, 0); // 3 inserts - 3 successful deletes
    list.insert_at_tail(4); // +1
    assert_eq!(list.length, 1);
}

#[test]
fn delete_ith_at_length_removes_tail() {
    let mut list = LinkedList::<i64>::new();
    list.insert_at_tail(1);
    list.insert_at_tail(2);
    list.insert_at_tail(3);
    // index == length delegates to the tail delete
    assert_eq!(list.delete_ith(3), Some(3));
    assert_eq!(list.render(), "[1, 2]");
}

#[test]
fn delete_ith_at_zero_removes_head() {
    let mut list = LinkedList::<i64>::new();
    list.insert_at_tail(1);
    list.insert_at_tail(2);
    assert_eq!(list.delete_ith(0), Some(1));
    assert_eq!(list.render(), "[2]");
}

#[test]
fn insert_at_ith_at_ends_matches_head_and_tail() {
    let mut list = LinkedList::<i64>::new();
    list.insert_at_ith(0, 2);
    list.insert_at_ith(0, 1);
    list.insert_at_ith(2, 3);
    assert_eq!(list.render(), "[1, 2, 3]");
}

#[test]
fn empty_list_renders_as_empty_text() {
    let list = LinkedList::<i64>::new();
    assert_eq!(list.render(), "");
    let by_default: LinkedList<i64> = Default::default();
    assert_eq!(by_default.render(), "");
    assert_eq!(by_default.length, 0);
}

#[test]
fn single_value_renders_without_separator() {
    let mut list = LinkedList::<i64>::new();
    list.insert_at_head(42);
    assert_eq!(list.render(), "[42]");
}

#[test]
fn negative_values_render_with_minus_sign() {
    let mut list = LinkedList::<i64>::new();
    list.insert_at_tail(-5);
    list.insert_at_tail(0);
    list.insert_at_tail(i64::MIN);
    assert_eq!(list.render(), "[-5, 0, -9223372036854775808]");
}

#[test]
fn number_texts_have_exact_digits() {
    assert_eq!(linked_list::render::u64_string(0), "0");
    assert_eq!(linked_list::render::u64_string(12345), "12345");
    assert_eq!(linked_list::render::u64_string(u64::MAX), "18446744073709551615");
    assert_eq!(linked_list::render::i64_string(-987), "-987");
    assert_eq!(linked_list::render::i64_string(i64::MAX), "9223372036854775807");
}

#[test]
fn many_interleaved_operations_keep_order() {
    let mut list = LinkedList::<i64>::new();
    for v in 0..20 {
        if v % 2 == 0 {
            list.insert_at_tail(v);
        } else {
            list.insert_at_head(v);
        }
    }
    assert_eq!(list.length, 20);
    // heads hold odd values descending, tails hold even values ascending
    assert_eq!(
        list.render(),
        "[19, 17, 15, 13, 11, 9, 7, 5, 3, 1, 0, 2, 4, 6, 8, 10, 12, 14, 16, 18]"
    );
    for _ in 0..10 {
        list.delete_ith(5);
    }
    assert_eq!(list.length, 10);
    for _ in 0..10 {
        assert!(list.delete_head().is_some());
    }
    assert_eq!(list.length, 0);
    assert_eq!(list.render(), "");
}

#[test]
fn generic_element_type_works() {
    let mut list = LinkedList::<String>::new();
    list.insert_at_tail(String::from("a"));
    list.insert_at_head(String::from("b"));
    assert_eq!(list.get(0), Some(&String::from("b")));
    assert_eq!(list.delete_tail(), Some(String::from("a")));
    assert_eq!(list.length, 1);
}
