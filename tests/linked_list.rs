use exercises::linked_list::LinkedList;

fn list_of(values: &[i32]) -> LinkedList<i32> {
    let mut list = LinkedList::<i32>::new();
    for v in values {
        list.add(*v);
    }
    list
}

#[test]
fn create_numeric_list() {
    let mut list = LinkedList::<i32>::new();
    list.add(1);
    list.add(2);
    list.add(3);
    assert_eq!(3, list.length());
}

#[test]
fn create_string_list() {
    let mut list_str = LinkedList::<String>::new();
    list_str.add("A".to_string());
    list_str.add("B".to_string());
    list_str.add("C".to_string());
    assert_eq!(3, list_str.length());
    assert_eq!(Some(&"B".to_string()), list_str.get(1));
}

#[test]
fn test_reverse_linked_list_1() {
    let mut list = LinkedList::<i32>::new();
    let original_vec = vec![2, 3, 5, 11, 9, 7];
    let reverse_vec = vec![7, 9, 11, 5, 3, 2];
    for i in 0..original_vec.len() {
        list.add(original_vec[i]);
    }
    list.reverse();
    for i in 0..original_vec.len() {
        assert_eq!(reverse_vec[i], *list.get(i as i32).unwrap());
    }
    assert_eq!(list.to_vec(), reverse_vec);
}

#[test]
fn test_reverse_linked_list_2() {
    let mut list = LinkedList::<i32>::new();
    let original_vec = vec![34, 56, 78, 25, 90, 10, 19, 34, 21, 45];
    let reverse_vec = vec![45, 21, 34, 19, 10, 90, 25, 78, 56, 34];
    for i in 0..original_vec.len() {
        list.add(original_vec[i]);
    }
    list.reverse();
    for i in 0..original_vec.len() {
        assert_eq!(reverse_vec[i], *list.get(i as i32).unwrap());
    }
    assert_eq!(list.to_vec(), reverse_vec);
}

#[test]
fn get_returns_values_in_append_order() {
    let values = [4, -1, 7, 7, 0];
    let list = list_of(&values);
    assert_eq!(list.length(), 5);
    for (i, v) in values.iter().enumerate() {
        assert_eq!(list.get(i as i32), Some(v));
    }
}

#[test]
fn get_out_of_range_is_none() {
    let list = list_of(&[1, 2, 3]);
    assert_eq!(list.get(5), None);
    assert_eq!(list.get(-1), None);
    assert_eq!(list.get(3), None);
    assert_eq!(list.get(i32::MIN), None);
    assert_eq!(list.get(i32::MAX), None);
}

#[test]
fn empty_list() {
    let mut list = LinkedList::<i32>::new();
    assert_eq!(list.length(), 0);
    assert_eq!(list.get(0), None);
    list.reverse();
    assert_eq!(list.length(), 0);
    assert_eq!(list.get(0), None);
    assert!(list.to_vec().is_empty());
    assert!(list.to_vec_backward().is_empty());
}

#[test]
fn single_element_reverse() {
    let mut list = LinkedList::<&str>::new();
    list.add("A");
    list.reverse();
    assert_eq!(list.length(), 1);
    assert_eq!(list.get(0), Some(&"A"));
    assert_eq!(list.get(1), None);
}

#[test]
fn reverse_twice_restores_order() {
    let values = [5, 1, 4, 2, 3];
    let mut list = list_of(&values);
    list.reverse();
    list.reverse();
    assert_eq!(list.to_vec(), values.to_vec());
}

#[test]
fn reverse_maps_index_to_mirror() {
    let values = [10, 20, 30, 40];
    let mut list = list_of(&values);
    list.reverse();
    for i in 0..values.len() {
        assert_eq!(*list.get(i as i32).unwrap(), values[values.len() - 1 - i]);
    }
}

#[test]
fn forward_and_backward_walks_agree() {
    let mut list = list_of(&[1, 2, 3, 4]);
    assert_eq!(list.to_vec(), vec![1, 2, 3, 4]);
    assert_eq!(list.to_vec_backward(), vec![4, 3, 2, 1]);
    list.reverse();
    assert_eq!(list.to_vec(), vec![4, 3, 2, 1]);
    assert_eq!(list.to_vec_backward(), vec![1, 2, 3, 4]);
    list.add(9);
    assert_eq!(list.to_vec(), vec![4, 3, 2, 1, 9]);
    assert_eq!(list.to_vec_backward(), vec![9, 1, 2, 3, 4]);
    list.reverse();
    assert_eq!(list.to_vec(), vec![9, 1, 2, 3, 4]);
    assert_eq!(list.to_vec_backward(), vec![4, 3, 2, 1, 9]);
}

#[test]
fn default_list_is_empty() {
    let list: LinkedList<u8> = LinkedList::default();
    assert_eq!(list.length(), 0);
    assert_eq!(list.get(0), None);
}
