use coremark::list::LinkedList;

#[test]
fn test_list_push_front() {
    let mut list = LinkedList::new();
    list.push_front(10);
    list.push_front(20);

    assert_eq!(list.size(), 2);
    assert_eq!(list.pop_front(), Some(20));
    assert_eq!(list.pop_front(), Some(10));
}

#[test]
fn test_list_find() {
    let mut list = LinkedList::new();
    list.push_front(10);
    list.push_front(20);

    let found = list.find(|&x| x == 10);
    assert!(found.is_some());
    assert_eq!(*found.unwrap(), 10);
}

#[test]
fn test_list_reverse() {
    let mut list = LinkedList::new();
    list.push_front(10);
    list.push_front(20);
    list.push_front(30);

    list.reverse();

    assert_eq!(list.pop_front(), Some(10));
    assert_eq!(list.pop_front(), Some(20));
    assert_eq!(list.pop_front(), Some(30));
}

#[test]
fn test_insert_after() {
    let mut list = LinkedList::new();
    list.push_front(10);
    list.push_front(20);

    assert!(list.insert_after(&20, 15));
    assert_eq!(list.pop_front(), Some(20));
    assert_eq!(list.pop_front(), Some(15));
    assert_eq!(list.pop_front(), Some(10));
}

#[test]
fn test_remove_after() {
    let mut list = LinkedList::new();
    list.push_front(10);
    list.push_front(20);
    list.push_front(30);

    assert_eq!(list.remove_after(&30), Some(20));
    assert_eq!(list.pop_front(), Some(30));
    assert_eq!(list.pop_front(), Some(10));
}

#[test]
fn test_pop_empty() {
    let mut list: LinkedList<i16> = LinkedList::new();
    assert_eq!(list.pop_front(), None);
    assert_eq!(list.size(), 0);
}

#[test]
fn test_insert_after_missing() {
    let mut list = LinkedList::new();
    list.push_front(1);
    assert!(!list.insert_after(&7, 9));
    assert_eq!(list.size(), 1);
}

#[test]
fn test_remove_after_last() {
    // the needle is the last element, so there is nothing after it to remove
    let mut list = LinkedList::new();
    list.push_front(2);
    list.push_front(1);
    assert_eq!(list.remove_after(&2), None);
    assert_eq!(list.size(), 2);
}

#[test]
fn test_mergesort() {
    let mut list = LinkedList::new();
    list.push_front(5);
    list.push_front(2);
    list.push_front(8);
    list.push_front(3);
    list.push_front(7);

    list.mergesort(&|a: &i32, b: &i32| a.cmp(b));

    let mut sorted_values = vec![];
    while let Some(value) = list.pop_front() {
        sorted_values.push(value);
    }

    assert_eq!(sorted_values, vec![2, 3, 5, 7, 8]);
}

#[test]
fn test_mergesort_with_duplicates() {
    let mut list = LinkedList::new();
    for v in [4, 1, 4, 0, 2, 2] {
        list.push_front(v);
    }
    list.mergesort(&|a: &i32, b: &i32| a.cmp(b));
    let mut out = vec![];
    while let Some(value) = list.pop_front() {
        out.push(value);
    }
    assert_eq!(out, vec![0, 1, 2, 2, 4, 4]);
}
