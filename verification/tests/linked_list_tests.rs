use loxrs::linked_list::first::List;
use loxrs::linked_list::LinkedList;

#[test]
fn when_constructing_a_linked_list_then_the_list_is_empty() {
    let list = LinkedList::<i32>::new();
    assert_eq!(list.is_empty(), true);
}

#[test]
fn when_pushing_an_item_then_the_list_is_not_empty() {
    let mut list = LinkedList::<i32>::new();
    list.push(1);
    assert_eq!(list.is_empty(), false);
}

#[test]
fn when_pushing_multiple_items_then_the_list_is_not_empty() {
    let mut list = LinkedList::<i32>::new();
    list.push(1);
    list.push(2);
    list.push(3);
    assert_eq!(list.is_empty(), false);
}

#[test]
fn when_pushing_the_list_grows() {
    let mut list = LinkedList::<i32>::new();
    list.push(1);
    list.push(2);
    list.push(3);
    assert_eq!(list.length, 3);
}

#[test]
fn linked_list_pops_the_most_recent_push_first() {
    let mut list = LinkedList::<i32>::new();
    list.push(1);
    list.push(2);
    assert_eq!(list.pop(), Some(2));
    assert_eq!(list.pop(), Some(1));
    assert_eq!(list.pop(), None);
}

#[test]
fn linked_list_append_goes_to_the_tail() {
    let mut list = LinkedList::<i32>::new();
    list.push(1);
    list.append(2);
    list.append(3);
    assert_eq!(list.pop(), Some(1));
    assert_eq!(list.pop(), Some(2));
    assert_eq!(list.pop(), Some(3));
    assert_eq!(list.pop(), None);
}

#[test]
fn first_list_pushes_and_pops_at_the_head() {
    let mut list = List::new();
    list.push(1);
    list.push(2);
    list.push(3);
    assert_eq!(list.pop(), Some(3));
    assert_eq!(list.pop(), Some(2));
    assert_eq!(list.pop(), Some(1));
    assert_eq!(list.pop(), None);
}
