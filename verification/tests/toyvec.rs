use bitonic_sorter::toyvec::ToyVec;

#[test]
fn new_vector_is_empty() {
    let v: ToyVec<u32> = ToyVec::new();
    assert_eq!(v.len(), 0);
    assert_eq!(v.capacity(), 0);
    assert_eq!(v.get(0), None);
}

#[test]
fn with_capacity_reserves_room() {
    let v: ToyVec<String> = ToyVec::with_capacity(5);
    assert_eq!(v.len(), 0);
    assert_eq!(v.capacity(), 5);
    assert_eq!(v.get(0), None);
}

#[test]
fn push_then_get() {
    let mut v = ToyVec::new();
    v.push("Java Finch".to_string());
    v.push("Budgerigar".to_string());
    assert_eq!(v.len(), 2);
    assert_eq!(v.get(0), Some(&"Java Finch".to_string()));
    assert_eq!(v.get(1), Some(&"Budgerigar".to_string()));
    assert_eq!(v.get(2), None);
}

#[test]
fn capacity_doubles_when_full() {
    let mut v: ToyVec<u32> = ToyVec::new();
    let mut capacities = Vec::new();
    for i in 0..9 {
        v.push(i);
        capacities.push(v.capacity());
    }
    assert_eq!(capacities, vec![1, 2, 4, 4, 8, 8, 8, 8, 16]);
    assert_eq!(v.len(), 9);
    for i in 0..9 {
        assert_eq!(v.get(i), Some(&(i as u32)));
    }
}

#[test]
fn push_within_capacity_keeps_the_storage() {
    let mut v: ToyVec<u32> = ToyVec::with_capacity(3);
    v.push(1);
    v.push(2);
    v.push(3);
    assert_eq!(v.capacity(), 3);
    v.push(4);
    assert_eq!(v.capacity(), 6);
    assert_eq!(v.len(), 4);
    assert_eq!(v.get(3), Some(&4));
    assert_eq!(v.get(0), Some(&1));
}

#[test]
fn get_or_falls_back() {
    let mut v = ToyVec::new();
    v.push(10);
    v.push(20);
    let fallback = -1;
    assert_eq!(*v.get_or(0, &fallback), 10);
    assert_eq!(*v.get_or(1, &fallback), 20);
    assert_eq!(*v.get_or(2, &fallback), -1);
}

#[test]
fn pop_takes_the_last() {
    let mut v = ToyVec::new();
    assert_eq!(v.pop(), None::<u8>);
    v.push(1);
    v.push(2);
    v.push(3);
    assert_eq!(v.pop(), Some(3));
    assert_eq!(v.len(), 2);
    assert_eq!(v.capacity(), 4);
    assert_eq!(v.get(2), None);
    assert_eq!(v.pop(), Some(2));
    assert_eq!(v.pop(), Some(1));
    assert_eq!(v.pop(), None);
    assert_eq!(v.len(), 0);
    assert_eq!(v.capacity(), 4);
    v.push(9);
    assert_eq!(v.get(0), Some(&9));
}

#[test]
fn iter_goes_from_first_to_last() {
    let mut v = ToyVec::new();
    v.push('a');
    v.push('b');
    v.push('c');
    let mut pass = v.iter();
    assert_eq!(pass.next(), Some(&'a'));
    assert_eq!(pass.next(), Some(&'b'));
    assert_eq!(pass.next(), Some(&'c'));
    assert_eq!(pass.next(), None);
    assert_eq!(pass.next(), None);

    let empty: ToyVec<char> = ToyVec::with_capacity(4);
    assert_eq!(empty.iter().next(), None);
}

#[test]
fn iter_skips_what_was_popped() {
    let mut v = ToyVec::new();
    v.push(1);
    v.push(2);
    v.pop();
    let mut pass = v.iter();
    assert_eq!(pass.next(), Some(&1));
    assert_eq!(pass.next(), None);
}
