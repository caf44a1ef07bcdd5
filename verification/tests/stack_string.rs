use os::stack_string::{StackString, StackStringError};

#[test]
fn test_stack_string() {
    let mut s = StackString::<5>::default();
    assert!(s.push('a').is_ok());
    assert_eq!(s.pop(), Some('a'));
}

#[test]
fn stack_string_starts_empty() {
    let mut s = StackString::<3>::default();
    assert_eq!(s.len(), 0);
    assert!(s.is_empty());
    assert_eq!(s.get_data(), &[] as &[char]);
    assert_eq!(s.pop(), None);
    assert_eq!(s.to_string(), "");
}

#[test]
fn stack_string_push_until_full() {
    let mut s = StackString::<3>::default();
    assert_eq!(s.push('a'), Ok(()));
    assert_eq!(s.push('b'), Ok(()));
    assert_eq!(s.push('c'), Ok(()));
    assert_eq!(s.push('d'), Err(StackStringError::ExceedCapacity));
    assert_eq!(s.len(), 3);
    assert!(!s.is_empty());
    assert_eq!(s.get_data(), &['a', 'b', 'c']);
    assert_eq!(s.to_string(), "abc");
}

#[test]
fn stack_string_of_no_capacity_refuses_everything() {
    let mut s = StackString::<0>::default();
    assert_eq!(s.push('a'), Err(StackStringError::ExceedCapacity));
    assert_eq!(s.push_str(""), Ok(0));
    assert_eq!(s.push_str("a"), Err(StackStringError::ExceedCapacity));
    assert_eq!(s.len(), 0);
}

#[test]
fn stack_string_pop_returns_the_last_character() {
    let mut s = StackString::<4>::default();
    assert_eq!(s.push_str("xyz"), Ok(3));
    assert_eq!(s.pop(), Some('z'));
    assert_eq!(s.pop(), Some('y'));
    assert_eq!(s.get_data(), &['x']);
    assert_eq!(s.pop(), Some('x'));
    assert_eq!(s.pop(), None);
    assert!(s.is_empty());
}

#[test]
fn stack_string_push_str_counts_characters() {
    let mut s = StackString::<8>::default();
    assert_eq!(s.push_str("héé"), Ok(3));
    assert_eq!(s.push_str(""), Ok(0));
    assert_eq!(s.push_str("œuf"), Ok(3));
    assert_eq!(s.len(), 6);
    assert_eq!(s.to_string(), "hééœuf");
}

#[test]
fn stack_string_push_str_fills_what_is_left() {
    let mut s = StackString::<5>::default();
    assert_eq!(s.push_str("abc"), Ok(3));
    assert_eq!(s.push_str("defg"), Err(StackStringError::ExceedCapacity));
    assert_eq!(s.get_data(), &['a', 'b', 'c', 'd', 'e']);
    assert_eq!(s.push_str("h"), Err(StackStringError::ExceedCapacity));
    assert_eq!(s.len(), 5);
    let mut s = StackString::<5>::default();
    assert_eq!(s.push_str("abcde"), Ok(5));
    assert_eq!(s.to_string(), "abcde");
}

#[test]
fn stack_string_clear_empties() {
    let mut s = StackString::<5>::default();
    let _ = s.push_str("abc");
    s.clear();
    assert_eq!(s.len(), 0);
    assert!(s.is_empty());
    assert_eq!(s.push_str("de"), Ok(2));
    assert_eq!(s.get_data(), &['d', 'e']);
}

#[test]
fn stack_string_index_and_set() {
    let mut s = StackString::<4>::default();
    let _ = s.push_str("abc");
    assert_eq!(*s.index(0), 'a');
    assert_eq!(*s.index(2), 'c');
    assert_eq!(*s.index(3), '\0');
    s.set(1, 'x');
    assert_eq!(s.get_data(), &['a', 'x', 'c']);
    s.set(3, 'z');
    assert_eq!(s.len(), 3);
    assert_eq!(*s.index(3), 'z');
    let _ = s.pop();
    assert_eq!(*s.index(2), 'c');
}

#[test]
fn stack_string_clone_keeps_the_characters() {
    let mut s = StackString::<4>::default();
    let _ = s.push_str("ab");
    let mut copy = s.clone();
    let _ = copy.push('c');
    assert_eq!(s.get_data(), &['a', 'b']);
    assert_eq!(copy.get_data(), &['a', 'b', 'c']);
}
