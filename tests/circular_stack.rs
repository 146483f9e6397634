use std::cell::RefCell;
use std::rc::Rc;

use tg_bot::circular_stack::{CircularStack, RemoveError};

/// A value that records its id in a shared log when it is dropped.
struct Noted {
    id: u32,
    log: Rc<RefCell<Vec<u32>>>,
}

impl Drop for Noted {
    fn drop(&mut self) {
        self.log.borrow_mut().push(self.id);
    }
}

fn noted(id: u32, log: &Rc<RefCell<Vec<u32>>>) -> Noted {
    Noted { id, log: Rc::clone(log) }
}

fn contents<T: Copy, const N: usize>(s: &CircularStack<T, N>) -> Vec<T> {
    s.as_slice().into_iter().copied().collect()
}

fn ids<const N: usize>(s: &CircularStack<Noted, N>) -> Vec<u32> {
    s.as_slice().into_iter().map(|t| t.id).collect()
}

#[test]
fn scenario_capacity_three_five_pushes() {
    let mut s: CircularStack<char, 3> = CircularStack::new();
    s.push('A');
    assert_eq!(contents(&s), vec!['A']);
    s.push('B');
    assert_eq!(contents(&s), vec!['A', 'B']);
    s.push('C');
    assert_eq!(contents(&s), vec!['A', 'B', 'C']);
    s.push('D');
    assert_eq!(contents(&s), vec!['B', 'C', 'D']);
    s.push('E');
    assert_eq!(contents(&s), vec!['C', 'D', 'E']);
    assert_eq!(s.remove(0), Ok(()));
    assert_eq!(contents(&s), vec!['D', 'E']);
}

#[test]
fn keeps_the_last_n_pushed() {
    let mut s: CircularStack<u32, 4> = CircularStack::new();
    let mut pushed: Vec<u32> = Vec::new();
    for v in 0..23u32 {
        s.push(v);
        pushed.push(v);
        let start = pushed.len().saturating_sub(4);
        assert_eq!(contents(&s), pushed[start..].to_vec());
    }
}

#[test]
fn new_stack_is_empty() {
    let s: CircularStack<u8, 5> = CircularStack::new();
    assert_eq!(s.len(), 0);
    assert_eq!(s.capacity(), 5);
    assert!(s.as_slice().is_empty());
    assert_eq!(s.get(0), None);
}

#[test]
fn count_reaches_capacity_and_stays() {
    let log = Rc::new(RefCell::new(Vec::new()));
    let mut s: CircularStack<Noted, 3> = CircularStack::new();
    for id in 0..3u32 {
        s.push(noted(id, &log));
        assert_eq!(s.len(), id as usize + 1);
    }
    assert!(log.borrow().is_empty());
    s.push(noted(3, &log));
    assert_eq!(s.len(), 3);
    assert_eq!(*log.borrow(), vec![0]);
    s.push(noted(4, &log));
    assert_eq!(s.len(), 3);
    assert_eq!(*log.borrow(), vec![0, 1]);
    assert_eq!(ids(&s), vec![2, 3, 4]);
}

#[test]
fn capacity_one_keeps_only_the_newest() {
    let log = Rc::new(RefCell::new(Vec::new()));
    let mut s: CircularStack<Noted, 1> = CircularStack::new();
    s.push(noted(7, &log));
    s.push(noted(8, &log));
    s.push(noted(9, &log));
    assert_eq!(s.len(), 1);
    assert_eq!(ids(&s), vec![9]);
    assert_eq!(*log.borrow(), vec![7, 8]);
}

#[test]
fn zero_capacity_never_stores() {
    let log = Rc::new(RefCell::new(Vec::new()));
    let mut s: CircularStack<Noted, 0> = CircularStack::new();
    assert_eq!(s.capacity(), 0);
    s.push(noted(1, &log));
    s.push(noted(2, &log));
    assert_eq!(s.len(), 0);
    assert!(s.as_slice().is_empty());
    assert!(s.get(0).is_none());
    assert_eq!(*log.borrow(), vec![1, 2]);
    assert_eq!(s.remove(0), Err(RemoveError::OutOfRange));
}

#[test]
fn remove_in_the_middle_keeps_order() {
    let mut s: CircularStack<u8, 5> = CircularStack::new();
    for v in [10u8, 20, 30, 40] {
        s.push(v);
    }
    assert_eq!(s.remove(1), Ok(()));
    assert_eq!(contents(&s), vec![10, 30, 40]);
    assert_eq!(s.len(), 3);
    assert_eq!(s.remove(2), Ok(()));
    assert_eq!(contents(&s), vec![10, 30]);
}

#[test]
fn remove_out_of_range_changes_nothing() {
    let log = Rc::new(RefCell::new(Vec::new()));
    let mut s: CircularStack<Noted, 3> = CircularStack::new();
    s.push(noted(1, &log));
    s.push(noted(2, &log));
    assert_eq!(s.remove(2), Err(RemoveError::OutOfRange));
    assert_eq!(s.remove(usize::MAX), Err(RemoveError::OutOfRange));
    assert_eq!(ids(&s), vec![1, 2]);
    assert!(log.borrow().is_empty());
    let mut e: CircularStack<u8, 3> = CircularStack::new();
    assert_eq!(e.remove(0), Err(RemoveError::OutOfRange));
}

#[test]
fn remove_drops_exactly_the_target() {
    let log = Rc::new(RefCell::new(Vec::new()));
    let mut s: CircularStack<Noted, 4> = CircularStack::new();
    for id in 1..=6u32 {
        s.push(noted(id, &log));
    }
    assert_eq!(ids(&s), vec![3, 4, 5, 6]);
    assert_eq!(*log.borrow(), vec![1, 2]);
    assert_eq!(s.remove(1), Ok(()));
    assert_eq!(*log.borrow(), vec![1, 2, 4]);
    assert_eq!(ids(&s), vec![3, 5, 6]);
}

#[test]
fn push_after_remove_on_wrapped_stack() {
    let mut s: CircularStack<u32, 3> = CircularStack::new();
    for v in 1..=5u32 {
        s.push(v);
    }
    assert_eq!(contents(&s), vec![3, 4, 5]);
    assert_eq!(s.remove(1), Ok(()));
    assert_eq!(contents(&s), vec![3, 5]);
    s.push(6);
    assert_eq!(contents(&s), vec![3, 5, 6]);
    s.push(7);
    assert_eq!(contents(&s), vec![5, 6, 7]);
    assert_eq!(s.remove(2), Ok(()));
    assert_eq!(s.remove(0), Ok(()));
    assert_eq!(contents(&s), vec![6]);
    assert_eq!(s.remove(0), Ok(()));
    assert!(contents(&s).is_empty());
    s.push(8);
    s.push(9);
    assert_eq!(contents(&s), vec![8, 9]);
}

#[test]
fn get_reads_by_logical_index() {
    let mut s: CircularStack<u32, 3> = CircularStack::new();
    for v in 1..=4u32 {
        s.push(v);
    }
    assert_eq!(s.get(0), Some(&2));
    assert_eq!(s.get(1), Some(&3));
    assert_eq!(s.get(2), Some(&4));
    assert_eq!(s.get(3), None);
}

#[test]
fn every_value_is_dropped_exactly_once() {
    let log = Rc::new(RefCell::new(Vec::new()));
    let mut made: u32 = 0;
    {
        let mut s: CircularStack<Noted, 4> = CircularStack::new();
        for step in 0..40u32 {
            if step % 5 == 3 {
                let len = s.len();
                let r = s.remove((step as usize) % (len + 1));
                assert_eq!(r.is_ok(), (step as usize) % (len + 1) < len);
            } else {
                s.push(noted(made, &log));
                made += 1;
            }
        }
        assert!(s.len() > 0);
    }
    let mut dropped = log.borrow().clone();
    dropped.sort();
    let expected: Vec<u32> = (0..made).collect();
    assert_eq!(dropped, expected);
}

#[test]
fn dropping_a_wrapped_stack_drops_its_live_values() {
    let log = Rc::new(RefCell::new(Vec::new()));
    {
        let mut s: CircularStack<Noted, 3> = CircularStack::new();
        for id in 0..5u32 {
            s.push(noted(id, &log));
        }
        assert_eq!(*log.borrow(), vec![0, 1]);
    }
    let mut dropped = log.borrow().clone();
    dropped.sort();
    assert_eq!(dropped, vec![0, 1, 2, 3, 4]);
}
