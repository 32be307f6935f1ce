use datalog::schedule::Schedule;

#[test]
fn an_id_waits_once_however_often_it_is_scheduled() {
    let mut s = Schedule::new();
    for id in [4, 2, 4, 4, 7, 2, 4] {
        s.insert(id);
    }
    assert_eq!(s.pop(), Some(4));
    assert_eq!(s.pop(), Some(2));
    assert_eq!(s.pop(), Some(7));
    assert_eq!(s.pop(), None);
}

#[test]
fn ids_leave_in_the_order_in_which_they_came() {
    let mut s = Schedule::new();
    s.insert(9);
    s.insert(1);
    s.insert(5);
    assert_eq!(s.pop(), Some(9));
    s.insert(3);
    assert_eq!(s.pop(), Some(1));
    assert_eq!(s.pop(), Some(5));
    assert_eq!(s.pop(), Some(3));
    assert!(s.is_empty());
}

#[test]
fn an_id_that_has_left_can_be_scheduled_again() {
    let mut s = Schedule::new();
    s.insert(6);
    assert_eq!(s.pop(), Some(6));
    assert!(s.is_empty());
    s.insert(6);
    assert!(!s.is_empty());
    assert_eq!(s.pop(), Some(6));
    assert_eq!(s.pop(), None);
}

#[test]
fn nothing_leaves_an_empty_schedule() {
    let mut s = Schedule::new();
    assert!(s.is_empty());
    assert_eq!(s.pop(), None);
    assert_eq!(s.pop(), None);
}
