use shatree::work_queue::WorkQueue;

#[test]
fn a_new_queue_is_finished_until_work_arrives() {
    let q: WorkQueue<u32> = WorkQueue::new();
    assert!(q.is_finished());
    assert_eq!(q.len(), 0);
}

#[test]
fn pop_hands_back_what_was_pushed() {
    let mut q: WorkQueue<u32> = WorkQueue::new();
    q.push(7);
    q.push(8);
    assert_eq!(q.len(), 2);
    let a = q.pop().unwrap();
    let b = q.pop().unwrap();
    let mut got = vec![a, b];
    got.sort();
    assert_eq!(got, vec![7, 8]);
    assert!(q.pop().is_none());
}

#[test]
fn an_empty_queue_with_work_in_flight_is_not_finished() {
    // the race the in-flight counter exists for: a worker has popped the
    // last item and may still push children it discovers
    let mut q: WorkQueue<u32> = WorkQueue::new();
    q.push(1);
    let item = q.pop();
    assert_eq!(item, Some(1));
    assert_eq!(q.len(), 0);
    assert!(!q.is_finished());
    // the worker feeds back a discovered directory, then finishes the item
    q.push(2);
    q.complete();
    assert!(!q.is_finished());
    // drain the fed-back item too
    assert_eq!(q.pop(), Some(2));
    q.complete();
    assert!(q.is_finished());
}

#[test]
fn finished_needs_both_an_empty_list_and_nothing_in_flight() {
    let mut q: WorkQueue<u32> = WorkQueue::new();
    q.push(1);
    assert!(!q.is_finished());
    q.pop();
    assert!(!q.is_finished());
    q.complete();
    assert!(q.is_finished());
}
