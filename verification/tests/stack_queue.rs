use rust_tools::collections::queue::Queue;
use rust_tools::collections::stack::Stack;

#[test]
fn test_stack_push_pop_order() {
    let mut st: Stack<i32> = Stack::new();
    assert!(st.is_empty());
    assert_eq!(st.pop(), None);
    st.push(1);
    st.push(2);
    st.push(3);
    assert_eq!(st.size(), 3);
    assert_eq!(st.len(), 3);
    assert_eq!(st.top(), Some(&3));
    assert_eq!(st.pop(), Some(3));
    assert_eq!(st.pop(), Some(2));
    assert_eq!(st.pop(), Some(1));
    assert_eq!(st.pop(), None);
    assert!(st.is_empty());
}

#[test]
fn test_queue_fifo_order() {
    let mut q: Queue<&str> = Queue::new();
    assert!(q.is_empty());
    assert_eq!(q.dequeue(), None);
    q.enqueue("a");
    q.enqueue("b");
    q.enqueue("c");
    assert_eq!(q.size(), 3);
    assert_eq!(q.len(), 3);
    assert_eq!(q.front(), Some(&"a"));
    assert_eq!(q.dequeue(), Some("a"));
    assert_eq!(q.dequeue(), Some("b"));
    assert_eq!(q.front(), Some(&"c"));
    assert_eq!(q.dequeue(), Some("c"));
    assert_eq!(q.dequeue(), None);
}
