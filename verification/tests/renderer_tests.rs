use milim_2d::{DrawCommandType, DrawQueue, WindowConfig};

#[test]
fn drain_orders_by_z_then_insertion() {
    let mut q = DrawQueue::new();
    q.push("c1", 5);
    q.push("a1", -3);
    q.push("c2", 5);
    q.push("b1", 0);
    q.push("a2", -3);
    assert_eq!(q.drain_ordered(), vec!["a1", "a2", "b1", "c1", "c2"]);
}

#[test]
fn drain_leaves_queue_empty() {
    let mut q = DrawQueue::new();
    q.push(1u8, 2);
    q.push(2u8, 1);
    assert_eq!(q.drain_ordered(), vec![2, 1]);
    assert!(q.drain_ordered().is_empty());
    q.push(3u8, 7);
    assert_eq!(q.drain_ordered(), vec![3]);
}

#[test]
fn empty_queue_drains_nothing() {
    let mut q: DrawQueue<u32> = DrawQueue::new();
    assert!(q.drain_ordered().is_empty());
}

#[test]
fn window_config_and_command_types() {
    let cfg = WindowConfig { title: String::from("Milim Engine"), width: 800, height: 600 };
    assert_eq!(cfg.title, "Milim Engine");
    assert_eq!(cfg.width, 800);
    assert_eq!(cfg.height, 600);
    assert_ne!(DrawCommandType::Sprite, DrawCommandType::Rect);
}

#[test]
fn drain_is_a_stable_sort_by_z() {
    let mut q = DrawQueue::new();
    let draws = [(1, 3), (2, 1), (3, 3), (4, 2), (5, 1), (6, 2)];
    for (c, z) in draws {
        q.push(c, z);
    }
    assert_eq!(q.drain_ordered(), vec![2, 5, 4, 6, 1, 3]);
    assert!(q.drain_ordered().is_empty());
}

#[test]
fn later_frames_are_sorted_stably_by_z_too() {
    let mut q = DrawQueue::new();
    q.push('x', 9);
    q.push('y', -1);
    assert_eq!(q.drain_ordered(), vec!['y', 'x']);
    q.push('a', 4);
    q.push('b', 9);
    q.push('c', 4);
    q.push('d', 0);
    assert_eq!(q.drain_ordered(), vec!['d', 'a', 'c', 'b']);
    assert!(q.drain_ordered().is_empty());
}
