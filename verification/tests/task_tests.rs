use os_kernel::task::manager::{add_task, fetch_task, StrideTask, TaskManager};

fn task(id: usize, stride: usize, pass: usize) -> StrideTask {
    StrideTask { id, stride, pass }
}

#[test]
fn task_manager_is_fifo() {
    let mut m = TaskManager::new();
    assert_eq!(m.fetch(), None);
    m.add(task(1, 0, 1));
    m.add(task(2, 0, 1));
    assert_eq!(m.fetch(), Some(task(1, 0, 1)));
    m.add(task(3, 0, 1));
    assert_eq!(m.fetch(), Some(task(2, 0, 1)));
    assert_eq!(m.fetch(), Some(task(3, 0, 1)));
    assert_eq!(m.fetch(), None);
}

#[test]
fn fetch_task_on_empty_queue() {
    let mut m = TaskManager::new();
    assert_eq!(fetch_task(&mut m), None);
    assert_eq!(m.fetch(), None);
}

#[test]
fn fetch_task_picks_first_smallest_stride() {
    let mut m = TaskManager::new();
    add_task(&mut m, task(1, 5, 2));
    add_task(&mut m, task(2, 3, 4));
    add_task(&mut m, task(3, 3, 1));
    add_task(&mut m, task(4, 9, 1));
    assert_eq!(fetch_task(&mut m), Some(task(2, 7, 4)));
    // the others stay, in their order
    assert_eq!(m.fetch(), Some(task(1, 5, 2)));
    assert_eq!(m.fetch(), Some(task(3, 3, 1)));
    assert_eq!(m.fetch(), Some(task(4, 9, 1)));
    assert_eq!(m.fetch(), None);
}

#[test]
fn fetch_task_round_robin_by_stride() {
    let mut m = TaskManager::new();
    add_task(&mut m, task(1, 0, 10));
    add_task(&mut m, task(2, 0, 5));
    let mut order = Vec::new();
    for _ in 0..4 {
        let t = fetch_task(&mut m).unwrap();
        order.push(t.id);
        add_task(&mut m, t);
    }
    // strides: (0,0) -> 1 runs (10,0) -> 2 runs (10,5) -> 2 runs (10,10) -> 1 runs
    assert_eq!(order, vec![1, 2, 2, 1]);
}

#[test]
fn fetch_task_single_task() {
    let mut m = TaskManager::new();
    add_task(&mut m, task(8, 100, 0));
    assert_eq!(fetch_task(&mut m), Some(task(8, 100, 0)));
    assert_eq!(m.fetch(), None);
}
