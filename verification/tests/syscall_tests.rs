use os_kernel::syscall::process::{
    sys_exit, sys_get_time, sys_sbrk, sys_trace, sys_yield, trace_access, write_chunks,
    PageFlags, TaskAction, TimeVal, TraceStep, PAGE_SIZE,
};

const RW_USER: PageFlags = PageFlags { valid: true, user: true, readable: true, writable: true };

#[test]
fn sys_exit_and_yield() {
    assert_eq!(sys_exit(3), TaskAction::Exit(3));
    assert_eq!(sys_exit(-1), TaskAction::Exit(-1));
    assert_eq!(sys_yield(), (TaskAction::Suspend, 0));
}

#[test]
fn time_val_splits_microseconds() {
    assert_eq!(TimeVal::from_micros(3_500_001), TimeVal { sec: 3, usec: 500_001 });
    assert_eq!(TimeVal::from_micros(0), TimeVal { sec: 0, usec: 0 });
    assert_eq!(TimeVal::from_micros(999_999), TimeVal { sec: 0, usec: 999_999 });
    assert_eq!(TimeVal::from_micros(1_000_000), TimeVal { sec: 1, usec: 0 });
}

#[test]
fn sys_get_time_writes_across_buffers() {
    let w = std::mem::size_of::<usize>();
    let mut buffers = vec![vec![0u8; w + 2], vec![0u8; w - 2]];
    assert_eq!(sys_get_time(12_000_345, &mut buffers), 0);
    let mut expected = Vec::new();
    expected.extend_from_slice(&12usize.to_ne_bytes());
    expected.extend_from_slice(&345usize.to_ne_bytes());
    let written: Vec<u8> = buffers.concat();
    assert_eq!(written, expected);
    assert_eq!(buffers[0].len(), w + 2);
    assert_eq!(buffers[1].len(), w - 2);
}

#[test]
fn sys_get_time_partial_buffer() {
    let mut buffers = vec![vec![0u8; 4]];
    assert_eq!(sys_get_time(7_000_000, &mut buffers), 0);
    assert_eq!(buffers[0], 7usize.to_ne_bytes()[..4].to_vec());
}

#[test]
fn sys_get_time_reads_back_as_time_val() {
    let w = std::mem::size_of::<usize>();
    let mut buffers = vec![vec![0u8; 2 * w]];
    assert_eq!(sys_get_time(3_500_001, &mut buffers), 0);
    let bytes = &buffers[0];
    let sec = usize::from_ne_bytes(bytes[..w].try_into().unwrap());
    let usec = usize::from_ne_bytes(bytes[w..].try_into().unwrap());
    assert_eq!(TimeVal { sec, usec }, TimeVal { sec: 3, usec: 500_001 });
}

#[test]
fn write_chunks_copies_in_order() {
    let bytes = vec![1u8, 2, 3, 4, 5, 6];
    let mut buffers = vec![vec![0u8; 2], vec![], vec![9u8; 3]];
    write_chunks(&bytes, &mut buffers);
    assert_eq!(buffers, vec![vec![1, 2], vec![], vec![3, 4, 5]]);
}

#[test]
fn sys_trace_plans() {
    assert_eq!(sys_trace(2, 64), TraceStep::CountCalls { id: 64 });
    assert_eq!(
        sys_trace(0, 3 * PAGE_SIZE + 17),
        TraceStep::Access { vpn: 3, offset: 17 }
    );
    assert_eq!(sys_trace(1, 5), TraceStep::Access { vpn: 0, offset: 5 });
    assert_eq!(sys_trace(7, PAGE_SIZE), TraceStep::Access { vpn: 1, offset: 0 });
}

#[test]
fn trace_access_read_write() {
    let mut page = vec![0u8; PAGE_SIZE];
    page[10] = 200;
    assert_eq!(trace_access(0, 10, 0, Some(RW_USER), &mut page), 200);
    assert_eq!(trace_access(1, 10, 0x1234, Some(RW_USER), &mut page), 0);
    assert_eq!(page[10], 0x34);
    assert_eq!(trace_access(0, 10, 0, Some(RW_USER), &mut page), 0x34);
}

#[test]
fn trace_access_refusals() {
    let mut page = vec![7u8; PAGE_SIZE];
    let read_only = PageFlags { writable: false, ..RW_USER };
    let write_only = PageFlags { readable: false, ..RW_USER };
    let kernel = PageFlags { user: false, ..RW_USER };
    let invalid = PageFlags { valid: false, ..RW_USER };
    assert_eq!(trace_access(1, 0, 1, Some(read_only), &mut page), -1);
    assert_eq!(trace_access(0, 0, 0, Some(write_only), &mut page), -1);
    assert_eq!(trace_access(0, 0, 0, Some(kernel), &mut page), -1);
    assert_eq!(trace_access(1, 0, 1, Some(invalid), &mut page), -1);
    assert_eq!(trace_access(3, 0, 1, Some(RW_USER), &mut page), -1);
    let mut empty = Vec::new();
    assert_eq!(trace_access(0, 5, 0, None, &mut empty), -1);
    assert!(page.iter().all(|&b| b == 7));
}

#[test]
fn sys_sbrk_results() {
    assert_eq!(sys_sbrk(Some(0x8000)), 0x8000);
    assert_eq!(sys_sbrk(None), -1);
}
