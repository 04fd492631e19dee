use ckb_x64_simulator::scheduler::{
    find_answer, find_hinted, match_at, match_pending, pick_ready, ProcStatus,
};
use ckb_x64_simulator::simulator_context::SimContext;
use ckb_x64_simulator::utils::{Fd, ProcID};

fn read(pid: u64, fd: u64, len: usize, buf: &[u8]) -> ProcStatus {
    ProcStatus::ReadWait(ProcID(pid), Fd(fd), len, buf.to_vec())
}

fn write(pid: u64, fd: u64, buf: &[u8]) -> ProcStatus {
    ProcStatus::WriteWait(ProcID(pid), Fd(fd), buf.to_vec())
}

#[test]
fn a_read_takes_from_the_head_of_the_earliest_write() {
    let mut ops = vec![write(1, 3, b"abcdef"), read(0, 2, 4, b"")];
    match_pending(&mut ops);
    assert_eq!(ops, vec![write(1, 3, b"ef"), read(0, 2, 0, b"abcd")]);
}

#[test]
fn a_read_takes_no_more_than_the_write_holds() {
    let mut ops = vec![read(0, 2, 10, b"xy"), write(1, 3, b"abc")];
    match_pending(&mut ops);
    assert_eq!(ops, vec![read(0, 2, 7, b"xyabc"), write(1, 3, b"")]);
}

#[test]
fn a_close_ends_a_read_with_what_it_has() {
    let mut ops = vec![read(0, 2, 10, b"xy"), ProcStatus::CloseWait(ProcID(1), Fd(3))];
    match_pending(&mut ops);
    assert_eq!(ops, vec![read(0, 2, 0, b"xy"), ProcStatus::CloseWait(ProcID(1), Fd(3))]);
}

#[test]
fn the_earliest_answer_decides() {
    // A write stands before the close: the read takes from the write.
    let mut ops = vec![
        read(0, 2, 10, b""),
        write(1, 3, b"ab"),
        ProcStatus::CloseWait(ProcID(1), Fd(3)),
    ];
    match_pending(&mut ops);
    assert_eq!(
        ops,
        vec![read(0, 2, 8, b"ab"), write(1, 3, b""), ProcStatus::CloseWait(ProcID(1), Fd(3))]
    );
    // A close on another pipe does not end the read.
    let mut ops = vec![
        ProcStatus::CloseWait(ProcID(1), Fd(9)),
        write(1, 3, b"ab"),
        read(0, 2, 2, b""),
    ];
    match_pending(&mut ops);
    assert_eq!(
        ops,
        vec![ProcStatus::CloseWait(ProcID(1), Fd(9)), write(1, 3, b""), read(0, 2, 0, b"ab")]
    );
}

#[test]
fn other_pipes_and_satisfied_reads_stay() {
    let mut ops = vec![
        read(0, 2, 0, b"done"),
        write(1, 3, b"more"),
        read(2, 4, 5, b""),
        write(3, 7, b"zz"),
        ProcStatus::WaitSpawn(ProcID(4)),
        ProcStatus::Terminated(ProcID(5)),
    ];
    let before = ops.clone();
    match_pending(&mut ops);
    assert_eq!(ops, before);
}

#[test]
fn two_reads_share_one_write_in_order() {
    let mut ops = vec![read(0, 2, 2, b""), read(0, 2, 3, b""), write(1, 3, b"abcdefg")];
    match_pending(&mut ops);
    assert_eq!(ops, vec![read(0, 2, 0, b"ab"), read(0, 2, 0, b"cde"), write(1, 3, b"fg")]);
}

#[test]
fn one_step_of_matching() {
    let mut ops = vec![read(0, 2, 2, b""), read(0, 2, 3, b""), write(1, 3, b"abcdefg")];
    match_at(&mut ops, 1);
    assert_eq!(ops, vec![read(0, 2, 2, b""), read(0, 2, 0, b"abc"), write(1, 3, b"defg")]);
    match_at(&mut ops, 2);
    assert_eq!(ops, vec![read(0, 2, 2, b""), read(0, 2, 0, b"abc"), write(1, 3, b"defg")]);
}

#[test]
fn answers_and_hints_are_found_in_order() {
    let ops = vec![
        read(0, 2, 0, b"a"),
        write(1, 3, b""),
        ProcStatus::CloseWait(ProcID(1), Fd(3)),
        read(2, 4, 0, b"b"),
        read(2, 6, 1, b""),
    ];
    assert_eq!(find_answer(&ops, Fd(3)), 1);
    assert_eq!(find_answer(&ops, Fd(2)), 5);
    assert_eq!(find_hinted(&ops, Some(Fd(2))), 0);
    assert_eq!(find_hinted(&ops, Some(Fd(3))), 0);
    assert_eq!(find_hinted(&ops, Some(Fd(5))), 3);
    // A read that still wants bytes is not hinted at.
    assert_eq!(find_hinted(&ops, Some(Fd(6))), 5);
    assert_eq!(find_hinted(&ops, None), 5);
}

#[test]
fn the_smallest_process_goes_first_and_of_its_operations_the_newest() {
    let ops = vec![
        ProcStatus::Terminated(ProcID(3)),
        ProcStatus::WaitSpawn(ProcID(2)),
        write(2, 3, b""),
        read(1, 2, 4, b""),
        write(5, 9, b"x"),
    ];
    assert_eq!(pick_ready(&ops), Some(2));
    assert_eq!(pick_ready(&[read(1, 2, 4, b""), write(5, 9, b"x")].to_vec()), None);
    assert_eq!(pick_ready(&Vec::new()), None);
    assert_eq!(pick_ready(&vec![read(7, 2, 0, b""), ProcStatus::CloseWait(ProcID(7), Fd(2))]), Some(1));
}

#[test]
fn parts_of_an_operation() {
    let r = read(1, 2, 3, b"ab");
    let (pid, fd, len, buf) = r.read_wait().unwrap();
    assert_eq!((*pid, *fd, *len, buf.as_slice()), (ProcID(1), Fd(2), 3, &b"ab"[..]));
    assert!(r.write_wait().is_none());
    let w = write(4, 5, b"xyz");
    let (pid, fd, buf) = w.write_wait().unwrap();
    assert_eq!((*pid, *fd, buf.as_slice()), (ProcID(4), Fd(5), &b"xyz"[..]));
    assert!(w.read_wait().is_none());
    assert_eq!(w.pid(), ProcID(4));
    assert!(!w.is_ready());
    assert!(!r.is_ready());
    assert!(write(4, 5, b"").is_ready());
    assert!(read(1, 2, 0, b"ab").is_ready());
    assert!(ProcStatus::WaitSpawn(ProcID(9)).is_ready());
}

#[test]
fn a_step_retires_one_operation_and_wakes_one_process() {
    let mut ctx: SimContext<u32> = SimContext::new();
    let root = ProcID(0);
    let (r, w) = ctx.new_pipe(root).unwrap();
    let child = ctx.start_process(root, &[r]);
    let grandchild = ctx.start_process(child, &[]);
    assert_eq!((child, grandchild), (ProcID(1), ProcID(2)));
    // Pending: the start of 1 and the start of 2. The smaller id goes first
    // and wakes the parent of 1, which is the root.
    ctx.process_io(None);
    assert!(ctx.get_event(root).signaled);
    assert!(!ctx.get_event(child).signaled);
    assert!(ctx.wait_event(root));
    // Then the start of 2 wakes its parent, which is 1.
    ctx.process_io(None);
    assert!(!ctx.get_event(root).signaled);
    assert!(ctx.get_event(child).signaled);
    assert!(ctx.wait_event(child));
    // Nothing is pending now: a step changes nothing.
    ctx.process_io(None);
    assert!(!ctx.get_event(root).signaled);
    assert!(!ctx.get_event(child).signaled);
    assert!(!ctx.get_event(grandchild).signaled);
    // A write of the root waits; the read of the child retires by the hint
    // and the child is woken with the bytes.
    let event = ctx.wait_write(root, w, b"ping");
    assert!(!event.signaled);
    let event = ctx.wait_read(child, r, 3);
    assert!(event.signaled);
    assert_eq!(ctx.read_cache(&r), b"pin".to_vec());
    assert_eq!(ctx.read_cache(&r), Vec::<u8>::new());
    // The rest of the write is still there for the next read.
    assert!(ctx.wait_event(child));
    let event = ctx.wait_read(child, r, 3);
    // The read is not satisfied, but the write is drained and is retired.
    assert!(!event.signaled);
    assert!(ctx.get_event(root).signaled);
    // Closing the write end ends the read with the byte it has.
    assert!(ctx.wait_event(root));
    assert!(ctx.close_pipe(root, w).is_ok());
    assert!(ctx.get_event(child).signaled);
    assert_eq!(ctx.read_cache(&r), b"g".to_vec());
    assert!(!ctx.has_fd(root, &w));
    assert!(ctx.has_fd(child, &r));
    assert!(!ctx.chech_other_fd(&r));
}

#[test]
fn ending_a_process_closes_what_it_owns() {
    let mut ctx: SimContext<u32> = SimContext::new();
    let root = ProcID(0);
    let (r0, w0) = ctx.new_pipe(root).unwrap();
    let (r1, w1) = ctx.new_pipe(root).unwrap();
    let child = ctx.start_process(root, &[r1, w0]);
    assert_eq!(ctx.inherited_fds(child), vec![r1, w0]);
    assert!(ctx.has_fd(child, &r1));
    assert!(ctx.has_fd(child, &w0));
    assert!(ctx.has_fd(root, &r0));
    assert!(ctx.has_fd(root, &w1));
    assert_eq!(ctx.len_pipe(), 4);
    ctx.close_all(&child);
    assert_eq!(ctx.len_pipe(), 2);
    assert!(!ctx.has_fd(child, &r1));
    assert!(!ctx.has_fd(child, &w0));
    assert!(ctx.has_fd(root, &r0));
    assert!(ctx.has_fd(root, &w1));
    // The process stays known, and its end is announced to its parent.
    assert!(ctx.has_proc(&child));
    ctx.move_pipe(&r0, child);
    assert!(ctx.has_fd(child, &r0));
    ctx.process_io(None);
    ctx.process_io(None);
    assert!(ctx.get_event(root).signaled);
    assert_eq!(ctx.exit(&child), None);
    ctx.set_join_handle(child, 42);
    assert_eq!(ctx.exit(&child), Some(42));
    assert_eq!(ctx.exit(&child), None);
}

#[test]
fn parts_of_an_operation_can_be_changed_in_place() {
    let mut r = read(1, 2, 3, b"ab");
    {
        let (pid, _fd, len, buf) = r.read_wait_mut().unwrap();
        assert_eq!(*pid, ProcID(1));
        *len -= 1;
        buf.push(b'c');
    }
    assert_eq!(r, read(1, 2, 2, b"abc"));
    assert!(r.write_wait_mut().is_none());
    let mut w = write(4, 5, b"xyz");
    {
        let (_pid, fd, buf) = w.write_wait_mut().unwrap();
        *fd = Fd(7);
        buf.clear();
    }
    assert_eq!(w, write(4, 7, b""));
    assert!(w.read_wait_mut().is_none());
    let mut t = ProcStatus::Terminated(ProcID(3));
    assert!(t.read_wait_mut().is_none());
    assert!(t.write_wait_mut().is_none());
    assert_eq!(t, ProcStatus::Terminated(ProcID(3)));
}
