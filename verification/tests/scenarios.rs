use ckb_x64_simulator::simulator_context::SimContext;
use ckb_x64_simulator::spawn::{
    close, get_fds, inherited_fds, read_start, spawn_cell, wait, write_start,
};
use ckb_x64_simulator::utils::{CurrentIds, Fd, ProcID};

// One step of a scripted process.
#[derive(Clone, Debug)]
enum Op {
    // Make a pipe and expect these two ends.
    Pipe(u64, u64),
    // Start a child that inherits the zero-terminated list and runs the ops,
    // expect the id, and wait until the child has been announced.
    Spawn(Vec<u64>, Vec<Op>, u64),
    // Write all of the bytes to the pipe end, in as many writes as it takes.
    WriteExact(u64, Vec<u8>),
    // Read exactly this many bytes from the pipe end, in as many reads as it takes.
    ReadExact(u64, usize),
    // One read of up to this many bytes.
    Read(u64, usize),
    // One read that is refused with this code.
    ReadFails(u64, i32),
    // One write that is refused with this code.
    WriteFails(u64, i32),
    // Close the pipe end and expect success.
    Close(u64),
    // Collect the exit code of the child and expect this token.
    Wait(u64, u32),
    // A wait that is refused with this code.
    WaitFails(u64, i32),
}

#[derive(Debug)]
struct Script {
    pid: ProcID,
    ops: Vec<Op>,
    next: usize,
    // Set while the process waits on its wake flag in the middle of an op.
    waiting: bool,
    // Bytes still to read in the current op.
    left: usize,
    got: Vec<u8>,
    reads: Vec<Vec<u8>>,
    done: bool,
}

impl Script {
    fn new(pid: u64, ops: Vec<Op>) -> Script {
        Script {
            pid: ProcID(pid),
            ops,
            next: 0,
            waiting: false,
            left: 0,
            got: Vec::new(),
            reads: Vec::new(),
            done: false,
        }
    }
}

// Runs one process until it has to wait or is done. Returns whether it moved
// and the processes that it started.
fn advance(ctx: &mut SimContext<u32>, s: &mut Script, finished: &[u64]) -> (bool, Vec<Script>) {
    let mut moved = false;
    let mut started = Vec::new();
    loop {
        if s.done {
            return (moved, started);
        }
        if s.waiting {
            if let Op::Wait(pid, _) = s.ops[s.next] {
                // Collecting the exit code waits for the body of the child.
                if !finished.contains(&pid) {
                    return (moved, started);
                }
            } else if !ctx.wait_event(s.pid) {
                return (moved, started);
            }
            s.waiting = false;
            moved = true;
            match s.ops[s.next].clone() {
                Op::ReadExact(fd, _) => {
                    let data = ctx.read_cache(&Fd(fd));
                    assert!(data.len() <= s.left);
                    s.left -= data.len();
                    s.got.extend_from_slice(&data);
                }
                Op::Read(fd, len) => {
                    let data = ctx.read_cache(&Fd(fd));
                    assert!(data.len() <= len);
                    s.got = data;
                    s.left = 0;
                }
                _ => {}
            }
            if s.left == 0 {
                if let Op::ReadExact(_, _) | Op::Read(_, _) = s.ops[s.next] {
                    s.reads.push(std::mem::take(&mut s.got));
                }
                s.next += 1;
            }
            continue;
        }
        if s.next == s.ops.len() {
            // The body of the process has returned.
            if s.pid != ProcID(0) {
                ctx.close_all(&s.pid);
                ctx.process_io(None);
            }
            s.done = true;
            return (true, started);
        }
        moved = true;
        match s.ops[s.next].clone() {
            Op::Pipe(r, w) => {
                assert_eq!(ctx.new_pipe(s.pid), Ok((Fd(r), Fd(w))));
                s.next += 1;
            }
            Op::Spawn(raw, ops, expected) => {
                let pid = spawn_cell(ctx, s.pid, &get_fds(&raw)).expect("spawn");
                assert_eq!(pid, ProcID(expected));
                ctx.set_join_handle(pid, 100 + pid.0 as u32);
                started.push(Script::new(pid.0, ops));
                s.waiting = true;
                return (true, started);
            }
            Op::WriteExact(fd, bytes) => {
                write_start(ctx, s.pid, fd, &bytes).expect("write");
                s.waiting = true;
            }
            Op::ReadExact(fd, len) => {
                if s.left == 0 {
                    s.left = len;
                }
                read_start(ctx, s.pid, fd, s.left).expect("read");
                s.waiting = true;
            }
            Op::Read(fd, len) => {
                s.left = len;
                read_start(ctx, s.pid, fd, len).expect("read");
                s.waiting = true;
            }
            Op::ReadFails(fd, code) => {
                assert_eq!(read_start(ctx, s.pid, fd, 8).unwrap_err(), code);
                s.next += 1;
            }
            Op::WriteFails(fd, code) => {
                assert_eq!(write_start(ctx, s.pid, fd, &[0u8; 8]).unwrap_err(), code);
                s.next += 1;
            }
            Op::Close(fd) => {
                close(ctx, s.pid, fd).expect("close");
                s.waiting = true;
            }
            Op::Wait(pid, token) => {
                assert_eq!(wait(ctx, pid), Ok(token));
                s.waiting = true;
            }
            Op::WaitFails(pid, code) => {
                assert_eq!(wait(ctx, pid), Err(code));
                s.next += 1;
            }
        }
    }
}

// Runs the root process and whatever it starts, in turn, until none of them
// can move. Returns the processes in the order of their ids.
fn run(ctx: &mut SimContext<u32>, root: Vec<Op>) -> Vec<Script> {
    let mut scripts = vec![Script::new(0, root)];
    let mut rounds = 0;
    loop {
        let mut moved = false;
        let mut i = 0;
        while i < scripts.len() {
            let finished: Vec<u64> =
                scripts.iter().filter(|s| s.done).map(|s| s.pid.0).collect();
            let (did, started) = advance(ctx, &mut scripts[i], &finished);
            moved = moved || did;
            scripts.extend(started);
            i += 1;
        }
        rounds += 1;
        assert!(rounds < 10_000, "the processes never settle");
        if !moved {
            return scripts;
        }
    }
}

// The ops with which a parent makes its two pipes and starts a child: the
// parent keeps (2, 5), the child inherits (4, 3).
fn full_spawn(child: Vec<Op>) -> Vec<Op> {
    vec![Op::Pipe(2, 3), Op::Pipe(4, 5), Op::Spawn(vec![4, 3, 0], child, 1)]
}

#[test]
fn test_spawn_base() {
    let ids = CurrentIds::default();
    let mut ctx: SimContext<u32> = SimContext::new();
    let parent = ProcID(0);
    let (r0, w0) = ctx.new_pipe(parent).unwrap();
    let (r1, w1) = ctx.new_pipe(parent).unwrap();
    assert_eq!((r0, w0, r1, w1), (Fd(2), Fd(3), Fd(4), Fd(5)));
    let son_fds = get_fds(&[r1.0, w0.0, 0]);
    let pid = spawn_cell(&mut ctx, parent, &son_fds).unwrap();
    assert_eq!(pid, ProcID(1));
    ctx.set_join_handle(pid, 0u32);
    // The scheduler step of the start announces the child to the parent.
    assert!(ctx.wait_event(parent));
    assert!(!ctx.wait_event(parent));
    // The child looks at what it inherited and returns.
    assert_eq!(inherited_fds(&ctx, pid, 2), vec![4, 3]);
    assert_eq!(inherited_fds(&ctx, pid, 3), vec![4, 3]);
    ctx.close_all(&pid);
    ctx.process_io(None);
    assert!(ctx.wait_event(parent));

    assert!(close(&mut ctx, parent, r0.0).is_ok());
    assert!(close(&mut ctx, parent, w1.0).is_ok());
    assert_eq!(close(&mut ctx, parent, r1.0), Err(6));
    assert_eq!(close(&mut ctx, parent, w0.0), Err(6));
    assert_eq!(ids.pid(), ProcID(0));
    assert_eq!(close(&mut ctx, parent, pid.0), Err(6));
    assert_eq!(wait(&mut ctx, pid.0), Ok(0u32));
}

#[test]
fn test_wait_invalid_pid() {
    let mut ctx: SimContext<u32> = SimContext::new();
    // The child asks for eight bytes and returns once it has them; the
    // parent lets it go with a write.
    let parent_ops = vec![
        Op::Pipe(2, 3),
        Op::Spawn(vec![2, 0], vec![Op::Read(2, 8)], 1),
        Op::WaitFails(3, 5),
        Op::WriteExact(3, vec![2u8; 8]),
        Op::Wait(1, 101),
        Op::WaitFails(1, 5),
    ];
    let scripts = run(&mut ctx, parent_ops);
    assert!(scripts[0].done);
    assert!(scripts[1].done);
    assert_eq!(scripts[1].reads, vec![vec![2u8; 8]]);
}

#[test]
fn a_read_that_wants_more_keeps_waiting() {
    let mut ctx: SimContext<u32> = SimContext::new();
    // The child asks for 32 bytes and the parent writes eight.
    let parent_ops = vec![
        Op::Pipe(2, 3),
        Op::Spawn(vec![2, 0], vec![Op::Read(2, 32)], 1),
        Op::WriteExact(3, vec![2u8; 8]),
        Op::Wait(1, 101),
    ];
    let scripts = run(&mut ctx, parent_ops);
    // The write has come back and the exit code is asked for, but the read
    // still wants 24 bytes and nothing ends it.
    assert_eq!(scripts[0].next, 3);
    assert!(scripts[1].waiting);
    assert!(!ctx.get_event(ProcID(1)).signaled);
    // Closing the write end ends the read with the eight bytes it has.
    assert!(close(&mut ctx, ProcID(0), 3).is_ok());
    assert!(ctx.get_event(ProcID(1)).signaled);
    assert_eq!(ctx.read_cache(&Fd(2)), vec![2u8; 8]);
}

#[test]
fn test_spawn_empty_pipe() {
    let mut ctx: SimContext<u32> = SimContext::new();
    let parent = ProcID(0);
    let (r0, w0) = ctx.new_pipe(parent).unwrap();
    let (r1, w1) = ctx.new_pipe(parent).unwrap();
    assert_eq!(r0.0, 2);
    assert_eq!(w0.0, 3);
    assert_eq!(r1.0, 4);
    assert_eq!(w1.0, 5);
    assert!(close(&mut ctx, parent, r0.0).is_ok());
    assert_eq!(close(&mut ctx, parent, r0.0), Err(6));
    assert!(close(&mut ctx, parent, w1.0).is_ok());
    assert!(close(&mut ctx, parent, r1.0).is_ok());
    assert!(close(&mut ctx, parent, w0.0).is_ok());
    assert_eq!(ctx.len_pipe(), 0);
}

#[test]
fn test_spawn_invalid_fd() {
    let mut ctx: SimContext<u32> = SimContext::new();
    let parent = ProcID(0);
    let (_r0, w0) = ctx.new_pipe(parent).unwrap();
    let (r1, _w1) = ctx.new_pipe(parent).unwrap();
    let err = spawn_cell(&mut ctx, parent, &get_fds(&[r1.0 + 20, w0.0, 0])).unwrap_err();
    assert_eq!(err, 6);
    // A refused start leaves no trace.
    assert!(!ctx.has_proc(&ProcID(1)));
    assert!(ctx.has_fd(parent, &w0));
}

#[test]
fn test_spawn_max_vms() {
    let mut ctx: SimContext<u32> = SimContext::new();
    let parent = ProcID(0);
    for i in 0..16u64 {
        let (r0, _w0) = ctx.new_pipe(parent).unwrap();
        let pid = spawn_cell(&mut ctx, parent, &get_fds(&[r0.0, 0])).unwrap();
        assert_eq!(pid, ProcID(i + 1));
    }
    let (r0, _w0) = ctx.new_pipe(parent).unwrap();
    let err = spawn_cell(&mut ctx, parent, &get_fds(&[r0.0, 0])).unwrap_err();
    assert_eq!(err, 8);
    assert!(ctx.max_proc_spawned());
}

#[test]
fn test_pipe_max_fds() {
    let mut ctx: SimContext<u32> = SimContext::new();
    let parent = ProcID(0);
    let (r0, _w0) = ctx.new_pipe(parent).unwrap();
    spawn_cell(&mut ctx, parent, &get_fds(&[r0.0, 0])).unwrap();
    let mut fds = Vec::new();
    for _ in 0..31 {
        fds.push(ctx.new_pipe(parent).unwrap());
    }
    assert_eq!(ctx.len_pipe(), 64);
    assert_eq!(ctx.new_pipe(parent), Err(9));
    let (fd1, fd2) = fds.pop().unwrap();
    close(&mut ctx, parent, fd1.0).unwrap();
    close(&mut ctx, parent, fd2.0).unwrap();
    // Values are never handed out twice: the next pipe is a new pair.
    let again = ctx.new_pipe(parent).unwrap();
    assert_eq!(again, (Fd(66), Fd(67)));
    fds.push(again);
    while let Some((fd1, fd2)) = fds.pop() {
        close(&mut ctx, parent, fd1.0).unwrap();
        close(&mut ctx, parent, fd2.0).unwrap();
    }
    assert_eq!(ctx.len_pipe(), 2);
}

#[test]
fn check_spawn_simple_read_write() {
    let mut ctx: SimContext<u32> = SimContext::new();
    let block = vec![0xffu8; 11];
    let mut child_ops = Vec::new();
    for _ in 0..11 {
        child_ops.push(Op::ReadExact(4, 7));
    }
    for _ in 0..7 {
        child_ops.push(Op::WriteExact(3, block.clone()));
    }
    let mut parent_ops = full_spawn(child_ops);
    for _ in 0..7 {
        parent_ops.push(Op::WriteExact(5, block.clone()));
    }
    for _ in 0..7 {
        parent_ops.push(Op::ReadExact(2, 11));
    }
    parent_ops.push(Op::Wait(1, 101));
    let scripts = run(&mut ctx, parent_ops);
    assert!(scripts[0].done);
    assert!(scripts[1].done);
    assert_eq!(scripts[0].reads.len(), 7);
    for chunk in &scripts[0].reads {
        assert_eq!(chunk, &vec![0xffu8; 11]);
    }
    assert_eq!(scripts[1].reads.len(), 11);
    for chunk in &scripts[1].reads {
        assert_eq!(chunk, &vec![0xffu8; 7]);
    }
}

#[test]
fn check_spawn_invalid_fd() {
    let mut ctx: SimContext<u32> = SimContext::new();
    let parent = ProcID(0);
    let data = [0u8; 4];
    let invalid_fd = 0xff;
    assert_eq!(read_start(&mut ctx, parent, invalid_fd, 4).unwrap_err(), 6);
    assert_eq!(write_start(&mut ctx, parent, invalid_fd, &data).unwrap_err(), 6);

    let (r, w) = ctx.new_pipe(parent).unwrap();
    assert_eq!(read_start(&mut ctx, parent, w.0, 4).unwrap_err(), 6);
    assert_eq!(write_start(&mut ctx, parent, r.0, &data).unwrap_err(), 6);

    let pid = spawn_cell(&mut ctx, parent, &get_fds(&[r.0, 0])).unwrap();
    ctx.set_join_handle(pid, 0u32);
    assert_eq!(read_start(&mut ctx, parent, r.0, 4).unwrap_err(), 6);

    let (r1, w1) = ctx.new_pipe(parent).unwrap();
    close(&mut ctx, parent, r1.0).unwrap();
    assert_eq!(write_start(&mut ctx, parent, w1.0, &[0xfu8; 4]).unwrap_err(), 7);

    let (r1, w1) = ctx.new_pipe(parent).unwrap();
    close(&mut ctx, parent, w1.0).unwrap();
    assert_eq!(read_start(&mut ctx, parent, r1.0, 4).unwrap_err(), 7);

    assert_eq!(wait(&mut ctx, pid.0), Ok(0u32));
}

#[test]
fn check_spawn_read_write_with_close() {
    let mut ctx: SimContext<u32> = SimContext::new();
    let mut parent_ops = full_spawn(vec![Op::ReadExact(4, 100), Op::Close(4)]);
    parent_ops.push(Op::WriteExact(5, vec![0xffu8; 100]));
    parent_ops.push(Op::Wait(1, 101));
    let scripts = run(&mut ctx, parent_ops);
    assert_eq!(scripts[1].reads, vec![vec![0xffu8; 100]]);
    // The write of the parent has come back, and the read end is closed.
    assert_eq!(scripts[0].next, 4);
    assert!(!ctx.has_fd(ProcID(1), &Fd(4)));
    assert!(!ctx.chech_other_fd(&Fd(5)));
    // Retiring the close wakes the parent of the process that closed, so
    // the child keeps waiting on its own wake flag.
    assert!(scripts[1].waiting);
    assert!(!ctx.get_event(ProcID(1)).signaled);
}

#[test]
fn check_spawn_wait_multiple() {
    let mut ctx: SimContext<u32> = SimContext::new();
    let mut parent_ops = full_spawn(vec![]);
    parent_ops.push(Op::Wait(1, 101));
    let scripts = run(&mut ctx, parent_ops);
    assert!(scripts[0].done);
    assert_eq!(wait(&mut ctx, 1), Err(5));
    let more = vec![
        Op::Pipe(6, 7),
        Op::Pipe(8, 9),
        Op::Spawn(vec![8, 7, 0], vec![], 2),
        Op::Wait(2, 102),
    ];
    let scripts = run(&mut ctx, more);
    assert!(scripts[0].done);
    assert!(scripts[1].done);
}

#[test]
fn check_spawn_inherited_fds() {
    let mut ctx: SimContext<u32> = SimContext::new();
    let parent = ProcID(0);
    let mut raw = [0u64; 11];
    for i in 0..5 {
        let (r, w) = ctx.new_pipe(parent).unwrap();
        raw[i * 2] = r.0;
        raw[i * 2 + 1] = w.0;
    }
    let pid = spawn_cell(&mut ctx, parent, &get_fds(&raw)).unwrap();
    let got = inherited_fds(&ctx, pid, 10);
    assert_eq!(got.len(), 10);
    for i in 0u64..10 {
        assert_eq!(got[i as usize], i + 2);
    }
    // A shorter buffer gets the first of them.
    assert_eq!(inherited_fds(&ctx, pid, 3), vec![2, 3, 4]);
    assert_eq!(inherited_fds(&ctx, pid, 0), Vec::<u64>::new());
    // The root process inherited nothing.
    assert_eq!(inherited_fds(&ctx, parent, 4), Vec::<u64>::new());
}

#[test]
fn check_spawn_inherited_fds_without_owner() {
    let mut ctx: SimContext<u32> = SimContext::new();
    let parent = ProcID(0);
    assert_eq!(spawn_cell(&mut ctx, parent, &get_fds(&[0xFF, 0xFF, 0])).unwrap_err(), 6);
    let (r, w) = ctx.new_pipe(parent).unwrap();
    let pid = spawn_cell(&mut ctx, parent, &get_fds(&[r.0, w.0, 0])).unwrap();
    assert_eq!(pid, ProcID(1));
    assert_eq!(spawn_cell(&mut ctx, parent, &get_fds(&[r.0, w.0, 0])).unwrap_err(), 6);
    assert!(ctx.has_fd(pid, &r));
    assert!(ctx.has_fd(pid, &w));
}

#[test]
fn check_spawn_read_then_close() {
    let mut ctx: SimContext<u32> = SimContext::new();
    let mut parent_ops = full_spawn(vec![Op::Read(4, 8), Op::ReadFails(4, 7)]);
    parent_ops.push(Op::Close(5));
    parent_ops.push(Op::Wait(1, 101));
    let scripts = run(&mut ctx, parent_ops);
    assert!(scripts[0].done);
    assert!(scripts[1].done);
    // The first read of the child ended with nothing when the parent closed.
    assert_eq!(scripts[1].reads, vec![Vec::<u8>::new()]);
}

#[test]
fn check_spawn_max_vms_count() {
    let mut ctx: SimContext<u32> = SimContext::new();
    // Each process starts the next one until the limit is met.
    let mut current = ProcID(0);
    let mut started = 0;
    loop {
        match spawn_cell(&mut ctx, current, &get_fds(&[0])) {
            Ok(pid) => {
                started += 1;
                assert_eq!(pid, ProcID(started));
                current = pid;
            }
            Err(code) => {
                assert_eq!(code, 8);
                break;
            }
        }
    }
    assert_eq!(started, 16);
}

#[test]
fn check_spawn_max_fds_limit() {
    let mut ctx: SimContext<u32> = SimContext::new();
    let parent = ProcID(0);
    for _ in 0..16 {
        ctx.new_pipe(parent).unwrap();
    }
    let child = spawn_cell(&mut ctx, parent, &get_fds(&[0])).unwrap();
    for _ in 0..16 {
        ctx.new_pipe(child).unwrap();
    }
    assert_eq!(ctx.new_pipe(child).unwrap_err(), 9);
    assert_eq!(ctx.new_pipe(parent).unwrap_err(), 9);
}

#[test]
fn check_close_invalid_fd() {
    let mut ctx: SimContext<u32> = SimContext::new();
    let parent = ProcID(0);
    let fds = ctx.new_pipe(parent).unwrap();
    assert_eq!(close(&mut ctx, parent, fds.0 .0 + 32).unwrap_err(), 6);
    close(&mut ctx, parent, fds.0 .0).unwrap();
    close(&mut ctx, parent, fds.1 .0).unwrap();
    assert_eq!(close(&mut ctx, parent, fds.0 .0).unwrap_err(), 6);
    assert_eq!(close(&mut ctx, parent, fds.1 .0).unwrap_err(), 6);
}

#[test]
fn check_write_closed_fd() {
    let mut ctx: SimContext<u32> = SimContext::new();
    let child = vec![
        Op::WriteExact(3, vec![0u8; 7]),
        Op::WriteFails(3, 7),
        Op::Close(4),
        Op::Close(3),
    ];
    let mut parent_ops = full_spawn(child);
    parent_ops.push(Op::ReadExact(2, 7));
    parent_ops.push(Op::Close(2));
    parent_ops.push(Op::Close(5));
    parent_ops.push(Op::Wait(1, 101));
    let scripts = run(&mut ctx, parent_ops);
    assert_eq!(scripts[0].reads, vec![vec![0u8; 7]]);
    // The parent has closed both its ends, the child was refused its second
    // write and has closed its read end.
    assert_eq!(scripts[0].next, 6);
    assert_eq!(scripts[1].next, 2);
    assert!(!ctx.has_fd(ProcID(1), &Fd(4)));
    assert!(ctx.has_fd(ProcID(1), &Fd(3)));
    assert_eq!(ctx.len_pipe(), 1);
}

#[test]
fn check_pid() {
    let ids = CurrentIds::default();
    assert_eq!(ids.pid(), ProcID(0));
    let mut ctx: SimContext<u32> = SimContext::new();
    let parent_ops = vec![
        Op::Pipe(2, 3),
        Op::Pipe(4, 5),
        Op::Spawn(vec![4, 3, 0], vec![Op::WriteExact(3, 1u64.to_le_bytes().to_vec())], 1),
        Op::Pipe(6, 7),
        Op::Pipe(8, 9),
        Op::Spawn(vec![8, 7, 0], vec![Op::WriteExact(7, 2u64.to_le_bytes().to_vec())], 2),
        Op::ReadExact(2, 8),
        Op::ReadExact(6, 8),
    ];
    let scripts = run(&mut ctx, parent_ops);
    assert!(scripts[0].done);
    assert_eq!(
        scripts[0].reads,
        vec![1u64.to_le_bytes().to_vec(), 2u64.to_le_bytes().to_vec()]
    );
    assert_eq!(inherited_fds(&ctx, ProcID(2), 2), vec![8, 7]);
}

#[test]
fn test_spawn_ret_not0() {
    let mut ctx: SimContext<u32> = SimContext::new();
    let mut parent_ops = full_spawn(vec![]);
    parent_ops.push(Op::Wait(1, 101));
    let scripts = run(&mut ctx, parent_ops);
    assert!(scripts[0].done);
    assert!(scripts[1].done);
}

#[test]
fn test_spawn_io1() {
    let mut ctx: SimContext<u32> = SimContext::new();
    let child = vec![
        Op::WriteExact(3, b"helloworld".to_vec()),
        Op::WriteExact(3, vec![0, 1, 2, 3, 4, 5, 6, 7, 8, 0, 1, 2, 3, 4, 5, 6, 7, 8]),
    ];
    let mut parent_ops = full_spawn(child);
    parent_ops.push(Op::ReadFails(22, 6));
    parent_ops.push(Op::Read(2, 10));
    let scripts = run(&mut ctx, parent_ops);
    assert!(scripts[0].done);
    assert_eq!(scripts[0].reads, vec![b"helloworld".to_vec()]);
}

#[test]
fn test_spawn_io2() {
    let mut ctx: SimContext<u32> = SimContext::new();
    let mut parent_ops = full_spawn(vec![Op::Read(4, 256)]);
    parent_ops.push(Op::WriteExact(5, b"helloworld".to_vec()));
    let scripts = run(&mut ctx, parent_ops);
    assert!(scripts[0].done);
}

#[test]
fn test_spawn_io3() {
    let mut ctx: SimContext<u32> = SimContext::new();
    let mut parent_ops = full_spawn(vec![Op::ReadExact(4, 10)]);
    parent_ops.push(Op::WriteExact(5, b"helloworld".to_vec()));
    parent_ops.push(Op::Wait(1, 101));
    let scripts = run(&mut ctx, parent_ops);
    assert!(scripts[0].done);
    assert!(scripts[1].done);
    assert_eq!(scripts[1].reads, vec![b"helloworld".to_vec()]);
}

#[test]
fn test_spawn_io4() {
    let mut ctx: SimContext<u32> = SimContext::new();
    let mut parent_ops = full_spawn(vec![Op::WriteExact(3, b"helloworld".to_vec())]);
    parent_ops.push(Op::Read(2, 5));
    parent_ops.push(Op::Read(2, 5));
    let scripts = run(&mut ctx, parent_ops);
    assert!(scripts[0].done);
    assert_eq!(scripts[0].reads, vec![b"hello".to_vec(), b"world".to_vec()]);
    // Nothing has retired the drained write yet: the child still waits.
    assert!(scripts[1].waiting);
    ctx.process_io(None);
    assert!(ctx.get_event(ProcID(1)).signaled);
}

#[test]
fn test_io_read_more() {
    let mut ctx: SimContext<u32> = SimContext::new();
    let mut bytes = Vec::new();
    for count in 0..32u8 {
        bytes.push(count);
    }
    let parent_ops = vec![
        Op::Pipe(2, 3),
        Op::Spawn(vec![3, 0], vec![Op::WriteExact(3, bytes.clone())], 1),
        Op::Read(2, 128),
        Op::Wait(1, 101),
        Op::ReadFails(2, 7),
    ];
    let scripts = run(&mut ctx, parent_ops);
    assert!(scripts[0].done);
    assert!(scripts[1].done);
    // The read ends early with a front part of what was written.
    assert_eq!(scripts[0].reads.len(), 1);
    let got = &scripts[0].reads[0];
    assert!(got.len() <= 32);
    for (count, it) in got.iter().enumerate() {
        assert_eq!(*it, count as u8);
    }
}

#[test]
fn test_io_write_more() {
    let mut ctx: SimContext<u32> = SimContext::new();
    let parent_ops = vec![
        Op::Pipe(2, 3),
        Op::Spawn(vec![2, 0], vec![Op::ReadExact(2, 10)], 1),
        Op::WriteFails(23, 6),
        Op::WriteExact(3, b"helloworld".to_vec()),
        Op::Wait(1, 101),
        Op::WriteFails(3, 7),
    ];
    let scripts = run(&mut ctx, parent_ops);
    assert!(scripts[0].done);
    assert!(scripts[1].done);
    assert_eq!(scripts[1].reads, vec![b"helloworld".to_vec()]);
}
