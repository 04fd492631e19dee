use ckb_x64_simulator::process_info::{Process, TxContext};
use ckb_x64_simulator::utils::{CurrentIds, Event, Fd, ProcID, SimID};
use ckb_x64_simulator::vm_info::VMInfo;

#[test]
fn buffered_pipes_keep_bytes_in_order() {
    let mut ctx = TxContext::default();
    let root = ProcID(0);
    let (r, w) = ctx.new_pipe(root);
    assert_eq!((r, w), (Fd(2), Fd(3)));
    assert!(!ctx.has_data(&r));
    ctx.write_data(&w, b"hello");
    ctx.write_data(&w, b" world");
    assert!(ctx.has_data(&r));
    assert!(ctx.has_data(&w));
    assert_eq!(ctx.read_data(&r, 3), b"hel".to_vec());
    assert_eq!(ctx.read_data(&r, 0), Vec::<u8>::new());
    assert_eq!(ctx.read_data(&r, 100), b"lo world".to_vec());
    assert!(!ctx.has_data(&r));
    assert_eq!(ctx.read_data(&r, 4), Vec::<u8>::new());
    // Reading exactly what waits leaves nothing behind.
    ctx.write_data(&w, b"ab");
    assert_eq!(ctx.read_data(&r, 2), b"ab".to_vec());
    assert!(!ctx.has_data(&w));
    // Nothing waits at the write end.
    ctx.write_data(&w, b"zz");
    assert_eq!(ctx.read_data(&w, 2), Vec::<u8>::new());
}

#[test]
fn buffered_pipes_have_owners() {
    let mut ctx = TxContext::default();
    let root = ProcID(0);
    let (r, w) = ctx.new_pipe(root);
    let (r2, w2) = ctx.new_pipe(ProcID(1));
    assert_eq!((r2, w2), (Fd(4), Fd(5)));
    assert_eq!(ctx.len_pipe(), 4);
    assert!(ctx.has_fd(root, &r));
    assert!(!ctx.has_fd(root, &r2));
    assert!(ctx.chech_other_fd(&r));
    assert!(!ctx.close_pipe(root, r2));
    assert!(ctx.close_pipe(root, r));
    assert!(!ctx.close_pipe(root, r));
    assert_eq!(ctx.len_pipe(), 3);
    assert!(!ctx.chech_other_fd(&w));
    assert!(ctx.chech_other_fd(&r));
    ctx.move_pipe(&w, ProcID(1));
    assert!(ctx.has_fd(ProcID(1), &w));
    assert!(!ctx.has_fd(root, &w));
}

#[test]
fn a_parent_keeps_a_record_of_its_children() {
    let mut ctx = TxContext::default();
    let root = ProcID(0);
    let (r, w) = ctx.new_pipe(root);
    let (r2, w2) = ctx.new_pipe(root);
    let orphan = ctx.new_process(None, &[]);
    assert_eq!(orphan, ProcID(1));
    let child = ctx.new_process(Some(root), &[r, w2]);
    assert_eq!(child, ProcID(2));
    let other = ctx.new_process(Some(root), &[r2]);
    assert_eq!(other, ProcID(3));
    assert_eq!(ctx.process(&child).inherited_fds(), vec![r, w2]);
    assert_eq!(ctx.process(&orphan).inherited_fds(), Vec::<Fd>::new());
    let parent = ctx.process(&root);
    assert_eq!(parent.get_child_by_id(&child).unwrap().inherited_fds, vec![r, w2]);
    assert_eq!(parent.get_child_by_id(&other).unwrap().id, other);
    assert!(parent.get_child_by_id(&orphan).is_none());
    assert_eq!(parent.get_child_by_fd(&r).unwrap().id, child);
    assert_eq!(parent.get_child_by_fd(&r2).unwrap().id, other);
    assert!(parent.get_child_by_fd(&w).is_none());
    assert_eq!(parent.wait(None), Event { signaled: false });
    assert_eq!(parent.wait_by_pid(&root), Event { signaled: false });
    assert_eq!(parent.wait_by_pid(&child), Event { signaled: false });
}

#[test]
fn a_notification_sets_the_flag_that_the_pipe_end_selects() {
    let mut p = Process::default();
    p.notify(None);
    // The flag to notify is not the flag to wait on.
    assert_eq!(p.wait(None), Event { signaled: false });
    let mut ids = CurrentIds::default();
    TxContext::set_ctx_id(&mut ids, SimID(3));
    assert_eq!(TxContext::ctx_id(&ids), SimID(3));
    assert_eq!(ids.pid(), ProcID(0));
}

#[test]
fn machines_count_up_to_their_limit() {
    let mut ctx = ckb_x64_simulator::vm_info::TxContext::default();
    let root = ProcID(0);
    let (r, w) = ctx.new_pipe(root);
    assert!(!ctx.max_vms_spawned());
    for k in 1..16u64 {
        let id = ctx.new_vm(Some(root), &[r]);
        assert_eq!(id, ProcID(k));
        assert_eq!(ctx.max_vms_spawned(), k >= 15);
    }
    assert!(ctx.max_vms_spawned());
    assert_eq!(ctx.vm_info(&ProcID(3)).inherited_fds(), vec![r]);
    assert_eq!(ctx.vm_info(&root).get_child_by_fd(&r).unwrap().id, ProcID(1));
    assert!(ctx.vm_info(&root).get_child_by_fd(&w).is_none());
    // Reading tells how much is left.
    ctx.write_data(&w, b"abcdef");
    assert_eq!(ctx.read_data(&r, 4), (b"abcd".to_vec(), 2));
    assert_eq!(ctx.read_data(&r, 4), (b"ef".to_vec(), 0));
    assert_eq!(ctx.read_data(&r, 4), (Vec::new(), 0));
    assert!(!ctx.has_data(&r));
    assert!(ctx.close_pipe(root, w));
    assert_eq!(ctx.len_pipe(), 1);
    assert!(ctx.has_fd(root, &r));
    assert!(!ctx.chech_other_fd(&r));
    ctx.move_pipe(&r, ProcID(2));
    assert!(ctx.has_fd(ProcID(2), &r));
    let mut ids = CurrentIds::default();
    VMInfo::set_ctx_id(&mut ids, ProcID(4));
    ckb_x64_simulator::vm_info::TxContext::set_ctx_id(&mut ids, SimID(2));
    assert_eq!(VMInfo::ctx_id(&ids), ProcID(4));
    assert_eq!(ckb_x64_simulator::vm_info::TxContext::ctx_id(&ids), SimID(2));
    ckb_x64_simulator::vm_info::TxContext::clean(&mut ids);
    assert_eq!(ids, CurrentIds::default());
    let mut vm = VMInfo::default();
    vm.notify(None);
    assert_eq!(vm.wait(None), Event { signaled: false });
    assert_eq!(vm.wait_by_pid(&ProcID(0)), Event { signaled: false });
    assert!(vm.get_child_by_id(&ProcID(1)).is_none());
}

#[test]
fn parent_and_child_share_one_pair_of_flags() {
    let mut ctx = TxContext::default();
    let root = ProcID(0);
    let (r, w) = ctx.new_pipe(root);
    let child = ctx.new_process(Some(root), &[r]);
    let other = ctx.new_process(Some(root), &[Fd(9)]);
    // All flags start out clear.
    assert!(!ctx.process(&root).wait_by_pid(&child).signaled);
    assert!(!ctx.process(&child).wait(None).signaled);
    // The child notifies: the parent finds the flag of that child set, and
    // neither its own flag nor the flag of the other child.
    ctx.notify(&child, None);
    assert!(ctx.process(&root).wait_by_pid(&child).signaled);
    assert!(ctx.process(&root).wait(Some(&w)).signaled);
    assert!(!ctx.process(&root).wait_by_pid(&root).signaled);
    assert!(!ctx.process(&root).wait_by_pid(&other).signaled);
    assert!(!ctx.process(&child).wait(None).signaled);
    // Notifications collapse, and the parent consumes the flag once.
    ctx.notify(&child, None);
    assert!(ctx.wait(&root, Some(&w)));
    assert!(!ctx.wait(&root, Some(&w)));
    assert!(!ctx.process(&root).wait_by_pid(&child).signaled);
    // The parent notifies on the pipe end whose peer the child inherited:
    // the child finds its own flag set, and consumes it.
    ctx.notify(&root, Some(&w));
    assert!(ctx.process(&child).wait(None).signaled);
    assert!(!ctx.process(&other).wait(None).signaled);
    assert!(ctx.wait(&child, None));
    assert!(!ctx.wait(&child, None));
    // A notification that comes before the wait is not lost.
    ctx.notify(&root, Some(&Fd(8)));
    assert!(ctx.wait(&other, None));
    // The root has no parent: its own flags are its own.
    ctx.notify(&root, None);
    assert!(!ctx.wait(&root, None));
}

#[test]
fn machines_share_one_pair_of_flags_too() {
    let mut ctx = ckb_x64_simulator::vm_info::TxContext::default();
    let root = ProcID(0);
    let (r, w) = ctx.new_pipe(root);
    let child = ctx.new_vm(Some(root), &[r]);
    ctx.notify(&child, None);
    assert!(ctx.vm_info(&root).wait_by_pid(&child).signaled);
    assert!(ctx.wait(&root, Some(&w)));
    assert!(!ctx.wait(&root, Some(&w)));
    ctx.notify(&root, Some(&w));
    assert!(ctx.vm_info(&child).wait(None).signaled);
    assert!(ctx.wait(&child, None));
    assert!(!ctx.vm_info(&child).wait(None).signaled);
}
