use ckb_x64_simulator::constants::{
    CKB_INVALID_FD, CKB_MAX_FDS_CREATED, CKB_MAX_VMS_SPAWNED, CKB_OTHER_END_CLOSED, CKB_SUCCESS,
    CKB_WAIT_FAILURE, MAX_FDS, MAX_PROCESSES_COUNT,
};
use ckb_x64_simulator::global_data::GlobalData;
use ckb_x64_simulator::process_info::{copy_of, holds_fd, Process};
use ckb_x64_simulator::simulator_context::SimContext;
use ckb_x64_simulator::spawn::{close, CheckSpawn};
use ckb_x64_simulator::utils::{CurrentIds, Event, Fd, ProcID, SimID};

#[test]
fn status_codes() {
    assert_eq!(CKB_SUCCESS, 0);
    assert_eq!(CKB_WAIT_FAILURE, 5);
    assert_eq!(CKB_INVALID_FD, 6);
    assert_eq!(CKB_OTHER_END_CLOSED, 7);
    assert_eq!(CKB_MAX_VMS_SPAWNED, 8);
    assert_eq!(CKB_MAX_FDS_CREATED, 9);
    assert_eq!(MAX_PROCESSES_COUNT, 16);
    assert_eq!(MAX_FDS, 64);
}

#[test]
fn ids_convert_to_and_from_numbers() {
    assert_eq!(Fd::from(7u64), Fd(7));
    assert_eq!(u64::from(Fd(7)), 7);
    assert_eq!(SimID::from(3u64), SimID(3));
    assert_eq!(u64::from(SimID(3)), 3);
    assert_eq!(ProcID::from(9u64), ProcID(9));
    assert_eq!(u64::from(ProcID(9)), 9);
    assert_eq!(SimID::default(), SimID(0));
    assert_eq!(ProcID::default(), ProcID(0));
}

#[test]
fn a_thread_acts_as_one_process_of_one_simulation() {
    let mut ids = CurrentIds::default();
    assert_eq!((ids.ctx_id(), ids.pid()), (SimID(0), ProcID(0)));
    ids.update_ctx_id(SimID(4), None);
    assert_eq!((ids.ctx_id(), ids.pid()), (SimID(4), ProcID(0)));
    ids.update_ctx_id(SimID(5), Some(ProcID(2)));
    assert_eq!((ids.ctx_id(), ids.pid()), (SimID(5), ProcID(2)));
    ids.clean();
    assert_eq!((ids.ctx_id(), ids.pid()), (SimID(0), ProcID(0)));
    Process::set_ctx_id(&mut ids, ProcID(8));
    assert_eq!(Process::ctx_id(&ids), ProcID(8));
    assert_eq!(ids.ctx_id(), SimID(0));
}

#[test]
fn a_fresh_simulation() {
    let ctx: SimContext<u32> = SimContext::default();
    assert!(ctx.has_proc(&ProcID(0)));
    assert!(!ctx.has_proc(&ProcID(1)));
    assert_eq!(ctx.len_pipe(), 0);
    assert!(!ctx.max_proc_spawned());
    assert!(!ctx.get_event(ProcID(0)).signaled);
    assert_eq!(ctx.inherited_fds(ProcID(0)), Vec::<Fd>::new());
    assert!(!ctx.has_fd(ProcID(0), &Fd(2)));
}

#[test]
fn pipes_come_in_consecutive_pairs() {
    let mut ctx: SimContext<u32> = SimContext::new();
    for k in 0..5u64 {
        let (r, w) = ctx.new_pipe(ProcID(0)).unwrap();
        assert_eq!((r, w), (Fd(2 * k + 2), Fd(2 * k + 3)));
        assert!(r.is_read());
        assert_eq!(w.0, r.0 | 1);
        assert_eq!(r.other_fd(), w);
        assert!(ctx.has_fd(ProcID(0), &r));
        assert!(ctx.has_fd(ProcID(0), &w));
        assert!(ctx.chech_other_fd(&r));
        assert!(ctx.chech_other_fd(&w));
    }
    assert_eq!(ctx.len_pipe(), 10);
}

#[test]
fn a_pipe_end_is_checked_in_order() {
    let mut ctx: SimContext<u32> = SimContext::new();
    let root = ProcID(0);
    let (r, w) = ctx.new_pipe(root).unwrap();
    assert_eq!(CheckSpawn::Def.check(&ctx, root, &r), Ok(()));
    assert_eq!(CheckSpawn::Def.check(&ctx, root, &w), Ok(()));
    assert_eq!(CheckSpawn::Read.check(&ctx, root, &r), Ok(()));
    assert_eq!(CheckSpawn::Read.check(&ctx, root, &w), Err(6));
    assert_eq!(CheckSpawn::Write.check(&ctx, root, &w), Ok(()));
    assert_eq!(CheckSpawn::Write.check(&ctx, root, &r), Err(6));
    // Someone else's end is invalid.
    assert_eq!(CheckSpawn::Def.check(&ctx, ProcID(1), &r), Err(6));
    // An end that was never made is invalid, also when its kind is wrong.
    assert_eq!(CheckSpawn::Def.check(&ctx, root, &Fd(40)), Err(6));
    assert_eq!(CheckSpawn::Read.check(&ctx, root, &Fd(41)), Err(6));
    // Once the other end is closed, the end is valid but of no use.
    assert!(ctx.close_pipe(root, w).is_ok());
    assert_eq!(CheckSpawn::Read.check(&ctx, root, &r), Err(7));
    assert_eq!(CheckSpawn::Def.check(&ctx, root, &r), Err(7));
    assert_eq!(CheckSpawn::Def.check(&ctx, root, &w), Err(6));
    assert_eq!(ctx.close_pipe(root, w), Err(()));
}

#[test]
fn the_registry_files_simulations_under_new_ids() {
    let mut data: GlobalData<u32> = GlobalData::default();
    assert!(data.has_tx(&SimID(0)));
    assert!(!data.has_tx(&SimID(1)));
    assert_eq!(data.get_tx(&SimID(0)).len_pipe(), 0);
    let id = data.set_tx(SimContext::new());
    assert_eq!(id, SimID(2));
    let id = data.set_tx(SimContext::new());
    assert_eq!(id, SimID(3));
    assert!(data.has_tx(&SimID(2)));
    assert!(data.has_tx(&SimID(3)));
    assert!(!data.has_tx(&SimID(1)));
    // A simulation is changed in place, and the others are not touched.
    let (r, _w) = data.get_tx_mut(&SimID(2)).new_pipe(ProcID(0)).unwrap();
    assert_eq!(r, Fd(2));
    assert_eq!(data.get_tx(&SimID(2)).len_pipe(), 2);
    assert_eq!(data.get_tx(&SimID(3)).len_pipe(), 0);
    assert_eq!(data.get_tx(&SimID(0)).len_pipe(), 0);
    data.clean();
    assert!(data.has_tx(&SimID(0)));
    assert!(!data.has_tx(&SimID(2)));
    assert_eq!(data.set_tx(SimContext::new()), SimID(2));
}

#[test]
fn lists_of_pipe_ends() {
    let fds = vec![Fd(2), Fd(5), Fd(9)];
    assert!(holds_fd(&fds, &Fd(5)));
    assert!(!holds_fd(&fds, &Fd(4)));
    assert!(!holds_fd(&Vec::new(), &Fd(4)));
    assert_eq!(copy_of(&fds), fds);
    assert_eq!(Event::default(), Event { signaled: false });
}

#[test]
fn a_pipe_is_refused_at_64_open_ends() {
    let mut ctx: SimContext<u32> = SimContext::new();
    let root = ProcID(0);
    for k in 0..32u64 {
        assert_eq!(ctx.new_pipe(root), Ok((Fd(2 * k + 2), Fd(2 * k + 3))));
    }
    assert_eq!(ctx.len_pipe(), 64);
    assert_eq!(ctx.new_pipe(root), Err(9));
    assert_eq!(ctx.len_pipe(), 64);
    // With one end closed there are 63 open ends, and a pipe is made again.
    assert!(close(&mut ctx, root, 2).is_ok());
    assert_eq!(ctx.len_pipe(), 63);
    assert_eq!(ctx.new_pipe(root), Ok((Fd(66), Fd(67))));
    assert_eq!(ctx.len_pipe(), 65);
    assert_eq!(ctx.new_pipe(root), Err(9));
    assert_eq!(ctx.fd_count(), 68);
}
