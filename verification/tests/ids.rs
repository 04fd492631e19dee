use ckb_x64_simulator::utils::{Event, Fd, ProcID, SimID};

#[test]
fn fd_create_takes_two_consecutive_values() {
    let (r, w, next) = Fd::create(2);
    assert_eq!(r, Fd(2));
    assert_eq!(w, Fd(3));
    assert_eq!(next, 4);
}

#[test]
fn fd_peer_flips_lowest_bit() {
    assert_eq!(Fd(2).other_fd(), Fd(3));
    assert_eq!(Fd(3).other_fd(), Fd(2));
    assert!(Fd(2).is_read());
    assert!(!Fd(3).is_read());
}

#[test]
fn sim_id_next_returns_new_value() {
    let mut id = SimID(0);
    assert_eq!(id.next(), SimID(1));
    assert_eq!(id, SimID(1));
}

#[test]
fn proc_id_next_returns_old_value() {
    let mut id = ProcID(1);
    assert_eq!(id.next(), ProcID(1));
    assert_eq!(id, ProcID(2));
}

#[test]
fn event_is_sticky_and_auto_reset() {
    let mut e = Event::default();
    assert!(!e.wait());
    e.notify();
    e.notify();
    assert!(e.wait());
    assert!(!e.wait());
}
