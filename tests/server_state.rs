use tokio_redis::server::{next_backoff, Phase, Server, MAX_CONNECTIONS};
use tokio_redis::shutdown::Shutdown;

#[test]
fn admission_caps_connections() {
    let mut s = Server::new(3);
    assert!(s.try_admit());
    assert!(s.try_admit());
    assert!(s.try_admit());
    assert!(!s.try_admit());
    s.release();
    assert!(s.try_admit());
    assert_eq!(s.active(), 3);
}

#[test]
fn default_cap_admits_its_count() {
    let mut s = Server::new(MAX_CONNECTIONS);
    for _ in 0..MAX_CONNECTIONS {
        assert!(s.try_admit());
    }
    assert!(!s.try_admit());
}

#[test]
fn shutdown_waits_for_every_handler() {
    let mut s = Server::new(10);
    assert!(s.try_admit());
    assert!(s.try_admit());
    s.shut_down();
    assert_eq!(s.phase(), Phase::Draining);
    assert!(!s.try_admit());
    s.release();
    assert_eq!(s.phase(), Phase::Draining);
    s.release();
    assert_eq!(s.phase(), Phase::Closed);
}

#[test]
fn shutdown_with_no_handlers_closes_at_once() {
    let mut s = Server::new(1);
    s.shut_down();
    assert_eq!(s.phase(), Phase::Closed);
}

#[test]
fn backoff_doubles_until_the_ceiling() {
    assert_eq!(next_backoff(1), Some((1, 2)));
    assert_eq!(next_backoff(64), Some((64, 128)));
    assert_eq!(next_backoff(128), None);
}

#[test]
fn shutdown_flag_sticks() {
    let mut sd = Shutdown::new();
    assert!(!sd.is_shutdown());
    sd.notify();
    assert!(sd.is_shutdown());
    sd.notify();
    assert!(sd.is_shutdown());
}
