use tinyportmapper::fd_manager::{Fd64, FdManager};

#[test]
fn test_create_and_lookup() {
    let mut manager = FdManager::new();
    let raw_fd = 42;
    let fd64 = manager.create(raw_fd, 1000);

    assert_eq!(manager.to_fd(fd64), Some(raw_fd));
    assert!(manager.exist(fd64));
}

#[test]
fn test_close() {
    let mut manager = FdManager::new();
    let raw_fd = 42;
    let fd64 = manager.create(raw_fd, 1000);

    assert_eq!(manager.close(fd64), Some(raw_fd));
    assert!(!manager.exist(fd64));
    assert_eq!(manager.to_fd(fd64), None);
}

#[test]
fn test_reserve() {
    let mut manager = FdManager::new();
    manager.reserve(100);
}

#[test]
fn test_multiple_fds() {
    let mut manager = FdManager::new();
    let fd1 = manager.create(10, 1000);
    let fd2 = manager.create(20, 1000);
    let fd3 = manager.create(30, 1000);

    assert_ne!(fd1, fd2);
    assert_ne!(fd2, fd3);
    assert_ne!(fd1, fd3);

    assert_eq!(manager.to_fd(fd1), Some(10));
    assert_eq!(manager.to_fd(fd2), Some(20));
    assert_eq!(manager.to_fd(fd3), Some(30));
}

#[test]
fn test_fd_info() {
    let mut manager = FdManager::new();
    let fd64 = manager.create(42, 1000);

    assert!(manager.exist_info(&fd64));
    assert!(!manager.exist_info(&Fd64(99999)));
}

#[test]
fn test_close_nonexistent() {
    let mut manager = FdManager::new();
    let result = manager.close(Fd64(99999));
    assert_eq!(result, None);
}

#[test]
fn close_twice_only_first_returns_descriptor() {
    let mut manager = FdManager::new();
    let h = manager.create(7, 0);
    assert_eq!(manager.close(h), Some(7));
    assert_eq!(manager.close(h), None);
    assert!(!manager.exist(h));
}

#[test]
fn handles_are_never_reused() {
    let mut manager = FdManager::new();
    let h1 = manager.create(7, 0);
    manager.close(h1);
    let h2 = manager.create(7, 0);
    assert_ne!(h1, h2);
    assert_eq!(manager.to_fd(h1), None);
    assert_eq!(manager.to_fd(h2), Some(7));
}

#[test]
fn get_or_create_is_idempotent() {
    let mut manager = FdManager::new();
    let a = manager.get_or_create(5, 0);
    let b = manager.get_or_create(5, 10);
    assert_eq!(a, b);
    assert_eq!(manager.to_fd(a), Some(5));
}

#[test]
fn reusing_a_descriptor_retires_the_stale_handle() {
    let mut manager = FdManager::new();
    let old = manager.create(9, 0);
    let new = manager.create(9, 5);
    assert!(!manager.exist(old));
    assert_eq!(manager.to_fd(new), Some(9));
}

#[test]
fn activity_is_recorded() {
    let mut manager = FdManager::new();
    let h = manager.create(3, 100);
    manager.update_active(&h, 250);
    let info = manager.get_info(&h).unwrap();
    assert_eq!(info.create_time, 100);
    assert_eq!(info.last_active_time, 250);
    assert!(manager.get_info(&Fd64(12345)).is_none());
}

#[test]
fn to_raw_is_some_exactly_for_live_handles() {
    let mut manager = FdManager::new();
    let a = manager.create(1, 0);
    let b = manager.create(2, 0);
    manager.close(a);
    for h in [a, b, Fd64(0), Fd64(77)] {
        assert_eq!(manager.to_fd(h).is_some(), manager.exist(h));
    }
}
