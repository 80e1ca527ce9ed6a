//! The hard linker's path validation, staging, and failure propagation.

use completion_ring::hard_link::{HardLinkOp, Op, RingHardLinker};
use completion_ring::ring::{Cqe, Sqe};
use completion_ring::RingError;

#[test]
fn rejects_paths_with_interior_nul() {
    let mut linker = RingHardLinker::new();
    let r = linker.hard_link_rel(3, b"a\0b".to_vec(), 4, b"ok".to_vec());
    assert_eq!(r, Err(RingError::NulInPath));
    let r = linker.hard_link_rel(3, b"ok".to_vec(), 4, b"x\0".to_vec());
    assert_eq!(r, Err(RingError::NulInPath));
    assert_eq!(linker.in_flight(), 0);
}

#[test]
fn absolute_check_comes_before_nul_check() {
    let mut linker = RingHardLinker::new();
    // not absolute, and holding a NUL: the absolute check decides first
    let r = linker.hard_link_abs(b"rel\0".to_vec(), b"/ok".to_vec());
    assert_eq!(r, Err(RingError::NotAbsolute));
    // absolute but holding a NUL
    let r = linker.hard_link_abs(b"/a\0".to_vec(), b"/ok".to_vec());
    assert_eq!(r, Err(RingError::NulInPath));
    // both absolute and clean
    let r = linker.hard_link_abs(b"/from".to_vec(), b"/to".to_vec());
    assert_eq!(r, Ok(()));
    assert_eq!(linker.in_flight(), 1);
}

#[test]
fn stages_the_link_descriptor_it_was_asked_for() {
    let mut linker = RingHardLinker::new();
    linker
        .hard_link_rel(5, b"old/name".to_vec(), 6, b"new/name".to_vec())
        .unwrap();
    let tagged = linker.pop_staged().unwrap();
    match tagged.sqe {
        Sqe::LinkAt { old_dir_fd, old_path, new_dir_fd, new_path } => {
            assert_eq!(old_dir_fd, 5);
            assert_eq!(old_path, b"old/name".to_vec());
            assert_eq!(new_dir_fd, 6);
            assert_eq!(new_path, b"new/name".to_vec());
        }
        Sqe::Nop => panic!("a link request must stage a link descriptor"),
    }
    assert!(linker.pop_staged().is_none());
}

#[test]
fn absolute_links_ignore_directory_descriptors() {
    let op = HardLinkOp::with_absolute_paths(b"/a".to_vec(), b"/b".to_vec()).unwrap();
    assert_eq!(op.old_dir_fd, -1);
    assert_eq!(op.new_dir_fd, -1);
    assert_eq!(op.old_path, b"/a".to_vec());
    assert_eq!(op.new_path, b"/b".to_vec());
}

#[test]
fn failed_link_aborts_the_processing_pass() {
    let mut linker = RingHardLinker::new();
    linker.hard_link_abs(b"/a".to_vec(), b"/b".to_vec()).unwrap();
    linker.hard_link_abs(b"/c".to_vec(), b"/d".to_vec()).unwrap();
    let k1 = linker.pop_staged().unwrap().user_data;
    let k2 = linker.pop_staged().unwrap().user_data;
    // the first completion reports EEXIST (-17): its error aborts the pass
    let cqes = vec![
        Cqe { user_data: k1, result: -17 },
        Cqe { user_data: k2, result: 0 },
    ];
    let r = linker.process_completions(&cqes);
    assert_eq!(r, Err(RingError::Os(17)));
    // the second link was not delivered by the aborted pass
    assert_eq!(linker.in_flight(), 1);
    let rest = vec![Cqe { user_data: k2, result: 0 }];
    linker.process_completions(&rest).unwrap();
    assert!(linker.is_drained());
}

#[test]
fn successful_links_drain_cleanly() {
    let mut linker = RingHardLinker::new();
    linker.hard_link_rel(1, b"x".to_vec(), 2, b"y".to_vec()).unwrap();
    let op = HardLinkOp::new(1, b"p".to_vec(), 2, b"q".to_vec()).unwrap();
    linker.submit(Op::HardLink(op)).unwrap();
    let k1 = linker.pop_staged().unwrap().user_data;
    let k2 = linker.pop_staged().unwrap().user_data;
    let cqes = vec![
        Cqe { user_data: k1, result: 0 },
        Cqe { user_data: k2, result: 0 },
    ];
    linker.process_completions(&cqes).unwrap();
    assert!(linker.is_drained());
}
