use todb::common::config::default_log_format;
use todb::common::{Error, ErrorCode};
use todb::memory::{MemoryContext, MemoryContextTree};

#[test]
fn retryable_codes_are_the_transient_ones() {
    for c in [
        ErrorCode::RpcTimeout,
        ErrorCode::RpcUnavailable,
        ErrorCode::TxnConflict,
        ErrorCode::TxnDeadlock,
        ErrorCode::RaftNotLeader,
        ErrorCode::RaftLeadershipChanged,
    ] {
        assert!(c.is_retryable());
    }
    for c in [
        ErrorCode::Success,
        ErrorCode::Internal,
        ErrorCode::Config,
        ErrorCode::StorageIo,
        ErrorCode::TxnAborted,
        ErrorCode::RaftProposalDropped,
    ] {
        assert!(!c.is_retryable());
    }
}

#[test]
fn error_code_numbers() {
    assert_eq!(ErrorCode::Success.number(), 0);
    assert_eq!(ErrorCode::Config.number(), 4);
    assert_eq!(ErrorCode::RpcNetworkError.number(), 1002);
    assert_eq!(ErrorCode::KeyExists.number(), 2004);
    assert_eq!(ErrorCode::TxnAborted.number(), 3003);
    assert_eq!(ErrorCode::RaftLeadershipChanged.number(), 4002);
}

#[test]
fn error_reports_its_code() {
    let e = Error::Known { code: ErrorCode::TxnConflict, message: "conflict".to_string() };
    assert_eq!(e.code(), ErrorCode::TxnConflict);
    assert!(e.is_retryable());
    let o = Error::Other("boom".to_string());
    assert_eq!(o.code(), ErrorCode::Unknown);
    assert!(!o.is_retryable());
}

#[test]
fn log_format_defaults_to_json() {
    assert_eq!(default_log_format(), "json");
}

#[test]
fn memory_context_counts_and_wraps() {
    let mut c = MemoryContext::new(7, "ctx".to_string(), None);
    assert_eq!(c.name(), "ctx");
    c.record_alloc(100);
    c.record_dealloc(30);
    assert_eq!(c.allocated(), 70);
    c.record_dealloc(71);
    assert_eq!(c.allocated(), u64::MAX);
    c.reset();
    assert_eq!(c.allocated(), 0);
}

#[test]
fn memory_tree_creates_children_of_known_parents_only() {
    let mut t = MemoryContextTree::new();
    let root = t.root().id();
    assert_eq!(t.root().name(), "Top");
    let child = t.create_child("child".to_string(), root).unwrap();
    assert_eq!(t.get(child).unwrap().name(), "child");
    let grandchild = t.create_child("gc".to_string(), child).unwrap();
    assert!(grandchild != child);
    let unknown = {
        let mut other = MemoryContextTree::new();
        let a = other.create_child("a".to_string(), other.root().id()).unwrap();
        let b = other.create_child("b".to_string(), a).unwrap();
        other.create_child("c".to_string(), b).unwrap()
    };
    // Identifiers come from each tree's own counter: `unknown` (4) is not in `t` yet.
    assert!(t.get(unknown).is_none());
    assert!(t.create_child("x".to_string(), unknown).is_none());
    assert_eq!(t.total_allocated(), 0);
    t.reset_all();
    assert_eq!(t.total_allocated(), 0);
}

#[test]
fn memory_tree_gives_each_child_a_fresh_id() {
    let mut t = MemoryContextTree::new();
    let root = t.root().id();
    let a = t.create_child("a".to_string(), root).unwrap();
    let b = t.create_child("b".to_string(), root).unwrap();
    let c = t.create_child("c".to_string(), a).unwrap();
    assert!(a != root && b != root && c != root);
    assert!(a != b && b != c && a != c);
    assert_eq!(t.get(a).unwrap().name(), "a");
    assert_eq!(t.get(b).unwrap().name(), "b");
    assert_eq!(t.get(c).unwrap().name(), "c");
    assert_eq!(t.get(root).unwrap().name(), "Top");
}

#[test]
fn memory_tree_records_allocations_in_its_contexts() {
    let mut t = MemoryContextTree::new();
    let root = t.root().id();
    let a = t.create_child("a".to_string(), root).unwrap();
    assert!(t.record_alloc(a, 100));
    assert!(t.record_alloc(root, 20));
    assert!(t.record_dealloc(a, 30));
    assert_eq!(t.get(a).unwrap().allocated(), 70);
    assert_eq!(t.get(root).unwrap().allocated(), 20);
    assert_eq!(t.total_allocated(), 90);
    let unknown = {
        let mut other = MemoryContextTree::new();
        let x = other.create_child("x".to_string(), other.root().id()).unwrap();
        other.create_child("y".to_string(), x).unwrap()
    };
    assert!(!t.record_alloc(unknown, 5));
    assert_eq!(t.total_allocated(), 90);
    t.reset_all();
    assert_eq!(t.total_allocated(), 0);
}
