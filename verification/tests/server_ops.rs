use staged_kv::action::Action;
use staged_kv::server::Server;

#[test]
fn read_of_fresh_server_finds_nothing() {
    let s = Server::new();
    assert_eq!(s.read("anything"), None);
}

#[test]
fn staged_set_is_invisible_until_commit() {
    let mut s = Server::new();
    s.stage_set("k".to_string(), "v".to_string());
    assert_eq!(s.read("k"), None);
    s.commit();
    assert_eq!(s.read("k"), Some("v".to_string()));
}

#[test]
fn set_then_commit_reads_back() {
    let mut s = Server::new();
    let existed = s.stage_set("key".to_string(), "value".to_string());
    assert!(!existed);
    s.commit();
    assert_eq!(s.read("key"), Some("value".to_string()));
}

#[test]
fn delete_then_commit_removes_regardless_of_prior_state() {
    let mut s = Server::new();
    s.stage_set("k".to_string(), "v".to_string());
    s.commit();
    s.stage_delete("k".to_string());
    s.commit();
    assert_eq!(s.read("k"), None);

    // And on a key that never existed.
    let mut t = Server::new();
    t.stage_delete("ghost".to_string());
    t.commit();
    assert_eq!(t.read("ghost"), None);
}

#[test]
fn commit_on_empty_queue_is_a_no_op() {
    let mut s = Server::new();
    s.stage_set("a".to_string(), "1".to_string());
    s.commit();
    s.commit();
    assert_eq!(s.read("a"), Some("1".to_string()));
}

#[test]
fn last_staged_set_wins() {
    let mut s = Server::new();
    s.stage_set("k".to_string(), "first".to_string());
    s.stage_set("k".to_string(), "second".to_string());
    s.commit();
    assert_eq!(s.read("k"), Some("second".to_string()));
}

#[test]
fn last_set_wins_with_interleaved_other_keys() {
    let mut s = Server::new();
    s.stage_set("k".to_string(), "1".to_string());
    s.stage_set("x".to_string(), "a".to_string());
    s.stage_set("k".to_string(), "2".to_string());
    s.stage_delete("x".to_string());
    s.commit();
    assert_eq!(s.read("k"), Some("2".to_string()));
    assert_eq!(s.read("x"), None);
}

#[test]
fn delete_of_unstaged_key_leaves_others_untouched() {
    let mut s = Server::new();
    s.stage_set("kept".to_string(), "x".to_string());
    s.commit();
    s.stage_delete("never-staged".to_string());
    s.commit();
    assert_eq!(s.read("never-staged"), None);
    assert_eq!(s.read("kept"), Some("x".to_string()));
}

#[test]
fn stage_set_reports_whether_key_existed() {
    let mut s = Server::new();
    assert!(!s.stage_set("k".to_string(), "1".to_string()));
    // Still only staged: the key does not exist yet.
    assert!(!s.stage_set("k".to_string(), "2".to_string()));
    s.commit();
    assert!(s.stage_set("k".to_string(), "3".to_string()));
}

#[test]
fn end_to_end_scenario() {
    let mut s = Server::new();
    assert!(!s.stage_set("a".to_string(), "1".to_string()));
    assert!(!s.stage_set("b".to_string(), "2".to_string()));
    s.commit();
    assert_eq!(s.read("a"), Some("1".to_string()));
    assert_eq!(s.read("b"), Some("2".to_string()));
    s.stage_delete("a".to_string());
    s.commit();
    assert_eq!(s.read("a"), None);
    assert_eq!(s.read("b"), Some("2".to_string()));
}

#[test]
fn key_churn_keeps_reads_of_absent_keys_normal() {
    // Stage-and-delete churn over many distinct keys leaves the backing
    // table without tombstones, so probing absent keys stays a normal
    // "not found" result however long the churn runs.
    let mut s = Server::new();
    s.stage_set("kept".to_string(), "x".to_string());
    s.commit();
    for i in 0..1000 {
        let key = format!("churn-{}", i);
        s.stage_set(key.clone(), "v".to_string());
        s.commit();
        s.stage_delete(key.clone());
        s.commit();
        assert_eq!(s.read(&key), None);
        assert_eq!(s.read("missing"), None);
    }
    assert_eq!(s.read("kept"), Some("x".to_string()));
}

#[test]
fn shared_cache_handle_sees_committed_entries() {
    let mut s = Server::new();
    let cache = s.getCache();
    s.stage_set("k".to_string(), "v".to_string());
    s.commit();
    let guard = cache.get("k").expect("committed entry visible through the handle");
    assert_eq!(&*guard, "v");
}

#[test]
fn shared_queue_handle_feeds_commit() {
    let mut s = Server::new();
    let queue = s.getQueue();
    queue.put(Action::SetValue("k".to_string(), "v".to_string()));
    s.commit();
    assert_eq!(s.read("k"), Some("v".to_string()));
}
