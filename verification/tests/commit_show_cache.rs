use blazingjj::commit_show_cache::{CommitShowCache, CommitShowKey, CommitShowValue};
use blazingjj::revision::{ChangeId, CommitId, DiffFormat, Head};
use std::cell::Cell;

fn head(change: &str, commit: &str) -> Head {
    Head { change_id: ChangeId(change.to_string()), commit_id: CommitId(commit.to_string()) }
}

fn key(change: &str, commit: &str) -> CommitShowKey {
    CommitShowKey::new(head(change, commit), DiffFormat::ColorWords, 0)
}

fn text_of(value: &CommitShowValue) -> String {
    let doc = value.value();
    doc.render_slice(0, doc.lines()).to_string()
}

fn store(cache: &mut CommitShowCache, change: &str, commit: &str, output: &str) {
    cache.insert_document(CommitShowValue::new(key(change, commit), output.to_string()));
}

#[test]
fn key_keeps_width_only_for_diff_tool() {
    let a = CommitShowKey::new(head("c", "1"), DiffFormat::Git, 80);
    let b = CommitShowKey::new(head("c", "1"), DiffFormat::Git, 0);
    assert!(a == b);
    let t1 = CommitShowKey::new(head("c", "1"), DiffFormat::DiffTool(None), 80);
    let t2 = CommitShowKey::new(head("c", "1"), DiffFormat::DiffTool(None), 40);
    assert!(t1 != t2);
    let t3 = CommitShowKey::new(head("c", "1"), DiffFormat::DiffTool(Some("difft".to_string())), 80);
    assert!(t1 != t3);
}

#[test]
fn empty_cache_answers_nothing() {
    let cache = CommitShowCache::new();
    assert!(cache.get(&key("c", "1")).is_none());
    assert!(!cache.has_exact_match(&key("c", "1")));
}

#[test]
fn inserted_document_is_found() {
    let mut cache = CommitShowCache::new();
    store(&mut cache, "c", "1", "diff one\n");
    assert_eq!(text_of(cache.get(&key("c", "1")).unwrap()), "diff one\n");
    assert!(cache.get(&key("c", "2")).is_none());
    assert!(!cache.has_exact_match(&key("c", "2")));
}

#[test]
fn inserted_key_is_an_exact_match_until_set_active_drops_it() {
    let mut cache = CommitShowCache::new();
    store(&mut cache, "c", "1", "diff one\n");
    // Stored as the active value of its key.
    assert!(cache.has_exact_match(&key("c", "1")));
    cache.set_active(vec![head("c", "1")], &key("x", "x"));
    assert!(cache.has_exact_match(&key("c", "1")));
    // Active, but with no stored document.
    cache.set_active(vec![head("c", "1"), head("d", "4")], &key("x", "x"));
    assert!(!cache.has_exact_match(&key("d", "4")));
    // Left out of the next set_active: stored, no longer active.
    cache.set_active(vec![], &key("x", "x"));
    assert!(!cache.has_exact_match(&key("c", "1")));
    assert_eq!(text_of(cache.get(&key("c", "1")).unwrap()), "diff one\n");
    // Storing it again makes it active again.
    store(&mut cache, "c", "1", "diff two\n");
    assert!(cache.has_exact_match(&key("c", "1")));
}

#[test]
fn get_or_insert_makes_the_key_an_exact_match() {
    let mut cache = CommitShowCache::new();
    let k = key("c", "1");
    cache.get_or_insert(&k, || CommitShowValue::new(key("c", "1"), "computed".to_string()));
    assert!(cache.has_exact_match(&k));
}

#[test]
fn storing_another_width_replaces_the_active_key() {
    let mut cache = CommitShowCache::new();
    let wide = CommitShowKey::new(head("c", "1"), DiffFormat::DiffTool(None), 80);
    let narrow = CommitShowKey::new(head("c", "1"), DiffFormat::DiffTool(None), 40);
    cache.insert_document(CommitShowValue::new(wide.clone(), "wide".to_string()));
    cache.insert_document(CommitShowValue::new(narrow.clone(), "narrow".to_string()));
    assert!(cache.has_exact_match(&narrow));
    assert!(!cache.has_exact_match(&wide));
    // The other width stays stored.
    assert_eq!(text_of(cache.get(&wide).unwrap()), "wide");
}

#[test]
fn mark_dirty_leaves_other_changes_alone() {
    let mut cache = CommitShowCache::new();
    store(&mut cache, "c", "1", "kept");
    store(&mut cache, "d", "2", "shown");
    cache.set_active(vec![head("d", "2")], &key("x", "x"));
    cache.mark_dirty();
    assert_eq!(text_of(cache.get(&key("c", "1")).unwrap()), "kept");
    assert_eq!(text_of(cache.get(&key("c", "5")).unwrap()), "kept");
}

#[test]
fn insert_replaces_same_key() {
    let mut cache = CommitShowCache::new();
    store(&mut cache, "c", "1", "first");
    store(&mut cache, "c", "1", "second");
    assert_eq!(text_of(cache.get(&key("c", "1")).unwrap()), "second");
}

#[test]
fn rewritten_commit_falls_back_to_old_output() {
    let mut cache = CommitShowCache::new();
    store(&mut cache, "c", "1", "old output");
    // The change was rewritten: its head is now commit 2.
    cache.set_active(vec![head("c", "2")], &key("x", "x"));
    assert!(!cache.has_exact_match(&key("c", "2")));
    let answer = cache.get(&key("c", "2")).unwrap();
    assert_eq!(text_of(answer), "old output");
}

#[test]
fn fresh_output_discards_old_one() {
    let mut cache = CommitShowCache::new();
    store(&mut cache, "c", "1", "old output");
    cache.set_active(vec![head("c", "2")], &key("x", "x"));
    store(&mut cache, "c", "2", "new output");
    assert_eq!(text_of(cache.get(&key("c", "2")).unwrap()), "new output");
    // The old commit's output is gone.
    assert!(!cache.has_exact_match(&key("c", "1")));
}

#[test]
fn active_key_is_not_a_fallback() {
    let mut cache = CommitShowCache::new();
    store(&mut cache, "c", "1", "one");
    cache.set_active(vec![head("c", "1")], &key("x", "x"));
    // Another commit of the same change is not answered by an active key.
    assert!(cache.get(&key("c", "9")).is_none());
    assert_eq!(text_of(cache.get(&key("c", "1")).unwrap()), "one");
}

#[test]
fn unrelated_change_is_not_answered() {
    let mut cache = CommitShowCache::new();
    store(&mut cache, "c", "1", "one");
    cache.set_active(vec![head("d", "5")], &key("x", "x"));
    assert!(cache.get(&key("e", "7")).is_none());
    assert_eq!(text_of(cache.get(&key("c", "3")).unwrap()), "one");
}

#[test]
fn divergent_change_keeps_both_heads() {
    let mut cache = CommitShowCache::new();
    store(&mut cache, "c", "1", "one");
    store(&mut cache, "c", "2", "two");
    cache.set_active(vec![head("c", "1"), head("c", "2")], &key("x", "x"));
    assert_eq!(text_of(cache.get(&key("c", "1")).unwrap()), "one");
    assert_eq!(text_of(cache.get(&key("c", "2")).unwrap()), "two");
}

#[test]
fn mark_dirty_turns_active_outputs_into_fallbacks() {
    let mut cache = CommitShowCache::new();
    let width_key = |c: &str, h: &str| CommitShowKey::new(head(c, h), DiffFormat::DiffTool(None), 80);
    cache.insert_document(CommitShowValue::new(width_key("c", "1"), "shown".to_string()));
    cache.set_active(vec![head("c", "1")], &width_key("x", "x"));
    cache.mark_dirty();
    // The dirty output no longer matches exactly.
    assert!(!cache.has_exact_match(&width_key("c", "1")));
    cache.set_active(vec![head("c", "1")], &width_key("x", "x"));
    // But it stands in for its change until fresh output is stored.
    assert_eq!(text_of(cache.get(&width_key("c", "1")).unwrap()), "shown");
    cache.insert_document(CommitShowValue::new(width_key("c", "1"), "fresh".to_string()));
    assert_eq!(text_of(cache.get(&width_key("c", "1")).unwrap()), "fresh");
}

#[test]
fn mark_dirty_marks_inserted_keys_too() {
    let mut cache = CommitShowCache::new();
    store(&mut cache, "c", "1", "one");
    cache.mark_dirty();
    // The stored value was the active one, so it is now dirty.
    assert!(!cache.has_exact_match(&key("c", "1")));
    cache.set_active(vec![head("c", "1")], &key("x", "x"));
    // It stands in for its change until fresh output is stored.
    assert!(!cache.has_exact_match(&key("c", "1")));
    assert_eq!(text_of(cache.get(&key("c", "1")).unwrap()), "one");
}

#[test]
fn mark_dirty_on_an_empty_cache_keeps_it_empty() {
    let mut cache = CommitShowCache::new();
    cache.mark_dirty();
    assert!(cache.get(&key("c", "1")).is_none());
}

#[test]
fn get_or_insert_computes_once() {
    let mut cache = CommitShowCache::new();
    let calls = Cell::new(0);
    let k = key("c", "1");
    let first = text_of(cache.get_or_insert(&k, || {
        calls.set(calls.get() + 1);
        CommitShowValue::new(key("c", "1"), "computed".to_string())
    }));
    assert_eq!(first, "computed");
    let second = text_of(cache.get_or_insert(&k, || {
        calls.set(calls.get() + 1);
        CommitShowValue::new(key("c", "1"), "again".to_string())
    }));
    assert_eq!(second, "computed");
    assert_eq!(calls.get(), 1);
}
