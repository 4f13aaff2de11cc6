use operator::merge::{apply_merge, cleanup_merge};
use operator::MapRoleSpec;

fn mk(key: &str, user: &str, groups: &[&str]) -> MapRoleSpec {
    MapRoleSpec {
        rolearn: key.as_bytes().to_vec(),
        username: user.as_bytes().to_vec(),
        groups: groups.iter().map(|g| g.as_bytes().to_vec()).collect(),
    }
}

fn same(a: &MapRoleSpec, b: &MapRoleSpec) -> bool {
    a.rolearn == b.rolearn && a.username == b.username && a.groups == b.groups
}

fn same_list(a: &[MapRoleSpec], b: &[MapRoleSpec]) -> bool {
    a.len() == b.len() && a.iter().zip(b.iter()).all(|(x, y)| same(x, y))
}

#[test]
fn apply_appends_missing_mapping() {
    let desired = mk("roleA", "alice", &["g1"]);
    let (es, changed) = apply_merge(Vec::new(), &desired);
    assert!(changed);
    assert!(same_list(&es, &[mk("roleA", "alice", &["g1"])]));
}

#[test]
fn apply_of_identical_mapping_changes_nothing() {
    let desired = mk("roleA", "alice", &["g1"]);
    let (es, changed) = apply_merge(vec![mk("roleA", "alice", &["g1"])], &desired);
    assert!(!changed);
    assert!(same_list(&es, &[mk("roleA", "alice", &["g1"])]));
}

#[test]
fn apply_rewrites_differing_mapping() {
    let desired = mk("roleA", "bob", &["g2"]);
    let (es, changed) = apply_merge(vec![mk("roleA", "alice", &["g1"])], &desired);
    assert!(changed);
    assert!(same_list(&es, &[mk("roleA", "bob", &["g2"])]));
}

#[test]
fn apply_twice_reports_no_change_the_second_time() {
    let desired = mk("roleA", "bob", &["g2"]);
    let start = vec![mk("roleA", "alice", &["g1"]), mk("roleB", "carol", &["g3"])];
    let (once, changed_once) = apply_merge(start, &desired);
    assert!(changed_once);
    let snapshot: Vec<MapRoleSpec> = once.iter().map(|e| e.duplicate()).collect();
    let (twice, changed_twice) = apply_merge(once, &desired);
    assert!(!changed_twice);
    assert!(same_list(&twice, &snapshot));
}

#[test]
fn apply_keeps_keys_unique() {
    let start = vec![mk("roleA", "alice", &["g1"]), mk("roleB", "bob", &["g2"])];
    let (es, _) = apply_merge(start, &mk("roleB", "dora", &["g9"]));
    for i in 0..es.len() {
        for j in (i + 1)..es.len() {
            assert_ne!(es[i].rolearn, es[j].rolearn);
        }
    }
    assert_eq!(es.len(), 2);
}

#[test]
fn apply_touches_only_first_of_preexisting_duplicates() {
    let start = vec![mk("roleA", "alice", &["g1"]), mk("roleA", "bob", &["g2"])];
    let (es, changed) = apply_merge(start, &mk("roleA", "carol", &["g3"]));
    assert!(changed);
    assert!(same_list(&es, &[mk("roleA", "carol", &["g3"]), mk("roleA", "bob", &["g2"])]));
}

#[test]
fn applies_for_distinct_keys_do_not_disturb_each_other() {
    let (es, _) = apply_merge(Vec::new(), &mk("roleA", "alice", &["g1"]));
    let (es, _) = apply_merge(es, &mk("roleB", "bob", &["g2"]));
    assert!(same_list(&es, &[mk("roleA", "alice", &["g1"]), mk("roleB", "bob", &["g2"])]));
    let (es, changed) = cleanup_merge(es, &mk("roleB", "bob", &["g2"]));
    assert!(changed);
    assert!(same_list(&es, &[mk("roleA", "alice", &["g1"])]));
}

#[test]
fn cleanup_removes_matching_entry() {
    let start = vec![mk("roleA", "alice", &["g1"]), mk("roleB", "carol", &["g3"])];
    let (es, changed) = cleanup_merge(start, &mk("roleA", "alice", &["g1"]));
    assert!(changed);
    assert!(same_list(&es, &[mk("roleB", "carol", &["g3"])]));
}

#[test]
fn cleanup_of_absent_key_changes_nothing() {
    let start = vec![mk("roleB", "carol", &["g3"])];
    let (es, changed) = cleanup_merge(start, &mk("roleA", "alice", &["g1"]));
    assert!(!changed);
    assert!(same_list(&es, &[mk("roleB", "carol", &["g3"])]));
}

#[test]
fn cleanup_undoes_a_fresh_apply() {
    let start = vec![mk("roleB", "carol", &["g3"])];
    let snapshot: Vec<MapRoleSpec> = start.iter().map(|e| e.duplicate()).collect();
    let desired = mk("roleA", "alice", &["g1"]);
    let (applied, _) = apply_merge(start, &desired);
    let (back, changed) = cleanup_merge(applied, &desired);
    assert!(changed);
    assert!(same_list(&back, &snapshot));
}

#[test]
fn cleanup_removes_at_most_the_first_match() {
    let start = vec![mk("roleA", "alice", &["g1"]), mk("roleA", "bob", &["g2"])];
    let (es, changed) = cleanup_merge(start, &mk("roleA", "alice", &["g1"]));
    assert!(changed);
    assert!(same_list(&es, &[mk("roleA", "bob", &["g2"])]));
}
