use biturbo::error::BiError;
use biturbo::index_engine::{meta_path_for, IdMap};
use biturbo::persistence::{hash_text, plan_replay, PendingMutation};

#[test]
fn id_map_reuses_ids_for_known_uids() {
    let mut m = IdMap::new();
    let a = m.add("a");
    let b = m.add("b");
    let again = m.add("a");
    assert_eq!((a.ext_id, a.replaces), (1, false));
    assert_eq!((b.ext_id, b.replaces), (2, false));
    assert_eq!((again.ext_id, again.replaces), (1, true));
    assert_eq!(m.len(), 2);
    assert_eq!(m.ext_id_of("b"), Some(2));
    assert_eq!(m.uid_of_ext(1), Some("a".to_string()));
    assert_eq!(m.remove("a"), Some(1));
    assert_eq!(m.remove("a"), None);
    assert!(!m.contains_uid("a"));
    let c = m.add("c");
    assert_eq!(c.ext_id, 3);
}

#[test]
fn id_map_batches_keep_first_occurrences() {
    let mut m = IdMap::new();
    let plan = m.add_batch(&["x".to_string(), "y".to_string(), "x".to_string()]);
    assert_eq!(plan.positions, vec![0, 1]);
    assert_eq!(plan.slots.len(), 2);
    assert_eq!(m.len(), 2);
}

#[test]
fn id_map_from_pairs_continues_after_the_largest() {
    let mut m = IdMap::from_pairs(vec![("a".to_string(), 7), ("b".to_string(), 3)]);
    assert_eq!(m.add("c").ext_id, 8);
}

#[test]
fn uid_map_path_replaces_the_extension() {
    assert_eq!(meta_path_for("/data/indices/default.tvim"), "/data/indices/default.uidmap.json");
    assert_eq!(meta_path_for("plain"), "plain.uidmap.json");
    assert_eq!(meta_path_for("/data/indices/"), "/data/indices.uidmap.json");
    assert_eq!(meta_path_for("x/t.tvim/"), "x/t.uidmap.json");
    assert_eq!(meta_path_for("x/t.tvim/./"), "x/t.uidmap.json");
    assert_eq!(meta_path_for("/"), "/");
    assert_eq!(meta_path_for(""), "");
    assert_eq!(meta_path_for("./"), "./");
    assert_eq!(meta_path_for("/data/.."), "/data/..");
}

fn m(id: i64, uid: &str, op: &str, content: Option<&str>) -> PendingMutation {
    PendingMutation { id, uid: uid.into(), operation: op.into(), content: content.map(String::from) }
}

#[test]
fn replay_applies_only_the_newest_entry_per_uid() {
    assert!(plan_replay(&Vec::new()).unwrap().is_none());
    let pending = vec![m(1, "a", "upsert", Some("x")), m(2, "b", "upsert", Some("y")), m(3, "a", "delete", None)];
    let plan = plan_replay(&pending).unwrap().unwrap();
    assert_eq!(plan.upserts, vec![1]);
    assert_eq!(plan.deletes, vec![2]);
    assert_eq!(plan.max_id, 3);
}

#[test]
fn replay_refuses_broken_entries() {
    let r = plan_replay(&vec![m(1, "a", "upsert", None)]);
    assert_eq!(r.err(), Some(BiError::Index("upsert journal entry has no content".into())));
    let r = plan_replay(&vec![m(1, "a", "rename", None)]);
    assert_eq!(r.err(), Some(BiError::Index("unknown journal operation rename".into())));
    assert_eq!(hash_text("abc"), "ba7816bf8f01cfea414140de5dae2223b00361a396177a9cb410ff61f20015ad");
}

#[test]
fn id_map_pairs_round_trip_and_next_id() {
    let mut m = IdMap::from_pairs(vec![("a".to_string(), 7), ("b".to_string(), 3)]);
    assert_eq!(m.next_ext_id(), 8);
    assert!(m.is_bijective());
    let s = m.add("c");
    assert_eq!(s.ext_id, 8);
    assert_eq!(m.next_ext_id(), 9);
    assert_eq!(
        m.to_pairs(),
        vec![("a".to_string(), 7), ("b".to_string(), 3), ("c".to_string(), 8)]
    );
    let again = IdMap::from_pairs(m.to_pairs());
    assert_eq!(again.ext_id_of("c"), Some(8));
    let shared = IdMap::from_pairs(vec![("x".to_string(), 2), ("y".to_string(), 2)]);
    assert!(!shared.is_bijective());
}

#[test]
fn removed_ids_are_not_handed_out_again() {
    let mut m = IdMap::new();
    let a = m.add("a");
    assert_eq!(m.remove("a"), Some(a.ext_id));
    let b = m.add("b");
    assert!(b.ext_id > a.ext_id);
    assert_eq!(m.ext_id_of("a"), None);
}

#[test]
fn meta_paths_agree_with_set_extension() {
    for p in [
        "/data/indices/default.tvim",
        "plain",
        "x/t.tvim/",
        "x/t.tvim/.",
        "x/./t.tvim",
        "a/b.c.d",
        ".hidden",
        "dir/.hidden",
        "name.",
        "/data/..",
        "/",
        "",
        ".",
        "./",
        "a//b//",
    ] {
        let mut expected = std::path::PathBuf::from(p);
        expected.set_extension("uidmap.json");
        assert_eq!(meta_path_for(p), expected.to_string_lossy(), "{p}");
    }
}

#[test]
fn a_second_replay_finds_nothing_pending() {
    let pending = vec![m(1, "a", "upsert", Some("x")), m(2, "b", "delete", None), m(3, "a", "delete", None)];
    let plan = plan_replay(&pending).unwrap().unwrap();
    let left: Vec<PendingMutation> = pending.into_iter().filter(|p| p.id > plan.max_id).collect();
    assert!(left.is_empty());
    assert!(plan_replay(&left).unwrap().is_none());
}
