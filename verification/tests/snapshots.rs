use adsb_radar::snapshots::{
    current_snapshot_name, snapshot_name, snapshot_statement, snapshot_time,
};
use adsb_radar::store::Store;

/// The files that are left in a directory after pruning.
fn left_after(names: &Vec<String>, keep: usize) -> Vec<String> {
    let gone = Store::prune(names, keep);
    let mut left: Vec<String> = Vec::new();
    for (i, name) in names.iter().enumerate() {
        if !gone.contains(&i) {
            left.push(name.clone());
        }
    }
    left
}

#[test]
fn prune_keeps_newest_snapshots_and_spares_everything_else() {
    let mut names: Vec<String> = Vec::new();
    for i in 1..=15 {
        names.push(format!("dex-{i}.db"));
    }
    // Decoys that must survive: only dex-<n>.db is ever deleted.
    names.push("sightings.db".to_string());
    names.push("notes.txt".to_string());

    let left = left_after(&names, 10);

    // decoys untouched
    assert!(left.contains(&"sightings.db".to_string()));
    assert!(left.contains(&"notes.txt".to_string()));
    // 10 newest snapshots kept (dex-6..=15), older 5 removed
    assert_eq!(left.iter().filter(|n| n.starts_with("dex-")).count(), 10);
    assert!(left.contains(&"dex-15.db".to_string()));
    assert!(left.contains(&"dex-6.db".to_string()));
    assert!(!left.contains(&"dex-5.db".to_string()));
    assert!(!left.contains(&"dex-1.db".to_string()));
}

#[test]
fn pruning_goes_by_number_not_by_name() {
    let names: Vec<String> =
        ["dex-9.db", "dex-10.db", "dex-x.db", "dex-.db", "dex-11.db.bak", "Dex-1.db"]
            .iter()
            .map(|s| s.to_string())
            .collect();
    assert_eq!(Store::prune(&names, 1), [0]);
    assert_eq!(Store::prune(&names, 0), [1, 0]);
    assert!(Store::prune(&names, 2).is_empty());
    assert!(Store::prune(&Vec::new(), 0).is_empty());
}

#[test]
fn snapshot_names_round_trip() {
    for t in [0, 7, 1_720_000_000, i64::MAX, i64::MIN] {
        assert_eq!(snapshot_time(&snapshot_name(t)), Some(t));
    }
    assert_eq!(snapshot_name(42), "dex-42.db");
    assert_eq!(snapshot_time("dex-+42.db"), Some(42));
    assert_eq!(snapshot_time("dex-9223372036854775808.db"), None);
    assert_eq!(snapshot_time("dex-4 2.db"), None);
    assert_eq!(snapshot_time("dex-42"), None);
    assert_eq!(snapshot_time("42.db"), None);
    assert!(snapshot_time(&current_snapshot_name()).unwrap() > 1_590_000_000);
}

#[test]
fn quotes_in_paths_are_doubled() {
    assert_eq!(snapshot_statement("/tmp/a.db"), "VACUUM INTO '/tmp/a.db'");
    assert_eq!(snapshot_statement("/o'hare/''x"), "VACUUM INTO '/o''hare/''''x'");
}
