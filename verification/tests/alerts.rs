use adsb_radar::alerts::{AlertEngine, STALE_NANOS};

fn list(hexes: &[&str]) -> Vec<String> {
    hexes.iter().map(|h| h.to_string()).collect()
}

#[test]
fn fires_once_on_entry() {
    let mut e = AlertEngine::new();
    assert!(e.observe_at("abc123", 600, 0));
    assert!(!e.observe_at("abc123", 600, 1));
    e.sweep_at(&list(&["abc123"]), 1);
    // It has stayed in the class, so that the end of the cooldown changes nothing.
    assert!(!e.observe_at("abc123", 600, 10_000));
}

#[test]
fn rearms_after_leaving_and_cooldown() {
    let mut e = AlertEngine::new();
    assert!(e.observe_at("abc123", 600, 0));
    e.sweep_at(&list(&[]), 10);
    // Back within the cooldown: no alert, and it counts as having entered.
    assert!(!e.observe_at("abc123", 600, 599));
    assert!(!e.observe_at("abc123", 600, 700));
    e.sweep_at(&list(&[]), 701);
    assert!(e.observe_at("abc123", 600, 702));
}

#[test]
fn cooldown_ends_exactly() {
    let mut e = AlertEngine::new();
    assert!(e.observe_at("abc123", 600, 5));
    e.sweep_at(&list(&[]), 6);
    assert!(e.observe_at("abc123", 600, 605));
}

#[test]
fn long_cooldowns_outlive_an_hour() {
    let mut e = AlertEngine::new();
    let cooldown = 2 * STALE_NANOS;
    assert!(e.observe_at("abc123", cooldown, 0));
    e.sweep_at(&list(&[]), 1);
    e.sweep_at(&list(&[]), STALE_NANOS + 1);
    assert!(!e.observe_at("abc123", cooldown, STALE_NANOS + 2));
}

#[test]
fn contacts_that_stay_are_not_forgotten() {
    let mut e = AlertEngine::new();
    assert!(e.observe_at("abc123", 600, 0));
    e.sweep_at(&list(&["abc123"]), STALE_NANOS + 1);
    assert!(!e.observe_at("abc123", 600, STALE_NANOS + 2));
}

#[test]
fn latches_of_other_contacts_stay() {
    let mut e = AlertEngine::new();
    assert!(e.observe_at("a", 600, 0));
    assert!(e.observe_at("b", 600, 0));
    e.sweep_at(&list(&["a"]), 1);
    assert!(!e.observe_at("a", 0, 2));
    assert!(e.observe_at("b", 0, 2));
}

#[test]
fn engine_reads_its_own_clock() {
    let mut e = AlertEngine::new();
    assert!(e.observe("abc123", u128::MAX));
    assert!(!e.observe("abc123", u128::MAX));
    e.sweep(&list(&[]));
    assert!(!e.observe("abc123", u128::MAX));
    e.sweep(&list(&[]));
    assert!(e.observe("abc123", 0));
}
