//! The path table and the known identities.

use rete::hash::{DestHash, IdentityHash};
use rete::path::Path;
use rete::snapshot::{IdentityEntry, Snapshot, SnapshotDetail};
use rete::transport::Transport;

fn dest(byte: u8) -> DestHash {
    DestHash([byte; 16])
}

/// A path learned at `learned_at` for a hundred seconds.
fn path(shared_medium: bool, learned_at: u64, last_accessed: u64) -> Path {
    Path {
        via: None,
        learned_at,
        last_accessed,
        last_snr: None,
        hops: 1,
        announce_raw: None,
        shared_medium,
        lifetime: 100,
    }
}

fn known(transport: &Transport) -> Vec<u8> {
    transport.iter_paths().iter().map(|(d, _)| d.0[0]).collect()
}

fn identities(transport: &Transport) -> Vec<u8> {
    (0..=255u8)
        .filter(|b| transport.recall_identity(&dest(*b)).is_some())
        .collect()
}

#[test]
fn a_path_is_found_touched_and_removed() {
    let mut t = Transport::new(4, 4);
    assert!(t.insert_path(dest(1), path(true, 0, 0)));
    assert!(t.insert_path(dest(2), path(true, 0, 0)));
    assert_eq!(t.path_count(), 2);
    t.touch_path(&dest(1), 7);
    t.touch_path(&dest(9), 7);
    assert_eq!(t.get_path(&dest(1)).unwrap().last_accessed, 7);
    assert_eq!(t.get_path(&dest(1)).unwrap().hops, 1);
    assert_eq!(t.get_path(&dest(2)).unwrap().last_accessed, 0);
    assert!(t.insert_path(dest(1), path(false, 5, 5)));
    assert_eq!(t.path_count(), 2);
    assert_eq!(t.get_path(&dest(1)).unwrap().learned_at, 5);
    t.remove_path(&dest(1));
    assert!(t.get_path(&dest(1)).is_none());
    assert_eq!(known(&t), vec![2]);
}

#[test]
fn an_ended_path_leaves_before_any_other() {
    let mut t = Transport::new(3, 3);
    t.insert_path(dest(1), path(false, 100, 0));
    t.insert_path(dest(2), path(true, 20, 500));
    t.insert_path(dest(3), path(true, 10, 500));
    assert!(t.insert_path(dest(4), path(false, 120, 120)));
    assert_eq!(known(&t), vec![1, 2, 4]);
}

#[test]
fn a_path_ends_when_its_time_is_up() {
    let mut t = Transport::new(1, 1);
    t.insert_path(dest(1), path(true, 20, 500));
    assert!(!t.insert_path(dest(2), path(false, 119, 119)));
    assert!(t.insert_path(dest(2), path(false, 120, 120)));
    assert_eq!(known(&t), vec![2]);
}

#[test]
fn a_lifetime_beyond_the_end_of_time_saturates() {
    let mut t = Transport::new(1, 1);
    let mut p = path(true, u64::MAX - 1, 0);
    p.lifetime = 100;
    t.insert_path(dest(1), p);
    assert!(!t.insert_path(dest(2), path(false, u64::MAX - 1, 0)));
    assert!(t.insert_path(dest(2), path(false, u64::MAX, 0)));
}

#[test]
fn point_to_point_displaces_the_least_used_of_its_kind() {
    let mut t = Transport::new(3, 3);
    t.insert_path(dest(1), path(true, 0, 1));
    t.insert_path(dest(2), path(false, 0, 9));
    t.insert_path(dest(3), path(false, 0, 8));
    assert!(t.insert_path(dest(4), path(false, 10, 10)));
    assert_eq!(known(&t), vec![1, 2, 4]);
}

#[test]
fn shared_medium_paths_are_reserved() {
    let mut t = Transport::new(2, 2);
    t.insert_path(dest(1), path(true, 0, 4));
    t.insert_path(dest(2), path(true, 0, 3));
    assert!(!t.insert_path(dest(3), path(false, 10, 10)));
    assert_eq!(known(&t), vec![1, 2]);
    assert!(t.insert_path(dest(3), path(true, 10, 10)));
    assert_eq!(known(&t), vec![1, 3]);
}

#[test]
fn shared_medium_displaces_point_to_point_first_and_ties_go_to_the_first() {
    let mut t = Transport::new(3, 3);
    t.insert_path(dest(1), path(true, 0, 0));
    t.insert_path(dest(2), path(false, 0, 5));
    t.insert_path(dest(3), path(false, 0, 5));
    assert!(t.insert_path(dest(4), path(true, 10, 10)));
    assert_eq!(known(&t), vec![1, 3, 4]);
}

#[test]
fn a_table_without_room_takes_nothing() {
    let mut t = Transport::new(0, 0);
    assert!(!t.insert_path(dest(1), path(true, 0, 0)));
    t.insert_identity(dest(1), [1; 64], true);
    assert_eq!(t.path_count(), 0);
    assert!(t.recall_identity(&dest(1)).is_none());
}

#[test]
fn paths_by_a_lost_next_hop_go() {
    let mut t = Transport::new(4, 4);
    for (d, via) in [(1, Some(7)), (2, None), (3, Some(8)), (4, Some(7))] {
        let mut p = path(true, 0, 0);
        p.via = via.map(|b| IdentityHash([b; 16]));
        t.insert_path(dest(d), p);
    }
    t.remove_paths_via(&IdentityHash([7; 16]));
    assert_eq!(known(&t), vec![2, 3]);
}

#[test]
fn stored_announces_are_handed_to_new_peers() {
    let mut t = Transport::new(4, 4);
    t.insert_path(dest(1), path(true, 0, 0));
    t.insert_path(dest(2), path(true, 0, 0));
    t.insert_path(dest(3), path(true, 0, 0));
    assert!(t.cached_announces().is_empty());
    t.store_announce_raw(&dest(3), &[3, 3]);
    t.store_announce_raw(&dest(1), &[1]);
    t.store_announce_raw(&dest(1), &[1, 1]);
    t.store_announce_raw(&dest(9), &[9]);
    assert_eq!(t.cached_announces(), vec![vec![1, 1], vec![3, 3]]);
}

#[test]
fn a_registered_identity_is_known_and_reached_directly() {
    let mut t = Transport::new(2, 2);
    t.register_identity(dest(1), [1; 64], 500);
    assert_eq!(t.recall_identity(&dest(1)), Some(&[1; 64]));
    let p = t.get_path(&dest(1)).unwrap();
    assert!(p.via.is_none());
    assert_eq!(p.learned_at, 500);
    assert_eq!(p.expiry_time(), 604_800);
}

#[test]
fn identities_without_a_path_leave_first() {
    let mut t = Transport::new(4, 3);
    t.insert_path(dest(1), path(false, 0, 0));
    t.insert_path(dest(3), path(true, 0, 0));
    t.insert_identity(dest(1), [1; 64], false);
    t.insert_identity(dest(2), [2; 64], false);
    t.insert_identity(dest(3), [3; 64], false);
    t.insert_identity(dest(4), [4; 64], false);
    assert_eq!(identities(&t), vec![1, 3, 4]);
    t.insert_identity(dest(1), [9; 64], false);
    assert_eq!(t.recall_identity(&dest(1)), Some(&[9; 64]));
}

#[test]
fn shared_medium_identities_are_reserved() {
    let mut t = Transport::new(4, 2);
    t.insert_path(dest(1), path(true, 0, 5));
    t.insert_path(dest(2), path(true, 0, 4));
    t.insert_identity(dest(1), [1; 64], true);
    t.insert_identity(dest(2), [2; 64], true);
    t.insert_identity(dest(3), [3; 64], false);
    assert_eq!(identities(&t), vec![1, 2]);
    t.insert_identity(dest(3), [3; 64], true);
    assert_eq!(identities(&t), vec![1, 3]);
}

#[test]
fn the_identity_with_the_least_used_path_leaves() {
    let mut t = Transport::new(4, 2);
    t.insert_path(dest(1), path(false, 0, 9));
    t.insert_path(dest(2), path(false, 0, 8));
    t.insert_identity(dest(1), [1; 64], false);
    t.insert_identity(dest(2), [2; 64], false);
    t.insert_identity(dest(3), [3; 64], false);
    assert_eq!(identities(&t), vec![1, 3]);
}

#[test]
fn a_snapshot_holds_paths_and_identities() {
    let mut t = Transport::new(4, 4);
    let mut p = path(true, 3, 4);
    p.via = Some(IdentityHash([7; 16]));
    p.last_snr = Some(-5);
    t.insert_path(dest(1), p);
    t.store_announce_raw(&dest(1), &[1, 2]);
    t.insert_identity(dest(1), [1; 64], true);

    for detail in [SnapshotDetail::Minimal, SnapshotDetail::Standard, SnapshotDetail::Full] {
        let snap = t.save_snapshot(detail);
        assert_eq!(snap.version, 1);
        assert_eq!(snap.paths.len(), 1);
        let e = &snap.paths[0];
        assert_eq!(e.dest_hash, dest(1));
        assert_eq!(e.via, Some(IdentityHash([7; 16])));
        assert_eq!((e.learned_at, e.last_accessed, e.last_snr, e.hops), (3, 4, Some(-5), 1));
        if detail == SnapshotDetail::Minimal {
            assert_eq!(e.announce_raw, None);
        } else {
            assert_eq!(e.announce_raw, Some(vec![1, 2]));
        }
        assert_eq!(snap.identities.len(), 1);
        assert_eq!(snap.identities[0].pub_key, [1; 64]);

        let mut restored = Transport::new(4, 4);
        restored.load_snapshot(&snap);
        assert_eq!(restored.path_count(), 0);
        assert_eq!(identities(&restored), vec![1]);
    }
}

#[test]
fn identities_that_overflow_on_restore_are_dropped() {
    let mut t = Transport::new(4, 2);
    t.insert_identity(dest(1), [1; 64], false);
    let entries = [(2, 2), (3, 3), (1, 8)]
        .iter()
        .map(|(d, k)| IdentityEntry { dest_hash: dest(*d), pub_key: [*k; 64] })
        .collect();
    t.load_snapshot(&Snapshot { version: 1, paths: Vec::new(), identities: entries });
    assert_eq!(identities(&t), vec![1, 2]);
    assert_eq!(t.recall_identity(&dest(1)), Some(&[8; 64]));
}
