use supertable::idgen::{
    fields_of, random_worker_id, worker_label, worker_of, IdFields, SEQUENCES, WORKERS,
};

fn id_of(timestamp_ms: u64, worker: u64, sequence: u32) -> i128 {
    ((timestamp_ms as i128) << 64) | ((worker as i128) << 24) | sequence as i128
}

#[test]
fn workers_keep_their_low_forty_bits() {
    assert_eq!(worker_of(u64::MAX), WORKERS - 1);
    assert_eq!(worker_of(0), 0);
    assert_eq!(worker_of(0xFE_DCBA), 0xFE_DCBA);
    assert_eq!(worker_of(WORKERS + 7), 7);
    assert_eq!(WORKERS, 1 << 40);
    assert_eq!(SEQUENCES, 1 << 24);
}

#[test]
fn the_fields_of_an_id_are_found_again() {
    let id = id_of(1_715_000_000_000, 0x12_3456_789A, 77);
    assert!(id >= 0);
    assert_eq!(
        fields_of(id),
        IdFields { timestamp_ms: 1_715_000_000_000, worker_id: 0x12_3456_789A, sequence: 77 }
    );
}

#[test]
fn the_greatest_id_has_full_fields() {
    let f = fields_of(i128::MAX);
    assert_eq!(f.timestamp_ms, i64::MAX as u64);
    assert_eq!(f.worker_id, WORKERS - 1);
    assert_eq!(f.sequence as u64, SEQUENCES - 1);
}

#[test]
fn ids_of_two_workers_differ_and_time_comes_first() {
    assert_ne!(id_of(5, 0xAAAA, 0), id_of(5, 0xBBBB, 0));
    assert_eq!(fields_of(id_of(5, 0xAAAA, 0)).worker_id, 0xAAAA);
    assert_eq!(fields_of(id_of(5, 0xBBBB, 0)).worker_id, 0xBBBB);
    assert!(id_of(5, WORKERS - 1, 9) < id_of(6, 0, 0));
}

#[test]
fn random_workers_fit_and_differ() {
    let drawn: Vec<u64> = (0..4).map(|_| random_worker_id()).collect();
    assert!(drawn.iter().all(|w| *w < WORKERS));
    assert!(drawn.windows(2).any(|w| w[0] != w[1]));
}

#[test]
fn worker_labels_are_ten_hexadecimal_digits() {
    assert_eq!(worker_label(0xDEAD_BEEF), "0x00deadbeef");
    assert_eq!(worker_label(0), "0x0000000000");
    assert_eq!(worker_label(WORKERS - 1), "0xffffffffff");
}
