use cdpt::epoch::{AtomicEpoch, Color, Epoch, Phase};

// ---- Color tests ----

#[test]
fn color_flip() {
    assert_eq!(Color::C0.flip(), Color::C1);
    assert_eq!(Color::C1.flip(), Color::C0);
}

#[test]
fn color_flip_roundtrip() {
    assert_eq!(Color::C0.flip().flip(), Color::C0);
    assert_eq!(Color::C1.flip().flip(), Color::C1);
}

#[test]
fn color_from_usize() {
    assert_eq!(Color::from(0), Color::C0);
    assert_eq!(Color::from(1), Color::C1);
    // Non-zero values map to C1.
    assert_eq!(Color::from(42), Color::C1);
}

#[test]
fn color_equality() {
    assert_eq!(Color::C0, Color::C0);
    assert_eq!(Color::C1, Color::C1);
    assert_ne!(Color::C0, Color::C1);
}

// ---- Phase tests ----

#[test]
fn phase_from_usize() {
    assert_eq!(Phase::from(0b00), Phase::N);
    assert_eq!(Phase::from(0b01), Phase::RT);
    assert_eq!(Phase::from(0b10), Phase::CT);
}

#[test]
fn phase_values() {
    assert_eq!(Phase::N as usize, 0b00);
    assert_eq!(Phase::RT as usize, 0b01);
    assert_eq!(Phase::CT as usize, 0b10);
}

// ---- Epoch tests ----

#[test]
fn epoch_starting_is_unpinned() {
    let e = Epoch::starting();
    assert!(!e.is_pinned());
    assert_eq!(e.phase(), Phase::N);
    assert_eq!(e.color(), Color::C0);
    assert_eq!(e.timestamp(), 0);
}

#[test]
fn epoch_pinned_unpinned() {
    let e = Epoch::starting();
    assert!(!e.is_pinned());

    let pinned = e.pinned();
    assert!(pinned.is_pinned());

    let unpinned = pinned.unpinned();
    assert!(!unpinned.is_pinned());
}

#[test]
fn epoch_pinned_preserves_fields() {
    let e = Epoch::starting()
        .with_phase(Phase::RT)
        .with_color(Color::C1)
        .with_timestamp(42);

    let pinned = e.pinned();
    assert!(pinned.is_pinned());
    assert_eq!(pinned.phase(), Phase::RT);
    assert_eq!(pinned.color(), Color::C1);
    assert_eq!(pinned.timestamp(), 42);
}

#[test]
fn epoch_phase_transitions() {
    let e = Epoch::starting();
    assert_eq!(e.phase(), Phase::N);

    let rt = e.with_phase(Phase::RT);
    assert_eq!(rt.phase(), Phase::RT);

    let ct = rt.with_phase(Phase::CT);
    assert_eq!(ct.phase(), Phase::CT);

    let n = ct.with_phase(Phase::N);
    assert_eq!(n.phase(), Phase::N);
}

#[test]
fn epoch_phase_preserves_other_fields() {
    let e = Epoch::starting()
        .pinned()
        .with_color(Color::C1)
        .with_timestamp(7);

    let rt = e.with_phase(Phase::RT);
    assert!(rt.is_pinned());
    assert_eq!(rt.color(), Color::C1);
    assert_eq!(rt.timestamp(), 7);
}

#[test]
fn epoch_color() {
    let e = Epoch::starting();
    assert_eq!(e.color(), Color::C0);

    let c1 = e.with_color(Color::C1);
    assert_eq!(c1.color(), Color::C1);

    let c0 = c1.with_color(Color::C0);
    assert_eq!(c0.color(), Color::C0);
}

#[test]
fn epoch_color_preserves_other_fields() {
    let e = Epoch::starting()
        .pinned()
        .with_phase(Phase::CT)
        .with_timestamp(99);

    let flipped = e.with_color(Color::C1);
    assert!(flipped.is_pinned());
    assert_eq!(flipped.phase(), Phase::CT);
    assert_eq!(flipped.timestamp(), 99);
}

#[test]
fn epoch_timestamp() {
    let e = Epoch::starting();
    assert_eq!(e.timestamp(), 0);

    let t1 = e.with_timestamp(1);
    assert_eq!(t1.timestamp(), 1);

    let t100 = e.with_timestamp(100);
    assert_eq!(t100.timestamp(), 100);
}

#[test]
fn epoch_timestamp_preserves_other_fields() {
    let e = Epoch::starting()
        .pinned()
        .with_phase(Phase::RT)
        .with_color(Color::C1);

    let ts = e.with_timestamp(55);
    assert!(ts.is_pinned());
    assert_eq!(ts.phase(), Phase::RT);
    assert_eq!(ts.color(), Color::C1);
}

#[test]
fn epoch_all_fields_combined() {
    let e = Epoch::starting()
        .with_phase(Phase::CT)
        .with_color(Color::C1)
        .with_timestamp(12345)
        .pinned();

    assert!(e.is_pinned());
    assert_eq!(e.phase(), Phase::CT);
    assert_eq!(e.color(), Color::C1);
    assert_eq!(e.timestamp(), 12345);

    // Change each field independently and verify.
    let e2 = e.unpinned();
    assert!(!e2.is_pinned());
    assert_eq!(e2.phase(), Phase::CT);
    assert_eq!(e2.color(), Color::C1);
    assert_eq!(e2.timestamp(), 12345);
}

#[test]
fn epoch_equality() {
    let a = Epoch::starting().with_phase(Phase::RT).with_timestamp(5);
    let b = Epoch::starting().with_phase(Phase::RT).with_timestamp(5);
    assert_eq!(a, b);

    let c = a.with_timestamp(6);
    assert_ne!(a, c);
}

// ---- AtomicEpoch tests ----

#[test]
fn atomic_epoch_load_store() {
    let mut ae = AtomicEpoch::default();
    let e = ae.load();
    assert_eq!(e, Epoch::starting());

    let new = Epoch::starting()
        .with_phase(Phase::RT)
        .with_color(Color::C1)
        .with_timestamp(3)
        .pinned();
    ae.store(new);

    let loaded = ae.load();
    assert_eq!(loaded, new);
}

#[test]
fn atomic_epoch_compare_exchange_success() {
    let initial = Epoch::starting().with_timestamp(1);
    let mut ae = AtomicEpoch::new(initial);

    let new = initial.with_phase(Phase::RT);
    let result = ae.compare_exchange(initial, new);
    assert!(result.is_ok());
    assert_eq!(ae.load(), new);
}

#[test]
fn atomic_epoch_compare_exchange_failure() {
    let initial = Epoch::starting().with_timestamp(1);
    let mut ae = AtomicEpoch::new(initial);

    // Change the value first.
    let updated = initial.with_phase(Phase::CT);
    ae.store(updated);

    // CAS with stale value should fail.
    let new = initial.with_phase(Phase::RT);
    let result = ae.compare_exchange(initial, new);
    assert!(result.is_err());
    assert_eq!(result.unwrap_err(), updated);
}

#[test]
fn atomic_epoch_load_non_atomic() {
    let e = Epoch::starting().with_phase(Phase::CT).with_timestamp(77);
    let ae = AtomicEpoch::new(e);

    let loaded = ae.load_non_atomic();
    assert_eq!(loaded, e);
}

#[test]
fn epoch_timestamp_keeps_low_bits() {
    let e = Epoch::starting().with_phase(Phase::RT);
    let wrapped = e.with_timestamp(0x1000_0000_0000_0005);
    assert_eq!(wrapped.timestamp(), 5);
    assert_eq!(wrapped.phase(), Phase::RT);
    assert!(!wrapped.is_pinned());
}

#[test]
fn epoch_word_layout() {
    let e = Epoch::starting()
        .with_phase(Phase::CT)
        .with_color(Color::C1)
        .with_timestamp(3)
        .pinned();
    assert_eq!(e.data, 0b1 | (0b10 << 1) | (1 << 3) | (3 << 4));
}
