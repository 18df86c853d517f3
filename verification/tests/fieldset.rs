use event_ring::fieldset::{
    BitFieldLeafSetter, BitFieldSetters, FieldSetter, PerfFieldLeafSetter, PerfFieldSetters,
};
use event_ring::params::{LfoWave, PlayMode};

#[test]
fn option_sink_takes_the_value() {
    let mut slot: Option<u32> = None;
    slot.set(11);
    assert_eq!(slot, Some(11));
    slot.set(12);
    assert_eq!(slot, Some(12));
}

#[test]
fn bitfield_keeps_the_first_value_per_field() {
    let mut s: BitFieldSetters<u32> = BitFieldSetters::new(2);
    assert!(!s.is_seen(5));
    s.set_at(5, 500);
    assert!(s.is_seen(5));
    s.set_at(5, 999);
    assert_eq!(s.collected_len(), 1);
    assert_eq!(*s.value_at(0), 500);
}

#[test]
fn bitfield_collects_in_first_report_order() {
    let mut s: BitFieldSetters<u32> = BitFieldSetters::new(2);
    s.set_at(33, 33000);
    s.set_at(1, 1000);
    s.set_at(33, 0);
    assert_eq!(s.collected_len(), 2);
    assert_eq!(*s.value_at(0), 33000);
    assert_eq!(*s.value_at(1), 1000);
    assert!(s.is_seen(33));
    assert!(s.is_seen(1));
    assert!(!s.is_seen(2));
}

#[test]
fn bitfield_leaf_setter_reports_its_own_field() {
    let leaf = BitFieldLeafSetter { setters: BitFieldSetters::new(1), index: 3 };
    let mut leaf = leaf;
    leaf.set(77);
    leaf.set(88);
    assert!(leaf.setters.is_seen(3));
    assert_eq!(leaf.setters.collected_len(), 1);
    assert_eq!(*leaf.setters.value_at(0), 77);
}

#[test]
fn perf_keeps_the_latest_value_per_field() {
    let mut s: PerfFieldSetters<u32> = PerfFieldSetters::new(8);
    assert!(!s.has_entry(2));
    s.set_at(2, 20);
    s.set_at(2, 21);
    assert!(s.has_entry(2));
    assert_eq!(*s.entry_at(2), 21);
    assert_eq!(s.collected_len(), 1);
    assert_eq!(*s.value_at(0), 21);
}

#[test]
fn perf_slots_keep_first_report_order() {
    let mut s: PerfFieldSetters<u32> = PerfFieldSetters::new(8);
    s.set_at(6, 60);
    s.set_at(0, 1);
    s.set_at(6, 66);
    assert_eq!(s.collected_len(), 2);
    assert_eq!(*s.value_at(0), 66);
    assert_eq!(*s.value_at(1), 1);
    assert_eq!(*s.entry_at(0), 1);
    assert!(!s.has_entry(3));
}

#[test]
fn perf_leaf_setter_overwrites_its_own_field() {
    let mut leaf = PerfFieldLeafSetter { setters: PerfFieldSetters::new(4), index: 1 };
    leaf.set(5);
    leaf.set(6);
    assert_eq!(*leaf.setters.entry_at(1), 6);
    assert_eq!(leaf.setters.collected_len(), 1);
}

#[test]
fn setters_carry_parameter_values() {
    // the sinks are generic: a panel tick can collect enum-valued fields
    let mut s: PerfFieldSetters<LfoWave> = PerfFieldSetters::new(2);
    s.set_at(0, LfoWave::Sine);
    s.set_at(0, LfoWave::Saw);
    assert_eq!(*s.entry_at(0), LfoWave::Saw);
    let mut modes: BitFieldSetters<PlayMode> = BitFieldSetters::new(1);
    modes.set_at(0, PlayMode::Poly);
    modes.set_at(0, PlayMode::Solo);
    assert_eq!(*modes.value_at(0), PlayMode::Poly);
}
