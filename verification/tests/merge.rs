use sp3_merge::{Constellation, Header, MergeError, SP3Entry, SP3Key, Sv, TimeScale, SP3};

fn sv(constellation: Constellation, prn: u8) -> Sv {
    Sv { constellation, prn }
}

fn g(prn: u8) -> Sv {
    sv(Constellation::GPS, prn)
}

fn header_a() -> Header {
    Header {
        agency: "IGS".to_string(),
        timescale: TimeScale::GPST,
        coord_system: "ITRF".to_string(),
        constellation: Constellation::GPS,
        version: 2,
        mjd: 59000,
        week: 100,
        week_nanos: 500,
        satellites: vec![g(1), g(2)],
        sampling_period: 300,
    }
}

fn header_b() -> Header {
    Header {
        agency: "IGS".to_string(),
        timescale: TimeScale::GPST,
        coord_system: "ITRF".to_string(),
        constellation: Constellation::GPS,
        version: 1,
        mjd: 58999,
        week: 99,
        week_nanos: 123,
        satellites: vec![g(2), g(3)],
        sampling_period: 900,
    }
}

fn assert_headers_equal(x: &Header, y: &Header) {
    assert_eq!(x.agency, y.agency);
    assert_eq!(x.timescale, y.timescale);
    assert_eq!(x.coord_system, y.coord_system);
    assert_eq!(x.constellation, y.constellation);
    assert_eq!(x.version, y.version);
    assert_eq!(x.mjd, y.mjd);
    assert_eq!(x.week, y.week);
    assert_eq!(x.week_nanos, y.week_nanos);
    assert_eq!(x.satellites, y.satellites);
    assert_eq!(x.sampling_period, y.sampling_period);
}

fn key(epoch_nanos: u64, s: Sv) -> SP3Key {
    SP3Key { epoch_nanos, sv: s }
}

fn entry(
    clock_bias: Option<i64>,
    clock_drift: Option<i64>,
    velocity: Option<(i64, i64, i64)>,
) -> SP3Entry {
    SP3Entry { clock_bias, clock_drift, velocity }
}

#[test]
fn merged_header_scenario() {
    let mut a = header_a();
    let b = header_b();
    let r = a.merge_mut(&b);
    assert!(r.is_ok());
    assert_eq!(a.agency, "IGS");
    assert_eq!(a.timescale, TimeScale::GPST);
    assert_eq!(a.coord_system, "ITRF");
    assert_eq!(a.constellation, Constellation::GPS);
    assert_eq!(a.version, 1);
    assert_eq!(a.mjd, 58999);
    assert_eq!(a.week, 99);
    assert_eq!(a.week_nanos, 123);
    assert_eq!(a.satellites, vec![g(1), g(2), g(3)]);
    assert_eq!(a.sampling_period, 900);
}

#[test]
fn merge_leaves_operands_and_matches_merge_mut() {
    let a = header_a();
    let b = header_b();
    let merged = a.merge(&b).unwrap();
    let mut c = header_a();
    c.merge_mut(&b).unwrap();
    assert_headers_equal(&merged, &c);
    assert_headers_equal(&a, &header_a());
    assert_headers_equal(&b, &header_b());
}

#[test]
fn satellite_union_keeps_target_order_then_incoming_order() {
    let mut a = header_a();
    let mut b = header_b();
    b.satellites = vec![g(3), g(2), sv(Constellation::Galileo, 5)];
    a.merge_mut(&b).unwrap();
    assert_eq!(a.satellites, vec![g(1), g(2), g(3), sv(Constellation::Galileo, 5)]);
}

#[test]
fn agency_mismatch_fails_and_leaves_target_unchanged() {
    let mut a = header_a();
    let mut b = header_b();
    b.agency = "JPL".to_string();
    let r = a.merge_mut(&b);
    assert_eq!(r, Err(MergeError::DataProviderMismatch));
    assert_headers_equal(&a, &header_a());
}

#[test]
fn timescale_mismatch_fails_and_leaves_target_unchanged() {
    let mut a = header_a();
    let mut b = header_b();
    b.timescale = TimeScale::UTC;
    let r = a.merge_mut(&b);
    assert_eq!(r, Err(MergeError::TimescaleMismatch));
    assert_headers_equal(&a, &header_a());
}

#[test]
fn reference_frame_mismatch_fails_and_leaves_target_unchanged() {
    let mut a = header_a();
    let mut b = header_b();
    b.coord_system = "WGS84".to_string();
    let r = a.merge_mut(&b);
    assert_eq!(r, Err(MergeError::ReferenceFrameMismatch));
    assert_headers_equal(&a, &header_a());
}

#[test]
fn agency_check_comes_first() {
    let mut a = header_a();
    let mut b = header_b();
    b.agency = "JPL".to_string();
    b.timescale = TimeScale::UTC;
    b.coord_system = "WGS84".to_string();
    assert_eq!(a.merge_mut(&b), Err(MergeError::DataProviderMismatch));
}

#[test]
fn merging_with_itself_keeps_constellation() {
    let mut a = header_a();
    let twin = a.clone();
    a.merge_mut(&twin).unwrap();
    assert_eq!(a.constellation, Constellation::GPS);

    let mut m = header_a();
    m.constellation = Constellation::Mixed;
    let twin = m.clone();
    m.merge_mut(&twin).unwrap();
    assert_eq!(m.constellation, Constellation::Mixed);
}

#[test]
fn differing_constellations_upgrade_to_mixed_for_good() {
    let mut a = header_a();
    let mut b = header_b();
    b.constellation = Constellation::Glonass;
    a.merge_mut(&b).unwrap();
    assert_eq!(a.constellation, Constellation::Mixed);

    // Once mixed, a later merge with a plain operand keeps it mixed.
    let c = header_b();
    a.merge_mut(&c).unwrap();
    assert_eq!(a.constellation, Constellation::Mixed);
}

#[test]
fn version_is_minimum_both_ways() {
    let mut a = header_a();
    let b = header_b();
    a.merge_mut(&b).unwrap();
    assert_eq!(a.version, 1);

    let mut b = header_b();
    let a2 = header_a();
    b.merge_mut(&a2).unwrap();
    assert_eq!(b.version, 1);
}

#[test]
fn sampling_period_is_maximum_both_ways() {
    let mut a = header_a();
    let b = header_b();
    a.merge_mut(&b).unwrap();
    assert_eq!(a.sampling_period, 900);

    let mut b = header_b();
    let a2 = header_a();
    b.merge_mut(&a2).unwrap();
    assert_eq!(b.sampling_period, 900);
}

#[test]
fn week_and_week_nanos_move_as_a_pair() {
    // Incoming week is later: keep the target pair, even though the incoming
    // nanosecond count alone is smaller.
    let mut a = header_a();
    let mut b = header_b();
    b.week = 200;
    b.week_nanos = 1;
    a.merge_mut(&b).unwrap();
    assert_eq!(a.week, 100);
    assert_eq!(a.week_nanos, 500);

    // Incoming week is earlier: adopt both members of the incoming pair.
    let mut a = header_a();
    let mut b = header_b();
    b.week = 99;
    b.week_nanos = 999_999;
    a.merge_mut(&b).unwrap();
    assert_eq!(a.week, 99);
    assert_eq!(a.week_nanos, 999_999);
}

#[test]
fn empty_satellite_lists_merge() {
    let mut a = header_a();
    a.satellites = vec![];
    let mut b = header_b();
    b.satellites = vec![];
    a.merge_mut(&b).unwrap();
    assert!(a.satellites.is_empty());

    let mut a = header_a();
    a.satellites = vec![];
    let b = header_b();
    a.merge_mut(&b).unwrap();
    assert_eq!(a.satellites, vec![g(2), g(3)]);
}

#[test]
fn record_overlay_keeps_silent_fields() {
    // Target carries a clock bias and no velocity; the incoming record for
    // the same key carries no clock bias and a velocity: the merged record
    // keeps the bias and gains the velocity.
    let k = key(1_000, g(1));
    let mut target = SP3 { header: header_a(), data: vec![(k, entry(Some(42), None, None))] };
    let incoming =
        SP3 { header: header_b(), data: vec![(k, entry(None, None, Some((7, 8, 9))))] };
    target.merge_mut(&incoming).unwrap();
    let merged = target.record(k).unwrap();
    assert_eq!(merged.clock_bias, Some(42));
    assert_eq!(merged.clock_drift, None);
    assert_eq!(merged.velocity, Some((7, 8, 9)));
}

#[test]
fn record_overlay_is_not_commutative() {
    let k = key(1_000, g(1));
    let with_x = vec![(k, entry(Some(10), None, None))];
    let with_y = vec![(k, entry(Some(20), None, None))];

    let mut target = SP3 { header: header_a(), data: with_x.clone() };
    let incoming = SP3 { header: header_b(), data: with_y.clone() };
    target.merge_mut(&incoming).unwrap();
    assert_eq!(target.record(k).unwrap().clock_bias, Some(20));

    let mut target = SP3 { header: header_a(), data: with_y };
    let incoming = SP3 { header: header_b(), data: with_x };
    target.merge_mut(&incoming).unwrap();
    assert_eq!(target.record(k).unwrap().clock_bias, Some(10));
}

#[test]
fn new_key_is_inserted_whole() {
    let k1 = key(1_000, g(1));
    let k2 = key(2_000, g(2));
    let mut target = SP3 { header: header_a(), data: vec![(k1, entry(Some(1), None, None))] };
    let incoming = SP3 {
        header: header_b(),
        data: vec![(k2, entry(Some(5), Some(6), Some((1, 2, 3))))],
    };
    target.merge_mut(&incoming).unwrap();
    assert_eq!(target.record(k1).unwrap(), entry(Some(1), None, None));
    assert_eq!(target.record(k2).unwrap(), entry(Some(5), Some(6), Some((1, 2, 3))));
    assert_eq!(target.data.len(), 2);
}

#[test]
fn fields_absent_from_both_stay_absent() {
    let k = key(1_000, g(1));
    let mut target = SP3 { header: header_a(), data: vec![(k, entry(Some(1), None, None))] };
    let incoming = SP3 { header: header_b(), data: vec![(k, entry(Some(2), None, None))] };
    target.merge_mut(&incoming).unwrap();
    let merged = target.record(k).unwrap();
    assert_eq!(merged.clock_drift, None);
    assert_eq!(merged.velocity, None);
}

#[test]
fn dataset_merge_error_leaves_records_unchanged() {
    let k = key(1_000, g(1));
    let mut target = SP3 { header: header_a(), data: vec![(k, entry(Some(1), None, None))] };
    let mut bad = SP3 { header: header_b(), data: vec![(k, entry(Some(2), None, None))] };
    bad.header.agency = "JPL".to_string();
    let r = target.merge_mut(&bad);
    assert_eq!(r, Err(MergeError::DataProviderMismatch));
    assert_headers_equal(&target.header, &header_a());
    assert_eq!(target.record(k).unwrap(), entry(Some(1), None, None));
}

#[test]
fn dataset_merge_into_empty_target() {
    let k = key(1_000, g(1));
    let mut target = SP3 { header: header_a(), data: vec![] };
    let incoming = SP3 { header: header_b(), data: vec![(k, entry(None, Some(3), None))] };
    target.merge_mut(&incoming).unwrap();
    assert_eq!(target.data.len(), 1);
    assert_eq!(target.record(k).unwrap(), entry(None, Some(3), None));
}

#[test]
fn dataset_merge_returns_new_value() {
    let k1 = key(1_000, g(1));
    let k2 = key(2_000, g(2));
    let target = SP3 { header: header_a(), data: vec![(k1, entry(Some(1), None, None))] };
    let incoming = SP3 { header: header_b(), data: vec![(k2, entry(Some(2), None, None))] };
    let merged = target.merge(&incoming).unwrap();
    assert_eq!(merged.data.len(), 2);
    assert_eq!(merged.header.version, 1);
    // The operands are untouched.
    assert_eq!(target.data.len(), 1);
    assert_eq!(incoming.data.len(), 1);
}

#[test]
fn record_lookup_absent_key() {
    let target = SP3 { header: header_a(), data: vec![] };
    assert!(target.record(key(1, g(1))).is_none());
}

#[test]
fn well_formedness_checks() {
    let a = SP3 { header: header_a(), data: vec![] };
    assert!(a.is_well_formed());

    let mut dup_sat = header_a();
    dup_sat.satellites = vec![g(1), g(2), g(1)];
    assert!(!dup_sat.is_well_formed());

    let k = key(1_000, g(1));
    let dup_key = SP3 {
        header: header_a(),
        data: vec![(k, entry(Some(1), None, None)), (k, entry(Some(2), None, None))],
    };
    assert!(!dup_key.is_well_formed());
}
