use fakefont::designspace::{
    corner_locations, default_location_of, plan_masters, varying_location, AxisEffect, AxisModel,
    Location,
};

/// The order key of a coordinate, as the library reads coordinates.
fn key(x: f64) -> u64 {
    let x = if x.is_nan() { f64::NAN } else if x == 0.0 { 0.0 } else { x };
    let bits = x.to_bits();
    if bits >> 63 == 0 {
        bits | (1 << 63)
    } else {
        !bits
    }
}

fn tag(t: &[u8; 4]) -> u32 {
    u32::from_be_bytes(*t)
}

fn axis(t: &[u8; 4], min: f64, max: f64, default: f64) -> AxisModel {
    AxisModel {
        tag: tag(t),
        min: Some(key(min)),
        max: Some(key(max)),
        default: Some(key(default)),
        affects_metrics: None,
        affects_kerning: None,
    }
}

fn weight(low: f64, high: f64) -> AxisModel {
    axis(b"wght", low, high, 400.0)
}

fn width(low: f64, high: f64) -> AxisModel {
    axis(b"wdth", low, high, 100.0)
}

fn master_count_after_filling(axes: Vec<AxisModel>) -> usize {
    let masters = vec![Location { entries: vec![] }];
    let plan = plan_masters(&axes, &masters);
    masters.len() + plan.new_locations.len()
}

/// The designspaces of a weight axis alone, then with a width axis.
#[test]
fn test_masters() {
    let axes = vec![weight(100.0, 400.0)];
    assert_eq!(axes.len(), 1);
    assert_eq!(master_count_after_filling(axes), 2);

    let axes = vec![weight(100.0, 700.0)];
    assert_eq!(axes.len(), 1);
    assert_eq!(master_count_after_filling(axes), 3);

    // Add weight and width
    let axes = vec![weight(100.0, 700.0), width(75.0, 100.0)];
    assert_eq!(axes.len(), 2);
    assert_eq!(master_count_after_filling(axes), 6);

    let axes = vec![weight(100.0, 700.0), width(75.0, 125.0)];
    assert_eq!(axes.len(), 2);
    assert_eq!(master_count_after_filling(axes), 9);
}

/// A slant axis from 0 to 10 whose default is its minimum.
#[test]
fn test_arbitrary_axis() {
    let axes = vec![axis(b"slnt", 0.0, 10.0, 0.0)];
    assert_eq!(axes.len(), 1);
    assert_eq!(master_count_after_filling(axes), 2);
}

#[test]
fn masters_for_arbitrary_axes() {
    assert_eq!(master_count_after_filling(vec![axis(b"slnt", -15.0, 15.0, 0.0)]), 3);
    assert_eq!(
        master_count_after_filling(vec![
            axis(b"slnt", -15.0, 15.0, 0.0),
            axis(b"opsz", 6.0, 144.0, 12.0)
        ]),
        9
    );
}

#[test]
fn no_axes_no_new_masters() {
    assert_eq!(master_count_after_filling(vec![]), 1);
    assert!(corner_locations(&vec![]).is_empty());
}

#[test]
fn first_master_moves_to_default() {
    let axes = vec![weight(100.0, 700.0), width(75.0, 125.0)];
    let masters = vec![Location { entries: vec![(tag(b"wght"), key(123.0))] }];
    let plan = plan_masters(&axes, &masters);
    // Entries are in tag order: wdth before wght.
    assert_eq!(
        plan.default_location.entries,
        vec![(tag(b"wdth"), key(100.0)), (tag(b"wght"), key(400.0))]
    );
    // The default is a corner, so it is not added again.
    assert_eq!(plan.new_locations.len(), 8);
    assert!(plan
        .new_locations
        .iter()
        .all(|l| l.entries != plan.default_location.entries));
}

#[test]
fn corners_vary_first_axis_slowest() {
    let axes = vec![weight(100.0, 700.0), width(75.0, 125.0)];
    let corners = corner_locations(&axes);
    assert_eq!(corners.len(), 9);
    let w = tag(b"wght");
    let d = tag(b"wdth");
    assert_eq!(corners[0].entries, vec![(d, key(75.0)), (w, key(100.0))]);
    assert_eq!(corners[1].entries, vec![(d, key(125.0)), (w, key(100.0))]);
    assert_eq!(corners[2].entries, vec![(d, key(100.0)), (w, key(100.0))]);
    assert_eq!(corners[3].entries, vec![(d, key(75.0)), (w, key(700.0))]);
    assert_eq!(corners[8].entries, vec![(d, key(100.0)), (w, key(400.0))]);
}

#[test]
fn filling_out_twice_adds_nothing() {
    let axes = vec![weight(100.0, 700.0), axis(b"slnt", -15.0, 15.0, 0.0)];
    let mut masters = vec![Location { entries: vec![] }];
    let plan = plan_masters(&axes, &masters);
    masters[0] = plan.default_location;
    masters.extend(plan.new_locations);
    assert_eq!(masters.len(), 9);
    let again = plan_masters(&axes, &masters);
    assert!(again.new_locations.is_empty());
    assert_eq!(again.default_location.entries, masters[0].entries);
}

#[test]
fn missing_coordinates_count_as_zero() {
    let axes = vec![AxisModel {
        tag: tag(b"XOPQ"),
        min: None,
        max: Some(key(10.0)),
        default: None,
        affects_metrics: None,
        affects_kerning: None,
    }];
    let def = default_location_of(&axes);
    assert_eq!(def.entries, vec![(tag(b"XOPQ"), key(0.0))]);
    assert_eq!(master_count_after_filling(axes), 2);
}

#[test]
fn same_tag_twice_overrides() {
    let axes = vec![weight(100.0, 700.0), weight(200.0, 300.0)];
    let def = default_location_of(&axes);
    assert_eq!(def.entries, vec![(tag(b"wght"), key(400.0))]);
    // Every corner only has the later axis' values: 200, 300 and 400.
    assert_eq!(master_count_after_filling(axes), 3);
}

#[test]
fn frozen_axes_drop_out() {
    let mut slant = axis(b"slnt", -15.0, 15.0, 0.0);
    slant.affects_metrics = Some(false);
    slant.affects_kerning = Some(true);
    let axes = vec![weight(100.0, 700.0), slant];
    let loc = Location {
        entries: vec![(tag(b"slnt"), key(-15.0)), (tag(b"wght"), key(700.0))],
    };
    let metrics = varying_location(&loc, &axes, AxisEffect::Metrics);
    assert_eq!(metrics.entries, vec![(tag(b"wght"), key(700.0))]);
    let kerning = varying_location(&loc, &axes, AxisEffect::Kerning);
    assert_eq!(kerning.entries, loc.entries);
    // A coordinate on a tag no axis has stays.
    let other = Location { entries: vec![(tag(b"ZZZZ"), key(1.0))] };
    assert_eq!(varying_location(&other, &axes, AxisEffect::Metrics).entries, other.entries);
}

#[test]
fn every_corner_has_every_axis_tag() {
    let axes = vec![weight(100.0, 700.0), width(75.0, 125.0), axis(b"slnt", -15.0, 15.0, 0.0)];
    let corners = corner_locations(&axes);
    assert_eq!(corners.len(), 27);
    for c in &corners {
        let tags: Vec<u32> = c.entries.iter().map(|e| e.0).collect();
        assert_eq!(tags, vec![tag(b"slnt"), tag(b"wdth"), tag(b"wght")]);
    }
}
