//! Order admission: what `add_order` lets through, observed by whether the
//! order has any effect on the turn.

use stpsyr::Action;
use stpsyr::Power;
use stpsyr::Province;
use stpsyr::RegionRecord;
use stpsyr::Stpsyr;

fn rec(
    name: &str,
    sc: bool,
    owner: Option<&str>,
    unit: Option<&str>,
    fleets: &str,
    armies: &str,
) -> RegionRecord {
    RegionRecord {
        name: name.to_string(),
        sc,
        owner: owner.map(|s| s.to_string()),
        unit_type: unit.map(|s| s.to_string()),
        fleet_borders: fleets.to_string(),
        army_borders: armies.to_string(),
    }
}

fn board() -> Stpsyr {
    Stpsyr::new(vec![
        rec("x", false, Some("France"), Some("Army"), "", "y"),
        rec("y", false, None, None, "", "x z"),
        rec("z", false, Some("Germany"), Some("Fleet"), "w", "y"),
        rec("w", false, None, None, "z", ""),
    ])
}

#[test]
fn move_succeeds_when_admitted() {
    let mut s = board();
    s.add_order(
        Power::from("France"),
        Province::from("x"),
        Action::Move { to: Province::from("y"), convoyed: false },
    );
    s.apply_orders().unwrap();
    assert!(s.get_unit(&Province::from("y")).is_some());
    assert!(s.get_unit(&Province::from("x")).is_none());
}

#[test]
fn foreign_order_is_dropped() {
    // Germany cannot order the French army.
    let mut s = board();
    s.add_order(
        Power::from("Germany"),
        Province::from("x"),
        Action::Move { to: Province::from("y"), convoyed: false },
    );
    s.apply_orders().unwrap();
    assert!(s.get_unit(&Province::from("x")).is_some());
    assert!(s.get_unit(&Province::from("y")).is_none());
}

#[test]
fn owner_name_case_is_ignored() {
    // Power names match up to ASCII case.
    let mut s = board();
    s.add_order(
        Power::from("fRaNcE"),
        Province::from("x"),
        Action::Move { to: Province::from("y"), convoyed: false },
    );
    s.apply_orders().unwrap();
    assert!(s.get_unit(&Province::from("y")).is_some());
}

#[test]
fn empty_province_order_is_dropped() {
    let mut s = board();
    s.add_order(
        Power::from("France"),
        Province::from("y"),
        Action::Move { to: Province::from("x"), convoyed: false },
    );
    s.apply_orders().unwrap();
    assert!(s.get_unit(&Province::from("x")).is_some());
}

#[test]
fn unreachable_destination_is_dropped() {
    // x has no border to z: the move is silently discarded.
    let mut s = board();
    s.add_order(
        Power::from("France"),
        Province::from("x"),
        Action::Move { to: Province::from("z"), convoyed: false },
    );
    s.apply_orders().unwrap();
    assert!(s.get_unit(&Province::from("x")).is_some());
    assert!(s.get_unit(&Province::from("z")).is_some());
}

#[test]
fn fleet_cannot_be_convoyed() {
    // A convoyed fleet order is dropped at admission; the fleet just holds.
    let mut s = board();
    s.add_order(
        Power::from("Germany"),
        Province::from("z"),
        Action::Move { to: Province::from("w"), convoyed: true },
    );
    s.apply_orders().unwrap();
    assert!(s.get_unit(&Province::from("z")).is_some());
    assert!(s.get_unit(&Province::from("w")).is_none());
}

#[test]
fn self_support_is_dropped() {
    // A unit cannot support its own province, so the support lends no
    // strength and the attack bounces.
    let mut s = Stpsyr::new(vec![
        rec("x", false, Some("France"), Some("Army"), "", "y"),
        rec("y", false, Some("Germany"), Some("Army"), "", "x"),
    ]);
    s.add_order(
        Power::from("France"),
        Province::from("x"),
        Action::SupportMove { from: Province::from("x"), to: Province::from("y") },
    );
    s.add_order(
        Power::from("France"),
        Province::from("x"),
        Action::Move { to: Province::from("y"), convoyed: false },
    );
    s.apply_orders().unwrap();
    assert!(s.get_unit(&Province::from("y")).unwrap().owner == Power::from("Germany"));
}

#[test]
fn fleet_follows_sea_borders_only() {
    // z's army border to y does not admit a fleet move; its sea border to w
    // does.
    let mut s = board();
    s.add_order(
        Power::from("Germany"),
        Province::from("z"),
        Action::Move { to: Province::from("y"), convoyed: false },
    );
    s.apply_orders().unwrap();
    assert!(s.get_unit(&Province::from("y")).is_none());

    let mut s2 = board();
    s2.add_order(
        Power::from("Germany"),
        Province::from("z"),
        Action::Move { to: Province::from("w"), convoyed: false },
    );
    s2.apply_orders().unwrap();
    assert!(s2.get_unit(&Province::from("w")).is_some());
}

#[test]
fn retreats_and_adjusts_are_recorded() {
    let mut s = board();
    s.add_retreat(
        Power::from("France"),
        Province::from("x"),
        stpsyr::RetreatAction::Disband,
    );
    s.add_adjust(
        Power::from("France"),
        Province::from("x"),
        stpsyr::AdjustAction::Build { unit_type: stpsyr::UnitType::Army },
    );
    assert_eq!(s.retreats.len(), 1);
    assert_eq!(s.adjusts.len(), 1);
    // The bookkeeping phases are outside the movement engine: applying them
    // leaves the state as it is.
    s.apply_retreats();
    s.apply_adjusts();
    assert_eq!(s.retreats.len(), 1);
    assert_eq!(s.adjusts.len(), 1);
}
