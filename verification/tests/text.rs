//! The textual layers: province and power names, and the free-text order
//! reader.

use stpsyr::Action;
use stpsyr::Power;
use stpsyr::Province;
use stpsyr::RegionRecord;
use stpsyr::Stpsyr;

fn rec(
    name: &str,
    sc: bool,
    owner: Option<&str>,
    unit: Option<&str>,
    fleets: &str,
    armies: &str,
) -> RegionRecord {
    RegionRecord {
        name: name.to_string(),
        sc,
        owner: owner.map(|s| s.to_string()),
        unit_type: unit.map(|s| s.to_string()),
        fleet_borders: fleets.to_string(),
        army_borders: armies.to_string(),
    }
}

#[test]
fn province_from_plain_name() {
    let p = Province::from("ven");
    assert_eq!(p.name, "ven");
    assert!(p.coast.is_none());
    assert!(p.from_coast.is_none());
}

#[test]
fn province_from_coast_name() {
    // A slash introduces a one-character coast qualifier.
    let p = Province::from("stp/sc");
    assert_eq!(p.name, "stp");
    assert_eq!(p.coast, Some('s'));
    assert!(p.from_coast.is_none());
}

#[test]
fn province_equality_ignores_coast() {
    assert!(Province::from("stp/sc") == Province::from("stp/nc"));
    assert!(Province::from("stp") == Province::from("stp/sc"));
    assert!(!(Province::from("stp") == Province::from("mos")));
}

#[test]
fn power_equality_ignores_case() {
    assert!(Power::from("France") == Power::from("fRANCE"));
    assert!(!(Power::from("France") == Power::from("Germany")));
    // The folding is full Unicode lowercasing, not just ASCII.
    assert!(Power::from("\u{c4}gypten") == Power::from("\u{e4}gypten"));
}

#[test]
fn map_merges_coast_rows() {
    // Two rows for spa (one per coast) become one region whose fleet
    // borders accumulate, so a fleet may use either coast's sea border.
    let mut s = Stpsyr::new(vec![
        rec("spa/nc", false, Some("France"), Some("Fleet"), "mao", ""),
        rec("spa/sc", false, None, None, "lyo", ""),
        rec("mao", false, None, None, "spa/nc", ""),
        rec("lyo", false, None, None, "spa/sc", ""),
    ]);
    s.add_order(
        Power::from("France"),
        Province::from("spa/nc"),
        Action::Move { to: Province::from("mao"), convoyed: false },
    );
    s.apply_orders().unwrap();
    assert!(s.get_unit(&Province::from("mao")).is_some());
    assert!(s.get_unit(&Province::from("spa")).is_none());
}

#[test]
fn parse_move_order() {
    let mut s = Stpsyr::new(vec![
        rec("ven", false, Some("Italy"), Some("Army"), "", "tyr"),
        rec("tyr", false, None, None, "", "ven"),
    ]);
    s.parse_orders("Italy\nA ven-tyr".to_string());
    s.apply_orders().unwrap();
    assert!(s.get_unit(&Province::from("tyr")).is_some());
    assert!(s.get_unit(&Province::from("ven")).is_none());
}

#[test]
fn parse_move_wordy_forms() {
    let mut s = Stpsyr::new(vec![
        rec("ven", false, Some("Italy"), Some("Army"), "", "tyr"),
        rec("tyr", false, None, None, "", "ven"),
    ]);
    s.parse_orders("Italy\nA ven moves to tyr".to_string());
    s.apply_orders().unwrap();
    assert!(s.get_unit(&Province::from("tyr")).is_some());
}

#[test]
fn parse_support_and_hold() {
    let mut s = Stpsyr::new(vec![
        rec("x", false, Some("France"), Some("Army"), "", "y w"),
        rec("w", false, Some("France"), Some("Army"), "", "x y"),
        rec("y", false, Some("Germany"), Some("Army"), "", "x w"),
    ]);
    s.parse_orders("France\nA x-y\nw supports x-y\nGermany\ny holds".to_string());
    let dislodged = s.apply_orders().unwrap();
    assert_eq!(dislodged.len(), 1);
    assert!(s.get_unit(&Province::from("y")).unwrap().owner == Power::from("France"));
}

#[test]
fn parse_convoy_order() {
    let mut s = Stpsyr::new(vec![
        rec("lon", false, Some("England"), Some("Army"), "eng", ""),
        rec("eng", false, Some("England"), Some("Fleet"), "lon bel", ""),
        rec("bel", false, None, None, "eng", ""),
    ]);
    s.parse_orders("England\nA lon-bel via convoy\nF eng convoys lon-bel".to_string());
    s.apply_orders().unwrap();
    assert!(s.get_unit(&Province::from("bel")).is_some());
    assert!(s.get_unit(&Province::from("lon")).is_none());
}

#[test]
fn parse_garbage_has_no_effect() {
    let mut s = Stpsyr::new(vec![
        rec("ven", false, Some("Italy"), Some("Army"), "", "tyr"),
        rec("tyr", false, None, None, "", "ven"),
    ]);
    s.parse_orders("Italy\nnonsense line with many words\n\nA ven-nowhere".to_string());
    s.apply_orders().unwrap();
    assert!(s.get_unit(&Province::from("ven")).is_some());
    assert!(s.get_unit(&Province::from("tyr")).is_none());
}

#[test]
fn get_unit_reports_owner_and_kind() {
    let s = Stpsyr::new(vec![
        rec("ven", false, Some("Italy"), Some("Army"), "", "tyr"),
        rec("tyr", false, None, None, "", "ven"),
    ]);
    let u = s.get_unit(&Province::from("ven")).unwrap();
    assert!(u.owner == Power::from("Italy"));
    assert!(matches!(u.unit_type, stpsyr::UnitType::Army));
    assert!(s.get_unit(&Province::from("tyr")).is_none());
    assert!(s.get_unit(&Province::from("missing")).is_none());
}

#[test]
fn parse_retreat_orders() {
    let mut s = Stpsyr::new(vec![
        rec("par", false, Some("France"), Some("Army"), "", "gas"),
        rec("gas", false, None, None, "", "par"),
        rec("mar", false, Some("France"), Some("Army"), "", "gas"),
    ]);
    s.parse_retreats(&Power::from("France"), "par-gas\nmar disbands".to_string());
    assert_eq!(s.retreats.len(), 2);
    assert!(s.retreats[0].owner == Power::from("France"));
    assert_eq!(s.retreats[0].province.name, "par");
    assert!(matches!(
        s.retreats[0].action,
        stpsyr::RetreatAction::Move { ref to } if to.name == "gas"
    ));
    assert!(matches!(s.retreats[1].action, stpsyr::RetreatAction::Disband));
}

#[test]
fn parse_adjust_orders() {
    let mut s = Stpsyr::new(vec![
        rec("par", true, Some("France"), None, "", "gas"),
        rec("gas", false, None, None, "", "par"),
    ]);
    s.parse_adjusts(&Power::from("France"), "build army par\ndestroy gas".to_string());
    assert_eq!(s.adjusts.len(), 2);
    assert_eq!(s.adjusts[0].province.name, "par");
    assert!(matches!(
        s.adjusts[0].action,
        stpsyr::AdjustAction::Build { unit_type: stpsyr::UnitType::Army }
    ));
    assert!(matches!(s.adjusts[1].action, stpsyr::AdjustAction::Disband));
}

#[test]
fn parse_dispatches_by_phase() {
    let mut s = Stpsyr::new(vec![
        rec("ven", false, Some("Italy"), Some("Army"), "", "tyr"),
        rec("tyr", false, None, None, "", "ven"),
    ]);
    // A movement phase routes the text through the movement reader, and
    // apply adjudicates it.
    s.parse(&Power::from("Italy"), "Italy\nA ven-tyr".to_string());
    s.apply().unwrap();
    assert!(s.get_unit(&Province::from("tyr")).is_some());
    // The following retreat phase never happened (nothing was dislodged):
    // the board is in the fall movement phase and apply is a no-op on a
    // turn with no orders.
    assert!(matches!(s.phase, stpsyr::types::Phase::FallDiplomacy));
}
