//! End-to-end adjudication scenarios: bounces, supported displacement,
//! circular movement, and the convoy paradox.

use stpsyr::Action;
use stpsyr::Power;
use stpsyr::Province;
use stpsyr::RegionRecord;
use stpsyr::Stpsyr;
use stpsyr::UnitType;

fn rec(
    name: &str,
    sc: bool,
    owner: Option<&str>,
    unit: Option<&str>,
    fleets: &str,
    armies: &str,
) -> RegionRecord {
    RegionRecord {
        name: name.to_string(),
        sc,
        owner: owner.map(|s| s.to_string()),
        unit_type: unit.map(|s| s.to_string()),
        fleet_borders: fleets.to_string(),
        army_borders: armies.to_string(),
    }
}

/// A land triangle: x and z both hold armies, y is empty, all mutually
/// adjacent over land.
fn triangle() -> Stpsyr {
    Stpsyr::new(vec![
        rec("x", false, Some("France"), Some("Army"), "", "y z"),
        rec("y", false, None, None, "", "x z"),
        rec("z", false, Some("Germany"), Some("Army"), "", "x y"),
    ])
}

#[test]
fn simple_bounce() {
    let mut s = triangle();
    s.add_order(
        Power::from("France"),
        Province::from("x"),
        Action::Move { to: Province::from("y"), convoyed: false },
    );
    s.add_order(
        Power::from("Germany"),
        Province::from("z"),
        Action::Move { to: Province::from("y"), convoyed: false },
    );
    let dislodged = s.apply_orders().unwrap();
    assert!(dislodged.is_empty());
    // Both moves bounced: everything stands where it started.
    assert!(s.get_unit(&Province::from("y")).is_none());
    let ux = s.get_unit(&Province::from("x")).unwrap();
    assert!(ux.owner == Power::from("France"));
    let uz = s.get_unit(&Province::from("z")).unwrap();
    assert!(uz.owner == Power::from("Germany"));
}

#[test]
fn supported_displacement() {
    // w and x are French armies; y holds an unsupported German army.
    let mut s = Stpsyr::new(vec![
        rec("x", false, Some("France"), Some("Army"), "", "y w"),
        rec("w", false, Some("France"), Some("Army"), "", "x y"),
        rec("y", false, Some("Germany"), Some("Army"), "", "x w"),
    ]);
    s.add_order(
        Power::from("France"),
        Province::from("x"),
        Action::Move { to: Province::from("y"), convoyed: false },
    );
    s.add_order(
        Power::from("France"),
        Province::from("w"),
        Action::SupportMove { from: Province::from("x"), to: Province::from("y") },
    );
    let dislodged = s.apply_orders().unwrap();
    // Strength 2 against 1: the German army is dislodged and reported.
    assert_eq!(dislodged.len(), 1);
    assert_eq!(dislodged[0].0.name, "y");
    assert!(dislodged[0].1.owner == Power::from("Germany"));
    let uy = s.get_unit(&Province::from("y")).unwrap();
    assert!(uy.owner == Power::from("France"));
    assert!(s.get_unit(&Province::from("x")).is_none());
}

#[test]
fn self_attack_guard() {
    // France attacks its own unit with support: the move still fails.
    let mut s = Stpsyr::new(vec![
        rec("x", false, Some("France"), Some("Army"), "", "y w"),
        rec("w", false, Some("France"), Some("Army"), "", "x y"),
        rec("y", false, Some("France"), Some("Army"), "", "x w"),
    ]);
    s.add_order(
        Power::from("France"),
        Province::from("x"),
        Action::Move { to: Province::from("y"), convoyed: false },
    );
    s.add_order(
        Power::from("France"),
        Province::from("w"),
        Action::SupportMove { from: Province::from("x"), to: Province::from("y") },
    );
    let dislodged = s.apply_orders().unwrap();
    assert!(dislodged.is_empty());
    let ux = s.get_unit(&Province::from("x")).unwrap();
    assert!(ux.owner == Power::from("France"));
}

#[test]
fn circular_movement() {
    // A three-cycle of unsupported moves: the backup rule lets all rotate.
    let mut s = Stpsyr::new(vec![
        rec("a", false, Some("France"), Some("Army"), "", "b c"),
        rec("b", false, Some("Germany"), Some("Army"), "", "a c"),
        rec("c", false, Some("Italy"), Some("Army"), "", "a b"),
    ]);
    s.add_order(
        Power::from("France"),
        Province::from("a"),
        Action::Move { to: Province::from("b"), convoyed: false },
    );
    s.add_order(
        Power::from("Germany"),
        Province::from("b"),
        Action::Move { to: Province::from("c"), convoyed: false },
    );
    s.add_order(
        Power::from("Italy"),
        Province::from("c"),
        Action::Move { to: Province::from("a"), convoyed: false },
    );
    let dislodged = s.apply_orders().unwrap();
    assert!(dislodged.is_empty());
    assert!(s.get_unit(&Province::from("b")).unwrap().owner == Power::from("France"));
    assert!(s.get_unit(&Province::from("c")).unwrap().owner == Power::from("Germany"));
    assert!(s.get_unit(&Province::from("a")).unwrap().owner == Power::from("Italy"));
}

#[test]
fn head_to_head_bounce() {
    // Two unsupported armies swap orders: neither may pass the other.
    let mut s = triangle();
    s.add_order(
        Power::from("France"),
        Province::from("x"),
        Action::Move { to: Province::from("z"), convoyed: false },
    );
    s.add_order(
        Power::from("Germany"),
        Province::from("z"),
        Action::Move { to: Province::from("x"), convoyed: false },
    );
    let dislodged = s.apply_orders().unwrap();
    assert!(dislodged.is_empty());
    assert!(s.get_unit(&Province::from("x")).unwrap().owner == Power::from("France"));
    assert!(s.get_unit(&Province::from("z")).unwrap().owner == Power::from("Germany"));
}

/// The convoy-paradox board: an English army in lon convoyed to bel by the
/// fleet in the eng sea; French fleets in bre and bel, where bre attacks
/// the convoying fleet and bel supports that attack — but bel's support is
/// cut exactly when the convoy it would destroy goes through.
fn paradox_board() -> Stpsyr {
    Stpsyr::new(vec![
        rec("lon", false, Some("England"), Some("Army"), "eng", "wal"),
        rec("eng", false, Some("England"), Some("Fleet"), "lon bre bel", ""),
        rec("bre", false, Some("France"), Some("Fleet"), "eng", ""),
        rec("bel", false, Some("France"), Some("Fleet"), "eng", "wal"),
        rec("wal", false, None, None, "", "lon bel"),
    ])
}

#[test]
fn convoy_paradox() {
    let mut s = Stpsyr::new(vec![
        rec("lon", false, Some("England"), Some("Army"), "eng", "wal"),
        rec("eng", false, Some("England"), Some("Fleet"), "lon bre bel", ""),
        rec("bre", false, Some("France"), Some("Fleet"), "eng", ""),
        rec("bel", false, Some("France"), Some("Fleet"), "eng", "wal"),
        rec("wal", false, None, None, "", "lon bel"),
    ]);
    s.add_order(
        Power::from("England"),
        Province::from("lon"),
        Action::Move { to: Province::from("bel"), convoyed: true },
    );
    s.add_order(
        Power::from("England"),
        Province::from("eng"),
        Action::Convoy { from: Province::from("lon"), to: Province::from("bel") },
    );
    s.add_order(
        Power::from("France"),
        Province::from("bre"),
        Action::Move { to: Province::from("eng"), convoyed: false },
    );
    s.add_order(
        Power::from("France"),
        Province::from("bel"),
        Action::SupportMove { from: Province::from("bre"), to: Province::from("eng") },
    );
    let dislodged = s.apply_orders().unwrap();
    // The backup rule fails the convoy; the attack on the convoying fleet
    // then goes through at strength 2, and the convoyed move dies with its
    // only route.
    assert_eq!(dislodged.len(), 1);
    assert_eq!(dislodged[0].0.name, "eng");
    let eng = s.get_unit(&Province::from("eng")).unwrap();
    assert!(eng.owner == Power::from("France"));
    assert!(matches!(eng.unit_type, UnitType::Fleet));
    assert!(s.get_unit(&Province::from("lon")).unwrap().owner == Power::from("England"));
    assert!(s.get_unit(&Province::from("bel")).unwrap().owner == Power::from("France"));
}

#[test]
fn convoyed_attack_bounces_on_defender() {
    // An uncontested convoy finds its route, but the landing itself still
    // fights by the ordinary rules.
    let mut s = paradox_board();
    s.add_order(
        Power::from("England"),
        Province::from("lon"),
        Action::Move { to: Province::from("bel"), convoyed: true },
    );
    s.add_order(
        Power::from("England"),
        Province::from("eng"),
        Action::Convoy { from: Province::from("lon"), to: Province::from("bel") },
    );
    // bel is occupied by an unsupported French fleet: a lone convoyed army
    // cannot displace it, so use an empty destination instead via wal.
    let dislodged = s.apply_orders().unwrap();
    assert!(dislodged.is_empty());
    // Attack strength 1 vs hold strength 1: the landing bounces.
    assert!(s.get_unit(&Province::from("lon")).unwrap().owner == Power::from("England"));
    assert!(s.get_unit(&Province::from("bel")).unwrap().owner == Power::from("France"));
}

#[test]
fn convoy_not_cut_by_failed_attack() {
    // An attack on a convoying fleet that fails to dislodge it does not
    // stop the convoy: a convoy is never merely "cut".
    let mut s = Stpsyr::new(vec![
        rec("lon", false, Some("England"), Some("Army"), "eng", "wal"),
        rec("eng", false, Some("England"), Some("Fleet"), "lon bre bel", ""),
        rec("bre", false, Some("France"), Some("Fleet"), "eng", ""),
        rec("bel", false, None, None, "eng", "wal"),
        rec("wal", false, None, None, "", "lon bel"),
    ]);
    s.add_order(
        Power::from("England"),
        Province::from("lon"),
        Action::Move { to: Province::from("bel"), convoyed: true },
    );
    s.add_order(
        Power::from("England"),
        Province::from("eng"),
        Action::Convoy { from: Province::from("lon"), to: Province::from("bel") },
    );
    s.add_order(
        Power::from("France"),
        Province::from("bre"),
        Action::Move { to: Province::from("eng"), convoyed: false },
    );
    let dislodged = s.apply_orders().unwrap();
    assert!(dislodged.is_empty());
    // The unsupported attack bounced off the fleet; the convoy went ahead.
    assert!(s.get_unit(&Province::from("bel")).unwrap().owner == Power::from("England"));
    assert!(s.get_unit(&Province::from("lon")).is_none());
    assert!(s.get_unit(&Province::from("eng")).unwrap().owner == Power::from("England"));
}

#[test]
fn support_raises_strength_by_one() {
    // The same attack without support bounces and with one support wins:
    // the support is worth exactly the displaced defender.
    let mut s = Stpsyr::new(vec![
        rec("x", false, Some("France"), Some("Army"), "", "y w"),
        rec("w", false, Some("France"), Some("Army"), "", "x y"),
        rec("y", false, Some("Germany"), Some("Army"), "", "x w"),
    ]);
    s.add_order(
        Power::from("France"),
        Province::from("x"),
        Action::Move { to: Province::from("y"), convoyed: false },
    );
    let dislodged = s.apply_orders().unwrap();
    assert!(dislodged.is_empty());
    assert!(s.get_unit(&Province::from("x")).unwrap().owner == Power::from("France"));

    let mut s2 = Stpsyr::new(vec![
        rec("x", false, Some("France"), Some("Army"), "", "y w"),
        rec("w", false, Some("France"), Some("Army"), "", "x y"),
        rec("y", false, Some("Germany"), Some("Army"), "", "x w"),
    ]);
    s2.add_order(
        Power::from("France"),
        Province::from("x"),
        Action::Move { to: Province::from("y"), convoyed: false },
    );
    s2.add_order(
        Power::from("France"),
        Province::from("w"),
        Action::SupportMove { from: Province::from("x"), to: Province::from("y") },
    );
    let dislodged2 = s2.apply_orders().unwrap();
    assert_eq!(dislodged2.len(), 1);
    assert!(s2.get_unit(&Province::from("y")).unwrap().owner == Power::from("France"));
}

#[test]
fn cut_support_drops_the_attack() {
    // Germany cuts the French support; the attack falls back to 1 and
    // bounces.
    let mut s = Stpsyr::new(vec![
        rec("x", false, Some("France"), Some("Army"), "", "y w"),
        rec("w", false, Some("France"), Some("Army"), "", "x y g"),
        rec("y", false, Some("Germany"), Some("Army"), "", "x w"),
        rec("g", false, Some("Germany"), Some("Army"), "", "w"),
    ]);
    s.add_order(
        Power::from("France"),
        Province::from("x"),
        Action::Move { to: Province::from("y"), convoyed: false },
    );
    s.add_order(
        Power::from("France"),
        Province::from("w"),
        Action::SupportMove { from: Province::from("x"), to: Province::from("y") },
    );
    s.add_order(
        Power::from("Germany"),
        Province::from("g"),
        Action::Move { to: Province::from("w"), convoyed: false },
    );
    let dislodged = s.apply_orders().unwrap();
    assert!(dislodged.is_empty());
    assert!(s.get_unit(&Province::from("y")).unwrap().owner == Power::from("Germany"));
    assert!(s.get_unit(&Province::from("x")).unwrap().owner == Power::from("France"));
}

#[test]
fn phase_and_year_advance() {
    let mut s = triangle();
    assert_eq!(s.year, 1901);
    // No orders: spring passes without dislodgements straight to fall.
    s.apply_orders().unwrap();
    assert!(matches!(s.phase, stpsyr::types::Phase::FallDiplomacy));
    s.apply_orders().unwrap();
    assert!(matches!(s.phase, stpsyr::types::Phase::Builds));
    s.apply_orders().unwrap();
    assert!(matches!(s.phase, stpsyr::types::Phase::SpringDiplomacy));
    assert_eq!(s.year, 1902);
}
