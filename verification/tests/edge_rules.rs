//! Edge cases of the combat rules: the defender's own support, the
//! cut-exemption for the supported target, coast-filtered fleet moves, and
//! a convoy contest that converges without the backup rule.

use stpsyr::Action;
use stpsyr::Power;
use stpsyr::Province;
use stpsyr::RegionRecord;
use stpsyr::Stpsyr;

fn rec(
    name: &str,
    sc: bool,
    owner: Option<&str>,
    unit: Option<&str>,
    fleets: &str,
    armies: &str,
) -> RegionRecord {
    RegionRecord {
        name: name.to_string(),
        sc,
        owner: owner.map(|s| s.to_string()),
        unit_type: unit.map(|s| s.to_string()),
        fleet_borders: fleets.to_string(),
        army_borders: armies.to_string(),
    }
}

#[test]
fn defender_support_never_helps_the_attacker() {
    // Germany "supports" the French attack on its own unit: the support
    // resolves, but it cannot strengthen an attack against its own power,
    // so the attack bounces at strength 1.
    let mut s = Stpsyr::new(vec![
        rec("x", false, Some("France"), Some("Army"), "", "y w"),
        rec("w", false, Some("Germany"), Some("Army"), "", "x y"),
        rec("y", false, Some("Germany"), Some("Army"), "", "x w"),
    ]);
    s.add_order(
        Power::from("France"),
        Province::from("x"),
        Action::Move { to: Province::from("y"), convoyed: false },
    );
    s.add_order(
        Power::from("Germany"),
        Province::from("w"),
        Action::SupportMove { from: Province::from("x"), to: Province::from("y") },
    );
    let dislodged = s.apply_orders().unwrap();
    assert!(dislodged.is_empty());
    assert!(s.get_unit(&Province::from("y")).unwrap().owner == Power::from("Germany"));
    assert!(s.get_unit(&Province::from("x")).unwrap().owner == Power::from("France"));
}

#[test]
fn support_not_cut_from_its_own_target() {
    // y attacks the supporting unit w, but w's support is aimed into y
    // itself: a support cannot be cut by the unit it is helping to attack.
    let mut s = Stpsyr::new(vec![
        rec("x", false, Some("France"), Some("Army"), "", "y w"),
        rec("w", false, Some("France"), Some("Army"), "", "x y"),
        rec("y", false, Some("Germany"), Some("Army"), "", "x w"),
    ]);
    s.add_order(
        Power::from("France"),
        Province::from("x"),
        Action::Move { to: Province::from("y"), convoyed: false },
    );
    s.add_order(
        Power::from("France"),
        Province::from("w"),
        Action::SupportMove { from: Province::from("x"), to: Province::from("y") },
    );
    s.add_order(
        Power::from("Germany"),
        Province::from("y"),
        Action::Move { to: Province::from("w"), convoyed: false },
    );
    let dislodged = s.apply_orders().unwrap();
    // The support stood, x took y at strength 2, and the German army was
    // dislodged because its own attack on w bounced.
    assert_eq!(dislodged.len(), 1);
    assert_eq!(dislodged[0].0.name, "y");
    assert!(s.get_unit(&Province::from("y")).unwrap().owner == Power::from("France"));
    assert!(s.get_unit(&Province::from("w")).unwrap().owner == Power::from("France"));
}

#[test]
fn fleet_move_respects_coast_qualifier() {
    // mao's sea border reaches only spa's north coast: a move on the south
    // coast is inadmissible, a move on the north coast goes through.
    let board = || {
        Stpsyr::new(vec![
            rec("spa/nc", false, None, None, "mao", ""),
            rec("spa/sc", false, None, None, "lyo", ""),
            rec("mao", false, Some("France"), Some("Fleet"), "spa/nc", ""),
            rec("lyo", false, None, None, "spa/sc", ""),
        ])
    };
    let mut s = board();
    s.add_order(
        Power::from("France"),
        Province::from("mao"),
        Action::Move { to: Province::from("spa/sc"), convoyed: false },
    );
    s.apply_orders().unwrap();
    assert!(s.get_unit(&Province::from("spa")).is_none());
    assert!(s.get_unit(&Province::from("mao")).is_some());

    let mut s2 = board();
    s2.add_order(
        Power::from("France"),
        Province::from("mao"),
        Action::Move { to: Province::from("spa/nc"), convoyed: false },
    );
    s2.apply_orders().unwrap();
    assert!(s2.get_unit(&Province::from("spa")).is_some());
    assert!(s2.get_unit(&Province::from("mao")).is_none());
}

#[test]
fn overwhelmed_convoy_converges_without_paradox() {
    // bel's support would be cut by the convoyed landing, but bre attacks
    // the convoying fleet with a second, uncuttable support: both trial
    // guesses for the convoy agree that it falls, so no tie-breaking is
    // needed and the turn resolves cleanly.
    let mut s = Stpsyr::new(vec![
        rec("lon", false, Some("England"), Some("Army"), "eng", "wal"),
        rec("eng", false, Some("England"), Some("Fleet"), "lon bre bel mid", ""),
        rec("bre", false, Some("France"), Some("Fleet"), "eng mid", ""),
        rec("mid", false, Some("France"), Some("Fleet"), "bre eng", ""),
        rec("bel", false, Some("France"), Some("Fleet"), "eng", "wal"),
        rec("wal", false, None, None, "", "lon bel"),
    ]);
    s.add_order(
        Power::from("England"),
        Province::from("lon"),
        Action::Move { to: Province::from("bel"), convoyed: true },
    );
    s.add_order(
        Power::from("England"),
        Province::from("eng"),
        Action::Convoy { from: Province::from("lon"), to: Province::from("bel") },
    );
    s.add_order(
        Power::from("France"),
        Province::from("bre"),
        Action::Move { to: Province::from("eng"), convoyed: false },
    );
    s.add_order(
        Power::from("France"),
        Province::from("mid"),
        Action::SupportMove { from: Province::from("bre"), to: Province::from("eng") },
    );
    s.add_order(
        Power::from("France"),
        Province::from("bel"),
        Action::SupportMove { from: Province::from("bre"), to: Province::from("eng") },
    );
    let dislodged = s.apply_orders().unwrap();
    assert_eq!(dislodged.len(), 1);
    assert_eq!(dislodged[0].0.name, "eng");
    assert!(s.get_unit(&Province::from("eng")).unwrap().owner == Power::from("France"));
    assert!(s.get_unit(&Province::from("lon")).unwrap().owner == Power::from("England"));
    assert!(s.get_unit(&Province::from("bel")).unwrap().owner == Power::from("France"));
}

#[test]
fn failing_mover_keeps_hold_support() {
    // y tries to leave and bounces; its hold support still counts, so the
    // supported attack on y ties at 2 against 2 and fails.
    let mut s = Stpsyr::new(vec![
        rec("x", false, Some("France"), Some("Army"), "", "y w"),
        rec("w", false, Some("France"), Some("Army"), "", "x y"),
        rec("y", false, Some("Germany"), Some("Army"), "", "x w z h"),
        rec("z", false, Some("Germany"), Some("Army"), "", "y h"),
        rec("h", false, Some("Germany"), Some("Army"), "", "y z"),
    ]);
    s.add_order(
        Power::from("France"),
        Province::from("x"),
        Action::Move { to: Province::from("y"), convoyed: false },
    );
    s.add_order(
        Power::from("France"),
        Province::from("w"),
        Action::SupportMove { from: Province::from("x"), to: Province::from("y") },
    );
    s.add_order(
        Power::from("Germany"),
        Province::from("y"),
        Action::Move { to: Province::from("z"), convoyed: false },
    );
    s.add_order(
        Power::from("Germany"),
        Province::from("h"),
        Action::SupportHold { to: Province::from("y") },
    );
    let dislodged = s.apply_orders().unwrap();
    assert!(dislodged.is_empty());
    assert!(s.get_unit(&Province::from("y")).unwrap().owner == Power::from("Germany"));
    assert!(s.get_unit(&Province::from("x")).unwrap().owner == Power::from("France"));
}

#[test]
fn supported_power_cannot_cut_cross_power_support() {
    // France supports a German attack; Germany's own other unit attacks the
    // French supporter.  The supported power cannot cut a support working
    // for it, so the support stands and the attack lands at strength 2.
    let mut s = Stpsyr::new(vec![
        rec("x", false, Some("Germany"), Some("Army"), "", "y w"),
        rec("w", false, Some("France"), Some("Army"), "", "x y g"),
        rec("y", false, Some("Italy"), Some("Army"), "", "x w"),
        rec("g", false, Some("Germany"), Some("Army"), "", "w"),
    ]);
    s.add_order(
        Power::from("Germany"),
        Province::from("x"),
        Action::Move { to: Province::from("y"), convoyed: false },
    );
    s.add_order(
        Power::from("France"),
        Province::from("w"),
        Action::SupportMove { from: Province::from("x"), to: Province::from("y") },
    );
    s.add_order(
        Power::from("Germany"),
        Province::from("g"),
        Action::Move { to: Province::from("w"), convoyed: false },
    );
    let dislodged = s.apply_orders().unwrap();
    assert_eq!(dislodged.len(), 1);
    assert_eq!(dislodged[0].0.name, "y");
    assert!(dislodged[0].1.owner == Power::from("Italy"));
    assert!(s.get_unit(&Province::from("y")).unwrap().owner == Power::from("Germany"));
    assert!(s.get_unit(&Province::from("w")).unwrap().owner == Power::from("France"));
}

#[test]
fn two_fleet_convoy_chain() {
    // A crossing that needs two carrying fleets in a row: both convoy, the
    // army arrives.
    let mut s = Stpsyr::new(vec![
        rec("lon", false, Some("England"), Some("Army"), "eng", ""),
        rec("eng", false, Some("England"), Some("Fleet"), "lon mid", ""),
        rec("mid", false, Some("England"), Some("Fleet"), "eng spa", ""),
        rec("spa", false, None, None, "mid", ""),
    ]);
    s.add_order(
        Power::from("England"),
        Province::from("lon"),
        Action::Move { to: Province::from("spa"), convoyed: true },
    );
    s.add_order(
        Power::from("England"),
        Province::from("eng"),
        Action::Convoy { from: Province::from("lon"), to: Province::from("spa") },
    );
    s.add_order(
        Power::from("England"),
        Province::from("mid"),
        Action::Convoy { from: Province::from("lon"), to: Province::from("spa") },
    );
    let dislodged = s.apply_orders().unwrap();
    assert!(dislodged.is_empty());
    assert!(s.get_unit(&Province::from("spa")).unwrap().owner == Power::from("England"));
    assert!(s.get_unit(&Province::from("lon")).is_none());
}

#[test]
fn broken_convoy_chain_blocks_the_move() {
    // Two fleets are needed but only the first convoys: no valid route, so
    // the convoyed move has no strength and nothing happens.
    let mut s = Stpsyr::new(vec![
        rec("lon", false, Some("England"), Some("Army"), "eng", ""),
        rec("eng", false, Some("England"), Some("Fleet"), "lon mid", ""),
        rec("mid", false, Some("England"), Some("Fleet"), "eng spa", ""),
        rec("spa", false, None, None, "mid", ""),
    ]);
    s.add_order(
        Power::from("England"),
        Province::from("lon"),
        Action::Move { to: Province::from("spa"), convoyed: true },
    );
    s.add_order(
        Power::from("England"),
        Province::from("eng"),
        Action::Convoy { from: Province::from("lon"), to: Province::from("spa") },
    );
    let dislodged = s.apply_orders().unwrap();
    assert!(dislodged.is_empty());
    assert!(s.get_unit(&Province::from("lon")).is_some());
    assert!(s.get_unit(&Province::from("spa")).is_none());
}
