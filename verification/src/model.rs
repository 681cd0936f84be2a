//! The adjudication equations as mathematics.
//!
//! Each function here reads a board (`Seq<MapRegion>`) and an order arena
//! (`Seq<Order>`) in which every order carries a candidate success value in
//! its `resolution` field, and says what the rules of combat make of it.  The
//! executable engine searches for an assignment of `resolution` values; these
//! functions are the equations that assignment is measured against, and the
//! laws in `laws` are proved about them.

use vstd::prelude::*;

use crate::types::Action;
use crate::types::MapRegion;
use crate::types::Order;
use crate::types::Phase;
use crate::types::Power;
use crate::types::Province;
use crate::types::Unit;
use crate::types::UnitType;
use crate::types::lower_of;

verus! {

/// Two powers are the same faction when their names agree up to case.
pub open spec fn power_eq(a: Power, b: Power) -> bool {
    lower_of(a.name@) == lower_of(b.name@)
}

/// Whether some province in `l` has the given name.
pub open spec fn prov_list_contains(l: Seq<Province>, name: Seq<char>) -> bool {
    exists|i: int| 0 <= i < l.len() && l[i].name@ == name
}

/// Index of the first region named `name` at or after position `i`, or
/// `map.len()` when there is none.
pub open spec fn region_index_from(map: Seq<MapRegion>, name: Seq<char>, i: int) -> int
    decreases map.len() - i,
{
    if i < 0 || i >= map.len() {
        map.len() as int
    } else if map[i].province.name@ == name {
        i
    } else {
        region_index_from(map, name, i + 1)
    }
}

/// Index of the first region named `name`, or `map.len()`.
pub open spec fn region_index(map: Seq<MapRegion>, name: Seq<char>) -> int {
    region_index_from(map, name, 0)
}

/// Whether the board has a region with this name.
pub open spec fn has_region(map: Seq<MapRegion>, name: Seq<char>) -> bool {
    region_index(map, name) < map.len()
}

/// The unit in the named region, read off the first region of that name.
pub open spec fn spec_occupant(map: Seq<MapRegion>, name: Seq<char>) -> Option<Unit> {
    if has_region(map, name) {
        map[region_index(map, name)].unit
    } else {
        None
    }
}

/// No two regions of the board share a province name.
pub open spec fn unique_regions(map: Seq<MapRegion>) -> bool {
    forall|i: int, j: int|
        #![trigger map[i].province.name@, map[j].province.name@]
        0 <= i < j < map.len() ==> map[i].province.name@ != map[j].province.name@
}

/// Whether the adjacency-list entry `b` lets a fleet on `region_coast` reach
/// `to`: the entry must belong to the fleet's own coast and, for a move,
/// agree with the coast the order names.
pub open spec fn fleet_border_matches(
    b: Province,
    region_coast: Option<char>,
    to: Province,
    is_move: bool,
) -> bool {
    &&& b.from_coast == region_coast
    &&& (!is_move || b.coast == to.coast)
    &&& b.name@ == to.name@
}

/// Whether a unit of kind `ut` standing in `region` may reach `to` over its
/// own borders: armies use land adjacency; fleets use sea adjacency filtered
/// to the coast they stand on, and, for a move, to the coast they name.
pub open spec fn border_reachable(region: MapRegion, to: Province, ut: UnitType, is_move: bool) -> bool {
    match ut {
        UnitType::Army => prov_list_contains(region.army_borders@, to.name@),
        UnitType::Fleet => exists|i: int|
            0 <= i < region.fleet_borders@.len() && fleet_border_matches(
                #[trigger] region.fleet_borders@[i],
                region.province.coast,
                to,
                is_move,
            ),
    }
}

/// When a submitted order is allowed to join the order set: the province
/// holds a unit of the submitting power; a move or support never targets the
/// unit's own province and a support never helps a unit into itself; a fleet
/// cannot claim a convoy; and unless a convoy is claimed, the target must be
/// reachable over the unit's own borders.
pub open spec fn spec_admissible(
    map: Seq<MapRegion>,
    owner: Power,
    province: Province,
    action: Action,
) -> bool {
    let occ = spec_occupant(map, province.name@);
    let region = map[region_index(map, province.name@)];
    &&& occ matches Some(unit) && {
        &&& (action matches Action::Move { to, .. } ==> province.name@ != to.name@)
        &&& (action matches Action::SupportMove { from, to } ==> province.name@ != from.name@
            && province.name@ != to.name@ && from.name@ != to.name@)
        &&& !(action matches Action::Move { convoyed: true, .. } && unit.unit_type is Fleet)
        &&& power_eq(unit.owner, owner)
        &&& match action {
            Action::Move { to, convoyed } => convoyed || border_reachable(
                region,
                to,
                unit.unit_type,
                true,
            ),
            Action::SupportHold { to } => border_reachable(region, to, unit.unit_type, false),
            Action::SupportMove { to, .. } => border_reachable(region, to, unit.unit_type, false),
            _ => true,
        }
    }
}

/// Whether `o` is a move order issued at the province named `p`.
pub open spec fn is_move_at(o: Order, p: Seq<char>) -> bool {
    o.action is Move && o.province.name@ == p
}

/// Index of the first move order at `p` at or after position `i`, or
/// `orders.len()`.
pub open spec fn move_at_index_from(orders: Seq<Order>, p: Seq<char>, i: int) -> int
    decreases orders.len() - i,
{
    if i < 0 || i >= orders.len() {
        orders.len() as int
    } else if is_move_at(orders[i], p) {
        i
    } else {
        move_at_index_from(orders, p, i + 1)
    }
}

/// Index of the first move order at `p`, or `orders.len()`.
pub open spec fn move_at_index(orders: Seq<Order>, p: Seq<char>) -> int {
    move_at_index_from(orders, p, 0)
}

/// Whether some order moves the unit at `p`.
pub open spec fn has_move_at(orders: Seq<Order>, p: Seq<char>) -> bool {
    move_at_index(orders, p) < orders.len()
}

/// What `move_at_index` promises: it is the first matching index, and
/// `orders.len()` means there is none.
pub proof fn lemma_move_at_index_props(orders: Seq<Order>, p: Seq<char>)
    ensures
        0 <= move_at_index(orders, p) <= orders.len(),
        move_at_index(orders, p) == orders.len() ==> forall|i: int|
            0 <= i < orders.len() ==> !is_move_at(#[trigger] orders[i], p),
        move_at_index(orders, p) < orders.len() ==> {
            &&& 0 <= move_at_index(orders, p)
            &&& is_move_at(orders[move_at_index(orders, p)], p)
        },
{
    lemma_move_at_index_props_from(orders, p, 0);
}

proof fn lemma_move_at_index_props_from(orders: Seq<Order>, p: Seq<char>, i: int)
    requires
        0 <= i <= orders.len(),
    ensures
        i <= move_at_index_from(orders, p, i) <= orders.len(),
        move_at_index_from(orders, p, i) == orders.len() ==> forall|j: int|
            i <= j < orders.len() ==> !is_move_at(#[trigger] orders[j], p),
        move_at_index_from(orders, p, i) < orders.len() ==> {
            &&& i <= move_at_index_from(orders, p, i)
            &&& is_move_at(orders[move_at_index_from(orders, p, i)], p)
        },
    decreases orders.len() - i,
{
    if i < orders.len() && !is_move_at(orders[i], p) {
        lemma_move_at_index_props_from(orders, p, i + 1);
    }
}

/// The scan lemma for `vacating_index`: a match-free prefix followed by a
/// match (or the end) pins the index down.
pub proof fn lemma_vacating_index_scan(
    orders: Seq<Order>,
    dest: Seq<char>,
    origin: Seq<char>,
    i: int,
    k: int,
)
    requires
        0 <= i <= k <= orders.len(),
        forall|j: int| i <= j < k ==> !is_vacating(#[trigger] orders[j], dest, origin),
        k == orders.len() || is_vacating(orders[k], dest, origin),
    ensures
        vacating_index_from(orders, dest, origin, i) == k,
    decreases k - i,
{
    if i < k {
        lemma_vacating_index_scan(orders, dest, origin, i + 1, k);
    }
}

/// Bounds of `vacating_index`.
pub proof fn lemma_vacating_index_bounds(orders: Seq<Order>, dest: Seq<char>, origin: Seq<char>)
    ensures
        0 <= vacating_index(orders, dest, origin) <= orders.len(),
{
    lemma_vacating_index_bounds_from(orders, dest, origin, 0);
}

proof fn lemma_vacating_index_bounds_from(
    orders: Seq<Order>,
    dest: Seq<char>,
    origin: Seq<char>,
    i: int,
)
    requires
        0 <= i <= orders.len(),
    ensures
        i <= vacating_index_from(orders, dest, origin, i) <= orders.len(),
    decreases orders.len() - i,
{
    if i < orders.len() && !is_vacating(orders[i], dest, origin) {
        lemma_vacating_index_bounds_from(orders, dest, origin, i + 1);
    }
}

/// Bounds of `move_between_index`.
pub proof fn lemma_move_between_index_bounds(orders: Seq<Order>, dest: Seq<char>, p: Seq<char>)
    ensures
        0 <= move_between_index(orders, dest, p) <= orders.len(),
{
    lemma_move_between_index_bounds_from(orders, dest, p, 0);
}

proof fn lemma_move_between_index_bounds_from(
    orders: Seq<Order>,
    dest: Seq<char>,
    p: Seq<char>,
    i: int,
)
    requires
        0 <= i <= orders.len(),
    ensures
        i <= move_between_index_from(orders, dest, p, i) <= orders.len(),
    decreases orders.len() - i,
{
    if i < orders.len() && !is_move_between(orders[i], dest, p) {
        lemma_move_between_index_bounds_from(orders, dest, p, i + 1);
    }
}

/// The scan lemma for `move_between_index`.
pub proof fn lemma_move_between_index_scan(
    orders: Seq<Order>,
    dest: Seq<char>,
    p: Seq<char>,
    i: int,
    k: int,
)
    requires
        0 <= i <= k <= orders.len(),
        forall|j: int| i <= j < k ==> !is_move_between(#[trigger] orders[j], dest, p),
        k == orders.len() || is_move_between(orders[k], dest, p),
    ensures
        move_between_index_from(orders, dest, p, i) == k,
    decreases k - i,
{
    if i < k {
        lemma_move_between_index_scan(orders, dest, p, i + 1, k);
    }
}

/// An order that moves the unit at `p` witnesses `has_move_at`.
pub proof fn lemma_has_move_at(orders: Seq<Order>, p: Seq<char>, i: int)
    requires
        0 <= i < orders.len(),
        is_move_at(orders[i], p),
    ensures
        has_move_at(orders, p),
{
    lemma_move_at_index_props(orders, p);
}

/// The scan `lemma` for `move_at_index`: a prefix free of matches followed
/// by a match (or the end) pins the index down.
pub proof fn lemma_move_at_index_scan(orders: Seq<Order>, p: Seq<char>, i: int, k: int)
    requires
        0 <= i <= k <= orders.len(),
        forall|j: int| i <= j < k ==> !is_move_at(#[trigger] orders[j], p),
        k == orders.len() || is_move_at(orders[k], p),
    ensures
        move_at_index_from(orders, p, i) == k,
    decreases k - i,
{
    if i < k {
        lemma_move_at_index_scan(orders, p, i + 1, k);
    }
}

/// Whether `o` vacates `dest` without moving back into `origin`; such a move
/// is resolved when deciding whether `dest` was left empty, while a move
/// straight back into `origin` is the head-to-head case and is not.
pub open spec fn is_vacating(o: Order, dest: Seq<char>, origin: Seq<char>) -> bool {
    &&& o.action matches Action::Move { to, .. } && to.name@ != origin
    &&& o.province.name@ == dest
}

/// Index of the first order vacating `dest` (other than back into `origin`)
/// at or after position `i`, or `orders.len()`.
pub open spec fn vacating_index_from(
    orders: Seq<Order>,
    dest: Seq<char>,
    origin: Seq<char>,
    i: int,
) -> int
    decreases orders.len() - i,
{
    if i < 0 || i >= orders.len() {
        orders.len() as int
    } else if is_vacating(orders[i], dest, origin) {
        i
    } else {
        vacating_index_from(orders, dest, origin, i + 1)
    }
}

/// Index of the first order vacating `dest` other than back into `origin`.
pub open spec fn vacating_index(orders: Seq<Order>, dest: Seq<char>, origin: Seq<char>) -> int {
    vacating_index_from(orders, dest, origin, 0)
}

/// Whether `o` is a move from `dest` into `p`: the order that would make a
/// head-to-head battle out of a move from `p` to `dest`.
pub open spec fn is_move_between(o: Order, dest: Seq<char>, p: Seq<char>) -> bool {
    &&& o.action matches Action::Move { to, .. } && to.name@ == p
    &&& o.province.name@ == dest
}

/// Index of the first move from `dest` into `p` at or after `i`, or
/// `orders.len()`.
pub open spec fn move_between_index_from(
    orders: Seq<Order>,
    dest: Seq<char>,
    p: Seq<char>,
    i: int,
) -> int
    decreases orders.len() - i,
{
    if i < 0 || i >= orders.len() {
        orders.len() as int
    } else if is_move_between(orders[i], dest, p) {
        i
    } else {
        move_between_index_from(orders, dest, p, i + 1)
    }
}

/// Index of the first move from `dest` into `p`, or `orders.len()`.
pub open spec fn move_between_index(orders: Seq<Order>, dest: Seq<char>, p: Seq<char>) -> int {
    move_between_index_from(orders, dest, p, 0)
}

/// Whether `o` is a successful support of holding `p`.
pub open spec fn is_succ_support_hold(o: Order, p: Seq<char>) -> bool {
    &&& o.action matches Action::SupportHold { to } && to.name@ == p
    &&& o.resolution
}

/// Number of successful supports of holding `p` among the first `n` orders.
pub open spec fn count_support_hold(orders: Seq<Order>, p: Seq<char>, n: int) -> int
    decreases n,
{
    if n <= 0 || n > orders.len() {
        0
    } else {
        count_support_hold(orders, p, n - 1) + if is_succ_support_hold(orders[n - 1], p) {
            1int
        } else {
            0int
        }
    }
}

/// Whether `o` is a successful support of the move `from` -> `to`.
pub open spec fn is_succ_support_move(o: Order, from: Seq<char>, to: Seq<char>) -> bool {
    &&& o.action matches Action::SupportMove { from: f, to: t }
        && f.name@ == from
        && t.name@ == to
    &&& o.resolution
}

/// Number of successful supports of the move `from` -> `to` among the first
/// `n` orders.
pub open spec fn count_support_move(orders: Seq<Order>, from: Seq<char>, to: Seq<char>, n: int) -> int
    decreases n,
{
    if n <= 0 || n > orders.len() {
        0
    } else {
        count_support_move(orders, from, to, n - 1) + if is_succ_support_move(
            orders[n - 1],
            from,
            to,
        ) {
            1int
        } else {
            0int
        }
    }
}

/// Whether the attacked power (if any) may count this support: a defender's
/// own support never strengthens an attack against itself.
pub open spec fn support_counts_against(o: Order, attacked: Option<Power>) -> bool {
    match attacked {
        Some(pw) => !power_eq(pw, o.owner),
        None => true,
    }
}

/// Whether `o` is a successful support of `from` -> `to` usable against the
/// given defending power.
pub open spec fn is_succ_attack_support(
    o: Order,
    from: Seq<char>,
    to: Seq<char>,
    attacked: Option<Power>,
) -> bool {
    is_succ_support_move(o, from, to) && support_counts_against(o, attacked)
}

/// Number of successful attack-usable supports of `from` -> `to` among the
/// first `n` orders.
pub open spec fn count_attack_support(
    orders: Seq<Order>,
    from: Seq<char>,
    to: Seq<char>,
    attacked: Option<Power>,
    n: int,
) -> int
    decreases n,
{
    if n <= 0 || n > orders.len() {
        0
    } else {
        count_attack_support(orders, from, to, attacked, n - 1) + if is_succ_attack_support(
            orders[n - 1],
            from,
            to,
            attacked,
        ) {
            1int
        } else {
            0int
        }
    }
}

/// One step of a convoy chain: region `q[k]` is fleet-reachable but not
/// army-reachable from `q[k - 1]`, and no earlier link revisits its name.
pub open spec fn chain_step(map: Seq<MapRegion>, q: Seq<int>, k: int) -> bool {
    &&& prov_list_contains(map[q[k - 1]].fleet_borders@, map[q[k]].province.name@)
    &&& !prov_list_contains(map[q[k - 1]].army_borders@, map[q[k]].province.name@)
    &&& forall|j: int| 0 <= j < k ==> map[q[j]].province.name@ != map[q[k]].province.name@
}

/// A chain of region indices that could carry a convoy from `origin` to a
/// region bordering `dest`: it starts at `origin`, every later link is open
/// water relative to the one before, and the last link's fleet borders reach
/// `dest`.
pub open spec fn is_water_chain(
    map: Seq<MapRegion>,
    q: Seq<int>,
    origin: Seq<char>,
    dest: Seq<char>,
) -> bool {
    &&& q.len() >= 1
    &&& forall|k: int| 0 <= k < q.len() ==> 0 <= #[trigger] q[k] < map.len()
    &&& map[q[0]].province.name@ == origin
    &&& forall|k: int| 1 <= k < q.len() ==> #[trigger] chain_step(map, q, k)
    &&& prov_list_contains(map[q[q.len() - 1]].fleet_borders@, dest)
}

/// Whether `o` is a successful convoy order at region `at` carrying the move
/// `from` -> `to`.
pub open spec fn is_succ_convoy(o: Order, at: Seq<char>, from: Seq<char>, to: Seq<char>) -> bool {
    &&& o.province.name@ == at
    &&& o.action matches Action::Convoy { from: f, to: t }
        && f.name@ == from
        && t.name@ == to
    &&& o.resolution
}

/// Every carrying fleet of the chain (all links but the origin) has a
/// successful convoy order for exactly this origin/destination pair.
pub open spec fn chain_convoyed(
    map: Seq<MapRegion>,
    orders: Seq<Order>,
    q: Seq<int>,
    origin: Seq<char>,
    dest: Seq<char>,
) -> bool {
    forall|k: int|
        1 <= k < q.len() ==> exists|j: int|
            0 <= j < orders.len() && is_succ_convoy(
                #[trigger] orders[j],
                map[#[trigger] q[k]].province.name@,
                origin,
                dest,
            )
}

/// Whether a convoyed move from `origin` to `dest` has at least one valid,
/// fully convoyed path through open water.
#[verifier::opaque]
pub open spec fn has_convoy_path(
    map: Seq<MapRegion>,
    orders: Seq<Order>,
    origin: Seq<char>,
    dest: Seq<char>,
) -> bool {
    exists|q: Seq<int>|
        is_water_chain(map, q, origin, dest) && chain_convoyed(map, orders, q, origin, dest)
}

/// The power whose unit an attack out of `p` would hit at `dest`: none when
/// the destination's unit vacates it, else the owner of what stays.
pub open spec fn spec_attacked_power(
    map: Seq<MapRegion>,
    orders: Seq<Order>,
    p: Seq<char>,
    dest: Seq<char>,
) -> Option<Power> {
    let vi = vacating_index(orders, dest, p);
    let moved_away = vi < orders.len() && orders[vi].resolution;
    if moved_away {
        None
    } else {
        match spec_occupant(map, dest) {
            Some(u) => Some(u.owner),
            None => None,
        }
    }
}

/// Hold strength of a region: 0 when empty or successfully vacated;
/// otherwise — whether its unit stands still or tried to move and failed —
/// 1 plus its successful hold supports.
pub open spec fn spec_hold_strength(map: Seq<MapRegion>, orders: Seq<Order>, p: Seq<char>) -> int {
    if spec_occupant(map, p) is Some {
        let mi = move_at_index(orders, p);
        if mi < orders.len() && orders[mi].resolution {
            0
        } else {
            1 + count_support_hold(orders, p, orders.len() as int)
        }
    } else {
        0
    }
}

/// Attack strength of the (first) move ordered at `p`: 0 for a convoyed move
/// with no path and for an attack on one's own power; otherwise 1 plus the
/// successful supports not owned by the defender.
#[verifier::opaque]
pub open spec fn spec_attack_strength(map: Seq<MapRegion>, orders: Seq<Order>, p: Seq<char>) -> int {
    let m = orders[move_at_index(orders, p)];
    let dest = m.action->Move_to.name@;
    let convoyed = m.action->Move_convoyed;
    if convoyed && !has_convoy_path(map, orders, p, dest) {
        0
    } else {
        let attacked = spec_attacked_power(map, orders, p, dest);
        if attacked matches Some(pw) && power_eq(pw, m.owner) {
            0
        } else {
            1 + count_attack_support(orders, p, dest, attacked, orders.len() as int)
        }
    }
}

/// Defend strength in a head-to-head battle: 1 plus all successful supports
/// of the move, with no power exclusion.
pub open spec fn spec_defend_strength(map: Seq<MapRegion>, orders: Seq<Order>, p: Seq<char>) -> int {
    let m = orders[move_at_index(orders, p)];
    let dest = m.action->Move_to.name@;
    1 + count_support_move(orders, p, dest, orders.len() as int)
}

/// Prevent strength of the (first) move at `p` against third parties entering
/// its destination: 0 for a convoyed move with no path, 0 when `p` loses a
/// head-to-head battle for the destination, else 1 plus successful supports.
#[verifier::opaque]
pub open spec fn spec_prevent_strength(map: Seq<MapRegion>, orders: Seq<Order>, p: Seq<char>) -> int {
    let m = orders[move_at_index(orders, p)];
    let dest = m.action->Move_to.name@;
    let convoyed = m.action->Move_convoyed;
    if convoyed && !has_convoy_path(map, orders, p, dest) {
        0
    } else {
        let hi = move_between_index(orders, dest, p);
        if hi < orders.len() && orders[hi].resolution {
            0
        } else {
            1 + count_support_move(orders, p, dest, orders.len() as int)
        }
    }
}

/// Whether `o` is a move into `dest` ordered at some province other than `p`:
/// a third party contesting the same destination.
pub open spec fn is_contesting(o: Order, dest: Seq<char>, p: Seq<char>) -> bool {
    &&& o.action matches Action::Move { to, .. } && to.name@ == dest
    &&& o.province.name@ != p
}

/// Whether there is a non-convoyed move from `dest` back into `p`, making the
/// move `p` -> `dest` a head-to-head battle.
pub open spec fn exists_head_to_head(orders: Seq<Order>, p: Seq<char>, dest: Seq<char>) -> bool {
    exists|i: int|
        0 <= i < orders.len() && (#[trigger] orders[i].action matches Action::Move {
            to,
            convoyed,
        } && to.name@ == p
            && !convoyed) && orders[i].province.name@ == dest
}

/// The power whose unit is being supported: the owner of the unit standing
/// in the named province, when there is one.
pub open spec fn spec_supported_power(map: Seq<MapRegion>, name: Seq<char>) -> Option<Power> {
    match spec_occupant(map, name) {
        Some(u) => Some(u.owner),
        None => None,
    }
}

/// Whether the order `c` cuts a support standing at `at`: `c` attacks `at`
/// with a usable path, is not aimed at the province the support is helping
/// into, and is not issued by the power whose unit is being supported.
pub open spec fn is_cutting(
    map: Seq<MapRegion>,
    orders: Seq<Order>,
    c: Order,
    at: Seq<char>,
    support_to: Seq<char>,
    supported: Option<Power>,
) -> bool {
    &&& c.action matches Action::Move { to, convoyed } && to.name@ == at && (convoyed
        ==> has_convoy_path(map, orders, c.province.name@, at))
    &&& c.province.name@ != support_to
    &&& !(supported matches Some(pw) && power_eq(c.owner, pw))
}

/// Whether `o` is a move into the province named `p`.
pub open spec fn is_move_to(o: Order, p: Seq<char>) -> bool {
    o.action matches Action::Move { to, .. } && to.name@ == p
}

/// The region `r` after a successful move into it: it takes the source's
/// unit; it takes the source's owner except on a supply center outside the
/// fall phase; and when the move names a coast, the region's coast becomes
/// that coast (where the region tracks one at all).
pub open spec fn region_after_move(
    r: MapRegion,
    src_unit: Option<Unit>,
    src_owner: Option<Power>,
    phase: Phase,
    to: Province,
) -> MapRegion {
    MapRegion {
        province: Province {
            name: r.province.name,
            coast: if to.coast is Some {
                if r.province.coast is Some {
                    to.coast
                } else {
                    None
                }
            } else {
                r.province.coast
            },
            from_coast: r.province.from_coast,
        },
        sc: r.sc,
        owner: if !r.sc || phase is FallDiplomacy {
            src_owner
        } else {
            r.owner
        },
        unit: src_unit,
        fleet_borders: r.fleet_borders,
        army_borders: r.army_borders,
    }
}

/// The region `r` with its unit removed.
pub open spec fn region_vacated(r: MapRegion) -> MapRegion {
    MapRegion {
        province: r.province,
        sc: r.sc,
        owner: r.owner,
        unit: None,
        fleet_borders: r.fleet_borders,
        army_borders: r.army_borders,
    }
}

/// One order's effect in the relocation pass.  Only a successful move acts:
/// it records any unit standing at its destination as provisionally
/// dislodged, moves the unit and (subject to the supply-center rule) the
/// ownership read from the pre-pass board, and notes the origin as vacated.
/// A move whose origin or destination is not on the board does nothing.
pub open spec fn apply_move_step(
    map0: Seq<MapRegion>,
    phase: Phase,
    st: (Seq<MapRegion>, Seq<(Province, Unit)>, Seq<Province>),
    o: Order,
) -> (Seq<MapRegion>, Seq<(Province, Unit)>, Seq<Province>) {
    if o.resolution && o.action is Move {
        let to = o.action->Move_to;
        let cur = st.0;
        let fi = region_index(cur, o.province.name@);
        let ti = region_index(cur, to.name@);
        if fi < cur.len() && ti < cur.len() {
            let dis2 = if cur[ti].unit is Some {
                st.1.push((to, cur[ti].unit->Some_0))
            } else {
                st.1
            };
            let cur2 = cur.update(
                ti,
                region_after_move(cur[ti], map0[fi].unit, map0[fi].owner, phase, to),
            );
            (cur2, dis2, st.2.push(o.province))
        } else {
            st
        }
    } else {
        st
    }
}

/// The relocation pass over the first `n` orders, in submission order.
pub open spec fn apply_moves(map0: Seq<MapRegion>, phase: Phase, orders: Seq<Order>, n: int) -> (
    Seq<MapRegion>,
    Seq<(Province, Unit)>,
    Seq<Province>,
)
    decreases n,
{
    if n <= 0 || n > orders.len() {
        (map0, Seq::<(Province, Unit)>::empty(), Seq::<Province>::empty())
    } else {
        apply_move_step(map0, phase, apply_moves(map0, phase, orders, n - 1), orders[n - 1])
    }
}

/// Index of the first provisional dislodgement recorded for the named
/// province at or after `i`, or `dis.len()`.
pub open spec fn dis_index_from(dis: Seq<(Province, Unit)>, name: Seq<char>, i: int) -> int
    decreases dis.len() - i,
{
    if i < 0 || i >= dis.len() {
        dis.len() as int
    } else if dis[i].0.name@ == name {
        i
    } else {
        dis_index_from(dis, name, i + 1)
    }
}

/// Index of the first provisional dislodgement for the named province.
pub open spec fn dis_index(dis: Seq<(Province, Unit)>, name: Seq<char>) -> int {
    dis_index_from(dis, name, 0)
}

/// The board after the cleanup pass: a region whose unit moved away and was
/// not replaced becomes empty; every other region stands as the relocation
/// pass left it.
pub open spec fn cleanup_map(
    m1: Seq<MapRegion>,
    dis: Seq<(Province, Unit)>,
    moved: Seq<Province>,
) -> Seq<MapRegion> {
    Seq::new(
        m1.len(),
        |i: int|
            {
                let r = m1[i];
                let dd = dis_index(dis, r.province.name@) < dis.len();
                let mv = prov_list_contains(moved, r.province.name@);
                if !dd && mv {
                    region_vacated(r)
                } else {
                    r
                }
            },
    )
}

/// The dislodgements the cleanup pass reports, in board order: a region's
/// provisional dislodgement stands unless its unit also moved away itself.
pub open spec fn new_dislodgements(
    m1: Seq<MapRegion>,
    dis: Seq<(Province, Unit)>,
    moved: Seq<Province>,
    n: int,
) -> Seq<(Province, Unit)>
    decreases n,
{
    if n <= 0 || n > m1.len() {
        Seq::<(Province, Unit)>::empty()
    } else {
        let rest = new_dislodgements(m1, dis, moved, n - 1);
        let r = m1[n - 1];
        let d = dis_index(dis, r.province.name@);
        let dd = d < dis.len();
        let mv = prov_list_contains(moved, r.province.name@);
        if dd && !mv {
            rest.push(dis[d])
        } else {
            rest
        }
    }
}

/// What committing the resolved orders does to a board: the relocation pass
/// in submission order, then the cleanup pass.  Returns the new board and
/// the newly dislodged units.
pub open spec fn spec_apply_resolved(map0: Seq<MapRegion>, phase: Phase, orders: Seq<Order>) -> (
    Seq<MapRegion>,
    Seq<(Province, Unit)>,
) {
    let passes = apply_moves(map0, phase, orders, orders.len() as int);
    let m1 = passes.0;
    let dis = passes.1;
    let moved = passes.2;
    (cleanup_map(m1, dis, moved), new_dislodgements(m1, dis, moved, m1.len() as int))
}

/// The phase that follows `phase`, given whether any dislodged units await
/// retreats.
pub open spec fn spec_next_phase(phase: Phase, no_dislodged: bool) -> Phase {
    match phase {
        Phase::SpringDiplomacy => if no_dislodged {
            Phase::FallDiplomacy
        } else {
            Phase::SpringRetreats
        },
        Phase::SpringRetreats => Phase::FallDiplomacy,
        Phase::FallDiplomacy => if no_dislodged {
            Phase::Builds
        } else {
            Phase::FallRetreats
        },
        Phase::FallRetreats => Phase::Builds,
        Phase::Builds => Phase::SpringDiplomacy,
    }
}

/// The scan lemma for `dis_index`.
pub proof fn lemma_dis_index_scan(dis: Seq<(Province, Unit)>, name: Seq<char>, i: int, k: int)
    requires
        0 <= i <= k <= dis.len(),
        forall|j: int| i <= j < k ==> (#[trigger] dis[j].0.name@) != name,
        k == dis.len() || dis[k].0.name@ == name,
    ensures
        dis_index_from(dis, name, i) == k,
    decreases k - i,
{
    if i < k {
        lemma_dis_index_scan(dis, name, i + 1, k);
    }
}

/// The adjudication equation for order `id`, read against the candidate
/// success values stored in `orders`:
/// - a hold always succeeds;
/// - a move succeeds when its attack strength beats the counter strength of
///   its destination (defend strength in a head-to-head battle, hold strength
///   otherwise) and the prevent strength of every contesting move;
/// - a support succeeds unless some qualifying move cuts it;
/// - a convoy succeeds unless a successful move dislodges it.
pub open spec fn spec_adjudicate(map: Seq<MapRegion>, orders: Seq<Order>, id: int) -> bool {
    let o = orders[id];
    let p = o.province.name@;
    match o.action {
        Action::Hold => true,
        Action::Move { to, convoyed } => {
            let dest = to.name@;
            let atk = spec_attack_strength(map, orders, p);
            let counter = if exists_head_to_head(orders, p, dest) {
                spec_defend_strength(map, orders, dest)
            } else {
                spec_hold_strength(map, orders, dest)
            };
            &&& atk > counter
            &&& forall|i: int|
                0 <= i < orders.len() && is_contesting(#[trigger] orders[i], dest, p) ==> atk
                    > spec_prevent_strength(map, orders, orders[i].province.name@)
        },
        Action::SupportHold { to } => !exists|i: int|
            0 <= i < orders.len() && is_cutting(
                map,
                orders,
                #[trigger] orders[i],
                p,
                to.name@,
                spec_supported_power(map, to.name@),
            ),
        Action::SupportMove { from, to } => !exists|i: int|
            0 <= i < orders.len() && is_cutting(
                map,
                orders,
                #[trigger] orders[i],
                p,
                to.name@,
                spec_supported_power(map, from.name@),
            ),
        Action::Convoy { .. } => !exists|i: int|
            0 <= i < orders.len() && is_move_to(#[trigger] orders[i], p) && orders[i].resolution,
    }
}

} // verus!
