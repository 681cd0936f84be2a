//! The laws of the adjudication equations: statements about the model of
//! `model` that hold for every board and order set, proved once and for
//! all.

use vstd::prelude::*;

use crate::board::order_core_eq;
use crate::model::count_attack_support;
use crate::model::has_convoy_path;
use crate::model::has_move_at;
use crate::model::is_move_to;
use crate::model::is_succ_attack_support;
use crate::model::is_succ_convoy;
use crate::model::move_at_index;
use crate::model::move_at_index_from;
use crate::model::power_eq;
use crate::model::spec_adjudicate;
use crate::model::spec_attack_strength;
use crate::model::spec_attacked_power;
use crate::model::spec_occupant;
use crate::model::vacating_index;
use crate::model::vacating_index_from;
use crate::model::is_vacating;
use crate::model::chain_convoyed;
use crate::model::is_water_chain;
use crate::types::Action;
use crate::types::MapRegion;
use crate::types::Order;

verus! {

/// Self-attack guard: a move whose destination is still occupied by a unit
/// of the mover's own power has attack strength 0, no matter how many
/// supports it has.  "Still occupied" means the destination's unit has not
/// successfully vacated (a unit that leaves makes the province fair game).
pub proof fn lemma_self_attack_fails(map: Seq<MapRegion>, orders: Seq<Order>, p: Seq<char>)
    requires
        has_move_at(orders, p),
        ({
            let m = orders[move_at_index(orders, p)];
            let dest = m.action->Move_to.name@;
            let vi = vacating_index(orders, dest, p);
            &&& !(vi < orders.len() && orders[vi].resolution)
            &&& spec_occupant(map, dest) matches Some(u) && power_eq(u.owner, m.owner)
        }),
    ensures
        spec_attack_strength(map, orders, p) == 0,
{
    reveal(crate::model::spec_attack_strength);
}

/// Convoy dislodgement: a convoy order succeeds exactly when no move
/// against its province is successful.  Nothing else touches it: supports
/// and support-cutting attacks play no part in a convoy's fate.
pub proof fn lemma_convoy_dislodgement(map: Seq<MapRegion>, orders: Seq<Order>, id: int)
    requires
        0 <= id < orders.len(),
        orders[id].action is Convoy,
    ensures
        spec_adjudicate(map, orders, id) <==> !(exists|i: int|
            0 <= i < orders.len() && is_move_to(#[trigger] orders[i], orders[id].province.name@)
                && orders[i].resolution),
{
}

// --- support monotonicity ---

proof fn lemma_move_at_index_push(orders: Seq<Order>, o: Order, p: Seq<char>, i: int)
    requires
        0 <= i <= orders.len(),
        move_at_index_from(orders, p, i) < orders.len(),
    ensures
        move_at_index_from(orders.push(o), p, i) == move_at_index_from(orders, p, i),
    decreases orders.len() - i,
{
    assert(orders.push(o).len() == orders.len() + 1);
    if i < orders.len() {
        assert(orders.push(o)[i] == orders[i]);
        if !crate::model::is_move_at(orders[i], p) {
            lemma_move_at_index_push(orders, o, p, i + 1);
        }
    }
}

proof fn lemma_vacating_index_push(
    orders: Seq<Order>,
    o: Order,
    dest: Seq<char>,
    origin: Seq<char>,
    i: int,
)
    requires
        0 <= i <= orders.len(),
        !is_vacating(o, dest, origin),
    ensures
        vacating_index_from(orders, dest, origin, i) < orders.len()
            ==> vacating_index_from(orders.push(o), dest, origin, i)
            == vacating_index_from(orders, dest, origin, i),
        vacating_index_from(orders, dest, origin, i) == orders.len()
            ==> vacating_index_from(orders.push(o), dest, origin, i) == orders.len() + 1,
    decreases orders.len() - i,
{
    assert(orders.push(o).len() == orders.len() + 1);
    if i < orders.len() {
        assert(orders.push(o)[i] == orders[i]);
        if !is_vacating(orders[i], dest, origin) {
            lemma_vacating_index_push(orders, o, dest, origin, i + 1);
        }
    } else {
        assert(orders.push(o)[i] == o);
        assert(vacating_index_from(orders.push(o), dest, origin, i + 1) == orders.len() + 1);
        assert(vacating_index_from(orders.push(o), dest, origin, i) == orders.len() + 1);
    }
}

proof fn lemma_count_attack_support_push_prefix(
    orders: Seq<Order>,
    o: Order,
    from: Seq<char>,
    to: Seq<char>,
    attacked: Option<crate::types::Power>,
    n: int,
)
    requires
        0 <= n <= orders.len(),
    ensures
        count_attack_support(orders.push(o), from, to, attacked, n) == count_attack_support(
            orders,
            from,
            to,
            attacked,
            n,
        ),
    decreases n,
{
    if n > 0 {
        assert(orders.push(o)[n - 1] == orders[n - 1]);
        lemma_count_attack_support_push_prefix(orders, o, from, to, attacked, n - 1);
    }
}

proof fn lemma_convoy_path_push(
    map: Seq<MapRegion>,
    orders: Seq<Order>,
    o: Order,
    origin: Seq<char>,
    dest: Seq<char>,
)
    requires
        !(o.action is Convoy),
    ensures
        has_convoy_path(map, orders.push(o), origin, dest) == has_convoy_path(
            map,
            orders,
            origin,
            dest,
        ),
{
    reveal(crate::model::has_convoy_path);
    let o1 = orders;
    let o2 = orders.push(o);
    assert(o2.len() == o1.len() + 1);
    if has_convoy_path(map, o1, origin, dest) {
        let q = choose|q: Seq<int>|
            is_water_chain(map, q, origin, dest) && chain_convoyed(map, o1, q, origin, dest);
        assert(chain_convoyed(map, o2, q, origin, dest)) by {
            assert forall|k: int| 1 <= k < q.len() implies exists|j: int|
                0 <= j < o2.len() && is_succ_convoy(
                    #[trigger] o2[j],
                    map[#[trigger] q[k]].province.name@,
                    origin,
                    dest,
                ) by {
                let j = choose|j: int|
                    0 <= j < o1.len() && is_succ_convoy(
                        #[trigger] o1[j],
                        map[q[k]].province.name@,
                        origin,
                        dest,
                    );
                assert(o2[j] == o1[j]);
                assert(is_succ_convoy(o2[j], map[q[k]].province.name@, origin, dest));
            }
        }
        assert(has_convoy_path(map, o2, origin, dest));
    }
    if has_convoy_path(map, o2, origin, dest) {
        let q = choose|q: Seq<int>|
            is_water_chain(map, q, origin, dest) && chain_convoyed(map, o2, q, origin, dest);
        assert(chain_convoyed(map, o1, q, origin, dest)) by {
            assert forall|k: int| 1 <= k < q.len() implies exists|j: int|
                0 <= j < o1.len() && is_succ_convoy(
                    #[trigger] o1[j],
                    map[#[trigger] q[k]].province.name@,
                    origin,
                    dest,
                ) by {
                let j = choose|j: int|
                    0 <= j < o2.len() && is_succ_convoy(
                        #[trigger] o2[j],
                        map[q[k]].province.name@,
                        origin,
                        dest,
                    );
                assert(j != o1.len());
                assert(o2[j] == o1[j]);
                assert(is_succ_convoy(o1[j], map[q[k]].province.name@, origin, dest));
            }
        }
        assert(has_convoy_path(map, o1, origin, dest));
    }
}

/// Strength monotonicity: adding one successful support for a move, owned
/// by anyone but the defender, raises that move's attack strength by
/// exactly 1 — provided the move has any strength at all (a convoyed move
/// without a route, or a move against the mover's own power, stays at 0
/// whatever its support).
pub proof fn lemma_support_monotonicity(
    map: Seq<MapRegion>,
    orders: Seq<Order>,
    p: Seq<char>,
    o: Order,
)
    requires
        has_move_at(orders, p),
        spec_attack_strength(map, orders, p) > 0,
        ({
            let m = orders[move_at_index(orders, p)];
            let dest = m.action->Move_to.name@;
            &&& o.action matches Action::SupportMove { from, to } && from.name@ == p && to.name@
                == dest
            &&& o.resolution
            &&& crate::model::support_counts_against(
                o,
                spec_attacked_power(map, orders, p, dest),
            )
        }),
    ensures
        spec_attack_strength(map, orders.push(o), p) == spec_attack_strength(map, orders, p) + 1,
{
    reveal(crate::model::spec_attack_strength);
    let o2 = orders.push(o);
    let mi = move_at_index(orders, p);
    crate::model::lemma_move_at_index_props(orders, p);
    lemma_move_at_index_push(orders, o, p, 0);
    assert(o2[mi] == orders[mi]);
    let m = orders[mi];
    let dest = m.action->Move_to.name@;
    let convoyed = m.action->Move_convoyed;

    assert(!is_vacating(o, dest, p));
    lemma_vacating_index_push(orders, o, dest, p, 0);
    lemma_vacating_props(orders, dest, p);
    assert(spec_attacked_power(map, o2, p, dest) == spec_attacked_power(map, orders, p, dest)) by {
        let vi = vacating_index(orders, dest, p);
        if vi < orders.len() {
            assert(o2[vi] == orders[vi]);
        }
    }
    if convoyed {
        lemma_convoy_path_push(map, orders, o, p, dest);
    }
    let attacked = spec_attacked_power(map, orders, p, dest);
    lemma_count_attack_support_push_prefix(orders, o, p, dest, attacked, orders.len() as int);
    assert(o2[o2.len() - 1] == o);
    assert(is_succ_attack_support(o, p, dest, attacked));
    assert(count_attack_support(o2, p, dest, attacked, o2.len() as int) == count_attack_support(
        orders,
        p,
        dest,
        attacked,
        orders.len() as int,
    ) + 1);
}

/// Admission and self-movement: an admissible move never names its own
/// province as destination, so an order set built purely through admission
/// satisfies the `no_self_moves` hypothesis of the guess-independence law.
pub proof fn lemma_admissible_no_self_move(
    map: Seq<MapRegion>,
    owner: crate::types::Power,
    province: crate::types::Province,
    action: Action,
)
    requires
        crate::model::spec_admissible(map, owner, province, action),
    ensures
        action matches Action::Move { to, .. } ==> to.name@ != province.name@,
{
}

// --- guess independence ---

/// Two order arenas that agree everywhere except possibly on the resolution
/// bookkeeping (success value and state) of order `id`.
pub open spec fn agree_except(o1: Seq<Order>, o2: Seq<Order>, id: int) -> bool {
    &&& o1.len() == o2.len()
    &&& 0 <= id < o1.len()
    &&& order_core_eq(o1[id], o2[id])
    &&& forall|i: int| 0 <= i < o1.len() && i != id ==> (#[trigger] o1[i]) == o2[i]
}

/// No order moves a unit into its own province; admission guarantees this
/// of every submitted order.
pub open spec fn no_self_moves(orders: Seq<Order>) -> bool {
    forall|i: int|
        0 <= i < orders.len() ==> ((#[trigger] orders[i].action) matches Action::Move { to, .. }
            ==> to.name@ != orders[i].province.name@)
}

proof fn lemma_move_at_cong(o1: Seq<Order>, o2: Seq<Order>, id: int, p: Seq<char>, i: int)
    requires
        agree_except(o1, o2, id),
        0 <= i <= o1.len(),
    ensures
        move_at_index_from(o1, p, i) == move_at_index_from(o2, p, i),
    decreases o1.len() - i,
{
    if i < o1.len() {
        assert(crate::model::is_move_at(o1[i], p) == crate::model::is_move_at(o2[i], p)) by {
            if i == id {
                assert(o1[i].action == o2[i].action && o1[i].province == o2[i].province);
            } else {
                assert(o1[i] == o2[i]);
            }
        }
        if !crate::model::is_move_at(o1[i], p) {
            lemma_move_at_cong(o1, o2, id, p, i + 1);
        }
    }
}

proof fn lemma_vacating_cong(
    o1: Seq<Order>,
    o2: Seq<Order>,
    id: int,
    dest: Seq<char>,
    origin: Seq<char>,
    i: int,
)
    requires
        agree_except(o1, o2, id),
        0 <= i <= o1.len(),
    ensures
        vacating_index_from(o1, dest, origin, i) == vacating_index_from(o2, dest, origin, i),
    decreases o1.len() - i,
{
    if i < o1.len() {
        assert(is_vacating(o1[i], dest, origin) == is_vacating(o2[i], dest, origin)) by {
            if i == id {
                assert(o1[i].action == o2[i].action && o1[i].province == o2[i].province);
            } else {
                assert(o1[i] == o2[i]);
            }
        }
        if !is_vacating(o1[i], dest, origin) {
            lemma_vacating_cong(o1, o2, id, dest, origin, i + 1);
        }
    }
}

proof fn lemma_move_between_cong(
    o1: Seq<Order>,
    o2: Seq<Order>,
    id: int,
    dest: Seq<char>,
    p: Seq<char>,
    i: int,
)
    requires
        agree_except(o1, o2, id),
        0 <= i <= o1.len(),
    ensures
        crate::model::move_between_index_from(o1, dest, p, i)
            == crate::model::move_between_index_from(o2, dest, p, i),
    decreases o1.len() - i,
{
    if i < o1.len() {
        assert(crate::model::is_move_between(o1[i], dest, p) == crate::model::is_move_between(
            o2[i],
            dest,
            p,
        )) by {
            if i == id {
                assert(o1[i].action == o2[i].action && o1[i].province == o2[i].province);
            } else {
                assert(o1[i] == o2[i]);
            }
        }
        if !crate::model::is_move_between(o1[i], dest, p) {
            lemma_move_between_cong(o1, o2, id, dest, p, i + 1);
        }
    }
}

proof fn lemma_move_between_props_from(orders: Seq<Order>, dest: Seq<char>, p: Seq<char>, i: int)
    requires
        0 <= i <= orders.len(),
    ensures
        i <= crate::model::move_between_index_from(orders, dest, p, i) <= orders.len(),
        crate::model::move_between_index_from(orders, dest, p, i) < orders.len()
            ==> crate::model::is_move_between(
            orders[crate::model::move_between_index_from(orders, dest, p, i)],
            dest,
            p,
        ),
    decreases orders.len() - i,
{
    if i < orders.len() && !crate::model::is_move_between(orders[i], dest, p) {
        lemma_move_between_props_from(orders, dest, p, i + 1);
    }
}

proof fn lemma_count_sh_cong(o1: Seq<Order>, o2: Seq<Order>, id: int, p: Seq<char>, n: int)
    requires
        agree_except(o1, o2, id),
        crate::model::is_succ_support_hold(o1[id], p) == crate::model::is_succ_support_hold(
            o2[id],
            p,
        ),
        0 <= n <= o1.len(),
    ensures
        crate::model::count_support_hold(o1, p, n) == crate::model::count_support_hold(o2, p, n),
    decreases n,
{
    if n > 0 {
        if n - 1 != id {
            assert(o1[n - 1] == o2[n - 1]);
        }
        lemma_count_sh_cong(o1, o2, id, p, n - 1);
    }
}

proof fn lemma_count_sm_cong(
    o1: Seq<Order>,
    o2: Seq<Order>,
    id: int,
    from: Seq<char>,
    to: Seq<char>,
    n: int,
)
    requires
        agree_except(o1, o2, id),
        crate::model::is_succ_support_move(o1[id], from, to)
            == crate::model::is_succ_support_move(o2[id], from, to),
        0 <= n <= o1.len(),
    ensures
        crate::model::count_support_move(o1, from, to, n) == crate::model::count_support_move(
            o2,
            from,
            to,
            n,
        ),
    decreases n,
{
    if n > 0 {
        if n - 1 != id {
            assert(o1[n - 1] == o2[n - 1]);
        }
        lemma_count_sm_cong(o1, o2, id, from, to, n - 1);
    }
}

proof fn lemma_count_as_cong(
    o1: Seq<Order>,
    o2: Seq<Order>,
    id: int,
    from: Seq<char>,
    to: Seq<char>,
    attacked: Option<crate::types::Power>,
    n: int,
)
    requires
        agree_except(o1, o2, id),
        is_succ_attack_support(o1[id], from, to, attacked) == is_succ_attack_support(
            o2[id],
            from,
            to,
            attacked,
        ),
        0 <= n <= o1.len(),
    ensures
        count_attack_support(o1, from, to, attacked, n) == count_attack_support(
            o2,
            from,
            to,
            attacked,
            n,
        ),
    decreases n,
{
    if n > 0 {
        if n - 1 != id {
            assert(o1[n - 1] == o2[n - 1]);
        }
        lemma_count_as_cong(o1, o2, id, from, to, attacked, n - 1);
    }
}

proof fn lemma_convoy_path_cong(
    map: Seq<MapRegion>,
    o1: Seq<Order>,
    o2: Seq<Order>,
    id: int,
    origin: Seq<char>,
    dest: Seq<char>,
)
    requires
        agree_except(o1, o2, id),
        !(o1[id].action is Convoy),
    ensures
        has_convoy_path(map, o1, origin, dest) == has_convoy_path(map, o2, origin, dest),
{
    reveal(crate::model::has_convoy_path);
    assert(o2[id].action == o1[id].action);
    if has_convoy_path(map, o1, origin, dest) {
        let q = choose|q: Seq<int>|
            is_water_chain(map, q, origin, dest) && chain_convoyed(map, o1, q, origin, dest);
        assert(chain_convoyed(map, o2, q, origin, dest)) by {
            assert forall|k: int| 1 <= k < q.len() implies exists|j: int|
                0 <= j < o2.len() && is_succ_convoy(
                    #[trigger] o2[j],
                    map[#[trigger] q[k]].province.name@,
                    origin,
                    dest,
                ) by {
                let j = choose|j: int|
                    0 <= j < o1.len() && is_succ_convoy(
                        #[trigger] o1[j],
                        map[q[k]].province.name@,
                        origin,
                        dest,
                    );
                assert(j != id);
                assert(o2[j] == o1[j]);
                assert(is_succ_convoy(o2[j], map[q[k]].province.name@, origin, dest));
            }
        }
        assert(has_convoy_path(map, o2, origin, dest));
    }
    if has_convoy_path(map, o2, origin, dest) {
        let q = choose|q: Seq<int>|
            is_water_chain(map, q, origin, dest) && chain_convoyed(map, o2, q, origin, dest);
        assert(chain_convoyed(map, o1, q, origin, dest)) by {
            assert forall|k: int| 1 <= k < q.len() implies exists|j: int|
                0 <= j < o1.len() && is_succ_convoy(
                    #[trigger] o1[j],
                    map[#[trigger] q[k]].province.name@,
                    origin,
                    dest,
                ) by {
                let j = choose|j: int|
                    0 <= j < o2.len() && is_succ_convoy(
                        #[trigger] o2[j],
                        map[q[k]].province.name@,
                        origin,
                        dest,
                    );
                assert(j != id);
                assert(o1[j] == o2[j]);
                assert(is_succ_convoy(o1[j], map[q[k]].province.name@, origin, dest));
            }
        }
        assert(has_convoy_path(map, o1, origin, dest));
    }
}

proof fn lemma_hold_cong(map: Seq<MapRegion>, o1: Seq<Order>, o2: Seq<Order>, id: int, dest: Seq<
    char,
>)
    requires
        agree_except(o1, o2, id),
        !(o1[id].action is SupportHold),
        !crate::model::is_move_at(o1[id], dest),
    ensures
        crate::model::spec_hold_strength(map, o1, dest) == crate::model::spec_hold_strength(
            map,
            o2,
            dest,
        ),
{
    assert(o2[id].action == o1[id].action);
    lemma_move_at_cong(o1, o2, id, dest, 0);
    crate::model::lemma_move_at_index_props(o1, dest);
    let mi = move_at_index(o1, dest);
    if mi < o1.len() {
        assert(mi != id);
        assert(o1[mi] == o2[mi]);
    }
    lemma_count_sh_cong(o1, o2, id, dest, o1.len() as int);
}

proof fn lemma_defend_cong(map: Seq<MapRegion>, o1: Seq<Order>, o2: Seq<Order>, id: int, p: Seq<
    char,
>)
    requires
        agree_except(o1, o2, id),
        !(o1[id].action is SupportMove),
        has_move_at(o1, p),
    ensures
        crate::model::spec_defend_strength(map, o1, p) == crate::model::spec_defend_strength(
            map,
            o2,
            p,
        ),
{
    assert(o2[id].action == o1[id].action);
    lemma_move_at_cong(o1, o2, id, p, 0);
    crate::model::lemma_move_at_index_props(o1, p);
    let mi = move_at_index(o1, p);
    if mi != id {
        assert(o1[mi] == o2[mi]);
    }
    let dest = o1[mi].action->Move_to.name@;
    assert(o2[mi].action == o1[mi].action);
    lemma_count_sm_cong(o1, o2, id, p, dest, o1.len() as int);
}

proof fn lemma_attack_cong(map: Seq<MapRegion>, o1: Seq<Order>, o2: Seq<Order>, id: int, p: Seq<
    char,
>)
    requires
        agree_except(o1, o2, id),
        no_self_moves(o1),
        o1[id].action is Move,
        o1[id].province.name@ == p,
    ensures
        spec_attack_strength(map, o1, p) == spec_attack_strength(map, o2, p),
{
    reveal(crate::model::spec_attack_strength);

    assert(o2[id].action == o1[id].action);
    assert(crate::model::is_move_at(o1[id], p));
    crate::model::lemma_has_move_at(o1, p, id);
    lemma_move_at_cong(o1, o2, id, p, 0);
    crate::model::lemma_move_at_index_props(o1, p);
    let mi = move_at_index(o1, p);
    if mi != id {
        assert(o1[mi] == o2[mi]);
    }
    assert(o2[mi].action == o1[mi].action && o2[mi].owner == o1[mi].owner);
    let m = o1[mi];
    let dest = m.action->Move_to.name@;
    assert(dest != p) by {
        assert(crate::model::is_move_at(o1[mi], p));
    }
    if m.action->Move_convoyed {
        lemma_convoy_path_cong(map, o1, o2, id, p, dest);
    }
    assert(spec_attacked_power(map, o1, p, dest) == spec_attacked_power(map, o2, p, dest)) by {
        lemma_vacating_cong(o1, o2, id, dest, p, 0);
        lemma_vacating_props(o1, dest, p);
        let vi = vacating_index(o1, dest, p);
        if vi < o1.len() {
            assert(o1[vi].province.name@ == dest);
            assert(vi != id);
            assert(o1[vi] == o2[vi]);
        }
    }
    let attacked = spec_attacked_power(map, o1, p, dest);
    lemma_count_as_cong(o1, o2, id, p, dest, attacked, o1.len() as int);
}

proof fn lemma_prevent_cong(
    map: Seq<MapRegion>,
    o1: Seq<Order>,
    o2: Seq<Order>,
    id: int,
    p2: Seq<char>,
)
    requires
        agree_except(o1, o2, id),
        no_self_moves(o1),
        o1[id].action is Move,
        o1[id].province.name@ != p2,
        o1[id].action->Move_to.name@ != p2,
        has_move_at(o1, p2),
    ensures
        crate::model::spec_prevent_strength(map, o1, p2) == crate::model::spec_prevent_strength(
            map,
            o2,
            p2,
        ),
{
    reveal(crate::model::spec_prevent_strength);

    assert(o2[id].action == o1[id].action);
    lemma_move_at_cong(o1, o2, id, p2, 0);
    crate::model::lemma_move_at_index_props(o1, p2);
    let mi = move_at_index(o1, p2);
    assert(mi != id);
    assert(o1[mi] == o2[mi]);
    let m = o1[mi];
    let dest2 = m.action->Move_to.name@;
    if m.action->Move_convoyed {
        lemma_convoy_path_cong(map, o1, o2, id, p2, dest2);
    }
    lemma_move_between_cong(o1, o2, id, dest2, p2, 0);
    lemma_move_between_props_from(o1, dest2, p2, 0);
    let hi = crate::model::move_between_index(o1, dest2, p2);
    if hi < o1.len() {
        assert(crate::model::is_move_between(o1[hi], dest2, p2));
        assert(hi != id) by {
            assert(o1[id].action->Move_to.name@ != p2);
        }
        assert(o1[hi] == o2[hi]);
    }
    lemma_count_sm_cong(o1, o2, id, p2, dest2, o1.len() as int);
}

proof fn lemma_head_to_head_has_move(orders: Seq<Order>, p: Seq<char>, dest: Seq<char>)
    requires
        crate::model::exists_head_to_head(orders, p, dest),
    ensures
        has_move_at(orders, dest),
{
    let i = choose|i: int|
        0 <= i < orders.len() && (#[trigger] orders[i].action matches Action::Move {
            to,
            convoyed,
        } && to.name@ == p
            && !convoyed) && orders[i].province.name@ == dest;
    assert(crate::model::is_move_at(orders[i], dest));
    crate::model::lemma_has_move_at(orders, dest, i);
}

/// Guess independence: the adjudication equation for an order never reads
/// that order's own stored success value.  Two arenas that agree on
/// everything except order `id`'s resolution bookkeeping adjudicate `id`
/// identically — this is what lets the engine probe an order under a trial
/// guess of failure and of success and trust any agreement between the two,
/// and it needs only that no order moves a unit into its own province,
/// which admission guarantees.
#[verifier::spinoff_prover]
proof fn lemma_guess_independence_move(
    map: Seq<MapRegion>,
    o1: Seq<Order>,
    o2: Seq<Order>,
    id: int,
)
    requires
        agree_except(o1, o2, id),
        no_self_moves(o1),
        o1[id].action is Move,
    ensures
        spec_adjudicate(map, o1, id) == spec_adjudicate(map, o2, id),
{
    let a = o1[id];
    assert(o2[id].action == a.action && o2[id].province == a.province && o2[id].owner == a.owner);
    let p = a.province.name@;
    let dest = a.action->Move_to.name@;
    assert(dest != p);
    lemma_attack_cong(map, o1, o2, id, p);
    lemma_h2h_cong(o1, o2, id, p, dest);
    if crate::model::exists_head_to_head(o1, p, dest) {
        lemma_head_to_head_has_move(o1, p, dest);
        lemma_defend_cong(map, o1, o2, id, dest);
    } else {
        assert(!crate::model::is_move_at(o1[id], dest));
        lemma_hold_cong(map, o1, o2, id, dest);
    }
    lemma_contesting_cong(map, o1, o2, id, p, dest);
    lemma_move_assemble(map, o1, o2, id, p, dest);
}

proof fn lemma_h2h_cong(o1: Seq<Order>, o2: Seq<Order>, id: int, p: Seq<char>, dest: Seq<char>)
    requires
        agree_except(o1, o2, id),
    ensures
        crate::model::exists_head_to_head(o1, p, dest) == crate::model::exists_head_to_head(
            o2,
            p,
            dest,
        ),
{
    assert(o2[id].action == o1[id].action && o2[id].province == o1[id].province);
    if crate::model::exists_head_to_head(o1, p, dest) {
        let i = choose|i: int|
            0 <= i < o1.len() && (#[trigger] o1[i].action matches Action::Move {
                to,
                convoyed,
            } && to.name@ == p
                && !convoyed) && o1[i].province.name@ == dest;
        assert(o2[i].action == o1[i].action && o2[i].province == o1[i].province);
    }
    if crate::model::exists_head_to_head(o2, p, dest) {
        let i = choose|i: int|
            0 <= i < o2.len() && (#[trigger] o2[i].action matches Action::Move {
                to,
                convoyed,
            } && to.name@ == p
                && !convoyed) && o2[i].province.name@ == dest;
        assert(o1[i].action == o2[i].action && o1[i].province == o2[i].province);
    }
}

#[verifier::spinoff_prover]
proof fn lemma_move_assemble(
    map: Seq<MapRegion>,
    o1: Seq<Order>,
    o2: Seq<Order>,
    id: int,
    p: Seq<char>,
    dest: Seq<char>,
)
    requires
        o1.len() == o2.len(),
        0 <= id < o1.len(),
        o1[id].action is Move,
        o2[id].action == o1[id].action,
        o2[id].province == o1[id].province,
        o1[id].province.name@ == p,
        o1[id].action->Move_to.name@ == dest,
        spec_attack_strength(map, o1, p) == spec_attack_strength(map, o2, p),
        crate::model::exists_head_to_head(o1, p, dest) == crate::model::exists_head_to_head(
            o2,
            p,
            dest,
        ),
        crate::model::exists_head_to_head(o1, p, dest)
            ==> crate::model::spec_defend_strength(map, o1, dest)
            == crate::model::spec_defend_strength(map, o2, dest),
        !crate::model::exists_head_to_head(o1, p, dest)
            ==> crate::model::spec_hold_strength(map, o1, dest)
            == crate::model::spec_hold_strength(map, o2, dest),
        (forall|i: int|
            0 <= i < o1.len() && crate::model::is_contesting(#[trigger] o1[i], dest, p)
                ==> spec_attack_strength(map, o1, p) > crate::model::spec_prevent_strength(
                map,
                o1,
                o1[i].province.name@,
            )) == (forall|i: int|
            0 <= i < o2.len() && crate::model::is_contesting(#[trigger] o2[i], dest, p)
                ==> spec_attack_strength(map, o2, p) > crate::model::spec_prevent_strength(
                map,
                o2,
                o2[i].province.name@,
            )),
    ensures
        spec_adjudicate(map, o1, id) == spec_adjudicate(map, o2, id),
{
    reveal(crate::model::spec_attack_strength);
    reveal(crate::model::spec_prevent_strength);

}

#[verifier::spinoff_prover]
#[verifier::rlimit(60)]
proof fn lemma_contesting_cong(
    map: Seq<MapRegion>,
    o1: Seq<Order>,
    o2: Seq<Order>,
    id: int,
    p: Seq<char>,
    dest: Seq<char>,
)
    requires
        agree_except(o1, o2, id),
        no_self_moves(o1),
        o1[id].action is Move,
        o1[id].province.name@ == p,
        o1[id].action->Move_to.name@ == dest,
    ensures
        (forall|i: int|
            0 <= i < o1.len() && crate::model::is_contesting(#[trigger] o1[i], dest, p)
                ==> spec_attack_strength(map, o1, p) > crate::model::spec_prevent_strength(
                map,
                o1,
                o1[i].province.name@,
            )) == (forall|i: int|
            0 <= i < o2.len() && crate::model::is_contesting(#[trigger] o2[i], dest, p)
                ==> spec_attack_strength(map, o2, p) > crate::model::spec_prevent_strength(
                map,
                o2,
                o2[i].province.name@,
            )),
{
    reveal(crate::model::spec_attack_strength);
    reveal(crate::model::spec_prevent_strength);

    lemma_attack_cong(map, o1, o2, id, p);
    let atk = spec_attack_strength(map, o1, p);
    assert forall|i: int| 0 <= i < o1.len() implies (crate::model::is_contesting(
        #[trigger] o1[i],
        dest,
        p,
    ) == crate::model::is_contesting(o2[i], dest, p)) && (crate::model::is_contesting(
        o1[i],
        dest,
        p,
    ) ==> crate::model::spec_prevent_strength(map, o1, o1[i].province.name@)
        == crate::model::spec_prevent_strength(map, o2, o2[i].province.name@)) by {
        if i == id {
            assert(o1[i].action == o2[i].action && o1[i].province == o2[i].province);
        } else {
            assert(o1[i] == o2[i]);
        }
        if crate::model::is_contesting(o1[i], dest, p) {
            let p2 = o1[i].province.name@;
            assert(p2 != p);
            assert(p2 != dest) by {
                assert(o1[i].action matches Action::Move { to: t2, .. } ==> t2.name@
                    != o1[i].province.name@);
            }
            assert(crate::model::is_move_at(o1[i], p2));
            crate::model::lemma_has_move_at(o1, p2, i);
            lemma_prevent_cong(map, o1, o2, id, p2);
        }
    }
    let all1 = forall|i: int|
        0 <= i < o1.len() && crate::model::is_contesting(#[trigger] o1[i], dest, p) ==> atk
            > crate::model::spec_prevent_strength(map, o1, o1[i].province.name@);
    let all2 = forall|i: int|
        0 <= i < o2.len() && crate::model::is_contesting(#[trigger] o2[i], dest, p)
            ==> spec_attack_strength(map, o2, p) > crate::model::spec_prevent_strength(
            map,
            o2,
            o2[i].province.name@,
        );
    assert(all1 == all2) by {
        if all1 {
            assert forall|i: int|
                0 <= i < o2.len() && crate::model::is_contesting(
                    #[trigger] o2[i],
                    dest,
                    p,
                ) implies spec_attack_strength(map, o2, p)
                > crate::model::spec_prevent_strength(map, o2, o2[i].province.name@) by {
                assert(crate::model::is_contesting(o1[i], dest, p));
                assert(atk > crate::model::spec_prevent_strength(map, o1, o1[i].province.name@));
            }
        }
        if all2 {
            assert forall|i: int|
                0 <= i < o1.len() && crate::model::is_contesting(
                    #[trigger] o1[i],
                    dest,
                    p,
                ) implies atk > crate::model::spec_prevent_strength(
                map,
                o1,
                o1[i].province.name@,
            ) by {
                assert(crate::model::is_contesting(o2[i], dest, p));
                assert(spec_attack_strength(map, o2, p) > crate::model::spec_prevent_strength(
                    map,
                    o2,
                    o2[i].province.name@,
                ));
            }
        }
    }
}

/// Guess independence: the adjudication equation for an order never reads
/// that order's own stored success value.  Two arenas that agree on
/// everything except order `id`'s resolution bookkeeping adjudicate `id`
/// identically — this is what lets the engine probe an order under a trial
/// guess of failure and of success and trust any agreement between the two,
/// and it needs only that no order moves a unit into its own province,
/// which admission guarantees.
pub proof fn lemma_guess_independence(map: Seq<MapRegion>, o1: Seq<Order>, o2: Seq<Order>, id: int)
    requires
        agree_except(o1, o2, id),
        no_self_moves(o1),
    ensures
        spec_adjudicate(map, o1, id) == spec_adjudicate(map, o2, id),
{
    let a = o1[id];
    assert(o2[id].action == a.action && o2[id].province == a.province && o2[id].owner == a.owner);
    let p = a.province.name@;
    match a.action {
        Action::Hold => {
            assert(spec_adjudicate(map, o1, id));
            assert(spec_adjudicate(map, o2, id));
        },
        Action::Move { .. } => {
            lemma_guess_independence_move(map, o1, o2, id);
        },
        Action::SupportHold { to } => {
            lemma_cut_cong(
                map,
                o1,
                o2,
                id,
                p,
                to.name@,
                crate::model::spec_supported_power(map, to.name@),
            );
        },
        Action::SupportMove { from, to } => {
            lemma_cut_cong(
                map,
                o1,
                o2,
                id,
                p,
                to.name@,
                crate::model::spec_supported_power(map, from.name@),
            );
        },
        Action::Convoy { .. } => {
            assert((exists|i: int|
                0 <= i < o1.len() && is_move_to(#[trigger] o1[i], p) && o1[i].resolution) == (
            exists|i: int|
                0 <= i < o2.len() && is_move_to(#[trigger] o2[i], p) && o2[i].resolution)) by {
                if exists|i: int|
                    0 <= i < o1.len() && is_move_to(#[trigger] o1[i], p) && o1[i].resolution {
                    let i = choose|i: int|
                        0 <= i < o1.len() && is_move_to(#[trigger] o1[i], p) && o1[i].resolution;
                    assert(i != id);
                    assert(o2[i] == o1[i]);
                    assert(is_move_to(o2[i], p) && o2[i].resolution);
                }
                if exists|i: int|
                    0 <= i < o2.len() && is_move_to(#[trigger] o2[i], p) && o2[i].resolution {
                    let i = choose|i: int|
                        0 <= i < o2.len() && is_move_to(#[trigger] o2[i], p) && o2[i].resolution;
                    assert(i != id);
                    assert(o1[i] == o2[i]);
                    assert(is_move_to(o1[i], p) && o1[i].resolution);
                }
            }
        },
    }
}

/// The engine's trial pass plants a guess of failure on the order it is
/// about to adjudicate.  The planted guess is immaterial: adjudicating the
/// order against the planted arena gives the same verdict as against the
/// submitted orders, provided no order moves into its own province — which
/// admission guarantees of every order it accepts.
pub proof fn lemma_trial_guess_immaterial(map: Seq<MapRegion>, orders: Seq<Order>, id: int)
    requires
        0 <= id < orders.len(),
        no_self_moves(orders),
    ensures
        spec_adjudicate(map, crate::engine::guessed_orders(orders, id), id) == spec_adjudicate(
            map,
            orders,
            id,
        ),
{
    let g = crate::engine::guessed_orders(orders, id);
    assert(order_core_eq(g[id], orders[id]));
    assert(agree_except(g, orders, id));
    assert(no_self_moves(g)) by {
        assert forall|i: int|
            0 <= i < g.len() implies ((#[trigger] g[i].action) matches Action::Move { to, .. }
            ==> to.name@ != g[i].province.name@) by {
            if i != id {
                assert(g[i] == orders[i]);
            }
            assert(g[i].action == orders[i].action && g[i].province == orders[i].province);
        }
    }
    lemma_guess_independence(map, g, orders, id);
}

proof fn lemma_cut_cong(
    map: Seq<MapRegion>,
    o1: Seq<Order>,
    o2: Seq<Order>,
    id: int,
    at: Seq<char>,
    support_to: Seq<char>,
    supported: Option<crate::types::Power>,
)
    requires
        agree_except(o1, o2, id),
        o1[id].action is SupportHold || o1[id].action is SupportMove,
    ensures
        (exists|i: int|
            0 <= i < o1.len() && crate::model::is_cutting(
                map,
                o1,
                #[trigger] o1[i],
                at,
                support_to,
                supported,
            )) == (exists|i: int|
            0 <= i < o2.len() && crate::model::is_cutting(
                map,
                o2,
                #[trigger] o2[i],
                at,
                support_to,
                supported,
            )),
{
    assert(o2[id].action == o1[id].action);
    if exists|i: int|
        0 <= i < o1.len() && crate::model::is_cutting(
            map,
            o1,
            #[trigger] o1[i],
            at,
            support_to,
            supported,
        ) {
        let i = choose|i: int|
            0 <= i < o1.len() && crate::model::is_cutting(
                map,
                o1,
                #[trigger] o1[i],
                at,
                support_to,
                supported,
            );
        assert(i != id);
        assert(o2[i] == o1[i]);
        if o1[i].action->Move_convoyed {
            lemma_convoy_path_cong(map, o1, o2, id, o1[i].province.name@, at);
        }
        assert(crate::model::is_cutting(map, o2, o2[i], at, support_to, supported));
    }
    if exists|i: int|
        0 <= i < o2.len() && crate::model::is_cutting(
            map,
            o2,
            #[trigger] o2[i],
            at,
            support_to,
            supported,
        ) {
        let i = choose|i: int|
            0 <= i < o2.len() && crate::model::is_cutting(
                map,
                o2,
                #[trigger] o2[i],
                at,
                support_to,
                supported,
            );
        assert(i != id);
        assert(o1[i] == o2[i]);
        if o2[i].action->Move_convoyed {
            lemma_convoy_path_cong(map, o1, o2, id, o2[i].province.name@, at);
        }
        assert(crate::model::is_cutting(map, o1, o1[i], at, support_to, supported));
    }
}

proof fn lemma_vacating_props(orders: Seq<Order>, dest: Seq<char>, origin: Seq<char>)
    ensures
        0 <= vacating_index(orders, dest, origin) <= orders.len(),
        vacating_index(orders, dest, origin) < orders.len() ==> is_vacating(
            orders[vacating_index(orders, dest, origin)],
            dest,
            origin,
        ),
{
    lemma_vacating_props_from(orders, dest, origin, 0);
}

proof fn lemma_vacating_props_from(orders: Seq<Order>, dest: Seq<char>, origin: Seq<char>, i: int)
    requires
        0 <= i <= orders.len(),
    ensures
        i <= vacating_index_from(orders, dest, origin, i) <= orders.len(),
        vacating_index_from(orders, dest, origin, i) < orders.len() ==> is_vacating(
            orders[vacating_index_from(orders, dest, origin, i)],
            dest,
            origin,
        ),
    decreases orders.len() - i,
{
    if i < orders.len() && !is_vacating(orders[i], dest, origin) {
        lemma_vacating_props_from(orders, dest, origin, i + 1);
    }
}

} // verus!
