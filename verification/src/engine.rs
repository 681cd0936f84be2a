//! The resolution engine: the guess/verify/backtrack search for a
//! consistent assignment of success values, the strength calculators it
//! leans on, the convoy path finder, and the backup rule for paradoxes.

use vstd::prelude::*;

use crate::board::Stpsyr;
use crate::board::order_core_eq;
use crate::types::Action;
use crate::types::EngineError;
use crate::types::Order;
use crate::types::Province;
use crate::types::OrderState;
use crate::types::Power;

verus! {

/// The order `o` with its resolution state replaced.
pub open spec fn order_with_state(o: Order, st: OrderState) -> Order {
    Order {
        owner: o.owner,
        province: o.province,
        action: o.action,
        resolution: o.resolution,
        state: st,
        id: o.id,
    }
}

/// The order `o` fully resolved to the success value `b`.
pub open spec fn order_resolved(o: Order, b: bool) -> Order {
    Order {
        owner: o.owner,
        province: o.province,
        action: o.action,
        resolution: b,
        state: OrderState::Resolved,
        id: o.id,
    }
}

/// The order `o` with its candidate success value replaced.
pub open spec fn order_with_resolution(o: Order, b: bool) -> Order {
    Order {
        owner: o.owner,
        province: o.province,
        action: o.action,
        resolution: b,
        state: o.state,
        id: o.id,
    }
}

/// Whether `i` is named by the dependency stack `deps` at or after `from`.
pub open spec fn drained(deps: Seq<usize>, from: int, i: int) -> bool {
    exists|k: int| from <= k < deps.len() && (#[trigger] deps[k]) as int == i
}

/// The final state is the committed application of the resolution `rs`: an
/// assignment of verdicts to exactly the orders `pre` held, applied to
/// `pre`'s board, with `d` the full dislodged list reported.
pub open spec fn applied_with(
    pre: Stpsyr,
    post: Stpsyr,
    d: Seq<(Province, crate::types::Unit)>,
    rs: Seq<Order>,
) -> bool {
    &&& rs.len() == pre.orders@.len()
    &&& forall|i: int| 0 <= i < rs.len() ==> order_core_eq(#[trigger] rs[i], pre.orders@[i])
    &&& forall|i: int| 0 <= i < rs.len() ==> (#[trigger] rs[i]).state is Resolved
    &&& (crate::model::unique_regions(pre.map@) ==> forall|i: int|
        0 <= i < rs.len() ==> #[trigger] verdict_certified(pre.map@, rs, i))
    &&& ({
        let sa = crate::model::spec_apply_resolved(pre.map@, pre.phase, rs);
        &&& post.map@ == sa.0
        &&& post.dislodged@ == pre.dislodged@ + sa.1
        &&& d == post.dislodged@
    })
}

/// The committed verdict of order `i` obeys its adjudication equation, or
/// is a convoy forced to fail although the equation would let it stand —
/// the tie-break the backup rule applies to a convoy paradox.
pub open spec fn verdict_certified(
    map: Seq<crate::types::MapRegion>,
    rs: Seq<Order>,
    i: int,
) -> bool {
    ||| rs[i].resolution == crate::model::spec_adjudicate(map, rs, i)
    ||| (rs[i].action is Convoy && !rs[i].resolution && crate::model::spec_adjudicate(map, rs, i))
}

/// On a board without duplicate names, an arena whose every order is
/// finally Resolved settles every input of every adjudication equation.
proof fn lemma_all_resolved_settles(
    map: Seq<crate::types::MapRegion>,
    orders: Seq<Order>,
    id: int,
)
    requires
        0 <= id < orders.len(),
        crate::model::unique_regions(map),
        forall|i: int| 0 <= i < orders.len() ==> (#[trigger] orders[i].state) is Resolved,
    ensures
        adjudicate_inputs_resolved(map, orders, id),
{
    let o = orders[id];
    let p = o.province.name@;
    match o.action {
        Action::Hold => {},
        Action::Move { to, .. } => {
            let dest0 = to.name@;
            assert(attack_inputs_resolved(map, orders, p)) by {
                if crate::model::has_move_at(orders, p) {
                    crate::model::lemma_move_at_index_props(orders, p);
                    let m = orders[crate::model::move_at_index(orders, p)];
                    crate::model::lemma_vacating_index_bounds(
                        orders,
                        m.action->Move_to.name@,
                        p,
                    );
                }
            }
            if !crate::model::exists_head_to_head(orders, p, dest0) {
                assert(hold_inputs_resolved(orders, dest0)) by {
                    if crate::model::has_move_at(orders, dest0) {
                        crate::model::lemma_move_at_index_props(orders, dest0);
                    }
                }
            }
            assert forall|i: int|
                0 <= i < orders.len() && crate::model::is_contesting(
                    #[trigger] orders[i],
                    dest0,
                    p,
                ) implies prevent_inputs_resolved(map, orders, orders[i].province.name@) by {
                let p2 = orders[i].province.name@;
                if crate::model::has_move_at(orders, p2) {
                    crate::model::lemma_move_at_index_props(orders, p2);
                    let m2 = orders[crate::model::move_at_index(orders, p2)];
                    crate::model::lemma_move_between_index_bounds(
                        orders,
                        m2.action->Move_to.name@,
                        p2,
                    );
                }
            }
        },
        Action::SupportHold { .. } => {},
        Action::SupportMove { .. } => {},
        Action::Convoy { .. } => {},
    }
}

/// What one engine call may do to the state: the board and phase
/// bookkeeping stay, every order keeps its identity, the dependency stack is
/// only pushed to or cut back to where this call found it, and
/// well-formedness is preserved.
pub open spec fn engine_step(pre: Stpsyr, post: Stpsyr) -> bool {
    &&& pre.same_board(post)
    &&& pre.same_orders_core(post)
    &&& pre.deps_extended(post)
    &&& post.wf()
}

/// `engine_step` holds from a state to itself.
pub proof fn lemma_engine_step_refl(s: Stpsyr)
    requires
        s.wf(),
    ensures
        engine_step(s, s),
{
    assert(s.dependencies@.subrange(0, s.dependencies@.len() as int) =~= s.dependencies@);
}

/// Every order the hold-strength equation for `p` consults is already
/// settled — the move out of `p` (if any) and every support of holding
/// `p`.
pub open spec fn hold_inputs_resolved(orders: Seq<Order>, p: Seq<char>) -> bool {
    &&& (crate::model::has_move_at(orders, p) ==> orders[crate::model::move_at_index(
        orders,
        p,
    )].state is Resolved)
    &&& forall|i: int|
        0 <= i < orders.len() && ((#[trigger] orders[i].action)
            matches Action::SupportHold { to } && to.name@ == p) ==> orders[i].state
            is Resolved
}

/// Every support of the move out of `p` already carries a final verdict.
pub open spec fn defend_inputs_resolved(orders: Seq<Order>, p: Seq<char>) -> bool {
    crate::model::has_move_at(orders, p) ==> {
        let dest = orders[crate::model::move_at_index(orders, p)].action->Move_to.name@;
        forall|i: int|
            0 <= i < orders.len() && ((#[trigger] orders[i].action)
                matches Action::SupportMove { from, to } && from.name@ == p && to.name@ == dest)
                ==> orders[i].state is Resolved
    }
}

/// Every order the attack-strength equation for the move at `p` consults is
/// already settled — the vacating move at the destination (if any), every
/// support of the move, and, for a convoyed move, its convoy orders (on a
/// board without duplicate names, so route search is exhaustive).
pub open spec fn attack_inputs_resolved(
    map: Seq<crate::types::MapRegion>,
    orders: Seq<Order>,
    p: Seq<char>,
) -> bool {
    crate::model::has_move_at(orders, p) ==> {
        let m = orders[crate::model::move_at_index(orders, p)];
        let dest = m.action->Move_to.name@;
        &&& (m.action->Move_convoyed ==> convoys_resolved(orders, p, dest)
            && crate::model::unique_regions(map))
        &&& (crate::model::vacating_index(orders, dest, p) < orders.len() ==> orders[
            crate::model::vacating_index(orders, dest, p)
        ].state is Resolved)
        &&& forall|i: int|
            0 <= i < orders.len() && ((#[trigger] orders[i].action)
                matches Action::SupportMove { from, to } && from.name@ == p && to.name@ == dest)
                ==> orders[i].state is Resolved
    }
}

/// Every order the prevent-strength equation for the move at `p` consults
/// is already settled — the head-to-head move out of the destination (if
/// any), every support of the move, and, for a convoyed move, its convoy
/// orders (on a board without duplicate names).
pub open spec fn prevent_inputs_resolved(
    map: Seq<crate::types::MapRegion>,
    orders: Seq<Order>,
    p: Seq<char>,
) -> bool {
    crate::model::has_move_at(orders, p) ==> {
        let m = orders[crate::model::move_at_index(orders, p)];
        let dest = m.action->Move_to.name@;
        &&& (m.action->Move_convoyed ==> convoys_resolved(orders, p, dest)
            && crate::model::unique_regions(map))
        &&& (crate::model::move_between_index(orders, dest, p) < orders.len() ==> orders[
            crate::model::move_between_index(orders, dest, p)
        ].state is Resolved)
        &&& forall|i: int|
            0 <= i < orders.len() && ((#[trigger] orders[i].action)
                matches Action::SupportMove { from, to } && from.name@ == p && to.name@ == dest)
                ==> orders[i].state is Resolved
    }
}

/// The order arena as the engine's trial pass sees it: order `id` carries
/// a planted guess of failure and stands in the Guessing state.
pub open spec fn guessed_orders(orders: Seq<Order>, id: int) -> Seq<Order> {
    orders.update(
        id,
        order_with_state(order_with_resolution(orders[id], false), OrderState::Guessing),
    )
}

/// Whether `ix` is a legal next link after the route `base`: open water
/// (fleet- but not army-reachable from the route's end) and not a name the
/// route already visits.
pub open spec fn step_from_last(
    map: Seq<crate::types::MapRegion>,
    base: Seq<usize>,
    ix: int,
) -> bool {
    &&& crate::model::prov_list_contains(
        map[base[base.len() - 1] as int].fleet_borders@,
        map[ix].province.name@,
    )
    &&& !crate::model::prov_list_contains(
        map[base[base.len() - 1] as int].army_borders@,
        map[ix].province.name@,
    )
    &&& forall|j: int|
        0 <= j < base.len() ==> map[#[trigger] base[j] as int].province.name@
            != map[ix].province.name@
}

/// Every carrying fleet of the route has a successful convoy order for this
/// exact crossing (a one-region route carries nothing and qualifies
/// vacuously).
pub open spec fn path_all_convoyed(
    map: Seq<crate::types::MapRegion>,
    orders: Seq<Order>,
    q: Seq<usize>,
    origin: Seq<char>,
    dest: Seq<char>,
) -> bool {
    forall|t: int|
        1 <= t < q.len() ==> exists|j: int|
            0 <= j < orders.len() && crate::model::is_succ_convoy(
                #[trigger] orders[j],
                map[#[trigger] q[t] as int].province.name@,
                origin,
                dest,
            )
}

/// Index of the first link of the chain `q` whose region can reach `dest`
/// over a fleet border, or `q.len()`.
pub open spec fn first_reach_at(
    map: Seq<crate::types::MapRegion>,
    q: Seq<int>,
    dest: Seq<char>,
    i: int,
) -> int
    decreases q.len() - i,
{
    if i < 0 || i >= q.len() {
        q.len() as int
    } else if crate::model::prov_list_contains(map[q[i]].fleet_borders@, dest) {
        i
    } else {
        first_reach_at(map, q, dest, i + 1)
    }
}

proof fn lemma_first_reach_props(
    map: Seq<crate::types::MapRegion>,
    q: Seq<int>,
    dest: Seq<char>,
    i: int,
)
    requires
        0 <= i <= q.len(),
    ensures
        i <= first_reach_at(map, q, dest, i) <= q.len(),
        first_reach_at(map, q, dest, i) < q.len() ==> crate::model::prov_list_contains(
            map[q[first_reach_at(map, q, dest, i)]].fleet_borders@,
            dest,
        ),
        forall|j: int|
            i <= j < first_reach_at(map, q, dest, i) ==> !crate::model::prov_list_contains(
                map[#[trigger] q[j]].fleet_borders@,
                dest,
            ),
    decreases q.len() - i,
{
    if i < q.len() && !crate::model::prov_list_contains(map[q[i]].fleet_borders@, dest) {
        lemma_first_reach_props(map, q, dest, i + 1);
    }
}

/// A sequence of pairwise distinct integers drawn from `[0, n)` has at most
/// `n` elements.
proof fn lemma_distinct_in_range(q: Seq<int>, n: int)
    requires
        q.no_duplicates(),
        forall|k: int| 0 <= k < q.len() ==> 0 <= #[trigger] q[k] < n,
        0 <= n,
    ensures
        q.len() <= n,
{
    q.unique_seq_to_set();
    assert(q.to_set().subset_of(vstd::set_lib::set_int_range(0, n))) by {
        assert forall|x: int| q.to_set().contains(x) implies vstd::set_lib::set_int_range(
            0,
            n,
        ).contains(x) by {
            assert(q.contains(x));
            let k = choose|k: int| 0 <= k < q.len() && q[k] == x;
            assert(0 <= q[k] < n);
        }
    }
    vstd::set_lib::lemma_int_range(0, n);
    vstd::set_lib::lemma_len_subset(q.to_set(), vstd::set_lib::set_int_range(0, n));
}

/// Every convoy order for exactly this origin/destination pair already
/// carries a final verdict.
pub open spec fn convoys_resolved(orders: Seq<Order>, origin: Seq<char>, dest: Seq<char>) -> bool {
    forall|i: int|
        0 <= i < orders.len() && ((#[trigger] orders[i].action) matches Action::Convoy {
            from,
            to,
        } && from.name@ == origin && to.name@ == dest) ==> orders[i].state is Resolved
}

/// What a returned convoy route means: its provinces spell out a water
/// chain of board regions from the origin to within reach of the
/// destination, and every carrying fleet on it (each link but the first)
/// has a convoy order for exactly this crossing that resolved successfully.
pub open spec fn route_valid(
    map: Seq<crate::types::MapRegion>,
    orders: Seq<Order>,
    route: Seq<Province>,
    origin: Seq<char>,
    dest: Seq<char>,
) -> bool {
    &&& route.len() >= 1
    &&& exists|q: Seq<int>|
        crate::model::is_water_chain(map, q, origin, dest) && q.len() == route.len() && (forall|
            t: int,
        |
            0 <= t < q.len() ==> route[t] == map[#[trigger] q[t]].province)
    &&& forall|t: int|
        1 <= t < route.len() ==> exists|j: int|
            0 <= j < orders.len() && crate::model::is_succ_convoy(
                #[trigger] orders[j],
                (#[trigger] route[t]).name@,
                origin,
                dest,
            )
}

/// The contest half of a move's adjudication: the move at `id`'s province
/// out-muscles every third party ordered into the same destination.
pub open spec fn contest_ok(map: Seq<crate::types::MapRegion>, orders: Seq<Order>, id: int) -> bool {
    let p = orders[id].province.name@;
    let dest = orders[id].action->Move_to.name@;
    forall|i: int|
        0 <= i < orders.len() && crate::model::is_contesting(#[trigger] orders[i], dest, p)
            ==> crate::model::spec_attack_strength(map, orders, p)
            > crate::model::spec_prevent_strength(map, orders, orders[i].province.name@)
}

/// Every potential cutter of a support at `p` is ready to judge: a
/// convoyed attacker's convoy orders are settled (on a board without
/// duplicate names, so its route search is exhaustive).
pub open spec fn support_attackers_settled(
    map: Seq<crate::types::MapRegion>,
    orders: Seq<Order>,
    p: Seq<char>,
) -> bool {
    forall|i: int|
        0 <= i < orders.len() && crate::model::is_move_to(#[trigger] orders[i], p) ==> (
        orders[i].action->Move_convoyed ==> convoys_resolved(
            orders,
            orders[i].province.name@,
            p,
        ) && crate::model::unique_regions(map))
}

/// Every order the adjudication equation for `id` consults already carries
/// a final verdict, and no convoy route needs to be searched: under this
/// hypothesis the executable adjudication returns exactly the model's
/// verdict.
pub open spec fn adjudicate_inputs_resolved(
    map: Seq<crate::types::MapRegion>,
    orders: Seq<Order>,
    id: int,
) -> bool {
    let o = orders[id];
    let p = o.province.name@;
    match o.action {
        Action::Hold => true,
        Action::Move { to, .. } => {
            let dest = to.name@;
            &&& attack_inputs_resolved(map, orders, p)
            &&& (crate::model::exists_head_to_head(orders, p, dest)
                ==> defend_inputs_resolved(orders, dest))
            &&& (!crate::model::exists_head_to_head(orders, p, dest)
                ==> hold_inputs_resolved(orders, dest))
            &&& forall|i: int|
                0 <= i < orders.len() && crate::model::is_contesting(
                    #[trigger] orders[i],
                    dest,
                    p,
                ) ==> prevent_inputs_resolved(map, orders, orders[i].province.name@)
        },
        Action::SupportHold { .. } => support_attackers_settled(map, orders, p),
        Action::SupportMove { .. } => support_attackers_settled(map, orders, p),
        Action::Convoy { .. } => forall|i: int|
            0 <= i < orders.len() && crate::model::is_move_to(#[trigger] orders[i], p)
                ==> orders[i].state is Resolved,
    }
}

/// `engine_step` composes.
pub proof fn lemma_engine_step_trans(a: Stpsyr, b: Stpsyr, c: Stpsyr)
    requires
        engine_step(a, b),
        engine_step(b, c),
    ensures
        engine_step(a, c),
{
    assert forall|i: int| 0 <= i < a.orders@.len() implies order_core_eq(
        #[trigger] a.orders@[i],
        c.orders@[i],
    ) by {
        assert(order_core_eq(a.orders@[i], b.orders@[i]));
        assert(order_core_eq(b.orders@[i], c.orders@[i]));
    }
    assert(c.dependencies@.subrange(0, a.dependencies@.len() as int) =~= a.dependencies@) by {
        let la = a.dependencies@.len() as int;
        let lb = b.dependencies@.len() as int;
        assert(c.dependencies@.subrange(0, lb) == b.dependencies@);
        assert forall|k: int| 0 <= k < la implies c.dependencies@.subrange(0, la)[k]
            == a.dependencies@[k] by {
            assert(c.dependencies@.subrange(0, lb)[k] == b.dependencies@[k]);
            assert(b.dependencies@.subrange(0, la)[k] == a.dependencies@[k]);
        }
    }
}

/// One link of a convoy route: `q[k]` is fleet-reachable but not
/// army-reachable from `q[k - 1]` (open water), and repeats no earlier
/// region of the route.
pub open spec fn water_step(map: Seq<crate::types::MapRegion>, q: Seq<usize>, k: int) -> bool {
    &&& crate::model::prov_list_contains(
        map[q[k - 1] as int].fleet_borders@,
        map[q[k] as int].province.name@,
    )
    &&& !crate::model::prov_list_contains(
        map[q[k - 1] as int].army_borders@,
        map[q[k] as int].province.name@,
    )
    &&& forall|j: int|
        0 <= j < k ==> map[#[trigger] q[j] as int].province.name@
            != map[q[k] as int].province.name@
}

/// What the path search returns: every found route extends the search's
/// starting chain through open water and ends within reach of the target.
pub open spec fn path_extension(
    map: Seq<crate::types::MapRegion>,
    base: Seq<usize>,
    q: Seq<usize>,
    target: Seq<char>,
) -> bool {
    &&& q.len() >= base.len() >= 1
    &&& q.subrange(0, base.len() as int) == base
    &&& forall|k: int| 0 <= k < q.len() ==> (#[trigger] q[k]) < map.len()
    &&& forall|k: int| base.len() <= k < q.len() ==> water_step(map, q, k)
    &&& crate::model::prov_list_contains(map[q[q.len() - 1] as int].fleet_borders@, target)
}

/// A route that extends `base` and stops at the first region within reach
/// of the target: a valid extension none of whose links before the last
/// could already reach the target.  These are exactly the routes the
/// depth-first search enumerates.
pub open spec fn min_route_extension(
    map: Seq<crate::types::MapRegion>,
    base: Seq<usize>,
    q: Seq<usize>,
    target: Seq<char>,
) -> bool {
    &&& path_extension(map, base, q, target)
    &&& forall|k: int|
        base.len() - 1 <= k < q.len() - 1 ==> !crate::model::prov_list_contains(
            map[#[trigger] q[k] as int].fleet_borders@,
            target,
        )
}

/// Copies a route of region positions.
fn copy_path(path: &Vec<usize>) -> (r: Vec<usize>)
    ensures
        r@ == path@,
{
    let mut r: Vec<usize> = Vec::new();
    let n = path.len();
    let mut k: usize = 0;
    while k < n
        invariant
            n == path@.len(),
            k <= n,
            r@ == path@.subrange(0, k as int),
        decreases n - k,
    {
        r.push(path[k]);
        proof {
            assert(r@ =~= path@.subrange(0, k + 1));
        }
        k = k + 1;
    }
    proof {
        assert(path@.subrange(0, n as int) =~= path@);
    }
    r
}

impl Stpsyr {
    /// Writes an order's candidate success value.
    fn set_resolution(&mut self, id: usize, b: bool)
        requires
            old(self).wf(),
            id < old(self).orders@.len(),
        ensures
            engine_step(*old(self), *final(self)),
            final(self).orders@ == old(self).orders@.update(
                id as int,
                order_with_resolution(old(self).orders@[id as int], b),
            ),
            final(self).dependencies == old(self).dependencies,
            old(self).same_board(*final(self)),
    {
        self.orders[id].resolution = b;
        proof {
            assert(self.orders@ =~= old(self).orders@.update(
                id as int,
                order_with_resolution(old(self).orders@[id as int], b),
            ));
            lemma_engine_step_refl(*old(self));
            assert(engine_step(*old(self), *self));
        }
    }

    /// Writes an order's resolution state.
    fn set_state(&mut self, id: usize, st: OrderState)
        requires
            old(self).wf(),
            id < old(self).orders@.len(),
        ensures
            engine_step(*old(self), *final(self)),
            final(self).orders@ == old(self).orders@.update(
                id as int,
                order_with_state(old(self).orders@[id as int], st),
            ),
            final(self).dependencies == old(self).dependencies,
            old(self).same_board(*final(self)),
    {
        self.orders[id].state = st;
        proof {
            assert(self.orders@ =~= old(self).orders@.update(
                id as int,
                order_with_state(old(self).orders@[id as int], st),
            ));
            lemma_engine_step_refl(*old(self));
            assert(engine_step(*old(self), *self));
        }
    }

    /// Whether the dependency stack already names this order.
    fn deps_contains(&self, id: usize) -> (r: bool)
        ensures
            r == self.dependencies@.contains(id),
    {
        let n = self.dependencies.len();
        let mut i: usize = 0;
        while i < n
            invariant
                n == self.dependencies@.len(),
                i <= n,
                forall|j: int| 0 <= j < i ==> (#[trigger] self.dependencies@[j]) != id,
            decreases n - i,
        {
            if self.dependencies[i] == id {
                return true;
            }
            i = i + 1;
        }
        proof {
            assert(!self.dependencies@.contains(id));
        }
        false
    }

    /// The re-entrant resolution procedure.  A Resolved order just reports
    /// its stored value; a Guessing order is a cycle re-entry and reports
    /// its current guess after recording itself on the dependency stack; an
    /// Unresolved order is adjudicated under a guess of failure, then, if
    /// its own guess turned out to matter, under a guess of success, and
    /// committed when the two agree; when they disagree the backup rule
    /// settles the implicated cycle and resolution starts over.
    fn resolve(&mut self, id: usize, fuel: u64) -> (r: Result<bool, EngineError>)
        requires
            old(self).wf(),
            id < old(self).orders@.len(),
        ensures
            engine_step(*old(self), *final(self)),
            old(self).orders@[id as int].state is Resolved ==> *final(self) == *old(self) && r
                == Ok::<bool, EngineError>(old(self).orders@[id as int].resolution),
            (old(self).orders@[id as int].state is Unresolved && adjudicate_inputs_resolved(
                old(self).map@,
                guessed_orders(old(self).orders@, id as int),
                id as int,
            )) ==> (r matches Ok(b) ==> ({
                let g = guessed_orders(old(self).orders@, id as int);
                &&& b == crate::model::spec_adjudicate(old(self).map@, g, id as int)
                &&& final(self).orders@ == old(self).orders@.update(
                    id as int,
                    order_resolved(old(self).orders@[id as int], b),
                )
                &&& final(self).dependencies@ == old(self).dependencies@
                &&& old(self).same_board(*final(self))
            })),
            (old(self).orders@[id as int].state is Unresolved && adjudicate_inputs_resolved(
                old(self).map@,
                guessed_orders(old(self).orders@, id as int),
                id as int,
            ) && fuel >= 4) ==> r is Ok,
            old(self).orders@[id as int].state is Guessing ==> ({
                &&& r == Ok::<bool, EngineError>(old(self).orders@[id as int].resolution)
                &&& final(self).orders == old(self).orders
                &&& old(self).same_board(*final(self))
                &&& final(self).dependencies@ == (if old(self).dependencies@.contains(id) {
                    old(self).dependencies@
                } else {
                    old(self).dependencies@.push(id)
                })
            }),
            r matches Ok(b) ==> (final(self).orders@[id as int].state is Resolved
                || final(self).orders@[id as int].resolution == b),
        decreases fuel, 3int,
    {
        proof {
            lemma_engine_step_refl(*self);
        }
        let st = self.orders[id].state;
        match st {
            OrderState::Resolved => Ok(self.orders[id].resolution),
            OrderState::Guessing => {
                // A cycle re-entry: note the dependency, report the guess.
                if !self.deps_contains(id) {
                    self.dependencies.push(id);
                    proof {
                        assert(self.dependencies@.subrange(
                            0,
                            old(self).dependencies@.len() as int,
                        ) =~= old(self).dependencies@);
                    }
                }
                Ok(self.orders[id].resolution)
            },
            OrderState::Unresolved => {
                if fuel == 0 {
                    return Err(EngineError::DepthLimit);
                }
                let ghost fresh = adjudicate_inputs_resolved(
                    old(self).map@,
                    guessed_orders(old(self).orders@, id as int),
                    id as int,
                );
                let old_dep_count = self.dependencies.len();

                // First guess: failure.
                self.set_resolution(id, false);
                self.set_state(id, OrderState::Guessing);
                proof {
                    assert(self.orders@ =~= guessed_orders(old(self).orders@, id as int));
                }
                let ghost s1 = *self;
                let first_result = match self.adjudicate(id, fuel - 1) {
                    Ok(b) => b,
                    Err(e) => {
                        proof {
                            lemma_engine_step_trans(*old(self), s1, *self);
                        }
                        return Err(e);
                    },
                };
                proof {
                    lemma_engine_step_trans(*old(self), s1, *self);
                }

                if self.dependencies.len() == old_dep_count {
                    // No new dependency: the result stands on its own.  A
                    // deeper call may already have committed this order as a
                    // side effect; its stored value then stays.
                    let already = match self.orders[id].state {
                        OrderState::Resolved => true,
                        _ => false,
                    };
                    let ghost s2 = *self;
                    if !already {
                        self.set_resolution(id, first_result);
                        proof {
                            lemma_engine_step_trans(*old(self), s2, *self);
                        }
                    }
                    let ghost s3 = *self;
                    self.set_state(id, OrderState::Resolved);
                    proof {
                        lemma_engine_step_trans(*old(self), s3, *self);
                        if fresh {
                            assert(self.orders@ =~= old(self).orders@.update(
                                id as int,
                                order_resolved(old(self).orders@[id as int], first_result),
                            ));
                        }
                    }
                    return Ok(first_result);
                }

                if self.dependencies[old_dep_count] != id {
                    // The result leans on someone else's guess, not our own:
                    // record the dependency and pass the trial value on.
                    self.dependencies.push(id);
                    proof {
                        assert(self.dependencies@.subrange(
                            0,
                            old(self).dependencies@.len() as int,
                        ) =~= old(self).dependencies@);
                        assert(engine_step(*old(self), *self));
                    }
                    let ghost s2 = *self;
                    self.set_resolution(id, first_result);
                    proof {
                        lemma_engine_step_trans(*old(self), s2, *self);
                    }
                    return Ok(first_result);
                }

                // The cycle runs through this very order: try the other
                // guess on a clean slate.
                let ghost s4 = *self;
                self.reset_deps(old_dep_count);
                proof {
                    assert(self.dependencies@ =~= old(self).dependencies@) by {
                        assert(self.dependencies@ == s4.dependencies@.subrange(
                            0,
                            old_dep_count as int,
                        ));
                        assert(s4.dependencies@.subrange(0, old_dep_count as int)
                            =~= old(self).dependencies@);
                    }
                    assert(engine_step(*old(self), *self));
                }
                self.set_resolution(id, true);
                self.set_state(id, OrderState::Guessing);
                proof {
                    assert(engine_step(*old(self), *self));
                }
                let ghost s5 = *self;
                let second_result = match self.adjudicate(id, fuel - 1) {
                    Ok(b) => b,
                    Err(e) => {
                        proof {
                            lemma_engine_step_trans(*old(self), s5, *self);
                        }
                        return Err(e);
                    },
                };
                proof {
                    lemma_engine_step_trans(*old(self), s5, *self);
                }

                if first_result == second_result {
                    // Both guesses agree: the value is independent of the
                    // guess and can be committed.
                    let ghost s6 = *self;
                    self.reset_deps(old_dep_count);
                    proof {
                        assert(self.dependencies@ =~= old(self).dependencies@) by {
                            assert(self.dependencies@ == s6.dependencies@.subrange(
                                0,
                                old_dep_count as int,
                            ));
                            assert(s6.dependencies@.subrange(0, old_dep_count as int)
                                =~= old(self).dependencies@);
                        }
                        assert(engine_step(*old(self), *self));
                    }
                    let ghost s7 = *self;
                    self.set_resolution(id, first_result);
                    self.set_state(id, OrderState::Resolved);
                    proof {
                        lemma_engine_step_trans(*old(self), s7, *self);
                    }
                    return Ok(first_result);
                }

                // A genuine paradox: let the backup rule settle the cycle,
                // then start over.
                let ghost s8 = *self;
                match self.backup_rule(old_dep_count) {
                    Ok(u) => u,
                    Err(e) => {
                        proof {
                            lemma_engine_step_refl(s8);
                            lemma_engine_step_trans(*old(self), s8, *self);
                        }
                        return Err(e);
                    },
                };
                proof {
                    assert(self.dependencies@ =~= old(self).dependencies@) by {
                        assert(self.dependencies@ == s8.dependencies@.subrange(
                            0,
                            old_dep_count as int,
                        ));
                        assert(s8.dependencies@.subrange(0, old_dep_count as int)
                            =~= old(self).dependencies@);
                    }
                    assert forall|i: int| 0 <= i < old(self).orders@.len() implies order_core_eq(
                        #[trigger] old(self).orders@[i],
                        self.orders@[i],
                    ) by {
                        assert(order_core_eq(old(self).orders@[i], s8.orders@[i]));
                    }
                    assert(engine_step(*old(self), *self));
                }
                let ghost s9 = *self;
                let res = self.resolve(id, fuel - 1);
                proof {
                    lemma_engine_step_trans(*old(self), s9, *self);
                }
                res
            },
        }
    }

    /// Whether the order follows the combat equations, under the success
    /// values that resolution has reached so far.  A hold always succeeds; a
    /// move must beat the destination's counter strength and every
    /// contester's prevent strength; a support stands unless cut; a convoy
    /// stands unless dislodged.  Once every order the equation consults is
    /// settled, the verdict is exactly the model's `spec_adjudicate`.
    fn adjudicate(&mut self, id: usize, fuel: u64) -> (r: Result<bool, EngineError>)
        requires
            old(self).wf(),
            id < old(self).orders@.len(),
        ensures
            engine_step(*old(self), *final(self)),
            old(self).orders@[id as int].action is Hold && r is Ok ==> r == Ok::<
                bool,
                EngineError,
            >(true) && *final(self) == *old(self),
            adjudicate_inputs_resolved(old(self).map@, old(self).orders@, id as int) ==> *final(self) == *old(self) && (
            r matches Ok(b) ==> b == crate::model::spec_adjudicate(
                old(self).map@,
                old(self).orders@,
                id as int,
            )),
            adjudicate_inputs_resolved(old(self).map@, old(self).orders@, id as int) && fuel >= 3 ==> r is Ok,
        decreases fuel, 2int,
    {
        proof {
            lemma_engine_step_refl(*self);
        }
        if fuel == 0 {
            return Err(EngineError::DepthLimit);
        }
        let province = self.orders[id].province.clone();
        let action = self.orders[id].action.clone();
        match action {
            Action::Hold => {
                // A hold order never fails.
                Ok(true)
            },
            Action::Move { .. } => self.adjudicate_move(id, fuel),
            Action::SupportHold { to } => {
                let sp = to.clone();
                self.adjudicate_support(province, to, sp, fuel - 1)
            },
            Action::SupportMove { from, to } => self.adjudicate_support(
                province,
                to,
                from,
                fuel - 1,
            ),
            Action::Convoy { .. } => self.adjudicate_convoy(id, fuel),
        }
    }

    /// The move arm of the adjudication equation.
    #[verifier::spinoff_prover]
    #[verifier::rlimit(100)]
    fn adjudicate_move(&mut self, id: usize, fuel: u64) -> (r: Result<bool, EngineError>)
        requires
            old(self).wf(),
            id < old(self).orders@.len(),
            old(self).orders@[id as int].action is Move,
            fuel >= 1,
        ensures
            engine_step(*old(self), *final(self)),
            adjudicate_inputs_resolved(old(self).map@, old(self).orders@, id as int) ==> *final(self) == *old(self) && (
            r matches Ok(b) ==> b == crate::model::spec_adjudicate(
                old(self).map@,
                old(self).orders@,
                id as int,
            )),
            adjudicate_inputs_resolved(old(self).map@, old(self).orders@, id as int) && fuel >= 3 ==> r is Ok,
        decreases fuel, 1int,
    {
        proof {
            lemma_engine_step_refl(*self);
        }
        let ghost settled = adjudicate_inputs_resolved(old(self).map@, old(self).orders@, id as int);
        let province = self.orders[id].province.clone();
        let to = match &self.orders[id].action {
            Action::Move { to, .. } => to.clone(),
            _ => {
                proof {
                    assert(false);
                }
                province.clone()
            },
        };
        {
                proof {
                    assert(crate::model::is_move_at(self.orders@[id as int], province.name@));
                    crate::model::lemma_has_move_at(self.orders@, province.name@, id as int);
                }
                let ghost s1 = *self;
                let atk = match self.attack_strength(&province, fuel - 1) {
                    Ok(v) => v,
                    Err(e) => {
                        proof {
                            lemma_engine_step_trans(*old(self), s1, *self);
                            if settled && fuel >= 3 {
                                assert(attack_inputs_resolved(
                                    old(self).map@,
                                    old(self).orders@,
                                    province.name@,
                                ));
                                assert(false);
                            }
                        }
                        return Err(e);
                    },
                };
                proof {
                    lemma_engine_step_trans(*old(self), s1, *self);
                    if settled {
                        assert(attack_inputs_resolved(old(self).map@, old(self).orders@, province.name@));
                        assert(*self == *old(self));
                        assert(atk as int == crate::model::spec_attack_strength(
                            old(self).map@,
                            old(self).orders@,
                            province.name@,
                        ));
                    }
                }

                // Is this a head-to-head battle?  Only a non-convoyed move
                // back out of the destination makes one.
                let nord = self.orders.len();
                let mut h2h = false;
                let mut oi: usize = 0;
                while oi < nord
                    invariant
                        engine_step(*old(self), *self),
                        nord == self.orders@.len(),
                        oi <= nord,
                        h2h ==> crate::model::has_move_at(self.orders@, to.name@),
                        h2h == (exists|j: int|
                            0 <= j < oi && (#[trigger] self.orders@[j].action
                                matches Action::Move { to: mt, convoyed: cv } && mt.name@
                                == province.name@ && !cv) && self.orders@[j].province.name@
                                == to.name@),
                        settled ==> *self == *old(self),
                    decreases nord - oi,
                {
                    let is_back = {
                        let op = &self.orders[oi];
                        let act_ok = match &op.action {
                            Action::Move { to: mt, convoyed } => mt == &province && !*convoyed,
                            _ => false,
                        };
                        act_ok && &op.province == &to
                    };
                    if is_back {
                        proof {
                            assert(crate::model::is_move_at(self.orders@[oi as int], to.name@));
                            crate::model::lemma_has_move_at(self.orders@, to.name@, oi as int);
                        }
                        h2h = true;
                    }
                    oi = oi + 1;
                }
                proof {
                    assert(h2h == crate::model::exists_head_to_head(
                        self.orders@,
                        province.name@,
                        to.name@,
                    ));
                }

                let ghost s2 = *self;
                let counter = if h2h {
                    proof {
                        if settled {
                            assert(defend_inputs_resolved(old(self).orders@, to.name@));
                        }
                    }
                    match self.defend_strength(&to, fuel - 1) {
                        Ok(v) => v,
                        Err(e) => {
                            proof {
                                lemma_engine_step_trans(*old(self), s2, *self);
                                if settled && fuel >= 3 {
                                    assert(false);
                                }
                            }
                            return Err(e);
                        },
                    }
                } else {
                    proof {
                        if settled {
                            assert(hold_inputs_resolved(old(self).orders@, to.name@));
                        }
                    }
                    match self.hold_strength(&to, fuel - 1) {
                        Ok(v) => v,
                        Err(e) => {
                            proof {
                                lemma_engine_step_trans(*old(self), s2, *self);
                                if settled && fuel >= 3 {
                                    assert(false);
                                }
                            }
                            return Err(e);
                        },
                    }
                };
                proof {
                    lemma_engine_step_trans(*old(self), s2, *self);
                    if settled {
                        assert(*self == *old(self));
                        assert(counter as int == (
                        if crate::model::exists_head_to_head(
                            old(self).orders@,
                            province.name@,
                            to.name@,
                        ) {
                            crate::model::spec_defend_strength(
                                old(self).map@,
                                old(self).orders@,
                                to.name@,
                            )
                        } else {
                            crate::model::spec_hold_strength(
                                old(self).map@,
                                old(self).orders@,
                                to.name@,
                            )
                        }));
                    }
                }
                if !(atk > counter) {
                    proof {
                        if settled {
                            assert(!crate::model::spec_adjudicate(
                                old(self).map@,
                                old(self).orders@,
                                id as int,
                            ));
                        }
                    }
                    return Ok(false);
                }

                // The attack must also beat every other unit contesting the
                // same destination.
                proof {
                    assert(order_core_eq(old(self).orders@[id as int], self.orders@[id as int]));
                    if settled {
                        assert(forall|i: int|
                            0 <= i < old(self).orders@.len() && crate::model::is_contesting(
                                #[trigger] old(self).orders@[i],
                                to.name@,
                                province.name@,
                            ) ==> prevent_inputs_resolved(
                                old(self).map@,
                                old(self).orders@,
                                old(self).orders@[i].province.name@,
                            ));
                    }
                }
                let ghost s4 = *self;
                let b2 = match self.move_contests(
                    &province,
                    &to,
                    atk,
                    Ghost(*old(self)),
                    Ghost(id as int),
                    Ghost(settled),
                    fuel,
                ) {
                    Ok(b) => b,
                    Err(e) => {
                        proof {
                            lemma_engine_step_trans(*old(self), s4, *self);
                            if settled && fuel >= 3 {
                                assert(false);
                            }
                        }
                        return Err(e);
                    },
                };
                proof {
                    lemma_engine_step_trans(*old(self), s4, *self);
                    if settled {
                        assert(*self == *old(self));
                        assert(b2 == contest_ok(old(self).map@, old(self).orders@, id as int));
                        assert(b2 == crate::model::spec_adjudicate(
                            old(self).map@,
                            old(self).orders@,
                            id as int,
                        ));
                    }
                }
                Ok(b2)
        }
    }

    /// The contest phase of a move's adjudication: whether the move's attack
    /// strength beats the prevent strength of every third party ordered into
    /// the same destination.  `base` is the adjudication frame's starting
    /// state; when `settled` certifies that every consulted order in it is
    /// final, the result is exactly the model's contest condition.
    #[verifier::spinoff_prover]
    #[verifier::rlimit(100)]
    fn move_contests(
        &mut self,
        province: &Province,
        to: &Province,
        atk: u128,
        base: Ghost<Stpsyr>,
        id: Ghost<int>,
        settled: Ghost<bool>,
        fuel: u64,
    ) -> (r: Result<bool, EngineError>)
        requires
            old(self).wf(),
            engine_step(base@, *old(self)),
            0 <= id@ < base@.orders@.len(),
            base@.orders@[id@].action is Move,
            base@.orders@[id@].province == *province,
            base@.orders@[id@].action->Move_to == *to,
            fuel >= 1,
            settled@ ==> *old(self) == base@ && atk as int
                == crate::model::spec_attack_strength(
                base@.map@,
                base@.orders@,
                province.name@,
            ) && (forall|i: int|
                0 <= i < base@.orders@.len() && crate::model::is_contesting(
                    #[trigger] base@.orders@[i],
                    to.name@,
                    province.name@,
                ) ==> prevent_inputs_resolved(base@.map@, base@.orders@, base@.orders@[i].province.name@)),
        ensures
            engine_step(*old(self), *final(self)),
            settled@ ==> *final(self) == base@ && (r matches Ok(b) ==> b == contest_ok(
                base@.map@,
                base@.orders@,
                id@,
            )),
            settled@ && fuel >= 3 ==> r is Ok,
        decreases fuel, 0int,
    {
        proof {
            lemma_engine_step_refl(*self);
        }
        let nord = self.orders.len();
        let mut oi2: usize = 0;
        while oi2 < nord
            invariant
                engine_step(*old(self), *self),
                engine_step(base@, *old(self)),
                nord == self.orders@.len(),
                oi2 <= nord,
                fuel >= 1,
                0 <= id@ < base@.orders@.len(),
                base@.orders@[id@].action is Move,
                base@.orders@[id@].province == *province,
                base@.orders@[id@].action->Move_to == *to,
                settled@ ==> *old(self) == base@ && atk as int
                    == crate::model::spec_attack_strength(
                    base@.map@,
                    base@.orders@,
                    province.name@,
                ) && (forall|i: int|
                    0 <= i < base@.orders@.len() && crate::model::is_contesting(
                        #[trigger] base@.orders@[i],
                        to.name@,
                        province.name@,
                    ) ==> prevent_inputs_resolved(
                        base@.map@,
                        base@.orders@,
                        base@.orders@[i].province.name@,
                    )),
                settled@ ==> *self == base@ && (forall|j: int|
                    0 <= j < oi2 && crate::model::is_contesting(
                        #[trigger] base@.orders@[j],
                        to.name@,
                        province.name@,
                    ) ==> atk as int > crate::model::spec_prevent_strength(
                        base@.map@,
                        base@.orders@,
                        base@.orders@[j].province.name@,
                    )),
            decreases nord - oi2,
        {
            let contesting = {
                let op = &self.orders[oi2];
                let act_ok = match &op.action {
                    Action::Move { to: mt, .. } => mt == to,
                    _ => false,
                };
                act_ok && !(&op.province == province)
            };
            if contesting {
                let pprov = self.orders[oi2].province.clone();
                proof {
                    assert(crate::model::is_move_at(self.orders@[oi2 as int], pprov.name@));
                    crate::model::lemma_has_move_at(self.orders@, pprov.name@, oi2 as int);
                    if settled@ {
                        assert(crate::model::is_contesting(
                            base@.orders@[oi2 as int],
                            to.name@,
                            province.name@,
                        ));
                        assert(prevent_inputs_resolved(base@.map@, base@.orders@, pprov.name@));
                    }
                }
                let ghost s3 = *self;
                let pv = match self.prevent_strength(&pprov, fuel - 1) {
                    Ok(v) => v,
                    Err(e) => {
                        proof {
                            lemma_engine_step_trans(*old(self), s3, *self);
                            if settled@ && fuel >= 3 {
                                assert(false);
                            }
                        }
                        return Err(e);
                    },
                };
                proof {
                    lemma_engine_step_trans(*old(self), s3, *self);
                    if settled@ {
                        assert(*self == base@);
                        assert(pv as int == crate::model::spec_prevent_strength(
                            base@.map@,
                            base@.orders@,
                            pprov.name@,
                        ));
                    }
                }
                if !(atk > pv) {
                    proof {
                        if settled@ {
                            assert(!contest_ok(base@.map@, base@.orders@, id@));
                        }
                    }
                    return Ok(false);
                }
            }
            oi2 = oi2 + 1;
        }
        proof {
            if settled@ {
                assert(contest_ok(base@.map@, base@.orders@, id@));
            }
        }
        Ok(true)
    }

    /// The convoy arm of the adjudication equation: a convoy fails only by
    /// being dislodged.
    #[verifier::spinoff_prover]
    fn adjudicate_convoy(&mut self, id: usize, fuel: u64) -> (r: Result<bool, EngineError>)
        requires
            old(self).wf(),
            id < old(self).orders@.len(),
            old(self).orders@[id as int].action is Convoy,
            fuel >= 1,
        ensures
            engine_step(*old(self), *final(self)),
            adjudicate_inputs_resolved(old(self).map@, old(self).orders@, id as int) ==> *final(self) == *old(self) && (
            r matches Ok(b) ==> b == crate::model::spec_adjudicate(
                old(self).map@,
                old(self).orders@,
                id as int,
            )),
            adjudicate_inputs_resolved(old(self).map@, old(self).orders@, id as int) ==> r is Ok,
        decreases fuel, 0int,
    {
        proof {
            lemma_engine_step_refl(*self);
        }
        let ghost settled = adjudicate_inputs_resolved(old(self).map@, old(self).orders@, id as int);
        let province = self.orders[id].province.clone();
        {
                // A convoy fails only by being dislodged.
                let nord = self.orders.len();
                let mut dislodged = false;
                let mut oi: usize = 0;
                while oi < nord && !dislodged
                    invariant
                        engine_step(*old(self), *self),
                        nord == self.orders@.len(),
                        oi <= nord,
                        fuel >= 1,
                        id < nord,
                        province == old(self).orders@[id as int].province,
                        old(self).orders@[id as int].action is Convoy,
                        settled == adjudicate_inputs_resolved(old(self).map@, old(self).orders@, id as int),
                        settled ==> *self == *old(self) && dislodged == (exists|j: int|
                            0 <= j < oi && crate::model::is_move_to(
                                #[trigger] old(self).orders@[j],
                                province.name@,
                            ) && old(self).orders@[j].resolution),
                    decreases nord - oi,
                {
                    let targets_me = {
                        let op = &self.orders[oi];
                        match &op.action {
                            Action::Move { to: mt, .. } => mt == &province,
                            _ => false,
                        }
                    };
                    if targets_me {
                        let ghost pre = *self;
                        let rb = match self.resolve(oi, fuel - 1) {
                            Ok(b) => b,
                            Err(e) => {
                                proof {
                                    lemma_engine_step_trans(*old(self), pre, *self);
                                }
                                return Err(e);
                            },
                        };
                        proof {
                            lemma_engine_step_trans(*old(self), pre, *self);
                            if settled {
                                assert(crate::model::is_move_to(
                                    old(self).orders@[oi as int],
                                    province.name@,
                                ));
                                assert(old(self).orders@[oi as int].state is Resolved);
                                assert(*self == *old(self));
                                assert(rb == old(self).orders@[oi as int].resolution);
                            }
                        }
                        if rb {
                            dislodged = true;
                        }
                    }
                    proof {
                        if settled && !(dislodged) {
                            assert(!(crate::model::is_move_to(
                                old(self).orders@[oi as int],
                                province.name@,
                            ) && old(self).orders@[oi as int].resolution));
                        }
                    }
                    oi = oi + 1;
                }
                proof {
                    if settled {
                        assert(dislodged == (exists|j: int|
                            0 <= j < old(self).orders@.len() && crate::model::is_move_to(
                                #[trigger] old(self).orders@[j],
                                province.name@,
                            ) && old(self).orders@[j].resolution));
                    }
                }
                Ok(!dislodged)
        }
    }

    /// Whether a support standing at `province` and helping into `to`
    /// survives, where `supported_prov` is the province whose unit is being
    /// supported: the support is cut by any move against it that has a
    /// usable path, is not aimed from the very province being supported
    /// into, and does not come from the supported unit's own power.  When no
    /// attacker claims a convoy, the verdict is exactly the model's cut
    /// condition, and a verdict is owed.
    fn adjudicate_support(
        &mut self,
        province: Province,
        to: Province,
        supported_prov: Province,
        fuel: u64,
    ) -> (r: Result<bool, EngineError>)
        requires
            old(self).wf(),
        ensures
            engine_step(*old(self), *final(self)),
            support_attackers_settled(old(self).map@, old(self).orders@, province.name@) ==> *final(self) == *old(self)
                && (r matches Ok(b) ==> b == !(exists|i: int|
                0 <= i < old(self).orders@.len() && crate::model::is_cutting(
                    old(self).map@,
                    old(self).orders@,
                    #[trigger] old(self).orders@[i],
                    province.name@,
                    to.name@,
                    crate::model::spec_supported_power(old(self).map@, supported_prov.name@),
                ))),
            support_attackers_settled(old(self).map@, old(self).orders@, province.name@) && fuel >= 2 ==> r is Ok,
        decreases fuel, 0int,
    {
        proof {
            lemma_engine_step_refl(*self);
        }
        if fuel == 0 {
            return Err(EngineError::DepthLimit);
        }
        let ghost settled = support_attackers_settled(old(self).map@, old(self).orders@, province.name@);
        let supported: Option<Power> = match self.get_unit(&supported_prov) {
            Some(u) => Some(u.owner),
            None => None,
        };
        proof {
            assert(supported == crate::model::spec_supported_power(
                old(self).map@,
                supported_prov.name@,
            ));
        }
        let nord = self.orders.len();
        let mut cut = false;
        let mut oi: usize = 0;
        while oi < nord && !cut
            invariant
                engine_step(*old(self), *self),
                nord == self.orders@.len(),
                oi <= nord,
                fuel >= 1,
                settled == support_attackers_settled(old(self).map@, old(self).orders@, province.name@),
                supported == crate::model::spec_supported_power(
                    old(self).map@,
                    supported_prov.name@,
                ),
                settled ==> *self == *old(self),
                settled && cut ==> exists|j: int|
                    0 <= j < nord && crate::model::is_cutting(
                        old(self).map@,
                        old(self).orders@,
                        #[trigger] old(self).orders@[j],
                        province.name@,
                        to.name@,
                        supported,
                    ),
                settled && !cut ==> forall|j: int|
                    0 <= j < oi ==> !crate::model::is_cutting(
                        old(self).map@,
                        old(self).orders@,
                        #[trigger] old(self).orders@[j],
                        province.name@,
                        to.name@,
                        supported,
                    ),
            decreases nord - oi,
        {
            let (targets_me, conv) = {
                let op = &self.orders[oi];
                match &op.action {
                    Action::Move { to: mt, convoyed } => (mt == &province, *convoyed),
                    _ => (false, false),
                }
            };
            if targets_me {
                // A convoyed attacker only cuts with a valid route.
                let path_ok = if conv {
                    proof {
                        if settled {
                            assert(crate::model::is_move_to(
                                old(self).orders@[oi as int],
                                province.name@,
                            ));
                            assert(convoys_resolved(
                                old(self).orders@,
                                old(self).orders@[oi as int].province.name@,
                                province.name@,
                            ));
                            assert(crate::model::unique_regions(old(self).map@));
                        }
                    }
                    let ghost pre = *self;
                    let ps = match self.convoy_paths(oi, fuel - 1) {
                        Ok(p) => p,
                        Err(e) => {
                            proof {
                                lemma_engine_step_trans(*old(self), pre, *self);
                                if settled && fuel >= 2 {
                                    assert(false);
                                }
                            }
                            return Err(e);
                        },
                    };
                    proof {
                        lemma_engine_step_trans(*old(self), pre, *self);
                        if settled {
                            assert((ps@.len() > 0) == crate::model::has_convoy_path(
                                old(self).map@,
                                old(self).orders@,
                                old(self).orders@[oi as int].province.name@,
                                province.name@,
                            ));
                        }
                    }
                    !ps.is_empty()
                } else {
                    true
                };
                let mut hit = false;
                if path_ok {
                    // The unit being supported against cannot cut, nor can
                    // the supported unit's own power cut the support.
                    if !(&self.orders[oi].province == &to) {
                        let o_owner = self.orders[oi].owner.clone();
                        let exempt = match &supported {
                            Some(pw) => pw == &o_owner,
                            None => false,
                        };
                        if !exempt {
                            hit = true;
                        }
                    }
                }
                proof {
                    if settled {
                        assert(hit == crate::model::is_cutting(
                            old(self).map@,
                            old(self).orders@,
                            old(self).orders@[oi as int],
                            province.name@,
                            to.name@,
                            supported,
                        ));
                    }
                }
                if hit {
                    cut = true;
                }
            } else {
                proof {
                    if settled {
                        assert(!crate::model::is_cutting(
                            old(self).map@,
                            old(self).orders@,
                            old(self).orders@[oi as int],
                            province.name@,
                            to.name@,
                            supported,
                        ));
                    }
                }
            }
            oi = oi + 1;
        }
        Ok(!cut)
    }

    /// Whether some region already on the route has the given province name.
    fn route_has_name(&self, path: &Vec<usize>, p: &Province) -> (r: bool)
        requires
            forall|k: int| 0 <= k < path@.len() ==> (#[trigger] path@[k]) < self.map@.len(),
        ensures
            r == exists|j: int|
                0 <= j < path@.len() && self.map@[#[trigger] path@[j] as int].province.name@
                    == p.name@,
    {
        let n = path.len();
        let mut j: usize = 0;
        while j < n
            invariant
                n == path@.len(),
                j <= n,
                forall|k: int| 0 <= k < path@.len() ==> (#[trigger] path@[k]) < self.map@.len(),
                forall|t: int|
                    0 <= t < j ==> self.map@[#[trigger] path@[t] as int].province.name@ != p.name@,
            decreases n - j,
        {
            if &self.map[path[j]].province == p {
                return true;
            }
            j = j + 1;
        }
        false
    }

    /// Depth-first enumeration of the convoy routes that extend `path`: a
    /// branch ends as soon as the route's last region can reach `target`
    /// over a fleet border, and otherwise continues through every open-water
    /// region not yet on the route.
    ///
    /// Route discovery compares provinces by name alone, while a fleet's own
    /// movement is filtered by coast; what a coast-qualified convoy
    /// destination should mean is a deliberately open policy question, and
    /// this search takes no position on it.
    fn find_paths(&self, path: Vec<usize>, target: &Province, fuel: u64) -> (r: Vec<Vec<usize>>)
        requires
            path@.len() >= 1,
            forall|k: int| 0 <= k < path@.len() ==> (#[trigger] path@[k]) < self.map@.len(),
        ensures
            forall|pi: int|
                0 <= pi < r@.len() ==> path_extension(
                    self.map@,
                    path@,
                    (#[trigger] r@[pi])@,
                    target.name@,
                ),
            crate::model::prov_list_contains(
                self.map@[path@[path@.len() - 1] as int].fleet_borders@,
                target.name@,
            ) ==> r@.len() == 1 && r@[0]@ == path@,
            forall|qx: Seq<usize>|
                #[trigger] min_route_extension(self.map@, path@, qx, target.name@) && qx.len()
                    <= path@.len() + fuel ==> exists|pi: int|
                    0 <= pi < r@.len() && (#[trigger] r@[pi])@ == qx,
        decreases fuel,
    {
        let last = path[path.len() - 1];
        if crate::board::prov_list_has(&self.map[last].fleet_borders, target) {
            // Made it: the chain's end can reach the target directly.
            let mut r: Vec<Vec<usize>> = Vec::new();
            let ghost pathv = path@;
            r.push(path);
            proof {
                assert(pathv.subrange(0, pathv.len() as int) =~= pathv);
                assert(path_extension(self.map@, pathv, r@[0]@, target.name@));
                assert forall|qx: Seq<usize>|
                    #[trigger] min_route_extension(self.map@, pathv, qx, target.name@) && qx.len()
                        <= pathv.len() + fuel implies exists|pi: int|
                    0 <= pi < r@.len() && (#[trigger] r@[pi])@ == qx by {
                    if qx.len() > pathv.len() {
                        // The route would have to pass beyond a region that
                        // already reaches the target, which minimality
                        // forbids.
                        assert(qx[pathv.len() - 1] == pathv[pathv.len() - 1]) by {
                            assert(qx.subrange(0, pathv.len() as int)[pathv.len() - 1]
                                == qx[pathv.len() - 1]);
                        }
                        assert(!crate::model::prov_list_contains(
                            self.map@[qx[pathv.len() - 1] as int].fleet_borders@,
                            target.name@,
                        ));
                        assert(false);
                    } else {
                        assert(qx.len() == pathv.len());
                        assert(qx =~= pathv) by {
                            assert forall|k: int| 0 <= k < pathv.len() implies qx[k]
                                == pathv[k] by {
                                assert(qx.subrange(0, pathv.len() as int)[k] == qx[k]);
                            }
                        }
                        assert(r@[0]@ == qx);
                    }
                }
            }
            return r;
        }
        let mut result: Vec<Vec<usize>> = Vec::new();
        if fuel == 0 {
            proof {
                assert forall|qx: Seq<usize>|
                    #[trigger] min_route_extension(self.map@, path@, qx, target.name@) && qx.len()
                        <= path@.len() + fuel implies exists|pi: int|
                    0 <= pi < result@.len() && (#[trigger] result@[pi])@ == qx by {
                    assert(qx.len() == path@.len());
                    assert(qx =~= path@) by {
                        assert forall|k: int| 0 <= k < path@.len() implies qx[k] == path@[k] by {
                            assert(qx.subrange(0, path@.len() as int)[k] == qx[k]);
                        }
                    }
                    assert(crate::model::prov_list_contains(
                        self.map@[path@[path@.len() - 1] as int].fleet_borders@,
                        target.name@,
                    ));
                    assert(false);
                }
            }
            return result;
        }
        let n = self.map.len();
        let mut i: usize = 0;
        while i < n
            invariant
                n == self.map@.len(),
                i <= n,
                fuel >= 1,
                path@.len() >= 1,
                last == path@[path@.len() - 1],
                last < n,
                forall|k: int| 0 <= k < path@.len() ==> (#[trigger] path@[k]) < self.map@.len(),
                forall|pi: int|
                    0 <= pi < result@.len() ==> path_extension(
                        self.map@,
                        path@,
                        (#[trigger] result@[pi])@,
                        target.name@,
                    ),
                !crate::model::prov_list_contains(
                    self.map@[last as int].fleet_borders@,
                    target.name@,
                ),
                forall|qx: Seq<usize>|
                    #[trigger] min_route_extension(self.map@, path@, qx, target.name@) && qx.len()
                        <= path@.len() + fuel && qx.len() > path@.len() && (qx[path@.len() as int]
                        as int) < i ==> exists|pi: int|
                        0 <= pi < result@.len() && (#[trigger] result@[pi])@ == qx,
            decreases n - i,
        {
            // The next link must be open water: fleet-reachable but not
            // army-reachable, and not a region the route already visits.
            let step_ok = crate::board::prov_list_has(
                &self.map[last].fleet_borders,
                &self.map[i].province,
            ) && !crate::board::prov_list_has(&self.map[last].army_borders, &self.map[i].province)
                && !self.route_has_name(&path, &self.map[i].province);
            proof {
                assert(step_ok == step_from_last(self.map@, path@, i as int));
            }
            if step_ok {
                let mut new_path = copy_path(&path);
                new_path.push(i);
                proof {
                    assert(new_path@.subrange(0, path@.len() as int) =~= path@);
                    assert(water_step(self.map@, new_path@, path@.len() as int));
                }
                let sub = self.find_paths(new_path, target, fuel - 1);
                let m = sub.len();
                let mut si: usize = 0;
                while si < m
                    invariant
                        m == sub@.len(),
                        si <= m,
                        path@.len() >= 1,
                        i < n,
                        n == self.map@.len(),
                        forall|k: int|
                            0 <= k < path@.len() ==> (#[trigger] path@[k]) < self.map@.len(),
                        water_step(self.map@, path@.push(i), path@.len() as int),
                        forall|pi: int|
                            0 <= pi < sub@.len() ==> path_extension(
                                self.map@,
                                path@.push(i),
                                (#[trigger] sub@[pi])@,
                                target.name@,
                            ),
                        forall|pi: int|
                            0 <= pi < result@.len() ==> path_extension(
                                self.map@,
                                path@,
                                (#[trigger] result@[pi])@,
                                target.name@,
                            ),
                        forall|t: int|
                            0 <= t < si ==> exists|pi: int|
                                0 <= pi < result@.len() && result@[pi]@ == (#[trigger] sub@[t])@,
                        forall|qx: Seq<usize>|
                            #[trigger] min_route_extension(self.map@, path@, qx, target.name@)
                                && qx.len() <= path@.len() + fuel && qx.len() > path@.len() && (
                            qx[path@.len() as int] as int) < i ==> exists|pi: int|
                                0 <= pi < result@.len() && (#[trigger] result@[pi])@ == qx,
                    decreases m - si,
                {
                    let q = copy_path(&sub[si]);
                    proof {
                        let qv = q@;
                        let base = path@;
                        let ext = path@.push(i);
                        assert(path_extension(self.map@, ext, qv, target.name@));
                        assert(qv.subrange(0, base.len() as int) =~= base) by {
                            assert(qv.subrange(0, ext.len() as int) == ext);
                            assert forall|k: int| 0 <= k < base.len() implies qv.subrange(
                                0,
                                base.len() as int,
                            )[k] == base[k] by {
                                assert(qv.subrange(0, ext.len() as int)[k] == ext[k]);
                            }
                        }
                        assert forall|k: int| base.len() <= k < qv.len() implies water_step(
                            self.map@,
                            qv,
                            k,
                        ) by {
                            if k == base.len() {
                                assert(qv.subrange(0, ext.len() as int) == ext);
                                assert forall|j: int| 0 <= j <= k implies qv[j] == ext[j] by {
                                    assert(qv.subrange(0, ext.len() as int)[j] == ext[j]);
                                }
                                assert(water_step(self.map@, ext, k));
                                assert(qv[k - 1] == ext[k - 1] && qv[k] == ext[k]);
                                assert forall|j: int|
                                    0 <= j < k implies self.map@[#[trigger] qv[j] as int].province.name@
                                    != self.map@[qv[k] as int].province.name@ by {
                                    assert(qv[j] == ext[j]);
                                }
                            } else {
                                assert(water_step(self.map@, qv, k));
                            }
                        }
                        assert(path_extension(self.map@, base, qv, target.name@));
                    }
                    let ghost rpre = result@;
                    result.push(q);
                    proof {
                        assert(result@.len() == rpre.len() + 1);
                        assert(result@[rpre.len() as int]@ == sub@[si as int]@);
                        assert forall|t: int| 0 <= t < si + 1 implies exists|pi: int|
                            0 <= pi < result@.len() && result@[pi]@ == (#[trigger] sub@[t])@ by {
                            if t == si as int {
                                assert(result@[rpre.len() as int]@ == sub@[t]@);
                            } else {
                                let p0 = choose|pi: int|
                                    0 <= pi < rpre.len() && rpre[pi]@ == sub@[t]@;
                                assert(result@[p0]@ == sub@[t]@);
                            }
                        }
                        assert forall|qx: Seq<usize>|
                            #[trigger] min_route_extension(self.map@, path@, qx, target.name@)
                                && qx.len() <= path@.len() + fuel && qx.len() > path@.len() && (
                            qx[path@.len() as int] as int) < i implies exists|pi: int|
                            0 <= pi < result@.len() && (#[trigger] result@[pi])@ == qx by {
                            let p0 = choose|pi: int| 0 <= pi < rpre.len() && rpre[pi]@ == qx;
                            assert(result@[p0]@ == qx);
                        }
                    }
                    si = si + 1;
                }
                proof {
                    assert forall|qx: Seq<usize>|
                        #[trigger] min_route_extension(self.map@, path@, qx, target.name@)
                            && qx.len() <= path@.len() + fuel && qx.len() > path@.len() && (
                    qx[path@.len() as int] as int) < i + 1 implies exists|pi: int|
                        0 <= pi < result@.len() && (#[trigger] result@[pi])@ == qx by {
                        if qx[path@.len() as int] as int == i as int {
                            let ext = path@.push(i as usize);
                            assert(qx.subrange(0, ext.len() as int) =~= ext) by {
                                assert forall|k: int| 0 <= k < ext.len() implies qx.subrange(
                                    0,
                                    ext.len() as int,
                                )[k] == ext[k] by {
                                    if k < path@.len() {
                                        assert(qx.subrange(0, path@.len() as int)[k] == qx[k]);
                                    }
                                }
                            }
                            assert(min_route_extension(self.map@, ext, qx, target.name@));
                            assert(qx.len() <= ext.len() + (fuel - 1));
                            assert(exists|t: int| 0 <= t < sub@.len() && (#[trigger] sub@[t])@ == qx);
                            let t0 = choose|t: int|
                                0 <= t < sub@.len() && (#[trigger] sub@[t])@ == qx;
                            assert(exists|pi: int|
                                0 <= pi < result@.len() && result@[pi]@ == sub@[t0]@);
                        }
                    }
                }
            } else {
                proof {
                    assert forall|qx: Seq<usize>|
                        #[trigger] min_route_extension(self.map@, path@, qx, target.name@)
                            && qx.len() <= path@.len() + fuel && qx.len() > path@.len() && (
                    qx[path@.len() as int] as int) < i + 1 implies exists|pi: int|
                        0 <= pi < result@.len() && (#[trigger] result@[pi])@ == qx by {
                        if qx[path@.len() as int] as int == i as int {
                            assert(water_step(self.map@, qx, path@.len() as int));
                            assert forall|j: int| 0 <= j < path@.len() implies qx[j]
                                == path@[j] by {
                                assert(qx.subrange(0, path@.len() as int)[j] == qx[j]);
                            }
                            assert(step_from_last(self.map@, path@, i as int));
                            assert(false);
                        }
                    }
                }
            }
            i = i + 1;
        }
        result
    }

    /// The first order moving the unit at `p`, when there is one.
    fn find_move_at(&self, p: &Province) -> (r: Option<usize>)
        ensures
            match r {
                Some(idx) => crate::model::has_move_at(self.orders@, p.name@) && idx as int
                    == crate::model::move_at_index(self.orders@, p.name@),
                None => !crate::model::has_move_at(self.orders@, p.name@),
            },
    {
        let n = self.orders.len();
        let mut i: usize = 0;
        while i < n
            invariant
                n == self.orders@.len(),
                i <= n,
                forall|j: int|
                    0 <= j < i ==> !crate::model::is_move_at(#[trigger] self.orders@[j], p.name@),
            decreases n - i,
        {
            let is_mv = match &self.orders[i].action {
                Action::Move { .. } => true,
                _ => false,
            };
            if is_mv && &self.orders[i].province == p {
                proof {
                    crate::model::lemma_move_at_index_scan(self.orders@, p.name@, 0, i as int);
                }
                return Some(i);
            }
            proof {
                assert(!crate::model::is_move_at(self.orders@[i as int], p.name@));
            }
            i = i + 1;
        }
        proof {
            crate::model::lemma_move_at_index_scan(self.orders@, p.name@, 0, n as int);
        }
        None
    }

    /// All valid convoy routes for the convoyed move order `idx`: the water
    /// chains found by the path search, kept only when every carrying fleet
    /// has a convoy order for this exact move that resolves successfully.
    /// Once those convoy orders are settled, every returned route is valid
    /// per [`route_valid`], an answer is owed, and — on a board without
    /// duplicate names — the answer is empty exactly when no convoyable
    /// crossing exists.
    #[verifier::spinoff_prover]
    #[verifier::rlimit(100)]
    fn convoy_paths(&mut self, idx: usize, fuel: u64) -> (r: Result<
        Vec<Vec<Province>>,
        EngineError,
    >)
        requires
            old(self).wf(),
            idx < old(self).orders@.len(),
            old(self).orders@[idx as int].action matches Action::Move { convoyed: true, .. },
        ensures
            engine_step(*old(self), *final(self)),
            ({
                let origin_n = old(self).orders@[idx as int].province.name@;
                let dest_n = old(self).orders@[idx as int].action->Move_to.name@;
                convoys_resolved(old(self).orders@, origin_n, dest_n) ==> *final(self) == *old(
                    self,
                ) && (r matches Ok(routes) ==> {
                    &&& forall|t: int|
                        0 <= t < routes@.len() ==> route_valid(
                            old(self).map@,
                            old(self).orders@,
                            (#[trigger] routes@[t])@,
                            origin_n,
                            dest_n,
                        )
                    &&& routes@.len() > 0 ==> crate::model::has_convoy_path(
                        old(self).map@,
                        old(self).orders@,
                        origin_n,
                        dest_n,
                    )
                    &&& (crate::model::unique_regions(old(self).map@)
                        && crate::model::has_convoy_path(
                        old(self).map@,
                        old(self).orders@,
                        origin_n,
                        dest_n,
                    ) ==> routes@.len() > 0)
                })
            }),
            ({
                let origin_n = old(self).orders@[idx as int].province.name@;
                let dest_n = old(self).orders@[idx as int].action->Move_to.name@;
                convoys_resolved(old(self).orders@, origin_n, dest_n) && fuel >= 1 ==> r is Ok
            }),
        decreases fuel, 0int,
    {
        proof {
            lemma_engine_step_refl(*self);
        }
        if fuel == 0 {
            return Err(EngineError::DepthLimit);
        }
        let origin = self.orders[idx].province.clone();
        let dest = match &self.orders[idx].action {
            Action::Move { to, .. } => to.clone(),
            _ => {
                proof {
                    assert(false);
                }
                origin.clone()
            },
        };
        let ghost settled = convoys_resolved(old(self).orders@, origin.name@, dest.name@);
        let mut result: Vec<Vec<Province>> = Vec::new();
        let start = crate::board::region_pos(&self.map, &origin);
        proof {
            crate::board::lemma_region_index_props(self.map@, origin.name@);
        }
        if start >= self.map.len() {
            proof {
                if crate::model::unique_regions(self.map@) && crate::model::has_convoy_path(
                    self.map@,
                    old(self).orders@,
                    origin.name@,
                    dest.name@,
                ) {
                    reveal(crate::model::has_convoy_path);
                    let qq = choose|qc: Seq<int>|
                        crate::model::is_water_chain(self.map@, qc, origin.name@, dest.name@)
                            && crate::model::chain_convoyed(
                            self.map@,
                            old(self).orders@,
                            qc,
                            origin.name@,
                            dest.name@,
                        );
                    assert(self.map@[qq[0]].province.name@ == origin.name@);
                    assert(false);
                }
            }
            return Ok(result);
        }
        let mut start_path: Vec<usize> = Vec::new();
        start_path.push(start);
        let ghost basev = start_path@;
        let ml = self.map.len() as u64;
        let fp_fuel: u64 = if ml < 0xffff_ffff_ffff_ffff {
            ml + 1
        } else {
            ml
        };
        let paths = self.find_paths(start_path, &dest, fp_fuel);
        let ghost crossing = crate::model::unique_regions(self.map@)
            && crate::model::has_convoy_path(
            self.map@,
            old(self).orders@,
            origin.name@,
            dest.name@,
        );
        proof {
            if crossing {
                // Cut the witnessed chain at its first region within reach
                // of the destination: that prefix is exactly a route the
                // search enumerates, and it is fully convoyed.
                reveal(crate::model::has_convoy_path);
                let qq = choose|qc: Seq<int>|
                    crate::model::is_water_chain(self.map@, qc, origin.name@, dest.name@)
                        && crate::model::chain_convoyed(
                        self.map@,
                        old(self).orders@,
                        qc,
                        origin.name@,
                        dest.name@,
                    );
                lemma_first_reach_props(self.map@, qq, dest.name@, 0);
                let fb = first_reach_at(self.map@, qq, dest.name@, 0);
                assert(crate::model::prov_list_contains(
                    self.map@[qq[qq.len() - 1]].fleet_borders@,
                    dest.name@,
                ));
                assert(fb < qq.len());
                let qp = qq.subrange(0, fb + 1);
                assert(qq[0] == start as int) by {
                    assert(self.map@[qq[0]].province.name@ == origin.name@);
                    if qq[0] != start as int {
                        assert(self.map@[start as int].province.name@ == origin.name@);
                        assert(false);
                    }
                }
                assert(qp.no_duplicates()) by {
                    assert forall|a: int, b: int| 0 <= a < b < qp.len() implies qp[a] != qp[b] by {
                        assert(crate::model::chain_step(self.map@, qq, b));
                        assert(self.map@[qq[a]].province.name@ != self.map@[qq[b]].province.name@);
                    }
                }
                lemma_distinct_in_range(qp, self.map@.len() as int);
                let qu = Seq::new(qp.len(), |t: int| qp[t] as usize);
                assert(min_route_extension(self.map@, basev, qu, dest.name@)) by {
                    assert forall|t: int| 0 <= t < qu.len() implies (#[trigger] qu[t]) as int
                        == qq[t] by {}
                    assert(qu.subrange(0, 1) =~= basev) by {
                        assert(qu[0] as int == qq[0]);
                    }
                    assert forall|k: int| 1 <= k < qu.len() implies water_step(
                        self.map@,
                        qu,
                        k,
                    ) by {
                        assert(crate::model::chain_step(self.map@, qq, k));
                        assert forall|j: int|
                            0 <= j < k implies self.map@[#[trigger] qu[j] as int].province.name@
                            != self.map@[qu[k] as int].province.name@ by {
                            assert(qu[j] as int == qq[j]);
                        }
                    }
                    assert(crate::model::prov_list_contains(
                        self.map@[qu[qu.len() - 1] as int].fleet_borders@,
                        dest.name@,
                    ));
                    assert forall|k: int|
                        0 <= k < qu.len() - 1 implies !crate::model::prov_list_contains(
                        self.map@[#[trigger] qu[k] as int].fleet_borders@,
                        dest.name@,
                    ) by {
                        assert(qu[k] as int == qq[k]);
                    }
                }
                assert(qu.len() <= basev.len() + fp_fuel);
                assert(exists|t: int| 0 <= t < paths@.len() && (#[trigger] paths@[t])@ == qu);
                let t0 = choose|t: int| 0 <= t < paths@.len() && (#[trigger] paths@[t])@ == qu;
                assert(path_all_convoyed(
                    self.map@,
                    old(self).orders@,
                    paths@[t0]@,
                    origin.name@,
                    dest.name@,
                )) by {
                    assert forall|t: int| 1 <= t < paths@[t0]@.len() implies exists|j: int|
                        0 <= j < old(self).orders@.len() && crate::model::is_succ_convoy(
                            #[trigger] old(self).orders@[j],
                            self.map@[#[trigger] paths@[t0]@[t] as int].province.name@,
                            origin.name@,
                            dest.name@,
                        ) by {
                        assert(paths@[t0]@[t] as int == qq[t]);
                    }
                }
            }
        }
        let np = paths.len();
        let mut pi: usize = 0;
        while pi < np
            invariant
                engine_step(*old(self), *self),
                np == paths@.len(),
                pi <= np,
                fuel >= 1,
                basev.len() == 1 && basev[0] == start,
                start < self.map@.len(),
                self.map@[start as int].province.name@ == origin.name@,
                origin.name@ == old(self).orders@[idx as int].province.name@,
                dest.name@ == old(self).orders@[idx as int].action->Move_to.name@,
                settled == convoys_resolved(old(self).orders@, origin.name@, dest.name@),
                forall|t: int|
                    0 <= t < paths@.len() ==> path_extension(
                        self.map@,
                        basev,
                        (#[trigger] paths@[t])@,
                        dest.name@,
                    ),
                settled ==> *self == *old(self),
                settled ==> forall|t: int|
                    0 <= t < result@.len() ==> route_valid(
                        old(self).map@,
                        old(self).orders@,
                        (#[trigger] result@[t])@,
                        origin.name@,
                        dest.name@,
                    ),
                settled ==> ((exists|t: int|
                    0 <= t < pi && path_all_convoyed(
                        self.map@,
                        old(self).orders@,
                        (#[trigger] paths@[t])@,
                        origin.name@,
                        dest.name@,
                    )) ==> result@.len() > 0),
            decreases np - pi,
        {
            let q = &paths[pi];
            let qlen = q.len();
            let mut all_ok = true;
            let mut k: usize = 1;
            while k < qlen && all_ok
                invariant
                    engine_step(*old(self), *self),
                    np == paths@.len(),
                    pi < np,
                    q == &paths[pi as int],
                    qlen == q@.len(),
                    1 <= k <= qlen || qlen == 0,
                    k == 1 ==> all_ok,
                    fuel >= 1,
                    origin.name@ == old(self).orders@[idx as int].province.name@,
                    dest.name@ == old(self).orders@[idx as int].action->Move_to.name@,
                    settled == convoys_resolved(old(self).orders@, origin.name@, dest.name@),
                    forall|t: int|
                        0 <= t < paths@.len() ==> path_extension(
                            self.map@,
                            basev,
                            (#[trigger] paths@[t])@,
                            dest.name@,
                        ),
                    settled ==> *self == *old(self),
                    settled && all_ok ==> forall|t: int|
                        1 <= t < k ==> exists|j: int|
                            0 <= j < old(self).orders@.len() && crate::model::is_succ_convoy(
                                #[trigger] old(self).orders@[j],
                                self.map@[#[trigger] q@[t] as int].province.name@,
                                origin.name@,
                                dest.name@,
                            ),
                    settled && path_all_convoyed(
                        self.map@,
                        old(self).orders@,
                        q@,
                        origin.name@,
                        dest.name@,
                    ) ==> all_ok,
                decreases qlen - k,
            {
                // For this carrying fleet, some convoy order for exactly
                // this origin/destination pair must resolve successfully.
                let mut found = false;
                let nord = self.orders.len();
                let mut oi: usize = 0;
                while oi < nord && !found
                    invariant
                        engine_step(*old(self), *self),
                        nord == self.orders@.len(),
                        oi <= nord,
                        np == paths@.len(),
                        pi < np,
                        q == &paths[pi as int],
                        qlen == q@.len(),
                        1 <= k < qlen,
                        fuel >= 1,
                        origin.name@ == old(self).orders@[idx as int].province.name@,
                        dest.name@ == old(self).orders@[idx as int].action->Move_to.name@,
                        settled == convoys_resolved(old(self).orders@, origin.name@, dest.name@),
                        forall|t: int|
                            0 <= t < paths@.len() ==> path_extension(
                                self.map@,
                                basev,
                                (#[trigger] paths@[t])@,
                                dest.name@,
                            ),
                        settled ==> *self == *old(self),
                        settled && found ==> exists|j: int|
                            0 <= j < old(self).orders@.len() && crate::model::is_succ_convoy(
                                #[trigger] old(self).orders@[j],
                                self.map@[q@[k as int] as int].province.name@,
                                origin.name@,
                                dest.name@,
                            ),
                        settled && !found ==> forall|j: int|
                            0 <= j < oi ==> !crate::model::is_succ_convoy(
                                #[trigger] old(self).orders@[j],
                                self.map@[q@[k as int] as int].province.name@,
                                origin.name@,
                                dest.name@,
                            ),
                    decreases nord - oi,
                {
                    let matches_conv = {
                        let op = &self.orders[oi];
                        let fleet_prov = &self.map[q[k]].province;
                        let at_ok = &op.province == fleet_prov;
                        at_ok && match &op.action {
                            Action::Convoy { from, to } => *from == origin && *to == dest,
                            _ => false,
                        }
                    };
                    if matches_conv {
                        let ghost pre = *self;
                        let rb = match self.resolve(oi, fuel - 1) {
                            Ok(b) => b,
                            Err(e) => {
                                proof {
                                    lemma_engine_step_trans(*old(self), pre, *self);
                                    if settled {
                                        assert(old(self).orders@[oi as int].state is Resolved);
                                        assert(false);
                                    }
                                }
                                return Err(e);
                            },
                        };
                        proof {
                            lemma_engine_step_trans(*old(self), pre, *self);
                            if settled {
                                assert(old(self).orders@[oi as int].state is Resolved);
                                assert(*self == *old(self));
                                assert(rb == old(self).orders@[oi as int].resolution);
                            }
                        }
                        if rb {
                            proof {
                                if settled {
                                    assert(crate::model::is_succ_convoy(
                                        old(self).orders@[oi as int],
                                        self.map@[q@[k as int] as int].province.name@,
                                        origin.name@,
                                        dest.name@,
                                    ));
                                }
                            }
                            found = true;
                        } else {
                            proof {
                                if settled {
                                    assert(!crate::model::is_succ_convoy(
                                        old(self).orders@[oi as int],
                                        self.map@[q@[k as int] as int].province.name@,
                                        origin.name@,
                                        dest.name@,
                                    ));
                                }
                            }
                        }
                    } else {
                        proof {
                            if settled {
                                assert(*self == *old(self));
                                assert(!crate::model::is_succ_convoy(
                                    old(self).orders@[oi as int],
                                    self.map@[q@[k as int] as int].province.name@,
                                    origin.name@,
                                    dest.name@,
                                ));
                            }
                        }
                    }
                    oi = oi + 1;
                }
                if !found {
                    proof {
                        if settled && path_all_convoyed(
                            self.map@,
                            old(self).orders@,
                            q@,
                            origin.name@,
                            dest.name@,
                        ) {
                            assert(exists|j: int|
                                0 <= j < old(self).orders@.len() && crate::model::is_succ_convoy(
                                    #[trigger] old(self).orders@[j],
                                    self.map@[q@[k as int] as int].province.name@,
                                    origin.name@,
                                    dest.name@,
                                ));
                            assert(false);
                        }
                    }
                    all_ok = false;
                }
                k = k + 1;
            }
            if all_ok {
                // Convert the surviving route to province names.
                let mut pp: Vec<Province> = Vec::new();
                let mut t: usize = 0;
                while t < qlen
                    invariant
                        t <= qlen,
                        np == paths@.len(),
                        pi < np,
                        q == &paths[pi as int],
                        qlen == q@.len(),
                        forall|t2: int|
                            0 <= t2 < paths@.len() ==> path_extension(
                                self.map@,
                                basev,
                                (#[trigger] paths@[t2])@,
                                dest.name@,
                            ),
                        pp@.len() == t as int,
                        forall|u: int|
                            0 <= u < t ==> (#[trigger] pp@[u]) == self.map@[q@[u] as int].province,
                    decreases qlen - t,
                {
                    pp.push(self.map[q[t]].province.clone());
                    t = t + 1;
                }
                proof {
                    if settled {
                        assert(route_valid(
                            old(self).map@,
                            old(self).orders@,
                            pp@,
                            origin.name@,
                            dest.name@,
                        )) by {
                            let qv = q@;
                            let qi = Seq::new(qv.len(), |u: int| qv[u] as int);
                            assert(path_extension(self.map@, basev, qv, dest.name@));
                            assert(qv[0] == start) by {
                                assert(qv.subrange(0, 1) == basev);
                                assert(qv.subrange(0, 1)[0] == qv[0]);
                            }
                            assert(crate::model::is_water_chain(
                                old(self).map@,
                                qi,
                                origin.name@,
                                dest.name@,
                            )) by {
                                assert(old(self).map@ == self.map@);
                                assert forall|u: int|
                                    1 <= u < qi.len() implies crate::model::chain_step(
                                    self.map@,
                                    qi,
                                    u,
                                ) by {
                                    assert(water_step(self.map@, qv, u));
                                }
                            }
                            assert forall|u: int| 0 <= u < qi.len() implies pp@[u] == old(
                                self,
                            ).map@[#[trigger] qi[u]].province by {}
                        }
                    }
                }
                result.push(pp);
            }
            pi = pi + 1;
        }
        proof {
            if settled && crossing {
                assert(exists|t: int|
                    0 <= t < np && path_all_convoyed(
                        self.map@,
                        old(self).orders@,
                        (#[trigger] paths@[t])@,
                        origin.name@,
                        dest.name@,
                    ));
                assert(result@.len() > 0);
            }
            if settled {
                if result@.len() > 0 {
                    assert(route_valid(
                        old(self).map@,
                        old(self).orders@,
                        result@[0]@,
                        origin.name@,
                        dest.name@,
                    ));
                    reveal(crate::model::has_convoy_path);
                    let route0 = result@[0]@;
                    let qi = choose|qc: Seq<int>|
                        crate::model::is_water_chain(
                            old(self).map@,
                            qc,
                            origin.name@,
                            dest.name@,
                        ) && qc.len() == route0.len() && (forall|t: int|
                            0 <= t < qc.len() ==> route0[t] == old(self).map@[#[trigger] qc[t]].province);
                    assert(crate::model::chain_convoyed(
                        old(self).map@,
                        old(self).orders@,
                        qi,
                        origin.name@,
                        dest.name@,
                    )) by {
                        assert forall|u: int| 1 <= u < qi.len() implies exists|j: int|
                            0 <= j < old(self).orders@.len() && crate::model::is_succ_convoy(
                                #[trigger] old(self).orders@[j],
                                old(self).map@[#[trigger] qi[u]].province.name@,
                                origin.name@,
                                dest.name@,
                            ) by {
                            assert(route0[u] == old(self).map@[qi[u]].province);
                            let j = choose|j: int|
                                0 <= j < old(self).orders@.len() && crate::model::is_succ_convoy(
                                    #[trigger] old(self).orders@[j],
                                    route0[u].name@,
                                    origin.name@,
                                    dest.name@,
                                );
                            assert(crate::model::is_succ_convoy(
                                old(self).orders@[j],
                                old(self).map@[qi[u]].province.name@,
                                origin.name@,
                                dest.name@,
                            ));
                        }
                    }
                    assert(crate::model::has_convoy_path(
                        old(self).map@,
                        old(self).orders@,
                        origin.name@,
                        dest.name@,
                    ));
                }
            }
        }
        Ok(result)
    }

    /// Hold strength of a region: 0 when empty or successfully vacated;
    /// otherwise — standing still or failing to leave — 1 plus its
    /// successful hold supports.
    fn hold_strength(&mut self, province: &Province, fuel: u64) -> (r: Result<u128, EngineError>)
        requires
            old(self).wf(),
        ensures
            engine_step(*old(self), *final(self)),
            hold_inputs_resolved(old(self).orders@, province.name@) ==> *final(self) == *old(self) && (
            r matches Ok(v) ==> v as int == crate::model::spec_hold_strength(
                old(self).map@,
                old(self).orders@,
                province.name@,
            )),
            hold_inputs_resolved(old(self).orders@, province.name@) && fuel >= 1 ==> r is Ok,
        decreases fuel, 0int,
    {
        proof {
            lemma_engine_step_refl(*self);
        }
        if fuel == 0 {
            return Err(EngineError::DepthLimit);
        }
        let ghost settled = hold_inputs_resolved(old(self).orders@, province.name@);
        let unit = self.get_unit(province);
        if unit.is_none() {
            return Ok(0);
        }
        match self.find_move_at(province) {
            Some(midx) => {
                // The unit is ordered away: a successful move leaves the
                // region empty; a failed one defends it like any other.
                let rb = match self.resolve(midx, fuel - 1) {
                    Ok(b) => b,
                    Err(e) => {
                        proof {
                            if settled {
                                assert(old(self).orders@[midx as int].state is Resolved);
                                assert(false);
                            }
                        }
                        return Err(e);
                    },
                };
                proof {
                    if settled {
                        assert(old(self).orders@[midx as int].state is Resolved);
                        assert(*self == *old(self));
                        assert(rb == old(self).orders@[midx as int].resolution);
                    }
                }
                if rb {
                    return Ok(0);
                }
            },
            None => {},
        }
        let mut count: u128 = 1;
        let nord = self.orders.len();
        let mut oi: usize = 0;
        while oi < nord
            invariant
                engine_step(*old(self), *self),
                nord == self.orders@.len(),
                oi <= nord,
                fuel >= 1,
                count <= 1 + oi as u128,
                settled == hold_inputs_resolved(old(self).orders@, province.name@),
                settled ==> *self == *old(self) && !(crate::model::has_move_at(
                    old(self).orders@,
                    province.name@,
                ) && old(self).orders@[crate::model::move_at_index(
                    old(self).orders@,
                    province.name@,
                )].resolution) && count as int == 1 + crate::model::count_support_hold(
                    old(self).orders@,
                    province.name@,
                    oi as int,
                ),
            decreases nord - oi,
        {
            let is_sh = {
                let op = &self.orders[oi];
                match &op.action {
                    Action::SupportHold { to } => to == province,
                    _ => false,
                }
            };
            if is_sh {
                let ghost pre = *self;
                let rb = match self.resolve(oi, fuel - 1) {
                    Ok(b) => b,
                    Err(e) => {
                        proof {
                            lemma_engine_step_trans(*old(self), pre, *self);
                            if settled {
                                assert(old(self).orders@[oi as int].state is Resolved);
                                assert(false);
                            }
                        }
                        return Err(e);
                    },
                };
                proof {
                    lemma_engine_step_trans(*old(self), pre, *self);
                    if settled {
                        assert(old(self).orders@[oi as int].state is Resolved);
                        assert(*self == *old(self));
                        assert(rb == old(self).orders@[oi as int].resolution);
                    }
                }
                if rb {
                    count = count + 1;
                }
            }
            proof {
                if settled {
                    assert(crate::model::is_succ_support_hold(
                        old(self).orders@[oi as int],
                        province.name@,
                    ) == (is_sh && old(self).orders@[oi as int].resolution));
                }
            }
            oi = oi + 1;
        }
        proof {
            if settled {
                crate::model::lemma_move_at_index_props(old(self).orders@, province.name@);
            }
        }
        Ok(count)
    }

    /// Attack strength of the move ordered at `province`: 0 for a convoyed
    /// move with no valid route and for an attack on the mover's own power,
    /// else 1 plus the successful supports the defender may not veto.  Once
    /// every consulted order is settled the value is exactly the model's,
    /// convoyed or not, and a value is owed.
    fn attack_strength(&mut self, province: &Province, fuel: u64) -> (r: Result<u128, EngineError>)
        requires
            old(self).wf(),
            crate::model::has_move_at(old(self).orders@, province.name@),
        ensures
            engine_step(*old(self), *final(self)),
            attack_inputs_resolved(old(self).map@, old(self).orders@, province.name@) ==> *final(self) == *old(self) && (
            r matches Ok(v) ==> v as int == crate::model::spec_attack_strength(
                old(self).map@,
                old(self).orders@,
                province.name@,
            )),
            attack_inputs_resolved(old(self).map@, old(self).orders@, province.name@) && fuel >= 2 ==> r is Ok,
        decreases fuel, 0int,
    {
        proof {
            reveal(crate::model::spec_attack_strength);
            lemma_engine_step_refl(*self);
            crate::model::lemma_move_at_index_props(self.orders@, province.name@);
        }
        if fuel == 0 {
            return Err(EngineError::DepthLimit);
        }
        let ghost settled = attack_inputs_resolved(old(self).map@, old(self).orders@, province.name@);
        let midx = match self.find_move_at(province) {
            Some(m) => m,
            None => {
                proof {
                    assert(false);
                }
                0
            },
        };
        let (dest, convoyed) = match &self.orders[midx].action {
            Action::Move { to, convoyed } => (to.clone(), *convoyed),
            _ => {
                proof {
                    assert(false);
                }
                (province.clone(), false)
            },
        };
        let owner = self.orders[midx].owner.clone();

        // A convoyed move with no valid route has no strength at all.
        if convoyed {
            proof {
                if settled {
                    assert(convoys_resolved(old(self).orders@, province.name@, dest.name@));
                    assert(crate::model::unique_regions(old(self).map@));
                }
            }
            let ghost pre = *self;
            let ps = match self.convoy_paths(midx, fuel - 1) {
                Ok(p) => p,
                Err(e) => {
                    proof {
                        lemma_engine_step_trans(*old(self), pre, *self);
                        if settled && fuel >= 2 {
                            assert(false);
                        }
                    }
                    return Err(e);
                },
            };
            proof {
                lemma_engine_step_trans(*old(self), pre, *self);
            }
            if ps.is_empty() {
                proof {
                    if settled {
                        assert(!crate::model::has_convoy_path(
                            old(self).map@,
                            old(self).orders@,
                            province.name@,
                            dest.name@,
                        ));
                    }
                }
                return Ok(0);
            }
            proof {
                if settled {
                    assert(crate::model::has_convoy_path(
                        old(self).map@,
                        old(self).orders@,
                        province.name@,
                        dest.name@,
                    ));
                }
            }
        }

        // Has the destination's unit moved away?  A move straight back at us
        // is the head-to-head case and is not resolved here.
        let mut vidx: Option<usize> = None;
        let nord = self.orders.len();
        let mut oi: usize = 0;
        while oi < nord
            invariant
                engine_step(*old(self), *self),
                nord == self.orders@.len(),
                oi <= nord,
                vidx matches Some(v) ==> (v as int) < nord as int && v as int
                    == crate::model::vacating_index(self.orders@, dest.name@, province.name@),
                vidx is None ==> forall|j: int|
                    0 <= j < oi ==> !crate::model::is_vacating(
                        #[trigger] self.orders@[j],
                        dest.name@,
                        province.name@,
                    ),
            decreases nord - oi,
        {
            let is_vac = {
                let op = &self.orders[oi];
                let act_ok = match &op.action {
                    Action::Move { to, .. } => !(to == province),
                    _ => false,
                };
                act_ok && &op.province == &dest
            };
            if is_vac && vidx.is_none() {
                proof {
                    crate::model::lemma_vacating_index_scan(
                        self.orders@,
                        dest.name@,
                        province.name@,
                        0,
                        oi as int,
                    );
                }
                vidx = Some(oi);
            }
            oi = oi + 1;
        }
        proof {
            if vidx is None {
                crate::model::lemma_vacating_index_scan(
                    self.orders@,
                    dest.name@,
                    province.name@,
                    0,
                    nord as int,
                );
            }
        }
        let moved_away = match vidx {
            Some(v) => {
                let ghost pre = *self;
                let rb = match self.resolve(v, fuel - 1) {
                    Ok(b) => b,
                    Err(e) => {
                        proof {
                            lemma_engine_step_trans(*old(self), pre, *self);
                            if settled {
                                assert(old(self).orders@[v as int].state is Resolved);
                                assert(false);
                            }
                        }
                        return Err(e);
                    },
                };
                proof {
                    lemma_engine_step_trans(*old(self), pre, *self);
                    if settled {
                        assert(old(self).orders@[v as int].state is Resolved);
                        assert(*self == *old(self));
                        assert(rb == old(self).orders@[v as int].resolution);
                    }
                }
                rb
            },
            None => false,
        };

        // The power being attacked, if any remains at the destination.
        let attacked_power: Option<Power> = if moved_away {
            None
        } else {
            match self.get_unit(&dest) {
                Some(u) => Some(u.owner),
                None => None,
            }
        };
        proof {
            if settled {
                assert(attacked_power == crate::model::spec_attacked_power(
                    old(self).map@,
                    old(self).orders@,
                    province.name@,
                    dest.name@,
                ));
            }
        }

        // Attacking one's own power never works.
        let self_attack = match &attacked_power {
            Some(pw) => pw == &owner,
            None => false,
        };
        if self_attack {
            return Ok(0);
        }

        // 1 plus each successful support of this move, except those owned by
        // the defender itself.
        let mut count: u128 = 1;
        let mut oi2: usize = 0;
        while oi2 < nord
            invariant
                engine_step(*old(self), *self),
                nord == self.orders@.len(),
                oi2 <= nord,
                fuel >= 1,
                count <= 1 + oi2 as u128,
                midx as int == crate::model::move_at_index(old(self).orders@, province.name@),
                midx < nord,
                dest == old(self).orders@[midx as int].action->Move_to,
                settled == attack_inputs_resolved(old(self).map@, old(self).orders@, province.name@),
                crate::model::has_move_at(old(self).orders@, province.name@),
                settled ==> *self == *old(self) && attacked_power
                    == crate::model::spec_attacked_power(
                    old(self).map@,
                    old(self).orders@,
                    province.name@,
                    dest.name@,
                ) && count as int == 1 + crate::model::count_attack_support(
                    old(self).orders@,
                    province.name@,
                    dest.name@,
                    attacked_power,
                    oi2 as int,
                ),
            decreases nord - oi2,
        {
            let is_support = {
                let op = &self.orders[oi2];
                match &op.action {
                    Action::SupportMove { from, to } => from == province && *to == dest,
                    _ => false,
                }
            };
            let usable = if is_support {
                let o_owner = self.orders[oi2].owner.clone();
                match &attacked_power {
                    Some(pw) => !(pw == &o_owner),
                    None => true,
                }
            } else {
                false
            };
            if usable {
                let ghost pre = *self;
                let rb = match self.resolve(oi2, fuel - 1) {
                    Ok(b) => b,
                    Err(e) => {
                        proof {
                            lemma_engine_step_trans(*old(self), pre, *self);
                            if settled {
                                assert(old(self).orders@[oi2 as int].state is Resolved);
                                assert(false);
                            }
                        }
                        return Err(e);
                    },
                };
                proof {
                    lemma_engine_step_trans(*old(self), pre, *self);
                    if settled {
                        assert(old(self).orders@[oi2 as int].state is Resolved);
                        assert(*self == *old(self));
                        assert(rb == old(self).orders@[oi2 as int].resolution);
                    }
                }
                if rb {
                    count = count + 1;
                }
            }
            proof {
                if settled {
                    assert(crate::model::is_succ_attack_support(
                        old(self).orders@[oi2 as int],
                        province.name@,
                        dest.name@,
                        attacked_power,
                    ) == (usable && old(self).orders@[oi2 as int].resolution));
                }
            }
            oi2 = oi2 + 1;
        }
        Ok(count)
    }

    /// Defend strength of the move at `province` in a head-to-head battle: 1
    /// plus every successful support of it, with no power exclusion.
    fn defend_strength(&mut self, province: &Province, fuel: u64) -> (r: Result<u128, EngineError>)
        requires
            old(self).wf(),
            crate::model::has_move_at(old(self).orders@, province.name@),
        ensures
            engine_step(*old(self), *final(self)),
            defend_inputs_resolved(old(self).orders@, province.name@) ==> *final(self) == *old(self) && (
            r matches Ok(v) ==> v as int == crate::model::spec_defend_strength(
                old(self).map@,
                old(self).orders@,
                province.name@,
            )),
            defend_inputs_resolved(old(self).orders@, province.name@) && fuel >= 1 ==> r is Ok,
        decreases fuel, 0int,
    {
        proof {
            lemma_engine_step_refl(*self);
            crate::model::lemma_move_at_index_props(self.orders@, province.name@);
        }
        if fuel == 0 {
            return Err(EngineError::DepthLimit);
        }
        let midx = match self.find_move_at(province) {
            Some(m) => m,
            None => {
                proof {
                    assert(false);
                }
                0
            },
        };
        let dest = match &self.orders[midx].action {
            Action::Move { to, .. } => to.clone(),
            _ => {
                proof {
                    assert(false);
                }
                province.clone()
            },
        };
        let mut count: u128 = 1;
        let nord = self.orders.len();
        let mut oi: usize = 0;
        while oi < nord
            invariant
                engine_step(*old(self), *self),
                nord == self.orders@.len(),
                oi <= nord,
                fuel >= 1,
                count <= 1 + oi as u128,
                midx as int == crate::model::move_at_index(old(self).orders@, province.name@),
                midx < nord,
                dest == old(self).orders@[midx as int].action->Move_to,
                defend_inputs_resolved(old(self).orders@, province.name@) ==> *self == *old(self)
                    && count as int == 1 + crate::model::count_support_move(
                    old(self).orders@,
                    province.name@,
                    dest.name@,
                    oi as int,
                ),
            decreases nord - oi,
        {
            let ghost settled = defend_inputs_resolved(old(self).orders@, province.name@);
            let is_support = {
                let op = &self.orders[oi];
                match &op.action {
                    Action::SupportMove { from, to } => from == province && *to == dest,
                    _ => false,
                }
            };
            if is_support {
                let ghost pre = *self;
                let rb = match self.resolve(oi, fuel - 1) {
                    Ok(b) => b,
                    Err(e) => {
                        proof {
                            lemma_engine_step_trans(*old(self), pre, *self);
                            if settled {
                                assert(old(self).orders@[oi as int].state is Resolved);
                                assert(false);
                            }
                        }
                        return Err(e);
                    },
                };
                proof {
                    lemma_engine_step_trans(*old(self), pre, *self);
                    if settled {
                        assert(old(self).orders@[oi as int].state is Resolved);
                        assert(*self == *old(self));
                        assert(rb == old(self).orders@[oi as int].resolution);
                    }
                }
                if rb {
                    count = count + 1;
                }
            }
            proof {
                if settled {
                    assert(crate::model::is_succ_support_move(
                        old(self).orders@[oi as int],
                        province.name@,
                        dest.name@,
                    ) == (is_support && old(self).orders@[oi as int].resolution));
                }
            }
            oi = oi + 1;
        }
        Ok(count)
    }

    /// Prevent strength of the move at `province` against third parties
    /// entering its destination: 0 for a convoyed move with no route and for
    /// a head-to-head battle it loses, else 1 plus its successful supports.
    fn prevent_strength(&mut self, province: &Province, fuel: u64) -> (r: Result<
        u128,
        EngineError,
    >)
        requires
            old(self).wf(),
            crate::model::has_move_at(old(self).orders@, province.name@),
        ensures
            engine_step(*old(self), *final(self)),
            prevent_inputs_resolved(old(self).map@, old(self).orders@, province.name@) ==> *final(self) == *old(self) && (
            r matches Ok(v) ==> v as int == crate::model::spec_prevent_strength(
                old(self).map@,
                old(self).orders@,
                province.name@,
            )),
            prevent_inputs_resolved(old(self).map@, old(self).orders@, province.name@) && fuel >= 2 ==> r is Ok,
        decreases fuel, 0int,
    {
        proof {
            reveal(crate::model::spec_prevent_strength);
            lemma_engine_step_refl(*self);
            crate::model::lemma_move_at_index_props(self.orders@, province.name@);
        }
        if fuel == 0 {
            return Err(EngineError::DepthLimit);
        }
        let ghost settled = prevent_inputs_resolved(old(self).map@, old(self).orders@, province.name@);
        let midx = match self.find_move_at(province) {
            Some(m) => m,
            None => {
                proof {
                    assert(false);
                }
                0
            },
        };
        let (dest, convoyed) = match &self.orders[midx].action {
            Action::Move { to, convoyed } => (to.clone(), *convoyed),
            _ => {
                proof {
                    assert(false);
                }
                (province.clone(), false)
            },
        };

        if convoyed {
            proof {
                if settled {
                    assert(convoys_resolved(old(self).orders@, province.name@, dest.name@));
                    assert(crate::model::unique_regions(old(self).map@));
                }
            }
            let ghost pre = *self;
            let ps = match self.convoy_paths(midx, fuel - 1) {
                Ok(p) => p,
                Err(e) => {
                    proof {
                        lemma_engine_step_trans(*old(self), pre, *self);
                        if settled && fuel >= 2 {
                            assert(false);
                        }
                    }
                    return Err(e);
                },
            };
            proof {
                lemma_engine_step_trans(*old(self), pre, *self);
            }
            if ps.is_empty() {
                proof {
                    if settled {
                        assert(!crate::model::has_convoy_path(
                            old(self).map@,
                            old(self).orders@,
                            province.name@,
                            dest.name@,
                        ));
                    }
                }
                return Ok(0);
            }
            proof {
                if settled {
                    assert(crate::model::has_convoy_path(
                        old(self).map@,
                        old(self).orders@,
                        province.name@,
                        dest.name@,
                    ));
                }
            }
        }

        // Losing a head-to-head battle for the destination forfeits any
        // claim on it.
        let mut hidx: Option<usize> = None;
        let nord = self.orders.len();
        let mut oi: usize = 0;
        while oi < nord
            invariant
                engine_step(*old(self), *self),
                nord == self.orders@.len(),
                oi <= nord,
                hidx matches Some(v) ==> (v as int) < nord as int && v as int
                    == crate::model::move_between_index(self.orders@, dest.name@, province.name@),
                hidx is None ==> forall|j: int|
                    0 <= j < oi ==> !crate::model::is_move_between(
                        #[trigger] self.orders@[j],
                        dest.name@,
                        province.name@,
                    ),
            decreases nord - oi,
        {
            let is_h2h = {
                let op = &self.orders[oi];
                let act_ok = match &op.action {
                    Action::Move { to, .. } => to == province,
                    _ => false,
                };
                act_ok && &op.province == &dest
            };
            if is_h2h && hidx.is_none() {
                proof {
                    crate::model::lemma_move_between_index_scan(
                        self.orders@,
                        dest.name@,
                        province.name@,
                        0,
                        oi as int,
                    );
                }
                hidx = Some(oi);
            }
            oi = oi + 1;
        }
        proof {
            if hidx is None {
                crate::model::lemma_move_between_index_scan(
                    self.orders@,
                    dest.name@,
                    province.name@,
                    0,
                    nord as int,
                );
            }
        }
        match hidx {
            Some(h) => {
                let ghost pre = *self;
                let rb = match self.resolve(h, fuel - 1) {
                    Ok(b) => b,
                    Err(e) => {
                        proof {
                            lemma_engine_step_trans(*old(self), pre, *self);
                            if settled {
                                assert(old(self).orders@[h as int].state is Resolved);
                                assert(false);
                            }
                        }
                        return Err(e);
                    },
                };
                proof {
                    lemma_engine_step_trans(*old(self), pre, *self);
                    if settled {
                        assert(old(self).orders@[h as int].state is Resolved);
                        assert(*self == *old(self));
                        assert(rb == old(self).orders@[h as int].resolution);
                    }
                }
                if rb {
                    return Ok(0);
                }
            },
            None => {},
        }

        let mut count: u128 = 1;
        let mut oi2: usize = 0;
        while oi2 < nord
            invariant
                engine_step(*old(self), *self),
                nord == self.orders@.len(),
                oi2 <= nord,
                fuel >= 1,
                count <= 1 + oi2 as u128,
                midx as int == crate::model::move_at_index(old(self).orders@, province.name@),
                midx < nord,
                dest == old(self).orders@[midx as int].action->Move_to,
                settled == prevent_inputs_resolved(old(self).map@, old(self).orders@, province.name@),
                crate::model::has_move_at(old(self).orders@, province.name@),
                settled ==> *self == *old(self) && !(crate::model::move_between_index(
                    old(self).orders@,
                    dest.name@,
                    province.name@,
                ) < old(self).orders@.len() && old(self).orders@[crate::model::move_between_index(
                    old(self).orders@,
                    dest.name@,
                    province.name@,
                )].resolution) && count as int == 1 + crate::model::count_support_move(
                    old(self).orders@,
                    province.name@,
                    dest.name@,
                    oi2 as int,
                ),
            decreases nord - oi2,
        {
            let is_support = {
                let op = &self.orders[oi2];
                match &op.action {
                    Action::SupportMove { from, to } => from == province && *to == dest,
                    _ => false,
                }
            };
            if is_support {
                let ghost pre = *self;
                let rb = match self.resolve(oi2, fuel - 1) {
                    Ok(b) => b,
                    Err(e) => {
                        proof {
                            lemma_engine_step_trans(*old(self), pre, *self);
                            if settled {
                                assert(old(self).orders@[oi2 as int].state is Resolved);
                                assert(false);
                            }
                        }
                        return Err(e);
                    },
                };
                proof {
                    lemma_engine_step_trans(*old(self), pre, *self);
                    if settled {
                        assert(old(self).orders@[oi2 as int].state is Resolved);
                        assert(*self == *old(self));
                        assert(rb == old(self).orders@[oi2 as int].resolution);
                    }
                }
                if rb {
                    count = count + 1;
                }
            }
            proof {
                if settled {
                    assert(crate::model::is_succ_support_move(
                        old(self).orders@[oi2 as int],
                        province.name@,
                        dest.name@,
                    ) == (is_support && old(self).orders@[oi2 as int].resolution));
                }
            }
            oi2 = oi2 + 1;
        }
        Ok(count)
    }

    /// Whether no two regions of the board share a province name.
    fn map_names_unique(&self) -> (r: bool)
        ensures
            r == crate::model::unique_regions(self.map@),
    {
        let n = self.map.len();
        let mut i: usize = 0;
        while i < n
            invariant
                n == self.map@.len(),
                i <= n,
                forall|a: int, b: int|
                    #![trigger self.map@[a].province.name@, self.map@[b].province.name@]
                    0 <= a < b < self.map@.len() && a < i ==> self.map@[a].province.name@
                        != self.map@[b].province.name@,
            decreases n - i,
        {
            let mut j: usize = i + 1;
            while j < n
                invariant
                    n == self.map@.len(),
                    i < n,
                    i < j <= n,
                    forall|b: int|
                        i < b < j ==> self.map@[i as int].province.name@ != (
                        #[trigger] self.map@[b].province.name@),
                decreases n - j,
            {
                if &self.map[i].province == &self.map[j].province {
                    return false;
                }
                j = j + 1;
            }
            i = i + 1;
        }
        true
    }

    /// First provisional dislodgement recorded for this province, if any.
    fn dis_find(dis: &Vec<(Province, crate::types::Unit)>, p: &Province) -> (r: Option<usize>)
        ensures
            match r {
                Some(d) => d as int == crate::model::dis_index(dis@, p.name@) && (d as int)
                    < dis@.len(),
                None => crate::model::dis_index(dis@, p.name@) == dis@.len(),
            },
    {
        let n = dis.len();
        let mut i: usize = 0;
        while i < n
            invariant
                n == dis@.len(),
                i <= n,
                forall|j: int| 0 <= j < i ==> (#[trigger] dis@[j].0.name@) != p.name@,
            decreases n - i,
        {
            if &dis[i].0 == p {
                proof {
                    crate::model::lemma_dis_index_scan(dis@, p.name@, 0, i as int);
                }
                return Some(i);
            }
            i = i + 1;
        }
        proof {
            crate::model::lemma_dis_index_scan(dis@, p.name@, 0, n as int);
        }
        None
    }

    /// Commits the resolved orders to the board: every successful move
    /// relocates its unit (reading sources from the pre-pass board), anything
    /// it landed on is recorded as dislodged unless that unit itself moved
    /// away, and origins that stayed empty are cleared.  A successful move
    /// naming a province that is not on the board is a configuration error
    /// of the map; the committed-state model makes its treatment explicit —
    /// such a move relocates nothing — instead of failing inside the
    /// verified engine.
    fn apply_resolved(&mut self)
        requires
            old(self).wf(),
        ensures
            final(self).wf(),
            ({
                let sa = crate::model::spec_apply_resolved(
                    old(self).map@,
                    old(self).phase,
                    old(self).orders@,
                );
                &&& final(self).map@ == sa.0
                &&& final(self).dislodged@ == old(self).dislodged@ + sa.1
            }),
            final(self).orders == old(self).orders,
            final(self).retreats == old(self).retreats,
            final(self).adjusts == old(self).adjusts,
            final(self).dependencies == old(self).dependencies,
            final(self).phase == old(self).phase,
            final(self).year == old(self).year,
    {
        let ghost map0 = self.map@;

        // Snapshot each region's unit and owner: relocation reads its
        // sources from the board as it stood before any move.
        let nmap = self.map.len();
        let mut old_units: Vec<(Option<crate::types::Unit>, Option<Power>)> = Vec::new();
        let mut mi: usize = 0;
        while mi < nmap
            invariant
                nmap == self.map@.len(),
                mi <= nmap,
                *self == *old(self),
                old_units@.len() == mi as int,
                forall|j: int|
                    0 <= j < mi ==> (#[trigger] old_units@[j]).0 == self.map@[j].unit
                        && old_units@[j].1 == self.map@[j].owner,
            decreases nmap - mi,
        {
            let u = match &self.map[mi].unit {
                Some(x) => Some(x.clone()),
                None => None,
            };
            let ow = match &self.map[mi].owner {
                Some(x) => Some(x.clone()),
                None => None,
            };
            old_units.push((u, ow));
            mi = mi + 1;
        }

        // Relocation pass, in submission order.
        let mut dis: Vec<(Province, crate::types::Unit)> = Vec::new();
        let mut moved: Vec<Province> = Vec::new();
        let nord = self.orders.len();
        let mut oi: usize = 0;
        while oi < nord
            invariant
                self.orders == old(self).orders,
                nord == self.orders@.len(),
                self.retreats == old(self).retreats,
                self.adjusts == old(self).adjusts,
                self.dependencies == old(self).dependencies,
                self.dislodged == old(self).dislodged,
                self.phase == old(self).phase,
                self.year == old(self).year,
                self.wf(),
                nmap == map0.len(),
                map0 == old(self).map@,
                old_units@.len() == nmap as int,
                forall|j: int|
                    0 <= j < nmap ==> (#[trigger] old_units@[j]).0 == map0[j].unit
                        && old_units@[j].1 == map0[j].owner,
                oi <= nord,
                self.map@.len() == map0.len(),
                self.map@ == crate::model::apply_moves(
                    map0,
                    old(self).phase,
                    old(self).orders@,
                    oi as int,
                ).0,
                dis@ == crate::model::apply_moves(
                    map0,
                    old(self).phase,
                    old(self).orders@,
                    oi as int,
                ).1,
                moved@ == crate::model::apply_moves(
                    map0,
                    old(self).phase,
                    old(self).orders@,
                    oi as int,
                ).2,
            decreases nord - oi,
        {
            let ghost st = (self.map@, dis@, moved@);
            let ghost ord = self.orders@[oi as int];
            let resol = self.orders[oi].resolution;
            let mut is_mv = false;
            let to = match &self.orders[oi].action {
                Action::Move { to, .. } => {
                    is_mv = true;
                    to.clone()
                },
                _ => Province::from(""),
            };
            if resol && is_mv {
                let oprov = self.orders[oi].province.clone();
                let fi = crate::board::region_pos(&self.map, &oprov);
                let ti = crate::board::region_pos(&self.map, &to);
                if fi < self.map.len() && ti < self.map.len() {
                    let ghost cur = self.map@;
                    match &self.map[ti].unit {
                        Some(u) => {
                            dis.push((to.clone(), u.clone()));
                        },
                        None => {},
                    }
                    let src_unit = match &old_units[fi].0 {
                        Some(u) => Some(u.clone()),
                        None => None,
                    };
                    self.map[ti].unit = src_unit;
                    let is_fall = match self.phase {
                        crate::types::Phase::FallDiplomacy => true,
                        _ => false,
                    };
                    if !self.map[ti].sc || is_fall {
                        let src_owner = match &old_units[fi].1 {
                            Some(x) => Some(x.clone()),
                            None => None,
                        };
                        self.map[ti].owner = src_owner;
                    }
                    let has_coast = match to.coast {
                        Some(_) => true,
                        None => false,
                    };
                    if has_coast {
                        let newc = match self.map[ti].province.coast {
                            Some(_) => to.coast,
                            None => None,
                        };
                        self.map[ti].province.coast = newc;
                    }
                    moved.push(oprov);
                    proof {
                        let stepped = crate::model::apply_move_step(
                            map0,
                            old(self).phase,
                            st,
                            ord,
                        );
                        assert(self.map@[ti as int] == crate::model::region_after_move(
                            cur[ti as int],
                            map0[fi as int].unit,
                            map0[fi as int].owner,
                            old(self).phase,
                            ord.action->Move_to,
                        ));
                        assert(self.map@ =~= stepped.0);
                        assert(dis@ =~= stepped.1);
                        assert(moved@ =~= stepped.2);
                    }
                }
            }
            proof {
                assert(crate::model::apply_moves(
                    map0,
                    old(self).phase,
                    old(self).orders@,
                    oi + 1,
                ) == crate::model::apply_move_step(map0, old(self).phase, st, ord));
            }
            oi = oi + 1;
        }

        // Cleanup pass over the board.
        let ghost m1 = self.map@;
        let ghost disv = dis@;
        let ghost movedv = moved@;
        let mut ri: usize = 0;
        while ri < nmap
            invariant
                self.orders == old(self).orders,
                self.retreats == old(self).retreats,
                self.adjusts == old(self).adjusts,
                self.dependencies == old(self).dependencies,
                self.phase == old(self).phase,
                self.year == old(self).year,
                self.wf(),
                nmap == m1.len(),
                disv == dis@,
                movedv == moved@,
                self.map@.len() == m1.len(),
                ri <= nmap,
                forall|j: int| ri <= j < nmap ==> (#[trigger] self.map@[j]) == m1[j],
                forall|j: int|
                    0 <= j < ri ==> (#[trigger] self.map@[j]) == crate::model::cleanup_map(
                        m1,
                        disv,
                        movedv,
                    )[j],
                self.dislodged@ == old(self).dislodged@ + crate::model::new_dislodgements(
                    m1,
                    disv,
                    movedv,
                    ri as int,
                ),
            decreases nmap - ri,
        {
            let name = self.map[ri].province.clone();
            let d = Self::dis_find(&dis, &name);
            let mv = crate::board::prov_list_has(&moved, &name);
            match d {
                Some(di) => {
                    if !mv {
                        // Dislodged and did not escape: report it.
                        let pair = (dis[di].0.clone(), dis[di].1.clone());
                        self.dislodged.push(pair);
                    }
                },
                None => {
                    if mv {
                        // Moved away and nothing backfilled: now empty.
                        self.map[ri].unit = None;
                    }
                },
            }
            proof {
                assert(crate::model::new_dislodgements(m1, disv, movedv, ri + 1)
                    == if crate::model::dis_index(disv, m1[ri as int].province.name@) < disv.len()
                    && !crate::model::prov_list_contains(movedv, m1[ri as int].province.name@) {
                    crate::model::new_dislodgements(m1, disv, movedv, ri as int).push(
                        disv[crate::model::dis_index(disv, m1[ri as int].province.name@)],
                    )
                } else {
                    crate::model::new_dislodgements(m1, disv, movedv, ri as int)
                });
                assert(self.map@[ri as int] == crate::model::cleanup_map(m1, disv, movedv)[
                ri as int]);
            }
            ri = ri + 1;
        }
        proof {
            assert(self.map@ =~= crate::model::cleanup_map(m1, disv, movedv));
        }
    }

    /// Runs the full engine over the submitted orders: every order is
    /// resolved to a final verdict, the verdicts are certified against the
    /// adjudication equations (a verdict may deviate only as a convoy
    /// forced down by the backup rule), successful moves are committed to
    /// the board, the phase advances, the order set is cleared, and the
    /// dislodged-unit list is returned.  A paradox outside the backup
    /// rule's reach, an order the engine cannot finalize, or a verdict the
    /// certification rejects aborts the turn with the board untouched.
    pub fn apply_orders(&mut self) -> (r: Result<Vec<(Province, crate::types::Unit)>, EngineError>)
        requires
            old(self).wf(),
            old(self).year < i32::MAX,
        ensures
            final(self).wf(),
            r is Err ==> old(self).same_board(*final(self)),
            r is Ok ==> exists|rs: Seq<Order>|
                #[trigger] applied_with(*old(self), *final(self), (r->Ok_0)@, rs),
            r is Ok ==> final(self).orders@.len() == 0,
            r is Ok ==> final(self).phase == crate::model::spec_next_phase(
                old(self).phase,
                final(self).dislodged@.len() == 0,
            ),
            r is Ok ==> final(self).year == old(self).year + (if old(self).phase is Builds {
                1int
            } else {
                0int
            }),
            ((forall|i: int|
                0 <= i < old(self).orders@.len() ==> (#[trigger] old(self).orders@[i].state)
                    is Resolved) && (crate::model::unique_regions(old(self).map@)
                ==> forall|i: int|
                    0 <= i < old(self).orders@.len() ==> #[trigger] verdict_certified(
                        old(self).map@,
                        old(self).orders@,
                        i,
                    ))) ==> r is Ok,
            (forall|i: int|
                0 <= i < old(self).orders@.len() ==> (#[trigger] old(self).orders@[i].state)
                    is Resolved) ==> (r matches Ok(d) ==> applied_with(
                *old(self),
                *final(self),
                d@,
                old(self).orders@,
            )),
    {
        proof {
            lemma_engine_step_refl(*self);
        }
        let ghost allres = forall|i: int|
            0 <= i < old(self).orders@.len() ==> (#[trigger] old(self).orders@[i].state)
                is Resolved;
        // Resolve every order to a final verdict.
        let n = self.orders.len();
        let mut i: usize = 0;
        while i < n
            invariant
                engine_step(*old(self), *self),
                n == self.orders@.len(),
                i <= n,
                allres == (forall|t: int|
                    0 <= t < old(self).orders@.len() ==> (#[trigger] old(self).orders@[t].state)
                        is Resolved),
                allres ==> *self == *old(self),
            decreases n - i,
        {
            let ghost pre = *self;
            match self.resolve(i, u64::MAX) {
                Ok(_) => {},
                Err(e) => {
                    proof {
                        lemma_engine_step_trans(*old(self), pre, *self);
                        if allres {
                            assert(pre.orders@[i as int].state is Resolved);
                            assert(false);
                        }
                    }
                    return Err(e);
                },
            }
            proof {
                lemma_engine_step_trans(*old(self), pre, *self);
            }
            let done = match self.orders[i].state {
                OrderState::Resolved => true,
                _ => false,
            };
            if !done {
                proof {
                    if allres {
                        assert(*self == *old(self));
                        assert(false);
                    }
                }
                return Err(EngineError::Unresolved);
            }
            i = i + 1;
        }

        // A later resolution step may in principle disturb an earlier
        // verdict; make sure every order really ended final.
        let mut j: usize = 0;
        while j < n
            invariant
                engine_step(*old(self), *self),
                n == self.orders@.len(),
                j <= n,
                allres == (forall|t: int|
                    0 <= t < old(self).orders@.len() ==> (#[trigger] old(self).orders@[t].state)
                        is Resolved),
                allres ==> *self == *old(self),
                forall|t: int| 0 <= t < j ==> (#[trigger] self.orders@[t].state) is Resolved,
            decreases n - j,
        {
            let done = match self.orders[j].state {
                OrderState::Resolved => true,
                _ => false,
            };
            if !done {
                proof {
                    if allres {
                        assert(old(self).orders@[j as int].state is Resolved);
                        assert(false);
                    }
                }
                return Err(EngineError::Unresolved);
            }
            j = j + 1;
        }

        // Certify the verdicts against the adjudication equations: on a
        // board without duplicate names every equation input is now
        // settled, so each adjudication returns exactly the model's value.
        // A verdict may only deviate as a convoy forced down by the backup
        // rule; anything else means resolution failed to reach a lawful
        // fixed point and the turn is aborted.
        let uniq = self.map_names_unique();
        if uniq {
            let mut c: usize = 0;
            while c < n
                invariant
                    engine_step(*old(self), *self),
                    n == self.orders@.len(),
                    c <= n,
                    uniq == crate::model::unique_regions(old(self).map@),
                    uniq,
                    allres == (forall|t: int|
                        0 <= t < old(self).orders@.len() ==> (#[trigger] old(
                            self,
                        ).orders@[t].state) is Resolved),
                    allres ==> *self == *old(self),
                    forall|t: int| 0 <= t < n ==> (#[trigger] self.orders@[t].state) is Resolved,
                    forall|t: int|
                        0 <= t < c ==> #[trigger] verdict_certified(
                            old(self).map@,
                            self.orders@,
                            t,
                        ),
                decreases n - c,
            {
                proof {
                    lemma_all_resolved_settles(self.map@, self.orders@, c as int);
                }
                let ghost pre = *self;
                let v = match self.adjudicate(c, 8) {
                    Ok(b) => b,
                    Err(e) => {
                        proof {
                            lemma_engine_step_trans(*old(self), pre, *self);
                            assert(false);
                        }
                        return Err(e);
                    },
                };
                proof {
                    lemma_engine_step_trans(*old(self), pre, *self);
                    assert(*self == pre);
                    assert(v == crate::model::spec_adjudicate(
                        old(self).map@,
                        self.orders@,
                        c as int,
                    ));
                }
                let stored = self.orders[c].resolution;
                let szykman = {
                    let isconv = match &self.orders[c].action {
                        Action::Convoy { .. } => true,
                        _ => false,
                    };
                    isconv && !stored && v
                };
                if !(v == stored || szykman) {
                    proof {
                        if allres && (uniq ==> forall|t: int|
                            0 <= t < old(self).orders@.len() ==> #[trigger] verdict_certified(
                                old(self).map@,
                                old(self).orders@,
                                t,
                            )) {
                            assert(verdict_certified(old(self).map@, old(self).orders@, c as int));
                            assert(false);
                        }
                    }
                    return Err(EngineError::Unresolved);
                }
                proof {
                    assert(verdict_certified(old(self).map@, self.orders@, c as int));
                }
                c = c + 1;
            }
        }

        // Commit the successful moves.
        let ghost rs = self.orders@;
        self.apply_resolved();

        // Advance the phase.
        let no_dis = self.dislodged.is_empty();
        let next = match self.phase {
            crate::types::Phase::SpringDiplomacy => if no_dis {
                crate::types::Phase::FallDiplomacy
            } else {
                crate::types::Phase::SpringRetreats
            },
            crate::types::Phase::SpringRetreats => crate::types::Phase::FallDiplomacy,
            crate::types::Phase::FallDiplomacy => if no_dis {
                crate::types::Phase::Builds
            } else {
                crate::types::Phase::FallRetreats
            },
            crate::types::Phase::FallRetreats => crate::types::Phase::Builds,
            crate::types::Phase::Builds => {
                self.year = self.year + 1;
                crate::types::Phase::SpringDiplomacy
            },
        };
        self.phase = next;

        // The pass is over: clear the pass-scoped state, report the
        // dislodgements.
        self.orders = Vec::new();
        self.dependencies = Vec::new();
        let nd = self.dislodged.len();
        let mut out: Vec<(Province, crate::types::Unit)> = Vec::new();
        let mut k: usize = 0;
        while k < nd
            invariant
                nd == self.dislodged@.len(),
                k <= nd,
                out@ == self.dislodged@.subrange(0, k as int),
            decreases nd - k,
        {
            let pair = (self.dislodged[k].0.clone(), self.dislodged[k].1.clone());
            out.push(pair);
            proof {
                assert(out@ =~= self.dislodged@.subrange(0, k + 1));
            }
            k = k + 1;
        }
        proof {
            assert(self.dislodged@.subrange(0, nd as int) =~= self.dislodged@);
        }
        let res: Result<Vec<(Province, crate::types::Unit)>, EngineError> = Ok(out);
        proof {
            assert(applied_with(*old(self), *self, (res->Ok_0)@, rs));
            assert(exists|rs2: Seq<Order>|
                #[trigger] applied_with(*old(self), *self, (res->Ok_0)@, rs2));
        }
        res
    }

    /// Pops the dependency stack back down to `from`, setting every order it
    /// named back to Unresolved so it will be adjudicated afresh.
    fn reset_deps(&mut self, from: usize)
        requires
            old(self).wf(),
            from <= old(self).dependencies@.len(),
        ensures
            final(self).wf(),
            old(self).same_board(*final(self)),
            final(self).dependencies@ == old(self).dependencies@.subrange(0, from as int),
            final(self).orders@.len() == old(self).orders@.len(),
            forall|i: int|
                0 <= i < old(self).orders@.len() ==> (#[trigger] final(self).orders@[i]) == (
                if drained(old(self).dependencies@, from as int, i) {
                    order_with_state(old(self).orders@[i], OrderState::Unresolved)
                } else {
                    old(self).orders@[i]
                }),
    {
        while self.dependencies.len() > from
            invariant
                self.wf(),
                from <= self.dependencies@.len(),
                old(self).same_board(*self),
                self.dependencies@.len() <= old(self).dependencies@.len(),
                forall|k: int|
                    0 <= k < self.dependencies@.len() ==> (#[trigger] self.dependencies@[k])
                        == old(self).dependencies@[k],
                self.orders@.len() == old(self).orders@.len(),
                forall|i: int|
                    0 <= i < old(self).orders@.len() ==> (#[trigger] self.orders@[i]) == (
                    if drained(
                        old(self).dependencies@,
                        self.dependencies@.len() as int,
                        i,
                    ) {
                        order_with_state(old(self).orders@[i], OrderState::Unresolved)
                    } else {
                        old(self).orders@[i]
                    }),
            decreases self.dependencies@.len(),
        {
            let ghost pre = *self;
            let dep = match self.dependencies.pop() {
                Some(d) => d,
                None => {
                    // The stack is longer than `from`, so never empty here.
                    proof {
                        assert(false);
                    }
                    0
                },
            };
            self.orders[dep].state = OrderState::Unresolved;
            proof {
                let l = self.dependencies@.len() as int;
                assert(l == pre.dependencies@.len() - 1);
                assert(dep == pre.dependencies@[l]);
                assert(dep == old(self).dependencies@[l]);
                assert forall|i: int| 0 <= i < old(self).orders@.len() implies (
                #[trigger] self.orders@[i]) == (if drained(old(self).dependencies@, l, i) {
                    order_with_state(old(self).orders@[i], OrderState::Unresolved)
                } else {
                    old(self).orders@[i]
                }) by {
                    if i == dep as int {
                        assert(drained(old(self).dependencies@, l, i));
                        assert(pre.orders@[i].owner == old(self).orders@[i].owner
                            && pre.orders@[i].province == old(self).orders@[i].province
                            && pre.orders@[i].action == old(self).orders@[i].action
                            && pre.orders@[i].resolution == old(self).orders@[i].resolution
                            && pre.orders@[i].id == old(self).orders@[i].id);
                    } else {
                        assert(self.orders@[i] == pre.orders@[i]);
                        assert(drained(old(self).dependencies@, l, i) == drained(
                            old(self).dependencies@,
                            l + 1,
                            i,
                        )) by {
                            if drained(old(self).dependencies@, l, i) {
                                let k = choose|k: int|
                                    l <= k < old(self).dependencies@.len() && (
                                    #[trigger] old(self).dependencies@[k]) as int == i;
                                assert(k != l);
                                assert(l + 1 <= k < old(self).dependencies@.len()
                                    && old(self).dependencies@[k] as int == i);
                            }
                        }
                    }
                }
            }
        }
        proof {
            assert(self.dependencies@ =~= old(self).dependencies@.subrange(0, from as int));
        }
    }

    /// The tie-breaking rule for a genuine paradox: the orders named by the
    /// dependency stack above `from` are the implicated cycle.  A cycle of
    /// moves only is circular movement and every move succeeds; a cycle
    /// containing a convoy is a convoy paradox and every implicated convoy
    /// fails while the rest is recomputed; any other cycle has no defined
    /// outcome.
    fn backup_rule(&mut self, from: usize) -> (r: Result<(), EngineError>)
        requires
            old(self).wf(),
            from <= old(self).dependencies@.len(),
        ensures
            final(self).wf(),
            old(self).same_board(*final(self)),
            final(self).orders@.len() == old(self).orders@.len(),
            ({
                let deps = old(self).dependencies@;
                let orders = old(self).orders@;
                let only_moves = forall|k: int|
                    from <= k < deps.len() ==> (#[trigger] orders[deps[k] as int].action) is Move;
                let has_convoy = exists|k: int|
                    from <= k < deps.len() && (#[trigger] orders[deps[k] as int].action) is Convoy;
                if only_moves {
                    &&& r is Ok
                    &&& final(self).dependencies@ == deps.subrange(0, from as int)
                    &&& forall|i: int|
                        0 <= i < orders.len() ==> (#[trigger] final(self).orders@[i]) == (
                        if drained(deps, from as int, i) {
                            order_resolved(orders[i], true)
                        } else {
                            orders[i]
                        })
                } else if has_convoy {
                    &&& r is Ok
                    &&& final(self).dependencies@ == deps.subrange(0, from as int)
                    &&& forall|i: int|
                        0 <= i < orders.len() ==> (#[trigger] final(self).orders@[i]) == (
                        if drained(deps, from as int, i) {
                            if orders[i].action is Convoy {
                                order_resolved(orders[i], false)
                            } else {
                                order_with_state(orders[i], OrderState::Unresolved)
                            }
                        } else {
                            orders[i]
                        })
                } else {
                    &&& r == Err::<(), EngineError>(EngineError::UnknownParadox)
                    &&& *final(self) == *old(self)
                }
            }),
    {
        // Classify the implicated orders.
        let len = self.dependencies.len();
        let mut only_moves = true;
        let mut convoys = false;
        let mut k: usize = from;
        while k < len
            invariant
                self.wf(),
                *self == *old(self),
                from <= k <= len,
                len == self.dependencies@.len(),
                only_moves == forall|j: int|
                    from <= j < k ==> (#[trigger] self.orders@[self.dependencies@[j] as int].action)
                        is Move,
                convoys == exists|j: int|
                    from <= j < k && (#[trigger] self.orders@[self.dependencies@[j] as int].action)
                        is Convoy,
            decreases len - k,
        {
            let dep = self.dependencies[k];
            match self.orders[dep].action {
                Action::Move { .. } => {},
                Action::Convoy { .. } => {
                    only_moves = false;
                    convoys = true;
                },
                _ => {
                    only_moves = false;
                },
            }
            k = k + 1;
        }

        if !only_moves && !convoys {
            // A cycle that mixes supports or holds in: no rule covers it.
            return Err(EngineError::UnknownParadox);
        }

        // Commit the rule's verdict to every implicated order.
        while self.dependencies.len() > from
            invariant
                self.wf(),
                from <= self.dependencies@.len(),
                old(self).same_board(*self),
                self.dependencies@.len() <= old(self).dependencies@.len(),
                forall|j: int|
                    0 <= j < self.dependencies@.len() ==> (#[trigger] self.dependencies@[j])
                        == old(self).dependencies@[j],
                self.orders@.len() == old(self).orders@.len(),
                only_moves ==> forall|j: int|
                    from <= j < old(self).dependencies@.len() ==> (#[trigger] old(
                        self,
                    ).orders@[old(self).dependencies@[j] as int].action) is Move,
                only_moves ==> forall|i: int|
                    0 <= i < old(self).orders@.len() ==> (#[trigger] self.orders@[i]) == (
                    if drained(
                        old(self).dependencies@,
                        self.dependencies@.len() as int,
                        i,
                    ) {
                        order_resolved(old(self).orders@[i], true)
                    } else {
                        old(self).orders@[i]
                    }),
                !only_moves ==> forall|i: int|
                    0 <= i < old(self).orders@.len() ==> (#[trigger] self.orders@[i]) == (
                    if drained(
                        old(self).dependencies@,
                        self.dependencies@.len() as int,
                        i,
                    ) {
                        if old(self).orders@[i].action is Convoy {
                            order_resolved(old(self).orders@[i], false)
                        } else {
                            order_with_state(old(self).orders@[i], OrderState::Unresolved)
                        }
                    } else {
                        old(self).orders@[i]
                    }),
            decreases self.dependencies@.len(),
        {
            let ghost pre = *self;
            let dep = match self.dependencies.pop() {
                Some(d) => d,
                None => {
                    proof {
                        assert(false);
                    }
                    0
                },
            };
            if only_moves {
                // Circular movement: every move in the cycle succeeds.
                self.orders[dep].resolution = true;
                self.orders[dep].state = OrderState::Resolved;
            } else {
                let is_convoy = match self.orders[dep].action {
                    Action::Convoy { .. } => true,
                    _ => false,
                };
                if is_convoy {
                    // Convoy paradox: the convoy fails outright.
                    self.orders[dep].resolution = false;
                    self.orders[dep].state = OrderState::Resolved;
                } else {
                    // Everything else is recomputed against the failed
                    // convoys.
                    self.orders[dep].state = OrderState::Unresolved;
                }
            }
            proof {
                let l = self.dependencies@.len() as int;
                assert(l == pre.dependencies@.len() - 1);
                assert(dep == pre.dependencies@[l]);
                assert(dep == old(self).dependencies@[l]);
                assert(pre.orders@[dep as int].action == old(self).orders@[dep as int].action);
                assert forall|i: int|
                    0 <= i < old(self).orders@.len() && i != dep as int implies drained(
                    old(self).dependencies@,
                    l,
                    i,
                ) == drained(old(self).dependencies@, l + 1, i) by {
                    if drained(old(self).dependencies@, l, i) {
                        let k2 = choose|k2: int|
                            l <= k2 < old(self).dependencies@.len() && (#[trigger] old(
                                self,
                            ).dependencies@[k2]) as int == i;
                        assert(k2 != l);
                        assert(l + 1 <= k2 < old(self).dependencies@.len()
                            && old(self).dependencies@[k2] as int == i);
                    }
                }
                assert(drained(old(self).dependencies@, l, dep as int));
                assert forall|i: int| 0 <= i < old(self).orders@.len() && i != dep as int implies (
                #[trigger] self.orders@[i]) == pre.orders@[i] by {}
            }
        }
        proof {
            assert(self.dependencies@ =~= old(self).dependencies@.subrange(0, from as int));
        }
        Ok(())
    }
}

} // verus!
