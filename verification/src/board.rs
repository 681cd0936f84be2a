//! The game state: the board, the submitted orders, and order admission.

use vstd::prelude::*;

use crate::model::border_reachable;
use crate::model::fleet_border_matches;
use crate::model::has_region;
use crate::model::power_eq;
use crate::model::prov_list_contains;
use crate::model::region_index;
use crate::model::region_index_from;
use crate::model::spec_admissible;
use crate::model::spec_occupant;
use crate::model::unique_regions;
use crate::types::Action;
use crate::types::Adjust;
use crate::types::AdjustAction;
use crate::types::MapRegion;
use crate::types::Order;
use crate::types::OrderState;
use crate::types::Phase;
use crate::types::Power;
use crate::types::Province;
use crate::types::Retreat;
use crate::types::RetreatAction;
use crate::types::Unit;
use crate::types::UnitType;
use crate::types::spec_prov_coast;
use crate::types::spec_prov_name;

verus! {

/// One row of the tabular map description a board is built from: the
/// province name (with an optional coast suffix), the supply-center flag, an
/// optional starting owner and unit kind, and the two adjacency lists as
/// whitespace-separated province names.
#[derive(Debug)]
pub struct RegionRecord {
    pub name: String,
    pub sc: bool,
    pub owner: Option<String>,
    pub unit_type: Option<String>,
    pub fleet_borders: String,
    pub army_borders: String,
}

/// Whether two orders agree on everything except the engine's resolution
/// bookkeeping.
pub open spec fn order_core_eq(a: Order, b: Order) -> bool {
    &&& a.owner == b.owner
    &&& a.province == b.province
    &&& a.action == b.action
    &&& a.id == b.id
}

/// Whether some record's province name (before any coast suffix) is `name`.
pub open spec fn from_some_record(name: Seq<char>, records: Seq<RegionRecord>) -> bool {
    exists|k: int| 0 <= k < records.len() && name == spec_prov_name(#[trigger] records[k].name@)
}

/// Whether record `k` is the first row carrying its province name.
pub open spec fn is_first_for_name(records: Seq<RegionRecord>, k: int) -> bool {
    forall|k2: int|
        0 <= k2 < k ==> spec_prov_name(#[trigger] records[k2].name@) != spec_prov_name(
            records[k].name@,
        )
}

/// The sea-adjacency entries one record row contributes, as
/// (name, coast, origin-coast) triples: its tokens as provinces, each
/// stamped with the row's own coast.
pub open spec fn row_fleet_entries(rec: RegionRecord) -> Seq<(Seq<char>, Option<char>, Option<
    char,
>)> {
    crate::parse::spec_tokens(rec.fleet_borders@).map_values(
        |t: Seq<char>| (spec_prov_name(t), spec_prov_coast(t), spec_prov_coast(rec.name@)),
    )
}

/// The same triples read off a built adjacency list.
pub open spec fn fleet_entries_view(l: Seq<Province>) -> Seq<(Seq<char>, Option<char>, Option<
    char,
>)> {
    l.map_values(|b: Province| (b.name@, b.coast, b.from_coast))
}

/// The accumulated sea adjacency of a province name over the first `n`
/// record rows: every row of that name contributes its entries, in row
/// order.
pub open spec fn fleet_acc(records: Seq<RegionRecord>, name: Seq<char>, n: int) -> Seq<(
    Seq<char>,
    Option<char>,
    Option<char>,
)>
    decreases n,
{
    if n <= 0 || n > records.len() {
        Seq::empty()
    } else {
        let rest = fleet_acc(records, name, n - 1);
        if spec_prov_name(records[n - 1].name@) == name {
            rest + row_fleet_entries(records[n - 1])
        } else {
            rest
        }
    }
}

proof fn lemma_fleet_acc_empty(records: Seq<RegionRecord>, name: Seq<char>, n: int)
    requires
        0 <= n <= records.len(),
        forall|k: int| 0 <= k < n ==> spec_prov_name(#[trigger] records[k].name@) != name,
    ensures
        fleet_acc(records, name, n) == Seq::<(Seq<char>, Option<char>, Option<char>)>::empty(),
    decreases n,
{
    if n > 0 {
        lemma_fleet_acc_empty(records, name, n - 1);
    }
}

proof fn lemma_first_witness(records: Seq<RegionRecord>, name: Seq<char>, k: int)
    requires
        0 <= k < records.len(),
        spec_prov_name(records[k].name@) == name,
    ensures
        exists|k2: int|
            0 <= k2 <= k && spec_prov_name(#[trigger] records[k2].name@) == name
                && is_first_for_name(records, k2),
    decreases k,
{
    if is_first_for_name(records, k) {
        assert(0 <= k <= k && spec_prov_name(records[k].name@) == name && is_first_for_name(
            records,
            k,
        ));
    } else {
        let k3 = choose|k3: int|
            0 <= k3 < k && spec_prov_name(#[trigger] records[k3].name@) == spec_prov_name(
                records[k].name@,
            );
        lemma_first_witness(records, name, k3);
        let k2 = choose|k2: int|
            0 <= k2 <= k3 && spec_prov_name(#[trigger] records[k2].name@) == name
                && is_first_for_name(records, k2);
        assert(0 <= k2 <= k && spec_prov_name(records[k2].name@) == name && is_first_for_name(
            records,
            k2,
        ));
    }
}

/// What the first row of a province name pins on the built board: the
/// supply-center flag, the starting owner and unit, the land adjacency
/// list (as names), and the sea adjacency list as the accumulation of
/// every row of the name among the first `n` rows.
pub open spec fn first_row_pinned(
    map: Seq<MapRegion>,
    records: Seq<RegionRecord>,
    k: int,
    n: int,
) -> bool {
    let reg = map[region_index(map, spec_prov_name(records[k].name@))];
    &&& reg.sc == records[k].sc
    &&& (records[k].owner is None ==> reg.owner is None)
    &&& (records[k].owner matches Some(o) ==> reg.owner matches Some(p) && p.name@ == o@)
    &&& (records[k].unit_type is None ==> reg.unit is None)
    &&& (records[k].unit_type matches Some(u) ==> reg.unit matches Some(un) && (un.unit_type
        is Army <==> u@ == "Army"@) && (records[k].owner matches Some(o) ==> un.owner.name@
        == o@))
    &&& reg.army_borders@.map_values(|b: Province| b.name@) == crate::parse::spec_tokens(
        records[k].army_borders@,
    ).map_values(|t: Seq<char>| spec_prov_name(t))
    &&& fleet_entries_view(reg.fleet_borders@) == fleet_acc(
        records,
        spec_prov_name(records[k].name@),
        n,
    )
}

/// The full game state.
#[derive(Debug)]
pub struct Stpsyr {
    pub map: Vec<MapRegion>,
    pub orders: Vec<Order>,
    pub retreats: Vec<Retreat>,
    pub adjusts: Vec<Adjust>,
    pub dependencies: Vec<usize>,
    pub dislodged: Vec<(Province, Unit)>,
    pub phase: Phase,
    pub year: i32,
}

impl Stpsyr {
    /// The state's well-formedness: every order's stored identity is its
    /// index in the arena, and the dependency stack only names orders.
    pub open spec fn wf(self) -> bool {
        &&& forall|i: int|
            0 <= i < self.orders@.len() ==> (#[trigger] self.orders@[i].id) == i as usize
        &&& forall|k: int|
            0 <= k < self.dependencies@.len() ==> (#[trigger] self.dependencies@[k])
                < self.orders@.len()
    }

    /// Everything the resolution engine leaves alone: the board and the
    /// phase bookkeeping.
    pub open spec fn same_board(self, other: Stpsyr) -> bool {
        &&& self.map@ == other.map@
        &&& self.retreats@ == other.retreats@
        &&& self.adjusts@ == other.adjusts@
        &&& self.dislodged@ == other.dislodged@
        &&& self.phase == other.phase
        &&& self.year == other.year
    }

    /// The engine rewrites only resolution bookkeeping: the arena keeps its
    /// length and every order its identity.
    pub open spec fn same_orders_core(self, other: Stpsyr) -> bool {
        &&& self.orders@.len() == other.orders@.len()
        &&& forall|i: int|
            0 <= i < self.orders@.len() ==> order_core_eq(
                #[trigger] self.orders@[i],
                other.orders@[i],
            )
    }

    /// The dependency stack only ever grows or is cut back to where it
    /// stood: entries below the starting length are never rewritten.
    pub open spec fn deps_extended(self, other: Stpsyr) -> bool {
        &&& other.dependencies@.len() >= self.dependencies@.len()
        &&& other.dependencies@.subrange(0, self.dependencies@.len() as int)
            == self.dependencies@
    }

    /// Builds the initial state from map records.  Records sharing one
    /// province name are merged into a single region whose fleet borders
    /// accumulate (a multi-coast province lists each coast's sea borders on
    /// its own row).
    pub fn new(records: Vec<RegionRecord>) -> (s: Stpsyr)
        requires
            forall|k: int|
                0 <= k < records@.len() ==> ((#[trigger] records@[k].unit_type) matches Some(u)
                    ==> (u@ == "Army"@ || u@ == "Fleet"@) && records@[k].owner is Some),
        ensures
            s.wf(),
            unique_regions(s.map@),
            forall|i: int|
                0 <= i < s.map@.len() ==> from_some_record(
                    (#[trigger] s.map@[i]).province.name@,
                    records@,
                ),
            forall|k: int|
                0 <= k < records@.len() ==> has_region(
                    s.map@,
                    spec_prov_name(#[trigger] records@[k].name@),
                ),
            forall|k: int|
                0 <= k < records@.len() && is_first_for_name(records@, k)
                    ==> #[trigger] first_row_pinned(s.map@, records@, k, records@.len() as int),
            s.orders@.len() == 0,
            s.retreats@.len() == 0,
            s.adjusts@.len() == 0,
            s.dependencies@.len() == 0,
            s.dislodged@.len() == 0,
            s.phase == Phase::SpringDiplomacy,
            s.year == 1901int,
    {
        let mut map: Vec<MapRegion> = Vec::new();
        let n = records.len();
        let mut ri: usize = 0;
        while ri < n
            invariant
                n == records@.len(),
                ri <= n,
                unique_regions(map@),
                forall|k: int|
                    0 <= k < records@.len() ==> ((#[trigger] records@[k].unit_type) matches Some(
                        u,
                    ) ==> (u@ == "Army"@ || u@ == "Fleet"@) && records@[k].owner is Some),
                forall|i: int|
                    0 <= i < map@.len() ==> from_some_record(
                        (#[trigger] map@[i]).province.name@,
                        records@,
                    ),
                forall|k: int|
                    0 <= k < ri ==> has_region(
                        map@,
                        spec_prov_name(#[trigger] records@[k].name@),
                    ),
                forall|i: int|
                    0 <= i < map@.len() ==> exists|k2: int|
                        0 <= k2 < ri && (#[trigger] map@[i]).province.name@ == spec_prov_name(
                            records@[k2].name@,
                        ),
                forall|k: int|
                    0 <= k < ri && is_first_for_name(records@, k) ==> #[trigger] first_row_pinned(
                        map@,
                        records@,
                        k,
                        ri as int,
                    ),
            decreases n - ri,
        {
            let rec = &records[ri];
            let province = Province::from(rec.name.as_str());

            let ftokens = crate::parse::split_ws(rec.fleet_borders.as_str());
            let mut fleet_borders: Vec<Province> = Vec::new();
            let mut fi: usize = 0;
            while fi < ftokens.len()
                invariant
                    fi <= ftokens.len(),
                    fleet_borders@.len() == fi as int,
                    forall|u: int|
                        0 <= u < fi ==> ((#[trigger] fleet_borders@[u]).name@ == spec_prov_name(
                            ftokens@[u]@,
                        ) && fleet_borders@[u].coast == spec_prov_coast(ftokens@[u]@)
                            && fleet_borders@[u].from_coast == province.coast),
                decreases ftokens.len() - fi,
            {
                let mut border = Province::from(ftokens[fi].as_str());
                match province.coast {
                    Some(_) => {
                        border.from_coast = province.coast;
                    },
                    None => {},
                }
                fleet_borders.push(border);
                fi = fi + 1;
            }
            proof {
                assert(fleet_entries_view(fleet_borders@) =~= row_fleet_entries(
                    records@[ri as int],
                )) by {
                    let toks = ftokens@.map_values(|t2: String| t2@);
                    assert(toks == crate::parse::spec_tokens(records@[ri as int].fleet_borders@));
                    assert(province.coast == spec_prov_coast(records@[ri as int].name@));
                    assert forall|u: int|
                        0 <= u < fleet_borders@.len() implies fleet_entries_view(
                        fleet_borders@,
                    )[u] == row_fleet_entries(records@[ri as int])[u] by {
                        assert(toks[u] == ftokens@[u]@);
                    }
                }
            }

            let atokens = crate::parse::split_ws(rec.army_borders.as_str());
            let mut army_borders: Vec<Province> = Vec::new();
            let mut ai: usize = 0;
            while ai < atokens.len()
                invariant
                    ai <= atokens.len(),
                    army_borders@.len() == ai as int,
                    forall|u: int|
                        0 <= u < ai ==> (#[trigger] army_borders@[u]).name@ == spec_prov_name(
                            atokens@[u]@,
                        ),
                decreases atokens.len() - ai,
            {
                army_borders.push(Province::from(atokens[ai].as_str()));
                ai = ai + 1;
            }
            proof {
                assert(army_borders@.map_values(|b: Province| b.name@)
                    =~= crate::parse::spec_tokens(rec.army_borders@).map_values(
                    |t: Seq<char>| spec_prov_name(t),
                )) by {
                    let lhs = army_borders@.map_values(|b: Province| b.name@);
                    let toks = atokens@.map_values(|t2: String| t2@);
                    assert(toks == crate::parse::spec_tokens(rec.army_borders@));
                    assert forall|u: int|
                        0 <= u < army_borders@.len() implies lhs[u] == crate::parse::spec_tokens(
                        rec.army_borders@,
                    ).map_values(|t: Seq<char>| spec_prov_name(t))[u] by {
                        assert(army_borders@[u].name@ == spec_prov_name(atokens@[u]@));
                        assert(toks[u] == atokens@[u]@);
                    }
                }
            }

            let pos = region_pos(&map, &province);
            if pos < map.len() {
                // A row for a coast of a province already seen: its sea
                // borders accumulate on the existing region.
                let ghost nameX = spec_prov_name(records@[ri as int].name@);
                let ghost map0r = map@;
                let ghost reg0 = map@[pos as int];
                proof {
                    lemma_region_index_props(map@, province.name@);
                    let kw = choose|k2: int|
                        0 <= k2 < ri && map@[pos as int].province.name@ == spec_prov_name(
                            records@[k2].name@,
                        );
                    lemma_first_witness(records@, nameX, kw);
                    let k0 = choose|k2: int|
                        0 <= k2 <= kw && spec_prov_name(#[trigger] records@[k2].name@) == nameX
                            && is_first_for_name(records@, k2);
                    assert(first_row_pinned(map@, records@, k0, ri as int));
                    assert(fleet_entries_view(reg0.fleet_borders@) == fleet_acc(
                        records@,
                        nameX,
                        ri as int,
                    ));
                    assert(row_fleet_entries(records@[ri as int]).take(0)
                        =~= Seq::<(Seq<char>, Option<char>, Option<char>)>::empty());
                    assert(fleet_entries_view(reg0.fleet_borders@) =~= fleet_acc(
                        records@,
                        nameX,
                        ri as int,
                    ) + row_fleet_entries(records@[ri as int]).take(0));
                }
                let mut bi: usize = 0;
                while bi < fleet_borders.len()
                    invariant
                        n == records@.len(),
                        ri < n,
                        bi <= fleet_borders.len(),
                        pos < map@.len(),
                        unique_regions(map@),
                        forall|i: int|
                            0 <= i < map@.len() ==> from_some_record(
                                (#[trigger] map@[i]).province.name@,
                                records@,
                            ),
                        nameX == spec_prov_name(records@[ri as int].name@),
                        map@[pos as int].province.name@ == nameX,
                        forall|k: int|
                            0 <= k < ri ==> has_region(
                                map@,
                                spec_prov_name(#[trigger] records@[k].name@),
                            ),
                        forall|i: int|
                            0 <= i < map@.len() ==> exists|k2: int|
                                0 <= k2 < ri && (#[trigger] map@[i]).province.name@
                                    == spec_prov_name(records@[k2].name@),
                        fleet_entries_view(fleet_borders@) == row_fleet_entries(
                            records@[ri as int],
                        ),
                        fleet_entries_view(map@[pos as int].fleet_borders@) == fleet_acc(
                            records@,
                            nameX,
                            ri as int,
                        ) + row_fleet_entries(records@[ri as int]).take(bi as int),
                        map@[pos as int].sc == reg0.sc,
                        map@[pos as int].owner == reg0.owner,
                        map@[pos as int].unit == reg0.unit,
                        map@[pos as int].army_borders == reg0.army_borders,
                        forall|k: int|
                            0 <= k < ri && is_first_for_name(records@, k) && spec_prov_name(
                                records@[k].name@,
                            ) != nameX ==> #[trigger] first_row_pinned(
                                map@,
                                records@,
                                k,
                                ri as int,
                            ),
                    decreases fleet_borders.len() - bi,
                {
                    let ghost pre = map@;
                    let b = fleet_borders[bi].clone();
                    map[pos].fleet_borders.push(b);
                    proof {
                        assert(map@.len() == pre.len());
                        assert forall|j: int|
                            0 <= j < map@.len() implies (#[trigger] map@[j].province.name@)
                            == pre[j].province.name@ by {
                            if j != pos {
                                assert(map@[j] == pre[j]);
                            } else {
                                assert(map@[j].province == pre[j].province);
                            }
                        }
                        assert(fleet_entries_view(map@[pos as int].fleet_borders@)
                            =~= fleet_acc(records@, nameX, ri as int) + row_fleet_entries(
                            records@[ri as int],
                        ).take(bi + 1)) by {
                            assert(map@[pos as int].fleet_borders@ =~= pre[pos as int].fleet_borders@.push(
                                fleet_borders@[bi as int],
                            ));
                            assert(fleet_entries_view(map@[pos as int].fleet_borders@)
                                =~= fleet_entries_view(pre[pos as int].fleet_borders@).push(
                                row_fleet_entries(records@[ri as int])[bi as int],
                            ));
                            assert(row_fleet_entries(records@[ri as int]).take(bi + 1)
                                =~= row_fleet_entries(records@[ri as int]).take(bi as int).push(
                                row_fleet_entries(records@[ri as int])[bi as int],
                            ));
                        }
                        assert forall|k: int| 0 <= k < ri implies has_region(
                            map@,
                            spec_prov_name(#[trigger] records@[k].name@),
                        ) by {
                            lemma_region_index_names_cong(
                                pre,
                                map@,
                                spec_prov_name(records@[k].name@),
                                0,
                            );
                        }
                        assert forall|i: int| 0 <= i < map@.len() implies exists|k2: int|
                            0 <= k2 < ri && (#[trigger] map@[i]).province.name@ == spec_prov_name(
                                records@[k2].name@,
                            ) by {
                            let k0 = choose|k2: int|
                                0 <= k2 < ri && pre[i].province.name@ == spec_prov_name(
                                    records@[k2].name@,
                                );
                            assert(0 <= k0 < ri && map@[i].province.name@ == spec_prov_name(
                                records@[k0].name@,
                            ));
                        }
                        assert forall|k: int|
                            0 <= k < ri && is_first_for_name(records@, k) && spec_prov_name(
                                records@[k].name@,
                            ) != nameX implies #[trigger] first_row_pinned(
                            map@,
                            records@,
                            k,
                            ri as int,
                        ) by {
                            let name = spec_prov_name(records@[k].name@);
                            lemma_region_index_names_cong(pre, map@, name, 0);
                            lemma_region_index_props(pre, name);
                            assert(first_row_pinned(pre, records@, k, ri as int));
                            let idx = crate::model::region_index(pre, name);
                            assert(0 <= idx < pre.len());
                            assert(pre[idx].province.name@ == name);
                            assert(idx != pos as int);
                            assert(map@[idx] == pre[idx]);
                        }
                        assert forall|i: int| 0 <= i < map@.len() implies from_some_record(
                            (#[trigger] map@[i]).province.name@,
                            records@,
                        ) by {
                            assert(map@[i].province == pre[i].province);
                            assert(from_some_record(pre[i].province.name@, records@));
                        }
                        assert forall|i: int, j: int|
                            #![trigger map@[i].province.name@, map@[j].province.name@]
                            0 <= i < j < map@.len() implies map@[i].province.name@
                            != map@[j].province.name@ by {
                            assert(map@[i].province == pre[i].province);
                            assert(map@[j].province == pre[j].province);
                        }
                    }
                    bi = bi + 1;
                }
                proof {
                    let namei = spec_prov_name(records@[ri as int].name@);
                    lemma_region_index_props(map@, namei);
                    assert(map@[pos as int].province.name@ == namei);
                    if crate::model::region_index(map@, namei) == map@.len() {
                        assert(false);
                    }
                    assert(has_region(map@, namei));
                    assert forall|k: int| 0 <= k < ri + 1 implies has_region(
                        map@,
                        spec_prov_name(#[trigger] records@[k].name@),
                    ) by {}
                    assert forall|i: int| 0 <= i < map@.len() implies exists|k2: int|
                        0 <= k2 < ri + 1 && (#[trigger] map@[i]).province.name@ == spec_prov_name(
                            records@[k2].name@,
                        ) by {
                        let k0 = choose|k2: int|
                            0 <= k2 < ri && map@[i].province.name@ == spec_prov_name(
                                records@[k2].name@,
                            );
                        assert(0 <= k0 < ri + 1 && map@[i].province.name@ == spec_prov_name(
                            records@[k0].name@,
                        ));
                    }
                    // The current row's entries are fully appended.
                    assert(fleet_entries_view(map@[pos as int].fleet_borders@) == fleet_acc(
                        records@,
                        nameX,
                        ri + 1,
                    )) by {
                        assert(row_fleet_entries(records@[ri as int]).take(
                            fleet_borders@.len() as int,
                        ) =~= row_fleet_entries(records@[ri as int]));
                        assert(fleet_acc(records@, nameX, ri + 1) == fleet_acc(
                            records@,
                            nameX,
                            ri as int,
                        ) + row_fleet_entries(records@[ri as int]));
                    }
                    assert forall|k: int|
                        0 <= k < ri + 1 && is_first_for_name(
                            records@,
                            k,
                        ) implies #[trigger] first_row_pinned(map@, records@, k, ri + 1) by {
                        if k == ri as int {
                            let k2 = choose|k3: int|
                                0 <= k3 < ri && map@[pos as int].province.name@ == spec_prov_name(
                                    records@[k3].name@,
                                );
                            assert(spec_prov_name(records@[k2].name@) == spec_prov_name(
                                records@[k as int].name@,
                            ));
                            assert(false);
                        } else {
                            let name = spec_prov_name(records@[k].name@);
                            if name == nameX {
                                assert(crate::model::region_index(map@, name) == pos as int) by {
                                    lemma_region_index_props(map@, name);
                                    if crate::model::region_index(map@, name) != pos as int {
                                        assert(map@[crate::model::region_index(
                                            map@,
                                            name,
                                        )].province.name@ == name);
                                        assert(false);
                                    }
                                }
                                assert(first_row_pinned(map0r, records@, k, ri as int));
                                assert(crate::model::region_index(map0r, name) == pos as int) by {
                                    lemma_region_index_props(map0r, name);
                                    assert(map0r[pos as int].province.name@ == nameX);
                                    if crate::model::region_index(map0r, name) != pos as int {
                                        assert(map0r[crate::model::region_index(
                                            map0r,
                                            name,
                                        )].province.name@ == name);
                                        assert(false);
                                    }
                                }
                                assert(map0r[pos as int] == reg0);
                                assert(first_row_pinned(map@, records@, k, ri + 1));
                            } else {
                                assert(first_row_pinned(map@, records@, k, ri as int));
                                assert(fleet_acc(records@, name, ri + 1) == fleet_acc(
                                    records@,
                                    name,
                                    ri as int,
                                ));
                            }
                        }
                    }
                }
            } else {
                let owner: Option<Power> = match &rec.owner {
                    Some(o) => Some(Power::from(o.as_str())),
                    None => None,
                };
                let unit: Option<Unit> = match &rec.unit_type {
                    Some(ut) => {
                        let owner_name = match &rec.owner {
                            Some(o) => Power::from(o.as_str()),
                            None => Power::from(""),
                        };
                        let army = "Army".to_owned();
                        let kind = if ut.as_str().to_owned() == army {
                            UnitType::Army
                        } else {
                            UnitType::Fleet
                        };
                        Some(Unit { owner: owner_name, unit_type: kind })
                    },
                    None => None,
                };
                proof {
                    lemma_region_index_props(map@, province.name@);
                }
                let ghost pre = map@;
                map.push(
                    MapRegion {
                        province,
                        sc: rec.sc,
                        owner,
                        unit,
                        fleet_borders,
                        army_borders,
                    },
                );
                proof {
                    assert(map@.len() == pre.len() + 1);
                    assert(from_some_record(province.name@, records@)) by {
                        assert(0 <= ri < records@.len() && province.name@ == spec_prov_name(
                            records@[ri as int].name@,
                        ));
                    }
                    assert forall|i: int| 0 <= i < map@.len() implies from_some_record(
                        (#[trigger] map@[i]).province.name@,
                        records@,
                    ) by {
                        if i < pre.len() {
                            assert(map@[i] == pre[i]);
                            assert(from_some_record(pre[i].province.name@, records@));
                        } else {
                            assert(map@[i].province.name@ == province.name@);
                        }
                    }
                    assert forall|k: int| 0 <= k < ri + 1 implies has_region(
                        map@,
                        spec_prov_name(#[trigger] records@[k].name@),
                    ) by {
                        let name = spec_prov_name(records@[k].name@);
                        if k < ri {
                            lemma_region_index_props(pre, name);
                            let idx = crate::model::region_index(pre, name);
                            assert(pre[idx].province.name@ == name);
                            assert(map@[idx] == pre[idx]);
                            assert(map@[idx].province.name@ == name);
                        } else {
                            assert(map@[pre.len() as int].province.name@ == name);
                        }
                        lemma_region_index_props(map@, name);
                        if crate::model::region_index(map@, name) == map@.len() {
                            assert(false);
                        }
                    }
                    assert forall|i: int| 0 <= i < map@.len() implies exists|k2: int|
                        0 <= k2 < ri + 1 && (#[trigger] map@[i]).province.name@ == spec_prov_name(
                            records@[k2].name@,
                        ) by {
                        if i < pre.len() {
                            assert(map@[i] == pre[i]);
                            let k0 = choose|k2: int|
                                0 <= k2 < ri && pre[i].province.name@ == spec_prov_name(
                                    records@[k2].name@,
                                );
                            assert(0 <= k0 < ri + 1 && map@[i].province.name@ == spec_prov_name(
                                records@[k0].name@,
                            ));
                        } else {
                            assert(0 <= ri < ri + 1 && map@[i].province.name@ == spec_prov_name(
                                records@[ri as int].name@,
                            ));
                        }
                    }
                    assert forall|k: int|
                        0 <= k < ri + 1 && is_first_for_name(
                            records@,
                            k,
                        ) implies #[trigger] first_row_pinned(map@, records@, k, ri + 1) by {
                        let name = spec_prov_name(records@[k].name@);
                        if k < ri {
                            assert(first_row_pinned(pre, records@, k, ri as int));
                            assert(has_region(pre, name));
                            let idx = crate::model::region_index(pre, name);
                            lemma_region_index_push(
                                pre,
                                map@[pre.len() as int],
                                name,
                                0,
                            );
                            assert(map@ =~= pre.push(map@[pre.len() as int]));
                            assert(crate::model::region_index(map@, name) == idx);
                            lemma_region_index_props(pre, name);
                            assert(map@[idx] == pre[idx]);
                            assert(name != spec_prov_name(records@[ri as int].name@)) by {
                                if name == spec_prov_name(records@[ri as int].name@) {
                                    assert(has_region(pre, name));
                                    assert(false);
                                }
                            }
                            assert(fleet_acc(records@, name, ri + 1) == fleet_acc(
                                records@,
                                name,
                                ri as int,
                            ));
                        } else {
                            lemma_region_index_from(map@, name, 0, pre.len() as int);
                            assert(crate::model::region_index(map@, name) == pre.len());
                            assert(fleet_acc(records@, name, ri as int) == Seq::<(
                                Seq<char>,
                                Option<char>,
                                Option<char>,
                            )>::empty()) by {
                                lemma_fleet_acc_empty(records@, name, ri as int);
                            }
                            assert(fleet_entries_view(map@[pre.len() as int].fleet_borders@)
                                =~= fleet_acc(records@, name, ri + 1));
                            assert(first_row_pinned(map@, records@, k, ri + 1));
                        }
                    }
                }
            }
            ri = ri + 1;
        }
        Stpsyr {
            map,
            orders: Vec::new(),
            retreats: Vec::new(),
            adjusts: Vec::new(),
            dependencies: Vec::new(),
            dislodged: Vec::new(),
            phase: Phase::SpringDiplomacy,
            year: 1901,
        }
    }

    /// The region a province name refers to, when the board has one.
    pub fn get_region(&self, province: &Province) -> (r: Option<&MapRegion>)
        ensures
            match r {
                Some(reg) => has_region(self.map@, province.name@) && *reg == self.map@[region_index(
                    self.map@,
                    province.name@,
                )],
                None => !has_region(self.map@, province.name@),
            },
    {
        let pos = region_pos(&self.map, province);
        if pos < self.map.len() {
            Some(&self.map[pos])
        } else {
            None
        }
    }

    /// The unit currently in a province, if any.
    pub fn get_unit(&self, province: &Province) -> (u: Option<Unit>)
        ensures
            u == spec_occupant(self.map@, province.name@),
    {
        match self.get_region(province) {
            Some(reg) => match &reg.unit {
                Some(un) => Some(un.clone()),
                None => None,
            },
            None => None,
        }
    }

    /// Decides, per [`border_reachable`], whether the unit standing at
    /// `province` can reach `to` over its own borders.
    fn reach_check(&self, province: &Province, to: &Province, ut: UnitType, is_move: bool) -> (r:
        bool)
        requires
            has_region(self.map@, province.name@),
        ensures
            r == border_reachable(
                self.map@[region_index(self.map@, province.name@)],
                *to,
                ut,
                is_move,
            ),
    {
        let pos = region_pos(&self.map, province);
        let region = &self.map[pos];
        match ut {
            UnitType::Army => prov_list_has(&region.army_borders, to),
            UnitType::Fleet => {
                let n = region.fleet_borders.len();
                let mut i: usize = 0;
                let mut found = false;
                while i < n
                    invariant
                        n == region.fleet_borders@.len(),
                        i <= n,
                        found == exists|j: int|
                            0 <= j < i && fleet_border_matches(
                                #[trigger] region.fleet_borders@[j],
                                region.province.coast,
                                *to,
                                is_move,
                            ),
                    decreases n - i,
                {
                    let b = &region.fleet_borders[i];
                    if opt_char_eq(b.from_coast, region.province.coast) && (!is_move || opt_char_eq(
                        b.coast,
                        to.coast,
                    )) && b == to {
                        found = true;
                    }
                    i = i + 1;
                }
                found
            },
        }
    }

    /// Admits an order into the order set, or silently drops it when the
    /// admission rules of [`spec_admissible`] reject it.  Nothing but the
    /// order set changes either way.
    pub fn add_order(&mut self, owner: Power, province: Province, action: Action)
        requires
            old(self).wf(),
        ensures
            final(self).wf(),
            final(self).map == old(self).map,
            final(self).retreats == old(self).retreats,
            final(self).adjusts == old(self).adjusts,
            final(self).dependencies == old(self).dependencies,
            final(self).dislodged == old(self).dislodged,
            final(self).phase == old(self).phase,
            final(self).year == old(self).year,
            spec_admissible(old(self).map@, owner, province, action) ==> final(self).orders@
                == old(self).orders@.push(
                Order {
                    owner,
                    province,
                    action,
                    resolution: false,
                    state: OrderState::Unresolved,
                    id: old(self).orders@.len() as usize,
                },
            ),
            !spec_admissible(old(self).map@, owner, province, action) ==> final(self).orders
                == old(self).orders,
    {
        // There has to be a unit here to order it.
        let unit = match self.get_unit(&province) {
            Some(u) => u,
            None => {
                return ;
            },
        };

        let (is_move, convoyed) = match &action {
            Action::Move { to, convoyed } => {
                // A unit cannot move to its own province.
                if province == *to {
                    return ;
                }
                (true, *convoyed)
            },
            Action::SupportMove { from, to } => {
                // A unit cannot support itself, nor a non-move.
                if province == *from || province == *to || *from == *to {
                    return ;
                }
                (false, false)
            },
            _ => (false, false),
        };

        // A fleet cannot be convoyed.
        if convoyed && unit.unit_type == UnitType::Fleet {
            return ;
        }

        // A power can only order its own units.
        if !(unit.owner == owner) {
            return ;
        }

        // Unless a convoy is claimed, the target must be reachable.
        if !convoyed {
            let reachable = match &action {
                Action::Move { to, .. } => self.reach_check(&province, to, unit.unit_type, true),
                Action::SupportHold { to } => self.reach_check(
                    &province,
                    to,
                    unit.unit_type,
                    false,
                ),
                Action::SupportMove { to, .. } => self.reach_check(
                    &province,
                    to,
                    unit.unit_type,
                    false,
                ),
                _ => true,
            };
            if !reachable {
                return ;
            }
        }

        // All checks pass.
        let id = self.orders.len();
        self.orders.push(
            Order { owner, province, action, resolution: false, state: OrderState::Unresolved, id },
        );
    }

    /// Records a retreat order for later bookkeeping.
    pub fn add_retreat(&mut self, owner: Power, province: Province, action: RetreatAction)
        ensures
            final(self).retreats@ == old(self).retreats@.push(
                Retreat { owner, province, action },
            ),
            final(self).map == old(self).map,
            final(self).orders == old(self).orders,
            final(self).adjusts == old(self).adjusts,
            final(self).dependencies == old(self).dependencies,
            final(self).dislodged == old(self).dislodged,
            final(self).phase == old(self).phase,
            final(self).year == old(self).year,
    {
        self.retreats.push(Retreat { owner, province, action });
    }

    /// Retreat adjudication is outside the movement engine; submitted
    /// retreats are left as they are.
    pub fn apply_retreats(&mut self)
        ensures
            *final(self) == *old(self),
    {
    }

    /// Records a build/disband order for later bookkeeping.
    pub fn add_adjust(&mut self, owner: Power, province: Province, action: AdjustAction)
        ensures
            final(self).adjusts@ == old(self).adjusts@.push(Adjust { owner, province, action }),
            final(self).map == old(self).map,
            final(self).orders == old(self).orders,
            final(self).retreats == old(self).retreats,
            final(self).dependencies == old(self).dependencies,
            final(self).dislodged == old(self).dislodged,
            final(self).phase == old(self).phase,
            final(self).year == old(self).year,
    {
        self.adjusts.push(Adjust { owner, province, action });
    }

    /// Build adjudication is outside the movement engine; submitted
    /// adjustments are left as they are.
    pub fn apply_adjusts(&mut self)
        ensures
            *final(self) == *old(self),
    {
    }
}

/// Whether the two optional coast qualifiers agree.
fn opt_char_eq(a: Option<char>, b: Option<char>) -> (r: bool)
    ensures
        r == (a == b),
{
    match (a, b) {
        (Some(x), Some(y)) => x == y,
        (None, None) => true,
        _ => false,
    }
}

/// Whether some province in `list` names the same region as `p`.
pub(crate) fn prov_list_has(list: &Vec<Province>, p: &Province) -> (r: bool)
    ensures
        r == prov_list_contains(list@, p.name@),
{
    let n = list.len();
    let mut i: usize = 0;
    while i < n
        invariant
            n == list@.len(),
            i <= n,
            forall|j: int| 0 <= j < i ==> (#[trigger] list@[j].name@) != p.name@,
        decreases n - i,
    {
        if &list[i] == p {
            return true;
        }
        i = i + 1;
    }
    false
}

/// First position in `map` whose region has the province's name, or
/// `map.len()`.
pub fn region_pos(map: &Vec<MapRegion>, p: &Province) -> (i: usize)
    ensures
        i as int == region_index(map@, p.name@),
        i <= map@.len(),
{
    let n = map.len();
    let mut i: usize = 0;
    while i < n
        invariant
            n == map@.len(),
            i <= n,
            forall|j: int| 0 <= j < i ==> (#[trigger] map@[j].province.name@) != p.name@,
        decreases n - i,
    {
        if &map[i].province == p {
            proof {
                lemma_region_index_from(map@, p.name@, 0, i as int);
            }
            return i;
        }
        i = i + 1;
    }
    proof {
        lemma_region_index_from(map@, p.name@, 0, n as int);
    }
    n
}

/// Appending a region leaves the index of an already-present name alone.
proof fn lemma_region_index_push(map: Seq<MapRegion>, r: MapRegion, name: Seq<char>, i: int)
    requires
        0 <= i <= map.len(),
        region_index_from(map, name, i) < map.len(),
    ensures
        region_index_from(map.push(r), name, i) == region_index_from(map, name, i),
    decreases map.len() - i,
{
    assert(map.push(r).len() == map.len() + 1);
    if i < map.len() {
        assert(map.push(r)[i] == map[i]);
        if map[i].province.name@ != name {
            lemma_region_index_push(map, r, name, i + 1);
        }
    }
}

/// `region_index` reads only province names: two boards whose regions agree
/// name for name agree on it.
proof fn lemma_region_index_names_cong(m1: Seq<MapRegion>, m2: Seq<MapRegion>, name: Seq<char>, i: int)
    requires
        m1.len() == m2.len(),
        forall|j: int|
            0 <= j < m1.len() ==> (#[trigger] m1[j].province.name@) == m2[j].province.name@,
        0 <= i <= m1.len(),
    ensures
        region_index_from(m1, name, i) == region_index_from(m2, name, i),
    decreases m1.len() - i,
{
    if i < m1.len() && m1[i].province.name@ != name {
        lemma_region_index_names_cong(m1, m2, name, i + 1);
    }
}

proof fn lemma_region_index_from(map: Seq<MapRegion>, name: Seq<char>, i: int, k: int)
    requires
        0 <= i <= k <= map.len(),
        forall|j: int| i <= j < k ==> (#[trigger] map[j].province.name@) != name,
        k == map.len() || map[k].province.name@ == name,
    ensures
        region_index_from(map, name, i) == k,
    decreases k - i,
{
    if i < k {
        lemma_region_index_from(map, name, i + 1, k);
    }
}

/// What `region_index` promises: the index it returns is the first match,
/// and `map.len()` means there is none.
pub proof fn lemma_region_index_props(map: Seq<MapRegion>, name: Seq<char>)
    ensures
        0 <= region_index(map, name) <= map.len(),
        region_index(map, name) == map.len() ==> forall|i: int|
            0 <= i < map.len() ==> (#[trigger] map[i].province.name@) != name,
        region_index(map, name) < map.len() ==> {
            &&& 0 <= region_index(map, name)
            &&& map[region_index(map, name)].province.name@ == name
        },
{
    lemma_region_index_props_from(map, name, 0);
}

proof fn lemma_region_index_props_from(map: Seq<MapRegion>, name: Seq<char>, i: int)
    requires
        0 <= i <= map.len(),
    ensures
        i <= region_index_from(map, name, i) <= map.len(),
        region_index_from(map, name, i) == map.len() ==> forall|j: int|
            i <= j < map.len() ==> (#[trigger] map[j].province.name@) != name,
        region_index_from(map, name, i) < map.len() ==> {
            &&& i <= region_index_from(map, name, i)
            &&& map[region_index_from(map, name, i)].province.name@ == name
        },
    decreases map.len() - i,
{
    if i < map.len() && map[i].province.name@ != name {
        lemma_region_index_props_from(map, name, i + 1);
    }
}

} // verus!
