//! The data the adjudicator works on: powers, provinces, units, and the
//! order/retreat/adjust actions a power may submit.

use vstd::prelude::*;

verus! {

/// The Unicode-lowercased form of a character sequence, as
/// `str::to_lowercase` computes it: a function of the characters alone.
pub uninterp spec fn lower_of(s: Seq<char>) -> Seq<char>;

/// Relies on str::to_lowercase: the result depends on the characters alone,
/// in every process and on every machine.
#[verifier::external_body]
pub(crate) fn lowercase_of(s: &str) -> (r: String)
    ensures
        r@ == lower_of(s@),
{
    s.to_lowercase()
}

/// Case-insensitive equality of two strings: their lowercased forms agree.
pub fn str_eq_ci(a: &str, b: &str) -> (r: bool)
    ensures
        r == (lower_of(a@) == lower_of(b@)),
{
    let la = lowercase_of(a);
    let lb = lowercase_of(b);
    la == lb
}

/// A player faction, identified by name.  Two powers are the same faction
/// when their names agree up to case, under the same Unicode folding the
/// standard library's lowercasing performs.
#[derive(Debug)]
pub struct Power {
    pub name: String,
}

impl Power {
    /// Builds a power from its name.
    pub fn from(s: &str) -> (p: Power)
        ensures
            p.name@ == s@,
    {
        Power { name: s.to_owned() }
    }
}

impl Clone for Power {
    fn clone(&self) -> (r: Self)
        ensures
            r == *self,
    {
        Power { name: self.name.clone() }
    }
}

impl PartialEq for Power {
    fn eq(&self, other: &Power) -> (r: bool) {
        str_eq_ci(self.name.as_str(), other.name.as_str())
    }
}

impl vstd::std_specs::cmp::PartialEqSpecImpl for Power {
    open spec fn obeys_eq_spec() -> bool {
        true
    }

    open spec fn eq_spec(&self, other: &Power) -> bool {
        lower_of(self.name@) == lower_of(other.name@)
    }
}

/// Index of the first `/` in `s` at or after position `i`, or `s.len()` when
/// there is none.
pub open spec fn first_slash_from(s: Seq<char>, i: int) -> int
    decreases s.len() - i,
{
    if i < 0 || i >= s.len() {
        s.len() as int
    } else if s[i] == '/' {
        i
    } else {
        first_slash_from(s, i + 1)
    }
}

/// The name part of a province string: everything before the first `/`.
pub open spec fn spec_prov_name(s: Seq<char>) -> Seq<char> {
    s.subrange(0, first_slash_from(s, 0))
}

/// The coast part of a province string: the character right after the first
/// `/`, when both exist.
pub open spec fn spec_prov_coast(s: Seq<char>) -> Option<char> {
    let i = first_slash_from(s, 0);
    if i + 1 < s.len() {
        Some(s[i + 1])
    } else {
        None
    }
}

proof fn lemma_first_slash_from(s: Seq<char>, i: int, k: int)
    requires
        0 <= i <= k <= s.len(),
        forall|j: int| i <= j < k ==> s[j] != '/',
        k == s.len() || s[k] == '/',
    ensures
        first_slash_from(s, i) == k,
    decreases k - i,
{
    if i < k {
        lemma_first_slash_from(s, i + 1, k);
    }
}

/// A named region of the board.  A name such as `spa/nc` denotes a specific
/// coast of a province; `from_coast` records, on an adjacency-list entry,
/// which coast of the listing region the border belongs to.
#[derive(Debug)]
pub struct Province {
    pub name: String,
    pub coast: Option<char>,
    pub from_coast: Option<char>,
}

impl Province {
    /// Finds the first `/`, or the length when there is none.
    fn find_slash(s: &str) -> (r: usize)
        ensures
            r as int == first_slash_from(s@, 0),
            r <= s@.len(),
    {
        let len = s.unicode_len();
        let mut i: usize = 0;
        while i < len
            invariant
                len == s@.len(),
                i <= len,
                forall|j: int| 0 <= j < i ==> s@[j] != '/',
            decreases len - i,
        {
            if s.get_char(i) == '/' {
                proof {
                    lemma_first_slash_from(s@, 0, i as int);
                }
                return i;
            }
            i = i + 1;
        }
        proof {
            lemma_first_slash_from(s@, 0, len as int);
        }
        len
    }

    /// Parses a province string: a `/` introduces a one-character coast
    /// qualifier, as in `stp/sc`.
    pub fn from(s: &str) -> (p: Province)
        ensures
            p.name@ == spec_prov_name(s@),
            p.coast == spec_prov_coast(s@),
            p.from_coast is None,
    {
        let len = s.unicode_len();
        let i = Self::find_slash(s);
        let name = s.substring_char(0, i).to_owned();
        let coast = if i < len && i + 1 < len {
            Some(s.get_char(i + 1))
        } else {
            None
        };
        Province { name, coast, from_coast: None }
    }
}

impl Clone for Province {
    fn clone(&self) -> (r: Self)
        ensures
            r == *self,
    {
        Province { name: self.name.clone(), coast: self.coast, from_coast: self.from_coast }
    }
}

impl PartialEq for Province {
    fn eq(&self, other: &Province) -> (r: bool) {
        self.name == other.name
    }
}

impl vstd::std_specs::cmp::PartialEqSpecImpl for Province {
    open spec fn obeys_eq_spec() -> bool {
        true
    }

    open spec fn eq_spec(&self, other: &Province) -> bool {
        self.name@ == other.name@
    }
}

/// The two kinds of unit: armies move over land borders, fleets over sea
/// borders.
#[derive(Clone, Copy, Debug, PartialEq, Eq, Structural)]
pub enum UnitType {
    Army,
    Fleet,
}

/// A unit on the board: its owning power and its kind.
#[derive(Debug)]
pub struct Unit {
    pub owner: Power,
    pub unit_type: UnitType,
}

impl Clone for Unit {
    fn clone(&self) -> (r: Self)
        ensures
            r == *self,
    {
        Unit { owner: self.owner.clone(), unit_type: self.unit_type }
    }
}

/// What a unit is ordered to do during a movement phase.
#[derive(Debug)]
pub enum Action {
    Hold,
    Move { to: Province, convoyed: bool },
    SupportHold { to: Province },
    SupportMove { from: Province, to: Province },
    Convoy { from: Province, to: Province },
}

impl Clone for Action {
    fn clone(&self) -> (r: Self)
        ensures
            r == *self,
    {
        match self {
            Action::Hold => Action::Hold,
            Action::Move { to, convoyed } => Action::Move { to: to.clone(), convoyed: *convoyed },
            Action::SupportHold { to } => Action::SupportHold { to: to.clone() },
            Action::SupportMove { from, to } => Action::SupportMove {
                from: from.clone(),
                to: to.clone(),
            },
            Action::Convoy { from, to } => Action::Convoy { from: from.clone(), to: to.clone() },
        }
    }
}

/// What a dislodged unit is ordered to do during a retreat phase.
#[derive(Debug)]
pub enum RetreatAction {
    Disband,
    Move { to: Province },
}

/// What a power orders during a build phase.
#[derive(Debug)]
pub enum AdjustAction {
    Disband,
    Build { unit_type: UnitType },
}

/// Where an order stands in the resolution state machine.
#[derive(Clone, Copy, Debug, PartialEq, Eq, Structural)]
pub enum OrderState {
    Unresolved,
    Guessing,
    Resolved,
}

/// A submitted order together with the resolution bookkeeping the engine
/// keeps for it.  `id` is the order's index in the order arena.
#[derive(Debug)]
pub struct Order {
    pub owner: Power,
    pub province: Province,
    pub action: Action,
    pub resolution: bool,
    pub state: OrderState,
    pub id: usize,
}

impl Clone for Order {
    fn clone(&self) -> (r: Self)
        ensures
            r == *self,
    {
        Order {
            owner: self.owner.clone(),
            province: self.province.clone(),
            action: self.action.clone(),
            resolution: self.resolution,
            state: self.state,
            id: self.id,
        }
    }
}

/// A submitted retreat order.
#[derive(Debug)]
pub struct Retreat {
    pub owner: Power,
    pub province: Province,
    pub action: RetreatAction,
}

/// A submitted build/disband order.
#[derive(Debug)]
pub struct Adjust {
    pub owner: Power,
    pub province: Province,
    pub action: AdjustAction,
}

/// The season/phase cycle of a game year.
#[derive(Clone, Copy, Debug, PartialEq, Eq, Structural)]
pub enum Phase {
    SpringDiplomacy,
    SpringRetreats,
    FallDiplomacy,
    FallRetreats,
    Builds,
}

/// One region of the board: its province, whether it is a supply center, its
/// current owner, the unit in it (whose owner may differ), and its borders,
/// kept separately for fleet and army movement.
#[derive(Debug)]
pub struct MapRegion {
    pub province: Province,
    pub sc: bool,
    pub owner: Option<Power>,
    pub unit: Option<Unit>,
    pub fleet_borders: Vec<Province>,
    pub army_borders: Vec<Province>,
}

/// The conditions under which a turn cannot be adjudicated.
#[derive(Clone, Copy, Debug, PartialEq, Eq, Structural)]
pub enum EngineError {
    /// A cycle of unresolved orders that is neither a pure movement cycle nor
    /// a convoy paradox: the rules define no outcome for it.
    UnknownParadox,
    /// An order was still not final when the engine finished with it.
    Unresolved,
    /// The recursion budget ran out before the orders reached a fixed point.
    DepthLimit,
}

} // verus!

