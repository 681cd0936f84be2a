//! Tokenization of textual input: whitespace-separated fields for map
//! records, and the order-text reader built on top of them.

use vstd::prelude::*;

use crate::board::Stpsyr;
use crate::model::spec_admissible;
use crate::types::Action;
use crate::types::OrderState;
use crate::types::Power;
use crate::types::Province;

verus! {

/// Relies on String::push: it appends exactly the given character.
#[verifier::external_body]
fn push_char(s: &mut String, c: char)
    ensures
        final(s)@ == old(s)@.push(c),
{
    s.push(c)
}

/// Whether `c` separates whitespace-delimited fields.
pub open spec fn is_ws(c: char) -> bool {
    c == ' ' || c == '\t' || c == '\r' || c == '\n'
}

/// Executable test for [`is_ws`].
pub fn is_ws_exec(c: char) -> (r: bool)
    ensures
        r == is_ws(c),
{
    c == ' ' || c == '\t' || c == '\r' || c == '\n'
}

/// Index of the first whitespace character at or after `i`, or `s.len()`.
pub open spec fn first_ws_from(s: Seq<char>, i: int) -> int
    decreases s.len() - i,
{
    if i < 0 || i >= s.len() {
        s.len() as int
    } else if is_ws(s[i]) {
        i
    } else {
        first_ws_from(s, i + 1)
    }
}

proof fn lemma_first_ws_bounds(s: Seq<char>, i: int)
    requires
        0 <= i <= s.len(),
    ensures
        i <= first_ws_from(s, i) <= s.len(),
    decreases s.len() - i,
{
    if i < s.len() && !is_ws(s[i]) {
        lemma_first_ws_bounds(s, i + 1);
    }
}

proof fn lemma_first_ws_from(s: Seq<char>, i: int, k: int)
    requires
        0 <= i <= k <= s.len(),
        forall|j: int| i <= j < k ==> !is_ws(s[j]),
        k == s.len() || is_ws(s[k]),
    ensures
        first_ws_from(s, i) == k,
    decreases k - i,
{
    if i < k {
        lemma_first_ws_from(s, i + 1, k);
    }
}

/// The whitespace-separated tokens of `s`, scanning from position `i`.
pub open spec fn spec_tokens_from(s: Seq<char>, i: int) -> Seq<Seq<char>>
    decreases s.len() - i,
{
    if i < 0 || i >= s.len() {
        Seq::empty()
    } else if is_ws(s[i]) {
        spec_tokens_from(s, i + 1)
    } else {
        let k = first_ws_from(s, i);
        if k <= i || k > s.len() {
            Seq::empty()
        } else {
            seq![s.subrange(i, k)] + spec_tokens_from(s, k)
        }
    }
}

/// The whitespace-separated tokens of `s`.
pub open spec fn spec_tokens(s: Seq<char>) -> Seq<Seq<char>> {
    spec_tokens_from(s, 0)
}

/// Scans from `i` to the end of the current token: the first whitespace
/// character at or after `i`.
fn scan_token(s: &str, i: usize) -> (j: usize)
    requires
        i <= s@.len(),
    ensures
        j as int == first_ws_from(s@, i as int),
        i <= j <= s@.len(),
{
    let len = s.unicode_len();
    let mut j: usize = i;
    while j < len
        invariant
            len == s@.len(),
            i <= j <= len,
            forall|t: int| i <= t < j ==> !is_ws(s@[t]),
        decreases len - j,
    {
        if is_ws_exec(s.get_char(j)) {
            proof {
                lemma_first_ws_from(s@, i as int, j as int);
            }
            return j;
        }
        j = j + 1;
    }
    proof {
        lemma_first_ws_from(s@, i as int, len as int);
    }
    len
}

/// Whether `c` separates order tokens: whitespace, the dash of `ven-tyr`,
/// or parentheses around coasts.
fn is_sep(c: char) -> (r: bool)
    ensures
        r == (is_ws(c) || c == '-' || c == '(' || c == ')'),
{
    is_ws_exec(c) || c == '-' || c == '(' || c == ')'
}

/// Splits order text into lines.
fn split_lines(s: &str) -> (r: Vec<String>) {
    let n = s.unicode_len();
    let mut out: Vec<String> = Vec::new();
    let mut cur = String::new();
    let mut i: usize = 0;
    while i < n
        invariant
            n == s@.len(),
            i <= n,
        decreases n - i,
    {
        let c = s.get_char(i);
        if c == '\n' {
            out.push(cur);
            cur = String::new();
        } else {
            push_char(&mut cur, c);
        }
        i = i + 1;
    }
    out.push(cur);
    out
}

/// Splits one line into lowercased tokens on separators.
fn tokenize_line(raw_line: &str) -> (r: Vec<String>) {
    let lowered = crate::types::lowercase_of(raw_line);
    let line = lowered.as_str();
    let n = line.unicode_len();
    let mut toks: Vec<String> = Vec::new();
    let mut cur = String::new();
    let mut i: usize = 0;
    while i < n
        invariant
            n == line@.len(),
            i <= n,
        decreases n - i,
    {
        let c = line.get_char(i);
        if is_sep(c) {
            if !cur.as_str().is_empty() {
                toks.push(cur);
                cur = String::new();
            }
        } else {
            push_char(&mut cur, c);
        }
        i = i + 1;
    }
    if !cur.as_str().is_empty() {
        toks.push(cur);
    }
    toks
}

/// Whether the token spells exactly this keyword.
fn is_lit(a: &String, b: &str) -> (r: bool)
    ensures
        r == (a@ == b@),
{
    *a == b.to_owned()
}

/// The keyword normalizations: `via convoy` collapses to `vc`; the move
/// fillers `m`, `move`, `moves` (with a following `to`) disappear; the
/// support and convoy verbs shrink to `s` and `c`.
fn normalize_tokens(toks: Vec<String>) -> (r: Vec<String>) {
    let n = toks.len();
    let mut out: Vec<String> = Vec::new();
    let mut i: usize = 0;
    while i < n
        invariant
            n == toks@.len(),
            i <= n,
        decreases n - i,
    {
        let t = &toks[i];
        if is_lit(t, "via") && i + 1 < n && is_lit(&toks[i + 1], "convoy") {
            out.push(String::from_str("vc"));
            i = i + 2;
        } else if is_lit(t, "m") || is_lit(t, "move") || is_lit(t, "moves") {
            if i + 1 < n && is_lit(&toks[i + 1], "to") {
                i = i + 2;
            } else {
                i = i + 1;
            }
        } else if is_lit(t, "support") || is_lit(t, "supports") {
            out.push(String::from_str("s"));
            i = i + 1;
        } else if is_lit(t, "convoy") || is_lit(t, "convoys") {
            out.push(String::from_str("c"));
            i = i + 1;
        } else {
            out.push(t.clone());
            i = i + 1;
        }
    }
    out
}

/// Whether the token is one of the unit or hold words that carry no
/// information for adjudication.
fn is_filler(t: &String) -> (r: bool) {
    is_lit(t, "a") || is_lit(t, "army") || is_lit(t, "f") || is_lit(t, "fleet") || is_lit(t, "h")
        || is_lit(t, "hold") || is_lit(t, "holds") || is_lit(t, "stand") || is_lit(t, "stands")
}

/// The words of a retreat line: short glue and the retreat verbs drop out,
/// leaving only province names.
fn filter_retreat_words(toks: &Vec<String>) -> (r: Vec<String>) {
    let n = toks.len();
    let mut out: Vec<String> = Vec::new();
    let mut i: usize = 0;
    while i < n
        invariant
            n == toks@.len(),
            i <= n,
        decreases n - i,
    {
        let t = &toks[i];
        let keep = t.as_str().unicode_len() >= 3 && !is_lit(t, "army") && !is_lit(t, "fleet")
            && !is_lit(t, "move") && !is_lit(t, "moves") && !is_lit(t, "retreat") && !is_lit(
            t,
            "retreats",
        ) && !is_lit(t, "disband") && !is_lit(t, "disbands") && !is_lit(t, "the") && !is_lit(
            t,
            "coast",
        );
        if keep {
            out.push(t.clone());
        }
        i = i + 1;
    }
    out
}

/// The words of a build-phase line: the build verbs shrink to `d`, `a`,
/// `f`; glue words drop out.
fn filter_adjust_words(toks: &Vec<String>) -> (r: Vec<String>) {
    let n = toks.len();
    let mut out: Vec<String> = Vec::new();
    let mut i: usize = 0;
    while i < n
        invariant
            n == toks@.len(),
            i <= n,
        decreases n - i,
    {
        let t = &toks[i];
        if is_lit(t, "destroy") || is_lit(t, "d") {
            out.push(String::from_str("d"));
        } else if is_lit(t, "army") || is_lit(t, "a") {
            out.push(String::from_str("a"));
        } else if is_lit(t, "fleet") || is_lit(t, "f") {
            out.push(String::from_str("f"));
        } else if t.as_str().unicode_len() >= 3 && !is_lit(t, "build") && !is_lit(t, "the")
            && !is_lit(t, "coast") {
            out.push(t.clone());
        }
        i = i + 1;
    }
    out
}

/// The normalized tokens with the filler words removed.
fn drop_fillers(toks: &Vec<String>) -> (r: Vec<String>) {
    let n = toks.len();
    let mut out: Vec<String> = Vec::new();
    let mut i: usize = 0;
    while i < n
        invariant
            n == toks@.len(),
            i <= n,
        decreases n - i,
    {
        if !is_filler(&toks[i]) {
            out.push(toks[i].clone());
        }
        i = i + 1;
    }
    out
}

/// What reading order text may do to the state: nothing but appending
/// admissible, unresolved orders to the order set.
pub open spec fn orders_extended(pre: Stpsyr, post: Stpsyr) -> bool {
    &&& post.map == pre.map
    &&& post.retreats == pre.retreats
    &&& post.adjusts == pre.adjusts
    &&& post.dependencies == pre.dependencies
    &&& post.dislodged == pre.dislodged
    &&& post.phase == pre.phase
    &&& post.year == pre.year
    &&& post.wf()
    &&& post.orders@.len() >= pre.orders@.len()
    &&& forall|i: int| 0 <= i < pre.orders@.len() ==> (#[trigger] post.orders@[i]) == pre.orders@[i]
    &&& forall|i: int|
        pre.orders@.len() <= i < post.orders@.len() ==> {
            let o = #[trigger] post.orders@[i];
            &&& spec_admissible(pre.map@, o.owner, o.province, o.action)
            &&& o.state is Unresolved
            &&& !o.resolution
        }
}

/// `orders_extended` composes.
proof fn lemma_orders_extended_trans(a: Stpsyr, b: Stpsyr, c: Stpsyr)
    requires
        orders_extended(a, b),
        orders_extended(b, c),
    ensures
        orders_extended(a, c),
{
    assert forall|i: int|
        a.orders@.len() <= i < c.orders@.len() implies {
        let o = #[trigger] c.orders@[i];
        &&& spec_admissible(a.map@, o.owner, o.province, o.action)
        &&& o.state is Unresolved
        &&& !o.resolution
    } by {
        if i < b.orders@.len() {
            assert(c.orders@[i] == b.orders@[i]);
        }
        assert(b.map@ == a.map@);
    }
}

impl Stpsyr {
    /// Reads free-text orders and submits each through the admission check.
    /// One line holds one order; a line with a single token instead names
    /// the power that owns the orders that follow.  A line that fits no
    /// order form is ignored, and admission silently drops what the rules
    /// reject: parsing adds admissible, unresolved orders and changes
    /// nothing else.
    pub fn parse_orders(&mut self, orders: String)
        requires
            old(self).wf(),
        ensures
            orders_extended(*old(self), *final(self)),
    {
        let mut power = Power::from("");
        let lines = split_lines(orders.as_str());
        let nl = lines.len();
        let mut li: usize = 0;
        while li < nl
            invariant
                nl == lines@.len(),
                li <= nl,
                orders_extended(*old(self), *self),
            decreases nl - li,
        {
            let raw = tokenize_line(lines[li].as_str());
            let toks = normalize_tokens(raw);
            if toks.len() == 1 {
                // A lone token names the power submitting what follows.
                power = Power::from(toks[0].as_str());
            } else if toks.len() >= 2 {
                let words = drop_fillers(&toks);
                if words.len() >= 1 {
                    let province = Province::from(words[0].as_str());
                    if words.len() == 1 {
                        // A bare province (after dropping hold words) holds:
                        // holding is the default and needs no order.
                    } else if is_lit(&words[1], "s") {
                        if words.len() >= 4 {
                            let action = Action::SupportMove {
                                from: Province::from(words[2].as_str()),
                                to: Province::from(words[3].as_str()),
                            };
                            self.submit_parsed(&power, province, action);
                        } else if words.len() == 3 {
                            let action = Action::SupportHold {
                                to: Province::from(words[2].as_str()),
                            };
                            self.submit_parsed(&power, province, action);
                        }
                    } else if is_lit(&words[1], "c") {
                        if words.len() >= 4 {
                            let action = Action::Convoy {
                                from: Province::from(words[2].as_str()),
                                to: Province::from(words[3].as_str()),
                            };
                            self.submit_parsed(&power, province, action);
                        }
                    } else {
                        let vc = words.len() >= 3 && is_lit(&words[2], "vc");
                        let action = Action::Move {
                            to: Province::from(words[1].as_str()),
                            convoyed: vc,
                        };
                        self.submit_parsed(&power, province, action);
                    }
                }
            }
            li = li + 1;
        }
    }

    /// Reads free-text retreat orders for one power: a line names the
    /// retreating province and either a destination (a retreat move) or
    /// nothing (a disband).  A line with extra words is ignored.
    pub fn parse_retreats(&mut self, power: &Power, orders: String)
        ensures
            final(self).map == old(self).map,
            final(self).orders == old(self).orders,
            final(self).adjusts == old(self).adjusts,
            final(self).dependencies == old(self).dependencies,
            final(self).dislodged == old(self).dislodged,
            final(self).phase == old(self).phase,
            final(self).year == old(self).year,
            final(self).retreats@.len() >= old(self).retreats@.len(),
            forall|i: int|
                0 <= i < old(self).retreats@.len() ==> (#[trigger] final(self).retreats@[i])
                    == old(self).retreats@[i],
            forall|i: int|
                old(self).retreats@.len() <= i < final(self).retreats@.len() ==> (
                #[trigger] final(self).retreats@[i]).owner == *power,
    {
        let lines = split_lines(orders.as_str());
        let nl = lines.len();
        let mut li: usize = 0;
        while li < nl
            invariant
                nl == lines@.len(),
                li <= nl,
                self.map == old(self).map,
                self.orders == old(self).orders,
                self.adjusts == old(self).adjusts,
                self.dependencies == old(self).dependencies,
                self.dislodged == old(self).dislodged,
                self.phase == old(self).phase,
                self.year == old(self).year,
                self.retreats@.len() >= old(self).retreats@.len(),
                forall|i: int|
                    0 <= i < old(self).retreats@.len() ==> (#[trigger] self.retreats@[i])
                        == old(self).retreats@[i],
                forall|i: int|
                    old(self).retreats@.len() <= i < self.retreats@.len() ==> (
                    #[trigger] self.retreats@[i]).owner == *power,
            decreases nl - li,
        {
            let toks = tokenize_line(lines[li].as_str());
            let words = filter_retreat_words(&toks);
            if words.len() == 1 {
                self.add_retreat(
                    power.clone(),
                    Province::from(words[0].as_str()),
                    crate::types::RetreatAction::Disband,
                );
            } else if words.len() == 2 {
                self.add_retreat(
                    power.clone(),
                    Province::from(words[0].as_str()),
                    crate::types::RetreatAction::Move {
                        to: Province::from(words[1].as_str()),
                    },
                );
            }
            li = li + 1;
        }
    }

    /// Reads free-text build-phase orders for one power: `destroy` followed
    /// by a province disbands its unit; `army` or `fleet` followed by a
    /// province builds one there.
    pub fn parse_adjusts(&mut self, power: &Power, orders: String)
        ensures
            final(self).map == old(self).map,
            final(self).orders == old(self).orders,
            final(self).retreats == old(self).retreats,
            final(self).dependencies == old(self).dependencies,
            final(self).dislodged == old(self).dislodged,
            final(self).phase == old(self).phase,
            final(self).year == old(self).year,
            final(self).adjusts@.len() >= old(self).adjusts@.len(),
            forall|i: int|
                0 <= i < old(self).adjusts@.len() ==> (#[trigger] final(self).adjusts@[i])
                    == old(self).adjusts@[i],
            forall|i: int|
                old(self).adjusts@.len() <= i < final(self).adjusts@.len() ==> (
                #[trigger] final(self).adjusts@[i]).owner == *power,
    {
        let lines = split_lines(orders.as_str());
        let nl = lines.len();
        let mut li: usize = 0;
        while li < nl
            invariant
                nl == lines@.len(),
                li <= nl,
                self.map == old(self).map,
                self.orders == old(self).orders,
                self.retreats == old(self).retreats,
                self.dependencies == old(self).dependencies,
                self.dislodged == old(self).dislodged,
                self.phase == old(self).phase,
                self.year == old(self).year,
                self.adjusts@.len() >= old(self).adjusts@.len(),
                forall|i: int|
                    0 <= i < old(self).adjusts@.len() ==> (#[trigger] self.adjusts@[i])
                        == old(self).adjusts@[i],
                forall|i: int|
                    old(self).adjusts@.len() <= i < self.adjusts@.len() ==> (
                    #[trigger] self.adjusts@[i]).owner == *power,
            decreases nl - li,
        {
            let toks = tokenize_line(lines[li].as_str());
            let words = filter_adjust_words(&toks);
            if words.len() >= 2 {
                if is_lit(&words[0], "d") {
                    self.add_adjust(
                        power.clone(),
                        Province::from(words[1].as_str()),
                        crate::types::AdjustAction::Disband,
                    );
                } else if is_lit(&words[0], "a") {
                    self.add_adjust(
                        power.clone(),
                        Province::from(words[1].as_str()),
                        crate::types::AdjustAction::Build {
                            unit_type: crate::types::UnitType::Army,
                        },
                    );
                } else if is_lit(&words[0], "f") {
                    self.add_adjust(
                        power.clone(),
                        Province::from(words[1].as_str()),
                        crate::types::AdjustAction::Build {
                            unit_type: crate::types::UnitType::Fleet,
                        },
                    );
                }
            }
            li = li + 1;
        }
    }

    /// Reads whatever kind of order text the current phase calls for.
    /// During a movement phase the text itself may name the submitting
    /// powers; during retreat and build phases every line belongs to the
    /// given power.
    pub fn parse(&mut self, power: &Power, orders: String)
        requires
            old(self).wf(),
        ensures
            final(self).wf(),
            final(self).map == old(self).map,
            final(self).phase == old(self).phase,
            final(self).year == old(self).year,
            final(self).dislodged == old(self).dislodged,
            (old(self).phase is SpringDiplomacy || old(self).phase is FallDiplomacy)
                ==> orders_extended(*old(self), *final(self)),
            (old(self).phase is SpringRetreats || old(self).phase is FallRetreats) ==> (
            final(self).orders == old(self).orders && final(self).adjusts == old(self).adjusts),
            old(self).phase is Builds ==> (final(self).orders == old(self).orders
                && final(self).retreats == old(self).retreats),
    {
        match self.phase {
            crate::types::Phase::SpringDiplomacy => self.parse_orders(orders),
            crate::types::Phase::FallDiplomacy => self.parse_orders(orders),
            crate::types::Phase::SpringRetreats => self.parse_retreats(power, orders),
            crate::types::Phase::FallRetreats => self.parse_retreats(power, orders),
            crate::types::Phase::Builds => self.parse_adjusts(power, orders),
        }
    }

    /// Runs whatever kind of resolution the current phase calls for.  A
    /// movement phase adjudicates and commits exactly as [`Stpsyr::apply_orders`]
    /// does; the bookkeeping phases leave the state as it is.
    pub fn apply(&mut self) -> (r: Result<(), crate::types::EngineError>)
        requires
            old(self).wf(),
            old(self).year < i32::MAX,
        ensures
            final(self).wf(),
            (old(self).phase is SpringRetreats || old(self).phase is FallRetreats || old(
                self
            ).phase is Builds) ==> (*final(self) == *old(self) && r is Ok),
            r is Err ==> old(self).same_board(*final(self)),
            (old(self).phase is SpringDiplomacy || old(self).phase is FallDiplomacy) && r is Ok
                ==> ({
                &&& final(self).orders@.len() == 0
                &&& final(self).phase == crate::model::spec_next_phase(
                    old(self).phase,
                    final(self).dislodged@.len() == 0,
                )
                &&& final(self).year == old(self).year
                &&& exists|rs: Seq<crate::types::Order>|
                    #[trigger] crate::engine::applied_with(
                        *old(self),
                        *final(self),
                        final(self).dislodged@,
                        rs,
                    )
            }),
    {
        match self.phase {
            crate::types::Phase::SpringDiplomacy => match self.apply_orders() {
                Ok(d) => {
                    proof {
                        let rs0 = choose|rs: Seq<crate::types::Order>|
                            #[trigger] crate::engine::applied_with(*old(self), *self, d@, rs);
                        assert(crate::engine::applied_with(
                            *old(self),
                            *self,
                            self.dislodged@,
                            rs0,
                        ));
                    }
                    Ok(())
                },
                Err(e) => Err(e),
            },
            crate::types::Phase::FallDiplomacy => match self.apply_orders() {
                Ok(d) => {
                    proof {
                        let rs0 = choose|rs: Seq<crate::types::Order>|
                            #[trigger] crate::engine::applied_with(*old(self), *self, d@, rs);
                        assert(crate::engine::applied_with(
                            *old(self),
                            *self,
                            self.dislodged@,
                            rs0,
                        ));
                    }
                    Ok(())
                },
                Err(e) => Err(e),
            },
            crate::types::Phase::SpringRetreats => {
                self.apply_retreats();
                Ok(())
            },
            crate::types::Phase::FallRetreats => {
                self.apply_retreats();
                Ok(())
            },
            crate::types::Phase::Builds => {
                self.apply_adjusts();
                Ok(())
            },
        }
    }

    /// Hands one parsed order to the admission check.
    fn submit_parsed(&mut self, power: &Power, province: Province, action: Action)
        requires
            old(self).wf(),
        ensures
            orders_extended(*old(self), *final(self)),
    {
        let ow = power.clone();
        let ghost gow = ow;
        let ghost gprov = province;
        let ghost gact = action;
        let ghost pre = *self;
        self.add_order(ow, province, action);
        proof {
            if spec_admissible(pre.map@, gow, gprov, gact) {
                assert(self.orders@ == pre.orders@.push(
                    crate::types::Order {
                        owner: gow,
                        province: gprov,
                        action: gact,
                        resolution: false,
                        state: OrderState::Unresolved,
                        id: pre.orders@.len() as usize,
                    },
                ));
            }
            assert(orders_extended(pre, *self));
        }
    }
}

/// Splits `s` into its whitespace-separated tokens.
pub fn split_ws(s: &str) -> (toks: Vec<String>)
    ensures
        toks@.map_values(|t: String| t@) == spec_tokens(s@),
{
    let len = s.unicode_len();
    let mut toks: Vec<String> = Vec::new();
    let mut i: usize = 0;
    while i < len
        invariant
            len == s@.len(),
            i <= len,
            toks@.map_values(|t: String| t@) + spec_tokens_from(s@, i as int) == spec_tokens(s@),
        decreases len - i,
    {
        let c = s.get_char(i);
        if is_ws_exec(c) {
            i = i + 1;
        } else {
            let j = scan_token(s, i);
            let tok = s.substring_char(i, j).to_owned();
            proof {
                assert(j > i) by {
                    assert(!is_ws(s@[i as int]));
                    lemma_first_ws_bounds(s@, i + 1);
                }
                let prev = toks@.map_values(|t: String| t@);
                assert(toks@.push(tok).map_values(|t: String| t@) =~= prev.push(tok@));
                assert(prev.push(tok@) + spec_tokens_from(s@, j as int) =~= prev + (seq![s@.subrange(
                    i as int,
                    j as int,
                )] + spec_tokens_from(s@, j as int)));
            }
            toks.push(tok);
            i = j;
        }
    }
    proof {
        assert(toks@.map_values(|t: String| t@) + spec_tokens_from(s@, len as int) =~= toks@.map_values(
            |t: String| t@,
        ));
    }
    toks
}

} // verus!
