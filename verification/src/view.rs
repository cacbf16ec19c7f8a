//! What the interface shows of a savefile: its wars, each with its battles and
//! their losses and units, in display order (most losses first).

use vstd::prelude::*;
use crate::sort::{
    SortKey, int_sum, is_permutation, is_stable_sort_of, lemma_int_sum_permuted,
    lemma_sorted_rearrangement, sorted_rearrangement_of, sorted_stably, stable_sort,
};
use crate::text::{chars_less, chars_lt, chars_of, int_text, lemma_chars_lt_irreflexive, lemma_text_order, push_chars, push_str, string_of};
use crate::war::{
    Battle, BattleSide, SpecBattle, SpecBattleSide, SpecWarData, UnitCounts, WarCollection, WarData,
    WarKind, attacker_losses_sum, battle_losses, corrected_raw_spec, defender_losses_sum,
    keys_distinct, lemma_lookup_at, lemma_lookup_cases, lookup_count, opt_string_view, strings_view,
    wars_view,
};

verus! {

#[derive(Debug, Clone, Copy, PartialEq, Eq, Structural)]
pub enum WarKindView {
    Previous,
    Active,
}

/// One unit kind of a battle and how many of it each side brought.
#[derive(Debug, PartialEq, Eq)]
pub struct UnitBreakdownRowView {
    pub unit_kind: String,
    pub attacker_count: i64,
    pub defender_count: i64,
}

/// A battle side; losses in thousandths.
#[derive(Debug, PartialEq)]
pub struct BattleSideView {
    pub country: Option<String>,
    pub leader: Option<String>,
    pub losses: Option<u64>,
}

/// A battle; losses in thousandths.
#[derive(Debug, PartialEq)]
pub struct BattleView {
    pub name: String,
    pub location_id: i64,
    pub location_label: String,
    pub total_losses: u64,
    pub attacker: BattleSideView,
    pub defender: BattleSideView,
    pub unit_breakdown: Vec<UnitBreakdownRowView>,
}

/// A war; losses in thousandths.
#[derive(Debug, PartialEq)]
pub struct WarView {
    pub name: String,
    pub kind: WarKindView,
    pub attackers: Vec<String>,
    pub defenders: Vec<String>,
    pub battle_count: usize,
    pub total_losses: u128,
    pub battles: Vec<BattleView>,
}

#[derive(Debug, PartialEq)]
pub struct ParsedSavefileView {
    pub path: String,
    pub top_level_statement_count: usize,
    pub active_wars: Vec<WarView>,
    pub previous_wars: Vec<WarView>,
}

// ---------------------------------------------------------------------------
// Display orders
// ---------------------------------------------------------------------------

pub open spec fn row_total(r: UnitBreakdownRowView) -> int {
    r.attacker_count as int + r.defender_count as int
}

/// More units first, then by unit kind.
pub open spec fn row_before(a: UnitBreakdownRowView, b: UnitBreakdownRowView) -> bool {
    row_total(a) > row_total(b) || (row_total(a) == row_total(b) && chars_lt(
        a.unit_kind@,
        b.unit_kind@,
    ))
}

/// More losses first, then by name, then by location.
pub open spec fn battle_before(a: BattleView, b: BattleView) -> bool {
    ||| a.total_losses > b.total_losses
    ||| a.total_losses == b.total_losses && chars_lt(a.name@, b.name@)
    ||| a.total_losses == b.total_losses && a.name@ == b.name@ && a.location_id < b.location_id
}

/// More losses first, then more battles, then by name.
pub open spec fn war_before(a: WarView, b: WarView) -> bool {
    ||| a.total_losses > b.total_losses
    ||| a.total_losses == b.total_losses && a.battle_count > b.battle_count
    ||| a.total_losses == b.total_losses && a.battle_count == b.battle_count && chars_lt(
        a.name@,
        b.name@,
    )
}

impl SortKey for UnitBreakdownRowView {
    open spec fn spec_before(&self, other: &Self) -> bool {
        row_before(*self, *other)
    }

    proof fn lemma_irreflexive(a: &Self) {
        lemma_chars_lt_irreflexive(a.unit_kind@);
    }

    proof fn lemma_transitive(a: &Self, b: &Self, c: &Self) {
        lemma_text_order(a.unit_kind@, b.unit_kind@, c.unit_kind@);
    }

    proof fn lemma_connected(a: &Self, b: &Self, c: &Self) {
        lemma_text_order(a.unit_kind@, b.unit_kind@, c.unit_kind@);
        lemma_text_order(a.unit_kind@, c.unit_kind@, b.unit_kind@);
        lemma_text_order(c.unit_kind@, b.unit_kind@, a.unit_kind@);
    }

    fn before(&self, other: &Self) -> (r: bool) {
        let a = self.attacker_count as i128 + self.defender_count as i128;
        let b = other.attacker_count as i128 + other.defender_count as i128;
        if a != b {
            a > b
        } else {
            chars_less(&chars_of(self.unit_kind.as_str()), &chars_of(other.unit_kind.as_str()))
        }
    }
}

impl SortKey for BattleView {
    open spec fn spec_before(&self, other: &Self) -> bool {
        battle_before(*self, *other)
    }

    proof fn lemma_irreflexive(a: &Self) {
        lemma_chars_lt_irreflexive(a.name@);
    }

    proof fn lemma_transitive(a: &Self, b: &Self, c: &Self) {
        lemma_text_order(a.name@, b.name@, c.name@);
    }

    proof fn lemma_connected(a: &Self, b: &Self, c: &Self) {
        lemma_text_order(a.name@, b.name@, c.name@);
        lemma_text_order(a.name@, c.name@, b.name@);
        lemma_text_order(c.name@, b.name@, a.name@);
    }

    fn before(&self, other: &Self) -> (r: bool) {
        if self.total_losses != other.total_losses {
            return self.total_losses > other.total_losses;
        }
        let a = chars_of(self.name.as_str());
        let b = chars_of(other.name.as_str());
        if chars_less(&a, &b) {
            return true;
        }
        if self.name == other.name {
            return self.location_id < other.location_id;
        }
        false
    }
}

impl SortKey for WarView {
    open spec fn spec_before(&self, other: &Self) -> bool {
        war_before(*self, *other)
    }

    proof fn lemma_irreflexive(a: &Self) {
        lemma_chars_lt_irreflexive(a.name@);
    }

    proof fn lemma_transitive(a: &Self, b: &Self, c: &Self) {
        lemma_text_order(a.name@, b.name@, c.name@);
    }

    proof fn lemma_connected(a: &Self, b: &Self, c: &Self) {
        lemma_text_order(a.name@, b.name@, c.name@);
        lemma_text_order(a.name@, c.name@, b.name@);
        lemma_text_order(c.name@, b.name@, a.name@);
    }

    fn before(&self, other: &Self) -> (r: bool) {
        if self.total_losses != other.total_losses {
            return self.total_losses > other.total_losses;
        }
        if self.battle_count != other.battle_count {
            return self.battle_count > other.battle_count;
        }
        chars_less(&chars_of(self.name.as_str()), &chars_of(other.name.as_str()))
    }
}

// ---------------------------------------------------------------------------
// What each view shows
// ---------------------------------------------------------------------------

/// How many of unit kind `k` a side brought; zero when none.
pub open spec fn count_or_zero(m: Map<Seq<char>, i64>, k: Seq<char>) -> i64 {
    if m.contains_key(k) {
        m[k]
    } else {
        0
    }
}

/// The unit rows of a battle: one per unit kind either side brought, with
/// both sides' counts, more units first and then by unit kind.
pub open spec fn rows_of(
    rows: Seq<UnitBreakdownRowView>,
    attacker: Map<Seq<char>, i64>,
    defender: Map<Seq<char>, i64>,
) -> bool {
    &&& forall|i: int|
        0 <= i < rows.len() ==> {
            let k = (#[trigger] rows[i]).unit_kind@;
            &&& attacker.contains_key(k) || defender.contains_key(k)
            &&& rows[i].attacker_count == count_or_zero(attacker, k)
            &&& rows[i].defender_count == count_or_zero(defender, k)
        }
    &&& forall|k: Seq<char>|
        #![trigger attacker.contains_key(k)]
        #![trigger defender.contains_key(k)]
        attacker.contains_key(k) || defender.contains_key(k) ==> exists|i: int|
            0 <= i < rows.len() && (#[trigger] rows[i]).unit_kind@ == k
    &&& forall|i: int, j: int|
        #![trigger rows[i], rows[j]]
        0 <= i < j < rows.len() ==> rows[i].unit_kind@ != rows[j].unit_kind@ && !row_before(
            rows[j],
            rows[i],
        )
}

pub open spec fn side_view_of(v: BattleSideView, s: SpecBattleSide) -> bool {
    &&& opt_string_view(v.country) == s.country
    &&& opt_string_view(v.leader) == s.leader
    &&& match v.losses {
        Some(x) => s.losses matches Some(raw) && x == corrected_raw_spec(raw),
        None => s.losses is None,
    }
}

pub open spec fn battle_view_of(v: BattleView, b: SpecBattle) -> bool {
    &&& v.name@ == b.name
    &&& v.location_id == b.location
    &&& v.location_label@ == "Province #"@ + int_text(b.location as int)
    &&& v.total_losses == battle_losses(b)
    &&& side_view_of(v.attacker, b.attacker)
    &&& side_view_of(v.defender, b.defender)
    &&& rows_of(v.unit_breakdown@, b.attacker.unit_counts, b.defender.unit_counts)
}

pub open spec fn kind_view(k: WarKind) -> WarKindView {
    match k {
        WarKind::Previous => WarKindView::Previous,
        WarKind::Active => WarKindView::Active,
    }
}

/// The participants of a side, or its original participant alone when none are listed.
pub open spec fn participants(listed: Seq<Seq<char>>, original: Seq<char>) -> Seq<Seq<char>> {
    if listed.len() == 0 {
        seq![original]
    } else {
        listed
    }
}

pub open spec fn war_view_of(v: WarView, w: SpecWarData) -> bool {
    &&& v.name@ == w.name
    &&& v.kind == kind_view(w.kind)
    &&& strings_view(v.attackers@) == participants(w.attackers, w.original_attacker)
    &&& strings_view(v.defenders@) == participants(w.defenders, w.original_defender)
    &&& v.battle_count == w.history.battles.len()
    &&& v.total_losses == attacker_losses_sum(w.history.battles) + defender_losses_sum(
        w.history.battles,
    )
    &&& sorted_rearrangement_of(
        v.battles@,
        w.history.battles,
        |bv: BattleView, b: SpecBattle| battle_view_of(bv, b),
    )
}

/// The war views of `wars`: one per war, most losses first, then most
/// battles, then by name; wars equal in all three keep their order.
pub open spec fn war_views_of(views: Seq<WarView>, wars: Seq<SpecWarData>) -> bool {
    sorted_rearrangement_of(views, wars, |v: WarView, w: SpecWarData| war_view_of(v, w))
}


// ---------------------------------------------------------------------------
// Building the views
// ---------------------------------------------------------------------------

/// The rows before sorting: the attacker's kinds in order, then the
/// defender's kinds the attacker did not bring.
pub open spec fn rows_cover(
    rows: Seq<UnitBreakdownRowView>,
    attacker: Map<Seq<char>, i64>,
    defender: Map<Seq<char>, i64>,
) -> bool {
    &&& forall|i: int|
        0 <= i < rows.len() ==> {
            let k = (#[trigger] rows[i]).unit_kind@;
            &&& attacker.contains_key(k) || defender.contains_key(k)
            &&& rows[i].attacker_count == count_or_zero(attacker, k)
            &&& rows[i].defender_count == count_or_zero(defender, k)
        }
    &&& forall|i: int, j: int|
        #![trigger rows[i], rows[j]]
        0 <= i < j < rows.len() ==> rows[i].unit_kind@ != rows[j].unit_kind@
}

fn count_in(counts: &UnitCounts, key: &String) -> (r: i64)
    ensures
        r == count_or_zero(counts@, key@),
{
    match counts.get(key.as_str()) {
        Some(c) => *c,
        None => 0,
    }
}

/// A battle's unit rows: one per unit kind either side brought, with both
/// sides' counts, most units first and then by unit kind.
pub fn build_unit_breakdown(battle: &Battle) -> (r: Vec<UnitBreakdownRowView>)
    ensures
        rows_of(r@, battle@.attacker.unit_counts, battle@.defender.unit_counts),
        forall|i: int, j: int|
            0 <= i < j < r@.len() ==> (#[trigger] r@[i]).attacker_count + r@[i].defender_count
                >= (#[trigger] r@[j]).attacker_count + r@[j].defender_count,
{
    let attacker = &battle.attacker.unit_counts;
    let defender = &battle.defender.unit_counts;
    let ghost a = attacker@;
    let ghost d = defender@;
    let ghost ea = attacker.spec_entries();
    let ghost ed = defender.spec_entries();
    let mut rows: Vec<UnitBreakdownRowView> = Vec::new();
    let na = attacker.len();
    let mut i: usize = 0;
    while i < na
        invariant
            i <= na,
            na == ea.len(),
            keys_distinct(ea),
            ea == attacker.spec_entries(),
            a == attacker@,
            d == defender@,
            rows@.len() == i,
            rows_cover(rows@, a, d),
            forall|m: int| 0 <= m < i ==> (#[trigger] rows@[m]).unit_kind@ == ea[m].0,
        decreases na - i,
    {
        let entry = attacker.entry(i);
        let ghost k = entry.unit_kind@;
        proof {
            lemma_lookup_at(ea, i as int);
        }
        let defender_count = count_in(defender, &entry.unit_kind);
        let row = UnitBreakdownRowView {
            unit_kind: entry.unit_kind.clone(),
            attacker_count: entry.count,
            defender_count,
        };
        let ghost before = rows@;
        rows.push(row);
        proof {
            assert forall|x: int, y: int|
                #![trigger rows@[x], rows@[y]]
                0 <= x < y < rows@.len() implies rows@[x].unit_kind@ != rows@[y].unit_kind@ by {
                if y == i {
                    assert(rows@[x] == before[x]);
                    assert(ea[x].0 != ea[i as int].0);
                } else {
                    assert(rows@[x] == before[x] && rows@[y] == before[y]);
                }
            }
            assert forall|m: int| 0 <= m <= i implies (#[trigger] rows@[m]).unit_kind@ == ea[m].0 by {
                if m < i {
                    assert(rows@[m] == before[m]);
                }
            }
        }
        i += 1;
    }
    let nd = defender.len();
    let mut j: usize = 0;
    while j < nd
        invariant
            j <= nd,
            na == ea.len(),
            nd == ed.len(),
            keys_distinct(ea),
            keys_distinct(ed),
            ea == attacker.spec_entries(),
            ed == defender.spec_entries(),
            a == attacker@,
            d == defender@,
            na <= rows@.len(),
            rows_cover(rows@, a, d),
            forall|m: int| 0 <= m < na ==> (#[trigger] rows@[m]).unit_kind@ == ea[m].0,
            forall|m: int|
                na <= m < rows@.len() ==> !a.contains_key((#[trigger] rows@[m]).unit_kind@)
                    && exists|x: int| 0 <= x < j && ed[x].0 == rows@[m].unit_kind@,
            forall|x: int|
                0 <= x < j && !a.contains_key(#[trigger] ed[x].0) ==> exists|m: int|
                    na <= m < rows@.len() && rows@[m].unit_kind@ == ed[x].0,
        decreases nd - j,
    {
        let entry = defender.entry(j);
        let ghost k = entry.unit_kind@;
        proof {
            lemma_lookup_at(ed, j as int);
        }
        let ghost before = rows@;
        match attacker.get(entry.unit_kind.as_str()) {
            Some(_) => {},
            None => {
                let row = UnitBreakdownRowView {
                    unit_kind: entry.unit_kind.clone(),
                    attacker_count: 0,
                    defender_count: entry.count,
                };
                rows.push(row);
                proof {
                    assert forall|x: int, y: int|
                        #![trigger rows@[x], rows@[y]]
                        0 <= x < y < rows@.len() implies rows@[x].unit_kind@ != rows@[y].unit_kind@ by {
                        if y == before.len() {
                            assert(rows@[x] == before[x]);
                            if x < na {
                                lemma_lookup_at(ea, x);
                            } else {
                                let w = choose|w: int| 0 <= w < j && ed[w].0 == before[x].unit_kind@;
                                assert(ed[w].0 != ed[j as int].0);
                            }
                        } else {
                            assert(rows@[x] == before[x] && rows@[y] == before[y]);
                        }
                    }
                }
            },
        }
        proof {
            assert forall|m: int| 0 <= m < na implies (#[trigger] rows@[m]).unit_kind@ == ea[m].0 by {
                assert(rows@[m] == before[m]);
            }
            assert forall|m: int|
                na <= m < rows@.len() implies !a.contains_key((#[trigger] rows@[m]).unit_kind@)
                && exists|x: int| 0 <= x < j + 1 && ed[x].0 == rows@[m].unit_kind@ by {
                if m < before.len() {
                    assert(rows@[m] == before[m]);
                    let w = choose|w: int| 0 <= w < j && ed[w].0 == before[m].unit_kind@;
                    assert(0 <= w < j + 1 && ed[w].0 == rows@[m].unit_kind@);
                } else {
                    assert(ed[j as int].0 == rows@[m].unit_kind@);
                }
            }
            assert forall|x: int|
                0 <= x < j + 1 && !a.contains_key(#[trigger] ed[x].0) implies exists|m: int|
                na <= m < rows@.len() && rows@[m].unit_kind@ == ed[x].0 by {
                if x < j {
                    let m = choose|m: int| na <= m < before.len() && before[m].unit_kind@ == ed[x].0;
                    assert(rows@[m] == before[m]);
                } else {
                    assert(rows@[rows@.len() - 1].unit_kind@ == ed[x].0);
                }
            }
        }
        j += 1;
    }
    let ghost unsorted = rows@;
    proof {
        assert forall|k: Seq<char>| a.contains_key(k) || d.contains_key(k) implies exists|i: int|
            0 <= i < unsorted.len() && (#[trigger] unsorted[i]).unit_kind@ == k by {
            lemma_lookup_cases(ea, k);
            lemma_lookup_cases(ed, k);
            if a.contains_key(k) {
                let x = choose|x: int| 0 <= x < ea.len() && (#[trigger] ea[x]).0 == k && lookup_count(ea, k) == Some(ea[x].1);
                assert(unsorted[x].unit_kind@ == k);
            } else {
                let x = choose|x: int| 0 <= x < ed.len() && (#[trigger] ed[x]).0 == k && lookup_count(ed, k) == Some(ed[x].1);
                assert(!a.contains_key(ed[x].0));
            }
        }
    }
    let sorted = stable_sort(rows);
    proof {
        let p = choose|p: Seq<int>|
            #![trigger crate::sort::is_permutation(p, unsorted.len() as int)]
            crate::sort::is_permutation(p, unsorted.len() as int) && sorted@.len() == unsorted.len()
                && crate::sort::sorted_stably(sorted@, p) && forall|i: int|
                0 <= i < sorted@.len() ==> #[trigger] sorted@[i] == unsorted[p[i]];
        let r = sorted@;
        assert forall|i: int| 0 <= i < r.len() implies {
            let k = (#[trigger] r[i]).unit_kind@;
            &&& a.contains_key(k) || d.contains_key(k)
            &&& r[i].attacker_count == count_or_zero(a, k)
            &&& r[i].defender_count == count_or_zero(d, k)
        } by {
            assert(r[i] == unsorted[p[i]]);
        }
        assert forall|k: Seq<char>| a.contains_key(k) || d.contains_key(k) implies exists|i: int|
            0 <= i < r.len() && (#[trigger] r[i]).unit_kind@ == k by {
            let m = choose|m: int| 0 <= m < unsorted.len() && (#[trigger] unsorted[m]).unit_kind@ == k;
            assert(crate::sort::covered(p, m));
            let i = choose|i: int| 0 <= i < p.len() && p[i] == m;
            assert(r[i] == unsorted[m]);
        }
        assert forall|i: int, j: int|
            #![trigger r[i], r[j]]
            0 <= i < j < r.len() implies r[i].unit_kind@ != r[j].unit_kind@ && !row_before(r[j], r[i]) by {
            assert(r[i] == unsorted[p[i]] && r[j] == unsorted[p[j]]);
            if p[i] < p[j] {
                assert(unsorted[p[i]].unit_kind@ != unsorted[p[j]].unit_kind@);
            } else {
                assert(unsorted[p[j]].unit_kind@ != unsorted[p[i]].unit_kind@);
            }
        }
        lemma_unit_rows_by_total(r, a, d);
    }
    sorted
}

fn build_side_view(side: &BattleSide) -> (r: BattleSideView)
    ensures
        side_view_of(r, side@),
{
    let country = match &side.country {
        Some(c) => Some(c.clone()),
        None => None,
    };
    let leader = match &side.leader {
        Some(l) => Some(l.clone()),
        None => None,
    };
    BattleSideView { country, leader, losses: side.losses_amount() }
}

/// `Province #` and the location number.
fn location_label(location: i64) -> (r: String)
    ensures
        r@ == "Province #"@ + int_text(location as int),
{
    let mut out: Vec<char> = chars_of("Province #");
    let digits = crate::text::i64_text(location);
    push_chars(&mut out, &digits);
    string_of(&out)
}

fn build_battle_view(battle: &Battle) -> (r: BattleView)
    ensures
        battle_view_of(r, battle@),
{
    BattleView {
        name: battle.name.clone(),
        location_id: battle.location,
        location_label: location_label(battle.location),
        total_losses: battle.total_losses(),
        attacker: build_side_view(&battle.attacker),
        defender: build_side_view(&battle.defender),
        unit_breakdown: build_unit_breakdown(battle),
    }
}

fn clone_strings(v: &Vec<String>) -> (r: Vec<String>)
    ensures
        strings_view(r@) == strings_view(v@),
{
    let mut r: Vec<String> = Vec::new();
    let mut i: usize = 0;
    while i < v.len()
        invariant
            i <= v.len(),
            r@.len() == i,
            forall|m: int| 0 <= m < i ==> (#[trigger] r@[m])@ == v@[m]@,
        decreases v.len() - i,
    {
        let ghost before = r@;
        r.push(v[i].clone());
        assert forall|m: int| 0 <= m <= i implies (#[trigger] r@[m])@ == v@[m]@ by {
            if m < i {
                assert(r@[m] == before[m]);
            }
        }
        i += 1;
    }
    assert(strings_view(r@) =~= strings_view(v@));
    r
}

/// The listed participants, or the original participant alone when none are listed.
pub fn participant_list(participants_listed: &Vec<String>, original: &String) -> (r: Vec<String>)
    ensures
        strings_view(r@) == participants(strings_view(participants_listed@), original@),
{
    if participants_listed.len() == 0 {
        let mut r: Vec<String> = Vec::new();
        r.push(original.clone());
        assert(strings_view(r@) =~= seq![original@]);
        r
    } else {
        clone_strings(participants_listed)
    }
}

fn build_war_view(war: &WarData) -> (r: WarView)
    ensures
        war_view_of(r, war@),
{
    let battles = &war.history.battles;
    let ghost src = war@.history.battles;
    let mut views: Vec<BattleView> = Vec::new();
    let mut i: usize = 0;
    while i < battles.len()
        invariant
            i <= battles.len(),
            src == war@.history.battles,
            battles@ == war.history.battles@,
            src.len() == battles.len(),
            views@.len() == i,
            forall|m: int| 0 <= m < i ==> #[trigger] battle_view_of(views@[m], src[m]),
        decreases battles.len() - i,
    {
        let view = build_battle_view(&battles[i]);
        assert(src[i as int] == battles@[i as int]@);
        let ghost before = views@;
        views.push(view);
        assert forall|m: int| 0 <= m <= i implies #[trigger] battle_view_of(views@[m], src[m]) by {
            if m < i {
                assert(views@[m] == before[m]);
            }
        }
        i += 1;
    }
    let ghost unsorted = views@;
    let sorted = stable_sort(views);
    proof {
        lemma_sorted_rearrangement(
            sorted@,
            unsorted,
            src,
            |bv: BattleView, b: SpecBattle| battle_view_of(bv, b),
        );
    }
    let kind = match war.kind {
        WarKind::Previous => WarKindView::Previous,
        WarKind::Active => WarKindView::Active,
    };
    WarView {
        name: war.name.clone(),
        kind,
        attackers: participant_list(&war.attackers, &war.original_attacker),
        defenders: participant_list(&war.defenders, &war.original_defender),
        battle_count: sorted.len(),
        total_losses: war.total_losses(),
        battles: sorted,
    }
}

fn build_war_views(wars: &Vec<WarData>) -> (r: Vec<WarView>)
    ensures
        war_views_of(r@, wars_view(wars@)),
{
    let ghost src = wars_view(wars@);
    let mut views: Vec<WarView> = Vec::new();
    let mut i: usize = 0;
    while i < wars.len()
        invariant
            i <= wars.len(),
            src == wars_view(wars@),
            src.len() == wars.len(),
            views@.len() == i,
            forall|m: int| 0 <= m < i ==> #[trigger] war_view_of(views@[m], src[m]),
        decreases wars.len() - i,
    {
        let view = build_war_view(&wars[i]);
        let ghost before = views@;
        views.push(view);
        assert forall|m: int| 0 <= m <= i implies #[trigger] war_view_of(views@[m], src[m]) by {
            if m < i {
                assert(views@[m] == before[m]);
            }
        }
        i += 1;
    }
    let ghost unsorted = views@;
    let sorted = stable_sort(views);
    proof {
        lemma_sorted_rearrangement(
            sorted@,
            unsorted,
            src,
            |v: WarView, w: SpecWarData| war_view_of(v, w),
        );
    }
    sorted
}

/// The view of a parsed savefile: its path, how many top-level statements it
/// has, and its active and previous wars in display order.
pub fn build_parsed_savefile_view(
    path: String,
    top_level_statement_count: usize,
    wars: &WarCollection,
) -> (r: ParsedSavefileView)
    ensures
        r.path@ == path@,
        r.top_level_statement_count == top_level_statement_count,
        war_views_of(r.active_wars@, wars_view(wars.active_wars@)),
        war_views_of(r.previous_wars@, wars_view(wars.previous_wars@)),
        forall|i: int, j: int|
            0 <= i < j < r.active_wars@.len() ==> (#[trigger] r.active_wars@[i]).total_losses
                >= (#[trigger] r.active_wars@[j]).total_losses,
        forall|i: int, j: int|
            0 <= i < j < r.previous_wars@.len() ==> (#[trigger] r.previous_wars@[i]).total_losses
                >= (#[trigger] r.previous_wars@[j]).total_losses,
{
    let active_wars = build_war_views(&wars.active_wars);
    let previous_wars = build_war_views(&wars.previous_wars);
    proof {
        lemma_war_views_by_losses(active_wars@, wars_view(wars.active_wars@));
        lemma_war_views_by_losses(previous_wars@, wars_view(wars.previous_wars@));
    }
    ParsedSavefileView { path, top_level_statement_count, active_wars, previous_wars }
}

/// The shown battles' total losses, added up.
pub open spec fn battle_totals(views: Seq<BattleView>) -> int
    decreases views.len(),
{
    if views.len() == 0 {
        0
    } else {
        battle_totals(views.drop_last()) + views.last().total_losses
    }
}

proof fn lemma_battle_totals_sum(views: Seq<BattleView>)
    ensures
        battle_totals(views) == int_sum(views.map_values(|v: BattleView| v.total_losses as int)),
    decreases views.len(),
{
    if views.len() > 0 {
        lemma_battle_totals_sum(views.drop_last());
        assert(views.drop_last().map_values(|v: BattleView| v.total_losses as int) =~= views.map_values(
            |v: BattleView| v.total_losses as int,
        ).drop_last());
    }
}

proof fn lemma_side_sums(bs: Seq<SpecBattle>)
    ensures
        attacker_losses_sum(bs) + defender_losses_sum(bs) == int_sum(
            bs.map_values(|b: SpecBattle| battle_losses(b)),
        ),
    decreases bs.len(),
{
    if bs.len() > 0 {
        lemma_side_sums(bs.drop_last());
        assert(bs.drop_last().map_values(|b: SpecBattle| battle_losses(b)) =~= bs.map_values(
            |b: SpecBattle| battle_losses(b),
        ).drop_last());
    }
}

/// A war's shown total losses are its shown battles' total losses added up.
pub proof fn lemma_war_total_adds_up(v: WarView, w: SpecWarData)
    requires
        war_view_of(v, w),
    ensures
        v.total_losses == battle_totals(v.battles@),
{
    let bs = w.history.battles;
    let views = v.battles@;
    let p = choose|p: Seq<int>|
        #![trigger is_permutation(p, bs.len() as int)]
        is_permutation(p, bs.len() as int) && views.len() == bs.len() && sorted_stably(views, p)
            && forall|i: int|
            0 <= i < views.len() ==> (|bv: BattleView, b: SpecBattle| battle_view_of(bv, b))(
                #[trigger] views[i],
                bs[p[i]],
            );
    let g = bs.map_values(|b: SpecBattle| battle_losses(b));
    lemma_int_sum_permuted(g, p);
    assert forall|i: int| 0 <= i < views.len() implies #[trigger] views[i].total_losses as int
        == g[p[i]] by {
        assert(battle_view_of(views[i], bs[p[i]]));
    }
    assert(views.map_values(|x: BattleView| x.total_losses as int) =~= Seq::new(
        g.len(),
        |i: int| g[p[i]],
    ));
    lemma_battle_totals_sum(views);
    lemma_side_sums(bs);
}

/// In war views, a war with more losses comes first; among equal losses,
/// one with more battles; among those, by name.
pub proof fn lemma_war_views_by_losses(views: Seq<WarView>, wars: Seq<SpecWarData>)
    requires
        war_views_of(views, wars),
    ensures
        forall|i: int, j: int|
            0 <= i < j < views.len() ==> {
                &&& (#[trigger] views[i]).total_losses >= (#[trigger] views[j]).total_losses
                &&& views[i].total_losses == views[j].total_losses ==> views[i].battle_count
                    >= views[j].battle_count
                &&& views[i].total_losses == views[j].total_losses && views[i].battle_count
                    == views[j].battle_count ==> !chars_lt(views[j].name@, views[i].name@)
            },
{
    let p = choose|p: Seq<int>|
        #![trigger is_permutation(p, wars.len() as int)]
        is_permutation(p, wars.len() as int) && views.len() == wars.len() && sorted_stably(views, p)
            && forall|i: int|
            0 <= i < views.len() ==> (|v: WarView, w: SpecWarData| war_view_of(v, w))(
                #[trigger] views[i],
                wars[p[i]],
            );
    assert forall|i: int, j: int| 0 <= i < j < views.len() implies {
        &&& (#[trigger] views[i]).total_losses >= (#[trigger] views[j]).total_losses
        &&& views[i].total_losses == views[j].total_losses ==> views[i].battle_count
            >= views[j].battle_count
        &&& views[i].total_losses == views[j].total_losses && views[i].battle_count
            == views[j].battle_count ==> !chars_lt(views[j].name@, views[i].name@)
    } by {
        assert(!war_before(views[j], views[i]));
    }
}

/// In a battle view list, a battle with more losses comes first; among
/// equal losses, by name.
pub proof fn lemma_battle_views_by_losses<S>(
    views: Seq<BattleView>,
    battles: Seq<S>,
    rel: spec_fn(BattleView, S) -> bool,
)
    requires
        sorted_rearrangement_of(views, battles, rel),
    ensures
        forall|i: int, j: int|
            0 <= i < j < views.len() ==> {
                &&& (#[trigger] views[i]).total_losses >= (#[trigger] views[j]).total_losses
                &&& views[i].total_losses == views[j].total_losses ==> !chars_lt(
                    views[j].name@,
                    views[i].name@,
                )
            },
{
    let p = choose|p: Seq<int>|
        #![trigger is_permutation(p, battles.len() as int)]
        is_permutation(p, battles.len() as int) && views.len() == battles.len() && sorted_stably(
            views,
            p,
        ) && forall|i: int| 0 <= i < views.len() ==> rel(#[trigger] views[i], battles[p[i]]);
    assert forall|i: int, j: int| 0 <= i < j < views.len() implies {
        &&& (#[trigger] views[i]).total_losses >= (#[trigger] views[j]).total_losses
        &&& views[i].total_losses == views[j].total_losses ==> !chars_lt(
            views[j].name@,
            views[i].name@,
        )
    } by {
        assert(!battle_before(views[j], views[i]));
    }
}

/// Unit rows come with the most units of both sides together first, and
/// rows of equal totals by unit kind.
pub proof fn lemma_unit_rows_by_total(
    rows: Seq<UnitBreakdownRowView>,
    attacker: Map<Seq<char>, i64>,
    defender: Map<Seq<char>, i64>,
)
    requires
        rows_of(rows, attacker, defender),
    ensures
        forall|i: int, j: int|
            0 <= i < j < rows.len() ==> {
                &&& (#[trigger] rows[i]).attacker_count + rows[i].defender_count >= (
                #[trigger] rows[j]).attacker_count + rows[j].defender_count
                &&& rows[i].attacker_count + rows[i].defender_count == rows[j].attacker_count
                    + rows[j].defender_count ==> chars_lt(rows[i].unit_kind@, rows[j].unit_kind@)
            },
{
    assert forall|i: int, j: int| 0 <= i < j < rows.len() implies {
        &&& (#[trigger] rows[i]).attacker_count + rows[i].defender_count >= (
        #[trigger] rows[j]).attacker_count + rows[j].defender_count
        &&& rows[i].attacker_count + rows[i].defender_count == rows[j].attacker_count
            + rows[j].defender_count ==> chars_lt(rows[i].unit_kind@, rows[j].unit_kind@)
    } by {
        assert(rows[i].unit_kind@ != rows[j].unit_kind@ && !row_before(rows[j], rows[i]));
        lemma_text_order(rows[i].unit_kind@, rows[j].unit_kind@, rows[j].unit_kind@);
    }
}

} // verus!
