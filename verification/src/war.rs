//! Wars in a parsed savefile: the `previous_war` and `active_war` blocks at
//! top level, with their participants, history, battles and losses.

use vstd::prelude::*;
use crate::parser::{
    Block, Document, SpecBlock, SpecDecimal, SpecStatement, SpecValue, Statement, Value,
    decimal_text, statements_view, values_view, lemma_statements_view_len, lemma_values_view_len,
};
use crate::text::{
    all_digits, chars_lt, chars_of, digits_value, int_text, is_digit, lemma_chars_lt_concat,
    lemma_chars_lt_irreflexive, lemma_digits_order, lemma_digits_value_monotone,
    lemma_nat_text_digits, lemma_padded_text_digits, lemma_padded_text_len, lemma_text_order,
    nat_text, padded_text, padded_u64_text, pow10, push_chars, string_of, text_is, chars_less,
};

verus! {

#[derive(Debug, Clone, Copy, PartialEq, Eq, Structural)]
pub enum WarKind {
    Previous,
    Active,
}

/// A date in a savefile, `year.month.day`.
#[derive(Debug, Clone, Copy, PartialEq, Eq, PartialOrd, Ord)]
pub struct SaveDate {
    pub year: u16,
    pub month: u8,
    pub day: u8,
}

/// Battle losses as stored in a savefile: thousandths in a 32-bit integer,
/// which the game lets wrap around past `i32::MAX`.
#[derive(Debug, Clone, Copy, PartialEq, Eq)]
pub struct FixedPoint32 {
    raw: i32,
}

/// One unit kind and how many of it fought.
#[derive(Debug, PartialEq)]
pub struct UnitCount {
    pub unit_kind: String,
    pub count: i64,
}

/// Unit counts by unit kind; each kind appears once, in code-point order of
/// the kinds.
#[derive(Debug, PartialEq)]
pub struct UnitCounts {
    entries: Vec<UnitCount>,
}

#[derive(Debug, PartialEq)]
pub struct BattleSide {
    pub country: Option<String>,
    pub leader: Option<String>,
    pub losses: Option<FixedPoint32>,
    pub unit_counts: UnitCounts,
}

#[derive(Debug, PartialEq)]
pub struct Battle {
    pub name: String,
    pub location: i64,
    pub attacker_won: Option<bool>,
    pub attacker: BattleSide,
    pub defender: BattleSide,
}

#[derive(Debug, PartialEq)]
pub struct DatedWarHistoryEntry {
    pub date: SaveDate,
    pub value: Value,
}

#[derive(Debug, PartialEq)]
pub struct WarHistory {
    pub battles: Vec<Battle>,
    pub dated_entries: Vec<DatedWarHistoryEntry>,
}

#[derive(Debug, PartialEq)]
pub struct WarData {
    pub kind: WarKind,
    pub name: String,
    pub history: WarHistory,
    pub attackers: Vec<String>,
    pub defenders: Vec<String>,
    pub original_attacker: String,
    pub original_defender: String,
    pub original_wargoals: Vec<Value>,
    pub actions: Vec<Value>,
    pub war_goals: Vec<Value>,
    pub great_wars_enabled: Option<bool>,
}

#[derive(Debug, PartialEq)]
pub struct WarCollection {
    pub previous_wars: Vec<WarData>,
    pub active_wars: Vec<WarData>,
}

// ---------------------------------------------------------------------------
// The model
// ---------------------------------------------------------------------------

pub struct SpecBattleSide {
    pub country: Option<Seq<char>>,
    pub leader: Option<Seq<char>>,
    pub losses: Option<int>,
    pub unit_counts: Map<Seq<char>, i64>,
}

pub struct SpecBattle {
    pub name: Seq<char>,
    pub location: i64,
    pub attacker_won: Option<bool>,
    pub attacker: SpecBattleSide,
    pub defender: SpecBattleSide,
}

pub struct SpecDatedEntry {
    pub date: SaveDate,
    pub value: SpecValue,
}

pub struct SpecWarHistory {
    pub battles: Seq<SpecBattle>,
    pub dated_entries: Seq<SpecDatedEntry>,
}

pub struct SpecWarData {
    pub kind: WarKind,
    pub name: Seq<char>,
    pub history: SpecWarHistory,
    pub attackers: Seq<Seq<char>>,
    pub defenders: Seq<Seq<char>>,
    pub original_attacker: Seq<char>,
    pub original_defender: Seq<char>,
    pub original_wargoals: Seq<SpecValue>,
    pub actions: Seq<SpecValue>,
    pub war_goals: Seq<SpecValue>,
    pub great_wars_enabled: Option<bool>,
}

/// The value of the entry for `key` among `e`, the first if several (there are not).
pub open spec fn lookup_count(e: Seq<(Seq<char>, i64)>, key: Seq<char>) -> Option<i64>
    decreases e.len(),
{
    if e.len() == 0 {
        None
    } else if e[0].0 == key {
        Some(e[0].1)
    } else {
        lookup_count(e.drop_first(), key)
    }
}

pub open spec fn keys_distinct(e: Seq<(Seq<char>, i64)>) -> bool {
    forall|i: int, j: int| 0 <= i < j < e.len() ==> (#[trigger] e[i]).0 != (#[trigger] e[j]).0
}

/// Each key comes strictly before the next in code-point order.
pub open spec fn keys_ascending(e: Seq<(Seq<char>, i64)>) -> bool {
    forall|i: int, j: int| 0 <= i < j < e.len() ==> chars_lt((#[trigger] e[i]).0, (#[trigger] e[j]).0)
}

/// Keys in strictly ascending order are distinct.
pub proof fn lemma_ascending_keys_distinct(e: Seq<(Seq<char>, i64)>)
    requires
        keys_ascending(e),
    ensures
        keys_distinct(e),
{
    assert forall|i: int, j: int| 0 <= i < j < e.len() implies (#[trigger] e[i]).0 != (
    #[trigger] e[j]).0 by {
        lemma_chars_lt_irreflexive(e[i].0);
    }
}

impl FixedPoint32 {
    /// The stored thousandths.
    pub closed spec fn raw(&self) -> int {
        self.raw as int
    }
}

impl UnitCounts {
    /// The entries in code-point order of their kinds.
    pub closed spec fn spec_entries(&self) -> Seq<(Seq<char>, i64)> {
        self.entries@.map_values(|u: UnitCount| (u.unit_kind@, u.count))
    }

    #[verifier::type_invariant]
    closed spec fn kinds_in_order(&self) -> bool {
        keys_ascending(self.spec_entries())
    }
}

impl View for UnitCounts {
    type V = Map<Seq<char>, i64>;

    open spec fn view(&self) -> Map<Seq<char>, i64> {
        Map::new(
            |k: Seq<char>| lookup_count(self.spec_entries(), k) is Some,
            |k: Seq<char>| lookup_count(self.spec_entries(), k)->0,
        )
    }
}

impl View for BattleSide {
    type V = SpecBattleSide;

    open spec fn view(&self) -> SpecBattleSide {
        SpecBattleSide {
            country: match self.country {
                Some(s) => Some(s@),
                None => None,
            },
            leader: match self.leader {
                Some(s) => Some(s@),
                None => None,
            },
            losses: match self.losses {
                Some(l) => Some(l.raw()),
                None => None,
            },
            unit_counts: self.unit_counts@,
        }
    }
}

impl View for Battle {
    type V = SpecBattle;

    open spec fn view(&self) -> SpecBattle {
        SpecBattle {
            name: self.name@,
            location: self.location,
            attacker_won: self.attacker_won,
            attacker: self.attacker@,
            defender: self.defender@,
        }
    }
}

impl View for DatedWarHistoryEntry {
    type V = SpecDatedEntry;

    open spec fn view(&self) -> SpecDatedEntry {
        SpecDatedEntry { date: self.date, value: self.value@ }
    }
}

impl View for WarHistory {
    type V = SpecWarHistory;

    open spec fn view(&self) -> SpecWarHistory {
        SpecWarHistory {
            battles: self.battles@.map_values(|b: Battle| b@),
            dated_entries: self.dated_entries@.map_values(|d: DatedWarHistoryEntry| d@),
        }
    }
}

pub open spec fn strings_view(s: Seq<String>) -> Seq<Seq<char>> {
    s.map_values(|x: String| x@)
}

impl View for WarData {
    type V = SpecWarData;

    open spec fn view(&self) -> SpecWarData {
        SpecWarData {
            kind: self.kind,
            name: self.name@,
            history: self.history@,
            attackers: strings_view(self.attackers@),
            defenders: strings_view(self.defenders@),
            original_attacker: self.original_attacker@,
            original_defender: self.original_defender@,
            original_wargoals: values_view(self.original_wargoals@),
            actions: values_view(self.actions@),
            war_goals: values_view(self.war_goals@),
            great_wars_enabled: self.great_wars_enabled,
        }
    }
}

pub open spec fn wars_view(w: Seq<WarData>) -> Seq<SpecWarData> {
    w.map_values(|x: WarData| x@)
}

// ---------------------------------------------------------------------------
// Reading plain values
// ---------------------------------------------------------------------------

/// Identifiers and strings as written, numbers as their value renders.
pub open spec fn value_to_string_spec(v: SpecValue) -> Option<Seq<char>> {
    match v {
        SpecValue::Identifier(s) => Some(s),
        SpecValue::Str(s) => Some(s),
        SpecValue::Integer(i) => Some(int_text(i as int)),
        SpecValue::Decimal(d) => Some(decimal_text(d)),
        SpecValue::Block(_) => None,
    }
}

/// `yes` and `1` are true, `no` and `0` false.
pub open spec fn value_to_bool_spec(v: SpecValue) -> Option<bool> {
    match v {
        SpecValue::Identifier(s) => if s == "yes"@ {
            Some(true)
        } else if s == "no"@ {
            Some(false)
        } else {
            None
        },
        SpecValue::Integer(i) => if i == 1 {
            Some(true)
        } else if i == 0 {
            Some(false)
        } else {
            None
        },
        _ => None,
    }
}

pub open spec fn value_to_i64_spec(v: SpecValue) -> Option<i64> {
    match v {
        SpecValue::Integer(i) => Some(i),
        _ => None,
    }
}

/// A loss value in thousandths, when it is a number whose thousandths fit in `i32`.
pub open spec fn fixed_point_spec(v: SpecValue) -> Option<int> {
    let scaled = match v {
        SpecValue::Integer(i) => Some(i * 1000),
        SpecValue::Decimal(d) => Some(crate::parser::decimal_thousandths(d)),
        _ => None,
    };
    match scaled {
        Some(x) => if i32::MIN <= x <= i32::MAX {
            Some(x)
        } else {
            None
        },
        None => None,
    }
}

/// The stored thousandths with a negative value read as having wrapped past `i32::MAX`.
pub open spec fn corrected_raw_spec(raw: int) -> int {
    if raw < 0 {
        raw + 0x1_0000_0000
    } else {
        raw
    }
}

/// A number written in decimal with an optional `+`, when it is at most `max`.
pub open spec fn unsigned_value(s: Seq<char>, max: int) -> Option<int> {
    let d = if s.len() > 0 && s[0] == '+' {
        s.drop_first()
    } else {
        s
    };
    if d.len() > 0 && all_digits(d) && digits_value(d) <= max {
        Some(digits_value(d) as int)
    } else {
        None
    }
}

/// A savefile date written out as `year.month.day` in plain decimal.
pub open spec fn save_date_text(d: SaveDate) -> Seq<char> {
    nat_text(d.year as nat) + seq!['.'] + nat_text(d.month as nat) + seq!['.'] + nat_text(
        d.day as nat,
    )
}

proof fn lemma_dot_index_after_digits(a: Seq<char>, rest: Seq<char>)
    requires
        all_digits(a),
    ensures
        crate::parser::dot_index(a) == a.len(),
        crate::parser::dot_index(a + rest) == a.len() + crate::parser::dot_index(rest),
    decreases a.len(),
{
    if a.len() > 0 {
        assert((a + rest).drop_first() =~= a.drop_first() + rest);
        assert(is_digit(a[0]));
        lemma_dot_index_after_digits(a.drop_first(), rest);
    }
}

proof fn lemma_unsigned_value_of_text(n: nat, max: int)
    requires
        n <= max,
    ensures
        unsigned_value(nat_text(n), max) == Some(n as int),
{
    lemma_nat_text_digits(n);
    assert(is_digit(nat_text(n)[0]));
}

proof fn lemma_unsigned_value_of_digits(t: Seq<char>, max: int)
    requires
        t.len() >= 1,
        all_digits(t),
        digits_value(t) <= max,
    ensures
        unsigned_value(t, max) == Some(digits_value(t) as int),
{
    assert(is_digit(t[0]));
}

/// Three digit texts joined by `.` read back as the date of their values.
proof fn lemma_dotted_date_reads_back(y: Seq<char>, m: Seq<char>, dd: Seq<char>, d: SaveDate)
    requires
        y.len() >= 1 && all_digits(y) && digits_value(y) == d.year,
        m.len() >= 1 && all_digits(m) && digits_value(m) == d.month,
        dd.len() >= 1 && all_digits(dd) && digits_value(dd) == d.day,
    ensures
        parse_save_date_spec(y + seq!['.'] + m + seq!['.'] + dd) == Some(d),
{
    let key = y + seq!['.'] + m + seq!['.'] + dd;
    let tail1 = seq!['.'] + m + seq!['.'] + dd;
    assert(key =~= y + tail1);
    lemma_dot_index_after_digits(y, tail1);
    assert(crate::parser::dot_index(tail1) == 0);
    let rest1 = key.skip(y.len() + 1int);
    assert(rest1 =~= m + (seq!['.'] + dd));
    lemma_dot_index_after_digits(m, seq!['.'] + dd);
    assert(crate::parser::dot_index(seq!['.'] + dd) == 0);
    let rest2 = rest1.skip(m.len() + 1int);
    assert(rest2 =~= dd);
    lemma_dot_index_after_digits(dd, Seq::empty());
    assert(key.take(y.len() as int) =~= y);
    assert(rest1.take(m.len() as int) =~= m);
    lemma_unsigned_value_of_digits(y, 65535);
    lemma_unsigned_value_of_digits(m, 255);
    lemma_unsigned_value_of_digits(dd, 255);
}

/// Every date written out as `year.month.day` reads back as itself.
pub proof fn lemma_save_date_text_reads_back(d: SaveDate)
    ensures
        parse_save_date_spec(save_date_text(d)) == Some(d),
{
    lemma_nat_text_digits(d.year as nat);
    lemma_nat_text_digits(d.month as nat);
    lemma_nat_text_digits(d.day as nat);
    lemma_dotted_date_reads_back(
        nat_text(d.year as nat),
        nat_text(d.month as nat),
        nat_text(d.day as nat),
        d,
    );
}

/// The ISO 8601 text of a date: the year padded with `0` to four digits,
/// the month and day to two, joined by `-`.
pub open spec fn iso_date_text(d: SaveDate) -> Seq<char> {
    padded_text(d.year as nat, 4) + seq!['-'] + padded_text(d.month as nat, 2) + seq!['-']
        + padded_text(d.day as nat, 2)
}

/// `s` with every `-` written as `.`.
pub open spec fn dashes_to_dots(s: Seq<char>) -> Seq<char> {
    s.map_values(|c: char| if c == '-' { '.' } else { c })
}

proof fn lemma_digits_keep(t: Seq<char>)
    requires
        all_digits(t),
    ensures
        dashes_to_dots(t) == t,
{
    assert forall|i: int| 0 <= i < t.len() implies dashes_to_dots(t)[i] == t[i] by {
        assert(is_digit(t[i]));
    }
    assert(dashes_to_dots(t) =~= t);
}

/// The ISO text of every date, with `-` read as `.`, reads back as that
/// date.
pub proof fn lemma_iso_date_text_reads_back(d: SaveDate)
    ensures
        parse_save_date_spec(dashes_to_dots(iso_date_text(d))) == Some(d),
{
    let y = padded_text(d.year as nat, 4);
    let m = padded_text(d.month as nat, 2);
    let dd = padded_text(d.day as nat, 2);
    lemma_padded_text_digits(d.year as nat, 4);
    lemma_padded_text_digits(d.month as nat, 2);
    lemma_padded_text_digits(d.day as nat, 2);
    lemma_digits_keep(y);
    lemma_digits_keep(m);
    lemma_digits_keep(dd);
    let iso = iso_date_text(d);
    let dotted = y + seq!['.'] + m + seq!['.'] + dd;
    assert forall|i: int| 0 <= i < iso.len() implies dashes_to_dots(iso)[i] == dotted[i] by {
        if i < y.len() {
            assert(iso[i] == y[i] && dotted[i] == y[i]);
            assert(dashes_to_dots(y)[i] == y[i]);
        } else if i == y.len() {
        } else if i < y.len() + 1 + m.len() {
            assert(iso[i] == m[i - y.len() - 1] && dotted[i] == m[i - y.len() - 1]);
            assert(dashes_to_dots(m)[i - y.len() - 1] == m[i - y.len() - 1]);
        } else if i == y.len() + 1 + m.len() {
        } else {
            let k = i - y.len() - 2 - m.len();
            assert(iso[i] == dd[k] && dotted[i] == dd[k]);
            assert(dashes_to_dots(dd)[k] == dd[k]);
        }
    }
    assert(dashes_to_dots(iso) =~= dotted);
    lemma_dotted_date_reads_back(y, m, dd, d);
}

/// `a` comes before `b` by year, then month, then day.
pub open spec fn date_before(a: SaveDate, b: SaveDate) -> bool {
    a.year < b.year || (a.year == b.year && (a.month < b.month || (a.month == b.month && a.day
        < b.day)))
}

proof fn lemma_padded_field(n: nat, k: nat, other: nat)
    requires
        k >= 1,
        n < pow10(k),
        other < pow10(k),
    ensures
        padded_text(n, k).len() == k,
        all_digits(padded_text(n, k)),
        (padded_text(n, k) == padded_text(other, k)) <==> n == other,
        chars_lt(padded_text(n, k), padded_text(other, k)) <==> n < other,
{
    lemma_padded_text_len(n, k);
    lemma_padded_text_len(other, k);
    lemma_padded_text_digits(n, k);
    lemma_padded_text_digits(other, k);
    lemma_digits_order(padded_text(n, k), padded_text(other, k));
}

/// For years of at most four digits and months and days of at most two,
/// the ISO text is ten characters with `-` at positions 4 and 7, and two
/// such texts compare and are equal as their dates are.
pub proof fn lemma_iso_date_text_shape(a: SaveDate, b: SaveDate)
    requires
        a.year <= 9999 && a.month <= 99 && a.day <= 99,
        b.year <= 9999 && b.month <= 99 && b.day <= 99,
    ensures
        iso_date_text(a).len() == 10,
        iso_date_text(a)[4] == '-',
        iso_date_text(a)[7] == '-',
        chars_lt(iso_date_text(a), iso_date_text(b)) <==> date_before(a, b),
        (iso_date_text(a) == iso_date_text(b)) <==> a == b,
{
    assert(pow10(0) == 1);
    assert(pow10(1) == 10);
    assert(pow10(2) == 100);
    assert(pow10(3) == 1000);
    assert(pow10(4) == 10000);
    lemma_padded_field(a.year as nat, 4, b.year as nat);
    lemma_padded_field(a.month as nat, 2, b.month as nat);
    lemma_padded_field(a.day as nat, 2, b.day as nat);
    lemma_padded_text_len(b.year as nat, 4);
    lemma_padded_text_len(b.month as nat, 2);
    lemma_padded_text_len(b.day as nat, 2);
    let (ya, yb) = (padded_text(a.year as nat, 4), padded_text(b.year as nat, 4));
    let (ma, mb) = (padded_text(a.month as nat, 2), padded_text(b.month as nat, 2));
    let (da, db) = (padded_text(a.day as nat, 2), padded_text(b.day as nat, 2));
    let dash = seq!['-'];
    let ra = (dash + ma) + (dash + da);
    let rb = (dash + mb) + (dash + db);
    assert(iso_date_text(a) =~= ya + ra);
    assert(iso_date_text(b) =~= yb + rb);
    lemma_chars_lt_concat(ya, ra, yb, rb);
    lemma_chars_lt_concat(dash + ma, dash + da, dash + mb, dash + db);
    lemma_chars_lt_concat(dash, ma, dash, mb);
    lemma_chars_lt_concat(dash, da, dash, db);
    if dash + ma == dash + mb {
        assert(ma =~= (dash + ma).skip(1));
        assert(mb =~= (dash + mb).skip(1));
    }
    assert(iso_date_text(a)[4] == '-');
    assert(iso_date_text(a)[7] == '-');
    if iso_date_text(a) == iso_date_text(b) {
        lemma_chars_lt_irreflexive(iso_date_text(a));
        if a != b {
            assert(date_before(a, b) || date_before(b, a));
            lemma_chars_lt_concat(yb, rb, ya, ra);
            lemma_chars_lt_concat(dash + mb, dash + db, dash + ma, dash + da);
            lemma_chars_lt_concat(dash, mb, dash, ma);
            lemma_chars_lt_concat(dash, db, dash, da);
            lemma_padded_field(b.year as nat, 4, a.year as nat);
            lemma_padded_field(b.month as nat, 2, a.month as nat);
            lemma_padded_field(b.day as nat, 2, a.day as nat);
        }
    }
}

/// `year.month.day`: three parts split at `.`, each a number in range.
pub open spec fn parse_save_date_spec(key: Seq<char>) -> Option<SaveDate> {
    let k1 = crate::parser::dot_index(key);
    let rest1 = key.skip(k1 + 1);
    let k2 = crate::parser::dot_index(rest1);
    let rest2 = rest1.skip(k2 + 1);
    let k3 = crate::parser::dot_index(rest2);
    if k1 < key.len() && k2 < rest1.len() && k3 == rest2.len() {
        match (
            unsigned_value(key.take(k1), 65535),
            unsigned_value(rest1.take(k2), 255),
            unsigned_value(rest2, 255),
        ) {
            (Some(y), Some(m), Some(d)) => Some(SaveDate { year: y as u16, month: m as u8, day: d as u8 }),
            _ => None,
        }
    } else {
        None
    }
}

// ---------------------------------------------------------------------------
// Fields of a block
// ---------------------------------------------------------------------------

/// The value of the last field named `key`, if there is one and it has a value.
pub open spec fn last_value(fields: Seq<SpecStatement>, key: Seq<char>) -> Option<SpecValue>
    decreases fields.len(),
{
    if fields.len() == 0 {
        None
    } else if fields.last().key == key {
        fields.last().value
    } else {
        last_value(fields.drop_last(), key)
    }
}

pub open spec fn last_string(fields: Seq<SpecStatement>, key: Seq<char>) -> Option<Seq<char>> {
    match last_value(fields, key) {
        Some(v) => value_to_string_spec(v),
        None => None,
    }
}

pub open spec fn last_bool(fields: Seq<SpecStatement>, key: Seq<char>) -> Option<bool> {
    match last_value(fields, key) {
        Some(v) => value_to_bool_spec(v),
        None => None,
    }
}

pub open spec fn last_i64(fields: Seq<SpecStatement>, key: Seq<char>) -> Option<i64> {
    match last_value(fields, key) {
        Some(v) => value_to_i64_spec(v),
        None => None,
    }
}

/// The texts of all fields named `key` whose values read as text, in order.
pub open spec fn all_strings(fields: Seq<SpecStatement>, key: Seq<char>) -> Seq<Seq<char>>
    decreases fields.len(),
{
    if fields.len() == 0 {
        seq![]
    } else {
        let rest = all_strings(fields.drop_last(), key);
        let f = fields.last();
        if f.key == key {
            match f.value {
                Some(v) => match value_to_string_spec(v) {
                    Some(s) => rest.push(s),
                    None => rest,
                },
                None => rest,
            }
        } else {
            rest
        }
    }
}

/// The values of all fields named `key` that have one, in order.
pub open spec fn all_values(fields: Seq<SpecStatement>, key: Seq<char>) -> Seq<SpecValue>
    decreases fields.len(),
{
    if fields.len() == 0 {
        seq![]
    } else {
        let rest = all_values(fields.drop_last(), key);
        let f = fields.last();
        if f.key == key {
            match f.value {
                Some(v) => rest.push(v),
                None => rest,
            }
        } else {
            rest
        }
    }
}

/// The only text of a field named `key`, when exactly one such field reads as text.
pub open spec fn single_string(fields: Seq<SpecStatement>, key: Seq<char>) -> Option<Seq<char>> {
    let all = all_strings(fields, key);
    if all.len() == 1 {
        Some(all[0])
    } else {
        None
    }
}

// ---------------------------------------------------------------------------
// Battles
// ---------------------------------------------------------------------------

pub open spec fn is_unit_field(f: SpecStatement) -> bool {
    &&& f.key != "country"@
    &&& f.key != "leader"@
    &&& f.key != "losses"@
    &&& f.value matches Some(SpecValue::Integer(_))
}

/// Unit counts of a battle side: every field other than `country`, `leader`
/// and `losses` with an integer value; the last such field of a kind wins.
pub open spec fn unit_counts_spec(fields: Seq<SpecStatement>) -> Map<Seq<char>, i64>
    decreases fields.len(),
{
    if fields.len() == 0 {
        Map::empty()
    } else {
        let m = unit_counts_spec(fields.drop_last());
        let f = fields.last();
        if is_unit_field(f) {
            m.insert(f.key, f.value->0->Integer_0)
        } else {
            m
        }
    }
}

pub open spec fn parse_battle_side_spec(v: SpecValue) -> Option<SpecBattleSide> {
    match v {
        SpecValue::Block(SpecBlock::Statements(fields)) => Some(
            SpecBattleSide {
                country: last_string(fields, "country"@),
                leader: last_string(fields, "leader"@),
                losses: match last_value(fields, "losses"@) {
                    Some(l) => fixed_point_spec(l),
                    None => None,
                },
                unit_counts: unit_counts_spec(fields),
            },
        ),
        _ => None,
    }
}

pub open spec fn last_side(fields: Seq<SpecStatement>, key: Seq<char>) -> Option<SpecBattleSide> {
    match last_value(fields, key) {
        Some(v) => parse_battle_side_spec(v),
        None => None,
    }
}

/// A battle: a block with a name, a location, and attacker and defender sides.
pub open spec fn parse_battle_spec(v: SpecValue) -> Option<SpecBattle> {
    match v {
        SpecValue::Block(SpecBlock::Statements(fields)) => {
            let name = last_string(fields, "name"@);
            let location = last_i64(fields, "location"@);
            let attacker = last_side(fields, "attacker"@);
            let defender = last_side(fields, "defender"@);
            if name is Some && location is Some && attacker is Some && defender is Some {
                Some(
                    SpecBattle {
                        name: name->0,
                        location: location->0,
                        attacker_won: last_bool(fields, "result"@),
                        attacker: attacker->0,
                        defender: defender->0,
                    },
                )
            } else {
                None
            }
        },
        _ => None,
    }
}

pub open spec fn battle_of_field(f: SpecStatement) -> Seq<SpecBattle> {
    match f.value {
        Some(v) => match parse_battle_spec(v) {
            Some(b) => seq![b],
            None => seq![],
        },
        None => seq![],
    }
}

/// The battles anywhere inside a value: each `battle` field of a block, and
/// the battles inside every other field and every listed value.
pub open spec fn battles_in_value(v: SpecValue) -> Seq<SpecBattle>
    decreases v, 1int,
{
    match v {
        SpecValue::Block(SpecBlock::Statements(fields)) => battles_in_fields(fields),
        SpecValue::Block(SpecBlock::Values(values)) => battles_in_values(values),
        _ => seq![],
    }
}

pub open spec fn battles_in_fields(fields: Seq<SpecStatement>) -> Seq<SpecBattle>
    decreases fields, 0int,
{
    if fields.len() == 0 {
        seq![]
    } else {
        let f = fields.last();
        battles_in_fields(fields.drop_last()) + if f.key == "battle"@ {
            battle_of_field(f)
        } else {
            match f.value {
                Some(v) => battles_in_value(v),
                None => seq![],
            }
        }
    }
}

pub open spec fn battles_in_values(values: Seq<SpecValue>) -> Seq<SpecBattle>
    decreases values, 0int,
{
    if values.len() == 0 {
        seq![]
    } else {
        battles_in_values(values.drop_last()) + battles_in_value(values.last())
    }
}

/// The battles a history field adds: a `battle` field is one; a dated field
/// adds those inside its value.
pub open spec fn history_field_battles(f: SpecStatement) -> Seq<SpecBattle> {
    if f.key == "battle"@ {
        battle_of_field(f)
    } else if parse_save_date_spec(f.key) is Some && f.value is Some {
        battles_in_value(f.value->0)
    } else {
        seq![]
    }
}

pub open spec fn history_battles(fields: Seq<SpecStatement>) -> Seq<SpecBattle>
    decreases fields.len(),
{
    if fields.len() == 0 {
        seq![]
    } else {
        history_battles(fields.drop_last()) + history_field_battles(fields.last())
    }
}

/// The dated fields of a history that have a value, in order.
pub open spec fn history_dated_entries(fields: Seq<SpecStatement>) -> Seq<SpecDatedEntry>
    decreases fields.len(),
{
    if fields.len() == 0 {
        seq![]
    } else {
        let rest = history_dated_entries(fields.drop_last());
        let f = fields.last();
        if f.key != "battle"@ && parse_save_date_spec(f.key) is Some && f.value is Some {
            rest.push(SpecDatedEntry { date: parse_save_date_spec(f.key)->0, value: f.value->0 })
        } else {
            rest
        }
    }
}

pub open spec fn parse_war_history_spec(v: SpecValue) -> Option<SpecWarHistory> {
    match v {
        SpecValue::Block(SpecBlock::Statements(fields)) => Some(
            SpecWarHistory {
                battles: history_battles(fields),
                dated_entries: history_dated_entries(fields),
            },
        ),
        _ => None,
    }
}

// ---------------------------------------------------------------------------
// Wars
// ---------------------------------------------------------------------------

/// A war block names its original attacker and its original defender at most once each.
pub open spec fn war_originals_unique(st: SpecStatement) -> bool {
    match st.value {
        Some(SpecValue::Block(SpecBlock::Statements(fields))) => {
            &&& all_strings(fields, "original_attacker"@).len() <= 1
            &&& all_strings(fields, "original_defender"@).len() <= 1
        },
        _ => true,
    }
}

/// A war: a block with a name, a history, and an original attacker and defender.
pub open spec fn parse_war_spec(st: SpecStatement, kind: WarKind) -> Option<SpecWarData> {
    match st.value {
        Some(SpecValue::Block(SpecBlock::Statements(fields))) => {
            let name = last_string(fields, "name"@);
            let history = match last_value(fields, "history"@) {
                Some(v) => parse_war_history_spec(v),
                None => None,
            };
            let original_attacker = single_string(fields, "original_attacker"@);
            let original_defender = single_string(fields, "original_defender"@);
            if name is Some && history is Some && original_attacker is Some
                && original_defender is Some {
                Some(
                    SpecWarData {
                        kind,
                        name: name->0,
                        history: history->0,
                        attackers: all_strings(fields, "attacker"@),
                        defenders: all_strings(fields, "defender"@),
                        original_attacker: original_attacker->0,
                        original_defender: original_defender->0,
                        original_wargoals: all_values(fields, "original_wargoal"@),
                        actions: all_values(fields, "action"@),
                        war_goals: all_values(fields, "war_goal"@),
                        great_wars_enabled: last_bool(fields, "great_wars_enabled"@),
                    },
                )
            } else {
                None
            }
        },
        _ => None,
    }
}

/// The wars of the top-level statements named `key`, in order.
pub open spec fn wars_for_key(statements: Seq<SpecStatement>, key: Seq<char>, kind: WarKind) -> Seq<
    SpecWarData,
>
    decreases statements.len(),
{
    if statements.len() == 0 {
        seq![]
    } else {
        let rest = wars_for_key(statements.drop_last(), key, kind);
        let st = statements.last();
        if st.key == key {
            match parse_war_spec(st, kind) {
                Some(w) => rest.push(w),
                None => rest,
            }
        } else {
            rest
        }
    }
}

/// No war statement of the document names an original side twice.
pub open spec fn document_originals_unique(statements: Seq<SpecStatement>) -> bool {
    forall|i: int|
        0 <= i < statements.len() && ((#[trigger] statements[i]).key == "previous_war"@
            || statements[i].key == "active_war"@) ==> war_originals_unique(statements[i])
}


// ---------------------------------------------------------------------------
// Unit counts
// ---------------------------------------------------------------------------

/// With distinct keys, each entry's count is what the lookup finds for its key.
pub proof fn lemma_lookup_at(e: Seq<(Seq<char>, i64)>, i: int)
    requires
        keys_distinct(e),
        0 <= i < e.len(),
    ensures
        lookup_count(e, e[i].0) == Some(e[i].1),
    decreases e.len(),
{
    if i > 0 {
        assert(e[0].0 != e[i].0);
        assert(e.drop_first()[i - 1] == e[i]);
        lemma_lookup_at(e.drop_first(), i - 1);
    }
}

/// A key no entry has is not found.
pub proof fn lemma_lookup_absent(e: Seq<(Seq<char>, i64)>, k: Seq<char>)
    requires
        forall|i: int| 0 <= i < e.len() ==> (#[trigger] e[i]).0 != k,
    ensures
        lookup_count(e, k) is None,
    decreases e.len(),
{
    if e.len() > 0 {
        assert forall|i: int| 0 <= i < e.drop_first().len() implies (
        #[trigger] e.drop_first()[i]).0 != k by {
            assert(e.drop_first()[i] == e[i + 1]);
        }
        lemma_lookup_absent(e.drop_first(), k);
    }
}

/// What the map of entries says of `k`, by where `k` appears.
pub proof fn lemma_lookup_cases(e: Seq<(Seq<char>, i64)>, k: Seq<char>)
    requires
        keys_distinct(e),
    ensures
        (exists|i: int| 0 <= i < e.len() && (#[trigger] e[i]).0 == k && lookup_count(e, k) == Some(
            e[i].1,
        )) || (lookup_count(e, k) is None && forall|i: int| 0 <= i < e.len() ==> (
        #[trigger] e[i]).0 != k),
{
    if exists|i: int| 0 <= i < e.len() && (#[trigger] e[i]).0 == k {
        let i = choose|i: int| 0 <= i < e.len() && (#[trigger] e[i]).0 == k;
        lemma_lookup_at(e, i);
    } else {
        lemma_lookup_absent(e, k);
    }
}

impl UnitCounts {
    pub fn new() -> (r: Self)
        ensures
            r@ == Map::<Seq<char>, i64>::empty(),
            r.spec_entries() == Seq::<(Seq<char>, i64)>::empty(),
    {
        let r = UnitCounts { entries: Vec::new() };
        assert(r.spec_entries() =~= Seq::<(Seq<char>, i64)>::empty());
        assert(r@ =~= Map::<Seq<char>, i64>::empty());
        r
    }

    /// How many unit kinds there are.
    pub fn len(&self) -> (r: usize)
        ensures
            r == self.spec_entries().len(),
            keys_ascending(self.spec_entries()),
            keys_distinct(self.spec_entries()),
    {
        proof {
            use_type_invariant(self);
            lemma_ascending_keys_distinct(self.spec_entries());
        }
        self.entries.len()
    }

    /// The `i`-th unit kind and its count.
    pub fn entry(&self, i: usize) -> (r: &UnitCount)
        requires
            i < self.spec_entries().len(),
        ensures
            (r.unit_kind@, r.count) == self.spec_entries()[i as int],
    {
        &self.entries[i]
    }

    /// The count of a unit kind, if it fought.
    pub fn get(&self, key: &str) -> (r: Option<&i64>)
        ensures
            match r {
                Some(c) => self@.contains_key(key@) && self@[key@] == *c,
                None => !self@.contains_key(key@),
            },
    {
        proof {
            use_type_invariant(self);
            lemma_ascending_keys_distinct(self.spec_entries());
            lemma_lookup_cases(self.spec_entries(), key@);
        }
        let mut i: usize = 0;
        while i < self.entries.len()
            invariant
                i <= self.entries.len(),
                keys_distinct(self.spec_entries()),
                forall|j: int| 0 <= j < i ==> (#[trigger] self.spec_entries()[j]).0 != key@,
            decreases self.entries.len() - i,
        {
            if text_is(&self.entries[i].unit_kind, key) {
                proof {
                    lemma_lookup_at(self.spec_entries(), i as int);
                }
                return Some(&self.entries[i].count);
            }
            i += 1;
        }
        None
    }

    /// Sets the count of a unit kind, replacing an earlier one; the kinds
    /// stay in code-point order.
    pub fn insert(&mut self, key: String, count: i64)
        ensures
            final(self)@ == old(self)@.insert(key@, count),
            final(self).spec_entries().len() == old(self).spec_entries().len() + if old(
                self,
            )@.contains_key(key@) {
                0int
            } else {
                1int
            },
    {
        proof {
            use_type_invariant(&*self);
            lemma_ascending_keys_distinct(self.spec_entries());
        }
        let ghost e = self.spec_entries();
        let mut entries: Vec<UnitCount> = Vec::new();
        std::mem::swap(&mut entries, &mut self.entries);
        let ghost k = key@;
        let key_chars = chars_of(key.as_str());
        let mut i: usize = 0;
        while i < entries.len() && chars_less(&chars_of(entries[i].unit_kind.as_str()), &key_chars)
            invariant
                i <= entries.len(),
                e == entries@.map_values(|u: UnitCount| (u.unit_kind@, u.count)),
                keys_ascending(e),
                k == key@,
                key_chars@ == k,
                forall|j: int| 0 <= j < i ==> chars_lt((#[trigger] e[j]).0, k),
            decreases entries.len() - i,
        {
            assert(e[i as int].0 == entries@[i as int].unit_kind@);
            i += 1;
        }
        let found = i < entries.len() && entries[i].unit_kind == key;
        proof {
            if i < entries.len() {
                assert(e[i as int].0 == entries@[i as int].unit_kind@);
                if !found {
                    lemma_text_order(e[i as int].0, k, k);
                    assert(chars_lt(k, e[i as int].0));
                }
            }
        }
        if found {
            entries.set(i, UnitCount { unit_kind: key, count });
        } else {
            entries.insert(i, UnitCount { unit_kind: key, count });
        }
        let ghost n = entries@.map_values(|u: UnitCount| (u.unit_kind@, u.count));
        proof {
            if found {
                assert(n =~= e.update(i as int, (k, count)));
                assert forall|a: int, b: int| 0 <= a < b < n.len() implies chars_lt(
                    (#[trigger] n[a]).0,
                    (#[trigger] n[b]).0,
                ) by {
                    assert(chars_lt(e[a].0, e[b].0));
                }
            } else {
                assert(n =~= e.insert(i as int, (k, count)));
                assert forall|a: int, b: int| 0 <= a < b < n.len() implies chars_lt(
                    (#[trigger] n[a]).0,
                    (#[trigger] n[b]).0,
                ) by {
                    if b == i {
                        assert(chars_lt(e[a].0, k));
                    } else if a == i {
                        assert(n[b] == e[b - 1]);
                        if b - 1 > i {
                            assert(chars_lt(e[i as int].0, e[b - 1].0));
                            lemma_text_order(k, e[i as int].0, e[b - 1].0);
                        }
                    } else if a < i && b > i {
                        assert(n[a] == e[a] && n[b] == e[b - 1]);
                        assert(chars_lt(e[a].0, k));
                        if b - 1 > i {
                            assert(chars_lt(e[i as int].0, e[b - 1].0));
                            lemma_text_order(k, e[i as int].0, e[b - 1].0);
                        }
                        lemma_text_order(e[a].0, k, e[b - 1].0);
                    } else if a > i {
                        assert(n[a] == e[a - 1] && n[b] == e[b - 1]);
                        assert(chars_lt(e[a - 1].0, e[b - 1].0));
                    } else {
                        assert(n[a] == e[a] && n[b] == e[b]);
                        assert(chars_lt(e[a].0, e[b].0));
                    }
                }
            }
            lemma_ascending_keys_distinct(n);
        }
        self.entries = entries;
        proof {
            assert(self.spec_entries() == n);
            assert forall|x: Seq<char>| #![auto] true implies (lookup_count(n, x) == if x == k {
                Some(count)
            } else {
                lookup_count(e, x)
            }) by {
                lemma_lookup_cases(e, x);
                lemma_lookup_cases(n, x);
                if x == k {
                    lemma_lookup_at(n, i as int);
                } else {
                    if exists|j: int| 0 <= j < e.len() && (#[trigger] e[j]).0 == x {
                        let j = choose|j: int| 0 <= j < e.len() && (#[trigger] e[j]).0 == x;
                        lemma_lookup_at(e, j);
                        if found || j < i {
                            lemma_lookup_at(n, j);
                        } else {
                            assert(n[j + 1] == e[j]);
                            lemma_lookup_at(n, j + 1);
                        }
                    }
                }
            }
            assert(self@ =~= old(self)@.insert(k, count));
            if found {
                lemma_lookup_at(e, i as int);
                assert(old(self)@.contains_key(k));
            } else {
                assert forall|j: int| 0 <= j < e.len() implies (#[trigger] e[j]).0 != k by {
                    if j < i {
                        lemma_chars_lt_irreflexive(k);
                    } else if j == i {
                    } else {
                        assert(chars_lt(e[i as int].0, e[j].0));
                        lemma_text_order(k, e[i as int].0, e[j].0);
                        lemma_chars_lt_irreflexive(k);
                    }
                }
                lemma_lookup_absent(e, k);
            }
        }
    }
}


// ---------------------------------------------------------------------------
// Reading plain values
// ---------------------------------------------------------------------------

pub open spec fn opt_string_view(o: Option<String>) -> Option<Seq<char>> {
    match o {
        Some(s) => Some(s@),
        None => None,
    }
}

fn value_to_string(value: &Value) -> (r: Option<String>)
    ensures
        opt_string_view(r) == value_to_string_spec(value@),
{
    match value {
        Value::Identifier(v) => Some(v.clone()),
        Value::String(v) => Some(v.clone()),
        Value::Integer(v) => Some(string_of(&crate::text::i64_text(*v))),
        Value::Decimal(v) => Some(crate::parser::decimal_key_text(v)),
        Value::Block(_) => None,
    }
}

fn value_to_bool(value: &Value) -> (r: Option<bool>)
    ensures
        r == value_to_bool_spec(value@),
{
    match value {
        Value::Identifier(v) => {
            if text_is(v, "yes") {
                Some(true)
            } else if text_is(v, "no") {
                Some(false)
            } else {
                None
            }
        },
        Value::Integer(v) => {
            if *v == 1 {
                Some(true)
            } else if *v == 0 {
                Some(false)
            } else {
                None
            }
        },
        _ => None,
    }
}

fn value_to_i64(value: &Value) -> (r: Option<i64>)
    ensures
        r == value_to_i64_spec(value@),
{
    match value {
        Value::Integer(v) => Some(*v),
        _ => None,
    }
}

/// `w[from..to]` as a number of at most `max`, with an optional `+`.
fn parse_unsigned(w: &Vec<char>, from: usize, to: usize, max: u64) -> (r: Option<u64>)
    requires
        from <= to <= w.len(),
    ensures
        match r {
            Some(v) => unsigned_value(w@.subrange(from as int, to as int), max as int) == Some(
                v as int,
            ),
            None => unsigned_value(w@.subrange(from as int, to as int), max as int) is None,
        },
{
    let ghost s = w@.subrange(from as int, to as int);
    let start = if from < to && w[from] == '+' {
        from + 1
    } else {
        from
    };
    let ghost d = w@.subrange(start as int, to as int);
    assert(d == if s.len() > 0 && s[0] == '+' {
        s.drop_first()
    } else {
        s
    });
    if start == to {
        return None;
    }
    let mut acc: u64 = 0;
    let mut i = start;
    assert(d.take(0) =~= Seq::<char>::empty());
    assert(digits_value(Seq::<char>::empty()) == 0);
    while i < to
        invariant
            start <= i <= to,
            from <= start,
            to <= w.len(),
            s == w@.subrange(from as int, to as int),
            d == w@.subrange(start as int, to as int),
            d == if s.len() > 0 && s[0] == '+' {
                s.drop_first()
            } else {
                s
            },
            all_digits(d.take(i - start)),
            acc == digits_value(d.take(i - start)),
            acc <= max,
        decreases to - i,
    {
        let c = w[i];
        assert(d[i - start] == c);
        if !('0' <= c && c <= '9') {
            assert(!all_digits(d));
            return None;
        }
        let digit = (c as u32 - '0' as u32) as u64;
        assert(digit <= 9 && digit == crate::text::digit_value(c));
        assert(d.take(i + 1 - start).drop_last() == d.take(i - start));
        assert(d.take(i + 1 - start).last() == c);
        assert(all_digits(d.take(i + 1 - start))) by {
            assert forall|k: int| 0 <= k < i + 1 - start implies is_digit(
                #[trigger] d.take(i + 1 - start)[k],
            ) by {
                if k < i - start {
                    assert(d.take(i + 1 - start)[k] == d.take(i - start)[k]);
                }
            }
        }
        if digit > max {
            proof {
                if all_digits(d) {
                    lemma_digits_value_monotone(d, i + 1 - start);
                }
            }
            return None;
        }
        if acc > (max - digit) / 10 {
            assert(acc * 10 + digit > max) by (nonlinear_arith)
                requires
                    acc > (max - digit) / 10,
                    digit <= max,
            ;
            proof {
                if all_digits(d) {
                    lemma_digits_value_monotone(d, i + 1 - start);
                }
            }
            return None;
        }
        assert(acc * 10 + digit <= max) by (nonlinear_arith)
            requires
                acc <= (max - digit) / 10,
                digit <= max,
        ;
        acc = acc * 10 + digit;
        i += 1;
    }
    assert(d.take(to - start) == d);
    Some(acc)
}

/// `year.month.day`, each part a number in range.
pub fn parse_save_date(value: &String) -> (r: Option<SaveDate>)
    ensures
        r == parse_save_date_spec(value@),
{
    let w = chars_of(value.as_str());
    let ghost key = w@;
    let k1 = crate::parser::first_dot(&w, 0);
    assert(w@.skip(0) == w@);
    if k1 == w.len() {
        return None;
    }
    let k2 = crate::parser::first_dot(&w, k1 + 1);
    let ghost rest1 = key.skip(k1 + 1);
    assert(w@.skip(k1 + 1) == rest1);
    if k2 == w.len() {
        return None;
    }
    let k3 = crate::parser::first_dot(&w, k2 + 1);
    let ghost rest2 = rest1.skip(k2 - k1);
    assert(w@.skip(k2 + 1) =~= rest2);
    if k3 != w.len() {
        return None;
    }
    assert(key.take(k1 as int) =~= w@.subrange(0, k1 as int));
    assert(rest1.take(k2 - k1 - 1) =~= w@.subrange(k1 + 1, k2 as int));
    assert(rest2 =~= w@.subrange(k2 + 1, w.len() as int));
    let year = parse_unsigned(&w, 0, k1, 65535);
    let month = parse_unsigned(&w, k1 + 1, k2, 255);
    let day = parse_unsigned(&w, k2 + 1, w.len(), 255);
    match (year, month, day) {
        (Some(y), Some(m), Some(d)) => Some(SaveDate { year: y as u16, month: m as u8, day: d as u8 }),
        _ => None,
    }
}

impl SaveDate {
    /// `YYYY-MM-DD`, each part padded with zeros.
    pub fn to_iso_string(self) -> (r: String)
        ensures
            r@ == iso_date_text(self),
    {
        let mut out = padded_u64_text(self.year as u64, 4);
        out.push('-');
        let month = padded_u64_text(self.month as u64, 2);
        push_chars(&mut out, &month);
        out.push('-');
        let day = padded_u64_text(self.day as u64, 2);
        push_chars(&mut out, &day);
        string_of(&out)
    }
}

impl FixedPoint32 {
    fn from_value(value: &Value) -> (r: Option<Self>)
        ensures
            match r {
                Some(f) => fixed_point_spec(value@) == Some(f.raw()),
                None => fixed_point_spec(value@) is None,
            },
    {
        match value {
            Value::Integer(v) => {
                let scaled = v.checked_mul(1000);
                match scaled {
                    Some(x) => {
                        if -2147483648 <= x && x <= 2147483647 {
                            Some(FixedPoint32 { raw: x as i32 })
                        } else {
                            None
                        }
                    },
                    None => None,
                }
            },
            Value::Decimal(d) => match d.to_thousandths() {
                Some(x) => Some(FixedPoint32 { raw: x }),
                None => None,
            },
            _ => None,
        }
    }

    /// The stored thousandths, a negative value read as having wrapped past `i32::MAX`.
    pub fn corrected_raw(self) -> (r: u64)
        ensures
            r == corrected_raw_spec(self.raw()),
            r < 0x1_0000_0000,
    {
        let raw = self.raw as i64;
        let corrected = if raw < 0 {
            raw + 0x1_0000_0000
        } else {
            raw
        };
        corrected as u64
    }
}


// ---------------------------------------------------------------------------
// Fields of a block
// ---------------------------------------------------------------------------

pub open spec fn opt_ref_view(o: Option<&Value>) -> Option<SpecValue> {
    match o {
        Some(v) => Some(v@),
        None => None,
    }
}

pub open spec fn battles_view(b: Seq<Battle>) -> Seq<SpecBattle> {
    b.map_values(|x: Battle| x@)
}

proof fn lemma_fields(fields: Seq<Statement>)
    ensures
        statements_view(fields).len() == fields.len(),
        forall|j: int| 0 <= j < fields.len() ==> #[trigger] statements_view(fields)[j] == fields[j]@,
{
    lemma_statements_view_len(fields);
}

/// The value of the last field named `key`.
fn last_field_value<'a>(fields: &'a Vec<Statement>, key: &str) -> (r: Option<&'a Value>)
    ensures
        opt_ref_view(r) == last_value(statements_view(fields@), key@),
{
    let ghost fv = statements_view(fields@);
    proof {
        lemma_fields(fields@);
        assert(fv.take(fv.len() as int) == fv);
    }
    let mut i = fields.len();
    while i > 0
        invariant
            i <= fields.len(),
            fv == statements_view(fields@),
            fv.len() == fields.len(),
            forall|j: int| 0 <= j < fields.len() ==> #[trigger] fv[j] == fields@[j]@,
            last_value(fv, key@) == last_value(fv.take(i as int), key@),
        decreases i,
    {
        let field = &fields[i - 1];
        assert(fv.take(i as int).last() == fv[i - 1]);
        assert(fv.take(i as int).drop_last() == fv.take(i - 1));
        if text_is(&field.key, key) {
            return match &field.value {
                Some(v) => Some(v),
                None => None,
            };
        }
        i -= 1;
    }
    None
}

/// The texts of all fields named `key` whose values read as text, in order.
fn all_field_strings(fields: &Vec<Statement>, key: &str) -> (r: Vec<String>)
    ensures
        strings_view(r@) == all_strings(statements_view(fields@), key@),
{
    let ghost fv = statements_view(fields@);
    proof {
        lemma_fields(fields@);
        assert(fv.take(0) =~= Seq::<SpecStatement>::empty());
    }
    let mut r: Vec<String> = Vec::new();
    assert(strings_view(r@) =~= Seq::<Seq<char>>::empty());
    let mut i: usize = 0;
    while i < fields.len()
        invariant
            i <= fields.len(),
            fv == statements_view(fields@),
            fv.len() == fields.len(),
            forall|j: int| 0 <= j < fields.len() ==> #[trigger] fv[j] == fields@[j]@,
            strings_view(r@) == all_strings(fv.take(i as int), key@),
        decreases fields.len() - i,
    {
        let field = &fields[i];
        assert(fv.take(i + 1).last() == fv[i as int]);
        assert(fv.take(i + 1).drop_last() == fv.take(i as int));
        if text_is(&field.key, key) {
            match &field.value {
                Some(v) => {
                    match value_to_string(v) {
                        Some(text) => {
                            let ghost before = r@;
                            r.push(text);
                            assert(strings_view(r@) =~= strings_view(before).push(text@));
                        },
                        None => {},
                    }
                },
                None => {},
            }
        }
        i += 1;
    }
    assert(fv.take(fields.len() as int) == fv);
    r
}

/// The values of all fields named `key` that have one, in order.
fn all_field_values(fields: &Vec<Statement>, key: &str) -> (r: Vec<Value>)
    ensures
        values_view(r@) == all_values(statements_view(fields@), key@),
{
    let ghost fv = statements_view(fields@);
    proof {
        lemma_fields(fields@);
        assert(fv.take(0) =~= Seq::<SpecStatement>::empty());
    }
    let mut r: Vec<Value> = Vec::new();
    assert(values_view(r@) =~= Seq::<SpecValue>::empty());
    let mut i: usize = 0;
    while i < fields.len()
        invariant
            i <= fields.len(),
            fv == statements_view(fields@),
            fv.len() == fields.len(),
            forall|j: int| 0 <= j < fields.len() ==> #[trigger] fv[j] == fields@[j]@,
            values_view(r@) == all_values(fv.take(i as int), key@),
        decreases fields.len() - i,
    {
        let field = &fields[i];
        assert(fv.take(i + 1).last() == fv[i as int]);
        assert(fv.take(i + 1).drop_last() == fv.take(i as int));
        if text_is(&field.key, key) {
            match &field.value {
                Some(v) => {
                    let ghost before = r@;
                    let copy = v.clone();
                    r.push(copy);
                    assert(r@.drop_last() == before);
                },
                None => {},
            }
        }
        i += 1;
    }
    assert(fv.take(fields.len() as int) == fv);
    r
}

fn string_of_field(value: Option<&Value>) -> (r: Option<String>)
    ensures
        opt_string_view(r) == match opt_ref_view(value) {
            Some(v) => value_to_string_spec(v),
            None => None,
        },
{
    match value {
        Some(v) => value_to_string(v),
        None => None,
    }
}

fn bool_of_field(value: Option<&Value>) -> (r: Option<bool>)
    ensures
        r == match opt_ref_view(value) {
            Some(v) => value_to_bool_spec(v),
            None => None,
        },
{
    match value {
        Some(v) => value_to_bool(v),
        None => None,
    }
}

// ---------------------------------------------------------------------------
// Battles
// ---------------------------------------------------------------------------

/// Unit counts of a battle side; see `unit_counts_spec`.
fn collect_unit_counts(fields: &Vec<Statement>) -> (r: UnitCounts)
    ensures
        r@ == unit_counts_spec(statements_view(fields@)),
{
    let ghost fv = statements_view(fields@);
    proof {
        lemma_fields(fields@);
        assert(fv.take(0) =~= Seq::<SpecStatement>::empty());
    }
    let mut counts = UnitCounts::new();
    let mut i: usize = 0;
    while i < fields.len()
        invariant
            i <= fields.len(),
            fv == statements_view(fields@),
            fv.len() == fields.len(),
            forall|j: int| 0 <= j < fields.len() ==> #[trigger] fv[j] == fields@[j]@,
            counts@ == unit_counts_spec(fv.take(i as int)),
        decreases fields.len() - i,
    {
        let field = &fields[i];
        assert(fv.take(i + 1).last() == fv[i as int]);
        assert(fv.take(i + 1).drop_last() == fv.take(i as int));
        if !text_is(&field.key, "country") && !text_is(&field.key, "leader") && !text_is(
            &field.key,
            "losses",
        ) {
            match &field.value {
                Some(Value::Integer(count)) => {
                    counts.insert(field.key.clone(), *count);
                },
                _ => {},
            }
        }
        i += 1;
    }
    assert(fv.take(fields.len() as int) == fv);
    counts
}

fn parse_battle_side(value: &Value) -> (r: Option<BattleSide>)
    ensures
        match r {
            Some(side) => parse_battle_side_spec(value@) == Some(side@),
            None => parse_battle_side_spec(value@) is None,
        },
{
    let fields = match value {
        Value::Block(Block::Statements(fields)) => fields,
        _ => {
            return None;
        },
    };
    let country = string_of_field(last_field_value(fields, "country"));
    let leader = string_of_field(last_field_value(fields, "leader"));
    let losses = match last_field_value(fields, "losses") {
        Some(v) => FixedPoint32::from_value(v),
        None => None,
    };
    let unit_counts = collect_unit_counts(fields);
    Some(BattleSide { country, leader, losses, unit_counts })
}

/// A battle block: its name, location, result and both sides.
pub fn parse_battle_from_value(value: &Value) -> (r: Option<Battle>)
    ensures
        match r {
            Some(b) => parse_battle_spec(value@) == Some(b@),
            None => parse_battle_spec(value@) is None,
        },
{
    let fields = match value {
        Value::Block(Block::Statements(fields)) => fields,
        _ => {
            return None;
        },
    };
    let name = string_of_field(last_field_value(fields, "name"));
    let location = match last_field_value(fields, "location") {
        Some(v) => value_to_i64(v),
        None => None,
    };
    let attacker_won = bool_of_field(last_field_value(fields, "result"));
    let attacker = match last_field_value(fields, "attacker") {
        Some(v) => parse_battle_side(v),
        None => None,
    };
    let defender = match last_field_value(fields, "defender") {
        Some(v) => parse_battle_side(v),
        None => None,
    };
    match (name, location, attacker, defender) {
        (Some(name), Some(location), Some(attacker), Some(defender)) => Some(
            Battle { name, location, attacker_won, attacker, defender },
        ),
        _ => None,
    }
}

/// Adds the battles found anywhere inside `value`; see `battles_in_value`.
fn collect_battles_from_history_value(value: &Value, battles: &mut Vec<Battle>)
    ensures
        battles_view(final(battles)@) == battles_view(old(battles)@) + battles_in_value(value@),
    decreases value, 1int,
{
    match value {
        Value::Block(Block::Statements(fields)) => {
            collect_battles_in_fields(fields, battles);
        },
        Value::Block(Block::Values(values)) => {
            collect_battles_in_values(values, battles);
        },
        _ => {
            assert(battles_view(battles@) =~= battles_view(battles@) + Seq::<SpecBattle>::empty());
        },
    }
}

fn collect_battles_in_fields(fields: &Vec<Statement>, battles: &mut Vec<Battle>)
    ensures
        battles_view(final(battles)@) == battles_view(old(battles)@) + battles_in_fields(
            statements_view(fields@),
        ),
    decreases fields, 0int,
{
    let ghost fv = statements_view(fields@);
    let ghost base = battles_view(battles@);
    proof {
        lemma_fields(fields@);
        assert(fv.take(0) =~= Seq::<SpecStatement>::empty());
        assert(base + battles_in_fields(fv.take(0)) =~= base);
    }
    let mut i: usize = 0;
    while i < fields.len()
        invariant
            i <= fields.len(),
            fv == statements_view(fields@),
            fv.len() == fields.len(),
            forall|j: int| 0 <= j < fields.len() ==> #[trigger] fv[j] == fields@[j]@,
            battles_view(battles@) == base + battles_in_fields(fv.take(i as int)),
        decreases fields.len() - i,
    {
        let field = &fields[i];
        assert(fv.take(i + 1).last() == fv[i as int]);
        assert(fv.take(i + 1).drop_last() == fv.take(i as int));
        let ghost before = battles_view(battles@);
        if text_is(&field.key, "battle") {
            match &field.value {
                Some(v) => match parse_battle_from_value(v) {
                    Some(battle) => {
                        let ghost bb = battles@;
                        battles.push(battle);
                        assert(battles_view(battles@) =~= battles_view(bb) + seq![battle@]);
                    },
                    None => {},
                },
                None => {},
            }
        } else {
            match &field.value {
                Some(v) => {
                    collect_battles_from_history_value(v, battles);
                },
                None => {},
            }
        }
        proof {
            let added = if fv[i as int].key == "battle"@ {
                battle_of_field(fv[i as int])
            } else {
                match fv[i as int].value {
                    Some(v) => battles_in_value(v),
                    None => seq![],
                }
            };
            assert(battles_view(battles@) =~= before + added);
            assert(base + battles_in_fields(fv.take(i + 1)) =~= (base + battles_in_fields(
                fv.take(i as int),
            )) + added);
        }
        i += 1;
    }
    assert(fv.take(fields.len() as int) == fv);
}

fn collect_battles_in_values(values: &Vec<Value>, battles: &mut Vec<Battle>)
    ensures
        battles_view(final(battles)@) == battles_view(old(battles)@) + battles_in_values(
            values_view(values@),
        ),
    decreases values, 0int,
{
    let ghost vv = values_view(values@);
    let ghost base = battles_view(battles@);
    proof {
        lemma_values_view_len(values@);
        assert(vv.take(0) =~= Seq::<SpecValue>::empty());
        assert(base + battles_in_values(vv.take(0)) =~= base);
    }
    let mut i: usize = 0;
    while i < values.len()
        invariant
            i <= values.len(),
            vv == values_view(values@),
            vv.len() == values.len(),
            forall|j: int| 0 <= j < values.len() ==> #[trigger] vv[j] == values@[j]@,
            battles_view(battles@) == base + battles_in_values(vv.take(i as int)),
        decreases values.len() - i,
    {
        assert(vv.take(i + 1).last() == vv[i as int]);
        assert(vv.take(i + 1).drop_last() == vv.take(i as int));
        collect_battles_from_history_value(&values[i], battles);
        assert(base + battles_in_values(vv.take(i + 1)) =~= (base + battles_in_values(
            vv.take(i as int),
        )) + battles_in_value(vv[i as int]));
        i += 1;
    }
    assert(vv.take(values.len() as int) == vv);
}

/// A war history block: its battles (direct and under dated entries) and its dated entries.
fn parse_war_history(value: &Value) -> (r: Option<WarHistory>)
    ensures
        match r {
            Some(h) => parse_war_history_spec(value@) == Some(h@),
            None => parse_war_history_spec(value@) is None,
        },
{
    let fields = match value {
        Value::Block(Block::Statements(fields)) => fields,
        _ => {
            return None;
        },
    };
    let ghost fv = statements_view(fields@);
    proof {
        lemma_fields(fields@);
        assert(fv.take(0) =~= Seq::<SpecStatement>::empty());
    }
    let mut battles: Vec<Battle> = Vec::new();
    let mut dated_entries: Vec<DatedWarHistoryEntry> = Vec::new();
    assert(battles_view(battles@) =~= Seq::<SpecBattle>::empty());
    assert(dated_entries@.map_values(|d: DatedWarHistoryEntry| d@) =~= Seq::<SpecDatedEntry>::empty());
    let mut i: usize = 0;
    while i < fields.len()
        invariant
            i <= fields.len(),
            fv == statements_view(fields@),
            fv.len() == fields.len(),
            forall|j: int| 0 <= j < fields.len() ==> #[trigger] fv[j] == fields@[j]@,
            battles_view(battles@) == history_battles(fv.take(i as int)),
            dated_entries@.map_values(|d: DatedWarHistoryEntry| d@) == history_dated_entries(
                fv.take(i as int),
            ),
        decreases fields.len() - i,
    {
        let field = &fields[i];
        assert(fv.take(i + 1).last() == fv[i as int]);
        assert(fv.take(i + 1).drop_last() == fv.take(i as int));
        let ghost before = battles_view(battles@);
        let ghost before_dated = dated_entries@.map_values(|d: DatedWarHistoryEntry| d@);
        if text_is(&field.key, "battle") {
            match &field.value {
                Some(v) => match parse_battle_from_value(v) {
                    Some(battle) => {
                        let ghost bb = battles@;
                        battles.push(battle);
                        assert(battles_view(battles@) =~= battles_view(bb) + seq![battle@]);
                    },
                    None => {},
                },
                None => {},
            }
            assert(battles_view(battles@) =~= before + history_field_battles(fv[i as int]));
        } else {
            match parse_save_date(&field.key) {
                Some(date) => {
                    match &field.value {
                        Some(v) => {
                            collect_battles_from_history_value(v, &mut battles);
                            let entry = DatedWarHistoryEntry { date, value: v.clone() };
                            let ghost dd = dated_entries@;
                            dated_entries.push(entry);
                            assert(dated_entries@.map_values(|d: DatedWarHistoryEntry| d@) =~= dd.map_values(
                                |d: DatedWarHistoryEntry| d@,
                            ).push(entry@));
                        },
                        None => {},
                    }
                },
                None => {},
            }
            assert(battles_view(battles@) =~= before + history_field_battles(fv[i as int]));
        }
        i += 1;
    }
    assert(fv.take(fields.len() as int) == fv);
    Some(WarHistory { battles, dated_entries })
}

// ---------------------------------------------------------------------------
// Wars
// ---------------------------------------------------------------------------

fn parse_war(statement: &Statement, kind: WarKind) -> (r: Option<WarData>)
    requires
        war_originals_unique(statement@),
    ensures
        match r {
            Some(w) => parse_war_spec(statement@, kind) == Some(w@),
            None => parse_war_spec(statement@, kind) is None,
        },
{
    let fields = match &statement.value {
        Some(Value::Block(Block::Statements(fields))) => fields,
        _ => {
            return None;
        },
    };
    let name = string_of_field(last_field_value(fields, "name"));
    let history = match last_field_value(fields, "history") {
        Some(v) => parse_war_history(v),
        None => None,
    };
    let attackers = all_field_strings(fields, "attacker");
    let defenders = all_field_strings(fields, "defender");
    let original_attackers = all_field_strings(fields, "original_attacker");
    let original_defenders = all_field_strings(fields, "original_defender");
    let original_wargoals = all_field_values(fields, "original_wargoal");
    let actions = all_field_values(fields, "action");
    let war_goals = all_field_values(fields, "war_goal");
    let great_wars_enabled = bool_of_field(last_field_value(fields, "great_wars_enabled"));
    if original_attackers.len() != 1 || original_defenders.len() != 1 {
        return None;
    }
    let original_attacker = original_attackers[0].clone();
    let original_defender = original_defenders[0].clone();
    match (name, history) {
        (Some(name), Some(history)) => Some(
            WarData {
                kind,
                name,
                history,
                attackers,
                defenders,
                original_attacker,
                original_defender,
                original_wargoals,
                actions,
                war_goals,
                great_wars_enabled,
            },
        ),
        _ => None,
    }
}

fn extract_wars_for_key(document: &Document, top_level_key: &str, war_kind: WarKind) -> (r: Vec<
    WarData,
>)
    requires
        document_originals_unique(document@),
        top_level_key@ == "previous_war"@ || top_level_key@ == "active_war"@,
    ensures
        wars_view(r@) == wars_for_key(document@, top_level_key@, war_kind),
{
    let statements = &document.statements;
    let ghost sv = statements_view(statements@);
    proof {
        lemma_fields(statements@);
        assert(sv.take(0) =~= Seq::<SpecStatement>::empty());
    }
    let mut wars: Vec<WarData> = Vec::new();
    assert(wars_view(wars@) =~= Seq::<SpecWarData>::empty());
    let mut i: usize = 0;
    while i < statements.len()
        invariant
            i <= statements.len(),
            sv == statements_view(statements@),
            sv == document@,
            sv.len() == statements.len(),
            forall|j: int| 0 <= j < statements.len() ==> #[trigger] sv[j] == statements@[j]@,
            document_originals_unique(sv),
            top_level_key@ == "previous_war"@ || top_level_key@ == "active_war"@,
            wars_view(wars@) == wars_for_key(sv.take(i as int), top_level_key@, war_kind),
        decreases statements.len() - i,
    {
        let statement = &statements[i];
        assert(sv.take(i + 1).last() == sv[i as int]);
        assert(sv.take(i + 1).drop_last() == sv.take(i as int));
        if text_is(&statement.key, top_level_key) {
            assert(war_originals_unique(sv[i as int]));
            match parse_war(statement, war_kind) {
                Some(war) => {
                    let ghost ww = wars@;
                    wars.push(war);
                    assert(wars_view(wars@) =~= wars_view(ww).push(war@));
                },
                None => {},
            }
        }
        i += 1;
    }
    assert(sv.take(statements.len() as int) == sv);
    wars
}

/// The wars of a document: its `previous_war` and `active_war` statements
/// that hold a war, each list in document order.
pub fn extract_wars(document: &Document) -> (r: WarCollection)
    requires
        document_originals_unique(document@),
    ensures
        wars_view(r.previous_wars@) == wars_for_key(document@, "previous_war"@, WarKind::Previous),
        wars_view(r.active_wars@) == wars_for_key(document@, "active_war"@, WarKind::Active),
{
    WarCollection {
        previous_wars: extract_wars_for_key(document, "previous_war", WarKind::Previous),
        active_wars: extract_wars_for_key(document, "active_war", WarKind::Active),
    }
}

/// Whether no war statement of the document names an original side twice,
/// which `extract_wars` needs.
pub fn wars_have_unique_originals(document: &Document) -> (r: bool)
    ensures
        r == document_originals_unique(document@),
{
    let statements = &document.statements;
    let ghost sv = statements_view(statements@);
    proof {
        lemma_fields(statements@);
    }
    let mut i: usize = 0;
    while i < statements.len()
        invariant
            i <= statements.len(),
            sv == statements_view(statements@),
            sv == document@,
            sv.len() == statements.len(),
            forall|j: int| 0 <= j < statements.len() ==> #[trigger] sv[j] == statements@[j]@,
            forall|j: int|
                0 <= j < i && ((#[trigger] sv[j]).key == "previous_war"@ || sv[j].key
                    == "active_war"@) ==> war_originals_unique(sv[j]),
        decreases statements.len() - i,
    {
        let statement = &statements[i];
        if text_is(&statement.key, "previous_war") || text_is(&statement.key, "active_war") {
            match &statement.value {
                Some(Value::Block(Block::Statements(fields))) => {
                    let attackers = all_field_strings(fields, "original_attacker");
                    let defenders = all_field_strings(fields, "original_defender");
                    if attackers.len() > 1 || defenders.len() > 1 {
                        assert(!war_originals_unique(sv[i as int]));
                        return false;
                    }
                },
                _ => {},
            }
        }
        i += 1;
    }
    true
}

// ---------------------------------------------------------------------------
// Losses
// ---------------------------------------------------------------------------

/// A side's losses in thousandths, corrected for wrap-around; none counts as zero.
pub open spec fn side_losses(s: SpecBattleSide) -> int {
    match s.losses {
        Some(raw) => corrected_raw_spec(raw),
        None => 0,
    }
}

pub open spec fn battle_losses(b: SpecBattle) -> int {
    side_losses(b.attacker) + side_losses(b.defender)
}

pub open spec fn attacker_losses_sum(bs: Seq<SpecBattle>) -> int
    decreases bs.len(),
{
    if bs.len() == 0 {
        0
    } else {
        attacker_losses_sum(bs.drop_last()) + side_losses(bs.last().attacker)
    }
}

pub open spec fn defender_losses_sum(bs: Seq<SpecBattle>) -> int
    decreases bs.len(),
{
    if bs.len() == 0 {
        0
    } else {
        defender_losses_sum(bs.drop_last()) + side_losses(bs.last().defender)
    }
}

impl BattleSide {
    /// The losses in thousandths, corrected for wrap-around.
    pub fn losses_amount(&self) -> (r: Option<u64>)
        ensures
            match r {
                Some(x) => self@.losses matches Some(raw) && x == corrected_raw_spec(raw),
                None => self@.losses is None,
            },
    {
        match self.losses {
            Some(l) => Some(l.corrected_raw()),
            None => None,
        }
    }
}

impl Battle {
    /// The attacker's losses in thousandths; zero when not recorded.
    pub fn attacker_losses(&self) -> (r: u64)
        ensures
            r == side_losses(self@.attacker),
            r < 0x1_0000_0000,
    {
        match self.attacker.losses_amount() {
            Some(x) => x,
            None => 0,
        }
    }

    /// The defender's losses in thousandths; zero when not recorded.
    pub fn defender_losses(&self) -> (r: u64)
        ensures
            r == side_losses(self@.defender),
            r < 0x1_0000_0000,
    {
        match self.defender.losses_amount() {
            Some(x) => x,
            None => 0,
        }
    }

    /// Both sides' losses in thousandths.
    pub fn total_losses(&self) -> (r: u64)
        ensures
            r == battle_losses(self@),
    {
        self.attacker_losses() + self.defender_losses()
    }
}

impl WarData {
    /// The attackers' losses over all battles, in thousandths.
    pub fn attacker_total_losses(&self) -> (r: u128)
        ensures
            r == attacker_losses_sum(self@.history.battles),
            r <= self.history.battles.len() * 0x1_0000_0000,
    {
        let battles = &self.history.battles;
        let ghost bv = battles_view(battles@);
        let mut total: u128 = 0;
        let mut i: usize = 0;
        assert(bv.take(0) =~= Seq::<SpecBattle>::empty());
        while i < battles.len()
            invariant
                i <= battles.len(),
                bv == battles_view(battles@),
                bv == self@.history.battles,
                total == attacker_losses_sum(bv.take(i as int)),
                total <= i * 0x1_0000_0000,
            decreases battles.len() - i,
        {
            assert(bv.take(i + 1).drop_last() == bv.take(i as int));
            assert(bv[i as int] == battles@[i as int]@);
            let x = battles[i].attacker_losses();
            total = total + x as u128;
            i += 1;
        }
        assert(bv.take(battles.len() as int) == bv);
        total
    }

    /// The defenders' losses over all battles, in thousandths.
    pub fn defender_total_losses(&self) -> (r: u128)
        ensures
            r == defender_losses_sum(self@.history.battles),
            r <= self.history.battles.len() * 0x1_0000_0000,
    {
        let battles = &self.history.battles;
        let ghost bv = battles_view(battles@);
        let mut total: u128 = 0;
        let mut i: usize = 0;
        assert(bv.take(0) =~= Seq::<SpecBattle>::empty());
        while i < battles.len()
            invariant
                i <= battles.len(),
                bv == battles_view(battles@),
                bv == self@.history.battles,
                total == defender_losses_sum(bv.take(i as int)),
                total <= i * 0x1_0000_0000,
            decreases battles.len() - i,
        {
            assert(bv.take(i + 1).drop_last() == bv.take(i as int));
            assert(bv[i as int] == battles@[i as int]@);
            let x = battles[i].defender_losses();
            total = total + x as u128;
            i += 1;
        }
        assert(bv.take(battles.len() as int) == bv);
        total
    }

    /// All losses over all battles, in thousandths.
    pub fn total_losses(&self) -> (r: u128)
        ensures
            r == attacker_losses_sum(self@.history.battles) + defender_losses_sum(
                self@.history.battles,
            ),
    {
        let a = self.attacker_total_losses();
        let d = self.defender_total_losses();
        a + d
    }
}

} // verus!
