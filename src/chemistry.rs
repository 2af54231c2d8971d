//! The reaction table: rules parsed from text, and pairwise lookup that does
//! not depend on the order in which two reactants are named.

use vstd::prelude::*;
use ahash::AHashMap;
use crate::hashed::{rule_entries, rule_entries_new, rule_entries_insert, rule_entries_get};
use crate::parse::{cleaned, clean, rule_parts, rule_parts_of, side, side_of, token, token_of};

verus! {

/// A reactant: `(species, state)`.
#[derive(Clone, Copy, Debug, PartialEq, Eq, Structural, Hash)]
pub struct Reactant(pub u8, pub u8);

/// What happens when two reactants meet; the two numbers are the new states
/// of the first and the second reactant.
#[derive(Clone, Copy, Debug, PartialEq, Eq, Structural)]
pub enum ReactionResult {
    /// The pair bonds.
    Combine(u8, u8),
    /// A bonded pair separates.
    Decompose(u8, u8),
    /// The pair changes state without bonding.
    Excite(u8, u8),
}

/// What one line of a rule file holds.
#[derive(Clone, Copy, Debug, PartialEq, Eq, Structural)]
pub enum LineKind {
    /// Nothing but whitespace and comment.
    Blank,
    /// A rule: the two reactants and what their meeting gives.
    Rule(Reactant, Reactant, ReactionResult),
    /// Text that is no rule; it is skipped.
    Malformed,
}

/// A key of the reaction table.
pub type RuleKey = ((u8, u8), (u8, u8));

/// The table key of two reactants, in this order.
pub open spec fn key_of(a: Reactant, b: Reactant) -> RuleKey {
    ((a.0, a.1), (b.0, b.1))
}

/// The same outcome, as seen with the two reactants named the other way round.
pub open spec fn swapped(r: ReactionResult) -> ReactionResult {
    match r {
        ReactionResult::Combine(p, q) => ReactionResult::Combine(q, p),
        ReactionResult::Decompose(p, q) => ReactionResult::Decompose(q, p),
        ReactionResult::Excite(p, q) => ReactionResult::Excite(q, p),
    }
}

/// The kind of rule that a pair of separators selects.
pub open spec fn outcome(seps: (char, char), p: u8, q: u8) -> ReactionResult {
    if seps == ('+', '=') {
        ReactionResult::Combine(p, q)
    } else if seps == ('=', '+') {
        ReactionResult::Decompose(p, q)
    } else {
        ReactionResult::Excite(p, q)
    }
}

/// What the line `s` holds.
pub open spec fn line_kind(s: Seq<char>) -> LineKind {
    let c = cleaned(s);
    if c.len() == 0 {
        LineKind::Blank
    } else {
        match rule_parts(c) {
            Some((seps, a, b, prod)) => LineKind::Rule(
                Reactant(a.0, a.1),
                Reactant(b.0, b.1),
                outcome(seps, prod.0, prod.1),
            ),
            None => LineKind::Malformed,
        }
    }
}

/// The table that the lines build: each rule line in turn sets the entry of
/// its reactant pair, so a later rule for the same pair wins.
pub open spec fn table_of(lines: Seq<Seq<char>>) -> Map<RuleKey, ReactionResult>
    decreases lines.len(),
{
    if lines.len() == 0 {
        Map::empty()
    } else {
        let m = table_of(lines.drop_last());
        match line_kind(lines.last()) {
            LineKind::Rule(a, b, r) => m.insert(key_of(a, b), r),
            _ => m,
        }
    }
}

/// The text of each line.
pub open spec fn texts(lines: Seq<String>) -> Seq<Seq<char>> {
    lines.map_values(|l: String| l@)
}

/// What meeting `r1` and `r2` gives, by the table `m`: the rule stored for
/// `(r1, r2)`, else the rule stored for `(r2, r1)` with its product states
/// swapped, else nothing.
pub open spec fn lookup(m: Map<RuleKey, ReactionResult>, r1: Reactant, r2: Reactant) -> Option<ReactionResult> {
    if m.contains_key(key_of(r1, r2)) {
        Some(m[key_of(r1, r2)])
    } else if m.contains_key(key_of(r2, r1)) {
        Some(swapped(m[key_of(r2, r1)]))
    } else {
        None
    }
}

/// The two reactants and product states of one rule, given its two sides and
/// their separators.
pub open spec fn reaction_sides(l: Seq<char>, r: Seq<char>, sep1: char, sep2: char) -> Option<(Reactant, Reactant, (u8, u8))> {
    match (side(l, sep1), side(r, sep2)) {
        (Some((a, b)), Some((p, q))) => if a.0 == p.0 && b.0 == q.0 {
            Some((Reactant(a.0, a.1), Reactant(b.0, b.1), (p.1, q.1)))
        } else {
            None
        },
        _ => None,
    }
}

/// A set of reaction rules.
pub struct Chemistry {
    rxns: AHashMap<RuleKey, ReactionResult>,
}

impl View for Chemistry {
    type V = Map<RuleKey, ReactionResult>;

    closed spec fn view(&self) -> Map<RuleKey, ReactionResult> {
        rule_entries(self.rxns)
    }
}

/// The characters of `s`.
fn chars_of(s: &str) -> (r: Vec<char>)
    ensures
        r@ == s@,
{
    let n = s.unicode_len();
    let mut r: Vec<char> = Vec::new();
    let mut i: usize = 0;
    while i < n
        invariant
            n == s@.len(),
            i <= n,
            r@ == s@.take(i as int),
        decreases n - i,
    {
        r.push(s.get_char(i));
        assert(s@.take(i + 1) == s@.take(i as int).push(s@[i as int]));
        i = i + 1;
    }
    assert(s@.take(n as int) == s@);
    r
}

/// What the line `line` holds.
pub fn parse_line(line: &str) -> (r: LineKind)
    ensures
        r == line_kind(line@),
{
    let c = clean(line);
    if c.len() == 0 {
        return LineKind::Blank;
    }
    match rule_parts_of(&c) {
        Some((seps, a, b, prod)) => {
            let r = if seps.0 == '+' && seps.1 == '=' {
                ReactionResult::Combine(prod.0, prod.1)
            } else if seps.0 == '=' && seps.1 == '+' {
                ReactionResult::Decompose(prod.0, prod.1)
            } else {
                ReactionResult::Excite(prod.0, prod.1)
            };
            LineKind::Rule(Reactant(a.0, a.1), Reactant(b.0, b.1), r)
        },
        None => LineKind::Malformed,
    }
}

/// The indices of the lines that are neither blank nor a rule, in order.
pub fn malformed_lines(lines: &Vec<String>) -> (r: Vec<usize>)
    ensures
        forall|i: int| 0 <= i < r@.len() ==> 0 <= #[trigger] r@[i] < lines@.len(),
        forall|i: int, j: int| 0 <= i < j < r@.len() ==> r@[i] < r@[j],
        forall|k: usize| k < lines@.len() ==> (r@.contains(k) <==> line_kind(#[trigger] lines@[k as int]@) == LineKind::Malformed),
{
    let mut r: Vec<usize> = Vec::new();
    let mut i: usize = 0;
    while i < lines.len()
        invariant
            i <= lines@.len(),
            forall|j: int| 0 <= j < r@.len() ==> 0 <= #[trigger] r@[j] < i,
            forall|a: int, b: int| 0 <= a < b < r@.len() ==> r@[a] < r@[b],
            forall|k: usize| k < i ==> (r@.contains(k) <==> line_kind(#[trigger] lines@[k as int]@) == LineKind::Malformed),
        decreases lines@.len() - i,
    {
        let kind = parse_line(lines[i].as_str());
        let ghost before = r@;
        if kind == LineKind::Malformed {
            r.push(i);
        }
        proof {
            assert forall|k: usize| k < i + 1 implies (r@.contains(k) <==> line_kind(#[trigger] lines@[k as int]@) == LineKind::Malformed) by {
                if k < i {
                    if before.contains(k) {
                        let j = choose|j: int| 0 <= j < before.len() && before[j] == k;
                        assert(r@[j] == k);
                    }
                    if r@.contains(k) {
                        let j = choose|j: int| 0 <= j < r@.len() && r@[j] == k;
                        if j < before.len() {
                            assert(before[j] == k);
                        }
                    }
                } else {
                    if kind == LineKind::Malformed {
                        assert(r@[before.len() as int] == k);
                    }
                }
            }
        }
        i = i + 1;
    }
    r
}

impl Chemistry {
    /// A chemistry without rules.
    pub fn empty() -> (r: Chemistry)
        ensures
            r@.dom().is_empty(),
    {
        Chemistry { rxns: rule_entries_new() }
    }

    /// The chemistry that a rule file's lines describe. Malformed lines are
    /// skipped (see `malformed_lines`); a later rule for the same ordered
    /// pair of reactants replaces an earlier one.
    pub fn new(lines: &Vec<String>) -> (r: Chemistry)
        ensures
            r@ == table_of(texts(lines@)),
    {
        let mut rxns = rule_entries_new();
        let mut i: usize = 0;
        assert(rule_entries(rxns) =~= table_of(texts(lines@).take(0)));
        while i < lines.len()
            invariant
                i <= lines@.len(),
                rule_entries(rxns) == table_of(texts(lines@).take(i as int)),
            decreases lines@.len() - i,
        {
            let kind = parse_line(lines[i].as_str());
            assert(texts(lines@).take(i + 1).drop_last() == texts(lines@).take(i as int));
            assert(texts(lines@).take(i + 1).last() == lines@[i as int]@);
            match kind {
                LineKind::Rule(a, b, res) => {
                    rule_entries_insert(&mut rxns, ((a.0, a.1), (b.0, b.1)), res);
                },
                _ => {},
            }
            i = i + 1;
        }
        assert(texts(lines@).take(lines@.len() as int) == texts(lines@));
        Chemistry { rxns }
    }

    /// What meeting `reac1` and `reac2` gives, whichever order the rule
    /// names them in; the product states come in the order of the arguments.
    pub fn get_products(&self, reac1: Reactant, reac2: Reactant) -> (r: Option<ReactionResult>)
        ensures
            r == lookup(self@, reac1, reac2),
    {
        let order_0 = rule_entries_get(&self.rxns, ((reac1.0, reac1.1), (reac2.0, reac2.1)));
        let order_1 = rule_entries_get(&self.rxns, ((reac2.0, reac2.1), (reac1.0, reac1.1)));
        if let Some(rxn) = order_0 {
            Some(rxn)
        } else if let Some(rxn) = order_1 {
            match rxn {
                ReactionResult::Combine(p, q) => Some(ReactionResult::Combine(q, p)),
                ReactionResult::Decompose(p, q) => Some(ReactionResult::Decompose(q, p)),
                ReactionResult::Excite(p, q) => Some(ReactionResult::Excite(q, p)),
            }
        } else {
            None
        }
    }

    /// The reactants and product states of a rule whose reactant side is
    /// `reactant_substr`, split at `char1`, and whose product side is
    /// `product_substr`, split at `char2`. None if a side is not two tokens
    /// or the species change across the arrow.
    pub fn get_reactants_and_products(reactant_substr: &str, product_substr: &str, char1: char, char2: char) -> (r: Option<(Reactant, Reactant, (u8, u8))>)
        ensures
            r == reaction_sides(reactant_substr@, product_substr@, char1, char2),
    {
        let l = chars_of(reactant_substr);
        let rr = chars_of(product_substr);
        match (side_of(&l, char1), side_of(&rr, char2)) {
            (Some((a, b)), Some((p, q))) => if a.0 == p.0 && b.0 == q.0 {
                Some((Reactant(a.0, a.1), Reactant(b.0, b.1), (p.1, q.1)))
            } else {
                None
            },
            _ => None,
        }
    }

    /// The `(species, state)` that a token `<hex>{<hex>}` names.
    pub fn parse_species_and_state(instr: &str) -> (r: Option<(u8, u8)>)
        ensures
            r == token(instr@),
    {
        token_of(&chars_of(instr))
    }
}

/// Looking a pair up in either order gives the same outcome, with the
/// product states swapped: for every pair that a rule names, where the
/// table holds no rule for the same pair in the other order.
pub proof fn lemma_lookup_symmetric(c: &Chemistry, r1: Reactant, r2: Reactant)
    requires
        c@.contains_key(key_of(r1, r2)),
        !c@.contains_key(key_of(r2, r1)),
    ensures
        lookup(c@, r1, r2) == Some(c@[key_of(r1, r2)]),
        lookup(c@, r2, r1) == Some(swapped(c@[key_of(r1, r2)])),
        swapped(swapped(c@[key_of(r1, r2)])) == c@[key_of(r1, r2)],
{
}

} // verus!
