//! The grammar of a reaction rule line, over sequences of characters.
//!
//! A line is cleaned by cutting it at the first `#` and dropping whitespace.
//! What is left is `<reactant><sep1><reactant>-><product><sep2><product>`,
//! each token `<species-hex>{<state-hex>}`.

use vstd::prelude::*;

verus! {

/// Whitespace that a rule line may hold anywhere.
pub open spec fn is_blank(c: char) -> bool {
    c == ' ' || c == '\t' || c == '\r' || c == '\n' || c == '\x0b' || c == '\x0c'
}

/// The index of the first `ch` in `s`, or the length of `s` if there is none.
pub open spec fn first_pos(s: Seq<char>, ch: char) -> int
    decreases s.len(),
{
    if s.len() == 0 {
        0
    } else if s[0] == ch {
        0
    } else {
        1 + first_pos(s.drop_first(), ch)
    }
}

/// A line with its comment cut off and its whitespace removed.
pub open spec fn cleaned(s: Seq<char>) -> Seq<char> {
    s.take(first_pos(s, '#')).filter(|c: char| !is_blank(c))
}

/// The two sides of `s` around its only `ch`; none if `ch` occurs zero or
/// several times.
pub open spec fn split_pair(s: Seq<char>, ch: char) -> Option<(Seq<char>, Seq<char>)> {
    let p = first_pos(s, ch);
    if p < s.len() && !s.skip(p + 1).contains(ch) {
        Some((s.take(p), s.skip(p + 1)))
    } else {
        None
    }
}

/// The index of the first `->` in `s`, or the length of `s` if there is none.
pub open spec fn arrow_pos(s: Seq<char>) -> int
    decreases s.len(),
{
    if s.len() < 2 {
        s.len() as int
    } else if s[0] == '-' && s[1] == '>' {
        0
    } else {
        1 + arrow_pos(s.drop_first())
    }
}

/// The two sides of `s` around its only `->`.
pub open spec fn split_arrow(s: Seq<char>) -> Option<(Seq<char>, Seq<char>)> {
    let p = arrow_pos(s);
    if p < s.len() && arrow_pos(s.skip(p + 2)) == s.len() - (p + 2) {
        Some((s.take(p), s.skip(p + 2)))
    } else {
        None
    }
}

pub open spec fn is_hex(c: char) -> bool {
    ('0' <= c <= '9') || ('a' <= c <= 'f') || ('A' <= c <= 'F')
}

pub open spec fn hex_digit(c: char) -> nat {
    if '0' <= c <= '9' {
        (c as nat - '0' as nat) as nat
    } else if 'a' <= c <= 'f' {
        (c as nat - 'a' as nat + 10) as nat
    } else {
        (c as nat - 'A' as nat + 10) as nat
    }
}

/// The number that the hexadecimal digits `s` write.
pub open spec fn hex_value(s: Seq<char>) -> nat
    decreases s.len(),
{
    if s.len() == 0 {
        0
    } else {
        hex_value(s.drop_last()) * 16 + hex_digit(s.last())
    }
}

/// The byte that `s` writes in hexadecimal: one or more hex digits, with a
/// value of at most 255.
pub open spec fn hex_byte(s: Seq<char>) -> Option<u8> {
    if s.len() > 0 && (forall|i: int| 0 <= i < s.len() ==> is_hex(#[trigger] s[i])) && hex_value(s) <= 255 {
        Some(hex_value(s) as u8)
    } else {
        None
    }
}

/// The `(species, state)` that a token `<hex>{<hex>}` names.
pub open spec fn token(t: Seq<char>) -> Option<(u8, u8)> {
    let p = first_pos(t, '{');
    if p + 1 < t.len() && t.last() == '}' {
        match (hex_byte(t.take(p)), hex_byte(t.subrange(p + 1, t.len() - 1))) {
            (Some(a), Some(b)) => Some((a, b)),
            _ => None,
        }
    } else {
        None
    }
}

/// The two tokens of one side of a rule, around the separator `sep`.
pub open spec fn side(s: Seq<char>, sep: char) -> Option<((u8, u8), (u8, u8))> {
    match split_pair(s, sep) {
        Some((a, b)) => match (token(a), token(b)) {
            (Some(x), Some(y)) => Some((x, y)),
            _ => None,
        },
        None => None,
    }
}

/// The separators of the reactant and the product side that a rule's sides
/// use: `+`/`=` combines, `=`/`+` decomposes, `+`/`+` excites.
pub open spec fn separators(l: Seq<char>, r: Seq<char>) -> Option<(char, char)> {
    if l.contains('+') && r.contains('=') {
        Some(('+', '='))
    } else if l.contains('=') && r.contains('+') {
        Some(('=', '+'))
    } else if l.contains('+') && r.contains('+') {
        Some(('+', '+'))
    } else {
        None
    }
}

/// What a cleaned rule line reads: the separators that give its kind, the
/// two reactants, and the two product states. Species must match across
/// the arrow.
pub open spec fn rule_parts(c: Seq<char>) -> Option<((char, char), (u8, u8), (u8, u8), (u8, u8))> {
    match split_arrow(c) {
        Some((l, r)) => match separators(l, r) {
            Some(seps) => match (side(l, seps.0), side(r, seps.1)) {
                (Some((a, b)), Some((p, q))) => if a.0 == p.0 && b.0 == q.0 {
                    Some((seps, a, b, (p.1, q.1)))
                } else {
                    None
                },
                _ => None,
            },
            None => None,
        },
        None => None,
    }
}

proof fn lemma_first_pos(s: Seq<char>, ch: char, i: int)
    requires
        0 <= i <= s.len(),
        forall|j: int| 0 <= j < i ==> s[j] != ch,
        i == s.len() || s[i] == ch,
    ensures
        first_pos(s, ch) == i,
    decreases s.len(),
{
    if s.len() > 0 && s[0] != ch {
        lemma_first_pos(s.drop_first(), ch, i - 1);
    }
}

/// Whether `->` starts at index `j` of `s`.
pub open spec fn arrow_at(s: Seq<char>, j: int) -> bool {
    0 <= j && j + 1 < s.len() && s[j] == '-' && s[j + 1] == '>'
}

proof fn lemma_arrow_pos(s: Seq<char>, i: int)
    requires
        0 <= i,
        i <= s.len(),
        forall|j: int| 0 <= j < i ==> !#[trigger] arrow_at(s, j),
        arrow_at(s, i) || i + 1 >= s.len(),
    ensures
        arrow_pos(s) == (if arrow_at(s, i) { i } else { s.len() as int }),
    decreases s.len(),
{
    if s.len() >= 2 && !(s[0] == '-' && s[1] == '>') {
        assert(!arrow_at(s, 0));
        assert(i > 0);
        assert forall|j: int| 0 <= j < i - 1 implies !#[trigger] arrow_at(s.drop_first(), j) by {
            assert(!arrow_at(s, j + 1));
        }
        if arrow_at(s, i) {
            assert(arrow_at(s.drop_first(), i - 1));
        } else {
            assert(!arrow_at(s.drop_first(), i - 1));
        }
        lemma_arrow_pos(s.drop_first(), i - 1);
    } else if s.len() >= 2 {
        assert(arrow_at(s, 0));
    }
}

/// The index of the first `->` in `s`, or the length of `s`.
fn find_arrow(s: &Vec<char>) -> (r: usize)
    ensures
        r == arrow_pos(s@),
        r <= s@.len(),
        r < s@.len() ==> arrow_at(s@, r as int),
{
    let mut i: usize = 0;
    while i < s.len() && i + 1 < s.len()
        invariant
            i <= s@.len(),
            forall|j: int| 0 <= j < i ==> !#[trigger] arrow_at(s@, j),
        decreases s@.len() - i,
    {
        if s[i] == '-' && s[i + 1] == '>' {
            proof {
                lemma_arrow_pos(s@, i as int);
            }
            return i;
        }
        i = i + 1;
    }
    proof {
        lemma_arrow_pos(s@, i as int);
    }
    s.len()
}

/// The index of the first `ch` in `s`, or its length.
fn find_char(s: &Vec<char>, ch: char) -> (r: usize)
    ensures
        r == first_pos(s@, ch),
        r <= s@.len(),
{
    let mut i: usize = 0;
    while i < s.len()
        invariant
            i <= s@.len(),
            forall|j: int| 0 <= j < i ==> s@[j] != ch,
        decreases s@.len() - i,
    {
        if s[i] == ch {
            proof {
                lemma_first_pos(s@, ch, i as int);
            }
            return i;
        }
        i = i + 1;
    }
    proof {
        lemma_first_pos(s@, ch, i as int);
    }
    i
}

/// Whether `ch` occurs in `s`.
fn has_char(s: &Vec<char>, ch: char) -> (r: bool)
    ensures
        r == s@.contains(ch),
{
    let p = find_char(s, ch);
    proof {
        if p < s@.len() {
            lemma_first_pos_found(s@, ch);
        } else {
            lemma_first_pos_absent(s@, ch);
        }
    }
    p < s.len()
}

proof fn lemma_first_pos_found(s: Seq<char>, ch: char)
    requires
        first_pos(s, ch) < s.len(),
    ensures
        s[first_pos(s, ch)] == ch,
        0 <= first_pos(s, ch),
        forall|j: int| 0 <= j < first_pos(s, ch) ==> s[j] != ch,
    decreases s.len(),
{
    if s.len() > 0 && s[0] != ch {
        lemma_first_pos_found(s.drop_first(), ch);
        assert forall|j: int| 0 <= j < first_pos(s, ch) implies s[j] != ch by {
            if j > 0 {
                assert(s[j] == s.drop_first()[j - 1]);
            }
        }
    }
}

proof fn lemma_first_pos_absent(s: Seq<char>, ch: char)
    requires
        first_pos(s, ch) >= s.len(),
    ensures
        !s.contains(ch),
        first_pos(s, ch) == s.len(),
    decreases s.len(),
{
    if s.len() > 0 {
        if s[0] != ch {
            lemma_first_pos_absent(s.drop_first(), ch);
            assert forall|j: int| 0 <= j < s.len() implies s[j] != ch by {
                if j > 0 {
                    assert(s[j] == s.drop_first()[j - 1]);
                }
            }
        }
    }
}

/// The characters of `s` from `lo` up to `hi`.
fn slice_of(s: &Vec<char>, lo: usize, hi: usize) -> (r: Vec<char>)
    requires
        lo <= hi <= s@.len(),
    ensures
        r@ == s@.subrange(lo as int, hi as int),
{
    let mut r: Vec<char> = Vec::new();
    let mut i = lo;
    while i < hi
        invariant
            lo <= i <= hi <= s@.len(),
            r@ == s@.subrange(lo as int, i as int),
        decreases hi - i,
    {
        r.push(s[i]);
        i = i + 1;
    }
    r
}

/// The two sides of `s` around its only `ch`.
pub fn split_once(s: &Vec<char>, ch: char) -> (r: Option<(Vec<char>, Vec<char>)>)
    ensures
        r.is_some() == split_pair(s@, ch).is_some(),
        r matches Some((a, b)) ==> split_pair(s@, ch) == Some((a@, b@)),
{
    let p = find_char(s, ch);
    if p >= s.len() {
        return None;
    }
    let rest = slice_of(s, p + 1, s.len());
    if has_char(&rest, ch) {
        return None;
    }
    let left = slice_of(s, 0, p);
    proof {
        assert(rest@ == s@.skip(p + 1));
        assert(left@ == s@.take(p as int));
    }
    Some((left, rest))
}

/// The value of a hexadecimal digit, if `c` is one.
fn hex_digit_of(c: char) -> (r: Option<u32>)
    ensures
        r.is_some() == is_hex(c),
        r matches Some(d) ==> d == hex_digit(c) && d < 16,
{
    if '0' <= c && c <= '9' {
        Some(c as u32 - '0' as u32)
    } else if 'a' <= c && c <= 'f' {
        Some(c as u32 - 'a' as u32 + 10)
    } else if 'A' <= c && c <= 'F' {
        Some(c as u32 - 'A' as u32 + 10)
    } else {
        None
    }
}

proof fn lemma_hex_value_grows(s: Seq<char>, j: int, k: int)
    requires
        0 <= j <= k <= s.len(),
    ensures
        hex_value(s.take(j)) <= hex_value(s.take(k)),
    decreases k - j,
{
    if j < k {
        lemma_hex_value_grows(s, j, k - 1);
        assert(s.take(k).drop_last() == s.take(k - 1));
    }
}

/// The byte that the hexadecimal digits `s` write.
pub fn hex_byte_of(s: &Vec<char>) -> (r: Option<u8>)
    ensures
        r == hex_byte(s@),
{
    if s.len() == 0 {
        return None;
    }
    let mut v: u32 = 0;
    let mut i: usize = 0;
    while i < s.len()
        invariant
            0 < s@.len(),
            i <= s@.len(),
            v == hex_value(s@.take(i as int)),
            v <= 255,
            forall|j: int| 0 <= j < i ==> is_hex(#[trigger] s@[j]),
        decreases s@.len() - i,
    {
        match hex_digit_of(s[i]) {
            None => {
                return None;
            },
            Some(d) => {
                assert(s@.take(i + 1).drop_last() == s@.take(i as int));
                v = v * 16 + d;
                if v > 255 {
                    proof {
                        lemma_hex_value_grows(s@, i + 1, s@.len() as int);
                        assert(s@.take(s@.len() as int) == s@);
                    }
                    return None;
                }
            },
        }
        i = i + 1;
    }
    assert(s@.take(s@.len() as int) == s@);
    Some(v as u8)
}

/// The `(species, state)` that a token `<hex>{<hex>}` names.
pub fn token_of(t: &Vec<char>) -> (r: Option<(u8, u8)>)
    ensures
        r == token(t@),
{
    let p = find_char(t, '{');
    if !(p < t.len() && p + 1 < t.len() && t[t.len() - 1] == '}') {
        return None;
    }
    let a = hex_byte_of(&slice_of(t, 0, p));
    let b = hex_byte_of(&slice_of(t, p + 1, t.len() - 1));
    assert(t@.subrange(0, p as int) == t@.take(p as int));
    match (a, b) {
        (Some(a), Some(b)) => Some((a, b)),
        _ => None,
    }
}

/// The two tokens of one side of a rule, around the separator `sep`.
pub fn side_of(s: &Vec<char>, sep: char) -> (r: Option<((u8, u8), (u8, u8))>)
    ensures
        r == side(s@, sep),
{
    match split_once(s, sep) {
        Some((a, b)) => match (token_of(&a), token_of(&b)) {
            (Some(x), Some(y)) => Some((x, y)),
            _ => None,
        },
        None => None,
    }
}

/// The two sides of `s` around its only `->`.
fn split_arrow_of(s: &Vec<char>) -> (r: Option<(Vec<char>, Vec<char>)>)
    ensures
        r.is_some() == split_arrow(s@).is_some(),
        r matches Some((a, b)) ==> split_arrow(s@) == Some((a@, b@)),
{
    let p = find_arrow(s);
    if p >= s.len() {
        return None;
    }
    let rest = slice_of(s, p + 2, s.len());
    let q = find_arrow(&rest);
    if q < rest.len() {
        return None;
    }
    let left = slice_of(s, 0, p);
    proof {
        assert(rest@ == s@.skip(p + 2));
        assert(left@ == s@.take(p as int));
    }
    Some((left, rest))
}

/// What a cleaned rule line reads: its separators, its two reactants and
/// its two product states.
pub fn rule_parts_of(c: &Vec<char>) -> (r: Option<((char, char), (u8, u8), (u8, u8), (u8, u8))>)
    ensures
        r == rule_parts(c@),
{
    let (l, rr) = match split_arrow_of(c) {
        Some(sides) => sides,
        None => {
            return None;
        },
    };
    let lp = has_char(&l, '+');
    let le = has_char(&l, '=');
    let rp = has_char(&rr, '+');
    let re = has_char(&rr, '=');
    let seps = if lp && re {
        ('+', '=')
    } else if le && rp {
        ('=', '+')
    } else if lp && rp {
        ('+', '+')
    } else {
        return None;
    };
    assert(separators(l@, rr@) == Some(seps));
    match (side_of(&l, seps.0), side_of(&rr, seps.1)) {
        (Some((a, b)), Some((p, q))) => if a.0 == p.0 && b.0 == q.0 {
            Some((seps, a, b, (p.1, q.1)))
        } else {
            None
        },
        _ => None,
    }
}

/// Whether `c` is whitespace that a rule line may hold.
fn blank(c: char) -> (r: bool)
    ensures
        r == is_blank(c),
{
    c == ' ' || c == '\t' || c == '\r' || c == '\n' || c == '\x0b' || c == '\x0c'
}

/// A line with its comment cut off and its whitespace removed.
pub fn clean(line: &str) -> (r: Vec<char>)
    ensures
        r@ == cleaned(line@),
{
    let n = line.unicode_len();
    let mut out: Vec<char> = Vec::new();
    let mut i: usize = 0;
    while i < n
        invariant
            n == line@.len(),
            i <= n,
            forall|j: int| 0 <= j < i ==> line@[j] != '#',
            out@ == line@.take(i as int).filter(|c: char| !is_blank(c)),
        decreases n - i,
    {
        let c = line.get_char(i);
        if c == '#' {
            proof {
                lemma_first_pos(line@, '#', i as int);
            }
            return out;
        }
        assert(line@.take(i + 1).drop_last() == line@.take(i as int));
        assert(line@.take(i + 1).last() == c);
        reveal(Seq::filter);
        assert(line@.take(i + 1).filter(|c: char| !is_blank(c)) == if !is_blank(c) {
            line@.take(i as int).filter(|c: char| !is_blank(c)).push(c)
        } else {
            line@.take(i as int).filter(|c: char| !is_blank(c))
        });
        if !blank(c) {
            out.push(c);
        }
        i = i + 1;
    }
    proof {
        lemma_first_pos(line@, '#', i as int);
    }
    out
}

} // verus!
