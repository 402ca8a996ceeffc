//! Parsing of WCA notation scrambles into move sequences.
//!
//! A scramble is a whitespace-separated list of tokens such as `"R2"`,
//! `"Uw'"` or `"3Rw2"`. Every token is either a face letter with an optional
//! turn suffix, a wide turn (face letter, `w`, optional leading layer count),
//! or a whole-cube rotation (`x`, `y`, `z` with an optional suffix).

use vstd::prelude::*;

use crate::generic_cube::{
    valid_size, variant_of_turns, variant_turns, CubeSize, Move, MoveVariant, MAX_SIZE,
};
use crate::geometric_cube::move_layers;

verus! {

/// An unrecognized token was met while parsing a scramble.
#[derive(Clone, Copy, Debug, Eq, PartialEq, Structural)]
pub struct ParseError {
    /// The position of the offending token among the scramble's tokens.
    pub index: usize,
}

/// The separators between scramble tokens: the Unicode whitespace
/// characters.
pub open spec fn is_space(c: char) -> bool {
    ||| c as u32 == 0x09 || c as u32 == 0x0A || c as u32 == 0x0B || c as u32 == 0x0C
    ||| c as u32 == 0x0D || c as u32 == 0x20 || c as u32 == 0x85 || c as u32 == 0xA0
    ||| c as u32 == 0x1680 || (0x2000 <= c as u32 && c as u32 <= 0x200A)
    ||| c as u32 == 0x2028 || c as u32 == 0x2029 || c as u32 == 0x202F
    ||| c as u32 == 0x205F || c as u32 == 0x3000
}

/// Length of the leading run of non-separator characters.
pub open spec fn first_tok_len(s: Seq<char>) -> int
    decreases s.len(),
{
    if s.len() == 0 {
        0
    } else if is_space(s[0]) {
        0
    } else {
        1 + first_tok_len(s.drop_first())
    }
}

proof fn lemma_first_tok_len_bounds(s: Seq<char>)
    ensures
        0 <= first_tok_len(s) <= s.len(),
        forall|l: int| 0 <= l < first_tok_len(s) ==> !is_space(s[l]),
        first_tok_len(s) < s.len() ==> is_space(s[first_tok_len(s)]),
    decreases s.len(),
{
    if s.len() == 0 {
    } else if is_space(s[0]) {
    } else {
        lemma_first_tok_len_bounds(s.drop_first());
        assert forall|l: int| 0 <= l < first_tok_len(s) implies !is_space(s[l]) by {
            if l >= 1 {
                assert(s.drop_first()[l - 1] == s[l]);
            }
        }
        if first_tok_len(s) < s.len() {
            assert(s.drop_first()[first_tok_len(s) - 1] == s[first_tok_len(s)]);
        }
    }
}

proof fn lemma_first_tok_len_determined(s: Seq<char>, k: int)
    requires
        0 <= k <= s.len(),
        forall|l: int| 0 <= l < k ==> !is_space(s[l]),
        k == s.len() || is_space(s[k]),
    ensures
        first_tok_len(s) == k,
    decreases s.len(),
{
    if s.len() == 0 {
    } else if k == 0 {
    } else {
        assert(!is_space(s[0]));
        let t = s.drop_first();
        assert forall|l: int| 0 <= l < k - 1 implies !is_space(t[l]) by {
            assert(t[l] == s[l + 1]);
        }
        if k - 1 < t.len() {
            assert(t[k - 1] == s[k]);
        }
        lemma_first_tok_len_determined(t, k - 1);
    }
}

/// The scramble's tokens: maximal runs of non-separator characters, in order.
pub open spec fn spec_tokens(s: Seq<char>) -> Seq<Seq<char>>
    decreases s.len(),
    via spec_tokens_decreases
{
    if s.len() == 0 {
        Seq::empty()
    } else if is_space(s[0]) {
        spec_tokens(s.drop_first())
    } else {
        seq![s.take(first_tok_len(s))] + spec_tokens(s.skip(first_tok_len(s)))
    }
}

#[via_fn]
proof fn spec_tokens_decreases(s: Seq<char>) {
    lemma_first_tok_len_bounds(s);
}

/// Whether a character is a decimal digit.
pub open spec fn is_digit(c: char) -> bool {
    48 <= c as u32 <= 57
}

/// The numeric value of a digit character.
pub open spec fn digit_val(c: char) -> int {
    c as u32 - 48
}

/// Length of the leading run of digits.
pub open spec fn digit_len(t: Seq<char>) -> int
    decreases t.len(),
{
    if t.len() == 0 {
        0
    } else if is_digit(t[0]) {
        1 + digit_len(t.drop_first())
    } else {
        0
    }
}

proof fn lemma_digit_len_bounds(t: Seq<char>)
    ensures
        0 <= digit_len(t) <= t.len(),
        forall|l: int| 0 <= l < digit_len(t) ==> is_digit(t[l]),
        digit_len(t) < t.len() ==> !is_digit(t[digit_len(t)]),
    decreases t.len(),
{
    if t.len() == 0 {
    } else if is_digit(t[0]) {
        lemma_digit_len_bounds(t.drop_first());
        assert forall|l: int| 0 <= l < digit_len(t) implies is_digit(t[l]) by {
            if l >= 1 {
                assert(t.drop_first()[l - 1] == t[l]);
            }
        }
        if digit_len(t) < t.len() {
            assert(t.drop_first()[digit_len(t) - 1] == t[digit_len(t)]);
        }
    } else {
    }
}

proof fn lemma_digit_len_determined(t: Seq<char>, k: int)
    requires
        0 <= k <= t.len(),
        forall|l: int| 0 <= l < k ==> is_digit(t[l]),
        k == t.len() || !is_digit(t[k]),
    ensures
        digit_len(t) == k,
    decreases t.len(),
{
    if t.len() == 0 {
    } else if k == 0 {
    } else {
        let u = t.drop_first();
        assert(is_digit(t[0]));
        assert forall|l: int| 0 <= l < k - 1 implies is_digit(u[l]) by {
            assert(u[l] == t[l + 1]);
        }
        if k - 1 < u.len() {
            assert(u[k - 1] == t[k]);
        }
        lemma_digit_len_determined(u, k - 1);
    }
}

/// The value of a sequence of digit characters, most significant first.
pub open spec fn digits_val(t: Seq<char>) -> int
    decreases t.len(),
{
    if t.len() == 0 {
        0
    } else {
        digits_val(t.drop_last()) * 10 + digit_val(t.last())
    }
}

proof fn lemma_digits_val_step(t: Seq<char>, l: int)
    requires
        0 <= l < t.len(),
    ensures
        digits_val(t.take(l + 1)) == digits_val(t.take(l)) * 10 + digit_val(t[l]),
{
    assert(t.take(l + 1).drop_last() =~= t.take(l));
    assert(t.take(l + 1).last() == t[l]);
}

proof fn lemma_digits_val_nonneg(t: Seq<char>, a: int)
    requires
        0 <= a <= t.len(),
        forall|l: int| 0 <= l < t.len() ==> is_digit(#[trigger] t[l]),
    ensures
        digits_val(t.take(a)) >= 0,
    decreases a,
{
    if a == 0 {
        assert(t.take(0) =~= Seq::<char>::empty());
    } else {
        lemma_digits_val_nonneg(t, a - 1);
        lemma_digits_val_step(t, a - 1);
        assert(digits_val(t.take(a - 1)) * 10 >= 0) by (nonlinear_arith)
            requires
                digits_val(t.take(a - 1)) >= 0,
        ;
    }
}

proof fn lemma_digits_val_monotone(t: Seq<char>, a: int, b: int)
    requires
        0 <= a <= b <= t.len(),
        forall|l: int| 0 <= l < t.len() ==> is_digit(#[trigger] t[l]),
    ensures
        digits_val(t.take(a)) <= digits_val(t.take(b)),
    decreases b - a,
{
    if a < b {
        lemma_digits_val_monotone(t, a, b - 1);
        lemma_digits_val_step(t, b - 1);
        lemma_digits_val_nonneg(t, b - 1);
        assert(digit_val(t[b - 1]) >= 0);
        assert(digits_val(t.take(b - 1)) * 10 >= digits_val(t.take(b - 1))) by (nonlinear_arith)
            requires
                digits_val(t.take(b - 1)) >= 0,
        ;
    }
}

/// The variant named by a suffix character, if any.
pub open spec fn suffix_variant(c: char) -> Option<MoveVariant> {
    if c == '2' {
        Some(MoveVariant::Double)
    } else if c == '\'' {
        Some(MoveVariant::Inverse)
    } else {
        None
    }
}

/// The single-layer turn or whole-cube rotation named by a letter, if any.
pub open spec fn spec_face_move(c: char, v: MoveVariant) -> Option<Move> {
    if c == 'U' {
        Some(Move::U(v))
    } else if c == 'L' {
        Some(Move::L(v))
    } else if c == 'F' {
        Some(Move::F(v))
    } else if c == 'R' {
        Some(Move::R(v))
    } else if c == 'B' {
        Some(Move::B(v))
    } else if c == 'D' {
        Some(Move::D(v))
    } else if c == 'x' {
        Some(Move::X(v))
    } else if c == 'y' {
        Some(Move::Y(v))
    } else if c == 'z' {
        Some(Move::Z(v))
    } else {
        None
    }
}

/// The wide turn named by a letter, if any.
pub open spec fn spec_wide_move(c: char, k: CubeSize, v: MoveVariant) -> Option<Move> {
    if c == 'U' {
        Some(Move::Uw(k, v))
    } else if c == 'L' {
        Some(Move::Lw(k, v))
    } else if c == 'F' {
        Some(Move::Fw(k, v))
    } else if c == 'R' {
        Some(Move::Rw(k, v))
    } else if c == 'B' {
        Some(Move::Bw(k, v))
    } else if c == 'D' {
        Some(Move::Dw(k, v))
    } else {
        None
    }
}

/// The move a single token denotes, or `None` for an unrecognized token.
///
/// Grammar: an optional leading layer count (digits, only before a wide
/// turn, value between 1 and [`MAX_SIZE`]), a face letter, `w` for a wide
/// turn (layer count 2 when none is written), and an optional `2` or `'`.
pub open spec fn spec_convert_move(t: Seq<char>) -> Option<Move> {
    let d = digit_len(t);
    let rest = t.skip(d);
    if d == 0 {
        if rest.len() == 1 {
            spec_face_move(rest[0], MoveVariant::Standard)
        } else if rest.len() == 2 && rest[1] == 'w' {
            spec_wide_move(rest[0], 2, MoveVariant::Standard)
        } else if rest.len() == 2 && suffix_variant(rest[1]) is Some {
            spec_face_move(rest[0], suffix_variant(rest[1]).unwrap())
        } else if rest.len() == 3 && rest[1] == 'w' && suffix_variant(rest[2]) is Some {
            spec_wide_move(rest[0], 2, suffix_variant(rest[2]).unwrap())
        } else {
            None
        }
    } else {
        let k = digits_val(t.take(d));
        if 1 <= k <= MAX_SIZE {
            if rest.len() == 2 && rest[1] == 'w' {
                spec_wide_move(rest[0], k as CubeSize, MoveVariant::Standard)
            } else if rest.len() == 3 && rest[1] == 'w' && suffix_variant(rest[2]) is Some {
                spec_wide_move(rest[0], k as CubeSize, suffix_variant(rest[2]).unwrap())
            } else {
                None
            }
        } else {
            None
        }
    }
}

/// Whether every token of the sequence denotes a move.
pub open spec fn all_tokens_ok(toks: Seq<Seq<char>>) -> bool {
    forall|i: int| 0 <= i < toks.len() ==> spec_convert_move(#[trigger] toks[i]) is Some
}

/// The moves denoted by a sequence of tokens that all parse.
pub open spec fn spec_moves_of(toks: Seq<Seq<char>>) -> Seq<Move> {
    toks.map_values(|t: Seq<char>| spec_convert_move(t).unwrap())
}

/// The executable twin of [`is_space`].
fn is_space_char(c: char) -> (r: bool)
    ensures
        r == is_space(c),
{
    let u = c as u32;
    u == 0x09 || u == 0x0A || u == 0x0B || u == 0x0C || u == 0x0D || u == 0x20 || u == 0x85
        || u == 0xA0 || u == 0x1680 || (0x2000 <= u && u <= 0x200A) || u == 0x2028 || u == 0x2029
        || u == 0x202F || u == 0x205F || u == 0x3000
}

/// The executable twin of [`is_digit`].
fn is_digit_char(c: char) -> (r: bool)
    ensures
        r == is_digit(c),
{
    48 <= c as u32 && c as u32 <= 57
}

/// The characters of a string, as an indexable vector.
fn chars_of(s: &str) -> (r: Vec<char>)
    ensures
        r@ == s@,
{
    let n = s.unicode_len();
    let mut r: Vec<char> = Vec::new();
    let mut i: usize = 0;
    while i < n
        invariant
            n == s@.len(),
            0 <= i <= n,
            r@ =~= s@.take(i as int),
        decreases n - i,
    {
        let c = s.get_char(i);
        r.push(c);
        proof {
            assert(r@ =~= s@.take(i + 1));
        }
        i = i + 1;
    }
    proof {
        assert(s@.take(n as int) =~= s@);
    }
    r
}

/// Parse one token, the characters `cs[lo..hi]`.
fn convert_move(cs: &Vec<char>, lo: usize, hi: usize) -> (r: Option<Move>)
    requires
        lo <= hi <= cs@.len(),
    ensures
        r == spec_convert_move(cs@.subrange(lo as int, hi as int)),
{
    let ghost t = cs@.subrange(lo as int, hi as int);
    // measure the digit prefix and its value, rejecting oversized counts
    let mut d: usize = 0;
    let mut val: i32 = 0;
    let mut too_big: bool = false;
    while lo + d < hi && is_digit_char(cs[lo + d])
        invariant
            lo <= hi <= cs@.len(),
            0 <= d <= hi - lo,
            t == cs@.subrange(lo as int, hi as int),
            forall|l: int| 0 <= l < d ==> is_digit(#[trigger] t[l]),
            !too_big ==> 0 <= val <= MAX_SIZE && val == digits_val(t.take(d as int)),
            too_big ==> digits_val(t.take(d as int)) > MAX_SIZE,
            forall|a: int, b: int|
                0 <= a <= b <= d ==> digits_val(t.take(a)) <= digits_val(t.take(b)),
        decreases hi - lo - d,
    {
        let c = cs[lo + d];
        proof {
            assert(t[d as int] == cs@[lo + d]);
            lemma_digits_val_step(t, d as int);
            assert forall|a: int, b: int| 0 <= a <= b <= d + 1 implies digits_val(t.take(a))
                <= digits_val(t.take(b)) by {
                if b == d + 1 && a <= d {
                    assert(digits_val(t.take(d as int)) * 10 >= digits_val(t.take(d as int)))
                        by (nonlinear_arith)
                        requires
                            digits_val(t.take(d as int)) >= 0,
                    ;
                    assert(digits_val(t.take(a)) <= digits_val(t.take(d as int)));
                }
            }
        }
        if too_big {
        } else {
            let dv: i32 = (c as u32 as i32) - 48;
            let next: i32 = val * 10 + dv;
            if next > MAX_SIZE {
                too_big = true;
            } else {
                val = next;
            }
            proof {
                if too_big {
                    assert(digits_val(t.take(d + 1)) > MAX_SIZE);
                }
            }
        }
        d = d + 1;
    }
    proof {
        if lo + d < hi {
            assert(t[d as int] == cs@[lo + d]);
        }
        lemma_digit_len_determined(t, d as int);
    }
    let rest_len: usize = hi - lo - d;
    let ghost rest = t.skip(d as int);
    proof {
        assert(rest.len() == rest_len);
        assert forall|l: int| 0 <= l < rest.len() implies rest[l] == cs@[lo + d + l] by {
            assert(rest[l] == t[d + l]);
        }
    }
    if d == 0 {
        if rest_len == 1 {
            face_move(cs[lo], MoveVariant::Standard)
        } else if rest_len == 2 && cs[lo + 1] == 'w' {
            wide_move(cs[lo], 2, MoveVariant::Standard)
        } else if rest_len == 2 && (cs[lo + 1] == '2' || cs[lo + 1] == '\'') {
            let v = if cs[lo + 1] == '2' {
                MoveVariant::Double
            } else {
                MoveVariant::Inverse
            };
            face_move(cs[lo], v)
        } else if rest_len == 3 && cs[lo + 1] == 'w' && (cs[lo + 2] == '2' || cs[lo + 2] == '\'') {
            let v = if cs[lo + 2] == '2' {
                MoveVariant::Double
            } else {
                MoveVariant::Inverse
            };
            wide_move(cs[lo], 2, v)
        } else {
            None
        }
    } else {
        if too_big || val < 1 {
            None
        } else if rest_len == 2 && cs[lo + d + 1] == 'w' {
            wide_move(cs[lo + d], val, MoveVariant::Standard)
        } else if rest_len == 3 && cs[lo + d + 1] == 'w' && (cs[lo + d + 2] == '2' || cs[lo + d
            + 2] == '\'') {
            let v = if cs[lo + d + 2] == '2' {
                MoveVariant::Double
            } else {
                MoveVariant::Inverse
            };
            wide_move(cs[lo + d], val, v)
        } else {
            None
        }
    }
}

/// The executable twin of [`spec_face_move`].
fn face_move(c: char, v: MoveVariant) -> (r: Option<Move>)
    ensures
        r == spec_face_move(c, v),
{
    if c == 'U' {
        Some(Move::U(v))
    } else if c == 'L' {
        Some(Move::L(v))
    } else if c == 'F' {
        Some(Move::F(v))
    } else if c == 'R' {
        Some(Move::R(v))
    } else if c == 'B' {
        Some(Move::B(v))
    } else if c == 'D' {
        Some(Move::D(v))
    } else if c == 'x' {
        Some(Move::X(v))
    } else if c == 'y' {
        Some(Move::Y(v))
    } else if c == 'z' {
        Some(Move::Z(v))
    } else {
        None
    }
}

/// The executable twin of [`spec_wide_move`].
fn wide_move(c: char, k: CubeSize, v: MoveVariant) -> (r: Option<Move>)
    ensures
        r == spec_wide_move(c, k, v),
{
    if c == 'U' {
        Some(Move::Uw(k, v))
    } else if c == 'L' {
        Some(Move::Lw(k, v))
    } else if c == 'F' {
        Some(Move::Fw(k, v))
    } else if c == 'R' {
        Some(Move::Rw(k, v))
    } else if c == 'B' {
        Some(Move::Bw(k, v))
    } else if c == 'D' {
        Some(Move::Dw(k, v))
    } else {
        None
    }
}

/// Converts a WCA notation scramble into a move sequence.
///
/// Returns the moves denoted by the scramble's whitespace-separated tokens,
/// or the position of the first unrecognized token.
pub fn parse_scramble(scramble: String) -> (r: Result<Vec<Move>, ParseError>)
    ensures
        match r {
            Ok(v) => all_tokens_ok(spec_tokens(scramble@)) && v@ == spec_moves_of(
                spec_tokens(scramble@),
            ),
            Err(e) => {
                let toks = spec_tokens(scramble@);
                &&& 0 <= e.index < toks.len()
                &&& spec_convert_move(toks[e.index as int]) is None
                &&& forall|j: int|
                    0 <= j < e.index ==> spec_convert_move(#[trigger] toks[j]) is Some
            },
        },
{
    let cs = chars_of(scramble.as_str());
    let n = cs.len();
    let ghost toks = spec_tokens(scramble@);
    let mut out: Vec<Move> = Vec::new();
    let mut i: usize = 0;
    proof {
        assert(cs@.skip(0) =~= cs@);
        assert(toks.take(0) =~= Seq::<Seq<char>>::empty());
        assert(toks.take(0) + spec_tokens(cs@.skip(0)) =~= toks);
    }
    while i < n
        invariant
            n == cs@.len(),
            cs@ == scramble@,
            0 <= i <= n,
            toks == spec_tokens(cs@),
            toks.take(out@.len() as int) + spec_tokens(cs@.skip(i as int)) == toks,
            out@.len() <= toks.len(),
            forall|j: int|
                0 <= j < out@.len() ==> spec_convert_move(#[trigger] toks[j]) is Some
                    && out@[j] == spec_convert_move(toks[j]).unwrap(),
        decreases n - i,
    {
        if is_space_char(cs[i]) {
            proof {
                assert(cs@.skip(i as int).drop_first() =~= cs@.skip(i + 1));
            }
            i = i + 1;
        } else {
            // scan the token
            let mut j: usize = i + 1;
            while j < n && !is_space_char(cs[j])
                invariant
                    n == cs@.len(),
                    i < j <= n,
                    forall|l: int| i <= l < j ==> !is_space(#[trigger] cs@[l]),
                decreases n - j,
            {
                j = j + 1;
            }
            let ghost su = cs@.skip(i as int);
            proof {
                assert forall|l: int| 0 <= l < j - i implies !is_space(su[l]) by {
                    assert(su[l] == cs@[i + l]);
                }
                if (j - i) < su.len() {
                    assert(su[(j - i) as int] == cs@[j as int]);
                }
                lemma_first_tok_len_determined(su, j - i);
                assert(spec_tokens(su) == seq![su.take(j - i)] + spec_tokens(su.skip(j - i)));
                assert(su.take(j - i) =~= cs@.subrange(i as int, j as int));
                assert(su.skip(j - i) =~= cs@.skip(j as int));
            }
            let m = convert_move(&cs, i, j);
            match m {
                Some(mv) => {
                    proof {
                        let k = out@.len() as int;
                        assert(toks.take(k + 1) =~= toks.take(k).push(toks[k]));
                        assert((toks.take(k) + spec_tokens(cs@.skip(i as int)))[k] == toks[k]);
                        assert(toks[k] == cs@.subrange(i as int, j as int));
                        assert(toks.take(k + 1) + spec_tokens(cs@.skip(j as int)) =~= toks);
                    }
                    out.push(mv);
                    i = j;
                },
                None => {
                    let e = ParseError { index: out.len() };
                    proof {
                        let k = out@.len() as int;
                        assert((toks.take(k) + spec_tokens(cs@.skip(i as int)))[k] == toks[k]);
                        assert(toks[k] == cs@.subrange(i as int, j as int));
                    }
                    return Err(e);
                },
            }
        }
    }
    proof {
        assert(cs@.skip(n as int) =~= Seq::<char>::empty());
        assert(toks.take(out@.len() as int) + Seq::<Seq<char>>::empty() =~= toks.take(
            out@.len() as int,
        ));
        assert(toks.take(out@.len() as int) =~= toks);
        assert(out@ =~= spec_moves_of(toks));
    }
    Ok(out)
}


/// One simplification step: merge a move into an already-simplified stack.
///
/// If the incoming move shares its family with the stack's top, the two are
/// merged by adding their turn counts modulo four; a merge that amounts to no
/// turn at all drops the top instead.
pub open spec fn push_merge(st: Seq<Move>, m: Move) -> Seq<Move> {
    if st.len() == 0 {
        st.push(m)
    } else if st.last().same_family(m) {
        let t = (variant_turns(st.last().spec_variant()) + variant_turns(m.spec_variant())) % 4;
        if t == 0 {
            st.drop_last()
        } else {
            st.drop_last().push(st.last().spec_with_variant(variant_of_turns(t)))
        }
    } else {
        st.push(m)
    }
}

/// The simplified form of `st + s`, assuming `st` is already simplified.
pub open spec fn spec_simplify_acc(st: Seq<Move>, s: Seq<Move>) -> Seq<Move>
    decreases s.len(),
{
    if s.len() == 0 {
        st
    } else {
        spec_simplify_acc(push_merge(st, s[0]), s.drop_first())
    }
}

/// The fully simplified form of a move sequence.
pub open spec fn spec_simplify(s: Seq<Move>) -> Seq<Move> {
    spec_simplify_acc(Seq::empty(), s)
}

/// No two adjacent moves of a simplified sequence share a family.
pub open spec fn is_simplified(s: Seq<Move>) -> bool {
    forall|i: int| 0 <= i < s.len() - 1 ==> !(#[trigger] s[i]).same_family(s[i + 1])
}

proof fn lemma_push_merge_simplified(st: Seq<Move>, m: Move)
    requires
        is_simplified(st),
    ensures
        is_simplified(push_merge(st, m)),
        push_merge(st, m).len() <= st.len() + 1,
{
    let r = push_merge(st, m);
    if st.len() == 0 {
    } else if st.last().same_family(m) {
        let t = (variant_turns(st.last().spec_variant()) + variant_turns(m.spec_variant())) % 4;
        if t == 0 {
            assert forall|i: int| 0 <= i < r.len() - 1 implies !(#[trigger] r[i]).same_family(
                r[i + 1],
            ) by {
                assert(r[i] == st[i] && r[i + 1] == st[i + 1]);
            }
        } else {
            let merged = st.last().spec_with_variant(variant_of_turns(t));
            assert(merged.spec_with_variant(st.last().spec_variant()) == st.last());
            assert forall|i: int| 0 <= i < r.len() - 1 implies !(#[trigger] r[i]).same_family(
                r[i + 1],
            ) by {
                if i < r.len() - 2 {
                    assert(r[i] == st[i] && r[i + 1] == st[i + 1]);
                } else {
                    assert(r[i] == st[i] && r[i + 1] == merged);
                    assert(!st[i].same_family(st[i + 1]));
                    assert(st[i + 1] == st.last());
                    if st[i].same_family(merged) {
                        assert(st[i].spec_with_variant(st.last().spec_variant()) == st.last());
                    }
                }
            }
        }
    } else {
        assert forall|i: int| 0 <= i < r.len() - 1 implies !(#[trigger] r[i]).same_family(
            r[i + 1],
        ) by {
            if i < r.len() - 2 {
                assert(r[i] == st[i] && r[i + 1] == st[i + 1]);
            } else {
                assert(r[i] == st.last() && r[i + 1] == m);
            }
        }
    }
}

proof fn lemma_simplify_acc_simplified(st: Seq<Move>, s: Seq<Move>)
    requires
        is_simplified(st),
    ensures
        is_simplified(spec_simplify_acc(st, s)),
    decreases s.len(),
{
    if s.len() > 0 {
        lemma_push_merge_simplified(st, s[0]);
        lemma_simplify_acc_simplified(push_merge(st, s[0]), s.drop_first());
    }
}

proof fn lemma_simplify_acc_of_simplified(st: Seq<Move>, s: Seq<Move>)
    requires
        is_simplified(st + s),
    ensures
        spec_simplify_acc(st, s) == st + s,
    decreases s.len(),
{
    if s.len() == 0 {
        assert(st + s =~= st);
    } else {
        let all = st + s;
        if st.len() > 0 {
            assert(all[st.len() - 1] == st.last());
            assert(all[st.len() as int] == s[0]);
            assert(!st.last().same_family(s[0]));
        }
        assert(push_merge(st, s[0]) =~= st.push(s[0]));
        assert(st.push(s[0]) + s.drop_first() =~= st + s);
        lemma_simplify_acc_of_simplified(st.push(s[0]), s.drop_first());
    }
}

/// Simplifying an already-simplified sequence changes nothing.
///
/// Together with [`lemma_simplify_simplified`] this makes `simplify_moves`
/// idempotent: simplifying twice gives the same sequence as simplifying once.
pub proof fn lemma_simplify_idempotent(s: Seq<Move>)
    ensures
        spec_simplify(spec_simplify(s)) == spec_simplify(s),
{
    lemma_simplify_acc_simplified(Seq::empty(), s);
    let u = spec_simplify(s);
    assert(Seq::<Move>::empty() + u =~= u);
    lemma_simplify_acc_of_simplified(Seq::empty(), u);
}

/// The simplified form of any sequence has no adjacent same-family moves.
pub proof fn lemma_simplify_simplified(s: Seq<Move>)
    ensures
        is_simplified(spec_simplify(s)),
{
    lemma_simplify_acc_simplified(Seq::empty(), s);
}

/// Merges adjacent moves of the same family until no further merge is
/// possible, dropping any merge that amounts to no turn.
///
/// The result never has two adjacent moves of the same family.
pub fn simplify_moves(moves: &[Move]) -> (r: Vec<Move>)
    ensures
        r@ == spec_simplify(moves@),
        is_simplified(r@),
{
    let mut st: Vec<Move> = Vec::new();
    let n = moves.len();
    let mut i: usize = 0;
    proof {
        assert(moves@.skip(0) =~= moves@);
    }
    while i < n
        invariant
            n == moves@.len(),
            0 <= i <= n,
            st@.len() <= i,
            is_simplified(st@),
            spec_simplify(moves@) == spec_simplify_acc(st@, moves@.skip(i as int)),
        decreases n - i,
    {
        let m = moves[i];
        let ghost su = moves@.skip(i as int);
        proof {
            assert(su[0] == moves@[i as int]);
            assert(su.drop_first() =~= moves@.skip(i + 1));
            lemma_push_merge_simplified(st@, m);
        }
        let st_len = st.len();
        if st_len > 0 && st[st_len - 1].with_variant(m.get_variant()) == m {
            // same family: merge into the top of the stack
            let ghost st0 = st@;
            let top = st[st_len - 1];
            let t = (top.get_variant().turns() + m.get_variant().turns()) % 4;
            st.pop();
            proof {
                assert(st@ =~= st0.drop_last());
            }
            if t != 0 {
                let v = if t == 1 {
                    MoveVariant::Standard
                } else if t == 2 {
                    MoveVariant::Double
                } else {
                    MoveVariant::Inverse
                };
                st.push(top.with_variant(v));
            }
            proof {
                assert(st@ == push_merge(st0, m));
            }
        } else {
            st.push(m);
        }
        i = i + 1;
    }
    proof {
        assert(moves@.skip(n as int) =~= Seq::<Move>::empty());
    }
    st
}


proof fn lemma_layer_digits_are_digits(k: int)
    requires
        1 <= k <= 999,
    ensures
        forall|l: int|
            0 <= l < crate::generic_cube::spec_layer_digits(k).len() ==> is_digit(
                #[trigger] crate::generic_cube::spec_layer_digits(k)[l],
            ),
        digits_val(crate::generic_cube::spec_layer_digits(k)) == k,
        1 <= crate::generic_cube::spec_layer_digits(k).len() <= 3,
{
    let ds = crate::generic_cube::spec_layer_digits(k);
    assert(digits_val(Seq::<char>::empty()) == 0);
    assert forall|d: int| 0 <= d <= 9 implies (crate::generic_cube::digit_char(d) as u32) == 48
        + d by {
        assert((48 + d) as u8 as char as u32 == 48 + d);
    }
    if k < 10 {
        assert(ds =~= seq![crate::generic_cube::digit_char(k)]);
        assert(ds.drop_last() =~= Seq::<char>::empty());
        assert(digits_val(ds) == digit_val(crate::generic_cube::digit_char(k)));
    } else if k < 100 {
        let hi = crate::generic_cube::digit_char(k / 10);
        let lo = crate::generic_cube::digit_char(k % 10);
        assert(ds =~= seq![hi, lo]);
        assert(ds.drop_last() =~= seq![hi]);
        assert(seq![hi].drop_last() =~= Seq::<char>::empty());
        assert(digits_val(seq![hi]) == digit_val(hi));
        assert(ds.last() == lo);
        assert(digits_val(ds) == digits_val(seq![hi]) * 10 + digit_val(lo));
        assert(digits_val(ds) == (k / 10) * 10 + k % 10);
        assert((k / 10) * 10 + k % 10 == k) by {
            vstd::arithmetic::div_mod::lemma_fundamental_div_mod(k, 10);
        }
    } else {
        let d2 = crate::generic_cube::digit_char(k / 100);
        let d1 = crate::generic_cube::digit_char((k / 10) % 10);
        let d0 = crate::generic_cube::digit_char(k % 10);
        assert(ds =~= seq![d2, d1, d0]);
        assert(ds.drop_last() =~= seq![d2, d1]);
        assert(seq![d2, d1].drop_last() =~= seq![d2]);
        assert(seq![d2].drop_last() =~= Seq::<char>::empty());
        assert(digits_val(seq![d2]) == digit_val(d2));
        assert(seq![d2, d1].last() == d1);
        assert(digits_val(seq![d2, d1]) == digits_val(seq![d2]) * 10 + digit_val(d1));
        assert(ds.last() == d0);
        assert(digits_val(ds) == digits_val(seq![d2, d1]) * 10 + digit_val(d0));
        assert(digits_val(ds) == ((k / 100) * 10 + (k / 10) % 10) * 10 + k % 10);
        assert(((k / 100) * 10 + (k / 10) % 10) * 10 + k % 10 == k) by {
            vstd::arithmetic::div_mod::lemma_fundamental_div_mod(k, 10);
            vstd::arithmetic::div_mod::lemma_fundamental_div_mod(k / 10, 10);
            assert(k / 10 / 10 == k / 100) by {
                vstd::arithmetic::div_mod::lemma_div_denominator(k, 10, 10);
            }
        }
    }
}

/// Rendering is the inverse of parsing: a move's canonical token parses
/// back to exactly that move.
pub proof fn lemma_token_round_trip(m: Move)
    requires
        m.wf(MAX_SIZE as int),
    ensures
        spec_convert_move(crate::generic_cube::spec_move_token(m)) == Some(m),
{
    let t = crate::generic_cube::spec_move_token(m);
    let name = crate::generic_cube::spec_move_name(m);
    let suffix = crate::generic_cube::spec_variant_suffix(m.spec_variant());
    match m {
        Move::U(_) | Move::L(_) | Move::F(_) | Move::R(_) | Move::B(_) | Move::D(_) | Move::X(_)
        | Move::Y(_) | Move::Z(_) => {
            let c = name[0];
            assert(!is_digit(t[0]));
            lemma_digit_len_determined(t, 0);
            assert(t.skip(0) =~= t);
            match m.spec_variant() {
                MoveVariant::Standard => {
                    assert(t =~= seq![c]);
                },
                MoveVariant::Double => {
                    assert(t =~= seq![c, '2']);
                },
                MoveVariant::Inverse => {
                    assert(t =~= seq![c, '\'']);
                },
            }
        },
        Move::Uw(k, _) | Move::Lw(k, _) | Move::Fw(k, _) | Move::Rw(k, _) | Move::Bw(k, _)
        | Move::Dw(k, _) => {
            let c = if m is Uw {
                'U'
            } else if m is Lw {
                'L'
            } else if m is Fw {
                'F'
            } else if m is Rw {
                'R'
            } else if m is Bw {
                'B'
            } else {
                'D'
            };
            if k == 2 {
                assert(!is_digit(t[0]));
                lemma_digit_len_determined(t, 0);
                assert(t.skip(0) =~= t);
                match m.spec_variant() {
                    MoveVariant::Standard => {
                        assert(t =~= seq![c, 'w']);
                    },
                    MoveVariant::Double => {
                        assert(t =~= seq![c, 'w', '2']);
                    },
                    MoveVariant::Inverse => {
                        assert(t =~= seq![c, 'w', '\'']);
                    },
                }
            } else {
                lemma_layer_digits_are_digits(k as int);
                let ds = crate::generic_cube::spec_layer_digits(k as int);
                let d = ds.len() as int;
                assert forall|l: int| 0 <= l < d implies is_digit(#[trigger] t[l]) by {
                    assert(t[l] == ds[l]);
                }
                assert(t[d] == c);
                assert(!is_digit(c));
                lemma_digit_len_determined(t, d);
                assert(t.take(d) =~= ds);
                match m.spec_variant() {
                    MoveVariant::Standard => {
                        assert(t.skip(d) =~= seq![c, 'w']);
                    },
                    MoveVariant::Double => {
                        assert(t.skip(d) =~= seq![c, 'w', '2']);
                    },
                    MoveVariant::Inverse => {
                        assert(t.skip(d) =~= seq![c, 'w', '\'']);
                    },
                }
            }
        },
    }
}


#[verifier::external_type_specification]
#[verifier::external_body]
pub struct ExThreadRng(rand::rngs::ThreadRng);

/// Relies on rand::thread_rng: a handle to the thread-local generator.
#[verifier::external_body]
fn new_rng() -> rand::rngs::ThreadRng {
    rand::thread_rng()
}

/// Relies on rand::Rng::gen_range on the half-open range `0..n`, which
/// returns a value of the range; nothing more is assumed of which one.
#[verifier::external_body]
fn random_below(rng: &mut rand::rngs::ThreadRng, n: u32) -> (r: u32)
    requires
        1 <= n,
    ensures
        r < n,
{
    rand::Rng::gen_range(rng, 0..n)
}

/// The face a move turns, numbered in the scramble generator's order;
/// whole-cube rotations fall outside it.
pub open spec fn scramble_face_index(m: Move) -> int {
    match m {
        Move::U(_) | Move::Uw(_, _) => 0,
        Move::R(_) | Move::Rw(_, _) => 1,
        Move::F(_) | Move::Fw(_, _) => 2,
        Move::L(_) | Move::Lw(_, _) => 3,
        Move::D(_) | Move::Dw(_, _) => 4,
        Move::B(_) | Move::Bw(_, _) => 5,
        _ => 6,
    }
}

/// Same-family moves turn the same face.
proof fn lemma_same_family_face(a: Move, b: Move)
    requires
        a.same_family(b),
    ensures
        scramble_face_index(a) == scramble_face_index(b),
{
}

/// Appending a move that respects the scramble's adjacency rules keeps the
/// whole listing respecting them.
#[verifier::rlimit(100)]
#[verifier::spinoff_prover]
proof fn lemma_scramble_push(olds: Seq<Move>, mv: Move, cube_size: int, wide: bool)
    requires
        forall|j: int|
            0 <= j < olds.len() ==> (#[trigger] olds[j]).wf(cube_size) && !olds[j].is_rotation(),
        forall|j: int| 0 <= j < olds.len() - 1 ==> !(#[trigger] olds[j]).same_family(olds[j + 1]),
        forall|j: int|
            0 <= j < olds.len() - 1 ==> (#[trigger] olds[j]).spec_variant() != olds[j
                + 1].spec_variant(),
        !wide ==> forall|j: int| 0 <= j < olds.len() ==> !(#[trigger] olds[j]).is_wide(),
        forall|j: int|
            0 <= j < olds.len() && (#[trigger] olds[j]).is_wide() ==> 2 <= move_layers(olds[j])
                < cube_size,
        forall|j: int|
            0 <= j < olds.len() - 1 && (#[trigger] olds[j]).is_wide() && olds[j + 1].is_wide()
                ==> move_layers(olds[j]) != move_layers(olds[j + 1]),
        mv.wf(cube_size),
        !mv.is_rotation(),
        olds.len() > 0 ==> !olds.last().same_family(mv),
        olds.len() > 0 ==> olds.last().spec_variant() != mv.spec_variant(),
        olds.len() > 0 && olds.last().is_wide() && mv.is_wide() ==> move_layers(olds.last())
            != move_layers(mv),
        !wide ==> !mv.is_wide(),
        mv.is_wide() ==> 2 <= move_layers(mv) < cube_size,
    ensures
        forall|j: int|
            0 <= j < olds.push(mv).len() ==> (#[trigger] olds.push(mv)[j]).wf(cube_size)
                && !olds.push(mv)[j].is_rotation(),
        forall|j: int|
            0 <= j < olds.push(mv).len() - 1 ==> !(#[trigger] olds.push(mv)[j]).same_family(
                olds.push(mv)[j + 1],
            ),
        forall|j: int|
            0 <= j < olds.push(mv).len() - 1 ==> (#[trigger] olds.push(mv)[j]).spec_variant()
                != olds.push(mv)[j + 1].spec_variant(),
        !wide ==> forall|j: int|
            0 <= j < olds.push(mv).len() ==> !(#[trigger] olds.push(mv)[j]).is_wide(),
        forall|j: int|
            0 <= j < olds.push(mv).len() && (#[trigger] olds.push(mv)[j]).is_wide() ==> 2
                <= move_layers(olds.push(mv)[j]) < cube_size,
        forall|j: int|
            0 <= j < olds.push(mv).len() - 1 && (#[trigger] olds.push(mv)[j]).is_wide()
                && olds.push(mv)[j + 1].is_wide() ==> move_layers(olds.push(mv)[j])
                != move_layers(olds.push(mv)[j + 1]),
{
    let s = olds.push(mv);
    assert(forall|j: int| 0 <= j < olds.len() ==> #[trigger] s[j] == olds[j]);
    assert(s[olds.len() as int] == mv);
    assert forall|j: int| 0 <= j < s.len() implies (#[trigger] s[j]).wf(cube_size)
        && !s[j].is_rotation() by {}
    assert forall|j: int| 0 <= j < s.len() - 1 implies !(#[trigger] s[j]).same_family(
        s[j + 1],
    ) by {
        if j == olds.len() - 1 {
            assert(s[j] == olds.last() && s[j + 1] == mv);
        }
    }
    assert forall|j: int| 0 <= j < s.len() - 1 implies (#[trigger] s[j]).spec_variant() != s[j
        + 1].spec_variant() by {
        if j == olds.len() - 1 {
            assert(s[j] == olds.last() && s[j + 1] == mv);
        }
    }
    assert forall|j: int| 0 <= j < s.len() - 1 && (#[trigger] s[j]).is_wide() && s[j
        + 1].is_wide() implies move_layers(s[j]) != move_layers(s[j + 1]) by {
        if j == olds.len() - 1 {
            assert(s[j] == olds.last() && s[j + 1] == mv);
        }
    }
}

/// Produce a random legal scramble of ten moves per layer of the cube.
///
/// No two adjacent moves share a family or a variant, and no two adjacent
/// wide turns grab the same number of layers. With `wide` false only
/// single-layer turns appear; with it true a wide turn of two or more
/// layers (always fewer than the cube has) may take a single turn's place.
#[verifier::rlimit(100)]
#[verifier::spinoff_prover]
pub fn random_scramble(cube_size: CubeSize, wide: bool) -> (r: Vec<Move>)
    requires
        valid_size(cube_size as int),
    ensures
        r@.len() == 10 * cube_size,
        forall|i: int|
            0 <= i < r@.len() ==> (#[trigger] r@[i]).wf(cube_size as int) && !r@[i].is_rotation(),
        forall|i: int|
            0 <= i < r@.len() - 1 ==> !(#[trigger] r@[i]).same_family(r@[i + 1]),
        forall|i: int|
            0 <= i < r@.len() - 1 ==> (#[trigger] r@[i]).spec_variant() != r@[i
                + 1].spec_variant(),
        !wide ==> forall|i: int| 0 <= i < r@.len() ==> !(#[trigger] r@[i]).is_wide(),
        forall|i: int|
            0 <= i < r@.len() && (#[trigger] r@[i]).is_wide() ==> 2 <= move_layers(r@[i])
                < cube_size,
        forall|i: int|
            0 <= i < r@.len() - 1 && (#[trigger] r@[i]).is_wide() && r@[i + 1].is_wide()
                ==> move_layers(r@[i]) != move_layers(r@[i + 1]),
{
    let mut rng = new_rng();
    let mut scramble: Vec<Move> = Vec::new();
    let total: usize = (cube_size as usize) * 10;
    let mut last_fam: u32 = 6;  // no previous family
    let mut last_var: u32 = 3;  // no previous variant
    let mut last_layers: i32 = 0;  // no previous wide turn
    let mut i: usize = 0;
    while i < total
        invariant
            valid_size(cube_size as int),
            0 <= i <= total,
            total == 10 * cube_size,
            scramble@.len() == i,
            last_fam <= 6,
            last_var <= 3,
            i > 0 ==> scramble@.last().wf(cube_size as int),
            i > 0 ==> scramble_face_index(scramble@.last()) == last_fam && last_fam < 6,
            i > 0 ==> variant_turns(scramble@.last().spec_variant()) == last_var + 1,
            i > 0 && scramble@.last().is_wide() ==> move_layers(scramble@.last()) == last_layers,
            forall|j: int|
                0 <= j < scramble@.len() ==> (#[trigger] scramble@[j]).wf(cube_size as int)
                    && !scramble@[j].is_rotation(),
            forall|j: int|
                0 <= j < scramble@.len() - 1 ==> !(#[trigger] scramble@[j]).same_family(
                    scramble@[j + 1],
                ),
            forall|j: int|
                0 <= j < scramble@.len() - 1 ==> (#[trigger] scramble@[j]).spec_variant()
                    != scramble@[j + 1].spec_variant(),
            !wide ==> forall|j: int|
                0 <= j < scramble@.len() ==> !(#[trigger] scramble@[j]).is_wide(),
            forall|j: int|
                0 <= j < scramble@.len() && (#[trigger] scramble@[j]).is_wide() ==> 2
                    <= move_layers(scramble@[j]) < cube_size,
            forall|j: int|
                0 <= j < scramble@.len() - 1 && (#[trigger] scramble@[j]).is_wide() && scramble@[j
                    + 1].is_wide() ==> move_layers(scramble@[j]) != move_layers(scramble@[j + 1]),
        decreases total - i,
    {
        // pick a family other than the previous move's
        let mut fam: u32 = random_below(&mut rng, 6);
        if fam == last_fam {
            fam = (fam + 1) % 6;
        }
        // pick a variant other than the previous move's
        let mut var: u32 = random_below(&mut rng, 3);
        if var == last_var {
            var = (var + 1) % 3;
        }
        let variant = if var == 0 {
            MoveVariant::Standard
        } else if var == 1 {
            MoveVariant::Double
        } else {
            MoveVariant::Inverse
        };
        // pick a layer count for an occasional wide turn, avoiding the
        // previous wide turn's count
        let mut layers: i32 = 1;
        if wide && cube_size >= 3 {
            if random_below(&mut rng, 2) == 1 {
                layers = random_below(&mut rng, (cube_size - 1) as u32) as i32 + 1;
                if layers == last_layers {
                    proof {
                        let ghost lv = layers as int;
                        let ghost cs = cube_size as int;
                        if layers < cube_size - 1 {
                            assert(lv % (cs - 1) == lv) by (nonlinear_arith)
                                requires
                                    0 <= lv < cs - 1,
                            ;
                        } else {
                            assert((cs - 1) % (cs - 1) == 0) by (nonlinear_arith)
                                requires
                                    2 <= cs - 1,
                            ;
                        }
                    }
                    layers = layers % (cube_size - 1) + 1;
                }
            }
        }
        proof {
            assert(layers >= 2 ==> 2 <= layers < cube_size && layers != last_layers);
            assert(!wide ==> layers == 1);
        }
        let mv = if layers >= 2 {
            match fam {
                0 => Move::Uw(layers, variant),
                1 => Move::Rw(layers, variant),
                2 => Move::Fw(layers, variant),
                3 => Move::Lw(layers, variant),
                4 => Move::Dw(layers, variant),
                _ => Move::Bw(layers, variant),
            }
        } else {
            match fam {
                0 => Move::U(variant),
                1 => Move::R(variant),
                2 => Move::F(variant),
                3 => Move::L(variant),
                4 => Move::D(variant),
                _ => Move::B(variant),
            }
        };
        let ghost olds = scramble@;
        scramble.push(mv);
        proof {
            assert(mv.is_wide() <==> layers >= 2);
            assert(mv.is_wide() ==> move_layers(mv) == layers);
            if olds.len() > 0 {
                if olds.last().same_family(mv) {
                    lemma_same_family_face(olds.last(), mv);
                }
                assert(!olds.last().same_family(mv));
                assert(olds.last().spec_variant() != mv.spec_variant());
            }
            lemma_scramble_push(olds, mv, cube_size as int, wide);
            assert(scramble@ == olds.push(mv));
        }
        last_fam = fam;
        last_var = var;
        last_layers = layers;
        i = i + 1;
    }
    scramble
}

} // verus!
