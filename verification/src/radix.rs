//! Positional notation in an arbitrary base, written with the symbols of an
//! alphabet: the symbol at index `d` stands for the digit `d`, and the base is
//! the number of symbols.

use crate::bignat::{big_add, big_div_mod, big_mul, BigNat};
use crate::error::Error;
use crate::text::reversed;
use vstd::arithmetic::div_mod::{
    lemma_basic_div, lemma_div_decreases, lemma_div_non_zero, lemma_fundamental_div_mod,
    lemma_fundamental_div_mod_converse, lemma_mod_bound, lemma_small_mod,
};
use vstd::arithmetic::power::pow;
use vstd::prelude::*;

verus! {

/// The numeral of `v` over `set`, most significant digit first. It has no
/// leading zero digit, except that zero itself is written as one zero digit.
/// Meaningful for alphabets of at least two symbols.
pub open spec fn encode(v: nat, set: Seq<char>) -> Seq<char>
    decreases v,
    via encode_terminates
{
    if set.len() < 2 || v < set.len() {
        seq![set[v as int]]
    } else {
        encode(v / set.len(), set).push(set[(v % set.len()) as int])
    }
}

#[via_fn]
proof fn encode_terminates(v: nat, set: Seq<char>) {
    if set.len() >= 2 && v >= set.len() {
        lemma_div_decreases(v as int, set.len() as int);
    }
}

/// Writes `value` in the base given by the number of symbols in `set`, of
/// which there must be at least two.
pub fn to_arb_base(value: BigNat, set: &[char]) -> (r: String)
    requires
        set@.len() >= 2,
    ensures
        r@ == encode(value@, set@),
{
    let base = BigNat::from_usize(set.len());
    let mut arb: Vec<char> = Vec::new();
    let mut value = value;
    let ghost whole = value@;
    loop
        invariant_except_break
            encode(whole, set@) == encode(value@, set@) + arb@.reverse(),
        invariant
            base@ == set@.len(),
            2 <= set@.len() <= usize::MAX,
        ensures
            encode(whole, set@) == arb@.reverse(),
        decreases value@,
    {
        let (new_val, rem) = big_div_mod(&value, &base);
        let ghost before = value@;
        let ghost lower = arb@;
        proof {
            lemma_mod_bound(before as int, base@ as int);
        }
        let digit = rem.to_u64().unwrap() as usize;
        arb.push(set[digit]);
        value = new_val;
        proof {
            assert(arb@.reverse() =~= seq![set@[digit as int]] + lower.reverse());
            if before < base@ {
                lemma_basic_div(before as int, base@ as int);
                lemma_small_mod(before, base@);
                assert(encode(whole, set@) =~= arb@.reverse());
            } else {
                lemma_div_non_zero(before as int, base@ as int);
                assert(encode(before, set@) + lower.reverse() =~= encode(value@, set@)
                    + arb@.reverse());
            }
        }
        if value.is_zero() {
            break;
        }
        proof {
            lemma_div_decreases(before as int, base@ as int);
        }
    }
    reversed(&arb)
}

/// Whether `i` is the first place at which `c` occurs in `set`.
pub open spec fn is_first_index(set: Seq<char>, c: char, i: int) -> bool {
    &&& 0 <= i < set.len()
    &&& set[i] == c
    &&& forall|j: int| 0 <= j < i ==> set[j] != c
}

/// The digit that the symbol `c` stands for: the first place at which it
/// occurs in `set`. Meaningful only when `set` contains `c`.
pub open spec fn digit_of(set: Seq<char>, c: char) -> int {
    choose|i: int| is_first_index(set, c, i)
}

/// Whether every character of `text` is a symbol of `set`.
pub open spec fn within(text: Seq<char>, set: Seq<char>) -> bool {
    forall|i: int| 0 <= i < text.len() ==> set.contains(#[trigger] text[i])
}

/// The number that the numeral `text` denotes over `set`, most significant
/// digit first. The empty numeral denotes zero. Meaningful only when `text`
/// is within `set`.
pub open spec fn decode(text: Seq<char>, set: Seq<char>) -> nat
    decreases text.len(),
{
    if text.len() == 0 {
        0
    } else {
        (decode(text.drop_last(), set) * set.len() + digit_of(set, text.last())) as nat
    }
}

/// The first place at which `c` occurs in `set`, if it occurs at all.
pub fn position(set: &[char], c: char) -> (r: Option<usize>)
    ensures
        match r {
            Some(i) => is_first_index(set@, c, i as int) && digit_of(set@, c) == i,
            None => !set@.contains(c),
        },
{
    let mut i: usize = 0;
    while i < set.len()
        invariant
            i <= set@.len(),
            forall|j: int| 0 <= j < i ==> set@[j] != c,
        decreases set@.len() - i,
    {
        if set[i] == c {
            assert(is_first_index(set@, c, i as int));
            return Some(i);
        }
        i += 1;
    }
    None
}

/// Reads `value` as a numeral in the base given by the number of symbols in
/// `set`. Fails when `value` holds a character that `set` does not.
pub fn from_arb_base(value: &str, set: &[char]) -> (r: Result<BigNat, Error>)
    ensures
        match r {
            Ok(v) => within(value@, set@) && v@ == decode(value@, set@),
            Err(e) => e == Error::InvalidCharacter && !within(value@, set@),
        },
{
    let base = BigNat::from_usize(set.len());
    let mut result = BigNat::from_u64(0);
    for bn in it: value.chars()
        invariant
            it.seq() == value@,
            base@ == set@.len(),
            within(value@.take(it.index() as int), set@),
            result@ == decode(value@.take(it.index() as int), set@),
    {
        let ghost k = it.index() as int;
        assert(value@.take(k + 1).drop_last() =~= value@.take(k));
        assert(value@.take(k + 1).last() == bn);
        match position(set, bn) {
            Some(val) => {
                result = big_add(&big_mul(&result, &base), &BigNat::from_usize(val));
            },
            None => {
                return Err(Error::InvalidCharacter);
            },
        }
    }
    assert(value@.take(value@.len() as int) =~= value@);
    Ok(result)
}

/// `text` with enough copies of `fill` in front to be `width` long; `text`
/// itself when it is that long already.
pub open spec fn pad_left(text: Seq<char>, width: nat, fill: char) -> Seq<char> {
    if text.len() >= width {
        text
    } else {
        Seq::new((width - text.len()) as nat, |i: int| fill) + text
    }
}

/// In an alphabet of distinct symbols each symbol stands for its own place.
pub proof fn lemma_digit_of_symbol(set: Seq<char>, d: int)
    requires
        set.no_duplicates(),
        0 <= d < set.len(),
    ensures
        set.contains(set[d]),
        digit_of(set, set[d]) == d,
{
    assert(is_first_index(set, set[d], d));
}

/// A symbol of the alphabet stands for a digit below the base, and is the
/// symbol at that digit's place.
pub proof fn lemma_digit_in_range(set: Seq<char>, c: char)
    requires
        set.contains(c),
    ensures
        0 <= digit_of(set, c) < set.len(),
        set[digit_of(set, c)] == c,
{
    let k = choose|k: int| 0 <= k < set.len() && set[k] == c;
    lemma_first_index_exists(set, c, k);
}

proof fn lemma_first_index_exists(set: Seq<char>, c: char, k: int)
    requires
        0 <= k < set.len(),
        set[k] == c,
    ensures
        exists|i: int| is_first_index(set, c, i),
    decreases k,
{
    if exists|j: int| 0 <= j < k && set[j] == c {
        let j = choose|j: int| 0 <= j < k && set[j] == c;
        lemma_first_index_exists(set, c, j);
    } else {
        assert(is_first_index(set, c, k));
    }
}

/// Zero is written as the single symbol that stands for the digit zero.
pub proof fn lemma_encode_zero(set: Seq<char>)
    requires
        set.len() >= 1,
    ensures
        encode(0, set) == seq![set[0]],
{
}

/// Every numeral has at least one digit, and all its digits are symbols of
/// the alphabet.
pub proof fn lemma_encode_within(v: nat, set: Seq<char>)
    requires
        set.len() >= 2,
    ensures
        encode(v, set).len() >= 1,
        within(encode(v, set), set),
    decreases v,
{
    let b = set.len();
    if v >= b {
        lemma_div_decreases(v as int, b as int);
        lemma_mod_bound(v as int, b as int);
        lemma_encode_within(v / b, set);
        let head = encode(v / b, set);
        let last = set[(v % b) as int];
        assert forall|i: int| 0 <= i < head.push(last).len() implies set.contains(
            #[trigger] head.push(last)[i],
        ) by {
            if i < head.len() {
                assert(head.push(last)[i] == head[i]);
            }
        }
    }
}

/// Reading back what was written gives the number that was written: over an
/// alphabet of at least two distinct symbols, `decode` undoes `encode`.
pub proof fn lemma_decode_encode(v: nat, set: Seq<char>)
    requires
        set.len() >= 2,
        set.no_duplicates(),
    ensures
        within(encode(v, set), set),
        decode(encode(v, set), set) == v,
    decreases v,
{
    let b = set.len();
    lemma_encode_within(v, set);
    let e = encode(v, set);
    if v < b {
        lemma_digit_of_symbol(set, v as int);
        assert(e.last() == set[v as int]);
        assert(decode(e.drop_last(), set) == 0);
        assert(decode(e.drop_last(), set) * b == 0);
    } else {
        lemma_div_decreases(v as int, b as int);
        lemma_mod_bound(v as int, b as int);
        lemma_decode_encode(v / b, set);
        lemma_digit_of_symbol(set, (v % b) as int);
        let head = encode(v / b, set);
        let last = set[(v % b) as int];
        assert(e == head.push(last));
        assert(e.drop_last() =~= head);
        assert(e.last() == last);
        lemma_fundamental_div_mod(v as int, b as int);
        assert((v / b) * b == b * (v / b)) by (nonlinear_arith);
        assert(decode(e, set) == (v / b) * b + v % b);
    }
}

/// A numeral of `n` digits denotes a number below the `n`-th power of the
/// base.
pub proof fn lemma_decode_bound(text: Seq<char>, set: Seq<char>)
    requires
        within(text, set),
    ensures
        decode(text, set) < pow(set.len() as int, text.len()),
    decreases text.len(),
{
    let b = set.len() as int;
    reveal(pow);
    if text.len() > 0 {
        let front = text.drop_last();
        assert forall|i: int| 0 <= i < front.len() implies set.contains(#[trigger] front[i]) by {
            assert(front[i] == text[i]);
        }
        lemma_decode_bound(front, set);
        assert(set.contains(text[text.len() - 1]));
        lemma_digit_in_range(set, text.last());
        let high = decode(front, set) as int;
        let d = digit_of(set, text.last());
        let p = pow(b, front.len());
        assert(pow(b, text.len()) == b * p);
        assert(high * b + d < b * p) by (nonlinear_arith)
            requires
                0 <= high < p,
                0 <= d < b,
        ;
    }
}

/// A numeral denotes at least what any of its beginnings denotes.
pub proof fn lemma_decode_prefix(text: Seq<char>, set: Seq<char>, k: int)
    requires
        within(text, set),
        0 <= k <= text.len(),
    ensures
        decode(text.take(k), set) <= decode(text, set),
    decreases text.len() - k,
{
    if k < text.len() {
        let front = text.drop_last();
        assert forall|i: int| 0 <= i < front.len() implies set.contains(#[trigger] front[i]) by {
            assert(front[i] == text[i]);
        }
        lemma_decode_prefix(front, set, k);
        assert(front.take(k) =~= text.take(k));
        assert(set.contains(text[text.len() - 1]));
        lemma_digit_in_range(set, text.last());
        let high = decode(front, set);
        let b = set.len();
        assert(high * b >= high) by (nonlinear_arith)
            requires
                b >= 1,
                high >= 0,
        ;
    } else {
        assert(text.take(k) =~= text);
    }
}

/// A number below the `n`-th power of the base is written with at most `n`
/// digits, for `n` of at least one.
pub proof fn lemma_encode_len(v: nat, set: Seq<char>, n: nat)
    requires
        set.len() >= 2,
        n >= 1,
        v < pow(set.len() as int, n),
    ensures
        1 <= encode(v, set).len() <= n,
    decreases v,
{
    let b = set.len() as int;
    reveal(pow);
    if v >= b {
        lemma_div_decreases(v as int, b);
        assert(pow(b, 1) == b * pow(b, 0));
        assert(n >= 2);
        let p = pow(b, (n - 1) as nat);
        assert(pow(b, n) == b * p);
        lemma_fundamental_div_mod(v as int, b);
        lemma_mod_bound(v as int, b);
        assert((v as int) / b < p) by (nonlinear_arith)
            requires
                v == b * ((v as int) / b) + (v as int) % b,
                0 <= (v as int) % b,
                v < b * p,
                b > 0,
        ;
        lemma_encode_len(v / (b as nat), set, (n - 1) as nat);
    }
}

/// Writing the number that a numeral denotes gives the numeral back without
/// its leading zero digits; padding with the zero symbol restores it. This
/// holds for every non-empty numeral over at least two distinct symbols.
pub proof fn lemma_encode_decode(text: Seq<char>, set: Seq<char>)
    requires
        set.len() >= 2,
        set.no_duplicates(),
        text.len() >= 1,
        within(text, set),
    ensures
        encode(decode(text, set), set).len() <= text.len(),
        pad_left(encode(decode(text, set), set), text.len(), set[0]) == text,
    decreases text.len(),
{
    let b = set.len();
    let n = text.len();
    let front = text.drop_last();
    let c = text.last();
    assert(set.contains(text[n - 1]));
    lemma_digit_in_range(set, c);
    let d = digit_of(set, c) as nat;
    let high = decode(front, set);
    let v = decode(text, set);
    assert(v == high * b + d);
    if n == 1 {
        assert(high == 0);
        assert(high * b == 0) by (nonlinear_arith)
            requires
                high == 0,
        ;
        assert(encode(v, set) =~= text);
    } else {
        assert forall|i: int| 0 <= i < front.len() implies set.contains(#[trigger] front[i]) by {
            assert(front[i] == text[i]);
        }
        lemma_encode_decode(front, set);
        let shorter = encode(high, set);
        if high == 0 {
            assert(high * b == 0) by (nonlinear_arith)
                requires
                    high == 0,
            ;
            assert(encode(v, set) =~= seq![c]);
            assert(pad_left(encode(v, set), n, set[0]) =~= pad_left(shorter, front.len(), set[0]).push(
                c,
            ));
        } else {
            assert(v >= b && v / b == high && v % b == d) by {
                lemma_fundamental_div_mod_converse(v as int, b as int, high as int, d as int);
                assert(high * b >= b) by (nonlinear_arith)
                    requires
                        high >= 1,
                        b >= 0,
                ;
            }
            assert(encode(v, set) == shorter.push(c));
            assert(pad_left(shorter.push(c), n, set[0]) =~= pad_left(shorter, front.len(), set[0]).push(
                c,
            ));
        }
        assert(front.push(c) =~= text);
    }
}

} // verus!
