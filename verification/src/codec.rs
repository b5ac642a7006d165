//! The persistence codec: the inventory file is a JSON-style array of
//! product records, one record per line. The grammar is fixed and canonical:
//! `encode_inv` is the one shape the library ever writes, and `parse_inv`
//! accepts exactly the canonical encodings, so that a load after a save gives
//! the saved inventory back and any other content is rejected whole.

use vstd::prelude::*;

use crate::product::{Product, SpecProduct, inv_view, inv_wf, MAX_PRICE_CENTS};

verus! {

/// Largest whole-euro part a price may carry: `MAX_PRICE_CENTS` split as
/// euros and cents.
pub const MAX_EUROS: u64 = 999_999_999;

pub open spec fn is_digit(b: u8) -> bool {
    48 <= b <= 57
}

pub open spec fn digit_val(b: u8) -> int {
    b - 48
}

pub open spec fn digit_byte(d: int) -> u8 {
    (48 + d) as u8
}

/// The decimal digits of `n`, most significant first, without leading zeros.
pub open spec fn digits_of(n: int) -> Seq<u8>
    decreases n,
{
    if n <= 9 {
        seq![digit_byte(n)]
    } else {
        digits_of(n / 10).push(digit_byte(n % 10))
    }
}

pub open spec fn all_digits(s: Seq<u8>) -> bool {
    forall|i: int| 0 <= i < s.len() ==> is_digit(#[trigger] s[i])
}

pub open spec fn pow10(k: nat) -> int
    decreases k,
{
    if k == 0 {
        1
    } else {
        10 * pow10((k - 1) as nat)
    }
}

/// The value of a digit string, most significant digit first.
pub open spec fn seq_val(s: Seq<u8>) -> int
    decreases s.len(),
{
    if s.len() == 0 {
        0
    } else {
        digit_val(s[0]) * pow10((s.len() - 1) as nat) + seq_val(s.skip(1))
    }
}

/// Greedy digit consumption: reads digits from the front of `s` into an
/// accumulator and returns the value together with the unread remainder.
pub open spec fn parse_digits(s: Seq<u8>, acc: int) -> (int, Seq<u8>)
    decreases s.len(),
{
    if s.len() > 0 && is_digit(s[0]) {
        parse_digits(s.skip(1), acc * 10 + digit_val(s[0]))
    } else {
        (acc, s)
    }
}

/// A canonical decimal number: digits without a leading zero, value at most
/// `max`.
pub open spec fn parse_number(s: Seq<u8>, max: int) -> Option<(int, Seq<u8>)> {
    if s.len() == 0 || !is_digit(s[0]) {
        None
    } else if s[0] == 48 && s.len() >= 2 && is_digit(s[1]) {
        None
    } else {
        let (v, rest) = parse_digits(s, 0);
        if v <= max {
            Some((v, rest))
        } else {
            None
        }
    }
}

/// Appending one digit multiplies the value by ten and adds the digit.
proof fn lemma_seq_val_snoc(s: Seq<u8>, d: u8)
    ensures
        seq_val(s.push(d)) == 10 * seq_val(s) + digit_val(d),
    decreases s.len(),
{
    if s.len() == 0 {
        assert(s.push(d) =~= seq![d]);
        assert(seq_val(seq![d]) == digit_val(d) * pow10(0) + seq_val(seq![d].skip(1)));
        assert(seq![d].skip(1) =~= Seq::<u8>::empty());
    } else {
        assert(s.push(d).skip(1) =~= s.skip(1).push(d));
        lemma_seq_val_snoc(s.skip(1), d);
        let n = (s.len() - 1) as nat;
        assert(s.push(d).len() - 1 == n + 1);
        assert(pow10((n + 1) as nat) == 10 * pow10(n));
        assert(digit_val(s[0]) * (10 * pow10(n)) == 10 * (digit_val(s[0]) * pow10(n)))
            by (nonlinear_arith);
        assert(seq_val(s.push(d)) == digit_val(s[0]) * (10 * pow10(n)) + seq_val(s.skip(1).push(d)));
    }
}

/// The digit string of `n` is all digits, has the value `n`, and starts with
/// a zero only when `n` itself is zero.
proof fn lemma_digits_of(n: int)
    requires
        0 <= n,
    ensures
        all_digits(digits_of(n)),
        seq_val(digits_of(n)) == n,
        digits_of(n).len() >= 1,
        n == 0 ==> digits_of(n) =~= seq![48u8],
        n > 0 ==> digits_of(n)[0] != 48,
    decreases n,
{
    if n <= 9 {
        assert(seq_val(seq![digit_byte(n)]) == digit_val(digit_byte(n)) * pow10(0) + seq_val(
            seq![digit_byte(n)].skip(1),
        ));
        assert(seq![digit_byte(n)].skip(1) =~= Seq::<u8>::empty());
    } else {
        lemma_digits_of(n / 10);
        lemma_seq_val_snoc(digits_of(n / 10), digit_byte(n % 10));
        assert(digits_of(n) == digits_of(n / 10).push(digit_byte(n % 10)));
        assert(seq_val(digits_of(n)) == 10 * (n / 10) + (n % 10));
        assert(digits_of(n)[0] == digits_of(n / 10)[0]);
    }
}

/// Greedy digit consumption never shrinks a non-negative accumulator.
pub(crate) proof fn lemma_parse_digits_ge(s: Seq<u8>, acc: int)
    requires
        acc >= 0,
    ensures
        parse_digits(s, acc).0 >= acc,
    decreases s.len(),
{
    if s.len() > 0 && is_digit(s[0]) {
        assert(acc * 10 + digit_val(s[0]) >= acc) by (nonlinear_arith)
            requires
                acc >= 0,
                0 <= digit_val(s[0]),
        ;
        lemma_parse_digits_ge(s.skip(1), acc * 10 + digit_val(s[0]));
    }
}

/// Reading a digit string followed by a non-digit consumes exactly the
/// digits and accumulates their value.
proof fn lemma_parse_digits_prepend(ds: Seq<u8>, rest: Seq<u8>, acc: int)
    requires
        all_digits(ds),
        rest.len() == 0 || !is_digit(rest[0]),
    ensures
        parse_digits(ds + rest, acc) == (acc * pow10(ds.len()) + seq_val(ds), rest),
    decreases ds.len(),
{
    if ds.len() == 0 {
        assert(ds + rest =~= rest);
        if rest.len() > 0 {
            assert(!is_digit((ds + rest)[0]));
        }
        assert(parse_digits(ds + rest, acc) == (acc, rest));
    } else {
        let c = ds[0];
        let t = ds.skip(1);
        assert((ds + rest)[0] == c);
        assert((ds + rest).skip(1) =~= t + rest);
        lemma_parse_digits_prepend(t, rest, acc * 10 + digit_val(c));
        let n = t.len();
        assert((acc * 10 + digit_val(c)) * pow10(n) == acc * (10 * pow10(n)) + digit_val(c)
            * pow10(n)) by (nonlinear_arith);
        assert(pow10(ds.len()) == 10 * pow10(n));
        assert(acc * pow10(ds.len()) == acc * (10 * pow10(n)));
        assert(seq_val(ds) == digit_val(c) * pow10(n) + seq_val(t));
    }
}

/// The escaped form of one text byte: a backslash before a quote or a
/// backslash, every other byte unchanged.
pub open spec fn esc_byte(b: u8) -> Seq<u8> {
    if b == 34 || b == 92 {
        seq![92u8, b]
    } else {
        seq![b]
    }
}

/// The escaped form of a text.
pub open spec fn esc(s: Seq<u8>) -> Seq<u8>
    decreases s.len(),
{
    if s.len() == 0 {
        Seq::empty()
    } else {
        esc_byte(s[0]) + esc(s.skip(1))
    }
}

/// Escaping distributes over concatenation.
proof fn lemma_esc_append(s1: Seq<u8>, s2: Seq<u8>)
    ensures
        esc(s1 + s2) == esc(s1) + esc(s2),
    decreases s1.len(),
{
    if s1.len() == 0 {
        assert(s1 + s2 =~= s2);
        assert(esc(s1) + esc(s2) =~= esc(s2));
    } else {
        assert((s1 + s2)[0] == s1[0]);
        assert((s1 + s2).skip(1) =~= s1.skip(1) + s2);
        lemma_esc_append(s1.skip(1), s2);
        assert(esc(s1 + s2) =~= esc(s1) + esc(s2));
    }
}

/// A quoted string body: escaped content up to an unescaped closing quote.
/// Returns the unescaped content and what follows the quote.
pub open spec fn parse_string(s: Seq<u8>) -> Option<(Seq<u8>, Seq<u8>)>
    decreases s.len(),
{
    if s.len() == 0 {
        None
    } else if s[0] == 34 {
        Some((Seq::empty(), s.skip(1)))
    } else if s[0] == 92 {
        if s.len() >= 2 && (s[1] == 34 || s[1] == 92) {
            match parse_string(s.skip(2)) {
                Some((t, r)) => Some((seq![s[1]] + t, r)),
                None => None,
            }
        } else {
            None
        }
    } else {
        match parse_string(s.skip(1)) {
            Some((t, r)) => Some((seq![s[0]] + t, r)),
            None => None,
        }
    }
}

/// An escaped text followed by a closing quote parses back to the text.
proof fn lemma_parse_string_encode(t: Seq<u8>, rest: Seq<u8>)
    ensures
        parse_string(esc(t) + seq![34u8] + rest) == Some((t, rest)),
    decreases t.len(),
{
    if t.len() == 0 {
        assert(esc(t) + seq![34u8] + rest =~= seq![34u8] + rest);
        let s = seq![34u8] + rest;
        assert(s[0] == 34);
        assert(s.skip(1) =~= rest);
    } else {
        let c = t[0];
        let t2 = t.skip(1);
        let s = esc(t) + seq![34u8] + rest;
        assert(esc(t) == esc_byte(c) + esc(t2));
        lemma_parse_string_encode(t2, rest);
        if c == 34 || c == 92 {
            assert(s[0] == 92);
            assert(s[1] == c);
            assert(s.len() >= 2);
            assert(s.skip(2) =~= esc(t2) + seq![34u8] + rest);
            assert(seq![c] + t2 =~= t);
        } else {
            assert(s[0] == c);
            assert(s.skip(1) =~= esc(t2) + seq![34u8] + rest);
            assert(seq![c] + t2 =~= t);
        }
    }
}

/// A canonical digit string parses back to its value.
proof fn lemma_parse_number_encode(n: int, rest: Seq<u8>, max: int)
    requires
        0 <= n <= max,
        rest.len() == 0 || !is_digit(rest[0]),
    ensures
        parse_number(digits_of(n) + rest, max) == Some((n, rest)),
{
    lemma_digits_of(n);
    let s = digits_of(n) + rest;
    assert(s[0] == digits_of(n)[0]);
    assert(is_digit(s[0]));
    if s[0] == 48 {
        assert(n == 0);
        assert(digits_of(n).len() == 1);
        if s.len() >= 2 {
            assert(s[1] == rest[0]);
        }
    }
    lemma_parse_digits_prepend(digits_of(n), rest, 0);
}

/// The bytes of `{"name": "`.
pub open spec fn lit_obj_open() -> Seq<u8> {
    seq![123u8, 34u8, 110u8, 97u8, 109u8, 101u8, 34u8, 58u8, 32u8, 34u8]
}

/// The bytes of `, "category": "`.
pub open spec fn lit_category() -> Seq<u8> {
    seq![44u8, 32u8, 34u8, 99u8, 97u8, 116u8, 101u8, 103u8, 111u8, 114u8, 121u8, 34u8, 58u8, 32u8, 34u8]
}

/// The bytes of `, "price": `.
pub open spec fn lit_price() -> Seq<u8> {
    seq![44u8, 32u8, 34u8, 112u8, 114u8, 105u8, 99u8, 101u8, 34u8, 58u8, 32u8]
}

/// The bytes of `, "days_to_expiry": `.
pub open spec fn lit_days() -> Seq<u8> {
    seq![44u8, 32u8, 34u8, 100u8, 97u8, 121u8, 115u8, 95u8, 116u8, 111u8, 95u8, 101u8, 120u8, 112u8, 105u8, 114u8, 121u8, 34u8, 58u8, 32u8]
}

/// The byte of `}`.
pub open spec fn lit_close() -> Seq<u8> {
    seq![125u8]
}

/// A fixed literal at the front of `s`: consumed exactly, or refused.
pub open spec fn parse_lit(s: Seq<u8>, lit: Seq<u8>) -> Option<Seq<u8>> {
    if lit.len() <= s.len() && s.take(lit.len() as int) == lit {
        Some(s.skip(lit.len() as int))
    } else {
        None
    }
}

proof fn lemma_parse_lit(lit: Seq<u8>, rest: Seq<u8>)
    ensures
        parse_lit(lit + rest, lit) == Some(rest),
{
    assert((lit + rest).take(lit.len() as int) =~= lit);
    assert((lit + rest).skip(lit.len() as int) =~= rest);
}

/// A price in cents, written as euros, a dot, and exactly two cent digits.
pub open spec fn encode_price(c: int) -> Seq<u8> {
    digits_of(c / 100) + seq![46u8, digit_byte((c % 100) / 10), digit_byte(c % 10)]
}

/// A price: a canonical euro amount, a dot, and exactly two cent digits.
pub open spec fn parse_price(s: Seq<u8>) -> Option<(int, Seq<u8>)> {
    match parse_number(s, MAX_EUROS as int) {
        Some((e, r)) => {
            if r.len() >= 3 && r[0] == 46 && is_digit(r[1]) && is_digit(r[2]) {
                Some((e * 100 + digit_val(r[1]) * 10 + digit_val(r[2]), r.skip(3)))
            } else {
                None
            }
        },
        None => None,
    }
}

/// An encoded price parses back to the same amount of cents.
proof fn lemma_parse_price_encode(c: int, rest: Seq<u8>)
    requires
        0 <= c <= MAX_PRICE_CENTS,
    ensures
        parse_price(encode_price(c) + rest) == Some((c, rest)),
{
    let tail = seq![46u8, digit_byte((c % 100) / 10), digit_byte(c % 10)] + rest;
    assert(encode_price(c) + rest =~= digits_of(c / 100) + tail);
    assert(!is_digit(tail[0]));
    assert(c / 100 <= MAX_EUROS as int) by (nonlinear_arith)
        requires
            0 <= c <= MAX_PRICE_CENTS,
    ;
    lemma_parse_number_encode(c / 100, tail, MAX_EUROS as int);
    assert(tail[1] == digit_byte((c % 100) / 10));
    assert(tail[2] == digit_byte(c % 10));
    assert((c % 100) % 10 == c % 10) by (nonlinear_arith)
        requires
            0 <= c,
    ;
    assert((c / 100) * 100 + ((c % 100) / 10) * 10 + c % 10 == c) by (nonlinear_arith)
        requires
            0 <= c,
    ;
    assert(tail.skip(3) =~= rest);
}

/// One product record.
pub open spec fn encode_record(p: SpecProduct) -> Seq<u8> {
    lit_obj_open() + esc(p.name) + seq![34u8] + lit_category() + esc(p.category) + seq![34u8]
        + lit_price() + encode_price(p.price_cents) + lit_days() + digits_of(p.days_to_expiry)
        + lit_close()
}

/// One product record: the fixed field layout around two strings, a price
/// and a day count.
pub open spec fn parse_record(s: Seq<u8>) -> Option<(SpecProduct, Seq<u8>)> {
    match parse_lit(s, lit_obj_open()) {
        None => None,
        Some(s1) => match parse_string(s1) {
            None => None,
            Some((name, s2)) => match parse_lit(s2, lit_category()) {
                None => None,
                Some(s3) => match parse_string(s3) {
                    None => None,
                    Some((category, s4)) => match parse_lit(s4, lit_price()) {
                        None => None,
                        Some(s5) => match parse_price(s5) {
                            None => None,
                            Some((price, s6)) => match parse_lit(s6, lit_days()) {
                                None => None,
                                Some(s7) => match parse_number(s7, u32::MAX as int) {
                                    None => None,
                                    Some((days, s8)) => match parse_lit(s8, lit_close()) {
                                        None => None,
                                        Some(s9) => Some(
                                            (
                                                SpecProduct {
                                                    name,
                                                    category,
                                                    price_cents: price,
                                                    days_to_expiry: days,
                                                },
                                                s9,
                                            ),
                                        ),
                                    },
                                },
                            },
                        },
                    },
                },
            },
        },
    }
}

/// An encoded record parses back to the same product.
proof fn lemma_parse_record_encode(p: SpecProduct, rest: Seq<u8>)
    requires
        p.wf(),
    ensures
        parse_record(encode_record(p) + rest) == Some((p, rest)),
{
    let t8 = lit_close() + rest;
    let t7 = digits_of(p.days_to_expiry) + t8;
    let t6 = lit_days() + t7;
    let t5 = encode_price(p.price_cents) + t6;
    let t4 = lit_price() + t5;
    let t3 = esc(p.category) + seq![34u8] + t4;
    let t2 = lit_category() + t3;
    let t1 = esc(p.name) + seq![34u8] + t2;
    let s = encode_record(p) + rest;
    assert(s =~= lit_obj_open() + t1);
    lemma_parse_lit(lit_obj_open(), t1);
    lemma_parse_string_encode(p.name, t2);
    lemma_parse_lit(lit_category(), t3);
    lemma_parse_string_encode(p.category, t4);
    lemma_parse_lit(lit_price(), t5);
    lemma_parse_price_encode(p.price_cents, t6);
    lemma_parse_lit(lit_days(), t7);
    assert(!is_digit(t8[0]));
    lemma_parse_number_encode(p.days_to_expiry, t8, u32::MAX as int);
    lemma_parse_lit(lit_close(), rest);
}

/// One or more records, joined by `,` and a line break.
pub open spec fn encode_records(inv: Seq<SpecProduct>) -> Seq<u8>
    decreases inv.len(),
{
    if inv.len() <= 1 {
        encode_record(inv[0])
    } else {
        encode_record(inv[0]) + seq![44u8, 10u8] + encode_records(inv.skip(1))
    }
}

/// Records joined by `,` and a line break, closed by a line break and `]`.
pub open spec fn parse_records(s: Seq<u8>) -> Option<Seq<SpecProduct>>
    decreases s.len(),
{
    match parse_record(s) {
        None => None,
        Some((p, r)) => {
            if r == seq![10u8, 93u8] {
                Some(seq![p])
            } else {
                match parse_lit(r, seq![44u8, 10u8]) {
                    None => None,
                    Some(r2) => {
                        if r2.len() < s.len() {
                            match parse_records(r2) {
                                None => None,
                                Some(ps) => Some(seq![p] + ps),
                            }
                        } else {
                            None
                        }
                    },
                }
            }
        },
    }
}

/// The whole inventory file: `[]` when empty, else the records between
/// bracket lines.
pub open spec fn encode_inv(inv: Seq<SpecProduct>) -> Seq<u8> {
    if inv.len() == 0 {
        seq![91u8, 93u8]
    } else {
        seq![91u8, 10u8] + encode_records(inv) + seq![10u8, 93u8]
    }
}

/// The whole inventory file.
pub open spec fn parse_inv(s: Seq<u8>) -> Option<Seq<SpecProduct>> {
    if s == seq![91u8, 93u8] {
        Some(Seq::empty())
    } else {
        match parse_lit(s, seq![91u8, 10u8]) {
            None => None,
            Some(r) => parse_records(r),
        }
    }
}

proof fn lemma_parse_records_encode(inv: Seq<SpecProduct>)
    requires
        inv_wf(inv),
        inv.len() >= 1,
    ensures
        parse_records(encode_records(inv) + seq![10u8, 93u8]) == Some(inv),
    decreases inv.len(),
{
    assert(inv[0].wf());
    if inv.len() == 1 {
        let s = encode_records(inv) + seq![10u8, 93u8];
        assert(s =~= encode_record(inv[0]) + seq![10u8, 93u8]);
        lemma_parse_record_encode(inv[0], seq![10u8, 93u8]);
        assert(seq![inv[0]] =~= inv);
    } else {
        let tail = encode_records(inv.skip(1)) + seq![10u8, 93u8];
        let r = seq![44u8, 10u8] + tail;
        let s = encode_records(inv) + seq![10u8, 93u8];
        assert(s =~= encode_record(inv[0]) + r);
        lemma_parse_record_encode(inv[0], r);
        assert(r[0] == 44);
        assert(r != seq![10u8, 93u8]);
        lemma_parse_lit(seq![44u8, 10u8], tail);
        assert(s.len() == encode_record(inv[0]).len() + 2 + tail.len());
        assert(tail.len() < s.len());
        assert(inv_wf(inv.skip(1))) by {
            assert(forall|i: int|
                0 <= i < inv.skip(1).len() ==> (#[trigger] inv.skip(1)[i]) == inv[i + 1]);
        }
        lemma_parse_records_encode(inv.skip(1));
        assert(seq![inv[0]] + inv.skip(1) =~= inv);
    }
}

/// Splitting off the last record splits the encoding at the separator.
proof fn lemma_encode_records_snoc(s: Seq<SpecProduct>, p: SpecProduct)
    requires
        s.len() >= 1,
    ensures
        encode_records(s.push(p)) == encode_records(s) + seq![44u8, 10u8] + encode_record(p),
    decreases s.len(),
{
    if s.len() == 1 {
        assert(s.push(p).skip(1) =~= seq![p]);
        assert(encode_records(seq![p]) == encode_record(p));
        assert(encode_records(s.push(p)) =~= encode_records(s) + seq![44u8, 10u8]
            + encode_record(p));
    } else {
        assert(s.push(p).skip(1) =~= s.skip(1).push(p));
        lemma_encode_records_snoc(s.skip(1), p);
        assert(encode_records(s.push(p)) =~= encode_records(s) + seq![44u8, 10u8]
            + encode_record(p));
    }
}

/// Escaping a single byte.
proof fn lemma_esc_one(b: u8)
    ensures
        esc(seq![b]) == esc_byte(b),
{
    assert(seq![b].skip(1) =~= Seq::<u8>::empty());
    assert(esc(Seq::<u8>::empty()) =~= Seq::<u8>::empty());
    assert(esc(seq![b]) == esc_byte(seq![b][0]) + esc(seq![b].skip(1)));
    assert(esc(seq![b]) =~= esc_byte(b));
}

fn lit_obj_open_vec() -> (r: Vec<u8>)
    ensures
        r@ == lit_obj_open(),
{
    let v: Vec<u8> = vec![123u8, 34u8, 110u8, 97u8, 109u8, 101u8, 34u8, 58u8, 32u8, 34u8];
    proof {
        assert(v@ =~= lit_obj_open());
    }
    v
}

fn lit_category_vec() -> (r: Vec<u8>)
    ensures
        r@ == lit_category(),
{
    let v: Vec<u8> = vec![
        44u8, 32u8, 34u8, 99u8, 97u8, 116u8, 101u8, 103u8, 111u8, 114u8, 121u8, 34u8, 58u8, 32u8,
        34u8,
    ];
    proof {
        assert(v@ =~= lit_category());
    }
    v
}

fn lit_price_vec() -> (r: Vec<u8>)
    ensures
        r@ == lit_price(),
{
    let v: Vec<u8> = vec![44u8, 32u8, 34u8, 112u8, 114u8, 105u8, 99u8, 101u8, 34u8, 58u8, 32u8];
    proof {
        assert(v@ =~= lit_price());
    }
    v
}

fn lit_days_vec() -> (r: Vec<u8>)
    ensures
        r@ == lit_days(),
{
    let v: Vec<u8> = vec![
        44u8, 32u8, 34u8, 100u8, 97u8, 121u8, 115u8, 95u8, 116u8, 111u8, 95u8, 101u8, 120u8,
        112u8, 105u8, 114u8, 121u8, 34u8, 58u8, 32u8,
    ];
    proof {
        assert(v@ =~= lit_days());
    }
    v
}

/// Appends the bytes of `lit` to `out`.
fn append_bytes(out: &mut Vec<u8>, lit: &Vec<u8>)
    ensures
        final(out)@ == old(out)@ + lit@,
{
    let mut j: usize = 0;
    while j < lit.len()
        invariant
            j <= lit.len(),
            out@ == old(out)@ + lit@.take(j as int),
        decreases lit.len() - j,
    {
        out.push(lit[j]);
        proof {
            assert(lit@.take(j + 1) =~= lit@.take(j as int).push(lit@[j as int]));
            assert(old(out)@ + lit@.take(j + 1) =~= (old(out)@ + lit@.take(j as int)).push(
                lit@[j as int],
            ));
        }
        j = j + 1;
    }
    proof {
        assert(lit@.take(lit@.len() as int) =~= lit@);
    }
}

/// Appends the decimal digits of `n`.
fn encode_u64_into(out: &mut Vec<u8>, n: u64)
    ensures
        final(out)@ == old(out)@ + digits_of(n as int),
    decreases n,
{
    if n <= 9 {
        out.push((48 + n) as u8);
        proof {
            assert(old(out)@ + digits_of(n as int) =~= old(out)@.push((48 + n) as u8));
        }
    } else {
        encode_u64_into(out, n / 10);
        out.push((48 + (n % 10)) as u8);
        proof {
            assert(digits_of(n as int) == digits_of(n as int / 10).push(
                digit_byte(n as int % 10),
            ));
            assert(old(out)@ + digits_of(n as int) =~= (old(out)@ + digits_of(
                n as int / 10,
            )).push(digit_byte(n as int % 10)));
        }
    }
}

/// Appends a price in cents as euros, a dot, and two cent digits.
fn encode_price_into(out: &mut Vec<u8>, c: u64)
    ensures
        final(out)@ == old(out)@ + encode_price(c as int),
{
    encode_u64_into(out, c / 100);
    out.push(46u8);
    out.push((48 + (c % 100) / 10) as u8);
    out.push((48 + c % 10) as u8);
    proof {
        assert(old(out)@ + encode_price(c as int) =~= old(out)@ + digits_of(c as int / 100)
            + seq![46u8, digit_byte((c as int % 100) / 10), digit_byte(c as int % 10)]);
        assert(out@ =~= old(out)@ + digits_of(c as int / 100) + seq![
            46u8,
            digit_byte((c as int % 100) / 10),
            digit_byte(c as int % 10),
        ]);
    }
}

/// Appends the escaped form of `s`.
fn encode_string_into(out: &mut Vec<u8>, s: &Vec<u8>)
    ensures
        final(out)@ == old(out)@ + esc(s@),
{
    let mut i: usize = 0;
    while i < s.len()
        invariant
            i <= s.len(),
            out@ == old(out)@ + esc(s@.take(i as int)),
        decreases s.len() - i,
    {
        let b = s[i];
        if b == 34 || b == 92 {
            out.push(92u8);
            out.push(b);
        } else {
            out.push(b);
        }
        proof {
            assert(s@.take(i + 1) =~= s@.take(i as int) + seq![b]);
            lemma_esc_append(s@.take(i as int), seq![b]);
            lemma_esc_one(b);
            assert(old(out)@ + esc(s@.take(i + 1)) =~= old(out)@ + esc(s@.take(i as int))
                + esc_byte(b));
            assert(out@ =~= old(out)@ + esc(s@.take(i as int)) + esc_byte(b));
        }
        i = i + 1;
    }
    proof {
        assert(s@.take(s@.len() as int) =~= s@);
    }
}

/// Appends one encoded record.
fn encode_record_into(out: &mut Vec<u8>, p: &Product)
    ensures
        final(out)@ == old(out)@ + encode_record(p@),
{
    let l1 = lit_obj_open_vec();
    append_bytes(out, &l1);
    encode_string_into(out, &p.name);
    out.push(34u8);
    let l2 = lit_category_vec();
    append_bytes(out, &l2);
    encode_string_into(out, &p.category);
    out.push(34u8);
    let l3 = lit_price_vec();
    append_bytes(out, &l3);
    encode_price_into(out, p.price_cents);
    let l4 = lit_days_vec();
    append_bytes(out, &l4);
    encode_u64_into(out, p.days_to_expiry as u64);
    out.push(125u8);
    proof {
        assert(lit_close() =~= seq![125u8]);
        assert(out@ =~= old(out)@ + encode_record(p@));
    }
}

/// Serializes the inventory to the canonical file bytes.
pub fn encode_inventory(inv: &Vec<Product>) -> (r: Vec<u8>)
    ensures
        r@ == encode_inv(inv_view(inv@)),
{
    if inv.len() == 0 {
        let r: Vec<u8> = vec![91u8, 93u8];
        proof {
            assert(inv_view(inv@).len() == 0);
            assert(r@ =~= encode_inv(inv_view(inv@)));
        }
        r
    } else {
        let ghost view = inv_view(inv@);
        let mut out: Vec<u8> = vec![91u8, 10u8];
        proof {
            assert(out@ =~= seq![91u8, 10u8]);
        }
        let mut i: usize = 0;
        while i < inv.len()
            invariant
                i <= inv.len(),
                inv.len() >= 1,
                view == inv_view(inv@),
                i == 0 ==> out@ == seq![91u8, 10u8],
                i >= 1 ==> out@ == seq![91u8, 10u8] + encode_records(view.take(i as int)),
            decreases inv.len() - i,
        {
            if i > 0 {
                out.push(44u8);
                out.push(10u8);
            }
            encode_record_into(&mut out, &inv[i]);
            proof {
                assert(view[i as int] == inv@[i as int]@);
                if i == 0 {
                    assert(view.take(1).len() == 1);
                    assert(encode_records(view.take(1)) == encode_record(view[0]));
                    assert(out@ =~= seq![91u8, 10u8] + encode_records(view.take(1)));
                } else {
                    lemma_encode_records_snoc(view.take(i as int), view[i as int]);
                    assert(view.take(i + 1) =~= view.take(i as int).push(view[i as int]));
                    assert(out@ =~= seq![91u8, 10u8] + encode_records(view.take(i + 1)));
                }
            }
            i = i + 1;
        }
        out.push(10u8);
        out.push(93u8);
        proof {
            assert(view.take(view.len() as int) =~= view);
            assert(out@ =~= seq![91u8, 10u8] + encode_records(view) + seq![10u8, 93u8]);
        }
        out
    }
}

fn parse_lit_at(data: &Vec<u8>, pos: usize, lit: &Vec<u8>) -> (r: Option<usize>)
    requires
        pos <= data.len(),
    ensures
        match r {
            Some(np) => np == pos + lit@.len() && np <= data.len() && parse_lit(
                data@.skip(pos as int),
                lit@,
            ) == Some(data@.skip(np as int)),
            None => parse_lit(data@.skip(pos as int), lit@) is None,
        },
{
    if data.len() - pos < lit.len() {
        return None;
    }
    let end: usize = pos + lit.len();
    let ghost s = data@.skip(pos as int);
    let mut j: usize = 0;
    while j < lit.len()
        invariant
            end == pos + lit@.len(),
            end <= data@.len(),
            j <= lit@.len(),
            s == data@.skip(pos as int),
            forall|k: int| 0 <= k < j ==> data@[pos + k] == lit@[k],
        decreases lit@.len() - j,
    {
        if data[pos + j] != lit[j] {
            proof {
                assert(s.take(lit@.len() as int)[j as int] == data@[pos + j]);
                assert(s.take(lit@.len() as int) != lit@);
            }
            return None;
        }
        j = j + 1;
    }
    proof {
        assert(s.take(lit@.len() as int) =~= lit@) by {
            assert(forall|k: int|
                0 <= k < lit@.len() ==> s.take(lit@.len() as int)[k] == data@[pos + k]);
        }
        assert(s.skip(lit@.len() as int) =~= data@.skip(pos + lit@.len()));
    }
    Some(pos + lit.len())
}

/// Lifts prepending a parsed prefix over a parser outcome.
spec fn opt_prepend(p: Seq<u8>, o: Option<(Seq<u8>, Seq<u8>)>) -> Option<(Seq<u8>, Seq<u8>)> {
    match o {
        Some((t, r)) => Some((p + t, r)),
        None => None,
    }
}

fn parse_string_at(data: &Vec<u8>, pos: usize) -> (r: Option<(Vec<u8>, usize)>)
    requires
        pos <= data.len(),
    ensures
        match r {
            Some((s, np)) => pos < np <= data.len() && parse_string(data@.skip(pos as int))
                == Some((s@, data@.skip(np as int))),
            None => parse_string(data@.skip(pos as int)) is None,
        },
{
    let mut out: Vec<u8> = Vec::new();
    let mut i: usize = pos;
    loop
        invariant
            pos <= i <= data.len(),
            parse_string(data@.skip(pos as int)) == opt_prepend(
                out@,
                parse_string(data@.skip(i as int)),
            ),
        decreases data.len() - i,
    {
        if i == data.len() {
            proof {
                assert(data@.skip(i as int) =~= Seq::<u8>::empty());
            }
            return None;
        }
        let b = data[i];
        proof {
            assert(data@.skip(i as int)[0] == b);
        }
        if b == 34 {
            proof {
                assert(data@.skip(i as int).skip(1) =~= data@.skip(i + 1));
                assert(out@ + Seq::<u8>::empty() =~= out@);
            }
            return Some((out, i + 1));
        } else if b == 92 {
            if data.len() - i < 2 {
                proof {
                    assert(data@.skip(i as int).len() < 2);
                }
                return None;
            }
            let b2 = data[i + 1];
            proof {
                assert(data@.skip(i as int)[1] == b2);
            }
            if b2 == 34 || b2 == 92 {
                proof {
                    assert(data@.skip(i as int).skip(2) =~= data@.skip(i + 2));
                    match parse_string(data@.skip(i + 2)) {
                        Some((t, r)) => {
                            assert(out@ + (seq![b2] + t) =~= out@.push(b2) + t);
                        },
                        None => {},
                    }
                }
                out.push(b2);
                i = i + 2;
            } else {
                return None;
            }
        } else {
            proof {
                assert(data@.skip(i as int).skip(1) =~= data@.skip(i + 1));
                match parse_string(data@.skip(i + 1)) {
                    Some((t, r)) => {
                        assert(out@ + (seq![b] + t) =~= out@.push(b) + t);
                    },
                    None => {},
                }
            }
            out.push(b);
            i = i + 1;
        }
    }
}

fn parse_number_at(data: &Vec<u8>, pos: usize, max: u64) -> (r: Option<(u64, usize)>)
    requires
        pos <= data.len(),
        max <= 0xFF_FFFF_FFFF,
    ensures
        match r {
            Some((v, np)) => pos < np <= data.len() && v <= max && parse_number(
                data@.skip(pos as int),
                max as int,
            ) == Some((v as int, data@.skip(np as int))),
            None => parse_number(data@.skip(pos as int), max as int) is None,
        },
{
    let ghost s = data@.skip(pos as int);
    if pos == data.len() {
        proof {
            assert(s.len() == 0);
        }
        return None;
    }
    let b0 = data[pos];
    proof {
        assert(s[0] == b0);
    }
    if !(48 <= b0 && b0 <= 57) {
        return None;
    }
    if b0 == 48 && pos + 1 < data.len() {
        let b1 = data[pos + 1];
        proof {
            assert(s[1] == b1);
        }
        if 48 <= b1 && b1 <= 57 {
            return None;
        }
    }
    proof {
        assert(!(s[0] == 48 && s.len() >= 2 && is_digit(s[1])));
    }
    let mut acc: u64 = 0;
    let mut i: usize = pos;
    while i < data.len() && 48 <= data[i] && data[i] <= 57
        invariant
            pos <= i <= data.len(),
            pos < data@.len(),
            48 <= data@[pos as int] <= 57,
            acc <= max,
            max <= 0xFF_FFFF_FFFF,
            s == data@.skip(pos as int),
            !(s[0] == 48 && s.len() >= 2 && is_digit(s[1])),
            parse_digits(s, 0) == parse_digits(data@.skip(i as int), acc as int),
        decreases data.len() - i,
    {
        let d = (data[i] - 48) as u64;
        let cand: u64 = acc * 10 + d;
        proof {
            assert(data@.skip(i as int)[0] == data@[i as int]);
            assert(data@.skip(i as int).skip(1) =~= data@.skip(i + 1));
            assert(parse_digits(data@.skip(i as int), acc as int) == parse_digits(
                data@.skip(i + 1),
                cand as int,
            ));
        }
        if cand > max {
            proof {
                lemma_parse_digits_ge(data@.skip(i + 1), cand as int);
                assert(parse_digits(s, 0).0 > max);
            }
            return None;
        }
        acc = cand;
        i = i + 1;
    }
    proof {
        if i < data.len() {
            assert(data@.skip(i as int)[0] == data@[i as int]);
        } else {
            assert(data@.skip(i as int).len() == 0);
        }
        assert(parse_digits(data@.skip(i as int), acc as int) == (
            acc as int,
            data@.skip(i as int),
        ));
    }
    Some((acc, i))
}

fn parse_price_at(data: &Vec<u8>, pos: usize) -> (r: Option<(u64, usize)>)
    requires
        pos <= data.len(),
    ensures
        match r {
            Some((c, np)) => pos < np <= data.len() && c <= MAX_PRICE_CENTS && parse_price(
                data@.skip(pos as int),
            ) == Some((c as int, data@.skip(np as int))),
            None => parse_price(data@.skip(pos as int)) is None,
        },
{
    match parse_number_at(data, pos, MAX_EUROS) {
        None => None,
        Some((e, np)) => {
            let ghost rest = data@.skip(np as int);
            if data.len() - np < 3 {
                return None;
            }
            let c0 = data[np];
            let c1 = data[np + 1];
            let c2 = data[np + 2];
            proof {
                assert(rest[0] == c0);
                assert(rest[1] == c1);
                assert(rest[2] == c2);
            }
            if c0 == 46 && 48 <= c1 && c1 <= 57 && 48 <= c2 && c2 <= 57 {
                let c: u64 = e * 100 + ((c1 - 48) as u64) * 10 + ((c2 - 48) as u64);
                proof {
                    assert(rest.skip(3) =~= data@.skip(np + 3));
                }
                Some((c, np + 3))
            } else {
                None
            }
        },
    }
}

fn parse_record_at(data: &Vec<u8>, pos: usize) -> (r: Option<(Product, usize)>)
    requires
        pos <= data.len(),
    ensures
        match r {
            Some((p, np)) => pos < np <= data.len() && p@.wf() && parse_record(
                data@.skip(pos as int),
            ) == Some((p@, data@.skip(np as int))),
            None => parse_record(data@.skip(pos as int)) is None,
        },
{
    let l1 = lit_obj_open_vec();
    let p1 = match parse_lit_at(data, pos, &l1) {
        None => {
            return None;
        },
        Some(p) => p,
    };
    let (name, p2) = match parse_string_at(data, p1) {
        None => {
            return None;
        },
        Some(v) => v,
    };
    let l2 = lit_category_vec();
    let p3 = match parse_lit_at(data, p2, &l2) {
        None => {
            return None;
        },
        Some(p) => p,
    };
    let (category, p4) = match parse_string_at(data, p3) {
        None => {
            return None;
        },
        Some(v) => v,
    };
    let l3 = lit_price_vec();
    let p5 = match parse_lit_at(data, p4, &l3) {
        None => {
            return None;
        },
        Some(p) => p,
    };
    let (price, p6) = match parse_price_at(data, p5) {
        None => {
            return None;
        },
        Some(v) => v,
    };
    let l4 = lit_days_vec();
    let p7 = match parse_lit_at(data, p6, &l4) {
        None => {
            return None;
        },
        Some(p) => p,
    };
    let (days, p8) = match parse_number_at(data, p7, 0xFFFF_FFFF) {
        None => {
            return None;
        },
        Some(v) => v,
    };
    let close: Vec<u8> = vec![125u8];
    proof {
        assert(close@ =~= lit_close());
    }
    let p9 = match parse_lit_at(data, p8, &close) {
        None => {
            return None;
        },
        Some(p) => p,
    };
    let product = Product { name, category, price_cents: price, days_to_expiry: days as u32 };
    Some((product, p9))
}

/// Lifts prepending already parsed records over a parser outcome.
spec fn opt_prepend_recs(ps: Seq<SpecProduct>, o: Option<Seq<SpecProduct>>) -> Option<
    Seq<SpecProduct>,
> {
    match o {
        Some(q) => Some(ps + q),
        None => None,
    }
}

/// Deserializes the inventory file bytes; `None` on anything that is not a
/// canonical encoding. A decoded inventory is always well formed.
pub fn decode_inventory(data: &Vec<u8>) -> (r: Option<Vec<Product>>)
    ensures
        match r {
            Some(v) => parse_inv(data@) == Some(inv_view(v@)) && inv_wf(inv_view(v@)),
            None => parse_inv(data@) is None,
        },
{
    if data.len() == 2 && data[0] == 91 && data[1] == 93 {
        let r: Vec<Product> = Vec::new();
        proof {
            assert(data@ =~= seq![91u8, 93u8]);
            assert(inv_view(r@) =~= Seq::<SpecProduct>::empty());
        }
        return Some(r);
    }
    proof {
        if data@ == seq![91u8, 93u8] {
            assert(data@.len() == 2);
            assert(data@[0] == 91 && data@[1] == 93);
        }
    }
    let open: Vec<u8> = vec![91u8, 10u8];
    proof {
        assert(open@ =~= seq![91u8, 10u8]);
    }
    let p0 = match parse_lit_at(data, 0, &open) {
        None => {
            proof {
                assert(data@.skip(0) =~= data@);
            }
            return None;
        },
        Some(p) => p,
    };
    proof {
        assert(data@.skip(0) =~= data@);
    }
    let sep: Vec<u8> = vec![44u8, 10u8];
    proof {
        assert(sep@ =~= seq![44u8, 10u8]);
    }
    let mut out: Vec<Product> = Vec::new();
    let mut pos = p0;
    proof {
        assert(inv_view(out@) =~= Seq::<SpecProduct>::empty());
        assert(opt_prepend_recs(inv_view(out@), parse_records(data@.skip(pos as int)))
            == parse_records(data@.skip(pos as int)));
        match parse_records(data@.skip(pos as int)) {
            Some(q) => {
                assert(Seq::<SpecProduct>::empty() + q =~= q);
            },
            None => {},
        }
    }
    loop
        invariant
            p0 <= pos <= data.len(),
            sep@ == seq![44u8, 10u8],
            parse_inv(data@) == parse_records(data@.skip(p0 as int)),
            parse_records(data@.skip(p0 as int)) == opt_prepend_recs(
                inv_view(out@),
                parse_records(data@.skip(pos as int)),
            ),
            inv_wf(inv_view(out@)),
        decreases data.len() - pos,
    {
        let ghost s = data@.skip(pos as int);
        match parse_record_at(data, pos) {
            None => {
                return None;
            },
            Some((prod, np)) => {
                let ghost pv = prod@;
                let ghost pre = inv_view(out@);
                out.push(prod);
                proof {
                    assert(inv_view(out@) =~= pre.push(pv));
                }
                if data.len() - np == 2 && data[np] == 10 && data[np + 1] == 93 {
                    proof {
                        assert(data@.skip(np as int) =~= seq![10u8, 93u8]);
                        assert(parse_records(s) == Some(seq![pv]));
                        assert(pre + seq![pv] =~= pre.push(pv));
                    }
                    return Some(out);
                }
                proof {
                    if data@.skip(np as int) == seq![10u8, 93u8] {
                        assert(data@.skip(np as int).len() == 2);
                        assert(data@.skip(np as int)[0] == data@[np as int]);
                        assert(data@.skip(np as int)[1] == data@[np + 1]);
                        assert(false);
                    }
                }
                match parse_lit_at(data, np, &sep) {
                    None => {
                        return None;
                    },
                    Some(np2) => {
                        proof {
                            assert(data@.skip(np2 as int).len() < s.len());
                            match parse_records(data@.skip(np2 as int)) {
                                Some(q) => {
                                    assert(parse_records(s) == Some(seq![pv] + q));
                                    assert(pre + (seq![pv] + q) =~= pre.push(pv) + q);
                                },
                                None => {
                                    assert(parse_records(s) is None);
                                },
                            }
                        }
                        pos = np2;
                    },
                }
            },
        }
    }
}

/// The load step: the file bytes when the file exists, `None` when it does
/// not; anything that is not a canonical encoding yields the empty inventory.
pub fn load_inventory(data: &Option<Vec<u8>>) -> (r: Vec<Product>)
    ensures
        inv_wf(inv_view(r@)),
        match data {
            Some(d) => match parse_inv(d@) {
                Some(inv) => inv_view(r@) == inv,
                None => r@ == Seq::<Product>::empty(),
            },
            None => r@ == Seq::<Product>::empty(),
        },
{
    match data {
        None => Vec::new(),
        Some(d) => match decode_inventory(d) {
            Some(v) => v,
            None => Vec::new(),
        },
    }
}

/// Round trip: the canonical encoding of any well-formed inventory parses
/// back to exactly that inventory, whatever its length.
pub proof fn lemma_save_load_round_trip(inv: Seq<SpecProduct>)
    requires
        inv_wf(inv),
    ensures
        parse_inv(encode_inv(inv)) == Some(inv),
{
    if inv.len() == 0 {
        assert(encode_inv(inv) == seq![91u8, 93u8]);
        assert(inv =~= Seq::<SpecProduct>::empty());
    } else {
        let body = encode_records(inv) + seq![10u8, 93u8];
        let s = encode_inv(inv);
        assert(s =~= seq![91u8, 10u8] + body);
        assert(encode_record(inv[0]).len() >= 10);
        assert(encode_records(inv).len() >= 10);
        assert(s.len() >= 14);
        assert(s != seq![91u8, 93u8]);
        lemma_parse_lit(seq![91u8, 10u8], body);
        lemma_parse_records_encode(inv);
    }
}

} // verus!
