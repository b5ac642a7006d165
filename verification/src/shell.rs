//! The decision logic of the interactive menu: trimming a read line,
//! recognising the four menu choices, parsing the price and day inputs with
//! their silent defaults, and appending a new product to the inventory.

use vstd::prelude::*;

use crate::codec::{digit_val, is_digit, parse_digits, lemma_parse_digits_ge};
use crate::codec::MAX_EUROS;
use crate::product::{Product, SpecProduct, inv_view, inv_wf};

verus! {

/// ASCII whitespace: space, tab, line feed, carriage return.
pub open spec fn is_space(b: u8) -> bool {
    b == 32 || b == 9 || b == 10 || b == 13
}

/// The text with its leading whitespace removed.
pub open spec fn trim_front(s: Seq<u8>) -> Seq<u8>
    decreases s.len(),
{
    if s.len() > 0 && is_space(s[0]) {
        trim_front(s.skip(1))
    } else {
        s
    }
}

/// The text with its trailing whitespace removed.
pub open spec fn trim_back(s: Seq<u8>) -> Seq<u8>
    decreases s.len(),
{
    if s.len() > 0 && is_space(s.last()) {
        trim_back(s.take(s.len() - 1))
    } else {
        s
    }
}

/// The text with whitespace removed from both ends.
pub open spec fn trimmed(s: Seq<u8>) -> Seq<u8> {
    trim_back(trim_front(s))
}

/// Removes ASCII whitespace from both ends of a read line.
pub fn trim_line(line: &Vec<u8>) -> (r: Vec<u8>)
    ensures
        r@ == trimmed(line@),
{
    let n = line.len();
    let mut a: usize = 0;
    proof {
        assert(line@.skip(0) =~= line@);
    }
    while a < n && (line[a] == 32 || line[a] == 9 || line[a] == 10 || line[a] == 13)
        invariant
            a <= n,
            n == line@.len(),
            trim_front(line@) == trim_front(line@.skip(a as int)),
        decreases n - a,
    {
        proof {
            assert(line@.skip(a as int)[0] == line@[a as int]);
            assert(line@.skip(a as int).skip(1) =~= line@.skip(a + 1));
        }
        a = a + 1;
    }
    proof {
        if a < n {
            assert(line@.skip(a as int)[0] == line@[a as int]);
        }
        assert(trim_front(line@) == line@.skip(a as int));
        assert(line@.skip(a as int) =~= line@.subrange(a as int, n as int));
    }
    let mut b: usize = n;
    while b > a && (line[b - 1] == 32 || line[b - 1] == 9 || line[b - 1] == 10 || line[b - 1]
        == 13)
        invariant
            a <= b <= n,
            n == line@.len(),
            trim_back(line@.subrange(a as int, n as int)) == trim_back(
                line@.subrange(a as int, b as int),
            ),
        decreases b,
    {
        proof {
            let cur = line@.subrange(a as int, b as int);
            assert(cur.last() == line@[b - 1]);
            assert(cur.take(cur.len() - 1) =~= line@.subrange(a as int, b - 1));
        }
        b = b - 1;
    }
    proof {
        let cur = line@.subrange(a as int, b as int);
        if b > a {
            assert(cur.last() == line@[b - 1]);
        }
        assert(trim_back(cur) == cur);
    }
    let mut out: Vec<u8> = Vec::new();
    let mut k: usize = a;
    proof {
        assert(out@ =~= line@.subrange(a as int, a as int));
    }
    while k < b
        invariant
            a <= k <= b <= n,
            n == line@.len(),
            out@ == line@.subrange(a as int, k as int),
        decreases b - k,
    {
        out.push(line[k]);
        proof {
            assert(line@.subrange(a as int, k + 1) =~= line@.subrange(a as int, k as int).push(
                line@[k as int],
            ));
        }
        k = k + 1;
    }
    out
}

/// The four menu choices, and everything else.
#[derive(PartialEq, Eq, Structural, Debug)]
pub enum MenuChoice {
    Add,
    List,
    Advise,
    Exit,
    Invalid,
}

/// What a read line means as a menu choice: its trimmed text matched
/// against `1` through `4`.
pub open spec fn spec_choice(line: Seq<u8>) -> MenuChoice {
    let t = trimmed(line);
    if t == seq![49u8] {
        MenuChoice::Add
    } else if t == seq![50u8] {
        MenuChoice::List
    } else if t == seq![51u8] {
        MenuChoice::Advise
    } else if t == seq![52u8] {
        MenuChoice::Exit
    } else {
        MenuChoice::Invalid
    }
}

/// Reads a menu choice from a raw input line.
pub fn parse_choice(line: &Vec<u8>) -> (r: MenuChoice)
    ensures
        r == spec_choice(line@),
{
    let t = trim_line(line);
    if t.len() == 1 {
        let b = t[0];
        proof {
            assert(t@[0] == b);
            if b == 49 {
                assert(t@ =~= seq![49u8]);
            }
            if b == 50 {
                assert(t@ =~= seq![50u8]);
            }
            if b == 51 {
                assert(t@ =~= seq![51u8]);
            }
            if b == 52 {
                assert(t@ =~= seq![52u8]);
            }
        }
        if b == 49 {
            MenuChoice::Add
        } else if b == 50 {
            MenuChoice::List
        } else if b == 51 {
            MenuChoice::Advise
        } else if b == 52 {
            MenuChoice::Exit
        } else {
            MenuChoice::Invalid
        }
    } else {
        proof {
            assert(t@.len() != 1);
        }
        MenuChoice::Invalid
    }
}

/// A price input after trimming: one or more euro digits, then at most one
/// dot with at most two cent digits, within the representable bound.
/// Anything else is no price.
pub open spec fn spec_price_cents(t: Seq<u8>) -> Option<int> {
    if t.len() == 0 || !is_digit(t[0]) {
        None
    } else {
        let (e, r) = parse_digits(t, 0);
        if e > MAX_EUROS {
            None
        } else if r.len() == 0 {
            Some(e * 100)
        } else if r[0] == 46 {
            let f = r.skip(1);
            if f.len() == 0 {
                Some(e * 100)
            } else if f.len() == 1 && is_digit(f[0]) {
                Some(e * 100 + 10 * digit_val(f[0]))
            } else if f.len() == 2 && is_digit(f[0]) && is_digit(f[1]) {
                Some(e * 100 + 10 * digit_val(f[0]) + digit_val(f[1]))
            } else {
                None
            }
        } else {
            None
        }
    }
}

/// The stored price of a raw price input: the parsed cents, or zero on any
/// parse failure.
pub open spec fn spec_price_or_default(line: Seq<u8>) -> int {
    match spec_price_cents(trimmed(line)) {
        Some(c) => c,
        None => 0,
    }
}

/// A day count after trimming: digits only, fitting the day field.
pub open spec fn spec_days(t: Seq<u8>) -> Option<int> {
    if t.len() == 0 || !is_digit(t[0]) {
        None
    } else {
        let (v, r) = parse_digits(t, 0);
        if r.len() == 0 && v <= u32::MAX {
            Some(v)
        } else {
            None
        }
    }
}

/// The stored days-to-expiry of a raw input: the parsed count, or 365 on
/// any parse failure.
pub open spec fn spec_days_or_default(line: Seq<u8>) -> int {
    match spec_days(trimmed(line)) {
        Some(d) => d,
        None => 365,
    }
}

/// Parses a raw price input line; any failure falls back to zero cents.
pub fn parse_price_input(line: &Vec<u8>) -> (r: u64)
    ensures
        r as int == spec_price_or_default(line@),
        r <= crate::product::MAX_PRICE_CENTS,
{
    let t = trim_line(line);
    let n = t.len();
    if n == 0 {
        return 0;
    }
    let b0 = t[0];
    proof {
        assert(t@[0] == b0);
    }
    if !(48 <= b0 && b0 <= 57) {
        return 0;
    }
    let ghost s = t@;
    let mut acc: u64 = 0;
    let mut i: usize = 0;
    proof {
        assert(s.skip(0) =~= s);
    }
    while i < n && 48 <= t[i] && t[i] <= 57
        invariant
            i <= n,
            n == t@.len(),
            s == t@,
            s == trimmed(line@),
            acc <= MAX_EUROS,
            parse_digits(s, 0) == parse_digits(s.skip(i as int), acc as int),
        decreases n - i,
    {
        let d = (t[i] - 48) as u64;
        let cand: u64 = acc * 10 + d;
        proof {
            assert(s.skip(i as int)[0] == s[i as int]);
            assert(s.skip(i as int).skip(1) =~= s.skip(i + 1));
            assert(parse_digits(s.skip(i as int), acc as int) == parse_digits(
                s.skip(i + 1),
                cand as int,
            ));
        }
        if cand > MAX_EUROS {
            proof {
                lemma_parse_digits_ge(s.skip(i + 1), cand as int);
                assert(parse_digits(s, 0).0 > MAX_EUROS);
            }
            return 0;
        }
        acc = cand;
        i = i + 1;
    }
    proof {
        if i < n {
            assert(s.skip(i as int)[0] == s[i as int]);
        }
        assert(parse_digits(s.skip(i as int), acc as int) == (acc as int, s.skip(i as int)));
    }
    if i == n {
        proof {
            assert(s.skip(i as int).len() == 0);
        }
        return acc * 100;
    }
    if t[i] != 46 {
        return 0;
    }
    proof {
        assert(s.skip(i as int)[0] == 46);
        assert(s.skip(i as int).skip(1) =~= s.skip(i + 1));
    }
    let fl: usize = n - i - 1;
    if fl == 0 {
        proof {
            assert(s.skip(i + 1).len() == 0);
        }
        return acc * 100;
    }
    if fl == 1 {
        let f0 = t[i + 1];
        proof {
            assert(s.skip(i + 1)[0] == s[i + 1]);
        }
        if 48 <= f0 && f0 <= 57 {
            return acc * 100 + 10 * ((f0 - 48) as u64);
        }
        return 0;
    }
    if fl == 2 {
        let f0 = t[i + 1];
        let f1 = t[i + 2];
        proof {
            assert(s.skip(i + 1)[0] == s[i + 1]);
            assert(s.skip(i + 1)[1] == s[i + 2]);
        }
        if 48 <= f0 && f0 <= 57 && 48 <= f1 && f1 <= 57 {
            return acc * 100 + 10 * ((f0 - 48) as u64) + ((f1 - 48) as u64);
        }
        return 0;
    }
    0
}

/// Parses a raw days-to-expiry input line; any failure falls back to 365.
pub fn parse_days_input(line: &Vec<u8>) -> (r: u32)
    ensures
        r as int == spec_days_or_default(line@),
{
    let t = trim_line(line);
    let n = t.len();
    if n == 0 {
        return 365;
    }
    let b0 = t[0];
    proof {
        assert(t@[0] == b0);
    }
    if !(48 <= b0 && b0 <= 57) {
        return 365;
    }
    let ghost s = t@;
    let mut acc: u32 = 0;
    let mut i: usize = 0;
    proof {
        assert(s.skip(0) =~= s);
    }
    while i < n && 48 <= t[i] && t[i] <= 57
        invariant
            i <= n,
            n == t@.len(),
            s == t@,
            s == trimmed(line@),
            parse_digits(s, 0) == parse_digits(s.skip(i as int), acc as int),
        decreases n - i,
    {
        let d = (t[i] - 48) as u32;
        proof {
            assert(s.skip(i as int)[0] == s[i as int]);
            assert(s.skip(i as int).skip(1) =~= s.skip(i + 1));
            assert(parse_digits(s.skip(i as int), acc as int) == parse_digits(
                s.skip(i + 1),
                acc as int * 10 + d as int,
            ));
        }
        if acc > (u32::MAX - d) / 10 {
            proof {
                assert(acc as int * 10 + d as int > u32::MAX) by (nonlinear_arith)
                    requires
                        acc as int > (u32::MAX - d as int) / 10,
                        0 <= d as int <= 9,
                ;
                lemma_parse_digits_ge(s.skip(i + 1), acc as int * 10 + d as int);
                assert(parse_digits(s, 0).0 > u32::MAX);
            }
            return 365;
        }
        proof {
            assert(acc as int * 10 + d as int <= u32::MAX) by (nonlinear_arith)
                requires
                    acc as int <= (u32::MAX - d as int) / 10,
                    0 <= d as int <= 9,
            ;
        }
        acc = acc * 10 + d;
        i = i + 1;
    }
    proof {
        if i < n {
            assert(s.skip(i as int)[0] == s[i as int]);
        }
        assert(parse_digits(s.skip(i as int), acc as int) == (acc as int, s.skip(i as int)));
    }
    if i == n {
        proof {
            assert(s.skip(i as int).len() == 0);
        }
        return acc;
    }
    365
}

/// Appends the product that the four raw input lines describe: trimmed name
/// and category, price and day inputs with their silent defaults.
pub fn add_product(
    inv: &mut Vec<Product>,
    name_line: &Vec<u8>,
    category_line: &Vec<u8>,
    price_line: &Vec<u8>,
    days_line: &Vec<u8>,
)
    requires
        inv_wf(inv_view(old(inv)@)),
    ensures
        inv_wf(inv_view(final(inv)@)),
        inv_view(final(inv)@) == inv_view(old(inv)@).push(
            SpecProduct {
                name: trimmed(name_line@),
                category: trimmed(category_line@),
                price_cents: spec_price_or_default(price_line@),
                days_to_expiry: spec_days_or_default(days_line@),
            },
        ),
{
    let product = Product {
        name: trim_line(name_line),
        category: trim_line(category_line),
        price_cents: parse_price_input(price_line),
        days_to_expiry: parse_days_input(days_line),
    };
    let ghost pre = inv_view(inv@);
    let ghost pv = product@;
    inv.push(product);
    proof {
        assert(inv_view(inv@) =~= pre.push(pv));
        assert(forall|j: int|
            0 <= j < inv_view(inv@).len() ==> (#[trigger] inv_view(inv@)[j]).wf());
    }
}

} // verus!
