use vstd::prelude::*;

use crate::text::push_char;

verus! {

pub open spec fn digit_char(d: nat) -> char {
    if d == 0 {
        '0'
    } else if d == 1 {
        '1'
    } else if d == 2 {
        '2'
    } else if d == 3 {
        '3'
    } else if d == 4 {
        '4'
    } else if d == 5 {
        '5'
    } else if d == 6 {
        '6'
    } else if d == 7 {
        '7'
    } else if d == 8 {
        '8'
    } else {
        '9'
    }
}

/// `n` in decimal, as `Display` writes it.
pub open spec fn decimal_text(n: nat) -> Seq<char>
    decreases n,
{
    if n < 10 {
        seq![digit_char(n)]
    } else {
        decimal_text(n / 10).push(digit_char(n % 10))
    }
}

/// `i` in decimal with a leading `-` when negative.
pub open spec fn signed_text(i: int) -> Seq<char> {
    if i < 0 {
        seq!['-'] + decimal_text((-i) as nat)
    } else {
        decimal_text(i as nat)
    }
}

fn digit(d: u64) -> (c: char)
    requires
        d < 10,
    ensures
        c == digit_char(d as nat),
{
    if d == 0 {
        '0'
    } else if d == 1 {
        '1'
    } else if d == 2 {
        '2'
    } else if d == 3 {
        '3'
    } else if d == 4 {
        '4'
    } else if d == 5 {
        '5'
    } else if d == 6 {
        '6'
    } else if d == 7 {
        '7'
    } else if d == 8 {
        '8'
    } else {
        '9'
    }
}

/// `n` in decimal.
pub fn decimal(n: u64) -> (r: String)
    ensures
        r@ == decimal_text(n as nat),
    decreases n,
{
    if n < 10 {
        let mut r = String::new();
        push_char(&mut r, digit(n));
        r
    } else {
        let mut r = decimal(n / 10);
        push_char(&mut r, digit(n % 10));
        r
    }
}

/// `i` in decimal, with a `-` when negative.
pub fn signed_decimal(i: i64) -> (r: String)
    ensures
        r@ == signed_text(i as int),
{
    if i < 0 {
        let magnitude: u64 = if i == i64::MIN {
            9223372036854775808u64
        } else {
            (-i) as u64
        };
        let mut r = String::new();
        push_char(&mut r, '-');
        let tail = decimal(magnitude);
        r.append(tail.as_str());
        r
    } else {
        decimal(i as u64)
    }
}

pub open spec fn hex_char(d: nat) -> char {
    if d < 10 {
        digit_char(d)
    } else if d == 10 {
        'a'
    } else if d == 11 {
        'b'
    } else if d == 12 {
        'c'
    } else if d == 13 {
        'd'
    } else if d == 14 {
        'e'
    } else {
        'f'
    }
}

/// The last `k` hexadecimal digits of `v`, most significant first.
pub open spec fn hex_digits(v: nat, k: nat) -> Seq<char>
    decreases k,
{
    if k == 0 {
        Seq::empty()
    } else {
        hex_digits(v / 16, (k - 1) as nat).push(hex_char(v % 16))
    }
}

fn hex_digit(d: u64) -> (c: char)
    requires
        d < 16,
    ensures
        c == hex_char(d as nat),
{
    if d < 10 {
        digit(d)
    } else if d == 10 {
        'a'
    } else if d == 11 {
        'b'
    } else if d == 12 {
        'c'
    } else if d == 13 {
        'd'
    } else if d == 14 {
        'e'
    } else {
        'f'
    }
}

/// `v` as sixteen lower-case hexadecimal digits, as `{:016x}` writes it.
pub fn hex16(v: u64) -> (r: String)
    ensures
        r@ == hex_digits(v as nat, 16),
{
    let mut digits: Vec<char> = Vec::new();
    let mut rest = v;
    let mut k: u64 = 0;
    assert(pow16(0) == 1);
    assert(v as nat / 1 == v as nat);
    while k < 16
        invariant
            k <= 16,
            digits@.len() == k,
            rest as nat == v as nat / pow16(k as nat),
            forall|j: int| 0 <= j < k ==> #[trigger] digits@[j] == hex_char((v as nat / pow16(j as nat)) % 16),
        decreases 16 - k,
    {
        proof {
            lemma_pow16_step(v as nat, k as nat);
        }
        digits.push(hex_digit(rest % 16));
        rest = rest / 16;
        k += 1;
    }
    let mut r = String::new();
    let mut i: usize = 16;
    while i > 0
        invariant
            i <= 16,
            digits@.len() == 16,
            forall|j: int| 0 <= j < 16 ==> #[trigger] digits@[j] == hex_char((v as nat / pow16(j as nat)) % 16),
            r@ == hex_digits(v as nat / pow16(i as nat), (16 - i) as nat),
        decreases i,
    {
        proof {
            lemma_pow16_step(v as nat, (i - 1) as nat);
        }
        push_char(&mut r, digits[i - 1]);
        i -= 1;
    }
    assert(pow16(0) == 1);
    assert(v as nat / 1 == v as nat);
    r
}

pub open spec fn pow16(k: nat) -> nat
    decreases k,
{
    if k == 0 {
        1
    } else {
        16 * pow16((k - 1) as nat)
    }
}

proof fn lemma_pow16_step(v: nat, k: nat)
    ensures
        pow16(k) > 0,
        v / pow16(k + 1) == (v / pow16(k)) / 16,
    decreases k,
{
    if k > 0 {
        lemma_pow16_step(v, (k - 1) as nat);
    }
    let p = pow16(k);
    assert(pow16(k + 1) == 16 * p);
    vstd::arithmetic::div_mod::lemma_div_denominator(v as int, p as int, 16);
}

} // verus!
