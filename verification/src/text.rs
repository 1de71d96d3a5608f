//! Shared text machinery for the timestamp grammars: decimal digit
//! rendering as sequences of characters, and its verified inverse.

use vstd::prelude::*;

verus! {

/// Why a parse failed.
#[derive(Clone, Copy, PartialEq, Eq, Structural, Debug)]
pub enum ParseError {
    /// A field value or the resulting instant is outside its range.
    OutOfRange,
    /// The fields contradict each other or no instant matches them.
    Impossible,
    /// Not all required fields were present.
    NotEnough,
    /// The input does not match the expected grammar.
    Invalid,
    /// The input ended before the grammar was complete.
    TooShort,
    /// Input remained after the grammar was complete.
    TooLong,
    /// The format description itself is unusable.
    BadFormat,
}

/// The decimal digit character for `v` in `[0, 9]`.
pub open spec fn digit_char(v: int) -> char {
    if v == 0 {
        '0'
    } else if v == 1 {
        '1'
    } else if v == 2 {
        '2'
    } else if v == 3 {
        '3'
    } else if v == 4 {
        '4'
    } else if v == 5 {
        '5'
    } else if v == 6 {
        '6'
    } else if v == 7 {
        '7'
    } else if v == 8 {
        '8'
    } else {
        '9'
    }
}

/// Powers of ten.
pub open spec fn pow10(n: nat) -> int
    decreases n,
{
    if n == 0 {
        1
    } else {
        10 * pow10((n - 1) as nat)
    }
}

/// The fixed-width decimal rendering of `v` with `n` digits, most
/// significant first; defined for `0 <= v < pow10(n)`.
pub open spec fn fixed_digits(v: int, n: nat) -> Seq<char>
    decreases n,
{
    if n == 0 {
        Seq::empty()
    } else {
        fixed_digits(v / 10, (n - 1) as nat).push(digit_char(v % 10))
    }
}

/// `fixed_digits` renders `n` characters.
pub proof fn lemma_fixed_digits_len(v: int, n: nat)
    ensures
        fixed_digits(v, n).len() == n,
    decreases n,
{
    if n > 0 {
        lemma_fixed_digits_len(v / 10, (n - 1) as nat);
    }
}

/// Two different values never render to the same digits.
pub proof fn lemma_fixed_digits_injective(v1: int, v2: int, n: nat)
    requires
        0 <= v1 < pow10(n),
        0 <= v2 < pow10(n),
        fixed_digits(v1, n) == fixed_digits(v2, n),
    ensures
        v1 == v2,
    decreases n,
{
    if n > 0 {
        lemma_fixed_digits_len(v1 / 10, (n - 1) as nat);
        lemma_fixed_digits_len(v2 / 10, (n - 1) as nat);
        assert(fixed_digits(v1, n).last() == digit_char(v1 % 10));
        assert(fixed_digits(v2, n).last() == digit_char(v2 % 10));
        vstd::arithmetic::div_mod::lemma_mod_bound(v1, 10);
        vstd::arithmetic::div_mod::lemma_mod_bound(v2, 10);
        assert(v1 % 10 == v2 % 10);
        assert(fixed_digits(v1, n).drop_last() =~= fixed_digits(v1 / 10, (n - 1) as nat));
        assert(fixed_digits(v2, n).drop_last() =~= fixed_digits(v2 / 10, (n - 1) as nat));
        assert(0 <= v1 / 10 < pow10((n - 1) as nat)) by {
            lemma_div_pow10(v1, n);
        }
        assert(0 <= v2 / 10 < pow10((n - 1) as nat)) by {
            lemma_div_pow10(v2, n);
        }
        lemma_fixed_digits_injective(v1 / 10, v2 / 10, (n - 1) as nat);
        vstd::arithmetic::div_mod::lemma_fundamental_div_mod(v1, 10);
        vstd::arithmetic::div_mod::lemma_fundamental_div_mod(v2, 10);
    }
}

/// Dividing by ten steps down one power.
proof fn lemma_div_pow10(v: int, n: nat)
    requires
        n >= 1,
        0 <= v < pow10(n),
    ensures
        0 <= v / 10 < pow10((n - 1) as nat),
{
    vstd::arithmetic::div_mod::lemma_fundamental_div_mod(v, 10);
    vstd::arithmetic::div_mod::lemma_mod_bound(v, 10);
    let q = v / 10;
    assert(pow10(n) == 10 * pow10((n - 1) as nat));
    assert(q < pow10((n - 1) as nat)) by (nonlinear_arith)
        requires
            v == 10 * q + v % 10,
            0 <= v % 10 < 10,
            v < 10 * pow10((n - 1) as nat),
            q >= 0,
    {}
    assert(q >= 0) by {
        vstd::arithmetic::div_mod::lemma_div_pos_is_pos(v, 10);
    }
}

/// Whether `c` is a decimal digit, and its value.
pub open spec fn is_digit_char(c: char) -> bool {
    c == '0' || c == '1' || c == '2' || c == '3' || c == '4' || c == '5' || c == '6' || c == '7'
        || c == '8' || c == '9'
}

pub open spec fn digit_val(c: char) -> int {
    if c == '0' {
        0
    } else if c == '1' {
        1
    } else if c == '2' {
        2
    } else if c == '3' {
        3
    } else if c == '4' {
        4
    } else if c == '5' {
        5
    } else if c == '6' {
        6
    } else if c == '7' {
        7
    } else if c == '8' {
        8
    } else {
        9
    }
}

/// Every character of a fixed-width rendering is a digit, with the
/// expected value chain.
pub proof fn lemma_fixed_digits_chars(v: int, n: nat)
    requires
        0 <= v,
    ensures
        forall|i: int|
            0 <= i < n ==> is_digit_char(#[trigger] fixed_digits(v, n)[i]) && digit_val(
                fixed_digits(v, n)[i],
            ) == v / pow10((n - i - 1) as nat) % 10,
    decreases n,
{
    lemma_fixed_digits_len(v, n);
    if n > 0 {
        vstd::arithmetic::div_mod::lemma_mod_bound(v, 10);
        vstd::arithmetic::div_mod::lemma_div_pos_is_pos(v, 10);
        lemma_fixed_digits_chars(v / 10, (n - 1) as nat);
        lemma_fixed_digits_len(v / 10, (n - 1) as nat);
        assert forall|i: int| 0 <= i < n implies is_digit_char(#[trigger] fixed_digits(v, n)[i])
            && digit_val(fixed_digits(v, n)[i]) == v / pow10((n - i - 1) as nat) % 10 by {
            if i < n - 1 {
                assert(fixed_digits(v, n)[i] == fixed_digits(v / 10, (n - 1) as nat)[i]);
                assert(digit_val(fixed_digits(v, n)[i]) == (v / 10) / pow10((n - 1 - i - 1) as nat)
                    % 10);
                lemma_div_div_pow10(v, (n - 1 - i - 1) as nat);
            } else {
                assert(fixed_digits(v, n)[i] == digit_char(v % 10));
                assert(pow10((n - i - 1) as nat) == 1);
            }
        }
    }
}

/// `v / 10 / pow10(k) == v / pow10(k + 1)`.
proof fn lemma_div_div_pow10(v: int, k: nat)
    requires
        0 <= v,
    ensures
        (v / 10) / pow10(k) == v / pow10((k + 1) as nat),
{
    lemma_pow10_pos(k);
    vstd::arithmetic::div_mod::lemma_div_denominator(v, 10, pow10(k));
    assert(pow10((k + 1) as nat) == 10 * pow10(k));
}

pub proof fn lemma_pow10_pos(n: nat)
    ensures
        pow10(n) >= 1,
    decreases n,
{
    if n > 0 {
        lemma_pow10_pos((n - 1) as nat);
    }
}

/// Convert a string to its characters, so that parsers can index freely.
pub fn str_to_chars(s: &str) -> (r: Vec<char>)
    ensures
        r@ == s@,
{
    let n = s.unicode_len();
    let mut v: Vec<char> = Vec::new();
    let mut i: usize = 0;
    while i < n
        invariant
            i <= n,
            n == s@.len(),
            v@ =~= s@.subrange(0, i as int),
        decreases n - i,
    {
        let c = s.get_char(i);
        v.push(c);
        proof {
            assert(v@ =~= s@.subrange(0, i + 1));
        }
        i = i + 1;
    }
    proof {
        assert(v@ =~= s@);
    }
    v
}

/// Read `n` digits at position `pos`; the result is exact in both
/// directions: a value comes back exactly when those characters are the
/// fixed-width rendering of that value.
pub fn read_digits(s: &Vec<char>, pos: usize, n: usize) -> (r: Option<u32>)
    requires
        pos + n <= s@.len(),
        n <= 9,
    ensures
        match r {
            Some(v) => v < pow10(n as nat) && s@.subrange(pos as int, pos + n) == fixed_digits(
                v as int,
                n as nat,
            ),
            None => exists|j: int| pos <= j < pos + n && !is_digit_char(#[trigger] s@[j]),
        },
{
    let mut acc: u32 = 0;
    let mut i: usize = 0;
    let slen = s.len();
    proof {
        lemma_pow10_pos(n as nat);
        assert(fixed_digits(0, 0) =~= s@.subrange(pos as int, pos as int));
        lemma_pow10_bound(n as nat);
    }
    while i < n
        invariant
            i <= n,
            n <= 9,
            pos + n <= s@.len(),
            slen == s@.len(),
            acc < pow10(i as nat),
            pow10(n as nat) <= 1000000000,
            s@.subrange(pos as int, pos + i) == fixed_digits(acc as int, i as nat),
        decreases n - i,
    {
        let c = s[pos + i];
        let d: u32 = if c == '0' {
            0
        } else if c == '1' {
            1
        } else if c == '2' {
            2
        } else if c == '3' {
            3
        } else if c == '4' {
            4
        } else if c == '5' {
            5
        } else if c == '6' {
            6
        } else if c == '7' {
            7
        } else if c == '8' {
            8
        } else if c == '9' {
            9
        } else {
            proof {
                assert(!is_digit_char(s@[pos + i]));
            }
            return None;
        };
        proof {
            lemma_pow10_mono((i + 1) as nat, n as nat);
            assert(pow10((i + 1) as nat) == 10 * pow10(i as nat));
            vstd::arithmetic::div_mod::lemma_fundamental_div_mod_converse(
                acc * 10 + d,
                10,
                acc as int,
                d as int,
            );
            assert(fixed_digits(acc * 10 + d, (i + 1) as nat) == fixed_digits(
                acc as int,
                i as nat,
            ).push(digit_char(d as int)));
            assert(s@.subrange(pos as int, pos + i + 1) =~= s@.subrange(pos as int, pos
                + i).push(s@[pos + i]));
            assert(s@[pos + i] == digit_char(d as int));
        }
        acc = acc * 10 + d;
        i = i + 1;
    }
    Some(acc)
}

/// `pow10` is monotone.
pub proof fn lemma_pow10_mono(a: nat, b: nat)
    requires
        a <= b,
    ensures
        pow10(a) <= pow10(b),
    decreases b,
{
    if a < b {
        lemma_pow10_mono(a, (b - 1) as nat);
        lemma_pow10_pos((b - 1) as nat);
    }
}

/// Small powers of ten stay below ten to the ninth.
pub proof fn lemma_pow10_bound(n: nat)
    requires
        n <= 9,
    ensures
        pow10(n) <= 1000000000,
{
    lemma_pow10_mono(n, 9);
    reveal_with_fuel(pow10, 10);
    assert(pow10(9) == 1000000000);
}

/// Append the fixed-width decimal rendering of `v` to a string.
pub fn push_digits(out: &mut String, v: u32, n: usize) -> (ok: bool)
    requires
        n <= 9,
        v < pow10(n as nat),
    ensures
        ok,
        final(out)@ == old(out)@ + fixed_digits(v as int, n as nat),
{
    let mut rev: Vec<u32> = Vec::new();
    let mut x = v;
    let mut i: usize = 0;
    proof {
        lemma_pow10_bound(n as nat);
    }
    while i < n
        invariant
            i <= n,
            n <= 9,
            v < pow10(n as nat),
            pow10(n as nat) <= 1000000000,
            rev@.len() == i,
            x < pow10((n - i) as nat),
            x == divpow(v as int, i as nat),
            forall|j: int| 0 <= j < i ==> #[trigger] rev@[j] == divpow(v as int, j as nat) % 10,
        decreases n - i,
    {
        proof {
            vstd::arithmetic::div_mod::lemma_mod_bound(x as int, 10);
            vstd::arithmetic::div_mod::lemma_div_pos_is_pos(x as int, 10);
            lemma_div_pow10_general(v as int, i as nat, (n - i) as nat);
        }
        let d = x % 10;
        rev.push(d);
        x = x / 10;
        i = i + 1;
    }
    let mut k: usize = n;
    proof {
        lemma_fixed_digits_len(v as int, n as nat);
        assert(fixed_digits(v as int, n as nat).subrange(0, 0) =~= Seq::<char>::empty());
        assert(old(out)@ + fixed_digits(v as int, n as nat).subrange(0, 0) =~= old(out)@);
    }
    while k > 0
        invariant
            k <= n,
            n <= 9,
            v < pow10(n as nat),
            rev@.len() == n,
            forall|j: int| 0 <= j < n ==> #[trigger] rev@[j] == divpow(v as int, j as nat) % 10,
            out@ == old(out)@ + fixed_digits(v as int, n as nat).subrange(0, n - k),
        decreases k,
    {
        let d = rev[k - 1];
        proof {
            vstd::arithmetic::div_mod::lemma_mod_bound(divpow(v as int, (k - 1) as nat), 10);
            lemma_fixed_digits_chars(v as int, n as nat);
            lemma_fixed_digits_len(v as int, n as nat);
            lemma_divpow_is_div_pow10(v as int, (k - 1) as nat);
            assert(fixed_digits(v as int, n as nat)[n - k] == digit_char(
                divpow(v as int, (k - 1) as nat) % 10,
            ));
        }
        push_digit_char(out, d as u8);
        proof {
            assert(out@ =~= old(out)@ + fixed_digits(v as int, n as nat).subrange(0, n - k + 1));
        }
        k = k - 1;
    }
    proof {
        assert(fixed_digits(v as int, n as nat).subrange(0, n as int) =~= fixed_digits(
            v as int,
            n as nat,
        ));
    }
    true
}

/// Repeated division by ten.
pub open spec fn divpow(v: int, i: nat) -> int
    decreases i,
{
    if i == 0 {
        v
    } else {
        divpow(v, (i - 1) as nat) / 10
    }
}

proof fn lemma_divpow_is_div_pow10(v: int, i: nat)
    requires
        v >= 0,
    ensures
        divpow(v, i) == v / pow10(i),
    decreases i,
{
    if i == 0 {
    } else {
        lemma_divpow_is_div_pow10(v, (i - 1) as nat);
        lemma_pow10_pos((i - 1) as nat);
        vstd::arithmetic::div_mod::lemma_div_denominator(v, pow10((i - 1) as nat), 10);
        assert(pow10(i) == 10 * pow10((i - 1) as nat));
        assert(pow10((i - 1) as nat) * 10 == 10 * pow10((i - 1) as nat)) by (nonlinear_arith) {}
    }
}

/// `v / pow10(i) / 10` stays under `pow10(k - 1)` when `v / pow10(i)`
/// is under `pow10(k)`.
proof fn lemma_div_pow10_general(v: int, i: nat, k: nat)
    requires
        v >= 0,
        k >= 1,
        divpow(v, i) < pow10(k),
    ensures
        divpow(v, (i + 1) as nat) < pow10((k - 1) as nat),
        divpow(v, (i + 1) as nat) >= 0,
{
    lemma_divpow_nonneg(v, i);
    let x = divpow(v, i);
    assert(divpow(v, (i + 1) as nat) == x / 10);
    lemma_div_pow10(x, k);
}

proof fn lemma_divpow_nonneg(v: int, i: nat)
    requires
        v >= 0,
    ensures
        divpow(v, i) >= 0,
    decreases i,
{
    if i > 0 {
        lemma_divpow_nonneg(v, (i - 1) as nat);
        vstd::arithmetic::div_mod::lemma_div_pos_is_pos(divpow(v, (i - 1) as nat), 10);
    }
}

/// Append one digit character to a string.
fn push_digit_char(out: &mut String, d: u8) -> (ok: bool)
    requires
        d < 10,
    ensures
        ok,
        final(out)@ == old(out)@ + seq![digit_char(d as int)],
{
    let s: &str = if d == 0 {
        "0"
    } else if d == 1 {
        "1"
    } else if d == 2 {
        "2"
    } else if d == 3 {
        "3"
    } else if d == 4 {
        "4"
    } else if d == 5 {
        "5"
    } else if d == 6 {
        "6"
    } else if d == 7 {
        "7"
    } else if d == 8 {
        "8"
    } else {
        "9"
    };
    proof {
        reveal_strlit("0");
        reveal_strlit("1");
        reveal_strlit("2");
        reveal_strlit("3");
        reveal_strlit("4");
        reveal_strlit("5");
        reveal_strlit("6");
        reveal_strlit("7");
        reveal_strlit("8");
        reveal_strlit("9");
    }
    out.append(s);
    proof {
        assert(s@ =~= seq![digit_char(d as int)]);
    }
    true
}


/// Ten to the `n`, as executable code.
pub fn pow10_x(n: usize) -> (r: u32)
    requires
        n <= 9,
    ensures
        r == pow10(n as nat),
{
    proof {
        reveal_with_fuel(pow10, 10);
    }
    if n == 0 {
        1
    } else if n == 1 {
        10
    } else if n == 2 {
        100
    } else if n == 3 {
        1000
    } else if n == 4 {
        10000
    } else if n == 5 {
        100000
    } else if n == 6 {
        1000000
    } else if n == 7 {
        10000000
    } else if n == 8 {
        100000000
    } else {
        1000000000
    }
}

/// Whether a character is a decimal digit.
pub fn is_digit(c: char) -> (r: bool)
    ensures
        r == is_digit_char(c),
{
    c == '0' || c == '1' || c == '2' || c == '3' || c == '4' || c == '5' || c == '6' || c == '7'
        || c == '8' || c == '9'
}

/// The length of the digit run starting at `pos`.
pub fn count_digits(s: &Vec<char>, pos: usize) -> (r: usize)
    requires
        pos <= s@.len(),
    ensures
        pos + r <= s@.len(),
        forall|j: int| pos <= j < pos + r ==> is_digit_char(#[trigger] s@[j]),
        pos + r == s@.len() || !is_digit_char(s@[pos + r]),
{
    let n = s.len();
    let mut i = pos;
    while i < n
        invariant
            pos <= i <= n,
            n == s@.len(),
            forall|j: int| pos <= j < i ==> is_digit_char(#[trigger] s@[j]),
        decreases n - i,
    {
        if !is_digit(s[i]) {
            return i - pos;
        }
        i = i + 1;
    }
    n - pos
}

/// Append a single known character to a string.
pub(crate) fn push_lit(out: &mut String, s: &str, c: Ghost<char>)
    requires
        s@ == seq![c@],
    ensures
        final(out)@ == old(out)@ + seq![c@],
{
    out.append(s);
}

} // verus!
