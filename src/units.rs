//! Human-readable byte counts in base-1024 units, and their inverse.
#![allow(non_snake_case)]

use vstd::prelude::*;
use crate::text::{
    char_digit, decimal_text, digit_char, lemma_pow10_le, lemma_pow10_positive, nat_text, padded_text,
    lemma_pow10_add, pow10, pow10_exec, push_decimal, push_nat, same_text, trim_zeros,
};

verus! {

/// 1024 to the power `k`.
pub open spec fn kib(k: nat) -> nat
    decreases k,
{
    if k == 0 { 1 } else { 1024 * kib((k - 1) as nat) }
}

/// How many times a byte count is scaled by 1024 before it is shown: the largest
/// unit in which its value is at least one, tebibytes at most.
pub open spec fn unit_steps(n: nat) -> nat {
    if n < kib(1) { 0 }
    else if n < kib(2) { 1 }
    else if n < kib(3) { 2 }
    else if n < kib(4) { 3 }
    else { 4 }
}

/// Scalings of the unit shown: sizes start at bytes, transfer rates at
/// kibibytes (a rate under 1024 bytes a second is shown as a fraction of a
/// kibibyte).
pub open spec fn shown_steps(n: nat, speed: bool) -> nat {
    if speed && unit_steps(n) == 0 { 1 } else { unit_steps(n) }
}

/// Name of the unit reached after `k` scalings.
pub open spec fn unit_label(k: nat) -> Seq<char> {
    if k == 0 { "B"@ }
    else if k == 1 { "KiB"@ }
    else if k == 2 { "MiB"@ }
    else if k == 3 { "GiB"@ }
    else { "TiB"@ }
}

/// Whether the scaled value is rounded to two decimals: from the gibibyte on for a
/// size, from the mebibyte on for a transfer rate.
pub open spec fn is_rounded(k: nat, speed: bool) -> bool {
    if speed { k >= 2 } else { k >= 3 }
}

/// Decimals kept: two where rounded, else all of them (a value scaled `k` times by
/// 1024 has at most `10 * k`).
pub open spec fn size_decimals(k: nat, speed: bool) -> nat {
    if is_rounded(k, speed) { 2 } else { 10 * k }
}

/// `a / b` rounded to the nearest integer, halves upward.
pub open spec fn round_div(a: nat, b: nat) -> nat {
    (2 * a + b) / (2 * b)
}

/// The human-readable text of `n` bytes (`speed` picks the rate variant).
pub open spec fn size_text(n: nat, speed: bool) -> Seq<char> {
    let k = shown_steps(n, speed);
    if k == 0 {
        nat_text(n) + " B"@
    } else {
        let d = size_decimals(k, speed);
        decimal_text(round_div(n * pow10(d), kib(k)), d) + " "@ + unit_label(k)
    }
}

pub(crate) proof fn lemma_kib_values()
    ensures
        kib(1) == 1024,
        kib(2) == 1048576,
        kib(3) == 1073741824,
        kib(4) == 1099511627776,
{
    assert(kib(0) == 1);
    assert(kib(1) == 1024);
    assert(kib(2) == 1048576);
    assert(kib(3) == 1073741824);
    assert(kib(4) == 1099511627776);
}

pub(crate) proof fn lemma_pow10_values()
    ensures
        pow10(2) == 100,
        pow10(10) == 10000000000,
        pow10(20) == 100000000000000000000,
{
    lemma_pow10_le(0, 0);
    assert(pow10(0) == 1);
    assert(pow10(1) == 10);
    assert(pow10(2) == 100);
    assert(pow10(3) == 1000);
    assert(pow10(4) == 10000);
    assert(pow10(5) == 100000);
    assert(pow10(6) == 1000000);
    assert(pow10(7) == 10000000);
    assert(pow10(8) == 100000000);
    assert(pow10(9) == 1000000000);
    assert(pow10(10) == 10000000000);
    assert(pow10(11) == 100000000000);
    assert(pow10(12) == 1000000000000);
    assert(pow10(13) == 10000000000000);
    assert(pow10(14) == 100000000000000);
    assert(pow10(15) == 1000000000000000);
    assert(pow10(16) == 10000000000000000);
    assert(pow10(17) == 100000000000000000);
    assert(pow10(18) == 1000000000000000000);
    assert(pow10(19) == 10000000000000000000);
    assert(pow10(20) == 100000000000000000000);
}

/// Pushes the name of the unit reached after `k` scalings.
fn push_unit(s: &mut String, k: u32)
    requires
        k <= 4,
    ensures
        final(s)@ == old(s)@ + unit_label(k as nat),
{
    if k == 0 {
        s.append("B");
    } else if k == 1 {
        s.append("KiB");
    } else if k == 2 {
        s.append("MiB");
    } else if k == 3 {
        s.append("GiB");
    } else {
        s.append("TiB");
    }
}

/// Renders a byte count with base-1024 units: `input_type` "speed" selects the
/// transfer-rate variant (from kibibytes on, rounded from mebibytes on), any
/// other text the size variant (from bytes on, rounded from gibibytes on).
pub fn humanReadableSize(size: u64, input_type: &str) -> (r: String)
    ensures
        r@ == size_text(size as nat, input_type@ == "speed"@),
{
    let speed = same_text(input_type, "speed");
    proof {
        lemma_kib_values();
        lemma_pow10_values();
    }
    let mut r = String::new();
    if size < 1024 && !speed {
        push_nat(&mut r, size as u128);
        r.append(" B");
        proof {
            reveal_strlit(" B");
        }
        return r;
    }
    let (k, scale): (u32, u128) = if size < 1048576 {
        (1, 1024)
    } else if size < 1073741824 {
        (2, 1048576)
    } else if size < 1099511627776 {
        (3, 1073741824)
    } else {
        (4, 1099511627776)
    };
    assert(k as nat == shown_steps(size as nat, speed));
    assert(scale as nat == kib(k as nat));
    let rounded = if speed { k >= 2 } else { k >= 3 };
    let d: u32 = if rounded { 2 } else { 10 * k };
    let p = pow10_exec(d);
    assert(p as nat == pow10(size_decimals(k as nat, speed)));
    proof {
        if !rounded {
            assert(d <= 20);
            assert(size < 1073741824);
            lemma_pow10_le(d as nat, 20);
            assert(size as nat * p <= 1073741824 * 100000000000000000000nat) by (nonlinear_arith)
                requires
                    size < 1073741824,
                    p <= 100000000000000000000nat,
            ;
        } else {
            assert(size as nat * p <= 18446744073709551615nat * 100) by (nonlinear_arith)
                requires
                    size <= 18446744073709551615nat,
                    p == 100,
            ;
        }
    }
    let q = (2 * (size as u128 * p) + scale) / (2 * scale);
    push_decimal(&mut r, q, d);
    r.append(" ");
    push_unit(&mut r, k);
    proof {
        reveal_strlit(" ");
        reveal_strlit("B");
        reveal_strlit("KiB");
        reveal_strlit("MiB");
        reveal_strlit("GiB");
        reveal_strlit("TiB");
        assert(r@ =~= size_text(size as nat, speed));
    }
    r
}


/// Whether every character is a decimal digit.
pub open spec fn all_digits(s: Seq<char>) -> bool {
    forall|i: int| 0 <= i < s.len() ==> (#[trigger] char_digit(s[i])).is_some()
}

proof fn lemma_digit_char(x: nat)
    requires
        x < 10,
    ensures
        char_digit(digit_char(x)) == Some(x),
        digit_char(x) != '.',
{
}

/// The decimal text of a number is all digits, at most `k` of them for a number
/// below `10^k`, and reads back as the number.
pub proof fn lemma_nat_text_reads(n: nat, k: nat)
    requires
        n < pow10(k),
    ensures
        all_digits(nat_text(n)),
        digits_value(nat_text(n)) == n,
        1 <= nat_text(n).len() <= if k == 0 { 1 } else { k },
        forall|i: int| 0 <= i < nat_text(n).len() ==> nat_text(n)[i] != '.',
    decreases n,
{
    lemma_digit_char(n % 10);
    if n < 10 {
        let s = nat_text(n);
        assert(s.drop_last() =~= Seq::<char>::empty());
        assert(s.last() == digit_char(n));
        assert(n % 10 == n);
        assert(digits_value(Seq::<char>::empty()) == 0);
        assert(digits_value(s) == n);
        assert(all_digits(s)) by {
            assert forall|i: int| 0 <= i < s.len() implies (#[trigger] char_digit(s[i])).is_some() by {
                assert(s[i] == digit_char(n));
            }
        }
    } else {
        assert(k >= 2) by {
            if k == 0 {
                assert(pow10(0) == 1);
            } else if k == 1 {
                assert(pow10(1) == 10) by {
                    assert(pow10(0) == 1);
                }
            }
        }
        let k1 = (k - 1) as nat;
        assert(n / 10 < pow10(k1)) by {
            assert(pow10(k) == 10 * pow10(k1));
            assert(n / 10 < pow10(k1)) by (nonlinear_arith)
                requires
                    n < 10 * pow10(k1),
            ;
        }
        lemma_nat_text_reads(n / 10, k1);
        let p = nat_text(n / 10);
        let s = nat_text(n);
        assert(s == p.push(digit_char(n % 10)));
        assert(s.drop_last() =~= p);
        assert(all_digits(s)) by {
            assert forall|i: int| 0 <= i < s.len() implies (#[trigger] char_digit(s[i])).is_some() by {
                if i < p.len() {
                    assert(s[i] == p[i]);
                    assert(char_digit(p[i]).is_some());
                }
            }
        }
        assert forall|i: int| 0 <= i < s.len() implies s[i] != '.' by {
            if i < p.len() {
                assert(s[i] == p[i]);
            }
        }
        assert(digits_value(s) == (n / 10) * 10 + n % 10);
    }
}

/// Zero-padded digits read back as the number they pad.
pub proof fn lemma_padded_reads(f: nat, d: nat)
    requires
        f < pow10(d),
    ensures
        all_digits(padded_text(f, d)),
        digits_value(padded_text(f, d)) == f,
        padded_text(f, d).len() == d,
    decreases d,
{
    if d > 0 {
        let d1 = (d - 1) as nat;
        assert(f / 10 < pow10(d1)) by {
            assert(pow10(d) == 10 * pow10(d1));
            assert(f / 10 < pow10(d1)) by (nonlinear_arith)
                requires
                    f < 10 * pow10(d1),
            ;
        }
        lemma_padded_reads(f / 10, d1);
        lemma_digit_char(f % 10);
        let p = padded_text(f / 10, d1);
        let s = padded_text(f, d);
        assert(s.drop_last() =~= p);
        assert(s.last() == digit_char(f % 10));
        assert(all_digits(s)) by {
            assert forall|i: int| 0 <= i < s.len() implies (#[trigger] char_digit(s[i])).is_some() by {
                if i < p.len() {
                    assert(s[i] == p[i]);
                    assert(char_digit(p[i]).is_some());
                }
            }
        }
    } else {
        assert(f == 0) by {
            assert(pow10(0) == 1);
        }
    }
}

proof fn lemma_find_char_skips(s: Seq<char>, c: char, i: nat)
    requires
        i <= s.len(),
        forall|j: int| i <= j < s.len() ==> s[j] != c,
    ensures
        find_char(s, c, i) == -1,
    decreases s.len() - i,
{
    if i < s.len() {
        lemma_find_char_skips(s, c, i + 1);
    }
}

proof fn lemma_find_char_at(s: Seq<char>, c: char, i: nat, k: nat)
    requires
        i <= k < s.len(),
        s[k as int] == c,
        forall|j: int| i <= j < k ==> s[j] != c,
    ensures
        find_char(s, c, i) == k,
    decreases k - i,
{
    if i < k {
        lemma_find_char_at(s, c, i + 1, k);
    }
}

/// How the text of `q / 10^d` reads back as a number: its integer part, and
/// digits whose value over their power of ten is the fraction.
pub proof fn lemma_decimal_text_reads(q: nat, d: nat)
    requires
        1 <= d <= 20,
        q / pow10(d) < pow10(20),
    ensures
        number_parts(decimal_text(q, d)) is Some,
        ({
            let (i, f, e) = number_parts(decimal_text(q, d)).unwrap();
            i == q / pow10(d) && e <= d && f * pow10((d - e) as nat) == q % pow10(d)
        }),
{
    lemma_pow10_positive(d);
    let ip = q / pow10(d);
    let fr = q % pow10(d);
    lemma_nat_text_reads(ip, 20);
    let a = nat_text(ip);
    if fr == 0 {
        lemma_find_char_skips(a, '.', 0);
        assert(decimal_text(q, d) == a);
        assert(pow10((d - 0) as nat) == pow10(d));
    } else {
        let (f2, d2) = trim_zeros(fr, d);
        lemma_trim_zeros(fr, d);
        lemma_padded_reads(f2, d2);
        let b = padded_text(f2, d2);
        let s = a + seq!['.'] + b;
        assert(decimal_text(q, d) == s);
        assert(s[a.len() as int] == '.');
        assert forall|j: int| 0 <= j < a.len() implies s[j] != '.' by {
            assert(s[j] == a[j]);
        }
        lemma_find_char_at(s, '.', 0, a.len());
        assert(s.subrange(0, a.len() as int) =~= a);
        assert(s.subrange(a.len() as int + 1, s.len() as int) =~= b);
    }
}

/// Dropping trailing zeros keeps the value of a fraction.
pub proof fn lemma_trim_zeros(f: nat, d: nat)
    requires
        0 < f < pow10(d),
    ensures
        trim_zeros(f, d).1 <= d,
        trim_zeros(f, d).0 < pow10(trim_zeros(f, d).1),
        trim_zeros(f, d).0 * pow10((d - trim_zeros(f, d).1) as nat) == f,
        1 <= trim_zeros(f, d).1,
    decreases d,
{
    if d > 0 && f % 10 == 0 {
        let d1 = (d - 1) as nat;
        assert(pow10(d) == 10 * pow10(d1));
        assert(0 < f / 10 < pow10(d1)) by (nonlinear_arith)
            requires
                0 < f < 10 * pow10(d1),
                f % 10 == 0,
        ;
        lemma_trim_zeros(f / 10, d1);
        let (g, e) = trim_zeros(f / 10, d1);
        assert(trim_zeros(f, d) == (g, e));
        assert(pow10((d - e) as nat) == 10 * pow10((d1 - e) as nat)) by {
            assert((d - e) as nat == ((d1 - e) as nat) + 1);
        }
        assert(g * pow10((d - e) as nat) == (g * pow10((d1 - e) as nat)) * 10) by (nonlinear_arith)
            requires
                pow10((d - e) as nat) == 10 * pow10((d1 - e) as nat),
        ;
    } else {
        if d == 0 {
            assert(pow10(0) == 1);
        }
        assert(pow10(0) == 1);
        assert((d - d) as nat == 0);
    }
}

proof fn lemma_mul_div_exact(k: nat, p: nat, big: nat)
    requires
        p > 0,
        big > 0,
    ensures
        (2 * (k * big * p) + big) / (2 * big) == k * p,
        (k * p) / p == k,
        (k * p) % p == 0,
{
    assert((2 * (k * big * p) + big) / (2 * big) == k * p) by (nonlinear_arith)
        requires
            p > 0,
            big > 0,
    ;
    assert((k * p) / p == k && (k * p) % p == 0) by (nonlinear_arith)
        requires
            p > 0,
    ;
}

/// Reading back `k` followed by a unit suffix of `l` characters.
proof fn lemma_reads_count(k: nat, s: Seq<char>, l: nat)
    requires
        k < 1024,
        l <= s.len(),
        s.subrange(0, s.len() - l) == nat_text(k),
    ensures
        number_parts(s.subrange(0, s.len() - l)) == Some((k, 0nat, 0nat)),
{
    lemma_pow10_values();
    lemma_pow10_le(4, 20);
    assert(pow10(4) == 10000) by {
        assert(pow10(3) == 1000);
    }
    lemma_nat_text_reads(k, 4);
    let t = nat_text(k);
    lemma_find_char_skips(t, '.', 0);
}

/// A count of whole units, below 1024 of them (for a size, also any count of
/// bytes below 1024), is shown without a fraction and reads back as exactly that
/// many bytes.
pub proof fn lemma_whole_units_read_back(k: nat, u: nat, speed: bool)
    requires
        u <= 4,
        k < 1024,
        u > 0 ==> k >= 1,
        u == 0 ==> !speed,
    ensures
        size_bytes(size_text(k * kib(u), speed)) == Some(k * kib(u)),
{
    lemma_kib_values();
    lemma_pow10_values();
    reveal_strlit(" B");
    reveal_strlit(" KiB");
    reveal_strlit(" MiB");
    reveal_strlit(" GiB");
    reveal_strlit(" TiB");
    reveal_strlit(" ");
    reveal_strlit("B");
    reveal_strlit("KiB");
    reveal_strlit("MiB");
    reveal_strlit("GiB");
    reveal_strlit("TiB");
    let n = k * kib(u);
    assert(kib(0) == 1);
    assert(unit_steps(n) == u) by {
        if u == 0 {
            assert(n == k) by (nonlinear_arith) requires n == k * kib(u), kib(u) == 1;
        } else if u == 1 {
            assert(1024 <= n < 1048576) by (nonlinear_arith) requires n == k * 1024, 1 <= k < 1024;
        } else if u == 2 {
            assert(1048576 <= n < 1073741824) by (nonlinear_arith) requires n == k * 1048576, 1 <= k < 1024;
        } else if u == 3 {
            assert(1073741824 <= n < 1099511627776) by (nonlinear_arith) requires n == k * 1073741824, 1 <= k < 1024;
        } else {
            assert(1099511627776 <= n) by (nonlinear_arith) requires n == k * 1099511627776, 1 <= k;
        }
    }
    let t = nat_text(k);
    if u == 0 {
        assert(n == k) by (nonlinear_arith) requires n == k * kib(u), kib(u) == 1;
        let s = size_text(n, speed);
        assert(s == t + " B"@);
        assert(s.subrange(s.len() - 2, s.len() as int) =~= " B"@);
        assert(s.subrange(0, s.len() - 2) =~= t);
        lemma_reads_count(k, s, 2);
        assert(pow10(0) == 1);
        assert(unit_suffix(s) == Some((0nat, 2nat)));
        assert(number_parts(s.subrange(0, s.len() - 2)) == Some((k, 0nat, 0nat)));
        assert(k * kib(0) + round_div(0nat * kib(0), pow10(0)) == k) by (nonlinear_arith)
            requires
                kib(0) == 1,
                pow10(0) == 1,
        ;
    } else {
        let d = size_decimals(u, speed);
        let p = pow10(d);
        lemma_pow10_positive(d);
        lemma_mul_div_exact(k, p, kib(u));
        assert(n * p == k * kib(u) * p) by (nonlinear_arith) requires n == k * kib(u);
        assert(round_div(n * p, kib(u)) == k * p);
        assert(decimal_text(k * p, d) == t);
        let s = size_text(n, speed);
        let label = unit_label(u);
        assert(s == t + " "@ + label);
        assert(s.subrange(0, s.len() - 4) =~= t);
        assert(s.subrange(s.len() - 4, s.len() as int) =~= " "@ + label);
        assert(s.subrange(s.len() - 2, s.len() as int) =~= label.subrange(1, 3));
        assert(label.subrange(1, 3) != " B"@) by {
            assert(label.subrange(1, 3)[0] == label[1]);
        }
        lemma_reads_count(k, s, 4);
        {
            assert(pow10(0) == 1);
            assert(0nat * kib(u) == 0) by (nonlinear_arith);
            assert(round_div(0nat * kib(u), pow10(0)) == 0) by (nonlinear_arith)
                requires
                    pow10(0) == 1,
                    0nat * kib(u) == 0,
            ;
        }
        assert(" KiB"@[1] == 'K' && " MiB"@[1] == 'M' && " GiB"@[1] == 'G' && " TiB"@[1] == 'T');
        assert(s.subrange(s.len() - 4, s.len() as int)[1] == label[0]);
        if u == 1 {
            assert(" "@ + "KiB"@ =~= " KiB"@);
        } else if u == 2 {
            assert(" "@ + "MiB"@ =~= " MiB"@);
        } else if u == 3 {
            assert(" "@ + "GiB"@ =~= " GiB"@);
        } else {
            assert(" "@ + "TiB"@ =~= " TiB"@);
        }
        assert(unit_suffix(s) == Some((u, 4nat)));
        assert(number_parts(s.subrange(0, s.len() - 4)) == Some((k, 0nat, 0nat)));
        assert(size_bytes(s) == Some(n));
    }
}

/// The text of `q / 10^d` followed by the name of unit `k` reads as the number
/// times the unit.
proof fn lemma_unit_text_reads(q: nat, d: nat, k: nat)
    requires
        1 <= k <= 4,
        1 <= d <= 20,
        q / pow10(d) < pow10(20),
    ensures
        number_parts(decimal_text(q, d)) is Some,
        ({
            let (i, f, e) = number_parts(decimal_text(q, d)).unwrap();
            size_bytes(decimal_text(q, d) + " "@ + unit_label(k))
                == Some(i * kib(k) + round_div(f * kib(k), pow10(e)))
        }),
{
    reveal_strlit(" B");
    reveal_strlit(" KiB");
    reveal_strlit(" MiB");
    reveal_strlit(" GiB");
    reveal_strlit(" TiB");
    reveal_strlit(" ");
    reveal_strlit("KiB");
    reveal_strlit("MiB");
    reveal_strlit("GiB");
    reveal_strlit("TiB");
    lemma_decimal_text_reads(q, d);
    let label = unit_label(k);
    let s = decimal_text(q, d) + " "@ + label;
    assert(s.subrange(0, s.len() - 4) =~= decimal_text(q, d));
    assert(s.subrange(s.len() - 4, s.len() as int) =~= " "@ + label);
    assert(s.subrange(s.len() - 2, s.len() as int) =~= label.subrange(1, 3));
    assert(label.subrange(1, 3) != " B"@) by {
        assert(label.subrange(1, 3)[0] == label[1]);
    }
    assert(" KiB"@[1] == 'K' && " MiB"@[1] == 'M' && " GiB"@[1] == 'G' && " TiB"@[1] == 'T');
    assert(s.subrange(s.len() - 4, s.len() as int)[1] == label[0]);
    if k == 1 {
        assert(" "@ + "KiB"@ =~= " KiB"@);
    } else if k == 2 {
        assert(" "@ + "MiB"@ =~= " MiB"@);
    } else if k == 3 {
        assert(" "@ + "GiB"@ =~= " GiB"@);
    } else {
        assert(" "@ + "TiB"@ =~= " TiB"@);
    }
    assert(unit_suffix(s) == Some((k, 4nat)));
}

/// Rounding to `d` decimals in unit `big`, then reading back and rounding to a
/// whole byte, moves a count `n` by at most `(p + big) / (2 * p)`.
proof fn lemma_round_trip_bound(n: nat, p: nat, big: nat, q: nat, i: nat, f: nat, ee: nat, m: nat)
    requires
        p >= 1,
        big >= 1,
        ee >= 1,
        m >= 1,
        ee * m == p,
        q == round_div(n * p, big),
        i == q / p,
        f * m == q % p,
    ensures
        ({
            let v = i * big + round_div(f * big, ee);
            &&& 2 * p * v <= 2 * p * n + p + big
            &&& 2 * p * n <= 2 * p * v + p + big
        }),
{
    let r = round_div(f * big, ee);
    let v = i * big + r;
    assert(2 * big * q <= 2 * (n * p) + big && 2 * (n * p) + big < 2 * big * q + 2 * big) by (nonlinear_arith)
        requires
            q == (2 * (n * p) + big) / (2 * big),
            big >= 1,
    ;
    assert(2 * ee * r <= 2 * (f * big) + ee && 2 * (f * big) + ee < 2 * ee * r + 2 * ee) by (nonlinear_arith)
        requires
            r == (2 * (f * big) + ee) / (2 * ee),
            ee >= 1,
    ;
    assert(2 * r * p <= 2 * big * (q % p) + p && 2 * big * (q % p) < 2 * r * p + p) by (nonlinear_arith)
        requires
            2 * ee * r <= 2 * (f * big) + ee,
            2 * (f * big) + ee < 2 * ee * r + 2 * ee,
            ee * m == p,
            f * m == q % p,
            m >= 1,
    ;
    assert(i * p + q % p == q) by (nonlinear_arith)
        requires
            i == q / p,
            p >= 1,
    ;
    assert(2 * p * v <= 2 * big * q + p && 2 * big * q < 2 * p * v + p) by (nonlinear_arith)
        requires
            v == i * big + r,
            2 * r * p <= 2 * big * (q % p) + p,
            2 * big * (q % p) < 2 * r * p + p,
            i * p + q % p == q,
    ;
    assert(2 * p * v <= 2 * p * n + p + big && 2 * p * n <= 2 * p * v + p + big) by (nonlinear_arith)
        requires
            2 * p * v <= 2 * big * q + p,
            2 * big * q < 2 * p * v + p,
            2 * big * q <= 2 * (n * p) + big,
            2 * (n * p) + big < 2 * big * q + 2 * big,
    ;
}

/// Every byte count's text reads back within the text's rounding: the result
/// `v` differs from `n` by at most half a byte plus half of the last decimal
/// shown (`kib(k) / (2 * 10^d)`); where the unit is not rounded, `v` is `n`.
pub proof fn lemma_size_reads_back(n: nat, speed: bool)
    requires
        n <= u64::MAX,
    ensures
        size_bytes(size_text(n, speed)) is Some,
        ({
            let v = size_bytes(size_text(n, speed)).unwrap();
            let k = shown_steps(n, speed);
            let p = pow10(size_decimals(k, speed));
            &&& 2 * p * v <= 2 * p * n + p + kib(k)
            &&& 2 * p * n <= 2 * p * v + p + kib(k)
        }),
        !is_rounded(shown_steps(n, speed), speed) ==> size_bytes(size_text(n, speed)) == Some(n),
{
    lemma_kib_values();
    lemma_pow10_values();
    assert(kib(0) == 1);
    let k = shown_steps(n, speed);
    let d = size_decimals(k, speed);
    let p = pow10(d);
    let big = kib(k);
    if k == 0 {
        reveal_strlit(" B");
        assert(n < 1024);
        let s = size_text(n, speed);
        let t = nat_text(n);
        assert(s == t + " B"@);
        assert(s.subrange(s.len() - 2, s.len() as int) =~= " B"@);
        assert(s.subrange(0, s.len() - 2) =~= t);
        lemma_reads_count(n, s, 2);
        assert(pow10(0) == 1);
        assert(d == 0);
        assert(unit_suffix(s) == Some((0nat, 2nat)));
        assert(n * kib(0) + round_div(0nat * kib(0), pow10(0)) == n) by (nonlinear_arith)
            requires
                kib(0) == 1,
                pow10(0) == 1,
        ;
        assert(size_bytes(s) == Some(n));
    } else {
        lemma_pow10_le(d, 20);
        lemma_pow10_positive(d);
        let q = round_div(n * p, big);
        assert(q <= n * p + 1) by (nonlinear_arith)
            requires
                q == (2 * (n * p) + big) / (2 * big),
                big >= 1,
        ;
        assert(q / p <= n + 1) by (nonlinear_arith)
            requires
                q <= n * p + 1,
                p >= 1,
        ;
        lemma_unit_text_reads(q, d, k);
        lemma_decimal_text_reads(q, d);
        let (i, f, e) = number_parts(decimal_text(q, d)).unwrap();
        let m = pow10((d - e) as nat);
        let ee = pow10(e);
        lemma_pow10_add(e, (d - e) as nat);
        lemma_pow10_positive(e);
        lemma_pow10_positive((d - e) as nat);
        assert(e + (d - e) as nat == d);
        lemma_round_trip_bound(n, p, big, q, i, f, ee, m);
        let v = i * big + round_div(f * big, ee);
        assert(size_text(n, speed) == decimal_text(q, d) + " "@ + unit_label(k));
        assert(size_bytes(size_text(n, speed)) == Some(v));
        if !is_rounded(k, speed) {
            assert(big < p) by {
                if k == 1 {
                    assert(big == 1024 && p == 10000000000);
                } else {
                    assert(big == 1048576 && p == 100000000000000000000);
                }
            }
            assert(v == n) by (nonlinear_arith)
                requires
                    2 * p * v <= 2 * p * n + p + big,
                    2 * p * n <= 2 * p * v + p + big,
                    big < p,
            ;
        }
    }
}

/// Value of a sequence of decimal digits.
pub open spec fn digits_value(s: Seq<char>) -> nat
    decreases s.len(),
{
    if s.len() == 0 {
        0
    } else {
        digits_value(s.drop_last()) * 10 + char_digit(s.last()).unwrap_or(0)
    }
}

/// A run of one to twenty digits.
pub open spec fn digit_run(s: Seq<char>) -> bool {
    1 <= s.len() <= 20 && all_digits(s)
}

/// Index of the first `c` at or after `i`, or -1.
pub open spec fn find_char(s: Seq<char>, c: char, i: nat) -> int
    decreases s.len() - i,
{
    if i >= s.len() {
        -1
    } else if s[i as int] == c {
        i as int
    } else {
        find_char(s, c, i + 1)
    }
}

/// A number written as digits, or digits, a point and digits; each run one to
/// twenty digits long. The result holds the integer part, the fraction's digits
/// as a number, and how many they are.
pub open spec fn number_parts(s: Seq<char>) -> Option<(nat, nat, nat)> {
    let p = find_char(s, '.', 0);
    if p < 0 {
        if digit_run(s) { Some((digits_value(s), 0, 0)) } else { None }
    } else {
        let ip = s.subrange(0, p);
        let fp = s.subrange(p + 1, s.len() as int);
        if digit_run(ip) && digit_run(fp) {
            Some((digits_value(ip), digits_value(fp), fp.len()))
        } else {
            None
        }
    }
}

/// Number of scalings by 1024 that a unit suffix stands for, with the suffix's
/// length (the space before the unit included).
pub open spec fn unit_suffix(s: Seq<char>) -> Option<(nat, nat)> {
    if s.len() >= 2 && s.subrange(s.len() - 2, s.len() as int) == " B"@ {
        Some((0, 2))
    } else if s.len() >= 4 && s.subrange(s.len() - 4, s.len() as int) == " KiB"@ {
        Some((1, 4))
    } else if s.len() >= 4 && s.subrange(s.len() - 4, s.len() as int) == " MiB"@ {
        Some((2, 4))
    } else if s.len() >= 4 && s.subrange(s.len() - 4, s.len() as int) == " GiB"@ {
        Some((3, 4))
    } else if s.len() >= 4 && s.subrange(s.len() - 4, s.len() as int) == " TiB"@ {
        Some((4, 4))
    } else {
        None
    }
}

/// Bytes that a human-readable size stands for: the number times its unit,
/// rounded to a whole byte (halves upward).
pub open spec fn size_bytes(s: Seq<char>) -> Option<nat> {
    match unit_suffix(s) {
        None => None,
        Some((k, l)) => match number_parts(s.subrange(0, s.len() - l)) {
            None => None,
            Some((i, f, d)) => Some(i * kib(k) + round_div(f * kib(k), pow10(d))),
        },
    }
}

proof fn lemma_digits_bound(s: Seq<char>)
    requires
        all_digits(s),
    ensures
        digits_value(s) < pow10(s.len()),
    decreases s.len(),
{
    if s.len() > 0 {
        let t = s.drop_last();
        assert(all_digits(t)) by {
            assert forall|i: int| 0 <= i < t.len() implies (#[trigger] char_digit(t[i])).is_some() by {
                assert(t[i] == s[i]);
                assert(char_digit(s[i]).is_some());
            }
        }
        lemma_digits_bound(t);
        assert(char_digit(s[s.len() - 1]).is_some());
        let dv = char_digit(s.last()).unwrap_or(0);
        assert(dv < 10);
        let a = digits_value(t);
        let b = pow10(t.len());
        assert(a * 10 + dv < b * 10) by (nonlinear_arith)
            requires
                a < b,
                dv < 10,
        ;
    }
}

/// Value of the digits of `s` from `from` up to `to`, if all are digits and there
/// are one to twenty of them.
fn digit_run_value(s: &str, from: usize, to: usize) -> (r: Option<u128>)
    requires
        from <= to <= s@.len(),
    ensures
        r.is_some() == digit_run(s@.subrange(from as int, to as int)),
        r.is_some() ==> r.unwrap() as nat == digits_value(s@.subrange(from as int, to as int)),
        r.is_some() ==> r.unwrap() < pow10(20),
{
    if to - from < 1 || to - from > 20 {
        return None;
    }
    let ghost run = s@.subrange(from as int, to as int);
    let mut v: u128 = 0;
    let mut i: usize = from;
    while i < to
        invariant
            from <= i <= to <= s@.len(),
            to - from <= 20,
            run == s@.subrange(from as int, to as int),
            all_digits(s@.subrange(from as int, i as int)),
            v as nat == digits_value(s@.subrange(from as int, i as int)),
            v < pow10((i - from) as nat),
        decreases to - i,
    {
        let c = s.get_char(i);
        if c < '0' || c > '9' {
            proof {
                assert(run[i - from] == c);
                assert(char_digit(run[i - from]).is_none());
            }
            return None;
        }
        let ghost pre = s@.subrange(from as int, i as int);
        let ghost next = s@.subrange(from as int, (i + 1) as int);
        proof {
            assert(next.drop_last() =~= pre);
            assert(next.last() == c);
            assert forall|j: int| 0 <= j < next.len() implies (#[trigger] char_digit(next[j])).is_some() by {
                if j < pre.len() {
                    assert(next[j] == pre[j]);
                }
            }
            lemma_pow10_le((i + 1 - from) as nat, 20);
            lemma_pow10_values();
            let dv = (c as nat - '0' as nat) as nat;
            assert(v * 10 + dv < pow10((i - from) as nat) * 10) by (nonlinear_arith)
                requires
                    v < pow10((i - from) as nat),
                    dv < 10,
            ;
        }
        v = v * 10 + (c as u32 - '0' as u32) as u128;
        i = i + 1;
    }
    proof {
        lemma_pow10_le((to - from) as nat, 20);
        assert(s@.subrange(from as int, i as int) == run);
    }
    Some(v)
}

proof fn lemma_find_char_range(s: Seq<char>, c: char, i: nat)
    ensures
        find_char(s, c, i) == -1 || (i <= find_char(s, c, i) < s.len() && s[find_char(s, c, i)] == c),
    decreases s.len() - i,
{
    if i < s.len() && s[i as int] != c {
        lemma_find_char_range(s, c, i + 1);
    }
}

/// Index of the first `c` in `s`, or -1.
pub(crate) fn find_char_exec(s: &str, c: char) -> (r: Option<usize>)
    ensures
        r == (if find_char(s@, c, 0) < 0 { None::<usize> } else { Some(find_char(s@, c, 0) as usize) }),
{
    let n = s.unicode_len();
    let mut i: usize = 0;
    while i < n
        invariant
            n == s@.len(),
            i <= n,
            find_char(s@, c, 0) == find_char(s@, c, i as nat),
        decreases n - i,
    {
        if s.get_char(i) == c {
            return Some(i);
        }
        i = i + 1;
    }
    None
}

/// Reads a number (see `number_parts`): integer part, fraction digits as a
/// number, and how many fraction digits there are.
pub(crate) fn read_number(num: &str) -> (r: Option<(u128, u128, u32)>)
    ensures
        r.is_some() == number_parts(num@).is_some(),
        r.is_some() ==> number_parts(num@) == Some((r.unwrap().0 as nat, r.unwrap().1 as nat, r.unwrap().2 as nat)),
        r.is_some() ==> r.unwrap().0 < pow10(20) && r.unwrap().1 < pow10(20) && r.unwrap().2 <= 20,
{
    let p = find_char_exec(num, '.');
    let ghost ns = num@;
    proof {
        lemma_find_char_range(ns, '.', 0);
    }
    let (ip, fp, fd): (u128, u128, u32) = if p.is_none() {
        match digit_run_value(num, 0, num.unicode_len()) {
            None => {
                proof {
                    assert(ns.subrange(0, ns.len() as int) =~= ns);
                }
                return None;
            }
            Some(v) => {
                proof {
                    assert(ns.subrange(0, ns.len() as int) =~= ns);
                }
                (v, 0, 0)
            }
        }
    } else {
        let pu = p.unwrap();
        let nl = num.unicode_len();
        assert(pu < nl);
        match (digit_run_value(num, 0, pu), digit_run_value(num, pu + 1, nl)) {
            (Some(a), Some(b)) => (a, b, (nl - pu - 1) as u32),
            _ => return None,
        }
    };
    assert(number_parts(ns) == Some((ip as nat, fp as nat, fd as nat)));
    Some((ip, fp, fd))
}

/// Bytes that a human-readable size such as "1.5 MiB" stands for (see
/// `size_bytes`); `None` where the text is not such a size or the count does not
/// fit in 64 bits.
pub fn convertToByte(file_size: &str) -> (r: Option<u64>)
    ensures
        r == (match size_bytes(file_size@) {
            Some(v) => if v <= u64::MAX { Some(v as u64) } else { None },
            None => None,
        }),
{
    proof {
        reveal_strlit(" B");
        reveal_strlit(" KiB");
        reveal_strlit(" MiB");
        reveal_strlit(" GiB");
        reveal_strlit(" TiB");
        lemma_kib_values();
        lemma_pow10_values();
    }
    let n = file_size.unicode_len();
    let s = file_size;
    let (k, l): (u32, usize) = if n >= 2 && same_text(s.substring_char(n - 2, n), " B") {
        (0, 2)
    } else if n >= 4 && same_text(s.substring_char(n - 4, n), " KiB") {
        (1, 4)
    } else if n >= 4 && same_text(s.substring_char(n - 4, n), " MiB") {
        (2, 4)
    } else if n >= 4 && same_text(s.substring_char(n - 4, n), " GiB") {
        (3, 4)
    } else if n >= 4 && same_text(s.substring_char(n - 4, n), " TiB") {
        (4, 4)
    } else {
        return None;
    };
    let scale: u128 = if k == 0 { 1 } else if k == 1 { 1024 } else if k == 2 { 1048576 }
        else if k == 3 { 1073741824 } else { 1099511627776 };
    assert(scale as nat == kib(k as nat)) by {
        assert(kib(0) == 1);
    }
    let num = s.substring_char(0, n - l);
    let (ip, fp, fd) = match read_number(num) {
        Some(t) => t,
        None => return None,
    };
    let ghost ns = num@;
    assert(number_parts(ns) == Some((ip as nat, fp as nat, fd as nat)));
    let pf = pow10_exec(fd);
    proof {
        lemma_pow10_positive(fd as nat);
        lemma_pow10_le(fd as nat, 20);
    }
    let v: u128 = {
        proof {
            assert(ip * scale <= pow10(20) * 1099511627776) by (nonlinear_arith)
                requires
                    ip < pow10(20),
                    scale <= 1099511627776,
            ;
            assert(2 * (fp * scale) + pf <= 2 * (pow10(20) * 1099511627776) + pow10(20)) by (nonlinear_arith)
                requires
                    fp < pow10(20),
                    pf <= pow10(20),
                    scale <= 1099511627776,
            ;
            assert((2 * (fp * scale) + pf) / (2 * pf) <= 2 * (fp * scale) + pf) by (nonlinear_arith)
                requires
                    pf >= 1,
            ;
        }
        ip * scale + (2 * (fp * scale) + pf) / (2 * pf)
    };
    if v > u64::MAX as u128 {
        None
    } else {
        Some(v as u64)
    }
}

} // verus!
