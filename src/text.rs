use vstd::prelude::*;

verus! {

/// Decimal digit character of a value below ten.
pub open spec fn digit_char(d: nat) -> char {
    if d == 0 { '0' }
    else if d == 1 { '1' }
    else if d == 2 { '2' }
    else if d == 3 { '3' }
    else if d == 4 { '4' }
    else if d == 5 { '5' }
    else if d == 6 { '6' }
    else if d == 7 { '7' }
    else if d == 8 { '8' }
    else { '9' }
}

/// Value of a decimal digit character, if it is one.
pub open spec fn char_digit(c: char) -> Option<nat> {
    if '0' <= c && c <= '9' { Some((c as nat - '0' as nat) as nat) } else { None }
}

/// Shortest decimal text of a natural number.
pub open spec fn nat_text(n: nat) -> Seq<char>
    decreases n,
{
    if n < 10 {
        seq![digit_char(n)]
    } else {
        nat_text(n / 10).push(digit_char(n % 10))
    }
}

fn digit_str(d: u8) -> (r: &'static str)
    requires
        d < 10,
    ensures
        r@ == seq![digit_char(d as nat)],
{
    proof {
        reveal_strlit("0");
        reveal_strlit("1");
        reveal_strlit("2");
        reveal_strlit("3");
        reveal_strlit("4");
        reveal_strlit("5");
        reveal_strlit("6");
        reveal_strlit("7");
        reveal_strlit("8");
        reveal_strlit("9");
    }
    if d == 0 { "0" }
    else if d == 1 { "1" }
    else if d == 2 { "2" }
    else if d == 3 { "3" }
    else if d == 4 { "4" }
    else if d == 5 { "5" }
    else if d == 6 { "6" }
    else if d == 7 { "7" }
    else if d == 8 { "8" }
    else { "9" }
}

/// Appends the decimal text of `n`.
pub fn push_nat(s: &mut String, n: u128)
    ensures
        final(s)@ == old(s)@ + nat_text(n as nat),
    decreases n,
{
    if n >= 10 {
        push_nat(s, n / 10);
    }
    s.append(digit_str((n % 10) as u8));
}


/// Ten to the power `d`.
pub open spec fn pow10(d: nat) -> nat
    decreases d,
{
    if d == 0 { 1 } else { 10 * pow10((d - 1) as nat) }
}

/// The last `d` decimal digits of `f`, zeros in front included.
pub open spec fn padded_text(f: nat, d: nat) -> Seq<char>
    decreases d,
{
    if d == 0 {
        Seq::empty()
    } else {
        padded_text(f / 10, (d - 1) as nat).push(digit_char(f % 10))
    }
}

/// Drops trailing zero digits of a fraction of `d` digits.
pub open spec fn trim_zeros(f: nat, d: nat) -> (nat, nat)
    decreases d,
{
    if d > 0 && f % 10 == 0 { trim_zeros(f / 10, (d - 1) as nat) } else { (f, d) }
}

/// Text of the value `q / 10^d`: the integer part, then, where the fraction is not
/// zero, a point and the fraction without trailing zeros.
pub open spec fn decimal_text(q: nat, d: nat) -> Seq<char> {
    let ip = q / pow10(d);
    let fr = q % pow10(d);
    if fr == 0 {
        nat_text(ip)
    } else {
        nat_text(ip) + seq!['.'] + padded_text(trim_zeros(fr, d).0, trim_zeros(fr, d).1)
    }
}

pub proof fn lemma_pow10_positive(d: nat)
    ensures
        pow10(d) >= 1,
    decreases d,
{
    if d > 0 {
        lemma_pow10_positive((d - 1) as nat);
    }
}

pub proof fn lemma_pow10_le(a: nat, b: nat)
    requires
        a <= b,
    ensures
        pow10(a) <= pow10(b),
    decreases b,
{
    if a < b {
        lemma_pow10_le(a, (b - 1) as nat);
        lemma_pow10_positive((b - 1) as nat);
    }
}

proof fn lemma_pow10_30()
    ensures
        pow10(30) == 1000000000000000000000000000000nat,
{
        assert(pow10(0) == 1nat);
        assert(pow10(1) == 10nat);
        assert(pow10(2) == 100nat);
        assert(pow10(3) == 1000nat);
        assert(pow10(4) == 10000nat);
        assert(pow10(5) == 100000nat);
        assert(pow10(6) == 1000000nat);
        assert(pow10(7) == 10000000nat);
        assert(pow10(8) == 100000000nat);
        assert(pow10(9) == 1000000000nat);
        assert(pow10(10) == 10000000000nat);
        assert(pow10(11) == 100000000000nat);
        assert(pow10(12) == 1000000000000nat);
        assert(pow10(13) == 10000000000000nat);
        assert(pow10(14) == 100000000000000nat);
        assert(pow10(15) == 1000000000000000nat);
        assert(pow10(16) == 10000000000000000nat);
        assert(pow10(17) == 100000000000000000nat);
        assert(pow10(18) == 1000000000000000000nat);
        assert(pow10(19) == 10000000000000000000nat);
        assert(pow10(20) == 100000000000000000000nat);
        assert(pow10(21) == 1000000000000000000000nat);
        assert(pow10(22) == 10000000000000000000000nat);
        assert(pow10(23) == 100000000000000000000000nat);
        assert(pow10(24) == 1000000000000000000000000nat);
        assert(pow10(25) == 10000000000000000000000000nat);
        assert(pow10(26) == 100000000000000000000000000nat);
        assert(pow10(27) == 1000000000000000000000000000nat);
        assert(pow10(28) == 10000000000000000000000000000nat);
        assert(pow10(29) == 100000000000000000000000000000nat);
        assert(pow10(30) == 1000000000000000000000000000000nat);
}

pub proof fn lemma_pow10_add(a: nat, b: nat)
    ensures
        pow10(a + b) == pow10(a) * pow10(b),
    decreases a,
{
    if a > 0 {
        lemma_pow10_add((a - 1) as nat, b);
        assert(pow10(a + b) == 10 * pow10((a - 1 + b) as nat));
        assert(((a - 1) as nat) + b == (a - 1 + b) as nat);
        assert(pow10(a) == 10 * pow10((a - 1) as nat));
        assert(10 * (pow10((a - 1) as nat) * pow10(b)) == (10 * pow10((a - 1) as nat)) * pow10(b)) by (nonlinear_arith);
    } else {
        assert(pow10(a) == 1);
        assert(a + b == b);
        assert(pow10(a) * pow10(b) == pow10(b)) by (nonlinear_arith)
            requires
                pow10(a) == 1,
        ;
    }
}

/// Ten to the power `d`, for `d` up to 30.
pub fn pow10_exec(d: u32) -> (r: u128)
    requires
        d <= 30,
    ensures
        r == pow10(d as nat),
{
    proof {
        lemma_pow10_le(d as nat, 30);
        lemma_pow10_30();
    }
    let mut r: u128 = 1;
    let mut i: u32 = 0;
    while i < d
        invariant
            i <= d <= 30,
            r == pow10(i as nat),
            pow10(d as nat) <= 1000000000000000000000000000000nat,
        decreases d - i,
    {
        proof {
            lemma_pow10_le((i + 1) as nat, d as nat);
        }
        r = r * 10;
        i = i + 1;
    }
    r
}

fn push_padded(s: &mut String, f: u128, d: u32)
    ensures
        final(s)@ == old(s)@ + padded_text(f as nat, d as nat),
    decreases d,
{
    if d > 0 {
        push_padded(s, f / 10, d - 1);
        s.append(digit_str((f % 10) as u8));
    }
}

/// Appends the text of `q / 10^d` (see `decimal_text`).
pub fn push_decimal(s: &mut String, q: u128, d: u32)
    requires
        d <= 30,
    ensures
        final(s)@ == old(s)@ + decimal_text(q as nat, d as nat),
{
    let p = pow10_exec(d);
    proof {
        lemma_pow10_positive(d as nat);
    }
    let ip = q / p;
    let fr = q % p;
    push_nat(s, ip);
    if fr != 0 {
        let mut f = fr;
        let mut k = d;
        while k > 0 && f % 10 == 0
            invariant
                trim_zeros(f as nat, k as nat) == trim_zeros(fr as nat, d as nat),
            decreases k,
        {
            f = f / 10;
            k = k - 1;
        }
        s.append(".");
        proof {
            reveal_strlit(".");
        }
        push_padded(s, f, k);
        proof {
            assert(final(s)@ =~= old(s)@ + decimal_text(q as nat, d as nat));
        }
    }
}

/// Whether two texts are equal, character by character.
pub fn same_text(a: &str, b: &str) -> (r: bool)
    ensures
        r == (a@ == b@),
{
    let n = a.unicode_len();
    if n != b.unicode_len() {
        return false;
    }
    let mut i: usize = 0;
    while i < n
        invariant
            n == a@.len() == b@.len(),
            i <= n,
            forall|j: int| 0 <= j < i ==> a@[j] == b@[j],
        decreases n - i,
    {
        if a.get_char(i) != b.get_char(i) {
            return false;
        }
        i = i + 1;
    }
    assert(a@ =~= b@);
    true
}

/// View of an optional text.
pub open spec fn opt_view(o: Option<String>) -> Option<Seq<char>> {
    match o {
        Some(s) => Some(s@),
        None => None,
    }
}

/// View of an optional optional text.
pub open spec fn opt_opt_view(o: Option<Option<String>>) -> Option<Option<Seq<char>>> {
    match o {
        Some(v) => Some(opt_view(v)),
        None => None,
    }
}

/// Views of a sequence of texts.
pub open spec fn texts(s: Seq<String>) -> Seq<Seq<char>> {
    s.map_values(|x: String| x@)
}

/// View of an optional list of texts.
pub open spec fn opt_texts(o: Option<Vec<String>>) -> Option<Seq<Seq<char>>> {
    match o {
        Some(v) => Some(texts(v@)),
        None => None,
    }
}

/// A copy of an optional text.
pub fn clone_text(o: &Option<String>) -> (r: Option<String>)
    ensures
        opt_view(r) == opt_view(*o),
{
    match o {
        Some(s) => Some(s.clone()),
        None => None,
    }
}

/// A copy of a list of texts.
pub fn copy_texts(v: &Vec<String>) -> (r: Vec<String>)
    ensures
        texts(r@) == texts(v@),
{
    let mut r: Vec<String> = Vec::new();
    let mut i: usize = 0;
    while i < v.len()
        invariant
            i <= v.len(),
            r@.len() == i,
            forall|j: int| 0 <= j < i ==> r@[j]@ == v@[j]@,
        decreases v.len() - i,
    {
        r.push(v[i].clone());
        i = i + 1;
    }
    assert(texts(r@) =~= texts(v@));
    r
}


/// `s` with every occurrence of `a`, read from the left, replaced by `b`.
pub open spec fn replaced(s: Seq<char>, a: Seq<char>, b: Seq<char>) -> Seq<char>
    decreases s.len(),
{
    if a.len() == 0 || s.len() < a.len() {
        s
    } else if s.subrange(0, a.len() as int) == a {
        b + replaced(s.subrange(a.len() as int, s.len() as int), a, b)
    } else {
        seq![s[0]] + replaced(s.subrange(1, s.len() as int), a, b)
    }
}

/// `s` with every occurrence of `a` replaced by `b` (see `replaced`).
pub fn replace_text(s: &str, a: &str, b: &str) -> (r: String)
    requires
        a@.len() > 0,
    ensures
        r@ == replaced(s@, a@, b@),
{
    let n = s.unicode_len();
    let al = a.unicode_len();
    let mut out = String::new();
    let mut i: usize = 0;
    assert(s@.subrange(0, n as int) =~= s@);
    while i < n
        invariant
            n == s@.len(),
            al == a@.len() > 0,
            i <= n,
            out@ + replaced(s@.subrange(i as int, n as int), a@, b@) == replaced(s@, a@, b@),
        decreases n - i,
    {
        let ghost rest = s@.subrange(i as int, n as int);
        if n - i < al {
            out.append(s.substring_char(i, n));
            proof {
                assert(replaced(rest, a@, b@) == rest);
            }
            assert(out@ == replaced(s@, a@, b@));
            return out;
        }
        let head = s.substring_char(i, i + al);
        assert(rest.subrange(0, al as int) =~= head@);
        if same_text(head, a) {
            out.append(b);
            proof {
                assert(rest.subrange(al as int, rest.len() as int) =~= s@.subrange((i + al) as int, n as int));
                assert(out@ + replaced(s@.subrange((i + al) as int, n as int), a@, b@) =~= replaced(s@, a@, b@));
            }
            i = i + al;
        } else {
            out.append(s.substring_char(i, i + 1));
            proof {
                assert(rest.subrange(1, rest.len() as int) =~= s@.subrange((i + 1) as int, n as int));
                assert(s@.subrange(i as int, i as int + 1) =~= seq![rest[0]]);
                assert(out@ + replaced(s@.subrange((i + 1) as int, n as int), a@, b@) =~= replaced(s@, a@, b@));
            }
            i = i + 1;
        }
    }
    proof {
        assert(s@.subrange(n as int, n as int) =~= Seq::<char>::empty());
        assert(replaced(Seq::<char>::empty(), a@, b@) == Seq::<char>::empty());
        assert(out@ =~= replaced(s@, a@, b@));
    }
    out
}

} // verus!
