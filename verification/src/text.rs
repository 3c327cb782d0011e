use vstd::prelude::*;
use vstd::string::*;

verus! {

/// Decimal digits of `n`, most significant first; 0 has the single digit 0.
pub open spec fn decimal_digits(n: nat) -> Seq<nat>
    decreases n,
{
    if n < 10 {
        seq![n]
    } else {
        decimal_digits(n / 10).push(n % 10)
    }
}

/// The character of a decimal digit.
pub open spec fn digit_char(d: nat) -> char {
    if d == 0 { '0' } else if d == 1 { '1' } else if d == 2 { '2' } else if d == 3 { '3' }
    else if d == 4 { '4' } else if d == 5 { '5' } else if d == 6 { '6' } else if d == 7 { '7' }
    else if d == 8 { '8' } else { '9' }
}

/// `n` written in decimal.
pub open spec fn decimal_string(n: nat) -> Seq<char> {
    decimal_digits(n).map_values(|d: nat| digit_char(d))
}

/// The parts joined with `sep` between consecutive parts.
pub open spec fn join(parts: Seq<Seq<char>>, sep: Seq<char>) -> Seq<char>
    decreases parts.len(),
{
    if parts.len() == 0 {
        Seq::empty()
    } else if parts.len() == 1 {
        parts[0]
    } else {
        join(parts.drop_last(), sep) + sep + parts.last()
    }
}

/// Appends the digits of `n` (most significant first) to `out`.
pub fn push_decimal_digits(out: &mut Vec<u32>, n: u64)
    ensures
        final(out)@ == old(out)@ + decimal_digits(n as nat).map_values(|d: nat| d as u32),
    decreases n,
{
    if n >= 10 {
        push_decimal_digits(out, n / 10);
    }
    let ghost mid = out@;
    out.push((n % 10) as u32);
    proof {
        if n >= 10 {
            assert(decimal_digits(n as nat) == decimal_digits((n / 10) as nat).push((n % 10) as nat));
            assert(decimal_digits(n as nat).map_values(|d: nat| d as u32)
                =~= decimal_digits((n / 10) as nat).map_values(|d: nat| d as u32).push((n % 10) as u32));
        } else {
            assert(decimal_digits(n as nat).map_values(|d: nat| d as u32) =~= seq![n as u32]);
        }
    }
}

/// The one-character string of a decimal digit.
pub fn digit_str(d: u64) -> (s: &'static str)
    requires
        d < 10,
    ensures
        s@ == seq![digit_char(d as nat)],
{
    proof {
        reveal_strlit("0");
        reveal_strlit("1");
        reveal_strlit("2");
        reveal_strlit("3");
        reveal_strlit("4");
        reveal_strlit("5");
        reveal_strlit("6");
        reveal_strlit("7");
        reveal_strlit("8");
        reveal_strlit("9");
    }
    let s = if d == 0 { "0" } else if d == 1 { "1" } else if d == 2 { "2" } else if d == 3 { "3" }
        else if d == 4 { "4" } else if d == 5 { "5" } else if d == 6 { "6" } else if d == 7 { "7" }
        else if d == 8 { "8" } else { "9" };
    assert(s@ =~= seq![digit_char(d as nat)]);
    s
}

/// Appends `n` written in decimal to `out`.
pub fn append_decimal(out: &mut String, n: u64)
    ensures
        final(out)@ == old(out)@ + decimal_string(n as nat),
    decreases n,
{
    if n >= 10 {
        append_decimal(out, n / 10);
    }
    out.append(digit_str(n % 10));
    proof {
        if n >= 10 {
            assert(decimal_string(n as nat) =~= decimal_string((n / 10) as nat).push(digit_char((n % 10) as nat)));
        } else {
            assert(decimal_string(n as nat) =~= seq![digit_char(n as nat)]);
        }
    }
}

/// The characters of `s`.
pub fn chars_of(s: &str) -> (r: Vec<char>)
    ensures
        r@ == s@,
{
    let n = s.unicode_len();
    let mut r: Vec<char> = Vec::new();
    let mut k: usize = 0;
    while k < n
        invariant
            0 <= k <= n,
            n == s@.len(),
            r@ == s@.take(k as int),
        decreases n - k,
    {
        let c = s.get_char(k);
        r.push(c);
        assert(s@.take(k + 1) =~= s@.take(k as int).push(c));
        k = k + 1;
    }
    assert(s@.take(n as int) =~= s@);
    r
}

/// `a` and `b` hold the same characters.
pub fn str_equal(a: &str, b: &str) -> (r: bool)
    ensures
        r == (a@ == b@),
{
    let ca = chars_of(a);
    let cb = chars_of(b);
    if ca.len() != cb.len() {
        return false;
    }
    let mut k: usize = 0;
    while k < ca.len()
        invariant
            0 <= k <= ca.len(),
            ca.len() == cb.len(),
            ca@ == a@,
            cb@ == b@,
            forall|m: int| 0 <= m < k ==> ca@[m] == cb@[m],
        decreases ca.len() - k,
    {
        if ca[k] != cb[k] {
            return false;
        }
        k = k + 1;
    }
    assert(ca@ =~= cb@);
    true
}

} // verus!
