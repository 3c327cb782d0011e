use vstd::prelude::*;
use crate::text::chars_of;

verus! {

/// A vowel, in either case.
pub open spec fn is_vowel(c: char) -> bool {
    c == 'a' || c == 'e' || c == 'i' || c == 'o' || c == 'u' || c == 'A' || c == 'E' || c == 'I' || c == 'O' || c == 'U'
}

/// The non-vowel characters with codes lo, lo + 1, ..., lo + n - 1, in order.
pub open spec fn letters_from(lo: int, n: int) -> Seq<char>
    decreases n,
{
    if n <= 0 {
        Seq::empty()
    } else {
        let prev = letters_from(lo, n - 1);
        let c = (lo + n - 1) as char;
        if is_vowel(c) { prev } else { prev.push(c) }
    }
}

/// The digit alphabet: '0'..'9', then 'A'..'Z' and 'a'..'z' without vowels.
pub open spec fn converter_alphabet() -> Seq<char> {
    letters_from(48, 10) + letters_from(65, 26) + letters_from(97, 26)
}

/// Index of the first occurrence of `c` in `alpha` at or after `i`, or 0 when there is none.
pub open spec fn first_index_from(alpha: Seq<char>, c: char, i: int) -> nat
    decreases alpha.len() - i,
{
    if i >= alpha.len() || i < 0 {
        0
    } else if alpha[i] == c {
        i as nat
    } else {
        first_index_from(alpha, c, i + 1)
    }
}

/// The digit a character stands for: its position in the alphabet, 0 for a foreign character.
pub open spec fn digit_value(alpha: Seq<char>, c: char) -> nat {
    first_index_from(alpha, c, 0)
}

/// The number the characters spell, most significant digit first, in base `alpha.len()`.
pub open spec fn encoded_value(alpha: Seq<char>, s: Seq<char>) -> nat
    decreases s.len(),
{
    if s.len() == 0 {
        0
    } else {
        encoded_value(alpha, s.drop_last()) * alpha.len() + digit_value(alpha, s.last())
    }
}

/// The digits of `v` in base `b` (most significant first); negative bases give a single digit.
pub open spec fn base_digits(v: int, b: int) -> Seq<int>
    decreases v,
{
    if v <= 0 || b == 0 || b == 1 {
        Seq::empty()
    } else if b < 0 {
        seq![v % (-b)]
    } else {
        proof {
            vstd::arithmetic::div_mod::lemma_div_decreases(v, b);
        }
        base_digits(v / b, b).push(v % b)
    }
}

/// `d` with zeros put in front until it has at least `n` entries.
pub open spec fn pad_front(d: Seq<int>, n: int) -> Seq<int>
    decreases n - d.len(),
{
    if d.len() >= n { d } else { pad_front(seq![0int] + d, n) }
}

/// `decode_number_as_digits` on a value: its digits (a lone 0 for zero), padded to ten.
pub open spec fn spec_digits(v: int, b: int) -> Seq<int> {
    pad_front(if v == 0 { seq![0int] } else { base_digits(v, b) }, 10)
}

/// Unity's `NumberSystemConverter`: numbers written with a 52-character alphabet.
pub struct NumberSystemConverter {
    unicode_letters: Vec<char>,
    number_base: usize,
}

impl NumberSystemConverter {
    #[verifier::type_invariant]
    closed spec fn inv(self) -> bool {
        &&& self.unicode_letters@ == converter_alphabet()
        &&& self.number_base == self.unicode_letters@.len()
    }

    /// Appends the non-vowel characters with codes `start..=end`.
    fn push_range(letters: &mut Vec<char>, start: u8, end: u8)
        requires
            start <= end < 128,
        ensures
            final(letters)@ == old(letters)@ + letters_from(start as int, end - start + 1),
    {
        let mut code = start;
        loop
            invariant
                start <= code <= end,
                end < 128,
                letters@ == old(letters)@ + letters_from(start as int, code - start),
            decreases end - code,
        {
            let ch = code as char;
            let vowel = ch == 'a' || ch == 'e' || ch == 'i' || ch == 'o' || ch == 'u' || ch == 'A'
                || ch == 'E' || ch == 'I' || ch == 'O' || ch == 'U';
            if !vowel {
                letters.push(ch);
            }
            proof {
                assert(ch == (start + (code - start + 1) - 1) as char);
                let prev = letters_from(start as int, code - start);
                assert(letters_from(start as int, code - start + 1) == if is_vowel(ch) { prev } else { prev.push(ch) });
                if !vowel {
                    assert(old(letters)@ + prev.push(ch) =~= (old(letters)@ + prev).push(ch));
                }
            }
            if code == end {
                return;
            }
            code = code + 1;
        }
    }

    pub fn new() -> (c: NumberSystemConverter)
        ensures
            c.alphabet() == converter_alphabet(),
    {
        let mut unicode_letters: Vec<char> = Vec::new();
        Self::push_range(&mut unicode_letters, 48, 57);
        Self::push_range(&mut unicode_letters, 65, 90);
        Self::push_range(&mut unicode_letters, 97, 122);
        assert(unicode_letters@ =~= converter_alphabet());
        let number_base = unicode_letters.len();
        NumberSystemConverter { unicode_letters, number_base }
    }

    /// The digit alphabet.
    pub closed spec fn alphabet(&self) -> Seq<char> {
        self.unicode_letters@
    }
}


/// `letters_from` never shrinks as the range grows.
pub proof fn lemma_letters_from_monotone(lo: int, m: int, n: int)
    requires
        0 <= m <= n,
    ensures
        letters_from(lo, m).len() <= letters_from(lo, n).len(),
    decreases n - m,
{
    if m < n {
        lemma_letters_from_monotone(lo, m, n - 1);
    }
}

/// `letters_from(lo, n)` has at most `n` characters.
pub proof fn lemma_letters_from_len(lo: int, n: int)
    requires
        0 <= n,
    ensures
        letters_from(lo, n).len() <= n,
    decreases n,
{
    if n > 0 {
        lemma_letters_from_len(lo, n - 1);
    }
}

/// The alphabet is not empty (it starts with '0').
pub proof fn lemma_alphabet_nonempty()
    ensures
        converter_alphabet().len() >= 1,
{
    reveal_with_fuel(letters_from, 2);
    assert(letters_from(48, 1).len() == 1);
    lemma_letters_from_monotone(48, 1, 10);
}

/// The alphabet has at most 62 characters.
pub proof fn lemma_alphabet_small()
    ensures
        converter_alphabet().len() <= 62,
{
    lemma_letters_from_len(48, 10);
    lemma_letters_from_len(65, 26);
    lemma_letters_from_len(97, 26);
}

/// A prefix never spells more than the whole string.
pub proof fn lemma_prefix_value_le(alpha: Seq<char>, s: Seq<char>, k: int)
    requires
        alpha.len() >= 1,
        0 <= k <= s.len(),
    ensures
        encoded_value(alpha, s.take(k)) <= encoded_value(alpha, s),
    decreases s.len() - k,
{
    if k < s.len() {
        lemma_prefix_value_le(alpha, s.drop_last(), k);
        assert(s.drop_last().take(k) =~= s.take(k));
        let x = encoded_value(alpha, s.drop_last());
        let b = alpha.len();
        assert(x <= x * b) by (nonlinear_arith)
            requires b >= 1;
    } else {
        assert(s.take(k) =~= s);
    }
}

impl NumberSystemConverter {
    /// The digit `ch` stands for: its index in the alphabet, 0 when it is not in it.
    pub fn digit_of(&self, ch: char) -> (d: usize)
        ensures
            d == digit_value(self.alphabet(), ch),
            d < self.alphabet().len() || d == 0,
    {
        let n = self.unicode_letters.len();
        let mut k: usize = 0;
        while k < n
            invariant
                0 <= k <= n,
                n == self.unicode_letters@.len(),
                first_index_from(self.unicode_letters@, ch, 0) == first_index_from(self.unicode_letters@, ch, k as int),
            decreases n - k,
        {
            if self.unicode_letters[k] == ch {
                return k;
            }
            k = k + 1;
        }
        0
    }

    /// The number the characters spell in this alphabet's base; with `number_can_be_negative`,
    /// 2^31 is subtracted so that the range starts at `i32::MIN`.
    pub fn decode_number_as_long(&self, encoded_number: &str, number_can_be_negative: bool) -> (n: i64)
        requires
            encoded_value(converter_alphabet(), encoded_number@) <= i64::MAX,
        ensures
            n == encoded_value(converter_alphabet(), encoded_number@) - if number_can_be_negative { 2147483648int } else { 0int },
    {
        proof {
            use_type_invariant(self);
            lemma_alphabet_nonempty();
            lemma_alphabet_small();
        }
        let chars = chars_of(encoded_number);
        let base = self.number_base;
        let mut num: i64 = 0;
        let mut k: usize = 0;
        while k < chars.len()
            invariant
                0 <= k <= chars.len(),
                chars@ == encoded_number@,
                base == converter_alphabet().len(),
                self.alphabet() == converter_alphabet(),
                converter_alphabet().len() >= 1,
                converter_alphabet().len() <= 62,
                encoded_value(converter_alphabet(), chars@) <= i64::MAX,
                num == encoded_value(converter_alphabet(), chars@.take(k as int)),
            decreases chars.len() - k,
        {
            let d = self.digit_of(chars[k]);
            proof {
                lemma_prefix_value_le(converter_alphabet(), chars@, k + 1);
                assert(chars@.take(k + 1).drop_last() =~= chars@.take(k as int));
                assert(chars@.take(k + 1).last() == chars@[k as int]);
                let x = encoded_value(converter_alphabet(), chars@.take(k as int));
                assert(x * base + d <= i64::MAX);
                assert(x * base <= i64::MAX) by (nonlinear_arith)
                    requires x * base + d <= i64::MAX, d >= 0;
            }
            num = num * (base as i64) + d as i64;
            k = k + 1;
        }
        assert(chars@.take(chars@.len() as int) =~= chars@);
        if number_can_be_negative {
            num = num - 2147483647 - 1;
        }
        num
    }

    /// Appends the base-`b` digits of `v`, most significant first.
    fn push_base_digits(out: &mut Vec<usize>, v: u64, b: u64)
        requires
            b >= 2,
        ensures
            final(out)@ == old(out)@ + base_digits(v as int, b as int).map_values(|d: int| d as usize),
        decreases v,
    {
        if v == 0 {
            assert(base_digits(v as int, b as int).map_values(|d: int| d as usize) =~= Seq::<usize>::empty());
            return;
        }
        proof {
            vstd::arithmetic::div_mod::lemma_div_decreases(v as int, b as int);
        }
        Self::push_base_digits(out, v / b, b);
        out.push((v % b) as usize);
        proof {
            assert(base_digits(v as int, b as int) == base_digits((v / b) as int, b as int).push((v % b) as int));
            assert(base_digits(v as int, b as int).map_values(|d: int| d as usize)
                =~= base_digits((v / b) as int, b as int).map_values(|d: int| d as usize).push((v % b) as usize));
        }
    }

    /// The digits, in base `new_base`, of the number the characters spell, with zeros in
    /// front up to ten digits.
    pub fn decode_number_as_digits(&self, encoded_number: &str, new_base: i64) -> (digits: Vec<usize>)
        requires
            encoded_value(converter_alphabet(), encoded_number@) <= i64::MAX,
            new_base != 0,
            new_base != 1,
        ensures
            digits@ == spec_digits(encoded_value(converter_alphabet(), encoded_number@) as int, new_base as int)
                .map_values(|d: int| d as usize),
            2 <= new_base <= usize::MAX ==> digits@.len() >= 10
                && (forall|i: int| 0 <= i < digits@.len() ==> (#[trigger] digits@[i] as int) < new_base)
                && digits_value_in(digits@.map_values(|d: usize| d as int), new_base as int)
                    == encoded_value(converter_alphabet(), encoded_number@),
    {
        let val = self.decode_number_as_long(encoded_number, false);
        let ghost v = val as int;
        let mut digits: Vec<usize> = Vec::new();
        if val == 0 {
            digits.push(0);
            assert(digits@ =~= seq![0int].map_values(|d: int| d as usize));
        } else if new_base < 0 {
            let abs_b: u64 = if new_base == i64::MIN { 9223372036854775808u64 } else { (-new_base) as u64 };
            digits.push(((val as u64) % abs_b) as usize);
            assert(digits@ =~= base_digits(v, new_base as int).map_values(|d: int| d as usize));
        } else {
            Self::push_base_digits(&mut digits, val as u64, new_base as u64);
            assert(digits@ =~= base_digits(v, new_base as int).map_values(|d: int| d as usize));
        }
        let ghost d0 = if v == 0 { seq![0int] } else { base_digits(v, new_base as int) };
        let ghost mut dg = d0;
        while digits.len() < 10
            invariant
                digits@ == dg.map_values(|x: int| x as usize),
                pad_front(dg, 10) == pad_front(d0, 10),
            decreases 10 - digits.len(),
        {
            digits.insert(0, 0);
            proof {
                let nd = seq![0int] + dg;
                assert(digits@ =~= nd.map_values(|x: int| x as usize));
                assert(pad_front(nd, 10) == pad_front(dg, 10));
                dg = nd;
            }
        }
        proof {
            assert(pad_front(dg, 10) == dg);
            if 2 <= new_base <= usize::MAX {
                let sd = spec_digits(v, new_base as int);
                lemma_digits_roundtrip(v, new_base as int);
                let back = digits@.map_values(|d: usize| d as int);
                assert(back =~= sd) by {
                    assert forall|i: int| 0 <= i < sd.len() implies #[trigger] back[i] == sd[i] by {
                        assert(0 <= sd[i] < new_base);
                    }
                }
                assert forall|i: int| 0 <= i < digits@.len() implies (#[trigger] digits@[i] as int) < new_base by {
                    assert(0 <= sd[i] < new_base);
                }
            }
        }
        digits
    }
}

/// The number that base-`b` digits spell, most significant first.
pub open spec fn digits_value_in(s: Seq<int>, b: int) -> int
    decreases s.len(),
{
    if s.len() == 0 { 0 } else { digits_value_in(s.drop_last(), b) * b + s.last() }
}

proof fn lemma_base_digits_value(v: int, b: int)
    requires
        v >= 0,
        b >= 2,
    ensures
        digits_value_in(base_digits(v, b), b) == v,
    decreases v,
{
    if v > 0 {
        vstd::arithmetic::div_mod::lemma_div_decreases(v, b);
        lemma_base_digits_value(v / b, b);
        let d = base_digits(v, b);
        assert(d.drop_last() =~= base_digits(v / b, b));
        vstd::arithmetic::div_mod::lemma_fundamental_div_mod(v, b);
        assert(digits_value_in(d, b) == (v / b) * b + v % b) by (nonlinear_arith)
            requires digits_value_in(d, b) == digits_value_in(d.drop_last(), b) * b + d.last(),
                digits_value_in(d.drop_last(), b) == v / b, d.last() == v % b;
        assert((v / b) * b == b * (v / b)) by (nonlinear_arith);
    }
}

proof fn lemma_base_digits_range(v: int, b: int)
    requires
        v >= 0,
        b >= 2,
    ensures
        forall|i: int| 0 <= i < base_digits(v, b).len() ==> 0 <= #[trigger] base_digits(v, b)[i] < b,
    decreases v,
{
    if v > 0 {
        vstd::arithmetic::div_mod::lemma_div_decreases(v, b);
        lemma_base_digits_range(v / b, b);
        let d = base_digits(v, b);
        assert forall|i: int| 0 <= i < d.len() implies 0 <= #[trigger] d[i] < b by {
            if i < d.len() - 1 {
                assert(d[i] == base_digits(v / b, b)[i]);
            }
        }
    }
}

proof fn lemma_pad_front_range(d: Seq<int>, n: int, b: int)
    requires
        b >= 1,
        forall|i: int| 0 <= i < d.len() ==> 0 <= #[trigger] d[i] < b,
    ensures
        forall|i: int| 0 <= i < pad_front(d, n).len() ==> 0 <= #[trigger] pad_front(d, n)[i] < b,
        pad_front(d, n).len() == if d.len() >= n { d.len() as int } else { n },
    decreases n - d.len(),
{
    if d.len() < n {
        let nd = seq![0int] + d;
        assert forall|i: int| 0 <= i < nd.len() implies 0 <= #[trigger] nd[i] < b by {
            if i > 0 { assert(nd[i] == d[i - 1]); }
        }
        lemma_pad_front_range(nd, n, b);
    }
}

proof fn lemma_leading_zero_value(d: Seq<int>, b: int)
    ensures
        digits_value_in(seq![0int] + d, b) == digits_value_in(d, b),
    decreases d.len(),
{
    if d.len() == 0 {
        assert((seq![0int] + d).drop_last() =~= Seq::<int>::empty());
        assert((seq![0int] + d).last() == 0);
        assert(digits_value_in(Seq::<int>::empty(), b) == 0);
        assert(digits_value_in(seq![0int] + d, b) == 0 * b + 0);
    } else {
        assert((seq![0int] + d).drop_last() =~= seq![0int] + d.drop_last());
        assert((seq![0int] + d).last() == d.last());
        lemma_leading_zero_value(d.drop_last(), b);
        assert(digits_value_in(seq![0int] + d, b) == digits_value_in(seq![0int] + d.drop_last(), b) * b + d.last());
        assert(digits_value_in(d, b) == digits_value_in(d.drop_last(), b) * b + d.last());
    }
}

proof fn lemma_pad_front_value(d: Seq<int>, n: int, b: int)
    ensures
        digits_value_in(pad_front(d, n), b) == digits_value_in(d, b),
        pad_front(d, n).len() >= n,
    decreases n - d.len(),
{
    if d.len() < n {
        lemma_pad_front_value(seq![0int] + d, n, b);
        lemma_leading_zero_value(d, b);
    }
}

/// Law: the digits `decode_number_as_digits` gives spell the decoded number again in the
/// chosen base (for a base of at least two); each is below the base; and there are as
/// many as the number has base-`b` digits, with zeros in front up to ten.
pub proof fn lemma_digits_roundtrip(v: int, b: int)
    requires
        v >= 0,
        b >= 2,
    ensures
        digits_value_in(spec_digits(v, b), b) == v,
        spec_digits(v, b).len() >= 10,
        forall|i: int| 0 <= i < spec_digits(v, b).len() ==> 0 <= #[trigger] spec_digits(v, b)[i] < b,
        spec_digits(v, b).len() == if v == 0 || base_digits(v, b).len() < 10 { 10 } else { base_digits(v, b).len() as int },
{
    let d = if v == 0 { seq![0int] } else { base_digits(v, b) };
    if v == 0 {
        assert forall|i: int| 0 <= i < d.len() implies 0 <= #[trigger] d[i] < b by {}
    } else {
        lemma_base_digits_range(v, b);
    }
    lemma_pad_front_range(d, 10, b);
    if v == 0 {
        assert(seq![0int].drop_last() =~= Seq::<int>::empty());
        assert(digits_value_in(seq![0int], b) == digits_value_in(Seq::<int>::empty(), b) * b + 0);
        assert(digits_value_in(seq![0int], b) == 0);
    } else {
        lemma_base_digits_value(v, b);
    }
    assert(digits_value_in(d, b) == v);
    lemma_pad_front_value(d, 10, b);
    assert(spec_digits(v, b) == pad_front(d, 10));
}

} // verus!
