use vstd::prelude::*;
use vstd::string::*;
use crate::text::{decimal_digits, push_decimal_digits};

verus! {

/// The digit a byte stands for in base 62 (`0-9`, then `a-z`, then `A-Z`), if any.
pub open spec fn base62_index(b: u8) -> Option<nat> {
    if 48 <= b <= 57 {
        Some((b - 48) as nat)
    } else if 97 <= b <= 122 {
        Some((b - 97 + 10) as nat)
    } else if 65 <= b <= 90 {
        Some((b - 65 + 36) as nat)
    } else {
        None
    }
}

/// The base-62 number the bytes spell, most significant first; bytes that are not
/// base-62 digits are skipped.
pub open spec fn base62_value(b: Seq<u8>) -> nat
    decreases b.len(),
{
    if b.len() == 0 {
        0
    } else {
        match base62_index(b.last()) {
            Some(d) => base62_value(b.drop_last()) * 62 + d,
            None => base62_value(b.drop_last()),
        }
    }
}

/// The decimal digits of `n`, with zeros in front up to `len` digits.
pub open spec fn padded_decimal_digits(n: nat, len: nat) -> Seq<u32> {
    let d = decimal_digits(n).map_values(|x: nat| x as u32);
    let pad: nat = if d.len() < len { (len - d.len()) as nat } else { 0 };
    Seq::new(pad, |i: int| 0u32) + d
}

/// The bytes without the ASCII dashes.
pub open spec fn without_dashes(b: Seq<u8>) -> Seq<u8> {
    b.filter(|x: u8| x != 45u8)
}

/// The tile limit chosen by a level digit: 50, 100, 150, 250 or 500 for levels 1 to 5,
/// and 250 otherwise.
pub open spec fn tile_limit_for_level(level: u32) -> u32 {
    if level == 1 { 50 } else if level == 2 { 100 } else if level == 3 { 150 }
    else if level == 4 { 250 } else if level == 5 { 500 } else { 250 }
}

/// The seed a config string stands for when it is too short to hold one.
pub open spec fn default_config_seed() -> u64 {
    3103784960
}

/// Custom-rule levels read from a config string.
#[derive(Clone, Copy, Debug, PartialEq, Eq, Structural)]
pub struct CustomRuleLevels {
    pub tile_limit: Option<u32>,
    pub forest_level: u32,
    pub agriculture_level: u32,
    pub water_level: u32,
    pub train_level: u32,
    pub quest_probability_level: u32,
    pub flag_quest_level: u32,
}

/// What a config string decodes to: the seed from its first six characters, and the rule
/// levels from the decimal digits of the next two groups of six (`None` when the string,
/// without dashes, is shorter than 18 bytes).
pub open spec fn spec_parse_config(bytes: Seq<u8>) -> (u64, Option<CustomRuleLevels>) {
    let clean = without_dashes(bytes);
    if clean.len() < 18 {
        (default_config_seed(), None)
    } else {
        let seed = base62_value(clean.subrange(0, 6));
        let d1 = padded_decimal_digits(base62_value(clean.subrange(6, 12)), 10);
        let d2 = padded_decimal_digits(base62_value(clean.subrange(12, 18)), 10);
        (seed as u64, Some(CustomRuleLevels {
            tile_limit: Some(tile_limit_for_level(d1[7])),
            forest_level: d1[2],
            agriculture_level: d1[3],
            water_level: d1[4],
            train_level: d1[5],
            quest_probability_level: d1[9],
            flag_quest_level: d2[2],
        }))
    }
}

/// Law: the tile limit of a decoded config string is read from the eighth decimal digit of
/// its second group of six characters: levels 1 to 5 give 50, 100, 150, 250 and 500 tiles,
/// every other digit 250.
pub proof fn lemma_tile_limit_levels(bytes: Seq<u8>)
    requires
        without_dashes(bytes).len() >= 18,
    ensures
        ({
            let clean = without_dashes(bytes);
            let level = padded_decimal_digits(base62_value(clean.subrange(6, 12)), 10)[7];
            let limits: Seq<u32> = seq![50u32, 100, 150, 250, 500];
            spec_parse_config(bytes).1 matches Some(levels) && levels.tile_limit == Some(
                if 1 <= level <= 5 { limits[level - 1] } else { 250u32 })
        }),
{
}

/// Law: dashes in a config string are ignored: two strings that agree once their dashes
/// are removed decode alike.
pub proof fn lemma_dashes_ignored(a: Seq<u8>, b: Seq<u8>)
    requires
        without_dashes(a) == without_dashes(b),
    ensures
        spec_parse_config(a) == spec_parse_config(b),
{
}

/// Six base-62 digits stay below 62 to the sixth power.
pub proof fn lemma_six_digits_bound(b: Seq<u8>)
    requires
        b.len() <= 6,
    ensures
        base62_value(b) < 56800235584,
{
    lemma_base62_value_bound(b);
    assert(pow62_nat(b.len()) <= 56800235584) by {
        reveal_with_fuel(pow62_nat, 7);
        lemma_pow62_monotone(b.len(), 6);
    }
}

spec fn pow62_nat(n: nat) -> nat
    decreases n,
{
    if n == 0 { 1 } else { 62 * pow62_nat((n - 1) as nat) }
}

proof fn lemma_pow62_monotone(m: nat, n: nat)
    requires
        m <= n,
    ensures
        pow62_nat(m) <= pow62_nat(n),
    decreases n,
{
    if m < n {
        lemma_pow62_monotone(m, (n - 1) as nat);
    }
}

proof fn lemma_base62_value_bound(b: Seq<u8>)
    ensures
        base62_value(b) < pow62_nat(b.len()),
    decreases b.len(),
{
    if b.len() > 0 {
        lemma_base62_value_bound(b.drop_last());
        let x = base62_value(b.drop_last());
        let p = pow62_nat((b.len() - 1) as nat);
        assert(x * 62 + 61 < p * 62) by (nonlinear_arith)
            requires x < p;
    }
}

/// A dropped prefix never makes the value larger: the value of a prefix is at most the
/// value of the whole.
proof fn lemma_base62_prefix_le(b: Seq<u8>, k: int)
    requires
        0 <= k <= b.len(),
    ensures
        base62_value(b.take(k)) <= base62_value(b),
    decreases b.len() - k,
{
    if k < b.len() {
        lemma_base62_prefix_le(b, k + 1);
        assert(b.take(k + 1).drop_last() =~= b.take(k));
    } else {
        assert(b.take(k) =~= b);
    }
}

/// The value of the base-62 digits in `b`, skipping other bytes.
fn base62_of_bytes(b: &[u8]) -> (v: u64)
    requires
        base62_value(b@) <= u64::MAX,
    ensures
        v == base62_value(b@),
{
    let mut val: u64 = 0;
    let mut k: usize = 0;
    while k < b.len()
        invariant
            0 <= k <= b@.len(),
            base62_value(b@) <= u64::MAX,
            val == base62_value(b@.take(k as int)),
        decreases b@.len() - k,
    {
        let c = b[k];
        proof {
            assert(b@.take(k + 1).drop_last() =~= b@.take(k as int));
            lemma_base62_prefix_le(b@, k + 1);
        }
        if c >= 48 && c <= 57 {
            val = val * 62 + (c - 48) as u64;
        } else if c >= 97 && c <= 122 {
            val = val * 62 + (c - 97 + 10) as u64;
        } else if c >= 65 && c <= 90 {
            val = val * 62 + (c - 65 + 36) as u64;
        }
        k = k + 1;
    }
    assert(b@.take(k as int) =~= b@);
    val
}

/// Whether the base-62 number written in `encoded` fits in `u64`, so that `decode_base62`
/// can decode it (the decoding would overflow otherwise).
pub fn base62_fits(encoded: &str) -> (b: bool)
    ensures
        b == (base62_value(encoded.spec_bytes()) <= u64::MAX),
{
    let bytes = encoded.as_bytes_vec();
    let n = bytes.len();
    let mut val: u64 = 0;
    let mut k: usize = 0;
    while k < n
        invariant
            0 <= k <= n,
            n == bytes@.len(),
            bytes@ == encoded.spec_bytes(),
            val == base62_value(bytes@.take(k as int)),
        decreases n - k,
    {
        let c = bytes[k];
        proof {
            assert(bytes@.take(k + 1).drop_last() =~= bytes@.take(k as int));
            lemma_base62_prefix_le(bytes@, k + 1);
        }
        let d: u64 = if c >= 48 && c <= 57 { (c - 48) as u64 } else if c >= 97 && c <= 122 { (c - 97 + 10) as u64 }
            else if c >= 65 && c <= 90 { (c - 65 + 36) as u64 } else { 62 };
        if d < 62 {
            if val > (u64::MAX - d) / 62 {
                proof {
                    assert(base62_value(bytes@.take(k + 1)) == val * 62 + d);
                    assert(val * 62 + d > u64::MAX) by (nonlinear_arith)
                        requires val > (u64::MAX - d) / 62, d < 62;
                }
                return false;
            }
            proof {
                assert(val * 62 + d <= u64::MAX) by (nonlinear_arith)
                    requires val <= (u64::MAX - d) / 62, d < 62;
            }
            val = val * 62 + d;
        }
        k = k + 1;
    }
    assert(bytes@.take(n as int) =~= bytes@);
    true
}

/// The base-62 number written in `encoded` (`0-9`, `a-z`, `A-Z`), most significant digit
/// first; characters outside that alphabet are skipped.
pub fn decode_base62(encoded: &str) -> (v: u64)
    requires
        base62_value(encoded.spec_bytes()) <= u64::MAX,
    ensures
        v == base62_value(encoded.spec_bytes()),
{
    let bytes = encoded.as_bytes_vec();
    base62_of_bytes(bytes.as_slice())
}

/// The decimal digits of `num`, most significant first, with zeros in front up to
/// `target_len` digits.
pub fn decode_digits_10(num: u64, target_len: usize) -> (digits: Vec<u32>)
    ensures
        digits@ == padded_decimal_digits(num as nat, target_len as nat),
{
    let mut d: Vec<u32> = Vec::new();
    push_decimal_digits(&mut d, num);
    assert(d@ =~= decimal_digits(num as nat).map_values(|x: nat| x as u32));
    let mut digits: Vec<u32> = Vec::new();
    let pad: usize = if d.len() < target_len { target_len - d.len() } else { 0 };
    let mut k: usize = 0;
    while k < pad
        invariant
            0 <= k <= pad,
            digits@ =~= Seq::new(k as nat, |i: int| 0u32),
        decreases pad - k,
    {
        digits.push(0);
        k = k + 1;
    }
    let mut j: usize = 0;
    while j < d.len()
        invariant
            0 <= j <= d@.len(),
            digits@ =~= Seq::new(pad as nat, |i: int| 0u32) + d@.take(j as int),
        decreases d@.len() - j,
    {
        digits.push(d[j]);
        assert(d@.take(j + 1) =~= d@.take(j as int).push(d@[j as int]));
        j = j + 1;
    }
    assert(d@.take(d@.len() as int) =~= d@);
    digits
}

/// The number that decimal digits spell, most significant first.
pub open spec fn digits_value(s: Seq<u32>) -> nat
    decreases s.len(),
{
    if s.len() == 0 {
        0
    } else {
        digits_value(s.drop_last()) * 10 + s.last() as nat
    }
}

proof fn lemma_zeros_value(k: nat)
    ensures
        digits_value(Seq::new(k, |i: int| 0u32)) == 0,
    decreases k,
{
    if k > 0 {
        assert(Seq::new(k, |i: int| 0u32).drop_last() =~= Seq::new((k - 1) as nat, |i: int| 0u32));
        lemma_zeros_value((k - 1) as nat);
    }
}

proof fn lemma_leading_zeros_value(k: nat, d: Seq<u32>)
    ensures
        digits_value(Seq::new(k, |i: int| 0u32) + d) == digits_value(d),
    decreases d.len(),
{
    let z = Seq::new(k, |i: int| 0u32);
    if d.len() == 0 {
        assert(z + d =~= z);
        lemma_zeros_value(k);
    } else {
        assert((z + d).drop_last() =~= z + d.drop_last());
        lemma_leading_zeros_value(k, d.drop_last());
    }
}

proof fn lemma_decimal_digits_value(n: nat)
    ensures
        digits_value(decimal_digits(n).map_values(|x: nat| x as u32)) == n,
    decreases n,
{
    let m = decimal_digits(n).map_values(|x: nat| x as u32);
    if n < 10 {
        assert(m.drop_last() =~= Seq::<u32>::empty());
        assert(m.last() == n as u32);
    } else {
        lemma_decimal_digits_value(n / 10);
        assert(m.drop_last() =~= decimal_digits(n / 10).map_values(|x: nat| x as u32));
        assert(m.last() == (n % 10) as u32);
    }
    assert(digits_value(m) == digits_value(m.drop_last()) * 10 + m.last() as nat);
}

/// Law: the zero-padded decimal digits of a number spell that number again, and there
/// are at least as many of them as asked for.
pub proof fn lemma_padded_digits_roundtrip(n: nat, len: nat)
    ensures
        digits_value(padded_decimal_digits(n, len)) == n,
        padded_decimal_digits(n, len).len() >= len,
{
    let d = decimal_digits(n).map_values(|x: nat| x as u32);
    let pad: nat = if d.len() < len { (len - d.len()) as nat } else { 0 };
    lemma_leading_zeros_value(pad, d);
    lemma_decimal_digits_value(n);
}

/// The bytes without ASCII dashes.
fn strip_dashes(b: &[u8]) -> (r: Vec<u8>)
    ensures
        r@ == without_dashes(b@),
{
    let mut r: Vec<u8> = Vec::new();
    let mut k: usize = 0;
    while k < b.len()
        invariant
            0 <= k <= b@.len(),
            r@ == without_dashes(b@.take(k as int)),
        decreases b@.len() - k,
    {
        proof {
            assert(b@.take(k + 1).drop_last() =~= b@.take(k as int));
            b@.take(k as int).lemma_filter_push(b@[k as int], |x: u8| x != 45u8);
            assert(b@.take(k as int).push(b@[k as int]) =~= b@.take(k + 1));
        }
        if b[k] != 45 {
            r.push(b[k]);
        }
        k = k + 1;
    }
    assert(b@.take(k as int) =~= b@);
    r
}

/// The tile limit chosen by a level digit.
fn tile_limit_of(level: u32) -> (t: u32)
    ensures
        t == tile_limit_for_level(level),
{
    if level == 1 { 50 } else if level == 2 { 100 } else if level == 3 { 150 }
    else if level == 4 { 250 } else if level == 5 { 500 } else { 250 }
}

/// Decodes an 18-character config string such as `0720262fJmCw2gRsn6` (dashes are
/// ignored): the seed from characters 0..6 and the rule levels from the decimal digits of
/// characters 6..12 and 12..18. A string shorter than that gives the default seed and no
/// levels.
pub fn parse_config_string(config_str: &str) -> (r: (u64, Option<CustomRuleLevels>))
    ensures
        r == spec_parse_config(config_str.spec_bytes()),
{
    let bytes = config_str.as_bytes_vec();
    let clean = strip_dashes(bytes.as_slice());
    if clean.len() < 18 {
        return (3103784960, None);
    }
    let seed_bytes = &clean.as_slice()[0..6];
    let part1_bytes = &clean.as_slice()[6..12];
    let part2_bytes = &clean.as_slice()[12..18];
    proof {
        lemma_six_digits_bound(seed_bytes@);
        lemma_six_digits_bound(part1_bytes@);
        lemma_six_digits_bound(part2_bytes@);
        assert(seed_bytes@ =~= clean@.subrange(0, 6));
        assert(part1_bytes@ =~= clean@.subrange(6, 12));
        assert(part2_bytes@ =~= clean@.subrange(12, 18));
    }
    let seed = base62_of_bytes(seed_bytes);
    let part1_val = base62_of_bytes(part1_bytes);
    let digits1 = decode_digits_10(part1_val, 10);
    let part2_val = base62_of_bytes(part2_bytes);
    let digits2 = decode_digits_10(part2_val, 10);
    let levels = CustomRuleLevels {
        tile_limit: Some(tile_limit_of(digits1[7])),
        forest_level: digits1[2],
        agriculture_level: digits1[3],
        water_level: digits1[4],
        train_level: digits1[5],
        quest_probability_level: digits1[9],
        flag_quest_level: digits2[2],
    };
    (seed, Some(levels))
}

} // verus!
