use vstd::prelude::*;
use vstd::string::*;
use vstd::utf8::*;
use std::collections::HashMap;
use crate::utils::number_converter::{NumberSystemConverter, converter_alphabet, encoded_value, digit_value, spec_digits,
    lemma_alphabet_nonempty, lemma_alphabet_small};

verus! {

broadcast use vstd::std_specs::hash::group_hash_axioms;

/// `needle` occurs in `h` starting at `i`.
pub open spec fn occurs_at(h: Seq<u8>, needle: Seq<u8>, i: int) -> bool {
    0 <= i && i + needle.len() <= h.len() && h.subrange(i, i + needle.len()) == needle
}

/// The first position where `needle` occurs in `h`.
pub open spec fn first_occurrence(h: Seq<u8>, needle: Seq<u8>) -> Option<int> {
    if exists|i: int| occurs_at(h, needle, i) {
        Some(choose|i: int| occurs_at(h, needle, i) && forall|j: int| 0 <= j < i ==> !occurs_at(h, needle, j))
    } else {
        None
    }
}

/// The first window position where `needle` occurs, as `slice.windows(n).position(|w| w == needle)` finds it.
pub fn find_subslice(haystack: &[u8], needle: &[u8]) -> (r: Option<usize>)
    requires
        needle@.len() > 0,
    ensures
        match r {
            Some(i) => occurs_at(haystack@, needle@, i as int)
                && forall|j: int| 0 <= j < i ==> !occurs_at(haystack@, needle@, j),
            None => forall|j: int| !occurs_at(haystack@, needle@, j),
        },
{
    let n = needle.len();
    if n > haystack.len() {
        return None;
    }
    let hlen = haystack.len();
    let mut i: usize = 0;
    while i <= hlen - n
        invariant
            hlen == haystack@.len(),
            n == needle@.len(),
            n <= haystack@.len(),
            i <= haystack@.len() - n + 1,
            forall|j: int| 0 <= j < i ==> !occurs_at(haystack@, needle@, j),
        decreases haystack@.len() - i,
    {
        let mut k: usize = 0;
        let mut same = true;
        while k < n
            invariant
                0 <= k <= n,
                n == needle@.len(),
                hlen == haystack@.len(),
                i + n <= haystack@.len(),
                same == (forall|m: int| 0 <= m < k ==> haystack@[i + m] == needle@[m]),
            decreases n - k,
        {
            if haystack[i + k] != needle[k] {
                same = false;
            }
            k = k + 1;
        }
        if same {
            assert(haystack@.subrange(i as int, i + n) =~= needle@);
            return Some(i);
        }
        assert(haystack@.subrange(i as int, i + n) != needle@) by {
            let m = choose|m: int| 0 <= m < n && haystack@[i + m] != needle@[m];
            assert(haystack@.subrange(i as int, i + n)[m] != needle@[m]);
        }
        i = i + 1;
    }
    None
}

/// The positions, left to right, where `needle` occurs in `h` from `i` on without
/// overlapping: after each occurrence the search goes on behind it.
pub open spec fn occurrences_from(h: Seq<u8>, needle: Seq<u8>, i: int) -> Seq<usize>
    decreases h.len() - i,
{
    if needle.len() == 0 || i < 0 || i + needle.len() > h.len() {
        Seq::empty()
    } else if occurs_at(h, needle, i) {
        seq![i as usize] + occurrences_from(h, needle, i + needle.len())
    } else {
        occurrences_from(h, needle, i + 1)
    }
}

proof fn lemma_occurs_in_tail(h: Seq<u8>, needle: Seq<u8>, pos: int, j: int)
    requires
        0 <= pos <= h.len(),
        0 <= j,
    ensures
        occurs_at(h.subrange(pos, h.len() as int), needle, j) <==> occurs_at(h, needle, pos + j),
{
    let t = h.subrange(pos, h.len() as int);
    if occurs_at(t, needle, j) {
        assert(h.subrange(pos + j, pos + j + needle.len()) =~= t.subrange(j, j + needle.len()));
    }
    if occurs_at(h, needle, pos + j) && j >= 0 {
        assert(h.subrange(pos + j, pos + j + needle.len()) =~= t.subrange(j, j + needle.len()));
    }
}

/// Skipping positions where the needle does not occur leaves the scan unchanged.
proof fn lemma_occurrences_skip(h: Seq<u8>, needle: Seq<u8>, pos: int, j: int)
    requires
        needle.len() > 0,
        0 <= pos,
        0 <= j,
        pos + j <= h.len(),
        forall|k: int| pos <= k < pos + j ==> !occurs_at(h, needle, k),
    ensures
        occurrences_from(h, needle, pos) == occurrences_from(h, needle, pos + j),
    decreases j,
{
    if j > 0 {
        lemma_occurrences_skip(h, needle, pos + 1, j - 1);
    }
}

/// Every position where `label` occurs in `bytes`, scanning left to right and going on
/// behind each occurrence (occurrences do not overlap).
pub fn find_all_occurrences(bytes: &[u8], label: &[u8]) -> (r: Vec<usize>)
    requires
        label@.len() > 0,
    ensures
        r@ == occurrences_from(bytes@, label@, 0),
{
    let n = bytes.len();
    let mut r: Vec<usize> = Vec::new();
    let mut pos: usize = 0;
    while pos <= n
        invariant
            n == bytes@.len(),
            label@.len() > 0,
            r@ + occurrences_from(bytes@, label@, pos as int) == occurrences_from(bytes@, label@, 0),
        decreases n + 1 - pos,
    {
        let tail = &bytes[pos..n];
        assert(tail@ =~= bytes@.subrange(pos as int, n as int));
        match find_subslice(tail, label) {
            Some(idx) => {
                proof {
                    assert forall|k: int| pos <= k < pos + idx implies !occurs_at(bytes@, label@, k) by {
                        lemma_occurs_in_tail(bytes@, label@, pos as int, k - pos);
                    }
                    lemma_occurs_in_tail(bytes@, label@, pos as int, idx as int);
                    lemma_occurrences_skip(bytes@, label@, pos as int, idx as int);
                    assert(r@.push((pos + idx) as usize) + occurrences_from(bytes@, label@, pos + idx + label@.len())
                        =~= r@ + occurrences_from(bytes@, label@, pos + idx));
                }
                r.push(pos + idx);
                pos = pos + idx + label.len();
            },
            None => {
                proof {
                    assert forall|k: int| pos <= k < n implies !occurs_at(bytes@, label@, k) by {
                        lemma_occurs_in_tail(bytes@, label@, pos as int, k - pos);
                    }
                    lemma_occurrences_skip(bytes@, label@, pos as int, n - pos);
                    assert(r@ + occurrences_from(bytes@, label@, n as int) =~= r@);
                }
                return r;
            },
        }
    }
    proof {
        assert(occurrences_from(bytes@, label@, pos as int) =~= Seq::<usize>::empty());
        assert(r@ + occurrences_from(bytes@, label@, pos as int) =~= r@);
    }
    r
}

/// An ASCII letter or digit.
pub open spec fn is_alnum_byte(b: u8) -> bool {
    (48 <= b <= 57) || (65 <= b <= 90) || (97 <= b <= 122)
}

/// Eighteen ASCII letters or digits start at `i`.
pub open spec fn alnum_run_at(d: Seq<u8>, i: int) -> bool {
    0 <= i && i + 18 <= d.len() && forall|k: int| i <= k < i + 18 ==> is_alnum_byte(#[trigger] d[k])
}

/// The 32-bit little-endian signed integer stored at `at`.
pub open spec fn le_i32(d: Seq<u8>, at: int) -> i32 {
    ((d[at] as int + d[at + 1] as int * 256 + d[at + 2] as int * 65536 + d[at + 3] as int * 16777216) as u32) as i32
}

/// The custom rule levels stored in `n` records of 26 bytes from `start`: each record holds a
/// rule type and a level; rule types 1..=16 are kept, a later record replacing an earlier one.
pub open spec fn rules_from(d: Seq<u8>, start: int, n: int) -> Map<i32, usize>
    decreases n,
{
    if n <= 0 {
        Map::empty()
    } else {
        let m = rules_from(d, start, n - 1);
        let pos = start + (n - 1) * 26;
        if pos + 8 <= d.len() && 1 <= le_i32(d, pos) <= 16 {
            m.insert(le_i32(d, pos), le_i32(d, pos + 4) as usize)
        } else {
            m
        }
    }
}

/// Record `i` of the rule table at `start` lies in `d` and holds a rule type in 1..=16.
pub open spec fn rule_record_valid(d: Seq<u8>, start: int, i: int) -> bool {
    start + i * 26 + 8 <= d.len() && 1 <= le_i32(d, start + i * 26) <= 16
}

/// Law: each of the `n` records is read: a record whose bytes lie in the data and whose rule
/// type `t` is in 1..=16 sends `t` to the level stored four bytes after it, unless a later
/// record holds the same type (the later one wins).
pub proof fn lemma_rule_record_read(d: Seq<u8>, start: int, n: int, i: int)
    requires
        0 <= i < n,
        rule_record_valid(d, start, i),
        forall|j: int| i < j < n && #[trigger] rule_record_valid(d, start, j)
            ==> le_i32(d, start + j * 26) != le_i32(d, start + i * 26),
    ensures
        rules_from(d, start, n).contains_key(le_i32(d, start + i * 26)),
        rules_from(d, start, n)[le_i32(d, start + i * 26)] == le_i32(d, start + i * 26 + 4) as usize,
    decreases n,
{
    if n - 1 > i {
        lemma_rule_record_read(d, start, n - 1, i);
        assert(rule_record_valid(d, start, n - 1) ==> le_i32(d, start + (n - 1) * 26) != le_i32(d, start + i * 26));
    }
}

/// Law: every rule in the decoded map comes from one of the `n` records: a record in the
/// data whose rule type, in 1..=16, is that rule.
pub proof fn lemma_rule_from_some_record(d: Seq<u8>, start: int, n: int, t: i32)
    requires
        rules_from(d, start, n).contains_key(t),
    ensures
        1 <= t <= 16,
        exists|i: int| 0 <= i < n && #[trigger] rule_record_valid(d, start, i) && le_i32(d, start + i * 26) == t,
    decreases n,
{
    if n > 0 {
        let pos = start + (n - 1) * 26;
        if rule_record_valid(d, start, n - 1) && le_i32(d, pos) == t {
        } else {
            lemma_rule_from_some_record(d, start, n - 1, t);
            let i = choose|i: int| 0 <= i < n - 1 && #[trigger] rule_record_valid(d, start, i) && le_i32(d, start + i * 26) == t;
            assert(0 <= i < n && rule_record_valid(d, start, i));
        }
    }
}

/// The custom rules of a save file: the twelve 26-byte records that start 87 bytes after
/// the first `Dorfromantik.CustomRuleType` marker; none without the marker.
pub open spec fn session_rules(d: Seq<u8>) -> Map<i32, usize> {
    match first_occurrence(d, rule_enum_marker()) {
        Some(e) => rules_from(d, e + 87, 12),
        None => Map::empty(),
    }
}

/// Law: with the rule marker at `e`, every one of the twelve records after it that lies in
/// the file and holds a rule type in 1..=16 is kept, with its level, unless a later record
/// of the twelve holds the same type.
pub proof fn lemma_session_rules_records(d: Seq<u8>, i: int)
    requires
        first_occurrence(d, rule_enum_marker()) is Some,
        0 <= i < 12,
        rule_record_valid(d, first_occurrence(d, rule_enum_marker())->0 + 87, i),
        forall|j: int| i < j < 12 && #[trigger] rule_record_valid(d, first_occurrence(d, rule_enum_marker())->0 + 87, j)
            ==> le_i32(d, first_occurrence(d, rule_enum_marker())->0 + 87 + j * 26)
                != le_i32(d, first_occurrence(d, rule_enum_marker())->0 + 87 + i * 26),
    ensures
        ({
            let start = first_occurrence(d, rule_enum_marker())->0 + 87;
            let t = le_i32(d, start + i * 26);
            &&& session_rules(d).contains_key(t)
            &&& session_rules(d)[t] == le_i32(d, start + i * 26 + 4) as usize
        }),
{
    lemma_rule_record_read(d, first_occurrence(d, rule_enum_marker())->0 + 87, 12, i);
}

/// The ASCII characters of the given bytes.
pub open spec fn ascii_chars(b: Seq<u8>) -> Seq<char> {
    b.map_values(|x: u8| x as char)
}

/// The bytes of `configString`.
pub open spec fn config_field_marker() -> Seq<u8> {
    seq![99u8, 111, 110, 102, 105, 103, 83, 116, 114, 105, 110, 103]
}

/// The bytes of `Dorfromantik.CustomRuleType`.
pub open spec fn rule_enum_marker() -> Seq<u8> {
    seq![68u8, 111, 114, 102, 114, 111, 109, 97, 110, 116, 105, 107, 46, 67, 117, 115, 116, 111, 109,
        82, 117, 108, 101, 84, 121, 112, 101]
}

/// Where the 18-character config string starts: the first run of 18 ASCII letters or digits
/// at or after the first `configString` marker.
pub open spec fn config_string_pos(d: Seq<u8>) -> Option<int> {
    match first_occurrence(d, config_field_marker()) {
        None => None,
        Some(f) => if exists|i: int| f <= i && alnum_run_at(d, i) {
            Some(choose|i: int| f <= i && alnum_run_at(d, i) && forall|j: int| f <= j < i ==> !alnum_run_at(d, j))
        } else {
            None
        },
    }
}

/// Settings recovered from a Dorfromantik save file.
#[derive(Debug, Clone)]
pub struct SessionSaveData {
    pub real_tile_seed: i32,
    pub config_string: String,
    pub custom_rules_map: HashMap<i32, usize>,
    pub decoded_digits_part2: Vec<usize>,
    pub decoded_digits_part3: Vec<usize>,
}

impl SessionSaveData {
    /// The level of a custom rule: from the save's rule records when present, else the
    /// config-string digit (part 3 when an index for it is given, part 2 otherwise; 0 when
    /// the index is out of range), a digit 0 meaning the default level 9.
    pub fn get_level_index(&self, rule_type_id: i32, part2_index: usize, part3_index: Option<usize>) -> (lvl: usize)
        ensures
            lvl == if self.custom_rules_map@.contains_key(rule_type_id) {
                self.custom_rules_map@[rule_type_id]
            } else {
                let digit = match part3_index {
                    Some(p3) => if p3 < self.decoded_digits_part3@.len() { self.decoded_digits_part3@[p3 as int] } else { 0 },
                    None => if part2_index < self.decoded_digits_part2@.len() { self.decoded_digits_part2@[part2_index as int] } else { 0 },
                };
                if digit == 0 { 9 } else { digit }
            },
    {
        match self.custom_rules_map.get(&rule_type_id) {
            Some(lvl) => *lvl,
            None => {
                let digit = match part3_index {
                    Some(p3) => if p3 < self.decoded_digits_part3.len() { self.decoded_digits_part3[p3] } else { 0 },
                    None => if part2_index < self.decoded_digits_part2.len() { self.decoded_digits_part2[part2_index] } else { 0 },
                };
                if digit == 0 { 9 } else { digit }
            },
        }
    }
}

#[verifier::external_type_specification]
#[verifier::external_body]
pub struct ExUtf8Error(std::str::Utf8Error);

/// `std::str::from_utf8`: succeeds exactly on valid UTF-8, and the string it returns is made
/// of the given bytes.
pub assume_specification[ std::str::from_utf8 ](v: &[u8]) -> (r: Result<&str, std::str::Utf8Error>)
    ensures
        r is Ok <==> valid_utf8(v@),
        r matches Ok(s) ==> s.spec_bytes() == v@,
;


/// The first position at or after `from` where eighteen ASCII letters or digits start.
pub fn find_alnum_run(data: &[u8], from: usize) -> (r: Option<usize>)
    ensures
        match r {
            Some(i) => from <= i && alnum_run_at(data@, i as int)
                && forall|j: int| from <= j < i ==> !alnum_run_at(data@, j),
            None => forall|j: int| from <= j ==> !alnum_run_at(data@, j),
        },
{
    let len = data.len();
    let mut i = from;
    while i < len && 18 <= len - i
        invariant
            len == data@.len(),
            from <= i,
            forall|j: int| from <= j < i ==> !alnum_run_at(data@, j),
        decreases len - i,
    {
        let mut k: usize = 0;
        let mut ok = true;
        while k < 18
            invariant
                0 <= k <= 18,
                len == data@.len(),
                i + 18 <= len,
                ok == (forall|m: int| i <= m < i + k ==> is_alnum_byte(data@[m])),
            decreases 18 - k,
        {
            let b = data[i + k];
            if !((b >= 48 && b <= 57) || (b >= 65 && b <= 90) || (b >= 97 && b <= 122)) {
                ok = false;
            }
            k = k + 1;
        }
        if ok {
            return Some(i);
        }
        i = i + 1;
    }
    None
}

/// The 32-bit little-endian signed integer stored at `at`.
pub fn read_le_i32(data: &[u8], at: usize) -> (v: i32)
    requires
        at + 4 <= data@.len(),
    ensures
        v == le_i32(data@, at as int),
{
    let u: u32 = data[at] as u32 + data[at + 1] as u32 * 256 + data[at + 2] as u32 * 65536 + data[at + 3] as u32 * 16777216;
    u as i32
}

/// Reads the custom-rule records of a save file, from `start` on.
fn read_rules(data: &[u8], start: usize) -> (m: HashMap<i32, usize>)
    requires
        start + 12 * 26 + 8 <= usize::MAX,
    ensures
        m@ == rules_from(data@, start as int, 12),
{
    let mut m: HashMap<i32, usize> = HashMap::new();
    let mut i: usize = 0;
    while i < 12
        invariant
            0 <= i <= 12,
            start + 12 * 26 + 8 <= usize::MAX,
            m@ == rules_from(data@, start as int, i as int),
        decreases 12 - i,
    {
        let item_pos = start + i * 26;
        if item_pos + 8 <= data.len() {
            let rule_type = read_le_i32(data, item_pos);
            let level = read_le_i32(data, item_pos + 4);
            if rule_type >= 1 && rule_type <= 16 {
                m.insert(rule_type, level as usize);
            }
        }
        i = i + 1;
    }
    m
}

/// A value written with at most six digits of the converter alphabet fits easily in `i64`.
pub proof fn lemma_value_bound(s: Seq<char>)
    ensures
        encoded_value(converter_alphabet(), s) < pow62(s.len()),
    decreases s.len(),
{
    lemma_alphabet_nonempty();
    lemma_alphabet_small();
    if s.len() > 0 {
        lemma_value_bound(s.drop_last());
        let a = converter_alphabet();
        lemma_digit_value_bound(a, s.last(), 0);
        let x = encoded_value(a, s.drop_last());
        let d = digit_value(a, s.last());
        let b = a.len();
        let p = pow62((s.len() - 1) as nat);
        assert(x * b + d < p * 62) by (nonlinear_arith)
            requires x < p, d < b, b <= 62, b >= 1, x >= 0, d >= 0;
    }
}

/// 62 to the power `n`.
pub open spec fn pow62(n: nat) -> nat
    decreases n,
{
    if n == 0 { 1 } else { 62 * pow62((n - 1) as nat) }
}

proof fn lemma_digit_value_bound(a: Seq<char>, c: char, i: int)
    requires
        a.len() >= 1,
        0 <= i,
    ensures
        crate::utils::number_converter::first_index_from(a, c, i) < a.len(),
    decreases a.len() - i,
{
    if i < a.len() && a[i] != c {
        lemma_digit_value_bound(a, c, i + 1);
    }
}

/// Finds the 18-character config string: after the first `configString` marker, the first
/// run of 18 ASCII letters or digits.
pub fn locate_config_string(data: &[u8]) -> (r: Result<usize, String>)
    ensures
        first_occurrence(data@, config_field_marker()) is None ==> (r matches Err(e)
            && e@ == "Could not find configString field in save file"@),
        first_occurrence(data@, config_field_marker()) is Some && config_string_pos(data@) is None ==> (r matches Err(e)
            && e@ == "Could not find 18-char ASCII ConfigString"@),
        r is Ok <==> config_string_pos(data@) is Some,
        r matches Ok(p) ==> config_string_pos(data@) == Some(p as int) && alnum_run_at(data@, p as int),
{
    let field_marker: Vec<u8> = vec![99u8, 111, 110, 102, 105, 103, 83, 116, 114, 105, 110, 103];
    assert(field_marker@ =~= config_field_marker());
    let field_pos = match find_subslice(data, field_marker.as_slice()) {
        Some(f) => f,
        None => {
            proof {
                assert(!exists|i: int| occurs_at(data@, config_field_marker(), i));
            }
            return Err(String::from_str("Could not find configString field in save file"));
        },
    };
    proof {
        let f = first_occurrence(data@, config_field_marker())->0;
        assert(first_occurrence(data@, config_field_marker()) is Some);
        assert(f == field_pos as int) by {
            if f < field_pos { } else if f > field_pos { }
        }
    }
    match find_alnum_run(data, field_pos) {
        Some(p) => {
            proof {
                assert(exists|i: int| field_pos <= i && alnum_run_at(data@, i));
                let q = config_string_pos(data@)->0;
                assert(q == p as int) by {
                    if q < p { } else if q > p { }
                }
            }
            Ok(p)
        },
        None => {
            proof {
                assert(!exists|i: int| field_pos <= i && alnum_run_at(data@, i));
            }
            Err(String::from_str("Could not find 18-char ASCII ConfigString"))
        },
    }
}

/// The 18 characters of an ASCII letter-or-digit run, as a string.
fn ascii_run_string(data: &[u8], p: usize) -> (s: String)
    requires
        alnum_run_at(data@, p as int),
    ensures
        s@ == ascii_chars(data@.subrange(p as int, p + 18)),
        is_ascii_chars(s@),
{
    let n = data.len();
    assert(p + 18 <= n);
    let bytes = &data[p..p + 18];
    let ghost cs = ascii_chars(bytes@);
    proof {
        assert(bytes@ =~= data@.subrange(p as int, p + 18));
        assert(is_ascii_chars(cs)) by {
            assert forall|i: int| 0 <= i < cs.len() implies '\0' <= #[trigger] cs[i] <= '\u{7f}' by {
                assert(is_alnum_byte(data@[p + i]));
                assert(bytes@[i] == data@[p + i]);
            }
        }
        is_ascii_chars_encode_utf8(cs);
        assert(encode_utf8(cs) =~= bytes@);
        encode_utf8_valid_utf8(cs);
    }
    match std::str::from_utf8(bytes) {
        Ok(s) => {
            proof {
                encode_utf8_decode_utf8(s@);
                encode_utf8_decode_utf8(cs);
                assert(s@ == cs);
            }
            String::from_str(s)
        },
        Err(_) => {
            proof { assert(false); }
            String::new()
        },
    }
}

/// The custom-rule levels recorded after the `Dorfromantik.CustomRuleType` marker, if any.
fn read_custom_rules(data: &[u8]) -> (m: HashMap<i32, usize>)
    requires
        data@.len() + 400 <= usize::MAX,
    ensures
        m@ == session_rules(data@),
{
    let enum_marker: Vec<u8> = vec![68u8, 111, 114, 102, 114, 111, 109, 97, 110, 116, 105, 107, 46, 67, 117, 115, 116,
        111, 109, 82, 117, 108, 101, 84, 121, 112, 101];
    assert(enum_marker@ =~= rule_enum_marker());
    match find_subslice(data, enum_marker.as_slice()) {
        Some(enum_pos) => {
            proof {
                let e = first_occurrence(data@, rule_enum_marker())->0;
                assert(first_occurrence(data@, rule_enum_marker()) is Some);
                assert(e == enum_pos as int) by {
                    if e < enum_pos { } else if e > enum_pos { }
                }
            }
            read_rules(data, enum_pos + 87)
        },
        None => {
            proof {
                assert(!exists|i: int| occurs_at(data@, rule_enum_marker(), i));
            }
            let m: HashMap<i32, usize> = HashMap::new();
            m
        },
    }
}

/// Recovers the session settings from the bytes of a save file: the 18-character config
/// string (the first run of 18 ASCII letters or digits from the `configString` marker on),
/// the tile seed stored ten bytes before it, the custom-rule records after the
/// `Dorfromantik.CustomRuleType` marker, and the base-10 digits of config-string parts
/// 2 (characters 6..12) and 3 (12..18).
#[verifier::spinoff_prover]
#[verifier::rlimit(40)]
pub fn extract_session_data(data: &[u8]) -> (r: Result<SessionSaveData, String>)
    requires
        data@.len() + 400 <= usize::MAX,
        config_string_pos(data@) matches Some(p) ==> p >= 10,
    ensures
        first_occurrence(data@, config_field_marker()) is None ==> (r matches Err(e)
            && e@ == "Could not find configString field in save file"@),
        first_occurrence(data@, config_field_marker()) is Some && config_string_pos(data@) is None ==> (r matches Err(e)
            && e@ == "Could not find 18-char ASCII ConfigString"@),
        r is Ok <==> config_string_pos(data@) is Some,
        r matches Ok(s) ==> ({
            let p = config_string_pos(data@)->0;
            let cs = ascii_chars(data@.subrange(p, p + 18));
            &&& s.real_tile_seed == le_i32(data@, p - 10)
            &&& s.config_string@ == cs
            &&& s.custom_rules_map@ == session_rules(data@)
            &&& s.decoded_digits_part2@ == spec_digits(encoded_value(converter_alphabet(), cs.subrange(6, 12)) as int, 10)
                .map_values(|d: int| d as usize)
            &&& s.decoded_digits_part3@ == spec_digits(encoded_value(converter_alphabet(), cs.subrange(12, 18)) as int, 10)
                .map_values(|d: int| d as usize)
        }),
{
    let string_pos = match locate_config_string(data) {
        Ok(p) => p,
        Err(e) => return Err(e),
    };
    let config_string = ascii_run_string(data, string_pos);
    let real_tile_seed = read_le_i32(data, string_pos - 10);
    let custom_rules_map = read_custom_rules(data);
    let converter = NumberSystemConverter::new();
    let part2_str = config_string.as_str().substring_ascii(6, 12);
    let part3_str = config_string.as_str().substring_ascii(12, 18);
    proof {
        lemma_value_bound(part2_str@);
        lemma_value_bound(part3_str@);
        reveal_with_fuel(pow62, 7);
    }
    let decoded_digits_part2 = converter.decode_number_as_digits(part2_str, 10);
    let decoded_digits_part3 = converter.decode_number_as_digits(part3_str, 10);
    Ok(SessionSaveData { real_tile_seed, config_string, custom_rules_map, decoded_digits_part2, decoded_digits_part3 })
}

} // verus!
