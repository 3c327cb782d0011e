use vstd::prelude::*;
use vstd::string::*;
use crate::game_core::tile_topology::{is_unicode_whitespace, is_whitespace_char};
use crate::text::chars_of;

verus! {

/// The first index in `i..hi` holding `c`, or `hi` when there is none.
pub open spec fn next_index_in(s: Seq<char>, c: char, i: int, hi: int) -> int
    decreases hi - i,
{
    if i >= hi {
        hi
    } else if s[i] == c {
        i
    } else {
        next_index_in(s, c, i + 1, hi)
    }
}

/// Start of `s[lo..hi]` once leading whitespace is dropped.
pub open spec fn trim_lo(s: Seq<char>, lo: int, hi: int) -> int
    decreases hi - lo,
{
    if lo < hi && is_unicode_whitespace(s[lo]) { trim_lo(s, lo + 1, hi) } else { lo }
}

/// End of `s[lo..hi]` once trailing whitespace is dropped.
pub open spec fn trim_hi(s: Seq<char>, lo: int, hi: int) -> int
    decreases hi - lo,
{
    if lo < hi && is_unicode_whitespace(s[hi - 1]) { trim_hi(s, lo, hi - 1) } else { hi }
}

/// `s[lo..hi]` without leading and trailing whitespace, as `str::trim` gives it.
pub open spec fn trimmed(s: Seq<char>, lo: int, hi: int) -> Seq<char> {
    let a = trim_lo(s, lo, hi);
    s.subrange(a, trim_hi(s, a, hi))
}

/// The trimmed pieces of `s[i..hi]` between commas, empty ones included.
pub open spec fn comma_values(s: Seq<char>, i: int, hi: int) -> Seq<Seq<char>>
    decreases hi - i,
{
    if i > hi {
        Seq::empty()
    } else {
        let e = next_index_in(s, ',', i, hi);
        proof {
            lemma_next_index_bounds(s, ',', i, hi);
        }
        if e >= hi {
            seq![trimmed(s, i, hi)]
        } else {
            seq![trimmed(s, i, e)] + comma_values(s, e + 1, hi)
        }
    }
}

/// The rule a line `s[lo..hi]` defines: after trimming, a line that is empty or starts
/// with `#` defines none, nor does one without `=`; otherwise the key is the trimmed text
/// before the first `=` and the values are the trimmed comma-separated pieces after it.
pub open spec fn line_entry(s: Seq<char>, lo: int, hi: int) -> Option<(Seq<char>, Seq<Seq<char>>)> {
    let a = trim_lo(s, lo, hi);
    let b = trim_hi(s, a, hi);
    if a >= b || s[a] == '#' {
        None
    } else {
        let k = next_index_in(s, '=', a, b);
        if k >= b { None } else { Some((trimmed(s, a, k), comma_values(s, k + 1, b))) }
    }
}

/// End of the line `s[i..e]` without the carriage return of a `\r\n` ending.
pub open spec fn line_end(s: Seq<char>, i: int, e: int) -> int {
    if e > i && s[e - 1] == '\r' { e - 1 } else { e }
}

/// The rules defined by the lines of `s` from index `i` on, in order (lines end at `\n`,
/// a `\r` before it dropped, as `str::lines` splits them).
pub open spec fn rule_entries_from(s: Seq<char>, i: int) -> Seq<(Seq<char>, Seq<Seq<char>>)>
    decreases s.len() - i,
{
    if i < 0 || i >= s.len() {
        Seq::empty()
    } else {
        let e = next_index_in(s, '\n', i, s.len() as int);
        proof {
            lemma_next_index_bounds(s, '\n', i, s.len() as int);
        }
        let rest = if e < s.len() { rule_entries_from(s, e + 1) } else { Seq::empty() };
        match line_entry(s, i, line_end(s, i, e)) {
            Some(x) => seq![x] + rest,
            None => rest,
        }
    }
}

/// The characters of a parsed rule list.
pub open spec fn entries_view(r: Seq<(String, Vec<String>)>) -> Seq<(Seq<char>, Seq<Seq<char>>)> {
    r.map_values(|e: (String, Vec<String>)| (e.0@, e.1@.map_values(|x: String| x@)))
}

/// The index found lies in `i..=hi`.
pub proof fn lemma_next_index_bounds(s: Seq<char>, c: char, i: int, hi: int)
    requires
        i <= hi,
    ensures
        i <= next_index_in(s, c, i, hi) <= hi,
    decreases hi - i,
{
    if i < hi && s[i] != c {
        lemma_next_index_bounds(s, c, i + 1, hi);
    }
}

/// The first index in `i..hi` holding `c`, or `hi`.
fn next_index_exec(s: &Vec<char>, c: char, i: usize, hi: usize) -> (r: usize)
    requires
        i <= hi <= s@.len(),
    ensures
        r == next_index_in(s@, c, i as int, hi as int),
        i <= r <= hi,
{
    let mut k = i;
    while k < hi
        invariant
            i <= k <= hi,
            hi <= s@.len(),
            next_index_in(s@, c, i as int, hi as int) == next_index_in(s@, c, k as int, hi as int),
        decreases hi - k,
    {
        if s[k] == c {
            return k;
        }
        k = k + 1;
    }
    k
}

/// The bounds of `s[lo..hi]` without leading and trailing whitespace.
fn trim_bounds(s: &Vec<char>, lo: usize, hi: usize) -> (r: (usize, usize))
    requires
        lo <= hi <= s@.len(),
    ensures
        r.0 == trim_lo(s@, lo as int, hi as int),
        r.1 == trim_hi(s@, r.0 as int, hi as int),
        lo <= r.0 <= r.1 <= hi,
{
    let mut a = lo;
    while a < hi && is_whitespace_char(s[a])
        invariant
            lo <= a <= hi,
            hi <= s@.len(),
            trim_lo(s@, lo as int, hi as int) == trim_lo(s@, a as int, hi as int),
        decreases hi - a,
    {
        a = a + 1;
    }
    let mut b = hi;
    while b > a && is_whitespace_char(s[b - 1])
        invariant
            a <= b <= hi,
            hi <= s@.len(),
            trim_hi(s@, a as int, hi as int) == trim_hi(s@, a as int, b as int),
        decreases b - a,
    {
        b = b - 1;
    }
    (a, b)
}

/// The text `content[lo..hi]` (indices in characters), trimmed.
fn trimmed_string(content: &str, cs: &Vec<char>, lo: usize, hi: usize) -> (r: String)
    requires
        cs@ == content@,
        lo <= hi <= cs@.len(),
    ensures
        r@ == trimmed(content@, lo as int, hi as int),
{
    let (a, b) = trim_bounds(cs, lo, hi);
    String::from_str(content.substring_char(a, b))
}

/// The trimmed comma-separated values of `content[i..hi]`.
fn comma_values_exec(content: &str, cs: &Vec<char>, i: usize, hi: usize) -> (r: Vec<String>)
    requires
        cs@ == content@,
        i <= hi <= cs@.len(),
    ensures
        r@.map_values(|x: String| x@) == comma_values(content@, i as int, hi as int),
{
    let mut out: Vec<String> = Vec::new();
    let mut j = i;
    loop
        invariant
            cs@ == content@,
            i <= j <= hi <= cs@.len(),
            out@.map_values(|x: String| x@) + comma_values(content@, j as int, hi as int)
                == comma_values(content@, i as int, hi as int),
        decreases hi - j,
    {
        let e = next_index_exec(cs, ',', j, hi);
        let piece = trimmed_string(content, cs, j, e);
        let ghost before = out@.map_values(|x: String| x@);
        out.push(piece);
        assert(out@.map_values(|x: String| x@) =~= before.push(trimmed(content@, j as int, e as int)));
        if e >= hi {
            assert(comma_values(content@, j as int, hi as int) == seq![trimmed(content@, j as int, hi as int)]);
            assert(before.push(trimmed(content@, j as int, e as int)) =~= before + comma_values(content@, j as int, hi as int));
            return out;
        }
        assert(before + comma_values(content@, j as int, hi as int)
            =~= before.push(trimmed(content@, j as int, e as int)) + comma_values(content@, e + 1, hi as int));
        j = e + 1;
    }
}

/// The rule defined by the line `content[lo..hi]`, if any.
fn line_entry_exec(content: &str, cs: &Vec<char>, lo: usize, hi: usize) -> (r: Option<(String, Vec<String>)>)
    requires
        cs@ == content@,
        lo <= hi <= cs@.len(),
    ensures
        match r {
            Some(e) => line_entry(content@, lo as int, hi as int) == Some((e.0@, e.1@.map_values(|x: String| x@))),
            None => line_entry(content@, lo as int, hi as int) is None,
        },
{
    let (a, b) = trim_bounds(cs, lo, hi);
    if a >= b || cs[a] == '#' {
        return None;
    }
    let k = next_index_exec(cs, '=', a, b);
    if k >= b {
        return None;
    }
    let key = trimmed_string(content, cs, a, k);
    let values = comma_values_exec(content, cs, k + 1, b);
    Some((key, values))
}

/// Splits the text of a rule table into its rules: each line `KEY = v1, v2, ...`
/// gives the trimmed key and the trimmed values in order; empty lines, lines starting
/// with `#` and lines without `=` are skipped.
pub fn parse_rule_lines(content: &str) -> (r: Vec<(String, Vec<String>)>)
    ensures
        entries_view(r@) == rule_entries_from(content@, 0),
{
    let cs = chars_of(content);
    let n = cs.len();
    let mut out: Vec<(String, Vec<String>)> = Vec::new();
    let mut i: usize = 0;
    while i < n
        invariant
            cs@ == content@,
            n == cs@.len(),
            i <= n,
            entries_view(out@) + rule_entries_from(content@, i as int) == rule_entries_from(content@, 0),
        decreases n - i,
    {
        let e = next_index_exec(&cs, '\n', i, n);
        let le = if e > i && cs[e - 1] == '\r' { e - 1 } else { e };
        let ghost before = entries_view(out@);
        let ghost rest = if e < n { rule_entries_from(content@, e + 1) } else { Seq::empty() };
        match line_entry_exec(content, &cs, i, le) {
            Some(entry) => {
                let ghost ev = (entry.0@, entry.1@.map_values(|x: String| x@));
                out.push(entry);
                assert(entries_view(out@) =~= before.push(ev));
                assert(before + rule_entries_from(content@, i as int) =~= before.push(ev) + rest);
            },
            None => {
                assert(entries_view(out@) =~= before);
            },
        }
        if e < n {
            i = e + 1;
        } else {
            assert(rest =~= rule_entries_from(content@, n as int));
            i = n;
        }
    }
    assert(rule_entries_from(content@, i as int) =~= Seq::empty());
    assert(entries_view(out@) + rule_entries_from(content@, i as int) =~= entries_view(out@));
    out
}

} // verus!
