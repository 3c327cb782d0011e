use vstd::prelude::*;
use vstd::string::*;
use crate::text::{chars_of, decimal_string, join, append_decimal, str_equal};

verus! {

/// The terrain shown on one edge of a quest tile.
#[derive(Debug, Clone, Copy, PartialEq, Eq, Structural, Hash)]
pub enum TerrainType {
    Empty,
    Village,
    Forest,
    Agri,
    TrainTrack,
    Water,
}

impl TerrainType {
    pub open spec fn spec_code(self) -> Seq<char> {
        match self {
            TerrainType::Empty => "_"@,
            TerrainType::Village => "V"@,
            TerrainType::Forest => "F"@,
            TerrainType::Agri => "A"@,
            TerrainType::TrainTrack => "T"@,
            TerrainType::Water => "W"@,
        }
    }

    /// One-letter code: `_` for an empty edge.
    pub fn to_code(self) -> (s: &'static str)
        ensures
            s@ == self.spec_code(),
    {
        match self {
            TerrainType::Empty => "_",
            TerrainType::Village => "V",
            TerrainType::Forest => "F",
            TerrainType::Agri => "A",
            TerrainType::TrainTrack => "T",
            TerrainType::Water => "W",
        }
    }

    pub open spec fn spec_icon(self) -> Seq<char> {
        match self {
            TerrainType::Empty => "⬜"@,
            TerrainType::Village => "🏠"@,
            TerrainType::Forest => "🌲"@,
            TerrainType::Agri => "🌾"@,
            TerrainType::TrainTrack => "🚂"@,
            TerrainType::Water => "🌊"@,
        }
    }

    pub fn icon(self) -> (s: &'static str)
        ensures
            s@ == self.spec_icon(),
    {
        match self {
            TerrainType::Empty => "⬜",
            TerrainType::Village => "🏠",
            TerrainType::Forest => "🌲",
            TerrainType::Agri => "🌾",
            TerrainType::TrainTrack => "🚂",
            TerrainType::Water => "🌊",
        }
    }
}

/// The value of an ASCII decimal digit.
pub open spec fn ascii_digit(c: char) -> Option<nat> {
    if '0' <= c && c <= '9' { Some((c as int - '0' as int) as nat) } else { None }
}

/// An ASCII letter.
pub open spec fn is_ascii_letter(c: char) -> bool {
    ('A' <= c && c <= 'Z') || ('a' <= c && c <= 'z')
}

/// Which shape letter `c` names: 0 for A, 1 for B, 2 for C, 3 for any other character.
pub open spec fn pattern_letter(c: char) -> nat {
    if c == 'A' { 0 } else if c == 'B' { 1 } else if c == 'C' { 2 } else { 3 }
}

/// `c` in upper case when it is an ASCII lower-case letter, else `c` itself.
pub open spec fn ascii_upper(c: char) -> char {
    if 'a' <= c && c <= 'z' { ((c as u32 - 32) as u8) as char } else { c }
}

/// The terrain a letter names, ignoring case.
pub open spec fn terrain_letter(c: char) -> Option<TerrainType> {
    if c == 'V' || c == 'v' {
        Some(TerrainType::Village)
    } else if c == 'F' || c == 'f' {
        Some(TerrainType::Forest)
    } else if c == 'A' || c == 'a' {
        Some(TerrainType::Agri)
    } else if c == 'T' || c == 't' {
        Some(TerrainType::TrainTrack)
    } else if c == 'W' || c == 'w' {
        Some(TerrainType::Water)
    } else {
        None
    }
}

/// Edge offsets, relative to the first edge, that a segment of `count` edges with
/// shape letter `pat` (see `pattern_letter`) covers.
pub open spec fn pattern_offsets(count: nat, pat: nat) -> Seq<usize> {
    if count == 1 {
        seq![0]
    } else if count == 2 && pat == 0 {
        seq![0, 1]
    } else if count == 2 && pat == 1 {
        seq![0, 4]
    } else if count == 2 && pat == 2 {
        seq![0, 3]
    } else if count == 3 && pat == 0 {
        seq![0, 1, 2]
    } else if count == 3 && pat == 1 {
        seq![0, 2, 4]
    } else if count == 3 && pat == 2 {
        seq![0, 1, 3]
    } else if count == 4 && pat == 0 {
        seq![0, 1, 2, 3]
    } else if count == 4 && pat == 1 {
        seq![0, 1, 3, 5]
    } else if count == 4 && pat == 2 {
        seq![0, 1, 2, 4]
    } else if count == 5 {
        seq![0, 1, 2, 3, 4]
    } else if count == 6 {
        seq![0, 1, 2, 3, 4, 5]
    } else {
        seq![0]
    }
}

/// Law: shape `A` covers consecutive edges: a segment of `n` edges (1 to 6) covers the
/// edges 0, 1, ..., n - 1 from its first one; and so does any shape with five or six edges.
pub proof fn lemma_shape_a_is_consecutive(n: nat, pat: nat)
    requires
        1 <= n <= 6,
        pat == 0 || n >= 5,
    ensures
        pattern_offsets(n, pat) == Seq::new(n, |i: int| i as usize),
{
    assert(pattern_offsets(n, pat) =~= Seq::new(n, |i: int| i as usize));
}

/// Law: for one to six edges and shapes `A`, `B`, `C`, the pattern covers exactly `n`
/// distinct edges, starting at the first one and going round clockwise in order.
pub proof fn lemma_pattern_covers_n_edges(n: nat, pat: nat)
    requires
        1 <= n <= 6,
        pat <= 2,
    ensures
        pattern_offsets(n, pat).len() == n,
        pattern_offsets(n, pat)[0] == 0,
        forall|i: int, j: int| #![trigger pattern_offsets(n, pat)[i], pattern_offsets(n, pat)[j]]
            0 <= i < j < n ==> pattern_offsets(n, pat)[i] < pattern_offsets(n, pat)[j],
        forall|i: int| 0 <= i < n ==> #[trigger] pattern_offsets(n, pat)[i] < 6,
{
}

/// Law: shape `B` spaces its edges apart (two edges one gap apart counter-clockwise, three
/// edges every other edge), and two edges of shape `C` face each other.
pub proof fn lemma_shapes_b_and_c()
    ensures
        pattern_offsets(2, 1) == seq![0usize, 4],
        pattern_offsets(3, 1) == Seq::new(3, |i: int| (2 * i) as usize),
        pattern_offsets(2, 2) == seq![0usize, 3],
{
    assert(pattern_offsets(3, 1) =~= Seq::new(3, |i: int| (2 * i) as usize));
}

/// Every edge the pattern covers from rotation `r` is empty.
pub open spec fn pattern_fits(edges: Seq<TerrainType>, offs: Seq<usize>, r: int) -> bool {
    forall|k: int| 0 <= k < offs.len() ==> edges[(r + offs[k]) % 6] == TerrainType::Empty
}

/// The first rotation from `r` on where the pattern fits.
pub open spec fn first_fit(edges: Seq<TerrainType>, offs: Seq<usize>, r: int) -> Option<int>
    decreases 6 - r,
{
    if r >= 6 {
        None
    } else if pattern_fits(edges, offs, r) {
        Some(r)
    } else {
        first_fit(edges, offs, r + 1)
    }
}

/// `edges` with terrain `t` on every edge the pattern covers from rotation `r`.
pub open spec fn paint(edges: Seq<TerrainType>, offs: Seq<usize>, r: int, t: TerrainType) -> Seq<TerrainType> {
    Seq::new(6, |i: int| if exists|k: int| 0 <= k < offs.len() && (r + offs[k]) % 6 == i { t } else { edges[i] })
}

/// Applies one segment code such as `2AF` ("two adjacent forest edges"): digit count, shape
/// letter, terrain letter. The pattern goes at the first rotation where all its edges are
/// empty; a malformed code or a pattern that fits nowhere leaves the edges as they are.
pub open spec fn apply_segment(edges: Seq<TerrainType>, part: Seq<char>) -> Seq<TerrainType> {
    if part.len() < 3 {
        edges
    } else {
        match ascii_digit(part[0]) {
            None => edges,
            Some(count) => if !is_ascii_letter(part[1]) {
                edges
            } else {
                match terrain_letter(part[2]) {
                    None => edges,
                    Some(t) => {
                        let offs = pattern_offsets(count, pattern_letter(ascii_upper(part[1])));
                        match first_fit(edges, offs, 0) {
                            Some(r) => paint(edges, offs, r, t),
                            None => edges,
                        }
                    },
                }
            },
        }
    }
}

/// Law: a segment code `nAX` (n from 1 to 6, shape letter `A` or `a`, terrain letter X) on
/// an empty tile paints the edges 0 to n - 1 with terrain X and leaves the others empty.
pub proof fn lemma_adjacent_segment_on_empty_tile(part: Seq<char>, n: nat, t: TerrainType)
    requires
        part.len() >= 3,
        ascii_digit(part[0]) == Some(n),
        1 <= n <= 6,
        part[1] == 'A' || part[1] == 'a',
        terrain_letter(part[2]) == Some(t),
    ensures
        apply_segment(empty_edges(), part).len() == 6,
        forall|i: int| 0 <= i < 6 ==> #[trigger] apply_segment(empty_edges(), part)[i]
            == if i < n { t } else { TerrainType::Empty },
{
    let offs = pattern_offsets(n, 0);
    assert(ascii_upper(part[1]) == 'A');
    lemma_shape_a_is_consecutive(n, 0);
    assert(pattern_fits(empty_edges(), offs, 0));
    assert(first_fit(empty_edges(), offs, 0) == Some(0int));
    let e = paint(empty_edges(), offs, 0, t);
    assert forall|i: int| 0 <= i < 6 implies #[trigger] e[i] == if i < n { t } else { TerrainType::Empty } by {
        if i < n {
            assert(0 <= i < offs.len() && (0 + offs[i]) % 6 == i);
        } else {
            assert forall|k: int| 0 <= k < offs.len() implies (0 + offs[k]) % 6 != i by {
                assert(offs[k] == k);
            }
        }
    }
}

/// The relative edge offsets of a `count`/`pattern` segment shape (`pattern` an upper-case letter).
pub fn get_relative_pattern_offsets(count: usize, pattern: char) -> (r: Vec<usize>)
    ensures
        r@ == pattern_offsets(count as nat, pattern_letter(pattern)),
        forall|i: int| 0 <= i < r@.len() ==> #[trigger] r@[i] < 6,
{
    let p: usize = if pattern == 'A' { 0 } else if pattern == 'B' { 1 } else if pattern == 'C' { 2 } else { 3 };
    let r = if count == 1 {
        vec![0]
    } else if count == 2 && p == 0 {
        vec![0, 1]
    } else if count == 2 && p == 1 {
        vec![0, 4]
    } else if count == 2 && p == 2 {
        vec![0, 3]
    } else if count == 3 && p == 0 {
        vec![0, 1, 2]
    } else if count == 3 && p == 1 {
        vec![0, 2, 4]
    } else if count == 3 && p == 2 {
        vec![0, 1, 3]
    } else if count == 4 && p == 0 {
        vec![0, 1, 2, 3]
    } else if count == 4 && p == 1 {
        vec![0, 1, 3, 5]
    } else if count == 4 && p == 2 {
        vec![0, 1, 2, 4]
    } else if count == 5 {
        vec![0, 1, 2, 3, 4]
    } else if count == 6 {
        vec![0, 1, 2, 3, 4, 5]
    } else {
        vec![0]
    };
    assert(r@ =~= pattern_offsets(count as nat, pattern_letter(pattern)));
    r
}

/// Applies one segment code to the six edges (see `apply_segment`).
#[verifier::loop_isolation(false)]
pub fn parse_and_apply_segment(part: &Vec<char>, edges: &mut [TerrainType; 6])
    ensures
        final(edges)@ == apply_segment(old(edges)@, part@),
{
    if part.len() < 3 {
        return;
    }
    let c0 = part[0];
    if !(c0 >= '0' && c0 <= '9') {
        return;
    }
    let count = (c0 as u32 - '0' as u32) as usize;
    let pattern = part[1];
    if !((pattern >= 'A' && pattern <= 'Z') || (pattern >= 'a' && pattern <= 'z')) {
        return;
    }
    let c2 = part[2];
    let terrain = if c2 == 'V' || c2 == 'v' {
        TerrainType::Village
    } else if c2 == 'F' || c2 == 'f' {
        TerrainType::Forest
    } else if c2 == 'A' || c2 == 'a' {
        TerrainType::Agri
    } else if c2 == 'T' || c2 == 't' {
        TerrainType::TrainTrack
    } else if c2 == 'W' || c2 == 'w' {
        TerrainType::Water
    } else {
        return;
    };
    assert(ascii_digit(c0) == Some(count as nat));
    let upper: char = if pattern >= 'a' && pattern <= 'z' { ((pattern as u32 - 32) as u8) as char } else { pattern };
    let offs = get_relative_pattern_offsets(count, upper);
    let ghost e0 = edges@;
    let mut rotation: usize = 0;
    while rotation < 6
        invariant
            0 <= rotation <= 6,
            edges@ == e0,
            first_fit(e0, offs@, 0) == first_fit(e0, offs@, rotation as int),
        decreases 6 - rotation,
    {
        let mut fits = true;
        let mut k: usize = 0;
        while k < offs.len()
            invariant
                0 <= k <= offs.len(),
                edges@ == e0,
                0 <= rotation < 6,
                fits == (forall|m: int| 0 <= m < k ==> e0[(rotation + offs@[m]) % 6] == TerrainType::Empty),
            decreases offs.len() - k,
        {
            let idx = (rotation + offs[k]) % 6;
            if edges[idx] != TerrainType::Empty {
                fits = false;
            }
            k = k + 1;
        }
        if fits {
            let mut j: usize = 0;
            while j < offs.len()
                invariant
                    0 <= j <= offs.len(),
                    0 <= rotation < 6,
                    edges@.len() == 6,
                    forall|i: int| 0 <= i < 6 ==> #[trigger] edges@[i] == if exists|m: int| 0 <= m < j && (rotation + offs@[m]) % 6 == i { terrain } else { e0[i] },
                decreases offs.len() - j,
            {
                let idx = (rotation + offs[j]) % 6;
                edges[idx] = terrain;
                proof {
                    assert forall|i: int| 0 <= i < 6 implies #[trigger] edges@[i] == if exists|m: int| 0 <= m < j + 1 && (rotation + offs@[m]) % 6 == i { terrain } else { e0[i] } by {
                        if i == idx as int {
                            assert(0 <= j < j + 1 && (rotation + offs@[j as int]) % 6 == i);
                        } else if exists|m: int| 0 <= m < j + 1 && (rotation + offs@[m]) % 6 == i {
                            let m = choose|m: int| 0 <= m < j + 1 && (rotation + offs@[m]) % 6 == i;
                            assert(m != j);
                        }
                    }
                }
                j = j + 1;
            }
            proof {
                assert(pattern_fits(e0, offs@, rotation as int));
                assert(first_fit(e0, offs@, rotation as int) == Some(rotation as int));
                assert(edges@ =~= paint(e0, offs@, rotation as int, terrain));
            }
            return;
        }
        rotation = rotation + 1;
    }
}

} // verus!

verus! {

/// Unicode `White_Space`, the set `char::is_whitespace` tests.
pub open spec fn is_unicode_whitespace(c: char) -> bool {
    ||| '\u{9}' <= c && c <= '\u{D}'
    ||| c == ' '
    ||| c == '\u{85}'
    ||| c == '\u{A0}'
    ||| c == '\u{1680}'
    ||| '\u{2000}' <= c && c <= '\u{200A}'
    ||| c == '\u{2028}'
    ||| c == '\u{2029}'
    ||| c == '\u{202F}'
    ||| c == '\u{205F}'
    ||| c == '\u{3000}'
}

/// Whether `c` is whitespace, as `char::is_whitespace` decides.
pub fn is_whitespace_char(c: char) -> (b: bool)
    ensures
        b == is_unicode_whitespace(c),
{
    (c >= '\u{9}' && c <= '\u{D}') || c == ' ' || c == '\u{85}' || c == '\u{A0}' || c == '\u{1680}'
        || (c >= '\u{2000}' && c <= '\u{200A}') || c == '\u{2028}' || c == '\u{2029}' || c == '\u{202F}'
        || c == '\u{205F}' || c == '\u{3000}'
}

/// Scanning the first `n` characters: the whitespace-separated words completed so far
/// and the word still being read.
pub open spec fn ws_split_acc(s: Seq<char>, n: int) -> (Seq<Seq<char>>, Seq<char>)
    decreases n,
{
    if n <= 0 {
        (Seq::empty(), Seq::empty())
    } else {
        let (toks, cur) = ws_split_acc(s, n - 1);
        if is_unicode_whitespace(s[n - 1]) {
            if cur.len() > 0 { (toks.push(cur), Seq::empty()) } else { (toks, cur) }
        } else {
            (toks, cur.push(s[n - 1]))
        }
    }
}

/// The non-empty maximal runs of non-whitespace characters, in order.
pub open spec fn ws_tokens(s: Seq<char>) -> Seq<Seq<char>> {
    let (toks, cur) = ws_split_acc(s, s.len() as int);
    if cur.len() > 0 { toks.push(cur) } else { toks }
}

/// `s` with every leading repetition of `pat` removed.
pub open spec fn strip_prefix_all(s: Seq<char>, pat: Seq<char>) -> Seq<char>
    decreases s.len(),
{
    if pat.len() > 0 && pat.len() <= s.len() && s.take(pat.len() as int) == pat {
        strip_prefix_all(s.skip(pat.len() as int), pat)
    } else {
        s
    }
}

/// `s` with every trailing repetition of `pat` removed.
pub open spec fn strip_suffix_all(s: Seq<char>, pat: Seq<char>) -> Seq<char>
    decreases s.len(),
{
    if pat.len() > 0 && pat.len() <= s.len() && s.skip(s.len() - pat.len()) == pat {
        strip_suffix_all(s.take(s.len() - pat.len()), pat)
    } else {
        s
    }
}

/// A word of a tile name with its `QuestTile_` prefixes and `_Locomotive`, then
/// `-Locomotive`, suffixes removed.
pub open spec fn clean_token(tok: Seq<char>) -> Seq<char> {
    strip_suffix_all(strip_suffix_all(strip_prefix_all(tok, "QuestTile_"@), "_Locomotive"@), "-Locomotive"@)
}

/// Scanning the first `n` characters: the `-`-separated pieces completed so far and the current one.
pub open spec fn dash_split_acc(s: Seq<char>, n: int) -> (Seq<Seq<char>>, Seq<char>)
    decreases n,
{
    if n <= 0 {
        (Seq::empty(), Seq::empty())
    } else {
        let (parts, cur) = dash_split_acc(s, n - 1);
        if s[n - 1] == '-' { (parts.push(cur), Seq::empty()) } else { (parts, cur.push(s[n - 1])) }
    }
}

/// The pieces of `s` between `-` separators, empty pieces included.
pub open spec fn dash_parts(s: Seq<char>) -> Seq<Seq<char>> {
    let (parts, cur) = dash_split_acc(s, s.len() as int);
    parts.push(cur)
}

/// Applies the segment codes in order.
pub open spec fn apply_parts(edges: Seq<TerrainType>, parts: Seq<Seq<char>>) -> Seq<TerrainType>
    decreases parts.len(),
{
    if parts.len() == 0 {
        edges
    } else {
        apply_segment(apply_parts(edges, parts.drop_last()), parts.last())
    }
}

/// Applies the segment codes of each word in order.
pub open spec fn apply_tokens(edges: Seq<TerrainType>, toks: Seq<Seq<char>>) -> Seq<TerrainType>
    decreases toks.len(),
{
    if toks.len() == 0 {
        edges
    } else {
        apply_parts(apply_tokens(edges, toks.drop_last()), dash_parts(clean_token(toks.last())))
    }
}

/// Six empty edges.
pub open spec fn empty_edges() -> Seq<TerrainType> {
    Seq::new(6, |i: int| TerrainType::Empty)
}

/// The six edges a quest-tile name describes.
pub open spec fn canonical_edges(name: Seq<char>) -> Seq<TerrainType> {
    apply_tokens(empty_edges(), ws_tokens(name))
}

/// The characters `s[lo..hi]`.
pub fn sub_chars(s: &Vec<char>, lo: usize, hi: usize) -> (r: Vec<char>)
    requires
        lo <= hi <= s@.len(),
    ensures
        r@ == s@.subrange(lo as int, hi as int),
{
    let mut r: Vec<char> = Vec::new();
    let mut k = lo;
    while k < hi
        invariant
            lo <= k <= hi,
            hi <= s@.len(),
            r@ == s@.subrange(lo as int, k as int),
        decreases hi - k,
    {
        r.push(s[k]);
        assert(s@.subrange(lo as int, k + 1) =~= s@.subrange(lo as int, k as int).push(s@[k as int]));
        k = k + 1;
    }
    r
}

/// `s[at..at + pat.len()]` equals `pat`.
pub fn matches_at(s: &Vec<char>, at: usize, pat: &Vec<char>) -> (b: bool)
    requires
        at + pat@.len() <= s@.len(),
    ensures
        b == (s@.subrange(at as int, at + pat@.len()) == pat@),
{
    let n = s.len();
    let mut k: usize = 0;
    while k < pat.len()
        invariant
            0 <= k <= pat.len(),
            n == s@.len(),
            at + pat@.len() <= s@.len(),
            forall|m: int| 0 <= m < k ==> s@[at + m] == pat@[m],
        decreases pat.len() - k,
    {
        if s[at + k] != pat[k] {
            assert(s@.subrange(at as int, at + pat@.len())[k as int] != pat@[k as int]);
            return false;
        }
        k = k + 1;
    }
    assert(s@.subrange(at as int, at + pat@.len()) =~= pat@);
    true
}

/// `s` with every leading repetition of `pat` removed.
pub fn strip_prefix_all_exec(s: &Vec<char>, pat: &Vec<char>) -> (r: Vec<char>)
    ensures
        r@ == strip_prefix_all(s@, pat@),
{
    let mut start: usize = 0;
    assert(s@.skip(0) =~= s@);
    while pat.len() > 0 && pat.len() <= s.len() - start && matches_at(s, start, pat)
        invariant
            start <= s@.len(),
            strip_prefix_all(s@, pat@) == strip_prefix_all(s@.skip(start as int), pat@),
        decreases s@.len() - start,
    {
        assert(s@.skip(start as int).take(pat@.len() as int) =~= s@.subrange(start as int, start + pat@.len()));
        assert(s@.skip(start as int).skip(pat@.len() as int) =~= s@.skip(start + pat@.len()));
        start = start + pat.len();
    }
    proof {
        if pat@.len() > 0 && start + pat@.len() <= s@.len() {
            assert(s@.skip(start as int).take(pat@.len() as int) =~= s@.subrange(start as int, start + pat@.len()));
        }
    }
    let r = sub_chars(s, start, s.len());
    assert(r@ =~= s@.skip(start as int));
    r
}

/// `s` with every trailing repetition of `pat` removed.
pub fn strip_suffix_all_exec(s: &Vec<char>, pat: &Vec<char>) -> (r: Vec<char>)
    ensures
        r@ == strip_suffix_all(s@, pat@),
{
    let mut end: usize = s.len();
    assert(s@.take(end as int) =~= s@);
    while pat.len() > 0 && pat.len() <= end && matches_at(s, end - pat.len(), pat)
        invariant
            end <= s@.len(),
            strip_suffix_all(s@, pat@) == strip_suffix_all(s@.take(end as int), pat@),
        decreases end,
    {
        assert(s@.take(end as int).skip(end - pat@.len()) =~= s@.subrange(end - pat@.len(), end as int));
        assert(s@.take(end as int).take(end - pat@.len()) =~= s@.take(end - pat@.len()));
        end = end - pat.len();
    }
    proof {
        if pat@.len() > 0 && pat@.len() <= end {
            assert(s@.take(end as int).skip(end - pat@.len()) =~= s@.subrange(end - pat@.len(), end as int));
        }
    }
    sub_chars(s, 0, end)
}

/// Applies the segment codes of one cleaned word, split at `-`.
pub fn apply_dash_parts(word: &Vec<char>, edges: &mut [TerrainType; 6])
    ensures
        final(edges)@ == apply_parts(old(edges)@, dash_parts(word@)),
{
    let mut cur: Vec<char> = Vec::new();
    let mut k: usize = 0;
    while k < word.len()
        invariant
            0 <= k <= word.len(),
            cur@ == dash_split_acc(word@, k as int).1,
            edges@ == apply_parts(old(edges)@, dash_split_acc(word@, k as int).0),
        decreases word.len() - k,
    {
        let c = word[k];
        if c == '-' {
            parse_and_apply_segment(&cur, edges);
            cur = Vec::new();
        } else {
            cur.push(c);
        }
        proof {
            let (p, cu) = dash_split_acc(word@, k as int);
            if c == '-' {
                assert(p.push(cu).drop_last() =~= p);
            }
        }
        k = k + 1;
    }
    parse_and_apply_segment(&cur, edges);
    proof {
        let (p, cu) = dash_split_acc(word@, word@.len() as int);
        assert(p.push(cu).drop_last() =~= p);
    }
}

/// Applies the segment codes of one word of a tile name.
pub fn apply_token(tok: &Vec<char>, edges: &mut [TerrainType; 6], prefix: &Vec<char>, suffix1: &Vec<char>, suffix2: &Vec<char>)
    requires
        prefix@ == "QuestTile_"@,
        suffix1@ == "_Locomotive"@,
        suffix2@ == "-Locomotive"@,
    ensures
        final(edges)@ == apply_parts(old(edges)@, dash_parts(clean_token(tok@))),
{
    let a = strip_prefix_all_exec(tok, prefix);
    let b = strip_suffix_all_exec(&a, suffix1);
    let c = strip_suffix_all_exec(&b, suffix2);
    apply_dash_parts(&c, edges);
}

/// Number of the first `n` edges showing terrain `t`.
pub open spec fn count_terrain(e: Seq<TerrainType>, t: TerrainType, n: int) -> nat
    decreases n,
{
    if n <= 0 { 0 } else { count_terrain(e, t, n - 1) + if e[n - 1] == t { 1nat } else { 0nat } }
}

/// The order in which terrains are listed in a summary.
pub open spec fn summary_order() -> Seq<TerrainType> {
    seq![TerrainType::TrainTrack, TerrainType::Forest, TerrainType::Village, TerrainType::Agri, TerrainType::Water]
}

/// "count code" entries for the first `n` terrains of the summary order that occur on the edges.
pub open spec fn summary_parts(e: Seq<TerrainType>, n: int) -> Seq<Seq<char>>
    decreases n,
{
    if n <= 0 {
        Seq::empty()
    } else {
        let prev = summary_parts(e, n - 1);
        let t = summary_order()[n - 1];
        let c = count_terrain(e, t, 6);
        if c > 0 { prev.push(decimal_string(c) + " "@ + t.spec_code()) } else { prev }
    }
}

/// "2 T, 1 F"-style summary of the non-empty edges, or "Trống" when all are empty.
pub open spec fn summary_text(e: Seq<TerrainType>) -> Seq<char> {
    let parts = summary_parts(e, 5);
    if parts.len() == 0 { "Trống"@ } else { join(parts, ", "@) }
}

/// The number of edges carrying `t`.
pub fn count_terrain_exec(edges: &[TerrainType; 6], t: TerrainType) -> (c: usize)
    ensures
        c == count_terrain(edges@, t, 6),
        c <= 6,
{
    let mut c: usize = 0;
    let mut k: usize = 0;
    while k < 6
        invariant
            0 <= k <= 6,
            c == count_terrain(edges@, t, k as int),
            c <= k,
        decreases 6 - k,
    {
        if edges[k] == t {
            c = c + 1;
        }
        k = k + 1;
    }
    c
}

/// The summary of the edges: counts of each terrain, e.g. `3 F, 1 V` (`Trống` when empty).
pub fn summarize_edges(edges: &[TerrainType; 6]) -> (s: String)
    ensures
        s@ == summary_text(edges@),
{
    let order = [TerrainType::TrainTrack, TerrainType::Forest, TerrainType::Village, TerrainType::Agri, TerrainType::Water];
    assert(order@ =~= summary_order());
    let mut out = String::new();
    let mut any = false;
    let mut k: usize = 0;
    while k < 5
        invariant
            0 <= k <= 5,
            order@ == summary_order(),
            any == (summary_parts(edges@, k as int).len() > 0),
            out@ == join(summary_parts(edges@, k as int), ", "@),
        decreases 5 - k,
    {
        let t = order[k];
        let c = count_terrain_exec(edges, t);
        if c > 0 {
            let ghost prev = summary_parts(edges@, k as int);
            if any {
                out.append(", ");
            }
            append_decimal(&mut out, c as u64);
            out.append(" ");
            out.append(t.to_code());
            any = true;
            proof {
                let p = decimal_string(c as nat) + " "@ + t.spec_code();
                assert(prev.push(p).drop_last() =~= prev);
                if prev.len() == 0 {
                    assert(out@ =~= p);
                } else {
                    assert(out@ =~= join(prev, ", "@) + ", "@ + p);
                }
            }
        }
        k = k + 1;
    }
    if !any {
        out = String::from_str("Trống");
    }
    out
}

/// The six canonical edges a quest-tile name describes, with their summary: the name is
/// split into whitespace-separated words, each stripped of `QuestTile_` prefixes and
/// `_Locomotive` / `-Locomotive` suffixes and split at `-` into segment codes such as `2AF`,
/// which are applied in order (see `apply_segment`).
pub fn compute_canonical_edges_from_name(name: &str) -> (r: ([TerrainType; 6], String))
    ensures
        r.0@ == canonical_edges(name@),
        r.1@ == summary_text(r.0@),
{
    let mut edges = [TerrainType::Empty; 6];
    assert(edges@ =~= empty_edges());
    let prefix = chars_of("QuestTile_");
    let suffix1 = chars_of("_Locomotive");
    let suffix2 = chars_of("-Locomotive");
    let s = chars_of(name);
    let mut cur: Vec<char> = Vec::new();
    let mut k: usize = 0;
    while k < s.len()
        invariant
            0 <= k <= s.len(),
            s@ == name@,
            prefix@ == "QuestTile_"@,
            suffix1@ == "_Locomotive"@,
            suffix2@ == "-Locomotive"@,
            cur@ == ws_split_acc(s@, k as int).1,
            edges@ == apply_tokens(empty_edges(), ws_split_acc(s@, k as int).0),
        decreases s.len() - k,
    {
        let c = s[k];
        let ghost (toks, cu) = ws_split_acc(s@, k as int);
        if is_whitespace_char(c) {
            if cur.len() > 0 {
                apply_token(&cur, &mut edges, &prefix, &suffix1, &suffix2);
                cur = Vec::new();
                assert(toks.push(cu).drop_last() =~= toks);
            }
        } else {
            cur.push(c);
        }
        k = k + 1;
    }
    if cur.len() > 0 {
        let ghost (toks, cu) = ws_split_acc(s@, s@.len() as int);
        apply_token(&cur, &mut edges, &prefix, &suffix1, &suffix2);
        assert(toks.push(cu).drop_last() =~= toks);
    }
    let summary = summarize_edges(&edges);
    (edges, summary)
}

} // verus!

verus! {

/// The one-letter codes of six edges.
pub open spec fn edge_codes(e: Seq<TerrainType>) -> Seq<Seq<char>> {
    Seq::new(6, |i: int| e[i].spec_code())
}

/// The edges as seen after turning the tile so that edge `r` comes first.
pub open spec fn rotation_of(e: Seq<TerrainType>, r: int) -> Seq<TerrainType> {
    Seq::new(6, |i: int| e[(i + r) % 6])
}

/// Edge codes separated by single spaces.
pub fn join_codes(edges: &[TerrainType; 6]) -> (s: String)
    ensures
        s@ == join(edge_codes(edges@), " "@),
{
    let mut out = String::new();
    let mut k: usize = 0;
    while k < 6
        invariant
            0 <= k <= 6,
            out@ == join(edge_codes(edges@).take(k as int), " "@),
        decreases 6 - k,
    {
        let ghost prev = edge_codes(edges@).take(k as int);
        if k > 0 {
            out.append(" ");
        }
        out.append(edges[k].to_code());
        proof {
            let next = edge_codes(edges@).take(k + 1);
            assert(next.drop_last() =~= prev);
            if k == 0 {
                assert(out@ =~= next[0]);
            }
        }
        k = k + 1;
    }
    assert(edge_codes(edges@).take(6) =~= edge_codes(edges@));
    out
}

/// The edges turned so that edge `r` comes first.
pub fn rotated(edges: &[TerrainType; 6], r: usize) -> (e: [TerrainType; 6])
    requires
        r < 6,
    ensures
        e@ == rotation_of(edges@, r as int),
{
    let e = [edges[r % 6], edges[(1 + r) % 6], edges[(2 + r) % 6], edges[(3 + r) % 6], edges[(4 + r) % 6], edges[(5 + r) % 6]];
    assert(e@ =~= rotation_of(edges@, r as int));
    e
}

/// A quest tile's canonical edges and the objects it carries.
#[derive(Debug, Clone)]
pub struct TileTopology {
    pub name: String,
    pub edges: [TerrainType; 6],
    pub summary: String,
    pub village: usize,
    pub forest: usize,
    pub agriculture: usize,
    pub train_tracks: usize,
    pub water: usize,
}

/// One "icon count name" entry per object kind the tile carries, in a fixed order.
pub open spec fn object_parts(t: TileTopology) -> Seq<Seq<char>> {
    let p0: Seq<Seq<char>> = Seq::empty();
    let p1 = if t.village > 0 { p0.push("🏠 "@ + decimal_string(t.village as nat) + " Village"@) } else { p0 };
    let p2 = if t.forest > 0 { p1.push("🌲 "@ + decimal_string(t.forest as nat) + " Forest"@) } else { p1 };
    let p3 = if t.agriculture > 0 { p2.push("🌾 "@ + decimal_string(t.agriculture as nat) + " Agriculture"@) } else { p2 };
    let p4 = if t.train_tracks > 0 { p3.push("🚂 "@ + decimal_string(t.train_tracks as nat) + " TrainTracks"@) } else { p3 };
    if t.water > 0 { p4.push("🌊 "@ + decimal_string(t.water as nat) + " Water"@) } else { p4 }
}

/// Appends `part` to a " | "-joined list.
fn append_part(out: &mut String, first: bool, count: usize, icon: &str, label: &str, Ghost(parts): Ghost<Seq<Seq<char>>>)
    requires
        old(out)@ == join(parts, " | "@),
        first == (parts.len() == 0),
    ensures
        final(out)@ == join(parts.push(icon@ + decimal_string(count as nat) + label@), " | "@),
{
    if !first {
        out.append(" | ");
    }
    out.append(icon);
    append_decimal(out, count as u64);
    out.append(label);
    proof {
        let p = icon@ + decimal_string(count as nat) + label@;
        assert(parts.push(p).drop_last() =~= parts);
        if parts.len() == 0 {
            assert(final(out)@ =~= p);
        } else {
            assert(final(out)@ =~= join(parts, " | "@) + " | "@ + p);
        }
    }
}

impl TileTopology {
    /// The edge codes separated by spaces, such as "F F _ _ V _".
    pub fn format_edges(&self) -> (s: String)
        ensures
            s@ == join(edge_codes(self.edges@), " "@),
    {
        join_codes(&self.edges)
    }

    /// All six rotations: rotation r lists the edges starting from edge r.
    pub fn get_all_rotations(&self) -> (rots: [[TerrainType; 6]; 6])
        ensures
            forall|r: int| 0 <= r < 6 ==> (#[trigger] rots@[r])@ == rotation_of(self.edges@, r),
    {
        let rots = [rotated(&self.edges, 0), rotated(&self.edges, 1), rotated(&self.edges, 2),
            rotated(&self.edges, 3), rotated(&self.edges, 4), rotated(&self.edges, 5)];
        rots
    }

    /// The six rotations, each formatted as in `format_edges`.
    pub fn format_rotations(&self) -> (v: Vec<String>)
        ensures
            v@.len() == 6,
            forall|r: int| 0 <= r < 6 ==> (#[trigger] v@[r])@ == join(edge_codes(rotation_of(self.edges@, r)), " "@),
    {
        let rots = self.get_all_rotations();
        let mut v: Vec<String> = Vec::new();
        let mut r: usize = 0;
        while r < 6
            invariant
                0 <= r <= 6,
                v@.len() == r,
                forall|k: int| 0 <= k < 6 ==> (#[trigger] rots@[k])@ == rotation_of(self.edges@, k),
                forall|k: int| 0 <= k < r ==> (#[trigger] v@[k])@ == join(edge_codes(rotation_of(self.edges@, k)), " "@),
            decreases 6 - r,
        {
            let line = join_codes(&rots[r]);
            v.push(line);
            r = r + 1;
        }
        v
    }

    /// The objects the tile carries, such as "🏠 2 Village | 🌊 1 Water", or "Trống" when none.
    pub fn format_exact_objects(&self) -> (s: String)
        ensures
            s@ == if object_parts(*self).len() == 0 { "Trống"@ } else { join(object_parts(*self), " | "@) },
    {
        let mut out = String::new();
        let mut first = true;
        let ghost mut parts: Seq<Seq<char>> = Seq::empty();
        if self.village > 0 {
            append_part(&mut out, first, self.village, "🏠 ", " Village", Ghost(parts));
            proof { parts = parts.push("🏠 "@ + decimal_string(self.village as nat) + " Village"@); }
            first = false;
        }
        if self.forest > 0 {
            append_part(&mut out, first, self.forest, "🌲 ", " Forest", Ghost(parts));
            proof { parts = parts.push("🌲 "@ + decimal_string(self.forest as nat) + " Forest"@); }
            first = false;
        }
        if self.agriculture > 0 {
            append_part(&mut out, first, self.agriculture, "🌾 ", " Agriculture", Ghost(parts));
            proof { parts = parts.push("🌾 "@ + decimal_string(self.agriculture as nat) + " Agriculture"@); }
            first = false;
        }
        if self.train_tracks > 0 {
            append_part(&mut out, first, self.train_tracks, "🚂 ", " TrainTracks", Ghost(parts));
            proof { parts = parts.push("🚂 "@ + decimal_string(self.train_tracks as nat) + " TrainTracks"@); }
            first = false;
        }
        if self.water > 0 {
            append_part(&mut out, first, self.water, "🌊 ", " Water", Ghost(parts));
            proof { parts = parts.push("🌊 "@ + decimal_string(self.water as nat) + " Water"@); }
            first = false;
        }
        assert(parts =~= object_parts(*self));
        if !self.any_objects() {
            return String::from_str("Trống");
        }
        out
    }

    /// The tile carries at least one object.
    pub fn any_objects(&self) -> (b: bool)
        ensures
            b == (object_parts(*self).len() > 0),
    {
        self.village > 0 || self.forest > 0 || self.agriculture > 0 || self.train_tracks > 0 || self.water > 0
    }
}

} // verus!

verus! {

/// Object counts recorded for one tile in the metadata file.
#[derive(Debug, Clone)]
pub struct RawTileMetadata {
    pub tile_type: String,
    pub name: String,
    pub sub_collection: Option<String>,
    pub village: usize,
    pub forest: usize,
    pub agriculture: usize,
    pub train_tracks: usize,
    pub water: usize,
}

impl RawTileMetadata {
    /// A field-by-field copy.
    pub fn duplicate(&self) -> (r: RawTileMetadata)
        ensures
            r == *self,
    {
        let sub = match &self.sub_collection {
            Some(s) => Some(s.clone()),
            None => None,
        };
        RawTileMetadata {
            tile_type: self.tile_type.clone(),
            name: self.name.clone(),
            sub_collection: sub,
            village: self.village,
            forest: self.forest,
            agriculture: self.agriculture,
            train_tracks: self.train_tracks,
            water: self.water,
        }
    }
}

#[derive(Debug, Clone)]
pub struct TileMetadataRoot {
    pub tiles: Vec<RawTileMetadata>,
}

/// The record stored under `key`, the most recent entry winning.
pub open spec fn lookup_meta(entries: Seq<(String, RawTileMetadata)>, key: Seq<char>) -> Option<RawTileMetadata>
    decreases entries.len(),
{
    if entries.len() == 0 {
        None
    } else if entries.last().0@ == key {
        Some(entries.last().1)
    } else {
        lookup_meta(entries.drop_last(), key)
    }
}

/// The entries the metadata list produces: each tile is stored under its sub-collection
/// name (when it has one) and then under its own name.
pub open spec fn meta_entries(tiles: Seq<RawTileMetadata>) -> Seq<(String, RawTileMetadata)>
    decreases tiles.len(),
{
    if tiles.len() == 0 {
        Seq::empty()
    } else {
        let prev = meta_entries(tiles.drop_last());
        let t = tiles.last();
        let with_sub = match t.sub_collection {
            Some(s) => prev.push((s, t)),
            None => prev,
        };
        with_sub.push((t.name, t))
    }
}

/// The count a metadata record gives, 0 when the tile is unknown.
pub open spec fn count_or_zero(m: Option<RawTileMetadata>, f: spec_fn(RawTileMetadata) -> usize) -> usize {
    match m {
        Some(r) => f(r),
        None => 0,
    }
}

/// Tile metadata keyed by tile name and by sub-collection name.
pub struct MetadataDatabase {
    pub map: Vec<(String, RawTileMetadata)>,
}

impl MetadataDatabase {
    pub fn new() -> (db: MetadataDatabase)
        ensures
            db.map@.len() == 0,
    {
        MetadataDatabase { map: Vec::new() }
    }

    /// Stores `item` under `key`, replacing what was stored there.
    pub fn insert(&mut self, key: String, item: RawTileMetadata)
        ensures
            final(self).map@ == old(self).map@.push((key, item)),
    {
        self.map.push((key, item));
    }

    /// Builds the database from the metadata list (see `meta_entries`).
    pub fn from_tiles(tiles: Vec<RawTileMetadata>) -> (db: MetadataDatabase)
        ensures
            db.map@ == meta_entries(tiles@),
    {
        let mut db = MetadataDatabase::new();
        let mut k: usize = 0;
        while k < tiles.len()
            invariant
                0 <= k <= tiles.len(),
                db.map@ == meta_entries(tiles@.take(k as int)),
            decreases tiles.len() - k,
        {
            let item = tiles[k].duplicate();
            assert(tiles@.take(k + 1).drop_last() =~= tiles@.take(k as int));
            match &tiles[k].sub_collection {
                Some(sub) => {
                    let key = sub.clone();
                    let copy = item.duplicate();
                    db.insert(key, copy);
                },
                None => {},
            }
            let name = item.name.clone();
            db.insert(name, item);
            k = k + 1;
        }
        assert(tiles@.take(tiles@.len() as int) =~= tiles@);
        db
    }

    /// The record stored under `name`.
    pub fn get(&self, name: &str) -> (r: Option<RawTileMetadata>)
        ensures
            r == lookup_meta(self.map@, name@),
    {
        let mut k = self.map.len();
        assert(self.map@.take(k as int) =~= self.map@);
        while k > 0
            invariant
                k <= self.map@.len(),
                lookup_meta(self.map@, name@) == lookup_meta(self.map@.take(k as int), name@),
            decreases k,
        {
            assert(self.map@.take(k as int).drop_last() =~= self.map@.take(k - 1));
            if str_equal(self.map[k - 1].0.as_str(), name) {
                return Some(self.map[k - 1].1.duplicate());
            }
            k = k - 1;
        }
        None
    }

    /// The topology of the tile called `name`: edges and summary from the name itself,
    /// object counts from the metadata (0 for an unknown tile).
    pub fn get_topology(&self, name: &str) -> (t: TileTopology)
        ensures
            t.name@ == name@,
            t.edges@ == canonical_edges(name@),
            t.summary@ == summary_text(t.edges@),
            t.village == count_or_zero(lookup_meta(self.map@, name@), |m: RawTileMetadata| m.village),
            t.forest == count_or_zero(lookup_meta(self.map@, name@), |m: RawTileMetadata| m.forest),
            t.agriculture == count_or_zero(lookup_meta(self.map@, name@), |m: RawTileMetadata| m.agriculture),
            t.train_tracks == count_or_zero(lookup_meta(self.map@, name@), |m: RawTileMetadata| m.train_tracks),
            t.water == count_or_zero(lookup_meta(self.map@, name@), |m: RawTileMetadata| m.water),
    {
        let meta = self.get(name);
        let (village, forest, agriculture, train_tracks, water) = match &meta {
            Some(m) => (m.village, m.forest, m.agriculture, m.train_tracks, m.water),
            None => (0, 0, 0, 0, 0),
        };
        let (edges, summary) = compute_canonical_edges_from_name(name);
        TileTopology {
            name: String::from_str(name),
            edges,
            summary,
            village,
            forest,
            agriculture,
            train_tracks,
            water,
        }
    }
}

} // verus!
