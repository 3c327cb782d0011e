use vstd::prelude::*;
use crate::text::str_equal;

verus! {

/// Which tile presets the generator may draw from.
#[derive(Debug, Clone, Copy, PartialEq, Eq, Structural)]
pub enum TileGenFilter {
    AtLeastTwoEmptyEdges,
    Unfiltered,
}

/// A preset (or quest sub-collection) with `occupied` occupied edges passes the filter:
/// `AtLeastTwoEmptyEdges` keeps those with fewer than five, `Unfiltered` keeps all.
pub open spec fn filter_allows(f: TileGenFilter, occupied: usize) -> bool {
    match f {
        TileGenFilter::AtLeastTwoEmptyEdges => occupied < 5,
        TileGenFilter::Unfiltered => true,
    }
}

impl TileGenFilter {
    /// Whether a preset with `occupied_edges` occupied edges passes this filter.
    pub fn allows(&self, occupied_edges: usize) -> (b: bool)
        ensures
            b == filter_allows(*self, occupied_edges),
    {
        match self {
            TileGenFilter::AtLeastTwoEmptyEdges => occupied_edges < 5,
            TileGenFilter::Unfiltered => true,
        }
    }
}

/// The indices, in order, of the first `n` presets that pass the filter.
pub open spec fn allowed_indices(f: TileGenFilter, occupied: Seq<usize>, n: int) -> Seq<usize>
    decreases n,
{
    if n <= 0 {
        Seq::empty()
    } else if filter_allows(f, occupied[n - 1]) {
        allowed_indices(f, occupied, n - 1).push((n - 1) as usize)
    } else {
        allowed_indices(f, occupied, n - 1)
    }
}

/// The indices, in order, of the presets that pass the filter, given each preset's number
/// of occupied edges.
pub fn filtered_preset_indices(used_filter: TileGenFilter, occupied_edges: &Vec<usize>) -> (r: Vec<usize>)
    ensures
        r@ == allowed_indices(used_filter, occupied_edges@, occupied_edges@.len() as int),
{
    let mut r: Vec<usize> = Vec::new();
    let mut i: usize = 0;
    while i < occupied_edges.len()
        invariant
            0 <= i <= occupied_edges@.len(),
            r@ == allowed_indices(used_filter, occupied_edges@, i as int),
        decreases occupied_edges@.len() - i,
    {
        if used_filter.allows(occupied_edges[i]) {
            r.push(i);
        }
        i = i + 1;
    }
    r
}

/// Law: the kept indices are exactly the presets that pass the filter, in increasing order.
pub proof fn lemma_allowed_indices(f: TileGenFilter, occupied: Seq<usize>, n: int)
    requires
        0 <= n <= occupied.len(),
        n <= usize::MAX,
    ensures
        forall|i: int, j: int| 0 <= i < j < allowed_indices(f, occupied, n).len()
            ==> #[trigger] allowed_indices(f, occupied, n)[i] < #[trigger] allowed_indices(f, occupied, n)[j],
        forall|k: usize| k < n ==> (#[trigger] allowed_indices(f, occupied, n).contains(k)
            <==> filter_allows(f, occupied[k as int])),
        forall|i: int| 0 <= i < allowed_indices(f, occupied, n).len() ==> #[trigger] allowed_indices(f, occupied, n)[i] < n,
    decreases n,
{
    if n > 0 {
        lemma_allowed_indices(f, occupied, n - 1);
        let prev = allowed_indices(f, occupied, n - 1);
        let cur = allowed_indices(f, occupied, n);
        let last = (n - 1) as usize;
        if filter_allows(f, occupied[n - 1]) {
            assert(cur == prev.push(last));
            assert forall|i: int, j: int| 0 <= i < j < cur.len() implies #[trigger] cur[i] < #[trigger] cur[j] by {
                if j < prev.len() {
                    assert(cur[i] == prev[i] && cur[j] == prev[j]);
                } else {
                    assert(cur[i] == prev[i]);
                }
            }
            assert forall|k: usize| k < n implies (#[trigger] cur.contains(k) <==> filter_allows(f, occupied[k as int])) by {
                if k == last {
                    assert(cur[cur.len() - 1] == k);
                } else {
                    if cur.contains(k) {
                        let i = choose|i: int| 0 <= i < cur.len() && cur[i] == k;
                        assert(i < prev.len());
                        assert(prev[i] == k);
                    }
                    if prev.contains(k) {
                        let i = choose|i: int| 0 <= i < prev.len() && prev[i] == k;
                        assert(cur[i] == k);
                    }
                }
            }
            assert forall|i: int| 0 <= i < cur.len() implies #[trigger] cur[i] < n by {
                if i < prev.len() { assert(cur[i] == prev[i]); }
            }
        } else {
            assert forall|k: usize| k < n implies (#[trigger] cur.contains(k) <==> filter_allows(f, occupied[k as int])) by {
                if k == last {
                    if cur.contains(k) {
                        let i = choose|i: int| 0 <= i < cur.len() && cur[i] == k;
                    }
                }
            }
        }
    }
}

/// The names of the tile presets, in the order the game keeps them in memory.
pub open spec fn preset_names() -> Seq<Seq<char>> {
    seq![
        "0A"@,
        "1A"@,
        "1A_1A"@,
        "1A_1A_1A"@,
        "1A_1A_1A_1A"@,
        "1A_1A_1A_1A_1A"@,
        "1A_1A_1A_1A_1A_1A"@,
        "2A"@,
        "2A_1A"@,
        "2A_1A_1A"@,
        "2A_1A_1A_1A"@,
        "2A_1A_1A_1A_1A"@,
        "2A_2A"@,
        "2A_2A_1A"@,
        "2A_2A_1A_1A"@,
        "2A_2A_2A"@,
        "2B"@,
        "2B_1A"@,
        "2B_1A_1A"@,
        "2B_1A_1A_1A"@,
        "2B_1A_1A_1A_1A"@,
        "2B_2A"@,
        "2B_2A_1A"@,
        "2B_2A_1A_1A"@,
        "2C"@,
        "2C_1A"@,
        "2C_1A_1A"@,
        "2C_1A_1A_1A"@,
        "2C_1A_1A_1A_1A"@,
        "2C_2A"@,
        "2C_2A_1A"@,
        "2C_2A_1A_1A"@,
        "2C_2A_2A"@,
        "3A"@,
        "3A_1A"@,
        "3A_1A_1A"@,
        "3A_1A_1A_1A"@,
        "3A_2A"@,
        "3A_2A_1A"@,
        "3A_2B"@,
        "3A_2B_1A"@,
        "3A_3A"@,
        "3B"@,
        "3B_1A"@,
        "3B_1A_1A"@,
        "3B_1A_1A_1A"@,
        "3B_2A"@,
        "3B_2A_1A"@,
        "3C"@,
        "3C_1A"@,
        "3C_1A_1A"@,
        "3C_1A_1A_1A"@,
        "3C_2A"@,
        "3C_2A_1A"@,
        "3D"@,
        "3D_1A"@,
        "3D_1A_1A"@,
        "3D_1A_1A_1A"@,
        "4A"@,
        "4A_1A"@,
        "4A_1A_1A"@,
        "4A_2A"@,
        "4B"@,
        "4B_1A"@,
        "4B_1A_1A"@,
        "4C"@,
        "4C_1A"@,
        "4C_1A_1A"@,
        "5A"@,
        "5A_1A"@,
        "6A"@
    ]
}

/// The first position at or after `i` where `x` occurs in `ns`.
pub open spec fn position_from(ns: Seq<Seq<char>>, x: Seq<char>, i: int) -> Option<int>
    decreases ns.len() - i,
{
    if i < 0 || i >= ns.len() {
        None
    } else if ns[i] == x {
        Some(i)
    } else {
        position_from(ns, x, i + 1)
    }
}

/// The sort key of a preset name: its position in the memory order, 999 for an unknown name.
pub open spec fn preset_order_key(name: Seq<char>) -> nat {
    match position_from(preset_names(), name, 0) {
        Some(i) => i as nat,
        None => 999,
    }
}

/// The position of a preset name in the game's memory order, or 999 for an unknown name.
pub fn preset_order_index(name: &str) -> (k: usize)
    ensures
        k == preset_order_key(name@),
{
    let names: Vec<&str> = vec![
        "0A",
        "1A",
        "1A_1A",
        "1A_1A_1A",
        "1A_1A_1A_1A",
        "1A_1A_1A_1A_1A",
        "1A_1A_1A_1A_1A_1A",
        "2A",
        "2A_1A",
        "2A_1A_1A",
        "2A_1A_1A_1A",
        "2A_1A_1A_1A_1A",
        "2A_2A",
        "2A_2A_1A",
        "2A_2A_1A_1A",
        "2A_2A_2A",
        "2B",
        "2B_1A",
        "2B_1A_1A",
        "2B_1A_1A_1A",
        "2B_1A_1A_1A_1A",
        "2B_2A",
        "2B_2A_1A",
        "2B_2A_1A_1A",
        "2C",
        "2C_1A",
        "2C_1A_1A",
        "2C_1A_1A_1A",
        "2C_1A_1A_1A_1A",
        "2C_2A",
        "2C_2A_1A",
        "2C_2A_1A_1A",
        "2C_2A_2A",
        "3A",
        "3A_1A",
        "3A_1A_1A",
        "3A_1A_1A_1A",
        "3A_2A",
        "3A_2A_1A",
        "3A_2B",
        "3A_2B_1A",
        "3A_3A",
        "3B",
        "3B_1A",
        "3B_1A_1A",
        "3B_1A_1A_1A",
        "3B_2A",
        "3B_2A_1A",
        "3C",
        "3C_1A",
        "3C_1A_1A",
        "3C_1A_1A_1A",
        "3C_2A",
        "3C_2A_1A",
        "3D",
        "3D_1A",
        "3D_1A_1A",
        "3D_1A_1A_1A",
        "4A",
        "4A_1A",
        "4A_1A_1A",
        "4A_2A",
        "4B",
        "4B_1A",
        "4B_1A_1A",
        "4C",
        "4C_1A",
        "4C_1A_1A",
        "5A",
        "5A_1A",
        "6A"
    ];
    proof {
        assert(names@.len() == preset_names().len());
        assert(forall|i: int| 0 <= i < names@.len() ==> #[trigger] names@[i]@ == preset_names()[i]);
    }
    let mut i: usize = 0;
    while i < names.len()
        invariant
            0 <= i <= names@.len(),
            names@.len() == preset_names().len(),
            forall|j: int| 0 <= j < names@.len() ==> #[trigger] names@[j]@ == preset_names()[j],
            position_from(preset_names(), name@, 0) == position_from(preset_names(), name@, i as int),
        decreases names@.len() - i,
    {
        if str_equal(names[i], name) {
            return i;
        }
        i = i + 1;
    }
    999
}

/// Presets `a` before `b`: a smaller key, or the same key and an earlier position.
pub open spec fn key_before(keys: Seq<usize>, a: usize, b: usize) -> bool {
    keys[a as int] < keys[b as int] || (keys[a as int] == keys[b as int] && a < b)
}

/// The order in which the presets are kept: the positions `0..n` sorted by key, presets
/// with equal keys keeping their relative order.
pub open spec fn is_stable_key_order(keys: Seq<usize>, r: Seq<usize>) -> bool {
    &&& r.len() == keys.len()
    &&& forall|i: int| 0 <= i < r.len() ==> #[trigger] r[i] < keys.len()
    &&& forall|x: usize| x < keys.len() ==> #[trigger] r.contains(x)
    &&& forall|i: int, j: int| 0 <= i < j < r.len() ==> key_before(keys, #[trigger] r[i], #[trigger] r[j])
}

/// Positions `0..keys.len()` sorted stably by key.
pub fn stable_order_by_key(keys: &Vec<usize>) -> (r: Vec<usize>)
    ensures
        is_stable_key_order(keys@, r@),
{
    let n = keys.len();
    let mut r: Vec<usize> = Vec::new();
    let mut k: usize = 0;
    while k < n
        invariant
            0 <= k <= n,
            n == keys@.len(),
            r@.len() == k,
            forall|i: int| 0 <= i < r@.len() ==> #[trigger] r@[i] < k,
            forall|x: usize| x < k ==> #[trigger] r@.contains(x),
            forall|i: int, j: int| 0 <= i < j < r@.len() ==> key_before(keys@, #[trigger] r@[i], #[trigger] r@[j]),
        decreases n - k,
    {
        let kk = keys[k];
        let mut p: usize = 0;
        while p < r.len() && keys[r[p]] <= kk
            invariant
                0 <= p <= r@.len(),
                n == keys@.len(),
                k < n,
                kk == keys@[k as int],
                forall|i: int| 0 <= i < r@.len() ==> #[trigger] r@[i] < k,
                forall|i: int| 0 <= i < p ==> keys@[#[trigger] r@[i] as int] <= kk,
            decreases r@.len() - p,
        {
            p = p + 1;
        }
        let ghost old_r = r@;
        r.insert(p, k);
        proof {
            let nr = r@;
            assert(nr == old_r.insert(p as int, k));
            assert forall|i: int| 0 <= i < nr.len() implies #[trigger] nr[i] < k + 1 by {
                if i < p { assert(nr[i] == old_r[i]); } else if i > p { assert(nr[i] == old_r[i - 1]); }
            }
            assert forall|x: usize| x < k + 1 implies #[trigger] nr.contains(x) by {
                if x == k {
                    assert(nr[p as int] == k);
                } else {
                    assert(old_r.contains(x));
                    let i = choose|i: int| 0 <= i < old_r.len() && old_r[i] == x;
                    if i < p { assert(nr[i] == x); } else { assert(nr[i + 1] == x); }
                }
            }
            assert forall|i: int, j: int| 0 <= i < j < nr.len() implies key_before(keys@, #[trigger] nr[i], #[trigger] nr[j]) by {
                if j < p {
                    assert(nr[i] == old_r[i] && nr[j] == old_r[j]);
                } else if j == p {
                    assert(nr[i] == old_r[i]);
                    assert(keys@[old_r[i] as int] <= kk);
                } else if i == p {
                    assert(nr[j] == old_r[j - 1]);
                    assert(keys@[old_r[p as int] as int] > kk);
                    if j - 1 > p {
                        assert(key_before(keys@, old_r[p as int], old_r[j - 1]));
                    }
                } else if i < p {
                    assert(nr[i] == old_r[i] && nr[j] == old_r[j - 1]);
                } else {
                    assert(nr[i] == old_r[i - 1] && nr[j] == old_r[j - 1]);
                }
            }
        }
        k = k + 1;
    }
    r
}

/// The order in which the game keeps the tile presets with the given names: sorted by
/// `preset_order_index`, presets with the same key in the order they came.
pub fn tile_preset_sort_order(names: &Vec<String>) -> (r: Vec<usize>)
    ensures
        is_stable_key_order(names@.map_values(|s: String| preset_order_key(s@) as usize), r@),
{
    let mut keys: Vec<usize> = Vec::new();
    let mut i: usize = 0;
    while i < names.len()
        invariant
            0 <= i <= names@.len(),
            keys@ == names@.take(i as int).map_values(|s: String| preset_order_key(s@) as usize),
        decreases names@.len() - i,
    {
        let k = preset_order_index(names[i].as_str());
        keys.push(k);
        assert(names@.take(i + 1) =~= names@.take(i as int).push(names@[i as int]));
        i = i + 1;
    }
    assert(names@.take(i as int) =~= names@);
    stable_order_by_key(&keys)
}

} // verus!
