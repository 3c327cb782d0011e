use vstd::prelude::*;
use crate::hex::AxialPos;
use crate::tile::SegmentType;

verus! {

/// One terrain feature on one edge of a placed tile.
#[derive(Debug, Clone, Copy)]
pub struct FeatureNode {
    pub pos: AxialPos,
    pub segment_type: SegmentType,
    pub edge_idx: usize,
}

/// A union-find node: a connected terrain feature spanning one or more tiles.
/// `tiles` is a set (no position occurs twice); only the root of a class carries
/// the class's tiles and open-edge count.
#[derive(Debug, Clone)]
pub struct Group {
    pub parent: usize,
    pub segment_type: SegmentType,
    pub tiles: Vec<AxialPos>,
    pub open_edges_count: usize,
}

/// Largest number of groups for which every open-edge total fits in `usize`.
pub open spec fn group_limit() -> int {
    usize::MAX as int / 6
}

/// Parents are in bounds and strictly raise the (ghost) level, so parent chains end at a root.
pub open spec fn levels_ok(gs: Seq<Group>, lv: Seq<nat>, top: nat) -> bool {
    &&& lv.len() == gs.len()
    &&& forall|i: int| 0 <= i < gs.len() ==> (#[trigger] gs[i]).parent < gs.len()
    &&& forall|i: int| 0 <= i < gs.len() ==> #[trigger] lv[i] <= top
    &&& forall|i: int|
        0 <= i < gs.len() && (#[trigger] gs[i]).parent != i ==> lv[i] < lv[gs[i].parent as int]
}

/// The root reached from node `i` by following parents.
pub open spec fn root_in(gs: Seq<Group>, lv: Seq<nat>, top: nat, i: int) -> int
    decreases top - lv[i],
    when levels_ok(gs, lv, top) && 0 <= i < gs.len()
{
    if gs[i].parent == i {
        i
    } else {
        root_in(gs, lv, top, gs[i].parent as int)
    }
}

/// Open-edge count contributed by node `i`: its own count if it is a root, else nothing.
pub open spec fn root_open(g: Group, i: int) -> nat {
    if g.parent == i { g.open_edges_count as nat } else { 0 }
}

/// Total open-edge count over the roots among the first `n` nodes.
pub open spec fn open_sum(gs: Seq<Group>, n: int) -> nat
    decreases n,
{
    if n <= 0 {
        0
    } else {
        open_sum(gs, n - 1) + root_open(gs[n - 1], n - 1)
    }
}

/// The group index stored for `key`, the most recent entry winning.
pub open spec fn lookup_node(entries: Seq<(AxialPos, SegmentType, usize)>, pos: AxialPos, s: SegmentType) -> Option<usize>
    decreases entries.len(),
{
    if entries.len() == 0 {
        None
    } else if entries.last().0 == pos && entries.last().1 == s {
        Some(entries.last().2)
    } else {
        lookup_node(entries.drop_last(), pos, s)
    }
}

/// Disjoint-set forest over terrain features, with path compression.
pub struct GroupManager {
    groups: Vec<Group>,
    /// Maps (position, segment type) to the group created for it; later entries win.
    node_to_group: Vec<(AxialPos, SegmentType, usize)>,
    level: Ghost<Seq<nat>>,
    top: Ghost<nat>,
}

impl GroupManager {
    /// Number of union-find nodes.
    pub closed spec fn len(&self) -> nat {
        self.groups@.len()
    }

    pub closed spec fn nodes_view(&self) -> Seq<(AxialPos, SegmentType, usize)> {
        self.node_to_group@
    }

    pub closed spec fn groups_view(&self) -> Seq<Group> {
        self.groups@
    }

    pub closed spec fn wf(&self) -> bool {
        &&& levels_ok(self.groups@, self.level@, self.top@)
        &&& self.groups@.len() <= group_limit()
        &&& open_sum(self.groups@, self.groups@.len() as int) <= 6 * self.groups@.len()
        &&& forall|i: int| 0 <= i < self.groups@.len() ==> (#[trigger] self.groups@[i]).tiles@.no_duplicates()
        &&& forall|k: int| 0 <= k < self.node_to_group@.len() ==> (#[trigger] self.node_to_group@[k]).2 < self.groups@.len()
    }

    /// How far node `i` can still climb: bounds the length of its parent chain.
    pub closed spec fn depth_measure(&self, i: int) -> int {
        self.top@ - self.level@[i]
    }

    /// The root of node `i`.
    pub closed spec fn root(&self, i: int) -> int {
        root_in(self.groups@, self.level@, self.top@, i)
    }

    /// The node registered for (pos, s), if any.
    pub closed spec fn node_of(&self, pos: AxialPos, s: SegmentType) -> Option<usize> {
        lookup_node(self.node_to_group@, pos, s)
    }

    /// The node registered for (pos, s) is the one that the node list records for it,
    /// the latest entry winning.
    pub proof fn lemma_node_of_lookup(&self)
        ensures
            forall|pos: AxialPos, s: SegmentType| #[trigger] self.node_of(pos, s) == lookup_node(self.nodes_view(), pos, s),
    {
    }

    /// Tiles of the class of node `i`.
    pub closed spec fn class_tiles(&self, i: int) -> Seq<AxialPos> {
        self.groups@[self.root(i)].tiles@
    }

    /// Open-edge count of the class of node `i`.
    pub closed spec fn class_open(&self, i: int) -> usize {
        self.groups@[self.root(i)].open_edges_count
    }

    /// Size of the feature that (pos, s) belongs to; 0 when it is unknown.
    pub open spec fn spec_group_size(&self, pos: AxialPos, s: SegmentType) -> nat {
        match self.node_of(pos, s) {
            Some(g) => self.class_tiles(g as int).len(),
            None => 0,
        }
    }

    /// The feature of (pos, s) is known and has no open edge left.
    pub open spec fn spec_group_closed(&self, pos: AxialPos, s: SegmentType) -> bool {
        match self.node_of(pos, s) {
            Some(g) => self.class_open(g as int) == 0,
            None => false,
        }
    }

    pub fn new() -> (m: GroupManager)
        ensures
            m.wf(),
            m.len() == 0,
            forall|pos: AxialPos, s: SegmentType| m.node_of(pos, s) is None,
            m.classes() == (Seq::<int>::empty(), Seq::<Set<AxialPos>>::empty(), Seq::<int>::empty()),
            m.nodes_view() == Seq::<(AxialPos, SegmentType, usize)>::empty(),
            forall|pos: AxialPos, s: SegmentType| #[trigger] m.spec_group_size(pos, s) == 0 && !m.spec_group_closed(pos, s),
    {
        GroupManager {
            groups: Vec::new(),
            node_to_group: Vec::new(),
            level: Ghost(Seq::empty()),
            top: Ghost(0),
        }
    }

    proof fn lemma_root_props(&self, i: int)
        requires
            levels_ok(self.groups@, self.level@, self.top@),
            0 <= i < self.groups@.len(),
        ensures
            0 <= self.root(i) < self.groups@.len(),
            self.groups@[self.root(i)].parent == self.root(i),
            self.level@[self.root(i)] >= self.level@[i],
            self.groups@[i].parent != i ==> self.level@[self.root(i)] > self.level@[i],
            self.groups@[i].parent == i ==> self.root(i) == i,
            self.groups@[i].parent != i ==> self.root(i) == self.root(self.groups@[i].parent as int),
        decreases self.top@ - self.level@[i],
    {
        let gs = self.groups@;
        if gs[i].parent != i {
            self.lemma_root_props(gs[i].parent as int);
        }
    }

    /// The representative (root) of node `i`; compresses the path from `i` to it.
    pub fn find(&mut self, i: usize) -> (r: usize)
        requires
            old(self).wf(),
            i < old(self).len(),
        ensures
            final(self).wf(),
            r as int == old(self).root(i as int),
            r < final(self).len(),
            final(self).groups_view()[r as int].parent == r,
            final(self).root(r as int) == r,
            final(self).len() == old(self).len(),
            forall|k: int| 0 <= k < final(self).len() ==> #[trigger] final(self).root(k) == old(self).root(k),
            forall|k: int| 0 <= k < final(self).len() ==> (#[trigger] final(self).groups_view()[k]).tiles@
                == old(self).groups_view()[k].tiles@,
            forall|k: int| 0 <= k < final(self).len() ==> (#[trigger] final(self).groups_view()[k]).open_edges_count
                == old(self).groups_view()[k].open_edges_count,
            forall|k: int| 0 <= k < final(self).len() ==> ((#[trigger] final(self).groups_view()[k]).parent == k
                <==> old(self).groups_view()[k].parent == k),
            final(self).nodes_view() == old(self).nodes_view(),
            final(self).same_classes(*old(self)),
            forall|p: AxialPos, s: SegmentType| #[trigger] final(self).spec_group_size(p, s) == old(self).spec_group_size(p, s)
                && final(self).spec_group_closed(p, s) == old(self).spec_group_closed(p, s),
        decreases old(self).depth_measure(i as int),
    {
        proof { old(self).lemma_root_props(i as int); }
        if self.groups[i].parent == i {
            proof { GroupManager::lemma_same_classes_queries(*self, *old(self)); }
            return i;
        }
        let p = self.groups[i].parent;
        proof { old(self).lemma_root_props(old(self).root(i as int)); }
        proof { self.lemma_root_props(p as int); }
        let root = self.find(p);
        let ghost mid = *self;
        proof {
            mid.lemma_root_props(i as int);
            mid.lemma_root_props(root as int);
        }
        self.groups[i].parent = root;
        proof {
            assert(self.groups@ =~= mid.groups@.update(i as int, Group { parent: root, ..mid.groups@[i as int] }));
            lemma_open_sum_update(mid.groups@, mid.groups@.len() as int, i as int, self.groups@[i as int]);
            lemma_redirect_preserves_roots(mid, *self, i as int);
            self.lemma_root_props(root as int);
            assert(self.same_classes(*old(self)));
            GroupManager::lemma_same_classes_queries(*self, *old(self));
        }
        root
    }

    /// Merges the classes of `i` and `j`: the root of `j` is attached under the root of `i`,
    /// which takes over its tiles (as a set union) and adds its open-edge count.
    pub fn union(&mut self, i: usize, j: usize)
        requires
            old(self).wf(),
            i < old(self).len(),
            j < old(self).len(),
        ensures
            final(self).wf(),
            final(self).len() == old(self).len(),
            final(self).nodes_view() == old(self).nodes_view(),
            ({
                let ri = old(self).root(i as int);
                let rj = old(self).root(j as int);
                let og = old(self).groups_view();
                let ng = final(self).groups_view();
                &&& forall|k: int| 0 <= k < old(self).len() ==> #[trigger] final(self).root(k)
                    == if old(self).root(k) == rj { ri } else { old(self).root(k) }
                &&& ri != rj ==> ng[ri].tiles@.to_set() == og[ri].tiles@.to_set() + og[rj].tiles@.to_set()
                &&& ri != rj ==> ng[ri].open_edges_count == og[ri].open_edges_count + og[rj].open_edges_count
                &&& ri != rj ==> ng[rj].tiles@.len() == 0
                &&& forall|k: int| 0 <= k < old(self).len() && (ri == rj || (k != ri && k != rj))
                    ==> (#[trigger] ng[k]).tiles@ == og[k].tiles@ && ng[k].open_edges_count == og[k].open_edges_count
            }),
    {
        let root_i = self.find(i);
        let root_j = self.find(j);
        if root_i == root_j {
            return;
        }
        let ghost before = *self;
        proof {
            before.lemma_root_props(root_i as int);
            before.lemma_root_props(root_j as int);
            lemma_open_sum_two(before.groups@, before.groups@.len() as int, root_i as int, root_j as int);
            let lv = before.level@;
            let new_level: nat = if lv[root_i as int] > lv[root_j as int] { lv[root_i as int] } else { lv[root_j as int] + 1 };
            self.level = Ghost(lv.update(root_i as int, new_level));
            self.top = Ghost(if new_level > before.top@ { new_level } else { before.top@ });
        }
        let open_j = self.groups[root_j].open_edges_count;
        let mut j_tiles: Vec<AxialPos> = Vec::new();
        std::mem::swap(&mut j_tiles, &mut self.groups[root_j].tiles);
        self.groups[root_j].parent = root_i;
        let mut i_tiles: Vec<AxialPos> = Vec::new();
        std::mem::swap(&mut i_tiles, &mut self.groups[root_i].tiles);
        let merged = merge_tile_sets(i_tiles, &j_tiles);
        self.groups[root_i].tiles = merged;
        self.groups[root_i].open_edges_count = self.groups[root_i].open_edges_count + open_j;
        proof {
            let og = before.groups@;
            let mid = og.update(root_j as int, self.groups@[root_j as int]);
            assert(self.groups@ =~= mid.update(root_i as int, self.groups@[root_i as int]));
            lemma_open_sum_update(og, og.len() as int, root_j as int, self.groups@[root_j as int]);
            lemma_open_sum_update(mid, mid.len() as int, root_i as int, self.groups@[root_i as int]);
            lemma_attach_root(before, *self, root_j as int, root_i as int);
        }
    }
}

/// Changing one entry changes the root-open total by the difference of its contributions.
pub proof fn lemma_open_sum_update(gs: Seq<Group>, n: int, k: int, g: Group)
    requires
        0 <= k < gs.len(),
        n <= gs.len(),
    ensures
        k < n ==> open_sum(gs.update(k, g), n) == open_sum(gs, n) - root_open(gs[k], k) + root_open(g, k),
        k >= n ==> open_sum(gs.update(k, g), n) == open_sum(gs, n),
    decreases n,
{
    if n > 0 {
        lemma_open_sum_update(gs, n - 1, k, g);
    }
}

/// Two distinct roots contribute at most the total.
pub proof fn lemma_open_sum_two(gs: Seq<Group>, n: int, a: int, b: int)
    requires
        0 <= a < n,
        0 <= b < n,
        a != b,
        n <= gs.len(),
    ensures
        root_open(gs[a], a) + root_open(gs[b], b) <= open_sum(gs, n),
    decreases n,
{
    if n - 1 != a && n - 1 != b {
        lemma_open_sum_two(gs, n - 1, a, b);
    } else if n - 1 == a {
        lemma_open_sum_one(gs, n - 1, b);
    } else {
        lemma_open_sum_one(gs, n - 1, a);
    }
}

/// One root contributes at most the total.
pub proof fn lemma_open_sum_one(gs: Seq<Group>, n: int, a: int)
    requires
        0 <= a < n,
        n <= gs.len(),
    ensures
        root_open(gs[a], a) <= open_sum(gs, n),
    decreases n,
{
    if n - 1 != a {
        lemma_open_sum_one(gs, n - 1, a);
    }
}

/// Appending a node adds its contribution.
pub proof fn lemma_open_sum_push(gs: Seq<Group>, g: Group, n: int)
    requires
        0 <= n <= gs.len(),
    ensures
        open_sum(gs.push(g), n) == open_sum(gs, n),
        open_sum(gs.push(g), gs.len() + 1int) == open_sum(gs, gs.len() as int) + root_open(g, gs.len() as int),
    decreases n,
{
    if n > 0 {
        lemma_open_sum_push(gs, g, n - 1);
    }
    assert(gs.push(g).drop_last() =~= gs);
    lemma_open_sum_prefix(gs.push(g), gs, gs.len() as int);
}

/// The total over the first `n` nodes only depends on those nodes.
pub proof fn lemma_open_sum_prefix(a: Seq<Group>, b: Seq<Group>, n: int)
    requires
        0 <= n <= a.len(),
        n <= b.len(),
        forall|i: int| 0 <= i < n ==> a[i] == b[i],
    ensures
        open_sum(a, n) == open_sum(b, n),
    decreases n,
{
    if n > 0 {
        lemma_open_sum_prefix(a, b, n - 1);
    }
}

/// Pointing node `i` straight at its root leaves every node's root unchanged.
proof fn lemma_redirect_preserves_roots(before: GroupManager, after: GroupManager, i: int)
    requires
        levels_ok(before.groups@, before.level@, before.top@),
        0 <= i < before.groups@.len(),
        after.level@ == before.level@,
        after.top@ == before.top@,
        after.groups@.len() == before.groups@.len(),
        after.groups@[i].parent as int == before.root(i),
        forall|k: int| 0 <= k < before.groups@.len() && k != i ==> #[trigger] after.groups@[k].parent == before.groups@[k].parent,
    ensures
        levels_ok(after.groups@, after.level@, after.top@),
        forall|k: int| 0 <= k < after.groups@.len() ==> #[trigger] after.root(k) == before.root(k),
{
    before.lemma_root_props(i);
    assert forall|k: int| 0 <= k < after.groups@.len() && (#[trigger] after.groups@[k]).parent != k implies
        after.level@[k] < after.level@[after.groups@[k].parent as int] by {
        if k == i {
            before.lemma_root_props(i);
            assert(before.groups@[i].parent != i);
        }
    }
    assert forall|k: int| 0 <= k < after.groups@.len() implies #[trigger] after.root(k) == before.root(k) by {
        lemma_redirect_root_one(before, after, i, k);
    }
}

proof fn lemma_redirect_root_one(before: GroupManager, after: GroupManager, i: int, k: int)
    requires
        levels_ok(before.groups@, before.level@, before.top@),
        levels_ok(after.groups@, after.level@, after.top@),
        0 <= i < before.groups@.len(),
        0 <= k < before.groups@.len(),
        after.level@ == before.level@,
        after.top@ == before.top@,
        after.groups@.len() == before.groups@.len(),
        after.groups@[i].parent as int == before.root(i),
        forall|j: int| 0 <= j < before.groups@.len() && j != i ==> #[trigger] after.groups@[j].parent == before.groups@[j].parent,
    ensures
        after.root(k) == before.root(k),
    decreases before.top@ - before.level@[k],
{
    before.lemma_root_props(k);
    after.lemma_root_props(k);
    if k == i {
        let r = before.root(i);
        before.lemma_root_props(i);
        if after.groups@[i].parent != i {
            assert(r != i);
            after.lemma_root_props(r);
            assert(after.groups@[r].parent == before.groups@[r].parent);
        }
    } else if before.groups@[k].parent != k {
        lemma_redirect_root_one(before, after, i, before.groups@[k].parent as int);
    }
}

} // verus!

verus! {

/// `v` contains `p`.
pub fn contains_pos(v: &Vec<AxialPos>, p: AxialPos) -> (b: bool)
    ensures
        b == v@.contains(p),
{
    let mut k: usize = 0;
    while k < v.len()
        invariant
            0 <= k <= v.len(),
            forall|m: int| 0 <= m < k ==> v@[m] != p,
        decreases v.len() - k,
    {
        if v[k] == p {
            return true;
        }
        k = k + 1;
    }
    false
}

/// Set union of two duplicate-free tile lists: `a` followed by the members of `b` not in `a`.
pub fn merge_tile_sets(a: Vec<AxialPos>, b: &Vec<AxialPos>) -> (r: Vec<AxialPos>)
    requires
        a@.no_duplicates(),
    ensures
        r@.no_duplicates(),
        r@.to_set() == a@.to_set() + b@.to_set(),
        r@.take(a@.len() as int) == a@,
{
    let mut r = a;
    let ghost a0 = r@;
    let mut k: usize = 0;
    while k < b.len()
        invariant
            0 <= k <= b.len(),
            r@.no_duplicates(),
            r@.to_set() == a0.to_set() + b@.take(k as int).to_set(),
            r@.len() >= a0.len(),
            r@.take(a0.len() as int) == a0,
        decreases b.len() - k,
    {
        let p = b[k];
        let ghost before = r@;
        if !contains_pos(&r, p) {
            r.push(p);
            assert(r@.take(a0.len() as int) =~= before.take(a0.len() as int));
        }
        assert(b@.take(k + 1) =~= b@.take(k as int).push(p));
        assert(r@.to_set() =~= a0.to_set() + b@.take(k + 1).to_set()) by {
            assert(before.push(p).to_set() =~= before.to_set().insert(p)) by {
                assert forall|x: AxialPos| before.push(p).to_set().contains(x) <==> before.to_set().insert(p).contains(x) by {
                    if x == p { assert(before.push(p)[before.len() as int] == p); }
                    else if before.push(p).contains(x) {
                        let m = choose|m: int| 0 <= m < before.push(p).len() && #[trigger] before.push(p)[m] == x;
                        assert(before[m] == x);
                    } else if before.contains(x) {
                        let m = choose|m: int| 0 <= m < before.len() && #[trigger] before[m] == x;
                        assert(before.push(p)[m] == x);
                    }
                }
            }
            assert(b@.take(k as int).push(p).to_set() =~= b@.take(k as int).to_set().insert(p)) by {
                let t = b@.take(k as int);
                assert forall|x: AxialPos| t.push(p).to_set().contains(x) <==> t.to_set().insert(p).contains(x) by {
                    if x == p { assert(t.push(p)[t.len() as int] == p); }
                    else if t.push(p).contains(x) {
                        let m = choose|m: int| 0 <= m < t.push(p).len() && #[trigger] t.push(p)[m] == x;
                        assert(t[m] == x);
                    } else if t.contains(x) {
                        let m = choose|m: int| 0 <= m < t.len() && #[trigger] t[m] == x;
                        assert(t.push(p)[m] == x);
                    }
                }
            }
        }
        k = k + 1;
    }
    assert(b@.take(b.len() as int) =~= b@);
    r
}

/// Attaching root `x` under another root `y` sends exactly the class of `x` to `y`.
proof fn lemma_attach_root(before: GroupManager, after: GroupManager, x: int, y: int)
    requires
        levels_ok(before.groups@, before.level@, before.top@),
        0 <= x < before.groups@.len(),
        0 <= y < before.groups@.len(),
        x != y,
        before.groups@[x].parent == x,
        before.groups@[y].parent == y,
        after.groups@.len() == before.groups@.len(),
        after.groups@[x].parent == y,
        after.groups@[y].parent == y,
        after.level@.len() == before.level@.len(),
        after.level@[y] > before.level@[x],
        after.level@[y] >= before.level@[y],
        forall|k: int| 0 <= k < before.level@.len() && k != y ==> #[trigger] after.level@[k] == before.level@[k],
        forall|k: int| 0 <= k < after.level@.len() ==> #[trigger] after.level@[k] <= after.top@,
        forall|k: int| 0 <= k < before.groups@.len() && k != x ==> #[trigger] after.groups@[k].parent == before.groups@[k].parent,
    ensures
        levels_ok(after.groups@, after.level@, after.top@),
        forall|k: int| 0 <= k < after.groups@.len() ==> #[trigger] after.root(k)
            == if before.root(k) == x { y } else { before.root(k) },
{
    assert forall|k: int| 0 <= k < after.groups@.len() && (#[trigger] after.groups@[k]).parent != k implies
        after.level@[k] < after.level@[after.groups@[k].parent as int] by {
        if k != x {
            assert(before.groups@[k].parent != k);
        }
    }
    assert(levels_ok(after.groups@, after.level@, after.top@));
    assert forall|k: int| 0 <= k < after.groups@.len() implies #[trigger] after.root(k)
        == if before.root(k) == x { y } else { before.root(k) } by {
        lemma_attach_root_one(before, after, x, y, k);
    }
}

proof fn lemma_attach_root_one(before: GroupManager, after: GroupManager, x: int, y: int, k: int)
    requires
        levels_ok(before.groups@, before.level@, before.top@),
        levels_ok(after.groups@, after.level@, after.top@),
        0 <= x < before.groups@.len(),
        0 <= y < before.groups@.len(),
        0 <= k < before.groups@.len(),
        x != y,
        before.groups@[x].parent == x,
        before.groups@[y].parent == y,
        after.groups@.len() == before.groups@.len(),
        after.groups@[x].parent == y,
        after.groups@[y].parent == y,
        forall|j: int| 0 <= j < before.groups@.len() && j != x ==> #[trigger] after.groups@[j].parent == before.groups@[j].parent,
    ensures
        after.root(k) == if before.root(k) == x { y } else { before.root(k) },
    decreases before.top@ - before.level@[k],
{
    before.lemma_root_props(k);
    after.lemma_root_props(k);
    after.lemma_root_props(y);
    if k == x {
    } else if before.groups@[k].parent == k {
    } else {
        lemma_attach_root_one(before, after, x, y, before.groups@[k].parent as int);
    }
}

} // verus!

verus! {

/// The edges recorded for `pos` in a placement list, the most recent entry winning.
pub open spec fn lookup_edges(entries: Seq<(AxialPos, [SegmentType; 6])>, pos: AxialPos) -> Option<[SegmentType; 6]>
    decreases entries.len(),
{
    if entries.len() == 0 {
        None
    } else if entries.last().0 == pos {
        Some(entries.last().1)
    } else {
        lookup_edges(entries.drop_last(), pos)
    }
}

/// Number of edges of `e` carrying `s`, among the first `n`.
pub open spec fn count_segment(e: Seq<SegmentType>, s: SegmentType, n: int) -> nat
    decreases n,
{
    if n <= 0 {
        0
    } else {
        count_segment(e, s, n - 1) + if e[n - 1] == s { 1nat } else { 0nat }
    }
}

/// The distinct segment types of `e` among its first `n` edges, in order of first appearance.
pub open spec fn distinct_prefix(e: Seq<SegmentType>, n: int) -> Seq<SegmentType>
    decreases n,
{
    if n <= 0 {
        Seq::empty()
    } else {
        let d = distinct_prefix(e, n - 1);
        if d.contains(e[n - 1]) { d } else { d.push(e[n - 1]) }
    }
}

/// The edges recorded for `pos` in a placement list.
pub fn find_edges(entries: &Vec<(AxialPos, [SegmentType; 6])>, pos: AxialPos) -> (r: Option<[SegmentType; 6]>)
    ensures
        r == lookup_edges(entries@, pos),
{
    let mut k = entries.len();
    assert(entries@.take(k as int) =~= entries@);
    while k > 0
        invariant
            k <= entries@.len(),
            lookup_edges(entries@, pos) == lookup_edges(entries@.take(k as int), pos),
        decreases k,
    {
        let e = entries[k - 1];
        assert(entries@.take(k as int).drop_last() =~= entries@.take(k - 1));
        if e.0 == pos {
            return Some(e.1);
        }
        k = k - 1;
    }
    None
}

/// Distinct segment types of a tile's edges in order of first appearance.
pub fn distinct_segments(edges: &[SegmentType; 6]) -> (r: Vec<SegmentType>)
    ensures
        r@ == distinct_prefix(edges@, 6),
{
    let mut r: Vec<SegmentType> = Vec::new();
    let mut k: usize = 0;
    while k < 6
        invariant
            0 <= k <= 6,
            r@ == distinct_prefix(edges@, k as int),
        decreases 6 - k,
    {
        let s = edges[k];
        let mut seen = false;
        let mut m: usize = 0;
        while m < r.len()
            invariant
                0 <= m <= r.len(),
                seen == (exists|x: int| 0 <= x < m && r@[x] == s),
            decreases r.len() - m,
        {
            if r[m] == s {
                seen = true;
            }
            m = m + 1;
        }
        if !seen {
            r.push(s);
        }
        k = k + 1;
    }
    r
}

/// Number of edges carrying `s`.
pub fn count_edges(edges: &[SegmentType; 6], s: SegmentType) -> (c: usize)
    ensures
        c == count_segment(edges@, s, 6),
        c <= 6,
{
    let mut c: usize = 0;
    let mut k: usize = 0;
    while k < 6
        invariant
            0 <= k <= 6,
            c == count_segment(edges@, s, k as int),
            c <= k,
        decreases 6 - k,
    {
        if edges[k] == s {
            c = c + 1;
        }
        k = k + 1;
    }
    c
}

impl GroupManager {
    /// The group registered for (pos, s).
    pub fn find_node(&self, pos: AxialPos, s: SegmentType) -> (r: Option<usize>)
        requires
            self.wf(),
        ensures
            r == self.node_of(pos, s),
            r matches Some(g) ==> g < self.len(),
    {
        let mut k = self.node_to_group.len();
        assert(self.node_to_group@.take(k as int) =~= self.node_to_group@);
        while k > 0
            invariant
                k <= self.node_to_group@.len(),
                self.wf(),
                lookup_node(self.node_to_group@, pos, s) == lookup_node(self.node_to_group@.take(k as int), pos, s),
            decreases k,
        {
            let e = self.node_to_group[k - 1];
            assert(self.node_to_group@.take(k as int).drop_last() =~= self.node_to_group@.take(k - 1));
            if e.0 == pos && e.1 == s {
                return Some(e.2);
            }
            k = k - 1;
        }
        None
    }

    /// Tiles in the feature that (pos, stype) belongs to; 0 when it is unknown.
    pub fn get_group_size(&mut self, pos: AxialPos, stype: SegmentType) -> (n: usize)
        requires
            old(self).wf(),
        ensures
            final(self).wf(),
            final(self).same_classes(*old(self)),
            n == old(self).spec_group_size(pos, stype),
    {
        match self.find_node(pos, stype) {
            Some(g) => {
                let root = self.find(g);
                self.groups[root].tiles.len()
            }
            None => 0,
        }
    }

    /// The feature of (pos, stype) is known and has no open edge left.
    pub fn is_group_closed(&mut self, pos: AxialPos, stype: SegmentType) -> (b: bool)
        requires
            old(self).wf(),
        ensures
            final(self).wf(),
            final(self).same_classes(*old(self)),
            b == old(self).spec_group_closed(pos, stype),
    {
        match self.find_node(pos, stype) {
            Some(g) => {
                let root = self.find(g);
                self.groups[root].open_edges_count == 0
            }
            None => false,
        }
    }

    /// Both managers describe the same features: same nodes, same roots, same root data.
    pub closed spec fn same_classes(&self, other: GroupManager) -> bool {
        &&& self.groups@.len() == other.groups@.len()
        &&& self.node_to_group@ == other.node_to_group@
        &&& forall|k: int| 0 <= k < self.groups@.len() ==> #[trigger] self.root(k) == other.root(k)
        &&& forall|k: int| 0 <= k < self.groups@.len() ==> (#[trigger] self.groups@[k]).tiles@ == other.groups@[k].tiles@
            && self.groups@[k].open_edges_count == other.groups@[k].open_edges_count
    }

    /// Law: the size of a feature is the number of distinct tiles in its class, and a
    /// feature is closed exactly when its class has no open edge left.
    pub proof fn lemma_queries_from_classes(&self)
        requires
            self.wf(),
        ensures
            forall|pos: AxialPos, s: SegmentType| #[trigger] self.spec_group_size(pos, s) == match self.node_of(pos, s) {
                Some(g) => self.classes().1[g as int].len(),
                None => 0,
            },
            forall|pos: AxialPos, s: SegmentType| #[trigger] self.spec_group_closed(pos, s) == match self.node_of(pos, s) {
                Some(g) => self.classes().2[g as int] == 0,
                None => false,
            },
    {
        assert forall|pos: AxialPos, s: SegmentType| #[trigger] self.spec_group_size(pos, s) == match self.node_of(pos, s) {
            Some(g) => self.classes().1[g as int].len(),
            None => 0,
        } by {
            if let Some(g) = self.node_of(pos, s) {
                lemma_lookup_bound(self.node_to_group@, pos, s, self.groups@.len());
                self.lemma_root_props(g as int);
                self.class_tiles(g as int).unique_seq_to_set();
            }
        }
        assert forall|pos: AxialPos, s: SegmentType| #[trigger] self.spec_group_closed(pos, s) == match self.node_of(pos, s) {
            Some(g) => self.classes().2[g as int] == 0,
            None => false,
        } by {
            if let Some(g) = self.node_of(pos, s) {
                lemma_lookup_bound(self.node_to_group@, pos, s, self.groups@.len());
            }
        }
    }

    /// Law: refining the forest never shrinks a feature: a query about a node registered in
    /// both managers finds at least as many tiles afterwards.
    pub proof fn lemma_sizes_never_shrink(after: GroupManager, before: GroupManager, pos: AxialPos, s: SegmentType)
        requires
            before.wf(),
            after.wf(),
            after.refines(before),
            after.node_of(pos, s) == before.node_of(pos, s),
        ensures
            after.spec_group_size(pos, s) >= before.spec_group_size(pos, s),
    {
        if let Some(g) = before.node_of(pos, s) {
            lemma_lookup_bound(before.node_to_group@, pos, s, before.groups@.len());
            before.lemma_root_props(g as int);
            after.lemma_root_props(g as int);
            before.class_tiles(g as int).unique_seq_to_set();
            after.class_tiles(g as int).unique_seq_to_set();
            vstd::set_lib::lemma_len_subset(before.class_tiles(g as int).to_set(), after.class_tiles(g as int).to_set());
        }
    }

    /// The classes list one entry per node, and every registered node is one of them.
    pub proof fn lemma_classes_shape(&self)
        requires
            self.wf(),
        ensures
            self.classes().0.len() == self.len(),
            self.classes().1.len() == self.len(),
            self.classes().2.len() == self.len(),
            forall|pos: AxialPos, s: SegmentType| #[trigger] self.node_of(pos, s) matches Some(g) ==> g < self.len(),
            forall|k: int| 0 <= k < self.len() ==> 0 <= #[trigger] self.classes().0[k] < self.len(),
    {
        assert forall|pos: AxialPos, s: SegmentType| #[trigger] self.node_of(pos, s) matches Some(g) ==> g < self.len() by {
            lemma_lookup_bound(self.node_to_group@, pos, s, self.groups@.len());
        }
        assert forall|k: int| 0 <= k < self.len() implies 0 <= #[trigger] self.classes().0[k] < self.len() by {
            self.lemma_root_props(k);
        }
    }

    /// Law: the root of a node is its own root, and a node that is its own parent is a
    /// root, so `find` on the result of `find` returns it again.
    pub proof fn lemma_root_idempotent(&self, i: int)
        requires
            self.wf(),
            0 <= i < self.len(),
        ensures
            self.root(self.root(i)) == self.root(i),
            self.groups_view()[i].parent == i ==> self.root(i) == i,
    {
        self.lemma_root_props(i);
        self.lemma_root_props(self.root(i));
    }

    /// Managers with the same features register the same nodes.
    pub proof fn lemma_same_classes_nodes(a: GroupManager, b: GroupManager)
        requires
            a.same_classes(b),
        ensures
            a.nodes_view() == b.nodes_view(),
            forall|p: AxialPos, s: SegmentType| #[trigger] a.node_of(p, s) == b.node_of(p, s),
    {
    }

    pub proof fn lemma_same_classes_refl(a: GroupManager)
        ensures
            a.same_classes(a),
    {
    }

    pub proof fn lemma_same_classes_trans(a: GroupManager, b: GroupManager, c: GroupManager)
        requires
            a.same_classes(b),
            b.same_classes(c),
        ensures
            a.same_classes(c),
    {
        assert forall|k: int| 0 <= k < a.groups@.len() implies #[trigger] a.root(k) == c.root(k) by {
            assert(b.root(k) == c.root(k));
        }
        assert forall|k: int| 0 <= k < a.groups@.len() implies (#[trigger] a.groups@[k]).tiles@ == c.groups@[k].tiles@
            && a.groups@[k].open_edges_count == c.groups@[k].open_edges_count by {
            assert(b.groups@[k].tiles@ == c.groups@[k].tiles@);
        }
    }

    /// Managers with the same features answer every size and closedness query alike.
    pub proof fn lemma_same_classes_queries(a: GroupManager, b: GroupManager)
        requires
            a.wf(),
            b.wf(),
            a.same_classes(b),
        ensures
            a.len() == b.len(),
            a.refines(b),
            forall|pos: AxialPos, s: SegmentType| #[trigger] a.spec_group_size(pos, s) == b.spec_group_size(pos, s),
            forall|pos: AxialPos, s: SegmentType| #[trigger] a.spec_group_closed(pos, s) == b.spec_group_closed(pos, s),
    {
        assert forall|k: int| 0 <= k < b.groups@.len() implies
            (#[trigger] b.class_tiles(k)).to_set().subset_of(a.class_tiles(k).to_set()) by {
            b.lemma_root_props(k);
        }
        assert forall|pos: AxialPos, s: SegmentType| #[trigger] a.spec_group_size(pos, s) == b.spec_group_size(pos, s) by {
            if let Some(g) = a.node_of(pos, s) {
                lemma_lookup_bound(a.node_to_group@, pos, s, a.groups@.len());
                a.lemma_root_props(g as int);
            }
        }
        assert forall|pos: AxialPos, s: SegmentType| #[trigger] a.spec_group_closed(pos, s) == b.spec_group_closed(pos, s) by {
            if let Some(g) = a.node_of(pos, s) {
                lemma_lookup_bound(a.node_to_group@, pos, s, a.groups@.len());
                a.lemma_root_props(g as int);
            }
        }
    }

    /// Adds a fresh root node for (pos, s) holding the single tile `pos`.
    fn push_group(&mut self, pos: AxialPos, s: SegmentType, open: usize)
        requires
            old(self).wf(),
            old(self).len() + 1 <= group_limit(),
            open <= 6,
        ensures
            final(self).wf(),
            final(self).len() == old(self).len() + 1,
            final(self).nodes_view() == old(self).nodes_view().push((pos, s, old(self).len() as usize)),
            final(self).groups_view() == old(self).groups_view().push(Group {
                parent: old(self).len() as usize,
                segment_type: s,
                tiles: final(self).groups_view().last().tiles,
                open_edges_count: open,
            }),
            final(self).groups_view().last().tiles@ == seq![pos],
            forall|k: int| 0 <= k < old(self).len() ==> #[trigger] final(self).root(k) == old(self).root(k),
            final(self).root(old(self).len() as int) == old(self).len(),
            final(self).classes() == classes_push(old(self).classes(), pos, open as int),
    {
        let idx = self.groups.len();
        let mut tiles: Vec<AxialPos> = Vec::new();
        tiles.push(pos);
        let ghost before = *self;
        let g = Group { parent: idx, segment_type: s, tiles, open_edges_count: open };
        self.groups.push(g);
        self.node_to_group.push((pos, s, idx));
        proof {
            let lv = before.level@;
            self.level = Ghost(lv.push(0));
            lemma_open_sum_push(before.groups@, g, before.groups@.len() as int);
            assert(seq![pos].no_duplicates());
            assert forall|k: int| 0 <= k < self.groups@.len() && (#[trigger] self.groups@[k]).parent != k implies
                self.level@[k] < self.level@[self.groups@[k].parent as int] by {
                assert(self.groups@[k] == before.groups@[k]);
            }
            assert(levels_ok(self.groups@, self.level@, self.top@));
            assert forall|k: int| 0 <= k < before.groups@.len() implies #[trigger] self.root(k) == before.root(k) by {
                lemma_push_root(before, *self, k);
            }
            self.lemma_root_props(idx as int);
            let c = self.classes();
            let u = classes_push(before.classes(), pos, open as int);
            assert forall|k: int| 0 <= k < self.groups@.len() implies c.0[k] == u.0[k] && c.1[k] == u.1[k] && c.2[k] == u.2[k] by {
                if k < before.groups@.len() {
                    before.lemma_root_props(k);
                    assert(self.groups@[before.root(k)] == before.groups@[before.root(k)]);
                } else {
                    assert(seq![pos].to_set() =~= set![pos]) by {
                        assert(seq![pos][0] == pos);
                    }
                }
            }
            assert(c.0 =~= u.0);
            assert(c.1 =~= u.1);
            assert(c.2 =~= u.2);
        }
    }
}

proof fn lemma_push_root(before: GroupManager, after: GroupManager, k: int)
    requires
        levels_ok(before.groups@, before.level@, before.top@),
        levels_ok(after.groups@, after.level@, after.top@),
        0 <= k < before.groups@.len(),
        after.top@ == before.top@,
        after.groups@.len() == before.groups@.len() + 1,
        forall|j: int| 0 <= j < before.groups@.len() ==> #[trigger] after.groups@[j] == before.groups@[j],
        forall|j: int| 0 <= j < before.groups@.len() ==> #[trigger] after.level@[j] == before.level@[j],
    ensures
        after.root(k) == before.root(k),
    decreases before.top@ - before.level@[k],
{
    before.lemma_root_props(k);
    after.lemma_root_props(k);
    if before.groups@[k].parent != k {
        lemma_push_root(before, after, before.groups@[k].parent as int);
    }
}

/// Every group index stored in the node table is in bounds.
pub proof fn lemma_lookup_bound(entries: Seq<(AxialPos, SegmentType, usize)>, pos: AxialPos, s: SegmentType, n: nat)
    requires
        forall|k: int| 0 <= k < entries.len() ==> (#[trigger] entries[k]).2 < n,
    ensures
        lookup_node(entries, pos, s) matches Some(g) ==> g < n,
    decreases entries.len(),
{
    if entries.len() > 0 {
        lemma_lookup_bound(entries.drop_last(), pos, s, n);
    }
}

} // verus!

verus! {

/// The neighbor cell of `pos` in direction `d` (0..5).
pub open spec fn neighbor_cell(pos: AxialPos, d: int) -> AxialPos {
    AxialPos { q: (pos.q + crate::hex::dir_dq(d)) as i32, r: (pos.r + crate::hex::dir_dr(d)) as i32 }
}

/// All six neighbors of `pos` have `i32` coordinates.
pub open spec fn pos_interior(pos: AxialPos) -> bool {
    i32::MIN < pos.q < i32::MAX && i32::MIN < pos.r < i32::MAX
}

/// The node of the neighboring feature that edge `d` of a tile at `pos` connects to:
/// the neighbor is placed, its facing edge carries the same terrain, and that
/// terrain has a node there.
pub open spec fn matched_neighbor(
    nodes: Seq<(AxialPos, SegmentType, usize)>,
    adj: Seq<(AxialPos, [SegmentType; 6])>,
    pos: AxialPos,
    edges: Seq<SegmentType>,
    d: int,
) -> Option<usize> {
    let n = neighbor_cell(pos, d);
    match lookup_edges(adj, n) {
        Some(ne) => if ne@[(d + 3) % 6] == edges[d] { lookup_node(nodes, n, edges[d]) } else { None },
        None => None,
    }
}

impl GroupManager {
    /// `self` keeps every class of `before` together and every class's tiles.
    pub closed spec fn refines(&self, before: GroupManager) -> bool {
        &&& self.groups@.len() >= before.groups@.len()
        &&& forall|k1: int, k2: int| 0 <= k1 < before.groups@.len() && 0 <= k2 < before.groups@.len()
            && before.root(k1) == before.root(k2) ==> #[trigger] self.root(k1) == #[trigger] self.root(k2)
        &&& forall|k: int| 0 <= k < before.groups@.len() ==>
            (#[trigger] before.class_tiles(k)).to_set().subset_of(self.class_tiles(k).to_set())
    }

    pub proof fn lemma_refines_trans(a: GroupManager, b: GroupManager, c: GroupManager)
        requires
            c.refines(b),
            b.refines(a),
        ensures
            c.refines(a),
    {
        assert forall|k1: int, k2: int| 0 <= k1 < a.groups@.len() && 0 <= k2 < a.groups@.len()
            && a.root(k1) == a.root(k2) implies #[trigger] c.root(k1) == #[trigger] c.root(k2) by {
            assert(b.root(k1) == b.root(k2));
        }
        assert forall|k: int| 0 <= k < a.groups@.len() implies
            (#[trigger] a.class_tiles(k)).to_set().subset_of(c.class_tiles(k).to_set()) by {
            assert(b.class_tiles(k).to_set().subset_of(c.class_tiles(k).to_set()));
        }
    }

    /// Joins the feature of `pos` for terrain `stype` with its matching neighbor in direction `dir`.
    fn connect_edge(
        &mut self,
        pos: AxialPos,
        stype: SegmentType,
        group_idx: usize,
        dir: usize,
        adjacent_placed: &Vec<(AxialPos, [SegmentType; 6])>,
        edges: &[SegmentType; 6],
    )
        requires
            old(self).wf(),
            group_idx < old(self).len(),
            dir < 6,
            edges@[dir as int] == stype,
            pos_interior(pos),
        ensures
            final(self).wf(),
            final(self).len() == old(self).len(),
            final(self).nodes_view() == old(self).nodes_view(),
            final(self).refines(*old(self)),
            matched_neighbor(old(self).nodes_view(), adjacent_placed@, pos, edges@, dir as int) matches Some(ng)
                ==> ng < final(self).len() && final(self).root(ng as int) == final(self).root(group_idx as int),
            final(self).classes() == classes_connect(old(self).classes(), group_idx as int,
                matched_neighbor(old(self).nodes_view(), adjacent_placed@, pos, edges@, dir as int)),
    {
        let npos = pos.neighbor(dir);
        proof {
            assert(npos == neighbor_cell(pos, dir as int));
        }
        let ghost s0 = *self;
        match find_edges(adjacent_placed, npos) {
            Some(nedges) => {
                let opp = AxialPos::opposite_dir(dir);
                if nedges[opp] == stype {
                    match self.find_node(npos, stype) {
                        Some(ng) => {
                            self.join_nodes(group_idx, ng);
                        },
                        None => {
                            proof { self.lemma_refines_self(); }
                        },
                    }
                } else {
                    proof { self.lemma_refines_self(); }
                }
            },
            None => {
                proof { self.lemma_refines_self(); }
            },
        }
    }

    /// Joins the classes of nodes `g` and `ng` and closes two open edges of the result.
    fn join_nodes(&mut self, group_idx: usize, ng: usize)
        requires
            old(self).wf(),
            group_idx < old(self).len(),
            ng < old(self).len(),
        ensures
            final(self).wf(),
            final(self).len() == old(self).len(),
            final(self).nodes_view() == old(self).nodes_view(),
            final(self).refines(*old(self)),
            final(self).root(ng as int) == final(self).root(group_idx as int),
            final(self).classes() == classes_close_pair(classes_union(old(self).classes(), group_idx as int, ng as int),
                group_idx as int),
    {
        let ghost s0 = *self;
        let root_curr = self.find(group_idx);
        let ghost s1 = *self;
        proof {
            s1.lemma_find_refines(s0);
            s1.lemma_same_classes_classes(s0);
        }
        let root_neigh = self.find(ng);
        let ghost s2 = *self;
        proof {
            s2.lemma_find_refines(s1);
            GroupManager::lemma_refines_trans(s0, s1, s2);
            s2.lemma_same_classes_classes(s1);
            s0.lemma_root_props(group_idx as int);
            s0.lemma_root_props(ng as int);
            s0.lemma_root_props(root_curr as int);
            s0.lemma_root_props(root_neigh as int);
            let c = s0.classes();
            assert(c.0[root_curr as int] == c.0[group_idx as int]);
            assert(c.1[root_curr as int] == c.1[group_idx as int]);
            assert(c.2[root_curr as int] == c.2[group_idx as int]);
            assert(c.0[root_neigh as int] == c.0[ng as int]);
            assert(c.1[root_neigh as int] == c.1[ng as int]);
            assert(c.2[root_neigh as int] == c.2[ng as int]);
            assert(classes_union(c, root_curr as int, root_neigh as int) == classes_union(c, group_idx as int, ng as int));
        }
        if root_curr != root_neigh {
            self.union(root_curr, root_neigh);
            proof {
                self.lemma_union_refines(s2, root_curr as int, root_neigh as int);
                GroupManager::lemma_refines_trans(s0, s2, *self);
                s2.lemma_root_props(root_curr as int);
                s2.lemma_root_props(root_neigh as int);
                self.lemma_union_classes(s2, root_curr as int, root_neigh as int);
            }
        }
        let ghost s3 = *self;
        proof {
            assert(s3.classes() == classes_union(s0.classes(), group_idx as int, ng as int));
            s0.lemma_root_props(group_idx as int);
            s0.lemma_root_props(ng as int);
        }
        let root = self.find(group_idx);
        let ghost s4 = *self;
        proof {
            s4.lemma_find_refines(s3);
            GroupManager::lemma_refines_trans(s0, s3, s4);
            s4.lemma_same_classes_classes(s3);
        }
        if self.groups[root].open_edges_count >= 2 {
            self.groups[root].open_edges_count = self.groups[root].open_edges_count - 2;
        } else {
            self.groups[root].open_edges_count = 0;
        }
        proof {
            let g = self.groups@[root as int];
            assert(self.groups@ =~= s4.groups@.update(root as int, g));
            lemma_open_sum_update(s4.groups@, s4.groups@.len() as int, root as int, g);
            lemma_same_parents_same_roots(s4, *self);
            self.lemma_open_change_refines(s4);
            GroupManager::lemma_refines_trans(s0, s4, *self);
            self.lemma_close_pair_classes(s4, group_idx as int, root as int);
        }
    }

    /// Closing two open edges of the root `r` of node `g` changes the classes as
    /// `classes_close_pair` says.
    proof fn lemma_close_pair_classes(&self, before: GroupManager, g: int, r: int)
        requires
            before.wf(),
            0 <= g < before.groups@.len(),
            r == before.root(g),
            self.level@ == before.level@,
            self.top@ == before.top@,
            self.groups@ == before.groups@.update(r, Group {
                open_edges_count: if before.groups@[r].open_edges_count >= 2 {
                    (before.groups@[r].open_edges_count - 2) as usize
                } else {
                    0
                },
                ..before.groups@[r]
            }),
        ensures
            self.classes() == classes_close_pair(before.classes(), g),
    {
        before.lemma_root_props(g);
        lemma_same_parents_same_roots(before, *self);
        let c = self.classes();
        let b = before.classes();
        let u = classes_close_pair(b, g);
        assert forall|k: int| 0 <= k < self.groups@.len() implies c.1[k] == u.1[k] && c.2[k] == u.2[k] by {
            before.lemma_root_props(k);
        }
        assert(c.0 =~= u.0);
        assert(c.1 =~= u.1);
        assert(c.2 =~= u.2);
    }

    proof fn lemma_refines_self(&self)
        ensures
            self.refines(*self),
    {
    }

    proof fn lemma_find_refines(&self, before: GroupManager)
        requires
            before.wf(),
            self.same_classes(before),
        ensures
            self.refines(before),
    {
        assert forall|k: int| 0 <= k < before.groups@.len() implies
            (#[trigger] before.class_tiles(k)).to_set().subset_of(self.class_tiles(k).to_set()) by {
            before.lemma_root_props(k);
        }
    }

    proof fn lemma_union_refines(&self, before: GroupManager, ri: int, rj: int)
        requires
            before.wf(),
            0 <= ri < before.groups@.len(),
            0 <= rj < before.groups@.len(),
            ri != rj,
            before.root(ri) == ri,
            before.root(rj) == rj,
            self.groups@.len() == before.groups@.len(),
            forall|k: int| 0 <= k < before.groups@.len() ==> #[trigger] self.root(k)
                == if before.root(k) == rj { ri } else { before.root(k) },
            self.groups@[ri].tiles@.to_set() == before.groups@[ri].tiles@.to_set() + before.groups@[rj].tiles@.to_set(),
            forall|k: int| 0 <= k < before.groups@.len() && k != ri && k != rj
                ==> (#[trigger] self.groups@[k]).tiles@ == before.groups@[k].tiles@,
        ensures
            self.refines(before),
    {
        assert forall|k: int| 0 <= k < before.groups@.len() implies
            (#[trigger] before.class_tiles(k)).to_set().subset_of(self.class_tiles(k).to_set()) by {
            before.lemma_root_props(k);
        }
    }

    proof fn lemma_open_change_refines(&self, before: GroupManager)
        requires
            before.wf(),
            self.groups@.len() == before.groups@.len(),
            forall|k: int| 0 <= k < before.groups@.len() ==> #[trigger] self.root(k) == before.root(k),
            forall|k: int| 0 <= k < before.groups@.len() ==> (#[trigger] self.groups@[k]).tiles@ == before.groups@[k].tiles@,
        ensures
            self.refines(before),
    {
        assert forall|k: int| 0 <= k < before.groups@.len() implies
            (#[trigger] before.class_tiles(k)).to_set().subset_of(self.class_tiles(k).to_set()) by {
            before.lemma_root_props(k);
        }
    }
}

/// Managers whose parents and levels agree have the same roots.
proof fn lemma_same_parents_same_roots(a: GroupManager, b: GroupManager)
    requires
        levels_ok(a.groups@, a.level@, a.top@),
        a.level@ == b.level@,
        a.top@ == b.top@,
        a.groups@.len() == b.groups@.len(),
        forall|k: int| 0 <= k < a.groups@.len() ==> #[trigger] a.groups@[k].parent == b.groups@[k].parent,
    ensures
        levels_ok(b.groups@, b.level@, b.top@),
        forall|k: int| 0 <= k < a.groups@.len() ==> #[trigger] a.root(k) == b.root(k),
{
    assert forall|k: int| 0 <= k < b.groups@.len() implies (#[trigger] b.groups@[k]).parent < b.groups@.len() by {
        assert(a.groups@[k].parent == b.groups@[k].parent);
    }
    assert forall|k: int| 0 <= k < b.groups@.len() && (#[trigger] b.groups@[k]).parent != k implies
        b.level@[k] < b.level@[b.groups@[k].parent as int] by {
        assert(a.groups@[k].parent == b.groups@[k].parent);
    }
    assert forall|k: int| 0 <= k < a.groups@.len() implies #[trigger] a.root(k) == b.root(k) by {
        lemma_same_parents_root_one(a, b, k);
    }
}

proof fn lemma_same_parents_root_one(a: GroupManager, b: GroupManager, k: int)
    requires
        levels_ok(a.groups@, a.level@, a.top@),
        levels_ok(b.groups@, b.level@, b.top@),
        a.level@ == b.level@,
        a.top@ == b.top@,
        a.groups@.len() == b.groups@.len(),
        0 <= k < a.groups@.len(),
        forall|j: int| 0 <= j < a.groups@.len() ==> #[trigger] a.groups@[j].parent == b.groups@[j].parent,
    ensures
        a.root(k) == b.root(k),
    decreases a.top@ - a.level@[k],
{
    a.lemma_root_props(k);
    b.lemma_root_props(k);
    if a.groups@[k].parent != k {
        lemma_same_parents_root_one(a, b, a.groups@[k].parent as int);
    }
}

} // verus!

verus! {

/// `distinct_prefix` lists each segment type of the prefix exactly once.
pub proof fn lemma_distinct_prefix(e: Seq<SegmentType>, n: int)
    requires
        0 <= n <= e.len(),
    ensures
        distinct_prefix(e, n).no_duplicates(),
        distinct_prefix(e, n).len() <= n,
        forall|s: SegmentType| #[trigger] distinct_prefix(e, n).contains(s) <==> e.take(n).contains(s),
    decreases n,
{
    if n > 0 {
        lemma_distinct_prefix(e, n - 1);
        let d = distinct_prefix(e, n - 1);
        assert(e.take(n) =~= e.take(n - 1).push(e[n - 1]));
        assert forall|s: SegmentType| #[trigger] distinct_prefix(e, n).contains(s) <==> e.take(n).contains(s) by {
            if s == e[n - 1] {
                assert(e.take(n)[n - 1] == s);
                if !d.contains(s) {
                    assert(d.push(s)[d.len() as int] == s);
                }
            } else {
                if e.take(n).contains(s) {
                    let m = choose|m: int| 0 <= m < n && #[trigger] e.take(n)[m] == s;
                    assert(e.take(n - 1)[m] == s);
                }
                if e.take(n - 1).contains(s) {
                    let m = choose|m: int| 0 <= m < n - 1 && #[trigger] e.take(n - 1)[m] == s;
                    assert(e.take(n)[m] == s);
                }
                if !d.contains(e[n - 1]) {
                    if d.push(e[n - 1]).contains(s) {
                        let m = choose|m: int| 0 <= m < d.len() + 1 && #[trigger] d.push(e[n - 1])[m] == s;
                        assert(d[m] == s);
                    }
                    if d.contains(s) {
                        let m = choose|m: int| 0 <= m < d.len() && #[trigger] d[m] == s;
                        assert(d.push(e[n - 1])[m] == s);
                    }
                }
            }
        }
    }
}

/// Appending an entry for another key leaves a lookup unchanged.
pub proof fn lemma_lookup_push_other(nodes: Seq<(AxialPos, SegmentType, usize)>, e: (AxialPos, SegmentType, usize), pos: AxialPos, s: SegmentType)
    requires
        e.0 != pos || e.1 != s,
    ensures
        lookup_node(nodes.push(e), pos, s) == lookup_node(nodes, pos, s),
{
    assert(nodes.push(e).drop_last() =~= nodes);
}

/// A neighbor cell is never the cell itself.
pub proof fn lemma_neighbor_cell_differs(pos: AxialPos, d: int)
    requires
        pos_interior(pos),
        0 <= d < 6,
    ensures
        neighbor_cell(pos, d) != pos,
{
}

impl GroupManager {
    /// Joins the feature (pos, stype), node `group_idx`, with every matching neighbor.
    fn connect_all(
        &mut self,
        pos: AxialPos,
        stype: SegmentType,
        group_idx: usize,
        edges: &[SegmentType; 6],
        adjacent_placed: &Vec<(AxialPos, [SegmentType; 6])>,
    )
        requires
            old(self).wf(),
            group_idx < old(self).len(),
            pos_interior(pos),
        ensures
            final(self).wf(),
            final(self).len() == old(self).len(),
            final(self).nodes_view() == old(self).nodes_view(),
            final(self).refines(*old(self)),
            forall|d: int, ng: usize| 0 <= d < 6 && #[trigger] edges@[d] == stype
                && matched_neighbor(old(self).nodes_view(), adjacent_placed@, pos, edges@, d) == Some(ng)
                ==> #[trigger] final(self).root(ng as int) == final(self).root(group_idx as int),
            final(self).classes() == classes_connect_all(old(self).classes(), group_idx as int, stype, edges@,
                old(self).nodes_view(), adjacent_placed@, pos, 6),
    {
        proof { self.lemma_refines_self(); }
        let mut dir: usize = 0;
        while dir < 6
            invariant
                0 <= dir <= 6,
                old(self).wf(),
                self.wf(),
                group_idx < old(self).len(),
                pos_interior(pos),
                self.len() == old(self).len(),
                self.nodes_view() == old(self).nodes_view(),
                self.refines(*old(self)),
                forall|d: int, ng: usize| 0 <= d < dir && #[trigger] edges@[d] == stype
                    && matched_neighbor(old(self).nodes_view(), adjacent_placed@, pos, edges@, d) == Some(ng)
                    ==> #[trigger] self.root(ng as int) == self.root(group_idx as int),
                self.classes() == classes_connect_all(old(self).classes(), group_idx as int, stype, edges@,
                    old(self).nodes_view(), adjacent_placed@, pos, dir as int),
            decreases 6 - dir,
        {
            if edges[dir] == stype {
                let ghost s_before = *self;
                self.connect_edge(pos, stype, group_idx, dir, adjacent_placed, edges);
                proof {
                    GroupManager::lemma_refines_trans(*old(self), s_before, *self);
                    assert forall|d: int, ng: usize| 0 <= d < dir + 1 && #[trigger] edges@[d] == stype
                        && matched_neighbor(old(self).nodes_view(), adjacent_placed@, pos, edges@, d) == Some(ng)
                        implies #[trigger] self.root(ng as int) == self.root(group_idx as int) by {
                        if d < dir {
                            lemma_lookup_bound(old(self).node_to_group@, neighbor_cell(pos, d), edges@[d], old(self).groups@.len());
                            assert(s_before.root(ng as int) == s_before.root(group_idx as int));
                        }
                    }
                }
            }
            dir = dir + 1;
        }
    }

    /// Registers the features of a tile placed at `pos` with the given edges: one new node
    /// per distinct terrain (in order of first appearance), each holding the tile `pos`
    /// and as many open edges as the tile has edges of that terrain; then, for every edge
    /// whose placed neighbor shows the same terrain on the facing edge, joins the two
    /// features and closes two open edges (never going below zero).
    pub fn add_tile_segments(
        &mut self,
        pos: AxialPos,
        edges: &[SegmentType; 6],
        adjacent_placed: &Vec<(AxialPos, [SegmentType; 6])>,
    )
        requires
            old(self).wf(),
            old(self).len() + 6 <= group_limit(),
            pos_interior(pos),
        ensures
            final(self).wf(),
            final(self).len() == old(self).len() + distinct_prefix(edges@, 6).len(),
            final(self).refines(*old(self)),
            forall|p: AxialPos, s: SegmentType| p != pos ==> #[trigger] final(self).node_of(p, s) == old(self).node_of(p, s),
            forall|x: int| 0 <= x < distinct_prefix(edges@, 6).len() ==>
                #[trigger] final(self).node_of(pos, distinct_prefix(edges@, 6)[x]) == Some((old(self).len() + x) as usize),
            forall|s: SegmentType| !edges@.contains(s) ==> #[trigger] final(self).node_of(pos, s) == old(self).node_of(pos, s),
            forall|x: int| 0 <= x < distinct_prefix(edges@, 6).len() ==>
                (#[trigger] final(self).class_tiles(old(self).len() + x)).contains(pos),
            forall|d: int| 0 <= d < 6 ==> (#[trigger] matched_neighbor(old(self).nodes_view(), adjacent_placed@, pos, edges@, d)
                matches Some(ng) ==> ng < old(self).len()),
            forall|d: int, ng: usize| 0 <= d < 6 && matched_neighbor(old(self).nodes_view(), adjacent_placed@, pos, edges@, d) == Some(ng)
                ==> #[trigger] final(self).root(ng as int) == final(self).root(
                    final(self).node_of(pos, #[trigger] edges@[d]).unwrap() as int),
            final(self).classes() == classes_add_tile(old(self).classes(), pos, edges@, old(self).nodes_view(),
                adjacent_placed@, distinct_prefix(edges@, 6).len() as int),
    {
        let kinds = distinct_segments(edges);
        proof {
            lemma_distinct_prefix(edges@, 6);
            assert(edges@.take(6) =~= edges@);
            self.lemma_refines_self();
        }
        let ghost base = old(self).len();
        let mut t: usize = 0;
        while t < kinds.len()
            invariant
                kinds@ == distinct_prefix(edges@, 6),
                kinds@.no_duplicates(),
                kinds@.len() <= 6,
                forall|s: SegmentType| #[trigger] kinds@.contains(s) <==> edges@.contains(s),
                0 <= t <= kinds.len(),
                base == old(self).len(),
                old(self).wf(),
                self.wf(),
                self.len() == base + t,
                base + 6 <= group_limit(),
                pos_interior(pos),
                self.refines(*old(self)),
                forall|p: AxialPos, s: SegmentType| p != pos ==> #[trigger] self.node_of(p, s) == old(self).node_of(p, s),
                forall|x: int| 0 <= x < t ==> #[trigger] self.node_of(pos, kinds@[x]) == Some((base + x) as usize),
                forall|s: SegmentType| !kinds@.take(t as int).contains(s) ==> #[trigger] self.node_of(pos, s) == old(self).node_of(pos, s),
                forall|x: int| 0 <= x < t ==> (#[trigger] self.class_tiles(base + x)).contains(pos),
                forall|d: int, ng: usize| 0 <= d < 6 && kinds@.take(t as int).contains(edges@[d])
                    && matched_neighbor(old(self).nodes_view(), adjacent_placed@, pos, edges@, d) == Some(ng)
                    ==> #[trigger] self.root(ng as int) == self.root(self.node_of(pos, #[trigger] edges@[d]).unwrap() as int),
                self.classes() == classes_add_tile(old(self).classes(), pos, edges@, old(self).nodes_view(),
                    adjacent_placed@, t as int),
            decreases kinds.len() - t,
        {
            let stype = kinds[t];
            let group_idx = self.groups.len();
            let open = count_edges(edges, stype);
            let ghost s_start = *self;
            self.push_group(pos, stype, open);
            let ghost s_pushed = *self;
            proof {
                assert(self.node_to_group@ == s_start.node_to_group@.push((pos, stype, group_idx)));
                assert(self.refines(s_start)) by {
                    assert forall|k: int| 0 <= k < s_start.groups@.len() implies
                        (#[trigger] s_start.class_tiles(k)).to_set().subset_of(self.class_tiles(k).to_set()) by {
                        s_start.lemma_root_props(k);
                        assert(self.groups@[s_start.root(k)] == s_start.groups@[s_start.root(k)]);
                    }
                }
                GroupManager::lemma_refines_trans(*old(self), s_start, *self);
                assert forall|p: AxialPos, s: SegmentType| p != pos implies #[trigger] self.node_of(p, s) == old(self).node_of(p, s) by {
                    assert(s_start.node_of(p, s) == old(self).node_of(p, s));
                    lemma_lookup_push_other(s_start.node_to_group@, (pos, stype, group_idx), p, s);
                }
                assert forall|x: int| 0 <= x < t implies #[trigger] self.node_of(pos, kinds@[x]) == Some((base + x) as usize) by {
                    assert(kinds@[x] != stype);
                    assert(s_start.node_of(pos, kinds@[x]) == Some((base + x) as usize));
                    lemma_lookup_push_other(s_start.node_to_group@, (pos, stype, group_idx), pos, kinds@[x]);
                }
                assert(self.node_to_group@.drop_last() =~= s_start.node_to_group@);
                assert(self.node_of(pos, stype) == Some(group_idx));
                assert(kinds@.take(t + 1) =~= kinds@.take(t as int).push(stype));
                assert forall|s: SegmentType| !kinds@.take(t + 1).contains(s) implies #[trigger] self.node_of(pos, s) == old(self).node_of(pos, s) by {
                    assert(kinds@.take(t + 1)[t as int] == stype);
                    if kinds@.take(t as int).contains(s) {
                        let m = choose|m: int| 0 <= m < t && #[trigger] kinds@.take(t as int)[m] == s;
                        assert(kinds@.take(t + 1)[m] == s);
                    }
                    assert(s_start.node_of(pos, s) == old(self).node_of(pos, s));
                    lemma_lookup_push_other(s_start.node_to_group@, (pos, stype, group_idx), pos, s);
                }
            }
            self.connect_all(pos, stype, group_idx, edges, adjacent_placed);
            proof {
                assert forall|d: int| 0 <= d < 6 implies #[trigger] matched_neighbor(s_pushed.nodes_view(), adjacent_placed@, pos, edges@, d)
                    == matched_neighbor(old(self).nodes_view(), adjacent_placed@, pos, edges@, d) by {
                    lemma_neighbor_cell_differs(pos, d);
                    let n = neighbor_cell(pos, d);
                    assert(s_pushed.node_of(n, edges@[d]) == old(self).node_of(n, edges@[d]));
                }
                lemma_connect_all_same_matches(classes_push(s_start.classes(), pos, open as int), group_idx as int, stype,
                    edges@, s_pushed.nodes_view(), old(self).nodes_view(), adjacent_placed@, pos, 6);
                assert(kinds@[t as int] == stype);
                assert(s_start.classes().0.len() == group_idx);
                assert(self.classes() == classes_add_tile(old(self).classes(), pos, edges@, old(self).nodes_view(),
                    adjacent_placed@, t + 1));
            }
            proof {
                assert forall|p: AxialPos, s: SegmentType| #[trigger] self.node_of(p, s) == s_pushed.node_of(p, s) by {}
                assert forall|d: int, ng: usize| 0 <= d < 6 && #[trigger] edges@[d] == stype
                    && matched_neighbor(old(self).nodes_view(), adjacent_placed@, pos, edges@, d) == Some(ng)
                    implies #[trigger] self.root(ng as int) == self.root(group_idx as int) by {
                    lemma_neighbor_cell_differs(pos, d);
                    let n = neighbor_cell(pos, d);
                    assert(s_pushed.node_of(n, stype) == old(self).node_of(n, stype));
                    assert(matched_neighbor(s_pushed.nodes_view(), adjacent_placed@, pos, edges@, d)
                        == matched_neighbor(old(self).nodes_view(), adjacent_placed@, pos, edges@, d));
                    lemma_lookup_bound(old(self).node_to_group@, n, stype, old(self).groups@.len());
                }
            }
            proof {
                let s_end = *self;
                GroupManager::lemma_refines_trans(s_start, s_pushed, s_end);
                GroupManager::lemma_refines_trans(*old(self), s_start, s_end);
                s_pushed.lemma_root_props(group_idx as int);
                assert(s_pushed.class_tiles(group_idx as int) == seq![pos]);
                assert(s_pushed.class_tiles(group_idx as int).to_set().contains(pos)) by {
                    assert(seq![pos][0] == pos);
                }
                assert(self.class_tiles(group_idx as int).to_set().contains(pos));
                assert forall|x: int| 0 <= x <= t implies (#[trigger] self.class_tiles(base + x)).contains(pos) by {
                    if x < t {
                        assert(s_start.class_tiles(base + x).contains(pos));
                        assert(s_start.class_tiles(base + x).to_set().contains(pos));
                        assert(self.class_tiles(base + x).to_set().contains(pos));
                    } else {
                        assert(self.class_tiles(group_idx as int).to_set().contains(pos));
                    }
                }
                assert forall|d: int, ng: usize| 0 <= d < 6 && kinds@.take(t + 1).contains(edges@[d])
                    && matched_neighbor(old(self).nodes_view(), adjacent_placed@, pos, edges@, d) == Some(ng)
                    implies #[trigger] self.root(ng as int) == self.root(self.node_of(pos, #[trigger] edges@[d]).unwrap() as int) by {
                    if edges@[d] == stype {
                    } else {
                        assert(kinds@.take(t as int).contains(edges@[d])) by {
                            let m = choose|m: int| 0 <= m < t + 1 && #[trigger] kinds@.take(t + 1)[m] == edges@[d];
                            assert(m != t);
                            assert(kinds@.take(t as int)[m] == edges@[d]);
                        }
                        let m = choose|m: int| 0 <= m < t && #[trigger] kinds@.take(t as int)[m] == edges@[d];
                        assert(kinds@[m] == edges@[d]);
                        assert(s_start.node_of(pos, edges@[d]) == Some((base + m) as usize));
                        lemma_lookup_bound(old(self).node_to_group@, neighbor_cell(pos, d), edges@[d], old(self).groups@.len());
                        assert(s_start.root(ng as int) == s_start.root((base + m) as int));
                    }
                }
            }
            t = t + 1;
        }
        proof {
            assert(kinds@.take(kinds@.len() as int) =~= kinds@);
            assert forall|d: int, ng: usize| 0 <= d < 6 && matched_neighbor(old(self).nodes_view(), adjacent_placed@, pos, edges@, d) == Some(ng)
                implies #[trigger] self.root(ng as int) == self.root(self.node_of(pos, #[trigger] edges@[d]).unwrap() as int) by {
                assert(edges@[d] == edges@[d]);
                assert(edges@.contains(edges@[d]));
            }
            assert forall|d: int| 0 <= d < 6 implies (#[trigger] matched_neighbor(old(self).nodes_view(), adjacent_placed@, pos, edges@, d)
                matches Some(ng) ==> ng < old(self).len()) by {
                lemma_lookup_bound(old(self).node_to_group@, neighbor_cell(pos, d), edges@[d], old(self).groups@.len());
            }
        }
    }
}

} // verus!

verus! {

/// The classes of the feature forest, node by node: each node's root, the set of tiles of
/// its class, and its class's open-edge count.
pub type Classes = (Seq<int>, Seq<Set<AxialPos>>, Seq<int>);

/// A new node `n` (the next index) forming a class of its own with one tile.
pub open spec fn classes_push(c: Classes, pos: AxialPos, open: int) -> Classes {
    (c.0.push(c.0.len() as int), c.1.push(set![pos]), c.2.push(open))
}

/// The classes of `i` and `j` merged under the root of `i`: tiles united, open counts added.
pub open spec fn classes_union(c: Classes, i: int, j: int) -> Classes {
    let ri = c.0[i];
    let rj = c.0[j];
    if ri == rj {
        c
    } else {
        let n = c.0.len();
        (
            Seq::new(n, |k: int| if c.0[k] == rj { ri } else { c.0[k] }),
            Seq::new(n, |k: int| if c.0[k] == ri || c.0[k] == rj { c.1[i] + c.1[j] } else { c.1[k] }),
            Seq::new(n, |k: int| if c.0[k] == ri || c.0[k] == rj { c.2[i] + c.2[j] } else { c.2[k] }),
        )
    }
}

/// Two open edges of the class of `g` closed (its count never going below zero).
pub open spec fn classes_close_pair(c: Classes, g: int) -> Classes {
    let o = if c.2[g] >= 2 { c.2[g] - 2 } else { 0 };
    (c.0, c.1, Seq::new(c.0.len(), |k: int| if c.0[k] == c.0[g] { o } else { c.2[k] }))
}

/// Joining node `g` with a matched neighbor node, if there is one, and closing the shared edge.
pub open spec fn classes_connect(c: Classes, g: int, m: Option<usize>) -> Classes {
    match m {
        Some(ng) => classes_close_pair(classes_union(c, g, ng as int), g),
        None => c,
    }
}

/// Connecting node `g` (terrain `s` of the tile at `pos`) through its first `d` edges.
pub open spec fn classes_connect_all(
    c: Classes,
    g: int,
    s: SegmentType,
    edges: Seq<SegmentType>,
    nodes: Seq<(AxialPos, SegmentType, usize)>,
    adj: Seq<(AxialPos, [SegmentType; 6])>,
    pos: AxialPos,
    d: int,
) -> Classes
    decreases d,
{
    if d <= 0 {
        c
    } else {
        let q = classes_connect_all(c, g, s, edges, nodes, adj, pos, d - 1);
        if edges[d - 1] == s { classes_connect(q, g, matched_neighbor(nodes, adj, pos, edges, d - 1)) } else { q }
    }
}

/// The classes after registering the first `t` distinct terrains of a tile at `pos`: each
/// gets a new node with the tile and one open edge per edge of that terrain, then joins
/// every matching placed neighbor, closing two open edges per joined edge.
pub open spec fn classes_add_tile(
    c: Classes,
    pos: AxialPos,
    edges: Seq<SegmentType>,
    nodes: Seq<(AxialPos, SegmentType, usize)>,
    adj: Seq<(AxialPos, [SegmentType; 6])>,
    t: int,
) -> Classes
    decreases t,
{
    if t <= 0 {
        c
    } else {
        let q = classes_add_tile(c, pos, edges, nodes, adj, t - 1);
        let s = distinct_prefix(edges, 6)[t - 1];
        classes_connect_all(classes_push(q, pos, count_segment(edges, s, 6) as int), q.0.len() as int, s,
            edges, nodes, adj, pos, 6)
    }
}

/// Connecting through edges whose matched neighbors agree gives the same classes.
pub proof fn lemma_connect_all_same_matches(
    c: Classes,
    g: int,
    s: SegmentType,
    edges: Seq<SegmentType>,
    nodes1: Seq<(AxialPos, SegmentType, usize)>,
    nodes2: Seq<(AxialPos, SegmentType, usize)>,
    adj: Seq<(AxialPos, [SegmentType; 6])>,
    pos: AxialPos,
    d: int,
)
    requires
        d <= 6,
        forall|k: int| 0 <= k < 6 ==> #[trigger] matched_neighbor(nodes1, adj, pos, edges, k) == matched_neighbor(nodes2, adj, pos, edges, k),
    ensures
        classes_connect_all(c, g, s, edges, nodes1, adj, pos, d) == classes_connect_all(c, g, s, edges, nodes2, adj, pos, d),
    decreases d,
{
    if d > 0 {
        lemma_connect_all_same_matches(c, g, s, edges, nodes1, nodes2, adj, pos, d - 1);
        assert(matched_neighbor(nodes1, adj, pos, edges, d - 1) == matched_neighbor(nodes2, adj, pos, edges, d - 1));
    }
}

impl GroupManager {
    /// The classes of the forest, node by node.
    pub closed spec fn classes(&self) -> Classes {
        let n = self.groups@.len();
        (
            Seq::new(n, |k: int| self.root(k)),
            Seq::new(n, |k: int| self.class_tiles(k).to_set()),
            Seq::new(n, |k: int| self.class_open(k) as int),
        )
    }

    /// Managers with the same features have the same classes.
    pub proof fn lemma_same_classes_classes(&self, before: GroupManager)
        requires
            self.same_classes(before),
            before.wf(),
        ensures
            self.classes() == before.classes(),
    {
        let c = self.classes();
        let b = before.classes();
        assert forall|k: int| 0 <= k < self.groups@.len() implies c.1[k] == b.1[k] && c.2[k] == b.2[k] by {
            before.lemma_root_props(k);
        }
        assert(c.0 =~= b.0);
        assert(c.1 =~= b.1);
        assert(c.2 =~= b.2);
    }

    /// A union changes the classes as `classes_union` says.
    proof fn lemma_union_classes(&self, before: GroupManager, i: int, j: int)
        requires
            before.wf(),
            self.wf(),
            0 <= i < before.groups@.len(),
            0 <= j < before.groups@.len(),
            self.groups@.len() == before.groups@.len(),
            ({
                let ri = before.root(i);
                let rj = before.root(j);
                let og = before.groups@;
                let ng = self.groups@;
                &&& forall|k: int| 0 <= k < before.groups@.len() ==> #[trigger] self.root(k)
                    == if before.root(k) == rj { ri } else { before.root(k) }
                &&& ri != rj ==> ng[ri].tiles@.to_set() == og[ri].tiles@.to_set() + og[rj].tiles@.to_set()
                &&& ri != rj ==> ng[ri].open_edges_count == og[ri].open_edges_count + og[rj].open_edges_count
                &&& forall|k: int| 0 <= k < before.groups@.len() && (ri == rj || (k != ri && k != rj))
                    ==> (#[trigger] ng[k]).tiles@ == og[k].tiles@ && ng[k].open_edges_count == og[k].open_edges_count
            }),
        ensures
            self.classes() == classes_union(before.classes(), i, j),
    {
        let c = self.classes();
        let b = before.classes();
        let u = classes_union(b, i, j);
        let ri = before.root(i);
        let rj = before.root(j);
        before.lemma_root_props(i);
        before.lemma_root_props(j);
        before.lemma_root_props(ri);
        before.lemma_root_props(rj);
        assert forall|k: int| 0 <= k < self.groups@.len() implies c.0[k] == u.0[k] && c.1[k] == u.1[k] && c.2[k] == u.2[k] by {
            before.lemma_root_props(k);
            self.lemma_root_props(k);
        }
        assert(c.0 =~= u.0);
        assert(c.1 =~= u.1);
        assert(c.2 =~= u.2);
    }
}

} // verus!

verus! {

/// Connecting through edges that have no matched neighbor changes nothing.
proof fn lemma_connect_all_unmatched(
    c: Classes,
    g: int,
    s: SegmentType,
    edges: Seq<SegmentType>,
    nodes: Seq<(AxialPos, SegmentType, usize)>,
    adj: Seq<(AxialPos, [SegmentType; 6])>,
    pos: AxialPos,
    d: int,
)
    requires
        forall|k: int| 0 <= k < d ==> #[trigger] matched_neighbor(nodes, adj, pos, edges, k) is None,
    ensures
        classes_connect_all(c, g, s, edges, nodes, adj, pos, d) == c,
    decreases d,
{
    if d > 0 {
        lemma_connect_all_unmatched(c, g, s, edges, nodes, adj, pos, d - 1);
        assert(matched_neighbor(nodes, adj, pos, edges, d - 1) is None);
    }
}

/// Law: a tile none of whose edges meets a matching placed edge leaves every existing
/// feature as it was, and each of its terrains forms a new feature holding only that tile,
/// with one open edge per edge of that terrain.
pub proof fn lemma_isolated_tile_features(
    c: Classes,
    pos: AxialPos,
    edges: Seq<SegmentType>,
    nodes: Seq<(AxialPos, SegmentType, usize)>,
    adj: Seq<(AxialPos, [SegmentType; 6])>,
    t: int,
)
    requires
        c.0.len() == c.1.len() && c.1.len() == c.2.len(),
        0 <= t <= distinct_prefix(edges, 6).len(),
        forall|k: int| 0 <= k < 6 ==> #[trigger] matched_neighbor(nodes, adj, pos, edges, k) is None,
    ensures
        classes_add_tile(c, pos, edges, nodes, adj, t).0.len() == c.0.len() + t,
        classes_add_tile(c, pos, edges, nodes, adj, t).1.len() == c.0.len() + t,
        classes_add_tile(c, pos, edges, nodes, adj, t).2.len() == c.0.len() + t,
        classes_add_tile(c, pos, edges, nodes, adj, t).0.take(c.0.len() as int) == c.0,
        classes_add_tile(c, pos, edges, nodes, adj, t).1.take(c.0.len() as int) == c.1,
        classes_add_tile(c, pos, edges, nodes, adj, t).2.take(c.0.len() as int) == c.2,
        forall|k: int| c.0.len() <= k < c.0.len() + t ==> #[trigger] isolated_feature(
            classes_add_tile(c, pos, edges, nodes, adj, t), k, pos,
            count_segment(edges, distinct_prefix(edges, 6)[k - c.0.len()], 6)),
    decreases t,
{
    let n = c.0.len() as int;
    if t > 0 {
        lemma_isolated_tile_features(c, pos, edges, nodes, adj, t - 1);
        let q = classes_add_tile(c, pos, edges, nodes, adj, t - 1);
        let sk = distinct_prefix(edges, 6)[t - 1];
        let pushed = classes_push(q, pos, count_segment(edges, sk, 6) as int);
        lemma_connect_all_unmatched(pushed, q.0.len() as int, sk, edges, nodes, adj, pos, 6);
        let r = classes_add_tile(c, pos, edges, nodes, adj, t);
        assert(r == pushed);
        assert(r.0.take(n) =~= q.0.take(n));
        assert(r.1.take(n) =~= q.1.take(n));
        assert(r.2.take(n) =~= q.2.take(n));
        assert forall|k: int| n <= k < n + t implies #[trigger] isolated_feature(r, k, pos,
            count_segment(edges, distinct_prefix(edges, 6)[k - n], 6)) by {
            if k < n + t - 1 {
                assert(isolated_feature(q, k, pos, count_segment(edges, distinct_prefix(edges, 6)[k - n], 6)));
            }
        }
    } else {
        assert(c.0.take(n) =~= c.0);
        assert(c.1.take(n) =~= c.1);
        assert(c.2.take(n) =~= c.2);
    }
}

/// Node `k` is a class of its own holding only the tile at `pos`, with `open` open edges.
pub open spec fn isolated_feature(r: Classes, k: int, pos: AxialPos, open: nat) -> bool {
    &&& r.0[k] == k
    &&& r.1[k] == set![pos]
    &&& r.2[k] == open
}

} // verus!
