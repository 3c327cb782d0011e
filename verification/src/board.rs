use vstd::prelude::*;
use crate::group::{GroupManager, group_limit, neighbor_cell, pos_interior, classes_add_tile, distinct_prefix};
use crate::hex::{AxialPos, spec_neighbor};
use crate::tile::{Quest, QuestType, SegmentType, Tile};

verus! {

#[derive(Debug, Clone, Copy)]
pub struct PlacedTile {
    pub tile: Tile,
    pub is_perfect: bool,
}

/// The placed tiles (positions are unique), the free cells where a tile may go next,
/// and the terrain features formed so far.
pub struct Board {
    pub tiles: Vec<(AxialPos, PlacedTile)>,
    pub valid_slots: Vec<AxialPos>,
    pub group_manager: GroupManager,
}

#[derive(Debug, Clone, Copy, PartialEq, Eq, Structural)]
pub struct PlacementResult {
    pub points_awarded: u32,
    pub tiles_added_to_deck: u32,
    pub is_perfect: bool,
    pub quests_completed: u32,
    pub flags_completed: u32,
}

/// Most tiles a board can hold before a placement: each tile adds up to six feature
/// segments, and the feature forest counts its segments and their open edges in `usize`.
pub open spec fn board_tile_limit() -> int {
    usize::MAX as int / 36
}

/// The tile placed at `p`, the most recent entry winning.
pub open spec fn lookup_tile(ts: Seq<(AxialPos, PlacedTile)>, p: AxialPos) -> Option<PlacedTile>
    decreases ts.len(),
{
    if ts.len() == 0 {
        None
    } else if ts.last().0 == p {
        Some(ts.last().1)
    } else {
        lookup_tile(ts.drop_last(), p)
    }
}

/// The positions of the placed tiles, in order.
pub open spec fn positions(ts: Seq<(AxialPos, PlacedTile)>) -> Seq<AxialPos> {
    ts.map_values(|e: (AxialPos, PlacedTile)| e.0)
}

/// Number of the first `n` directions around `pos` with a placed neighbor.
pub open spec fn count_adjacent(ts: Seq<(AxialPos, PlacedTile)>, pos: AxialPos, n: int) -> nat
    decreases n,
{
    if n <= 0 {
        0
    } else {
        count_adjacent(ts, pos, n - 1) + if lookup_tile(ts, neighbor_cell(pos, n - 1)) is Some { 1nat } else { 0nat }
    }
}

/// Edge `d` of a tile with `edges` at `pos` shows the same terrain as the facing edge of its placed neighbor.
pub open spec fn edge_matches(ts: Seq<(AxialPos, PlacedTile)>, pos: AxialPos, edges: Seq<SegmentType>, d: int) -> bool {
    match lookup_tile(ts, neighbor_cell(pos, d)) {
        Some(pt) => edges[d] == pt.tile.edges@[(d + 3) % 6],
        None => false,
    }
}

/// Number of the first `n` edges that match their placed neighbor.
pub open spec fn count_matching(ts: Seq<(AxialPos, PlacedTile)>, pos: AxialPos, edges: Seq<SegmentType>, n: int) -> nat
    decreases n,
{
    if n <= 0 {
        0
    } else {
        count_matching(ts, pos, edges, n - 1) + if edge_matches(ts, pos, edges, n - 1) { 1nat } else { 0nat }
    }
}

/// A quest's target is met by a feature of `size` tiles.
pub open spec fn quest_target_met(q: Quest, size: nat) -> bool {
    match q.quest_type {
        QuestType::MoreThan => size >= q.target_count,
        QuestType::Exactly => size == q.target_count,
    }
}

/// A quest after a placement, with the quest and flag completions it scored: an open quest
/// whose target is met completes (an ordinary quest then turns into a flag still to be
/// closed; a flag becomes fulfilled); afterwards an open flag whose feature is closed completes.
pub open spec fn settle_quest(q: Quest, size: nat, closed: bool) -> (Quest, nat, nat) {
    let (q1, qc, fc) = if !q.is_fulfilled && quest_target_met(q, size) {
        if q.is_flag {
            (Quest { is_fulfilled: true, ..q }, 0nat, 1nat)
        } else {
            (Quest { is_flag: true, is_fulfilled: false, ..q }, 1nat, 0nat)
        }
    } else {
        (q, 0nat, 0nat)
    };
    if q1.is_flag && !q1.is_fulfilled && closed {
        (Quest { is_fulfilled: true, ..q1 }, qc, fc + 1)
    } else {
        (q1, qc, fc)
    }
}

/// Law: an "exactly" quest is met only by a feature of exactly its target size. Against a
/// feature of any other size it completes nothing and stays as it is, unless it is already
/// an open flag and the feature is closed.
pub proof fn lemma_exactly_needs_equal_size(q: Quest, size: nat, closed: bool)
    requires
        q.quest_type == QuestType::Exactly,
        size != q.target_count,
        !(q.is_flag && !q.is_fulfilled && closed),
    ensures
        settle_quest(q, size, closed) == (q, 0nat, 0nat),
{
}

/// Law: a "more than" quest is not met by a feature smaller than its target: it completes
/// nothing and stays as it is, unless it is already an open flag and the feature is closed.
pub proof fn lemma_more_than_needs_enough(q: Quest, size: nat, closed: bool)
    requires
        q.quest_type == QuestType::MoreThan,
        size < q.target_count,
        !(q.is_flag && !q.is_fulfilled && closed),
    ensures
        settle_quest(q, size, closed) == (q, 0nat, 0nat),
{
}

/// Law: an open ordinary quest whose feature has the size it asks for (exactly the target,
/// or at least the target for "more than") completes once and becomes an open flag; the
/// flag is closed at once, completing one flag, when the feature is closed.
pub proof fn lemma_quest_met_completes(q: Quest, size: nat, closed: bool)
    requires
        !q.is_fulfilled,
        !q.is_flag,
        match q.quest_type {
            QuestType::Exactly => size == q.target_count,
            QuestType::MoreThan => size >= q.target_count,
        },
    ensures
        settle_quest(q, size, closed).1 == 1,
        settle_quest(q, size, closed).2 == (if closed { 1nat } else { 0nat }),
        settle_quest(q, size, closed).0 == (Quest { is_flag: true, is_fulfilled: closed, ..q }),
{
}

/// The quest of the placed tile `e`, if any, is idle against the features `gm`: its feature
/// does not have the size it asks for, and it is not an open flag on a closed feature.
pub open spec fn quest_idle(e: (AxialPos, PlacedTile), gm: GroupManager) -> bool {
    match e.1.tile.quest {
        None => true,
        Some(q) => {
            let size = gm.spec_group_size(e.0, q.target_type);
            let closed = gm.spec_group_closed(e.0, q.target_type);
            &&& match q.quest_type {
                QuestType::Exactly => size != q.target_count,
                QuestType::MoreThan => size < q.target_count,
            }
            &&& !(q.is_flag && !q.is_fulfilled && closed)
        },
    }
}

/// Law: settling a tile whose quest is idle leaves the tile as it is and completes nothing,
/// whatever the other features are.
pub proof fn lemma_unmet_tile_unchanged(e: (AxialPos, PlacedTile), gm: GroupManager)
    requires
        quest_idle(e, gm),
    ensures
        settle_tile(e, gm) == (e, 0nat, 0nat),
{
    if let Some(q) = e.1.tile.quest {
        assert(PlacedTile { tile: Tile { quest: Some(q), ..e.1.tile }, ..e.1 } == e.1);
    }
}

/// Law: when every quest on the board after a placement is idle, the settlement completes
/// nothing: the placement then scores only its matching edges and its perfect bonus, and
/// adds at most the perfect tile to the stack.
pub proof fn lemma_nothing_met_scores_edges_only(ts: Seq<(AxialPos, PlacedTile)>, pos: AxialPos, tile: Tile, gm: GroupManager)
    requires
        forall|i: int| 0 <= i < placement_tiles(ts, pos, tile).len() ==> quest_idle(
            #[trigger] placement_tiles(ts, pos, tile)[i], gm),
    ensures
        placement_completions(ts, pos, tile, gm) == (0nat, 0nat),
        placement_points(ts, pos, tile, gm) == 10 * count_matching(ts, pos, tile.edges@, 6)
            + (if placement_perfect(ts, pos, tile) { 60int } else { 0int }),
        placement_bonus(ts, pos, tile, gm) == (if placement_perfect(ts, pos, tile) { 1int } else { 0int }),
{
    let t1 = placement_tiles(ts, pos, tile);
    lemma_unmet_totals_zero(t1, gm, t1.len() as int);
}

proof fn lemma_unmet_totals_zero(t1: Seq<(AxialPos, PlacedTile)>, gm: GroupManager, n: int)
    requires
        0 <= n <= t1.len(),
        forall|i: int| 0 <= i < t1.len() ==> quest_idle(#[trigger] t1[i], gm),
    ensures
        quest_total(t1, gm, n) == 0,
        flag_total(t1, gm, n) == 0,
    decreases n,
{
    if n > 0 {
        lemma_unmet_totals_zero(t1, gm, n - 1);
        lemma_unmet_tile_unchanged(t1[n - 1], gm);
    }
}

/// A placed tile after settling its quest against the features of `gm`.
pub open spec fn settle_tile(e: (AxialPos, PlacedTile), gm: GroupManager) -> ((AxialPos, PlacedTile), nat, nat) {
    match e.1.tile.quest {
        None => (e, 0nat, 0nat),
        Some(q) => {
            let r = settle_quest(
                q,
                gm.spec_group_size(e.0, q.target_type),
                gm.spec_group_closed(e.0, q.target_type),
            );
            ((e.0, PlacedTile { tile: Tile { quest: Some(r.0), ..e.1.tile }, ..e.1 }), r.1, r.2)
        },
    }
}

/// The tiles after settling each one's quest against the features `gm`.
pub open spec fn settled(ts: Seq<(AxialPos, PlacedTile)>, gm: GroupManager) -> Seq<(AxialPos, PlacedTile)> {
    Seq::new(ts.len(), |i: int| settle_tile(ts[i], gm).0)
}

/// Quests completed by settling the first `n` tiles.
pub open spec fn quest_total(ts: Seq<(AxialPos, PlacedTile)>, gm: GroupManager, n: int) -> nat
    decreases n,
{
    if n <= 0 { 0 } else { quest_total(ts, gm, n - 1) + settle_tile(ts[n - 1], gm).1 }
}

/// Flags completed by settling the first `n` tiles.
pub open spec fn flag_total(ts: Seq<(AxialPos, PlacedTile)>, gm: GroupManager, n: int) -> nat
    decreases n,
{
    if n <= 0 { 0 } else { flag_total(ts, gm, n - 1) + settle_tile(ts[n - 1], gm).2 }
}

/// The cells next to `pos` that hold no tile in `ts`.
pub open spec fn open_neighbors(ts: Seq<(AxialPos, PlacedTile)>, pos: AxialPos) -> Set<AxialPos> {
    Set::new(|p: AxialPos| exists|d: int| 0 <= d < 6 && p == neighbor_cell(pos, d) && lookup_tile(ts, p) is None)
}

/// The centre cell, where the first tile goes.
pub open spec fn origin() -> AxialPos {
    AxialPos { q: 0, r: 0 }
}

/// `q` has `p` as one of its six neighbors (in exact integer coordinates).
pub open spec fn adjacent_cells(q: AxialPos, p: AxialPos) -> bool {
    exists|d: int| 0 <= d < 6 && #[trigger] spec_neighbor(q, d) == (p.q as int, p.r as int)
}

/// The empty cells next to a placed tile.
pub open spec fn frontier(ts: Seq<(AxialPos, PlacedTile)>) -> Set<AxialPos> {
    Set::new(|q: AxialPos| !positions(ts).contains(q)
        && exists|i: int| 0 <= i < ts.len() && adjacent_cells(q, #[trigger] ts[i].0))
}

/// Around an interior cell, the neighbor cells are exactly the cells it is adjacent to.
proof fn lemma_adjacent_neighbor_cell(pos: AxialPos, q: AxialPos)
    requires
        pos_interior(pos),
    ensures
        adjacent_cells(q, pos) <==> exists|d: int| 0 <= d < 6 && q == #[trigger] neighbor_cell(pos, d),
{
    if adjacent_cells(q, pos) {
        let d = choose|d: int| 0 <= d < 6 && #[trigger] spec_neighbor(q, d) == (pos.q as int, pos.r as int);
        let o = (d + 3) % 6;
        assert(q == neighbor_cell(pos, o));
    }
    if exists|d: int| 0 <= d < 6 && q == #[trigger] neighbor_cell(pos, d) {
        let d = choose|d: int| 0 <= d < 6 && q == #[trigger] neighbor_cell(pos, d);
        let o = (d + 3) % 6;
        assert(spec_neighbor(q, o) == (pos.q as int, pos.r as int));
    }
}

/// Law: placing a tile keeps the free slots exactly the empty cells next to placed tiles
/// (on an empty board the only slot is the origin), so every board reached from
/// `Board::new` by placements has that property.
pub proof fn lemma_slots_stay_frontier(before: Board, pos: AxialPos, tile: Tile, after: Board)
    requires
        before.wf(),
        before.slots_ok(),
        before.spec_can_place(pos),
        pos_interior(pos),
        placed_on(before, pos, tile, after),
    ensures
        after.slots_ok(),
{
    let t0 = before.tiles@;
    let matching = count_matching(t0, pos, tile.edges@, 6);
    let adjacent = count_adjacent(t0, pos, 6);
    let perfect = adjacent == 6 && matching == 6;
    let t1 = t0.push((pos, PlacedTile { tile, is_perfect: perfect }));
    let ta = after.tiles@;
    assert(positions(ta) =~= positions(t1));
    assert(positions(t1) =~= positions(t0).push(pos));
    assert forall|q: AxialPos| #[trigger] positions(t1).contains(q) <==> positions(t0).contains(q) || q == pos by {
        if positions(t1).contains(q) {
            let i = choose|i: int| 0 <= i < positions(t1).len() && positions(t1)[i] == q;
            if i < t0.len() { assert(positions(t0)[i] == q); }
        }
        if positions(t0).contains(q) {
            let i = choose|i: int| 0 <= i < positions(t0).len() && positions(t0)[i] == q;
            assert(positions(t1)[i] == q);
        }
        if q == pos { assert(positions(t1)[t0.len() as int] == q); }
    }
    let s_new = after.valid_slots@.to_set();
    assert(s_new == before.valid_slots@.to_set().remove(pos) + open_neighbors(t1, pos));
    assert(ta.len() > 0);
    assert forall|q: AxialPos| #[trigger] frontier(ta).contains(q) <==> s_new.contains(q) by {
        lemma_lookup_tile_absent(t1, q);
        lemma_lookup_tile_absent(t0, q);
        lemma_adjacent_neighbor_cell(pos, q);
        let in_front = frontier(ta).contains(q);
        if in_front {
            let i = choose|i: int| 0 <= i < ta.len() && adjacent_cells(q, #[trigger] ta[i].0);
            assert(ta[i].0 == t1[i].0);
            if i < t0.len() {
                assert(t1[i] == t0[i]);
                if t0.len() == 0 {
                } else {
                    assert(frontier(t0).contains(q));
                }
            } else {
                assert(open_neighbors(t1, pos).contains(q));
            }
        }
        if s_new.contains(q) {
            if open_neighbors(t1, pos).contains(q) {
                assert(adjacent_cells(q, t1[t0.len() as int].0));
                assert(ta[t0.len() as int].0 == t1[t0.len() as int].0);
            } else {
                assert(before.valid_slots@.to_set().contains(q));
                if t0.len() == 0 {
                    assert(q == origin());
                    assert(false);
                } else {
                    assert(frontier(t0).contains(q));
                    let i = choose|i: int| 0 <= i < t0.len() && adjacent_cells(q, #[trigger] t0[i].0);
                    assert(ta[i].0 == t0[i].0);
                }
            }
        }
    }
    assert(frontier(ta) =~= s_new);
}

/// What placing `tile` at `pos` on a board holding `ts` yields, with `gm` the features
/// after the placement: the score points, the tiles added to the deck, whether it was
/// perfect, and the quests and flags completed (see `Board::place_tile`).
pub open spec fn placement_outcome(ts: Seq<(AxialPos, PlacedTile)>, pos: AxialPos, tile: Tile, gm: GroupManager) -> PlacementResult {
    let c = placement_completions(ts, pos, tile, gm);
    PlacementResult {
        points_awarded: placement_points(ts, pos, tile, gm) as u32,
        tiles_added_to_deck: placement_bonus(ts, pos, tile, gm) as u32,
        is_perfect: placement_perfect(ts, pos, tile),
        quests_completed: c.0 as u32,
        flags_completed: c.1 as u32,
    }
}

/// Whether placing `tile` at `pos`, next to the tiles `ts`, is perfect: six placed
/// neighbors, every edge matching.
pub open spec fn placement_perfect(ts: Seq<(AxialPos, PlacedTile)>, pos: AxialPos, tile: Tile) -> bool {
    count_adjacent(ts, pos, 6) == 6 && count_matching(ts, pos, tile.edges@, 6) == 6
}

/// The tiles `ts` with `tile` placed at `pos`.
pub open spec fn placement_tiles(ts: Seq<(AxialPos, PlacedTile)>, pos: AxialPos, tile: Tile) -> Seq<(AxialPos, PlacedTile)> {
    ts.push((pos, PlacedTile { tile, is_perfect: placement_perfect(ts, pos, tile) }))
}

/// Quests and flags completed by settling every tile after the placement, against `gm`.
pub open spec fn placement_completions(ts: Seq<(AxialPos, PlacedTile)>, pos: AxialPos, tile: Tile, gm: GroupManager) -> (nat, nat) {
    let t1 = placement_tiles(ts, pos, tile);
    (quest_total(t1, gm, t1.len() as int), flag_total(t1, gm, t1.len() as int))
}

/// The points of the placement, before they are stored in 32 bits.
pub open spec fn placement_points(ts: Seq<(AxialPos, PlacedTile)>, pos: AxialPos, tile: Tile, gm: GroupManager) -> int {
    let c = placement_completions(ts, pos, tile, gm);
    10 * count_matching(ts, pos, tile.edges@, 6) + (if placement_perfect(ts, pos, tile) { 60int } else { 0int })
        + 100 * (c.0 + c.1)
}

/// The tiles the placement adds to the stack.
pub open spec fn placement_bonus(ts: Seq<(AxialPos, PlacedTile)>, pos: AxialPos, tile: Tile, gm: GroupManager) -> int {
    let c = placement_completions(ts, pos, tile, gm);
    (if placement_perfect(ts, pos, tile) { 1int } else { 0int }) + 5 * (c.0 + c.1)
}

/// `gm` is the feature forest that placing `tile` at `pos` makes of `before`, next to the
/// tiles `ts`: its classes gain the tile's segments, merged with the matching neighbors,
/// and only the nodes of `pos` change, each new segment kind getting the next id.
pub open spec fn features_after(before: GroupManager, ts: Seq<(AxialPos, PlacedTile)>, pos: AxialPos, tile: Tile, gm: GroupManager) -> bool {
    &&& gm.wf()
    &&& gm.classes() == classes_add_tile(before.classes(), pos, tile.edges@,
        before.nodes_view(), placed_edges(placement_tiles(ts, pos, tile)), distinct_prefix(tile.edges@, 6).len() as int)
    &&& forall|p: AxialPos, s: SegmentType| p != pos ==> #[trigger] gm.node_of(p, s) == before.node_of(p, s)
    &&& forall|x: int| 0 <= x < distinct_prefix(tile.edges@, 6).len() ==>
        #[trigger] gm.node_of(pos, distinct_prefix(tile.edges@, 6)[x]) == Some((before.len() + x) as usize)
    &&& forall|s: SegmentType| !tile.edges@.contains(s) ==> #[trigger] gm.node_of(pos, s) == before.node_of(pos, s)
}

/// The points of placing `tile` at `pos` on `b` fit in 32 bits.
pub open spec fn placement_fits(b: Board, pos: AxialPos, tile: Tile) -> bool {
    forall|gm: GroupManager| #[trigger] features_after(b.group_manager, b.tiles@, pos, tile, gm)
        ==> placement_points(b.tiles@, pos, tile, gm) <= u32::MAX
}

/// `after` is `before` with `tile` placed at `pos`: the tiles, settled against the new
/// features, gain the placed one; the slot is taken and its free neighbors opened; the
/// features refine the old ones and gain the tile's segments.
pub open spec fn placed_on(before: Board, pos: AxialPos, tile: Tile, after: Board) -> bool {
    let matching = count_matching(before.tiles@, pos, tile.edges@, 6);
    let adjacent = count_adjacent(before.tiles@, pos, 6);
    let perfect = adjacent == 6 && matching == 6;
    let t1 = before.tiles@.push((pos, PlacedTile { tile, is_perfect: perfect }));
    &&& after.wf()
    &&& after.tiles@ == settled(t1, after.group_manager)
    &&& after.valid_slots@.to_set() == before.valid_slots@.to_set().remove(pos) + open_neighbors(t1, pos)
    &&& after.group_manager.refines(before.group_manager)
    &&& after.group_manager.len() > before.group_manager.len()
    &&& features_after(before.group_manager, before.tiles@, pos, tile, after.group_manager)
}

/// The positions and edges of placed tiles, as the feature forest reads its neighbors.
pub open spec fn placed_edges(ts: Seq<(AxialPos, PlacedTile)>) -> Seq<(AxialPos, [SegmentType; 6])> {
    Seq::new(ts.len(), |i: int| (ts[i].0, ts[i].1.tile.edges))
}

/// At most `n` of the first `n` edges match.
pub proof fn lemma_count_matching_bound(ts: Seq<(AxialPos, PlacedTile)>, pos: AxialPos, edges: Seq<SegmentType>, n: int)
    requires
        0 <= n,
    ensures
        count_matching(ts, pos, edges, n) <= n,
    decreases n,
{
    if n > 0 {
        lemma_count_matching_bound(ts, pos, edges, n - 1);
    }
}

impl Board {
    pub open spec fn wf(&self) -> bool {
        &&& positions(self.tiles@).no_duplicates()
        &&& self.valid_slots@.no_duplicates()
        &&& self.group_manager.wf()
        &&& self.group_manager.len() <= 6 * self.tiles@.len()
    }

    /// The free slots are the origin on an empty board, and otherwise exactly the empty
    /// cells next to a placed tile.
    pub open spec fn slots_ok(&self) -> bool {
        if self.tiles@.len() == 0 {
            self.valid_slots@.to_set() == set![origin()]
        } else {
            self.valid_slots@.to_set() == frontier(self.tiles@)
        }
    }

    pub open spec fn spec_can_place(&self, pos: AxialPos) -> bool {
        if self.tiles@.len() == 0 {
            pos == origin()
        } else {
            lookup_tile(self.tiles@, pos) is None && self.valid_slots@.contains(pos)
        }
    }

    /// An empty board whose only open slot is the origin.
    pub fn new() -> (b: Board)
        ensures
            b.wf(),
            b.tiles@.len() == 0,
            b.valid_slots@ == seq![origin()],
            b.group_manager.len() == 0,
            forall|p: AxialPos, s: SegmentType| #[trigger] b.group_manager.node_of(p, s) is None,
            b.group_manager.classes() == (Seq::<int>::empty(), Seq::<Set<AxialPos>>::empty(), Seq::<int>::empty()),
            forall|p: AxialPos, s: SegmentType| #[trigger] b.group_manager.spec_group_size(p, s) == 0
                && !b.group_manager.spec_group_closed(p, s),
            b.slots_ok(),
    {
        let mut valid_slots: Vec<AxialPos> = Vec::new();
        valid_slots.push(AxialPos::zero());
        let b = Board { tiles: Vec::new(), valid_slots, group_manager: GroupManager::new() };
        proof { b.group_manager.lemma_queries_from_classes(); }
        assert(positions(b.tiles@) =~= Seq::<AxialPos>::empty());
        assert(b.valid_slots@ =~= seq![origin()]);
        assert(b.valid_slots@.to_set() =~= set![origin()]) by {
            assert(b.valid_slots@[0] == origin());
        }
        b
    }

    pub fn can_place(&self, pos: AxialPos) -> (b: bool)
        ensures
            b == self.spec_can_place(pos),
    {
        if self.tiles.len() == 0 {
            pos == AxialPos::zero()
        } else {
            find_tile(&self.tiles, pos).is_none() && crate::group::contains_pos(&self.valid_slots, pos)
        }
    }
}

/// The tile recorded at `p`.
pub fn find_tile(ts: &Vec<(AxialPos, PlacedTile)>, p: AxialPos) -> (r: Option<PlacedTile>)
    ensures
        r == lookup_tile(ts@, p),
{
    let mut k = ts.len();
    assert(ts@.take(k as int) =~= ts@);
    while k > 0
        invariant
            k <= ts@.len(),
            lookup_tile(ts@, p) == lookup_tile(ts@.take(k as int), p),
        decreases k,
    {
        let e = ts[k - 1];
        assert(ts@.take(k as int).drop_last() =~= ts@.take(k - 1));
        if e.0 == p {
            return Some(e.1);
        }
        k = k - 1;
    }
    None
}

} // verus!

verus! {

/// Removes `p` from a duplicate-free list.
pub fn remove_slot(v: &mut Vec<AxialPos>, p: AxialPos)
    requires
        old(v)@.no_duplicates(),
    ensures
        final(v)@.no_duplicates(),
        final(v)@.to_set() == old(v)@.to_set().remove(p),
{
    let mut k: usize = 0;
    while k < v.len()
        invariant
            0 <= k <= v.len(),
            v@ == old(v)@,
            old(v)@.no_duplicates(),
            forall|m: int| 0 <= m < k ==> v@[m] != p,
        decreases v.len() - k,
    {
        if v[k] == p {
            let ghost before = v@;
            v.remove(k);
            proof {
                assert(v@ == before.remove(k as int));
                assert(v@.len() == before.len() - 1);
                assert(forall|m: int| 0 <= m < k ==> v@[m] == before[m]);
                assert(forall|m: int| k <= m < v@.len() ==> v@[m] == before[m + 1]);
                assert(v@.to_set() =~= before.to_set().remove(p)) by {
                    assert forall|x: AxialPos| v@.to_set().contains(x) <==> before.to_set().remove(p).contains(x) by {
                        if v@.contains(x) {
                            let m = choose|m: int| 0 <= m < v@.len() && #[trigger] v@[m] == x;
                            if m < k { assert(before[m] == x); } else { assert(before[m + 1] == x); }
                        }
                        if before.contains(x) && x != p {
                            let m = choose|m: int| 0 <= m < before.len() && #[trigger] before[m] == x;
                            if m < k { assert(v@[m] == x); } else { assert(m != k); assert(v@[m - 1] == x); }
                        }
                    }
                }
                assert forall|i: int, j: int| 0 <= i < v@.len() && 0 <= j < v@.len() && i != j implies v@[i] != v@[j] by {
                    let bi = if i < k { i } else { i + 1 };
                    let bj = if j < k { j } else { j + 1 };
                    assert(v@[i] == before[bi]);
                    assert(v@[j] == before[bj]);
                }
            }
            return;
        }
        k = k + 1;
    }
    proof {
        assert(!v@.contains(p));
        assert(v@.to_set() =~= old(v)@.to_set().remove(p));
    }
}

/// Adds `p` to a duplicate-free list unless it is already there.
pub fn insert_slot(v: &mut Vec<AxialPos>, p: AxialPos)
    requires
        old(v)@.no_duplicates(),
    ensures
        final(v)@.no_duplicates(),
        final(v)@.to_set() == old(v)@.to_set().insert(p),
{
    if !crate::group::contains_pos(v, p) {
        v.push(p);
        proof {
            old(v)@.lemma_push_to_set_commute(p);
        }
    } else {
        assert(old(v)@.to_set() =~= old(v)@.to_set().insert(p));
    }
}

/// Each placed tile's position with its edges.
pub fn edges_of(ts: &Vec<(AxialPos, PlacedTile)>) -> (r: Vec<(AxialPos, [SegmentType; 6])>)
    ensures
        r@.len() == ts@.len(),
        forall|i: int| 0 <= i < ts@.len() ==> #[trigger] r@[i] == (ts@[i].0, ts@[i].1.tile.edges),
{
    let mut r: Vec<(AxialPos, [SegmentType; 6])> = Vec::new();
    let mut k: usize = 0;
    while k < ts.len()
        invariant
            0 <= k <= ts.len(),
            r@.len() == k,
            forall|i: int| 0 <= i < k ==> #[trigger] r@[i] == (ts@[i].0, ts@[i].1.tile.edges),
        decreases ts.len() - k,
    {
        let e = ts[k];
        r.push((e.0, e.1.tile.edges));
        k = k + 1;
    }
    r
}

/// With unique positions, the lookup finds entry `i` at its own position.
pub proof fn lemma_lookup_tile_at(ts: Seq<(AxialPos, PlacedTile)>, i: int)
    requires
        positions(ts).no_duplicates(),
        0 <= i < ts.len(),
    ensures
        lookup_tile(ts, ts[i].0) == Some(ts[i].1),
    decreases ts.len(),
{
    if i < ts.len() - 1 {
        assert(positions(ts)[i] != positions(ts)[ts.len() - 1]);
        assert(positions(ts.drop_last()) =~= positions(ts).drop_last());
        lemma_lookup_tile_at(ts.drop_last(), i);
    }
}

/// A position that no entry carries is not found.
pub proof fn lemma_lookup_tile_absent(ts: Seq<(AxialPos, PlacedTile)>, p: AxialPos)
    ensures
        lookup_tile(ts, p) is None <==> !positions(ts).contains(p),
    decreases ts.len(),
{
    if ts.len() > 0 {
        lemma_lookup_tile_absent(ts.drop_last(), p);
        assert(positions(ts.drop_last()) =~= positions(ts).drop_last());
        assert(positions(ts)[ts.len() - 1] == ts.last().0);
        if ts.last().0 == p {
            assert(positions(ts).contains(p));
        }
        if positions(ts).contains(p) {
            let m = choose|m: int| 0 <= m < positions(ts).len() && #[trigger] positions(ts)[m] == p;
            if m < ts.len() - 1 { assert(positions(ts.drop_last())[m] == p); }
        }
        if positions(ts.drop_last()).contains(p) {
            let m = choose|m: int| 0 <= m < positions(ts.drop_last()).len() && #[trigger] positions(ts.drop_last())[m] == p;
            assert(positions(ts)[m] == p);
        }
    }
}

/// Edge lookups in `edges_of(ts)` agree with tile lookups in `ts`.
pub proof fn lemma_lookup_edges_of(ts: Seq<(AxialPos, PlacedTile)>, r: Seq<(AxialPos, [SegmentType; 6])>, p: AxialPos)
    requires
        r.len() == ts.len(),
        forall|i: int| 0 <= i < ts.len() ==> #[trigger] r[i] == (ts[i].0, ts[i].1.tile.edges),
    ensures
        crate::group::lookup_edges(r, p) == match lookup_tile(ts, p) {
            Some(pt) => Some(pt.tile.edges),
            None => None,
        },
    decreases ts.len(),
{
    if ts.len() > 0 {
        assert(r[r.len() - 1] == (ts[ts.len() - 1].0, ts[ts.len() - 1].1.tile.edges));
        lemma_lookup_edges_of(ts.drop_last(), r.drop_last(), p);
    }
}

/// Settling a tile completes at most one quest and at most one flag.
pub proof fn lemma_totals_bounded(ts: Seq<(AxialPos, PlacedTile)>, gm: GroupManager, n: int)
    requires
        0 <= n <= ts.len(),
    ensures
        quest_total(ts, gm, n) <= n,
        flag_total(ts, gm, n) <= n,
    decreases n,
{
    if n > 0 {
        lemma_totals_bounded(ts, gm, n - 1);
    }
}

} // verus!

verus! {

impl Board {
    /// Places `tile` at `pos` when `can_place(pos)` holds, scoring the placement:
    /// 10 points per edge matching its placed neighbor; a perfect placement (six placed
    /// neighbors, all matching) adds 60 points and one tile; then every tile's quest is
    /// settled against the updated features, each completed quest or flag giving
    /// 100 points and five tiles. Returns `None`, changing nothing, when the cell is not free.
    pub fn place_tile(&mut self, pos: AxialPos, tile: Tile) -> (r: Option<PlacementResult>)
        requires
            old(self).wf(),
            old(self).tiles@.len() < board_tile_limit(),
            old(self).spec_can_place(pos) ==> pos_interior(pos),
            old(self).spec_can_place(pos) ==> placement_fits(*old(self), pos, tile),
        ensures
            final(self).wf(),
            r is None <==> !old(self).spec_can_place(pos),
            r is None ==> final(self).tiles@ == old(self).tiles@ && final(self).valid_slots@ == old(self).valid_slots@
                && final(self).group_manager.same_classes(old(self).group_manager),
            r is None ==> forall|p: AxialPos, s: SegmentType|
                #[trigger] final(self).group_manager.spec_group_size(p, s) == old(self).group_manager.spec_group_size(p, s)
                && final(self).group_manager.spec_group_closed(p, s) == old(self).group_manager.spec_group_closed(p, s),
            r matches Some(res) ==> ({
                let matching = count_matching(old(self).tiles@, pos, tile.edges@, 6);
                let adjacent = count_adjacent(old(self).tiles@, pos, 6);
                let perfect = adjacent == 6 && matching == 6;
                let t1 = old(self).tiles@.push((pos, PlacedTile { tile, is_perfect: perfect }));
                let gm = final(self).group_manager;
                let q = quest_total(t1, gm, t1.len() as int);
                let f = flag_total(t1, gm, t1.len() as int);
                &&& res.is_perfect == perfect
                &&& res.points_awarded == 10 * matching + (if perfect { 60int } else { 0int }) + 100 * (q + f)
                &&& res.tiles_added_to_deck == (if perfect { 1int } else { 0int }) + 5 * (q + f)
                &&& res.quests_completed == q
                &&& res.flags_completed == f
                &&& final(self).tiles@ == settled(t1, gm)
                &&& final(self).valid_slots@.to_set() == old(self).valid_slots@.to_set().remove(pos) + open_neighbors(t1, pos)
                &&& gm.refines(old(self).group_manager)
                &&& gm.len() > old(self).group_manager.len()
            }),
            r matches Some(res) ==> res == placement_outcome(old(self).tiles@, pos, tile, final(self).group_manager)
                && placed_on(*old(self), pos, tile, *final(self)),
            old(self).slots_ok() ==> final(self).slots_ok(),
    {
        if !self.can_place(pos) {
            proof {
                GroupManager::lemma_same_classes_refl(self.group_manager);
                GroupManager::lemma_same_classes_queries(self.group_manager, self.group_manager);
            }
            return None;
        }
        let ghost old_tiles = self.tiles@;
        let mut points: u32 = 0;
        let mut extra: u32 = 0;
        let mut matching: u32 = 0;
        let mut adjacent: u32 = 0;
        let mut dir: usize = 0;
        while dir < 6
            invariant
                0 <= dir <= 6,
                self.tiles@ == old_tiles,
                pos_interior(pos),
                adjacent == count_adjacent(old_tiles, pos, dir as int),
                matching == count_matching(old_tiles, pos, tile.edges@, dir as int),
                adjacent <= dir,
                matching <= dir,
                points == 10 * matching,
                self.group_manager == old(self).group_manager,
                self.valid_slots@ == old(self).valid_slots@,
            decreases 6 - dir,
        {
            let npos = pos.neighbor(dir);
            assert(npos == neighbor_cell(pos, dir as int));
            match find_tile(&self.tiles, npos) {
                Some(nt) => {
                    adjacent = adjacent + 1;
                    let my_edge = tile.get_edge(dir);
                    let opp_dir = AxialPos::opposite_dir(dir);
                    let neighbor_edge = nt.tile.get_edge(opp_dir);
                    if my_edge == neighbor_edge {
                        matching = matching + 1;
                        points = points + 10;
                    }
                },
                None => {},
            }
            dir = dir + 1;
        }
        let is_perfect = adjacent == 6 && matching == 6;
        if is_perfect {
            points = points + 60;
            extra = extra + 1;
        }
        let placed = PlacedTile { tile, is_perfect };
        let ghost old_slots = self.valid_slots@;
        proof {
            lemma_lookup_tile_absent(old_tiles, pos);
            assert(positions(old_tiles.push((pos, placed))) =~= positions(old_tiles).push(pos));
        }
        self.tiles.push((pos, placed));
        let ghost t1 = self.tiles@;
        remove_slot(&mut self.valid_slots, pos);
        let mut dir2: usize = 0;
        while dir2 < 6
            invariant
                0 <= dir2 <= 6,
                self.tiles@ == t1,
                pos_interior(pos),
                self.group_manager == old(self).group_manager,
                self.valid_slots@.no_duplicates(),
                self.valid_slots@.to_set() == old_slots.to_set().remove(pos) + Set::new(|p: AxialPos|
                    exists|d: int| 0 <= d < dir2 && p == neighbor_cell(pos, d) && lookup_tile(t1, p) is None),
            decreases 6 - dir2,
        {
            let npos = pos.neighbor(dir2);
            assert(npos == neighbor_cell(pos, dir2 as int));
            let ghost before = self.valid_slots@;
            if find_tile(&self.tiles, npos).is_none() {
                insert_slot(&mut self.valid_slots, npos);
            }
            proof {
                let next = Set::new(|p: AxialPos| exists|d: int| 0 <= d < dir2 + 1 && p == neighbor_cell(pos, d) && lookup_tile(t1, p) is None);
                let prev = Set::new(|p: AxialPos| exists|d: int| 0 <= d < dir2 && p == neighbor_cell(pos, d) && lookup_tile(t1, p) is None);
                assert(self.valid_slots@.to_set() =~= old_slots.to_set().remove(pos) + next) by {
                    assert forall|p: AxialPos| #[trigger] next.contains(p) <==> prev.contains(p) || (p == npos && lookup_tile(t1, p) is None) by {
                        if next.contains(p) {
                            let d = choose|d: int| 0 <= d < dir2 + 1 && p == neighbor_cell(pos, d) && lookup_tile(t1, p) is None;
                            if d < dir2 { assert(prev.contains(p)); }
                        }
                        if prev.contains(p) {
                            let d = choose|d: int| 0 <= d < dir2 && p == neighbor_cell(pos, d) && lookup_tile(t1, p) is None;
                            assert(next.contains(p));
                        }
                        if p == npos && lookup_tile(t1, p) is None {
                            assert(0 <= dir2 < dir2 + 1 && p == neighbor_cell(pos, dir2 as int));
                        }
                    }
                }
            }
            dir2 = dir2 + 1;
        }
        proof {
            assert(open_neighbors(t1, pos) =~= Set::new(|p: AxialPos|
                exists|d: int| 0 <= d < 6 && p == neighbor_cell(pos, d) && lookup_tile(t1, p) is None));
        }
        let adjacent_map = edges_of(&self.tiles);
        proof {
            crate::group::lemma_distinct_prefix(tile.edges@, 6);
        }
        let ghost gm0 = self.group_manager;
        let ghost slots_final = self.valid_slots@;
        self.group_manager.add_tile_segments(pos, &tile.edges, &adjacent_map);
        let ghost g1 = self.group_manager;
        proof {
            GroupManager::lemma_same_classes_refl(g1);
            assert(adjacent_map@ =~= placed_edges(t1));
            assert(t1 == placement_tiles(old_tiles, pos, tile));
            assert(features_after(old(self).group_manager, old_tiles, pos, tile, g1));
            lemma_totals_monotone(t1, g1, 0, t1.len() as int);
        }
        let mut quests_completed: u32 = 0;
        let mut flags_completed: u32 = 0;
        let n = self.tiles.len();
        let mut k: usize = 0;
        while k < n
            invariant
                0 <= k <= n,
                n == t1.len(),
                10 * matching + (if is_perfect { 60int } else { 0int })
                    + 100 * (quest_total(t1, g1, n as int) + flag_total(t1, g1, n as int)) <= u32::MAX,
                self.tiles@.len() == n,
                forall|i: int| 0 <= i < k ==> #[trigger] self.tiles@[i] == settle_tile(t1[i], g1).0,
                forall|i: int| k <= i < n ==> #[trigger] self.tiles@[i] == t1[i],
                g1.wf(),
                self.group_manager.wf(),
                self.group_manager.same_classes(g1),
                quests_completed == quest_total(t1, g1, k as int),
                flags_completed == flag_total(t1, g1, k as int),
                quest_total(t1, g1, k as int) <= k,
                flag_total(t1, g1, k as int) <= k,
                points as int == 10 * matching + (if is_perfect { 60int } else { 0int }) + 100 * (quests_completed + flags_completed),
                extra as int == (if is_perfect { 1int } else { 0int }) + 5 * (quests_completed + flags_completed),
                matching <= 6,
                self.valid_slots@ == slots_final,
                slots_final.no_duplicates(),
                g1.len() <= 6 * n,
                g1.refines(old(self).group_manager),
                g1.len() > old(self).group_manager.len(),
            decreases n - k,
        {
            let e = self.tiles[k];
            proof {
                GroupManager::lemma_same_classes_queries(self.group_manager, g1);
                lemma_totals_bounded(t1, g1, k + 1);
                lemma_totals_monotone(t1, g1, k + 1, n as int);
            }
            match e.1.tile.quest {
                Some(q) => {
                    let ghost gb0 = self.group_manager;
                    let size = self.group_manager.get_group_size(e.0, q.target_type);
                    proof {
                        GroupManager::lemma_same_classes_trans(self.group_manager, gb0, g1);
                    }
                    let mut q1 = q;
                    let mut qc: u32 = 0;
                    let mut fc: u32 = 0;
                    if !q.is_fulfilled {
                        let met = match q.quest_type {
                            QuestType::MoreThan => size >= q.target_count,
                            QuestType::Exactly => size == q.target_count,
                        };
                        if met {
                            if q.is_flag {
                                q1.is_fulfilled = true;
                                fc = 1;
                            } else {
                                q1.is_flag = true;
                                q1.is_fulfilled = false;
                                qc = 1;
                            }
                        }
                    }
                    if q1.is_flag && !q1.is_fulfilled {
                        let ghost gb = self.group_manager;
                        let closed = self.group_manager.is_group_closed(e.0, q.target_type);
                        proof {
                            GroupManager::lemma_same_classes_trans(self.group_manager, gb, g1);
                            GroupManager::lemma_same_classes_queries(gb, g1);
                        }
                        if closed {
                            q1.is_fulfilled = true;
                            fc = fc + 1;
                        }
                    }
                    quests_completed = quests_completed + qc;
                    flags_completed = flags_completed + fc;
                    points = points + 100 * (qc + fc);
                    extra = extra + 5 * (qc + fc);
                    let new_tile = Tile { edges: e.1.tile.edges, rotation: e.1.tile.rotation, quest: Some(q1) };
                    let new_entry = (e.0, PlacedTile { tile: new_tile, is_perfect: e.1.is_perfect });
                    self.tiles.set(k, new_entry);
                },
                None => {},
            }
            k = k + 1;
        }
        proof {
            GroupManager::lemma_same_classes_queries(self.group_manager, g1);
            GroupManager::lemma_refines_trans(old(self).group_manager, g1, self.group_manager);
            let gm = self.group_manager;
            assert forall|i: int| 0 <= i < t1.len() implies #[trigger] settle_tile(t1[i], gm) == settle_tile(t1[i], g1) by {}
            assert(self.tiles@ =~= settled(t1, gm));
            lemma_totals_same(t1, gm, g1, n as int);
            assert(positions(self.tiles@) =~= positions(t1));
            gm.lemma_same_classes_classes(g1);
            assert(adjacent_map@ =~= placed_edges(t1));
            assert forall|p: AxialPos, s: SegmentType| #[trigger] gm.node_of(p, s) == g1.node_of(p, s) by {
                GroupManager::lemma_same_classes_nodes(gm, g1);
            }
            assert(placed_on(*old(self), pos, tile, *self));
            if old(self).slots_ok() {
                lemma_slots_stay_frontier(*old(self), pos, tile, *self);
            }
        }
        Some(PlacementResult {
            points_awarded: points,
            tiles_added_to_deck: extra,
            is_perfect,
            quests_completed,
            flags_completed,
        })
    }
}

/// Law: along any run of placements from an empty board whose only slot is the origin,
/// each taking a free cell off the coordinate border, the slots of every board reached
/// are exactly the empty cells next to a placed tile (the origin alone while none is).
pub proof fn lemma_frontier_along_placements(boards: Seq<Board>, moves: Seq<(AxialPos, Tile)>)
    requires
        boards.len() == moves.len() + 1,
        boards[0].wf(),
        boards[0].tiles@.len() == 0,
        boards[0].valid_slots@ == seq![origin()],
        forall|i: int| 0 <= i < moves.len() ==> (#[trigger] boards[i]).spec_can_place(moves[i].0)
            && pos_interior(moves[i].0) && placed_on(boards[i], moves[i].0, moves[i].1, boards[i + 1]),
    ensures
        forall|i: int| 0 <= i < boards.len() ==> (#[trigger] boards[i]).slots_ok(),
    decreases moves.len(),
{
    if moves.len() == 0 {
        assert(boards[0].valid_slots@.to_set() =~= set![origin()]) by {
            assert(boards[0].valid_slots@[0] == origin());
        }
    } else {
        let n = moves.len() - 1;
        lemma_frontier_along_placements(boards.drop_last(), moves.drop_last());
        assert(boards.drop_last()[n] == boards[n]);
        assert(boards[n].spec_can_place(moves[n].0) && pos_interior(moves[n].0)
            && placed_on(boards[n], moves[n].0, moves[n].1, boards[n + 1]));
        if n > 0 {
            assert(boards[n - 1].spec_can_place(moves[n - 1].0)
                && placed_on(boards[n - 1], moves[n - 1].0, moves[n - 1].1, boards[n]));
        }
        lemma_slots_stay_frontier(boards[n], moves[n].0, moves[n].1, boards[n + 1]);
        assert forall|i: int| 0 <= i < boards.len() implies (#[trigger] boards[i]).slots_ok() by {
            if i < boards.len() - 1 {
                assert(boards.drop_last()[i] == boards[i]);
            }
        }
    }
}

/// Law: the feature forest that a placement makes is determined by the forest before it,
/// so every forest meeting `features_after` answers the same sizes and closedness, and the
/// placement's completions, points and bonus do not depend on which one is meant.
pub proof fn lemma_placement_determined(
    before: GroupManager,
    ts: Seq<(AxialPos, PlacedTile)>,
    pos: AxialPos,
    tile: Tile,
    a: GroupManager,
    b: GroupManager,
)
    requires
        features_after(before, ts, pos, tile, a),
        features_after(before, ts, pos, tile, b),
    ensures
        forall|p: AxialPos, s: SegmentType| #[trigger] a.spec_group_size(p, s) == b.spec_group_size(p, s)
            && a.spec_group_closed(p, s) == b.spec_group_closed(p, s),
        placement_completions(ts, pos, tile, a) == placement_completions(ts, pos, tile, b),
        placement_points(ts, pos, tile, a) == placement_points(ts, pos, tile, b),
        placement_bonus(ts, pos, tile, a) == placement_bonus(ts, pos, tile, b),
{
    a.lemma_queries_from_classes();
    b.lemma_queries_from_classes();
    crate::group::lemma_distinct_prefix(tile.edges@, 6);
    assert(tile.edges@.take(6) =~= tile.edges@);
    let dp = distinct_prefix(tile.edges@, 6);
    assert forall|p: AxialPos, s: SegmentType| #[trigger] a.node_of(p, s) == b.node_of(p, s) by {
        if p == pos && tile.edges@.contains(s) {
            assert(dp.contains(s));
            let x = choose|x: int| 0 <= x < dp.len() && dp[x] == s;
            assert(a.node_of(pos, dp[x]) == b.node_of(pos, dp[x]));
        }
    }
    assert forall|p: AxialPos, s: SegmentType| #[trigger] a.spec_group_size(p, s) == b.spec_group_size(p, s)
        && a.spec_group_closed(p, s) == b.spec_group_closed(p, s) by {
        assert(a.node_of(p, s) == b.node_of(p, s));
    }
    let t1 = placement_tiles(ts, pos, tile);
    assert forall|i: int| 0 <= i < t1.len() implies #[trigger] settle_tile(t1[i], a) == settle_tile(t1[i], b) by {
        if let Some(q) = t1[i].1.tile.quest {
            assert(a.spec_group_size(t1[i].0, q.target_type) == b.spec_group_size(t1[i].0, q.target_type));
        }
    }
    lemma_totals_same(t1, a, b, t1.len() as int);
}

/// Settling more tiles never completes fewer quests or flags.
pub proof fn lemma_totals_monotone(ts: Seq<(AxialPos, PlacedTile)>, gm: GroupManager, k: int, n: int)
    requires
        0 <= k <= n <= ts.len(),
    ensures
        quest_total(ts, gm, k) <= quest_total(ts, gm, n),
        flag_total(ts, gm, k) <= flag_total(ts, gm, n),
    decreases n - k,
{
    if k < n {
        lemma_totals_monotone(ts, gm, k, n - 1);
    }
}

/// Totals computed against managers that answer queries alike coincide.
pub proof fn lemma_totals_same(ts: Seq<(AxialPos, PlacedTile)>, a: GroupManager, b: GroupManager, n: int)
    requires
        0 <= n <= ts.len(),
        forall|i: int| 0 <= i < ts.len() ==> #[trigger] settle_tile(ts[i], a) == settle_tile(ts[i], b),
    ensures
        quest_total(ts, a, n) == quest_total(ts, b, n),
        flag_total(ts, a, n) == flag_total(ts, b, n),
    decreases n,
{
    if n > 0 {
        lemma_totals_same(ts, a, b, n - 1);
        assert(settle_tile(ts[n - 1], a) == settle_tile(ts[n - 1], b));
    }
}

} // verus!
