use vstd::prelude::*;
use crate::board::{Board, board_tile_limit, placed_on, placement_outcome, lemma_count_matching_bound,
    lemma_totals_bounded, placement_tiles, features_after, placement_points, placement_bonus, placement_completions, placement_perfect};
use crate::group::GroupManager;
use crate::group::pos_interior;
use crate::hex::AxialPos;
use crate::prng::{TileDeckGenerator, deck_presets, deck_quest_fits, is_deck_draw, spec_deck_draw};
use crate::tile::{Tile, rotated_cw};

verus! {

/// A game in progress: the board, the tile in hand and the one after it, and the counters.
/// With a tile limit the game ends when that many tiles are placed; without one, when the
/// stack of remaining tiles runs out.
pub struct GameState {
    pub seed: u64,
    pub tile_limit: Option<u32>,
    pub deck_generator: TileDeckGenerator,
    pub board: Board,
    pub current_tile: Tile,
    pub next_tile: Tile,
    pub tiles_remaining: u32,
    pub score: u32,
    pub perfect_count: u32,
    pub quests_completed: u32,
    pub flags_completed: u32,
    pub tiles_placed_count: u32,
    pub game_over: bool,
}

/// A tile as the deck hands it out.
pub open spec fn deck_tile(t: Tile) -> bool {
    &&& deck_presets().contains(t.edges@)
    &&& t.rotation == 0
    &&& t.quest matches Some(q) ==> deck_quest_fits(t.edges@, q)
}

/// One call of `place_current_tile` at `pos` took the game from `o` to `n`, returning `r`.
pub open spec fn place_step(o: GameState, pos: AxialPos, n: GameState, r: bool) -> bool {
    if o.game_over || o.tiles_remaining == 0 {
        !r && n == o
    } else if o.tile_limit matches Some(l) && o.tiles_placed_count >= l {
        !r && n == (GameState { game_over: true, ..o })
    } else if !o.board.spec_can_place(pos) {
        &&& !r
        &&& n == (GameState { board: n.board, ..o })
        &&& n.board.tiles@ == o.board.tiles@
        &&& n.board.valid_slots@ == o.board.valid_slots@
        &&& n.board.group_manager.same_classes(o.board.group_manager)
    } else {
        let res = placement_outcome(o.board.tiles@, pos, o.current_tile, n.board.group_manager);
        let placed = (o.tiles_placed_count + 1) as u32;
        &&& r
        &&& placed_on(o.board, pos, o.current_tile, n.board)
        &&& n.score == o.score + res.points_awarded
        &&& n.tiles_placed_count == placed
        &&& match o.tile_limit {
            Some(l) => n.tiles_remaining == l.saturating_sub(placed) && n.game_over == (placed >= l),
            None => n.tiles_remaining == o.tiles_remaining.saturating_sub(1) + res.tiles_added_to_deck
                && n.game_over == (n.tiles_remaining == 0),
        }
        &&& n.perfect_count == o.perfect_count + if res.is_perfect { 1int } else { 0int }
        &&& n.quests_completed == o.quests_completed + res.quests_completed
        &&& n.flags_completed == o.flags_completed + res.flags_completed
        &&& n.current_tile == o.next_tile
        &&& deck_tile(n.next_tile)
        &&& is_deck_draw(n.next_tile, spec_deck_draw(o.deck_generator.deck_seed(), o.deck_generator.draws_used()))
        &&& n.deck_generator.draws_used() == spec_deck_draw(o.deck_generator.deck_seed(), o.deck_generator.draws_used()).2
        &&& n.seed == o.seed
        &&& n.tile_limit == o.tile_limit
        &&& n.deck_generator.deck_seed() == o.deck_generator.deck_seed()
    }
}

/// Whether `place_current_tile(pos)` on `s` places the tile in hand: the game goes on, a
/// tile remains, the limit is not reached and the cell is free.
pub open spec fn step_places(s: GameState, pos: AxialPos) -> bool {
    &&& !s.game_over
    &&& s.tiles_remaining != 0
    &&& !(s.tile_limit matches Some(l) && s.tiles_placed_count >= l)
    &&& s.board.spec_can_place(pos)
}

/// Whether the counters that placing the tile in hand at `pos` moves stay within `u32`:
/// the score, the tiles placed, the stack without a limit, the perfect placements, and the
/// quests and flags completed. Only a placement moves them.
pub open spec fn step_fits(s: GameState, pos: AxialPos) -> bool {
    step_places(s, pos) ==> forall|gm: GroupManager|
        #[trigger] features_after(s.board.group_manager, s.board.tiles@, pos, s.current_tile, gm) ==> {
            let ts = s.board.tiles@;
            let t = s.current_tile;
            let c = placement_completions(ts, pos, t, gm);
            &&& s.score + placement_points(ts, pos, t, gm) <= u32::MAX
            &&& s.tiles_placed_count < u32::MAX
            &&& s.tile_limit is None ==> s.tiles_remaining - 1 + placement_bonus(ts, pos, t, gm) <= u32::MAX
            &&& placement_perfect(ts, pos, t) ==> s.perfect_count < u32::MAX
            &&& s.quests_completed + c.0 <= u32::MAX
            &&& s.flags_completed + c.1 <= u32::MAX
        }
}

/// Room in the counters for any placement on `s`: a placement scores at most 120 points
/// plus 200 per tile on the board after it, completes at most that many quests and as many
/// flags, adds at most one perfect placement and one placed tile, and at most 1 + 10 per
/// tile to the stack.
pub open spec fn counters_have_room(s: GameState) -> bool {
    let n = s.board.tiles@.len() + 1;
    &&& s.score + 120 + 200 * n <= u32::MAX
    &&& s.quests_completed + n <= u32::MAX
    &&& s.flags_completed + n <= u32::MAX
    &&& s.perfect_count < u32::MAX
    &&& s.tiles_placed_count < u32::MAX
    &&& s.tiles_remaining + 10 * n <= u32::MAX
}

/// Law: with room in the counters, every placement keeps them within `u32`, and the board
/// is below its tile limit.
pub proof fn lemma_room_fits(s: GameState, pos: AxialPos)
    requires
        counters_have_room(s),
    ensures
        step_fits(s, pos),
        s.board.tiles@.len() < board_tile_limit(),
{
    let ts = s.board.tiles@;
    let t = s.current_tile;
    assert forall|gm: GroupManager| step_places(s, pos)
        && #[trigger] features_after(s.board.group_manager, ts, pos, t, gm) implies {
            let c = placement_completions(ts, pos, t, gm);
            &&& s.score + placement_points(ts, pos, t, gm) <= u32::MAX
            &&& s.tiles_placed_count < u32::MAX
            &&& s.tile_limit is None ==> s.tiles_remaining - 1 + placement_bonus(ts, pos, t, gm) <= u32::MAX
            &&& placement_perfect(ts, pos, t) ==> s.perfect_count < u32::MAX
            &&& s.quests_completed + c.0 <= u32::MAX
            &&& s.flags_completed + c.1 <= u32::MAX
        } by {
        let t1 = placement_tiles(ts, pos, t);
        lemma_count_matching_bound(ts, pos, t.edges@, 6);
        lemma_totals_bounded(t1, gm, t1.len() as int);
    }
}

/// Law: a successful placement without a tile limit spends the tile in hand and adds the
/// placement's bonus tiles to the stack, scores the placement's points, counts its
/// completions, and ends the game exactly when the stack runs out.
pub proof fn lemma_classic_stack_gains_bonus(o: GameState, pos: AxialPos, n: GameState)
    requires
        o.tile_limit is None,
        step_fits(o, pos),
        place_step(o, pos, n, true),
    ensures
        ({
            let ts = o.board.tiles@;
            let t = o.current_tile;
            let gm = n.board.group_manager;
            let c = placement_completions(ts, pos, t, gm);
            &&& n.tiles_remaining == o.tiles_remaining - 1 + placement_bonus(ts, pos, t, gm)
            &&& n.score == o.score + placement_points(ts, pos, t, gm)
            &&& n.tiles_placed_count == o.tiles_placed_count + 1
            &&& n.quests_completed == o.quests_completed + c.0
            &&& n.flags_completed == o.flags_completed + c.1
            &&& n.game_over == (n.tiles_remaining == 0)
        }),
{
    let ts = o.board.tiles@;
    let t = o.current_tile;
    let gm = n.board.group_manager;
    assert(step_places(o, pos));
    assert(features_after(o.board.group_manager, ts, pos, t, gm));
    lemma_count_matching_bound(ts, pos, t.edges@, 6);
}

/// Law: a successful placement with a tile limit leaves as the stack the limit minus the
/// tiles placed, and ends the game exactly when the limit is reached; bonus tiles do not
/// count there.
pub proof fn lemma_limited_stack_follows_limit(o: GameState, pos: AxialPos, n: GameState, l: u32)
    requires
        o.tile_limit == Some(l),
        step_fits(o, pos),
        place_step(o, pos, n, true),
    ensures
        n.tiles_placed_count == o.tiles_placed_count + 1,
        n.tiles_remaining == l - n.tiles_placed_count,
        n.game_over == (n.tiles_placed_count >= l),
        n.score == o.score + placement_points(o.board.tiles@, pos, o.current_tile, n.board.group_manager),
{
    assert(step_places(o, pos));
    assert(features_after(o.board.group_manager, o.board.tiles@, pos, o.current_tile, n.board.group_manager));
    lemma_count_matching_bound(o.board.tiles@, pos, o.current_tile.edges@, 6);
}

/// With a tile limit, the tiles placed never exceed the limit and the remaining stack is
/// the limit minus the tiles placed.
pub open spec fn limit_accounting(g: GameState) -> bool {
    g.tile_limit matches Some(l) ==> g.tiles_placed_count <= l && g.tiles_remaining == l - g.tiles_placed_count
}

/// Law: a new game keeps the limit accounting, and every placement attempt preserves it,
/// so the remaining stack and the tiles placed always add up to the limit.
pub proof fn lemma_limit_accounting_preserved(o: GameState, pos: AxialPos, n: GameState, r: bool)
    requires
        limit_accounting(o),
        place_step(o, pos, n, r),
    ensures
        limit_accounting(n),
{
}

impl GameState {
    /// The board is well formed and the tiles in hand are turned less than a full circle.
    pub open spec fn wf(&self) -> bool {
        &&& self.board.wf()
        &&& self.current_tile.rotation < 6
        &&& self.next_tile.rotation < 6
    }

    /// A new game: an empty board, the first two tiles of the deck seeded with `seed`, and
    /// as many tiles to place as the limit allows (40 without a limit).
    pub fn new(seed: u64, tile_limit: Option<u32>) -> (g: GameState)
        ensures
            g.wf(),
            g.seed == seed,
            g.tile_limit == tile_limit,
            g.deck_generator.deck_seed() == seed,
            g.board.tiles@.len() == 0,
            g.board.valid_slots@ == seq![crate::board::origin()],
            deck_tile(g.current_tile),
            deck_tile(g.next_tile),
            is_deck_draw(g.current_tile, spec_deck_draw(seed, 0)),
            is_deck_draw(g.next_tile, spec_deck_draw(seed, spec_deck_draw(seed, 0).2)),
            g.deck_generator.draws_used() == spec_deck_draw(seed, spec_deck_draw(seed, 0).2).2,
            g.tiles_remaining == match tile_limit { Some(l) => l, None => 40u32 },
            limit_accounting(g),
            g.score == 0,
            g.perfect_count == 0,
            g.quests_completed == 0,
            g.flags_completed == 0,
            g.tiles_placed_count == 0,
            !g.game_over,
    {
        let mut deck_generator = TileDeckGenerator::new(seed);
        let current_tile = deck_generator.draw_next_tile();
        let next_tile = deck_generator.draw_next_tile();
        let initial_tiles = match tile_limit { Some(l) => l, None => 40 };
        GameState {
            seed,
            tile_limit,
            deck_generator,
            board: Board::new(),
            current_tile,
            next_tile,
            tiles_remaining: initial_tiles,
            score: 0,
            perfect_count: 0,
            quests_completed: 0,
            flags_completed: 0,
            tiles_placed_count: 0,
            game_over: false,
        }
    }

    /// Whether the counters have room for any placement (`counters_have_room`).
    pub fn has_room(&self) -> (b: bool)
        ensures
            b == counters_have_room(*self),
    {
        let n: u64 = self.board.tiles.len() as u64;
        if n >= 0xffff_ffff {
            return false;
        }
        let n1: u64 = n + 1;
        let max: u64 = 0xffff_ffff;
        self.score as u64 + 120 + 200 * n1 <= max
            && self.quests_completed as u64 + n1 <= max
            && self.flags_completed as u64 + n1 <= max
            && self.perfect_count < 0xffff_ffff
            && self.tiles_placed_count < 0xffff_ffff
            && self.tiles_remaining as u64 + 10 * n1 <= max
    }

    /// Attempts `place_current_tile(pos)` when the counters have room for any placement and,
    /// should the tile be placed, `pos` lies off the coordinate border; `None`, changing
    /// nothing, otherwise.
    pub fn try_place_current_tile(&mut self, pos: AxialPos) -> (r: Option<bool>)
        requires
            old(self).wf(),
        ensures
            final(self).wf(),
            r is None <==> !(counters_have_room(*old(self)) && (step_places(*old(self), pos) ==> pos_interior(pos))),
            r is None ==> *final(self) == *old(self),
            r matches Some(placed) ==> place_step(*old(self), pos, *final(self), placed),
    {
        let limit_reached = match self.tile_limit {
            Some(l) => self.tiles_placed_count >= l,
            None => false,
        };
        let places = !self.game_over && self.tiles_remaining != 0 && !limit_reached && self.board.can_place(pos);
        let on_border = pos.q == i32::MIN || pos.q == i32::MAX || pos.r == i32::MIN || pos.r == i32::MAX;
        if !self.has_room() || (places && on_border) {
            return None;
        }
        proof { lemma_room_fits(*self, pos); }
        Some(self.place_current_tile(pos))
    }

    /// Turns the tile in hand 60 degrees clockwise.
    pub fn rotate_current_tile(&mut self)
        requires
            old(self).wf(),
        ensures
            final(self).wf(),
            final(self).current_tile.edges@ == rotated_cw(old(self).current_tile.edges@),
            final(self).current_tile.rotation == (old(self).current_tile.rotation + 1) % 6,
            final(self).current_tile.quest == old(self).current_tile.quest,
            *final(self) == (GameState { current_tile: final(self).current_tile, ..*old(self) }),
    {
        self.current_tile.rotate_cw();
    }

    /// Places the tile in hand at `pos`. Nothing is placed, and `false` returned, when the
    /// game is over or no tile remains; when the tile limit is reached (the game then ends);
    /// or when the cell is not free. Otherwise the placement's points are scored, the
    /// counters move on, the remaining stack becomes the limit minus the tiles placed (with
    /// a limit) or loses this tile and gains the bonus tiles (without one), the game ends
    /// when that stack or the limit is used up, and the next tile comes into hand.
    pub fn place_current_tile(&mut self, pos: AxialPos) -> (r: bool)
        requires
            old(self).wf(),
            old(self).board.tiles@.len() < board_tile_limit(),
            step_places(*old(self), pos) ==> pos_interior(pos),
            step_fits(*old(self), pos),
        ensures
            final(self).wf(),
            place_step(*old(self), pos, *final(self), r),
    {
        if self.game_over || self.tiles_remaining == 0 {
            return false;
        }
        if let Some(limit) = self.tile_limit {
            if self.tiles_placed_count >= limit {
                self.game_over = true;
                return false;
            }
        }
        let ghost before = self.board;
        let tile = self.current_tile;
        proof {
            assert(step_places(*old(self), pos) <== self.board.spec_can_place(pos));
            assert forall|gm: GroupManager| self.board.spec_can_place(pos)
                && #[trigger] features_after(before.group_manager, before.tiles@, pos, tile, gm)
                implies placement_points(before.tiles@, pos, tile, gm) <= u32::MAX by {
                lemma_count_matching_bound(before.tiles@, pos, tile.edges@, 6);
            }
        }
        match self.board.place_tile(pos, tile) {
            Some(res) => {
                proof {
                    let ts = before.tiles@;
                    let gm = self.board.group_manager;
                    assert(features_after(before.group_manager, ts, pos, tile, gm));
                    lemma_count_matching_bound(ts, pos, tile.edges@, 6);
                }
                self.score = self.score + res.points_awarded;
                self.tiles_placed_count = self.tiles_placed_count + 1;
                if let Some(limit) = self.tile_limit {
                    self.tiles_remaining = limit.saturating_sub(self.tiles_placed_count);
                    if self.tiles_placed_count >= limit {
                        self.game_over = true;
                    }
                } else {
                    self.tiles_remaining = self.tiles_remaining.saturating_sub(1) + res.tiles_added_to_deck;
                    if self.tiles_remaining == 0 {
                        self.game_over = true;
                    }
                }
                if res.is_perfect {
                    self.perfect_count = self.perfect_count + 1;
                }
                self.quests_completed = self.quests_completed + res.quests_completed;
                self.flags_completed = self.flags_completed + res.flags_completed;
                self.current_tile = self.next_tile;
                self.next_tile = self.deck_generator.draw_next_tile();
                true
            },
            None => false,
        }
    }
}

} // verus!
