use vstd::prelude::*;
use crate::config::tile_gen_configuration::TileGenFilter;
use crate::game_core::quest_manager::QuestManager;

verus! {

/// A tile the generator handed out.
#[derive(Debug, Clone)]
pub struct GeneratedTileInfo {
    pub tile_index: usize,
    pub tile_seed: i32,
    pub is_quest: bool,
    pub preset_name: String,
    pub occupied_edges: usize,
    pub rotation: usize,
}

/// The game's tile generator: every draw derives its random seeds from the session seed,
/// the counts of tiles and quest tiles drawn so far, and a per-session step.
#[derive(Debug, Clone, Copy, PartialEq, Eq, Structural)]
pub struct TileGenerator {
    pub tile_generation_seed: i32,
    pub generated_tile_count: usize,
    pub generated_quest_count: usize,
    pub tile_seed_increment_step: i32,
    pub at_least_two_empty_edges_for_x_turns: usize,
    pub call_counter: usize,
}

/// The seeds and filter of one draw, before the quest roll decides what kind of tile it is.
#[derive(Debug, Clone, Copy, PartialEq, Eq, Structural)]
pub struct TileDraw {
    /// The 1-based number of this tile.
    pub tile_index: usize,
    /// The seed of an ordinary tile: session seed plus (tiles - quest tiles) steps.
    pub base_seed: i32,
    /// The seed of the quest roll: session seed plus (tiles, counting this one) steps.
    pub roll_seed: i32,
    /// The first few tiles keep at least two edges empty.
    pub filter: TileGenFilter,
}

impl GeneratedTileInfo {
    /// The record of a quest tile: its number and quest seed, the chosen sub-collection, two
    /// occupied edges and no rotation.
    pub fn quest_tile(draw: &TileDraw, quest_seed: i32, preset_name: String) -> (t: GeneratedTileInfo)
        ensures
            t.tile_index == draw.tile_index,
            t.tile_seed == quest_seed,
            t.is_quest,
            t.preset_name == preset_name,
            t.occupied_edges == 2,
            t.rotation == 0,
    {
        GeneratedTileInfo {
            tile_index: draw.tile_index,
            tile_seed: quest_seed,
            is_quest: true,
            preset_name,
            occupied_edges: 2,
            rotation: 0,
        }
    }

    /// The record of an ordinary tile: its number and base seed, the chosen preset and its
    /// occupied edges, and the drawn rotation.
    pub fn ordinary_tile(draw: &TileDraw, preset_name: String, occupied_edges: usize, rotation: i32) -> (t: GeneratedTileInfo)
        requires
            0 <= rotation < 6,
        ensures
            t.tile_index == draw.tile_index,
            t.tile_seed == draw.base_seed,
            !t.is_quest,
            t.preset_name == preset_name,
            t.occupied_edges == occupied_edges,
            t.rotation == rotation,
    {
        GeneratedTileInfo {
            tile_index: draw.tile_index,
            tile_seed: draw.base_seed,
            is_quest: false,
            preset_name,
            occupied_edges,
            rotation: rotation as usize,
        }
    }
}

/// `seed + n * step`, each operation wrapping around in 32 bits as the game computes it.
pub open spec fn seed_after(seed: i32, n: usize, step: i32) -> i32 {
    seed.wrapping_add((n as i32).wrapping_mul(step))
}

impl TileGenerator {
    /// A generator for a session seed and its seed step, before any draw; the first five
    /// tiles keep at least two edges empty.
    pub fn new(seed: i32, step: i32) -> (g: TileGenerator)
        ensures
            g.tile_generation_seed == seed,
            g.tile_seed_increment_step == step,
            g.generated_tile_count == 0,
            g.generated_quest_count == 0,
            g.at_least_two_empty_edges_for_x_turns == 5,
            g.call_counter == 0,
    {
        TileGenerator {
            tile_generation_seed: seed,
            generated_tile_count: 0,
            generated_quest_count: 0,
            tile_seed_increment_step: step,
            at_least_two_empty_edges_for_x_turns: 5,
            call_counter: 0,
        }
    }

    /// Replaces the seed step.
    pub fn set_step(&mut self, step: i32)
        ensures
            *final(self) == (TileGenerator { tile_seed_increment_step: step, ..*old(self) }),
    {
        self.tile_seed_increment_step = step;
    }

    /// Starts the next draw: counts the tile and gives its seeds and filter.
    pub fn next_draw(&mut self) -> (d: TileDraw)
        requires
            old(self).generated_quest_count <= old(self).generated_tile_count,
            old(self).generated_tile_count < usize::MAX,
        ensures
            *final(self) == (TileGenerator {
                generated_tile_count: (old(self).generated_tile_count + 1) as usize,
                ..*old(self)
            }),
            d.tile_index == final(self).generated_tile_count,
            d.base_seed == seed_after(old(self).tile_generation_seed,
                (old(self).generated_tile_count - old(self).generated_quest_count) as usize,
                old(self).tile_seed_increment_step),
            d.roll_seed == seed_after(old(self).tile_generation_seed, final(self).generated_tile_count,
                old(self).tile_seed_increment_step),
            d.filter == if final(self).generated_tile_count <= old(self).at_least_two_empty_edges_for_x_turns {
                TileGenFilter::AtLeastTwoEmptyEdges
            } else {
                TileGenFilter::Unfiltered
            },
    {
        let ordinary: usize = self.generated_tile_count - self.generated_quest_count;
        let base_seed = self.tile_generation_seed.wrapping_add((ordinary as i32).wrapping_mul(self.tile_seed_increment_step));
        self.generated_tile_count += 1;
        let filter = if self.generated_tile_count <= self.at_least_two_empty_edges_for_x_turns {
            TileGenFilter::AtLeastTwoEmptyEdges
        } else {
            TileGenFilter::Unfiltered
        };
        let roll_seed = self.tile_generation_seed.wrapping_add(
            (self.generated_tile_count as i32).wrapping_mul(self.tile_seed_increment_step));
        TileDraw { tile_index: self.generated_tile_count, base_seed, roll_seed, filter }
    }

    /// The roll made the current draw a quest tile: counts it (here and in the quest
    /// manager) and gives the seed of the quest choice, twice the session seed plus
    /// (quest tiles so far) steps.
    pub fn start_quest_tile(&mut self, quest_manager: &mut QuestManager) -> (quest_seed: i32)
        requires
            old(self).generated_quest_count < usize::MAX,
            old(quest_manager).active_quest_count < usize::MAX,
            old(quest_manager).total_quests_generated < usize::MAX,
        ensures
            *final(self) == (TileGenerator {
                generated_quest_count: (old(self).generated_quest_count + 1) as usize,
                ..*old(self)
            }),
            final(quest_manager).active_quest_count == old(quest_manager).active_quest_count + 1,
            final(quest_manager).total_quests_generated == old(quest_manager).total_quests_generated + 1,
            quest_seed == seed_after(old(self).tile_generation_seed, old(self).generated_quest_count,
                old(self).tile_seed_increment_step).wrapping_mul(2),
    {
        let quest_seed = self.tile_generation_seed.wrapping_add(
            (self.generated_quest_count as i32).wrapping_mul(self.tile_seed_increment_step));
        self.generated_quest_count += 1;
        quest_manager.add_quest();
        quest_seed.wrapping_mul(2)
    }
}

/// The seed from which an ordinary tile's preset and rotation are drawn.
pub fn ordinary_tile_seed(d: &TileDraw) -> (s: i32)
    ensures
        s == d.base_seed.wrapping_mul(2),
{
    d.base_seed.wrapping_mul(2)
}

/// 2 to the 32nd: `i32` arithmetic wraps modulo this.
pub open spec fn wrap_modulus() -> int {
    0x1_0000_0000
}

/// A wrapped sum differs from the true sum by a multiple of 2^32.
proof fn lemma_wrapping_add_congruent(x: i32, y: i32)
    ensures
        (x.wrapping_add(y) - (x + y)) % wrap_modulus() == 0,
{
}

/// A wrapped product differs from the true product by a multiple of 2^32.
proof fn lemma_wrapping_mul_congruent(x: i32, y: i32)
    ensures
        (x.wrapping_mul(y) - x * y) % wrap_modulus() == 0,
{
    let r = wrap_modulus();
    let z = x * y;
    vstd::arithmetic::div_mod::lemma_fundamental_div_mod(z, r);
    let q = z / r;
    let d = x.wrapping_mul(y) - z;
    assert(d == -r * q || d == -r * q - r);
    vstd::arithmetic::div_mod::lemma_fundamental_div_mod(d, r);
    assert(d % r == 0) by {
        let k = if d == -r * q { -q } else { -q - 1 };
        assert(d == r * k);
        vstd::arithmetic::div_mod::lemma_mod_multiples_basic(k, r);
        assert(k * r == r * k);
    }
}

/// Two `i32` values congruent modulo 2^32 are equal.
proof fn lemma_congruent_i32_equal(a: i32, b: i32)
    requires
        (a - b) % wrap_modulus() == 0,
    ensures
        a == b,
{
    vstd::arithmetic::div_mod::lemma_fundamental_div_mod(a - b, wrap_modulus());
}

/// Law: each further ordinary tile moves the seed on by one step, in 32-bit wrapping
/// arithmetic: the seed after `n + 1` steps is the seed after `n` steps plus one step.
pub proof fn lemma_seed_steps(seed: i32, step: i32, n: u32)
    requires
        n < 0x7fff_ffff,
    ensures
        seed_after(seed, (n + 1) as usize, step) == seed_after(seed, n as usize, step).wrapping_add(step),
{
    let r = wrap_modulus();
    let a: i32 = n as i32;
    let b: i32 = (n + 1) as i32;
    assert(((n as usize) as i32) == a);
    assert((((n + 1) as usize) as i32) == b);
    let m0 = a.wrapping_mul(step);
    let m1 = b.wrapping_mul(step);
    let s0 = seed.wrapping_add(m0);
    let lhs = seed.wrapping_add(m1);
    let rhs = s0.wrapping_add(step);
    lemma_wrapping_mul_congruent(a, step);
    lemma_wrapping_mul_congruent(b, step);
    lemma_wrapping_add_congruent(seed, m0);
    lemma_wrapping_add_congruent(seed, m1);
    lemma_wrapping_add_congruent(s0, step);
    let d1 = lhs - (seed + m1);
    let d2 = m1 - b * step;
    let d3 = s0 - (seed + m0);
    let d4 = m0 - a * step;
    let d5 = rhs - (s0 + step);
    vstd::arithmetic::div_mod::lemma_fundamental_div_mod(d1, r);
    vstd::arithmetic::div_mod::lemma_fundamental_div_mod(d2, r);
    vstd::arithmetic::div_mod::lemma_fundamental_div_mod(d3, r);
    vstd::arithmetic::div_mod::lemma_fundamental_div_mod(d4, r);
    vstd::arithmetic::div_mod::lemma_fundamental_div_mod(d5, r);
    assert(b * step == a * step + step) by (nonlinear_arith)
        requires b == a + 1;
    let k = d1 / r + d2 / r - d3 / r - d4 / r - d5 / r;
    assert(lhs - rhs == r * k) by (nonlinear_arith)
        requires
            d1 == r * (d1 / r), d2 == r * (d2 / r), d3 == r * (d3 / r), d4 == r * (d4 / r), d5 == r * (d5 / r),
            d1 == lhs - (seed + m1), d2 == m1 - b * step, d3 == s0 - (seed + m0), d4 == m0 - a * step,
            d5 == rhs - (s0 + step), b * step == a * step + step,
            k == d1 / r + d2 / r - d3 / r - d4 / r - d5 / r;
    vstd::arithmetic::div_mod::lemma_mod_multiples_basic(k, r);
    assert(k * r == r * k) by (nonlinear_arith);
    lemma_congruent_i32_equal(lhs, rhs);
}

} // verus!
