use vstd::prelude::*;
use rand::Rng;
use rand::SeedableRng;
use crate::tile::{Quest, QuestType, SegmentType, Tile};

verus! {

#[verifier::external_type_specification]
#[verifier::external_body]
pub struct ExLcg64Xsh32(rand_pcg::Lcg64Xsh32);

/// What `Rng::gen_range(lo..hi)` on `usize` returns from a PCG32 generator made by
/// `seed_from_u64(seed)` that has already produced `used` 32-bit outputs, on a machine whose
/// `usize` has `word_bits` bits, paired with the number of outputs produced after the call.
/// rand_core documents `seed_from_u64` as value-stable, and sampling reads only the
/// generator's outputs, drawing whole `usize` words (one output on 32 bits, two on 64), so
/// this is a function of these arguments.
pub uninterp spec fn pcg_range_usize(seed: u64, used: nat, lo: int, hi: int, word_bits: nat) -> (int, nat);

/// The same for `Rng::gen_range(lo..hi)` on `i32`, which samples with 32-bit arithmetic.
pub uninterp spec fn pcg_range_i32(seed: u64, used: nat, lo: int, hi: int) -> (int, nat);

/// The same for `Rng::gen_ratio(numerator, denominator)`.
pub uninterp spec fn pcg_ratio(seed: u64, used: nat, numerator: nat, denominator: nat) -> (bool, nat);

/// `rand_pcg::Pcg32::seed_from_u64`: the deck's generator, seeded with `seed`, having
/// produced no output yet.
#[verifier::external_body]
fn deck_from_seed(seed: u64) -> (d: TileDeckGenerator)
    ensures
        d.seed == seed,
        d.origin@ == seed,
        d.used@ == 0,
{
    TileDeckGenerator { rng: rand_pcg::Lcg64Xsh32::seed_from_u64(seed), seed, origin: Ghost(seed), used: Ghost(0) }
}

/// `Rng::gen_range(lo..hi)` on `usize`, drawn from the deck's generator: the value named by
/// `pcg_range_usize` for the deck's seed, its outputs so far and the width of `usize`, which
/// lies in `lo..hi` (rand panics on an empty range); the output count moves on as the name
/// says.
#[verifier::external_body]
fn gen_range_usize(deck: &mut TileDeckGenerator, lo: usize, hi: usize) -> (r: usize)
    requires
        lo < hi,
    ensures
        r == pcg_range_usize(old(deck).origin@, old(deck).used@, lo as int, hi as int, usize::BITS as nat).0,
        final(deck).used@ == pcg_range_usize(old(deck).origin@, old(deck).used@, lo as int, hi as int, usize::BITS as nat).1,
        final(deck).origin@ == old(deck).origin@,
        final(deck).seed == old(deck).seed,
        lo <= r < hi,
{
    deck.rng.gen_range(lo..hi)
}

/// `Rng::gen_range(lo..hi)` on `i32`, drawn from the deck's generator: the value named by
/// `pcg_range_i32`, which lies in `lo..hi` (rand panics on an empty range).
#[verifier::external_body]
fn gen_range_i32(deck: &mut TileDeckGenerator, lo: i32, hi: i32) -> (r: i32)
    requires
        lo < hi,
    ensures
        r == pcg_range_i32(old(deck).origin@, old(deck).used@, lo as int, hi as int).0,
        final(deck).used@ == pcg_range_i32(old(deck).origin@, old(deck).used@, lo as int, hi as int).1,
        final(deck).origin@ == old(deck).origin@,
        final(deck).seed == old(deck).seed,
        lo <= r < hi,
{
    deck.rng.gen_range(lo..hi)
}

/// `Rng::gen_ratio(numerator, denominator)`, drawn from the deck's generator: the value named
/// by `pcg_ratio`. rand promises `false` for a zero numerator and `true` when the two are
/// equal, and panics on a zero denominator or a numerator above it.
#[verifier::external_body]
fn gen_ratio(deck: &mut TileDeckGenerator, numerator: u32, denominator: u32) -> (b: bool)
    requires
        0 < denominator,
        numerator <= denominator,
    ensures
        b == pcg_ratio(old(deck).origin@, old(deck).used@, numerator as nat, denominator as nat).0,
        final(deck).used@ == pcg_ratio(old(deck).origin@, old(deck).used@, numerator as nat, denominator as nat).1,
        final(deck).origin@ == old(deck).origin@,
        final(deck).seed == old(deck).seed,
        numerator == 0 ==> !b,
        numerator == denominator ==> b,
{
    deck.rng.gen_ratio(numerator, denominator)
}

/// The fourteen edge patterns the deck draws from.
pub open spec fn deck_presets() -> Seq<Seq<SegmentType>> {
    let g = SegmentType::Grass;
    let f = SegmentType::Forest;
    let v = SegmentType::Village;
    let a = SegmentType::Agriculture;
    let w = SegmentType::Water;
    let t = SegmentType::Train;
    seq![
        seq![g, g, g, g, g, g],
        seq![f, g, g, g, g, g],
        seq![f, f, g, g, g, g],
        seq![f, f, f, g, g, g],
        seq![v, g, g, g, g, g],
        seq![v, v, g, g, g, g],
        seq![a, g, a, g, g, g],
        seq![a, a, a, g, g, g],
        seq![w, g, g, w, g, g],
        seq![w, w, g, g, g, g],
        seq![t, g, g, t, g, g],
        seq![t, t, g, g, g, g],
        seq![f, f, v, g, g, g],
        seq![a, a, w, g, w, g],
    ]
}

/// The edge pattern with the given number.
pub fn preset_edges(idx: usize) -> (e: [SegmentType; 6])
    requires
        idx < 14,
    ensures
        e@ == deck_presets()[idx as int],
{
    let g = SegmentType::Grass;
    let f = SegmentType::Forest;
    let v = SegmentType::Village;
    let a = SegmentType::Agriculture;
    let w = SegmentType::Water;
    let t = SegmentType::Train;
    let e = if idx == 0 { [g, g, g, g, g, g] }
        else if idx == 1 { [f, g, g, g, g, g] }
        else if idx == 2 { [f, f, g, g, g, g] }
        else if idx == 3 { [f, f, f, g, g, g] }
        else if idx == 4 { [v, g, g, g, g, g] }
        else if idx == 5 { [v, v, g, g, g, g] }
        else if idx == 6 { [a, g, a, g, g, g] }
        else if idx == 7 { [a, a, a, g, g, g] }
        else if idx == 8 { [w, g, g, w, g, g] }
        else if idx == 9 { [w, w, g, g, g, g] }
        else if idx == 10 { [t, g, g, t, g, g] }
        else if idx == 11 { [t, t, g, g, g, g] }
        else if idx == 12 { [f, f, v, g, g, g] }
        else { [a, a, w, g, w, g] };
    assert(e@ =~= deck_presets()[idx as int]);
    e
}

/// The edges that are not grass, in order.
pub open spec fn non_grass(e: Seq<SegmentType>) -> Seq<SegmentType> {
    e.filter(|s: SegmentType| s != SegmentType::Grass)
}

/// The segments of a tile that are not grass, in edge order.
pub fn non_grass_segments(edges: &[SegmentType; 6]) -> (r: Vec<SegmentType>)
    ensures
        r@ == non_grass(edges@),
{
    let mut r: Vec<SegmentType> = Vec::new();
    let mut k: usize = 0;
    while k < 6
        invariant
            0 <= k <= 6,
            edges@.len() == 6,
            r@ == non_grass(edges@.take(k as int)),
        decreases 6 - k,
    {
        proof {
            edges@.take(k as int).lemma_filter_push(edges@[k as int], |s: SegmentType| s != SegmentType::Grass);
            assert(edges@.take(k as int).push(edges@[k as int]) =~= edges@.take(k + 1));
        }
        if edges[k] != SegmentType::Grass {
            r.push(edges[k]);
        }
        k = k + 1;
    }
    assert(edges@.take(6) =~= edges@);
    r
}

/// The quest target used when a tile has no segment but grass: forest, village, then
/// agriculture for any other roll.
pub open spec fn fallback_target(roll: int) -> SegmentType {
    if roll == 0 { SegmentType::Forest } else if roll == 1 { SegmentType::Village } else { SegmentType::Agriculture }
}

/// The range `lo..hi` that a quest's target count is drawn from, by target type.
pub open spec fn quest_count_range(t: SegmentType) -> (usize, usize) {
    match t {
        SegmentType::Forest => (10, 31),
        SegmentType::Village => (5, 21),
        SegmentType::Agriculture => (8, 26),
        SegmentType::Water => (4, 13),
        SegmentType::Train => (4, 13),
        SegmentType::Grass => (10, 11),
    }
}

/// A quest that a deck tile with edges `e` may carry: its target is one of the tile's
/// non-grass segments (forest, village or agriculture on an all-grass tile), its count is
/// drawn from the target's range, and it starts unfulfilled and not a flag.
pub open spec fn deck_quest_fits(e: Seq<SegmentType>, q: Quest) -> bool {
    &&& if non_grass(e).len() > 0 {
        non_grass(e).contains(q.target_type)
    } else {
        q.target_type == SegmentType::Forest || q.target_type == SegmentType::Village
            || q.target_type == SegmentType::Agriculture
    }
    &&& quest_count_range(q.target_type).0 <= q.target_count < quest_count_range(q.target_type).1
    &&& !q.is_fulfilled
    &&& !q.is_flag
}

/// The target count range of a quest's target type.
fn count_range_of(t: SegmentType) -> (r: (usize, usize))
    ensures
        r == quest_count_range(t),
{
    match t {
        SegmentType::Forest => (10, 31),
        SegmentType::Village => (5, 21),
        SegmentType::Agriculture => (8, 26),
        SegmentType::Water => (4, 13),
        SegmentType::Train => (4, 13),
        SegmentType::Grass => (10, 11),
    }
}

/// The quest target picked by `pick`: the non-grass segment at that index, or on an
/// all-grass tile forest, village, then agriculture for any other pick.
pub open spec fn deck_target(e: Seq<SegmentType>, pick: int) -> SegmentType {
    if non_grass(e).len() > 0 { non_grass(e)[pick] } else { fallback_target(pick) }
}

/// The quest a deck tile with edges `e` carries for the drawn target pick, quest kind and
/// count: unfulfilled and not yet a flag.
pub open spec fn deck_quest(e: Seq<SegmentType>, pick: int, more_than: bool, count: int) -> Quest {
    Quest {
        target_type: deck_target(e, pick),
        quest_type: if more_than { QuestType::MoreThan } else { QuestType::Exactly },
        target_count: count as usize,
        is_fulfilled: false,
        is_flag: false,
    }
}

/// The tile drawn from a deck seeded with `seed` that has used `used` generator outputs:
/// the index of its edge pattern, its quest, and the outputs used afterwards. The pattern
/// is drawn from `0..14`; a quest comes with chance 1/5; its target is drawn among the
/// non-grass segments (from `0..3` on an all-grass tile); it is "more than" with chance
/// 7/10; its count is drawn from the target's range.
pub open spec fn spec_deck_draw(seed: u64, used: nat) -> (int, Option<Quest>, nat) {
    let d_idx = pcg_range_usize(seed, used, 0, 14, usize::BITS as nat);
    let e = deck_presets()[d_idx.0];
    let d_quest = pcg_ratio(seed, d_idx.1, 1, 5);
    if !d_quest.0 {
        (d_idx.0, None, d_quest.1)
    } else {
        let ng = non_grass(e);
        let d_pick = if ng.len() > 0 {
            pcg_range_usize(seed, d_quest.1, 0, ng.len() as int, usize::BITS as nat)
        } else {
            pcg_range_i32(seed, d_quest.1, 0, 3)
        };
        let target = deck_target(e, d_pick.0);
        let d_more = pcg_ratio(seed, d_pick.1, 7, 10);
        let range = quest_count_range(target);
        let d_count = pcg_range_usize(seed, d_more.1, range.0 as int, range.1 as int, usize::BITS as nat);
        (d_idx.0, Some(deck_quest(e, d_pick.0, d_more.0, d_count.0)), d_count.1)
    }
}

/// `t` is the tile of draw `d`: its edge pattern, unrotated, with its quest.
pub open spec fn is_deck_draw(t: Tile, d: (int, Option<Quest>, nat)) -> bool {
    &&& 0 <= d.0 < 14
    &&& t.edges@ == deck_presets()[d.0]
    &&& t.rotation == 0
    &&& t.quest == d.1
}

/// Builds a deck tile from drawn values: the edge pattern `preset_idx` and, if a quest
/// was drawn, its target pick, whether it is "more than", and its count.
pub fn build_deck_tile(preset_idx: usize, quest: Option<(usize, bool, usize)>) -> (t: Tile)
    requires
        preset_idx < 14,
        quest matches Some(q) ==> (non_grass(deck_presets()[preset_idx as int]).len() > 0
            ==> q.0 < non_grass(deck_presets()[preset_idx as int]).len()),
    ensures
        t.edges@ == deck_presets()[preset_idx as int],
        t.rotation == 0,
        t.quest == match quest {
            Some(q) => Some(deck_quest(deck_presets()[preset_idx as int], q.0 as int, q.1, q.2 as int)),
            None => None,
        },
{
    let edges = preset_edges(preset_idx);
    let q = match quest {
        Some((pick, more_than, count)) => {
            let ng = non_grass_segments(&edges);
            let target_type = if ng.len() > 0 {
                ng[pick]
            } else if pick == 0 {
                SegmentType::Forest
            } else if pick == 1 {
                SegmentType::Village
            } else {
                SegmentType::Agriculture
            };
            let quest_type = if more_than { QuestType::MoreThan } else { QuestType::Exactly };
            Some(Quest { target_type, quest_type, target_count: count, is_fulfilled: false, is_flag: false })
        },
        None => None,
    };
    Tile::new(edges, q)
}

/// A deterministic deck of tiles drawn from a seeded PCG32 generator. Besides the seed it
/// tracks, in ghost state, the seed the generator was made from and how many outputs it
/// has produced, which fix every later draw.
pub struct TileDeckGenerator {
    rng: rand_pcg::Lcg64Xsh32,
    pub seed: u64,
    origin: Ghost<u64>,
    used: Ghost<nat>,
}

impl TileDeckGenerator {
    /// The seed the deck's generator was made from.
    pub closed spec fn deck_seed(&self) -> u64 {
        self.origin@
    }

    /// How many 32-bit outputs the deck's generator has produced.
    pub closed spec fn draws_used(&self) -> nat {
        self.used@
    }

    /// The value of the public `seed` field.
    pub closed spec fn seed_value(&self) -> u64 {
        self.seed
    }

    /// A deck whose generator is seeded with `seed`.
    pub fn new(seed: u64) -> (d: TileDeckGenerator)
        ensures
            d.deck_seed() == seed,
            d.draws_used() == 0,
            d.seed_value() == seed,
    {
        deck_from_seed(seed)
    }

    /// Draws the next tile (see `spec_deck_draw`): one of the fourteen edge patterns,
    /// unrotated, carrying a quest one time in five. A quest targets one of the tile's
    /// non-grass segments (forest, village or agriculture on an all-grass tile), is
    /// "more than" seven times in ten and "exactly" otherwise, and asks for a count from
    /// the target's range.
    pub fn draw_next_tile(&mut self) -> (t: Tile)
        ensures
            is_deck_draw(t, spec_deck_draw(old(self).deck_seed(), old(self).draws_used())),
            final(self).draws_used() == spec_deck_draw(old(self).deck_seed(), old(self).draws_used()).2,
            final(self).deck_seed() == old(self).deck_seed(),
            final(self).seed_value() == old(self).seed_value(),
            deck_presets().contains(t.edges@),
            t.quest matches Some(q) ==> deck_quest_fits(t.edges@, q),
    {
        let preset_idx = gen_range_usize(self, 0, 14);
        let ghost e = deck_presets()[preset_idx as int];
        let has_quest = gen_ratio(self, 1, 5);
        let quest = if has_quest {
            let edges = preset_edges(preset_idx);
            let ng = non_grass_segments(&edges);
            let pick: usize = if ng.len() > 0 {
                gen_range_usize(self, 0, ng.len())
            } else {
                let roll = gen_range_i32(self, 0, 3);
                roll as usize
            };
            let more_than = gen_ratio(self, 7, 10);
            let target_type = if ng.len() > 0 {
                ng[pick]
            } else if pick == 0 {
                SegmentType::Forest
            } else if pick == 1 {
                SegmentType::Village
            } else {
                SegmentType::Agriculture
            };
            proof {
                assert(target_type == deck_target(e, pick as int));
                if ng.len() > 0 {
                    assert(non_grass(e).contains(target_type));
                }
            }
            let (lo, hi) = count_range_of(target_type);
            let count = gen_range_usize(self, lo, hi);
            Some((pick, more_than, count))
        } else {
            None
        };
        build_deck_tile(preset_idx, quest)
    }
}

} // verus!
