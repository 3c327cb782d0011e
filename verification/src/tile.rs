use vstd::prelude::*;

verus! {

/// The terrain carried by one edge of a hex tile.
#[derive(Debug, Clone, Copy, PartialEq, Eq, Structural, Hash)]
pub enum SegmentType {
    Grass,
    Village,
    Forest,
    Agriculture,
    Water,
    Train,
}

impl SegmentType {
    pub open spec fn spec_name(self) -> Seq<char> {
        match self {
            SegmentType::Grass => "Grass"@,
            SegmentType::Village => "Village"@,
            SegmentType::Forest => "Forest"@,
            SegmentType::Agriculture => "Agriculture"@,
            SegmentType::Water => "Water"@,
            SegmentType::Train => "Train"@,
        }
    }

    pub fn name(&self) -> (s: &'static str)
        ensures
            s@ == self.spec_name(),
    {
        match self {
            SegmentType::Grass => "Grass",
            SegmentType::Village => "Village",
            SegmentType::Forest => "Forest",
            SegmentType::Agriculture => "Agriculture",
            SegmentType::Water => "Water",
            SegmentType::Train => "Train",
        }
    }
}

#[derive(Debug, Clone, Copy, PartialEq, Eq, Structural)]
pub enum QuestType {
    MoreThan,
    Exactly,
}

#[derive(Debug, Clone, Copy, PartialEq, Eq, Structural)]
pub struct Quest {
    pub target_type: SegmentType,
    pub quest_type: QuestType,
    pub target_count: usize,
    pub is_fulfilled: bool,
    pub is_flag: bool,
}

#[derive(Debug, Clone, Copy, PartialEq, Eq)]
pub struct Tile {
    pub edges: [SegmentType; 6],
    /// Number of 60-degree clockwise turns applied, kept in 0..5.
    pub rotation: usize,
    pub quest: Option<Quest>,
}

/// The edge sequence after one clockwise turn: edge i moves to position (i + 1) % 6.
pub open spec fn rotated_cw(e: Seq<SegmentType>) -> Seq<SegmentType> {
    Seq::new(6, |i: int| e[(i + 5) % 6])
}

/// The edge sequence after `n` clockwise turns.
pub open spec fn rotated_cw_n(e: Seq<SegmentType>, n: nat) -> Seq<SegmentType>
    decreases n,
{
    if n == 0 { e } else { rotated_cw(rotated_cw_n(e, (n - 1) as nat)) }
}

impl Tile {
    pub fn new(edges: [SegmentType; 6], quest: Option<Quest>) -> (t: Tile)
        ensures
            t.edges == edges,
            t.rotation == 0,
            t.quest == quest,
    {
        Tile { edges, rotation: 0, quest }
    }

    /// Rotates the tile 60 degrees clockwise.
    pub fn rotate_cw(&mut self)
        requires
            old(self).rotation < usize::MAX,
        ensures
            final(self).edges@ == rotated_cw(old(self).edges@),
            final(self).rotation == (old(self).rotation + 1) % 6,
            final(self).quest == old(self).quest,
    {
        let e = self.edges;
        self.rotation = (self.rotation + 1) % 6;
        self.edges = [e[5], e[0], e[1], e[2], e[3], e[4]];
        assert(self.edges@ =~= rotated_cw(e@));
    }

    pub fn get_edge(&self, dir: usize) -> (s: SegmentType)
        ensures
            s == self.edges@[dir as int % 6],
    {
        self.edges[dir % 6]
    }
}

/// After `n <= 6` clockwise turns, position i holds the edge that started at (i + 6 - n) % 6.
pub proof fn lemma_rotated_cw_n_index(e: Seq<SegmentType>, n: nat)
    requires
        e.len() == 6,
        n <= 6,
    ensures
        rotated_cw_n(e, n).len() == 6,
        forall|i: int| 0 <= i < 6 ==> #[trigger] rotated_cw_n(e, n)[i] == e[(i + 6 - n) % 6],
    decreases n,
{
    if n > 0 {
        lemma_rotated_cw_n_index(e, (n - 1) as nat);
        let prev = rotated_cw_n(e, (n - 1) as nat);
        assert forall|i: int| 0 <= i < 6 implies #[trigger] rotated_cw_n(e, n)[i] == e[(i + 6 - n) % 6] by {
            assert(rotated_cw_n(e, n)[i] == prev[(i + 5) % 6]);
            let j = (i + 5) % 6;
            assert(prev[j] == e[(j + 6 - (n - 1)) % 6]);
            if i == 0 { assert(j == 5); } else { assert(j == i - 1); }
        }
    }
}

/// Six clockwise turns bring every edge back to where it started.
pub proof fn lemma_six_rotations_identity(e: Seq<SegmentType>)
    requires
        e.len() == 6,
    ensures
        rotated_cw_n(e, 6) == e,
{
    lemma_rotated_cw_n_index(e, 6);
    assert(rotated_cw_n(e, 6) =~= e);
}

/// One clockwise turn puts edge i at position (i + 1) % 6.
pub proof fn lemma_rotate_moves_edge(e: Seq<SegmentType>, i: int)
    requires
        e.len() == 6,
        0 <= i < 6,
    ensures
        rotated_cw(e)[(i + 1) % 6] == e[i],
{
}

} // verus!
