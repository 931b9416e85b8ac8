//! Basis states (tiles): each tile carries, for every one of the four
//! cardinal directions, the set of tile identifiers it permits in the
//! neighboring cell.

use crate::candidate::SuperState;
use vstd::prelude::*;

verus! {

/// Number of cardinal directions: up, down, right, left.
pub const DIRS: usize = 4;

/// The terminal representation of a tile: a color prefix and the
/// printed text. The engine never interprets it; a renderer does.
pub struct Glyph {
    pub color: String,
    pub glyph: String,
}

impl Glyph {
    pub fn new(color: String, glyph: String) -> (g: Glyph)
        ensures
            g.color == color,
            g.glyph == glyph,
    {
        Glyph { color, glyph }
    }

    /// The color prefix and the text, joined for printing.
    pub fn glyph(&self) -> (s: String)
        ensures
            s@ == self.color@ + self.glyph@,
    {
        self.color.clone().concat(self.glyph.as_str())
    }
}

/// One basis state (tile). `projections[d]` is the set of tile
/// identifiers permitted in the neighboring cell in direction `d`
/// (0 = up, 1 = down, 2 = right, 3 = left).
pub struct State {
    pub id: usize,
    pub glyph: Glyph,
    pub projections: Vec<SuperState>,
}

impl State {
    /// Projection sets cover all four directions over an identifier
    /// space of `k` tiles, with accurate cardinality caches.
    pub open spec fn wf_for(self, k: int) -> bool {
        &&& self.projections@.len() == DIRS
        &&& forall|d: int|
            0 <= d < DIRS ==> (#[trigger] self.projections@[d])@.len() == k
                && self.projections@[d].wf()
    }

    /// Whether this tile permits tile `j` in the neighboring cell in
    /// direction `d`.
    pub open spec fn allows(self, d: int, j: int) -> bool {
        self.projections@[d]@[j]
    }

    /// A tile from its identifier, its glyph, and one list of permitted
    /// neighbor identifiers for each of the four directions, over an
    /// identifier space of `k` tiles.
    pub fn new(id: usize, glyph: Glyph, projections: &Vec<Vec<usize>>, k: usize) -> (s: State)
        requires
            projections@.len() == DIRS,
            forall|d: int, i: int|
                0 <= d < DIRS && 0 <= i < projections@[d]@.len() ==> (#[trigger] projections@[d]@[i])
                    < k,
        ensures
            s.id == id,
            s.glyph == glyph,
            s.wf_for(k as int),
            forall|d: int, j: int|
                0 <= d < DIRS && 0 <= j < k ==> (s.allows(d, j) <==> projections@[d]@.contains(
                    j as usize,
                )),
    {
        let mut sets: Vec<SuperState> = Vec::new();
        let mut d: usize = 0;
        while d < DIRS
            invariant
                d <= DIRS,
                sets@.len() == d,
                projections@.len() == DIRS,
                forall|e: int, i: int|
                    0 <= e < DIRS && 0 <= i < projections@[e]@.len() ==> (
                    #[trigger] projections@[e]@[i]) < k,
                forall|e: int|
                    0 <= e < d ==> (#[trigger] sets@[e])@.len() == k && sets@[e].wf(),
                forall|e: int, j: int|
                    0 <= e < d && 0 <= j < k ==> ((#[trigger] sets@[e]@[j])
                        <==> projections@[e]@.contains(j as usize)),
            decreases DIRS - d,
        {
            let ss = SuperState::from(&projections[d], k);
            sets.push(ss);
            d += 1;
        }
        State { id, glyph, projections: sets }
    }
}

} // verus!
