//! Plain data types of the game: sites, rivers, maps, moves and setup
//! messages. Identifiers of punters, sites and rivers are plain `usize`s.
use vstd::prelude::*;

verus! {

/// A site (a node of the board graph).
#[derive(Clone, Copy, Debug, PartialEq, Eq, Structural)]
pub struct Site {
    pub id: usize,
}

/// A river (an edge of the board graph) between two sites.
#[derive(Clone, Copy, Debug, PartialEq, Eq, Structural)]
pub struct River {
    pub source: usize,
    pub target: usize,
}

/// The board: its sites, rivers and the sites that are mines.
#[derive(Clone, Debug)]
pub struct GameMap {
    pub sites: Vec<Site>,
    pub rivers: Vec<River>,
    pub mines: Vec<usize>,
}

/// A move that a punter makes.
#[derive(Clone, Copy, Debug, PartialEq, Eq, Structural)]
pub enum Move {
    Claim { punter: usize, source: usize, target: usize },
    Pass { punter: usize },
}

/// The moves of the previous round, as the server reports them.
#[derive(Clone, Debug)]
pub struct Moves {
    pub moves: Vec<Move>,
}

/// The setup message: who we are, how many punters play, and the board.
#[derive(Clone, Debug)]
pub struct Setup {
    pub punter: usize,
    pub punters: usize,
    pub map: GameMap,
}

/// What the state records of one river: its index, its two sites (target
/// first), and who claimed it.
#[derive(Clone, Copy, Debug)]
pub struct RiverData {
    pub id: usize,
    pub sites: (usize, usize),
    pub claimed: Option<usize>,
    pub option_claimed: Option<usize>,
}

/// A way of rating sites when ordering candidate rivers.
#[derive(Clone, Copy, Debug, PartialEq, Eq, Structural, Hash)]
pub enum SiteRater {
    /// Rates a given site based on how far it is from our other sites
    /// that we "own".
    Farthest,
    /// Rates a site based on being unowned by us.
    NotOurs,
}

} // verus!
