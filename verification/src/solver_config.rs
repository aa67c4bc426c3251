//! The search budget the solver starts from.
use vstd::prelude::*;

verus! {

pub const DEFAULT_BEAM_DEPTH: usize = 13;

pub const DEFAULT_BEAM_WIDTH: usize = 600;

pub const DEFAULT_FIRE_MAX_CHAIN_COUNT: u8 = 12;

pub const DEFAULT_FATAL_FIRE_MAX_CHAIN_COUNT: u8 = 15;

pub const DEFAULT_GAZE_BEAM_DEPTH: usize = 3;

pub const DEFAULT_GAZE_BEAM_WIDTH: usize = 50;

pub const SOLVER_VERSION: &'static str = "3.5";

#[derive(Debug, Copy, Clone)]
pub struct SolverConfig {
    /// Depth and width of the search for the player's move.
    pub beam_depth: usize,
    pub beam_width: usize,
    /// Depth and width of the search on the opponent's board.
    pub gaze_beam_depth: usize,
    pub gaze_beam_width: usize,
    pub fire_max_chain_count: u8,
}

/// The configuration a solver starts with.
pub open spec fn default_config() -> SolverConfig {
    SolverConfig {
        beam_depth: DEFAULT_BEAM_DEPTH,
        beam_width: DEFAULT_BEAM_WIDTH,
        gaze_beam_depth: DEFAULT_GAZE_BEAM_DEPTH,
        gaze_beam_width: DEFAULT_BEAM_WIDTH,
        fire_max_chain_count: DEFAULT_FIRE_MAX_CHAIN_COUNT,
    }
}

impl SolverConfig {
    pub fn default() -> (r: SolverConfig)
        ensures
            r == default_config(),
    {
        SolverConfig {
            beam_depth: DEFAULT_BEAM_DEPTH,
            beam_width: DEFAULT_BEAM_WIDTH,
            gaze_beam_depth: DEFAULT_GAZE_BEAM_DEPTH,
            gaze_beam_width: DEFAULT_BEAM_WIDTH,
            fire_max_chain_count: DEFAULT_FIRE_MAX_CHAIN_COUNT,
        }
    }

    pub fn new(
        beam_depth: usize,
        beam_width: usize,
        gaze_beam_depth: usize,
        gaze_beam_width: usize,
        fire_max_chain_count: u8,
    ) -> (r: SolverConfig)
        ensures
            r == (SolverConfig {
                beam_depth,
                beam_width,
                gaze_beam_depth,
                gaze_beam_width,
                fire_max_chain_count,
            }),
    {
        SolverConfig { beam_depth, beam_width, gaze_beam_depth, gaze_beam_width, fire_max_chain_count }
    }

    pub fn with_beam(self, beam_depth: usize, beam_width: usize) -> (r: SolverConfig)
        ensures
            r == (SolverConfig { beam_depth, beam_width, ..self }),
    {
        let mut config = self;
        config.beam_depth = beam_depth;
        config.beam_width = beam_width;
        config
    }

    /// Depth and width of the search for the player's move.
    pub fn beam(&self) -> (r: (usize, usize))
        ensures
            r == (self.beam_depth, self.beam_width),
    {
        (self.beam_depth, self.beam_width)
    }

    /// Depth and width of the search on the opponent's board.
    pub fn gaze_beam(&self) -> (r: (usize, usize))
        ensures
            r == (self.gaze_beam_depth, self.gaze_beam_width),
    {
        (self.gaze_beam_depth, self.gaze_beam_width)
    }
}

} // verus!
