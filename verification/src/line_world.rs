//! A one-dimensional corridor: the agent walks left or right until it reaches
//! one of the two ends.

use crate::contracts::model_free_env::ModelFreeEnv;
use crate::fixed_point::SCALE;
use crate::random::gen_range;
use vstd::prelude::*;

verus! {

/// The action that moves the agent one cell toward cell `0`.
pub const LEFT: usize = 0;

/// The action that moves the agent one cell toward the last cell.
pub const RIGHT: usize = 1;

/// A corridor of `cells()` cells with the agent in cell `position()`.
///
/// The first cell loses (score `-1.0`) and the last cell wins (score `1.0`);
/// both end the episode. Every other cell scores `0`.
pub struct ModelFreeLineWorld {
    nb_cells: usize,
    agent_pos: usize,
}

impl ModelFreeLineWorld {
    /// The number of cells.
    pub closed spec fn cells(&self) -> nat {
        self.nb_cells as nat
    }

    /// The cell the agent stands in.
    pub closed spec fn position(&self) -> nat {
        self.agent_pos as nat
    }

    /// The agent stands in one of the cells.
    pub open spec fn well_formed(&self) -> bool {
        self.position() < self.cells()
    }

    /// The agent stands in the first or in the last cell.
    pub open spec fn at_end(&self) -> bool {
        self.position() == 0 || self.position() == self.cells() - 1
    }

    /// The score of the agent's cell.
    pub open spec fn spec_score(&self) -> int {
        if self.position() == 0 {
            -(SCALE as int)
        } else if self.position() == self.cells() - 1 {
            SCALE as int
        } else {
            0
        }
    }

    /// A corridor of `nb_cells` cells with the agent in the middle one. It is
    /// well formed unless it has no cell at all.
    pub fn new(nb_cells: usize) -> (world: Self)
        ensures
            world.cells() == nb_cells,
            world.position() == nb_cells / 2,
            world.well_formed() <==> nb_cells > 0,
    {
        ModelFreeLineWorld { nb_cells, agent_pos: nb_cells / 2 }
    }

    /// Puts the agent back in the middle cell.
    pub fn reset(&mut self)
        ensures
            final(self).cells() == old(self).cells(),
            final(self).position() == old(self).cells() / 2,
            old(self).well_formed() ==> final(self).well_formed(),
    {
        self.agent_pos = self.nb_cells / 2;
    }

    /// Puts the agent in a cell drawn from all of them, the two ends included.
    pub fn reset_random_state(&mut self)
        requires
            old(self).cells() > 0,
        ensures
            final(self).cells() == old(self).cells(),
            final(self).well_formed(),
    {
        let mut rng = rand::thread_rng();
        self.agent_pos = gen_range(&mut rng, 0, self.nb_cells);
    }

    /// Puts the agent in a cell drawn from those between the two ends, so that
    /// the episode has not ended where it starts.
    pub fn reset_random_state_2(&mut self)
        requires
            old(self).cells() >= 3,
        ensures
            final(self).cells() == old(self).cells(),
            final(self).well_formed(),
            !final(self).at_end(),
    {
        let mut rng = rand::thread_rng();
        self.agent_pos = gen_range(&mut rng, 1, self.nb_cells - 1);
    }

    /// The score of the agent's cell: `-1.0` in the first cell, `1.0` in the
    /// last one, `0` between them. The first cell is tested first, so that a
    /// corridor of one cell, or of none, scores `-1.0`.
    pub fn score(&self) -> (score: i64)
        ensures
            score == self.spec_score(),
    {
        if self.agent_pos == 0 {
            -SCALE
        } else if self.nb_cells > 0 && self.agent_pos == self.nb_cells - 1 {
            SCALE
        } else {
            0
        }
    }

    /// The index of the state: the agent's cell.
    pub fn state_id(&self) -> (id: usize)
        ensures
            id == self.position(),
    {
        self.agent_pos
    }

    /// The two moves, `LEFT` before `RIGHT`.
    pub fn available_actions(&self) -> (actions: Vec<usize>)
        ensures
            actions@ == seq![LEFT, RIGHT],
    {
        vec![LEFT, RIGHT]
    }

    /// Moves the agent one cell: toward the first cell on `LEFT`, toward the
    /// last one on `RIGHT`. The episode must not have ended and the action must
    /// be one of the two.
    pub fn step(&mut self, action: usize)
        requires
            old(self).well_formed(),
            !old(self).at_end(),
            action == LEFT || action == RIGHT,
        ensures
            final(self).cells() == old(self).cells(),
            action == LEFT ==> final(self).position() == old(self).position() - 1,
            action == RIGHT ==> final(self).position() == old(self).position() + 1,
            final(self).well_formed(),
    {
        if action == LEFT {
            self.agent_pos = self.agent_pos - 1;
        } else {
            self.agent_pos = self.agent_pos + 1;
        }
    }

    /// Whether the agent has reached one of the two ends. The first cell is
    /// tested first, so that a corridor without cells has ended.
    pub fn is_game_over(&self) -> (over: bool)
        ensures
            over == self.at_end(),
    {
        self.agent_pos == 0 || (self.nb_cells > 0 && self.agent_pos == self.nb_cells - 1)
    }

    /// The corridor drawn as one character per cell: `X` for the agent's cell
    /// and `_` for every other.
    pub fn display(&self) -> (line: Vec<char>)
        ensures
            line.len() == self.cells(),
            forall|pos: int|
                0 <= pos < line.len() ==> #[trigger] line[pos] == (if pos == self.position() {
                    'X'
                } else {
                    '_'
                }),
    {
        let mut line: Vec<char> = Vec::new();
        let mut pos: usize = 0;
        while pos < self.nb_cells
            invariant
                pos <= self.nb_cells,
                line.len() == pos,
                forall|i: int|
                    0 <= i < pos ==> #[trigger] line[i] == (if i == self.agent_pos {
                        'X'
                    } else {
                        '_'
                    }),
            decreases self.nb_cells - pos,
        {
            if pos == self.agent_pos {
                line.push('X');
            } else {
                line.push('_');
            }
            pos = pos + 1;
        }
        line
    }
}

/// The number of cells of the [`Corridor`].
pub const CORRIDOR_CELLS: usize = 5;

/// The corridor of five cells that the examples train on.
pub type Corridor = CorridorOf<CORRIDOR_CELLS>;

/// A corridor of `N` cells as an environment for the trainers: it starts in the
/// middle cell, and a reset puts the agent back there. Its states are its
/// cells; a corridor without cells still has one state, in which the episode
/// has ended.
pub struct CorridorOf<const N: usize> {
    world: ModelFreeLineWorld,
}

impl<const N: usize> CorridorOf<N> {
    /// The corridor that the environment wraps.
    pub closed spec fn world(&self) -> ModelFreeLineWorld {
        self.world
    }
}

impl<const N: usize> ModelFreeEnv for CorridorOf<N> {
    open spec fn well_formed(&self) -> bool {
        &&& self.world().cells() == N
        &&& N > 0 ==> self.world().well_formed()
        &&& N == 0 ==> self.world().position() == 0
    }

    open spec fn spec_num_states() -> nat {
        if N == 0 {
            1
        } else {
            N as nat
        }
    }

    open spec fn spec_num_actions() -> nat {
        2
    }

    open spec fn spec_state_id(&self) -> nat {
        self.world().position()
    }

    open spec fn spec_available_actions(&self) -> Seq<usize> {
        seq![LEFT, RIGHT]
    }

    open spec fn spec_is_game_over(&self) -> bool {
        self.world().at_end()
    }

    open spec fn spec_score(&self) -> int {
        self.world().spec_score()
    }

    open spec fn spec_starts(&self) -> bool {
        self.world().position() == N / 2
    }

    open spec fn spec_steps_to(&self, action: usize, next: &Self) -> bool {
        &&& next.world().cells() == self.world().cells()
        &&& action == LEFT ==> next.world().position() == self.world().position() - 1
        &&& action == RIGHT ==> next.world().position() == self.world().position() + 1
    }

    proof fn lemma_legal_actions(&self) {
    }

    fn new() -> (env: Self)
        ensures
            env.spec_starts(),
    {
        CorridorOf { world: ModelFreeLineWorld::new(N) }
    }

    fn reset(&mut self) {
        self.world.reset();
    }

    fn state_id(&self) -> (id: usize) {
        self.world.state_id()
    }

    fn available_actions(&self) -> (actions: Vec<usize>) {
        self.world.available_actions()
    }

    fn step(&mut self, action: usize) {
        assert(self.spec_available_actions()[0] == LEFT);
        assert(self.spec_available_actions()[1] == RIGHT);
        self.world.step(action);
    }

    fn score(&self) -> (score: i64) {
        self.world.score()
    }

    fn is_game_over(&self) -> (over: bool) {
        self.world.is_game_over()
    }

    fn num_states() -> (n: usize) {
        if N == 0 {
            1
        } else {
            N
        }
    }

    fn num_actions() -> (n: usize) {
        2
    }
}

} // verus!
