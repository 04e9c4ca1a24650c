//! The arcade cabinet: a machine that draws tiles as `(x, y, tile)` output
//! triples, reports the score as `(-1, 0, score)`, and polls the joystick
//! through the input latch.
use vstd::prelude::*;

use crate::machine::{initial_model, Machine, DEFAULT_BUDGET};
use crate::semantics::{lemma_step_follows_execution, mem_write, run, Fault, MachineModel, MEMORY_LIMIT};

verus! {

/// What the arcade draws at a position.
#[derive(Clone, Copy, Debug, PartialEq, Eq, Structural)]
pub enum Tile {
    Empty,
    Wall,
    Block,
    Paddle,
    Ball,
}

/// Why a game stopped before the machine halted.
#[derive(Clone, Copy, Debug, PartialEq, Eq, Structural)]
pub enum ArcadeError {
    /// The machine faulted.
    Machine(Fault),
    /// The machine drew a tile id outside `0..5`.
    UnknownTile(i64),
}

/// The tile that an id denotes.
pub open spec fn tile_of(v: i64) -> Option<Tile> {
    if v == 0 {
        Some(Tile::Empty)
    } else if v == 1 {
        Some(Tile::Wall)
    } else if v == 2 {
        Some(Tile::Block)
    } else if v == 3 {
        Some(Tile::Paddle)
    } else if v == 4 {
        Some(Tile::Ball)
    } else {
        None
    }
}

/// One step of the machine, seen as the next output or `None` once halted.
pub open spec fn game_step(s: MachineModel) -> (MachineModel, Result<Option<i64>, Fault>) {
    let (t, r) = run(s);
    match r {
        Err(f) => (t, Err(f)),
        Ok(_) => (
            t,
            Ok(
                if t.halted {
                    None
                } else {
                    Some(t.output)
                },
            ),
        ),
    }
}

/// A step that yields an output spends budget.
pub proof fn lemma_game_step_spends(s: MachineModel)
    ensures
        game_step(s).1 matches Ok(Some(_)) ==> game_step(s).0.budget < s.budget,
{
    lemma_step_follows_execution(s);
}

/// Reading the next drawn tile with the joystick held at `input`: score
/// reports on the way update the score; `None` once the machine halts.
/// Gives the machine state and score afterwards.
pub open spec fn next_tile(s: MachineModel, score: usize, input: i64) -> (
    MachineModel,
    usize,
    Result<Option<(u8, u8, Tile)>, ArcadeError>,
)
    decreases s.budget,
{
    let (s1, r1) = game_step(MachineModel { latch: input, ..s });
    match r1 {
        Err(f) => (s1, score, Err(ArcadeError::Machine(f))),
        Ok(None) => (s1, score, Ok(None)),
        Ok(Some(xv)) => {
            let (s2, r2) = game_step(s1);
            match r2 {
                Err(f) => (s2, score, Err(ArcadeError::Machine(f))),
                Ok(None) => (s2, score, Ok(None)),
                Ok(Some(yv)) => {
                    let (s3, r3) = game_step(s2);
                    match r3 {
                        Err(f) => (s3, score, Err(ArcadeError::Machine(f))),
                        Ok(None) => (s3, score, Ok(None)),
                        Ok(Some(v)) => if xv as u8 == 255 && yv as u8 == 0 {
                            proof {
                                lemma_game_step_spends(MachineModel { latch: input, ..s });
                                lemma_game_step_spends(s1);
                                lemma_game_step_spends(s2);
                            }
                            next_tile(s3, v as usize, input)
                        } else {
                            match tile_of(v) {
                                Some(t) => (s3, score, Ok(Some((xv as u8, yv as u8, t)))),
                                None => (s3, score, Err(ArcadeError::UnknownTile(v))),
                            }
                        },
                    }
                },
            }
        },
    }
}

/// Drawing a tile spends budget.
pub proof fn lemma_next_tile_spends(s: MachineModel, score: usize, input: i64)
    ensures
        next_tile(s, score, input).2 matches Ok(Some(_)) ==> next_tile(s, score, input).0.budget
            < s.budget,
    decreases s.budget,
{
    let s0 = MachineModel { latch: input, ..s };
    lemma_game_step_spends(s0);
    let (s1, r1) = game_step(s0);
    if let Ok(Some(xv)) = r1 {
        lemma_game_step_spends(s1);
        let (s2, r2) = game_step(s1);
        if let Ok(Some(yv)) = r2 {
            lemma_game_step_spends(s2);
            let (s3, r3) = game_step(s2);
            if let Ok(Some(v)) = r3 {
                if xv as u8 == 255 && yv as u8 == 0 {
                    lemma_next_tile_spends(s3, v as usize, input);
                }
            }
        }
    }
}

/// An arcade game: the machine and the score it last reported.
pub struct Game {
    machine: Machine,
    score: usize,
}

impl View for Game {
    type V = (MachineModel, usize);

    closed spec fn view(&self) -> (MachineModel, usize) {
        (self.machine@, self.score)
    }
}

impl Game {
    /// Memory stays within the limit.
    pub open spec fn wf(&self) -> bool {
        self@.0.mem.len() <= MEMORY_LIMIT
    }

    /// A game running the arcade program `code`, with score 0.
    pub fn new(code: &[i64]) -> (r: Game)
        requires
            code@.len() <= MEMORY_LIMIT,
        ensures
            r@ == (initial_model(code@), 0usize),
            r.wf(),
    {
        Game { machine: Machine::new(code), score: 0 }
    }

    /// Switches the cabinet to free play by writing 2 at address 0.
    pub fn set_free_play(&mut self)
        ensures
            final(self)@ == (
                MachineModel { mem: mem_write(old(self)@.0.mem, 0, 2), ..old(self)@.0 },
                old(self)@.1,
            ),
            old(self).wf() ==> final(self).wf(),
    {
        self.machine.mem_set(0, 2);
    }

    /// The next output, or `None` once the machine has halted.
    fn step(&mut self) -> (r: Result<Option<i64>, Fault>)
        requires
            old(self).wf(),
        ensures
            final(self).wf(),
            (final(self)@.0, r) == game_step(old(self)@.0),
            final(self)@.1 == old(self)@.1,
    {
        let r = self.machine.step();
        match r {
            Err(f) => Err(f),
            Ok(()) => if self.machine.halted() {
                Ok(None)
            } else {
                Ok(Some(self.machine.last_output()))
            },
        }
    }

    /// Holds the joystick at `input` and reads until the next tile is drawn,
    /// taking in score reports on the way. `None` once the machine halts.
    pub fn input(&mut self, input: i64) -> (r: Result<Option<(u8, u8, Tile)>, ArcadeError>)
        requires
            old(self).wf(),
        ensures
            final(self).wf(),
            (final(self)@.0, final(self)@.1, r) == next_tile(old(self)@.0, old(self)@.1, input),
    {
        loop
            invariant
                self.wf(),
                next_tile(self@.0, self@.1, input) == next_tile(old(self)@.0, old(self)@.1, input),
            decreases self@.0.budget,
        {
            let ghost s = self@.0;
            proof {
                lemma_game_step_spends(MachineModel { latch: input, ..s });
            }
            self.machine.set_mem_input(input);
            let x = match self.step() {
                Err(f) => {
                    return Err(ArcadeError::Machine(f));
                },
                Ok(None) => {
                    return Ok(None);
                },
                Ok(Some(v)) => v,
            };
            proof {
                lemma_game_step_spends(self@.0);
            }
            let y = match self.step() {
                Err(f) => {
                    return Err(ArcadeError::Machine(f));
                },
                Ok(None) => {
                    return Ok(None);
                },
                Ok(Some(v)) => v,
            };
            proof {
                lemma_game_step_spends(self@.0);
            }
            let v = match self.step() {
                Err(f) => {
                    return Err(ArcadeError::Machine(f));
                },
                Ok(None) => {
                    return Ok(None);
                },
                Ok(Some(v)) => v,
            };
            let xb: u8 = #[verifier::truncate] (x as u8);
            let yb: u8 = #[verifier::truncate] (y as u8);
            if xb == 255 && yb == 0 {
                self.score = #[verifier::truncate] (v as usize);
            } else {
                let tile = if v == 0 {
                    Tile::Empty
                } else if v == 1 {
                    Tile::Wall
                } else if v == 2 {
                    Tile::Block
                } else if v == 3 {
                    Tile::Paddle
                } else if v == 4 {
                    Tile::Ball
                } else {
                    return Err(ArcadeError::UnknownTile(v));
                };
                return Ok(Some((xb, yb, tile)));
            }
        }
    }
}

/// How many block tiles the game draws until the machine halts, with the
/// joystick left in neutral.
pub open spec fn blocks_drawn(s: MachineModel, score: usize) -> Result<nat, ArcadeError>
    decreases s.budget,
{
    let (t, sc, r) = next_tile(s, score, 0);
    match r {
        Err(e) => Err(e),
        Ok(None) => Ok(0),
        Ok(Some((_, _, tile))) => {
            proof {
                lemma_next_tile_spends(s, score, 0);
            }
            match blocks_drawn(t, sc) {
                Ok(n) => Ok(
                    if tile == Tile::Block {
                        n + 1
                    } else {
                        n
                    },
                ),
                Err(e) => Err(e),
            }
        },
    }
}

/// The joystick position that moves the paddle towards the ball.
pub open spec fn joystick(ball: u8, paddle: u8) -> i64 {
    if ball < paddle {
        -1i64
    } else if ball > paddle {
        1
    } else {
        0
    }
}

/// The score when the machine halts, if the joystick always follows the
/// ball: `paddle` and `ball` are the last x positions drawn for them.
pub open spec fn final_score(s: MachineModel, score: usize, input: i64, paddle: u8, ball: u8) -> Result<
    usize,
    ArcadeError,
>
    decreases s.budget,
{
    let (t, sc, r) = next_tile(s, score, input);
    match r {
        Err(e) => Err(e),
        Ok(None) => Ok(sc),
        Ok(Some((x, _, tile))) => {
            proof {
                lemma_next_tile_spends(s, score, input);
            }
            let paddle2 = if tile == Tile::Paddle {
                x
            } else {
                paddle
            };
            let ball2 = if tile == Tile::Ball {
                x
            } else {
                ball
            };
            final_score(t, sc, joystick(ball2, paddle2), paddle2, ball2)
        },
    }
}

/// Counts the block tiles on the screen when the game starts.
pub fn find_starting_blocks(code: &[i64]) -> (r: Result<usize, ArcadeError>)
    requires
        code@.len() <= MEMORY_LIMIT,
    ensures
        match blocks_drawn(initial_model(code@), 0) {
            Ok(n) => r == Ok::<usize, ArcadeError>(n as usize),
            Err(e) => r == Err::<usize, ArcadeError>(e),
        },
{
    let mut game = Game::new(code);
    let mut count: u64 = 0;
    loop
        invariant
            game.wf(),
            count + game@.0.budget <= DEFAULT_BUDGET,
            blocks_drawn(initial_model(code@), 0) == match blocks_drawn(game@.0, game@.1) {
                Ok(n) => Ok::<nat, ArcadeError>((count + n) as nat),
                Err(e) => Err::<nat, ArcadeError>(e),
            },
        decreases game@.0.budget,
    {
        let ghost before = game@;
        proof {
            lemma_next_tile_spends(before.0, before.1, 0);
        }
        match game.input(0) {
            Err(e) => {
                return Err(e);
            },
            Ok(None) => {
                return Ok(#[verifier::truncate] (count as usize));
            },
            Ok(Some((_, _, tile))) => {
                if tile == Tile::Block {
                    count = count + 1;
                }
            },
        }
    }
}

/// Plays the game in free play, moving the paddle towards the ball, and
/// returns the score when the machine halts.
pub fn play_perfect_game(code: &[i64]) -> (r: Result<usize, ArcadeError>)
    requires
        code@.len() <= MEMORY_LIMIT,
    ensures
        r == final_score(
            MachineModel { mem: mem_write(code@, 0, 2), ..initial_model(code@) },
            0,
            0,
            0,
            0,
        ),
{
    let mut game = Game::new(code);
    game.set_free_play();
    let mut input: i64 = 0;
    let mut paddle_x: u8 = 0;
    let mut ball_x: u8 = 0;
    loop
        invariant
            game.wf(),
            final_score(game@.0, game@.1, input, paddle_x, ball_x) == final_score(
                MachineModel { mem: mem_write(code@, 0, 2), ..initial_model(code@) },
                0,
                0,
                0,
                0,
            ),
        decreases game@.0.budget,
    {
        let ghost before = game@;
        proof {
            lemma_next_tile_spends(before.0, before.1, input);
        }
        match game.input(input) {
            Err(e) => {
                return Err(e);
            },
            Ok(None) => {
                return Ok(game.score);
            },
            Ok(Some((x, _, tile))) => {
                if tile == Tile::Paddle {
                    paddle_x = x;
                }
                if tile == Tile::Ball {
                    ball_x = x;
                }
                input = if ball_x < paddle_x {
                    -1
                } else if ball_x > paddle_x {
                    1
                } else {
                    0
                };
            },
        }
    }
}

} // verus!
