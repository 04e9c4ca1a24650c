//! The hull-painting robot: a machine reads the colour under the robot and
//! answers with a colour to paint and a turn to make.
use std::collections::BTreeMap;
use vstd::prelude::*;
use vstd::std_specs::iter::IteratorSpec;

use crate::machine::{initial_model, Machine};
use crate::semantics::{lemma_step_follows_execution, run, Fault, MachineModel, MEMORY_LIMIT};

verus! {

broadcast use vstd::laws_cmp::group_laws_cmp;

/// A panel colour.
#[derive(Clone, Copy, Debug, PartialEq, Eq, Structural)]
pub enum Color {
    Black,
    White,
}

/// The direction the robot faces; y grows downwards.
#[derive(Clone, Copy, Debug, PartialEq, Eq, Structural)]
pub enum Direction {
    Up,
    Right,
    Down,
    Left,
}

/// Why the robot stopped before the machine halted.
#[derive(Clone, Copy, Debug, PartialEq, Eq, Structural)]
pub enum RobotError {
    /// The machine faulted.
    Machine(Fault),
    /// The machine answered a colour other than 0 or 1.
    BadColor(i64),
    /// The machine answered a turn other than 0 or 1.
    BadTurn(i64),
    /// The robot would leave the range of 64-bit coordinates.
    OutOfRange,
}

pub type Point = (i64, i64);

pub open spec fn left_of(d: Direction) -> Direction {
    match d {
        Direction::Up => Direction::Left,
        Direction::Right => Direction::Up,
        Direction::Down => Direction::Right,
        Direction::Left => Direction::Down,
    }
}

pub open spec fn right_of(d: Direction) -> Direction {
    match d {
        Direction::Up => Direction::Right,
        Direction::Right => Direction::Down,
        Direction::Down => Direction::Left,
        Direction::Left => Direction::Up,
    }
}

pub open spec fn delta_of(d: Direction) -> (i64, i64) {
    match d {
        Direction::Up => (0, -1i64),
        Direction::Right => (1, 0),
        Direction::Down => (0, 1),
        Direction::Left => (-1i64, 0),
    }
}

impl Direction {
    /// The direction after a quarter turn to the left.
    pub fn left(self) -> (r: Direction)
        ensures
            r == left_of(self),
    {
        match self {
            Direction::Up => Direction::Left,
            Direction::Right => Direction::Up,
            Direction::Down => Direction::Right,
            Direction::Left => Direction::Down,
        }
    }

    /// The direction after a quarter turn to the right.
    pub fn right(self) -> (r: Direction)
        ensures
            r == right_of(self),
    {
        match self {
            Direction::Up => Direction::Right,
            Direction::Right => Direction::Down,
            Direction::Down => Direction::Left,
            Direction::Left => Direction::Up,
        }
    }

    /// The unit move in this direction.
    pub fn v(self) -> (r: (i64, i64))
        ensures
            r == delta_of(self),
    {
        match self {
            Direction::Up => (0, -1),
            Direction::Right => (1, 0),
            Direction::Down => (0, 1),
            Direction::Left => (-1, 0),
        }
    }
}

/// The abstract state of a robot.
pub struct RobotModel {
    pub machine: MachineModel,
    pub pos: Point,
    pub dir: Direction,
    pub colors: Map<Point, Color>,
    pub default_color: Color,
}

/// The colour under the robot: as painted, or the hull's default.
pub open spec fn color_at(r: RobotModel) -> Color {
    if r.colors.contains_key(r.pos) {
        r.colors[r.pos]
    } else {
        r.default_color
    }
}

pub open spec fn color_code(c: Color) -> i64 {
    match c {
        Color::Black => 0,
        Color::White => 1,
    }
}

pub open spec fn color_of(v: i64) -> Option<Color> {
    if v == 0 {
        Some(Color::Black)
    } else if v == 1 {
        Some(Color::White)
    } else {
        None
    }
}

/// One move of the robot: report the colour under it, paint the answered
/// colour, step the machine again, turn as answered, and move one panel.
/// The machine is not checked for having halted in between.
pub open spec fn robot_step(r: RobotModel) -> (RobotModel, Result<(), RobotError>) {
    let m0 = MachineModel { inputs: r.machine.inputs.push(color_code(color_at(r))), ..r.machine };
    let (m1, r1) = run(m0);
    let a = RobotModel { machine: m1, ..r };
    match r1 {
        Err(f) => (a, Err(RobotError::Machine(f))),
        Ok(_) => match color_of(m1.output) {
            None => (a, Err(RobotError::BadColor(m1.output))),
            Some(c) => {
                let (m2, r2) = run(m1);
                let b = RobotModel { machine: m2, colors: r.colors.insert(r.pos, c), ..r };
                match r2 {
                    Err(f) => (b, Err(RobotError::Machine(f))),
                    Ok(_) => if m2.output != 0 && m2.output != 1 {
                        (b, Err(RobotError::BadTurn(m2.output)))
                    } else {
                        let dir = if m2.output == 0 {
                            left_of(r.dir)
                        } else {
                            right_of(r.dir)
                        };
                        let c2 = RobotModel { dir, ..b };
                        let x = r.pos.0 + delta_of(dir).0;
                        let y = r.pos.1 + delta_of(dir).1;
                        if i64::MIN <= x <= i64::MAX && i64::MIN <= y <= i64::MAX {
                            (RobotModel { pos: (x as i64, y as i64), ..c2 }, Ok(()))
                        } else {
                            (c2, Err(RobotError::OutOfRange))
                        }
                    },
                }
            },
        },
    }
}

/// A move of a robot whose machine has not halted spends budget.
pub proof fn lemma_robot_step_spends(r: RobotModel)
    requires
        !r.machine.halted,
    ensures
        robot_step(r).1 is Ok ==> robot_step(r).0.machine.budget < r.machine.budget,
{
    let m0 = MachineModel { inputs: r.machine.inputs.push(color_code(color_at(r))), ..r.machine };
    lemma_step_follows_execution(m0);
    let (m1, r1) = run(m0);
    lemma_step_follows_execution(m1);
}

/// The robot after moving until its machine halts.
pub open spec fn robot_run(r: RobotModel) -> (RobotModel, Result<(), RobotError>)
    decreases r.machine.budget,
{
    if r.machine.halted {
        (r, Ok(()))
    } else {
        let (r2, res) = robot_step(r);
        match res {
            Err(e) => (r2, Err(e)),
            Ok(_) => {
                proof {
                    lemma_robot_step_spends(r);
                }
                robot_run(r2)
            },
        }
    }
}

/// A painting robot on its machine.
pub struct Robot {
    machine: Machine,
    pos: Point,
    dir: Direction,
    colors: BTreeMap<Point, Color>,
    default_color: Color,
}

impl View for Robot {
    type V = RobotModel;

    closed spec fn view(&self) -> RobotModel {
        RobotModel {
            machine: self.machine@,
            pos: self.pos,
            dir: self.dir,
            colors: self.colors@,
            default_color: self.default_color,
        }
    }
}

impl Robot {
    /// Memory stays within the limit.
    pub open spec fn wf(&self) -> bool {
        self@.machine.mem.len() <= MEMORY_LIMIT
    }

    /// A robot at the origin facing up, on a hull of `default_color` with
    /// nothing painted yet.
    pub fn new(instructions: &[i64], default_color: Color) -> (r: Robot)
        requires
            instructions@.len() <= MEMORY_LIMIT,
        ensures
            r.wf(),
            r@ == (RobotModel {
                machine: initial_model(instructions@),
                pos: (0, 0),
                dir: Direction::Up,
                colors: Map::empty(),
                default_color,
            }),
    {
        Robot {
            machine: Machine::new(instructions),
            pos: (0, 0),
            dir: Direction::Up,
            colors: BTreeMap::new(),
            default_color,
        }
    }

    /// The colour of the panel under the robot.
    pub fn look(&self) -> (r: Color)
        ensures
            r == color_at(self@),
    {
        match self.colors.get(&self.pos) {
            Some(c) => *c,
            None => self.default_color,
        }
    }

    /// Moves once: reports the colour under the robot, paints, turns and
    /// moves one panel.
    pub fn step(&mut self) -> (r: Result<(), RobotError>)
        requires
            old(self).wf(),
        ensures
            final(self).wf(),
            (final(self)@, r) == robot_step(old(self)@),
    {
        let code = match self.look() {
            Color::Black => 0,
            Color::White => 1,
        };
        self.machine.feed(code);
        if let Err(f) = self.machine.step() {
            return Err(RobotError::Machine(f));
        }
        let color = match self.machine.last_output() {
            0 => Color::Black,
            1 => Color::White,
            v => {
                return Err(RobotError::BadColor(v));
            },
        };
        self.colors.insert(self.pos, color);
        if let Err(f) = self.machine.step() {
            return Err(RobotError::Machine(f));
        }
        self.dir = match self.machine.last_output() {
            0 => self.dir.left(),
            1 => self.dir.right(),
            v => {
                return Err(RobotError::BadTurn(v));
            },
        };
        let (dx, dy) = self.dir.v();
        let x = match self.pos.0.checked_add(dx) {
            Some(x) => x,
            None => {
                return Err(RobotError::OutOfRange);
            },
        };
        let y = match self.pos.1.checked_add(dy) {
            Some(y) => y,
            None => {
                return Err(RobotError::OutOfRange);
            },
        };
        self.pos = (x, y);
        Ok(())
    }

    /// Moves until the machine halts.
    pub fn run(&mut self) -> (r: Result<(), RobotError>)
        requires
            old(self).wf(),
        ensures
            final(self).wf(),
            (final(self)@, r) == robot_run(old(self)@),
    {
        while !self.machine.halted()
            invariant
                self.wf(),
                robot_run(self@) == robot_run(old(self)@),
            decreases self@.machine.budget,
        {
            proof {
                lemma_robot_step_spends(self@);
            }
            self.step()?;
        }
        Ok(())
    }

    /// How many panels have been painted at least once.
    pub fn colored_squares(&self) -> (r: usize)
        ensures
            r == self@.colors.len(),
    {
        self.colors.len()
    }

    /// The painted panels as text, one line per row from the smallest
    /// painted y to the largest and one character per column from the
    /// smallest painted x to the largest: `*` for white, a space otherwise.
    /// Each line ends with a newline.
    pub fn draw(&self) -> (r: String)
        requires
            self@.colors.len() > 0,
        ensures
            exists|x0: i64, x1: i64, y0: i64, y1: i64|
                {
                    &&& is_bound_box(self@.colors, x0, x1, y0, y1)
                    &&& r@ == render_rows(self@.colors, x0 as int, x1 as int, y0 as int, y1 as int)
                },
    {
        let (x0, x1, y0, y1) = self.bounds();
        let mut rv = String::new();
        let mut y = y0;
        loop
            invariant_except_break
                y0 <= y <= y1,
                rv@ == render_rows(self@.colors, x0 as int, x1 as int, y0 as int, y - 1),
            invariant
                is_bound_box(self@.colors, x0, x1, y0, y1),
            ensures
                rv@ == render_rows(self@.colors, x0 as int, x1 as int, y0 as int, y1 as int),
            decreases y1 - y,
        {
            proof {
                reveal_strlit("\n");
                reveal_strlit("*");
                reveal_strlit(" ");
            }
            let mut x = x0;
            loop
                invariant_except_break
                    x0 <= x <= x1,
                    rv@ == render_rows(self@.colors, x0 as int, x1 as int, y0 as int, y - 1) + render_row(
                        self@.colors,
                        x0 as int,
                        x - 1,
                        y as int,
                    ),
                invariant
                    is_bound_box(self@.colors, x0, x1, y0, y1),
                    y0 <= y <= y1,
                ensures
                    rv@ == render_rows(self@.colors, x0 as int, x1 as int, y0 as int, y - 1) + render_row(
                        self@.colors,
                        x0 as int,
                        x1 as int,
                        y as int,
                    ),
                decreases x1 - x,
            {
                proof {
                    reveal_strlit("*");
                    reveal_strlit(" ");
                }
                let ghost before = rv@;
                let white = match self.colors.get(&(x, y)) {
                    Some(Color::White) => true,
                    _ => false,
                };
                if white {
                    rv.append("*");
                } else {
                    rv.append(" ");
                }
                proof {
                    assert(rv@ =~= before.push(panel_char(self@.colors, x as int, y as int)));
                    let rows = render_rows(self@.colors, x0 as int, x1 as int, y0 as int, y - 1);
                    let row = render_row(self@.colors, x0 as int, x - 1, y as int);
                    assert(rows + row.push(panel_char(self@.colors, x as int, y as int)) =~= (rows
                        + row).push(panel_char(self@.colors, x as int, y as int)));
                }
                if x == x1 {
                    break;
                }
                x = x + 1;
            }
            let ghost before = rv@;
            rv.append("\n");
            proof {
                assert(rv@ =~= before.push('\n'));
                let rows = render_rows(self@.colors, x0 as int, x1 as int, y0 as int, y - 1);
                let row = render_row(self@.colors, x0 as int, x1 as int, y as int);
                assert((rows + row).push('\n') =~= rows + row.push('\n'));
            }
            if y == y1 {
                break;
            }
            y = y + 1;
        }
        rv
    }

    /// The smallest and largest x and y among the painted panels.
    fn bounds(&self) -> (r: (i64, i64, i64, i64))
        requires
            self@.colors.len() > 0,
        ensures
            is_bound_box(self@.colors, r.0, r.1, r.2, r.3),
    {
        let mut first = true;
        let mut x0: i64 = 0;
        let mut x1: i64 = 0;
        let mut y0: i64 = 0;
        let mut y1: i64 = 0;
        let ghost m = self@.colors;
        let ghost pairs = vstd::std_specs::btree::spec_btree_map_iter(&self.colors).remaining();
        let ghost mut visited: int = 0;
        for kv in it: self.colors.iter()
            invariant
                m == self@.colors,
                it.seq() == pairs,
                visited == it.index(),
                first == (visited == 0),
                !first ==> x0 <= x1 && y0 <= y1,
                forall|i: int|
                    0 <= i < visited ==> {
                        let k = *(#[trigger] pairs[i]).0;
                        x0 <= k.0 <= x1 && y0 <= k.1 <= y1
                    },
                !first ==> exists|i: int| 0 <= i < visited && (*(#[trigger] pairs[i]).0).0 == x0,
                !first ==> exists|i: int| 0 <= i < visited && (*(#[trigger] pairs[i]).0).0 == x1,
                !first ==> exists|i: int| 0 <= i < visited && (*(#[trigger] pairs[i]).0).1 == y0,
                !first ==> exists|i: int| 0 <= i < visited && (*(#[trigger] pairs[i]).0).1 == y1,
        {
            let (x, y) = *kv.0;
            if first || x < x0 {
                x0 = x;
            }
            if first || x > x1 {
                x1 = x;
            }
            if first || y < y0 {
                y0 = y;
            }
            if first || y > y1 {
                y1 = y;
            }
            first = false;
            proof {
                visited = visited + 1;
            }
        }
        proof {
            assert(visited == pairs.len());
            assert(pairs.len() == m.dom().len());
            assert(m.dom().len() > 0);
            assert forall|k: Point| #[trigger] m.contains_key(k) implies x0 <= k.0 <= x1 && y0 <= k.1
                <= y1 by {
                assert(pairs.contains((&k, &m[k])));
                let i = choose|i: int| 0 <= i < pairs.len() && pairs[i] == (&k, &m[k]);
                assert(*pairs[i].0 == k);
            }
            let i0 = choose|i: int| 0 <= i < visited && (*(#[trigger] pairs[i]).0).0 == x0;
            assert(m.contains_key(*pairs[i0].0));
            let i1 = choose|i: int| 0 <= i < visited && (*(#[trigger] pairs[i]).0).0 == x1;
            assert(m.contains_key(*pairs[i1].0));
            let i2 = choose|i: int| 0 <= i < visited && (*(#[trigger] pairs[i]).0).1 == y0;
            assert(m.contains_key(*pairs[i2].0));
            let i3 = choose|i: int| 0 <= i < visited && (*(#[trigger] pairs[i]).0).1 == y1;
            assert(m.contains_key(*pairs[i3].0));
        }
        (x0, x1, y0, y1)
    }
}

/// What a panel shows when drawn: `*` if painted white, else a space.
pub open spec fn panel_char(colors: Map<Point, Color>, x: int, y: int) -> char {
    if x >= i64::MIN && x <= i64::MAX && y >= i64::MIN && y <= i64::MAX && colors.contains_key(
        (x as i64, y as i64),
    ) && colors[(x as i64, y as i64)] == Color::White {
        '*'
    } else {
        ' '
    }
}

/// The panels `x0..=x1` of row `y`.
pub open spec fn render_row(colors: Map<Point, Color>, x0: int, x1: int, y: int) -> Seq<char>
    decreases x1 - x0 + 1,
{
    if x1 < x0 {
        Seq::<char>::empty()
    } else {
        render_row(colors, x0, x1 - 1, y).push(panel_char(colors, x1, y))
    }
}

/// Rows `y0..=y1`, each of columns `x0..=x1` and ended by a newline.
pub open spec fn render_rows(colors: Map<Point, Color>, x0: int, x1: int, y0: int, y1: int) -> Seq<
    char,
>
    decreases y1 - y0 + 1,
{
    if y1 < y0 {
        Seq::<char>::empty()
    } else {
        render_rows(colors, x0, x1, y0, y1 - 1) + render_row(colors, x0, x1, y1).push('\n')
    }
}

/// `x0..=x1` by `y0..=y1` is the smallest box holding every painted panel.
pub open spec fn is_bound_box(colors: Map<Point, Color>, x0: i64, x1: i64, y0: i64, y1: i64) -> bool {
    &&& x0 <= x1 && y0 <= y1
    &&& forall|k: Point| #[trigger] colors.contains_key(k) ==> x0 <= k.0 <= x1 && y0 <= k.1 <= y1
    &&& exists|k: Point| #[trigger] colors.contains_key(k) && k.0 == x0
    &&& exists|k: Point| #[trigger] colors.contains_key(k) && k.0 == x1
    &&& exists|k: Point| #[trigger] colors.contains_key(k) && k.1 == y0
    &&& exists|k: Point| #[trigger] colors.contains_key(k) && k.1 == y1
}

} // verus!
