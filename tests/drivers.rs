use intcode::amplifier::{
    amplify_chain, amplify_feedback, find_max_amplification, find_max_amplification_feedback,
};
use intcode::arcade::{find_starting_blocks, play_perfect_game, ArcadeError, Game, Tile};
use intcode::batch::{boost_keycode, diagnostic_outputs, find_noun_verb, gravity_assist};
use intcode::fuel::Module;
use intcode::robot::{Color, Direction, Robot, RobotError};
use intcode::{parse_ascii_program, Fault};

const CHAIN: &str = "3,15,3,16,1002,16,10,16,1,16,15,15,4,15,99,0,0";
const FEEDBACK: &str = "3,26,1001,26,-4,26,3,27,1002,27,2,27,1,27,26,27,4,27,1001,28,-1,28,5,28,6,99,0,0,5";

#[test]
fn amplifier_chain_example() {
    let code = parse_ascii_program(CHAIN).unwrap();
    assert_eq!(amplify_chain(&code, &vec![4, 3, 2, 1, 0]), Ok(43210));
    assert_eq!(find_max_amplification(&code), Ok(43210));
}

#[test]
fn amplifier_chain_second_example() {
    let code = parse_ascii_program(
        "3,23,3,24,1002,24,10,24,1002,23,-1,23,101,5,23,23,1,24,23,23,4,23,99,0,0",
    )
    .unwrap();
    assert_eq!(amplify_chain(&code, &vec![0, 1, 2, 3, 4]), Ok(54321));
    assert_eq!(find_max_amplification(&code), Ok(54321));
}

#[test]
fn amplifier_feedback_example() {
    let code = parse_ascii_program(FEEDBACK).unwrap();
    assert_eq!(amplify_feedback(&code, &vec![9, 8, 7, 6, 5]), Ok(139629729));
    assert_eq!(find_max_amplification_feedback(&code), Ok(139629729));
}

#[test]
fn amplifier_feedback_is_repeatable() {
    let code = parse_ascii_program(FEEDBACK).unwrap();
    let first = amplify_feedback(&code, &vec![5, 6, 7, 8, 9]);
    let second = amplify_feedback(&code, &vec![5, 6, 7, 8, 9]);
    assert!(first.is_ok());
    assert_eq!(first, second);
}

#[test]
fn amplifier_fault_is_reported() {
    assert_eq!(find_max_amplification(&[98]), Err(Fault::UnknownOpcode(98)));
}

// The cabinet: one instruction at address 0 that free play turns into a
// multiply, then a paddle at (1, 2), a score of 12345, a block at (5, 0).
const CABINET: [i64; 23] = [
    1, 0, 0, 100, 104, 1, 104, 2, 104, 3, 104, -1, 104, 0, 104, 12345, 104, 5, 104, 0, 104, 2, 99,
];

#[test]
fn arcade_draws_tiles_and_takes_score() {
    let mut game = Game::new(&CABINET);
    assert_eq!(game.input(0), Ok(Some((1, 2, Tile::Paddle))));
    assert_eq!(game.input(0), Ok(Some((5, 0, Tile::Block))));
    assert_eq!(game.input(0), Ok(None));
}

#[test]
fn arcade_counts_blocks() {
    assert_eq!(find_starting_blocks(&CABINET), Ok(1));
}

#[test]
fn arcade_free_play_reports_final_score() {
    let mut game = Game::new(&CABINET);
    game.set_free_play();
    assert_eq!(play_perfect_game(&CABINET), Ok(12345));
}

#[test]
fn arcade_machine_fault() {
    assert_eq!(
        find_starting_blocks(&[98]),
        Err(ArcadeError::Machine(Fault::UnknownOpcode(98)))
    );
}

#[test]
fn arcade_unknown_tile() {
    assert_eq!(
        find_starting_blocks(&[104, 0, 104, 0, 104, 7, 99]),
        Err(ArcadeError::UnknownTile(7))
    );
}

#[test]
fn arcade_reads_joystick_from_latch() {
    // reads the joystick twice and draws the sum as a tile id at (0, 0)
    let code = [3, 20, 3, 21, 1, 20, 21, 22, 104, 0, 104, 0, 4, 22, 99];
    let mut game = Game::new(&code);
    assert_eq!(game.input(2), Ok(Some((0, 0, Tile::Ball))));
}

#[test]
fn robot_paints_and_turns() {
    // reads the panel, paints it white, turns left; the second move runs
    // into the halt and repeats the last answer
    let code = [3, 100, 104, 1, 104, 0, 99];
    let mut robot = Robot::new(&code, Color::Black);
    assert_eq!(robot.look(), Color::Black);
    assert_eq!(robot.run(), Ok(()));
    assert_eq!(robot.colored_squares(), 2);
}

#[test]
fn robot_single_step() {
    let code = [3, 100, 104, 1, 104, 1, 99];
    let mut robot = Robot::new(&code, Color::White);
    assert_eq!(robot.look(), Color::White);
    assert_eq!(robot.step(), Ok(()));
    assert_eq!(robot.colored_squares(), 1);
    assert_eq!(robot.look(), Color::White);
}

#[test]
fn robot_rejects_bad_answers() {
    let mut robot = Robot::new(&[104, 5, 99], Color::Black);
    assert_eq!(robot.step(), Err(RobotError::BadColor(5)));
    let mut robot = Robot::new(&[104, 1, 104, 3, 99], Color::Black);
    assert_eq!(robot.step(), Err(RobotError::BadTurn(3)));
    let mut robot = Robot::new(&[98], Color::Black);
    assert_eq!(robot.step(), Err(RobotError::Machine(Fault::UnknownOpcode(98))));
}

#[test]
fn directions_turn_and_move() {
    assert_eq!(Direction::Up.left(), Direction::Left);
    assert_eq!(Direction::Left.left(), Direction::Down);
    assert_eq!(Direction::Up.right(), Direction::Right);
    assert_eq!(Direction::Left.right(), Direction::Up);
    assert_eq!(Direction::Up.v(), (0, -1));
    assert_eq!(Direction::Right.v(), (1, 0));
    assert_eq!(Direction::Down.v(), (0, 1));
    assert_eq!(Direction::Left.v(), (-1, 0));
}

#[test]
fn fuel_examples() {
    assert_eq!(Module { mass: 12 }.launch_fuel(), 2);
    assert_eq!(Module { mass: 14 }.launch_fuel(), 2);
    assert_eq!(Module { mass: 1969 }.launch_fuel(), 654);
    assert_eq!(Module { mass: 100756 }.launch_fuel(), 33583);
    assert_eq!(Module { mass: 14 }.total_fuel(), 2);
    assert_eq!(Module { mass: 1969 }.total_fuel(), 966);
    assert_eq!(Module { mass: 100756 }.total_fuel(), 50346);
    assert_eq!(Module { mass: 5 }.total_fuel(), 0);
    assert_eq!(Module { mass: u64::MAX }.launch_fuel(), u64::MAX / 3 - 2);
}

#[test]
fn gravity_assist_patches_noun_and_verb() {
    let code = parse_ascii_program("1,9,10,3,2,3,11,0,99,30,40,50").unwrap();
    assert_eq!(gravity_assist(&code, 9, 10), Ok(3500));
    assert_eq!(gravity_assist(&[1, 0, 0, 0, 99], 4, 4), Ok(198));
}

#[test]
fn noun_verb_search_finds_first_pair() {
    assert_eq!(find_noun_verb(&[1, 0, 0, 0, 99], 99), Ok(Some(299)));
    assert_eq!(find_noun_verb(&[1, 0, 0, 0, 99], -1), Ok(None));
}

#[test]
fn diagnostic_and_boost() {
    let code = parse_ascii_program("3,0,4,0,104,7,99").unwrap();
    assert_eq!(diagnostic_outputs(&code, 42), Ok(vec![42, 7]));
    assert_eq!(boost_keycode(&code, 42), Ok(7));
}

#[test]
fn robot_draws_painted_panels() {
    let code = [3, 100, 104, 1, 104, 0, 99];
    let mut robot = Robot::new(&code, Color::Black);
    robot.run().unwrap();
    assert_eq!(robot.draw(), " *\n");
}
