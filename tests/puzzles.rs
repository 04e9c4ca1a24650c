use intcode::asteroids::{count_visible, find_max_reachable, find_sweeping_hits, parse_asteroids};
use intcode::digits::{check_part1, check_part2, complexity, reverse_digits};
use intcode::image::Image;
use intcode::moons::{combined_period, cycle, parse_moons, simulate, step, total_energy, Momentum};
use intcode::wires::{find_best_intersection, DistanceMethod};
use intcode::orbits::{count_orbits, measure_path, parse_graph, walk};

#[test]
fn digits_come_least_significant_first() {
    assert_eq!(reverse_digits(1230), vec![0, 3, 2, 1]);
    assert_eq!(reverse_digits(0), Vec::<u8>::new());
    assert_eq!(reverse_digits(u32::MAX), vec![5, 9, 2, 7, 6, 9, 4, 9, 2, 4]);
}

#[test]
fn first_password_rule() {
    assert!(check_part1(111111));
    assert!(!check_part1(223450));
    assert!(!check_part1(123789));
    assert!(check_part1(122345));
}

#[test]
fn second_password_rule() {
    assert!(check_part2(112233));
    assert!(!check_part2(123444));
    assert!(check_part2(111122));
    assert!(!check_part2(223450));
}

#[test]
fn counting_passwords_in_a_range() {
    assert_eq!(complexity(111110, 111112, false), 2);
    assert_eq!(complexity(111110, 111112, true), 0);
    assert_eq!(complexity(111122, 111122, true), 1);
    assert_eq!(complexity(5, 4, false), 0);
}

#[test]
fn image_layers_and_checksum() {
    let image = Image::decode("123456789012\n", 3, 2).unwrap();
    assert_eq!(image.find_best_layer_sum(), Some(1));
    let image = Image::decode("0011220000012221", 2, 2).unwrap();
    // zeros per layer: 2, 2, 3, 0 -> the last layer has ones 1, twos 3
    assert_eq!(image.find_best_layer_sum(), Some(3));
}

#[test]
fn image_without_layers() {
    let image = Image::decode("  ", 3, 2).unwrap();
    assert_eq!(image.find_best_layer_sum(), Some(0));
    assert_eq!(image.merge_layers(), vec![2; 6]);
}

#[test]
fn image_rejects_non_digits() {
    assert!(Image::decode("12a4", 2, 2).is_none());
}

#[test]
fn image_merges_front_to_back() {
    let image = Image::decode("0222112222120000", 2, 2).unwrap();
    assert_eq!(image.merge_layers(), vec![0, 1, 1, 0]);
    assert_eq!(image.draw(), " *\n* ");
}

#[test]
fn image_draws_transparent_as_dot() {
    let image = Image::decode("2212", 2, 2).unwrap();
    assert_eq!(image.draw(), "..\n*.");
}

#[test]
fn asteroid_map_positions() {
    assert_eq!(
        parse_asteroids("\n.#..#\r\n.....\n#####\n"),
        vec![(1, 0), (4, 0), (0, 2), (1, 2), (2, 2), (3, 2), (4, 2)]
    );
    assert_eq!(parse_asteroids("   "), Vec::<(i64, i64)>::new());
}

fn name(s: &str) -> Vec<char> {
    s.chars().collect()
}

const ORBITS: &str = "COM)B\nB)C\nC)D\nD)E\nE)F\nB)G\nG)H\nD)I\nE)J\nJ)K\nK)L\n";

#[test]
fn orbit_counts() {
    let graph = parse_graph(ORBITS);
    assert_eq!(count_orbits(&graph), Some(42));
    assert_eq!(walk(&graph, &name("D")), vec![name("C"), name("B"), name("COM")]);
    assert_eq!(walk(&graph, &name("COM")), Vec::<Vec<char>>::new());
    assert_eq!(walk(&graph, &name("nowhere")), Vec::<Vec<char>>::new());
}

#[test]
fn orbit_transfers() {
    let text = format!("{}K)YOU\r\nI)SAN", ORBITS);
    let graph = parse_graph(&text);
    assert_eq!(measure_path(&graph, &name("YOU"), &name("SAN")), Some(4));
    assert_eq!(measure_path(&graph, &name("YOU"), &name("COM")), None);
}

#[test]
fn orbit_lines_without_paren_are_skipped() {
    let graph = parse_graph("A)B\nnothing here\nB)C");
    assert_eq!(count_orbits(&graph), Some(3));
}

#[test]
fn moons_step_once() {
    let mut axis: Vec<Momentum> = [-1, 2, 4, 3].iter().map(|&p| Momentum::new(p)).collect();
    assert!(step(&mut axis));
    let pos: Vec<i16> = axis.iter().map(|m| m.pos).collect();
    let vel: Vec<i16> = axis.iter().map(|m| m.vel).collect();
    assert_eq!(pos, vec![2, 3, 1, 2]);
    assert_eq!(vel, vec![3, 1, -3, -1]);
}

#[test]
fn moons_step_overflow_leaves_state() {
    let mut axis = vec![Momentum { pos: i16::MAX, vel: 1 }];
    let before = axis.clone();
    assert!(!step(&mut axis));
    assert_eq!(axis, before);
}

#[test]
fn moons_cycle_lengths() {
    let mut xs: Vec<Momentum> = [-1, 2, 4, 3].iter().map(|&p| Momentum::new(p)).collect();
    let start = xs.clone();
    assert_eq!(cycle(&mut xs), Some(18));
    assert_eq!(xs, start);
    let mut ys: Vec<Momentum> = [0, -10, -8, 5].iter().map(|&p| Momentum::new(p)).collect();
    assert_eq!(cycle(&mut ys), Some(28));
    let mut zs: Vec<Momentum> = [2, -7, 8, -1].iter().map(|&p| Momentum::new(p)).collect();
    assert_eq!(cycle(&mut zs), Some(44));
}

const MOONS: &str = "<x=-1, y=0, z=2>\n<x=2, y=-10, z=-7>\n<x=4, y=-8, z=8>\n<x=3, y=5, z=-1>\n";

#[test]
fn moons_parse() {
    assert_eq!(
        parse_moons(MOONS),
        Some(vec![(-1, 0, 2), (2, -10, -7), (4, -8, 8), (3, 5, -1)])
    );
    assert_eq!(parse_moons("junk <x=1, y=2, z=3> and <x=1,y=2,z=3>"), Some(vec![(1, 2, 3)]));
    assert_eq!(parse_moons("<x=<x=5, y=-0, z=+1> <x=7, y=8, z=9>"), Some(vec![(7, 8, 9)]));
    assert_eq!(parse_moons("<x=40000, y=0, z=0>"), None);
    assert_eq!(parse_moons(""), Some(vec![]));
}

#[test]
fn moons_energy_after_ten_steps() {
    let moons = parse_moons(MOONS).unwrap();
    let mut xs: Vec<Momentum> = moons.iter().map(|m| Momentum::new(m.0)).collect();
    let mut ys: Vec<Momentum> = moons.iter().map(|m| Momentum::new(m.1)).collect();
    let mut zs: Vec<Momentum> = moons.iter().map(|m| Momentum::new(m.2)).collect();
    assert!(simulate(&mut xs, 10));
    assert!(simulate(&mut ys, 10));
    assert!(simulate(&mut zs, 10));
    assert_eq!(total_energy(&xs, &ys, &zs), 179);
}

#[test]
fn moons_combined_period() {
    assert_eq!(combined_period(&vec![18, 28, 44]), Some(2772));
    assert_eq!(combined_period(&vec![]), Some(1));
    assert_eq!(combined_period(&vec![usize::MAX, 2]), None);
}

#[test]
fn wires_cross_nearest_by_manhattan() {
    let m = DistanceMethod::Manhattan;
    assert_eq!(find_best_intersection("R8,U5,L5,D3\nU7,R6,D4,L4", m), Some(6));
    assert_eq!(
        find_best_intersection(
            "R75,D30,R83,U83,L12,D49,R71,U7,L72\nU62,R66,U55,R34,D71,R55,D58,R83\n",
            m
        ),
        Some(159)
    );
    assert_eq!(
        find_best_intersection(
            "R98,U47,R26,D63,R33,U87,L62,D20,R33,U53,R51\r\nU98,R91,D20,R16,D67,R40,U7,R15,U6,R7",
            m
        ),
        Some(135)
    );
}

#[test]
fn wires_cross_nearest_by_length() {
    let m = DistanceMethod::WireLength;
    assert_eq!(find_best_intersection("R8,U5,L5,D3\nU7,R6,D4,L4", m), Some(30));
    assert_eq!(
        find_best_intersection(
            "R75,D30,R83,U83,L12,D49,R71,U7,L72\nU62,R66,U55,R34,D71,R55,D58,R83",
            m
        ),
        Some(610)
    );
}

#[test]
fn wires_edge_cases() {
    let m = DistanceMethod::Manhattan;
    assert_eq!(find_best_intersection("", m), None);
    assert_eq!(find_best_intersection("R8,X5\nU7", m), None);
    assert_eq!(find_best_intersection("R8,U5\n\nU7", m), None);
    assert_eq!(find_best_intersection("R2\nL2", m), None);
    // a single wire crosses itself everywhere it goes
    assert_eq!(find_best_intersection("R8,U5", m), Some(1));
}

// Station at (0, 0); (0, -1) hides (0, -2) at angle 0; (1, 0) at angle 90.
// The other asteroids see everything at one angle.
fn sweep_map() -> (Vec<(i64, i64)>, Vec<Vec<i64>>) {
    let asteroids = vec![(0, 0), (0, -1), (0, -2), (1, 0)];
    let angles = vec![vec![0, 0, 0, 90], vec![0; 4], vec![0; 4], vec![0; 4]];
    (asteroids, angles)
}

#[test]
fn asteroid_visibility() {
    let (asteroids, angles) = sweep_map();
    assert_eq!(count_visible(&asteroids, (0, 0), &angles[0]), 2);
    assert_eq!(count_visible(&asteroids, (0, -1), &angles[1]), 1);
    assert_eq!(find_max_reachable(&asteroids, &angles), ((0, 0), 2));
}

#[test]
fn asteroid_max_prefers_last_on_tie() {
    let asteroids = vec![(0, 0), (1, 0)];
    let angles = vec![vec![0, 5], vec![7, 0]];
    assert_eq!(find_max_reachable(&asteroids, &angles), ((1, 0), 1));
}

#[test]
fn asteroid_sweep_order() {
    let (asteroids, angles) = sweep_map();
    assert_eq!(find_sweeping_hits(&asteroids, &angles), vec![(0, -1), (1, 0), (0, -2)]);
}

#[test]
fn moons_simulate_stops_before_overflow() {
    let mut axis = vec![Momentum { pos: i16::MAX - 3, vel: 2 }];
    assert!(!simulate(&mut axis, 5));
    assert_eq!(axis, vec![Momentum { pos: i16::MAX - 1, vel: 2 }]);
}
