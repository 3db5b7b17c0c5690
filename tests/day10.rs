use aoc2023::day10::{determine_start_pipe_shape, find_farthest_point, get_neighbors, in_loop, parse_input, part1_2, MazeError, Pipe, Point};

const INPUT1: &str = "7-F7-
-FJ|7
SJLL7
|F--J
LJ.LJ";

const INPUT2: &str = "...........
.S-------7.
.|F-----7|.
.||.....||.
.||.....||.
.|L-7.F-J|.
.|..|.|..|.
.L--J.L--J.
...........";

const INPUT3: &str = "FF7FSF7F7F7F7F7F---7
L|LJ||||||||||||F--J
FL-7LJLJ||||||LJL-77
F--JF--7||LJLJ7F7FJ-
L---JF-JLJ.||-FJLJJ7
|F|F-JF---7F7-L7L|7|
|FFJF7L7F-JF7|JL---7
7-L-JL7||F7|L7F-7F7|
L.L7LFJ|||||FJL7||LJ
L7JLJL-JLJLJL--JLJ.L";

const DENSE: &str = ".F----7F7F7F7F-7....
.|F--7||||||||FJ....
.||.FJ||||||||L7....
FJL7L7LJLJ||LJ.L-7..
L--J.L7...LJS7F-7L7.
....F-J..F7FJ|L7L7L7
....L7.F7||L7|.L7L7|
.....|FJLJ|FJ|F7|.LJ
....FJL-7.||.||||...
....L---J.LJ.LJLJ...";

const SQUARE: &str = ".....
.S-7.
.|.|.
.L-J.
.....";

fn rotate(input: &str) -> String {
    let rows: Vec<Vec<char>> = input.lines().map(|l| l.chars().collect()).collect();
    let height = rows.len();
    let width = rows[0].len();
    let mut out = Vec::new();
    for x in 0..width {
        let mut line = String::new();
        for y in (0..height).rev() {
            let c = match rows[y][x] {
                '|' => '-',
                '-' => '|',
                'L' => 'F',
                'F' => '7',
                '7' => 'J',
                'J' => 'L',
                other => other,
            };
            line.push(c);
        }
        out.push(line);
    }
    out.join("\n")
}

#[test]
fn day10_part1_2_test() {
    assert_eq!(8, part1_2(&INPUT1).unwrap().0);
    assert_eq!(4, part1_2(&INPUT2).unwrap().1);
    assert_eq!(10, part1_2(&INPUT3).unwrap().1);
}

#[test]
fn square_loop_scenario() {
    assert_eq!(Ok((4, 1)), part1_2(SQUARE));
}

#[test]
fn dense_fixture_encloses_eight() {
    assert_eq!(8, part1_2(DENSE).unwrap().1);
}

#[test]
fn side_tunnels_scenario() {
    assert_eq!(Ok((8, 1)), part1_2(INPUT1));
}

#[test]
fn enclosure_survives_rotation() {
    for input in [SQUARE, INPUT2, INPUT3, DENSE] {
        let expected = part1_2(input).unwrap().1;
        let mut grid = input.to_string();
        for _ in 0..4 {
            grid = rotate(&grid);
            assert_eq!(expected, part1_2(&grid).unwrap().1);
        }
    }
}

#[test]
fn parsing_twice_gives_the_same_maze() {
    assert_eq!(parse_input(INPUT3), parse_input(INPUT3));
    assert_eq!(parse_input(SQUARE), parse_input(SQUARE));
}

#[test]
fn start_shape_is_inferred() {
    let (grid, start) = parse_input(SQUARE).unwrap();
    assert_eq!(Point(1, 1), start);
    assert_eq!(Pipe::SouthEast, grid[1][1]);
    let (grid, start) = parse_input(INPUT1).unwrap();
    assert_eq!(Point(0, 2), start);
    assert_eq!(Pipe::SouthEast, grid[2][0]);
}

#[test]
fn straight_start_shapes() {
    let (grid, _) = parse_input("F-S-7\nL---J").unwrap();
    assert_eq!(Pipe::Horizontal, grid[0][2]);
    let (grid, _) = parse_input("F7\nS|\nLJ").unwrap();
    assert_eq!(Pipe::Vertical, grid[1][0]);
    assert_eq!(Some(Pipe::Vertical), determine_start_pipe_shape(&grid, Point(0, 1)));
}

#[test]
fn missing_start_is_an_error() {
    assert_eq!(Err(MazeError::MissingStart), part1_2("F7\nLJ"));
}

#[test]
fn two_starts_are_an_error() {
    assert_eq!(Err(MazeError::MultipleStarts), part1_2("S7\nLS"));
}

#[test]
fn unlinked_start_is_an_error() {
    assert_eq!(Err(MazeError::MalformedStart), part1_2("...\n.S.\n..."));
    assert_eq!(Err(MazeError::MalformedStart), part1_2(".|.\n-S-\n.|."));
}

#[test]
fn loop_holds_the_start() {
    let (grid, start) = parse_input(INPUT2).unwrap();
    let (far, mask) = find_farthest_point(&grid, start);
    assert!(mask[start.1][start.0]);
    assert_eq!(23, far);
    let cells = mask.iter().flatten().filter(|&&b| b).count();
    assert_eq!(46, cells);
}

#[test]
fn neighbors_skip_negative_cells() {
    assert_eq!(vec![Point(1, 0)], get_neighbors(Point(0, 0), Pipe::Horizontal));
    assert_eq!(vec![Point(0, 1)], get_neighbors(Point(0, 0), Pipe::Vertical));
    assert_eq!(vec![Point(2, 0), Point(2, 2), Point(3, 1)], {
        let mut v = get_neighbors(Point(2, 1), Pipe::Vertical);
        v.extend(get_neighbors(Point(2, 1), Pipe::NorthEast).into_iter().skip(1));
        v
    });
    assert!(get_neighbors(Point(3, 3), Pipe::Ground).is_empty());
}

#[test]
fn loop_cells_are_never_enclosed() {
    let map = vec![vec![Pipe::Horizontal], vec![Pipe::Ground]];
    assert!(in_loop(&map, &vec![vec![true], vec![true]]).is_empty());
    assert_eq!(vec![Point(0, 1)], in_loop(&map, &vec![vec![true], vec![false]]));
}
