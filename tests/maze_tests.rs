use maze_gen::maze::Maze;
use maze_gen::render::{Wall, BLOCK_SIDE, INNER_SIDE};
use maze_gen::square::{Coor, Square};

fn wall(x0: u32, y0: u32, x1: u32, y1: u32) -> Wall {
    Wall { x0, y0, x1, y1 }
}

fn generated(width: usize, height: usize, seed: u64) -> Maze {
    let mut maze = Maze::new(width, height);
    maze.generate_seeded(seed);
    maze
}

fn passages(maze: &Maze) -> Vec<Vec<Coor>> {
    let mut all = Vec::new();
    for y in 0..maze.height() {
        for x in 0..maze.width() {
            all.push(maze.at((x, y)).dest().clone());
        }
    }
    all
}

fn check_perfect(maze: &Maze) {
    let (w, h) = (maze.width(), maze.height());
    let mut total = 0;
    for y in 0..h {
        for x in 0..w {
            let sq = maze.at((x, y));
            assert!(sq.visited());
            total += sq.dest().len();
            for &(nx, ny) in sq.dest() {
                assert!(nx < w && ny < h);
                let dist = nx.abs_diff(x) + ny.abs_diff(y);
                assert_eq!(dist, 1);
                assert!(maze.at((nx, ny)).dest().contains(&(x, y)));
            }
        }
    }
    assert_eq!(total, 2 * (w * h - 1));
    // every cell is reached from the origin exactly once
    let mut seen = vec![false; w * h];
    let mut queue = vec![(0usize, 0usize)];
    seen[0] = true;
    let mut reached = 1;
    while let Some((x, y)) = queue.pop() {
        for &(nx, ny) in maze.at((x, y)).dest() {
            if !seen[nx + ny * w] {
                seen[nx + ny * w] = true;
                reached += 1;
                queue.push((nx, ny));
            }
        }
    }
    assert_eq!(reached, w * h);
}

#[test]
fn square_starts_empty() {
    let sq = Square::new();
    assert!(!sq.visited());
    assert!(sq.dest().is_empty());
}

#[test]
fn square_visit_and_add_dest() {
    let mut sq = Square::new();
    sq.visit();
    sq.visit();
    sq.add_dest((1, 0));
    sq.add_dest((0, 1));
    assert!(sq.visited());
    assert_eq!(sq.dest(), &vec![(1, 0), (0, 1)]);
}

#[test]
fn new_grid_is_unvisited() {
    let maze = Maze::new(3, 2);
    assert_eq!(maze.width(), 3);
    assert_eq!(maze.height(), 2);
    for y in 0..2 {
        for x in 0..3 {
            assert!(!maze.at((x, y)).visited());
            assert!(maze.at((x, y)).dest().is_empty());
        }
    }
}

#[test]
fn neighbours_in_fixed_order() {
    let maze = Maze::new(3, 3);
    assert_eq!(maze.adjacent_squares((1, 1)), vec![(0, 1), (2, 1), (1, 0), (1, 2)]);
    assert_eq!(maze.adjacent_squares((0, 0)), vec![(1, 0), (0, 1)]);
    assert_eq!(maze.adjacent_squares((2, 2)), vec![(1, 2), (2, 1)]);
    assert_eq!(maze.adjacent_squares((0, 2)), vec![(1, 2), (0, 1)]);
}

#[test]
fn neighbours_of_single_cell() {
    let maze = Maze::new(1, 1);
    assert!(maze.adjacent_squares((0, 0)).is_empty());
}

#[test]
fn one_by_one_maze() {
    let mut maze = Maze::new(1, 1);
    maze.generate();
    assert!(maze.at((0, 0)).visited());
    assert!(maze.at((0, 0)).dest().is_empty());
    let d = maze.render();
    assert_eq!((d.width, d.height), (BLOCK_SIDE + 1, BLOCK_SIDE + 1));
    assert_eq!(d.walls, vec![wall(0, 0, 4, 0), wall(0, 4, 4, 4), wall(4, 0, 4, 4), wall(0, 0, 0, 4)]);
}

#[test]
fn two_by_one_maze() {
    let mut maze = Maze::new(2, 1);
    maze.generate();
    assert_eq!(maze.at((0, 0)).dest(), &vec![(1, 0)]);
    assert_eq!(maze.at((1, 0)).dest(), &vec![(0, 0)]);
    let d = maze.render();
    assert_eq!((d.width, d.height), (9, 5));
    assert_eq!(
        d.walls,
        vec![
            wall(0, 0, 4, 0),
            wall(0, 4, 4, 4),
            wall(0, 0, 0, 4),
            wall(4, 0, 8, 0),
            wall(4, 4, 8, 4),
            wall(8, 0, 8, 4),
        ]
    );
}

#[test]
fn one_by_two_maze_opens_the_shared_side() {
    let maze = generated(1, 2, 7);
    assert_eq!(maze.at((0, 0)).dest(), &vec![(0, 1)]);
    let d = maze.render();
    assert_eq!((d.width, d.height), (5, 9));
    assert_eq!(
        d.walls,
        vec![
            wall(0, 0, 4, 0),
            wall(4, 0, 4, 4),
            wall(0, 0, 0, 4),
            wall(0, 8, 4, 8),
            wall(4, 4, 4, 8),
            wall(0, 4, 0, 8),
        ]
    );
}

#[test]
fn generated_mazes_are_perfect() {
    for (w, h) in [(1, 1), (2, 1), (1, 5), (3, 3), (7, 4), (10, 10), (25, 3)] {
        for seed in 0..4 {
            check_perfect(&generated(w, h, seed));
        }
    }
}

#[test]
fn unseeded_generation_is_perfect() {
    let mut maze = Maze::new(12, 9);
    maze.generate();
    check_perfect(&maze);
}

#[test]
fn same_seed_same_maze() {
    let a = generated(15, 11, 42);
    let b = generated(15, 11, 42);
    assert_eq!(passages(&a), passages(&b));
}

#[test]
fn large_maze_is_perfect() {
    let mut maze = Maze::new(200, 150);
    maze.generate();
    check_perfect(&maze);
}

#[test]
fn rendered_size_follows_block_side() {
    let maze = generated(6, 3, 1);
    assert_eq!(BLOCK_SIDE, INNER_SIDE + 1);
    let d = maze.render();
    assert_eq!((d.width, d.height), (25, 13));
    let d = maze.render_with_side(10);
    assert_eq!((d.width, d.height), (61, 31));
}

#[test]
fn wall_count_matches_passages() {
    // each cell has four sides; every passage opens one side of each of its two cells
    let maze = generated(8, 5, 3);
    let d = maze.render();
    assert_eq!(d.walls.len(), 4 * 8 * 5 - 2 * (8 * 5 - 1));
    assert_eq!(maze.walls(BLOCK_SIDE), d.walls);
}

#[test]
fn walls_scale_with_side() {
    let maze = generated(2, 1, 0);
    let d = maze.render_with_side(1);
    assert_eq!((d.width, d.height), (3, 2));
    assert_eq!(
        d.walls,
        vec![wall(0, 0, 1, 0), wall(0, 1, 1, 1), wall(0, 0, 0, 1), wall(1, 0, 2, 0), wall(1, 1, 2, 1), wall(2, 0, 2, 1)]
    );
}

fn scripted(width: usize, height: usize, picks: Vec<usize>) -> Maze {
    let mut maze = Maze::new(width, height);
    maze.generate_scripted(picks);
    maze
}

#[test]
fn scripted_choices_give_a_fixed_maze() {
    let maze = scripted(2, 2, vec![0, 0, 0]);
    assert_eq!(maze.at((0, 0)).dest(), &vec![(1, 0)]);
    assert_eq!(maze.at((1, 0)).dest(), &vec![(0, 0), (1, 1)]);
    assert_eq!(maze.at((1, 1)).dest(), &vec![(1, 0), (0, 1)]);
    assert_eq!(maze.at((0, 1)).dest(), &vec![(1, 1)]);
    check_perfect(&maze);
}

#[test]
fn scripted_choice_selects_among_options() {
    let maze = scripted(2, 2, vec![1]);
    assert_eq!(maze.at((0, 0)).dest(), &vec![(0, 1)]);
    assert_eq!(maze.at((0, 1)).dest(), &vec![(0, 0), (1, 1)]);
    assert_eq!(maze.at((1, 1)).dest(), &vec![(0, 1), (1, 0)]);
    assert_eq!(maze.at((1, 0)).dest(), &vec![(1, 1)]);
    // choices wrap around the number of options
    assert_eq!(passages(&scripted(2, 2, vec![3])), passages(&maze));
}

#[test]
fn exhausted_script_picks_the_first_option() {
    assert_eq!(passages(&scripted(4, 3, vec![])), passages(&scripted(4, 3, vec![0; 20])));
}

#[test]
fn same_script_same_maze() {
    let picks: Vec<usize> = (0..300).map(|i| (i * 7 + 3) % 11).collect();
    let a = scripted(9, 13, picks.clone());
    let b = scripted(9, 13, picks);
    assert_eq!(passages(&a), passages(&b));
    check_perfect(&a);
}

#[test]
fn different_seeds_still_perfect() {
    for seed in [1u64, 99, 12345] {
        let maze = generated(6, 6, seed);
        check_perfect(&maze);
        let d = maze.render();
        assert_eq!(d.walls.len(), 4 * 36 - 2 * 35);
    }
}
