use labyrinth::maze::{check_dimensions, tile_colour};
use labyrinth::{Maze, MazeError, TileState};
use rand::rngs::SmallRng;
use rand::SeedableRng;
use rgb::RGB8;

fn generate(width: u32, height: u32, seed: u64) -> Maze {
    let mut rng = SmallRng::seed_from_u64(seed);
    let mut maze = Maze::new(width, height);
    maze.populate(&mut rng);
    maze
}

fn tiles(maze: &Maze) -> Vec<Vec<TileState>> {
    let mut rows = Vec::new();
    for x in 0..maze.width() as usize {
        let mut row = Vec::new();
        for y in 0..maze.height() as usize {
            row.push(maze.tile(x, y).unwrap());
        }
        rows.push(row);
    }
    rows
}

fn count(maze: &Maze, t: TileState) -> usize {
    tiles(maze).iter().flatten().filter(|c| **c == t).count()
}

fn is_open(cells: &[Vec<TileState>], x: usize, y: usize) -> bool {
    cells[x][y] != TileState::Wall
}

#[test]
fn new_maze_is_all_walls() {
    let maze = Maze::new(4, 3);
    assert_eq!(maze.width(), 4);
    assert_eq!(maze.height(), 3);
    assert_eq!(count(&maze, TileState::Wall), 12);
    assert_eq!(maze.tile(4, 0), None);
    assert_eq!(maze.tile(0, 3), None);
}

#[test]
fn zero_width_is_refused() {
    assert_eq!(check_dimensions(0, 5), Err(MazeError::ZeroDimension));
    assert_eq!(check_dimensions(5, 0), Err(MazeError::ZeroDimension));
    assert_eq!(check_dimensions(0, 0), Err(MazeError::ZeroDimension));
    assert_eq!(check_dimensions(1, 1), Ok(()));
}

#[test]
fn zero_width_maze_has_no_cells() {
    let maze = Maze::new(0, 5);
    assert_eq!(maze.tile(0, 0), None);
    assert!(maze.pixels().is_empty());
}

#[test]
fn single_cell_ends_as_exit() {
    let maze = generate(1, 1, 0);
    assert_eq!(maze.tile(0, 0), Some(TileState::End));
    assert_eq!(maze.pixels(), vec![RGB8 { r: 0xFF, g: 0, b: 0 }]);
}

#[test]
fn same_seed_same_image() {
    let a = generate(5, 5, 0);
    let b = generate(5, 5, 0);
    assert_eq!(a.pixels(), b.pixels());
    let c = generate(31, 17, 42);
    let d = generate(31, 17, 42);
    assert_eq!(c.pixels(), d.pixels());
}

#[test]
fn five_by_five_seed_zero_layout() {
    let maze = generate(5, 5, 0);
    let expected = ["S.#..", "#...#", "##.##", "....#", ".##.E"];
    for (x, row) in expected.iter().enumerate() {
        for (y, c) in row.chars().enumerate() {
            let t = match c {
                '#' => TileState::Wall,
                '.' => TileState::Empty,
                'S' => TileState::Start,
                _ => TileState::End,
            };
            assert_eq!(maze.tile(x, y), Some(t));
        }
    }
    let px = maze.pixels();
    assert_eq!(px.len(), 25);
    assert_eq!(px[0], RGB8 { r: 0, g: 255, b: 0 });
    assert_eq!(px[1], RGB8 { r: 255, g: 255, b: 255 });
    assert_eq!(px[2], RGB8 { r: 0, g: 0, b: 0 });
    assert_eq!(px[24], RGB8 { r: 255, g: 0, b: 0 });
}

#[test]
fn one_entry_and_one_exit() {
    for seed in 0..40 {
        let maze = generate(12, 9, seed);
        assert_eq!(count(&maze, TileState::Start), 1);
        assert_eq!(count(&maze, TileState::End), 1);
    }
}

#[test]
fn entry_precedes_exit_in_row_major_order() {
    for seed in 0..20 {
        let maze = generate(8, 8, seed);
        let flat: Vec<TileState> = tiles(&maze).into_iter().flatten().collect();
        let s = flat.iter().position(|t| *t == TileState::Start).unwrap();
        let e = flat.iter().position(|t| *t == TileState::End).unwrap();
        assert!(s < e);
        assert!(flat[..s].iter().all(|t| *t == TileState::Wall));
        assert!(flat[e + 1..].iter().all(|t| *t == TileState::Wall));
    }
}

#[test]
fn no_square_of_carved_cells() {
    for seed in 0..30 {
        let maze = generate(15, 11, seed);
        let cells = tiles(&maze);
        for x in 0..14 {
            for y in 0..10 {
                let all = is_open(&cells, x, y)
                    && is_open(&cells, x + 1, y)
                    && is_open(&cells, x, y + 1)
                    && is_open(&cells, x + 1, y + 1);
                assert!(!all);
            }
        }
    }
}

#[test]
fn no_diagonal_only_contact() {
    for seed in 0..30 {
        let maze = generate(15, 11, seed);
        let cells = tiles(&maze);
        for x in 0..14 {
            for y in 0..10 {
                if is_open(&cells, x, y) && is_open(&cells, x + 1, y + 1) {
                    assert!(is_open(&cells, x + 1, y) || is_open(&cells, x, y + 1));
                }
                if is_open(&cells, x + 1, y) && is_open(&cells, x, y + 1) {
                    assert!(is_open(&cells, x, y) || is_open(&cells, x + 1, y + 1));
                }
            }
        }
    }
}

#[test]
fn carved_cells_are_connected() {
    let maze = generate(20, 20, 7);
    let cells = tiles(&maze);
    let open: Vec<(usize, usize)> = (0..20)
        .flat_map(|x| (0..20).map(move |y| (x, y)))
        .filter(|&(x, y)| is_open(&cells, x, y))
        .collect();
    let mut seen = vec![vec![false; 20]; 20];
    let mut todo = vec![open[0]];
    seen[open[0].0][open[0].1] = true;
    let mut reached = 0;
    while let Some((x, y)) = todo.pop() {
        reached += 1;
        let mut next = Vec::new();
        if x > 0 {
            next.push((x - 1, y));
        }
        if y > 0 {
            next.push((x, y - 1));
        }
        if x + 1 < 20 {
            next.push((x + 1, y));
        }
        if y + 1 < 20 {
            next.push((x, y + 1));
        }
        for (nx, ny) in next {
            if is_open(&cells, nx, ny) && !seen[nx][ny] {
                seen[nx][ny] = true;
                todo.push((nx, ny));
            }
        }
    }
    assert_eq!(reached, open.len());
    assert!(open.len() > 20);
}

#[test]
fn different_seeds_give_different_mazes() {
    let first = generate(10, 10, 0).pixels();
    let differs = (1..10).any(|seed| generate(10, 10, seed).pixels() != first);
    assert!(differs);
}

#[test]
fn tile_colours() {
    assert_eq!(tile_colour(TileState::Wall), RGB8 { r: 0, g: 0, b: 0 });
    assert_eq!(tile_colour(TileState::Empty), RGB8 { r: 255, g: 255, b: 255 });
    assert_eq!(tile_colour(TileState::Start), RGB8 { r: 0, g: 255, b: 0 });
    assert_eq!(tile_colour(TileState::End), RGB8 { r: 255, g: 0, b: 0 });
}

#[test]
fn pixels_follow_row_major_order() {
    let maze = generate(6, 4, 3);
    let px = maze.pixels();
    assert_eq!(px.len(), 24);
    for x in 0..6 {
        for y in 0..4 {
            assert_eq!(px[x * 4 + y], tile_colour(maze.tile(x, y).unwrap()));
        }
    }
}

#[test]
fn default_tile_is_wall() {
    assert_eq!(TileState::default(), TileState::Wall);
}

#[test]
fn links_are_one_fewer_than_carved_cells() {
    for seed in 0..20 {
        let maze = generate(13, 17, seed);
        let cells = tiles(&maze);
        let mut carved = 0;
        let mut links = 0;
        for x in 0..13 {
            for y in 0..17 {
                if is_open(&cells, x, y) {
                    carved += 1;
                    if x + 1 < 13 && is_open(&cells, x + 1, y) {
                        links += 1;
                    }
                    if y + 1 < 17 && is_open(&cells, x, y + 1) {
                        links += 1;
                    }
                }
            }
        }
        assert_eq!(links + 1, carved);
    }
}

#[test]
fn two_by_two_maze() {
    for seed in 0..10 {
        let maze = generate(2, 2, seed);
        let flat: Vec<TileState> = tiles(&maze).into_iter().flatten().collect();
        let carved = flat.iter().filter(|t| **t != TileState::Wall).count();
        assert!(carved >= 1 && carved <= 3);
        assert_eq!(count(&maze, TileState::End), 1);
    }
}

#[test]
fn try_populate_refuses_zero_dimensions() {
    let mut rng = SmallRng::seed_from_u64(0);
    let mut maze = Maze::new(0, 5);
    assert_eq!(maze.try_populate(&mut rng), Err(MazeError::ZeroDimension));
    let mut maze = Maze::new(5, 0);
    assert_eq!(maze.try_populate(&mut rng), Err(MazeError::ZeroDimension));
    let mut maze = Maze::new(3, 3);
    assert_eq!(maze.try_populate(&mut rng), Ok(()));
    assert_eq!(count(&maze, TileState::End), 1);
}

#[test]
fn one_by_two_maze_has_entry_and_exit() {
    for seed in 0..10 {
        let maze = generate(1, 2, seed);
        assert_eq!(maze.tile(0, 0), Some(TileState::Start));
        assert_eq!(maze.tile(0, 1), Some(TileState::End));
    }
}

#[test]
fn carve_from_given_cell() {
    let mut rng = SmallRng::seed_from_u64(3);
    let mut maze = Maze::new(9, 7);
    maze.carve_from(&mut rng, 4, 2);
    assert_ne!(maze.tile(4, 2), Some(TileState::Wall));
    assert_eq!(count(&maze, TileState::Start), 1);
    assert_eq!(count(&maze, TileState::End), 1);
}

#[test]
fn no_carved_cell_has_a_candidate_left() {
    let maze = generate(14, 12, 5);
    let cells = tiles(&maze);
    let open = |x: i64, y: i64| -> bool {
        x >= 0 && y >= 0 && x < 14 && y < 12 && cells[x as usize][y as usize] != TileState::Wall
    };
    for x in 0..14i64 {
        for y in 0..12i64 {
            if !open(x, y) {
                continue;
            }
            for (dx, dy) in [(1i64, 0i64), (-1, 0), (0, 1), (0, -1)] {
                let (nx, ny) = (x + dx, y + dy);
                if nx < 0 || ny < 0 || nx >= 14 || ny >= 12 || open(nx, ny) {
                    continue;
                }
                let mut around = 0;
                for ax in -1..=1i64 {
                    for ay in -1..=1i64 {
                        let behind = (dx != 0 && ax == -dx) || (dy != 0 && ay == -dy);
                        if (ax, ay) != (0, 0) && !behind && open(nx + ax, ny + ay) {
                            around += 1;
                        }
                    }
                }
                assert!(around > 0);
            }
        }
    }
}

#[test]
fn cloned_maze_is_equal() {
    let maze = generate(6, 6, 9);
    let copy = maze.clone();
    assert!(copy == maze);
    assert!(generate(6, 6, 9) == maze);
    assert!(Maze::new(6, 6) != maze);
}
