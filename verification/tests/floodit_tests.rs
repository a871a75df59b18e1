use learning_rust::floodit::{prompt_string, Colour, Game, InvalidColourError};
use learning_rust::graph::reachable_from;

use Colour::{Blue, Green, Red};

#[test]
fn colour_names_read_back() {
    for c in Colour::all() {
        assert_eq!(Colour::from_name(c.name()), Ok(c));
    }
    assert_eq!(Colour::from_name("Red"), Err(InvalidColourError));
    assert_eq!(Colour::from_name(""), Err(InvalidColourError));
}

#[test]
fn die_faces_map_to_colours() {
    assert_eq!(Colour::from_roll(0), Colour::Red);
    assert_eq!(Colour::from_roll(4), Colour::White);
    assert_eq!(Colour::from_roll(5), Colour::Yellow);
    assert_eq!(Colour::from_roll(6), Colour::Yellow);
}

#[test]
fn prompt_lists_colours() {
    assert_eq!(prompt_string(), "please enter red, green, blue, purple, white or yellow");
}

fn checkerboard() -> [[Colour; 10]; 10] {
    let mut g = [[Red; 10]; 10];
    for r in 0..10 {
        for c in 0..10 {
            if (r + c) % 2 == 1 {
                g[r][c] = Green;
            }
        }
    }
    g
}

#[test]
fn flood_repaints_only_the_connected_region() {
    let mut grid = [[Blue; 10]; 10];
    grid[0][0] = Red;
    grid[0][1] = Red;
    grid[1][1] = Red;
    grid[5][5] = Red;
    let mut g = Game::from_grid(grid);
    g.apply(Green);
    assert_eq!(g.cell(0, 0), Green);
    assert_eq!(g.cell(0, 1), Green);
    assert_eq!(g.cell(1, 1), Green);
    assert_eq!(g.cell(5, 5), Red);
    assert_eq!(g.cell(1, 0), Blue);
    assert_eq!(g.turns(), 1);
    assert!(!g.won());
}

#[test]
fn game_is_won_when_one_colour_remains() {
    let mut grid = [[Blue; 10]; 10];
    grid[0][0] = Red;
    let mut g = Game::from_grid(grid);
    assert!(!g.won());
    g.apply(Blue);
    assert!(g.won());
    assert_eq!(g.turns(), 1);
}

#[test]
fn same_colour_twice_changes_nothing() {
    let mut g = Game::from_grid(checkerboard());
    g.apply(Green);
    let before: Vec<Colour> = (0..100).map(|i| g.cell(i / 10, i % 10)).collect();
    g.apply(Green);
    let after: Vec<Colour> = (0..100).map(|i| g.cell(i / 10, i % 10)).collect();
    assert_eq!(before, after);
    assert_eq!(g.turns(), 2);
}

#[test]
fn picking_the_top_left_colour_changes_nothing() {
    let mut g = Game::from_grid(checkerboard());
    g.apply(Red);
    for i in 0..100 {
        let expected = if (i / 10 + i % 10) % 2 == 1 { Green } else { Red };
        assert_eq!(g.cell(i / 10, i % 10), expected);
    }
}

#[test]
fn new_games_start_fresh() {
    let g = Game::new();
    assert_eq!(g.turns(), 0);
}

#[test]
fn reachability_follows_edges() {
    let adj = vec![vec![1], vec![2], vec![], vec![0]];
    assert_eq!(reachable_from(&adj, &vec![0]), vec![true, true, true, false]);
    assert_eq!(reachable_from(&adj, &vec![3]), vec![true, true, true, true]);
    assert_eq!(reachable_from(&adj, &vec![]), vec![false, false, false, false]);
}

#[test]
fn board_text_lists_turns_then_rows() {
    let painted: Vec<String> = (0..100).map(|i| if i % 10 == 9 { "b".to_string() } else { "a".to_string() }).collect();
    let text = learning_rust::floodit::board_string(12, &painted);
    let row = "aaaaaaaaab\n";
    assert_eq!(text, format!("turns: 12\n{}", row.repeat(10)));
    assert!(learning_rust::floodit::board_string(0, &painted).starts_with("turns: 0\n"));
}

#[test]
fn tiles_are_painted_with_their_colour() {
    let g = Game::from_grid([[Blue; 10]; 10]);
    let text = g.render();
    let blue = "\u{1b}[44m  \u{1b}[0m";
    assert_eq!(text, format!("turns: 0\n{}", format!("{}\n", blue.repeat(10)).repeat(10)));
    let mut grid = [[Blue; 10]; 10];
    grid[0][0] = Red;
    let text = Game::from_grid(grid).render();
    assert!(text.starts_with("turns: 0\n\u{1b}[41m  \u{1b}[0m\u{1b}[44m"));
}

#[test]
fn rolls_become_tiles_row_by_row() {
    let rolls: Vec<u8> = (0..100).map(|i| (i % 7) as u8).collect();
    let g = Game::from_rolls(&rolls);
    assert_eq!(g.turns(), 0);
    assert_eq!(g.cell(0, 0), Red);
    assert_eq!(g.cell(0, 1), Green);
    assert_eq!(g.cell(0, 2), Blue);
    assert_eq!(g.cell(0, 3), Colour::Purple);
    assert_eq!(g.cell(0, 4), Colour::White);
    assert_eq!(g.cell(0, 5), Colour::Yellow);
    assert_eq!(g.cell(0, 6), Colour::Yellow);
    assert_eq!(g.cell(1, 0), Colour::Purple);
}
