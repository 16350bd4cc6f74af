use game2048::game::matrix::Matrix;
use game2048::game::{Command, Event, Game, Key, Modifiers, Playable, State};
use game2048::model::Direction;

fn key(code: Key) -> Event {
    Event::Key { code, modifiers: Modifiers::Plain }
}

fn control(code: Key) -> Event {
    Event::Key { code, modifiers: Modifiers::Control }
}

fn game_on(rows: [[u32; 4]; 4]) -> Game {
    let mut matrix = Matrix::default();
    for (i, row) in rows.iter().enumerate() {
        matrix.data[i] = row.to_vec();
    }
    Game::from_matrix(matrix)
}

fn total(game: &Game) -> u64 {
    game.matrix().data.iter().flatten().map(|&v| u64::from(v)).sum()
}

fn tiles(game: &Game) -> usize {
    game.matrix().data.iter().flatten().filter(|&&v| v != 0).count()
}

#[test]
fn new_game_runs_on_an_empty_grid() {
    let game = Game::new();
    assert_eq!(game.state, State::Running);
    assert!(!game.is_over());
    assert_eq!(game.matrix().data, vec![vec![0; 4]; 4]);
    assert_eq!(game.matrix().width, 4);
}

#[test]
fn init_spawns_the_first_tile() {
    let mut game = Game::new();
    game.init();
    assert_eq!(tiles(&game), 1);
    assert!(total(&game) == 2 || total(&game) == 4);
    assert_eq!(game.state, State::Running);
}

#[test]
fn update_spawns_a_tile() {
    let mut game = game_on([[2, 0, 0, 0], [0; 4], [0; 4], [0; 4]]);
    game.update();
    assert_eq!(tiles(&game), 2);
    assert_eq!(game.matrix().data[0][0], 2);
    assert!(total(&game) == 4 || total(&game) == 6);
}

#[test]
fn arrow_keys_move() {
    assert_eq!(key(Key::Left).command(), Command::Move(Direction::Left));
    assert_eq!(key(Key::Right).command(), Command::Move(Direction::Right));
    assert_eq!(key(Key::Up).command(), Command::Move(Direction::Up));
    assert_eq!(key(Key::Down).command(), Command::Move(Direction::Down));
}

#[test]
fn quit_keys_end_the_game() {
    assert_eq!(key(Key::Char('q')).command(), Command::Quit);
    assert_eq!(key(Key::Esc).command(), Command::Quit);
    assert_eq!(control(Key::Char('c')).command(), Command::Quit);
    assert_eq!(control(Key::Char('d')).command(), Command::Quit);
}

#[test]
fn other_events_ask_for_nothing() {
    assert_eq!(key(Key::Char('c')).command(), Command::Nothing);
    assert_eq!(key(Key::Char('Q')).command(), Command::Nothing);
    assert_eq!(key(Key::Other).command(), Command::Nothing);
    assert_eq!(control(Key::Char('q')).command(), Command::Nothing);
    assert_eq!(control(Key::Left).command(), Command::Nothing);
    assert_eq!(control(Key::Esc).command(), Command::Nothing);
    let shifted = Event::Key { code: Key::Left, modifiers: Modifiers::Other };
    assert_eq!(shifted.command(), Command::Nothing);
    assert_eq!(Event::FocusGained.command(), Command::Nothing);
    assert_eq!(Event::FocusLost.command(), Command::Nothing);
    assert_eq!(Event::Mouse.command(), Command::Nothing);
    assert_eq!(Event::Paste.command(), Command::Nothing);
    assert_eq!(Event::Resize.command(), Command::Redraw);
}

#[test]
fn move_that_changes_the_grid_spawns_a_tile() {
    for _ in 0..50 {
        let mut game = game_on([[2, 2, 0, 0], [0; 4], [0; 4], [0, 0, 0, 8]]);
        let redraw = game.handle_input(key(Key::Left));
        assert!(redraw);
        assert_eq!(game.state, State::Running);
        assert!(!game.matrix().changed);
        assert_eq!(game.matrix().data[0][0], 4);
        assert_eq!(game.matrix().data[3][0], 8);
        assert_eq!(tiles(&game), 3);
        assert!(total(&game) == 14 || total(&game) == 16);
    }
}

#[test]
fn move_that_changes_nothing_spawns_no_tile() {
    let rows = [[2, 4, 0, 0], [8, 0, 0, 0], [0; 4], [0; 4]];
    let mut game = game_on(rows);
    let redraw = game.handle_input(key(Key::Left));
    assert!(!redraw);
    assert_eq!(game.state, State::Running);
    assert_eq!(game.matrix().data, game_on(rows).matrix().data);
}

#[test]
fn quit_ends_the_game_and_keeps_the_grid() {
    let rows = [[2, 2, 0, 0], [0; 4], [0; 4], [0; 4]];
    let quits =
        [key(Key::Char('q')), key(Key::Esc), control(Key::Char('c')), control(Key::Char('d'))];
    for event in quits {
        let mut game = game_on(rows);
        let redraw = game.handle_input(event);
        assert!(!redraw);
        assert_eq!(game.state, State::GameOver);
        assert!(game.is_over());
        assert_eq!(game.matrix().data, game_on(rows).matrix().data);
    }
}

#[test]
fn resize_asks_for_a_new_drawing() {
    let rows = [[2, 2, 0, 0], [0; 4], [0; 4], [0; 4]];
    let mut game = game_on(rows);
    assert!(game.handle_input(Event::Resize));
    assert_eq!(game.state, State::Running);
    assert_eq!(game.matrix().data, game_on(rows).matrix().data);
}

#[test]
fn ignored_events_change_nothing() {
    let rows = [[2, 2, 0, 0], [0; 4], [0; 4], [0; 4]];
    let ignored =
        [Event::FocusGained, Event::FocusLost, Event::Mouse, Event::Paste, key(Key::Other)];
    for event in ignored {
        let mut game = game_on(rows);
        assert!(!game.handle_input(event));
        assert_eq!(game.state, State::Running);
        assert_eq!(game.matrix().data, game_on(rows).matrix().data);
    }
}

#[test]
fn game_is_over_when_no_move_is_left() {
    let rows = [[2, 4, 2, 4], [4, 2, 4, 2], [2, 4, 2, 4], [4, 2, 4, 2]];
    for event in [key(Key::Left), key(Key::Up), Event::Resize, Event::Mouse] {
        let mut game = game_on(rows);
        let redraw = game.handle_input(event);
        assert_eq!(redraw, event == Event::Resize);
        assert_eq!(game.state, State::GameOver);
        assert_eq!(game.matrix().data, game_on(rows).matrix().data);
    }
}

#[test]
fn full_grid_with_a_move_left_goes_on() {
    let mut game = game_on([[2, 4, 2, 4], [4, 2, 4, 2], [2, 4, 2, 4], [4, 2, 8, 8]]);
    // nothing moves upward, but a move to the side is left
    assert!(!game.handle_input(key(Key::Up)));
    assert_eq!(game.state, State::Running);
    assert!(game.handle_input(key(Key::Right)));
    assert_eq!(game.state, State::Running);
    assert_eq!(game.matrix().data[3][3], 16);
    assert_eq!(tiles(&game), 16);
}

#[test]
fn accepts_refuses_a_move_that_would_overflow() {
    let top = 1u32 << 31;
    let game = game_on([[top, top, 0, 0], [0; 4], [0; 4], [0; 4]]);
    assert!(!game.accepts(key(Key::Left)));
    assert!(!game.accepts(key(Key::Right)));
    assert!(game.accepts(key(Key::Up)));
    assert!(game.accepts(key(Key::Down)));
    assert!(game.accepts(key(Key::Char('q'))));
    assert!(game.accepts(Event::Resize));
    assert!(Game::new().accepts(key(Key::Left)));
}

#[test]
fn drawing_starts_so_that_it_stands_in_the_middle() {
    let game = Game::new();
    assert_eq!(game.draw(80, 24), (28, 8));
    assert_eq!(game.draw(25, 9), (0, 0));
    assert_eq!(game.draw(24, 8), (0, 0));
    assert_eq!(game.draw(101, 51), (38, 21));
}

#[test]
fn a_game_played_at_random_ends() {
    let mut game = Game::new();
    game.init();
    let moves = [Key::Left, Key::Up, Key::Right, Key::Down];
    let mut turn = 0;
    while game.state != State::GameOver && turn < 100_000 {
        let before = total(&game);
        let redraw = game.handle_input(key(moves[turn % 4]));
        if redraw {
            assert!(total(&game) == before + 2 || total(&game) == before + 4);
        } else {
            assert_eq!(total(&game), before);
        }
        turn += 1;
    }
    assert_eq!(game.state, State::GameOver);
    assert_eq!(tiles(&game), 16);
}
