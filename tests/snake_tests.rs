use snake_evolve::snake::{direction_of_choice, Direction, Game, GameStats, GameStatus, Location};

fn loc(x: i16, y: i16) -> Location {
    Location { x, y }
}

fn stats(status: GameStatus) -> GameStats {
    match status {
        GameStatus::InProgress(s) => s,
        GameStatus::Over => panic!("the game ended"),
    }
}

#[test]
fn new_game_layout() {
    let g = Game::new(50, 40, 16);
    assert_eq!(g.get_width(), 50);
    assert_eq!(g.get_height(), 40);
    assert_eq!(g.get_snake(), &[loc(0, 0), loc(1, 0), loc(2, 0)]);
    assert_eq!(g.get_snake_head_location(), loc(2, 0));
    assert_eq!(g.get_food_location(), loc(10, 15));
}

#[test]
fn first_step_away_from_walls_keeps_going() {
    let mut g = Game::starting_at(10, 10, 1, loc(5, 5), Direction::Up, loc(0, 0));
    assert!(matches!(g.step(), GameStatus::InProgress(_)));
    assert_eq!(g.get_snake_head_location(), loc(5, 4));
}

#[test]
fn five_steps_right_without_food() {
    let mut g = Game::starting_at(10, 10, 1, loc(2, 5), Direction::Right, loc(8, 1));
    for step in 1..=5i16 {
        let s = stats(g.step());
        let x = 2 + step;
        assert_eq!(
            s,
            GameStats {
                distance_to_obstacle_up: 5,
                distance_to_obstacle_right: 10 - x,
                distance_to_obstacle_down: 5,
                distance_to_obstacle_left: x,
                distance_to_food_x: x - 8,
                distance_to_food_y: 4,
                score: 1,
            }
        );
        assert_eq!(g.get_snake(), &[loc(x, 5)]);
    }
}

#[test]
fn body_narrows_obstacle_distances() {
    let mut g = Game::new(10, 10, 1);
    let s = stats(g.step());
    assert_eq!(g.get_snake(), &[loc(1, 0), loc(2, 0), loc(3, 0)]);
    assert_eq!(
        s,
        GameStats {
            distance_to_obstacle_up: 0,
            distance_to_obstacle_right: 7,
            distance_to_obstacle_down: 10,
            distance_to_obstacle_left: 1,
            distance_to_food_x: -7,
            distance_to_food_y: -15,
            score: 3,
        }
    );
    g.turn_snake(Direction::Down);
    let s = stats(g.step());
    assert_eq!(g.get_snake(), &[loc(2, 0), loc(3, 0), loc(3, 1)]);
    assert_eq!(
        s,
        GameStats {
            distance_to_obstacle_up: 1,
            distance_to_obstacle_right: 7,
            distance_to_obstacle_down: 9,
            distance_to_obstacle_left: 3,
            distance_to_food_x: -7,
            distance_to_food_y: -14,
            score: 3,
        }
    );
}

#[test]
fn turn_applies_on_next_step() {
    let mut g = Game::starting_at(10, 10, 1, loc(5, 5), Direction::Right, loc(0, 0));
    g.turn_snake(Direction::Down);
    assert_eq!(g.get_snake_head_location(), loc(5, 5));
    g.step();
    assert_eq!(g.get_snake_head_location(), loc(5, 6));
}

#[test]
fn leaving_the_grid_ends_the_game_for_good() {
    let mut g = Game::starting_at(3, 3, 1, loc(2, 1), Direction::Right, loc(0, 0));
    assert_eq!(g.step(), GameStatus::Over);
    assert_eq!(g.get_snake(), &[loc(2, 1)]);
    g.turn_snake(Direction::Left);
    assert_eq!(g.step(), GameStatus::Over);
    assert_eq!(g.get_snake(), &[loc(2, 1)]);
}

#[test]
fn biting_itself_ends_the_game_unchanged() {
    let mut g = Game::new(10, 10, 1);
    g.turn_snake(Direction::Left);
    assert_eq!(g.step(), GameStatus::Over);
    assert_eq!(g.get_snake(), &[loc(0, 0), loc(1, 0), loc(2, 0)]);
}

#[test]
fn eating_grows_and_moves_the_food() {
    let mut g = Game::starting_at(5, 5, 1, loc(1, 1), Direction::Right, loc(2, 1));
    let s = stats(g.step());
    assert_eq!(s.score, 2);
    assert_eq!(g.get_snake(), &[loc(1, 1), loc(2, 1)]);
    let food = g.get_food_location();
    assert!(food.x >= 0 && food.x < 5 && food.y >= 0 && food.y < 5);
    assert!(!g.get_snake().contains(&food));
}

#[test]
fn filling_the_grid_ends_the_game() {
    let mut g = Game::starting_at(2, 1, 1, loc(0, 0), Direction::Right, loc(1, 0));
    assert_eq!(g.step(), GameStatus::Over);
    assert_eq!(g.get_snake(), &[loc(0, 0), loc(1, 0)]);
    assert_eq!(g.free_cell_count(), 0);
}

#[test]
fn food_never_on_the_snake_over_random_steps() {
    let dirs = [Direction::Up, Direction::Right, Direction::Down, Direction::Left];
    for seed in 0..20u64 {
        let mut g = Game::starting_at(6, 6, 1, loc(2, 2), Direction::Right, loc(3, 2));
        let mut state = seed * 7919 + 13;
        for _ in 0..200 {
            state = state.wrapping_mul(6364136223846793005).wrapping_add(1442695040888963407);
            g.turn_snake(dirs[(state >> 33) as usize % 4]);
            match g.step() {
                GameStatus::InProgress(_) => {
                    assert!(!g.get_snake().contains(&g.get_food_location()));
                }
                GameStatus::Over => break,
            }
        }
    }
}

#[test]
fn free_cells_counted_and_chosen_row_by_row() {
    let g = Game::new(4, 2, 1);
    // the snake holds (0,0), (1,0), (2,0)
    assert_eq!(g.free_cell_count(), 5);
    assert_eq!(g.choose_free_cell(0), Some(loc(3, 0)));
    assert_eq!(g.choose_free_cell(1), Some(loc(0, 1)));
    assert_eq!(g.choose_free_cell(4), Some(loc(3, 1)));
    assert_eq!(g.choose_free_cell(5), None);
}

#[test]
fn outputs_map_to_directions() {
    assert_eq!(direction_of_choice(0), Some(Direction::Up));
    assert_eq!(direction_of_choice(1), Some(Direction::Right));
    assert_eq!(direction_of_choice(2), Some(Direction::Down));
    assert_eq!(direction_of_choice(3), Some(Direction::Left));
    assert_eq!(direction_of_choice(4), None);
}
