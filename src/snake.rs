use vstd::prelude::*;
use vstd::arithmetic::div_mod::{
    lemma_div_pos_is_pos,
    lemma_fundamental_div_mod,
    lemma_fundamental_div_mod_converse,
    lemma_mod_pos_bound,
    lemma_multiply_divide_lt,
};
use crate::chance::random_below;

verus! {

/// The largest width or height a game may have: every cell, and the cell one
/// step beyond the grid, must be an `i16`.
pub const MAX_SIDE: u16 = 32767;

#[derive(Debug, Clone, Copy, PartialEq, Eq, Structural)]
pub enum Direction {
    Up,
    Down,
    Left,
    Right,
}

/// A grid cell; `y` grows downwards.
#[derive(Debug, Clone, Copy, PartialEq, Eq, Structural)]
pub struct Location {
    pub x: i16,
    pub y: i16,
}

/// What the snake senses after a step that kept the game going.
#[derive(Debug, Clone, Copy, PartialEq, Eq, Structural)]
pub struct GameStats {
    pub distance_to_obstacle_up: i16,
    pub distance_to_obstacle_right: i16,
    pub distance_to_obstacle_down: i16,
    pub distance_to_obstacle_left: i16,
    pub distance_to_food_x: i16,
    pub distance_to_food_y: i16,
    pub score: u32,
}

#[derive(Debug, Clone, Copy, PartialEq, Eq, Structural)]
pub enum GameStatus {
    InProgress(GameStats),
    Over,
}

/// The state of a game as the contracts see it.
pub struct GameModel {
    pub width: int,
    pub height: int,
    /// Tail first, head last.
    pub snake: Seq<Location>,
    pub direction: Direction,
    pub food: Location,
    pub in_progress: bool,
}

pub open spec fn in_grid(l: Location, width: int, height: int) -> bool {
    0 <= l.x < width && 0 <= l.y < height
}

/// A cell that can lie in a grid of at most `MAX_SIDE` columns and rows.
pub open spec fn cell_ok(l: Location) -> bool {
    0 <= l.x < MAX_SIDE && 0 <= l.y < MAX_SIDE
}

pub open spec fn adjacent(a: Location, b: Location) -> bool {
    ||| a.x == b.x && (a.y - b.y == 1 || b.y - a.y == 1)
    ||| a.y == b.y && (a.x - b.x == 1 || b.x - a.x == 1)
}

pub open spec fn step_from(l: Location, d: Direction) -> Location {
    match d {
        Direction::Up => Location { x: l.x, y: (l.y - 1) as i16 },
        Direction::Down => Location { x: l.x, y: (l.y + 1) as i16 },
        Direction::Left => Location { x: (l.x - 1) as i16, y: l.y },
        Direction::Right => Location { x: (l.x + 1) as i16, y: l.y },
    }
}

/// How far `seg` lies from `head` in direction `d`, when it lies on that
/// side of `head` in the same column or row.
pub open spec fn gap(seg: Location, head: Location, d: Direction) -> Option<int> {
    match d {
        Direction::Up => if seg.x == head.x && seg.y <= head.y {
            Some(head.y - seg.y)
        } else {
            None
        },
        Direction::Down => if seg.x == head.x && seg.y >= head.y {
            Some(seg.y - head.y)
        } else {
            None
        },
        Direction::Left => if seg.y == head.y && seg.x <= head.x {
            Some(head.x - seg.x)
        } else {
            None
        },
        Direction::Right => if seg.y == head.y && seg.x >= head.x {
            Some(seg.x - head.x)
        } else {
            None
        },
    }
}

/// `wall`, the distance to the wall in direction `d`, narrowed to the
/// nearest segment of `body` in that direction.
pub open spec fn narrowed(body: Seq<Location>, head: Location, d: Direction, wall: int) -> int
    decreases body.len(),
{
    if body.len() == 0 {
        wall
    } else {
        let rest = narrowed(body.drop_last(), head, d, wall);
        match gap(body.last(), head, d) {
            Some(g) => if g < rest {
                g
            } else {
                rest
            },
            None => rest,
        }
    }
}

/// Cell `i` of a grid `width` wide, counted row by row.
pub open spec fn grid_cell(i: int, width: int) -> Location {
    Location { x: (i % width) as i16, y: (i / width) as i16 }
}

/// How many of the first `i` cells of the grid, row by row, the snake leaves free.
pub open spec fn free_before(snake: Seq<Location>, width: int, i: int) -> nat
    decreases i,
{
    if i <= 0 {
        0
    } else {
        free_before(snake, width, i - 1) + if snake.contains(grid_cell(i - 1, width)) {
            0nat
        } else {
            1nat
        }
    }
}

impl GameModel {
    pub open spec fn head(self) -> Location {
        self.snake.last()
    }

    pub open spec fn sized(self) -> bool {
        &&& 0 <= self.width <= MAX_SIDE
        &&& 0 <= self.height <= MAX_SIDE
    }

    pub open spec fn wf(self) -> bool {
        &&& self.sized()
        &&& self.snake.len() >= 1
        &&& forall|i: int| 0 <= i < self.snake.len() ==> cell_ok(#[trigger] self.snake[i])
        &&& forall|i: int, j: int|
            0 <= i < j < self.snake.len() ==> #[trigger] self.snake[i] != #[trigger] self.snake[j]
        &&& forall|i: int|
            0 <= i < self.snake.len() - 1 ==> adjacent(#[trigger] self.snake[i], self.snake[i + 1])
        &&& cell_ok(self.food)
        &&& self.in_progress ==> !self.snake.contains(self.food)
    }

    pub open spec fn next_head(self) -> Location {
        step_from(self.head(), self.direction)
    }

    /// The next head would be one of the cells that stay occupied once the
    /// tail has moved on.
    pub open spec fn bites_itself(self) -> bool {
        exists|i: int| 1 <= i < self.snake.len() && #[trigger] self.snake[i] == self.next_head()
    }

    /// The next step ends the game.
    pub open spec fn blocked(self) -> bool {
        ||| !in_grid(self.next_head(), self.width, self.height)
        ||| self.bites_itself()
    }

    /// The free cells of the grid.
    pub open spec fn free_cells(self) -> nat {
        free_before(self.snake, self.width, self.width * self.height)
    }

    pub open spec fn stats(self) -> GameStats {
        let h = self.head();
        let body = self.snake.drop_last();
        GameStats {
            distance_to_obstacle_up: narrowed(body, h, Direction::Up, h.y as int) as i16,
            distance_to_obstacle_right: narrowed(body, h, Direction::Right, self.width - h.x) as i16,
            distance_to_obstacle_down: narrowed(body, h, Direction::Down, self.height - h.y) as i16,
            distance_to_obstacle_left: narrowed(body, h, Direction::Left, h.x as int) as i16,
            distance_to_food_x: (h.x - self.food.x) as i16,
            distance_to_food_y: (h.y - self.food.y) as i16,
            score: self.snake.len() as u32,
        }
    }
}

pub struct Game {
    width: u16,
    height: u16,
    tile_size: u16,
    /// Tail first, head last.
    snake: Vec<Location>,
    snake_direction: Direction,
    food_loc: Location,
    game_in_progress: bool,
}

impl View for Game {
    type V = GameModel;

    closed spec fn view(&self) -> GameModel {
        GameModel {
            width: self.width as int,
            height: self.height as int,
            snake: self.snake@,
            direction: self.snake_direction,
            food: self.food_loc,
            in_progress: self.game_in_progress,
        }
    }
}

/// The narrowing by one more segment.
proof fn lemma_narrowed_step(body: Seq<Location>, k: int, head: Location, d: Direction, wall: int)
    requires
        0 <= k < body.len(),
    ensures
        narrowed(body.take(k + 1), head, d, wall) == ({
            let rest = narrowed(body.take(k), head, d, wall);
            match gap(body[k], head, d) {
                Some(g) => if g < rest {
                    g
                } else {
                    rest
                },
                None => rest,
            }
        }),
{
    assert(body.take(k + 1).drop_last() =~= body.take(k));
}

/// A narrowed distance stays between zero and the wall's distance.
proof fn lemma_narrowed_bounds(body: Seq<Location>, head: Location, d: Direction, wall: int)
    requires
        0 <= wall,
    ensures
        0 <= narrowed(body, head, d, wall) <= wall,
    decreases body.len(),
{
    if body.len() > 0 {
        lemma_narrowed_bounds(body.drop_last(), head, d, wall);
    }
}

/// Grid cell `i` lies in the grid.
proof fn lemma_grid_cell(i: int, width: int, height: int)
    requires
        0 <= i < width * height,
        0 <= width <= MAX_SIDE,
        height <= MAX_SIDE,
    ensures
        in_grid(grid_cell(i, width), width, height),
        cell_ok(grid_cell(i, width)),
{
    assert(width > 0) by (nonlinear_arith)
        requires
            0 <= i < width * height,
            0 <= width,
    ;
    lemma_multiply_divide_lt(i, width, height);
    lemma_div_pos_is_pos(i, width);
    lemma_mod_pos_bound(i, width);
}

/// The move that a controller's output `choice` stands for:
/// 0 up, 1 right, 2 down, 3 left; other outputs name no move.
pub fn direction_of_choice(choice: usize) -> (d: Option<Direction>)
    ensures
        choice == 0 ==> d == Some(Direction::Up),
        choice == 1 ==> d == Some(Direction::Right),
        choice == 2 ==> d == Some(Direction::Down),
        choice == 3 ==> d == Some(Direction::Left),
        choice > 3 ==> d is None,
{
    match choice {
        0 => Some(Direction::Up),
        1 => Some(Direction::Right),
        2 => Some(Direction::Down),
        3 => Some(Direction::Left),
        _ => None,
    }
}

/// A free cell of the grid is counted among the free cells.
proof fn lemma_free_cell_counted(snake: Seq<Location>, width: int, height: int, l: Location)
    requires
        0 < width <= MAX_SIDE,
        0 <= height <= MAX_SIDE,
        in_grid(l, width, height),
        !snake.contains(l),
    ensures
        free_before(snake, width, width * height) >= 1,
{
    let i = l.y * width + l.x;
    lemma_fundamental_div_mod_converse(i, width, l.y as int, l.x as int);
    assert(grid_cell(i, width) == l);
    assert(i < width * height) by (nonlinear_arith)
        requires
            i == l.y * width + l.x,
            0 <= l.x < width,
            0 <= l.y < height,
    ;
    assert(0 <= i) by (nonlinear_arith)
        requires
            i == l.y * width + l.x,
            0 <= l.x,
            0 <= l.y,
            0 < width,
    ;
    assert(free_before(snake, width, i + 1) >= 1);
    lemma_free_before_grows(snake, width, i + 1, width * height);
}

/// A snake of distinct cells, all in the grid and fewer than the grid's
/// cells, leaves a free cell.
proof fn lemma_grid_not_full(snake: Seq<Location>, width: int, height: int)
    requires
        0 < width <= MAX_SIDE,
        0 <= height <= MAX_SIDE,
        forall|i: int| 0 <= i < snake.len() ==> in_grid(#[trigger] snake[i], width, height),
        forall|i: int, j: int| 0 <= i < j < snake.len() ==> #[trigger] snake[i] != #[trigger] snake[j],
        snake.len() < width * height,
    ensures
        free_before(snake, width, width * height) >= 1,
{
    if !(exists|l: Location| in_grid(l, width, height) && !snake.contains(l)) {
        let idx = snake.map_values(|l: Location| l.y * width + l.x);
        let img = idx.to_set();
        let full = vstd::set_lib::set_int_range(0, width * height);
        assert forall|v: int| full.contains(v) implies img.contains(v) by {
            lemma_grid_cell(v, width, height);
            let l = grid_cell(v, width);
            assert(!(in_grid(l, width, height) && !snake.contains(l)));
            let k = choose|k: int| 0 <= k < snake.len() && snake[k] == l;
            lemma_fundamental_div_mod(v, width);
            lemma_multiply_divide_lt(v, width, height);
            lemma_div_pos_is_pos(v, width);
            lemma_mod_pos_bound(v, width);
            assert(l.y == v / width && l.x == v % width);
            assert(idx[k] == l.y * width + l.x);
            assert(l.y * width == width * (v / width)) by (nonlinear_arith)
                requires
                    l.y == v / width,
            ;
            assert(idx[k] == v);
        }
        assert(idx.no_duplicates()) by {
            assert forall|i: int, j: int|
                0 <= i < idx.len() && 0 <= j < idx.len() && i != j implies #[trigger] idx[i]
                != #[trigger] idx[j] by {
                let a = snake[i];
                let b = snake[j];
                if idx[i] == idx[j] {
                    lemma_fundamental_div_mod_converse(idx[i], width, a.y as int, a.x as int);
                    lemma_fundamental_div_mod_converse(idx[j], width, b.y as int, b.x as int);
                    if i < j {
                        assert(snake[i] != snake[j]);
                    } else {
                        assert(snake[j] != snake[i]);
                    }
                }
            }
        }
        idx.unique_seq_to_set();
        vstd::set_lib::lemma_int_range(0, width * height);
        vstd::set_lib::lemma_len_subset(full, img);
        assert(false);
    }
    let l = choose|l: Location| in_grid(l, width, height) && !snake.contains(l);
    lemma_free_cell_counted(snake, width, height, l);
}

/// Food eaten by a snake that lies in the grid and, grown, still leaves a
/// cell of the grid free, is put on a free cell: the game goes on.
pub proof fn lemma_eating_keeps_going(game: GameModel)
    requires
        game.wf(),
        game.in_progress,
        !game.blocked(),
        game.next_head() == game.food,
        forall|i: int| 0 <= i < game.snake.len() ==> in_grid(#[trigger] game.snake[i], game.width, game.height),
        game.snake.len() + 1 < game.width * game.height,
    ensures
        (GameModel { snake: game.snake.push(game.next_head()), ..game }).free_cells() >= 1,
{
    let grown = game.snake.push(game.next_head());
    assert(game.width > 0);
    assert forall|i: int| 0 <= i < grown.len() implies in_grid(#[trigger] grown[i], game.width, game.height) by {
        if i < game.snake.len() {
            assert(grown[i] == game.snake[i]);
        }
    }
    assert forall|i: int, j: int| 0 <= i < j < grown.len() implies #[trigger] grown[i] != #[trigger] grown[j] by {
        if j == grown.len() - 1 {
            assert(grown[i] == game.snake[i]);
            assert(game.snake.contains(game.snake[i]));
        } else {
            assert(grown[i] == game.snake[i]);
            assert(grown[j] == game.snake[j]);
        }
    }
    lemma_grid_not_full(grown, game.width, game.height);
}

/// A fresh one-cell snake away from every wall survives its first step:
/// nothing blocks it, and if it eats, the grid still has a free cell, so
/// `step` returns `InProgress`.
pub proof fn lemma_first_step_keeps_going(game: GameModel)
    requires
        game.wf(),
        game.in_progress,
        game.snake.len() == 1,
        1 <= game.head().x < game.width - 1,
        1 <= game.head().y < game.height - 1,
    ensures
        !game.blocked(),
        game.next_head() == game.food ==> (GameModel {
            snake: game.snake.push(game.next_head()),
            ..game
        }).free_cells() >= 1,
{
    let h = game.head();
    let grown = game.snake.push(game.next_head());
    let spare = match game.direction {
        Direction::Left | Direction::Right => Location { x: h.x, y: (h.y + 1) as i16 },
        _ => Location { x: (h.x + 1) as i16, y: h.y },
    };
    assert(!grown.contains(spare)) by {
        if grown.contains(spare) {
            let k = choose|k: int| 0 <= k < grown.len() && grown[k] == spare;
            assert(k == 0 || k == 1);
        }
    }
    lemma_free_cell_counted(grown, game.width, game.height, spare);
}

impl Game {
    /// A game on a `width` x `height` grid: a snake of three cells along the
    /// top row heading right, food at column 10, row 15.
    pub fn new(width: u16, height: u16, tile_size: u16) -> (g: Game)
        requires
            width <= MAX_SIDE,
            height <= MAX_SIDE,
        ensures
            g@.wf(),
            g@.width == width,
            g@.height == height,
            g@.snake == seq![Location { x: 0, y: 0 }, Location { x: 1, y: 0 }, Location { x: 2, y: 0 }],
            g@.direction == Direction::Right,
            g@.food == (Location { x: 10, y: 15 }),
            g@.in_progress,
    {
        let mut snake: Vec<Location> = Vec::new();
        snake.push(Location { x: 0, y: 0 });
        snake.push(Location { x: 1, y: 0 });
        snake.push(Location { x: 2, y: 0 });
        let g = Game {
            width,
            height,
            tile_size,
            snake,
            snake_direction: Direction::Right,
            food_loc: Location { x: 10, y: 15 },
            game_in_progress: true,
        };
        assert(g@.snake =~= seq![Location { x: 0, y: 0 }, Location { x: 1, y: 0 }, Location { x: 2, y: 0 }]);
        g
    }

    /// A game whose snake is the single cell `start`, heading `direction`,
    /// with food at `food`.
    pub fn starting_at(
        width: u16,
        height: u16,
        tile_size: u16,
        start: Location,
        direction: Direction,
        food: Location,
    ) -> (g: Game)
        requires
            width <= MAX_SIDE,
            height <= MAX_SIDE,
            in_grid(start, width as int, height as int),
            in_grid(food, width as int, height as int),
            start != food,
        ensures
            g@.wf(),
            g@.width == width,
            g@.height == height,
            g@.snake == seq![start],
            g@.direction == direction,
            g@.food == food,
            g@.in_progress,
    {
        let mut snake: Vec<Location> = Vec::new();
        snake.push(start);
        let g = Game {
            width,
            height,
            tile_size,
            snake,
            snake_direction: direction,
            food_loc: food,
            game_in_progress: true,
        };
        assert(g@.snake =~= seq![start]);
        g
    }

    pub fn get_snake_head_location(&self) -> (l: Location)
        requires
            self@.wf(),
        ensures
            l == self@.head(),
    {
        self.snake[self.snake.len() - 1]
    }

    pub fn get_food_location(&self) -> (l: Location)
        ensures
            l == self@.food,
    {
        self.food_loc
    }

    /// The cells of the snake, tail first.
    pub fn get_snake(&self) -> (s: &[Location])
        ensures
            s@ == self@.snake,
    {
        self.snake.as_slice()
    }

    pub fn get_tile_size(&self) -> u16 {
        self.tile_size
    }

    /// The direction the next step takes.
    pub fn turn_snake(&mut self, direction: Direction)
        ensures
            final(self)@ == (GameModel { direction, ..old(self)@ }),
    {
        self.snake_direction = direction;
    }

    pub fn get_width(&self) -> (w: u16)
        ensures
            w == self@.width,
    {
        self.width
    }

    pub fn get_height(&self) -> (h: u16)
        ensures
            h == self@.height,
    {
        self.height
    }

    /// Whether a snake cell from index `from` on is `loc`.
    fn occupied_from(&self, loc: Location, from: usize) -> (r: bool)
        ensures
            r == exists|i: int| from <= i < self@.snake.len() && #[trigger] self@.snake[i] == loc,
    {
        let mut i: usize = from;
        while i < self.snake.len()
            invariant
                from <= i,
                forall|j: int| from <= j < i && j < self@.snake.len() ==> #[trigger] self@.snake[j] != loc,
            decreases self@.snake.len() - i,
        {
            if self.snake[i] == loc {
                assert(self@.snake[i as int] == loc);
                return true;
            }
            i = i + 1;
        }
        false
    }

    /// The number of grid cells that the snake leaves free.
    pub fn free_cell_count(&self) -> (n: usize)
        requires
            self@.sized(),
        ensures
            n == self@.free_cells(),
    {
        proof {
            assert(self.width * self.height <= MAX_SIDE * MAX_SIDE) by (nonlinear_arith)
                requires
                    self.width <= MAX_SIDE,
                    self.height <= MAX_SIDE,
            ;
        }
        let total = (self.width as usize) * (self.height as usize);
        let mut n: usize = 0;
        let mut i: usize = 0;
        while i < total
            invariant
                self@.sized(),
                total == self@.width * self@.height,
                total <= MAX_SIDE * MAX_SIDE,
                i <= total,
                n == free_before(self@.snake, self@.width, i as int),
                n <= i,
            decreases total - i,
        {
            proof {
                lemma_grid_cell(i as int, self.width as int, self.height as int);
            }
            let w = self.width as usize;
            let cell = Location { x: (i % w) as i16, y: (i / w) as i16 };
            assert(cell == grid_cell(i as int, self@.width));
            let taken = self.occupied_from(cell, 0);
            if !taken {
                n = n + 1;
            }
            proof {
                if taken {
                    assert(self@.snake.contains(cell));
                } else {
                    assert(!self@.snake.contains(cell)) by {
                        if self@.snake.contains(cell) {
                            let j = choose|j: int| 0 <= j < self@.snake.len() && self@.snake[j] == cell;
                            assert(self@.snake[j] == cell);
                        }
                    }
                }
            }
            i = i + 1;
        }
        n
    }

    /// The free cell with `pick` free cells before it, row by row; none
    /// when the grid has no more than `pick` free cells.
    pub fn choose_free_cell(&self, pick: usize) -> (r: Option<Location>)
        requires
            self@.sized(),
        ensures
            r is Some <==> pick < self@.free_cells(),
            r matches Some(l) ==> exists|i: int|
                0 <= i < self@.width * self@.height && l == grid_cell(i, self@.width)
                    && !self@.snake.contains(l) && free_before(self@.snake, self@.width, i) == pick,
            r matches Some(l) ==> in_grid(l, self@.width, self@.height) && cell_ok(l)
                && !self@.snake.contains(l),
    {
        proof {
            assert(self.width * self.height <= MAX_SIDE * MAX_SIDE) by (nonlinear_arith)
                requires
                    self.width <= MAX_SIDE,
                    self.height <= MAX_SIDE,
            ;
        }
        let total = (self.width as usize) * (self.height as usize);
        let mut seen: usize = 0;
        let mut i: usize = 0;
        while i < total
            invariant
                self@.sized(),
                total == self@.width * self@.height,
                total <= MAX_SIDE * MAX_SIDE,
                i <= total,
                seen == free_before(self@.snake, self@.width, i as int),
                seen <= pick,
            decreases total - i,
        {
            proof {
                lemma_grid_cell(i as int, self.width as int, self.height as int);
            }
            let w = self.width as usize;
            let cell = Location { x: (i % w) as i16, y: (i / w) as i16 };
            assert(cell == grid_cell(i as int, self@.width));
            let taken = self.occupied_from(cell, 0);
            if !taken {
                assert(!self@.snake.contains(cell)) by {
                    if self@.snake.contains(cell) {
                        let j = choose|j: int| 0 <= j < self@.snake.len() && self@.snake[j] == cell;
                        assert(self@.snake[j] == cell);
                    }
                }
                if seen == pick {
                    assert(free_before(self@.snake, self@.width, i as int) == pick);
                    proof {
                        lemma_free_before_grows(self@.snake, self@.width, i as int + 1, total as int);
                    }
                    return Some(cell);
                }
                seen = seen + 1;
            } else {
                assert(self@.snake.contains(cell));
            }
            i = i + 1;
        }
        None
    }

    /// One tick. A finished game stays finished. Otherwise the head moves one
    /// cell in the current direction; leaving the grid, or running into a cell
    /// that stays occupied once the tail moves on, ends the game and changes
    /// nothing else. A move onto the food keeps the tail, so the snake grows,
    /// and puts the food on a free cell drawn uniformly (a full grid ends the
    /// game); any other move drops the tail. A move that keeps the game going
    /// returns what the snake senses from its new head.
    pub fn step(&mut self) -> (r: GameStatus)
        requires
            old(self)@.wf(),
        ensures
            final(self)@.wf(),
            final(self)@.in_progress ==> !final(self)@.snake.contains(final(self)@.food),
            r == GameStatus::Over <==> !final(self)@.in_progress,
            !old(self)@.in_progress ==> r == GameStatus::Over && final(self)@ == old(self)@,
            old(self)@.in_progress && old(self)@.blocked() ==> r == GameStatus::Over && final(self)@
                == (GameModel { in_progress: false, ..old(self)@ }),
            old(self)@.in_progress && !old(self)@.blocked() && old(self)@.next_head()
                != old(self)@.food ==> final(self)@ == (GameModel {
                snake: old(self)@.snake.drop_first().push(old(self)@.next_head()),
                ..old(self)@
            }) && r == GameStatus::InProgress(final(self)@.stats()),
            old(self)@.in_progress && !old(self)@.blocked() && old(self)@.next_head()
                == old(self)@.food ==> {
                &&& final(self)@.snake == old(self)@.snake.push(old(self)@.next_head())
                &&& final(self)@.width == old(self)@.width
                &&& final(self)@.height == old(self)@.height
                &&& final(self)@.direction == old(self)@.direction
                &&& final(self)@.in_progress ==> in_grid(
                    final(self)@.food,
                    final(self)@.width,
                    final(self)@.height,
                ) && r == GameStatus::InProgress(final(self)@.stats())
                &&& final(self)@.in_progress <==> final(self)@.free_cells() > 0
            },
    {
        if !self.game_in_progress {
            return GameStatus::Over;
        }
        let ghost start = self@;
        let old_front = self.get_snake_head_location();
        assert(cell_ok(start.snake[start.snake.len() - 1]));
        let new_front = match self.snake_direction {
            Direction::Up => Location { x: old_front.x, y: old_front.y - 1 },
            Direction::Down => Location { x: old_front.x, y: old_front.y + 1 },
            Direction::Left => Location { x: old_front.x - 1, y: old_front.y },
            Direction::Right => Location { x: old_front.x + 1, y: old_front.y },
        };
        assert(new_front == start.next_head());
        let out_of_bounds = new_front.x < 0 || new_front.y < 0 || new_front.x as i32
            >= self.width as i32 || new_front.y as i32 >= self.height as i32;
        let collision_with_self = self.occupied_from(new_front, 1);
        if out_of_bounds || collision_with_self {
            self.game_in_progress = false;
            return GameStatus::Over;
        }
        let grows = new_front == self.food_loc;
        self.snake.push(new_front);
        if !grows {
            self.snake.remove(0);
        }
        proof {
            if !grows {
                assert(self@.snake =~= start.snake.push(start.next_head()).drop_first());
            }
            lemma_moved_wf(start, self@.snake, grows);
        }
        if grows {
            let free = self.free_cell_count();
            if free == 0 {
                self.game_in_progress = false;
                return GameStatus::Over;
            }
            let pick = random_below(free);
            self.food_loc = self.choose_free_cell(pick).unwrap();
        }
        self.sense()
    }

    /// The readings after a move.
    #[verifier::rlimit(40)]
    fn sense(&self) -> (r: GameStatus)
        requires
            self@.wf(),
        ensures
            r == GameStatus::InProgress(self@.stats()),
    {
        let ghost m = self@;
        let head = self.get_snake_head_location();
        let body_len = self.snake.len() - 1;
        let ghost body = m.snake.drop_last();
        let mut up: i16 = head.y;
        let mut right: i16 = self.width as i16 - head.x;
        let mut down: i16 = self.height as i16 - head.y;
        let mut left: i16 = head.x;
        let mut i: usize = 0;
        while i < body_len
            invariant
                m == self@,
                m.wf(),
                head == m.head(),
                body == m.snake.drop_last(),
                body_len == body.len(),
                i <= body_len,
                up as int == narrowed(body.take(i as int), head, Direction::Up, head.y as int),
                right as int == narrowed(body.take(i as int), head, Direction::Right, m.width - head.x),
                down as int == narrowed(body.take(i as int), head, Direction::Down, m.height - head.y),
                left as int == narrowed(body.take(i as int), head, Direction::Left, head.x as int),
            decreases body_len - i,
        {
            let seg = self.snake[i];
            assert(seg == body[i as int]);
            assert(cell_ok(m.snake[i as int]));
            proof {
                lemma_narrowed_step(body, i as int, head, Direction::Up, head.y as int);
                lemma_narrowed_step(body, i as int, head, Direction::Right, m.width - head.x);
                lemma_narrowed_step(body, i as int, head, Direction::Down, m.height - head.y);
                lemma_narrowed_step(body, i as int, head, Direction::Left, head.x as int);
            }
            up = narrow_by(up, seg, head, Direction::Up);
            right = narrow_by(right, seg, head, Direction::Right);
            down = narrow_by(down, seg, head, Direction::Down);
            left = narrow_by(left, seg, head, Direction::Left);
            i = i + 1;
        }
        proof {
            assert(body.take(body_len as int) =~= body);
        }
        let stats = GameStats {
            distance_to_obstacle_up: up,
            distance_to_obstacle_right: right,
            distance_to_obstacle_down: down,
            distance_to_obstacle_left: left,
            distance_to_food_x: head.x - self.food_loc.x,
            distance_to_food_y: head.y - self.food_loc.y,
            score: self.snake.len() as u32,
        };
        GameStatus::InProgress(stats)
    }
}

/// `current` narrowed to the gap between `seg` and `head` in direction `d`.
fn narrow_by(current: i16, seg: Location, head: Location, d: Direction) -> (r: i16)
    requires
        cell_ok(seg),
        cell_ok(head),
    ensures
        r == match gap(seg, head, d) {
            Some(g) => if g < current {
                g
            } else {
                current as int
            },
            None => current as int,
        },
{
    let g: Option<i16> = match d {
        Direction::Up => if seg.x == head.x && seg.y <= head.y {
            Some(head.y - seg.y)
        } else {
            None
        },
        Direction::Down => if seg.x == head.x && seg.y >= head.y {
            Some(seg.y - head.y)
        } else {
            None
        },
        Direction::Left => if seg.y == head.y && seg.x <= head.x {
            Some(head.x - seg.x)
        } else {
            None
        },
        Direction::Right => if seg.y == head.y && seg.x >= head.x {
            Some(seg.x - head.x)
        } else {
            None
        },
    };
    match g {
        Some(g) => if g < current {
            g
        } else {
            current
        },
        None => current,
    }
}

/// Counting free cells further along never counts fewer.
proof fn lemma_free_before_grows(snake: Seq<Location>, width: int, i: int, j: int)
    requires
        0 <= i <= j,
    ensures
        free_before(snake, width, i) <= free_before(snake, width, j),
    decreases j - i,
{
    if i < j {
        lemma_free_before_grows(snake, width, i, j - 1);
    }
}

/// A move that the game allows keeps the snake well formed.
proof fn lemma_moved_wf(m: GameModel, snake: Seq<Location>, grows: bool)
    requires
        m.wf(),
        m.in_progress,
        !m.blocked(),
        grows == (m.next_head() == m.food),
        snake == if grows {
            m.snake.push(m.next_head())
        } else {
            m.snake.push(m.next_head()).drop_first()
        },
    ensures
        !grows ==> (GameModel { snake, ..m }).wf(),
        grows ==> (GameModel { snake, in_progress: false, ..m }).wf(),
        !grows ==> snake == m.snake.drop_first().push(m.next_head()),
        snake.len() >= 1,
        snake.last() == m.next_head(),
{
    let nh = m.next_head();
    let n = m.snake.len();
    assert(adjacent(m.snake[n - 1], nh));
    assert(cell_ok(nh));
    if !grows {
        assert(snake =~= m.snake.drop_first().push(nh));
        assert forall|i: int, j: int| 0 <= i < j < snake.len() implies #[trigger] snake[i]
            != #[trigger] snake[j] by {
            if j == snake.len() - 1 {
                assert(snake[i] == m.snake[i + 1]);
            } else {
                assert(snake[i] == m.snake[i + 1]);
                assert(snake[j] == m.snake[j + 1]);
            }
        }
        assert forall|i: int| 0 <= i < snake.len() - 1 implies adjacent(
            #[trigger] snake[i],
            snake[i + 1],
        ) by {
            assert(snake[i] == m.snake[i + 1]);
        }
        assert forall|i: int| 0 <= i < snake.len() implies cell_ok(#[trigger] snake[i]) by {
            if i < snake.len() - 1 {
                assert(snake[i] == m.snake[i + 1]);
            }
        }
        assert(!snake.contains(m.food)) by {
            if snake.contains(m.food) {
                let k = choose|k: int| 0 <= k < snake.len() && snake[k] == m.food;
                if k < snake.len() - 1 {
                    assert(snake[k] == m.snake[k + 1]);
                }
            }
        }
    } else {
        assert forall|i: int, j: int| 0 <= i < j < snake.len() implies #[trigger] snake[i]
            != #[trigger] snake[j] by {
            if j == snake.len() - 1 {
                assert(snake[i] == m.snake[i]);
                assert(m.snake.contains(m.snake[i]));
            }
        }
        assert forall|i: int| 0 <= i < snake.len() - 1 implies adjacent(
            #[trigger] snake[i],
            snake[i + 1],
        ) by {
            assert(snake[i] == m.snake[i]);
        }
        assert forall|i: int| 0 <= i < snake.len() implies cell_ok(#[trigger] snake[i]) by {
            if i < snake.len() - 1 {
                assert(snake[i] == m.snake[i]);
            }
        }
    }
}

} // verus!
