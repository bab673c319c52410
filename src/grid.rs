use vstd::prelude::*;

verus! {

/// Number of columns of a keyboard layout.
pub const WIDTH: usize = 10;

/// Number of rows of a keyboard layout.
pub const HEIGHT: usize = 4;

/// A cursor position `(x, y)`: column `x`, row `y`.
pub type Position = (usize, usize);

/// A rectangular table of keys, row by row.
pub type KeyboardLayout = [[char; WIDTH]; HEIGHT];

/// The reference layout.
pub const KEYS: KeyboardLayout = [
    ['1', '2', '3', '4', '5', '6', '7', '8', '9', '0'],
    ['Q', 'W', 'E', 'R', 'T', 'Y', 'U', 'I', 'O', 'P'],
    ['A', 'S', 'D', 'F', 'G', 'H', 'J', 'K', 'L', ';'],
    ['Z', 'X', 'C', 'V', 'B', 'N', 'M', ',', '.', '?'],
];

/// A position lies on the grid.
pub open spec fn valid_position(p: Position) -> bool {
    p.0 < WIDTH && p.1 < HEIGHT
}

/// The position that `(x, y)` denotes once wrapped around both edges.
pub open spec fn wrap(x: int, y: int) -> Position {
    ((x % (WIDTH as int)) as usize, (y % (HEIGHT as int)) as usize)
}

/// The key under a position.
pub open spec fn key_at(layout: KeyboardLayout, p: Position) -> char {
    layout@[p.1 as int]@[p.0 as int]
}

/// The key under a valid position.
pub fn key_under(layout: &KeyboardLayout, p: Position) -> (c: char)
    requires
        valid_position(p),
    ensures
        c == key_at(*layout, p),
{
    layout[p.1][p.0]
}

/// `p` comes no later than `q` in row-major order (row by row, left to right).
pub open spec fn precedes(p: Position, q: Position) -> bool {
    p.1 < q.1 || (p.1 == q.1 && p.0 <= q.0)
}

/// `p` holds `c`, and no position before it in row-major order does.
pub open spec fn first_occurrence(layout: KeyboardLayout, c: char, p: Position) -> bool {
    &&& valid_position(p)
    &&& key_at(layout, p) == c
    &&& forall|q: Position| valid_position(q) && key_at(layout, q) == c ==> precedes(p, q)
}

/// Some valid position holds `c`.
pub open spec fn on_grid(layout: KeyboardLayout, c: char) -> bool {
    exists|q: Position| valid_position(q) && key_at(layout, q) == c
}

/// The first position in row-major order that holds `c`, if any.
pub open spec fn grid_find(layout: KeyboardLayout, c: char) -> Option<Position> {
    if exists|p: Position| first_occurrence(layout, c, p) {
        Some(choose|p: Position| first_occurrence(layout, c, p))
    } else {
        None
    }
}

/// A found position holds the character and lies on the grid.
pub proof fn lemma_grid_find_some(layout: KeyboardLayout, c: char)
    requires
        grid_find(layout, c) is Some,
    ensures
        first_occurrence(layout, c, grid_find(layout, c)->0),
        valid_position(grid_find(layout, c)->0),
        key_at(layout, grid_find(layout, c)->0) == c,
{
}

/// Finds the first position in row-major order that holds `key`.
pub fn find_position(layout: &KeyboardLayout, key: char) -> (r: Option<Position>)
    ensures
        r == grid_find(*layout, key),
        r is None <==> !on_grid(*layout, key),
{
    let mut y: usize = 0;
    while y < HEIGHT
        invariant
            y <= HEIGHT,
            forall|q: Position| valid_position(q) && q.1 < y ==> key_at(*layout, q) != key,
        decreases HEIGHT - y,
    {
        let mut x: usize = 0;
        while x < WIDTH
            invariant
                y < HEIGHT,
                x <= WIDTH,
                forall|q: Position| valid_position(q) && q.1 < y ==> key_at(*layout, q) != key,
                forall|q: Position| valid_position(q) && q.1 == y && q.0 < x ==> key_at(*layout, q) != key,
            decreases WIDTH - x,
        {
            if key_under(layout, (x, y)) == key {
                let p: Position = (x, y);
                assert(first_occurrence(*layout, key, p));
                assert forall|o: Position| first_occurrence(*layout, key, o) implies o == p by {
                    assert(precedes(o, p) && precedes(p, o));
                }
                return Some(p);
            }
            x = x + 1;
        }
        y = y + 1;
    }
    assert(!exists|p: Position| first_occurrence(*layout, key, p));
    None
}

} // verus!
