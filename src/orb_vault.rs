//! The vault puzzle: a grid of numbers and operators, walked from the
//! south-west corner to the north-east one. Each pair of moves enters an
//! operator cell and then a number cell, and applies the operator to a running
//! value and that number. A route must reach the goal with a given value.
//!
//! The search is depth first over pairs of moves, with iterative deepening,
//! and is proved to find a shortest route whenever one exists within the
//! bound it is given.

use vstd::prelude::*;
use crate::synacor_vm::{SynacorVM, VmState};
use crate::text::{chars_of, contains_str, has_sub, int_value, is_int_text, parse_i32, pieces_of, split_on, string_of};

verus! {

/// A running value beyond this magnitude ends a route.
pub const MAX_EVAL: i64 = 65536;

/// A cell of the vault grid.
#[derive(Clone, Copy, Debug, PartialEq, Eq, Structural)]
pub enum Cell {
    Num(i32),
    Add,
    Sub,
    Mul,
}

/// The model of a grid: cell (x, y) at index `x + width * y`, with y growing
/// to the north.
pub struct Grid {
    pub width: int,
    pub height: int,
    pub cells: Seq<Cell>,
}

/// A grid of cells, with its dimensions.
pub struct OrbVaultMap {
    width: usize,
    height: usize,
    cells: Vec<Cell>,
}

impl View for OrbVaultMap {
    type V = Grid;

    closed spec fn view(&self) -> Grid {
        Grid { width: self.width as int, height: self.height as int, cells: self.cells@ }
    }
}

pub open spec fn grid_wf(g: Grid) -> bool {
    &&& g.width >= 1
    &&& g.height >= 1
    &&& g.cells.len() == g.width * g.height
}

pub open spec fn in_grid(g: Grid, x: int, y: int) -> bool {
    0 <= x < g.width && 0 <= y < g.height
}

pub open spec fn cell_at(g: Grid, x: int, y: int) -> Cell {
    g.cells[x + g.width * y]
}

pub open spec fn at_goal(g: Grid, x: int, y: int) -> bool {
    x == g.width - 1 && y == g.height - 1
}

pub open spec fn is_dir(d: char) -> bool {
    d == 'n' || d == 'e' || d == 's' || d == 'w'
}

/// The four moves in the order the search tries them.
pub open spec fn dir(i: int) -> char {
    if i == 0 {
        'n'
    } else if i == 1 {
        'e'
    } else if i == 2 {
        's'
    } else {
        'w'
    }
}

pub open spec fn moved(x: int, y: int, d: char) -> (int, int) {
    if d == 'n' {
        (x, y + 1)
    } else if d == 'e' {
        (x + 1, y)
    } else if d == 's' {
        (x, y - 1)
    } else {
        (x - 1, y)
    }
}

/// An operator applied to a running value and a number.
pub open spec fn apply(op: Cell, acc: int, v: int) -> int {
    match op {
        Cell::Add => acc + v,
        Cell::Sub => acc - v,
        _ => acc * v,
    }
}

/// Where a route ends and its running value: `None` when a move leaves the
/// grid, a pair of moves does not enter an operator and then a number, the
/// route has odd length, or the start holds no number.
pub open spec fn walk(g: Grid, route: Seq<char>) -> Option<(int, int, int)>
    decreases route.len(),
{
    if route.len() == 0 {
        match cell_at(g, 0, 0) {
            Cell::Num(v) => Some((0, 0, v as int)),
            _ => None,
        }
    } else if route.len() == 1 {
        None
    } else {
        match walk(g, route.subrange(0, route.len() - 2)) {
            None => None,
            Some((x, y, acc)) => step_pair(g, x, y, acc, route[route.len() - 2], route[route.len() - 1]),
        }
    }
}

/// One pair of moves from (x, y) with running value `acc`.
pub open spec fn step_pair(g: Grid, x: int, y: int, acc: int, d1: char, d2: char) -> Option<(int, int, int)> {
    let (x1, y1) = moved(x, y, d1);
    let (x2, y2) = moved(x1, y1, d2);
    if is_dir(d1) && is_dir(d2) && in_grid(g, x1, y1) && in_grid(g, x2, y2) && !(cell_at(
        g,
        x1,
        y1,
    ) is Num) {
        match cell_at(g, x2, y2) {
            Cell::Num(v) => Some((x2, y2, apply(cell_at(g, x1, y1), acc, v as int))),
            _ => None,
        }
    } else {
        None
    }
}

/// A route that the search may follow: it walks the grid, and every route
/// it goes on from is passable, so it enters the goal only at its end and
/// its running value stays within `MAX_EVAL` until the last pair of moves.
pub open spec fn alive(g: Grid, route: Seq<char>) -> bool
    decreases route.len(),
{
    &&& walk(g, route) is Some
    &&& route.len() >= 2 ==> {
        let p = route.subrange(0, route.len() - 2);
        alive(g, p) && passable(g, p)
    }
}

/// Whether a route may go on: it walks the grid, ends off the goal, and its
/// running value lies within `MAX_EVAL`.
pub open spec fn passable(g: Grid, route: Seq<char>) -> bool {
    match walk(g, route) {
        Some((x, y, acc)) => !at_goal(g, x, y) && -MAX_EVAL <= acc <= MAX_EVAL,
        None => false,
    }
}

/// Whether a route walks the grid and ends at the goal.
pub open spec fn ends_at_goal(g: Grid, route: Seq<char>) -> bool {
    match walk(g, route) {
        Some((x, y, acc)) => at_goal(g, x, y),
        None => false,
    }
}

/// The running value at the end of a route that walks the grid.
pub open spec fn route_value(g: Grid, route: Seq<char>) -> int {
    match walk(g, route) {
        Some((x, y, acc)) => acc,
        None => 0,
    }
}

/// A route that reaches the goal with value `target`.
pub open spec fn solves(g: Grid, route: Seq<char>, target: int) -> bool {
    &&& alive(g, route)
    &&& ends_at_goal(g, route)
    &&& route_value(g, route) == target
}

proof fn lemma_walk_even(g: Grid, r: Seq<char>)
    requires
        walk(g, r) is Some,
    ensures
        r.len() % 2 == 0,
    decreases r.len(),
{
    if r.len() >= 2 {
        lemma_walk_even(g, r.subrange(0, r.len() - 2));
    }
}

/// A route's end lies no further from the start than its length.
proof fn lemma_walk_distance(g: Grid, r: Seq<char>)
    requires
        grid_wf(g),
        walk(g, r) is Some,
    ensures
        match walk(g, r) {
            Some((x, y, acc)) => x + y <= r.len() && in_grid(g, x, y),
            None => false,
        },
    decreases r.len(),
{
    if r.len() >= 2 {
        let p = r.subrange(0, r.len() - 2);
        lemma_walk_distance(g, p);
    }
}

/// Every prefix of an alive route that ends after a pair is alive, and all
/// but the route itself are passable.
proof fn lemma_alive_prefix(g: Grid, r: Seq<char>, k: int)
    requires
        alive(g, r),
        0 <= k <= r.len(),
        k % 2 == r.len() % 2,
    ensures
        alive(g, r.subrange(0, k)),
        k < r.len() ==> passable(g, r.subrange(0, k)),
    decreases r.len(),
{
    if k == r.len() {
        assert(r.subrange(0, k) =~= r);
    } else {
        let p = r.subrange(0, r.len() - 2);
        lemma_alive_prefix(g, p, k);
        assert(p.subrange(0, k) =~= r.subrange(0, k));
    }
}

/// A solving extension of a passable alive route goes on with a pair of
/// moves whose prefix is alive and is either the whole route or passable.
proof fn lemma_extension(g: Grid, route: Seq<char>, r: Seq<char>, target: int)
    requires
        alive(g, route),
        passable(g, route),
        route.len() <= r.len(),
        r.subrange(0, route.len() as int) == route,
        solves(g, r, target),
    ensures
        r.len() >= route.len() + 2,
        ({
            let q = r.subrange(0, route.len() as int + 2);
            &&& q.subrange(0, route.len() as int) == route
            &&& q[route.len() as int] == r[route.len() as int]
            &&& q[route.len() as int + 1] == r[route.len() as int + 1]
            &&& alive(g, q)
            &&& (q == r || passable(g, q))
        }),
{
    lemma_walk_even(g, r);
    lemma_walk_even(g, route);
    if r.len() == route.len() {
        assert(r =~= route);
    }
    let n = route.len() as int;
    lemma_alive_prefix(g, r, n + 2);
    let q = r.subrange(0, n + 2);
    assert(q.subrange(0, n) =~= route);
    if q.len() == r.len() {
        assert(q =~= r);
    }
}

impl OrbVaultMap {
    pub open spec fn wf(&self) -> bool {
        grid_wf(self@)
    }

    /// A grid of `width` columns and `height` rows, its cells listed row by
    /// row from the south; `None` unless there are exactly `width * height`
    /// cells and both dimensions are positive.
    pub fn new(width: usize, height: usize, cells: Vec<Cell>) -> (r: Option<OrbVaultMap>)
        ensures
            r matches Some(m) ==> m.wf() && m@ == (Grid {
                width: width as int,
                height: height as int,
                cells: cells@,
            }),
            r is None <==> !(width >= 1 && height >= 1 && cells.len() == width * height),
    {
        if width == 0 || height == 0 {
            return None;
        }
        match width.checked_mul(height) {
            Some(n) => if n == cells.len() {
                Some(OrbVaultMap { width, height, cells })
            } else {
                None
            },
            None => {
                assert(width * height > usize::MAX);
                None
            },
        }
    }

    pub fn width(&self) -> (r: usize)
        ensures
            r == self@.width,
    {
        self.width
    }

    pub fn height(&self) -> (r: usize)
        ensures
            r == self@.height,
    {
        self.height
    }

    fn cell(&self, x: usize, y: usize) -> (r: Cell)
        requires
            self.wf(),
            in_grid(self@, x as int, y as int),
        ensures
            r == cell_at(self@, x as int, y as int),
    {
        let w = self.width;
        let h = self.height;
        proof {
            assert(self.cells.len() == w * h);
            assert(w * y <= w * (h - 1)) by (nonlinear_arith)
                requires
                    y < h,
            ;
            assert(w * (h - 1) == w * h - w) by (nonlinear_arith);
        }
        self.cells[x + self.width * y]
    }
}

/// Where a move leads, if it stays in the grid.
fn move_in(map: &OrbVaultMap, x: usize, y: usize, d: char) -> (r: Option<(usize, usize)>)
    requires
        map.wf(),
        in_grid(map@, x as int, y as int),
    ensures
        r matches Some((nx, ny)) ==> is_dir(d) && (nx as int, ny as int) == moved(x as int, y as int, d)
            && in_grid(map@, nx as int, ny as int),
        r is None ==> !is_dir(d) || !({
            let (mx, my) = moved(x as int, y as int, d);
            in_grid(map@, mx, my)
        }),
{
    if d == 'n' {
        if y + 1 < map.height {
            Some((x, y + 1))
        } else {
            None
        }
    } else if d == 'e' {
        if x + 1 < map.width {
            Some((x + 1, y))
        } else {
            None
        }
    } else if d == 's' {
        if y > 0 {
            Some((x, y - 1))
        } else {
            None
        }
    } else if d == 'w' {
        if x > 0 {
            Some((x - 1, y))
        } else {
            None
        }
    } else {
        None
    }
}

fn apply_op(op: Cell, acc: i64, v: i32) -> (r: i64)
    requires
        -MAX_EVAL <= acc <= MAX_EVAL,
    ensures
        r == apply(op, acc as int, v as int),
{
    proof {
        assert(-0x1_0000_0000_0000 <= acc * v <= 0x1_0000_0000_0000) by (nonlinear_arith)
            requires
                -65536 <= acc <= 65536,
                -0x8000_0000 <= v <= 0x7fff_ffff,
        ;
    }
    match op {
        Cell::Add => acc + v as i64,
        Cell::Sub => acc - v as i64,
        _ => acc * v as i64,
    }
}

/// One pair of moves from (x, y) with running value `acc`.
fn step_pair_exec(map: &OrbVaultMap, x: usize, y: usize, acc: i64, d1: char, d2: char) -> (r: Option<(usize, usize, i64)>)
    requires
        map.wf(),
        in_grid(map@, x as int, y as int),
        -MAX_EVAL <= acc <= MAX_EVAL,
    ensures
        r matches Some((nx, ny, nacc)) ==> step_pair(map@, x as int, y as int, acc as int, d1, d2)
            == Some((nx as int, ny as int, nacc as int)) && in_grid(map@, nx as int, ny as int),
        r is None ==> step_pair(map@, x as int, y as int, acc as int, d1, d2) is None,
{
    let (x1, y1) = match move_in(map, x, y, d1) {
        Some(p) => p,
        None => return None,
    };
    let op = map.cell(x1, y1);
    if let Cell::Num(_) = op {
        return None;
    }
    let (x2, y2) = match move_in(map, x1, y1, d2) {
        Some(p) => p,
        None => return None,
    };
    match map.cell(x2, y2) {
        Cell::Num(v) => Some((x2, y2, apply_op(op, acc, v))),
        _ => None,
    }
}

/// A route that walks the grid and enters the goal, if at all, only at its
/// end.
pub open spec fn walkable(g: Grid, route: Seq<char>) -> bool
    decreases route.len(),
{
    &&& walk(g, route) is Some
    &&& route.len() >= 2 ==> {
        let p = route.subrange(0, route.len() - 2);
        &&& walkable(g, p)
        &&& match walk(g, p) {
            Some((x, y, acc)) => !at_goal(g, x, y),
            None => false,
        }
    }
}

/// Whether the running value of a route fits in 64 bits after every pair of
/// moves.
pub open spec fn values_fit(g: Grid, route: Seq<char>) -> bool
    decreases route.len(),
{
    &&& i64::MIN <= route_value(g, route) <= i64::MAX
    &&& route.len() >= 2 ==> values_fit(g, route.subrange(0, route.len() - 2))
}

/// Every prefix of a walkable route that ends after a pair is walkable, fits
/// whenever the route fits, and all but the route itself stay off the goal.
proof fn lemma_walkable_prefix(g: Grid, r: Seq<char>, k: int)
    requires
        walkable(g, r),
        0 <= k <= r.len(),
        k % 2 == r.len() % 2,
    ensures
        walkable(g, r.subrange(0, k)),
        values_fit(g, r) ==> values_fit(g, r.subrange(0, k)),
        k < r.len() ==> match walk(g, r.subrange(0, k)) {
            Some((x, y, acc)) => !at_goal(g, x, y),
            None => false,
        },
    decreases r.len(),
{
    if k == r.len() {
        assert(r.subrange(0, k) =~= r);
    } else {
        let p = r.subrange(0, r.len() - 2);
        lemma_walkable_prefix(g, p, k);
        assert(p.subrange(0, k) =~= r.subrange(0, k));
    }
}

/// An operator applied to a running value and a number; `None` when the
/// result does not fit in 64 bits.
fn apply_checked(op: Cell, acc: i64, v: i32) -> (r: Option<i64>)
    ensures
        r matches Some(x) ==> x == apply(op, acc as int, v as int),
        r is None ==> !(i64::MIN <= apply(op, acc as int, v as int) <= i64::MAX),
{
    match op {
        Cell::Add => acc.checked_add(v as i64),
        Cell::Sub => acc.checked_sub(v as i64),
        _ => acc.checked_mul(v as i64),
    }
}

/// One pair of moves from (x, y) with running value `acc`; `None` when the
/// pair is no step of a walk or its value does not fit in 64 bits.
fn step_pair_checked(map: &OrbVaultMap, x: usize, y: usize, acc: i64, d1: char, d2: char) -> (r: Option<(usize, usize, i64)>)
    requires
        map.wf(),
        in_grid(map@, x as int, y as int),
    ensures
        r matches Some((nx, ny, nacc)) ==> step_pair(map@, x as int, y as int, acc as int, d1, d2)
            == Some((nx as int, ny as int, nacc as int)) && in_grid(map@, nx as int, ny as int),
        r is None ==> match step_pair(map@, x as int, y as int, acc as int, d1, d2) {
            Some((nx, ny, nacc)) => !(i64::MIN <= nacc <= i64::MAX),
            None => true,
        },
{
    let (x1, y1) = match move_in(map, x, y, d1) {
        Some(p) => p,
        None => return None,
    };
    let op = map.cell(x1, y1);
    if let Cell::Num(_) = op {
        return None;
    }
    let (x2, y2) = match move_in(map, x1, y1, d2) {
        Some(p) => p,
        None => return None,
    };
    match map.cell(x2, y2) {
        Cell::Num(v) => match apply_checked(op, acc, v) {
            Some(nacc) => Some((x2, y2, nacc)),
            None => None,
        },
        _ => None,
    }
}

/// The value with which a route reaches the goal, folding each pair of moves
/// into the running value; `None` unless the route walks the grid and enters
/// the goal only at its end, or when a running value does not fit in 64
/// bits.
pub fn evaluate_route(map: &OrbVaultMap, route: &Vec<char>) -> (r: Option<i64>)
    requires
        map.wf(),
    ensures
        r matches Some(v) ==> walkable(map@, route@) && ends_at_goal(map@, route@) && route_value(
            map@,
            route@,
        ) == v,
        r is None ==> !(walkable(map@, route@) && ends_at_goal(map@, route@) && values_fit(
            map@,
            route@,
        )),
{
    proof {
        assert(route@.subrange(0, 0) =~= Seq::<char>::empty());
        if walkable(map@, route@) {
            lemma_walk_even(map@, route@);
            lemma_walkable_prefix(map@, route@, 0);
        }
    }
    let start = match map.cell(0, 0) {
        Cell::Num(v) => v as i64,
        _ => return None,
    };
    let n = route.len();
    if n % 2 == 1 {
        proof {
            if walk(map@, route@) is Some {
                lemma_walk_even(map@, route@);
            }
        }
        return None;
    }
    let mut x: usize = 0;
    let mut y: usize = 0;
    let mut acc: i64 = start;
    let mut i: usize = 0;
    while i < n
        invariant
            map.wf(),
            n == route.len(),
            n % 2 == 0,
            i % 2 == 0,
            i <= n,
            walkable(map@, route@.subrange(0, i as int)),
            values_fit(map@, route@.subrange(0, i as int)),
            walk(map@, route@.subrange(0, i as int)) == Some((x as int, y as int, acc as int)),
            in_grid(map@, x as int, y as int),
        decreases n - i,
    {
        let ghost p = route@.subrange(0, i as int);
        let ghost q = route@.subrange(0, i + 2);
        assert(q.subrange(0, i as int) =~= p);
        if x + 1 == map.width && y + 1 == map.height {
            proof {
                if walkable(map@, route@) {
                    lemma_walkable_prefix(map@, route@, i as int);
                }
            }
            return None;
        }
        match step_pair_checked(map, x, y, acc, route[i], route[i + 1]) {
            Some((nx, ny, nacc)) => {
                x = nx;
                y = ny;
                acc = nacc;
            },
            None => {
                proof {
                    if walkable(map@, route@) {
                        lemma_walkable_prefix(map@, route@, i + 2);
                    }
                }
                return None;
            },
        }
        i = i + 2;
    }
    assert(route@.subrange(0, n as int) =~= route@);
    if x + 1 == map.width && y + 1 == map.height {
        Some(acc)
    } else {
        None
    }
}

/// Whether `r` starts with `route`.
pub open spec fn extends(r: Seq<char>, route: Seq<char>) -> bool {
    route.len() <= r.len() && r.subrange(0, route.len() as int) == route
}

fn dir_of(i: usize) -> (d: char)
    requires
        i < 4,
    ensures
        d == dir(i as int),
        is_dir(d),
{
    if i == 0 {
        'n'
    } else if i == 1 {
        'e'
    } else if i == 2 {
        's'
    } else {
        'w'
    }
}

proof fn lemma_dir_cases(d: char)
    requires
        is_dir(d),
    ensures
        d == dir(0) || d == dir(1) || d == dir(2) || d == dir(3),
{
}

/// The place of a move in the order the search tries moves: north, east,
/// south, west.
pub open spec fn rank(d: char) -> int {
    if d == 'n' {
        0
    } else if d == 'e' {
        1
    } else if d == 's' {
        2
    } else {
        3
    }
}

/// Whether the search tries route `a` before route `b`: at the first place
/// where they differ, `a`'s move comes earlier in the order of moves.
pub open spec fn tried_before(a: Seq<char>, b: Seq<char>) -> bool {
    exists|k: int|
        #![trigger a[k], b[k]]
        0 <= k < a.len() && k < b.len() && a.subrange(0, k) == b.subrange(0, k) && rank(a[k]) < rank(
            b[k],
        )
}

/// Two routes that agree up to `k` and differ there with `a`'s move later
/// are not in the order `a` before `b`.
proof fn lemma_not_before(a: Seq<char>, b: Seq<char>, k: int)
    requires
        0 <= k < a.len(),
        k < b.len(),
        a.subrange(0, k) == b.subrange(0, k),
        rank(a[k]) > rank(b[k]),
    ensures
        !tried_before(a, b),
{
    if tried_before(a, b) {
        let k2 = choose|k2: int|
            #![trigger a[k2], b[k2]]
            0 <= k2 < a.len() && k2 < b.len() && a.subrange(0, k2) == b.subrange(0, k2) && rank(a[k2])
                < rank(b[k2]);
        assert(0 <= k2 < a.len() && k2 < b.len() && a.subrange(0, k2) == b.subrange(0, k2));
        assert(rank(a[k2]) < rank(b[k2]));
        if k2 < k {
            assert(a.subrange(0, k)[k2] == a[k2]);
            assert(b.subrange(0, k)[k2] == b[k2]);
            assert(a[k2] == b[k2]);
        } else if k2 > k {
            assert(a.subrange(0, k2)[k] == a[k]);
            assert(b.subrange(0, k2)[k] == b[k]);
            assert(a[k] == b[k]);
        }
    }
}

proof fn lemma_rank_dir(i: int)
    requires
        0 <= i < 4,
    ensures
        rank(dir(i)) == i,
        is_dir(dir(i)),
{
}

/// A solving extension `other` of `route` whose first pair of moves past
/// `route` is not tried before the pair (`dir(i)`, `dir(j)`) and differs from
/// it is not tried before a route `found` that goes on with that pair.
proof fn lemma_later_pair(
    g: Grid,
    route: Seq<char>,
    other: Seq<char>,
    found: Seq<char>,
    target: int,
    i: int,
    j: int,
)
    requires
        alive(g, route),
        passable(g, route),
        extends(other, route),
        solves(g, other, target),
        0 <= i < 4,
        0 <= j < 4,
        found.len() >= route.len() + 2,
        found.subrange(0, route.len() as int) == route,
        found[route.len() as int] == dir(i),
        found[route.len() as int + 1] == dir(j),
        forall|ii: int| 0 <= ii < i ==> other[route.len() as int] != dir(ii),
        other[route.len() as int] == dir(i) ==> forall|jj: int|
            0 <= jj < j ==> other[route.len() as int + 1] != dir(jj),
        !(other[route.len() as int] == dir(i) && other[route.len() as int + 1] == dir(j)),
    ensures
        !tried_before(other, found),
{
    let n = route.len() as int;
    lemma_extension(g, route, other, target);
    let q = other.subrange(0, n + 2);
    assert(q.subrange(0, n) == route);
    assert(walk(g, q) is Some);
    assert(is_dir(other[n]) && is_dir(other[n + 1]));
    lemma_rank_dir(0);
    lemma_rank_dir(1);
    lemma_rank_dir(2);
    lemma_rank_dir(3);
    lemma_dir_cases(other[n]);
    lemma_dir_cases(other[n + 1]);
    assert(other.subrange(0, n) =~= found.subrange(0, n));
    if other[n] != dir(i) {
        assert(rank(other[n]) > i);
        lemma_not_before(other, found, n);
    } else {
        assert(rank(other[n + 1]) > j);
        assert(other.subrange(0, n + 1) =~= found.subrange(0, n + 1));
        lemma_not_before(other, found, n + 1);
    }
}

/// Depth-first search for a route that extends `route`, has at most
/// `max_steps` moves, and solves the grid for `desired_result`. `(x, y, acc)`
/// is where `route` ends and its value. Moves are tried north, east, south,
/// west, first for the operator cell and then for the number cell, and the
/// first solving route met in that order is returned.
fn recurse(
    map: &OrbVaultMap,
    route: &Vec<char>,
    x: usize,
    y: usize,
    acc: i64,
    desired_result: i64,
    max_steps: usize,
) -> (r: Option<Vec<char>>)
    requires
        map.wf(),
        alive(map@, route@),
        walk(map@, route@) == Some((x as int, y as int, acc as int)),
        !at_goal(map@, x as int, y as int),
        -MAX_EVAL <= acc <= MAX_EVAL,
        route.len() <= max_steps,
    ensures
        r matches Some(found) ==> solves(map@, found@, desired_result as int) && found.len()
            <= max_steps && extends(found@, route@),
        r matches Some(found) ==> forall|other: Seq<char>|
            extends(other, route@) && other.len() <= max_steps && solves(
                map@,
                other,
                desired_result as int,
            ) ==> !tried_before(other, found@),
        r is None ==> forall|other: Seq<char>|
            extends(other, route@) && other.len() <= max_steps ==> !solves(
                map@,
                other,
                desired_result as int,
            ),
    decreases max_steps - route.len(),
{
    let ghost g = map@;
    let ghost n = route.len() as int;
    let ghost target = desired_result as int;
    if max_steps - route.len() < 2 {
        proof {
            assert forall|other: Seq<char>|
                extends(other, route@) && other.len() <= max_steps implies !solves(g, other, target) by {
                if solves(g, other, target) {
                    lemma_extension(g, route@, other, target);
                }
            }
        }
        return None;
    }
    let mut i: usize = 0;
    while i < 4
        invariant
            map.wf(),
            g == map@,
            n == route.len(),
            target == desired_result,
            alive(g, route@),
            walk(g, route@) == Some((x as int, y as int, acc as int)),
            !at_goal(g, x as int, y as int),
            -MAX_EVAL <= acc <= MAX_EVAL,
            route.len() + 2 <= max_steps,
            i <= 4,
            forall|other: Seq<char>|
                extends(other, route@) && other.len() <= max_steps && solves(g, other, target)
                    ==> forall|ii: int| 0 <= ii < i ==> other[n] != dir(ii),
        decreases 4 - i,
    {
        let d1 = dir_of(i);
        let mut j: usize = 0;
        while j < 4
            invariant
                map.wf(),
                g == map@,
                n == route.len(),
                target == desired_result,
                alive(g, route@),
                walk(g, route@) == Some((x as int, y as int, acc as int)),
                !at_goal(g, x as int, y as int),
                -MAX_EVAL <= acc <= MAX_EVAL,
                route.len() + 2 <= max_steps,
                i < 4,
                d1 == dir(i as int),
                j <= 4,
                forall|other: Seq<char>|
                    extends(other, route@) && other.len() <= max_steps && solves(g, other, target)
                        ==> forall|ii: int| 0 <= ii < i ==> other[n] != dir(ii),
                forall|other: Seq<char>|
                    extends(other, route@) && other.len() <= max_steps && solves(g, other, target)
                        && other[n] == d1 ==> forall|jj: int| 0 <= jj < j ==> other[n + 1] != dir(jj),
            decreases 4 - j,
        {
            let d2 = dir_of(j);
            match step_pair_exec(map, x, y, acc, d1, d2) {
                None => {},
                Some((nx, ny, nacc)) => {
                    let mut new_route = route.clone();
                    assert(new_route@ =~= route@);
                    new_route.push(d1);
                    new_route.push(d2);
                    proof {
                        assert(new_route@.subrange(0, n) =~= route@);
                        assert(walk(g, new_route@) == Some((nx as int, ny as int, nacc as int)));
                        assert(alive(g, new_route@));
                    }
                    if nx + 1 == map.width() && ny + 1 == map.height() {
                        if nacc == desired_result {
                            proof {
                                assert forall|other: Seq<char>|
                                    extends(other, route@) && other.len() <= max_steps && solves(
                                        g,
                                        other,
                                        target,
                                    ) implies !tried_before(other, new_route@) by {
                                    if other[n] == d1 && other[n + 1] == d2 {
                                        lemma_extension(g, route@, other, target);
                                        assert(other.subrange(0, n + 2) =~= new_route@);
                                    } else {
                                        lemma_later_pair(
                                            g,
                                            route@,
                                            other,
                                            new_route@,
                                            target,
                                            i as int,
                                            j as int,
                                        );
                                    }
                                }
                            }
                            return Some(new_route);
                        }
                    } else if -MAX_EVAL <= nacc && nacc <= MAX_EVAL {
                        match recurse(map, &new_route, nx, ny, nacc, desired_result, max_steps) {
                            Some(found) => {
                                proof {
                                    assert(found@.subrange(0, n) =~= found@.subrange(
                                        0,
                                        n + 2,
                                    ).subrange(0, n));
                                    assert(found@[n] == new_route@[n]);
                                    assert(found@[n + 1] == new_route@[n + 1]);
                                    assert forall|other: Seq<char>|
                                        extends(other, route@) && other.len() <= max_steps
                                            && solves(g, other, target) implies !tried_before(
                                        other,
                                        found@,
                                    ) by {
                                        if other[n] == d1 && other[n + 1] == d2 {
                                            lemma_extension(g, route@, other, target);
                                            assert(other.subrange(0, n + 2) =~= new_route@);
                                            assert(extends(other, new_route@));
                                        } else {
                                            lemma_later_pair(
                                                g,
                                                route@,
                                                other,
                                                found@,
                                                target,
                                                i as int,
                                                j as int,
                                            );
                                        }
                                    }
                                }
                                return Some(found);
                            },
                            None => {},
                        }
                    }
                },
            }
            proof {
                assert forall|other: Seq<char>|
                    extends(other, route@) && other.len() <= max_steps && solves(g, other, target)
                        && other[n] == d1 implies forall|jj: int|
                    0 <= jj < j + 1 ==> other[n + 1] != dir(jj) by {
                    lemma_extension(g, route@, other, target);
                    let q = other.subrange(0, n + 2);
                    if other[n + 1] == d2 {
                        assert(walk(g, q) == step_pair(g, x as int, y as int, acc as int, d1, d2));
                        let nq = route@.push(d1).push(d2);
                        assert(q =~= nq);
                        if q != other {
                            assert(extends(other, q));
                        }
                    }
                }
            }
            j = j + 1;
        }
        proof {
            assert forall|other: Seq<char>|
                extends(other, route@) && other.len() <= max_steps && solves(g, other, target)
                    implies forall|ii: int| 0 <= ii < i + 1 ==> other[n] != dir(ii) by {
                lemma_extension(g, route@, other, target);
                let q = other.subrange(0, n + 2);
                assert(walk(g, q) == step_pair(g, x as int, y as int, acc as int, other[n], other[n + 1]));
                lemma_dir_cases(other[n + 1]);
            }
        }
        i = i + 1;
    }
    proof {
        assert forall|other: Seq<char>|
            extends(other, route@) && other.len() <= max_steps implies !solves(g, other, target) by {
            if solves(g, other, target) {
                lemma_extension(g, route@, other, target);
                let q = other.subrange(0, n + 2);
                assert(walk(g, q) == step_pair(g, x as int, y as int, acc as int, other[n], other[n + 1]));
                lemma_dir_cases(other[n]);
            }
        }
    }
    None
}

/// No route shorter than the distance between the corners reaches the goal.
proof fn lemma_too_short(g: Grid, r: Seq<char>, target: int)
    requires
        grid_wf(g),
        r.len() < (g.width - 1) + (g.height - 1),
    ensures
        !solves(g, r, target),
{
    if solves(g, r, target) {
        lemma_walk_distance(g, r);
    }
}

/// The grid's starting value, making the route of no moves alive; `None`
/// when the start holds no number, so that no route is alive.
fn start_value(map: &OrbVaultMap) -> (r: Option<i64>)
    requires
        map.wf(),
    ensures
        r matches Some(v) ==> alive(map@, Seq::empty()) && walk(map@, Seq::empty()) == Some(
            (0int, 0int, v as int),
        ),
        r is None ==> forall|other: Seq<char>| !alive(map@, other),
{
    match map.cell(0, 0) {
        Cell::Num(v) => Some(v as i64),
        _ => {
            proof {
                assert forall|other: Seq<char>| !alive(map@, other) by {
                    if alive(map@, other) {
                        lemma_walk_even(map@, other);
                        lemma_alive_prefix(map@, other, 0);
                        assert(other.subrange(0, 0) =~= Seq::<char>::empty());
                    }
                }
            }
            None
        },
    }
}

/// A shortest route that solves the grid for `desired_result`, if one of at
/// most `steps_cutoff` moves exists. Lengths are tried from the distance
/// between the corners upwards, and at the first length that has one, the
/// route returned is the one the depth-first search meets first: no other
/// solving route of its length is tried before it.
pub fn solve_route(map: &OrbVaultMap, desired_result: i64, steps_cutoff: usize) -> (r: Option<Vec<char>>)
    requires
        map.wf(),
    ensures
        r matches Some(route) ==> solves(map@, route@, desired_result as int) && route.len() <= steps_cutoff,
        r matches Some(route) ==> forall|other: Seq<char>|
            solves(map@, other, desired_result as int) ==> route.len() <= other.len(),
        r matches Some(route) ==> forall|other: Seq<char>|
            solves(map@, other, desired_result as int) && other.len() == route.len()
                ==> !tried_before(other, route@),
        r is None ==> forall|other: Seq<char>|
            other.len() <= steps_cutoff ==> !solves(map@, other, desired_result as int),
{
    let ghost g = map@;
    let ghost target = desired_result as int;
    let start = match start_value(map) {
        Some(v) => v,
        None => return None,
    };
    let empty: Vec<char> = Vec::new();
    let w = map.width();
    let h = map.height();
    if w == 1 && h == 1 {
        proof {
            assert forall|other: Seq<char>| solves(g, other, target) implies other.len() == 0 by {
                if other.len() > 0 {
                    lemma_walk_even(g, other);
                    lemma_alive_prefix(g, other, 0);
                    assert(other.subrange(0, 0) =~= Seq::<char>::empty());
                }
            }
            assert(empty@ =~= Seq::<char>::empty());
        }
        if start == desired_result {
            assert forall|other: Seq<char>|
                solves(g, other, target) && other.len() == empty@.len() implies !tried_before(
                other,
                empty@,
            ) by {}
            return Some(empty);
        }
        return None;
    }
    if start < -MAX_EVAL || start > MAX_EVAL {
        proof {
            assert forall|other: Seq<char>| other.len() <= steps_cutoff implies !solves(g, other, target) by {
                if solves(g, other, target) {
                    lemma_walk_even(g, other);
                    assert(other.len() != 0);
                    lemma_alive_prefix(g, other, 0);
                    assert(other.subrange(0, 0) =~= Seq::<char>::empty());
                }
            }
        }
        return None;
    }
    proof {
        assert(map.cells.len() == w * h);
        assert((w - 1) + (h - 1) <= w * h - 1) by (nonlinear_arith)
            requires
                w >= 1,
                h >= 1,
        ;
    }
    let mut steps: usize = (w - 1) + (h - 1);
    proof {
        assert forall|other: Seq<char>| other.len() < steps implies !solves(g, other, target) by {
            lemma_too_short(g, other, target);
        }
    }
    while steps <= steps_cutoff
        invariant
            map.wf(),
            g == map@,
            target == desired_result,
            empty@ == Seq::<char>::empty(),
            alive(g, empty@),
            walk(g, empty@) == Some((0int, 0int, start as int)),
            !at_goal(g, 0, 0),
            -MAX_EVAL <= start <= MAX_EVAL,
            forall|other: Seq<char>| other.len() < steps ==> !solves(g, other, target),
        ensures
            forall|other: Seq<char>| other.len() <= steps_cutoff ==> !solves(g, other, target),
        decreases steps_cutoff - steps + 1,
    {
        match recurse(map, &empty, 0, 0, start, desired_result, steps) {
            Some(route) => {
                proof {
                    assert forall|other: Seq<char>|
                        solves(g, other, target) && other.len() == route.len() implies !tried_before(
                        other,
                        route@,
                    ) by {
                        assert(other.subrange(0, 0) =~= empty@);
                        assert(extends(other, empty@));
                    }
                }
                return Some(route);
            },
            None => {
                proof {
                    assert forall|other: Seq<char>| other.len() < steps + 1 implies !solves(g, other, target) by {
                        assert(other.subrange(0, 0) =~= empty@);
                        assert(extends(other, empty@));
                    }
                }
            },
        }
        if steps == steps_cutoff {
            break;
        }
        steps = steps + 1;
    }
    None
}

/// How the mirror shows a character: `p` and `q` swap, as do `b` and `d`.
pub open spec fn mirror_char(c: char) -> char {
    if c == 'p' {
        'q'
    } else if c == 'q' {
        'p'
    } else if c == 'b' {
        'd'
    } else if c == 'd' {
        'b'
    } else {
        c
    }
}

/// A text as its mirror image reads: backwards, with mirrored characters.
pub open spec fn mirrored(s: Seq<char>) -> Seq<char> {
    Seq::new(s.len(), |i: int| mirror_char(s[s.len() - 1 - i]))
}

/// A code read in a mirror, as it really is.
pub fn reverse(code: &String) -> (r: String)
    ensures
        r@ == mirrored(code@),
{
    let chars = chars_of(code.as_str());
    let n = chars.len();
    let mut out: Vec<char> = Vec::new();
    let mut i: usize = 0;
    while i < n
        invariant
            n == chars.len(),
            chars@ == code@,
            i <= n,
            out@ == mirrored(code@).subrange(0, i as int),
        decreases n - i,
    {
        let c = chars[n - 1 - i];
        let m = if c == 'p' {
            'q'
        } else if c == 'q' {
            'p'
        } else if c == 'b' {
            'd'
        } else if c == 'd' {
            'b'
        } else {
            c
        };
        out.push(m);
        i = i + 1;
        assert(out@ =~= mirrored(code@).subrange(0, i as int));
    }
    assert(mirrored(code@).subrange(0, n as int) =~= mirrored(code@));
    string_of(&out)
}

/// The code that a mirror shows: the text between the first two double
/// quotes, mirrored.
pub open spec fn mirror_code_spec(text: Seq<char>) -> Option<Seq<char>> {
    let parts = split_on(text, '"');
    if parts.len() < 3 {
        None
    } else {
        Some(mirrored(parts[1]))
    }
}

/// The code in what the mirror shows; `None` when no quoted text is found.
pub fn mirror_code(mirror_use: &String) -> (r: Option<String>)
    ensures
        r matches Some(c) ==> mirror_code_spec(mirror_use@) == Some(c@),
        r is None ==> mirror_code_spec(mirror_use@) is None,
{
    let parts = pieces_of(&chars_of(mirror_use.as_str()), '"');
    if parts.len() < 3 {
        return None;
    }
    let quoted = string_of(&parts[1]);
    Some(reverse(&quoted))
}

/// The cell a symbol of the vault stands for; `None` for a symbol that is
/// neither an operator nor a 32-bit number.
pub open spec fn cell_of(sym: Seq<char>) -> Option<Cell> {
    if sym == seq!['*'] {
        Some(Cell::Mul)
    } else if sym == seq!['+'] {
        Some(Cell::Add)
    } else if sym == seq!['-'] {
        Some(Cell::Sub)
    } else if is_int_text(sym) && i32::MIN <= int_value(sym) <= i32::MAX {
        Some(Cell::Num(int_value(sym) as i32))
    } else {
        None
    }
}

pub fn cell_of_symbol(sym: &Vec<char>) -> (r: Option<Cell>)
    ensures
        r == cell_of(sym@),
{
    if sym.len() == 1 && sym[0] == '*' {
        assert(sym@ =~= seq!['*']);
        Some(Cell::Mul)
    } else if sym.len() == 1 && sym[0] == '+' {
        assert(sym@ =~= seq!['+']);
        Some(Cell::Add)
    } else if sym.len() == 1 && sym[0] == '-' {
        assert(sym@ =~= seq!['-']);
        Some(Cell::Sub)
    } else {
        proof {
            assert(sym@ != seq!['*'] && sym@ != seq!['+'] && sym@ != seq!['-']) by {
                if sym@.len() == 1 {
                    assert(sym@[0] == sym[0]);
                }
            }
        }
        match parse_i32(sym) {
            Some(v) => Some(Cell::Num(v)),
            None => None,
        }
    }
}

/// A machine after the same command `n` times.
pub open spec fn repeat_feed(s: VmState, line: Seq<char>, n: nat) -> VmState
    decreases n,
{
    if n == 0 {
        s
    } else {
        repeat_feed(s, line, (n - 1) as nat).feed(line)
    }
}

pub open spec fn cleared(s: VmState) -> VmState {
    VmState { output: Seq::empty(), ..s }
}

/// The symbol of the room `east` rooms east and `north` rooms north of the
/// machine's: the text between the first two single quotes of its
/// description, or `?` when there is none.
pub open spec fn vault_symbol(s: VmState, east: nat, north: nat) -> Seq<char> {
    let t = repeat_feed(repeat_feed(s, "go north"@, north), "go east"@, east);
    let parts = split_on(cleared(t).feed("look"@).output, '\'');
    if parts.len() < 3 {
        seq!['?']
    } else {
        parts[1]
    }
}

fn feed_times(vm: &mut SynacorVM, line: &str, n: usize)
    requires
        old(vm).wf(),
    ensures
        final(vm).wf(),
        final(vm)@ == repeat_feed(old(vm)@, line@, n as nat),
{
    let mut i: usize = 0;
    while i < n
        invariant
            vm.wf(),
            i <= n,
            vm@ == repeat_feed(old(vm)@, line@, i as nat),
        decreases n - i,
    {
        vm.input_line(line);
        i = i + 1;
    }
}

/// The symbol of a room of the vault, looked up on a copy of the machine.
pub fn parse_vault_node(vm: &SynacorVM, east: usize, north: usize) -> (r: String)
    requires
        vm.wf(),
    ensures
        r@ == vault_symbol(vm@, east as nat, north as nat),
{
    let mut c = vm.clone();
    feed_times(&mut c, "go north", north);
    feed_times(&mut c, "go east", east);
    let _ = c.output_line(true);
    c.input_line("look");
    let look = c.output_line(true);
    let parts = pieces_of(&chars_of(look.as_str()), '\'');
    if parts.len() < 3 {
        string_of(&vec!['?'])
    } else {
        string_of(&parts[1])
    }
}

/// A side of the vault longer than this is not mapped.
pub const MAX_SIDE: usize = 64;

/// How many times a move succeeds before the game refuses it, from a machine
/// with its output cleared, and the machine after; `None` when it still
/// succeeds after `limit` moves.
pub open spec fn moves_until_stuck(s: VmState, line: Seq<char>, limit: nat) -> Option<(nat, VmState)>
    decreases limit,
{
    let t = s.feed(line);
    if has_sub(t.output, "I don't understand"@) {
        Some((0nat, cleared(t)))
    } else if limit == 0 {
        None
    } else {
        match moves_until_stuck(cleared(t), line, (limit - 1) as nat) {
            Some((k, u)) => Some((k + 1, u)),
            None => None,
        }
    }
}

/// The vault's width and height as found from the machine: moves east until
/// refused, then north until refused.
pub open spec fn vault_dims(s: VmState) -> Option<(nat, nat)> {
    match moves_until_stuck(cleared(s), "go east"@, MAX_SIDE as nat) {
        Some((e, t)) => match moves_until_stuck(t, "go north"@, MAX_SIDE as nat) {
            Some((n, u)) => Some((e + 1, n + 1)),
            None => None,
        },
        None => None,
    }
}

fn count_moves(vm: &mut SynacorVM, line: &str) -> (r: Option<usize>)
    requires
        old(vm).wf(),
    ensures
        final(vm).wf(),
        r matches Some(k) ==> k <= MAX_SIDE,
        r matches Some(k) ==> moves_until_stuck(old(vm)@, line@, MAX_SIDE as nat) == Some(
            (k as nat, final(vm)@),
        ),
        r is None ==> moves_until_stuck(old(vm)@, line@, MAX_SIDE as nat) is None,
{
    let ghost s0 = vm@;
    let mut k: usize = 0;
    loop
        invariant
            vm.wf(),
            k <= MAX_SIDE,
            s0 == old(vm)@,
            moves_until_stuck(s0, line@, MAX_SIDE as nat) == match moves_until_stuck(
                vm@,
                line@,
                (MAX_SIDE - k) as nat,
            ) {
                Some((j, u)) => Some(((j + k) as nat, u)),
                None => None,
            },
        decreases MAX_SIDE - k,
    {
        let ghost before = vm@;
        vm.input_line(line);
        let out = vm.output_line(true);
        assert(out@ == before.feed(line@).output);
        assert(vm@ == cleared(before.feed(line@)));
        let stuck = contains_str(&chars_of(out.as_str()), "I don't understand");
        proof {
            let t = before.feed(line@);
            assert(stuck == has_sub(t.output, "I don't understand"@));
            assert(moves_until_stuck(before, line@, (MAX_SIDE - k) as nat) == if has_sub(
                t.output,
                "I don't understand"@,
            ) {
                Some((0nat, cleared(t)))
            } else if MAX_SIDE - k == 0 {
                None
            } else {
                match moves_until_stuck(cleared(t), line@, (MAX_SIDE - k - 1) as nat) {
                    Some((j, u)) => Some((j + 1, u)),
                    None => None,
                }
            });
        }
        if stuck {
            return Some(k);
        }
        if k == MAX_SIDE {
            return None;
        }
        k = k + 1;
        assert(vm@ == cleared(before.feed(line@)));
    }
}

/// Whether the room at (x, y) lies in the vault and its symbol is no cell.
pub open spec fn bad_room(s: VmState, x: int, y: int) -> bool {
    match vault_dims(s) {
        Some((w, h)) => 0 <= x < w && 0 <= y < h && cell_of(vault_symbol(s, x as nat, y as nat)) is None,
        None => false,
    }
}

/// Maps the vault around the machine's room, which is its south-west
/// corner; `None` when a side is longer than `MAX_SIDE` or a room's symbol
/// is not a cell.
pub fn map_vault(vm: &SynacorVM) -> (r: Option<OrbVaultMap>)
    requires
        vm.wf(),
    ensures
        r matches Some(m) ==> m.wf() && vault_dims(vm@) == Some((m@.width as nat, m@.height as nat))
            && forall|x: int, y: int|
            in_grid(m@, x, y) ==> cell_of(vault_symbol(vm@, x as nat, y as nat)) == Some(
                #[trigger] cell_at(m@, x, y),
            ),
        r is None ==> vault_dims(vm@) is None || exists|x: int, y: int| #[trigger] bad_room(vm@, x, y),
{
    let mut dim = vm.clone();
    let _ = dim.output_line(true);
    let east = match count_moves(&mut dim, "go east") {
        Some(k) => k,
        None => return None,
    };
    let north = match count_moves(&mut dim, "go north") {
        Some(k) => k,
        None => return None,
    };
    let width = east + 1;
    let height = north + 1;
    let mut cells: Vec<Cell> = Vec::new();
    let mut y: usize = 0;
    while y < height
        invariant
            vm.wf(),
            width == east + 1 <= MAX_SIDE + 1,
            height == north + 1 <= MAX_SIDE + 1,
            vault_dims(vm@) == Some((width as nat, height as nat)),
            y <= height,
            cells.len() == width * y,
            forall|i: int|
                0 <= i < cells.len() ==> cell_of(
                    vault_symbol(vm@, (i % width as int) as nat, (i / width as int) as nat),
                ) == Some(#[trigger] cells@[i]),
        decreases height - y,
    {
        let mut x: usize = 0;
        while x < width
            invariant
                vm.wf(),
                width == east + 1 <= MAX_SIDE + 1,
                height == north + 1 <= MAX_SIDE + 1,
                vault_dims(vm@) == Some((width as nat, height as nat)),
                y < height,
                x <= width,
                cells.len() == width * y + x,
                forall|i: int|
                    0 <= i < cells.len() ==> cell_of(
                        vault_symbol(vm@, (i % width as int) as nat, (i / width as int) as nat),
                    ) == Some(#[trigger] cells@[i]),
            decreases width - x,
        {
            let sym = parse_vault_node(vm, x, y);
            proof {
                let i = width * y + x;
                assert(i % width as int == x && i / width as int == y) by (nonlinear_arith)
                    requires
                        i == width * y + x,
                        0 <= x < width,
                ;
            }
            match cell_of_symbol(&chars_of(sym.as_str())) {
                Some(c) => cells.push(c),
                None => {
                    assert(bad_room(vm@, x as int, y as int));
                    return None;
                },
            }
            x = x + 1;
        }
        assert(width * y + width == width * (y + 1)) by (nonlinear_arith);
        y = y + 1;
    }
    proof {
        assert forall|xx: int, yy: int| 0 <= xx < width && 0 <= yy < height implies cell_of(
            vault_symbol(vm@, xx as nat, yy as nat),
        ) == Some(#[trigger] cells@[xx + width * yy]) by {
            let i = xx + width * yy;
            assert(0 <= i < width * height && i % width as int == xx && i / width as int == yy)
                by (nonlinear_arith)
                requires
                    i == xx + width * yy,
                    0 <= xx < width,
                    0 <= yy < height,
            ;
        }
    }
    match OrbVaultMap::new(width, height, cells) {
        Some(m) => Some(m),
        None => None,
    }
}

/// A machine after a sequence of commands, in order.
pub open spec fn feed_all(s: VmState, lines: Seq<Seq<char>>) -> VmState
    decreases lines.len(),
{
    if lines.len() == 0 {
        s
    } else {
        feed_all(s.feed(lines[0]), lines.drop_first())
    }
}

/// The command for a move.
pub open spec fn go_command(d: char) -> Seq<char> {
    if d == 'n' {
        "go north"@
    } else if d == 'e' {
        "go east"@
    } else if d == 's' {
        "go south"@
    } else {
        "go west"@
    }
}

/// The commands for a route's moves, then the step into the vault; a
/// character that is no move ends the commands there.
pub open spec fn route_commands(route: Seq<char>) -> Seq<Seq<char>>
    decreases route.len(),
{
    if route.len() == 0 {
        seq!["go vault"@]
    } else if is_dir(route[0]) {
        seq![go_command(route[0])] + route_commands(route.drop_first())
    } else {
        Seq::empty()
    }
}

/// Takes the orb and carries it along a route into the vault.
pub fn try_route(vm: &mut SynacorVM, route: &Vec<char>)
    requires
        old(vm).wf(),
    ensures
        final(vm).wf(),
        final(vm)@ == feed_all(old(vm)@, seq!["take orb"@] + route_commands(route@)),
{
    proof {
        let all = seq!["take orb"@] + route_commands(route@);
        assert(all.drop_first() =~= route_commands(route@));
        assert(route@.subrange(0, route@.len() as int) =~= route@);
    }
    vm.input_line("take orb");
    let mut i: usize = 0;
    while i < route.len()
        invariant
            vm.wf(),
            i <= route.len(),
            feed_all(old(vm)@, seq!["take orb"@] + route_commands(route@)) == feed_all(
                vm@,
                route_commands(route@.subrange(i as int, route@.len() as int)),
            ),
        decreases route.len() - i,
    {
        let ghost rest = route@.subrange(i as int, route@.len() as int);
        assert(rest.drop_first() =~= route@.subrange(i + 1, route@.len() as int));
        let c = route[i];
        if c == 'n' {
            vm.input_line("go north");
        } else if c == 'e' {
            vm.input_line("go east");
        } else if c == 's' {
            vm.input_line("go south");
        } else if c == 'w' {
            vm.input_line("go west");
        } else {
            return;
        }
        proof {
            let cmds = route_commands(rest);
            assert(cmds == seq![go_command(c)] + route_commands(rest.drop_first()));
            assert(cmds.drop_first() =~= route_commands(rest.drop_first()));
        }
        i = i + 1;
    }
    let ghost pre = vm@;
    vm.input_line("go vault");
    proof {
        let rest = route@.subrange(i as int, route@.len() as int);
        assert(rest.len() == 0);
        assert(route_commands(rest) == seq!["go vault"@]);
        assert(seq!["go vault"@].drop_first() =~= Seq::<Seq<char>>::empty());
        assert(feed_all(pre.feed("go vault"@), Seq::<Seq<char>>::empty()) == pre.feed("go vault"@));
    }
}

} // verus!
