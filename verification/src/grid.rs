//! Grid coordinate generators: a square spiral walk and a raster (row by
//! row) walk, each producing `(index, x, y)` triples, and the public
//! entry points that keep only the cells whose index is prime.

use vstd::prelude::*;

use rayon::iter::IntoParallelRefIterator;
use rayon::iter::ParallelIterator;

verus! {

use crate::primality::{is_prime, spec_is_prime};
use vstd::arithmetic::div_mod::{
    lemma_fundamental_div_mod, lemma_fundamental_div_mod_converse,
    lemma_fundamental_div_mod_converse_mod, lemma_div_multiples_vanish, lemma_mod_multiples_basic,
};

/// The walk state of the spiral: position, direction (0 right, 1 up,
/// 2 left, 3 down), the current run length, and the move counter.
pub struct SpiralState {
    pub x: int,
    pub y: int,
    pub dir: int,
    pub step: int,
    pub m: int,
}

/// The spiral starts in the grid corner, walking right.
pub open spec fn spiral_init() -> SpiralState {
    SpiralState { x: 0, y: 0, dir: 0, step: 1, m: 1 }
}

/// One move of the spiral: step in the current direction; every `step`
/// moves rotate to the next direction, and every second rotation
/// lengthens the run by one.
pub open spec fn spiral_advance(s: SpiralState) -> SpiralState {
    let x2 = if s.dir == 0 {
        s.x + 1
    } else if s.dir == 2 {
        s.x - 1
    } else {
        s.x
    };
    let y2 = if s.dir == 1 {
        s.y + 1
    } else if s.dir == 3 {
        s.y - 1
    } else {
        s.y
    };
    let turn = s.m % s.step == 0;
    let dir2 = if turn {
        (s.dir + 1) % 4
    } else {
        s.dir
    };
    let step2 = if turn && dir2 % 2 == 0 {
        s.step + 1
    } else {
        s.step
    };
    SpiralState { x: x2, y: y2, dir: dir2, step: step2, m: s.m + 1 }
}

/// The walk state after `k` moves.
pub open spec fn spiral_state(k: nat) -> SpiralState
    decreases k,
{
    if k == 0 {
        spiral_init()
    } else {
        spiral_advance(spiral_state((k - 1) as nat))
    }
}

/// The walk continues while neither coordinate has left the grid.
pub open spec fn spiral_in_bounds(s: SpiralState, grid: int) -> bool {
    s.x <= grid && s.y <= grid
}

/// `cells` is exactly the spiral walk over a grid of side `grid + 1`
/// starting at index `start`: cell `j` carries index `start + j` and the
/// walk position after `j` moves, every listed position is inside the
/// grid, and the walk leaves the grid at the first unlisted position.
pub open spec fn is_spiral_trace(grid: int, start: int, cells: Seq<(usize, isize, isize)>) -> bool {
    &&& forall|j: int|
        0 <= j < cells.len() ==> (#[trigger] cells[j]).0 as int == start + j && cells[j].1 as int
            == spiral_state(j as nat).x && cells[j].2 as int == spiral_state(j as nat).y
    &&& forall|j: int|
        0 <= j < cells.len() ==> spiral_in_bounds(#[trigger] spiral_state(j as nat), grid)
    &&& !spiral_in_bounds(spiral_state(cells.len()), grid)
}

/// Where in its orbit a reachable spiral state can be: the run length and
/// move counter fix the position and direction, phase by phase.
pub open spec fn spiral_shape(s: SpiralState) -> bool {
    let p = s.step;
    let m = s.m;
    &&& 1 <= p
    &&& p * (p - 1) < m <= p * (p + 1)
    &&& (p % 2 == 1 ==> {
        let t = (p - 1) / 2;
        if m <= p * p {
            s.dir == 0 && s.y == -t && s.x == m - p * (p - 1) - 1 - t
        } else {
            s.dir == 1 && s.x == t + 1 && s.y == m - p * p - 1 - t
        }
    })
    &&& (p % 2 == 0 ==> {
        let t = (p - 2) / 2;
        if m <= p * p {
            s.dir == 2 && s.y == t + 1 && s.x == p * (p - 1) + t + 2 - m
        } else {
            s.dir == 3 && s.x == -(t + 1) && s.y == p * p + t + 2 - m
        }
    })
}

/// In a window of `p` consecutive counter values ending at a multiple of
/// `p`, only that endpoint is a multiple.
proof fn lemma_mod_window(p: int, a: int, m: int)
    requires
        1 <= p,
        p * a < m <= p * (a + 1),
    ensures
        (m % p == 0) <==> (m == p * (a + 1)),
{
    if m == p * (a + 1) {
        lemma_mod_multiples_basic(a + 1, p);
        assert((a + 1) * p == p * (a + 1)) by (nonlinear_arith) {}
    }
    if m % p == 0 {
        let q = m / p;
        lemma_fundamental_div_mod(m, p);
        assert(q == a + 1) by (nonlinear_arith)
            requires
                m == p * q + m % p,
                m % p == 0,
                p * a < m,
                m <= p * (a + 1),
                1 <= p,
        {}
    }
}

/// One spiral move preserves the shape invariant, and the run length
/// grows only at the end of a direction pair.
proof fn lemma_spiral_shape_step(s: SpiralState)
    requires
        spiral_shape(s),
    ensures
        spiral_shape(spiral_advance(s)),
        spiral_advance(s).step == s.step || s.m == s.step * (s.step + 1),
{
    let p = s.step;
    let m = s.m;
    let s2 = spiral_advance(s);
    assert(p * (p + 1) == p * p + p) by (nonlinear_arith) {}
    assert(p * (p - 1) == p * p - p) by (nonlinear_arith) {}
    assert((p + 1) * (p + 1) == p * p + 2 * p + 1) by (nonlinear_arith) {}
    assert((p + 1) * ((p + 1) - 1) == p * p + p) by (nonlinear_arith) {}
    assert((p + 1) * ((p + 1) + 1) == p * p + 3 * p + 2) by (nonlinear_arith) {}
    lemma_fundamental_div_mod(p, 2);
    if p % 2 == 1 {
        let t = (p - 1) / 2;
        assert((p - 1) / 2 == p / 2) by {
            lemma_div_multiples_vanish(p / 2, 2);
        }
        assert(p == 2 * t + 1);
        assert((p + 1) % 2 == 0) by {
            lemma_mod_multiples_basic(t + 1, 2);
        }
        if m <= p * p {
            lemma_mod_window(p, p - 1, m);
            if m == p * p {
                assert(s2.dir == 1 && s2.step == p);
                assert(spiral_shape(s2));
            } else {
                assert(s2.dir == 0 && s2.step == p && s2.m == m + 1);
                assert(spiral_shape(s2));
            }
        } else {
            lemma_mod_window(p, p, m);
            if m == p * (p + 1) {
                assert(s2.dir == 2 && s2.step == p + 1);
                assert(((p + 1) - 2) / 2 == t) by {
                    lemma_div_multiples_vanish(t, 2);
                }
                assert(spiral_shape(s2));
            } else {
                assert(s2.dir == 1 && s2.step == p);
                assert(spiral_shape(s2));
            }
        }
    } else {
        let t = (p - 2) / 2;
        assert((p - 2) / 2 == p / 2 - 1) by {
            lemma_div_multiples_vanish(p / 2 - 1, 2);
        }
        assert(p == 2 * t + 2);
        assert((p + 1) % 2 == 1) by {
            lemma_fundamental_div_mod_converse_mod(p + 1, 2, t + 1, 1);
        }
        if m <= p * p {
            lemma_mod_window(p, p - 1, m);
            if m == p * p {
                assert(s2.dir == 3 && s2.step == p);
                assert(spiral_shape(s2));
            } else {
                assert(s2.dir == 2 && s2.step == p);
                assert(spiral_shape(s2));
            }
        } else {
            lemma_mod_window(p, p, m);
            if m == p * (p + 1) {
                assert(s2.dir == 0 && s2.step == p + 1);
                assert(((p + 1) - 1) / 2 == t + 1) by {
                    lemma_div_multiples_vanish(t + 1, 2);
                }
                assert(spiral_shape(s2));
            } else {
                assert(s2.dir == 3 && s2.step == p);
                assert(spiral_shape(s2));
            }
        }
    }
}

/// The spiral walk over a grid of side `grid_size + 1`, starting at index
/// `start`: walk until a coordinate leaves the grid, recording every cell
/// visited on the way.
pub fn generate_spiral_tuples(grid_size: isize, start: usize) -> (cells: Vec<(usize, isize, isize)>)
    requires
        grid_size >= 0,
        start + (2 * grid_size as int + 2) * (2 * grid_size as int + 2) <= usize::MAX,
    ensures
        is_spiral_trace(grid_size as int, start as int, cells@),
{
    let ghost g = grid_size as int;
    proof {
        assert(2 * (g + 2) + 1 <= usize::MAX) by (nonlinear_arith)
            requires
                g >= 0,
                (2 * g + 2) * (2 * g + 2) <= usize::MAX,
                usize::MAX >= 65535,
        {}
        assert(usize::MAX as int == 2 * (isize::MAX as int) + 1);
    }
    let mut cells: Vec<(usize, isize, isize)> = Vec::new();
    let mut x: isize = 0;
    let mut y: isize = 0;
    let mut direction: usize = 0;
    let mut step: usize = 1;
    let mut m: usize = 1;
    let mut n = start;
    while x <= grid_size && y <= grid_size
        invariant
            grid_size as int == g,
            g >= 0,
            start + (2 * g + 2) * (2 * g + 2) <= usize::MAX,
            g + 2 <= isize::MAX,
            x as int == spiral_state(cells@.len() as nat).x,
            y as int == spiral_state(cells@.len() as nat).y,
            direction as int == spiral_state(cells@.len() as nat).dir,
            step as int == spiral_state(cells@.len() as nat).step,
            m as int == spiral_state(cells@.len() as nat).m,
            m as int == cells@.len() + 1,
            n as int == start + cells@.len(),
            spiral_shape(spiral_state(cells@.len() as nat)),
            step as int % 2 == 1 ==> step as int <= 2 * g + 1,
            step as int % 2 == 0 ==> step as int <= 2 * g,
            forall|j: int|
                0 <= j < cells@.len() ==> spiral_in_bounds(#[trigger] spiral_state(j as nat), g),
            forall|j: int|
                0 <= j < cells@.len() ==> (#[trigger] cells@[j]).0 as int == start + j
                    && cells@[j].1 as int == spiral_state(j as nat).x && cells@[j].2 as int
                    == spiral_state(j as nat).y,
        decreases (2 * g + 2) * (2 * g + 2) - m,
    {
        let ghost k = cells@.len() as nat;
        let ghost st = spiral_state(k);
        proof {
            assert(st.m <= st.step * (st.step + 1));
            assert(st.step <= 2 * g + 1);
            assert(st.m < (2 * g + 2) * (2 * g + 2)) by (nonlinear_arith)
                requires
                    st.m <= st.step * (st.step + 1),
                    st.step <= 2 * g + 1,
                    1 <= st.step,
                    g >= 0,
            {}
            let p = st.step;
            let t = if p % 2 == 1 {
                (p - 1) / 2
            } else {
                (p - 2) / 2
            };
            assert(0 <= t && t <= g && -(t + 1) <= st.x <= t + 1 && -(t + 1) <= st.y <= t + 1)
                by (nonlinear_arith)
                requires
                    spiral_shape(st),
                    p == st.step,
                    t == if p % 2 == 1 {
                        (p - 1) / 2
                    } else {
                        (p - 2) / 2
                    },
                    p % 2 == 1 ==> p <= 2 * g + 1,
                    p % 2 == 0 ==> p <= 2 * g,
                    p % 2 == 1 ==> p == 2 * t + 1,
                    p % 2 == 0 ==> p == 2 * t + 2,
                    g >= 0,
            {}
            lemma_fundamental_div_mod(p, 2);
            if p % 2 == 1 {
                lemma_div_multiples_vanish(p / 2, 2);
            } else {
                lemma_div_multiples_vanish(p / 2 - 1, 2);
            }
            lemma_spiral_shape_step(st);
        }
        cells.push((n, x, y));
        if direction == 0 {
            x = x + 1;
        } else if direction == 1 {
            y = y + 1;
        } else if direction == 2 {
            x = x - 1;
        } else {
            y = y - 1;
        }
        if m % step == 0 {
            direction = (direction + 1) % 4;
            if direction % 2 == 0 {
                proof {
                    let p = st.step;
                    assert(st.m == p * (p + 1));
                    assert(p * (p + 1) > p * p) by (nonlinear_arith)
                        requires
                            1 <= p,
                    {}
                    if p % 2 == 1 {
                        let t = (p - 1) / 2;
                        assert(st.dir == 1 && st.x == t + 1);
                        assert(t + 1 <= g);
                        assert((p + 1) % 2 == 0) by {
                            lemma_mod_multiples_basic(t + 1, 2);
                        }
                    } else {
                        let t = (p - 2) / 2;
                        assert((p + 1) % 2 == 1) by {
                            lemma_fundamental_div_mod_converse_mod(p + 1, 2, t + 1, 1);
                        }
                    }
                }
                step = step + 1;
            }
        }
        n = n + 1;
        m = m + 1;
        proof {
            assert(spiral_state(k + 1) == spiral_advance(st));
            assert(cells@[k as int].0 as int == start + k);
        }
    }
    cells
}

/// A cell of the raster walk: index first, then the column and row.
pub open spec fn line_cell(grid: int, start: int, j: int) -> (usize, isize, isize) {
    ((start + j) as usize, (j % (grid + 1)) as isize, (j / (grid + 1)) as isize)
}

/// The raster walk in row-major order over a grid of side `grid + 1`:
/// cell `j` carries index `start + j`.
pub open spec fn line_trace(grid: int, start: int) -> Seq<(usize, isize, isize)> {
    Seq::new(((grid + 1) * (grid + 1)) as nat, |j: int| line_cell(grid, start, j))
}

/// The raster walk: row by row from the origin, one index per cell.
pub fn generate_line_tuples(grid_size: isize, start: usize) -> (cells: Vec<(usize, isize, isize)>)
    requires
        grid_size >= 0,
        start + (grid_size as int + 1) * (grid_size as int + 1) <= usize::MAX,
    ensures
        cells@ == line_trace(grid_size as int, start as int),
{
    let ghost g = grid_size as int;
    proof {
        assert(2 * (g + 1) + 1 <= usize::MAX) by (nonlinear_arith)
            requires
                g >= 0,
                (g + 1) * (g + 1) <= usize::MAX,
                usize::MAX >= 65535,
        {}
        assert(usize::MAX as int == 2 * (isize::MAX as int) + 1);
    }
    let mut cells: Vec<(usize, isize, isize)> = Vec::new();
    let mut n = start;
    let mut y: isize = 0;
    while y <= grid_size
        invariant
            grid_size as int == g,
            g >= 0,
            start + (g + 1) * (g + 1) <= usize::MAX,
            g + 1 <= isize::MAX,
            0 <= y as int <= g + 1,
            n as int == start + y as int * (g + 1),
            cells@.len() == y as int * (g + 1),
            forall|j: int| 0 <= j < cells@.len() ==> cells@[j] == line_cell(g, start as int, j),
        decreases g + 1 - y,
    {
        let mut x: isize = 0;
        proof {
            assert((y as int + 1) * (g + 1) == y as int * (g + 1) + (g + 1)) by (nonlinear_arith) {}
            assert(y as int * (g + 1) + (g + 1) <= (g + 1) * (g + 1)) by (nonlinear_arith)
                requires
                    0 <= y as int <= g,
            {}
        }
        while x <= grid_size
            invariant
                grid_size as int == g,
                g >= 0,
                start + (g + 1) * (g + 1) <= usize::MAX,
                g + 1 <= isize::MAX,
                0 <= y as int <= g,
                0 <= x as int <= g + 1,
                y as int * (g + 1) + (g + 1) <= (g + 1) * (g + 1),
                n as int == start + y as int * (g + 1) + x as int,
                cells@.len() == y as int * (g + 1) + x as int,
                forall|j: int| 0 <= j < cells@.len() ==> cells@[j] == line_cell(g, start as int, j),
            decreases g + 1 - x,
        {
            proof {
                let j = cells@.len() as int;
                lemma_fundamental_div_mod_converse(j, g + 1, y as int, x as int);
            }
            cells.push((n, x, y));
            n = n + 1;
            x = x + 1;
        }
        proof {
            assert((y as int + 1) * (g + 1) == y as int * (g + 1) + (g + 1)) by (nonlinear_arith) {}
        }
        y = y + 1;
    }
    proof {
        assert(cells@.len() == (g + 1) * (g + 1)) by (nonlinear_arith)
            requires
                cells@.len() == y as int * (g + 1),
                y as int == g + 1,
        {}
        assert(cells@ =~= line_trace(g, start as int));
    }
    cells
}

/// The coordinates of the cells whose index is prime, in walk order.
pub open spec fn prime_cells(cells: Seq<(usize, isize, isize)>) -> Seq<(isize, isize)> {
    cells.filter(|c: (usize, isize, isize)| spec_is_prime(c.0 as int)).map_values(
        |c: (usize, isize, isize)| (c.1, c.2),
    )
}

/// Relies on rayon's parallel iterators: `par_iter` over a `Vec` is an
/// indexed parallel iterator, so `filter_map` keeps the input order and
/// `collect` gathers the surviving pairs into a `Vec` in that order; the
/// closure only calls the verified `is_prime` and picks tuple fields.
#[verifier::external_body]
fn par_filter_prime_cells(cells: Vec<(usize, isize, isize)>) -> (r: Vec<(isize, isize)>)
    ensures
        r@ == prime_cells(cells@),
{
    cells.par_iter().filter_map(|(i, x, y)| is_prime(*i).then_some((*x, *y))).collect()
}

/// Spiral traversal filtered to the prime-indexed cells, in walk order.
pub fn move_around(grid_size: isize, start: usize) -> (r: Vec<(isize, isize)>)
    requires
        grid_size >= 0,
        start + (2 * grid_size as int + 2) * (2 * grid_size as int + 2) <= usize::MAX,
    ensures
        exists|cells: Seq<(usize, isize, isize)>|
            is_spiral_trace(grid_size as int, start as int, cells) && r@ == #[trigger] prime_cells(
                cells,
            ),
{
    let tuples = generate_spiral_tuples(grid_size, start);
    let r = par_filter_prime_cells(tuples);
    proof {
        assert(is_spiral_trace(grid_size as int, start as int, tuples@) && r@ == prime_cells(
            tuples@,
        ));
    }
    r
}

/// Raster traversal filtered to the prime-indexed cells, in walk order.
pub fn move_in_line(grid_size: isize, start: usize) -> (r: Vec<(isize, isize)>)
    requires
        grid_size >= 0,
        start + (grid_size as int + 1) * (grid_size as int + 1) <= usize::MAX,
    ensures
        r@ == prime_cells(line_trace(grid_size as int, start as int)),
{
    let tuples = generate_line_tuples(grid_size, start);
    par_filter_prime_cells(tuples)
}

/// The spiral trace predicate pins the walk down: any two traces for the
/// same grid and start index are equal, so re-running the generator with
/// identical arguments yields identical output.
pub proof fn lemma_spiral_trace_unique(
    grid: int,
    start: int,
    c1: Seq<(usize, isize, isize)>,
    c2: Seq<(usize, isize, isize)>,
)
    requires
        is_spiral_trace(grid, start, c1),
        is_spiral_trace(grid, start, c2),
    ensures
        c1 == c2,
{
    if c1.len() < c2.len() {
        let j = c1.len() as int;
        assert(0 <= j < c2.len());
        assert(spiral_in_bounds(spiral_state(j as nat), grid));
        assert(false);
    }
    if c2.len() < c1.len() {
        let j = c2.len() as int;
        assert(0 <= j < c1.len());
        assert(spiral_in_bounds(spiral_state(j as nat), grid));
        assert(false);
    }
    assert forall|j: int| 0 <= j < c1.len() implies c1[j] == c2[j] by {
        assert(c1[j].0 as int == start + j && c2[j].0 as int == start + j);
    }
    assert(c1 =~= c2);
}

} // verus!
