//! Deterministic fixture layout: an integer square spiral plus a fixed
//! integer bit-mix jitter, so positions mean the same thing on every machine.
use vstd::prelude::*;
use vstd::wrapping::u64_specs::{wrapping_add, wrapping_mul};

verus! {

/// Jitter is quantized to 1/128 of a unit and bounded to +-32 units.
pub const JITTER_QUANTUM: i64 = 128;

/// Distinct jitter steps within a cell.
pub const JITTER_STEPS: u64 = 8192;

/// A square spiral outward from the origin: (0,0), (1,0), (1,1), (0,1), ...
/// Run lengths go 1,1,2,2,3,3,...
#[derive(Debug)]
pub struct SpiralWalker {
    pub x: i32,
    pub y: i32,
    pub dir: usize,
    pub run_len: i32,
    pub run_left: i32,
    pub runs_at_len: u8,
    pub first: bool,
}

impl Default for SpiralWalker {
    /// The walker at the origin, before its first cell.
    fn default() -> (w: Self)
        ensures
            w.wf(),
            w.on_spiral(),
            w.emitted() == 0,
            w.x == 0 && w.y == 0 && w.dir == 0,
            w.run_len == 1 && w.run_left == 1 && w.runs_at_len == 0,
            w.first,
    {
        SpiralWalker::new()
    }
}

/// The unit step of each direction: east, north, west, south.
pub open spec fn step_of(dir: usize) -> (int, int) {
    if dir == 0 {
        (1, 0)
    } else if dir == 1 {
        (0, 1)
    } else if dir == 2 {
        (-1, 0)
    } else {
        (0, -1)
    }
}

pub open spec fn abs_of(v: int) -> int {
    if v < 0 {
        -v
    } else {
        v
    }
}

/// The square ring a cell lies on: its Chebyshev distance from the origin.
pub open spec fn ring_of(x: int, y: int) -> int {
    if abs_of(x) < abs_of(y) {
        abs_of(y)
    } else {
        abs_of(x)
    }
}

/// A cell's place in the spiral. Ring `k` holds the `8k` places after the
/// `(2k-1)^2` cells inside it, walked from just above its bottom-right
/// corner up the right side, left along the top, down the left side and
/// right along the bottom.
pub open spec fn spiral_rank(x: int, y: int) -> int {
    let k = ring_of(x, y);
    let base = (2 * k - 1) * (2 * k - 1);
    if k == 0 {
        0
    } else if x == k && y > -k {
        base + y + k - 1
    } else if y == k && x < k {
        base + 2 * k + (k - 1 - x)
    } else if x == -k && y < k {
        base + 4 * k + (k - 1 - y)
    } else {
        base + 6 * k + x + k - 1
    }
}

/// Cells the spiral visits before run `4j + d`: runs are 1, 1, 2, 2, 3, 3,
/// ... long.
pub open spec fn run_base(d: usize, j: int) -> int {
    if d == 0 {
        2 * j * (2 * j + 1)
    } else if d == 1 {
        (2 * j + 1) * (2 * j + 1)
    } else if d == 2 {
        (2 * j + 1) * (2 * j + 2)
    } else {
        (2 * j + 2) * (2 * j + 2)
    }
}

/// The cell `s` steps into run `4j + d`.
pub open spec fn run_cell(d: usize, j: int, s: int) -> (int, int) {
    if d == 0 {
        (-j + s, -j)
    } else if d == 1 {
        (j + 1, -j + s)
    } else if d == 2 {
        (j + 1 - s, j + 1)
    } else {
        (-j - 1, j + 1 - s)
    }
}

/// The cell `s` steps into a run is the spiral's cell of that rank.
proof fn lemma_run_rank(d: usize, j: int, s: int)
    requires
        d < 4,
        0 <= j,
        0 <= s <= if d < 2 {
            2 * j + 1
        } else {
            2 * j + 2
        },
    ensures
        spiral_rank(run_cell(d, j, s).0, run_cell(d, j, s).1) == run_base(d, j) + s,
{
    let (x, y) = run_cell(d, j, s);
    let k = ring_of(x, y);
    let goal = run_base(d, j) + s;
    if d == 0 {
        if s == 0 {
            if j > 0 {
                assert(k == j);
                assert((2 * j - 1) * (2 * j - 1) + 6 * j - 1 == 2 * j * (2 * j + 1)) by (nonlinear_arith);
                assert(spiral_rank(x, y) == (2 * j - 1) * (2 * j - 1) + 4 * j + (j - 1 - y));
            } else {
                assert(2 * j * (2 * j + 1) == 0) by (nonlinear_arith)
                    requires
                        j == 0,
                ;
            }
            assert(spiral_rank(x, y) == goal);
        } else if s <= 2 * j {
            assert(k == j);
            assert((2 * j - 1) * (2 * j - 1) + 6 * j == 2 * j * (2 * j + 1) + 1) by (nonlinear_arith);
            assert(spiral_rank(x, y) == (2 * j - 1) * (2 * j - 1) + 6 * j + x + j - 1);
            assert(spiral_rank(x, y) == goal);
        } else {
            assert(k == j + 1);
            assert((2 * (j + 1) - 1) * (2 * (j + 1) - 1) == 2 * j * (2 * j + 1) + 2 * j + 1) by (nonlinear_arith);
            assert(spiral_rank(x, y) == goal);
        }
    } else if d == 1 {
        assert(k == j + 1);
        assert((2 * (j + 1) - 1) * (2 * (j + 1) - 1) == (2 * j + 1) * (2 * j + 1)) by (nonlinear_arith);
        assert(spiral_rank(x, y) == goal);
    } else if d == 2 {
        assert(k == j + 1);
        assert((2 * (j + 1) - 1) * (2 * (j + 1) - 1) + 2 * j + 1 == (2 * j + 1) * (2 * j + 2)) by (nonlinear_arith);
        assert(spiral_rank(x, y) == goal);
    } else {
        assert(k == j + 1);
        assert((2 * (j + 1) - 1) * (2 * (j + 1) - 1) + 4 * j + 3 == (2 * j + 2) * (2 * j + 2)) by (nonlinear_arith);
        assert(spiral_rank(x, y) == goal);
    }
}

impl SpiralWalker {
    /// A walker whose run bookkeeping is consistent.
    pub open spec fn wf(&self) -> bool {
        &&& self.dir < 4
        &&& 1 <= self.run_left <= self.run_len
        &&& self.runs_at_len < 2
    }

    /// The run index's `j`: run `4j + dir` is `run_len` long.
    pub open spec fn run_j(&self) -> int {
        if self.dir < 2 {
            (self.run_len - 1) / 2
        } else {
            (self.run_len - 2) / 2
        }
    }

    /// The walker stands on the spiral: its bookkeeping names a run of the
    /// spiral and its position is where that run has got to.
    pub open spec fn on_spiral(&self) -> bool {
        let j = self.run_j();
        &&& self.wf()
        &&& j >= 0
        &&& self.run_len == if self.dir < 2 {
            2 * j + 1
        } else {
            2 * j + 2
        }
        &&& self.runs_at_len == self.dir % 2
        &&& (self.x as int, self.y as int) == run_cell(self.dir, j, self.run_len - self.run_left)
        &&& self.first ==> self.x == 0 && self.y == 0 && self.dir == 0 && self.run_len == 1
            && self.run_left == 1
    }

    /// How many cells the walker has handed out.
    pub open spec fn emitted(&self) -> int {
        if self.first {
            0
        } else {
            run_base(self.dir, self.run_j()) + (self.run_len - self.run_left) + 1
        }
    }

    /// Room for one more step without leaving the `i32` lattice.
    pub open spec fn can_step(&self) -> bool {
        &&& i32::MIN < self.x < i32::MAX
        &&& i32::MIN < self.y < i32::MAX
        &&& self.run_len < i32::MAX
    }

    /// The walker at the origin, before its first cell.
    pub fn new() -> (w: Self)
        ensures
            w.wf(),
            w.on_spiral(),
            w.emitted() == 0,
            w.x == 0 && w.y == 0 && w.dir == 0,
            w.run_len == 1 && w.run_left == 1 && w.runs_at_len == 0,
            w.first,
    {
        SpiralWalker { x: 0, y: 0, dir: 0, run_len: 1, run_left: 1, runs_at_len: 0, first: true }
    }

    /// The next cell of the spiral: the origin first, then one unit step per
    /// call, turning left after each run. The cell handed out is the one
    /// whose spiral rank is the number of cells handed out before it.
    pub fn next_cell(&mut self) -> (cell: (i32, i32))
        requires
            old(self).on_spiral(),
            old(self).can_step(),
        ensures
            final(self).wf(),
            final(self).on_spiral(),
            spiral_rank(cell.0 as int, cell.1 as int) == old(self).emitted(),
            final(self).emitted() == old(self).emitted() + 1,
            old(self).first ==> cell == (0i32, 0i32) && !final(self).first && final(self).x
                == old(self).x && final(self).y == old(self).y && final(self).dir == old(
                self,
            ).dir && final(self).run_len == old(self).run_len && final(self).run_left == old(
                self,
            ).run_left && final(self).runs_at_len == old(self).runs_at_len,
            !old(self).first ==> {
                let (dx, dy) = step_of(old(self).dir);
                let turn = old(self).run_left == 1;
                let grow = turn && old(self).runs_at_len == 1;
                &&& !final(self).first
                &&& final(self).x == old(self).x + dx
                &&& final(self).y == old(self).y + dy
                &&& cell == (final(self).x, final(self).y)
                &&& final(self).dir == if turn {
                    ((old(self).dir + 1) % 4) as usize
                } else {
                    old(self).dir
                }
                &&& final(self).runs_at_len == if !turn {
                    old(self).runs_at_len
                } else if grow {
                    0u8
                } else {
                    1u8
                }
                &&& final(self).run_len == if grow {
                    old(self).run_len + 1
                } else {
                    old(self).run_len as int
                }
                &&& final(self).run_left == if turn {
                    final(self).run_len as int
                } else {
                    old(self).run_left - 1
                }
            },
    {
        if self.first {
            self.first = false;
            proof {
                lemma_run_rank(0, 0, 0);
            }
            return (0, 0);
        }
        let ghost d0 = self.dir;
        let ghost j0 = self.run_j();
        let ghost s0 = self.run_len - self.run_left;
        let (dx, dy): (i32, i32) = if self.dir == 0 {
            (1, 0)
        } else if self.dir == 1 {
            (0, 1)
        } else if self.dir == 2 {
            (-1, 0)
        } else {
            (0, -1)
        };
        self.x = self.x + dx;
        self.y = self.y + dy;
        self.run_left = self.run_left - 1;
        if self.run_left == 0 {
            self.dir = (self.dir + 1) % 4;
            self.runs_at_len = self.runs_at_len + 1;
            if self.runs_at_len == 2 {
                self.runs_at_len = 0;
                self.run_len = self.run_len + 1;
            }
            self.run_left = self.run_len;
        }
        proof {
            lemma_run_rank(d0, j0, s0 + 1);
            if s0 + 1 == if d0 < 2 {
                2 * j0 + 1
            } else {
                2 * j0 + 2
            } {
                // The run is done: its last cell is where the next run starts.
                let j1 = self.run_j();
                lemma_run_rank(self.dir, j1, 0);
                if d0 == 3 {
                    assert(j1 == j0 + 1);
                    assert(run_base(0, j1) == run_base(3, j0) + 2 * j0 + 2) by (nonlinear_arith)
                        requires j1 == j0 + 1;
                } else {
                    assert(j1 == j0);
                    assert(run_base(self.dir, j1) == run_base(d0, j0) + s0 + 1) by (nonlinear_arith)
                        requires
                            j1 == j0,
                            d0 < 3,
                            self.dir == d0 + 1,
                            s0 + 1 == if d0 < 2 {
                                2 * j0 + 1
                            } else {
                                2 * j0 + 2
                            };
                }
            }
        }
        (self.x, self.y)
    }
}

/// A walker never hands out a cell twice: the cell `next_cell` hands out is
/// the one whose spiral rank is the number of cells handed out before it,
/// so cells handed out at different counts differ.
pub proof fn lemma_cells_never_repeat(w1: SpiralWalker, c1: (i32, i32), w2: SpiralWalker, c2: (i32, i32))
    requires
        spiral_rank(c1.0 as int, c1.1 as int) == w1.emitted(),
        spiral_rank(c2.0 as int, c2.1 as int) == w2.emitted(),
        w1.emitted() != w2.emitted(),
    ensures
        c1 != c2,
{
}

/// splitmix64's finalizer over `(slot << 1) | axis`.
pub open spec fn spec_mix(slot: u32, axis: u32) -> u64 {
    let z0 = ((slot as u64) << 1u64) | (axis as u64);
    let z1 = wrapping_add(z0, 0x9E37_79B9_7F4A_7C15u64);
    let z2 = wrapping_mul(z1 ^ (z1 >> 30u64), 0xBF58_476D_1CE4_E5B9u64);
    let z3 = wrapping_mul(z2 ^ (z2 >> 27u64), 0x94D0_49BB_1331_11EBu64);
    z3 ^ (z3 >> 31u64)
}

/// A slot's deterministic offset within its cell, in 1/128 units: the mix
/// reduced to `JITTER_STEPS` steps and centred on zero.
pub open spec fn spec_jitter_step(slot: u32, axis: u32) -> int {
    (spec_mix(slot, axis) % JITTER_STEPS) as int - (JITTER_STEPS / 2) as int
}

/// The jitter of `slot` on `axis`, in 1/128 graph-space units; dividing by
/// `JITTER_QUANTUM` gives an offset within +-32 units, inside the cell.
pub fn jitter_step(slot: u32, axis: u32) -> (step: i64)
    requires
        axis < 2,
    ensures
        step == spec_jitter_step(slot, axis),
        -4096 <= step < 4096,
{
    let mut z: u64 = ((slot as u64) << 1u64) | (axis as u64);
    z = z.wrapping_add(0x9E37_79B9_7F4A_7C15);
    z = (z ^ (z >> 30u64)).wrapping_mul(0xBF58_476D_1CE4_E5B9);
    z = (z ^ (z >> 27u64)).wrapping_mul(0x94D0_49BB_1331_11EB);
    z = z ^ (z >> 31u64);
    (z % JITTER_STEPS) as i64 - (JITTER_STEPS / 2) as i64
}

} // verus!
