//! The distance engine: a Wagner–Fischer matrix allocated once and reused by
//! every comparison, guarded by a lock so that callers on several threads share it.
use vstd::prelude::*;
use vstd::rwlock::{RwLock, RwLockPredicate};
use crate::distance::{edit_distance, lemma_prefix_step, lemma_upper_bound, min3};

verus! {

/// Why a comparison was refused: one of the two words does not fit the matrix.
#[derive(Debug, PartialEq, Eq, Structural)]
pub enum LevError {
    /// The first word (the query) is as long as the query capacity or longer.
    XWordOutOfBound,
    /// The second word (the candidate) is as long as the candidate capacity or longer.
    YWordOutOfBound,
}

/// The shape that the guarded matrix keeps between comparisons.
pub struct GridShape {
    pub xlen: usize,
    pub ylen: usize,
}

/// `ylen` rows of `xlen` cells, whose first row and first column hold their own
/// index: the distance from a prefix to the empty word.
pub open spec fn grid_ready(m: Seq<Vec<i32>>, xlen: nat, ylen: nat) -> bool {
    &&& m.len() == ylen
    &&& forall|y: int| 0 <= y < ylen ==> #[trigger] m[y]@.len() == xlen
    &&& forall|y: int| 0 <= y < ylen && xlen > 0 ==> #[trigger] m[y]@[0] == y
    &&& ylen > 0 ==> forall|x: int| 0 <= x < xlen ==> #[trigger] m[0]@[x] == x
}

impl RwLockPredicate<Vec<Vec<i32>>> for GridShape {
    open spec fn inv(self, m: Vec<Vec<i32>>) -> bool {
        grid_ready(m@, self.xlen as nat, self.ylen as nat)
    }
}

/// Edit distance between words shorter than two fixed capacities.
pub struct Lev {
    xlen: usize,
    ylen: usize,
    matrix: RwLock<Vec<Vec<i32>>, GridShape>,
}

/// The characters of `s`, one per element.
fn chars_of(s: &str) -> (r: Vec<char>)
    ensures
        r@ == s@,
{
    let n = s.unicode_len();
    let mut r: Vec<char> = Vec::new();
    let mut i: usize = 0;
    while i < n
        invariant
            n == s@.len(),
            i <= n,
            r@ == s@.take(i as int),
        decreases n - i,
    {
        r.push(s.get_char(i));
        i += 1;
        assert(r@ =~= s@.take(i as int));
    }
    assert(s@.take(n as int) =~= s@);
    r
}

impl Lev {
    #[verifier::type_invariant]
    spec fn shape_kept(&self) -> bool {
        &&& self.matrix.pred() == (GridShape { xlen: self.xlen, ylen: self.ylen })
        &&& self.xlen <= i32::MAX
        &&& self.ylen <= i32::MAX
    }

    /// Words compared as the first argument must be shorter than this.
    pub closed spec fn query_capacity(&self) -> nat {
        self.xlen as nat
    }

    /// Words compared as the second argument must be shorter than this.
    pub closed spec fn candidate_capacity(&self) -> nat {
        self.ylen as nat
    }

    /// Allocates the matrix and writes its first row and column. A capacity of 0
    /// is accepted and refuses every word on that side, the empty one included.
    pub fn new(xlen: usize, ylen: usize) -> (r: Lev)
        requires
            xlen <= i32::MAX,
            ylen <= i32::MAX,
        ensures
            r.query_capacity() == xlen,
            r.candidate_capacity() == ylen,
    {
        let mut matrix: Vec<Vec<i32>> = Vec::new();
        let mut y: usize = 0;
        while y < ylen
            invariant
                y <= ylen <= i32::MAX,
                xlen <= i32::MAX,
                grid_ready(matrix@, xlen as nat, y as nat),
            decreases ylen - y,
        {
            let mut row: Vec<i32> = Vec::new();
            let mut x: usize = 0;
            while x < xlen
                invariant
                    x <= xlen <= i32::MAX,
                    y < ylen <= i32::MAX,
                    row@.len() == x,
                    x > 0 ==> row@[0] == y,
                    y == 0 ==> forall|k: int| 0 <= k < x ==> row@[k] == k,
                decreases xlen - x,
            {
                if y == 0 {
                    row.push(x as i32);
                } else if x == 0 {
                    row.push(y as i32);
                } else {
                    row.push(0);
                }
                x += 1;
            }
            matrix.push(row);
            y += 1;
        }
        Lev { xlen, ylen, matrix: RwLock::new(matrix, Ghost(GridShape { xlen, ylen })) }
    }

    /// The value of cell `(y, x)` from its three filled neighbours.
    fn neighbors(bmatrix: &Vec<Vec<i32>>, y: usize, x: usize, matched: bool) -> (r: i32)
        requires
            1 <= y < bmatrix@.len(),
            1 <= x < bmatrix@[y as int]@.len(),
            x < bmatrix@[y - 1]@.len(),
            0 <= bmatrix@[y - 1]@[x - 1] < i32::MAX,
            0 <= bmatrix@[y as int]@[x - 1] < i32::MAX,
            0 <= bmatrix@[y - 1]@[x as int] < i32::MAX,
        ensures
            r == min3(
                (bmatrix@[y - 1]@[x - 1] + if matched { 0int } else { 1 }) as nat,
                (bmatrix@[y as int]@[x - 1] + 1) as nat,
                (bmatrix@[y - 1]@[x as int] + 1) as nat,
            ),
    {
        let diag = bmatrix[y - 1][x - 1] + if matched { 0 } else { 1 };
        let left = bmatrix[y][x - 1] + 1;
        let up = bmatrix[y - 1][x] + 1;
        if diag <= left && diag <= up {
            diag
        } else if left <= up {
            left
        } else {
            up
        }
    }

    /// The edit distance between `xword` and `yword`, counted in characters.
    pub fn compare(&self, xword: &str, yword: &str) -> (r: Result<i32, LevError>)
        ensures
            self.query_capacity() <= i32::MAX,
            self.candidate_capacity() <= i32::MAX,
            xword@.len() >= self.query_capacity() ==> r == Err::<i32, LevError>(
                LevError::XWordOutOfBound,
            ),
            xword@.len() < self.query_capacity() && yword@.len() >= self.candidate_capacity()
                ==> r == Err::<i32, LevError>(LevError::YWordOutOfBound),
            xword@.len() < self.query_capacity() && yword@.len() < self.candidate_capacity()
                ==> r == Ok::<i32, LevError>(edit_distance(xword@, yword@) as i32),
    {
        proof {
            use_type_invariant(self);
        }
        let nx = xword.unicode_len();
        if nx >= self.xlen {
            return Err(LevError::XWordOutOfBound);
        }
        let ny = yword.unicode_len();
        if ny >= self.ylen {
            return Err(LevError::YWordOutOfBound);
        }
        let xs = chars_of(xword);
        let ys = chars_of(yword);
        let ghost xv = xs@;
        let ghost yv = ys@;
        let (mut m, handle) = self.matrix.acquire_write();
        let ghost (xlen, ylen) = (self.xlen as nat, self.ylen as nat);
        assert forall|j: int| 0 <= j <= nx implies #[trigger] m@[0]@[j] == edit_distance(
            xv.take(j),
            yv.take(0),
        ) by {
            assert(yv.take(0).len() == 0);
        }
        let mut y: usize = 1;
        while y <= ny
            invariant
                1 <= y <= ny + 1,
                nx < xlen <= i32::MAX,
                ny < ylen <= i32::MAX,
                xs@ == xv,
                ys@ == yv,
                xv.len() == nx,
                yv.len() == ny,
                grid_ready(m@, xlen, ylen),
                forall|i: int, j: int|
                    0 <= i < y && 0 <= j <= nx ==> #[trigger] m@[i]@[j] == edit_distance(
                        xv.take(j),
                        yv.take(i),
                    ),
            decreases ny + 1 - y,
        {
            proof {
                assert(xv.take(0).len() == 0);
                assert(m@[y as int]@[0] == edit_distance(xv.take(0), yv.take(y as int)));
            }
            let mut x: usize = 1;
            while x <= nx
                invariant
                    1 <= y <= ny,
                    1 <= x <= nx + 1,
                    nx < xlen <= i32::MAX,
                    ny < ylen <= i32::MAX,
                    xs@ == xv,
                    ys@ == yv,
                    xv.len() == nx,
                    yv.len() == ny,
                    grid_ready(m@, xlen, ylen),
                    forall|i: int, j: int|
                        0 <= i < y && 0 <= j <= nx ==> #[trigger] m@[i]@[j] == edit_distance(
                            xv.take(j),
                            yv.take(i),
                        ),
                    forall|j: int|
                        0 <= j < x ==> #[trigger] m@[y as int]@[j] == edit_distance(
                            xv.take(j),
                            yv.take(y as int),
                        ),
                decreases nx + 1 - x,
            {
                proof {
                    lemma_prefix_step(xv, yv, x as int, y as int);
                    lemma_upper_bound(xv.take(x - 1), yv.take(y - 1));
                    lemma_upper_bound(xv.take(x - 1), yv.take(y as int));
                    lemma_upper_bound(xv.take(x as int), yv.take(y - 1));
                }
                let v = Self::neighbors(&m, y, x, xs[x - 1] == ys[y - 1]);
                m[y][x] = v;
                x += 1;
            }
            y += 1;
        }
        let d = m[ny][nx];
        handle.release_write(m);
        assert(xv.take(nx as int) =~= xv);
        assert(yv.take(ny as int) =~= yv);
        Ok(d)
    }
}

} // verus!
