use vstd::prelude::*;

verus! {

/// Column and row of the pixel rendered by work unit `n` of an `nx` by `ny`
/// image. Units run row by row from the top of the image; rows are counted
/// from the bottom, as the image plane's `v` grows upward.
pub open spec fn pixel_spec(n: int, nx: int, ny: int) -> (int, int) {
    (n % nx, ny - 1 - n / nx)
}

/// The work unit that renders pixel `(i, j)`.
pub open spec fn unit_spec(i: int, j: int, nx: int, ny: int) -> int {
    (ny - 1 - j) * nx + i
}

proof fn lemma_row_in_range(n: int, nx: int, ny: int)
    requires
        nx > 0,
        0 <= n < nx * ny,
    ensures
        0 <= n / nx < ny,
        0 <= n % nx < nx,
{
    assert(0 <= n / nx) by (nonlinear_arith)
        requires
            nx > 0,
            n >= 0,
    ;
    assert(n / nx < ny) by (nonlinear_arith)
        requires
            nx > 0,
            0 <= n < nx * ny,
    ;
}

/// Column and row of the pixel that work unit `n` renders.
pub fn pixel_of(n: usize, nx: usize, ny: usize) -> (r: (usize, usize))
    requires
        nx > 0,
        n < nx * ny,
    ensures
        r.0 < nx,
        r.1 < ny,
        (r.0 as int, r.1 as int) == pixel_spec(n as int, nx as int, ny as int),
{
    proof {
        lemma_row_in_range(n as int, nx as int, ny as int);
    }
    (n % nx, ny - 1 - n / nx)
}

/// The work unit that renders pixel `(i, j)`.
pub fn unit_of(i: usize, j: usize, nx: usize, ny: usize) -> (r: usize)
    requires
        i < nx,
        j < ny,
        nx * ny <= usize::MAX,
    ensures
        r == unit_spec(i as int, j as int, nx as int, ny as int),
        r < nx * ny,
{
    proof {
        assert((ny - 1 - j) * nx + i < nx * ny) by (nonlinear_arith)
            requires
                i < nx,
                j < ny,
        ;
        assert(0 <= (ny - 1 - j) * nx) by (nonlinear_arith)
            requires
                j < ny,
                nx > 0,
        ;
    }
    (ny - 1 - j) * nx + i
}

/// Image assembly: work units and pixels correspond one to one, so every
/// pixel is rendered by exactly one unit and each result finds its place
/// whatever order the units finish in.
pub proof fn lemma_pixel_round_trip(nx: int, ny: int)
    requires
        nx > 0,
        ny > 0,
    ensures
        forall|n: int|
            0 <= n < nx * ny ==> {
                let p = #[trigger] pixel_spec(n, nx, ny);
                &&& 0 <= p.0 < nx
                &&& 0 <= p.1 < ny
                &&& unit_spec(p.0, p.1, nx, ny) == n
            },
        forall|i: int, j: int|
            0 <= i < nx && 0 <= j < ny ==> {
                let n = #[trigger] unit_spec(i, j, nx, ny);
                &&& 0 <= n < nx * ny
                &&& pixel_spec(n, nx, ny) == (i, j)
            },
{
    assert forall|n: int| 0 <= n < nx * ny implies {
        let p = #[trigger] pixel_spec(n, nx, ny);
        &&& 0 <= p.0 < nx
        &&& 0 <= p.1 < ny
        &&& unit_spec(p.0, p.1, nx, ny) == n
    } by {
        lemma_row_in_range(n, nx, ny);
        assert(n == (n / nx) * nx + n % nx) by (nonlinear_arith)
            requires
                nx > 0,
        ;
    }
    assert forall|i: int, j: int| 0 <= i < nx && 0 <= j < ny implies {
        let n = #[trigger] unit_spec(i, j, nx, ny);
        &&& 0 <= n < nx * ny
        &&& pixel_spec(n, nx, ny) == (i, j)
    } by {
        let r = ny - 1 - j;
        let n = r * nx + i;
        assert(0 <= n < nx * ny) by (nonlinear_arith)
            requires
                0 <= i < nx,
                0 <= r < ny,
                n == r * nx + i,
        ;
        assert(n / nx == r && n % nx == i) by (nonlinear_arith)
            requires
                0 <= i < nx,
                0 <= r,
                n == r * nx + i,
        ;
    }
}

} // verus!
