use vstd::prelude::*;
use vstd::arithmetic::div_mod::{lemma_fundamental_div_mod, lemma_multiply_divide_lt};
use crate::array::{
    deterministic2, deterministic5, in_grid, lemma_ravel_in_bounds, ravel_spec, zeros, Array2D,
};

verus! {

/// Column `i`, row `j` lie strictly inside the one-cell boundary ring.
pub open spec fn interior(nx: int, ny: int, i: int, j: int) -> bool {
    1 <= i < nx - 1 && 1 <= j < ny - 1
}

/// Distinct in-bounds grid nodes have distinct flat positions.
proof fn lemma_ravel_distinct(nx: int, a: int, b: int, i: int, j: int)
    requires
        0 <= a < nx,
        0 <= i < nx,
        !(a == i && b == j),
    ensures
        ravel_spec(nx, a, b) != ravel_spec(nx, i, j),
{
    assert(b * nx + a != j * nx + i) by (nonlinear_arith)
        requires
            0 <= a < nx,
            0 <= i < nx,
            !(a == i && b == j),
    ;
}

/// Every flat position `k` of an `nx` by `ny` array is the position of
/// exactly one grid node, namely column `k % nx`, row `k / nx`.
pub proof fn lemma_grid_index(nx: int, ny: int, k: int)
    requires
        nx >= 0,
        ny >= 0,
        0 <= k < nx * ny,
    ensures
        in_grid(nx, ny, k % nx, k / nx),
        ravel_spec(nx, k % nx, k / nx) == k,
{
    assert(nx > 0) by (nonlinear_arith)
        requires nx >= 0, 0 <= k < nx * ny,
    ;
    assert(0 <= k % nx < nx && 0 <= k / nx) by (nonlinear_arith)
        requires nx > 0, 0 <= k,
    ;
    lemma_multiply_divide_lt(k, nx, ny);
    lemma_fundamental_div_mod(k, nx);
    assert((k / nx) * nx == nx * (k / nx)) by (nonlinear_arith);
}

/// The result of one interior pass of a 5-point stencil: at every interior
/// node the output is a result `op` admits for the centre sample and its
/// four neighbours (centre, left, right, below, above); every node on the
/// boundary ring is left at zero.
pub open spec fn is_stencil5<F: Fn(u32, u32, u32, u32, u32) -> u32>(
    nx: int,
    ny: int,
    src: Seq<u32>,
    op: F,
    out: Seq<u32>,
) -> bool {
    &&& src.len() == nx * ny
    &&& out.len() == nx * ny
    &&& forall|i: int, j: int| interior(nx, ny, i, j) ==> call_ensures(
        op,
        (
            src[ravel_spec(nx, i, j)],
            src[ravel_spec(nx, i - 1, j)],
            src[ravel_spec(nx, i + 1, j)],
            src[ravel_spec(nx, i, j - 1)],
            src[ravel_spec(nx, i, j + 1)],
        ),
        #[trigger] out[ravel_spec(nx, i, j)],
    )
    &&& forall|i: int, j: int| in_grid(nx, ny, i, j) && !interior(nx, ny, i, j) ==>
        #[trigger] out[ravel_spec(nx, i, j)] == 0u32
}

/// One interior pass of a 5-point stencil over `array`: the stencil result
/// is written into a fresh zero-filled buffer, so the boundary ring of the
/// result stays zero and the source is never mutated.
fn stencil5<F: Fn(u32, u32, u32, u32, u32) -> u32>(array: &Array2D, op: F) -> (r: Array2D)
    requires
        array.wf(),
        array.size[0] >= 1,
        array.size[1] >= 1,
        forall|c: u32, xm: u32, xp: u32, ym: u32, yp: u32| call_requires(op, (c, xm, xp, ym, yp)),
    ensures
        r.size[0] == array.size[0],
        r.size[1] == array.size[1],
        r.wf(),
        is_stencil5(array.size[0] as int, array.size[1] as int, array.data@, op, r.data@),
{
    let nx = array.size[0];
    let ny = array.size[1];
    let ghost nxi = nx as int;
    let ghost nyi = ny as int;
    let ghost src = array.data@;
    let mut data = zeros(nx * ny);
    proof {
        assert forall|a: int, b: int| in_grid(nxi, nyi, a, b) implies #[trigger] data@[ravel_spec(
            nxi,
            a,
            b,
        )] == 0u32 by {
            lemma_ravel_in_bounds(nxi, nyi, a, b);
        }
    }
    let mut j: usize = 1;
    while j < ny - 1
        invariant
            array.wf(),
            nx == array.size[0],
            ny == array.size[1],
            nx >= 1,
            ny >= 1,
            nxi == nx as int,
            nyi == ny as int,
            src == array.data@,
            forall|c: u32, xm: u32, xp: u32, ym: u32, yp: u32|
                call_requires(op, (c, xm, xp, ym, yp)),
            data@.len() == nxi * nyi,
            1 <= j,
            j <= nyi - 1 || j == 1,
            forall|a: int, b: int| interior(nxi, nyi, a, b) && b < j ==> call_ensures(
                op,
                (
                    src[ravel_spec(nxi, a, b)],
                    src[ravel_spec(nxi, a - 1, b)],
                    src[ravel_spec(nxi, a + 1, b)],
                    src[ravel_spec(nxi, a, b - 1)],
                    src[ravel_spec(nxi, a, b + 1)],
                ),
                #[trigger] data@[ravel_spec(nxi, a, b)],
            ),
            forall|a: int, b: int|
                in_grid(nxi, nyi, a, b) && !(interior(nxi, nyi, a, b) && b < j) ==>
                    #[trigger] data@[ravel_spec(nxi, a, b)] == 0u32,
        decreases nyi - j,
    {
        let mut i: usize = 1;
        while i < nx - 1
            invariant
                array.wf(),
                nx == array.size[0],
                ny == array.size[1],
                nx >= 1,
                nxi == nx as int,
                nyi == ny as int,
                src == array.data@,
                forall|c: u32, xm: u32, xp: u32, ym: u32, yp: u32|
                    call_requires(op, (c, xm, xp, ym, yp)),
                data@.len() == nxi * nyi,
                1 <= j < nyi - 1,
                1 <= i,
                i <= nxi - 1 || i == 1,
                forall|a: int, b: int|
                    interior(nxi, nyi, a, b) && (b < j || (b == j && a < i)) ==> call_ensures(
                        op,
                        (
                            src[ravel_spec(nxi, a, b)],
                            src[ravel_spec(nxi, a - 1, b)],
                            src[ravel_spec(nxi, a + 1, b)],
                            src[ravel_spec(nxi, a, b - 1)],
                            src[ravel_spec(nxi, a, b + 1)],
                        ),
                        #[trigger] data@[ravel_spec(nxi, a, b)],
                    ),
                forall|a: int, b: int|
                    in_grid(nxi, nyi, a, b) && !(interior(nxi, nyi, a, b) && (b < j || (b == j
                        && a < i))) ==> #[trigger] data@[ravel_spec(nxi, a, b)] == 0u32,
            decreases nxi - i,
        {
            let c = array.value(i, j);
            let xm = array.value(i - 1, j);
            let xp = array.value(i + 1, j);
            let ym = array.value(i, j - 1);
            let yp = array.value(i, j + 1);
            let v = op(c, xm, xp, ym, yp);
            let idx = array.ravel(i, j);
            let ghost prev = data@;
            data[idx] = v;
            proof {
                let ii = i as int;
                let jj = j as int;
                assert forall|a: int, b: int|
                    interior(nxi, nyi, a, b) && (b < jj || (b == jj && a < ii + 1)) implies
                    call_ensures(
                        op,
                        (
                            src[ravel_spec(nxi, a, b)],
                            src[ravel_spec(nxi, a - 1, b)],
                            src[ravel_spec(nxi, a + 1, b)],
                            src[ravel_spec(nxi, a, b - 1)],
                            src[ravel_spec(nxi, a, b + 1)],
                        ),
                        #[trigger] data@[ravel_spec(nxi, a, b)],
                    ) by {
                    lemma_ravel_in_bounds(nxi, nyi, a, b);
                    lemma_ravel_in_bounds(nxi, nyi, a - 1, b);
                    lemma_ravel_in_bounds(nxi, nyi, a + 1, b);
                    lemma_ravel_in_bounds(nxi, nyi, a, b - 1);
                    lemma_ravel_in_bounds(nxi, nyi, a, b + 1);
                    if a == ii && b == jj {
                        assert(data@[ravel_spec(nxi, a, b)] == v);
                    } else {
                        lemma_ravel_distinct(nxi, a, b, ii, jj);
                        assert(data@[ravel_spec(nxi, a, b)] == prev[ravel_spec(nxi, a, b)]);
                    }
                }
                assert forall|a: int, b: int|
                    in_grid(nxi, nyi, a, b) && !(interior(nxi, nyi, a, b) && (b < jj || (b == jj
                        && a < ii + 1))) implies #[trigger] data@[ravel_spec(nxi, a, b)]
                    == 0u32 by {
                    lemma_ravel_in_bounds(nxi, nyi, a, b);
                    lemma_ravel_distinct(nxi, a, b, ii, jj);
                    assert(data@[ravel_spec(nxi, a, b)] == prev[ravel_spec(nxi, a, b)]);
                }
            }
            i += 1;
        }
        j += 1;
    }
    Array2D { size: [nx, ny], data }
}

/// The result of the central-difference derivative along the row
/// direction: at every interior node the output is a result `f` admits
/// for the right and left neighbour samples (in that order); the
/// boundary ring is zero.
pub open spec fn is_diff_x<F: Fn(u32, u32) -> u32>(
    nx: int,
    ny: int,
    src: Seq<u32>,
    f: F,
    out: Seq<u32>,
) -> bool {
    &&& src.len() == nx * ny
    &&& out.len() == nx * ny
    &&& forall|i: int, j: int| interior(nx, ny, i, j) ==> call_ensures(
        f,
        (src[ravel_spec(nx, i + 1, j)], src[ravel_spec(nx, i - 1, j)]),
        #[trigger] out[ravel_spec(nx, i, j)],
    )
    &&& forall|i: int, j: int| in_grid(nx, ny, i, j) && !interior(nx, ny, i, j) ==>
        #[trigger] out[ravel_spec(nx, i, j)] == 0u32
}

/// The result of the central-difference derivative along the column
/// direction: at every interior node the output is a result `f` admits
/// for the samples above and below (in that order); the boundary ring
/// is zero.
pub open spec fn is_diff_y<F: Fn(u32, u32) -> u32>(
    nx: int,
    ny: int,
    src: Seq<u32>,
    f: F,
    out: Seq<u32>,
) -> bool {
    &&& src.len() == nx * ny
    &&& out.len() == nx * ny
    &&& forall|i: int, j: int| interior(nx, ny, i, j) ==> call_ensures(
        f,
        (src[ravel_spec(nx, i, j + 1)], src[ravel_spec(nx, i, j - 1)]),
        #[trigger] out[ravel_spec(nx, i, j)],
    )
    &&& forall|i: int, j: int| in_grid(nx, ny, i, j) && !interior(nx, ny, i, j) ==>
        #[trigger] out[ravel_spec(nx, i, j)] == 0u32
}

/// The result of the 5-point second-derivative pass; the operator sees
/// centre, left, right, below and above samples, in that order.
pub open spec fn is_laplace<F: Fn(u32, u32, u32, u32, u32) -> u32>(
    nx: int,
    ny: int,
    src: Seq<u32>,
    f: F,
    out: Seq<u32>,
) -> bool {
    is_stencil5(nx, ny, src, f, out)
}

/// Central difference along the row direction: at every interior node
/// `combine` is applied to the right and the left neighbour sample; the
/// boundary ring of the result is zero and `array` is not mutated.
pub fn diff_x<F: Fn(u32, u32) -> u32 + Copy>(array: &Array2D, combine: F) -> (r: Array2D)
    requires
        array.wf(),
        array.size[0] >= 1,
        array.size[1] >= 1,
        forall|p: u32, m: u32| call_requires(combine, (p, m)),
    ensures
        r.size[0] == array.size[0],
        r.size[1] == array.size[1],
        r.wf(),
        is_diff_x(array.size[0] as int, array.size[1] as int, array.data@, combine, r.data@),
{
    let ghost nxi = array.size[0] as int;
    let ghost nyi = array.size[1] as int;
    let ghost src = array.data@;
    let op = |c: u32, xm: u32, xp: u32, ym: u32, yp: u32| -> (v: u32)
        requires
            call_requires(combine, (xp, xm)),
        ensures
            call_ensures(combine, (xp, xm), v),
        { combine(xp, xm) };
    let r = stencil5(array, op);
    proof {
        assert forall|i: int, j: int| interior(nxi, nyi, i, j) implies call_ensures(
            combine,
            (src[ravel_spec(nxi, i + 1, j)], src[ravel_spec(nxi, i - 1, j)]),
            #[trigger] r.data@[ravel_spec(nxi, i, j)],
        ) by {
            assert(call_ensures(
                op,
                (
                    src[ravel_spec(nxi, i, j)],
                    src[ravel_spec(nxi, i - 1, j)],
                    src[ravel_spec(nxi, i + 1, j)],
                    src[ravel_spec(nxi, i, j - 1)],
                    src[ravel_spec(nxi, i, j + 1)],
                ),
                r.data@[ravel_spec(nxi, i, j)],
            ));
        }
    }
    r
}

/// Central difference along the column direction: at every interior node
/// `combine` is applied to the sample above and the sample below; the
/// boundary ring of the result is zero and `array` is not mutated.
pub fn diff_y<F: Fn(u32, u32) -> u32 + Copy>(array: &Array2D, combine: F) -> (r: Array2D)
    requires
        array.wf(),
        array.size[0] >= 1,
        array.size[1] >= 1,
        forall|p: u32, m: u32| call_requires(combine, (p, m)),
    ensures
        r.size[0] == array.size[0],
        r.size[1] == array.size[1],
        r.wf(),
        is_diff_y(array.size[0] as int, array.size[1] as int, array.data@, combine, r.data@),
{
    let ghost nxi = array.size[0] as int;
    let ghost nyi = array.size[1] as int;
    let ghost src = array.data@;
    let op = |c: u32, xm: u32, xp: u32, ym: u32, yp: u32| -> (v: u32)
        requires
            call_requires(combine, (yp, ym)),
        ensures
            call_ensures(combine, (yp, ym), v),
        { combine(yp, ym) };
    let r = stencil5(array, op);
    proof {
        assert forall|i: int, j: int| interior(nxi, nyi, i, j) implies call_ensures(
            combine,
            (src[ravel_spec(nxi, i, j + 1)], src[ravel_spec(nxi, i, j - 1)]),
            #[trigger] r.data@[ravel_spec(nxi, i, j)],
        ) by {
            assert(call_ensures(
                op,
                (
                    src[ravel_spec(nxi, i, j)],
                    src[ravel_spec(nxi, i - 1, j)],
                    src[ravel_spec(nxi, i + 1, j)],
                    src[ravel_spec(nxi, i, j - 1)],
                    src[ravel_spec(nxi, i, j + 1)],
                ),
                r.data@[ravel_spec(nxi, i, j)],
            ));
        }
    }
    r
}

/// 5-point second-derivative pass: at every interior node `combine` is
/// applied to the centre, left, right, below and above samples, in that
/// order; the boundary ring of the result is zero and `array` is not
/// mutated.
pub fn laplace<F: Fn(u32, u32, u32, u32, u32) -> u32>(array: &Array2D, combine: F) -> (r: Array2D)
    requires
        array.wf(),
        array.size[0] >= 1,
        array.size[1] >= 1,
        forall|c: u32, xm: u32, xp: u32, ym: u32, yp: u32|
            call_requires(combine, (c, xm, xp, ym, yp)),
    ensures
        r.size[0] == array.size[0],
        r.size[1] == array.size[1],
        r.wf(),
        is_laplace(array.size[0] as int, array.size[1] as int, array.data@, combine, r.data@),
{
    stencil5(array, combine)
}

/// Both derivatives and the second-derivative pass in one interior
/// traversal of the source: the results are exactly those that
/// `diff_x`, `diff_y` and `laplace` admit for the same source and the
/// same operators.
pub fn diff_all<
    FX: Fn(u32, u32) -> u32 + Copy,
    FY: Fn(u32, u32) -> u32 + Copy,
    FL: Fn(u32, u32, u32, u32, u32) -> u32 + Copy,
>(array: &Array2D, fx: FX, fy: FY, fl: FL) -> (r: (Array2D, Array2D, Array2D))
    requires
        array.wf(),
        array.size[0] >= 1,
        array.size[1] >= 1,
        forall|p: u32, m: u32| call_requires(fx, (p, m)),
        forall|p: u32, m: u32| call_requires(fy, (p, m)),
        forall|c: u32, xm: u32, xp: u32, ym: u32, yp: u32| call_requires(fl, (c, xm, xp, ym, yp)),
    ensures
        r.0.size[0] == array.size[0],
        r.0.size[1] == array.size[1],
        r.0.wf(),
        r.1.size[0] == array.size[0],
        r.1.size[1] == array.size[1],
        r.1.wf(),
        r.2.size[0] == array.size[0],
        r.2.size[1] == array.size[1],
        r.2.wf(),
        is_diff_x(array.size[0] as int, array.size[1] as int, array.data@, fx, r.0.data@),
        is_diff_y(array.size[0] as int, array.size[1] as int, array.data@, fy, r.1.data@),
        is_laplace(array.size[0] as int, array.size[1] as int, array.data@, fl, r.2.data@),
{
    let ghost nxi = array.size[0] as int;
    let ghost nyi = array.size[1] as int;
    let ghost src = array.data@;
    let opx = |c: u32, xm: u32, xp: u32, ym: u32, yp: u32| -> (v: u32)
        requires
            call_requires(fx, (xp, xm)),
        ensures
            call_ensures(fx, (xp, xm), v),
        { fx(xp, xm) };
    let opy = |c: u32, xm: u32, xp: u32, ym: u32, yp: u32| -> (v: u32)
        requires
            call_requires(fy, (yp, ym)),
        ensures
            call_ensures(fy, (yp, ym), v),
        { fy(yp, ym) };
    let ddx = stencil5(array, opx);
    let ddy = stencil5(array, opy);
    let lap = stencil5(array, fl);
    proof {
        assert forall|i: int, j: int| interior(nxi, nyi, i, j) implies call_ensures(
            fx,
            (src[ravel_spec(nxi, i + 1, j)], src[ravel_spec(nxi, i - 1, j)]),
            #[trigger] ddx.data@[ravel_spec(nxi, i, j)],
        ) && call_ensures(
            fy,
            (src[ravel_spec(nxi, i, j + 1)], src[ravel_spec(nxi, i, j - 1)]),
            #[trigger] ddy.data@[ravel_spec(nxi, i, j)],
        ) by {
            assert(call_ensures(
                opx,
                (
                    src[ravel_spec(nxi, i, j)],
                    src[ravel_spec(nxi, i - 1, j)],
                    src[ravel_spec(nxi, i + 1, j)],
                    src[ravel_spec(nxi, i, j - 1)],
                    src[ravel_spec(nxi, i, j + 1)],
                ),
                ddx.data@[ravel_spec(nxi, i, j)],
            ));
            assert(call_ensures(
                opy,
                (
                    src[ravel_spec(nxi, i, j)],
                    src[ravel_spec(nxi, i - 1, j)],
                    src[ravel_spec(nxi, i + 1, j)],
                    src[ravel_spec(nxi, i, j - 1)],
                    src[ravel_spec(nxi, i, j + 1)],
                ),
                ddy.data@[ravel_spec(nxi, i, j)],
            ));
        }
    }
    (ddx, ddy, lap)
}

/// Law: for a deterministic operator the row-direction derivative of a
/// source is unique — any two buffers that both satisfy its contract
/// are equal at every position.
pub proof fn lemma_diff_x_unique<F: Fn(u32, u32) -> u32>(
    nx: int,
    ny: int,
    src: Seq<u32>,
    f: F,
    out1: Seq<u32>,
    out2: Seq<u32>,
)
    requires
        nx >= 0,
        ny >= 0,
        is_diff_x(nx, ny, src, f, out1),
        is_diff_x(nx, ny, src, f, out2),
        deterministic2(f),
    ensures
        out1 == out2,
{
    assert forall|k: int| 0 <= k < out1.len() implies out1[k] == out2[k] by {
        lemma_grid_index(nx, ny, k);
        let i = k % nx;
        let j = k / nx;
        if interior(nx, ny, i, j) {
            assert(call_ensures(
                f,
                (src[ravel_spec(nx, i + 1, j)], src[ravel_spec(nx, i - 1, j)]),
                out1[ravel_spec(nx, i, j)],
            ));
            assert(call_ensures(
                f,
                (src[ravel_spec(nx, i + 1, j)], src[ravel_spec(nx, i - 1, j)]),
                out2[ravel_spec(nx, i, j)],
            ));
        } else {
            assert(out1[ravel_spec(nx, i, j)] == 0u32);
            assert(out2[ravel_spec(nx, i, j)] == 0u32);
        }
    }
    assert(out1 =~= out2);
}

/// Law: for a deterministic operator the column-direction derivative of
/// a source is unique.
pub proof fn lemma_diff_y_unique<F: Fn(u32, u32) -> u32>(
    nx: int,
    ny: int,
    src: Seq<u32>,
    f: F,
    out1: Seq<u32>,
    out2: Seq<u32>,
)
    requires
        nx >= 0,
        ny >= 0,
        is_diff_y(nx, ny, src, f, out1),
        is_diff_y(nx, ny, src, f, out2),
        deterministic2(f),
    ensures
        out1 == out2,
{
    assert forall|k: int| 0 <= k < out1.len() implies out1[k] == out2[k] by {
        lemma_grid_index(nx, ny, k);
        let i = k % nx;
        let j = k / nx;
        if interior(nx, ny, i, j) {
            assert(call_ensures(
                f,
                (src[ravel_spec(nx, i, j + 1)], src[ravel_spec(nx, i, j - 1)]),
                out1[ravel_spec(nx, i, j)],
            ));
            assert(call_ensures(
                f,
                (src[ravel_spec(nx, i, j + 1)], src[ravel_spec(nx, i, j - 1)]),
                out2[ravel_spec(nx, i, j)],
            ));
        } else {
            assert(out1[ravel_spec(nx, i, j)] == 0u32);
            assert(out2[ravel_spec(nx, i, j)] == 0u32);
        }
    }
    assert(out1 =~= out2);
}

/// Law: for a deterministic operator the 5-point second-derivative pass
/// over a source is unique.
pub proof fn lemma_laplace_unique<F: Fn(u32, u32, u32, u32, u32) -> u32>(
    nx: int,
    ny: int,
    src: Seq<u32>,
    f: F,
    out1: Seq<u32>,
    out2: Seq<u32>,
)
    requires
        nx >= 0,
        ny >= 0,
        is_laplace(nx, ny, src, f, out1),
        is_laplace(nx, ny, src, f, out2),
        deterministic5(f),
    ensures
        out1 == out2,
{
    assert forall|k: int| 0 <= k < out1.len() implies out1[k] == out2[k] by {
        lemma_grid_index(nx, ny, k);
        let i = k % nx;
        let j = k / nx;
        if interior(nx, ny, i, j) {
            assert(call_ensures(
                f,
                (
                    src[ravel_spec(nx, i, j)],
                    src[ravel_spec(nx, i - 1, j)],
                    src[ravel_spec(nx, i + 1, j)],
                    src[ravel_spec(nx, i, j - 1)],
                    src[ravel_spec(nx, i, j + 1)],
                ),
                out1[ravel_spec(nx, i, j)],
            ));
            assert(call_ensures(
                f,
                (
                    src[ravel_spec(nx, i, j)],
                    src[ravel_spec(nx, i - 1, j)],
                    src[ravel_spec(nx, i + 1, j)],
                    src[ravel_spec(nx, i, j - 1)],
                    src[ravel_spec(nx, i, j + 1)],
                ),
                out2[ravel_spec(nx, i, j)],
            ));
        } else {
            assert(out1[ravel_spec(nx, i, j)] == 0u32);
            assert(out2[ravel_spec(nx, i, j)] == 0u32);
        }
    }
    assert(out1 =~= out2);
}

/// Law: with deterministic operators, the combined single-call operator
/// and the three independent operators agree exactly — any outputs that
/// satisfy the combined contract equal, buffer for buffer, any outputs
/// that satisfy the three independent contracts on the same source.
pub proof fn lemma_diff_all_matches_separate<
    FX: Fn(u32, u32) -> u32,
    FY: Fn(u32, u32) -> u32,
    FL: Fn(u32, u32, u32, u32, u32) -> u32,
>(
    nx: int,
    ny: int,
    src: Seq<u32>,
    fx: FX,
    fy: FY,
    fl: FL,
    all_x: Seq<u32>,
    all_y: Seq<u32>,
    all_l: Seq<u32>,
    sep_x: Seq<u32>,
    sep_y: Seq<u32>,
    sep_l: Seq<u32>,
)
    requires
        nx >= 0,
        ny >= 0,
        is_diff_x(nx, ny, src, fx, all_x),
        is_diff_y(nx, ny, src, fy, all_y),
        is_laplace(nx, ny, src, fl, all_l),
        is_diff_x(nx, ny, src, fx, sep_x),
        is_diff_y(nx, ny, src, fy, sep_y),
        is_laplace(nx, ny, src, fl, sep_l),
        deterministic2(fx),
        deterministic2(fy),
        deterministic5(fl),
    ensures
        all_x == sep_x,
        all_y == sep_y,
        all_l == sep_l,
{
    lemma_diff_x_unique(nx, ny, src, fx, all_x, sep_x);
    lemma_diff_y_unique(nx, ny, src, fy, all_y, sep_y);
    lemma_laplace_unique(nx, ny, src, fl, all_l, sep_l);
}

} // verus!
