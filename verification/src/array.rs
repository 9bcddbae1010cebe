use vstd::prelude::*;
use vstd::arithmetic::div_mod::{lemma_fundamental_div_mod_converse, lemma_multiply_divide_lt};
use itertools::Itertools;

verus! {

/// A dense 2D array of single-precision samples, stored as their IEEE-754
/// bit patterns in a flat buffer, row-major with the column index varying
/// fastest: the sample at column `i`, row `j` sits at `j * size[0] + i`.
///
/// The samples are kept as raw `u32` bit patterns: the library reasons
/// about where every sample comes from and where it goes, while the
/// per-sample arithmetic is supplied by the caller as operator closures.
pub struct Array2D {
    pub size: [usize; 2],
    pub data: Vec<u32>,
}

/// Flat position of column `i`, row `j` in an array `nx` columns wide.
pub open spec fn ravel_spec(nx: int, i: int, j: int) -> int {
    j * nx + i
}

/// Column `i`, row `j` both lie inside the array bounds.
pub open spec fn in_grid(nx: int, ny: int, i: int, j: int) -> bool {
    0 <= i < nx && 0 <= j < ny
}

pub proof fn lemma_ravel_in_bounds(nx: int, ny: int, i: int, j: int)
    requires
        in_grid(nx, ny, i, j),
    ensures
        0 <= ravel_spec(nx, i, j) < nx * ny,
{
    assert(0 <= j * nx + i < nx * ny) by (nonlinear_arith)
        requires
            0 <= i < nx,
            0 <= j < ny,
    ;
}

impl Array2D {
    /// The buffer holds exactly one sample per grid node.
    pub open spec fn wf(&self) -> bool {
        &&& self.data@.len() == self.size[0] * self.size[1]
        &&& self.size[0] * self.size[1] <= usize::MAX
    }

    /// Flat index of column `i`, row `j`.
    pub fn ravel(&self, i: usize, j: usize) -> (r: usize)
        requires
            self.wf(),
            i < self.size[0],
            j < self.size[1],
        ensures
            r == ravel_spec(self.size[0] as int, i as int, j as int),
            r < self.data@.len(),
    {
        proof {
            lemma_ravel_in_bounds(self.size[0] as int, self.size[1] as int, i as int, j as int);
        }
        j * self.size[0] + i
    }

    /// The sample bits at column `i`, row `j`.
    pub fn value(&self, i: usize, j: usize) -> (r: u32)
        requires
            self.wf(),
            i < self.size[0],
            j < self.size[1],
        ensures
            r == self.data@[ravel_spec(self.size[0] as int, i as int, j as int)],
    {
        let k = self.ravel(i, j);
        self.data[k]
    }
}

/// Every entry of `out` is a possible result of `f` on the matching
/// entries of `a` and `b`.
pub open spec fn is_zip<F: Fn(u32, u32) -> u32>(a: Seq<u32>, b: Seq<u32>, f: F, out: Seq<u32>) -> bool {
    &&& b.len() == a.len()
    &&& out.len() == a.len()
    &&& forall|k: int| 0 <= k < a.len() ==> call_ensures(f, (a[k], b[k]), #[trigger] out[k])
}

/// Every entry of `out` is a possible result of `f` on the matching entry of `a`.
pub open spec fn is_map<F: Fn(u32) -> u32>(a: Seq<u32>, f: F, out: Seq<u32>) -> bool {
    &&& out.len() == a.len()
    &&& forall|k: int| 0 <= k < a.len() ==> call_ensures(f, (a[k],), #[trigger] out[k])
}

/// A buffer of `n` zero samples (the bit pattern of zero is zero).
pub(crate) fn zeros(n: usize) -> (r: Vec<u32>)
    ensures
        r@.len() == n,
        forall|k: int| 0 <= k < n ==> r@[k] == 0u32,
{
    let mut r: Vec<u32> = Vec::new();
    let mut k: usize = 0;
    while k < n
        invariant
            k <= n,
            r@.len() == k,
            forall|m: int| 0 <= m < k ==> r@[m] == 0u32,
        decreases n - k,
    {
        r.push(0u32);
        k += 1;
    }
    r
}

/// Every sample of `s` is the zero bit pattern (the sample zero).
pub open spec fn all_zero(s: Seq<u32>) -> bool {
    forall|k: int| 0 <= k < s.len() ==> s[k] == 0u32
}

/// A zero-filled `nx` by `ny` array.
pub(crate) fn zero_array(nx: usize, ny: usize) -> (r: Array2D)
    requires
        nx * ny <= usize::MAX,
    ensures
        r.size[0] == nx,
        r.size[1] == ny,
        r.wf(),
        all_zero(r.data@),
{
    Array2D { size: [nx, ny], data: zeros(nx * ny) }
}

/// Every grid node of `data` (an `nx` by `ny` array) holds a result the
/// generator admits for that node's column and row.
pub open spec fn is_generated<F: Fn(usize, usize) -> u32>(
    nx: int,
    ny: int,
    f: F,
    data: Seq<u32>,
) -> bool {
    &&& data.len() == nx * ny
    &&& forall|i: int, j: int| in_grid(nx, ny, i, j) ==>
        call_ensures(f, (i as usize, j as usize), #[trigger] data[ravel_spec(nx, i, j)])
}

/// Build an `nx` by `ny` array by evaluating `func` at every node's
/// column and row, traversing rows in order with the column varying
/// fastest, so that the sample for column `i`, row `j` lands at flat
/// position `j * nx + i`.
pub fn new_array_with_function<F: Fn(usize, usize) -> u32>(nx: usize, ny: usize, func: F) -> (r:
    Array2D)
    requires
        nx * ny <= usize::MAX,
        forall|i: usize, j: usize| i < nx && j < ny ==> call_requires(func, (i, j)),
    ensures
        r.size[0] == nx,
        r.size[1] == ny,
        r.wf(),
        is_generated(nx as int, ny as int, func, r.data@),
{
    proof {
        assert(ny as int * nx as int == nx as int * ny as int) by (nonlinear_arith);
    }
    let pairs = cartesian_pairs(0, ny, 0, nx);
    let mut data: Vec<u32> = Vec::new();
    let mut k: usize = 0;
    while k < pairs.len()
        invariant
            nx * ny <= usize::MAX,
            forall|i: usize, j: usize| i < nx && j < ny ==> call_requires(func, (i, j)),
            pairs@.len() == ny * nx,
            forall|m: int| 0 <= m < pairs@.len() ==>
                (#[trigger] pairs@[m]).0 == m / (nx as int) && pairs@[m].1 == m % (nx as int),
            k <= pairs@.len(),
            data@.len() == k,
            forall|m: int| 0 <= m < k ==>
                call_ensures(func, (pairs@[m].1, pairs@[m].0), #[trigger] data@[m]),
        decreases pairs@.len() - k,
    {
        let (j, i) = pairs[k];
        proof {
            assert(nx > 0) by (nonlinear_arith)
                requires k < ny * nx, 0 <= k,
            ;
            assert((k as int) % (nx as int) < nx && 0 <= (k as int) % (nx as int))
                by (nonlinear_arith)
                requires nx > 0,
            ;
            lemma_multiply_divide_lt(k as int, nx as int, ny as int);
            assert(0 <= (k as int) / (nx as int)) by (nonlinear_arith)
                requires nx > 0, 0 <= k,
            ;
        }
        data.push(func(i, j));
        k += 1;
    }
    proof {
        assert forall|i: int, j: int| in_grid(nx as int, ny as int, i, j) implies call_ensures(
            func,
            (i as usize, j as usize),
            #[trigger] data@[ravel_spec(nx as int, i, j)],
        ) by {
            let m = ravel_spec(nx as int, i, j);
            lemma_ravel_in_bounds(nx as int, ny as int, i, j);
            lemma_fundamental_div_mod_converse(m, nx as int, j, i);
            assert(pairs@[m].0 == m / (nx as int) && pairs@[m].1 == m % (nx as int));
            assert(pairs@[m].0 == j && pairs@[m].1 == i);
            assert(call_ensures(func, (pairs@[m].1, pairs@[m].0), data@[m]));
        }
    }
    Array2D { size: [nx, ny], data }
}

/// Law: in a generated array, the sample read back at any grid node —
/// what `value(i, j)` returns — is a result the generator admits for
/// exactly that node's column and row, at interior and boundary nodes
/// alike.
pub proof fn lemma_generated_value<F: Fn(usize, usize) -> u32>(
    nx: int,
    ny: int,
    f: F,
    data: Seq<u32>,
    i: int,
    j: int,
)
    requires
        is_generated(nx, ny, f, data),
        in_grid(nx, ny, i, j),
    ensures
        call_ensures(f, (i as usize, j as usize), data[ravel_spec(nx, i, j)]),
{
}

/// Apply `op` to the matching samples of `a` and `b`, producing a new
/// array of the same shape.
pub fn zip_map<F: Fn(u32, u32) -> u32>(a: &Array2D, b: &Array2D, op: F) -> (r: Array2D)
    requires
        a.wf(),
        b.wf(),
        b.size[0] == a.size[0],
        b.size[1] == a.size[1],
        forall|x: u32, y: u32| call_requires(op, (x, y)),
    ensures
        r.size[0] == a.size[0],
        r.size[1] == a.size[1],
        r.wf(),
        is_zip(a.data@, b.data@, op, r.data@),
{
    let n = a.data.len();
    let mut data: Vec<u32> = Vec::new();
    let mut k: usize = 0;
    while k < n
        invariant
            forall|x: u32, y: u32| call_requires(op, (x, y)),
            n == a.data@.len(),
            b.data@.len() == n,
            k <= n,
            data@.len() == k,
            forall|m: int| 0 <= m < k ==>
                call_ensures(op, (a.data@[m], b.data@[m]), #[trigger] data@[m]),
        decreases n - k,
    {
        data.push(op(a.data[k], b.data[k]));
        k += 1;
    }
    Array2D { size: [a.size[0], a.size[1]], data }
}

/// Apply `op` to every sample of `a`, producing a new array of the same shape.
pub fn map_field<F: Fn(u32) -> u32>(a: &Array2D, op: F) -> (r: Array2D)
    requires
        a.wf(),
        forall|x: u32| call_requires(op, (x,)),
    ensures
        r.size[0] == a.size[0],
        r.size[1] == a.size[1],
        r.wf(),
        is_map(a.data@, op, r.data@),
{
    let n = a.data.len();
    let mut data: Vec<u32> = Vec::new();
    let mut k: usize = 0;
    while k < n
        invariant
            forall|x: u32| call_requires(op, (x,)),
            n == a.data@.len(),
            k <= n,
            data@.len() == k,
            forall|m: int| 0 <= m < k ==> call_ensures(op, (a.data@[m],), #[trigger] data@[m]),
        decreases n - k,
    {
        data.push(op(a.data[k]));
        k += 1;
    }
    Array2D { size: [a.size[0], a.size[1]], data }
}

/// The elementwise two-argument arctangent of two arrays of the same
/// shape: each result sample is what `op` (the caller's arctangent
/// operator) returns for the matching samples of `y` and `x`.
pub fn atan2<F: Fn(u32, u32) -> u32>(y: &Array2D, x: &Array2D, op: F) -> (r: Array2D)
    requires
        y.wf(),
        x.wf(),
        x.size[0] == y.size[0],
        x.size[1] == y.size[1],
        forall|a: u32, b: u32| call_requires(op, (a, b)),
    ensures
        r.size[0] == y.size[0],
        r.size[1] == y.size[1],
        r.wf(),
        is_zip(y.data@, x.data@, op, r.data@),
{
    zip_map(y, x, op)
}

/// `f` admits at most one result for any sample.
pub open spec fn deterministic1<F: Fn(u32) -> u32>(f: F) -> bool {
    forall|a: u32, r1: u32, r2: u32|
        #![trigger call_ensures(f, (a,), r1), call_ensures(f, (a,), r2)]
        call_ensures(f, (a,), r1) && call_ensures(f, (a,), r2) ==> r1 == r2
}

/// `f` admits at most one result for any pair of samples.
pub open spec fn deterministic2<F: Fn(u32, u32) -> u32>(f: F) -> bool {
    forall|a: u32, b: u32, r1: u32, r2: u32|
        #![trigger call_ensures(f, (a, b), r1), call_ensures(f, (a, b), r2)]
        call_ensures(f, (a, b), r1) && call_ensures(f, (a, b), r2) ==> r1 == r2
}

/// `f` admits at most one result for any four samples.
pub open spec fn deterministic4<F: Fn(u32, u32, u32, u32) -> u32>(f: F) -> bool {
    forall|a: u32, b: u32, c: u32, d: u32, r1: u32, r2: u32|
        #![trigger call_ensures(f, (a, b, c, d), r1), call_ensures(f, (a, b, c, d), r2)]
        call_ensures(f, (a, b, c, d), r1) && call_ensures(f, (a, b, c, d), r2) ==> r1 == r2
}

/// `f` admits at most one result for any five samples.
pub open spec fn deterministic5<F: Fn(u32, u32, u32, u32, u32) -> u32>(f: F) -> bool {
    forall|a: u32, b: u32, c: u32, d: u32, e: u32, r1: u32, r2: u32|
        #![trigger call_ensures(f, (a, b, c, d, e), r1), call_ensures(f, (a, b, c, d, e), r2)]
        call_ensures(f, (a, b, c, d, e), r1) && call_ensures(f, (a, b, c, d, e), r2) ==> r1 == r2
}

/// `f` admits at most one result for any six samples.
pub open spec fn deterministic6<F: Fn(u32, u32, u32, u32, u32, u32) -> u32>(f: F) -> bool {
    forall|a: u32, b: u32, c: u32, d: u32, e: u32, g: u32, r1: u32, r2: u32|
        #![trigger call_ensures(f, (a, b, c, d, e, g), r1), call_ensures(f, (a, b, c, d, e, g), r2)]
        call_ensures(f, (a, b, c, d, e, g), r1) && call_ensures(f, (a, b, c, d, e, g), r2) ==> r1
            == r2
}

/// Law: for a deterministic operator, the elementwise image of a buffer
/// is unique — any two buffers that both satisfy the elementwise
/// relation are equal.
pub proof fn lemma_map_unique<F: Fn(u32) -> u32>(
    src: Seq<u32>,
    f: F,
    out1: Seq<u32>,
    out2: Seq<u32>,
)
    requires
        is_map(src, f, out1),
        is_map(src, f, out2),
        deterministic1(f),
    ensures
        out1 == out2,
{
    assert forall|k: int| 0 <= k < out1.len() implies out1[k] == out2[k] by {
        assert(call_ensures(f, (src[k],), out1[k]));
        assert(call_ensures(f, (src[k],), out2[k]));
    }
    assert(out1 =~= out2);
}

/// Law: for a deterministic operator, the elementwise combination of two
/// buffers is unique.
pub proof fn lemma_zip_unique<F: Fn(u32, u32) -> u32>(
    a: Seq<u32>,
    b: Seq<u32>,
    f: F,
    out1: Seq<u32>,
    out2: Seq<u32>,
)
    requires
        is_zip(a, b, f, out1),
        is_zip(a, b, f, out2),
        deterministic2(f),
    ensures
        out1 == out2,
{
    assert forall|k: int| 0 <= k < out1.len() implies out1[k] == out2[k] by {
        assert(call_ensures(f, (a[k], b[k]), out1[k]));
        assert(call_ensures(f, (a[k], b[k]), out2[k]));
    }
    assert(out1 =~= out2);
}

/// Relies on `itertools::Itertools::cartesian_product` over two integer
/// ranges: the result pairs every `x` in `a..b` with every `y` in `c..d`,
/// in lexicographic order, the second coordinate varying fastest.
#[verifier::external_body]
pub(crate) fn cartesian_pairs(a: usize, b: usize, c: usize, d: usize) -> (r: Vec<(usize, usize)>)
    requires
        a <= b,
        c <= d,
        (b - a) * (d - c) <= usize::MAX,
    ensures
        r@.len() == (b - a) * (d - c),
        forall|k: int| 0 <= k < r@.len() ==>
            (#[trigger] r@[k]).0 == a + k / ((d - c) as int)
            && r@[k].1 == c + k % ((d - c) as int),
{
    (a..b).cartesian_product(c..d).collect()
}

} // verus!
