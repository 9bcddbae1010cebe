use nivis::array::new_array_with_function;
use nivis::numeric::{diff_all, diff_x, diff_y, laplace};

// Within four representable single-precision steps of each other.
fn close(a: f32, b: f32) -> bool {
    if a == b {
        return true;
    }
    if a.is_nan() || b.is_nan() {
        return false;
    }
    let key = |x: f32| -> i64 {
        let i = x.to_bits() as i32 as i64;
        if i < 0 {
            (i32::MIN as i64) - i
        } else {
            i
        }
    };
    (key(a) - key(b)).abs() <= 4
}

fn parabola_grid() -> nivis::array::Array2D {
    new_array_with_function(3, 4, |i, j| {
        let x = i as f32 * 0.1;
        let y = j as f32 * 0.2;
        (x * x + y * y).to_bits()
    })
}

fn ddx(p: u32, m: u32) -> u32 {
    ((f32::from_bits(p) - f32::from_bits(m)) / (2. * 0.1)).to_bits()
}

fn ddy(p: u32, m: u32) -> u32 {
    ((f32::from_bits(p) - f32::from_bits(m)) / (2. * 0.2)).to_bits()
}

fn lap5(c: u32, xm: u32, xp: u32, ym: u32, yp: u32) -> u32 {
    let cv = f32::from_bits(c);
    let ddx = (f32::from_bits(xp) - 2. * cv + f32::from_bits(xm)) / (0.1 * 0.1);
    let ddy = (f32::from_bits(yp) - 2. * cv + f32::from_bits(ym)) / (0.2 * 0.2);
    (ddx + ddy).to_bits()
}

#[test]
fn test_first_derivatives() {
    let grid_data = parabola_grid();

    let dfdx = diff_x(&grid_data, ddx);
    assert!(close(f32::from_bits(dfdx.value(0, 0)), 0.0));
    assert!(close(f32::from_bits(dfdx.value(1, 0)), 0.0));
    assert!(close(f32::from_bits(dfdx.value(1, 1)), 0.2));

    let dfdy = diff_y(&grid_data, ddy);
    assert!(close(f32::from_bits(dfdy.value(0, 0)), 0.0));
    assert!(close(f32::from_bits(dfdy.value(1, 0)), 0.0));
    assert!(close(f32::from_bits(dfdy.value(1, 1)), 0.4));
}

#[test]
fn test_laplace() {
    let grid_data = parabola_grid();

    let laplace = laplace(&grid_data, lap5);

    assert!(close(f32::from_bits(laplace.value(0, 0)), 0.0));
    assert!(close(f32::from_bits(laplace.value(1, 0)), 0.0));
    assert!(close(f32::from_bits(laplace.value(1, 1)), 4.0));
}

#[test]
fn boundary_ring_stays_zero() {
    let grid_data = parabola_grid();
    let dfdx = diff_x(&grid_data, ddx);
    for i in 0..3usize {
        assert_eq!(dfdx.value(i, 0), 0);
        assert_eq!(dfdx.value(i, 3), 0);
    }
    for j in 0..4usize {
        assert_eq!(dfdx.value(0, j), 0);
        assert_eq!(dfdx.value(2, j), 0);
    }
}

#[test]
fn diff_all_matches_independent_passes() {
    let grid_data = parabola_grid();

    let (ax, ay, al) = diff_all(&grid_data, ddx, ddy, lap5);
    let sx = diff_x(&grid_data, ddx);
    let sy = diff_y(&grid_data, ddy);
    let sl = laplace(&grid_data, lap5);

    assert_eq!(ax.data, sx.data);
    assert_eq!(ay.data, sy.data);
    assert_eq!(al.data, sl.data);
    assert_eq!(ax.size, sx.size);
}
