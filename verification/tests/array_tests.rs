use nivis::array::{atan2, new_array_with_function, Array2D};

fn near(a: f32, b: f32) -> bool {
    ulp_near(a, b, 4)
}

// Within `n` representable single-precision steps of each other.
fn ulp_near(a: f32, b: f32, n: i64) -> bool {
    if a == b {
        return true;
    }
    if a.is_nan() || b.is_nan() {
        return false;
    }
    let key = |x: f32| -> i64 {
        let i = x.to_bits() as i32 as i64;
        if i < 0 {
            (i32::MIN as i64) - i
        } else {
            i
        }
    };
    (key(a) - key(b)).abs() <= n
}

#[test]
fn create_array2d_with_function() {
    let grid_data = new_array_with_function(3, 4, |i, j| {
        let x = i as f32 * 0.1;
        let y = j as f32 * 0.2;
        (x + y).to_bits()
    });

    assert!(near(f32::from_bits(grid_data.value(0, 0)), 0.0));
    assert!(near(f32::from_bits(grid_data.value(1, 0)), 0.1));
    assert!(near(f32::from_bits(grid_data.value(0, 1)), 0.2));
    assert!(near(f32::from_bits(grid_data.value(1, 1)), 0.3));
    assert!(near(f32::from_bits(grid_data.value(2, 3)), 0.8));
}

#[test]
fn test_atan2_positive_values() {
    let y = Array2D {
        size: [1, 3],
        data: vec![1.0f32.to_bits(), 2.0f32.to_bits(), 3.0f32.to_bits()],
    };

    let x = Array2D {
        size: [1, 3],
        data: vec![4.0f32.to_bits(), 5.0f32.to_bits(), 6.0f32.to_bits()],
    };

    let result = atan2(&y, &x, |a, b| {
        f32::from_bits(a).atan2(f32::from_bits(b)).to_bits()
    });

    let expected = Array2D {
        size: [1, 3],
        data: vec![
            0.24497867f32.to_bits(),
            0.3805064f32.to_bits(),
            0.46364760f32.to_bits(),
        ],
    };

    assert_eq!(result.size, expected.size);
    assert_eq!(result.data.len(), expected.data.len());
    for i in 0..result.data.len() {
        let got = f32::from_bits(result.data[i]);
        let reference = f32::from_bits(y.data[i]).atan2(f32::from_bits(x.data[i]));
        assert_eq!(got, reference, "Mismatch at index {}", i);
        assert!(
            ulp_near(got, f32::from_bits(expected.data[i]), 1),
            "Mismatch at index {}",
            i
        );
    }
}

#[test]
fn test_atan2_negative_values() {
    let y = Array2D {
        size: [1, 3],
        data: vec![
            (-1.0f32).to_bits(),
            (-2.0f32).to_bits(),
            (-3.0f32).to_bits(),
        ],
    };

    let x = Array2D {
        size: [1, 3],
        data: vec![
            (-4.0f32).to_bits(),
            (-5.0f32).to_bits(),
            (-6.0f32).to_bits(),
        ],
    };

    let result = atan2(&y, &x, |a, b| {
        f32::from_bits(a).atan2(f32::from_bits(b)).to_bits()
    });

    let expected = Array2D {
        size: [1, 3],
        data: vec![
            (-2.896613990462929f32).to_bits(),
            (-2.761086276477428f32).to_bits(),
            (-2.677945044588987f32).to_bits(),
        ],
    };

    assert_eq!(result.size, expected.size);
    assert_eq!(result.data.len(), expected.data.len());
    for i in 0..result.data.len() {
        let got = f32::from_bits(result.data[i]);
        let reference = f32::from_bits(y.data[i]).atan2(f32::from_bits(x.data[i]));
        assert_eq!(got, reference, "Mismatch at index {}", i);
        assert!(
            ulp_near(got, f32::from_bits(expected.data[i]), 1),
            "Mismatch at index {}",
            i
        );
    }
}

#[test]
fn generated_layout_is_column_fastest() {
    let grid = new_array_with_function(3, 2, |i, j| (j * 10 + i) as u32);
    assert_eq!(grid.data, vec![0, 1, 2, 10, 11, 12]);
    assert_eq!(grid.ravel(2, 1), 5);
    assert_eq!(grid.value(2, 1), 12);
}
