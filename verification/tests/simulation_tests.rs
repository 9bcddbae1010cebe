use nivis::colors::{blue_to_white, cool_to_warm};
use nivis::Simulation;

fn ramp(v: u32) -> usize {
    let value = f32::from_bits(v);
    let clamped_val = value.clamp(0.0, 1.0);
    (clamped_val * 10.0 - 1.0) as usize
}

// The per-sample operators of the Kobayashi update, with the physical
// constants of the model captured inside.
fn step_sim(s: &mut Simulation) {
    let dx = f32::from_bits(s.dx);
    let dy = f32::from_bits(s.dy);
    let kappa = f32::from_bits(s.kappa);
    let delta = f32::from_bits(s.delta);
    let delta_t = 1e-4f32;
    let epsilonb = 0.01f32;
    let aniso = 6.0f32;
    let theta0 = 0.0f32;
    let alpha = 0.9f32;
    let gamma = 10.0f32;
    let teq = 1.0f32;
    let tau = 0.0003f32;

    let cdx = move |p: u32, m: u32| ((f32::from_bits(p) - f32::from_bits(m)) / (2. * dx)).to_bits();
    let cdy = move |p: u32, m: u32| ((f32::from_bits(p) - f32::from_bits(m)) / (2. * dy)).to_bits();
    let lap = move |c: u32, xm: u32, xp: u32, ym: u32, yp: u32| {
        let cv = f32::from_bits(c);
        let ddx = (f32::from_bits(xp) - 2. * cv + f32::from_bits(xm)) / (dx * dx);
        let ddy = (f32::from_bits(yp) - 2. * cv + f32::from_bits(ym)) / (dy * dy);
        (ddx + ddy).to_bits()
    };

    s.step(
        cdx,
        cdy,
        lap,
        lap,
        |a: u32, b: u32| f32::from_bits(a).atan2(f32::from_bits(b)).to_bits(),
        move |t: u32| {
            let a = aniso * (f32::from_bits(t) - theta0);
            (epsilonb * (1. + delta * a.cos())).to_bits()
        },
        move |t: u32| {
            let a = aniso * (f32::from_bits(t) - theta0);
            let eps = epsilonb * (1. + delta * a.cos());
            let deps = -epsilonb * aniso * delta * a.sin();
            (eps * deps).to_bits()
        },
        |c: u32, d: u32| (f32::from_bits(c) * f32::from_bits(d)).to_bits(),
        |c: u32, d: u32| (f32::from_bits(c) * f32::from_bits(d)).to_bits(),
        cdy,
        cdx,
        move |t: u32| {
            (alpha / std::f32::consts::PI * (gamma * (teq - f32::from_bits(t))).atan()).to_bits()
        },
        move |p: u32, t1: u32, t2: u32, eps: u32, lapp: u32, m: u32| {
            let phi = f32::from_bits(p);
            let epsv = f32::from_bits(eps);
            (phi
                + (delta_t / tau)
                    * (f32::from_bits(t1) - f32::from_bits(t2)
                        + epsv * epsv * f32::from_bits(lapp)
                        + phi * (1.0 - phi) * (phi - 0.5 + f32::from_bits(m))))
            .to_bits()
        },
        move |t: u32, lapt: u32, pnew: u32, pold: u32| {
            (f32::from_bits(t)
                + delta_t * f32::from_bits(lapt)
                + kappa * (f32::from_bits(pnew) - f32::from_bits(pold)))
            .to_bits()
        },
    );
}

fn sim_near(a: f32, b: f32) -> bool {
    (a - b).abs() <= 1e-5
}

#[test]
fn test_get_temperature_and_phi_arrays() {
    let mut s = Simulation::new(100, 100);
    s.add_seed(50, 50);

    let temperature_rgb = s.get_temperature_rgb(ramp);
    assert_eq!(temperature_rgb.len(), 100 * 100 * 4);

    assert_eq!(temperature_rgb[0], cool_to_warm(0).0);
    assert_eq!(temperature_rgb[1], cool_to_warm(0).1);
    assert_eq!(temperature_rgb[2], cool_to_warm(0).2);
    assert_eq!(temperature_rgb[3], cool_to_warm(0).3);

    let phi_rgb = s.get_phi_rgb(ramp);
    assert_eq!(phi_rgb.len(), 100 * 100 * 4);
    assert_eq!(phi_rgb[0], blue_to_white(0).0);
    assert_eq!(phi_rgb[1], blue_to_white(0).1);
    assert_eq!(phi_rgb[2], blue_to_white(0).2);
    assert_eq!(phi_rgb[3], blue_to_white(0).3);

    assert_eq!(phi_rgb[50 * 4 * 100 + 4 * 50], blue_to_white(9).0);
    assert_eq!(phi_rgb[50 * 4 * 100 + 4 * 50 + 1], blue_to_white(9).1);
    assert_eq!(phi_rgb[50 * 4 * 100 + 4 * 50 + 2], blue_to_white(9).2);
    assert_eq!(phi_rgb[50 * 4 * 100 + 4 * 50 + 3], blue_to_white(9).3);
}

#[test]
fn run_one_step_simulation() {
    let mut s = Simulation::new(300, 300);
    s.add_seed(150, 150);

    step_sim(&mut s);

    assert!(sim_near(f32::from_bits(s.get_temperature(148, 150)), -0.06765032));
    assert!(sim_near(f32::from_bits(s.get_temperature(149, 150)), 0.0));

    assert!(sim_near(f32::from_bits(s.get_phi(148, 150)), 0.95771855));
    assert!(sim_near(f32::from_bits(s.get_phi(149, 150)), 1.0));
}

#[test]
fn default_constants_decode() {
    let s = Simulation::new(4, 5);
    assert_eq!(s.width, 4);
    assert_eq!(s.height, 5);
    assert_eq!(f32::from_bits(s.dx), 0.03);
    assert_eq!(f32::from_bits(s.dy), 0.03);
    assert_eq!(f32::from_bits(s.kappa), 1.6);
    assert_eq!(f32::from_bits(s.delta), 0.04);
    assert_eq!(f32::from_bits(nivis::ONE_BITS), 1.0);
    for j in 0..5usize {
        for i in 0..4usize {
            assert_eq!(s.get_temperature(i, j), 0);
            assert_eq!(s.get_phi(i, j), 0);
        }
    }
}

#[test]
fn seed_window_covers_four_by_four_block() {
    let mut s = Simulation::new(10, 10);
    s.add_seed(5, 5);
    for j in 0..10usize {
        for i in 0..10usize {
            let expected = (3..=6).contains(&i) && (3..=6).contains(&j);
            let got = f32::from_bits(s.get_phi(i, j));
            assert_eq!(got == 1.0, expected, "at ({}, {})", i, j);
            assert_eq!(f32::from_bits(s.get_temperature(i, j)), 0.0);
        }
    }
}

#[test]
fn seed_window_clips_at_origin() {
    let mut s = Simulation::new(5, 5);
    s.add_seed(0, 0);
    for j in 0..5usize {
        for i in 0..5usize {
            let expected = i <= 1 && j <= 1;
            assert_eq!(
                f32::from_bits(s.get_phi(i, j)) == 1.0,
                expected,
                "at ({}, {})",
                i,
                j
            );
        }
    }
}

#[test]
fn seed_window_near_left_edge_keeps_whole_rows() {
    let mut s = Simulation::new(8, 8);
    s.add_seed(0, 4);
    for j in 0..8usize {
        for i in 0..8usize {
            let expected = i <= 1 && (2..=5).contains(&j);
            assert_eq!(
                f32::from_bits(s.get_phi(i, j)) == 1.0,
                expected,
                "at ({}, {})",
                i,
                j
            );
        }
    }
}

#[test]
fn reset_restores_initial_condition() {
    let mut s = Simulation::new(12, 9);
    s.add_seed(6, 4);
    step_sim(&mut s);
    step_sim(&mut s);
    s.reset();

    let fresh = Simulation::new(12, 9);
    for j in 0..9usize {
        for i in 0..12usize {
            assert_eq!(s.get_phi(i, j), fresh.get_phi(i, j));
            assert_eq!(s.get_temperature(i, j), fresh.get_temperature(i, j));
            assert_eq!(s.get_phi(i, j), 0);
        }
    }
    assert_eq!(s.width, 12);
    assert_eq!(s.height, 9);
    assert_eq!(s.kappa, fresh.kappa);
    assert_eq!(s.delta, fresh.delta);
}

#[test]
fn color_ramp_entries() {
    assert_eq!(cool_to_warm(0), (58, 76, 192, 255));
    assert_eq!(cool_to_warm(5), (221, 220, 219, 255));
    assert_eq!(cool_to_warm(8), (237, 132, 103, 255));
    assert_eq!(cool_to_warm(9), (214, 82, 67, 255));
    assert_eq!(blue_to_white(0), (30, 65, 101, 255));
    assert_eq!(blue_to_white(5), (175, 198, 222, 255));
    assert_eq!(blue_to_white(8), (232, 238, 245, 255));
    assert_eq!(blue_to_white(9), (247, 250, 252, 255));
}

#[test]
fn all_zero_field_renders_first_ramp_entry_everywhere() {
    let s = Simulation::new(100, 100);
    let temperature_rgb = s.get_temperature_rgb(ramp);
    let phi_rgb = s.get_phi_rgb(ramp);
    assert_eq!(temperature_rgb.len(), 100 * 100 * 4);
    assert_eq!(phi_rgb.len(), 100 * 100 * 4);
    let warm = cool_to_warm(0);
    let cold = blue_to_white(0);
    for p in 0..(100 * 100) {
        assert_eq!(temperature_rgb[4 * p], warm.0);
        assert_eq!(temperature_rgb[4 * p + 1], warm.1);
        assert_eq!(temperature_rgb[4 * p + 2], warm.2);
        assert_eq!(temperature_rgb[4 * p + 3], warm.3);
        assert_eq!(phi_rgb[4 * p], cold.0);
        assert_eq!(phi_rgb[4 * p + 1], cold.1);
        assert_eq!(phi_rgb[4 * p + 2], cold.2);
        assert_eq!(phi_rgb[4 * p + 3], cold.3);
    }
}
