//! A phase-field / heat-diffusion solidification simulator on a 2D
//! finite-difference grid with a one-cell ghost ring.
//!
//! Samples are single-precision values carried as raw `u32` bit patterns;
//! the per-sample floating-point operators are supplied by the caller as
//! closures, and every contract states exactly which samples each operator
//! was applied to and where the results were placed.

use vstd::prelude::*;

pub mod array;
pub mod colors;
pub mod numeric;

use crate::array::{
    all_zero, atan2, cartesian_pairs, deterministic1, deterministic2, deterministic4,
    deterministic5, deterministic6, in_grid, is_map, is_zip, lemma_map_unique,
    lemma_ravel_in_bounds, lemma_zip_unique, map_field, ravel_spec, zero_array, zip_map, Array2D,
};
use crate::colors::{ramp_color, ramp_entry};
use crate::numeric::{
    diff_x, diff_y, is_diff_x, is_diff_y, is_laplace, laplace, lemma_diff_x_unique,
    lemma_diff_y_unique, lemma_laplace_unique,
};
use vstd::arithmetic::div_mod::lemma_fundamental_div_mod;

verus! {

/// Bit pattern of the default grid spacing (three hundredths), used for
/// both directions.
pub const DX_BITS: u32 = 0x3CF5C28F;

/// Bit pattern of the default grid spacing along the column direction;
/// the mesh is square, so it equals the row-direction spacing.
pub const DY_BITS: u32 = 0x3CF5C28F;

/// Bit pattern of the default latent-heat coupling constant (eight fifths).
pub const KAPPA_BITS: u32 = 0x3FCCCCCD;

/// Bit pattern of the default anisotropy strength (one twenty-fifth).
pub const DELTA_BITS: u32 = 0x3D23D70A;

/// Bit pattern of the sample one, the value written when seeding the
/// order-parameter field.
pub const ONE_BITS: u32 = 0x3F800000;

/// A phase-field solidification simulation: a temperature field and an
/// order-parameter field (`phi`) over a shared `width + 2` by
/// `height + 2` grid, where the extra ring of nodes on every side holds
/// the boundary-condition ghost samples.
///
/// On construction both fields are all zero; seeding is done explicitly
/// through `add_seed`.
pub struct Simulation {
    pub width: usize,
    pub height: usize,
    pub dx: u32,
    pub dy: u32,
    pub kappa: u32,
    pub delta: u32,
    pub temperature: Array2D,
    pub phi: Array2D,
}

impl Simulation {
    /// The temperature samples, as bit patterns, in flat storage order.
    pub open spec fn temperature_bits(&self) -> Seq<u32> {
        self.temperature.data@
    }

    /// The order-parameter samples, as bit patterns, in flat storage order.
    pub open spec fn phi_bits(&self) -> Seq<u32> {
        self.phi.data@
    }

    /// The row-direction grid spacing, as a bit pattern.
    pub open spec fn dx_bits(&self) -> u32 {
        self.dx
    }

    /// The column-direction grid spacing, as a bit pattern.
    pub open spec fn dy_bits(&self) -> u32 {
        self.dy
    }

    /// Both fields cover the same `width + 2` by `height + 2` grid.
    pub open spec fn wf(&self) -> bool {
        &&& self.width >= 1
        &&& self.height >= 1
        &&& self.temperature.wf()
        &&& self.phi.wf()
        &&& self.temperature.size[0] == self.width + 2
        &&& self.temperature.size[1] == self.height + 2
        &&& self.phi.size[0] == self.width + 2
        &&& self.phi.size[1] == self.height + 2
    }
}

/// The physical constants hold their construction-time defaults.
pub open spec fn has_default_constants(s: Simulation) -> bool {
    &&& s.dx_bits() == DX_BITS
    &&& s.dy_bits() == DY_BITS
    &&& s.kappa == KAPPA_BITS
    &&& s.delta == DELTA_BITS
}

/// Both fields are in the initial condition: every sample zero over the
/// full ghost-ring grid.
pub open spec fn is_initial_fields(s: Simulation) -> bool {
    &&& s.temperature_bits().len() == (s.width + 2) * (s.height + 2)
    &&& s.phi_bits().len() == (s.width + 2) * (s.height + 2)
    &&& all_zero(s.temperature_bits())
    &&& all_zero(s.phi_bits())
}

/// Law: re-initialization is exact — two simulations in the initial
/// condition over the same domain size hold identical samples in both
/// fields, so resetting reproduces the construction-time state.
pub proof fn lemma_initial_state_unique(a: Simulation, b: Simulation)
    requires
        is_initial_fields(a),
        is_initial_fields(b),
        a.width == b.width,
        a.height == b.height,
    ensures
        a.temperature_bits() == b.temperature_bits(),
        a.phi_bits() == b.phi_bits(),
{
    assert(a.temperature_bits() =~= b.temperature_bits());
    assert(a.phi_bits() =~= b.phi_bits());
}

impl Simulation {
    /// A simulation over an interior domain of `width` by `height` nodes,
    /// stored with one extra ghost node on every side. Both fields start
    /// all zero and the physical constants take their defaults.
    pub fn new(width: usize, height: usize) -> (s: Simulation)
        requires
            width >= 1,
            height >= 1,
            (width + 2) * (height + 2) <= usize::MAX,
        ensures
            s.wf(),
            s.width == width,
            s.height == height,
            has_default_constants(s),
            is_initial_fields(s),
    {
        proof {
            assert((width + 2) * 1 <= (width + 2) * (height + 2)) by (nonlinear_arith)
                requires height >= 1, width >= 0,
            ;
            assert((height + 2) * 1 <= (width + 2) * (height + 2)) by (nonlinear_arith)
                requires height >= 0, width >= 1,
            ;
        }
        let nx = width + 2;
        let ny = height + 2;
        let temperature = zero_array(nx, ny);
        let phi = zero_array(nx, ny);
        Simulation {
            width,
            height,
            dx: DX_BITS,
            dy: DY_BITS,
            kappa: KAPPA_BITS,
            delta: DELTA_BITS,
            temperature,
            phi,
        }
    }

    /// Reinitialize both fields to the construction-time condition (all
    /// zero), preserving the domain size and the physical constants.
    pub fn reset(&mut self)
        requires
            old(self).wf(),
        ensures
            final(self).wf(),
            final(self).width == old(self).width,
            final(self).height == old(self).height,
            final(self).kappa == old(self).kappa,
            final(self).delta == old(self).delta,
            final(self).dx_bits() == old(self).dx_bits(),
            final(self).dy_bits() == old(self).dy_bits(),
            is_initial_fields(*final(self)),
    {
        let nx = self.width + 2;
        let ny = self.height + 2;
        let temperature = zero_array(nx, ny);
        let phi = zero_array(nx, ny);
        self.temperature = temperature;
        self.phi = phi;
    }

    /// Advance both fields by one explicit time step. The ghost ring of
    /// the temperature field is refreshed first (the order-parameter
    /// field's ghost ring is deliberately left holding whatever the
    /// previous pass wrote there); the caller supplies the per-sample
    /// floating-point operators; and the two new buffers replace the old
    /// ones only after both are fully built, so a reader never observes
    /// a half-updated state. The exact dataflow from the previous state
    /// to the new one is stated by `step_chain`.
    pub fn step<
        FX1: Fn(u32, u32) -> u32 + Copy,
        FY1: Fn(u32, u32) -> u32 + Copy,
        FLP: Fn(u32, u32, u32, u32, u32) -> u32,
        FLT: Fn(u32, u32, u32, u32, u32) -> u32,
        FAT: Fn(u32, u32) -> u32,
        FEP: Fn(u32) -> u32,
        FCP: Fn(u32) -> u32,
        FMX: Fn(u32, u32) -> u32,
        FMY: Fn(u32, u32) -> u32,
        FY2: Fn(u32, u32) -> u32 + Copy,
        FX2: Fn(u32, u32) -> u32 + Copy,
        FM: Fn(u32) -> u32,
        FP: Fn(u32, u32, u32, u32, u32, u32) -> u32,
        FT: Fn(u32, u32, u32, u32) -> u32,
    >(
        &mut self,
        ddx_op: FX1,
        ddy_op: FY1,
        lap_phi_op: FLP,
        lap_temp_op: FLT,
        atan_op: FAT,
        epsilon_op: FEP,
        coupling_op: FCP,
        mul_x_op: FMX,
        mul_y_op: FMY,
        term1_op: FY2,
        term2_op: FX2,
        m_op: FM,
        phi_op: FP,
        temp_op: FT,
    )
        requires
            old(self).wf(),
            forall|a: u32, b: u32| call_requires(ddx_op, (a, b)),
            forall|a: u32, b: u32| call_requires(ddy_op, (a, b)),
            forall|a: u32, b: u32, c: u32, d: u32, e: u32|
                call_requires(lap_phi_op, (a, b, c, d, e)),
            forall|a: u32, b: u32, c: u32, d: u32, e: u32|
                call_requires(lap_temp_op, (a, b, c, d, e)),
            forall|a: u32, b: u32| call_requires(atan_op, (a, b)),
            forall|a: u32| call_requires(epsilon_op, (a,)),
            forall|a: u32| call_requires(coupling_op, (a,)),
            forall|a: u32, b: u32| call_requires(mul_x_op, (a, b)),
            forall|a: u32, b: u32| call_requires(mul_y_op, (a, b)),
            forall|a: u32, b: u32| call_requires(term1_op, (a, b)),
            forall|a: u32, b: u32| call_requires(term2_op, (a, b)),
            forall|a: u32| call_requires(m_op, (a,)),
            forall|a: u32, b: u32, c: u32, d: u32, e: u32, f: u32|
                call_requires(phi_op, (a, b, c, d, e, f)),
            forall|a: u32, b: u32, c: u32, d: u32| call_requires(temp_op, (a, b, c, d)),
        ensures
            final(self).wf(),
            final(self).width == old(self).width,
            final(self).height == old(self).height,
            final(self).kappa == old(self).kappa,
            final(self).delta == old(self).delta,
            final(self).dx == old(self).dx,
            final(self).dy == old(self).dy,
            exists|w: StepTrace|
                step_chain(
                    mirror_tb(
                        mirror_lr(
                            old(self).temperature_bits(),
                            old(self).nx(),
                            old(self).ny(),
                        ),
                        old(self).nx(),
                        old(self).ny(),
                    ),
                    old(self).phi_bits(),
                    old(self).nx(),
                    old(self).ny(),
                    ddx_op,
                    ddy_op,
                    lap_phi_op,
                    lap_temp_op,
                    atan_op,
                    epsilon_op,
                    coupling_op,
                    mul_x_op,
                    mul_y_op,
                    term1_op,
                    term2_op,
                    m_op,
                    phi_op,
                    temp_op,
                    w,
                    final(self).phi_bits(),
                    final(self).temperature_bits(),
                ),
    {
        let ghost nxi = self.width as int + 2;
        let ghost nyi = self.height as int + 2;
        let ghost p0 = self.phi.data@;
        refresh_ghost_ring(&mut self.temperature);
        let ghost t0 = self.temperature.data@;
        let dphidx = diff_x(&self.phi, ddx_op);
        let dphidy = diff_y(&self.phi, ddy_op);
        let lap_phi = laplace(&self.phi, lap_phi_op);
        let lap_temp = laplace(&self.temperature, lap_temp_op);
        let theta = atan2(&dphidy, &dphidx, atan_op);
        let epsilon = map_field(&theta, epsilon_op);
        let coupling = map_field(&theta, coupling_op);
        let prod_x = zip_map(&coupling, &dphidx, mul_x_op);
        let prod_y = zip_map(&coupling, &dphidy, mul_y_op);
        let term1 = diff_y(&prod_x, term1_op);
        let term2 = diff_x(&prod_y, term2_op);
        let m = map_field(&self.temperature, m_op);
        let n = self.phi.data.len();
        let mut new_phi: Vec<u32> = Vec::new();
        let mut k: usize = 0;
        while k < n
            invariant
                forall|a: u32, b: u32, c: u32, d: u32, e: u32, f: u32|
                    call_requires(phi_op, (a, b, c, d, e, f)),
                n == self.phi.data@.len(),
                term1.data@.len() == n,
                term2.data@.len() == n,
                epsilon.data@.len() == n,
                lap_phi.data@.len() == n,
                m.data@.len() == n,
                k <= n,
                new_phi@.len() == k,
                forall|q: int| 0 <= q < k ==> call_ensures(
                    phi_op,
                    (
                        self.phi.data@[q],
                        term1.data@[q],
                        term2.data@[q],
                        epsilon.data@[q],
                        lap_phi.data@[q],
                        m.data@[q],
                    ),
                    #[trigger] new_phi@[q],
                ),
            decreases n - k,
        {
            let v = phi_op(
                self.phi.data[k],
                term1.data[k],
                term2.data[k],
                epsilon.data[k],
                lap_phi.data[k],
                m.data[k],
            );
            new_phi.push(v);
            k += 1;
        }
        let mut new_temp: Vec<u32> = Vec::new();
        let mut k2: usize = 0;
        while k2 < n
            invariant
                forall|a: u32, b: u32, c: u32, d: u32| call_requires(temp_op, (a, b, c, d)),
                n == self.phi.data@.len(),
                self.temperature.data@.len() == n,
                lap_temp.data@.len() == n,
                new_phi@.len() == n,
                k2 <= n,
                new_temp@.len() == k2,
                forall|q: int| 0 <= q < k2 ==> call_ensures(
                    temp_op,
                    (
                        self.temperature.data@[q],
                        lap_temp.data@[q],
                        new_phi@[q],
                        self.phi.data@[q],
                    ),
                    #[trigger] new_temp@[q],
                ),
            decreases n - k2,
        {
            let v = temp_op(
                self.temperature.data[k2],
                lap_temp.data[k2],
                new_phi[k2],
                self.phi.data[k2],
            );
            new_temp.push(v);
            k2 += 1;
        }
        self.temperature.data = new_temp;
        self.phi.data = new_phi;
        proof {
            let tr = StepTrace {
                dphidx: dphidx.data@,
                dphidy: dphidy.data@,
                lap_phi: lap_phi.data@,
                lap_temp: lap_temp.data@,
                theta: theta.data@,
                epsilon: epsilon.data@,
                coupling: coupling.data@,
                prod_x: prod_x.data@,
                prod_y: prod_y.data@,
                term1: term1.data@,
                term2: term2.data@,
                m: m.data@,
            };
            assert(step_chain(
                t0,
                p0,
                nxi,
                nyi,
                ddx_op,
                ddy_op,
                lap_phi_op,
                lap_temp_op,
                atan_op,
                epsilon_op,
                coupling_op,
                mul_x_op,
                mul_y_op,
                term1_op,
                term2_op,
                m_op,
                phi_op,
                temp_op,
                tr,
                self.phi.data@,
                self.temperature.data@,
            ));
            assert(t0 == mirror_tb(
                mirror_lr(old(self).temperature_bits(), old(self).nx(), old(self).ny()),
                old(self).nx(),
                old(self).ny(),
            ));
            assert(p0 == old(self).phi_bits());
            assert(nxi == old(self).nx() && nyi == old(self).ny());
            assert(step_chain(
                mirror_tb(
                    mirror_lr(old(self).temperature_bits(), old(self).nx(), old(self).ny()),
                    old(self).nx(),
                    old(self).ny(),
                ),
                old(self).phi_bits(),
                old(self).nx(),
                old(self).ny(),
                ddx_op,
                ddy_op,
                lap_phi_op,
                lap_temp_op,
                atan_op,
                epsilon_op,
                coupling_op,
                mul_x_op,
                mul_y_op,
                term1_op,
                term2_op,
                m_op,
                phi_op,
                temp_op,
                tr,
                self.phi.data@,
                self.temperature.data@,
            ));
            assert(self.phi_bits() == self.phi.data@);
            assert(self.temperature_bits() == self.temperature.data@);
            assert(exists|w: StepTrace|
                step_chain(
                    mirror_tb(
                        mirror_lr(old(self).temperature_bits(), old(self).nx(), old(self).ny()),
                        old(self).nx(),
                        old(self).ny(),
                    ),
                    old(self).phi_bits(),
                    old(self).nx(),
                    old(self).ny(),
                    ddx_op,
                    ddy_op,
                    lap_phi_op,
                    lap_temp_op,
                    atan_op,
                    epsilon_op,
                    coupling_op,
                    mul_x_op,
                    mul_y_op,
                    term1_op,
                    term2_op,
                    m_op,
                    phi_op,
                    temp_op,
                    w,
                    self.phi_bits(),
                    self.temperature_bits(),
                ));
        }
    }

    /// Write the seed value (the sample one) over a four-by-four window of
    /// the order-parameter field offset by `(x, y)` in interior
    /// coordinates: every window node whose coordinates are in range (see
    /// `seed_covers`; the window is clipped cell by cell at the domain
    /// edges) is set to `ONE_BITS`, shifted by one node for the ghost
    /// ring; every other sample, and the whole temperature field, is
    /// untouched.
    pub fn add_seed(&mut self, x: i32, y: i32)
        requires
            old(self).wf(),
            i32::MIN + 2 <= x <= i32::MAX - 1,
            i32::MIN + 2 <= y <= i32::MAX - 1,
        ensures
            final(self).wf(),
            final(self).width == old(self).width,
            final(self).height == old(self).height,
            final(self).kappa == old(self).kappa,
            final(self).delta == old(self).delta,
            final(self).dx == old(self).dx,
            final(self).dy == old(self).dy,
            final(self).temperature == old(self).temperature,
            final(self).phi_bits().len() == old(self).phi_bits().len(),
            forall|a: int, b: int| #[trigger] in_grid(old(self).nx(), old(self).ny(), a, b) ==>
                final(self).phi_bits()[ravel_spec(old(self).nx(), a, b)] == (if seed_covers(
                    old(self).width as int,
                    old(self).height as int,
                    x as int,
                    y as int,
                    a,
                    b,
                ) {
                    ONE_BITS
                } else {
                    old(self).phi_bits()[ravel_spec(old(self).nx(), a, b)]
                }),
    {
        let ghost wi = self.width as int;
        let ghost hi = self.height as int;
        let ghost nxi = self.width as int + 2;
        let ghost nyi = self.height as int + 2;
        let ghost xi = x as int;
        let ghost yi = y as int;
        let ghost phi0 = self.phi.data@;
        let mut dj: i32 = -2;
        while dj < 2
            invariant
                self.wf(),
                self.width == old(self).width,
                self.height == old(self).height,
                self.kappa == old(self).kappa,
                self.delta == old(self).delta,
                self.dx == old(self).dx,
                self.dy == old(self).dy,
                self.temperature == old(self).temperature,
                wi == self.width as int,
                hi == self.height as int,
                nxi == wi + 2,
                nyi == hi + 2,
                xi == x as int,
                yi == y as int,
                i32::MIN + 2 <= x <= i32::MAX - 1,
                i32::MIN + 2 <= y <= i32::MAX - 1,
                phi0 == old(self).phi.data@,
                self.phi.data@.len() == phi0.len(),
                -2 <= dj <= 2,
                forall|a: int, b: int| #[trigger] in_grid(nxi, nyi, a, b) ==>
                    self.phi.data@[ravel_spec(nxi, a, b)] == (if seed_covers_upto(
                        wi,
                        hi,
                        xi,
                        yi,
                        dj as int,
                        -2,
                        a,
                        b,
                    ) {
                        ONE_BITS
                    } else {
                        phi0[ravel_spec(nxi, a, b)]
                    }),
            decreases 2 - dj,
        {
            if !(y + dj < 0 || (y + dj) as usize > self.height) {
                let mut di: i32 = -2;
                while di < 2
                    invariant
                        self.wf(),
                        self.width == old(self).width,
                        self.height == old(self).height,
                        self.kappa == old(self).kappa,
                        self.delta == old(self).delta,
                        self.dx == old(self).dx,
                        self.dy == old(self).dy,
                        self.temperature == old(self).temperature,
                        wi == self.width as int,
                        hi == self.height as int,
                        nxi == wi + 2,
                        nyi == hi + 2,
                        xi == x as int,
                        yi == y as int,
                        i32::MIN + 2 <= x <= i32::MAX - 1,
                        i32::MIN + 2 <= y <= i32::MAX - 1,
                        phi0 == old(self).phi.data@,
                        self.phi.data@.len() == phi0.len(),
                        -2 <= dj < 2,
                        0 <= yi + dj <= hi,
                        -2 <= di <= 2,
                        forall|a: int, b: int| #[trigger] in_grid(nxi, nyi, a, b) ==>
                            self.phi.data@[ravel_spec(nxi, a, b)] == (if seed_covers_upto(
                                wi,
                                hi,
                                xi,
                                yi,
                                dj as int,
                                di as int,
                                a,
                                b,
                            ) {
                                ONE_BITS
                            } else {
                                phi0[ravel_spec(nxi, a, b)]
                            }),
                    decreases 2 - di,
                {
                    if !(x + di < 0 || (x + di) as usize > self.width) {
                        let cx = (x + di) as usize;
                        let cy = (y + dj) as usize;
                        let idx = self.phi.ravel(cx + 1, cy + 1);
                        let ghost prev = self.phi.data@;
                        self.phi.data[idx] = ONE_BITS;
                        proof {
                            let dii = di as int;
                            let djj = dj as int;
                            let ta = xi + dii + 1;
                            let tb = yi + djj + 1;
                            assert(seed_write_at(wi, hi, xi, yi, dii, djj));
                            assert(idx == ravel_spec(nxi, ta, tb));
                            assert forall|a: int, b: int| #[trigger] in_grid(nxi, nyi, a, b) implies
                                self.phi.data@[ravel_spec(nxi, a, b)] == (if seed_covers_upto(
                                    wi,
                                    hi,
                                    xi,
                                    yi,
                                    djj,
                                    dii + 1,
                                    a,
                                    b,
                                ) {
                                    ONE_BITS
                                } else {
                                    phi0[ravel_spec(nxi, a, b)]
                                }) by {
                                lemma_ravel_in_bounds(nxi, nyi, a, b);
                                if a == ta && b == tb {
                                    assert(self.phi.data@[ravel_spec(nxi, a, b)] == ONE_BITS);
                                    assert(seed_covers_upto(wi, hi, xi, yi, djj, dii + 1, a, b));
                                } else {
                                    assert(ravel_spec(nxi, a, b) != ravel_spec(nxi, ta, tb))
                                        by (nonlinear_arith)
                                        requires
                                            0 <= a < nxi,
                                            0 <= ta < nxi,
                                            !(a == ta && b == tb),
                                            ravel_spec(nxi, a, b) == b * nxi + a,
                                            ravel_spec(nxi, ta, tb) == tb * nxi + ta,
                                    ;
                                    assert(self.phi.data@[ravel_spec(nxi, a, b)] == prev[ravel_spec(
                                        nxi,
                                        a,
                                        b,
                                    )]);
                                    lemma_seed_write(wi, hi, xi, yi, djj, dii, a, b);
                                }
                            }
                        }
                    } else {
                        proof {
                            let dii = di as int;
                            let djj = dj as int;
                            assert(!seed_write_at(wi, hi, xi, yi, dii, djj));
                            assert forall|a: int, b: int| #[trigger] in_grid(nxi, nyi, a, b) implies
                                self.phi.data@[ravel_spec(nxi, a, b)] == (if seed_covers_upto(
                                    wi,
                                    hi,
                                    xi,
                                    yi,
                                    djj,
                                    dii + 1,
                                    a,
                                    b,
                                ) {
                                    ONE_BITS
                                } else {
                                    phi0[ravel_spec(nxi, a, b)]
                                }) by {
                                lemma_seed_skip(wi, hi, xi, yi, djj, dii, a, b);
                            }
                        }
                    }
                    di += 1;
                }
                proof {
                    let djj = dj as int;
                    assert forall|a: int, b: int| #[trigger] in_grid(nxi, nyi, a, b) implies
                        self.phi.data@[ravel_spec(nxi, a, b)] == (if seed_covers_upto(
                            wi,
                            hi,
                            xi,
                            yi,
                            djj + 1,
                            -2,
                            a,
                            b,
                        ) {
                            ONE_BITS
                        } else {
                            phi0[ravel_spec(nxi, a, b)]
                        }) by {
                        lemma_seed_row_end(wi, hi, xi, yi, djj, a, b);
                    }
                }
            } else {
                proof {
                    let djj = dj as int;
                    assert(!(0 <= yi + djj <= hi));
                    assert forall|a: int, b: int| #[trigger] in_grid(nxi, nyi, a, b) implies
                        self.phi.data@[ravel_spec(nxi, a, b)] == (if seed_covers_upto(
                            wi,
                            hi,
                            xi,
                            yi,
                            djj + 1,
                            -2,
                            a,
                            b,
                        ) {
                            ONE_BITS
                        } else {
                            phi0[ravel_spec(nxi, a, b)]
                        }) by {
                        lemma_seed_skip_row(wi, hi, xi, yi, djj, a, b);
                    }
                }
            }
            dj += 1;
        }
        proof {
            assert forall|a: int, b: int| #[trigger] in_grid(nxi, nyi, a, b) implies
                self.phi.data@[ravel_spec(nxi, a, b)] == (if seed_covers(wi, hi, xi, yi, a, b) {
                    ONE_BITS
                } else {
                    phi0[ravel_spec(nxi, a, b)]
                }) by {
                lemma_seed_complete(wi, hi, xi, yi, a, b);
            }
        }
    }

    /// The temperature sample at interior node `(i, j)`, read through the
    /// ghost-ring offset.
    pub fn get_temperature(&self, i: usize, j: usize) -> (r: u32)
        requires
            self.wf(),
            i < self.width,
            j < self.height,
        ensures
            r == self.temperature_bits()[ravel_spec(self.width + 2, i + 1, j + 1)],
    {
        self.temperature.value(i + 1, j + 1)
    }

    /// The order-parameter sample at interior node `(i, j)`, read through
    /// the ghost-ring offset.
    pub fn get_phi(&self, i: usize, j: usize) -> (r: u32)
        requires
            self.wf(),
            i < self.width,
            j < self.height,
        ensures
            r == self.phi_bits()[ravel_spec(self.width + 2, i + 1, j + 1)],
    {
        self.phi.value(i + 1, j + 1)
    }
}

impl Simulation {
    /// Number of stored columns: the interior width plus the ghost ring.
    pub open spec fn nx(&self) -> int {
        self.width + 2
    }

    /// Number of stored rows: the interior height plus the ghost ring.
    pub open spec fn ny(&self) -> int {
        self.height + 2
    }
}

/// The seeding window around `(x, y)` writes the node with interior
/// offset `(di, dj)`: the window is clipped cell by cell to the stored
/// grid, so a cell is written exactly when its own row and column
/// coordinates are in range (the bound `width` or `height` itself
/// reaches the ghost ring).
pub open spec fn seed_write_at(width: int, height: int, x: int, y: int, di: int, dj: int) -> bool {
    &&& 0 <= y + dj <= height
    &&& 0 <= x + di <= width
}

/// Storage node `(a, b)` receives the seed value when seeding at `(x, y)`:
/// it is one of the written window nodes, shifted by one for the ghost
/// ring.
pub open spec fn seed_covers(width: int, height: int, x: int, y: int, a: int, b: int) -> bool {
    exists|di: int, dj: int|
        #![trigger seed_write_at(width, height, x, y, di, dj)]
        -2 <= di < 2 && -2 <= dj < 2 && seed_write_at(width, height, x, y, di, dj) && a == x + di
            + 1 && b == y + dj + 1
}

/// Storage node `(a, b)` has been written by the part of the seeding
/// window that comes before offset `(di_hi, dj_hi)` in row-major window
/// order.
spec fn seed_covers_upto(
    width: int,
    height: int,
    x: int,
    y: int,
    dj_hi: int,
    di_hi: int,
    a: int,
    b: int,
) -> bool {
    exists|di: int, dj: int|
        #![trigger seed_write_at(width, height, x, y, di, dj)]
        -2 <= di < 2 && -2 <= dj < 2 && (dj < dj_hi || (dj == dj_hi && di < di_hi))
            && seed_write_at(width, height, x, y, di, dj) && a == x + di + 1 && b == y + dj + 1
}

/// Passing over a window offset whose guards fail leaves the written set
/// unchanged.
proof fn lemma_seed_skip(width: int, height: int, x: int, y: int, dj: int, di: int, a: int, b: int)
    requires
        !seed_write_at(width, height, x, y, di, dj),
    ensures
        seed_covers_upto(width, height, x, y, dj, di + 1, a, b) == seed_covers_upto(
            width,
            height,
            x,
            y,
            dj,
            di,
            a,
            b,
        ),
{
    if seed_covers_upto(width, height, x, y, dj, di + 1, a, b) {
        let (di2, dj2) = choose|di2: int, dj2: int|
            -2 <= di2 < 2 && -2 <= dj2 < 2 && (dj2 < dj || (dj2 == dj && di2 < di + 1))
                && #[trigger] seed_write_at(width, height, x, y, di2, dj2) && a == x + di2 + 1 && b
                == y + dj2 + 1;
        assert(!(di2 == di && dj2 == dj));
        assert(seed_write_at(width, height, x, y, di2, dj2));
    }
    if seed_covers_upto(width, height, x, y, dj, di, a, b) {
        let (di2, dj2) = choose|di2: int, dj2: int|
            -2 <= di2 < 2 && -2 <= dj2 < 2 && (dj2 < dj || (dj2 == dj && di2 < di))
                && #[trigger] seed_write_at(width, height, x, y, di2, dj2) && a == x + di2 + 1 && b
                == y + dj2 + 1;
        assert(seed_write_at(width, height, x, y, di2, dj2));
    }
}

/// Finishing a window row carries the written set over to the start of
/// the next row.
proof fn lemma_seed_row_end(width: int, height: int, x: int, y: int, dj: int, a: int, b: int)
    ensures
        seed_covers_upto(width, height, x, y, dj, 2, a, b) == seed_covers_upto(
            width,
            height,
            x,
            y,
            dj + 1,
            -2,
            a,
            b,
        ),
{
    if seed_covers_upto(width, height, x, y, dj, 2, a, b) {
        let (di2, dj2) = choose|di2: int, dj2: int|
            -2 <= di2 < 2 && -2 <= dj2 < 2 && (dj2 < dj || (dj2 == dj && di2 < 2))
                && #[trigger] seed_write_at(width, height, x, y, di2, dj2) && a == x + di2 + 1 && b
                == y + dj2 + 1;
        assert(seed_write_at(width, height, x, y, di2, dj2));
    }
    if seed_covers_upto(width, height, x, y, dj + 1, -2, a, b) {
        let (di2, dj2) = choose|di2: int, dj2: int|
            -2 <= di2 < 2 && -2 <= dj2 < 2 && (dj2 < dj + 1 || (dj2 == dj + 1 && di2 < -2))
                && #[trigger] seed_write_at(width, height, x, y, di2, dj2) && a == x + di2 + 1 && b
                == y + dj2 + 1;
        assert(seed_write_at(width, height, x, y, di2, dj2));
    }
}

/// Skipping a whole window row whose row guard fails leaves the written
/// set unchanged.
proof fn lemma_seed_skip_row(width: int, height: int, x: int, y: int, dj: int, a: int, b: int)
    requires
        !(0 <= y + dj <= height),
    ensures
        seed_covers_upto(width, height, x, y, dj + 1, -2, a, b) == seed_covers_upto(
            width,
            height,
            x,
            y,
            dj,
            -2,
            a,
            b,
        ),
{
    if seed_covers_upto(width, height, x, y, dj + 1, -2, a, b) {
        let (di2, dj2) = choose|di2: int, dj2: int|
            -2 <= di2 < 2 && -2 <= dj2 < 2 && (dj2 < dj + 1 || (dj2 == dj + 1 && di2 < -2))
                && #[trigger] seed_write_at(width, height, x, y, di2, dj2) && a == x + di2 + 1 && b
                == y + dj2 + 1;
        assert(dj2 != dj);
        assert(seed_write_at(width, height, x, y, di2, dj2));
    }
    if seed_covers_upto(width, height, x, y, dj, -2, a, b) {
        let (di2, dj2) = choose|di2: int, dj2: int|
            -2 <= di2 < 2 && -2 <= dj2 < 2 && (dj2 < dj || (dj2 == dj && di2 < -2))
                && #[trigger] seed_write_at(width, height, x, y, di2, dj2) && a == x + di2 + 1 && b
                == y + dj2 + 1;
        assert(seed_write_at(width, height, x, y, di2, dj2));
    }
}

/// Writing a window offset whose guards pass adds exactly its target
/// node to the written set.
proof fn lemma_seed_write(width: int, height: int, x: int, y: int, dj: int, di: int, a: int, b: int)
    requires
        -2 <= di < 2,
        -2 <= dj < 2,
        seed_write_at(width, height, x, y, di, dj),
        !(a == x + di + 1 && b == y + dj + 1),
    ensures
        seed_covers_upto(width, height, x, y, dj, di + 1, a, b) == seed_covers_upto(
            width,
            height,
            x,
            y,
            dj,
            di,
            a,
            b,
        ),
{
    if seed_covers_upto(width, height, x, y, dj, di + 1, a, b) {
        let (di2, dj2) = choose|di2: int, dj2: int|
            -2 <= di2 < 2 && -2 <= dj2 < 2 && (dj2 < dj || (dj2 == dj && di2 < di + 1))
                && #[trigger] seed_write_at(width, height, x, y, di2, dj2) && a == x + di2 + 1 && b
                == y + dj2 + 1;
        assert(!(di2 == di && dj2 == dj));
        assert(seed_write_at(width, height, x, y, di2, dj2));
    }
    if seed_covers_upto(width, height, x, y, dj, di, a, b) {
        let (di2, dj2) = choose|di2: int, dj2: int|
            -2 <= di2 < 2 && -2 <= dj2 < 2 && (dj2 < dj || (dj2 == dj && di2 < di))
                && #[trigger] seed_write_at(width, height, x, y, di2, dj2) && a == x + di2 + 1 && b
                == y + dj2 + 1;
        assert(seed_write_at(width, height, x, y, di2, dj2));
    }
}

/// The whole window in row-major order is exactly the written seed set.
proof fn lemma_seed_complete(width: int, height: int, x: int, y: int, a: int, b: int)
    ensures
        seed_covers_upto(width, height, x, y, 2, -2, a, b) == seed_covers(
            width,
            height,
            x,
            y,
            a,
            b,
        ),
{
    if seed_covers_upto(width, height, x, y, 2, -2, a, b) {
        let (di2, dj2) = choose|di2: int, dj2: int|
            -2 <= di2 < 2 && -2 <= dj2 < 2 && (dj2 < 2 || (dj2 == 2 && di2 < -2))
                && #[trigger] seed_write_at(width, height, x, y, di2, dj2) && a == x + di2 + 1 && b
                == y + dj2 + 1;
        assert(seed_write_at(width, height, x, y, di2, dj2));
    }
    if seed_covers(width, height, x, y, a, b) {
        let (di2, dj2) = choose|di2: int, dj2: int|
            -2 <= di2 < 2 && -2 <= dj2 < 2 && #[trigger] seed_write_at(
                width,
                height,
                x,
                y,
                di2,
                dj2,
            ) && a == x + di2 + 1 && b == y + dj2 + 1;
        assert(seed_write_at(width, height, x, y, di2, dj2));
    }
}

/// The buffer after the left/right ghost-column refresh: in every row,
/// column zero takes the value two columns in and the last column takes
/// the value two columns in from the right edge; all other samples keep
/// their value.
pub open spec fn mirror_lr(s: Seq<u32>, nx: int, ny: int) -> Seq<u32> {
    Seq::new(
        s.len(),
        |k: int|
            {
                let i = k % nx;
                let j = k / nx;
                if i == 0 {
                    s[ravel_spec(nx, 2, j)]
                } else if i == nx - 1 {
                    s[ravel_spec(nx, nx - 3, j)]
                } else {
                    s[k]
                }
            },
    )
}

/// The buffer after the bottom/top ghost-row refresh: in every column,
/// row zero takes the value two rows in and the last row takes the value
/// two rows in from the top edge; all other samples keep their value.
pub open spec fn mirror_tb(s: Seq<u32>, nx: int, ny: int) -> Seq<u32> {
    Seq::new(
        s.len(),
        |k: int|
            {
                let i = k % nx;
                let j = k / nx;
                if j == 0 {
                    s[ravel_spec(nx, i, 2)]
                } else if j == ny - 1 {
                    s[ravel_spec(nx, i, ny - 3)]
                } else {
                    s[k]
                }
            },
    )
}

/// Refresh the ghost ring of `field` with the approximate zero-gradient
/// boundary condition: first both ghost columns are filled from the
/// value two columns inward, row by row, then both ghost rows from the
/// value two rows inward, column by column (so the corner ghost samples
/// read the already refreshed columns).
fn refresh_ghost_ring(field: &mut Array2D)
    requires
        old(field).wf(),
        old(field).size[0] >= 3,
        old(field).size[1] >= 3,
    ensures
        final(field).wf(),
        final(field).size == old(field).size,
        final(field).data@ == mirror_tb(
            mirror_lr(
                old(field).data@,
                old(field).size[0] as int,
                old(field).size[1] as int,
            ),
            old(field).size[0] as int,
            old(field).size[1] as int,
        ),
{
    let nx = field.size[0];
    let ny = field.size[1];
    let ghost nxi = nx as int;
    let ghost nyi = ny as int;
    let ghost t0 = field.data@;
    let mut j: usize = 0;
    while j < ny
        invariant
            field.wf(),
            nx == field.size[0],
            ny == field.size[1],
            nx >= 3,
            ny >= 3,
            nxi == nx as int,
            nyi == ny as int,
            t0 == old(field).data@,
            field.data@.len() == t0.len(),
            j <= ny,
            forall|a: int, b: int| #[trigger] in_grid(nxi, nyi, a, b) ==>
                field.data@[ravel_spec(nxi, a, b)] == (if b < j && a == 0 {
                    t0[ravel_spec(nxi, 2, b)]
                } else if b < j && a == nxi - 1 {
                    t0[ravel_spec(nxi, nxi - 3, b)]
                } else {
                    t0[ravel_spec(nxi, a, b)]
                }),
        decreases nyi - j,
    {
        let value_left = field.value(2, j);
        let value_right = field.value(nx - 3, j);
        let index_left = field.ravel(0, j);
        let index_right = field.ravel(nx - 1, j);
        let ghost prev = field.data@;
        field.data[index_left] = value_left;
        field.data[index_right] = value_right;
        proof {
            let jj = j as int;
            assert(in_grid(nxi, nyi, 2, jj));
            assert(in_grid(nxi, nyi, nxi - 3, jj));
            assert(prev[ravel_spec(nxi, 2, jj)] == t0[ravel_spec(nxi, 2, jj)]);
            assert(prev[ravel_spec(nxi, nxi - 3, jj)] == t0[ravel_spec(nxi, nxi - 3, jj)]);
            assert(index_left != index_right);
            assert forall|a: int, b: int| #[trigger] in_grid(nxi, nyi, a, b) implies
                field.data@[ravel_spec(nxi, a, b)] == (if b < jj + 1 && a == 0 {
                    t0[ravel_spec(nxi, 2, b)]
                } else if b < jj + 1 && a == nxi - 1 {
                    t0[ravel_spec(nxi, nxi - 3, b)]
                } else {
                    t0[ravel_spec(nxi, a, b)]
                }) by {
                lemma_ravel_in_bounds(nxi, nyi, a, b);
                lemma_ravel_in_bounds(nxi, nyi, 0, jj);
                lemma_ravel_in_bounds(nxi, nyi, nxi - 1, jj);
                if !(b == jj && (a == 0 || a == nxi - 1)) {
                    assert(ravel_spec(nxi, a, b) != ravel_spec(nxi, 0, jj) && ravel_spec(nxi, a, b)
                        != ravel_spec(nxi, nxi - 1, jj)) by (nonlinear_arith)
                        requires
                            0 <= a < nxi,
                            0 <= b,
                            0 <= jj,
                            nxi >= 3,
                            !(b == jj && (a == 0 || a == nxi - 1)),
                            ravel_spec(nxi, a, b) == b * nxi + a,
                            ravel_spec(nxi, 0, jj) == jj * nxi,
                            ravel_spec(nxi, nxi - 1, jj) == jj * nxi + nxi - 1,
                    ;
                    assert(field.data@[ravel_spec(nxi, a, b)] == prev[ravel_spec(nxi, a, b)]);
                }
            }
        }
        j += 1;
    }
    let ghost t1 = field.data@;
    proof {
        assert forall|k: int| 0 <= k < t1.len() implies t1[k] == mirror_lr(t0, nxi, nyi)[k] by {
            crate::numeric::lemma_grid_index(nxi, nyi, k);
        }
        assert(t1 =~= mirror_lr(t0, nxi, nyi));
    }
    let mut i: usize = 0;
    while i < nx
        invariant
            field.wf(),
            nx == field.size[0],
            ny == field.size[1],
            nx >= 3,
            ny >= 3,
            nxi == nx as int,
            nyi == ny as int,
            t1 == mirror_lr(t0, nxi, nyi),
            t0 == old(field).data@,
            field.data@.len() == t1.len(),
            t1.len() == t0.len(),
            i <= nx,
            forall|a: int, b: int| #[trigger] in_grid(nxi, nyi, a, b) ==>
                field.data@[ravel_spec(nxi, a, b)] == (if a < i && b == 0 {
                    t1[ravel_spec(nxi, a, 2)]
                } else if a < i && b == nyi - 1 {
                    t1[ravel_spec(nxi, a, nyi - 3)]
                } else {
                    t1[ravel_spec(nxi, a, b)]
                }),
        decreases nxi - i,
    {
        let value_bottom = field.value(i, 2);
        let value_top = field.value(i, ny - 3);
        let index_bottom = field.ravel(i, 0);
        let index_top = field.ravel(i, ny - 1);
        let ghost prev = field.data@;
        field.data[index_bottom] = value_bottom;
        field.data[index_top] = value_top;
        proof {
            let ii = i as int;
            assert(in_grid(nxi, nyi, ii, 2));
            assert(in_grid(nxi, nyi, ii, nyi - 3));
            assert(prev[ravel_spec(nxi, ii, 2)] == t1[ravel_spec(nxi, ii, 2)]);
            assert(prev[ravel_spec(nxi, ii, nyi - 3)] == t1[ravel_spec(nxi, ii, nyi - 3)]);
            assert((nyi - 1) * nxi > 0) by (nonlinear_arith)
                requires nyi >= 3, nxi >= 3,
            ;
            assert(index_bottom != index_top);
            assert forall|a: int, b: int| #[trigger] in_grid(nxi, nyi, a, b) implies
                field.data@[ravel_spec(nxi, a, b)] == (if a < ii + 1 && b == 0 {
                    t1[ravel_spec(nxi, a, 2)]
                } else if a < ii + 1 && b == nyi - 1 {
                    t1[ravel_spec(nxi, a, nyi - 3)]
                } else {
                    t1[ravel_spec(nxi, a, b)]
                }) by {
                lemma_ravel_in_bounds(nxi, nyi, a, b);
                lemma_ravel_in_bounds(nxi, nyi, ii, 0);
                lemma_ravel_in_bounds(nxi, nyi, ii, nyi - 1);
                if !(a == ii && (b == 0 || b == nyi - 1)) {
                    assert(ravel_spec(nxi, a, b) != ravel_spec(nxi, ii, 0) && ravel_spec(nxi, a, b)
                        != ravel_spec(nxi, ii, nyi - 1)) by (nonlinear_arith)
                        requires
                            0 <= a < nxi,
                            0 <= ii < nxi,
                            0 <= b < nyi,
                            nyi >= 3,
                            !(a == ii && (b == 0 || b == nyi - 1)),
                            ravel_spec(nxi, a, b) == b * nxi + a,
                            ravel_spec(nxi, ii, 0) == ii,
                            ravel_spec(nxi, ii, nyi - 1) == (nyi - 1) * nxi + ii,
                    ;
                    assert(field.data@[ravel_spec(nxi, a, b)] == prev[ravel_spec(nxi, a, b)]);
                }
            }
        }
        i += 1;
    }
    proof {
        assert forall|k: int| 0 <= k < field.data@.len() implies field.data@[k] == mirror_tb(
            t1,
            nxi,
            nyi,
        )[k] by {
            crate::numeric::lemma_grid_index(nxi, nyi, k);
        }
        assert(field.data@ =~= mirror_tb(t1, nxi, nyi));
    }
}

/// The intermediate buffers of one time step, as ghost data: the
/// derivative, angle and coupling fields that connect the previous state
/// to the next one.
#[verifier::ext_equal]
pub struct StepTrace {
    pub dphidx: Seq<u32>,
    pub dphidy: Seq<u32>,
    pub lap_phi: Seq<u32>,
    pub lap_temp: Seq<u32>,
    pub theta: Seq<u32>,
    pub epsilon: Seq<u32>,
    pub coupling: Seq<u32>,
    pub prod_x: Seq<u32>,
    pub prod_y: Seq<u32>,
    pub term1: Seq<u32>,
    pub term2: Seq<u32>,
    pub m: Seq<u32>,
}

/// The dataflow of one time step over an `nx` by `ny` grid. Starting
/// from the refreshed temperature buffer `t0` and the previous
/// order-parameter buffer `p0`, the trace `w` holds, in order: the two
/// central-difference derivatives and the second-derivative pass of
/// `p0`; the second-derivative pass of `t0`; the interface angle of the
/// two derivatives; the interfacial energy and the anisotropy coupling
/// of the angle; the products of the coupling with each derivative; the
/// column derivative of the first product and the row derivative of the
/// second; and the supercooling drive of `t0`. The next order parameter
/// `p1` combines, sample by sample, the previous value, the two
/// anisotropy terms, the energy, the second derivative and the drive;
/// the next temperature `t1` combines the refreshed temperature, its
/// second derivative, and the new and old order parameter.
pub open spec fn step_chain<
    FX1: Fn(u32, u32) -> u32,
    FY1: Fn(u32, u32) -> u32,
    FLP: Fn(u32, u32, u32, u32, u32) -> u32,
    FLT: Fn(u32, u32, u32, u32, u32) -> u32,
    FAT: Fn(u32, u32) -> u32,
    FEP: Fn(u32) -> u32,
    FCP: Fn(u32) -> u32,
    FMX: Fn(u32, u32) -> u32,
    FMY: Fn(u32, u32) -> u32,
    FY2: Fn(u32, u32) -> u32,
    FX2: Fn(u32, u32) -> u32,
    FM: Fn(u32) -> u32,
    FP: Fn(u32, u32, u32, u32, u32, u32) -> u32,
    FT: Fn(u32, u32, u32, u32) -> u32,
>(
    t0: Seq<u32>,
    p0: Seq<u32>,
    nx: int,
    ny: int,
    ddx_op: FX1,
    ddy_op: FY1,
    lap_phi_op: FLP,
    lap_temp_op: FLT,
    atan_op: FAT,
    epsilon_op: FEP,
    coupling_op: FCP,
    mul_x_op: FMX,
    mul_y_op: FMY,
    term1_op: FY2,
    term2_op: FX2,
    m_op: FM,
    phi_op: FP,
    temp_op: FT,
    w: StepTrace,
    p1: Seq<u32>,
    t1: Seq<u32>,
) -> bool {
    &&& is_diff_x(nx, ny, p0, ddx_op, w.dphidx)
    &&& is_diff_y(nx, ny, p0, ddy_op, w.dphidy)
    &&& is_laplace(nx, ny, p0, lap_phi_op, w.lap_phi)
    &&& is_laplace(nx, ny, t0, lap_temp_op, w.lap_temp)
    &&& is_zip(w.dphidy, w.dphidx, atan_op, w.theta)
    &&& is_map(w.theta, epsilon_op, w.epsilon)
    &&& is_map(w.theta, coupling_op, w.coupling)
    &&& is_zip(w.coupling, w.dphidx, mul_x_op, w.prod_x)
    &&& is_zip(w.coupling, w.dphidy, mul_y_op, w.prod_y)
    &&& is_diff_y(nx, ny, w.prod_x, term1_op, w.term1)
    &&& is_diff_x(nx, ny, w.prod_y, term2_op, w.term2)
    &&& is_map(t0, m_op, w.m)
    &&& p1.len() == nx * ny
    &&& forall|k: int| 0 <= k < nx * ny ==> call_ensures(
        phi_op,
        (p0[k], w.term1[k], w.term2[k], w.epsilon[k], w.lap_phi[k], w.m[k]),
        #[trigger] p1[k],
    )
    &&& t1.len() == nx * ny
    &&& forall|k: int| 0 <= k < nx * ny ==> call_ensures(
        temp_op,
        (t0[k], w.lap_temp[k], p1[k], p0[k]),
        #[trigger] t1[k],
    )
}

/// Law: with deterministic per-sample operators one time step is a
/// function — `step_chain` admits exactly one trace and one pair of
/// result buffers for a given starting state, so the contract of `step`
/// pins both new fields completely.
pub proof fn lemma_step_chain_deterministic<
    FX1: Fn(u32, u32) -> u32,
    FY1: Fn(u32, u32) -> u32,
    FLP: Fn(u32, u32, u32, u32, u32) -> u32,
    FLT: Fn(u32, u32, u32, u32, u32) -> u32,
    FAT: Fn(u32, u32) -> u32,
    FEP: Fn(u32) -> u32,
    FCP: Fn(u32) -> u32,
    FMX: Fn(u32, u32) -> u32,
    FMY: Fn(u32, u32) -> u32,
    FY2: Fn(u32, u32) -> u32,
    FX2: Fn(u32, u32) -> u32,
    FM: Fn(u32) -> u32,
    FP: Fn(u32, u32, u32, u32, u32, u32) -> u32,
    FT: Fn(u32, u32, u32, u32) -> u32,
>(
    t0: Seq<u32>,
    p0: Seq<u32>,
    nx: int,
    ny: int,
    ddx_op: FX1,
    ddy_op: FY1,
    lap_phi_op: FLP,
    lap_temp_op: FLT,
    atan_op: FAT,
    epsilon_op: FEP,
    coupling_op: FCP,
    mul_x_op: FMX,
    mul_y_op: FMY,
    term1_op: FY2,
    term2_op: FX2,
    m_op: FM,
    phi_op: FP,
    temp_op: FT,
    w1: StepTrace,
    p1a: Seq<u32>,
    t1a: Seq<u32>,
    w2: StepTrace,
    p1b: Seq<u32>,
    t1b: Seq<u32>,
)
    requires
        nx >= 0,
        ny >= 0,
        step_chain(
            t0,
            p0,
            nx,
            ny,
            ddx_op,
            ddy_op,
            lap_phi_op,
            lap_temp_op,
            atan_op,
            epsilon_op,
            coupling_op,
            mul_x_op,
            mul_y_op,
            term1_op,
            term2_op,
            m_op,
            phi_op,
            temp_op,
            w1,
            p1a,
            t1a,
        ),
        step_chain(
            t0,
            p0,
            nx,
            ny,
            ddx_op,
            ddy_op,
            lap_phi_op,
            lap_temp_op,
            atan_op,
            epsilon_op,
            coupling_op,
            mul_x_op,
            mul_y_op,
            term1_op,
            term2_op,
            m_op,
            phi_op,
            temp_op,
            w2,
            p1b,
            t1b,
        ),
        deterministic2(ddx_op),
        deterministic2(ddy_op),
        deterministic5(lap_phi_op),
        deterministic5(lap_temp_op),
        deterministic2(atan_op),
        deterministic1(epsilon_op),
        deterministic1(coupling_op),
        deterministic2(mul_x_op),
        deterministic2(mul_y_op),
        deterministic2(term1_op),
        deterministic2(term2_op),
        deterministic1(m_op),
        deterministic6(phi_op),
        deterministic4(temp_op),
    ensures
        w1 == w2,
        p1a == p1b,
        t1a == t1b,
{
    lemma_diff_x_unique(nx, ny, p0, ddx_op, w1.dphidx, w2.dphidx);
    lemma_diff_y_unique(nx, ny, p0, ddy_op, w1.dphidy, w2.dphidy);
    lemma_laplace_unique(nx, ny, p0, lap_phi_op, w1.lap_phi, w2.lap_phi);
    lemma_laplace_unique(nx, ny, t0, lap_temp_op, w1.lap_temp, w2.lap_temp);
    lemma_zip_unique(w1.dphidy, w1.dphidx, atan_op, w1.theta, w2.theta);
    lemma_map_unique(w1.theta, epsilon_op, w1.epsilon, w2.epsilon);
    lemma_map_unique(w1.theta, coupling_op, w1.coupling, w2.coupling);
    lemma_zip_unique(w1.coupling, w1.dphidx, mul_x_op, w1.prod_x, w2.prod_x);
    lemma_zip_unique(w1.coupling, w1.dphidy, mul_y_op, w1.prod_y, w2.prod_y);
    lemma_diff_y_unique(nx, ny, w1.prod_x, term1_op, w1.term1, w2.term1);
    lemma_diff_x_unique(nx, ny, w1.prod_y, term2_op, w1.term2, w2.term2);
    lemma_map_unique(t0, m_op, w1.m, w2.m);
    assert forall|k: int| 0 <= k < p1a.len() implies p1a[k] == p1b[k] by {
        assert(call_ensures(
            phi_op,
            (p0[k], w1.term1[k], w1.term2[k], w1.epsilon[k], w1.lap_phi[k], w1.m[k]),
            p1a[k],
        ));
        assert(call_ensures(
            phi_op,
            (p0[k], w2.term1[k], w2.term2[k], w2.epsilon[k], w2.lap_phi[k], w2.m[k]),
            p1b[k],
        ));
    }
    assert(p1a =~= p1b);
    assert forall|k: int| 0 <= k < t1a.len() implies t1a[k] == t1b[k] by {
        assert(call_ensures(temp_op, (t0[k], w1.lap_temp[k], p1a[k], p0[k]), t1a[k]));
        assert(call_ensures(temp_op, (t0[k], w2.lap_temp[k], p1b[k], p0[k]), t1b[k]));
    }
    assert(t1a =~= t1b);
    assert(w1 =~= w2);
}

/// The four bytes of pixel `(i, j)` in the rendered bitmap are the color
/// ramp entry at an index the caller's ramp operator admits for the
/// interior sample at node `(i, j)`.
pub open spec fn pixel_matches<F: Fn(u32) -> usize>(
    data: Seq<u32>,
    rgb: Seq<u8>,
    ramp: F,
    warm: bool,
    width: int,
    i: int,
    j: int,
) -> bool {
    exists|k: usize|
        call_ensures(ramp, (data[ravel_spec(width + 2, i + 1, j + 1)],), k) && k <= 9 && rgb[4 * (
        j * width + i)] == ramp_entry(warm, k as int).0 && rgb[4 * (j * width + i) + 1]
            == ramp_entry(warm, k as int).1 && rgb[4 * (j * width + i) + 2] == ramp_entry(
            warm,
            k as int,
        ).2 && rgb[4 * (j * width + i) + 3] == ramp_entry(warm, k as int).3
}

/// Law: a rendered all-zero field shows the first ramp entry at every
/// pixel, for any ramp operator that sends the zero sample to index
/// zero — so both bitmaps of a freshly constructed simulation are
/// uniform in their ramps' first color.
pub proof fn lemma_zero_field_renders_first_entry<F: Fn(u32) -> usize>(
    data: Seq<u32>,
    rgb: Seq<u8>,
    ramp: F,
    warm: bool,
    width: int,
    height: int,
    i: int,
    j: int,
)
    requires
        all_zero(data),
        data.len() == (width + 2) * (height + 2),
        0 <= i < width,
        0 <= j < height,
        pixel_matches(data, rgb, ramp, warm, width, i, j),
        forall|k: usize| call_ensures(ramp, (0u32,), k) ==> k == 0,
    ensures
        rgb[4 * (j * width + i)] == ramp_entry(warm, 0).0,
        rgb[4 * (j * width + i) + 1] == ramp_entry(warm, 0).1,
        rgb[4 * (j * width + i) + 2] == ramp_entry(warm, 0).2,
        rgb[4 * (j * width + i) + 3] == ramp_entry(warm, 0).3,
{
    lemma_ravel_in_bounds(width + 2, height + 2, i + 1, j + 1);
    assert(data[ravel_spec(width + 2, i + 1, j + 1)] == 0u32);
    let k = choose|k: usize|
        call_ensures(ramp, (data[ravel_spec(width + 2, i + 1, j + 1)],), k) && k <= 9 && rgb[4 * (
        j * width + i)] == ramp_entry(warm, k as int).0 && rgb[4 * (j * width + i) + 1]
            == ramp_entry(warm, k as int).1 && rgb[4 * (j * width + i) + 2] == ramp_entry(
            warm,
            k as int,
        ).2 && rgb[4 * (j * width + i) + 3] == ramp_entry(warm, k as int).3;
    assert(call_ensures(ramp, (0u32,), k));
    assert(k == 0);
}

/// Render the interior of `field` as a row-major bitmap of four bytes per
/// pixel: each interior sample is turned into a ramp index by the
/// caller's ramp operator, and the index selects the entry of the chosen
/// color ramp.
fn render_field<F: Fn(u32) -> usize>(
    field: &Array2D,
    width: usize,
    height: usize,
    ramp: F,
    warm: bool,
) -> (rgb: Vec<u8>)
    requires
        field.wf(),
        field.size[0] == width + 2,
        field.size[1] == height + 2,
        forall|v: u32| call_requires(ramp, (v,)),
        forall|v: u32, k: usize| call_ensures(ramp, (v,), k) ==> k <= 9,
    ensures
        rgb@.len() == width * height * 4,
        forall|i: int, j: int| 0 <= i < width && 0 <= j < height ==> #[trigger] pixel_matches(
            field.data@,
            rgb@,
            ramp,
            warm,
            width as int,
            i,
            j,
        ),
{
    let ghost wi = width as int;
    let ghost hi = height as int;
    let ghost data = field.data@;
    proof {
        assert(hi * wi <= (wi + 2) * (hi + 2) && wi * hi <= (wi + 2) * (hi + 2) && hi * wi == wi
            * hi) by (nonlinear_arith)
            requires wi >= 0, hi >= 0,
        ;
    }
    let pairs = cartesian_pairs(0, height, 0, width);
    let mut rgb: Vec<u8> = Vec::new();
    let mut k: usize = 0;
    while k < pairs.len()
        invariant
            field.wf(),
            field.size[0] == width + 2,
            field.size[1] == height + 2,
            wi == width as int,
            hi == height as int,
            data == field.data@,
            forall|v: u32| call_requires(ramp, (v,)),
            forall|v: u32, kk: usize| call_ensures(ramp, (v,), kk) ==> kk <= 9,
            pairs@.len() == hi * wi,
            forall|m: int| 0 <= m < pairs@.len() ==>
                (#[trigger] pairs@[m]).0 == m / wi && pairs@[m].1 == m % wi,
            k <= pairs@.len(),
            rgb@.len() == 4 * k,
            forall|i: int, j: int| 0 <= i < wi && 0 <= j < hi && j * wi + i < k ==>
                #[trigger] pixel_matches(data, rgb@, ramp, warm, wi, i, j),
        decreases pairs@.len() - k,
    {
        let (j, i) = pairs[k];
        proof {
            assert(wi > 0) by (nonlinear_arith)
                requires 0 <= k < hi * wi, wi >= 0,
            ;
            assert(0 <= (k as int) % wi < wi) by (nonlinear_arith)
                requires wi > 0,
            ;
            assert(0 <= (k as int) / wi < hi) by (nonlinear_arith)
                requires wi > 0, 0 <= k < hi * wi,
            ;
        }
        let v = field.value(i + 1, j + 1);
        let idx = ramp(v);
        let c = ramp_color(warm, idx);
        let ghost prev = rgb@;
        rgb.push(c.0);
        rgb.push(c.1);
        rgb.push(c.2);
        rgb.push(c.3);
        proof {
            let ii = i as int;
            let jj = j as int;
            lemma_fundamental_div_mod(k as int, wi);
            assert(jj * wi == wi * jj) by (nonlinear_arith);
            assert(jj * wi + ii == k);
            assert forall|a: int, b: int| 0 <= a < wi && 0 <= b < hi && b * wi + a < k + 1 implies
                #[trigger] pixel_matches(data, rgb@, ramp, warm, wi, a, b) by {
                if b * wi + a < k {
                    assert(pixel_matches(data, prev, ramp, warm, wi, a, b));
                    let kk = choose|kk: usize|
                        call_ensures(ramp, (data[ravel_spec(wi + 2, a + 1, b + 1)],), kk) && kk
                            <= 9 && prev[4 * (b * wi + a)] == ramp_entry(warm, kk as int).0
                            && prev[4 * (b * wi + a) + 1] == ramp_entry(warm, kk as int).1 && prev[4
                            * (b * wi + a) + 2] == ramp_entry(warm, kk as int).2 && prev[4 * (b * wi
                            + a) + 3] == ramp_entry(warm, kk as int).3;
                    assert(call_ensures(ramp, (data[ravel_spec(wi + 2, a + 1, b + 1)],), kk) && kk
                        <= 9 && rgb@[4 * (b * wi + a)] == ramp_entry(warm, kk as int).0 && rgb@[4 * (
                    b * wi + a) + 1] == ramp_entry(warm, kk as int).1 && rgb@[4 * (b * wi + a) + 2]
                        == ramp_entry(warm, kk as int).2 && rgb@[4 * (b * wi + a) + 3] == ramp_entry(
                        warm,
                        kk as int,
                    ).3);
                } else {
                    assert(a == ii && b == jj) by (nonlinear_arith)
                        requires
                            0 <= a < wi,
                            0 <= ii < wi,
                            b * wi + a == k,
                            jj * wi + ii == k,
                    ;
                    assert(call_ensures(ramp, (data[ravel_spec(wi + 2, ii + 1, jj + 1)],), idx)
                        && idx <= 9 && rgb@[4 * k] == ramp_entry(warm, idx as int).0 && rgb@[4 * k
                        + 1] == ramp_entry(warm, idx as int).1 && rgb@[4 * k + 2] == ramp_entry(
                        warm,
                        idx as int,
                    ).2 && rgb@[4 * k + 3] == ramp_entry(warm, idx as int).3);
                }
            }
        }
        k += 1;
    }
    proof {
        assert forall|i: int, j: int| 0 <= i < wi && 0 <= j < hi implies #[trigger] pixel_matches(
            data,
            rgb@,
            ramp,
            warm,
            wi,
            i,
            j,
        ) by {
            assert(j * wi + i < hi * wi) by (nonlinear_arith)
                requires 0 <= i < wi, 0 <= j < hi,
            ;
        }
        assert(rgb@.len() == wi * hi * 4) by (nonlinear_arith)
            requires rgb@.len() == 4 * (hi * wi),
        ;
    }
    rgb
}

impl Simulation {
    /// The temperature field rendered through the cool-to-warm ramp: a
    /// row-major bitmap of four bytes per interior pixel, each pixel the
    /// ramp entry at an index the caller's ramp operator admits for that
    /// pixel's sample.
    pub fn get_temperature_rgb<F: Fn(u32) -> usize>(&self, ramp: F) -> (rgb: Vec<u8>)
        requires
            self.wf(),
            forall|v: u32| call_requires(ramp, (v,)),
            forall|v: u32, k: usize| call_ensures(ramp, (v,), k) ==> k <= 9,
        ensures
            rgb@.len() == self.width * self.height * 4,
            forall|i: int, j: int| 0 <= i < self.width && 0 <= j < self.height ==>
                #[trigger] pixel_matches(
                    self.temperature_bits(),
                    rgb@,
                    ramp,
                    true,
                    self.width as int,
                    i,
                    j,
                ),
    {
        render_field(&self.temperature, self.width, self.height, ramp, true)
    }

    /// The order-parameter field rendered through the blue-to-white ramp,
    /// in the same format as the temperature bitmap.
    pub fn get_phi_rgb<F: Fn(u32) -> usize>(&self, ramp: F) -> (rgb: Vec<u8>)
        requires
            self.wf(),
            forall|v: u32| call_requires(ramp, (v,)),
            forall|v: u32, k: usize| call_ensures(ramp, (v,), k) ==> k <= 9,
        ensures
            rgb@.len() == self.width * self.height * 4,
            forall|i: int, j: int| 0 <= i < self.width && 0 <= j < self.height ==>
                #[trigger] pixel_matches(
                    self.phi_bits(),
                    rgb@,
                    ramp,
                    false,
                    self.width as int,
                    i,
                    j,
                ),
    {
        render_field(&self.phi, self.width, self.height, ramp, false)
    }
}

} // verus!
