//! Potentials are convolutions, on a host whose transforms are Fourier transforms, where
//! arithmetic does not round.

use crate::flow::kernels::{CompiledParams, KernelComputer, Params};
use crate::flow::spectrum::{Fft2DPlanner, Transform};
use crate::flow::step::Config;
use crate::scalar::Real;
use vstd::prelude::*;

verus! {

use crate::complex::ctimes_of;
use crate::exact::{exact_as, lemma_rsum2_same, rsum2};
use crate::flow::inversion::{is_fourier, lemma_plane_spectrum};
use crate::flow::kernels::{kernel_at, kernel_shifted};
use crate::flow::spectrum::{plane_transformed, steady};
use crate::flow::step::{complex_fn, potential, product_fn};
use crate::mace::circle::val;
use crate::mace::convolution::{lemma_circled_real, lemma_square_circled, torus_circled};
use crate::mace::inverse::plane_vals;
use crate::mace::points::{lemma_pmul_comm, pmul, pt};
use crate::mace::spectrum::{
    backwards, lemma_plane_rows_back, lemma_spectrum_same, lemma_spectrum_scale,
    lemma_there_and_back, plane_spectrum, roots, spectra, spectrum, square_spectrum,
};
use crate::scalar::{count_of, functional, integer_of};

/// A plane whose spectrum is given is brought back, as often as it has points.
proof fn lemma_square_back(
    w: spec_fn(int) -> (real, real),
    y: spec_fn(int, int) -> (real, real),
    z: spec_fn(int, int) -> (real, real),
    n: nat,
    a: int,
    b: int,
)
    requires
        roots(w, n),
        0 <= a < n,
        0 <= b < n,
        forall|k: int, l: int|
            0 <= k < n && 0 <= l < n ==> #[trigger] y(k, l) == square_spectrum(w, z, n, k, l),
    ensures
        plane_spectrum(backwards(w), backwards(w), y, n, n, a, b) == pmul(
            pmul(z(a, b), pt(n as real)),
            pt(n as real),
        ),
{
    let bw = backwards(w);
    let c = pt(n as real);
    let column = |i: int| z(i, b);
    let down = spectra(w, column, n);
    let scaled = |k: int| pmul(down(k), c);
    let found = |k: int| spectrum(bw, |l: int| y(k, l), n, b);
    assert forall|k: int| 0 <= k < n implies #[trigger] found(k) == scaled(k) by {
        let line = |l: int| y(k, l);
        let given = |l: int| plane_spectrum(w, w, z, n, n, k, l);
        assert forall|l: int| 0 <= l < n implies #[trigger] line(l) == given(l) by {
            assert(y(k, l) == square_spectrum(w, z, n, k, l));
        }
        lemma_spectrum_same(bw, line, given, n, b);
        lemma_plane_rows_back(w, w, z, n, n, k, b);
    }
    lemma_spectrum_same(bw, found, scaled, n, a);
    lemma_spectrum_scale(bw, down, n, a, c);
    lemma_there_and_back(w, column, n, a);
}

/// The potential of a kernel is the convolution of the channel that the kernel reads with
/// the kernel, around the edges of the world: `y` is a kernel in space whose spectrum is the
/// given one.
pub proof fn law_potential_is_convolution<S: Real, T: Transform<S>>(
    t: &T,
    cfg: &Config<S>,
    p: &CompiledParams<S>,
    v: spec_fn(S) -> real,
    w: spec_fn(int) -> (real, real),
    a: spec_fn(int, int, int) -> S,
    y: spec_fn(int, int) -> real,
    i: int,
    j: int,
    k: int,
)
    requires
        exact_as(v),
        cfg.SX == cfg.SY,
        cfg.SX * cfg.SY <= usize::MAX,
        is_fourier(t, v, w, cfg.SX as nat),
        0 <= i < cfg.SX,
        0 <= j < cfg.SX,
        forall|r: int, s: int|
            0 <= r < cfg.SX && 0 <= s < cfg.SX ==> val(v, #[trigger] p.fK.at(r, s, k))
                == square_spectrum(w, |e: int, f: int| pt(y(e, f)), cfg.SX as nat, r, s),
    ensures
        v(potential(t, cfg, p, a, i, j, k)) == rsum2(
            |r: int, s: int|
                v(a(r, s, cfg.c0@[k] as int)) * y(
                    (i - r) % (cfg.SX as int),
                    (j - s) % (cfg.SX as int),
                ),
            cfg.SX as nat,
        ),
{
    let n = cfg.SX as nat;
    let m = n as int;
    let f = complex_fn(a, cfg.c0@[k] as int);
    let x = plane_vals(v, f);
    let yp = |e: int, f: int| pt(y(e, f));
    let z = torus_circled(x, yp, n);
    let product = product_fn(t, cfg, p, a, k);
    let got = plane_vals(v, product);
    assert(v(integer_of::<S>(0i64)) == 0real);
    assert forall|r: int, s: int| 0 <= r < n && 0 <= s < n implies #[trigger] got(r, s)
        == square_spectrum(w, z, n, r, s) by {
        lemma_plane_spectrum(t, v, w, w, false, f, n, n, r, s);
        lemma_square_circled(w, x, yp, n, r, s);
        let spec = plane_transformed(t, false, f, n, n)(r, s);
        lemma_pmul_comm(square_spectrum(w, x, n, r, s), square_spectrum(w, yp, n, r, s));
        assert(val(v, ctimes_of(p.fK.at(r, s, k), spec)) == pmul(
            val(v, p.fK.at(r, s, k)),
            val(v, spec),
        )) by {
            reveal(pmul);
        }
    }
    lemma_plane_spectrum(t, v, w, w, true, product, n, n, i, j);
    lemma_square_back(w, got, z, n, i, j);
    let back = plane_transformed(t, true, product, n, n)(i, j);
    let q = n as real;
    let zz = z(i, j);
    lemma_stretch(zz, q);
    lemma_stretch((zz.0 * q, zz.1 * q), q);
    let whole = (cfg.SX * cfg.SY) as usize;
    assert(v(count_of::<S>(whole)) == whole as real);
    assert(n * n > 0) by (nonlinear_arith)
        requires
            n > 0,
    ;
    lemma_shared(zz.0, n, whole as nat);
    lemma_circled_real(x, yp, n, i, j);
    lemma_rsum2_same(
        |r: int, s: int| x(r, s).0 * yp((i - r) % m, (j - s) % m).0,
        |r: int, s: int|
            v(a(r, s, cfg.c0@[k] as int)) * y(
                (i - r) % (cfg.SX as int),
                (j - s) % (cfg.SX as int),
            ),
        n,
    );
}

/// A product with a number of the real axis stretches.
proof fn lemma_stretch(z: (real, real), q: real)
    ensures
        pmul(z, pt(q)) == (z.0 * q, z.1 * q),
{
    reveal(pmul);
    assert(z.0 * 0real == 0real && z.1 * 0real == 0real) by (nonlinear_arith);
}

/// What was taken as often as a square has points is one of as many shares of itself.
proof fn lemma_shared(z: real, n: nat, whole: nat)
    requires
        n > 0,
        whole == n * n,
    ensures
        whole as real != 0real,
        ((z * n as real) * n as real) / (whole as real) == z,
{
    let q = n as real;
    let r = whole as real;
    assert(r == q * q) by (nonlinear_arith)
        requires
            whole == n * n,
            q == n as real,
            r == whole as real,
    ;
    assert(whole > 0) by (nonlinear_arith)
        requires
            n > 0,
            whole == n * n,
    ;
    assert((z * q) * q == z * r) by (nonlinear_arith)
        requires
            r == q * q,
    ;
    assert((z * r) / r == z) by (nonlinear_arith)
        requires
            r != 0real,
    ;
}

/// With the parameters that a kernel computer compiled, potentials are convolutions with the
/// kernels in space: what a cell holds counts for another as much as the kernel says at the
/// place that lies as far from its middle as the cells lie apart.
pub proof fn law_compiled_potentials_are_convolutions<S: Real, T: Transform<S>>(
    computer: &KernelComputer,
    params: &Params<S>,
    planner: &Fft2DPlanner<T>,
    compiled: CompiledParams<S>,
    cfg: &Config<S>,
    v: spec_fn(S) -> real,
    w: spec_fn(int) -> (real, real),
    a: spec_fn(int, int, int) -> S,
    i: int,
    j: int,
    k: int,
)
    requires
        functional::<S>(),
        steady(&planner.planner),
        call_ensures(KernelComputer::compute::<S, T>, (computer, params, planner), compiled),
        exact_as(v),
        cfg.SX == cfg.SY,
        computer.sx == cfg.SX,
        computer.sy == cfg.SY,
        computer.nb_k == cfg.nb_k,
        cfg.SX * cfg.SY <= usize::MAX,
        is_fourier(&planner.planner, v, w, cfg.SX as nat),
        0 <= i < cfg.SX,
        0 <= j < cfg.SX,
        0 <= k < cfg.nb_k,
    ensures
        ({
            let n = cfg.SX as int;
            v(potential(&planner.planner, cfg, &compiled, a, i, j, k)) == rsum2(
                |r: int, s: int|
                    v(a(r, s, cfg.c0@[k] as int)) * v(
                        kernel_at(
                            params,
                            n as nat,
                            n as nat,
                            ((i - r) % n - n / 2) % n,
                            ((j - s) % n - n / 2) % n,
                            k,
                        ),
                    ),
                n as nat,
            )
        }),
{
    let n = cfg.SX as int;
    let g = kernel_shifted(params, n as nat, n as nat, k);
    let y = |e: int, f: int|
        v(kernel_at(params, n as nat, n as nat, (e - n / 2) % n, (f - n / 2) % n, k));
    let yp = |e: int, f: int| pt(y(e, f));
    assert(v(integer_of::<S>(0i64)) == 0real);
    assert forall|r: int, s: int| 0 <= r < n && 0 <= s < n implies val(
        v,
        #[trigger] compiled.fK.at(r, s, k),
    ) == square_spectrum(w, yp, n as nat, r, s) by {
        assert(compiled.fK.has(r, s, k));
        lemma_plane_spectrum(
            &planner.planner,
            v,
            w,
            w,
            false,
            g,
            n as nat,
            n as nat,
            r,
            s,
        );
        let x = plane_vals(v, g);
        let xs = |e: int| spectrum(w, |f: int| x(e, f), n as nat, s);
        let ys = |e: int| spectrum(w, |f: int| yp(e, f), n as nat, s);
        assert forall|e: int| 0 <= e < n implies #[trigger] xs(e) == ys(e) by {
            lemma_spectrum_same(w, |f: int| x(e, f), |f: int| yp(e, f), n as nat, s);
        }
        lemma_spectrum_same(w, xs, ys, n as nat, r);
    }
    law_potential_is_convolution(&planner.planner, cfg, &compiled, v, w, a, y, i, j, k);
    lemma_rsum2_same(
        |r: int, s: int|
            v(a(r, s, cfg.c0@[k] as int)) * y(
                (i - r) % (cfg.SX as int),
                (j - s) % (cfg.SX as int),
            ),
        |r: int, s: int|
            v(a(r, s, cfg.c0@[k] as int)) * v(
                kernel_at(
                    params,
                    n as nat,
                    n as nat,
                    ((i - r) % n - n / 2) % n,
                    ((j - s) % n - n / 2) % n,
                    k,
                ),
            ),
        n as nat,
    );
}

} // verus!
