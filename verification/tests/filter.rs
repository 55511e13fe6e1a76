//! The filter in single precision.

use std::f32::consts::PI;
use std::io::Cursor;

use rand::rngs::StdRng;
use rand::{Rng, SeedableRng};

use svf::arithmetic::Arithmetic;
use svf::equations::{Damping, Mode};
use svf::filter::{EstimateSource, SVF};
use svf::newton::{jacobian, newton_estimates, Iterate, MAX_STEPS};
use svf::parameters::{FilterParameters, Knob, Panel};
use svf::pivotal::{clipper_pivot, tanh_pivot};
use svf::plugin::PluginCategory;

/// Single-precision floats, with a panel whose cutoff runs from 0 to 20000.
struct Single;

impl Arithmetic for Single {
    type Num = f32;

    fn decimal(mantissa: i32, places: u32) -> f32 {
        mantissa as f32 / 10f32.powi(places as i32)
    }
    fn pi() -> f32 {
        PI
    }
    fn plus(a: f32, b: f32) -> f32 {
        a + b
    }
    fn minus(a: f32, b: f32) -> f32 {
        a - b
    }
    fn times(a: f32, b: f32) -> f32 {
        a * b
    }
    fn over(a: f32, b: f32) -> f32 {
        a / b
    }
    fn negated(a: f32) -> f32 {
        -a
    }
    fn squared(a: f32) -> f32 {
        a.powi(2)
    }
    fn tan(a: f32) -> f32 {
        a.tan()
    }
    fn tanh(a: f32) -> f32 {
        a.tanh()
    }
    fn sinh(a: f32) -> f32 {
        a.sinh()
    }
    fn cosh(a: f32) -> f32 {
        a.cosh()
    }
    fn asinh(a: f32) -> f32 {
        a.asinh()
    }
    fn abs(a: f32) -> f32 {
        a.abs()
    }
    fn exceeds(a: f32, b: f32) -> bool {
        a > b
    }
    fn differs(a: f32, b: f32) -> bool {
        a != b
    }
    fn is_infinite(a: f32) -> bool {
        a.is_infinite()
    }
}

impl Panel for Single {
    fn default_parameters() -> FilterParameters<Single> {
        let mut params = FilterParameters {
            cutoff: 1000.,
            res: 2.,
            drive: 0.,
            mode: 0,
            g: 0.,
            sample_rate: 48000.,
        };
        params.update_g();
        params
    }
    fn knob_value(knob: Knob, normalized: f32) -> f32 {
        match knob {
            Knob::Cutoff => 20000. * normalized,
            Knob::Res => 2. * (1. - normalized),
            Knob::Drive => 14.8490 * normalized,
        }
    }
    fn knob_normalized(knob: Knob, value: f32) -> f32 {
        match knob {
            Knob::Cutoff => value / 20000.,
            Knob::Res => 1. - value / 2.,
            Knob::Drive => value / 14.8490,
        }
    }
    fn knob_display(knob: Knob, value: f32) -> String {
        match knob {
            Knob::Cutoff => format!("{:.0} Hz", value),
            Knob::Res => format!("{:.2}", value),
            Knob::Drive => format!("{:.1}", value),
        }
    }
    fn mode_value(normalized: f32) -> usize {
        (normalized * 5.) as usize
    }
    fn mode_normalized(mode: usize) -> f32 {
        mode as f32 / 5.
    }
    fn mode_display(mode: usize) -> String {
        format!("mode {}", mode)
    }
}

#[test]
fn save_filter_impulse() {
    let mut plugin: SVF<Single> = SVF::default();

    let spec = hound::WavSpec {
        channels: 1,
        sample_rate: 44100,
        bits_per_sample: 32,
        sample_format: hound::SampleFormat::Float,
    };
    let mut file = Cursor::new(Vec::new());
    let mut writer = hound::WavWriter::new(&mut file, spec).unwrap();
    let len = 100;
    let mut input_sample = 0.5;
    let mut samples = Vec::new();
    for _i in 0..len {
        let output_sample = plugin.tick_newton(input_sample);
        println!("out: {}", plugin.vout[0]);
        writer.write_sample(output_sample).unwrap();
        samples.push(output_sample);

        input_sample = 0.0;
    }
    writer.finalize().unwrap();

    file.set_position(0);
    let reader = hound::WavReader::new(file).unwrap();
    let read: Vec<f32> = reader.into_samples::<f32>().map(|s| s.unwrap()).collect();
    assert_eq!(read, samples);
    assert!(samples.iter().all(|s| s.is_finite()));
    assert!(samples[0] > 0.);
}

#[test]
fn newton_test() {
    let mut plugin: SVF<Single> = SVF::default();

    println!("g: {}", plugin.params.g);
    let len = 1;
    let mut input_sample = 0.;
    for _i in 0..len {
        plugin.tick_newton(input_sample);

        input_sample = 0.;
    }
}

#[test]
fn newton_test_sine() {
    let mut plugin: SVF<Single> = SVF::default();

    plugin.params.set_parameter(0, 1.);
    plugin.params.set_parameter(1, 1.);
    let len = 1000;
    let amplitude = 25.;
    for t in (0..len).map(|x| x as f32 / 48000.) {
        let _sample = plugin.tick_newton(amplitude * (t * 440.0 * 2.0 * PI).sin());
    }
}

#[test]
fn newton_test_noise() {
    let mut plugin: SVF<Single> = SVF::default();
    let mut rng = rand::thread_rng();
    plugin.params.sample_rate = 48000.;
    plugin.params.set_parameter(0, 1.);
    plugin.params.set_parameter(1, 1.);
    let len = 1000;
    let amplitude = 25.;
    for _t in (0..len).map(|x| x as f32 / 48000.) {
        let _sample = plugin.tick_newton(rng.gen_range(-amplitude..amplitude));
    }
}

#[test]
fn matrix_test() {
    let mut jacobian_inv: [[f32; 2]; 2] = [[1.; 2]; 2];

    jacobian_inv[0][0] = 1.;
    jacobian_inv[0][1] = 2.;
    jacobian_inv[1][0] = 3.;
    jacobian_inv[1][1] = 4.;

    println!("matrix: {:?}", jacobian_inv);

    println!("{:?}", jacobian_inv[0][0]);
    println!("{:?}", jacobian_inv[0][1]);
    println!("{:?}", jacobian_inv[1][0]);
    println!("{:?}", jacobian_inv[1][1]);

    let residue = [1., 2.];

    let minusboy = [
        jacobian_inv[0][0] * residue[0] + jacobian_inv[0][1] * residue[1],
        jacobian_inv[1][0] * residue[0] + jacobian_inv[1][1] * residue[1],
    ];
    println!("minusboy: {:?}", minusboy);
    assert_eq!(minusboy, [5., 11.]);
}

#[test]
fn dumbtest() {
    let a: f32 = 1. / 0.;
    println!("{}", -a / a);
    println!("{}", a);
    assert!((-a / a).is_nan());
    assert!(Single::is_infinite(a));
}

/// A filter with round numbers, so that nothing is rounded.
fn round_filter(mode: usize) -> SVF<Single> {
    let mut filter = SVF::with_parameters(FilterParameters {
        cutoff: 1000.,
        res: 2.,
        drive: 0.,
        mode,
        g: 1.,
        sample_rate: 48000.,
    });
    filter.s = [4., 2.];
    filter
}

#[test]
fn constants_are_the_nearest_floats() {
    assert_eq!(Single::decimal(1, 5), 0.00001);
    assert_eq!(Single::decimal(15, 1), 1.5);
    assert_eq!(Single::decimal(-1, 0), -1.);
    assert_eq!(Single::decimal(0, 0), 0.);
}

#[test]
fn linear_filter_in_each_mode() {
    let expected = [5., -1., 3., 4., -6., 6., 6.];
    for mode in 0..7 {
        let mut filter = round_filter(mode);
        assert_eq!(filter.run_svf_linear(10.), expected[mode]);
        assert_eq!(filter.vout, [3., 5.]);
        assert_eq!(filter.s, [4., 2.]);
    }
}

#[test]
fn linear_filter_solves_its_loop() {
    let mut filter = round_filter(0);
    filter.run_svf_linear(10.);
    let (g, k, x) = (filter.params.g, filter.params.res, 10.);
    let [v0, v1] = filter.vout;
    assert_eq!(v0, filter.s[0] + g * (x - k * v0 - v1));
    assert_eq!(v1, filter.s[1] + g * v0);
}

#[test]
fn modes_split_the_input() {
    let out = |mode| round_filter(mode).run_svf_linear(10.);
    assert_eq!(out(0) + out(5) + out(1), 10.);
    assert_eq!(out(3), out(0) + out(1));
    assert_eq!(out(4), out(1) - out(0));
    assert_eq!(out(3) + out(5), 10.);
}

#[test]
fn mode_numbers() {
    assert_eq!(Mode::from_index(0), Mode::Lowpass);
    assert_eq!(Mode::from_index(1), Mode::Highpass);
    assert_eq!(Mode::from_index(2), Mode::Bandpass);
    assert_eq!(Mode::from_index(3), Mode::Notch);
    assert_eq!(Mode::from_index(4), Mode::Peak);
    assert_eq!(Mode::from_index(5), Mode::NormalizedBandpass);
    assert_eq!(Mode::from_index(1000), Mode::NormalizedBandpass);
}

#[test]
fn states_advance_by_the_trapezoidal_rule() {
    let mut filter = round_filter(0);
    filter.vout = [3., 5.];
    filter.update_state();
    assert_eq!(filter.s, [2., 8.]);
    assert_eq!(filter.vout, [3., 5.]);
}

#[test]
fn estimates() {
    let mut filter = round_filter(0);
    filter.vout = [-1., -2.];
    assert_eq!(filter.get_estimate(0, EstimateSource::State, 10.), 4.);
    assert_eq!(filter.get_estimate(1, EstimateSource::State, 10.), 2.);
    assert_eq!(filter.get_estimate(0, EstimateSource::PreviousVout, 10.), -1.);
    assert_eq!(filter.get_estimate(1, EstimateSource::PreviousVout, 10.), -2.);
    assert_eq!(filter.vout, [-1., -2.]);
    assert_eq!(filter.get_estimate(0, EstimateSource::LinearVoutEstimate, 10.), 3.);
    assert_eq!(filter.vout, [3., 5.]);
    assert_eq!(filter.get_estimate(1, EstimateSource::LinearVoutEstimate, 10.), 5.);
    assert_eq!(filter.get_estimate(0, EstimateSource::LinearStateEstimate, 10.), 2.);
    assert_eq!(filter.get_estimate(1, EstimateSource::LinearStateEstimate, 10.), 8.);
    filter.update_state();
    assert_eq!(filter.s, [2., 8.]);
}

#[test]
fn integrators() {
    let mut filter = round_filter(0);
    assert_eq!(filter.run_svf(0.5, 0.5, 0.25), [4.125, 2.25]);
    assert_eq!(filter.s, [4., 2.]);
}

#[test]
fn pivotal_filter_at_rest() {
    let mut filter = round_filter(2);
    filter.s = [0., 0.];
    let x: f32 = 2.;
    let a0 = x.tanh() / x;
    let (g1, k) = (1. / a0, 2.);
    let g2 = 1. / (a0 * g1 * k - a0 * g1 + g1 + 1.);
    let g3 = 1. / (1. + a0 * g1 * g2);
    let u = a0 * x * g1 * g2 * g3;
    let out = filter.run_svf_pivotal(x);
    assert_eq!(out, u.asinh());
    assert_eq!(filter.vout, [u.asinh(), u.asinh()]);
    // The loop whose saturators are lines.
    assert!((u - a0 * (x - ((k - 1.) * u + u) - u)).abs() < 1e-6);
}

#[test]
fn pivotal_filter_without_input() {
    let mut filter = round_filter(0);
    filter.s = [0., 0.];
    assert_eq!(filter.run_svf_pivotal(0.), 0.);
    assert_eq!(filter.vout, [0., 0.]);
}

#[test]
fn pivots_meet_the_saturators() {
    for e in [-3f32, -0.5, 0.25, 1., 20.] {
        assert!((tanh_pivot::<Single>(e) * e - e.tanh()).abs() < 1e-6);
        assert!((clipper_pivot::<Single>(e) * e - 4. * (e / 4.).asinh()).abs() < 2e-6);
    }
    assert_eq!(tanh_pivot::<Single>(0.), 1.);
    assert_eq!(clipper_pivot::<Single>(0.), 1.);
    assert_eq!(tanh_pivot::<Single>(1.), 1f32.tanh());
    assert_eq!(clipper_pivot::<Single>(4.), 1f32.asinh());
}

fn iterate_at(v_est: [f32; 2], fb_line: f32, residue: [f32; 2]) -> Iterate<f32> {
    Iterate {
        v_est,
        sinh: v_est[0].sinh(),
        tanh: v_est[0].tanh(),
        fb_line,
        residue,
    }
}

#[test]
fn jacobian_holds_the_slopes() {
    let it = iterate_at([0.5, -0.25], 0.5, [0.125, -0.5]);
    let (g, k) = (0.75f32, 1.5f32);
    let cosh = 0.5f32.sinh() / 0.5f32.tanh();
    let j = jacobian::<Single>(Damping::Full, g, k, &it);
    assert!((j.j00 - (-1. - g * (k - 1. + cosh) * 0.75)).abs() < 1e-6);
    assert!((j.j01 - (-g * 0.75)).abs() < 1e-6);
    assert_eq!(j.j10, g * (1. - it.tanh * it.tanh));

    let j = jacobian::<Single>(Damping::Less, g, k, &it);
    let slope = (0.5f32 / 1.5).cosh();
    assert!((j.j00 - (-1. - g * (k - 1. + slope) * 0.75)).abs() < 1e-6);

    let it = iterate_at([0.5, -0.25], 1., [0.125, -0.5]);
    let j = jacobian::<Single>(Damping::Full, g, k, &it);
    assert_eq!((j.j00, j.j01), (-1., 0.));
}

#[test]
fn newton_step_removes_the_linear_residue() {
    let it = iterate_at([0.5, -0.25], 0.5, [0.125, -0.5]);
    let j = jacobian::<Single>(Damping::Full, 0.75, 1.5, &it);
    let v_est = newton_estimates::<Single>(&it, &j);
    let d = [v_est[0] - it.v_est[0], v_est[1] - it.v_est[1]];
    assert!((it.residue[0] + j.j00 * d[0] + j.j01 * d[1]).abs() < 1e-6);
    assert!((it.residue[1] + j.j10 * d[0] - d[1]).abs() < 1e-6);
}

#[test]
fn newton_step_keeps_a_solution() {
    let it = iterate_at([0.5, -0.25], 0.5, [0., 0.]);
    let j = jacobian::<Single>(Damping::Full, 0.75, 1.5, &it);
    let v_est = newton_estimates::<Single>(&it, &j);
    assert!((v_est[0] - 0.5).abs() < 1e-6);
    assert!((v_est[1] + 0.25).abs() < 1e-6);
}

#[test]
fn newton_filter_solves_its_loop() {
    let mut filter: SVF<Single> = SVF::new();
    for n in 0..200 {
        let x = 3. * (n as f32 * 0.1).sin();
        let s = filter.s;
        filter.run_svf_newton(x);
        assert_eq!(filter.s, s);
        let (g, k) = (filter.params.g, filter.params.res);
        let [v0, v1] = filter.vout;
        let fb_line = (x - ((k - 1.) * v0 + v0.sinh()) - v1).tanh();
        assert!((s[0] + g * fb_line - v0).abs() < 2e-5);
        assert!((s[1] + g * v0.tanh() - v1).abs() < 2e-5);
        filter.update_state();
    }
}

#[test]
fn less_antisaturated_filter_solves_its_loop() {
    let mut filter: SVF<Single> = SVF::new();
    for n in 0..200 {
        let x = 3. * (n as f32 * 0.1).sin() + 0.5;
        let s = filter.s;
        filter.run_svf_newton_less_antisat(x);
        let (g, k) = (filter.params.g, filter.params.res);
        let [v0, v1] = filter.vout;
        let fb_line = (x - ((k - 1.) * v0 + 2. * (v0 / 2.).sinh()) - v1).tanh();
        assert!((s[0] + g * fb_line - v0).abs() < 2e-5);
        assert!((s[1] + g * v0.tanh() - v1).abs() < 2e-5);
        filter.update_state();
    }
}

#[test]
fn a_saturated_feedback_line_is_survived() {
    // The feedback line is at one exactly, so that its inverse slope is infinite.
    let mut filter = round_filter(0);
    filter.s = [0., 0.];
    let out = filter.run_svf_newton(1000.);
    assert!(out.is_finite());
}

#[test]
fn the_number_of_steps_is_bounded() {
    assert_eq!(MAX_STEPS, 11);
    // The residues stay beyond measure here, whatever the estimates.
    let mut filter = round_filter(0);
    filter.s = [f32::NAN, f32::INFINITY];
    filter.run_svf_newton(1.);
    filter.run_svf_newton_less_antisat(1.);
}

/// The filter in plain floats, without the library.
struct Plain {
    g: f32,
    k: f32,
    drive: f32,
    mode: usize,
    vout: [f32; 2],
    s: [f32; 2],
}

impl Plain {
    fn of(filter: &SVF<Single>) -> Plain {
        Plain {
            g: filter.params.g,
            k: filter.params.res,
            drive: filter.params.drive,
            mode: filter.params.mode,
            vout: filter.vout,
            s: filter.s,
        }
    }

    fn output(&self, x: f32) -> f32 {
        match self.mode {
            0 => self.vout[1],
            1 => x - self.k * self.vout[0] - self.vout[1],
            2 => self.vout[0],
            3 => x - self.k * self.vout[0],
            4 => x - 2. * self.vout[1] - self.k * self.vout[0],
            _ => self.k * self.vout[0],
        }
    }

    fn linear(&mut self, x: f32) -> f32 {
        let g1 = 1. / (1. + self.g * (self.g + self.k));
        let g2 = self.g * g1;
        self.vout[0] = g1 * self.s[0] + g2 * (x - self.s[1]);
        self.vout[1] = self.s[1] + self.g * self.vout[0];
        self.output(x)
    }

    fn pivotal(&mut self, x: f32) -> f32 {
        let (g, k) = (self.g, self.k);
        let mut a = [1.; 3];
        let e = self.s[0];
        if e != 0. {
            a[2] = (4. * (e / 4.).asinh()) / e;
        }
        let rest = [x - (e * a[2] + (k - 1.) * e) - self.s[1], self.s[0]];
        for n in 0..rest.len() {
            if rest[n] != 0. {
                a[n] = rest[n].tanh() / rest[n];
            }
        }
        let g1 = 1. / (g * a[0]);
        let g2 = 1. / (a[0] * a[2] * g * g1 * k - a[0] * a[2] * g * g1 + a[2] * g1 + 1.);
        let g3 = 1. / (1. + g.powi(2) * a[0] * a[1] * g1 * g2 * a[2]);
        let u = (g * a[0] * x - g * a[0] * self.s[1] + self.s[0]) * g1 * g2 * g3;
        self.vout[0] = u.asinh();
        self.vout[1] = g * a[1] * self.vout[0] + self.s[1];
        self.output(x)
    }

    fn newton(&mut self, x: f32, less: bool) -> f32 {
        let (g, k) = (self.g, self.k);
        self.linear(x);
        let mut v = self.vout;
        let mut sinh = if less { 1.5 * (v[0] / 1.5).sinh() } else { v[0].sinh() };
        let mut tanh = v[0].tanh();
        let mut fb = (x - ((k - 1.) * v[0] + sinh) - v[1]).tanh();
        if less {
            self.pivotal(x);
            v = self.vout;
        }
        let mut r = [g * fb + self.s[0] - v[0], g * tanh + self.s[1] - v[1]];
        let mut n = 0;
        while r[0].abs() > 0.00001 || r[1].abs() > 0.00001 {
            if n > 10 {
                break;
            }
            let big = 1. / (1. - fb * fb);
            let mut j = [[-1.; 2]; 2];
            if big.is_infinite() {
                j[0] = [-1., 0.];
            } else {
                let slope = if less {
                    (v[0] / 1.5).cosh()
                } else if tanh != 0. {
                    sinh / tanh
                } else {
                    1.
                };
                j[0][0] = (-big - (g * (k - 1. + slope))) / big;
                j[0][1] = -(g / big);
            }
            j[1][0] = if less { g * (1. - tanh.powi(2)) } else { g * (1. - tanh * tanh) };
            let d = j[0][1] * j[1][0] + j[0][0];
            v[0] = (j[0][1] * j[1][0] * v[0] + j[0][0] * v[0] - j[0][1] * r[1] - r[0]) / d;
            v[1] = (j[0][1] * j[1][0] * v[1] + j[0][0] * r[1] + j[0][0] * v[1] - j[1][0] * r[0]) / d;
            sinh = if less { 2. * (v[0] / 2.).sinh() } else { v[0].sinh() };
            tanh = v[0].tanh();
            fb = (x - ((k - 1.) * v[0] + sinh) - v[1]).tanh();
            r = [g * fb + self.s[0] - v[0], g * tanh + self.s[1] - v[1]];
            n += 1;
        }
        self.vout = v;
        self.output(x)
    }

    fn advance(&mut self) {
        self.s[0] = 2. * self.vout[0] - self.s[0];
        self.s[1] = 2. * self.vout[1] - self.s[1];
    }
}

fn same(a: f32, b: f32) -> bool {
    a == b || (a.is_nan() && b.is_nan())
}

/// Runs a solver of the library beside the same solver in plain floats.
fn beside(
    solver: fn(&mut SVF<Single>, f32) -> f32,
    plain_solver: fn(&mut Plain, f32) -> f32,
    amplitude: f32,
) {
    let mut rng = StdRng::seed_from_u64(7);
    for mode in 0..6 {
        let mut filter: SVF<Single> = SVF::new();
        filter.params.mode = mode;
        filter.params.set_parameter(0, rng.gen_range(0.01..1.0));
        filter.params.set_parameter(1, rng.gen_range(0.0..1.0));
        let mut plain = Plain::of(&filter);
        for _ in 0..500 {
            let x = rng.gen_range(-amplitude..amplitude);
            let out = solver(&mut filter, x);
            let expected = plain_solver(&mut plain, x);
            assert!(same(out, expected), "{} {}", out, expected);
            assert!(same(filter.vout[0], plain.vout[0]) && same(filter.vout[1], plain.vout[1]));
            filter.update_state();
            plain.advance();
            assert!(same(filter.s[0], plain.s[0]) && same(filter.s[1], plain.s[1]));
        }
    }
}

#[test]
fn linear_filter_beside_plain_floats() {
    beside(|f, x| f.run_svf_linear(x), |p, x| p.linear(x), 25.);
}

#[test]
fn pivotal_filter_beside_plain_floats() {
    beside(|f, x| f.run_svf_pivotal(x), |p, x| p.pivotal(x), 2.);
    beside(|f, x| f.run_svf_pivotal(x), |p, x| p.pivotal(x), 25.);
}

#[test]
fn newton_filter_beside_plain_floats() {
    beside(|f, x| f.run_svf_newton(x), |p, x| p.newton(x, false), 2.);
    beside(|f, x| f.run_svf_newton(x), |p, x| p.newton(x, false), 25.);
}

#[test]
fn less_antisaturated_filter_beside_plain_floats() {
    beside(|f, x| f.run_svf_newton_less_antisat(x), |p, x| p.newton(x, true), 2.);
    beside(|f, x| f.run_svf_newton_less_antisat(x), |p, x| p.newton(x, true), 25.);
}

#[test]
fn ticks_drive_the_input_and_advance_the_states() {
    let mut filter = round_filter(0);
    filter.params.drive = 3.;
    let mut plain = Plain::of(&filter);
    let out = filter.tick_newton(0.25);
    assert_eq!(out, plain.newton(0.25 * (plain.drive + 1.), false));
    plain.advance();
    assert_eq!(filter.s, plain.s);

    let out = filter.tick_pivotal(-0.5);
    assert_eq!(out, plain.pivotal(-0.5 * (plain.drive + 1.)));
    plain.advance();
    assert_eq!(filter.s, plain.s);
}

#[test]
fn no_drive_leaves_the_input() {
    let mut driven = round_filter(1);
    driven.params.drive = 0.;
    let mut bare = round_filter(1);
    let out = driven.tick_newton(0.3);
    assert_eq!(out, bare.run_svf_newton(0.3));
}

#[test]
fn silence_stays_silence() {
    for mode in 0..6 {
        let mut filter: SVF<Single> = SVF::new();
        filter.params.mode = mode;
        filter.vout = [3., -2.];
        let mut output = [1.; 64];
        filter.process(&[0.; 64], &mut output);
        assert_eq!(output, [0.; 64]);
        assert_eq!(filter.s, [0., 0.]);
        assert_eq!(filter.vout, [0., 0.]);
    }
    for solve in SOLVERS {
        let mut filter: SVF<Single> = SVF::new();
        filter.vout = [3., -2.];
        assert_eq!(solve(&mut filter, 0.), 0.);
        assert_eq!(filter.vout, [0., 0.]);
    }
}

#[test]
fn the_same_input_gives_the_same_output() {
    let input: Vec<f32> = (0..64).map(|n| (n as f32).sin() * 5.).collect();
    let run = |tick: fn(&mut SVF<Single>, f32) -> f32| {
        let mut filter = round_filter(1);
        let output: Vec<f32> = input.iter().map(|x| tick(&mut filter, *x)).collect();
        (output, filter.s, filter.vout)
    };
    assert_eq!(run(|f, x| f.tick_newton(x)), run(|f, x| f.tick_newton(x)));
    assert_eq!(run(|f, x| f.tick_pivotal(x)), run(|f, x| f.tick_pivotal(x)));
    assert_eq!(run(|f, x| f.run_svf_linear(x)), run(|f, x| f.run_svf_linear(x)));
    assert_eq!(
        run(|f, x| f.run_svf_newton_less_antisat(x)),
        run(|f, x| f.run_svf_newton_less_antisat(x))
    );
}

#[test]
fn filtering_keeps_the_settings() {
    let mut filter = round_filter(3);
    filter.tick_newton(2.);
    filter.tick_pivotal(2.);
    assert_eq!(filter.params.cutoff, 1000.);
    assert_eq!(filter.params.res, 2.);
    assert_eq!(filter.params.drive, 0.);
    assert_eq!(filter.params.mode, 3);
    assert_eq!(filter.params.g, 1.);
    assert_eq!(filter.params.sample_rate, 48000.);
}

/// The four ways to solve the filter.
const SOLVERS: [fn(&mut SVF<Single>, f32) -> f32; 4] = [
    |f, x| f.run_svf_linear(x),
    |f, x| f.run_svf_pivotal(x),
    |f, x| f.run_svf_newton(x),
    |f, x| f.run_svf_newton_less_antisat(x),
];

#[test]
fn previous_outputs_do_not_matter() {
    for solve in SOLVERS {
        let mut filter = round_filter(0);
        let mut other = round_filter(0);
        other.vout = [100., -100.];
        assert_eq!(solve(&mut filter, 1.5), solve(&mut other, 1.5));
        assert_eq!(filter.vout, other.vout);
    }
}

#[test]
fn mode_drive_cutoff_and_sample_rate_do_not_reach_the_outputs() {
    for solve in SOLVERS {
        for mode in 0..7 {
            let mut filter = round_filter(0);
            let mut other = round_filter(mode);
            other.params.drive = 7.;
            other.params.cutoff = 3.;
            other.params.sample_rate = 5.;
            solve(&mut filter, 1.5);
            solve(&mut other, 1.5);
            assert_eq!(filter.vout, other.vout);
            assert_eq!(other.s, [4., 2.]);
        }
    }
}

#[test]
fn filters_in_all_modes_split_the_input() {
    for solve in SOLVERS {
        let out: Vec<f32> = (0..6).map(|mode| solve(&mut round_filter(mode), 1.5)).collect();
        assert!((out[1] + 2. * out[2] + out[0] - 1.5).abs() < 1e-5);
        assert!((out[3] - (out[1] + out[0])).abs() < 1e-5);
        assert!((out[4] - (out[1] - out[0])).abs() < 1e-5);
        assert_eq!(out[5], 2. * out[2]);
        assert_eq!(solve(&mut round_filter(100), 1.5), out[5]);
    }
}

#[test]
fn solving_again_changes_nothing() {
    for solve in SOLVERS {
        let mut filter = round_filter(4);
        let out = solve(&mut filter, 1.5);
        let vout = filter.vout;
        assert_eq!(solve(&mut filter, 1.5), out);
        assert_eq!(filter.vout, vout);
        assert_eq!(filter.s, [4., 2.]);
    }
}

#[test]
fn the_drive_is_an_input_gain() {
    let ticks: [fn(&mut SVF<Single>, f32) -> f32; 2] =
        [|f, x| f.tick_pivotal(x), |f, x| f.tick_newton(x)];
    for tick in ticks {
        let mut driven = round_filter(1);
        driven.params.drive = 3.;
        let mut plain = round_filter(1);
        assert_eq!(tick(&mut driven, 0.25), tick(&mut plain, 1.));
        assert_eq!(driven.vout, plain.vout);
        assert_eq!(driven.s, plain.s);
    }
}

#[test]
fn the_linear_estimate_foresees_the_state() {
    let mut advanced = round_filter(0);
    advanced.run_svf_linear(10.);
    advanced.update_state();
    for n in 0..2 {
        let mut asked = round_filter(0);
        let estimate = asked.get_estimate(n, EstimateSource::LinearStateEstimate, 10.);
        assert_eq!(estimate, advanced.s[n]);
        assert_eq!(asked.s, [4., 2.]);
        assert_eq!(asked.vout, advanced.vout);
    }
}

#[test]
fn advancing_twice_returns() {
    let mut filter = round_filter(0);
    filter.vout = [3., 5.];
    filter.update_state();
    filter.update_state();
    assert_eq!(filter.s, [4., 2.]);
}

#[test]
fn linear_filters_superpose() {
    for mode in 0..6 {
        let mut one = round_filter(mode);
        one.s = [1., -2.];
        let mut two = round_filter(mode);
        two.s = [3., 4.];
        let mut both = round_filter(mode);
        both.s = [4., 2.];
        let out = one.run_svf_linear(3.) + two.run_svf_linear(-5.);
        assert_eq!(both.run_svf_linear(-2.), out);
        assert_eq!(both.vout[0], one.vout[0] + two.vout[0]);
        assert_eq!(both.vout[1], one.vout[1] + two.vout[1]);
    }
}

#[test]
fn linear_outputs_grow_with_the_input() {
    let mut last = [f32::NEG_INFINITY; 2];
    for n in -20..20 {
        let mut filter = round_filter(0);
        filter.run_svf_linear(n as f32);
        assert!(filter.vout[0] >= last[0] && filter.vout[1] >= last[1]);
        last = filter.vout;
    }
}

#[test]
fn linear_outputs_grow_though_rounded() {
    let mut rng = StdRng::seed_from_u64(5);
    for _ in 0..200 {
        let mut filter = round_filter(0);
        filter.params.g = rng.gen_range(0.0..3.0);
        filter.params.res = rng.gen_range(0.0..3.0);
        filter.s = [rng.gen_range(-2.0..2.0), rng.gen_range(-2.0..2.0)];
        let mut x: f32 = rng.gen_range(0.5..2.0);
        filter.run_svf_linear(x);
        for _ in 0..20 {
            let last = filter.vout;
            x = f32::from_bits(x.to_bits() + 1);
            filter.run_svf_linear(x);
            assert!(filter.vout[0] >= last[0] && filter.vout[1] >= last[1]);
        }
    }
}

#[test]
fn damping_takes_the_energy() {
    let mut filter = round_filter(0);
    filter.run_svf_linear(0.);
    let v0 = filter.vout[0];
    filter.update_state();
    let [s0, s1] = filter.s;
    assert_eq!(s0 * s0 + s1 * s1, 16. + 4. - 4. * 1. * 2. * v0 * v0);
}

#[test]
fn the_estimate_may_be_zero() {
    // Both linear outputs are zero, where the quotient of sine and tangent is none.
    let mut filter = round_filter(2);
    filter.s = [1., 0.];
    filter.run_svf_linear(-1.);
    assert_eq!(filter.vout, [0., 0.]);
    let out = filter.run_svf_newton(-1.);
    let [v0, v1] = filter.vout;
    assert_eq!(out, v0);
    assert!((v0 - 0.12).abs() < 0.01);
    assert!((1. + (-1. - (v0 + v0.sinh()) - v1).tanh() - v0).abs() <= 2e-5);
    assert!((v0.tanh() - v1).abs() <= 2e-5);
    filter.update_state();
    assert!(filter.s.iter().all(|s| s.is_finite()));

    let j = jacobian::<Single>(Damping::Full, 1., 2., &iterate_at([0., 0.], 0.5, [0.25, 0.]));
    assert!((j.j00 - (-1. - 2. * 0.75)).abs() < 1e-6);
    assert!((j.j01 + 0.75).abs() < 1e-6);
    assert_eq!(j.j10, 1.);
}

#[test]
fn newton_steps_are_solvable() {
    for damping in [Damping::Full, Damping::Less] {
        for v0 in [-3., -0.5, 0., 0.5, 3.] {
            for fb_line in [-0.9, 0., 0.9] {
                let it = iterate_at([v0, 1.], fb_line, [0.5, 0.5]);
                let j = jacobian::<Single>(damping, 0.75, 1.5, &it);
                assert!(j.j00 <= -1. && j.j01 <= 0. && j.j10 >= 0.);
                assert!(j.j01 * j.j10 + j.j00 <= j.j00);
            }
        }
    }
}

#[test]
fn saturation_holds_the_outputs() {
    for x in [-1000., -10., 0.5, 10., 1000.] {
        let mut filter: SVF<Single> = SVF::new();
        filter.s = [0.25, -0.5];
        filter.run_svf_newton(x);
        for n in 0..2 {
            assert!((filter.vout[n] - filter.s[n]).abs() <= filter.params.g + 2e-5);
        }
    }
}

#[test]
fn saturation_holds_the_outputs_at_any_gain() {
    for g in [-0.3f32, -0.1, 0.1, 0.3] {
        for x in [-2., -0.5, 0.75, 2.] {
            let mut filter = round_filter(0);
            filter.params.g = g;
            filter.s = [0.25, -0.5];
            filter.run_svf_newton(x);
            for n in 0..2 {
                assert!((filter.vout[n] - filter.s[n]).abs() <= g.abs() + 2e-5);
            }
            filter.run_svf_newton_less_antisat(x);
            for n in 0..2 {
                assert!((filter.vout[n] - filter.s[n]).abs() <= g.abs() + 2e-5);
            }
        }
    }
}

#[test]
fn the_damping_signal_is_the_sine_of_the_output() {
    for x in [-2., -0.25, 0.5, 3.] {
        let mut filter = round_filter(0);
        filter.params.g = 0.5;
        filter.params.res = 1.25;
        filter.s = [0.75, -0.25];
        filter.run_svf_pivotal(x);
        let (g, k, [s0, s1]) = (filter.params.g, filter.params.res, filter.s);
        let a2 = clipper_pivot::<Single>(s0);
        let a0 = tanh_pivot::<Single>(x - (s0 * a2 + (k - 1.) * s0) - s1);
        let a1 = tanh_pivot::<Single>(s0);
        let u = filter.vout[0].sinh();
        let d = a2 * u;
        let line = x - ((k - 1.) * d + u) - (s1 + g * a1 * d);
        assert!((d - (s0 + g * a0 * line)).abs() < 1e-5);
        assert!((filter.vout[1] - (s1 + g * a1 * filter.vout[0])).abs() < 1e-6);
    }
}

#[test]
fn the_damping_does_not_fade() {
    for x in [-30., -1., 1., 30.] {
        let mut filter = round_filter(0);
        filter.s = [x, 0.];
        filter.run_svf_newton(x);
        let v0 = filter.vout[0];
        let k = filter.params.res;
        assert!((((k - 1.) * v0 + v0.sinh()) / v0) > k);
        filter.run_svf_newton_less_antisat(x);
        let v0 = filter.vout[0];
        assert!((((k - 1.) * v0 + 2. * (v0 / 2.).sinh()) / v0) > k);
    }
}

#[test]
fn the_filter_has_no_bias() {
    for solve in SOLVERS {
        for mode in 0..6 {
            let mut filter = round_filter(mode);
            filter.s = [0.75, -0.5];
            let mut mirror = round_filter(mode);
            mirror.s = [-0.75, 0.5];
            assert_eq!(solve(&mut mirror, -1.5), -solve(&mut filter, 1.5));
            assert_eq!(mirror.vout, [-filter.vout[0], -filter.vout[1]]);
        }
    }
}

#[test]
fn the_filter_has_no_bias_at_any_gain_and_damping() {
    for solve in SOLVERS {
        for (g, k) in [(-0.25, 0.5), (0.25, -0.5), (-0.25, -0.5)] {
            let mut filter = round_filter(0);
            filter.params.g = g;
            filter.params.res = k;
            filter.s = [0.75, -0.5];
            let mut mirror = round_filter(0);
            mirror.params.g = g;
            mirror.params.res = k;
            mirror.s = [-0.75, 0.5];
            assert_eq!(solve(&mut mirror, -1.5), -solve(&mut filter, 1.5));
            assert_eq!(mirror.vout, [-filter.vout[0], -filter.vout[1]]);
        }
    }
}

#[test]
fn small_signals_are_filtered_linearly() {
    for (x, s0, s1) in [(0.01, -0.01, 0.01), (-0.01, 0.01, 0.01), (0.01, 0.01, -0.01)] {
        let small = || {
            let mut filter = round_filter(0);
            filter.s = [s0, s1];
            filter
        };
        let mut linear = small();
        linear.run_svf_linear(x);
        let mut newton = small();
        newton.run_svf_newton(x);
        let mut pivotal = small();
        pivotal.run_svf_pivotal(x);
        for n in 0..2 {
            assert!((newton.vout[n] - linear.vout[n]).abs() <= 0.001);
            assert!((pivotal.vout[n] - linear.vout[n]).abs() <= 0.0001);
        }
    }
}

#[test]
fn small_signals_are_filtered_linearly_though_rounded() {
    let mut rng = StdRng::seed_from_u64(6);
    for n in 0..500 {
        let x: f32 = rng.gen_range(-0.01..0.01);
        let s0: f32 = match n % 4 {
            0 => 0.,
            1 => f32::MIN_POSITIVE,
            _ => rng.gen_range(-0.01..0.01),
        };
        let s1: f32 = rng.gen_range(-0.01..0.01);
        let g: f32 = if n % 3 == 0 { 0.0001 } else { rng.gen_range(0.0001..1.0) };
        let k: f32 = rng.gen_range(0.0..2.0);
        let small = || {
            let mut filter = round_filter(0);
            filter.params.g = g;
            filter.params.res = k;
            filter.s = [s0, s1];
            filter
        };
        let mut linear = small();
        linear.run_svf_linear(x);
        let mut newton = small();
        newton.run_svf_newton(x);
        let mut pivotal = small();
        pivotal.run_svf_pivotal(x);
        for n in 0..2 {
            assert!((newton.vout[n] - linear.vout[n]).abs() <= 0.001);
            assert!((pivotal.vout[n] - linear.vout[n]).abs() <= 0.0001);
        }
    }
}

#[test]
fn a_held_input_is_held() {
    for solve in SOLVERS {
        let mut filter = round_filter(0);
        filter.s = [0., 0.75];
        assert_eq!(solve(&mut filter, 0.75), 0.75);
        assert_eq!(filter.vout, [0., 0.75]);
        filter.update_state();
        assert_eq!(filter.s, [0., 0.75]);
    }
}

#[test]
fn streams_join() {
    let input: Vec<f32> = (0..256).map(|n| (n as f32 * 0.3).sin() * 4.).collect();
    let mut whole: SVF<Single> = SVF::new();
    let mut output = vec![0.; 256];
    whole.process(&input, &mut output);

    let mut parts: SVF<Single> = SVF::new();
    let mut first = vec![0.; 100];
    let mut second = vec![0.; 156];
    parts.process(&input[..100], &mut first);
    parts.process(&input[100..], &mut second);
    first.extend(second);
    assert_eq!(first, output);
    assert_eq!(parts.s, whole.s);

    let mut ticks: SVF<Single> = SVF::new();
    let by_tick: Vec<f32> = input.iter().map(|x| ticks.tick_newton(*x)).collect();
    assert_eq!(by_tick, output);
}

#[test]
fn buffers_of_different_lengths() {
    let mut filter: SVF<Single> = SVF::new();
    let mut output = [9.; 4];
    filter.process(&[0., 0.], &mut output);
    assert_eq!(output, [0., 0., 9., 9.]);
    let mut output = [9.; 2];
    filter.process(&[0., 0., 1., 1.], &mut output);
    assert_eq!(output, [0., 0.]);
    assert_eq!(filter.s, [0., 0.]);
    filter.process(&[], &mut output);
    assert_eq!(output, [0., 0.]);
}

#[test]
fn a_new_filter_is_at_rest() {
    let filter: SVF<Single> = SVF::new();
    assert_eq!(filter.vout, [0., 0.]);
    assert_eq!(filter.s, [0., 0.]);
    assert_eq!(filter.params.cutoff, 1000.);
    let other: SVF<Single> = SVF::default();
    assert_eq!(other.vout, [0., 0.]);
    assert_eq!(other.s, [0., 0.]);
    assert_eq!(other.params.g, filter.params.g);
}

#[test]
fn the_gain_follows_cutoff_and_sample_rate() {
    let mut params = Single::default_parameters();
    assert_eq!(params.g, (PI * 1000. / 48000f32).tan());
    params.set_parameter(0, 0.25);
    assert_eq!(params.cutoff, 5000.);
    assert_eq!(params.g, (PI * 5000. / 48000f32).tan());
    params.set_sample_rate(96000.);
    assert_eq!(params.sample_rate, 96000.);
    assert_eq!(params.g, (PI * 5000. / 96000f32).tan());

    let mut filter: SVF<Single> = SVF::new();
    filter.s = [1., 2.];
    filter.set_sample_rate(44100.);
    assert_eq!(filter.params.g, (PI * 1000. / 44100f32).tan());
    assert_eq!(filter.s, [1., 2.]);

    params.cutoff = 100.;
    params.update_g();
    assert_eq!(params.g, (PI * 100. / 96000f32).tan());
}

#[test]
fn parameters_by_number() {
    let mut params = Single::default_parameters();
    params.set_parameter(1, 0.5);
    params.set_parameter(2, 1.);
    params.set_parameter(3, 0.4);
    assert_eq!(params.res, 1.);
    assert_eq!(params.drive, 14.849);
    assert_eq!(params.mode, 2);
    assert_eq!(params.cutoff, 1000.);

    assert_eq!(params.get_parameter(0), 0.05);
    assert_eq!(params.get_parameter(1), 0.5);
    assert_eq!(params.get_parameter(2), 1.);
    assert_eq!(params.get_parameter(3), 0.4);
    assert_eq!(params.get_parameter(4), 0.);
    assert_eq!(params.get_parameter(-1), 0.);

    params.set_parameter(4, 1.);
    params.set_parameter(-1, 1.);
    assert_eq!(params.cutoff, 1000.);
    assert_eq!(params.res, 1.);
    assert_eq!(params.drive, 14.849);
    assert_eq!(params.mode, 2);
}

/// The parameters as plain numbers.
fn numbers(params: &FilterParameters<Single>) -> (f32, f32, f32, usize, f32, f32) {
    (
        params.cutoff,
        params.res,
        params.drive,
        params.mode,
        params.g,
        params.sample_rate,
    )
}

#[test]
fn parameters_move_alone() {
    for index in 0..4 {
        let mut params = Single::default_parameters();
        let before: Vec<f32> = (0..4).map(|n| params.get_parameter(n)).collect();
        let (_, _, _, _, g, sample_rate) = numbers(&params);
        params.set_parameter(index, 0.8);
        for other in (0..4).filter(|n| *n != index) {
            assert_eq!(params.get_parameter(other), before[other as usize]);
        }
        assert_eq!(params.sample_rate, sample_rate);
        assert_eq!(params.g != g, index == 0);
    }
}

/// Whether parameters are the same, up to the last digit of a tangent that was computed ahead.
fn alike(one: &FilterParameters<Single>, two: &FilterParameters<Single>) -> bool {
    let (a, b) = (numbers(one), numbers(two));
    (a.0, a.1, a.2, a.3, a.5) == (b.0, b.1, b.2, b.3, b.5) && (a.4 - b.4).abs() < 1e-6
}

#[test]
fn the_order_of_settings_does_not_matter() {
    for index in 0..5 {
        let mut one = Single::default_parameters();
        one.set_parameter(index, 0.8);
        let mut again = Single::default_parameters();
        again.set_parameter(index, 0.8);
        again.set_parameter(index, 0.8);
        assert!(alike(&one, &again));
        one.set_sample_rate(96000.);
        let mut two = Single::default_parameters();
        two.set_sample_rate(96000.);
        two.set_parameter(index, 0.8);
        assert!(alike(&one, &two));
        for other in (0..5).filter(|n| *n != index) {
            let mut one = Single::default_parameters();
            one.set_parameter(index, 0.8);
            one.set_parameter(other, 0.3);
            let mut two = Single::default_parameters();
            two.set_parameter(other, 0.3);
            two.set_parameter(index, 0.8);
            assert!(alike(&one, &two));
        }
    }
}

#[test]
fn the_gain_grows_with_the_cutoff() {
    let mut params = Single::default_parameters();
    let mut last = -1.;
    for cutoff in [0., 10., 100., 1000., 10000., 20000., 23000.] {
        params.cutoff = cutoff;
        params.update_g();
        assert!(params.g > last);
        last = params.g;
    }
}

#[test]
fn landmarks_of_the_gain() {
    let mut params = Single::default_parameters();
    params.sample_rate = 48000.;
    params.cutoff = 0.;
    params.update_g();
    assert_eq!(params.g, 0.);
    params.cutoff = 12000.;
    params.update_g();
    assert!((params.g - 1.).abs() < 1e-6);
    for cutoff in [1., 11999., 12001., 23999.] {
        params.cutoff = cutoff;
        params.update_g();
        assert!(params.g > 0. && (params.g < 1.) == (cutoff < 12000.));
    }
}

#[test]
fn parameters_in_words() {
    let params = Single::default_parameters();
    assert_eq!(params.get_parameter_name(0), "cutoff");
    assert_eq!(params.get_parameter_name(1), "resonance");
    assert_eq!(params.get_parameter_name(2), "drive");
    assert_eq!(params.get_parameter_name(3), "filter mode");
    assert_eq!(params.get_parameter_name(4), "dry/wet");
    assert_eq!(params.get_parameter_name(5), "");
    assert_eq!(params.get_parameter_name(-1), "");
    for index in -1..6 {
        assert_eq!(params.get_parameter_label(index), "");
    }
    assert_eq!(params.get_parameter_text(0), "1000 Hz");
    assert_eq!(params.get_parameter_text(1), "2.00");
    assert_eq!(params.get_parameter_text(2), "0.0");
    assert_eq!(params.get_parameter_text(3), "mode 0");
    assert_eq!(params.get_parameter_text(4), "");
}

#[test]
fn info() {
    let filter: SVF<Single> = SVF::new();
    let info = filter.get_info();
    assert_eq!(info.name, "SVF");
    assert_eq!(info.unique_id, 80371372);
    assert_eq!(info.inputs, 1);
    assert_eq!(info.outputs, 1);
    assert_eq!(info.parameters, 4);
    assert_eq!(info.category, PluginCategory::Effect);
}
