use qsim::prog::Ins;
use qsim::sim::{simulate, OutAmp};
use qsim::state::{merge_branches, SimError, State, World};
use qsim::ampl::Ampl;
use qsim::bitvec::BitVec;

fn to_complex(entries: &[OutAmp], n: u32) -> Vec<(f64, f64)> {
    let norm = (2f64).powi(n as i32).sqrt();
    entries
        .iter()
        .map(|e| {
            let scale = (e.ampl.a as f64 + e.ampl.b as f64 * (2f64).sqrt()) / norm;
            let angle = e.phase as f64 * std::f64::consts::PI / 4.0;
            (scale * angle.cos(), scale * angle.sin())
        })
        .collect()
}

fn assert_close(got: (f64, f64), want: (f64, f64)) {
    assert!((got.0 - want.0).abs() < 1e-9, "re: {} vs {}", got.0, want.0);
    assert!((got.1 - want.1).abs() < 1e-9, "im: {} vs {}", got.1, want.1);
}

#[test]
fn single_hadamard() {
    let r = simulate(1, &vec![Ins::H(0)]).unwrap();
    let c = to_complex(&r, 1);
    let h = 1.0 / (2f64).sqrt();
    assert_eq!(c.len(), 2);
    assert_close(c[0], (h, 0.0));
    assert_close(c[1], (h, 0.0));
}

#[test]
fn bell_pair() {
    let r = simulate(2, &vec![Ins::H(0), Ins::Cx(0, 1)]).unwrap();
    let c = to_complex(&r, 2);
    let h = 1.0 / (2f64).sqrt();
    assert_eq!(c.len(), 4);
    assert_close(c[0], (h, 0.0));
    assert_close(c[1], (0.0, 0.0));
    assert_close(c[2], (0.0, 0.0));
    assert_close(c[3], (h, 0.0));
}

#[test]
fn out_of_range_qubit() {
    let r = simulate(1, &vec![Ins::H(5)]);
    assert_eq!(r, Err(SimError::IndexError));
}

#[test]
fn t_gate_phase() {
    let r = simulate(1, &vec![Ins::X(0), Ins::T(0)]).unwrap();
    let c = to_complex(&r, 1);
    let h = 1.0 / (2f64).sqrt();
    assert_close(c[0], (0.0, 0.0));
    assert_close(c[1], (h, h));
}

#[test]
fn tdg_undoes_t() {
    let r = simulate(1, &vec![Ins::X(0), Ins::T(0), Ins::Tdg(0)]).unwrap();
    let c = to_complex(&r, 1);
    assert_close(c[0], (0.0, 0.0));
    assert_close(c[1], (1.0, 0.0));
}

#[test]
fn determinism_bit_identical() {
    let prog = vec![Ins::H(0), Ins::Cx(0, 1), Ins::T(1), Ins::H(1)];
    let r1 = simulate(2, &prog).unwrap();
    let r2 = simulate(2, &prog).unwrap();
    assert_eq!(r1, r2);
}

#[test]
fn conservation_of_probability() {
    let progs: Vec<(u32, Vec<Ins>)> = vec![
        (1, vec![Ins::H(0)]),
        (2, vec![Ins::H(0), Ins::Cx(0, 1)]),
        (3, vec![Ins::H(0), Ins::H(1), Ins::Cx(1, 2), Ins::T(2), Ins::H(2)]),
        (2, vec![Ins::X(0), Ins::T(0), Ins::Tdg(1), Ins::Cx(0, 1)]),
    ];
    for (n, prog) in progs {
        let r = simulate(n, &prog).unwrap();
        let c = to_complex(&r, n);
        let total: f64 = c.iter().map(|(re, im)| re * re + im * im).sum();
        assert!((total - 1.0).abs() < 1e-9, "total probability {}", total);
    }
}

#[test]
fn capacity_error() {
    let r = simulate(64, &vec![]);
    assert_eq!(r, Err(SimError::CapacityError));
}

#[test]
fn overflow_on_inexact_division() {
    // With one qubit the normalization constant is sqrt(2); a second H
    // would need amplitudes outside the ring, which the engine refuses
    // instead of truncating.
    let r = simulate(1, &vec![Ins::H(0), Ins::H(0)]);
    assert_eq!(r, Err(SimError::OverflowError));
}

#[test]
fn h_involution_up_to_normalization() {
    // With enough normalization headroom, H twice is the identity.
    let twice = simulate(2, &vec![Ins::H(0), Ins::H(0)]).unwrap();
    let idle = simulate(2, &vec![]).unwrap();
    assert_eq!(twice, idle);
    let on_one = simulate(2, &vec![Ins::X(0), Ins::H(0), Ins::H(0)]).unwrap();
    let x_only = simulate(2, &vec![Ins::X(0)]).unwrap();
    assert_eq!(on_one, x_only);
}

#[test]
fn x_involution_exact_state() {
    let st = State::init(3);
    let before = st.worlds.clone();
    let st = st.apply(Ins::X(1)).unwrap();
    let st = st.apply(Ins::X(1)).unwrap();
    assert_eq!(st.worlds, before);

    let st2 = State::init(2).apply(Ins::H(0)).unwrap();
    let before2 = st2.worlds.clone();
    let st2 = st2.apply(Ins::X(1)).unwrap();
    let st2 = st2.apply(Ins::X(1)).unwrap();
    assert_eq!(st2.worlds, before2);
}

#[test]
fn merge_idempotence() {
    let t = vec![
        World { ampl: Ampl { a: 1, b: 0 }, phase: 0, vec: BitVec { bits: 0 } },
        World { ampl: Ampl { a: 0, b: 1 }, phase: 2, vec: BitVec { bits: 1 } },
        World { ampl: Ampl { a: 1, b: 1 }, phase: 6, vec: BitVec { bits: 1 } },
        World { ampl: Ampl { a: 2, b: -1 }, phase: 0, vec: BitVec { bits: 2 } },
    ];
    let m1 = merge_branches(&t).unwrap();
    let m2 = merge_branches(&m1).unwrap();
    assert_eq!(m1, m2);
}

#[test]
fn exact_cancellation() {
    let t = vec![
        World { ampl: Ampl { a: 3, b: -1 }, phase: 5, vec: BitVec { bits: 6 } },
        World { ampl: Ampl { a: -3, b: 1 }, phase: 5, vec: BitVec { bits: 6 } },
    ];
    let m = merge_branches(&t).unwrap();
    assert_eq!(m, Vec::<World>::new());
}

#[test]
fn internal_consistency_error() {
    // Two surviving branches on one basis state: the projection must flag
    // this instead of summing silently.
    let st = State {
        worlds: vec![
            World { ampl: Ampl { a: 1, b: 0 }, phase: 0, vec: BitVec { bits: 0 } },
            World { ampl: Ampl { a: 1, b: 0 }, phase: 1, vec: BitVec { bits: 0 } },
        ],
    };
    let r = st.to_statevec(1);
    assert_eq!(r, Err(SimError::InternalConsistencyError));
}

#[test]
fn empty_program_basis_state() {
    let r = simulate(2, &vec![]).unwrap();
    let c = to_complex(&r, 2);
    assert_close(c[0], (1.0, 0.0));
    assert_close(c[1], (0.0, 0.0));
    assert_close(c[2], (0.0, 0.0));
    assert_close(c[3], (0.0, 0.0));
}
