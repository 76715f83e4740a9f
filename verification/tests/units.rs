use qsim::ampl::Ampl;
use qsim::bitvec::BitVec;
use qsim::prog::Ins;
use qsim::state::World;

#[test]
fn div_sqrt2_exact() {
    let a = Ampl { a: 2, b: 3 };
    assert_eq!(a.div_sqrt2(), Ampl { a: 3, b: 1 });
    let z = Ampl { a: -4, b: 0 };
    assert_eq!(z.div_sqrt2(), Ampl { a: 0, b: -2 });
}

#[test]
fn ring_arithmetic() {
    let x = Ampl { a: 1, b: 2 };
    let y = Ampl { a: 3, b: -5 };
    assert_eq!(x.checked_add(y), Some(Ampl { a: 4, b: -3 }));
    assert_eq!(x.checked_sub(y), Some(Ampl { a: -2, b: 7 }));
    assert_eq!(y.checked_neg(), Some(Ampl { a: -3, b: 5 }));
    assert_eq!(Ampl { a: i64::MAX, b: 0 }.checked_add(Ampl { a: 1, b: 0 }), None);
    assert!(Ampl { a: 0, b: 0 }.is_zero());
    assert!(!Ampl { a: 0, b: 1 }.is_zero());
}

#[test]
fn exact_sign_of_ring_values() {
    // 1 - sqrt(2) < 0, 3 - 2 sqrt(2) > 0, 2 sqrt(2) - 2 > 0, -3 + 2 sqrt(2) < 0
    assert!(!Ampl { a: 1, b: -1 }.is_pos());
    assert!(Ampl { a: 3, b: -2 }.is_pos());
    assert!(Ampl { a: -2, b: 2 }.is_pos());
    assert!(!Ampl { a: -3, b: 2 }.is_pos());
    assert!(!Ampl { a: 0, b: 0 }.is_pos());
    assert!(Ampl { a: 0, b: 1 }.is_pos());
}

#[test]
fn bit_operations() {
    let v = BitVec { bits: 0 };
    let v = v.set_bit(3, 1);
    assert_eq!(v.bits, 8);
    assert_eq!(v.get_bit(3), 1);
    assert_eq!(v.get_bit(2), 0);
    let v = v.flip_bit(0);
    assert_eq!(v.bits, 9);
    let v = v.set_bit(3, 0);
    assert_eq!(v.bits, 1);
}

#[test]
fn big_endian_renderings() {
    // Qubit 0 is the most significant position of the rendered integer.
    let v = BitVec { bits: 0b01 };
    assert_eq!(v.to_be_u64(2), 2);
    let v = BitVec { bits: 0b10 };
    assert_eq!(v.to_be_u64(2), 1);
    assert_eq!(BitVec { bits: 0b110 }.to_be_u64(3), 3);
    // The string prints the highest qubit first.
    assert_eq!(BitVec { bits: 0b01 }.to_be_string(2), "01");
    assert_eq!(BitVec { bits: 0b110 }.to_be_string(3), "110");
    assert_eq!(BitVec { bits: 5 }.to_vec(3), vec![1, 0, 1]);
}

#[test]
fn initial_branch_normalization() {
    let w = World::init(2);
    assert_eq!(w.ampl, Ampl { a: 2, b: 0 });
    assert_eq!(w.phase, 0);
    assert_eq!(w.vec.bits, 0);
    let w = World::init(3);
    assert_eq!(w.ampl, Ampl { a: 0, b: 2 });
    let w = World::init(0);
    assert_eq!(w.ampl, Ampl { a: 1, b: 0 });
}

#[test]
fn transition_rules() {
    let w = World { ampl: Ampl { a: 2, b: 0 }, phase: 0, vec: BitVec { bits: 0 } };
    let h = w.apply(Ins::H(0));
    assert_eq!(h.len(), 2);
    assert_eq!(h[0], World { ampl: Ampl { a: 0, b: 1 }, phase: 0, vec: BitVec { bits: 0 } });
    assert_eq!(h[1], World { ampl: Ampl { a: 0, b: 1 }, phase: 0, vec: BitVec { bits: 1 } });

    // A set qubit picks up the pi phase shift on the "bit set" branch.
    let w1 = World { ampl: Ampl { a: 2, b: 0 }, phase: 1, vec: BitVec { bits: 1 } };
    let h1 = w1.apply(Ins::H(0));
    assert_eq!(h1[0].phase, 1);
    assert_eq!(h1[1].phase, 5);

    let x = w1.apply(Ins::X(0));
    assert_eq!(x[0].vec.bits, 0);
    let t = w1.apply(Ins::T(0));
    assert_eq!(t[0].phase, 2);
    let tdg = w1.apply(Ins::Tdg(0));
    assert_eq!(tdg[0].phase, 0);
    let cx = w1.apply(Ins::Cx(0, 1));
    assert_eq!(cx[0].vec.bits, 0b11);
    let cx0 = w.apply(Ins::Cx(0, 1));
    assert_eq!(cx0[0].vec.bits, 0);
}

#[test]
fn instruction_ranges() {
    assert!(Ins::H(0).in_range(1));
    assert!(!Ins::H(1).in_range(1));
    assert!(Ins::Cx(0, 1).in_range(2));
    assert!(!Ins::Cx(0, 2).in_range(2));
    assert!(!Ins::Cx(2, 0).in_range(2));
}
