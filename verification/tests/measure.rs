use qclrs::{CliffordSimulator, MeasureReturns};

/// The logical rows as text: the sign, then one label per qubit.
fn generators(sim: &CliffordSimulator) -> Vec<String> {
    let mut rows = Vec::new();
    for row in 0..2 * sim.get_size() {
        let mut text = String::new();
        text.push_str(match sim.phase_of(row) {
            0 => "+",
            1 => "+i",
            2 => "-",
            _ => "-i",
        });
        for q in 0..sim.get_size() {
            text.push(match (sim.x_bit(row, q), sim.z_bit(row, q)) {
                (false, false) => 'I',
                (true, false) => 'X',
                (true, true) => 'Y',
                (false, true) => 'Z',
            });
        }
        rows.push(text);
    }
    rows
}

#[test]
fn ground_state_measures_zero() {
    for n in 1..6 {
        for q in 0..n {
            let mut sim = CliffordSimulator::new(n);
            let before = sim.clone();
            assert_eq!(sim.measure(q, false), MeasureReturns::AlwaysZero);
            assert_eq!(sim.measure(q, true), MeasureReturns::AlwaysZero);
            assert_eq!(sim.measure_with_coin(q, false, true), MeasureReturns::AlwaysZero);
            for row in 0..2 * n {
                for k in 0..n {
                    assert_eq!(sim.x_bit(row, k), before.x_bit(row, k));
                    assert_eq!(sim.z_bit(row, k), before.z_bit(row, k));
                }
                assert_eq!(sim.phase_of(row), before.phase_of(row));
            }
        }
    }
}

#[test]
fn flipped_qubit_measures_one() {
    let mut sim = CliffordSimulator::new(3);
    sim.x(1);
    assert_eq!(sim.measure(0, false), MeasureReturns::AlwaysZero);
    assert_eq!(sim.measure(1, false), MeasureReturns::AlwaysOne);
    assert_eq!(sim.measure(2, false), MeasureReturns::AlwaysZero);
}

#[test]
fn suppressed_forced_outcome_is_reported_as_zero() {
    let mut sim = CliffordSimulator::new(2);
    sim.x(0);
    assert_eq!(sim.measure(0, true), MeasureReturns::AlwaysZero);
    assert_eq!(sim.measure(0, false), MeasureReturns::AlwaysOne);
}

#[test]
fn superposition_collapses_to_the_coin() {
    let mut one = CliffordSimulator::new(1);
    one.h(0);
    assert_eq!(one.measure_with_coin(0, false, true), MeasureReturns::RandomOne);
    assert_eq!(one.measure(0, false), MeasureReturns::AlwaysOne);
    assert_eq!(one.str_ket(), "1 possible states\n +|1>");

    let mut zero = CliffordSimulator::new(1);
    zero.h(0);
    assert_eq!(zero.measure_with_coin(0, false, false), MeasureReturns::RandomZero);
    assert_eq!(zero.measure(0, false), MeasureReturns::AlwaysZero);
    assert_eq!(zero.str_ket(), "1 possible states\n +|0>");
}

#[test]
fn suppress_does_not_change_a_random_outcome() {
    let mut sim = CliffordSimulator::new(1);
    sim.h(0);
    assert_eq!(sim.measure_with_coin(0, true, true), MeasureReturns::RandomOne);
    assert_eq!(sim.measure(0, false), MeasureReturns::AlwaysOne);
}

#[test]
fn collapse_rewrites_the_tableau() {
    let mut sim = CliffordSimulator::new(2);
    sim.h(0);
    sim.cnot(0, 1);
    assert_eq!(generators(&sim), vec!["+ZI", "+IX", "+XX", "+ZZ"]);
    assert_eq!(sim.measure_with_coin(0, false, true), MeasureReturns::RandomOne);
    // destabilizer 0 is the old stabilizer 0, stabilizer 0 is -Z on qubit 0;
    // the other rows have no X bit on qubit 0 and stay
    assert_eq!(generators(&sim), vec!["+XX", "+IX", "-ZI", "+ZZ"]);
}

#[test]
fn collapse_multiplies_the_rows_that_anticommute() {
    let mut sim = CliffordSimulator::new(2);
    sim.h(0);
    sim.cnot(0, 1);
    sim.s(0);
    sim.s(1);
    sim.h(0);
    sim.h(1);
    assert_eq!(generators(&sim), vec!["+XI", "-IY", "+YY", "+XX"]);
    // The pivot is stabilizer 0, Y.Y. Stabilizer 1, X.X, has an X bit on
    // qubit 0 and is multiplied by it: X after Y carries -i on each qubit.
    assert_eq!(sim.measure_with_coin(0, false, true), MeasureReturns::RandomOne);
    assert_eq!(generators(&sim), vec!["+YY", "-IY", "-ZI", "-ZZ"]);
    // Z.Z has the value -1 and qubit 0 gave one, so qubit 1 gives zero: the
    // product of both stabilizers is +Z on qubit 1.
    assert_eq!(sim.measure(1, false), MeasureReturns::AlwaysZero);
    assert_eq!(generators(&sim), vec!["+YY", "-IY", "-ZI", "-ZZ"]);
}

#[test]
fn collapse_with_the_other_coin() {
    let mut sim = CliffordSimulator::new(2);
    sim.h(0);
    sim.cnot(0, 1);
    sim.s(0);
    sim.s(1);
    sim.h(0);
    sim.h(1);
    assert_eq!(sim.measure_with_coin(0, false, false), MeasureReturns::RandomZero);
    assert_eq!(generators(&sim), vec!["+YY", "-IY", "+ZI", "-ZZ"]);
    assert_eq!(sim.measure(1, false), MeasureReturns::AlwaysOne);
}

#[test]
fn bell_pair_halves_agree_for_either_coin() {
    let mut sim = CliffordSimulator::new(2);
    sim.h(0);
    sim.cnot(0, 1);
    let mut other = sim.clone();

    assert_eq!(sim.measure_with_coin(0, false, false), MeasureReturns::RandomZero);
    assert_eq!(sim.measure(1, false), MeasureReturns::AlwaysZero);
    assert_eq!(sim.measure(0, false), MeasureReturns::AlwaysZero);

    assert_eq!(other.measure_with_coin(0, false, true), MeasureReturns::RandomOne);
    assert_eq!(other.measure(1, false), MeasureReturns::AlwaysOne);
    assert_eq!(other.measure(0, false), MeasureReturns::AlwaysOne);
}

#[test]
fn bell_pair_measurements_are_correlated_and_fair() {
    let trials = 2000;
    let mut ones = 0;
    for _ in 0..trials {
        let mut sim = CliffordSimulator::new(2);
        sim.h(0);
        sim.cnot(0, 1);
        match sim.measure(0, false) {
            MeasureReturns::RandomOne => {
                ones += 1;
                assert_eq!(sim.measure(1, false), MeasureReturns::AlwaysOne);
            }
            MeasureReturns::RandomZero => {
                assert_eq!(sim.measure(1, false), MeasureReturns::AlwaysZero);
            }
            other => panic!("the first half of a Bell pair gave {:?}", other),
        }
    }
    assert!(ones > trials * 2 / 5, "{} ones in {} trials", ones, trials);
    assert!(ones < trials * 3 / 5, "{} ones in {} trials", ones, trials);
}

#[test]
fn ghz_measurements_all_agree() {
    for coin in [false, true] {
        let n = 5;
        let mut sim = CliffordSimulator::new(n);
        sim.h(0);
        for i in 1..n {
            sim.cnot(0, i);
        }
        let first = sim.measure_with_coin(2, false, coin);
        assert_eq!(
            first,
            if coin { MeasureReturns::RandomOne } else { MeasureReturns::RandomZero }
        );
        for q in 0..n {
            assert_eq!(
                sim.measure(q, false),
                if coin { MeasureReturns::AlwaysOne } else { MeasureReturns::AlwaysZero }
            );
        }
    }
}

#[test]
fn forced_outcome_multiplies_several_stabilizers() {
    // |11> reached through an entangling circuit: the outcome of qubit 1 is
    // the sign of a product of two stabilizers.
    let mut sim = CliffordSimulator::new(2);
    sim.x(0);
    sim.cnot(0, 1);
    assert_eq!(sim.measure(0, false), MeasureReturns::AlwaysOne);
    assert_eq!(sim.measure(1, false), MeasureReturns::AlwaysOne);
    sim.x(0);
    assert_eq!(sim.measure(0, false), MeasureReturns::AlwaysZero);
    assert_eq!(sim.measure(1, false), MeasureReturns::AlwaysOne);
}

#[test]
fn measure_after_measure_is_forced() {
    let mut sim = CliffordSimulator::new(3);
    sim.h(0);
    sim.h(1);
    sim.h(2);
    for q in 0..3 {
        let first = sim.measure(q, false);
        let again = sim.measure(q, false);
        match first {
            MeasureReturns::RandomOne => assert_eq!(again, MeasureReturns::AlwaysOne),
            MeasureReturns::RandomZero => assert_eq!(again, MeasureReturns::AlwaysZero),
            other => panic!("a qubit in superposition gave {:?}", other),
        }
    }
}
