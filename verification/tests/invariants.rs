use qclrs::{CliffordSimulator, MeasureReturns};

/// Whether two rows anticommute: they do on an odd number of qubits.
fn anticommute(sim: &CliffordSimulator, a: usize, b: usize) -> bool {
    let mut odd = false;
    for q in 0..sim.get_size() {
        if (sim.x_bit(a, q) && sim.z_bit(b, q)) != (sim.z_bit(a, q) && sim.x_bit(b, q)) {
            odd = !odd;
        }
    }
    odd
}

fn check_invariants(sim: &CliffordSimulator) {
    let n = sim.get_size();
    for s in n..2 * n {
        assert_eq!(sim.phase_of(s) % 2, 0, "stabilizer {} has an imaginary coefficient", s - n);
        for t in n..2 * n {
            assert!(!anticommute(sim, s, t), "stabilizers {} and {} anticommute", s - n, t - n);
        }
    }
    for d in 0..n {
        for s in n..2 * n {
            assert_eq!(
                anticommute(sim, d, s),
                s == d + n,
                "destabilizer {} and stabilizer {}",
                d,
                s - n
            );
        }
    }
    if n <= 4 {
        check_complete(sim);
    }
}

/// Every operator but the identity anticommutes with some generator.
fn check_complete(sim: &CliffordSimulator) {
    let n = sim.get_size();
    for bits in 1u32..1 << (2 * n) {
        let x = |q: usize| bits >> q & 1 == 1;
        let z = |q: usize| bits >> (n + q) & 1 == 1;
        let found = (0..2 * n).any(|row| {
            let mut odd = false;
            for q in 0..n {
                if (x(q) && sim.z_bit(row, q)) != (z(q) && sim.x_bit(row, q)) {
                    odd = !odd;
                }
            }
            odd
        });
        assert!(found, "the operator with bits {:b} commutes with every generator", bits);
    }
}

/// A small linear congruential generator, so that the circuits are the same
/// in every run.
fn next(state: &mut u64) -> usize {
    *state = state.wrapping_mul(6364136223846793005).wrapping_add(1442695040888963407);
    (*state >> 33) as usize
}

fn random_step(sim: &mut CliffordSimulator, state: &mut u64) {
    let n = sim.get_size();
    let q = next(state) % n;
    match next(state) % 12 {
        0 => sim.h(q),
        1 => sim.s(q),
        2 => sim.z(q),
        3 => sim.st(q),
        4 => sim.x(q),
        5 => sim.y(q),
        6 => sim.minus_x(q),
        7 => sim.minus_y(q),
        8 | 9 => {
            if n > 1 {
                let t = (q + 1 + next(state) % (n - 1)) % n;
                sim.cnot(q, t);
            }
        }
        10 => {
            let coin = next(state) % 2 == 1;
            let suppress = next(state) % 2 == 1;
            let outcome = sim.measure_with_coin(q, suppress, coin);
            match outcome {
                MeasureReturns::RandomOne => assert!(coin),
                MeasureReturns::RandomZero => assert!(!coin),
                MeasureReturns::AlwaysOne => assert!(!suppress),
                MeasureReturns::AlwaysZero => {}
            }
        }
        _ => {
            sim.measure(q, false);
        }
    }
}

#[test]
fn ground_tableau_satisfies_the_invariants() {
    for n in 1..8 {
        check_invariants(&CliffordSimulator::new(n));
    }
}

#[test]
fn invariants_hold_after_every_step_of_random_circuits() {
    let mut state = 0x2545F4914F6CDD1D;
    for n in 1..7 {
        for _ in 0..20 {
            let mut sim = CliffordSimulator::new(n);
            for _ in 0..60 {
                random_step(&mut sim, &mut state);
                check_invariants(&sim);
            }
        }
    }
}

#[test]
fn invariants_hold_after_rendering() {
    let mut state = 0x9E3779B97F4A7C15;
    for n in 1..7 {
        for _ in 0..20 {
            let mut sim = CliffordSimulator::new(n);
            for _ in 0..40 {
                random_step(&mut sim, &mut state);
            }
            let text = sim.str_ket();
            check_invariants(&sim);
            let count: usize = text.split(' ').next().unwrap().parse().unwrap();
            assert!(count.is_power_of_two());
            assert_eq!(text.matches('>').count(), count);
        }
    }
}

#[test]
fn canonical_form_has_x_bits_only_in_the_leading_rows() {
    let mut state = 0xD1B54A32D192ED03;
    for n in 1..7 {
        for _ in 0..20 {
            let mut sim = CliffordSimulator::new(n);
            for _ in 0..40 {
                random_step(&mut sim, &mut state);
            }
            let text = sim.str_ket();
            let count: usize = text.split(' ').next().unwrap().parse().unwrap();
            let rank = count.trailing_zeros() as usize;
            for s in n + rank..2 * n {
                for q in 0..n {
                    assert!(!sim.x_bit(s, q));
                }
            }
        }
    }
}

#[test]
fn kets_of_a_rendered_state_are_distinct() {
    let mut state = 0x853C49E6748FEA9B;
    for n in 1..6 {
        for _ in 0..20 {
            let mut sim = CliffordSimulator::new(n);
            for _ in 0..40 {
                random_step(&mut sim, &mut state);
            }
            let text = sim.str_ket();
            let body = text.split('\n').nth(1).unwrap();
            let mut kets: Vec<&str> =
                body.split('>').filter(|k| !k.is_empty()).map(|k| &k[3..]).collect();
            let count = kets.len();
            kets.sort();
            kets.dedup();
            assert_eq!(kets.len(), count);
        }
    }
}

/// The bit strings of the kets of a rendered state, in order.
fn ket_bits(text: &str) -> Vec<Vec<bool>> {
    let body = text.split('\n').nth(1).unwrap();
    body.split('>')
        .filter(|k| !k.is_empty())
        .map(|k| k[3..].chars().map(|c| c == '1').collect())
        .collect()
}

#[test]
fn first_ket_is_fixed_by_the_sign_only_stabilizers() {
    let mut state = 0xA0761D6478BD642F;
    for n in 1..7 {
        for _ in 0..20 {
            let mut sim = CliffordSimulator::new(n);
            for _ in 0..40 {
                random_step(&mut sim, &mut state);
            }
            let text = sim.str_ket();
            let kets = ket_bits(&text);
            let rank = kets.len().trailing_zeros() as usize;
            for s in n + rank..2 * n {
                let mut ones = 0;
                for q in 0..n {
                    if sim.z_bit(s, q) && kets[0][q] {
                        ones += 1;
                    }
                }
                assert_eq!(ones % 2 == 1, sim.phase_of(s) == 2);
            }
        }
    }
}

#[test]
fn consecutive_kets_differ_by_one_leading_stabilizer() {
    let mut state = 0xE7037ED1A0B428DB;
    for n in 1..7 {
        for _ in 0..20 {
            let mut sim = CliffordSimulator::new(n);
            for _ in 0..40 {
                random_step(&mut sim, &mut state);
            }
            let text = sim.str_ket();
            let kets = ket_bits(&text);
            let rank = kets.len().trailing_zeros() as usize;
            for pair in kets.windows(2) {
                let matching = (0..rank)
                    .filter(|j| (0..n).all(|q| (pair[0][q] != pair[1][q]) == sim.x_bit(n + j, q)))
                    .count();
                assert_eq!(matching, 1);
            }
        }
    }
}

#[test]
fn forced_outcome_is_the_sign_of_z_on_the_qubit() {
    let mut state = 0x8EBC6AF09C88C6E3;
    let mut forced = 0;
    for n in 1..7 {
        for _ in 0..30 {
            let mut sim = CliffordSimulator::new(n);
            for _ in 0..40 {
                random_step(&mut sim, &mut state);
            }
            for q in 0..n {
                let outcome = sim.measure_with_coin(q, false, next(&mut state) % 2 == 1);
                let expected = match outcome {
                    MeasureReturns::AlwaysOne => 2,
                    MeasureReturns::AlwaysZero => 0,
                    _ => continue,
                };
                forced += 1;
                // the scratch row holds the operator that decided the outcome
                let scratch = 2 * n;
                for k in 0..n {
                    assert!(!sim.x_bit(scratch, k));
                    assert_eq!(sim.z_bit(scratch, k), k == q);
                }
                assert_eq!(sim.phase_of(scratch), expected);
            }
        }
    }
    assert!(forced > 100);
}
