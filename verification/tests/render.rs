use qclrs::CliffordSimulator;

fn ghz(n: usize) -> CliffordSimulator {
    let mut sim = CliffordSimulator::new(n);
    sim.h(0);
    for i in 1..n {
        sim.cnot(0, i);
    }
    sim
}

#[test]
fn ground_state_is_one_ket() {
    assert_eq!(CliffordSimulator::new(1).str_ket(), "1 possible states\n +|0>");
    assert_eq!(CliffordSimulator::new(4).str_ket(), "1 possible states\n +|0000>");
}

#[test]
fn basis_state_is_one_ket() {
    let mut sim = CliffordSimulator::new(2);
    sim.x(1);
    assert_eq!(sim.str_ket(), "1 possible states\n +|01>");
    let mut sim = CliffordSimulator::new(3);
    sim.x(0);
    sim.x(2);
    assert_eq!(sim.str_ket(), "1 possible states\n +|101>");
}

#[test]
fn hadamard_on_one_qubit_gives_two_kets() {
    let mut sim = CliffordSimulator::new(1);
    sim.h(0);
    assert_eq!(sim.str_ket(), "2 possible states\n +|0> +|1>");
}

#[test]
fn relative_phases_are_rendered() {
    let mut minus = CliffordSimulator::new(1);
    minus.h(0);
    minus.z(0);
    assert_eq!(minus.str_ket(), "2 possible states\n +|0> -|1>");

    let mut plus_i = CliffordSimulator::new(1);
    plus_i.h(0);
    plus_i.s(0);
    assert_eq!(plus_i.str_ket(), "2 possible states\n +|0>+i|1>");

    let mut minus_i = CliffordSimulator::new(1);
    minus_i.h(0);
    minus_i.st(0);
    assert_eq!(minus_i.str_ket(), "2 possible states\n +|0>-i|1>");
}

#[test]
fn pauli_y_on_the_ground_state() {
    let mut sim = CliffordSimulator::new(1);
    sim.y(0);
    assert_eq!(sim.str_ket(), "1 possible states\n +|1>");
    let mut sim = CliffordSimulator::new(1);
    sim.minus_y(0);
    assert_eq!(sim.str_ket(), "1 possible states\n +|1>");
    let mut sim = CliffordSimulator::new(1);
    sim.minus_x(0);
    assert_eq!(sim.str_ket(), "1 possible states\n +|1>");
}

#[test]
fn bell_pair_has_two_kets() {
    let mut sim = CliffordSimulator::new(2);
    sim.h(0);
    sim.cnot(0, 1);
    assert_eq!(sim.str_ket(), "2 possible states\n +|00> +|11>");
}

#[test]
fn bell_pair_variants() {
    let mut sim = CliffordSimulator::new(2);
    sim.h(0);
    sim.cnot(0, 1);
    sim.x(0);
    assert_eq!(sim.str_ket(), "2 possible states\n +|10> +|01>");

    let mut sim = CliffordSimulator::new(2);
    sim.h(0);
    sim.cnot(0, 1);
    sim.z(0);
    assert_eq!(sim.str_ket(), "2 possible states\n +|00> -|11>");
}

#[test]
fn ghz_state_has_two_kets_for_every_size() {
    for n in 1..=12 {
        let zeros = "0".repeat(n);
        let ones = "1".repeat(n);
        assert_eq!(ghz(n).str_ket(), format!("2 possible states\n +|{}> +|{}>", zeros, ones));
    }
    let zeros = "0".repeat(32);
    let ones = "1".repeat(32);
    assert_eq!(ghz(32).str_ket(), format!("2 possible states\n +|{}> +|{}>", zeros, ones));
}

#[test]
fn two_free_qubits_come_in_gray_code_order() {
    let mut sim = CliffordSimulator::new(2);
    sim.h(0);
    sim.h(1);
    assert_eq!(sim.str_ket(), "4 possible states\n +|00> +|10> +|11> +|01>");
}

#[test]
fn sixteen_kets_in_gray_code_order() {
    let n = 4;
    let mut sim = CliffordSimulator::new(n);
    for q in 0..n {
        sim.h(q);
    }
    let mut expected = String::from("16 possible states\n");
    for i in 0u32..16 {
        let gray = i ^ (i >> 1);
        expected.push_str(" +|");
        for q in 0..n {
            expected.push(if gray >> q & 1 == 1 { '1' } else { '0' });
        }
        expected.push('>');
    }
    assert_eq!(sim.str_ket(), expected);
}

#[test]
fn count_is_written_in_decimal() {
    let n = 10;
    let mut sim = CliffordSimulator::new(n);
    for q in 0..n {
        sim.h(q);
    }
    let text = sim.str_ket();
    assert!(text.starts_with("1024 possible states\n +|0000000000> +|1000000000> +|1100000000>"));
    assert_eq!(text.len(), "1024 possible states\n".len() + 1024 * (2 + 1 + n + 1));
    assert_eq!(text.matches('|').count(), 1024);
}

#[test]
fn rendering_twice_gives_the_same_text() {
    let mut sim = CliffordSimulator::new(3);
    sim.h(0);
    sim.cnot(0, 1);
    sim.h(2);
    sim.s(2);
    let first = sim.str_ket();
    let canonical = sim.clone();
    let second = sim.str_ket();
    assert_eq!(first, second);
    for row in 0..6 {
        for q in 0..3 {
            assert_eq!(sim.x_bit(row, q), canonical.x_bit(row, q));
            assert_eq!(sim.z_bit(row, q), canonical.z_bit(row, q));
        }
        assert_eq!(sim.phase_of(row), canonical.phase_of(row));
    }
}

#[test]
fn mixed_state_of_three_qubits() {
    // (|0> + i|1>) on qubit 2, a Bell pair with a flipped half on 0 and 1.
    // The stabilizer -Z.Z.I puts the seed's one on the lower qubit; the
    // Gray code then flips X.X.I, I.I.Y, X.X.I.
    let mut sim = CliffordSimulator::new(3);
    sim.h(0);
    sim.cnot(0, 1);
    sim.x(1);
    sim.h(2);
    sim.s(2);
    assert_eq!(sim.str_ket(), "4 possible states\n +|100> +|010>+i|011>+i|101>");
}

#[test]
fn sixty_four_free_qubits_are_not_enumerated() {
    let n = 64;
    let mut sim = CliffordSimulator::new(n);
    for q in 0..n {
        sim.h(q);
    }
    assert_eq!(sim.str_ket(), "muitos estados para printar.");
}

#[test]
fn many_qubits_with_few_free_ones_are_enumerated() {
    let n = 70;
    let mut sim = CliffordSimulator::new(n);
    sim.h(69);
    let zeros = "0".repeat(69);
    assert_eq!(sim.str_ket(), format!("2 possible states\n +|{}0> +|{}1>", zeros, zeros));
}
