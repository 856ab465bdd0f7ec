use qclrs::CliffordSimulator;

/// The label of qubit `q` in `row`, with the sign of the row in front.
fn row_text(sim: &CliffordSimulator, row: usize) -> String {
    let mut text = String::new();
    text.push_str(match sim.phase_of(row) {
        0 => "+",
        1 => "+i",
        2 => "-",
        _ => "-i",
    });
    for q in 0..sim.get_size() {
        text.push(match (sim.x_bit(row, q), sim.z_bit(row, q)) {
            (false, false) => 'I',
            (true, false) => 'X',
            (true, true) => 'Y',
            (false, true) => 'Z',
        });
    }
    text
}

fn rows_text(sim: &CliffordSimulator) -> Vec<String> {
    (0..2 * sim.get_size()).map(|row| row_text(sim, row)).collect()
}

#[test]
fn new_is_the_ground_tableau() {
    let sim = CliffordSimulator::new(3);
    assert_eq!(sim.get_size(), 3);
    assert_eq!(rows_text(&sim), vec!["+XII", "+IXI", "+IIX", "+ZII", "+IZI", "+IIZ"]);
    assert_eq!(row_text(&sim, 6), "+III");
}

#[test]
fn new_single_qubit() {
    let sim = CliffordSimulator::new(1);
    assert_eq!(sim.get_size(), 1);
    assert_eq!(rows_text(&sim), vec!["+X", "+Z"]);
}

#[test]
fn hadamard_exchanges_x_and_z() {
    let mut sim = CliffordSimulator::new(2);
    sim.h(1);
    assert_eq!(rows_text(&sim), vec!["+XI", "+IZ", "+ZI", "+IX"]);
}

#[test]
fn hadamard_negates_y() {
    let mut sim = CliffordSimulator::new(1);
    sim.s(0);
    assert_eq!(rows_text(&sim), vec!["+Y", "+Z"]);
    sim.h(0);
    assert_eq!(rows_text(&sim), vec!["-Y", "+X"]);
}

#[test]
fn hadamard_twice_restores_the_tableau() {
    let mut sim = CliffordSimulator::new(3);
    sim.h(0);
    sim.cnot(0, 1);
    sim.s(1);
    sim.cnot(1, 2);
    sim.s(2);
    let before = sim.clone();
    for q in 0..3 {
        sim.h(q);
        assert_ne!(sim, before);
        sim.h(q);
        assert_eq!(sim, before);
    }
}

#[test]
fn pauli_z_twice_restores_the_tableau() {
    let mut sim = CliffordSimulator::new(3);
    sim.h(0);
    sim.cnot(0, 1);
    sim.s(1);
    sim.h(2);
    let before = sim.clone();
    for q in 0..3 {
        sim.z(q);
        assert_ne!(sim, before);
        sim.z(q);
        assert_eq!(sim, before);
    }
}

#[test]
fn phase_gate_cycles_x_to_y_to_minus_x() {
    let mut sim = CliffordSimulator::new(1);
    sim.s(0);
    assert_eq!(rows_text(&sim), vec!["+Y", "+Z"]);
    sim.s(0);
    assert_eq!(rows_text(&sim), vec!["-X", "+Z"]);
    sim.s(0);
    assert_eq!(rows_text(&sim), vec!["-Y", "+Z"]);
    sim.s(0);
    assert_eq!(rows_text(&sim), vec!["+X", "+Z"]);
}

#[test]
fn cnot_spreads_x_forward_and_z_backward() {
    let mut sim = CliffordSimulator::new(2);
    sim.cnot(0, 1);
    assert_eq!(rows_text(&sim), vec!["+XX", "+IX", "+ZI", "+ZZ"]);
}

#[test]
fn cnot_sign_rule() {
    // Y on the control alone: no Z bit on the target, so no sign.
    let mut yy = CliffordSimulator::new(2);
    yy.s(0);
    yy.h(1);
    assert_eq!(rows_text(&yy), vec!["+YI", "+IZ", "+ZI", "+IX"]);
    yy.cnot(0, 1);
    assert_eq!(rows_text(&yy), vec!["+YX", "+ZZ", "+ZI", "+IX"]);
    yy.cnot(0, 1);
    assert_eq!(rows_text(&yy), vec!["+YI", "+IZ", "+ZI", "+IX"]);

    // X on the control and Z on the target, the two other bits clear: the
    // row becomes Y.Y with the sign flipped, and goes back with the sign
    // restored, now with the two other bits set.
    let mut xz = CliffordSimulator::new(2);
    xz.h(1);
    xz.cnot(1, 0);
    xz.h(1);
    assert_eq!(rows_text(&xz), vec!["+XI", "+IX", "+ZX", "+XZ"]);
    xz.cnot(0, 1);
    assert_eq!(rows_text(&xz), vec!["+XX", "+IX", "+ZX", "-YY"]);
    xz.cnot(0, 1);
    assert_eq!(rows_text(&xz), vec!["+XI", "+IX", "+ZX", "+XZ"]);
}

#[test]
fn cnot_with_equal_indices_clears_the_bits_it_adds() {
    let mut sim = CliffordSimulator::new(2);
    sim.s(0);
    assert_eq!(rows_text(&sim), vec!["+YI", "+IX", "+ZI", "+IZ"]);
    sim.cnot(0, 0);
    assert_eq!(rows_text(&sim), vec!["-II", "+IX", "+II", "+IZ"]);
}

#[test]
fn pauli_z_negates_rows_with_an_x_bit() {
    let mut sim = CliffordSimulator::new(2);
    sim.s(1);
    sim.z(0);
    assert_eq!(rows_text(&sim), vec!["-XI", "+IY", "+ZI", "+IZ"]);
    sim.z(1);
    assert_eq!(rows_text(&sim), vec!["-XI", "-IY", "+ZI", "+IZ"]);
}

#[test]
fn pauli_z_is_two_phase_gates() {
    let mut a = CliffordSimulator::new(2);
    a.h(0);
    a.cnot(0, 1);
    a.s(0);
    let mut b = a.clone();
    a.z(0);
    b.s(0);
    b.s(0);
    assert_eq!(a, b);
}

#[test]
fn phase_adjoint_undoes_phase() {
    let mut sim = CliffordSimulator::new(2);
    sim.h(0);
    sim.cnot(0, 1);
    let before = sim.clone();
    sim.s(1);
    sim.st(1);
    assert_eq!(sim, before);
    sim.st(0);
    sim.s(0);
    assert_eq!(sim, before);
}

#[test]
fn phase_adjoint_maps_x_to_minus_y() {
    let mut sim = CliffordSimulator::new(1);
    sim.st(0);
    assert_eq!(rows_text(&sim), vec!["-Y", "+Z"]);
    sim.st(0);
    assert_eq!(rows_text(&sim), vec!["-X", "+Z"]);
}

#[test]
fn pauli_x_negates_rows_with_a_z_bit() {
    let mut sim = CliffordSimulator::new(2);
    sim.s(1);
    sim.x(0);
    assert_eq!(rows_text(&sim), vec!["+XI", "+IY", "-ZI", "+IZ"]);
    sim.x(1);
    assert_eq!(rows_text(&sim), vec!["+XI", "-IY", "-ZI", "-IZ"]);
}

#[test]
fn pauli_x_is_hadamard_z_hadamard() {
    let mut a = CliffordSimulator::new(2);
    a.h(0);
    a.cnot(0, 1);
    a.s(1);
    let mut b = a.clone();
    a.x(1);
    b.h(1);
    b.z(1);
    b.h(1);
    assert_eq!(a, b);
}

#[test]
fn pauli_y_negates_rows_labelled_x_or_z() {
    let mut sim = CliffordSimulator::new(2);
    sim.s(1);
    sim.y(0);
    assert_eq!(rows_text(&sim), vec!["-XI", "+IY", "-ZI", "+IZ"]);
    sim.y(1);
    assert_eq!(rows_text(&sim), vec!["-XI", "+IY", "-ZI", "-IZ"]);
}

#[test]
fn pauli_y_is_phase_x_phase_adjoint() {
    let mut a = CliffordSimulator::new(2);
    a.h(0);
    a.cnot(0, 1);
    let mut b = a.clone();
    a.y(0);
    b.s(0);
    b.x(0);
    b.st(0);
    assert_eq!(a, b);
}

#[test]
fn minus_x_acts_on_the_tableau_as_x() {
    let mut a = CliffordSimulator::new(2);
    a.h(0);
    a.cnot(0, 1);
    a.s(0);
    let mut b = a.clone();
    let mut c = a.clone();
    a.minus_x(0);
    b.x(0);
    c.z(0);
    c.x(0);
    c.z(0);
    assert_eq!(a, b);
    assert_eq!(a, c);
}

#[test]
fn minus_y_acts_on_the_tableau_as_y() {
    let mut a = CliffordSimulator::new(2);
    a.h(1);
    a.cnot(1, 0);
    a.s(1);
    let mut b = a.clone();
    let mut c = a.clone();
    a.minus_y(1);
    b.y(1);
    c.z(1);
    c.y(1);
    c.z(1);
    assert_eq!(a, b);
    assert_eq!(a, c);
}

#[test]
fn gates_leave_the_scratch_row_alone() {
    let mut sim = CliffordSimulator::new(2);
    sim.h(0);
    sim.s(1);
    sim.cnot(0, 1);
    sim.y(0);
    assert_eq!(row_text(&sim, 4), "+II");
}
