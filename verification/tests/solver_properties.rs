use sux::bits::bit_vec::BitVec;
use sux::solvers::modulo2system::Modulo2Equation;
use sux::solvers::modulo2system::Modulo2System;
use sux::solvers::modulo2system::SolverError;

fn small_fixture() -> Modulo2System {
    let mut system = Modulo2System::new(11);
    let mut eq = Modulo2Equation::new(0, 11);
    eq.add(1).add(4).add(10);
    system.add(eq);
    eq = Modulo2Equation::new(2, 11);
    eq.add(1).add(4).add(9);
    system.add(eq);
    eq = Modulo2Equation::new(0, 11);
    eq.add(0).add(6).add(8);
    system.add(eq);
    eq = Modulo2Equation::new(1, 11);
    eq.add(0).add(6).add(9);
    system.add(eq);
    eq = Modulo2Equation::new(2, 11);
    eq.add(2).add(4).add(8);
    system.add(eq);
    eq = Modulo2Equation::new(0, 11);
    eq.add(2).add(6).add(10);
    system.add(eq);
    system
}

#[test]
fn both_solvers_satisfy_check_on_small_fixture() {
    let mut dense = small_fixture();
    let mut lazy = dense.clone();

    let dense_solution = dense.gaussian_elimination();
    assert!(dense_solution.is_ok());
    assert!(dense.check(&dense_solution.unwrap()));

    let lazy_solution = lazy.lazy_gaussian_elimination_constructor();
    assert!(lazy_solution.is_ok());
    assert!(lazy.check(&lazy_solution.unwrap()));
}

#[test]
fn both_solvers_report_contradiction() {
    let mut system = Modulo2System::new(1);
    let mut eq = Modulo2Equation::new(2, 1);
    eq.add(0);
    system.add(eq);
    eq = Modulo2Equation::new(1, 1);
    eq.add(0);
    system.add(eq);

    let mut dense = Modulo2System::new(1);
    eq = Modulo2Equation::new(2, 1);
    eq.add(0);
    dense.add(eq);
    eq = Modulo2Equation::new(1, 1);
    eq.add(0);
    dense.add(eq);

    assert_eq!(
        system.lazy_gaussian_elimination_constructor(),
        Err(SolverError::Unsolvable)
    );
    assert_eq!(dense.gaussian_elimination(), Err(SolverError::Unsolvable));
}

#[test]
fn single_equation_gets_its_constant() {
    let mut system = Modulo2System::new(2);
    let mut eq = Modulo2Equation::new(2, 2);
    eq.add(0);
    system.add(eq);
    let solution = system.lazy_gaussian_elimination_constructor().unwrap();
    assert_eq!(solution[0], 2);
    assert!(system.check(&solution));

    let mut dense = Modulo2System::new(2);
    let mut eq2 = Modulo2Equation::new(2, 2);
    eq2.add(0);
    dense.add(eq2);
    let dense_solution = dense.gaussian_elimination().unwrap();
    assert_eq!(dense_solution[0], 2);
    assert!(dense.check(&dense_solution));
}

#[test]
fn empty_system_solves_to_zeros() {
    let mut system = Modulo2System::new(5);
    let solution = system.gaussian_elimination().unwrap();
    assert_eq!(solution, vec![0, 0, 0, 0, 0]);
    assert!(system.check(&solution));

    let mut lazy = Modulo2System::new(5);
    let lazy_solution = lazy.lazy_gaussian_elimination_constructor().unwrap();
    assert_eq!(lazy_solution, vec![0, 0, 0, 0, 0]);
    assert!(lazy.check(&lazy_solution));
}

#[test]
fn add_equation_cancels_shared_variables() {
    let mut eq0 = Modulo2Equation::new(2, 11);
    eq0.add(1).add(4).add(9);
    let mut eq1 = Modulo2Equation::new(1, 11);
    eq1.add(1).add(4).add(10);
    eq0.add_equation(&eq1);
    assert_eq!(eq0.variables(), vec![9, 10]);
}

#[test]
fn check_distinguishes_solutions() {
    let mut system = Modulo2System::new(3);
    let mut eq = Modulo2Equation::new(3, 3);
    eq.add(0).add(2);
    system.add(eq);
    assert!(system.check(&vec![1, 0, 2]));
    assert!(system.check(&vec![3, 7, 0]));
    assert!(!system.check(&vec![1, 0, 1]));
}

#[test]
fn even_occurrences_cancel_in_adjacency() {
    // one equation with constant 5: variable 0 listed twice (cancels),
    // variable 1 listed once
    let mut var2_eq = vec![vec![0, 0], vec![0]];
    let c = vec![5];
    let order = vec![0, 1];
    let solution =
        Modulo2System::lazy_gaussian_elimination_fresh(&mut var2_eq, &c, &order).unwrap();
    assert_eq!(solution, vec![0, 5]);

    // the same system with the cancelled pair entirely absent
    let mut var2_eq_absent = vec![vec![], vec![0]];
    let solution_absent =
        Modulo2System::lazy_gaussian_elimination_fresh(&mut var2_eq_absent, &c, &order).unwrap();
    assert_eq!(solution, solution_absent);
}

#[test]
fn all_zero_rows_are_classified_by_constant() {
    let identity = Modulo2Equation::new(0, 3);
    assert!(identity.is_identity());
    assert!(!identity.is_unsolvable());
    assert!(identity.variables().is_empty());

    let contradiction = Modulo2Equation::new(7, 3);
    assert!(!contradiction.is_identity());
    assert!(contradiction.is_unsolvable());
}

#[test]
fn no_equations_means_all_zero_solution() {
    let mut var2_eq: Vec<Vec<usize>> = vec![vec![], vec![]];
    let c: Vec<usize> = vec![];
    let order = vec![0, 1];
    let solution =
        Modulo2System::lazy_gaussian_elimination_fresh(&mut var2_eq, &c, &order).unwrap();
    assert_eq!(solution, vec![0, 0]);
    assert_eq!(var2_eq, vec![vec![], vec![]]);
}

#[test]
fn dense_solver_accepts_all_zero_rows() {
    let mut system = Modulo2System::new(2);
    system.add(Modulo2Equation::new(0, 2));
    let mut eq = Modulo2Equation::new(3, 2);
    eq.add(0);
    system.add(eq);
    let solution = system.gaussian_elimination().unwrap();
    assert_eq!(solution[0], 3);
    assert!(system.check(&solution));

    let mut contradictory = Modulo2System::new(2);
    contradictory.add(Modulo2Equation::new(5, 2));
    assert_eq!(
        contradictory.gaussian_elimination(),
        Err(SolverError::Unsolvable)
    );
}

#[test]
fn adjacency_lists_are_left_canonical() {
    let mut var2_eq = vec![vec![0, 0, 0], vec![0, 0]];
    let c = vec![7];
    let order = vec![0, 1];
    let solution =
        Modulo2System::lazy_gaussian_elimination_fresh(&mut var2_eq, &c, &order).unwrap();
    // variable 0 survives (three occurrences), variable 1 cancels out
    assert_eq!(var2_eq, vec![vec![0], vec![]]);
    assert_eq!(solution, vec![7, 0]);
}

fn lcg(state: &mut u64) -> usize {
    *state = state
        .wrapping_mul(6364136223846793005)
        .wrapping_add(1442695040888963407);
    (*state >> 33) as usize
}

/// Whether a small system, given as (variables, constant) rows, has a
/// solution, decided bit by bit over all assignments of 0 and 1.
fn brute_force_solvable(rows: &[(Vec<usize>, usize)], n_vars: usize) -> bool {
    for bit in 0..8 {
        let mut bit_ok = false;
        for mask in 0..(1u32 << n_vars) {
            let mut all = true;
            for (vars, c) in rows {
                let mut acc = 0u32;
                for &v in vars {
                    acc ^= (mask >> v) & 1;
                }
                if acc != ((c >> bit) as u32) & 1 {
                    all = false;
                    break;
                }
            }
            if all {
                bit_ok = true;
                break;
            }
        }
        if !bit_ok {
            return false;
        }
    }
    true
}

#[test]
fn solvers_agree_with_brute_force_on_small_systems() {
    let n_vars = 10;
    let n_eqs = 6;
    let mut state = 12345u64;
    for _ in 0..300 {
        let mut rows: Vec<(Vec<usize>, usize)> = Vec::new();
        for _ in 0..n_eqs {
            let a = lcg(&mut state) % n_vars;
            let mut b = lcg(&mut state) % n_vars;
            while b == a {
                b = lcg(&mut state) % n_vars;
            }
            let mut c = lcg(&mut state) % n_vars;
            while c == a || c == b {
                c = lcg(&mut state) % n_vars;
            }
            let mut vars = vec![a, b, c];
            vars.sort();
            let constant = lcg(&mut state) % 100;
            rows.push((vars, constant));
        }
        let expected = brute_force_solvable(&rows, n_vars);

        let mut lazy = Modulo2System::new(n_vars);
        for (vars, constant) in &rows {
            let mut eq = Modulo2Equation::new(*constant, n_vars);
            for &v in vars {
                eq.add(v);
            }
            lazy.add(eq);
        }
        let mut dense = lazy.clone();

        let lazy_result = lazy.lazy_gaussian_elimination_constructor();
        assert_eq!(lazy_result.is_ok(), expected, "peeling solver, rows {:?}", rows);
        if let Ok(sol) = lazy_result {
            assert!(lazy.check(&sol));
        }

        let dense_result = dense.gaussian_elimination();
        assert_eq!(dense_result.is_ok(), expected, "dense solver, rows {:?}", rows);
        if let Ok(sol) = dense_result {
            assert!(dense.check(&sol));
        }
    }
}

#[test]
fn bit_vector_get_set_xor() {
    let mut a = BitVec::new(130);
    let mut b = BitVec::new(130);
    a.set(0, true);
    a.set(64, true);
    b.set(64, true);
    b.set(129, true);
    a.xor(&b);
    assert!(a.get(0));
    assert!(!a.get(64));
    assert!(a.get(129));
    assert!(!a.get(1));
    assert_eq!(a.len(), 130);
}

#[test]
fn scalar_product_skips_clear_bits() {
    let mut bits = BitVec::new(200);
    bits.set(3, true);
    bits.set(70, true);
    bits.set(199, true);
    let mut values = vec![0; 200];
    values[3] = 5;
    values[70] = 6;
    values[199] = 12;
    values[100] = 1000;
    assert_eq!(Modulo2Equation::scalar_product(&bits, &values), 5 ^ 6 ^ 12);

    let mut system = Modulo2System::new(200);
    let mut satisfied = Modulo2Equation::new(15, 200);
    satisfied.add(3).add(70).add(199);
    system.add(satisfied);
    assert!(system.check(&values));
}
