use pcmax::common::timeout::Timeout;
use pcmax::encoding::ilp_encoder::ILPEncoder;
use pcmax::encoding::ilp_encoding::mehdi_nizar_prec::MehdiNizarOrderEncoder;
use pcmax::encoding::ilp_encoding::naive::Naive;
use pcmax::encoding::pb_bdd_pysat::PbPysatEncoder;
use pcmax::encoding::problem_encoding::one_hot_encoding::OneHot;
use pcmax::problem_instance::partial_solution::PartialSolution;
use pcmax::problem_instance::problem_instance::ProblemInstance;
use std::collections::HashMap;

#[test]
fn arc_flow_program_lists_every_arc() {
    let ps = PartialSolution::new(ProblemInstance::new(2, 2, vec![2, 1]));
    let mut encoder = MehdiNizarOrderEncoder::new();
    assert!(encoder.encode(&ps, 2, 3, &Timeout::new(10_000_000)));
    let text = encoder.get_encoding();
    assert_eq!(
        text,
        "Minimize\nmakespan\nSubject To\nmakespan >= 2\n\
         makespan - 2 v_0_0 >= 0\nmakespan - 1 v_0_1 >= 0\nmakespan - 3 v_2_1 >= 0\n\
         v_0_0 + v_0_1 = 2\n\
         + v_0_1 >= 0\n- v_2_1 + v_0_0 >= 0\n\
         v_0_0 = 1\nv_0_1 + v_2_1 = 1\n\
         Binaries\n v_0_0 v_0_1 v_2_1\nGenerals\nmakespan\nEnd\n"
    );
    assert_eq!(encoder.get_encoding(), "");
}

#[test]
fn arc_flow_program_orders_twins() {
    let ps = PartialSolution::new(ProblemInstance::new(1, 2, vec![1, 1]));
    let mut encoder = MehdiNizarOrderEncoder::new_prec();
    assert!(encoder.encode(&ps, 1, 2, &Timeout::new(10_000_000)));
    assert_eq!(
        encoder.get_encoding(),
        "Minimize\nmakespan\nSubject To\nmakespan >= 1\n\
         makespan - 1 v_0_0 >= 0\nv_0_0 = 1 -> a_0 = 0\n\
         makespan - 1 v_0_1 >= 0\nv_0_1 = 1 -> a_1 = 0\n\
         makespan - 2 v_1_1 >= 0\nv_1_1 = 1 -> a_1 = 1\n\
         v_0_0 + v_0_1 = 1\n\
         - v_1_1 + v_0_0 + v_0_1 >= 0\n\
         v_0_0 = 1\nv_0_1 + v_1_1 = 1\n\
         a_0 - a_1 <= 0\n\
         Binaries\n v_0_0 v_0_1 v_1_1\nGenerals\nmakespan a_0 a_1\nEnd\n"
    );
}

#[test]
fn direct_program_sums_the_loads() {
    let ps = PartialSolution::new(ProblemInstance::new(2, 2, vec![3, 2]));
    let mut encoder = Naive::new();
    assert!(encoder.encode(&ps, 3, 5, &Timeout::new(10_000_000)));
    assert_eq!(
        encoder.get_encoding(),
        "Minimize\nmakespan\nSubject To\n\
         3 a_0_0 - makespan_0_1 = 0\nmakespan_0_1 + 2 a_1_0 - makespan_0_2 = 0\n\
         3 a_0_1 - makespan_1_1 = 0\nmakespan_1_1 + 2 a_1_1 - makespan_1_2 = 0\n\
         + a_0_0 + a_0_1 = 1\n+ a_1_0 + a_1_1 = 1\n\
         makespan_0_2 - makespan <= 0\nmakespan_1_2 - makespan <= 0\n\
         makespan >= 3\n\
         Binaries\n a_0_0 a_0_1 a_1_0 a_1_1\nGenerals\nmakespan\nEnd\n"
    );
}

#[test]
fn arc_flow_values_give_the_paths() {
    let instance = ProblemInstance::new(2, 2, vec![2, 1]);
    let mut values: HashMap<String, usize> = HashMap::new();
    values.insert("makespan".to_string(), 2);
    values.insert("v_0_0".to_string(), 1);
    values.insert("v_0_1".to_string(), 1);
    values.insert("v_2_1".to_string(), 0);
    let encoder = MehdiNizarOrderEncoder::new();
    let solution = encoder.decode(&instance, values.clone());
    assert_eq!(solution.assignment, vec![0, 1]);
    assert_eq!(solution.makespan, 2);
    let direct = Naive::new_prec();
    let again = direct.decode(&instance, values);
    assert_eq!(again.assignment, vec![0, 1]);
}

#[test]
fn pysat_request_lists_sizes_and_variables() {
    let ps = PartialSolution::new(ProblemInstance::new(2, 2, vec![3, 2]));
    let mut encoder = PbPysatEncoder::new();
    let text = encoder.request(&ps, 4);
    assert_eq!(text, "2 2 5 4\n3 2 \n1 2 \n3 4 \n");
    assert_eq!(encoder.get_num_vars(), 5);
    assert_eq!(encoder.get_position_var(1, 0), Some(3));
}

#[test]
fn pysat_reply_becomes_clauses() {
    let ps = PartialSolution::new(ProblemInstance::new(2, 2, vec![3, 2]));
    let mut encoder = PbPysatEncoder::new();
    let _ = encoder.request(&ps, 4);
    assert!(encoder.accept_reply(&b"1 -2\n3\r\n-4 +7".to_vec()));
    assert_eq!(encoder.get_num_vars(), 8);
    let out = encoder.output();
    let clauses: Vec<Vec<i32>> = out.unflatten().into_iter().map(|c| c.vars).collect();
    assert_eq!(clauses[0], vec![1, -2]);
    assert_eq!(clauses[1], vec![3]);
    assert_eq!(clauses[2], vec![-4, 7]);
    assert!(clauses.len() > 3);
}

#[test]
fn pysat_reply_that_is_not_clauses_is_refused() {
    let ps = PartialSolution::new(ProblemInstance::new(2, 2, vec![3, 2]));
    let mut encoder = PbPysatEncoder::new();
    let _ = encoder.request(&ps, 4);
    assert!(!encoder.accept_reply(&b"1  2\n".to_vec()));
    assert!(!encoder.accept_reply(&b"0\n".to_vec()));
    assert!(!encoder.accept_reply(&b"-2147483648\n".to_vec()));
    assert!(!encoder.accept_reply(&b"1\n\n2\n".to_vec()));
    assert!(!encoder.accept_reply(&b"x\n".to_vec()));
    assert_eq!(encoder.get_num_vars(), 5);
    assert!(encoder.accept_reply(&b"".to_vec()));
    assert_eq!(encoder.get_num_vars(), 6);
    assert!(encoder.accept_reply(&b"2147483647".to_vec()));
}
