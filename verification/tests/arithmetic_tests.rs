use pcmax::encoding::binary_arithmetic as first;
use pcmax::encoding::encoder::Clause;
use pcmax::encoding::encoder::Clauses;
use pcmax::encoding::encoder::VarNameGenerator;
use pcmax::encoding::sat_encoding::binary_arithmetic;
use pcmax::encoding::sat_encoding::binary_arithmetic::BinaryNumber;

#[test]
fn arithmetic_tests_binary_arithmetic_bit_length_test() {
    assert!(binary_arithmetic::number_bitlength(1) == 1);
    assert!(binary_arithmetic::number_bitlength(2) == 2);
    assert!(binary_arithmetic::number_bitlength(3) == 2);
    assert!(binary_arithmetic::number_bitlength(5) == 3);
    assert!(binary_arithmetic::number_bitlength(8) == 4);
    assert!(binary_arithmetic::number_bitlength(15) == 4);
    assert!(binary_arithmetic::number_bitlength(16) == 5);
    assert!(binary_arithmetic::number_bitlength(17) == 5);
}

#[test]
fn arithmetic_tests_binary_arithmetic_repr_test() {
    assert_eq!(binary_arithmetic::to_binary(4), vec![false, false, true]);
    assert_eq!(binary_arithmetic::to_binary(5), vec![true, false, true]);
    assert_eq!(binary_arithmetic::to_binary(15), vec![true, true, true, true]);
    assert_eq!(binary_arithmetic::to_binary(16), vec![false, false, false, false, true]);
    assert_eq!(binary_arithmetic::to_binary(17), vec![true, false, false, false, true]);
    assert_eq!(binary_arithmetic::to_binary(21), vec![true, false, true, false, true]);
}

#[test]
fn arithmetic_tests_binary_arithmetic_leq_test() {
    let mut name_generator = VarNameGenerator::new();
    let number = BinaryNumber::new(15, &mut name_generator);
    assert_eq!(number.bit_length, 4);
    let mut expected_clauses = Clauses::new();
    expected_clauses.add_clause(Clause { vars: vec![-2, -3] });
    expected_clauses.add_clause(Clause { vars: vec![-4] });
    assert_eq!(binary_arithmetic::at_most_k_encoding(&number, 5), expected_clauses);
}

#[test]
fn arithmetic_tests_binary_arithmeticn_equals_i_implies_m_in_j_encoding_test() {
    let mut name_generator = VarNameGenerator::new();
    let number1 = BinaryNumber::new(50, &mut name_generator);
    let number2 = BinaryNumber::new(31, &mut name_generator);
    assert_eq!(number1.bit_length, 6);
    assert_eq!(number2.bit_length, 5);

    let mut clauses = binary_arithmetic::n_equals_i_implies_m_in_j_encoding(&number1, 6, &number2, &vec![10, 20, 30]);
    clauses.add_many_clauses(&mut binary_arithmetic::_equals_constant_encoding(&number1, 6));
    clauses.add_clause(binary_arithmetic::not_equals_constant_encoding(&number2, 10));
    clauses.add_clause(binary_arithmetic::not_equals_constant_encoding(&number2, 20));
    clauses.add_clause(binary_arithmetic::not_equals_constant_encoding(&number2, 30));
    assert!(clauses.get_num_clauses() > 4);
}

#[test]
fn test_bdd_greedy_creation() {}

#[test]
fn test_bdd_eq_creation() {}

#[test]
fn variable_names_count_up_from_one() {
    let mut g = VarNameGenerator::new();
    assert_eq!(g.peek(), 1);
    assert_eq!(g.next(), 1);
    assert_eq!(g.next(), 2);
    g.jump_to(10);
    assert_eq!(g.peek(), 10);
}

#[test]
fn clauses_keep_the_flat_form() {
    let mut c = Clauses::new();
    c.add_clause(Clause { vars: vec![1, -2] });
    c.add_clause(Clause { vars: vec![3] });
    assert_eq!(c.get_num_clauses(), 2);
    assert_eq!(c.len(), 5);
    assert_eq!(c.as_flat(), &vec![1, -2, 0, 3, 0]);
    let back = c.unflatten();
    assert_eq!(back.len(), 2);
    assert_eq!(back[0].vars, vec![1, -2]);
    assert_eq!(back[1].vars, vec![3]);
    let mut d = Clauses::new();
    d.add_clause(Clause { vars: vec![4] });
    c.add_many_clauses(&mut d);
    assert_eq!(c.get_num_clauses(), 3);
    assert_eq!(c.as_flat(), &vec![1, -2, 0, 3, 0, 4, 0]);
    let walked: Vec<i32> = c.iter().copied().collect();
    assert_eq!(walked, vec![1, -2, 0, 3, 0, 4, 0]);
}

#[test]
fn pairwise_at_most_one_lists_every_pair() {
    let c = binary_arithmetic::pairwise_encoded_at_most_one(&vec![1, 2, 3]);
    assert_eq!(c.as_flat(), &vec![-1, -2, 0, -1, -3, 0, -2, -3, 0]);
    let a = binary_arithmetic::at_least_one_encoding(vec![1, 2, 3]);
    assert_eq!(a.vars, vec![1, 2, 3]);
}

#[test]
fn not_equals_constant_negates_the_set_bits() {
    let mut g = VarNameGenerator::new();
    let n = BinaryNumber::new(7, &mut g);
    let c = binary_arithmetic::not_equals_constant_encoding(&n, 5);
    assert_eq!(c.vars, vec![-1, 2, -3]);
}

#[test]
fn binary_number_takes_fresh_variables() {
    let mut g = VarNameGenerator::new();
    g.jump_to(5);
    let n = BinaryNumber::new(9, &mut g);
    assert_eq!(n.vars, vec![5, 6, 7, 8]);
    assert_eq!(n.max, 9);
    assert_eq!(g.peek(), 9);
}

#[test]
fn first_form_arithmetic_lists_its_clauses() {
    assert_eq!(first::number_bitlength(5), 3);
    assert_eq!(first::number_bitlength(0), 1);
    assert_eq!(first::to_binary(6), vec![false, true, true]);
    let mut g = VarNameGenerator::new();
    let n = first::BinaryNumber::new(5, &mut g);
    assert_eq!(n.vars, vec![1, 2, 3]);
    assert_eq!(g.peek(), 4);
    let at_most: Vec<Vec<i32>> = first::at_most_k_encoding(&n, 5).into_iter().map(|c| c.vars).collect();
    assert_eq!(at_most, vec![vec![-2, -3]]);
    let eq: Vec<Vec<i32>> = first::equals_constant_encoding(&n, 5).into_iter().map(|c| c.vars).collect();
    assert_eq!(eq, vec![vec![1], vec![-2], vec![3]]);
    assert_eq!(first::not_equals_constant_encoding(&n, 5).vars, vec![-1, 2, -3]);
}

#[test]
fn first_form_sum_ties_the_top_bit_to_the_last_carry() {
    let mut g = VarNameGenerator::new();
    let a = first::BinaryNumber::new(3, &mut g);
    let b = first::BinaryNumber::new(1, &mut g);
    assert_eq!(a.vars, vec![1, 2]);
    assert_eq!(b.vars, vec![3]);
    let (sum, clauses) = first::bounded_sum_encoding(&a, &b, 3, &mut g);
    assert_eq!(sum.vars, vec![4, 5, 8]);
    assert_eq!(sum.max, 4);
    assert_eq!(sum.bit_length, 3);
    assert_eq!(g.peek(), 9);
    assert_eq!(clauses.len(), 14);
    assert_eq!(clauses[0].vars, vec![-4, 1, 3]);
    assert_eq!(clauses[7].vars, vec![-5, 2, 8]);
    assert_eq!(clauses[11].vars, vec![-8, 2]);
    assert_eq!(clauses[12].vars, vec![-8, 7]);
    let (_, capped) = first::bounded_sum_encoding(&a, &b, 2, &mut g);
    assert_eq!(capped.len(), 15);
    assert_eq!(capped[14].vars, vec![-(g.peek() as i32 - 1)]);
}
