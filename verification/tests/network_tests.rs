use pcmax::_failed_ideas::encoders::basic_with_fill_up::BasicWithFillUp;
use pcmax::bdd::bdd;
use pcmax::bdd::bdd_dyn;
use pcmax::bdd::bdd_dyn::RangeTable;
use pcmax::encoding::sat_encoding::bdd_inter_comp::BddInterComp;
use pcmax::common::timeout::Timeout;
use pcmax::encoding::basic_encoder::BasicEncoder;
use pcmax::encoding::binmerge_simp::BinmergeSimpEncoder;
use pcmax::encoding::encoder::Clause;
use pcmax::encoding::encoder::Clauses;
use pcmax::encoding::encoder::Encoder;
use pcmax::encoding::encoder::VarNameGenerator;
use pcmax::encoding::problem_encoding::one_hot_encoding::OneHot;
use pcmax::encoding::random_encoder::thin_allocations;
use pcmax::encoding::fill_up_lite::FillUpLite;
use pcmax::encoding::pb_bdd_native::PbNativeEncoder;
use pcmax::encoding::sat_encoding::binary_arithmetic;
use pcmax::encoding::sat_encoding::binary_arithmetic::BinaryNumber;
use pcmax::encoding::sat_encoding::binmerge_inter::BinmergeInterEncoder;
use pcmax::encoding::sat_encoding::binmerge_native::BinmergeEncoder;
use pcmax::encoding::sat_encoding::cardinality_networks;
use pcmax::encoding::sat_encoding::mehdi_nizar_sat::MehdiNizarSatEncoder;
use pcmax::problem_instance::partial_solution::PartialSolution;
use pcmax::problem_instance::problem_instance::ProblemInstance;
use rand::rngs::ThreadRng;
use rand::seq::SliceRandom;
use rand::Rng;
use rand::SeedableRng;

/// Unit propagation to a fixed point; `false` on a conflict.
fn propagate(clauses: &Vec<Vec<i32>>, assign: &mut Vec<i8>) -> bool {
    loop {
        let mut changed = false;
        for c in clauses {
            let mut satisfied = false;
            let mut unassigned = 0;
            let mut last = 0i32;
            for &l in c {
                let v = l.unsigned_abs() as usize;
                let val = assign[v];
                if val == 0 {
                    unassigned += 1;
                    last = l;
                } else if (val > 0) == (l > 0) {
                    satisfied = true;
                    break;
                }
            }
            if satisfied {
                continue;
            }
            if unassigned == 0 {
                return false;
            }
            if unassigned == 1 {
                assign[last.unsigned_abs() as usize] = if last > 0 { 1 } else { -1 };
                changed = true;
            }
        }
        if !changed {
            return true;
        }
    }
}

fn dpll(clauses: &Vec<Vec<i32>>, assign: &mut Vec<i8>) -> bool {
    if !propagate(clauses, assign) {
        return false;
    }
    let mut pick = 0usize;
    for c in clauses {
        let sat = c.iter().any(|&l| {
            let val = assign[l.unsigned_abs() as usize];
            val != 0 && (val > 0) == (l > 0)
        });
        if !sat {
            if let Some(&l) = c.iter().find(|&&l| assign[l.unsigned_abs() as usize] == 0) {
                pick = l.unsigned_abs() as usize;
                break;
            }
        }
    }
    if pick == 0 {
        return true;
    }
    for value in [-1i8, 1i8] {
        let mut trial = assign.clone();
        trial[pick] = value;
        if dpll(clauses, &mut trial) {
            *assign = trial;
            return true;
        }
    }
    false
}

/// A model of the clauses over variables `1..num_vars`, as signed literals, if any.
fn solve(clauses: &Clauses, num_vars: usize) -> Option<Vec<i32>> {
    let cs: Vec<Vec<i32>> = clauses.unflatten().into_iter().map(|c| c.vars).collect();
    let mut top = num_vars;
    for c in &cs {
        for &l in c {
            top = top.max(l.unsigned_abs() as usize + 1);
        }
    }
    let mut assign = vec![0i8; top + 1];
    if dpll(&cs, &mut assign) {
        Some((1..top).map(|v| if assign[v] > 0 { v as i32 } else { -(v as i32) }).collect())
    } else {
        None
    }
}

fn unit(l: i32) -> Clause {
    Clause { vars: vec![l] }
}

#[test]
fn arithmetic_tests_binary_arithmetic_sum_test() {
    let mut name_generator = VarNameGenerator::new();
    let number1 = BinaryNumber::new(8, &mut name_generator);
    let number2 = BinaryNumber::new(7, &mut name_generator);
    assert_eq!(number1.bit_length, 4);
    assert_eq!(number2.bit_length, 3);

    for i in 1..50usize {
        for j in 1..50usize {
            let mut name_generator = VarNameGenerator::new();
            let number1 = BinaryNumber::new(i, &mut name_generator);
            let number2 = BinaryNumber::new(j, &mut name_generator);

            let mut clauses = binary_arithmetic::_equals_constant_encoding(&number1, i);
            clauses.add_many_clauses(&mut binary_arithmetic::_equals_constant_encoding(&number2, j));
            let (sum, mut sum_clauses) =
                binary_arithmetic::bounded_sum_encoding(&number1, &number2, 10, &mut name_generator);
            clauses.add_many_clauses(&mut sum_clauses);

            let mut sat_clauses = clauses.clone();
            let mut unsat_clauses = clauses;
            sat_clauses.add_many_clauses(&mut binary_arithmetic::at_most_k_encoding(&sum, i + j));
            unsat_clauses.add_many_clauses(&mut binary_arithmetic::at_most_k_encoding(&sum, i + j - 1));

            assert!(solve(&sat_clauses, 100).is_some());
            assert!(solve(&unsat_clauses, 100).is_none());
        }
    }
}

#[test]
fn arithmetic_tests_simp_sorter_test() {
    let mut rng = ThreadRng::default();
    for i in 1..10usize {
        for j in 1..i + 1 {
            let mut clauses = Clauses::new();
            let mut name_generator = VarNameGenerator::new();
            let mut vars: Vec<usize> = (0..i).map(|_| name_generator.next()).collect();
            for k in 0..j {
                clauses.add_clause(unit(vars[k] as i32));
            }
            vars.shuffle(&mut rng);

            let mut sat_clauses = clauses.clone();
            let mut unsat_clauses = clauses;

            let (mut sorted_clauses, sorted_vars) = cardinality_networks::basic_sort(&vars, j, &mut name_generator);
            sat_clauses.add_many_clauses(&mut sorted_clauses);

            let (mut sorted_clauses, _) = cardinality_networks::basic_sort(&vars, j - 1, &mut name_generator);
            unsat_clauses.add_many_clauses(&mut sorted_clauses);

            let sat = solve(&sat_clauses, name_generator.peek());
            let unsat = solve(&unsat_clauses, name_generator.peek());
            assert!(sat.is_some());
            assert!(unsat.is_none());

            let assignment = sat.unwrap();
            for k in 0..j {
                assert!(assignment.contains(&(sorted_vars[k] as i32)));
            }
        }
    }
}

#[test]
fn arithmetic_tests_merge_test() {
    let mut rng = ThreadRng::default();
    for i in 0..20usize {
        for j in 0..20usize {
            let mut clauses = Clauses::new();
            let mut var_name_generator = VarNameGenerator::new();
            let vars1: Vec<usize> = (0..i).map(|_| var_name_generator.next()).collect();
            let vars2: Vec<usize> = (0..j).map(|_| var_name_generator.next()).collect();

            let num_true_1 = if i == 0 { 0 } else { rng.gen_range(0..i) };
            let num_true_2 = if j == 0 { 0 } else { rng.gen_range(0..j) };
            for k in 0..num_true_1 {
                clauses.add_clause(unit(vars1[k] as i32));
            }
            for k in 0..num_true_2 {
                clauses.add_clause(unit(vars2[k] as i32));
            }

            let (mut merge_clauses, merged_vars) =
                cardinality_networks::basic_merge(&vars1, &vars2, 10, &mut var_name_generator);
            clauses.add_many_clauses(&mut merge_clauses);
            let sol = solve(&clauses, var_name_generator.peek());
            if num_true_1 + num_true_2 > 10 {
                assert!(sol.is_none());
            } else {
                assert!(sol.is_some());
                let assignment = sol.unwrap();
                for k in 0..num_true_1 + num_true_2 {
                    assert!(assignment.contains(&(merged_vars[k] as i32)));
                }
            }
        }
    }
}

#[test]
fn arithmetic_tests_half_merge_test() {
    let mut rng = ThreadRng::default();
    for i in 0..20usize {
        for j in 0..20usize {
            let mut clauses = Clauses::new();
            let mut var_name_generator = VarNameGenerator::new();
            let vars1: Vec<usize> = (0..i).map(|_| var_name_generator.next()).collect();
            let vars2: Vec<usize> = (0..j).map(|_| var_name_generator.next()).collect();

            let num_true_1 = if i == 0 { 0 } else { rng.gen_range(0..i) };
            let num_true_2 = if j == 0 { 0 } else { rng.gen_range(0..j) };
            for k in 0..num_true_1 {
                clauses.add_clause(unit(vars1[k] as i32));
            }
            for k in 0..num_true_2 {
                clauses.add_clause(unit(vars2[k] as i32));
            }

            let (mut merge_clauses, merged_vars) =
                cardinality_networks::half_merge(&vars1, &vars2, 10, &mut var_name_generator);
            clauses.add_many_clauses(&mut merge_clauses);
            let sol = solve(&clauses, var_name_generator.peek());
            if num_true_1 + num_true_2 > 10 {
                assert!(sol.is_none());
            } else {
                assert!(sol.is_some());
                let assignment = sol.unwrap();
                for k in 0..num_true_1 + num_true_2 {
                    assert!(assignment.contains(&(merged_vars[k] as i32)));
                }
            }
        }
    }
}

#[test]
fn arithmetic_tests_half_sorter_test() {
    let mut rng = ThreadRng::default();
    for i in 1..10usize {
        for j in 1..i + 1 {
            let mut clauses = Clauses::new();
            let mut name_generator = VarNameGenerator::new();
            let mut vars: Vec<usize> = (0..i).map(|_| name_generator.next()).collect();
            for k in 0..j {
                clauses.add_clause(unit(vars[k] as i32));
            }
            vars.shuffle(&mut rng);

            let mut sat_clauses = clauses.clone();
            let mut unsat_clauses = clauses;

            let (mut sorted_clauses, sorted_vars) = cardinality_networks::half_sort(&vars, j, &mut name_generator);
            sat_clauses.add_many_clauses(&mut sorted_clauses);

            let (mut sorted_clauses, _) = cardinality_networks::basic_sort(&vars, j - 1, &mut name_generator);
            unsat_clauses.add_many_clauses(&mut sorted_clauses);

            let sat = solve(&sat_clauses, name_generator.peek());
            let unsat = solve(&unsat_clauses, name_generator.peek());
            assert!(sat.is_some());
            assert!(unsat.is_none());

            let assignment = sat.unwrap();
            for k in 0..j {
                assert!(assignment.contains(&(sorted_vars[k] as i32)));
            }
        }
    }
}

#[test]
fn bdd_tests_test_bdd_creation() {
    let a = bdd::leq(
        &vec![0, 1, 2, 3, 4],
        &vec![1, 2, 3, 4, 5],
        &vec![49, 37, 21, 19, 7],
        70,
        false,
        0,
        &Timeout::new(10_000_000),
    );
    assert!(a.is_some());
}

#[test]
fn test_bdd_accuracy() {
    let mut rng = ThreadRng::default();
    for i in 1..30usize {
        let max: usize = i * rng.gen_range(1..100);
        let job_sizes: Vec<usize> = (0..i).map(|_| rng.gen_range(1..100.min(max + 1))).collect();
        let bdd = bdd::leq(
            &(0..i).collect::<Vec<usize>>(),
            &(1..i + 1).collect::<Vec<usize>>(),
            &job_sizes,
            max,
            false,
            0,
            &Timeout::new(5_000_000),
        )
        .unwrap();

        for _ in 0..20 {
            let mut sum = 0;
            let mut current_node = bdd.nodes.len() - 1;
            while sum <= max && current_node > 1 {
                let take: bool = rng.gen_bool(0.5);
                if take {
                    sum += job_sizes[bdd.nodes[current_node].job_num];
                    current_node = bdd.nodes[current_node].right_child;
                } else {
                    current_node = bdd.nodes[current_node].left_child;
                }
            }
            if current_node == 1 {
                assert!(sum <= max);
            } else {
                assert!(sum > max && current_node == 0);
            }
        }
    }
}

/// The loads of a schedule over `m` processors.
fn loads(sizes: &[usize], assignment: &[usize], m: usize) -> Vec<usize> {
    let mut l = vec![0; m];
    for (j, &p) in assignment.iter().enumerate() {
        l[p] += sizes[j];
    }
    l
}

/// Encodes "makespan at most `makespan`" for three jobs of size 5 on two processors,
/// solves it, and checks a found schedule against the bound.
fn check_encoder<E: Encoder>(mut make: impl FnMut() -> E) {
    let sizes = vec![5usize, 5, 5];
    for (makespan, feasible) in [(9usize, false), (10usize, true), (15usize, true)] {
        let instance = ProblemInstance::new(2, 3, sizes.clone());
        let ps = PartialSolution::new(instance.clone());
        let mut encoder = make();
        assert!(encoder.basic_encode(&ps, makespan, &Timeout::new(10_000_000), usize::MAX));
        let clauses = encoder.output();
        let model = solve(&clauses, encoder.get_num_vars());
        assert_eq!(model.is_some(), feasible, "makespan {}", makespan);
        if let Some(model) = model {
            let solution = encoder.decode(&instance, &model);
            assert_eq!(solution.assignment.len(), 3);
            for load in loads(&sizes, &solution.assignment, 2) {
                assert!(load <= makespan);
            }
        }
    }
}

#[test]
fn binmerge_encodes_exactly_the_feasible_makespans() {
    check_encoder(BinmergeEncoder::new);
}

#[test]
fn binmerge_simp_encodes_exactly_the_feasible_makespans() {
    check_encoder(BinmergeSimpEncoder::new);
}

#[test]
fn binmerge_inter_encodes_exactly_the_feasible_makespans() {
    check_encoder(BinmergeInterEncoder::new);
}

#[test]
fn fill_up_lite_encodes_exactly_the_feasible_makespans() {
    check_encoder(FillUpLite::new);
}

#[test]
fn fill_up_lite_adds_a_clause_where_the_room_is_in_range() {
    let instance = ProblemInstance::new(2, 3, vec![5, 5, 5]);
    let ps = PartialSolution::new(instance);
    let mut encoder = FillUpLite::new();
    assert!(encoder.basic_encode(&ps, 10, &Timeout::new(10_000_000), usize::MAX));
    assert!(encoder.clauses.get_num_clauses() > 0);
    let fill = encoder.clauses.get_num_clauses();
    let basic_only = {
        let mut b = BasicEncoder::new();
        assert!(b.basic_encode(&ps, 10, &Timeout::new(10_000_000), usize::MAX));
        b.output().get_num_clauses()
    };
    assert_eq!(encoder.output().get_num_clauses(), fill + basic_only);
}

#[test]
fn basic_encodes_exactly_the_feasible_makespans() {
    check_encoder(BasicEncoder::new);
}

#[test]
fn pb_native_encodes_exactly_the_feasible_makespans() {
    check_encoder(PbNativeEncoder::new);
}

#[test]
fn mehdi_nizar_encodes_exactly_the_feasible_makespans() {
    check_encoder(MehdiNizarSatEncoder::new);
}

#[test]
fn bdd_inter_comp_encodes_exactly_the_feasible_makespans() {
    check_encoder(BddInterComp::new);
    check_encoder(BddInterComp::new_inter_only);
    check_encoder(BddInterComp::new_basic);
}

#[test]
fn test_bdd_dyn_accuracy() {
    let mut rng = ThreadRng::default();
    for i in 1..60usize {
        let max: usize = i * rng.gen_range(1..100);
        let job_sizes: Vec<usize> = (0..i).map(|_| rng.gen_range(1..100.min(max + 1))).collect();
        let jobs = (0..i).collect::<Vec<usize>>();
        let range_table = RangeTable::new(&jobs, &job_sizes, max);
        let bdd = bdd_dyn::DynBDD::leq(
            &jobs,
            &(1..i + 1).collect::<Vec<usize>>(),
            &job_sizes,
            max,
            false,
            0,
            &range_table,
            &Timeout::new(5_000_000),
        )
        .unwrap();

        for _ in 0..40 {
            let mut sum = 0;
            let mut current_node = bdd.nodes.len() - 1;
            while sum <= max && current_node > 1 {
                let take: bool = rng.gen_bool(0.5);
                if take {
                    sum += job_sizes[bdd.nodes[current_node].job_num];
                    current_node = bdd.nodes[current_node].right_child;
                } else {
                    current_node = bdd.nodes[current_node].left_child;
                }
            }
            if current_node == 1 {
                assert!(sum <= max);
            } else {
                assert!(sum > max && current_node == 0);
            }
        }
    }
}

#[test]
fn range_table_numbers_the_last_job_by_room() {
    // last job of size 3 within 5: sums 0..=2 leave room (range 0), 3..=5 do not (range 1)
    let table = RangeTable::new(&vec![7, 8], &vec![2, 3], 5);
    assert_eq!(table.get_range(8, 0), Some(0));
    assert_eq!(table.get_range(8, 2), Some(0));
    assert_eq!(table.get_range(8, 3), Some(1));
    assert_eq!(table.get_range(8, 5), Some(1));
    assert_eq!(table.get_range(9, 0), None);
    // the first job's ranges are numbered after the two of the last job
    let r0 = table.get_range(7, 0).unwrap();
    assert!(r0 >= 2);
    assert!(table.get_range(7, 5).unwrap() >= r0);
}

#[test]
fn binmerge_fails_when_the_clause_budget_is_spent() {
    let instance = ProblemInstance::new(2, 3, vec![5, 5, 5]);
    let ps = PartialSolution::new(instance);
    let mut encoder = BinmergeEncoder::new();
    assert!(!encoder.basic_encode(&ps, 10, &Timeout::new(10_000_000), 0));
}

#[test]
fn basic_with_fill_up_needs_the_kept_table() {
    let instance = ProblemInstance::new(2, 3, vec![5, 5, 5]);
    let ps = PartialSolution::new(instance);
    let mut fresh = BasicWithFillUp::new();
    assert!(!fresh.basic_encode(&ps, 10, &Timeout::new(10_000_000), usize::MAX));
    let mut encoder = BasicWithFillUp::new();
    encoder.has_already_been_assigned_vars = vec![vec![Some(1), Some(2)]; 3];
    assert!(encoder.basic_encode(&ps, 10, &Timeout::new(10_000_000), usize::MAX));
    let table = encoder.has_already_been_assigned_vars.clone();
    assert_eq!(table.len(), 3);
    for job in 0..3 {
        assert_eq!(table[job][0], encoder.basic.get_position_var(job, 0));
    }
    let first = table[0][1].unwrap();
    assert_eq!(table[1][1], Some(first + 1));
    assert_eq!(table[2][1], Some(first + 2));
    assert_eq!(encoder.get_num_vars(), first + 3);
    let own = encoder.clauses.get_num_clauses();
    assert!(own >= 9);
    let mut basic = BasicEncoder::new();
    assert!(basic.basic_encode(&ps, 10, &Timeout::new(10_000_000), usize::MAX));
    assert_eq!(encoder.output().get_num_clauses(), own + basic.output().get_num_clauses());
}

#[test]
fn thinning_keeps_the_first_processor_of_each_job() {
    let ps = PartialSolution::new(ProblemInstance::new(3, 4, vec![5, 4, 3, 2]));
    let mut rng = rand::rngs::StdRng::seed_from_u64(7);
    let thin = thin_allocations(&ps, 0, &mut rng);
    assert_eq!(thin.instance.job_sizes, vec![5, 4, 3, 2]);
    assert_eq!(thin.assigned_makespan, vec![0, 0, 0]);
    for row in &thin.possible_allocations {
        assert!(!row.is_empty() && row.len() <= 3);
        assert_eq!(row[0], 0);
    }
    let kept = thin_allocations(&ps, usize::MAX, &mut rng);
    assert_eq!(kept.possible_allocations, ps.possible_allocations);
}

/// Every schedule within the makespan, fixed on the position variables, extends to a model
/// of the basic encoding; one beyond the makespan does not.
#[test]
fn basic_schedules_within_the_makespan_are_models() {
    let sizes = vec![5usize, 4, 3, 2];
    let instance = ProblemInstance::new(3, 4, sizes.clone());
    let ps = PartialSolution::new(instance.clone());
    let mut encoder = BasicEncoder::new();
    assert!(encoder.basic_encode(&ps, 7, &Timeout::new(10_000_000), usize::MAX));
    let num_vars = encoder.get_num_vars();
    let mut vars = vec![vec![0usize; 3]; 4];
    for j in 0..4 {
        for p in 0..3 {
            vars[j][p] = encoder.get_position_var(j, p).unwrap();
        }
    }
    let clauses = encoder.output();
    let mut checked = 0;
    for code in 0..81usize {
        let schedule: Vec<usize> = (0..4).map(|j| (code / 3usize.pow(j as u32)) % 3).collect();
        let fits = loads(&sizes, &schedule, 3).iter().all(|l| *l <= 7);
        let mut fixed = Clauses::new();
        for c in clauses.unflatten() {
            fixed.add_clause(c);
        }
        for j in 0..4 {
            for p in 0..3 {
                let v = vars[j][p] as i32;
                fixed.add_clause(unit(if schedule[j] == p { v } else { -v }));
            }
        }
        assert_eq!(solve(&fixed, num_vars).is_some(), fits, "schedule {:?}", schedule);
        checked += fits as usize;
    }
    assert!(checked > 0);
}

/// The totalizer counts: with its inputs fixed, output `j` is true exactly when more than
/// `j` inputs are, and more true inputs than its bound leave no model.
#[test]
fn basic_sort_counts_its_inputs() {
    for pattern in 0..32usize {
        let mut name_generator = VarNameGenerator::new();
        let vars: Vec<usize> = (0..5).map(|_| name_generator.next()).collect();
        let (mut clauses, outs) = cardinality_networks::basic_sort(&vars, 3, &mut name_generator);
        let count = (0..5).filter(|k| pattern >> k & 1 == 1).count();
        for k in 0..5 {
            let v = vars[k] as i32;
            clauses.add_clause(unit(if pattern >> k & 1 == 1 { v } else { -v }));
        }
        let model = solve(&clauses, name_generator.peek());
        assert_eq!(model.is_some(), count <= 3, "pattern {}", pattern);
        if let Some(model) = model {
            for (j, o) in outs.iter().enumerate() {
                assert_eq!(model[*o - 1] > 0, count > j, "pattern {} output {}", pattern, j);
            }
        }
    }
}

/// Merging two counts whose true entries come first: output `t` is forced true when more
/// than `t` inputs are, and more true inputs than the bound leave no model.
#[test]
fn basic_merge_adds_sorted_counts() {
    for c1 in 0..=3usize {
        for c2 in 0..=2usize {
            let mut name_generator = VarNameGenerator::new();
            let v1: Vec<usize> = (0..3).map(|_| name_generator.next()).collect();
            let v2: Vec<usize> = (0..2).map(|_| name_generator.next()).collect();
            let (mut clauses, outs) = cardinality_networks::basic_merge(&v1, &v2, 3, &mut name_generator);
            for (k, v) in v1.iter().enumerate() {
                clauses.add_clause(unit(if k < c1 { *v as i32 } else { -(*v as i32) }));
            }
            for (k, v) in v2.iter().enumerate() {
                clauses.add_clause(unit(if k < c2 { *v as i32 } else { -(*v as i32) }));
            }
            let model = solve(&clauses, name_generator.peek());
            assert_eq!(model.is_some(), c1 + c2 <= 3, "counts {} {}", c1, c2);
            if let Some(model) = model {
                for (t, o) in outs.iter().enumerate() {
                    if c1 + c2 > t {
                        assert!(model[*o - 1] > 0, "counts {} {} output {}", c1, c2, t);
                    }
                }
            }
        }
    }
}

/// The parity of a count whose true entries come first: the exact parity output is true
/// exactly when an odd number of inputs is, given some true input, and the one-way parity
/// output is forced true by an odd count.
#[test]
fn sorted_parities_follow_the_count() {
    for c in 0..=5usize {
        for exact in [false, true] {
            let mut name_generator = VarNameGenerator::new();
            let vars: Vec<usize> = (0..5).map(|_| name_generator.next()).collect();
            let (mut clauses, parity) = if exact {
                cardinality_networks::sorted_exact_parity(&vars, &mut name_generator)
            } else {
                cardinality_networks::sorted_parity(&vars, &mut name_generator)
            };
            for (k, v) in vars.iter().enumerate() {
                clauses.add_clause(unit(if k < c { *v as i32 } else { -(*v as i32) }));
            }
            let model = solve(&clauses, name_generator.peek());
            assert!(model.is_some(), "count {}", c);
            let model = model.unwrap();
            if c % 2 == 1 {
                assert!(model[parity - 1] > 0, "count {} exact {}", c, exact);
            } else if exact && c >= 1 {
                assert!(model[parity - 1] < 0, "count {}", c);
            }
        }
    }
}
