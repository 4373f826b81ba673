use pumpkin_solver::assignments::Assignments;
use pumpkin_solver::function::Function;
use pumpkin_solver::function::WeightedInteger;
use pumpkin_solver::function::WeightedLiteral;
use pumpkin_solver::literal::Literal;
use pumpkin_solver::predicate::DomainId;
use pumpkin_solver::predicate::Predicate;
use pumpkin_solver::reason::Reason;
use pumpkin_solver::solution::Solution;

fn literal(x: u32) -> Literal {
    Literal::new(Predicate::lower_bound(DomainId::new(x), 1))
}

fn weight_of(function: &Function, literal: Literal) -> Option<u64> {
    function
        .get_weighted_literals()
        .iter()
        .find(|term| term.literal == literal)
        .map(|term| term.weight)
}

#[test]
fn a_new_function_is_empty() {
    let function = Function::new();
    assert!(function.is_empty());
    assert_eq!(function.get_constant_term(), 0);
    assert!(function.get_weighted_literals().is_empty());
    assert!(function.get_weighted_integers().is_empty());
}

#[test]
fn weights_of_one_literal_add_up() {
    let mut function = Function::new();
    function.add_weighted_literal(literal(0), 3);
    function.add_weighted_literal(literal(1), 4);
    function.add_weighted_literal(literal(0), 5);
    assert_eq!(
        function.get_weighted_literals().to_vec(),
        vec![
            WeightedLiteral { literal: literal(0), weight: 8 },
            WeightedLiteral { literal: literal(1), weight: 4 }
        ]
    );
    assert_eq!(function.get_constant_term(), 0);
    assert!(!function.is_empty());
}

#[test]
fn a_smaller_weight_on_the_opposite_literal_moves_to_the_constant() {
    let mut function = Function::new();
    function.add_weighted_literal(literal(0).negate(), 7);
    function.add_weighted_literal(literal(0), 3);
    assert_eq!(weight_of(&function, literal(0).negate()), Some(4));
    assert_eq!(weight_of(&function, literal(0)), None);
    assert_eq!(function.get_constant_term(), 3);
}

#[test]
fn equal_weights_on_opposite_literals_cancel() {
    let mut function = Function::new();
    function.add_weighted_literal(literal(0).negate(), 7);
    function.add_weighted_literal(literal(0), 7);
    assert!(function.get_weighted_literals().is_empty());
    assert_eq!(function.get_constant_term(), 7);
    assert!(!function.is_empty());
}

#[test]
fn a_greater_weight_on_the_opposite_literal_keeps_the_difference() {
    let mut function = Function::new();
    function.add_weighted_literal(literal(0).negate(), 3);
    function.add_weighted_literal(literal(0), 10);
    assert_eq!(weight_of(&function, literal(0).negate()), None);
    assert_eq!(weight_of(&function, literal(0)), Some(7));
    assert_eq!(function.get_constant_term(), 3);
}

#[test]
fn integers_and_constants_add_up() {
    let mut function = Function::new();
    function.add_weighted_integer(DomainId::new(2), 3);
    function.add_weighted_integer(DomainId::new(1), 1);
    function.add_weighted_integer(DomainId::new(2), 2);
    function.add_constant_term(4);
    function.add_constant_term(5);
    assert_eq!(
        function.get_weighted_integers().to_vec(),
        vec![
            WeightedInteger { integer_variable: DomainId::new(2), weight: 5 },
            WeightedInteger { integer_variable: DomainId::new(1), weight: 1 }
        ]
    );
    assert_eq!(function.get_constant_term(), 9);
    let copy = function.clone();
    assert_eq!(copy.get_constant_term(), 9);
    assert_eq!(copy.get_weighted_integers().len(), 2);
}

#[test]
fn a_solution_is_evaluated_without_the_constant_term() {
    let mut function = Function::new();
    function.add_weighted_literal(literal(0), 3);
    function.add_weighted_literal(literal(1), 4);
    function.add_weighted_literal(literal(2).negate(), 10);
    function.add_weighted_integer(DomainId::new(3), 2);
    function.add_constant_term(100);

    let solution = Solution::new(vec![1, 0, 0, 6]);
    assert_eq!(solution.get_integer_value(DomainId::new(3)), 6);
    assert!(solution.get_literal_value(literal(0)));
    assert!(!solution.get_literal_value(literal(1)));
    assert_eq!(function.evaluate_solution(&solution), 3 + 10 + 12);
}

#[test]
fn an_assignment_is_evaluated_with_the_constant_term() {
    let mut assignments = Assignments::new();
    let a = assignments.grow(0, 1);
    let b = assignments.grow(0, 1);
    let x = assignments.grow(0, 9);
    assignments.assign(a, 1, Reason::RootLevel).expect("not empty");
    assignments.assign(b, 0, Reason::RootLevel).expect("not empty");
    assignments.assign(x, 6, Reason::RootLevel).expect("not empty");

    let mut function = Function::new();
    function.add_weighted_literal(Literal::new(Predicate::lower_bound(a, 1)), 3);
    function.add_weighted_literal(Literal::new(Predicate::lower_bound(b, 1)), 4);
    function.add_weighted_integer(x, 2);
    function.add_constant_term(100);
    assert_eq!(function.evaluate_assignment(&assignments), 100 + 3 + 12);

    let solution = Solution::from_assignments(&assignments);
    assert_eq!(solution.get_num_domains(), 3);
    assert_eq!(function.evaluate_solution(&solution), 15);
}
