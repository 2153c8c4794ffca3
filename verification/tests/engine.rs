use microml::{BinaryOp, Calc, Provenance, Tape, UnaryOp, Value};

fn calc(c: Calc<f64>) -> f64 {
    match c {
        Calc::Zero => 0.0,
        Calc::One => 1.0,
        Calc::Epsilon => 1e-15,
        Calc::Lowest => f64::MIN,
        Calc::Count(n) => n as f64,
        Calc::Neg(a) => -a,
        Calc::Ln(a) => a.ln(),
        Calc::Exp(a) => a.exp(),
        Calc::Add(a, b) => a + b,
        Calc::Sub(a, b) => a - b,
        Calc::Mul(a, b) => a * b,
        Calc::Div(a, b) => a / b,
    }
}

fn exceeds(a: f64, b: f64) -> bool {
    a > b
}

fn ids(values: &[Value]) -> Vec<usize> {
    values.iter().map(|v| v.id).collect()
}

#[test]
fn value_test_mul() {
    let mut tape = Tape::new(calc, exceeds);
    let a = Value::new(2.0, &mut tape);
    let b = Value::new(2.0, &mut tape);
    let c = a.mul(&b, &mut tape);
    c.backward(&mut tape);

    println!("{:#?}", c);

    assert_eq!(c.data(&tape), 4.0);
    assert_eq!(a.grad(&tape), 2.0);
    assert_eq!(b.grad(&tape), 2.0);
    assert_eq!(c.grad(&tape), 1.0);
}

#[test]
fn lib_test_mul() {
    let mut tape = Tape::new(calc, exceeds);
    let a = Value::new(2.0, &mut tape);
    let b = Value::new(2.0, &mut tape);
    let c = a.mul(&b, &mut tape);
    c.backward(&mut tape);

    println!("{:#?}", c);

    assert_eq!(c.data(&tape), 4.0);
    assert_eq!(tape.len(), 3);
}

#[test]
fn new_leaf_has_its_value_and_no_gradient() {
    let mut tape = Tape::new(calc, exceeds);
    assert_eq!(tape.len(), 0);
    let a = Value::new(-3.25, &mut tape);
    assert_eq!(a.id, 0);
    assert_eq!(a.data(&tape), -3.25);
    assert_eq!(a.grad(&tape), 0.0);
    assert_eq!(tape.node(a).provenance, Provenance::Leaf);
    assert_eq!(tape.len(), 1);
}

#[test]
fn arithmetic_computes_eagerly_and_records_its_operands() {
    let mut tape = Tape::new(calc, exceeds);
    let a = Value::new(6.0, &mut tape);
    let b = Value::new(1.5, &mut tape);
    let sum = a.add(&b, &mut tape);
    let difference = a.sub(&b, &mut tape);
    let product = a.mul(&b, &mut tape);
    let quotient = a.div(&b, &mut tape);
    assert_eq!(sum.data(&tape), 7.5);
    assert_eq!(difference.data(&tape), 4.5);
    assert_eq!(product.data(&tape), 9.0);
    assert_eq!(quotient.data(&tape), 4.0);
    assert_eq!(
        tape.node(sum).provenance,
        Provenance::Binary { op: BinaryOp::Add, left: a, right: b }
    );
    assert_eq!(
        tape.node(difference).provenance,
        Provenance::Binary { op: BinaryOp::Sub, left: a, right: b }
    );
    assert_eq!(
        tape.node(product).provenance,
        Provenance::Binary { op: BinaryOp::Mul, left: a, right: b }
    );
    assert_eq!(
        tape.node(quotient).provenance,
        Provenance::Binary { op: BinaryOp::Div, left: a, right: b }
    );
    assert_eq!(ids(&[sum, difference, product, quotient]), vec![2, 3, 4, 5]);
    assert_eq!(a.data(&tape), 6.0);
    assert_eq!(b.data(&tape), 1.5);
    assert_eq!(quotient.grad(&tape), 0.0);
}

#[test]
fn log_is_the_natural_logarithm() {
    let mut tape = Tape::new(calc, exceeds);
    let a = Value::new(std::f64::consts::E, &mut tape);
    let l = a.log(&mut tape);
    assert_eq!(l.data(&tape), 1.0);
    assert_eq!(
        tape.node(l).provenance,
        Provenance::Unary { op: UnaryOp::Log, operand: a }
    );
    let eight = Value::new(8.0, &mut tape);
    let l8 = eight.log(&mut tape);
    assert!((l8.data(&tape) - 2.0794415416798357).abs() < 1e-12);
}

#[test]
fn exp_raises_e() {
    let mut tape = Tape::new(calc, exceeds);
    let a = Value::new(1.0, &mut tape);
    let e = a.exp(&mut tape);
    assert_eq!(e.data(&tape), std::f64::consts::E);
    assert_eq!(
        tape.node(e).provenance,
        Provenance::Unary { op: UnaryOp::Exp, operand: a }
    );
}

#[test]
fn division_by_zero_is_not_guarded() {
    let mut tape = Tape::new(calc, exceeds);
    let a = Value::new(1.0, &mut tape);
    let z = Value::new(0.0, &mut tape);
    let q = a.div(&z, &mut tape);
    assert_eq!(q.data(&tape), f64::INFINITY);
    let n = z.div(&z, &mut tape);
    assert!(n.data(&tape).is_nan());
    q.backward(&mut tape);
    assert_eq!(a.grad(&tape), f64::INFINITY);
}

#[test]
fn log_of_a_value_that_is_not_positive_is_not_guarded() {
    let mut tape = Tape::new(calc, exceeds);
    let z = Value::new(0.0, &mut tape);
    let m = Value::new(-1.0, &mut tape);
    let lz = z.log(&mut tape);
    let lm = m.log(&mut tape);
    assert_eq!(lz.data(&tape), f64::NEG_INFINITY);
    assert!(lm.data(&tape).is_nan());
}

#[test]
fn max_and_min_pick_by_comparison() {
    let mut tape = Tape::new(calc, exceeds);
    let a = Value::new(2.0, &mut tape);
    let b = Value::new(5.0, &mut tape);
    let hi = a.max(&b, &mut tape);
    let lo = a.min(&b, &mut tape);
    assert_eq!(hi.data(&tape), 5.0);
    assert_eq!(lo.data(&tape), 2.0);
    let hi2 = b.max(&a, &mut tape);
    let lo2 = b.min(&a, &mut tape);
    assert_eq!(hi2.data(&tape), 5.0);
    assert_eq!(lo2.data(&tape), 2.0);
}

#[test]
fn max_routes_the_gradient_to_the_greater_operand() {
    let mut tape = Tape::new(calc, exceeds);
    let a = Value::new(2.0, &mut tape);
    let b = Value::new(5.0, &mut tape);
    let hi = a.max(&b, &mut tape);
    hi.backward(&mut tape);
    assert_eq!(a.grad(&tape), 0.0);
    assert_eq!(b.grad(&tape), 1.0);
}

#[test]
fn min_routes_the_gradient_to_the_lesser_operand() {
    let mut tape = Tape::new(calc, exceeds);
    let a = Value::new(2.0, &mut tape);
    let b = Value::new(5.0, &mut tape);
    let lo = a.min(&b, &mut tape);
    lo.backward(&mut tape);
    assert_eq!(a.grad(&tape), 1.0);
    assert_eq!(b.grad(&tape), 0.0);
    let lo2 = b.min(&a, &mut tape);
    lo2.backward(&mut tape);
    assert_eq!(a.grad(&tape), 2.0);
    assert_eq!(b.grad(&tape), 0.0);
}

#[test]
fn on_a_tie_the_left_operand_wins() {
    let mut tape = Tape::new(calc, exceeds);
    let a = Value::new(3.0, &mut tape);
    let b = Value::new(3.0, &mut tape);
    let hi = a.max(&b, &mut tape);
    hi.backward(&mut tape);
    assert_eq!(hi.data(&tape), 3.0);
    assert_eq!(a.grad(&tape), 1.0);
    assert_eq!(b.grad(&tape), 0.0);

    let mut tape = Tape::new(calc, exceeds);
    let a = Value::new(3.0, &mut tape);
    let b = Value::new(3.0, &mut tape);
    let lo = a.min(&b, &mut tape);
    lo.backward(&mut tape);
    assert_eq!(lo.data(&tape), 3.0);
    assert_eq!(a.grad(&tape), 1.0);
    assert_eq!(b.grad(&tape), 0.0);
}

#[test]
fn relu_is_a_max_node_over_a_leaf_zero() {
    let mut tape = Tape::new(calc, exceeds);
    let a = Value::new(-2.0, &mut tape);
    let r = a.relu(&mut tape);
    assert_eq!(r.data(&tape), 0.0);
    assert_eq!(tape.len(), 3);
    let floor = Value { id: 1 };
    assert_eq!(tape.node(floor).provenance, Provenance::Leaf);
    assert_eq!(floor.data(&tape), 0.0);
    assert_eq!(
        tape.node(r).provenance,
        Provenance::Binary { op: BinaryOp::Max, left: a, right: floor }
    );
    r.backward(&mut tape);
    assert_eq!(a.grad(&tape), 0.0);

    let b = Value::new(4.0, &mut tape);
    let rb = b.relu(&mut tape);
    assert_eq!(rb.data(&tape), 4.0);
    rb.backward(&mut tape);
    assert_eq!(b.grad(&tape), 1.0);
}

#[test]
fn negate_and_subtract_are_built_from_mul_and_add() {
    let mut tape = Tape::new(calc, exceeds);
    let a = Value::new(5.0, &mut tape);
    let b = Value::new(3.0, &mut tape);
    let n = a.negate(&mut tape);
    assert_eq!(n.data(&tape), -5.0);
    let minus = Value { id: 2 };
    assert_eq!(minus.data(&tape), -1.0);
    assert_eq!(
        tape.node(n).provenance,
        Provenance::Binary { op: BinaryOp::Mul, left: a, right: minus }
    );
    let d = a.subtract(&b, &mut tape);
    assert_eq!(d.data(&tape), 2.0);
    assert_eq!(tape.len(), 7);
    let negated = Value { id: 5 };
    assert_eq!(
        tape.node(d).provenance,
        Provenance::Binary { op: BinaryOp::Add, left: a, right: negated }
    );
    d.backward(&mut tape);
    assert_eq!(a.grad(&tape), 1.0);
    assert_eq!(b.grad(&tape), -1.0);
}

#[test]
fn sum_adds_to_a_leaf_zero_in_order() {
    let mut tape = Tape::new(calc, exceeds);
    let a = Value::new(1.0, &mut tape);
    let b = Value::new(2.0, &mut tape);
    let c = Value::new(4.0, &mut tape);
    let total = Value::sum(&[a, b, c], &mut tape);
    assert_eq!(total.data(&tape), 7.0);
    assert_eq!(tape.len(), 7);
    assert_eq!(total.id, 6);
    let zero = Value { id: 3 };
    assert_eq!(tape.node(zero).provenance, Provenance::Leaf);
    assert_eq!(
        tape.node(Value { id: 4 }).provenance,
        Provenance::Binary { op: BinaryOp::Add, left: zero, right: a }
    );
    let none = Value::sum(&[], &mut tape);
    assert_eq!(none.data(&tape), 0.0);
    assert_eq!(tape.node(none).provenance, Provenance::Leaf);
}

#[test]
fn sub_assign_changes_the_value_in_place() {
    let mut tape = Tape::new(calc, exceeds);
    let a = Value::new(2.0, &mut tape);
    let b = Value::new(10.0, &mut tape);
    let c = a.mul(&b, &mut tape);
    a.sub_assign(0.5, &mut tape);
    assert_eq!(a.data(&tape), 1.5);
    assert_eq!(b.data(&tape), 10.0);
    assert_eq!(c.data(&tape), 20.0);
    assert_eq!(a.grad(&tape), 0.0);
    assert_eq!(tape.len(), 3);
}

#[test]
fn zero_grad_resets_one_gradient() {
    let mut tape = Tape::new(calc, exceeds);
    let a = Value::new(2.0, &mut tape);
    let b = Value::new(3.0, &mut tape);
    let c = a.mul(&b, &mut tape);
    c.backward(&mut tape);
    a.zero_grad(&mut tape);
    assert_eq!(a.grad(&tape), 0.0);
    assert_eq!(b.grad(&tape), 2.0);
    assert_eq!(c.grad(&tape), 1.0);
    assert_eq!(a.data(&tape), 2.0);
}

#[test]
fn backward_of_a_sum_gives_each_term_one() {
    for (x, y) in [(1.0, 2.0), (-3.5, 0.0), (1e300, -1e-300)] {
        let mut tape = Tape::new(calc, exceeds);
        let a = Value::new(x, &mut tape);
        let b = Value::new(y, &mut tape);
        let c = a.add(&b, &mut tape);
        c.backward(&mut tape);
        assert_eq!(a.grad(&tape), 1.0);
        assert_eq!(b.grad(&tape), 1.0);
    }
}

#[test]
fn backward_of_a_product_gives_each_factor_the_other() {
    for (x, y) in [(1.0, 2.0), (-3.5, 0.25), (7.0, -4.0)] {
        let mut tape = Tape::new(calc, exceeds);
        let a = Value::new(x, &mut tape);
        let b = Value::new(y, &mut tape);
        let c = a.mul(&b, &mut tape);
        c.backward(&mut tape);
        assert_eq!(a.grad(&tape), y);
        assert_eq!(b.grad(&tape), x);
    }
}

#[test]
fn backward_of_a_difference() {
    let mut tape = Tape::new(calc, exceeds);
    let a = Value::new(4.0, &mut tape);
    let b = Value::new(9.0, &mut tape);
    let c = a.sub(&b, &mut tape);
    c.backward(&mut tape);
    assert_eq!(a.grad(&tape), 1.0);
    assert_eq!(b.grad(&tape), -1.0);
}

#[test]
fn backward_of_a_quotient() {
    let mut tape = Tape::new(calc, exceeds);
    let a = Value::new(6.0, &mut tape);
    let b = Value::new(2.0, &mut tape);
    let c = a.div(&b, &mut tape);
    c.backward(&mut tape);
    assert_eq!(a.grad(&tape), 0.5);
    assert_eq!(b.grad(&tape), -1.5);
}

#[test]
fn backward_of_a_logarithm() {
    let mut tape = Tape::new(calc, exceeds);
    let a = Value::new(4.0, &mut tape);
    let c = a.log(&mut tape);
    c.backward(&mut tape);
    assert_eq!(a.grad(&tape), 0.25);
}

#[test]
fn backward_of_an_exponential_is_the_exponential() {
    let mut tape = Tape::new(calc, exceeds);
    let a = Value::new(2.0, &mut tape);
    let c = a.exp(&mut tape);
    c.backward(&mut tape);
    assert_eq!(a.grad(&tape), 2.0f64.exp());
    assert_eq!(a.grad(&tape), c.data(&tape));
}

#[test]
fn diamond_gradients_accumulate() {
    for x0 in [3.0, -1.5, 0.0, 10.0] {
        let mut tape = Tape::new(calc, exceeds);
        let x = Value::new(x0, &mut tape);
        let square = x.mul(&x, &mut tape);
        let s = square.add(&x, &mut tape);
        s.backward(&mut tape);
        assert_eq!(s.data(&tape), x0 * x0 + x0);
        assert_eq!(x.grad(&tape), 2.0 * x0 + 1.0);
    }
}

#[test]
fn a_shared_inner_node_passes_on_all_it_gathered() {
    // s = y * y + y with y = 3 * x: ds/dx = (2y + 1) * 3
    let mut tape = Tape::new(calc, exceeds);
    let x = Value::new(2.0, &mut tape);
    let three = Value::new(3.0, &mut tape);
    let y = three.mul(&x, &mut tape);
    let square = y.mul(&y, &mut tape);
    let s = square.add(&y, &mut tape);
    s.backward(&mut tape);
    assert_eq!(y.data(&tape), 6.0);
    assert_eq!(y.grad(&tape), 13.0);
    assert_eq!(x.grad(&tape), 39.0);
    assert_eq!(three.grad(&tape), 26.0);
}

#[test]
fn walk_visits_every_node_once_and_consumers_first() {
    let mut tape = Tape::new(calc, exceeds);
    let x = Value::new(2.0, &mut tape);
    let stray = Value::new(9.0, &mut tape);
    let three = Value::new(3.0, &mut tape);
    let y = three.mul(&x, &mut tape);
    let square = y.mul(&y, &mut tape);
    let later = stray.add(&x, &mut tape);
    let s = square.add(&y, &mut tape);
    assert_eq!(ids(&s.walk(&tape)), vec![6, 4, 3, 2, 0]);
    assert_eq!(ids(&y.walk(&tape)), vec![3, 2, 0]);
    assert_eq!(ids(&later.walk(&tape)), vec![5, 1, 0]);
    assert_eq!(ids(&x.walk(&tape)), vec![0]);
}

#[test]
fn backward_leaves_other_nodes_alone() {
    let mut tape = Tape::new(calc, exceeds);
    let x = Value::new(2.0, &mut tape);
    let stray = Value::new(9.0, &mut tape);
    let y = x.mul(&x, &mut tape);
    let other = stray.mul(&x, &mut tape);
    y.backward(&mut tape);
    assert_eq!(x.grad(&tape), 4.0);
    assert_eq!(stray.grad(&tape), 0.0);
    assert_eq!(other.grad(&tape), 0.0);
    assert_eq!(y.grad(&tape), 1.0);
    assert_eq!(x.data(&tape), 2.0);
    assert_eq!(y.data(&tape), 4.0);
}

#[test]
fn gradients_pile_up_over_passes_until_reset() {
    let mut tape = Tape::new(calc, exceeds);
    let a = Value::new(2.0, &mut tape);
    let b = Value::new(3.0, &mut tape);
    let c = a.mul(&b, &mut tape);
    c.backward(&mut tape);
    c.backward(&mut tape);
    assert_eq!(a.grad(&tape), 6.0);
    assert_eq!(b.grad(&tape), 4.0);
    assert_eq!(c.grad(&tape), 1.0);
    a.zero_grad(&mut tape);
    b.zero_grad(&mut tape);
    c.backward(&mut tape);
    assert_eq!(a.grad(&tape), 3.0);
    assert_eq!(b.grad(&tape), 2.0);
}

#[test]
fn propagate_applies_one_rule() {
    let mut tape = Tape::new(calc, exceeds);
    let a = Value::new(2.0, &mut tape);
    let b = Value::new(3.0, &mut tape);
    let c = a.mul(&b, &mut tape);
    c.propagate(&mut tape);
    assert_eq!(a.grad(&tape), 0.0);
    assert_eq!(b.grad(&tape), 0.0);
    a.propagate(&mut tape);
    assert_eq!(a.grad(&tape), 0.0);
}

#[test]
fn truncate_discards_the_nodes_added_last() {
    let mut tape = Tape::new(calc, exceeds);
    let a = Value::new(2.0, &mut tape);
    let b = Value::new(3.0, &mut tape);
    let mark = tape.len();
    let c = a.mul(&b, &mut tape);
    c.backward(&mut tape);
    tape.truncate(mark);
    assert_eq!(tape.len(), 2);
    assert_eq!(a.grad(&tape), 3.0);
    assert_eq!(b.data(&tape), 3.0);
    let d = a.add(&b, &mut tape);
    assert_eq!(d.id, 2);
    assert_eq!(d.data(&tape), 5.0);
}

#[test]
fn the_tape_answers_through_its_calculator() {
    let tape = Tape::new(calc, exceeds);
    assert_eq!(tape.eval(Calc::Add(1.0, 2.0)), 3.0);
    assert_eq!(tape.eval(Calc::Epsilon), 1e-15);
    assert_eq!(tape.eval(Calc::Count(7)), 7.0);
    assert!(tape.above(2.0, 1.0));
    assert!(!tape.above(1.0, 1.0));
    assert!(!tape.above(f64::NAN, 1.0));
}
