use microml::{
    calculate_accuracy, cross_entropy_loss, get_predicted_label, one_hot_encode, softmax,
    weight_count, BinaryOp, Calc, Layer, Neuron, Provenance, Tape, Value, MLP,
};

fn calc(c: Calc<f64>) -> f64 {
    match c {
        Calc::Zero => 0.0,
        Calc::One => 1.0,
        Calc::Epsilon => 1e-15,
        Calc::Lowest => f64::MIN,
        Calc::Count(n) => n as f64,
        Calc::Neg(a) => -a,
        Calc::Ln(a) => a.ln(),
        Calc::Exp(a) => a.exp(),
        Calc::Add(a, b) => a + b,
        Calc::Sub(a, b) => a - b,
        Calc::Mul(a, b) => a * b,
        Calc::Div(a, b) => a / b,
    }
}

fn exceeds(a: f64, b: f64) -> bool {
    a > b
}

fn close(a: f64, b: f64) -> bool {
    (a - b).abs() <= 1e-12 * (1.0 + a.abs().max(b.abs()))
}

fn ids(values: &[Value]) -> Vec<usize> {
    values.iter().map(|v| v.id).collect()
}

#[test]
fn test() {
    let mut tape = Tape::new(calc, exceeds);
    let y = [Value::new(0.5, &mut tape), Value::new(0.1, &mut tape)];
    let y_hat = [Value::new(0.4, &mut tape), Value::new(0.2, &mut tape)];
    let loss = cross_entropy_loss(&y, &y_hat, &mut tape);
    println!("{:#?}", loss.data(&tape));
    assert!(close(loss.data(&tape), 0.6190891571804876));
    assert!(close(loss.data(&tape), -(0.5 * 0.4f64.ln() + 0.1 * 0.2f64.ln())));
}

#[test]
fn test2() {
    let mut tape = Tape::new(calc, exceeds);
    let y = [Value::new(0.5, &mut tape), Value::new(0.5, &mut tape)];
    let y_hat = [Value::new(0.0, &mut tape), Value::new(1.0, &mut tape)];
    let loss = cross_entropy_loss(&y, &y_hat, &mut tape);
    println!("{:#?}", loss.data(&tape));
    let expected = -(0.5 * 1e-15f64.ln() + 0.5 * (1.0f64 - 1e-15).ln());
    assert!(loss.data(&tape).is_finite());
    assert!(close(loss.data(&tape), expected));
    assert!(close(loss.data(&tape), 17.269388197455342));
}

#[test]
fn test_forward() {
    let mut tape = Tape::new(calc, exceeds);
    let mlp = MLP::new(&[1, 1], &[0.5], &mut tape);

    let input = vec![Value::new(1.0, &mut tape)];
    let output = mlp.forward(input, &mut tape);
    let output_softmax = softmax(&output, &mut tape);
    println!("{:#?}", output[0]);
    let label = one_hot_encode(0, 1, &mut tape);
    let loss = cross_entropy_loss(&output_softmax, &label, &mut tape);
    loss.backward(&mut tape);

    println!("LOSS: {:#?}", loss);
    println!("{:#?}", output[0]);
    println!("{:#?}", mlp);
    println!("{:#?}", mlp.parameters());

    assert_eq!(output.len(), 1);
    assert_eq!(output[0].data(&tape), 0.5);
    assert_eq!(output_softmax.len(), 1);
    assert_eq!(output_softmax[0].data(&tape), 1.0);
    assert_eq!(label.len(), 1);
    assert_eq!(label[0].data(&tape), 1.0);
    assert!(close(loss.data(&tape), -(1.0f64 - 1e-15).ln()));
    assert_eq!(loss.grad(&tape), 1.0);
    assert_eq!(mlp.parameters().len(), 2);
}

#[test]
fn single_neuron_end_to_end() {
    let mut tape = Tape::new(calc, exceeds);
    let mlp = MLP::new(&[1, 1], &[2.0], &mut tape);
    let x = Value::new(3.0, &mut tape);
    let out = mlp.forward(vec![x], &mut tape);
    assert_eq!(out.len(), 1);
    assert_eq!(out[0].data(&tape), 6.0);
    out[0].backward(&mut tape);
    let neuron = &mlp.layers()[0].neurons()[0];
    assert_eq!(neuron.weights()[0].data(&tape), 2.0);
    assert_eq!(neuron.bias().data(&tape), 0.0);
    assert_eq!(neuron.weights()[0].grad(&tape), 3.0);
    assert_eq!(neuron.bias().grad(&tape), 1.0);
    assert_eq!(x.grad(&tape), 2.0);
}

#[test]
fn neuron_new_makes_weights_then_bias() {
    let mut tape = Tape::new(calc, exceeds);
    let before = Value::new(7.0, &mut tape);
    let neuron = Neuron::new(3, true, &[0.1, 0.2, 0.3], &mut tape);
    assert_eq!(before.id, 0);
    assert_eq!(ids(neuron.weights()), vec![1, 2, 3]);
    assert_eq!(neuron.bias().id, 4);
    assert_eq!(tape.len(), 5);
    assert_eq!(neuron.weights()[1].data(&tape), 0.2);
    assert_eq!(neuron.bias().data(&tape), 0.0);
    for w in neuron.weights() {
        assert_eq!(tape.node(*w).provenance, Provenance::Leaf);
        assert_eq!(w.grad(&tape), 0.0);
    }
    let empty = Neuron::new(0, false, &[], &mut tape);
    assert_eq!(empty.weights().len(), 0);
    assert_eq!(empty.bias().id, 5);
}

#[test]
fn neuron_forward_is_the_dot_product_plus_bias() {
    let mut tape = Tape::new(calc, exceeds);
    let neuron = Neuron::new(2, false, &[2.0, -1.0], &mut tape);
    neuron.bias().sub_assign(-0.5, &mut tape);
    let x = [Value::new(3.0, &mut tape), Value::new(4.0, &mut tape)];
    let mark = tape.len();
    let out = neuron.forward(&x, &mut tape);
    assert_eq!(out.data(&tape), 2.5);
    // a leaf zero, two nodes for each pair, and the sum with the bias
    assert_eq!(tape.len(), mark + 6);
    assert_eq!(out.id, tape.len() - 1);
    assert_eq!(
        tape.node(out).provenance,
        Provenance::Binary {
            op: BinaryOp::Add,
            left: Value { id: mark + 4 },
            right: *neuron.bias()
        }
    );
    out.backward(&mut tape);
    assert_eq!(neuron.weights()[0].grad(&tape), 3.0);
    assert_eq!(neuron.weights()[1].grad(&tape), 4.0);
    assert_eq!(neuron.bias().grad(&tape), 1.0);
    assert_eq!(x[0].grad(&tape), 2.0);
    assert_eq!(x[1].grad(&tape), -1.0);
}

#[test]
fn neuron_forward_rectifies_where_asked() {
    let mut tape = Tape::new(calc, exceeds);
    let neuron = Neuron::new(1, true, &[-2.0], &mut tape);
    let x = [Value::new(3.0, &mut tape)];
    let out = neuron.forward(&x, &mut tape);
    assert_eq!(out.data(&tape), 0.0);
    match tape.node(out).provenance {
        Provenance::Binary { op, .. } => assert_eq!(op, BinaryOp::Max),
        _ => panic!("the output of a rectified neuron is a max node"),
    }
    out.backward(&mut tape);
    assert_eq!(neuron.weights()[0].grad(&tape), 0.0);
    let y = [Value::new(-3.0, &mut tape)];
    let out = neuron.forward(&y, &mut tape);
    assert_eq!(out.data(&tape), 6.0);
    out.backward(&mut tape);
    assert_eq!(neuron.weights()[0].grad(&tape), -3.0);
}

#[test]
fn neuron_forward_pairs_end_with_the_shorter() {
    let mut tape = Tape::new(calc, exceeds);
    let neuron = Neuron::new(3, false, &[1.0, 10.0, 100.0], &mut tape);
    let x = [Value::new(2.0, &mut tape), Value::new(3.0, &mut tape)];
    let out = neuron.forward(&x, &mut tape);
    assert_eq!(out.data(&tape), 32.0);
    let long = [
        Value::new(1.0, &mut tape),
        Value::new(1.0, &mut tape),
        Value::new(1.0, &mut tape),
        Value::new(1.0, &mut tape),
    ];
    let out = neuron.forward(&long, &mut tape);
    assert_eq!(out.data(&tape), 111.0);
}

#[test]
fn layer_forward_applies_each_neuron_to_the_same_input() {
    let mut tape = Tape::new(calc, exceeds);
    let layer = Layer::new(2, 3, false, &[1.0, 2.0, 3.0, 4.0, 5.0, 6.0], &mut tape);
    assert_eq!(layer.neurons().len(), 3);
    assert_eq!(layer.neurons()[1].weights()[0].data(&tape), 3.0);
    assert_eq!(layer.neurons()[2].weights()[1].data(&tape), 6.0);
    assert_eq!(ids(layer.neurons()[0].weights()), vec![0, 1]);
    assert_eq!(layer.neurons()[0].bias().id, 2);
    assert_eq!(ids(layer.neurons()[1].weights()), vec![3, 4]);
    assert_eq!(tape.len(), 9);
    let x = vec![Value::new(1.0, &mut tape), Value::new(-1.0, &mut tape)];
    let out = layer.forward(x, &mut tape);
    let data: Vec<f64> = out.iter().map(|v| v.data(&tape)).collect();
    assert_eq!(data, vec![-1.0, -1.0, -1.0]);
}

#[test]
fn network_rectifies_every_layer_but_the_last() {
    let mut tape = Tape::new(calc, exceeds);
    let mlp = MLP::new(&[1, 1, 1], &[-1.0, -1.0], &mut tape);
    assert_eq!(mlp.layers().len(), 2);
    let x = Value::new(2.0, &mut tape);
    let out = mlp.forward(vec![x], &mut tape);
    // first layer: relu(-2) = 0; second layer, linear: -1 * 0 = 0
    assert_eq!(out[0].data(&tape), 0.0);
    let y = Value::new(-2.0, &mut tape);
    let out = mlp.forward(vec![y], &mut tape);
    // first layer: relu(2) = 2; second layer, linear: -2
    assert_eq!(out[0].data(&tape), -2.0);
}

#[test]
fn network_without_layers_hands_its_input_back() {
    let mut tape = Tape::new(calc, exceeds);
    let mlp = MLP::new(&[4], &[], &mut tape);
    assert_eq!(mlp.layers().len(), 0);
    assert_eq!(mlp.parameters().len(), 0);
    let x = Value::new(2.0, &mut tape);
    let out = mlp.forward(vec![x], &mut tape);
    assert_eq!(ids(&out), vec![x.id]);
    assert_eq!(tape.len(), 1);
}

#[test]
fn weight_count_sums_inputs_times_neurons() {
    assert_eq!(weight_count(&[784, 128, 64, 10]), Some(784 * 128 + 128 * 64 + 64 * 10));
    assert_eq!(weight_count(&[2, 2]), Some(4));
    assert_eq!(weight_count(&[5]), Some(0));
    assert_eq!(weight_count(&[]), None);
    assert_eq!(weight_count(&[usize::MAX, 2]), None);
    assert_eq!(weight_count(&[usize::MAX, 1, 1]), None);
    assert_eq!(weight_count(&[usize::MAX, 1]), Some(usize::MAX));
}

#[test]
fn parameters_come_layer_by_layer_bias_before_weights() {
    let mut tape = Tape::new(calc, exceeds);
    let mlp = MLP::new(&[2, 2, 1], &[1.0, 2.0, 3.0, 4.0, 5.0, 6.0], &mut tape);
    // nodes: layer 0: w0 w1 b | w0 w1 b; layer 1: w0 w1 b
    assert_eq!(ids(&mlp.parameters()), vec![2, 0, 1, 5, 3, 4, 8, 6, 7]);
    let data: Vec<f64> = mlp.parameters().iter().map(|p| p.data(&tape)).collect();
    assert_eq!(data, vec![0.0, 1.0, 2.0, 0.0, 3.0, 4.0, 0.0, 5.0, 6.0]);
}

#[test]
fn zero_grad_resets_the_parameters_and_nothing_else() {
    let mut tape = Tape::new(calc, exceeds);
    let mlp = MLP::new(&[2, 1], &[2.0, 3.0], &mut tape);
    let x = vec![Value::new(5.0, &mut tape), Value::new(7.0, &mut tape)];
    let out = mlp.forward(x.clone(), &mut tape);
    out[0].backward(&mut tape);
    let grads: Vec<f64> = mlp.parameters().iter().map(|p| p.grad(&tape)).collect();
    assert_eq!(grads, vec![1.0, 5.0, 7.0]);
    assert_eq!(x[0].grad(&tape), 2.0);
    mlp.zero_grad(&mut tape);
    for p in mlp.parameters() {
        assert_eq!(p.grad(&tape), 0.0);
    }
    assert_eq!(x[0].grad(&tape), 2.0);
    assert_eq!(x[1].grad(&tape), 3.0);
    assert_eq!(out[0].grad(&tape), 1.0);
    assert_eq!(out[0].data(&tape), 31.0);
    let data: Vec<f64> = mlp.parameters().iter().map(|p| p.data(&tape)).collect();
    assert_eq!(data, vec![0.0, 2.0, 3.0]);
    mlp.zero_grad(&mut tape);
    for p in mlp.parameters() {
        assert_eq!(p.grad(&tape), 0.0);
    }
    assert_eq!(x[0].grad(&tape), 2.0);
}

#[test]
fn softmax_sums_to_one() {
    let inputs = [
        vec![1.0, 2.0, 3.0],
        vec![-5.0, 0.0, 5.0, 10.0],
        vec![700.0, 710.0],
        vec![-1000.0, -1001.0],
        vec![0.0],
        vec![-745.2, 3.0e5, -1.0e300],
    ];
    for input in inputs.iter() {
        let mut tape = Tape::new(calc, exceeds);
        let values: Vec<Value> = input.iter().map(|x| Value::new(*x, &mut tape)).collect();
        let out = softmax(&values, &mut tape);
        assert_eq!(out.len(), input.len());
        let total: f64 = out.iter().map(|v| v.data(&tape)).sum();
        assert!(close(total, 1.0));
    }
}

#[test]
fn softmax_of_known_values() {
    let mut tape = Tape::new(calc, exceeds);
    let values = [Value::new(1.0, &mut tape), Value::new(2.0, &mut tape)];
    let out = softmax(&values, &mut tape);
    let e = std::f64::consts::E;
    assert!(close(out[0].data(&tape), 1.0 / (1.0 + e)));
    assert!(close(out[1].data(&tape), e / (1.0 + e)));
    // 1 for the peak, 2 * 2 for the exponentials, 2 + 1 for the sum, 2 quotients
    assert_eq!(tape.len(), 2 + 1 + 4 + 3 + 2);
    assert_eq!(ids(&out), vec![10, 11]);
    assert_eq!(
        tape.node(Value { id: 2 }).provenance,
        Provenance::Binary { op: BinaryOp::Max, left: values[0], right: values[1] }
    );
    let none = softmax(&[], &mut tape);
    assert_eq!(none.len(), 0);
    assert_eq!(tape.len(), 12);
}

#[test]
fn softmax_is_shift_invariant() {
    let base = [0.3, -1.2, 2.5, 0.0];
    for c in [1.0, -3.0, 50.0, 0.125] {
        let mut tape = Tape::new(calc, exceeds);
        let plain: Vec<Value> = base.iter().map(|x| Value::new(*x, &mut tape)).collect();
        let moved: Vec<Value> = base.iter().map(|x| Value::new(*x + c, &mut tape)).collect();
        let a = softmax(&plain, &mut tape);
        let b = softmax(&moved, &mut tape);
        for i in 0..base.len() {
            assert!((a[i].data(&tape) - b[i].data(&tape)).abs() < 1e-12);
        }
    }
}

#[test]
fn gradients_flow_through_softmax() {
    let mut tape = Tape::new(calc, exceeds);
    let values = [Value::new(1.0, &mut tape), Value::new(2.0, &mut tape)];
    let out = softmax(&values, &mut tape);
    out[0].backward(&mut tape);
    let p0 = out[0].data(&tape);
    let p1 = out[1].data(&tape);
    assert!(close(values[0].grad(&tape), p0 * (1.0 - p0)));
    assert!(close(values[1].grad(&tape), -p0 * p1));
}

#[test]
fn cross_entropy_is_small_for_a_good_prediction_and_large_for_a_bad_one() {
    let mut tape = Tape::new(calc, exceeds);
    let target = [Value::new(0.0, &mut tape), Value::new(1.0, &mut tape)];
    let good = [Value::new(0.01, &mut tape), Value::new(0.99, &mut tape)];
    let bad = [Value::new(0.99, &mut tape), Value::new(0.01, &mut tape)];
    let small = cross_entropy_loss(&target, &good, &mut tape);
    let large = cross_entropy_loss(&target, &bad, &mut tape);
    assert!(small.data(&tape) > 0.0);
    assert!(close(small.data(&tape), -(0.99f64.ln())));
    assert!(small.data(&tape) < 0.02);
    assert!(close(large.data(&tape), -(0.01f64.ln())));
    assert!(large.data(&tape) > 4.0);
    assert!(large.data(&tape) > small.data(&tape));
}

#[test]
fn cross_entropy_clips_and_builds_seven_nodes_for_each_pair() {
    let mut tape = Tape::new(calc, exceeds);
    let y = [Value::new(1.0, &mut tape)];
    let y_hat = [Value::new(0.0, &mut tape)];
    let loss = cross_entropy_loss(&y, &y_hat, &mut tape);
    assert!(close(loss.data(&tape), -(1e-15f64.ln())));
    // a leaf zero, seven nodes for the pair, a leaf minus one, the product
    assert_eq!(tape.len(), 2 + 1 + 7 + 2);
    assert_eq!(loss.id, 11);
    assert_eq!(Value { id: 3 }.data(&tape), 1e-15);
    assert_eq!(Value { id: 5 }.data(&tape), 1.0 - 1e-15);
    assert_eq!(Value { id: 10 }.data(&tape), -1.0);
    let high = [Value::new(3.0, &mut tape)];
    let loss = cross_entropy_loss(&y, &high, &mut tape);
    assert!(close(loss.data(&tape), -((1.0f64 - 1e-15).ln())));
    let none = cross_entropy_loss(&[], &high, &mut tape);
    assert_eq!(none.data(&tape), 0.0);
}

#[test]
fn cross_entropy_gradient() {
    let mut tape = Tape::new(calc, exceeds);
    let y = [Value::new(0.0, &mut tape), Value::new(1.0, &mut tape)];
    let y_hat = [Value::new(0.25, &mut tape), Value::new(0.5, &mut tape)];
    let loss = cross_entropy_loss(&y, &y_hat, &mut tape);
    loss.backward(&mut tape);
    assert_eq!(y_hat[1].grad(&tape), -2.0);
    assert_eq!(y_hat[0].grad(&tape), 0.0);
    assert!(close(y[1].grad(&tape), -(0.5f64.ln())));
}

#[test]
fn one_hot_encode_sets_a_single_one() {
    let mut tape = Tape::new(calc, exceeds);
    let _ = Value::new(9.0, &mut tape);
    let encoded = one_hot_encode(2, 4, &mut tape);
    assert_eq!(ids(&encoded), vec![1, 2, 3, 4]);
    let data: Vec<f64> = encoded.iter().map(|v| v.data(&tape)).collect();
    assert_eq!(data, vec![0.0, 0.0, 1.0, 0.0]);
    for v in encoded.iter() {
        assert_eq!(tape.node(*v).provenance, Provenance::Leaf);
        assert_eq!(v.grad(&tape), 0.0);
    }
    let first = one_hot_encode(0, 1, &mut tape);
    assert_eq!(first[0].data(&tape), 1.0);
}

#[test]
fn predicted_label_is_the_first_greatest() {
    let mut tape = Tape::new(calc, exceeds);
    let values: Vec<Value> =
        [0.1, 0.7, 0.2, 0.7].iter().map(|x| Value::new(*x, &mut tape)).collect();
    assert_eq!(get_predicted_label(&values, &tape), 1);
    assert_eq!(get_predicted_label(&values[2..], &tape), 1);
    assert_eq!(get_predicted_label(&values[..1], &tape), 0);
    assert_eq!(get_predicted_label(&[], &tape), 0);
    let flat: Vec<Value> = [f64::MIN, f64::MIN].iter().map(|x| Value::new(*x, &mut tape)).collect();
    assert_eq!(get_predicted_label(&flat, &tape), 0);
    let odd: Vec<Value> =
        [f64::NAN, -3.0, f64::NAN].iter().map(|x| Value::new(*x, &mut tape)).collect();
    assert_eq!(get_predicted_label(&odd, &tape), 1);
}

#[test]
fn accuracy_is_the_share_of_agreeing_labels() {
    let tape = Tape::new(calc, exceeds);
    assert_eq!(calculate_accuracy(&[1, 2, 3, 4], &[1, 0, 3, 0], &tape), 0.5);
    assert_eq!(calculate_accuracy(&[1, 2, 3], &[1, 2, 3], &tape), 1.0);
    assert_eq!(calculate_accuracy(&[1, 2], &[2, 1], &tape), 0.0);
    assert_eq!(calculate_accuracy(&[1, 2, 3, 4], &[1, 2], &tape), 0.5);
    assert_eq!(calculate_accuracy(&[1, 2], &[1, 2, 3, 4], &tape), 1.0);
    assert!(calculate_accuracy(&[], &[], &tape).is_nan());
}

#[test]
fn one_step_of_gradient_descent_lowers_the_loss() {
    let mut tape = Tape::new(calc, exceeds);
    let mlp = MLP::new(&[2, 2], &[0.5, -0.25, 0.1, 0.3], &mut tape);
    let mark = tape.len();
    let learning_rate = 0.1;

    let mut losses = Vec::new();
    let mut first_grads = Vec::new();
    for pass in 0..2 {
        let input = vec![Value::new(1.0, &mut tape), Value::new(0.5, &mut tape)];
        let out = mlp.forward(input, &mut tape);
        let probabilities = softmax(&out, &mut tape);
        let target = one_hot_encode(1, 2, &mut tape);
        let loss = cross_entropy_loss(&target, &probabilities, &mut tape);
        losses.push(loss.data(&tape));
        if pass == 0 {
            // logits 0.375 and 0.25
            assert_eq!(out[0].data(&tape), 0.375);
            assert_eq!(out[1].data(&tape), 0.25);
            let p1 = 0.25f64.exp() / (0.375f64.exp() + 0.25f64.exp());
            assert!(close(probabilities[1].data(&tape), p1));
            assert!(close(loss.data(&tape), -p1.ln()));
            assert!(close(loss.data(&tape), 0.757599035317169));
            loss.backward(&mut tape);
            for p in mlp.parameters() {
                first_grads.push(p.grad(&tape));
                p.sub_assign(p.grad(&tape) * learning_rate, &mut tape);
            }
            mlp.zero_grad(&mut tape);
            tape.truncate(mark);
        }
    }
    // d loss / d logit_i = p_i - y_i; bias, then the two weights, of each neuron
    let p0 = 0.375f64.exp() / (0.375f64.exp() + 0.25f64.exp());
    let p1 = 1.0 - p0;
    let expected = [p0, p0 * 1.0, p0 * 0.5, p1 - 1.0, (p1 - 1.0) * 1.0, (p1 - 1.0) * 0.5];
    assert_eq!(first_grads.len(), 6);
    for i in 0..6 {
        assert!((first_grads[i] - expected[i]).abs() < 1e-12);
    }
    assert!(losses[1] < losses[0]);
}
