use rand::{thread_rng, Rng};
use sis_gadget::field::{zeros, FieldElement};
use sis_gadget::{BinarySISAccumulator, BinarySISParams};

#[test]
fn test_accumulator() {
    let n = 128u32;
    let m = 32512u32;
    let rng = &mut thread_rng();
    let params = BinarySISParams::new(b"hello", m, n, 1024);
    let mut accumulator = BinarySISAccumulator::new(&params);
    let mut values = vec![];
    let mut witnesses = vec![];
    for _ in 0..10 {
        let value: Vec<bool> = (0..m).map(|_| rng.gen()).collect();
        accumulator.acculumate(&value);
        values.push(value);
    }

    for v in values.iter() {
        witnesses.push(accumulator.calculate_witness(v));
    }

    for (w, v) in witnesses.iter().zip(values.iter()) {
        assert!(accumulator.check_inclusion(v, w));
    }
}

#[test]
fn test_proving_non_existing_element() {
    let n = 128u32;
    let m = 32512u32;
    let rng = &mut thread_rng();
    let params = BinarySISParams::new(b"hello", m, n, 1024);
    let mut accumulator = BinarySISAccumulator::new(&params);
    let mut values = vec![];
    let mut witnesses = vec![];
    for _ in 0..10 {
        let value: Vec<bool> = (0..m).map(|_| rng.gen()).collect();
        accumulator.acculumate(&value);
        values.push(value);
    }

    for v in values.iter() {
        witnesses.push(accumulator.calculate_witness(v));
    }

    for w in witnesses.iter() {
        let value: Vec<bool> = (0..m).map(|_| rng.gen()).collect();
        assert!(!accumulator.check_inclusion(&value, w));
    }
}

#[test]
fn test_too_large_witness() {
    let n = 128u32;
    let m = 32512u32;
    let rng = &mut thread_rng();
    let params = BinarySISParams::new(b"hello", m, n, 1024);
    let mut accumulator = BinarySISAccumulator::new(&params);
    let mut values = vec![];
    let mut witnesses = vec![];
    for _ in 0..10 {
        let value: Vec<bool> = (0..m).map(|_| rng.gen()).collect();
        accumulator.acculumate(&value);
        values.push(value);
    }

    for v in values.iter() {
        witnesses.push(accumulator.calculate_witness(v));
    }

    for w in witnesses.iter() {
        let mut w = w.clone();
        for w in w.iter_mut() {
            if !w.is_zero() {
                w.negate()
            }
        }
        let value: Vec<bool> = (0..m).map(|_| rng.gen()).collect();
        assert!(!accumulator.check_inclusion(&value, &w));
    }
}

fn small_params() -> BinarySISParams {
    assert!(BinarySISParams::supports(70, 3, 4));
    BinarySISParams::new(b"small", 70, 3, 4)
}

fn unit(m: usize, column: usize) -> Vec<bool> {
    let mut value = vec![false; m];
    value[column] = true;
    value
}

fn sum(a: &FieldElement, b: &FieldElement) -> FieldElement {
    let mut r = *a;
    r.add_assign(b);
    r
}

#[test]
fn new_accumulator_is_empty() {
    let params = small_params();
    let accumulator = BinarySISAccumulator::new(&params);
    assert_eq!(accumulator.accumulated_value, zeros(3));
    assert!(accumulator.elements.is_empty());
    assert_eq!(accumulator.capacity, 4);
    assert!(std::ptr::eq(accumulator.params, &params));
}

#[test]
fn hash_reads_the_cell_at_row_times_n_plus_column() {
    let params = small_params();
    let accumulator = BinarySISAccumulator::new(&params);
    for column in [0usize, 1, 2, 3, 42, 69] {
        let h = accumulator.hash(&unit(70, column));
        assert_eq!(h.len(), 3);
        for row in 0..3 {
            assert_eq!(h[row], params.a_matrix[row * 3 + column]);
        }
    }
    assert_eq!(accumulator.hash(&vec![false; 70]), zeros(3));
}

#[test]
fn hash_sums_the_selected_entries() {
    let params = small_params();
    let accumulator = BinarySISAccumulator::new(&params);
    let mut value = vec![false; 70];
    value[4] = true;
    value[9] = true;
    value[69] = true;
    let h = accumulator.hash(&value);
    for row in 0..3 {
        let expected = sum(
            &sum(&params.a_matrix[row * 3 + 4], &params.a_matrix[row * 3 + 9]),
            &params.a_matrix[row * 3 + 69],
        );
        assert_eq!(h[row], expected);
    }
}

#[test]
fn matrix_product_uses_the_same_cells_as_hash() {
    let params = small_params();
    let accumulator = BinarySISAccumulator::new(&params);
    let rng = &mut thread_rng();
    let value: Vec<bool> = (0..70).map(|_| rng.gen()).collect();
    let weights: Vec<FieldElement> =
        value.iter().map(|b| FieldElement::from_u64(*b as u64)).collect();
    assert_eq!(accumulator.a_matrix_multiply(&weights), accumulator.hash(&value));

    let mut weights = zeros(70);
    weights[5] = FieldElement::from_u64(3);
    let product = accumulator.a_matrix_multiply(&weights);
    for row in 0..3 {
        let entry = params.a_matrix[row * 3 + 5];
        assert_eq!(product[row], sum(&sum(&entry, &entry), &entry));
    }
}

#[test]
fn accumulation_adds_the_image_to_the_digest() {
    let params = small_params();
    let mut accumulator = BinarySISAccumulator::new(&params);
    let first = unit(70, 3);
    let second = unit(70, 64);
    accumulator.acculumate(&first);
    assert_eq!(accumulator.accumulated_value, accumulator.hash(&first));
    accumulator.acculumate(&second);
    for row in 0..3 {
        assert_eq!(
            accumulator.accumulated_value[row],
            sum(&params.a_matrix[row * 3 + 3], &params.a_matrix[row * 3 + 64])
        );
    }
}

#[test]
fn elements_are_packed_most_significant_bit_first() {
    let params = small_params();
    let mut accumulator = BinarySISAccumulator::new(&params);
    accumulator.acculumate(&unit(70, 0));
    accumulator.acculumate(&unit(70, 63));
    accumulator.acculumate(&unit(70, 64));
    accumulator.acculumate(&unit(70, 69));
    let mut mixed = vec![false; 70];
    mixed[1] = true;
    mixed[2] = true;
    mixed[65] = true;
    accumulator.acculumate(&mixed);
    assert_eq!(
        accumulator.elements,
        vec![
            vec![1u64 << 63, 0],
            vec![1, 0],
            vec![0, 1u64 << 63],
            vec![0, 1u64 << 58],
            vec![3u64 << 61, 1u64 << 62],
        ]
    );
}

#[test]
fn a_repeated_element_is_added_twice_and_stored_once() {
    let params = small_params();
    let mut accumulator = BinarySISAccumulator::new(&params);
    let value = unit(70, 7);
    accumulator.acculumate(&value);
    accumulator.acculumate(&value);
    assert_eq!(accumulator.elements.len(), 1);
    let h = accumulator.hash(&value);
    for row in 0..3 {
        assert_eq!(accumulator.accumulated_value[row], sum(&h[row], &h[row]));
    }
    // the digest counts it twice, the witness never: the check fails
    let witness = accumulator.calculate_witness(&value);
    assert_eq!(witness, zeros(70));
    assert!(!accumulator.check_inclusion(&value, &witness));
}

#[test]
fn accumulation_order_does_not_matter() {
    let params = small_params();
    let rng = &mut thread_rng();
    let values: Vec<Vec<bool>> =
        (0..4).map(|_| (0..70).map(|_| rng.gen()).collect()).collect();
    let mut forward = BinarySISAccumulator::new(&params);
    for v in values.iter() {
        forward.acculumate(v);
    }
    let mut backward = BinarySISAccumulator::new(&params);
    for v in values.iter().rev() {
        backward.acculumate(v);
    }
    let mut shuffled = BinarySISAccumulator::new(&params);
    for i in [2usize, 0, 3, 1] {
        shuffled.acculumate(&values[i]);
    }
    assert_eq!(forward.accumulated_value, backward.accumulated_value);
    assert_eq!(forward.accumulated_value, shuffled.accumulated_value);
}

#[test]
fn witness_counts_the_other_elements_per_bit() {
    let params = small_params();
    let mut accumulator = BinarySISAccumulator::new(&params);
    let mut a = vec![false; 70];
    a[0] = true;
    a[10] = true;
    a[69] = true;
    let mut b = vec![false; 70];
    b[10] = true;
    b[64] = true;
    let mut c = vec![false; 70];
    c[10] = true;
    c[69] = true;
    accumulator.acculumate(&a);
    accumulator.acculumate(&b);
    accumulator.acculumate(&c);

    let witness = accumulator.calculate_witness(&a);
    let mut expected = zeros(70);
    expected[10] = FieldElement::from_u64(2);
    expected[64] = FieldElement::from_u64(1);
    expected[69] = FieldElement::from_u64(1);
    assert_eq!(witness, expected);

    // for a vector that was never added, every element counts
    let witness = accumulator.calculate_witness(&vec![true; 70]);
    let mut expected = zeros(70);
    expected[0] = FieldElement::from_u64(1);
    expected[10] = FieldElement::from_u64(3);
    expected[64] = FieldElement::from_u64(1);
    expected[69] = FieldElement::from_u64(2);
    assert_eq!(witness, expected);
}

#[test]
fn every_accumulated_element_verifies() {
    let params = small_params();
    let rng = &mut thread_rng();
    let mut accumulator = BinarySISAccumulator::new(&params);
    let mut values: Vec<Vec<bool>> = vec![];
    while values.len() < 5 {
        let value: Vec<bool> = (0..70).map(|_| rng.gen()).collect();
        if !values.contains(&value) {
            accumulator.acculumate(&value);
            values.push(value);
        }
    }
    for v in values.iter() {
        let witness = accumulator.calculate_witness(v);
        assert_eq!(witness.len(), 70);
        assert!(accumulator.check_inclusion(v, &witness));
    }
    // a single element verifies against the zero witness
    let mut single = BinarySISAccumulator::new(&params);
    single.acculumate(&values[0]);
    assert!(single.check_inclusion(&values[0], &zeros(70)));
    // and nothing verifies against another element's witness
    let witness = accumulator.calculate_witness(&values[0]);
    assert!(!accumulator.check_inclusion(&values[1], &witness));
}

#[test]
fn a_coordinate_beyond_the_capacity_is_rejected() {
    let params = BinarySISParams::new(b"small", 70, 3, 1);
    let mut accumulator = BinarySISAccumulator::new(&params);
    let a = unit(70, 1);
    let b = unit(70, 2);
    let c = vec![true; 70];
    accumulator.acculumate(&a);
    accumulator.acculumate(&b);
    let witness = accumulator.calculate_witness(&a);
    assert!(accumulator.check_inclusion(&a, &witness));

    // the same digest equation, met by a coordinate of 2 against a capacity of 1
    let mut accumulator = BinarySISAccumulator::new(&params);
    accumulator.acculumate(&a);
    accumulator.acculumate(&c);
    accumulator.acculumate(&unit(70, 3));
    let witness = accumulator.calculate_witness(&a);
    assert_eq!(witness[3], FieldElement::from_u64(2));
    assert!(!accumulator.check_inclusion(&a, &witness));

    let generous = BinarySISParams::new(b"small", 70, 3, 2);
    let mut accumulator = BinarySISAccumulator::new(&generous);
    accumulator.acculumate(&a);
    accumulator.acculumate(&c);
    accumulator.acculumate(&unit(70, 3));
    let witness = accumulator.calculate_witness(&a);
    assert!(accumulator.check_inclusion(&a, &witness));
}

#[test]
fn scaling_a_valid_witness_up_is_rejected() {
    let params = small_params();
    let mut accumulator = BinarySISAccumulator::new(&params);
    let a = unit(70, 1);
    let b = unit(70, 2);
    accumulator.acculumate(&a);
    accumulator.acculumate(&b);
    let witness = accumulator.calculate_witness(&a);
    assert!(accumulator.check_inclusion(&a, &witness));

    let mut scaled = witness.clone();
    scaled[2] = FieldElement::from_u64(5);
    assert!(!accumulator.check_inclusion(&a, &scaled));

    // the negated witness has the same squares and fails the digest equation
    let mut negated = witness.clone();
    negated[2].negate();
    assert!(!accumulator.check_inclusion(&a, &negated));
}

#[test]
fn well_formedness_of_the_accumulator() {
    let params = small_params();
    let mut accumulator = BinarySISAccumulator::new(&params);
    assert!(accumulator.is_well_formed());
    accumulator.acculumate(&unit(70, 1));
    accumulator.acculumate(&unit(70, 2));
    assert!(accumulator.is_well_formed());

    let mut broken = BinarySISAccumulator::new(&params);
    broken.accumulated_value.pop();
    assert!(!broken.is_well_formed());

    let mut broken = BinarySISAccumulator::new(&params);
    broken.capacity = 5;
    assert!(!broken.is_well_formed());

    let mut broken = BinarySISAccumulator::new(&params);
    broken.elements.push(vec![1, 2, 3]);
    assert!(!broken.is_well_formed());

    let mut broken = BinarySISAccumulator::new(&params);
    broken.elements.push(vec![1, 2]);
    assert!(broken.is_well_formed());
    broken.elements.push(vec![1, 3]);
    assert!(broken.is_well_formed());
    broken.elements.push(vec![1, 2]);
    assert!(!broken.is_well_formed());
}

#[test]
fn a_witness_of_another_length_is_rejected() {
    let params = small_params();
    let mut accumulator = BinarySISAccumulator::new(&params);
    let a = unit(70, 1);
    accumulator.acculumate(&a);
    assert!(accumulator.check_inclusion(&a, &zeros(70)));
    assert!(!accumulator.check_inclusion(&a, &zeros(69)));
    assert!(!accumulator.check_inclusion(&a, &zeros(71)));
    assert!(!accumulator.check_inclusion(&a, &zeros(3)));
    assert!(!accumulator.check_inclusion(&a, &[]));
    // with an oversized coordinate as well
    let mut long = zeros(100);
    long[99] = FieldElement::from_u64(5);
    assert!(!accumulator.check_inclusion(&a, &long));
}

#[test]
fn a_witness_beyond_the_aggregate_norm_is_rejected() {
    // two bits and a capacity of one: the norm threshold is 4
    let params = BinarySISParams::new(b"small", 2, 1, 1);
    assert_eq!(params.witness_norm_squared, FieldElement::from_u64(4));
    assert_eq!(params.witness_element_squared, FieldElement::one());
    let mut accumulator = BinarySISAccumulator::new(&params);
    let a = vec![true, false];
    let b = vec![true, true];
    accumulator.acculumate(&a);
    accumulator.acculumate(&b);
    let witness = accumulator.calculate_witness(&a);
    assert_eq!(witness, vec![FieldElement::one(), FieldElement::one()]);
    assert!(accumulator.check_inclusion(&a, &witness));
    // five coordinates of one: each within its bound, their squares add up to 5
    assert!(!accumulator.check_inclusion(&a, &vec![FieldElement::one(); 5]));
}

#[test]
fn negating_a_valid_witness_flips_the_check() {
    let params = small_params();
    let rng = &mut thread_rng();
    let mut accumulator = BinarySISAccumulator::new(&params);
    let mut values: Vec<Vec<bool>> = vec![];
    while values.len() < 4 {
        let value: Vec<bool> = (0..70).map(|_| rng.gen()).collect();
        if !values.contains(&value) {
            accumulator.acculumate(&value);
            values.push(value);
        }
    }
    for v in values.iter() {
        let witness = accumulator.calculate_witness(v);
        assert!(accumulator.check_inclusion(v, &witness));
        let mut negated = witness.clone();
        for w in negated.iter_mut() {
            if !w.is_zero() {
                w.negate()
            }
        }
        assert!(!accumulator.check_inclusion(v, &negated));
    }
}
