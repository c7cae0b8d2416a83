//! Laws that relate the operations of the accumulator to each other.

use vstd::prelude::*;
use vstd::arithmetic::div_mod::{
    lemma_add_mod_noop,
    lemma_fundamental_div_mod,
    lemma_mod_multiples_vanish,
    lemma_mul_mod_noop_left,
    lemma_small_mod,
};
use crate::accumulator::{
    coordinates_bounded,
    hamming_weight,
    hash_spec,
    inclusion_holds,
    lemma_others_with_bit_bound,
    matrix_product,
    others_with_bit,
    selected_sum,
    squared_norm,
    vector_sum,
    weighted_sum,
    witness_spec,
};
use crate::bits::{lemma_bit_at_packed, lemma_packed_injective, packed};
use crate::field::{field_add, field_mul, field_neg, modulus, values, FieldElement};
use crate::params::BinarySISParams;

verus! {

/// The digest after the vectors of `history` were accumulated in order,
/// starting from the empty accumulator.
pub open spec fn digest_after(matrix: Seq<nat>, m: nat, n: nat, history: Seq<Seq<bool>>) -> Seq<
    nat,
>
    decreases history.len(),
{
    if history.len() == 0 {
        Seq::new(n, |i: int| 0nat)
    } else {
        vector_sum(
            digest_after(matrix, m, n, history.drop_last()),
            hash_spec(matrix, m, n, history.last()),
        )
    }
}

/// The packed vectors that are stored after the vectors of `history` were
/// accumulated in order, starting from the empty accumulator.
pub open spec fn stored_after(history: Seq<Seq<bool>>) -> Seq<Seq<u64>>
    decreases history.len(),
{
    if history.len() == 0 {
        Seq::empty()
    } else {
        let before = stored_after(history.drop_last());
        if before.contains(packed(history.last())) {
            before
        } else {
            before.push(packed(history.last()))
        }
    }
}

/// One more accumulated vector extends the history by one step: its image is
/// added to the digest, and its packing is stored unless it is stored already.
pub proof fn law_accumulating_extends_history(
    matrix: Seq<nat>,
    m: nat,
    n: nat,
    history: Seq<Seq<bool>>,
    value: Seq<bool>,
)
    ensures
        digest_after(matrix, m, n, history.push(value)) == vector_sum(
            digest_after(matrix, m, n, history),
            hash_spec(matrix, m, n, value),
        ),
        stored_after(history.push(value)) == if stored_after(history).contains(packed(value)) {
            stored_after(history)
        } else {
            stored_after(history).push(packed(value))
        },
{
    assert(history.push(value).drop_last() =~= history);
}

/// Generation and use agree on the cell layout: the image of the vector
/// whose only set bit is at `column` holds, at `row`, the matrix entry at
/// `row * n + column`.
pub proof fn law_unit_vector_reads_cell(
    matrix: Seq<nat>,
    m: nat,
    n: nat,
    bits: Seq<bool>,
    row: int,
    column: int,
)
    requires
        0 <= row < n,
        0 <= column < m,
        bits.len() == m,
        forall|c: int| 0 <= c < m ==> bits[c] == (c == column),
        matrix[row * n + column] < modulus(),
    ensures
        hash_spec(matrix, m, n, bits)[row] == matrix[row * n + column],
{
    lemma_unit_vector_sum(matrix, n, row as nat, bits, column, m);
}

/// The selected sum of a vector with one set bit is zero before that bit and
/// the bit's entry from there on.
proof fn lemma_unit_vector_sum(
    matrix: Seq<nat>,
    n: nat,
    row: nat,
    bits: Seq<bool>,
    column: int,
    upto: nat,
)
    requires
        0 <= column,
        upto <= bits.len(),
        forall|c: int| 0 <= c < upto ==> bits[c] == (c == column),
        matrix[row * n + column] < modulus(),
    ensures
        selected_sum(matrix, n, row, bits, upto) == if column < upto {
            matrix[row * n + column]
        } else {
            0nat
        },
    decreases upto,
{
    if upto > 0 {
        lemma_unit_vector_sum(matrix, n, row, bits, column, (upto - 1) as nat);
        lemma_small_mod(matrix[row * n + column], modulus());
    }
}

/// Generation is deterministic: parameters generated twice from the same
/// personalization, dimensions and capacity have the same matrix and the
/// same thresholds.
pub proof fn law_generation_is_deterministic(
    first: BinarySISParams,
    second: BinarySISParams,
    personalization: Seq<u8>,
    m: u32,
    n: u32,
    capacity: usize,
)
    requires
        first.generated_from(personalization, m, n, capacity),
        second.generated_from(personalization, m, n, capacity),
    ensures
        first.a_matrix@ == second.a_matrix@,
        first.element_norm_squared == second.element_norm_squared,
        first.witness_element_squared == second.witness_element_squared,
        first.witness_norm_squared == second.witness_norm_squared,
{
    assert forall|i: int| 0 <= i < first.a_matrix@.len() implies first.a_matrix@[i]
        == second.a_matrix@[i] by {
        assert(Some(first.a_matrix@[i]@) == Some(second.a_matrix@[i]@));
        FieldElement::lemma_view_injective(first.a_matrix@[i], second.a_matrix@[i]);
    }
    assert(first.a_matrix@ =~= second.a_matrix@);
    FieldElement::lemma_view_injective(first.element_norm_squared, second.element_norm_squared);
    FieldElement::lemma_view_injective(
        first.witness_element_squared,
        second.witness_element_squared,
    );
    FieldElement::lemma_view_injective(first.witness_norm_squared, second.witness_norm_squared);
}

/// A witness beyond the norm bounds is rejected: if the square of one
/// coordinate exceeds the coordinate threshold, or the sum of the squares
/// exceeds the norm threshold, the inclusion check fails whatever the digest.
pub proof fn law_oversized_witness_is_rejected(
    params: &BinarySISParams,
    digest: Seq<nat>,
    value: Seq<bool>,
    witness: Seq<nat>,
)
    requires
        !coordinates_bounded(witness, params.witness_element_squared@) || squared_norm(
            witness,
            witness.len(),
        ) > params.witness_norm_squared@,
    ensures
        !inclusion_holds(params, digest, value, witness),
{
}

/// At most `upto` bits are set among the first `upto`.
proof fn lemma_hamming_weight_bound(bits: Seq<bool>, upto: nat)
    ensures
        hamming_weight(bits, upto) <= upto,
    decreases upto,
{
    if upto > 0 {
        lemma_hamming_weight_bound(bits, (upto - 1) as nat);
    }
}

/// Every element is short: the number of set bits of a vector of `m` bits,
/// taken as a field element, does not exceed the element threshold.
pub proof fn law_elements_are_short(params: &BinarySISParams, bits: Seq<bool>)
    requires
        params.wf(),
        bits.len() == params.m,
    ensures
        hamming_weight(bits, params.m as nat) % modulus() <= params.element_norm_squared@,
{
    let m = params.m as nat;
    lemma_hamming_weight_bound(bits, m);
    assert(m * m < 0x1_0000_0000_0000_0000) by (nonlinear_arith)
        requires
            m < 0x1_0000_0000,
    ;
    assert(m <= m * m) by (nonlinear_arith);
    lemma_small_mod(m * m, modulus());
    lemma_small_mod(hamming_weight(bits, m), modulus());
}

/// Sum over the vectors of `history` of their image's entry at `row`.
spec fn image_total(matrix: Seq<nat>, m: nat, n: nat, row: nat, history: Seq<Seq<bool>>) -> nat
    decreases history.len(),
{
    if history.len() == 0 {
        0
    } else {
        image_total(matrix, m, n, row, history.drop_last()) + selected_sum(
            matrix,
            n,
            row,
            history.last(),
            m,
        )
    }
}

/// The digest's entries are the totals of the images, reduced.
proof fn lemma_digest_is_total(matrix: Seq<nat>, m: nat, n: nat, history: Seq<Seq<bool>>)
    ensures
        digest_after(matrix, m, n, history).len() == n,
        forall|row: int|
            0 <= row < n ==> #[trigger] digest_after(matrix, m, n, history)[row] == image_total(
                matrix,
                m,
                n,
                row as nat,
                history,
            ) % modulus(),
    decreases history.len(),
{
    if history.len() == 0 {
        lemma_small_mod(0, modulus());
    } else {
        let before = history.drop_last();
        lemma_digest_is_total(matrix, m, n, before);
        assert forall|row: int| 0 <= row < n implies #[trigger] digest_after(
            matrix,
            m,
            n,
            history,
        )[row] == image_total(matrix, m, n, row as nat, history) % modulus() by {
            let total = image_total(matrix, m, n, row as nat, before);
            let image = selected_sum(matrix, n, row as nat, history.last(), m);
            lemma_selected_sum_reduced(matrix, n, row as nat, history.last(), m);
            lemma_add_mod_noop(total as int, image as int, modulus() as int);
            assert(hash_spec(matrix, m, n, history.last())[row] == image);
        }
    }
}

/// An image entry is a residue.
pub proof fn lemma_selected_sum_reduced(
    matrix: Seq<nat>,
    n: nat,
    row: nat,
    bits: Seq<bool>,
    upto: nat,
)
    ensures
        selected_sum(matrix, n, row, bits, upto) < modulus(),
    decreases upto,
{
    if upto > 0 {
        lemma_selected_sum_reduced(matrix, n, row, bits, (upto - 1) as nat);
    }
}

/// Taking one vector out of a history takes its image out of the total.
proof fn lemma_total_remove(
    matrix: Seq<nat>,
    m: nat,
    n: nat,
    row: nat,
    history: Seq<Seq<bool>>,
    k: int,
)
    requires
        0 <= k < history.len(),
    ensures
        image_total(matrix, m, n, row, history) == image_total(
            matrix,
            m,
            n,
            row,
            history.remove(k),
        ) + selected_sum(matrix, n, row, history[k], m),
    decreases history.len(),
{
    if k == history.len() - 1 {
        assert(history.remove(k) =~= history.drop_last());
    } else {
        lemma_total_remove(matrix, m, n, row, history.drop_last(), k);
        assert(history.remove(k).drop_last() =~= history.drop_last().remove(k));
        assert(history.remove(k).last() == history.last());
    }
}

/// The total of the images does not depend on the order of the history.
proof fn lemma_total_of_permutation(
    matrix: Seq<nat>,
    m: nat,
    n: nat,
    row: nat,
    first: Seq<Seq<bool>>,
    second: Seq<Seq<bool>>,
)
    requires
        first.to_multiset() == second.to_multiset(),
    ensures
        image_total(matrix, m, n, row, first) == image_total(matrix, m, n, row, second),
    decreases first.len(),
{
    first.to_multiset_ensures();
    second.to_multiset_ensures();
    if first.len() == 0 {
    } else {
        let x = first.last();
        let rest = first.drop_last();
        rest.to_multiset_ensures();
        assert(first =~= rest.push(x));
        assert(first.to_multiset() =~= rest.to_multiset().insert(x));
        assert(second.to_multiset().count(x) > 0);
        assert(second.contains(x));
        let k = choose|k: int| 0 <= k < second.len() && second[k] == x;
        let others = second.remove(k);
        assert(others.to_multiset() =~= rest.to_multiset());
        lemma_total_of_permutation(matrix, m, n, row, rest, others);
        lemma_total_remove(matrix, m, n, row, second, k);
    }
}

/// Accumulation commutes: histories that hold the same vectors the same
/// number of times, in whatever order, give the same digest.
pub proof fn law_accumulation_commutes(
    matrix: Seq<nat>,
    m: nat,
    n: nat,
    first: Seq<Seq<bool>>,
    second: Seq<Seq<bool>>,
)
    requires
        first.to_multiset() == second.to_multiset(),
    ensures
        digest_after(matrix, m, n, first) == digest_after(matrix, m, n, second),
{
    lemma_digest_is_total(matrix, m, n, first);
    lemma_digest_is_total(matrix, m, n, second);
    assert forall|row: int| 0 <= row < n implies digest_after(matrix, m, n, first)[row]
        == digest_after(matrix, m, n, second)[row] by {
        lemma_total_of_permutation(matrix, m, n, row as nat, first, second);
    }
    assert(digest_after(matrix, m, n, first) =~= digest_after(matrix, m, n, second));
}

/// Every vector of the history has `m` bits, and no vector occurs twice.
pub open spec fn distinct_elements(history: Seq<Seq<bool>>, m: nat) -> bool {
    &&& forall|j: int| 0 <= j < history.len() ==> (#[trigger] history[j]).len() == m
    &&& forall|i: int, j: int| 0 <= i < j < history.len() ==> history[i] != history[j]
}

/// With distinct vectors, every vector of the history is stored, in order.
proof fn lemma_stored_of_distinct(history: Seq<Seq<bool>>, m: nat)
    requires
        distinct_elements(history, m),
    ensures
        stored_after(history).len() == history.len(),
        forall|j: int|
            0 <= j < history.len() ==> #[trigger] stored_after(history)[j] == packed(history[j]),
    decreases history.len(),
{
    if history.len() > 0 {
        let rest = history.drop_last();
        assert(distinct_elements(rest, m));
        lemma_stored_of_distinct(rest, m);
        let before = stored_after(rest);
        if before.contains(packed(history.last())) {
            let j = choose|j: int| 0 <= j < before.len() && before[j] == packed(history.last());
            assert(before[j] == packed(rest[j]));
            lemma_packed_injective(history[j], history.last());
        }
    }
}

/// Sum of the image entries at `row` of the first `upto` vectors other than `value`.
spec fn others_total(
    matrix: Seq<nat>,
    m: nat,
    n: nat,
    row: nat,
    history: Seq<Seq<bool>>,
    value: Seq<bool>,
    upto: nat,
) -> nat
    decreases upto,
{
    if upto == 0 {
        0
    } else {
        others_total(matrix, m, n, row, history, value, (upto - 1) as nat) + if history[upto - 1]
            != value {
            selected_sum(matrix, n, row, history[upto - 1], m)
        } else {
            0nat
        }
    }
}

/// The per-position counts over the first `upto` stored vectors.
spec fn counts(stored: Seq<Seq<u64>>, skip: Seq<u64>, m: nat, upto: nat) -> Seq<nat> {
    Seq::new(m, |column: int| others_with_bit(stored, skip, column, upto))
}

/// A weighted row sum is a residue.
proof fn lemma_weighted_sum_reduced(
    matrix: Seq<nat>,
    n: nat,
    row: nat,
    weights: Seq<nat>,
    upto: nat,
)
    ensures
        weighted_sum(matrix, n, row, weights, upto) < modulus(),
    decreases upto,
{
}

/// Zero weights give a zero row sum.
proof fn lemma_weighted_sum_of_zeros(
    matrix: Seq<nat>,
    n: nat,
    row: nat,
    weights: Seq<nat>,
    upto: nat,
)
    requires
        forall|c: int| 0 <= c < upto ==> weights[c] == 0,
    ensures
        weighted_sum(matrix, n, row, weights, upto) == 0,
    decreases upto,
{
    if upto > 0 {
        lemma_weighted_sum_of_zeros(matrix, n, row, weights, (upto - 1) as nat);
        assert(weights[upto - 1] * matrix[row * n + upto - 1] == 0) by (nonlinear_arith)
            requires
                weights[upto - 1] == 0,
        ;
        lemma_small_mod(0, modulus());
    }
}

/// Raising the weights by the bits of a vector raises the row sum by the
/// vector's image entry.
proof fn lemma_weighted_sum_step(
    matrix: Seq<nat>,
    n: nat,
    row: nat,
    weights: Seq<nat>,
    bits: Seq<bool>,
    raised: Seq<nat>,
    upto: nat,
)
    requires
        forall|c: int|
            0 <= c < upto ==> #[trigger] raised[c] == weights[c] + if bits[c] {
                1nat
            } else {
                0nat
            },
    ensures
        weighted_sum(matrix, n, row, raised, upto) == (weighted_sum(matrix, n, row, weights, upto)
            + selected_sum(matrix, n, row, bits, upto)) % modulus(),
    decreases upto,
{
    let p = modulus() as int;
    if upto == 0 {
        lemma_small_mod(0, modulus());
    } else {
        let shorter = (upto - 1) as nat;
        lemma_weighted_sum_step(matrix, n, row, weights, bits, raised, shorter);
        let entry = matrix[row * n + upto - 1] as int;
        let weight = weights[upto - 1] as int;
        let sum_w = weighted_sum(matrix, n, row, weights, shorter) as int;
        let sum_b = selected_sum(matrix, n, row, bits, shorter) as int;
        let bit: int = if bits[upto - 1] {
            1
        } else {
            0
        };
        assert(raised[upto - 1] == weight + bit);
        assert((weight + bit) * entry == weight * entry + bit * entry) by (nonlinear_arith);
        lemma_selected_sum_reduced(matrix, n, row, bits, shorter);
        lemma_selected_sum_reduced(matrix, n, row, bits, upto);
        lemma_weighted_sum_reduced(matrix, n, row, weights, upto);
        let total = sum_w + sum_b + weight * entry + bit * entry;
        // left side
        assert(weighted_sum(matrix, n, row, raised, upto) == total % p) by {
            lemma_add_mod_noop(sum_w + sum_b, (weight + bit) * entry, p);
        }
        // right side
        assert(weighted_sum(matrix, n, row, weights, upto) == (sum_w + weight * entry) % p) by {
            lemma_small_mod(sum_w as nat, modulus());
            lemma_add_mod_noop(sum_w, weight * entry, p);
        }
        assert(selected_sum(matrix, n, row, bits, upto) == (sum_b + bit * entry) % p) by {
            if bits[upto - 1] {
                assert(bit * entry == entry);
            } else {
                assert(bit * entry == 0);
                lemma_small_mod(sum_b as nat, modulus());
            }
        }
        lemma_add_mod_noop(sum_w + weight * entry, sum_b + bit * entry, p);
    }
}

/// The matrix applied to the counts over the first `upto` vectors is the
/// total of the images of the counted vectors.
proof fn lemma_counts_image(
    matrix: Seq<nat>,
    m: nat,
    n: nat,
    row: nat,
    history: Seq<Seq<bool>>,
    value: Seq<bool>,
    upto: nat,
)
    requires
        distinct_elements(history, m),
        value.len() == m,
        upto <= history.len(),
    ensures
        weighted_sum(
            matrix,
            n,
            row,
            counts(stored_after(history), packed(value), m, upto),
            m,
        ) == others_total(matrix, m, n, row, history, value, upto) % modulus(),
    decreases upto,
{
    let stored = stored_after(history);
    let skip = packed(value);
    lemma_stored_of_distinct(history, m);
    if upto == 0 {
        lemma_weighted_sum_of_zeros(matrix, n, row, counts(stored, skip, m, 0), m);
        lemma_small_mod(0, modulus());
    } else {
        let shorter = (upto - 1) as nat;
        let element = history[upto - 1];
        lemma_counts_image(matrix, m, n, row, history, value, shorter);
        assert(stored[upto - 1] == packed(element));
        if element != value {
            if packed(element) == skip {
                lemma_packed_injective(element, value);
            }
            assert forall|c: int| 0 <= c < m implies #[trigger] counts(stored, skip, m, upto)[c]
                == counts(stored, skip, m, shorter)[c] + if element[c] {
                1nat
            } else {
                0nat
            } by {
                lemma_bit_at_packed(element, c);
            }
            lemma_weighted_sum_step(
                matrix,
                n,
                row,
                counts(stored, skip, m, shorter),
                element,
                counts(stored, skip, m, upto),
                m,
            );
            lemma_add_mod_noop(
                others_total(matrix, m, n, row, history, value, shorter) as int,
                selected_sum(matrix, n, row, element, m) as int,
                modulus() as int,
            );
            lemma_selected_sum_reduced(matrix, n, row, element, m);
            lemma_small_mod(selected_sum(matrix, n, row, element, m), modulus());
        } else {
            assert(counts(stored, skip, m, upto) =~= counts(stored, skip, m, shorter));
        }
    }
}

/// The total over a prefix of the history is the total over the other
/// vectors plus the image of `history[k]`, once the prefix holds it.
proof fn lemma_total_split(
    matrix: Seq<nat>,
    m: nat,
    n: nat,
    row: nat,
    history: Seq<Seq<bool>>,
    k: int,
    upto: nat,
)
    requires
        distinct_elements(history, m),
        0 <= k < history.len(),
        upto <= history.len(),
    ensures
        image_total(matrix, m, n, row, history.take(upto as int)) == others_total(
            matrix,
            m,
            n,
            row,
            history,
            history[k],
            upto,
        ) + if k < upto {
            selected_sum(matrix, n, row, history[k], m)
        } else {
            0nat
        },
    decreases upto,
{
    if upto > 0 {
        lemma_total_split(matrix, m, n, row, history, k, (upto - 1) as nat);
        assert(history.take(upto as int).drop_last() =~= history.take(upto - 1));
        assert(history.take(upto as int).last() == history[upto - 1]);
    }
}

/// A vector that is stored among the first `upto` is not counted.
proof fn lemma_others_exclude_one(
    stored: Seq<Seq<u64>>,
    skip: Seq<u64>,
    column: int,
    upto: nat,
    k: int,
)
    requires
        0 <= k < upto,
        stored[k] == skip,
    ensures
        others_with_bit(stored, skip, column, upto) <= upto - 1,
    decreases upto,
{
    if k == upto - 1 {
        lemma_others_with_bit_bound(stored, skip, column, (upto - 1) as nat);
    } else {
        lemma_others_exclude_one(stored, skip, column, (upto - 1) as nat, k);
    }
}

/// Coordinates of at most `bound` have a squared norm of at most `upto * bound^2`.
proof fn lemma_squared_norm_bound(weights: Seq<nat>, bound: nat, upto: nat)
    requires
        forall|c: int| 0 <= c < upto ==> weights[c] <= bound,
        upto * (bound * bound) < modulus(),
    ensures
        squared_norm(weights, upto) <= upto * (bound * bound),
    decreases upto,
{
    if upto > 0 {
        let shorter = (upto - 1) as nat;
        let w = weights[upto - 1];
        assert(shorter * (bound * bound) + bound * bound == upto * (bound * bound))
            by (nonlinear_arith)
            requires
                shorter + 1 == upto,
        ;
        assert(w * w <= bound * bound) by (nonlinear_arith)
            requires
                w <= bound,
        ;
        lemma_squared_norm_bound(weights, bound, shorter);
        lemma_small_mod(w * w, modulus());
        lemma_small_mod(squared_norm(weights, shorter) + w * w, modulus());
    }
}

/// With distinct vectors of `m` bits accumulated, the others no more than a
/// machine word counts, the witness computed for one of them passes the
/// inclusion check exactly when none of its coordinates exceeds the capacity,
/// that is, when no bit position is set in more than `capacity` of the other
/// vectors.
pub proof fn law_distinct_elements_verify_within_capacity(
    params: &BinarySISParams,
    history: Seq<Seq<bool>>,
    k: int,
)
    requires
        params.wf(),
        distinct_elements(history, params.m as nat),
        history.len() - 1 <= usize::MAX,
        0 <= k < history.len(),
    ensures
        inclusion_holds(
            params,
            digest_after(values(params.a_matrix@), params.m as nat, params.n as nat, history),
            history[k],
            witness_spec(stored_after(history), packed(history[k]), params.m as nat),
        ) <==> forall|c: int|
            0 <= c < params.m ==> #[trigger] witness_spec(
                stored_after(history),
                packed(history[k]),
                params.m as nat,
            )[c] <= params.capacity,
{
    let matrix = values(params.a_matrix@);
    let m = params.m as nat;
    let n = params.n as nat;
    let capacity = params.capacity as nat;
    let value = history[k];
    let stored = stored_after(history);
    let skip = packed(value);
    let witness = witness_spec(stored, skip, m);
    let digest = digest_after(matrix, m, n, history);
    lemma_stored_of_distinct(history, m);
    assert(witness =~= counts(stored, skip, m, history.len()));
    assert(capacity * capacity < 0x1_0000_0000_0000_0000_0000_0000_0000_0000) by (nonlinear_arith)
        requires
            capacity < 0x1_0000_0000_0000_0000,
    ;
    assert(m * (capacity * capacity) < 0x1_0000_0000_0000_0000_0000_0000_0000_0000_0000_0000)
        by (nonlinear_arith)
        requires
            m < 0x1_0000_0000,
            capacity * capacity < 0x1_0000_0000_0000_0000_0000_0000_0000_0000,
    ;
    assert(m * capacity < 0x1_0000_0000_0000_0000_0000_0000) by (nonlinear_arith)
        requires
            m < 0x1_0000_0000,
            capacity < 0x1_0000_0000_0000_0000,
    ;
    assert((m * capacity) * (m * capacity)
        < 0x1_0000_0000_0000_0000_0000_0000_0000_0000_0000_0000_0000_0000) by (nonlinear_arith)
        requires
            m * capacity < 0x1_0000_0000_0000_0000_0000_0000,
    ;
    lemma_small_mod(capacity * capacity, modulus());
    lemma_small_mod(m * capacity, modulus());
    lemma_small_mod((m * capacity) * (m * capacity), modulus());
    // no square of a coordinate wraps around
    assert forall|c: int| 0 <= c < m implies field_mul(#[trigger] witness[c], witness[c])
        == witness[c] * witness[c] by {
        let w = witness[c];
        lemma_others_exclude_one(stored, skip, c, history.len(), k);
        assert(w * w < 0x1_0000_0000_0000_0000_0000_0000_0000_0000) by (nonlinear_arith)
            requires
                w < 0x1_0000_0000_0000_0000,
        ;
        lemma_small_mod(w * w, modulus());
    }
    if forall|c: int| 0 <= c < m ==> #[trigger] witness[c] <= capacity {
        // every coordinate is within its bound
        assert forall|c: int| 0 <= c < witness.len() implies field_mul(
            #[trigger] witness[c],
            witness[c],
        ) <= params.witness_element_squared@ by {
            let w = witness[c];
            assert(w * w <= capacity * capacity) by (nonlinear_arith)
                requires
                    w <= capacity,
            ;
        }
        // the whole witness is within its bound
        lemma_squared_norm_bound(witness, capacity, m);
        assert(m * (capacity * capacity) <= (m * capacity) * (m * capacity)) by (nonlinear_arith);
        // the images add up to the digest
        lemma_digest_is_total(matrix, m, n, history);
        assert(history.take(history.len() as int) =~= history);
        let sum = vector_sum(
            hash_spec(matrix, m, n, value),
            matrix_product(matrix, m, n, witness),
        );
        assert forall|row: int| 0 <= row < n implies #[trigger] sum[row] == digest[row] by {
            lemma_counts_image(matrix, m, n, row as nat, history, value, history.len());
            lemma_total_split(matrix, m, n, row as nat, history, k, history.len());
            let image = selected_sum(matrix, n, row as nat, value, m);
            let others = others_total(matrix, m, n, row as nat, history, value, history.len());
            lemma_selected_sum_reduced(matrix, n, row as nat, value, m);
            lemma_small_mod(image, modulus());
            lemma_add_mod_noop(image as int, others as int, modulus() as int);
        }
        assert(sum =~= digest);
    }
    if inclusion_holds(params, digest, value, witness) {
        assert forall|c: int| 0 <= c < m implies #[trigger] witness[c] <= capacity by {
            let w = witness[c];
            assert(field_mul(w, w) <= capacity * capacity);
            if w > capacity {
                assert(w * w > capacity * capacity) by (nonlinear_arith)
                    requires
                        w > capacity,
                        capacity >= 0,
                ;
            }
        }
    }
}

/// Accumulated elements verify: after distinct vectors of `m` bits were
/// accumulated, no more than the capacity besides the one in question, the
/// witness computed for any one of them passes the inclusion check.
pub proof fn law_accumulated_elements_verify(
    params: &BinarySISParams,
    history: Seq<Seq<bool>>,
    k: int,
)
    requires
        params.wf(),
        distinct_elements(history, params.m as nat),
        history.len() <= params.capacity + 1,
        0 <= k < history.len(),
    ensures
        inclusion_holds(
            params,
            digest_after(values(params.a_matrix@), params.m as nat, params.n as nat, history),
            history[k],
            witness_spec(stored_after(history), packed(history[k]), params.m as nat),
        ),
{
    let m = params.m as nat;
    let stored = stored_after(history);
    let skip = packed(history[k]);
    let witness = witness_spec(stored, skip, m);
    lemma_stored_of_distinct(history, m);
    assert forall|c: int| 0 <= c < m implies #[trigger] witness[c] <= params.capacity by {
        lemma_others_exclude_one(stored, skip, c, history.len(), k);
    }
    law_distinct_elements_verify_within_capacity(params, history, k);
}

/// Residues that give the same sum with a third residue are the same.
proof fn lemma_cancel_addend(a: nat, b: nat, x: nat)
    requires
        a < modulus(),
        b < modulus(),
        field_add(a, x) == field_add(b, x),
    ensures
        a == b,
{
    let p = modulus() as int;
    vstd::arithmetic::div_mod::lemma_fundamental_div_mod((a + x) as int, p);
    vstd::arithmetic::div_mod::lemma_fundamental_div_mod((b + x) as int, p);
    let qa = (a + x) as int / p;
    let qb = (b + x) as int / p;
    assert(a - b == p * qa - p * qb);
    assert(p * qa - p * qb == p * (qa - qb)) by (nonlinear_arith);
    if qa - qb >= 1 {
        assert(p * (qa - qb) >= p) by (nonlinear_arith)
            requires
                qa - qb >= 1,
                p > 0,
        ;
    }
    if qa - qb <= -1 {
        assert(p * (qa - qb) <= -p) by (nonlinear_arith)
            requires
                qa - qb <= -1,
                p > 0,
        ;
    }
}

/// A witness passes for two vectors only if they have the same image: once a
/// witness verifies one vector against a digest, every other vector that it
/// verifies against that digest collides with the first under the matrix.
pub proof fn law_shared_witness_needs_collision(
    params: &BinarySISParams,
    digest: Seq<nat>,
    first: Seq<bool>,
    second: Seq<bool>,
    witness: Seq<nat>,
)
    requires
        inclusion_holds(params, digest, first, witness),
        inclusion_holds(params, digest, second, witness),
    ensures
        hash_spec(values(params.a_matrix@), params.m as nat, params.n as nat, first) == hash_spec(
            values(params.a_matrix@),
            params.m as nat,
            params.n as nat,
            second,
        ),
{
    let matrix = values(params.a_matrix@);
    let m = params.m as nat;
    let n = params.n as nat;
    let image = matrix_product(matrix, m, n, witness);
    let one = hash_spec(matrix, m, n, first);
    let two = hash_spec(matrix, m, n, second);
    assert forall|row: int| 0 <= row < n implies one[row] == two[row] by {
        lemma_selected_sum_reduced(matrix, n, row as nat, first, m);
        lemma_selected_sum_reduced(matrix, n, row as nat, second, m);
        assert(vector_sum(one, image)[row] == vector_sum(two, image)[row]);
        lemma_cancel_addend(one[row], two[row], image[row]);
    }
    assert(one =~= two);
}

/// The vector with every coordinate replaced by its additive inverse; zero
/// coordinates stay zero.
pub open spec fn negated(weights: Seq<nat>) -> Seq<nat> {
    Seq::new(weights.len(), |i: int| field_neg(weights[i]))
}

/// A residue and its additive inverse add up to a multiple of the modulus.
proof fn lemma_inverse_cancels(x: nat)
    ensures
        (x + field_neg(x)) % modulus() == 0,
{
    let p = modulus() as int;
    let rest = (x % modulus()) as int;
    lemma_fundamental_div_mod(x as int, p);
    if rest == 0 {
        lemma_mod_multiples_vanish(1, 0, p);
        lemma_small_mod(0, modulus());
        assert(field_neg(x) == 0);
        assert(x + field_neg(x) == p * (x as int / p) + 0);
        lemma_mod_multiples_vanish(x as int / p, 0, p);
    } else {
        lemma_small_mod((p - rest) as nat, modulus());
        assert(field_neg(x) == p - rest);
        assert(p * (x as int / p) + p == p * (x as int / p + 1)) by (nonlinear_arith);
        assert(x + field_neg(x) == p * (x as int / p + 1) + 0);
        lemma_mod_multiples_vanish(x as int / p + 1, 0, p);
        lemma_small_mod(0, modulus());
    }
}

/// The matrix applied to the negated weights is the inverse of the matrix
/// applied to the weights: the two row sums add up to a multiple of the modulus.
proof fn lemma_weighted_sum_of_negated(
    matrix: Seq<nat>,
    n: nat,
    row: nat,
    weights: Seq<nat>,
    upto: nat,
)
    requires
        upto <= weights.len(),
    ensures
        (weighted_sum(matrix, n, row, weights, upto) + weighted_sum(
            matrix,
            n,
            row,
            negated(weights),
            upto,
        )) % modulus() == 0,
    decreases upto,
{
    let p = modulus() as int;
    if upto == 0 {
        lemma_small_mod(0, modulus());
    } else {
        let shorter = (upto - 1) as nat;
        lemma_weighted_sum_of_negated(matrix, n, row, weights, shorter);
        let entry = matrix[row * n + upto - 1] as int;
        let w = weights[upto - 1] as int;
        let v = field_neg(weights[upto - 1]) as int;
        assert(negated(weights)[upto - 1] == v);
        let sum_w = weighted_sum(matrix, n, row, weights, shorter) as int;
        let sum_v = weighted_sum(matrix, n, row, negated(weights), shorter) as int;
        // the two new terms cancel
        lemma_inverse_cancels(weights[upto - 1]);
        assert(w * entry + v * entry == (w + v) * entry) by (nonlinear_arith);
        lemma_mul_mod_noop_left(w + v, entry, p);
        assert(0 * entry == 0);
        lemma_small_mod(0, modulus());
        assert((w * entry + v * entry) % p == 0);
        // both sums are reduced sums of their parts
        lemma_add_mod_noop(sum_w, w * entry, p);
        lemma_add_mod_noop(sum_v, v * entry, p);
        lemma_weighted_sum_reduced(matrix, n, row, weights, shorter);
        lemma_weighted_sum_reduced(matrix, n, row, negated(weights), shorter);
        lemma_small_mod(sum_w as nat, modulus());
        lemma_small_mod(sum_v as nat, modulus());
        let left = weighted_sum(matrix, n, row, weights, upto) as int;
        let right = weighted_sum(matrix, n, row, negated(weights), upto) as int;
        assert(left == (sum_w + w * entry) % p);
        assert(right == (sum_v + v * entry) % p);
        lemma_add_mod_noop(sum_w + w * entry, sum_v + v * entry, p);
        lemma_add_mod_noop(sum_w + sum_v, w * entry + v * entry, p);
        assert((sum_w + w * entry) + (sum_v + v * entry) == (sum_w + sum_v) + (w * entry + v
            * entry));
    }
}

/// A residue that is its own additive inverse is zero: the modulus is odd.
proof fn lemma_self_inverse_is_zero(x: nat)
    requires
        x < modulus(),
        (x + x) % modulus() == 0,
    ensures
        x == 0,
{
    let p = modulus() as int;
    lemma_fundamental_div_mod((x + x) as int, p);
    let q = (x + x) as int / p;
    assert(x + x == p * q);
    if q >= 2 {
        assert(p * q >= p * 2) by (nonlinear_arith)
            requires
                q >= 2,
                p > 0,
        ;
    }
    if q <= -1 {
        assert(p * q <= -p) by (nonlinear_arith)
            requires
                q <= -1,
                p > 0,
        ;
    }
    if q == 1 {
        assert(p * 1 == p);
        assert(p % 2 == 1);
    }
    if q == 0 {
        assert(p * 0 == 0);
    }
}

/// Negating a witness flips an accepting check: where a witness passes the
/// inclusion check and its image under the matrix is not zero, the witness
/// with every non-zero coordinate negated fails the check for the same
/// vector and digest.
pub proof fn law_negated_witness_is_rejected(
    params: &BinarySISParams,
    digest: Seq<nat>,
    value: Seq<bool>,
    witness: Seq<nat>,
    row: int,
)
    requires
        inclusion_holds(params, digest, value, witness),
        0 <= row < params.n,
        matrix_product(values(params.a_matrix@), params.m as nat, params.n as nat, witness)[row]
            != 0,
    ensures
        !inclusion_holds(params, digest, value, negated(witness)),
{
    let matrix = values(params.a_matrix@);
    let m = params.m as nat;
    let n = params.n as nat;
    if inclusion_holds(params, digest, value, negated(witness)) {
        let image = hash_spec(matrix, m, n, value);
        let forth = matrix_product(matrix, m, n, witness);
        let back = matrix_product(matrix, m, n, negated(witness));
        lemma_weighted_sum_reduced(matrix, n, row as nat, witness, m);
        lemma_weighted_sum_reduced(matrix, n, row as nat, negated(witness), m);
        assert(vector_sum(image, forth)[row] == vector_sum(image, back)[row]);
        assert(field_add(forth[row], image[row]) == field_add(back[row], image[row]));
        lemma_cancel_addend(forth[row], back[row], image[row]);
        lemma_weighted_sum_of_negated(matrix, n, row as nat, witness, m);
        lemma_self_inverse_is_zero(forth[row]);
    }
}

} // verus!
