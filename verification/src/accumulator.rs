//! The accumulator: a running digest over the binary vectors added to it.
//!
//! The matrix entry of the cell `(row, column)` is `a_matrix[row * n + column]`,
//! in generation and in every product. Witnesses live in pre-image space: a
//! witness has one coordinate per bit of an element, and the matrix is applied
//! to it when inclusion is checked.

use vstd::prelude::*;
use crate::bits::{bit_at, pack_bits, packed, packed_len, unpack_bits};
use crate::field::{
    all_valid,
    all_wf,
    field_add,
    field_mul,
    values,
    zeros,
    FieldElement,
    Multiplier,
};
use crate::params::{lemma_row_in_range, BinarySISParams};

verus! {

/// Sum of the row's entries at the columns below `upto` whose bit is set.
pub open spec fn selected_sum(matrix: Seq<nat>, n: nat, row: nat, bits: Seq<bool>, upto: nat) -> nat
    decreases upto,
{
    if upto == 0 {
        0
    } else {
        let rest = selected_sum(matrix, n, row, bits, (upto - 1) as nat);
        if bits[upto - 1] {
            field_add(rest, matrix[row * n + upto - 1])
        } else {
            rest
        }
    }
}

/// The digest-space image of a binary vector of length `m`.
pub open spec fn hash_spec(matrix: Seq<nat>, m: nat, n: nat, bits: Seq<bool>) -> Seq<nat> {
    Seq::new(n, |row: int| selected_sum(matrix, n, row as nat, bits, m))
}

/// Sum of the row's entries at the columns below `upto`, each multiplied by
/// the weight of its column.
pub open spec fn weighted_sum(
    matrix: Seq<nat>,
    n: nat,
    row: nat,
    weights: Seq<nat>,
    upto: nat,
) -> nat
    decreases upto,
{
    if upto == 0 {
        0
    } else {
        field_add(
            weighted_sum(matrix, n, row, weights, (upto - 1) as nat),
            field_mul(weights[upto - 1], matrix[row * n + upto - 1]),
        )
    }
}

/// The matrix applied to a vector of `m` field elements.
pub open spec fn matrix_product(matrix: Seq<nat>, m: nat, n: nat, weights: Seq<nat>) -> Seq<nat> {
    Seq::new(n, |row: int| weighted_sum(matrix, n, row as nat, weights, m))
}

/// Elementwise sum of two vectors of field elements.
pub open spec fn vector_sum(a: Seq<nat>, b: Seq<nat>) -> Seq<nat> {
    Seq::new(a.len(), |i: int| field_add(a[i], b[i]))
}

/// Number of set bits among the first `upto`.
pub open spec fn hamming_weight(bits: Seq<bool>, upto: nat) -> nat
    decreases upto,
{
    if upto == 0 {
        0
    } else {
        hamming_weight(bits, (upto - 1) as nat) + if bits[upto - 1] {
            1nat
        } else {
            0nat
        }
    }
}

/// Field sum of the squares of the first `upto` coordinates.
pub open spec fn squared_norm(weights: Seq<nat>, upto: nat) -> nat
    decreases upto,
{
    if upto == 0 {
        0
    } else {
        field_add(
            squared_norm(weights, (upto - 1) as nat),
            field_mul(weights[upto - 1], weights[upto - 1]),
        )
    }
}

/// The square of every coordinate is at most `bound`.
pub open spec fn coordinates_bounded(weights: Seq<nat>, bound: nat) -> bool {
    forall|i: int| 0 <= i < weights.len() ==> field_mul(#[trigger] weights[i], weights[i]) <= bound
}

/// Number of the first `upto` stored vectors, other than `skip`, whose bit at
/// `column` is set.
pub open spec fn others_with_bit(
    stored: Seq<Seq<u64>>,
    skip: Seq<u64>,
    column: int,
    upto: nat,
) -> nat
    decreases upto,
{
    if upto == 0 {
        0
    } else {
        others_with_bit(stored, skip, column, (upto - 1) as nat) + if stored[upto - 1] != skip
            && bit_at(stored[upto - 1], column) {
            1nat
        } else {
            0nat
        }
    }
}

/// The witness for the vector that packs into `skip`: per bit position, the
/// number of other stored vectors with that bit set.
pub open spec fn witness_spec(stored: Seq<Seq<u64>>, skip: Seq<u64>, m: nat) -> Seq<nat> {
    Seq::new(m, |column: int| others_with_bit(stored, skip, column, stored.len()))
}

/// The inclusion check: every witness coordinate and the whole witness are
/// within their norm bounds, the witness has `m` coordinates, and the image of
/// the element plus the image of the witness is the digest.
pub open spec fn inclusion_holds(
    params: &BinarySISParams,
    digest: Seq<nat>,
    value: Seq<bool>,
    witness: Seq<nat>,
) -> bool {
    let matrix = values(params.a_matrix@);
    &&& coordinates_bounded(witness, params.witness_element_squared@)
    &&& squared_norm(witness, witness.len()) <= params.witness_norm_squared@
    &&& witness.len() == params.m
    &&& vector_sum(
        hash_spec(matrix, params.m as nat, params.n as nat, value),
        matrix_product(matrix, params.m as nat, params.n as nat, witness),
    ) == digest
}

/// At most `upto` vectors are counted.
pub proof fn lemma_others_with_bit_bound(
    stored: Seq<Seq<u64>>,
    skip: Seq<u64>,
    column: int,
    upto: nat,
)
    ensures
        others_with_bit(stored, skip, column, upto) <= upto,
    decreases upto,
{
    if upto > 0 {
        lemma_others_with_bit_bound(stored, skip, column, (upto - 1) as nat);
    }
}

/// Whether two vectors of words are the same.
fn words_equal(a: &Vec<u64>, b: &Vec<u64>) -> (r: bool)
    ensures
        r == (a@ == b@),
{
    if a.len() != b.len() {
        return false;
    }
    let mut i: usize = 0;
    while i < a.len()
        invariant
            i <= a.len(),
            a.len() == b.len(),
            forall|j: int| 0 <= j < i ==> a@[j] == b@[j],
        decreases a.len() - i,
    {
        if a[i] != b[i] {
            return false;
        }
        i = i + 1;
    }
    assert(a@ =~= b@);
    true
}

/// Whether two vectors of field elements hold the same elements.
fn elements_equal(a: &Vec<FieldElement>, b: &Vec<FieldElement>) -> (r: bool)
    ensures
        r == (values(a@) == values(b@)),
{
    if a.len() != b.len() {
        assert(values(a@).len() != values(b@).len());
        return false;
    }
    let mut i: usize = 0;
    while i < a.len()
        invariant
            i <= a.len(),
            a.len() == b.len(),
            forall|j: int| 0 <= j < i ==> a@[j]@ == b@[j]@,
        decreases a.len() - i,
    {
        if a[i] != b[i] {
            proof {
                if a@[i as int]@ == b@[i as int]@ {
                    FieldElement::lemma_view_injective(a@[i as int], b@[i as int]);
                }
                assert(values(a@)[i as int] != values(b@)[i as int]);
            }
            return false;
        }
        i = i + 1;
    }
    assert(values(a@) =~= values(b@));
    true
}

/// A running digest over binary vectors of `params.m` bits.
pub struct BinarySISAccumulator<'a> {
    pub params: &'a BinarySISParams,
    pub accumulated_value: Vec<FieldElement>,
    pub capacity: usize,
    pub elements: Vec<Vec<u64>>,
}

impl<'a> BinarySISAccumulator<'a> {
    /// The packed vectors that were added, in the order of their first addition.
    pub open spec fn stored(&self) -> Seq<Seq<u64>> {
        Seq::new(self.elements@.len(), |j: int| self.elements@[j]@)
    }

    /// The digest as representatives.
    pub open spec fn digest(&self) -> Seq<nat> {
        values(self.accumulated_value@)
    }

    /// The digest has `n` well-formed entries, and the stored vectors are
    /// distinct packings of `m` bits.
    pub open spec fn wf(&self) -> bool {
        &&& self.params.wf()
        &&& self.params.m + 63 <= usize::MAX / 8
        &&& self.capacity == self.params.capacity
        &&& self.accumulated_value@.len() == self.params.n
        &&& all_wf(self.accumulated_value@)
        &&& forall|j: int|
            0 <= j < self.elements@.len() ==> (#[trigger] self.elements@[j])@.len() == packed_len(
                self.params.m as nat,
            )
        &&& forall|i: int, j: int|
            0 <= i < j < self.elements@.len() ==> (#[trigger] self.elements@[i])@ != (
            #[trigger] self.elements@[j])@
    }

    /// Whether the accumulator is well formed.
    pub fn is_well_formed(&self) -> (r: bool)
        ensures
            r == self.wf(),
    {
        if !self.params.is_well_formed() {
            return false;
        }
        if self.params.m as u64 + 63 > (usize::MAX / 8) as u64 {
            return false;
        }
        if self.capacity != self.params.capacity || self.accumulated_value.len()
            != self.params.n as usize || !all_valid(&self.accumulated_value) {
            return false;
        }
        let words: usize = (self.params.m as usize + 63) / 64;
        let mut j: usize = 0;
        while j < self.elements.len()
            invariant
                j <= self.elements.len(),
                words == packed_len(self.params.m as nat),
                forall|k: int|
                    0 <= k < j ==> (#[trigger] self.elements@[k])@.len() == packed_len(
                        self.params.m as nat,
                    ),
                forall|i: int, k: int|
                    0 <= i < k < j ==> (#[trigger] self.elements@[i])@ != (
                    #[trigger] self.elements@[k])@,
            decreases self.elements.len() - j,
        {
            if self.elements[j].len() != words {
                return false;
            }
            let mut i: usize = 0;
            while i < j
                invariant
                    i <= j,
                    j < self.elements.len(),
                    forall|h: int|
                        0 <= h < i ==> (#[trigger] self.elements@[h])@ != self.elements@[j as int]@,
                decreases j - i,
            {
                if words_equal(&self.elements[i], &self.elements[j]) {
                    return false;
                }
                i = i + 1;
            }
            j = j + 1;
        }
        true
    }

    /// An empty accumulator: the digest is zero and nothing is stored.
    pub fn new(params: &'a BinarySISParams) -> (r: Self)
        requires
            params.wf(),
            params.m + 63 <= usize::MAX / 8,
        ensures
            r.wf(),
            r.params == params,
            r.capacity == params.capacity,
            r.digest() == Seq::new(params.n as nat, |i: int| 0nat),
            r.stored() == Seq::<Seq<u64>>::empty(),
    {
        let r = BinarySISAccumulator {
            params,
            accumulated_value: zeros(params.n as usize),
            capacity: params.capacity,
            elements: Vec::new(),
        };
        assert(r.digest() =~= Seq::new(params.n as nat, |i: int| 0nat));
        assert(r.stored() =~= Seq::<Seq<u64>>::empty());
        r
    }

    /// Maps a binary vector of `m` bits into digest space: entry `row` is the
    /// sum of the matrix entries `a_matrix[row * n + column]` over the columns
    /// whose bit is set. A vector of `m` bits is always short enough to be
    /// hashed: its weight is at most `m`, which the element threshold covers.
    pub fn hash(&self, value: &[bool]) -> (r: Vec<FieldElement>)
        requires
            self.params.wf(),
            value@.len() == self.params.m,
        ensures
            r@.len() == self.params.n,
            all_wf(r@),
            values(r@) == hash_spec(
                values(self.params.a_matrix@),
                self.params.m as nat,
                self.params.n as nat,
                value@,
            ),
    {
        let m = self.params.m as usize;
        let n = self.params.n as usize;
        let ghost matrix = values(self.params.a_matrix@);
        let mut result: Vec<FieldElement> = Vec::with_capacity(n);
        let mut row: usize = 0;
        while row < n
            invariant
                row <= n,
                m == self.params.m,
                n == self.params.n,
                self.params.wf(),
                value@.len() == m,
                matrix == values(self.params.a_matrix@),
                result@.len() == row,
                all_wf(result@),
                forall|i: int|
                    0 <= i < row ==> (#[trigger] result@[i])@ == selected_sum(
                        matrix,
                        n as nat,
                        i as nat,
                        value@,
                        m as nat,
                    ),
            decreases n - row,
        {
            let mut accumulated = FieldElement::zero();
            let mut column: usize = 0;
            proof {
                if m > 0 {
                    lemma_row_in_range(m as nat, n as nat, row as nat);
                    assert(self.params.a_matrix.len() == m * n);
                }
            }
            let base: usize = if m == 0 {
                0
            } else {
                row * n
            };
            while column < m
                invariant
                    column <= m,
                    row < n,
                    m == self.params.m,
                    n == self.params.n,
                    m > 0 ==> base == row * n,
                    base + m <= self.params.a_matrix.len(),
                    self.params.wf(),
                    value@.len() == m,
                    matrix == values(self.params.a_matrix@),
                    accumulated.wf(),
                    accumulated@ == selected_sum(
                        matrix,
                        n as nat,
                        row as nat,
                        value@,
                        column as nat,
                    ),
                decreases m - column,
            {
                if value[column] {
                    accumulated.add_assign(&self.params.a_matrix[base + column]);
                }
                column = column + 1;
            }
            result.push(accumulated);
            row = row + 1;
        }
        assert(values(result@) =~= hash_spec(matrix, m as nat, n as nat, value@));
        result
    }

    /// Applies the matrix to a vector of `m` field elements: entry `row` is
    /// the sum of `value[column] * a_matrix[row * n + column]` over all columns.
    pub fn a_matrix_multiply(&self, value: &[FieldElement]) -> (r: Vec<FieldElement>)
        requires
            self.params.wf(),
            value@.len() == self.params.m,
            all_wf(value@),
        ensures
            r@.len() == self.params.n,
            all_wf(r@),
            values(r@) == matrix_product(
                values(self.params.a_matrix@),
                self.params.m as nat,
                self.params.n as nat,
                values(value@),
            ),
    {
        let m = self.params.m as usize;
        let n = self.params.n as usize;
        let ghost matrix = values(self.params.a_matrix@);
        let ghost weights = values(value@);
        let mut factors: Vec<Multiplier> = Vec::with_capacity(m);
        let mut prepared: usize = 0;
        while prepared < m
            invariant
                prepared <= m,
                value@.len() == m,
                all_wf(value@),
                weights == values(value@),
                factors@.len() == prepared,
                forall|c: int|
                    0 <= c < prepared ==> (#[trigger] factors@[c]).wf() && factors@[c].factor()
                        == weights[c],
            decreases m - prepared,
        {
            factors.push(Multiplier::new(&value[prepared]));
            prepared = prepared + 1;
        }
        let mut result: Vec<FieldElement> = Vec::with_capacity(n);
        let mut row: usize = 0;
        while row < n
            invariant
                row <= n,
                m == self.params.m,
                n == self.params.n,
                self.params.wf(),
                matrix == values(self.params.a_matrix@),
                factors@.len() == m,
                forall|c: int|
                    0 <= c < m ==> (#[trigger] factors@[c]).wf() && factors@[c].factor()
                        == weights[c],
                result@.len() == row,
                all_wf(result@),
                forall|i: int|
                    0 <= i < row ==> (#[trigger] result@[i])@ == weighted_sum(
                        matrix,
                        n as nat,
                        i as nat,
                        weights,
                        m as nat,
                    ),
            decreases n - row,
        {
            let mut accumulated = FieldElement::zero();
            let mut column: usize = 0;
            proof {
                if m > 0 {
                    lemma_row_in_range(m as nat, n as nat, row as nat);
                    assert(self.params.a_matrix.len() == m * n);
                }
            }
            let base: usize = if m == 0 {
                0
            } else {
                row * n
            };
            while column < m
                invariant
                    column <= m,
                    row < n,
                    m == self.params.m,
                    n == self.params.n,
                    m > 0 ==> base == row * n,
                    base + m <= self.params.a_matrix.len(),
                    self.params.wf(),
                    matrix == values(self.params.a_matrix@),
                    factors@.len() == m,
                    forall|c: int|
                        0 <= c < m ==> (#[trigger] factors@[c]).wf() && factors@[c].factor()
                            == weights[c],
                    accumulated.wf(),
                    accumulated@ == weighted_sum(
                        matrix,
                        n as nat,
                        row as nat,
                        weights,
                        column as nat,
                    ),
                decreases m - column,
            {
                let term = factors[column].times(&self.params.a_matrix[base + column]);
                accumulated.add_assign(&term);
                column = column + 1;
            }
            result.push(accumulated);
            row = row + 1;
        }
        assert(values(result@) =~= matrix_product(matrix, m as nat, n as nat, weights));
        result
    }

    /// Adds a binary vector of `m` bits: its image is added to the digest,
    /// once per call, and its packing is stored unless it is stored already.
    pub fn acculumate(&mut self, value: &[bool])
        requires
            old(self).wf(),
            value@.len() == old(self).params.m,
        ensures
            final(self).wf(),
            final(self).params == old(self).params,
            final(self).capacity == old(self).capacity,
            final(self).digest() == vector_sum(
                old(self).digest(),
                hash_spec(
                    values(old(self).params.a_matrix@),
                    old(self).params.m as nat,
                    old(self).params.n as nat,
                    value@,
                ),
            ),
            final(self).stored() == if old(self).stored().contains(packed(value@)) {
                old(self).stored()
            } else {
                old(self).stored().push(packed(value@))
            },
    {
        let h = self.hash(value);
        let n = self.params.n as usize;
        let ghost before = self.digest();
        assert(values(h@).len() == n);
        let mut i: usize = 0;
        while i < n
            invariant
                i <= n,
                n == self.params.n,
                before.len() == n,
                self.params == old(self).params,
                self.capacity == old(self).capacity,
                self.elements == old(self).elements,
                self.accumulated_value@.len() == n,
                h@.len() == n,
                all_wf(h@),
                all_wf(self.accumulated_value@),
                before == old(self).digest(),
                forall|j: int|
                    0 <= j < i ==> (#[trigger] self.accumulated_value@[j])@ == field_add(
                        before[j],
                        h@[j]@,
                    ),
                forall|j: int| i <= j < n ==> (#[trigger] self.accumulated_value@[j])@ == before[j],
            decreases n - i,
        {
            let mut entry = self.accumulated_value[i];
            entry.add_assign(&h[i]);
            self.accumulated_value.set(i, entry);
            i = i + 1;
        }
        assert(self.digest() =~= vector_sum(before, values(h@)));
        let storage_vector = pack_bits(value);
        let mut found = false;
        let mut j: usize = 0;
        while j < self.elements.len()
            invariant
                j <= self.elements.len(),
                self.elements == old(self).elements,
                !found ==> forall|k: int| 0 <= k < j ==> (#[trigger] self.elements@[k])@ != storage_vector@,
                found ==> old(self).stored().contains(storage_vector@),
            decreases self.elements.len() - j,
        {
            if words_equal(&self.elements[j], &storage_vector) {
                assert(old(self).stored()[j as int] == storage_vector@);
                found = true;
            }
            j = j + 1;
        }
        if !found {
            assert(!old(self).stored().contains(storage_vector@));
            self.elements.push(storage_vector);
            assert(self.stored() =~= old(self).stored().push(packed(value@)));
        } else {
            assert(self.stored() =~= old(self).stored());
        }
    }

    /// Computes the witness for a binary vector: per bit position, the number
    /// of stored vectors with that bit set, leaving out the stored vector
    /// whose packing is that of `value`. The witness has `m` coordinates.
    pub fn calculate_witness(&self, value: &[bool]) -> (w: Vec<FieldElement>)
        requires
            self.wf(),
            value@.len() <= usize::MAX / 8,
        ensures
            w@.len() == self.params.m,
            all_wf(w@),
            values(w@) == witness_spec(self.stored(), packed(value@), self.params.m as nat),
    {
        let storage_vector = pack_bits(value);
        let m = self.params.m as usize;
        let one = FieldElement::one();
        let ghost stored = self.stored();
        let ghost skip = storage_vector@;
        let mut w = zeros(m);
        let mut j: usize = 0;
        while j < self.elements.len()
            invariant
                j <= self.elements.len(),
                self.wf(),
                m == self.params.m,
                one.wf(),
                one@ == 1,
                stored == self.stored(),
                skip == storage_vector@,
                w@.len() == m,
                all_wf(w@),
                forall|c: int|
                    0 <= c < m ==> (#[trigger] w@[c])@ == others_with_bit(stored, skip, c, j as nat),
            decreases self.elements.len() - j,
        {
            assert(stored[j as int] == self.elements@[j as int]@);
            if !words_equal(&self.elements[j], &storage_vector) {
                let bits = unpack_bits(self.elements[j].as_slice());
                let mut i: usize = 0;
                while i < m
                    invariant
                        i <= m,
                        j < self.elements.len(),
                        m <= bits@.len(),
                        one.wf(),
                        one@ == 1,
                        stored == self.stored(),
                        stored[j as int] == self.elements@[j as int]@,
                        stored[j as int] != skip,
                        forall|k: int|
                            0 <= k < bits@.len() ==> bits@[k] == bit_at(
                                self.elements@[j as int]@,
                                k,
                            ),
                        w@.len() == m,
                        all_wf(w@),
                        forall|c: int|
                            0 <= c < i ==> (#[trigger] w@[c])@ == others_with_bit(
                                stored,
                                skip,
                                c,
                                (j + 1) as nat,
                            ),
                        forall|c: int|
                            i <= c < m ==> (#[trigger] w@[c])@ == others_with_bit(
                                stored,
                                skip,
                                c,
                                j as nat,
                            ),
                    decreases m - i,
                {
                    if bits[i] {
                        proof {
                            lemma_others_with_bit_bound(stored, skip, i as int, j as nat);
                            vstd::arithmetic::div_mod::lemma_small_mod(
                                w@[i as int]@ + 1,
                                crate::field::modulus(),
                            );
                        }
                        let mut entry = w[i];
                        entry.add_assign(&one);
                        w.set(i, entry);
                    }
                    i = i + 1;
                }
            }
            j = j + 1;
        }
        assert(values(w@) =~= witness_spec(stored, skip, m as nat));
        w
    }

    /// Checks a witness for a binary vector of `m` bits against the digest.
    /// A witness of any length is taken: the norm bounds are tested on all
    /// its coordinates, and one that has not `m` coordinates is rejected.
    pub fn check_inclusion(&self, value: &[bool], witness: &[FieldElement]) -> (r: bool)
        requires
            self.wf(),
            value@.len() == self.params.m,
            all_wf(witness@),
        ensures
            r == inclusion_holds(self.params, self.digest(), value@, values(witness@)),
    {
        let mut h = self.hash(value);
        let ghost weights = values(witness@);
        let mut input_norm = FieldElement::zero();
        let mut i: usize = 0;
        while i < witness.len()
            invariant
                i <= witness.len(),
                self.wf(),
                all_wf(witness@),
                weights == values(witness@),
                input_norm.wf(),
                input_norm@ == squared_norm(weights, i as nat),
                forall|k: int|
                    0 <= k < i ==> field_mul(#[trigger] weights[k], weights[k])
                        <= self.params.witness_element_squared@,
            decreases witness.len() - i,
        {
            let mut w_squared = witness[i];
            w_squared.square();
            if !w_squared.repr_le(&self.params.witness_element_squared) {
                assert(field_mul(weights[i as int], weights[i as int])
                    > self.params.witness_element_squared@);
                return false;
            }
            input_norm.add_assign(&w_squared);
            i = i + 1;
        }
        if !input_norm.repr_le(&self.params.witness_norm_squared) {
            return false;
        }
        if witness.len() != self.params.m as usize {
            return false;
        }
        let w = self.a_matrix_multiply(witness);
        let n = self.params.n as usize;
        let ghost image = values(h@);
        assert(values(w@).len() == n);
        assert(image.len() == n);
        let mut row: usize = 0;
        while row < n
            invariant
                row <= n,
                h@.len() == n,
                w@.len() == n,
                image.len() == n,
                all_wf(h@),
                all_wf(w@),
                forall|k: int|
                    0 <= k < row ==> (#[trigger] h@[k])@ == field_add(image[k], w@[k]@),
                forall|k: int| row <= k < n ==> (#[trigger] h@[k])@ == image[k],
            decreases n - row,
        {
            let mut entry = h[row];
            entry.add_assign(&w[row]);
            h.set(row, entry);
            row = row + 1;
        }
        assert(values(h@) =~= vector_sum(image, values(w@)));
        elements_equal(&h, &self.accumulated_value)
    }
}

} // verus!
