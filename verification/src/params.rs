//! Public parameters of the accumulator: the matrix and the norm bounds.

use vstd::prelude::*;
use crate::field::{all_valid, all_wf, field_mul, modulus, zeros, FieldElement};
use crate::sampling::{sample_cell, sampled_cell};

verus! {

/// Half the number of bits that every field element can hold.
pub const HALF_CAPACITY_BITS: u32 = 126;

/// Smallest `k` with `value <= 2^k`; `0` for `value == 0`.
pub open spec fn ceil_log2(value: nat) -> nat
    decreases value,
{
    if value <= 1 {
        0
    } else {
        1 + ceil_log2(((value + 1) / 2) as nat)
    }
}

/// Number of bits in the binary representation of `value`; `0` for `value == 0`.
pub open spec fn bit_length(value: nat) -> nat
    decreases value,
{
    if value == 0 {
        0
    } else {
        1 + bit_length(value / 2)
    }
}

/// The three bit-length ceilings on the norms before they are squared.
pub open spec fn norm_bounds_hold(m: nat, capacity: nat) -> bool {
    &&& bit_length(m % modulus()) + ceil_log2(m) + ceil_log2(capacity) <= HALF_CAPACITY_BITS
    &&& bit_length(capacity % modulus()) + ceil_log2(capacity) <= HALF_CAPACITY_BITS
    &&& bit_length(field_mul(m, capacity)) <= HALF_CAPACITY_BITS
}

/// Every cell `(row, column)` with `row < n` and `column < m` has its index
/// `row * n + column` inside the `m * n` entries of the matrix.
pub open spec fn cells_in_range(m: nat, n: nat) -> bool {
    n == 0 || m == 0 || n <= m
}

/// Number of leading matrix entries that some cell is stored at.
pub open spec fn used_len(m: nat, n: nat) -> nat {
    if n == 0 || m == 0 {
        0
    } else {
        ((n - 1) * n + m) as nat
    }
}

/// Row of the last cell, in row-major order, that is stored at `index`.
pub open spec fn owner_row(index: nat, n: nat) -> nat {
    if index / n <= n - 1 {
        index / n
    } else {
        (n - 1) as nat
    }
}

/// Column of the last cell, in row-major order, that is stored at `index`.
pub open spec fn owner_column(index: nat, n: nat) -> nat {
    (index - owner_row(index, n) * n) as nat
}

/// The matrix entry at `index`: the sample of the last cell stored there, and
/// zero where no cell is stored.
pub open spec fn matrix_entry(personalization: Seq<u8>, m: nat, n: nat, index: nat) -> Option<nat> {
    if index < used_len(m, n) {
        sampled_cell(personalization, owner_row(index, n), owner_column(index, n))
    } else {
        Some(0nat)
    }
}

/// Every cell `(row, column)` with `row < n` and `column < m` can be sampled.
pub open spec fn every_cell_samples(personalization: Seq<u8>, m: nat, n: nat) -> bool {
    forall|row: nat, column: nat|
        row < n && column < m ==> (#[trigger] sampled_cell(personalization, row, column)).is_some()
}

/// Samples every cell, row by row, and tells whether none ran out of nonces.
pub fn cells_sample(personalization: &[u8], m: u32, n: u32) -> (r: bool)
    ensures
        r == every_cell_samples(personalization@, m as nat, n as nat),
{
    let mut row: u32 = 0;
    while row < n
        invariant
            row <= n,
            forall|i: nat, column: nat|
                i < row && column < m ==> (#[trigger] sampled_cell(
                    personalization@,
                    i,
                    column,
                )).is_some(),
        decreases n - row,
    {
        let mut column: u32 = 0;
        while column < m
            invariant
                column <= m,
                row < n,
                forall|i: nat, j: nat|
                    i < row && j < m ==> (#[trigger] sampled_cell(personalization@, i, j)).is_some(),
                forall|j: nat|
                    j < column ==> (#[trigger] sampled_cell(
                        personalization@,
                        row as nat,
                        j,
                    )).is_some(),
            decreases m - column,
        {
            if sample_cell(personalization, row, column).is_none() {
                assert(sampled_cell(personalization@, row as nat, column as nat).is_none());
                return false;
            }
            column = column + 1;
        }
        row = row + 1;
    }
    true
}

/// Parameters of an accumulator over binary vectors.
pub struct BinarySISParams {
    pub m: u32,
    pub n: u32,
    pub a_matrix: Vec<FieldElement>,
    pub capacity: usize,
    pub element_norm_squared: FieldElement,
    pub witness_element_squared: FieldElement,
    pub witness_norm_squared: FieldElement,
}

impl BinarySISParams {
    /// The matrix has `m * n` well-formed entries that every cell index falls
    /// into, and the thresholds are the squared norms that `m` and the
    /// capacity give.
    pub open spec fn wf(&self) -> bool {
        &&& self.a_matrix@.len() == self.m * self.n
        &&& all_wf(self.a_matrix@)
        &&& cells_in_range(self.m as nat, self.n as nat)
        &&& norm_bounds_hold(self.m as nat, self.capacity as nat)
        &&& self.element_norm_squared.wf()
        &&& self.witness_element_squared.wf()
        &&& self.witness_norm_squared.wf()
        &&& self.element_norm_squared@ == field_mul(self.m as nat, self.m as nat)
        &&& self.witness_element_squared@ == field_mul(self.capacity as nat, self.capacity as nat)
        &&& self.witness_norm_squared@ == field_mul(
            field_mul(self.m as nat, self.capacity as nat),
            field_mul(self.m as nat, self.capacity as nat),
        )
    }

    /// The parameters are the ones generated from `personalization` for the
    /// given dimensions and capacity.
    pub open spec fn generated_from(
        &self,
        personalization: Seq<u8>,
        m: u32,
        n: u32,
        capacity: usize,
    ) -> bool {
        &&& self.wf()
        &&& self.m == m
        &&& self.n == n
        &&& self.capacity == capacity
        &&& forall|i: int|
            0 <= i < m * n ==> Some((#[trigger] self.a_matrix@[i])@) == matrix_entry(
                personalization,
                m as nat,
                n as nat,
                i as nat,
            )
    }

    /// The parameters for `m`-bit elements and `n`-element digests, where
    /// every cell can be sampled.
    ///
    /// Storing the sample of every cell at `row * n + column`, row by row,
    /// leaves at each index the sample of the last cell stored there, so the
    /// cells that a later row overwrites are not hashed here: that they can
    /// be sampled is the caller's part, and `generate` tests it.
    pub fn new(personalization: &[u8], m: u32, n: u32, capacity: usize) -> (r: BinarySISParams)
        requires
            cells_in_range(m as nat, n as nat),
            m * n <= usize::MAX,
            norm_bounds_hold(m as nat, capacity as nat),
            every_cell_samples(personalization@, m as nat, n as nat),
        ensures
            r.generated_from(personalization@, m, n, capacity),
    {
        proof {
            lemma_used_len_fits(m as nat, n as nat);
        }
        let len: usize = (m as usize) * (n as usize);
        let used: usize = if n == 0 || m == 0 {
            0
        } else {
            (n as usize - 1) * (n as usize) + (m as usize)
        };
        let mut a_matrix = zeros(len);
        let mut index: usize = 0;
        while index < used
            invariant
                index <= used,
                used == used_len(m as nat, n as nat),
                used <= len,
                len == m * n,
                cells_in_range(m as nat, n as nat),
                every_cell_samples(personalization@, m as nat, n as nat),
                a_matrix@.len() == len,
                all_wf(a_matrix@),
                forall|i: int|
                    0 <= i < index ==> Some((#[trigger] a_matrix@[i])@) == matrix_entry(
                        personalization@,
                        m as nat,
                        n as nat,
                        i as nat,
                    ),
                forall|i: int| index <= i < len ==> (#[trigger] a_matrix@[i])@ == 0,
            decreases used - index,
        {
            let quotient = index / (n as usize);
            let row: u32 = if quotient <= (n as usize) - 1 {
                quotient as u32
            } else {
                n - 1
            };
            proof {
                lemma_owner_in_range(m as nat, n as nat, index as nat);
            }
            let column: u32 = (index - (row as usize) * (n as usize)) as u32;
            let element = match sample_cell(personalization, row, column) {
                Some(element) => element,
                None => {
                    assert(sampled_cell(personalization@, row as nat, column as nat).is_some());
                    unreached()
                },
            };
            a_matrix.set(index, element);
            index = index + 1;
        }
        let m_element = FieldElement::from_u64(m as u64);
        let capacity_element = FieldElement::from_u64(capacity as u64);
        proof {
            vstd::arithmetic::div_mod::lemma_small_mod(m as nat, modulus());
            vstd::arithmetic::div_mod::lemma_small_mod(capacity as nat, modulus());
        }
        let mut element_norm_squared = m_element;
        element_norm_squared.square();
        let mut witness_element_squared = capacity_element;
        witness_element_squared.square();
        let mut witness_norm_squared = m_element;
        witness_norm_squared.mul_assign(&capacity_element);
        witness_norm_squared.square();
        BinarySISParams {
            m,
            n,
            a_matrix,
            capacity,
            element_norm_squared,
            witness_element_squared,
            witness_norm_squared,
        }
    }

    /// Generates the parameters for `m`-bit elements and `n`-element digests.
    ///
    /// Every cell `(row, column)` is sampled from its hash chain, row by row,
    /// and stored at `row * n + column`. The result is `None` exactly when
    /// the sampling of some cell runs out of nonces.
    pub fn generate(personalization: &[u8], m: u32, n: u32, capacity: usize) -> (r: Option<
        BinarySISParams,
    >)
        requires
            cells_in_range(m as nat, n as nat),
            m * n <= usize::MAX,
            norm_bounds_hold(m as nat, capacity as nat),
        ensures
            r.is_some() <==> every_cell_samples(personalization@, m as nat, n as nat),
            r matches Some(params) ==> params.generated_from(personalization@, m, n, capacity),
    {
        if cells_sample(personalization, m, n) {
            Some(Self::new(personalization, m, n, capacity))
        } else {
            None
        }
    }

    /// Whether the parameters are well formed.
    pub fn is_well_formed(&self) -> (r: bool)
        ensures
            r == self.wf(),
    {
        if !Self::supports(self.m, self.n, self.capacity) {
            assert(self.a_matrix.len() <= usize::MAX);
            return false;
        }
        if self.a_matrix.len() != (self.m as usize) * (self.n as usize) {
            return false;
        }
        let m_element = FieldElement::from_u64(self.m as u64);
        let capacity_element = FieldElement::from_u64(self.capacity as u64);
        proof {
            vstd::arithmetic::div_mod::lemma_small_mod(self.m as nat, modulus());
            vstd::arithmetic::div_mod::lemma_small_mod(self.capacity as nat, modulus());
        }
        let mut element_norm_squared = m_element;
        element_norm_squared.square();
        let mut witness_element_squared = capacity_element;
        witness_element_squared.square();
        let mut witness_norm_squared = m_element;
        witness_norm_squared.mul_assign(&capacity_element);
        witness_norm_squared.square();
        proof {
            if self.element_norm_squared@ == element_norm_squared@ {
                FieldElement::lemma_view_injective(self.element_norm_squared, element_norm_squared);
            }
            if self.witness_element_squared@ == witness_element_squared@ {
                FieldElement::lemma_view_injective(
                    self.witness_element_squared,
                    witness_element_squared,
                );
            }
            if self.witness_norm_squared@ == witness_norm_squared@ {
                FieldElement::lemma_view_injective(self.witness_norm_squared, witness_norm_squared);
            }
        }
        self.element_norm_squared == element_norm_squared && self.witness_element_squared
            == witness_element_squared && self.witness_norm_squared == witness_norm_squared
            && all_valid(&self.a_matrix)
    }

    /// Whether `new` accepts the dimensions and the capacity.
    pub fn supports(m: u32, n: u32, capacity: usize) -> (r: bool)
        ensures
            r == (cells_in_range(m as nat, n as nat) && m * n <= usize::MAX && norm_bounds_hold(
                m as nat,
                capacity as nat,
            )),
    {
        let in_range = n == 0 || m == 0 || n <= m;
        assert(m * n <= 0xffff_ffff * 0xffff_ffff) by (nonlinear_arith)
            requires
                m <= 0xffff_ffff,
                n <= 0xffff_ffff,
        ;
        let fits = (m as u64) * (n as u64) <= usize::MAX as u64;
        proof {
            vstd::arithmetic::div_mod::lemma_small_mod(m as nat, modulus());
            vstd::arithmetic::div_mod::lemma_small_mod(capacity as nat, modulus());
            assert(m * capacity <= 0xffff_ffff * 0xffff_ffff_ffff_ffff) by (nonlinear_arith)
                requires
                    m <= 0xffff_ffff,
                    capacity <= 0xffff_ffff_ffff_ffff,
            ;
            vstd::arithmetic::div_mod::lemma_small_mod((m * capacity) as nat, modulus());
        }
        let log_m = Self::log_2(m as u64);
        let log_capacity = Self::log_2(capacity as u64);
        let first = num_bits(m as u128) + log_m + log_capacity <= HALF_CAPACITY_BITS;
        let second = num_bits(capacity as u128) + log_capacity <= HALF_CAPACITY_BITS;
        let third = num_bits((m as u128) * (capacity as u128)) <= HALF_CAPACITY_BITS;
        in_range && fits && first && second && third
    }

    /// Ceiling of the binary logarithm.
    pub fn log_2(value: u64) -> (r: u32)
        ensures
            r == ceil_log2(value as nat),
            r <= 64,
    {
        let mut rest: u64 = value;
        let mut r: u32 = 0;
        proof {
            vstd::arithmetic::power2::lemma2_to64();
            lemma_ceil_log2_bound(value as nat, 64);
        }
        while rest > 1
            invariant
                r + ceil_log2(rest as nat) == ceil_log2(value as nat),
                ceil_log2(value as nat) <= 64,
            decreases rest,
        {
            proof {
                assert((rest as nat + 1) / 2 == rest / 2 + rest % 2);
            }
            rest = rest / 2 + rest % 2;
            r = r + 1;
        }
        r
    }
}

/// Number of bits in the binary representation of `value`.
pub fn num_bits(value: u128) -> (r: u32)
    ensures
        r == bit_length(value as nat),
        r <= 128,
{
    let mut rest: u128 = value;
    let mut r: u32 = 0;
    proof {
        assert(value < vstd::arithmetic::power2::pow2(128)) by {
            lemma_pow2_128();
        }
        lemma_bit_length_bound(value as nat, 128);
    }
    while rest > 0
        invariant
            r + bit_length(rest as nat) == bit_length(value as nat),
            bit_length(value as nat) <= 128,
        decreases rest,
    {
        rest = rest / 2;
        r = r + 1;
    }
    r
}

/// `2^128` as a literal.
proof fn lemma_pow2_128()
    ensures
        vstd::arithmetic::power2::pow2(128) == 0x1_0000_0000_0000_0000_0000_0000_0000_0000,
{
    vstd::arithmetic::power2::lemma2_to64();
    vstd::arithmetic::power2::lemma_pow2_adds(64, 64);
}

/// The used entries fit into the matrix.
proof fn lemma_used_len_fits(m: nat, n: nat)
    requires
        cells_in_range(m, n),
    ensures
        used_len(m, n) <= m * n,
{
    if n != 0 && m != 0 {
        assert((n - 1) * n + m <= m * n) by (nonlinear_arith)
            requires
                1 <= n <= m,
        ;
    }
}

/// Every cell of a row has its index inside the matrix.
pub proof fn lemma_row_in_range(m: nat, n: nat, row: nat)
    requires
        cells_in_range(m, n),
        row < n,
        m > 0,
    ensures
        row * n + m <= m * n,
{
    assert(row * n + m <= m * n) by (nonlinear_arith)
        requires
            row + 1 <= n,
            n <= m,
    ;
}

/// The cell that owns a used entry lies inside the matrix and is stored at
/// that entry.
pub proof fn lemma_owner_in_range(m: nat, n: nat, index: nat)
    requires
        cells_in_range(m, n),
        index < used_len(m, n),
    ensures
        owner_row(index, n) < n,
        owner_column(index, n) < m,
        owner_row(index, n) * n + owner_column(index, n) == index,
        owner_row(index, n) * n <= index,
{
    let q = index / n;
    vstd::arithmetic::div_mod::lemma_fundamental_div_mod(index as int, n as int);
    let rest = index % n;
    if q <= n - 1 {
        assert(index - q * n == rest) by (nonlinear_arith)
            requires
                index == n * q + rest,
        ;
    } else {
        assert((n - 1) * n <= q * n) by (nonlinear_arith)
            requires
                n - 1 <= q,
                n > 0,
        ;
        assert(q * n <= index) by (nonlinear_arith)
            requires
                index == n * q + rest,
                rest >= 0,
        ;
    }
}

/// Storing every cell in row-major order leaves at each index the cell that
/// `owner_row` and `owner_column` name: every cell is stored at a used index,
/// and no cell of a later row than the owner's is stored there.
pub proof fn law_owner_is_last_cell(m: nat, n: nat, row: nat, column: nat)
    requires
        cells_in_range(m, n),
        row < n,
        column < m,
    ensures
        row * n + column < used_len(m, n),
        row <= owner_row(row * n + column, n),
        owner_row(row * n + column, n) == row ==> owner_column(row * n + column, n) == column,
{
    let index = row * n + column;
    assert(row * n <= (n - 1) * n) by (nonlinear_arith)
        requires
            row <= n - 1,
    ;
    assert(index / n >= row) by {
        vstd::arithmetic::div_mod::lemma_fundamental_div_mod(index as int, n as int);
        let q = index / n;
        let rest = index % n;
        assert(q >= row) by (nonlinear_arith)
            requires
                row * n + column == n * q + rest,
                0 <= rest < n,
                0 <= column,
                n > 0,
        ;
    }
}

/// A number of at most `2^bits` has a binary logarithm of at most `bits`.
pub proof fn lemma_ceil_log2_bound(value: nat, bits: nat)
    requires
        value <= vstd::arithmetic::power2::pow2(bits),
    ensures
        ceil_log2(value) <= bits,
    decreases bits,
{
    vstd::arithmetic::power2::lemma2_to64();
    if value > 1 {
        if bits == 0 {
        } else {
            vstd::arithmetic::power2::lemma_pow2_unfold(bits);
            lemma_ceil_log2_bound(((value + 1) / 2) as nat, (bits - 1) as nat);
        }
    }
}

/// A number below `2^bits` has at most `bits` bits.
pub proof fn lemma_bit_length_bound(value: nat, bits: nat)
    requires
        value < vstd::arithmetic::power2::pow2(bits),
    ensures
        bit_length(value) <= bits,
    decreases bits,
{
    vstd::arithmetic::power2::lemma2_to64();
    if value > 0 {
        if bits == 0 {
        } else {
            vstd::arithmetic::power2::lemma_pow2_unfold(bits);
            lemma_bit_length_bound(value / 2, (bits - 1) as nat);
        }
    }
}

} // verus!
