use vstd::prelude::*;
use vstd::arithmetic::div_mod::{
    lemma_fundamental_div_mod, lemma_fundamental_div_mod_converse, lemma_mod_division_less_than_divisor,
    lemma_multiply_divide_lt,
};
use crate::iset::bit64;

verus! {

/// How many words one row takes.
pub open spec fn spec_words_per_row(row_bits: int) -> int {
    (row_bits + 63) / 64
}

/// A square bit matrix over coordinates `[x, y]`, both below `row_bits`,
/// stored row by row in 64-bit words.
#[derive(Debug, Clone, PartialEq, Eq)]
pub struct SquareBitMatrix {
    words: Vec<u64>,
    row_bits: usize,
}

/// The word position and the bit position within it for the coordinate
/// `[x, y]` in a matrix with `stride` words per row.
pub open spec fn spec_addr(stride: int, x: int, y: int) -> (int, int) {
    (y * stride + x / 64, x % 64)
}

/// Distinct in-range coordinates land on distinct (word, bit) addresses.
proof fn lemma_addr_inj(stride: int, n: int, x1: int, y1: int, x2: int, y2: int)
    requires
        stride == spec_words_per_row(n),
        0 <= x1 < n,
        0 <= y1 < n,
        0 <= x2 < n,
        0 <= y2 < n,
        spec_addr(stride, x1, y1) == spec_addr(stride, x2, y2),
    ensures
        x1 == x2 && y1 == y2,
{
    assert(n <= stride * 64) by (nonlinear_arith)
        requires
            stride == (n + 63) / 64 && n >= 1,
    {
        lemma_fundamental_div_mod(n + 63, 64);
        lemma_mod_division_less_than_divisor(n + 63, 64);
    }
    lemma_multiply_divide_lt(x1, stride, 64);
    lemma_multiply_divide_lt(x2, stride, 64);
    let e = y1 * stride + x1 / 64;
    lemma_fundamental_div_mod_converse(e, stride, y1, x1 / 64);
    lemma_fundamental_div_mod_converse(e, stride, y2, x2 / 64);
    lemma_fundamental_div_mod(x1, 64);
    lemma_fundamental_div_mod(x2, 64);
}

impl SquareBitMatrix {
    /// All words present, one row after another.
    pub closed spec fn wf(self) -> bool {
        self.words@.len() == spec_words_per_row(self.row_bits as int) * self.row_bits
            && self.row_bits + 63 <= usize::MAX
    }

    /// How many bits one row (and one column) has.
    pub closed spec fn spec_row_bits(self) -> int {
        self.row_bits as int
    }

    /// How many words the matrix stores.
    pub closed spec fn storage_len(self) -> int {
        self.words@.len() as int
    }

    /// The bit at `[x, y]`, or nothing outside the square.
    pub closed spec fn spec_contains(self, x: int, y: int) -> Option<bool> {
        if 0 <= x < self.row_bits && 0 <= y < self.row_bits {
            Some(
                bit64(
                    self.words@[y * spec_words_per_row(self.row_bits as int) + x / 64],
                    (x % 64) as u64,
                ),
            )
        } else {
            None
        }
    }

    /// How many words one row takes.
    pub fn words_per_row(row_bits: usize) -> (r: usize)
        requires
            row_bits + 63 <= usize::MAX,
        ensures
            r == spec_words_per_row(row_bits as int),
    {
        (row_bits + 63) / 64
    }

    /// The all-zero matrix with `row_bits` rows of `row_bits` bits.
    pub fn new(row_bits: usize) -> (r: SquareBitMatrix)
        requires
            row_bits + 63 <= usize::MAX,
            spec_words_per_row(row_bits as int) * row_bits <= usize::MAX,
        ensures
            r.wf(),
            r.spec_row_bits() == row_bits,
            forall|x: int, y: int|
                0 <= x < row_bits && 0 <= y < row_bits ==> r.spec_contains(x, y) == Some(false),
    {
        let stride = Self::words_per_row(row_bits);
        let total = stride * row_bits;
        let mut words: Vec<u64> = Vec::new();
        let mut i: usize = 0;
        while i < total
            invariant
                i <= total,
                words@.len() == i,
                forall|j: int| 0 <= j < i ==> words@[j] == 0u64,
            decreases total - i,
        {
            words.push(0);
            i = i + 1;
        }
        let r = SquareBitMatrix { words, row_bits };
        proof {
            assert forall|x: int, y: int|
                0 <= x < row_bits && 0 <= y < row_bits implies r.spec_contains(x, y) == Some(
                false,
            ) by {
                lemma_addr_bounds(r.spec_row_bits(), x, y);
                let xb = (x % 64) as u64;
                assert(!bit64(0u64, xb)) by (bit_vector);
            }
        }
        r
    }

    /// Whether the coordinate lies inside the square.
    pub fn in_bounds(&self, bit_coord: [usize; 2]) -> (r: bool)
        ensures
            r == (bit_coord@[0] < self.spec_row_bits() && bit_coord@[1] < self.spec_row_bits()),
    {
        bit_coord[0] < self.row_bits && bit_coord[1] < self.row_bits
    }

    /// The word position and bit position of an in-bounds coordinate.
    pub fn bit_address(&self, bit_coord: [usize; 2]) -> (r: Option<[usize; 2]>)
        requires
            self.wf(),
        ensures
            r is Some <==> (bit_coord@[0] < self.spec_row_bits() && bit_coord@[1]
                < self.spec_row_bits()),
            r matches Some(a) ==> (a@[0] as int, a@[1] as int) == spec_addr(
                spec_words_per_row(self.spec_row_bits()),
                bit_coord@[0] as int,
                bit_coord@[1] as int,
            ) && a@[0] < self.storage_len() && a@[1] < 64,
    {
        if self.in_bounds(bit_coord) {
            let x = bit_coord[0];
            let y = bit_coord[1];
            proof {
                lemma_addr_bounds(self.spec_row_bits(), x as int, y as int);
            }
            let stride = Self::words_per_row(self.row_bits);
            let wl = self.words.len();
            proof {
                assert(y * stride + x / 64 < wl);
            }
            let idx_of_word = y * stride + x / 64;
            let idx_in_word = x % 64;
            Some([idx_of_word, idx_in_word])
        } else {
            None
        }
    }

    /// Sets the bit at the coordinate; reports whether it was clear, or
    /// nothing when the coordinate is out of bounds, leaving the matrix
    /// unchanged then.
    pub fn insert(&mut self, bit_coord: [usize; 2]) -> (r: Option<bool>)
        requires
            old(self).wf(),
        ensures
            final(self).wf(),
            final(self).spec_row_bits() == old(self).spec_row_bits(),
            r == (match old(self).spec_contains(bit_coord@[0] as int, bit_coord@[1] as int) {
                None => Option::<bool>::None,
                Some(b) => Option::<bool>::Some(!b),
            }),
            forall|x: int, y: int|
                final(self).spec_contains(x, y) == (if x == bit_coord@[0] && y == bit_coord@[1]
                    && old(self).spec_contains(x, y) is Some {
                    Some(true)
                } else {
                    old(self).spec_contains(x, y)
                }),
    {
        let addr = self.bit_address(bit_coord);
        match addr {
            None => None,
            Some(a) => {
                let word = self.words[a[0]];
                let was = (word >> (a[1] as u64)) & 1 == 1;
                let neww = word | (1u64 << (a[1] as u64));
                self.words.set(a[0], neww);
                proof {
                    let b = a@[1] as u64;
                    assert(b < 64 ==> ((word >> b) & 1 == 1) == bit64(word, b)) by (bit_vector);
                    assert forall|j: u64| bit64(word | (1u64 << b), j) == (bit64(word, j) || j
                        == b) by {
                        assert(b < 64 ==> (bit64(word | (1u64 << b), j) == (bit64(word, j) || j
                            == b))) by (bit_vector);
                    }
                    let n = self.spec_row_bits();
                    let stride = spec_words_per_row(n);
                    let x0 = bit_coord@[0] as int;
                    let y0 = bit_coord@[1] as int;
                    assert forall|x: int, y: int|
                        final(self).spec_contains(x, y) == (if x == x0 && y == y0 && old(
                            self,
                        ).spec_contains(x, y) is Some {
                            Some(true)
                        } else {
                            old(self).spec_contains(x, y)
                        }) by {
                        if 0 <= x < n && 0 <= y < n && !(x == x0 && y == y0) {
                            lemma_frame_point(*old(self), *self, x0, y0, x, y);
                        }
                    }
                }
                Some(!was)
            },
        }
    }

    /// Clears the bit at the coordinate; reports whether it was set, or
    /// nothing when the coordinate is out of bounds, leaving the matrix
    /// unchanged then.
    pub fn remove(&mut self, bit_coord: [usize; 2]) -> (r: Option<bool>)
        requires
            old(self).wf(),
        ensures
            final(self).wf(),
            final(self).spec_row_bits() == old(self).spec_row_bits(),
            r == old(self).spec_contains(bit_coord@[0] as int, bit_coord@[1] as int),
            forall|x: int, y: int|
                final(self).spec_contains(x, y) == (if x == bit_coord@[0] && y == bit_coord@[1]
                    && old(self).spec_contains(x, y) is Some {
                    Some(false)
                } else {
                    old(self).spec_contains(x, y)
                }),
    {
        let addr = self.bit_address(bit_coord);
        match addr {
            None => None,
            Some(a) => {
                let word = self.words[a[0]];
                let was = (word >> (a[1] as u64)) & 1 == 1;
                let neww = word & !(1u64 << (a[1] as u64));
                self.words.set(a[0], neww);
                proof {
                    let b = a@[1] as u64;
                    assert(b < 64 ==> ((word >> b) & 1 == 1) == bit64(word, b)) by (bit_vector);
                    assert forall|j: u64| bit64(word & !(1u64 << b), j) == (bit64(word, j) && j
                        != b) by {
                        assert(b < 64 ==> (bit64(word & !(1u64 << b), j) == (bit64(word, j) && j
                            != b))) by (bit_vector);
                    }
                    let n = self.spec_row_bits();
                    let stride = spec_words_per_row(n);
                    let x0 = bit_coord@[0] as int;
                    let y0 = bit_coord@[1] as int;
                    assert forall|x: int, y: int|
                        final(self).spec_contains(x, y) == (if x == x0 && y == y0 && old(
                            self,
                        ).spec_contains(x, y) is Some {
                            Some(false)
                        } else {
                            old(self).spec_contains(x, y)
                        }) by {
                        if 0 <= x < n && 0 <= y < n && !(x == x0 && y == y0) {
                            lemma_frame_point(*old(self), *self, x0, y0, x, y);
                        }
                    }
                }
                Some(was)
            },
        }
    }

    /// The bit at the coordinate, or nothing when it is out of bounds.
    pub fn contains(&self, bit_coord: [usize; 2]) -> (r: Option<bool>)
        requires
            self.wf(),
        ensures
            r == self.spec_contains(bit_coord@[0] as int, bit_coord@[1] as int),
    {
        let addr = self.bit_address(bit_coord);
        match addr {
            None => None,
            Some(a) => {
                let word = self.words[a[0]];
                let r = (word >> (a[1] as u64)) & 1 == 1;
                proof {
                    let b = a@[1] as u64;
                    assert(b < 64 ==> ((word >> b) & 1 == 1) == bit64(word, b)) by (bit_vector);
                }
                Some(r)
            },
        }
    }

    /// The lowest diagonal coordinate whose bit is set, if any.
    pub fn any_self_loop(&self) -> (r: Option<usize>)
        requires
            self.wf(),
        ensures
            r == first_self_loop(*self, 0),
            r matches Some(i) ==> self.spec_contains(i as int, i as int) == Some(true),
            r is None ==> forall|i: int|
                0 <= i < self.spec_row_bits() ==> self.spec_contains(i, i) != Some(true),
    {
        proof {
            lemma_first_self_loop_none(*self, 0);
        }
        let n = self.row_bits;
        let mut i: usize = 0;
        while i < n
            invariant
                i <= n,
                n == self.spec_row_bits(),
                first_self_loop(*self, 0) == first_self_loop(*self, i as int),
            decreases n - i,
        {
            let c = self.contains([i, i]);
            if c == Some(true) {
                return Some(i);
            }
            i = i + 1;
        }
        None
    }
}

/// The lowest diagonal position from `i` upward whose bit is set, if any.
pub open spec fn first_self_loop(m: SquareBitMatrix, i: int) -> Option<usize>
    decreases m.spec_row_bits() - i,
{
    if i < 0 || i >= m.spec_row_bits() {
        None
    } else if m.spec_contains(i, i) == Some(true) {
        Some(i as usize)
    } else {
        first_self_loop(m, i + 1)
    }
}

/// No diagonal bit from `i` on is set exactly when the scan finds nothing.
proof fn lemma_first_self_loop_none(m: SquareBitMatrix, i: int)
    requires
        0 <= i,
    ensures
        (first_self_loop(m, i) is None) <==> (forall|j: int|
            i <= j < m.spec_row_bits() ==> m.spec_contains(j, j) != Some(true)),
    decreases m.spec_row_bits() - i,
{
    if i < m.spec_row_bits() {
        lemma_first_self_loop_none(m, i + 1);
    }
}

/// An in-bounds coordinate's word index lies inside the storage.
proof fn lemma_addr_bounds(n: int, x: int, y: int)
    requires
        0 <= x < n,
        0 <= y < n,
    ensures
        0 <= x / 64 < spec_words_per_row(n),
        0 <= x % 64 < 64,
        0 <= y * spec_words_per_row(n) + x / 64 < spec_words_per_row(n) * n,
{
    let stride = spec_words_per_row(n);
    assert(n <= stride * 64) by (nonlinear_arith)
        requires
            stride == (n + 63) / 64 && n >= 1,
    {
        lemma_fundamental_div_mod(n + 63, 64);
        lemma_mod_division_less_than_divisor(n + 63, 64);
    }
    lemma_multiply_divide_lt(x, stride, 64);
    lemma_mod_division_less_than_divisor(x, 64);
    assert(y * stride + x / 64 < stride * n) by (nonlinear_arith)
        requires
            0 <= y < n && 0 <= x / 64 < stride,
    ;
}

/// Changing one word changes only the coordinates addressed in it:
/// any other in-bounds coordinate either lives in another word, or in the
/// same word at another bit position.
proof fn lemma_frame_point(m0: SquareBitMatrix, m1: SquareBitMatrix, x0: int, y0: int, x: int, y: int)
    requires
        m0.wf(),
        m0.spec_row_bits() == m1.spec_row_bits(),
        0 <= x0 < m0.spec_row_bits(),
        0 <= y0 < m0.spec_row_bits(),
        0 <= x < m0.spec_row_bits(),
        0 <= y < m0.spec_row_bits(),
        !(x == x0 && y == y0),
        m1.words@.len() == m0.words@.len(),
        forall|j: int|
            0 <= j < m0.words@.len() && j != y0 * spec_words_per_row(m0.spec_row_bits()) + x0 / 64
                ==> m1.words@[j] == m0.words@[j],
    ensures
        y * spec_words_per_row(m0.spec_row_bits()) + x / 64 == y0 * spec_words_per_row(
            m0.spec_row_bits(),
        ) + x0 / 64 ==> x % 64 != x0 % 64,
        y * spec_words_per_row(m0.spec_row_bits()) + x / 64 != y0 * spec_words_per_row(
            m0.spec_row_bits(),
        ) + x0 / 64 ==> m1.spec_contains(x, y) == m0.spec_contains(x, y),
{
    let n = m0.spec_row_bits();
    let stride = spec_words_per_row(n);
    if y * stride + x / 64 == y0 * stride + x0 / 64 {
        if x % 64 == x0 % 64 {
            lemma_addr_inj(stride, n, x, y, x0, y0);
        }
    } else {
        lemma_addr_bounds(n, x, y);
    }
}

} // verus!
