//! The one-byte rotation code of a transform frame.
//!
//! Bits 0-1 give the column of the nonzero entry of the first row, bits 2-3
//! that of the second row; the third row takes the column left over. Bits
//! 4, 5 and 6 are the signs of the three rows (set: negative).
use vstd::prelude::*;
use crate::transform::{mat_model, unit_rows};

verus! {

/// Column of the nonzero entry of the first row.
pub open spec fn first_index(b: u8) -> int {
    b as int % 4
}

/// Column of the nonzero entry of the second row.
pub open spec fn second_index(b: u8) -> int {
    (b as int / 4) % 4
}

/// A byte names a rotation when both of its index fields name a column and
/// the two columns differ.
pub open spec fn valid_rotation_byte(b: u8) -> bool {
    first_index(b) < 3 && second_index(b) < 3 && first_index(b) != second_index(b)
}

/// Column of the nonzero entry of row `i`.
pub open spec fn row_index(b: u8, i: int) -> int {
    if i == 0 {
        first_index(b)
    } else if i == 1 {
        second_index(b)
    } else {
        3 - first_index(b) - second_index(b)
    }
}

/// The sign bit of row `i`: bit 4, 5 or 6.
pub open spec fn sign_bit(b: u8, i: int) -> int {
    if i == 0 {
        (b as int / 16) % 2
    } else if i == 1 {
        (b as int / 32) % 2
    } else {
        (b as int / 64) % 2
    }
}

/// The matrix that a valid byte names.
pub open spec fn rotation_of(b: u8) -> Seq<Seq<int>> {
    Seq::new(
        3,
        |i: int|
            Seq::new(
                3,
                |j: int|
                    if j == row_index(b, i) {
                        if sign_bit(b, i) == 0 {
                            1int
                        } else {
                            -1int
                        }
                    } else {
                        0int
                    },
            ),
    )
}

/// The column of the nonzero entry of a row of a signed permutation matrix.
pub open spec fn nonzero_column(row: Seq<int>) -> int {
    if row[0] != 0 {
        0
    } else if row[1] != 0 {
        1
    } else {
        2
    }
}

/// 1 where the nonzero entry of a row is negative.
pub open spec fn negative_bit(row: Seq<int>) -> int {
    if row[0] + row[1] + row[2] < 0 {
        1
    } else {
        0
    }
}

/// Each row holds exactly one nonzero entry, 1 or -1, and no two rows hold
/// it in the same column.
pub open spec fn is_signed_permutation(m: Seq<Seq<int>>) -> bool {
    &&& m.len() == 3
    &&& forall|i: int| 0 <= i < 3 ==> #[trigger] m[i].len() == 3
    &&& forall|i: int, j: int|
        0 <= i < 3 && 0 <= j < 3 ==> (#[trigger] m[i][j] != 0 <==> j == nonzero_column(m[i]))
    &&& forall|i: int|
        0 <= i < 3 ==> #[trigger] m[i][nonzero_column(m[i])] == 1 || m[i][nonzero_column(m[i])]
            == -1
    &&& nonzero_column(m[0]) != nonzero_column(m[1])
    &&& nonzero_column(m[0]) != nonzero_column(m[2])
    &&& nonzero_column(m[1]) != nonzero_column(m[2])
}

/// The byte that names a signed permutation matrix, with bit 7 clear.
pub open spec fn rotation_code(m: Seq<Seq<int>>) -> int {
    nonzero_column(m[0]) + 4 * nonzero_column(m[1]) + 16 * negative_bit(m[0]) + 32
        * negative_bit(m[1]) + 64 * negative_bit(m[2])
}

fn signed_unit_row(k: u8, negative: bool) -> (r: [i8; 3])
    requires
        k < 3,
    ensures
        forall|j: int|
            0 <= j < 3 ==> #[trigger] r[j] == if j == k as int {
                if negative {
                    -1i8
                } else {
                    1i8
                }
            } else {
                0i8
            },
{
    let s: i8 = if negative {
        -1
    } else {
        1
    };
    if k == 0 {
        [s, 0, 0]
    } else if k == 1 {
        [0, s, 0]
    } else {
        [0, 0, s]
    }
}

/// Decodes a rotation byte. Gives `None` where an index field holds 3, or
/// where both rows would take the same column; bit 7 is not read.
pub fn rotation_from_byte(b: u8) -> (r: Option<[[i8; 3]; 3]>)
    ensures
        r is None <==> (first_index(b) == 3 || second_index(b) == 3 || first_index(b)
            == second_index(b)),
        r is Some ==> mat_model(r->0) == rotation_of(b),
{
    let i1 = b % 4;
    let i2 = (b / 4) % 4;
    if i1 == 3 || i2 == 3 || i1 == i2 {
        return None;
    }
    let i3 = 3 - i1 - i2;
    let m = [
        signed_unit_row(i1, (b / 16) % 2 == 1),
        signed_unit_row(i2, (b / 32) % 2 == 1),
        signed_unit_row(i3, (b / 64) % 2 == 1),
    ];
    assert forall|i: int| 0 <= i < 3 implies #[trigger] mat_model(m)[i] =~= rotation_of(b)[i] by {}
    assert(mat_model(m) =~= rotation_of(b));
    Some(m)
}

proof fn lemma_low_bits(b: u8)
    ensures
        b as int % 128 == first_index(b) + 4 * second_index(b) + 16 * sign_bit(b, 0) + 32
            * sign_bit(b, 1) + 64 * sign_bit(b, 2),
{
    let x = b as int;
    assert(x % 128 == x % 4 + 4 * ((x / 4) % 4) + 16 * ((x / 16) % 2) + 32 * ((x / 32) % 2) + 64
        * ((x / 64) % 2)) by (nonlinear_arith)
        requires
            0 <= x < 256,
    ;
}

proof fn lemma_rotation_row(b: u8, i: int)
    requires
        valid_rotation_byte(b),
        0 <= i < 3,
    ensures
        0 <= row_index(b, i) < 3,
        rotation_of(b)[i].len() == 3,
        forall|j: int|
            0 <= j < 3 ==> (#[trigger] rotation_of(b)[i][j] != 0 <==> j == row_index(b, i)),
        nonzero_column(rotation_of(b)[i]) == row_index(b, i),
        negative_bit(rotation_of(b)[i]) == sign_bit(b, i),
        rotation_of(b)[i][row_index(b, i)] == 1 || rotation_of(b)[i][row_index(b, i)] == -1,
{
    let row = rotation_of(b)[i];
    assert(row[row_index(b, i)] != 0);
}

/// A valid byte names a signed permutation matrix, and that matrix is named
/// by the byte again, up to bit 7.
pub proof fn lemma_rotation_round_trip(b: u8)
    requires
        valid_rotation_byte(b),
    ensures
        is_signed_permutation(rotation_of(b)),
        rotation_code(rotation_of(b)) == b as int % 128,
{
    lemma_rotation_row(b, 0);
    lemma_rotation_row(b, 1);
    lemma_rotation_row(b, 2);
    lemma_low_bits(b);
}

/// Every signed permutation matrix has unit rows.
pub proof fn lemma_signed_permutation_unit_rows(m: Seq<Seq<int>>)
    requires
        is_signed_permutation(m),
    ensures
        unit_rows(m),
{
    assert forall|i: int, j: int| 0 <= i < 3 && 0 <= j < 3 implies -1 <= #[trigger] m[i][j] <= 1 by {
        if j == nonzero_column(m[i]) {
            assert(m[i][nonzero_column(m[i])] == 1 || m[i][nonzero_column(m[i])] == -1);
        } else {
            assert(!(m[i][j] != 0));
        }
    }
}

} // verus!
