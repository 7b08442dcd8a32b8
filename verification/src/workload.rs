//! The three benchmark traffic generators.  Each one drives a workload with
//! fixed inputs and folds its observable results into a running CRC-16
//! checksum, so the checksum each produces is pinned exactly.

use vstd::prelude::*;

verus! {

use core::cmp::Ordering;
use vstd::seq_lib::lemma_sorted_unique;
use vstd::string::StringSliceAdditionalSpecFns;
use vstd::std_specs::cmp::PartialEqSpec;
use crate::crc::{
    crc16, le_bytes_u16, le_bytes_u32, spec_crc16, spec_le_bytes_u16, spec_le_bytes_u32,
};
use crate::list::{
    cmp_reflects, lemma_first_eq_index_at, lemma_sorted_by_pairwise, sorted_by, LinkedList,
};
use crate::square_matrix::Matrix;
use crate::matrix::{entry, mat_dot, row_dot};
use crate::state::{spec_path, spec_state_code, State};

/// The checksum the list workload produces from a running value `c`: the list
/// length (10), the element found (5), the element removed (6) and the zero
/// element seen while draining, each folded in little-endian bytes.
pub open spec fn spec_benchmark_list_crc(c: u16) -> u16 {
    let c1 = spec_crc16(spec_le_bytes_u32(10u32), c);
    let c2 = spec_crc16(spec_le_bytes_u16(5u16), c1);
    let c3 = spec_crc16(spec_le_bytes_u16(6u16), c2);
    spec_crc16(spec_le_bytes_u16(0u16), c3)
}

/// The checksum the matrix workload produces from a running value `c`: the
/// middle entry (2), one matrix-vector component (14) and the wrapped entry
/// sum of a matrix product (-90), each folded as 16-bit little-endian bytes.
pub open spec fn spec_benchmark_matrix_crc(c: u16) -> u16 {
    let c1 = spec_crc16(spec_le_bytes_u16((2i32 as i16) as u16), c);
    let c2 = spec_crc16(spec_le_bytes_u16((14i32 as i16) as u16), c1);
    spec_crc16(spec_le_bytes_u16((-90i32 as i16) as u16), c2)
}

/// The checksum one classified token contributes: the final state's code,
/// then the length of the state path in 32-bit little-endian bytes.
pub open spec fn spec_token_crc(tok: Seq<u8>, c: u16) -> u16 {
    let p = spec_path(tok);
    let c1 = spec_crc16(seq![spec_state_code(p.last())], c);
    spec_crc16(spec_le_bytes_u32(p.len() as u32), c1)
}

/// The checksum the state-machine workload produces: the five fixed tokens'
/// contributions in order.
pub open spec fn spec_benchmark_state_crc(c: u16) -> u16 {
    let c1 = spec_token_crc("123.45e-6".spec_bytes(), c);
    let c2 = spec_token_crc("678".spec_bytes(), c1);
    let c3 = spec_token_crc("invalid".spec_bytes(), c2);
    let c4 = spec_token_crc("42e2".spec_bytes(), c3);
    spec_token_crc(".5".spec_bytes(), c4)
}

/// Exercises the linked list: builds `[9 .. 0]`, reverses it, finds the
/// middle element, inserts and removes around it, and drains it, folding the
/// observed values into `crc`.
pub fn benchmark_list(crc: &mut u16)
    ensures
        *final(crc) == spec_benchmark_list_crc(*old(crc)),
{
    let ghost c0 = *crc;
    let mut list: LinkedList<i16> = LinkedList::new();
    let size: i16 = 10;

    let mut i: i16 = 0;
    while i < size
        invariant
            size == 10,
            0 <= i <= 10,
            list.wf(),
            list@.len() == i,
            forall|x: int| 0 <= x < i ==> #[trigger] list@[x] == (i - 1 - x) as i16,
        decreases 10 - i,
    {
        list.push_front(i);
        i = i + 1;
    }
    proof {
        assert(list@ =~= seq![9i16, 8i16, 7i16, 6i16, 5i16, 4i16, 3i16, 2i16, 1i16, 0i16]);
    }

    let len = list.size();
    proof {
        assert(len == 10);
        assert(len as u32 == 10u32);
    }
    let b = le_bytes_u32(len as u32);
    *crc = crc16(b.as_slice(), *crc);
    proof {
        assert(*crc == spec_crc16(spec_le_bytes_u32(10u32), c0));
    }

    list.reverse();
    proof {
        assert(list@ =~= seq![0i16, 1i16, 2i16, 3i16, 4i16, 5i16, 6i16, 7i16, 8i16, 9i16]);
    }

    let found = list.find(is_middle);
    match found {
        Some(v) => {
            proof {
                assert(*v == 5i16);
                assert(*v as u16 == 5u16);
            }
            let b = le_bytes_u16(*v as u16);
            *crc = crc16(b.as_slice(), *crc);
        },
        None => {
            proof {
                assert(false) by {
                    assert(list@[5] == 5i16);
                }
            }
        },
    }

    list.mergesort(&ascending);
    proof {
        let leq = |x: i16, y: i16| x <= y;
        assert(cmp_reflects(ascending, leq)) by {
            assert forall|a: &i16, b: &i16, o: Ordering|
                #[trigger] call_ensures(ascending, (a, b), o) implies if o == Ordering::Greater {
                leq(*b, *a)
            } else {
                leq(*a, *b)
            } by {}
        }
        assert(sorted_by(leq, list@));
        lemma_sorted_by_pairwise(leq, list@);
        let target = seq![0i16, 1i16, 2i16, 3i16, 4i16, 5i16, 6i16, 7i16, 8i16, 9i16];
        assert(vstd::relations::sorted_by(target, leq)) by {
            assert forall|i: int, j: int| 0 <= i < j < target.len() implies #[trigger] leq(
                target[i],
                target[j],
            ) by {}
        }
        assert(vstd::relations::total_ordering(leq)) by {
            assert(vstd::relations::reflexive(leq));
            assert(vstd::relations::transitive(leq));
            assert(vstd::relations::antisymmetric(leq));
            assert(vstd::relations::strongly_connected(leq));
        }
        lemma_sorted_unique(list@, target, leq);
        assert(list@ =~= target);
    }

    let _found_and_inserted = list.insert_after(&5, 20);
    proof {
        assert(i16::obeys_eq_spec());
        lemma_first_eq_index_at(
            seq![0i16, 1i16, 2i16, 3i16, 4i16, 5i16, 6i16, 7i16, 8i16, 9i16],
            5i16,
            5,
        );
        assert(list@ =~= seq![
            0i16,
            1i16,
            2i16,
            3i16,
            4i16,
            5i16,
            20i16,
            6i16,
            7i16,
            8i16,
            9i16,
        ]);
    }

    let removed = list.remove_after(&20);
    proof {
        lemma_first_eq_index_at(
            seq![0i16, 1i16, 2i16, 3i16, 4i16, 5i16, 20i16, 6i16, 7i16, 8i16, 9i16],
            20i16,
            6,
        );
    }
    match removed {
        Some(v) => {
            proof {
                assert(v == 6i16);
                assert(v as u16 == 6u16);
            }
            let b = le_bytes_u16(v as u16);
            *crc = crc16(b.as_slice(), *crc);
        },
        None => {
            proof {
                assert(false);
            }
        },
    }

    let ghost fin = seq![0i16, 1i16, 2i16, 3i16, 4i16, 5i16, 20i16, 7i16, 8i16, 9i16];
    let ghost c3 = *crc;
    proof {
        assert(list@ =~= fin);
    }
    let ghost mut k: int = 0;
    loop
        invariant
            fin == seq![0i16, 1i16, 2i16, 3i16, 4i16, 5i16, 20i16, 7i16, 8i16, 9i16],
            0 <= k <= fin.len(),
            list.wf(),
            list@ =~= fin.skip(k),
            *crc == if k == 0 {
                c3
            } else {
                spec_crc16(spec_le_bytes_u16(0u16), c3)
            },
        ensures
            k == fin.len(),
            *crc == spec_crc16(spec_le_bytes_u16(0u16), c3),
        decreases fin.len() - k,
    {
        match list.pop_front() {
            None => {
                proof {
                    assert(k == fin.len());
                }
                break;
            },
            Some(v) => {
                proof {
                    assert(fin.len() == 10);
                    assert(k < 10);
                    assert(fin.skip(k)[0] == fin[k]);
                    assert(v == fin[k]);
                    assert(fin.skip(k).drop_first() =~= fin.skip(k + 1));
                    if k != 0 {
                        assert(k == 1 || k == 2 || k == 3 || k == 4 || k == 5 || k == 6 || k == 7
                            || k == 8 || k == 9);
                        assert(fin[1] == 1i16 && fin[2] == 2i16 && fin[3] == 3i16 && fin[4] == 4i16
                            && fin[5] == 5i16 && fin[6] == 20i16 && fin[7] == 7i16 && fin[8]
                            == 8i16 && fin[9] == 9i16);
                        assert(v != 0i16);
                    } else {
                        assert(fin[0] == 0i16);
                    }
                }
                if v == 0 {
                    proof {
                        assert(k == 0);
                        assert(v as u16 == 0u16);
                    }
                    let b = le_bytes_u16(v as u16);
                    *crc = crc16(b.as_slice(), *crc);
                }
                proof {
                    k = k + 1;
                }
            },
        }
    }
}

/// The ascending order on the list elements.
fn ascending(a: &i16, b: &i16) -> (r: Ordering)
    ensures
        r == (if *a < *b {
            Ordering::Less
        } else if *a == *b {
            Ordering::Equal
        } else {
            Ordering::Greater
        }),
{
    if *a < *b {
        Ordering::Less
    } else if *a == *b {
        Ordering::Equal
    } else {
        Ordering::Greater
    }
}

/// Whether a list element is the middle value of the ten-element workload
/// list.
fn is_middle(x: &i16) -> (r: bool)
    ensures
        r == (*x == 5i16),
{
    *x == 5
}

/// Exercises the square matrix: builds two 3x3 matrices, reads the middle
/// entry, multiplies by a vector and by the other matrix, and folds the
/// observed values into `crc`.
pub fn benchmark_matrix(crc: &mut u16)
    ensures
        *final(crc) == spec_benchmark_matrix_crc(*old(crc)),
{
    let size: usize = 3;
    let mut matrix_a = Matrix::new(size);
    let mut matrix_b = Matrix::new(size);

    let mut i: usize = 0;
    while i < size
        invariant
            size == 3,
            0 <= i <= 3,
            matrix_a.wf(),
            matrix_b.wf(),
            matrix_a.spec_n() == 3,
            matrix_b.spec_n() == 3,
            forall|x: int, y: int|
                0 <= x < i && 0 <= y < 3 ==> #[trigger] entry(matrix_a@, 3, x, y) == x + y,
            forall|x: int, y: int|
                0 <= x < i && 0 <= y < 3 ==> #[trigger] entry(matrix_b@, 3, x, y) == x - y,
        decreases 3 - i,
    {
        let mut j: usize = 0;
        while j < size
            invariant
                size == 3,
                0 <= j <= 3,
                0 <= i < 3,
                matrix_a.wf(),
                matrix_b.wf(),
                matrix_a.spec_n() == 3,
                matrix_b.spec_n() == 3,
                forall|x: int, y: int|
                    0 <= x < i && 0 <= y < 3 ==> #[trigger] entry(matrix_a@, 3, x, y) == x + y,
                forall|x: int, y: int|
                    0 <= x < i && 0 <= y < 3 ==> #[trigger] entry(matrix_b@, 3, x, y) == x - y,
                forall|y: int|
                    0 <= y < j ==> #[trigger] entry(matrix_a@, 3, i as int, y) == i + y,
                forall|y: int|
                    0 <= y < j ==> #[trigger] entry(matrix_b@, 3, i as int, y) == i - y,
            decreases 3 - j,
        {
            let ghost a_before = matrix_a@;
            let ghost b_before = matrix_b@;
            matrix_a.set(i, j, (i as i32) + (j as i32));
            matrix_b.set(i, j, (i as i32) - (j as i32));
            proof {
                crate::matrix::lemma_entry_index(i as int, j as int, 3, 3);
                assert forall|x: int, y: int|
                    0 <= x < 3 && 0 <= y < 3 && !(x == i && y == j) implies #[trigger] entry(
                    matrix_a@,
                    3,
                    x,
                    y,
                ) == entry(a_before, 3, x, y) by {
                    crate::matrix::lemma_entry_index(x, y, 3, 3);
                    crate::matrix::lemma_distinct_cells(x, y, i as int, j as int, 3);
                }
                assert forall|x: int, y: int|
                    0 <= x < 3 && 0 <= y < 3 && !(x == i && y == j) implies #[trigger] entry(
                    matrix_b@,
                    3,
                    x,
                    y,
                ) == entry(b_before, 3, x, y) by {
                    crate::matrix::lemma_entry_index(x, y, 3, 3);
                    crate::matrix::lemma_distinct_cells(x, y, i as int, j as int, 3);
                }
            }
            j = j + 1;
        }
        i = i + 1;
    }

    let mid_val = matrix_a.get(1, 1);
    proof {
        assert(mid_val == 2i32);
    }
    let b = le_bytes_u16((mid_val as i16) as u16);
    *crc = crc16(b.as_slice(), *crc);

    // the scaled copy is discarded, as in the traffic pattern: the product
    // and the vector below are taken from the unscaled matrix
    proof {
        assert(matrix_a@.len() == 9 && matrix_b@.len() == 9);
        assert forall|k: int| 0 <= k < 9 implies i32::MIN <= #[trigger] matrix_a@[k] * 2i32
            <= i32::MAX by {
            lemma_flat_entry(k);
            assert(entry(matrix_a@, 3, k / 3, k % 3) == matrix_a@[k]);
            assert(0i32 <= matrix_a@[k] <= 4i32);
        }
        assert forall|k: int| 0 <= k < 9 implies i32::MIN <= #[trigger] matrix_b@[k] + (-2i32)
            <= i32::MAX by {
            lemma_flat_entry(k);
            assert(entry(matrix_b@, 3, k / 3, k % 3) == matrix_b@[k]);
            assert(-2i32 <= matrix_b@[k] <= 2i32);
        }
    }
    let _scaled = matrix_a.mul_const(2);
    let ghost bv = matrix_b@;
    matrix_b.add_const(-2);
    proof {
        assert forall|x: int, y: int|
            0 <= x < 3 && 0 <= y < 3 implies #[trigger] entry(matrix_b@, 3, x, y) == x - y
            - 2 by {
            crate::matrix::lemma_entry_index(x, y, 3, 3);
            assert(entry(bv, 3, x, y) == x - y);
            assert(matrix_b@[x * 3 + y] == bv[x * 3 + y] + (-2i32));
        }
    }

    let vector = vec![1i32, 2i32, 3i32];
    proof {
        assert(vector@ =~= seq![1i32, 2i32, 3i32]);
        assert(vector@[0] == 1i32 && vector@[1] == 2i32 && vector@[2] == 3i32);
        assert forall|i: int, k: int| 0 <= i < 3 && 0 <= k <= 3 implies i32::MIN
            <= #[trigger] row_dot(matrix_a@, 3, i, vector@, k) <= i32::MAX by {
            reveal_with_fuel(row_dot, 5);
            assert(entry(matrix_a@, 3, i, 0) == i + 0);
            assert(entry(matrix_a@, 3, i, 1) == i + 1);
            assert(entry(matrix_a@, 3, i, 2) == i + 2);
            assert(row_dot(matrix_a@, 3, i, vector@, 0) == 0);
            assert(row_dot(matrix_a@, 3, i, vector@, 1) == (i + 0) * 1);
            assert(row_dot(matrix_a@, 3, i, vector@, 2) == (i + 0) * 1 + (i + 1) * 2);
            assert(row_dot(matrix_a@, 3, i, vector@, 3) == (i + 0) * 1 + (i + 1) * 2 + (i + 2)
                * 3);
            assert(k == 0 || k == 1 || k == 2 || k == 3);
        }
        assert forall|i: int, j: int| 0 <= i < 3 && 0 <= j < 3 implies i32::MIN
            <= #[trigger] entry(matrix_a@, 3, i, j) * vector@[j] <= i32::MAX by {
            assert(entry(matrix_a@, 3, i, j) == i + j);
            assert(vector@[j] == j + 1);
            assert(i32::MIN <= (i + j) * (j + 1) <= i32::MAX) by (nonlinear_arith)
                requires
                    0 <= i < 3 && 0 <= j < 3,
            ;
        }
    }
    let vect_res = matrix_a.mul_vect(vector.as_slice());
    proof {
        reveal_with_fuel(row_dot, 5);
        assert(vector@[0] == 1i32 && vector@[1] == 2i32 && vector@[2] == 3i32);
        assert(entry(matrix_a@, 3, 1, 0) == 1i32);
        assert(entry(matrix_a@, 3, 1, 1) == 2i32);
        assert(entry(matrix_a@, 3, 1, 2) == 3i32);
        assert(vect_res@[1] == 14i32);
    }
    let b = le_bytes_u16((vect_res[1] as i16) as u16);
    *crc = crc16(b.as_slice(), *crc);

    proof {
        assert forall|i: int, j: int, k: int| 0 <= i < 3 && 0 <= j < 3 && 0 <= k <= 3 implies
            i32::MIN <= #[trigger] mat_dot(matrix_a@, 3, matrix_b@, 3, i, j, k) <= i32::MAX by {
            reveal_with_fuel(mat_dot, 5);
            assert(entry(matrix_a@, 3, i, 0) == i + 0);
            assert(entry(matrix_a@, 3, i, 1) == i + 1);
            assert(entry(matrix_a@, 3, i, 2) == i + 2);
            assert(entry(matrix_b@, 3, 0, j) == 0 - j - 2);
            assert(entry(matrix_b@, 3, 1, j) == 1 - j - 2);
            assert(entry(matrix_b@, 3, 2, j) == 2 - j - 2);
            assert(i32::MIN <= (i + 0) * (0 - j - 2) <= i32::MAX) by (nonlinear_arith)
                requires
                    0 <= i < 3 && 0 <= j < 3,
            ;
            assert(i32::MIN <= (i + 0) * (0 - j - 2) + (i + 1) * (1 - j - 2) <= i32::MAX)
                by (nonlinear_arith)
                requires
                    0 <= i < 3 && 0 <= j < 3,
            ;
            assert(i32::MIN <= (i + 0) * (0 - j - 2) + (i + 1) * (1 - j - 2) + (i + 2) * (2 - j
                - 2) <= i32::MAX) by (nonlinear_arith)
                requires
                    0 <= i < 3 && 0 <= j < 3,
            ;
        }
        assert forall|i: int, j: int, k: int| 0 <= i < 3 && 0 <= j < 3 && 0 <= k < 3 implies
            i32::MIN <= #[trigger] entry(matrix_a@, 3, i, k) * #[trigger] entry(
            matrix_b@,
            3,
            k,
            j,
        ) <= i32::MAX by {
            assert(entry(matrix_a@, 3, i, k) == i + k);
            assert(entry(matrix_b@, 3, k, j) == k - j - 2);
            assert(i32::MIN <= (i + k) * (k - j - 2) <= i32::MAX) by (nonlinear_arith)
                requires
                    0 <= i < 3 && 0 <= j < 3 && 0 <= k < 3,
            ;
        }
    }
    let mat_c = matrix_a.mul_matrix(&matrix_b);
    proof {
        reveal_with_fuel(mat_dot, 5);
    }
    let mut sum: i32 = 0;
    let mut x: usize = 0;
    while x < size
        invariant
            size == 3,
            0 <= x <= 3,
            mat_c.wf(),
            mat_c.spec_n() == 3,
            forall|p: int, q: int|
                0 <= p < 3 && 0 <= q < 3 ==> #[trigger] entry(mat_c@, 3, p, q) == mat_dot(
                    matrix_a@,
                    3,
                    matrix_b@,
                    3,
                    p,
                    q,
                    3,
                ),
            forall|p: int, q: int|
                0 <= p < 3 && 0 <= q < 3 ==> #[trigger] entry(matrix_a@, 3, p, q) == p + q,
            forall|p: int, q: int|
                0 <= p < 3 && 0 <= q < 3 ==> #[trigger] entry(matrix_b@, 3, p, q) == p - q - 2,
            sum == spec_sum_so_far(x as int, 0),
        decreases 3 - x,
    {
        let mut y: usize = 0;
        while y < size
            invariant
                size == 3,
                0 <= y <= 3,
                0 <= x < 3,
                mat_c.wf(),
                mat_c.spec_n() == 3,
                forall|p: int, q: int|
                    0 <= p < 3 && 0 <= q < 3 ==> #[trigger] entry(mat_c@, 3, p, q) == mat_dot(
                        matrix_a@,
                        3,
                        matrix_b@,
                        3,
                        p,
                        q,
                        3,
                    ),
                forall|p: int, q: int|
                    0 <= p < 3 && 0 <= q < 3 ==> #[trigger] entry(matrix_a@, 3, p, q) == p + q,
                forall|p: int, q: int|
                    0 <= p < 3 && 0 <= q < 3 ==> #[trigger] entry(matrix_b@, 3, p, q) == p - q - 2,
                sum == spec_sum_so_far(x as int, y as int),
            decreases 3 - y,
        {
            let v = mat_c.get(x, y);
            proof {
                reveal_with_fuel(mat_dot, 5);
                assert(v == spec_product_entry(x as int, y as int));
            }
            sum = sum.wrapping_add(v);
            y = y + 1;
        }
        x = x + 1;
    }
    proof {
        reveal_with_fuel(spec_sum_so_far, 12);
        assert(sum == -90i32);
    }
    let b = le_bytes_u16((sum as i16) as u16);
    *crc = crc16(b.as_slice(), *crc);
}

/// A flat row-major index of a 3x3 matrix decomposes into a row and column.
pub proof fn lemma_flat_entry(k: int)
    requires
        0 <= k < 9,
    ensures
        0 <= k / 3 < 3,
        0 <= k % 3 < 3,
        3 * (k / 3) + k % 3 == k,
{
    vstd::arithmetic::div_mod::lemma_fundamental_div_mod(k, 3);
    vstd::arithmetic::div_mod::lemma_mod_bound(k, 3);
    assert(0 <= k / 3 < 3) by (nonlinear_arith)
        requires
            0 <= k < 9,
    ;
}

/// The entry of the product of the two fixed workload matrices: row `p` of
/// `(p + q)` times column `q` of `(p - q - 2)`.
pub open spec fn spec_product_entry(p: int, q: int) -> i32 {
    ((p + 0) * (0 - q - 2) + (p + 1) * (1 - q - 2) + (p + 2) * (2 - q - 2)) as i32
}

/// The running entry sum of the product matrix, up to row `x`, column `y`.
pub open spec fn spec_sum_so_far(x: int, y: int) -> i32
    decreases x, y,
{
    if x <= 0 && y <= 0 {
        0
    } else if y <= 0 {
        vstd::wrapping::i32_specs::wrapping_add(
            spec_sum_so_far(x - 1, 2),
            spec_product_entry(x - 1, 2),
        )
    } else {
        vstd::wrapping::i32_specs::wrapping_add(
            spec_sum_so_far(x, y - 1),
            spec_product_entry(x, y - 1),
        )
    }
}

/// Exercises the numeric-token state machine on five fixed tokens, folding
/// each token's final state and path length into `crc`.
pub fn benchmark_state(crc: &mut u16)
    ensures
        *final(crc) == spec_benchmark_state_crc(*old(crc)),
{
    run_token("123.45e-6", crc);
    run_token("678", crc);
    run_token("invalid", crc);
    run_token("42e2", crc);
    run_token(".5", crc);
}

/// Classifies one token and folds its final state and path length into `crc`.
fn run_token(token: &str, crc: &mut u16)
    ensures
        *final(crc) == spec_token_crc(token.spec_bytes(), *old(crc)),
{
    let bytes = token.as_bytes();
    let (state, path) = State::transition(bytes);
    let code = state.code();
    let mut cb: Vec<u8> = Vec::new();
    cb.push(code);
    *crc = crc16(cb.as_slice(), *crc);
    proof {
        assert(cb@ =~= seq![spec_state_code(spec_path(token.spec_bytes()).last())]);
    }
    let n = path.len();
    let b = le_bytes_u32(#[verifier::truncate] (n as u32));
    *crc = crc16(b.as_slice(), *crc);
}

} // verus!
