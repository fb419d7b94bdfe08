use vstd::prelude::*;
use std::collections::HashMap;

verus! {

broadcast use vstd::std_specs::hash::group_hash_axioms;

/// A single integer that identifies a grid cell, one to one.
pub open spec fn cell_key(cell: (i64, i64)) -> int {
    cell.0 * 0x1_0000_0000_0000_0000int + (cell.1 - i64::MIN)
}

proof fn lemma_cell_key_injective(a: (i64, i64), b: (i64, i64))
    ensures
        i128::MIN <= cell_key(a) <= i128::MAX,
        i128::MIN <= cell_key(b) <= i128::MAX,
        cell_key(a) == cell_key(b) ==> a == b,
{
    assert(i128::MIN <= a.0 * 0x1_0000_0000_0000_0000int <= i128::MAX - 0xffff_ffff_ffff_ffffint)
        by (nonlinear_arith);
    assert(i128::MIN <= b.0 * 0x1_0000_0000_0000_0000int <= i128::MAX - 0xffff_ffff_ffff_ffffint)
        by (nonlinear_arith);
    if cell_key(a) == cell_key(b) {
        if a.0 < b.0 {
            assert(a.0 * 0x1_0000_0000_0000_0000int + 0x1_0000_0000_0000_0000int <= b.0
                * 0x1_0000_0000_0000_0000int) by (nonlinear_arith)
                requires
                    a.0 < b.0,
            ;
        } else if a.0 > b.0 {
            assert(b.0 * 0x1_0000_0000_0000_0000int + 0x1_0000_0000_0000_0000int <= a.0
                * 0x1_0000_0000_0000_0000int) by (nonlinear_arith)
                requires
                    b.0 < a.0,
            ;
        }
    }
}

fn compute_cell_key(cell: (i64, i64)) -> (key: i128)
    ensures
        key == cell_key(cell),
{
    (cell.0 as i128) * 0x1_0000_0000_0000_0000i128 + ((cell.1 as i128) + 0x8000_0000_0000_0000i128)
}

/// The cells of the chosen points, in order.
pub open spec fn chosen_cells(cells: Seq<(i64, i64)>, chosen: Seq<usize>) -> Seq<(i64, i64)> {
    chosen.map_values(|r: usize| cells[r as int])
}

/// Every cell that some point falls in is the cell of a chosen point.
pub open spec fn covers_all_cells(cells: Seq<(i64, i64)>, chosen: Seq<usize>) -> bool {
    forall|i: int| 0 <= i < cells.len() ==> #[trigger] chosen_cells(cells, chosen).contains(cells[i])
}

/// Point `r` is the one a cell keeps: no point of its cell is lower, and no
/// point of its cell as low comes before it.
pub open spec fn keeps(cells: Seq<(i64, i64)>, heights: Seq<u64>, r: int) -> bool {
    &&& 0 <= r < cells.len()
    &&& forall|j: int|
        0 <= j < cells.len() && #[trigger] cells[j] == cells[r] ==> heights[r] < heights[j] || (
        heights[r] == heights[j] && r <= j)
}

proof fn lemma_slots_cover(cs: Seq<(i64, i64)>, slots: Map<i128, usize>, chosen: Seq<usize>)
    requires
        forall|key: i128| #[trigger]
            slots.contains_key(key) ==> {
                &&& slots[key] < chosen.len()
                &&& chosen[slots[key] as int] < cs.len()
                &&& cell_key(cs[chosen[slots[key] as int] as int]) == key
            },
        forall|j: int| 0 <= j < cs.len() ==> #[trigger] slots.contains_key(cell_key(cs[j]) as i128),
    ensures
        covers_all_cells(cs, chosen),
{
    assert forall|i: int| 0 <= i < cs.len() implies #[trigger] chosen_cells(cs, chosen).contains(cs[i]) by {
        let key = cell_key(cs[i]) as i128;
        assert(slots.contains_key(key));
        let k = slots[key] as int;
        lemma_cell_key_injective(cs[chosen[k] as int], cs[i]);
        assert(chosen_cells(cs, chosen)[k] == cs[i]);
    }
}

/// The lowest point of every occupied grid cell.
///
/// `cells[i]` is the grid cell of point `i` and `heights[i]` an order key of
/// its elevation. The result holds, for every cell that some point falls in,
/// exactly one point: the lowest one of that cell, the first of equally low
/// ones.
pub fn sample_ground_points(cells: &[(i64, i64)], heights: &[u64]) -> (result: Vec<usize>)
    requires
        cells@.len() == heights@.len(),
    ensures
        forall|k: int| 0 <= k < result@.len() ==> keeps(cells@, heights@, #[trigger] result@[k] as int),
        forall|k: int, l: int|
            0 <= k < l < result@.len() ==> cells@[#[trigger] result@[k] as int] != cells@[#[trigger] result@[l] as int],
        covers_all_cells(cells@, result@),
        forall|k: int, j: int|
            0 <= k < result@.len() && 0 <= j < cells@.len() && #[trigger] cells@[j] == cells@[#[trigger] result@[k] as int]
                ==> heights@[result@[k] as int] < heights@[j] || (heights@[result@[k] as int] == heights@[j]
                && result@[k] <= j),
{
    let ghost cs = cells@;
    let ghost hs = heights@;
    let n = cells.len();
    let mut slots: HashMap<i128, usize> = HashMap::new();
    let mut result: Vec<usize> = Vec::new();
    let mut i: usize = 0;
    while i < n
        invariant
            n == cs.len(),
            cs == cells@,
            hs == heights@,
            hs.len() == n,
            i <= n,
            forall|key: i128| #[trigger]
                slots@.contains_key(key) ==> {
                    &&& slots@[key] < result@.len()
                    &&& cell_key(cs[result@[slots@[key] as int] as int]) == key
                },
            forall|k: int|
                0 <= k < result@.len() ==> {
                    &&& #[trigger] result@[k] < i
                    &&& slots@.contains_key(cell_key(cs[result@[k] as int]) as i128)
                    &&& slots@[cell_key(cs[result@[k] as int]) as i128] == k
                    &&& forall|j: int|
                        0 <= j < i && #[trigger] cs[j] == cs[result@[k] as int] ==> hs[result@[k] as int] < hs[j] || (
                        hs[result@[k] as int] == hs[j] && result@[k] <= j)
                },
            forall|j: int| 0 <= j < i ==> #[trigger] slots@.contains_key(cell_key(cs[j]) as i128),
        decreases n - i,
    {
        let key = compute_cell_key(cells[i]);
        let found = slots.get(&key);
        match found {
            Some(slot) => {
                let slot = *slot;
                proof {
                    lemma_cell_key_injective(cs[result@[slot as int] as int], cs[i as int]);
                }
                let r = result[slot];
                if heights[i] < heights[r] {
                    result.set(slot, i);
                }
                proof {
                    assert forall|k: int| 0 <= k < result@.len() implies {
                        &&& #[trigger] result@[k] < i + 1
                        &&& slots@.contains_key(cell_key(cs[result@[k] as int]) as i128)
                        &&& slots@[cell_key(cs[result@[k] as int]) as i128] == k
                        &&& forall|j: int|
                            0 <= j < i + 1 && #[trigger] cs[j] == cs[result@[k] as int] ==> hs[result@[k] as int] < hs[j] || (
                            hs[result@[k] as int] == hs[j] && result@[k] <= j)
                    } by {
                        if k != slot {
                            if cs[result@[k] as int] == cs[i as int] {
                                lemma_cell_key_injective(cs[result@[k] as int], cs[i as int]);
                            }
                        }
                    }
                }
            },
            None => {
                slots.insert(key, result.len());
                result.push(i);
            },
        }
        i = i + 1;
    }
    proof {
        lemma_slots_cover(cs, slots@, result@);
    }
    result
}

} // verus!
