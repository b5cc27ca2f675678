//! Twins: two cells of a group that may hold exactly the same two digits.
//!
//! The two digits of a pair of twins must go to the two cells of the pair,
//! so no other cell of the group can hold either of them.
use crate::masks::{
    candidate_count, count_candidates, has_digit, lemma_digit_mask_by_count, lemma_empty_and_full,
    lemma_has_digit_or, lemma_mask_bounds, lemma_mask_equal_by_digits, lemma_mask_within_has_digit,
    lemma_mask_within_or, mask_within,
};
use crate::reduction::group_in_grid;
use crate::sudoku_board::{cells_well_formed, AllCells, CellModel, CellState};
use std::collections::HashMap;
use vstd::prelude::*;
use vstd::std_specs::hash::group_hash_axioms;
use vstd::std_specs::iter::IteratorSpec;

verus! {

/// The digits that the cell at position `k` of `group` may hold.
pub open spec fn mask_in_group(cells: Seq<CellModel>, group: Seq<usize>, k: int) -> usize {
    cells[group[k] as int].value.unresolved_mask()
}

/// How many of the first `n` cells of the group may hold exactly the digits
/// of `mask`.
pub open spec fn same_mask_count(
    cells: Seq<CellModel>,
    group: Seq<usize>,
    mask: usize,
    n: nat,
) -> nat
    decreases n,
{
    if n == 0 {
        0
    } else {
        let before = same_mask_count(cells, group, mask, (n - 1) as nat);
        if mask_in_group(cells, group, n - 1) == mask {
            before + 1
        } else {
            before
        }
    }
}

/// Whether the cell at position `k` of the group is one of a pair of twins:
/// it may hold exactly two digits, and exactly two cells of the group may
/// hold exactly those.
pub open spec fn is_twin(cells: Seq<CellModel>, group: Seq<usize>, k: int) -> bool {
    let mask = mask_in_group(cells, group, k);
    candidate_count(mask) == 2 && same_mask_count(cells, group, mask, 9) == 2
}

/// The digits of all twins among the first `n` cells of the group.
pub open spec fn twin_mask(cells: Seq<CellModel>, group: Seq<usize>, n: nat) -> usize
    decreases n,
{
    if n == 0 {
        0
    } else {
        let rest = twin_mask(cells, group, (n - 1) as nat);
        if is_twin(cells, group, n - 1) {
            rest | mask_in_group(cells, group, n - 1)
        } else {
            rest
        }
    }
}

/// Where at most the cell at position `only` may hold exactly the digits of
/// `mask`, at most one cell does.
pub proof fn lemma_same_mask_count_single(
    cells: Seq<CellModel>,
    group: Seq<usize>,
    mask: usize,
    only: int,
    n: nat,
)
    requires
        forall|j: int|
            0 <= j < n && j != only ==> #[trigger] mask_in_group(cells, group, j) != mask,
    ensures
        same_mask_count(cells, group, mask, n) <= 1,
        only >= n || only < 0 ==> same_mask_count(cells, group, mask, n) == 0,
    decreases n,
{
    if n > 0 {
        lemma_same_mask_count_single(cells, group, mask, only, (n - 1) as nat);
        if n - 1 != only {
            assert(mask_in_group(cells, group, n - 1) != mask);
        }
    }
}

/// A twin has a partner: another cell of the group that may hold exactly the
/// same two digits.
pub proof fn lemma_twin_partner(cells: Seq<CellModel>, group: Seq<usize>, k: int) -> (partner: int)
    requires
        0 <= k < 9,
        is_twin(cells, group, k),
    ensures
        0 <= partner < 9,
        partner != k,
        mask_in_group(cells, group, partner) == mask_in_group(cells, group, k),
{
    let mask = mask_in_group(cells, group, k);
    if !exists|j: int| 0 <= j < 9 && j != k && #[trigger] mask_in_group(cells, group, j) == mask {
        lemma_same_mask_count_single(cells, group, mask, k, 9);
        assert(false);
    }
    choose|j: int| 0 <= j < 9 && j != k && #[trigger] mask_in_group(cells, group, j) == mask
}

/// Every digit of the twin mask is a digit of some twin, and the digits of
/// every twin lie within the twin mask.
pub proof fn lemma_twin_mask(cells: Seq<CellModel>, group: Seq<usize>, n: nat)
    requires
        n <= 9,
    ensures
        forall|d: int|
            1 <= d <= 9 && #[trigger] has_digit(twin_mask(cells, group, n), d) ==> exists|k: int|
                0 <= k < n && #[trigger] is_twin(cells, group, k) && has_digit(
                    mask_in_group(cells, group, k),
                    d,
                ),
        forall|k: int|
            0 <= k < n && #[trigger] is_twin(cells, group, k) ==> mask_within(
                mask_in_group(cells, group, k),
                twin_mask(cells, group, n),
            ),
    decreases n,
{
    if n == 0 {
        lemma_empty_and_full();
    } else {
        lemma_twin_mask(cells, group, (n - 1) as nat);
        let rest = twin_mask(cells, group, (n - 1) as nat);
        let own = mask_in_group(cells, group, n - 1);
        let all = twin_mask(cells, group, n);
        assert forall|d: int| 1 <= d <= 9 && #[trigger] has_digit(all, d) implies exists|k: int|
            0 <= k < n && #[trigger] is_twin(cells, group, k) && has_digit(
                mask_in_group(cells, group, k),
                d,
            ) by {
            lemma_has_digit_or(rest, own, d);
            if has_digit(rest, d) {
                let k = choose|k: int|
                    0 <= k < n - 1 && #[trigger] is_twin(cells, group, k) && has_digit(
                        mask_in_group(cells, group, k),
                        d,
                    );
                assert(is_twin(cells, group, k));
            } else {
                assert(is_twin(cells, group, n - 1));
            }
        }
        assert forall|k: int| 0 <= k < n && #[trigger] is_twin(cells, group, k) implies mask_within(
            mask_in_group(cells, group, k),
            all,
        ) by {
            lemma_mask_within_or(mask_in_group(cells, group, k), rest, own);
        }
    }
}

/// Whether a mask that `count` cells of a group may hold exactly is the mask
/// of a pair of twins: it has two digits, and `count` is two.
pub open spec fn is_twin_entry(mask: usize, count: usize) -> bool {
    candidate_count(mask) == 2 && count == 2
}

/// No more cells are counted than are looked at.
pub proof fn lemma_same_mask_count_bound(
    cells: Seq<CellModel>,
    group: Seq<usize>,
    mask: usize,
    n: nat,
)
    ensures
        same_mask_count(cells, group, mask, n) <= n,
    decreases n,
{
    if n > 0 {
        lemma_same_mask_count_bound(cells, group, mask, (n - 1) as nat);
    }
}

/// A mask is counted exactly if some cell may hold exactly its digits.
pub proof fn lemma_same_mask_count_positive(
    cells: Seq<CellModel>,
    group: Seq<usize>,
    mask: usize,
    n: nat,
)
    ensures
        same_mask_count(cells, group, mask, n) > 0 <==> exists|k: int|
            0 <= k < n && #[trigger] mask_in_group(cells, group, k) == mask,
    decreases n,
{
    if n > 0 {
        lemma_same_mask_count_positive(cells, group, mask, (n - 1) as nat);
        if same_mask_count(cells, group, mask, (n - 1) as nat) > 0 {
            let k = choose|k: int|
                0 <= k < n - 1 && #[trigger] mask_in_group(cells, group, k) == mask;
            assert(0 <= k < n && mask_in_group(cells, group, k) == mask);
        } else if mask_in_group(cells, group, n - 1) == mask {
            assert(0 <= n - 1 < n && mask_in_group(cells, group, n - 1) == mask);
        } else {
            assert forall|k: int| 0 <= k < n implies #[trigger] mask_in_group(cells, group, k)
                != mask by {
                if k < n - 1 {
                    assert(!(0 <= k < n - 1 && mask_in_group(cells, group, k) == mask));
                }
            }
        }
    }
}

/// In a well-formed grid no cell may hold more than the nine digits, and
/// neither does the twin mask.
pub proof fn lemma_twin_mask_bound(cells: Seq<CellModel>, group: Seq<usize>, n: nat)
    requires
        cells_well_formed(cells),
        group_in_grid(group),
        n <= 9,
    ensures
        twin_mask(cells, group, n) <= 0x1FF,
        forall|k: int| 0 <= k < 9 ==> #[trigger] mask_in_group(cells, group, k) <= 0x1FF,
    decreases n,
{
    assert forall|k: int| 0 <= k < 9 implies #[trigger] mask_in_group(cells, group, k)
        <= 0x1FF by {
        let i = group[k] as int;
        assert(cells[i].well_formed());
        if let CellState::Solved(mask, _) = cells[i].value {
            lemma_digit_mask_by_count(mask);
        }
    }
    if n > 0 {
        lemma_twin_mask_bound(cells, group, (n - 1) as nat);
        lemma_mask_bounds(
            twin_mask(cells, group, (n - 1) as nat),
            mask_in_group(cells, group, n - 1),
        );
    }
}

/// Counts, for every mask that a cell of the group may hold exactly, the
/// cells that may.
fn count_masks(cells: &AllCells, group: &Vec<usize>) -> (twin_hash: HashMap<usize, usize>)
    requires
        cells.wf(),
        group_in_grid(group@),
    ensures
        forall|mask: usize| #[trigger]
            twin_hash@.contains_key(mask) <==> same_mask_count(cells@, group@, mask, 9) > 0,
        forall|mask: usize| #[trigger]
            twin_hash@.contains_key(mask) ==> twin_hash@[mask] == same_mask_count(
                cells@,
                group@,
                mask,
                9,
            ),
{
    broadcast use group_hash_axioms;

    let mut twin_hash: HashMap<usize, usize> = HashMap::new();
    let mut c: usize = 0;
    while c < 9
        invariant
            c <= 9,
            cells.wf(),
            group_in_grid(group@),
            forall|mask: usize| #[trigger]
                twin_hash@.contains_key(mask) <==> same_mask_count(cells@, group@, mask, c as nat)
                    > 0,
            forall|mask: usize| #[trigger]
                twin_hash@.contains_key(mask) ==> twin_hash@[mask] == same_mask_count(
                    cells@,
                    group@,
                    mask,
                    c as nat,
                ),
        decreases 9 - c,
    {
        let unresolved: usize = cells.cells[group[c]].get_unresolved_mask();
        proof {
            lemma_same_mask_count_bound(cells@, group@, unresolved, c as nat);
        }
        let result: usize = match twin_hash.get(&unresolved) {
            Option::Some(n) => *n + 1,
            Option::None => 1,
        };
        twin_hash.insert(unresolved, result);
        c = c + 1;
    }
    twin_hash
}

/// Collects the digits of every pair of twins in the group.
pub fn find_twins(cells: &AllCells, group: &Vec<usize>) -> (twins: usize)
    requires
        cells.wf(),
        group_in_grid(group@),
    ensures
        twins == twin_mask(cells@, group@, 9),
{
    broadcast use group_hash_axioms;

    let twin_hash = count_masks(cells, group);
    let mut overall_twin_mask: usize = 0;
    let ghost pairs = twin_hash.iter().remaining();
    let ghost mut seen: int = 0;
    proof {
        lemma_empty_and_full();
        lemma_twin_mask_bound(cells@, group@, 9);
        assert forall|j: int| 0 <= j < pairs.len() implies *(#[trigger] pairs[j]).0 <= 0x1FF by {
            let mask = *pairs[j].0;
            assert(twin_hash@.contains_key(mask));
            lemma_same_mask_count_positive(cells@, group@, mask, 9);
        }
    }
    for (key, val) in walk: twin_hash.iter()
        invariant
            walk.seq() == pairs,
            seen == walk.index(),
            overall_twin_mask <= 0x1FF,
            forall|j: int| 0 <= j < pairs.len() ==> *(#[trigger] pairs[j]).0 <= 0x1FF,
            forall|d: int|
                1 <= d <= 9 ==> (#[trigger] has_digit(overall_twin_mask, d) <==> exists|j: int|
                    0 <= j < seen && is_twin_entry(*(#[trigger] pairs[j]).0, *pairs[j].1)
                        && has_digit(*pairs[j].0, d)),
    {
        let ghost before = overall_twin_mask;
        assert(*key == *pairs[seen].0 && *val == *pairs[seen].1);
        if count_candidates(*key) == 2 && *val == 2 {
            overall_twin_mask = overall_twin_mask | *key;
            proof {
                lemma_mask_bounds(before, *key);
            }
        }
        proof {
            assert forall|d: int| 1 <= d <= 9 implies (#[trigger] has_digit(overall_twin_mask, d)
                <==> exists|j: int|
                0 <= j < seen + 1 && is_twin_entry(*(#[trigger] pairs[j]).0, *pairs[j].1)
                    && has_digit(*pairs[j].0, d)) by {
                lemma_has_digit_or(before, *key, d);
                if has_digit(before, d) {
                    let j = choose|j: int|
                        0 <= j < seen && is_twin_entry(*(#[trigger] pairs[j]).0, *pairs[j].1)
                            && has_digit(*pairs[j].0, d);
                    assert(0 <= j < seen + 1 && is_twin_entry(*pairs[j].0, *pairs[j].1));
                }
                if is_twin_entry(*key, *val) && has_digit(*key, d) {
                    assert(0 <= seen < seen + 1 && is_twin_entry(*pairs[seen].0, *pairs[seen].1));
                }
                if exists|j: int|
                    0 <= j < seen + 1 && is_twin_entry(*(#[trigger] pairs[j]).0, *pairs[j].1)
                        && has_digit(*pairs[j].0, d) {
                    let j = choose|j: int|
                        0 <= j < seen + 1 && is_twin_entry(*(#[trigger] pairs[j]).0, *pairs[j].1)
                            && has_digit(*pairs[j].0, d);
                    if j < seen {
                        assert(has_digit(before, d));
                    }
                }
            }
            seen = seen + 1;
        }
    }
    proof {
        let twins = twin_mask(cells@, group@, 9);
        lemma_twin_mask(cells@, group@, 9);
        assert forall|d: int| 1 <= d <= 9 implies (has_digit(overall_twin_mask, d) <==> has_digit(
            twins,
            d,
        )) by {
            if has_digit(overall_twin_mask, d) {
                let j = choose|j: int|
                    0 <= j < seen && is_twin_entry(*(#[trigger] pairs[j]).0, *pairs[j].1)
                        && has_digit(*pairs[j].0, d);
                let mask = *pairs[j].0;
                assert(twin_hash@.contains_key(mask) && twin_hash@[mask] == *pairs[j].1);
                lemma_same_mask_count_positive(cells@, group@, mask, 9);
                let k = choose|k: int|
                    0 <= k < 9 && #[trigger] mask_in_group(cells@, group@, k) == mask;
                assert(is_twin(cells@, group@, k));
                lemma_mask_within_has_digit(mask, twins, d);
            }
            if has_digit(twins, d) {
                let k = choose|k: int|
                    0 <= k < 9 && #[trigger] is_twin(cells@, group@, k) && has_digit(
                        mask_in_group(cells@, group@, k),
                        d,
                    );
                let mask = mask_in_group(cells@, group@, k);
                lemma_same_mask_count_positive(cells@, group@, mask, 9);
                assert(twin_hash@.contains_key(mask));
                let entry = (&mask, &twin_hash@[mask]);
                assert(pairs.contains(entry));
                let j = choose|j: int| 0 <= j < pairs.len() && pairs[j] == entry;
                assert(is_twin_entry(*pairs[j].0, *pairs[j].1) && has_digit(*pairs[j].0, d));
            }
        }
        lemma_mask_equal_by_digits(overall_twin_mask, twins);
    }
    overall_twin_mask
}

} // verus!
