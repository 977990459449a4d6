//! The wildcard enumerator: every assignment of bits to the wildcards of a
//! canonical string, in counting order.

use crate::grammar::{decimal, lemma_filter_push, wildcards};
use crate::text::push_decimal;
use vstd::arithmetic::power2::{lemma2_to64, lemma_pow2_pos, lemma_pow2_unfold, pow2};
use vstd::prelude::*;

verus! {

/// Number of wildcards of the text `pattern`.
pub open spec fn wildcard_count(pattern: Seq<char>) -> nat {
    pattern.filter(wildcards()).len()
}

/// One bit for each wildcard: every cell holds 0 or 1.
pub open spec fn is_assignment(cells: Seq<u8>) -> bool {
    forall|i: int| 0 <= i < cells.len() ==> #[trigger] cells[i] <= 1
}

/// The number that the cells spell, the first cell being the lowest bit.
pub open spec fn cells_value(cells: Seq<u8>) -> nat
    decreases cells.len(),
{
    if cells.len() == 0 {
        0
    } else {
        cells[0] as nat + 2 * cells_value(cells.drop_first())
    }
}

/// The assignment of `k` wildcards that spells `n`: cell `i` holds bit `i`
/// of `n`.
pub open spec fn assignment(k: nat, n: nat) -> Seq<u8>
    decreases k,
{
    if k == 0 {
        Seq::empty()
    } else {
        seq![(n % 2) as u8] + assignment((k - 1) as nat, n / 2)
    }
}

/// `assignment(k, n)` holds `k` bits, and below `2^k` it spells `n`.
pub proof fn lemma_assignment_spells(k: nat, n: nat)
    ensures
        assignment(k, n).len() == k,
        is_assignment(assignment(k, n)),
        n < pow2(k) ==> cells_value(assignment(k, n)) == n,
    decreases k,
{
    if k == 0 {
        lemma2_to64();
    } else {
        let rest = assignment((k - 1) as nat, n / 2);
        lemma_assignment_spells((k - 1) as nat, n / 2);
        lemma_pow2_unfold(k);
        assert(assignment(k, n).drop_first() =~= rest);
    }
}

/// Bits spell a number below `2^k`, and they are the assignment that spells
/// it.
pub proof fn lemma_spelled_assignment(cells: Seq<u8>)
    requires
        is_assignment(cells),
    ensures
        cells_value(cells) < pow2(cells.len()),
        assignment(cells.len(), cells_value(cells)) == cells,
    decreases cells.len(),
{
    if cells.len() == 0 {
        lemma_pow2_pos(0);
        assert(assignment(0, 0) =~= cells);
    } else {
        let rest = cells.drop_first();
        lemma_spelled_assignment(rest);
        lemma_pow2_unfold(cells.len());
        assert(cells[0] <= 1);
        assert(assignment(cells.len(), cells_value(cells)) =~= cells);
    }
}

/// Cells that are all zero spell zero.
pub proof fn lemma_zero_cells(cells: Seq<u8>)
    requires
        forall|i: int| 0 <= i < cells.len() ==> #[trigger] cells[i] == 0,
    ensures
        cells_value(cells) == 0,
    decreases cells.len(),
{
    if cells.len() > 0 {
        lemma_zero_cells(cells.drop_first());
    }
}

/// Cells that are all one spell the largest number, `2^k - 1`.
pub proof fn lemma_one_cells(cells: Seq<u8>)
    requires
        forall|i: int| 0 <= i < cells.len() ==> #[trigger] cells[i] == 1,
    ensures
        cells_value(cells) + 1 == pow2(cells.len()),
    decreases cells.len(),
{
    if cells.len() == 0 {
        lemma2_to64();
    } else {
        lemma_one_cells(cells.drop_first());
        lemma_pow2_unfold(cells.len());
    }
}

/// The cells after a carry that runs through `i` ones and stops at a zero.
pub open spec fn carried(cells: Seq<u8>, i: int) -> Seq<u8> {
    Seq::new(
        cells.len(),
        |j: int|
            if j < i {
                0u8
            } else if j == i {
                1u8
            } else {
                cells[j]
            },
    )
}

/// A carry adds one to the number that the cells spell.
pub proof fn lemma_carry(cells: Seq<u8>, i: int)
    requires
        0 <= i < cells.len(),
        forall|j: int| 0 <= j < i ==> #[trigger] cells[j] == 1,
        cells[i] == 0,
    ensures
        cells_value(carried(cells, i)) == cells_value(cells) + 1,
    decreases i,
{
    let after = carried(cells, i);
    if i == 0 {
        assert(after.drop_first() =~= cells.drop_first());
    } else {
        lemma_carry(cells.drop_first(), i - 1);
        assert(after.drop_first() =~= carried(cells.drop_first(), i - 1));
        assert(cells[0] == 1);
    }
}

/// The enumerator of the assignments of a number of wildcards. It yields each
/// assignment once, in counting order, and then nothing.
pub struct Replacer {
    replacer: Vec<u8>,
    is_end: bool,
}

impl Replacer {
    /// The cells hold bits.
    #[verifier::type_invariant]
    closed spec fn cells_are_bits(&self) -> bool {
        is_assignment(self.replacer@)
    }

    /// Number of wildcards that are assigned.
    pub closed spec fn width(&self) -> nat {
        self.replacer@.len()
    }

    /// The number that the next assignment spells, or `None` once all have
    /// been yielded.
    pub closed spec fn position(&self) -> Option<nat> {
        if self.is_end {
            None
        } else {
            Some(cells_value(self.replacer@))
        }
    }

    /// Yields the next assignment, or `None` after the last one.
    pub fn next(&mut self) -> (item: Option<Vec<u8>>)
        ensures
            final(self).width() == old(self).width(),
            match old(self).position() {
                Some(n) => {
                    &&& n < pow2(old(self).width())
                    &&& item matches Some(cells) && cells@ == assignment(old(self).width(), n)
                    &&& final(self).position() == if n + 1 < pow2(old(self).width()) {
                        Some(n + 1)
                    } else {
                        None
                    }
                },
                None => item is None && final(self).position() is None,
            },
    {
        proof {
            use_type_invariant(&*self);
        }
        if self.is_end {
            return None;
        }
        let result = self.replacer.clone();
        let mut cells = self.replacer.clone();
        let ghost before = self.replacer@;
        proof {
            lemma_spelled_assignment(before);
            assert(result@ =~= before);
            assert(cells@ =~= before);
        }
        let mut did_something = false;
        let mut i: usize = 0;
        while i < cells.len()
            invariant_except_break
                !did_something,
                forall|j: int| 0 <= j < i ==> #[trigger] cells@[j] == 0,
                forall|j: int| i <= j < before.len() ==> #[trigger] cells@[j] == before[j],
            invariant
                0 <= i <= before.len(),
                cells@.len() == before.len(),
                is_assignment(before),
                forall|j: int| 0 <= j < i ==> #[trigger] before[j] == 1,
            ensures
                did_something ==> cells@ == carried(before, i as int) && i < before.len()
                    && before[i as int] == 0,
                !did_something ==> i == before.len() && cells@.len() == before.len() && (forall|
                    j: int,
                | 0 <= j < before.len() ==> #[trigger] cells@[j] == 0),
            decreases before.len() - i,
        {
            if cells[i] == 0 {
                cells.set(i, 1);
                did_something = true;
                proof {
                    assert(cells@ =~= carried(before, i as int));
                }
                break ;
            } else {
                cells.set(i, 0);
            }
            i = i + 1;
        }
        if did_something {
            proof {
                lemma_carry(before, i as int);
                lemma_spelled_assignment(cells@);
            }
            self.replacer = cells;
        } else {
            proof {
                lemma_one_cells(before);
            }
            self.replacer = cells;
            self.is_end = true;
        }
        Some(result)
    }
}

/// The enumerator of the assignments of the wildcards of `pattern`, set to
/// the first one, which is all zero.
pub fn make_replacer(pattern: &str) -> (replacer: Replacer)
    ensures
        replacer.width() == wildcard_count(pattern@),
        replacer.position() == Some(0nat),
{
    let mut result: Vec<u8> = Vec::new();
    proof {
        reveal(Seq::filter);
    }
    for c in it: pattern.chars()
        invariant
            it.seq() == pattern@,
            result@.len() == wildcard_count(it.seq().take(it.index())),
            forall|i: int| 0 <= i < result@.len() ==> #[trigger] result@[i] == 0,
    {
        proof {
            let seen = it.seq().take(it.index());
            assert(it.seq().take(it.index() + 1) =~= seen.push(c));
            lemma_filter_push(seen, wildcards(), c);
        }
        if c == 'x' {
            result.push(0);
        }
    }
    proof {
        assert(pattern@.take(pattern@.len() as int) =~= pattern@);
        lemma_zero_cells(result@);
    }
    Replacer { replacer: result, is_end: false }
}

/// What stands in place of the last character of `pattern` once its
/// wildcards are replaced from `cells`: the numeral of the cell that belongs
/// to it if it is a wildcard and a cell is left for it, else the character
/// itself.
pub open spec fn substituted_last(pattern: Seq<char>, cells: Seq<u8>) -> Seq<char> {
    let rank = wildcard_count(pattern.drop_last());
    if pattern.last() == 'x' && rank < cells.len() {
        decimal(cells[rank as int] as nat)
    } else {
        seq![pattern.last()]
    }
}

/// The text `pattern` with its wildcards replaced from the left: the `j`-th
/// wildcard by the decimal numeral of the `j`-th cell, as long as there are
/// cells.
pub open spec fn substitute(pattern: Seq<char>, cells: Seq<u8>) -> Seq<char>
    decreases pattern.len(),
{
    if pattern.len() == 0 {
        Seq::empty()
    } else {
        substitute(pattern.drop_last(), cells) + substituted_last(pattern, cells)
    }
}

/// Replaces the wildcards of `pattern` from the left, the `j`-th by the
/// numeral of `replacer[j]`. Wildcards for which no cell is left stay, and
/// cells for which no wildcard is left are ignored.
pub fn replace_x_with_replacer(pattern: &str, replacer: Vec<u8>) -> (result: String)
    ensures
        result@ == substitute(pattern@, replacer@),
{
    let mut result = String::new();
    let mut used: usize = 0;
    proof {
        reveal(Seq::filter);
    }
    for c in it: pattern.chars()
        invariant
            it.seq() == pattern@,
            result@ == substitute(it.seq().take(it.index()), replacer@),
            used <= replacer@.len(),
            used == wildcard_count(it.seq().take(it.index())) || (used == replacer@.len() && used
                < wildcard_count(it.seq().take(it.index()))),
    {
        proof {
            let seen = it.seq().take(it.index());
            let longer = it.seq().take(it.index() + 1);
            assert(longer =~= seen.push(c));
            assert(longer.drop_last() =~= seen);
            lemma_filter_push(seen, wildcards(), c);
        }
        if c == 'x' && used < replacer.len() {
            push_decimal(&mut result, replacer[used] as usize);
            used = used + 1;
        } else {
            result.push(c);
            proof {
                let seen = it.seq().take(it.index());
                assert(result@ =~= substitute(seen, replacer@) + seq![c]);
            }
        }
    }
    proof {
        assert(pattern@.take(pattern@.len() as int) =~= pattern@);
    }
    result
}

} // verus!
