//! The values that a canonical string stands for: one for each assignment of
//! bits to its wildcards.

use crate::grammar::{decimal, is_bit_char, lemma_filter_push, wildcards};
use crate::replacer::{
    assignment, cells_value, is_assignment, lemma_assignment_spells, lemma_one_cells,
    lemma_spelled_assignment, substitute, substituted_last, wildcard_count,
};
use vstd::arithmetic::power2::pow2;
use vstd::prelude::*;

verus! {

/// A text of binary digits.
pub open spec fn is_binary(text: Seq<char>) -> bool {
    forall|i: int| 0 <= i < text.len() ==> #[trigger] text[i] == '0' || text[i] == '1'
}

/// A text of bit characters, as a canonical string is.
pub open spec fn is_canonical(text: Seq<char>) -> bool {
    forall|i: int| 0 <= i < text.len() ==> is_bit_char(#[trigger] text[i])
}

/// The number that a binary numeral denotes, its last digit being the lowest.
pub open spec fn binary_value(text: Seq<char>) -> nat
    decreases text.len(),
{
    if text.len() == 0 {
        0
    } else {
        2 * binary_value(text.drop_last()) + if text.last() == '1' {
            1nat
        } else {
            0nat
        }
    }
}

/// The binary digit of a bit.
pub open spec fn bit_digit(bit: u8) -> char {
    if bit == 0 {
        '0'
    } else {
        '1'
    }
}

/// The canonical string with every wildcard set to one: the numeral of the
/// largest value that the string stands for.
pub open spec fn widest(canon: Seq<char>) -> Seq<char> {
    Seq::new(
        canon.len(),
        |i: int|
            if canon[i] == 'x' {
                '1'
            } else {
                canon[i]
            },
    )
}

/// The value that `canon` stands for under the `n`-th assignment of its
/// wildcards.
pub open spec fn alternative(canon: Seq<char>, n: nat) -> nat {
    binary_value(substitute(canon, assignment(wildcard_count(canon), n)))
}

/// A numeral is worth at least as much as any of its beginnings.
pub proof fn lemma_binary_value_prefix(a: Seq<char>, b: Seq<char>)
    ensures
        binary_value(a) <= binary_value(a + b),
    decreases b.len(),
{
    if b.len() == 0 {
        assert(a + b =~= a);
    } else {
        lemma_binary_value_prefix(a, b.drop_last());
        assert((a + b).drop_last() =~= a + b.drop_last());
    }
}

/// Of two numerals of one length, the one with ones wherever the other has
/// them is worth at least as much.
pub proof fn lemma_binary_value_monotone(u: Seq<char>, v: Seq<char>)
    requires
        u.len() == v.len(),
        forall|i: int| 0 <= i < u.len() && u[i] == '1' ==> v[i] == '1',
    ensures
        binary_value(u) <= binary_value(v),
    decreases u.len(),
{
    if u.len() > 0 {
        lemma_binary_value_monotone(u.drop_last(), v.drop_last());
    }
}

/// Two binary numerals of one length that denote the same number are equal.
pub proof fn lemma_binary_value_injective(u: Seq<char>, v: Seq<char>)
    requires
        u.len() == v.len(),
        is_binary(u),
        is_binary(v),
        binary_value(u) == binary_value(v),
    ensures
        u == v,
    decreases u.len(),
{
    if u.len() > 0 {
        lemma_binary_value_injective(u.drop_last(), v.drop_last());
        assert(u =~= u.drop_last().push(u.last()));
        assert(v =~= v.drop_last().push(v.last()));
    }
    assert(u =~= v);
}

/// A wildcard has fewer wildcards before it than the text holds.
pub proof fn lemma_wildcard_rank(pattern: Seq<char>, i: int)
    requires
        0 <= i < pattern.len(),
        pattern[i] == 'x',
    ensures
        wildcard_count(pattern.take(i)) < wildcard_count(pattern),
{
    let before = pattern.take(i);
    let rest = pattern.skip(i + 1);
    lemma_filter_push(before, wildcards(), 'x');
    Seq::filter_distributes_over_add(before.push('x'), rest, wildcards());
    assert(pattern =~= before.push('x') + rest);
}

/// The wildcard of a given rank is somewhere in the text.
pub proof fn lemma_wildcard_position(pattern: Seq<char>, rank: nat) -> (i: int)
    requires
        rank < wildcard_count(pattern),
    ensures
        0 <= i < pattern.len(),
        pattern[i] == 'x',
        wildcard_count(pattern.take(i)) == rank,
    decreases pattern.len(),
{
    reveal(Seq::filter);
    let shorter = pattern.drop_last();
    if pattern.last() == 'x' && wildcard_count(shorter) == rank {
        assert(pattern.take(pattern.len() - 1) =~= shorter);
        pattern.len() - 1
    } else {
        let i = lemma_wildcard_position(shorter, rank);
        assert(pattern.take(i) =~= shorter.take(i));
        i
    }
}

/// With bits for cells, substitution keeps the length of the text, and a
/// wildcard for which a cell is left becomes the digit of that cell.
pub proof fn lemma_substitute_bits(pattern: Seq<char>, cells: Seq<u8>)
    requires
        is_assignment(cells),
    ensures
        substitute(pattern, cells).len() == pattern.len(),
        forall|i: int|
            0 <= i < pattern.len() ==> #[trigger] substitute(pattern, cells)[i] == if pattern[i]
                == 'x' && wildcard_count(pattern.take(i)) < cells.len() {
                bit_digit(cells[wildcard_count(pattern.take(i)) as int])
            } else {
                pattern[i]
            },
    decreases pattern.len(),
{
    if pattern.len() > 0 {
        let shorter = pattern.drop_last();
        lemma_substitute_bits(shorter, cells);
        let rank = wildcard_count(shorter);
        if pattern.last() == 'x' && rank < cells.len() {
            assert(cells[rank as int] <= 1);
            assert(decimal(0) =~= seq!['0']);
            assert(decimal(1) =~= seq!['1']);
        }
        assert(substituted_last(pattern, cells).len() == 1);
        assert(pattern.take(pattern.len() - 1) =~= shorter);
        assert forall|i: int| 0 <= i < pattern.len() - 1 implies pattern.take(i) == shorter.take(
            i,
        ) by {
            assert(pattern.take(i) =~= shorter.take(i));
        }
    }
}

/// Every alternative of a canonical string is a binary numeral as long as
/// the string, worth no more than the string with its wildcards set to one.
pub proof fn lemma_alternative_bound(canon: Seq<char>, cells: Seq<u8>)
    requires
        is_canonical(canon),
        is_assignment(cells),
        cells.len() == wildcard_count(canon),
    ensures
        substitute(canon, cells).len() == canon.len(),
        is_binary(substitute(canon, cells)),
        binary_value(substitute(canon, cells)) <= binary_value(widest(canon)),
{
    let text = substitute(canon, cells);
    lemma_substitute_bits(canon, cells);
    assert forall|i: int| 0 <= i < canon.len() implies (#[trigger] text[i] == '0' || text[i]
        == '1') && (text[i] == '1' ==> widest(canon)[i] == '1') by {
        assert(is_bit_char(canon[i]));
        if canon[i] == 'x' {
            lemma_wildcard_rank(canon, i);
        }
    }
    lemma_binary_value_monotone(text, widest(canon));
}

/// The last alternative of a canonical string is the string with its
/// wildcards set to one.
pub proof fn lemma_last_alternative(canon: Seq<char>)
    requires
        is_canonical(canon),
    ensures
        pow2(wildcard_count(canon)) >= 1,
        alternative(canon, (pow2(wildcard_count(canon)) - 1) as nat) == binary_value(
            widest(canon),
        ),
{
    let k = wildcard_count(canon);
    let ones = Seq::new(k, |j: int| 1u8);
    lemma_one_cells(ones);
    lemma_spelled_assignment(ones);
    lemma_substitute_bits(canon, ones);
    assert forall|i: int| 0 <= i < canon.len() implies #[trigger] substitute(canon, ones)[i]
        == widest(canon)[i] by {
        if canon[i] == 'x' {
            lemma_wildcard_rank(canon, i);
        }
    }
    assert(substitute(canon, ones) =~= widest(canon));
}

/// Two assignments that give a canonical string the same value are the same
/// assignment: no value comes twice among the alternatives.
pub proof fn lemma_alternatives_distinct(canon: Seq<char>, m: nat, n: nat)
    requires
        is_canonical(canon),
        m < pow2(wildcard_count(canon)),
        n < pow2(wildcard_count(canon)),
        alternative(canon, m) == alternative(canon, n),
    ensures
        m == n,
{
    let k = wildcard_count(canon);
    let a = assignment(k, m);
    let b = assignment(k, n);
    lemma_assignment_spells(k, m);
    lemma_assignment_spells(k, n);
    lemma_alternative_bound(canon, a);
    lemma_alternative_bound(canon, b);
    lemma_binary_value_injective(substitute(canon, a), substitute(canon, b));
    lemma_substitute_bits(canon, a);
    lemma_substitute_bits(canon, b);
    assert forall|j: int| 0 <= j < k implies a[j] == b[j] by {
        let i = lemma_wildcard_position(canon, j as nat);
        assert(substitute(canon, a)[i] == bit_digit(a[j]));
        assert(substitute(canon, b)[i] == bit_digit(b[j]));
        assert(a[j] <= 1 && b[j] <= 1);
    }
    assert(a =~= b);
}

/// Every way of setting the wildcards of a canonical string to bits is one
/// of its alternatives.
pub proof fn lemma_alternatives_cover(canon: Seq<char>, cells: Seq<u8>)
    requires
        is_assignment(cells),
        cells.len() == wildcard_count(canon),
    ensures
        cells_value(cells) < pow2(wildcard_count(canon)),
        alternative(canon, cells_value(cells)) == binary_value(substitute(canon, cells)),
{
    lemma_spelled_assignment(cells);
}

/// Reads a binary numeral of at most 64 significant bits.
pub fn parse_binary(text: &str) -> (value: Option<u64>)
    ensures
        match value {
            Some(v) => text@.len() > 0 && is_binary(text@) && v == binary_value(text@),
            None => text@.len() == 0 || !is_binary(text@) || binary_value(text@) > u64::MAX,
        },
{
    let mut acc: u64 = 0;
    let mut any = false;
    for c in it: text.chars()
        invariant
            it.seq() == text@,
            is_binary(it.seq().take(it.index())),
            acc == binary_value(it.seq().take(it.index())),
            any == (it.index() > 0),
    {
        let ghost seen = it.seq().take(it.index());
        let ghost longer = it.seq().take(it.index() + 1);
        proof {
            assert(longer =~= seen.push(c));
            assert(longer.drop_last() =~= seen);
            assert(text@ =~= longer + text@.skip(it.index() + 1));
            lemma_binary_value_prefix(longer, text@.skip(it.index() + 1));
        }
        let digit: u64 = if c == '1' {
            1
        } else if c == '0' {
            0
        } else {
            proof {
                assert(text@[it.index()] == c);
            }
            return None;
        };
        if acc > (u64::MAX - digit) / 2 {
            return None;
        }
        acc = 2 * acc + digit;
        any = true;
    }
    proof {
        assert(text@.take(text@.len() as int) =~= text@);
    }
    if any {
        Some(acc)
    } else {
        None
    }
}

} // verus!
