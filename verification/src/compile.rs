//! Compiling the pattern of one position: its capture table and the values
//! that it stands for.

use crate::alternative::{
    alternative, binary_value, is_canonical, lemma_alternative_bound, lemma_last_alternative,
    parse_binary, widest,
};
use crate::grammar::{
    bit_chars, canonical, captures, content, pattern_error, unnamed_count, written_names,
    PatternError,
};
use crate::parse::{try_parse_pattern_string, CapturedVariables};
use crate::replacer::{
    lemma_assignment_spells, make_replacer, replace_x_with_replacer, wildcard_count,
};
use vstd::arithmetic::power2::pow2;
use vstd::prelude::*;

verus! {

/// The reason for which the pattern `s` cannot be compiled, if there is one:
/// the grammar refuses it, or it holds no bit, or its largest value does not
/// fit into 64 bits.
pub open spec fn rejection(s: Seq<char>) -> Option<PatternError> {
    match pattern_error(s) {
        Some(e) => Some(e),
        None => if canonical(s).len() == 0 || binary_value(widest(canonical(s))) > u64::MAX {
            Some(PatternError::InvalidAlternative)
        } else {
            None
        },
    }
}

/// The values that `canon` stands for, in counting order of the assignments
/// of its wildcards.
pub open spec fn alternatives(canon: Seq<char>) -> Seq<nat> {
    Seq::new(pow2(wildcard_count(canon)), |n: int| alternative(canon, n as nat))
}

/// The view of a list of values.
pub open spec fn values_view(values: Seq<u64>) -> Seq<nat> {
    Seq::new(values.len(), |n: int| values[n] as nat)
}

/// A canonical string holds bit characters only.
pub proof fn lemma_canonical(s: Seq<char>)
    ensures
        is_canonical(canonical(s)),
{
    let t = content(s);
    assert forall|i: int| 0 <= i < canonical(s).len() implies crate::grammar::is_bit_char(
        #[trigger] canonical(s)[i],
    ) by {
        t.lemma_filter_pred(bit_chars(), i);
    }
}

/// Compiles one pattern: parses it and lists the values that it stands for,
/// one for each assignment of its wildcards, in counting order. Unnamed
/// captures are numbered from `start_idx`.
pub fn process_pattern_string(literal: &str, start_idx: usize) -> (compiled: Result<
    (CapturedVariables, Vec<u64>),
    PatternError,
>)
    requires
        start_idx + unnamed_count(written_names(literal@)) <= usize::MAX,
    ensures
        match compiled {
            Ok(c) => {
                &&& rejection(literal@) is None
                &&& c.0@ == captures(literal@, start_idx as nat)
                &&& c.0.pat_len == canonical(literal@).len()
                &&& c.0.ranges_valid()
                &&& c.0@.len() <= literal@.len()
                &&& values_view(c.1@) == alternatives(canonical(literal@))
            },
            Err(e) => rejection(literal@) == Some(e),
        },
{
    let (vars, pattern) = match try_parse_pattern_string(literal, start_idx) {
        Ok(parsed) => parsed,
        Err(e) => {
            return Err(e);
        },
    };
    let ghost canon = canonical(literal@);
    let ghost k = wildcard_count(canon);
    proof {
        lemma_canonical(literal@);
        lemma_last_alternative(canon);
    }
    let mut replacer = make_replacer(pattern.as_str());
    let mut result: Vec<u64> = Vec::new();
    loop
        invariant
            canon == canonical(literal@),
            pattern@ == canon,
            is_canonical(canon),
            k == wildcard_count(canon),
            replacer.width() == k,
            pow2(k) >= 1,
            match replacer.position() {
                Some(n) => n == result@.len() && n < pow2(k),
                None => result@.len() == pow2(k),
            },
            forall|n: int| 0 <= n < result@.len() ==> #[trigger] result@[n] == alternative(
                canon,
                n as nat,
            ),
            result@.len() > 0 ==> canon.len() > 0,
            pattern_error(literal@) is None,
        ensures
            result@.len() == pow2(k),
        decreases
                match replacer.position() {
                    Some(n) => pow2(k) - n,
                    None => 0,
                },
    {
        let ghost n = result@.len();
        match replacer.next() {
            None => {
                break ;
            },
            Some(cells) => {
                proof {
                    lemma_assignment_spells(k, n);
                    lemma_alternative_bound(canon, cells@);
                }
                let text = replace_x_with_replacer(pattern.as_str(), cells);
                match parse_binary(text.as_str()) {
                    Some(value) => {
                        result.push(value);
                    },
                    None => {
                        return Err(PatternError::InvalidAlternative);
                    },
                }
            },
        }
    }
    proof {
        assert(result@[pow2(k) - 1] == binary_value(widest(canon)));
        assert(values_view(result@) =~= alternatives(canon));
    }
    Ok((vars, result))
}

} // verus!
