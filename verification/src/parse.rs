//! The pattern parser: from a pattern string to its canonical string and its
//! capture table.

use crate::grammar::{
    bits, canonical, capture_open, captures, content, content_from, first_fault, is_name_end,
    lemma_content_push, lemma_filter_push, lemma_first_fault_prefix, lemma_name_part_len,
    lemma_name_stop_unique, lemma_names_push, lemma_unnamed_count_add, name_chars, name_of,
    name_part_len, pattern_error, raw_spans, resolve_names, unnamed_count, well_formed,
    written_names, written_names_from, CaptureView, PatternError,
};
use crate::text::{anonymous, is_bit, is_layout, is_name_character};
use std::ops::Range;
use std::str::Chars;
use vstd::pervasive::unreached;
use vstd::prelude::*;
use vstd::std_specs::iter::IteratorSpec;

verus! {

/// The capture table of one pattern.
pub struct CapturedVariables {
    /// Name and bit range of each capture, in the order in which they open.
    /// Bit 0 is the rightmost position of the canonical string.
    pub vars: Vec<(String, Range<usize>)>,
    /// Length of the canonical string.
    pub pat_len: usize,
}

impl View for CapturedVariables {
    type V = Seq<CaptureView>;

    open spec fn view(&self) -> Seq<CaptureView> {
        Seq::new(
            self.vars@.len(),
            |k: int|
                CaptureView {
                    name: self.vars@[k].0@,
                    start: self.vars@[k].1.start as int,
                    end: self.vars@[k].1.end as int,
                },
        )
    }
}

impl CapturedVariables {
    /// No range runs backwards.
    pub open spec fn ranges_ordered(&self) -> bool {
        forall|k: int|
            0 <= k < self.vars@.len() ==> (#[trigger] self.vars@[k]).1.start <= self.vars@[k].1.end
    }

    /// Every range lies within the pattern and does not run backwards.
    pub open spec fn ranges_valid(&self) -> bool {
        forall|k: int|
            0 <= k < self.vars@.len() ==> 0 <= (#[trigger] self.vars@[k]).1.start
                <= self.vars@[k].1.end <= self.pat_len
    }
}

/// Reads the name part that may follow an opening bracket.
///
/// Where a `:` comes before any `]`, the name is made of the letters, digits
/// and underscores before it, and `chars` moves past the `:`. Otherwise
/// `chars` stays where it is; the name is then empty if a `]` was found, and
/// holds the name characters up to the end of the text if none was.
///
/// `chars` is an iterator whose end is in sight, as every iterator is that
/// `str::chars` returns.
pub fn parse_variable(chars: &mut Chars) -> (name: String)
    requires
        (*old(chars)).decrease() is Some,
    ensures
        name@ == name_of((*old(chars)).remaining()),
        (*final(chars)).remaining() == (*old(chars)).remaining().skip(
            name_part_len((*old(chars)).remaining()) as int,
        ),
        (*final(chars)).decrease() is Some,
{
    broadcast use vstd::string::group_string_axioms;

    let ghost rest = (*chars).remaining();
    let mut var_name = String::new();
    let mut cloned = chars.clone();
    let ghost mut n: int = 0;
    proof {
        assert(rest.skip(0) =~= rest);
        assert(rest.take(0) =~= Seq::<char>::empty());
        reveal(Seq::filter);
    }
    loop
        invariant
            0 <= n <= rest.len(),
            cloned.remaining() == rest.skip(n),
            forall|j: int| 0 <= j < n ==> !is_name_end(#[trigger] rest[j]),
            var_name@ == rest.take(n).filter(name_chars()),
            (*chars).remaining() == rest,
            rest == (*old(chars)).remaining(),
            (*chars).decrease() is Some,
            cloned.decrease() is Some,
        decreases cloned.decrease()->0,
    {
        match cloned.next() {
            None => {
                proof {
                    lemma_name_stop_unique(rest, 0, n);
                    assert(rest.skip(0) =~= rest);
                }
                return var_name;
            },
            Some(c) => {
                proof {
                    if is_name_end(c) {
                        lemma_name_stop_unique(rest, 0, n);
                    }
                    assert(rest.skip(n).drop_first() =~= rest.skip(n + 1));
                    assert(rest.take(n + 1) =~= rest.take(n).push(c));
                    lemma_filter_push(rest.take(n), name_chars(), c);
                }
                if c == ':' {
                    *chars = cloned;
                    return var_name;
                } else if c == ']' {
                    proof {
                        assert(rest.skip(0) =~= rest);
                    }
                    return String::new();
                } else if is_name_character(c) {
                    var_name.push(c);
                }
                proof {
                    n = n + 1;
                }
            },
        }
    }
}

/// Parses a pattern, or says why the grammar refuses it.
///
/// On success the result holds the capture table and the canonical string.
/// Unnamed captures are named `_n`, with `n` counting up from `start_idx`.
pub fn try_parse_pattern_string(literal: &str, start_idx: usize) -> (parsed: Result<
    (CapturedVariables, String),
    PatternError,
>)
    requires
        start_idx + unnamed_count(written_names(literal@)) <= usize::MAX,
    ensures
        match parsed {
            Ok(p) => {
                &&& well_formed(literal@)
                &&& p.1@ == canonical(literal@)
                &&& p.0.pat_len == canonical(literal@).len()
                &&& p.0@ == captures(literal@, start_idx as nat)
                &&& p.0.ranges_valid()
                &&& p.0@.len() <= literal@.len()
            },
            Err(e) => pattern_error(literal@) == Some(e),
        },
{
    broadcast use vstd::string::group_string_axioms;

    let ghost s = literal@;
    let ghost start = start_idx as nat;
    let total = literal.unicode_len();
    let mut raw: Vec<(String, usize, usize)> = Vec::new();
    let mut pattern_string = String::new();
    let mut canon_len: usize = 0;
    let mut open: Option<(String, usize)> = None;
    let mut counter: usize = start_idx;
    let mut chars = literal.chars();
    let ghost mut pos: int = 0;
    let ghost mut t: Seq<char> = Seq::empty();
    let ghost mut names: Seq<Seq<char>> = Seq::empty();
    proof {
        assert(s.skip(0) =~= s);
        assert(t + content_from(s, 0) =~= content(s));
        assert(names + written_names_from(s, 0) =~= written_names(s));
        reveal(Seq::filter);
    }
    loop
        invariant
            s == literal@,
            start == start_idx,
            total == s.len(),
            0 <= pos <= s.len(),
            chars.remaining() == s.skip(pos),
            chars.decrease() is Some,
            t + content_from(s, pos) == content(s),
            names + written_names_from(s, pos) == written_names(s),
            first_fault(t) is None,
            pattern_string@ == bits(t),
            canon_len == bits(t).len(),
            canon_len <= pos,
            counter == start + unnamed_count(names),
            start + unnamed_count(written_names(s)) <= usize::MAX,
            open is Some <==> capture_open(t),
            raw_spans(t).len() == names.len(),
            names.len() <= pos,
            raw@.len() + (if open is Some { 1int } else { 0int }) == names.len(),
            forall|k: int|
                0 <= k < raw@.len() ==> {
                    &&& (#[trigger] raw@[k]).0@ == resolve_names(names, start)[k]
                    &&& raw@[k].1 == raw_spans(t)[k].lo
                    &&& raw@[k].2 == raw_spans(t)[k].hi
                    &&& raw@[k].1 <= raw@[k].2 <= canon_len
                },
            open matches Some(o) ==> {
                &&& o.0@ == resolve_names(names, start).last()
                &&& o.1 == raw_spans(t).last().lo
                &&& o.1 <= canon_len
            },
        ensures
            pos == s.len(),
        decreases s.len() - pos,
    {
        let c = match chars.next() {
            None => {
                break ;
            },
            Some(c) => c,
        };
        proof {
            assert(c == s[pos]);
            assert(s.skip(pos).drop_first() =~= s.skip(pos + 1));
            lemma_content_push(t, c);
            lemma_name_part_len(s.skip(pos + 1));
        }
        let ghost next: int = if c == '[' {
            pos + 1 + name_part_len(s.skip(pos + 1))
        } else {
            pos + 1
        };
        proof {
            assert(t.push(c) + content_from(s, next) =~= t + content_from(s, pos));
            lemma_first_fault_prefix(t.push(c), content_from(s, next));
        }
        if c == '[' {
            if open.is_some() {
                return Err(PatternError::NestedCapture);
            }
            let written = parse_variable(&mut chars);
            proof {
                assert(s.skip(pos + 1).skip(name_part_len(s.skip(pos + 1)) as int) =~= s.skip(next));
                assert(names.push(written@) + written_names_from(s, next) =~= names
                    + written_names_from(s, pos));
                lemma_names_push(names, written@, start);
                lemma_unnamed_count_add(names.push(written@), written_names_from(s, next));
            }
            let name = if written.as_str().is_empty() {
                let numbered = anonymous(counter);
                counter = counter + 1;
                numbered
            } else {
                written
            };
            open = Some((name, canon_len));
            proof {
                names = names.push(written@);
            }
        } else if c == ']' {
            match open {
                None => {
                    return Err(PatternError::NoCaptureToClose);
                },
                Some(o) => {
                    raw.push((o.0, o.1, canon_len));
                    open = None;
                },
            }
        } else if is_bit(c) {
            pattern_string.push(c);
            canon_len = canon_len + 1;
        } else if !is_layout(c) {
            return Err(PatternError::UnsupportedCharacter);
        }
        proof {
            t = t.push(c);
            pos = next;
        }
    }
    proof {
        assert(t + content_from(s, pos) =~= t);
    }
    if open.is_some() {
        return Err(PatternError::UnclosedCapture);
    }
    let mut vars: Vec<(String, Range<usize>)> = Vec::new();
    let mut k: usize = 0;
    while k < raw.len()
        invariant
            0 <= k <= raw@.len(),
            raw@.len() <= literal@.len(),
            vars@.len() == k,
            forall|j: int|
                0 <= j < raw@.len() ==> (#[trigger] raw@[j]).1 <= raw@[j].2 <= canon_len,
            forall|j: int|
                0 <= j < k ==> {
                    &&& (#[trigger] vars@[j]).0@ == raw@[j].0@
                    &&& vars@[j].1.start == canon_len - raw@[j].2
                    &&& vars@[j].1.end == canon_len - raw@[j].1
                },
        decreases raw@.len() - k,
    {
        let name = raw[k].0.clone();
        let range = Range { start: canon_len - raw[k].2, end: canon_len - raw[k].1 };
        vars.push((name, range));
        k = k + 1;
    }
    let table = CapturedVariables { vars, pat_len: canon_len };
    proof {
        assert(table@ =~= captures(s, start));
    }
    Ok((table, pattern_string))
}

/// Parses a pattern of the grammar into its capture table and its canonical
/// string. Unnamed captures are named `_n`, with `n` counting up from
/// `start_idx`.
pub fn parse_pattern_string(literal: &str, start_idx: usize) -> (parsed: (
    CapturedVariables,
    String,
))
    requires
        well_formed(literal@),
        start_idx + unnamed_count(written_names(literal@)) <= usize::MAX,
    ensures
        parsed.1@ == canonical(literal@),
        parsed.0.pat_len == canonical(literal@).len(),
        parsed.0@ == captures(literal@, start_idx as nat),
        parsed.0.ranges_valid(),
        parsed.0@.len() <= literal@.len(),
{
    match try_parse_pattern_string(literal, start_idx) {
        Ok(parsed) => parsed,
        Err(_) => unreached(),
    }
}

} // verus!
