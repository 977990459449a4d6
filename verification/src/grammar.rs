//! The pattern language, stated over sequences of characters.
//!
//! A pattern is read in two layers. The lexical layer finds the name parts:
//! after an opening bracket, everything up to and including the first `:` is
//! a name part, unless a `]` comes first. What is left once the name parts
//! are taken out is the content of the pattern: bit characters, layout
//! characters and brackets. The structural layer reads the content: the bit
//! characters form the canonical string, and each bracket pair spans the bit
//! characters between the two brackets.

use vstd::prelude::*;

verus! {

/// A significant character: one bit position of the pattern.
pub open spec fn is_bit_char(c: char) -> bool {
    c == '0' || c == '1' || c == 'x'
}

/// A separator that carries no meaning.
pub open spec fn is_layout_char(c: char) -> bool {
    c == ' ' || c == '_'
}

/// A character that a capture's name is made of.
pub open spec fn is_name_char(c: char) -> bool {
    ('0' <= c && c <= '9') || ('a' <= c && c <= 'z') || ('A' <= c && c <= 'Z') || c == '_'
}

/// A character that ends the search for a name.
pub open spec fn is_name_end(c: char) -> bool {
    c == ':' || c == ']'
}

/// The predicate that selects bit characters.
pub open spec fn bit_chars() -> spec_fn(char) -> bool {
    |c: char| is_bit_char(c)
}

/// The predicate that selects name characters.
pub open spec fn name_chars() -> spec_fn(char) -> bool {
    |c: char| is_name_char(c)
}

/// The predicate that selects wildcards.
pub open spec fn wildcards() -> spec_fn(char) -> bool {
    |c: char| c == 'x'
}

/// Index of the first `:` or `]` of `rest` at or after `from`, or the length
/// of `rest` where there is none.
pub open spec fn name_stop_from(rest: Seq<char>, from: int) -> int
    decreases rest.len() - from,
{
    if from < 0 || from >= rest.len() {
        rest.len() as int
    } else if is_name_end(rest[from]) {
        from
    } else {
        name_stop_from(rest, from + 1)
    }
}

/// Index of the first `:` or `]` of `rest`, or its length where there is none.
pub open spec fn name_stop(rest: Seq<char>) -> int {
    name_stop_from(rest, 0)
}

/// The name that the text after an opening bracket gives the capture: the
/// name characters before the first `:`. It is empty where a `]` comes first.
pub open spec fn name_of(rest: Seq<char>) -> Seq<char> {
    let stop = name_stop(rest);
    if stop < rest.len() && rest[stop] == ']' {
        Seq::empty()
    } else {
        rest.take(stop).filter(name_chars())
    }
}

/// Number of characters after an opening bracket that belong to its name
/// part: everything up to and including the first `:`, or nothing where no
/// `:` comes before the first `]`.
pub open spec fn name_part_len(rest: Seq<char>) -> nat {
    let stop = name_stop(rest);
    if stop < rest.len() && rest[stop] == ':' {
        (stop + 1) as nat
    } else {
        0
    }
}

/// The content of `s` from `pos` on: the text without its name parts.
pub open spec fn content_from(s: Seq<char>, pos: int) -> Seq<char>
    decreases s.len() - pos,
{
    if pos < 0 || pos >= s.len() {
        Seq::empty()
    } else if s[pos] == '[' {
        proof {
            lemma_name_part_len(s.skip(pos + 1));
        }
        seq!['['] + content_from(s, pos + 1 + name_part_len(s.skip(pos + 1)))
    } else {
        seq![s[pos]] + content_from(s, pos + 1)
    }
}

/// The content of a pattern: the text without its name parts.
pub open spec fn content(s: Seq<char>) -> Seq<char> {
    content_from(s, 0)
}

/// The names written in `s` from `pos` on, one for each opening bracket of
/// the content, empty for a capture without a name.
pub open spec fn written_names_from(s: Seq<char>, pos: int) -> Seq<Seq<char>>
    decreases s.len() - pos,
{
    if pos < 0 || pos >= s.len() {
        Seq::empty()
    } else if s[pos] == '[' {
        proof {
            lemma_name_part_len(s.skip(pos + 1));
        }
        seq![name_of(s.skip(pos + 1))] + written_names_from(
            s,
            pos + 1 + name_part_len(s.skip(pos + 1)),
        )
    } else {
        written_names_from(s, pos + 1)
    }
}

/// The names written in a pattern, one for each capture in order.
pub open spec fn written_names(s: Seq<char>) -> Seq<Seq<char>> {
    written_names_from(s, 0)
}

/// The bit characters of a content, in order.
pub open spec fn bits(t: Seq<char>) -> Seq<char> {
    t.filter(bit_chars())
}

/// The canonical string of a pattern: its bit characters outside the names.
pub open spec fn canonical(s: Seq<char>) -> Seq<char> {
    bits(content(s))
}

/// Whether a capture is open at the end of the content `t`: its last bracket
/// is an opening one.
pub open spec fn capture_open(t: Seq<char>) -> bool
    decreases t.len(),
{
    if t.len() == 0 {
        false
    } else if t.last() == '[' {
        true
    } else if t.last() == ']' {
        false
    } else {
        capture_open(t.drop_last())
    }
}

/// Why a pattern cannot be compiled.
#[derive(Clone, Copy, Debug, PartialEq, Eq, Structural)]
pub enum PatternError {
    /// A character of the content is no bit, layout or bracket character.
    UnsupportedCharacter,
    /// A `]` stands where no capture is open.
    NoCaptureToClose,
    /// A `[` stands inside an open capture.
    NestedCapture,
    /// The pattern ends inside an open capture.
    UnclosedCapture,
    /// The pattern holds no bit, or a value that it stands for exceeds 64 bits.
    InvalidAlternative,
    /// A capture is wider than 128 bits.
    TooWide,
}

/// What is wrong with the content character `c`, read while a capture is
/// open or not.
pub open spec fn char_fault(c: char, open: bool) -> Option<PatternError> {
    if is_bit_char(c) || is_layout_char(c) {
        None
    } else if c == '[' {
        if open {
            Some(PatternError::NestedCapture)
        } else {
            None
        }
    } else if c == ']' {
        if open {
            None
        } else {
            Some(PatternError::NoCaptureToClose)
        }
    } else {
        Some(PatternError::UnsupportedCharacter)
    }
}

/// The first fault met when the content `t` is read from the left.
pub open spec fn first_fault(t: Seq<char>) -> Option<PatternError>
    decreases t.len(),
{
    if t.len() == 0 {
        None
    } else {
        match first_fault(t.drop_last()) {
            Some(e) => Some(e),
            None => char_fault(t.last(), capture_open(t.drop_last())),
        }
    }
}

/// The reason for which the grammar refuses the pattern `s`, if it does.
pub open spec fn pattern_error(s: Seq<char>) -> Option<PatternError> {
    let t = content(s);
    match first_fault(t) {
        Some(e) => Some(e),
        None => if capture_open(t) {
            Some(PatternError::UnclosedCapture)
        } else {
            None
        },
    }
}

/// A pattern of the grammar: every content character is a bit, a layout
/// character or a bracket, and the brackets come in pairs that do not nest.
pub open spec fn well_formed(s: Seq<char>) -> bool {
    pattern_error(s) is None
}

/// The bit positions between a pair of brackets, counted from the left end
/// of the canonical string.
pub struct RawSpan {
    pub lo: nat,
    pub hi: nat,
}

/// The spans of the captures of the content `t`, in the order in which they
/// open. A capture starts at the number of bits read when it opens and ends
/// at the number of bits read when it closes.
pub open spec fn raw_spans(t: Seq<char>) -> Seq<RawSpan>
    decreases t.len(),
{
    if t.len() == 0 {
        Seq::empty()
    } else {
        let before = raw_spans(t.drop_last());
        let n = bits(t.drop_last()).len();
        if t.last() == '[' {
            before.push(RawSpan { lo: n, hi: n })
        } else if t.last() == ']' && before.len() > 0 {
            before.update(before.len() - 1, RawSpan { lo: before.last().lo, hi: n })
        } else {
            before
        }
    }
}

/// The decimal digit `d` as a character.
pub open spec fn digit_char(d: nat) -> char {
    (48 + d) as char
}

/// The decimal numeral of `n`, without leading zeros.
pub open spec fn decimal(n: nat) -> Seq<char>
    decreases n,
{
    if n < 10 {
        seq![digit_char(n)]
    } else {
        decimal(n / 10).push(digit_char(n % 10))
    }
}

/// The name given to the `n`-th capture without a name: `_` and the decimal
/// numeral of `n`.
pub open spec fn anonymous_name(n: nat) -> Seq<char> {
    seq!['_'] + decimal(n)
}

/// Number of empty names among `names`.
pub open spec fn unnamed_count(names: Seq<Seq<char>>) -> nat
    decreases names.len(),
{
    if names.len() == 0 {
        0
    } else {
        unnamed_count(names.drop_last()) + if names.last().len() == 0 {
            1nat
        } else {
            0nat
        }
    }
}

/// The names of the captures once the unnamed ones are numbered from `start`.
pub open spec fn resolve_names(names: Seq<Seq<char>>, start: nat) -> Seq<Seq<char>> {
    Seq::new(
        names.len(),
        |k: int|
            if names[k].len() == 0 {
                anonymous_name(start + unnamed_count(names.take(k)))
            } else {
                names[k]
            },
    )
}

/// A capture as the contracts see it: its name and its bit range, bit 0
/// being the rightmost position of the canonical string.
pub struct CaptureView {
    pub name: Seq<char>,
    pub start: int,
    pub end: int,
}

/// The capture table of the pattern `s`, its unnamed captures numbered from
/// `start`. A span from `lo` to `hi` of a canonical string of `n` bits is the
/// bit range from `n - hi` to `n - lo`.
pub open spec fn captures(s: Seq<char>, start: nat) -> Seq<CaptureView> {
    let t = content(s);
    let n = bits(t).len();
    let names = resolve_names(written_names(s), start);
    let spans = raw_spans(t);
    Seq::new(
        spans.len(),
        |k: int| CaptureView { name: names[k], start: n - spans[k].hi, end: n - spans[k].lo },
    )
}

/// The stop of a name search lies within the text, nothing before it ends a
/// name, and what stands at it does.
pub proof fn lemma_name_stop(rest: Seq<char>, from: int)
    requires
        0 <= from <= rest.len(),
    ensures
        from <= name_stop_from(rest, from) <= rest.len(),
        forall|j: int| from <= j < name_stop_from(rest, from) ==> !is_name_end(#[trigger] rest[j]),
        name_stop_from(rest, from) < rest.len() ==> is_name_end(rest[name_stop_from(rest, from)]),
    decreases rest.len() - from,
{
    if from < rest.len() && !is_name_end(rest[from]) {
        lemma_name_stop(rest, from + 1);
    }
}

/// The stop of a name search is the first index at which a `:` or `]` stands.
pub proof fn lemma_name_stop_unique(rest: Seq<char>, from: int, k: int)
    requires
        0 <= from <= k <= rest.len(),
        forall|j: int| from <= j < k ==> !is_name_end(#[trigger] rest[j]),
        k < rest.len() ==> is_name_end(rest[k]),
    ensures
        name_stop_from(rest, from) == k,
    decreases k - from,
{
    if from < k {
        lemma_name_stop_unique(rest, from + 1, k);
    }
}

/// A name part never reaches beyond the text.
pub proof fn lemma_name_part_len(rest: Seq<char>)
    ensures
        name_part_len(rest) <= rest.len(),
{
    lemma_name_stop(rest, 0);
}

/// Filtering a sequence that got one more element filters that element.
pub proof fn lemma_filter_push(s: Seq<char>, pred: spec_fn(char) -> bool, c: char)
    ensures
        s.push(c).filter(pred) == if pred(c) {
            s.filter(pred).push(c)
        } else {
            s.filter(pred)
        },
{
    reveal(Seq::filter);
    assert(s.push(c).drop_last() =~= s);
}

/// What one more content character `c` adds to the bits, to the open state,
/// to the faults and to the spans of a content.
pub proof fn lemma_content_push(t: Seq<char>, c: char)
    ensures
        bits(t.push(c)) == if is_bit_char(c) {
            bits(t).push(c)
        } else {
            bits(t)
        },
        capture_open(t.push(c)) == if c == '[' {
            true
        } else if c == ']' {
            false
        } else {
            capture_open(t)
        },
        first_fault(t.push(c)) == match first_fault(t) {
            Some(e) => Some(e),
            None => char_fault(c, capture_open(t)),
        },
        raw_spans(t.push(c)) == if c == '[' {
            raw_spans(t).push(RawSpan { lo: bits(t).len(), hi: bits(t).len() })
        } else if c == ']' && raw_spans(t).len() > 0 {
            raw_spans(t).update(
                raw_spans(t).len() - 1,
                RawSpan { lo: raw_spans(t).last().lo, hi: bits(t).len() },
            )
        } else {
            raw_spans(t)
        },
{
    lemma_filter_push(t, bit_chars(), c);
    assert(t.push(c).drop_last() =~= t);
}

/// What one more written name adds to the resolved names and to the count of
/// unnamed captures.
pub proof fn lemma_names_push(names: Seq<Seq<char>>, name: Seq<char>, start: nat)
    ensures
        unnamed_count(names.push(name)) == unnamed_count(names) + if name.len() == 0 {
            1nat
        } else {
            0nat
        },
        resolve_names(names.push(name), start) == resolve_names(names, start).push(
            if name.len() == 0 {
                anonymous_name(start + unnamed_count(names))
            } else {
                name
            },
        ),
{
    let longer = names.push(name);
    assert(longer.drop_last() =~= names);
    assert(longer.take(names.len() as int) =~= names);
    assert forall|k: int| 0 <= k < names.len() implies #[trigger] longer.take(k) == names.take(
        k,
    ) by {
        assert(longer.take(k) =~= names.take(k));
    }
    assert(resolve_names(longer, start) =~= resolve_names(names, start).push(
        if name.len() == 0 {
            anonymous_name(start + unnamed_count(names))
        } else {
            name
        },
    ));
}

/// A fault of a content stays the first fault of every longer content.
pub proof fn lemma_first_fault_prefix(a: Seq<char>, b: Seq<char>)
    ensures
        first_fault(a) is Some ==> first_fault(a + b) == first_fault(a),
        first_fault(a + b) is None ==> first_fault(a) is None,
    decreases b.len(),
{
    if b.len() == 0 {
        assert(a + b =~= a);
    } else {
        lemma_first_fault_prefix(a, b.drop_last());
        assert((a + b).drop_last() =~= a + b.drop_last());
    }
}

/// The unnamed captures of two lists of names add up.
pub proof fn lemma_unnamed_count_add(a: Seq<Seq<char>>, b: Seq<Seq<char>>)
    ensures
        unnamed_count(a + b) == unnamed_count(a) + unnamed_count(b),
    decreases b.len(),
{
    if b.len() == 0 {
        assert(a + b =~= a);
    } else {
        lemma_unnamed_count_add(a, b.drop_last());
        assert((a + b).drop_last() =~= a + b.drop_last());
    }
}

/// No list of names holds more unnamed captures than names.
pub proof fn lemma_unnamed_count_le(names: Seq<Seq<char>>)
    ensures
        unnamed_count(names) <= names.len(),
    decreases names.len(),
{
    if names.len() > 0 {
        lemma_unnamed_count_le(names.drop_last());
    }
}

/// A text holds no more captures than characters.
pub proof fn lemma_written_names_len(s: Seq<char>, pos: int)
    requires
        0 <= pos <= s.len(),
    ensures
        written_names_from(s, pos).len() <= s.len() - pos,
    decreases s.len() - pos,
{
    if pos < s.len() {
        if s[pos] == '[' {
            lemma_name_part_len(s.skip(pos + 1));
            lemma_written_names_len(s, pos + 1 + name_part_len(s.skip(pos + 1)));
        } else {
            lemma_written_names_len(s, pos + 1);
        }
    }
}

/// A pattern holds no more unnamed captures than characters.
pub proof fn lemma_unnamed_bound(s: Seq<char>)
    ensures
        unnamed_count(written_names(s)) <= s.len(),
{
    lemma_written_names_len(s, 0);
    lemma_unnamed_count_le(written_names(s));
}

/// A pattern in which no `:` stands has no name part: its content is the
/// pattern itself, and so its canonical string is made of all of its bit
/// characters.
pub proof fn lemma_content_without_names(s: Seq<char>)
    requires
        forall|i: int| 0 <= i < s.len() ==> s[i] != ':',
    ensures
        content(s) == s,
        canonical(s) == s.filter(bit_chars()),
{
    lemma_content_without_names_from(s, 0);
    assert(s.skip(0) =~= s);
}

/// Without a `:` the content from a position on is the rest of the text.
proof fn lemma_content_without_names_from(s: Seq<char>, pos: int)
    requires
        0 <= pos <= s.len(),
        forall|i: int| 0 <= i < s.len() ==> s[i] != ':',
    ensures
        content_from(s, pos) == s.skip(pos),
    decreases s.len() - pos,
{
    if pos < s.len() {
        let rest = s.skip(pos + 1);
        lemma_name_stop(rest, 0);
        if name_stop(rest) < rest.len() {
            assert(rest[name_stop(rest)] == s[pos + 1 + name_stop(rest)]);
        }
        lemma_content_without_names_from(s, pos + 1);
        assert(seq![s[pos]] + s.skip(pos + 1) =~= s.skip(pos));
    } else {
        assert(s.skip(pos) =~= Seq::<char>::empty());
    }
}

/// A longer beginning of a content holds at least as many bits.
pub proof fn lemma_bits_take(t: Seq<char>, a: int, b: int)
    requires
        0 <= a <= b <= t.len(),
    ensures
        bits(t.take(a)).len() <= bits(t.take(b)).len(),
{
    Seq::filter_distributes_over_add(t.take(a), t.subrange(a, b), bit_chars());
    assert(t.take(b) =~= t.take(a) + t.subrange(a, b));
}

/// Every span lies within the bits of the content and does not run backwards.
pub proof fn lemma_raw_spans_bounds(t: Seq<char>)
    ensures
        forall|k: int|
            0 <= k < raw_spans(t).len() ==> (#[trigger] raw_spans(t)[k]).lo <= raw_spans(t)[k].hi
                <= bits(t).len(),
    decreases t.len(),
{
    if t.len() > 0 {
        let shorter = t.drop_last();
        lemma_raw_spans_bounds(shorter);
        assert(t =~= shorter.push(t.last()));
        lemma_content_push(shorter, t.last());
    }
}

/// The bit range of every capture lies within the canonical string and does
/// not run backwards.
pub proof fn lemma_captures_in_range(s: Seq<char>, start: nat)
    ensures
        forall|k: int|
            0 <= k < captures(s, start).len() ==> 0 <= (#[trigger] captures(s, start)[k]).start
                <= captures(s, start)[k].end <= canonical(s).len(),
{
    lemma_raw_spans_bounds(content(s));
}

/// No bit stands between the positions `i` and `j` of the content `t`.
pub open spec fn no_bit_between(t: Seq<char>, i: int, j: int) -> bool {
    forall|m: int| i < m < j ==> !is_bit_char(#[trigger] t[m])
}

/// Some capture of the content `t` holds no bit: a closing bracket follows an
/// opening one with no bit between the two.
pub open spec fn has_empty_capture(t: Seq<char>) -> bool {
    exists|i: int, j: int|
        0 <= i < j < t.len() && t[i] == '[' && t[j] == ']' && #[trigger] no_bit_between(t, i, j)
}

/// Index of the last opening bracket of `t`, or -1 where it has none.
pub open spec fn last_open(t: Seq<char>) -> int
    decreases t.len(),
{
    if t.len() == 0 {
        -1
    } else if t.last() == '[' {
        t.len() - 1
    } else {
        last_open(t.drop_last())
    }
}

/// In a content without fault and without empty capture, every closed
/// capture spans at least one bit, and an open one starts at the bits read
/// before its bracket.
proof fn lemma_spans_strict(t: Seq<char>)
    requires
        first_fault(t) is None,
        !has_empty_capture(t),
    ensures
        capture_open(t) ==> raw_spans(t).len() > 0,
        forall|k: int|
            0 <= k < raw_spans(t).len() && (k < raw_spans(t).len() - 1 || !capture_open(t)) ==> (
            #[trigger] raw_spans(t)[k]).lo < raw_spans(t)[k].hi,
        capture_open(t) ==> {
            &&& 0 <= last_open(t) < t.len()
            &&& t[last_open(t)] == '['
            &&& raw_spans(t).last().lo == bits(t.take(last_open(t))).len()
            &&& forall|m: int| last_open(t) < m < t.len() ==> t[m] != ']'
        },
    decreases t.len(),
{
    if t.len() > 0 {
        let u = t.drop_last();
        let c = t.last();
        assert(t =~= u.push(c));
        lemma_content_push(u, c);
        if has_empty_capture(u) {
            let (i, j) = choose|i: int, j: int|
                0 <= i < j < u.len() && u[i] == '[' && u[j] == ']' && #[trigger] no_bit_between(
                    u,
                    i,
                    j,
                );
            assert(no_bit_between(t, i, j)) by {
                assert forall|m: int| i < m < j implies !is_bit_char(#[trigger] t[m]) by {
                    assert(t[m] == u[m]);
                }
            }
            assert(t[i] == u[i] && t[j] == u[j]);
            assert(false);
        }
        lemma_spans_strict(u);
        if c == '[' {
            assert(t.take(t.len() - 1) =~= u);
        } else if c == ']' {
            let p = last_open(u);
            let j = t.len() - 1;
            assert(t[p] == u[p]);
            assert(!no_bit_between(t, p, j));
            let m = choose|m: int| p < m < j && is_bit_char(#[trigger] t[m]);
            assert(u.take(m + 1) =~= u.take(m).push(u[m]));
            lemma_filter_push(u.take(m), bit_chars(), u[m]);
            lemma_bits_take(u, p, m);
            lemma_bits_take(u, m + 1, u.len() as int);
            assert(u.take(u.len() as int) =~= u);
        } else {
            if capture_open(u) {
                let p = last_open(u);
                assert(t.take(p) =~= u.take(p));
                assert forall|m: int| p < m < t.len() implies t[m] != ']' by {
                    if m < u.len() {
                        assert(t[m] == u[m]);
                    }
                }
            }
        }
    }
}

/// In a pattern of the grammar in which every capture holds a bit, the bit
/// range of every capture is not empty and lies within the canonical string.
pub proof fn lemma_captures_not_empty(s: Seq<char>, start: nat)
    requires
        well_formed(s),
        !has_empty_capture(content(s)),
    ensures
        forall|k: int|
            0 <= k < captures(s, start).len() ==> 0 <= (#[trigger] captures(s, start)[k]).start
                < captures(s, start)[k].end <= canonical(s).len(),
{
    lemma_raw_spans_bounds(content(s));
    lemma_spans_strict(content(s));
}

} // verus!
