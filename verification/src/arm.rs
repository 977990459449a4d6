//! Compiling the branches of a matching construct: which positions of a
//! branch's pattern are bit patterns, what replaces them, and the bindings
//! that extract the captures from the matched value.

use crate::compile::{alternatives, process_pattern_string, rejection, values_view};
use crate::grammar::{
    canonical, captures, lemma_unnamed_bound, CaptureView, PatternError,
};
use crate::mask::{gen_mask, mask_of, variable_size, width_for, IntWidth};
use crate::parse::CapturedVariables;
use vstd::prelude::*;

verus! {

/// A place in the pattern of a branch, and with it the part of the matched
/// expression that stands against it.
#[derive(Clone, Copy, Debug, PartialEq, Eq, Structural)]
pub enum Position {
    /// The pattern as a whole, against the whole of the matched expression.
    Whole,
    /// The element of the given index of a tuple pattern, against the element
    /// of the same index of the matched tuple.
    Element(usize),
}

/// The shape of the matched expression.
#[derive(Clone, Copy, Debug, PartialEq, Eq, Structural)]
pub enum Subject {
    /// Any expression that is not a tuple.
    Single,
    /// A tuple of the given number of elements.
    Tuple(usize),
}

/// The shape of the pattern of one branch.
#[derive(Debug)]
pub enum ArmPattern {
    /// One pattern string.
    Literal(String),
    /// A tuple; each element is a pattern string or something else.
    Tuple(Vec<Option<String>>),
    /// Any other pattern.
    Other,
}

/// An `ArmPattern` as the contracts see it.
pub enum ArmPatternView {
    Literal(Seq<char>),
    Tuple(Seq<Option<Seq<char>>>),
    Other,
}

impl View for ArmPattern {
    type V = ArmPatternView;

    open spec fn view(&self) -> ArmPatternView {
        match self {
            ArmPattern::Literal(text) => ArmPatternView::Literal(text@),
            ArmPattern::Tuple(elems) => ArmPatternView::Tuple(
                Seq::new(
                    elems@.len(),
                    |i: int|
                        match elems@[i] {
                            Some(text) => Some(text@),
                            None => None,
                        },
                ),
            ),
            ArmPattern::Other => ArmPatternView::Other,
        }
    }
}

/// The declaration that extracts one capture: the value of `source` shifted
/// right by `shift` and masked with `mask`, as an integer of `width`.
#[derive(Debug)]
pub struct ExtractionBinding {
    pub name: String,
    pub source: Position,
    pub shift: usize,
    pub mask: u128,
    pub width: IntWidth,
}

/// An `ExtractionBinding` as the contracts see it.
pub struct BindingView {
    pub name: Seq<char>,
    pub source: Position,
    pub shift: int,
    pub mask: nat,
    pub width: IntWidth,
}

impl View for ExtractionBinding {
    type V = BindingView;

    open spec fn view(&self) -> BindingView {
        BindingView {
            name: self.name@,
            source: self.source,
            shift: self.shift as int,
            mask: self.mask as nat,
            width: self.width,
        }
    }
}

/// What one position of a branch's pattern compiles to: its capture table
/// and the values that replace the pattern string.
pub struct CompiledPosition {
    pub position: Position,
    pub captures: CapturedVariables,
    pub alternatives: Vec<u64>,
}

/// A `CompiledPosition` as the contracts see it.
pub struct PositionView {
    pub position: Position,
    pub captures: Seq<CaptureView>,
    pub alternatives: Seq<nat>,
}

impl View for CompiledPosition {
    type V = PositionView;

    open spec fn view(&self) -> PositionView {
        PositionView {
            position: self.position,
            captures: self.captures@,
            alternatives: values_view(self.alternatives@),
        }
    }
}

/// What one branch compiles to.
pub struct CompiledArm {
    /// The compiled positions, in the order of the pattern.
    pub positions: Vec<CompiledPosition>,
    /// The bindings of all captures, in the order in which they were found.
    pub bindings: Vec<ExtractionBinding>,
}

/// A `CompiledArm` as the contracts see it.
pub struct ArmView {
    pub positions: Seq<PositionView>,
    pub bindings: Seq<BindingView>,
}

/// The views of a list of compiled positions.
pub open spec fn positions_view(positions: Seq<CompiledPosition>) -> Seq<PositionView> {
    Seq::new(positions.len(), |i: int| positions[i]@)
}

/// The views of a list of bindings.
pub open spec fn bindings_view(bindings: Seq<ExtractionBinding>) -> Seq<BindingView> {
    Seq::new(bindings.len(), |i: int| bindings[i]@)
}

impl View for CompiledArm {
    type V = ArmView;

    open spec fn view(&self) -> ArmView {
        ArmView {
            positions: positions_view(self.positions@),
            bindings: bindings_view(self.bindings@),
        }
    }
}

/// The binding that extracts `capture` from `source`.
pub open spec fn binding_of(source: Position, capture: CaptureView) -> BindingView {
    BindingView {
        name: capture.name,
        source,
        shift: capture.start,
        mask: mask_of((capture.end - capture.start) as nat),
        width: width_for((capture.end - capture.start) as nat),
    }
}

/// The bindings of the captures of one position.
pub open spec fn position_bindings(compiled: PositionView) -> Seq<BindingView> {
    Seq::new(
        compiled.captures.len(),
        |k: int| binding_of(compiled.position, compiled.captures[k]),
    )
}

/// The bindings of all captures of the positions, in order.
pub open spec fn bindings_of(positions: Seq<PositionView>) -> Seq<BindingView>
    decreases positions.len(),
{
    if positions.len() == 0 {
        Seq::empty()
    } else {
        bindings_of(positions.drop_last()) + position_bindings(positions.last())
    }
}

/// Whether a capture of the positions is wider than 128 bits.
pub open spec fn too_wide(positions: Seq<PositionView>) -> bool {
    exists|i: int, k: int|
        0 <= i < positions.len() && 0 <= k < positions[i].captures.len() && (
        #[trigger] positions[i].captures[k]).end - positions[i].captures[k].start > 128
}

/// Number of captures of the positions.
pub open spec fn capture_total(positions: Seq<PositionView>) -> nat
    decreases positions.len(),
{
    if positions.len() == 0 {
        0
    } else {
        capture_total(positions.drop_last()) + positions.last().captures.len()
    }
}

/// The pattern strings among the first `n` elements of a tuple pattern, each
/// with its position.
pub open spec fn tuple_items(elems: Seq<Option<Seq<char>>>, n: nat) -> Seq<(Position, Seq<char>)>
    decreases n,
{
    if n == 0 {
        Seq::empty()
    } else {
        let before = tuple_items(elems, (n - 1) as nat);
        match elems[n - 1] {
            Some(text) => before.push((Position::Element((n - 1) as usize), text)),
            None => before,
        }
    }
}

/// The pattern strings of a branch that are compiled, each with its position.
/// A single pattern string is compiled whatever is matched. Of a tuple
/// pattern the strings are compiled that have an element of a matched tuple
/// against them; against another expression none is.
pub open spec fn arm_items(pattern: ArmPatternView, subject: Subject) -> Seq<
    (Position, Seq<char>),
> {
    match pattern {
        ArmPatternView::Literal(text) => seq![(Position::Whole, text)],
        ArmPatternView::Tuple(elems) => match subject {
            Subject::Tuple(arity) => tuple_items(
                elems,
                if elems.len() <= arity {
                    elems.len()
                } else {
                    arity as nat
                },
            ),
            Subject::Single => Seq::empty(),
        },
        ArmPatternView::Other => Seq::empty(),
    }
}

/// The items compiled one after the other. The unnamed captures of an item
/// are numbered from the number of captures of the items before it. The
/// first item that cannot be compiled decides the error.
pub open spec fn compile_items(items: Seq<(Position, Seq<char>)>) -> Result<
    Seq<PositionView>,
    PatternError,
>
    decreases items.len(),
{
    if items.len() == 0 {
        Ok(Seq::empty())
    } else {
        match compile_items(items.drop_last()) {
            Err(e) => Err(e),
            Ok(done) => match rejection(items.last().1) {
                Some(e) => Err(e),
                None => Ok(
                    done.push(
                        PositionView {
                            position: items.last().0,
                            captures: captures(items.last().1, capture_total(done)),
                            alternatives: alternatives(canonical(items.last().1)),
                        },
                    ),
                ),
            },
        }
    }
}

/// What a branch compiles to, or why it does not.
pub open spec fn compiled_arm(pattern: ArmPatternView, subject: Subject) -> Result<
    ArmView,
    PatternError,
> {
    match compile_items(arm_items(pattern, subject)) {
        Err(e) => Err(e),
        Ok(done) => if too_wide(done) {
            Err(PatternError::TooWide)
        } else {
            Ok(ArmView { positions: done, bindings: bindings_of(done) })
        },
    }
}

/// Number of characters of the pattern strings among `elems`.
pub open spec fn texts_len(elems: Seq<Option<Seq<char>>>) -> nat
    decreases elems.len(),
{
    if elems.len() == 0 {
        0
    } else {
        texts_len(elems.drop_last()) + match elems.last() {
            Some(text) => text.len(),
            None => 0,
        }
    }
}

/// Number of characters of the pattern strings of a branch.
pub open spec fn arm_text_len(pattern: ArmPatternView) -> nat {
    match pattern {
        ArmPatternView::Literal(text) => text.len(),
        ArmPatternView::Tuple(elems) => texts_len(elems),
        ArmPatternView::Other => 0,
    }
}

/// The first elements of a tuple hold no more characters than all of them.
pub proof fn lemma_texts_len_take(elems: Seq<Option<Seq<char>>>, n: int)
    requires
        0 <= n <= elems.len(),
    ensures
        texts_len(elems.take(n)) <= texts_len(elems),
    decreases elems.len() - n,
{
    if n < elems.len() {
        lemma_texts_len_take(elems, n + 1);
        assert(elems.take(n + 1).drop_last() =~= elems.take(n));
    } else {
        assert(elems.take(n) =~= elems);
    }
}

/// The bindings that extract the captures of the compiled positions, in
/// order: for each capture its name, the start of its range as the shift,
/// the mask of its width, and the narrowest integer that holds it. A capture
/// wider than 128 bits has no binding: the result is then `TooWide`.
pub fn write_variables(cap_vars: &Vec<CompiledPosition>) -> (bindings: Result<
    Vec<ExtractionBinding>,
    PatternError,
>)
    requires
        forall|i: int|
            0 <= i < cap_vars@.len() ==> (#[trigger] cap_vars@[i]).captures.ranges_ordered(),
    ensures
        match bindings {
            Ok(list) => !too_wide(positions_view(cap_vars@)) && bindings_view(list@) == bindings_of(
                positions_view(cap_vars@),
            ),
            Err(e) => e == PatternError::TooWide && too_wide(positions_view(cap_vars@)),
        },
{
    let ghost views = positions_view(cap_vars@);
    let mut list: Vec<ExtractionBinding> = Vec::new();
    let mut i: usize = 0;
    proof {
        assert(views.take(0) =~= Seq::<PositionView>::empty());
    }
    while i < cap_vars.len()
        invariant
            0 <= i <= cap_vars@.len(),
            views == positions_view(cap_vars@),
            forall|j: int|
                0 <= j < cap_vars@.len() ==> (#[trigger] cap_vars@[j]).captures.ranges_ordered(),
            bindings_view(list@) == bindings_of(views.take(i as int)),
            forall|j: int, k: int|
                0 <= j < i && 0 <= k < views[j].captures.len() ==> (
                #[trigger] views[j].captures[k]).end - views[j].captures[k].start <= 128,
        decreases cap_vars@.len() - i,
    {
        let compiled = &cap_vars[i];
        let ghost done = bindings_view(list@);
        let mut k: usize = 0;
        while k < compiled.captures.vars.len()
            invariant
                0 <= i < cap_vars@.len(),
                *compiled == cap_vars@[i as int],
                views == positions_view(cap_vars@),
                compiled.captures.ranges_ordered(),
                0 <= k <= compiled.captures.vars@.len(),
                bindings_view(list@) == done + position_bindings(views[i as int]).take(k as int),
                forall|m: int|
                    0 <= m < k ==> (#[trigger] views[i as int].captures[m]).end - views[i as int].captures[m].start
                        <= 128,
            decreases compiled.captures.vars@.len() - k,
        {
            let var = &compiled.captures.vars[k];
            let ghost capture = views[i as int].captures[k as int];
            proof {
                assert(capture.start == var.1.start && capture.end == var.1.end);
                assert(capture.name == var.0@);
            }
            let len = var.1.end - var.1.start;
            if len > 128 {
                return Err(PatternError::TooWide);
            }
            let binding = ExtractionBinding {
                name: var.0.clone(),
                source: compiled.position,
                shift: var.1.start,
                mask: gen_mask(&var.1),
                width: variable_size(len),
            };
            proof {
                let all = position_bindings(views[i as int]);
                assert(binding@ == all[k as int]);
                assert(all.take(k + 1) =~= all.take(k as int).push(all[k as int]));
                assert(bindings_view(list@.push(binding)) =~= bindings_view(list@).push(binding@));
                assert(bindings_view(list@.push(binding)) =~= done + all.take(k + 1));
            }
            list.push(binding);
            k = k + 1;
        }
        proof {
            assert(position_bindings(views[i as int]).take(k as int) =~= position_bindings(
                views[i as int],
            ));
            assert(views.take(i + 1).drop_last() =~= views.take(i as int));
        }
        i = i + 1;
    }
    proof {
        assert(views.take(i as int) =~= views);
    }
    Ok(list)
}

/// Once an item cannot be compiled, the items after it change nothing.
pub proof fn lemma_tuple_error_stays(elems: Seq<Option<Seq<char>>>, i: nat, n: nat)
    requires
        i <= n,
        compile_items(tuple_items(elems, i)) is Err,
    ensures
        compile_items(tuple_items(elems, n)) == compile_items(tuple_items(elems, i)),
    decreases n - i,
{
    if i < n {
        lemma_tuple_error_stays(elems, i, (n - 1) as nat);
        let before = tuple_items(elems, (n - 1) as nat);
        match elems[n - 1] {
            Some(text) => {
                let item = (Position::Element((n - 1) as usize), text);
                assert(before.push(item).drop_last() =~= before);
            },
            None => {},
        }
    }
}

/// Compiles the pattern string `text` that stands at `position` and adds the
/// result to `positions`. `count` is the number of captures found so far.
fn compile_position(
    positions: &mut Vec<CompiledPosition>,
    count: &mut usize,
    position: Position,
    text: &str,
) -> (outcome: Result<(), PatternError>)
    requires
        *old(count) == capture_total(positions_view(old(positions)@)),
        *old(count) + text@.len() <= usize::MAX,
        forall|i: int|
            0 <= i < old(positions)@.len() ==> (#[trigger] old(positions)@[i]).captures.ranges_valid(),
    ensures
        forall|i: int|
            0 <= i < final(positions)@.len()
                ==> (#[trigger] final(positions)@[i]).captures.ranges_valid(),
        *final(count) == capture_total(positions_view(final(positions)@)),
        *final(count) <= *old(count) + text@.len(),
        match outcome {
            Ok(_) => {
                &&& rejection(text@) is None
                &&& positions_view(final(positions)@) == positions_view(old(positions)@).push(
                    PositionView {
                        position,
                        captures: captures(text@, *old(count) as nat),
                        alternatives: alternatives(canonical(text@)),
                    },
                )
            },
            Err(e) => rejection(text@) == Some(e) && final(positions)@ == old(positions)@,
        },
{
    proof {
        lemma_unnamed_bound(text@);
    }
    match process_pattern_string(text, *count) {
        Err(e) => Err(e),
        Ok(compiled) => {
            let found = compiled.0.vars.len();
            let ghost before = positions_view(positions@);
            let entry = CompiledPosition {
                position,
                captures: compiled.0,
                alternatives: compiled.1,
            };
            proof {
                assert(positions_view(positions@.push(entry)) =~= before.push(entry@));
                assert(before.push(entry@).drop_last() =~= before);
                assert(entry@.captures.len() == found);
            }
            positions.push(entry);
            *count = *count + found;
            Ok(())
        },
    }
}

/// Compiles one branch: every pattern string of its pattern that has a part
/// of the matched expression against it, and the bindings of its captures.
/// The unnamed captures of the branch are numbered from zero, across its
/// pattern strings.
pub fn compile_arm(pattern: &ArmPattern, subject: Subject) -> (compiled: Result<
    CompiledArm,
    PatternError,
>)
    requires
        arm_text_len(pattern@) <= usize::MAX,
    ensures
        match compiled {
            Ok(arm) => compiled_arm(pattern@, subject) == Ok::<ArmView, PatternError>(arm@),
            Err(e) => compiled_arm(pattern@, subject) == Err::<ArmView, PatternError>(e),
        },
{
    let mut positions: Vec<CompiledPosition> = Vec::new();
    let mut count: usize = 0;
    let ghost none = Seq::<(Position, Seq<char>)>::empty();
    proof {
        assert(positions_view(positions@) =~= Seq::<PositionView>::empty());
        assert(compile_items(none) == Ok::<Seq<PositionView>, PatternError>(
            positions_view(positions@),
        ));
    }
    match pattern {
        ArmPattern::Literal(text) => {
            let ghost item = (Position::Whole, text@);
            proof {
                assert(seq![item].drop_last() =~= none);
                assert(seq![item].last() == item);
                assert(arm_items(pattern@, subject) == seq![item]);
            }
            match compile_position(&mut positions, &mut count, Position::Whole, text.as_str()) {
                Err(e) => {
                    return Err(e);
                },
                Ok(_) => {},
            }
        },
        ArmPattern::Tuple(elems) => {
            match subject {
                Subject::Tuple(arity) => {
                    let ghost views = pattern@->Tuple_0;
                    let n = if elems.len() <= arity {
                        elems.len()
                    } else {
                        arity
                    };
                    let mut i: usize = 0;
                    proof {
                        assert(views.take(0) =~= Seq::<Option<Seq<char>>>::empty());
                    }
                    while i < n
                        invariant
                            0 <= i <= n <= elems@.len(),
                            pattern@ == ArmPatternView::Tuple(views),
                            views.len() == elems@.len(),
                            forall|j: int|
                                0 <= j < elems@.len() ==> #[trigger] views[j] == match elems@[j] {
                                    Some(text) => Some(text@),
                                    None => None,
                                },
                            texts_len(views) <= usize::MAX,
                            count <= texts_len(views.take(i as int)),
                            count == capture_total(positions_view(positions@)),
                            compile_items(tuple_items(views, i as nat)) == Ok::<
                                Seq<PositionView>,
                                PatternError,
                            >(positions_view(positions@)),
                            arm_items(pattern@, subject) == tuple_items(views, n as nat),
                            forall|j: int|
                                0 <= j < positions@.len() ==> (
                                #[trigger] positions@[j]).captures.ranges_valid(),
                        decreases n - i,
                    {
                        let ghost before = tuple_items(views, i as nat);
                        proof {
                            lemma_texts_len_take(views, i + 1);
                            assert(views.take(i + 1).drop_last() =~= views.take(i as int));
                        }
                        match &elems[i] {
                            Some(text) => {
                                let ghost item = (Position::Element(i), text@);
                                proof {
                                    assert(views[i as int] == Some(text@));
                                    assert(before.push(item).drop_last() =~= before);
                                }
                                match compile_position(
                                    &mut positions,
                                    &mut count,
                                    Position::Element(i),
                                    text.as_str(),
                                ) {
                                    Err(e) => {
                                        proof {
                                            lemma_tuple_error_stays(
                                                views,
                                                (i + 1) as nat,
                                                n as nat,
                                            );
                                        }
                                        return Err(e);
                                    },
                                    Ok(_) => {},
                                }
                            },
                            None => {
                                proof {
                                    assert(views[i as int] is None);
                                }
                            },
                        }
                        i = i + 1;
                    }
                },
                Subject::Single => {},
            }
        },
        ArmPattern::Other => {},
    }
    proof {
        assert(compile_items(arm_items(pattern@, subject)) == Ok::<
            Seq<PositionView>,
            PatternError,
        >(positions_view(positions@)));
    }
    match write_variables(&positions) {
        Err(e) => Err(e),
        Ok(bindings) => Ok(CompiledArm { positions, bindings }),
    }
}

/// Compiles the branches of a matching construct, each on its own, and stops
/// at the first that cannot be compiled.
pub fn rewrite_match(arms: &Vec<ArmPattern>, subject: Subject) -> (compiled: Result<
    Vec<CompiledArm>,
    PatternError,
>)
    requires
        forall|i: int| 0 <= i < arms@.len() ==> arm_text_len(#[trigger] arms@[i]@) <= usize::MAX,
    ensures
        match compiled {
            Ok(list) => {
                &&& list@.len() == arms@.len()
                &&& forall|i: int|
                    0 <= i < arms@.len() ==> compiled_arm(#[trigger] arms@[i]@, subject) == Ok::<
                        ArmView,
                        PatternError,
                    >(list@[i]@)
            },
            Err(e) => exists|i: int|
                {
                    &&& 0 <= i < arms@.len()
                    &&& compiled_arm(#[trigger] arms@[i]@, subject) == Err::<ArmView, PatternError>(e)
                    &&& forall|j: int|
                        0 <= j < i ==> compiled_arm(#[trigger] arms@[j]@, subject) is Ok
                },
        },
{
    let mut list: Vec<CompiledArm> = Vec::new();
    let mut i: usize = 0;
    while i < arms.len()
        invariant
            0 <= i <= arms@.len(),
            list@.len() == i,
            forall|j: int|
                0 <= j < arms@.len() ==> arm_text_len(#[trigger] arms@[j]@) <= usize::MAX,
            forall|j: int|
                0 <= j < i ==> compiled_arm(#[trigger] arms@[j]@, subject) == Ok::<
                    ArmView,
                    PatternError,
                >(list@[j]@),
        decreases arms@.len() - i,
    {
        match compile_arm(&arms[i], subject) {
            Err(e) => {
                return Err(e);
            },
            Ok(arm) => {
                list.push(arm);
            },
        }
        i = i + 1;
    }
    Ok(list)
}

} // verus!
