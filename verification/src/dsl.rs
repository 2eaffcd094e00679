//! From pattern text to events: the short forms are written out, the tokens
//! are parsed, and the tree is laid out over the length of the pattern.
use vstd::prelude::*;
use crate::dur::{
    lemma_ratio_add_assoc, lemma_ratio_add_left, lemma_ratio_add_right, lemma_same_value_trans,
    ratio_add, same_value, Dur, Ratio,
};
use crate::lex::{lex, lex_spec, Token};
use crate::parse::{
    copy_element, element_view, elements_view, lemma_view_index, lemma_view_prefix,
    lemma_view_push, parse_spec, Element, ElementView, ParseError, Parser,
};
use crate::pattern::{
    dens_positive, lemma_total_den_positive, total_dur, ActionView, Event, EventType, EventView,
    Note, Pattern, PatternView,
};

verus! {

/// `n` times the token `t`.
pub open spec fn repeated(t: Token, n: nat) -> Seq<Token> {
    Seq::new(n, |i: int| t)
}

/// What a token stands for once the short forms are written out. A tied note
/// is the note and a tie for each count after the first; a repeated note or
/// rest is that many of them; a grouped repeat is the same inside `[ ]`. A
/// tied rest is written out as a repeated one.
pub open spec fn expand_token(t: Token) -> Seq<Token> {
    match t {
        Token::NoteTie((note, ties)) => seq![Token::NoteExpr(note)] + repeated(
            Token::Tie,
            if ties == 0 {
                0
            } else {
                (ties - 1) as nat
            },
        ),
        Token::RestTie(n) => repeated(Token::Rest, n as nat),
        Token::RestRepeat(n) => repeated(Token::Rest, n as nat),
        Token::NoteRepeat((note, n)) => repeated(Token::NoteExpr(note), n as nat),
        Token::NoteRepeatGrouped((note, n)) => seq![Token::GroupStart] + repeated(
            Token::NoteExpr(note),
            n as nat,
        ) + seq![Token::GroupEnd],
        other => seq![other],
    }
}

/// The tokens with every short form written out.
pub open spec fn desugar_spec(tokens: Seq<Token>) -> Seq<Token>
    decreases tokens.len(),
{
    if tokens.len() == 0 {
        Seq::empty()
    } else {
        desugar_spec(tokens.drop_last()) + expand_token(tokens.last())
    }
}

/// A token that is no short form.
pub open spec fn is_plain(t: Token) -> bool {
    !(t is NoteTie || t is RestTie || t is RestRepeat || t is NoteRepeat || t is NoteRepeatGrouped)
}

/// Writing out the short forms changes nothing where there are none.
pub proof fn lemma_desugar_plain(tokens: Seq<Token>)
    requires
        forall|i: int| 0 <= i < tokens.len() ==> is_plain(#[trigger] tokens[i]),
    ensures
        desugar_spec(tokens) == tokens,
    decreases tokens.len(),
{
    if tokens.len() > 0 {
        lemma_desugar_plain(tokens.drop_last());
        assert(is_plain(tokens.last()));
        assert(tokens.drop_last() + seq![tokens.last()] =~= tokens);
    }
}

proof fn lemma_expand_plain(t: Token)
    ensures
        forall|j: int| 0 <= j < expand_token(t).len() ==> is_plain(#[trigger] expand_token(t)[j]),
{
}

/// Once the short forms are written out, none is left.
pub proof fn lemma_desugar_leaves_plain(tokens: Seq<Token>)
    ensures
        forall|i: int|
            0 <= i < desugar_spec(tokens).len() ==> is_plain(#[trigger] desugar_spec(tokens)[i]),
    decreases tokens.len(),
{
    if tokens.len() > 0 {
        lemma_desugar_leaves_plain(tokens.drop_last());
        lemma_expand_plain(tokens.last());
        let head = desugar_spec(tokens.drop_last());
        let tail = expand_token(tokens.last());
        assert forall|i: int| 0 <= i < desugar_spec(tokens).len() implies is_plain(
            #[trigger] desugar_spec(tokens)[i],
        ) by {
            if i < head.len() {
                assert(desugar_spec(tokens)[i] == head[i]);
            } else {
                assert(desugar_spec(tokens)[i] == tail[i - head.len()]);
            }
        }
    }
}

/// Writing out the short forms a second time changes nothing.
pub proof fn lemma_desugar_twice(tokens: Seq<Token>)
    ensures
        desugar_spec(desugar_spec(tokens)) == desugar_spec(tokens),
{
    lemma_desugar_leaves_plain(tokens);
    lemma_desugar_plain(desugar_spec(tokens));
}

/// Puts `n` copies of `t` behind `res`.
fn push_repeated(res: &mut Vec<Token>, t: Token, n: u32)
    ensures
        final(res)@ == old(res)@ + repeated(t, n as nat),
{
    let mut i: u32 = 0;
    assert(res@ =~= old(res)@ + repeated(t, 0));
    while i < n
        invariant
            i <= n,
            res@ == old(res)@ + repeated(t, i as nat),
        decreases n - i,
    {
        res.push(t);
        assert(res@ =~= old(res)@ + repeated(t, (i + 1) as nat));
        i += 1;
    }
}

/// Writes out the short forms for ties and repeats. Tokens that hold none come
/// back as they are.
pub fn desugar(tokens: Vec<Token>) -> (res: Vec<Token>)
    ensures
        res@ == desugar_spec(tokens@),
        (forall|i: int| 0 <= i < tokens@.len() ==> is_plain(#[trigger] tokens@[i])) ==> res@
            == tokens@,
        forall|i: int| 0 <= i < res@.len() ==> is_plain(#[trigger] res@[i]),
{
    let mut res: Vec<Token> = Vec::new();
    let mut i: usize = 0;
    assert(tokens@.subrange(0, 0) =~= Seq::empty());
    while i < tokens.len()
        invariant
            i <= tokens.len(),
            res@ == desugar_spec(tokens@.subrange(0, i as int)),
        decreases tokens.len() - i,
    {
        let ghost before = res@;
        proof {
            let next = tokens@.subrange(0, i + 1);
            assert(next.drop_last() =~= tokens@.subrange(0, i as int));
            assert(next.last() == tokens@[i as int]);
        }
        match tokens[i] {
            Token::NoteTie(pair) => {
                res.push(Token::NoteExpr(pair.0));
                push_repeated(&mut res, Token::Tie, if pair.1 == 0 { 0 } else { pair.1 - 1 });
                assert(res@ =~= before + expand_token(tokens@[i as int]));
            },
            Token::RestTie(ties) => {
                push_repeated(&mut res, Token::Rest, ties);
            },
            Token::RestRepeat(repeats) => {
                push_repeated(&mut res, Token::Rest, repeats);
            },
            Token::NoteRepeat(pair) => {
                push_repeated(&mut res, Token::NoteExpr(pair.0), pair.1);
            },
            Token::NoteRepeatGrouped(pair) => {
                res.push(Token::GroupStart);
                push_repeated(&mut res, Token::NoteExpr(pair.0), pair.1);
                res.push(Token::GroupEnd);
                assert(res@ =~= before + expand_token(tokens@[i as int]));
            },
            any => {
                res.push(any);
                assert(res@ =~= before + expand_token(tokens@[i as int]));
            },
        }
        i += 1;
    }
    assert(tokens@.subrange(0, i as int) =~= tokens@);
    proof {
        lemma_desugar_leaves_plain(tokens@);
        if forall|i: int| 0 <= i < tokens@.len() ==> is_plain(#[trigger] tokens@[i]) {
            lemma_desugar_plain(tokens@);
        }
    }
    res
}

/// The anchor in front of each element of `es`.
pub open spec fn interleaved(anchor: ElementView, es: Seq<ElementView>) -> Seq<ElementView>
    decreases es.len(),
{
    if es.len() == 0 {
        Seq::empty()
    } else {
        interleaved(anchor, es.drop_last()).push(anchor).push(es.last())
    }
}

/// An alternation written out: the anchor in front of each branch. A branch
/// that is itself an alternation is written out first, with its own anchor,
/// and the outer anchor then goes in front of each element of that.
pub open spec fn expand_alt_spec(anchor: ElementView, branches: Seq<ElementView>) -> Seq<ElementView>
    decreases branches,
{
    if branches.len() == 0 {
        Seq::empty()
    } else {
        let before = expand_alt_spec(anchor, branches.drop_last());
        match branches.last() {
            ElementView::Alternation(inner_anchor, inner) => before + interleaved(
                anchor,
                expand_alt_spec(*inner_anchor, inner),
            ),
            other => before.push(anchor).push(other),
        }
    }
}

/// Puts the anchor in front of each element of `es`.
fn interleave(anchor: &Element, es: &Vec<Element>, out: &mut Vec<Element>)
    ensures
        elements_view(final(out)@) == elements_view(old(out)@) + interleaved(
            element_view(*anchor),
            elements_view(es@),
        ),
{
    let mut i: usize = 0;
    assert(es@.subrange(0, 0) =~= Seq::empty());
    assert(elements_view(out@) + Seq::<ElementView>::empty() =~= elements_view(out@));
    while i < es.len()
        invariant
            i <= es.len(),
            elements_view(out@) == elements_view(old(out)@) + interleaved(
                element_view(*anchor),
                elements_view(es@.subrange(0, i as int)),
            ),
        decreases es.len() - i,
    {
        let a = copy_element(anchor);
        let x = copy_element(&es[i]);
        proof {
            lemma_view_prefix(es@, i as int);
            lemma_view_push(out@, a);
            lemma_view_push(out@.push(a), x);
            let done = interleaved(element_view(*anchor), elements_view(es@.subrange(0, i as int)));
            let next = elements_view(es@.subrange(0, i + 1));
            assert(next.drop_last() =~= elements_view(es@.subrange(0, i as int)));
            assert((elements_view(old(out)@) + done).push(element_view(a)).push(element_view(x))
                =~= elements_view(old(out)@) + interleaved(element_view(*anchor), next));
        }
        out.push(a);
        out.push(x);
        i += 1;
    }
    assert(es@.subrange(0, i as int) =~= es@);
}

/// Writes an alternation out; see `expand_alt_spec`.
fn expand_branches(anchor: &Element, elements: &Vec<Element>) -> (r: Vec<Element>)
    ensures
        elements_view(r@) == expand_alt_spec(element_view(*anchor), elements_view(elements@)),
    decreases elements,
{
    let mut expanded: Vec<Element> = Vec::new();
    let mut i: usize = 0;
    assert(elements@.subrange(0, 0) =~= Seq::empty());
    while i < elements.len()
        invariant
            i <= elements.len(),
            elements_view(expanded@) == expand_alt_spec(
                element_view(*anchor),
                elements_view(elements@.subrange(0, i as int)),
            ),
        decreases elements.len() - i,
    {
        proof {
            lemma_view_prefix(elements@, i as int);
            let next = elements_view(elements@.subrange(0, i + 1));
            assert(next.drop_last() =~= elements_view(elements@.subrange(0, i as int)));
            assert(next.last() == element_view(elements@[i as int]));
        }
        match &elements[i] {
            Element::Alternation(pair) => {
                let sub = expand_branches(&pair.0, &pair.1);
                interleave(anchor, &sub, &mut expanded);
            },
            other => {
                let a = copy_element(anchor);
                let x = copy_element(other);
                proof {
                    lemma_view_push(expanded@, a);
                    lemma_view_push(expanded@.push(a), x);
                }
                expanded.push(a);
                expanded.push(x);
            },
        }
        i += 1;
    }
    assert(elements@.subrange(0, i as int) =~= elements@);
    expanded
}

/// Writes an alternation out: the anchor in front of each branch, a branch that
/// is itself an alternation written out first.
pub fn expand_alt(anchor: &Element, elements: Vec<Element>) -> (r: Vec<Element>)
    ensures
        elements_view(r@) == expand_alt_spec(element_view(*anchor), elements_view(elements@)),
{
    expand_branches(anchor, &elements)
}

/// How deep the tree below an element goes.
pub open spec fn height(e: ElementView) -> nat
    decreases e,
{
    match e {
        ElementView::Alternation(anchor, branches) => 1 + vstd::math::max(
            height(*anchor) as int,
            max_height(branches) as int,
        ) as nat,
        ElementView::Group(es) => 1 + max_height(es),
        _ => 0,
    }
}

/// The greatest height among the elements of a list.
pub open spec fn max_height(es: Seq<ElementView>) -> nat
    decreases es,
{
    if es.len() == 0 {
        0
    } else {
        vstd::math::max(max_height(es.drop_last()) as int, height(es.last()) as int) as nat
    }
}

/// No element of a list is deeper than the deepest.
pub proof fn lemma_height_in_list(es: Seq<ElementView>, i: int)
    requires
        0 <= i < es.len(),
    ensures
        height(es[i]) <= max_height(es),
    decreases es.len(),
{
    if i < es.len() - 1 {
        lemma_height_in_list(es.drop_last(), i);
    }
}

proof fn lemma_height_push(es: Seq<ElementView>, x: ElementView)
    ensures
        max_height(es.push(x)) == vstd::math::max(max_height(es) as int, height(x) as int),
{
    assert(es.push(x).drop_last() =~= es);
    assert(es.push(x).last() == x);
}

proof fn lemma_height_joined(a: Seq<ElementView>, b: Seq<ElementView>)
    ensures
        max_height(a + b) == vstd::math::max(max_height(a) as int, max_height(b) as int),
    decreases b.len(),
{
    if b.len() == 0 {
        assert(a + b =~= a);
    } else {
        lemma_height_joined(a, b.drop_last());
        assert((a + b).drop_last() =~= a + b.drop_last());
        assert((a + b).last() == b.last());
    }
}

proof fn lemma_height_interleaved(anchor: ElementView, es: Seq<ElementView>)
    ensures
        max_height(interleaved(anchor, es)) <= vstd::math::max(
            height(anchor) as int,
            max_height(es) as int,
        ),
    decreases es.len(),
{
    if es.len() > 0 {
        lemma_height_interleaved(anchor, es.drop_last());
        let head = interleaved(anchor, es.drop_last());
        lemma_height_push(head, anchor);
        lemma_height_push(head.push(anchor), es.last());
        lemma_height_in_list_prefix(es);
        lemma_height_in_list(es, es.len() - 1);
    }
}

/// Writing an alternation out makes nothing deeper than the anchor and the
/// branches were.
pub proof fn lemma_height_expanded(anchor: ElementView, branches: Seq<ElementView>)
    ensures
        max_height(expand_alt_spec(anchor, branches)) <= vstd::math::max(
            height(anchor) as int,
            max_height(branches) as int,
        ),
    decreases branches,
{
    if branches.len() > 0 {
        lemma_height_expanded(anchor, branches.drop_last());
        let before = expand_alt_spec(anchor, branches.drop_last());
        match branches.last() {
            ElementView::Alternation(inner_anchor, inner) => {
                lemma_height_expanded(*inner_anchor, inner);
                lemma_height_interleaved(anchor, expand_alt_spec(*inner_anchor, inner));
                lemma_height_joined(
                    before,
                    interleaved(anchor, expand_alt_spec(*inner_anchor, inner)),
                );
            },
            other => {
                lemma_height_push(before, anchor);
                lemma_height_push(before.push(anchor), other);
            },
        }
        lemma_height_in_list_prefix(branches);
        lemma_height_in_list(branches, branches.len() - 1);
    }
}

/// How far laying out has come: the events so far, or what stopped it.
pub enum Lowering {
    Done(Seq<EventView>),
    /// A tie came before any event that it could lengthen.
    Untied,
    /// A duration came out that has no representation.
    TooFine,
}

/// Lays one element out over `len`, behind what `acc` holds.
///
/// A note and a rest each become an event of duration `len`. A tie adds `len`
/// to the duration of the event before it and leaves its action as it is. A
/// group shares `len` out equally among its elements; an empty group lays out
/// nothing. An alternation is written out and then laid out as a group.
pub open spec fn lower_elem(e: ElementView, len: Dur, acc: Lowering) -> Lowering
    decreases height(e), 0nat,
{
    match acc {
        Lowering::Done(events) => match e {
            ElementView::Note(n) => Lowering::Done(
                events.push(EventView { action: ActionView::Note(n), dur: len }),
            ),
            ElementView::Rest => Lowering::Done(
                events.push(EventView { action: ActionView::Rest, dur: len }),
            ),
            ElementView::Tie => if events.len() == 0 {
                Lowering::Untied
            } else if !Dur::representable(
                events.last().dur.combined_num(len, 1),
                events.last().dur.combined_den(len),
            ) {
                Lowering::TooFine
            } else {
                Lowering::Done(
                    events.drop_last().push(
                        EventView {
                            action: events.last().action,
                            dur: events.last().dur.spec_add(len),
                        },
                    ),
                )
            },
            ElementView::Group(es) => lower_shared(es, len, acc),
            ElementView::Alternation(anchor, branches) => {
                proof {
                    lemma_height_expanded(*anchor, branches);
                }
                lower_shared(expand_alt_spec(*anchor, branches), len, acc)
            },
        },
        _ => acc,
    }
}

/// Shares `len` out equally among the elements of `es` and lays them out.
pub open spec fn lower_shared(es: Seq<ElementView>, len: Dur, acc: Lowering) -> Lowering
    decreases max_height(es), 2 + es.len(),
{
    if es.len() == 0 {
        acc
    } else if !Dur::representable(len.num as int, len.den * es.len()) {
        Lowering::TooFine
    } else {
        lower_seq(es, len.spec_div_int(es.len() as int), acc)
    }
}

/// Lays the elements of `es` out one behind the other, each over `each`.
pub open spec fn lower_seq(es: Seq<ElementView>, each: Dur, acc: Lowering) -> Lowering
    decreases max_height(es), 1 + es.len(),
{
    if es.len() == 0 {
        acc
    } else {
        proof {
            lemma_height_in_list(es, es.len() - 1);
            lemma_height_in_list_prefix(es);
        }
        lower_elem(es.last(), each, lower_seq(es.drop_last(), each, acc))
    }
}

/// A list without its last element is no deeper than the list.
pub proof fn lemma_height_in_list_prefix(es: Seq<ElementView>)
    requires
        es.len() > 0,
    ensures
        max_height(es.drop_last()) <= max_height(es),
{
}

/// The events that the tree under `root` lays out over `len`.
pub open spec fn transform_spec(root: ElementView, len: Dur) -> Lowering {
    lower_elem(root, len, Lowering::Done(Seq::empty()))
}

/// Every duration among the events has a denominator other than zero and
/// magnitudes that fit in 63 bits.
pub open spec fn durs_valid(events: Seq<EventView>) -> bool {
    forall|i: int| 0 <= i < events.len() ==> (#[trigger] events[i]).dur.valid()
}

/// What stops the laying out.
enum Stop {
    Untied,
    TooFine,
}

/// `r` and `events` are what the laying out `l` asks for.
spec fn laid_out(l: Lowering, r: Result<(), Stop>, events: Seq<EventView>) -> bool {
    match l {
        Lowering::Done(evs) => r is Ok && events == evs && durs_valid(evs),
        Lowering::Untied => r == Err::<(), Stop>(Stop::Untied),
        Lowering::TooFine => r == Err::<(), Stop>(Stop::TooFine),
    }
}

/// Once the laying out has stopped, it stays stopped.
proof fn lemma_lower_seq_stuck(es: Seq<ElementView>, each: Dur, acc: Lowering, i: int)
    requires
        0 <= i <= es.len(),
        !(lower_seq(es.subrange(0, i), each, acc) is Done),
    ensures
        lower_seq(es, each, acc) == lower_seq(es.subrange(0, i), each, acc),
    decreases es.len(),
{
    if i == es.len() {
        assert(es.subrange(0, i) =~= es);
    } else {
        assert(es.drop_last().subrange(0, i) =~= es.subrange(0, i));
        lemma_lower_seq_stuck(es.drop_last(), each, acc, i);
        let stuck = lower_seq(es.drop_last(), each, acc);
        assert(lower_seq(es, each, acc) == lower_elem(es.last(), each, stuck));
        assert(lower_elem(es.last(), each, stuck) == stuck);
    }
}

proof fn lemma_lower_seq_step(es: Seq<ElementView>, each: Dur, acc: Lowering, i: int)
    requires
        0 <= i < es.len(),
    ensures
        lower_seq(es.subrange(0, i + 1), each, acc) == lower_elem(
            es[i],
            each,
            lower_seq(es.subrange(0, i), each, acc),
        ),
{
    assert(es.subrange(0, i + 1).drop_last() =~= es.subrange(0, i));
}

/// Lengthens the event before a tie by `len`.
fn tie_last(len: Dur, events: &mut Vec<Event>) -> (r: Result<(), Stop>)
    requires
        len.valid(),
        durs_valid(old(events).deep_view()),
    ensures
        laid_out(
            lower_elem(ElementView::Tie, len, Lowering::Done(old(events).deep_view())),
            r,
            final(events).deep_view(),
        ),
{
    let ghost before = events.deep_view();
    if events.len() == 0 {
        return Err(Stop::Untied);
    }
    let prev = events.pop().unwrap();
    assert(events.deep_view() =~= before.drop_last());
    assert(prev.deep_view() == before.last());
    assert(before.last().dur.valid());
    match prev.dur.checked_add(len) {
        Some(dur) => {
            events.push(Event { action: prev.action, dur: dur });
            assert(events.deep_view() =~= before.drop_last().push(
                EventView { action: before.last().action, dur: before.last().dur.spec_add(len) },
            ));
            Ok(())
        },
        None => Err(Stop::TooFine),
    }
}

/// Lays one element out; see `lower_elem`.
fn lay_out(root: &Element, len: Dur, events: &mut Vec<Event>) -> (r: Result<(), Stop>)
    requires
        len.valid(),
        durs_valid(old(events).deep_view()),
    ensures
        laid_out(
            lower_elem(element_view(*root), len, Lowering::Done(old(events).deep_view())),
            r,
            final(events).deep_view(),
        ),
    decreases height(element_view(*root)), 0nat,
{
    let ghost before = events.deep_view();
    match root {
        Element::Note(note) => {
            events.push(Event { action: EventType::NoteEvent(*note), dur: len });
            assert(events.deep_view() =~= before.push(
                EventView { action: ActionView::Note(*note), dur: len },
            ));
            Ok(())
        },
        Element::Rest => {
            events.push(Event { action: EventType::Rest, dur: len });
            assert(events.deep_view() =~= before.push(
                EventView { action: ActionView::Rest, dur: len },
            ));
            Ok(())
        },
        Element::Tie => tie_last(len, events),
        Element::Group(elems) => lay_out_shared(elems, len, events),
        Element::Alternation(pair) => {
            let expanded = expand_branches(&pair.0, &pair.1);
            proof {
                lemma_height_expanded(element_view(*pair.0), elements_view(pair.1@));
            }
            lay_out_shared(&expanded, len, events)
        },
    }
}

/// Shares `len` out among the elements and lays them out; see `lower_shared`.
fn lay_out_shared(elems: &Vec<Element>, len: Dur, events: &mut Vec<Event>) -> (r: Result<(), Stop>)
    requires
        len.valid(),
        durs_valid(old(events).deep_view()),
    ensures
        laid_out(
            lower_shared(elements_view(elems@), len, Lowering::Done(old(events).deep_view())),
            r,
            final(events).deep_view(),
        ),
    decreases max_height(elements_view(elems@)), 1nat,
{
    let ghost views = elements_view(elems@);
    let ghost start = Lowering::Done(events.deep_view());
    proof {
        lemma_view_index(elems@);
    }
    if elems.len() == 0 {
        return Ok(());
    }
    let each = match len.checked_div_count(elems.len()) {
        Some(d) => d,
        None => {
            return Err(Stop::TooFine);
        },
    };
    let mut i: usize = 0;
    assert(views.subrange(0, 0) =~= Seq::empty());
    while i < elems.len()
        invariant
            i <= elems.len(),
            views == elements_view(elems@),
            views.len() == elems.len(),
            elems.len() > 0,
            each.valid(),
            start == Lowering::Done(old(events).deep_view()),
            Dur::representable(len.num as int, len.den * elems.len()),
            each == len.spec_div_int(elems.len() as int),
            lower_seq(views.subrange(0, i as int), each, start) == Lowering::Done(events.deep_view()),
            durs_valid(events.deep_view()),
        decreases elems.len() - i,
    {
        proof {
            lemma_view_index(elems@);
            lemma_height_in_list(views, i as int);
            lemma_lower_seq_step(views, each, start, i as int);
        }
        match lay_out(&elems[i], each, events) {
            Ok(()) => {},
            Err(stop) => {
                proof {
                    lemma_lower_seq_stuck(views, each, start, i + 1);
                }
                return Err(stop);
            },
        }
        i += 1;
    }
    assert(views.subrange(0, i as int) =~= views);
    Ok(())
}

/// Whether every tie under `root` finds an event before it to lengthen, when
/// the tree is laid out over `len`.
pub fn ties_anchored(root: &Element, len: Dur) -> (b: bool)
    requires
        len.valid(),
    ensures
        b == !(transform_spec(element_view(*root), len) is Untied),
{
    let mut events: Vec<Event> = Vec::new();
    assert(events.deep_view() =~= Seq::empty());
    match lay_out(root, len, &mut events) {
        Err(Stop::Untied) => false,
        _ => true,
    }
}

/// `r` and `events` are what the laying out `l` asks for, where no tie is
/// left without its event.
pub open spec fn lowered(l: Lowering, r: Result<(), ParseError>, events: Seq<EventView>) -> bool {
    match l {
        Lowering::Done(evs) => r is Ok && events == evs && durs_valid(evs),
        Lowering::Untied => false,
        Lowering::TooFine => r == Err::<(), ParseError>(ParseError::InvalidDuration),
    }
}

/// Lengthens the last event by `len`: what a tie does.
pub fn handle_tie(len: Dur, events: &mut Vec<Event>) -> (r: Result<(), ParseError>)
    requires
        old(events).len() > 0,
        len.valid(),
        durs_valid(old(events).deep_view()),
    ensures
        lowered(
            lower_elem(ElementView::Tie, len, Lowering::Done(old(events).deep_view())),
            r,
            final(events).deep_view(),
        ),
{
    match tie_last(len, events) {
        Ok(()) => Ok(()),
        Err(_) => Err(ParseError::InvalidDuration),
    }
}

/// Lays the tree under `root` out over `len`, behind the events that are
/// there. `InvalidDuration` where a duration comes out that has no
/// representation; what `events` holds is then of no use.
pub fn transform_r(root: &Element, len: Dur, events: &mut Vec<Event>) -> (r: Result<(), ParseError>)
    requires
        len.valid(),
        durs_valid(old(events).deep_view()),
        !(lower_elem(element_view(*root), len, Lowering::Done(old(events).deep_view())) is Untied),
    ensures
        lowered(
            lower_elem(element_view(*root), len, Lowering::Done(old(events).deep_view())),
            r,
            final(events).deep_view(),
        ),
{
    match lay_out(root, len, events) {
        Ok(()) => Ok(()),
        Err(_) => Err(ParseError::InvalidDuration),
    }
}

/// The events of the tree under `root`, laid out over `len_bars`.
pub fn transform(root: Element, len_bars: Dur) -> (r: Result<Vec<Event>, ParseError>)
    requires
        len_bars.valid(),
        !(transform_spec(element_view(root), len_bars) is Untied),
    ensures
        match transform_spec(element_view(root), len_bars) {
            Lowering::Done(evs) => r is Ok && r->Ok_0.deep_view() == evs,
            Lowering::Untied => false,
            Lowering::TooFine => r == Err::<Vec<Event>, ParseError>(ParseError::InvalidDuration),
        },
{
    let mut events: Vec<Event> = Vec::new();
    assert(events.deep_view() =~= Seq::empty());
    match transform_r(&root, len_bars, &mut events) {
        Ok(()) => Ok(events),
        Err(e) => Err(e),
    }
}

/// The root of the tree that a pattern text stands for: the group itself where
/// the text is one group, a group around its elements where it is not.
pub open spec fn root_spec(s: Seq<char>) -> Result<ElementView, ParseError> {
    match lex_spec(s) {
        Ok(tokens) => match parse_spec(desugar_spec(tokens)) {
            Ok(elems) => Ok(
                if elems.len() == 1 && elems[0] is Group {
                    elems[0]
                } else {
                    ElementView::Group(elems)
                },
            ),
            Err(e) => Err(e),
        },
        Err(e) => Err(e),
    }
}

/// Reads a pattern text into its tree.
pub fn get_root_elem(def: &str) -> (r: Result<Element, ParseError>)
    ensures
        r is Ok == root_spec(def@) is Ok,
        r is Ok ==> element_view(r->Ok_0) == root_spec(def@)->Ok_0,
        r is Err ==> r->Err_0 == root_spec(def@)->Err_0,
{
    let tokens = match lex(def) {
        Ok(t) => t,
        Err(e) => {
            return Err(e);
        },
    };
    let mut parser = Parser::new();
    let parsed = match parser.parse(desugar(tokens)) {
        Ok(p) => p,
        Err(e) => {
            return Err(e);
        },
    };
    let mut elements = parsed.get_elements();
    proof {
        lemma_view_index(elements@);
    }
    if elements.len() == 1 {
        match &elements[0] {
            Element::Group(_) => {
                let root = elements.pop().unwrap();
                return Ok(root);
            },
            _ => {},
        }
    }
    Ok(Element::Group(elements))
}

/// The events that a pattern text stands for, laid out over `len`.
pub open spec fn events_spec(s: Seq<char>, len: Dur) -> Result<Lowering, ParseError> {
    match root_spec(s) {
        Ok(root) => Ok(transform_spec(root, len)),
        Err(e) => Err(e),
    }
}

/// `r` is what reading `s` and laying it out over `len` asks for: the error of
/// reading, or `InvalidDuration`, or the events.
pub open spec fn events_read(s: Seq<char>, len: Dur, r: Result<Seq<EventView>, ParseError>) -> bool {
    match events_spec(s, len) {
        Ok(Lowering::Done(evs)) => r == Ok::<Seq<EventView>, ParseError>(evs),
        Ok(Lowering::TooFine) => r == Err::<Seq<EventView>, ParseError>(ParseError::InvalidDuration),
        Ok(Lowering::Untied) => false,
        Err(e) => r == Err::<Seq<EventView>, ParseError>(e),
    }
}

/// The events of a pattern text over `len_bars`.
pub fn get_events(def: &str, len_bars: Dur) -> (r: Result<Vec<Event>, ParseError>)
    requires
        len_bars.valid(),
        events_spec(def@, len_bars) != Ok::<Lowering, ParseError>(Lowering::Untied),
    ensures
        events_read(
            def@,
            len_bars,
            match r {
                Ok(evs) => Ok(evs.deep_view()),
                Err(e) => Err(e),
            },
        ),
{
    let root_elem = match get_root_elem(def) {
        Ok(root) => root,
        Err(e) => {
            return Err(e);
        },
    };
    transform(root_elem, len_bars)
}

/// The pattern that a text stands for, as `notes` gives it; `None` where a tie
/// in the text has no event before it to lengthen.
pub fn try_notes(def: &str) -> (r: Option<Result<Pattern, ParseError>>)
    ensures
        r is None == (events_spec(def@, Dur { num: 1, den: 1 }) == Ok::<Lowering, ParseError>(
            Lowering::Untied,
        )),
        r is Some ==> events_read(
            def@,
            Dur { num: 1, den: 1 },
            match r->0 {
                Ok(p) => Ok(p.deep_view().events),
                Err(e) => Err(e),
            },
        ),
        r is Some && r->0 is Ok ==> r->0->Ok_0.channel == 1 && r->0->Ok_0.length_bars == (Dur {
            num: 1,
            den: 1,
        }),
{
    let len_bars = Dur { num: 1, den: 1 };
    let root = match get_root_elem(def) {
        Ok(root) => root,
        Err(e) => {
            return Some(Err(e));
        },
    };
    if !ties_anchored(&root, len_bars) {
        return None;
    }
    match transform(root, len_bars) {
        Ok(events) => Some(Ok(Pattern { channel: 1, events: events, length_bars: len_bars })),
        Err(e) => Some(Err(e)),
    }
}

/// The pattern that a text stands for: one bar long, on channel 1.
pub fn notes(def: &str) -> (r: Result<Pattern, ParseError>)
    requires
        events_spec(def@, Dur { num: 1, den: 1 }) != Ok::<Lowering, ParseError>(Lowering::Untied),
    ensures
        events_read(
            def@,
            Dur { num: 1, den: 1 },
            match r {
                Ok(p) => Ok(p.deep_view().events),
                Err(e) => Err(e),
            },
        ),
        r is Ok ==> r->Ok_0.channel == 1 && r->Ok_0.length_bars == (Dur { num: 1, den: 1 }),
{
    let len_bars = Dur { num: 1, den: 1 };
    let events = match get_events(def, len_bars) {
        Ok(evs) => evs,
        Err(e) => {
            return Err(e);
        },
    };
    Ok(Pattern { channel: 1, events: events, length_bars: len_bars })
}

/// Neither the element nor anything below it is a group or an alternation
/// with nothing in it.
pub open spec fn full(e: ElementView) -> bool
    decreases e,
{
    match e {
        ElementView::Group(es) => es.len() > 0 && all_full(es),
        ElementView::Alternation(anchor, branches) => branches.len() > 0 && full(*anchor)
            && all_full(branches),
        _ => true,
    }
}

/// Every element of the list is `full`.
pub open spec fn all_full(es: Seq<ElementView>) -> bool
    decreases es,
{
    es.len() == 0 || (all_full(es.drop_last()) && full(es.last()))
}

proof fn lemma_full_push(es: Seq<ElementView>, x: ElementView)
    ensures
        all_full(es.push(x)) == (all_full(es) && full(x)),
{
    assert(es.push(x).drop_last() =~= es);
}

proof fn lemma_full_joined(a: Seq<ElementView>, b: Seq<ElementView>)
    ensures
        all_full(a + b) == (all_full(a) && all_full(b)),
    decreases b.len(),
{
    if b.len() == 0 {
        assert(a + b =~= a);
    } else {
        lemma_full_joined(a, b.drop_last());
        assert((a + b).drop_last() =~= a + b.drop_last());
        assert((a + b).last() == b.last());
    }
}

proof fn lemma_full_interleaved(anchor: ElementView, es: Seq<ElementView>)
    requires
        full(anchor),
        all_full(es),
    ensures
        all_full(interleaved(anchor, es)),
        interleaved(anchor, es).len() == 2 * es.len(),
    decreases es.len(),
{
    if es.len() > 0 {
        lemma_full_interleaved(anchor, es.drop_last());
        let head = interleaved(anchor, es.drop_last());
        lemma_full_push(head, anchor);
        lemma_full_push(head.push(anchor), es.last());
    }
}

/// An alternation that is `full` writes out to elements that are `full`, and
/// to at least one where it has a branch.
pub proof fn lemma_full_expanded(anchor: ElementView, branches: Seq<ElementView>)
    requires
        full(anchor),
        all_full(branches),
    ensures
        all_full(expand_alt_spec(anchor, branches)),
        branches.len() > 0 ==> expand_alt_spec(anchor, branches).len() > 0,
    decreases branches,
{
    if branches.len() > 0 {
        assert(all_full(branches.drop_last()) && full(branches.last()));
        lemma_full_expanded(anchor, branches.drop_last());
        let before = expand_alt_spec(anchor, branches.drop_last());
        match branches.last() {
            ElementView::Alternation(inner_anchor, inner) => {
                assert(full(*inner_anchor) && all_full(inner) && inner.len() > 0);
                lemma_full_expanded(*inner_anchor, inner);
                lemma_full_interleaved(anchor, expand_alt_spec(*inner_anchor, inner));
                lemma_full_joined(
                    before,
                    interleaved(anchor, expand_alt_spec(*inner_anchor, inner)),
                );
            },
            other => {
                lemma_full_push(before, anchor);
                lemma_full_push(before.push(anchor), other);
            },
        }
    }
}

/// `i` durations of `each`, as one fraction.
pub open spec fn times(each: Dur, i: int) -> Ratio {
    Ratio { num: each.num * i, den: each.den as int }
}

proof fn lemma_times_next(each: Dur, i: int)
    ensures
        same_value(ratio_add(times(each, i), each.ratio()), times(each, i + 1)),
{
    let n = each.num as int;
    let d = each.den as int;
    assert((n * i * d + n * d) * d == (n * (i + 1)) * (d * d)) by (nonlinear_arith);
}

/// Laying one element out over `len` adds `len` to the total duration, where
/// nothing under the element is empty.
pub proof fn lemma_lower_elem_total(e: ElementView, len: Dur, acc: Seq<EventView>)
    requires
        full(e),
        len.den > 0,
        dens_positive(acc),
        lower_elem(e, len, Lowering::Done(acc)) is Done,
    ensures
        dens_positive(lower_elem(e, len, Lowering::Done(acc))->Done_0),
        same_value(
            total_dur(lower_elem(e, len, Lowering::Done(acc))->Done_0),
            ratio_add(total_dur(acc), len.ratio()),
        ),
    decreases height(e), 0nat,
{
    let evs = lower_elem(e, len, Lowering::Done(acc))->Done_0;
    match e {
        ElementView::Note(n) => {
            assert(evs.drop_last() =~= acc);
        },
        ElementView::Rest => {
            assert(evs.drop_last() =~= acc);
        },
        ElementView::Tie => {
            let last = acc.last();
            let rest = acc.drop_last();
            let t = total_dur(rest);
            assert(last.dur.den > 0);
            last.dur.lemma_add_value(len);
            assert(evs.drop_last() =~= rest);
            assert(evs.last().dur == last.dur.spec_add(len));
            assert forall|i: int| 0 <= i < evs.len() implies (#[trigger] evs[i]).dur.den > 0 by {
                if i < rest.len() {
                    assert(evs[i] == acc[i]);
                }
            }
            lemma_ratio_add_right(
                t,
                last.dur.spec_add(len).ratio(),
                ratio_add(last.dur.ratio(), len.ratio()),
            );
            lemma_ratio_add_assoc(t, last.dur.ratio(), len.ratio());
        },
        ElementView::Group(es) => {
            lemma_lower_shared_total(es, len, acc);
        },
        ElementView::Alternation(anchor, branches) => {
            lemma_height_expanded(*anchor, branches);
            lemma_full_expanded(*anchor, branches);
            lemma_lower_shared_total(expand_alt_spec(*anchor, branches), len, acc);
        },
    }
}

/// Sharing `len` out among elements and laying them out adds `len` to the
/// total duration.
pub proof fn lemma_lower_shared_total(es: Seq<ElementView>, len: Dur, acc: Seq<EventView>)
    requires
        es.len() > 0,
        all_full(es),
        len.den > 0,
        dens_positive(acc),
        lower_shared(es, len, Lowering::Done(acc)) is Done,
    ensures
        dens_positive(lower_shared(es, len, Lowering::Done(acc))->Done_0),
        same_value(
            total_dur(lower_shared(es, len, Lowering::Done(acc))->Done_0),
            ratio_add(total_dur(acc), len.ratio()),
        ),
    decreases max_height(es), 2 + es.len(),
{
    let k = es.len() as int;
    let each = len.spec_div_int(k);
    len.lemma_div_int_value(k);
    lemma_lower_seq_total(es, each, acc);
    let evs = lower_seq(es, each, Lowering::Done(acc))->Done_0;
    let t = total_dur(acc);
    lemma_total_den_positive(acc);
    // k durations of `each` stand for `len`
    assert(same_value(times(each, k), len.ratio())) by (nonlinear_arith)
        requires
            each.num * (len.den * k) == len.num * each.den,
            times(each, k).num == each.num * k,
            times(each, k).den == each.den,
            len.ratio().num == len.num,
            len.ratio().den == len.den,
    ;
    lemma_ratio_add_right(t, times(each, k), len.ratio());
    assert(ratio_add(t, times(each, k)).den != 0) by (nonlinear_arith)
        requires
            t.den > 0,
            each.den > 0,
            ratio_add(t, times(each, k)).den == t.den * each.den,
    ;
    lemma_same_value_trans(
        total_dur(evs),
        ratio_add(t, times(each, k)),
        ratio_add(t, len.ratio()),
    );
}

/// Laying elements out one behind the other, each over `each`, adds `each`
/// to the total duration once for every element.
pub proof fn lemma_lower_seq_total(es: Seq<ElementView>, each: Dur, acc: Seq<EventView>)
    requires
        all_full(es),
        each.den > 0,
        dens_positive(acc),
        lower_seq(es, each, Lowering::Done(acc)) is Done,
    ensures
        dens_positive(lower_seq(es, each, Lowering::Done(acc))->Done_0),
        same_value(
            total_dur(lower_seq(es, each, Lowering::Done(acc))->Done_0),
            ratio_add(total_dur(acc), times(each, es.len() as int)),
        ),
    decreases max_height(es), 1 + es.len(),
{
    let t = total_dur(acc);
    lemma_total_den_positive(acc);
    if es.len() == 0 {
        assert(same_value(t, ratio_add(t, times(each, 0)))) by (nonlinear_arith)
            requires
                ratio_add(t, times(each, 0)).num == t.num * each.den + (each.num * 0) * t.den,
                ratio_add(t, times(each, 0)).den == t.den * each.den,
        ;
    } else {
        let k = es.len() as int;
        let mid = lower_seq(es.drop_last(), each, Lowering::Done(acc));
        assert(lower_seq(es, each, Lowering::Done(acc)) == lower_elem(es.last(), each, mid));
        assert(mid is Done);
        let mids = mid->Done_0;
        lemma_height_in_list(es, k - 1);
        lemma_height_in_list_prefix(es);
        lemma_lower_seq_total(es.drop_last(), each, acc);
        lemma_lower_elem_total(es.last(), each, mids);
        let evs = lower_elem(es.last(), each, mid)->Done_0;
        let r1 = times(each, k - 1);
        // total(evs) ~ total(mids) + each ~ (t + r1) + each == t + (r1 + each) ~ t + times(k)
        lemma_total_den_positive(mids);
        lemma_ratio_add_left(total_dur(mids), ratio_add(t, r1), each.ratio());
        assert(ratio_add(total_dur(mids), each.ratio()).den != 0) by (nonlinear_arith)
            requires
                total_dur(mids).den > 0,
                each.den > 0,
                ratio_add(total_dur(mids), each.ratio()).den == total_dur(mids).den * each.den,
        ;
        lemma_same_value_trans(
            total_dur(evs),
            ratio_add(total_dur(mids), each.ratio()),
            ratio_add(ratio_add(t, r1), each.ratio()),
        );
        lemma_ratio_add_assoc(t, r1, each.ratio());
        lemma_times_next(each, k - 1);
        lemma_ratio_add_right(t, ratio_add(r1, each.ratio()), times(each, k));
        assert(ratio_add(t, ratio_add(r1, each.ratio())).den != 0) by (nonlinear_arith)
            requires
                t.den > 0,
                each.den > 0,
                ratio_add(t, ratio_add(r1, each.ratio())).den == t.den * (each.den * each.den),
        ;
        lemma_same_value_trans(
            total_dur(evs),
            ratio_add(t, ratio_add(r1, each.ratio())),
            ratio_add(t, times(each, k)),
        );
    }
}

/// The events of a tree add up to the length that they were laid out over,
/// where nothing in the tree is empty.
pub proof fn lemma_transform_total(root: ElementView, len: Dur)
    requires
        full(root),
        len.den > 0,
        transform_spec(root, len) is Done,
    ensures
        same_value(total_dur(transform_spec(root, len)->Done_0), len.ratio()),
{
    lemma_lower_elem_total(root, len, Seq::empty());
    let evs = transform_spec(root, len)->Done_0;
    let zero = total_dur(Seq::<EventView>::empty());
    assert(ratio_add(zero, len.ratio()) == len.ratio()) by (nonlinear_arith)
        requires
            zero.num == 0,
            zero.den == 1,
            ratio_add(zero, len.ratio()).num == zero.num * len.den + len.num * zero.den,
            ratio_add(zero, len.ratio()).den == zero.den * len.den,
            len.ratio().num == len.num,
            len.ratio().den == len.den,
    ;
}

/// The events that a pattern text stands for add up to the length that the
/// pattern was given, where the text holds no `[ ]` and no `< >` with nothing
/// in it.
pub proof fn lemma_text_fills_its_length(s: Seq<char>, len: Dur)
    requires
        len.den > 0,
        root_spec(s) is Ok,
        full(root_spec(s)->Ok_0),
        events_spec(s, len)->Ok_0 is Done,
    ensures
        same_value(total_dur(events_spec(s, len)->Ok_0->Done_0), len.ratio()),
{
    lemma_transform_total(root_spec(s)->Ok_0, len);
}

/// A pattern read from a text that holds nothing empty plays a cycle of exactly
/// one bar: the samples of its events add up to the samples of the bar, none
/// lost and none added.
pub proof fn lemma_text_cycle_length(s: Seq<char>, sample_rate: u32, tempo: u32)
    requires
        tempo > 0,
        root_spec(s) is Ok,
        full(root_spec(s)->Ok_0),
        events_spec(s, Dur { num: 1, den: 1 })->Ok_0 is Done,
        events_spec(s, Dur { num: 1, den: 1 })->Ok_0->Done_0.len() > 0,
        (PatternView {
            channel: 1,
            events: events_spec(s, Dur { num: 1, den: 1 })->Ok_0->Done_0,
            length_bars: Dur { num: 1, den: 1 },
        }).wf(),
    ensures
        ({
            let pattern = PatternView {
                channel: 1,
                events: events_spec(s, Dur { num: 1, den: 1 })->Ok_0->Done_0,
                length_bars: Dur { num: 1, den: 1 },
            };
            pattern.offset_of(pattern.plan(sample_rate, tempo), pattern.events.len() as int)
                == crate::precise::samples_per_bar(sample_rate, tempo)
        }),
{
    let one = Dur { num: 1, den: 1 };
    let events = events_spec(s, one)->Ok_0->Done_0;
    let pattern = PatternView { channel: 1, events: events, length_bars: one };
    lemma_text_fills_its_length(s, one);
    assert forall|i: int| 0 <= i < events.len() implies (#[trigger] events[i]).dur.den > 0 by {
        assert(pattern.wf());
        assert(crate::pattern::event_ok(pattern.events[i]));
    }
    pattern.lemma_fractions_add_up();
    pattern.lemma_cycle_length(sample_rate, tempo);
    let spb = crate::precise::samples_per_bar(sample_rate, tempo);
    assert(1 * spb == spb) by (nonlinear_arith);
    vstd::arithmetic::div_mod::lemma_div_basics(spb);
}

} // verus!
