//! The parser: from tokens to the tree of elements.
use vstd::prelude::*;
use crate::lex::Token;
use crate::pattern::Note;

verus! {

/// What can go wrong while turning pattern text into events.
#[derive(Debug, Clone, Copy, PartialEq, Eq, Structural)]
pub enum ParseError {
    /// A duration with a zero denominator, or one that does not fit in 64 bits.
    InvalidDuration,
    /// The text holds something that is no token of the pattern language.
    LexFailure,
    /// A `<` without an element in front of it.
    MissingAlternationAnchor,
    /// A `<` without its `>`, or a `>` without its `<`.
    MissingAlternationDelimiter,
    /// A `[` without its `]`, or a `]` without its `[`.
    MissingGroupDelimiter,
}

/// A node of the tree. An alternation holds its anchor and its branches.
#[derive(Debug, PartialEq, Eq)]
pub enum Element {
    Alternation((Box<Element>, Vec<Element>)),
    Group(Vec<Element>),
    Note(Note),
    Rest,
    Tie,
}

/// A node of the tree as a mathematical value.
pub enum ElementView {
    Alternation(Box<ElementView>, Seq<ElementView>),
    Group(Seq<ElementView>),
    Note(Note),
    Rest,
    Tie,
}

/// An element as a mathematical value.
pub open spec fn element_view(e: Element) -> ElementView
    decreases e,
{
    match e {
        Element::Alternation((anchor, branches)) => ElementView::Alternation(
            Box::new(element_view(*anchor)),
            elements_view(branches@),
        ),
        Element::Group(es) => ElementView::Group(elements_view(es@)),
        Element::Note(n) => ElementView::Note(n),
        Element::Rest => ElementView::Rest,
        Element::Tie => ElementView::Tie,
    }
}

/// A list of elements as a list of mathematical values.
pub open spec fn elements_view(es: Seq<Element>) -> Seq<ElementView>
    decreases es,
{
    if es.len() == 0 {
        Seq::empty()
    } else {
        elements_view(es.drop_last()).push(element_view(es.last()))
    }
}

impl DeepView for Element {
    type V = ElementView;

    open spec fn deep_view(&self) -> ElementView {
        element_view(*self)
    }
}

/// Where the parser stands: at the top of the pattern, inside `[ ]`, or inside
/// `< >`.
#[derive(Clone, Copy, Debug, PartialEq, Eq, Structural)]
pub enum Frame {
    Pattern,
    Group,
    Alternation,
}

/// The elements of one frame, and the place behind what closed it.
pub struct Parsed {
    pub elems: Seq<ElementView>,
    pub end: int,
}

/// Parses the tokens from `pos` on within `frame`, with `acc` the elements that
/// the frame holds so far.
///
/// `[` opens a group, which becomes one element. `<` takes the element before
/// it as its anchor and opens an alternation, which takes the anchor's place.
/// A note, a rest and a tie each become an element. The short forms for ties
/// and repeats are passed over: they are written out before parsing. The frame
/// ends at its own closing bracket, the pattern at the end of the tokens; any
/// other end is an error.
pub open spec fn parse_seq(tokens: Seq<Token>, pos: int, frame: Frame, acc: Seq<ElementView>) -> Result<
    Parsed,
    ParseError,
>
    decreases tokens.len() - pos,
{
    if pos < 0 || pos >= tokens.len() {
        match frame {
            Frame::Pattern => Ok(Parsed { elems: acc, end: pos }),
            Frame::Group => Err(ParseError::MissingGroupDelimiter),
            Frame::Alternation => Err(ParseError::MissingAlternationDelimiter),
        }
    } else {
        match tokens[pos] {
            Token::AlternationStart => if acc.len() == 0 {
                Err(ParseError::MissingAlternationAnchor)
            } else {
                match parse_seq(tokens, pos + 1, Frame::Alternation, Seq::empty()) {
                    Ok(inner) => if pos < inner.end <= tokens.len() {
                        parse_seq(
                            tokens,
                            inner.end,
                            frame,
                            acc.drop_last().push(
                                ElementView::Alternation(Box::new(acc.last()), inner.elems),
                            ),
                        )
                    } else {
                        Err(ParseError::MissingAlternationDelimiter)
                    },
                    Err(e) => Err(e),
                }
            },
            Token::AlternationEnd => if frame == Frame::Alternation {
                Ok(Parsed { elems: acc, end: pos + 1 })
            } else {
                Err(ParseError::MissingAlternationDelimiter)
            },
            Token::GroupStart => match parse_seq(tokens, pos + 1, Frame::Group, Seq::empty()) {
                Ok(inner) => if pos < inner.end <= tokens.len() {
                    parse_seq(tokens, inner.end, frame, acc.push(ElementView::Group(inner.elems)))
                } else {
                    Err(ParseError::MissingGroupDelimiter)
                },
                Err(e) => Err(e),
            },
            Token::GroupEnd => if frame == Frame::Group {
                Ok(Parsed { elems: acc, end: pos + 1 })
            } else {
                Err(ParseError::MissingGroupDelimiter)
            },
            Token::NoteExpr(n) => parse_seq(tokens, pos + 1, frame, acc.push(ElementView::Note(n))),
            Token::Rest => parse_seq(tokens, pos + 1, frame, acc.push(ElementView::Rest)),
            Token::Tie => parse_seq(tokens, pos + 1, frame, acc.push(ElementView::Tie)),
            _ => parse_seq(tokens, pos + 1, frame, acc),
        }
    }
}

/// The elements of a whole pattern.
pub open spec fn parse_spec(tokens: Seq<Token>) -> Result<Seq<ElementView>, ParseError> {
    match parse_seq(tokens, 0, Frame::Pattern, Seq::empty()) {
        Ok(p) => Ok(p.elems),
        Err(e) => Err(e),
    }
}

/// The tokens that write an element: a note, a rest and a tie are their own
/// token, a group stands between `[` and `]`, and an alternation is its anchor
/// with the branches behind it between `<` and `>`.
pub open spec fn written(e: ElementView) -> Seq<Token>
    decreases e,
{
    match e {
        ElementView::Note(n) => seq![Token::NoteExpr(n)],
        ElementView::Rest => seq![Token::Rest],
        ElementView::Tie => seq![Token::Tie],
        ElementView::Group(es) => seq![Token::GroupStart] + written_all(es) + seq![Token::GroupEnd],
        ElementView::Alternation(anchor, branches) => written(*anchor) + seq![
            Token::AlternationStart,
        ] + written_all(branches) + seq![Token::AlternationEnd],
    }
}

/// The tokens that write a list of elements, one behind the other.
pub open spec fn written_all(es: Seq<ElementView>) -> Seq<Token>
    decreases es,
{
    if es.len() == 0 {
        Seq::empty()
    } else {
        written_all(es.drop_last()) + written(es.last())
    }
}

/// A token that the parser does not pass over.
pub open spec fn is_structural(t: Token) -> bool {
    t is AlternationStart || t is AlternationEnd || t is GroupStart || t is GroupEnd || t is NoteExpr
        || t is Rest || t is Tie
}

/// What closes a frame.
pub open spec fn closing(frame: Frame) -> Seq<Token> {
    match frame {
        Frame::Pattern => Seq::empty(),
        Frame::Group => seq![Token::GroupEnd],
        Frame::Alternation => seq![Token::AlternationEnd],
    }
}

proof fn lemma_written_push(es: Seq<ElementView>, e: ElementView)
    ensures
        written_all(es.push(e)) == written_all(es) + written(e),
{
    assert(es.push(e).drop_last() =~= es);
}

/// What the parser finds in a frame writes the tokens that it read: the
/// elements that were there, then the tokens from `pos` up to the end of the
/// frame, are the elements that it gives, then what closes the frame.
pub proof fn lemma_parse_seq_written(tokens: Seq<Token>, pos: int, frame: Frame, acc: Seq<ElementView>)
    requires
        0 <= pos <= tokens.len(),
        forall|i: int| 0 <= i < tokens.len() ==> is_structural(#[trigger] tokens[i]),
        parse_seq(tokens, pos, frame, acc) is Ok,
    ensures
        pos <= parse_seq(tokens, pos, frame, acc)->Ok_0.end <= tokens.len(),
        written_all(parse_seq(tokens, pos, frame, acc)->Ok_0.elems) + closing(frame) == written_all(
            acc,
        ) + tokens.subrange(pos, parse_seq(tokens, pos, frame, acc)->Ok_0.end),
    decreases tokens.len() - pos,
{
    let result = parse_seq(tokens, pos, frame, acc)->Ok_0;
    if pos >= tokens.len() {
        assert(tokens.subrange(pos, pos) =~= Seq::empty());
        assert(written_all(acc) + closing(frame) =~= written_all(acc) + Seq::<Token>::empty());
    } else {
        assert(is_structural(tokens[pos]));
        match tokens[pos] {
            Token::AlternationStart => {
                let inner = parse_seq(tokens, pos + 1, Frame::Alternation, Seq::empty())->Ok_0;
                lemma_parse_seq_written(tokens, pos + 1, Frame::Alternation, Seq::empty());
                let next = acc.drop_last().push(
                    ElementView::Alternation(Box::new(acc.last()), inner.elems),
                );
                lemma_parse_seq_written(tokens, inner.end, frame, next);
                lemma_written_push(
                    acc.drop_last(),
                    ElementView::Alternation(Box::new(acc.last()), inner.elems),
                );
                assert(written_all(acc) == written_all(acc.drop_last()) + written(acc.last()));
                assert(written_all(next) =~= written_all(acc) + seq![Token::AlternationStart] + (
                written_all(inner.elems) + seq![Token::AlternationEnd]));
                assert(written_all(Seq::<ElementView>::empty()) + tokens.subrange(
                    pos + 1,
                    inner.end,
                ) =~= tokens.subrange(pos + 1, inner.end));
                assert(seq![Token::AlternationStart] + tokens.subrange(pos + 1, inner.end)
                    =~= tokens.subrange(pos, inner.end));
                assert(written_all(next) =~= written_all(acc) + tokens.subrange(pos, inner.end));
                assert(tokens.subrange(pos, inner.end) + tokens.subrange(inner.end, result.end)
                    =~= tokens.subrange(pos, result.end));
                assert(written_all(next) + tokens.subrange(inner.end, result.end) =~= written_all(
                    acc,
                ) + tokens.subrange(pos, result.end));
            },
            Token::AlternationEnd => {
                assert(tokens.subrange(pos, pos + 1) =~= seq![Token::AlternationEnd]);
            },
            Token::GroupStart => {
                let inner = parse_seq(tokens, pos + 1, Frame::Group, Seq::empty())->Ok_0;
                lemma_parse_seq_written(tokens, pos + 1, Frame::Group, Seq::empty());
                let next = acc.push(ElementView::Group(inner.elems));
                lemma_parse_seq_written(tokens, inner.end, frame, next);
                lemma_written_push(acc, ElementView::Group(inner.elems));
                assert(written_all(Seq::<ElementView>::empty()) + tokens.subrange(
                    pos + 1,
                    inner.end,
                ) =~= tokens.subrange(pos + 1, inner.end));
                assert(seq![Token::GroupStart] + tokens.subrange(pos + 1, inner.end)
                    =~= tokens.subrange(pos, inner.end));
                assert(written_all(next) =~= written_all(acc) + (seq![Token::GroupStart] + (
                written_all(inner.elems) + seq![Token::GroupEnd])));
                assert(written_all(next) =~= written_all(acc) + tokens.subrange(pos, inner.end));
                assert(tokens.subrange(pos, inner.end) + tokens.subrange(inner.end, result.end)
                    =~= tokens.subrange(pos, result.end));
                assert(written_all(next) + tokens.subrange(inner.end, result.end) =~= written_all(
                    acc,
                ) + tokens.subrange(pos, result.end));
            },
            Token::GroupEnd => {
                assert(tokens.subrange(pos, pos + 1) =~= seq![Token::GroupEnd]);
            },
            Token::NoteExpr(n) => {
                lemma_leaf_written(tokens, pos, frame, acc, ElementView::Note(n));
            },
            Token::Rest => {
                lemma_leaf_written(tokens, pos, frame, acc, ElementView::Rest);
            },
            Token::Tie => {
                lemma_leaf_written(tokens, pos, frame, acc, ElementView::Tie);
            },
            _ => {},
        }
    }
}

proof fn lemma_leaf_written(
    tokens: Seq<Token>,
    pos: int,
    frame: Frame,
    acc: Seq<ElementView>,
    leaf: ElementView,
)
    requires
        0 <= pos < tokens.len(),
        forall|i: int| 0 <= i < tokens.len() ==> is_structural(#[trigger] tokens[i]),
        written(leaf) == seq![tokens[pos]],
        parse_seq(tokens, pos, frame, acc) == parse_seq(tokens, pos + 1, frame, acc.push(leaf)),
        parse_seq(tokens, pos, frame, acc) is Ok,
    ensures
        pos <= parse_seq(tokens, pos, frame, acc)->Ok_0.end <= tokens.len(),
        written_all(parse_seq(tokens, pos, frame, acc)->Ok_0.elems) + closing(frame) == written_all(
            acc,
        ) + tokens.subrange(pos, parse_seq(tokens, pos, frame, acc)->Ok_0.end),
    decreases tokens.len() - pos, 0nat,
{
    let result = parse_seq(tokens, pos, frame, acc)->Ok_0;
    lemma_parse_seq_written(tokens, pos + 1, frame, acc.push(leaf));
    lemma_written_push(acc, leaf);
    assert(seq![tokens[pos]] + tokens.subrange(pos + 1, result.end) =~= tokens.subrange(
        pos,
        result.end,
    ));
    assert((written_all(acc) + seq![tokens[pos]]) + tokens.subrange(pos + 1, result.end)
        =~= written_all(acc) + tokens.subrange(pos, result.end));
}

/// The elements that the parser finds write the tokens that it was given,
/// where none of them is a short form.
pub proof fn lemma_parse_written(tokens: Seq<Token>)
    requires
        forall|i: int| 0 <= i < tokens.len() ==> is_structural(#[trigger] tokens[i]),
        parse_spec(tokens) is Ok,
    ensures
        written_all(parse_spec(tokens)->Ok_0) == tokens,
{
    lemma_parse_seq_written(tokens, 0, Frame::Pattern, Seq::empty());
    let result = parse_seq(tokens, 0, Frame::Pattern, Seq::empty())->Ok_0;
    lemma_pattern_ends_at_end(tokens, 0, Seq::empty());
    assert(tokens.subrange(0, tokens.len() as int) =~= tokens);
    assert(written_all(result.elems) + closing(Frame::Pattern) =~= written_all(result.elems));
    assert(written_all(Seq::<ElementView>::empty()) + tokens =~= tokens);
}

/// The pattern ends where the tokens end.
proof fn lemma_pattern_ends_at_end(tokens: Seq<Token>, pos: int, acc: Seq<ElementView>)
    requires
        0 <= pos <= tokens.len(),
        parse_seq(tokens, pos, Frame::Pattern, acc) is Ok,
    ensures
        parse_seq(tokens, pos, Frame::Pattern, acc)->Ok_0.end == tokens.len(),
    decreases tokens.len() - pos,
{
    if pos < tokens.len() {
        match tokens[pos] {
            Token::AlternationStart => {
                let inner = parse_seq(tokens, pos + 1, Frame::Alternation, Seq::empty())->Ok_0;
                lemma_pattern_ends_at_end(
                    tokens,
                    inner.end,
                    acc.drop_last().push(
                        ElementView::Alternation(Box::new(acc.last()), inner.elems),
                    ),
                );
            },
            Token::AlternationEnd => {},
            Token::GroupStart => {
                let inner = parse_seq(tokens, pos + 1, Frame::Group, Seq::empty())->Ok_0;
                lemma_pattern_ends_at_end(tokens, inner.end, acc.push(ElementView::Group(inner.elems)));
            },
            Token::GroupEnd => {},
            Token::NoteExpr(n) => {
                lemma_pattern_ends_at_end(tokens, pos + 1, acc.push(ElementView::Note(n)));
            },
            Token::Rest => {
                lemma_pattern_ends_at_end(tokens, pos + 1, acc.push(ElementView::Rest));
            },
            Token::Tie => {
                lemma_pattern_ends_at_end(tokens, pos + 1, acc.push(ElementView::Tie));
            },
            _ => {
                lemma_pattern_ends_at_end(tokens, pos + 1, acc);
            },
        }
    }
}

/// The elements of one frame, and the place behind what closed it.
struct Section {
    elems: Vec<Element>,
    end: usize,
}

/// The view of a list with one more element is the view of the list with the
/// view of the element behind it.
pub proof fn lemma_view_push(es: Seq<Element>, e: Element)
    ensures
        elements_view(es.push(e)) == elements_view(es).push(element_view(e)),
{
    assert(es.push(e).drop_last() =~= es);
}

/// The view of a list is the list of the views.
pub proof fn lemma_view_index(es: Seq<Element>)
    ensures
        elements_view(es).len() == es.len(),
        forall|i: int| 0 <= i < es.len() ==> #[trigger] elements_view(es)[i] == element_view(es[i]),
    decreases es.len(),
{
    if es.len() > 0 {
        lemma_view_index(es.drop_last());
    }
}

/// The view of the first `i + 1` elements is that of the first `i` and the
/// view of the next.
pub proof fn lemma_view_prefix(es: Seq<Element>, i: int)
    requires
        0 <= i < es.len(),
    ensures
        elements_view(es.subrange(0, i + 1)) == elements_view(es.subrange(0, i)).push(
            element_view(es[i]),
        ),
        elements_view(es.subrange(0, i + 1)) == elements_view(es).subrange(0, i + 1),
        elements_view(es.subrange(0, i)) == elements_view(es).subrange(0, i),
{
    assert(es.subrange(0, i + 1).drop_last() =~= es.subrange(0, i));
    lemma_view_index(es);
    lemma_view_index(es.subrange(0, i + 1));
    lemma_view_index(es.subrange(0, i));
    assert(elements_view(es.subrange(0, i + 1)) =~= elements_view(es).subrange(0, i + 1));
    assert(elements_view(es.subrange(0, i)) =~= elements_view(es).subrange(0, i));
}

/// Parses one frame that starts at `start`; see `parse_seq`.
fn parse_frame(tokens: &Vec<Token>, start: usize, frame: Frame) -> (r: Result<Section, ParseError>)
    requires
        start <= tokens.len(),
    ensures
        r is Ok == parse_seq(tokens@, start as int, frame, Seq::empty()) is Ok,
        r is Ok ==> {
            let p = parse_seq(tokens@, start as int, frame, Seq::empty())->Ok_0;
            &&& elements_view(r->Ok_0.elems@) == p.elems
            &&& r->Ok_0.end == p.end
            &&& start <= r->Ok_0.end <= tokens.len()
            &&& frame != Frame::Pattern ==> start < r->Ok_0.end
        },
        r is Err ==> r->Err_0 == parse_seq(tokens@, start as int, frame, Seq::empty())->Err_0,
    decreases tokens.len() - start,
{
    let mut elems: Vec<Element> = Vec::new();
    let mut idx: usize = start;
    while idx < tokens.len()
        invariant
            start <= idx <= tokens.len(),
            parse_seq(tokens@, start as int, frame, Seq::empty()) == parse_seq(
                tokens@,
                idx as int,
                frame,
                elements_view(elems@),
            ),
        decreases tokens.len() - idx,
    {
        match tokens[idx] {
            Token::AlternationStart => {
                if elems.len() == 0 {
                    return Err(ParseError::MissingAlternationAnchor);
                }
                let inner = match parse_frame(tokens, idx + 1, Frame::Alternation) {
                    Ok(s) => s,
                    Err(e) => {
                        return Err(e);
                    },
                };
                let ghost before = elems@;
                let anchor = elems.pop().unwrap();
                proof {
                    assert(before =~= elems@.push(anchor));
                    lemma_view_push(elems@, anchor);
                    assert(elements_view(before).drop_last() =~= elements_view(elems@));
                }
                let alt = Element::Alternation((Box::new(anchor), inner.elems));
                proof {
                    lemma_view_push(elems@, alt);
                }
                elems.push(alt);
                idx = inner.end;
            },
            Token::AlternationEnd => {
                match frame {
                    Frame::Alternation => {
                        return Ok(Section { elems, end: idx + 1 });
                    },
                    _ => {
                        return Err(ParseError::MissingAlternationDelimiter);
                    },
                }
            },
            Token::GroupStart => {
                let inner = match parse_frame(tokens, idx + 1, Frame::Group) {
                    Ok(s) => s,
                    Err(e) => {
                        return Err(e);
                    },
                };
                let group = Element::Group(inner.elems);
                proof {
                    lemma_view_push(elems@, group);
                }
                elems.push(group);
                idx = inner.end;
            },
            Token::GroupEnd => {
                match frame {
                    Frame::Group => {
                        return Ok(Section { elems, end: idx + 1 });
                    },
                    _ => {
                        return Err(ParseError::MissingGroupDelimiter);
                    },
                }
            },
            Token::NoteExpr(note) => {
                proof {
                    lemma_view_push(elems@, Element::Note(note));
                }
                elems.push(Element::Note(note));
                idx += 1;
            },
            Token::Rest => {
                proof {
                    lemma_view_push(elems@, Element::Rest);
                }
                elems.push(Element::Rest);
                idx += 1;
            },
            Token::Tie => {
                proof {
                    lemma_view_push(elems@, Element::Tie);
                }
                elems.push(Element::Tie);
                idx += 1;
            },
            _ => {
                idx += 1;
            },
        }
    }
    match frame {
        Frame::Pattern => Ok(Section { elems, end: idx }),
        Frame::Group => Err(ParseError::MissingGroupDelimiter),
        Frame::Alternation => Err(ParseError::MissingAlternationDelimiter),
    }
}

/// A copy of an element and all below it.
pub fn copy_element(e: &Element) -> (r: Element)
    ensures
        element_view(r) == element_view(*e),
    decreases e,
{
    match e {
        Element::Alternation(pair) => {
            let anchor = copy_element(&pair.0);
            let branches = copy_elements(&pair.1);
            Element::Alternation((Box::new(anchor), branches))
        },
        Element::Group(es) => Element::Group(copy_elements(es)),
        Element::Note(n) => Element::Note(*n),
        Element::Rest => Element::Rest,
        Element::Tie => Element::Tie,
    }
}

/// A copy of a list of elements and all below them.
pub fn copy_elements(es: &Vec<Element>) -> (r: Vec<Element>)
    ensures
        elements_view(r@) == elements_view(es@),
    decreases es,
{
    let mut out: Vec<Element> = Vec::new();
    let mut i: usize = 0;
    assert(es@.subrange(0, 0) =~= Seq::empty());
    while i < es.len()
        invariant
            i <= es.len(),
            elements_view(out@) == elements_view(es@.subrange(0, i as int)),
        decreases es.len() - i,
    {
        let c = copy_element(&es[i]);
        proof {
            lemma_view_push(out@, c);
            lemma_view_push(es@.subrange(0, i as int), es@[i as int]);
            assert(es@.subrange(0, i as int).push(es@[i as int]) =~= es@.subrange(0, i + 1));
        }
        out.push(c);
        i += 1;
    }
    assert(es@.subrange(0, i as int) =~= es@);
    out
}

impl Clone for Element {
    fn clone(&self) -> (r: Element)
        ensures
            element_view(r) == element_view(*self),
    {
        copy_element(self)
    }
}

/// The parser before it has been set up.
pub struct ParsingStart;

/// The parser ready for the tokens of a pattern.
pub struct ParsingPattern;

/// The parser with the elements it has found.
pub struct ParsingEnd {
    elems: Vec<Element>,
}

/// The parser, in the state that its type names.
pub struct Parser<State> {
    state: State,
}

impl Parser<ParsingStart> {
    /// A parser ready for the tokens of a pattern.
    pub fn new() -> (r: Parser<ParsingPattern>) {
        Parser { state: ParsingPattern }
    }
}

impl Parser<ParsingPattern> {
    /// Parses the tokens of a whole pattern.
    pub fn parse(&mut self, tokens: Vec<Token>) -> (r: Result<Parser<ParsingEnd>, ParseError>)
        ensures
            r is Ok == parse_spec(tokens@) is Ok,
            r is Ok ==> r->Ok_0.elements() == parse_spec(tokens@)->Ok_0,
            r is Err ==> r->Err_0 == parse_spec(tokens@)->Err_0,
    {
        match parse_frame(&tokens, 0, Frame::Pattern) {
            Ok(section) => Ok(Parser { state: ParsingEnd { elems: section.elems } }),
            Err(e) => Err(e),
        }
    }
}

impl Parser<ParsingEnd> {
    /// The elements that were found, as a mathematical value.
    pub closed spec fn elements(&self) -> Seq<ElementView> {
        elements_view(self.state.elems@)
    }

    /// The elements that were found.
    pub fn get_elements(&self) -> (r: Vec<Element>)
        ensures
            elements_view(r@) == self.elements(),
    {
        copy_elements(&self.state.elems)
    }
}

} // verus!
