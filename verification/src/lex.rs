//! The words of the pattern language: notes, rests, ties, brackets, and the
//! short forms for ties and repeats.
use vstd::prelude::*;
use crate::dur::Dur;
use crate::parse::ParseError;
use crate::pattern::Note;

verus! {

/// The octave of a note that names none.
pub const DEFAULT_OCTAVE: i32 = 3;

/// The velocity of a note that names none, in hundredths of full scale.
pub const DEFAULT_VELOCITY: u8 = 80;

/// The pitch class that stands for "a step of the scale", to be resolved later.
pub const SCALES_PITCH_CLASS: i32 = 130;

/// A word of the pattern language. The short forms carry a count: a note tied
/// over so many places, a note or a rest that many times, a note that many
/// times in a group of its own.
#[derive(Clone, Copy, Debug, PartialEq, Eq)]
pub enum Token {
    AlternationStart,
    AlternationEnd,
    GroupStart,
    GroupEnd,
    NoteRepeat((Note, u32)),
    NoteRepeatGrouped((Note, u32)),
    NoteTie((Note, u32)),
    NoteExpr(Note),
    RestRepeat(u32),
    RestTie(u32),
    Rest,
    Tie,
}

/// `c` lies between `lo` and `hi`, both included.
pub open spec fn between(c: char, lo: char, hi: char) -> bool {
    lo as int <= c as int <= hi as int
}

fn is_between(c: char, lo: char, hi: char) -> (b: bool)
    ensures
        b == between(c, lo, hi),
{
    (lo as u32) <= (c as u32) && (c as u32) <= (hi as u32)
}

/// The character at `i`, or `None` past the end.
pub open spec fn at(s: Seq<char>, i: int) -> Option<char> {
    if 0 <= i < s.len() {
        Some(s[i])
    } else {
        None
    }
}

fn char_at(s: &Vec<char>, i: usize) -> (r: Option<char>)
    ensures
        r == at(s@, i as int),
{
    if i < s.len() {
        Some(s[i])
    } else {
        None
    }
}

/// The pitch class that a letter names.
pub open spec fn pitch_class_of(c: char) -> Option<int> {
    if c == 'C' {
        Some(0)
    } else if c == 'D' {
        Some(2)
    } else if c == 'E' {
        Some(4)
    } else if c == 'F' {
        Some(5)
    } else if c == 'G' {
        Some(7)
    } else if c == 'A' {
        Some(9)
    } else if c == 'B' {
        Some(11)
    } else if c == 'S' {
        Some(130)
    } else {
        None
    }
}

fn pitch_class(c: char) -> (r: Option<i32>)
    ensures
        r is Some == pitch_class_of(c) is Some,
        r is Some ==> r->0 == pitch_class_of(c)->0,
{
    if c == 'C' {
        Some(0)
    } else if c == 'D' {
        Some(2)
    } else if c == 'E' {
        Some(4)
    } else if c == 'F' {
        Some(5)
    } else if c == 'G' {
        Some(7)
    } else if c == 'A' {
        Some(9)
    } else if c == 'B' {
        Some(11)
    } else if c == 'S' {
        Some(SCALES_PITCH_CLASS)
    } else {
        None
    }
}

/// The characters of a string.
pub fn chars_of(s: &str) -> (v: Vec<char>)
    ensures
        v@ == s@,
{
    broadcast use vstd::string::axiom_spec_iter;

    let mut v: Vec<char> = Vec::new();
    for c in it: s.chars()
        invariant
            v@ == it.seq().subrange(0, it.index() as int),
            it.seq() == s@,
    {
        v.push(c);
        assert(v@ =~= it.seq().subrange(0, it.index() + 1));
    }
    assert(v@ =~= s@);
    v
}

/// The pitch class that the first letter of `input` names; zero for the empty
/// string.
pub fn get_pitch_class(input: &str) -> (r: i32)
    requires
        input@.len() > 0 ==> pitch_class_of(input@[0]) is Some,
    ensures
        r == (if input@.len() == 0 {
            0
        } else {
            pitch_class_of(input@[0])->0
        }),
{
    let chars = chars_of(input);
    if chars.len() == 0 {
        0
    } else {
        pitch_class(chars[0]).unwrap()
    }
}

/// Whether a pitch class is one of the seven letters' own, and so can be sharp.
pub fn is_diatonic(pitch_class: i32) -> (b: bool)
    ensures
        b == (pitch_class != 130),
{
    pitch_class != SCALES_PITCH_CLASS
}

/// Whether a note number is the scale's pitch class in some octave: 106 or
/// more, and a whole number of octaves above it.
pub fn is_scale(note_num: i32) -> (b: bool)
    ensures
        b == (note_num >= 106 && (note_num - 106) % 12 == 0),
{
    note_num >= 106 && (note_num - 106) % 12 == 0
}

/// The velocity that a letter or the digit zero names, in hundredths: the
/// letter's place in the alphabet over 27, rounded to the nearest hundredth.
pub open spec fn velocity_of(c: char) -> int {
    if c == '0' {
        0
    } else {
        (200 * (c as int - 96) + 27) / 54
    }
}

/// A character that names a velocity: the digit zero or a small letter.
pub open spec fn is_velocity_char(c: char) -> bool {
    c == '0' || between(c, 'a', 'z')
}

/// The velocity that a letter or the digit zero names, in hundredths of full
/// scale.
pub fn get_velocity(c: char) -> (r: u8)
    requires
        is_velocity_char(c),
    ensures
        r == velocity_of(c),
{
    if c == '0' {
        0
    } else {
        let k: u32 = (c as u32) - 96;
        ((200 * k + 27) / 54) as u8
    }
}

/// A note read from the text, and where the reading stopped.
pub struct NoteScan {
    pub note: Note,
    pub end: int,
}

/// Where the octave that starts at `p` ends: behind `-1`, `-2` or one digit
/// from 0 to 7; at `p` where there is none.
pub open spec fn octave_end(s: Seq<char>, p: int) -> int {
    if at(s, p) == Some('-') && at(s, p + 1) is Some && between(at(s, p + 1)->0, '1', '2') {
        p + 2
    } else if at(s, p) is Some && between(at(s, p)->0, '0', '7') {
        p + 1
    } else {
        p
    }
}

/// The octave that starts at `p`; the default where there is none.
pub open spec fn octave_at(s: Seq<char>, p: int) -> int {
    if octave_end(s, p) == p + 2 {
        -(s[p + 1] as int - 48)
    } else if octave_end(s, p) == p + 1 {
        s[p] as int - 48
    } else {
        3
    }
}

/// Reads a note at `pos`: a letter, a sharp, an octave and a velocity, each of
/// which may be missing, each taken where it can be.
pub open spec fn scan_note(s: Seq<char>, pos: int) -> NoteScan {
    let named = at(s, pos) is Some && pitch_class_of(at(s, pos)->0) is Some;
    let class = if named {
        pitch_class_of(s[pos])->0
    } else {
        0
    };
    let behind_letter = if named {
        pos + 1
    } else {
        pos
    };
    let sharp = at(s, behind_letter) == Some('\'');
    let behind_sharp = if sharp {
        behind_letter + 1
    } else {
        behind_letter
    };
    let octave = octave_at(s, behind_sharp);
    let behind_octave = octave_end(s, behind_sharp);
    let loud = at(s, behind_octave) is Some && is_velocity_char(at(s, behind_octave)->0);
    let velocity = if loud {
        velocity_of(s[behind_octave])
    } else {
        80
    };
    let behind_velocity = if loud {
        behind_octave + 1
    } else {
        behind_octave
    };
    let pitch = (if sharp && class != 130 {
        class + 1
    } else {
        class
    }) + 12 * (octave + 2);
    NoteScan {
        note: Note {
            note_num: pitch as u8,
            dur: Dur { num: 1, den: 2 },
            velocity: velocity as u8,
        },
        end: behind_velocity,
    }
}

/// Where the run of digits that starts at `pos` ends.
pub open spec fn digits_end(s: Seq<char>, pos: int) -> int
    decreases s.len() - pos,
{
    if 0 <= pos < s.len() && between(s[pos], '0', '9') {
        digits_end(s, pos + 1)
    } else {
        pos
    }
}

/// The number that the digits from `from` up to `to` write.
pub open spec fn digits_value(s: Seq<char>, from: int, to: int) -> int
    decreases to - from,
{
    if to <= from {
        0
    } else {
        digits_value(s, from, to - 1) * 10 + (s[to - 1] as int - 48)
    }
}

/// The number behind the mark at `pos`, where `mark` stands there with a digit
/// behind it: the number, and where it ends.
pub open spec fn marked_number(s: Seq<char>, pos: int, mark: char) -> Option<Marked> {
    if at(s, pos) == Some(mark) && digits_end(s, pos + 1) > pos + 1 {
        Some(
            Marked {
                value: digits_value(s, pos + 1, digits_end(s, pos + 1)),
                end: digits_end(s, pos + 1),
            },
        )
    } else {
        None
    }
}

/// A number behind its mark, and where it ends.
pub struct Marked {
    pub value: int,
    pub end: int,
}

struct Scanned {
    note: Note,
    end: usize,
}

/// Reads a note at `pos`; see `scan_note`.
fn read_note(s: &Vec<char>, pos: usize) -> (r: Scanned)
    requires
        pos <= s.len(),
    ensures
        r.note == scan_note(s@, pos as int).note,
        r.end == scan_note(s@, pos as int).end,
        pos <= r.end <= s.len(),
{
    let mut p: usize = pos;
    let mut class: i32 = 0;
    match char_at(s, p) {
        Some(c) => match pitch_class(c) {
            Some(k) => {
                class = k;
                p += 1;
            },
            None => {},
        },
        None => {},
    }
    let mut sharp = false;
    match char_at(s, p) {
        Some(c) => if c == '\'' {
            sharp = true;
            p += 1;
        },
        None => {},
    }
    let mut octave: i32 = DEFAULT_OCTAVE;
    let ghost octave_from = p as int;
    match char_at(s, p) {
        Some(c) => {
            if c == '-' {
                if p + 1 < s.len() && is_between(s[p + 1], '1', '2') {
                    octave = -(((s[p + 1] as u32) - 48) as i32);
                    p += 2;
                }
            } else if is_between(c, '0', '7') {
                octave = ((c as u32) - 48) as i32;
                p += 1;
            }
        },
        None => {},
    }
    assert(p == octave_end(s@, octave_from) && octave == octave_at(s@, octave_from));
    let mut velocity: u8 = DEFAULT_VELOCITY;
    match char_at(s, p) {
        Some(c) => if c == '0' || is_between(c, 'a', 'z') {
            velocity = get_velocity(c);
            p += 1;
        },
        None => {},
    }
    if sharp && is_diatonic(class) {
        class += 1;
    }
    let pitch: i32 = class + 12 * (octave + 2);
    Scanned { note: Note { note_num: pitch as u8, dur: Dur { num: 1, den: 2 }, velocity }, end: p }
}

/// A number read from the text, and where the reading stopped.
struct Number {
    value: Option<u32>,
    end: usize,
}

/// Reads the run of digits at `pos`: where it ends, and the number it writes
/// where that fits in 32 bits.
fn read_digits(s: &Vec<char>, pos: usize) -> (r: Number)
    requires
        pos <= s.len(),
    ensures
        r.end == digits_end(s@, pos as int),
        pos <= r.end <= s.len(),
        0 <= digits_value(s@, pos as int, r.end as int),
        r.value == (if digits_value(s@, pos as int, r.end as int) <= u32::MAX {
            Some(digits_value(s@, pos as int, r.end as int) as u32)
        } else {
            None
        }),
{
    let mut p: usize = pos;
    let mut value: u64 = 0;
    let mut fits = true;
    while p < s.len() && is_between(s[p], '0', '9')
        invariant
            pos <= p <= s.len(),
            digits_end(s@, pos as int) == digits_end(s@, p as int),
            0 <= digits_value(s@, pos as int, p as int),
            fits ==> value == digits_value(s@, pos as int, p as int) && value <= u32::MAX,
            !fits ==> digits_value(s@, pos as int, p as int) > u32::MAX,
        decreases s.len() - p,
    {
        let d: u64 = ((s[p] as u32) - 48) as u64;
        if fits {
            value = value * 10 + d;
            if value > 0xffff_ffff {
                fits = false;
            }
        }
        p += 1;
    }
    Number { value: if fits { Some(value as u32) } else { None }, end: p }
}

/// The mark at `pos` with its number, where one stands there: the number where
/// it fits in 32 bits, and where it ends.
fn read_marked(s: &Vec<char>, pos: usize, mark: char) -> (r: Option<Number>)
    requires
        pos <= s.len(),
    ensures
        r is Some == marked_number(s@, pos as int, mark) is Some,
        r is Some ==> {
            &&& r->0.end == marked_number(s@, pos as int, mark)->Some_0.end
            &&& pos + 1 < r->0.end <= s.len()
            &&& 0 <= marked_number(s@, pos as int, mark)->Some_0.value
            &&& r->0.value == (if marked_number(s@, pos as int, mark)->Some_0.value <= u32::MAX {
                Some(marked_number(s@, pos as int, mark)->Some_0.value as u32)
            } else {
                None
            })
        },
{
    match char_at(s, pos) {
        Some(c) => {
            if c == mark {
                let n = read_digits(s, pos + 1);
                if n.end > pos + 1 {
                    Some(n)
                } else {
                    None
                }
            } else {
                None
            }
        },
        None => None,
    }
}

/// White space: blank, tab, carriage return, line feed, form feed.
pub open spec fn is_space(c: char) -> bool {
    c == ' ' || c == '\t' || c == '\r' || c == '\n' || c as int == 12
}

/// A token read from the text, and where the reading stopped.
pub struct TokenScan {
    pub token: Token,
    pub end: int,
}

/// A number from the text as a count, where it fits in 32 bits.
pub open spec fn count_of(n: int) -> Option<u32> {
    if 0 <= n <= u32::MAX {
        Some(n as u32)
    } else {
        None
    }
}

/// The token that starts at `pos`, the longest that the text allows there;
/// `None` where no token starts there or its number does not fit in 32 bits.
pub open spec fn scan_token(s: Seq<char>, pos: int) -> Option<TokenScan> {
    let c = s[pos];
    if c == '<' {
        Some(TokenScan { token: Token::AlternationStart, end: pos + 1 })
    } else if c == '>' {
        Some(TokenScan { token: Token::AlternationEnd, end: pos + 1 })
    } else if c == '[' {
        Some(TokenScan { token: Token::GroupStart, end: pos + 1 })
    } else if c == ']' {
        Some(TokenScan { token: Token::GroupEnd, end: pos + 1 })
    } else if c == '_' {
        Some(TokenScan { token: Token::Tie, end: pos + 1 })
    } else if c == '.' {
        if marked_number(s, pos + 1, ':') is Some {
            let m = marked_number(s, pos + 1, ':')->Some_0;
            match count_of(m.value) {
                Some(n) => Some(TokenScan { token: Token::RestRepeat(n), end: m.end }),
                None => None,
            }
        } else if marked_number(s, pos + 1, '@') is Some {
            let m = marked_number(s, pos + 1, '@')->Some_0;
            match count_of(m.value) {
                Some(n) => Some(TokenScan { token: Token::RestTie(n), end: m.end }),
                None => None,
            }
        } else {
            Some(TokenScan { token: Token::Rest, end: pos + 1 })
        }
    } else {
        let sc = scan_note(s, pos);
        if marked_number(s, sc.end, '@') is Some {
            let m = marked_number(s, sc.end, '@')->Some_0;
            match count_of(m.value) {
                Some(n) => Some(TokenScan { token: Token::NoteTie((sc.note, n)), end: m.end }),
                None => None,
            }
        } else if marked_number(s, sc.end, ':') is Some {
            let m = marked_number(s, sc.end, ':')->Some_0;
            match count_of(m.value) {
                Some(n) => Some(TokenScan { token: Token::NoteRepeat((sc.note, n)), end: m.end }),
                None => None,
            }
        } else if marked_number(s, sc.end, ';') is Some {
            let m = marked_number(s, sc.end, ';')->Some_0;
            match count_of(m.value) {
                Some(n) => Some(
                    TokenScan { token: Token::NoteRepeatGrouped((sc.note, n)), end: m.end },
                ),
                None => None,
            }
        } else if sc.end > pos {
            Some(TokenScan { token: Token::NoteExpr(sc.note), end: sc.end })
        } else {
            None
        }
    }
}

/// The tokens of the text from `pos` on, white space left out; `None` where
/// something in it is no token.
pub open spec fn lex_from(s: Seq<char>, pos: int) -> Option<Seq<Token>>
    decreases s.len() - pos,
{
    if pos < 0 || pos >= s.len() {
        Some(Seq::empty())
    } else if is_space(s[pos]) {
        lex_from(s, pos + 1)
    } else {
        match scan_token(s, pos) {
            Some(sc) => if pos < sc.end <= s.len() {
                match lex_from(s, sc.end) {
                    Some(rest) => Some(seq![sc.token] + rest),
                    None => None,
                }
            } else {
                None
            },
            None => None,
        }
    }
}

/// The tokens of a pattern text, or `LexFailure`.
pub open spec fn lex_spec(s: Seq<char>) -> Result<Seq<Token>, ParseError> {
    match lex_from(s, 0) {
        Some(tokens) => Ok(tokens),
        None => Err(ParseError::LexFailure),
    }
}

struct Lexeme {
    token: Token,
    end: usize,
}

/// A count token, where the number fits.
fn counted(n: Number, token_of: Token) -> (r: Option<Lexeme>)
    ensures
        r == (match n.value {
            Some(v) => Some(Lexeme { token: with_count(token_of, v), end: n.end }),
            None => None,
        }),
{
    match n.value {
        Some(v) => {
            let token = match token_of {
                Token::RestRepeat(_) => Token::RestRepeat(v),
                Token::RestTie(_) => Token::RestTie(v),
                Token::NoteTie(p) => Token::NoteTie((p.0, v)),
                Token::NoteRepeat(p) => Token::NoteRepeat((p.0, v)),
                Token::NoteRepeatGrouped(p) => Token::NoteRepeatGrouped((p.0, v)),
                other => other,
            };
            Some(Lexeme { token, end: n.end })
        },
        None => None,
    }
}

/// `t` with the count `v` in place of its own; `t` itself where it has none.
pub open spec fn with_count(t: Token, v: u32) -> Token {
    match t {
        Token::RestRepeat(_) => Token::RestRepeat(v),
        Token::RestTie(_) => Token::RestTie(v),
        Token::NoteTie(p) => Token::NoteTie((p.0, v)),
        Token::NoteRepeat(p) => Token::NoteRepeat((p.0, v)),
        Token::NoteRepeatGrouped(p) => Token::NoteRepeatGrouped((p.0, v)),
        other => other,
    }
}

/// Reads the token at `pos`; see `scan_token`.
fn read_token(s: &Vec<char>, pos: usize) -> (r: Option<Lexeme>)
    requires
        pos < s.len(),
    ensures
        r is Some == scan_token(s@, pos as int) is Some,
        r is Some ==> r->0.token == scan_token(s@, pos as int)->0.token && r->0.end == scan_token(
            s@,
            pos as int,
        )->0.end && r->0.end <= s.len(),
{
    let c = s[pos];
    if c == '<' {
        Some(Lexeme { token: Token::AlternationStart, end: pos + 1 })
    } else if c == '>' {
        Some(Lexeme { token: Token::AlternationEnd, end: pos + 1 })
    } else if c == '[' {
        Some(Lexeme { token: Token::GroupStart, end: pos + 1 })
    } else if c == ']' {
        Some(Lexeme { token: Token::GroupEnd, end: pos + 1 })
    } else if c == '_' {
        Some(Lexeme { token: Token::Tie, end: pos + 1 })
    } else if c == '.' {
        match read_marked(s, pos + 1, ':') {
            Some(n) => counted(n, Token::RestRepeat(0)),
            None => match read_marked(s, pos + 1, '@') {
                Some(n) => counted(n, Token::RestTie(0)),
                None => Some(Lexeme { token: Token::Rest, end: pos + 1 }),
            },
        }
    } else {
        let sc = read_note(s, pos);
        match read_marked(s, sc.end, '@') {
            Some(n) => counted(n, Token::NoteTie((sc.note, 0))),
            None => match read_marked(s, sc.end, ':') {
                Some(n) => counted(n, Token::NoteRepeat((sc.note, 0))),
                None => match read_marked(s, sc.end, ';') {
                    Some(n) => counted(n, Token::NoteRepeatGrouped((sc.note, 0))),
                    None => if sc.end > pos {
                        Some(Lexeme { token: Token::NoteExpr(sc.note), end: sc.end })
                    } else {
                        None
                    },
                },
            },
        }
    }
}

fn is_white(c: char) -> (b: bool)
    ensures
        b == is_space(c),
{
    c == ' ' || c == '\t' || c == '\r' || c == '\n' || (c as u32) == 12
}

/// The tokens of a pattern text. White space separates tokens and is left out;
/// where several tokens could start at one place, the longest is taken.
/// `LexFailure` where something in the text is no token, or a count does not
/// fit in 32 bits.
pub fn lex(def: &str) -> (r: Result<Vec<Token>, ParseError>)
    ensures
        r is Ok == lex_spec(def@) is Ok,
        r is Ok ==> r->Ok_0@ == lex_spec(def@)->Ok_0,
        r is Err ==> r->Err_0 == ParseError::LexFailure,
{
    let chars = chars_of(def);
    let mut tokens: Vec<Token> = Vec::new();
    let mut pos: usize = 0;
    while pos < chars.len()
        invariant
            pos <= chars.len(),
            chars@ == def@,
            lex_from(def@, 0) == (match lex_from(def@, pos as int) {
                Some(rest) => Some(tokens@ + rest),
                None => None,
            }),
        decreases chars.len() - pos,
    {
        if is_white(chars[pos]) {
            pos += 1;
        } else {
            match read_token(&chars, pos) {
                Some(lexeme) => {
                    if lexeme.end <= pos {
                        return Err(ParseError::LexFailure);
                    }
                    proof {
                        match lex_from(def@, lexeme.end as int) {
                            Some(rest) => {
                                assert(tokens@ + (seq![lexeme.token] + rest) =~= tokens@.push(
                                    lexeme.token,
                                ) + rest);
                            },
                            None => {},
                        }
                    }
                    tokens.push(lexeme.token);
                    pos = lexeme.end;
                },
                None => {
                    return Err(ParseError::LexFailure);
                },
            }
        }
    }
    assert(tokens@ + Seq::<Token>::empty() =~= tokens@);
    Ok(tokens)
}

/// What `parse_note` reads: a note, then its ties, its repeats and its grouped
/// repeats, each one where the text names none; `None` where the text is not
/// all of such a note, or a number does not fit in 32 bits.
pub open spec fn parse_note_spec(s: Seq<char>) -> Option<(Note, u32, u32, u32)> {
    let sc = scan_note(s, 0);
    let ties = marked_number(s, sc.end, '@');
    let behind_ties = if ties is Some {
        ties->Some_0.end
    } else {
        sc.end
    };
    let reps = marked_number(s, behind_ties, ':');
    let behind_reps = if reps is Some {
        reps->Some_0.end
    } else {
        behind_ties
    };
    let grouped = marked_number(s, behind_reps, ';');
    let behind_grouped = if grouped is Some {
        grouped->Some_0.end
    } else {
        behind_reps
    };
    let counted = (ties is Some ==> count_of(ties->Some_0.value) is Some) && (reps is Some
        ==> count_of(reps->Some_0.value) is Some) && (grouped is Some ==> count_of(
        grouped->Some_0.value,
    ) is Some);
    if behind_grouped == s.len() && counted {
        Some(
            (
                sc.note,
                if ties is Some {
                    ties->Some_0.value as u32
                } else {
                    1
                },
                if reps is Some {
                    reps->Some_0.value as u32
                } else {
                    1
                },
                if grouped is Some {
                    grouped->Some_0.value as u32
                } else {
                    1
                },
            ),
        )
    } else {
        None
    }
}

/// Reads one note with its counts from a text that holds nothing else: the
/// note, its ties, its repeats, its grouped repeats.
pub fn parse_note(def: &str) -> (r: Option<(Note, u32, u32, u32)>)
    ensures
        r == parse_note_spec(def@),
{
    let chars = chars_of(def);
    let sc = read_note(&chars, 0);
    let mut p = sc.end;
    let mut ties: u32 = 1;
    match read_marked(&chars, p, '@') {
        Some(n) => {
            match n.value {
                Some(v) => {
                    ties = v;
                },
                None => {
                    return None;
                },
            }
            p = n.end;
        },
        None => {},
    }
    let mut repeats_no_grouping: u32 = 1;
    match read_marked(&chars, p, ':') {
        Some(n) => {
            match n.value {
                Some(v) => {
                    repeats_no_grouping = v;
                },
                None => {
                    return None;
                },
            }
            p = n.end;
        },
        None => {},
    }
    let mut repeats_grouped: u32 = 1;
    match read_marked(&chars, p, ';') {
        Some(n) => {
            match n.value {
                Some(v) => {
                    repeats_grouped = v;
                },
                None => {
                    return None;
                },
            }
            p = n.end;
        },
        None => {},
    }
    if p != chars.len() {
        return None;
    }
    Some((sc.note, ties, repeats_no_grouping, repeats_grouped))
}

/// The note of a text that holds one note.
pub fn parse_note_expr(def: &str) -> (r: Option<Note>)
    ensures
        r == (match parse_note_spec(def@) {
            Some(t) => Some(t.0),
            None => None,
        }),
{
    match parse_note(def) {
        Some(tup) => Some(tup.0),
        None => None,
    }
}

/// The note and the ties of a text that holds one note.
pub fn parse_note_tie(def: &str) -> (r: Option<(Note, u32)>)
    ensures
        r == (match parse_note_spec(def@) {
            Some(t) => Some((t.0, t.1)),
            None => None,
        }),
{
    match parse_note(def) {
        Some(tup) => Some((tup.0, tup.1)),
        None => None,
    }
}

/// The note and the repeats of a text that holds one note.
pub fn parse_note_repeat(def: &str) -> (r: Option<(Note, u32)>)
    ensures
        r == (match parse_note_spec(def@) {
            Some(t) => Some((t.0, t.2)),
            None => None,
        }),
{
    match parse_note(def) {
        Some(tup) => Some((tup.0, tup.2)),
        None => None,
    }
}

/// The note and the grouped repeats of a text that holds one note.
pub fn parse_note_repeat_grouped(def: &str) -> (r: Option<(Note, u32)>)
    ensures
        r == (match parse_note_spec(def@) {
            Some(t) => Some((t.0, t.3)),
            None => None,
        }),
{
    match parse_note(def) {
        Some(tup) => Some((tup.0, tup.3)),
        None => None,
    }
}

/// The number behind the first two characters of `s`, where all that follows
/// them is digits, at least one, and the number fits in 32 bits.
pub open spec fn count_after_mark(s: Seq<char>) -> Option<u32> {
    if s.len() > 2 && digits_end(s, 2) == s.len() {
        count_of(digits_value(s, 2, s.len() as int))
    } else {
        None
    }
}

fn read_count_after_mark(def: &str) -> (r: Option<u32>)
    ensures
        r == count_after_mark(def@),
{
    let chars = chars_of(def);
    if chars.len() <= 2 {
        return None;
    }
    let n = read_digits(&chars, 2);
    if n.end != chars.len() {
        return None;
    }
    n.value
}

/// The count of a repeated rest, written `.:` and a number.
pub fn parse_rest_repeat(def: &str) -> (r: Option<u32>)
    ensures
        r == count_after_mark(def@),
{
    read_count_after_mark(def)
}

/// The count of a tied rest, written `.@` and a number.
pub fn parse_rest_tie(def: &str) -> (r: Option<u32>)
    ensures
        r == count_after_mark(def@),
{
    read_count_after_mark(def)
}

} // verus!
