//! Warnings and errors, and how they are shown against the source text.

use vstd::prelude::*;
use vstd::string::StringExecFns;
use vstd::string::StringSliceAdditionalSpecFns;
use vstd::utf8::{decode_utf8, is_char_boundary};
use ansi_term::{ANSIString, ANSIStrings};
use ansi_term::Color::{Purple, Red};
use ansi_term::Style;
use crate::bfir::Position;
use crate::text::{append_repeated, decimal, decimal_string, repeated};

verus! {

/// Something worth telling the user about a program.
#[derive(Debug, PartialEq, Eq)]
pub struct Warning {
    pub message: String,
    pub position: Option<Position>,
}

/// The value of a `Warning`.
pub ghost struct WarningView {
    pub message: Seq<char>,
    pub position: Option<Position>,
}

impl View for Warning {
    type V = WarningView;

    open spec fn view(&self) -> WarningView {
        WarningView { message: self.message@, position: self.position }
    }
}

impl DeepView for Warning {
    type V = WarningView;

    open spec fn deep_view(&self) -> WarningView {
        self@
    }
}

/// How serious a diagnostic is.
#[derive(Debug, Clone, Copy, PartialEq, Eq, Structural)]
pub enum Level {
    Warning,
    Error,
}

/// A diagnostic as it is shown: a warning or an error in a named file,
/// with the source text where it is at hand.
#[derive(Debug)]
pub struct Info {
    pub level: Level,
    pub filename: String,
    pub message: String,
    pub position: Option<Position>,
    pub source: Option<String>,
}

/// The byte that ends a line.
pub const NEWLINE: u8 = 10;

/// How many newlines stand before byte offset `i`: the index of its line.
pub open spec fn line_index(source: Seq<u8>, i: int) -> nat
    decreases i,
{
    if i <= 0 {
        0
    } else if i - 1 < source.len() && source[i - 1] == NEWLINE {
        line_index(source, i - 1) + 1
    } else {
        line_index(source, i - 1)
    }
}

/// The offset at which the line of byte offset `i` starts.
pub open spec fn line_start(source: Seq<u8>, i: int) -> int
    decreases i,
{
    if i <= 0 {
        0
    } else if i - 1 < source.len() && source[i - 1] == NEWLINE {
        i
    } else {
        line_start(source, i - 1)
    }
}

/// The offset of the first newline at or after `from`, or the length.
pub open spec fn line_end(source: Seq<u8>, from: int) -> int
    decreases source.len() - from,
{
    if from < 0 || from >= source.len() {
        source.len() as int
    } else if source[from] == NEWLINE {
        from
    } else {
        line_end(source, from + 1)
    }
}

/// The line and the column of byte offset `i`, both counted from 0.
pub fn position(s: &str, i: usize) -> (place: (usize, usize))
    ensures
        place.0 == line_index(s.spec_bytes(), i as int),
        place.1 == i - line_start(s.spec_bytes(), i as int),
        0 <= line_start(s.spec_bytes(), i as int) <= i,
{
    let bytes = s.as_bytes();
    let mut line_idx: usize = 0;
    let mut start: usize = 0;
    let mut j: usize = 0;
    while j < i && j < bytes.len()
        invariant
            j <= i,
            j <= bytes.len(),
            line_idx <= j,
            start <= j,
            line_idx == line_index(bytes@, j as int),
            start == line_start(bytes@, j as int),
        decreases bytes.len() - j,
    {
        if bytes[j] == NEWLINE {
            line_idx += 1;
            start = j + 1;
        }
        j += 1;
    }
    proof {
        if j < i {
            lemma_line_start_from(bytes@, i as int);
        }
    }
    (line_idx, i - start)
}

/// An offset past the end is on the last line.
pub proof fn lemma_line_start_from(source: Seq<u8>, i: int)
    requires
        i >= source.len(),
    ensures
        line_index(source, i) == line_index(source, source.len() as int),
        line_start(source, i) == line_start(source, source.len() as int),
    decreases i,
{
    if i > source.len() {
        lemma_line_start_from(source, i - 1);
    }
}

/// The text of the line that starts at byte offset `start`, up to its
/// newline; empty where `start` or the line's end splits a character.
pub open spec fn line_text(source: Seq<u8>, start: int) -> Seq<char> {
    let end = line_end(source, start);
    if 0 <= start <= source.len() && is_char_boundary(source, start) && is_char_boundary(
        source.subrange(start, source.len() as int),
        end - start,
    ) {
        decode_utf8(source.subrange(start, end))
    } else {
        Seq::empty()
    }
}

/// The text of the line that starts at byte offset `start`.
pub fn source_line(source: &str, start: usize) -> (line: String)
    ensures
        line@ == line_text(source.spec_bytes(), start as int),
{
    broadcast use vstd::utf8::encode_utf8_decode_utf8, vstd::utf8::encode_utf8_valid_utf8;

    if start > source.as_bytes().len() || !source.is_char_boundary(start) {
        return String::new();
    }
    let (_, tail) = source.split_at(start);
    let rest = tail.as_bytes();
    let ghost all = source.spec_bytes();
    assert(rest@ =~= all.subrange(start as int, all.len() as int));
    let mut k: usize = 0;
    while k < rest.len() && rest[k] != NEWLINE
        invariant
            k <= rest.len(),
            start + rest.len() == all.len(),
            rest@ == all.subrange(start as int, all.len() as int),
            line_end(all, start + k) == line_end(all, start as int),
        decreases rest.len() - k,
    {
        assert(all[start + k] == rest@[k as int]);
        k += 1;
    }
    assert(line_end(all, start as int) == start + k) by {
        if k < rest.len() {
            assert(all[start + k] == rest@[k as int]);
        }
    }
    if !tail.is_char_boundary(k) {
        return String::new();
    }
    let (line, _) = tail.split_at(k);
    assert(line.spec_bytes() =~= all.subrange(start as int, start + k));
    assert(decode_utf8(line.spec_bytes()) == line@);
    line.to_owned()
}

/// The level as it is shown between the file and the message.
pub open spec fn level_text(level: Level) -> Seq<char> {
    match level {
        Level::Warning => " warning: "@,
        Level::Error => " error: "@,
    }
}

impl Info {
    /// Whether the diagnostic can be shown against its source: it has a
    /// position and the source text is at hand.
    pub open spec fn located(&self) -> bool {
        self.position is Some && self.source is Some
    }

    /// The source text as bytes; empty if there is none.
    pub open spec fn source_bytes(&self) -> Seq<u8> {
        match self.source {
            Some(source) => vstd::utf8::encode_utf8(source@),
            None => Seq::empty(),
        }
    }

    /// The file's name, followed where the diagnostic is located by a
    /// colon, the line, a colon and the column, both counted from 1.
    pub open spec fn file_text_of(&self) -> Seq<char> {
        if self.located() {
            let at = self.position->0.start as int;
            let source = self.source_bytes();
            self.filename@ + ":"@ + decimal(line_index(source, at) as int + 1) + ":"@ + decimal(
                at - line_start(source, at) + 1,
            )
        } else {
            self.filename@
        }
    }

    /// A newline and the source line of the diagnostic, if it is located.
    pub open spec fn context_line_of(&self) -> Seq<char> {
        if self.located() {
            let at = self.position->0.start as int;
            let source = self.source_bytes();
            "\n"@ + line_text(source, line_start(source, at))
        } else {
            Seq::empty()
        }
    }

    /// A newline, spaces up to the column, a caret, and one tilde for each
    /// byte by which the position's end lies past its start.
    pub open spec fn caret_line_of(&self) -> Seq<char> {
        if self.located() {
            let range = self.position->0;
            let at = range.start as int;
            let source = self.source_bytes();
            let width = if range.end > range.start {
                (range.end - range.start) as nat
            } else {
                0
            };
            "\n"@ + repeated(" "@[0], (at - line_start(source, at)) as nat) + "^"@ + repeated(
                "~"@[0],
                width,
            )
        } else {
            Seq::empty()
        }
    }

    /// The file's name with line and column.
    pub fn file_text(&self) -> (text: String)
        ensures
            text@ == self.file_text_of(),
    {
        let mut text = self.filename.clone();
        match (&self.position, &self.source) {
            (Some(range), Some(source)) => {
                let (line_idx, column_idx) = position(source.as_str(), range.start);
                text.append(":");
                text.append(decimal_string(line_idx as i128 + 1).as_str());
                text.append(":");
                text.append(decimal_string(column_idx as i128 + 1).as_str());
            },
            _ => {},
        }
        text
    }

    /// A newline and the source line.
    pub fn context_line(&self) -> (text: String)
        ensures
            text@ == self.context_line_of(),
    {
        match (&self.position, &self.source) {
            (Some(range), Some(source)) => {
                let (_, column_idx) = position(source.as_str(), range.start);
                let mut text = String::from_str("\n");
                text.append(source_line(source.as_str(), range.start - column_idx).as_str());
                text
            },
            _ => String::new(),
        }
    }

    /// A newline and the carets under the source line.
    pub fn caret_line(&self) -> (text: String)
        ensures
            text@ == self.caret_line_of(),
    {
        proof {
            reveal_strlit(" ");
            reveal_strlit("~");
        }
        match (&self.position, &self.source) {
            (Some(range), Some(source)) => {
                let (_, column_idx) = position(source.as_str(), range.start);
                let width = if range.end > range.start {
                    range.end - range.start
                } else {
                    0
                };
                let mut text = String::from_str("\n");
                append_repeated(&mut text, " ", column_idx);
                text.append("^");
                append_repeated(&mut text, "~", width);
                text
            },
            _ => String::new(),
        }
    }

    /// The five pieces of the diagnostic as it is printed: the file text,
    /// the level and the message in bold, the level in its colour, then
    /// the source line unstyled and the caret line in the level's colour
    /// and bold.
    pub open spec fn pieces_shown(&self) -> Seq<(bool, Option<Tint>, Seq<char>)> {
        seq![
            (true, None, self.file_text_of()),
            (true, Some(tint_of(self.level)), level_text(self.level)),
            (true, None, self.message@),
            (false, None, self.context_line_of()),
            (true, Some(tint_of(self.level)), self.caret_line_of()),
        ]
    }

    /// The diagnostic as it is printed: its five pieces, painted.
    pub fn render(&self) -> (text: String)
        ensures
            text@ == painted(self.pieces_shown()),
            text@ == diagnostic_text(
                tint_of(self.level),
                self.file_text_of(),
                level_text(self.level),
                self.message@,
                self.context_line_of(),
                self.caret_line_of(),
            ),
    {
        let tint = match self.level {
            Level::Warning => Tint::Purple,
            Level::Error => Tint::Red,
        };
        let level_text = match self.level {
            Level::Warning => " warning: ",
            Level::Error => " error: ",
        };
        let mut pieces: Vec<Piece> = Vec::new();
        pieces.push(Piece { bold: true, tint: None, text: self.file_text() });
        pieces.push(Piece { bold: true, tint: Some(tint), text: String::from_str(level_text) });
        pieces.push(Piece { bold: true, tint: None, text: self.message.clone() });
        pieces.push(Piece { bold: false, tint: None, text: self.context_line() });
        pieces.push(Piece { bold: true, tint: Some(tint), text: self.caret_line() });
        assert(pieces_of(pieces@) =~= self.pieces_shown());
        paint(&pieces)
    }
}

/// The colour of a level.
#[derive(Debug, Clone, Copy, PartialEq, Eq, Structural)]
pub enum Tint {
    Purple,
    Red,
}

/// A warning is purple, an error red.
pub open spec fn tint_of(level: Level) -> Tint {
    match level {
        Level::Warning => Tint::Purple,
        Level::Error => Tint::Red,
    }
}

/// A text and how it is to be painted.
pub struct Piece {
    pub bold: bool,
    pub tint: Option<Tint>,
    pub text: String,
}

/// Pieces as plain values: whether bold, the colour if any, and the text.
pub open spec fn pieces_of(pieces: Seq<Piece>) -> Seq<(bool, Option<Tint>, Seq<char>)> {
    pieces.map_values(|piece: Piece| (piece.bold, piece.tint, piece.text@))
}

/// The number by which a terminal knows a colour.
pub open spec fn tint_code(tint: Tint) -> Seq<char> {
    match tint {
        Tint::Purple => "35"@,
        Tint::Red => "31"@,
    }
}

/// Whether pieces are styled as those of a diagnostic: bold, bold in a
/// colour, bold, unstyled, bold in the same colour.
pub open spec fn is_diagnostic(pieces: Seq<(bool, Option<Tint>, Seq<char>)>) -> bool {
    &&& pieces.len() == 5
    &&& pieces[0].0 && pieces[0].1 is None
    &&& pieces[1].0 && pieces[1].1 is Some
    &&& pieces[2].0 && pieces[2].1 is None
    &&& !pieces[3].0 && pieces[3].1 is None
    &&& pieces[4].0 && pieces[4].1 == pieces[1].1
}

/// A diagnostic as a terminal is sent it: bold is switched on before the
/// file text; the colour is added before the level; all is reset and
/// bold switched on again before the message; all is reset before the
/// source line; bold and the colour are switched on before the caret
/// line; and all is reset at the end.
pub open spec fn diagnostic_text(
    tint: Tint,
    file_text: Seq<char>,
    level_text: Seq<char>,
    message: Seq<char>,
    context_line: Seq<char>,
    caret_line: Seq<char>,
) -> Seq<char> {
    "\x1b[1m"@ + file_text + "\x1b["@ + tint_code(tint) + "m"@ + level_text + "\x1b[0m\x1b[1m"@
        + message + "\x1b[0m"@ + context_line + "\x1b[1;"@ + tint_code(tint) + "m"@ + caret_line
        + "\x1b[0m"@
}

/// What `ansi_term` writes for a sequence of pieces, each with its style.
pub uninterp spec fn painted(pieces: Seq<(bool, Option<Tint>, Seq<char>)>) -> Seq<char>;

/// `ansi_term::ANSIStrings` over the pieces, each painted by
/// `Style::paint` with a style that is bold or not and has the piece's
/// colour as its foreground, written out with `to_string`. The escape
/// codes depend on the styles alone, and `painted` names the outcome.
/// For the five styles of a diagnostic the codes are six constants:
/// the writer puts the first style's prefix first, between two pieces
/// only what the second style adds, or a reset and the second style's
/// prefix where it takes something away, and a reset at the end.
#[verifier::external_body]
fn paint(pieces: &Vec<Piece>) -> (text: String)
    ensures
        text@ == painted(pieces_of(pieces@)),
        is_diagnostic(pieces_of(pieces@)) ==> text@ == diagnostic_text(
            pieces[1].tint->0,
            pieces[0].text@,
            pieces[1].text@,
            pieces[2].text@,
            pieces[3].text@,
            pieces[4].text@,
        ),
{
    let strings: Vec<ANSIString> = pieces.iter().map(|piece| {
        let foreground = piece.tint.map(|tint| match tint {
            Tint::Purple => Purple,
            Tint::Red => Red,
        });
        Style { is_bold: piece.bold, foreground, ..Style::default() }.paint(piece.text.as_str())
    }).collect();
    ANSIStrings(&strings).to_string()
}

} // verus!
