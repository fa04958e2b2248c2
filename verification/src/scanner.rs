//! Lexical tokens and the scanner that produces them.
//!
//! The scanner skips white space and then takes the longest token that
//! starts where it stands: one of `+ * ( )`, a run of digits, or a run of
//! letters.  Any other character becomes an `Error` token of its own, and a
//! warning is kept for it.  The end of the input is marked by `EOF`.

use crate::text::{
    byte_offset, char_debug, char_is_whitespace, debug_char, debug_str, decimal, decimal_text,
    is_digit, is_digit_char, is_letter, is_letter_char, is_space, join3, lemma_byte_offset_grows,
    lemma_byte_offset_step, push_char, str_debug, utf8_width_of,
};
use vstd::prelude::*;
use vstd::string::StringExecFns;

verus! {

/// A lexical token.
#[derive(Debug)]
pub enum Token {
    Identifier(String),
    Number(String),
    Plus,
    Star,
    BOpen,
    BClose,
    Error(char),
    EOF,
}

/// The mathematical value of a [`Token`]: the same variants over character
/// sequences.
pub enum TokenView {
    Identifier(Seq<char>),
    Number(Seq<char>),
    Plus,
    Star,
    BOpen,
    BClose,
    Error(char),
    EOF,
}

impl Clone for Token {
    fn clone(&self) -> (copy: Token)
        ensures
            copy == *self,
    {
        match self {
            Token::Identifier(s) => Token::Identifier(s.clone()),
            Token::Number(s) => Token::Number(s.clone()),
            Token::Plus => Token::Plus,
            Token::Star => Token::Star,
            Token::BOpen => Token::BOpen,
            Token::BClose => Token::BClose,
            Token::Error(c) => Token::Error(*c),
            Token::EOF => Token::EOF,
        }
    }
}

impl View for Token {
    type V = TokenView;

    open spec fn view(&self) -> TokenView {
        match *self {
            Token::Identifier(s) => TokenView::Identifier(s@),
            Token::Number(s) => TokenView::Number(s@),
            Token::Plus => TokenView::Plus,
            Token::Star => TokenView::Star,
            Token::BOpen => TokenView::BOpen,
            Token::BClose => TokenView::BClose,
            Token::Error(c) => TokenView::Error(c),
            Token::EOF => TokenView::EOF,
        }
    }
}

/// The text that `{:?}` formatting gives for a token: the variant's name,
/// followed in parentheses by its payload's own `{:?}` text.
pub open spec fn token_debug(t: TokenView) -> Seq<char> {
    match t {
        TokenView::Identifier(s) => "Identifier("@ + str_debug(s) + ")"@,
        TokenView::Number(s) => "Number("@ + str_debug(s) + ")"@,
        TokenView::Plus => "Plus"@,
        TokenView::Star => "Star"@,
        TokenView::BOpen => "BOpen"@,
        TokenView::BClose => "BClose"@,
        TokenView::Error(c) => "Error("@ + char_debug(c) + ")"@,
        TokenView::EOF => "EOF"@,
    }
}

impl Token {
    /// The token as `{:?}` formatting shows it.
    pub fn debug_text(&self) -> (out: String)
        ensures
            out@ == token_debug(self@),
    {
        match self {
            Token::Identifier(s) => {
                let inner = debug_str(s.as_str());
                join3("Identifier(", inner.as_str(), ")")
            },
            Token::Number(s) => {
                let inner = debug_str(s.as_str());
                join3("Number(", inner.as_str(), ")")
            },
            Token::Plus => "Plus".to_owned(),
            Token::Star => "Star".to_owned(),
            Token::BOpen => "BOpen".to_owned(),
            Token::BClose => "BClose".to_owned(),
            Token::Error(c) => {
                let inner = debug_char(*c);
                join3("Error(", inner.as_str(), ")")
            },
            Token::EOF => "EOF".to_owned(),
        }
    }
}

/// The views of a sequence of tokens, element by element.
pub open spec fn token_views(tokens: Seq<Token>) -> Seq<TokenView> {
    Seq::new(tokens.len(), |i: int| tokens[i]@)
}

/// A class of characters of which the scanner takes whole runs.
#[derive(Debug, Clone, Copy)]
pub enum CharKind {
    Space,
    Digit,
    Letter,
}

/// `c` belongs to the class `kind`.
pub open spec fn has_kind(kind: CharKind, c: char) -> bool {
    match kind {
        CharKind::Space => is_space(c),
        CharKind::Digit => is_digit(c),
        CharKind::Letter => is_letter(c),
    }
}

impl CharKind {
    /// Tells whether `c` belongs to this class.
    pub fn holds(&self, c: char) -> (yes: bool)
        ensures
            yes == has_kind(*self, c),
    {
        match self {
            CharKind::Space => char_is_whitespace(c),
            CharKind::Digit => is_digit_char(c),
            CharKind::Letter => is_letter_char(c),
        }
    }
}

/// Where the run of characters of class `kind` that starts at `from` ends:
/// the first position from `from` on that holds no such character.
pub open spec fn run_end(s: Seq<char>, from: int, kind: CharKind) -> int
    decreases s.len() - from,
{
    if 0 <= from < s.len() && has_kind(kind, s[from]) {
        run_end(s, from + 1, kind)
    } else {
        from
    }
}

/// A run ends inside the text, holds only characters of its class, and
/// cannot be made longer.
pub proof fn lemma_run_end(s: Seq<char>, from: int, kind: CharKind)
    requires
        0 <= from <= s.len(),
    ensures
        from <= run_end(s, from, kind) <= s.len(),
        forall|k: int| from <= k < run_end(s, from, kind) ==> has_kind(kind, #[trigger] s[k]),
        run_end(s, from, kind) < s.len() ==> !has_kind(kind, s[run_end(s, from, kind)]),
    decreases s.len() - from,
{
    if from < s.len() && has_kind(kind, s[from]) {
        lemma_run_end(s, from + 1, kind);
    }
}

/// A character that is no part of any token, and the byte offset just
/// behind it.
#[derive(Debug, Clone, Copy, PartialEq, Eq, Structural)]
pub struct ScanWarning {
    pub character: char,
    pub position: usize,
}

/// The token that starts at `start`, where no white space stands, and the
/// position just behind it.
pub open spec fn token_at(s: Seq<char>, start: int) -> (TokenView, int) {
    let c = s[start];
    if c == '+' {
        (TokenView::Plus, start + 1)
    } else if c == '*' {
        (TokenView::Star, start + 1)
    } else if c == '(' {
        (TokenView::BOpen, start + 1)
    } else if c == ')' {
        (TokenView::BClose, start + 1)
    } else if is_digit(c) {
        let end = run_end(s, start + 1, CharKind::Digit);
        (TokenView::Number(s.subrange(start, end)), end)
    } else if is_letter(c) {
        let end = run_end(s, start + 1, CharKind::Letter);
        (TokenView::Identifier(s.subrange(start, end)), end)
    } else {
        (TokenView::Error(c), start + 1)
    }
}

/// A token ends behind its first character and inside the text.
pub proof fn lemma_token_at(s: Seq<char>, start: int)
    requires
        0 <= start < s.len(),
    ensures
        start < token_at(s, start).1 <= s.len(),
{
    lemma_run_end(s, start + 1, CharKind::Digit);
    lemma_run_end(s, start + 1, CharKind::Letter);
}

/// The tokens of the text `s` from position `from` on, end marker included.
pub open spec fn scanned_tokens(s: Seq<char>, from: int) -> Seq<TokenView>
    decreases s.len() - from,
{
    let start = run_end(s, from, CharKind::Space);
    if 0 <= from && start < s.len() {
        proof {
            lemma_run_end(s, from, CharKind::Space);
            lemma_token_at(s, start);
        }
        seq![token_at(s, start).0] + scanned_tokens(s, token_at(s, start).1)
    } else {
        seq![TokenView::EOF]
    }
}

/// The warnings that the token starting at `start` gives rise to: one if it
/// is an `Error` token, none otherwise.
pub open spec fn warnings_at(s: Seq<char>, start: int) -> Seq<ScanWarning> {
    match token_at(s, start).0 {
        TokenView::Error(c) => seq![
            ScanWarning { character: c, position: byte_offset(s, start + 1) as usize },
        ],
        _ => Seq::empty(),
    }
}

/// The warnings for the text `s` from position `from` on: one for each
/// character that becomes an `Error` token, in order.
pub open spec fn scanned_warnings(s: Seq<char>, from: int) -> Seq<ScanWarning>
    decreases s.len() - from,
{
    let start = run_end(s, from, CharKind::Space);
    if 0 <= from && start < s.len() {
        proof {
            lemma_run_end(s, from, CharKind::Space);
            lemma_token_at(s, start);
        }
        warnings_at(s, start) + scanned_warnings(s, token_at(s, start).1)
    } else {
        Seq::empty()
    }
}

/// The text of a warning.
pub open spec fn warning_text(warning: ScanWarning) -> Seq<char> {
    "Warning: unexpected character '"@.push(warning.character) + "' at position "@ + decimal(
        warning.position as nat,
    )
}

impl ScanWarning {
    /// The warning as one line of text.
    pub fn message(&self) -> (out: String)
        ensures
            out@ == warning_text(*self),
    {
        let mut out = "Warning: unexpected character '".to_owned();
        push_char(&mut out, self.character);
        out.append("' at position ");
        let number = decimal_text(self.position);
        out.append(number.as_str());
        out
    }
}

/// A scanner over one line of text.
pub struct Scanner {
    chars: Vec<char>,
    index: usize,
    pos: usize,
    warnings: Vec<ScanWarning>,
}

/// The mathematical value of a [`Scanner`]: its text, the number of
/// characters it has consumed, and the warnings it has kept.
pub struct ScannerView {
    pub chars: Seq<char>,
    pub index: int,
    pub warnings: Seq<ScanWarning>,
}

impl View for Scanner {
    type V = ScannerView;

    closed spec fn view(&self) -> ScannerView {
        ScannerView { chars: self.chars@, index: self.index as int, warnings: self.warnings@ }
    }
}

impl Scanner {
    /// The scanner stands inside its text, and knows the byte offset at
    /// which it stands.
    pub closed spec fn wf(&self) -> bool {
        &&& self.index <= self.chars.len()
        &&& byte_offset(self.chars@, self.chars.len() as int) <= usize::MAX
        &&& self.pos == byte_offset(self.chars@, self.index as int)
    }

    /// A scanner at the start of `input`.
    pub fn new(input: &str) -> (scanner: Scanner)
        ensures
            scanner.wf(),
            scanner@.chars == input@,
            scanner@.index == 0,
            scanner@.warnings == Seq::<ScanWarning>::empty(),
    {
        let mut chars: Vec<char> = Vec::new();
        for c in it: input.chars()
            invariant
                chars@ == it.seq().take(it.index() as int),
                it.seq() == input@,
        {
            chars.push(c);
        }
        // The text is held in memory, so its encoded length fits a `usize`.
        let _ = input.as_bytes().len();
        proof {
            assert(chars@ =~= input@);
            assert(chars@.take(chars.len() as int) =~= chars@);
            assert(chars@.take(0) =~= Seq::<char>::empty());
        }
        Scanner { chars, index: 0, pos: 0, warnings: Vec::new() }
    }

    /// The character the scanner stands at, if any is left.
    pub fn peek(&self) -> (next: Option<char>)
        requires
            self.wf(),
        ensures
            next == if self@.index < self@.chars.len() {
                Some(self@.chars[self@.index])
            } else {
                None
            },
    {
        if self.index < self.chars.len() {
            Some(self.chars[self.index])
        } else {
            None
        }
    }

    /// Consumes and returns the character the scanner stands at, if any is
    /// left.
    pub fn advance(&mut self) -> (next: Option<char>)
        requires
            old(self).wf(),
        ensures
            final(self).wf(),
            final(self)@.chars == old(self)@.chars,
            final(self)@.warnings == old(self)@.warnings,
            next == if old(self)@.index < old(self)@.chars.len() {
                Some(old(self)@.chars[old(self)@.index])
            } else {
                None
            },
            final(self)@.index == if next is Some {
                old(self)@.index + 1
            } else {
                old(self)@.index
            },
    {
        if self.index < self.chars.len() {
            let c = self.chars[self.index];
            proof {
                lemma_byte_offset_step(self.chars@, self.index as int);
                lemma_byte_offset_grows(
                    self.chars@,
                    self.index as int + 1,
                    self.chars.len() as int,
                );
            }
            self.pos = self.pos + utf8_width_of(c);
            self.index = self.index + 1;
            Some(c)
        } else {
            None
        }
    }

    /// The warnings kept so far, oldest first.
    pub fn warnings(&self) -> (kept: &Vec<ScanWarning>)
        ensures
            kept@ == self@.warnings,
    {
        &self.warnings
    }

    /// Consumes the run of characters of class `kind` that starts where the
    /// scanner stands, and appends it to `text`.
    fn take_run(&mut self, kind: CharKind, text: &mut String)
        requires
            old(self).wf(),
        ensures
            final(self).wf(),
            final(self)@.chars == old(self)@.chars,
            final(self)@.warnings == old(self)@.warnings,
            final(self)@.index == run_end(old(self)@.chars, old(self)@.index, kind),
            final(text)@ == old(text)@ + old(self)@.chars.subrange(
                old(self)@.index,
                final(self)@.index,
            ),
    {
        let ghost s = self.chars@;
        let ghost from = self.index as int;
        assert(text@ =~= old(text)@ + s.subrange(from, from));
        while self.index < self.chars.len() && kind.holds(self.chars[self.index])
            invariant
                self.wf(),
                self.chars@ == s,
                self.warnings@ == old(self).warnings@,
                0 <= from <= self.index <= s.len(),
                run_end(s, self.index as int, kind) == run_end(s, from, kind),
                text@ == old(text)@ + s.subrange(from, self.index as int),
            decreases s.len() - self.index,
        {
            let ghost before = self.index as int;
            let c = self.advance().unwrap();
            push_char(text, c);
            assert(s.subrange(from, before + 1) =~= s.subrange(from, before).push(c));
        }
    }

    /// Completes the token whose first character `c` has just been
    /// consumed.
    fn take_token(&mut self, c: char) -> (token: Token)
        requires
            old(self).wf(),
            0 < old(self)@.index,
            old(self)@.chars[old(self)@.index - 1] == c,
        ensures
            final(self).wf(),
            final(self)@.chars == old(self)@.chars,
            (token@, final(self)@.index) == token_at(old(self)@.chars, old(self)@.index - 1),
            final(self)@.warnings == old(self)@.warnings + warnings_at(
                old(self)@.chars,
                old(self)@.index - 1,
            ),
    {
        let ghost s = self.chars@;
        let ghost start = self.index as int - 1;
        if c == '+' {
            assert(self.warnings@ =~= old(self).warnings@ + warnings_at(s, start));
            Token::Plus
        } else if c == '*' {
            assert(self.warnings@ =~= old(self).warnings@ + warnings_at(s, start));
            Token::Star
        } else if c == '(' {
            assert(self.warnings@ =~= old(self).warnings@ + warnings_at(s, start));
            Token::BOpen
        } else if c == ')' {
            assert(self.warnings@ =~= old(self).warnings@ + warnings_at(s, start));
            Token::BClose
        } else if is_digit_char(c) {
            let mut text = String::new();
            push_char(&mut text, c);
            self.take_run(CharKind::Digit, &mut text);
            proof {
                lemma_run_end(s, start + 1, CharKind::Digit);
                assert(text@ =~= s.subrange(start, self.index as int));
                assert(self.warnings@ =~= old(self).warnings@ + warnings_at(s, start));
            }
            Token::Number(text)
        } else if is_letter_char(c) {
            let mut text = String::new();
            push_char(&mut text, c);
            self.take_run(CharKind::Letter, &mut text);
            proof {
                lemma_run_end(s, start + 1, CharKind::Letter);
                assert(text@ =~= s.subrange(start, self.index as int));
                assert(self.warnings@ =~= old(self).warnings@ + warnings_at(s, start));
            }
            Token::Identifier(text)
        } else {
            self.warnings.push(ScanWarning { character: c, position: self.pos });
            assert(self.warnings@ =~= old(self).warnings@ + warnings_at(s, start));
            Token::Error(c)
        }
    }

    /// Scans the rest of the text and returns its tokens, the last of which
    /// is `EOF`.  A warning is kept for every `Error` token.
    pub fn tokenize(&mut self) -> (tokens: Vec<Token>)
        requires
            old(self).wf(),
        ensures
            final(self).wf(),
            final(self)@.chars == old(self)@.chars,
            final(self)@.index == old(self)@.chars.len(),
            token_views(tokens@) == scanned_tokens(old(self)@.chars, old(self)@.index),
            final(self)@.warnings == old(self)@.warnings + scanned_warnings(
                old(self)@.chars,
                old(self)@.index,
            ),
    {
        let ghost s = self.chars@;
        let ghost origin = self.index as int;
        let ghost kept = self.warnings@;
        let mut tokens: Vec<Token> = Vec::new();
        let mut done = false;
        assert(token_views(tokens@) + scanned_tokens(s, origin) =~= scanned_tokens(s, origin));
        while !done
            invariant
                self.wf(),
                self.chars@ == s,
                done ==> self.index == s.len(),
                done ==> token_views(tokens@) == scanned_tokens(s, origin),
                done ==> self.warnings@ == kept + scanned_warnings(s, origin),
                !done ==> token_views(tokens@) + scanned_tokens(s, self.index as int)
                    == scanned_tokens(s, origin),
                !done ==> self.warnings@ + scanned_warnings(s, self.index as int) == kept
                    + scanned_warnings(s, origin),
            decreases s.len() - self.index + (if done { 0int } else { 1int }),
        {
            let ghost from = self.index as int;
            let ghost before = token_views(tokens@);
            let ghost warned = self.warnings@;
            let mut blank = String::new();
            self.take_run(CharKind::Space, &mut blank);
            let ghost start = self.index as int;
            proof {
                lemma_run_end(s, from, CharKind::Space);
            }
            match self.advance() {
                None => {
                    tokens.push(Token::EOF);
                    done = true;
                    assert(token_views(tokens@) =~= before + seq![TokenView::EOF]);
                    assert(self.warnings@ =~= warned + Seq::<ScanWarning>::empty());
                },
                Some(c) => {
                    let token = self.take_token(c);
                    let ghost shown = token@;
                    tokens.push(token);
                    proof {
                        lemma_token_at(s, start);
                        let rest = scanned_tokens(s, self.index as int);
                        assert(token_views(tokens@) =~= before + seq![shown]);
                        assert(scanned_tokens(s, from) == seq![shown] + rest);
                        assert(token_views(tokens@) + rest =~= before + scanned_tokens(s, from));
                        let more = scanned_warnings(s, self.index as int);
                        assert(self.warnings@ + more =~= warned + scanned_warnings(s, from));
                    }
                },
            }
        }
        tokens
    }
}

} // verus!
