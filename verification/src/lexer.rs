//! The scanner: from source text to tokens.
//!
//! What the scanner returns is stated by [`scan`], a function of the text
//! alone. Lines, columns and open brackets are functions of a position in
//! the text, so the statement needs no state but the position.

use vstd::prelude::*;
use crate::text::{decimal_value, is_digit, push_decimal, decimal_text};

verus! {

/// The tokens of the language.
#[derive(Debug, PartialEq, Eq)]
pub enum MiniDecafTokens {
    /// The type keyword `int`.
    Int,
    /// An integer literal.
    IntValue(i32),
    /// A name.
    Identifier(String),
    /// The keyword `return`.
    Return,
    /// `{`
    LeftBracket,
    /// `}`
    RightBracket,
    /// `(`
    LeftParenthesis,
    /// `)`
    RightParenthesis,
    /// `;`
    Semicon,
    /// `!`
    LogicalNot,
    /// `~`
    BitwiseNot,
    /// `-`
    Minus,
}

/// A token as a mathematical value: an identifier holds the sequence of its
/// characters.
pub enum Token {
    Int,
    IntValue(i32),
    Identifier(Seq<char>),
    Return,
    LeftBracket,
    RightBracket,
    LeftParenthesis,
    RightParenthesis,
    Semicon,
    LogicalNot,
    BitwiseNot,
    Minus,
}

impl View for MiniDecafTokens {
    type V = Token;

    open spec fn view(&self) -> Token {
        match self {
            MiniDecafTokens::Int => Token::Int,
            MiniDecafTokens::IntValue(v) => Token::IntValue(*v),
            MiniDecafTokens::Identifier(name) => Token::Identifier(name@),
            MiniDecafTokens::Return => Token::Return,
            MiniDecafTokens::LeftBracket => Token::LeftBracket,
            MiniDecafTokens::RightBracket => Token::RightBracket,
            MiniDecafTokens::LeftParenthesis => Token::LeftParenthesis,
            MiniDecafTokens::RightParenthesis => Token::RightParenthesis,
            MiniDecafTokens::Semicon => Token::Semicon,
            MiniDecafTokens::LogicalNot => Token::LogicalNot,
            MiniDecafTokens::BitwiseNot => Token::BitwiseNot,
            MiniDecafTokens::Minus => Token::Minus,
        }
    }
}

impl DeepView for MiniDecafTokens {
    type V = Token;

    open spec fn deep_view(&self) -> Token {
        self@
    }
}

/// Why a text could not be scanned.
#[derive(Debug, PartialEq, Eq)]
pub enum ScanError {
    /// A `}` without a `{` before it, at the place of the `}`; or a `{` that
    /// is never closed, at the place of the `{`.
    BracketNotMatchError { line: usize, column: usize },
    /// The same for `(` and `)`.
    ParenthesisNotMatchError { line: usize, column: usize },
    /// A character that starts no token.
    UnrecognizableTokenError,
    /// An integer literal above `i32::MAX`.
    NumberOverflowError,
}

impl ScanError {
    /// The description of the error.
    pub open spec fn message_text(&self) -> Seq<char> {
        match self {
            ScanError::BracketNotMatchError { line, column } => "Expected bracket in line "@
                + decimal_text(*line as nat) + ",column "@ + decimal_text(*column as nat),
            ScanError::ParenthesisNotMatchError { line, column } => "Expected parenthesis in line"@
                + decimal_text(*line as nat) + ",column "@ + decimal_text(*column as nat),
            ScanError::UnrecognizableTokenError => "Unrecognizeable token"@,
            ScanError::NumberOverflowError => "number overflow"@,
        }
    }

    /// Describes the error, with the line and the column where it has them.
    pub fn message(&self) -> (text: String)
        ensures
            text@ == self.message_text(),
    {
        match self {
            ScanError::BracketNotMatchError { line, column } => {
                let mut text = "Expected bracket in line ".to_owned();
                push_decimal(&mut text, *line as u64);
                text.append(",column ");
                push_decimal(&mut text, *column as u64);
                text
            },
            ScanError::ParenthesisNotMatchError { line, column } => {
                let mut text = "Expected parenthesis in line".to_owned();
                push_decimal(&mut text, *line as u64);
                text.append(",column ");
                push_decimal(&mut text, *column as u64);
                text
            },
            ScanError::UnrecognizableTokenError => "Unrecognizeable token".to_owned(),
            ScanError::NumberOverflowError => "number overflow".to_owned(),
        }
    }
}

/// Space, tab, line feed and carriage return separate tokens.
pub open spec fn is_blank(c: char) -> bool {
    c == ' ' || c == '\t' || c == '\n' || c == '\r'
}

/// A word starts with a lower-case ASCII letter.
pub open spec fn is_lower(c: char) -> bool {
    'a' <= c <= 'z'
}

/// A word goes on with ASCII letters and digits.
pub open spec fn is_alphanumeric(c: char) -> bool {
    is_digit(c) || is_lower(c) || 'A' <= c <= 'Z'
}

/// Where the run of digits that covers position `i` ends: the first
/// position from `i` on that holds no digit, or the end of the text.
pub open spec fn digits_end(s: Seq<char>, i: int) -> int
    decreases s.len() - i,
{
    if 0 <= i < s.len() && is_digit(s[i]) {
        digits_end(s, i + 1)
    } else {
        i
    }
}

/// Where the run of letters and digits that covers position `i` ends.
pub open spec fn word_end(s: Seq<char>, i: int) -> int
    decreases s.len() - i,
{
    if 0 <= i < s.len() && is_alphanumeric(s[i]) {
        word_end(s, i + 1)
    } else {
        i
    }
}

/// How many line feeds stand before position `i`.
pub open spec fn newlines_before(s: Seq<char>, i: int) -> nat
    decreases i,
{
    if i <= 0 {
        0
    } else if s[i - 1] == '\n' {
        newlines_before(s, i - 1) + 1
    } else {
        newlines_before(s, i - 1)
    }
}

/// Where the line that holds position `i` starts: behind the last line feed
/// before `i`, or at the start of the text.
pub open spec fn line_start(s: Seq<char>, i: int) -> int
    decreases i,
{
    if i <= 0 {
        0
    } else if s[i - 1] == '\n' {
        i
    } else {
        line_start(s, i - 1)
    }
}

/// The line of position `i`; the first line is line 1.
pub open spec fn line_at(s: Seq<char>, i: int) -> int {
    (newlines_before(s, i) + 1) as int
}

/// The column of position `i`; a line starts at column 1, and every
/// character, a tab too, is one column wide.
pub open spec fn column_at(s: Seq<char>, i: int) -> int {
    i - line_start(s, i) + 1
}

/// The positions of the openers among the first `n` characters that are
/// still open after them, the innermost last. A closer closes the innermost
/// open opener; a closer with nothing to close changes nothing.
pub open spec fn unclosed(s: Seq<char>, opener: char, closer: char, n: int) -> Seq<int>
    decreases n,
{
    if n <= 0 {
        Seq::empty()
    } else {
        let before = unclosed(s, opener, closer, n - 1);
        if s[n - 1] == opener {
            before.push(n - 1)
        } else if s[n - 1] == closer && before.len() > 0 {
            before.drop_last()
        } else {
            before
        }
    }
}

/// The `{` that are open before position `n`.
pub open spec fn open_brackets(s: Seq<char>, n: int) -> Seq<int> {
    unclosed(s, '{', '}', n)
}

/// The `(` that are open before position `n`.
pub open spec fn open_parentheses(s: Seq<char>, n: int) -> Seq<int> {
    unclosed(s, '(', ')', n)
}

/// The bracket error that points at position `i`.
pub open spec fn bracket_error(s: Seq<char>, i: int) -> ScanError {
    ScanError::BracketNotMatchError {
        line: line_at(s, i) as usize,
        column: column_at(s, i) as usize,
    }
}

/// The parenthesis error that points at position `i`.
pub open spec fn parenthesis_error(s: Seq<char>, i: int) -> ScanError {
    ScanError::ParenthesisNotMatchError {
        line: line_at(s, i) as usize,
        column: column_at(s, i) as usize,
    }
}

/// The token of a word: a keyword if it is spelled like one, else an
/// identifier with that spelling.
pub open spec fn word_token(word: Seq<char>) -> Token {
    if word == "int"@ {
        Token::Int
    } else if word == "return"@ {
        Token::Return
    } else {
        Token::Identifier(word)
    }
}

/// What the scanner makes of the text at one position.
pub enum Lexeme {
    /// White space: nothing comes of it.
    Blank,
    /// A token.
    Gives(Token),
    /// The scan ends here with an error.
    Fails(ScanError),
}

/// What starts at position `i` of `s`.
pub open spec fn lexeme_at(s: Seq<char>, i: int) -> Lexeme
    recommends
        0 <= i < s.len(),
{
    let c = s[i];
    if is_blank(c) {
        Lexeme::Blank
    } else if c == '{' {
        Lexeme::Gives(Token::LeftBracket)
    } else if c == '}' {
        if open_brackets(s, i).len() > 0 {
            Lexeme::Gives(Token::RightBracket)
        } else {
            Lexeme::Fails(bracket_error(s, i))
        }
    } else if c == '(' {
        Lexeme::Gives(Token::LeftParenthesis)
    } else if c == ')' {
        if open_parentheses(s, i).len() > 0 {
            Lexeme::Gives(Token::RightParenthesis)
        } else {
            Lexeme::Fails(parenthesis_error(s, i))
        }
    } else if c == ';' {
        Lexeme::Gives(Token::Semicon)
    } else if is_digit(c) {
        let value = decimal_value(s.subrange(i, digits_end(s, i)));
        if value <= i32::MAX {
            Lexeme::Gives(Token::IntValue(value as i32))
        } else {
            Lexeme::Fails(ScanError::NumberOverflowError)
        }
    } else if is_lower(c) {
        Lexeme::Gives(word_token(s.subrange(i, word_end(s, i))))
    } else if c == '-' {
        Lexeme::Gives(Token::Minus)
    } else if c == '!' {
        Lexeme::Gives(Token::LogicalNot)
    } else if c == '~' {
        Lexeme::Gives(Token::BitwiseNot)
    } else {
        Lexeme::Fails(ScanError::UnrecognizableTokenError)
    }
}

/// Where the scanner stands after it has dealt with what starts at position
/// `i`: behind a blank or a token, behind the digits of a literal that is
/// too large, and still at `i` for a closer with nothing to close and for a
/// character that starts no token.
pub open spec fn lexeme_end(s: Seq<char>, i: int) -> int
    recommends
        0 <= i < s.len(),
{
    if is_digit(s[i]) {
        digits_end(s, i)
    } else if is_lower(s[i]) {
        word_end(s, i)
    } else if lexeme_at(s, i) is Fails {
        i
    } else {
        i + 1
    }
}

/// What the scanner reports at the end of the text: the innermost `{` that
/// is still open, else the innermost `(` that is still open, else success.
pub open spec fn end_of_text(s: Seq<char>) -> Result<Seq<Token>, ScanError> {
    let brackets = open_brackets(s, s.len() as int);
    let parentheses = open_parentheses(s, s.len() as int);
    if brackets.len() > 0 {
        Err(bracket_error(s, brackets.last()))
    } else if parentheses.len() > 0 {
        Err(parenthesis_error(s, parentheses.last()))
    } else {
        Ok(Seq::empty())
    }
}

/// `first` put before the tokens of a successful `rest`; an error stays.
pub open spec fn prepend(first: Seq<Token>, rest: Result<Seq<Token>, ScanError>) -> Result<
    Seq<Token>,
    ScanError,
> {
    match rest {
        Ok(tokens) => Ok(first + tokens),
        Err(e) => Err(e),
    }
}

/// The result of scanning `s` from position `i` on: the tokens from there to
/// the end in the order of the text, or the first error.
pub open spec fn scan_from(s: Seq<char>, i: int) -> Result<Seq<Token>, ScanError>
    decreases s.len() - i,
{
    if i < 0 || i >= s.len() {
        end_of_text(s)
    } else {
        proof {
            lemma_lexeme_end_bounds(s, i);
        }
        match lexeme_at(s, i) {
            Lexeme::Blank => scan_from(s, lexeme_end(s, i)),
            Lexeme::Gives(token) => prepend(seq![token], scan_from(s, lexeme_end(s, i))),
            Lexeme::Fails(e) => Err(e),
        }
    }
}

/// Where a scan of `s` from position `i` on stops: at the end of the text,
/// or where the first error left it.
pub open spec fn stop_from(s: Seq<char>, i: int) -> int
    decreases s.len() - i,
{
    if i < 0 || i >= s.len() {
        i
    } else {
        proof {
            lemma_lexeme_end_bounds(s, i);
        }
        match lexeme_at(s, i) {
            Lexeme::Fails(_) => lexeme_end(s, i),
            _ => stop_from(s, lexeme_end(s, i)),
        }
    }
}

/// The result of scanning the text `s`.
pub open spec fn scan(s: Seq<char>) -> Result<Seq<Token>, ScanError> {
    scan_from(s, 0)
}

/// How many characters a scan of `s` reads before it ends.
pub open spec fn stop(s: Seq<char>) -> int {
    stop_from(s, 0)
}

/// A run of digits ends inside the text, behind its first digit if it has
/// one, and holds digits only.
pub proof fn lemma_digits_end(s: Seq<char>, i: int)
    requires
        0 <= i <= s.len(),
    ensures
        i <= digits_end(s, i) <= s.len(),
        i < s.len() && is_digit(s[i]) ==> i < digits_end(s, i),
        forall|j: int| i <= j < digits_end(s, i) ==> is_digit(#[trigger] s[j]),
        digits_end(s, i) < s.len() ==> !is_digit(s[digits_end(s, i)]),
    decreases s.len() - i,
{
    if i < s.len() && is_digit(s[i]) {
        lemma_digits_end(s, i + 1);
    }
}

/// A run of letters and digits ends inside the text, behind its first
/// character if it has one, and holds letters and digits only.
pub proof fn lemma_word_end(s: Seq<char>, i: int)
    requires
        0 <= i <= s.len(),
    ensures
        i <= word_end(s, i) <= s.len(),
        i < s.len() && is_alphanumeric(s[i]) ==> i < word_end(s, i),
        forall|j: int| i <= j < word_end(s, i) ==> is_alphanumeric(#[trigger] s[j]),
        word_end(s, i) < s.len() ==> !is_alphanumeric(s[word_end(s, i)]),
    decreases s.len() - i,
{
    if i < s.len() && is_alphanumeric(s[i]) {
        lemma_word_end(s, i + 1);
    }
}

/// The scanner never moves back and never leaves the text; where it gets a
/// blank or a token it moves on.
pub proof fn lemma_lexeme_end_bounds(s: Seq<char>, i: int)
    requires
        0 <= i < s.len(),
    ensures
        i <= lexeme_end(s, i) <= s.len(),
        !(lexeme_at(s, i) is Fails) ==> i < lexeme_end(s, i),
{
    lemma_digits_end(s, i);
    lemma_word_end(s, i);
}

/// Letters and digits hold no line feed, bracket or parenthesis: over a run
/// of them the line, the start of the line and the open brackets stay.
proof fn lemma_run_keeps_place(s: Seq<char>, a: int, b: int)
    requires
        0 <= a <= b <= s.len(),
        forall|j: int| a <= j < b ==> is_alphanumeric(#[trigger] s[j]),
    ensures
        newlines_before(s, b) == newlines_before(s, a),
        line_start(s, b) == line_start(s, a),
        open_brackets(s, b) == open_brackets(s, a),
        open_parentheses(s, b) == open_parentheses(s, a),
    decreases b - a,
{
    if a < b {
        lemma_run_keeps_place(s, a, b - 1);
        assert(is_alphanumeric(s[b - 1]));
    }
}

/// A run of digits in the rest of a text is the run at the same place of
/// the whole text.
proof fn lemma_digits_end_skip(t: Seq<char>, base: int, k: int)
    requires
        0 <= base,
        0 <= k,
        base + k <= t.len(),
    ensures
        digits_end(t.skip(base), k) + base == digits_end(t, base + k),
    decreases t.len() - base - k,
{
    if base + k < t.len() && is_digit(t[base + k]) {
        lemma_digits_end_skip(t, base, k + 1);
    }
}

/// A run of letters and digits in the rest of a text is the run at the same
/// place of the whole text.
proof fn lemma_word_end_skip(t: Seq<char>, base: int, k: int)
    requires
        0 <= base,
        0 <= k,
        base + k <= t.len(),
    ensures
        word_end(t.skip(base), k) + base == word_end(t, base + k),
    decreases t.len() - base - k,
{
    if base + k < t.len() && is_alphanumeric(t[base + k]) {
        lemma_word_end_skip(t, base, k + 1);
    }
}

/// No position lies before the start of its line, and no more line feeds
/// stand before it than characters: the line and the column of a position
/// are at least 1 and at most one more than the position.
pub proof fn lemma_place_bounds(s: Seq<char>, i: int)
    requires
        0 <= i,
    ensures
        0 <= line_start(s, i) <= i,
        newlines_before(s, i) <= i,
        1 <= line_at(s, i) <= i + 1,
        1 <= column_at(s, i) <= i + 1,
    decreases i,
{
    if i > 0 {
        lemma_place_bounds(s, i - 1);
    }
}

/// Every open opener stands before the position asked for, and holds the
/// opener.
pub proof fn lemma_unclosed_positions(s: Seq<char>, opener: char, closer: char, n: int)
    requires
        0 <= n <= s.len(),
    ensures
        forall|j: int|
            0 <= j < unclosed(s, opener, closer, n).len() ==> 0 <= (#[trigger] unclosed(
                s,
                opener,
                closer,
                n,
            )[j]) < n && s[unclosed(s, opener, closer, n)[j]] == opener,
    decreases n,
{
    if n > 0 {
        lemma_unclosed_positions(s, opener, closer, n - 1);
        let before = unclosed(s, opener, closer, n - 1);
        let now = unclosed(s, opener, closer, n);
        assert forall|j: int| 0 <= j < now.len() implies 0 <= (#[trigger] now[j]) < n && s[now[j]]
            == opener by {
            if j < before.len() {
                assert(now[j] == before[j]);
            }
        }
    }
}

/// From position `i` on nothing stops the scan before the end of the text:
/// every character that starts a token is known, every literal fits, and
/// every closer has an opener to close.
pub open spec fn scans_to_end(s: Seq<char>, i: int) -> bool
    decreases s.len() - i,
{
    if i < 0 || i >= s.len() {
        true
    } else {
        proof {
            lemma_lexeme_end_bounds(s, i);
        }
        !(lexeme_at(s, i) is Fails) && scans_to_end(s, lexeme_end(s, i))
    }
}

/// A scan that nothing stops before the end of the text reports what the
/// end of the text holds; any other scan fails.
proof fn lemma_scan_from_end(s: Seq<char>, i: int)
    requires
        0 <= i <= s.len(),
    ensures
        scans_to_end(s, i) ==> stop_from(s, i) == s.len(),
        scans_to_end(s, i) ==> (scan_from(s, i) is Ok <==> end_of_text(s) is Ok),
        scans_to_end(s, i) && end_of_text(s) is Err ==> scan_from(s, i) == end_of_text(s),
        !scans_to_end(s, i) ==> scan_from(s, i) is Err,
    decreases s.len() - i,
{
    if i < s.len() {
        lemma_lexeme_end_bounds(s, i);
        if !(lexeme_at(s, i) is Fails) {
            lemma_scan_from_end(s, lexeme_end(s, i));
        }
    }
}

/// A scan gives tokens exactly if nothing stops it before the end of the
/// text and no bracket or parenthesis is open there. It has then read the
/// whole text.
pub proof fn lemma_scan_succeeds(s: Seq<char>)
    ensures
        scan(s) is Ok <==> scans_to_end(s, 0) && open_brackets(s, s.len() as int).len() == 0
            && open_parentheses(s, s.len() as int).len() == 0,
        scan(s) is Ok ==> stop(s) == s.len(),
{
    lemma_scan_from_end(s, 0);
}

/// Where nothing stops the scan before the end of the text and one opener
/// is left open, the scan fails with the error for that kind of opener, at
/// the line and the column of that opener.
pub proof fn lemma_scan_reports_open(s: Seq<char>)
    requires
        scans_to_end(s, 0),
        open_brackets(s, s.len() as int).len() + open_parentheses(s, s.len() as int).len() == 1,
    ensures
        open_brackets(s, s.len() as int).len() == 1 ==> {
            let at = open_brackets(s, s.len() as int)[0];
            &&& 0 <= at < s.len()
            &&& s[at] == '{'
            &&& scan(s) == Err::<Seq<Token>, ScanError>(
                ScanError::BracketNotMatchError {
                    line: line_at(s, at) as usize,
                    column: column_at(s, at) as usize,
                },
            )
        },
        open_parentheses(s, s.len() as int).len() == 1 ==> {
            let at = open_parentheses(s, s.len() as int)[0];
            &&& 0 <= at < s.len()
            &&& s[at] == '('
            &&& scan(s) == Err::<Seq<Token>, ScanError>(
                ScanError::ParenthesisNotMatchError {
                    line: line_at(s, at) as usize,
                    column: column_at(s, at) as usize,
                },
            )
        },
{
    lemma_scan_from_end(s, 0);
    lemma_unclosed_positions(s, '{', '}', s.len() as int);
    lemma_unclosed_positions(s, '(', ')', s.len() as int);
}

/// Where nothing stops the scan before the end of the text and an opener is
/// left open, the scan fails at the innermost open bracket, or, if there is
/// none, at the innermost open parenthesis.
pub proof fn lemma_scan_reports_innermost(s: Seq<char>)
    requires
        scans_to_end(s, 0),
    ensures
        open_brackets(s, s.len() as int).len() > 0 ==> scan(s) == Err::<Seq<Token>, ScanError>(
            bracket_error(s, open_brackets(s, s.len() as int).last()),
        ),
        open_brackets(s, s.len() as int).len() == 0 && open_parentheses(s, s.len() as int).len() > 0
            ==> scan(s) == Err::<Seq<Token>, ScanError>(
            parenthesis_error(s, open_parentheses(s, s.len() as int).last()),
        ),
{
    lemma_scan_from_end(s, 0);
}

/// Whether the tokens close what is open: read from the front with `open`
/// openers open, no closer comes with nothing to close, and nothing is
/// open at the end.
pub open spec fn closes_all(tokens: Seq<Token>, opener: Token, closer: Token, open: nat) -> bool
    decreases tokens.len(),
{
    if tokens.len() == 0 {
        open == 0
    } else if tokens.first() == opener {
        closes_all(tokens.drop_first(), opener, closer, open + 1)
    } else if tokens.first() == closer {
        open > 0 && closes_all(tokens.drop_first(), opener, closer, (open - 1) as nat)
    } else {
        closes_all(tokens.drop_first(), opener, closer, open)
    }
}

/// Whether brackets and parentheses are matched in a token sequence, each
/// kind by itself.
pub open spec fn balanced(tokens: Seq<Token>) -> bool {
    &&& closes_all(tokens, Token::LeftBracket, Token::RightBracket, 0)
    &&& closes_all(tokens, Token::LeftParenthesis, Token::RightParenthesis, 0)
}

/// The tokens that a scan gives from position `i` on close the brackets
/// and the parentheses that are open before `i`.
proof fn lemma_scan_from_closes(s: Seq<char>, i: int)
    requires
        0 <= i <= s.len(),
        scan_from(s, i) is Ok,
    ensures
        closes_all(
            scan_from(s, i)->Ok_0,
            Token::LeftBracket,
            Token::RightBracket,
            open_brackets(s, i).len(),
        ),
        closes_all(
            scan_from(s, i)->Ok_0,
            Token::LeftParenthesis,
            Token::RightParenthesis,
            open_parentheses(s, i).len(),
        ),
    decreases s.len() - i,
{
    if i < s.len() {
        lemma_lexeme_end_bounds(s, i);
        let end = lexeme_end(s, i);
        lemma_scan_from_closes(s, end);
        let rest = scan_from(s, end)->Ok_0;
        if is_digit(s[i]) {
            lemma_digits_end(s, i);
            lemma_run_keeps_place(s, i, end);
        } else if is_lower(s[i]) {
            lemma_word_end(s, i);
            lemma_run_keeps_place(s, i, end);
        }
        match lexeme_at(s, i) {
            Lexeme::Gives(token) => {
                let all = seq![token] + rest;
                assert(all.first() == token);
                assert(all.drop_first() =~= rest);
            },
            _ => {},
        }
    }
}

/// In the tokens of a scan every closing bracket closes an open bracket and
/// no bracket stays open, and the same holds of the parentheses.
pub proof fn lemma_scan_is_balanced(s: Seq<char>)
    requires
        scan(s) is Ok,
    ensures
        balanced(scan(s)->Ok_0),
{
    lemma_scan_from_closes(s, 0);
}

/// The characters of `s`, in order.
fn chars_of(s: &str) -> (out: Vec<char>)
    ensures
        out@ == s@,
{
    let mut out: Vec<char> = Vec::new();
    for c in it: s.chars()
        invariant
            out@ == it.seq().take(it.index@),
    {
        out.push(c);
    }
    out
}

/// Whether `c` is an ASCII digit.
fn digit(c: char) -> (r: bool)
    ensures
        r == is_digit(c),
{
    '0' <= c && c <= '9'
}

/// Whether `c` is an ASCII letter or digit.
fn alphanumeric(c: char) -> (r: bool)
    ensures
        r == is_alphanumeric(c),
{
    ('0' <= c && c <= '9') || ('a' <= c && c <= 'z') || ('A' <= c && c <= 'Z')
}

/// Reads the run of digits that starts at `from`: where it ends, and its
/// value if that fits an `i32`.
fn read_number(input: &Vec<char>, from: usize) -> (r: (usize, Option<i32>))
    requires
        from < input.len(),
        is_digit(input@[from as int]),
    ensures
        r.0 == digits_end(input@, from as int),
        from < r.0 <= input.len(),
        r.1 == (if decimal_value(input@.subrange(from as int, r.0 as int)) <= i32::MAX {
            Some(decimal_value(input@.subrange(from as int, r.0 as int)) as i32)
        } else {
            None
        }),
{
    let mut at: usize = from;
    let mut value: u64 = 0;
    let mut fits: bool = true;
    proof {
        assert(input@.subrange(from as int, from as int) =~= Seq::<char>::empty());
    }
    while at != input.len() && digit(input[at])
        invariant
            from <= at <= input.len(),
            from < input.len(),
            is_digit(input@[from as int]),
            digits_end(input@, from as int) == digits_end(input@, at as int),
            fits ==> value == decimal_value(input@.subrange(from as int, at as int)),
            fits ==> value <= i32::MAX,
            !fits ==> decimal_value(input@.subrange(from as int, at as int)) > i32::MAX,
        decreases input.len() - at,
    {
        let c: char = input[at];
        proof {
            let before = input@.subrange(from as int, at as int);
            crate::text::lemma_decimal_value_push(before, c);
            assert(input@.subrange(from as int, at + 1) =~= before.push(c));
        }
        if fits {
            value = value * 10 + (c as u64 - '0' as u64);
            if value > 2147483647 {
                fits = false;
            }
        }
        at += 1;
    }
    if fits {
        (at, Some(value as i32))
    } else {
        (at, None)
    }
}

/// Reads the run of letters and digits that starts at `from`: where it
/// ends, and its spelling.
fn read_word(input: &Vec<char>, from: usize) -> (r: (usize, String))
    requires
        from < input.len(),
        is_alphanumeric(input@[from as int]),
    ensures
        r.0 == word_end(input@, from as int),
        from < r.0 <= input.len(),
        r.1@ == input@.subrange(from as int, r.0 as int),
{
    let mut at: usize = from;
    let mut word = String::new();
    while at != input.len() && alphanumeric(input[at])
        invariant
            from <= at <= input.len(),
            from < input.len(),
            is_alphanumeric(input@[from as int]),
            word_end(input@, from as int) == word_end(input@, at as int),
            word@ =~= input@.subrange(from as int, at as int),
        decreases input.len() - at,
    {
        word.push(input[at]);
        at += 1;
    }
    (at, word)
}

/// The token of the word `word`.
fn token_of_word(word: String) -> (token: MiniDecafTokens)
    ensures
        token@ == word_token(word@),
{
    if word == "int".to_owned() {
        MiniDecafTokens::Int
    } else if word == "return".to_owned() {
        MiniDecafTokens::Return
    } else {
        MiniDecafTokens::Identifier(word)
    }
}

/// The line and column of position `i`, as the scanner records them.
spec fn place(s: Seq<char>, i: int) -> (usize, usize) {
    (line_at(s, i) as usize, column_at(s, i) as usize)
}

/// The scanner's stack of openers holds the places of the open openers.
spec fn records(stack: Seq<(usize, usize)>, s: Seq<char>, open: Seq<int>) -> bool {
    &&& stack.len() == open.len()
    &&& forall|j: int| 0 <= j < stack.len() ==> #[trigger] stack[j] == place(s, open[j])
}

/// Putting a token behind those found so far, then the rest.
proof fn lemma_prepend_push(
    found: Seq<Token>,
    token: Token,
    rest: Result<Seq<Token>, ScanError>,
)
    ensures
        prepend(found, prepend(seq![token], rest)) == prepend(found.push(token), rest),
{
    if let Ok(tokens) = rest {
        assert(found + (seq![token] + tokens) =~= found.push(token) + tokens);
    }
}

/// A scanner over a text. It reads from its position on and counts lines
/// and columns from there.
pub struct Scanner {
    input: Vec<char>,
    cursor: usize,
}

impl Scanner {
    #[verifier::type_invariant]
    spec fn in_text(&self) -> bool {
        self.cursor <= self.input.len()
    }

    /// The text.
    pub closed spec fn source(&self) -> Seq<char> {
        self.input@
    }

    /// How many characters of the text have been read.
    pub closed spec fn position(&self) -> int {
        self.cursor as int
    }

    /// The text that has not been read yet.
    pub open spec fn remaining(&self) -> Seq<char> {
        self.source().skip(self.position())
    }

    /// A scanner at the start of `input`.
    pub fn new(input: String) -> (scanner: Scanner)
        ensures
            scanner.source() == input@,
            scanner.position() == 0,
    {
        Scanner { input: chars_of(input.as_str()), cursor: 0 }
    }

    /// Scans the text that has not been read yet: its tokens in the order of
    /// the text, or the first error and no token. The scanner then stands
    /// at the end of the text, or where the error left it.
    pub fn to_tokens(&mut self) -> (res: Result<Vec<MiniDecafTokens>, ScanError>)
        ensures
            final(self).source() == old(self).source(),
            final(self).position() == old(self).position() + stop(old(self).remaining()),
            final(self).position() <= final(self).source().len(),
            match scan(old(self).remaining()) {
                Ok(tokens) => res is Ok && res->Ok_0.deep_view() == tokens,
                Err(e) => res == Err::<Vec<MiniDecafTokens>, ScanError>(e),
            },
    {
        proof {
            use_type_invariant(&*self);
        }
        let ghost text = self.input@;
        let ghost base = self.cursor as int;
        let ghost s = self.input@.skip(self.cursor as int);
        let mut tokens: Vec<MiniDecafTokens> = Vec::new();
        let mut breaks: usize = 0;
        let mut line_begin: usize = self.cursor;
        let mut brackets: Vec<(usize, usize)> = Vec::new();
        let mut parentheses: Vec<(usize, usize)> = Vec::new();
        proof {
            assert(tokens.deep_view() =~= Seq::<Token>::empty());
            if let Ok(found) = scan_from(s, 0) {
                assert(Seq::<Token>::empty() + found =~= found);
            }
        }
        while self.cursor != self.input.len()
            invariant
                text == old(self).input@,
                base == old(self).cursor,
                self.input@ == text,
                0 <= base <= self.cursor <= self.input.len(),
                s == text.skip(base),
                base <= line_begin <= self.cursor,
                breaks == newlines_before(s, self.cursor - base),
                breaks <= self.cursor - base,
                line_begin - base == line_start(s, self.cursor - base),
                records(brackets@, s, open_brackets(s, self.cursor - base)),
                records(parentheses@, s, open_parentheses(s, self.cursor - base)),
                scan(s) == prepend(tokens.deep_view(), scan_from(s, self.cursor - base)),
                stop(s) == stop_from(s, self.cursor - base),
            decreases self.input.len() - self.cursor,
        {
            let ghost k = self.cursor - base;
            let ghost found = tokens.deep_view();
            let c: char = self.input[self.cursor];
            assert(s[k] == c);
            if c == ' ' || c == '\t' || c == '\n' || c == '\r' {
                self.cursor += 1;
                if c == '\n' {
                    breaks += 1;
                    line_begin = self.cursor;
                }
            } else if c == '{' {
                tokens.push(MiniDecafTokens::LeftBracket);
                brackets.push((breaks + 1, self.cursor - line_begin + 1));
                self.cursor += 1;
                proof {
                    assert(tokens.deep_view() =~= found.push(Token::LeftBracket));
                    lemma_prepend_push(found, Token::LeftBracket, scan_from(s, k + 1));
                }
            } else if c == '}' {
                if brackets.len() != 0 {
                    tokens.push(MiniDecafTokens::RightBracket);
                    brackets.pop();
                    self.cursor += 1;
                    proof {
                        assert(tokens.deep_view() =~= found.push(Token::RightBracket));
                        lemma_prepend_push(found, Token::RightBracket, scan_from(s, k + 1));
                    }
                } else {
                    return Err(
                        ScanError::BracketNotMatchError {
                            line: breaks + 1,
                            column: self.cursor - line_begin + 1,
                        },
                    );
                }
            } else if c == '(' {
                tokens.push(MiniDecafTokens::LeftParenthesis);
                parentheses.push((breaks + 1, self.cursor - line_begin + 1));
                self.cursor += 1;
                proof {
                    assert(tokens.deep_view() =~= found.push(Token::LeftParenthesis));
                    lemma_prepend_push(found, Token::LeftParenthesis, scan_from(s, k + 1));
                }
            } else if c == ')' {
                if parentheses.len() != 0 {
                    tokens.push(MiniDecafTokens::RightParenthesis);
                    parentheses.pop();
                    self.cursor += 1;
                    proof {
                        assert(tokens.deep_view() =~= found.push(Token::RightParenthesis));
                        lemma_prepend_push(found, Token::RightParenthesis, scan_from(s, k + 1));
                    }
                } else {
                    return Err(
                        ScanError::ParenthesisNotMatchError {
                            line: breaks + 1,
                            column: self.cursor - line_begin + 1,
                        },
                    );
                }
            } else if c == ';' {
                tokens.push(MiniDecafTokens::Semicon);
                self.cursor += 1;
                proof {
                    assert(tokens.deep_view() =~= found.push(Token::Semicon));
                    lemma_prepend_push(found, Token::Semicon, scan_from(s, k + 1));
                }
            } else if digit(c) {
                let (end, value) = read_number(&self.input, self.cursor);
                proof {
                    lemma_digits_end_skip(text, base, k);
                    lemma_digits_end(s, k);
                    lemma_run_keeps_place(s, k, end - base);
                    assert(s.subrange(k, end - base) =~= text.subrange(base + k, end as int));
                }
                self.cursor = end;
                match value {
                    Some(v) => {
                        tokens.push(MiniDecafTokens::IntValue(v));
                        proof {
                            assert(tokens.deep_view() =~= found.push(Token::IntValue(v)));
                            lemma_prepend_push(found, Token::IntValue(v), scan_from(s, end - base));
                        }
                    },
                    None => {
                        return Err(ScanError::NumberOverflowError);
                    },
                }
            } else if 'a' <= c && c <= 'z' {
                let (end, word) = read_word(&self.input, self.cursor);
                proof {
                    lemma_word_end_skip(text, base, k);
                    lemma_word_end(s, k);
                    lemma_run_keeps_place(s, k, end - base);
                    assert(s.subrange(k, end - base) =~= text.subrange(base + k, end as int));
                }
                self.cursor = end;
                let token = token_of_word(word);
                let ghost shown = token@;
                tokens.push(token);
                proof {
                    assert(tokens.deep_view() =~= found.push(shown));
                    lemma_prepend_push(found, shown, scan_from(s, end - base));
                }
            } else if c == '-' {
                tokens.push(MiniDecafTokens::Minus);
                self.cursor += 1;
                proof {
                    assert(tokens.deep_view() =~= found.push(Token::Minus));
                    lemma_prepend_push(found, Token::Minus, scan_from(s, k + 1));
                }
            } else if c == '!' {
                tokens.push(MiniDecafTokens::LogicalNot);
                self.cursor += 1;
                proof {
                    assert(tokens.deep_view() =~= found.push(Token::LogicalNot));
                    lemma_prepend_push(found, Token::LogicalNot, scan_from(s, k + 1));
                }
            } else if c == '~' {
                tokens.push(MiniDecafTokens::BitwiseNot);
                self.cursor += 1;
                proof {
                    assert(tokens.deep_view() =~= found.push(Token::BitwiseNot));
                    lemma_prepend_push(found, Token::BitwiseNot, scan_from(s, k + 1));
                }
            } else {
                return Err(ScanError::UnrecognizableTokenError);
            }
        }
        if brackets.len() != 0 {
            let (line, column) = brackets.pop().unwrap();
            return Err(ScanError::BracketNotMatchError { line, column });
        }
        if parentheses.len() != 0 {
            let (line, column) = parentheses.pop().unwrap();
            return Err(ScanError::ParenthesisNotMatchError { line, column });
        }
        proof {
            assert(tokens.deep_view() + Seq::<Token>::empty() =~= tokens.deep_view());
        }
        Ok(tokens)
    }

    /// Puts the scanner at the start of another text.
    pub fn reset(&mut self, input: String)
        ensures
            final(self).source() == input@,
            final(self).position() == 0,
    {
        self.cursor = 0;
        self.input = chars_of(input.as_str());
    }
}

} // verus!
