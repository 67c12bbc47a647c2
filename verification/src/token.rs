//! Tokens of the dice-notation language and the scanner that produces them.
//!
//! `read_token` consumes characters from an input string, starting at a
//! cursor position, and returns the next token together with its 1-based
//! line and column, or a `TokenError` for input it cannot classify.

use vstd::prelude::*;

verus! {

/// The classified payload of one token.
///
/// `Die(bool)` and `Keep(bool)` record whether the long keyword form was
/// written (`die`/`keep`, payload `true`) or the short one (`d`/`k`,
/// payload `false`). `Unrecognized` carries an identifier that matched no
/// keyword; it is a token, not an error. `Greater`, `GreaterEqual` and
/// `EqualEqual` are declared for the parser but have no scanning rule yet;
/// only `<`/`<=` is recognized among the comparison operators.
#[derive(Clone, Debug, PartialEq, Eq)]
pub enum TokenType {
    Int(i32),
    Die(bool),
    Keep(bool),
    Drop,
    Explode,
    Emphasis,
    Unrecognized(String),
    LeftParen,
    RightParen,
    LeftBrace,
    RightBrace,
    Plus,
    Minus,
    Star,
    Slash,
    Dot,
    Bang,
    Eof,
    Less,
    LessEqual,
    Greater,
    GreaterEqual,
    EqualEqual,
}

/// Mathematical model of a `TokenType`: integer payloads widen to `int`
/// and string payloads become character sequences.
pub enum TokenKind {
    Int(int),
    Die(bool),
    Keep(bool),
    Drop,
    Explode,
    Emphasis,
    Unrecognized(Seq<char>),
    LeftParen,
    RightParen,
    LeftBrace,
    RightBrace,
    Plus,
    Minus,
    Star,
    Slash,
    Dot,
    Bang,
    Eof,
    Less,
    LessEqual,
    Greater,
    GreaterEqual,
    EqualEqual,
}

impl View for TokenType {
    type V = TokenKind;

    open spec fn view(&self) -> TokenKind {
        match self {
            TokenType::Int(n) => TokenKind::Int(*n as int),
            TokenType::Die(long) => TokenKind::Die(*long),
            TokenType::Keep(long) => TokenKind::Keep(*long),
            TokenType::Drop => TokenKind::Drop,
            TokenType::Explode => TokenKind::Explode,
            TokenType::Emphasis => TokenKind::Emphasis,
            TokenType::Unrecognized(s) => TokenKind::Unrecognized(s@),
            TokenType::LeftParen => TokenKind::LeftParen,
            TokenType::RightParen => TokenKind::RightParen,
            TokenType::LeftBrace => TokenKind::LeftBrace,
            TokenType::RightBrace => TokenKind::RightBrace,
            TokenType::Plus => TokenKind::Plus,
            TokenType::Minus => TokenKind::Minus,
            TokenType::Star => TokenKind::Star,
            TokenType::Slash => TokenKind::Slash,
            TokenType::Dot => TokenKind::Dot,
            TokenType::Bang => TokenKind::Bang,
            TokenType::Eof => TokenKind::Eof,
            TokenType::Less => TokenKind::Less,
            TokenType::LessEqual => TokenKind::LessEqual,
            TokenType::Greater => TokenKind::Greater,
            TokenType::GreaterEqual => TokenKind::GreaterEqual,
            TokenType::EqualEqual => TokenKind::EqualEqual,
        }
    }
}

/// One token: its kind and the line and column (both 1-based) of its
/// first character.
#[derive(Clone, Debug, PartialEq, Eq)]
pub struct Token {
    pub token_type: TokenType,
    pub line: usize,
    pub column: usize,
}

/// Mathematical model of a `Token`.
pub struct TokenView {
    pub kind: TokenKind,
    pub line: int,
    pub column: int,
}

impl View for Token {
    type V = TokenView;

    open spec fn view(&self) -> TokenView {
        TokenView { kind: self.token_type@, line: self.line as int, column: self.column as int }
    }
}

impl Token {
    pub fn new(token_type: TokenType, line: usize, column: usize) -> (t: Self)
        ensures
            t.token_type == token_type,
            t.line == line,
            t.column == column,
    {
        Self { token_type, line, column }
    }
}

/// The two ways a scan call can fail. Both carry the offending lexeme:
/// the single unclassifiable character, or the whole digit run that
/// overflowed the 32-bit signed range.
#[derive(Debug)]
pub enum TokenError {
    UnsupportedToken(String),
    InvalidNumberToken(String),
}

/// Mathematical model of a `TokenError`.
pub enum TokenErrorView {
    UnsupportedToken(Seq<char>),
    InvalidNumberToken(Seq<char>),
}

impl View for TokenError {
    type V = TokenErrorView;

    open spec fn view(&self) -> TokenErrorView {
        match self {
            TokenError::UnsupportedToken(s) => TokenErrorView::UnsupportedToken(s@),
            TokenError::InvalidNumberToken(s) => TokenErrorView::InvalidNumberToken(s@),
        }
    }
}

/// The characters that form a token by themselves.
pub open spec fn is_single_char_op(c: char) -> bool {
    ||| c == '('
    ||| c == ')'
    ||| c == '{'
    ||| c == '}'
    ||| c == '+'
    ||| c == '-'
    ||| c == '*'
    ||| c == '/'
    ||| c == '.'
    ||| c == '!'
}

/// The token kind of a single-character operator.
pub open spec fn single_char_kind(c: char) -> TokenKind
    recommends
        is_single_char_op(c),
{
    if c == '(' {
        TokenKind::LeftParen
    } else if c == ')' {
        TokenKind::RightParen
    } else if c == '{' {
        TokenKind::LeftBrace
    } else if c == '}' {
        TokenKind::RightBrace
    } else if c == '+' {
        TokenKind::Plus
    } else if c == '-' {
        TokenKind::Minus
    } else if c == '*' {
        TokenKind::Star
    } else if c == '/' {
        TokenKind::Slash
    } else if c == '.' {
        TokenKind::Dot
    } else {
        TokenKind::Bang
    }
}

pub open spec fn is_digit_char(c: char) -> bool {
    '0' <= c && c <= '9'
}

pub open spec fn is_alpha_char(c: char) -> bool {
    ('a' <= c && c <= 'z') || ('A' <= c && c <= 'Z')
}

/// The characters that may continue an identifier or keyword lexeme.
/// Digits may not: `2d4` splits into three tokens.
pub open spec fn is_keyword_char(c: char) -> bool {
    is_alpha_char(c) || c == '_'
}

/// Numeric value of one ASCII digit.
pub open spec fn digit_value(c: char) -> int
    recommends
        is_digit_char(c),
{
    c as u32 - '0' as u32
}

/// Value of a digit run read in base 10.
pub open spec fn digits_value(s: Seq<char>) -> int
    decreases s.len(),
{
    if s.len() == 0 {
        0
    } else {
        10 * digits_value(s.drop_last()) + digit_value(s.last())
    }
}

/// First index at or after `i` that does not hold an ASCII digit.
pub open spec fn digit_run_end(s: Seq<char>, i: int) -> int
    decreases s.len() - i,
{
    if i < 0 || i >= s.len() || !is_digit_char(s[i]) {
        i
    } else {
        digit_run_end(s, i + 1)
    }
}

/// First index at or after `i` that does not hold a keyword character.
pub open spec fn keyword_run_end(s: Seq<char>, i: int) -> int
    decreases s.len() - i,
{
    if i < 0 || i >= s.len() || !is_keyword_char(s[i]) {
        i
    } else {
        keyword_run_end(s, i + 1)
    }
}

/// Classification of an identifier lexeme: each keyword is matched
/// exactly, never as a prefix of a longer lexeme; everything else is an
/// `Unrecognized` token carrying the lexeme.
pub open spec fn keyword_kind(lexeme: Seq<char>) -> TokenKind {
    if lexeme.len() == 1 && lexeme[0] == 'd' {
        TokenKind::Die(false)
    } else if lexeme.len() == 3 && lexeme[0] == 'd' && lexeme[1] == 'i' && lexeme[2] == 'e' {
        TokenKind::Die(true)
    } else if lexeme.len() == 1 && lexeme[0] == 'k' {
        TokenKind::Keep(false)
    } else if lexeme.len() == 4 && lexeme[0] == 'k' && lexeme[1] == 'e' && lexeme[2] == 'e'
        && lexeme[3] == 'p' {
        TokenKind::Keep(true)
    } else if lexeme.len() == 4 && lexeme[0] == 'd' && lexeme[1] == 'r' && lexeme[2] == 'o'
        && lexeme[3] == 'p' {
        TokenKind::Drop
    } else if lexeme.len() == 7 && lexeme[0] == 'e' && lexeme[1] == 'x' && lexeme[2] == 'p'
        && lexeme[3] == 'l' && lexeme[4] == 'o' && lexeme[5] == 'd' && lexeme[6] == 'e' {
        TokenKind::Explode
    } else if lexeme.len() == 8 && lexeme[0] == 'e' && lexeme[1] == 'm' && lexeme[2] == 'p'
        && lexeme[3] == 'h' && lexeme[4] == 'a' && lexeme[5] == 's' && lexeme[6] == 'i'
        && lexeme[7] == 's' {
        TokenKind::Emphasis
    } else {
        TokenKind::Unrecognized(lexeme)
    }
}

/// What one scan call produces: a token or an error.
pub enum ScanOutcome {
    Token(TokenView),
    Error(TokenErrorView),
}

/// Full effect of one scan call: the outcome, and the cursor and
/// position counters after the call.
pub struct ScanStep {
    pub outcome: ScanOutcome,
    pub pos: int,
    pub line: int,
    pub column: int,
}

/// One call of the scanner, as a mathematical function: from the input
/// and the state before the call (cursor index, line, column) to the
/// outcome and the state after it.
///
/// Spaces are skipped; a newline starts the next line at column 1. The
/// column of a multi-character token is that of its first character,
/// and the counters advance over every consumed character. The two
/// error outcomes leave the offending lexeme consumed but skip the
/// final column increment, exactly as the token paths perform it.
pub open spec fn scan(input: Seq<char>, pos: int, line: int, column: int) -> ScanStep
    decreases input.len() - pos,
{
    if pos < 0 || pos >= input.len() {
        ScanStep {
            outcome: ScanOutcome::Token(TokenView { kind: TokenKind::Eof, line, column }),
            pos,
            line,
            column,
        }
    } else {
        let c = input[pos];
        if c == ' ' {
            scan(input, pos + 1, line, column + 1)
        } else if c == '\n' {
            scan(input, pos + 1, line + 1, 1)
        } else if is_single_char_op(c) {
            ScanStep {
                outcome: ScanOutcome::Token(
                    TokenView { kind: single_char_kind(c), line, column },
                ),
                pos: pos + 1,
                line,
                column: column + 1,
            }
        } else if c == '<' {
            let kind = if pos + 1 < input.len() && input[pos + 1] == '=' {
                TokenKind::LessEqual
            } else {
                TokenKind::Less
            };
            ScanStep {
                outcome: ScanOutcome::Token(TokenView { kind, line, column }),
                pos: pos + 1,
                line,
                column: column + 1,
            }
        } else if is_digit_char(c) {
            let end = digit_run_end(input, pos + 1);
            let lexeme = input.subrange(pos, end);
            let end_column = column + (end - pos - 1);
            if digits_value(lexeme) <= i32::MAX {
                ScanStep {
                    outcome: ScanOutcome::Token(
                        TokenView { kind: TokenKind::Int(digits_value(lexeme)), line, column },
                    ),
                    pos: end,
                    line,
                    column: end_column + 1,
                }
            } else {
                ScanStep {
                    outcome: ScanOutcome::Error(TokenErrorView::InvalidNumberToken(lexeme)),
                    pos: end,
                    line,
                    column: end_column,
                }
            }
        } else if is_alpha_char(c) {
            let end = keyword_run_end(input, pos + 1);
            let lexeme = input.subrange(pos, end);
            let end_column = column + (end - pos - 1);
            ScanStep {
                outcome: ScanOutcome::Token(
                    TokenView { kind: keyword_kind(lexeme), line, column },
                ),
                pos: end,
                line,
                column: end_column + 1,
            }
        } else {
            ScanStep {
                outcome: ScanOutcome::Error(TokenErrorView::UnsupportedToken(seq![c])),
                pos: pos + 1,
                line,
                column,
            }
        }
    }
}

/// Whether `c` may continue an identifier or keyword lexeme.
pub fn is_keyword_character(c: &char) -> (r: bool)
    ensures
        r == is_keyword_char(*c),
{
    ('a' <= *c && *c <= 'z') || ('A' <= *c && *c <= 'Z') || *c == '_'
}

/// Classify a character that forms a token by itself, if it does.
fn single_char_token_type(c: char) -> (t: Option<TokenType>)
    ensures
        match t {
            Some(tt) => is_single_char_op(c) && tt@ == single_char_kind(c),
            None => !is_single_char_op(c),
        },
{
    match c {
        '(' => Some(TokenType::LeftParen),
        ')' => Some(TokenType::RightParen),
        '{' => Some(TokenType::LeftBrace),
        '}' => Some(TokenType::RightBrace),
        '+' => Some(TokenType::Plus),
        '-' => Some(TokenType::Minus),
        '*' => Some(TokenType::Star),
        '/' => Some(TokenType::Slash),
        '.' => Some(TokenType::Dot),
        '!' => Some(TokenType::Bang),
        _ => None,
    }
}

/// Classify the identifier lexeme `input[start..end]` against the keyword
/// table, yielding `Unrecognized` when no keyword matches exactly.
fn keyword_token_type(input: &str, start: usize, end: usize) -> (t: TokenType)
    requires
        start < end <= input@.len(),
    ensures
        t@ == keyword_kind(input@.subrange(start as int, end as int)),
{
    let len = end - start;
    let c0 = input.get_char(start);
    if len == 1 && c0 == 'd' {
        TokenType::Die(false)
    } else if len == 1 && c0 == 'k' {
        TokenType::Keep(false)
    } else if len == 3 && c0 == 'd' && input.get_char(start + 1) == 'i' && input.get_char(
        start + 2,
    ) == 'e' {
        TokenType::Die(true)
    } else if len == 4 && c0 == 'k' && input.get_char(start + 1) == 'e' && input.get_char(
        start + 2,
    ) == 'e' && input.get_char(start + 3) == 'p' {
        TokenType::Keep(true)
    } else if len == 4 && c0 == 'd' && input.get_char(start + 1) == 'r' && input.get_char(
        start + 2,
    ) == 'o' && input.get_char(start + 3) == 'p' {
        TokenType::Drop
    } else if len == 7 && c0 == 'e' && input.get_char(start + 1) == 'x' && input.get_char(
        start + 2,
    ) == 'p' && input.get_char(start + 3) == 'l' && input.get_char(start + 4) == 'o'
        && input.get_char(start + 5) == 'd' && input.get_char(start + 6) == 'e' {
        TokenType::Explode
    } else if len == 8 && c0 == 'e' && input.get_char(start + 1) == 'm' && input.get_char(
        start + 2,
    ) == 'p' && input.get_char(start + 3) == 'h' && input.get_char(start + 4) == 'a'
        && input.get_char(start + 5) == 's' && input.get_char(start + 6) == 'i' && input.get_char(
        start + 7,
    ) == 's' {
        TokenType::Emphasis
    } else {
        TokenType::Unrecognized(input.substring_char(start, end).to_owned())
    }
}

/// The first non-digit index at or after `i` lies between `i` and the
/// end of the input.
pub proof fn lemma_digit_run_end_bounds(s: Seq<char>, i: int)
    requires
        0 <= i <= s.len(),
    ensures
        i <= digit_run_end(s, i) <= s.len(),
    decreases s.len() - i,
{
    if i < s.len() && is_digit_char(s[i]) {
        lemma_digit_run_end_bounds(s, i + 1);
    }
}

/// The first non-keyword-character index at or after `i` lies between
/// `i` and the end of the input.
pub proof fn lemma_keyword_run_end_bounds(s: Seq<char>, i: int)
    requires
        0 <= i <= s.len(),
    ensures
        i <= keyword_run_end(s, i) <= s.len(),
    decreases s.len() - i,
{
    if i < s.len() && is_keyword_char(s[i]) {
        lemma_keyword_run_end_bounds(s, i + 1);
    }
}

/// A scan call never moves the cursor backwards or past the end of the
/// input, and it consumes at least one character while any remain: every
/// character is consumed exactly once over a full pass, and a driver
/// polling the scanner makes progress on every call.
pub proof fn lemma_scan_progress(input: Seq<char>, pos: int, line: int, column: int)
    requires
        0 <= pos <= input.len(),
    ensures
        pos <= scan(input, pos, line, column).pos <= input.len(),
        pos < input.len() ==> pos < scan(input, pos, line, column).pos,
    decreases input.len() - pos,
{
    if pos < input.len() {
        let c = input[pos];
        if c == ' ' {
            lemma_scan_progress(input, pos + 1, line, column + 1);
        } else if c == '\n' {
            lemma_scan_progress(input, pos + 1, line + 1, 1);
        } else if is_digit_char(c) {
            lemma_digit_run_end_bounds(input, pos + 1);
        } else if is_alpha_char(c) {
            lemma_keyword_run_end_bounds(input, pos + 1);
        }
    }
}

/// A single-character operator at the head of the input scans, from the
/// initial state, to exactly one token of the corresponding kind at
/// line 1, column 1, with only that character consumed.
pub proof fn lemma_single_char_operator_first(input: Seq<char>)
    requires
        input.len() > 0,
        is_single_char_op(input[0]),
    ensures
        scan(input, 0, 1, 1) == (ScanStep {
            outcome: ScanOutcome::Token(
                TokenView { kind: single_char_kind(input[0]), line: 1, column: 1 },
            ),
            pos: 1,
            line: 1,
            column: 2,
        }),
{
}

/// A digit run whose value exceeds the 32-bit signed range scans to an
/// `InvalidNumberToken` error carrying exactly the digits of the run,
/// never a clamped or wrapped value, and the whole run is consumed.
pub proof fn lemma_number_overflow(input: Seq<char>, pos: int, line: int, column: int)
    requires
        0 <= pos < input.len(),
        is_digit_char(input[pos]),
        digits_value(input.subrange(pos, digit_run_end(input, pos + 1))) > i32::MAX,
    ensures
        scan(input, pos, line, column) == (ScanStep {
            outcome: ScanOutcome::Error(
                TokenErrorView::InvalidNumberToken(
                    input.subrange(pos, digit_run_end(input, pos + 1)),
                ),
            ),
            pos: digit_run_end(input, pos + 1),
            line: line,
            column: column + (digit_run_end(input, pos + 1) - pos - 1),
        }),
{
}

/// A character with no scanning rule — not a space or newline, not an
/// operator, not `<`, not a digit, not a letter — scans, wherever it
/// stands, to an `UnsupportedToken` error carrying that single
/// character, and the cursor has consumed it.
pub proof fn lemma_unsupported_character(input: Seq<char>, pos: int, line: int, column: int)
    requires
        0 <= pos < input.len(),
        input[pos] != ' ',
        input[pos] != '\n',
        !is_single_char_op(input[pos]),
        input[pos] != '<',
        !is_digit_char(input[pos]),
        !is_alpha_char(input[pos]),
    ensures
        scan(input, pos, line, column) == (ScanStep {
            outcome: ScanOutcome::Error(TokenErrorView::UnsupportedToken(seq![input[pos]])),
            pos: pos + 1,
            line: line,
            column: column,
        }),
{
}

/// Once the cursor has reached the end of the input, a scan returns the
/// `Eof` token and leaves the cursor and counters unchanged — so every
/// further scan keeps returning `Eof` rather than erroring.
pub proof fn lemma_eof_stable(input: Seq<char>, pos: int, line: int, column: int)
    requires
        pos >= input.len(),
    ensures
        scan(input, pos, line, column) == (ScanStep {
            outcome: ScanOutcome::Token(TokenView { kind: TokenKind::Eof, line, column }),
            pos,
            line,
            column,
        }),
{
}

/// Whether the character at index `i` of `input` is an ASCII digit.
fn digit_at(input: &str, i: usize) -> (r: bool)
    requires
        i < input@.len(),
    ensures
        r == is_digit_char(input@[i as int]),
{
    let c = input.get_char(i);
    '0' <= c && c <= '9'
}

/// Whether the character at index `i` of `input` may continue a keyword.
fn keyword_char_at(input: &str, i: usize) -> (r: bool)
    requires
        i < input@.len(),
    ensures
        r == is_keyword_char(input@[i as int]),
{
    is_keyword_character(&input.get_char(i))
}

/// Consume the rest of a digit run whose first digit, at `*old(pos) - 1`,
/// has already been consumed, and produce its `Int` token — or an
/// `InvalidNumberToken` error when the run's value exceeds `i32::MAX`.
/// The effect is the one `scan` gives from the first digit's position.
#[verifier::loop_isolation(false)]
fn read_number(
    input: &str,
    pos: &mut usize,
    current_line: &mut usize,
    current_column: &mut usize,
) -> (r: Result<Token, TokenError>)
    requires
        1 <= *old(pos) <= input@.len(),
        is_digit_char(input@[*old(pos) - 1]),
        *old(current_column) + 1 + input@.len() - *old(pos) <= usize::MAX,
    ensures
        ({
            let step = scan(
                input@,
                *old(pos) - 1,
                *old(current_line) as int,
                *old(current_column) as int,
            );
            &&& *final(pos) == step.pos
            &&& *final(current_line) == step.line
            &&& *final(current_column) == step.column
            &&& (match r {
                Ok(t) => step.outcome == ScanOutcome::Token(t@),
                Err(e) => step.outcome == ScanOutcome::Error(e@),
            })
        }),
{
    let input_len = input.unicode_len();
    let number_start = *pos - 1;
    let starting_column = *current_column;
    let first = input.get_char(number_start);
    let mut value: i32 = (first as u32 - '0' as u32) as i32;
    let mut overflowed: bool = false;
    proof {
        let first_seq = input@.subrange(number_start as int, *pos as int);
        assert(first_seq =~= seq![input@[number_start as int]]);
        assert(first_seq.drop_last() =~= Seq::<char>::empty());
        assert(digits_value(Seq::<char>::empty()) == 0);
        assert(digits_value(first_seq) == digit_value(input@[number_start as int]));
    }
    while *pos < input_len && digit_at(input, *pos)
        invariant
            number_start < *pos <= input_len,
            input_len == input@.len(),
            is_digit_char(input@[number_start as int]),
            digit_run_end(input@, number_start + 1) == digit_run_end(input@, *pos as int),
            *current_column == starting_column + (*pos - number_start - 1),
            *current_column + 1 + (input_len - *pos) <= usize::MAX,
            0 <= value,
            overflowed <==> digits_value(input@.subrange(number_start as int, *pos as int))
                > i32::MAX,
            !overflowed ==> value as int == digits_value(
                input@.subrange(number_start as int, *pos as int),
            ),
        decreases input@.len() - *pos,
    {
        let d = input.get_char(*pos);
        let ghost prefix = input@.subrange(number_start as int, *pos as int);
        *pos += 1;
        *current_column += 1;
        proof {
            let extended = input@.subrange(number_start as int, *pos as int);
            assert(extended.drop_last() =~= prefix);
            assert(extended.last() == d);
        }
        if !overflowed {
            let wide: i64 = (value as i64) * 10 + ((d as u32 - '0' as u32) as i64);
            if wide > (i32::MAX as i64) {
                overflowed = true;
            } else {
                value = wide as i32;
            }
        }
    }
    proof {
        assert(digit_run_end(input@, *pos as int) == *pos as int);
    }
    if overflowed {
        let raw = input.substring_char(number_start, *pos).to_owned();
        Err(TokenError::InvalidNumberToken(raw))
    } else {
        let token = Token::new(TokenType::Int(value), *current_line, starting_column);
        *current_column += 1;
        Ok(token)
    }
}

/// Consume the rest of an identifier run whose first letter, at
/// `*old(pos) - 1`, has already been consumed, and produce its keyword
/// token, or an `Unrecognized` token when no keyword matches. The effect
/// is the one `scan` gives from the first letter's position.
#[verifier::loop_isolation(false)]
fn read_keyword(
    input: &str,
    pos: &mut usize,
    current_line: &mut usize,
    current_column: &mut usize,
) -> (r: Result<Token, TokenError>)
    requires
        1 <= *old(pos) <= input@.len(),
        is_alpha_char(input@[*old(pos) - 1]),
        *old(current_column) + 1 + input@.len() - *old(pos) <= usize::MAX,
    ensures
        ({
            let step = scan(
                input@,
                *old(pos) - 1,
                *old(current_line) as int,
                *old(current_column) as int,
            );
            &&& *final(pos) == step.pos
            &&& *final(current_line) == step.line
            &&& *final(current_column) == step.column
            &&& (match r {
                Ok(t) => step.outcome == ScanOutcome::Token(t@),
                Err(e) => step.outcome == ScanOutcome::Error(e@),
            })
        }),
{
    let input_len = input.unicode_len();
    let word_start = *pos - 1;
    let starting_column = *current_column;
    while *pos < input_len && keyword_char_at(input, *pos)
        invariant
            word_start < *pos <= input_len,
            input_len == input@.len(),
            keyword_run_end(input@, word_start + 1) == keyword_run_end(input@, *pos as int),
            *current_column == starting_column + (*pos - word_start - 1),
            *current_column + 1 + (input_len - *pos) <= usize::MAX,
        decreases input@.len() - *pos,
    {
        *pos += 1;
        *current_column += 1;
    }
    proof {
        assert(keyword_run_end(input@, *pos as int) == *pos as int);
    }
    let token_type = keyword_token_type(input, word_start, *pos);
    let token = Token::new(token_type, *current_line, starting_column);
    *current_column += 1;
    Ok(token)
}

/// Read the next token from `input`, starting at character index `*pos`.
///
/// Skips spaces and newlines (counting lines and columns as it goes),
/// then returns the token beginning at the first significant character,
/// or a `TokenError` for input it cannot classify. Once the input is
/// exhausted the call returns an `Eof` token and leaves the state
/// unchanged, so further calls keep returning `Eof`.
///
/// The whole effect — the outcome and the state after the call — is the
/// one `scan` gives for the state before the call.
#[verifier::loop_isolation(false)]
pub fn read_token(
    input: &str,
    pos: &mut usize,
    current_line: &mut usize,
    current_column: &mut usize,
) -> (r: Result<Token, TokenError>)
    requires
        *old(pos) <= input@.len(),
        *old(current_line) + input@.len() <= usize::MAX,
        *old(current_column) + input@.len() <= usize::MAX,
    ensures
        ({
            let step = scan(
                input@,
                *old(pos) as int,
                *old(current_line) as int,
                *old(current_column) as int,
            );
            &&& *final(pos) == step.pos
            &&& *final(current_line) == step.line
            &&& *final(current_column) == step.column
            &&& (match r {
                Ok(t) => step.outcome == ScanOutcome::Token(t@),
                Err(e) => step.outcome == ScanOutcome::Error(e@),
            })
        }),
{
    let input_len = input.unicode_len();
    while *pos < input_len
        invariant
            *pos <= input_len,
            input_len == input@.len(),
            *current_line + (input_len - *pos) <= usize::MAX,
            *current_column + (input_len - *pos) <= usize::MAX,
            scan(input@, *pos as int, *current_line as int, *current_column as int) == scan(
                input@,
                *old(pos) as int,
                *old(current_line) as int,
                *old(current_column) as int,
            ),
        decreases input@.len() - *pos,
    {
        let c = input.get_char(*pos);
        *pos += 1;
        if c == ' ' {
            *current_column += 1;
        } else if c == '\n' {
            *current_line += 1;
            *current_column = 1;
        } else {
            match single_char_token_type(c) {
                Some(token_type) => {
                    let token = Token::new(token_type, *current_line, *current_column);
                    *current_column += 1;
                    return Ok(token);
                },
                None => {
                    if c == '<' {
                        let token_type = if *pos < input_len && input.get_char(*pos) == '=' {
                            TokenType::LessEqual
                        } else {
                            TokenType::Less
                        };
                        let token = Token::new(token_type, *current_line, *current_column);
                        *current_column += 1;
                        return Ok(token);
                    } else if '0' <= c && c <= '9' {
                        return read_number(input, pos, current_line, current_column);
                    } else if ('a' <= c && c <= 'z') || ('A' <= c && c <= 'Z') {
                        return read_keyword(input, pos, current_line, current_column);
                    } else {
                        let raw = input.substring_char(*pos - 1, *pos).to_owned();
                        proof {
                            assert(input@.subrange(*pos - 1, *pos as int) =~= seq![c]);
                        }
                        return Err(TokenError::UnsupportedToken(raw));
                    }
                },
            }
        }
    }
    Ok(Token::new(TokenType::Eof, *current_line, *current_column))
}

} // verus!
