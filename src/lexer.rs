use vstd::prelude::*;
use vstd::string::*;
use crate::ast::Location;

verus! {

broadcast use {vstd::std_specs::vec::group_vec_axioms, vstd::seq::group_seq_axioms};

/// The kind of a token.
#[derive(Clone, Copy, PartialEq, Eq, Structural, Debug)]
pub enum TokenType {
    Number,
    Identifier,
    Plus,
    Minus,
    Times,
    Div,
    GreaterThan,
    GreaterThanOrEqual,
    LessThan,
    LessThanOrEqual,
    Equal,
    Assign,
    LeftParenthesis,
    RightParenthesis,
}

/// A token: its kind, the text it was read from, and where that text starts.
#[derive(Debug, PartialEq)]
pub struct Token {
    pub ttype: TokenType,
    pub value: String,
    pub line: usize,
    pub column: usize,
}

/// The model of a token.
pub struct Lexeme {
    pub ttype: TokenType,
    pub text: Seq<char>,
    pub line: int,
    pub column: int,
}

impl Token {
    pub open spec fn view(self) -> Lexeme {
        Lexeme { ttype: self.ttype, text: self.value@, line: self.line as int, column: self.column as int }
    }

    /// A token as the lexer makes it: its text is not empty, and the column
    /// one past its end and the line after it are still a `usize`.
    pub open spec fn wf(self) -> bool {
        &&& self.value@.len() > 0
        &&& self.column + self.value@.len() <= usize::MAX
        &&& self.line < usize::MAX
    }
}

pub open spec fn lexemes(tokens: Seq<Token>) -> Seq<Lexeme> {
    tokens.map_values(|t: Token| t@)
}

/// Every token is well formed and the lines never go back.
pub open spec fn tokens_wf(tokens: Seq<Token>) -> bool {
    &&& forall|i: int| 0 <= i < tokens.len() ==> (#[trigger] tokens[i]).wf()
    &&& forall|i: int, j: int| 0 <= i <= j < tokens.len() ==> (#[trigger] tokens[i]).line <= (#[trigger] tokens[j]).line
}

/// The lexer's only error: a character that starts no token.
#[derive(Clone, Copy, PartialEq, Eq, Structural, Debug)]
pub enum LexError {
    UnexpectedCharacter(char, Location),
}

pub open spec fn is_digit(c: char) -> bool {
    '0' <= c <= '9'
}

pub open spec fn is_letter(c: char) -> bool {
    ('a' <= c <= 'z') || ('A' <= c <= 'Z')
}

pub open spec fn is_number_char(c: char) -> bool {
    is_digit(c) || c == '.'
}

pub open spec fn is_identifier_char(c: char) -> bool {
    is_letter(c) || is_digit(c) || c == '_'
}

/// Whitespace within a line.
pub open spec fn is_blank(c: char) -> bool {
    c == ' ' || c == '\t' || c == '\r'
}

/// Whether `c` continues a number (`number`) or an identifier (`!number`).
pub open spec fn in_run(number: bool, c: char) -> bool {
    if number { is_number_char(c) } else { is_identifier_char(c) }
}

/// The end of the run of number (or identifier) characters that starts at `i`.
pub open spec fn run_end(cs: Seq<char>, i: int, number: bool) -> int
    decreases cs.len() - i,
{
    if 0 <= i < cs.len() && in_run(number, cs[i]) {
        run_end(cs, i + 1, number)
    } else {
        i
    }
}

/// The operator that starts at `i`, with its length: the longest one that fits.
pub open spec fn operator_at(cs: Seq<char>, i: int) -> Option<(TokenType, int)> {
    let c = cs[i];
    let next_is_eq = i + 1 < cs.len() && cs[i + 1] == '=';
    if c == '+' {
        Some((TokenType::Plus, 1))
    } else if c == '-' {
        Some((TokenType::Minus, 1))
    } else if c == '*' {
        Some((TokenType::Times, 1))
    } else if c == '/' {
        Some((TokenType::Div, 1))
    } else if c == '(' {
        Some((TokenType::LeftParenthesis, 1))
    } else if c == ')' {
        Some((TokenType::RightParenthesis, 1))
    } else if c == '>' {
        if next_is_eq { Some((TokenType::GreaterThanOrEqual, 2)) } else { Some((TokenType::GreaterThan, 1)) }
    } else if c == '<' {
        if next_is_eq { Some((TokenType::LessThanOrEqual, 2)) } else { Some((TokenType::LessThan, 1)) }
    } else if c == '=' {
        if next_is_eq { Some((TokenType::Equal, 2)) } else { Some((TokenType::Assign, 1)) }
    } else {
        None
    }
}

/// Prepends `ts` to a successful result and passes an error through.
pub open spec fn prepend(ts: Seq<Lexeme>, r: Result<Seq<Lexeme>, LexError>) -> Result<Seq<Lexeme>, LexError> {
    match r {
        Ok(rest) => Ok(ts + rest),
        Err(e) => Err(e),
    }
}

/// The tokens of `cs` from index `i` on, where `i` is at `line` and `column`.
pub open spec fn lex_from(cs: Seq<char>, i: int, line: int, column: int) -> Result<Seq<Lexeme>, LexError>
    decreases cs.len() - i,
{
    if i < 0 || i >= cs.len() {
        Ok(Seq::empty())
    } else {
        let c = cs[i];
        if c == '\n' {
            lex_from(cs, i + 1, line + 1, 0)
        } else if is_blank(c) {
            lex_from(cs, i + 1, line, column + 1)
        } else if is_number_char(c) || is_letter(c) {
            let j = run_end(cs, i + 1, is_number_char(c));
            let tt = if is_number_char(c) { TokenType::Number } else { TokenType::Identifier };
            // A run ends within the text and past its first character,
            // so the first branch is never taken.
            if !(i < j <= cs.len()) {
                Ok(Seq::empty())
            } else {
                prepend(
                    seq![Lexeme { ttype: tt, text: cs.subrange(i, j), line, column }],
                    lex_from(cs, j, line, column + (j - i)),
                )
            }
        } else {
            match operator_at(cs, i) {
                Some((tt, n)) => prepend(
                    seq![Lexeme { ttype: tt, text: cs.subrange(i, i + n), line, column }],
                    lex_from(cs, i + n, line, column + n),
                ),
                None => Err(LexError::UnexpectedCharacter(c, Location(line as usize, column as usize))),
            }
        }
    }
}

/// The tokens of a whole text.
pub open spec fn lex(cs: Seq<char>) -> Result<Seq<Lexeme>, LexError> {
    lex_from(cs, 0, 0, 0)
}

proof fn lemma_run_end(cs: Seq<char>, i: int, number: bool)
    requires
        0 <= i <= cs.len(),
    ensures
        i <= run_end(cs, i, number) <= cs.len(),
    decreases cs.len() - i,
{
    if i < cs.len() && in_run(number, cs[i]) {
        lemma_run_end(cs, i + 1, number);
    }
}

proof fn lemma_prepend_twice(a: Seq<Lexeme>, b: Seq<Lexeme>, r: Result<Seq<Lexeme>, LexError>)
    ensures
        prepend(a, prepend(b, r)) == prepend(a + b, r),
{
    if let Ok(rest) = r {
        assert(a + (b + rest) == (a + b) + rest);
    }
}

/// Whether `c` continues a number (`number`) or an identifier (`!number`).
fn continues_run(number: bool, c: char) -> (r: bool)
    ensures
        r == in_run(number, c),
{
    if number {
        ('0' <= c && c <= '9') || c == '.'
    } else {
        ('0' <= c && c <= '9') || ('a' <= c && c <= 'z') || ('A' <= c && c <= 'Z') || c == '_'
    }
}

fn chars_of(s: &str) -> (r: Vec<char>)
    ensures
        r@ == s@,
{
    let mut v: Vec<char> = Vec::new();
    for c in it: s.chars()
        invariant
            v@ == it.seq().take(it.index()),
    {
        v.push(c);
    }
    v
}

/// Turns text into tokens.
pub struct Lexer;

impl Lexer {
    pub fn get_tokens(input: &str) -> (r: Result<Vec<Token>, LexError>)
        ensures
            match lex(input@) {
                Ok(ls) => r is Ok && lexemes(r->Ok_0@) == ls,
                Err(e) => r == Err::<Vec<Token>, LexError>(e),
            },
            r is Ok ==> tokens_wf(r->Ok_0@),
    {
        let cs = chars_of(input);
        let n = cs.len();
        let mut tokens: Vec<Token> = Vec::new();
        let mut i: usize = 0;
        let mut line: usize = 0;
        let mut column: usize = 0;
        while i < n
            invariant
                n == cs@.len(),
                cs@ == input@,
                i <= n,
                line <= i,
                column <= i,
                lex(cs@) == prepend(lexemes(tokens@), lex_from(cs@, i as int, line as int, column as int)),
                tokens_wf(tokens@),
                forall|k: int| 0 <= k < tokens@.len() ==> (#[trigger] tokens@[k]).line <= line,
            decreases n - i,
        {
            let c = cs[i];
            let ghost rest = lex_from(cs@, i as int, line as int, column as int);
            if c == '\n' {
                i = i + 1;
                line = line + 1;
                column = 0;
            } else if c == ' ' || c == '\t' || c == '\r' {
                i = i + 1;
                column = column + 1;
            } else if ('0' <= c && c <= '9') || c == '.' || ('a' <= c && c <= 'z') || ('A' <= c && c <= 'Z') {
                let is_number = ('0' <= c && c <= '9') || c == '.';
                let mut j: usize = i + 1;
                proof {
                    lemma_run_end(cs@, i + 1, is_number);
                }
                while j < n && continues_run(is_number, cs[j])
                    invariant
                        n == cs@.len(),
                        i < j <= n,
                        run_end(cs@, i + 1, is_number) == run_end(cs@, j as int, is_number),
                    decreases n - j,
                {
                    j = j + 1;
                }
                let text = input.substring_char(i, j).to_owned();
                let ttype = if is_number { TokenType::Number } else { TokenType::Identifier };
                let ghost before = tokens@;
                tokens.push(Token { ttype, value: text, line, column });
                proof {
                    assert(lexemes(tokens@) == lexemes(before) + seq![tokens@.last()@]);
                    lemma_prepend_twice(lexemes(before), seq![tokens@.last()@], lex_from(cs@, j as int, line as int, column + (j - i)));
                }
                column = column + (j - i);
                i = j;
            } else {
                let next_is_eq = i + 1 < n && cs[i + 1] == '=';
                let op: Option<(TokenType, usize)> = if c == '+' {
                    Some((TokenType::Plus, 1))
                } else if c == '-' {
                    Some((TokenType::Minus, 1))
                } else if c == '*' {
                    Some((TokenType::Times, 1))
                } else if c == '/' {
                    Some((TokenType::Div, 1))
                } else if c == '(' {
                    Some((TokenType::LeftParenthesis, 1))
                } else if c == ')' {
                    Some((TokenType::RightParenthesis, 1))
                } else if c == '>' {
                    if next_is_eq { Some((TokenType::GreaterThanOrEqual, 2)) } else { Some((TokenType::GreaterThan, 1)) }
                } else if c == '<' {
                    if next_is_eq { Some((TokenType::LessThanOrEqual, 2)) } else { Some((TokenType::LessThan, 1)) }
                } else if c == '=' {
                    if next_is_eq { Some((TokenType::Equal, 2)) } else { Some((TokenType::Assign, 1)) }
                } else {
                    None
                };
                match op {
                    Some((ttype, len)) => {
                        let text = input.substring_char(i, i + len).to_owned();
                        let ghost before = tokens@;
                        tokens.push(Token { ttype, value: text, line, column });
                        proof {
                            assert(lexemes(tokens@) == lexemes(before) + seq![tokens@.last()@]);
                            lemma_prepend_twice(lexemes(before), seq![tokens@.last()@], lex_from(cs@, i + len, line as int, column + len));
                        }
                        column = column + len;
                        i = i + len;
                    },
                    None => {
                        return Err(LexError::UnexpectedCharacter(c, Location(line, column)));
                    },
                }
            }
        }
        Ok(tokens)
    }
}

} // verus!
