//! The tokenizer: splits source text into tokens and runs of invalid
//! characters, tracking character position, line and column.
use vstd::prelude::*;

use super::token::{
    keyword_at_entry, keyword_chars, keyword_entry, keyword_spelling, symbol_at_entry,
    symbol_chars, symbol_entry, symbol_spelling, KeywordTy, SymbolTy, Token, TokenTy,
    KEYWORD_COUNT, SYMBOL_COUNT,
};
use crate::{PrimitiveTy, TextSection};

verus! {

/// Space and carriage return: skipped, one column each.
pub open spec fn is_blank(c: char) -> bool {
    c == ' ' || c == '\r'
}

pub open spec fn is_digit(c: char) -> bool {
    '0' <= c && c <= '9'
}

/// Characters that make up an identifier: ASCII letters and digits and
/// the underscore. Any other character (every non-ASCII one among them)
/// starts no token.
pub open spec fn is_ident_char(c: char) -> bool {
    ('a' <= c && c <= 'z') || ('A' <= c && c <= 'Z') || ('0' <= c && c <= '9') || c == '_'
}

fn is_ident(c: char) -> (r: bool)
    ensures
        r == is_ident_char(c),
{
    ('a' <= c && c <= 'z') || ('A' <= c && c <= 'Z') || ('0' <= c && c <= '9') || c == '_'
}

/// Whether `w` occurs in `s` at position `i`.
pub open spec fn occurs_at(s: Seq<char>, i: int, w: Seq<char>) -> bool {
    0 <= i && i + w.len() <= s.len() && s.subrange(i, i + w.len()) == w
}

/// Length of the maximal run of decimal digits that starts at `i`.
pub open spec fn digit_run(s: Seq<char>, i: int) -> nat
    decreases s.len() - i,
{
    if 0 <= i < s.len() && is_digit(s[i]) {
        1 + digit_run(s, i + 1)
    } else {
        0
    }
}

/// Length of the maximal run of identifier characters that starts at `i`.
pub open spec fn ident_run(s: Seq<char>, i: int) -> nat
    decreases s.len() - i,
{
    if 0 <= i < s.len() && is_ident_char(s[i]) {
        1 + ident_run(s, i + 1)
    } else {
        0
    }
}

/// The first symbol of the table, from entry `k` on, that occurs at `i`.
pub open spec fn symbol_from(s: Seq<char>, i: int, k: int) -> Option<SymbolTy>
    decreases SYMBOL_COUNT - k,
{
    if k < 0 || k >= SYMBOL_COUNT {
        None
    } else if occurs_at(s, i, symbol_spelling(symbol_entry(k))) {
        Some(symbol_entry(k))
    } else {
        symbol_from(s, i, k + 1)
    }
}

/// The symbol that the lexer reads at `i`, if any.
pub open spec fn symbol_at(s: Seq<char>, i: int) -> Option<SymbolTy> {
    symbol_from(s, i, 0)
}

/// A keyword occurs at `i` and no identifier character follows it.
pub open spec fn keyword_fits(s: Seq<char>, i: int, k: KeywordTy) -> bool {
    let n = keyword_spelling(k).len();
    occurs_at(s, i, keyword_spelling(k)) && !(i + n < s.len() && is_ident_char(s[i + n]))
}

/// The first keyword of the table, from entry `k` on, that fits at `i`.
pub open spec fn keyword_from(s: Seq<char>, i: int, k: int) -> Option<KeywordTy>
    decreases KEYWORD_COUNT - k,
{
    if k < 0 || k >= KEYWORD_COUNT {
        None
    } else if keyword_fits(s, i, keyword_entry(k)) {
        Some(keyword_entry(k))
    } else {
        keyword_from(s, i, k + 1)
    }
}

/// The keyword that the lexer reads at `i`, if any.
pub open spec fn keyword_at(s: Seq<char>, i: int) -> Option<KeywordTy> {
    keyword_from(s, i, 0)
}

/// The token that starts at `i` (not a blank or a newline), with its length:
/// a number, else a symbol, else a keyword, else an identifier.
pub open spec fn token_at(s: Seq<char>, i: int) -> Option<(TokenTy, nat)> {
    if !(0 <= i < s.len()) {
        None
    } else if is_digit(s[i]) {
        Some((TokenTy::Literal(PrimitiveTy::Number), digit_run(s, i)))
    } else if let Some(sym) = symbol_at(s, i) {
        Some((TokenTy::Symbol(sym), symbol_spelling(sym).len()))
    } else if let Some(kw) = keyword_at(s, i) {
        Some((TokenTy::Keyword(kw), keyword_spelling(kw).len()))
    } else if ident_run(s, i) > 0 {
        Some((TokenTy::Identifier, ident_run(s, i)))
    } else {
        None
    }
}

/// The length of the token that starts at `i` (zero if none does).
pub open spec fn token_len(s: Seq<char>, i: int) -> nat {
    match token_at(s, i) {
        Some((_, n)) => n,
        None => 0,
    }
}

/// The character at `i` starts no token and is no blank or newline.
pub open spec fn invalid_at(s: Seq<char>, i: int) -> bool {
    0 <= i < s.len() && !is_blank(s[i]) && s[i] != '\n' && token_at(s, i) is None
}

/// Length of the maximal run of invalid characters that starts at `i`.
pub open spec fn invalid_run(s: Seq<char>, i: int) -> nat
    decreases s.len() - i,
{
    if invalid_at(s, i) {
        1 + invalid_run(s, i + 1)
    } else {
        0
    }
}

pub open spec fn span(a: int, b: int) -> std::ops::Range<usize> {
    std::ops::Range { start: a as usize, end: b as usize }
}

/// Everything the lexer reports from position `i` on, at line `line` and
/// column `col`: one item per token, one per maximal run of invalid
/// characters; blanks and newlines only move the position.
pub open spec fn lex_from(s: Seq<char>, i: int, line: int, col: int) -> Seq<
    Result<Token, TextSection>,
>
    decreases s.len() - i,
{
    if i < 0 || i >= s.len() {
        seq![]
    } else if is_blank(s[i]) {
        lex_from(s, i + 1, line, col + 1)
    } else if s[i] == '\n' {
        lex_from(s, i + 1, line + 1, 0)
    } else if let Some((ty, n)) = token_at(s, i) {
        if 0 < n && i + n <= s.len() {
            seq![Ok(Token { range: span(i, i + n), ty })] + lex_from(s, i + n, line, col + n)
        } else {
            seq![]
        }
    } else {
        let n = invalid_run(s, i);
        if 0 < n && i + n <= s.len() {
            seq![
                Err(
                    TextSection {
                        index: span(i, i + n),
                        line: span(line, line),
                        column: span(col, col + n),
                    },
                ),
            ] + lex_from(s, i + n, line, col + n)
        } else {
            seq![]
        }
    }
}

/// Everything the lexer reports on a whole source text.
pub open spec fn lex(s: Seq<char>) -> Seq<Result<Token, TextSection>> {
    lex_from(s, 0, 0, 0)
}

/// What one scanning step found.
enum TokenResult {
    Token(Token),
    Skip,
    InvalidCharacter(char),
    End,
}

/// A lexer over one source text. `index` is the position (in characters) of
/// the next character to read, `line` and `column` where it stands.
pub struct Tokenizer {
    pub source: Vec<char>,
    pub line: usize,
    pub column: usize,
    pub index: usize,
}

impl Tokenizer {
    /// Position, line and column agree with the text read so far.
    pub open spec fn wf(&self) -> bool {
        &&& self.index <= self.source.len()
        &&& self.line <= self.index
        &&& self.column <= self.index
    }

    /// Everything that is still to be reported.
    pub open spec fn rest(&self) -> Seq<Result<Token, TextSection>> {
        lex_from(self.source@, self.index as int, self.line as int, self.column as int)
    }

    /// A lexer at the start of `s`.
    pub fn new(s: &str) -> (r: Tokenizer)
        ensures
            r.wf(),
            r.source@ == s@,
            r.index == 0,
            r.line == 0,
            r.column == 0,
            r.rest() == lex(s@),
    {
        let n = s.unicode_len();
        let mut source: Vec<char> = Vec::new();
        let mut k: usize = 0;
        while k < n
            invariant
                k <= n,
                n == s@.len(),
                source@ == s@.subrange(0, k as int),
            decreases n - k,
        {
            source.push(s.get_char(k));
            k += 1;
            assert(source@ =~= s@.subrange(0, k as int));
        }
        assert(source@ =~= s@);
        Tokenizer { source, line: 0, column: 0, index: 0 }
    }

    /// Whether the characters of `w` stand at position `at`.
    fn occurs(&self, at: usize, w: &Vec<char>) -> (r: bool)
        requires
            at <= self.source.len(),
        ensures
            r == occurs_at(self.source@, at as int, w@),
    {
        if w.len() > self.source.len() - at {
            return false;
        }
        let mut k: usize = 0;
        while k < w.len()
            invariant
                k <= w.len(),
                at + w.len() <= self.source.len(),
                forall|m: int| 0 <= m < k ==> self.source@[at + m] == w@[m],
            decreases w.len() - k,
        {
            if self.source[at + k] != w[k] {
                assert(self.source@.subrange(at as int, at + w.len())[k as int] != w@[k as int]);
                return false;
            }
            k += 1;
        }
        assert(self.source@.subrange(at as int, at + w.len()) =~= w@);
        true
    }

    /// The length of the run of decimal digits at `at`.
    fn read_number(&self, at: usize) -> (r: usize)
        requires
            at <= self.source.len(),
        ensures
            r == digit_run(self.source@, at as int),
            at + r <= self.source.len(),
    {
        let mut j = at;
        while j < self.source.len() && '0' <= self.source[j] && self.source[j] <= '9'
            invariant
                at <= j <= self.source.len(),
                digit_run(self.source@, at as int) == (j - at) + digit_run(self.source@, j as int),
            decreases self.source.len() - j,
        {
            j += 1;
        }
        j - at
    }

    /// The length of the run of identifier characters at `at`.
    fn read_identifier(&self, at: usize) -> (r: usize)
        requires
            at <= self.source.len(),
        ensures
            r == ident_run(self.source@, at as int),
            at + r <= self.source.len(),
    {
        let mut j = at;
        while j < self.source.len() && is_ident(self.source[j])
            invariant
                at <= j <= self.source.len(),
                ident_run(self.source@, at as int) == (j - at) + ident_run(self.source@, j as int),
            decreases self.source.len() - j,
        {
            j += 1;
        }
        j - at
    }

    /// The first symbol of the table that stands at `at`.
    fn read_symbol(&self, at: usize) -> (r: Option<SymbolTy>)
        requires
            at <= self.source.len(),
        ensures
            r == symbol_at(self.source@, at as int),
            r matches Some(sym) ==> occurs_at(self.source@, at as int, symbol_spelling(sym)),
    {
        let mut k: usize = 0;
        while k < SYMBOL_COUNT
            invariant
                k <= SYMBOL_COUNT,
                at <= self.source.len(),
                symbol_at(self.source@, at as int) == symbol_from(self.source@, at as int, k as int),
            decreases SYMBOL_COUNT - k,
        {
            let sym = symbol_at_entry(k);
            let w = symbol_chars(sym);
            if self.occurs(at, &w) {
                return Some(sym);
            }
            k += 1;
        }
        None
    }

    /// The first keyword of the table that stands at `at` and is not the
    /// start of a longer identifier.
    fn read_keyword(&self, at: usize) -> (r: Option<KeywordTy>)
        requires
            at <= self.source.len(),
        ensures
            r == keyword_at(self.source@, at as int),
            r matches Some(kw) ==> occurs_at(self.source@, at as int, keyword_spelling(kw)),
    {
        let mut k: usize = 0;
        while k < KEYWORD_COUNT
            invariant
                k <= KEYWORD_COUNT,
                at <= self.source.len(),
                keyword_at(self.source@, at as int) == keyword_from(self.source@, at as int, k as int),
            decreases KEYWORD_COUNT - k,
        {
            let kw = keyword_at_entry(k);
            let w = keyword_chars(kw);
            if self.occurs(at, &w) {
                let end = at + w.len();
                let joined = end < self.source.len() && is_ident(self.source[end]);
                if !joined {
                    return Some(kw);
                }
            }
            k += 1;
        }
        None
    }

    /// The token that starts at `at`, with its length.
    fn scan_at(&self, at: usize) -> (r: Option<(TokenTy, usize)>)
        requires
            at < self.source.len(),
        ensures
            match r {
                Some((ty, n)) => token_at(self.source@, at as int) == Some((ty, n as nat)) && 0 < n
                    && at + n <= self.source.len(),
                None => token_at(self.source@, at as int) is None,
            },
    {
        let c = self.source[at];
        if '0' <= c && c <= '9' {
            let n = self.read_number(at);
            return Some((TokenTy::Literal(PrimitiveTy::Number), n));
        }
        match self.read_symbol(at) {
            Some(sym) => {
                let n = symbol_chars(sym).len();
                return Some((TokenTy::Symbol(sym), n));
            },
            None => {},
        }
        match self.read_keyword(at) {
            Some(kw) => {
                let n = keyword_chars(kw).len();
                return Some((TokenTy::Keyword(kw), n));
            },
            None => {},
        }
        let n = self.read_identifier(at);
        if n > 0 {
            Some((TokenTy::Identifier, n))
        } else {
            None
        }
    }

    /// The length of the run of invalid characters at `at`.
    fn invalid_run_len(&self, at: usize) -> (r: usize)
        requires
            at <= self.source.len(),
        ensures
            r == invalid_run(self.source@, at as int),
            at + r <= self.source.len(),
    {
        let mut j = at;
        while j < self.source.len() && self.invalid_here(j)
            invariant
                at <= j <= self.source.len(),
                invalid_run(self.source@, at as int) == (j - at) + invalid_run(
                    self.source@,
                    j as int,
                ),
            decreases self.source.len() - j,
        {
            j += 1;
        }
        j - at
    }

    /// Whether the character at `at` is invalid.
    fn invalid_here(&self, at: usize) -> (r: bool)
        requires
            at < self.source.len(),
        ensures
            r == invalid_at(self.source@, at as int),
    {
        let c = self.source[at];
        if c == ' ' || c == '\r' || c == '\n' {
            false
        } else {
            self.scan_at(at).is_none()
        }
    }

    /// Moves `n` characters along the current line.
    fn increment_col(&mut self, n: usize)
        requires
            old(self).wf(),
            old(self).index + n <= old(self).source.len(),
        ensures
            final(self).wf(),
            final(self).source == old(self).source,
            final(self).index == old(self).index + n,
            final(self).column == old(self).column + n,
            final(self).line == old(self).line,
    {
        self.column += n;
        self.index += n;
    }

    /// Moves over a newline.
    fn increment_line(&mut self)
        requires
            old(self).wf(),
            old(self).index < old(self).source.len(),
        ensures
            final(self).wf(),
            final(self).source == old(self).source,
            final(self).index == old(self).index + 1,
            final(self).column == 0,
            final(self).line == old(self).line + 1,
    {
        self.column = 0;
        self.line += 1;
        self.index += 1;
    }

    /// One scanning step: skips one blank or newline, reads one token, or
    /// moves over one invalid character.
    fn next_token(&mut self) -> (r: TokenResult)
        requires
            old(self).wf(),
        ensures
            final(self).wf(),
            final(self).source == old(self).source,
            ({
                let s = old(self).source@;
                let i = old(self).index as int;
                match r {
                    TokenResult::End => i >= s.len() && *final(self) == *old(self),
                    TokenResult::Skip => i < s.len() && final(self).index == i + 1 && (
                    (is_blank(s[i]) && final(self).line == old(self).line
                        && final(self).column == old(self).column + 1) || (s[i] == '\n'
                        && final(self).line == old(self).line + 1 && final(self).column == 0)),
                    TokenResult::Token(t) => i < s.len() && !is_blank(s[i]) && s[i] != '\n'
                        && i < final(self).index && t.range == span(i, final(self).index as int)
                        && token_at(s, i) == Some((t.ty, (final(self).index - i) as nat))
                        && final(self).line == old(self).line && final(self).column
                        == old(self).column + (final(self).index - i),
                    TokenResult::InvalidCharacter(c) => c == s[i] && invalid_at(s, i) && final(self).index == i
                        + 1 && final(self).line == old(self).line && final(self).column
                        == old(self).column + 1,
                }
            }),
    {
        if self.index >= self.source.len() {
            return TokenResult::End;
        }
        let c = self.source[self.index];
        if c == ' ' || c == '\r' {
            self.increment_col(1);
            return TokenResult::Skip;
        }
        if c == '\n' {
            self.increment_line();
            return TokenResult::Skip;
        }
        match self.scan_at(self.index) {
            Some((ty, n)) => {
                let start = self.index;
                self.increment_col(n);
                TokenResult::Token(Token { range: std::ops::Range { start, end: self.index }, ty })
            },
            None => {
                self.increment_col(1);
                TokenResult::InvalidCharacter(c)
            },
        }
    }

    /// The next token, or the next maximal run of invalid characters, or
    /// `None` at the end of the text.
    pub fn next(&mut self) -> (r: Option<Result<Token, TextSection>>)
        requires
            old(self).wf(),
        ensures
            final(self).wf(),
            final(self).source == old(self).source,
            old(self).index == old(self).source.len() ==> r is None && *final(self) == *old(self),
            match r {
                None => old(self).rest() == Seq::<Result<Token, TextSection>>::empty()
                    && final(self).index == final(self).source.len() && final(self).rest()
                    == Seq::<Result<Token, TextSection>>::empty(),
                Some(item) => old(self).rest() == seq![item] + final(self).rest() && old(
                    self,
                ).index < final(self).index,
            },
    {
        let ghost first = self.rest();
        let ghost i0 = self.index;
        let ghost src = self.source;
        loop
            invariant
                self.wf(),
                self.source == src,
                src == old(self).source,
                first == old(self).rest(),
                i0 == old(self).index,
                i0 == self.source.len() ==> *self == *old(self),
                self.rest() == first,
                i0 <= self.index,
            decreases self.source.len() - self.index,
        {
            let pre_line = self.line;
            let pre_col = self.column;
            let pre_index = self.index;
            match self.next_token() {
                TokenResult::Token(token) => {
                    assert(lex_from(self.source@, pre_index as int, pre_line as int, pre_col as int)
                        == seq![Ok(token)] + self.rest());
                    return Some(Ok(token));
                },
                TokenResult::Skip => {
                    assert(lex_from(self.source@, pre_index as int, pre_line as int, pre_col as int)
                        == self.rest());
                },
                TokenResult::InvalidCharacter(_) => {
                    let length = self.invalid_run_len(self.index);
                    self.increment_col(length);
                    let section = TextSection {
                        index: std::ops::Range { start: pre_index, end: self.index },
                        line: std::ops::Range { start: pre_line, end: self.line },
                        column: std::ops::Range { start: pre_col, end: self.column },
                    };
                    proof {
                        let s = self.source@;
                        let i = pre_index as int;
                        assert(invalid_run(s, i) == 1 + invalid_run(s, i + 1));
                        assert(lex_from(s, i, pre_line as int, pre_col as int) == seq![
                            Err(section),
                        ] + self.rest());
                    }
                    return Some(Err(section));
                },
                TokenResult::End => {
                    return None;
                },
            }
        }
    }

    /// Everything that is still to be reported, in order.
    pub fn tokens(self) -> (r: Vec<Result<Token, TextSection>>)
        requires
            self.wf(),
        ensures
            r@ == self.rest(),
    {
        let ghost all = self.rest();
        let mut lexer = self;
        let mut out: Vec<Result<Token, TextSection>> = Vec::new();
        loop
            invariant
                lexer.wf(),
                out@ + lexer.rest() == all,
                all == self.rest(),
            decreases lexer.source.len() - lexer.index,
        {
            match lexer.next() {
                Some(item) => {
                    proof {
                        assert(out@.push(item) + lexer.rest() =~= out@ + (seq![item] + lexer.rest()));
                    }
                    out.push(item);
                },
                None => {
                    assert(out@ =~= all);
                    return out;
                },
            }
        }
    }
}

/// Lexes a whole source text.
pub fn tokenize(s: &str) -> (r: Vec<Result<Token, TextSection>>)
    ensures
        r@ == lex(s@),
{
    Tokenizer::new(s).tokens()
}

/// Blanks and newlines.
pub open spec fn is_space(c: char) -> bool {
    is_blank(c) || c == '\n'
}

/// A character that is by itself a complete symbol.
pub open spec fn is_symbol_char(c: char) -> bool {
    c == '+' || c == '=' || c == '>' || c == '(' || c == ')' || c == '{' || c == '}' || c == ';'
}

/// Text made only of whitespace, digits and symbols (a `-` only as the
/// start of `->`).
pub open spec fn plain_text(s: Seq<char>) -> bool {
    forall|i: int|
        0 <= i < s.len() ==> is_space(#[trigger] s[i]) || is_digit(s[i]) || is_symbol_char(s[i])
            || (s[i] == '-' && i + 1 < s.len() && s[i + 1] == '>')
}

/// Read from position `from` on, `items` are tokens, each one after the
/// previous, with only whitespace between them and after the last: together
/// with that whitespace their spans make up the text exactly.
pub open spec fn tiles(s: Seq<char>, items: Seq<Result<Token, TextSection>>, from: int) -> bool
    decreases items.len(),
{
    if items.len() == 0 {
        forall|p: int| from <= p < s.len() ==> is_space(#[trigger] s[p])
    } else {
        &&& items[0] is Ok
        &&& from <= items[0]->Ok_0.range.start
        &&& items[0]->Ok_0.range.start < items[0]->Ok_0.range.end
        &&& items[0]->Ok_0.range.end <= s.len()
        &&& forall|p: int| from <= p < items[0]->Ok_0.range.start ==> is_space(#[trigger] s[p])
        &&& tiles(s, items.drop_first(), items[0]->Ok_0.range.end as int)
    }
}

proof fn lemma_digit_run_bounded(s: Seq<char>, i: int)
    requires
        0 <= i <= s.len(),
    ensures
        i + digit_run(s, i) <= s.len(),
    decreases s.len() - i,
{
    if i < s.len() && is_digit(s[i]) {
        lemma_digit_run_bounded(s, i + 1);
    }
}

proof fn lemma_symbol_found(s: Seq<char>, i: int, j: int, k: int)
    requires
        0 <= j <= k < SYMBOL_COUNT,
        occurs_at(s, i, symbol_spelling(symbol_entry(k))),
    ensures
        symbol_from(s, i, j) is Some,
    decreases k - j,
{
    if j < k && !occurs_at(s, i, symbol_spelling(symbol_entry(j))) {
        lemma_symbol_found(s, i, j + 1, k);
    }
}

proof fn lemma_symbol_occurs(s: Seq<char>, i: int, j: int)
    requires
        0 <= j,
        symbol_from(s, i, j) is Some,
    ensures
        occurs_at(s, i, symbol_spelling(symbol_from(s, i, j)->0)),
        symbol_spelling(symbol_from(s, i, j)->0).len() > 0,
    decreases SYMBOL_COUNT - j,
{
    if j < SYMBOL_COUNT && !occurs_at(s, i, symbol_spelling(symbol_entry(j))) {
        lemma_symbol_occurs(s, i, j + 1);
    }
}

/// At a digit or a symbol character of plain text a token starts, and it
/// ends within the text.
proof fn lemma_plain_token(s: Seq<char>, i: int)
    requires
        plain_text(s),
        0 <= i < s.len(),
        !is_space(s[i]),
    ensures
        token_at(s, i) is Some,
        0 < token_len(s, i),
        i + token_len(s, i) <= s.len(),
{
    let c = s[i];
    if is_digit(c) {
        lemma_digit_run_bounded(s, i + 1);
    } else {
        let k: int = if c == '-' {
            0
        } else if c == '=' {
            2
        } else if c == '+' {
            3
        } else if c == '>' {
            4
        } else if c == '(' {
            5
        } else if c == ')' {
            6
        } else if c == '{' {
            7
        } else if c == '}' {
            8
        } else {
            9
        };
        if c == '-' {
            assert(s.subrange(i, i + 2) =~= seq!['-', '>']);
        } else {
            assert(s.subrange(i, i + 1) =~= seq![c]);
        }
        lemma_symbol_found(s, i, 0, k);
        lemma_symbol_occurs(s, i, 0);
    }
}

proof fn lemma_plain_tiles(s: Seq<char>, i: int, line: int, col: int)
    requires
        plain_text(s),
        0 <= i <= s.len(),
        s.len() <= usize::MAX,
    ensures
        tiles(s, lex_from(s, i, line, col), i),
    decreases s.len() - i,
{
    if i < s.len() {
        if is_space(s[i]) {
            let next_line = if is_blank(s[i]) { line } else { line + 1 };
            let next_col = if is_blank(s[i]) { col + 1 } else { 0 };
            lemma_plain_tiles(s, i + 1, next_line, next_col);
            assert(lex_from(s, i, line, col) == lex_from(s, i + 1, next_line, next_col));
        } else {
            lemma_plain_token(s, i);
            let n = token_len(s, i);
            lemma_plain_tiles(s, i + n, line, col + n);
            let items = lex_from(s, i, line, col);
            assert(items.drop_first() =~= lex_from(s, i + n, line, col + n));
        }
    }
}

/// Lexing text made only of whitespace, digits and symbols reports no
/// error, and the spans of the tokens, in order and without overlap, cover
/// every character but whitespace.
pub proof fn lex_plain_text_tiles(s: Seq<char>)
    requires
        plain_text(s),
        s.len() <= usize::MAX,
    ensures
        tiles(s, lex(s), 0),
{
    lemma_plain_tiles(s, 0, 0, 0);
}

/// Every token among `items` covers a span of a text of length `n`.
pub open spec fn tokens_within(items: Seq<Result<Token, TextSection>>, n: int) -> bool {
    forall|k: int|
        0 <= k < items.len() && (#[trigger] items[k]) is Ok ==> items[k]->Ok_0.range.start
            <= items[k]->Ok_0.range.end <= n
}

proof fn lemma_lex_within(s: Seq<char>, i: int, line: int, col: int)
    requires
        0 <= i <= s.len(),
        s.len() <= usize::MAX,
    ensures
        tokens_within(lex_from(s, i, line, col), s.len() as int),
    decreases s.len() - i,
{
    if i < s.len() {
        if is_blank(s[i]) {
            lemma_lex_within(s, i + 1, line, col + 1);
        } else if s[i] == '\n' {
            lemma_lex_within(s, i + 1, line + 1, 0);
        } else {
            let n: int = match token_at(s, i) {
                Some((_, len)) => len as int,
                None => invalid_run(s, i) as int,
            };
            if 0 < n && i + n <= s.len() {
                lemma_lex_within(s, i + n, line, col + n);
                let items = lex_from(s, i, line, col);
                let rest = lex_from(s, i + n, line, col + n);
                assert forall|k: int| 0 <= k < items.len() && (#[trigger] items[k]) is Ok implies items[k]->Ok_0.range.start
                    <= items[k]->Ok_0.range.end <= s.len() by {
                    if k > 0 {
                        assert(items[k] == rest[k - 1]);
                    }
                }
            }
        }
    }
}

/// Every token that lexing reports covers a span of the lexed text, so the
/// tokens can be resolved against it.
pub proof fn lex_tokens_within(s: Seq<char>)
    requires
        s.len() <= usize::MAX,
    ensures
        tokens_within(lex(s), s.len() as int),
{
    lemma_lex_within(s, 0, 0, 0);
}

/// The text put back together from `items` read from position `from` on:
/// before each token the gap of text since the previous one, then the
/// token's span, and after the last token the rest of the text.
pub open spec fn rebuild(s: Seq<char>, items: Seq<Result<Token, TextSection>>, from: int) -> Seq<
    char,
>
    decreases items.len(),
{
    if items.len() == 0 {
        s.subrange(from, s.len() as int)
    } else {
        let r = items[0]->Ok_0.range;
        s.subrange(from, r.start as int) + s.subrange(r.start as int, r.end as int) + rebuild(
            s,
            items.drop_first(),
            r.end as int,
        )
    }
}

proof fn lemma_rebuild_tiles(s: Seq<char>, items: Seq<Result<Token, TextSection>>, from: int)
    requires
        0 <= from <= s.len(),
        tiles(s, items, from),
    ensures
        rebuild(s, items, from) == s.subrange(from, s.len() as int),
    decreases items.len(),
{
    if items.len() > 0 {
        let r = items[0]->Ok_0.range;
        lemma_rebuild_tiles(s, items.drop_first(), r.end as int);
        assert(s.subrange(from, r.start as int) + s.subrange(r.start as int, r.end as int)
            + s.subrange(r.end as int, s.len() as int) =~= s.subrange(from, s.len() as int));
    }
}

/// On text made only of whitespace, digits and symbols, the gaps between
/// the tokens together with the tokens' spans give back the text exactly,
/// so lexing that concatenation again gives the same tokens.
pub proof fn lex_plain_text_round_trip(s: Seq<char>)
    requires
        plain_text(s),
        s.len() <= usize::MAX,
    ensures
        rebuild(s, lex(s), 0) == s,
        lex(rebuild(s, lex(s), 0)) == lex(s),
{
    lemma_plain_tiles(s, 0, 0, 0);
    lemma_rebuild_tiles(s, lex(s), 0);
    assert(s.subrange(0, s.len() as int) =~= s);
}

/// The line (counted from 0) on which position `p` of `s` stands.
pub open spec fn line_of(s: Seq<char>, p: int) -> nat
    decreases p,
{
    if p <= 0 || p > s.len() {
        0
    } else {
        line_of(s, p - 1) + if s[p - 1] == '\n' {
            1nat
        } else {
            0nat
        }
    }
}

/// The column (counted from 0) at which position `p` of `s` stands.
pub open spec fn column_of(s: Seq<char>, p: int) -> nat
    decreases p,
{
    if p <= 0 || p > s.len() {
        0
    } else if s[p - 1] == '\n' {
        0
    } else {
        column_of(s, p - 1) + 1
    }
}

/// Each error among `items` reports one maximal run of invalid characters
/// of `s` on one line (the line and column where the run starts): a nonempty span within the text, as many columns as
/// characters, every character in it invalid, the ones just before and just
/// after it not.
pub open spec fn errors_coalesced(s: Seq<char>, items: Seq<Result<Token, TextSection>>) -> bool {
    forall|k: int|
        0 <= k < items.len() && (#[trigger] items[k]) is Err ==> {
            let e = items[k]->Err_0;
            &&& e.index.start < e.index.end <= s.len()
            &&& e.column.end - e.column.start == e.index.end - e.index.start
            &&& e.line.start == e.line.end
            &&& e.line.start == line_of(s, e.index.start as int)
            &&& e.column.start == column_of(s, e.index.start as int)
            &&& forall|p: int| e.index.start <= p < e.index.end ==> invalid_at(s, p)
            &&& !invalid_at(s, e.index.end as int)
            &&& (e.index.start == 0 || !invalid_at(s, e.index.start - 1))
        }
}

proof fn lemma_invalid_run_contents(s: Seq<char>, i: int)
    requires
        0 <= i <= s.len(),
    ensures
        i + invalid_run(s, i) <= s.len(),
        forall|p: int| i <= p < i + invalid_run(s, i) ==> invalid_at(s, p),
        !invalid_at(s, i + invalid_run(s, i)),
    decreases s.len() - i,
{
    if invalid_at(s, i) {
        lemma_invalid_run_contents(s, i + 1);
    }
}

proof fn lemma_digit_run_contents(s: Seq<char>, i: int)
    requires
        0 <= i <= s.len(),
    ensures
        i + digit_run(s, i) <= s.len(),
        forall|p: int| i <= p < i + digit_run(s, i) ==> is_digit(s[p]),
    decreases s.len() - i,
{
    if i < s.len() && is_digit(s[i]) {
        lemma_digit_run_contents(s, i + 1);
    }
}

proof fn lemma_ident_run_contents(s: Seq<char>, i: int)
    requires
        0 <= i <= s.len(),
    ensures
        i + ident_run(s, i) <= s.len(),
        forall|p: int| i <= p < i + ident_run(s, i) ==> is_ident_char(s[p]),
    decreases s.len() - i,
{
    if i < s.len() && is_ident_char(s[i]) {
        lemma_ident_run_contents(s, i + 1);
    }
}

proof fn lemma_keyword_fits(s: Seq<char>, i: int, j: int)
    requires
        0 <= j,
        keyword_from(s, i, j) is Some,
    ensures
        keyword_fits(s, i, keyword_from(s, i, j)->0),
    decreases KEYWORD_COUNT - j,
{
    if j < KEYWORD_COUNT && !keyword_fits(s, i, keyword_entry(j)) {
        lemma_keyword_fits(s, i, j + 1);
    }
}

/// A token starts at every identifier character.
proof fn lemma_ident_char_starts_token(s: Seq<char>, p: int)
    requires
        0 <= p < s.len(),
        is_ident_char(s[p]),
    ensures
        !invalid_at(s, p),
{
    assert(ident_run(s, p) > 0);
}

/// A token starts at every character that is by itself a symbol.
proof fn lemma_symbol_char_starts_token(s: Seq<char>, p: int)
    requires
        0 <= p < s.len(),
        is_symbol_char(s[p]),
    ensures
        !invalid_at(s, p),
{
    let c = s[p];
    let k: int = if c == '=' {
        2
    } else if c == '+' {
        3
    } else if c == '>' {
        4
    } else if c == '(' {
        5
    } else if c == ')' {
        6
    } else if c == '{' {
        7
    } else if c == '}' {
        8
    } else {
        9
    };
    assert(s.subrange(p, p + 1) =~= seq![c]);
    lemma_symbol_found(s, p, 0, k);
}

/// The last character of a token is not invalid.
proof fn lemma_token_end_valid(s: Seq<char>, i: int)
    requires
        0 <= i < s.len(),
        token_at(s, i) is Some,
    ensures
        0 < token_len(s, i) ==> i + token_len(s, i) <= s.len() ==> !invalid_at(
            s,
            i + token_len(s, i) - 1,
        ),
{
    let n = token_len(s, i) as int;
    if 0 < n && i + n <= s.len() {
        let p = i + n - 1;
        if is_digit(s[i]) {
            lemma_digit_run_contents(s, i);
            assert(is_digit(s[p]));
        } else if symbol_at(s, i) is Some {
            lemma_symbol_occurs(s, i, 0);
            let w = symbol_spelling(symbol_at(s, i)->0);
            assert(s[p] == s.subrange(i, i + w.len())[w.len() - 1]);
            lemma_symbol_char_starts_token(s, p);
        } else if keyword_at(s, i) is Some {
            lemma_keyword_fits(s, i, 0);
            let w = keyword_spelling(keyword_at(s, i)->0);
            assert(s[p] == s.subrange(i, i + w.len())[w.len() - 1]);
            lemma_ident_char_starts_token(s, p);
        } else {
            lemma_ident_run_contents(s, i);
            lemma_ident_char_starts_token(s, p);
        }
    }
}

proof fn lemma_position_bounds(s: Seq<char>, p: int)
    requires
        0 <= p <= s.len(),
    ensures
        line_of(s, p) <= p,
        column_of(s, p) <= p,
    decreases p,
{
    if p > 0 {
        lemma_position_bounds(s, p - 1);
    }
}

/// Moving over `n` characters that hold no newline keeps the line and
/// moves the column by `n`.
proof fn lemma_same_line(s: Seq<char>, i: int, n: int)
    requires
        0 <= i,
        0 <= n,
        i + n <= s.len(),
        forall|p: int| i <= p < i + n ==> s[p] != '\n',
    ensures
        line_of(s, i + n) == line_of(s, i),
        column_of(s, i + n) == column_of(s, i) + n,
    decreases n,
{
    if n > 0 {
        lemma_same_line(s, i, n - 1);
    }
}

/// No token holds a newline.
proof fn lemma_token_no_newline(s: Seq<char>, i: int)
    requires
        0 <= i < s.len(),
        token_at(s, i) is Some,
    ensures
        i + token_len(s, i) <= s.len() ==> forall|p: int|
            i <= p < i + token_len(s, i) ==> s[p] != '\n',
{
    let n = token_len(s, i) as int;
    if i + n <= s.len() {
        if is_digit(s[i]) {
            lemma_digit_run_contents(s, i);
        } else if symbol_at(s, i) is Some {
            lemma_symbol_occurs(s, i, 0);
            let w = symbol_spelling(symbol_at(s, i)->0);
            assert forall|p: int| i <= p < i + n implies s[p] != '\n' by {
                assert(s[p] == s.subrange(i, i + w.len())[p - i]);
            }
        } else if keyword_at(s, i) is Some {
            lemma_keyword_fits(s, i, 0);
            let w = keyword_spelling(keyword_at(s, i)->0);
            assert forall|p: int| i <= p < i + n implies s[p] != '\n' by {
                assert(s[p] == s.subrange(i, i + w.len())[p - i]);
            }
        } else {
            lemma_ident_run_contents(s, i);
        }
    }
}

proof fn lemma_lex_coalesced(s: Seq<char>, i: int, line: int, col: int)
    requires
        0 <= i <= s.len(),
        line == line_of(s, i),
        col == column_of(s, i),
        s.len() <= usize::MAX,
        i == 0 || !invalid_at(s, i - 1) || !invalid_at(s, i),
    ensures
        errors_coalesced(s, lex_from(s, i, line, col)),
    decreases s.len() - i,
{
    if i < s.len() {
        if is_blank(s[i]) {
            lemma_lex_coalesced(s, i + 1, line, col + 1);
        } else if s[i] == '\n' {
            lemma_lex_coalesced(s, i + 1, line + 1, 0);
        } else {
            let items = lex_from(s, i, line, col);
            let n: int = match token_at(s, i) {
                Some((_, len)) => len as int,
                None => invalid_run(s, i) as int,
            };
            if 0 < n && i + n <= s.len() {
                if token_at(s, i) is Some {
                    lemma_token_end_valid(s, i);
                    lemma_token_no_newline(s, i);
                } else {
                    lemma_invalid_run_contents(s, i);
                    assert forall|p: int| i <= p < i + n implies s[p] != '\n' by {
                        assert(invalid_at(s, p));
                    }
                }
                lemma_same_line(s, i, n);
                lemma_position_bounds(s, i);
                lemma_lex_coalesced(s, i + n, line, col + n);
                let rest = lex_from(s, i + n, line, col + n);
                assert forall|k: int| 0 <= k < items.len() && (#[trigger] items[k]) is Err implies {
                    let e = items[k]->Err_0;
                    &&& e.index.start < e.index.end <= s.len()
                    &&& e.column.end - e.column.start == e.index.end - e.index.start
                    &&& e.line.start == e.line.end
                    &&& e.line.start == line_of(s, e.index.start as int)
                    &&& e.column.start == column_of(s, e.index.start as int)
                    &&& forall|p: int| e.index.start <= p < e.index.end ==> invalid_at(s, p)
                    &&& !invalid_at(s, e.index.end as int)
                    &&& (e.index.start == 0 || !invalid_at(s, e.index.start - 1))
                } by {
                    if k > 0 {
                        assert(items[k] == rest[k - 1]);
                    }
                }
            }
        }
    }
}

/// Lexing reports each maximal run of invalid characters as exactly one
/// error, never one per character, and on one line.
pub proof fn lex_errors_coalesced(s: Seq<char>)
    requires
        s.len() <= usize::MAX,
    ensures
        errors_coalesced(s, lex(s)),
{
    lemma_lex_coalesced(s, 0, 0, 0);
}

/// An item moved `n` positions along the text, and `n` columns along the
/// first line.
pub open spec fn shift_item(x: Result<Token, TextSection>, n: int) -> Result<Token, TextSection> {
    match x {
        Ok(t) => Ok(Token { range: span(t.range.start + n, t.range.end + n), ty: t.ty }),
        Err(e) => Err(
            TextSection {
                index: span(e.index.start + n, e.index.end + n),
                line: e.line,
                column: if e.line.start == 0 {
                    span(e.column.start + n, e.column.end + n)
                } else {
                    e.column
                },
            },
        ),
    }
}

proof fn lemma_suffix_runs(pre: Seq<char>, s: Seq<char>, j: int)
    requires
        0 <= j <= s.len(),
    ensures
        digit_run(pre + s, pre.len() + j) == digit_run(s, j),
        ident_run(pre + s, pre.len() + j) == ident_run(s, j),
    decreases s.len() - j,
{
    let p = pre + s;
    if j < s.len() {
        assert(p[pre.len() + j] == s[j]);
        lemma_suffix_runs(pre, s, j + 1);
    }
}

proof fn lemma_suffix_occurs(pre: Seq<char>, s: Seq<char>, j: int, w: Seq<char>)
    requires
        0 <= j <= s.len(),
    ensures
        occurs_at(pre + s, pre.len() + j, w) == occurs_at(s, j, w),
{
    let p = pre + s;
    if j + w.len() <= s.len() {
        assert(p.subrange(pre.len() + j, pre.len() + j + w.len()) =~= s.subrange(j, j + w.len()));
    }
}

proof fn lemma_suffix_symbol(pre: Seq<char>, s: Seq<char>, j: int, k: int)
    requires
        0 <= j <= s.len(),
    ensures
        symbol_from(pre + s, pre.len() + j, k) == symbol_from(s, j, k),
    decreases SYMBOL_COUNT - k,
{
    if 0 <= k < SYMBOL_COUNT {
        lemma_suffix_occurs(pre, s, j, symbol_spelling(symbol_entry(k)));
        lemma_suffix_symbol(pre, s, j, k + 1);
    }
}

proof fn lemma_suffix_keyword(pre: Seq<char>, s: Seq<char>, j: int, k: int)
    requires
        0 <= j <= s.len(),
    ensures
        keyword_from(pre + s, pre.len() + j, k) == keyword_from(s, j, k),
    decreases KEYWORD_COUNT - k,
{
    if 0 <= k < KEYWORD_COUNT {
        let w = keyword_spelling(keyword_entry(k));
        lemma_suffix_occurs(pre, s, j, w);
        if j + w.len() < s.len() {
            assert((pre + s)[pre.len() + j + w.len()] == s[j + w.len()]);
        }
        lemma_suffix_keyword(pre, s, j, k + 1);
    }
}

/// Scanning at a position of `s` gives the same whatever text stands before it.
proof fn lemma_suffix_scan(pre: Seq<char>, s: Seq<char>, j: int)
    requires
        0 <= j <= s.len(),
    ensures
        token_at(pre + s, pre.len() + j) == token_at(s, j),
        invalid_at(pre + s, pre.len() + j) == invalid_at(s, j),
        invalid_run(pre + s, pre.len() + j) == invalid_run(s, j),
    decreases s.len() - j,
{
    let p = pre + s;
    lemma_suffix_runs(pre, s, j);
    lemma_suffix_symbol(pre, s, j, 0);
    lemma_suffix_keyword(pre, s, j, 0);
    if j < s.len() {
        assert(p[pre.len() + j] == s[j]);
        lemma_suffix_scan(pre, s, j + 1);
    }
}

#[verifier::rlimit(80)]
proof fn lemma_lex_suffix(pre: Seq<char>, s: Seq<char>, j: int, line: int, col: int)
    requires
        0 <= j <= s.len(),
        0 <= line <= j,
        0 <= col <= j,
        pre.len() + s.len() <= usize::MAX,
    ensures
        lex_from(pre + s, pre.len() + j, line, col + if line == 0 { pre.len() as int } else { 0 })
            == lex_from(s, j, line, col).map_values(|x| shift_item(x, pre.len() as int)),
    decreases s.len() - j,
{
    let p = pre + s;
    let m = pre.len() as int;
    let d = if line == 0 { m } else { 0 };
    let f = |x| shift_item(x, m);
    lemma_suffix_scan(pre, s, j);
    if j < s.len() {
        assert(p[m + j] == s[j]);
        if is_blank(s[j]) {
            lemma_lex_suffix(pre, s, j + 1, line, col + 1);
        } else if s[j] == '\n' {
            lemma_lex_suffix(pre, s, j + 1, line + 1, 0);
        } else {
            let n: int = match token_at(s, j) {
                Some((_, len)) => len as int,
                None => invalid_run(s, j) as int,
            };
            if 0 < n && j + n <= s.len() {
                lemma_lex_suffix(pre, s, j + n, line, col + n);
                let a = lex_from(s, j, line, col);
                let rest = lex_from(s, j + n, line, col + n);
                assert(a.map_values(f) =~= seq![f(a[0])] + rest.map_values(f));
            } else {
                assert(lex_from(s, j, line, col).map_values(f) =~= Seq::<
                    Result<Token, TextSection>,
                >::empty());
            }
        }
    } else {
        assert(lex_from(s, j, line, col).map_values(f) =~= Seq::<Result<Token, TextSection>>::empty());
    }
}

proof fn lemma_invalid_run_exact(p: Seq<char>, n: int, q: int)
    requires
        0 <= q <= n <= p.len(),
        forall|k: int| 0 <= k < n ==> invalid_at(p, k),
        !invalid_at(p, n),
    ensures
        invalid_run(p, q) == n - q,
    decreases n - q,
{
    if q < n {
        lemma_invalid_run_exact(p, n, q + 1);
    }
}

/// A run of invalid characters in front of a text is reported as one error,
/// and does not disturb the lexing of the text after it: the rest is what
/// lexing the text alone reports, moved along by the run's length (in
/// positions, and in columns on the first line).
pub proof fn lex_after_invalid_run(bad: Seq<char>, s: Seq<char>)
    requires
        bad.len() > 0,
        bad.len() + s.len() <= usize::MAX,
        forall|k: int| 0 <= k < bad.len() ==> invalid_at(bad + s, k),
        !invalid_at(bad + s, bad.len() as int),
    ensures
        lex(bad + s) == seq![
            Err(
                TextSection {
                    index: span(0, bad.len() as int),
                    line: span(0, 0),
                    column: span(0, bad.len() as int),
                },
            ),
        ] + lex(s).map_values(|x| shift_item(x, bad.len() as int)),
{
    let p = bad + s;
    let n = bad.len() as int;
    lemma_invalid_run_exact(p, n, 0);
    assert(invalid_at(p, 0));
    lemma_lex_suffix(bad, s, 0, 0, 0);
}

} // verus!
