use crate::token::{opt_token_view, Token, TokenModel};
use vstd::prelude::*;
use vstd::std_specs::iter::IteratorSpec;
use vstd::string::*;

verus! {

/// What `char::is_alphabetic` answers for a character (the Unicode `Alphabetic` property).
pub uninterp spec fn alphabetic(c: char) -> bool;

/// Relies on `char::is_alphabetic`: its answer depends on the character alone, and among
/// ASCII characters exactly the letters `a-z` and `A-Z` have the `Alphabetic` property.
#[verifier::external_body]
fn is_alphabetic(c: char) -> (r: bool)
    ensures
        r == alphabetic(c),
        (c as u32) < 128 ==> (r == (('a' <= c && c <= 'z') || ('A' <= c && c <= 'Z'))),
{
    c.is_alphabetic()
}

/// Relies on `String::push`: appends the character at the end.
#[verifier::external_body]
fn push_char(s: &mut String, c: char)
    ensures
        final(s)@ == old(s)@.push(c),
{
    s.push(c)
}

/// Whitespace skipped between tokens: space, tab, newline, carriage return.
pub open spec fn is_space(c: char) -> bool {
    c == ' ' || c == '\t' || c == '\n' || c == '\r'
}

/// A character that starts an identifier or keyword.
pub open spec fn is_ident_start(c: char) -> bool {
    ('a' <= c && c <= 'z') || ('A' <= c && c <= 'Z') || c == '_'
}

/// A decimal digit.
pub open spec fn is_digit(c: char) -> bool {
    '0' <= c && c <= '9'
}

/// A letter: among ASCII characters `a-z` and `A-Z`, beyond them what has the Unicode
/// `Alphabetic` property.
pub open spec fn is_letter(c: char) -> bool {
    if (c as u32) < 128 {
        ('a' <= c && c <= 'z') || ('A' <= c && c <= 'Z')
    } else {
        alphabetic(c)
    }
}

/// A character that continues an identifier or keyword: a letter, a digit or `_`.
pub open spec fn is_ident_char(c: char) -> bool {
    is_letter(c) || is_digit(c) || c == '_'
}

/// The first index at or after `i` whose character is not whitespace (or `s.len()`).
pub open spec fn skip_spaces(s: Seq<char>, i: int) -> int
    decreases s.len() - i,
{
    if 0 <= i < s.len() && is_space(s[i]) {
        skip_spaces(s, i + 1)
    } else {
        i
    }
}

/// The first index at or after `i` whose character does not continue an identifier.
pub open spec fn ident_end(s: Seq<char>, i: int) -> int
    decreases s.len() - i,
{
    if 0 <= i < s.len() && is_ident_char(s[i]) {
        ident_end(s, i + 1)
    } else {
        i
    }
}

/// The first index at or after `i` whose character is not a digit.
pub open spec fn number_end(s: Seq<char>, i: int) -> int
    decreases s.len() - i,
{
    if 0 <= i < s.len() && is_digit(s[i]) {
        number_end(s, i + 1)
    } else {
        i
    }
}

/// The keyword token spelled by `w`, if `w` is a reserved word.
pub open spec fn keyword(w: Seq<char>) -> Option<TokenModel> {
    if w == "let"@ {
        Some(TokenModel::Let)
    } else if w == "true"@ {
        Some(TokenModel::True)
    } else if w == "false"@ {
        Some(TokenModel::False)
    } else if w == "if"@ {
        Some(TokenModel::If)
    } else if w == "then"@ {
        Some(TokenModel::Then)
    } else if w == "else"@ {
        Some(TokenModel::Else)
    } else if w == "return"@ {
        Some(TokenModel::Return)
    } else {
        None
    }
}

/// The token for a word: its keyword, or an identifier carrying the word.
pub open spec fn word_token(w: Seq<char>) -> TokenModel {
    match keyword(w) {
        Some(k) => k,
        None => TokenModel::Ident(w),
    }
}

/// The token for a single character, if it is one of `+ - * / , ; # ( )`.
pub open spec fn single_char_token(c: char) -> Option<TokenModel> {
    if c == '+' {
        Some(TokenModel::Plus)
    } else if c == '-' {
        Some(TokenModel::Minus)
    } else if c == '*' {
        Some(TokenModel::Asterisk)
    } else if c == '/' {
        Some(TokenModel::Slash)
    } else if c == ',' {
        Some(TokenModel::Comma)
    } else if c == ';' {
        Some(TokenModel::Semicolon)
    } else if c == '#' {
        Some(TokenModel::Hash)
    } else if c == '(' {
        Some(TokenModel::LParen)
    } else if c == ')' {
        Some(TokenModel::RParen)
    } else {
        None
    }
}

/// For one of `= ! < >`: the token alone, and the token when `=` follows.
pub open spec fn operator_tokens(c: char) -> Option<(TokenModel, TokenModel)> {
    if c == '=' {
        Some((TokenModel::Assign, TokenModel::Equal))
    } else if c == '!' {
        Some((TokenModel::Bang, TokenModel::NotEqual))
    } else if c == '<' {
        Some((TokenModel::LessThan, TokenModel::LessOrEqual))
    } else if c == '>' {
        Some((TokenModel::GreaterThan, TokenModel::GreaterOrEqual))
    } else {
        None
    }
}

/// The token that scanning `s` from index `i` produces, with the index just past it;
/// `None` at the end of the input or at a character that no rule accepts.
pub open spec fn scan(s: Seq<char>, i: int) -> Option<(TokenModel, int)> {
    let k = skip_spaces(s, i);
    if !(0 <= k < s.len()) {
        None
    } else {
        let c = s[k];
        if is_ident_start(c) {
            let j = ident_end(s, k + 1);
            Some((word_token(s.subrange(k, j)), j))
        } else if is_digit(c) {
            let j = number_end(s, k + 1);
            Some((TokenModel::Int(s.subrange(k, j)), j))
        } else if operator_tokens(c) is Some {
            let (one, two) = operator_tokens(c)->0;
            if k + 1 < s.len() && s[k + 1] == '=' {
                Some((two, k + 2))
            } else {
                Some((one, k + 1))
            }
        } else if single_char_token(c) is Some {
            Some((single_char_token(c)->0, k + 1))
        } else {
            None
        }
    }
}

/// The whole sequence of tokens that scanning `s` from index `i` produces.
pub open spec fn tokens_from(s: Seq<char>, i: int) -> Seq<TokenModel>
    decreases s.len() - i,
{
    match scan(s, i) {
        Some((t, j)) => if i < j <= s.len() {
            seq![t] + tokens_from(s, j)
        } else {
            Seq::empty()
        },
        None => Seq::empty(),
    }
}

/// The tokens of a whole input.
pub open spec fn tokens_of(s: Seq<char>) -> Seq<TokenModel> {
    tokens_from(s, 0)
}

/// Whitespace skipping stays within the input and stops where it would stop again.
pub proof fn lemma_skip_spaces(s: Seq<char>, i: int)
    requires
        0 <= i <= s.len(),
    ensures
        i <= skip_spaces(s, i) <= s.len(),
        skip_spaces(s, skip_spaces(s, i)) == skip_spaces(s, i),
    decreases s.len() - i,
{
    if i < s.len() && is_space(s[i]) {
        lemma_skip_spaces(s, i + 1);
    }
}

/// The end of an identifier run lies between its start and the end of the input.
pub proof fn lemma_ident_end(s: Seq<char>, i: int)
    requires
        0 <= i <= s.len(),
    ensures
        i <= ident_end(s, i) <= s.len(),
        forall|m: int| i <= m < ident_end(s, i) ==> is_ident_char(#[trigger] s[m]),
        ident_end(s, i) < s.len() ==> !is_ident_char(s[ident_end(s, i)]),
    decreases s.len() - i,
{
    if i < s.len() && is_ident_char(s[i]) {
        lemma_ident_end(s, i + 1);
    }
}

/// The end of a digit run lies between its start and the end of the input.
pub proof fn lemma_number_end(s: Seq<char>, i: int)
    requires
        0 <= i <= s.len(),
    ensures
        i <= number_end(s, i) <= s.len(),
        forall|m: int| i <= m < number_end(s, i) ==> is_digit(#[trigger] s[m]),
        number_end(s, i) < s.len() ==> !is_digit(s[number_end(s, i)]),
    decreases s.len() - i,
{
    if i < s.len() && is_digit(s[i]) {
        lemma_number_end(s, i + 1);
    }
}

/// A scanned token always consumes at least one character of the input.
pub proof fn lemma_scan_advances(s: Seq<char>, i: int)
    requires
        0 <= i <= s.len(),
        scan(s, i) is Some,
    ensures
        ({
            let (t, j) = scan(s, i)->0;
            i < j <= s.len() && tokens_from(s, i) == seq![t] + tokens_from(s, j)
        }),
{
    lemma_skip_spaces(s, i);
    let k = skip_spaces(s, i);
    lemma_ident_end(s, k + 1);
    lemma_number_end(s, k + 1);
}

/// A name as the lexer hands it out: non-empty, and no reserved word.
pub open spec fn name_ok(w: Seq<char>) -> bool {
    w.len() > 0 && keyword(w) is None
}

/// The text of an integer literal: a non-empty run of digits.
pub open spec fn digits_ok(d: Seq<char>) -> bool {
    d.len() > 0 && forall|m: int| 0 <= m < d.len() ==> is_digit(#[trigger] d[m])
}

/// A token as the lexer produces it: an identifier carries a name that is no reserved
/// word, an integer literal carries a non-empty run of digits.
pub open spec fn token_ok(t: TokenModel) -> bool {
    match t {
        TokenModel::Ident(w) => name_ok(w),
        TokenModel::Int(d) => digits_ok(d),
        _ => true,
    }
}

/// Every token of `ts` is one the lexer can produce.
pub open spec fn tokens_ok(ts: Seq<TokenModel>) -> bool {
    forall|i: int| 0 <= i < ts.len() ==> token_ok(#[trigger] ts[i])
}

/// The lexer hands out only identifiers that are no reserved word and integer literals
/// made of digits.
pub proof fn lemma_tokens_ok(s: Seq<char>, i: int)
    requires
        0 <= i <= s.len(),
    ensures
        tokens_ok(tokens_from(s, i)),
    decreases s.len() - i,
{
    if scan(s, i) is Some {
        lemma_scan_advances(s, i);
        lemma_skip_spaces(s, i);
        let k = skip_spaces(s, i);
        lemma_ident_end(s, k + 1);
        lemma_number_end(s, k + 1);
        let (t, j) = scan(s, i)->0;
        lemma_tokens_ok(s, j);
        assert(token_ok(t)) by {
            if is_digit(s[k]) && !is_ident_start(s[k]) {
                let d = s.subrange(k, j);
                assert forall|m: int| 0 <= m < d.len() implies is_digit(#[trigger] d[m]) by {
                    assert(d[m] == s[k + m]);
                }
            }
        }
        let ts = tokens_from(s, i);
        assert forall|m: int| 0 <= m < ts.len() implies token_ok(#[trigger] ts[m]) by {
            if m > 0 {
                assert(ts[m] == tokens_from(s, j)[m - 1]);
            }
        }
    }
}

/// Whether `w` spells exactly `word`.
fn spells(w: &str, word: &str) -> (r: bool)
    ensures
        r == (w@ == word@),
{
    let n = word.unicode_len();
    if w.unicode_len() != n {
        return false;
    }
    let mut i: usize = 0;
    while i < n
        invariant
            n == word@.len() == w@.len(),
            i <= n,
            forall|k: int| 0 <= k < i ==> w@[k] == word@[k],
        decreases n - i,
    {
        if w.get_char(i) != word.get_char(i) {
            return false;
        }
        i = i + 1;
    }
    assert(w@ =~= word@);
    true
}

/// The keyword token spelled by `w`, if `w` is one of the reserved words.
pub fn keyword_token(w: &str) -> (r: Option<Token>)
    ensures
        opt_token_view(r) == keyword(w@),
{
    if spells(w, "let") {
        Some(Token::Let)
    } else if spells(w, "true") {
        Some(Token::True)
    } else if spells(w, "false") {
        Some(Token::False)
    } else if spells(w, "if") {
        Some(Token::If)
    } else if spells(w, "then") {
        Some(Token::Then)
    } else if spells(w, "else") {
        Some(Token::Else)
    } else if spells(w, "return") {
        Some(Token::Return)
    } else {
        None
    }
}

/// The tokens that one call of `next_token` hands out: none or one.
pub open spec fn token_seq(r: Option<Token>) -> Seq<TokenModel> {
    match r {
        Some(t) => seq![t@],
        None => Seq::empty(),
    }
}

/// A scanner over a buffer of characters with a cursor.
#[derive(Debug)]
pub struct Lexer {
    input: Vec<char>,
    position: usize,
}

impl Lexer {
    /// The characters being scanned.
    pub closed spec fn input(&self) -> Seq<char> {
        self.input@
    }

    /// The index of the character under the cursor.
    pub closed spec fn position(&self) -> int {
        self.position as int
    }

    /// The cursor lies within the input, or just past its end.
    pub open spec fn wf(&self) -> bool {
        0 <= self.position() <= self.input().len()
    }

    /// The tokens that the remaining calls of `next_token` hand out, in order.
    pub open spec fn remaining(&self) -> Seq<TokenModel> {
        tokens_from(self.input(), self.position())
    }

    /// Creates a new lexer at the start of `input`.
    pub fn new(input: &str) -> (r: Self)
        ensures
            r.wf(),
            r.input() == input@,
            r.position() == 0,
            r.remaining() == tokens_of(input@),
    {
        broadcast use vstd::string::axiom_spec_iter, vstd::string::next_postcondition;

        let mut chars: Vec<char> = Vec::new();
        let mut it = input.chars();
        loop
            invariant
                chars@ + it.remaining() == input@,
                it.decrease() is Some,
            ensures
                chars@ == input@,
            decreases it.decrease()->0,
        {
            match it.next() {
                Some(c) => chars.push(c),
                None => {
                    assert(chars@ =~= input@);
                    break;
                },
            }
        }
        Lexer { input: chars, position: 0 }
    }

    /// The character under the cursor, or `None` at the end of the input.
    fn current(&self) -> (r: Option<char>)
        requires
            self.wf(),
        ensures
            r == if self.position() < self.input().len() {
                Some(self.input()[self.position()])
            } else {
                None::<char>
            },
    {
        if self.position < self.input.len() {
            Some(self.input[self.position])
        } else {
            None
        }
    }

    /// Returns the character after the cursor without consuming anything.
    fn peek(&self) -> (r: Option<char>)
        requires
            self.wf(),
        ensures
            r == if self.position() + 1 < self.input().len() {
                Some(self.input()[self.position() + 1])
            } else {
                None::<char>
            },
    {
        if self.position < self.input.len() && self.position + 1 < self.input.len() {
            Some(self.input[self.position + 1])
        } else {
            None
        }
    }

    /// Moves the cursor one character forward.
    fn read_char(&mut self)
        requires
            old(self).wf(),
            old(self).position() < old(self).input().len(),
        ensures
            final(self).wf(),
            final(self).input() == old(self).input(),
            final(self).position() == old(self).position() + 1,
    {
        let n = self.input.len();
        assert(self.position < n);
        self.position = self.position + 1;
    }

    /// Consumes a one- or two-character operator that starts at the cursor: `two` when
    /// the next character is `=`, else `one`.
    fn read_operator(&mut self, one: Token, two: Token) -> (r: Token)
        requires
            old(self).wf(),
            old(self).position() < old(self).input().len(),
        ensures
            final(self).wf(),
            final(self).input() == old(self).input(),
            ({
                let s = old(self).input();
                let p = old(self).position();
                if p + 1 < s.len() && s[p + 1] == '=' {
                    r@ == two@ && final(self).position() == p + 2
                } else {
                    r@ == one@ && final(self).position() == p + 1
                }
            }),
    {
        match self.peek() {
            Some('=') => {
                self.read_char();
                self.read_char();
                two
            },
            _ => {
                self.read_char();
                one
            },
        }
    }

    /// Returns the next token and moves past it, or `None` when the input is exhausted
    /// or the next character belongs to no token; after `None` every call returns `None`.
    pub fn next_token(&mut self) -> (r: Option<Token>)
        requires
            old(self).wf(),
        ensures
            final(self).wf(),
            final(self).input() == old(self).input(),
            match scan(old(self).input(), old(self).position()) {
                Some((t, j)) => opt_token_view(r) == Some(t) && final(self).position() == j,
                None => r is None,
            },
            old(self).remaining() == token_seq(r) + final(self).remaining(),
            r is None ==> final(self).remaining() == Seq::<TokenModel>::empty(),
    {
        let ghost s = self.input();
        let ghost i = self.position();
        proof {
            lemma_skip_spaces(s, i);
            if scan(s, i) is Some {
                lemma_scan_advances(s, i);
            }
        }
        self.consume_whitespace();
        let c = match self.current() {
            Some(c) => c,
            None => {
                return None;
            },
        };
        if ('a' <= c && c <= 'z') || ('A' <= c && c <= 'Z') || c == '_' {
            let word = self.read_identifier();
            match keyword_token(word.as_str()) {
                Some(k) => Some(k),
                None => Some(Token::Ident(word)),
            }
        } else if '0' <= c && c <= '9' {
            Some(Token::Int(self.read_int()))
        } else if c == '=' {
            Some(self.read_operator(Token::Assign, Token::Equal))
        } else if c == '!' {
            Some(self.read_operator(Token::Bang, Token::NotEqual))
        } else if c == '<' {
            Some(self.read_operator(Token::LessThan, Token::LessOrEqual))
        } else if c == '>' {
            Some(self.read_operator(Token::GreaterThan, Token::GreaterOrEqual))
        } else {
            let t = match c {
                '+' => Token::Plus,
                '-' => Token::Minus,
                '*' => Token::Asterisk,
                '/' => Token::Slash,
                ',' => Token::Comma,
                ';' => Token::Semicolon,
                '#' => Token::Hash,
                '(' => Token::LParen,
                ')' => Token::RParen,
                _ => {
                    return None;
                },
            };
            self.read_char();
            Some(t)
        }
    }

    /// Consumes characters until a non-whitespace character or the end of the input.
    fn consume_whitespace(&mut self)
        requires
            old(self).wf(),
        ensures
            final(self).wf(),
            final(self).input() == old(self).input(),
            final(self).position() == skip_spaces(old(self).input(), old(self).position()),
    {
        loop
            invariant
                self.wf(),
                self.input() == old(self).input(),
                skip_spaces(self.input(), self.position()) == skip_spaces(
                    old(self).input(),
                    old(self).position(),
                ),
            decreases self.input().len() - self.position(),
        {
            match self.current() {
                Some(c) => {
                    if c == ' ' || c == '\t' || c == '\n' || c == '\r' {
                        self.read_char();
                    } else {
                        return;
                    }
                },
                None => {
                    return;
                },
            }
        }
    }

    /// Returns the identifier that starts at the cursor and consumes it: the first
    /// character, then every following letter, digit or underscore.
    fn read_identifier(&mut self) -> (r: String)
        requires
            old(self).wf(),
            old(self).position() < old(self).input().len(),
        ensures
            final(self).wf(),
            final(self).input() == old(self).input(),
            final(self).position() == ident_end(old(self).input(), old(self).position() + 1),
            r@ == old(self).input().subrange(old(self).position(), final(self).position()),
    {
        let ghost start = self.position();
        let mut text = String::new();
        push_char(&mut text, self.input[self.position]);
        self.read_char();
        loop
            invariant
                self.wf(),
                self.input() == old(self).input(),
                start == old(self).position() < self.position(),
                ident_end(self.input(), self.position()) == ident_end(self.input(), start + 1),
                text@ == self.input().subrange(start, self.position()),
            decreases self.input().len() - self.position(),
        {
            match self.current() {
                Some(c) => {
                    if is_alphabetic(c) || ('0' <= c && c <= '9') || c == '_' {
                        push_char(&mut text, c);
                        assert(text@ =~= self.input().subrange(start, self.position() + 1));
                        self.read_char();
                    } else {
                        return text;
                    }
                },
                None => {
                    return text;
                },
            }
        }
    }

    /// Returns the integer literal that starts at the cursor and consumes it: the
    /// maximal run of digits.
    fn read_int(&mut self) -> (r: String)
        requires
            old(self).wf(),
            old(self).position() < old(self).input().len(),
        ensures
            final(self).wf(),
            final(self).input() == old(self).input(),
            final(self).position() == number_end(old(self).input(), old(self).position() + 1),
            r@ == old(self).input().subrange(old(self).position(), final(self).position()),
    {
        let ghost start = self.position();
        let mut text = String::new();
        push_char(&mut text, self.input[self.position]);
        self.read_char();
        loop
            invariant
                self.wf(),
                self.input() == old(self).input(),
                start == old(self).position() < self.position(),
                number_end(self.input(), self.position()) == number_end(self.input(), start + 1),
                text@ == self.input().subrange(start, self.position()),
            decreases self.input().len() - self.position(),
        {
            match self.current() {
                Some(c) => {
                    if '0' <= c && c <= '9' {
                        push_char(&mut text, c);
                        assert(text@ =~= self.input().subrange(start, self.position() + 1));
                        self.read_char();
                    } else {
                        return text;
                    }
                },
                None => {
                    return text;
                },
            }
        }
    }
}


/// Whitespace skipping from `i` stops at the first non-space character `k`.
proof fn lemma_skip_spaces_to(s: Seq<char>, i: int, k: int)
    requires
        0 <= i <= k <= s.len(),
        forall|m: int| i <= m < k ==> is_space(#[trigger] s[m]),
        k == s.len() || !is_space(s[k]),
    ensures
        skip_spaces(s, i) == k,
    decreases k - i,
{
    if i < k {
        lemma_skip_spaces_to(s, i + 1, k);
    }
}

/// An identifier run from `i` ends at the first character `j` that does not continue it.
proof fn lemma_ident_end_at(s: Seq<char>, i: int, j: int)
    requires
        0 <= i <= j <= s.len(),
        forall|m: int| i <= m < j ==> is_ident_char(#[trigger] s[m]),
        j == s.len() || !is_ident_char(s[j]),
    ensures
        ident_end(s, i) == j,
    decreases j - i,
{
    if i < j {
        lemma_ident_end_at(s, i + 1, j);
    }
}

/// A digit run from `i` ends at the first character `j` that is not a digit.
proof fn lemma_number_end_at(s: Seq<char>, i: int, j: int)
    requires
        0 <= i <= j <= s.len(),
        forall|m: int| i <= m < j ==> is_digit(#[trigger] s[m]),
        j == s.len() || !is_digit(s[j]),
    ensures
        number_end(s, i) == j,
    decreases j - i,
{
    if i < j {
        lemma_number_end_at(s, i + 1, j);
    }
}

/// A maximal run `s[k..j]` of letters, digits and underscores that begins with a letter
/// or underscore, reached by the lexer at `i` past whitespace only, and that spells no
/// reserved word, comes out as exactly one identifier token whose text is the run;
/// scanning then resumes right after the run.
pub proof fn lemma_identifier_run(s: Seq<char>, i: int, k: int, j: int)
    requires
        0 <= i <= k < j <= s.len(),
        forall|m: int| i <= m < k ==> is_space(#[trigger] s[m]),
        is_ident_start(s[k]),
        forall|m: int| k < m < j ==> is_ident_char(#[trigger] s[m]),
        j == s.len() || !is_ident_char(s[j]),
        keyword(s.subrange(k, j)) is None,
    ensures
        tokens_from(s, i) == seq![TokenModel::Ident(s.subrange(k, j))] + tokens_from(s, j),
{
    lemma_skip_spaces_to(s, i, k);
    lemma_ident_end_at(s, k + 1, j);
    lemma_scan_advances(s, i);
}

/// A maximal run `s[k..j]` of digits, reached by the lexer at `i` past whitespace only,
/// comes out as exactly one integer-literal token whose text is the run, unmodified;
/// scanning then resumes right after the run.
pub proof fn lemma_integer_run(s: Seq<char>, i: int, k: int, j: int)
    requires
        0 <= i <= k < j <= s.len(),
        forall|m: int| i <= m < k ==> is_space(#[trigger] s[m]),
        forall|m: int| k <= m < j ==> is_digit(#[trigger] s[m]),
        j == s.len() || !is_digit(s[j]),
    ensures
        tokens_from(s, i) == seq![TokenModel::Int(s.subrange(k, j))] + tokens_from(s, j),
{
    lemma_skip_spaces_to(s, i, k);
    lemma_number_end_at(s, k + 1, j);
    lemma_scan_advances(s, i);
}

/// Two-character operators are recognized greedily: one of `= ! < >` followed by `=`
/// gives the single two-character token (`==`, `!=`, `<=`, `>=`), never two tokens.
pub proof fn lemma_two_char_operator(s: Seq<char>, i: int, k: int)
    requires
        0 <= i <= k,
        k + 1 < s.len(),
        forall|m: int| i <= m < k ==> is_space(#[trigger] s[m]),
        operator_tokens(s[k]) is Some,
        s[k + 1] == '=',
    ensures
        ({
            let (one, two) = operator_tokens(s[k])->0;
            tokens_from(s, i) == seq![two] + tokens_from(s, k + 2)
        }),
{
    lemma_skip_spaces_to(s, i, k);
    lemma_scan_advances(s, i);
}

/// Lexing depends on the input alone: two fresh lexers over the same text hand out
/// the same token sequence.
pub proof fn lemma_fresh_lexers_agree(a: &Lexer, b: &Lexer)
    requires
        a.wf(),
        b.wf(),
        a.input() == b.input(),
        a.position() == 0,
        b.position() == 0,
    ensures
        a.remaining() == b.remaining(),
        a.remaining() == tokens_of(a.input()),
{
}

} // verus!
