use crate::ast::{
    names_of, Expression, ExpressionModel, Identifier, LetStatement, Literal, Program,
    Statement, StatementModel,
};
use crate::lexer::{
    digits_ok, lemma_tokens_ok, name_ok, token_seq, tokens_of, tokens_ok, Lexer,
};
use crate::token::{Token, TokenModel};
use vstd::prelude::*;

verus! {

/// The tokens of `t` from index `n` on (none when `n` is past the end).
pub open spec fn suffix(t: Seq<TokenModel>, n: int) -> Seq<TokenModel> {
    if 0 <= n <= t.len() {
        t.subrange(n, t.len() as int)
    } else {
        Seq::empty()
    }
}

/// The token at index `i` of `t`, or `None` past the end.
pub open spec fn tok_at(t: Seq<TokenModel>, i: int) -> Option<TokenModel> {
    if 0 <= i < t.len() {
        Some(t[i])
    } else {
        None
    }
}

/// The first index at or after `i` that does not hold an identifier token.
pub open spec fn ident_tokens_end(t: Seq<TokenModel>, i: int) -> int
    decreases t.len() - i,
{
    if 0 <= i < t.len() && t[i] is Ident {
        ident_tokens_end(t, i + 1)
    } else {
        i
    }
}

/// The names carried by the identifier tokens `t[i..j]`.
pub open spec fn names_between(t: Seq<TokenModel>, i: int, j: int) -> Seq<Seq<char>> {
    t.subrange(i, j).map_values(|x: TokenModel| x->Ident_0)
}

/// The items of an optional value, as a sequence of none or one.
pub open spec fn opt_seq<A>(o: Option<A>) -> Seq<A> {
    match o {
        Some(a) => seq![a],
        None => Seq::empty(),
    }
}

/// The diagnostic for a `let` not followed by an identifier.
pub open spec fn expected_identifier() -> Seq<char> {
    "Expected identifier"@
}

/// The diagnostic for a bound name followed by neither `=` nor a parameter.
pub open spec fn unexpected_after_identifier() -> Seq<char> {
    "Unexpected character after identifier"@
}

/// The diagnostic for a `let` whose value is not an integer literal.
pub open spec fn expected_integer() -> Seq<char> {
    "Expected integer"@
}

/// What parsing one statement at the start of `t` gives: the statement, if any; the
/// diagnostic recorded, if any; and the index in `t` of the last token it looked at,
/// which becomes the current token.
pub type Outcome = (Option<StatementModel>, Option<Seq<char>>, int);

/// The end of a `let` statement whose parameters are `args` and whose value should
/// stand at index `v`.
pub open spec fn let_value(t: Seq<TokenModel>, name: Seq<char>, args: Seq<Seq<char>>, v: int) -> Outcome {
    match tok_at(t, v) {
        Some(TokenModel::Int(x)) => (
            Some(
                StatementModel::Let {
                    name,
                    args: if args.len() == 0 {
                        None
                    } else {
                        Some(args)
                    },
                    value: ExpressionModel::Literal(x),
                },
            ),
            None,
            v,
        ),
        _ => (None, Some(expected_integer()), v),
    }
}

/// `let <ident> [<ident>...] = <int>`, with `t[0]` the `let` keyword.
pub open spec fn let_outcome(t: Seq<TokenModel>) -> Outcome {
    match tok_at(t, 1) {
        Some(TokenModel::Ident(name)) => match tok_at(t, 2) {
            Some(TokenModel::Assign) => let_value(t, name, Seq::empty(), 3),
            Some(TokenModel::Ident(_)) => {
                let j = ident_tokens_end(t, 2);
                let_value(t, name, names_between(t, 2, j), j + 1)
            },
            _ => (None, Some(unexpected_after_identifier()), 2),
        },
        _ => (None, Some(expected_identifier()), 1),
    }
}

/// `return <int>` or `return <ident>`, with `t[0]` the `return` keyword; any other
/// token after `return` gives no statement and no diagnostic.
pub open spec fn return_outcome(t: Seq<TokenModel>) -> Outcome {
    match tok_at(t, 1) {
        Some(TokenModel::Int(x)) => (Some(StatementModel::Return(ExpressionModel::Literal(x))), None, 1),
        Some(TokenModel::Ident(n)) => (
            Some(StatementModel::Return(ExpressionModel::Identifier(n))),
            None,
            1,
        ),
        _ => (None, None, 1),
    }
}

/// One statement, dispatched on the kind of the first token of `t`.
pub open spec fn statement_outcome(t: Seq<TokenModel>) -> Outcome {
    match tok_at(t, 0) {
        Some(TokenModel::Let) => let_outcome(t),
        Some(TokenModel::Return) => return_outcome(t),
        _ => (None, None, 0),
    }
}

/// The statements and the diagnostics, in order, that parsing the token sequence `t`
/// gives: one statement attempt, one token more, and the rest.
pub open spec fn program_of(t: Seq<TokenModel>) -> (Seq<StatementModel>, Seq<Seq<char>>)
    decreases t.len(),
    via program_of_decreases
{
    if t.len() == 0 {
        (Seq::empty(), Seq::empty())
    } else {
        let (st, d, last) = statement_outcome(t);
        let rest = program_of(suffix(t, last + 1));
        (opt_seq(st) + rest.0, opt_seq(d) + rest.1)
    }
}

/// A run of identifier tokens ends at or after its start.
pub proof fn lemma_ident_tokens_end(t: Seq<TokenModel>, i: int)
    requires
        0 <= i,
    ensures
        i <= ident_tokens_end(t, i),
        i <= t.len() ==> ident_tokens_end(t, i) <= t.len(),
        forall|m: int| i <= m < ident_tokens_end(t, i) ==> 0 <= m < t.len() && (#[trigger] t[m]) is Ident,
    decreases t.len() - i,
{
    if 0 <= i < t.len() && t[i] is Ident {
        lemma_ident_tokens_end(t, i + 1);
    }
}

#[via_fn]
proof fn program_of_decreases(t: Seq<TokenModel>) {
    lemma_ident_tokens_end(t, 2);
}


/// A statement as the grammar allows it: names are no reserved words, parameters are
/// absent or at least one, and literals are runs of digits.
pub open spec fn statement_ok(st: StatementModel) -> bool {
    match st {
        StatementModel::Let { name, args, value } => {
            &&& name_ok(name)
            &&& match args {
                Some(a) => a.len() > 0 && forall|m: int| 0 <= m < a.len() ==> name_ok(#[trigger] a[m]),
                None => true,
            }
            &&& match value {
                ExpressionModel::Literal(d) => digits_ok(d),
                ExpressionModel::Identifier(_) => false,
            }
        },
        StatementModel::Return(e) => match e {
            ExpressionModel::Literal(d) => digits_ok(d),
            ExpressionModel::Identifier(n) => name_ok(n),
        },
    }
}

/// Over tokens the lexer can produce, every statement parsed is well formed.
pub proof fn lemma_statement_ok(t: Seq<TokenModel>)
    requires
        tokens_ok(t),
    ensures
        statement_outcome(t).0 matches Some(st) ==> statement_ok(st),
{
    if 2 < t.len() && t[2] is Ident {
        lemma_ident_tokens_end(t, 2);
        let j = ident_tokens_end(t, 2);
        let a = names_between(t, 2, j);
        assert forall|m: int| 0 <= m < a.len() implies name_ok(#[trigger] a[m]) by {
            assert(a[m] == t[2 + m]->Ident_0);
            assert(crate::lexer::token_ok(t[2 + m]));
        }
        if 0 <= j + 1 < t.len() {
            assert(crate::lexer::token_ok(t[j + 1]));
        }
    }
    if 3 < t.len() {
        assert(crate::lexer::token_ok(t[3]));
    }
    if 1 < t.len() {
        assert(crate::lexer::token_ok(t[1]));
    }
}

/// Over tokens the lexer can produce, every statement of the program is well formed.
pub proof fn lemma_program_ok(t: Seq<TokenModel>)
    requires
        tokens_ok(t),
    ensures
        forall|i: int| 0 <= i < program_of(t).0.len() ==> statement_ok(#[trigger] program_of(t).0[i]),
    decreases t.len(),
{
    if t.len() > 0 {
        let (st, d, last) = statement_outcome(t);
        lemma_statement_ok(t);
        lemma_ident_tokens_end(t, 2);
        let rest = suffix(t, last + 1);
        assert forall|m: int| 0 <= m < rest.len() implies crate::lexer::token_ok(#[trigger] rest[m]) by {
            assert(rest[m] == t[last + 1 + m]);
        }
        lemma_program_ok(rest);
        let p = program_of(t).0;
        assert forall|i: int| 0 <= i < p.len() implies statement_ok(#[trigger] p[i]) by {
            if st is Some && i > 0 {
                assert(p[i] == program_of(rest).0[i - 1]);
            } else if st is None {
                assert(p[i] == program_of(rest).0[i]);
            }
        }
    }
}

/// Dropping the first token of `suffix(t, k)` leaves `suffix(t, k + 1)`.
proof fn lemma_suffix_step(t: Seq<TokenModel>, k: int)
    requires
        0 <= k,
    ensures
        suffix(suffix(t, k), 1) == suffix(t, k + 1),
        k < t.len() ==> suffix(t, k)[0] == t[k],
        k < t.len() ==> suffix(t, k).len() == t.len() - k,
        k >= t.len() ==> suffix(t, k).len() == 0,
{
    assert(suffix(suffix(t, k), 1) =~= suffix(t, k + 1));
}

/// The model of an optional statement.
pub open spec fn opt_statement_view(s: Option<Statement>) -> Option<StatementModel> {
    match s {
        Some(st) => Some(st@),
        None => None,
    }
}

/// A recursive-descent parser over the tokens of a lexer, with a window of two tokens.
pub struct Parser {
    lexer: Lexer,
    current_token: Option<Token>,
    peek_token: Option<Token>,
    errors: Vec<String>,
}

impl Parser {
    /// The tokens still to be parsed: the window, then what the lexer has left.
    pub closed spec fn pending(&self) -> Seq<TokenModel> {
        token_seq(self.current_token) + token_seq(self.peek_token) + self.lexer.remaining()
    }

    /// The diagnostics recorded so far, in order.
    pub closed spec fn diagnostics(&self) -> Seq<Seq<char>> {
        self.errors@.map_values(|e: String| e@)
    }

    /// The window is filled from the front, the lexer is done once it is not full, and
    /// every pending token is one the lexer can produce.
    pub closed spec fn wf(&self) -> bool {
        &&& self.lexer.wf()
        &&& (self.current_token is None ==> self.peek_token is None)
        &&& (self.peek_token is None ==> self.lexer.remaining() == Seq::<TokenModel>::empty())
        &&& tokens_ok(self.pending())
    }

    /// Creates a parser over the tokens of `lexer`, reading the first two of them.
    pub fn new(lexer: Lexer) -> (r: Self)
        requires
            lexer.wf(),
        ensures
            r.wf(),
            r.pending() == lexer.remaining(),
            r.diagnostics() == Seq::<Seq<char>>::empty(),
    {
        let mut parser = Parser {
            lexer,
            current_token: None,
            peek_token: None,
            errors: Vec::new(),
        };
        assert(parser.diagnostics() =~= Seq::<Seq<char>>::empty());
        proof {
            lemma_tokens_ok(lexer.input(), lexer.position());
        }
        parser.next_token();
        parser.next_token();
        parser
    }

    /// The diagnostics recorded so far, in order.
    pub fn errors(&self) -> (r: &Vec<String>)
        ensures
            r@.map_values(|e: String| e@) == self.diagnostics(),
    {
        &self.errors
    }

    /// Reads the next token into the peek slot and moves the old peek token to the
    /// current slot.
    fn next_token(&mut self)
        requires
            old(self).lexer.wf(),
        ensures
            final(self).lexer.wf(),
            final(self).current_token == old(self).peek_token,
            final(self).peek_token is None ==> final(self).lexer.remaining() == Seq::<TokenModel>::empty(),
            old(self).wf() ==> final(self).wf(),
            final(self).pending() == if old(self).current_token is Some {
                suffix(old(self).pending(), 1)
            } else {
                old(self).pending()
            },
            final(self).diagnostics() == old(self).diagnostics(),
    {
        let ghost t = old(self).pending();
        self.current_token = self.peek_token.take();
        self.peek_token = self.lexer.next_token();
        assert(token_seq(old(self).current_token) + token_seq(old(self).peek_token) + old(self).lexer.remaining() == t);
        proof {
            if old(self).current_token is Some {
                assert(self.pending() =~= suffix(t, 1));
                if tokens_ok(t) {
                    let p = self.pending();
                    assert forall|m: int| 0 <= m < p.len() implies crate::lexer::token_ok(
                        #[trigger] p[m],
                    ) by {
                        assert(p[m] == t[m + 1]);
                    }
                }
            } else {
                assert(self.pending() =~= t);
            }
        }
    }

    /// Records a diagnostic.
    fn push_error(&mut self, msg: &str)
        requires
            old(self).wf(),
        ensures
            final(self).wf(),
            final(self).pending() == old(self).pending(),
            final(self).diagnostics() == old(self).diagnostics().push(msg@),
    {
        self.errors.push(msg.to_string());
        assert(self.diagnostics() =~= old(self).diagnostics().push(msg@));
    }

    /// Parses the statements of all the remaining tokens. A statement that fails is
    /// dropped; after each attempt exactly one token is skipped.
    pub fn parse_program(&mut self) -> (r: Program)
        requires
            old(self).wf(),
        ensures
            final(self).wf(),
            r@ == program_of(old(self).pending()).0,
            final(self).diagnostics() == old(self).diagnostics() + program_of(old(self).pending()).1,
            final(self).pending() == Seq::<TokenModel>::empty(),
            forall|i: int| 0 <= i < r@.len() ==> statement_ok(#[trigger] r@[i]),
    {
        let ghost t = self.pending();
        proof {
            lemma_program_ok(t);
        }
        let mut program = Program::new();
        loop
            invariant
                self.wf(),
                program_of(t).0 == program@ + program_of(self.pending()).0,
                old(self).diagnostics() + program_of(t).1 == self.diagnostics() + program_of(
                    self.pending(),
                ).1,
            ensures
                self.wf(),
                self.pending() == Seq::<TokenModel>::empty(),
                program_of(t).0 == program@,
                old(self).diagnostics() + program_of(t).1 == self.diagnostics(),
            decreases self.pending().len(),
        {
            if self.current_token.is_none() {
                proof {
                    assert(program@ + program_of(self.pending()).0 =~= program@);
                    assert(self.diagnostics() + program_of(self.pending()).1 =~= self.diagnostics());
                }
                break;
            }
            let ghost p = self.pending();
            let ghost d0 = self.diagnostics();
            let ghost prog0 = program@;
            let st = self.parse_statement();
            let ghost (sm, dm, last) = statement_outcome(p);
            match st {
                Some(st) => {
                    program.statements.push(st);
                },
                None => {},
            }
            assert(program@ =~= prog0 + opt_seq(sm));
            self.next_token();
            proof {
                lemma_ident_tokens_end(p, 2);
                lemma_suffix_step(p, last);
                assert(self.pending() == suffix(p, last + 1));
                assert(program_of(p).0 == opt_seq(sm) + program_of(suffix(p, last + 1)).0);
                assert(prog0 + program_of(p).0 =~= program@ + program_of(self.pending()).0);
                assert(d0 + program_of(p).1 =~= self.diagnostics() + program_of(self.pending()).1);
            }
        }
        program
    }

    /// Parses the statement that starts at the current token.
    fn parse_statement(&mut self) -> (r: Option<Statement>)
        requires
            old(self).wf(),
            old(self).pending().len() > 0,
        ensures
            final(self).wf(),
            ({
                let (st, d, last) = statement_outcome(old(self).pending());
                &&& opt_statement_view(r) == st
                &&& final(self).pending() == suffix(old(self).pending(), last)
                &&& final(self).diagnostics() == old(self).diagnostics() + opt_seq(d)
            }),
            opt_statement_view(r) matches Some(st) ==> statement_ok(st),
    {
        proof {
            assert(suffix(self.pending(), 0) =~= self.pending());
            assert(self.diagnostics() + opt_seq::<Seq<char>>(None) =~= self.diagnostics());
        }
        match &self.current_token {
            Some(Token::Let) => self.parse_let_statement(),
            Some(Token::Return) => self.parse_return_statement(),
            _ => None,
        }
    }

    /// Parses `return <int>` or `return <ident>`, leaving the value as current token.
    fn parse_return_statement(&mut self) -> (r: Option<Statement>)
        requires
            old(self).wf(),
            old(self).pending().len() > 0,
            old(self).pending()[0] == TokenModel::Return,
        ensures
            final(self).wf(),
            ({
                let (st, d, last) = return_outcome(old(self).pending());
                &&& opt_statement_view(r) == st
                &&& final(self).pending() == suffix(old(self).pending(), last)
                &&& final(self).diagnostics() == old(self).diagnostics() + opt_seq(d)
            }),
            opt_statement_view(r) matches Some(st) ==> statement_ok(st),
    {
        let ghost t = self.pending();
        proof {
            assert(self.diagnostics() + opt_seq::<Seq<char>>(None) =~= self.diagnostics());
        }
        self.next_token();
        proof {
            lemma_suffix_step(t, 0);
            assert(suffix(t, 0) =~= t);
            lemma_suffix_step(t, 1);
        }
        match &self.current_token {
            Some(Token::Int(value)) => Some(
                Statement::Return(Expression::Literal(Literal { value: value.clone() })),
            ),
            Some(Token::Ident(name)) => Some(
                Statement::Return(Expression::Identifier(Identifier { name: name.clone() })),
            ),
            _ => None,
        }
    }

    /// Collects the maximal run of identifier tokens that starts at the current token,
    /// which is the token at index 2 of `t`, as the parameters of a `let` statement.
    fn parse_parameters(&mut self, Ghost(t): Ghost<Seq<TokenModel>>) -> (r: Vec<Identifier>)
        requires
            old(self).wf(),
            old(self).pending() == suffix(t, 2),
            2 < t.len(),
            t[2] is Ident,
        ensures
            final(self).wf(),
            final(self).diagnostics() == old(self).diagnostics(),
            final(self).pending() == suffix(t, ident_tokens_end(t, 2)),
            ident_tokens_end(t, 2) <= t.len(),
            names_of(r@) == names_between(t, 2, ident_tokens_end(t, 2)),
    {
        let mut args: Vec<Identifier> = Vec::new();
        let ghost mut k: int = 2;
        proof {
            assert(names_of(args@) =~= names_between(t, 2, 2));
        }
        loop
            invariant
                self.wf(),
                self.diagnostics() == old(self).diagnostics(),
                2 <= k <= t.len(),
                self.pending() == suffix(t, k),
                ident_tokens_end(t, 2) == ident_tokens_end(t, k),
                names_of(args@) == names_between(t, 2, k),
            ensures
                self.wf(),
                self.diagnostics() == old(self).diagnostics(),
                k == ident_tokens_end(t, 2),
                k <= t.len(),
                self.pending() == suffix(t, k),
                names_of(args@) == names_between(t, 2, k),
            decreases t.len() - k,
        {
            proof {
                lemma_suffix_step(t, k);
            }
            match &self.current_token {
                Some(Token::Ident(name)) => {
                    let ghost before = args@;
                    let id = Identifier { name: name.clone() };
                    assert(id@ == t[k]->Ident_0);
                    args.push(id);
                    self.next_token();
                    proof {
                        assert(names_of(args@) =~= names_of(before).push(id@));
                        assert(names_between(t, 2, k + 1) =~= names_between(t, 2, k).push(
                            t[k]->Ident_0,
                        ));
                        k = k + 1;
                    }
                },
                _ => {
                    break;
                },
            }
        }
        args
    }

    /// Parses `let <ident> [<ident>...] = <int>`, leaving the last token looked at as
    /// current token; records a diagnostic when the statement is malformed.
    fn parse_let_statement(&mut self) -> (r: Option<Statement>)
        requires
            old(self).wf(),
            old(self).pending().len() > 0,
            old(self).pending()[0] == TokenModel::Let,
        ensures
            final(self).wf(),
            ({
                let (st, d, last) = let_outcome(old(self).pending());
                &&& opt_statement_view(r) == st
                &&& final(self).pending() == suffix(old(self).pending(), last)
                &&& final(self).diagnostics() == old(self).diagnostics() + opt_seq(d)
            }),
            opt_statement_view(r) matches Some(st) ==> statement_ok(st),
    {
        let ghost t = self.pending();
        let ghost d0 = self.diagnostics();
        proof {
            assert(suffix(t, 0) =~= t);
            lemma_suffix_step(t, 0);
            lemma_suffix_step(t, 1);
            lemma_suffix_step(t, 2);
            lemma_ident_tokens_end(t, 2);
            lemma_statement_ok(t);
        }
        self.next_token();
        let name = match &self.current_token {
            Some(Token::Ident(name)) => name.clone(),
            _ => {
                self.push_error("Expected identifier");
                assert(d0 + opt_seq(Some(expected_identifier())) =~= self.diagnostics());
                return None;
            },
        };
        self.next_token();
        let mut args: Vec<Identifier> = Vec::new();
        // The index in `t` of the value token.
        let ghost mut value_at: int = 3;
        match &self.current_token {
            Some(Token::Assign) => {},
            Some(Token::Ident(_)) => {
                args = self.parse_parameters(Ghost(t));
                proof {
                    value_at = ident_tokens_end(t, 2) + 1;
                }
            },
            _ => {
                self.push_error("Unexpected character after identifier");
                assert(d0 + opt_seq(Some(unexpected_after_identifier())) =~= self.diagnostics());
                return None;
            },
        }
        proof {
            lemma_suffix_step(t, value_at - 1);
            lemma_suffix_step(t, value_at);
        }
        self.next_token();
        match &self.current_token {
            Some(Token::Int(value)) => {
                let value = value.clone();
                let args = if args.len() == 0 {
                    None
                } else {
                    Some(args)
                };
                assert(d0 + opt_seq::<Seq<char>>(None) =~= self.diagnostics());
                Some(
                    Statement::Let(
                        LetStatement {
                            identifier: Identifier { name },
                            args,
                            value: Expression::Literal(Literal { value }),
                        },
                    ),
                )
            },
            _ => {
                self.push_error("Expected integer");
                assert(d0 + opt_seq(Some(expected_integer())) =~= self.diagnostics());
                None
            },
        }
    }
}

/// An empty input yields zero tokens, and parsing it gives an empty program and no
/// diagnostics.
pub proof fn lemma_empty_input(s: Seq<char>)
    requires
        s.len() == 0,
    ensures
        tokens_of(s) == Seq::<TokenModel>::empty(),
        program_of(tokens_of(s)).0 == Seq::<StatementModel>::empty(),
        program_of(tokens_of(s)).1 == Seq::<Seq<char>>::empty(),
{
}

} // verus!
