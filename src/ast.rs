use vstd::prelude::*;

verus! {

/// A top-level statement.
#[derive(Debug)]
pub enum Statement {
    Let(LetStatement),
    Return(Expression),
}

/// A value-producing construct: a literal or a reference to a name.
#[derive(Debug)]
pub enum Expression {
    Literal(Literal),
    Identifier(Identifier),
}

/// An ordered sequence of statements, in source order.
#[derive(Debug)]
pub struct Program {
    pub statements: Vec<Statement>,
}

/// A binding: `let name [params...] = value`.
#[derive(Debug)]
pub struct LetStatement {
    pub identifier: Identifier,
    pub args: Option<Vec<Identifier>>,
    pub value: Expression,
}

#[derive(Debug, PartialEq, Eq)]
pub struct Identifier {
    pub name: String,
}

/// The verbatim digit string of an integer literal.
#[derive(Debug)]
pub struct Literal {
    pub value: String,
}

/// The mathematical value of an `Expression`.
pub enum ExpressionModel {
    Literal(Seq<char>),
    Identifier(Seq<char>),
}

/// The mathematical value of a `Statement`; `args` is `None` for a plain binding.
pub enum StatementModel {
    Let { name: Seq<char>, args: Option<Seq<Seq<char>>>, value: ExpressionModel },
    Return(ExpressionModel),
}

impl View for Identifier {
    type V = Seq<char>;

    open spec fn view(&self) -> Seq<char> {
        self.name@
    }
}

impl View for Literal {
    type V = Seq<char>;

    open spec fn view(&self) -> Seq<char> {
        self.value@
    }
}

impl View for Expression {
    type V = ExpressionModel;

    open spec fn view(&self) -> ExpressionModel {
        match self {
            Expression::Literal(l) => ExpressionModel::Literal(l@),
            Expression::Identifier(i) => ExpressionModel::Identifier(i@),
        }
    }
}

/// The names of a sequence of identifiers.
pub open spec fn names_of(ids: Seq<Identifier>) -> Seq<Seq<char>> {
    ids.map_values(|i: Identifier| i@)
}

impl View for LetStatement {
    type V = StatementModel;

    open spec fn view(&self) -> StatementModel {
        StatementModel::Let {
            name: self.identifier@,
            args: match self.args {
                Some(a) => Some(names_of(a@)),
                None => None,
            },
            value: self.value@,
        }
    }
}

impl View for Statement {
    type V = StatementModel;

    open spec fn view(&self) -> StatementModel {
        match self {
            Statement::Let(l) => l@,
            Statement::Return(e) => StatementModel::Return(e@),
        }
    }
}

impl View for Program {
    type V = Seq<StatementModel>;

    open spec fn view(&self) -> Seq<StatementModel> {
        self.statements@.map_values(|s: Statement| s@)
    }
}

impl Program {
    /// An empty program.
    pub fn new() -> (r: Self)
        ensures
            r@ == Seq::<StatementModel>::empty(),
    {
        let r = Program { statements: Vec::new() };
        assert(r@ =~= Seq::<StatementModel>::empty());
        r
    }
}

} // verus!
