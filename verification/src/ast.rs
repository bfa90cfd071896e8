//! The syntax tree that the parser builds.
use vstd::prelude::*;

verus! {

#[derive(Debug, PartialEq, Clone, Copy)]
pub enum BinaryOp {
    Add,
    Sub,
    Mul,
    Div,
    Lt,
    Lte,
    Gt,
    Gte,
    Eq,
    Ne,
}

#[derive(Debug, PartialEq, Clone, Copy)]
pub enum UnaryOp {
    Neg,
    Not,
}

#[derive(Debug, PartialEq, Clone, Copy)]
pub enum LogicalOp {
    And,
    Or,
}

/// How an operator is written in Lox.
pub open spec fn binary_op_symbol(op: BinaryOp) -> Seq<char> {
    match op {
        BinaryOp::Add => "+"@,
        BinaryOp::Sub => "-"@,
        BinaryOp::Mul => "*"@,
        BinaryOp::Div => "/"@,
        BinaryOp::Lt => "<"@,
        BinaryOp::Lte => "<="@,
        BinaryOp::Gt => ">"@,
        BinaryOp::Gte => ">="@,
        BinaryOp::Eq => "=="@,
        BinaryOp::Ne => "!="@,
    }
}

impl BinaryOp {
    /// The operator as it is written in Lox, for example `<=`.
    pub fn symbol(&self) -> (s: &'static str)
        ensures
            s@ == binary_op_symbol(*self),
    {
        match self {
            BinaryOp::Add => "+",
            BinaryOp::Sub => "-",
            BinaryOp::Mul => "*",
            BinaryOp::Div => "/",
            BinaryOp::Lt => "<",
            BinaryOp::Lte => "<=",
            BinaryOp::Gt => ">",
            BinaryOp::Gte => ">=",
            BinaryOp::Eq => "==",
            BinaryOp::Ne => "!=",
        }
    }
}

/// How a prefix operator is written in Lox.
pub open spec fn unary_op_symbol(op: UnaryOp) -> Seq<char> {
    match op {
        UnaryOp::Neg => "-"@,
        UnaryOp::Not => "!"@,
    }
}

impl UnaryOp {
    /// The operator as it is written in Lox: `-` or `!`.
    pub fn symbol(&self) -> (s: &'static str)
        ensures
            s@ == unary_op_symbol(*self),
    {
        match self {
            UnaryOp::Neg => "-",
            UnaryOp::Not => "!",
        }
    }
}

/// A literal value. A number keeps the digits it was written with.
#[derive(Debug, PartialEq)]
pub enum Literal {
    Number(String),
    String(String),
    True,
    False,
    Nil,
}

pub enum SpecLiteral {
    Number(Seq<char>),
    String(Seq<char>),
    True,
    False,
    Nil,
}

impl View for Literal {
    type V = SpecLiteral;

    open spec fn view(&self) -> SpecLiteral {
        match self {
            Literal::Number(s) => SpecLiteral::Number(s@),
            Literal::String(s) => SpecLiteral::String(s@),
            Literal::True => SpecLiteral::True,
            Literal::False => SpecLiteral::False,
            Literal::Nil => SpecLiteral::Nil,
        }
    }
}

#[derive(Debug, PartialEq)]
pub enum Expr {
    Literal(Literal),
    Binary { left: Box<Expr>, op: BinaryOp, right: Box<Expr> },
    Unary { op: UnaryOp, expr: Box<Expr> },
    Grouping(Box<Expr>),
    Variable(String),
    Assign { name: String, value: Box<Expr> },
    Logical { left: Box<Expr>, op: LogicalOp, right: Box<Expr> },
    Call { callee: Box<Expr>, arguments: Vec<Expr> },
}

pub enum SpecExpr {
    Literal(SpecLiteral),
    Binary { left: Box<SpecExpr>, op: BinaryOp, right: Box<SpecExpr> },
    Unary { op: UnaryOp, expr: Box<SpecExpr> },
    Grouping(Box<SpecExpr>),
    Variable(Seq<char>),
    Assign { name: Seq<char>, value: Box<SpecExpr> },
    Logical { left: Box<SpecExpr>, op: LogicalOp, right: Box<SpecExpr> },
    Call { callee: Box<SpecExpr>, arguments: Seq<SpecExpr> },
}

impl View for Expr {
    type V = SpecExpr;

    open spec fn view(&self) -> SpecExpr
        decreases self,
    {
        match self {
            Expr::Literal(l) => SpecExpr::Literal(l@),
            Expr::Binary { left, op, right } => SpecExpr::Binary {
                left: Box::new((**left).view()),
                op: *op,
                right: Box::new((**right).view()),
            },
            Expr::Unary { op, expr } => SpecExpr::Unary { op: *op, expr: Box::new((**expr).view()) },
            Expr::Grouping(e) => SpecExpr::Grouping(Box::new((**e).view())),
            Expr::Variable(name) => SpecExpr::Variable(name@),
            Expr::Assign { name, value } => SpecExpr::Assign {
                name: name@,
                value: Box::new((**value).view()),
            },
            Expr::Logical { left, op, right } => SpecExpr::Logical {
                left: Box::new((**left).view()),
                op: *op,
                right: Box::new((**right).view()),
            },
            Expr::Call { callee, arguments } => SpecExpr::Call {
                callee: Box::new((**callee).view()),
                arguments: exprs_view(arguments@),
            },
        }
    }
}

/// The views of a list of expressions.
pub open spec fn exprs_view(es: Seq<Expr>) -> Seq<SpecExpr>
    decreases es,
{
    if es.len() == 0 {
        Seq::empty()
    } else {
        exprs_view(es.drop_last()).push(es.last().view())
    }
}

/// A function declaration: its name, the names of its parameters, and its body.
#[derive(Debug, PartialEq)]
pub struct FnDefn {
    pub name: String,
    pub parameters: Vec<String>,
    pub body: Vec<Stmt>,
}

pub struct SpecFnDefn {
    pub name: Seq<char>,
    pub parameters: Seq<Seq<char>>,
    pub body: Seq<SpecStmt>,
}

#[derive(Debug, PartialEq)]
pub enum Stmt {
    Expression(Expr),
    Print(Expr),
    Var { name: String, val: Option<Expr> },
    Block(Vec<Stmt>),
    If { condition: Expr, then_branch: Box<Stmt>, else_branch: Option<Box<Stmt>> },
    While { condition: Expr, body: Box<Stmt> },
    Function(FnDefn),
}

pub enum SpecStmt {
    Expression(SpecExpr),
    Print(SpecExpr),
    Var { name: Seq<char>, val: Option<SpecExpr> },
    Block(Seq<SpecStmt>),
    If { condition: SpecExpr, then_branch: Box<SpecStmt>, else_branch: Option<Box<SpecStmt>> },
    While { condition: SpecExpr, body: Box<SpecStmt> },
    Function(SpecFnDefn),
}

/// A function declaration as a mathematical value.
pub open spec fn fn_view(f: FnDefn) -> SpecFnDefn {
    SpecFnDefn { name: f.name@, parameters: names_view(f.parameters@), body: stmts_view(f.body@) }
}

pub open spec fn names_view(names: Seq<String>) -> Seq<Seq<char>> {
    names.map_values(|n: String| n@)
}

impl View for Stmt {
    type V = SpecStmt;

    open spec fn view(&self) -> SpecStmt
        decreases self,
    {
        match self {
            Stmt::Expression(e) => SpecStmt::Expression(e@),
            Stmt::Print(e) => SpecStmt::Print(e@),
            Stmt::Var { name, val } => SpecStmt::Var {
                name: name@,
                val: match val {
                    Some(e) => Some(e@),
                    None => None,
                },
            },
            Stmt::Block(stmts) => SpecStmt::Block(stmts_view(stmts@)),
            Stmt::If { condition, then_branch, else_branch } => SpecStmt::If {
                condition: condition@,
                then_branch: Box::new((**then_branch).view()),
                else_branch: match else_branch {
                    Some(s) => Some(Box::new((**s).view())),
                    None => None,
                },
            },
            Stmt::While { condition, body } => SpecStmt::While {
                condition: condition@,
                body: Box::new((**body).view()),
            },
            Stmt::Function(f) => SpecStmt::Function(
                SpecFnDefn {
                    name: f.name@,
                    parameters: names_view(f.parameters@),
                    body: stmts_view(f.body@),
                },
            ),
        }
    }
}

/// The views of a list of statements.
pub open spec fn stmts_view(ss: Seq<Stmt>) -> Seq<SpecStmt>
    decreases ss,
{
    if ss.len() == 0 {
        Seq::empty()
    } else {
        stmts_view(ss.drop_last()).push(ss.last().view())
    }
}

/// A whole program: its statements, in order.
#[derive(Debug, PartialEq)]
pub struct Ast {
    pub statements: Vec<Stmt>,
}

impl View for Ast {
    type V = Seq<SpecStmt>;

    open spec fn view(&self) -> Seq<SpecStmt> {
        stmts_view(self.statements@)
    }
}

impl Literal {
    /// A copy of the literal.
    pub fn duplicate(&self) -> (r: Literal)
        ensures
            r@ == self@,
    {
        match self {
            Literal::Number(s) => Literal::Number(s.clone()),
            Literal::String(s) => Literal::String(s.clone()),
            Literal::True => Literal::True,
            Literal::False => Literal::False,
            Literal::Nil => Literal::Nil,
        }
    }
}

impl Expr {
    /// A copy of the expression, all the way down.
    pub fn duplicate(&self) -> (r: Expr)
        ensures
            r@ == self@,
        decreases self,
    {
        match self {
            Expr::Literal(l) => Expr::Literal(l.duplicate()),
            Expr::Binary { left, op, right } => Expr::Binary {
                left: Box::new(left.duplicate()),
                op: *op,
                right: Box::new(right.duplicate()),
            },
            Expr::Unary { op, expr } => Expr::Unary { op: *op, expr: Box::new(expr.duplicate()) },
            Expr::Grouping(e) => Expr::Grouping(Box::new(e.duplicate())),
            Expr::Variable(name) => Expr::Variable(name.clone()),
            Expr::Assign { name, value } => Expr::Assign {
                name: name.clone(),
                value: Box::new(value.duplicate()),
            },
            Expr::Logical { left, op, right } => Expr::Logical {
                left: Box::new(left.duplicate()),
                op: *op,
                right: Box::new(right.duplicate()),
            },
            Expr::Call { callee, arguments } => {
                let callee = Box::new(callee.duplicate());
                let mut copies: Vec<Expr> = Vec::new();
                let mut i: usize = 0;
                proof {
                    assert(decreases_to!(self => arguments));
                    assert(decreases_to!(arguments => arguments@));
                }
                while i < arguments.len()
                    invariant
                        i <= arguments@.len(),
                        decreases_to!(self => arguments@),
                        exprs_view(copies@) == exprs_view(arguments@.take(i as int)),
                    decreases arguments@.len() - i,
                {
                    proof {
                        assert(decreases_to!(arguments@ => arguments@[i as int]));
                    }
                    let copy = arguments[i].duplicate();
                    proof {
                        lemma_exprs_view_push(copies@, copy);
                        lemma_exprs_view_push(arguments@.take(i as int), arguments@[i as int]);
                        assert(arguments@.take(i + 1) =~= arguments@.take(i as int).push(
                            arguments@[i as int],
                        ));
                    }
                    copies.push(copy);
                    i = i + 1;
                }
                assert(arguments@.take(arguments@.len() as int) =~= arguments@);
                Expr::Call { callee, arguments: copies }
            },
        }
    }
}

/// Copies of the names, in order.
fn duplicate_names(names: &Vec<String>) -> (r: Vec<String>)
    ensures
        names_view(r@) == names_view(names@),
{
    let mut copies: Vec<String> = Vec::new();
    let mut i: usize = 0;
    while i < names.len()
        invariant
            i <= names@.len(),
            names_view(copies@) == names_view(names@.take(i as int)),
        decreases names@.len() - i,
    {
        let copy = names[i].clone();
        let ghost before = names_view(copies@);
        copies.push(copy);
        assert(names@.take(i + 1) =~= names@.take(i as int).push(names@[i as int]));
        assert(names_view(copies@) =~= before.push(copy@));
        assert(names_view(names@.take(i + 1)) =~= names_view(names@.take(i as int)).push(
            names@[i as int]@,
        ));
        i = i + 1;
    }
    assert(names@.take(names@.len() as int) =~= names@);
    copies
}

impl Stmt {
    /// A copy of the statement, all the way down.
    pub fn duplicate(&self) -> (r: Stmt)
        ensures
            r@ == self@,
        decreases self,
    {
        match self {
            Stmt::Expression(e) => Stmt::Expression(e.duplicate()),
            Stmt::Print(e) => Stmt::Print(e.duplicate()),
            Stmt::Var { name, val } => Stmt::Var {
                name: name.clone(),
                val: match val {
                    Some(e) => Some(e.duplicate()),
                    None => None,
                },
            },
            Stmt::Block(stmts) => {
                proof {
                    assert(decreases_to!(self => stmts));
                    assert(decreases_to!(stmts => stmts@));
                }
                Stmt::Block(Stmt::duplicate_all(stmts, Ghost(*self)))
            },
            Stmt::If { condition, then_branch, else_branch } => Stmt::If {
                condition: condition.duplicate(),
                then_branch: Box::new(then_branch.duplicate()),
                else_branch: match else_branch {
                    Some(s) => Some(Box::new(s.duplicate())),
                    None => None,
                },
            },
            Stmt::While { condition, body } => Stmt::While {
                condition: condition.duplicate(),
                body: Box::new(body.duplicate()),
            },
            Stmt::Function(f) => {
                proof {
                    assert(decreases_to!(self => f));
                    assert(decreases_to!(f => f.body));
                    assert(decreases_to!(f.body => f.body@));
                }
                Stmt::Function(
                    FnDefn {
                        name: f.name.clone(),
                        parameters: duplicate_names(&f.parameters),
                        body: Stmt::duplicate_all(&f.body, Ghost(*self)),
                    },
                )
            },
        }
    }

    /// Copies of statements that lie inside `whole`.
    fn duplicate_all(stmts: &Vec<Stmt>, whole: Ghost<Stmt>) -> (r: Vec<Stmt>)
        requires
            decreases_to!(whole@ => stmts@),
        ensures
            stmts_view(r@) == stmts_view(stmts@),
        decreases whole@, 0int,
    {
        let mut copies: Vec<Stmt> = Vec::new();
        let mut i: usize = 0;
        while i < stmts.len()
            invariant
                i <= stmts@.len(),
                decreases_to!(whole@ => stmts@),
                stmts_view(copies@) == stmts_view(stmts@.take(i as int)),
            decreases stmts@.len() - i,
        {
            proof {
                assert(decreases_to!(stmts@ => stmts@[i as int]));
            }
            let copy = stmts[i].duplicate();
            proof {
                lemma_stmts_view_push(copies@, copy);
                lemma_stmts_view_push(stmts@.take(i as int), stmts@[i as int]);
                assert(stmts@.take(i + 1) =~= stmts@.take(i as int).push(stmts@[i as int]));
            }
            copies.push(copy);
            i = i + 1;
        }
        assert(stmts@.take(stmts@.len() as int) =~= stmts@);
        copies
    }
}

impl FnDefn {
    /// A copy of the function declaration.
    pub fn duplicate(&self) -> (r: FnDefn)
        ensures
            fn_view(r) == fn_view(*self),
    {
        let mut body: Vec<Stmt> = Vec::new();
        let mut i: usize = 0;
        while i < self.body.len()
            invariant
                i <= self.body@.len(),
                stmts_view(body@) == stmts_view(self.body@.take(i as int)),
            decreases self.body@.len() - i,
        {
            let copy = self.body[i].duplicate();
            proof {
                lemma_stmts_view_push(body@, copy);
                lemma_stmts_view_push(self.body@.take(i as int), self.body@[i as int]);
                assert(self.body@.take(i + 1) =~= self.body@.take(i as int).push(
                    self.body@[i as int],
                ));
            }
            body.push(copy);
            i = i + 1;
        }
        assert(self.body@.take(self.body@.len() as int) =~= self.body@);
        FnDefn { name: self.name.clone(), parameters: duplicate_names(&self.parameters), body }
    }
}

pub proof fn lemma_exprs_view_push(es: Seq<Expr>, e: Expr)
    ensures
        exprs_view(es.push(e)) == exprs_view(es).push(e@),
{
    assert(es.push(e).drop_last() =~= es);
}

pub proof fn lemma_stmts_view_push(ss: Seq<Stmt>, s: Stmt)
    ensures
        stmts_view(ss.push(s)) == stmts_view(ss).push(s@),
{
    assert(ss.push(s).drop_last() =~= ss);
}

} // verus!
