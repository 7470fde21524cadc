use vstd::prelude::*;

verus! {

/// The four arithmetic operators.
#[derive(Debug, Clone, Copy, PartialEq, Eq, Structural)]
pub enum BinOp {
    Add,
    Sub,
    Mul,
    Div,
}

/// An expression.
#[derive(Debug, PartialEq, Eq)]
pub enum Expr {
    NumberLiteral(i64),
    VarRef(String),
    Call { callee: String, args: Vec<Expr> },
    Binary { op: BinOp, left: Box<Expr>, right: Box<Expr> },
}

/// A statement.
#[derive(Debug, PartialEq, Eq)]
pub enum Stmt {
    Let { name: String, init: Expr },
    QbitDecl { name: String },
    QuantumOp { gate: String, target: String },
    Measure { target: String, classical: Option<String> },
    Return(Option<Expr>),
    ExprStmt(Expr),
}

/// A function: its name, its parameters, its body, and the
/// partial-evaluation mode that the lexer was in when the body began.
#[derive(Debug, PartialEq, Eq)]
pub struct Function {
    pub name: String,
    pub params: Vec<String>,
    pub body: Vec<Stmt>,
    pub pe_enabled: bool,
}

/// A program: its functions in source order.
#[derive(Debug, PartialEq, Eq)]
pub struct Program {
    pub functions: Vec<Function>,
}

/// The mathematical value of an expression.
pub enum ExprV {
    NumberLiteral(int),
    VarRef(Seq<char>),
    Call { callee: Seq<char>, args: Seq<ExprV> },
    Binary { op: BinOp, left: Box<ExprV>, right: Box<ExprV> },
}

/// The mathematical value of a statement.
pub enum StmtV {
    Let { name: Seq<char>, init: ExprV },
    QbitDecl { name: Seq<char> },
    QuantumOp { gate: Seq<char>, target: Seq<char> },
    Measure { target: Seq<char>, classical: Option<Seq<char>> },
    Return(Option<ExprV>),
    ExprStmt(ExprV),
}

/// The mathematical value of a function.
pub struct FunctionV {
    pub name: Seq<char>,
    pub params: Seq<Seq<char>>,
    pub body: Seq<StmtV>,
    pub pe_enabled: bool,
}

/// The mathematical value of a program.
pub struct ProgramV {
    pub functions: Seq<FunctionV>,
}

impl View for Expr {
    type V = ExprV;

    open spec fn view(&self) -> ExprV
        decreases self,
    {
        match self {
            Expr::NumberLiteral(v) => ExprV::NumberLiteral(*v as int),
            Expr::VarRef(name) => ExprV::VarRef(name@),
            Expr::Call { callee, args } => ExprV::Call {
                callee: callee@,
                args: Seq::new(
                    args@.len(),
                    |i: int|
                        if 0 <= i < args@.len() {
                            args@[i]@
                        } else {
                            ExprV::NumberLiteral(0)
                        },
                ),
            },
            Expr::Binary { op, left, right } => ExprV::Binary {
                op: *op,
                left: Box::new((**left)@),
                right: Box::new((**right)@),
            },
        }
    }
}

/// The values of a sequence of expressions, in order.
pub open spec fn expr_views(s: Seq<Expr>) -> Seq<ExprV> {
    Seq::new(s.len(), |i: int| s[i]@)
}

/// The values of a sequence of statements, in order.
pub open spec fn stmt_views(s: Seq<Stmt>) -> Seq<StmtV> {
    s.map_values(|t: Stmt| t@)
}

/// The values of a sequence of names, in order.
pub open spec fn name_views(s: Seq<String>) -> Seq<Seq<char>> {
    s.map_values(|t: String| t@)
}

/// The values of a sequence of functions, in order.
pub open spec fn function_views(s: Seq<Function>) -> Seq<FunctionV> {
    s.map_values(|t: Function| t@)
}

/// The value of a call is made of the values of its arguments.
pub proof fn lemma_call_view(callee: String, args: Vec<Expr>)
    ensures
        (Expr::Call { callee, args })@ == (ExprV::Call {
            callee: callee@,
            args: expr_views(args@),
        }),
{
    let e = Expr::Call { callee, args };
    assert(e@->Call_args =~= expr_views(args@));
}

impl View for Stmt {
    type V = StmtV;

    open spec fn view(&self) -> StmtV {
        match self {
            Stmt::Let { name, init } => StmtV::Let { name: name@, init: init@ },
            Stmt::QbitDecl { name } => StmtV::QbitDecl { name: name@ },
            Stmt::QuantumOp { gate, target } => StmtV::QuantumOp { gate: gate@, target: target@ },
            Stmt::Measure { target, classical } => StmtV::Measure {
                target: target@,
                classical: match classical {
                    Some(c) => Some(c@),
                    None => None,
                },
            },
            Stmt::Return(e) => StmtV::Return(
                match e {
                    Some(e) => Some(e@),
                    None => None,
                },
            ),
            Stmt::ExprStmt(e) => StmtV::ExprStmt(e@),
        }
    }
}

impl View for Function {
    type V = FunctionV;

    open spec fn view(&self) -> FunctionV {
        FunctionV {
            name: self.name@,
            params: name_views(self.params@),
            body: stmt_views(self.body@),
            pe_enabled: self.pe_enabled,
        }
    }
}

impl View for Program {
    type V = ProgramV;

    open spec fn view(&self) -> ProgramV {
        ProgramV { functions: function_views(self.functions@) }
    }
}

} // verus!
