use vstd::prelude::*;

verus! {

/// Prefix operators of the expression language.
#[derive(Debug, Clone, Copy, PartialEq, Eq, Structural)]
pub enum UnaryOp {
    Not,
    Neg,
    Pos,
}

/// Infix operators of the expression language.
#[derive(Debug, Clone, Copy, PartialEq, Eq, Structural)]
pub enum BinaryOp {
    Mul,
    Div,
    Mod,
    Add,
    Sub,
    Lt,
    Le,
    Gt,
    Ge,
    Eq,
    Ne,
    And,
    Or,
    Implies,
    Iff,
}

/// Associativity of an operator.
#[derive(Debug, Clone, Copy, PartialEq, Eq, Structural)]
pub enum Assoc {
    Left,
    Right,
}

/// `.` or `->` member access.
#[derive(Debug, Clone, Copy, PartialEq, Eq, Structural)]
pub enum MemberOp {
    Dot,
    Arrow,
}

/// `\forall` or `\exists`.
#[derive(Debug, Clone, Copy, PartialEq, Eq, Structural)]
pub enum QuantKind {
    Forall,
    Exists,
}

/// The mathematical model of an expression tree: names are character sequences.
pub enum SpecExpr {
    Ident(Seq<char>),
    Number(Seq<char>),
    Unary { op: UnaryOp, expr: Box<SpecExpr> },
    Binary { op: BinaryOp, left: Box<SpecExpr>, right: Box<SpecExpr> },
    Ternary { cond: Box<SpecExpr>, then_expr: Box<SpecExpr>, else_expr: Box<SpecExpr> },
    Call { callee: Box<SpecExpr>, args: Seq<SpecExpr> },
    Index { base: Box<SpecExpr>, index: Box<SpecExpr> },
    Member { base: Box<SpecExpr>, op: MemberOp, field: Seq<char> },
    Quant { kind: QuantKind, vars: Seq<Seq<char>>, body: Box<SpecExpr> },
}

/// An ACSL expression tree.
#[derive(Debug, PartialEq, Eq)]
pub enum Expr {
    Ident(String),
    Number(String),
    Unary { op: UnaryOp, expr: Box<Expr> },
    Binary { op: BinaryOp, left: Box<Expr>, right: Box<Expr> },
    Ternary { cond: Box<Expr>, then_expr: Box<Expr>, else_expr: Box<Expr> },
    Call { callee: Box<Expr>, args: Vec<Expr> },
    Index { base: Box<Expr>, index: Box<Expr> },
    Member { base: Box<Expr>, op: MemberOp, field: String },
    Quant { kind: QuantKind, vars: Vec<String>, body: Box<Expr> },
}

/// The views of a list of strings.
pub open spec fn view_strings(s: Seq<String>) -> Seq<Seq<char>> {
    s.map_values(|x: String| x@)
}

impl View for Expr {
    type V = SpecExpr;

    open spec fn view(&self) -> SpecExpr
        decreases self,
    {
        match self {
            Expr::Ident(s) => SpecExpr::Ident(s@),
            Expr::Number(s) => SpecExpr::Number(s@),
            Expr::Unary { op, expr } => SpecExpr::Unary { op: *op, expr: Box::new((**expr).view()) },
            Expr::Binary { op, left, right } => SpecExpr::Binary {
                op: *op,
                left: Box::new((**left).view()),
                right: Box::new((**right).view()),
            },
            Expr::Ternary { cond, then_expr, else_expr } => SpecExpr::Ternary {
                cond: Box::new((**cond).view()),
                then_expr: Box::new((**then_expr).view()),
                else_expr: Box::new((**else_expr).view()),
            },
            Expr::Call { callee, args } => SpecExpr::Call {
                callee: Box::new((**callee).view()),
                args: view_exprs(args@),
            },
            Expr::Index { base, index } => SpecExpr::Index {
                base: Box::new((**base).view()),
                index: Box::new((**index).view()),
            },
            Expr::Member { base, op, field } => SpecExpr::Member {
                base: Box::new((**base).view()),
                op: *op,
                field: field@,
            },
            Expr::Quant { kind, vars, body } => SpecExpr::Quant {
                kind: *kind,
                vars: view_strings(vars@),
                body: Box::new((**body).view()),
            },
        }
    }
}

/// A copy of a list of strings.
pub fn copy_strings(v: &Vec<String>) -> (r: Vec<String>)
    ensures
        view_strings(r@) == view_strings(v@),
{
    let mut r: Vec<String> = Vec::new();
    let mut i: usize = 0;
    while i < v.len()
        invariant
            i <= v.len(),
            r@.len() == i,
            forall|j: int| 0 <= j < i ==> #[trigger] r@[j]@ == v@[j]@,
        decreases v.len() - i,
    {
        r.push(v[i].clone());
        i += 1;
    }
    assert(view_strings(r@) =~= view_strings(v@));
    r
}

/// A copy of an expression tree.
pub fn copy_expr(e: &Expr) -> (r: Expr)
    ensures
        r@ == e@,
    decreases e,
{
    match e {
        Expr::Ident(s) => Expr::Ident(s.clone()),
        Expr::Number(s) => Expr::Number(s.clone()),
        Expr::Unary { op, expr } => Expr::Unary { op: *op, expr: Box::new(copy_expr(expr)) },
        Expr::Binary { op, left, right } => Expr::Binary {
            op: *op,
            left: Box::new(copy_expr(left)),
            right: Box::new(copy_expr(right)),
        },
        Expr::Ternary { cond, then_expr, else_expr } => Expr::Ternary {
            cond: Box::new(copy_expr(cond)),
            then_expr: Box::new(copy_expr(then_expr)),
            else_expr: Box::new(copy_expr(else_expr)),
        },
        Expr::Call { callee, args } => Expr::Call {
            callee: Box::new(copy_expr(callee)),
            args: copy_exprs(args),
        },
        Expr::Index { base, index } => Expr::Index {
            base: Box::new(copy_expr(base)),
            index: Box::new(copy_expr(index)),
        },
        Expr::Member { base, op, field } => Expr::Member {
            base: Box::new(copy_expr(base)),
            op: *op,
            field: field.clone(),
        },
        Expr::Quant { kind, vars, body } => Expr::Quant {
            kind: *kind,
            vars: copy_strings(vars),
            body: Box::new(copy_expr(body)),
        },
    }
}

/// A copy of a list of expression trees.
pub fn copy_exprs(v: &Vec<Expr>) -> (r: Vec<Expr>)
    ensures
        view_exprs(r@) == view_exprs(v@),
    decreases v,
{
    let mut r: Vec<Expr> = Vec::new();
    let mut i: usize = 0;
    proof {
        lemma_view_exprs(v@);
    }
    while i < v.len()
        invariant
            i <= v.len(),
            r@.len() == i,
            forall|j: int| 0 <= j < i ==> #[trigger] r@[j]@ == v@[j]@,
            view_exprs(v@).len() == v@.len(),
            forall|j: int| 0 <= j < v@.len() ==> #[trigger] view_exprs(v@)[j] == v@[j]@,
        decreases v.len() - i,
    {
        proof {
            assert(decreases_to!(v => v@));
            assert(decreases_to!(v@ => v@[i as int]));
        }
        r.push(copy_expr(&v[i]));
        i += 1;
    }
    proof {
        lemma_view_exprs(r@);
    }
    assert(view_exprs(r@) =~= view_exprs(v@));
    r
}

impl Clone for Expr {
    fn clone(&self) -> (r: Self)
        ensures
            r@ == self@,
    {
        copy_expr(self)
    }
}

/// The views of a list of expressions, element by element.
pub open spec fn view_exprs(s: Seq<Expr>) -> Seq<SpecExpr>
    decreases s,
{
    if s.len() == 0 {
        Seq::empty()
    } else {
        view_exprs(s.drop_last()).push(s.last().view())
    }
}

/// `view_exprs` keeps the length and views each element.
pub proof fn lemma_view_exprs(s: Seq<Expr>)
    ensures
        view_exprs(s).len() == s.len(),
        forall|i: int| 0 <= i < s.len() ==> #[trigger] view_exprs(s)[i] == s[i]@,
    decreases s.len(),
{
    if s.len() > 0 {
        lemma_view_exprs(s.drop_last());
        assert(view_exprs(s) == view_exprs(s.drop_last()).push(s.last().view()));
    } else {
        assert(view_exprs(s) == Seq::<SpecExpr>::empty());
    }
}

/// `view_exprs` distributes over pushing one element.
pub proof fn lemma_view_exprs_push(s: Seq<Expr>, e: Expr)
    ensures
        view_exprs(s.push(e)) == view_exprs(s).push(e@),
{
    assert(s.push(e).drop_last() =~= s);
}

impl UnaryOp {
    /// The operator's spelling.
    pub open spec fn spec_str(self) -> Seq<char> {
        match self {
            UnaryOp::Not => seq!['!'],
            UnaryOp::Neg => seq!['-'],
            UnaryOp::Pos => seq!['+'],
        }
    }

    pub fn as_str(self) -> (s: &'static str)
        ensures
            s@ == self.spec_str(),
    {
        match self {
            UnaryOp::Not => {
                proof {
                    reveal_strlit("!");
                }
                "!"
            },
            UnaryOp::Neg => {
                proof {
                    reveal_strlit("-");
                }
                "-"
            },
            UnaryOp::Pos => {
                proof {
                    reveal_strlit("+");
                }
                "+"
            },
        }
    }
}

impl BinaryOp {
    /// The operator's spelling.
    pub open spec fn spec_str(self) -> Seq<char> {
        match self {
            BinaryOp::Mul => seq!['*'],
            BinaryOp::Div => seq!['/'],
            BinaryOp::Mod => seq!['%'],
            BinaryOp::Add => seq!['+'],
            BinaryOp::Sub => seq!['-'],
            BinaryOp::Lt => seq!['<'],
            BinaryOp::Le => seq!['<', '='],
            BinaryOp::Gt => seq!['>'],
            BinaryOp::Ge => seq!['>', '='],
            BinaryOp::Eq => seq!['=', '='],
            BinaryOp::Ne => seq!['!', '='],
            BinaryOp::And => seq!['&', '&'],
            BinaryOp::Or => seq!['|', '|'],
            BinaryOp::Implies => seq!['=', '=', '>'],
            BinaryOp::Iff => seq!['<', '=', '=', '>'],
        }
    }

    /// Binding strength: a larger number binds more tightly.
    pub open spec fn spec_precedence(self) -> u8 {
        match self {
            BinaryOp::Iff => 2,
            BinaryOp::Implies => 3,
            BinaryOp::Or => 4,
            BinaryOp::And => 5,
            BinaryOp::Eq | BinaryOp::Ne => 6,
            BinaryOp::Lt | BinaryOp::Le | BinaryOp::Gt | BinaryOp::Ge => 7,
            BinaryOp::Add | BinaryOp::Sub => 8,
            BinaryOp::Mul | BinaryOp::Div | BinaryOp::Mod => 9,
        }
    }

    /// Only implication groups to the right.
    pub open spec fn spec_assoc(self) -> Assoc {
        match self {
            BinaryOp::Implies => Assoc::Right,
            _ => Assoc::Left,
        }
    }

    pub fn as_str(self) -> (s: &'static str)
        ensures
            s@ == self.spec_str(),
    {
        match self {
            BinaryOp::Mul => {
                proof {
                    reveal_strlit("*");
                }
                "*"
            },
            BinaryOp::Div => {
                proof {
                    reveal_strlit("/");
                }
                "/"
            },
            BinaryOp::Mod => {
                proof {
                    reveal_strlit("%");
                }
                "%"
            },
            BinaryOp::Add => {
                proof {
                    reveal_strlit("+");
                }
                "+"
            },
            BinaryOp::Sub => {
                proof {
                    reveal_strlit("-");
                }
                "-"
            },
            BinaryOp::Lt => {
                proof {
                    reveal_strlit("<");
                }
                "<"
            },
            BinaryOp::Le => {
                proof {
                    reveal_strlit("<=");
                }
                "<="
            },
            BinaryOp::Gt => {
                proof {
                    reveal_strlit(">");
                }
                ">"
            },
            BinaryOp::Ge => {
                proof {
                    reveal_strlit(">=");
                }
                ">="
            },
            BinaryOp::Eq => {
                proof {
                    reveal_strlit("==");
                }
                "=="
            },
            BinaryOp::Ne => {
                proof {
                    reveal_strlit("!=");
                }
                "!="
            },
            BinaryOp::And => {
                proof {
                    reveal_strlit("&&");
                }
                "&&"
            },
            BinaryOp::Or => {
                proof {
                    reveal_strlit("||");
                }
                "||"
            },
            BinaryOp::Implies => {
                proof {
                    reveal_strlit("==>");
                }
                "==>"
            },
            BinaryOp::Iff => {
                proof {
                    reveal_strlit("<==>");
                }
                "<==>"
            },
        }
    }

    pub fn precedence(self) -> (p: u8)
        ensures
            p == self.spec_precedence(),
    {
        match self {
            BinaryOp::Iff => 2,
            BinaryOp::Implies => 3,
            BinaryOp::Or => 4,
            BinaryOp::And => 5,
            BinaryOp::Eq | BinaryOp::Ne => 6,
            BinaryOp::Lt | BinaryOp::Le | BinaryOp::Gt | BinaryOp::Ge => 7,
            BinaryOp::Add | BinaryOp::Sub => 8,
            BinaryOp::Mul | BinaryOp::Div | BinaryOp::Mod => 9,
        }
    }

    pub fn assoc(self) -> (a: Assoc)
        ensures
            a == self.spec_assoc(),
    {
        match self {
            BinaryOp::Implies => Assoc::Right,
            _ => Assoc::Left,
        }
    }
}

impl QuantKind {
    /// The quantifier's keyword.
    pub open spec fn spec_str(self) -> Seq<char> {
        match self {
            QuantKind::Forall => seq!['\\', 'f', 'o', 'r', 'a', 'l', 'l'],
            QuantKind::Exists => seq!['\\', 'e', 'x', 'i', 's', 't', 's'],
        }
    }

    pub fn as_str(self) -> (s: &'static str)
        ensures
            s@ == self.spec_str(),
    {
        match self {
            QuantKind::Forall => {
                proof {
                    reveal_strlit("\\forall");
                }
                "\\forall"
            },
            QuantKind::Exists => {
                proof {
                    reveal_strlit("\\exists");
                }
                "\\exists"
            },
        }
    }
}

} // verus!
