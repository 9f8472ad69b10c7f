//! The statements and expressions that bytecode is lifted to.

use crate::types::Pri;
use vstd::prelude::*;
use vstd::string::StringExecFns;

verus! {

/// A variable: the slot it lives in.
#[derive(Debug, Clone, Copy, PartialEq, Eq, Structural)]
pub struct Var(pub u16);

/// An expression.
#[derive(Debug, PartialEq, Eq)]
pub enum Expr {
    // variable slot
    Var(Var),
    // constants
    Cdata(u16),
    Str(String),
    Num(u16),
    Lit(u8),
    Short(i16),
    Uv(u16),
    Bool(bool),
    Nil,
    // comparison expressions
    Lt(Box<Expr>, Box<Expr>),
    Ge(Box<Expr>, Box<Expr>),
    Le(Box<Expr>, Box<Expr>),
    Gt(Box<Expr>, Box<Expr>),
    Eq(Box<Expr>, Box<Expr>),
    Ne(Box<Expr>, Box<Expr>),
    // unary expressions
    Not(Box<Expr>),
    Len(Box<Expr>),
    Minus(Box<Expr>),
    // binary expressions
    Add(Box<Expr>, Box<Expr>),
    Sub(Box<Expr>, Box<Expr>),
    Mul(Box<Expr>, Box<Expr>),
    Div(Box<Expr>, Box<Expr>),
    Mod(Box<Expr>, Box<Expr>),
    Pow(Box<Expr>, Box<Expr>),
    Closure(u16),
    GlobalTable,
    /// A field of a table: the table, then the key.
    Table(Box<Expr>, Box<Expr>),
}

/// What an expression is: the same tree, with every string as its
/// characters.
pub ghost enum ExprView {
    Var(u16),
    Cdata(u16),
    Str(Seq<char>),
    Num(u16),
    Lit(u8),
    Short(i16),
    Uv(u16),
    Bool(bool),
    Nil,
    Lt(Box<ExprView>, Box<ExprView>),
    Ge(Box<ExprView>, Box<ExprView>),
    Le(Box<ExprView>, Box<ExprView>),
    Gt(Box<ExprView>, Box<ExprView>),
    Eq(Box<ExprView>, Box<ExprView>),
    Ne(Box<ExprView>, Box<ExprView>),
    Not(Box<ExprView>),
    Len(Box<ExprView>),
    Minus(Box<ExprView>),
    Add(Box<ExprView>, Box<ExprView>),
    Sub(Box<ExprView>, Box<ExprView>),
    Mul(Box<ExprView>, Box<ExprView>),
    Div(Box<ExprView>, Box<ExprView>),
    Mod(Box<ExprView>, Box<ExprView>),
    Pow(Box<ExprView>, Box<ExprView>),
    Closure(u16),
    GlobalTable,
    Table(Box<ExprView>, Box<ExprView>),
}

impl View for Expr {
    type V = ExprView;

    open spec fn view(&self) -> ExprView
        decreases self,
    {
        match self {
            Expr::Var(v) => ExprView::Var(v.0),
            Expr::Cdata(v) => ExprView::Cdata(*v),
            Expr::Str(s) => ExprView::Str(s@),
            Expr::Num(v) => ExprView::Num(*v),
            Expr::Lit(v) => ExprView::Lit(*v),
            Expr::Short(v) => ExprView::Short(*v),
            Expr::Uv(v) => ExprView::Uv(*v),
            Expr::Bool(v) => ExprView::Bool(*v),
            Expr::Nil => ExprView::Nil,
            Expr::Closure(v) => ExprView::Closure(*v),
            Expr::GlobalTable => ExprView::GlobalTable,
            Expr::Lt(a, b) => ExprView::Lt(Box::new((**a).view()), Box::new((**b).view())),
            Expr::Ge(a, b) => ExprView::Ge(Box::new((**a).view()), Box::new((**b).view())),
            Expr::Le(a, b) => ExprView::Le(Box::new((**a).view()), Box::new((**b).view())),
            Expr::Gt(a, b) => ExprView::Gt(Box::new((**a).view()), Box::new((**b).view())),
            Expr::Eq(a, b) => ExprView::Eq(Box::new((**a).view()), Box::new((**b).view())),
            Expr::Ne(a, b) => ExprView::Ne(Box::new((**a).view()), Box::new((**b).view())),
            Expr::Add(a, b) => ExprView::Add(Box::new((**a).view()), Box::new((**b).view())),
            Expr::Sub(a, b) => ExprView::Sub(Box::new((**a).view()), Box::new((**b).view())),
            Expr::Mul(a, b) => ExprView::Mul(Box::new((**a).view()), Box::new((**b).view())),
            Expr::Div(a, b) => ExprView::Div(Box::new((**a).view()), Box::new((**b).view())),
            Expr::Mod(a, b) => ExprView::Mod(Box::new((**a).view()), Box::new((**b).view())),
            Expr::Pow(a, b) => ExprView::Pow(Box::new((**a).view()), Box::new((**b).view())),
            Expr::Table(a, b) => ExprView::Table(Box::new((**a).view()), Box::new((**b).view())),
            Expr::Not(a) => ExprView::Not(Box::new((**a).view())),
            Expr::Len(a) => ExprView::Len(Box::new((**a).view())),
            Expr::Minus(a) => ExprView::Minus(Box::new((**a).view())),
        }
    }
}

/// The primitive as an expression.
pub open spec fn primitive_view(val: Pri) -> ExprView {
    match val {
        Pri::Nil => ExprView::Nil,
        Pri::True => ExprView::Bool(true),
        Pri::False => ExprView::Bool(false),
    }
}

impl Expr {
    pub fn var(val: u16) -> (r: Box<Expr>)
        ensures
            (*r)@ == ExprView::Var(val),
    {
        Box::new(Expr::Var(Var(val)))
    }

    pub fn closure(val: u16) -> (r: Box<Expr>)
        ensures
            (*r)@ == ExprView::Closure(val),
    {
        Box::new(Expr::Closure(val))
    }

    pub fn num(val: u16) -> (r: Box<Expr>)
        ensures
            (*r)@ == ExprView::Num(val),
    {
        Box::new(Expr::Num(val))
    }

    pub fn uv(val: u16) -> (r: Box<Expr>)
        ensures
            (*r)@ == ExprView::Uv(val),
    {
        Box::new(Expr::Uv(val))
    }

    pub fn str(val: String) -> (r: Box<Expr>)
        ensures
            (*r)@ == ExprView::Str(val@),
    {
        Box::new(Expr::Str(val))
    }

    pub fn cdata(val: u16) -> (r: Box<Expr>)
        ensures
            (*r)@ == ExprView::Cdata(val),
    {
        Box::new(Expr::Cdata(val))
    }

    pub fn short(val: i16) -> (r: Box<Expr>)
        ensures
            (*r)@ == ExprView::Short(val),
    {
        Box::new(Expr::Short(val))
    }

    pub fn nil() -> (r: Box<Expr>)
        ensures
            (*r)@ == ExprView::Nil,
    {
        Box::new(Expr::Nil)
    }

    pub fn lit(val: u8) -> (r: Box<Expr>)
        ensures
            (*r)@ == ExprView::Lit(val),
    {
        Box::new(Expr::Lit(val))
    }

    pub fn primitive(val: Pri) -> (r: Box<Expr>)
        ensures
            (*r)@ == primitive_view(val),
    {
        match val {
            Pri::Nil => Box::new(Expr::Nil),
            Pri::True => Box::new(Expr::Bool(true)),
            Pri::False => Box::new(Expr::Bool(false)),
        }
    }

    /// `a + b`
    pub fn add(a: Box<Expr>, b: Box<Expr>) -> (r: Box<Expr>)
        ensures
            (*r)@ == ExprView::Add(Box::new((*a)@), Box::new((*b)@)),
    {
        Box::new(Expr::Add(a, b))
    }

    /// `a - b`
    pub fn sub(a: Box<Expr>, b: Box<Expr>) -> (r: Box<Expr>)
        ensures
            (*r)@ == ExprView::Sub(Box::new((*a)@), Box::new((*b)@)),
    {
        Box::new(Expr::Sub(a, b))
    }

    /// `a % b`
    pub fn mod_(a: Box<Expr>, b: Box<Expr>) -> (r: Box<Expr>)
        ensures
            (*r)@ == ExprView::Mod(Box::new((*a)@), Box::new((*b)@)),
    {
        Box::new(Expr::Mod(a, b))
    }

    /// `a * b`
    pub fn mul(a: Box<Expr>, b: Box<Expr>) -> (r: Box<Expr>)
        ensures
            (*r)@ == ExprView::Mul(Box::new((*a)@), Box::new((*b)@)),
    {
        Box::new(Expr::Mul(a, b))
    }

    /// `a / b`
    pub fn div(a: Box<Expr>, b: Box<Expr>) -> (r: Box<Expr>)
        ensures
            (*r)@ == ExprView::Div(Box::new((*a)@), Box::new((*b)@)),
    {
        Box::new(Expr::Div(a, b))
    }

    /// `a` to the power `b`
    pub fn pow(a: Box<Expr>, b: Box<Expr>) -> (r: Box<Expr>)
        ensures
            (*r)@ == ExprView::Pow(Box::new((*a)@), Box::new((*b)@)),
    {
        Box::new(Expr::Pow(a, b))
    }

    /// The field `b` of the table `a`.
    pub fn table(a: Box<Expr>, b: Box<Expr>) -> (r: Box<Expr>)
        ensures
            (*r)@ == ExprView::Table(Box::new((*a)@), Box::new((*b)@)),
    {
        Box::new(Expr::Table(a, b))
    }

    /// `a < b`
    pub fn lt(a: Box<Expr>, b: Box<Expr>) -> (r: Box<Expr>)
        ensures
            (*r)@ == ExprView::Lt(Box::new((*a)@), Box::new((*b)@)),
    {
        Box::new(Expr::Lt(a, b))
    }

    /// `a > b`
    pub fn gt(a: Box<Expr>, b: Box<Expr>) -> (r: Box<Expr>)
        ensures
            (*r)@ == ExprView::Gt(Box::new((*a)@), Box::new((*b)@)),
    {
        Box::new(Expr::Gt(a, b))
    }

    /// `a <= b`
    pub fn le(a: Box<Expr>, b: Box<Expr>) -> (r: Box<Expr>)
        ensures
            (*r)@ == ExprView::Le(Box::new((*a)@), Box::new((*b)@)),
    {
        Box::new(Expr::Le(a, b))
    }

    /// `a >= b`
    pub fn ge(a: Box<Expr>, b: Box<Expr>) -> (r: Box<Expr>)
        ensures
            (*r)@ == ExprView::Ge(Box::new((*a)@), Box::new((*b)@)),
    {
        Box::new(Expr::Ge(a, b))
    }

    /// `a == b`
    pub fn eq(a: Box<Expr>, b: Box<Expr>) -> (r: Box<Expr>)
        ensures
            (*r)@ == ExprView::Eq(Box::new((*a)@), Box::new((*b)@)),
    {
        Box::new(Expr::Eq(a, b))
    }

    /// `a != b`
    pub fn ne(a: Box<Expr>, b: Box<Expr>) -> (r: Box<Expr>)
        ensures
            (*r)@ == ExprView::Ne(Box::new((*a)@), Box::new((*b)@)),
    {
        Box::new(Expr::Ne(a, b))
    }

    pub fn not(a: Box<Expr>) -> (r: Box<Expr>)
        ensures
            (*r)@ == ExprView::Not(Box::new((*a)@)),
    {
        Box::new(Expr::Not(a))
    }

    pub fn minus(a: Box<Expr>) -> (r: Box<Expr>)
        ensures
            (*r)@ == ExprView::Minus(Box::new((*a)@)),
    {
        Box::new(Expr::Minus(a))
    }

    pub fn len(a: Box<Expr>) -> (r: Box<Expr>)
        ensures
            (*r)@ == ExprView::Len(Box::new((*a)@)),
    {
        Box::new(Expr::Len(a))
    }
}

/// The views of a list of expressions.
pub open spec fn views_of_exprs(exprs: Seq<Expr>) -> Seq<ExprView> {
    exprs.map_values(|e: Expr| e@)
}

/// A statement.
#[derive(Debug, PartialEq, Eq)]
pub enum Insn {
    /// Gives every listed variable the value of the expression.
    SetVars(Vec<Var>, Box<Expr>),
    /// Sets a field of the table of globals: the key, then the value.
    SetGlobalTableVar([Box<Expr>; 2]),
    /// Sets a field of the table in a variable: the key, then the value.
    SetTableVar(Var, [Box<Expr>; 2]),
    /// A call: the variables that take the results, then the function
    /// followed by its arguments.
    Call(Vec<Var>, Vec<Expr>),
    /// A call in tail position: the function followed by its arguments.
    TailCall(Vec<Expr>),
    /// Joins the values of the expressions into the variable.
    Cat(Var, Vec<Expr>),
    If(Box<Expr>),
    /// The head of a counting loop: start, stop and step.
    For(Vec<Expr>),
    While(Box<Expr>),
    Repeat(Box<Expr>),
    Return(Vec<Expr>),
    /// Stands in for an instruction that is not lifted yet.
    Unimplemented,
}

/// What a statement is.
pub ghost enum InsnView {
    SetVars(Seq<Var>, ExprView),
    SetGlobalTableVar(ExprView, ExprView),
    SetTableVar(Var, ExprView, ExprView),
    Call(Seq<Var>, Seq<ExprView>),
    TailCall(Seq<ExprView>),
    Cat(Var, Seq<ExprView>),
    If(ExprView),
    For(Seq<ExprView>),
    While(ExprView),
    Repeat(ExprView),
    Return(Seq<ExprView>),
    Unimplemented,
}

impl View for Insn {
    type V = InsnView;

    open spec fn view(&self) -> InsnView {
        match self {
            Insn::SetVars(vars, e) => InsnView::SetVars(vars@, (**e)@),
            Insn::SetGlobalTableVar(args) => InsnView::SetGlobalTableVar((*args@[0])@, (*args@[1])@),
            Insn::SetTableVar(var, args) => InsnView::SetTableVar(*var, (*args@[0])@, (*args@[1])@),
            Insn::Call(rets, args) => InsnView::Call(rets@, views_of_exprs(args@)),
            Insn::TailCall(args) => InsnView::TailCall(views_of_exprs(args@)),
            Insn::Cat(var, exprs) => InsnView::Cat(*var, views_of_exprs(exprs@)),
            Insn::If(e) => InsnView::If((**e)@),
            Insn::For(args) => InsnView::For(views_of_exprs(args@)),
            Insn::While(e) => InsnView::While((**e)@),
            Insn::Repeat(e) => InsnView::Repeat((**e)@),
            Insn::Return(exprs) => InsnView::Return(views_of_exprs(exprs@)),
            Insn::Unimplemented => InsnView::Unimplemented,
        }
    }
}

impl Insn {
    pub fn set_var(var: Var, exp: Box<Expr>) -> (r: Insn)
        ensures
            r@ == InsnView::SetVars(seq![var], (*exp)@),
    {
        let mut vars: Vec<Var> = Vec::new();
        vars.push(var);
        proof {
            assert(vars@ =~= seq![var]);
        }
        Insn::SetVars(vars, exp)
    }

    pub fn set_global_table_var(idx: Box<Expr>, exp: Box<Expr>) -> (r: Insn)
        ensures
            r@ == InsnView::SetGlobalTableVar((*idx)@, (*exp)@),
    {
        Insn::SetGlobalTableVar([idx, exp])
    }

    pub fn set_table_var(var: Var, idx: Box<Expr>, exp: Box<Expr>) -> (r: Insn)
        ensures
            r@ == InsnView::SetTableVar(var, (*idx)@, (*exp)@),
    {
        Insn::SetTableVar(var, [idx, exp])
    }
}

/// The views of a list of statements.
pub open spec fn views_of_insns(insns: Seq<Insn>) -> Seq<InsnView> {
    insns.map_values(|i: Insn| i@)
}

/// A block of statements.
#[derive(Debug)]
pub struct Block {
    data: Vec<Insn>,
}

impl View for Block {
    type V = Seq<InsnView>;

    closed spec fn view(&self) -> Seq<InsnView> {
        views_of_insns(self.data@)
    }
}

impl Default for Block {
    fn default() -> (b: Self)
        ensures
            b@ == Seq::<InsnView>::empty(),
    {
        let b = Block { data: Vec::new() };
        proof {
            assert(b@ =~= Seq::<InsnView>::empty());
        }
        b
    }
}

impl Block {
    pub fn push_insn(&mut self, ins: Insn)
        ensures
            final(self)@ == old(self)@.push(ins@),
    {
        self.data.push(ins);
        proof {
            assert(self@ =~= old(self)@.push(ins@));
        }
    }

    /// The statements in order.
    pub fn iter_insn(&self) -> (r: &Vec<Insn>)
        ensures
            views_of_insns(r@) == self@,
    {
        &self.data
    }

    /// Makes a block of the statements.
    pub fn from_insns(data: Vec<Insn>) -> (b: Self)
        ensures
            b@ == views_of_insns(data@),
    {
        Block { data }
    }
}

/// The character of a decimal digit.
pub open spec fn digit(d: int) -> char {
    if d == 0 {
        '0'
    } else if d == 1 {
        '1'
    } else if d == 2 {
        '2'
    } else if d == 3 {
        '3'
    } else if d == 4 {
        '4'
    } else if d == 5 {
        '5'
    } else if d == 6 {
        '6'
    } else if d == 7 {
        '7'
    } else if d == 8 {
        '8'
    } else {
        '9'
    }
}

/// A number in decimal digits, without leading zeros.
pub open spec fn decimal(n: nat) -> Seq<char>
    decreases n,
{
    if n < 10 {
        seq![digit(n as int)]
    } else {
        decimal(n / 10).push(digit((n % 10) as int))
    }
}

/// A number in decimal digits, with a minus sign if it is negative.
pub open spec fn signed_decimal(n: int) -> Seq<char> {
    if n < 0 {
        seq!['-'] + decimal((-n) as nat)
    } else {
        decimal(n as nat)
    }
}

fn digit_text(d: u64) -> (r: &'static str)
    requires
        d < 10,
    ensures
        r@ == seq![digit(d as int)],
{
    proof {
        reveal_strlit("0");
        reveal_strlit("1");
        reveal_strlit("2");
        reveal_strlit("3");
        reveal_strlit("4");
        reveal_strlit("5");
        reveal_strlit("6");
        reveal_strlit("7");
        reveal_strlit("8");
        reveal_strlit("9");
    }
    let r = if d == 0 {
        "0"
    } else if d == 1 {
        "1"
    } else if d == 2 {
        "2"
    } else if d == 3 {
        "3"
    } else if d == 4 {
        "4"
    } else if d == 5 {
        "5"
    } else if d == 6 {
        "6"
    } else if d == 7 {
        "7"
    } else if d == 8 {
        "8"
    } else {
        "9"
    };
    assert(r@ =~= seq![digit(d as int)]);
    r
}

/// Writes a number in decimal digits.
pub fn decimal_text(n: u64) -> (r: String)
    ensures
        r@ == decimal(n as nat),
    decreases n,
{
    if n < 10 {
        String::from_str(digit_text(n))
    } else {
        let mut text = decimal_text(n / 10);
        text.append(digit_text(n % 10));
        proof {
            assert(text@ =~= decimal((n / 10) as nat).push(digit((n % 10) as int)));
        }
        text
    }
}

/// Writes a number in decimal digits, with a minus sign if it is negative.
pub fn signed_decimal_text(n: i32) -> (r: String)
    ensures
        r@ == signed_decimal(n as int),
{
    if n < 0 {
        proof {
            reveal_strlit("-");
        }
        let mut text = String::from_str("-");
        let digits = decimal_text((-(n as i64)) as u64);
        text.append(digits.as_str());
        proof {
            assert("-"@ =~= seq!['-']);
        }
        text
    } else {
        decimal_text(n as u64)
    }
}

/// What is known of the variable in a slot.
#[derive(Debug)]
pub struct VarInfo {
    name: String,
    table: bool,
    up_value: bool,
    usage_cnt: u16,
}

/// What is known of a variable.
pub ghost struct VarInfoView {
    pub name: Seq<char>,
    pub table: bool,
    pub up_value: bool,
    pub usage_cnt: u16,
}

/// The name of the variable in a slot.
pub open spec fn slot_name(index: u16) -> Seq<char> {
    "slot_"@ + decimal(index as nat)
}

impl View for VarInfo {
    type V = VarInfoView;

    closed spec fn view(&self) -> VarInfoView {
        VarInfoView {
            name: self.name@,
            table: self.table,
            up_value: self.up_value,
            usage_cnt: self.usage_cnt,
        }
    }
}

impl VarInfo {
    pub fn new(index: u16, table: bool, up_value: bool) -> (v: Self)
        ensures
            v@ == (VarInfoView { name: slot_name(index), table, up_value, usage_cnt: 0 }),
    {
        let mut name = String::from_str("slot_");
        let digits = decimal_text(index as u64);
        name.append(digits.as_str());
        Self { name, table, up_value, usage_cnt: 0 }
    }

    /// Counts one more use of the variable. The count stops at the largest
    /// number it can hold.
    pub fn increment_usage_counter(&mut self) -> (r: u16)
        ensures
            r == if old(self)@.usage_cnt < u16::MAX {
                (old(self)@.usage_cnt + 1) as u16
            } else {
                u16::MAX
            },
            final(self)@ == (VarInfoView { usage_cnt: r, ..old(self)@ }),
    {
        if self.usage_cnt < u16::MAX {
            self.usage_cnt += 1;
        }
        self.usage_cnt
    }

    pub fn name(&self) -> (r: &String)
        ensures
            r@ == self@.name,
    {
        &self.name
    }

    pub fn is_table(&self) -> (r: bool)
        ensures
            r == self@.table,
    {
        self.table
    }

    pub fn is_upvalue(&self) -> (r: bool)
        ensures
            r == self@.up_value,
    {
        self.up_value
    }

    pub fn usage_count(&self) -> (r: u16)
        ensures
            r == self@.usage_cnt,
    {
        self.usage_cnt
    }
}

/// The text that `str::escape_debug` makes of a string: the string with
/// quotes, backslashes, control characters and the like written as escapes.
pub uninterp spec fn escape_debug_text(s: Seq<char>) -> Seq<char>;

/// `str::escape_debug`, written out through `format!`: the characters of
/// the string, each escaped as the debug form of strings escapes it. The
/// result depends on the string alone.
#[verifier::external_body]
fn escaped(s: &str) -> (r: String)
    ensures
        r@ == escape_debug_text(s@),
{
    format!("{}", s.escape_debug())
}

/// The texts, with the separator between each two of them.
pub open spec fn joined(items: Seq<Seq<char>>, separator: Seq<char>) -> Seq<char>
    decreases items.len(),
{
    if items.len() == 0 {
        Seq::empty()
    } else if items.len() == 1 {
        items[0]
    } else {
        joined(items.drop_last(), separator) + separator + items.last()
    }
}

/// How a variable is written.
pub open spec fn var_text(var: Var) -> Seq<char> {
    "v"@ + decimal(var.0 as nat)
}

/// How an expression is written.
pub open spec fn expr_text(e: ExprView) -> Seq<char>
    decreases e,
{
    match e {
        ExprView::Var(a) => "v"@ + decimal(a as nat),
        ExprView::Str(a) => "\""@ + escape_debug_text(a) + "\""@,
        ExprView::Num(a) => "Num("@ + decimal(a as nat) + ")"@,
        ExprView::Lit(a) => "Lit("@ + decimal(a as nat) + ")"@,
        ExprView::Short(a) => "Short("@ + signed_decimal(a as int) + ")"@,
        ExprView::Uv(a) => "UV("@ + decimal(a as nat) + ")"@,
        ExprView::Bool(a) => "Bool("@ + (if a {
            "true"@
        } else {
            "false"@
        }) + ")"@,
        ExprView::Cdata(a) => "CData("@ + decimal(a as nat) + ")"@,
        ExprView::Nil => "Nil"@,
        ExprView::Lt(a, b) => expr_text(*a) + " < "@ + expr_text(*b),
        ExprView::Ge(a, b) => expr_text(*a) + " ≥ "@ + expr_text(*b),
        ExprView::Le(a, b) => expr_text(*a) + " ≤ "@ + expr_text(*b),
        ExprView::Gt(a, b) => expr_text(*a) + " > "@ + expr_text(*b),
        ExprView::Eq(a, b) => expr_text(*a) + " == "@ + expr_text(*b),
        ExprView::Ne(a, b) => expr_text(*a) + " != "@ + expr_text(*b),
        ExprView::Add(a, b) => expr_text(*a) + " + "@ + expr_text(*b),
        ExprView::Sub(a, b) => expr_text(*a) + " - "@ + expr_text(*b),
        ExprView::Mul(a, b) => expr_text(*a) + " * "@ + expr_text(*b),
        ExprView::Div(a, b) => expr_text(*a) + " / "@ + expr_text(*b),
        ExprView::Mod(a, b) => expr_text(*a) + " % "@ + expr_text(*b),
        ExprView::Pow(a, b) => expr_text(*a) + "^"@ + expr_text(*b),
        ExprView::Not(a) => "!"@ + expr_text(*a),
        ExprView::Len(a) => "len("@ + expr_text(*a) + ")"@,
        ExprView::Minus(a) => "-"@ + expr_text(*a),
        ExprView::GlobalTable => "_G"@,
        ExprView::Table(a, b) => expr_text(*a) + "["@ + expr_text(*b) + "]"@,
        ExprView::Closure(a) => "closure(proto("@ + decimal(a as nat) + "))"@,
    }
}

/// The texts of the expressions.
pub open spec fn expr_texts(exprs: Seq<ExprView>) -> Seq<Seq<char>> {
    exprs.map_values(|e: ExprView| expr_text(e))
}

/// The texts of the variables.
pub open spec fn var_texts(vars: Seq<Var>) -> Seq<Seq<char>> {
    vars.map_values(|v: Var| var_text(v))
}

/// How a statement is written.
pub open spec fn insn_text(i: InsnView) -> Seq<char> {
    match i {
        InsnView::SetVars(vars, e) => joined(var_texts(vars), ", "@) + " = "@ + expr_text(e),
        InsnView::SetGlobalTableVar(key, value) => "_G["@ + expr_text(key) + "] = "@ + expr_text(
            value,
        ),
        InsnView::SetTableVar(table, key, value) => var_text(table) + "["@ + expr_text(key)
            + "] = "@ + expr_text(value),
        InsnView::Call(rets, args) => (if rets.len() > 0 {
            joined(var_texts(rets), ", "@) + " = "@
        } else {
            Seq::empty()
        }) + expr_text(args[0]) + "("@ + joined(expr_texts(args.skip(1)), ", "@) + ")"@,
        InsnView::Cat(var, exprs) => var_text(var) + " = "@ + joined(expr_texts(exprs), " ~ "@),
        InsnView::If(e) => "if "@ + expr_text(e),
        InsnView::For(args) => "for "@ + expr_text(args[0]) + ", "@ + expr_text(args[1]) + ", "@
            + expr_text(args[2]),
        InsnView::While(e) => "while "@ + expr_text(e),
        InsnView::Repeat(_) => Seq::empty(),
        InsnView::Return(exprs) => "return"@ + (if exprs.len() > 0 {
            " "@ + joined(expr_texts(exprs), ", "@)
        } else {
            Seq::empty()
        }),
        InsnView::TailCall(args) => "return "@ + expr_text(args[0]) + "("@ + joined(
            expr_texts(args.skip(1)),
            ", "@,
        ) + ")"@,
        InsnView::Unimplemented => "unimplemented"@,
    }
}

impl InsnView {
    /// The statement has the parts that its written form names: a variable
    /// to set, a function to call, something to join, the three parts of a
    /// loop head.
    pub open spec fn complete(self) -> bool {
        match self {
            InsnView::SetVars(vars, _) => vars.len() >= 1,
            InsnView::Call(_, args) => args.len() >= 1,
            InsnView::TailCall(args) => args.len() >= 1,
            InsnView::Cat(_, exprs) => exprs.len() >= 1,
            InsnView::For(args) => args.len() >= 3,
            _ => true,
        }
    }
}

impl Var {
    /// Writes the variable.
    pub fn to_string(&self) -> (r: String)
        ensures
            r@ == var_text(*self),
    {
        let mut text = String::from_str("v");
        text.append(decimal_text(self.0 as u64).as_str());
        text
    }
}

/// Writes a number between an opening text and a closing text.
fn wrapped(open: &str, n: u64, close: &str) -> (r: String)
    ensures
        r@ == open@ + decimal(n as nat) + close@,
{
    let mut text = String::from_str(open);
    text.append(decimal_text(n).as_str());
    text.append(close);
    text
}

impl Expr {
    /// Writes the expression.
    pub fn to_string(&self) -> (r: String)
        ensures
            r@ == expr_text(self@),
        decreases self,
    {
        match self {
            Expr::Var(a) => a.to_string(),
            Expr::Str(a) => {
                let mut text = String::from_str("\"");
                text.append(escaped(a.as_str()).as_str());
                text.append("\"");
                text
            },
            Expr::Num(a) => wrapped("Num(", *a as u64, ")"),
            Expr::Lit(a) => wrapped("Lit(", *a as u64, ")"),
            Expr::Short(a) => {
                let mut text = String::from_str("Short(");
                text.append(signed_decimal_text(*a as i32).as_str());
                text.append(")");
                text
            },
            Expr::Uv(a) => wrapped("UV(", *a as u64, ")"),
            Expr::Bool(a) => {
                let mut text = String::from_str("Bool(");
                text.append(
                    if *a {
                        "true"
                    } else {
                        "false"
                    },
                );
                text.append(")");
                text
            },
            Expr::Cdata(a) => wrapped("CData(", *a as u64, ")"),
            Expr::Nil => String::from_str("Nil"),
            Expr::Lt(a, b) => {
                let mut text = a.to_string();
                text.append(" < ");
                text.append(b.to_string().as_str());
                text
            },
            Expr::Ge(a, b) => {
                let mut text = a.to_string();
                text.append(" ≥ ");
                text.append(b.to_string().as_str());
                text
            },
            Expr::Le(a, b) => {
                let mut text = a.to_string();
                text.append(" ≤ ");
                text.append(b.to_string().as_str());
                text
            },
            Expr::Gt(a, b) => {
                let mut text = a.to_string();
                text.append(" > ");
                text.append(b.to_string().as_str());
                text
            },
            Expr::Eq(a, b) => {
                let mut text = a.to_string();
                text.append(" == ");
                text.append(b.to_string().as_str());
                text
            },
            Expr::Ne(a, b) => {
                let mut text = a.to_string();
                text.append(" != ");
                text.append(b.to_string().as_str());
                text
            },
            Expr::Add(a, b) => {
                let mut text = a.to_string();
                text.append(" + ");
                text.append(b.to_string().as_str());
                text
            },
            Expr::Sub(a, b) => {
                let mut text = a.to_string();
                text.append(" - ");
                text.append(b.to_string().as_str());
                text
            },
            Expr::Mul(a, b) => {
                let mut text = a.to_string();
                text.append(" * ");
                text.append(b.to_string().as_str());
                text
            },
            Expr::Div(a, b) => {
                let mut text = a.to_string();
                text.append(" / ");
                text.append(b.to_string().as_str());
                text
            },
            Expr::Mod(a, b) => {
                let mut text = a.to_string();
                text.append(" % ");
                text.append(b.to_string().as_str());
                text
            },
            Expr::Pow(a, b) => {
                let mut text = a.to_string();
                text.append("^");
                text.append(b.to_string().as_str());
                text
            },
            Expr::Not(a) => {
                let mut text = String::from_str("!");
                text.append(a.to_string().as_str());
                text
            },
            Expr::Len(a) => {
                let mut text = String::from_str("len(");
                text.append(a.to_string().as_str());
                text.append(")");
                text
            },
            Expr::Minus(a) => {
                let mut text = String::from_str("-");
                text.append(a.to_string().as_str());
                text
            },
            Expr::GlobalTable => String::from_str("_G"),
            Expr::Table(a, b) => {
                let mut text = a.to_string();
                text.append("[");
                text.append(b.to_string().as_str());
                text.append("]");
                text
            },
            Expr::Closure(a) => wrapped("closure(proto(", *a as u64, "))"),
        }
    }
}

/// Writes the variables with a separator between them.
fn join_vars(vars: &Vec<Var>, separator: &str) -> (r: String)
    ensures
        r@ == joined(var_texts(vars@), separator@),
{
    let mut text = String::new();
    let mut i: usize = 0;
    proof {
        assert(var_texts(vars@).take(0) =~= Seq::<Seq<char>>::empty());
    }
    while i < vars.len()
        invariant
            i <= vars@.len(),
            text@ == joined(var_texts(vars@).take(i as int), separator@),
        decreases vars@.len() - i,
    {
        let ghost done = var_texts(vars@).take(i as int);
        let ghost more = var_texts(vars@).take(i + 1);
        proof {
            assert(more.drop_last() =~= done);
            assert(more.last() == var_text(vars@[i as int]));
        }
        if i > 0 {
            text.append(separator);
        }
        text.append(vars[i].to_string().as_str());
        proof {
            if i == 0 {
                assert(done.len() == 0);
                assert(text@ =~= more[0]);
            }
        }
        i += 1;
    }
    proof {
        assert(var_texts(vars@).take(vars@.len() as int) =~= var_texts(vars@));
    }
    text
}

/// Writes the expressions from `from` on with a separator between them.
fn join_exprs(exprs: &Vec<Expr>, from: usize, separator: &str) -> (r: String)
    requires
        from <= exprs@.len(),
    ensures
        r@ == joined(expr_texts(views_of_exprs(exprs@).skip(from as int)), separator@),
{
    let ghost all = expr_texts(views_of_exprs(exprs@).skip(from as int));
    let mut text = String::new();
    let mut i: usize = from;
    proof {
        assert(all.take(0) =~= Seq::<Seq<char>>::empty());
    }
    while i < exprs.len()
        invariant
            from <= i <= exprs@.len(),
            all == expr_texts(views_of_exprs(exprs@).skip(from as int)),
            text@ == joined(all.take(i - from), separator@),
        decreases exprs@.len() - i,
    {
        let ghost done = all.take(i - from);
        let ghost more = all.take(i - from + 1);
        proof {
            assert(more.drop_last() =~= done);
            assert(more.last() == expr_text(exprs@[i as int]@));
        }
        if i > from {
            text.append(separator);
        }
        text.append(exprs[i].to_string().as_str());
        proof {
            if i == from {
                assert(done.len() == 0);
                assert(text@ =~= more[0]);
            }
        }
        i += 1;
    }
    proof {
        assert(all.take(all.len() as int) =~= all);
    }
    text
}

impl Insn {
    /// Tells whether the statement has the parts that its written form
    /// names.
    pub fn is_complete(&self) -> (r: bool)
        ensures
            r == self@.complete(),
    {
        match self {
            Insn::SetVars(vars, _) => vars.len() >= 1,
            Insn::Call(_, args) => args.len() >= 1,
            Insn::TailCall(args) => args.len() >= 1,
            Insn::Cat(_, exprs) => exprs.len() >= 1,
            Insn::For(args) => args.len() >= 3,
            _ => true,
        }
    }

    /// Writes the statement.
    pub fn to_string(&self) -> (r: String)
        requires
            self@.complete(),
        ensures
            r@ == insn_text(self@),
    {
        match self {
            Insn::SetVars(vars, expr) => {
                let mut text = join_vars(vars, ", ");
                text.append(" = ");
                text.append(expr.to_string().as_str());
                text
            },
            Insn::SetGlobalTableVar(args) => {
                let mut text = String::from_str("_G[");
                text.append(args[0].to_string().as_str());
                text.append("] = ");
                text.append(args[1].to_string().as_str());
                text
            },
            Insn::SetTableVar(table, args) => {
                let mut text = table.to_string();
                text.append("[");
                text.append(args[0].to_string().as_str());
                text.append("] = ");
                text.append(args[1].to_string().as_str());
                text
            },
            Insn::Call(rets, args) => {
                let mut text = String::new();
                if rets.len() > 0 {
                    text.append(join_vars(rets, ", ").as_str());
                    text.append(" = ");
                }
                text.append(args[0].to_string().as_str());
                text.append("(");
                text.append(join_exprs(args, 1, ", ").as_str());
                text.append(")");
                text
            },
            Insn::Cat(var, exprs) => {
                let mut text = var.to_string();
                text.append(" = ");
                proof {
                    assert(views_of_exprs(exprs@).skip(0) =~= views_of_exprs(exprs@));
                }
                text.append(join_exprs(exprs, 0, " ~ ").as_str());
                text
            },
            Insn::If(expr) => {
                let mut text = String::from_str("if ");
                text.append(expr.to_string().as_str());
                text
            },
            Insn::For(args) => {
                let mut text = String::from_str("for ");
                text.append(args[0].to_string().as_str());
                text.append(", ");
                text.append(args[1].to_string().as_str());
                text.append(", ");
                text.append(args[2].to_string().as_str());
                text
            },
            Insn::While(expr) => {
                let mut text = String::from_str("while ");
                text.append(expr.to_string().as_str());
                text
            },
            Insn::Repeat(_) => String::new(),
            Insn::Return(exprs) => {
                let mut text = String::from_str("return");
                if exprs.len() >= 1 {
                    text.append(" ");
                    proof {
                        assert(views_of_exprs(exprs@).skip(0) =~= views_of_exprs(exprs@));
                    }
                    text.append(join_exprs(exprs, 0, ", ").as_str());
                }
                text
            },
            Insn::TailCall(args) => {
                let mut text = String::from_str("return ");
                text.append(args[0].to_string().as_str());
                text.append("(");
                text.append(join_exprs(args, 1, ", ").as_str());
                text.append(")");
                text
            },
            Insn::Unimplemented => String::from_str("unimplemented"),
        }
    }
}

} // verus!
