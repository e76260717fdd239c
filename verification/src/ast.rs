//! Syntax trees.
//!
//! Two families live here: the box/flow tree (`Program`, `Box`, `Item`,
//! `Stmt`, `Flow`) that is rendered back to Hako text, and the
//! declaration/implementation tree (`HakoProgram` and friends) that the
//! parser produces.
use vstd::prelude::*;

verus! {

/// A program of boxes followed by flows.
#[derive(Debug)]
pub struct Program {
    pub boxes: Vec<Box>,
    pub flows: Vec<Flow>,
}

/// A box: a named group of items, optionally extending another box.
#[derive(Debug)]
pub struct Box {
    pub name: String,
    pub extends: Option<String>,
    pub items: Vec<Item>,
}

/// An item inside a box.
#[derive(Debug)]
pub enum Item {
    Var { name: String, value: Option<String> },
    Fn { name: String, params: Vec<(String, String)>, mode: FnMode, body: Vec<Stmt> },
    Expr(String),
}

/// How a function body is given.
#[derive(Debug)]
pub enum FnMode {
    Auto,
    Block,
    Raw,
}

/// A statement of the box/flow tree.
#[derive(Debug)]
pub enum Stmt {
    If { cond: String, then: Vec<Stmt>, else_branch: Vec<Stmt> },
    Loop(Vec<Stmt>),
    For { var: String, iter: String, body: Vec<Stmt> },
    Break,
    Assign { var: String, value: String },
    Expr(String),
    Block(Vec<Stmt>),
    AsmOut { reg: String, var: String },
    AsmIn { reg: String, var: String },
    AsmLine(String),
}

/// An ordered list of boxes whose `run` functions are called in turn.
#[derive(Debug)]
pub struct Flow {
    pub name: String,
    pub steps: Vec<String>,
}

/// What the parser returns: the declared boxes, the implementations and
/// the flows.
#[derive(Debug)]
pub struct HakoProgram {
    pub boxes: Vec<HakoBox>,
    pub impls: Vec<HakoImpl>,
    pub flows: Vec<Flow>,
}

/// `box NAME { inst ... }`
#[derive(Debug)]
pub struct HakoBox {
    pub name: String,
    pub instructions: Vec<HakoInstDecl>,
}

/// `inst NAME(PARAMS) [-> TYPE]`
#[derive(Debug)]
pub struct HakoInstDecl {
    pub name: String,
    pub params: Vec<HakoParam>,
    pub ret_type: Option<String>,
}

/// `impl BOX::INST(PARAMS) [-> TYPE] { BODY }`
#[derive(Debug)]
pub struct HakoImpl {
    pub box_name: String,
    pub inst_name: String,
    pub params: Vec<HakoParam>,
    pub ret_type: Option<String>,
    pub body: Vec<HakoStmt>,
}

/// `NAME[: TYPE]`; the type is empty where none is written.
#[derive(Debug)]
pub struct HakoParam {
    pub name: String,
    pub ty: String,
}

/// A statement of an implementation body.
#[derive(Debug)]
pub enum HakoStmt {
    Let { name: String, ty: Option<String>, is_mut: bool, value: Option<String> },
    Caso { cond: String, body: Vec<HakoStmt> },
    CasoContrario(Vec<HakoStmt>),
    Retorna(Option<String>),
    Asm { template: String, operands: Vec<String>, clobbers: Vec<String> },
    Loop(Vec<HakoStmt>),
    For { var: String, iter: String, body: Vec<HakoStmt> },
    Ref(String),
    Block(Vec<HakoStmt>),
    Empty,
    Expr(String),
}

} // verus!
