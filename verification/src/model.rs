//! Mathematical models of the parser's syntax tree: every string becomes
//! its sequence of characters and every vector its sequence of models.
use vstd::prelude::*;
use crate::ast::{Flow, HakoBox, HakoImpl, HakoInstDecl, HakoParam, HakoProgram, HakoStmt};

verus! {

pub struct ParamModel {
    pub name: Seq<char>,
    pub ty: Seq<char>,
}

pub struct InstModel {
    pub name: Seq<char>,
    pub params: Seq<ParamModel>,
    pub ret_type: Option<Seq<char>>,
}

pub struct BoxModel {
    pub name: Seq<char>,
    pub instructions: Seq<InstModel>,
}

pub enum StmtModel {
    Let { name: Seq<char>, ty: Option<Seq<char>>, is_mut: bool, value: Option<Seq<char>> },
    Caso { cond: Seq<char>, body: Seq<StmtModel> },
    CasoContrario(Seq<StmtModel>),
    Retorna(Option<Seq<char>>),
    Asm { template: Seq<char>, operands: Seq<Seq<char>>, clobbers: Seq<Seq<char>> },
    Loop(Seq<StmtModel>),
    For { var: Seq<char>, iter: Seq<char>, body: Seq<StmtModel> },
    Ref(Seq<char>),
    Block(Seq<StmtModel>),
    Empty,
    Expr(Seq<char>),
}

pub struct ImplModel {
    pub box_name: Seq<char>,
    pub inst_name: Seq<char>,
    pub params: Seq<ParamModel>,
    pub ret_type: Option<Seq<char>>,
    pub body: Seq<StmtModel>,
}

pub struct FlowModel {
    pub name: Seq<char>,
    pub steps: Seq<Seq<char>>,
}

pub struct ProgramModel {
    pub boxes: Seq<BoxModel>,
    pub impls: Seq<ImplModel>,
    pub flows: Seq<FlowModel>,
}

/// The characters of an optional string.
pub open spec fn opt_chars(o: Option<String>) -> Option<Seq<char>> {
    match o {
        Some(s) => Some(s@),
        None => None,
    }
}

/// The characters of each string of a vector, in order.
pub open spec fn strings_chars(v: Seq<String>) -> Seq<Seq<char>> {
    v.map_values(|x: String| x@)
}

pub open spec fn params_model(v: Seq<HakoParam>) -> Seq<ParamModel> {
    v.map_values(|p: HakoParam| p@)
}

/// The model of a statement.
pub open spec fn stmt_model(st: HakoStmt) -> StmtModel
    decreases st,
{
    match st {
        HakoStmt::Let { name, ty, is_mut, value } => StmtModel::Let {
            name: name@,
            ty: opt_chars(ty),
            is_mut,
            value: opt_chars(value),
        },
        HakoStmt::Caso { cond, body } => StmtModel::Caso { cond: cond@, body: stmts_model(body@) },
        HakoStmt::CasoContrario(body) => StmtModel::CasoContrario(stmts_model(body@)),
        HakoStmt::Retorna(v) => StmtModel::Retorna(opt_chars(v)),
        HakoStmt::Asm { template, operands, clobbers } => StmtModel::Asm {
            template: template@,
            operands: strings_chars(operands@),
            clobbers: strings_chars(clobbers@),
        },
        HakoStmt::Loop(body) => StmtModel::Loop(stmts_model(body@)),
        HakoStmt::For { var, iter, body } => StmtModel::For {
            var: var@,
            iter: iter@,
            body: stmts_model(body@),
        },
        HakoStmt::Ref(p) => StmtModel::Ref(p@),
        HakoStmt::Block(body) => StmtModel::Block(stmts_model(body@)),
        HakoStmt::Empty => StmtModel::Empty,
        HakoStmt::Expr(e) => StmtModel::Expr(e@),
    }
}

/// The models of a sequence of statements, in order.
pub open spec fn stmts_model(v: Seq<HakoStmt>) -> Seq<StmtModel>
    decreases v,
{
    if v.len() == 0 {
        Seq::empty()
    } else {
        stmts_model(v.drop_last()).push(stmt_model(v.last()))
    }
}

impl View for HakoParam {
    type V = ParamModel;

    open spec fn view(&self) -> ParamModel {
        ParamModel { name: self.name@, ty: self.ty@ }
    }
}

impl View for HakoInstDecl {
    type V = InstModel;

    open spec fn view(&self) -> InstModel {
        InstModel {
            name: self.name@,
            params: params_model(self.params@),
            ret_type: opt_chars(self.ret_type),
        }
    }
}

impl View for HakoBox {
    type V = BoxModel;

    open spec fn view(&self) -> BoxModel {
        BoxModel {
            name: self.name@,
            instructions: self.instructions@.map_values(|i: HakoInstDecl| i@),
        }
    }
}

impl View for HakoStmt {
    type V = StmtModel;

    open spec fn view(&self) -> StmtModel {
        stmt_model(*self)
    }
}

impl View for HakoImpl {
    type V = ImplModel;

    open spec fn view(&self) -> ImplModel {
        ImplModel {
            box_name: self.box_name@,
            inst_name: self.inst_name@,
            params: params_model(self.params@),
            ret_type: opt_chars(self.ret_type),
            body: stmts_model(self.body@),
        }
    }
}

impl View for Flow {
    type V = FlowModel;

    open spec fn view(&self) -> FlowModel {
        FlowModel { name: self.name@, steps: strings_chars(self.steps@) }
    }
}

impl View for HakoProgram {
    type V = ProgramModel;

    open spec fn view(&self) -> ProgramModel {
        ProgramModel {
            boxes: self.boxes@.map_values(|b: HakoBox| b@),
            impls: self.impls@.map_values(|i: HakoImpl| i@),
            flows: self.flows@.map_values(|f: Flow| f@),
        }
    }
}

} // verus!
