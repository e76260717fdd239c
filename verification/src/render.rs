//! Hako text for the box/flow tree.
use vstd::prelude::*;
use crate::ast::{Box, FnMode, Flow, Item, Program, Stmt};

verus! {

/// The text of an optional string after `prefix`, or nothing.
pub open spec fn opt_text(prefix: Seq<char>, o: Option<String>) -> Seq<char> {
    match o {
        Some(v) => prefix + v@,
        None => Seq::empty(),
    }
}

/// The one more level of indentation than `pad`.
pub open spec fn deeper(pad: Seq<char>) -> Seq<char> {
    pad + "  "@
}

/// A statement, indented by `pad`, with its line feed.
pub open spec fn stmt_text(st: Stmt, pad: Seq<char>) -> Seq<char>
    decreases st,
{
    match st {
        Stmt::If { cond, then, else_branch } => pad + "if "@ + cond@ + " {\n"@ + stmts_text(
            then@,
            deeper(pad),
        ) + if else_branch@.len() == 0 {
            pad + "}\n"@
        } else {
            pad + "} else {\n"@ + stmts_text(else_branch@, deeper(pad)) + pad + "}\n"@
        },
        Stmt::Loop(body) => pad + "loop {\n"@ + stmts_text(body@, deeper(pad)) + pad + "}\n"@,
        Stmt::For { var, iter, body } => pad + "for "@ + var@ + " in "@ + iter@ + " {\n"@
            + stmts_text(body@, deeper(pad)) + pad + "}\n"@,
        Stmt::Break => pad + "break\n"@,
        Stmt::Assign { var, value } => pad + var@ + " = "@ + value@ + "\n"@,
        Stmt::Expr(e) => pad + e@ + "\n"@,
        Stmt::Block(body) => pad + " {\n"@ + stmts_text(body@, deeper(pad)) + pad + "}\n"@,
        Stmt::AsmOut { reg, var } => pad + "out("@ + reg@ + ", "@ + var@ + ")\n"@,
        Stmt::AsmIn { reg, var } => pad + "in("@ + reg@ + ", "@ + var@ + ")\n"@,
        Stmt::AsmLine(s) => pad + "\""@ + s@ + "\"\n"@,
    }
}

/// Statements one after the other, each indented by `pad`.
pub open spec fn stmts_text(v: Seq<Stmt>, pad: Seq<char>) -> Seq<char>
    decreases v,
{
    if v.len() == 0 {
        Seq::empty()
    } else {
        stmts_text(v.drop_last(), pad) + stmt_text(v.last(), pad)
    }
}

/// `NAME[: TYPE]` for each parameter, separated by `, `.
pub open spec fn params_text(ps: Seq<(String, String)>) -> Seq<char>
    decreases ps.len(),
{
    if ps.len() == 0 {
        Seq::empty()
    } else {
        let p = ps.last();
        params_text(ps.drop_last()) + (if ps.len() > 1 { ", "@ } else { Seq::empty() }) + p.0@
            + (if p.1@.len() > 0 { ": "@ + p.1@ } else { Seq::empty() })
    }
}

/// An item indented by `pad`, with its line feed.
pub open spec fn item_text(item: Item, pad: Seq<char>) -> Seq<char> {
    match item {
        Item::Var { name, value } => pad + name@ + opt_text(" = "@, value) + "\n"@,
        Item::Fn { name, params, mode, body } => pad + name@ + "("@ + params_text(params@) + ")"@
            + match mode {
            FnMode::Auto => " => default\n"@,
            FnMode::Block => " {\n"@ + stmts_text(body@, deeper(pad)) + pad + "}\n"@,
            FnMode::Raw => " raw {\n"@ + stmts_text(body@, deeper(pad)) + pad + "}\n"@,
        },
        Item::Expr(e) => pad + e@ + ";\n"@,
    }
}

/// Items one after the other, each indented by `pad`.
pub open spec fn items_text(v: Seq<Item>, pad: Seq<char>) -> Seq<char>
    decreases v.len(),
{
    if v.len() == 0 {
        Seq::empty()
    } else {
        items_text(v.drop_last(), pad) + item_text(v.last(), pad)
    }
}

/// `box NAME[::BASE] {`, the items indented once, and `}`.
pub open spec fn box_text(b: Box) -> Seq<char> {
    "box "@ + b.name@ + opt_text("::"@, b.extends) + " {\n"@ + items_text(b.items@, "  "@)
        + "}\n"@
}

/// One line `  STEP` per step.
pub open spec fn steps_text(v: Seq<String>) -> Seq<char>
    decreases v.len(),
{
    if v.len() == 0 {
        Seq::empty()
    } else {
        steps_text(v.drop_last()) + "  "@ + v.last()@ + "\n"@
    }
}

/// `flow NAME {`, the steps, and `}`.
pub open spec fn flow_text(f: Flow) -> Seq<char> {
    "flow "@ + f.name@ + " {\n"@ + steps_text(f.steps@) + "}\n"@
}

pub open spec fn boxes_text(v: Seq<Box>) -> Seq<char>
    decreases v.len(),
{
    if v.len() == 0 {
        Seq::empty()
    } else {
        boxes_text(v.drop_last()) + box_text(v.last())
    }
}

pub open spec fn flows_text(v: Seq<Flow>) -> Seq<char>
    decreases v.len(),
{
    if v.len() == 0 {
        Seq::empty()
    } else {
        flows_text(v.drop_last()) + flow_text(v.last())
    }
}

/// The whole program: every box, then every flow.
pub open spec fn program_text(p: Program) -> Seq<char> {
    boxes_text(p.boxes@) + flows_text(p.flows@)
}


/// `pad` and one more level of indentation.
fn deeper_pad(pad: &str) -> (r: String)
    ensures
        r@ == deeper(pad@),
{
    let mut r = String::from_str(pad);
    r.append("  ");
    r
}

fn write_stmts(out: &mut String, v: &Vec<Stmt>, pad: &str)
    ensures
        final(out)@ == old(out)@ + stmts_text(v@, pad@),
    decreases v,
{
    let ghost start = out@;
    let mut i: usize = 0;
    assert(v@.take(0) =~= Seq::<Stmt>::empty());
    while i < v.len()
        invariant
            0 <= i <= v.len(),
            out@ == start + stmts_text(v@.take(i as int), pad@),
        decreases v.len() - i,
    {
        assert(decreases_to!(v => v@));
        write_stmt(out, &v[i], pad);
        assert(v@.take(i + 1).drop_last() =~= v@.take(i as int));
        i = i + 1;
    }
    assert(v@.take(v.len() as int) =~= v@);
}

fn write_stmt(out: &mut String, stmt: &Stmt, pad: &str)
    ensures
        final(out)@ == old(out)@ + stmt_text(*stmt, pad@),
    decreases stmt,
{
    match stmt {
        Stmt::If { cond, then, else_branch } => {
            let inner = deeper_pad(pad);
            out.append(pad);
            out.append("if ");
            out.append(cond.as_str());
            out.append(" {\n");
            write_stmts(out, then, inner.as_str());
            if else_branch.len() == 0 {
                out.append(pad);
                out.append("}\n");
            } else {
                out.append(pad);
                out.append("} else {\n");
                write_stmts(out, else_branch, inner.as_str());
                out.append(pad);
                out.append("}\n");
            }
        },
        Stmt::Loop(body) => {
            let inner = deeper_pad(pad);
            out.append(pad);
            out.append("loop {\n");
            write_stmts(out, body, inner.as_str());
            out.append(pad);
            out.append("}\n");
        },
        Stmt::For { var, iter, body } => {
            let inner = deeper_pad(pad);
            out.append(pad);
            out.append("for ");
            out.append(var.as_str());
            out.append(" in ");
            out.append(iter.as_str());
            out.append(" {\n");
            write_stmts(out, body, inner.as_str());
            out.append(pad);
            out.append("}\n");
        },
        Stmt::Break => {
            out.append(pad);
            out.append("break\n");
        },
        Stmt::Assign { var, value } => {
            out.append(pad);
            out.append(var.as_str());
            out.append(" = ");
            out.append(value.as_str());
            out.append("\n");
        },
        Stmt::Expr(e) => {
            out.append(pad);
            out.append(e.as_str());
            out.append("\n");
        },
        Stmt::Block(body) => {
            let inner = deeper_pad(pad);
            out.append(pad);
            out.append(" {\n");
            write_stmts(out, body, inner.as_str());
            out.append(pad);
            out.append("}\n");
        },
        Stmt::AsmOut { reg, var } => {
            out.append(pad);
            out.append("out(");
            out.append(reg.as_str());
            out.append(", ");
            out.append(var.as_str());
            out.append(")\n");
        },
        Stmt::AsmIn { reg, var } => {
            out.append(pad);
            out.append("in(");
            out.append(reg.as_str());
            out.append(", ");
            out.append(var.as_str());
            out.append(")\n");
        },
        Stmt::AsmLine(s) => {
            out.append(pad);
            out.append("\"");
            out.append(s.as_str());
            out.append("\"\n");
        },
    }
}

fn write_params(out: &mut String, ps: &Vec<(String, String)>)
    ensures
        final(out)@ == old(out)@ + params_text(ps@),
{
    let ghost start = out@;
    let mut i: usize = 0;
    assert(ps@.take(0) =~= Seq::<(String, String)>::empty());
    while i < ps.len()
        invariant
            0 <= i <= ps.len(),
            out@ == start + params_text(ps@.take(i as int)),
        decreases ps.len() - i,
    {
        if i > 0 {
            out.append(", ");
        }
        let (p, pt) = &ps[i];
        out.append(p.as_str());
        if !pt.as_str().is_empty() {
            out.append(": ");
            out.append(pt.as_str());
        }
        assert(ps@.take(i + 1).drop_last() =~= ps@.take(i as int));
        i = i + 1;
    }
    assert(ps@.take(ps.len() as int) =~= ps@);
}

fn write_item(out: &mut String, item: &Item, pad: &str)
    ensures
        final(out)@ == old(out)@ + item_text(*item, pad@),
{
    match item {
        Item::Var { name, value } => {
            out.append(pad);
            out.append(name.as_str());
            match value {
                Some(v) => {
                    out.append(" = ");
                    out.append(v.as_str());
                },
                None => {},
            }
            out.append("\n");
        },
        Item::Fn { name, params, mode, body } => {
            out.append(pad);
            out.append(name.as_str());
            out.append("(");
            write_params(out, params);
            out.append(")");
            match mode {
                FnMode::Auto => {
                    out.append(" => default\n");
                },
                FnMode::Block => {
                    let inner = deeper_pad(pad);
                    out.append(" {\n");
                    write_stmts(out, body, inner.as_str());
                    out.append(pad);
                    out.append("}\n");
                },
                FnMode::Raw => {
                    let inner = deeper_pad(pad);
                    out.append(" raw {\n");
                    write_stmts(out, body, inner.as_str());
                    out.append(pad);
                    out.append("}\n");
                },
            }
        },
        Item::Expr(e) => {
            out.append(pad);
            out.append(e.as_str());
            out.append(";\n");
        },
    }
}

fn write_box(out: &mut String, b: &Box)
    ensures
        final(out)@ == old(out)@ + box_text(*b),
{
    let ghost start = out@;
    out.append("box ");
    out.append(b.name.as_str());
    match &b.extends {
        Some(e) => {
            out.append("::");
            out.append(e.as_str());
        },
        None => {},
    }
    out.append(" {\n");
    let ghost head = out@;
    let mut i: usize = 0;
    assert(b.items@.take(0) =~= Seq::<Item>::empty());
    while i < b.items.len()
        invariant
            0 <= i <= b.items.len(),
            out@ == head + items_text(b.items@.take(i as int), "  "@),
        decreases b.items.len() - i,
    {
        write_item(out, &b.items[i], "  ");
        assert(b.items@.take(i + 1).drop_last() =~= b.items@.take(i as int));
        i = i + 1;
    }
    assert(b.items@.take(b.items.len() as int) =~= b.items@);
    out.append("}\n");
}

fn write_flow(out: &mut String, f: &Flow)
    ensures
        final(out)@ == old(out)@ + flow_text(*f),
{
    out.append("flow ");
    out.append(f.name.as_str());
    out.append(" {\n");
    let ghost head = out@;
    let mut i: usize = 0;
    assert(f.steps@.take(0) =~= Seq::<String>::empty());
    while i < f.steps.len()
        invariant
            0 <= i <= f.steps.len(),
            out@ == head + steps_text(f.steps@.take(i as int)),
        decreases f.steps.len() - i,
    {
        out.append("  ");
        out.append(f.steps[i].as_str());
        out.append("\n");
        assert(f.steps@.take(i + 1).drop_last() =~= f.steps@.take(i as int));
        i = i + 1;
    }
    assert(f.steps@.take(f.steps.len() as int) =~= f.steps@);
    out.append("}\n");
}

impl Program {
    /// The program in Hako notation: each box with its items, then each
    /// flow with its steps.
    pub fn render(&self) -> (r: String)
        ensures
            r@ == program_text(*self),
    {
        let mut out = String::new();
        let mut i: usize = 0;
        assert(self.boxes@.take(0) =~= Seq::<Box>::empty());
        while i < self.boxes.len()
            invariant
                0 <= i <= self.boxes.len(),
                out@ == boxes_text(self.boxes@.take(i as int)),
            decreases self.boxes.len() - i,
        {
            write_box(&mut out, &self.boxes[i]);
            assert(self.boxes@.take(i + 1).drop_last() =~= self.boxes@.take(i as int));
            i = i + 1;
        }
        assert(self.boxes@.take(self.boxes.len() as int) =~= self.boxes@);
        let mut j: usize = 0;
        assert(self.flows@.take(0) =~= Seq::<Flow>::empty());
        while j < self.flows.len()
            invariant
                0 <= j <= self.flows.len(),
                out@ == boxes_text(self.boxes@) + flows_text(self.flows@.take(j as int)),
            decreases self.flows.len() - j,
        {
            write_flow(&mut out, &self.flows[j]);
            assert(self.flows@.take(j + 1).drop_last() =~= self.flows@.take(j as int));
            j = j + 1;
        }
        assert(self.flows@.take(self.flows.len() as int) =~= self.flows@);
        out
    }
}
} // verus!
