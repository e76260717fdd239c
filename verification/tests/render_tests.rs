use hako::ast::{Box, FnMode, Flow, Item, Program, Stmt};

fn s(x: &str) -> String {
    x.to_string()
}

fn serial_box() -> Box {
    Box {
        name: s("serial"),
        extends: None,
        items: vec![
            Item::Var { name: s("COM1"), value: Some(s("0x3F8")) },
            Item::Var { name: s("X"), value: None },
            Item::Fn {
                name: s("write_byte"),
                params: vec![(s("b"), s("")), (s("c"), s("u8"))],
                mode: FnMode::Auto,
                body: vec![],
            },
            Item::Fn {
                name: s("run"),
                params: vec![],
                mode: FnMode::Block,
                body: vec![
                    Stmt::If { cond: s("x"), then: vec![Stmt::Break], else_branch: vec![] },
                    Stmt::If { cond: s("y"), then: vec![], else_branch: vec![Stmt::Expr(s("f()"))] },
                    Stmt::Loop(vec![Stmt::Assign { var: s("a"), value: s("1") }]),
                    Stmt::For { var: s("i"), iter: s("0..3"), body: vec![] },
                    Stmt::Block(vec![]),
                ],
            },
            Item::Fn {
                name: s("rd"),
                params: vec![],
                mode: FnMode::Raw,
                body: vec![
                    Stmt::AsmOut { reg: s("al"), var: s("r") },
                    Stmt::AsmIn { reg: s("dx"), var: s("p") },
                    Stmt::AsmLine(s("in al, dx")),
                ],
            },
            Item::Expr(s("side()")),
        ],
    }
}

fn my_box() -> Box {
    Box { name: s("my"), extends: Some(s("serial")), items: vec![] }
}

#[test]
fn renders_boxes_items_statements_and_flows() {
    let p = Program {
        boxes: vec![serial_box(), my_box()],
        flows: vec![Flow { name: s("default"), steps: vec![s("serial"), s("vga")] }],
    };
    let expected = "box serial {
  COM1 = 0x3F8
  X
  write_byte(b, c: u8) => default
  run() {
    if x {
      break
    }
    if y {
    } else {
      f()
    }
    loop {
      a = 1
    }
    for i in 0..3 {
    }
     {
    }
  }
  rd() raw {
    out(al, r)
    in(dx, p)
    \"in al, dx\"
  }
  side();
}
box my::serial {
}
flow default {
  serial
  vga
}
";
    assert_eq!(p.render(), expected);
}

#[test]
fn empty_program_renders_nothing() {
    let p = Program { boxes: vec![], flows: vec![] };
    assert_eq!(p.render(), "");
}

#[test]
fn rendering_boxes_concatenates() {
    let both = Program { boxes: vec![serial_box(), my_box()], flows: vec![] };
    let first = Program { boxes: vec![serial_box()], flows: vec![] };
    let second = Program { boxes: vec![my_box()], flows: vec![] };
    assert_eq!(both.render(), first.render() + &second.render());
}
