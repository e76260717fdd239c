use hako::parser::Parser;

#[test]
fn test_empty_program() {
    let mut p = Parser::new("");
    let prog = p.parse().unwrap();
    assert!(prog.boxes.is_empty());
    assert!(prog.impls.is_empty());
}

#[test]
fn test_box_with_inst() {
    let input = r#"
box vga {
  inst put_char(c: u8, x: u16, y: u16)
  inst clear() -> !
}
"#;
    let mut p = Parser::new(input);
    let prog = p.parse().unwrap();
    assert_eq!(prog.boxes.len(), 1);
    assert_eq!(prog.boxes[0].name, "vga");
    assert_eq!(prog.boxes[0].instructions.len(), 2);
    assert_eq!(prog.boxes[0].instructions[0].name, "put_char");
    assert_eq!(prog.boxes[0].instructions[0].params.len(), 3);
}

#[test]
fn test_simple_impl() {
    let input = r#"
impl vga::put_char(c: u8, x: u16, y: u16) {
  let pos = x + y * 80;
  asm!("mov byte [0xB8000], al");
  retorna;
}
"#;
    let mut p = Parser::new(input);
    let prog = p.parse().unwrap();
    assert_eq!(prog.impls.len(), 1);
    assert_eq!(prog.impls[0].box_name, "vga");
    assert_eq!(prog.impls[0].inst_name, "put_char");
    assert_eq!(prog.impls[0].body.len(), 4);
}

use hako::ast::HakoStmt;

fn parse_ok(input: &str) -> hako::ast::HakoProgram {
    let mut p = Parser::new(input);
    match p.parse_checked() {
        Some(Ok(prog)) => prog,
        Some(Err(e)) => panic!("unexpected error: {}", e.describe()),
        None => panic!("unexpected cut inside a character"),
    }
}

fn parse_err(input: &str) -> hako::parser::ParseError {
    let mut p = Parser::new(input);
    match p.parse_checked() {
        Some(Err(e)) => e,
        Some(Ok(_)) => panic!("expected an error"),
        None => panic!("unexpected cut inside a character"),
    }
}

#[test]
fn params_allow_trailing_comma() {
    let prog = parse_ok("box b { inst f(a: u8, b: u16,) }");
    assert_eq!(prog.boxes[0].instructions[0].params.len(), 2);
    assert_eq!(prog.boxes[0].instructions[0].params[1].name, "b");
    assert_eq!(prog.boxes[0].instructions[0].params[1].ty, "u16");
}

#[test]
fn pointer_and_reference_types() {
    let prog = parse_ok("box b { inst f(p: &mut u8, q: *const u32, r: *mut T, s: & T, t: *U) -> ! }");
    let d = &prog.boxes[0].instructions[0];
    let tys: Vec<&str> = d.params.iter().map(|p| p.ty.as_str()).collect();
    assert_eq!(tys, vec!["&mut u8", "*const u32", "*mut T", "&T", "*U"]);
    assert_eq!(d.ret_type.as_deref(), Some("!"));
    assert_eq!(d.params[0].name, "p");
}

#[test]
fn return_type_is_optional() {
    let prog = parse_ok("box b { inst f() inst g() -> u32 }");
    assert!(prog.boxes[0].instructions[0].ret_type.is_none());
    assert_eq!(prog.boxes[0].instructions[1].ret_type.as_deref(), Some("u32"));
}

#[test]
fn unknown_top_level_word() {
    let e = parse_err("foo");
    assert_eq!(e.msg, "expected 'box' or 'impl', got 'foo'");
    assert_eq!(e.line, 1);
}

#[test]
fn missing_identifier() {
    let e = parse_err("box {");
    assert_eq!(e.msg, "expected identifier");
    assert_eq!(e.line, 1);
}

#[test]
fn missing_character_reports_what_was_found() {
    let e = parse_err("box vga [");
    assert_eq!(e.msg, "expected '{', got 'Some('[')'");
    let e = parse_err("box vga");
    assert_eq!(e.msg, "expected '{', got 'None'");
}

#[test]
fn missing_word_reports_what_was_found() {
    let e = parse_err("impl vga:put_char() {}");
    assert_eq!(e.msg, "expected '::', got ''");
    let e = parse_err("box a { nope }");
    assert_eq!(e.msg, "expected 'inst', got 'nope'");
}

#[test]
fn string_literal_errors() {
    let e = parse_err("impl a::b() { asm!(x) }");
    assert_eq!(e.msg, "expected string literal");
    let e = parse_err("impl a::b() {\n asm!(\"abc");
    assert_eq!(e.msg, "unterminated string literal");
    assert_eq!(e.line, 2);
}

#[test]
fn error_lines_count_skipped_newlines() {
    let e = parse_err("\n\n  foo");
    assert_eq!(e.line, 3);
    let e = parse_err("/* a\nb */\nfoo");
    assert_eq!(e.line, 3);
    let e = parse_err("box a {\n  inst f(\n    x u8)\n}");
    assert_eq!(e.msg, "expected ',', got 'Some('u')'");
    assert_eq!(e.line, 3);
}

#[test]
fn error_description() {
    let e = parse_err("\n\n\n\n\n\n\n\n\n\n\nfoo");
    assert_eq!(e.describe(), "line 12: expected 'box' or 'impl', got 'foo'");
}

#[test]
fn let_statement() {
    let prog = parse_ok("impl k::run() {\n  let mut x: u32 = 5;\n}");
    let body = &prog.impls[0].body;
    assert_eq!(body.len(), 2);
    match &body[0] {
        HakoStmt::Let { name, ty, is_mut, value } => {
            assert_eq!(name, "x");
            assert_eq!(ty.as_deref(), Some("u32"));
            assert!(*is_mut);
            assert_eq!(value.as_deref(), Some("5"));
        }
        other => panic!("unexpected {:?}", other),
    }
    assert!(matches!(body[1], HakoStmt::Empty));
    let prog = parse_ok("impl k::run() { let y }");
    match &prog.impls[0].body[0] {
        HakoStmt::Let { name, ty, is_mut, value } => {
            assert_eq!(name, "y");
            assert!(ty.is_none() && !*is_mut && value.is_none());
        }
        other => panic!("unexpected {:?}", other),
    }
}

#[test]
fn caso_statements() {
    let prog = parse_ok("impl k::f() { caso x > 3 => { retorna x; } caso else => retorna 0; }");
    let body = &prog.impls[0].body;
    assert_eq!(body.len(), 3);
    match &body[0] {
        HakoStmt::Caso { cond, body } => {
            assert_eq!(cond, "x > 3");
            assert_eq!(body.len(), 2);
            assert!(matches!(&body[0], HakoStmt::Retorna(Some(v)) if v == "x"));
            assert!(matches!(body[1], HakoStmt::Empty));
        }
        other => panic!("unexpected {:?}", other),
    }
    match &body[1] {
        HakoStmt::CasoContrario(b) => {
            assert_eq!(b.len(), 1);
            assert!(matches!(&b[0], HakoStmt::Expr(e) if e == "retorna 0"));
        }
        other => panic!("unexpected {:?}", other),
    }
    assert!(matches!(body[2], HakoStmt::Empty));
}

#[test]
fn loop_for_and_ref_statements() {
    let prog = parse_ok("impl k::g() { loop { x = x + 1; } for i in 0..10 { foo(i); } ref vga::clear; }");
    let body = &prog.impls[0].body;
    assert_eq!(body.len(), 4);
    match &body[0] {
        HakoStmt::Loop(b) => {
            assert_eq!(b.len(), 2);
            assert!(matches!(&b[0], HakoStmt::Expr(e) if e == "x = x + 1"));
        }
        other => panic!("unexpected {:?}", other),
    }
    match &body[1] {
        HakoStmt::For { var, iter, body } => {
            assert_eq!(var, "i");
            assert_eq!(iter, "0..10");
            assert!(matches!(&body[0], HakoStmt::Expr(e) if e == "foo(i)"));
        }
        other => panic!("unexpected {:?}", other),
    }
    assert!(matches!(&body[2], HakoStmt::Ref(p) if p == "vga::clear"));
}

#[test]
fn asm_operands_and_clobbers() {
    let prog = parse_ok(
        "impl p::outb() { asm!(\"out dx, al\", in(\"dx\") port, options(nomem, nostack)); }",
    );
    match &prog.impls[0].body[0] {
        HakoStmt::Asm { template, operands, clobbers } => {
            assert_eq!(template, "out dx, al");
            assert_eq!(operands, &vec![String::from("in(\"dx\") port")]);
            assert_eq!(clobbers, &vec![String::from("options(nomem, nostack)")]);
        }
        other => panic!("unexpected {:?}", other),
    }
}

#[test]
fn block_end_is_kept_as_empty_statement() {
    let prog = parse_ok("impl a::b() {}");
    assert_eq!(prog.impls[0].body.len(), 1);
    assert!(matches!(prog.impls[0].body[0], HakoStmt::Empty));
    let prog = parse_ok("impl a::b() {");
    assert_eq!(prog.impls[0].body.len(), 0);
}

#[test]
fn expressions_are_trimmed_of_unicode_whitespace() {
    let prog = parse_ok("impl a::b() { x = \u{3000}1\u{3000}; }");
    assert!(matches!(&prog.impls[0].body[0], HakoStmt::Expr(e) if e == "x = \u{3000}1"));
}

#[test]
fn identifiers_are_read_byte_by_byte() {
    let prog = parse_ok("// olá\nbox \u{aa}b {}");
    assert_eq!(prog.boxes[0].name, "\u{aa}b");
    let e = parse_err("box \u{5e9} {}");
    assert_eq!(e.msg, "expected identifier");
}

#[test]
fn cutting_a_character_is_reported() {
    let mut p = Parser::new("box \u{e9} {}");
    assert!(p.parse_checked().is_none());
    let mut p = Parser::new("/* \u{e9}");
    assert!(p.parse_checked().is_none());
}

#[test]
fn parsing_again_after_success_is_empty() {
    let mut p = Parser::new("box a {}\nimpl a::b() {}");
    let first = p.parse().unwrap();
    assert_eq!(first.boxes.len() + first.impls.len(), 2);
    let second = p.parse().unwrap();
    assert!(second.boxes.is_empty() && second.impls.is_empty());
}

#[test]
fn blank_input_is_empty() {
    let prog = parse_ok("  // nothing\n /* here */ \n");
    assert!(prog.boxes.is_empty() && prog.impls.is_empty());
}

#[test]
fn flows_at_top_level() {
    let prog = parse_ok("flow default {\n  serial\n  vga\n}\nbox a {}\nflow other { a }\n");
    assert_eq!(prog.flows.len(), 2);
    assert_eq!(prog.flows[0].name, "default");
    assert_eq!(prog.flows[0].steps, vec![String::from("serial"), String::from("vga")]);
    assert_eq!(prog.flows[1].steps, vec![String::from("a")]);
    assert_eq!(prog.boxes.len(), 1);
    let e = parse_err("flow f { a b");
    assert_eq!(e.msg, "expected identifier");
}

#[test]
fn slice_types_and_untyped_params() {
    let prog = parse_ok("box b { inst f(buf: &[u16], s, t: [u8], u : &mut [T]) }");
    let d = &prog.boxes[0].instructions[0];
    let tys: Vec<&str> = d.params.iter().map(|p| p.ty.as_str()).collect();
    assert_eq!(tys, vec!["&[u16]", "", "[u8]", "&mut [T]"]);
    assert_eq!(d.params[1].name, "s");
    let e = parse_err("box b { inst f(x: [u8) }");
    assert_eq!(e.msg, "expected ']', got 'Some(')')'");
}

#[test]
fn nested_block_statement() {
    let prog = parse_ok("impl a::b() { { a; b; } }");
    let body = &prog.impls[0].body;
    assert_eq!(body.len(), 2);
    match &body[0] {
        HakoStmt::Block(inner) => {
            assert_eq!(inner.len(), 3);
            assert!(matches!(&inner[0], HakoStmt::Expr(e) if e == "a"));
            assert!(matches!(&inner[1], HakoStmt::Expr(e) if e == "b"));
            assert!(matches!(inner[2], HakoStmt::Empty));
        }
        other => panic!("unexpected {:?}", other),
    }
    assert!(matches!(body[1], HakoStmt::Empty));
}

#[test]
fn found_character_is_escaped_in_messages() {
    let e = parse_err("box vga '");
    assert_eq!(e.msg, "expected '{', got 'Some('\\''))'".replace("))", ")"));
    let e = parse_err("box vga \u{e9}");
    assert_eq!(e.msg, format!("expected '{{', got '{:?}'", Some('\u{c3}')));
}

#[test]
fn leftover_text_after_items_is_an_error() {
    let e = parse_err("box a { }\nstray");
    assert_eq!(e.msg, "expected 'box' or 'impl', got 'stray'");
    assert_eq!(e.line, 2);
    let prog = parse_ok("box a { } // trailing comment\n  /* and a block */  \n");
    assert_eq!(prog.boxes.len(), 1);
}

#[test]
fn ascii_garbage_never_cuts_a_character() {
    let inputs = [
        "}}}",
        "box",
        "impl a::b(",
        "impl a::b() { let x = (1, 2; }",
        "flow f { 1 }",
        "box b { inst f(x: &[) }",
        "impl a::b() { asm!(\"x\", (,), ",
        "/* never closed",
        "// only a comment",
        "caso",
    ];
    for input in inputs.iter() {
        let mut p = Parser::new(input);
        assert!(p.parse_checked().is_some(), "input {:?}", input);
    }
}

#[test]
fn leading_blanks_change_only_error_lines() {
    let plain = parse_ok("box a { inst f(x: u8) }");
    let padded = parse_ok("  // note\n\n /* block\n comment */ box a { inst f(x: u8) }");
    assert_eq!(plain.boxes.len(), padded.boxes.len());
    assert_eq!(plain.boxes[0].name, padded.boxes[0].name);
    assert_eq!(plain.boxes[0].instructions[0].params[0].ty, padded.boxes[0].instructions[0].params[0].ty);
    let e1 = parse_err("box a { inst f(x u8) }");
    let e2 = parse_err("  // note\n\n /* block\n comment */ box a { inst f(x u8) }");
    assert_eq!(e1.msg, e2.msg);
    assert_eq!(e1.line, 1);
    assert_eq!(e2.line, 4);
}

#[test]
fn expressions_end_at_the_first_top_level_separator() {
    let prog = parse_ok("impl a::b() { f(x, y), g({ h; }); last\n }");
    let body = &prog.impls[0].body;
    assert!(matches!(&body[0], HakoStmt::Expr(e) if e == "f(x, y)"));
    assert!(matches!(&body[1], HakoStmt::Expr(e) if e == "g({ h; })"));
    assert!(matches!(&body[2], HakoStmt::Expr(e) if e == "last"));
}

#[test]
fn conditions_end_at_the_first_top_level_arrow() {
    let prog = parse_ok("impl a::b() { caso f(x => y) => z; }");
    match &prog.impls[0].body[0] {
        HakoStmt::Caso { cond, body } => {
            assert_eq!(cond, "f(x => y)");
            assert!(matches!(&body[0], HakoStmt::Expr(e) if e == "z"));
        }
        other => panic!("unexpected statement {:?}", other),
    }
}

#[test]
fn type_names_drop_inner_whitespace_and_comments() {
    let prog = parse_ok("impl a::b(x: & mut /* c */ [ u8 ], y: * const\n T) {}");
    assert_eq!(prog.impls[0].params[0].ty, "&mut [u8]");
    assert_eq!(prog.impls[0].params[1].ty, "*const T");
}

#[test]
fn unknown_top_level_word_on_a_later_line() {
    let e = parse_err("\n  foo {}");
    assert_eq!(e.msg, "expected 'box' or 'impl', got 'foo'");
    assert_eq!(e.line, 2);
}
