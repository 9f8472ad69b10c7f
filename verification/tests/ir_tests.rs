use luajit_decompiler::ir::Block;
use luajit_decompiler::ir::Expr;
use luajit_decompiler::ir::Insn;
use luajit_decompiler::ir::Var;
use luajit_decompiler::ir::VarInfo;
use luajit_decompiler::ir::decimal_text;
use luajit_decompiler::ir::signed_decimal_text;
use luajit_decompiler::types::Pri;

#[test]
fn expressions_fmt() {
    let expr1 = Expr::Var(Var(1));
    let expr2 = Expr::Nil;
    let expr3 = Expr::Ge(Box::new(expr1), Box::new(expr2));

    assert_eq!("v1 ≥ Nil", expr3.to_string());
}

#[test]
fn every_expression_has_its_text() {
    assert_eq!(Expr::var(12).to_string(), "v12");
    assert_eq!(Expr::num(3).to_string(), "Num(3)");
    assert_eq!(Expr::lit(255).to_string(), "Lit(255)");
    assert_eq!(Expr::short(-32768).to_string(), "Short(-32768)");
    assert_eq!(Expr::short(17).to_string(), "Short(17)");
    assert_eq!(Expr::uv(4).to_string(), "UV(4)");
    assert_eq!(Expr::cdata(65535).to_string(), "CData(65535)");
    assert_eq!(Expr::nil().to_string(), "Nil");
    assert_eq!(Expr::primitive(Pri::Nil).to_string(), "Nil");
    assert_eq!(Expr::primitive(Pri::True).to_string(), "Bool(true)");
    assert_eq!(Expr::primitive(Pri::False).to_string(), "Bool(false)");
    assert_eq!(Expr::closure(2).to_string(), "closure(proto(2))");
    assert_eq!(Expr::GlobalTable.to_string(), "_G");
    assert_eq!(Expr::lt(Expr::var(1), Expr::var(2)).to_string(), "v1 < v2");
    assert_eq!(Expr::le(Expr::var(1), Expr::var(2)).to_string(), "v1 ≤ v2");
    assert_eq!(Expr::gt(Expr::var(1), Expr::var(2)).to_string(), "v1 > v2");
    assert_eq!(Expr::ge(Expr::var(1), Expr::var(2)).to_string(), "v1 ≥ v2");
    assert_eq!(Expr::eq(Expr::var(1), Expr::num(2)).to_string(), "v1 == Num(2)");
    assert_eq!(Expr::ne(Expr::var(1), Expr::nil()).to_string(), "v1 != Nil");
    assert_eq!(Expr::add(Expr::var(1), Expr::num(2)).to_string(), "v1 + Num(2)");
    assert_eq!(Expr::sub(Expr::num(2), Expr::var(1)).to_string(), "Num(2) - v1");
    assert_eq!(Expr::mul(Expr::var(1), Expr::var(2)).to_string(), "v1 * v2");
    assert_eq!(Expr::div(Expr::var(1), Expr::var(2)).to_string(), "v1 / v2");
    assert_eq!(Expr::mod_(Expr::var(1), Expr::var(2)).to_string(), "v1 % v2");
    assert_eq!(Expr::pow(Expr::var(1), Expr::var(2)).to_string(), "v1^v2");
    assert_eq!(Expr::not(Expr::var(1)).to_string(), "!v1");
    assert_eq!(Expr::minus(Expr::var(1)).to_string(), "-v1");
    assert_eq!(Expr::len(Expr::var(1)).to_string(), "len(v1)");
    assert_eq!(
        Expr::table(Box::new(Expr::GlobalTable), Expr::str("print".to_string())).to_string(),
        "_G[\"print\"]"
    );
}

#[test]
fn strings_are_written_escaped() {
    assert_eq!(Expr::str("a\"b\n".to_string()).to_string(), "\"a\\\"b\\n\"");
    assert_eq!(Expr::str(String::new()).to_string(), "\"\"");
}

#[test]
fn nested_expressions_are_written_inside_out() {
    let e = Expr::add(Expr::mul(Expr::var(1), Expr::var(2)), Expr::not(Expr::len(Expr::var(3))));
    assert_eq!(e.to_string(), "v1 * v2 + !len(v3)");
}

#[test]
fn statements_have_their_text() {
    assert_eq!(Insn::set_var(Var(1), Expr::var(2)).to_string(), "v1 = v2");
    assert_eq!(Insn::SetVars(vec![Var(1), Var(2), Var(3)], Expr::nil()).to_string(), "v1, v2, v3 = Nil");
    assert_eq!(
        Insn::set_global_table_var(Expr::str("x".to_string()), Expr::var(0)).to_string(),
        "_G[\"x\"] = v0"
    );
    assert_eq!(Insn::set_table_var(Var(4), Expr::lit(1), Expr::var(0)).to_string(), "v4[Lit(1)] = v0");
    assert_eq!(
        Insn::Call(vec![Var(2), Var(3)], vec![Expr::Var(Var(2)), Expr::Var(Var(3))]).to_string(),
        "v2, v3 = v2(v3)"
    );
    assert_eq!(Insn::Call(vec![], vec![Expr::Var(Var(2))]).to_string(), "v2()");
    assert_eq!(
        Insn::Call(vec![], vec![Expr::Var(Var(2)), Expr::Var(Var(3)), Expr::Var(Var(4))]).to_string(),
        "v2(v3, v4)"
    );
    assert_eq!(
        Insn::TailCall(vec![Expr::Var(Var(2)), Expr::Var(Var(3))]).to_string(),
        "return v2(v3)"
    );
    assert_eq!(
        Insn::Cat(Var(0), vec![Expr::Var(Var(1)), Expr::Var(Var(2)), Expr::Var(Var(3))]).to_string(),
        "v0 = v1 ~ v2 ~ v3"
    );
    assert_eq!(Insn::If(Expr::var(1)).to_string(), "if v1");
    assert_eq!(
        Insn::For(vec![Expr::Var(Var(1)), Expr::Var(Var(2)), Expr::Var(Var(3))]).to_string(),
        "for v1, v2, v3"
    );
    assert_eq!(Insn::While(Expr::var(1)).to_string(), "while v1");
    assert_eq!(Insn::Repeat(Expr::var(1)).to_string(), "");
    assert_eq!(Insn::Return(vec![]).to_string(), "return");
    assert_eq!(Insn::Return(vec![Expr::Var(Var(1))]).to_string(), "return v1");
    assert_eq!(
        Insn::Return(vec![Expr::Var(Var(1)), Expr::Var(Var(2))]).to_string(),
        "return v1, v2"
    );
    assert_eq!(Insn::Unimplemented.to_string(), "unimplemented");
}

#[test]
fn numbers_are_written_in_decimal() {
    assert_eq!(decimal_text(0), "0");
    assert_eq!(decimal_text(9), "9");
    assert_eq!(decimal_text(10), "10");
    assert_eq!(decimal_text(1234567890), "1234567890");
    assert_eq!(decimal_text(u64::MAX), "18446744073709551615");
    assert_eq!(signed_decimal_text(-1), "-1");
    assert_eq!(signed_decimal_text(0), "0");
    assert_eq!(signed_decimal_text(-128), "-128");
}

#[test]
fn var_info_names_the_slot_and_counts_uses() {
    let mut info = VarInfo::new(7, true, false);
    assert_eq!(info.name(), "slot_7");
    assert!(info.is_table());
    assert!(!info.is_upvalue());
    assert_eq!(info.usage_count(), 0);
    assert_eq!(info.increment_usage_counter(), 1);
    assert_eq!(info.increment_usage_counter(), 2);
    assert_eq!(info.usage_count(), 2);
    let other = VarInfo::new(65535, false, true);
    assert_eq!(other.name(), "slot_65535");
    assert!(other.is_upvalue());
}

#[test]
fn usage_counter_stops_at_its_maximum() {
    let mut info = VarInfo::new(0, false, false);
    let mut last = 0;
    for _ in 0..70000 {
        last = info.increment_usage_counter();
    }
    assert_eq!(last, u16::MAX);
}

#[test]
fn blocks_keep_statements_in_order() {
    let mut block = Block::default();
    assert_eq!(block.iter_insn().len(), 0);
    block.push_insn(Insn::If(Expr::var(1)));
    block.push_insn(Insn::Return(vec![]));
    let texts: Vec<String> = block.iter_insn().iter().map(|i| i.to_string()).collect();
    assert_eq!(texts, vec!["if v1".to_string(), "return".to_string()]);
}

#[test]
fn statements_without_their_parts_are_told() {
    assert!(Insn::Return(vec![]).is_complete());
    assert!(Insn::Call(vec![], vec![Expr::Nil]).is_complete());
    assert!(!Insn::Call(vec![Var(1)], vec![]).is_complete());
    assert!(!Insn::SetVars(vec![], Expr::nil()).is_complete());
    assert!(!Insn::TailCall(vec![]).is_complete());
    assert!(!Insn::Cat(Var(0), vec![]).is_complete());
    assert!(!Insn::For(vec![Expr::Nil, Expr::Nil]).is_complete());
    assert!(Insn::For(vec![Expr::Nil, Expr::Nil, Expr::Nil]).is_complete());
    assert!(Insn::Unimplemented.is_complete());
}
