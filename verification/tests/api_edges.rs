use acsl_formatter::annotate::{format_acsl_annotations, format_annotation_content, FormatStyle};
use acsl_formatter::ast::{Assoc, BinaryOp, QuantKind, UnaryOp};
use acsl_formatter::diff::unified_diff;
use acsl_formatter::lexer::{Lexer, TokenKind};
use acsl_formatter::parser::{parse_expression, Parser};
use acsl_formatter::{format_acsl_annotation, format_acsl_comment, format_acsl_file, format_expression, Error};

#[test]
fn operator_tables() {
    assert_eq!(UnaryOp::Not.as_str(), "!");
    assert_eq!(UnaryOp::Neg.as_str(), "-");
    assert_eq!(UnaryOp::Pos.as_str(), "+");
    assert_eq!(BinaryOp::Iff.as_str(), "<==>");
    assert_eq!(BinaryOp::Implies.as_str(), "==>");
    assert_eq!(BinaryOp::Le.as_str(), "<=");
    assert_eq!(BinaryOp::Iff.precedence(), 2);
    assert_eq!(BinaryOp::Implies.precedence(), 3);
    assert_eq!(BinaryOp::Or.precedence(), 4);
    assert_eq!(BinaryOp::And.precedence(), 5);
    assert_eq!(BinaryOp::Ne.precedence(), 6);
    assert_eq!(BinaryOp::Ge.precedence(), 7);
    assert_eq!(BinaryOp::Sub.precedence(), 8);
    assert_eq!(BinaryOp::Mod.precedence(), 9);
    assert_eq!(BinaryOp::Implies.assoc(), Assoc::Right);
    assert_eq!(BinaryOp::Add.assoc(), Assoc::Left);
    assert_eq!(QuantKind::Forall.as_str(), "\\forall");
    assert_eq!(QuantKind::Exists.as_str(), "\\exists");
}

#[test]
fn lexer_reads_tokens_in_order() {
    let mut lexer = Lexer::new("  f(a->b, 12) <==> \\forall");
    let mut kinds = Vec::new();
    let mut positions = Vec::new();
    loop {
        let t = lexer.next_token().expect("token");
        positions.push(t.pos);
        let end = matches!(t.kind, TokenKind::End);
        kinds.push(format!("{:?}", t.kind));
        if end {
            break;
        }
    }
    assert_eq!(
        kinds,
        vec![
            "Ident(\"f\")",
            "LParen",
            "Ident(\"a\")",
            "Op(\"->\")",
            "Ident(\"b\")",
            "Comma",
            "Number(\"12\")",
            "RParen",
            "Op(\"<==>\")",
            "KwForall",
            "End"
        ]
    );
    assert_eq!(positions, vec![2, 3, 4, 5, 7, 8, 10, 12, 14, 19, 26]);
}

#[test]
fn lexer_rejects_unknown_character() {
    let mut lexer = Lexer::new("a # b");
    assert!(lexer.next_token().is_ok());
    match lexer.next_token() {
        Err(Error::Lex(m)) => assert_eq!(m, "unexpected character '#' at 2"),
        other => panic!("unexpected {:?}", other),
    }
}

#[test]
fn lex_error_variant_and_message() {
    match format_expression("a @ b") {
        Err(e) => {
            assert!(matches!(e, Error::Lex(_)));
            assert_eq!(e.message(), "lex error: unexpected character '@' at 2");
        },
        Ok(s) => panic!("unexpected {s}"),
    }
}

#[test]
fn parse_error_variants_and_messages() {
    match format_expression("a +") {
        Err(e) => assert_eq!(e.message(), "parse error: unexpected token End at 3"),
        Ok(s) => panic!("unexpected {s}"),
    }
    match format_expression("(a b") {
        Err(e) => assert_eq!(e.message(), "parse error: expected RParen, found Ident(\"b\") at 3"),
        Ok(s) => panic!("unexpected {s}"),
    }
    match format_expression("a b") {
        Err(Error::Parse(m)) => assert_eq!(m, "unexpected token Ident(\"b\") at 2"),
        other => panic!("unexpected {:?}", other),
    }
    match format_expression("c ? a b") {
        Err(Error::Parse(m)) => assert_eq!(m, "expected Colon, found Ident(\"b\") at 6"),
        other => panic!("unexpected {:?}", other),
    }
    match format_expression("b \\result") {
        Err(Error::Parse(m)) => assert_eq!(m, "unexpected token Ident(\"\\\\result\") at 2"),
        other => panic!("unexpected {:?}", other),
    }
}

#[test]
fn lex_error_only_where_the_parser_reads() {
    match format_expression("a b @") {
        Err(Error::Parse(m)) => assert_eq!(m, "unexpected token Ident(\"b\") at 2"),
        other => panic!("unexpected {:?}", other),
    }
}

#[test]
fn parser_reads_one_expression() {
    let mut p = Parser::new("x[i] + 1").expect("lexes");
    assert!(p.parse_expression().is_ok());
    assert!(Parser::new("$").is_err());
    assert!(parse_expression("f(,)").is_err());
    assert!(parse_expression("f(a,)").is_err());
    assert!(parse_expression("f()").is_ok());
}

#[test]
fn formats_postfix_ternary_and_quantifiers() {
    assert_eq!(format_expression("\\old(x)->f[3] ? a : b ? c : d").unwrap(), "\\old(x)->f[3] ? a : b ? c : d");
    assert_eq!(format_expression("(c ? a : b) ? d : e").unwrap(), "(c ? a : b) ? d : e");
    assert_eq!(format_expression("a + (c ? x : y)").unwrap(), "a + (c ? x : y)");
    assert_eq!(format_expression("f()").unwrap(), "f()");
    assert_eq!(format_expression("s . x").unwrap(), "s.x");
    assert_eq!(format_expression("(a+b)[i]").unwrap(), "(a + b)[i]");
    assert_eq!(format_expression("\\exists integer k ,  j ; a[k]==j").unwrap(), "\\exists integer k, j; a[k] == j");
    assert_eq!(format_expression("p ==> (\\forall x; q)").unwrap(), "p ==> (\\forall x; q)");
    assert_eq!(format_expression("f(\\forall x; q, y)").unwrap(), "f(\\forall x; q, y)");
}

#[test]
fn formats_associativity() {
    assert_eq!(format_expression("a ==> (b ==> c)").unwrap(), "a ==> b ==> c");
    assert_eq!(format_expression("(a ==> b) ==> c").unwrap(), "(a ==> b) ==> c");
    assert_eq!(format_expression("a - (b - c)").unwrap(), "a - (b - c)");
    assert_eq!(format_expression("(a - b) - c").unwrap(), "a - b - c");
    assert_eq!(format_expression("a || (b && c)").unwrap(), "a || (b && c)");
    assert_eq!(format_expression("-(-a)").unwrap(), "-(-a)");
    assert_eq!(format_expression("-(a*b)").unwrap(), "-(a * b)");
    assert_eq!(format_expression("!!!(a < b)").unwrap(), "a >= b");
    assert_eq!(format_expression("!(a > b)").unwrap(), "a <= b");
    assert_eq!(format_expression("!(a != b)").unwrap(), "a == b");
}

#[test]
fn simplify_twice_changes_nothing() {
    let once = format_expression("!(!(x >= y) && !!z)").unwrap();
    assert_eq!(once, "!(x < y && z)");
    assert_eq!(format_expression(&once).unwrap(), once);
}

#[test]
fn unparsable_annotation_is_kept() {
    assert_eq!(format_acsl_annotation("  requires x # y;  "), "requires x # y;");
    assert_eq!(format_annotation_content("\n loop assigns x; \n", FormatStyle::Block), "loop assigns x;");
    assert_eq!(format_acsl_file("/*@ requires a b; */"), "/*@ requires a b; */");
    assert_eq!(format_acsl_file("/*@ requires a +; */"), "/*@ requires a +; */");
    assert_eq!(format_acsl_file("x;\n//@ requires a +;  \ny;"), "x;\n//@ requires a +;  \ny;");
    assert_eq!(format_acsl_comment("/*@ requires a +; */"), "/*@ requires a +; */");
}

#[test]
fn blank_annotations() {
    assert_eq!(format_acsl_annotation("   "), "");
    assert_eq!(format_acsl_file("/*@ */"), "/*@*/");
    assert_eq!(format_acsl_file("//@\nint x;"), "//@\nint x;");
}

#[test]
fn block_layout_with_behaviors_and_assigns() {
    let out = format_acsl_file("/*@ requires p!=\\null; behavior pos: assumes x>0; ensures \\result==x; assigns p, a[ 0 ]; */");
    assert_eq!(
        out,
        "/*@\n  requires p != \\null;\n  behavior pos:\n    assumes x > 0;\n    ensures \\result == x;\n    assigns p, a[0];\n*/"
    );
}

#[test]
fn block_layout_wraps_long_clauses_with_hanging_indent() {
    let out = format_acsl_file("/*@ ensures \\result == aaaaaaaaaa + bbbbbbbbbb + cccccccccc + dddddddddd + eeeeeeeeee + ffffffffff; */");
    assert_eq!(
        out,
        "/*@\n  ensures \\result == aaaaaaaaaa + bbbbbbbbbb + cccccccccc + dddddddddd +\n                     eeeeeeeeee + ffffffffff;\n*/"
    );
    for line in out.split('\n') {
        assert!(line.len() <= 80);
    }
}

#[test]
fn line_layout_wraps_into_more_line_comments() {
    let out = format_acsl_file("//@ requires aaaaaaaaaaaa > 0; requires bbbbbbbbbbbb > 0; requires cccccccccccc > 0; requires d > 0;\nint f();");
    assert_eq!(
        out,
        "//@ requires aaaaaaaaaaaa > 0; requires bbbbbbbbbbbb > 0; requires cccccccccccc\n//@ > 0; requires d > 0\nint f();"
    );
}

#[test]
fn wrapped_words_are_kept() {
    let input = "requires aaaa + bbbb + cccc + dddd + eeee + ffff + gggg + hhhh + iiii + jjjj + kkkk + llll + mmmm;";
    let out = format_acsl_annotation(input);
    let words_out: Vec<&str> = out.split_whitespace().collect();
    let words_in: Vec<&str> = input.trim_end_matches(';').split_whitespace().collect();
    assert_eq!(words_out, words_in);
    assert!(out.contains('\n'));
    for line in out.split('\n') {
        assert!(line.len() <= 76);
    }
}

#[test]
fn unterminated_block_is_kept() {
    assert_eq!(format_acsl_file("x /*@ requires a"), "x /*@ requires a");
    assert_eq!(format_acsl_file("/*@ requires a+b; */ y /*@"), "/*@\n  requires a + b;\n*/ y /*@");
}

#[test]
fn comment_entry_point_keeps_other_text() {
    assert_eq!(format_acsl_comment("  /* plain */ "), "  /* plain */ ");
    assert_eq!(format_acsl_comment("//@ requires a==b;"), "//@ requires a == b");
    assert_eq!(format_acsl_comment("//@ requires a;\n//@ ensures b;"), "//@ requires a;\n//@ ensures b;");
    assert_eq!(format_acsl_annotations("a //@ assert x>1;\nb"), "a //@ assert x > 1\nb");
}

#[test]
fn removes_spaces_around_member_and_index() {
    assert_eq!(format_acsl_annotation("ensures s . f [ 1 ] == p -> g;"), "ensures s.f[1] == p->g");
}

#[test]
fn diff_lists_changed_lines() {
    let d = unified_diff("f.c", "a\nb\nc", "a\nB");
    assert_eq!(d, "--- f.c\n+++ f.c\n@@ -1,3 +1,2 @@\n a\n-b\n+B\n-c\n");
    let same = unified_diff("g.c", "x\n", "x\n");
    assert_eq!(same, "--- g.c\n+++ g.c\n@@ -1,2 +1,2 @@\n x\n \n");
    let grow = unified_diff("h.c", "", "1\n2\n3\n4\n5\n6\n7\n8\n9\n10");
    assert!(grow.starts_with("--- h.c\n+++ h.c\n@@ -1,1 +1,10 @@\n"));
    assert!(grow.ends_with("+9\n+10\n"));
}

#[test]
fn formatted_text_formats_to_itself() {
    let inputs = [
        "a+b*c",
        "(a+b)*c",
        "a-(b-c)",
        "(a-b)-c",
        "a==>b==>c",
        "(a==>b)==>c",
        "!(a<b)",
        "!!p",
        "- -x",
        "f(x,y)[i]->next.val",
        "(p+1)->x",
        "\\forall integer i, j; 0<=i<n ==> a[i]>0",
        "\\exists int k; (\\forall int m; m < k) && k > 0",
        "c ? x : y ? u : v",
        "(c ? x : y) ? u : v",
        "a && b || c",
        "(a<b) == (c<d)",
        "g()",
    ];
    for input in inputs {
        let once = format_expression(input).expect("formats");
        let twice = format_expression(&once).expect("formats again");
        assert_eq!(twice, once, "input: {input}");
    }
}

#[test]
fn negated_operand_of_product_keeps_its_meaning() {
    let once = format_expression("(-a) * b").expect("formats");
    assert_eq!(once, "-a * b");
    assert_eq!(format_expression(&once).expect("formats again"), "-a * b");
    assert_eq!(format_expression("-(a * b)").expect("formats"), "-(a * b)");
    assert_eq!(format_acsl_file("/*@ requires (-a) * b == !c % d; */"), "/*@\n  requires -a * b == !c % d;\n*/");
}

#[test]
fn lexer_stays_on_a_bad_character() {
    let mut lexer = Lexer::new("a  @");
    let first = lexer.next_token().expect("name");
    assert_eq!(first.kind, TokenKind::Ident("a".to_string()));
    assert_eq!(first.pos, 0);
    for _ in 0..2 {
        match lexer.next_token() {
            Err(Error::Lex(m)) => assert_eq!(m, "unexpected character '@' at 3"),
            other => panic!("unexpected {:?}", other),
        }
    }
}

#[test]
fn trees_and_tokens_copy() {
    let e = parse_expression("\\forall integer i; f(a, -b)[i]->x ? c : d").expect("parses");
    assert_eq!(e.clone(), e);
    let t = Lexer::new("x").next_token().expect("name");
    assert_eq!(t.clone().kind, t.kind);
    let err = format_expression("a +").unwrap_err();
    assert_eq!(err.clone().message(), err.message());
}

#[test]
fn file_splits_at_annotations() {
    let rest = "int y; /*@ ensures b; */";
    let whole = format!("int x; /*@ requires a+1; */{rest}");
    assert_eq!(
        format_acsl_file(&whole),
        format!("int x; /*@\n  requires a + 1;\n*/{}", format_acsl_file(rest))
    );
    let line = format!("x;//@ assert a>b;\n{rest}");
    assert_eq!(format_acsl_file(&line), format!("x;//@ assert a > b\n{}", format_acsl_file(rest)));
}

#[test]
fn normalizing_spaces_only_deletes_spaces() {
    let out = format_acsl_annotation("assigns p -> x, a [ 1 ], s . f;");
    assert_eq!(out, "assigns p->x, a[1], s.f");
    let kept: String = out.chars().filter(|c| *c != ' ').collect();
    assert_eq!(kept, "assignsp->x,a[1],s.f");
    assert_eq!(format_acsl_annotation(&out), out);
}
