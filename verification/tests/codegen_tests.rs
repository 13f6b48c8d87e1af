use chiya::codegen::emitter::Emitter;
use chiya::codegen::llvm::LLVM;
use chiya::codegen::{CodegenError, gen};
use chiya::parser::program;
use chiya::token::tokenize;

fn compile(src: &str) -> Result<String, CodegenError> {
    let tokens = tokenize(src).expect("lexes");
    let (rest, tree) = program(&tokens).expect("parses");
    assert!(rest.is_empty());
    let mut e = LLVM::new();
    gen(&mut e, &tree)
}

#[test]
fn test_gen_bad_variable_name() {
    // a name other than the reserved pointer variable fails, emitting nothing
    let r = compile("x += 1;");
    assert_eq!(
        r,
        Err(CodegenError::InvalidVariableName {
            name: "x".to_owned()
        })
    );
}

#[test]
fn test_gen_bad_function_name() {
    let r = compile("foo();");
    assert_eq!(
        r,
        Err(CodegenError::InvalidFunctionName {
            name: "foo".to_owned()
        })
    );
}

#[test]
fn test_gen_io_calls_emit_exactly_one_operation() {
    let got = compile("getchar();").expect("generates");
    assert_eq!(got.matches("call i32 @getchar()").count(), 1);
    assert_eq!(got.matches("%2 = call i32 @getchar()").count(), 1);
    assert_eq!(got.matches("@putchar(i32 %").count(), 0);

    let put = compile("putchar();").expect("generates");
    assert_eq!(put.matches("call i32 @putchar(i32 %2)").count(), 1);
    assert_eq!(put.matches("call i32 @getchar()").count(), 0);
}

#[test]
fn test_gen_bare_reference_not_implemented() {
    assert_eq!(compile("ptr;"), Err(CodegenError::NotImplemented));
    assert_eq!(compile("while ptr { ptr += 1; }"), Err(CodegenError::NotImplemented));
}

#[test]
fn test_gen_while_condition_name_checked() {
    assert_eq!(
        compile("while *x { x += 1; }"),
        Err(CodegenError::InvalidVariableName {
            name: "x".to_owned()
        })
    );
}

#[test]
fn test_gen_nested_loops_pair_inside_out() {
    let got = compile("while *ptr { while *ptr { *ptr -= 1; } }").expect("generates");
    // two structurally distinct labels
    assert!(got.contains("loop1_cond:"));
    assert!(got.contains("loop2_cond:"));
    // the inner loop closes before the outer one
    let inner_end = got.find("loop2_end:").expect("inner end");
    let outer_end = got.find("loop1_end:").expect("outer end");
    assert!(inner_end < outer_end);
}

#[test]
fn test_gen_end_to_end_artifact() {
    let got = compile("ptr += 1; *ptr += 65; putchar();").expect("generates");
    // header, the three lowered statements in order, and the footer
    assert!(got.starts_with("; emit_header()\ndefine i32 @main() {"));
    assert!(got.contains("call i8* @calloc(i64 30000, i64 4)"));
    let move_ptr = got.find("getelementptr inbounds i32, i32* %1, i32 1").expect("move");
    let add = got.find("%5 = add nsw i32 %4, 65").expect("add");
    let putchar = got.find("call i32 @putchar(i32 %7)").expect("putchar");
    assert!(move_ptr < add && add < putchar);
    assert!(got.contains("ret i32 0"));
    assert!(got.ends_with(
        "declare i8* @calloc(i64, i64)\ndeclare void @free(i8*)\ndeclare i32 @getchar()\ndeclare i32 @putchar(i32)"
    ));
}

#[test]
fn test_gen_subtraction_negates_delta() {
    let got = compile("ptr -= 3; *ptr -= 7;").expect("generates");
    assert!(got.contains("getelementptr inbounds i32, i32* %1, i32 -3"));
    assert!(got.contains("add nsw i32 %4, -7"));
}

#[test]
fn test_emitter_fragments() {
    let mut e = LLVM::new();
    assert_eq!(
        e.emit_move_ptr(1),
        "\n  ; emit_move_ptr(1)\n  %1 = load i32*, i32** %ptr, align 8\n  %2 = getelementptr inbounds i32, i32* %1, i32 1\n  store i32* %2, i32** %ptr, align 8"
    );
    assert_eq!(
        e.emit_add(-2),
        "\n  ; emit_add(-2)\n  %3 = load i32*, i32** %ptr, align 8\n  %4 = load i32, i32* %3, align 4\n  %5 = add nsw i32 %4, -2\n  store i32 %5, i32* %3, align 4"
    );
}

#[test]
fn test_emitter_loop_end_without_open_loop_is_noop() {
    let mut e = LLVM::new();
    assert_eq!(e.emit_loop_end(), "");
}

#[test]
fn test_emitter_loop_labels_fresh_across_siblings() {
    let got = compile("while *ptr { *ptr -= 1; } while *ptr { *ptr -= 1; }").expect("generates");
    assert!(got.contains("loop1_cond:"));
    assert!(got.contains("loop2_cond:"));
    let first_end = got.find("loop1_end:").expect("first end");
    let second_begin = got.find("loop2_cond:").expect("second begin");
    assert!(first_end < second_begin);
}
