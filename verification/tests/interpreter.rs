use golfscript::bigint::Bint;
use golfscript::interp::Gerr;
use golfscript::interp::Gs;
use golfscript::value::Gval;

fn run_to_inspect(code: &str) -> String {
    let mut gs = Gs::new();
    let bytes: Vec<u8> = code.as_bytes().to_vec();
    match gs.run(&bytes) {
        Ok(()) => {}
        Err(e) => panic!("program failed: {:?}", e),
    }
    let stack = std::mem::take(&mut gs.stack);
    let out = Gval::Arr(stack).inspect();
    String::from_utf8_lossy(&out).into_owned()
}

fn run_to_gs(code: &str) -> Vec<u8> {
    let mut gs = Gs::new();
    let bytes: Vec<u8> = code.as_bytes().to_vec();
    gs.run(&bytes).unwrap();
    let stack = std::mem::take(&mut gs.stack);
    Gval::Arr(stack).to_gs()
}

fn run_err(code: &str) -> Gerr {
    let mut gs = Gs::new();
    let bytes: Vec<u8> = code.as_bytes().to_vec();
    gs.run(&bytes).unwrap_err()
}

#[test]
fn adds_two_ints() {
    assert_eq!(run_to_inspect("1 2 +"), "[3]");
}

#[test]
fn maps_square_over_array() {
    assert_eq!(run_to_inspect("[1 2 3]{.*}%"), "[[1 4 9]]");
}

#[test]
fn range_of_five() {
    assert_eq!(run_to_inspect("5,"), "[[0 1 2 3 4]]");
}

#[test]
fn maps_increment_over_string() {
    assert_eq!(run_to_inspect("\"hello\"{1+}%"), "[\"ifmmp\"]");
}

#[test]
fn gcd_with_do_loop() {
    assert_eq!(run_to_inspect("6 7 {.@\\%.} do ;"), "[1]");
}

#[test]
fn rotates_third_to_top() {
    assert_eq!(run_to_inspect("1 2 3 4 @"), "[1 3 4 2]");
}

#[test]
fn splits_keeping_empties() {
    assert_eq!(run_to_inspect("\"a,b,,c\" \",\" /"), "[[\"a\" \"b\" \"\" \"c\"]]");
}

#[test]
fn splits_dropping_empties() {
    assert_eq!(run_to_inspect("\"a,b,,c\" \",\" %"), "[[\"a\" \"b\" \"c\"]]");
}

#[test]
fn sorts_array() {
    assert_eq!(run_to_inspect("[3 1 2]$"), "[[1 2 3]]");
}

#[test]
fn repeats_dup_many_times() {
    let mut gs = Gs::new();
    gs.stack.push(Gval::Int(Bint::from_u64(0)));
    let bytes: Vec<u8> = b"255){.}* ;".to_vec();
    gs.run(&bytes).unwrap();
    assert_eq!(gs.stack.len(), 256);
    let top = gs.stack.pop().unwrap();
    assert_eq!(top.inspect(), b"0".to_vec());
}

#[test]
fn power_of_ints() {
    assert_eq!(run_to_inspect("5 3 ?"), "[125]");
}

#[test]
fn dup_leaves_value_twice() {
    assert_eq!(run_to_inspect("7 ."), "[7 7]");
}

#[test]
fn swap_twice_is_identity() {
    assert_eq!(run_to_inspect("1 2 \\ \\"), "[1 2]");
}

#[test]
fn rotate_three_times_is_identity() {
    assert_eq!(run_to_inspect("1 2 3 @ @ @"), "[1 2 3]");
}

#[test]
fn inspect_twice_of_string() {
    assert_eq!(run_to_inspect("\"ab\" ` `"), "[\"\\\"\\\\\\\"ab\\\\\\\"\\\"\"]");
}

#[test]
fn base_digits_of_six() {
    assert_eq!(run_to_inspect("6 2 base"), "[[1 1 0]]");
}

#[test]
fn base_reassembles_digits() {
    assert_eq!(run_to_inspect("[1 0 1] 2 base"), "[5]");
}

#[test]
fn base_round_trips() {
    assert_eq!(run_to_inspect("123 7 base 7 base"), "[123]");
}

#[test]
fn subtracts_and_negative_division() {
    assert_eq!(run_to_inspect("5 3 -"), "[2]");
    assert_eq!(run_to_inspect("7 2 /"), "[3]");
    assert_eq!(run_to_inspect("-7 2 /"), "[-4]");
}

#[test]
fn floored_modulus() {
    assert_eq!(run_to_inspect("7 3 %"), "[1]");
    assert_eq!(run_to_inspect("-7 3 %"), "[2]");
}

#[test]
fn bitwise_on_ints() {
    assert_eq!(run_to_inspect("6 3 &"), "[2]");
    assert_eq!(run_to_inspect("6 3 |"), "[7]");
    assert_eq!(run_to_inspect("6 3 ^"), "[5]");
    assert_eq!(run_to_inspect("5~"), "[-6]");
}

#[test]
fn comparisons_push_flags() {
    assert_eq!(run_to_inspect("1 2 <"), "[1]");
    assert_eq!(run_to_inspect("2 2 ="), "[1]");
    assert_eq!(run_to_inspect("1 2 >"), "[0]");
}

#[test]
fn indexes_and_slices() {
    assert_eq!(run_to_inspect("[11 22 33] 1 ="), "[22]");
    assert_eq!(run_to_inspect("[11 22 33] -1 ="), "[33]");
    assert_eq!(run_to_inspect("[1 2 3 4] 2 <"), "[[1 2]]");
    assert_eq!(run_to_inspect("[1 2 3 4] 2 >"), "[[3 4]]");
}

#[test]
fn set_operations_keep_order() {
    assert_eq!(run_to_inspect("[1 2 3][2 4]&"), "[[2]]");
    assert_eq!(run_to_inspect("[1 2 3][2 4]|"), "[[1 2 3 4]]");
    assert_eq!(run_to_inspect("[1 2 3][2 4]^"), "[[1 3 4]]");
    assert_eq!(run_to_inspect("[1 2 3][2 4]-"), "[[1 3]]");
}

#[test]
fn variables_bind_without_popping() {
    assert_eq!(run_to_inspect("5:x;x x +"), "[10]");
}

#[test]
fn splat_and_eval() {
    assert_eq!(run_to_inspect("[1 2]~"), "[1 2]");
    assert_eq!(run_to_inspect("\"1 2+\"~"), "[3]");
}

#[test]
fn brackets_capture_consumed_values() {
    assert_eq!(run_to_inspect("1 2 [\\]"), "[[2 1]]");
}

#[test]
fn and_or_xor_short_circuit() {
    assert_eq!(run_to_inspect("1 2 and"), "[2]");
    assert_eq!(run_to_inspect("0 2 or"), "[2]");
    assert_eq!(run_to_inspect("1 0 xor"), "[1]");
}

#[test]
fn if_selects_branch() {
    assert_eq!(run_to_inspect("1 2 3 if"), "[2]");
    assert_eq!(run_to_inspect("0 2 3 if"), "[3]");
}

#[test]
fn uncons_and_unsnoc() {
    assert_eq!(run_to_inspect("[1 2 3]("), "[[2 3] 1]");
    assert_eq!(run_to_inspect("[1 2 3])"), "[[1 2] 3]");
    assert_eq!(run_to_inspect("5("), "[4]");
    assert_eq!(run_to_inspect("5)"), "[6]");
}

#[test]
fn join_with_separator() {
    assert_eq!(run_to_inspect("[[1][2][3]][0]*"), "[[1 0 2 0 3]]");
    assert_eq!(run_to_gs("[\"a\" \"b\"]\",\"*"), b"a,b".to_vec());
}

#[test]
fn repeat_sequences() {
    assert_eq!(run_to_inspect("[1 2]3*"), "[[1 2 1 2 1 2]]");
    assert_eq!(run_to_gs("\"ab\"3*"), b"ababab".to_vec());
}

#[test]
fn fold_sums_array() {
    assert_eq!(run_to_inspect("[1 2 3 4]{+}*"), "[10]");
}

#[test]
fn chunk_and_stride() {
    assert_eq!(run_to_inspect("[1 2 3 4 5]2/"), "[[[1 2] [3 4] [5]]]");
    assert_eq!(run_to_inspect("[1 2 3 4 5]2%"), "[[1 3 5]]");
}

#[test]
fn each_pushes_elements() {
    assert_eq!(run_to_inspect("[1 2 3]{.}/"), "[1 1 2 2 3 3]");
}

#[test]
fn filter_keeps_truthy() {
    assert_eq!(run_to_inspect("[0 1 2 0 3]{}, "), "[[1 2 3]]");
}

#[test]
fn find_first_match() {
    assert_eq!(run_to_inspect("{3<}[10 2 9]?"), "[2]");
}

#[test]
fn index_of_value() {
    assert_eq!(run_to_inspect("[11 22 33] 22 ?"), "[1]");
    assert_eq!(run_to_inspect("[11 22 33] 44 ?"), "[-1]");
    assert_eq!(run_to_inspect("\"hello\" \"ll\" ?"), "[2]");
}

#[test]
fn sorts_string_bytes() {
    assert_eq!(run_to_gs("\"hello\"$"), b"ehllo".to_vec());
}

#[test]
fn sort_by_key_block() {
    assert_eq!(run_to_inspect("[2 -1 -3]{abs}$"), "[[-1 2 -3]]");
}

#[test]
fn zips_rows() {
    assert_eq!(run_to_inspect("[[1 2][3 4]]zip"), "[[[1 3] [2 4]]]");
}

#[test]
fn copies_stack_element() {
    assert_eq!(run_to_inspect("1 2 3 1$"), "[1 2 3 2]");
}

#[test]
fn coerces_int_and_string() {
    assert_eq!(run_to_gs("12\"x\"+"), b"12x".to_vec());
    assert_eq!(run_to_inspect("1[2]+"), "[[1 2]]");
}

#[test]
fn unescapes_double_quoted() {
    assert_eq!(run_to_gs("\"a\\nb\""), b"a\nb".to_vec());
    assert_eq!(run_to_gs("'a\\nb'"), b"a\\nb".to_vec());
}

#[test]
fn output_of_puts() {
    let mut gs = Gs::new();
    let bytes: Vec<u8> = b"'abc' puts".to_vec();
    gs.run(&bytes).unwrap();
    assert_eq!(gs.take_output(), b"abc\n".to_vec());
}

#[test]
fn deterministic_generator() {
    let state: u64 = 123456789u64.wrapping_mul(1664525).wrapping_add(1013904223);
    let expected = state % 10;
    assert_eq!(run_to_inspect("10 rand"), format!("[{}]", expected));
}

#[test]
fn negative_power_gives_zero() {
    assert_eq!(run_to_inspect("5 -2 ?"), "[0]");
}

#[test]
fn big_numbers_do_not_overflow() {
    assert_eq!(
        run_to_inspect("2 64 ? 2 64 ? *"),
        "[340282366920938463463374607431768211456]"
    );
}

#[test]
fn comments_are_ignored() {
    assert_eq!(run_to_inspect("1 # everything after is skipped\n2 +"), "[3]");
}

#[test]
fn underflow_is_reported() {
    assert_eq!(run_err("+"), Gerr::StackUnderflow);
}

#[test]
fn type_error_is_reported() {
    assert_eq!(run_err("\"a\" abs"), Gerr::TypeError);
}

#[test]
fn division_by_zero_is_reported() {
    assert_eq!(run_err("1 0 /"), Gerr::ArithmeticError);
}

#[test]
fn leftover_input_is_a_parse_error() {
    assert_eq!(run_err("1 {"), Gerr::ParseError);
}

#[test]
fn zip_rejects_non_array() {
    assert_eq!(run_err("1 zip"), Gerr::TypeError);
}

#[test]
fn zip_rejects_integer_row() {
    assert_eq!(run_err("[[1 2] 3]zip"), Gerr::TypeError);
}

#[test]
fn zip_pads_shorter_rows() {
    assert_eq!(run_to_inspect("[[1 2 3][4]]zip"), "[[[1 4] [2] [3]]]");
}

#[test]
fn zip_of_strings_transposes_bytes() {
    assert_eq!(run_to_gs("[\"ab\" \"cd\"]zip"), b"acbd".to_vec());
}

#[test]
fn colon_alone_is_a_parse_error() {
    assert_eq!(run_err("5:"), Gerr::ParseError);
}

#[test]
fn binding_needs_a_stack_value() {
    assert_eq!(run_err(":x"), Gerr::StackUnderflow);
}
