//! The stack machine, exercised instruction by instruction.
use plates::parser::Instruction;
use plates::runtime::FunctionDef;
use plates::runtime::Runtime;
use plates::runtime::Word;

fn d(n: u32) -> Word {
    Word::Data(n)
}

fn f(name: &str) -> Word {
    Word::Function(name.to_string())
}

fn pf(name: &str) -> Instruction {
    Instruction::PushFunction(name.to_string())
}

fn def(name: &str, arity: u32, body: Vec<Instruction>) -> FunctionDef {
    FunctionDef {
        name: name.to_string(),
        arity,
        body,
    }
}

fn machine(value_stack: Vec<Word>, function_table: Vec<FunctionDef>) -> Runtime {
    Runtime {
        value_stack,
        function_table,
        instruction_stack: Vec::new(),
        args_array: Vec::new(),
    }
}

fn assert_ok_and_eq(actual: Result<bool, plates::errors::RuntimeError>, expected: bool) {
    assert!(actual.is_ok());
    assert_eq!(expected, actual.unwrap());
}

fn assert_err_with_msg(actual: Result<bool, plates::errors::RuntimeError>, msg: &str) {
    match actual {
        Ok(x) => panic!("Expected an error but received 'Ok({x:?})'."),
        Err(e) => assert_eq!(msg, e.message()),
    }
}

const ERR_UNDERFLOW: &str = "Runtime error: Stack underflow.";
const ERR_UNDEFINED: &str = "Runtime error: Undefined argument or function.";
const ERR_TYPE: &str = "Runtime error: Wrong type.";

#[test]
fn new_runtime() {
    let expected = Runtime {
        value_stack: vec![],
        function_table: vec![],
        instruction_stack: vec![],
        args_array: vec![],
    };
    assert_eq!(expected, Runtime::new());
}

#[test]
fn push_data() {
    let mut actual = Runtime::new();
    let mut expected = Runtime::new();

    // Empty stack
    assert_ok_and_eq(actual.run(Instruction::PushData(123)), false);
    expected.value_stack.push(Word::Data(123));
    assert_eq!(expected, actual);

    // Non-empty stack
    assert_ok_and_eq(actual.run(Instruction::PushData(456)), false);
    expected.value_stack.push(Word::Data(456));
    assert_eq!(expected, actual);
}

#[test]
fn push_undefined_function() {
    let mut runtime = machine(vec![f("foo")], vec![]);
    let after = machine(vec![f("foo"), f("bar")], vec![]);

    assert_ok_and_eq(runtime.run(pf("bar")), false);
    assert_eq!(after, runtime);
}

#[test]
fn push_defined_function() {
    let mut runtime = machine(vec![], vec![def("foo", 0, vec![])]);
    let after = machine(vec![f("foo")], vec![def("foo", 0, vec![])]);

    assert_ok_and_eq(runtime.run(pf("foo")), false);
    assert_eq!(after, runtime);
}

#[test]
fn push_random() {
    let mut runtime = machine(vec![f("foo"), d(123)], vec![]);

    assert_ok_and_eq(runtime.run(Instruction::PushRandom), false);

    // Check value stack: right length, first few values untouched, new value
    // is any data word
    assert_eq!(runtime.value_stack.len(), 3);
    assert_eq!(
        vec![f("foo"), d(123)],
        runtime.value_stack[..2].to_vec()
    );
    assert!(matches!(runtime.value_stack[2], Word::Data(_)));

    // Compare the rest of the runtime
    assert_eq!(0, runtime.function_table.len());
    assert_eq!(0, runtime.instruction_stack.len());
    assert_eq!(0, runtime.args_array.len());
}

fn swap_table() -> Vec<FunctionDef> {
    vec![def(
        "swap",
        1,
        vec![Instruction::PushArg(0), Instruction::PushArg(1)],
    )]
}

#[test]
fn push_valid_args() {
    let mut runtime = machine(vec![d(123), f("foo")], swap_table());
    runtime.args_array = vec![d(0), d(1)];
    let mut after = machine(vec![d(123), f("foo")], swap_table());
    after.args_array = vec![d(0), d(1)];

    assert_ok_and_eq(runtime.run(Instruction::PushArg(0)), false);
    after.value_stack.push(d(0));
    assert_eq!(after, runtime);

    assert_ok_and_eq(runtime.run(Instruction::PushArg(1)), false);
    after.value_stack.push(d(1));
    assert_eq!(after, runtime);
}

#[test]
fn push_invalid_args() {
    let mut runtime = machine(vec![d(123), f("foo")], swap_table());
    runtime.args_array = vec![d(0), d(1)];
    let mut after = machine(vec![d(123), f("foo")], swap_table());
    after.args_array = vec![d(0), d(1)];

    assert_err_with_msg(runtime.run(Instruction::PushArg(2)), ERR_UNDEFINED);
    assert_eq!(after, runtime);
}

#[test]
fn define() {
    let mut runtime = Runtime::new();
    let instruction = Instruction::Define(
        "foo".to_string(),
        2,
        vec![Instruction::PushData(123), Instruction::PushData(456)],
    );
    let after = machine(
        vec![],
        vec![def(
            "foo",
            2,
            vec![Instruction::PushData(123), Instruction::PushData(456)],
        )],
    );

    assert_ok_and_eq(runtime.run(instruction), false);
    assert_eq!(after, runtime);
}

fn foo_pushes() -> Vec<FunctionDef> {
    vec![def(
        "foo",
        0,
        vec![Instruction::PushData(123), Instruction::PushData(456)],
    )]
}

#[test]
fn callif_true() {
    let mut runtime = machine(
        vec![f("bar"), d(789), d(1), f("foo")],
        foo_pushes(),
    );
    let after = machine(
        vec![f("bar"), d(789), d(123), d(456)],
        foo_pushes(),
    );

    assert_ok_and_eq(runtime.run(Instruction::CallIf), false);
    assert_eq!(after, runtime);
}

fn foo_arity1_table() -> Vec<FunctionDef> {
    vec![def(
        "foo",
        1,
        vec![Instruction::PushData(123), Instruction::PushData(456)],
    )]
}

#[test]
fn callif_false() {
    let mut runtime = machine(vec![d(0), f("foo")], foo_arity1_table());
    let after = machine(vec![], foo_arity1_table());

    assert_ok_and_eq(runtime.run(Instruction::CallIf), false);
    assert_eq!(after, runtime);
}

#[test]
fn callif_undefined() {
    let mut runtime = machine(
        vec![d(1), f("undefined"), d(0), f("undefined")],
        vec![],
    );

    // No problem if the function isn't called
    assert_ok_and_eq(runtime.run(Instruction::CallIf), false);
    let expected = machine(vec![d(1), f("undefined")], vec![]);
    assert_eq!(expected, runtime);

    // Error if the function is called
    assert_err_with_msg(runtime.run(Instruction::CallIf), ERR_UNDEFINED);
    let expected = machine(vec![], vec![]);
    assert_eq!(expected, runtime);
}

fn nested_table() -> Vec<FunctionDef> {
    vec![
        def(
            "foo",
            1,
            vec![
                Instruction::PushArg(0),
                Instruction::PushData(1),
                pf("bar"),
                Instruction::CallIf,
                Instruction::PushData(123),
            ],
        ),
        def(
            "bar",
            0,
            vec![
                Instruction::PushData(1),
                pf("__shift_left__"),
                Instruction::CallIf,
            ],
        ),
    ]
}

#[test]
fn nested_functions_success() {
    let mut runtime = machine(vec![d(3), d(1), f("foo")], nested_table());
    let after = machine(vec![d(6), d(123)], nested_table());

    let res = runtime.run(Instruction::CallIf);
    println!("{res:?}");
    assert_ok_and_eq(res, false);
    assert_eq!(after, runtime);
}

fn bad_table() -> Vec<FunctionDef> {
    vec![
        def(
            "bad",
            1,
            vec![
                Instruction::PushArg(0),
                Instruction::PushData(1),
                pf("empty"),
                Instruction::CallIf,
                Instruction::PushArg(0),
            ],
        ),
        def("empty", 0, vec![]),
    ]
}

#[test]
fn undefined_arg_after_nested_custom_function() {
    let mut runtime = machine(vec![d(3), d(1), f("bad")], bad_table());
    let after = machine(vec![d(3)], bad_table());

    assert_err_with_msg(runtime.run(Instruction::CallIf), ERR_UNDEFINED);
    assert_eq!(after, runtime);
}

fn bad_builtin_table() -> Vec<FunctionDef> {
    vec![def(
        "bad",
        1,
        vec![
            Instruction::PushArg(0),
            Instruction::PushData(1),
            pf("__shift_left__"),
            Instruction::CallIf,
            Instruction::PushArg(0),
        ],
    )]
}

#[test]
fn undefined_arg_after_nested_builtin_function() {
    let mut runtime = machine(vec![d(3), d(1), f("bad")], bad_builtin_table());
    let after = machine(vec![d(6)], bad_builtin_table());

    assert_err_with_msg(runtime.run(Instruction::CallIf), ERR_UNDEFINED);
    assert_eq!(after, runtime);
}

fn foo_bar_table() -> Vec<FunctionDef> {
    vec![
        def(
            "foo",
            1,
            vec![Instruction::PushData(1), pf("bar"), Instruction::CallIf],
        ),
        def("bar", 0, vec![Instruction::PushArg(0)]),
    ]
}

#[test]
fn undefined_arg_in_nested_function() {
    let mut runtime = machine(vec![d(4), d(1), f("foo")], foo_bar_table());
    let after = machine(vec![], foo_bar_table());

    assert_err_with_msg(runtime.run(Instruction::CallIf), ERR_UNDEFINED);
    // Ignore the args array: it doesn't matter whether or not it's cleared
    // right away, as long as args don't leak to the next function call.
    runtime.args_array = vec![];
    assert_eq!(after, runtime);
}

fn successive_table() -> Vec<FunctionDef> {
    vec![
        def("foo", 1, vec![]),
        def("bar", 0, vec![Instruction::PushArg(0)]),
    ]
}

#[test]
fn undefined_arg_in_successive_functions() {
    let mut runtime = machine(
        vec![d(123), d(1), f("bar"), d(456), d(1), f("foo")],
        successive_table(),
    );
    let after_foo = machine(vec![d(123), d(1), f("bar")], successive_table());
    let after_bar = machine(vec![d(123)], successive_table());

    // First call (to foo): no problem
    assert_ok_and_eq(runtime.run(Instruction::CallIf), false);
    runtime.args_array = vec![];
    assert_eq!(after_foo, runtime);

    // Second call (to bar): args from foo should be cleared, so $0 is invalid
    assert_err_with_msg(runtime.run(Instruction::CallIf), ERR_UNDEFINED);
    runtime.args_array = vec![];
    assert_eq!(after_bar, runtime);
}

fn error_table() -> Vec<FunctionDef> {
    vec![
        def("foo", 1, vec![Instruction::PushArg(999)]),
        def("bar", 0, vec![Instruction::PushArg(0)]),
    ]
}

/// Checks that arguments don't leak from one function call to the next after
/// an error.
#[test]
fn undefined_arg_after_error() {
    let mut runtime = machine(
        vec![d(42), d(1), f("bar"), d(123), d(1), f("foo")],
        error_table(),
    );
    let after_foo = machine(vec![d(42), d(1), f("bar")], error_table());
    let after_bar = machine(vec![d(42)], error_table());

    // foo should fail because it's accessing an argument that doesn't exist
    assert_err_with_msg(runtime.run(Instruction::CallIf), ERR_UNDEFINED);
    runtime.args_array = vec![];
    assert_eq!(after_foo, runtime);

    // bar should fail because there's no argument 0 (even though there was an
    // argument 0 in foo)
    assert_err_with_msg(runtime.run(Instruction::CallIf), ERR_UNDEFINED);
    runtime.args_array = vec![];
    assert_eq!(after_bar, runtime);
}

fn exit_table() -> Vec<FunctionDef> {
    vec![def(
        "exit",
        0,
        vec![
            Instruction::PushData(123),
            Instruction::Exit,
            Instruction::PushData(456),
        ],
    )]
}

#[test]
fn callif_exit() {
    let mut runtime = machine(vec![d(1), f("exit")], exit_table());
    let mut after = machine(vec![d(123)], exit_table());
    after.instruction_stack = vec![Instruction::PushData(456)];

    assert_ok_and_eq(runtime.run(Instruction::CallIf), true);
    assert_eq!(after, runtime);
}

fn evil_table() -> Vec<FunctionDef> {
    vec![def(
        "evil",
        0,
        vec![
            Instruction::PushData(123),
            Instruction::PushArg(1),
            Instruction::PushData(456),
        ],
    )]
}

#[test]
fn callif_error() {
    let mut runtime = machine(vec![d(1), f("evil")], evil_table());
    let after = machine(vec![d(123)], evil_table());

    assert_err_with_msg(runtime.run(Instruction::CallIf), ERR_UNDEFINED);
    assert_eq!(after, runtime);
}

#[test]
fn callif_empty_stack() {
    let mut runtime = Runtime::new();

    assert_err_with_msg(runtime.run(Instruction::CallIf), ERR_UNDERFLOW);
    assert_eq!(Runtime::new(), runtime);
}

#[test]
fn callif_almost_empty_stack() {
    let mut runtime = machine(vec![f("foo")], vec![]);

    assert_err_with_msg(runtime.run(Instruction::CallIf), ERR_UNDERFLOW);
    assert_eq!(Runtime::new(), runtime);
}

#[test]
fn callif_data_first() {
    let mut runtime = machine(vec![f("empty"), d(1)], vec![]);

    assert_err_with_msg(runtime.run(Instruction::CallIf), ERR_TYPE);
    assert_eq!(Runtime::new(), runtime);
}

#[test]
fn callif_function_second() {
    let mut runtime = machine(vec![f("empty"), f("empty")], vec![]);

    assert_err_with_msg(runtime.run(Instruction::CallIf), ERR_TYPE);
    assert_eq!(Runtime::new(), runtime);
}

#[test]
fn builtin_nand() {
    let mut runtime = machine(vec![d(12), d(10), d(1), f("__nand__")], vec![]);
    let after = machine(vec![d(4294967287)], vec![]);

    assert_ok_and_eq(runtime.run(Instruction::CallIf), false);
    assert_eq!(after, runtime);
}

#[test]
fn builtin_nand_empty_stack() {
    let mut runtime = machine(vec![d(1), f("__nand__")], vec![]);

    // Only one value on the stack after popping function and data: stack
    // underflow
    assert_err_with_msg(runtime.run(Instruction::CallIf), ERR_UNDERFLOW);
    assert_eq!(Runtime::new(), runtime);
}

#[test]
fn builtin_nand_almost_empty_stack() {
    let mut runtime = machine(vec![f("foo"), d(1), f("__nand__")], vec![]);

    assert_err_with_msg(runtime.run(Instruction::CallIf), ERR_UNDERFLOW);
    assert_eq!(Runtime::new(), runtime);
}

#[test]
fn builtin_nand_function_first() {
    let mut runtime = machine(vec![d(42), f("foo"), d(1), f("__nand__")], vec![]);

    assert_err_with_msg(runtime.run(Instruction::CallIf), ERR_TYPE);
    assert_eq!(Runtime::new(), runtime);
}

#[test]
fn builtin_nand_function_second() {
    let mut runtime = machine(vec![f("foo"), d(42), d(1), f("__nand__")], vec![]);

    assert_err_with_msg(runtime.run(Instruction::CallIf), ERR_TYPE);
    assert_eq!(Runtime::new(), runtime);
}

#[test]
fn builtin_shift_left() {
    // 2^31 + 4 + 1
    let mut runtime = machine(vec![d(2147483653), d(1), f("__shift_left__")], vec![]);
    let after = machine(vec![d(10)], vec![]);

    assert_ok_and_eq(runtime.run(Instruction::CallIf), false);
    assert_eq!(after, runtime);
}

#[test]
fn builtin_shift_left_empty_stack() {
    let mut runtime = machine(vec![d(1), f("__shift_left__")], vec![]);

    assert_err_with_msg(runtime.run(Instruction::CallIf), ERR_UNDERFLOW);
    assert_eq!(Runtime::new(), runtime);
}

#[test]
fn builtin_shift_left_function_first() {
    let mut runtime = machine(vec![f("foo"), d(1), f("__shift_left__")], vec![]);

    assert_err_with_msg(runtime.run(Instruction::CallIf), ERR_TYPE);
    assert_eq!(Runtime::new(), runtime);
}

#[test]
fn builtin_shift_right() {
    // 2^31 + 4 + 1
    let mut runtime = machine(vec![d(2147483653), d(1), f("__shift_right__")], vec![]);
    // 2^30 + 2
    let after = machine(vec![d(1073741826)], vec![]);

    assert_ok_and_eq(runtime.run(Instruction::CallIf), false);
    assert_eq!(after, runtime);
}

#[test]
fn builtin_shift_right_empty_stack() {
    let mut runtime = machine(vec![d(1), f("__shift_right__")], vec![]);

    assert_err_with_msg(runtime.run(Instruction::CallIf), ERR_UNDERFLOW);
    assert_eq!(Runtime::new(), runtime);
}

#[test]
fn builtin_shift_right_function_first() {
    let mut runtime = machine(vec![f("foo"), d(1), f("__shift_right__")], vec![]);

    assert_err_with_msg(runtime.run(Instruction::CallIf), ERR_TYPE);
    assert_eq!(Runtime::new(), runtime);
}

#[test]
fn exit() {
    let mut runtime = Runtime::new();

    assert_ok_and_eq(runtime.run(Instruction::Exit), true);
    assert_eq!(Runtime::new(), runtime);
}

#[test]
fn args_bind_in_pop_order() {
    // Pushing Data(1) then Data(2) before a call of arity 2 binds argument 0
    // to the word nearest the top.
    let table = vec![def("two", 2, vec![])];
    let mut runtime = machine(vec![d(1), d(2), d(1), f("two")], table);

    assert_ok_and_eq(runtime.run(Instruction::CallIf), false);
    assert_eq!(vec![d(2), d(1)], runtime.args_array);
    assert_eq!(0, runtime.value_stack.len());
}

#[test]
fn deep_mutual_recursion() {
    // Function a calls b, which calls a again, each level consuming one
    // counter word; a hundred thousand levels complete on program logic
    // alone, because the trampoline never grows the native call stack.
    let table = vec![
        def("a", 0, vec![pf("b"), Instruction::CallIf]),
        def("b", 0, vec![pf("a"), Instruction::CallIf]),
    ];
    let mut value_stack = vec![d(0)];
    for _ in 0..100_000 {
        value_stack.push(d(1));
    }
    let mut runtime = machine(value_stack, table);

    assert_ok_and_eq(runtime.run(pf("a")), false);
    assert_ok_and_eq(runtime.run(Instruction::CallIf), false);
    assert_eq!(0, runtime.value_stack.len());
    assert_eq!(0, runtime.instruction_stack.len());
}

#[test]
fn undefined_builtin() {
    let mut runtime = machine(vec![d(1), f("__missing__")], vec![]);

    assert_err_with_msg(runtime.run(Instruction::CallIf), ERR_UNDEFINED);
    assert_eq!(Runtime::new(), runtime);
}

#[test]
fn redefinition_overwrites() {
    let mut runtime = Runtime::new();
    assert_ok_and_eq(
        runtime.run(Instruction::Define("foo".to_string(), 0, vec![])),
        false,
    );
    assert_ok_and_eq(
        runtime.run(Instruction::Define(
            "foo".to_string(),
            0,
            vec![Instruction::PushData(7)],
        )),
        false,
    );
    let after = machine(vec![], vec![def("foo", 0, vec![Instruction::PushData(7)])]);
    assert_eq!(after, runtime);

    // the overwritten body runs
    assert_ok_and_eq(runtime.run(Instruction::PushData(1)), false);
    assert_ok_and_eq(runtime.run(pf("foo")), false);
    assert_ok_and_eq(runtime.run(Instruction::CallIf), false);
    assert_eq!(vec![d(7)], runtime.value_stack);
}

#[test]
fn stack_rendering() {
    let mut runtime = machine(vec![d(1), f("foo"), d(4294967295)], vec![]);
    assert_eq!(
        "[1, function foo, 4294967295]  <-- top",
        runtime.stack_to_string()
    );

    let mut empty = Runtime::new();
    assert_eq!("[]  <-- top", empty.stack_to_string());
}
