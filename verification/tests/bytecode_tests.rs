use implicit::bytecode::{
    can_compile, compile, declare_variables, max_depth_transforms, Ast, CompilationResult, Opcodes,
};

const X: u8 = 3;
const Y: u8 = 4;
const Z: u8 = 5;
const CONSTANT_SMALL: u8 = 6;
const DIST_TO_LINE: u8 = 7;
const COLLECT_POLY: u8 = 8;
const PUSH_TRANSFORM: u8 = 9;
const POP_TRANSFORM: u8 = 10;
const SUB: u8 = 11;
const ADD: u8 = 12;
const MUL: u8 = 13;
const MAX: u8 = 14;
const MIN: u8 = 15;
const ABS: u8 = 16;
const SQRT: u8 = 17;
const NEG: u8 = 18;
const SQUARE: u8 = 19;

fn ops() -> Opcodes {
    Opcodes {
        x: X,
        y: Y,
        z: Z,
        constant_small: CONSTANT_SMALL,
        dist_to_line: DIST_TO_LINE,
        collect_poly: COLLECT_POLY,
        push_transform: PUSH_TRANSFORM,
        pop_transform: POP_TRANSFORM,
        sub: SUB,
        add: ADD,
        mul: MUL,
        max: MAX,
        min: MIN,
        abs: ABS,
        sqrt: SQRT,
        neg: NEG,
        square: SQUARE,
        buffer_count: 3,
    }
}

fn key(v: f32) -> u32 {
    v.to_bits()
}

fn constant(v: f32) -> Ast {
    Ast::Constant(key(v))
}

fn check(r: CompilationResult, code: Vec<u8>, constants: Vec<f32>, max_stack: u32, transform_depth: u32, buffers: Vec<usize>) {
    assert_eq!(r.code, code);
    assert_eq!(r.constants, constants.into_iter().map(key).collect::<Vec<_>>());
    assert_eq!(r.max_stack, max_stack);
    assert_eq!(r.transform_depth, transform_depth);
    assert_eq!(r.buffers, buffers);
}

#[test]
fn compile_basic_constant() {
    check(compile(&constant(10.0), &ops()), vec![CONSTANT_SMALL, 0], vec![10.0], 1, 0, vec![]);
}

#[test]
fn compile_x() {
    check(compile(&Ast::X, &ops()), vec![X], vec![], 1, 1, vec![]);
}

#[test]
fn compile_basic_buffer() {
    check(compile(&Ast::Buffer(0), &ops()), vec![0], vec![], 1, 0, vec![0]);
}

#[test]
fn compile_basic_max() {
    check(
        compile(&Ast::Max(vec![constant(10.0), constant(5.0)]), &ops()),
        vec![CONSTANT_SMALL, 0, CONSTANT_SMALL, 1, MAX],
        vec![10.0, 5.0],
        2,
        0,
        vec![],
    );
}

#[test]
fn compile_more_max() {
    check(
        compile(&Ast::Max(vec![constant(10.0), constant(5.0), constant(2.0)]), &ops()),
        vec![CONSTANT_SMALL, 0, CONSTANT_SMALL, 1, MAX, CONSTANT_SMALL, 2, MAX],
        vec![10.0, 5.0, 2.0],
        2,
        0,
        vec![],
    );
}

#[test]
fn compile_a_transform() {
    let translation: [f32; 16] = [
        1.0, 0.0, 0.0, 0.0, 0.0, 1.0, 0.0, 0.0, 0.0, 0.0, 1.0, 0.0, 2.0, 2.0, 2.0, 1.0,
    ];
    let mut matrix = [0u32; 16];
    for i in 0..16 {
        matrix[i] = key(translation[i]);
    }
    check(
        compile(
            &Ast::Transform { target: Box::new(Ast::Max(vec![Ast::X, Ast::Y])), matrix },
            &ops(),
        ),
        vec![
            PUSH_TRANSFORM, 0, 1, 1, 1, 1, 0, 1, 1, 1, 1, 0, 1, 2, 2, 2, 0, X, Y, MAX,
            POP_TRANSFORM,
        ],
        vec![1.0, 0.0, 2.0],
        2,
        2,
        vec![],
    );
}

#[test]
fn repeated_constants_share_a_slot() {
    let ast = Ast::Sub(
        Box::new(Ast::Add(vec![constant(1.5), Ast::Z, constant(4.0)])),
        Box::new(Ast::Neg(Box::new(Ast::Mul(vec![constant(4.0), constant(1.5), Ast::Buffer(7)])))),
    );
    check(
        compile(&ast, &ops()),
        vec![
            CONSTANT_SMALL, 0, Z, ADD, CONSTANT_SMALL, 1, ADD, CONSTANT_SMALL, 1, CONSTANT_SMALL, 0,
            MUL, 0, MUL, NEG, SUB,
        ],
        vec![1.5, 4.0],
        3,
        1,
        vec![7],
    );
}

#[test]
fn polygons_and_unary_operators() {
    let ast = Ast::Square(Box::new(Ast::Abs(Box::new(Ast::Sqrt(Box::new(Ast::DistToPoly(vec![
        (key(0.0), key(0.0), key(1.0), key(0.0)),
        (key(1.0), key(0.0), key(0.0), key(2.0)),
    ])))))));
    check(
        compile(&ast, &ops()),
        vec![
            DIST_TO_LINE, 0, 0, 1, 0, DIST_TO_LINE, 1, 0, 0, 2, COLLECT_POLY, 2, SQRT, ABS, SQUARE,
        ],
        vec![0.0, 1.0, 2.0],
        2,
        1,
        vec![],
    );
}

#[test]
fn buffers_are_numbered_in_order() {
    let ast = Ast::Min(vec![Ast::Buffer(5), Ast::Buffer(9)]);
    check(compile(&ast, &ops()), vec![0, 1, MIN], vec![], 2, 0, vec![5, 9]);
}

#[test]
fn operators_need_operands() {
    assert!(can_compile(&Ast::Add(vec![Ast::X]), &ops()));
    assert!(!can_compile(&Ast::Add(vec![]), &ops()));
    assert!(!can_compile(&Ast::Neg(Box::new(Ast::Max(vec![]))), &ops()));
}

#[test]
fn limits_of_the_machine() {
    let edges = |n: u32| Ast::DistToPoly((0..n).map(|i| (0, 0, 0, i % 4)).collect());
    assert!(can_compile(&edges(255), &ops()));
    assert!(!can_compile(&edges(256), &ops()));
    let bufs = |n: usize| Ast::Add((0..n).map(Ast::Buffer).collect());
    assert!(can_compile(&bufs(2), &ops()));
    assert!(!can_compile(&bufs(3), &ops()));
    let consts = |keys: Vec<u32>| Ast::Add(keys.into_iter().map(Ast::Constant).collect());
    assert!(can_compile(&consts((0..255).collect()), &ops()));
    let mut keys: Vec<u32> = (0..255).collect();
    keys.push(3);
    keys.push(3);
    assert!(can_compile(&consts(keys.clone()), &ops()) == false);
    keys.truncate(256);
    assert!(!can_compile(&consts(keys), &ops()));
    let mut keys: Vec<u32> = (0..254).collect();
    keys.push(3);
    keys.push(300);
    assert!(can_compile(&consts(keys), &ops()));
}

#[test]
fn last_constant_may_fill_the_table() {
    let keys: Vec<u32> = (0..255).collect();
    let r = compile(&Ast::Add(keys.iter().map(|k| Ast::Constant(*k)).collect()), &ops());
    assert_eq!(r.constants, keys);
    assert_eq!(r.code[r.code.len() - 2], 254);
}

fn moved(target: Ast) -> Ast {
    Ast::Transform { target: Box::new(target), matrix: [0; 16] }
}

#[test]
fn nesting_of_transforms() {
    assert_eq!(max_depth_transforms(&Ast::X), 0);
    assert_eq!(max_depth_transforms(&moved(Ast::X)), 1);
    let ast = Ast::Add(vec![moved(moved(Ast::Y)), moved(Ast::Z), Ast::Neg(Box::new(moved(moved(moved(Ast::X)))))]);
    assert_eq!(max_depth_transforms(&ast), 3);
    assert_eq!(max_depth_transforms(&Ast::Sub(Box::new(moved(Ast::X)), Box::new(Ast::Constant(1)))), 1);
}

#[test]
fn variables_of_compiled_code() {
    assert_eq!(declare_variables(&Ast::X), vec!["x", "y", "z"]);
    assert_eq!(
        declare_variables(&moved(Ast::Max(vec![moved(Ast::X), Ast::Y]))),
        vec!["x", "y", "z", "x_0", "y_0", "z_0", "w_0", "x_1", "y_1", "z_1", "w_1"]
    );
}
