use implicit::compiler::{can_compile, compile, CompilationContext, Node};
use implicit::nodes::Circle;

fn circle(x: &str, y: &str, r: &str) -> Node {
    Node::Circle { x: x.to_string(), y: y.to_string(), r: r.to_string() }
}

const PREAMBLE: &str = "
__kernel void apply(__global float* buffer, size_t width) {
  size_t x = get_global_id(0);
  size_t y = get_global_id(1);
  size_t pos = x + y * width;

  float x_s = (float) x;
  float y_s = (float) y;
";

#[test]
fn get_id_counts_up() {
    let mut cc = CompilationContext::new();
    assert_eq!(cc.get_id("circle"), "circle_0");
    assert_eq!(cc.get_id("dx"), "dx_1");
    for _ in 0..8 {
        cc.get_id("x");
    }
    assert_eq!(cc.get_id("and"), "and_10");
    assert_eq!(cc.get_x(), "x_s");
    assert_eq!(cc.get_y(), "y_s");
}

#[test]
fn compile_single_circle() {
    let out = compile(&circle("50", "50", "50"));
    let expected = format!(
        "{}\n  float circle_0;\n  {{\n    float dx_1 = x_s - 50;\n    float dy_2 = y_s - 50;\n    circle_0 = sqrt(dx_1 * dx_1 + dy_2 * dy_2) - 50;\n  }}\n\n  buffer[pos] = circle_0; \n}}\n",
        PREAMBLE
    );
    assert_eq!(out, expected);
}

#[test]
fn compile_not_and_or() {
    let node = Node::Or(vec![
        Node::And(vec![circle("1", "2", "3")]),
        Node::Not(Box::new(circle("4", "5", "6"))),
        circle("7", "8", "9"),
    ]);
    let out = compile(&node);
    let c = |n: usize, x: &str, y: &str, r: &str| {
        format!(
            "\n  float circle_{0};\n  {{\n    float dx_{1} = x_s - {3};\n    float dy_{2} = y_s - {4};\n    circle_{0} = sqrt(dx_{1} * dx_{1} + dy_{2} * dy_{2}) - {5};\n  }}\n",
            n,
            n + 1,
            n + 2,
            x,
            y,
            r
        )
    };
    // Three children: the first one alone, then the last two combined.
    let expected = format!(
        "{}{}{}\n  float not_6 = - circle_3;\n{}\n  float or_10 = min(not_6, circle_7);\n\n  float or_11 = min(circle_0, or_10);\n\n  buffer[pos] = or_11; \n}}\n",
        PREAMBLE,
        c(0, "1", "2", "3"),
        c(3, "4", "5", "6"),
        c(7, "7", "8", "9")
    );
    assert_eq!(out, expected);
}

#[test]
fn compile_and_uses_max() {
    let node = Node::And(vec![circle("0", "0", "1"), circle("1", "1", "1")]);
    let out = compile(&node);
    assert!(out.contains("\n  float and_6 = max(circle_0, circle_3);\n"));
    assert!(out.ends_with("  buffer[pos] = and_6; \n}\n"));
}

#[test]
fn basic_test() {
    let mut cc = CompilationContext::new();
    let c = Circle { position: ("100".to_string(), "200".to_string()), radius: "30".to_string() };
    let (stage, _) = c.compile(&mut cc);

    assert_eq!(stage.result, "circle_0");
    assert_eq!(
        stage.lines,
        vec![
            "float dx_1 = x_s - 100;".to_string(),
            "float dy_2 = y_s - 200;".to_string(),
            "circle_0 = sqrt(dx_1 * dx_1 + dy_2 * dy_2) - 30;".to_string(),
        ]
    );
}

#[test]
fn empty_combinations_are_refused() {
    let c = || circle("0", "0", "1");
    assert!(can_compile(&c()));
    assert!(can_compile(&Node::Not(Box::new(Node::Or(vec![c(), Node::And(vec![c()])])))));
    assert!(!can_compile(&Node::And(vec![])));
    assert!(!can_compile(&Node::Or(vec![c(), Node::Not(Box::new(Node::And(vec![])))])));
}
