use vstd::prelude::*;
use crate::text::{decimal, lemma_decimal_injective, push_decimal};

verus! {

/// A shape tree in the form the kernel compiler consumes. The circle's
/// centre and radius are carried as the decimal text that is spliced into
/// the kernel source.
pub enum Node {
    Circle { x: String, y: String, r: String },
    And(Vec<Node>),
    Or(Vec<Node>),
    Not(Box<Node>),
}

/// Hands out the identifiers of the generated kernel variables.
pub struct CompilationContext {
    identifier_id: usize,
}

/// The identifier `prefix_n`.
pub open spec fn ident(prefix: Seq<char>, n: nat) -> Seq<char> {
    prefix + seq!['_'] + decimal(n)
}

/// Every `And` and `Or` in the tree has at least one child.
pub open spec fn compilable(node: Node) -> bool
    decreases node,
{
    match node {
        Node::Circle { .. } => true,
        Node::And(children) => children@.len() > 0 && all_compilable(children@),
        Node::Or(children) => children@.len() > 0 && all_compilable(children@),
        Node::Not(child) => compilable(*child),
    }
}

/// Every tree in `nodes` is compilable.
pub open spec fn all_compilable(nodes: Seq<Node>) -> bool
    decreases nodes,
{
    if nodes.len() == 0 {
        true
    } else {
        compilable(nodes[0]) && all_compilable(nodes.subrange(1, nodes.len() as int))
    }
}

/// `all_compilable` holds exactly when each element is compilable.
pub proof fn lemma_all_compilable(nodes: Seq<Node>)
    ensures
        all_compilable(nodes) <==> forall|i: int|
            0 <= i < nodes.len() ==> #[trigger] compilable(nodes[i]),
    decreases nodes.len(),
{
    if nodes.len() > 0 {
        let rest = nodes.subrange(1, nodes.len() as int);
        lemma_all_compilable(rest);
        if forall|i: int| 0 <= i < nodes.len() ==> #[trigger] compilable(nodes[i]) {
            assert forall|i: int| 0 <= i < rest.len() implies #[trigger] compilable(rest[i]) by {
                assert(rest[i] == nodes[i + 1]);
            }
            assert(compilable(nodes[0]));
            assert(all_compilable(nodes));
        }
        if all_compilable(nodes) {
            assert forall|i: int| 0 <= i < nodes.len() implies #[trigger] compilable(nodes[i]) by {
                if i > 0 {
                    assert(nodes[i] == rest[i - 1]);
                }
            }
        }
    }
}

/// The block that evaluates a circle's signed distance into `res`.
pub open spec fn circle_text(
    res: Seq<char>,
    dx: Seq<char>,
    dy: Seq<char>,
    cx: Seq<char>,
    cy: Seq<char>,
    radius: Seq<char>,
) -> Seq<char> {
    "\n  float "@ + res + ";\n  {\n    float "@ + dx + " = "@ + "x_s"@ + " - "@ + cx
        + ";\n    float "@ + dy + " = "@ + "y_s"@ + " - "@ + cy + ";\n    "@ + res
        + " = sqrt("@ + dx + " * "@ + dx + " + "@ + dy + " * "@ + dy + ") - "@ + radius
        + ";\n  }\n"@
}

/// The line that combines two partial results: `max` for an intersection,
/// `min` for a union.
pub open spec fn combine_text(is_and: bool, res: Seq<char>, a: Seq<char>, b: Seq<char>) -> Seq<
    char,
> {
    "\n  float "@ + res + (if is_and {
        " = max("@
    } else {
        " = min("@
    }) + a + ", "@ + b + ");\n"@
}

/// The line that negates a partial result.
pub open spec fn not_text(res: Seq<char>, val: Seq<char>) -> Seq<char> {
    "\n  float "@ + res + " = - "@ + val + ";\n"@
}

/// The prefix of the identifier that holds a combination.
pub open spec fn combine_prefix(is_and: bool) -> Seq<char> {
    if is_and {
        "and"@
    } else {
        "or"@
    }
}

/// What compiling `node` with the next identifier number `id` appends to the
/// kernel body, the variable that holds its value, and the next identifier
/// number afterwards.
pub open spec fn comp_spec(node: Node, id: nat) -> (Seq<char>, Seq<char>, nat)
    decreases node,
{
    match node {
        Node::Circle { x, y, r } => {
            let res = ident("circle"@, id);
            let dx = ident("dx"@, id + 1);
            let dy = ident("dy"@, id + 2);
            (circle_text(res, dx, dy, x@, y@, r@), res, id + 3)
        },
        Node::And(children) => comp_list_spec(true, children@, id),
        Node::Or(children) => comp_list_spec(false, children@, id),
        Node::Not(child) => {
            let (t, v, n) = comp_spec(*child, id);
            let res = ident("not"@, n);
            (t + not_text(res, v), res, n + 1)
        },
    }
}

/// Compiling an `And` (`is_and`) or `Or` over `children`: a single child is
/// compiled directly; otherwise the first half and the second half are
/// compiled in turn and their results combined.
pub open spec fn comp_list_spec(is_and: bool, children: Seq<Node>, id: nat) -> (
    Seq<char>,
    Seq<char>,
    nat,
)
    decreases children,
{
    if children.len() == 0 {
        (seq![], seq![], id)
    } else if children.len() == 1 {
        comp_spec(children[0], id)
    } else {
        let mid = children.len() / 2;
        let (lt, lr, n1) = comp_list_spec(is_and, children.subrange(0, mid as int), id);
        let (rt, rr, n2) = comp_list_spec(
            is_and,
            children.subrange(mid as int, children.len() as int),
            n1,
        );
        let res = ident(combine_prefix(is_and), n2);
        (lt + rt + combine_text(is_and, res, lr, rr), res, n2 + 1)
    }
}

/// Compiling uses at least one fresh identifier.
pub proof fn lemma_ids_advance(node: Node, id: nat)
    requires
        compilable(node),
    ensures
        comp_spec(node, id).2 > id,
    decreases node,
{
    match node {
        Node::Circle { .. } => {},
        Node::And(children) => {
            lemma_all_compilable(children@);
            lemma_list_ids_advance(true, children@, id);
        },
        Node::Or(children) => {
            lemma_all_compilable(children@);
            lemma_list_ids_advance(false, children@, id);
        },
        Node::Not(child) => {
            lemma_ids_advance(*child, id);
        },
    }
}

/// Compiling a non-empty list of compilable children uses at least one
/// fresh identifier.
pub proof fn lemma_list_ids_advance(is_and: bool, children: Seq<Node>, id: nat)
    requires
        children.len() > 0,
        forall|i: int| 0 <= i < children.len() ==> #[trigger] compilable(children[i]),
    ensures
        comp_list_spec(is_and, children, id).2 > id,
    decreases children,
{
    if children.len() == 1 {
        lemma_ids_advance(children[0], id);
    } else {
        let mid = children.len() / 2;
        let left = children.subrange(0, mid as int);
        let right = children.subrange(mid as int, children.len() as int);
        assert forall|i: int| 0 <= i < left.len() implies #[trigger] compilable(left[i]) by {
            assert(left[i] == children[i]);
        }
        assert forall|i: int| 0 <= i < right.len() implies #[trigger] compilable(right[i]) by {
            assert(right[i] == children[i + mid]);
        }
        lemma_list_ids_advance(is_and, left, id);
        let n1 = comp_list_spec(is_and, left, id).2;
        lemma_list_ids_advance(is_and, right, n1);
    }
}

impl CompilationContext {
    /// The number that the next identifier will carry.
    pub closed spec fn next_id(&self) -> nat {
        self.identifier_id as nat
    }

    /// A context whose first identifier is numbered zero.
    pub fn new() -> (r: CompilationContext)
        ensures
            r.next_id() == 0,
    {
        CompilationContext { identifier_id: 0 }
    }

    /// The kernel variable that holds the sample's x coordinate.
    pub fn get_x(&self) -> (r: &'static str)
        ensures
            r@ == "x_s"@,
    {
        "x_s"
    }

    /// The kernel variable that holds the sample's y coordinate.
    pub fn get_y(&self) -> (r: &'static str)
        ensures
            r@ == "y_s"@,
    {
        "y_s"
    }

    /// A fresh identifier `prefix_n`, where `n` is the next number.
    pub fn get_id(&mut self, prefix: &str) -> (r: String)
        requires
            old(self).next_id() < usize::MAX,
        ensures
            r@ == ident(prefix@, old(self).next_id()),
            final(self).next_id() == old(self).next_id() + 1,
    {
        let mut r = String::from_str(prefix);
        proof {
            reveal_strlit("_");
        }
        r.append("_");
        push_decimal(&mut r, self.identifier_id);
        self.identifier_id = self.identifier_id + 1;
        r
    }
}

/// Appends the code for `node` to `buff` and returns the variable holding
/// its value.
fn comp(node: &Node, cc: &mut CompilationContext, buff: &mut String) -> (res: String)
    requires
        compilable(*node),
        comp_spec(*node, old(cc).next_id()).2 <= usize::MAX,
    ensures
        final(buff)@ == old(buff)@ + comp_spec(*node, old(cc).next_id()).0,
        res@ == comp_spec(*node, old(cc).next_id()).1,
        final(cc).next_id() == comp_spec(*node, old(cc).next_id()).2,
    decreases node,
{
    match node {
        Node::Circle { x, y, r } => {
            let res = cc.get_id("circle");
            let dx = cc.get_id("dx");
            let dy = cc.get_id("dy");
            append_circle(buff, &res, &dx, &dy, x, y, r);
            res
        },
        Node::And(children) => {
            proof {
                lemma_all_compilable(children@);
            }
            comp_list(true, children.as_slice(), cc, buff)
        },
        Node::Or(children) => {
            proof {
                lemma_all_compilable(children@);
            }
            comp_list(false, children.as_slice(), cc, buff)
        },
        Node::Not(child) => {
            let ghost id0 = cc.next_id();
            proof {
                lemma_ids_advance(**child, id0);
            }
            let child_result = comp(child, cc, buff);
            let res = cc.get_id("not");
            append_not(buff, &res, &child_result);
            res
        },
    }
}

/// Appends the code for the `And` (`is_and`) or `Or` of `children` to `buff`
/// and returns the variable holding its value.
fn comp_list(is_and: bool, children: &[Node], cc: &mut CompilationContext, buff: &mut String) -> (res:
    String)
    requires
        children@.len() > 0,
        forall|i: int| 0 <= i < children@.len() ==> #[trigger] compilable(children@[i]),
        comp_list_spec(is_and, children@, old(cc).next_id()).2 <= usize::MAX,
    ensures
        final(buff)@ == old(buff)@ + comp_list_spec(is_and, children@, old(cc).next_id()).0,
        res@ == comp_list_spec(is_and, children@, old(cc).next_id()).1,
        final(cc).next_id() == comp_list_spec(is_and, children@, old(cc).next_id()).2,
    decreases children@,
{
    let n = children.len();
    if n == 1 {
        return comp(&children[0], cc, buff);
    }
    let ghost id0 = cc.next_id();
    let mid = n / 2;
    let (left, right) = children.split_at(mid);
    proof {
        assert forall|i: int| 0 <= i < left@.len() implies #[trigger] compilable(left@[i]) by {
            assert(left@[i] == children@[i]);
        }
        assert forall|i: int| 0 <= i < right@.len() implies #[trigger] compilable(right@[i]) by {
            assert(right@[i] == children@[i + mid]);
        }
        lemma_list_ids_advance(is_and, right@, comp_list_spec(is_and, left@, id0).2);
    }
    let res_left = comp_list(is_and, left, cc, buff);
    let res_right = comp_list(is_and, right, cc, buff);
    let res = if is_and {
        cc.get_id("and")
    } else {
        cc.get_id("or")
    };
    append_combine(buff, is_and, &res, &res_left, &res_right);
    res
}

/// Appends `circle_text` to `buff`.
fn append_circle(
    buff: &mut String,
    res: &String,
    dx: &String,
    dy: &String,
    x: &String,
    y: &String,
    r: &String,
)
    ensures
        final(buff)@ == old(buff)@ + circle_text(res@, dx@, dy@, x@, y@, r@),
{
    buff.append("\n  float ");
    buff.append(res.as_str());
    buff.append(";\n  {\n    float ");
    buff.append(dx.as_str());
    buff.append(" = ");
    buff.append("x_s");
    buff.append(" - ");
    buff.append(x.as_str());
    buff.append(";\n    float ");
    buff.append(dy.as_str());
    buff.append(" = ");
    buff.append("y_s");
    buff.append(" - ");
    buff.append(y.as_str());
    buff.append(";\n    ");
    buff.append(res.as_str());
    buff.append(" = sqrt(");
    buff.append(dx.as_str());
    buff.append(" * ");
    buff.append(dx.as_str());
    buff.append(" + ");
    buff.append(dy.as_str());
    buff.append(" * ");
    buff.append(dy.as_str());
    buff.append(") - ");
    buff.append(r.as_str());
    buff.append(";\n  }\n");
    assert(buff@ =~= old(buff)@ + circle_text(res@, dx@, dy@, x@, y@, r@));
}

/// Appends `not_text` to `buff`.
fn append_not(buff: &mut String, res: &String, val: &String)
    ensures
        final(buff)@ == old(buff)@ + not_text(res@, val@),
{
    buff.append("\n  float ");
    buff.append(res.as_str());
    buff.append(" = - ");
    buff.append(val.as_str());
    buff.append(";\n");
    assert(buff@ =~= old(buff)@ + not_text(res@, val@));
}

/// Appends `combine_text` to `buff`.
fn append_combine(buff: &mut String, is_and: bool, res: &String, a: &String, b: &String)
    ensures
        final(buff)@ == old(buff)@ + combine_text(is_and, res@, a@, b@),
{
    buff.append("\n  float ");
    buff.append(res.as_str());
    if is_and {
        buff.append(" = max(");
    } else {
        buff.append(" = min(");
    }
    buff.append(a.as_str());
    buff.append(", ");
    buff.append(b.as_str());
    buff.append(");\n");
    assert(buff@ =~= old(buff)@ + combine_text(is_and, res@, a@, b@));
}

/// The kernel header: signature, sample position and sample coordinates.
pub open spec fn preamble() -> Seq<char> {
    "\n__kernel void apply(__global float* buffer, size_t width) {\n  size_t x = get_global_id(0);\n  size_t y = get_global_id(1);\n  size_t pos = x + y * width;\n\n  float x_s = (float) x;\n  float y_s = (float) y;\n"@
}

/// The complete OpenCL kernel that evaluates `node` at every sample and
/// stores the value in `buffer`.
pub open spec fn kernel_source(node: Node) -> Seq<char> {
    let (body, result, _) = comp_spec(node, 0);
    preamble() + body + "\n"@ + "  buffer[pos] = "@ + result + "; \n}\n"@
}

/// Compiles `node` into the source of an OpenCL kernel named `apply`.
pub fn compile(node: &Node) -> (r: String)
    requires
        compilable(*node),
        comp_spec(*node, 0).2 <= usize::MAX,
    ensures
        r@ == kernel_source(*node),
{
    let mut cc = CompilationContext::new();
    let mut buffer = String::from_str(
        "\n__kernel void apply(__global float* buffer, size_t width) {\n  size_t x = get_global_id(0);\n  size_t y = get_global_id(1);\n  size_t pos = x + y * width;\n\n  float x_s = (float) x;\n  float y_s = (float) y;\n",
    );
    let final_result = comp(node, &mut cc, &mut buffer);
    buffer.append("\n");
    buffer.append("  buffer[pos] = ");
    buffer.append(final_result.as_str());
    buffer.append("; \n}\n");
    assert(buffer@ =~= kernel_source(*node));
    buffer
}

/// Identifiers with the same prefix and different numbers differ, so the
/// names a context hands out for one prefix never repeat.
pub proof fn lemma_ident_injective(prefix: Seq<char>, n: nat, m: nat)
    requires
        n != m,
    ensures
        ident(prefix, n) != ident(prefix, m),
{
    if ident(prefix, n) == ident(prefix, m) {
        let k = prefix.len() + 1;
        assert(decimal(n) =~= ident(prefix, n).subrange(k as int, ident(prefix, n).len() as int));
        assert(decimal(m) =~= ident(prefix, m).subrange(k as int, ident(prefix, m).len() as int));
        lemma_decimal_injective(n, m);
    }
}

/// Whether every `And` and `Or` of `node` has a child (see `compilable`),
/// the condition under which `compile` accepts it.
pub fn can_compile(node: &Node) -> (r: bool)
    ensures
        r == compilable(*node),
    decreases node,
{
    match node {
        Node::Circle { .. } => true,
        Node::And(children) => children.len() > 0 && all_can_compile(children),
        Node::Or(children) => children.len() > 0 && all_can_compile(children),
        Node::Not(child) => can_compile(&**child),
    }
}

/// Whether every tree of `nodes` is compilable.
fn all_can_compile(nodes: &Vec<Node>) -> (r: bool)
    ensures
        r == all_compilable(nodes@),
    decreases nodes@,
{
    proof {
        lemma_all_compilable(nodes@);
    }
    let mut i: usize = 0;
    while i < nodes.len()
        invariant
            i <= nodes@.len(),
            forall|j: int| 0 <= j < i ==> #[trigger] compilable(nodes@[j]),
        decreases nodes@.len() - i,
    {
        if !can_compile(&nodes[i]) {
            proof {
                lemma_all_compilable(nodes@);
            }
            return false;
        }
        i = i + 1;
    }
    true
}

/// The larger of two values.
pub open spec fn larger(a: int, b: int) -> int {
    if a >= b {
        a
    } else {
        b
    }
}

/// The smaller of two values.
pub open spec fn smaller(a: int, b: int) -> int {
    if a <= b {
        a
    } else {
        b
    }
}

/// The signed distance that a shape tree describes, given the distance
/// `leaf(x, y, r)` of each circle: an intersection is the largest distance
/// of its children, a union the smallest, and a complement the negation.
pub open spec fn denote(node: Node, leaf: spec_fn(Seq<char>, Seq<char>, Seq<char>) -> int) -> int
    decreases node,
{
    match node {
        Node::Circle { x, y, r } => leaf(x@, y@, r@),
        Node::And(children) => denote_list(true, children@, leaf),
        Node::Or(children) => denote_list(false, children@, leaf),
        Node::Not(child) => -denote(*child, leaf),
    }
}

/// The largest (`is_and`) or smallest distance among `children`.
pub open spec fn denote_list(
    is_and: bool,
    children: Seq<Node>,
    leaf: spec_fn(Seq<char>, Seq<char>, Seq<char>) -> int,
) -> int
    decreases children,
{
    if children.len() == 0 {
        0
    } else if children.len() == 1 {
        denote(children[0], leaf)
    } else {
        let rest = denote_list(is_and, children.drop_last(), leaf);
        let last = denote(children.last(), leaf);
        if is_and {
            larger(rest, last)
        } else {
            smaller(rest, last)
        }
    }
}

/// What a kernel statement assigns to its variable.
pub ghost enum Rhs {
    /// The distance to the circle of centre `(x, y)` and radius `r`,
    /// computed through the block-local offsets `dx` and `dy`.
    Circle { dx: Seq<char>, dy: Seq<char>, x: Seq<char>, y: Seq<char>, r: Seq<char> },
    /// The larger of two variables.
    Max(Seq<char>, Seq<char>),
    /// The smaller of two variables.
    Min(Seq<char>, Seq<char>),
    /// The negation of a variable.
    Neg(Seq<char>),
}

/// The source text of the statement assigning `rhs` to the variable `v`.
pub open spec fn stmt_text(v: Seq<char>, rhs: Rhs) -> Seq<char> {
    match rhs {
        Rhs::Circle { dx, dy, x, y, r } => "\n  float "@ + v + ";\n  {\n    float "@ + dx + " = "@ + "x_s"@
            + " - "@ + x + ";\n    float "@ + dy + " = "@ + "y_s"@ + " - "@ + y + ";\n    "@ + v
            + " = sqrt("@ + dx + " * "@ + dx + " + "@ + dy + " * "@ + dy + ") - "@ + r
            + ";\n  }\n"@,
        Rhs::Max(a, b) => "\n  float "@ + v + " = max("@ + a + ", "@ + b + ");\n"@,
        Rhs::Min(a, b) => "\n  float "@ + v + " = min("@ + a + ", "@ + b + ");\n"@,
        Rhs::Neg(a) => "\n  float "@ + v + " = - "@ + a + ";\n"@,
    }
}

/// The source text of a statement list.
pub open spec fn stmts_text(s: Seq<(Seq<char>, Rhs)>) -> Seq<char>
    decreases s.len(),
{
    if s.len() == 0 {
        seq![]
    } else {
        stmts_text(s.drop_last()) + stmt_text(s.last().0, s.last().1)
    }
}

/// The value a statement assigns, with the variables holding `e` and each
/// circle at distance `leaf(x, y, r)`.
pub open spec fn rhs_value(
    rhs: Rhs,
    e: spec_fn(Seq<char>) -> int,
    leaf: spec_fn(Seq<char>, Seq<char>, Seq<char>) -> int,
) -> int {
    match rhs {
        Rhs::Circle { x, y, r, .. } => leaf(x, y, r),
        Rhs::Max(a, b) => larger(e(a), e(b)),
        Rhs::Min(a, b) => smaller(e(a), e(b)),
        Rhs::Neg(a) => -e(a),
    }
}

/// The variables after running the statements `s` in order from `env`.
pub open spec fn run(
    s: Seq<(Seq<char>, Rhs)>,
    env: spec_fn(Seq<char>) -> int,
    leaf: spec_fn(Seq<char>, Seq<char>, Seq<char>) -> int,
) -> spec_fn(Seq<char>) -> int
    decreases s.len(),
{
    if s.len() == 0 {
        env
    } else {
        let e = run(s.drop_last(), env, leaf);
        let val = rhs_value(s.last().1, e, leaf);
        let v = s.last().0;
        |u: Seq<char>| if u == v {
            val
        } else {
            e(u)
        }
    }
}

/// Running two statement lists one after the other is running their
/// concatenation; the same holds of their text.
proof fn lemma_run_append(
    a: Seq<(Seq<char>, Rhs)>,
    b: Seq<(Seq<char>, Rhs)>,
    env: spec_fn(Seq<char>) -> int,
    leaf: spec_fn(Seq<char>, Seq<char>, Seq<char>) -> int,
)
    ensures
        run(a + b, env, leaf) == run(b, run(a, env, leaf), leaf),
        stmts_text(a + b) == stmts_text(a) + stmts_text(b),
    decreases b.len(),
{
    if b.len() == 0 {
        assert(a + b =~= a);
        assert(stmts_text(a) + stmts_text(b) =~= stmts_text(a));
    } else {
        assert((a + b).drop_last() =~= a + b.drop_last());
        assert((a + b).last() == b.last());
        lemma_run_append(a, b.drop_last(), env, leaf);
        assert(run(a + b, env, leaf) =~= run(b, run(a, env, leaf), leaf));
        assert(stmts_text(a + b) =~= stmts_text(a) + stmts_text(b));
    }
}

/// Statements that do not assign `u` leave it as it was.
proof fn lemma_run_untouched(
    s: Seq<(Seq<char>, Rhs)>,
    env: spec_fn(Seq<char>) -> int,
    leaf: spec_fn(Seq<char>, Seq<char>, Seq<char>) -> int,
    u: Seq<char>,
)
    requires
        forall|i: int| 0 <= i < s.len() ==> (#[trigger] s[i]).0 != u,
    ensures
        run(s, env, leaf)(u) == env(u),
    decreases s.len(),
{
    if s.len() > 0 {
        assert(s.last() == s[s.len() - 1]);
        lemma_run_untouched(s.drop_last(), env, leaf, u);
    }
}

/// The statements the compiler emits for `node`, numbering identifiers
/// from `id` as `comp_spec` does.
pub open spec fn stmts_spec(node: Node, id: nat) -> Seq<(Seq<char>, Rhs)>
    decreases node,
{
    match node {
        Node::Circle { x, y, r } => seq![
            (
                ident("circle"@, id),
                Rhs::Circle {
                    dx: ident("dx"@, id + 1),
                    dy: ident("dy"@, id + 2),
                    x: x@,
                    y: y@,
                    r: r@,
                },
            ),
        ],
        Node::And(children) => stmts_list(true, children@, id),
        Node::Or(children) => stmts_list(false, children@, id),
        Node::Not(child) => {
            let (_, v, n) = comp_spec(*child, id);
            stmts_spec(*child, id).push((ident("not"@, n), Rhs::Neg(v)))
        },
    }
}

/// The statements for an `And` (`is_and`) or `Or` over `children`.
pub open spec fn stmts_list(is_and: bool, children: Seq<Node>, id: nat) -> Seq<(Seq<char>, Rhs)>
    decreases children,
{
    if children.len() == 0 {
        seq![]
    } else if children.len() == 1 {
        stmts_spec(children[0], id)
    } else {
        let mid = children.len() / 2;
        let left = children.subrange(0, mid as int);
        let right = children.subrange(mid as int, children.len() as int);
        let (_, lr, n1) = comp_list_spec(is_and, left, id);
        let (_, rr, n2) = comp_list_spec(is_and, right, n1);
        let rhs = if is_and {
            Rhs::Max(lr, rr)
        } else {
            Rhs::Min(lr, rr)
        };
        stmts_list(is_and, left, id) + stmts_list(is_and, right, n1) + seq![
            (ident(combine_prefix(is_and), n2), rhs),
        ]
    }
}

/// The prefixes of the variables that hold values.
pub open spec fn value_prefix(p: Seq<char>) -> bool {
    p == "circle"@ || p == "and"@ || p == "or"@ || p == "not"@
}

/// `v` is a value variable numbered from `lo` up to below `hi`.
pub open spec fn named_in(v: Seq<char>, lo: nat, hi: nat) -> bool {
    exists|p: Seq<char>, k: nat| value_prefix(p) && lo <= k < hi && v == #[trigger] ident(p, k)
}

/// Value variables with different numbers have different names.
proof fn lemma_ident_numbers(p: Seq<char>, k: nat, q: Seq<char>, m: nat)
    requires
        value_prefix(p),
        value_prefix(q),
        ident(p, k) == ident(q, m),
    ensures
        k == m,
{
    reveal_strlit("circle");
    reveal_strlit("and");
    reveal_strlit("or");
    reveal_strlit("not");
    let a = ident(p, k);
    let b = ident(q, m);
    assert(a[p.len() as int] == '_');
    assert(b[q.len() as int] == '_');
    if p.len() < q.len() {
        assert(b[p.len() as int] == q[p.len() as int]);
    } else if q.len() < p.len() {
        assert(a[q.len() as int] == p[q.len() as int]);
    } else {
        let n = p.len() + 1;
        assert(decimal(k) =~= a.subrange(n as int, a.len() as int));
        assert(decimal(m) =~= b.subrange(n as int, b.len() as int));
        lemma_decimal_injective(k, m);
    }
}

/// The statements for `node` assign only value variables numbered from
/// `id` up to the next free number, and the result is one of them.
proof fn lemma_fresh(node: Node, id: nat)
    requires
        compilable(node),
    ensures
        forall|i: int|
            0 <= i < stmts_spec(node, id).len() ==> named_in(
                #[trigger] stmts_spec(node, id)[i].0,
                id,
                comp_spec(node, id).2,
            ),
        named_in(comp_spec(node, id).1, id, comp_spec(node, id).2),
    decreases node,
{
    reveal_strlit("circle");
    reveal_strlit("not");
    match node {
        Node::Circle { .. } => {
            assert(value_prefix("circle"@));
            assert(named_in(ident("circle"@, id), id, id + 3));
            assert(stmts_spec(node, id)[0].0 == ident("circle"@, id));
            assert(comp_spec(node, id).2 == id + 3);
            assert(stmts_spec(node, id).len() == 1);
            assert forall|i: int| 0 <= i < stmts_spec(node, id).len() implies named_in(
                #[trigger] stmts_spec(node, id)[i].0,
                id,
                comp_spec(node, id).2,
            ) by {
                assert(i == 0);
            }
        },
        Node::And(children) => {
            lemma_all_compilable(children@);
            lemma_fresh_list(true, children@, id);
            assert(stmts_spec(node, id) == stmts_list(true, children@, id));
            assert(comp_spec(node, id) == comp_list_spec(true, children@, id));
        },
        Node::Or(children) => {
            lemma_all_compilable(children@);
            lemma_fresh_list(false, children@, id);
            assert(stmts_spec(node, id) == stmts_list(false, children@, id));
            assert(comp_spec(node, id) == comp_list_spec(false, children@, id));
        },
        Node::Not(child) => {
            lemma_fresh(*child, id);
            let n = comp_spec(*child, id).2;
            let sc = stmts_spec(*child, id);
            assert(value_prefix("not"@));
            assert(named_in(ident("not"@, n), id, n + 1));
            assert forall|i: int| 0 <= i < stmts_spec(node, id).len() implies named_in(
                #[trigger] stmts_spec(node, id)[i].0,
                id,
                n + 1,
            ) by {
                if i < sc.len() {
                    assert(stmts_spec(node, id)[i] == sc[i]);
                    assert(named_in(sc[i].0, id, n));
                    let (p, k) = choose|p: Seq<char>, k: nat|
                        value_prefix(p) && id <= k < n && sc[i].0 == #[trigger] ident(p, k);
                    assert(named_in(sc[i].0, id, n + 1));
                } else {
                    assert(stmts_spec(node, id)[i].0 == ident("not"@, n));
                }
            }
            assert(comp_spec(node, id).2 == n + 1);
            assert(comp_spec(node, id).1 == ident("not"@, n));
        },
    }
}

/// `lemma_fresh` for the children of an `And` or `Or`.
proof fn lemma_fresh_list(is_and: bool, children: Seq<Node>, id: nat)
    requires
        children.len() > 0,
        forall|i: int| 0 <= i < children.len() ==> #[trigger] compilable(children[i]),
    ensures
        forall|i: int|
            0 <= i < stmts_list(is_and, children, id).len() ==> named_in(
                #[trigger] stmts_list(is_and, children, id)[i].0,
                id,
                comp_list_spec(is_and, children, id).2,
            ),
        named_in(comp_list_spec(is_and, children, id).1, id, comp_list_spec(is_and, children, id).2),
    decreases children,
{
    reveal_strlit("and");
    reveal_strlit("or");
    if children.len() == 1 {
        assert(compilable(children[0]));
        lemma_fresh(children[0], id);
        assert(stmts_list(is_and, children, id) == stmts_spec(children[0], id));
        assert(comp_list_spec(is_and, children, id) == comp_spec(children[0], id));
    } else {
        let mid = children.len() / 2;
        let left = children.subrange(0, mid as int);
        let right = children.subrange(mid as int, children.len() as int);
        assert forall|i: int| 0 <= i < left.len() implies #[trigger] compilable(left[i]) by {
            assert(left[i] == children[i]);
        }
        assert forall|i: int| 0 <= i < right.len() implies #[trigger] compilable(right[i]) by {
            assert(right[i] == children[i + mid]);
        }
        lemma_fresh_list(is_and, left, id);
        let n1 = comp_list_spec(is_and, left, id).2;
        lemma_fresh_list(is_and, right, n1);
        lemma_list_ids_advance(is_and, left, id);
        lemma_list_ids_advance(is_and, right, n1);
        let n2 = comp_list_spec(is_and, right, n1).2;
        let sl = stmts_list(is_and, left, id);
        let sr = stmts_list(is_and, right, n1);
        let all = stmts_list(is_and, children, id);
        assert(value_prefix(combine_prefix(is_and)));
        assert(named_in(ident(combine_prefix(is_and), n2), id, n2 + 1));
        assert forall|i: int| 0 <= i < all.len() implies named_in(#[trigger] all[i].0, id, n2 + 1) by {
            if i < sl.len() {
                assert(all[i] == sl[i]);
                assert(named_in(sl[i].0, id, n1));
                let (p, k) = choose|p: Seq<char>, k: nat|
                    value_prefix(p) && id <= k < n1 && sl[i].0 == #[trigger] ident(p, k);
            } else if i < sl.len() + sr.len() {
                assert(all[i] == sr[i - sl.len()]);
                assert(named_in(sr[i - sl.len()].0, n1, n2));
                let (p, k) = choose|p: Seq<char>, k: nat|
                    value_prefix(p) && n1 <= k < n2 && sr[i - sl.len()].0 == #[trigger] ident(p, k);
            } else {
                assert(all[i].0 == ident(combine_prefix(is_and), n2));
            }
        }
        assert(comp_list_spec(is_and, children, id).2 == n2 + 1);
    }
}

/// The kernel text for `node` is the text of its statements.
proof fn lemma_text(node: Node, id: nat)
    requires
        compilable(node),
    ensures
        comp_spec(node, id).0 == stmts_text(stmts_spec(node, id)),
    decreases node,
{
    match node {
        Node::Circle { .. } => {
            lemma_single_text(stmts_spec(node, id));
        },
        Node::And(children) => {
            lemma_all_compilable(children@);
            lemma_text_list(true, children@, id);
        },
        Node::Or(children) => {
            lemma_all_compilable(children@);
            lemma_text_list(false, children@, id);
        },
        Node::Not(child) => {
            lemma_text(*child, id);
            let sc = stmts_spec(*child, id);
            let st = stmts_spec(node, id);
            assert(st.drop_last() =~= sc);
        },
    }
}

/// `lemma_text` for the children of an `And` or `Or`.
proof fn lemma_text_list(is_and: bool, children: Seq<Node>, id: nat)
    requires
        children.len() > 0,
        forall|i: int| 0 <= i < children.len() ==> #[trigger] compilable(children[i]),
    ensures
        comp_list_spec(is_and, children, id).0 == stmts_text(stmts_list(is_and, children, id)),
    decreases children,
{
    if children.len() == 1 {
        assert(compilable(children[0]));
        lemma_text(children[0], id);
    } else {
        let mid = children.len() / 2;
        let left = children.subrange(0, mid as int);
        let right = children.subrange(mid as int, children.len() as int);
        assert forall|i: int| 0 <= i < left.len() implies #[trigger] compilable(left[i]) by {
            assert(left[i] == children[i]);
        }
        assert forall|i: int| 0 <= i < right.len() implies #[trigger] compilable(right[i]) by {
            assert(right[i] == children[i + mid]);
        }
        let n1 = comp_list_spec(is_and, left, id).2;
        lemma_text_list(is_and, left, id);
        lemma_text_list(is_and, right, n1);
        let sl = stmts_list(is_and, left, id);
        let sr = stmts_list(is_and, right, n1);
        let n2 = comp_list_spec(is_and, right, n1).2;
        let c = seq![
            (
                ident(combine_prefix(is_and), n2),
                if is_and {
                    Rhs::Max(comp_list_spec(is_and, left, id).1, comp_list_spec(is_and, right, n1).1)
                } else {
                    Rhs::Min(comp_list_spec(is_and, left, id).1, comp_list_spec(is_and, right, n1).1)
                },
            ),
        ];
        let env = |u: Seq<char>| 0int;
        let leaf = |x: Seq<char>, y: Seq<char>, r: Seq<char>| 0int;
        lemma_run_append(sl, sr, env, leaf);
        lemma_run_append(sl + sr, c, env, leaf);
        lemma_single_text(c);
        assert(stmts_list(is_and, children, id) == sl + sr + c);
        if is_and {
            assert(stmt_text(c[0].0, c[0].1) == combine_text(
                is_and,
                ident(combine_prefix(is_and), n2),
                comp_list_spec(is_and, left, id).1,
                comp_list_spec(is_and, right, n1).1,
            ));
        } else {
            assert(stmt_text(c[0].0, c[0].1) == combine_text(
                is_and,
                ident(combine_prefix(is_and), n2),
                comp_list_spec(is_and, left, id).1,
                comp_list_spec(is_and, right, n1).1,
            ));
        }
    }
}

/// The text of a single statement list is that statement's text.
proof fn lemma_single_text(s: Seq<(Seq<char>, Rhs)>)
    requires
        s.len() == 1,
    ensures
        stmts_text(s) == stmt_text(s[0].0, s[0].1),
{
    let t = stmt_text(s[0].0, s[0].1);
    assert(s.drop_last() =~= Seq::<(Seq<char>, Rhs)>::empty());
    assert(stmts_text(s.drop_last()) == Seq::<char>::empty());
    assert(s.last() == s[0]);
    assert(Seq::<char>::empty() + t =~= t);
}

/// Combining is associative.
proof fn lemma_combine_assoc(is_and: bool, a: int, b: int, c: int)
    ensures
        (if is_and {
            larger(larger(a, b), c)
        } else {
            smaller(smaller(a, b), c)
        }) == (if is_and {
            larger(a, larger(b, c))
        } else {
            smaller(a, smaller(b, c))
        }),
{
}

/// The largest (or smallest) distance of a list is that of its two halves
/// combined.
proof fn lemma_denote_split(
    is_and: bool,
    children: Seq<Node>,
    mid: int,
    leaf: spec_fn(Seq<char>, Seq<char>, Seq<char>) -> int,
)
    requires
        0 < mid < children.len(),
    ensures
        denote_list(is_and, children, leaf) == (if is_and {
            larger(
                denote_list(is_and, children.subrange(0, mid), leaf),
                denote_list(is_and, children.subrange(mid, children.len() as int), leaf),
            )
        } else {
            smaller(
                denote_list(is_and, children.subrange(0, mid), leaf),
                denote_list(is_and, children.subrange(mid, children.len() as int), leaf),
            )
        }),
    decreases children.len(),
{
    let n = children.len() as int;
    let right = children.subrange(mid, n);
    if mid == n - 1 {
        assert(children.drop_last() =~= children.subrange(0, mid));
        assert(right.len() == 1);
        assert(right[0] == children.last());
    } else {
        let d = children.drop_last();
        lemma_denote_split(is_and, d, mid, leaf);
        assert(d.subrange(0, mid) =~= children.subrange(0, mid));
        assert(right.drop_last() =~= d.subrange(mid, n - 1));
        assert(right.last() == children.last());
        lemma_combine_assoc(
            is_and,
            denote_list(is_and, children.subrange(0, mid), leaf),
            denote_list(is_and, d.subrange(mid, n - 1), leaf),
            denote(children.last(), leaf),
        );
    }
}

/// Running the statements for `node` leaves its distance in the result
/// variable, whatever the variables held before.
proof fn lemma_meaning(
    node: Node,
    id: nat,
    env: spec_fn(Seq<char>) -> int,
    leaf: spec_fn(Seq<char>, Seq<char>, Seq<char>) -> int,
)
    requires
        compilable(node),
    ensures
        run(stmts_spec(node, id), env, leaf)(comp_spec(node, id).1) == denote(node, leaf),
    decreases node,
{
    match node {
        Node::Circle { .. } => {
            let st = stmts_spec(node, id);
            assert(st.drop_last() =~= Seq::<(Seq<char>, Rhs)>::empty());
        },
        Node::And(children) => {
            lemma_all_compilable(children@);
            lemma_meaning_list(true, children@, id, env, leaf);
        },
        Node::Or(children) => {
            lemma_all_compilable(children@);
            lemma_meaning_list(false, children@, id, env, leaf);
        },
        Node::Not(child) => {
            lemma_meaning(*child, id, env, leaf);
            let sc = stmts_spec(*child, id);
            let st = stmts_spec(node, id);
            assert(st.drop_last() =~= sc);
        },
    }
}

/// `lemma_meaning` for the children of an `And` or `Or`.
proof fn lemma_meaning_list(
    is_and: bool,
    children: Seq<Node>,
    id: nat,
    env: spec_fn(Seq<char>) -> int,
    leaf: spec_fn(Seq<char>, Seq<char>, Seq<char>) -> int,
)
    requires
        children.len() > 0,
        forall|i: int| 0 <= i < children.len() ==> #[trigger] compilable(children[i]),
    ensures
        run(stmts_list(is_and, children, id), env, leaf)(comp_list_spec(is_and, children, id).1)
            == denote_list(is_and, children, leaf),
    decreases children,
{
    if children.len() == 1 {
        assert(compilable(children[0]));
        lemma_meaning(children[0], id, env, leaf);
    } else {
        let mid = children.len() / 2;
        let left = children.subrange(0, mid as int);
        let right = children.subrange(mid as int, children.len() as int);
        assert forall|i: int| 0 <= i < left.len() implies #[trigger] compilable(left[i]) by {
            assert(left[i] == children[i]);
        }
        assert forall|i: int| 0 <= i < right.len() implies #[trigger] compilable(right[i]) by {
            assert(right[i] == children[i + mid]);
        }
        let (_, lr, n1) = comp_list_spec(is_and, left, id);
        let (_, rr, n2) = comp_list_spec(is_and, right, n1);
        let sl = stmts_list(is_and, left, id);
        let sr = stmts_list(is_and, right, n1);
        let c = seq![
            (
                ident(combine_prefix(is_and), n2),
                if is_and {
                    Rhs::Max(lr, rr)
                } else {
                    Rhs::Min(lr, rr)
                },
            ),
        ];
        let e1 = run(sl, env, leaf);
        lemma_meaning_list(is_and, left, id, env, leaf);
        lemma_meaning_list(is_and, right, n1, e1, leaf);
        lemma_run_append(sl, sr, env, leaf);
        lemma_run_append(sl + sr, c, env, leaf);
        assert(c.drop_last() =~= Seq::<(Seq<char>, Rhs)>::empty());
        lemma_fresh_list(is_and, left, id);
        lemma_fresh_list(is_and, right, n1);
        assert forall|i: int| 0 <= i < sr.len() implies (#[trigger] sr[i]).0 != lr by {
            assert(named_in(sr[i].0, n1, n2));
            let (p, k) = choose|p: Seq<char>, k: nat|
                value_prefix(p) && n1 <= k < n2 && sr[i].0 == #[trigger] ident(p, k);
            let (q, m) = choose|q: Seq<char>, m: nat|
                value_prefix(q) && id <= m < n1 && lr == #[trigger] ident(q, m);
            if sr[i].0 == lr {
                lemma_ident_numbers(p, k, q, m);
            }
        }
        lemma_run_untouched(sr, e1, leaf, lr);
        lemma_denote_split(is_and, children, mid as int, leaf);
        assert(stmts_list(is_and, children, id) == sl + sr + c);
        let e12 = run(sl + sr, env, leaf);
        assert(e12 == run(sr, e1, leaf));
        assert(e12(lr) == denote_list(is_and, left, leaf));
        assert(e12(rr) == denote_list(is_and, right, leaf));
        assert(run(c.drop_last(), e12, leaf) == e12);
        assert(c.last() == c[0]);
        let res = ident(combine_prefix(is_and), n2);
        assert(comp_list_spec(is_and, children, id).1 == res);
        assert(run(c, e12, leaf)(res) == rhs_value(c[0].1, e12, leaf));
        assert(run(sl + sr + c, env, leaf) == run(c, e12, leaf));
    }
}

/// The kernel compiled for a shape tree computes the tree's distance: its
/// body is a list of statements, each assigning a circle's distance, the
/// larger or smaller of two earlier values, or the negation of one, and
/// whatever the circles' distances and the variables' starting values,
/// running it leaves in the variable the kernel stores exactly the
/// distance of the tree, where an intersection takes the largest distance
/// of all its children, a union the smallest, and a complement negates.
pub proof fn lemma_kernel_computes_distance(node: Node)
    requires
        compilable(node),
    ensures
        exists|body: Seq<(Seq<char>, Rhs)>, result: Seq<char>|
            {
                &&& kernel_source(node) == preamble() + stmts_text(body) + "\n"@ + "  buffer[pos] = "@
                    + result + "; \n}\n"@
                &&& forall|
                    leaf: spec_fn(Seq<char>, Seq<char>, Seq<char>) -> int,
                    env: spec_fn(Seq<char>) -> int,
                | #[trigger] run(body, env, leaf)(result) == denote(node, leaf)
            },
{
    let body = stmts_spec(node, 0);
    let result = comp_spec(node, 0).1;
    lemma_text(node, 0);
    assert(kernel_source(node) == preamble() + stmts_text(body) + "\n"@ + "  buffer[pos] = "@
        + result + "; \n}\n"@);
    assert forall|
        leaf: spec_fn(Seq<char>, Seq<char>, Seq<char>) -> int,
        env: spec_fn(Seq<char>) -> int,
    | #[trigger] run(body, env, leaf)(result) == denote(node, leaf) by {
        lemma_meaning(node, 0, env, leaf);
    }
}

} // verus!
