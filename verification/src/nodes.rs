use vstd::prelude::*;
use crate::compiler::{ident, CompilationContext};

verus! {

/// Identifies a node of a shape graph.
#[derive(Hash, PartialEq, Eq, Structural, Debug, Clone, Copy)]
pub struct NodeId(usize);

/// Hands out node ids in increasing order, wrapping around after the
/// largest `usize`.
pub struct IdPool {
    next: usize,
}

impl IdPool {
    /// The number the next id will carry.
    pub closed spec fn next(&self) -> nat {
        self.next as nat
    }

    /// A pool whose first id is zero.
    pub fn new() -> (r: IdPool)
        ensures
            r.next() == 0,
    {
        IdPool { next: 0 }
    }
}

impl NodeId {
    /// The number of this id.
    pub closed spec fn value(&self) -> nat {
        self.0 as nat
    }

    /// A fresh id from `pool`.
    pub fn new(pool: &mut IdPool) -> (r: NodeId)
        ensures
            r.value() == old(pool).next(),
            final(pool).next() == successor(old(pool).next()),
    {
        let id = pool.next;
        pool.next = if pool.next == usize::MAX {
            0
        } else {
            pool.next + 1
        };
        NodeId(id)
    }
}

/// The number after `n` in a pool: one more, wrapping to zero after the
/// largest `usize`.
pub open spec fn successor(n: nat) -> nat {
    if n == usize::MAX {
        0
    } else {
        n + 1
    }
}

/// Two ids drawn one after the other from a pool differ, and the later one
/// is larger unless the counter wraps after the largest `usize`.
pub proof fn lemma_successive_ids_differ(a: NodeId, b: NodeId, before: nat)
    requires
        before <= usize::MAX,
        a.value() == before,
        b.value() == successor(before),
    ensures
        a != b,
        before < usize::MAX ==> b.value() > a.value(),
{
    assert(a.0 != b.0);
}

/// Ties the lifetime of borrowed nodes to the arena that holds them.
pub struct Anchor<'a, T: 'a> {
    _p: std::marker::PhantomData<&'a T>,
}

impl<'a, T: 'a> Anchor<'a, T> {
    /// A new anchor.
    pub fn new() -> (r: Anchor<'a, T>) {
        Anchor { _p: std::marker::PhantomData }
    }

    /// `obj`, borrowed for the anchor's lifetime.
    pub fn hold<'b: 'a>(&'a self, obj: &'b T) -> (r: &'a T)
        ensures
            *r == *obj,
    {
        obj
    }
}

/// What a node needs from its inputs; nothing so far.
pub struct InputInfo;

/// One step of a compiled kernel: the variable that holds its value and the
/// statements that compute it.
pub struct Stage {
    pub result: String,
    pub lines: Vec<String>,
}

impl Stage {
    /// A step with no statements yet whose value is in `result`.
    pub fn new(result: String) -> (r: Stage)
        ensures
            r.result == result,
            r.lines@ == Seq::<String>::empty(),
    {
        Stage { result, lines: Vec::new() }
    }

    /// Appends the statement `line`.
    pub fn add_line(&mut self, line: String)
        ensures
            final(self).result == old(self).result,
            final(self).lines@ == old(self).lines@.push(line),
    {
        self.lines.push(line);
    }
}

/// A circle given by its centre and radius, carried as decimal text.
pub struct Circle {
    pub position: (String, String),
    pub radius: String,
}

impl Circle {
    /// The step that computes the signed distance to the circle: the
    /// distance to the centre less the radius.
    pub fn compile(&self, cc: &mut CompilationContext) -> (r: (Stage, InputInfo))
        requires
            old(cc).next_id() + 3 <= usize::MAX,
        ensures
            final(cc).next_id() == old(cc).next_id() + 3,
            r.0.result@ == ident("circle"@, old(cc).next_id()),
            r.0.lines@.len() == 3,
            r.0.lines@[0]@ == "float "@ + ident("dx"@, old(cc).next_id() + 1) + " = "@ + "x_s"@
                + " - "@ + self.position.0@ + ";"@,
            r.0.lines@[1]@ == "float "@ + ident("dy"@, old(cc).next_id() + 2) + " = "@ + "y_s"@
                + " - "@ + self.position.1@ + ";"@,
            r.0.lines@[2]@ == ident("circle"@, old(cc).next_id()) + " = sqrt("@ + ident(
                "dx"@,
                old(cc).next_id() + 1,
            ) + " * "@ + ident("dx"@, old(cc).next_id() + 1) + " + "@ + ident(
                "dy"@,
                old(cc).next_id() + 2,
            ) + " * "@ + ident("dy"@, old(cc).next_id() + 2) + ") - "@ + self.radius@ + ";"@,
    {
        let res = cc.get_id("circle");
        let dx = cc.get_id("dx");
        let dy = cc.get_id("dy");

        let mut stage = Stage::new(res.clone());

        let mut l1 = String::from_str("float ");
        l1.append(dx.as_str());
        l1.append(" = ");
        l1.append(cc.get_x());
        l1.append(" - ");
        l1.append(self.position.0.as_str());
        l1.append(";");
        stage.add_line(l1);

        let mut l2 = String::from_str("float ");
        l2.append(dy.as_str());
        l2.append(" = ");
        l2.append(cc.get_y());
        l2.append(" - ");
        l2.append(self.position.1.as_str());
        l2.append(";");
        stage.add_line(l2);

        let mut l3 = res.clone();
        l3.append(" = sqrt(");
        l3.append(dx.as_str());
        l3.append(" * ");
        l3.append(dx.as_str());
        l3.append(" + ");
        l3.append(dy.as_str());
        l3.append(" * ");
        l3.append(dy.as_str());
        l3.append(") - ");
        l3.append(self.radius.as_str());
        l3.append(";");
        stage.add_line(l3);

        (stage, InputInfo)
    }
}

} // verus!
