use vstd::prelude::*;
use vstd::std_specs::iter::IteratorSpec;
use crate::text::{decimal, lemma_decimal_injective, lemma_decimal_nonempty, push_decimal};

verus! {

/// A distance-field expression. Each numeric constant is carried as a key
/// that stands for it: two constants share a key exactly when they are to
/// share a slot of the constant table. A buffer is carried as the number
/// that stands for it.
pub enum Ast {
    X,
    Y,
    Z,
    Constant(u32),
    Buffer(usize),
    /// Distance to a polygon given by its edges `(x1, y1, x2, y2)`.
    DistToPoly(Vec<(u32, u32, u32, u32)>),
    /// `target` evaluated in coordinates moved by a 4x4 matrix, row by row.
    Transform { target: Box<Ast>, matrix: [u32; 16] },
    Sub(Box<Ast>, Box<Ast>),
    Mul(Vec<Ast>),
    Add(Vec<Ast>),
    Min(Vec<Ast>),
    Max(Vec<Ast>),
    Square(Box<Ast>),
    Abs(Box<Ast>),
    Sqrt(Box<Ast>),
    Neg(Box<Ast>),
}

/// The larger of two numbers.
pub open spec fn max_nat(a: nat, b: nat) -> nat {
    if a >= b {
        a
    } else {
        b
    }
}

/// How many transforms deep the evaluation of `ast` goes; a coordinate
/// read counts as one level.
pub open spec fn transform_depth(ast: Ast) -> nat
    decreases ast,
{
    match ast {
        Ast::X | Ast::Y | Ast::Z | Ast::DistToPoly(_) => 1,
        Ast::Constant(_) | Ast::Buffer(_) => 0,
        Ast::Transform { target, .. } => 1 + transform_depth(*target),
        Ast::Sub(l, r) => max_nat(transform_depth(*l), transform_depth(*r)),
        Ast::Mul(lst) | Ast::Add(lst) | Ast::Min(lst) | Ast::Max(lst) => list_transform_depth(lst@),
        Ast::Square(t) | Ast::Abs(t) | Ast::Sqrt(t) | Ast::Neg(t) => transform_depth(*t),
    }
}

/// The largest `transform_depth` among `asts`, 0 for none.
pub open spec fn list_transform_depth(asts: Seq<Ast>) -> nat
    decreases asts,
{
    if asts.len() == 0 {
        0
    } else {
        max_nat(list_transform_depth(asts.drop_last()), transform_depth(asts.last()))
    }
}


/// How many values the evaluation of `ast` keeps on the stack at most.
pub open spec fn depth(ast: Ast) -> nat
    decreases ast,
{
    match ast {
        Ast::X | Ast::Y | Ast::Z | Ast::Constant(_) | Ast::Buffer(_) => 1,
        Ast::DistToPoly(v) => v@.len(),
        Ast::Transform { target, .. } => depth(*target),
        Ast::Sub(l, r) => max_nat(depth(*l), depth(*r)) + 1,
        Ast::Mul(lst) | Ast::Add(lst) | Ast::Min(lst) | Ast::Max(lst) => list_depth(lst@) + 1,
        Ast::Square(t) | Ast::Abs(t) | Ast::Sqrt(t) | Ast::Neg(t) => depth(*t),
    }
}

/// The largest `depth` among `asts`, 0 for none.
pub open spec fn list_depth(asts: Seq<Ast>) -> nat
    decreases asts,
{
    if asts.len() == 0 {
        0
    } else {
        max_nat(list_depth(asts.drop_last()), depth(asts.last()))
    }
}

/// Every operator has an operand and every polygon at most 255 edges.
pub open spec fn compilable(ast: Ast) -> bool
    decreases ast,
{
    match ast {
        Ast::DistToPoly(v) => v@.len() <= 255,
        Ast::Transform { target, .. } => compilable(*target),
        Ast::Sub(l, r) => compilable(*l) && compilable(*r),
        Ast::Mul(lst) | Ast::Add(lst) | Ast::Min(lst) | Ast::Max(lst) => lst@.len() > 0
            && list_compilable(lst@),
        Ast::Square(t) | Ast::Abs(t) | Ast::Sqrt(t) | Ast::Neg(t) => compilable(*t),
        _ => true,
    }
}

/// Every expression of `asts` is `compilable`.
pub open spec fn list_compilable(asts: Seq<Ast>) -> bool
    decreases asts,
{
    asts.len() == 0 || (list_compilable(asts.drop_last()) && compilable(asts.last()))
}

/// The four keys of a polygon edge.
pub open spec fn edge_keys(e: (u32, u32, u32, u32)) -> Seq<u32> {
    seq![e.0, e.1, e.2, e.3]
}

/// The keys of the edges of a polygon, edge by edge.
pub open spec fn poly_keys(edges: Seq<(u32, u32, u32, u32)>) -> Seq<u32>
    decreases edges.len(),
{
    if edges.len() == 0 {
        seq![]
    } else {
        poly_keys(edges.drop_last()) + edge_keys(edges.last())
    }
}

/// The constant keys of `ast` in the order a left-to-right walk meets them;
/// a transform's matrix comes before its target.
pub open spec fn keys_of(ast: Ast) -> Seq<u32>
    decreases ast,
{
    match ast {
        Ast::Constant(c) => seq![c],
        Ast::DistToPoly(v) => poly_keys(v@),
        Ast::Transform { target, matrix } => matrix@ + keys_of(*target),
        Ast::Sub(l, r) => keys_of(*l) + keys_of(*r),
        Ast::Mul(lst) | Ast::Add(lst) | Ast::Min(lst) | Ast::Max(lst) => list_keys(lst@),
        Ast::Square(t) | Ast::Abs(t) | Ast::Sqrt(t) | Ast::Neg(t) => keys_of(*t),
        _ => seq![],
    }
}

/// The constant keys of `asts`, one expression after another.
pub open spec fn list_keys(asts: Seq<Ast>) -> Seq<u32>
    decreases asts,
{
    if asts.len() == 0 {
        seq![]
    } else {
        list_keys(asts.drop_last()) + keys_of(asts.last())
    }
}

/// The buffers of `ast` from left to right.
pub open spec fn buffers_of(ast: Ast) -> Seq<usize>
    decreases ast,
{
    match ast {
        Ast::Buffer(b) => seq![b],
        Ast::Transform { target, .. } => buffers_of(*target),
        Ast::Sub(l, r) => buffers_of(*l) + buffers_of(*r),
        Ast::Mul(lst) | Ast::Add(lst) | Ast::Min(lst) | Ast::Max(lst) => list_buffers(lst@),
        Ast::Square(t) | Ast::Abs(t) | Ast::Sqrt(t) | Ast::Neg(t) => buffers_of(*t),
        _ => seq![],
    }
}

/// The buffers of `asts`, one expression after another.
pub open spec fn list_buffers(asts: Seq<Ast>) -> Seq<usize>
    decreases asts,
{
    if asts.len() == 0 {
        seq![]
    } else {
        list_buffers(asts.drop_last()) + buffers_of(asts.last())
    }
}

/// The constant table after `k` is looked up in `table`: `k` is added at
/// the end when it is not there yet.
pub open spec fn record(table: Seq<u32>, k: u32) -> Seq<u32> {
    if table.contains(k) {
        table
    } else {
        table.push(k)
    }
}

/// The constant table after the keys `keys` are looked up in turn.
pub open spec fn record_all(table: Seq<u32>, keys: Seq<u32>) -> Seq<u32>
    decreases keys.len(),
{
    if keys.len() == 0 {
        table
    } else {
        record(record_all(table, keys.drop_last()), keys.last())
    }
}

/// The slot of `k` in `table`: where it first occurs, or the end of the
/// table when it does not occur.
pub open spec fn position(table: Seq<u32>, k: u32) -> int
    decreases table.len(),
{
    if table.len() == 0 {
        0
    } else if table.drop_last().contains(k) {
        position(table.drop_last(), k)
    } else if table.last() == k {
        table.len() - 1
    } else {
        table.len() as int
    }
}

/// The slot bytes of the keys `keys`, each looked up in the table as it
/// stands after the keys before it.
pub open spec fn const_bytes(table: Seq<u32>, keys: Seq<u32>) -> Seq<u8>
    decreases keys.len(),
{
    if keys.len() == 0 {
        seq![]
    } else {
        const_bytes(table, keys.drop_last()) + seq![
            position(record_all(table, keys.drop_last()), keys.last()) as u8,
        ]
    }
}

/// The byte values of the instructions, and how many buffers the machine
/// that runs the code can bind.
pub struct Opcodes {
    pub x: u8,
    pub y: u8,
    pub z: u8,
    pub constant_small: u8,
    pub dist_to_line: u8,
    pub collect_poly: u8,
    pub push_transform: u8,
    pub pop_transform: u8,
    pub sub: u8,
    pub add: u8,
    pub mul: u8,
    pub max: u8,
    pub min: u8,
    pub abs: u8,
    pub sqrt: u8,
    pub neg: u8,
    pub square: u8,
    pub buffer_count: usize,
}

/// The code of the edges `edges` of a polygon: for each edge a
/// distance-to-line instruction and the slots of its four keys.
pub open spec fn poly_bytes(table: Seq<u32>, edges: Seq<(u32, u32, u32, u32)>, ops: Opcodes) -> Seq<u8>
    decreases edges.len(),
{
    if edges.len() == 0 {
        seq![]
    } else {
        poly_bytes(table, edges.drop_last(), ops) + seq![ops.dist_to_line] + const_bytes(
            record_all(table, poly_keys(edges.drop_last())),
            edge_keys(edges.last()),
        )
    }
}

/// The code of `ast`, given the constant table `table` and the number
/// `nbuf` of buffers bound before it. A buffer is read by its number among
/// the bound buffers, a constant by its slot in the table.
pub open spec fn emit(ast: Ast, table: Seq<u32>, nbuf: nat, ops: Opcodes) -> Seq<u8>
    decreases ast,
{
    match ast {
        Ast::Buffer(_) => seq![nbuf as u8],
        Ast::X => seq![ops.x],
        Ast::Y => seq![ops.y],
        Ast::Z => seq![ops.z],
        Ast::Constant(c) => seq![ops.constant_small, position(table, c) as u8],
        Ast::DistToPoly(v) => poly_bytes(table, v@, ops) + seq![ops.collect_poly, v@.len() as u8],
        Ast::Transform { target, matrix } => seq![ops.push_transform] + const_bytes(table, matrix@)
            + emit(*target, record_all(table, matrix@), nbuf, ops) + seq![ops.pop_transform],
        Ast::Sub(l, r) => emit(*l, table, nbuf, ops) + emit(
            *r,
            record_all(table, keys_of(*l)),
            nbuf + buffers_of(*l).len(),
            ops,
        ) + seq![ops.sub],
        Ast::Add(lst) => list_bytes(lst@, table, nbuf, ops, ops.add),
        Ast::Mul(lst) => list_bytes(lst@, table, nbuf, ops, ops.mul),
        Ast::Max(lst) => list_bytes(lst@, table, nbuf, ops, ops.max),
        Ast::Min(lst) => list_bytes(lst@, table, nbuf, ops, ops.min),
        Ast::Abs(t) => emit(*t, table, nbuf, ops) + seq![ops.abs],
        Ast::Sqrt(t) => emit(*t, table, nbuf, ops) + seq![ops.sqrt],
        Ast::Neg(t) => emit(*t, table, nbuf, ops) + seq![ops.neg],
        Ast::Square(t) => emit(*t, table, nbuf, ops) + seq![ops.square],
    }
}

/// The code of the operands `asts` of an operator `op`: the first operand,
/// then each further operand followed by `op`.
pub open spec fn list_bytes(asts: Seq<Ast>, table: Seq<u32>, nbuf: nat, ops: Opcodes, op: u8) -> Seq<u8>
    decreases asts,
{
    if asts.len() == 0 {
        seq![]
    } else if asts.len() == 1 {
        emit(asts[0], table, nbuf, ops)
    } else {
        list_bytes(asts.drop_last(), table, nbuf, ops, op) + emit(
            asts.last(),
            record_all(table, list_keys(asts.drop_last())),
            nbuf + list_buffers(asts.drop_last()).len(),
            ops,
        ) + seq![op]
    }
}

/// Looking keys up one batch after another is looking them up all at once.
pub proof fn lemma_record_all_append(table: Seq<u32>, a: Seq<u32>, b: Seq<u32>)
    ensures
        record_all(table, a + b) == record_all(record_all(table, a), b),
    decreases b.len(),
{
    if b.len() == 0 {
        assert(a + b =~= a);
    } else {
        assert((a + b).drop_last() =~= a + b.drop_last());
        lemma_record_all_append(table, a, b.drop_last());
    }
}

/// Looking keys up only adds to the end of the table.
pub proof fn lemma_record_all_grows(table: Seq<u32>, keys: Seq<u32>)
    ensures
        record_all(table, keys).len() >= table.len(),
        record_all(table, keys).subrange(0, table.len() as int) == table,
    decreases keys.len(),
{
    if keys.len() > 0 {
        lemma_record_all_grows(table, keys.drop_last());
        let before = record_all(table, keys.drop_last());
        assert(record(before, keys.last()).subrange(0, table.len() as int) =~= table) by {
            assert forall|i: int| 0 <= i < table.len() implies record(before, keys.last())[i]
                == table[i] by {
                assert(before.subrange(0, table.len() as int)[i] == table[i]);
            }
        }
    } else {
        assert(table.subrange(0, table.len() as int) =~= table);
    }
}

/// The table for the keys before an expression's last key is no larger than
/// the table for all keys but the last one of a walk that contains it.
proof fn lemma_child_bound(table: Seq<u32>, p: Seq<u32>, c: Seq<u32>, r: Seq<u32>)
    requires
        c.len() > 0,
    ensures
        record_all(record_all(table, p), c.drop_last()).len() <= record_all(
            table,
            (p + c + r).drop_last(),
        ).len(),
{
    let all = (p + c + r).drop_last();
    let x = p + c.drop_last();
    let rest = all.subrange(x.len() as int, all.len() as int);
    assert(all =~= x + rest);
    lemma_record_all_append(table, p, c.drop_last());
    lemma_record_all_append(table, x, rest);
    lemma_record_all_grows(record_all(table, x), rest);
}

/// `position` finds the first occurrence of a key, or the end.
proof fn lemma_position(table: Seq<u32>, k: u32, i: int)
    requires
        0 <= i <= table.len(),
        !table.subrange(0, i).contains(k),
        i < table.len() ==> table[i] == k,
    ensures
        position(table, k) == i,
    decreases table.len(),
{
    if table.len() > 0 {
        if i < table.len() {
            if i < table.len() - 1 {
                assert(table.drop_last().subrange(0, i) =~= table.subrange(0, i));
                lemma_position(table.drop_last(), k, i);
                assert(table.drop_last()[i] == k);
            } else {
                assert(table.drop_last() =~= table.subrange(0, i));
            }
        } else {
            assert(table.drop_last() =~= table.subrange(0, i - 1));
            assert(table.subrange(0, i)[i - 1] == table.last());
        }
    }
}

/// The walk of expressions split in two parts is the walk of the first part
/// then the walk of the second.
proof fn lemma_list_split(asts: Seq<Ast>, j: int)
    requires
        0 <= j <= asts.len(),
    ensures
        list_keys(asts) == list_keys(asts.subrange(0, j)) + list_keys(
            asts.subrange(j, asts.len() as int),
        ),
        list_buffers(asts) == list_buffers(asts.subrange(0, j)) + list_buffers(
            asts.subrange(j, asts.len() as int),
        ),
    decreases asts.len(),
{
    if j == asts.len() {
        assert(asts.subrange(0, j) =~= asts);
        assert(list_keys(asts.subrange(j, asts.len() as int)) =~= seq![]);
        assert(list_buffers(asts.subrange(j, asts.len() as int)) =~= seq![]);
        assert(list_keys(asts) + seq![] =~= list_keys(asts));
        assert(list_buffers(asts) + seq![] =~= list_buffers(asts));
    } else {
        lemma_list_split(asts.drop_last(), j);
        assert(asts.drop_last().subrange(0, j) =~= asts.subrange(0, j));
        let tail = asts.subrange(j, asts.len() as int);
        assert(tail.drop_last() =~= asts.drop_last().subrange(j, asts.len() - 1));
        assert(tail.last() == asts.last());
    }
}

/// The same split for the keys of a polygon's edges.
proof fn lemma_poly_split(edges: Seq<(u32, u32, u32, u32)>, j: int)
    requires
        0 <= j <= edges.len(),
    ensures
        poly_keys(edges) == poly_keys(edges.subrange(0, j)) + poly_keys(
            edges.subrange(j, edges.len() as int),
        ),
    decreases edges.len(),
{
    if j == edges.len() {
        assert(edges.subrange(0, j) =~= edges);
        assert(poly_keys(edges.subrange(j, edges.len() as int)) =~= seq![]);
        assert(poly_keys(edges) + seq![] =~= poly_keys(edges));
    } else {
        lemma_poly_split(edges.drop_last(), j);
        assert(edges.drop_last().subrange(0, j) =~= edges.subrange(0, j));
        let tail = edges.subrange(j, edges.len() as int);
        assert(tail.drop_last() =~= edges.drop_last().subrange(j, edges.len() - 1));
        assert(tail.last() == edges.last());
    }
}

/// The table of constants met so far, in the order they were first met.
pub struct ConstantCache {
    map: std::collections::BTreeMap<u32, u32>,
    table: Ghost<Seq<u32>>,
}

impl View for ConstantCache {
    type V = Seq<u32>;

    closed spec fn view(&self) -> Seq<u32> {
        self.table@
    }
}

impl ConstantCache {
    /// The map sends each key of the table to its slot, and holds nothing
    /// else.
    #[verifier::type_invariant]
    spec fn slots_match(&self) -> bool {
        &&& self.table@.no_duplicates()
        &&& forall|k: u32| #[trigger] self.map@.contains_key(k) <==> self.table@.contains(k)
        &&& forall|i: int| 0 <= i < self.table@.len() ==> #[trigger] self.map@[self.table@[i]] == i
        &&& self.map@.len() == self.table@.len()
    }

    /// An empty table.
    pub fn new() -> (r: ConstantCache)
        ensures
            r@ == Seq::<u32>::empty(),
    {
        let r = ConstantCache { map: std::collections::BTreeMap::new(), table: Ghost(Seq::empty()) };
        r
    }

    /// The slot of `k`, added at the end when it is new.
    pub fn record(&mut self, k: u32) -> (r: u32)
        requires
            old(self)@.len() < u32::MAX,
        ensures
            final(self)@ == record(old(self)@, k),
            r == position(old(self)@, k),
    {
        proof {
            use_type_invariant(&*self);
        }
        let ghost t = self.table@;
        match self.map.get(&k) {
            Some(slot) => {
                let slot = *slot;
                proof {
                    let i = choose|i: int| 0 <= i < t.len() && t[i] == k;
                    assert(self.map@[t[i]] == i);
                    assert(!t.subrange(0, i).contains(k)) by {
                        if t.subrange(0, i).contains(k) {
                            let j = choose|j: int| 0 <= j < i && t.subrange(0, i)[j] == k;
                            assert(t[j] == t[i]);
                        }
                    }
                    lemma_position(t, k, i);
                }
                slot
            },
            None => {
                let n = self.map.len() as u32;
                proof {
                    assert(!t.subrange(0, t.len() as int).contains(k)) by {
                        assert(t.subrange(0, t.len() as int) =~= t);
                    }
                    lemma_position(t, k, t.len() as int);
                }
                let ghost m0 = self.map@;
                let mut taken = ConstantCache::new();
                std::mem::swap(&mut taken, self);
                let mut map = taken.map;
                assert(map@ == m0);
                map.insert(k, n);
                let ghost nt = t.push(k);
                proof {
                    assert(map@ == m0.insert(k, n));
                    assert forall|i: int| 0 <= i < nt.len() implies #[trigger] map@[nt[i]] == i by {
                        if i < t.len() {
                            assert(nt[i] == t[i]);
                            assert(t[i] != k);
                        }
                    }
                    assert forall|x: u32| #[trigger] map@.contains_key(x) <==> nt.contains(x) by {
                        if nt.contains(x) && x != k {
                            let j = choose|j: int| 0 <= j < nt.len() && nt[j] == x;
                            assert(t[j] == x);
                        }
                        if t.contains(x) {
                            let j = choose|j: int| 0 <= j < t.len() && t[j] == x;
                            assert(nt[j] == x);
                        }
                        assert(nt[t.len() as int] == k);
                    }
                    assert(nt.no_duplicates()) by {
                        assert forall|a: int, b: int| 0 <= a < nt.len() && 0 <= b < nt.len() && a != b
                            implies nt[a] != nt[b] by {
                            if a < t.len() && b < t.len() {
                                assert(nt[a] == t[a] && nt[b] == t[b]);
                            } else if a < t.len() {
                                assert(nt[a] == t[a]);
                            } else {
                                assert(nt[b] == t[b]);
                            }
                        }
                    }
                }
                *self = ConstantCache { map, table: Ghost(nt) };
                n
            },
        }
    }

    /// The number of slots in use.
    pub fn len(&self) -> (r: u32)
        requires
            self@.len() <= u32::MAX,
        ensures
            r == self@.len(),
    {
        proof {
            use_type_invariant(self);
        }
        self.map.len() as u32
    }

    /// The keys, slot by slot: each key is placed at the slot the map
    /// gives it.
    pub fn to_vec(self) -> (r: Vec<u32>)
        ensures
            r@ == self@,
    {
        proof {
            use_type_invariant(&self);
        }
        let ghost t = self.table@;
        let ghost m = self.map@;
        let n = self.map.len();
        let mut out: Vec<u32> = Vec::new();
        let mut i: usize = 0;
        while i < n
            invariant
                i <= n,
                out@.len() == i,
            decreases n - i,
        {
            out.push(0);
            i = i + 1;
        }
        let entries = self.map.iter();
        let ghost seq = entries.remaining();
        assert(seq.len() == m.dom().len());
        for kv in it: entries
            invariant
                n == t.len(),
                m == self.map@,
                t == self.table@,
                t.no_duplicates(),
                forall|k: u32| #[trigger] m.contains_key(k) <==> t.contains(k),
                forall|j: int| 0 <= j < t.len() ==> #[trigger] m[t[j]] == j,
                seq.no_duplicates(),
                forall|j: int|
                    #![trigger seq[j]]
                    0 <= j < seq.len() ==> m.contains_key(*seq[j].0) && m[*seq[j].0] == *seq[j].1,
                forall|k: u32| #[trigger] m.contains_key(k) ==> seq.contains((&k, &m[k])),
                it.seq() == seq,
                out@.len() == n,
                forall|j: int| 0 <= j < it.index() ==> #[trigger] out@[*seq[j].1 as int] == *seq[j].0,
        {
            let (k, v) = kv;
            assert(0 <= *v < n) by {
                let x = *k;
                assert(m.contains_key(x));
                assert(t.contains(x));
                let p = choose|p: int| 0 <= p < t.len() && t[p] == x;
                assert(m[t[p]] == p);
            }
            out.set(*v as usize, *k);
        }
        proof {
            assert forall|p: int| 0 <= p < t.len() implies out@[p] == t[p] by {
                let x = t[p];
                assert(t.contains(x));
                assert(m.contains_key(x));
                assert(seq.contains((&x, &m[x])));
                let j = choose|j: int| 0 <= j < seq.len() && seq[j] == (&x, &m[x]);
                assert(out@[*seq[j].1 as int] == *seq[j].0);
            }
            assert(out@ =~= t);
        }
        out
    }
}

/// Appends the slot bytes of `keys`, looking each key up in turn.
fn push_consts(keys: &[u32], code: &mut Vec<u8>, constants: &mut ConstantCache)
    requires
        keys@.len() > 0 ==> record_all(old(constants)@, keys@.drop_last()).len() < 255,
    ensures
        final(code)@ == old(code)@ + const_bytes(old(constants)@, keys@),
        final(constants)@ == record_all(old(constants)@, keys@),
{
    let ghost table = constants@;
    let ghost code0 = code@;
    let mut i: usize = 0;
    while i < keys.len()
        invariant
            i <= keys@.len(),
            keys@.len() > 0 ==> record_all(table, keys@.drop_last()).len() < 255,
            code@ == code0 + const_bytes(table, keys@.subrange(0, i as int)),
            constants@ == record_all(table, keys@.subrange(0, i as int)),
        decreases keys@.len() - i,
    {
        let ghost done = keys@.subrange(0, i as int);
        proof {
            lemma_child_bound(table, done, seq![keys@[i as int]], keys@.subrange(i + 1, keys@.len() as int));
            assert(done + seq![keys@[i as int]] + keys@.subrange(i + 1, keys@.len() as int) =~= keys@);
            assert(seq![keys@[i as int]].drop_last() =~= Seq::<u32>::empty());
            assert(record_all(done, Seq::<u32>::empty()) == done);
        }
        let slot = constants.record(keys[i]);
        code.push(slot as u8);
        proof {
            let next = keys@.subrange(0, i + 1);
            assert(next.drop_last() =~= done);
            assert(next.last() == keys@[i as int]);
            assert(code@ =~= code0 + const_bytes(table, next));
        }
        i = i + 1;
    }
    assert(keys@.subrange(0, i as int) =~= keys@);
}

/// Appends the code of `ast`, adding its constants to the table and its
/// buffers to the bound buffers.
fn compile_inner(
    ast: &Ast,
    code: &mut Vec<u8>,
    constants: &mut ConstantCache,
    buffers: &mut Vec<usize>,
    ops: &Opcodes,
)
    requires
        compilable(*ast),
        keys_of(*ast).len() > 0 ==> record_all(old(constants)@, keys_of(*ast).drop_last()).len()
            < 255,
        old(buffers)@.len() + buffers_of(*ast).len() < ops.buffer_count,
        old(buffers)@.len() + buffers_of(*ast).len() <= 255,
    ensures
        final(code)@ == old(code)@ + emit(*ast, old(constants)@, old(buffers)@.len(), *ops),
        final(constants)@ == record_all(old(constants)@, keys_of(*ast)),
        final(buffers)@ == old(buffers)@ + buffers_of(*ast),
    decreases ast,
{
    let ghost table = constants@;
    let ghost code0 = code@;
    let ghost bufs0 = buffers@;
    match ast {
        Ast::Buffer(b) => {
            let idx = buffers.len();
            buffers.push(*b);
            code.push(idx as u8);
            assert(code@ =~= code0 + emit(*ast, table, bufs0.len(), *ops));
            assert(buffers@ =~= bufs0 + buffers_of(*ast));
        },
        Ast::X => {
            code.push(ops.x);
            assert(code@ =~= code0 + emit(*ast, table, bufs0.len(), *ops));
            assert(buffers@ =~= bufs0 + buffers_of(*ast));
        },
        Ast::Y => {
            code.push(ops.y);
            assert(code@ =~= code0 + emit(*ast, table, bufs0.len(), *ops));
            assert(buffers@ =~= bufs0 + buffers_of(*ast));
        },
        Ast::Z => {
            code.push(ops.z);
            assert(code@ =~= code0 + emit(*ast, table, bufs0.len(), *ops));
            assert(buffers@ =~= bufs0 + buffers_of(*ast));
        },
        Ast::Constant(c) => {
            code.push(ops.constant_small);
            assert(seq![*c].drop_last() =~= Seq::<u32>::empty());
            let slot = constants.record(*c);
            code.push(slot as u8);
            assert(code@ =~= code0 + emit(*ast, table, bufs0.len(), *ops));
            assert(buffers@ =~= bufs0 + buffers_of(*ast));
        },
        Ast::DistToPoly(v) => {
            compile_poly(v, code, constants, ops);
            code.push(ops.collect_poly);
            code.push(v.len() as u8);
            assert(code@ =~= code0 + emit(*ast, table, bufs0.len(), *ops));
            assert(buffers@ =~= bufs0 + buffers_of(*ast));
        },
        Ast::Transform { target, matrix } => {
            let ghost m = matrix@;
            let ghost kt = keys_of(**target);
            proof {
                lemma_child_bound(table, Seq::<u32>::empty(), m, kt);
                assert(Seq::<u32>::empty() + m + kt =~= m + kt);
                if kt.len() > 0 {
                    lemma_child_bound(table, m, kt, Seq::<u32>::empty());
                    assert(m + kt + Seq::<u32>::empty() =~= m + kt);
                }
                lemma_record_all_append(table, m, kt);
            }
            code.push(ops.push_transform);
            push_consts(matrix.as_slice(), code, constants);
            compile_inner(&**target, code, constants, buffers, ops);
            code.push(ops.pop_transform);
            assert(code@ =~= code0 + emit(*ast, table, bufs0.len(), *ops));
        },
        Ast::Sub(l, r) => {
            let ghost kl = keys_of(**l);
            let ghost kr = keys_of(**r);
            proof {
                if kl.len() > 0 {
                    lemma_child_bound(table, Seq::<u32>::empty(), kl, kr);
                    assert(Seq::<u32>::empty() + kl + kr =~= kl + kr);
                }
                if kr.len() > 0 {
                    lemma_child_bound(table, kl, kr, Seq::<u32>::empty());
                    assert(kl + kr + Seq::<u32>::empty() =~= kl + kr);
                }
                lemma_record_all_append(table, kl, kr);
            }
            compile_inner(&**l, code, constants, buffers, ops);
            compile_inner(&**r, code, constants, buffers, ops);
            code.push(ops.sub);
            assert(code@ =~= code0 + emit(*ast, table, bufs0.len(), *ops));
            assert(buffers@ =~= bufs0 + buffers_of(*ast));
        },
        Ast::Add(lst) => {
            compile_list(lst, code, constants, buffers, ops, ops.add);
        },
        Ast::Mul(lst) => {
            compile_list(lst, code, constants, buffers, ops, ops.mul);
        },
        Ast::Max(lst) => {
            compile_list(lst, code, constants, buffers, ops, ops.max);
        },
        Ast::Min(lst) => {
            compile_list(lst, code, constants, buffers, ops, ops.min);
        },
        Ast::Abs(t) => {
            compile_inner(&**t, code, constants, buffers, ops);
            code.push(ops.abs);
            assert(code@ =~= code0 + emit(*ast, table, bufs0.len(), *ops));
        },
        Ast::Sqrt(t) => {
            compile_inner(&**t, code, constants, buffers, ops);
            code.push(ops.sqrt);
            assert(code@ =~= code0 + emit(*ast, table, bufs0.len(), *ops));
        },
        Ast::Neg(t) => {
            compile_inner(&**t, code, constants, buffers, ops);
            code.push(ops.neg);
            assert(code@ =~= code0 + emit(*ast, table, bufs0.len(), *ops));
        },
        Ast::Square(t) => {
            compile_inner(&**t, code, constants, buffers, ops);
            code.push(ops.square);
            assert(code@ =~= code0 + emit(*ast, table, bufs0.len(), *ops));
        },
    }
}

/// Appends the code of a polygon's edges, before its collecting
/// instruction.
fn compile_poly(
    edges: &Vec<(u32, u32, u32, u32)>,
    code: &mut Vec<u8>,
    constants: &mut ConstantCache,
    ops: &Opcodes,
)
    requires
        poly_keys(edges@).len() > 0 ==> record_all(old(constants)@, poly_keys(edges@).drop_last()).len()
            < 255,
    ensures
        final(code)@ == old(code)@ + poly_bytes(old(constants)@, edges@, *ops),
        final(constants)@ == record_all(old(constants)@, poly_keys(edges@)),
{
    let ghost table = constants@;
    let ghost code0 = code@;
    let mut i: usize = 0;
    while i < edges.len()
        invariant
            i <= edges@.len(),
            poly_keys(edges@).len() > 0 ==> record_all(table, poly_keys(edges@).drop_last()).len()
                < 255,
            code@ == code0 + poly_bytes(table, edges@.subrange(0, i as int), *ops),
            constants@ == record_all(table, poly_keys(edges@.subrange(0, i as int))),
        decreases edges@.len() - i,
    {
        let ghost done = edges@.subrange(0, i as int);
        let ghost next = edges@.subrange(0, i + 1);
        let (x1, y1, x2, y2) = edges[i];
        let ks: [u32; 4] = [x1, y1, x2, y2];
        proof {
            assert(ks@ =~= edge_keys(edges@[i as int]));
            lemma_poly_split(edges@, i + 1);
            assert(next.drop_last() =~= done);
            assert(next.last() == edges@[i as int]);
            lemma_child_bound(
                table,
                poly_keys(done),
                ks@,
                poly_keys(edges@.subrange(i + 1, edges@.len() as int)),
            );
            lemma_record_all_append(table, poly_keys(done), ks@);
        }
        code.push(ops.dist_to_line);
        push_consts(ks.as_slice(), code, constants);
        assert(code@ =~= code0 + poly_bytes(table, next, *ops));
        i = i + 1;
    }
    assert(edges@.subrange(0, i as int) =~= edges@);
}

/// Appends the code of the operands `asts` of the operator `op`.
fn compile_list(
    asts: &Vec<Ast>,
    code: &mut Vec<u8>,
    constants: &mut ConstantCache,
    buffers: &mut Vec<usize>,
    ops: &Opcodes,
    op: u8,
)
    requires
        asts@.len() > 0,
        list_compilable(asts@),
        list_keys(asts@).len() > 0 ==> record_all(old(constants)@, list_keys(asts@).drop_last()).len()
            < 255,
        old(buffers)@.len() + list_buffers(asts@).len() < ops.buffer_count,
        old(buffers)@.len() + list_buffers(asts@).len() <= 255,
    ensures
        final(code)@ == old(code)@ + list_bytes(asts@, old(constants)@, old(buffers)@.len(), *ops, op),
        final(constants)@ == record_all(old(constants)@, list_keys(asts@)),
        final(buffers)@ == old(buffers)@ + list_buffers(asts@),
    decreases asts@,
{
    let ghost table = constants@;
    let ghost code0 = code@;
    let ghost bufs0 = buffers@;
    let n = asts.len();
    proof {
        lemma_list_split(asts@, 1);
        assert(asts@.subrange(0, 1).drop_last() =~= Seq::<Ast>::empty());
        assert(asts@.subrange(0, 1).last() == asts@[0]);
        assert(list_keys(asts@.subrange(0, 1)) =~= list_keys(Seq::<Ast>::empty()) + keys_of(asts@[0]));
        assert(list_keys(asts@.subrange(0, 1)) =~= keys_of(asts@[0]));
        assert(list_buffers(asts@.subrange(0, 1)) =~= list_buffers(Seq::<Ast>::empty()) + buffers_of(asts@[0]));
        assert(list_buffers(asts@.subrange(0, 1)) =~= buffers_of(asts@[0]));
        lemma_list_compilable(asts@, 0);
        let k0 = keys_of(asts@[0]);
        if k0.len() > 0 {
            lemma_child_bound(table, Seq::<u32>::empty(), k0, list_keys(asts@.subrange(1, n as int)));
            assert(Seq::<u32>::empty() + k0 + list_keys(asts@.subrange(1, n as int)) =~= list_keys(
                asts@,
            ));
        }
    }
    compile_inner(&asts[0], code, constants, buffers, ops);
    assert(buffers@ =~= bufs0 + list_buffers(asts@.subrange(0, 1)));
    assert(code@ =~= code0 + list_bytes(asts@.subrange(0, 1), table, bufs0.len(), *ops, op));
    let mut i: usize = 1;
    while i < n
        invariant
            1 <= i <= n,
            n == asts@.len(),
            list_compilable(asts@),
            list_keys(asts@).len() > 0 ==> record_all(table, list_keys(asts@).drop_last()).len()
                < 255,
            bufs0.len() + list_buffers(asts@).len() < ops.buffer_count,
            bufs0.len() + list_buffers(asts@).len() <= 255,
            code@ == code0 + list_bytes(asts@.subrange(0, i as int), table, bufs0.len(), *ops, op),
            constants@ == record_all(table, list_keys(asts@.subrange(0, i as int))),
            buffers@ == bufs0 + list_buffers(asts@.subrange(0, i as int)),
        decreases n - i,
    {
        let ghost done = asts@.subrange(0, i as int);
        let ghost next = asts@.subrange(0, i + 1);
        proof {
            lemma_list_split(asts@, i + 1);
            assert(next.drop_last() =~= done);
            assert(next.last() == asts@[i as int]);
            lemma_list_compilable(asts@, i as int);
            let ki = keys_of(asts@[i as int]);
            let rest = list_keys(asts@.subrange(i + 1, n as int));
            if ki.len() > 0 {
                lemma_child_bound(table, list_keys(done), ki, rest);
            }
            lemma_record_all_append(table, list_keys(done), ki);
        }
        compile_inner(&asts[i], code, constants, buffers, ops);
        code.push(op);
        assert(code@ =~= code0 + list_bytes(next, table, bufs0.len(), *ops, op));
        assert(buffers@ =~= bufs0 + list_buffers(next));
        i = i + 1;
    }
    assert(asts@.subrange(0, i as int) =~= asts@);
}

/// Each expression of a `list_compilable` list is `compilable`.
proof fn lemma_list_compilable(asts: Seq<Ast>, i: int)
    requires
        list_compilable(asts),
        0 <= i < asts.len(),
    ensures
        compilable(asts[i]),
    decreases asts.len(),
{
    if i < asts.len() - 1 {
        lemma_list_compilable(asts.drop_last(), i);
    }
}

/// The largest of the first expressions is no larger than the largest of
/// all.
proof fn lemma_list_depth_prefix(asts: Seq<Ast>, j: int)
    requires
        0 <= j <= asts.len(),
    ensures
        list_depth(asts.subrange(0, j)) <= list_depth(asts),
        list_transform_depth(asts.subrange(0, j)) <= list_transform_depth(asts),
    decreases asts.len(),
{
    if j < asts.len() {
        lemma_list_depth_prefix(asts.drop_last(), j);
        assert(asts.drop_last().subrange(0, j) =~= asts.subrange(0, j));
    } else {
        assert(asts.subrange(0, j) =~= asts);
    }
}

/// Computes `depth(*ast)`.
fn stack_depth(ast: &Ast) -> (r: u32)
    requires
        depth(*ast) <= u32::MAX,
    ensures
        r == depth(*ast),
    decreases ast,
{
    match ast {
        Ast::X | Ast::Y | Ast::Z | Ast::Constant(_) | Ast::Buffer(_) => 1,
        Ast::DistToPoly(v) => v.len() as u32,
        Ast::Transform { target, .. } => stack_depth(&**target),
        Ast::Sub(l, r) => {
            let a = stack_depth(&**l);
            let b = stack_depth(&**r);
            if a >= b {
                a + 1
            } else {
                b + 1
            }
        },
        Ast::Mul(lst) | Ast::Add(lst) | Ast::Min(lst) | Ast::Max(lst) => list_stack_depth(lst) + 1,
        Ast::Square(t) | Ast::Abs(t) | Ast::Sqrt(t) | Ast::Neg(t) => stack_depth(&**t),
    }
}

/// Computes `list_depth(asts@)`.
fn list_stack_depth(asts: &Vec<Ast>) -> (r: u32)
    requires
        list_depth(asts@) <= u32::MAX,
    ensures
        r == list_depth(asts@),
    decreases asts@,
{
    let mut m: u32 = 0;
    let mut i: usize = 0;
    while i < asts.len()
        invariant
            i <= asts@.len(),
            list_depth(asts@) <= u32::MAX,
            m == list_depth(asts@.subrange(0, i as int)),
        decreases asts@.len() - i,
    {
        proof {
            lemma_list_depth_prefix(asts@, i + 1);
            assert(asts@.subrange(0, i + 1).drop_last() =~= asts@.subrange(0, i as int));
            assert(asts@.subrange(0, i + 1).last() == asts@[i as int]);
        }
        let d = stack_depth(&asts[i]);
        if d > m {
            m = d;
        }
        i = i + 1;
    }
    assert(asts@.subrange(0, i as int) =~= asts@);
    m
}

/// Computes `transform_depth(*ast)`.
fn transform_levels(ast: &Ast) -> (r: u32)
    requires
        transform_depth(*ast) <= u32::MAX,
    ensures
        r == transform_depth(*ast),
    decreases ast,
{
    match ast {
        Ast::X | Ast::Y | Ast::Z | Ast::DistToPoly(_) => 1,
        Ast::Constant(_) | Ast::Buffer(_) => 0,
        Ast::Transform { target, .. } => 1 + transform_levels(&**target),
        Ast::Sub(l, r) => {
            let a = transform_levels(&**l);
            let b = transform_levels(&**r);
            if a >= b {
                a
            } else {
                b
            }
        },
        Ast::Mul(lst) | Ast::Add(lst) | Ast::Min(lst) | Ast::Max(lst) => list_transform_levels(lst),
        Ast::Square(t) | Ast::Abs(t) | Ast::Sqrt(t) | Ast::Neg(t) => transform_levels(&**t),
    }
}

/// Computes `list_transform_depth(asts@)`.
fn list_transform_levels(asts: &Vec<Ast>) -> (r: u32)
    requires
        list_transform_depth(asts@) <= u32::MAX,
    ensures
        r == list_transform_depth(asts@),
    decreases asts@,
{
    let mut m: u32 = 0;
    let mut i: usize = 0;
    while i < asts.len()
        invariant
            i <= asts@.len(),
            list_transform_depth(asts@) <= u32::MAX,
            m == list_transform_depth(asts@.subrange(0, i as int)),
        decreases asts@.len() - i,
    {
        proof {
            lemma_list_depth_prefix(asts@, i + 1);
            assert(asts@.subrange(0, i + 1).drop_last() =~= asts@.subrange(0, i as int));
            assert(asts@.subrange(0, i + 1).last() == asts@[i as int]);
        }
        let d = transform_levels(&asts[i]);
        if d > m {
            m = d;
        }
        i = i + 1;
    }
    assert(asts@.subrange(0, i as int) =~= asts@);
    m
}

/// Code for the stack machine, with the tables it reads.
pub struct CompilationResult {
    pub code: Vec<u8>,
    /// The key of each constant slot, in slot order.
    pub constants: Vec<u32>,
    pub max_stack: u32,
    pub transform_depth: u32,
    /// The buffers to bind, in binding order.
    pub buffers: Vec<usize>,
}

/// The constant table is short enough for one-byte slots: no constant is
/// looked up while 255 are in the table already.
pub open spec fn constants_fit(ast: Ast) -> bool {
    keys_of(ast).len() > 0 ==> record_all(Seq::<u32>::empty(), keys_of(ast).drop_last()).len() < 255
}

/// Compiles `ast` into code for the stack machine whose instructions are
/// `ops`: the code, its constant table (the keys of `ast` without repeats,
/// in the order first met), the deepest stack and transform nesting, and the
/// buffers to bind.
pub fn compile(ast: &Ast, ops: &Opcodes) -> (r: CompilationResult)
    requires
        compilable(*ast),
        constants_fit(*ast),
        buffers_of(*ast).len() < ops.buffer_count,
        buffers_of(*ast).len() <= 255,
        depth(*ast) <= u32::MAX,
        transform_depth(*ast) <= u32::MAX,
    ensures
        r.code@ == emit(*ast, Seq::<u32>::empty(), 0, *ops),
        r.constants@ == record_all(Seq::<u32>::empty(), keys_of(*ast)),
        r.max_stack == depth(*ast),
        r.transform_depth == transform_depth(*ast),
        r.buffers@ == buffers_of(*ast),
{
    let mut code: Vec<u8> = Vec::new();
    let mut constants = ConstantCache::new();
    let max_stack = stack_depth(ast);
    let transform_depth = transform_levels(ast);
    let mut buffers: Vec<usize> = Vec::new();
    compile_inner(ast, &mut code, &mut constants, &mut buffers, ops);
    assert(buffers@ =~= buffers_of(*ast));
    assert(code@ =~= emit(*ast, Seq::<u32>::empty(), 0, *ops));
    CompilationResult { code, constants: constants.to_vec(), max_stack, buffers, transform_depth }
}

/// `position` of a key that the table holds is its first occurrence.
pub proof fn lemma_position_found(table: Seq<u32>, k: u32)
    requires
        table.contains(k),
    ensures
        0 <= position(table, k) < table.len(),
        table[position(table, k)] == k,
        !table.subrange(0, position(table, k)).contains(k),
    decreases table.len(),
{
    if table.drop_last().contains(k) {
        lemma_position_found(table.drop_last(), k);
        let p = position(table, k);
        assert(table.subrange(0, p) =~= table.drop_last().subrange(0, p));
    } else {
        let w = choose|i: int| 0 <= i < table.len() && table[i] == k;
        if w < table.len() - 1 {
            assert(table.drop_last()[w] == k);
        }
        assert(table.subrange(0, table.len() - 1) =~= table.drop_last());
    }
}

/// The constant table never holds a key twice.
pub proof fn lemma_table_distinct(table: Seq<u32>, keys: Seq<u32>)
    requires
        table.no_duplicates(),
    ensures
        record_all(table, keys).no_duplicates(),
    decreases keys.len(),
{
    if keys.len() > 0 {
        lemma_table_distinct(table, keys.drop_last());
        let before = record_all(table, keys.drop_last());
        if !before.contains(keys.last()) {
            assert forall|i: int, j: int|
                0 <= i < before.push(keys.last()).len() && 0 <= j < before.push(keys.last()).len()
                    && i != j implies before.push(keys.last())[i] != before.push(keys.last())[j] by {
                if i < before.len() && j < before.len() {
                } else if i < before.len() {
                    assert(before.contains(before[i]));
                } else {
                    assert(before.contains(before[j]));
                }
            }
        }
    }
}

/// The constant table holds exactly the keys it started with and the keys
/// looked up.
pub proof fn lemma_table_contents(table: Seq<u32>, keys: Seq<u32>, k: u32)
    ensures
        record_all(table, keys).contains(k) <==> (table.contains(k) || keys.contains(k)),
    decreases keys.len(),
{
    if keys.len() > 0 {
        lemma_table_contents(table, keys.drop_last(), k);
        let before = record_all(table, keys.drop_last());
        if keys.drop_last().contains(k) {
            let w = choose|i: int| 0 <= i < keys.drop_last().len() && keys.drop_last()[i] == k;
            assert(keys[w] == k);
        }
        if keys.contains(k) && !keys.drop_last().contains(k) {
            let w = choose|i: int| 0 <= i < keys.len() && keys[i] == k;
            if w < keys.len() - 1 {
                assert(keys.drop_last()[w] == k);
            }
            assert(keys.last() == k);
        }
        if record(before, keys.last()).contains(k) && !before.contains(k) {
            let w = choose|i: int| 0 <= i < record(before, keys.last()).len() && record(before, keys.last())[i] == k;
            if w < before.len() {
                assert(before[w] == k);
            }
        }
        if before.contains(k) {
            let w = choose|i: int| 0 <= i < before.len() && before[i] == k;
            assert(record(before, keys.last())[w] == k);
        }
        if keys.last() == k && !before.contains(k) {
            assert(record(before, keys.last())[before.len() as int] == k);
        }
    }
}

/// Once a constant has a slot, later lookups leave it in that slot: every
/// occurrence of a key reads the same slot of the final table.
pub proof fn lemma_slot_stable(table: Seq<u32>, a: Seq<u32>, b: Seq<u32>, k: u32)
    requires
        record_all(table, a).contains(k),
    ensures
        position(record_all(table, a + b), k) == position(record_all(table, a), k),
        record_all(table, a + b)[position(record_all(table, a), k)] == k,
{
    let ra = record_all(table, a);
    let rab = record_all(table, a + b);
    lemma_record_all_append(table, a, b);
    lemma_record_all_grows(ra, b);
    lemma_position_found(ra, k);
    let p = position(ra, k);
    assert(rab.subrange(0, ra.len() as int)[p] == ra[p]);
    assert(rab.subrange(0, p) =~= ra.subrange(0, p)) by {
        assert forall|i: int| 0 <= i < p implies rab.subrange(0, p)[i] == ra.subrange(0, p)[i] by {
            assert(rab.subrange(0, ra.len() as int)[i] == ra[i]);
        }
    }
    lemma_position(rab, k, p);
}

/// The constant table of a compiled expression holds each of its constants
/// exactly once.
pub proof fn lemma_compiled_table(ast: Ast, k: u32)
    ensures
        record_all(Seq::<u32>::empty(), keys_of(ast)).no_duplicates(),
        record_all(Seq::<u32>::empty(), keys_of(ast)).contains(k) <==> keys_of(ast).contains(k),
{
    lemma_table_distinct(Seq::<u32>::empty(), keys_of(ast));
    lemma_table_contents(Seq::<u32>::empty(), keys_of(ast), k);
}

/// `keys` can be looked up in turn, starting from `table`, without a lookup
/// meeting a full table of 255 constants.
pub open spec fn fits_from(table: Seq<u32>, keys: Seq<u32>) -> bool {
    keys.len() > 0 ==> record_all(table, keys.drop_last()).len() < 255
}

/// `compile` accepts `ast` for the machine `ops`.
pub open spec fn compiles_with(ast: Ast, ops: Opcodes) -> bool {
    &&& compilable(ast)
    &&& constants_fit(ast)
    &&& buffers_of(ast).len() < ops.buffer_count
    &&& buffers_of(ast).len() <= 255
    &&& depth(ast) <= u32::MAX
    &&& transform_depth(ast) <= u32::MAX
}

/// Two batches of keys fit when the first fits and the second fits after
/// it.
proof fn lemma_fits_split(table: Seq<u32>, a: Seq<u32>, b: Seq<u32>)
    ensures
        fits_from(table, a + b) == (fits_from(table, a) && fits_from(record_all(table, a), b)),
{
    if b.len() == 0 {
        assert(a + b =~= a);
    } else {
        assert((a + b).drop_last() =~= a + b.drop_last());
        lemma_record_all_append(table, a, b.drop_last());
        if a.len() > 0 {
            lemma_child_bound(table, Seq::<u32>::empty(), a, b);
            assert(Seq::<u32>::empty() + a + b =~= a + b);
            lemma_record_all_grows(record_all(table, a), b.drop_last());
            lemma_record_all_grows(record_all(table, a.drop_last()), seq![a.last()]);
            assert(seq![a.last()].drop_last() =~= Seq::<u32>::empty());
            assert(a.drop_last() + seq![a.last()] =~= a);
            lemma_record_all_append(table, a.drop_last(), seq![a.last()]);
        }
    }
}

/// Looks `keys` up in turn; `false`, with the table left anywhere, when a
/// lookup meets a full table.
fn fits_keys(keys: &[u32], cache: &mut ConstantCache) -> (ok: bool)
    requires
        old(cache)@.len() <= 255,
    ensures
        ok == fits_from(old(cache)@, keys@),
        ok ==> final(cache)@ == record_all(old(cache)@, keys@),
        final(cache)@.len() <= 255,
{
    let ghost table = cache@;
    let mut i: usize = 0;
    while i < keys.len()
        invariant
            i <= keys@.len(),
            table == old(cache)@,
            fits_from(table, keys@.subrange(0, i as int)),
            cache@ == record_all(table, keys@.subrange(0, i as int)),
            cache@.len() <= 255,
        decreases keys@.len() - i,
    {
        let ghost done = keys@.subrange(0, i as int);
        proof {
            lemma_fits_split(table, done, seq![keys@[i as int]]);
            assert(done + seq![keys@[i as int]] =~= keys@.subrange(0, i + 1));
            assert(seq![keys@[i as int]].drop_last() =~= Seq::<u32>::empty());
            lemma_record_all_append(table, done, seq![keys@[i as int]]);
            assert(record_all(cache@, seq![keys@[i as int]]) == record(
                record_all(cache@, Seq::<u32>::empty()),
                keys@[i as int],
            ));
        }
        if cache.len() >= 255 {
            proof {
                assert(record_all(cache@, Seq::<u32>::empty()) == cache@);
                assert(!fits_from(cache@, seq![keys@[i as int]]));
                assert(!fits_from(table, keys@.subrange(0, i + 1)));
                lemma_fits_split(table, keys@.subrange(0, i + 1), keys@.subrange(i + 1, keys@.len() as int));
                assert(keys@.subrange(0, i + 1) + keys@.subrange(i + 1, keys@.len() as int) =~= keys@);
                assert(!fits_from(table, keys@));
            }
            return false;
        }
        cache.record(keys[i]);
        i = i + 1;
    }
    assert(keys@.subrange(0, i as int) =~= keys@);
    true
}

/// Looks the constants of `ast` up in turn, as `fits_keys` does.
fn fits_walk(ast: &Ast, cache: &mut ConstantCache) -> (ok: bool)
    requires
        old(cache)@.len() <= 255,
    ensures
        ok == fits_from(old(cache)@, keys_of(*ast)),
        ok ==> final(cache)@ == record_all(old(cache)@, keys_of(*ast)),
        final(cache)@.len() <= 255,
    decreases ast,
{
    let ghost table = cache@;
    match ast {
        Ast::Constant(c) => {
            let ks: [u32; 1] = [*c];
            assert(ks@ =~= seq![*c]);
            fits_keys(ks.as_slice(), cache)
        },
        Ast::DistToPoly(v) => fits_poly(v, cache),
        Ast::Transform { target, matrix } => {
            proof {
                lemma_fits_split(table, matrix@, keys_of(**target));
                lemma_record_all_append(table, matrix@, keys_of(**target));
            }
            if !fits_keys(matrix.as_slice(), cache) {
                return false;
            }
            fits_walk(&**target, cache)
        },
        Ast::Sub(l, r) => {
            proof {
                lemma_fits_split(table, keys_of(**l), keys_of(**r));
                lemma_record_all_append(table, keys_of(**l), keys_of(**r));
            }
            if !fits_walk(&**l, cache) {
                return false;
            }
            fits_walk(&**r, cache)
        },
        Ast::Mul(lst) | Ast::Add(lst) | Ast::Min(lst) | Ast::Max(lst) => fits_list(lst, cache),
        Ast::Square(t) | Ast::Abs(t) | Ast::Sqrt(t) | Ast::Neg(t) => fits_walk(&**t, cache),
        _ => {
            assert(record_all(table, Seq::<u32>::empty()) == table);
            true
        },
    }
}

/// `fits_walk` for the edges of a polygon.
fn fits_poly(edges: &Vec<(u32, u32, u32, u32)>, cache: &mut ConstantCache) -> (ok: bool)
    requires
        old(cache)@.len() <= 255,
    ensures
        ok == fits_from(old(cache)@, poly_keys(edges@)),
        ok ==> final(cache)@ == record_all(old(cache)@, poly_keys(edges@)),
        final(cache)@.len() <= 255,
{
    let ghost table = cache@;
    let mut i: usize = 0;
    while i < edges.len()
        invariant
            i <= edges@.len(),
            table == old(cache)@,
            fits_from(table, poly_keys(edges@.subrange(0, i as int))),
            cache@ == record_all(table, poly_keys(edges@.subrange(0, i as int))),
            cache@.len() <= 255,
        decreases edges@.len() - i,
    {
        let ghost done = edges@.subrange(0, i as int);
        let ghost next = edges@.subrange(0, i + 1);
        let (x1, y1, x2, y2) = edges[i];
        let ks: [u32; 4] = [x1, y1, x2, y2];
        proof {
            assert(ks@ =~= edge_keys(edges@[i as int]));
            assert(next.drop_last() =~= done);
            assert(next.last() == edges@[i as int]);
            lemma_fits_split(table, poly_keys(done), ks@);
            lemma_record_all_append(table, poly_keys(done), ks@);
        }
        if !fits_keys(ks.as_slice(), cache) {
            proof {
                lemma_poly_split(edges@, i + 1);
                lemma_fits_split(table, poly_keys(next), poly_keys(edges@.subrange(i + 1, edges@.len() as int)));
            }
            return false;
        }
        i = i + 1;
    }
    assert(edges@.subrange(0, i as int) =~= edges@);
    true
}

/// `fits_walk` for the operands of an operator.
fn fits_list(asts: &Vec<Ast>, cache: &mut ConstantCache) -> (ok: bool)
    requires
        old(cache)@.len() <= 255,
    ensures
        ok == fits_from(old(cache)@, list_keys(asts@)),
        ok ==> final(cache)@ == record_all(old(cache)@, list_keys(asts@)),
        final(cache)@.len() <= 255,
    decreases asts@,
{
    let ghost table = cache@;
    let mut i: usize = 0;
    while i < asts.len()
        invariant
            i <= asts@.len(),
            table == old(cache)@,
            fits_from(table, list_keys(asts@.subrange(0, i as int))),
            cache@ == record_all(table, list_keys(asts@.subrange(0, i as int))),
            cache@.len() <= 255,
        decreases asts@.len() - i,
    {
        let ghost done = asts@.subrange(0, i as int);
        let ghost next = asts@.subrange(0, i + 1);
        proof {
            assert(next.drop_last() =~= done);
            assert(next.last() == asts@[i as int]);
            lemma_fits_split(table, list_keys(done), keys_of(asts@[i as int]));
            lemma_record_all_append(table, list_keys(done), keys_of(asts@[i as int]));
        }
        if !fits_walk(&asts[i], cache) {
            proof {
                lemma_list_split(asts@, i + 1);
                lemma_fits_split(table, list_keys(next), list_keys(asts@.subrange(i + 1, asts@.len() as int)));
            }
            return false;
        }
        i = i + 1;
    }
    assert(asts@.subrange(0, i as int) =~= asts@);
    true
}

/// `n`, or 256 when it is larger.
pub open spec fn cap_count(n: nat) -> nat {
    if n > 256 {
        256
    } else {
        n
    }
}

/// `n`, or one past `u32::MAX` when it is larger.
pub open spec fn cap_level(n: nat) -> nat {
    if n > u32::MAX + 1 {
        (u32::MAX + 1) as nat
    } else {
        n
    }
}

/// Computes `compilable(*ast)`.
fn check_compilable(ast: &Ast) -> (r: bool)
    ensures
        r == compilable(*ast),
    decreases ast,
{
    match ast {
        Ast::DistToPoly(v) => v.len() <= 255,
        Ast::Transform { target, .. } => check_compilable(&**target),
        Ast::Sub(l, r) => check_compilable(&**l) && check_compilable(&**r),
        Ast::Mul(lst) | Ast::Add(lst) | Ast::Min(lst) | Ast::Max(lst) => lst.len() > 0
            && check_list_compilable(lst),
        Ast::Square(t) | Ast::Abs(t) | Ast::Sqrt(t) | Ast::Neg(t) => check_compilable(&**t),
        _ => true,
    }
}

/// Computes `list_compilable(asts@)`.
fn check_list_compilable(asts: &Vec<Ast>) -> (r: bool)
    ensures
        r == list_compilable(asts@),
    decreases asts@,
{
    let mut i: usize = 0;
    while i < asts.len()
        invariant
            i <= asts@.len(),
            list_compilable(asts@.subrange(0, i as int)),
        decreases asts@.len() - i,
    {
        proof {
            assert(asts@.subrange(0, i + 1).drop_last() =~= asts@.subrange(0, i as int));
            assert(asts@.subrange(0, i + 1).last() == asts@[i as int]);
        }
        if !check_compilable(&asts[i]) {
            proof {
                if list_compilable(asts@) {
                    lemma_list_compilable(asts@, i as int);
                }
            }
            return false;
        }
        i = i + 1;
    }
    assert(asts@.subrange(0, i as int) =~= asts@);
    true
}

/// Computes `cap_count(buffers_of(*ast).len())`.
fn count_buffers(ast: &Ast) -> (r: usize)
    ensures
        r == cap_count(buffers_of(*ast).len()),
    decreases ast,
{
    match ast {
        Ast::Buffer(_) => 1,
        Ast::Transform { target, .. } => count_buffers(&**target),
        Ast::Sub(l, r) => {
            let a = count_buffers(&**l);
            let b = count_buffers(&**r);
            if a + b > 256 {
                256
            } else {
                a + b
            }
        },
        Ast::Mul(lst) | Ast::Add(lst) | Ast::Min(lst) | Ast::Max(lst) => count_list_buffers(lst),
        Ast::Square(t) | Ast::Abs(t) | Ast::Sqrt(t) | Ast::Neg(t) => count_buffers(&**t),
        _ => 0,
    }
}

/// Computes `cap_count(list_buffers(asts@).len())`.
fn count_list_buffers(asts: &Vec<Ast>) -> (r: usize)
    ensures
        r == cap_count(list_buffers(asts@).len()),
    decreases asts@,
{
    let mut n: usize = 0;
    let mut i: usize = 0;
    while i < asts.len()
        invariant
            i <= asts@.len(),
            n == cap_count(list_buffers(asts@.subrange(0, i as int)).len()),
        decreases asts@.len() - i,
    {
        proof {
            assert(asts@.subrange(0, i + 1).drop_last() =~= asts@.subrange(0, i as int));
            assert(asts@.subrange(0, i + 1).last() == asts@[i as int]);
        }
        let b = count_buffers(&asts[i]);
        n = if n + b > 256 {
            256
        } else {
            n + b
        };
        i = i + 1;
    }
    assert(asts@.subrange(0, i as int) =~= asts@);
    n
}

/// Computes `cap_level(depth(*ast))`.
fn capped_depth(ast: &Ast) -> (r: u64)
    ensures
        r == cap_level(depth(*ast)),
    decreases ast,
{
    match ast {
        Ast::X | Ast::Y | Ast::Z | Ast::Constant(_) | Ast::Buffer(_) => 1,
        Ast::DistToPoly(v) => if v.len() as u64 > 0x1_0000_0000 {
            0x1_0000_0000
        } else {
            v.len() as u64
        },
        Ast::Transform { target, .. } => capped_depth(&**target),
        Ast::Sub(l, r) => {
            let a = capped_depth(&**l);
            let b = capped_depth(&**r);
            let m = if a >= b {
                a
            } else {
                b
            };
            if m + 1 > 0x1_0000_0000 {
                0x1_0000_0000
            } else {
                m + 1
            }
        },
        Ast::Mul(lst) | Ast::Add(lst) | Ast::Min(lst) | Ast::Max(lst) => {
            let m = capped_list_depth(lst);
            if m + 1 > 0x1_0000_0000 {
                0x1_0000_0000
            } else {
                m + 1
            }
        },
        Ast::Square(t) | Ast::Abs(t) | Ast::Sqrt(t) | Ast::Neg(t) => capped_depth(&**t),
    }
}

/// Computes `cap_level(list_depth(asts@))`.
fn capped_list_depth(asts: &Vec<Ast>) -> (r: u64)
    ensures
        r == cap_level(list_depth(asts@)),
    decreases asts@,
{
    let mut m: u64 = 0;
    let mut i: usize = 0;
    while i < asts.len()
        invariant
            i <= asts@.len(),
            m == cap_level(list_depth(asts@.subrange(0, i as int))),
        decreases asts@.len() - i,
    {
        proof {
            assert(asts@.subrange(0, i + 1).drop_last() =~= asts@.subrange(0, i as int));
            assert(asts@.subrange(0, i + 1).last() == asts@[i as int]);
        }
        let d = capped_depth(&asts[i]);
        if d > m {
            m = d;
        }
        i = i + 1;
    }
    assert(asts@.subrange(0, i as int) =~= asts@);
    m
}

/// Computes `cap_level(transform_depth(*ast))`.
fn capped_transform_depth(ast: &Ast) -> (r: u64)
    ensures
        r == cap_level(transform_depth(*ast)),
    decreases ast,
{
    match ast {
        Ast::X | Ast::Y | Ast::Z | Ast::DistToPoly(_) => 1,
        Ast::Constant(_) | Ast::Buffer(_) => 0,
        Ast::Transform { target, .. } => {
            let t = capped_transform_depth(&**target);
            if t + 1 > 0x1_0000_0000 {
                0x1_0000_0000
            } else {
                t + 1
            }
        },
        Ast::Sub(l, r) => {
            let a = capped_transform_depth(&**l);
            let b = capped_transform_depth(&**r);
            if a >= b {
                a
            } else {
                b
            }
        },
        Ast::Mul(lst) | Ast::Add(lst) | Ast::Min(lst) | Ast::Max(lst) => capped_list_transform_depth(lst),
        Ast::Square(t) | Ast::Abs(t) | Ast::Sqrt(t) | Ast::Neg(t) => capped_transform_depth(&**t),
    }
}

/// Computes `cap_level(list_transform_depth(asts@))`.
fn capped_list_transform_depth(asts: &Vec<Ast>) -> (r: u64)
    ensures
        r == cap_level(list_transform_depth(asts@)),
    decreases asts@,
{
    let mut m: u64 = 0;
    let mut i: usize = 0;
    while i < asts.len()
        invariant
            i <= asts@.len(),
            m == cap_level(list_transform_depth(asts@.subrange(0, i as int))),
        decreases asts@.len() - i,
    {
        proof {
            assert(asts@.subrange(0, i + 1).drop_last() =~= asts@.subrange(0, i as int));
            assert(asts@.subrange(0, i + 1).last() == asts@[i as int]);
        }
        let d = capped_transform_depth(&asts[i]);
        if d > m {
            m = d;
        }
        i = i + 1;
    }
    assert(asts@.subrange(0, i as int) =~= asts@);
    m
}

/// Whether `compile` accepts `ast` for the machine `ops`: every operator
/// has an operand, no polygon has more than 255 edges, the constant table
/// stays within one-byte slots, the buffers fit the machine, and the stack
/// and transform depths fit in 32 bits.
pub fn can_compile(ast: &Ast, ops: &Opcodes) -> (r: bool)
    ensures
        r == compiles_with(*ast, *ops),
{
    if !check_compilable(ast) {
        return false;
    }
    let mut cache = ConstantCache::new();
    if !fits_walk(ast, &mut cache) {
        return false;
    }
    let nb = count_buffers(ast);
    if nb >= ops.buffer_count || nb > 255 {
        return false;
    }
    capped_depth(ast) <= 0xffff_ffff && capped_transform_depth(ast) <= 0xffff_ffff
}

/// How many transforms are nested in `ast` at most.
pub open spec fn transform_nesting(ast: Ast) -> nat
    decreases ast,
{
    match ast {
        Ast::Transform { target, .. } => transform_nesting(*target) + 1,
        Ast::Sub(l, r) => max_nat(transform_nesting(*l), transform_nesting(*r)),
        Ast::Mul(lst) | Ast::Add(lst) | Ast::Min(lst) | Ast::Max(lst) => list_transform_nesting(lst@),
        Ast::Square(t) | Ast::Abs(t) | Ast::Sqrt(t) | Ast::Neg(t) => transform_nesting(*t),
        _ => 0,
    }
}

/// The largest `transform_nesting` among `asts`, 0 for none.
pub open spec fn list_transform_nesting(asts: Seq<Ast>) -> nat
    decreases asts,
{
    if asts.len() == 0 {
        0
    } else {
        max_nat(list_transform_nesting(asts.drop_last()), transform_nesting(asts.last()))
    }
}

proof fn lemma_list_nesting_prefix(asts: Seq<Ast>, j: int)
    requires
        0 <= j <= asts.len(),
    ensures
        list_transform_nesting(asts.subrange(0, j)) <= list_transform_nesting(asts),
    decreases asts.len(),
{
    if j < asts.len() {
        lemma_list_nesting_prefix(asts.drop_last(), j);
        assert(asts.drop_last().subrange(0, j) =~= asts.subrange(0, j));
    } else {
        assert(asts.subrange(0, j) =~= asts);
    }
}

/// The number of nested transforms in `ast`: how many sets of transformed
/// coordinates its evaluation needs at once.
pub fn max_depth_transforms(ast: &Ast) -> (r: usize)
    requires
        transform_nesting(*ast) <= usize::MAX,
    ensures
        r == transform_nesting(*ast),
    decreases ast,
{
    match ast {
        Ast::Transform { target, .. } => max_depth_transforms(&**target) + 1,
        Ast::Sub(l, r) => {
            let a = max_depth_transforms(&**l);
            let b = max_depth_transforms(&**r);
            if a >= b {
                a
            } else {
                b
            }
        },
        Ast::Mul(lst) | Ast::Add(lst) | Ast::Min(lst) | Ast::Max(lst) => list_max_depth_transforms(lst),
        Ast::Square(t) | Ast::Abs(t) | Ast::Sqrt(t) | Ast::Neg(t) => max_depth_transforms(&**t),
        _ => 0,
    }
}

/// Computes `list_transform_nesting(asts@)`.
fn list_max_depth_transforms(asts: &Vec<Ast>) -> (r: usize)
    requires
        list_transform_nesting(asts@) <= usize::MAX,
    ensures
        r == list_transform_nesting(asts@),
    decreases asts@,
{
    let mut m: usize = 0;
    let mut i: usize = 0;
    while i < asts.len()
        invariant
            i <= asts@.len(),
            list_transform_nesting(asts@) <= usize::MAX,
            m == list_transform_nesting(asts@.subrange(0, i as int)),
        decreases asts@.len() - i,
    {
        proof {
            lemma_list_nesting_prefix(asts@, i + 1);
            assert(asts@.subrange(0, i + 1).drop_last() =~= asts@.subrange(0, i as int));
            assert(asts@.subrange(0, i + 1).last() == asts@[i as int]);
        }
        let d = max_depth_transforms(&asts[i]);
        if d > m {
            m = d;
        }
        i = i + 1;
    }
    assert(asts@.subrange(0, i as int) =~= asts@);
    m
}

/// The name of coordinate `dim` of the transformed coordinates at nesting
/// level `level`: `dim_level`.
pub open spec fn level_name(dim: Seq<char>, level: nat) -> Seq<char> {
    dim + "_"@ + decimal(level)
}

/// The names of the variables of compiled code, in the order they are
/// declared: `x`, `y`, `z`, then `x_i`, `y_i`, `z_i`, `w_i` for each
/// nesting level `i` below `levels`.
pub open spec fn variable_names(levels: nat) -> Seq<Seq<char>>
    decreases levels,
{
    if levels == 0 {
        seq!["x"@, "y"@, "z"@]
    } else {
        let i = (levels - 1) as nat;
        variable_names(i) + seq![
            level_name("x"@, i),
            level_name("y"@, i),
            level_name("z"@, i),
            level_name("w"@, i),
        ]
    }
}

/// The variable names compiled code for `ast` declares (see
/// `variable_names`), each standing for the variable numbered by its
/// position.
pub fn declare_variables(ast: &Ast) -> (r: Vec<String>)
    requires
        transform_nesting(*ast) <= usize::MAX,
    ensures
        r@.map_values(|s: String| s@) == variable_names(transform_nesting(*ast)),
{
    let mut names: Vec<String> = Vec::new();
    names.push(String::from_str("x"));
    names.push(String::from_str("y"));
    names.push(String::from_str("z"));
    assert(names@.map_values(|s: String| s@) =~= variable_names(0));
    let n = max_depth_transforms(ast);
    let mut i: usize = 0;
    while i < n
        invariant
            i <= n,
            n == transform_nesting(*ast),
            names@.map_values(|s: String| s@) == variable_names(i as nat),
        decreases n - i,
    {
        let ghost before = names@.map_values(|s: String| s@);
        names.push(level_text("x", i));
        names.push(level_text("y", i));
        names.push(level_text("z", i));
        names.push(level_text("w", i));
        assert(names@.map_values(|s: String| s@) =~= variable_names((i + 1) as nat));
        i = i + 1;
    }
    names
}

/// `level_name(dim, level)` as a string.
fn level_text(dim: &str, level: usize) -> (r: String)
    ensures
        r@ == level_name(dim@, level as nat),
{
    let mut s = String::from_str(dim);
    s.append("_");
    push_decimal(&mut s, level);
    s
}

/// No two variables of compiled code share a name, so each name declares
/// a variable of its own.
pub proof fn lemma_variable_names_distinct(levels: nat)
    ensures
        variable_names(levels).no_duplicates(),
    decreases levels,
{
    reveal_strlit("x");
    reveal_strlit("y");
    reveal_strlit("z");
    reveal_strlit("w");
    reveal_strlit("_");
    if levels == 0 {
        assert("x"@[0] != "y"@[0]);
        assert("x"@[0] != "z"@[0]);
        assert("y"@[0] != "z"@[0]);
    } else {
        let i = (levels - 1) as nat;
        lemma_variable_names_distinct(i);
        let names = variable_names(levels);
        let before = variable_names(i);
        lemma_names_shape(i);
        lemma_decimal_nonempty(i);
        assert forall|a: int, b: int|
            0 <= a < names.len() && 0 <= b < names.len() && a != b implies names[a] != names[b] by {
            if a >= before.len() || b >= before.len() {
                let (p, q) = if a >= before.len() {
                    (a, b)
                } else {
                    (b, a)
                };
                // names[p] is a name of level i.
                assert(names[p].len() >= 3);
                assert(names[p][1] == '_');
                if q < 3 {
                    assert(names[q] == before[q]);
                    assert(names[q].len() == 1);
                } else if q < before.len() {
                    assert(names[q] == before[q]);
                    assert(is_level_name(before[q], i));
                    let lq = choose|l: nat| l < i && #[trigger] level_name(names[q].subrange(0, 1), l) == names[q];
                    if names[p] == names[q] {
                        assert(names[p].subrange(2, names[p].len() as int) =~= decimal(i));
                        assert(names[q].subrange(2, names[q].len() as int) =~= decimal(lq));
                        lemma_decimal_injective(i, lq);
                    }
                } else {
                    assert(names[p].subrange(2, names[p].len() as int) =~= decimal(i));
                    assert(names[q].subrange(2, names[q].len() as int) =~= decimal(i));
                    assert(names[p][0] != names[q][0]);
                }
            }
        }
    }
}

/// `s` names a coordinate of some nesting level below `levels`.
pub open spec fn is_level_name(s: Seq<char>, levels: nat) -> bool {
    exists|l: nat| l < levels && #[trigger] level_name(s.subrange(0, 1), l) == s
}

/// The names of levels below `levels` are `d_l` for a one-letter `d` and a
/// level `l` below `levels`.
proof fn lemma_names_shape(levels: nat)
    ensures
        variable_names(levels).len() == 3 + 4 * levels,
        variable_names(levels)[0] == "x"@,
        variable_names(levels)[1] == "y"@,
        variable_names(levels)[2] == "z"@,
        forall|q: int|
            3 <= q < variable_names(levels).len() ==> is_level_name(
                #[trigger] variable_names(levels)[q],
                levels,
            ),
    decreases levels,
{
    reveal_strlit("x");
    reveal_strlit("y");
    reveal_strlit("z");
    reveal_strlit("w");
    if levels > 0 {
        let i = (levels - 1) as nat;
        lemma_names_shape(i);
        let names = variable_names(levels);
        let before = variable_names(i);
        assert forall|q: int| 3 <= q < names.len() implies is_level_name(#[trigger] names[q], levels) by {
            if q < before.len() {
                assert(names[q] == before[q]);
                assert(is_level_name(before[q], i));
                let l = choose|l: nat| l < i && #[trigger] level_name(before[q].subrange(0, 1), l) == before[q];
                assert(level_name(names[q].subrange(0, 1), l) == names[q]);
            } else {
                let d = names[q].subrange(0, 1);
                assert(level_name(d, i) =~= names[q]);
            }
        }
    }
}

/// Whether evaluating `ast` works at transform level `k` or deeper
/// (levels counted from 0): a coordinate read or a polygon distance works
/// at level 0, a transform at level 0 and at every level below it that its
/// target works at, and an operator at every level that one of its
/// operands works at.
pub open spec fn uses_level(ast: Ast, k: nat) -> bool
    decreases ast,
{
    match ast {
        Ast::X | Ast::Y | Ast::Z | Ast::DistToPoly(_) => k == 0,
        Ast::Constant(_) | Ast::Buffer(_) => false,
        Ast::Transform { target, .. } => k == 0 || uses_level(*target, (k - 1) as nat),
        Ast::Sub(l, r) => uses_level(*l, k) || uses_level(*r, k),
        Ast::Mul(lst) | Ast::Add(lst) | Ast::Min(lst) | Ast::Max(lst) => some_use_level(lst@, k),
        Ast::Square(t) | Ast::Abs(t) | Ast::Sqrt(t) | Ast::Neg(t) => uses_level(*t, k),
    }
}

/// Whether one of `asts` works at transform level `k` or deeper.
pub open spec fn some_use_level(asts: Seq<Ast>, k: nat) -> bool
    decreases asts,
{
    asts.len() > 0 && (some_use_level(asts.drop_last(), k) || uses_level(asts.last(), k))
}

/// The transform depth that `compile` reports is exactly the number of
/// levels the evaluation uses: it exceeds `k` if and only if some part of
/// the expression, an operand of any operator included, works at level
/// `k`. So a coordinate read anywhere needs at least one level, and no
/// operand is left out of the count.
pub proof fn lemma_transform_depth_counts_levels(ast: Ast, k: nat)
    ensures
        transform_depth(ast) > k <==> uses_level(ast, k),
    decreases ast,
{
    match ast {
        Ast::Transform { target, .. } => {
            assert(transform_depth(ast) == 1 + transform_depth(*target));
            if k > 0 {
                lemma_transform_depth_counts_levels(*target, (k - 1) as nat);
                assert(uses_level(ast, k) == uses_level(*target, (k - 1) as nat));
            } else {
                assert(uses_level(ast, k));
            }
        },
        Ast::Sub(l, r) => {
            lemma_transform_depth_counts_levels(*l, k);
            lemma_transform_depth_counts_levels(*r, k);
        },
        Ast::Mul(lst) | Ast::Add(lst) | Ast::Min(lst) | Ast::Max(lst) => {
            lemma_list_counts_levels(lst@, k);
        },
        Ast::Square(t) | Ast::Abs(t) | Ast::Sqrt(t) | Ast::Neg(t) => {
            lemma_transform_depth_counts_levels(*t, k);
        },
        _ => {},
    }
}

/// `lemma_transform_depth_counts_levels` for the operands of an operator.
proof fn lemma_list_counts_levels(asts: Seq<Ast>, k: nat)
    ensures
        list_transform_depth(asts) > k <==> some_use_level(asts, k),
    decreases asts,
{
    if asts.len() > 0 {
        lemma_list_counts_levels(asts.drop_last(), k);
        lemma_transform_depth_counts_levels(asts.last(), k);
    }
}

/// Whether `ast` holds a transform nested under `k` others or deeper
/// (levels counted from 0): a transform is at level 0 and holds, one level
/// down, whatever its target holds; an operator holds what one of its
/// operands holds.
pub open spec fn nests_transform(ast: Ast, k: nat) -> bool
    decreases ast,
{
    match ast {
        Ast::Transform { target, .. } => k == 0 || nests_transform(*target, (k - 1) as nat),
        Ast::Sub(l, r) => nests_transform(*l, k) || nests_transform(*r, k),
        Ast::Mul(lst) | Ast::Add(lst) | Ast::Min(lst) | Ast::Max(lst) => some_nests_transform(lst@, k),
        Ast::Square(t) | Ast::Abs(t) | Ast::Sqrt(t) | Ast::Neg(t) => nests_transform(*t, k),
        _ => false,
    }
}

/// Whether one of `asts` holds a transform nested under `k` others.
pub open spec fn some_nests_transform(asts: Seq<Ast>, k: nat) -> bool
    decreases asts,
{
    asts.len() > 0 && (some_nests_transform(asts.drop_last(), k) || nests_transform(asts.last(), k))
}

/// The nesting that `max_depth_transforms` reports exceeds `k` if and only
/// if some transform in the expression, in any operand of any operator,
/// sits under `k` others.
pub proof fn lemma_nesting_counts_transforms(ast: Ast, k: nat)
    ensures
        transform_nesting(ast) > k <==> nests_transform(ast, k),
    decreases ast,
{
    match ast {
        Ast::Transform { target, .. } => {
            assert(transform_nesting(ast) == transform_nesting(*target) + 1);
            if k > 0 {
                lemma_nesting_counts_transforms(*target, (k - 1) as nat);
                assert(nests_transform(ast, k) == nests_transform(*target, (k - 1) as nat));
            } else {
                assert(nests_transform(ast, k));
            }
        },
        Ast::Sub(l, r) => {
            lemma_nesting_counts_transforms(*l, k);
            lemma_nesting_counts_transforms(*r, k);
        },
        Ast::Mul(lst) | Ast::Add(lst) | Ast::Min(lst) | Ast::Max(lst) => {
            lemma_list_nesting_counts(lst@, k);
        },
        Ast::Square(t) | Ast::Abs(t) | Ast::Sqrt(t) | Ast::Neg(t) => {
            lemma_nesting_counts_transforms(*t, k);
        },
        _ => {},
    }
}

/// `lemma_nesting_counts_transforms` for the operands of an operator.
proof fn lemma_list_nesting_counts(asts: Seq<Ast>, k: nat)
    ensures
        list_transform_nesting(asts) > k <==> some_nests_transform(asts, k),
    decreases asts,
{
    if asts.len() > 0 {
        lemma_list_nesting_counts(asts.drop_last(), k);
        lemma_nesting_counts_transforms(asts.last(), k);
    }
}

/// The largest depth of a list is at least that of each member.
proof fn lemma_list_depth_member(asts: Seq<Ast>, i: int)
    requires
        0 <= i < asts.len(),
    ensures
        list_depth(asts) >= depth(asts[i]),
    decreases asts.len(),
{
    if i < asts.len() - 1 {
        lemma_list_depth_member(asts.drop_last(), i);
        assert(asts.drop_last()[i] == asts[i]);
    }
}

/// The operands of an operator that takes a list of them.
pub open spec fn list_operands(ast: Ast) -> Option<Seq<Ast>> {
    match ast {
        Ast::Mul(lst) | Ast::Add(lst) | Ast::Min(lst) | Ast::Max(lst) => Some(lst@),
        _ => None,
    }
}

/// The operand of an operator that takes one.
pub open spec fn single_operand(ast: Ast) -> Option<Ast> {
    match ast {
        Ast::Square(t) | Ast::Abs(t) | Ast::Sqrt(t) | Ast::Neg(t) => Some(*t),
        _ => None,
    }
}

/// The stack depth that `compile` reports covers every operand: an
/// operator that combines operands on the stack needs one slot more than
/// any of them, and a transform or a one-operand operator as many as its
/// operand.
pub proof fn lemma_depth_covers_operands(ast: Ast)
    ensures
        ast matches Ast::Sub(l, r) ==> depth(ast) >= depth(*l) + 1 && depth(ast) >= depth(*r) + 1,
        list_operands(ast) matches Some(lst) ==> forall|i: int|
            0 <= i < lst.len() ==> depth(ast) >= #[trigger] depth(lst[i]) + 1,
        ast matches Ast::Transform { target, .. } ==> depth(ast) == depth(*target),
        single_operand(ast) matches Some(t) ==> depth(ast) == depth(t),
{
    match ast {
        Ast::Mul(lst) | Ast::Add(lst) | Ast::Min(lst) | Ast::Max(lst) => {
            assert forall|i: int| 0 <= i < lst@.len() implies depth(ast) >= #[trigger] depth(lst@[i])
                + 1 by {
                lemma_list_depth_member(lst@, i);
            }
        },
        _ => {},
    }
}

} // verus!
