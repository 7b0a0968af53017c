use vstd::prelude::*;
use crate::backend::{Command, DrawBackend, DrawOptions};

verus! {

/// A drawing surface that hands its commands to a backend.
pub struct Canvas<T> {
    backend: T,
}

/// What has been drawn after carrying out `commands` in order, starting
/// from `state`.
pub open spec fn after_all<T: DrawBackend>(state: T::State, commands: Seq<Command>) -> T::State
    decreases commands.len(),
{
    if commands.len() == 0 {
        state
    } else {
        after_all::<T>(T::after(state, commands[0]), commands.drop_first())
    }
}

/// Carrying out one more command after a sequence is carrying out the
/// longer sequence.
pub proof fn lemma_after_all_push<T: DrawBackend>(
    state: T::State,
    commands: Seq<Command>,
    command: Command,
)
    ensures
        after_all::<T>(state, commands.push(command)) == T::after(
            after_all::<T>(state, commands),
            command,
        ),
    decreases commands.len(),
{
    if commands.len() > 0 {
        assert(commands.push(command).drop_first() =~= commands.drop_first().push(command));
        let s1 = T::after(state, commands[0]);
        lemma_after_all_push::<T>(s1, commands.drop_first(), command);
        assert(commands.push(command)[0] == commands[0]);
        assert(after_all::<T>(state, commands.push(command)) == after_all::<T>(
            s1,
            commands.drop_first().push(command),
        ));
        assert(after_all::<T>(state, commands) == after_all::<T>(s1, commands.drop_first()));
    } else {
        assert(commands.push(command).drop_first() =~= commands);
        assert(after_all::<T>(state, commands) == state);
        assert(after_all::<T>(T::after(state, command), commands) == T::after(state, command));
    }
}

/// Carrying out a single command.
pub proof fn lemma_after_all_single<T: DrawBackend>(state: T::State, command: Command)
    ensures
        after_all::<T>(state, seq![command]) == T::after(state, command),
{
    assert(seq![command].drop_first() =~= Seq::<Command>::empty());
    assert(after_all::<T>(T::after(state, command), Seq::<Command>::empty()) == T::after(
        state,
        command,
    ));
}

/// Carrying out two sequences one after the other is carrying out their
/// concatenation.
pub proof fn lemma_after_all_concat<T: DrawBackend>(
    state: T::State,
    a: Seq<Command>,
    b: Seq<Command>,
)
    ensures
        after_all::<T>(state, a + b) == after_all::<T>(after_all::<T>(state, a), b),
    decreases a.len(),
{
    if a.len() > 0 {
        assert((a + b).drop_first() =~= a.drop_first() + b);
        lemma_after_all_concat::<T>(T::after(state, a[0]), a.drop_first(), b);
    }
}

/// The pen moves to the first point and draws lines through the others.
pub open spec fn polygon_commands(points: Seq<(String, String)>) -> Seq<Command> {
    Seq::new(
        points.len(),
        |i: int|
            if i == 0 {
                move_to(points[i].0, points[i].1)
            } else {
                line_to(points[i].0, points[i].1)
            },
    )
}

/// Carries out `commands` in order, stopping at the first error.
pub fn apply_all<T: DrawBackend>(backend: &mut T, commands: Vec<Command>) -> (r: Result<(), T::Error>)
    requires
        forall|i: int| 0 <= i < commands@.len() ==> T::supports(#[trigger] commands@[i]),
    ensures
        r is Ok ==> final(backend).state() == after_all::<T>(old(backend).state(), commands@),
        T::never_fails() ==> r is Ok,
{
    let ghost start = backend.state();
    let ghost all = commands@;
    let n = commands.len();
    let mut rest = commands;
    rest.as_mut_slice().reverse();
    let mut k: usize = 0;
    while k < n
        invariant
            n == all.len(),
            k <= n,
            forall|i: int| 0 <= i < all.len() ==> T::supports(#[trigger] all[i]),
            rest@ == all.subrange(k as int, n as int).reverse(),
            backend.state() == after_all::<T>(start, all.subrange(0, k as int)),
        decreases n - k,
    {
        let command = rest.pop().unwrap();
        assert(command == all[k as int]);
        let res = backend.apply(command);
        if res.is_err() {
            return res;
        }
        proof {
            assert(all.subrange(0, k + 1) =~= all.subrange(0, k as int).push(all[k as int]));
            lemma_after_all_push::<T>(start, all.subrange(0, k as int), all[k as int]);
            assert(rest@ =~= all.subrange(k + 1, n as int).reverse());
        }
        k = k + 1;
    }
    assert(all.subrange(0, n as int) =~= all);
    Ok(())
}

/// Moving the pen to `(x, y)`.
pub open spec fn move_to(x: String, y: String) -> Command {
    Command::MoveTo { x, y }
}

/// Drawing a line to `(x, y)`.
pub open spec fn line_to(x: String, y: String) -> Command {
    Command::LineTo { x, y }
}

/// Starting a shape painted with `options`.
pub open spec fn start_shape(options: DrawOptions) -> Command {
    Command::StartShape(options)
}

/// The backend can move the pen and draw lines.
pub open spec fn draws_lines<T: DrawBackend>() -> bool {
    &&& forall|x: String, y: String| #[trigger] T::supports(move_to(x, y))
    &&& forall|x: String, y: String| #[trigger] T::supports(line_to(x, y))
}

/// The backend can draw lines and start, close and end shapes.
pub open spec fn draws_shapes<T: DrawBackend>() -> bool {
    &&& draws_lines::<T>()
    &&& forall|o: DrawOptions| #[trigger] T::supports(start_shape(o))
    &&& T::supports(Command::CloseShape)
    &&& T::supports(Command::EndShape)
}

/// The points in clockwise order, given whether they already are.
pub open spec fn clockwise_order(points: Seq<(String, String)>, clockwise: bool) -> Seq<
    (String, String),
> {
    if clockwise {
        points
    } else {
        points.reverse()
    }
}

/// A polygon handed over in the opposite direction, with the opposite
/// clockwise flag, is drawn through the same points in the same order.
pub proof fn lemma_orientation_independent(points: Seq<(String, String)>, clockwise: bool)
    ensures
        clockwise_order(points, clockwise) == clockwise_order(points.reverse(), !clockwise),
{
    assert(points.reverse().reverse() =~= points);
}

/// The outline with its first point repeated at the end, in its own order
/// (`forward`) or reversed.
pub open spec fn ring(outline: Seq<(String, String)>, forward: bool) -> Seq<(String, String)> {
    let closed = outline.push(outline[0]);
    if forward {
        closed
    } else {
        closed.reverse()
    }
}

/// The commands that trace each outline as a ring: in its own order when
/// its clockwise flag differs from `flip`, reversed otherwise.
pub open spec fn rings_commands(outlines: Seq<(Vec<(String, String)>, bool)>, flip: bool) -> Seq<
    Command,
>
    decreases outlines.len(),
{
    if outlines.len() == 0 {
        seq![]
    } else {
        rings_commands(outlines.drop_last(), flip) + polygon_commands(
            ring(outlines.last().0@, outlines.last().1 != flip),
        )
    }
}

/// `trace` goes once round `outline`, back to its first point, clockwise,
/// given whether `outline` itself runs clockwise: in the outline's own
/// order if it does, against it if it does not.
pub open spec fn goes_clockwise(
    outline: Seq<(String, String)>,
    runs_clockwise: bool,
    trace: Seq<(String, String)>,
) -> bool {
    let round = outline.push(outline[0]);
    ||| runs_clockwise && trace == round
    ||| !runs_clockwise && trace == round.reverse()
}

/// `trace` goes once round `outline` counter-clockwise: it goes clockwise
/// round the outline taken as running the other way.
pub open spec fn goes_counter_clockwise(
    outline: Seq<(String, String)>,
    runs_clockwise: bool,
    trace: Seq<(String, String)>,
) -> bool {
    goes_clockwise(outline, !runs_clockwise, trace)
}

/// How the rings of a shape with holes are traced: no outline gives no
/// commands, and each further outline adds the commands of one trace round
/// it, clockwise for an additive outline (`flip` false) and
/// counter-clockwise for a subtractive one (`flip` true), whatever
/// direction the outline was handed over in.
pub proof fn lemma_rings_orientation(
    outlines: Seq<(Vec<(String, String)>, bool)>,
    outline: (Vec<(String, String)>, bool),
    flip: bool,
)
    requires
        outline.0@.len() > 0,
    ensures
        rings_commands(Seq::<(Vec<(String, String)>, bool)>::empty(), flip) == Seq::<Command>::empty(),
        exists|trace: Seq<(String, String)>|
            {
                &&& rings_commands(outlines.push(outline), flip) == rings_commands(outlines, flip)
                    + #[trigger] polygon_commands(trace)
                &&& if flip {
                    goes_counter_clockwise(outline.0@, outline.1, trace)
                } else {
                    goes_clockwise(outline.0@, outline.1, trace)
                }
            },
{
    let all = outlines.push(outline);
    let trace = ring(outline.0@, outline.1 != flip);
    assert(all.drop_last() =~= outlines);
    assert(all.last() == outline);
    assert(rings_commands(all, flip) == rings_commands(outlines, flip) + polygon_commands(trace));
}

/// The points of `outline` as a ring (see `ring`).
fn make_ring(outline: &Vec<(String, String)>, forward: bool) -> (r: Vec<(String, String)>)
    requires
        outline@.len() > 0,
    ensures
        r@ == ring(outline@, forward),
{
    let mut r: Vec<(String, String)> = Vec::new();
    let mut i: usize = 0;
    while i < outline.len()
        invariant
            i <= outline@.len(),
            r@ == outline@.subrange(0, i as int),
        decreases outline@.len() - i,
    {
        r.push((outline[i].0.clone(), outline[i].1.clone()));
        assert(r@ =~= outline@.subrange(0, i + 1));
        i = i + 1;
    }
    r.push((outline[0].0.clone(), outline[0].1.clone()));
    assert(r@ =~= outline@.push(outline@[0]));
    if !forward {
        r.as_mut_slice().reverse();
    }
    r
}

impl<T: DrawBackend> Canvas<T> {
    /// The backend commands are handed to.
    pub closed spec fn backend(&self) -> T {
        self.backend
    }

    /// A canvas drawing into `t`.
    pub fn new(t: T) -> (r: Canvas<T>)
        ensures
            r.backend() == t,
    {
        Canvas { backend: t }
    }

    /// Moves the pen to the first point and draws lines through the others,
    /// in order. Stops at the first error of the backend.
    fn write_closed_polygon(&mut self, points: &Vec<(String, String)>) -> (r: Result<(), T::Error>)
        requires
            draws_lines::<T>(),
        ensures
            r is Ok ==> final(self).backend().state() == after_all::<T>(
                old(self).backend().state(),
                polygon_commands(points@),
            ),
            T::never_fails() ==> r is Ok,
    {
        let ghost start = self.backend.state();
        let mut i: usize = 0;
        while i < points.len()
            invariant
                draws_lines::<T>(),
                i <= points@.len(),
                self.backend.state() == after_all::<T>(
                    start,
                    polygon_commands(points@).subrange(0, i as int),
                ),
            decreases points@.len() - i,
        {
            let x = points[i].0.clone();
            let y = points[i].1.clone();
            let command = if i == 0 {
                Command::MoveTo { x, y }
            } else {
                Command::LineTo { x, y }
            };
            let ghost c = command;
            assert(T::supports(move_to(x, y)));
            assert(T::supports(line_to(x, y)));
            let res = self.backend.apply(command);
            if res.is_err() {
                return res;
            }
            proof {
                let cmds = polygon_commands(points@);
                assert(cmds.subrange(0, i + 1) =~= cmds.subrange(0, i as int).push(c));
                lemma_after_all_push::<T>(start, cmds.subrange(0, i as int), c);
            }
            i = i + 1;
        }
        assert(polygon_commands(points@).subrange(0, points@.len() as int) =~= polygon_commands(
            points@,
        ));
        Ok(())
    }

    /// Finishes the drawing and hands back what the backend produced.
    pub fn close(self) -> (r: Result<T::Output, T::Error>)
        ensures
            r matches Ok(out) ==> T::closes_to(self.backend().state(), out),
            T::never_fails() ==> r is Ok,
    {
        self.backend.close()
    }

    /// Paints a closed polygon through `points`, going clockwise: the points
    /// are reversed unless `clockwise` says they already run that way. A
    /// polygon without points draws nothing.
    pub fn draw_closed_polygon(
        &mut self,
        points: Vec<(String, String)>,
        clockwise: bool,
        options: DrawOptions,
    ) -> (r: Result<(), T::Error>)
        requires
            draws_shapes::<T>(),
        ensures
            points@.len() == 0 ==> r is Ok && final(self).backend() == old(self).backend(),
            points@.len() > 0 && r is Ok ==> final(self).backend().state() == after_all::<T>(
                old(self).backend().state(),
                seq![start_shape(options)] + polygon_commands(clockwise_order(points@, clockwise))
                    + seq![Command::CloseShape],
            ),
            T::never_fails() ==> r is Ok,
    {
        if points.len() == 0 {
            return Ok(());
        }
        let ghost start = self.backend.state();
        let ghost opts = options;
        let ghost orig = points@;
        let mut points = points;
        if !clockwise {
            points.as_mut_slice().reverse();
        }
        assert(T::supports(start_shape(options)));
        let res = self.backend.apply(Command::StartShape(options));
        if res.is_err() {
            return res;
        }
        let ghost s1 = self.backend.state();
        let res = self.write_closed_polygon(&points);
        if res.is_err() {
            return res;
        }
        let ghost s2 = self.backend.state();
        let res = self.backend.apply(Command::CloseShape);
        proof {
            if res is Ok {
                let a = seq![start_shape(opts)];
                let b = polygon_commands(points@);
                let c = seq![Command::CloseShape];
                lemma_after_all_single::<T>(start, start_shape(opts));
                lemma_after_all_concat::<T>(start, a, b);
                lemma_after_all_concat::<T>(start, a + b, c);
                lemma_after_all_single::<T>(s2, Command::CloseShape);
            }
        }
        res
    }

    /// Paints a shape with holes: each additive outline is traced clockwise
    /// and each subtractive outline counter-clockwise, every outline closed
    /// by returning to its first point. The flag beside each outline says
    /// whether it already runs clockwise.
    pub fn draw_holy_polygon(
        &mut self,
        additive: Vec<(Vec<(String, String)>, bool)>,
        subtractive: Vec<(Vec<(String, String)>, bool)>,
        options: DrawOptions,
    ) -> (r: Result<(), T::Error>)
        requires
            draws_shapes::<T>(),
            forall|i: int| 0 <= i < additive@.len() ==> #[trigger] additive@[i].0@.len() > 0,
            forall|i: int| 0 <= i < subtractive@.len() ==> #[trigger] subtractive@[i].0@.len() > 0,
        ensures
            r is Ok ==> final(self).backend().state() == after_all::<T>(
                old(self).backend().state(),
                seq![start_shape(options)] + rings_commands(additive@, false) + rings_commands(
                    subtractive@,
                    true,
                ) + seq![Command::EndShape],
            ),
            T::never_fails() ==> r is Ok,
    {
        let ghost start = self.backend.state();
        let ghost opts = options;
        assert(T::supports(start_shape(options)));
        let res = self.backend.apply(Command::StartShape(options));
        if res.is_err() {
            return res;
        }
        let ghost s1 = self.backend.state();
        let res = self.write_rings(&additive, false);
        if res.is_err() {
            return res;
        }
        let res = self.write_rings(&subtractive, true);
        if res.is_err() {
            return res;
        }
        let ghost s3 = self.backend.state();
        let res = self.backend.apply(Command::EndShape);
        proof {
            if res is Ok {
                let a = seq![start_shape(opts)];
                let b = rings_commands(additive@, false);
                let c = rings_commands(subtractive@, true);
                let d = seq![Command::EndShape];
                lemma_after_all_single::<T>(start, start_shape(opts));
                lemma_after_all_concat::<T>(start, a, b);
                lemma_after_all_concat::<T>(start, a + b, c);
                lemma_after_all_concat::<T>(start, a + b + c, d);
                lemma_after_all_single::<T>(s3, Command::EndShape);
            }
        }
        res
    }

    /// Traces every outline of `outlines` as a ring (see `rings_commands`).
    fn write_rings(&mut self, outlines: &Vec<(Vec<(String, String)>, bool)>, flip: bool) -> (r:
        Result<(), T::Error>)
        requires
            draws_lines::<T>(),
            forall|i: int| 0 <= i < outlines@.len() ==> #[trigger] outlines@[i].0@.len() > 0,
        ensures
            r is Ok ==> final(self).backend().state() == after_all::<T>(
                old(self).backend().state(),
                rings_commands(outlines@, flip),
            ),
            T::never_fails() ==> r is Ok,
    {
        let ghost start = self.backend.state();
        let mut i: usize = 0;
        while i < outlines.len()
            invariant
                draws_lines::<T>(),
                i <= outlines@.len(),
                forall|k: int| 0 <= k < outlines@.len() ==> #[trigger] outlines@[k].0@.len() > 0,
                self.backend.state() == after_all::<T>(
                    start,
                    rings_commands(outlines@.subrange(0, i as int), flip),
                ),
            decreases outlines@.len() - i,
        {
            let forward = outlines[i].1 != flip;
            let r = make_ring(&outlines[i].0, forward);
            let ghost before = self.backend.state();
            let res = self.write_closed_polygon(&r);
            if res.is_err() {
                return res;
            }
            proof {
                let pre = outlines@.subrange(0, i as int);
                let cur = outlines@.subrange(0, i + 1);
                assert(cur.drop_last() =~= pre);
                assert(cur.last() == outlines@[i as int]);
                lemma_after_all_concat::<T>(
                    start,
                    rings_commands(pre, flip),
                    polygon_commands(r@),
                );
            }
            i = i + 1;
        }
        assert(outlines@.subrange(0, outlines@.len() as int) =~= outlines@);
        Ok(())
    }
}

} // verus!
