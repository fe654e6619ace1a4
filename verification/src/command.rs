//! Command pattern with an undo/redo history.
//!
//! Every editing operation implements [`Command`]; a [`CommandStack`] keeps the
//! executed commands (for undo) and the undone ones (for redo).
use vstd::prelude::*;

verus! {

/// Why a command could not be applied to its context.
#[derive(Debug, Clone, Copy, PartialEq, Eq)]
pub enum CommandError {
    /// The context does not have the shape the command needs
    /// (a pixel buffer of the wrong size, a coordinate outside the map, ...).
    InvalidContext,
    /// A counter kept by the context would leave its range.
    CounterOverflow,
    /// No colour is left to give to a new province.
    NoFreeColor,
}

/// An operation that can be applied to a context and taken back again.
pub trait Command<Ctx> {
    /// Whether executing this command can take the context `before` to `after`
    /// with the result `r`.
    open spec fn executes(&self, before: Ctx, after: Ctx, r: Result<(), CommandError>) -> bool {
        true
    }

    /// What holds of the command as it is after executing it, which took the context
    /// `before` to `after` with the result `r` (what it recorded for its undo, say).
    open spec fn ran(&self, before: Ctx, after: Ctx, r: Result<(), CommandError>) -> bool {
        true
    }

    /// Whether undoing this command can take the context `before` to `after` with
    /// the result `r`.
    open spec fn undoes(&self, before: Ctx, after: Ctx, r: Result<(), CommandError>) -> bool {
        true
    }

    /// What holds of the command as it is after undoing it, which took the context
    /// `before` to `after` with the result `r`.
    open spec fn undid(&self, before: Ctx, after: Ctx, r: Result<(), CommandError>) -> bool {
        true
    }

    /// The short name of the operation.
    open spec fn description_text(&self) -> Seq<char> {
        Seq::empty()
    }

    /// Applies the operation to `ctx`.
    fn execute(&mut self, ctx: &mut Ctx) -> (r: Result<(), CommandError>)
        ensures
            old(self).executes(*old(ctx), *final(ctx), r),
            final(self).ran(*old(ctx), *final(ctx), r),
    ;

    /// Takes the operation back, restoring `ctx`.
    fn undo(&mut self, ctx: &mut Ctx) -> (r: Result<(), CommandError>)
        ensures
            old(self).undoes(*old(ctx), *final(ctx), r),
            final(self).undid(*old(ctx), *final(ctx), r),
    ;

    /// A short name of the operation, for display.
    fn description(&self) -> (r: &str)
        ensures
            r@ == self.description_text(),
    ;
}

/// A boxed command is a command: each call goes to the command in the box.
impl<Ctx, T: Command<Ctx> + ?Sized> Command<Ctx> for Box<T> {
    open spec fn executes(&self, before: Ctx, after: Ctx, r: Result<(), CommandError>) -> bool {
        (**self).executes(before, after, r)
    }

    open spec fn ran(&self, before: Ctx, after: Ctx, r: Result<(), CommandError>) -> bool {
        (**self).ran(before, after, r)
    }

    open spec fn undoes(&self, before: Ctx, after: Ctx, r: Result<(), CommandError>) -> bool {
        (**self).undoes(before, after, r)
    }

    open spec fn undid(&self, before: Ctx, after: Ctx, r: Result<(), CommandError>) -> bool {
        (**self).undid(before, after, r)
    }

    open spec fn description_text(&self) -> Seq<char> {
        (**self).description_text()
    }

    fn execute(&mut self, ctx: &mut Ctx) -> (r: Result<(), CommandError>) {
        (**self).execute(ctx)
    }

    fn undo(&mut self, ctx: &mut Ctx) -> (r: Result<(), CommandError>) {
        (**self).undo(ctx)
    }

    fn description(&self) -> (r: &str) {
        (**self).description()
    }
}

/// The result of a command's own call, seen from a history call that reports with
/// `Ok(true)` that it made one.
pub open spec fn call_result(r: Result<bool, CommandError>) -> Result<(), CommandError> {
    match r {
        Ok(_) => Ok::<(), CommandError>(()),
        Err(e) => Err::<(), CommandError>(e),
    }
}

/// The most recent `max` elements of `s` (all of `s` when it is not longer than `max`).
pub open spec fn keep_recent<T>(s: Seq<T>, max: nat) -> Seq<T> {
    if s.len() > max {
        s.subrange(s.len() - max, s.len() as int)
    } else {
        s
    }
}

/// `new` is `old` with one more command on top, trimmed to the `max` most recent.
/// The command on top is not named: executing it may have changed it.
pub open spec fn recorded_on_top<T>(old: Seq<T>, new: Seq<T>, max: nat) -> bool {
    if max == 0 {
        new.len() == 0
    } else {
        &&& new.len() > 0
        &&& new.drop_last() == keep_recent(old, (max - 1) as nat)
    }
}

/// Trimming after a push keeps the pushed element on top, over the trimmed older part.
proof fn lemma_keep_recent_push<T>(s: Seq<T>, c: T, max: nat)
    requires
        max > 0,
    ensures
        keep_recent(s.push(c), max).len() > 0,
        keep_recent(s.push(c), max).last() == c,
        keep_recent(s.push(c), max).drop_last() == keep_recent(s, (max - 1) as nat),
        keep_recent(s.push(c), max).len() <= max,
{
    let t = s.push(c);
    if t.len() > max {
        assert(keep_recent(t, max).drop_last() =~= keep_recent(s, (max - 1) as nat));
    } else {
        assert(keep_recent(t, max).drop_last() =~= s);
    }
}

/// A history of executed commands (undo side) and undone commands (redo side).
#[verifier::reject_recursive_types(Ctx)]
pub struct CommandStack<Ctx, C = Box<dyn Command<Ctx>>> {
    /// Executed commands, the most recent last.
    pub undo_stack: Vec<C>,
    /// Undone commands, the most recently undone last.
    pub redo_stack: Vec<C>,
    /// The largest number of executed commands that is kept.
    max_history: usize,
    /// The context type the commands apply to.
    context: core::marker::PhantomData<Ctx>,
}

impl<Ctx, C: Command<Ctx>> CommandStack<Ctx, C> {
    /// The executed commands, the most recent last.
    pub closed spec fn undos(&self) -> Seq<C> {
        self.undo_stack@
    }

    /// The undone commands, the most recently undone last.
    pub closed spec fn redos(&self) -> Seq<C> {
        self.redo_stack@
    }

    /// The limit on the number of executed commands that are kept.
    pub closed spec fn history_limit(&self) -> nat {
        self.max_history as nat
    }

    /// Both histories together hold no more commands than the limit.
    pub open spec fn within_limit(&self) -> bool {
        self.undos().len() + self.redos().len() <= self.history_limit()
    }

    /// `new` is `old` after a successful undo: the top executed command moved to the redo side.
    pub open spec fn undo_step(old: Self, new: Self) -> bool {
        &&& old.undos().len() > 0
        &&& new.undos() == old.undos().drop_last()
        &&& new.redos().len() == old.redos().len() + 1
        &&& new.redos().drop_last() == old.redos()
        &&& new.history_limit() == old.history_limit()
    }

    /// `new` is `old` after a successful redo: the top undone command moved to the undo side.
    pub open spec fn redo_step(old: Self, new: Self) -> bool {
        &&& old.redos().len() > 0
        &&& new.redos() == old.redos().drop_last()
        &&& new.undos().len() == old.undos().len() + 1
        &&& new.undos().drop_last() == old.undos()
        &&& new.history_limit() == old.history_limit()
    }

    /// Creates an empty history that keeps at most `max_history` executed commands.
    pub fn new(max_history: usize) -> (s: Self)
        ensures
            s.undos().len() == 0,
            s.redos().len() == 0,
            s.history_limit() == max_history,
    {
        CommandStack {
            undo_stack: Vec::new(),
            redo_stack: Vec::new(),
            max_history,
            context: core::marker::PhantomData,
        }
    }

    /// Drops the oldest executed commands until at most `max_history` remain.
    fn trim_history(&mut self)
        ensures
            final(self).undos() == keep_recent(old(self).undos(), old(self).history_limit()),
            final(self).redos() == old(self).redos(),
            final(self).history_limit() == old(self).history_limit(),
    {
        let ghost start = self.undo_stack@;
        while self.undo_stack.len() > self.max_history
            invariant
                self.max_history == old(self).max_history,
                self.redo_stack@ == old(self).redo_stack@,
                start == old(self).undo_stack@,
                start.len() >= self.undo_stack@.len(),
                self.undo_stack@ == start.subrange(
                    start.len() - self.undo_stack@.len(),
                    start.len() as int,
                ),
                self.undo_stack@.len() >= self.max_history || self.undo_stack@ == start,
            decreases self.undo_stack.len(),
        {
            let ghost before = self.undo_stack@;
            self.undo_stack.remove(0);
            assert(self.undo_stack@ =~= start.subrange(
                start.len() - self.undo_stack@.len(),
                start.len() as int,
            )) by {
                assert(self.undo_stack@ =~= before.subrange(1, before.len() as int));
            }
        }
    }

    /// Executes `cmd` on `ctx` and records it; a new command clears the redo side.
    /// When `cmd` fails, nothing is recorded and the error is returned.
    pub fn execute(&mut self, cmd: C, ctx: &mut Ctx) -> (r: Result<(), CommandError>)
        ensures
            final(self).history_limit() == old(self).history_limit(),
            r is Err ==> final(self).undos() == old(self).undos() && final(self).redos() == old(self).redos(),
            r is Ok ==> {
                &&& recorded_on_top(old(self).undos(), final(self).undos(), old(self).history_limit())
                &&& final(self).redos().len() == 0
                &&& final(self).undos().len() <= final(self).history_limit()
            },
            r is Ok && old(self).history_limit() > 0 ==> {
                &&& final(self).undos().last().ran(*old(ctx), *final(ctx), r)
                &&& final(self).undos() == keep_recent(
                    old(self).undos().push(final(self).undos().last()),
                    old(self).history_limit(),
                )
            },
            old(self).within_limit() ==> final(self).within_limit(),
            cmd.executes(*old(ctx), *final(ctx), r),
    {
        let mut cmd = cmd;
        let res = cmd.execute(ctx);
        match res {
            Ok(()) => {
                let ghost before = self.undo_stack@;
                let ghost pushed = cmd;
                self.undo_stack.push(cmd);
                self.redo_stack.clear();
                self.trim_history();
                proof {
                    if self.max_history > 0 {
                        lemma_keep_recent_push(before, pushed, self.max_history as nat);
                        assert(self.undo_stack@.last() == pushed);
                    }
                }
                res
            },
            Err(e) => Err(e),
        }
    }

    /// Undoes the most recent executed command and moves it to the redo side.
    /// Returns `Ok(false)`, touching nothing, when there is nothing to undo.
    /// When the command's undo fails, the command is dropped from the history.
    pub fn undo(&mut self, ctx: &mut Ctx) -> (r: Result<bool, CommandError>)
        ensures
            old(self).undos().len() == 0 <==> r == Ok::<bool, CommandError>(false),
            r == Ok::<bool, CommandError>(false) ==> {
                &&& final(self).undos() == old(self).undos()
                &&& final(self).redos() == old(self).redos()
                &&& final(self).history_limit() == old(self).history_limit()
                &&& *final(ctx) == *old(ctx)
            },
            r == Ok::<bool, CommandError>(true) ==> Self::undo_step(*old(self), *final(self)),
            old(self).undos().len() > 0 ==> old(self).undos().last().undoes(*old(ctx), *final(ctx), call_result(r)),
            r == Ok::<bool, CommandError>(true) ==> final(self).redos().last().undid(*old(ctx), *final(ctx), Ok(())),
            r is Err ==> {
                &&& final(self).undos() == old(self).undos().drop_last()
                &&& final(self).redos() == old(self).redos()
                &&& final(self).history_limit() == old(self).history_limit()
            },
            old(self).within_limit() ==> final(self).within_limit(),
    {
        match self.undo_stack.pop() {
            Some(cmd) => {
                let mut cmd = cmd;
                let res = cmd.undo(ctx);
                match res {
                    Ok(_) => {
                        assert(res->Ok_0 == ());
                        let ghost undone = cmd;
                        self.redo_stack.push(cmd);
                        assert(self.redo_stack@.drop_last() =~= old(self).redo_stack@);
                        assert(self.redo_stack@.last() == undone);
                        Ok(true)
                    },
                    Err(e) => Err(e),
                }
            },
            None => Ok(false),
        }
    }

    /// Executes again the most recently undone command and moves it back to the undo side.
    /// Returns `Ok(false)`, touching nothing, when there is nothing to redo.
    /// When the command fails, it is dropped from the history.
    pub fn redo(&mut self, ctx: &mut Ctx) -> (r: Result<bool, CommandError>)
        ensures
            old(self).redos().len() == 0 <==> r == Ok::<bool, CommandError>(false),
            r == Ok::<bool, CommandError>(false) ==> {
                &&& final(self).undos() == old(self).undos()
                &&& final(self).redos() == old(self).redos()
                &&& final(self).history_limit() == old(self).history_limit()
                &&& *final(ctx) == *old(ctx)
            },
            r == Ok::<bool, CommandError>(true) ==> Self::redo_step(*old(self), *final(self)),
            old(self).redos().len() > 0 ==> old(self).redos().last().executes(*old(ctx), *final(ctx), call_result(r)),
            r == Ok::<bool, CommandError>(true) ==> final(self).undos().last().ran(*old(ctx), *final(ctx), Ok(())),
            r is Err ==> {
                &&& final(self).redos() == old(self).redos().drop_last()
                &&& final(self).undos() == old(self).undos()
                &&& final(self).history_limit() == old(self).history_limit()
            },
            old(self).within_limit() ==> final(self).within_limit(),
    {
        match self.redo_stack.pop() {
            Some(cmd) => {
                let mut cmd = cmd;
                let res = cmd.execute(ctx);
                match res {
                    Ok(_) => {
                        assert(res->Ok_0 == ());
                        let ghost redone = cmd;
                        self.undo_stack.push(cmd);
                        assert(self.undo_stack@.drop_last() =~= old(self).undo_stack@);
                        assert(self.undo_stack@.last() == redone);
                        Ok(true)
                    },
                    Err(e) => Err(e),
                }
            },
            None => Ok(false),
        }
    }

    /// Whether there is an executed command to undo.
    pub fn can_undo(&self) -> (r: bool)
        ensures
            r == (self.undos().len() > 0),
    {
        self.undo_stack.len() > 0
    }

    /// Whether there is an undone command to redo.
    pub fn can_redo(&self) -> (r: bool)
        ensures
            r == (self.redos().len() > 0),
    {
        self.redo_stack.len() > 0
    }

    /// Forgets the whole history.
    pub fn clear(&mut self)
        ensures
            final(self).undos().len() == 0,
            final(self).redos().len() == 0,
            final(self).history_limit() == old(self).history_limit(),
    {
        self.undo_stack.clear();
        self.redo_stack.clear();
    }

    /// Records a command that was applied elsewhere (a brush stroke, say) without executing it;
    /// like `execute`, this clears the redo side and keeps the history within its limit.
    pub fn push_to_undo(&mut self, cmd: C)
        ensures
            final(self).undos() == keep_recent(old(self).undos().push(cmd), old(self).history_limit()),
            final(self).redos().len() == 0,
            final(self).history_limit() == old(self).history_limit(),
            final(self).undos().len() <= final(self).history_limit(),
    {
        self.undo_stack.push(cmd);
        self.redo_stack.clear();
        self.trim_history();
    }
}

/// Undoing a command and then redoing it gives back a history of the same shape:
/// the same number of commands on each side, and the same commands below the top.
pub proof fn law_undo_then_redo<Ctx, C: Command<Ctx>>(s0: CommandStack<Ctx, C>, s1: CommandStack<Ctx, C>, s2: CommandStack<Ctx, C>)
    requires
        CommandStack::undo_step(s0, s1),
        CommandStack::redo_step(s1, s2),
    ensures
        s2.undos().len() == s0.undos().len(),
        s2.redos().len() == s0.redos().len(),
        s2.undos().drop_last() == s0.undos().drop_last(),
        s2.redos() == s0.redos(),
{
}

/// Redoing a command and then undoing it gives back a history of the same shape.
pub proof fn law_redo_then_undo<Ctx, C: Command<Ctx>>(s0: CommandStack<Ctx, C>, s1: CommandStack<Ctx, C>, s2: CommandStack<Ctx, C>)
    requires
        CommandStack::redo_step(s0, s1),
        CommandStack::undo_step(s1, s2),
    ensures
        s2.undos().len() == s0.undos().len(),
        s2.redos().len() == s0.redos().len(),
        s2.undos() == s0.undos(),
        s2.redos().drop_last() == s0.redos().drop_last(),
{
}

/// A command recorded on top of a history is what the next undo takes back:
/// undoing right after recording leaves the older commands that were kept.
pub proof fn law_undo_takes_back_recorded<Ctx, C: Command<Ctx>>(
    s0: CommandStack<Ctx, C>,
    s1: CommandStack<Ctx, C>,
    s2: CommandStack<Ctx, C>,
)
    requires
        s1.history_limit() == s0.history_limit(),
        recorded_on_top(s0.undos(), s1.undos(), s0.history_limit()),
        s1.redos().len() == 0,
        CommandStack::undo_step(s1, s2),
    ensures
        s2.undos() == keep_recent(s0.undos(), (s0.history_limit() - 1) as nat),
        s2.redos().len() == 1,
{
}

} // verus!
