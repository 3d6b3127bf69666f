//! The compile pipeline as decisions: read, lex, parse, resolve, check, then
//! emit IR, or generate code and link.
//!
//! The caller performs each action and hands back what came of it.
use vstd::prelude::*;

verus! {

/// How a compilation was asked for.
#[derive(Clone, Copy, Debug)]
pub struct CompileFlags {
    /// Stop after checking.
    pub check_only: bool,
    /// Emit LLVM IR and stop.
    pub emit_llvm: bool,
    pub release: bool,
    /// Build even when the binary is up to date.
    pub force: bool,
    /// Complain of a missing `main`.
    pub require_main: bool,
    pub print_ast: bool,
    /// Keep object files after linking.
    pub keep_obj: bool,
}

/// Where a compilation stands.
#[derive(Clone, Copy, Debug, PartialEq, Eq, Structural)]
pub enum Stage {
    Reading,
    Lexing,
    Parsing,
    Resolving,
    Checking,
    Emitting,
    Preparing,
    Generating,
    Linking,
    Ended,
}

/// What came of an action.
#[derive(Clone, Copy, Debug, PartialEq, Eq, Structural)]
pub enum Event {
    Read { ok: bool },
    /// So many tokens, and so many texts that are none.
    Lexed { tokens: usize, errors: usize },
    Parsed { ok: bool },
    Resolved { errors: usize },
    Checked { errors: usize },
    Emitted { ok: bool },
    /// Output directories exist; `fresh` where the binary is up to date.
    Prepared { fresh: bool },
    Generated { ok: bool },
    Linked { ok: bool },
}

/// What to do next.
#[derive(Clone, Copy, Debug, PartialEq, Eq, Structural)]
pub enum Action {
    Lex,
    Parse,
    /// Expand imports, with `@cfg(debug)` as given.
    Resolve { debug: bool },
    /// Show the tree where asked to, then check it.
    Check { print_ast: bool, require_main: bool },
    /// Generate LLVM IR and write it out.
    Emit { release: bool },
    /// Create output directories and look whether the binary is up to date.
    Prepare,
    Generate { release: bool },
    Link,
    /// The end, with a binary or without.
    Finish { ending: Ending },
    /// An error ends the compilation.
    Fail { reason: Reason },
}

/// How a compilation ends well.
#[derive(Clone, Copy, Debug, PartialEq, Eq, Structural)]
pub enum Ending {
    /// The source holds no token.
    EmptyFile,
    Checked,
    Emitted,
    /// The binary was up to date.
    Fresh,
    /// The binary was built; `remove_objects` unless they are to be kept.
    Built { remove_objects: bool },
}

/// Why a compilation fails.
#[derive(Clone, Copy, Debug, PartialEq, Eq, Structural)]
pub enum Reason {
    Read,
    Lex,
    Parse,
    Import,
    Semantic,
    Emit,
    Codegen,
    Link,
    /// The event does not belong to the stage.
    OutOfOrder,
}

pub open spec fn failed(reason: Reason) -> (Stage, Action) {
    (Stage::Ended, Action::Fail { reason })
}

pub open spec fn finished(ending: Ending) -> (Stage, Action) {
    (Stage::Ended, Action::Finish { ending })
}

/// `@cfg(debug)` holds only in a debug link profile, so that checking never
/// depends on the profile.
pub open spec fn cfg_debug(f: CompileFlags) -> bool {
    !f.release && !f.check_only
}

/// The stage and action that follow an event.
pub open spec fn next(f: CompileFlags, stage: Stage, e: Event) -> (Stage, Action) {
    match (stage, e) {
        (Stage::Reading, Event::Read { ok }) => if ok {
            (Stage::Lexing, Action::Lex)
        } else {
            failed(Reason::Read)
        },
        (Stage::Lexing, Event::Lexed { tokens, errors }) => if errors > 0 {
            failed(Reason::Lex)
        } else if tokens == 0 {
            finished(Ending::EmptyFile)
        } else {
            (Stage::Parsing, Action::Parse)
        },
        (Stage::Parsing, Event::Parsed { ok }) => if ok {
            (Stage::Resolving, Action::Resolve { debug: cfg_debug(f) })
        } else {
            failed(Reason::Parse)
        },
        (Stage::Resolving, Event::Resolved { errors }) => if errors > 0 {
            failed(Reason::Import)
        } else {
            (
                Stage::Checking,
                Action::Check { print_ast: f.print_ast, require_main: f.require_main },
            )
        },
        (Stage::Checking, Event::Checked { errors }) => if errors > 0 {
            failed(Reason::Semantic)
        } else if f.check_only {
            finished(Ending::Checked)
        } else if f.emit_llvm {
            (Stage::Emitting, Action::Emit { release: f.release })
        } else {
            (Stage::Preparing, Action::Prepare)
        },
        (Stage::Emitting, Event::Emitted { ok }) => if ok {
            finished(Ending::Emitted)
        } else {
            failed(Reason::Emit)
        },
        (Stage::Preparing, Event::Prepared { fresh }) => if fresh && !f.force {
            finished(Ending::Fresh)
        } else {
            (Stage::Generating, Action::Generate { release: f.release })
        },
        (Stage::Generating, Event::Generated { ok }) => if ok {
            (Stage::Linking, Action::Link)
        } else {
            failed(Reason::Codegen)
        },
        (Stage::Linking, Event::Linked { ok }) => if ok {
            finished(Ending::Built { remove_objects: !f.keep_obj })
        } else {
            failed(Reason::Link)
        },
        _ => failed(Reason::OutOfOrder),
    }
}

/// How many steps a compilation takes that runs to its end.
pub open spec fn step_count(f: CompileFlags) -> int {
    if f.check_only {
        5
    } else if f.emit_llvm {
        6
    } else {
        7
    }
}

/// The number of steps to show progress of.
pub fn total_steps(f: CompileFlags) -> (r: u64)
    ensures
        r == step_count(f),
{
    if f.check_only {
        5
    } else if f.emit_llvm {
        6
    } else {
        7
    }
}

/// An event completes a step of progress: everything but looking whether the
/// binary is up to date.
pub open spec fn counts(e: Event) -> int {
    if e is Prepared {
        0
    } else {
        1
    }
}

/// A compilation that is under way.
#[derive(Debug)]
pub struct Pipeline {
    pub flags: CompileFlags,
    pub stage: Stage,
}

fn fail(reason: Reason) -> (r: (Stage, Action))
    ensures
        r == failed(reason),
{
    (Stage::Ended, Action::Fail { reason })
}

fn finish(ending: Ending) -> (r: (Stage, Action))
    ensures
        r == finished(ending),
{
    (Stage::Ended, Action::Finish { ending })
}

impl Pipeline {
    /// A compilation at its start: the caller reads the source.
    pub fn new(flags: CompileFlags) -> (r: Pipeline)
        ensures
            r.flags == flags,
            r.stage == Stage::Reading,
    {
        Pipeline { flags, stage: Stage::Reading }
    }

    /// Takes what came of the last action and says what to do next.
    pub fn advance(&mut self, e: Event) -> (r: Action)
        ensures
            (final(self).stage, r) == next(old(self).flags, old(self).stage, e),
            final(self).flags == old(self).flags,
    {
        let f = self.flags;
        let (stage, action) = match (self.stage, e) {
            (Stage::Reading, Event::Read { ok }) => {
                if ok {
                    (Stage::Lexing, Action::Lex)
                } else {
                    fail(Reason::Read)
                }
            },
            (Stage::Lexing, Event::Lexed { tokens, errors }) => {
                if errors > 0 {
                    fail(Reason::Lex)
                } else if tokens == 0 {
                    finish(Ending::EmptyFile)
                } else {
                    (Stage::Parsing, Action::Parse)
                }
            },
            (Stage::Parsing, Event::Parsed { ok }) => {
                if ok {
                    (Stage::Resolving, Action::Resolve { debug: !f.release && !f.check_only })
                } else {
                    fail(Reason::Parse)
                }
            },
            (Stage::Resolving, Event::Resolved { errors }) => {
                if errors > 0 {
                    fail(Reason::Import)
                } else {
                    (
                        Stage::Checking,
                        Action::Check { print_ast: f.print_ast, require_main: f.require_main },
                    )
                }
            },
            (Stage::Checking, Event::Checked { errors }) => {
                if errors > 0 {
                    fail(Reason::Semantic)
                } else if f.check_only {
                    finish(Ending::Checked)
                } else if f.emit_llvm {
                    (Stage::Emitting, Action::Emit { release: f.release })
                } else {
                    (Stage::Preparing, Action::Prepare)
                }
            },
            (Stage::Emitting, Event::Emitted { ok }) => {
                if ok {
                    finish(Ending::Emitted)
                } else {
                    fail(Reason::Emit)
                }
            },
            (Stage::Preparing, Event::Prepared { fresh }) => {
                if fresh && !f.force {
                    finish(Ending::Fresh)
                } else {
                    (Stage::Generating, Action::Generate { release: f.release })
                }
            },
            (Stage::Generating, Event::Generated { ok }) => {
                if ok {
                    (Stage::Linking, Action::Link)
                } else {
                    fail(Reason::Codegen)
                }
            },
            (Stage::Linking, Event::Linked { ok }) => {
                if ok {
                    finish(Ending::Built { remove_objects: !f.keep_obj })
                } else {
                    fail(Reason::Link)
                }
            },
            _ => fail(Reason::OutOfOrder),
        };
        self.stage = stage;
        action
    }
}

// ---------------------------------------------------------------------------
// Laws
// ---------------------------------------------------------------------------

/// The stage after the first `n` events.
pub open spec fn stage_after(f: CompileFlags, es: Seq<Event>, n: int) -> Stage
    decreases n,
{
    if n <= 0 {
        Stage::Reading
    } else {
        next(f, stage_after(f, es, n - 1), es[n - 1]).0
    }
}

/// The action after event `n`.
pub open spec fn action_after(f: CompileFlags, es: Seq<Event>, n: int) -> Action {
    next(f, stage_after(f, es, n), es[n]).1
}

/// The progress after the first `n` events.
pub open spec fn progress(f: CompileFlags, es: Seq<Event>, n: int) -> int
    decreases n,
{
    if n <= 0 {
        0
    } else {
        progress(f, es, n - 1) + counts(es[n - 1])
    }
}

/// A stage behind checking.
pub open spec fn is_backend(s: Stage) -> bool {
    s == Stage::Preparing || s == Stage::Generating || s == Stage::Linking
}

/// A check never gets behind checking, and a run that emits IR never gets to
/// code generation, whatever happens.
proof fn lemma_stages(f: CompileFlags, es: Seq<Event>, n: int)
    requires
        0 <= n <= es.len(),
    ensures
        f.check_only ==> !is_backend(stage_after(f, es, n)) && stage_after(f, es, n)
            != Stage::Emitting,
        f.emit_llvm ==> !is_backend(stage_after(f, es, n)),
    decreases n,
{
    if n > 0 {
        lemma_stages(f, es, n - 1);
    }
}

/// Checking never emits, generates or links anything.
pub proof fn law_check_produces_nothing(f: CompileFlags, es: Seq<Event>, n: int)
    requires
        f.check_only,
        0 <= n < es.len(),
    ensures
        ({
            let a = action_after(f, es, n);
            !(a is Emit) && !(a is Prepare) && !(a is Generate) && !(a is Link)
        }),
{
    lemma_stages(f, es, n);
}

/// Emitting IR never generates an object or links.
pub proof fn law_emit_never_links(f: CompileFlags, es: Seq<Event>, n: int)
    requires
        f.emit_llvm,
        0 <= n < es.len(),
    ensures
        ({
            let a = action_after(f, es, n);
            !(a is Prepare) && !(a is Generate) && !(a is Link)
        }),
{
    lemma_stages(f, es, n);
}

/// Conditions on `debug` hold only in a debug link profile.
pub proof fn law_debug_only_when_linking_debug(f: CompileFlags, es: Seq<Event>, n: int)
    requires
        0 <= n < es.len(),
        action_after(f, es, n) == (Action::Resolve { debug: true }),
    ensures
        !f.release && !f.check_only,
{
}

/// A binary is linked only from an object that was generated, and generated
/// only where it was not up to date or the build was forced.
pub proof fn law_builds_have_a_cause(f: CompileFlags, stage: Stage, e: Event)
    ensures
        next(f, stage, e).1 is Link ==> e == (Event::Generated { ok: true }),
        next(f, stage, e).1 is Generate ==> (e matches Event::Prepared { fresh } && (!fresh
            || f.force)),
        next(f, stage, e).1 == (Action::Finish { ending: Ending::Fresh }) ==> e == (
        Event::Prepared { fresh: true }) && !f.force,
{
}

/// The stage says how far a run that has not ended has got.
pub open spec fn reached_step(s: Stage) -> int {
    match s {
        Stage::Reading => 0,
        Stage::Lexing => 1,
        Stage::Parsing => 2,
        Stage::Resolving => 3,
        Stage::Checking => 4,
        Stage::Emitting | Stage::Preparing | Stage::Generating => 5,
        Stage::Linking => 6,
        Stage::Ended => 7,
    }
}

proof fn lemma_progress(f: CompileFlags, es: Seq<Event>, n: int)
    requires
        0 <= n <= es.len(),
        stage_after(f, es, n) != Stage::Ended,
    ensures
        progress(f, es, n) == reached_step(stage_after(f, es, n)),
    decreases n,
{
    if n > 0 {
        lemma_progress(f, es, n - 1);
    }
}

/// A compilation that runs to its end takes exactly the steps that were
/// announced.
pub proof fn law_progress_adds_up(f: CompileFlags, es: Seq<Event>, n: int)
    requires
        0 <= n < es.len(),
        stage_after(f, es, n) != Stage::Ended,
        action_after(f, es, n) is Finish,
        action_after(f, es, n) != (Action::Finish { ending: Ending::EmptyFile }),
        action_after(f, es, n) != (Action::Finish { ending: Ending::Fresh }),
    ensures
        progress(f, es, n + 1) == step_count(f),
{
    lemma_progress(f, es, n);
    lemma_stages(f, es, n);
}

/// Whatever the stage and the event, what is generated or emitted is in the
/// profile that was asked for, and a check is asked for as the caller asked.
pub proof fn law_flags_are_passed_on(f: CompileFlags, stage: Stage, e: Event)
    ensures
        next(f, stage, e).1 matches Action::Generate { release } ==> release == f.release,
        next(f, stage, e).1 matches Action::Emit { release } ==> release == f.release,
        next(f, stage, e).1 matches Action::Check { print_ast, require_main } ==> print_ast
            == f.print_ast && require_main == f.require_main,
        next(f, stage, e).1 matches Action::Resolve { debug } ==> debug == (!f.release
            && !f.check_only),
        next(f, stage, e).1 matches Action::Finish { ending: Ending::Built { remove_objects } }
            ==> remove_objects == !f.keep_obj,
{
}

/// Something went wrong with the action that the event tells of.
pub open spec fn is_bad(e: Event) -> bool {
    match e {
        Event::Read { ok } => !ok,
        Event::Lexed { errors, .. } => errors > 0,
        Event::Parsed { ok } => !ok,
        Event::Resolved { errors } => errors > 0,
        Event::Checked { errors } => errors > 0,
        Event::Emitted { ok } => !ok,
        Event::Prepared { .. } => false,
        Event::Generated { ok } => !ok,
        Event::Linked { ok } => !ok,
    }
}

/// The event answers the action.
pub open spec fn answers(e: Event, a: Action) -> bool {
    match a {
        Action::Lex => e is Lexed,
        Action::Parse => e is Parsed,
        Action::Resolve { .. } => e is Resolved,
        Action::Check { .. } => e is Checked,
        Action::Emit { .. } => e is Emitted,
        Action::Prepare => e is Prepared,
        Action::Generate { .. } => e is Generated,
        Action::Link => e is Linked,
        Action::Finish { .. } | Action::Fail { .. } => false,
    }
}

/// Nothing that went wrong is passed over: an event that tells of an error ends
/// the compilation with a failure, at whatever stage it comes.
pub proof fn law_errors_end_the_compilation(f: CompileFlags, stage: Stage, e: Event)
    requires
        is_bad(e),
    ensures
        next(f, stage, e).0 == Stage::Ended,
        next(f, stage, e).1 is Fail,
{
}

/// A failure says what went wrong.
pub proof fn law_failures_are_named(f: CompileFlags, stage: Stage, e: Event)
    ensures
        next(f, stage, e).1 matches Action::Fail { reason } ==> reason == Reason::OutOfOrder
            || is_bad(e) && reason == match e {
            Event::Read { .. } => Reason::Read,
            Event::Lexed { .. } => Reason::Lex,
            Event::Parsed { .. } => Reason::Parse,
            Event::Resolved { .. } => Reason::Import,
            Event::Checked { .. } => Reason::Semantic,
            Event::Emitted { .. } => Reason::Emit,
            Event::Generated { .. } => Reason::Codegen,
            _ => Reason::Link,
        },
{
}

/// A caller that performs each action and hands back what came of it is never
/// told that it is out of order: what answers an action without an error is not
/// answered with a failure, and one with an error by its own reason.
pub proof fn law_answers_are_accepted(f: CompileFlags, stage: Stage, e: Event, next_e: Event)
    requires
        answers(next_e, next(f, stage, e).1),
    ensures
        next(f, next(f, stage, e).0, next_e).1 is Fail <==> is_bad(next_e),
        next(f, next(f, stage, e).0, next_e).1 != (Action::Fail { reason: Reason::OutOfOrder }),
{
}

/// Every compilation starts with reading the source, and the end is the end.
pub proof fn law_order_is_kept(f: CompileFlags, e: Event)
    ensures
        next(f, Stage::Reading, e).1 == (Action::Fail { reason: Reason::OutOfOrder }) <==> !(
        e is Read),
        next(f, Stage::Ended, e).1 == (Action::Fail { reason: Reason::OutOfOrder }),
{
}

/// The events of a run in which nothing goes wrong.
pub open spec fn clean_run(tokens: usize) -> Seq<Event> {
    seq![
        Event::Read { ok: true },
        Event::Lexed { tokens, errors: 0 },
        Event::Parsed { ok: true },
        Event::Resolved { errors: 0 },
        Event::Checked { errors: 0 },
    ]
}

/// A source without errors is read, lexed, parsed, resolved and checked, in that
/// order; a check then ends well, and anything else goes on as it was asked for.
pub proof fn law_clean_source_gets_through(f: CompileFlags, tokens: usize)
    requires
        tokens > 0,
    ensures
        ({
            let es = clean_run(tokens);
            &&& action_after(f, es, 0) is Lex
            &&& action_after(f, es, 1) is Parse
            &&& action_after(f, es, 2) is Resolve
            &&& action_after(f, es, 3) is Check
            &&& action_after(f, es, 4) == if f.check_only {
                Action::Finish { ending: Ending::Checked }
            } else if f.emit_llvm {
                Action::Emit { release: f.release }
            } else {
                Action::Prepare
            }
        }),
{
    reveal_with_fuel(stage_after, 6);
}

/// A clean build generates, links and ends with a binary; one that is up to date
/// ends at once unless it is forced; a run that emits ends with the IR.
pub proof fn law_clean_build_ends_with_a_binary(f: CompileFlags, tokens: usize, fresh: bool)
    requires
        tokens > 0,
        !f.check_only,
    ensures
        ({
            let emitted = clean_run(tokens).push(Event::Emitted { ok: true });
            let prepared = clean_run(tokens).push(Event::Prepared { fresh });
            let generated = prepared.push(Event::Generated { ok: true });
            let linked = generated.push(Event::Linked { ok: true });
            if f.emit_llvm {
                action_after(f, emitted, 5) == (Action::Finish { ending: Ending::Emitted })
            } else if fresh && !f.force {
                action_after(f, prepared, 5) == (Action::Finish { ending: Ending::Fresh })
            } else {
                &&& action_after(f, prepared, 5) == (Action::Generate { release: f.release })
                &&& action_after(f, generated, 6) is Link
                &&& action_after(f, linked, 7) == (Action::Finish {
                    ending: Ending::Built { remove_objects: !f.keep_obj },
                })
            }
        }),
{
    reveal_with_fuel(stage_after, 9);
}

/// A source without a token is done once it is lexed, and only such a source.
pub proof fn law_only_an_empty_source_ends_early(f: CompileFlags, stage: Stage, e: Event)
    ensures
        next(f, stage, e).1 == (Action::Finish { ending: Ending::EmptyFile }) ==> e == (
        Event::Lexed { tokens: 0, errors: 0 }),
        next(f, Stage::Lexing, Event::Lexed { tokens: 0, errors: 0 }).1 == (Action::Finish {
            ending: Ending::EmptyFile,
        }),
        next(f, stage, e).1 is Finish ==> next(f, stage, e).0 == Stage::Ended,
{
}

} // verus!
