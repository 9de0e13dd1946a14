//! The course of a sync of one entry: what is asked of the world, and what is
//! done with its answers.
use crate::commands::sync;
use crate::commands::sync::{Choice, EntryFacts, Event, SyncStep, Tally};
use crate::sync::{SyncAction, SyncMode};
use vstd::prelude::*;
use vstd::string::*;

verus! {

/// Where the sync of an entry stands.
#[derive(Debug, Clone, Copy, PartialEq, Eq, Structural)]
pub enum Phase {
    /// Nothing is known yet.
    Start,
    /// The target is being written for a step.
    Writing(SyncStep),
    /// The changed keys are being decided on.
    Deciding,
    /// The settled target is being written.
    Settling { keys: usize, has_pulls: bool },
    /// The pulled keys are being rewritten.
    PullingKeys,
    /// The user is being asked about the whole file.
    Asking,
    /// The whole file is being pushed.
    Pushing,
    /// The whole file is being pulled.
    Pulling,
    /// The entry is done.
    Done,
}

/// An answer of the world.
#[derive(Debug)]
pub enum Reply {
    /// What is known of the entry.
    Facts(EntryFacts),
    /// The target was written, or not, for a reason.
    Written(Option<String>),
    /// No key has changed.
    NoKeys,
    /// The user decided on keys: how many, and whether some are pulled.
    Decided { keys: usize, has_pulls: bool },
    /// The user quits.
    Quit,
    /// The settled target could not be rendered, for a reason.
    NotRendered(String),
    /// The order was rewritten, could not be, or failed to be, for a reason.
    Rewritten(Result<bool, String>),
    /// The user answered about the whole file.
    Answer(SyncAction),
}

/// What is asked of the world next.
#[derive(Debug, Clone, Copy, PartialEq, Eq, Structural)]
pub enum Request {
    /// Write what was built to the target.
    Write,
    /// Compare the keys and let the user decide.
    DecideKeys,
    /// Write the settled target.
    WriteSettled,
    /// Rewrite the order for the pulled keys.
    PullKeys,
    /// Ask the user about the whole file.
    AskFile,
    /// Pull the whole file.
    Pull,
    /// Go on with the next entry.
    Next,
    /// End the sync.
    Stop,
}

/// One turn: what happened, what is asked next, and whether the difference is to
/// be shown before that.
#[derive(Debug)]
pub struct Turn {
    pub phase: Phase,
    pub events: Vec<Event>,
    pub show: bool,
    pub request: Request,
}

/// A turn as mathematics sees it.
#[verifier::ext_equal]
pub struct TurnModel {
    pub phase: Phase,
    pub events: Seq<Event>,
    pub show: bool,
    pub request: Request,
}

impl View for Turn {
    type V = TurnModel;

    open spec fn view(&self) -> TurnModel {
        TurnModel {
            phase: self.phase,
            events: self.events@,
            show: self.show,
            request: self.request,
        }
    }
}

/// The entry is done.
pub open spec fn done(events: Seq<Event>) -> TurnModel {
    TurnModel { phase: Phase::Done, events, show: false, request: Request::Next }
}

/// The sync is over.
pub open spec fn stopped() -> TurnModel {
    TurnModel {
        phase: Phase::Done,
        events: seq![Event::Aborted],
        show: false,
        request: Request::Stop,
    }
}

/// Something is asked, without more.
pub open spec fn asks(phase: Phase, request: Request) -> TurnModel {
    TurnModel { phase, events: seq![], show: false, request }
}

/// A step writes the target. A dry run does so for a link alone, whose writer
/// then only tells what it would do.
pub open spec fn writes(step: SyncStep, dry_run: bool) -> bool {
    match step {
        SyncStep::Link => true,
        SyncStep::PushNew => !dry_run,
        SyncStep::Redeploy => !dry_run,
        _ => false,
    }
}

/// What a step comes to once its writing is done, or where it writes nothing.
pub open spec fn step_events(step: SyncStep, dry_run: bool, failure: Option<String>) -> Seq<Event> {
    match (step, failure) {
        (SyncStep::Link, Some(m)) => seq![Event::LinkFailed(m)],
        (SyncStep::Link, None) => if dry_run {
            seq![]
        } else {
            seq![Event::LinkDone]
        },
        (SyncStep::Linked, _) => seq![Event::AlreadyLinked],
        (SyncStep::PushNew, Some(m)) => seq![Event::PushFailed(m)],
        (SyncStep::PushNew, None) => if dry_run {
            seq![Event::NewWouldPush]
        } else {
            seq![Event::NewPushed]
        },
        (SyncStep::Redeploy, Some(m)) => seq![Event::RedeployFailed(m)],
        (SyncStep::Redeploy, None) => if dry_run {
            seq![Event::WouldRedeploy]
        } else {
            seq![Event::Redeployed]
        },
        (SyncStep::InSync, _) => seq![Event::InSync],
        (SyncStep::PerKey, _) => seq![],
        (SyncStep::WholeFile, _) => seq![],
    }
}

/// The turn that an action for a whole file makes.
pub open spec fn action_turn(action: SyncAction) -> TurnModel {
    match action {
        SyncAction::Push => asks(Phase::Pushing, Request::Write),
        SyncAction::Pull => asks(Phase::Pulling, Request::Pull),
        SyncAction::Skip => done(seq![Event::Skipped]),
        SyncAction::Quit => stopped(),
    }
}

/// The turn that starts on a whole file; the difference is shown first.
pub open spec fn whole_file_turn(mode: SyncMode, dry_run: bool, can_pull: bool) -> TurnModel {
    match sync::whole_file_choice(mode, dry_run, can_pull) {
        Choice::Take(action) => TurnModel { show: true, ..action_turn(action) },
        Choice::CannotPull => TurnModel {
            show: true,
            ..done(seq![Event::CannotPull, Event::Skipped])
        },
        Choice::WouldAsk => TurnModel {
            show: true,
            ..done(seq![Event::WouldPrompt { can_pull }, Event::Skipped])
        },
        Choice::Ask => TurnModel { show: true, ..asks(Phase::Asking, Request::AskFile) },
    }
}

/// The turn after the settled target was written, or not: the pulled keys are
/// rewritten next, unless rewriting is off.
pub open spec fn settled_turn(event: Event, has_pulls: bool, no_rewrite: bool) -> TurnModel {
    if has_pulls && !no_rewrite {
        TurnModel {
            phase: Phase::PullingKeys,
            events: seq![event],
            show: false,
            request: Request::PullKeys,
        }
    } else {
        done(seq![event])
    }
}

/// The course of the sync of one entry. An answer that nobody asked for ends the
/// entry.
pub open spec fn next_turn(
    phase: Phase,
    reply: Reply,
    mode: SyncMode,
    dry_run: bool,
    no_rewrite: bool,
) -> TurnModel {
    match (phase, reply) {
        (Phase::Start, Reply::Facts(f)) => {
            let step = sync::sync_step(f, mode, dry_run);
            if step == SyncStep::PerKey {
                asks(Phase::Deciding, Request::DecideKeys)
            } else if step == SyncStep::WholeFile {
                whole_file_turn(mode, dry_run, f.can_pull)
            } else if writes(step, dry_run) {
                asks(Phase::Writing(step), Request::Write)
            } else {
                done(step_events(step, dry_run, None))
            }
        },
        (Phase::Writing(step), Reply::Written(failure)) => done(
            step_events(step, dry_run, failure),
        ),
        (Phase::Deciding, Reply::NoKeys) => done(seq![Event::KeysInSync]),
        (Phase::Deciding, Reply::Quit) => stopped(),
        (Phase::Deciding, Reply::Decided { keys, has_pulls }) => if keys == 0 {
            done(seq![Event::Skipped])
        } else {
            asks(Phase::Settling { keys, has_pulls }, Request::WriteSettled)
        },
        (Phase::Settling { keys, has_pulls }, Reply::Written(failure)) => settled_turn(
            match failure {
                Some(m) => Event::MergeNotWritten(m),
                None => Event::Merged { keys },
            },
            has_pulls,
            no_rewrite,
        ),
        (Phase::Settling { keys, has_pulls }, Reply::NotRendered(m)) => settled_turn(
            Event::MergeNotRendered(m),
            has_pulls,
            no_rewrite,
        ),
        (Phase::PullingKeys, Reply::Rewritten(result)) => done(
            seq![
                match result {
                    Ok(true) => Event::KeysPulled,
                    Ok(false) => Event::KeysNotRewritten,
                    Err(m) => Event::KeysPullFailed(m),
                },
            ],
        ),
        (Phase::Asking, Reply::Answer(action)) => action_turn(action),
        (Phase::Pushing, Reply::Written(failure)) => done(
            match failure {
                Some(m) => seq![Event::PushFailed(m)],
                None => if dry_run {
                    seq![]
                } else {
                    seq![Event::Pushed]
                },
            },
        ),
        (Phase::Pulling, Reply::Rewritten(result)) => done(
            match result {
                Ok(possible) => (if possible {
                    seq![]
                } else {
                    seq![Event::NotRewritable]
                }) + (if dry_run {
                    seq![]
                } else {
                    seq![Event::Pulled]
                }),
                Err(m) => seq![Event::PullFailed(m)],
            },
        ),
        _ => done(seq![]),
    }
}

fn finish(events: Vec<Event>) -> (r: Turn)
    ensures
        r@ == done(events@),
{
    Turn { phase: Phase::Done, events, show: false, request: Request::Next }
}

fn finish_with(event: Event) -> (r: Turn)
    ensures
        r@ == done(seq![event]),
{
    let mut events: Vec<Event> = Vec::new();
    events.push(event);
    assert(events@ =~= seq![event]);
    finish(events)
}

fn finish_silently() -> (r: Turn)
    ensures
        r@ == done(seq![]),
{
    let events: Vec<Event> = Vec::new();
    assert(events@ =~= seq![]);
    finish(events)
}

fn ask(phase: Phase, request: Request) -> (r: Turn)
    ensures
        r@ == asks(phase, request),
{
    let events: Vec<Event> = Vec::new();
    assert(events@ =~= seq![]);
    Turn { phase, events, show: false, request }
}

fn stop() -> (r: Turn)
    ensures
        r@ == stopped(),
{
    let mut events: Vec<Event> = Vec::new();
    events.push(Event::Aborted);
    assert(events@ =~= seq![Event::Aborted]);
    Turn { phase: Phase::Done, events, show: false, request: Request::Stop }
}

fn take_action(action: SyncAction) -> (r: Turn)
    ensures
        r@ == action_turn(action),
{
    match action {
        SyncAction::Push => ask(Phase::Pushing, Request::Write),
        SyncAction::Pull => ask(Phase::Pulling, Request::Pull),
        SyncAction::Skip => finish_with(Event::Skipped),
        SyncAction::Quit => stop(),
    }
}

fn start_whole_file(mode: SyncMode, dry_run: bool, can_pull: bool) -> (r: Turn)
    ensures
        r@ == whole_file_turn(mode, dry_run, can_pull),
{
    let turn = match sync::choose_action(mode, dry_run, can_pull) {
        Choice::Take(action) => take_action(action),
        Choice::CannotPull => {
            let mut events: Vec<Event> = Vec::new();
            events.push(Event::CannotPull);
            events.push(Event::Skipped);
            assert(events@ =~= seq![Event::CannotPull, Event::Skipped]);
            finish(events)
        },
        Choice::WouldAsk => {
            let mut events: Vec<Event> = Vec::new();
            events.push(Event::WouldPrompt { can_pull });
            events.push(Event::Skipped);
            assert(events@ =~= seq![Event::WouldPrompt { can_pull }, Event::Skipped]);
            finish(events)
        },
        Choice::Ask => ask(Phase::Asking, Request::AskFile),
    };
    Turn { phase: turn.phase, events: turn.events, show: true, request: turn.request }
}

fn after_settling(event: Event, has_pulls: bool, no_rewrite: bool) -> (r: Turn)
    ensures
        r@ == settled_turn(event, has_pulls, no_rewrite),
{
    if has_pulls && !no_rewrite {
        let mut events: Vec<Event> = Vec::new();
        events.push(event);
        assert(events@ =~= seq![event]);
        Turn { phase: Phase::PullingKeys, events, show: false, request: Request::PullKeys }
    } else {
        finish_with(event)
    }
}

fn after_step(step: SyncStep, dry_run: bool, failure: Option<String>) -> (r: Turn)
    ensures
        r@ == done(step_events(step, dry_run, failure)),
{
    match (step, failure) {
        (SyncStep::Link, Some(m)) => finish_with(Event::LinkFailed(m)),
        (SyncStep::Link, None) => if dry_run {
            finish_silently()
        } else {
            finish_with(Event::LinkDone)
        },
        (SyncStep::Linked, _) => finish_with(Event::AlreadyLinked),
        (SyncStep::PushNew, Some(m)) => finish_with(Event::PushFailed(m)),
        (SyncStep::PushNew, None) => if dry_run {
            finish_with(Event::NewWouldPush)
        } else {
            finish_with(Event::NewPushed)
        },
        (SyncStep::Redeploy, Some(m)) => finish_with(Event::RedeployFailed(m)),
        (SyncStep::Redeploy, None) => if dry_run {
            finish_with(Event::WouldRedeploy)
        } else {
            finish_with(Event::Redeployed)
        },
        (SyncStep::InSync, _) => finish_with(Event::InSync),
        (SyncStep::PerKey, _) => finish_silently(),
        (SyncStep::WholeFile, _) => finish_silently(),
    }
}

fn step_writes(step: SyncStep, dry_run: bool) -> (r: bool)
    ensures
        r == writes(step, dry_run),
{
    match step {
        SyncStep::Link => true,
        SyncStep::PushNew => !dry_run,
        SyncStep::Redeploy => !dry_run,
        _ => false,
    }
}

fn after_pull(dry_run: bool, result: Result<bool, String>) -> (r: Turn)
    ensures
        r@ == next_turn(
            Phase::Pulling,
            Reply::Rewritten(result),
            SyncMode::Interactive,
            dry_run,
            false,
        ),
{
    match result {
        Ok(possible) => {
            let mut events: Vec<Event> = Vec::new();
            if !possible {
                events.push(Event::NotRewritable);
            }
            if !dry_run {
                events.push(Event::Pulled);
            }
            let ghost wanted = (if possible {
                seq![]
            } else {
                seq![Event::NotRewritable]
            }) + (if dry_run {
                seq![]
            } else {
                seq![Event::Pulled]
            });
            assert(events@ =~= wanted);
            finish(events)
        },
        Err(m) => finish_with(Event::PullFailed(m)),
    }
}

/// Takes an answer of the world and tells what comes next.
pub fn take_turn(
    phase: Phase,
    reply: Reply,
    mode: SyncMode,
    dry_run: bool,
    no_rewrite: bool,
) -> (r: Turn)
    ensures
        r@ == next_turn(phase, reply, mode, dry_run, no_rewrite),
{
    match (phase, reply) {
        (Phase::Start, Reply::Facts(f)) => {
            let step = sync::decide_step(&f, mode, dry_run);
            if step == SyncStep::PerKey {
                ask(Phase::Deciding, Request::DecideKeys)
            } else if step == SyncStep::WholeFile {
                start_whole_file(mode, dry_run, f.can_pull)
            } else if step_writes(step, dry_run) {
                ask(Phase::Writing(step), Request::Write)
            } else {
                after_step(step, dry_run, None)
            }
        },
        (Phase::Writing(step), Reply::Written(failure)) => after_step(step, dry_run, failure),
        (Phase::Deciding, Reply::NoKeys) => finish_with(Event::KeysInSync),
        (Phase::Deciding, Reply::Quit) => stop(),
        (Phase::Deciding, Reply::Decided { keys, has_pulls }) => if keys == 0 {
            finish_with(Event::Skipped)
        } else {
            ask(Phase::Settling { keys, has_pulls }, Request::WriteSettled)
        },
        (Phase::Settling { keys, has_pulls }, Reply::Written(failure)) => {
            let event = match failure {
                Some(m) => Event::MergeNotWritten(m),
                None => Event::Merged { keys },
            };
            after_settling(event, has_pulls, no_rewrite)
        },
        (Phase::Settling { keys, has_pulls }, Reply::NotRendered(m)) => after_settling(
            Event::MergeNotRendered(m),
            has_pulls,
            no_rewrite,
        ),
        (Phase::PullingKeys, Reply::Rewritten(result)) => finish_with(
            match result {
                Ok(true) => Event::KeysPulled,
                Ok(false) => Event::KeysNotRewritten,
                Err(m) => Event::KeysPullFailed(m),
            },
        ),
        (Phase::Asking, Reply::Answer(action)) => take_action(action),
        (Phase::Pushing, Reply::Written(failure)) => match failure {
            Some(m) => finish_with(Event::PushFailed(m)),
            None => if dry_run {
                finish_silently()
            } else {
                finish_with(Event::Pushed)
            },
        },
        (Phase::Pulling, Reply::Rewritten(result)) => after_pull(dry_run, result),
        _ => finish_silently(),
    }
}

// ---------------------------------------------------------------------------
// Laws of the course
// ---------------------------------------------------------------------------

/// How many answers an entry can still take.
pub open spec fn turns_left(phase: Phase) -> nat {
    match phase {
        Phase::Start => 4,
        Phase::Deciding => 3,
        Phase::Asking => 3,
        Phase::Settling { .. } => 2,
        Phase::Writing(_) => 1,
        Phase::PullingKeys => 1,
        Phase::Pushing => 1,
        Phase::Pulling => 1,
        Phase::Done => 0,
    }
}

/// Every answer brings an entry closer to its end, and an entry that is done
/// asks for nothing.
pub proof fn law_entry_ends(
    phase: Phase,
    reply: Reply,
    mode: SyncMode,
    dry_run: bool,
    no_rewrite: bool,
)
    ensures
        phase != Phase::Done ==> turns_left(
            next_turn(phase, reply, mode, dry_run, no_rewrite).phase,
        ) < turns_left(phase),
        next_turn(phase, reply, mode, dry_run, no_rewrite).phase == Phase::Done <==> (next_turn(
            phase,
            reply,
            mode,
            dry_run,
            no_rewrite,
        ).request == Request::Next || next_turn(phase, reply, mode, dry_run, no_rewrite).request
            == Request::Stop),
{
}

/// None of the events counts as done work.
pub open spec fn counts_nothing_done(events: Seq<Event>) -> bool {
    forall|i: int|
        0 <= i < events.len() ==> sync::event_tally(#[trigger] events[i]) != Tally::Pushed
            && sync::event_tally(events[i]) != Tally::Pulled
}

/// The phases that a dry run can be in.
pub open spec fn dry_phase(phase: Phase) -> bool {
    match phase {
        Phase::Deciding => false,
        Phase::Settling { .. } => false,
        Phase::PullingKeys => false,
        Phase::Asking => false,
        Phase::Writing(step) => step == SyncStep::Link,
        _ => true,
    }
}

/// A dry run never asks the user, never settles keys, and counts nothing as
/// pushed or pulled.
pub proof fn law_dry_run(phase: Phase, reply: Reply, mode: SyncMode, no_rewrite: bool)
    requires
        dry_phase(phase),
    ensures
        ({
            let t = next_turn(phase, reply, mode, true, no_rewrite);
            &&& dry_phase(t.phase)
            &&& t.request != Request::AskFile
            &&& t.request != Request::DecideKeys
            &&& counts_nothing_done(t.events)
        }),
{
}

/// Where rewriting is off, the order is never rewritten for single keys.
pub proof fn law_no_rewrite(phase: Phase, reply: Reply, mode: SyncMode, dry_run: bool)
    ensures
        next_turn(phase, reply, mode, dry_run, true).request != Request::PullKeys,
{
}

/// A user who quits ends the sync, and nothing more happens to the entry.
pub proof fn law_quit(mode: SyncMode, dry_run: bool, no_rewrite: bool)
    ensures
        next_turn(Phase::Deciding, Reply::Quit, mode, dry_run, no_rewrite) == stopped(),
        next_turn(
            Phase::Asking,
            Reply::Answer(SyncAction::Quit),
            mode,
            dry_run,
            no_rewrite,
        ) == stopped(),
{
}

/// An entry whose target is there and holds something else than what was built.
pub open spec fn differs(f: EntryFacts) -> bool {
    !f.is_symlink && f.target_exists && f.has_changes && !f.inner_symlinks_only
}

/// An entry that is not linked and whose target only has to become a file again.
pub open spec fn links_only(f: EntryFacts) -> bool {
    !f.is_symlink && f.target_exists && (f.inner_symlinks_only || !f.has_changes
        && f.unexpected_symlink)
}

/// To push a whole file, by the mode or by the answer, is to write it, and to pull
/// it is to pull it; a file that cannot be pulled is left alone.
pub proof fn law_action_taken(f: EntryFacts, mode: SyncMode, dry_run: bool, no_rewrite: bool)
    ensures
        ({
            let t = next_turn(
                Phase::Asking,
                Reply::Answer(SyncAction::Push),
                mode,
                dry_run,
                no_rewrite,
            );
            t.request == Request::Write && t.phase == Phase::Pushing
        }),
        ({
            let t = next_turn(
                Phase::Asking,
                Reply::Answer(SyncAction::Pull),
                mode,
                dry_run,
                no_rewrite,
            );
            t.request == Request::Pull && t.phase == Phase::Pulling
        }),
        ({
            let t = next_turn(
                Phase::Asking,
                Reply::Answer(SyncAction::Skip),
                mode,
                dry_run,
                no_rewrite,
            );
            &&& t.request == Request::Next
            &&& t.events.len() == 1
            &&& sync::event_tally(t.events[0]) == Tally::Skipped
        }),
        differs(f) ==> {
            let t = next_turn(
                Phase::Start,
                Reply::Facts(f),
                SyncMode::PushAll,
                dry_run,
                no_rewrite,
            );
            t.show && t.request == Request::Write && t.phase == Phase::Pushing
        },
        differs(f) && f.can_pull ==> {
            let t = next_turn(
                Phase::Start,
                Reply::Facts(f),
                SyncMode::PullAll,
                dry_run,
                no_rewrite,
            );
            t.show && t.request == Request::Pull && t.phase == Phase::Pulling
        },
        differs(f) && !f.can_pull ==> {
            let t = next_turn(
                Phase::Start,
                Reply::Facts(f),
                SyncMode::PullAll,
                dry_run,
                no_rewrite,
            );
            &&& t.request == Request::Next
            &&& t.events.contains(Event::CannotPull)
            &&& counts_nothing_done(t.events)
        },
{
    let t = next_turn(Phase::Start, Reply::Facts(f), SyncMode::PullAll, dry_run, no_rewrite);
    if differs(f) && !f.can_pull {
        assert(t.events[0] == Event::CannotPull);
    }
}

/// A whole file is pulled only where that was chosen: by the user's answer, or by
/// the mode for a target that differs and can be pulled.
pub proof fn law_pull_chosen(
    phase: Phase,
    reply: Reply,
    mode: SyncMode,
    dry_run: bool,
    no_rewrite: bool,
)
    ensures
        next_turn(phase, reply, mode, dry_run, no_rewrite).request == Request::Pull <==> (phase
            == Phase::Asking && reply == Reply::Answer(SyncAction::Pull)) || (phase == Phase::Start
            && mode == SyncMode::PullAll && (reply matches Reply::Facts(f) && differs(f)
            && f.can_pull)),
        next_turn(phase, reply, mode, dry_run, no_rewrite).phase == Phase::Pulling ==> next_turn(
            phase,
            reply,
            mode,
            dry_run,
            no_rewrite,
        ).request == Request::Pull,
{
}

/// What was built is written only where that was chosen, or where nothing is lost
/// by it: a link that is not current, a target that is not there, and one that
/// only has to become a file again.
pub proof fn law_write_chosen(
    phase: Phase,
    reply: Reply,
    mode: SyncMode,
    dry_run: bool,
    no_rewrite: bool,
)
    ensures
        next_turn(phase, reply, mode, dry_run, no_rewrite).request == Request::Write <==> (phase
            == Phase::Asking && reply == Reply::Answer(SyncAction::Push)) || (phase == Phase::Start
            && (reply matches Reply::Facts(f) && {
            ||| f.is_symlink && !f.link_is_current
            ||| !f.is_symlink && !f.target_exists && !dry_run
            ||| links_only(f) && !dry_run
            ||| mode == SyncMode::PushAll && differs(f)
        })),
{
}

/// A user who can be asked is asked about every target that differs: key by key
/// where the keys can be pulled, and about the whole file otherwise. A target that
/// does not differ is left alone.
pub proof fn law_user_asked(f: EntryFacts, mode: SyncMode, no_rewrite: bool)
    ensures
        ({
            let t = next_turn(
                Phase::Start,
                Reply::Facts(f),
                SyncMode::Interactive,
                false,
                no_rewrite,
            );
            &&& t.request == Request::DecideKeys <==> differs(f) && !f.is_plaintext && f.can_pull
                && f.deployed_parseable
            &&& t.request == Request::AskFile <==> differs(f) && (f.is_plaintext || !f.can_pull
                || !f.deployed_parseable)
            &&& t.request == Request::AskFile ==> t.show && t.phase == Phase::Asking
            &&& t.request == Request::DecideKeys ==> t.phase == Phase::Deciding
        }),
        ({
            let t = next_turn(Phase::Start, Reply::Facts(f), mode, false, no_rewrite);
            !f.is_symlink && f.target_exists && !f.has_changes && !f.unexpected_symlink
                && !f.inner_symlinks_only ==> t.request == Request::Next && counts_nothing_done(
                t.events,
            )
        }),
        ({
            let t = next_turn(Phase::Start, Reply::Facts(f), mode, false, no_rewrite);
            f.is_symlink && f.link_is_current ==> t.request == Request::Next
                && counts_nothing_done(t.events)
        }),
{
}

/// An event that tells of a failure, with its reason.
pub open spec fn tells_failure(e: Event, reason: String) -> bool {
    sync::event_tally(e) == Tally::Failed && match e {
        Event::LinkFailed(m) => m == reason,
        Event::PushFailed(m) => m == reason,
        Event::RedeployFailed(m) => m == reason,
        Event::PullFailed(m) => m == reason,
        Event::MergeNotWritten(m) => m == reason,
        Event::MergeNotRendered(m) => m == reason,
        Event::KeysPullFailed(m) => m == reason,
        _ => false,
    }
}

/// The phases in which a target is being written.
pub open spec fn writing(phase: Phase) -> bool {
    match phase {
        Phase::Writing(step) => step == SyncStep::Link || step == SyncStep::PushNew || step
            == SyncStep::Redeploy,
        Phase::Settling { .. } => true,
        Phase::Pushing => true,
        _ => false,
    }
}

/// A write counts as pushed exactly where it succeeds and is no dry run, once; one
/// that fails is told with its reason and counts as failed.
pub proof fn law_writes_counted(
    phase: Phase,
    failure: Option<String>,
    mode: SyncMode,
    no_rewrite: bool,
)
    requires
        writing(phase),
    ensures
        ({
            let t = next_turn(phase, Reply::Written(failure), mode, false, no_rewrite);
            &&& t.events.len() == 1
            &&& match failure {
                Some(m) => tells_failure(t.events[0], m),
                None => sync::event_tally(t.events[0]) == Tally::Pushed,
            }
        }),
{
}

/// A pull counts as pulled exactly where it succeeds, once; one that fails is told
/// with its reason and counts as failed; one that leaves something out is told.
pub proof fn law_pulls_counted(result: Result<bool, String>, mode: SyncMode, no_rewrite: bool)
    ensures
        ({
            let t = next_turn(
                Phase::Pulling,
                Reply::Rewritten(result),
                mode,
                false,
                no_rewrite,
            );
            match result {
                Ok(possible) => {
                    &&& sync::event_tally(t.events.last()) == Tally::Pulled
                    &&& t.events.len() == if possible {
                        1int
                    } else {
                        2
                    }
                    &&& !possible ==> t.events[0] == Event::NotRewritable
                },
                Err(m) => t.events.len() == 1 && tells_failure(t.events[0], m),
            }
        }),
        ({
            let t = next_turn(
                Phase::PullingKeys,
                Reply::Rewritten(result),
                mode,
                false,
                no_rewrite,
            );
            &&& t.events.len() == 1
            &&& match result {
                Ok(true) => sync::event_tally(t.events[0]) == Tally::Pulled,
                Ok(false) => t.events[0] == Event::KeysNotRewritten,
                Err(m) => tells_failure(t.events[0], m),
            }
        }),
{
}

/// Decided keys are settled in the target, and after that, whatever came of it,
/// the pulled ones are rewritten in the order, unless rewriting is off. The order
/// is rewritten for single keys in no other case.
pub proof fn law_keys_settled(
    phase: Phase,
    reply: Reply,
    mode: SyncMode,
    dry_run: bool,
    no_rewrite: bool,
)
    ensures
        ({
            let t = next_turn(phase, reply, mode, dry_run, no_rewrite);
            &&& t.request == Request::WriteSettled <==> phase == Phase::Deciding && (
            reply matches Reply::Decided { keys, has_pulls } && keys > 0)
            &&& reply matches Reply::Decided { keys, has_pulls } ==> (phase == Phase::Deciding
                ==> if keys > 0 {
                t.phase == (Phase::Settling { keys, has_pulls })
            } else {
                &&& t.request == Request::Next
                &&& t.events.len() == 1
                &&& sync::event_tally(t.events[0]) == Tally::Skipped
            })
            &&& phase == Phase::Deciding && reply is NoKeys ==> t.request == Request::Next
                && counts_nothing_done(t.events)
            &&& t.request == Request::PullKeys <==> (phase matches Phase::Settling {
                keys,
                has_pulls,
            } && has_pulls && !no_rewrite && (reply is Written || reply is NotRendered))
            &&& reply matches Reply::NotRendered(m) ==> (phase is Settling ==> t.events.len() == 1
                && tells_failure(t.events[0], m))
        }),
{
}

/// The sync ends only where the user quits.
pub proof fn law_stop_is_quit(
    phase: Phase,
    reply: Reply,
    mode: SyncMode,
    dry_run: bool,
    no_rewrite: bool,
)
    ensures
        next_turn(phase, reply, mode, dry_run, no_rewrite).request == Request::Stop <==> (phase
            == Phase::Deciding && reply is Quit) || (phase == Phase::Asking && reply
            == Reply::Answer(SyncAction::Quit)),
{
}

/// A dry run tells what it would do: of a file that is not deployed, of links that
/// would become files, and, where a user would be asked, that they would be and
/// whether the file could be pulled.
pub proof fn law_dry_run_told(f: EntryFacts, mode: SyncMode, no_rewrite: bool)
    ensures
        ({
            let t = next_turn(Phase::Start, Reply::Facts(f), mode, true, no_rewrite);
            &&& !f.is_symlink && !f.target_exists ==> t.request == Request::Next && t.events == seq![
                Event::NewWouldPush,
            ]
            &&& links_only(f) ==> t.request == Request::Next && t.events == seq![
                Event::WouldRedeploy,
            ]
            &&& differs(f) && mode == SyncMode::Interactive ==> {
                &&& t.request == Request::Next
                &&& t.show
                &&& t.events == seq![Event::WouldPrompt { can_pull: f.can_pull }, Event::Skipped]
            }
        }),
{
}

/// The difference is shown exactly where the whole of a file that differs is at
/// stake.
pub proof fn law_difference_shown(
    phase: Phase,
    reply: Reply,
    mode: SyncMode,
    dry_run: bool,
    no_rewrite: bool,
)
    ensures
        next_turn(phase, reply, mode, dry_run, no_rewrite).show <==> phase == Phase::Start && (
        reply matches Reply::Facts(f) && differs(f) && !(mode == SyncMode::Interactive && !dry_run
            && !f.is_plaintext && f.can_pull && f.deployed_parseable)),
{
}

/// What was written is told for what it was: a link, a file that was not deployed,
/// a file in the place of a link, or a file that was pushed.
pub proof fn law_write_told(f: EntryFacts, mode: SyncMode, no_rewrite: bool)
    ensures
        ({
            let t = next_turn(Phase::Start, Reply::Facts(f), mode, false, no_rewrite);
            let done = next_turn(t.phase, Reply::Written(None), mode, false, no_rewrite);
            t.request == Request::Write ==> done.events == seq![
                if f.is_symlink {
                    Event::LinkDone
                } else if !f.target_exists {
                    Event::NewPushed
                } else if differs(f) {
                    Event::Pushed
                } else {
                    Event::Redeployed
                },
            ]
        }),
{
}

} // verus!
