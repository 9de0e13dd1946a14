//! Deciding on the changed keys of one file entry.
use crate::diff::semantic;
use crate::diff::semantic::KeyChange;
use crate::pairs;
use crate::sync::merge::{Decisions, DecisionsModel};
use crate::sync::{KeyAction, Prompter};
use vstd::prelude::*;
use vstd::string::*;

verus! {

/// How far the decisions on the keys of an entry have come.
pub struct KeyState {
    /// What is done with all remaining keys, once that is said.
    pub all_mode: Option<bool>,
    pub decisions: DecisionsModel,
    pub quit: bool,
}

/// The state before the first key.
pub open spec fn key_start() -> KeyState {
    KeyState { all_mode: None, decisions: seq![], quit: false }
}

/// The state after one more key. Once the user has quit, nothing is decided;
/// once all remaining keys are decided, the answer does not count.
pub open spec fn key_step(s: KeyState, path: Seq<char>, answer: KeyAction) -> KeyState {
    if s.quit {
        s
    } else {
        match s.all_mode {
            Some(push) => KeyState { decisions: pairs::put(s.decisions, path, push), ..s },
            None => match answer {
                KeyAction::Push => KeyState {
                    decisions: pairs::put(s.decisions, path, true),
                    ..s
                },
                KeyAction::Pull => KeyState {
                    decisions: pairs::put(s.decisions, path, false),
                    ..s
                },
                KeyAction::Skip => s,
                KeyAction::AllPush => KeyState {
                    all_mode: Some(true),
                    decisions: pairs::put(s.decisions, path, true),
                    ..s
                },
                KeyAction::AllPull => KeyState {
                    all_mode: Some(false),
                    decisions: pairs::put(s.decisions, path, false),
                    ..s
                },
                KeyAction::Quit => KeyState { quit: true, ..s },
            },
        }
    }
}

/// The state after the first `n` changes, with an answer for each.
pub open spec fn keys_after(
    changes: Seq<semantic::ChangeModel>,
    answers: Seq<KeyAction>,
    n: nat,
) -> KeyState
    decreases n,
{
    if n == 0 || n > changes.len() {
        key_start()
    } else {
        key_step(
            keys_after(changes, answers, (n - 1) as nat),
            changes[n - 1].path,
            answers[n - 1],
        )
    }
}

/// The decisions that a list of answers makes; `None` where the user quits.
pub open spec fn keys_outcome(changes: Seq<semantic::ChangeModel>, answers: Seq<KeyAction>) -> Option<
    DecisionsModel,
> {
    let s = keys_after(changes, answers, changes.len());
    if s.quit {
        None
    } else {
        Some(s.decisions)
    }
}

/// Decisions in the making.
struct Session {
    all_mode: Option<bool>,
    decisions: Decisions,
}

impl Session {
    /// Takes the answer on a key; tells whether the user quits.
    fn answer(&mut self, path: &str, action: KeyAction) -> (quit: bool)
        ensures
            (KeyState {
                all_mode: final(self).all_mode,
                decisions: final(self).decisions@,
                quit,
            }) == key_step(
                (KeyState {
                    all_mode: old(self).all_mode,
                    decisions: old(self).decisions@,
                    quit: false,
                }),
                path@,
                action,
            ),
    {
        match self.all_mode {
            Some(push) => {
                self.decisions.insert(path, push);
                false
            },
            None => match action {
                KeyAction::Push => {
                    self.decisions.insert(path, true);
                    false
                },
                KeyAction::Pull => {
                    self.decisions.insert(path, false);
                    false
                },
                KeyAction::Skip => false,
                KeyAction::AllPush => {
                    self.all_mode = Some(true);
                    self.decisions.insert(path, true);
                    false
                },
                KeyAction::AllPull => {
                    self.all_mode = Some(false);
                    self.decisions.insert(path, false);
                    false
                },
                KeyAction::Quit => true,
            },
        }
    }
}

proof fn lemma_quit_stays(
    changes: Seq<semantic::ChangeModel>,
    answers: Seq<KeyAction>,
    n: nat,
    m: nat,
)
    requires
        n <= m <= changes.len(),
        keys_after(changes, answers, n).quit,
    ensures
        keys_after(changes, answers, m) == keys_after(changes, answers, n),
    decreases m,
{
    if n < m {
        lemma_quit_stays(changes, answers, n, (m - 1) as nat);
    }
}

proof fn lemma_answers_extend(
    changes: Seq<semantic::ChangeModel>,
    a: Seq<KeyAction>,
    b: Seq<KeyAction>,
    n: nat,
)
    requires
        n <= changes.len(),
        n <= a.len(),
        n <= b.len(),
        forall|i: int| 0 <= i < n ==> a[i] == b[i],
    ensures
        keys_after(changes, a, n) == keys_after(changes, b, n),
    decreases n,
{
    if n > 0 {
        lemma_answers_extend(changes, a, b, (n - 1) as nat);
    }
}

/// Decides on changed keys by a list of answers, one for each key.
pub fn resolve_keys(changes: &[KeyChange], answers: &[KeyAction]) -> (r: Option<Decisions>)
    requires
        answers@.len() >= changes@.len(),
    ensures
        match r {
            Some(d) => keys_outcome(semantic::changes_model(changes@), answers@) == Some(d@),
            None => keys_outcome(semantic::changes_model(changes@), answers@) is None,
        },
{
    let ghost m = semantic::changes_model(changes@);
    let mut session = Session { all_mode: None, decisions: Decisions::new() };
    let mut i: usize = 0;
    while i < changes.len()
        invariant
            i <= changes@.len() <= answers@.len(),
            m == semantic::changes_model(changes@),
            keys_after(m, answers@, i as nat) == (KeyState {
                all_mode: session.all_mode,
                decisions: session.decisions@,
                quit: false,
            }),
        decreases changes@.len() - i,
    {
        assert(m[i as int] == changes@[i as int]@);
        let quit = session.answer(&changes[i].path, answers[i]);
        i = i + 1;
        if quit {
            proof {
                lemma_quit_stays(m, answers@, i as nat, m.len());
            }
            return None;
        }
    }
    Some(session.decisions)
}

/// Each answer up to which no word on all remaining keys had come is one that
/// the prompter gave when it was asked about that change.
#[verifier::opaque]
pub open spec fn asked<P: Prompter>(
    prompter: &P,
    pkg: &str,
    name: &str,
    changes: Seq<KeyChange>,
    answers: Seq<KeyAction>,
) -> bool {
    forall|i: int|
        0 <= i < answers.len() && keys_after(
            semantic::changes_model(changes),
            answers,
            i as nat,
        ).all_mode is None ==> call_ensures(
            P::ask_key_action,
            (prompter, pkg, name, &changes[i]),
            #[trigger] answers[i],
        )
}

proof fn lemma_asked_one_more<P: Prompter>(
    prompter: &P,
    pkg: &str,
    name: &str,
    changes: Seq<KeyChange>,
    answers: Seq<KeyAction>,
    answer: KeyAction,
)
    requires
        answers.len() < changes.len(),
        asked(prompter, pkg, name, changes, answers),
        keys_after(semantic::changes_model(changes), answers, answers.len()).all_mode is None
            ==> call_ensures(
            P::ask_key_action,
            (prompter, pkg, name, &changes[answers.len() as int]),
            answer,
        ),
    ensures
        asked(prompter, pkg, name, changes, answers.push(answer)),
{
    reveal(asked);
    let m = semantic::changes_model(changes);
    let longer = answers.push(answer);
    assert forall|i: int|
        0 <= i < longer.len() && keys_after(m, longer, i as nat).all_mode is None implies call_ensures(
        P::ask_key_action,
        (prompter, pkg, name, &changes[i]),
        #[trigger] longer[i],
    ) by {
        lemma_answers_extend(m, answers, longer, i as nat);
        if i < answers.len() {
            assert(longer[i] == answers[i]);
        }
    }
}

/// Decides on changed keys by asking for each, in order, until all remaining
/// ones are decided or the user quits.
pub fn ask_keys<P: Prompter>(
    prompter: &P,
    pkg: &str,
    name: &str,
    changes: &[KeyChange],
) -> (r: Option<Decisions>)
    ensures
        exists|answers: Seq<KeyAction>| #[trigger]
            asked(prompter, pkg, name, changes@, answers) && match r {
                Some(d) => answers.len() == changes@.len() && keys_outcome(
                    semantic::changes_model(changes@),
                    answers,
                ) == Some(d@),
                None => answers.len() <= changes@.len() && keys_after(
                    semantic::changes_model(changes@),
                    answers,
                    answers.len(),
                ).quit,
            },
{
    let ghost m = semantic::changes_model(changes@);
    let ghost mut answers: Seq<KeyAction> = seq![];
    let mut session = Session { all_mode: None, decisions: Decisions::new() };
    let mut i: usize = 0;
    assert(asked(prompter, pkg, name, changes@, answers)) by {
        reveal(asked);
    }
    while i < changes.len()
        invariant
            i <= changes@.len(),
            m == semantic::changes_model(changes@),
            answers.len() == i,
            asked(prompter, pkg, name, changes@, answers),
            keys_after(m, answers, i as nat) == (KeyState {
                all_mode: session.all_mode,
                decisions: session.decisions@,
                quit: false,
            }),
        decreases changes@.len() - i,
    {
        assert(m[i as int] == changes@[i as int]@);
        let action = match session.all_mode {
            Some(_) => KeyAction::Skip,
            None => prompter.ask_key_action(pkg, name, &changes[i]),
        };
        let ghost before = answers;
        proof {
            lemma_asked_one_more(prompter, pkg, name, changes@, answers, action);
            answers = answers.push(action);
            lemma_answers_extend(m, before, answers, i as nat);
        }
        let quit = session.answer(&changes[i].path, action);
        i = i + 1;
        if quit {
            return None;
        }
    }
    Some(session.decisions)
}

// ---------------------------------------------------------------------------
// Laws of the decisions
// ---------------------------------------------------------------------------

/// Once all remaining keys are said to be pushed, or pulled, every later key is
/// decided so, whatever is answered.
pub proof fn law_all_remaining(
    changes: Seq<semantic::ChangeModel>,
    answers: Seq<KeyAction>,
    n: nat,
    m: nat,
    push: bool,
)
    requires
        n <= m <= changes.len(),
        !keys_after(changes, answers, n).quit,
        keys_after(changes, answers, n).all_mode == Some(push),
    ensures
        !keys_after(changes, answers, m).quit,
        keys_after(changes, answers, m).all_mode == Some(push),
        forall|i: int|
            n <= i < m ==> pairs::lookup(
                keys_after(changes, answers, m).decisions,
                (#[trigger] changes[i]).path,
            ) == Some(push),
    decreases m,
{
    if n < m {
        law_all_remaining(changes, answers, n, (m - 1) as nat, push);
        let before = keys_after(changes, answers, (m - 1) as nat).decisions;
        assert forall|i: int| n <= i < m implies pairs::lookup(
            keys_after(changes, answers, m).decisions,
            (#[trigger] changes[i]).path,
        ) == Some(push) by {
            pairs::lemma_put_lookup(before, changes[m - 1].path, push, changes[i].path);
        }
    }
}

/// A user who skips every key decides nothing.
pub proof fn law_all_skipped(
    changes: Seq<semantic::ChangeModel>,
    answers: Seq<KeyAction>,
    n: nat,
)
    requires
        n <= changes.len(),
        forall|i: int| 0 <= i < n ==> #[trigger] answers[i] == KeyAction::Skip,
    ensures
        keys_after(changes, answers, n) == key_start(),
    decreases n,
{
    if n > 0 {
        law_all_skipped(changes, answers, (n - 1) as nat);
        assert(answers[n - 1] == KeyAction::Skip);
    }
}

/// None of the answers before one stops the asking.
pub open spec fn still_asked(answers: Seq<KeyAction>, i: int) -> bool {
    forall|j: int|
        0 <= j < i ==> match #[trigger] answers[j] {
            KeyAction::AllPush | KeyAction::AllPull | KeyAction::Quit => false,
            _ => true,
        }
}

/// An answer that is asked for settles all remaining keys.
pub open spec fn settles(answers: Seq<KeyAction>, i: int, push: bool) -> bool {
    still_asked(answers, i) && answers[i] == (if push {
        KeyAction::AllPush
    } else {
        KeyAction::AllPull
    })
}

/// An answer that is asked for is to quit.
pub open spec fn quits(answers: Seq<KeyAction>, i: int) -> bool {
    still_asked(answers, i) && answers[i] == KeyAction::Quit
}

/// The answers say of a key, for itself or with all remaining ones, that it is
/// pushed, or pulled.
pub open spec fn said(answers: Seq<KeyAction>, i: int, push: bool) -> bool {
    ||| exists|k: int| 0 <= k <= i && #[trigger] settles(answers, k, push)
    ||| still_asked(answers, i) && answers[i] == (if push {
        KeyAction::Push
    } else {
        KeyAction::Pull
    })
}

/// The key at a place is skipped when it is asked for.
pub open spec fn skipped(answers: Seq<KeyAction>, i: int) -> bool {
    still_asked(answers, i) && answers[i] == KeyAction::Skip
}

/// No two changes have the same path.
pub open spec fn paths_distinct(changes: Seq<semantic::ChangeModel>) -> bool {
    forall|i: int, j: int|
        0 <= i < j < changes.len() ==> (#[trigger] changes[i]).path != (
        #[trigger] changes[j]).path
}

/// Some change has a path.
pub open spec fn changed_path(changes: Seq<semantic::ChangeModel>, path: Seq<char>) -> bool {
    exists|i: int| 0 <= i < changes.len() && (#[trigger] changes[i]).path == path
}

proof fn lemma_answers_taken(
    changes: Seq<semantic::ChangeModel>,
    answers: Seq<KeyAction>,
    n: nat,
)
    requires
        n <= changes.len() <= answers.len(),
        paths_distinct(changes),
    ensures
        keys_after(changes, answers, n).quit <==> exists|k: int|
            0 <= k < n && #[trigger] quits(answers, k),
        !keys_after(changes, answers, n).quit && keys_after(changes, answers, n).all_mode is None
            ==> still_asked(answers, n as int),
        !keys_after(changes, answers, n).quit ==> (keys_after(
            changes,
            answers,
            n,
        ).all_mode matches Some(push) ==> exists|k: int|
            0 <= k < n && #[trigger] settles(answers, k, push)),
        !keys_after(changes, answers, n).quit ==> forall|i: int, push: bool|
            0 <= i < n && #[trigger] said(answers, i, push) ==> pairs::lookup(
                keys_after(changes, answers, n).decisions,
                changes[i].path,
            ) == Some(push),
        !keys_after(changes, answers, n).quit ==> forall|i: int|
            0 <= i < n && #[trigger] skipped(answers, i) ==> pairs::lookup(
                keys_after(changes, answers, n).decisions,
                changes[i].path,
            ) is None,
        forall|path: Seq<char>|
            (#[trigger] pairs::lookup(keys_after(changes, answers, n).decisions, path)) is Some
                ==> changed_path(changes.take(n as int), path),
    decreases n,
{
    if n == 0 {
        assert forall|path: Seq<char>|
            (#[trigger] pairs::lookup(key_start().decisions, path)) is Some implies false by {
            let at = pairs::lemma_lookup(key_start().decisions, path);
        }
    } else {
        let m = (n - 1) as nat;
        lemma_answers_taken(changes, answers, m);
        let before = keys_after(changes, answers, m);
        let s = keys_after(changes, answers, n);
        let path = changes[m as int].path;
        let answer = answers[m as int];
        assert(s == key_step(before, path, answer));
        if before.quit {
        } else {
            if let Some(push) = before.all_mode {
                let k = choose|k: int| 0 <= k < m && #[trigger] settles(answers, k, push);
                assert(settles(answers, k, push));
                assert(!still_asked(answers, m as int)) by {
                    assert(answers[k] == answers[k]);
                }
                assert(!quits(answers, m as int));
                assert(!skipped(answers, m as int));
                let other = !push;
                assert(!said(answers, m as int, other)) by {
                    if exists|j: int| 0 <= j <= m && #[trigger] settles(answers, j, other) {
                        let j = choose|j: int|
                            0 <= j <= m && #[trigger] settles(answers, j, other);
                        if j < k {
                            assert(answers[j] == answers[j]);
                        } else if k < j {
                            assert(answers[k] == answers[k]);
                        }
                    }
                }
            } else {
                assert(still_asked(answers, m as int));
                assert(forall|k: int, push: bool|
                    0 <= k < m ==> !(#[trigger] settles(answers, k, push)));
                if answer == KeyAction::Quit {
                    assert(quits(answers, m as int));
                }
                if answer == KeyAction::AllPush {
                    assert(settles(answers, m as int, true));
                }
                if answer == KeyAction::AllPull {
                    assert(settles(answers, m as int, false));
                }
                if !s.quit && s.all_mode is None {
                    assert(still_asked(answers, n as int));
                }
            }
            assert(!s.quit ==> !quits(answers, m as int));
            if let Some(push) = s.all_mode {
                let k = if before.all_mode is Some {
                    choose|k: int| 0 <= k < m && #[trigger] settles(answers, k, push)
                } else {
                    m as int
                };
                assert(settles(answers, k, push));
            }
            if !s.quit {
                assert forall|i: int, push: bool|
                    0 <= i < n && #[trigger] said(answers, i, push) implies pairs::lookup(
                    s.decisions,
                    changes[i].path,
                ) == Some(push) by {
                    lemma_step_lookup(before, path, answer, changes[i].path);
                }
                assert forall|i: int|
                    0 <= i < n && #[trigger] skipped(answers, i) implies pairs::lookup(
                    s.decisions,
                    changes[i].path,
                ) is None by {
                    lemma_step_lookup(before, path, answer, changes[i].path);
                    if i == m {
                        let known = pairs::lookup(before.decisions, path);
                        if known is Some {
                            let earlier = changes.take(m as int);
                            let j = choose|j: int|
                                0 <= j < earlier.len() && (#[trigger] earlier[j]).path == path;
                            assert(changes[j].path != changes[m as int].path);
                        }
                    }
                }
            }
        }
        assert forall|p: Seq<char>|
            (#[trigger] pairs::lookup(s.decisions, p)) is Some implies changed_path(
            changes.take(n as int),
            p,
        ) by {
            lemma_step_lookup(before, path, answer, p);
            let now = changes.take(n as int);
            let earlier = changes.take(m as int);
            if p == path {
                assert(now[m as int].path == p);
            } else {
                assert(pairs::lookup(before.decisions, p) is Some);
                let i = choose|i: int| 0 <= i < earlier.len() && (#[trigger] earlier[i]).path == p;
                assert(now[i].path == p);
            }
        }
    }
}

proof fn lemma_step_lookup(s: KeyState, path: Seq<char>, answer: KeyAction, p: Seq<char>)
    ensures
        p != path ==> pairs::lookup(key_step(s, path, answer).decisions, p) == pairs::lookup(
            s.decisions,
            p,
        ),
        p == path && key_step(s, path, answer).decisions != s.decisions ==> pairs::lookup(
            key_step(s, path, answer).decisions,
            p,
        ) is Some,
        forall|push: bool|
            pairs::lookup(#[trigger] pairs::put(s.decisions, path, push), path) == Some(push),
{
    pairs::lemma_put_lookup(s.decisions, path, true, p);
    pairs::lemma_put_lookup(s.decisions, path, false, p);
    pairs::lemma_put_lookup(s.decisions, path, true, path);
    pairs::lemma_put_lookup(s.decisions, path, false, path);
}

/// What the answers say is what is decided. The choice is given up exactly where
/// an answer that is asked for is to quit. Else a key is pushed, or pulled, where
/// its own answer says so or an earlier one said so of all remaining keys; a
/// skipped key is not decided on; and nothing but the changed keys is.
pub proof fn law_answers_decide(
    changes: Seq<semantic::ChangeModel>,
    answers: Seq<KeyAction>,
)
    requires
        changes.len() <= answers.len(),
        paths_distinct(changes),
    ensures
        keys_outcome(changes, answers) is None <==> exists|k: int|
            0 <= k < changes.len() && #[trigger] quits(answers, k),
        keys_outcome(changes, answers) matches Some(d) ==> {
            &&& forall|i: int, push: bool|
                0 <= i < changes.len() && #[trigger] said(answers, i, push) ==> pairs::lookup(
                    d,
                    changes[i].path,
                ) == Some(push)
            &&& forall|i: int|
                0 <= i < changes.len() && #[trigger] skipped(answers, i) ==> pairs::lookup(
                    d,
                    changes[i].path,
                ) is None
            &&& forall|path: Seq<char>|
                (#[trigger] pairs::lookup(d, path)) is Some ==> changed_path(changes, path)
        },
{
    lemma_answers_taken(changes, answers, changes.len());
    assert(changes.take(changes.len() as int) =~= changes);
}

} // verus!
