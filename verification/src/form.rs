//! The install form's decisions. Drawing the form, asking the confirmation and
//! the leave question, reading a disk's partitions and editing a layout are
//! the program's work; after each, `form_step` says what comes next from
//! where the form stood and what came back.

use crate::install::ROW_LAYOUT;
use crate::text::{cat, owned};
use vstd::prelude::*;

verus! {

/// What the last piece of outside work was.
#[derive(Clone, Copy, PartialEq, Eq, Structural, Debug)]
pub enum Phase {
    /// The form was on screen.
    Filling,
    /// The complete answers were put up for confirmation.
    Confirming,
    /// The machine was being shut down.
    PoweringOff,
    /// The partitions of `disk` were being read.
    Reading,
    /// The layout editor was open over `disk`.
    Editing,
    /// The question every leave key asks was up.
    Leaving,
}

/// Where the form stands: what was last asked of the program, the disk a
/// custom layout is held for, if any, and the disk the layout row was last
/// opened on.
pub struct FormState {
    pub phase: Phase,
    pub held: Option<String>,
    pub disk: String,
}

/// What came back from the work the last action asked for.
pub enum FormEvent {
    /// The form closed on an action: `0` installs, any other shuts down.
    Took(usize),
    /// A row was opened; `disk` is what the disk row holds.
    Opened { row: usize, disk: String },
    /// A leave key was pressed on the form.
    Left,
    /// The work failed with `message`; `interrupted` where the failure is a
    /// person wanting out.
    Failed { message: String, interrupted: bool },
    /// The confirmation was answered: go on, or go back.
    Confirmed(bool),
    /// The machine is shutting down.
    PoweredOff,
    /// The disk holds this many partitions.
    Partitions(usize),
    /// The disk's partitions could not be read.
    Unreadable(String),
    /// The editor closed; `held` is the disk of the layout it left, if any.
    Edited { held: Option<String> },
    /// The leave question was answered with this option, or with none.
    Chose(Option<usize>),
}

/// What the layout row says once the layout was looked at.
pub enum Note {
    /// No disk is chosen yet, so no layout can be made.
    NeedsDisk,
    /// What the held layout does, or the automatic one where none is held.
    Current,
    /// That, and why the disk's partitions cannot be used.
    Failed(String),
}

/// What the program does next.
pub enum FormAction {
    /// Draw the form as its fields stand.
    Draw,
    /// Put the answers up for confirmation, over what they would do.
    Confirm,
    /// Shut the machine down.
    PowerOff,
    /// Read `disk`'s partitions, dropping the held layout first where `drop`.
    Read { disk: String, drop: bool },
    /// Open the layout editor over `disk`'s partitions.
    Edit(String),
    /// Write the layout row as the note says, rebuild the encryption row from
    /// the layout, and draw the form.
    Show(Note),
    /// Ask the question every leave key asks.
    Ask,
    /// Drop the layout, fill the fields afresh from the flags, and draw.
    Restart,
    /// Stop: with the answers where `true`, having written nothing where not.
    Finish(bool),
    /// Stop with this error.
    Fail(String),
}

/// The leave question's options, in order.
pub const LEAVE_OVER: usize = 1;

pub const LEAVE_SHELL: usize = 2;

/// The error of a layout row opened on a disk without partitions.
pub const NO_PARTITIONS: &'static str = " has no partitions to use in a custom layout";

/// Whether `event` is what the work `phase` names can hand back.
pub open spec fn answers(phase: Phase, event: FormEvent) -> bool {
    match event {
        FormEvent::Took(_) | FormEvent::Opened { .. } | FormEvent::Left => phase == Phase::Filling,
        FormEvent::Failed { .. } => phase != Phase::Reading,
        FormEvent::Confirmed(_) => phase == Phase::Confirming,
        FormEvent::PoweredOff => phase == Phase::PoweringOff,
        FormEvent::Partitions(_) | FormEvent::Unreadable(_) => phase == Phase::Reading,
        FormEvent::Edited { .. } => phase == Phase::Editing,
        FormEvent::Chose(_) => phase == Phase::Leaving,
    }
}

pub open spec fn opt_view(o: Option<String>) -> Option<Seq<char>> {
    match o {
        Some(s) => Some(s@),
        None => None,
    }
}

/// The state after the form was drawn again, the held layout kept.
pub open spec fn filling(s: FormState, r: FormState) -> bool {
    r.phase == Phase::Filling && opt_view(r.held) == opt_view(s.held) && r.disk@ == s.disk@
}

/// What one step decides: the next state and action from where the form
/// stood and what came back.
pub open spec fn step_spec(s: FormState, e: FormEvent, r: FormState, a: FormAction) -> bool {
    match e {
        FormEvent::Took(k) => if k == 0 {
            &&& r.phase == Phase::Confirming && opt_view(r.held) == opt_view(s.held) && r.disk@ == s.disk@
            &&& a is Confirm
        } else {
            &&& r.phase == Phase::PoweringOff && opt_view(r.held) == opt_view(s.held) && r.disk@ == s.disk@
            &&& a is PowerOff
        },
        FormEvent::Opened { row, disk } => if row != ROW_LAYOUT {
            filling(s, r) && a is Draw
        } else if disk@.len() == 0 {
            filling(s, r) && a matches FormAction::Show(Note::NeedsDisk)
        } else {
            let drop = match s.held {
                Some(h) => h@ != disk@,
                None => false,
            };
            &&& r.phase == Phase::Reading
            &&& r.disk@ == disk@
            &&& opt_view(r.held) == (if drop { None } else { opt_view(s.held) })
            &&& a matches FormAction::Read { disk: d, drop: dr } && d@ == disk@ && dr == drop
        },
        FormEvent::Left => {
            &&& r.phase == Phase::Leaving && opt_view(r.held) == opt_view(s.held) && r.disk@ == s.disk@
            &&& a is Ask
        },
        FormEvent::Failed { message, interrupted } => if interrupted && (s.phase == Phase::Filling
            || s.phase == Phase::Editing) {
            &&& r.phase == Phase::Leaving && opt_view(r.held) == opt_view(s.held) && r.disk@ == s.disk@
            &&& a is Ask
        } else if interrupted && s.phase == Phase::Leaving {
            filling(s, r) && a is Draw
        } else {
            &&& opt_view(r.held) == opt_view(s.held) && r.disk@ == s.disk@ && r.phase == s.phase
            &&& a matches FormAction::Fail(m) && m@ == message@
        },
        FormEvent::Confirmed(go) => if go {
            &&& opt_view(r.held) == opt_view(s.held) && r.disk@ == s.disk@ && r.phase == s.phase
            &&& a matches FormAction::Finish(done) && done
        } else {
            filling(s, r) && a is Draw
        },
        FormEvent::PoweredOff => {
            &&& opt_view(r.held) == opt_view(s.held) && r.disk@ == s.disk@ && r.phase == s.phase
            &&& a matches FormAction::Finish(done) && !done
        },
        FormEvent::Partitions(n) => if n == 0 {
            &&& filling(s, r)
            &&& a matches FormAction::Show(Note::Failed(m)) && m@ == s.disk@ + NO_PARTITIONS@
        } else {
            &&& r.phase == Phase::Editing && opt_view(r.held) == opt_view(s.held) && r.disk@ == s.disk@
            &&& a matches FormAction::Edit(d) && d@ == s.disk@
        },
        FormEvent::Unreadable(m) => {
            &&& filling(s, r)
            &&& a matches FormAction::Show(Note::Failed(t)) && t@ == m@
        },
        FormEvent::Edited { held } => {
            &&& r.phase == Phase::Filling && opt_view(r.held) == opt_view(held) && r.disk@ == s.disk@
            &&& a matches FormAction::Show(Note::Current)
        },
        FormEvent::Chose(pick) => if pick == Some(LEAVE_OVER) {
            &&& r.phase == Phase::Filling && r.held is None && r.disk@ == s.disk@
            &&& a is Restart
        } else if pick == Some(LEAVE_SHELL) {
            &&& opt_view(r.held) == opt_view(s.held) && r.disk@ == s.disk@ && r.phase == s.phase
            &&& a matches FormAction::Finish(done) && !done
        } else {
            filling(s, r) && a is Draw
        },
    }
}

fn copy_held(h: &Option<String>) -> (r: Option<String>)
    ensures
        opt_view(r) == opt_view(*h),
{
    match h {
        Some(s) => Some(owned(s.as_str())),
        None => None,
    }
}

fn at(phase: Phase, held: Option<String>, disk: String) -> (r: FormState)
    ensures
        r.phase == phase,
        opt_view(r.held) == opt_view(held),
        r.disk@ == disk@,
{
    FormState { phase, held, disk }
}

/// Where the form starts: with nothing to draw on, the flags are the whole
/// answer and it finishes at once.
pub fn form_start(draws: bool) -> (r: (FormState, FormAction))
    ensures
        r.0.phase == Phase::Filling,
        r.0.held is None,
        r.0.disk@.len() == 0,
        if draws { r.1 is Draw } else { r.1 matches FormAction::Finish(done) && done },
{
    let s = FormState { phase: Phase::Filling, held: None, disk: String::new() };
    if draws {
        (s, FormAction::Draw)
    } else {
        (s, FormAction::Finish(true))
    }
}

/// One step of the form: what comes next, from where it stood and what the
/// work it asked for handed back.
pub fn form_step(s: &FormState, e: FormEvent) -> (r: (FormState, FormAction))
    requires
        answers(s.phase, e),
    ensures
        step_spec(*s, e, r.0, r.1),
{
    let held = copy_held(&s.held);
    let disk = owned(s.disk.as_str());
    match e {
        FormEvent::Took(k) => {
            if k == 0 {
                (at(Phase::Confirming, held, disk), FormAction::Confirm)
            } else {
                (at(Phase::PoweringOff, held, disk), FormAction::PowerOff)
            }
        },
        FormEvent::Opened { row, disk: chosen } => {
            if row != ROW_LAYOUT {
                (at(Phase::Filling, held, disk), FormAction::Draw)
            } else if chosen.as_str().unicode_len() == 0 {
                (at(Phase::Filling, held, disk), FormAction::Show(Note::NeedsDisk))
            } else {
                let drop = match &s.held {
                    Some(h) => !crate::text::same(h.as_str(), chosen.as_str()),
                    None => false,
                };
                let kept = if drop { None } else { held };
                let read = owned(chosen.as_str());
                (at(Phase::Reading, kept, chosen), FormAction::Read { disk: read, drop })
            }
        },
        FormEvent::Left => (at(Phase::Leaving, held, disk), FormAction::Ask),
        FormEvent::Failed { message, interrupted } => {
            if interrupted && (s.phase == Phase::Filling || s.phase == Phase::Editing) {
                (at(Phase::Leaving, held, disk), FormAction::Ask)
            } else if interrupted && s.phase == Phase::Leaving {
                (at(Phase::Filling, held, disk), FormAction::Draw)
            } else {
                (at(s.phase, held, disk), FormAction::Fail(message))
            }
        },
        FormEvent::Confirmed(go) => {
            if go {
                (at(s.phase, held, disk), FormAction::Finish(true))
            } else {
                (at(Phase::Filling, held, disk), FormAction::Draw)
            }
        },
        FormEvent::PoweredOff => (at(s.phase, held, disk), FormAction::Finish(false)),
        FormEvent::Partitions(n) => {
            if n == 0 {
                let m = cat(s.disk.as_str(), NO_PARTITIONS);
                (at(Phase::Filling, held, disk), FormAction::Show(Note::Failed(m)))
            } else {
                let d = owned(s.disk.as_str());
                (at(Phase::Editing, held, disk), FormAction::Edit(d))
            }
        },
        FormEvent::Unreadable(m) => (at(Phase::Filling, held, disk), FormAction::Show(Note::Failed(m))),
        FormEvent::Edited { held: now } => (at(Phase::Filling, now, disk), FormAction::Show(Note::Current)),
        FormEvent::Chose(pick) => {
            if pick == Some(LEAVE_OVER) {
                (at(Phase::Filling, None, disk), FormAction::Restart)
            } else if pick == Some(LEAVE_SHELL) {
                (at(s.phase, held, disk), FormAction::Finish(false))
            } else {
                (at(Phase::Filling, held, disk), FormAction::Draw)
            }
        },
    }
}

/// Leaving the form without the answers is always a leaving that was
/// confirmed: the leave question answered with its way out, or the machine
/// shut down from the form's other action. No other step stops empty-handed.
pub proof fn lemma_leaving_is_confirmed(s: FormState, e: FormEvent, r: FormState, a: FormAction)
    requires
        answers(s.phase, e),
        step_spec(s, e, r, a),
        a matches FormAction::Finish(done) && !done,
    ensures
        e == FormEvent::Chose(Some(LEAVE_SHELL)) || (e is PoweredOff && s.phase == Phase::PoweringOff),
{
}

/// The answers are only ever handed over once the person confirmed them.
pub proof fn lemma_answers_follow_confirmation(s: FormState, e: FormEvent, r: FormState, a: FormAction)
    requires
        answers(s.phase, e),
        step_spec(s, e, r, a),
        a matches FormAction::Finish(done) && done,
    ensures
        e == FormEvent::Confirmed(true) && s.phase == Phase::Confirming,
{
}

} // verus!
