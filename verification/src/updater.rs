//! The decisions of the update check: whether a check runs, what the user is
//! told at each outcome, the install prompt, the download progress, and the
//! session's "Later" that quiets later automatic checks.
//!
//! The app performs each action (asking the update endpoint, showing the
//! prompt, downloading, emitting events, restarting) and hands the outcome
//! back as the next event.

use vstd::prelude::*;
use crate::text::{chars_of, trim, trim_chars};

verus! {

/// What happened, as the app reports it to the flow.
#[derive(Debug)]
pub enum UpdateEvent {
    /// A check begins: at launch (`manual == false`) or from the "Check for
    /// updates" button (`manual == true`).
    Begin { manual: bool },
    /// The updater could not be set up, or the check itself failed; the error
    /// text.
    Failed(String),
    /// No newer signed build exists.
    UpToDate,
    /// A newer build exists: its version, the running version and its release
    /// notes.
    Available { version: String, current: String, notes: Option<String> },
    /// The user's answer to the prompt: "Install" or "Later".
    Answered { install: bool },
    /// A chunk of the download arrived: its length, and the total when known.
    Chunk { len: u64, total: Option<u64> },
    /// Downloading or installing failed; the error text.
    InstallFailed(String),
    /// The update is installed.
    Installed,
}

/// What the app does next.
#[derive(Debug)]
pub enum UpdateAction {
    /// Nothing more: the flow ends quietly.
    Done,
    /// Ask the update endpoint whether a newer signed build exists.
    Check,
    /// Tell the UI the update failed (`update-error`) with this text; the flow
    /// ends.
    ReportError(String),
    /// Tell the UI Drift is up to date (`update-none`); the flow ends.
    ReportUpToDate,
    /// Show the install prompt with this text, with "Install" and "Later".
    Ask(String),
    /// Tell the UI the download of this version started
    /// (`update-download-started`), then download and install it.
    Download(String),
    /// Report the bytes downloaded so far and the total when known
    /// (`update-download-progress`).
    Progress { downloaded: u64, total: Option<u64> },
    /// Tell the UI the update is ready (`update-ready`) and restart.
    Restart,
}

/// The state of the update flow over a session.
#[derive(Debug)]
pub struct UpdateFlow {
    /// The user chose "Later" this session: automatic checks stay quiet.
    pub deferred: bool,
    /// The current check came from the button.
    pub manual: bool,
    /// The version on offer.
    pub version: String,
    /// Bytes downloaded so far.
    pub downloaded: u64,
}

/// The release notes as the prompt shows them: after a blank line, unless
/// they are missing or only white space.
pub open spec fn notes_part(notes: Option<Seq<char>>) -> Seq<char> {
    match notes {
        Some(b) => if trim(b).len() > 0 {
            "\n\n"@ + b
        } else {
            Seq::empty()
        },
        None => Seq::empty(),
    }
}

/// The install prompt.
pub open spec fn prompt_spec(version: Seq<char>, current: Seq<char>, notes: Option<Seq<char>>) -> Seq<char> {
    "Drift "@ + version + " is available (you have "@ + current + ")."@ + notes_part(notes)
        + "\n\nDownload and install it now?"@
}

/// Whether the session is deferred after one more event: only "Later"
/// defers it, and nothing lifts a deferral.
pub open spec fn deferred_after(deferred: bool, ev: UpdateEvent) -> bool {
    match ev {
        UpdateEvent::Answered { install } => deferred || !install,
        _ => deferred,
    }
}

/// Whether the session is deferred after a run of events.
pub open spec fn deferred_after_all(deferred: bool, evs: Seq<UpdateEvent>) -> bool
    decreases evs.len(),
{
    if evs.len() == 0 {
        deferred
    } else {
        deferred_after_all(deferred_after(deferred, evs[0]), evs.drop_first())
    }
}

/// Once the user has chosen "Later", the session stays deferred whatever
/// events follow, so every later automatic check ends at once (a manual
/// check still runs: see `UpdateFlow::step`).
pub proof fn lemma_later_lasts_the_session(evs: Seq<UpdateEvent>)
    ensures
        deferred_after_all(true, evs),
    decreases evs.len(),
{
    if evs.len() > 0 {
        lemma_later_lasts_the_session(evs.drop_first());
    }
}

/// The text of an optional string.
pub open spec fn opt_text(s: Option<String>) -> Option<Seq<char>> {
    match s {
        Some(t) => Some(t@),
        None => None,
    }
}

/// The text of the install prompt for `version`, offered while `current`
/// runs, with its release notes.
pub fn update_prompt(version: &str, current: &str, notes: Option<&str>) -> (p: String)
    ensures
        p@ == prompt_spec(
            version@,
            current@,
            match notes {
                Some(b) => Some(b@),
                None => None,
            },
        ),
{
    let mut p = String::new();
    p.append("Drift ");
    p.append(version);
    p.append(" is available (you have ");
    p.append(current);
    p.append(").");
    let ghost before_notes = p@;
    match notes {
        Some(b) => {
            let cs = chars_of(b);
            let t = trim_chars(cs.as_slice());
            if t.len() > 0 {
                p.append("\n\n");
                p.append(b);
            }
        },
        None => {},
    }
    assert(p@ =~= before_notes + notes_part(
        match notes {
            Some(b) => Some(b@),
            None => None,
        },
    ));
    p.append("\n\nDownload and install it now?");
    p
}

impl UpdateFlow {
    /// The flow at the start of a session: not deferred.
    pub fn new() -> (f: Self)
        ensures
            !f.deferred,
            !f.manual,
            f.version@ == Seq::<char>::empty(),
            f.downloaded == 0,
    {
        UpdateFlow { deferred: false, manual: false, version: String::new(), downloaded: 0 }
    }

    /// Take one event and say what to do next.
    ///
    /// An automatic check is skipped after "Later" this session, a manual one
    /// never is. A failed or empty check is reported only to a manual check;
    /// a failed download or install is always reported. "Later" defers
    /// automatic checks for the rest of the session.
    pub fn step(&mut self, ev: UpdateEvent) -> (a: UpdateAction)
        requires
            ev matches UpdateEvent::Chunk { len, .. } ==> old(self).downloaded + len <= u64::MAX,
        ensures
            final(self).deferred == deferred_after(old(self).deferred, ev),
            match ev {
                UpdateEvent::Begin { manual } => {
                    &&& final(self).manual == manual
                    &&& final(self).deferred == old(self).deferred
                    &&& final(self).downloaded == 0
                    &&& final(self).version@ == old(self).version@
                    &&& if !manual && old(self).deferred { a is Done } else { a is Check }
                },
                UpdateEvent::Failed(e) => {
                    &&& *final(self) == *old(self)
                    &&& if old(self).manual { a matches UpdateAction::ReportError(m) && m@ == e@ } else { a is Done }
                },
                UpdateEvent::UpToDate => {
                    &&& *final(self) == *old(self)
                    &&& if old(self).manual { a is ReportUpToDate } else { a is Done }
                },
                UpdateEvent::Available { version, current, notes } => {
                    &&& final(self).version@ == version@
                    &&& final(self).deferred == old(self).deferred
                    &&& final(self).manual == old(self).manual
                    &&& final(self).downloaded == old(self).downloaded
                    &&& a matches UpdateAction::Ask(m) && m@ == prompt_spec(version@, current@, opt_text(notes))
                },
                UpdateEvent::Answered { install } => {
                    &&& final(self).deferred == (old(self).deferred || !install)
                    &&& final(self).manual == old(self).manual
                    &&& final(self).version@ == old(self).version@
                    &&& final(self).downloaded == old(self).downloaded
                    &&& if install {
                        a matches UpdateAction::Download(v) && v@ == old(self).version@
                    } else {
                        a is Done
                    }
                },
                UpdateEvent::Chunk { len, total } => {
                    &&& final(self).downloaded == old(self).downloaded + len
                    &&& final(self).deferred == old(self).deferred
                    &&& final(self).manual == old(self).manual
                    &&& final(self).version@ == old(self).version@
                    &&& a == (UpdateAction::Progress { downloaded: final(self).downloaded, total })
                },
                UpdateEvent::InstallFailed(e) => {
                    &&& *final(self) == *old(self)
                    &&& a matches UpdateAction::ReportError(m) && m@ == e@
                },
                UpdateEvent::Installed => {
                    &&& *final(self) == *old(self)
                    &&& a is Restart
                },
            },
    {
        match ev {
            UpdateEvent::Begin { manual } => {
                self.manual = manual;
                self.downloaded = 0;
                if !manual && self.deferred {
                    UpdateAction::Done
                } else {
                    UpdateAction::Check
                }
            },
            UpdateEvent::Failed(e) => {
                if self.manual {
                    UpdateAction::ReportError(e)
                } else {
                    UpdateAction::Done
                }
            },
            UpdateEvent::UpToDate => {
                if self.manual {
                    UpdateAction::ReportUpToDate
                } else {
                    UpdateAction::Done
                }
            },
            UpdateEvent::Available { version, current, notes } => {
                let text = match &notes {
                    Some(b) => update_prompt(version.as_str(), current.as_str(), Some(b.as_str())),
                    None => update_prompt(version.as_str(), current.as_str(), None),
                };
                self.version = version;
                UpdateAction::Ask(text)
            },
            UpdateEvent::Answered { install } => {
                if install {
                    UpdateAction::Download(self.version.clone())
                } else {
                    self.deferred = true;
                    UpdateAction::Done
                }
            },
            UpdateEvent::Chunk { len, total } => {
                self.downloaded = self.downloaded + len;
                UpdateAction::Progress { downloaded: self.downloaded, total }
            },
            UpdateEvent::InstallFailed(e) => UpdateAction::ReportError(e),
            UpdateEvent::Installed => UpdateAction::Restart,
        }
    }
}

} // verus!
