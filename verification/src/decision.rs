//! Decisions, decision sessions and their triggers: what is recorded when a
//! hypothesis is examined and a conclusion is reached.

use crate::text::copy_str;
use vstd::prelude::*;

verus! {

/// A set of options and the conclusion drawn from them.
/// `selection_mode`: "exclusive" (one option adopted) or "composite"
/// (several factors combined); `action_taken`: "bought", "sold", "watched" or
/// "none" — a record of what was done, kept for looking back.
pub struct DecisionSession {
    pub question: String,
    /// A reference to a company record, e.g. "company:1605".
    pub company: Option<String>,
    pub status: String,
    pub selection_mode: String,
    pub conclusion: Option<String>,
    pub action_taken: String,
}

/// One row of the session list: a session with its record id.
pub struct DecisionSessionSummary {
    pub id: String,
    pub question: String,
    pub company: Option<String>,
    pub status: String,
    pub selection_mode: String,
    pub conclusion: Option<String>,
    pub action_taken: String,
}

/// One option a session considered: the target is a record reference such as
/// "decision:…" or "decision_session:…".
pub struct ConsideredEdge {
    pub target: String,
    pub selected: bool,
    pub rejection_reason: Option<String>,
}

/// What prompted a hypothesis: `kind` is "human_note", "news",
/// "disclosure_text_match" or "precedent_recall".
pub struct Trigger {
    pub kind: String,
    pub description: String,
    pub source_ref: Option<String>,
}

/// The status of a session that does not give one.
pub fn default_status() -> (res: String)
    ensures
        res@ == "exploring"@,
{
    copy_str("exploring")
}

/// The selection mode of a session that does not give one.
pub fn default_selection_mode() -> (res: String)
    ensures
        res@ == "exclusive"@,
{
    copy_str("exclusive")
}

/// The action of a session that does not give one.
pub fn default_action_taken() -> (res: String)
    ensures
        res@ == "none"@,
{
    copy_str("none")
}

} // verus!
