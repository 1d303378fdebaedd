use vstd::prelude::*;

use crate::action::Action;

verus! {

/// A unit of work tracked through its lifecycle: identity and metadata fixed
/// at creation, then timestamps, a captured result, a success flag and a
/// submission flag that are each written as the job advances.
///
/// The lifecycle states are derived from the fields, not stored:
/// pending (no `started_at`), running (`started_at` set, no `completed_at`),
/// completed (`completed_at` set), reported (`submitted` true).
///
/// Identifiers are carried as their canonical textual forms and timestamps as
/// ISO-8601 UTC strings, exactly as they are exchanged with the backend; the
/// lifecycle rules never look inside them.
#[derive(Debug)]
pub struct Job {
    pub id: String,
    pub name: String,
    pub description: Option<String>,
    pub created_at: String,
    pub started_at: Option<String>,
    pub completed_at: Option<String>,
    pub action: Action,
    pub agent_id: String,
    pub result: Option<String>,
    pub submitted: bool,
    pub success: Option<bool>,
}

/// Relies on uuid::Uuid::new_v4 (rendered in its canonical hyphenated form):
/// the value is random, so nothing is promised of it.
#[verifier::external_body]
fn fresh_uuid() -> String {
    uuid::Uuid::new_v4().to_string()
}

/// Relies on chrono::Utc::now and chrono::DateTime::to_rfc3339: the clock
/// decides the value, so nothing is promised of it.
#[verifier::external_body]
fn now_rfc3339() -> String {
    chrono::Utc::now().to_rfc3339()
}

/// Copies an optional string; spelled out because a derived `Clone` would
/// carry no specification for proofs.
pub fn clone_opt_string(o: &Option<String>) -> (r: Option<String>)
    ensures
        r == *o,
{
    match o {
        Some(s) => Some(s.clone()),
        None => None,
    }
}

impl Job {
    /// Pending: not yet started and not yet completed. Only pending jobs are
    /// eligible for selection by a run.
    pub open spec fn pending(self) -> bool {
        self.started_at is None && self.completed_at is None
    }

    /// Running: started but not yet completed.
    pub open spec fn running(self) -> bool {
        self.started_at is Some && self.completed_at is None
    }

    /// Completed: an outcome has been recorded. The completion fields are
    /// always written together.
    pub open spec fn completed(self) -> bool {
        self.completed_at is Some && self.result is Some && self.success is Some
    }

    pub fn new(name: String, cmd: String, args: Vec<String>) -> (j: Job)
        ensures
            j.name == name,
            j.action.cmd == cmd,
            j.action.args == args,
            j.description matches Some(d) && d@ == Seq::<char>::empty(),
            j.pending(),
            j.result is None,
            j.success is None,
            !j.submitted,
    {
        Job {
            id: fresh_uuid(),
            name,
            description: Some(String::new()),
            created_at: now_rfc3339(),
            started_at: None,
            completed_at: None,
            action: Action::new(cmd, args),
            agent_id: fresh_uuid(),
            result: None,
            submitted: false,
            success: None,
        }
    }

    pub fn was_submitted(&self) -> (r: bool)
        ensures
            r == self.submitted,
    {
        self.submitted
    }

    /// The submission flag is monotonic: it can be raised but never cleared,
    /// so a job, once handed to a report, is never handed out again.
    pub fn set_submitted(&mut self, val: bool)
        ensures
            *final(self) == (Job { submitted: old(self).submitted || val, ..*old(self) }),
    {
        if val {
            self.submitted = true;
        }
    }

    /// Stamps the start of execution. Write-once: selection guarantees the
    /// job is still pending, and this closes its eligibility window.
    pub fn mark_started(&mut self)
        requires
            old(self).started_at is None,
        ensures
            final(self).started_at is Some,
            *final(self) == (Job { started_at: final(self).started_at, ..*old(self) }),
    {
        self.started_at = Some(now_rfc3339());
    }

    pub fn set_result(&mut self, val: String)
        ensures
            *final(self) == (Job { result: Some(val), ..*old(self) }),
    {
        self.result = Some(val);
    }

    pub fn set_completed_at(&mut self)
        ensures
            final(self).completed_at is Some,
            *final(self) == (Job { completed_at: final(self).completed_at, ..*old(self) }),
    {
        self.completed_at = Some(now_rfc3339());
    }

    pub fn set_sucess(&mut self, is_success: bool)
        ensures
            *final(self) == (Job { success: Some(is_success), ..*old(self) }),
    {
        self.success = Some(is_success);
    }

    pub fn get_action(&self) -> (r: &Action)
        ensures
            *r == self.action,
    {
        &self.action
    }

    pub fn get_id(&self) -> (r: &String)
        ensures
            *r == self.id,
    {
        &self.id
    }

    pub fn get_completed_at(&self) -> (r: Option<String>)
        ensures
            r == self.completed_at,
    {
        clone_opt_string(&self.completed_at)
    }

    pub fn get_started_at(&self) -> (r: Option<String>)
        ensures
            r == self.started_at,
    {
        clone_opt_string(&self.started_at)
    }

    pub fn get_result_as_string(&self) -> (r: Option<String>)
        ensures
            r == self.result,
    {
        clone_opt_string(&self.result)
    }

    /// Reads the recorded success flag. Meaningful only once an outcome has
    /// been recorded, so callers must know the flag was written.
    pub fn is_success(&self) -> (r: bool)
        requires
            self.success is Some,
        ensures
            Some(r) == self.success,
    {
        match &self.success {
            Some(b) => *b,
            None => false,
        }
    }

    pub fn is_completed(&self) -> (r: bool)
        ensures
            r == (self.completed_at is Some && self.result is Some),
    {
        match (&self.completed_at, &self.result) {
            (Some(_), Some(_)) => true,
            _ => false,
        }
    }
}

} // verus!
