//! The foreground-application source's state: one piece of mutable memory,
//! the last reported process id, and the deduplication rule applied to each
//! poll of the foreground-query collaborator.

use vstd::prelude::*;

use crate::EventModel;
use crate::WorkEvent;

verus! {

/// What one poll of the foreground-query collaborator answered, at the level
/// of the model: `None` for "no answer", otherwise the reported application
/// name and process id.
pub type QueryModel = Option<(Seq<char>, u32)>;

/// A query counts as answered only when it carries a non-empty name; an empty
/// name is treated exactly like a failed query.
pub open spec fn query_good(q: QueryModel) -> bool {
    match q {
        Some(p) => p.0.len() > 0,
        None => false,
    }
}

/// The process id carried by a query (meaningful only when `query_good`).
pub open spec fn query_pid(q: QueryModel) -> u32 {
    match q {
        Some(p) => p.1,
        None => 0,
    }
}

/// The dedup state after one query: an answered query always becomes the new
/// last-reported process id; a failed query leaves the state untouched.
pub open spec fn step_last(last: Option<u32>, q: QueryModel) -> Option<u32> {
    if query_good(q) {
        Some(query_pid(q))
    } else {
        last
    }
}

/// Whether one query, against a given dedup state, produces an event.
pub open spec fn step_emits(last: Option<u32>, q: QueryModel) -> bool {
    query_good(q) && Some(query_pid(q)) != last
}

/// The dedup state after a whole sequence of queries.
pub open spec fn last_after(init: Option<u32>, qs: Seq<QueryModel>) -> Option<u32>
    decreases qs.len(),
{
    if qs.len() == 0 {
        init
    } else {
        step_last(last_after(init, qs.drop_last()), qs.last())
    }
}

/// The process id of the most recent answered query of a sequence, if any.
pub open spec fn last_good_pid(qs: Seq<QueryModel>) -> Option<u32>
    decreases qs.len(),
{
    if qs.len() == 0 {
        None
    } else if query_good(qs.last()) {
        Some(query_pid(qs.last()))
    } else {
        last_good_pid(qs.drop_last())
    }
}

/// The model of one exec query value.
pub open spec fn query_model(q: Option<(String, u32)>) -> QueryModel {
    match q {
        Some(p) => Some((p.0@, p.1)),
        None => None,
    }
}

/// The foreground-application tracker: owns the "last reported process id"
/// memory of the App Source. `None` is the sentinel for "no process seen yet";
/// it is out of band, so it cannot collide with a real process id (0 included).
pub struct FocusTracker {
    last_pid: Option<u32>,
}

impl FocusTracker {
    /// The abstract dedup state.
    pub closed spec fn last(self) -> Option<u32> {
        self.last_pid
    }

    /// A fresh tracker that has seen no process yet.
    pub fn new() -> (t: FocusTracker)
        ensures
            t.last() == None::<u32>,
    {
        FocusTracker { last_pid: None }
    }

    /// Feed one result of the foreground-query collaborator to the tracker.
    /// Emits an `AppFocused` event exactly when the query carries a non-empty
    /// name and a process id different from the last reported one; a failed or
    /// empty query never changes the state.
    pub fn observe(&mut self, query: Option<(String, u32)>) -> (ev: Option<WorkEvent>)
        ensures
            final(self).last() == step_last(old(self).last(), query_model(query)),
            ev is Some <==> step_emits(old(self).last(), query_model(query)),
            match ev {
                Some(e) => query_model(query) matches Some(p) && e@ == (EventModel::AppFocused {
                    name: p.0,
                    pid: p.1,
                }),
                None => true,
            },
    {
        match query {
            Some((name, pid)) => {
                if name.as_str().is_empty() {
                    None
                } else {
                    let same = match self.last_pid {
                        Some(last) => last == pid,
                        None => false,
                    };
                    self.last_pid = Some(pid);
                    if same {
                        None
                    } else {
                        Some(WorkEvent::AppFocused { name, pid })
                    }
                }
            }
            None => None,
        }
    }
}

/// After any run of queries, the dedup state is exactly the process id of the
/// most recent answered query, or the sentinel when none was answered yet.
pub proof fn lemma_last_after_is_last_good(qs: Seq<QueryModel>)
    ensures
        last_after(None::<u32>, qs) == last_good_pid(qs),
    decreases qs.len(),
{
    if qs.len() > 0 {
        lemma_last_after_is_last_good(qs.drop_last());
    }
}

/// Dedup law: over any sequence of query results fed to a fresh tracker, the
/// query at position `i` produces an event if and only if it is answered with
/// a non-empty name and its process id differs from the most recent previously
/// answered query's id. Failed or empty queries are skipped, never compared.
pub proof fn lemma_dedup(qs: Seq<QueryModel>, i: int)
    requires
        0 <= i < qs.len(),
    ensures
        step_emits(last_after(None::<u32>, qs.take(i)), qs[i]) <==> (query_good(qs[i])
            && Some(query_pid(qs[i])) != last_good_pid(qs.take(i))),
{
    lemma_last_after_is_last_good(qs.take(i));
}

} // verus!
