use vstd::prelude::*;

use crate::error::StoreError;
use crate::scope::{
    copy_scope, data_of, find_scope, lemma_data_of_push, lemma_data_of_update, scope_view,
    scopes_unique, swap_data, Scoped,
};

verus! {

/// One applied commit of a service: its number and the ledger's id for it.
pub struct CommitPosition {
    pub commit_num: u64,
    pub commit_id: String,
}

/// A commit that the ledger delivered for one service (`None`: Global scope).
pub struct Commit {
    pub service_id: Option<String>,
    pub commit_num: u64,
    pub commit_id: String,
    pub previous_commit_id: String,
}

/// The abstract value of a commit position: its number and its id.
pub type PositionView = (nat, Seq<char>);

/// The abstract history of one service: the applied commits, oldest first.
pub type HistoryView = Seq<PositionView>;

pub open spec fn position_view(p: CommitPosition) -> PositionView {
    (p.commit_num as nat, p.commit_id@)
}

pub open spec fn history_view(v: Vec<CommitPosition>) -> HistoryView {
    v@.map_values(|p: CommitPosition| position_view(p))
}

/// Commits are numbered 1, 2, 3, ... in the order they were applied, without gaps.
pub open spec fn numbered(h: HistoryView) -> bool {
    forall|i: int| 0 <= i < h.len() ==> #[trigger] h[i].0 == i + 1
}

/// Whether `c` continues history `h`: it carries the next number, and it names the current
/// head as its predecessor unless it is the first commit of the service.
pub open spec fn continues(h: HistoryView, c: &Commit) -> bool {
    &&& c.commit_num == h.len() + 1
    &&& (h.len() == 0 || c.previous_commit_id@ == h.last().1)
}

/// What applying `c` does to the history of its service.
pub open spec fn spec_apply(h: HistoryView, c: &Commit) -> Result<HistoryView, StoreError> {
    if continues(h, c) {
        Ok(h.push((c.commit_num as nat, c.commit_id@)))
    } else {
        Err(StoreError::Conflict)
    }
}

/// What rolling back to `commit_num` does to a history: the commits after it are removed.
pub open spec fn spec_rollback(h: HistoryView, commit_num: u64) -> Result<HistoryView, StoreError> {
    if 1 <= commit_num <= h.len() {
        Ok(h.take(commit_num as int))
    } else {
        Err(StoreError::NotFound)
    }
}

/// The latest applied commit of a history.
pub open spec fn spec_current(h: HistoryView) -> Option<PositionView> {
    if h.len() == 0 {
        None
    } else {
        Some(h.last())
    }
}

/// Tracks, for each service, the commits applied so far.
pub struct CommitStore {
    histories: Vec<Scoped<Vec<CommitPosition>>>,
}

impl CommitStore {
    /// The history of `sid`; empty for a service with none.
    pub closed spec fn history(&self, sid: Option<Seq<char>>) -> HistoryView {
        match data_of(self.histories@, sid) {
            Some(v) => history_view(v),
            None => Seq::empty(),
        }
    }

    pub closed spec fn wf(&self) -> bool {
        &&& scopes_unique(self.histories@)
        &&& forall|sid: Option<Seq<char>>| #[trigger] numbered(self.history(sid))
    }

    /// A store without history.
    pub fn new() -> (r: Self)
        ensures
            r.wf(),
            forall|sid: Option<Seq<char>>| #[trigger] r.history(sid) == Seq::<PositionView>::empty(),
    {
        CommitStore { histories: Vec::new() }
    }

    /// The latest applied commit of `service_id`, or `None` where it has no history.
    pub fn current(&self, service_id: &Option<String>) -> (r: Option<CommitPosition>)
        requires
            self.wf(),
        ensures
            match r {
                Some(p) => spec_current(self.history(scope_view(service_id))) == Some(
                    position_view(p),
                ),
                None => spec_current(self.history(scope_view(service_id))) is None,
            },
            r matches Some(p) ==> p.commit_num == self.history(scope_view(service_id)).len(),
    {
        proof {
            let h = self.history(scope_view(service_id));
            assert(numbered(h));
            if h.len() > 0 {
                assert(h[h.len() - 1].0 == h.len());
            }
        }
        match find_scope(&self.histories, service_id) {
            None => None,
            Some(i) => {
                let h = &self.histories[i].data;
                if h.len() == 0 {
                    None
                } else {
                    let p = &h[h.len() - 1];
                    Some(CommitPosition { commit_num: p.commit_num, commit_id: p.commit_id.clone() })
                }
            },
        }
    }

    /// Whether `c` may be applied next to its service.
    pub fn accepts(&self, c: &Commit) -> (r: bool)
        requires
            self.wf(),
        ensures
            r == continues(self.history(scope_view(&c.service_id)), c),
    {
        let ghost h = self.history(scope_view(&c.service_id));
        match find_scope(&self.histories, &c.service_id) {
            None => c.commit_num == 1,
            Some(i) => {
                let v = &self.histories[i].data;
                let n = v.len();
                if c.commit_num < 1 || c.commit_num - 1 != n as u64 {
                    false
                } else if n == 0 {
                    true
                } else {
                    assert(h.last() == position_view(v@[n - 1]));
                    c.previous_commit_id == v[n - 1].commit_id
                }
            },
        }
    }

    /// Applies `c` to its service. A commit that does not continue the current head (another
    /// predecessor, or another number than the next) fails with `Conflict` and changes nothing.
    pub fn apply(&mut self, c: &Commit) -> (r: Result<(), StoreError>)
        requires
            old(self).wf(),
        ensures
            final(self).wf(),
            match spec_apply(old(self).history(scope_view(&c.service_id)), c) {
                Ok(h) => r is Ok && final(self).history(scope_view(&c.service_id)) == h,
                Err(e) => r == Err::<(), StoreError>(e) && final(self).history(
                    scope_view(&c.service_id),
                ) == old(self).history(scope_view(&c.service_id)),
            },
            forall|sid: Option<Seq<char>>|
                sid != scope_view(&c.service_id) ==> #[trigger] final(self).history(sid)
                    == old(self).history(sid),
    {
        if !self.accepts(c) {
            return Err(StoreError::Conflict);
        }
        let pos = CommitPosition { commit_num: c.commit_num, commit_id: c.commit_id.clone() };
        let ghost sid = scope_view(&c.service_id);
        let ghost h = self.history(sid);
        match find_scope(&self.histories, &c.service_id) {
            None => {
                let mut v: Vec<CommitPosition> = Vec::new();
                v.push(pos);
                let entry = Scoped { service_id: copy_scope(&c.service_id), data: v };
                proof {
                    lemma_data_of_push(self.histories@, entry);
                    assert(history_view(v) =~= h.push(position_view(pos)));
                }
                self.histories.push(entry);
                assert(data_of(self.histories@, sid) == Some(v));
                assert(self.history(sid) =~= h.push(position_view(pos)));
            },
            Some(i) => {
                let mut v = swap_data(&mut self.histories, i, Vec::new());
                let ghost mid = self.histories@;
                proof {
                    crate::scope::lemma_scope_index(old(self).histories@, sid);
                    lemma_data_of_update(old(self).histories@, i as int, mid[i as int]);
                }
                v.push(pos);
                swap_data(&mut self.histories, i, v);
                proof {
                    lemma_data_of_update(mid, i as int, self.histories@[i as int]);
                    assert(history_view(v) =~= h.push(position_view(pos)));
                    assert(data_of(self.histories@, sid) == Some(v));
                    assert(self.history(sid) =~= h.push(position_view(pos)));
                }
            },
        }
        proof {
            assert forall|s: Option<Seq<char>>| #[trigger] numbered(self.history(s)) by {
                if s != sid {
                    assert(numbered(old(self).history(s)));
                } else {
                    assert(numbered(h));
                    assert forall|k: int| 0 <= k < self.history(s).len() implies #[trigger] self.history(
                        s,
                    )[k].0 == k + 1 by {
                        if k < h.len() {
                            assert(h[k].0 == k + 1);
                        }
                    }
                }
            }
        }
        Ok(())
    }

    /// Removes the history of `service_id` after `commit_num`; fails with `NotFound`, changing
    /// nothing, where no commit of that number was applied.
    pub fn rollback_to(&mut self, service_id: &Option<String>, commit_num: u64) -> (r: Result<
        (),
        StoreError,
    >)
        requires
            old(self).wf(),
        ensures
            final(self).wf(),
            match spec_rollback(old(self).history(scope_view(service_id)), commit_num) {
                Ok(h) => r is Ok && final(self).history(scope_view(service_id)) == h,
                Err(e) => r == Err::<(), StoreError>(e) && final(self).history(
                    scope_view(service_id),
                ) == old(self).history(scope_view(service_id)),
            },
            forall|sid: Option<Seq<char>>|
                sid != scope_view(service_id) ==> #[trigger] final(self).history(sid)
                    == old(self).history(sid),
    {
        let ghost sid = scope_view(service_id);
        let ghost h = self.history(sid);
        match find_scope(&self.histories, service_id) {
            None => Err(StoreError::NotFound),
            Some(i) => {
                if commit_num < 1 || commit_num > self.histories[i].data.len() as u64 {
                    return Err(StoreError::NotFound);
                }
                let mut v = swap_data(&mut self.histories, i, Vec::new());
                let ghost mid = self.histories@;
                proof {
                    crate::scope::lemma_scope_index(old(self).histories@, sid);
                    lemma_data_of_update(old(self).histories@, i as int, mid[i as int]);
                }
                v.truncate(commit_num as usize);
                swap_data(&mut self.histories, i, v);
                proof {
                    lemma_data_of_update(mid, i as int, self.histories@[i as int]);
                    assert(history_view(v) =~= h.take(commit_num as int));
                    assert(data_of(self.histories@, sid) == Some(v));
                    assert(self.history(sid) =~= h.take(commit_num as int));
                    assert forall|s: Option<Seq<char>>| #[trigger] numbered(self.history(s)) by {
                        assert(numbered(old(self).history(s)));
                        if s == sid {
                            assert forall|k: int| 0 <= k < self.history(s).len() implies #[trigger] self.history(
                                s,
                            )[k].0 == k + 1 by {
                                assert(h[k].0 == k + 1);
                            }
                        }
                    }
                }
                Ok(())
            },
        }
    }
}

} // verus!
