use vstd::prelude::*;

use crate::commit_store::{continues, Commit, CommitStore, HistoryView};
use crate::error::StoreError;
use crate::role_store::{
    lemma_apply_changes_stamped, replays_to, spec_apply_changes, stamped_within, RoleStore,
    RoleView, StateChange, Undo,
};
use crate::scope::{
    copy_scope, data_of, find_scope, lemma_data_of_push, lemma_data_of_update, lemma_scope_index,
    scope_view, scopes_unique, swap_data, Scoped,
};

verus! {

/// The abstract state of one service: its commit history, and the roles it held after each
/// prefix of that history (`states[k]`: after `k` commits; the last is the current one).
pub struct TenantView {
    pub history: HistoryView,
    pub states: Seq<Seq<RoleView>>,
}

/// The roles that a tenant holds now.
pub open spec fn current_roles(t: TenantView) -> Seq<RoleView> {
    t.states.last()
}

/// What applying commit `c` with its changes `cs` does to the state of its service: the commit
/// must continue the history, and every change must succeed, or nothing changes.
pub open spec fn spec_apply_commit(t: TenantView, c: &Commit, cs: Seq<StateChange>) -> Result<
    TenantView,
    StoreError,
> {
    if !continues(t.history, c) {
        Err(StoreError::Conflict)
    } else {
        match spec_apply_changes(current_roles(t), cs, c.commit_num) {
            Err(e) => Err(e),
            Ok(r) => Ok(
                TenantView {
                    history: t.history.push((c.commit_num as nat, c.commit_id@)),
                    states: t.states.push(r),
                },
            ),
        }
    }
}

/// What rolling a service back to commit `target` does: a target at or above the head changes
/// nothing; target 0 was never applied; otherwise the later commits and their effects go.
pub open spec fn spec_rollback_tenant(t: TenantView, target: u64) -> Result<TenantView, StoreError> {
    if target >= t.history.len() {
        Ok(t)
    } else if target == 0 {
        Err(StoreError::NotFound)
    } else {
        Ok(
            TenantView {
                history: t.history.take(target as int),
                states: t.states.take(target + 1),
            },
        )
    }
}

/// A tenant state that can arise: one roles state per prefix of the history, starting empty,
/// and no role changed by a commit after the prefix that holds it.
pub open spec fn tenant_wf(t: TenantView) -> bool {
    &&& t.states.len() == t.history.len() + 1
    &&& t.states[0] == Seq::<RoleView>::empty()
    &&& forall|k: int| 0 <= k < t.states.len() ==> stamped_within(#[trigger] t.states[k], k as nat)
}

/// Applies ledger commits to the read model as single units, and rolls them back.
pub struct Coordinator {
    commits: CommitStore,
    roles: RoleStore,
    journal: Vec<Scoped<Vec<Vec<Undo>>>>,
    states: Ghost<spec_fn(Option<Seq<char>>) -> Seq<Seq<RoleView>>>,
}

/// The undo logs that `j` holds for `sid`, one per applied commit, oldest first.
pub open spec fn logs_of(j: Seq<Scoped<Vec<Vec<Undo>>>>, sid: Option<Seq<char>>) -> Seq<Vec<Undo>> {
    match data_of(j, sid) {
        Some(v) => v@,
        None => Seq::empty(),
    }
}

impl Coordinator {
    /// The undo logs of `sid`, one per applied commit, oldest first.
    pub closed spec fn logs(&self, sid: Option<Seq<char>>) -> Seq<Vec<Undo>> {
        logs_of(self.journal@, sid)
    }

    /// The abstract state of service `sid`.
    pub closed spec fn tenant(&self, sid: Option<Seq<char>>) -> TenantView {
        TenantView { history: self.commits.history(sid), states: (self.states@)(sid) }
    }

    pub closed spec fn tenant_ok(&self, sid: Option<Seq<char>>) -> bool {
        let h = self.commits.history(sid);
        let st = (self.states@)(sid);
        let logs = self.logs(sid);
        &&& tenant_wf(self.tenant(sid))
        &&& st.last() == self.roles.roles(sid)
        &&& logs.len() == h.len()
        &&& forall|k: int| 0 <= k < logs.len() ==> replays_to(st[k + 1], #[trigger] logs[k]@, st[k])
    }

    pub closed spec fn wf(&self) -> bool {
        &&& self.commits.wf()
        &&& self.roles.wf()
        &&& scopes_unique(self.journal@)
        &&& forall|sid: Option<Seq<char>>| #[trigger] self.tenant_ok(sid)
    }

    /// A coordinator over empty stores.
    pub fn new() -> (r: Self)
        ensures
            r.wf(),
            forall|sid: Option<Seq<char>>|
                #[trigger] r.tenant(sid) == (TenantView {
                    history: Seq::empty(),
                    states: seq![Seq::<RoleView>::empty()],
                }),
    {
        let r = Coordinator {
            commits: CommitStore::new(),
            roles: RoleStore::new(),
            journal: Vec::new(),
            states: Ghost(|s: Option<Seq<char>>| seq![Seq::<RoleView>::empty()]),
        };
        proof {
            assert forall|sid: Option<Seq<char>>| #[trigger] r.tenant_ok(sid) by {
                assert(r.logs(sid) =~= Seq::<Vec<Undo>>::empty());
            }
        }
        r
    }

    /// Read-only access to the roles, for queries.
    pub fn role_store(&self) -> (r: &RoleStore)
        requires
            self.wf(),
        ensures
            r.wf(),
            forall|sid: Option<Seq<char>>| #[trigger] r.roles(sid) == current_roles(self.tenant(sid)),
    {
        proof {
            assert forall|sid: Option<Seq<char>>| #[trigger] self.roles.roles(sid) == current_roles(
                self.tenant(sid),
            ) by {
                assert(self.tenant_ok(sid));
            }
        }
        &self.roles
    }

    /// Read-only access to the commit histories.
    pub fn commit_store(&self) -> (r: &CommitStore)
        requires
            self.wf(),
        ensures
            r.wf(),
            forall|sid: Option<Seq<char>>| #[trigger] r.history(sid) == self.tenant(sid).history,
    {
        &self.commits
    }

    /// No role of a service was last changed by a commit after the service's current one.
    pub proof fn lemma_roles_not_ahead(&self, sid: Option<Seq<char>>)
        requires
            self.wf(),
        ensures
            stamped_within(current_roles(self.tenant(sid)), self.tenant(sid).history.len()),
    {
        assert(self.tenant_ok(sid));
        let st = self.tenant(sid).states;
        assert(stamped_within(st[st.len() - 1], (st.len() - 1) as nat));
    }

    /// The tenant states can arise.
    pub proof fn lemma_tenant_wf(&self, sid: Option<Seq<char>>)
        requires
            self.wf(),
        ensures
            tenant_wf(self.tenant(sid)),
    {
        assert(self.tenant_ok(sid));
    }

    /// Replays `log`, newest entry first, on the roles of `service_id`.
    fn replay(roles: &mut RoleStore, service_id: &Option<String>, log: Vec<Undo>, target: Ghost<
        Seq<RoleView>,
    >)
        requires
            old(roles).wf(),
            replays_to(old(roles).roles(scope_view(service_id)), log@, target@),
        ensures
            final(roles).wf(),
            final(roles).roles(scope_view(service_id)) == target@,
            forall|s: Option<Seq<char>>|
                s != scope_view(service_id) ==> #[trigger] final(roles).roles(s) == old(roles).roles(s),
    {
        let mut log = log;
        while log.len() > 0
            invariant
                roles.wf(),
                replays_to(roles.roles(scope_view(service_id)), log@, target@),
                forall|s: Option<Seq<char>>|
                    s != scope_view(service_id) ==> #[trigger] roles.roles(s) == old(roles).roles(s),
            decreases log.len(),
        {
            let ghost before = log@;
            let u = log.pop().unwrap();
            assert(log@ == before.drop_last());
            roles.undo(service_id, u);
        }
    }

    /// Appends `log` to the undo logs of `service_id`.
    fn push_log(journal: &mut Vec<Scoped<Vec<Vec<Undo>>>>, service_id: &Option<String>, log: Vec<Undo>)
        requires
            scopes_unique(old(journal)@),
        ensures
            scopes_unique(final(journal)@),
            logs_of(final(journal)@, scope_view(service_id)) == logs_of(
                old(journal)@,
                scope_view(service_id),
            ).push(log),
            forall|s: Option<Seq<char>>|
                s != scope_view(service_id) ==> #[trigger] logs_of(final(journal)@, s) == logs_of(
                    old(journal)@,
                    s,
                ),
    {
        let ghost sid = scope_view(service_id);
        match find_scope(journal, service_id) {
            None => {
                let mut v: Vec<Vec<Undo>> = Vec::new();
                v.push(log);
                let entry = Scoped { service_id: copy_scope(service_id), data: v };
                proof {
                    lemma_data_of_push(journal@, entry);
                }
                journal.push(entry);
                assert(logs_of(journal@, sid) =~= logs_of(old(journal)@, sid).push(log));
            },
            Some(i) => {
                proof {
                    lemma_scope_index(journal@, sid);
                }
                let ghost j0 = journal@;
                let mut v = swap_data(journal, i, Vec::new());
                let ghost j1 = journal@;
                proof {
                    lemma_data_of_update(j0, i as int, j1[i as int]);
                }
                v.push(log);
                swap_data(journal, i, v);
                proof {
                    lemma_data_of_update(j1, i as int, journal@[i as int]);
                }
            },
        }
    }

    /// Takes the newest undo log of `service_id`.
    fn pop_log(journal: &mut Vec<Scoped<Vec<Vec<Undo>>>>, service_id: &Option<String>) -> (r: Vec<Undo>)
        requires
            scopes_unique(old(journal)@),
            logs_of(old(journal)@, scope_view(service_id)).len() > 0,
        ensures
            scopes_unique(final(journal)@),
            r == logs_of(old(journal)@, scope_view(service_id)).last(),
            logs_of(final(journal)@, scope_view(service_id)) == logs_of(
                old(journal)@,
                scope_view(service_id),
            ).drop_last(),
            forall|s: Option<Seq<char>>|
                s != scope_view(service_id) ==> #[trigger] logs_of(final(journal)@, s) == logs_of(
                    old(journal)@,
                    s,
                ),
    {
        let ghost sid = scope_view(service_id);
        let i = find_scope(journal, service_id).unwrap();
        proof {
            lemma_scope_index(journal@, sid);
        }
        let ghost j0 = journal@;
        let mut v = swap_data(journal, i, Vec::new());
        let ghost j1 = journal@;
        proof {
            lemma_data_of_update(j0, i as int, j1[i as int]);
        }
        let r = v.pop().unwrap();
        swap_data(journal, i, v);
        proof {
            lemma_data_of_update(j1, i as int, journal@[i as int]);
        }
        r
    }

    /// Applies `changes` in order to the roles of `service_id`, stamped with `commit_num`, and
    /// hands back their undo log. Where a change fails, those before it are undone and its
    /// error is returned.
    fn apply_changes(
        roles: &mut RoleStore,
        service_id: &Option<String>,
        changes: Vec<StateChange>,
        commit_num: u64,
    ) -> (r: Result<Vec<Undo>, StoreError>)
        requires
            old(roles).wf(),
        ensures
            final(roles).wf(),
            match spec_apply_changes(old(roles).roles(scope_view(service_id)), changes@, commit_num) {
                Ok(t) => r is Ok && final(roles).roles(scope_view(service_id)) == t && replays_to(
                    t,
                    r->Ok_0@,
                    old(roles).roles(scope_view(service_id)),
                ),
                Err(e) => r == Err::<Vec<Undo>, StoreError>(e) && final(roles).roles(
                    scope_view(service_id),
                ) == old(roles).roles(scope_view(service_id)),
            },
            forall|s: Option<Seq<char>>|
                s != scope_view(service_id) ==> #[trigger] final(roles).roles(s) == old(roles).roles(s),
    {
        let ghost sid = scope_view(service_id);
        let ghost orig = changes@;
        let ghost s0 = roles.roles(sid);
        let mut rest = changes;
        let mut log: Vec<Undo> = Vec::new();
        let ghost mut i: int = 0;
        assert(orig.take(0) =~= Seq::<StateChange>::empty());
        assert(rest@ =~= orig.skip(0));
        while rest.len() > 0
            invariant
                sid == scope_view(service_id),
                orig == changes@,
                s0 == old(roles).roles(sid),
                0 <= i <= orig.len(),
                rest@ == orig.skip(i),
                roles.wf(),
                spec_apply_changes(s0, orig.take(i), commit_num) == Ok::<Seq<RoleView>, StoreError>(
                    roles.roles(sid),
                ),
                replays_to(roles.roles(sid), log@, s0),
                forall|s: Option<Seq<char>>|
                    s != sid ==> #[trigger] roles.roles(s) == old(roles).roles(s),
            decreases orig.len() - i,
        {
            let ghost cur = roles.roles(sid);
            proof {
                roles.lemma_keys_ordered(sid);
            }
            let ch = rest.remove(0);
            assert(ch == orig[i]);
            assert(orig.take(i + 1).drop_last() =~= orig.take(i));
            assert(orig.take(i + 1).last() == orig[i]);
            let step = roles.apply_change(service_id, ch, commit_num);
            match step {
                Ok(u) => {
                    let ghost before = log@;
                    log.push(u);
                    assert(log@.drop_last() =~= before);
                    proof {
                        crate::role_store::lemma_step_keeps_order(cur, &orig[i], commit_num);
                        i = i + 1;
                    }
                    assert(rest@ =~= orig.skip(i));
                },
                Err(e) => {
                    proof {
                        lemma_apply_changes_fails(s0, orig, i + 1, commit_num);
                    }
                    Self::replay(roles, service_id, log, Ghost(s0));
                    return Err(e);
                },
            }
        }
        assert(orig.take(i) =~= orig);
        Ok(log)
    }

    /// Applies commit `c` and its state changes, in the order given, as one unit: the roles of
    /// the commit's service change and its history advances together, or, where the commit
    /// does not continue the history or a change fails, nothing changes and the error is
    /// returned.
    pub fn apply_commit(&mut self, c: Commit, changes: Vec<StateChange>) -> (r: Result<(), StoreError>)
        requires
            old(self).wf(),
        ensures
            final(self).wf(),
            match spec_apply_commit(old(self).tenant(scope_view(&c.service_id)), &c, changes@) {
                Ok(t) => r is Ok && final(self).tenant(scope_view(&c.service_id)) == t,
                Err(e) => r == Err::<(), StoreError>(e) && final(self).tenant(
                    scope_view(&c.service_id),
                ) == old(self).tenant(scope_view(&c.service_id)),
            },
            forall|s: Option<Seq<char>>|
                s != scope_view(&c.service_id) ==> #[trigger] final(self).tenant(s) == old(
                    self,
                ).tenant(s),
    {
        let ghost sid = scope_view(&c.service_id);
        let ghost orig = changes@;
        proof {
            assert(self.tenant_ok(sid));
        }
        if !self.commits.accepts(&c) {
            return Err(StoreError::Conflict);
        }
        let log = match Self::apply_changes(&mut self.roles, &c.service_id, changes, c.commit_num) {
            Ok(log) => log,
            Err(e) => {
                proof {
                    assert forall|s: Option<Seq<char>>| #[trigger] self.tenant_ok(s) by {
                        assert(old(self).tenant_ok(s));
                    }
                    assert(self.tenant(sid) =~= old(self).tenant(sid));
                }
                return Err(e);
            },
        };
        let ghost r1 = self.roles.roles(sid);
        proof {
            let st0 = (self.states@)(sid);
            assert(stamped_within(st0[st0.len() - 1], (st0.len() - 1) as nat));
            lemma_apply_changes_stamped(st0.last(), orig, c.commit_num);
        }
        let applied = self.commits.apply(&c);
        assert(applied is Ok);
        Self::push_log(&mut self.journal, &c.service_id, log);
        let ghost old_states = self.states@;
        self.states = Ghost(
            |s: Option<Seq<char>>|
                if s == sid {
                    old_states(s).push(r1)
                } else {
                    old_states(s)
                },
        );
        proof {
            assert forall|s: Option<Seq<char>>| #[trigger] self.tenant_ok(s) by {
                assert(old(self).tenant_ok(s));
                if s == sid {
                    let st = (self.states@)(s);
                    let logs = self.logs(s);
                    assert forall|k: int| 0 <= k < logs.len() implies replays_to(
                        st[k + 1],
                        #[trigger] logs[k]@,
                        st[k],
                    ) by {
                        if k < logs.len() - 1 {
                            assert(logs[k] == old(self).logs(s)[k]);
                        }
                    }
                }
            }
            assert(self.tenant(sid) =~= spec_apply_commit(old(self).tenant(sid), &c, orig)->Ok_0);
        }
        Ok(())
    }

    /// Undoes the newest commits of `service_id`, newest first, until `target` remain.
    fn unwind(
        roles: &mut RoleStore,
        journal: &mut Vec<Scoped<Vec<Vec<Undo>>>>,
        service_id: &Option<String>,
        target: usize,
        st: Ghost<Seq<Seq<RoleView>>>,
    )
        requires
            old(roles).wf(),
            scopes_unique(old(journal)@),
            target <= logs_of(old(journal)@, scope_view(service_id)).len(),
            st@.len() == logs_of(old(journal)@, scope_view(service_id)).len() + 1,
            old(roles).roles(scope_view(service_id)) == st@.last(),
            forall|k: int|
                0 <= k < logs_of(old(journal)@, scope_view(service_id)).len() ==> replays_to(
                    st@[k + 1],
                    #[trigger] logs_of(old(journal)@, scope_view(service_id))[k]@,
                    st@[k],
                ),
        ensures
            final(roles).wf(),
            scopes_unique(final(journal)@),
            final(roles).roles(scope_view(service_id)) == st@[target as int],
            logs_of(final(journal)@, scope_view(service_id)) == logs_of(
                old(journal)@,
                scope_view(service_id),
            ).take(target as int),
            forall|s: Option<Seq<char>>|
                s != scope_view(service_id) ==> #[trigger] final(roles).roles(s) == old(roles).roles(s),
            forall|s: Option<Seq<char>>|
                s != scope_view(service_id) ==> #[trigger] logs_of(final(journal)@, s) == logs_of(
                    old(journal)@,
                    s,
                ),
    {
        let ghost sid = scope_view(service_id);
        let ghost all = logs_of(journal@, sid);
        let mut m: usize = journal_len(journal, service_id);
        assert(all.take(m as int) =~= all);
        while m > target
            invariant
                sid == scope_view(service_id),
                all == logs_of(old(journal)@, sid),
                target <= m <= all.len(),
                st@.len() == all.len() + 1,
                roles.wf(),
                scopes_unique(journal@),
                roles.roles(sid) == st@[m as int],
                logs_of(journal@, sid) == all.take(m as int),
                forall|k: int| 0 <= k < all.len() ==> replays_to(st@[k + 1], #[trigger] all[k]@, st@[k]),
                forall|s: Option<Seq<char>>|
                    s != sid ==> #[trigger] roles.roles(s) == old(roles).roles(s),
                forall|s: Option<Seq<char>>|
                    s != sid ==> #[trigger] logs_of(journal@, s) == logs_of(old(journal)@, s),
            decreases m,
        {
            let log = Self::pop_log(journal, service_id);
            assert(log == all[m - 1]);
            Self::replay(roles, service_id, log, Ghost(st@[m - 1]));
            assert(logs_of(journal@, sid) =~= all.take(m - 1));
            m = m - 1;
        }
    }

    /// Rolls service `service_id` back to commit `target`: the effects of the later commits
    /// are undone, newest first, and they leave the history. A target at or above the head
    /// changes nothing; target 0 fails with `NotFound`.
    pub fn rollback_to(&mut self, service_id: &Option<String>, target: u64) -> (r: Result<(), StoreError>)
        requires
            old(self).wf(),
        ensures
            final(self).wf(),
            match spec_rollback_tenant(old(self).tenant(scope_view(service_id)), target) {
                Ok(t) => r is Ok && final(self).tenant(scope_view(service_id)) == t,
                Err(e) => r == Err::<(), StoreError>(e) && final(self).tenant(scope_view(service_id))
                    == old(self).tenant(scope_view(service_id)),
            },
            forall|s: Option<Seq<char>>|
                s != scope_view(service_id) ==> #[trigger] final(self).tenant(s) == old(self).tenant(s),
    {
        let ghost sid = scope_view(service_id);
        let ghost st = (self.states@)(sid);
        proof {
            assert(self.tenant_ok(sid));
        }
        let n = journal_len(&self.journal, service_id);
        if target >= n as u64 {
            return Ok(());
        }
        if target == 0 {
            return Err(StoreError::NotFound);
        }
        Self::unwind(&mut self.roles, &mut self.journal, service_id, target as usize, Ghost(st));
        let done = self.commits.rollback_to(service_id, target);
        assert(done is Ok);
        let ghost old_states = self.states@;
        self.states = Ghost(
            |s: Option<Seq<char>>|
                if s == sid {
                    old_states(s).take(target + 1)
                } else {
                    old_states(s)
                },
        );
        proof {
            assert forall|s: Option<Seq<char>>| #[trigger] self.tenant_ok(s) by {
                assert(old(self).tenant_ok(s));
                if s == sid {
                    let logs = self.logs(s);
                    assert((self.states@)(s).last() == st[target as int]);
                    assert(logs.len() == target);
                    assert forall|k: int| 0 <= k < logs.len() implies replays_to(
                        (self.states@)(s)[k + 1],
                        #[trigger] logs[k]@,
                        (self.states@)(s)[k],
                    ) by {
                        assert(logs[k] == old(self).logs(s)[k]);
                    }
                }
            }
            assert(self.tenant(sid) =~= spec_rollback_tenant(old(self).tenant(sid), target)->Ok_0);
        }
        Ok(())
    }
}

/// The number of undo logs that `journal` holds for `service_id`.
fn journal_len(journal: &Vec<Scoped<Vec<Vec<Undo>>>>, service_id: &Option<String>) -> (r: usize)
    ensures
        r == logs_of(journal@, scope_view(service_id)).len(),
{
    match find_scope(journal, service_id) {
        None => 0,
        Some(i) => {
            proof {
                lemma_scope_index(journal@, scope_view(service_id));
            }
            journal[i].data.len()
        },
    }
}

/// Where the change at position `i - 1` fails after the ones before it succeeded, the whole
/// sequence of changes fails with its error.
proof fn lemma_apply_changes_fails(s: Seq<RoleView>, cs: Seq<StateChange>, i: int, commit_num: u64)
    requires
        1 <= i <= cs.len(),
        spec_apply_changes(s, cs.take(i), commit_num) is Err,
    ensures
        spec_apply_changes(s, cs, commit_num) == spec_apply_changes(s, cs.take(i), commit_num),
    decreases cs.len() - i,
{
    if i < cs.len() {
        assert(cs.take(i + 1).drop_last() =~= cs.take(i));
        lemma_apply_changes_fails(s, cs, i + 1, commit_num);
    } else {
        assert(cs.take(i) =~= cs);
    }
}

} // verus!
