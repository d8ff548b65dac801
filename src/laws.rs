use vstd::prelude::*;

use crate::batch_store::{batch_index, spec_get_status, spec_submit, BatchStatus, BatchView};
use crate::commit_store::{numbered, spec_apply, spec_current, Commit, HistoryView};
use crate::coordinator::{
    current_roles, spec_apply_commit, spec_rollback_tenant, tenant_wf, TenantView,
};
use crate::error::StoreError;
use crate::paging::{lemma_pagination_complete, pages_from};
use crate::role_store::{
    keys_ordered, lemma_roles_of_org_ordered, roles_of_org, spec_get, RoleView, StateChange,
};
use crate::scope::scope_view;

verus! {

/// A commit whose predecessor is not the current head is rejected with `Conflict`, by the
/// commit store and by the coordinator alike (whose failed apply changes nothing).
pub proof fn lemma_mismatched_commit_rejected(t: TenantView, c: &Commit, cs: Seq<StateChange>)
    requires
        t.history.len() > 0,
        c.previous_commit_id@ != t.history.last().1,
    ensures
        spec_apply(t.history, c) == Err::<HistoryView, StoreError>(StoreError::Conflict),
        spec_apply_commit(t, c, cs) == Err::<TenantView, StoreError>(StoreError::Conflict),
{
}

/// The result of applying `cs` in order to history `h`, skipping those that are rejected,
/// with the number of commits that were accepted.
pub open spec fn apply_all(h: HistoryView, cs: Seq<Commit>) -> (HistoryView, nat)
    decreases cs.len(),
{
    if cs.len() == 0 {
        (h, 0)
    } else {
        let (g, n) = apply_all(h, cs.drop_last());
        match spec_apply(g, &cs.last()) {
            Ok(g2) => (g2, n + 1),
            Err(_) => (g, n),
        }
    }
}

/// After any sequence of applies on a service without history, the commits held are numbered
/// 1, 2, ... without gaps, and the current commit's number is the number of applies that
/// succeeded.
pub proof fn lemma_commit_monotonic(cs: Seq<Commit>)
    ensures
        numbered(apply_all(Seq::empty(), cs).0),
        apply_all(Seq::empty(), cs).0.len() == apply_all(Seq::empty(), cs).1,
        apply_all(Seq::empty(), cs).1 > 0 ==> (spec_current(apply_all(Seq::empty(), cs).0) matches Some(p)
            && p.0 == apply_all(Seq::empty(), cs).1),
    decreases cs.len(),
{
    if cs.len() > 0 {
        lemma_commit_monotonic(cs.drop_last());
        let (g, n) = apply_all(Seq::empty(), cs.drop_last());
        if let Ok(g2) = spec_apply(g, &cs.last()) {
            assert forall|i: int| 0 <= i < g2.len() implies #[trigger] g2[i].0 == i + 1 by {
                if i < g.len() {
                    assert(g2[i] == g[i]);
                }
            }
        }
    }
}

/// Rolling back the newest commit and applying it again gives the state that it had given
/// before, history and roles alike.
pub proof fn lemma_rollback_then_reapply(t: TenantView, c: &Commit, cs: Seq<StateChange>)
    requires
        tenant_wf(t),
        t.history.len() >= 1,
        spec_apply_commit(t, c, cs) is Ok,
    ensures
        spec_rollback_tenant(spec_apply_commit(t, c, cs)->Ok_0, (c.commit_num - 1) as u64) == Ok::<
            TenantView,
            StoreError,
        >(t),
        spec_apply_commit(
            spec_rollback_tenant(spec_apply_commit(t, c, cs)->Ok_0, (c.commit_num - 1) as u64)->Ok_0,
            c,
            cs,
        ) == spec_apply_commit(t, c, cs),
{
    let t1 = spec_apply_commit(t, c, cs)->Ok_0;
    let back = spec_rollback_tenant(t1, (c.commit_num - 1) as u64)->Ok_0;
    assert(back.history =~= t.history);
    assert(back.states =~= t.states);
}

/// Submitting the same batch a second time succeeds and changes nothing, and its status reads
/// the same after either submission.
pub proof fn lemma_submit_idempotent(s: Seq<BatchView>, b: BatchView)
    requires
        spec_submit(s, b) is Ok,
    ensures
        spec_submit(spec_submit(s, b)->Ok_0, b) == spec_submit(s, b),
        spec_get_status(spec_submit(s, b)->Ok_0, b.batch_id) == spec_get_status(
            spec_submit(spec_submit(s, b)->Ok_0, b)->Ok_0,
            b.batch_id,
        ),
{
    let s1 = spec_submit(s, b)->Ok_0;
    if batch_index(s, b.batch_id) < 0 {
        assert(s1.drop_last() =~= s);
        assert(batch_index(s1, b.batch_id) == s.len());
    }
}

/// What applying commit `c` with changes `cs` does to the states of all services, each
/// service's state held under its scope: only the commit's own service changes.
pub open spec fn spec_apply_everywhere(
    m: Map<Option<Seq<char>>, TenantView>,
    c: &Commit,
    cs: Seq<StateChange>,
) -> Result<Map<Option<Seq<char>>, TenantView>, StoreError> {
    match spec_apply_commit(m[scope_view(&c.service_id)], c, cs) {
        Ok(t) => Ok(m.insert(scope_view(&c.service_id), t)),
        Err(e) => Err(e),
    }
}

/// A commit of one service never changes what a lookup or a listing in another scope
/// returns: a role written under service A is not seen from scope B.
pub proof fn lemma_tenant_isolation(
    m: Map<Option<Seq<char>>, TenantView>,
    c: &Commit,
    cs: Seq<StateChange>,
    other: Option<Seq<char>>,
    org_id: Seq<char>,
    name: Seq<char>,
)
    requires
        other != scope_view(&c.service_id),
        m.contains_key(other),
        spec_apply_everywhere(m, c, cs) is Ok,
    ensures
        spec_get(current_roles(spec_apply_everywhere(m, c, cs)->Ok_0[other]), org_id, name) == spec_get(
            current_roles(m[other]),
            org_id,
            name,
        ),
        roles_of_org(current_roles(spec_apply_everywhere(m, c, cs)->Ok_0[other]), org_id)
            == roles_of_org(current_roles(m[other]), org_id),
{
}

/// A batch with a new id reads Pending once submitted, whatever status it carried.
pub proof fn lemma_new_batch_pending(s: Seq<BatchView>, b: BatchView)
    requires
        batch_index(s, b.batch_id) == -1,
    ensures
        spec_submit(s, b) is Ok,
        spec_get_status(spec_submit(s, b)->Ok_0, b.batch_id) == Ok::<BatchStatus, StoreError>(
            BatchStatus::Pending,
        ),
{
    let s1 = spec_submit(s, b)->Ok_0;
    assert(s1.drop_last() =~= s);
}

/// Listing the roles of one organization page by page, from offset 0 in steps of `limit`,
/// yields each of its roles exactly once, in ascending order of name: the pages joined are the
/// whole listing, whose keys are strictly ordered and so all distinct.
pub proof fn lemma_role_pages_complete(s: Seq<RoleView>, org_id: Seq<char>, limit: nat)
    requires
        keys_ordered(s),
        limit > 0,
    ensures
        pages_from(roles_of_org(s, org_id), 0, limit) == roles_of_org(s, org_id),
        keys_ordered(pages_from(roles_of_org(s, org_id), 0, limit)),
{
    lemma_pagination_complete(roles_of_org(s, org_id), limit);
    lemma_roles_of_org_ordered(s, org_id);
}

} // verus!
