use vstd::prelude::*;

use crate::error::StoreError;
use crate::paging::{page_of, Page};
use crate::role_store::{keys_ordered, roles_of_org, spec_get, Role, RoleStore};
use crate::scope::scope_view;

verus! {

/// Looks up role `(org_id, name)` in scope `service_id` (`None`: Global scope) for the role
/// endpoint; an absent role is `NotFound`.
pub fn get_role(store: &RoleStore, org_id: &String, name: &String, service_id: &Option<String>) -> (r: Result<Role, StoreError>)
    requires
        store.wf(),
    ensures
        match spec_get(store.roles(scope_view(service_id)), org_id@, name@) {
            Some(x) => r is Ok && r->Ok_0@ == x,
            None => r == Err::<Role, StoreError>(StoreError::NotFound),
        },
{
    match store.get(service_id, org_id, name) {
        Some(role) => Ok(role),
        None => Err(StoreError::NotFound),
    }
}

/// Lists one page of the roles of organization `org_id` in scope `service_id`, in ascending
/// order of name, for the role listing endpoint.
pub fn list_roles_for_organization(
    store: &RoleStore,
    org_id: &String,
    service_id: &Option<String>,
    offset: usize,
    limit: usize,
) -> (r: Page<Role>)
    requires
        store.wf(),
    ensures
        r.items@.map_values(|x: Role| x@) == page_of(
            roles_of_org(store.roles(scope_view(service_id)), org_id@),
            offset as nat,
            limit as nat,
        ),
        keys_ordered(r.items@.map_values(|x: Role| x@)),
        r.total == roles_of_org(store.roles(scope_view(service_id)), org_id@).len(),
        r.offset == offset,
        r.limit == limit,
{
    store.list_for_org(service_id, org_id, offset, limit)
}

} // verus!
