use vstd::prelude::*;

use crate::error::StoreError;
use crate::order::{
    lemma_text_lt_irreflexive, lemma_text_lt_total, lemma_text_lt_transitive, text_less, text_lt,
};
use crate::paging::{page_bounds, page_of, Page};
use crate::scope::{
    copy_scope, data_of, find_scope, lemma_data_of_push, lemma_data_of_update, lemma_scope_index,
    scope_view, scopes_unique, swap_data, Scoped,
};

verus! {

/// A role of an organization, as the read model holds it.
pub struct Role {
    pub org_id: String,
    pub name: String,
    pub description: String,
    /// The commit that last changed this role.
    pub last_commit_num: u64,
}

/// The abstract value of a role.
pub struct RoleView {
    pub org_id: Seq<char>,
    pub name: Seq<char>,
    pub description: Seq<char>,
    pub last_commit_num: nat,
}

impl View for Role {
    type V = RoleView;

    open spec fn view(&self) -> RoleView {
        RoleView {
            org_id: self.org_id@,
            name: self.name@,
            description: self.description@,
            last_commit_num: self.last_commit_num as nat,
        }
    }
}

impl Role {
    /// A copy of this role.
    pub fn copy(&self) -> (r: Role)
        ensures
            r@ == self@,
    {
        Role {
            org_id: self.org_id.clone(),
            name: self.name.clone(),
            description: self.description.clone(),
            last_commit_num: self.last_commit_num,
        }
    }
}

/// What a state change does to the record that it names.
#[derive(Clone, Copy, Debug, PartialEq, Eq, Structural)]
pub enum Operation {
    Add,
    Update,
    Delete,
}

/// One change to a role: its natural key `(org_id, name)` and the new value come from `role`
/// (only the key is read for a `Delete`).
pub struct StateChange {
    pub op: Operation,
    pub role: Role,
}

/// The inverse of an applied change, by position in the records of one scope.
pub enum Undo {
    /// Removes the record at this position (undoes an `Add`).
    Remove(usize),
    /// Puts this record back at this position (undoes an `Update`).
    Restore(usize, Role),
    /// Inserts this record again at this position (undoes a `Delete`).
    Reinsert(usize, Role),
}

/// The position of the role with key `(org_id, name)` in `s`, or -1 where there is none.
pub open spec fn key_index(s: Seq<RoleView>, org_id: Seq<char>, name: Seq<char>) -> int
    decreases s.len(),
{
    if s.len() == 0 {
        -1
    } else if s.last().org_id == org_id && s.last().name == name {
        s.len() - 1
    } else {
        key_index(s.drop_last(), org_id, name)
    }
}

/// Role `x` comes before role `y`: by organization, then by name.
pub open spec fn key_lt(x: RoleView, y: RoleView) -> bool {
    text_lt(x.org_id, y.org_id) || (x.org_id == y.org_id && text_lt(x.name, y.name))
}

/// Whether two roles have the same natural key.
pub open spec fn same_key(x: RoleView, y: RoleView) -> bool {
    x.org_id == y.org_id && x.name == y.name
}

/// The roles are held in ascending order of natural key, so no two share one.
pub open spec fn keys_ordered(s: Seq<RoleView>) -> bool {
    forall|i: int, j: int| 0 <= i < j < s.len() ==> #[trigger] key_lt(s[i], s[j])
}

pub proof fn lemma_key_lt_irreflexive(x: RoleView, y: RoleView)
    requires
        same_key(x, y),
    ensures
        !key_lt(x, y),
{
    lemma_text_lt_irreflexive(x.org_id);
    lemma_text_lt_irreflexive(x.name);
}

pub proof fn lemma_key_lt_transitive(x: RoleView, y: RoleView, z: RoleView)
    requires
        key_lt(x, y),
        key_lt(y, z),
    ensures
        key_lt(x, z),
{
    if text_lt(x.org_id, y.org_id) && text_lt(y.org_id, z.org_id) {
        lemma_text_lt_transitive(x.org_id, y.org_id, z.org_id);
    } else if x.org_id == y.org_id && y.org_id == z.org_id {
        lemma_text_lt_transitive(x.name, y.name, z.name);
    }
}

pub proof fn lemma_key_lt_total(x: RoleView, y: RoleView)
    requires
        !same_key(x, y),
    ensures
        key_lt(x, y) || key_lt(y, x),
{
    if x.org_id != y.org_id {
        lemma_text_lt_total(x.org_id, y.org_id);
    } else {
        lemma_text_lt_total(x.name, y.name);
    }
}

/// Where a role with the key of `k` goes in `s` to keep the keys in order.
pub open spec fn insert_pos(s: Seq<RoleView>, k: RoleView) -> int
    decreases s.len(),
{
    if s.len() == 0 {
        0
    } else if key_lt(s.last(), k) {
        s.len() as int
    } else {
        insert_pos(s.drop_last(), k)
    }
}

pub proof fn lemma_insert_pos_bounds(s: Seq<RoleView>, k: RoleView)
    ensures
        0 <= insert_pos(s, k) <= s.len(),
    decreases s.len(),
{
    if s.len() > 0 {
        lemma_insert_pos_bounds(s.drop_last(), k);
    }
}

pub proof fn lemma_insert_pos(s: Seq<RoleView>, k: RoleView)
    requires
        keys_ordered(s),
        key_index(s, k.org_id, k.name) == -1,
    ensures
        0 <= insert_pos(s, k) <= s.len(),
        forall|i: int| 0 <= i < insert_pos(s, k) ==> key_lt(#[trigger] s[i], k),
        forall|i: int| insert_pos(s, k) <= i < s.len() ==> key_lt(k, #[trigger] s[i]),
    decreases s.len(),
{
    lemma_key_index(s, k.org_id, k.name);
    if s.len() > 0 {
        let t = s.drop_last();
        let last = s.last();
        if key_lt(last, k) {
            assert forall|i: int| 0 <= i < s.len() implies key_lt(#[trigger] s[i], k) by {
                if i < s.len() - 1 {
                    assert(key_lt(s[i], s[s.len() - 1]));
                    lemma_key_lt_transitive(s[i], last, k);
                }
            }
        } else {
            assert(!same_key(last, k));
            lemma_key_lt_total(last, k);
            assert(keys_ordered(t)) by {
                assert forall|i: int, j: int| 0 <= i < j < t.len() implies #[trigger] key_lt(t[i], t[j]) by {
                    assert(key_lt(s[i], s[j]));
                }
            }
            assert(key_index(t, k.org_id, k.name) == -1);
            lemma_insert_pos(t, k);
            assert forall|i: int| insert_pos(s, k) <= i < s.len() implies key_lt(k, #[trigger] s[i]) by {
                if i < s.len() - 1 {
                    assert(s[i] == t[i]);
                }
            }
            assert forall|i: int| 0 <= i < insert_pos(s, k) implies key_lt(#[trigger] s[i], k) by {
                assert(s[i] == t[i]);
            }
        }
    }
}

/// The role with key `(org_id, name)` in `s`.
pub open spec fn spec_get(s: Seq<RoleView>, org_id: Seq<char>, name: Seq<char>) -> Option<RoleView> {
    let i = key_index(s, org_id, name);
    if i >= 0 {
        Some(s[i])
    } else {
        None
    }
}

/// The roles of organization `org_id` in `s`, in the order of `s`.
pub open spec fn roles_of_org(s: Seq<RoleView>, org_id: Seq<char>) -> Seq<RoleView>
    decreases s.len(),
{
    if s.len() == 0 {
        Seq::empty()
    } else if s.last().org_id == org_id {
        roles_of_org(s.drop_last(), org_id).push(s.last())
    } else {
        roles_of_org(s.drop_last(), org_id)
    }
}

/// The record that a change writes, stamped with the commit that makes it.
pub open spec fn stamped(r: RoleView, commit_num: u64) -> RoleView {
    RoleView { last_commit_num: commit_num as nat, ..r }
}

/// What one change does to the roles of a scope.
pub open spec fn spec_step(s: Seq<RoleView>, c: &StateChange, commit_num: u64) -> Result<
    Seq<RoleView>,
    StoreError,
> {
    let i = key_index(s, c.role.org_id@, c.role.name@);
    match c.op {
        Operation::Add => if i >= 0 {
            Err(StoreError::Conflict)
        } else {
            Ok(s.insert(insert_pos(s, stamped(c.role@, commit_num)), stamped(c.role@, commit_num)))
        },
        Operation::Update => if i < 0 {
            Err(StoreError::NotFound)
        } else {
            Ok(s.update(i, stamped(c.role@, commit_num)))
        },
        Operation::Delete => if i < 0 {
            Err(StoreError::NotFound)
        } else {
            Ok(s.remove(i))
        },
    }
}

/// What a commit's changes, applied in the order given, do to the roles of a scope; the first
/// change that fails decides the error.
pub open spec fn spec_apply_changes(s: Seq<RoleView>, cs: Seq<StateChange>, commit_num: u64) -> Result<
    Seq<RoleView>,
    StoreError,
>
    decreases cs.len(),
{
    if cs.len() == 0 {
        Ok(s)
    } else {
        match spec_apply_changes(s, cs.drop_last(), commit_num) {
            Ok(t) => spec_step(t, &cs.last(), commit_num),
            Err(e) => Err(e),
        }
    }
}

/// No role of `s` was last changed by a commit after `n`.
pub open spec fn stamped_within(s: Seq<RoleView>, n: nat) -> bool {
    forall|i: int| 0 <= i < s.len() ==> #[trigger] s[i].last_commit_num <= n
}

/// Changes stamped with `commit_num` leave no role stamped later than it.
pub proof fn lemma_apply_changes_stamped(s: Seq<RoleView>, cs: Seq<StateChange>, commit_num: u64)
    requires
        stamped_within(s, commit_num as nat),
        spec_apply_changes(s, cs, commit_num) is Ok,
    ensures
        stamped_within(spec_apply_changes(s, cs, commit_num)->Ok_0, commit_num as nat),
    decreases cs.len(),
{
    if cs.len() > 0 {
        lemma_apply_changes_stamped(s, cs.drop_last(), commit_num);
        let t = spec_apply_changes(s, cs.drop_last(), commit_num)->Ok_0;
        let u = spec_step(t, &cs.last(), commit_num)->Ok_0;
        let k = key_index(t, cs.last().role.org_id@, cs.last().role.name@);
        lemma_key_index(t, cs.last().role.org_id@, cs.last().role.name@);
        assert forall|i: int| 0 <= i < u.len() implies #[trigger] u[i].last_commit_num <= commit_num by {
            match cs.last().op {
                Operation::Add => {
                    let p = insert_pos(t, stamped(cs.last().role@, commit_num));
                    lemma_insert_pos_bounds(t, stamped(cs.last().role@, commit_num));
                    if i < p {
                        assert(u[i] == t[i]);
                    } else if i > p {
                        assert(u[i] == t[i - 1]);
                    }
                },
                Operation::Update => {
                    if i != k {
                        assert(u[i] == t[i]);
                    }
                },
                Operation::Delete => {
                    if i < k {
                        assert(u[i] == t[i]);
                    } else {
                        assert(u[i] == t[i + 1]);
                    }
                },
            }
        }
    }
}

/// Whether undo entry `u` can be replayed on `s`.
pub open spec fn undo_fits(s: Seq<RoleView>, u: Undo) -> bool {
    match u {
        Undo::Remove(i) => i < s.len(),
        Undo::Restore(i, _) => i < s.len(),
        Undo::Reinsert(i, _) => i <= s.len(),
    }
}

/// What replaying undo entry `u` does to `s`.
pub open spec fn undo_step(s: Seq<RoleView>, u: Undo) -> Seq<RoleView> {
    match u {
        Undo::Remove(i) => s.remove(i as int),
        Undo::Restore(i, r) => s.update(i as int, r@),
        Undo::Reinsert(i, r) => s.insert(i as int, r@),
    }
}

/// Replaying `log` on `s`, newest entry first, passes only through states that fit and keep
/// keys unique, and ends at `target`.
pub open spec fn replays_to(s: Seq<RoleView>, log: Seq<Undo>, target: Seq<RoleView>) -> bool
    decreases log.len(),
{
    if log.len() == 0 {
        s == target
    } else {
        &&& undo_fits(s, log.last())
        &&& keys_ordered(undo_step(s, log.last()))
        &&& replays_to(undo_step(s, log.last()), log.drop_last(), target)
    }
}

pub proof fn lemma_key_index(s: Seq<RoleView>, org_id: Seq<char>, name: Seq<char>)
    ensures
        -1 <= key_index(s, org_id, name) < s.len(),
        key_index(s, org_id, name) >= 0 ==> s[key_index(s, org_id, name)].org_id == org_id && s[key_index(
            s,
            org_id,
            name,
        )].name == name,
        key_index(s, org_id, name) == -1 ==> forall|i: int|
            0 <= i < s.len() ==> !(s[i].org_id == org_id && s[i].name == name),
    decreases s.len(),
{
    if s.len() > 0 && !(s.last().org_id == org_id && s.last().name == name) {
        lemma_key_index(s.drop_last(), org_id, name);
        assert forall|i: int| 0 <= i < s.len() - 1 implies s[i] == s.drop_last()[i] by {}
    }
}

/// The roles of one organization, taken from roles in key order, are in key order too, hence
/// in ascending order of name.
pub proof fn lemma_roles_of_org_ordered(s: Seq<RoleView>, org_id: Seq<char>)
    requires
        keys_ordered(s),
    ensures
        keys_ordered(roles_of_org(s, org_id)),
        forall|i: int|
            0 <= i < roles_of_org(s, org_id).len() ==> exists|j: int|
                0 <= j < s.len() && #[trigger] roles_of_org(s, org_id)[i] == s[j],
    decreases s.len(),
{
    if s.len() > 0 {
        let t = s.drop_last();
        assert(keys_ordered(t)) by {
            assert forall|i: int, j: int| 0 <= i < j < t.len() implies #[trigger] key_lt(t[i], t[j]) by {
                assert(key_lt(s[i], s[j]));
            }
        }
        lemma_roles_of_org_ordered(t, org_id);
        let f = roles_of_org(t, org_id);
        if s.last().org_id == org_id {
            let g = f.push(s.last());
            assert forall|i: int, j: int| 0 <= i < j < g.len() implies #[trigger] key_lt(g[i], g[j]) by {
                if j < f.len() {
                    assert(key_lt(f[i], f[j]));
                } else {
                    let k = choose|k: int| 0 <= k < t.len() && #[trigger] f[i] == t[k];
                    assert(key_lt(s[k], s[s.len() - 1]));
                }
            }
            assert forall|i: int| 0 <= i < g.len() implies exists|j: int|
                0 <= j < s.len() && #[trigger] g[i] == s[j] by {
                if i < f.len() {
                    let k = choose|k: int| 0 <= k < t.len() && #[trigger] f[i] == t[k];
                    assert(g[i] == s[k]);
                } else {
                    assert(g[i] == s[s.len() - 1]);
                }
            }
        } else {
            assert forall|i: int| 0 <= i < f.len() implies exists|j: int|
                0 <= j < s.len() && #[trigger] f[i] == s[j] by {
                let k = choose|k: int| 0 <= k < t.len() && #[trigger] f[i] == t[k];
                assert(f[i] == s[k]);
            }
        }
    }
}

/// A successful change keeps the keys in order.
pub proof fn lemma_step_keeps_order(s: Seq<RoleView>, c: &StateChange, commit_num: u64)
    requires
        keys_ordered(s),
        spec_step(s, c, commit_num) is Ok,
    ensures
        keys_ordered(spec_step(s, c, commit_num)->Ok_0),
{
    let t = spec_step(s, c, commit_num)->Ok_0;
    let k = key_index(s, c.role.org_id@, c.role.name@);
    let r = stamped(c.role@, commit_num);
    lemma_key_index(s, c.role.org_id@, c.role.name@);
    match c.op {
        Operation::Add => {
            assert(key_index(s, r.org_id, r.name) == -1);
            lemma_insert_pos(s, r);
            let p = insert_pos(s, r);
            assert(t =~= s.insert(p, r));
            assert forall|i: int, j: int| 0 <= i < j < t.len() implies #[trigger] key_lt(t[i], t[j]) by {
                if j < p {
                    assert(key_lt(s[i], s[j]));
                } else if j == p {
                    assert(key_lt(s[i], r));
                } else if i < p {
                    assert(key_lt(s[i], r));
                    assert(key_lt(r, s[j - 1]));
                    lemma_key_lt_transitive(s[i], r, s[j - 1]);
                } else if i == p {
                    assert(key_lt(r, s[j - 1]));
                } else {
                    assert(key_lt(s[i - 1], s[j - 1]));
                }
            }
        },
        Operation::Update => {
            assert forall|i: int, j: int| 0 <= i < j < t.len() implies #[trigger] key_lt(t[i], t[j]) by {
                assert(key_lt(s[i], s[j]));
            }
        },
        Operation::Delete => {
            assert forall|i: int, j: int| 0 <= i < j < t.len() implies #[trigger] key_lt(t[i], t[j]) by {
                let i2 = if i < k { i } else { i + 1 };
                let j2 = if j < k { j } else { j + 1 };
                assert(t[i] == s[i2] && t[j] == s[j2]);
                assert(key_lt(s[i2], s[j2]));
            }
        },
    }
}

/// The roles held for each scope. Mutation is reserved to the commit coordinator of this
/// crate; other callers can only query.
pub struct RoleStore {
    partitions: Vec<Scoped<Vec<Role>>>,
}

pub open spec fn roles_view(v: Vec<Role>) -> Seq<RoleView> {
    roles_view_seq(v@)
}

pub open spec fn roles_view_seq(v: Seq<Role>) -> Seq<RoleView> {
    v.map_values(|r: Role| r@)
}

impl RoleStore {
    /// The roles of scope `sid`, in ascending order of natural key.
    pub closed spec fn roles(&self, sid: Option<Seq<char>>) -> Seq<RoleView> {
        match data_of(self.partitions@, sid) {
            Some(v) => roles_view(v),
            None => Seq::empty(),
        }
    }

    pub closed spec fn wf(&self) -> bool {
        &&& scopes_unique(self.partitions@)
        &&& forall|sid: Option<Seq<char>>| #[trigger] keys_ordered(self.roles(sid))
    }

    /// The roles of each scope have unique natural keys.
    pub proof fn lemma_keys_ordered(&self, sid: Option<Seq<char>>)
        requires
            self.wf(),
        ensures
            keys_ordered(self.roles(sid)),
    {
    }

    /// A store without roles.
    pub fn new() -> (r: Self)
        ensures
            r.wf(),
            forall|sid: Option<Seq<char>>| #[trigger] r.roles(sid) == Seq::<RoleView>::empty(),
    {
        RoleStore { partitions: Vec::new() }
    }

    fn find_role(v: &Vec<Role>, org_id: &String, name: &String) -> (r: Option<usize>)
        ensures
            match r {
                Some(i) => i < v.len() && i as int == key_index(roles_view(*v), org_id@, name@),
                None => key_index(roles_view(*v), org_id@, name@) == -1,
            },
    {
        let ghost s = roles_view(*v);
        proof {
            lemma_key_index(s, org_id@, name@);
        }
        let mut i: usize = v.len();
        assert(s.take(i as int) =~= s);
        while i > 0
            invariant
                i <= v.len(),
                s == roles_view(*v),
                key_index(s, org_id@, name@) == key_index(s.take(i as int), org_id@, name@),
            decreases i,
        {
            let ghost t = s.take(i as int);
            if v[i - 1].org_id == *org_id && v[i - 1].name == *name {
                return Some(i - 1);
            }
            assert(t.drop_last() =~= s.take(i - 1));
            i = i - 1;
        }
        None
    }

    /// Where `r` goes among the roles `v` to keep their keys in order.
    fn insert_position(v: &Vec<Role>, r: &Role) -> (p: usize)
        ensures
            p as int == insert_pos(roles_view(*v), r@),
    {
        let ghost s = roles_view(*v);
        let mut i: usize = v.len();
        assert(s.take(i as int) =~= s);
        while i > 0
            invariant
                i <= v.len(),
                s == roles_view(*v),
                insert_pos(s, r@) == insert_pos(s.take(i as int), r@),
            decreases i,
        {
            let ghost t = s.take(i as int);
            let x = &v[i - 1];
            assert(t.last() == x@);
            let before = text_less(&x.org_id, &r.org_id) || (x.org_id == r.org_id && text_less(
                &x.name,
                &r.name,
            ));
            if before {
                return i;
            }
            assert(t.drop_last() =~= s.take(i - 1));
            i = i - 1;
        }
        0
    }

    /// The role `(org_id, name)` of scope `service_id`, if there is one. Only roles of that
    /// very scope are found.
    pub fn get(&self, service_id: &Option<String>, org_id: &String, name: &String) -> (r: Option<
        Role,
    >)
        requires
            self.wf(),
        ensures
            match r {
                Some(x) => spec_get(self.roles(scope_view(service_id)), org_id@, name@) == Some(x@),
                None => spec_get(self.roles(scope_view(service_id)), org_id@, name@) is None,
            },
    {
        match find_scope(&self.partitions, service_id) {
            None => None,
            Some(p) => {
                let v = &self.partitions[p].data;
                match Self::find_role(v, org_id, name) {
                    None => None,
                    Some(i) => Some(v[i].copy()),
                }
            },
        }
    }

    /// The page at `offset` of at most `limit` roles of organization `org_id` in scope
    /// `service_id`, in ascending order of name, with the number of such roles.
    pub fn list_for_org(
        &self,
        service_id: &Option<String>,
        org_id: &String,
        offset: usize,
        limit: usize,
    ) -> (r: Page<Role>)
        requires
            self.wf(),
        ensures
            r.items@.map_values(|x: Role| x@) == page_of(
                roles_of_org(self.roles(scope_view(service_id)), org_id@),
                offset as nat,
                limit as nat,
            ),
            keys_ordered(r.items@.map_values(|x: Role| x@)),
            r.total == roles_of_org(self.roles(scope_view(service_id)), org_id@).len(),
            r.offset == offset,
            r.limit == limit,
    {
        let ghost s = self.roles(scope_view(service_id));
        let mut matching: Vec<Role> = Vec::new();
        match find_scope(&self.partitions, service_id) {
            None => {
                assert(s =~= Seq::<RoleView>::empty());
            },
            Some(p) => {
                let v = &self.partitions[p].data;
                assert(s == roles_view(*v));
                let mut i: usize = 0;
                while i < v.len()
                    invariant
                        i <= v.len(),
                        s == roles_view(*v),
                        roles_view(matching) == roles_of_org(s.take(i as int), org_id@),
                    decreases v.len() - i,
                {
                    assert(s.take(i + 1).drop_last() =~= s.take(i as int));
                    if v[i].org_id == *org_id {
                        matching.push(v[i].copy());
                        assert(roles_view(matching) =~= roles_of_org(s.take(i as int), org_id@).push(s[i as int]));
                    }
                    i = i + 1;
                }
                assert(s.take(i as int) =~= s);
            },
        }
        let ghost all = roles_view(matching);
        let total = matching.len();
        let (start, end) = page_bounds(total, offset, limit);
        let mut items: Vec<Role> = Vec::new();
        let mut k: usize = start;
        while k < end
            invariant
                start <= k <= end <= total == matching.len(),
                all == roles_view(matching),
                roles_view(items) == all.subrange(start as int, k as int),
            decreases end - k,
        {
            assert(all[k as int] == matching@[k as int]@);
            let c = matching[k].copy();
            let ghost before = items@;
            items.push(c);
            assert(items@ == before.push(c));
            assert(roles_view(items) =~= roles_view_seq(before).push(c@));
            assert(roles_view(items) =~= all.subrange(start as int, k + 1));
            k = k + 1;
        }
        assert(roles_view(items) =~= page_of(all, offset as nat, limit as nat));
        proof {
            self.lemma_keys_ordered(scope_view(service_id));
            lemma_roles_of_org_ordered(s, org_id@);
            let pg = roles_view(items);
            assert forall|a: int, b: int| 0 <= a < b < pg.len() implies #[trigger] key_lt(pg[a], pg[b]) by {
                assert(pg[a] == all[start + a] && pg[b] == all[start + b]);
            }
        }
        Page { items, total, offset, limit }
    }

    /// The position of the partition of `sid`, made empty where there was none.
    fn partition_of(&mut self, sid: &Option<String>) -> (i: usize)
        requires
            old(self).wf(),
        ensures
            final(self).wf(),
            i < final(self).partitions@.len(),
            scope_view(&final(self).partitions@[i as int].service_id) == scope_view(sid),
            forall|s: Option<Seq<char>>| #[trigger] final(self).roles(s) == old(self).roles(s),
    {
        match find_scope(&self.partitions, sid) {
            Some(i) => {
                proof {
                    lemma_scope_index(self.partitions@, scope_view(sid));
                }
                i
            },
            None => {
                let entry = Scoped { service_id: copy_scope(sid), data: Vec::new() };
                proof {
                    lemma_data_of_push(self.partitions@, entry);
                    assert(roles_view(entry.data) =~= Seq::<RoleView>::empty());
                }
                self.partitions.push(entry);
                proof {
                    assert forall|s: Option<Seq<char>>| #[trigger] self.roles(s) == old(self).roles(s) by {}
                    assert forall|s: Option<Seq<char>>| #[trigger] keys_ordered(self.roles(s)) by {
                        assert(keys_ordered(old(self).roles(s)));
                    }
                }
                self.partitions.len() - 1
            },
        }
    }

    /// Puts `v` as the roles of the partition at `i`.
    fn put_partition(&mut self, i: usize, v: Vec<Role>)
        requires
            scopes_unique(old(self).partitions@),
            i < old(self).partitions@.len(),
        ensures
            scopes_unique(final(self).partitions@),
            final(self).roles(scope_view(&old(self).partitions@[i as int].service_id)) == roles_view(v),
            forall|s: Option<Seq<char>>|
                s != scope_view(&old(self).partitions@[i as int].service_id) ==> #[trigger] final(self).roles(s) == old(self).roles(s),
    {
        let ghost before = self.partitions@;
        swap_data(&mut self.partitions, i, v);
        proof {
            lemma_data_of_update(before, i as int, self.partitions@[i as int]);
        }
    }

    /// Applies one change to the roles of `service_id`, stamped with `commit_num`, and hands
    /// back its inverse. A failing change leaves the roles as they were.
    pub(crate) fn apply_change(&mut self, service_id: &Option<String>, c: StateChange, commit_num: u64) -> (r: Result<Undo, StoreError>)
        requires
            old(self).wf(),
        ensures
            final(self).wf(),
            match spec_step(old(self).roles(scope_view(service_id)), &c, commit_num) {
                Ok(t) => r is Ok && final(self).roles(scope_view(service_id)) == t && undo_fits(
                    t,
                    r->Ok_0,
                ) && undo_step(t, r->Ok_0) == old(self).roles(scope_view(service_id)),
                Err(e) => r == Err::<Undo, StoreError>(e) && final(self).roles(scope_view(service_id))
                    == old(self).roles(scope_view(service_id)),
            },
            forall|s: Option<Seq<char>>|
                s != scope_view(service_id) ==> #[trigger] final(self).roles(s) == old(self).roles(s),
    {
        let ghost sid = scope_view(service_id);
        let ghost s0 = self.roles(sid);
        let ghost c0 = c;
        let p = self.partition_of(service_id);
        assert(self.roles(sid) == s0);
        assert(data_of(self.partitions@, sid) == Some(self.partitions@[p as int].data)) by {
            crate::scope::lemma_scope_index_at(self.partitions@, p as int);
        }
        let ghost s1 = self.partitions@;
        let ghost st_a = *self;
        let mut v = swap_data(&mut self.partitions, p, Vec::new());
        let ghost st_b = *self;
        proof {
            lemma_data_of_update(s1, p as int, self.partitions@[p as int]);
            crate::scope::lemma_scope_index_at(s1, p as int);
            assert(roles_view(v) == s0);
            lemma_key_index(s0, c.role.org_id@, c.role.name@);
        }
        let found = Self::find_role(&v, &c.role.org_id, &c.role.name);
        let StateChange { op, role } = c;
        let fresh = Role {
            org_id: role.org_id,
            name: role.name,
            description: role.description,
            last_commit_num: commit_num,
        };
        assert(fresh@ == stamped(c0.role@, commit_num));
        let r = match op {
            Operation::Add => {
                match found {
                    Some(_) => Err(StoreError::Conflict),
                    None => {
                        let n = Self::insert_position(&v, &fresh);
                        proof {
                            lemma_insert_pos(s0, fresh@);
                        }
                        v.insert(n, fresh);
                        proof {
                            assert(roles_view(v) =~= s0.insert(n as int, fresh@));
                            assert(roles_view(v).remove(n as int) =~= s0);
                        }
                        Ok(Undo::Remove(n))
                    },
                }
            },
            Operation::Update => {
                match found {
                    None => Err(StoreError::NotFound),
                    Some(i) => {
                        let prev = v.remove(i);
                        v.insert(i, fresh);
                        proof {
                            assert(roles_view(v) =~= s0.update(i as int, fresh@));
                            assert(roles_view(v).update(i as int, prev@) =~= s0);
                        }
                        Ok(Undo::Restore(i, prev))
                    },
                }
            },
            Operation::Delete => {
                match found {
                    None => Err(StoreError::NotFound),
                    Some(i) => {
                        let prev = v.remove(i);
                        proof {
                            assert(roles_view(v) =~= s0.remove(i as int));
                            assert(roles_view(v).insert(i as int, prev@) =~= s0);
                        }
                        Ok(Undo::Reinsert(i, prev))
                    },
                }
            },
        };
        self.put_partition(p, v);
        proof {
            if r is Ok {
                lemma_step_keeps_order(s0, &c0, commit_num);
            }
            assert forall|s: Option<Seq<char>>| s != sid implies #[trigger] self.roles(s) == old(
                self,
            ).roles(s) by {
                assert(self.roles(s) == st_b.roles(s));
                assert(st_b.roles(s) == st_a.roles(s));
                assert(st_a.roles(s) == old(self).roles(s));
            }
            assert forall|s: Option<Seq<char>>| #[trigger] keys_ordered(self.roles(s)) by {
                assert(keys_ordered(old(self).roles(s)));
            }
        }
        r
    }

    /// Replays one undo entry on the roles of `service_id`.
    pub(crate) fn undo(&mut self, service_id: &Option<String>, u: Undo)
        requires
            old(self).wf(),
            undo_fits(old(self).roles(scope_view(service_id)), u),
            keys_ordered(undo_step(old(self).roles(scope_view(service_id)), u)),
        ensures
            final(self).wf(),
            final(self).roles(scope_view(service_id)) == undo_step(
                old(self).roles(scope_view(service_id)),
                u,
            ),
            forall|s: Option<Seq<char>>|
                s != scope_view(service_id) ==> #[trigger] final(self).roles(s) == old(self).roles(s),
    {
        let ghost sid = scope_view(service_id);
        let ghost s0 = self.roles(sid);
        let p = self.partition_of(service_id);
        assert(self.roles(sid) == s0);
        assert(data_of(self.partitions@, sid) == Some(self.partitions@[p as int].data)) by {
            crate::scope::lemma_scope_index_at(self.partitions@, p as int);
        }
        let ghost s1 = self.partitions@;
        let ghost st_a = *self;
        let mut v = swap_data(&mut self.partitions, p, Vec::new());
        let ghost st_b = *self;
        proof {
            lemma_data_of_update(s1, p as int, self.partitions@[p as int]);
            crate::scope::lemma_scope_index_at(s1, p as int);
            assert(roles_view(v) == s0);
        }
        match u {
            Undo::Remove(i) => {
                v.remove(i);
                assert(roles_view(v) =~= s0.remove(i as int));
            },
            Undo::Restore(i, r) => {
                v.remove(i);
                v.insert(i, r);
                assert(roles_view(v) =~= s0.update(i as int, r@));
            },
            Undo::Reinsert(i, r) => {
                v.insert(i, r);
                assert(roles_view(v) =~= s0.insert(i as int, r@));
            },
        }
        self.put_partition(p, v);
        proof {
            assert forall|s: Option<Seq<char>>| s != sid implies #[trigger] self.roles(s) == old(
                self,
            ).roles(s) by {
                assert(self.roles(s) == st_b.roles(s));
                assert(st_b.roles(s) == st_a.roles(s));
                assert(st_a.roles(s) == old(self).roles(s));
            }
            assert forall|s: Option<Seq<char>>| #[trigger] keys_ordered(self.roles(s)) by {
                assert(keys_ordered(old(self).roles(s)));
            }
        }
    }
}

} // verus!
