use vstd::prelude::*;

verus! {

/// The service scope that incoming requests are validated against.
#[derive(Clone, Copy, Debug, PartialEq, Eq, Structural)]
pub enum Scope {
    Global,
    Service,
}

/// The abstract value of a service id: `None` is Global scope.
pub open spec fn scope_view(sid: &Option<String>) -> Option<Seq<char>> {
    match sid {
        Some(s) => Some(s@),
        None => None,
    }
}

/// The scope that a request addresses, given whether it named a service id.
pub fn scope_of(sid: &Option<String>) -> (r: Scope)
    ensures
        r == (if sid.is_some() { Scope::Service } else { Scope::Global }),
{
    match sid {
        Some(_) => Scope::Service,
        None => Scope::Global,
    }
}

/// Whether two service ids name the same scope.
pub fn same_scope(a: &Option<String>, b: &Option<String>) -> (r: bool)
    ensures
        r == (scope_view(a) == scope_view(b)),
{
    match (a, b) {
        (Some(x), Some(y)) => {
            let e = x.eq(y);
            proof {
                if e {
                    assert(scope_view(a) == scope_view(b));
                }
            }
            e
        },
        (None, None) => true,
        _ => false,
    }
}

/// A copy of a service id.
pub fn copy_scope(sid: &Option<String>) -> (r: Option<String>)
    ensures
        scope_view(&r) == scope_view(sid),
{
    match sid {
        Some(s) => Some(s.clone()),
        None => None,
    }
}

/// Data of one kind held for one service scope.
pub struct Scoped<T> {
    pub service_id: Option<String>,
    pub data: T,
}

/// The position of the entry for `sid` in `s`, or -1 where there is none.
pub open spec fn scope_index<T>(s: Seq<Scoped<T>>, sid: Option<Seq<char>>) -> int
    decreases s.len(),
{
    if s.len() == 0 {
        -1
    } else if scope_view(&s.last().service_id) == sid {
        s.len() - 1
    } else {
        scope_index(s.drop_last(), sid)
    }
}

/// No two entries hold the same scope.
pub open spec fn scopes_unique<T>(s: Seq<Scoped<T>>) -> bool {
    forall|i: int, j: int|
        0 <= i < s.len() && 0 <= j < s.len() && i != j ==> scope_view(&s[i].service_id)
            != scope_view(&s[j].service_id)
}

pub proof fn lemma_scope_index<T>(s: Seq<Scoped<T>>, sid: Option<Seq<char>>)
    ensures
        -1 <= scope_index(s, sid) < s.len(),
        scope_index(s, sid) >= 0 ==> scope_view(&s[scope_index(s, sid)].service_id) == sid,
        scope_index(s, sid) == -1 ==> forall|i: int|
            0 <= i < s.len() ==> scope_view(&s[i].service_id) != sid,
    decreases s.len(),
{
    if s.len() > 0 && scope_view(&s.last().service_id) != sid {
        lemma_scope_index(s.drop_last(), sid);
        assert forall|i: int| 0 <= i < s.len() - 1 implies s[i] == s.drop_last()[i] by {}
    }
}

/// With unique scopes, the entry at `k` is the one that `scope_index` finds.
pub proof fn lemma_scope_index_at<T>(s: Seq<Scoped<T>>, k: int)
    requires
        scopes_unique(s),
        0 <= k < s.len(),
    ensures
        scope_index(s, scope_view(&s[k].service_id)) == k,
{
    lemma_scope_index(s, scope_view(&s[k].service_id));
}

/// Finds the entry for `sid`.
pub fn find_scope<T>(v: &Vec<Scoped<T>>, sid: &Option<String>) -> (r: Option<usize>)
    ensures
        match r {
            Some(i) => i < v@.len() && i as int == scope_index(v@, scope_view(sid)),
            None => scope_index(v@, scope_view(sid)) == -1,
        },
{
    proof {
        lemma_scope_index(v@, scope_view(sid));
    }
    let mut i: usize = v.len();
    assert(v@.take(i as int) =~= v@);
    while i > 0
        invariant
            i <= v.len(),
            scope_index(v@, scope_view(sid)) == scope_index(v@.take(i as int), scope_view(sid)),
        decreases i,
    {
        let ghost t = v@.take(i as int);
        if same_scope(&v[i - 1].service_id, sid) {
            return Some(i - 1);
        }
        assert(t.drop_last() =~= v@.take(i - 1));
        i = i - 1;
    }
    None
}

} // verus!

verus! {

/// The data held for `sid`, if any.
pub open spec fn data_of<T>(s: Seq<Scoped<T>>, sid: Option<Seq<char>>) -> Option<T> {
    let i = scope_index(s, sid);
    if i >= 0 {
        Some(s[i].data)
    } else {
        None
    }
}

proof fn lemma_scope_index_update<T>(s: Seq<Scoped<T>>, i: int, x: Scoped<T>, sid: Option<Seq<char>>)
    requires
        0 <= i < s.len(),
        scope_view(&x.service_id) == scope_view(&s[i].service_id),
    ensures
        scope_index(s.update(i, x), sid) == scope_index(s, sid),
    decreases s.len(),
{
    let u = s.update(i, x);
    if i < s.len() - 1 {
        assert(u.last() == s.last());
        if scope_view(&s.last().service_id) != sid {
            assert(u.drop_last() =~= s.drop_last().update(i, x));
            lemma_scope_index_update(s.drop_last(), i, x, sid);
        }
    } else {
        assert(u.drop_last() =~= s.drop_last());
    }
}

/// Replacing the data of one entry changes what is held for its scope and nothing else.
pub proof fn lemma_data_of_update<T>(s: Seq<Scoped<T>>, i: int, x: Scoped<T>)
    requires
        0 <= i < s.len(),
        scopes_unique(s),
        scope_view(&x.service_id) == scope_view(&s[i].service_id),
    ensures
        scopes_unique(s.update(i, x)),
        forall|sid: Option<Seq<char>>|
            #![auto]
            data_of(s.update(i, x), sid) == if sid == scope_view(&s[i].service_id) {
                Some(x.data)
            } else {
                data_of(s, sid)
            },
{
    let u = s.update(i, x);
    assert forall|sid: Option<Seq<char>>|
        #![auto]
        data_of(u, sid) == if sid == scope_view(&s[i].service_id) {
            Some(x.data)
        } else {
            data_of(s, sid)
        } by {
        lemma_scope_index_update(s, i, x, sid);
        lemma_scope_index(s, sid);
        lemma_scope_index_at(s, i);
    }
}

/// Appending an entry for a new scope adds what is held for it and changes nothing else.
pub proof fn lemma_data_of_push<T>(s: Seq<Scoped<T>>, x: Scoped<T>)
    requires
        scopes_unique(s),
        scope_index(s, scope_view(&x.service_id)) == -1,
    ensures
        scopes_unique(s.push(x)),
        forall|sid: Option<Seq<char>>|
            #![auto]
            data_of(s.push(x), sid) == if sid == scope_view(&x.service_id) {
                Some(x.data)
            } else {
                data_of(s, sid)
            },
{
    let u = s.push(x);
    lemma_scope_index(s, scope_view(&x.service_id));
    assert(u.drop_last() =~= s);
    assert forall|sid: Option<Seq<char>>|
        #![auto]
        data_of(u, sid) == if sid == scope_view(&x.service_id) {
            Some(x.data)
        } else {
            data_of(s, sid)
        } by {
        lemma_scope_index(s, sid);
    }
}

/// Puts `data` in the entry at `i` and hands back what it held.
pub fn swap_data<T>(v: &mut Vec<Scoped<T>>, i: usize, data: T) -> (r: T)
    requires
        i < old(v).len(),
    ensures
        r == old(v)@[i as int].data,
        final(v)@.len() == old(v)@.len(),
        final(v)@[i as int].service_id == old(v)@[i as int].service_id,
        final(v)@ == old(v)@.update(i as int, final(v)@[i as int]),
        final(v)@[i as int].data == data,
{
    let e = v.remove(i);
    let Scoped { service_id, data: held } = e;
    v.insert(i, Scoped { service_id, data });
    proof {
        assert(v@ =~= old(v)@.update(i as int, v@[i as int]));
    }
    held
}

} // verus!
