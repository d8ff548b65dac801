use vstd::prelude::*;

verus! {

/// One page of a listing: the items, how many there are in all, and the window asked for.
pub struct Page<T> {
    pub items: Vec<T>,
    pub total: usize,
    pub offset: usize,
    pub limit: usize,
}

/// The items of `s` at positions `offset .. offset + limit` that exist.
pub open spec fn page_of<A>(s: Seq<A>, offset: nat, limit: nat) -> Seq<A> {
    if offset >= s.len() {
        Seq::empty()
    } else if offset + limit >= s.len() {
        s.subrange(offset as int, s.len() as int)
    } else {
        s.subrange(offset as int, (offset + limit) as int)
    }
}

/// The pages of `s` from `offset` on, each of `limit` items, joined in order.
pub open spec fn pages_from<A>(s: Seq<A>, offset: nat, limit: nat) -> Seq<A>
    decreases s.len() - offset,
{
    if offset >= s.len() || limit == 0 {
        Seq::empty()
    } else if offset + limit >= s.len() {
        page_of(s, offset, limit)
    } else {
        page_of(s, offset, limit) + pages_from(s, offset + limit, limit)
    }
}

proof fn lemma_pages_from<A>(s: Seq<A>, offset: nat, limit: nat)
    requires
        limit > 0,
        offset <= s.len(),
    ensures
        pages_from(s, offset, limit) == s.subrange(offset as int, s.len() as int),
    decreases s.len() - offset,
{
    if offset >= s.len() {
        assert(s.subrange(offset as int, s.len() as int) =~= Seq::<A>::empty());
    } else if offset + limit >= s.len() {
    } else {
        lemma_pages_from(s, offset + limit, limit);
        assert(s.subrange(offset as int, (offset + limit) as int) + s.subrange(
            (offset + limit) as int,
            s.len() as int,
        ) =~= s.subrange(offset as int, s.len() as int));
    }
}

/// Reading a listing page by page, from offset 0 in steps of `limit`, yields every item
/// exactly once and in the listing's order: the pages joined are the whole listing.
pub proof fn lemma_pagination_complete<A>(s: Seq<A>, limit: nat)
    requires
        limit > 0,
    ensures
        pages_from(s, 0, limit) == s,
{
    lemma_pages_from(s, 0, limit);
    assert(s.subrange(0, s.len() as int) =~= s);
}

/// The window of a listing of `total` items that a page at `offset` of `limit` items covers.
pub fn page_bounds(total: usize, offset: usize, limit: usize) -> (r: (usize, usize))
    ensures
        r.0 <= r.1 <= total,
        offset >= total ==> r.0 == r.1,
        offset < total ==> r.0 == offset && r.1 == (if offset + limit >= total {
            total as int
        } else {
            offset + limit
        }),
{
    if offset >= total {
        (total, total)
    } else if limit >= total - offset {
        (offset, total)
    } else {
        (offset, offset + limit)
    }
}

} // verus!
