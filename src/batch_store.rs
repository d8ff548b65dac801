use vstd::prelude::*;

use crate::error::StoreError;

verus! {

/// Where a submitted batch stands on the ledger.
#[derive(Clone, Copy, Debug, PartialEq, Eq, Structural)]
pub enum BatchStatus {
    Pending,
    Valid,
    Committed,
    Invalid,
    Unknown,
}

/// A transaction batch submitted by a client.
pub struct Batch {
    pub batch_id: String,
    pub header_signature: String,
    pub submitter: String,
    pub submitted_at: u64,
    pub status: BatchStatus,
}

/// The abstract value of a batch.
pub struct BatchView {
    pub batch_id: Seq<char>,
    pub header_signature: Seq<char>,
    pub submitter: Seq<char>,
    pub submitted_at: nat,
    pub status: BatchStatus,
}

impl View for Batch {
    type V = BatchView;

    open spec fn view(&self) -> BatchView {
        BatchView {
            batch_id: self.batch_id@,
            header_signature: self.header_signature@,
            submitter: self.submitter@,
            submitted_at: self.submitted_at as nat,
            status: self.status,
        }
    }
}

/// Committed and Invalid are final.
pub open spec fn is_terminal(s: BatchStatus) -> bool {
    s == BatchStatus::Committed || s == BatchStatus::Invalid
}

/// The status changes that a batch may go through: the ledger accepts a pending batch
/// (Valid) or rejects it (Invalid); a valid batch is committed; any status may become Unknown
/// when the ledger cannot be asked, and Unknown may become any definite status again. Staying
/// in the same status is allowed.
pub open spec fn transition_allowed(from: BatchStatus, to: BatchStatus) -> bool {
    ||| from == to
    ||| to == BatchStatus::Unknown
    ||| from == BatchStatus::Unknown
    ||| (from == BatchStatus::Pending && (to == BatchStatus::Valid || to == BatchStatus::Invalid))
    ||| (from == BatchStatus::Valid && to == BatchStatus::Committed)
}

/// Whether `from` may change to `to`.
pub fn may_transition(from: BatchStatus, to: BatchStatus) -> (r: bool)
    ensures
        r == transition_allowed(from, to),
{
    if from == to {
        return true;
    }
    match (from, to) {
        (_, BatchStatus::Unknown) => true,
        (BatchStatus::Unknown, _) => true,
        (BatchStatus::Pending, BatchStatus::Valid) => true,
        (BatchStatus::Pending, BatchStatus::Invalid) => true,
        (BatchStatus::Valid, BatchStatus::Committed) => true,
        _ => false,
    }
}

/// The position of the batch with id `id` in `s`, or -1 where there is none.
pub open spec fn batch_index(s: Seq<BatchView>, id: Seq<char>) -> int
    decreases s.len(),
{
    if s.len() == 0 {
        -1
    } else if s.last().batch_id == id {
        s.len() - 1
    } else {
        batch_index(s.drop_last(), id)
    }
}

/// No two batches share an id.
pub open spec fn ids_unique(s: Seq<BatchView>) -> bool {
    forall|i: int, j: int|
        0 <= i < s.len() && 0 <= j < s.len() && i != j ==> s[i].batch_id != s[j].batch_id
}

/// What submitting `b` does: a new id is stored, starting at Pending whatever status `b`
/// carries; an id already held with the same signature changes nothing; with another
/// signature it is a `Conflict`.
pub open spec fn spec_submit(s: Seq<BatchView>, b: BatchView) -> Result<Seq<BatchView>, StoreError> {
    let i = batch_index(s, b.batch_id);
    if i < 0 {
        Ok(s.push(BatchView { status: BatchStatus::Pending, ..b }))
    } else if s[i].header_signature == b.header_signature {
        Ok(s)
    } else {
        Err(StoreError::Conflict)
    }
}

/// What setting the status of batch `id` to `status` does.
pub open spec fn spec_update_status(s: Seq<BatchView>, id: Seq<char>, status: BatchStatus) -> Result<
    Seq<BatchView>,
    StoreError,
> {
    let i = batch_index(s, id);
    if i < 0 {
        Err(StoreError::NotFound)
    } else if !transition_allowed(s[i].status, status) {
        Err(StoreError::InvalidState)
    } else {
        Ok(s.update(i, BatchView { status, ..s[i] }))
    }
}

/// The status of batch `id`.
pub open spec fn spec_get_status(s: Seq<BatchView>, id: Seq<char>) -> Result<BatchStatus, StoreError> {
    let i = batch_index(s, id);
    if i < 0 {
        Err(StoreError::NotFound)
    } else {
        Ok(s[i].status)
    }
}

pub proof fn lemma_batch_index(s: Seq<BatchView>, id: Seq<char>)
    ensures
        -1 <= batch_index(s, id) < s.len(),
        batch_index(s, id) >= 0 ==> s[batch_index(s, id)].batch_id == id,
        batch_index(s, id) == -1 ==> forall|i: int| 0 <= i < s.len() ==> s[i].batch_id != id,
    decreases s.len(),
{
    if s.len() > 0 && s.last().batch_id != id {
        lemma_batch_index(s.drop_last(), id);
        assert forall|i: int| 0 <= i < s.len() - 1 implies s[i] == s.drop_last()[i] by {}
    }
}

/// Tracks submitted batches by id.
pub struct BatchStore {
    batches: Vec<Batch>,
}

impl BatchStore {
    pub closed spec fn view(&self) -> Seq<BatchView> {
        self.batches@.map_values(|b: Batch| b@)
    }

    pub closed spec fn wf(&self) -> bool {
        ids_unique(self.view())
    }

    /// A store without batches.
    pub fn new() -> (r: Self)
        ensures
            r.wf(),
            r.view() == Seq::<BatchView>::empty(),
    {
        let r = BatchStore { batches: Vec::new() };
        assert(r.view() =~= Seq::<BatchView>::empty());
        r
    }

    fn find(&self, id: &String) -> (r: Option<usize>)
        ensures
            match r {
                Some(i) => i < self.batches.len() && i as int == batch_index(self.view(), id@),
                None => batch_index(self.view(), id@) == -1,
            },
    {
        let ghost s = self.view();
        proof {
            lemma_batch_index(s, id@);
        }
        let mut i: usize = self.batches.len();
        assert(s.take(i as int) =~= s);
        while i > 0
            invariant
                i <= self.batches.len(),
                s == self.view(),
                batch_index(s, id@) == batch_index(s.take(i as int), id@),
            decreases i,
        {
            let ghost t = s.take(i as int);
            if self.batches[i - 1].batch_id == *id {
                return Some(i - 1);
            }
            assert(t.drop_last() =~= s.take(i - 1));
            i = i - 1;
        }
        None
    }

    /// Records a submitted batch; a new batch starts at Pending. Resubmitting an id with the same signature changes nothing
    /// and succeeds; with another signature it fails with `Conflict`.
    pub fn submit(&mut self, batch: Batch) -> (r: Result<(), StoreError>)
        requires
            old(self).wf(),
        ensures
            final(self).wf(),
            match spec_submit(old(self).view(), batch@) {
                Ok(s) => r is Ok && final(self).view() == s,
                Err(e) => r == Err::<(), StoreError>(e) && final(self).view() == old(self).view(),
            },
    {
        let ghost s = self.view();
        proof {
            lemma_batch_index(s, batch@.batch_id);
        }
        match self.find(&batch.batch_id) {
            Some(i) => {
                if self.batches[i].header_signature == batch.header_signature {
                    Ok(())
                } else {
                    Err(StoreError::Conflict)
                }
            },
            None => {
                let ghost b = batch@;
                let Batch { batch_id, header_signature, submitter, submitted_at, status: _ } = batch;
                let fresh = Batch {
                    batch_id,
                    header_signature,
                    submitter,
                    submitted_at,
                    status: BatchStatus::Pending,
                };
                self.batches.push(fresh);
                assert(self.view() =~= s.push(BatchView { status: BatchStatus::Pending, ..b }));
                Ok(())
            },
        }
    }

    /// Sets the status of batch `batch_id`: `NotFound` where no such batch was submitted,
    /// `InvalidState` where the change is not allowed.
    pub fn update_status(&mut self, batch_id: &String, status: BatchStatus) -> (r: Result<(), StoreError>)
        requires
            old(self).wf(),
        ensures
            final(self).wf(),
            match spec_update_status(old(self).view(), batch_id@, status) {
                Ok(s) => r is Ok && final(self).view() == s,
                Err(e) => r == Err::<(), StoreError>(e) && final(self).view() == old(self).view(),
            },
    {
        let ghost s = self.view();
        proof {
            lemma_batch_index(s, batch_id@);
        }
        match self.find(batch_id) {
            None => Err(StoreError::NotFound),
            Some(i) => {
                if !may_transition(self.batches[i].status, status) {
                    return Err(StoreError::InvalidState);
                }
                let old_batch = self.batches.remove(i);
                let Batch { batch_id: id, header_signature, submitter, submitted_at, status: _ } =
                    old_batch;
                self.batches.insert(
                    i,
                    Batch { batch_id: id, header_signature, submitter, submitted_at, status },
                );
                assert(self.view() =~= s.update(i as int, BatchView { status, ..s[i as int] }));
                Ok(())
            },
        }
    }

    /// The status of batch `batch_id`, or `NotFound`.
    pub fn get_status(&self, batch_id: &String) -> (r: Result<BatchStatus, StoreError>)
        requires
            self.wf(),
        ensures
            r == spec_get_status(self.view(), batch_id@),
    {
        match self.find(batch_id) {
            None => Err(StoreError::NotFound),
            Some(i) => Ok(self.batches[i].status),
        }
    }
}

} // verus!
