//! Adding tasks to a queue.

use vstd::prelude::*;

use crate::error::{Fault, QueueError};
use crate::store::{Batch, BatchView, OpView};
use crate::task;
use crate::task::{encode_key, Task, TaskView};
use crate::tenant;
use crate::tenant::{Families, RegistryView, TenantRegistry};

verus! {

/// The ids of new tasks, and the write that stores them.
#[derive(Debug)]
pub struct Enqueued {
    pub ids: Vec<String>,
    pub batch: Batch,
}

/// A lower-case hexadecimal digit.
pub open spec fn hex_digit(c: char) -> bool {
    ('0' <= c && c <= '9') || ('a' <= c && c <= 'f')
}

/// The form of a random task id: groups of eight, four, four, four and twelve
/// hexadecimal digits with hyphens between them, of version 4 and of the usual
/// variant.
pub open spec fn task_id_form(s: Seq<char>) -> bool {
    &&& s.len() == 36
    &&& s[14] == '4'
    &&& s[19] == '8' || s[19] == '9' || s[19] == 'a' || s[19] == 'b'
    &&& forall|i: int|
        0 <= i < 36 ==> if i == 8 || i == 13 || i == 18 || i == 23 {
            #[trigger] s[i] == '-'
        } else {
            hex_digit(s[i])
        }
}

/// `Uuid::new_v4` in its text form: a random id of the stated form.
#[verifier::external_body]
fn new_task_id() -> (r: String)
    ensures
        task_id_form(r@),
{
    uuid::Uuid::new_v4().to_string()
}

/// The `i`-th number from `first` on; numbers wrap around.
pub open spec fn nth_seq(first: u64, i: int) -> u64 {
    ((first + i) % 0x1_0000_0000_0000_0000) as u64
}

/// The number after the `i`-th is the one after that.
pub proof fn lemma_nth_seq_step(first: u64, i: int)
    requires
        0 <= i,
    ensures
        nth_seq(first, i).wrapping_add(1) == nth_seq(first, i + 1),
        nth_seq(first, 0) == first,
{
}

/// A task as it is enqueued.
pub open spec fn fresh_task(
    id: Seq<char>,
    queue: Seq<char>,
    payload: Seq<u8>,
    now: u64,
) -> TaskView {
    TaskView { id, queue, payload, enqueued_at: now, attempts: 0, deadline: 0 }
}

/// The write for the `i`-th of the new tasks.
pub open spec fn enqueue_op(
    tenant: Seq<char>,
    queue: Seq<char>,
    ids: Seq<Seq<char>>,
    payloads: Seq<Seq<u8>>,
    first: u64,
    now: u64,
    i: int,
) -> OpView {
    OpView::Put {
        cf: tenant::pending_name(tenant),
        key: task::key_code(queue, nth_seq(first, i)),
        value: task::task_code(fresh_task(ids[i], queue, payloads[i], now)),
    }
}

/// The writes for new tasks: each payload in a task of its own, in their
/// order, under consecutive numbers.
pub open spec fn enqueue_ops(
    tenant: Seq<char>,
    queue: Seq<char>,
    ids: Seq<Seq<char>>,
    payloads: Seq<Seq<u8>>,
    first: u64,
    now: u64,
) -> Seq<OpView> {
    Seq::new(
        payloads.len(),
        |i: int| enqueue_op(tenant, queue, ids, payloads, first, now, i),
    )
}

/// Strings as mathematical values.
pub open spec fn texts(v: Seq<String>) -> Seq<Seq<char>> {
    v.map_values(|s: String| s@)
}

/// Byte strings as mathematical values.
pub open spec fn byte_strings(v: Seq<Vec<u8>>) -> Seq<Seq<u8>> {
    v.map_values(|b: Vec<u8>| b@)
}

/// Tasks were added: there is an id for each, of the form that ids have, they are
/// written together under the next numbers, and nothing else of the registry
/// changes. That no id comes twice rests on chance.
pub open spec fn appended(
    before: RegistryView,
    after: RegistryView,
    tenant: Seq<char>,
    queue: Seq<char>,
    payloads: Seq<Seq<u8>>,
    now: u64,
    added: Enqueued,
) -> bool {
    &&& added.ids@.len() == payloads.len()
    &&& forall|i: int|
        0 <= i < added.ids@.len() ==> task_id_form(#[trigger] texts(added.ids@)[i])
    &&& added.batch@ == (BatchView {
        ops: enqueue_ops(tenant, queue, texts(added.ids@), payloads, before.seq, now),
        sync: false,
    })
    &&& after == (RegistryView { seq: nth_seq(before.seq, payloads.len() as int), ..before })
}

impl TenantRegistry {
    /// Adds tasks to the end of a queue, one for each payload, and gives their
    /// ids. What was stored depends on the ids, which are random; all else is
    /// fixed.
    pub fn append_batch(
        &mut self,
        tenant: &str,
        queue: &str,
        payloads: &Vec<Vec<u8>>,
        fam: &Families,
        now: u64,
    ) -> (r: Result<Enqueued, QueueError>)
        ensures
            old(self).wf() ==> final(self).wf(),
            match r {
                Ok(added) => fam.pending && appended(
                    old(self)@,
                    final(self)@,
                    tenant@,
                    queue@,
                    byte_strings(payloads@),
                    now,
                    added,
                ),
                Err(e) => {
                    &&& !fam.pending
                    &&& e@ == Fault::ColumnFamilyMissing(tenant::pending_name(tenant@))
                    &&& final(self)@ == old(self)@
                },
            },
    {
        let mut ids: Vec<String> = Vec::new();
        let n: usize = payloads.len();
        let mut i: usize = 0;
        while i < n
            invariant
                0 <= i <= n,
                ids@.len() == i,
                forall|j: int| 0 <= j < i ==> task_id_form(#[trigger] texts(ids@)[j]),
            decreases n - i,
        {
            let ghost before = texts(ids@);
            let id = new_task_id();
            ids.push(id);
            assert(texts(ids@) =~= before.push(id@));
            assert forall|j: int| 0 <= j < i + 1 implies task_id_form(
                #[trigger] texts(ids@)[j],
            ) by {
                if j < i {
                    assert(texts(ids@)[j] == before[j]);
                }
            }
            i = i + 1;
        }
        match self.enqueue_with_ids(tenant, queue, &ids, payloads, fam, now) {
            Ok(batch) => Ok(Enqueued { ids, batch }),
            Err(e) => Err(e),
        }
    }

    /// Adds tasks with the given ids to a queue.
    pub fn enqueue_with_ids(
        &mut self,
        tenant: &str,
        queue: &str,
        ids: &Vec<String>,
        payloads: &Vec<Vec<u8>>,
        fam: &Families,
        now: u64,
    ) -> (r: Result<Batch, QueueError>)
        requires
            ids@.len() == payloads@.len(),
        ensures
            old(self).wf() ==> final(self).wf(),
            match r {
                Ok(batch) => {
                    &&& fam.pending
                    &&& batch@ == (BatchView {
                        ops: enqueue_ops(
                            tenant@,
                            queue@,
                            texts(ids@),
                            byte_strings(payloads@),
                            old(self)@.seq,
                            now,
                        ),
                        sync: false,
                    })
                    &&& final(self)@ == (RegistryView {
                        seq: nth_seq(old(self)@.seq, payloads@.len() as int),
                        ..old(self)@
                    })
                },
                Err(e) => {
                    &&& !fam.pending
                    &&& e@ == Fault::ColumnFamilyMissing(tenant::pending_name(tenant@))
                    &&& final(self)@ == old(self)@
                },
            },
    {
        let pending = match fam.pending_cf(tenant) {
            Ok(name) => name,
            Err(e) => return Err(e),
        };
        let ghost first = self@.seq;
        let ghost want = enqueue_ops(
            tenant@,
            queue@,
            texts(ids@),
            byte_strings(payloads@),
            first,
            now,
        );
        let mut batch = Batch::hot();
        let n: usize = payloads.len();
        let mut i: usize = 0;
        assert(want.take(0) =~= Seq::<OpView>::empty());
        while i < n
            invariant
                0 <= i <= n,
                n == payloads@.len(),
                n == ids@.len(),
                want == enqueue_ops(
                    tenant@,
                    queue@,
                    texts(ids@),
                    byte_strings(payloads@),
                    first,
                    now,
                ),
                pending@ == tenant::pending_name(tenant@),
                old(self).wf() ==> self.wf(),
                self@ == (RegistryView { seq: nth_seq(first, i as int), ..old(self)@ }),
                batch@ == (BatchView { ops: want.take(i as int), sync: false }),
            decreases n - i,
        {
            let seq: u64 = self.next_seq();
            let task = Task {
                id: ids[i].clone(),
                queue: queue.to_owned(),
                payload: payloads[i].clone(),
                enqueued_at: now,
                attempts: 0,
                deadline: 0,
            };
            let key = encode_key(queue, seq);
            let value = match task.serialize() {
                Ok(v) => v,
                Err(e) => return Err(e),
            };
            assert(task@ =~= fresh_task(texts(ids@)[i as int], queue@, byte_strings(payloads@)[i as int], now));
            batch.put(pending.as_str(), key.as_slice(), value);
            assert(want.take(i + 1) =~= want.take(i as int).push(want[i as int]));
            i = i + 1;
        }
        assert(want.take(n as int) =~= want);
        Ok(batch)
    }
}

} // verus!
