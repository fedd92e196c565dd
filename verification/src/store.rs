//! What is read from the store and what is written to it.
//!
//! The store holds column families, each an ordered map from keys to values.
//! Decisions are made on what was read; their outcome is a batch of writes
//! that takes effect as a whole.

use vstd::prelude::*;
use vstd::slice::*;

use crate::keys;

verus! {

/// A change of one entry of a column family.
#[derive(Debug)]
pub enum WriteOp {
    Put { cf: String, key: Vec<u8>, value: Vec<u8> },
    Delete { cf: String, key: Vec<u8> },
}

/// A change as a mathematical value.
pub enum OpView {
    Put { cf: Seq<char>, key: Seq<u8>, value: Seq<u8> },
    Delete { cf: Seq<char>, key: Seq<u8> },
}

impl View for WriteOp {
    type V = OpView;

    open spec fn view(&self) -> OpView {
        match self {
            WriteOp::Put { cf, key, value } => OpView::Put { cf: cf@, key: key@, value: value@ },
            WriteOp::Delete { cf, key } => OpView::Delete { cf: cf@, key: key@ },
        }
    }
}

/// Changes that take effect together, and whether the write waits until they
/// are on disk.
#[derive(Debug)]
pub struct Batch {
    pub ops: Vec<WriteOp>,
    pub sync: bool,
}

/// A batch as a mathematical value.
#[verifier::ext_equal]
pub struct BatchView {
    pub ops: Seq<OpView>,
    pub sync: bool,
}

impl View for Batch {
    type V = BatchView;

    open spec fn view(&self) -> BatchView {
        BatchView { ops: self.ops@.map_values(|o: WriteOp| o@), sync: self.sync }
    }
}

impl Batch {
    /// A batch of the queue's traffic: it is logged, and not waited for.
    pub fn hot() -> (r: Batch)
        ensures
            r@ == (BatchView { ops: Seq::empty(), sync: false }),
    {
        let r = Batch { ops: Vec::new(), sync: false };
        assert(r@.ops =~= Seq::<OpView>::empty());
        r
    }

    /// A batch of an administrative change: it is on disk before it is done.
    pub fn admin() -> (r: Batch)
        ensures
            r@ == (BatchView { ops: Seq::empty(), sync: true }),
    {
        let r = Batch { ops: Vec::new(), sync: true };
        assert(r@.ops =~= Seq::<OpView>::empty());
        r
    }

    /// Adds the setting of a key.
    pub fn put(&mut self, cf: &str, key: &[u8], value: Vec<u8>)
        ensures
            final(self)@ == (BatchView {
                ops: old(self)@.ops.push(OpView::Put { cf: cf@, key: key@, value: value@ }),
                sync: old(self)@.sync,
            }),
    {
        let op = WriteOp::Put { cf: cf.to_owned(), key: slice_to_vec(key), value };
        self.ops.push(op);
        assert(self@.ops =~= old(self)@.ops.push(op@));
    }

    /// Adds the removal of a key.
    pub fn delete(&mut self, cf: &str, key: &[u8])
        ensures
            final(self)@ == (BatchView {
                ops: old(self)@.ops.push(OpView::Delete { cf: cf@, key: key@ }),
                sync: old(self)@.sync,
            }),
    {
        let op = WriteOp::Delete { cf: cf.to_owned(), key: slice_to_vec(key) };
        self.ops.push(op);
        assert(self@.ops =~= old(self)@.ops.push(op@));
    }

    /// The batch, if it changes anything.
    pub fn if_any(self) -> (r: Option<Batch>)
        ensures
            batch_view(r) == write_if_any(self@.ops, self@.sync),
    {
        if self.ops.len() == 0 {
            None
        } else {
            Some(self)
        }
    }
}

/// An optional batch as a mathematical value.
pub open spec fn batch_view(b: Option<Batch>) -> Option<BatchView> {
    match b {
        None => None,
        Some(b) => Some(b@),
    }
}

/// The batch of the given changes; none where there are none.
pub open spec fn write_if_any(ops: Seq<OpView>, sync: bool) -> Option<BatchView> {
    if ops.len() == 0 {
        None
    } else {
        Some(BatchView { ops, sync })
    }
}

/// An entry that was read.
#[derive(Debug)]
pub struct Record {
    pub key: Vec<u8>,
    pub value: Vec<u8>,
}

/// An entry as a mathematical value.
#[verifier::ext_equal]
pub struct RecordView {
    pub key: Seq<u8>,
    pub value: Seq<u8>,
}

impl View for Record {
    type V = RecordView;

    open spec fn view(&self) -> RecordView {
        RecordView { key: self.key@, value: self.value@ }
    }
}

/// Entries read one after the other, in the order of their keys, and the error
/// that ended the reading before its time, if there was one.
#[derive(Debug)]
pub struct Scan {
    pub records: Vec<Record>,
    pub failure: Option<String>,
}

/// A scan as a mathematical value.
#[verifier::ext_equal]
pub struct ScanView {
    pub records: Seq<RecordView>,
    pub failure: Option<Seq<char>>,
}

/// An optional string as a mathematical value.
pub open spec fn text_view(s: Option<String>) -> Option<Seq<char>> {
    match s {
        None => None,
        Some(s) => Some(s@),
    }
}

impl View for Scan {
    type V = ScanView;

    open spec fn view(&self) -> ScanView {
        ScanView {
            records: self.records@.map_values(|r: Record| r@),
            failure: text_view(self.failure),
        }
    }
}

/// A column family: keys and their values.
pub type Table = Map<Seq<u8>, Seq<u8>>;

/// The store: its column families by name.
pub type Store = Map<Seq<char>, Table>;

/// The family that a change is made in.
pub open spec fn op_family(op: OpView) -> Seq<char> {
    match op {
        OpView::Put { cf, .. } => cf,
        OpView::Delete { cf, .. } => cf,
    }
}

/// A family after a change in it.
pub open spec fn changed(t: Table, op: OpView) -> Table {
    match op {
        OpView::Put { key, value, .. } => t.insert(key, value),
        OpView::Delete { key, .. } => t.remove(key),
    }
}

/// The store after one change.
pub open spec fn apply_op(s: Store, op: OpView) -> Store {
    s.insert(op_family(op), changed(s[op_family(op)], op))
}

/// The store after a batch of changes.
pub open spec fn apply(s: Store, ops: Seq<OpView>) -> Store
    decreases ops.len(),
{
    if ops.len() == 0 {
        s
    } else {
        apply_op(apply(s, ops.drop_last()), ops.last())
    }
}

/// Keys come in ascending order.
pub open spec fn ascending(rs: Seq<RecordView>) -> bool {
    forall|i: int, j: int| 0 <= i < j < rs.len() ==> keys::key_lt(#[trigger] rs[i].key, #[trigger] rs[j].key)
}

/// The records are entries of the family.
pub open spec fn entries_of(t: Table, rs: Seq<RecordView>) -> bool {
    forall|i: int|
        0 <= i < rs.len() ==> t.contains_key((#[trigger] rs[i]).key) && t[rs[i].key] == rs[i].value
}

/// The key is among the records.
pub open spec fn has_key(rs: Seq<RecordView>, k: Seq<u8>) -> bool {
    exists|i: int| 0 <= i < rs.len() && (#[trigger] rs[i]).key == k
}

/// The records are all entries of the family whose keys begin with `prefix`,
/// in the order of their keys.
pub open spec fn is_scan(t: Table, prefix: Seq<u8>, rs: Seq<RecordView>) -> bool {
    &&& ascending(rs)
    &&& entries_of(t, rs)
    &&& forall|i: int| 0 <= i < rs.len() ==> prefix.is_prefix_of((#[trigger] rs[i]).key)
    &&& forall|k: Seq<u8>| #[trigger]
        t.contains_key(k) && prefix.is_prefix_of(k) ==> has_key(rs, k)
}

/// Two scans of the same entries agree on the keys at a place if they agree on
/// those before it.
proof fn lemma_scan_step(
    t: Table,
    prefix: Seq<u8>,
    a: Seq<RecordView>,
    b: Seq<RecordView>,
    i: int,
)
    requires
        is_scan(t, prefix, a),
        is_scan(t, prefix, b),
        0 <= i < a.len(),
        forall|j: int| 0 <= j < i ==> j < b.len() && (#[trigger] a[j]).key == b[j].key,
    ensures
        i < b.len(),
        i < b.len() ==> b[i].key == a[i].key || keys::key_lt(b[i].key, a[i].key),
{
    assert(t.contains_key(a[i].key));
    assert(prefix.is_prefix_of(a[i].key));
    assert(has_key(b, a[i].key));
    let k = choose|k: int| 0 <= k < b.len() && (#[trigger] b[k]).key == a[i].key;
    if k < i {
        assert(a[k].key == b[k].key);
        assert(keys::key_lt(a[k].key, a[i].key));
        keys::lemma_key_asymmetric(a[k].key, a[i].key);
    } else if i < k {
        assert(keys::key_lt(b[i].key, b[k].key));
    }
}

/// There is one scan of the entries with a prefix.
pub proof fn lemma_scan_unique(t: Table, prefix: Seq<u8>, a: Seq<RecordView>, b: Seq<RecordView>)
    requires
        is_scan(t, prefix, a),
        is_scan(t, prefix, b),
    ensures
        a == b,
{
    lemma_scan_same(t, prefix, a, b, a.len() as int);
    lemma_scan_same(t, prefix, b, a, b.len() as int);
    assert forall|i: int| 0 <= i < a.len() implies a[i] == b[i] by {
        assert(a[i].key == b[i].key);
        assert(t[a[i].key] == a[i].value);
        assert(t[b[i].key] == b[i].value);
    }
    assert(a =~= b);
}

/// Two scans of the same entries have the same keys at the same places.
proof fn lemma_scan_same(
    t: Table,
    prefix: Seq<u8>,
    a: Seq<RecordView>,
    b: Seq<RecordView>,
    n: int,
)
    requires
        is_scan(t, prefix, a),
        is_scan(t, prefix, b),
        0 <= n <= a.len(),
    ensures
        n <= b.len(),
        forall|i: int| 0 <= i < n ==> (#[trigger] a[i]).key == b[i].key,
    decreases n,
{
    if n > 0 {
        let i = n - 1;
        lemma_scan_same(t, prefix, a, b, i);
        lemma_scan_step(t, prefix, a, b, i);
        assert forall|j: int| 0 <= j < i implies j < a.len() && (#[trigger] b[j]).key
            == a[j].key by {
            assert(a[j].key == b[j].key);
        }
        lemma_scan_step(t, prefix, b, a, i);
        keys::lemma_key_asymmetric(a[i].key, b[i].key);
    }
}

/// Changes made one after the other are the changes made together.
pub proof fn lemma_apply_concat(s: Store, a: Seq<OpView>, b: Seq<OpView>)
    ensures
        apply(s, a + b) == apply(apply(s, a), b),
    decreases b.len(),
{
    if b.len() == 0 {
        assert(a + b =~= a);
    } else {
        assert((a + b).drop_last() =~= a + b.drop_last());
        assert((a + b).last() == b.last());
        lemma_apply_concat(s, a, b.drop_last());
    }
}

/// A family that no change is made in stays as it is.
pub proof fn lemma_apply_frame(s: Store, ops: Seq<OpView>, cf: Seq<char>)
    requires
        forall|i: int| 0 <= i < ops.len() ==> op_family(#[trigger] ops[i]) != cf,
    ensures
        apply(s, ops).contains_key(cf) == s.contains_key(cf),
        apply(s, ops)[cf] == s[cf],
    decreases ops.len(),
{
    if ops.len() > 0 {
        assert forall|i: int| 0 <= i < ops.drop_last().len() implies op_family(
            #[trigger] ops.drop_last()[i],
        ) != cf by {
            assert(ops.drop_last()[i] == ops[i]);
        }
        lemma_apply_frame(s, ops.drop_last(), cf);
        assert(op_family(ops[ops.len() - 1]) != cf);
    }
}

/// What a family holds under a key.
pub open spec fn look(s: Store, cf: Seq<char>, key: Seq<u8>) -> Option<Seq<u8>> {
    if s[cf].contains_key(key) {
        Some(s[cf][key])
    } else {
        None
    }
}

/// The key that a change is about.
pub open spec fn op_key(op: OpView) -> Seq<u8> {
    match op {
        OpView::Put { key, .. } => key,
        OpView::Delete { key, .. } => key,
    }
}

/// The change is about a key of a family.
pub open spec fn touches(op: OpView, cf: Seq<char>, key: Seq<u8>) -> bool {
    op_family(op) == cf && op_key(op) == key
}

/// What a change leaves under its key.
pub open spec fn left_by(op: OpView) -> Option<Seq<u8>> {
    match op {
        OpView::Put { value, .. } => Some(value),
        OpView::Delete { .. } => None,
    }
}

/// What no change is about stays as it is.
pub proof fn lemma_untouched(s: Store, ops: Seq<OpView>, cf: Seq<char>, key: Seq<u8>)
    requires
        forall|i: int| 0 <= i < ops.len() ==> !touches(#[trigger] ops[i], cf, key),
    ensures
        look(apply(s, ops), cf, key) == look(s, cf, key),
    decreases ops.len(),
{
    if ops.len() > 0 {
        let rest = ops.drop_last();
        assert forall|i: int| 0 <= i < rest.len() implies !touches(#[trigger] rest[i], cf, key) by {
            assert(rest[i] == ops[i]);
        }
        lemma_untouched(s, rest, cf, key);
        assert(!touches(ops[ops.len() - 1], cf, key));
    }
}

/// The last change about a key decides what is there.
pub proof fn lemma_last_touch(s: Store, ops: Seq<OpView>, cf: Seq<char>, key: Seq<u8>, i: int)
    requires
        0 <= i < ops.len(),
        touches(ops[i], cf, key),
        forall|j: int| i < j < ops.len() ==> !touches(#[trigger] ops[j], cf, key),
    ensures
        look(apply(s, ops), cf, key) == left_by(ops[i]),
    decreases ops.len(),
{
    let rest = ops.drop_last();
    if i < ops.len() - 1 {
        assert(rest[i] == ops[i]);
        assert forall|j: int| i < j < rest.len() implies !touches(#[trigger] rest[j], cf, key) by {
            assert(rest[j] == ops[j]);
        }
        lemma_last_touch(s, rest, cf, key, i);
        assert(!touches(ops[ops.len() - 1], cf, key));
    }
}

/// Keys in ascending order are distinct.
pub proof fn lemma_ascending_distinct(rs: Seq<RecordView>, i: int, j: int)
    requires
        ascending(rs),
        0 <= i < rs.len(),
        0 <= j < rs.len(),
        i != j,
    ensures
        rs[i].key != rs[j].key,
{
    if i < j {
        assert(keys::key_lt(rs[i].key, rs[j].key));
        keys::lemma_key_asymmetric(rs[i].key, rs[j].key);
    } else {
        assert(keys::key_lt(rs[j].key, rs[i].key));
        keys::lemma_key_asymmetric(rs[j].key, rs[i].key);
    }
}

} // verus!
