//! Tasks, their stored form and their keys.

use vstd::bytes::*;
use vstd::prelude::*;
use vstd::slice::*;
use vstd::utf8::*;

use crate::codec;
use crate::codec::{Decoder, Encoder};
use crate::error::QueueError;
use crate::keys;
use crate::text;

verus! {

/// A unit of work in a queue.
#[derive(Debug, Clone)]
pub struct Task {
    pub id: String,
    pub queue: String,
    pub payload: Vec<u8>,
    /// When the task was enqueued, in milliseconds since the epoch.
    pub enqueued_at: u64,
    /// How often the task has been handed to a worker.
    pub attempts: u32,
    /// When the current lease runs out; 0 while there is none.
    pub deadline: u64,
}

/// A task as a mathematical value.
#[verifier::ext_equal]
pub struct TaskView {
    pub id: Seq<char>,
    pub queue: Seq<char>,
    pub payload: Seq<u8>,
    pub enqueued_at: u64,
    pub attempts: u32,
    pub deadline: u64,
}

impl View for Task {
    type V = TaskView;

    open spec fn view(&self) -> TaskView {
        TaskView {
            id: self.id@,
            queue: self.queue@,
            payload: self.payload@,
            enqueued_at: self.enqueued_at,
            attempts: self.attempts,
            deadline: self.deadline,
        }
    }
}

impl TaskView {
    /// The lengths of the parts can be written down.
    pub open spec fn fits(self) -> bool {
        &&& encode_utf8(self.id).len() <= u64::MAX
        &&& encode_utf8(self.queue).len() <= u64::MAX
        &&& self.payload.len() <= u64::MAX
    }
}

/// The stored form of a task: its fields, one after the other.
pub open spec fn task_code(t: TaskView) -> Seq<u8> {
    codec::str_code(t.id) + codec::str_code(t.queue) + codec::bytes_code(t.payload) + spec_u64_to_le_bytes(
        t.enqueued_at,
    ) + spec_u32_to_le_bytes(t.attempts) + spec_u64_to_le_bytes(t.deadline)
}

/// The task stored at the front of `b`, if there is one.
pub open spec fn read_task(b: Seq<u8>) -> Option<TaskView> {
    match codec::read_str(b) {
        None => None,
        Some((id, r)) => match codec::read_str(r) {
            None => None,
            Some((queue, r)) => match codec::read_bytes(r) {
                None => None,
                Some((payload, r)) => match codec::read_u64(r) {
                    None => None,
                    Some((enqueued_at, r)) => match codec::read_u32(r) {
                        None => None,
                        Some((attempts, r)) => match codec::read_u64(r) {
                            None => None,
                            Some((deadline, _)) => Some(
                                TaskView { id, queue, payload, enqueued_at, attempts, deadline },
                            ),
                        },
                    },
                },
            },
        },
    }
}

/// The envelope in which bytes that are no task are kept.
pub open spec fn poison_view(queue: Seq<char>, raw: Seq<u8>, now: u64) -> TaskView {
    TaskView {
        id: "poison"@,
        queue,
        payload: raw,
        enqueued_at: now,
        attempts: u32::MAX,
        deadline: 0,
    }
}

impl Task {
    /// The stored form of the task.
    pub fn serialize(&self) -> (r: Result<Vec<u8>, QueueError>)
        ensures
            r is Ok,
            r->Ok_0@ == task_code(self@),
    {
        let mut e = Encoder::new();
        e.put_str(self.id.as_str())?;
        e.put_str(self.queue.as_str())?;
        e.put_bytes(self.payload.as_slice())?;
        e.put_u64(self.enqueued_at)?;
        e.put_u32(self.attempts)?;
        e.put_u64(self.deadline)?;
        assert(e@ =~= task_code(self@));
        Ok(e.finish())
    }

    /// The task stored in `bytes`; what follows it is not looked at.
    pub fn deserialize(bytes: &[u8]) -> (r: Result<Task, QueueError>)
        ensures
            match r {
                Ok(t) => read_task(bytes@) == Some(t@),
                Err(e) => read_task(bytes@) is None && e is Serialization,
            },
    {
        let mut d = Decoder::new(bytes);
        let id = match d.take_str() {
            Ok(v) => v,
            Err(e) => return Err(e),
        };
        let queue = match d.take_str() {
            Ok(v) => v,
            Err(e) => return Err(e),
        };
        let payload = match d.take_bytes() {
            Ok(v) => v,
            Err(e) => return Err(e),
        };
        let enqueued_at: u64 = match d.take_u64() {
            Ok(v) => v,
            Err(e) => return Err(e),
        };
        let attempts: u32 = match d.take_u32() {
            Ok(v) => v,
            Err(e) => return Err(e),
        };
        let deadline: u64 = match d.take_u64() {
            Ok(v) => v,
            Err(e) => return Err(e),
        };
        Ok(Task { id, queue, payload, enqueued_at, attempts, deadline })
    }

    /// Wraps bytes that are no task in a task that can be kept and inspected:
    /// the bytes are its payload, and its attempts are exhausted.
    pub fn poison(queue: &str, raw: &[u8], now: u64) -> (r: Task)
        ensures
            r@ == poison_view(queue@, raw@, now),
    {
        Task {
            id: "poison".to_owned(),
            queue: queue.to_owned(),
            payload: slice_to_vec(raw),
            enqueued_at: now,
            attempts: u32::MAX,
            deadline: 0,
        }
    }

    /// How long ago, at `now`, the task was enqueued; 0 if it is dated later.
    pub fn age_at(&self, now: u64) -> (r: u64)
        ensures
            r == if now >= self.enqueued_at {
                now - self.enqueued_at
            } else {
                0
            },
    {
        now.saturating_sub(self.enqueued_at)
    }

    /// How long ago the task was enqueued, by the clock.
    pub fn age_ms(&self) -> (r: u64)
        ensures
            r <= u64::MAX - self.enqueued_at,
    {
        self.age_at(now_millis())
    }
}

/// The key of a task: the queue's name, a zero byte, and the sequence number,
/// most significant byte first.
pub open spec fn key_code(queue: Seq<char>, seq: u64) -> Seq<u8> {
    prefix_code(queue) + keys::be_bytes(seq as nat, 8)
}

/// The beginning of all keys of a queue: its name and a zero byte.
pub open spec fn prefix_code(queue: Seq<char>) -> Seq<u8> {
    encode_utf8(queue).push(0u8)
}

/// The sequence number at the end of a key, after a zero byte.
pub open spec fn key_seq(key: Seq<u8>) -> Option<u64> {
    if key.len() >= 9 && key[key.len() - 9] == 0 {
        Some(keys::be_value(key.skip(key.len() - 8)) as u64)
    } else {
        None
    }
}

/// The key of the task with number `seq` in `queue`.
pub fn encode_key(queue: &str, seq: u64) -> (r: Vec<u8>)
    ensures
        r@ == key_code(queue@, seq),
{
    let mut key = queue_prefix(queue);
    push_be_u64(&mut key, seq);
    key
}

/// Appends the eight bytes of a number, most significant first.
pub fn push_be_u64(out: &mut Vec<u8>, x: u64)
    ensures
        final(out)@ == old(out)@ + keys::be_bytes(x as nat, 8),
{
    out.push((x / 0x100_0000_0000_0000) as u8);
    out.push(((x / 0x1_0000_0000_0000) % 256) as u8);
    out.push(((x / 0x100_0000_0000) % 256) as u8);
    out.push(((x / 0x1_0000_0000) % 256) as u8);
    out.push(((x / 0x100_0000) % 256) as u8);
    out.push(((x / 0x1_0000) % 256) as u8);
    out.push(((x / 0x100) % 256) as u8);
    out.push((x % 256) as u8);
    proof {
        reveal_with_fuel(keys::be_bytes, 9);
        assert(out@ =~= old(out)@ + keys::be_bytes(x as nat, 8));
    }
}

/// The beginning of all keys of `queue`.
pub fn queue_prefix(queue: &str) -> (r: Vec<u8>)
    ensures
        r@ == prefix_code(queue@),
{
    let mut prefix = slice_to_vec(queue.as_bytes());
    prefix.push(0x00);
    prefix
}

/// The sequence number at the end of `key`, if `key` has the form of a key.
pub fn decode_key_seq(key: &[u8]) -> (r: Option<u64>)
    ensures
        r == key_seq(key@),
{
    let n: usize = key.len();
    if n < 9 || key[n - 9] != 0 {
        return None;
    }
    let mut seq: u64 = 0;
    let mut i: usize = 0;
    let ghost tail = key@.skip(n - 8);
    assert(tail.take(0) =~= Seq::<u8>::empty());
    while i < 8
        invariant
            n == key@.len(),
            n >= 9,
            tail == key@.skip(n - 8),
            0 <= i <= 8,
            seq as nat == keys::be_value(tail.take(i as int)),
        decreases 8 - i,
    {
        proof {
            keys::lemma_value_be(tail.take(i as int));
            assert(keys::pow256(7) == 0x100_0000_0000_0000) by {
                reveal_with_fuel(keys::pow256, 8);
            }
            lemma_pow256_monotonic(i as nat, 7);
            assert(tail.take(i + 1).drop_last() =~= tail.take(i as int));
            assert(tail.take(i + 1).last() == key@[n - 8 + i]);
        }
        seq = seq * 256 + key[n - 8 + i] as u64;
        i = i + 1;
    }
    assert(tail.take(8) =~= tail);
    Some(seq)
}

/// The length of the name at the front of a key: everything before the first
/// zero byte.
pub open spec fn name_len(key: Seq<u8>) -> nat
    decreases key.len(),
{
    if key.len() == 0 || key[0] == 0 {
        0
    } else {
        1 + name_len(key.drop_first())
    }
}

/// The name is followed by a zero byte or by nothing, and holds none.
pub proof fn lemma_name_len(key: Seq<u8>)
    ensures
        name_len(key) <= key.len(),
        forall|i: int| 0 <= i < name_len(key) ==> key[i] != 0,
        name_len(key) < key.len() ==> key[name_len(key) as int] == 0,
    decreases key.len(),
{
    if key.len() > 0 && key[0] != 0 {
        let rest = key.drop_first();
        lemma_name_len(rest);
        assert forall|i: int| 0 <= i < name_len(key) implies key[i] != 0 by {
            if i > 0 {
                assert(rest[i - 1] == key[i]);
            }
        }
    }
}

/// Where the first zero byte is, or the end.
pub proof fn lemma_name_len_is(key: Seq<u8>, n: int)
    requires
        0 <= n <= key.len(),
        forall|i: int| 0 <= i < n ==> key[i] != 0,
        n < key.len() ==> key[n] == 0,
    ensures
        name_len(key) == n,
{
    lemma_name_len(key);
    let m = name_len(key) as int;
    if m < n {
        assert(key[m] != 0);
    } else if n < m {
        assert(key[n] != 0);
    }
}

/// The length of the name at the front of `key`.
pub fn key_name_len(key: &[u8]) -> (r: usize)
    ensures
        r == name_len(key@),
{
    let mut i: usize = 0;
    while i < key.len() && key[i] != 0x00
        invariant
            0 <= i <= key@.len(),
            forall|j: int| 0 <= j < i ==> key@[j] != 0,
        decreases key@.len() - i,
    {
        i = i + 1;
    }
    proof {
        lemma_name_len_is(key@, i as int);
    }
    i
}

/// A point in time of `std`.
#[verifier::external_type_specification]
#[verifier::external_body]
pub struct ExSystemTime(std::time::SystemTime);

/// What `std` says of a point in time that lies before another.
#[verifier::external_type_specification]
#[verifier::external_body]
pub struct ExSystemTimeError(std::time::SystemTimeError);

/// The system clock, `SystemTime::now`. Nothing is said of the result: it
/// depends on the clock alone.
#[verifier::external_body]
fn clock() -> std::time::SystemTime {
    std::time::SystemTime::now()
}

/// The time from the epoch to `t`, `SystemTime::duration_since`, an error where
/// `t` lies before the epoch. A point in time has no number here that the result
/// could be tied to, so nothing is said of it.
#[verifier::external_body]
fn since_epoch(t: std::time::SystemTime) -> Result<
    std::time::Duration,
    std::time::SystemTimeError,
> {
    t.duration_since(std::time::UNIX_EPOCH)
}

/// The whole milliseconds of a duration, `Duration::as_millis`. A duration has
/// no number here that the result could be tied to, so nothing is said of it.
#[verifier::external_body]
fn whole_millis(d: std::time::Duration) -> u128 {
    d.as_millis()
}

/// The milliseconds since the epoch as a number of 64 bits, of which the lower
/// ones are kept; zero for a time before the epoch.
pub fn epoch_millis(since: Option<u128>) -> (r: u64)
    ensures
        r == match since {
            Some(ms) => ms as u64,
            None => 0,
        },
        since is Some && since->0 <= u64::MAX ==> r == since->0,
{
    match since {
        Some(ms) => #[verifier::truncate] (ms as u64),
        None => 0,
    }
}

/// The milliseconds since the epoch, by the system clock.
pub fn now_millis() -> u64 {
    match since_epoch(clock()) {
        Ok(d) => epoch_millis(Some(whole_millis(d))),
        Err(_) => epoch_millis(None),
    }
}

/// Powers grow with the exponent.
proof fn lemma_pow256_monotonic(a: nat, b: nat)
    requires
        a <= b,
    ensures
        keys::pow256(a) <= keys::pow256(b),
    decreases b,
{
    if a < b {
        lemma_pow256_monotonic(a, (b - 1) as nat);
    }
}

/// Eight bytes hold exactly the 64-bit numbers.
pub proof fn lemma_pow256_8()
    ensures
        keys::pow256(8) == u64::MAX + 1,
{
    reveal_with_fuel(keys::pow256, 9);
}

/// A stored task is read back as it was, whatever follows it.
pub proof fn law_task_roundtrip(t: TaskView, rest: Seq<u8>)
    requires
        t.fits(),
    ensures
        read_task(task_code(t) + rest) == Some(t),
{
    let r5 = spec_u64_to_le_bytes(t.deadline) + rest;
    let r4 = spec_u32_to_le_bytes(t.attempts) + r5;
    let r3 = spec_u64_to_le_bytes(t.enqueued_at) + r4;
    let r2 = codec::bytes_code(t.payload) + r3;
    let r1 = codec::str_code(t.queue) + r2;
    assert(task_code(t) + rest =~= codec::str_code(t.id) + r1);
    codec::lemma_read_str(t.id, r1);
    codec::lemma_read_str(t.queue, r2);
    codec::lemma_read_bytes(t.payload, r3);
    codec::lemma_read_u64(t.enqueued_at, r4);
    codec::lemma_read_u32(t.attempts, r5);
    codec::lemma_read_u64(t.deadline, rest);
}

/// What is stored at the very end of a record is read back as well.
pub proof fn law_task_stored(t: TaskView)
    requires
        t.fits(),
    ensures
        read_task(task_code(t)) == Some(t),
{
    law_task_roundtrip(t, Seq::empty());
    assert(task_code(t) + Seq::<u8>::empty() =~= task_code(t));
}

/// The parts of a task in memory, and of one that was read from bytes in
/// memory, can be written down.
pub proof fn lemma_read_task_fits(b: Seq<u8>)
    requires
        read_task(b) is Some,
        b.len() <= u64::MAX,
    ensures
        read_task(b)->0.fits(),
{
    let (id, r) = codec::read_str(b)->0;
    let (queue, r2) = codec::read_str(r)->0;
    decode_utf8_encode_utf8((codec::read_bytes(b)->0).0);
    decode_utf8_encode_utf8((codec::read_bytes(r)->0).0);
}

/// The sequence number of a key is read back from the key.
pub proof fn law_key_seq_roundtrip(queue: Seq<char>, seq: u64)
    ensures
        key_seq(key_code(queue, seq)) == Some(seq),
{
    let key = key_code(queue, seq);
    keys::lemma_be_len(seq as nat, 8);
    lemma_pow256_8();
    keys::lemma_be_value(seq as nat, 8);
    assert(key.skip(key.len() - 8) =~= keys::be_bytes(seq as nat, 8));
}

/// Within a queue the bytewise order of keys is the order of their sequence
/// numbers, which is the order of insertion.
pub proof fn law_key_order(queue: Seq<char>, a: u64, b: u64)
    ensures
        keys::key_lt(key_code(queue, a), key_code(queue, b)) <==> a < b,
{
    let p = prefix_code(queue);
    lemma_pow256_8();
    if a < b {
        keys::lemma_be_order(a as nat, b as nat, 8);
        keys::lemma_prefix_order(p, keys::be_bytes(a as nat, 8), keys::be_bytes(b as nat, 8));
    } else if b < a {
        keys::lemma_be_order(b as nat, a as nat, 8);
        keys::lemma_prefix_order(p, keys::be_bytes(b as nat, 8), keys::be_bytes(a as nat, 8));
        keys::lemma_key_asymmetric(key_code(queue, b), key_code(queue, a));
    } else {
        keys::lemma_key_asymmetric(key_code(queue, a), key_code(queue, b));
    }
}

/// Every key of a queue begins with the queue's prefix.
pub proof fn law_key_prefix(queue: Seq<char>, seq: u64)
    ensures
        prefix_code(queue).is_prefix_of(key_code(queue, seq)),
{
    let key = key_code(queue, seq);
    assert(key.subrange(0, prefix_code(queue).len() as int) =~= prefix_code(queue));
}

/// Keys of a queue whose name holds no zero byte do not begin with the prefix
/// of another such queue: a scan over one queue never meets another's tasks.
pub proof fn law_queue_isolation(queue: Seq<char>, other: Seq<char>, seq: u64)
    requires
        !encode_utf8(queue).contains(0u8),
        !encode_utf8(other).contains(0u8),
    ensures
        prefix_code(other).is_prefix_of(key_code(queue, seq)) <==> queue == other,
{
    let q = encode_utf8(queue);
    let o = encode_utf8(other);
    let key = key_code(queue, seq);
    if queue == other {
        law_key_prefix(queue, seq);
    }
    if prefix_code(other).is_prefix_of(key) {
        let p = prefix_code(other);
        assert(p == key.subrange(0, p.len() as int));
        assert(key[q.len() as int] == 0u8);
        assert(p[o.len() as int] == 0u8);
        if q.len() < o.len() {
            assert(p[q.len() as int] == key[q.len() as int]);
            assert(o[q.len() as int] == 0u8);
        } else if o.len() < q.len() {
            assert(p[o.len() as int] == key[o.len() as int]);
            assert(q[o.len() as int] == 0u8);
        } else {
            assert forall|i: int| 0 <= i < q.len() implies q[i] == o[i] by {
                assert(p[i] == key[i]);
            }
            assert(q =~= o);
            text::lemma_encode_injective(queue, other);
        }
    }
}

/// What a key holds: the queue's name, a zero byte, and the eight bytes of the number,
/// the most significant first.
pub proof fn law_key_layout(queue: Seq<char>, seq: u64)
    ensures
        ({
            let n = encode_utf8(queue).len() as int;
            let key = key_code(queue, seq);
            &&& key.len() == n + 9
            &&& key.take(n) == encode_utf8(queue)
            &&& key[n] == 0
            &&& key[n + 1] == seq / 0x100_0000_0000_0000
            &&& key[n + 2] == (seq / 0x1_0000_0000_0000) % 256
            &&& key[n + 3] == (seq / 0x100_0000_0000) % 256
            &&& key[n + 4] == (seq / 0x1_0000_0000) % 256
            &&& key[n + 5] == (seq / 0x100_0000) % 256
            &&& key[n + 6] == (seq / 0x1_0000) % 256
            &&& key[n + 7] == (seq / 0x100) % 256
            &&& key[n + 8] == seq % 256
        }),
{
    reveal_with_fuel(keys::be_bytes, 9);
    let n = encode_utf8(queue).len() as int;
    assert(key_code(queue, seq).take(n) =~= encode_utf8(queue));
}

/// Which keys have a number: those with a zero byte in front of their last eight
/// bytes, which are the number.
pub proof fn law_number_of_a_key(key: Seq<u8>)
    ensures
        key_seq(key) is Some <==> key.len() >= 9 && key[key.len() - 9] == 0,
        key_seq(key) matches Some(seq) ==> {
            let n = key.len() - 8;
            seq == key[n] * 0x100_0000_0000_0000 + key[n + 1] * 0x1_0000_0000_0000 + key[n + 2]
                * 0x100_0000_0000 + key[n + 3] * 0x1_0000_0000 + key[n + 4] * 0x100_0000 + key[n
                + 5] * 0x1_0000 + key[n + 6] * 0x100 + key[n + 7]
        },
{
    if key_seq(key) is Some {
        let tail = key.skip(key.len() - 8);
        reveal_with_fuel(keys::be_value, 9);
        keys::lemma_value_be(tail);
        lemma_pow256_8();
    }
}

/// Bytes that are no task are kept whole: they are the payload of a task of their
/// queue that has no attempts left and no lease.
pub proof fn law_poison_keeps_bytes(queue: Seq<char>, raw: Seq<u8>, now: u64)
    ensures
        ({
            let p = poison_view(queue, raw, now);
            &&& p.id == "poison"@
            &&& p.queue == queue
            &&& p.payload == raw
            &&& p.enqueued_at == now
            &&& p.attempts == u32::MAX
            &&& p.deadline == 0
        }),
{
}

/// Where the parts of a stored task lie: the name, the queue and the payload, each
/// behind its length, the time, the attempts, and the deadline at the end.
pub proof fn law_task_layout(t: TaskView)
    requires
        t.fits(),
    ensures
        ({
            let b = task_code(t);
            let id = encode_utf8(t.id);
            let queue = encode_utf8(t.queue);
            let q = 8 + id.len() as int;
            let p = q + 8 + queue.len();
            let e = p + 8 + t.payload.len();
            &&& b.len() == e + 20
            &&& b.take(8) == spec_u64_to_le_bytes(id.len() as u64)
            &&& b.subrange(8, q) == id
            &&& b.subrange(q, q + 8) == spec_u64_to_le_bytes(queue.len() as u64)
            &&& b.subrange(q + 8, p) == queue
            &&& b.subrange(p, p + 8) == spec_u64_to_le_bytes(t.payload.len() as u64)
            &&& b.subrange(p + 8, e) == t.payload
            &&& b.subrange(e, e + 8) == spec_u64_to_le_bytes(t.enqueued_at)
            &&& b.subrange(e + 8, e + 12) == spec_u32_to_le_bytes(t.attempts)
            &&& b.subrange(e + 12, e + 20) == spec_u64_to_le_bytes(t.deadline)
        }),
{
    lemma_auto_spec_u32_to_from_le_bytes();
    lemma_auto_spec_u64_to_from_le_bytes();
    let b = task_code(t);
    let id = encode_utf8(t.id);
    let queue = encode_utf8(t.queue);
    let q = 8 + id.len() as int;
    let p = q + 8 + queue.len();
    let e = p + 8 + t.payload.len();
    assert(b.take(8) =~= spec_u64_to_le_bytes(id.len() as u64));
    assert(b.subrange(8, q) =~= id);
    assert(b.subrange(q, q + 8) =~= spec_u64_to_le_bytes(queue.len() as u64));
    assert(b.subrange(q + 8, p) =~= queue);
    assert(b.subrange(p, p + 8) =~= spec_u64_to_le_bytes(t.payload.len() as u64));
    assert(b.subrange(p + 8, e) =~= t.payload);
    assert(b.subrange(e, e + 8) =~= spec_u64_to_le_bytes(t.enqueued_at));
    assert(b.subrange(e + 8, e + 12) =~= spec_u32_to_le_bytes(t.attempts));
    assert(b.subrange(e + 12, e + 20) =~= spec_u64_to_le_bytes(t.deadline));
}

} // verus!
