//! The records of the system's own family: traffic, throttling, baselines.

use vstd::bytes::*;
use vstd::prelude::*;
use vstd::slice::*;
use vstd::utf8::*;

use crate::baseline;
use crate::baseline::TenantBaseline;
use crate::codec;
use crate::codec::{Decoder, Encoder};
use crate::error::QueueError;
use crate::reaper;
use crate::stats::{StatsView, TenantStats};
use crate::store::{Batch, BatchView, OpView, RecordView, Scan, ScanView};
use crate::tenant;
use crate::tenant::cf_system;
use crate::text;

verus! {

/// A tenant's traffic as it is kept. Fractions are bit patterns.
#[derive(Debug)]
pub struct PersistedStats {
    pub tenant_id: String,
    pub arrival_rate: u64,
    pub processing_rate: u64,
    pub avg_task_latency: u64,
    pub burst_score: u64,
    pub backlog_ratio: u64,
    pub total_enqueued: u64,
    pub total_acked: u64,
    pub total_nacked: u64,
    pub stats_version: u64,
    pub flushed_at_ms: u64,
}

/// Kept traffic as a mathematical value.
#[verifier::ext_equal]
pub struct PersistedStatsView {
    pub tenant_id: Seq<char>,
    pub arrival_rate: u64,
    pub processing_rate: u64,
    pub avg_task_latency: u64,
    pub burst_score: u64,
    pub backlog_ratio: u64,
    pub total_enqueued: u64,
    pub total_acked: u64,
    pub total_nacked: u64,
    pub stats_version: u64,
    pub flushed_at_ms: u64,
}

impl View for PersistedStats {
    type V = PersistedStatsView;

    open spec fn view(&self) -> PersistedStatsView {
        PersistedStatsView {
            tenant_id: self.tenant_id@,
            arrival_rate: self.arrival_rate,
            processing_rate: self.processing_rate,
            avg_task_latency: self.avg_task_latency,
            burst_score: self.burst_score,
            backlog_ratio: self.backlog_ratio,
            total_enqueued: self.total_enqueued,
            total_acked: self.total_acked,
            total_nacked: self.total_nacked,
            stats_version: self.stats_version,
            flushed_at_ms: self.flushed_at_ms,
        }
    }
}

/// A throttle as it is kept.
#[derive(Debug)]
pub struct PersistedThrottle {
    pub tenant_id: String,
    pub throttled: bool,
    pub reason: String,
    pub original_rate: u32,
    pub applied_rate: u32,
    pub triggered_at_ms: u64,
    pub cooldown_until_ms: u64,
}

/// A kept throttle as a mathematical value.
#[verifier::ext_equal]
pub struct ThrottleView {
    pub tenant_id: Seq<char>,
    pub throttled: bool,
    pub reason: Seq<char>,
    pub original_rate: u32,
    pub applied_rate: u32,
    pub triggered_at_ms: u64,
    pub cooldown_until_ms: u64,
}

impl View for PersistedThrottle {
    type V = ThrottleView;

    open spec fn view(&self) -> ThrottleView {
        ThrottleView {
            tenant_id: self.tenant_id@,
            throttled: self.throttled,
            reason: self.reason@,
            original_rate: self.original_rate,
            applied_rate: self.applied_rate,
            triggered_at_ms: self.triggered_at_ms,
            cooldown_until_ms: self.cooldown_until_ms,
        }
    }
}

/// A baseline as it is kept. Fractions are bit patterns.
#[derive(Debug)]
pub struct BaselineRecord {
    pub tenant_id: String,
    pub short_ema: u64,
    pub long_ema: u64,
    pub spike_threshold: u64,
    pub saved_at_ms: u64,
}

/// A kept baseline as a mathematical value.
#[verifier::ext_equal]
pub struct BaselineRecordView {
    pub tenant_id: Seq<char>,
    pub short_ema: u64,
    pub long_ema: u64,
    pub spike_threshold: u64,
    pub saved_at_ms: u64,
}

impl View for BaselineRecord {
    type V = BaselineRecordView;

    open spec fn view(&self) -> BaselineRecordView {
        BaselineRecordView {
            tenant_id: self.tenant_id@,
            short_ema: self.short_ema,
            long_ema: self.long_ema,
            spike_threshold: self.spike_threshold,
            saved_at_ms: self.saved_at_ms,
        }
    }
}

/// The stored form of traffic: its fields, one after the other.
pub open spec fn stats_code(p: PersistedStatsView) -> Seq<u8> {
    codec::str_code(p.tenant_id) + spec_u64_to_le_bytes(p.arrival_rate) + spec_u64_to_le_bytes(
        p.processing_rate,
    ) + spec_u64_to_le_bytes(p.avg_task_latency) + spec_u64_to_le_bytes(p.burst_score)
        + spec_u64_to_le_bytes(p.backlog_ratio) + spec_u64_to_le_bytes(p.total_enqueued)
        + spec_u64_to_le_bytes(p.total_acked) + spec_u64_to_le_bytes(p.total_nacked)
        + spec_u64_to_le_bytes(p.stats_version) + spec_u64_to_le_bytes(p.flushed_at_ms)
}

/// The stored form of a throttle: its fields, one after the other.
pub open spec fn throttle_code(t: ThrottleView) -> Seq<u8> {
    codec::str_code(t.tenant_id) + codec::bool_code(t.throttled) + codec::str_code(t.reason)
        + spec_u32_to_le_bytes(t.original_rate) + spec_u32_to_le_bytes(t.applied_rate)
        + spec_u64_to_le_bytes(t.triggered_at_ms) + spec_u64_to_le_bytes(t.cooldown_until_ms)
}

/// The stored form of a baseline: its fields, one after the other.
pub open spec fn baseline_code(b: BaselineRecordView) -> Seq<u8> {
    codec::str_code(b.tenant_id) + spec_u64_to_le_bytes(b.short_ema) + spec_u64_to_le_bytes(
        b.long_ema,
    ) + spec_u64_to_le_bytes(b.spike_threshold) + spec_u64_to_le_bytes(b.saved_at_ms)
}

/// Reads five numbers from the front.
pub open spec fn read_five(b: Seq<u8>) -> Option<((u64, u64, u64, u64, u64), Seq<u8>)> {
    match codec::read_u64(b) {
        None => None,
        Some((v, r)) => match codec::read_u64(r) {
            None => None,
            Some((w, r)) => match codec::read_u64(r) {
                None => None,
                Some((x, r)) => match codec::read_u64(r) {
                    None => None,
                    Some((y, r)) => match codec::read_u64(r) {
                        None => None,
                        Some((z, r)) => Some(((v, w, x, y, z), r)),
                    },
                },
            },
        },
    }
}

/// The traffic stored at the front of `b`, if there is any.
pub open spec fn read_stats(b: Seq<u8>) -> Option<PersistedStatsView> {
    match codec::read_str(b) {
        None => None,
        Some((tenant_id, r)) => match read_five(r) {
            None => None,
            Some((rates, r)) => match read_five(r) {
                None => None,
                Some((counts, _)) => Some(
                    PersistedStatsView {
                        tenant_id,
                        arrival_rate: rates.0,
                        processing_rate: rates.1,
                        avg_task_latency: rates.2,
                        burst_score: rates.3,
                        backlog_ratio: rates.4,
                        total_enqueued: counts.0,
                        total_acked: counts.1,
                        total_nacked: counts.2,
                        stats_version: counts.3,
                        flushed_at_ms: counts.4,
                    },
                ),
            },
        },
    }
}

/// The throttle stored at the front of `b`, if there is one.
pub open spec fn read_throttle(b: Seq<u8>) -> Option<ThrottleView> {
    match codec::read_str(b) {
        None => None,
        Some((tenant_id, r)) => match codec::read_bool(r) {
            None => None,
            Some((throttled, r)) => match codec::read_str(r) {
                None => None,
                Some((reason, r)) => match codec::read_u32(r) {
                    None => None,
                    Some((original_rate, r)) => match codec::read_u32(r) {
                        None => None,
                        Some((applied_rate, r)) => match codec::read_u64(r) {
                            None => None,
                            Some((triggered_at_ms, r)) => match codec::read_u64(r) {
                                None => None,
                                Some((cooldown_until_ms, _)) => Some(
                                    ThrottleView {
                                        tenant_id,
                                        throttled,
                                        reason,
                                        original_rate,
                                        applied_rate,
                                        triggered_at_ms,
                                        cooldown_until_ms,
                                    },
                                ),
                            },
                        },
                    },
                },
            },
        },
    }
}

/// The baseline stored at the front of `b`, if there is one.
pub open spec fn read_baseline(b: Seq<u8>) -> Option<BaselineRecordView> {
    match codec::read_str(b) {
        None => None,
        Some((tenant_id, r)) => match codec::read_u64(r) {
            None => None,
            Some((short_ema, r)) => match codec::read_u64(r) {
                None => None,
                Some((long_ema, r)) => match codec::read_u64(r) {
                    None => None,
                    Some((spike_threshold, r)) => match codec::read_u64(r) {
                        None => None,
                        Some((saved_at_ms, _)) => Some(
                            BaselineRecordView {
                                tenant_id,
                                short_ema,
                                long_ema,
                                spike_threshold,
                                saved_at_ms,
                            },
                        ),
                    },
                },
            },
        },
    }
}

impl PersistedStats {
    /// The stored form.
    pub fn serialize(&self) -> (r: Result<Vec<u8>, QueueError>)
        ensures
            r is Ok,
            r->Ok_0@ == stats_code(self@),
    {
        let mut e = Encoder::new();
        e.put_str(self.tenant_id.as_str())?;
        e.put_u64(self.arrival_rate)?;
        e.put_u64(self.processing_rate)?;
        e.put_u64(self.avg_task_latency)?;
        e.put_u64(self.burst_score)?;
        e.put_u64(self.backlog_ratio)?;
        e.put_u64(self.total_enqueued)?;
        e.put_u64(self.total_acked)?;
        e.put_u64(self.total_nacked)?;
        e.put_u64(self.stats_version)?;
        e.put_u64(self.flushed_at_ms)?;
        assert(e@ =~= stats_code(self@));
        Ok(e.finish())
    }

    /// The traffic stored in `bytes`; what follows it is not looked at.
    pub fn deserialize(bytes: &[u8]) -> (r: Result<PersistedStats, QueueError>)
        ensures
            match r {
                Ok(p) => read_stats(bytes@) == Some(p@),
                Err(e) => read_stats(bytes@) is None && e is Serialization,
            },
    {
        let mut d = Decoder::new(bytes);
        let tenant_id = match d.take_str() {
            Ok(v) => v,
            Err(e) => return Err(e),
        };
        let rates: (u64, u64, u64, u64, u64) = match take_five(&mut d) {
            Ok(v) => v,
            Err(e) => return Err(e),
        };
        let counts: (u64, u64, u64, u64, u64) = match take_five(&mut d) {
            Ok(v) => v,
            Err(e) => return Err(e),
        };
        Ok(
            PersistedStats {
                tenant_id,
                arrival_rate: rates.0,
                processing_rate: rates.1,
                avg_task_latency: rates.2,
                burst_score: rates.3,
                backlog_ratio: rates.4,
                total_enqueued: counts.0,
                total_acked: counts.1,
                total_nacked: counts.2,
                stats_version: counts.3,
                flushed_at_ms: counts.4,
            },
        )
    }
}

/// Reads five numbers.
fn take_five(d: &mut Decoder) -> (r: Result<(u64, u64, u64, u64, u64), QueueError>)
    ensures
        match r {
            Ok(v) => read_five(old(d)@) == Some((v, final(d)@)),
            Err(e) => read_five(old(d)@) is None && e is Serialization,
        },
{
    let v: u64 = match d.take_u64() {
        Ok(v) => v,
        Err(e) => return Err(e),
    };
    let w: u64 = match d.take_u64() {
        Ok(v) => v,
        Err(e) => return Err(e),
    };
    let x: u64 = match d.take_u64() {
        Ok(v) => v,
        Err(e) => return Err(e),
    };
    let y: u64 = match d.take_u64() {
        Ok(v) => v,
        Err(e) => return Err(e),
    };
    let z: u64 = match d.take_u64() {
        Ok(v) => v,
        Err(e) => return Err(e),
    };
    Ok((v, w, x, y, z))
}

impl PersistedThrottle {
    /// The stored form.
    pub fn serialize(&self) -> (r: Result<Vec<u8>, QueueError>)
        ensures
            r is Ok,
            r->Ok_0@ == throttle_code(self@),
    {
        let mut e = Encoder::new();
        e.put_str(self.tenant_id.as_str())?;
        e.put_bool(self.throttled)?;
        e.put_str(self.reason.as_str())?;
        e.put_u32(self.original_rate)?;
        e.put_u32(self.applied_rate)?;
        e.put_u64(self.triggered_at_ms)?;
        e.put_u64(self.cooldown_until_ms)?;
        assert(e@ =~= throttle_code(self@));
        Ok(e.finish())
    }

    /// The throttle stored in `bytes`; what follows it is not looked at.
    pub fn deserialize(bytes: &[u8]) -> (r: Result<PersistedThrottle, QueueError>)
        ensures
            match r {
                Ok(t) => read_throttle(bytes@) == Some(t@),
                Err(e) => read_throttle(bytes@) is None && e is Serialization,
            },
    {
        let mut d = Decoder::new(bytes);
        let tenant_id = match d.take_str() {
            Ok(v) => v,
            Err(e) => return Err(e),
        };
        let throttled = match d.take_bool() {
            Ok(v) => v,
            Err(e) => return Err(e),
        };
        let reason = match d.take_str() {
            Ok(v) => v,
            Err(e) => return Err(e),
        };
        let original_rate: u32 = match d.take_u32() {
            Ok(v) => v,
            Err(e) => return Err(e),
        };
        let applied_rate: u32 = match d.take_u32() {
            Ok(v) => v,
            Err(e) => return Err(e),
        };
        let triggered_at_ms: u64 = match d.take_u64() {
            Ok(v) => v,
            Err(e) => return Err(e),
        };
        let cooldown_until_ms: u64 = match d.take_u64() {
            Ok(v) => v,
            Err(e) => return Err(e),
        };
        Ok(
            PersistedThrottle {
                tenant_id,
                throttled,
                reason,
                original_rate,
                applied_rate,
                triggered_at_ms,
                cooldown_until_ms,
            },
        )
    }
}

impl BaselineRecord {
    /// The stored form.
    pub fn serialize(&self) -> (r: Result<Vec<u8>, QueueError>)
        ensures
            r is Ok,
            r->Ok_0@ == baseline_code(self@),
    {
        let mut e = Encoder::new();
        e.put_str(self.tenant_id.as_str())?;
        e.put_u64(self.short_ema)?;
        e.put_u64(self.long_ema)?;
        e.put_u64(self.spike_threshold)?;
        e.put_u64(self.saved_at_ms)?;
        assert(e@ =~= baseline_code(self@));
        Ok(e.finish())
    }

    /// The baseline stored in `bytes`; what follows it is not looked at.
    pub fn deserialize(bytes: &[u8]) -> (r: Result<BaselineRecord, QueueError>)
        ensures
            match r {
                Ok(b) => read_baseline(bytes@) == Some(b@),
                Err(e) => read_baseline(bytes@) is None && e is Serialization,
            },
    {
        let mut d = Decoder::new(bytes);
        let tenant_id = match d.take_str() {
            Ok(v) => v,
            Err(e) => return Err(e),
        };
        let short_ema: u64 = match d.take_u64() {
            Ok(v) => v,
            Err(e) => return Err(e),
        };
        let long_ema: u64 = match d.take_u64() {
            Ok(v) => v,
            Err(e) => return Err(e),
        };
        let spike_threshold: u64 = match d.take_u64() {
            Ok(v) => v,
            Err(e) => return Err(e),
        };
        let saved_at_ms: u64 = match d.take_u64() {
            Ok(v) => v,
            Err(e) => return Err(e),
        };
        Ok(BaselineRecord { tenant_id, short_ema, long_ema, spike_threshold, saved_at_ms })
    }
}

/// The record that keeps a tenant's traffic.
pub open spec fn stats_record(s: StatsView, now: u64) -> PersistedStatsView {
    PersistedStatsView {
        tenant_id: s.tenant_id,
        arrival_rate: s.arrival_rate,
        processing_rate: s.processing_rate,
        avg_task_latency: s.avg_task_latency,
        burst_score: s.burst_score,
        backlog_ratio: s.backlog_ratio,
        total_enqueued: s.total_enqueued,
        total_acked: s.total_acked,
        total_nacked: s.total_nacked,
        stats_version: s.stats_version,
        flushed_at_ms: now,
    }
}

/// The key of a record of a tenant, of the kind that `label` names.
pub open spec fn record_key(label: Seq<char>, tenant: Seq<char>) -> Seq<u8> {
    encode_utf8(label + tenant)
}

/// The key of a record.
fn key_of(label: &str, tenant: &str) -> (r: Vec<u8>)
    ensures
        r@ == record_key(label@, tenant@),
{
    let key = text::join(label, tenant);
    slice_to_vec(key.as_str().as_bytes())
}

/// The write that keeps a record.
pub open spec fn keep(label: Seq<char>, tenant: Seq<char>, value: Seq<u8>) -> BatchView {
    BatchView {
        ops: seq![
            OpView::Put { cf: tenant::system_name(), key: record_key(label, tenant), value },
        ],
        sync: true,
    }
}

/// The write that drops a record.
pub open spec fn forget(label: Seq<char>, tenant: Seq<char>) -> BatchView {
    BatchView {
        ops: seq![OpView::Delete { cf: tenant::system_name(), key: record_key(label, tenant) }],
        sync: true,
    }
}

/// The write that keeps a record.
fn keep_batch(label: &str, tenant: &str, value: Vec<u8>) -> (r: Batch)
    ensures
        r@ == keep(label@, tenant@, value@),
{
    let mut batch = Batch::admin();
    batch.put(cf_system(), key_of(label, tenant).as_slice(), value);
    assert(batch@.ops =~= keep(label@, tenant@, value@).ops);
    batch
}

/// The write that drops a record.
fn forget_batch(label: &str, tenant: &str) -> (r: Batch)
    ensures
        r@ == forget(label@, tenant@),
{
    let mut batch = Batch::admin();
    batch.delete(cf_system(), key_of(label, tenant).as_slice());
    assert(batch@.ops =~= forget(label@, tenant@).ops);
    batch
}

/// Batches as mathematical values.
pub open spec fn batches_view(v: Seq<Batch>) -> Seq<BatchView> {
    v.map_values(|b: Batch| b@)
}

/// The traffic among records, those left out that hold none.
pub open spec fn stats_among(rs: Seq<RecordView>) -> Seq<PersistedStatsView>
    decreases rs.len(),
{
    if rs.len() == 0 {
        Seq::empty()
    } else {
        match read_stats(rs.last().value) {
            None => stats_among(rs.drop_last()),
            Some(p) => stats_among(rs.drop_last()).push(p),
        }
    }
}

/// The throttles among records, those left out that hold none.
pub open spec fn throttles_among(rs: Seq<RecordView>) -> Seq<ThrottleView>
    decreases rs.len(),
{
    if rs.len() == 0 {
        Seq::empty()
    } else {
        match read_throttle(rs.last().value) {
            None => throttles_among(rs.drop_last()),
            Some(t) => throttles_among(rs.drop_last()).push(t),
        }
    }
}

/// The records with a label at the front of what was read.
pub open spec fn labelled(label: Seq<char>, scan: ScanView) -> Seq<RecordView> {
    scan.records.take(reaper::leading(encode_utf8(label), scan.records) as int)
}

/// How many records at the front of a scan have a label.
fn count_labelled(label: &str, scan: &Scan) -> (r: usize)
    ensures
        r <= scan@.records.len(),
        r == reaper::leading(encode_utf8(label@), scan@.records),
{
    let prefix: &[u8] = label.as_bytes();
    let ghost rs = scan@.records;
    let mut i: usize = 0;
    let mut stopped = false;
    while i < scan.records.len() && !stopped
        invariant
            0 <= i <= scan.records@.len(),
            rs == scan@.records,
            prefix@ == encode_utf8(label@),
            forall|j: int| 0 <= j < i ==> prefix@.is_prefix_of((#[trigger] rs[j]).key),
            stopped ==> i < rs.len() && !prefix@.is_prefix_of(rs[i as int].key),
        decreases scan.records@.len() - i + (if stopped { 0int } else { 1 }),
    {
        assert(rs[i as int] == scan.records@[i as int]@);
        if text::begins_with(scan.records[i].key.as_slice(), prefix) {
            i = i + 1;
        } else {
            stopped = true;
        }
    }
    proof {
        reaper::lemma_leading(prefix@, rs, i as int);
        if i < rs.len() {
            assert(rs.skip(i as int)[0] == rs[i as int]);
        } else {
            assert(rs.skip(i as int).len() == 0);
        }
    }
    i
}

/// The store of the system's own records.
pub struct StatsStore;

impl StatsStore {
    /// The writes that keep the traffic of tenants, one after the other. A
    /// write that fails does not stop the others.
    pub fn flush_stats(stats: &Vec<TenantStats>, now: u64) -> (r: Result<Vec<Batch>, QueueError>)
        ensures
            r is Ok,
            batches_view(r->Ok_0@) == stats@.map_values(
                |s: TenantStats|
                    keep("stats:"@, s@.tenant_id, stats_code(stats_record(s@, now))),
            ),
    {
        let ghost want = stats@.map_values(
            |s: TenantStats| keep("stats:"@, s@.tenant_id, stats_code(stats_record(s@, now))),
        );
        let mut out: Vec<Batch> = Vec::new();
        let mut i: usize = 0;
        assert(batches_view(out@) =~= want.take(0));
        while i < stats.len()
            invariant
                0 <= i <= stats@.len(),
                want == stats@.map_values(
                    |s: TenantStats|
                        keep("stats:"@, s@.tenant_id, stats_code(stats_record(s@, now))),
                ),
                batches_view(out@) == want.take(i as int),
            decreases stats@.len() - i,
        {
            let s = &stats[i];
            let record = PersistedStats {
                tenant_id: s.tenant_id.clone(),
                arrival_rate: s.arrival_rate,
                processing_rate: s.processing_rate,
                avg_task_latency: s.avg_task_latency,
                burst_score: s.burst_score,
                backlog_ratio: s.backlog_ratio,
                total_enqueued: s.total_enqueued,
                total_acked: s.total_acked,
                total_nacked: s.total_nacked,
                stats_version: s.stats_version,
                flushed_at_ms: now,
            };
            assert(record@ =~= stats_record(s@, now));
            let value = match record.serialize() {
                Ok(v) => v,
                Err(e) => return Err(e),
            };
            let ghost before = batches_view(out@);
            let b = keep_batch("stats:", s.tenant_id.as_str(), value);
            out.push(b);
            assert(batches_view(out@) =~= before.push(b@));
            assert(want.take(i + 1) =~= want.take(i as int).push(want[i as int]));
            i = i + 1;
        }
        assert(want.take(i as int) =~= want);
        Ok(out)
    }

    /// The traffic that was kept, on what was read from the first of its keys
    /// on. A record that holds none is passed over, and so is what could not
    /// be read.
    pub fn load_all_stats(scan: &Scan) -> (r: Vec<PersistedStats>)
        ensures
            r@.map_values(|p: PersistedStats| p@) == stats_among(labelled("stats:"@, scan@)),
    {
        let n: usize = count_labelled("stats:", scan);
        let ghost rs = labelled("stats:"@, scan@);
        let mut out: Vec<PersistedStats> = Vec::new();
        let mut i: usize = 0;
        assert(rs.take(0) =~= Seq::<RecordView>::empty());
        assert(out@.map_values(|p: PersistedStats| p@) =~= Seq::<PersistedStatsView>::empty());
        while i < n
            invariant
                0 <= i <= n,
                n <= scan.records@.len(),
                rs == scan@.records.take(n as int),
                out@.map_values(|p: PersistedStats| p@) == stats_among(rs.take(i as int)),
            decreases n - i,
        {
            let record = &scan.records[i];
            assert(rs[i as int] == record@);
            assert(rs.take(i + 1).drop_last() =~= rs.take(i as int));
            assert(rs.take(i + 1).last() == record@);
            if let Ok(p) = PersistedStats::deserialize(record.value.as_slice()) {
                let ghost before = out@.map_values(|p: PersistedStats| p@);
                out.push(p);
                assert(out@.map_values(|p: PersistedStats| p@) =~= before.push(p@));
            }
            i = i + 1;
        }
        assert(rs.take(n as int) =~= rs);
        out
    }

    /// The write that keeps a throttle.
    pub fn persist_throttle(state: &PersistedThrottle) -> (r: Result<Batch, QueueError>)
        ensures
            r is Ok,
            r->Ok_0@ == keep("throttle:"@, state@.tenant_id, throttle_code(state@)),
    {
        match state.serialize() {
            Ok(value) => Ok(keep_batch("throttle:", state.tenant_id.as_str(), value)),
            Err(e) => Err(e),
        }
    }

    /// The write that drops a throttle.
    pub fn clear_throttle(tenant_id: &str) -> (r: Batch)
        ensures
            r@ == forget("throttle:"@, tenant_id@),
    {
        forget_batch("throttle:", tenant_id)
    }

    /// The throttles that were kept, on what was read from the first of their
    /// keys on. A record that holds none is passed over, and so is what could
    /// not be read.
    pub fn load_all_throttles(scan: &Scan) -> (r: Vec<PersistedThrottle>)
        ensures
            r@.map_values(|t: PersistedThrottle| t@) == throttles_among(
                labelled("throttle:"@, scan@),
            ),
    {
        let n: usize = count_labelled("throttle:", scan);
        let ghost rs = labelled("throttle:"@, scan@);
        let mut out: Vec<PersistedThrottle> = Vec::new();
        let mut i: usize = 0;
        assert(rs.take(0) =~= Seq::<RecordView>::empty());
        assert(out@.map_values(|t: PersistedThrottle| t@) =~= Seq::<ThrottleView>::empty());
        while i < n
            invariant
                0 <= i <= n,
                n <= scan.records@.len(),
                rs == scan@.records.take(n as int),
                out@.map_values(|t: PersistedThrottle| t@) == throttles_among(rs.take(i as int)),
            decreases n - i,
        {
            let record = &scan.records[i];
            assert(rs[i as int] == record@);
            assert(rs.take(i + 1).drop_last() =~= rs.take(i as int));
            assert(rs.take(i + 1).last() == record@);
            if let Ok(t) = PersistedThrottle::deserialize(record.value.as_slice()) {
                let ghost before = out@.map_values(|t: PersistedThrottle| t@);
                out.push(t);
                assert(out@.map_values(|t: PersistedThrottle| t@) =~= before.push(t@));
            }
            i = i + 1;
        }
        assert(rs.take(n as int) =~= rs);
        out
    }

    /// The writes that keep baselines, one after the other. A write that fails
    /// does not stop the others.
    pub fn flush_baselines(baselines: &Vec<TenantBaseline>, now: u64) -> (r: Result<
        Vec<Batch>,
        QueueError,
    >)
        ensures
            r is Ok,
            batches_view(r->Ok_0@) == baselines@.map_values(
                |b: TenantBaseline| baseline::kept_as(b@, now),
            ),
    {
        let ghost want = baselines@.map_values(
            |b: TenantBaseline| baseline::kept_as(b@, now),
        );
        let mut out: Vec<Batch> = Vec::new();
        let mut i: usize = 0;
        assert(batches_view(out@) =~= want.take(0));
        while i < baselines.len()
            invariant
                0 <= i <= baselines@.len(),
                want == baselines@.map_values(|b: TenantBaseline| baseline::kept_as(b@, now)),
                batches_view(out@) == want.take(i as int),
            decreases baselines@.len() - i,
        {
            let b = &baselines[i];
            let record = BaselineRecord {
                tenant_id: b.tenant_id.clone(),
                short_ema: b.short_ema,
                long_ema: b.long_ema,
                spike_threshold: b.spike_threshold,
                saved_at_ms: now,
            };
            assert(record@ =~= baseline::record_of(b@, now));
            let value = match record.serialize() {
                Ok(v) => v,
                Err(e) => return Err(e),
            };
            let ghost before = batches_view(out@);
            let batch = keep_batch("baseline:", b.tenant_id.as_str(), value);
            out.push(batch);
            assert(batches_view(out@) =~= before.push(batch@));
            assert(want.take(i + 1) =~= want.take(i as int).push(want[i as int]));
            i = i + 1;
        }
        assert(want.take(i as int) =~= want);
        Ok(out)
    }

    /// The key under which a tenant's baseline is kept.
    pub fn baseline_key(tenant_id: &str) -> (r: Vec<u8>)
        ensures
            r@ == record_key("baseline:"@, tenant_id@),
    {
        key_of("baseline:", tenant_id)
    }

    /// The baseline in what was found under its key; none where nothing was
    /// found or it holds no baseline.
    pub fn load_baseline(found: &Option<Vec<u8>>) -> (r: Option<BaselineRecord>)
        ensures
            match *found {
                None => r is None,
                Some(v) => match r {
                    None => read_baseline(v@) is None,
                    Some(b) => read_baseline(v@) == Some(b@),
                },
            },
    {
        match found {
            None => None,
            Some(v) => match BaselineRecord::deserialize(v.as_slice()) {
                Ok(b) => Some(b),
                Err(_) => None,
            },
        }
    }

    /// The write that drops a tenant's baseline.
    pub fn clear_baseline(tenant_id: &str) -> (r: Batch)
        ensures
            r@ == forget("baseline:"@, tenant_id@),
    {
        forget_batch("baseline:", tenant_id)
    }
}

/// Five numbers are read back as they were.
proof fn lemma_read_five(v: u64, w: u64, x: u64, y: u64, z: u64, rest: Seq<u8>)
    ensures
        read_five(
            spec_u64_to_le_bytes(v) + (spec_u64_to_le_bytes(w) + (spec_u64_to_le_bytes(x) + (
            spec_u64_to_le_bytes(y) + (spec_u64_to_le_bytes(z) + rest)))),
        ) == Some(((v, w, x, y, z), rest)),
{
    let r4 = spec_u64_to_le_bytes(z) + rest;
    let r3 = spec_u64_to_le_bytes(y) + r4;
    let r2 = spec_u64_to_le_bytes(x) + r3;
    let r1 = spec_u64_to_le_bytes(w) + r2;
    codec::lemma_read_u64(v, r1);
    codec::lemma_read_u64(w, r2);
    codec::lemma_read_u64(x, r3);
    codec::lemma_read_u64(y, r4);
    codec::lemma_read_u64(z, rest);
}

/// Kept traffic is read back as it was.
pub proof fn law_stats_roundtrip(p: PersistedStatsView)
    requires
        encode_utf8(p.tenant_id).len() <= u64::MAX,
    ensures
        read_stats(stats_code(p)) == Some(p),
{
    let none = Seq::<u8>::empty();
    let b2 = spec_u64_to_le_bytes(p.total_enqueued) + (spec_u64_to_le_bytes(p.total_acked) + (
    spec_u64_to_le_bytes(p.total_nacked) + (spec_u64_to_le_bytes(p.stats_version) + (
    spec_u64_to_le_bytes(p.flushed_at_ms) + none))));
    let b1 = spec_u64_to_le_bytes(p.arrival_rate) + (spec_u64_to_le_bytes(p.processing_rate) + (
    spec_u64_to_le_bytes(p.avg_task_latency) + (spec_u64_to_le_bytes(p.burst_score) + (
    spec_u64_to_le_bytes(p.backlog_ratio) + b2))));
    assert(stats_code(p) =~= codec::str_code(p.tenant_id) + b1);
    codec::lemma_read_str(p.tenant_id, b1);
    lemma_read_five(
        p.arrival_rate,
        p.processing_rate,
        p.avg_task_latency,
        p.burst_score,
        p.backlog_ratio,
        b2,
    );
    lemma_read_five(
        p.total_enqueued,
        p.total_acked,
        p.total_nacked,
        p.stats_version,
        p.flushed_at_ms,
        none,
    );
}

/// A kept throttle is read back as it was.
pub proof fn law_throttle_roundtrip(t: ThrottleView)
    requires
        encode_utf8(t.tenant_id).len() <= u64::MAX,
        encode_utf8(t.reason).len() <= u64::MAX,
    ensures
        read_throttle(throttle_code(t)) == Some(t),
{
    let none = Seq::<u8>::empty();
    let r6 = spec_u64_to_le_bytes(t.cooldown_until_ms) + none;
    let r5 = spec_u64_to_le_bytes(t.triggered_at_ms) + r6;
    let r4 = spec_u32_to_le_bytes(t.applied_rate) + r5;
    let r3 = spec_u32_to_le_bytes(t.original_rate) + r4;
    let r2 = codec::str_code(t.reason) + r3;
    let r1 = codec::bool_code(t.throttled) + r2;
    assert(throttle_code(t) =~= codec::str_code(t.tenant_id) + r1);
    codec::lemma_read_str(t.tenant_id, r1);
    codec::lemma_read_bool(t.throttled, r2);
    codec::lemma_read_str(t.reason, r3);
    codec::lemma_read_u32(t.original_rate, r4);
    codec::lemma_read_u32(t.applied_rate, r5);
    codec::lemma_read_u64(t.triggered_at_ms, r6);
    codec::lemma_read_u64(t.cooldown_until_ms, none);
}

/// A kept baseline is read back as it was.
pub proof fn law_baseline_roundtrip(b: BaselineRecordView)
    requires
        encode_utf8(b.tenant_id).len() <= u64::MAX,
    ensures
        read_baseline(baseline_code(b)) == Some(b),
{
    let none = Seq::<u8>::empty();
    let r4 = spec_u64_to_le_bytes(b.saved_at_ms) + none;
    let r3 = spec_u64_to_le_bytes(b.spike_threshold) + r4;
    let r2 = spec_u64_to_le_bytes(b.long_ema) + r3;
    let r1 = spec_u64_to_le_bytes(b.short_ema) + r2;
    assert(baseline_code(b) =~= codec::str_code(b.tenant_id) + r1);
    codec::lemma_read_str(b.tenant_id, r1);
    codec::lemma_read_u64(b.short_ema, r2);
    codec::lemma_read_u64(b.long_ema, r3);
    codec::lemma_read_u64(b.spike_threshold, r4);
    codec::lemma_read_u64(b.saved_at_ms, none);
}

/// The ASCII bytes that labels begin with.
proof fn lemma_label_bytes()
    ensures
        encode_utf8("stats:"@).len() == 6,
        encode_utf8("throttle:"@).len() == 9,
        encode_utf8("baseline:"@).len() == 9,
        encode_utf8("tenant:"@).len() == 7,
        encode_utf8("stats:"@)[0] == 's' as u8,
        encode_utf8("throttle:"@)[0] == 't' as u8,
        encode_utf8("throttle:"@)[1] == 'h' as u8,
        encode_utf8("baseline:"@)[0] == 'b' as u8,
        encode_utf8("tenant:"@)[0] == 't' as u8,
        encode_utf8("tenant:"@)[1] == 'e' as u8,
{
    reveal_strlit("stats:");
    reveal_strlit("throttle:");
    reveal_strlit("baseline:");
    reveal_strlit("tenant:");
    is_ascii_chars_encode_utf8("stats:"@);
    is_ascii_chars_encode_utf8("throttle:"@);
    is_ascii_chars_encode_utf8("baseline:"@);
    is_ascii_chars_encode_utf8("tenant:"@);
    assert("stats:"@[0] as u8 == encode_utf8("stats:"@)[0]);
    assert("throttle:"@[0] as u8 == encode_utf8("throttle:"@)[0]);
    assert("throttle:"@[1] as u8 == encode_utf8("throttle:"@)[1]);
    assert("baseline:"@[0] as u8 == encode_utf8("baseline:"@)[0]);
    assert("tenant:"@[0] as u8 == encode_utf8("tenant:"@)[0]);
    assert("tenant:"@[1] as u8 == encode_utf8("tenant:"@)[1]);
}

/// Records of different kinds never share a key, also with the policies of
/// tenants.
pub proof fn law_record_keys_apart(a: Seq<char>, b: Seq<char>)
    ensures
        record_key("stats:"@, a) != record_key("throttle:"@, b),
        record_key("stats:"@, a) != record_key("baseline:"@, b),
        record_key("throttle:"@, a) != record_key("baseline:"@, b),
        record_key("stats:"@, a) != crate::tenant::admin::meta_key(b),
        record_key("throttle:"@, a) != crate::tenant::admin::meta_key(b),
        record_key("baseline:"@, a) != crate::tenant::admin::meta_key(b),
{
    lemma_label_bytes();
    text::lemma_encode_concat("stats:"@, a);
    text::lemma_encode_concat("throttle:"@, a);
    text::lemma_encode_concat("throttle:"@, b);
    text::lemma_encode_concat("baseline:"@, a);
    text::lemma_encode_concat("baseline:"@, b);
    let m = crate::tenant::admin::meta_key(b);
    assert(m[0] == encode_utf8("tenant:"@)[0]);
    assert(m[1] == encode_utf8("tenant:"@)[1]);
    assert(record_key("stats:"@, a)[0] == encode_utf8("stats:"@)[0]);
    assert(record_key("throttle:"@, a)[0] == encode_utf8("throttle:"@)[0]);
    assert(record_key("throttle:"@, a)[1] == encode_utf8("throttle:"@)[1]);
    assert(record_key("throttle:"@, b)[0] == encode_utf8("throttle:"@)[0]);
    assert(record_key("baseline:"@, a)[0] == encode_utf8("baseline:"@)[0]);
    assert(record_key("baseline:"@, b)[0] == encode_utf8("baseline:"@)[0]);
}

/// A record is kept by one write that waits for the disk, among the system's own
/// records, under its label and the tenant's name; it is dropped by one that removes
/// the same key.
pub proof fn law_record_written(label: Seq<char>, tenant: Seq<char>, value: Seq<u8>)
    ensures
        keep(label, tenant, value).sync,
        keep(label, tenant, value).ops.len() == 1,
        keep(label, tenant, value).ops[0] matches OpView::Put { cf, key, value: v } && cf
            == "__system__"@ && key == encode_utf8(label + tenant) && v == value,
        forget(label, tenant).sync,
        forget(label, tenant).ops.len() == 1,
        forget(label, tenant).ops[0] matches OpView::Delete { cf, key } && cf == "__system__"@
            && key == encode_utf8(label + tenant),
{
}

/// What is kept of a tenant's traffic tells its rates, its totals and its version, and
/// when it was kept.
pub proof fn law_traffic_kept(s: StatsView, now: u64)
    requires
        encode_utf8(s.tenant_id).len() <= u64::MAX,
    ensures
        read_stats(stats_code(stats_record(s, now))) matches Some(p) && p.tenant_id == s.tenant_id
            && p.arrival_rate == s.arrival_rate && p.processing_rate == s.processing_rate
            && p.avg_task_latency == s.avg_task_latency && p.burst_score == s.burst_score
            && p.backlog_ratio == s.backlog_ratio && p.total_enqueued == s.total_enqueued
            && p.total_acked == s.total_acked && p.total_nacked == s.total_nacked
            && p.stats_version == s.stats_version && p.flushed_at_ms == now,
{
    law_stats_roundtrip(stats_record(s, now));
}

/// Kept traffic and throttles are read record by record, in their order: one that
/// holds none is passed over and does not stop the others.
pub proof fn law_records_read_in_order(x: Seq<RecordView>, y: Seq<RecordView>, r: RecordView)
    ensures
        stats_among(x + y) == stats_among(x) + stats_among(y),
        stats_among(seq![r]) == (match read_stats(r.value) {
            Some(p) => seq![p],
            None => Seq::empty(),
        }),
        throttles_among(x + y) == throttles_among(x) + throttles_among(y),
        throttles_among(seq![r]) == (match read_throttle(r.value) {
            Some(t) => seq![t],
            None => Seq::empty(),
        }),
    decreases y.len(),
{
    assert(seq![r].drop_last() =~= Seq::<RecordView>::empty());
    reveal_with_fuel(stats_among, 2);
    reveal_with_fuel(throttles_among, 2);
    assert(stats_among(seq![r]) =~= (match read_stats(r.value) {
        Some(p) => seq![p],
        None => Seq::empty(),
    }));
    assert(throttles_among(seq![r]) =~= (match read_throttle(r.value) {
        Some(t) => seq![t],
        None => Seq::empty(),
    }));
    if y.len() == 0 {
        assert(x + y =~= x);
        assert(stats_among(x) + stats_among(y) =~= stats_among(x));
        assert(throttles_among(x) + throttles_among(y) =~= throttles_among(x));
    } else {
        law_records_read_in_order(x, y.drop_last(), r);
        assert((x + y).drop_last() =~= x + y.drop_last());
        assert((x + y).last() == y.last());
        assert(stats_among(x + y) =~= stats_among(x) + stats_among(y));
        assert(throttles_among(x + y) =~= throttles_among(x) + throttles_among(y));
    }
}

/// The records with a label are those at the front whose keys begin with it.
pub proof fn law_labelled_records(label: Seq<char>, scan: ScanView, n: int)
    requires
        0 <= n <= scan.records.len(),
        forall|i: int|
            0 <= i < n ==> encode_utf8(label).is_prefix_of((#[trigger] scan.records[i]).key),
        n < scan.records.len() ==> !encode_utf8(label).is_prefix_of(scan.records[n].key),
    ensures
        labelled(label, scan) == scan.records.take(n),
{
    let rs = scan.records;
    reaper::lemma_leading(encode_utf8(label), rs, n);
    if n < rs.len() {
        assert(rs.skip(n)[0] == rs[n]);
    } else {
        assert(rs.skip(n).len() == 0);
    }
}

/// Where the parts of a stored record of traffic lie: the name, the five fractions, and
/// the five numbers, eight bytes each.
pub proof fn law_traffic_layout(p: PersistedStatsView)
    ensures
        ({
            let b = stats_code(p);
            let n = codec::str_code(p.tenant_id).len() as int;
            &&& b.len() == n + 80
            &&& b.take(n) == codec::str_code(p.tenant_id)
            &&& b.subrange(n, n + 8) == spec_u64_to_le_bytes(p.arrival_rate)
            &&& b.subrange(n + 8, n + 16) == spec_u64_to_le_bytes(p.processing_rate)
            &&& b.subrange(n + 16, n + 24) == spec_u64_to_le_bytes(p.avg_task_latency)
            &&& b.subrange(n + 24, n + 32) == spec_u64_to_le_bytes(p.burst_score)
            &&& b.subrange(n + 32, n + 40) == spec_u64_to_le_bytes(p.backlog_ratio)
            &&& b.subrange(n + 40, n + 48) == spec_u64_to_le_bytes(p.total_enqueued)
            &&& b.subrange(n + 48, n + 56) == spec_u64_to_le_bytes(p.total_acked)
            &&& b.subrange(n + 56, n + 64) == spec_u64_to_le_bytes(p.total_nacked)
            &&& b.subrange(n + 64, n + 72) == spec_u64_to_le_bytes(p.stats_version)
            &&& b.subrange(n + 72, n + 80) == spec_u64_to_le_bytes(p.flushed_at_ms)
        }),
{
    lemma_auto_spec_u64_to_from_le_bytes();
    let b = stats_code(p);
    let n = codec::str_code(p.tenant_id).len() as int;
    assert(b.take(n) =~= codec::str_code(p.tenant_id));
    assert(b.subrange(n, n + 8) =~= spec_u64_to_le_bytes(p.arrival_rate));
    assert(b.subrange(n + 8, n + 16) =~= spec_u64_to_le_bytes(p.processing_rate));
    assert(b.subrange(n + 16, n + 24) =~= spec_u64_to_le_bytes(p.avg_task_latency));
    assert(b.subrange(n + 24, n + 32) =~= spec_u64_to_le_bytes(p.burst_score));
    assert(b.subrange(n + 32, n + 40) =~= spec_u64_to_le_bytes(p.backlog_ratio));
    assert(b.subrange(n + 40, n + 48) =~= spec_u64_to_le_bytes(p.total_enqueued));
    assert(b.subrange(n + 48, n + 56) =~= spec_u64_to_le_bytes(p.total_acked));
    assert(b.subrange(n + 56, n + 64) =~= spec_u64_to_le_bytes(p.total_nacked));
    assert(b.subrange(n + 64, n + 72) =~= spec_u64_to_le_bytes(p.stats_version));
    assert(b.subrange(n + 72, n + 80) =~= spec_u64_to_le_bytes(p.flushed_at_ms));
}

/// Where the parts of a stored throttle lie: the name, whether it counts, the reason,
/// the two rates and the two times.
pub proof fn law_throttle_layout(t: ThrottleView)
    ensures
        ({
            let b = throttle_code(t);
            let n = codec::str_code(t.tenant_id).len() as int;
            let m = n + 1 + codec::str_code(t.reason).len();
            &&& b.len() == m + 24
            &&& b.take(n) == codec::str_code(t.tenant_id)
            &&& b[n] == (if t.throttled {
                1u8
            } else {
                0
            })
            &&& b.subrange(n + 1, m) == codec::str_code(t.reason)
            &&& b.subrange(m, m + 4) == spec_u32_to_le_bytes(t.original_rate)
            &&& b.subrange(m + 4, m + 8) == spec_u32_to_le_bytes(t.applied_rate)
            &&& b.subrange(m + 8, m + 16) == spec_u64_to_le_bytes(t.triggered_at_ms)
            &&& b.subrange(m + 16, m + 24) == spec_u64_to_le_bytes(t.cooldown_until_ms)
        }),
{
    lemma_auto_spec_u32_to_from_le_bytes();
    lemma_auto_spec_u64_to_from_le_bytes();
    let b = throttle_code(t);
    let n = codec::str_code(t.tenant_id).len() as int;
    let m = n + 1 + codec::str_code(t.reason).len();
    assert(b.take(n) =~= codec::str_code(t.tenant_id));
    assert(b.subrange(n + 1, m) =~= codec::str_code(t.reason));
    assert(b.subrange(m, m + 4) =~= spec_u32_to_le_bytes(t.original_rate));
    assert(b.subrange(m + 4, m + 8) =~= spec_u32_to_le_bytes(t.applied_rate));
    assert(b.subrange(m + 8, m + 16) =~= spec_u64_to_le_bytes(t.triggered_at_ms));
    assert(b.subrange(m + 16, m + 24) =~= spec_u64_to_le_bytes(t.cooldown_until_ms));
}

/// Where the parts of a stored baseline lie: the name, the two averages, the threshold
/// and the time.
pub proof fn law_baseline_layout(r: BaselineRecordView)
    ensures
        ({
            let b = baseline_code(r);
            let n = codec::str_code(r.tenant_id).len() as int;
            &&& b.len() == n + 32
            &&& b.take(n) == codec::str_code(r.tenant_id)
            &&& b.subrange(n, n + 8) == spec_u64_to_le_bytes(r.short_ema)
            &&& b.subrange(n + 8, n + 16) == spec_u64_to_le_bytes(r.long_ema)
            &&& b.subrange(n + 16, n + 24) == spec_u64_to_le_bytes(r.spike_threshold)
            &&& b.subrange(n + 24, n + 32) == spec_u64_to_le_bytes(r.saved_at_ms)
        }),
{
    lemma_auto_spec_u64_to_from_le_bytes();
    let b = baseline_code(r);
    let n = codec::str_code(r.tenant_id).len() as int;
    assert(b.take(n) =~= codec::str_code(r.tenant_id));
    assert(b.subrange(n, n + 8) =~= spec_u64_to_le_bytes(r.short_ema));
    assert(b.subrange(n + 8, n + 16) =~= spec_u64_to_le_bytes(r.long_ema));
    assert(b.subrange(n + 16, n + 24) =~= spec_u64_to_le_bytes(r.spike_threshold));
    assert(b.subrange(n + 24, n + 32) =~= spec_u64_to_le_bytes(r.saved_at_ms));
}

} // verus!
