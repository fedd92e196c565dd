//! What is normal for a tenant, and when that has changed.
//!
//! Rates and thresholds are fractions. They are kept here as bit patterns, which
//! are compared as the numbers that they stand for; computing with them is left
//! to the caller.

use vstd::prelude::*;

use crate::error::QueueError;
use crate::fraction;
use crate::stats_store;
use crate::stats_store::{BaselineRecord, BaselineRecordView, StatsStore};
use crate::store::Batch;
use crate::tenant_map::TenantMap;

verus! {

/// The detector of lasting drift: a sum of deviations that must pass a
/// threshold.
#[derive(Debug, Clone, Copy, PartialEq, Eq, Structural)]
pub struct CusumState {
    pub cusum: u64,
    pub h_threshold: u64,
    pub k_slack: u64,
    pub consecutive_calm: u32,
}

/// The detector after a deviation was added, and whether that confirms drift.
pub open spec fn fed(c: CusumState, raised: u64, decayed: u64) -> (CusumState, bool) {
    if fraction::above(raised, c.h_threshold) {
        (CusumState { cusum: raised, ..c }, true)
    } else {
        (
            CusumState {
                cusum: decayed,
                consecutive_calm: (c.consecutive_calm + 1) as u32,
                ..c
            },
            false,
        )
    }
}

/// The detector started anew.
pub open spec fn restarted(c: CusumState, slack: u64) -> CusumState {
    CusumState { cusum: 0, k_slack: slack, consecutive_calm: 0, ..c }
}

impl CusumState {
    /// A detector with a slack and a threshold.
    pub fn new(k_slack: u64, h_threshold: u64) -> (r: Self)
        ensures
            r == (CusumState { cusum: 0, h_threshold, k_slack, consecutive_calm: 0 }),
    {
        CusumState { cusum: 0, h_threshold, k_slack, consecutive_calm: 0 }
    }

    /// Takes in a deviation: `raised` is the sum with it, `decayed` what the
    /// sum fades to while it is calm. Tells whether drift is confirmed.
    pub fn update(&mut self, raised: u64, decayed: u64) -> (r: bool)
        requires
            fraction::above(raised, old(self).h_threshold) || old(self).consecutive_calm < u32::MAX,
        ensures
            (*final(self), r) == fed(*old(self), raised, decayed),
    {
        if fraction::is_above(raised, self.h_threshold) {
            self.cusum = raised;
            return true;
        }
        self.consecutive_calm = self.consecutive_calm + 1;
        self.cusum = decayed;
        false
    }

    /// Starts anew with another slack.
    pub fn reset(&mut self, slack: u64)
        ensures
            *final(self) == restarted(*old(self), slack),
    {
        self.cusum = 0;
        self.k_slack = slack;
        self.consecutive_calm = 0;
    }
}

/// A threshold was raised for good.
#[derive(Debug)]
pub struct BaselinePromotion {
    pub tenant_id: String,
    pub old_threshold: u64,
    pub new_threshold: u64,
    pub new_baseline: u64,
    pub promoted_at_ms: u64,
}

/// A promotion as a mathematical value.
#[verifier::ext_equal]
pub struct PromotionView {
    pub tenant_id: Seq<char>,
    pub old_threshold: u64,
    pub new_threshold: u64,
    pub new_baseline: u64,
    pub promoted_at_ms: u64,
}

impl View for BaselinePromotion {
    type V = PromotionView;

    open spec fn view(&self) -> PromotionView {
        PromotionView {
            tenant_id: self.tenant_id@,
            old_threshold: self.old_threshold,
            new_threshold: self.new_threshold,
            new_baseline: self.new_baseline,
            promoted_at_ms: self.promoted_at_ms,
        }
    }
}

impl Clone for BaselinePromotion {
    fn clone(&self) -> (r: Self)
        ensures
            r@ == self@,
    {
        BaselinePromotion {
            tenant_id: self.tenant_id.clone(),
            old_threshold: self.old_threshold,
            new_threshold: self.new_threshold,
            new_baseline: self.new_baseline,
            promoted_at_ms: self.promoted_at_ms,
        }
    }
}

/// What is normal for a tenant.
#[derive(Debug)]
pub struct TenantBaseline {
    pub tenant_id: String,
    pub short_ema: u64,
    pub long_ema: u64,
    pub rolling_peak: u64,
    pub spike_threshold: u64,
    pub cusum: CusumState,
    pub promotions: Vec<BaselinePromotion>,
    pub last_updated_ms: u64,
    /// The rates of the last five minutes, each with its time.
    pub peak_window: Vec<(u64, u64)>,
}

/// What is normal for a tenant, as a mathematical value.
#[verifier::ext_equal]
pub struct BaselineView {
    pub tenant_id: Seq<char>,
    pub short_ema: u64,
    pub long_ema: u64,
    pub rolling_peak: u64,
    pub spike_threshold: u64,
    pub cusum: CusumState,
    pub promotions: Seq<PromotionView>,
    pub last_updated_ms: u64,
    pub peak_window: Seq<(u64, u64)>,
}

/// Promotions as mathematical values.
pub open spec fn promotions_view(v: Seq<BaselinePromotion>) -> Seq<PromotionView> {
    v.map_values(|p: BaselinePromotion| p@)
}

impl View for TenantBaseline {
    type V = BaselineView;

    open spec fn view(&self) -> BaselineView {
        BaselineView {
            tenant_id: self.tenant_id@,
            short_ema: self.short_ema,
            long_ema: self.long_ema,
            rolling_peak: self.rolling_peak,
            spike_threshold: self.spike_threshold,
            cusum: self.cusum,
            promotions: promotions_view(self.promotions@),
            last_updated_ms: self.last_updated_ms,
            peak_window: self.peak_window@,
        }
    }
}

impl Clone for TenantBaseline {
    fn clone(&self) -> (r: Self)
        ensures
            r@ == self@,
    {
        let mut promotions: Vec<BaselinePromotion> = Vec::new();
        let mut i: usize = 0;
        assert(promotions_view(promotions@) =~= promotions_view(self.promotions@).take(0));
        while i < self.promotions.len()
            invariant
                0 <= i <= self.promotions@.len(),
                promotions_view(promotions@) == promotions_view(self.promotions@).take(i as int),
            decreases self.promotions@.len() - i,
        {
            let p = self.promotions[i].clone();
            let ghost before = promotions_view(promotions@);
            promotions.push(p);
            assert(promotions_view(promotions@) =~= before.push(p@));
            assert(promotions_view(self.promotions@).take(i + 1) =~= before.push(
                self.promotions@[i as int]@,
            ));
            i = i + 1;
        }
        assert(promotions_view(self.promotions@).take(i as int) =~= promotions_view(
            self.promotions@,
        ));
        let mut window: Vec<(u64, u64)> = Vec::new();
        let mut k: usize = 0;
        assert(window@ =~= self.peak_window@.take(0));
        while k < self.peak_window.len()
            invariant
                0 <= k <= self.peak_window@.len(),
                window@ == self.peak_window@.take(k as int),
            decreases self.peak_window@.len() - k,
        {
            window.push(self.peak_window[k]);
            k = k + 1;
            assert(window@ =~= self.peak_window@.take(k as int));
        }
        assert(self.peak_window@.take(k as int) =~= self.peak_window@);
        TenantBaseline {
            tenant_id: self.tenant_id.clone(),
            short_ema: self.short_ema,
            long_ema: self.long_ema,
            rolling_peak: self.rolling_peak,
            spike_threshold: self.spike_threshold,
            cusum: self.cusum,
            promotions,
            last_updated_ms: self.last_updated_ms,
            peak_window: window,
        }
    }
}

/// From where a baseline starts.
#[derive(Debug, Clone, Copy, PartialEq, Eq, Structural)]
pub struct BaselineStart {
    pub rate: u64,
    pub spike_threshold: u64,
    pub k_slack: u64,
    pub h_threshold: u64,
}

/// A baseline that has just been started.
pub open spec fn new_baseline(tenant_id: Seq<char>, start: BaselineStart, now: u64) -> BaselineView {
    BaselineView {
        tenant_id,
        short_ema: start.rate,
        long_ema: start.rate,
        rolling_peak: start.rate,
        spike_threshold: start.spike_threshold,
        cusum: CusumState {
            cusum: 0,
            h_threshold: start.h_threshold,
            k_slack: start.k_slack,
            consecutive_calm: 0,
        },
        promotions: Seq::empty(),
        last_updated_ms: now,
        peak_window: Seq::empty(),
    }
}

/// How far back peaks count, in milliseconds.
pub const PEAK_WINDOW_MS: u64 = 300_000;

/// How many promotions are remembered.
pub const MAX_PROMOTIONS: usize = 20;

/// The first moment that counts for a peak.
pub open spec fn window_start(now: u64) -> u64 {
    if now >= PEAK_WINDOW_MS {
        (now - PEAK_WINDOW_MS) as u64
    } else {
        0
    }
}

/// The entries that are not too old, in their order.
pub open spec fn recent(w: Seq<(u64, u64)>, start: u64) -> Seq<(u64, u64)>
    decreases w.len(),
{
    if w.len() == 0 {
        Seq::empty()
    } else if w.last().0 >= start {
        recent(w.drop_last(), start).push(w.last())
    } else {
        recent(w.drop_last(), start)
    }
}

/// The highest rate of a window, and 0 where none is above it.
pub open spec fn peak(w: Seq<(u64, u64)>) -> u64
    decreases w.len(),
{
    if w.len() == 0 {
        0
    } else {
        let before = peak(w.drop_last());
        if fraction::above(w.last().1, before) {
            w.last().1
        } else {
            before
        }
    }
}

/// The baseline after a rate was seen.
pub open spec fn observed(
    b: BaselineView,
    rate: u64,
    short_ema: u64,
    long_ema: u64,
    now: u64,
) -> BaselineView {
    let w = recent(b.peak_window.push((now, rate)), window_start(now));
    BaselineView { short_ema, long_ema, peak_window: w, rolling_peak: peak(w), ..b }
}

/// What a possible promotion looks like.
#[derive(Debug, Clone, Copy, PartialEq, Eq, Structural)]
pub struct Proposal {
    pub new_baseline: u64,
    pub new_threshold: u64,
    /// What the new threshold must exceed.
    pub bar: u64,
    /// The slack after a promotion.
    pub promoted_slack: u64,
    /// The slack after a false alarm.
    pub calm_slack: u64,
}

/// The last twenty of the promotions and one more.
pub open spec fn remembered(ps: Seq<PromotionView>, p: PromotionView) -> Seq<PromotionView> {
    if ps.len() + 1 > MAX_PROMOTIONS {
        ps.push(p).remove(0)
    } else {
        ps.push(p)
    }
}

/// The promotion that a proposal makes.
pub open spec fn promotion_of(b: BaselineView, p: Proposal, now: u64) -> PromotionView {
    PromotionView {
        tenant_id: b.tenant_id,
        old_threshold: b.spike_threshold,
        new_threshold: p.new_threshold,
        new_baseline: p.new_baseline,
        promoted_at_ms: now,
    }
}

/// Whether a deviation leads to a promotion: drift is confirmed, and the
/// threshold would grow enough.
pub open spec fn promotes(b: BaselineView, raised: u64, p: Proposal) -> bool {
    fraction::above(raised, b.cusum.h_threshold) && fraction::above(p.new_threshold, p.bar)
}

/// The baseline after the deviation was judged.
pub open spec fn judged(
    b: BaselineView,
    raised: u64,
    decayed: u64,
    p: Proposal,
    now: u64,
) -> BaselineView {
    let (c, drift) = fed(b.cusum, raised, decayed);
    if promotes(b, raised, p) {
        BaselineView {
            spike_threshold: p.new_threshold,
            long_ema: p.new_baseline,
            cusum: restarted(c, p.promoted_slack),
            promotions: remembered(b.promotions, promotion_of(b, p, now)),
            ..b
        }
    } else if drift {
        BaselineView { cusum: restarted(c, p.calm_slack), last_updated_ms: now, ..b }
    } else {
        BaselineView { cusum: c, last_updated_ms: now, ..b }
    }
}

impl TenantBaseline {
    /// A baseline that starts at a rate.
    pub fn new(tenant_id: &str, start: &BaselineStart, now: u64) -> (r: Self)
        ensures
            r@ == new_baseline(tenant_id@, *start, now),
    {
        let r = TenantBaseline {
            tenant_id: tenant_id.to_owned(),
            short_ema: start.rate,
            long_ema: start.rate,
            rolling_peak: start.rate,
            spike_threshold: start.spike_threshold,
            cusum: CusumState::new(start.k_slack, start.h_threshold),
            promotions: Vec::new(),
            last_updated_ms: now,
            peak_window: Vec::new(),
        };
        assert(r@ =~= new_baseline(tenant_id@, *start, now));
        r
    }

    /// Takes in a rate with the averages that follow from it, and gives the
    /// peak of the last five minutes.
    pub fn observe(&mut self, rate: u64, short_ema: u64, long_ema: u64, now: u64) -> (r: u64)
        ensures
            final(self)@ == observed(old(self)@, rate, short_ema, long_ema, now),
            r == final(self)@.rolling_peak,
    {
        self.short_ema = short_ema;
        self.long_ema = long_ema;
        self.peak_window.push((now, rate));
        let start: u64 = now.saturating_sub(PEAK_WINDOW_MS);
        let ghost w = self.peak_window@;
        let mut kept: Vec<(u64, u64)> = Vec::new();
        let mut top: u64 = 0;
        let mut i: usize = 0;
        assert(w.take(0) =~= Seq::<(u64, u64)>::empty());
        while i < self.peak_window.len()
            invariant
                0 <= i <= self.peak_window@.len(),
                w == self.peak_window@,
                kept@ == recent(w.take(i as int), start),
                top == peak(kept@),
            decreases self.peak_window@.len() - i,
        {
            let entry: (u64, u64) = self.peak_window[i];
            assert(w.take(i + 1).drop_last() =~= w.take(i as int));
            assert(w.take(i + 1).last() == entry);
            if entry.0 >= start {
                let ghost before = kept@;
                kept.push(entry);
                assert(kept@.drop_last() =~= before);
                if fraction::is_above(entry.1, top) {
                    top = entry.1;
                }
            }
            i = i + 1;
        }
        assert(w.take(i as int) =~= w);
        self.peak_window = kept;
        self.rolling_peak = top;
        top
    }

    /// Judges a deviation. Lasting drift raises the threshold for good, if it
    /// raises it enough; otherwise the detector starts anew.
    pub fn update(&mut self, raised: u64, decayed: u64, proposal: &Proposal, now: u64) -> (r:
        Option<BaselinePromotion>)
        requires
            fraction::above(raised, old(self)@.cusum.h_threshold)
                || old(self)@.cusum.consecutive_calm < u32::MAX,
        ensures
            final(self)@ == judged(old(self)@, raised, decayed, *proposal, now),
            r is Some <==> promotes(old(self)@, raised, *proposal),
            r matches Some(p) ==> p@ == promotion_of(old(self)@, *proposal, now),
    {
        let drift = self.cusum.update(raised, decayed);
        if drift {
            if fraction::is_above(proposal.new_threshold, proposal.bar) {
                let promotion = BaselinePromotion {
                    tenant_id: self.tenant_id.clone(),
                    old_threshold: self.spike_threshold,
                    new_threshold: proposal.new_threshold,
                    new_baseline: proposal.new_baseline,
                    promoted_at_ms: now,
                };
                self.spike_threshold = proposal.new_threshold;
                self.long_ema = proposal.new_baseline;
                self.cusum.reset(proposal.promoted_slack);
                let ghost before = promotions_view(self.promotions@);
                self.promotions.push(promotion.clone());
                assert(promotions_view(self.promotions@) =~= before.push(promotion@));
                if self.promotions.len() > MAX_PROMOTIONS {
                    let _ = self.promotions.remove(0);
                    assert(promotions_view(self.promotions@) =~= before.push(promotion@).remove(0));
                }
                return Some(promotion);
            }
            self.cusum.reset(proposal.calm_slack);
        }
        self.last_updated_ms = now;
        None
    }
}

/// The record that keeps a baseline.
pub open spec fn record_of(b: BaselineView, now: u64) -> BaselineRecordView {
    BaselineRecordView {
        tenant_id: b.tenant_id,
        short_ema: b.short_ema,
        long_ema: b.long_ema,
        spike_threshold: b.spike_threshold,
        saved_at_ms: now,
    }
}

/// A baseline that goes on from a kept record: the peak starts at the long
/// average.
pub open spec fn resumed(b: BaselineView, r: BaselineRecordView) -> BaselineView {
    BaselineView {
        short_ema: r.short_ema,
        long_ema: r.long_ema,
        rolling_peak: r.long_ema,
        spike_threshold: r.spike_threshold,
        ..b
    }
}

/// The baselines of all tenants.
pub struct BaselineRegistry {
    baselines: TenantMap<TenantBaseline>,
}

/// Baselines as mathematical values.
pub open spec fn baselines_view(m: Map<Seq<char>, TenantBaseline>) -> Map<Seq<char>, BaselineView> {
    m.map_values(|b: TenantBaseline| b@)
}

impl View for BaselineRegistry {
    type V = Map<Seq<char>, BaselineView>;

    closed spec fn view(&self) -> Map<Seq<char>, BaselineView> {
        baselines_view(self.baselines@)
    }
}

impl BaselineRegistry {
    /// The map of tenants is in order.
    pub closed spec fn wf(&self) -> bool {
        self.baselines.wf()
    }

    /// The tenants in the order in which they are walked.
    pub closed spec fn order(&self) -> Seq<Seq<char>> {
        self.baselines.order()
    }

    /// The tenants that are walked are those that are known, each once.
    pub proof fn lemma_order(&self)
        requires
            self.wf(),
        ensures
            self.order().no_duplicates(),
            forall|k: Seq<char>| #[trigger] self@.contains_key(k) <==> self.order().contains(
                k,
            ),
            forall|i: int|
                0 <= i < self.order().len() ==> self@.contains_key(#[trigger] self.order()[i]),
    {
        self.baselines.lemma_order();
        assert forall|k: Seq<char>| #[trigger] self@.contains_key(k) <==> self.order().contains(
            k,
        ) by {
            assert(self@.contains_key(k) == self.baselines@.contains_key(k));
        }
        assert forall|i: int| 0 <= i < self.order().len() implies self@.contains_key(
            #[trigger] self.order()[i],
        ) by {
            assert(self.baselines@.contains_key(self.order()[i]));
        }
    }

    /// A registry without tenants.
    pub fn new() -> (r: Self)
        ensures
            r.wf(),
            r@ == Map::<Seq<char>, BaselineView>::empty(),
            r.order() == Seq::<Seq<char>>::empty(),
    {
        let r = BaselineRegistry { baselines: TenantMap::new() };
        assert(r@ =~= Map::<Seq<char>, BaselineView>::empty());
        r
    }

    /// Puts a tenant's baseline in place of what was there.
    fn put(&mut self, name: &str, b: TenantBaseline)
        requires
            old(self).wf(),
        ensures
            final(self).wf(),
            final(self)@ == old(self)@.insert(name@, b@),
    {
        self.baselines.insert(name, b);
        assert(self@ =~= old(self)@.insert(name@, b@));
    }

    /// Registers a tenant anew, from a kept record if there is one.
    pub fn register(
        &mut self,
        tenant_id: &str,
        start: &BaselineStart,
        record: &Option<BaselineRecord>,
        now: u64,
    )
        requires
            old(self).wf(),
        ensures
            final(self).wf(),
            final(self)@ == old(self)@.insert(
                tenant_id@,
                match *record {
                    None => new_baseline(tenant_id@, *start, now),
                    Some(r) => resumed(new_baseline(tenant_id@, *start, now), r@),
                },
            ),
    {
        let mut b = TenantBaseline::new(tenant_id, start, now);
        if let Some(r) = record {
            b.short_ema = r.short_ema;
            b.long_ema = r.long_ema;
            b.rolling_peak = r.long_ema;
            b.spike_threshold = r.spike_threshold;
        }
        self.put(tenant_id, b);
    }

    /// Removes a tenant.
    pub fn deregister(&mut self, tenant_id: &str)
        requires
            old(self).wf(),
        ensures
            final(self).wf(),
            final(self)@ == old(self)@.remove(tenant_id@),
    {
        self.baselines.remove(tenant_id);
        assert(self@ =~= old(self)@.remove(tenant_id@));
    }

    /// Takes in a tenant's rate; gives the peak, if the tenant is known.
    pub fn observe(
        &mut self,
        tenant_id: &str,
        rate: u64,
        short_ema: u64,
        long_ema: u64,
        now: u64,
    ) -> (r: Option<u64>)
        requires
            old(self).wf(),
        ensures
            final(self).wf(),
            r is Some <==> old(self)@.contains_key(tenant_id@),
            r matches Some(p) ==> p == observed(
                old(self)@[tenant_id@],
                rate,
                short_ema,
                long_ema,
                now,
            ).rolling_peak,
            final(self)@ == (if old(self)@.contains_key(tenant_id@) {
                old(self)@.insert(
                    tenant_id@,
                    observed(old(self)@[tenant_id@], rate, short_ema, long_ema, now),
                )
            } else {
                old(self)@
            }),
    {
        match self.snapshot(tenant_id) {
            None => None,
            Some(found) => {
                let mut b = found;
                let top: u64 = b.observe(rate, short_ema, long_ema, now);
                self.put(tenant_id, b);
                Some(top)
            },
        }
    }

    /// Judges a tenant's deviation; gives the promotion, if there is one.
    pub fn update(
        &mut self,
        tenant_id: &str,
        raised: u64,
        decayed: u64,
        proposal: &Proposal,
        now: u64,
    ) -> (r: Option<BaselinePromotion>)
        requires
            old(self).wf(),
            old(self)@.contains_key(tenant_id@) ==> fraction::above(
                raised,
                old(self)@[tenant_id@].cusum.h_threshold,
            ) || old(self)@[tenant_id@].cusum.consecutive_calm < u32::MAX,
        ensures
            final(self).wf(),
            r is Some <==> old(self)@.contains_key(tenant_id@) && promotes(
                old(self)@[tenant_id@],
                raised,
                *proposal,
            ),
            r matches Some(p) ==> p@ == promotion_of(old(self)@[tenant_id@], *proposal, now),
            final(self)@ == (if old(self)@.contains_key(tenant_id@) {
                old(self)@.insert(
                    tenant_id@,
                    judged(old(self)@[tenant_id@], raised, decayed, *proposal, now),
                )
            } else {
                old(self)@
            }),
    {
        match self.snapshot(tenant_id) {
            None => None,
            Some(found) => {
                let mut b = found;
                let r = b.update(raised, decayed, proposal, now);
                self.put(tenant_id, b);
                r
            },
        }
    }

    /// Whether a rate is above what is normal for a tenant; nothing is for a
    /// tenant that is not known.
    pub fn is_spike(&self, tenant_id: &str, rate: u64) -> (r: bool)
        requires
            self.wf(),
        ensures
            r == (self@.contains_key(tenant_id@) && fraction::above(
                rate,
                self@[tenant_id@].spike_threshold,
            )),
    {
        match self.baselines.get(tenant_id) {
            None => false,
            Some(b) => fraction::is_above(rate, b.spike_threshold),
        }
    }

    /// The rate above which a tenant's traffic is a spike.
    pub fn spike_threshold(&self, tenant_id: &str) -> (r: Option<u64>)
        requires
            self.wf(),
        ensures
            r is Some <==> self@.contains_key(tenant_id@),
            r matches Some(t) ==> t == self@[tenant_id@].spike_threshold,
    {
        match self.baselines.get(tenant_id) {
            None => None,
            Some(b) => Some(b.spike_threshold),
        }
    }

    /// A tenant's baseline.
    pub fn snapshot(&self, tenant_id: &str) -> (r: Option<TenantBaseline>)
        requires
            self.wf(),
        ensures
            r is Some <==> self@.contains_key(tenant_id@),
            r matches Some(b) ==> b@ == self@[tenant_id@],
    {
        match self.baselines.get(tenant_id) {
            None => None,
            Some(b) => Some(b.clone()),
        }
    }

    /// The baselines of all tenants, in the order in which they are walked.
    pub fn all_snapshots(&self) -> (r: Vec<TenantBaseline>)
        requires
            self.wf(),
        ensures
            r@.len() == self.order().len(),
            forall|i: int| 0 <= i < r@.len() ==> (#[trigger] r@[i])@ == self@[self.order()[i]],
    {
        let mut r: Vec<TenantBaseline> = Vec::new();
        let n: usize = self.baselines.len();
        let mut i: usize = 0;
        while i < n
            invariant
                self.wf(),
                0 <= i <= n,
                n == self.order().len(),
                r@.len() == i,
                forall|k: int| 0 <= k < i ==> (#[trigger] r@[k])@ == self@[self.order()[k]],
            decreases n - i,
        {
            proof {
                self.baselines.lemma_order();
                assert(self.baselines@.contains_key(self.order()[i as int]));
            }
            r.push(self.baselines.value_at(i).clone());
            i = i + 1;
        }
        r
    }

    /// The writes that keep all baselines.
    pub fn flush(&self, now: u64) -> (r: Result<Vec<Batch>, QueueError>)
        requires
            self.wf(),
        ensures
            r is Ok,
            stats_store::batches_view(r->Ok_0@) == self.order().map_values(
                |n: Seq<char>| kept_as(self@[n], now),
            ),
    {
        let snapshots = self.all_snapshots();
        let r = StatsStore::flush_baselines(&snapshots, now);
        assert(stats_store::batches_view(r->Ok_0@) =~= self.order().map_values(
            |n: Seq<char>| kept_as(self@[n], now),
        ));
        r
    }
}

/// The write that keeps a baseline.
pub open spec fn kept_as(b: BaselineView, now: u64) -> crate::store::BatchView {
    stats_store::keep(
        "baseline:"@,
        b.tenant_id,
        stats_store::baseline_code(record_of(b, now)),
    )
}

/// No entry of the window is older than five minutes, and no younger one is
/// lost.
pub proof fn law_window_is_recent(w: Seq<(u64, u64)>, start: u64, e: (u64, u64))
    ensures
        recent(w, start).contains(e) <==> w.contains(e) && e.0 >= start,
    decreases w.len(),
{
    let r = recent(w, start);
    if w.len() > 0 {
        let rest = w.drop_last();
        law_window_is_recent(rest, start, e);
        let before = recent(rest, start);
        if r.contains(e) {
            let j = choose|j: int| 0 <= j < r.len() && r[j] == e;
            if j < before.len() {
                assert(before[j] == e);
                let i = choose|i: int| 0 <= i < rest.len() && rest[i] == e;
                assert(w[i] == e);
            } else {
                assert(w[w.len() - 1] == e);
            }
        }
        if w.contains(e) && e.0 >= start {
            let i = choose|i: int| 0 <= i < w.len() && w[i] == e;
            if i < rest.len() {
                assert(rest[i] == e);
                assert(before.contains(e));
                let j = choose|j: int| 0 <= j < before.len() && before[j] == e;
                assert(r[j] == e);
            } else {
                assert(r[r.len() - 1] == e);
            }
        }
    }
}

/// The peak is a number that is not negative, no rate of the window is above it,
/// and unless it is zero it is one of them.
pub proof fn law_peak_is_highest(w: Seq<(u64, u64)>)
    ensures
        !fraction::is_nan(peak(w)),
        fraction::rank(peak(w)) >= 0,
        forall|i: int| 0 <= i < w.len() ==> !fraction::above((#[trigger] w[i]).1, peak(w)),
        peak(w) == 0 || (exists|i: int| 0 <= i < w.len() && (#[trigger] w[i]).1 == peak(w)),
    decreases w.len(),
{
    if w.len() > 0 {
        let rest = w.drop_last();
        law_peak_is_highest(rest);
        assert forall|i: int| 0 <= i < w.len() implies !fraction::above(
            (#[trigger] w[i]).1,
            peak(w),
        ) by {
            if i < rest.len() {
                assert(rest[i] == w[i]);
            }
        }
        if fraction::above(w.last().1, peak(rest)) {
            assert(w[w.len() - 1].1 == peak(w));
        } else if peak(rest) != 0 {
            let i = choose|i: int| 0 <= i < rest.len() && (#[trigger] rest[i]).1 == peak(rest);
            assert(w[i].1 == peak(w));
        }
    }
}

/// The newest rate is always in the window, so it is never above the peak.
pub proof fn law_peak_covers_newest(
    b: BaselineView,
    rate: u64,
    short_ema: u64,
    long_ema: u64,
    now: u64,
)
    ensures
        !fraction::above(rate, observed(b, rate, short_ema, long_ema, now).rolling_peak),
{
    let pushed = b.peak_window.push((now, rate));
    let w = recent(pushed, window_start(now));
    assert(pushed.drop_last() =~= b.peak_window);
    assert(w[w.len() - 1] == (now, rate));
    law_peak_is_highest(w);
}

/// No more than twenty promotions are remembered, and the newest always is.
pub proof fn law_promotions_bounded(
    b: BaselineView,
    raised: u64,
    decayed: u64,
    p: Proposal,
    now: u64,
)
    requires
        b.promotions.len() <= MAX_PROMOTIONS,
    ensures
        judged(b, raised, decayed, p, now).promotions.len() <= MAX_PROMOTIONS,
        promotes(b, raised, p) ==> judged(b, raised, decayed, p, now).promotions.last()
            == promotion_of(b, p, now),
{
}

/// A threshold changes only through a promotion, which raises it above the bar;
/// without confirmed drift nothing is promoted.
pub proof fn law_threshold_changes_by_promotion(
    b: BaselineView,
    raised: u64,
    decayed: u64,
    p: Proposal,
    now: u64,
)
    ensures
        ({
            let after = judged(b, raised, decayed, p, now);
            if promotes(b, raised, p) {
                after.spike_threshold == p.new_threshold && fraction::above(
                    after.spike_threshold,
                    p.bar,
                ) && fraction::above(raised, b.cusum.h_threshold) && after.cusum.cusum == 0
            } else {
                after.spike_threshold == b.spike_threshold && after.promotions == b.promotions
            }
        }),
{
}

/// The rule of an update as a whole: a rate is taken in and the deviation is
/// judged. Without a promotion the threshold and the promotions stay. With one,
/// it tells the old threshold and the new one, the new one is above the bar,
/// the long average is the new baseline, the sum starts over, and the promotion
/// is remembered last. So where the threshold is not above the bar, it never
/// falls.
pub proof fn law_update_rule(
    b: BaselineView,
    rate: u64,
    short_ema: u64,
    long_ema: u64,
    raised: u64,
    decayed: u64,
    p: Proposal,
    now: u64,
)
    requires
        b.promotions.len() <= MAX_PROMOTIONS,
    ensures
        ({
            let seen = observed(b, rate, short_ema, long_ema, now);
            let after = judged(seen, raised, decayed, p, now);
            let told = promotion_of(seen, p, now);
            &&& after.promotions.len() <= MAX_PROMOTIONS
            &&& after.rolling_peak == seen.rolling_peak
            &&& if promotes(seen, raised, p) {
                &&& told.old_threshold == b.spike_threshold
                &&& after.spike_threshold == told.new_threshold
                &&& fraction::above(told.new_threshold, p.bar)
                &&& after.long_ema == told.new_baseline
                &&& after.cusum.cusum == 0
                &&& after.promotions.last() == told
            } else {
                &&& after.spike_threshold == b.spike_threshold
                &&& after.promotions == b.promotions
                &&& after.long_ema == long_ema
            }
            &&& !fraction::above(b.spike_threshold, p.bar) ==> !fraction::above(
                b.spike_threshold,
                after.spike_threshold,
            )
        }),
{
}

/// A baseline that is kept and resumed has its averages and its threshold
/// again.
pub proof fn law_baseline_resumes(b: BaselineView, start: BaselineStart, saved: u64, now: u64)
    requires
        vstd::utf8::encode_utf8(b.tenant_id).len() <= u64::MAX,
    ensures
        ({
            let kept = stats_store::read_baseline(
                stats_store::baseline_code(record_of(b, saved)),
            );
            let again = resumed(new_baseline(b.tenant_id, start, now), kept->0);
            &&& kept is Some
            &&& again.short_ema == b.short_ema
            &&& again.long_ema == b.long_ema
            &&& again.rolling_peak == b.long_ema
            &&& again.spike_threshold == b.spike_threshold
        }),
{
    stats_store::law_baseline_roundtrip(record_of(b, saved));
}

/// The detector: a sum above the threshold confirms drift and stays; else the sum
/// fades and one more calm reading is counted. The threshold and the slack stay.
pub proof fn law_drift_confirmed_above_threshold(c: CusumState, raised: u64, decayed: u64)
    requires
        c.consecutive_calm < u32::MAX,
    ensures
        ({
            let (d, drift) = fed(c, raised, decayed);
            &&& drift <==> fraction::above(raised, c.h_threshold)
            &&& drift ==> d.cusum == raised && d.consecutive_calm == c.consecutive_calm
            &&& !drift ==> d.cusum == decayed && d.consecutive_calm == c.consecutive_calm + 1
            &&& d.h_threshold == c.h_threshold
            &&& d.k_slack == c.k_slack
        }),
{
}

/// A detector that starts over has no sum and no calm readings, the new slack, and
/// its threshold.
pub proof fn law_detector_starts_over(c: CusumState, slack: u64)
    ensures
        restarted(c, slack).cusum == 0,
        restarted(c, slack).consecutive_calm == 0,
        restarted(c, slack).k_slack == slack,
        restarted(c, slack).h_threshold == c.h_threshold,
{
}

/// A promotion needs both: confirmed drift, and a threshold that would pass the bar.
pub proof fn law_promotion_needs_both(b: BaselineView, raised: u64, p: Proposal)
    ensures
        promotes(b, raised, p) <==> fraction::above(raised, b.cusum.h_threshold)
            && fraction::above(p.new_threshold, p.bar),
{
}

/// What judging leaves, besides the threshold: after a promotion the detector starts
/// over with the new slack; after a false alarm it does so with the slack of the long
/// average; while it is calm the sum fades. What was observed stays. The time is noted
/// where nothing was promoted.
pub proof fn law_judgement_leaves(
    b: BaselineView,
    raised: u64,
    decayed: u64,
    p: Proposal,
    now: u64,
)
    requires
        b.cusum.consecutive_calm < u32::MAX,
    ensures
        ({
            let a = judged(b, raised, decayed, p, now);
            let drift = fraction::above(raised, b.cusum.h_threshold);
            let grows = fraction::above(p.new_threshold, p.bar);
            &&& a.tenant_id == b.tenant_id && a.short_ema == b.short_ema && a.rolling_peak
                == b.rolling_peak && a.peak_window == b.peak_window
            &&& a.cusum.h_threshold == b.cusum.h_threshold
            &&& drift && grows ==> a.long_ema == p.new_baseline && a.spike_threshold
                == p.new_threshold && a.cusum.cusum == 0 && a.cusum.k_slack == p.promoted_slack
                && a.cusum.consecutive_calm == 0 && a.last_updated_ms == b.last_updated_ms
            &&& !(drift && grows) ==> a.long_ema == b.long_ema && a.spike_threshold
                == b.spike_threshold && a.promotions == b.promotions && a.last_updated_ms == now
            &&& drift && !grows ==> a.cusum.cusum == 0 && a.cusum.k_slack == p.calm_slack
                && a.cusum.consecutive_calm == 0
            &&& !drift ==> a.cusum.cusum == decayed && a.cusum.k_slack == b.cusum.k_slack
                && a.cusum.consecutive_calm == b.cusum.consecutive_calm + 1
        }),
{
}

/// A promotion tells the tenant, the threshold before and after, the new baseline and
/// the time, and is remembered behind the others, of which the oldest goes where there
/// are twenty.
pub proof fn law_promotion_remembered(
    b: BaselineView,
    raised: u64,
    decayed: u64,
    p: Proposal,
    now: u64,
)
    requires
        b.promotions.len() <= 20,
        promotes(b, raised, p),
    ensures
        ({
            let told = promotion_of(b, p, now);
            let after = judged(b, raised, decayed, p, now).promotions;
            &&& told.tenant_id == b.tenant_id
            &&& told.old_threshold == b.spike_threshold
            &&& told.new_threshold == p.new_threshold
            &&& told.new_baseline == p.new_baseline
            &&& told.promoted_at_ms == now
            &&& b.promotions.len() < 20 ==> after == b.promotions.push(told)
            &&& b.promotions.len() == 20 ==> after == b.promotions.skip(1).push(told)
        }),
{
    let told = promotion_of(b, p, now);
    if b.promotions.len() == 20 {
        assert(b.promotions.push(told).remove(0) =~= b.promotions.skip(1).push(told));
    }
}

/// A rate is taken in: the averages are noted, and the window holds the new rate
/// behind those of the last five minutes, and no older one. The peak is that of the
/// window; the threshold, the detector and the promotions stay.
pub proof fn law_rate_taken_in(
    b: BaselineView,
    rate: u64,
    short_ema: u64,
    long_ema: u64,
    now: u64,
    e: (u64, u64),
)
    ensures
        ({
            let a = observed(b, rate, short_ema, long_ema, now);
            &&& a.short_ema == short_ema && a.long_ema == long_ema
            &&& a.peak_window.len() > 0 && a.peak_window.last() == (now, rate)
            &&& a.peak_window.contains(e) <==> (b.peak_window.contains(e) || e == (now, rate))
                && e.0 + 300_000 >= now
            &&& a.rolling_peak == peak(a.peak_window)
            &&& a.tenant_id == b.tenant_id && a.spike_threshold == b.spike_threshold && a.cusum
                == b.cusum && a.promotions == b.promotions && a.last_updated_ms
                == b.last_updated_ms
        }),
{
    let pushed = b.peak_window.push((now, rate));
    law_window_is_recent(pushed, window_start(now), e);
    if b.peak_window.contains(e) {
        let i = choose|i: int| 0 <= i < b.peak_window.len() && b.peak_window[i] == e;
        assert(pushed[i] == e);
    }
    assert(pushed[pushed.len() - 1] == (now, rate));
    if pushed.contains(e) && e != (now, rate) {
        let i = choose|i: int| 0 <= i < pushed.len() && pushed[i] == e;
        assert(b.peak_window[i] == e);
    }
}

/// Rates stay in the order in which they were seen.
pub proof fn law_window_in_order(x: Seq<(u64, u64)>, y: Seq<(u64, u64)>, start: u64)
    ensures
        recent(x + y, start) == recent(x, start) + recent(y, start),
    decreases y.len(),
{
    if y.len() == 0 {
        assert(x + y =~= x);
        assert(recent(x, start) + recent(y, start) =~= recent(x, start));
    } else {
        law_window_in_order(x, y.drop_last(), start);
        assert((x + y).drop_last() =~= x + y.drop_last());
        assert((x + y).last() == y.last());
        assert(recent(x + y, start) =~= recent(x, start) + recent(y, start));
    }
}

/// Where a baseline starts: at its rate with its threshold, its slack and the
/// detector's threshold, without a history; with a kept record it starts at the
/// averages and the threshold of that, and its peak at the long average.
pub proof fn law_baseline_starts(
    tenant_id: Seq<char>,
    start: BaselineStart,
    r: BaselineRecordView,
    now: u64,
)
    ensures
        ({
            let b = new_baseline(tenant_id, start, now);
            &&& b.tenant_id == tenant_id
            &&& b.short_ema == start.rate && b.long_ema == start.rate && b.rolling_peak
                == start.rate
            &&& b.spike_threshold == start.spike_threshold
            &&& b.cusum.cusum == 0 && b.cusum.h_threshold == start.h_threshold && b.cusum.k_slack
                == start.k_slack && b.cusum.consecutive_calm == 0
            &&& b.promotions.len() == 0 && b.peak_window.len() == 0
            &&& b.last_updated_ms == now
            &&& ({
                let c = resumed(b, r);
                &&& c.short_ema == r.short_ema && c.long_ema == r.long_ema && c.rolling_peak
                    == r.long_ema && c.spike_threshold == r.spike_threshold
                &&& c.tenant_id == b.tenant_id && c.cusum == b.cusum && c.promotions
                    == b.promotions && c.last_updated_ms == b.last_updated_ms && c.peak_window
                    == b.peak_window
            })
        }),
{
}

/// What is kept of a baseline: its averages and its threshold, under the tenant's
/// name, with the time.
pub proof fn law_baseline_kept(b: BaselineView, now: u64)
    requires
        vstd::utf8::encode_utf8(b.tenant_id).len() <= u64::MAX,
    ensures
        ({
            let w = kept_as(b, now);
            &&& w.sync
            &&& w.ops.len() == 1
            &&& w.ops[0] matches crate::store::OpView::Put { cf, key, value } && cf
                == "__system__"@ && key == vstd::utf8::encode_utf8("baseline:"@ + b.tenant_id) && (
            stats_store::read_baseline(value) matches Some(r) && r.tenant_id == b.tenant_id
                && r.short_ema == b.short_ema && r.long_ema == b.long_ema && r.spike_threshold
                == b.spike_threshold && r.saved_at_ms == now)
        }),
{
    stats_store::law_baseline_roundtrip(record_of(b, now));
}

} // verus!
