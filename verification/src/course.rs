//! The course of one scan over its planned inputs: what the cache or the disk
//! gives for each, what is queued for the cache, and what comes out.

use vstd::prelude::*;

use crate::cache::{CacheSession, PendingView, SessionView, TOUCH_INTERVAL_SECS};
use crate::order::views;
use crate::plan::{
    base_first, finish_scan, CommitResult, Fingerprint, PlanView, PlannedView, ScanPlan, ScanRun, ScanStats,
};
use crate::scan::{ScanEntry, ScanEntryView};
use crate::workspace::{Scanned, ScannedView};

verus! {

/// What the cache gave for an input.
#[derive(Debug)]
pub enum Lookup {
    /// A stored payload that was last used then, decoded.
    Hit { last_used: i64, entries: Vec<ScanEntry> },
    /// A stored payload that could not be decoded.
    Corrupt { last_used: i64 },
    /// Nothing is stored for this fingerprint.
    Miss,
    /// The cache itself failed.
    Failed,
}

/// The model of a [`Lookup`].
pub enum LookupView {
    Hit { last_used: i64, entries: Seq<ScanEntryView> },
    Corrupt { last_used: i64 },
    Miss,
    Failed,
}

impl View for Lookup {
    type V = LookupView;

    open spec fn view(&self) -> LookupView {
        match *self {
            Lookup::Hit { last_used, entries } => LookupView::Hit {
                last_used,
                entries: views(entries@),
            },
            Lookup::Corrupt { last_used } => LookupView::Corrupt { last_used },
            Lookup::Miss => LookupView::Miss,
            Lookup::Failed => LookupView::Failed,
        }
    }
}

/// What a scan does next.
#[derive(Debug, Clone, Copy, PartialEq, Eq, Structural)]
pub enum CourseStep {
    /// The input at that place of the plan is looked up, and read if need be.
    Input(usize),
    /// What is queued goes to the cache; where that writes anything but marks of
    /// use, the user is told.
    Commit { announce: bool },
    /// There is no cache to write to.
    Finish,
}

/// A scan under way. The inputs are done in the order of the plan.
#[derive(Debug)]
pub struct ScanCourse {
    pub plan: ScanPlan,
    pub run: ScanRun,
    /// What is queued for the cache; nothing where there is no usable one.
    pub cache: Option<CacheSession>,
    pub scanned: Vec<Scanned>,
}

/// The model of a [`ScanCourse`].
pub struct CourseView {
    pub plan: PlanView,
    pub run: ScanRun,
    pub cache: Option<SessionView>,
    pub scanned: Seq<ScannedView>,
}

impl View for ScanCourse {
    type V = CourseView;

    open spec fn view(&self) -> CourseView {
        CourseView {
            plan: self.plan@,
            run: self.run,
            cache: match self.cache {
                Some(session) => Some(session@),
                None => None,
            },
            scanned: views(self.scanned@),
        }
    }
}

/// Entries with the role of the input that they come from.
pub open spec fn placed(entries: Seq<ScanEntryView>, is_base: bool) -> Seq<ScannedView> {
    entries.map_values(|entry: ScanEntryView| ScannedView { is_base, entry })
}

/// A session after a record was found. One that was long unused is marked.
pub open spec fn touched(session: SessionView, key: Seq<char>, last_used: i64) -> SessionView {
    SessionView {
        touches: if last_used < session.now - TOUCH_INTERVAL_SECS {
            session.touches.insert(key)
        } else {
            session.touches
        },
        ..session
    }
}

impl CourseView {
    /// The input that is to be done next.
    pub open spec fn current(self) -> PlannedView {
        self.plan.inputs[self.run.done as int]
    }

    /// What is done next.
    pub open spec fn next(self) -> CourseStep {
        if self.run.done < self.plan.inputs.len() {
            CourseStep::Input(self.run.done)
        } else {
            match self.cache {
                Some(session) => CourseStep::Commit { announce: session.writes() },
                None => CourseStep::Finish,
            }
        }
    }

    /// Whether a lookup gives the entries of the current input.
    pub open spec fn settled_by(self, lookup: LookupView) -> bool {
        self.cache is Some && lookup is Hit
    }

    /// What the scan counted.
    pub open spec fn stats(self, discovery_failures: usize, commit: CommitResult) -> ScanStats {
        ScanStats {
            discovered_inputs: (self.plan.inputs.len() + self.plan.fingerprint_failures) as usize,
            discovery_failures,
            cache_hits: self.run.cache_hits,
            cache_misses: self.run.cache_misses,
            fingerprint_failures: self.plan.fingerprint_failures as usize,
            scan_failures: self.run.scan_failures,
            cache_written: commit is Done,
            cache_updated: commit matches CommitResult::Done { updated } && updated,
        }
    }

    /// The course after a lookup. A corrupt payload is dropped from the cache,
    /// and a cache that fails is not asked again.
    pub open spec fn after_lookup(self, lookup: LookupView) -> CourseView {
        match self.cache {
            None => self,
            Some(session) => match lookup {
                LookupView::Hit { last_used, entries } => CourseView {
                    run: ScanRun {
                        done: (self.run.done + 1) as usize,
                        cache_hits: (self.run.cache_hits + 1) as usize,
                        ..self.run
                    },
                    cache: Some(touched(session, self.current().key, last_used)),
                    scanned: self.scanned + placed(entries, self.current().is_base),
                    ..self
                },
                LookupView::Corrupt { last_used } => {
                    let found = touched(session, self.current().key, last_used);
                    CourseView {
                        cache: Some(
                            SessionView {
                                invalid: found.invalid.insert(self.current().key),
                                ..found
                            },
                        ),
                        ..self
                    }
                },
                LookupView::Miss => self,
                LookupView::Failed => CourseView { cache: None, ..self },
            },
        }
    }

    /// The course after the current input was scanned, or could not be. What
    /// could be encoded is queued for the cache, under the fingerprint that
    /// the bytes were read with.
    pub open spec fn after_scan(
        self,
        result: Option<(Fingerprint, Seq<ScanEntryView>)>,
        payload: Option<Seq<u8>>,
    ) -> CourseView {
        let run = ScanRun {
            done: (self.run.done + 1) as usize,
            cache_misses: (self.run.cache_misses + 1) as usize,
            ..self.run
        };
        match result {
            None => CourseView {
                run: ScanRun { scan_failures: (run.scan_failures + 1) as usize, ..run },
                ..self
            },
            Some((fingerprint, entries)) => CourseView {
                run,
                cache: match (self.cache, payload) {
                    (Some(session), Some(bytes)) => Some(
                        SessionView {
                            pending: session.pending.push(
                                PendingView {
                                    path: self.current().key,
                                    fingerprint,
                                    payload: bytes,
                                },
                            ),
                            ..session
                        },
                    ),
                    _ => self.cache,
                },
                scanned: self.scanned + placed(entries, self.current().is_base),
                ..self
            },
        }
    }
}

impl ScanCourse {
    pub open spec fn wf(&self) -> bool {
        &&& self.plan.wf()
        &&& self.run.wf()
        &&& self.run.total == self.plan.inputs@.len()
        &&& self.cache matches Some(session) ==> session.wf()
    }

    /// Starts a scan of the planned inputs.
    pub fn new(plan: ScanPlan, cache: Option<CacheSession>) -> (r: ScanCourse)
        requires
            plan.wf(),
            cache matches Some(session) ==> session.wf(),
        ensures
            r.wf(),
            r.plan == plan,
            r.cache == cache,
            r.run == (ScanRun {
                total: plan.inputs@.len() as usize,
                done: 0,
                cache_hits: 0,
                cache_misses: 0,
                scan_failures: 0,
            }),
            r.scanned@.len() == 0,
    {
        let run = ScanRun::new(plan.inputs.len());
        ScanCourse { plan, run, cache, scanned: Vec::new() }
    }

    /// Whether a cache is in use.
    pub fn caches(&self) -> (r: bool)
        ensures
            r == self@.cache is Some,
    {
        self.cache.is_some()
    }

    /// Says what is done next.
    pub fn next_step(&self) -> (r: CourseStep)
        requires
            self.wf(),
        ensures
            r == self@.next(),
    {
        if self.run.done < self.plan.inputs.len() {
            CourseStep::Input(self.run.done)
        } else {
            match &self.cache {
                Some(session) => CourseStep::Commit { announce: session.has_pending_writes() },
                None => CourseStep::Finish,
            }
        }
    }

    fn push_entries(&mut self, entries: Vec<ScanEntry>, is_base: bool)
        ensures
            final(self).plan == old(self).plan,
            final(self).run == old(self).run,
            final(self).cache == old(self).cache,
            views(final(self).scanned@) == views(old(self).scanned@) + placed(
                views(entries@),
                is_base,
            ),
    {
        let ghost before = views(self.scanned@);
        let ghost whole = views(entries@);
        let ghost kept = *self;
        assert(before + placed(whole.take(0), is_base) =~= before);
        for entry in it: entries
            invariant
                views(it.seq()) == whole,
                self.plan == kept.plan,
                self.run == kept.run,
                self.cache == kept.cache,
                views(self.scanned@) == before + placed(whole.take(it.index() as int), is_base),
        {
            let ghost so_far = views(self.scanned@);
            let ghost i = it.index() as int;
            let item = Scanned { is_base, entry };
            let ghost view = item@;
            self.scanned.push(item);
            assert(views(self.scanned@) =~= so_far.push(view));
            assert(view.entry == whole[i]);
            assert(placed(whole.take(i + 1), is_base) =~= placed(whole.take(i), is_base).push(
                view,
            ));
            assert(before + placed(whole.take(i + 1), is_base) =~= (before + placed(
                whole.take(i),
                is_base,
            )).push(view));
        }
        assert(whole.take(whole.len() as int) =~= whole);
    }

    /// Takes what the cache gave for the current input. Says whether that
    /// settles it; otherwise it is to be scanned.
    pub fn take_lookup(&mut self, lookup: Lookup) -> (settled: bool)
        requires
            old(self).wf(),
            old(self).run.done < old(self).plan.inputs@.len(),
        ensures
            final(self).wf(),
            final(self)@ == old(self)@.after_lookup(lookup@),
            settled == old(self)@.settled_by(lookup@),
    {
        let at: usize = self.run.done;
        let is_base = self.plan.inputs[at].is_base;
        assert(self@.current() == self.plan.inputs@[at as int]@);
        match self.cache.take() {
            None => false,
            Some(mut session) => match lookup {
                Lookup::Hit { last_used, entries } => {
                    session.found(self.plan.inputs[at].key.as_str(), last_used);
                    self.cache = Some(session);
                    self.run.hit();
                    self.push_entries(entries, is_base);
                    true
                },
                Lookup::Corrupt { last_used } => {
                    session.found(self.plan.inputs[at].key.as_str(), last_used);
                    session.invalidate(self.plan.inputs[at].key.as_str());
                    self.cache = Some(session);
                    false
                },
                Lookup::Miss => {
                    self.cache = Some(session);
                    false
                },
                Lookup::Failed => false,
            },
        }
    }

    /// Takes what scanning the current input gave, with its payload for the
    /// cache where it could be encoded.
    pub fn take_scan(
        &mut self,
        result: Option<(Fingerprint, Vec<ScanEntry>)>,
        payload: Option<Vec<u8>>,
    )
        requires
            old(self).wf(),
            old(self).run.done < old(self).plan.inputs@.len(),
        ensures
            final(self).wf(),
            final(self)@ == old(self)@.after_scan(
                (match result {
                    Some((fingerprint, entries)) => Some((fingerprint, views(entries@))),
                    None => None,
                }),
                (match payload {
                    Some(bytes) => Some(bytes@),
                    None => None,
                }),
            ),
    {
        let at: usize = self.run.done;
        let is_base = self.plan.inputs[at].is_base;
        assert(self@.current() == self.plan.inputs@[at as int]@);
        match result {
            None => {
                self.run.miss(false);
            },
            Some((fingerprint, entries)) => {
                self.run.miss(true);
                match (self.cache.take(), payload) {
                    (Some(mut session), Some(bytes)) => {
                        let key = self.plan.inputs[at].key.clone();
                        session.queue_store(key, fingerprint, bytes);
                        self.cache = Some(session);
                    },
                    (cache, _) => {
                        self.cache = cache;
                    },
                }
                self.push_entries(entries, is_base);
            },
        }
    }

    /// Sums up the scan.
    pub fn finish(self, discovery_failures: usize, commit: CommitResult) -> (r: (
        Vec<Scanned>,
        ScanStats,
    ))
        requires
            self.wf(),
        ensures
            r.0 == self.scanned,
            r.1 == self@.stats(discovery_failures, commit),
    {
        let stats = finish_scan(&self.plan, discovery_failures, &self.run, commit);
        (self.scanned, stats)
    }
}

/// All that happens to one input. The last two count where the lookup does not
/// settle it.
pub struct InputEvent {
    pub lookup: LookupView,
    pub scan: Option<(Fingerprint, Seq<ScanEntryView>)>,
    pub payload: Option<Seq<u8>>,
}

impl CourseView {
    /// The course after one more input.
    pub open spec fn step(self, event: InputEvent) -> CourseView {
        if self.settled_by(event.lookup) {
            self.after_lookup(event.lookup)
        } else {
            self.after_lookup(event.lookup).after_scan(event.scan, event.payload)
        }
    }

    /// The entries that the current input gives.
    pub open spec fn given(self, event: InputEvent) -> Seq<ScanEntryView> {
        if self.settled_by(event.lookup) {
            event.lookup->entries
        } else {
            match event.scan {
                Some((_, entries)) => entries,
                None => Seq::empty(),
            }
        }
    }

    /// The course after several inputs.
    pub open spec fn played(self, events: Seq<InputEvent>) -> CourseView
        decreases events.len(),
    {
        if events.len() == 0 {
            self
        } else {
            self.played(events.drop_last()).step(events.last())
        }
    }

    /// The entries of several inputs, in the order of the plan, each with the
    /// role that the plan gives its input.
    pub open spec fn collected(self, events: Seq<InputEvent>) -> Seq<ScannedView>
        decreases events.len(),
    {
        if events.len() == 0 {
            self.scanned
        } else {
            let before = events.drop_last();
            self.collected(before) + placed(
                self.played(before).given(events.last()),
                self.plan.inputs[self.run.done + before.len()].is_base,
            )
        }
    }
}

/// What a scan gives is what its inputs give, in the order of the plan and with
/// the roles of the plan, wherever the entries come from.
pub proof fn law_results_follow_the_plan(start: CourseView, events: Seq<InputEvent>)
    requires
        start.run.done + events.len() <= start.plan.inputs.len() <= usize::MAX,
    ensures
        start.played(events).scanned == start.collected(events),
        start.played(events).plan == start.plan,
        start.played(events).run.done == start.run.done + events.len(),
    decreases events.len(),
{
    if events.len() > 0 {
        let before = events.drop_last();
        law_results_follow_the_plan(start, before);
        let course = start.played(before);
        assert(course.scanned + placed(Seq::empty(), course.current().is_base)
            =~= course.scanned);
    }
}

/// No entry of a base input comes after one of a workspace input.
pub open spec fn base_entries_first(entries: Seq<ScannedView>) -> bool {
    forall|i: int, j: int|
        #![trigger entries[i], entries[j]]
        0 <= i < j < entries.len() && entries[j].is_base ==> entries[i].is_base
}

/// All entries of base inputs come before those of workspace inputs, so that the
/// workspace overrides the base.
pub proof fn law_base_entries_come_first(start: CourseView, events: Seq<InputEvent>)
    requires
        base_first(start.plan.inputs),
        start.run.done == 0,
        start.scanned.len() == 0,
        events.len() <= start.plan.inputs.len() <= usize::MAX,
    ensures
        base_entries_first(start.played(events).scanned),
        events.len() > 0 && start.plan.inputs[events.len() - 1].is_base ==> (forall|i: int|
            0 <= i < start.played(events).scanned.len() ==> (#[trigger] start.played(
                events,
            ).scanned[i]).is_base),
    decreases events.len(),
{
    if events.len() > 0 {
        let before = events.drop_last();
        let n = events.len() - 1;
        law_base_entries_come_first(start, before);
        law_results_follow_the_plan(start, before);
        law_results_follow_the_plan(start, events);
        let had = start.played(before).scanned;
        let here = placed(
            start.played(before).given(events.last()),
            start.plan.inputs[n].is_base,
        );
        let all = start.played(events).scanned;
        assert(all == had + here);
        if start.plan.inputs[n].is_base {
            if n > 0 {
                assert(start.plan.inputs[n - 1].is_base);
            } else {
                assert(had =~= Seq::empty());
            }
            assert forall|i: int| 0 <= i < all.len() implies (#[trigger] all[i]).is_base by {
                if i < had.len() {
                    assert(all[i] == had[i]);
                } else {
                    assert(all[i] == here[i - had.len()]);
                }
            }
        } else {
            assert forall|i: int, j: int|
                #![trigger all[i], all[j]]
                0 <= i < j < all.len() && all[j].is_base implies all[i].is_base by {
                if j >= had.len() {
                    assert(all[j] == here[j - had.len()]);
                } else {
                    assert(all[i] == had[i] && all[j] == had[j]);
                }
            }
        }
    }
}

/// Two scans of the same inputs give the same, as soon as each input gives the
/// same entries in both: one that takes them from the cache gives what one
/// that read them gave.
pub proof fn law_warm_scan_is_identical(
    cold: CourseView,
    warm: CourseView,
    read: Seq<InputEvent>,
    reused: Seq<InputEvent>,
)
    requires
        cold.plan.inputs == warm.plan.inputs,
        cold.run.done == warm.run.done,
        cold.scanned == warm.scanned,
        read.len() == reused.len(),
        forall|i: int|
            0 <= i < read.len() ==> cold.played(#[trigger] read.take(i)).given(read[i])
                == warm.played(reused.take(i)).given(reused[i]),
    ensures
        cold.collected(read) == warm.collected(reused),
    decreases read.len(),
{
    if read.len() > 0 {
        let n = read.len() - 1;
        assert(read.take(n) =~= read.drop_last());
        assert(reused.take(n) =~= reused.drop_last());
        assert forall|i: int| 0 <= i < n implies cold.played(
            #[trigger] read.drop_last().take(i),
        ).given(read.drop_last()[i]) == warm.played(reused.drop_last().take(i)).given(
            reused.drop_last()[i],
        ) by {
            assert(read.drop_last().take(i) =~= read.take(i));
            assert(reused.drop_last().take(i) =~= reused.take(i));
        }
        law_warm_scan_is_identical(cold, warm, read.drop_last(), reused.drop_last());
    }
}

/// A scan that finds every input in the cache, and all used lately, queues
/// nothing: the cache is not written.
pub proof fn law_warm_scan_writes_nothing(start: CourseView, events: Seq<InputEvent>)
    requires
        start.cache is Some,
        forall|i: int|
            0 <= i < events.len() ==> ((#[trigger] events[i]).lookup matches LookupView::Hit {
                last_used,
                entries,
            } && last_used >= start.cache->Some_0.now - TOUCH_INTERVAL_SECS),
    ensures
        start.played(events).cache == start.cache,
    decreases events.len(),
{
    if events.len() > 0 {
        assert forall|i: int| 0 <= i < events.drop_last().len() implies ((
        #[trigger] events.drop_last()[i]).lookup matches LookupView::Hit { last_used, entries }
            && last_used >= start.cache->Some_0.now - TOUCH_INTERVAL_SECS) by {
            assert(events.drop_last()[i] == events[i]);
        }
        law_warm_scan_writes_nothing(start, events.drop_last());
        assert(events.last() == events[events.len() - 1]);
    }
}

/// The record that a cache keeps of several for a path: the last one.
pub open spec fn record_for(records: Seq<PendingView>, path: Seq<char>) -> Option<PendingView>
    decreases records.len(),
{
    if records.len() == 0 {
        None
    } else if records.last().path == path {
        Some(records.last())
    } else {
        record_for(records.drop_last(), path)
    }
}

/// What a cache that holds these records, all last used then, gives for an
/// input. `decode` reads a payload back.
pub open spec fn answer(
    records: Seq<PendingView>,
    last_used: i64,
    decode: spec_fn(Seq<u8>) -> Option<Seq<ScanEntryView>>,
    input: PlannedView,
) -> LookupView {
    match record_for(records, input.key) {
        Some(record) => if record.fingerprint == input.fingerprint {
            match decode(record.payload) {
                Some(entries) => LookupView::Hit { last_used, entries },
                None => LookupView::Corrupt { last_used },
            }
        } else {
            LookupView::Miss
        },
        None => LookupView::Miss,
    }
}

impl CourseView {
    /// A scan that did nothing yet, with a cache and nothing queued for it.
    pub open spec fn fresh(self) -> bool {
        &&& self.plan.sound()
        &&& self.plan.inputs.len() <= usize::MAX
        &&& self.run == ScanRun {
            total: self.plan.inputs.len() as usize,
            done: 0,
            cache_hits: 0,
            cache_misses: 0,
            scan_failures: 0,
        }
        &&& self.scanned.len() == 0
        &&& self.cache matches Some(session) && session == session.emptied()
    }
}

/// An input that the cache does not hold, that is read unchanged, and whose
/// payload can be read back.
pub open spec fn read_well(
    event: InputEvent,
    input: PlannedView,
    decode: spec_fn(Seq<u8>) -> Option<Seq<ScanEntryView>>,
) -> bool {
    &&& event.lookup is Miss
    &&& event.scan matches Some((fingerprint, entries)) && fingerprint == input.fingerprint
        && (event.payload matches Some(payload) && decode(payload) == Some(entries))
}

/// The records of inputs that were all read.
spec fn records_of(inputs: Seq<PlannedView>, read: Seq<InputEvent>) -> Seq<PendingView> {
    Seq::new(
        read.len(),
        |i: int|
            PendingView {
                path: inputs[i].key,
                fingerprint: inputs[i].fingerprint,
                payload: read[i].payload->Some_0,
            },
    )
}

proof fn lemma_cold_course(
    cold: CourseView,
    read: Seq<InputEvent>,
    decode: spec_fn(Seq<u8>) -> Option<Seq<ScanEntryView>>,
)
    requires
        cold.fresh(),
        read.len() <= cold.plan.inputs.len(),
        forall|i: int|
            0 <= i < read.len() ==> read_well(#[trigger] read[i], cold.plan.inputs[i], decode),
    ensures
        cold.played(read).plan == cold.plan,
        cold.played(read).run == (ScanRun {
            done: read.len() as usize,
            cache_misses: read.len() as usize,
            ..cold.run
        }),
        cold.played(read).cache == Some(
            SessionView { pending: records_of(cold.plan.inputs, read), ..cold.cache->Some_0 },
        ),
    decreases read.len(),
{
    let inputs = cold.plan.inputs;
    if read.len() > 0 {
        let before = read.drop_last();
        assert forall|i: int| 0 <= i < before.len() implies read_well(
            #[trigger] before[i],
            inputs[i],
            decode,
        ) by {
            assert(before[i] == read[i]);
        }
        lemma_cold_course(cold, before, decode);
        assert(read_well(read[read.len() - 1], inputs[read.len() - 1], decode));
        assert(records_of(inputs, read) =~= records_of(inputs, before).push(
            PendingView {
                path: inputs[read.len() - 1].key,
                fingerprint: inputs[read.len() - 1].fingerprint,
                payload: read.last().payload->Some_0,
            },
        ));
    } else {
        assert(records_of(inputs, read) =~= Seq::empty());
    }
}

proof fn lemma_record_kept(inputs: Seq<PlannedView>, read: Seq<InputEvent>, n: int, i: int)
    requires
        0 <= i < n <= read.len() <= inputs.len(),
        forall|a: int, b: int|
            #![trigger inputs[a], inputs[b]]
            0 <= a < b < inputs.len() ==> inputs[a].key != inputs[b].key,
    ensures
        record_for(records_of(inputs, read).take(n), inputs[i].key) == Some(
            records_of(inputs, read)[i],
        ),
    decreases n,
{
    let all = records_of(inputs, read);
    assert(all.take(n).drop_last() =~= all.take(n - 1));
    assert(all.take(n).last() == all[n - 1]);
    if i < n - 1 {
        assert(inputs[i].key != inputs[n - 1].key);
        lemma_record_kept(inputs, read, n - 1, i);
    }
}

proof fn lemma_warm_course(warm: CourseView, reused: Seq<InputEvent>)
    requires
        warm.fresh(),
        reused.len() <= warm.plan.inputs.len(),
        forall|i: int|
            0 <= i < reused.len() ==> ((#[trigger] reused[i]).lookup matches LookupView::Hit {
                last_used,
                entries,
            } && last_used >= warm.cache->Some_0.now - TOUCH_INTERVAL_SECS),
    ensures
        warm.played(reused).cache == warm.cache,
        warm.played(reused).run == (ScanRun {
            done: reused.len() as usize,
            cache_hits: reused.len() as usize,
            ..warm.run
        }),
    decreases reused.len(),
{
    if reused.len() > 0 {
        let before = reused.drop_last();
        assert forall|i: int| 0 <= i < before.len() implies ((
        #[trigger] before[i]).lookup matches LookupView::Hit { last_used, entries }
            && last_used >= warm.cache->Some_0.now - TOUCH_INTERVAL_SECS) by {
            assert(before[i] == reused[i]);
        }
        lemma_warm_course(warm, before);
        assert(reused.last() == reused[reused.len() - 1]);
    }
}

/// A scan of unchanged inputs after one that read and stored them all, soon
/// enough that no record needs a mark of use: every input comes from the cache,
/// the entries are the same in the same order, and nothing is written. Payloads
/// are taken to read back as what was written, and the cache to answer with
/// what was queued for it.
pub proof fn law_warm_scan_follows_cold_scan(
    cold: CourseView,
    warm: CourseView,
    read: Seq<InputEvent>,
    reused: Seq<InputEvent>,
    decode: spec_fn(Seq<u8>) -> Option<Seq<ScanEntryView>>,
)
    requires
        cold.fresh(),
        warm.fresh(),
        warm.plan.inputs == cold.plan.inputs,
        read.len() == cold.plan.inputs.len(),
        reused.len() == read.len(),
        forall|i: int|
            0 <= i < read.len() ==> read_well(#[trigger] read[i], cold.plan.inputs[i], decode),
        warm.cache->Some_0.now - TOUCH_INTERVAL_SECS <= cold.cache->Some_0.now,
        forall|i: int|
            0 <= i < reused.len() ==> (#[trigger] reused[i]).lookup == answer(
                cold.played(read).cache->Some_0.pending,
                cold.cache->Some_0.now,
                decode,
                warm.plan.inputs[i],
            ),
    ensures
        warm.played(reused).scanned == cold.played(read).scanned,
        ({
            let commit = CommitResult::Done { updated: true };
            let stats = cold.played(read).stats(0, commit);
            &&& stats.cache_hits == 0
            &&& stats.cache_misses == read.len()
            &&& stats.scan_failures == 0
            &&& stats.cache_written
        }),
        read.len() > 0 ==> cold.played(read).cache->Some_0.writes(),
        ({
            let commit = CommitResult::Done { updated: false };
            let stats = warm.played(reused).stats(0, commit);
            &&& stats.cache_hits == read.len()
            &&& warm.plan.fingerprint_failures == 0 ==> stats.cache_hits
                == stats.discovered_inputs
            &&& stats.cache_misses == 0
            &&& stats.scan_failures == 0
            &&& stats.cache_written
            &&& !stats.cache_updated
        }),
        warm.played(reused).cache matches Some(session) && !session.writes() && (forall|epoch: i64|
         #[trigger]
            session.step_at(epoch) is Nothing),
        warm.played(reused).next() == (CourseStep::Commit { announce: false }),
        read.len() > 0 ==> cold.played(read).next() == (CourseStep::Commit { announce: true }),
{
    let inputs = cold.plan.inputs;
    lemma_cold_course(cold, read, decode);
    let records = records_of(inputs, read);
    assert forall|i: int| 0 <= i < reused.len() implies (#[trigger] reused[i]).lookup
        == (LookupView::Hit {
        last_used: cold.cache->Some_0.now,
        entries: read[i].scan->Some_0.1,
    }) by {
        assert(read_well(read[i], inputs[i], decode));
        lemma_record_kept(inputs, read, read.len() as int, i);
        assert(records.take(read.len() as int) =~= records);
    }
    lemma_warm_course(warm, reused);
    assert forall|i: int| 0 <= i < read.len() implies cold.played(#[trigger] read.take(i)).given(
        read[i],
    ) == warm.played(reused.take(i)).given(reused[i]) by {
        let some = read.take(i);
        let same = reused.take(i);
        assert forall|j: int| 0 <= j < some.len() implies read_well(
            #[trigger] some[j],
            inputs[j],
            decode,
        ) by {
            assert(some[j] == read[j]);
        }
        assert forall|j: int| 0 <= j < same.len() implies ((
        #[trigger] same[j]).lookup matches LookupView::Hit { last_used, entries } && last_used
            >= warm.cache->Some_0.now - TOUCH_INTERVAL_SECS) by {
            assert(same[j] == reused[j]);
        }
        lemma_cold_course(cold, some, decode);
        lemma_warm_course(warm, same);
        assert(read_well(read[i], inputs[i], decode));
        assert(reused[i].lookup is Hit);
    }
    assert(cold.scanned =~= warm.scanned);
    law_warm_scan_is_identical(cold, warm, read, reused);
    law_results_follow_the_plan(cold, read);
    law_results_follow_the_plan(warm, reused);
    let last = warm.cache->Some_0;
    assert(last.pending.len() == 0 && last.touches.len() == 0 && last.invalid.len() == 0);
}

/// An input that could not be scanned leaves nothing in the cache, so that the
/// next scan tries it again.
pub proof fn law_failed_input_is_not_stored(course: CourseView, payload: Option<Seq<u8>>)
    ensures
        course.after_scan(None, payload).cache == course.cache,
        course.after_scan(None, payload).scanned == course.scanned,
{
}

/// A corrupt payload drops the record of that input, and of no other.
pub proof fn law_corrupt_payload_drops_one_record(
    course: CourseView,
    last_used: i64,
    key: Seq<char>,
)
    requires
        course.cache is Some,
    ensures
        ({
            let before = course.cache->Some_0;
            let after = course.after_lookup(LookupView::Corrupt { last_used }).cache;
            &&& after is Some
            &&& after->Some_0.pending == before.pending
            &&& after->Some_0.invalid.contains(course.current().key)
            &&& key != course.current().key ==> after->Some_0.invalid.contains(key)
                == before.invalid.contains(key)
        }),
{
}

} // verus!
