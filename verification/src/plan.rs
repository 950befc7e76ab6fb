//! The course of a workspace scan: which inputs are taken, what the cache
//! decides about each, and what is counted.

use vstd::prelude::*;

use crate::keyset::KeySet;
use crate::order::views;

verus! {

/// The largest payload that the cache stores.
pub const MAX_CACHE_PAYLOAD_BYTES: usize = 268_435_456;

/// What identifies the content of a file.
#[derive(Debug, Clone, Copy, PartialEq, Eq, Structural)]
pub struct Fingerprint {
    pub len: u64,
    pub modified_secs: u64,
    pub modified_nanos: u32,
}

/// An input to scan, with its place in the caller's list.
#[derive(Debug)]
pub struct PlannedInput {
    pub id: usize,
    pub key: String,
    pub fingerprint: Fingerprint,
    pub is_base: bool,
}

/// The model of a [`PlannedInput`].
pub struct PlannedView {
    pub id: usize,
    pub key: Seq<char>,
    pub fingerprint: Fingerprint,
    pub is_base: bool,
}

impl View for PlannedInput {
    type V = PlannedView;

    open spec fn view(&self) -> PlannedView {
        PlannedView {
            id: self.id,
            key: self.key@,
            fingerprint: self.fingerprint,
            is_base: self.is_base,
        }
    }
}

/// The inputs of a scan. Base inputs are added first, so that workspace
/// definitions override them.
#[derive(Debug)]
pub struct ScanPlan {
    pub seen: KeySet,
    pub inputs: Vec<PlannedInput>,
    pub fingerprint_failures: usize,
}

/// The model of a [`ScanPlan`].
pub struct PlanView {
    pub seen: Set<Seq<char>>,
    pub inputs: Seq<PlannedView>,
    pub fingerprint_failures: int,
}

impl View for ScanPlan {
    type V = PlanView;

    open spec fn view(&self) -> PlanView {
        PlanView {
            seen: self.seen@,
            inputs: views(self.inputs@),
            fingerprint_failures: self.fingerprint_failures as int,
        }
    }
}

impl PlanView {
    /// The plan after one more discovered path. A path that was met before
    /// does not count again.
    pub open spec fn with(
        self,
        id: usize,
        key: Seq<char>,
        fingerprint: Option<Fingerprint>,
        is_base: bool,
    ) -> PlanView {
        if self.seen.contains(key) {
            self
        } else {
            match fingerprint {
                Some(f) => PlanView {
                    seen: self.seen.insert(key),
                    inputs: self.inputs.push(PlannedView { id, key, fingerprint: f, is_base }),
                    ..self
                },
                None => PlanView {
                    seen: self.seen.insert(key),
                    fingerprint_failures: self.fingerprint_failures + 1,
                    ..self
                },
            }
        }
    }

    /// Every input was met, none twice, and every path met is an input or a
    /// failure.
    pub open spec fn sound(self) -> bool {
        &&& self.seen.finite()
        &&& self.seen.len() == self.inputs.len() + self.fingerprint_failures
        &&& self.fingerprint_failures >= 0
        &&& forall|i: int|
            0 <= i < self.inputs.len() ==> self.seen.contains((#[trigger] self.inputs[i]).key)
        &&& forall|i: int, j: int|
            #![trigger self.inputs[i], self.inputs[j]]
            0 <= i < j < self.inputs.len() ==> self.inputs[i].key != self.inputs[j].key
    }
}

/// A plan stays sound: no input is ever planned twice.
pub proof fn law_inputs_are_planned_once(
    plan: PlanView,
    id: usize,
    key: Seq<char>,
    fingerprint: Option<Fingerprint>,
    is_base: bool,
)
    requires
        plan.sound(),
    ensures
        plan.with(id, key, fingerprint, is_base).sound(),
{
}

impl ScanPlan {
    pub open spec fn wf(&self) -> bool {
        self.seen.wf() && self@.sound()
    }

    pub fn new() -> (r: ScanPlan)
        ensures
            r.wf(),
            r@ == no_plan(),
    {
        let r = ScanPlan { seen: KeySet::new(), inputs: Vec::new(), fingerprint_failures: 0 };
        assert(r@.inputs =~= Seq::<PlannedView>::empty());
        r
    }

    /// Takes a discovered path into the plan.
    pub fn add_input(
        &mut self,
        id: usize,
        key: &str,
        fingerprint: Option<Fingerprint>,
        is_base: bool,
    )
        requires
            old(self).wf(),
        ensures
            final(self).wf(),
            final(self)@ == old(self)@.with(id, key@, fingerprint, is_base),
    {
        let ghost before = self@;
        proof {
            law_inputs_are_planned_once(before, id, key@, fingerprint, is_base);
        }
        let met: usize = self.seen.len();
        assert(before.seen.contains(key@) ==> before.seen.insert(key@) =~= before.seen);
        if self.seen.insert(key) {
            match fingerprint {
                Some(f) => {
                    let input = PlannedInput { id, key: key.to_owned(), fingerprint: f, is_base };
                    let ghost item = input@;
                    self.inputs.push(input);
                    assert(views(self.inputs@) =~= before.inputs.push(item));
                },
                None => {
                    let now: usize = self.seen.len();
                    assert(now == met + 1);
                    self.fingerprint_failures += 1;
                },
            }
        }
    }

    /// How many distinct paths were met.
    pub fn discovered_inputs(&self) -> (r: usize)
        requires
            self.wf(),
        ensures
            r == self@.inputs.len() + self@.fingerprint_failures,
    {
        self.seen.len()
    }
}

/// A discovered path, and what identifies its content where that can be told.
#[derive(Debug)]
pub struct FoundInput {
    pub key: String,
    pub fingerprint: Option<Fingerprint>,
}

/// The plan after the paths from `i` on, which have the places from `first` on.
pub open spec fn planned(
    plan: PlanView,
    found: Seq<FoundInput>,
    first: int,
    is_base: bool,
    i: int,
) -> PlanView
    decreases found.len() - i,
{
    if i < 0 || i >= found.len() {
        plan
    } else {
        planned(
            plan.with((first + i) as usize, found[i].key@, found[i].fingerprint, is_base),
            found,
            first,
            is_base,
            i + 1,
        )
    }
}

/// The plan without any path.
pub open spec fn no_plan() -> PlanView {
    PlanView { seen: Set::empty(), inputs: Seq::empty(), fingerprint_failures: 0 }
}

/// No base input comes after a workspace input.
pub open spec fn base_first(inputs: Seq<PlannedView>) -> bool {
    forall|i: int, j: int|
        #![trigger inputs[i], inputs[j]]
        0 <= i < j < inputs.len() && inputs[j].is_base ==> inputs[i].is_base
}

proof fn lemma_base_first(
    plan: PlanView,
    found: Seq<FoundInput>,
    first: int,
    is_base: bool,
    i: int,
)
    requires
        0 <= i,
        base_first(plan.inputs),
        is_base ==> forall|k: int|
            0 <= k < plan.inputs.len() ==> (#[trigger] plan.inputs[k]).is_base,
    ensures
        base_first(planned(plan, found, first, is_base, i).inputs),
        is_base ==> forall|k: int|
            0 <= k < planned(plan, found, first, is_base, i).inputs.len() ==> (
            #[trigger] planned(plan, found, first, is_base, i).inputs[k]).is_base,
    decreases found.len() - i,
{
    if i < found.len() {
        let next = plan.with((first + i) as usize, found[i].key@, found[i].fingerprint, is_base);
        lemma_base_first(next, found, first, is_base, i + 1);
    }
}

fn plan_all(plan: &mut ScanPlan, found: &Vec<FoundInput>, first: usize, is_base: bool)
    requires
        old(plan).wf(),
        first + found@.len() <= usize::MAX,
    ensures
        final(plan).wf(),
        final(plan)@ == planned(old(plan)@, found@, first as int, is_base, 0),
{
    let ghost whole = planned(plan@, found@, first as int, is_base, 0);
    let mut i: usize = 0;
    while i < found.len()
        invariant
            i <= found.len(),
            first + found@.len() <= usize::MAX,
            plan.wf(),
            planned(plan@, found@, first as int, is_base, i as int) == whole,
        decreases found.len() - i,
    {
        plan.add_input(first + i, found[i].key.as_str(), found[i].fingerprint, is_base);
        i += 1;
    }
}

/// Plans a scan: the paths under the base roots, then those under the workspace
/// roots, so that the workspace overrides the base. Each path has its place in
/// the two lists, one after the other.
pub fn plan_inputs(base: &Vec<FoundInput>, workspace: &Vec<FoundInput>) -> (r: ScanPlan)
    requires
        base@.len() + workspace@.len() <= usize::MAX,
    ensures
        r.wf(),
        r@ == planned(
            planned(no_plan(), base@, 0, true, 0),
            workspace@,
            base@.len() as int,
            false,
            0,
        ),
        base_first(r@.inputs),
{
    let mut plan = ScanPlan::new();
    proof {
        lemma_base_first(no_plan(), base@, 0, true, 0);
        lemma_base_first(
            planned(no_plan(), base@, 0, true, 0),
            workspace@,
            base@.len() as int,
            false,
            0,
        );
    }
    plan_all(&mut plan, base, 0, true);
    plan_all(&mut plan, workspace, base.len(), false);
    plan
}

/// What a scan counted.
#[derive(Debug, Clone, Copy, PartialEq, Eq, Structural)]
pub struct ScanStats {
    pub discovered_inputs: usize,
    pub discovery_failures: usize,
    pub cache_hits: usize,
    pub cache_misses: usize,
    pub fingerprint_failures: usize,
    pub scan_failures: usize,
    /// A usable cache exists after the scan, also when an unchanged one did
    /// not need to be written again.
    pub cache_written: bool,
    /// The cache was created or replaced during this scan.
    pub cache_updated: bool,
}

impl ScanStats {
    /// How many inputs the scan passed over.
    pub fn skipped_inputs(self) -> (r: usize)
        requires
            self.discovery_failures + self.fingerprint_failures + self.scan_failures <= usize::MAX,
        ensures
            r == self.discovery_failures + self.fingerprint_failures + self.scan_failures,
    {
        self.discovery_failures + self.fingerprint_failures + self.scan_failures
    }
}

/// The inputs that a scan has done so far.
#[derive(Debug, Clone, Copy, PartialEq, Eq, Structural)]
pub struct ScanRun {
    pub total: usize,
    pub done: usize,
    pub cache_hits: usize,
    pub cache_misses: usize,
    pub scan_failures: usize,
}

impl ScanRun {
    /// Every input done was a hit or a miss, and only misses can fail.
    pub open spec fn wf(&self) -> bool {
        &&& self.done == self.cache_hits + self.cache_misses
        &&& self.done <= self.total
        &&& self.scan_failures <= self.cache_misses
    }

    pub fn new(total: usize) -> (r: ScanRun)
        ensures
            r.wf(),
            r == (ScanRun {
                total,
                done: 0,
                cache_hits: 0,
                cache_misses: 0,
                scan_failures: 0,
            }),
    {
        ScanRun { total, done: 0, cache_hits: 0, cache_misses: 0, scan_failures: 0 }
    }

    /// Counts an input that the cache held.
    pub fn hit(&mut self)
        requires
            old(self).wf(),
            old(self).done < old(self).total,
        ensures
            final(self).wf(),
            *final(self) == (ScanRun {
                done: (old(self).done + 1) as usize,
                cache_hits: (old(self).cache_hits + 1) as usize,
                ..*old(self)
            }),
    {
        self.cache_hits += 1;
        self.done += 1;
    }

    /// Counts an input that was scanned, or could not be.
    pub fn miss(&mut self, scanned: bool)
        requires
            old(self).wf(),
            old(self).done < old(self).total,
        ensures
            final(self).wf(),
            *final(self) == (ScanRun {
                done: (old(self).done + 1) as usize,
                cache_misses: (old(self).cache_misses + 1) as usize,
                scan_failures: if scanned {
                    old(self).scan_failures
                } else {
                    (old(self).scan_failures + 1) as usize
                },
                ..*old(self)
            }),
    {
        self.cache_misses += 1;
        if !scanned {
            self.scan_failures += 1;
        }
        self.done += 1;
    }
}

/// How the final commit of the cache went.
#[derive(Debug, Clone, Copy, PartialEq, Eq, Structural)]
pub enum CommitResult {
    /// There is no usable cache.
    Closed,
    Failed,
    Done { updated: bool },
}

/// Sums up a scan.
pub fn finish_scan(
    plan: &ScanPlan,
    discovery_failures: usize,
    run: &ScanRun,
    commit: CommitResult,
) -> (r: ScanStats)
    requires
        plan.wf(),
    ensures
        r == (ScanStats {
            discovered_inputs: (plan@.inputs.len() + plan@.fingerprint_failures) as usize,
            discovery_failures,
            cache_hits: run.cache_hits,
            cache_misses: run.cache_misses,
            fingerprint_failures: plan.fingerprint_failures,
            scan_failures: run.scan_failures,
            cache_written: commit is Done,
            cache_updated: commit matches CommitResult::Done { updated } && updated,
        }),
{
    let (cache_written, cache_updated) = match commit {
        CommitResult::Closed => (false, false),
        CommitResult::Failed => (false, false),
        CommitResult::Done { updated } => (true, updated),
    };
    ScanStats {
        discovered_inputs: plan.discovered_inputs(),
        discovery_failures,
        cache_hits: run.cache_hits,
        cache_misses: run.cache_misses,
        fingerprint_failures: plan.fingerprint_failures,
        scan_failures: run.scan_failures,
        cache_written,
        cache_updated,
    }
}

/// Whether an input may have changed while it was read.
#[derive(Debug, Clone, Copy, PartialEq, Eq, Structural)]
pub enum Stability {
    /// The fingerprint is that of the bytes read.
    Stable,
    /// Read it again, and expect the fingerprint seen last.
    Retry,
    /// It changed repeatedly.
    GiveUp,
}

/// Decides about the fingerprint that was seen after reading an input. A
/// writer can replace an input after discovery but before it is read, so one
/// more attempt is made.
pub fn stability(expected: Fingerprint, observed: Fingerprint, attempt: u32) -> (r: Stability)
    ensures
        r == (if observed == expected {
            Stability::Stable
        } else if attempt == 0 {
            Stability::Retry
        } else {
            Stability::GiveUp
        }),
{
    if observed == expected {
        Stability::Stable
    } else if attempt == 0 {
        Stability::Retry
    } else {
        Stability::GiveUp
    }
}

/// The fingerprint under which an input is stored, when these fingerprints are
/// seen after the attempts to read it.
pub open spec fn stored_under(expected: Fingerprint, seen: Seq<Fingerprint>) -> Option<Fingerprint> {
    if seen.len() > 0 && seen[0] == expected {
        Some(expected)
    } else if seen.len() > 1 && seen[1] == seen[0] {
        Some(seen[1])
    } else {
        None
    }
}

/// A payload is never stored under a fingerprint for other bytes: the one it
/// is stored under was seen both before and after its bytes were read.
pub proof fn law_stored_fingerprint_was_stable(expected: Fingerprint, seen: Seq<Fingerprint>)
    ensures
        stored_under(expected, seen) matches Some(f) ==> (f == expected && f == seen[0]) || (f
            == seen[0] && f == seen[1]),
{
}

/// Whether a stored payload may be decoded.
pub fn payload_fits(len: usize) -> (r: bool)
    ensures
        r == (len <= MAX_CACHE_PAYLOAD_BYTES),
{
    len <= MAX_CACHE_PAYLOAD_BYTES
}

/// A buffer has no room left.
#[derive(Debug, Clone, Copy, PartialEq, Eq, Structural)]
pub struct BufferFull;

/// A buffer that never holds more than its limit, nor asks for more room.
#[derive(Debug)]
pub struct BoundedVec {
    pub bytes: Vec<u8>,
    pub limit: usize,
    /// The room that was asked for.
    pub room: usize,
}

impl BoundedVec {
    pub open spec fn wf(&self) -> bool {
        self.bytes@.len() <= self.room <= self.limit
    }

    pub fn new(limit: usize) -> (r: BoundedVec)
        ensures
            r.wf(),
            r.limit == limit,
            r.bytes@.len() == 0,
            r.room == 0,
    {
        BoundedVec { bytes: Vec::new(), limit, room: 0 }
    }

    /// Makes room for `required` bytes. It grows geometrically, but never
    /// beyond the limit; the first block is small, since most inputs are.
    fn grow_to_fit(&mut self, required: usize)
        requires
            old(self).wf(),
            old(self).room < required <= old(self).limit,
        ensures
            final(self).wf(),
            final(self).limit == old(self).limit,
            final(self).bytes@ == old(self).bytes@,
            final(self).room == grown(old(self).room as int, required as int, old(
                self,
            ).limit as int),
            final(self).room >= required,
    {
        let target: usize = grown_capacity(self.room, required, self.limit);
        self.bytes.reserve(target - self.bytes.len());
        self.room = target;
    }

    /// Appends a byte, if there is room.
    pub fn try_push(&mut self, byte: u8) -> (r: Result<(), BufferFull>)
        requires
            old(self).wf(),
        ensures
            final(self).wf(),
            final(self).limit == old(self).limit,
            final(self).room == room_for(*old(self), 1),
            if old(self).bytes@.len() < old(self).limit {
                r is Ok && final(self).bytes@ == old(self).bytes@.push(byte)
            } else {
                r is Err && final(self).bytes@ == old(self).bytes@
            },
    {
        if self.bytes.len() == self.limit {
            return Err(BufferFull);
        }
        if self.bytes.len() == self.room {
            self.grow_to_fit(self.bytes.len() + 1);
        }
        self.bytes.push(byte);
        Ok(())
    }

    /// Appends bytes, if there is room for all of them.
    pub fn try_extend(&mut self, bytes: &[u8]) -> (r: Result<(), BufferFull>)
        requires
            old(self).wf(),
        ensures
            final(self).wf(),
            final(self).limit == old(self).limit,
            final(self).room == room_for(*old(self), bytes@.len() as int),
            if old(self).bytes@.len() + bytes@.len() <= old(self).limit {
                r is Ok && final(self).bytes@ == old(self).bytes@ + bytes@
            } else {
                r is Err && final(self).bytes@ == old(self).bytes@
            },
    {
        if bytes.len() > self.limit - self.bytes.len() {
            return Err(BufferFull);
        }
        let required: usize = self.bytes.len() + bytes.len();
        if required > self.room {
            self.grow_to_fit(required);
        }
        self.bytes.extend_from_slice(bytes);
        assert(self.bytes@ =~= old(self).bytes@ + bytes@);
        Ok(())
    }

    /// The bytes written.
    pub fn finalize(self) -> (r: Vec<u8>)
        ensures
            r@ == self.bytes@,
    {
        self.bytes
    }
}

/// The room for `required` bytes: twice the old room and at least a small
/// block, but never more than the limit.
pub open spec fn grown(room: int, required: int, limit: int) -> int {
    let doubled = if room * 2 < 256 {
        256
    } else {
        room * 2
    };
    let enough = if doubled < required {
        required
    } else {
        doubled
    };
    if enough < limit {
        enough
    } else {
        limit
    }
}

/// The room after some bytes more, which a full buffer does not take.
pub open spec fn room_for(buffer: BoundedVec, more: int) -> int {
    let required = buffer.bytes@.len() + more;
    if buffer.room < required <= buffer.limit {
        grown(buffer.room as int, required, buffer.limit as int)
    } else {
        buffer.room as int
    }
}

fn grown_capacity(room: usize, required: usize, limit: usize) -> (r: usize)
    requires
        required <= limit,
    ensures
        r == grown(room as int, required as int, limit as int),
        required <= r <= limit,
{
    let doubled: usize = if room > usize::MAX / 2 {
        usize::MAX
    } else if room < 128 {
        256
    } else {
        room * 2
    };
    let enough: usize = if doubled < required {
        required
    } else {
        doubled
    };
    if enough < limit {
        enough
    } else {
        limit
    }
}

} // verus!
