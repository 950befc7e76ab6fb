//! The persistent cache of scanned inputs: what a scan queues for it, when a
//! queue may be written, and which records go when it grows too large.

use vstd::prelude::*;

use crate::keyset::KeySet;
use crate::numbers::{int_literal, parse_u64};
use crate::order::views;
use crate::plan::Fingerprint;
use crate::text::{
    chars_of, split_at_first, split_once, strip_prefix, strip_suffix, without_prefix,
    without_suffix,
};

verus! {

/// A record that was not used for this long is marked as used again.
pub const TOUCH_INTERVAL_SECS: i64 = 86_400;

/// A record that was not used for this long is dropped.
pub const MAX_AGE_SECS: i64 = 2_592_000;

/// The cache is cut down to payloads of this size.
pub const MAX_PAYLOAD_BYTES: i64 = 1_073_741_824;

/// The digest that `blake3::hash` gives.
pub uninterp spec fn blake3_digest(bytes: Seq<u8>) -> Seq<u8>;

/// Hashes bytes with `blake3::hash`, named by [`blake3_digest`]. A digest has
/// 32 bytes.
#[verifier::external_body]
fn hash_bytes(bytes: &[u8]) -> (r: [u8; 32])
    ensures
        r@ == blake3_digest(bytes@),
{
    *blake3::hash(bytes).as_bytes()
}

/// What every producer's identity starts with. It changes with the form of the
/// stored entries and with what fills them.
pub open spec fn producer_abi() -> Seq<u8> {
    seq![
        122, 101, 114, 111, 115, 121, 110, 116, 97, 120, 45, 112, 104, 121, 115, 105, 99, 97, 108,
        45, 105, 110, 112, 117, 116, 45, 118, 51,
    ]
}

/// A number as eight little-endian bytes.
pub open spec fn le64(n: u64) -> Seq<u8> {
    seq![
        (n % 256) as u8,
        ((n / 256) % 256) as u8,
        ((n / 65536) % 256) as u8,
        ((n / 16777216) % 256) as u8,
        ((n / 4294967296) % 256) as u8,
        ((n / 1099511627776) % 256) as u8,
        ((n / 281474976710656) % 256) as u8,
        ((n / 72057594037927936) % 256) as u8,
    ]
}

/// What identifies a producer: the form of the entries, and the schema with
/// its length before it.
pub open spec fn producer_message(schema: Seq<u8>) -> Seq<u8> {
    producer_abi() + le64(schema.len() as u64) + schema
}

/// The identity of a producer with that serialised schema. Entries of another
/// producer are never read.
pub fn producer_id(schema: &[u8]) -> (r: [u8; 32])
    ensures
        r@ == blake3_digest(producer_message(schema@)),
{
    let abi: [u8; 28] = [
        122, 101, 114, 111, 115, 121, 110, 116, 97, 120, 45, 112, 104, 121, 115, 105, 99, 97, 108,
        45, 105, 110, 112, 117, 116, 45, 118, 51,
    ];
    let n: u64 = schema.len() as u64;
    let length: [u8; 8] = [
        (n % 256) as u8,
        ((n / 256) % 256) as u8,
        ((n / 65536) % 256) as u8,
        ((n / 16777216) % 256) as u8,
        ((n / 4294967296) % 256) as u8,
        ((n / 1099511627776) % 256) as u8,
        ((n / 281474976710656) % 256) as u8,
        ((n / 72057594037927936) % 256) as u8,
    ];
    let mut message: Vec<u8> = Vec::new();
    message.extend_from_slice(abi.as_slice());
    message.extend_from_slice(length.as_slice());
    message.extend_from_slice(schema);
    assert(abi@ =~= producer_abi());
    assert(length@ =~= le64(n));
    assert(message@ =~= producer_message(schema@));
    hash_bytes(message.as_slice())
}

/// Converts a number for a database column.
pub fn as_sql_int(value: u64) -> (r: Result<i64, &'static str>)
    ensures
        match r {
            Ok(n) => n == value,
            Err(e) => value > i64::MAX && e@ == "input metadata exceeds SQLite integer range"@,
        },
{
    if value <= 0x7fff_ffff_ffff_ffff {
        Ok(value as i64)
    } else {
        Err("input metadata exceeds SQLite integer range")
    }
}

/// Whether a scalar is a hexadecimal digit.
pub open spec fn is_hex(c: char) -> bool {
    ('0' <= c && c <= '9') || ('a' <= c && c <= 'f') || ('A' <= c && c <= 'F')
}

/// Sixteen hexadecimal digits.
pub open spec fn is_hash(s: Seq<char>) -> bool {
    s.len() == 16 && forall|i: int| 0 <= i < s.len() ==> is_hex(#[trigger] s[i])
}

/// Whether a literal is a 32-bit unsigned integer.
pub open spec fn is_u32(s: Seq<char>) -> bool {
    match int_literal(s, false) {
        Some(n) => n <= u32::MAX,
        None => false,
    }
}

/// The name of a cache file of an older layout: `index-vN-HASH.json`.
pub open spec fn legacy_name(name: Seq<char>) -> bool {
    match strip_prefix(name, "index-v"@) {
        Some(rest) => match strip_suffix(rest, ".json"@) {
            Some(body) => match split_once(body, '-') {
                Some((version, hash)) => is_u32(version) && is_hash(hash),
                None => false,
            },
            None => false,
        },
        None => false,
    }
}

fn reads_as_hash(text: &str) -> (r: bool)
    ensures
        r == is_hash(text@),
{
    let chars = chars_of(text);
    if chars.len() != 16 {
        return false;
    }
    let mut i: usize = 0;
    while i < chars.len()
        invariant
            i <= chars.len(),
            chars@ == text@,
            forall|k: int| 0 <= k < i ==> is_hex(#[trigger] chars@[k]),
        decreases chars.len() - i,
    {
        let c: char = chars[i];
        if !(('0' <= c && c <= '9') || ('a' <= c && c <= 'f') || ('A' <= c && c <= 'F')) {
            return false;
        }
        i += 1;
    }
    true
}

/// Whether a file is a cache of an older layout, to be removed.
pub fn is_legacy_cache_name(name: &str) -> (r: bool)
    ensures
        r == legacy_name(name@),
{
    let rest = match without_prefix(name, "index-v") {
        Some(rest) => rest,
        None => {
            return false;
        },
    };
    let body = match without_suffix(rest, ".json") {
        Some(body) => body,
        None => {
            return false;
        },
    };
    match split_at_first(body, '-') {
        Some((version, hash)) => {
            let numbered = match parse_u64(version) {
                Some(n) => n <= 0xffff_ffff,
                None => false,
            };
            numbered && reads_as_hash(hash)
        },
        None => false,
    }
}

/// A payload to be stored.
#[derive(Debug)]
pub struct PendingRecord {
    pub path: String,
    pub fingerprint: Fingerprint,
    pub payload: Vec<u8>,
}

/// The model of a [`PendingRecord`].
pub struct PendingView {
    pub path: Seq<char>,
    pub fingerprint: Fingerprint,
    pub payload: Seq<u8>,
}

impl View for PendingRecord {
    type V = PendingView;

    open spec fn view(&self) -> PendingView {
        PendingView { path: self.path@, fingerprint: self.fingerprint, payload: self.payload@ }
    }
}

/// What a scan has queued for the cache since it opened it.
///
/// The captured epoch keeps a scan that started before the cache was cleared
/// from filling it again.
#[derive(Debug)]
pub struct CacheSession {
    pub epoch: i64,
    pub now: i64,
    pub pending: Vec<PendingRecord>,
    pub touches: KeySet,
    pub invalid: KeySet,
}

/// The model of a [`CacheSession`].
pub struct SessionView {
    pub epoch: i64,
    pub now: i64,
    pub pending: Seq<PendingView>,
    pub touches: Set<Seq<char>>,
    pub invalid: Set<Seq<char>>,
}

impl View for CacheSession {
    type V = SessionView;

    open spec fn view(&self) -> SessionView {
        SessionView {
            epoch: self.epoch,
            now: self.now,
            pending: views(self.pending@),
            touches: self.touches@,
            invalid: self.invalid@,
        }
    }
}

impl SessionView {
    /// Whether anything but marks of use is queued.
    pub open spec fn writes(self) -> bool {
        self.pending.len() > 0 || self.invalid.len() > 0
    }

    /// What becomes of the queue, given the epoch that the cache has now.
    pub open spec fn step_at(self, current_epoch: i64) -> CommitStep {
        if !self.writes() && self.touches.len() == 0 {
            CommitStep::Nothing
        } else if current_epoch != self.epoch {
            CommitStep::Discard
        } else {
            CommitStep::Write
        }
    }

    /// The session with nothing queued.
    pub open spec fn emptied(self) -> SessionView {
        SessionView {
            pending: Seq::empty(),
            touches: Set::empty(),
            invalid: Set::empty(),
            ..self
        }
    }
}

/// What to do with a queue.
#[derive(Debug, Clone, Copy, PartialEq, Eq, Structural)]
pub enum CommitStep {
    /// Nothing is queued: the database is not opened for writing.
    Nothing,
    /// The cache was cleared meanwhile: the queue is dropped.
    Discard,
    /// Write the queue, and prune.
    Write,
}

/// What a commit did.
#[derive(Debug, Clone, Copy, PartialEq, Eq, Structural)]
pub struct CommitOutcome {
    /// At least one payload was stored, replaced or dropped.
    pub updated: bool,
    pub pruned: usize,
}

impl CacheSession {
    pub open spec fn wf(&self) -> bool {
        &&& self.touches.wf()
        &&& self.invalid.wf()
        &&& self.touches@.finite()
        &&& self.invalid@.finite()
        &&& self.now >= 0
    }

    /// Opens a session at an epoch of the cache and a time in seconds.
    pub fn open(epoch: i64, now: i64) -> (r: CacheSession)
        requires
            now >= 0,
        ensures
            r.wf(),
            r@ == (SessionView {
                epoch,
                now,
                pending: Seq::empty(),
                touches: Set::empty(),
                invalid: Set::empty(),
            }),
    {
        let r = CacheSession {
            epoch,
            now,
            pending: Vec::new(),
            touches: KeySet::new(),
            invalid: KeySet::new(),
        };
        assert(r@.pending =~= Seq::<PendingView>::empty());
        r
    }

    /// Notes that a record was found. One that was long unused is marked.
    pub fn found(&mut self, path: &str, last_used: i64)
        requires
            old(self).wf(),
        ensures
            final(self).wf(),
            final(self)@ == (SessionView {
                touches: if last_used < old(self).now - TOUCH_INTERVAL_SECS {
                    old(self)@.touches.insert(path@)
                } else {
                    old(self)@.touches
                },
                ..old(self)@
            }),
    {
        if last_used < self.now - TOUCH_INTERVAL_SECS {
            self.touches.insert(path);
        }
    }

    /// Queues the removal of a record.
    pub fn invalidate(&mut self, path: &str)
        requires
            old(self).wf(),
        ensures
            final(self).wf(),
            final(self)@ == (SessionView {
                invalid: old(self)@.invalid.insert(path@),
                ..old(self)@
            }),
    {
        self.invalid.insert(path);
    }

    /// Queues a payload.
    pub fn queue_store(&mut self, path: String, fingerprint: Fingerprint, payload: Vec<u8>)
        requires
            old(self).wf(),
        ensures
            final(self).wf(),
            final(self)@ == (SessionView {
                pending: old(self)@.pending.push(
                    PendingView { path: path@, fingerprint, payload: payload@ },
                ),
                ..old(self)@
            }),
    {
        let ghost before = self@.pending;
        let record = PendingRecord { path, fingerprint, payload };
        let ghost item = record@;
        self.pending.push(record);
        assert(views(self.pending@) =~= before.push(item));
    }

    /// Whether anything but marks of use is queued.
    pub fn has_pending_writes(&self) -> (r: bool)
        requires
            self.wf(),
        ensures
            r == self@.writes(),
    {
        self.pending.len() > 0 || self.invalid.len() > 0
    }

    /// Whether a commit has to look at the database at all.
    pub fn has_queue(&self) -> (r: bool)
        requires
            self.wf(),
        ensures
            r == (self@.writes() || self@.touches.len() > 0),
    {
        self.has_pending_writes() || self.touches.len() > 0
    }

    /// Decides about the queue, given the epoch that the cache has now.
    pub fn commit_step(&self, current_epoch: i64) -> (r: CommitStep)
        requires
            self.wf(),
        ensures
            r == self@.step_at(current_epoch),
    {
        if !self.has_queue() {
            CommitStep::Nothing
        } else if current_epoch != self.epoch {
            CommitStep::Discard
        } else {
            CommitStep::Write
        }
    }

    /// Empties the queue after a commit, and says what the commit did.
    pub fn finish(&mut self, step: CommitStep, pruned: usize) -> (r: CommitOutcome)
        requires
            old(self).wf(),
        ensures
            final(self).wf(),
            final(self)@ == (if step is Nothing {
                old(self)@
            } else {
                old(self)@.emptied()
            }),
            r == (if step is Write {
                CommitOutcome { updated: old(self)@.writes(), pruned }
            } else {
                CommitOutcome { updated: false, pruned: 0 }
            }),
    {
        let updated = self.has_pending_writes();
        match step {
            CommitStep::Nothing => {},
            _ => {
                self.pending = Vec::new();
                self.touches.clear();
                self.invalid.clear();
                assert(self@.pending =~= Seq::<PendingView>::empty());
            },
        }
        match step {
            CommitStep::Write => CommitOutcome { updated, pruned },
            _ => CommitOutcome { updated: false, pruned: 0 },
        }
    }
}

/// A session that was opened before the cache was cleared never writes to it.
pub proof fn law_cleared_cache_stays_clear(session: SessionView, current_epoch: i64)
    requires
        current_epoch != session.epoch,
    ensures
        !(session.step_at(current_epoch) is Write),
{
}

/// Records last used before this time are dropped.
pub fn oldest_kept(now: i64) -> (r: i64)
    requires
        now >= 0,
    ensures
        r == now - MAX_AGE_SECS,
{
    now - MAX_AGE_SECS
}

/// The size of the records from `i` on.
pub open spec fn size_from(sizes: Seq<i64>, i: int) -> int
    decreases sizes.len() - i,
{
    if i < 0 || i >= sizes.len() {
        0
    } else {
        sizes[i] + size_from(sizes, i + 1)
    }
}

/// How many of the records from `i` on have to go, least recently used first,
/// until the total is within the limit.
pub open spec fn victims_from(total: int, limit: int, sizes: Seq<i64>, i: int) -> int
    decreases sizes.len() - i,
{
    if total <= limit || i < 0 || i >= sizes.len() {
        i
    } else {
        victims_from(total - sizes[i], limit, sizes, i + 1)
    }
}

/// How many records to drop, given the size of each, least recently used
/// first.
pub fn prune_count(total: i64, limit: i64, sizes: &Vec<i64>) -> (r: usize)
    requires
        forall|i: int| 0 <= i < sizes@.len() ==> #[trigger] sizes@[i] >= 0,
    ensures
        r == victims_from(total as int, limit as int, sizes@, 0),
        r <= sizes@.len(),
{
    let bound: i128 = limit as i128;
    let mut left: i128 = total as i128;
    let mut i: usize = 0;
    while i < sizes.len() && left > bound
        invariant
            forall|k: int| 0 <= k < sizes@.len() ==> #[trigger] sizes@[k] >= 0,
            bound == limit,
            i <= sizes.len(),
            i64::MIN - i64::MAX <= left <= i64::MAX,
            victims_from(total as int, limit as int, sizes@, 0) == victims_from(
                left as int,
                limit as int,
                sizes@,
                i as int,
            ),
        decreases sizes.len() - i,
    {
        assert(sizes@[i as int] >= 0);
        left = left - (sizes[i] as i128);
        i += 1;
    }
    i
}

/// Pruning brings the cache within its limit with the fewest records: the rest
/// fits, and one record fewer would not have been enough.
pub proof fn law_pruning_is_enough_and_least(sizes: Seq<i64>, limit: int, i: int)
    requires
        0 <= i <= sizes.len(),
        0 <= limit,
        forall|k: int| 0 <= k < sizes.len() ==> #[trigger] sizes[k] >= 0,
    ensures
        ({
            let n = victims_from(size_from(sizes, i), limit, sizes, i);
            &&& i <= n <= sizes.len()
            &&& size_from(sizes, n) <= limit
            &&& n > i ==> size_from(sizes, n - 1) > limit
        }),
    decreases sizes.len() - i,
{
    if i < sizes.len() && size_from(sizes, i) > limit {
        law_pruning_is_enough_and_least(sizes, limit, i + 1);
    }
}

} // verus!
