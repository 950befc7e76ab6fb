//! What the server tells the user while it works: which work is shown, in
//! which words, and how far it has come.

use vstd::prelude::*;

use crate::plan::ScanStats;
use crate::text::{decimal, join2, join3, join5, number, same};

verus! {

/// How much progress a user wants to see.
#[derive(Debug, Clone, Copy, PartialEq, Eq, Structural)]
pub enum ProgressMode {
    Off,
    Indexing,
    Verbose,
}

impl Default for ProgressMode {
    fn default() -> (r: ProgressMode)
        ensures
            r == ProgressMode::Indexing,
    {
        ProgressMode::Indexing
    }
}

/// The mode that a name stands for; any other name is the default.
pub open spec fn mode_named(name: Option<Seq<char>>) -> ProgressMode {
    if name == Some("off"@) {
        ProgressMode::Off
    } else if name == Some("verbose"@) {
        ProgressMode::Verbose
    } else {
        ProgressMode::Indexing
    }
}

impl ProgressMode {
    /// Reads a mode's name.
    pub fn from_value(value: Option<&str>) -> (r: ProgressMode)
        ensures
            r == mode_named(
                (match value {
                    Some(s) => Some(s@),
                    None => None,
                }),
            ),
    {
        match value {
            Some(name) => {
                if same(name, "off") {
                    ProgressMode::Off
                } else if same(name, "verbose") {
                    ProgressMode::Verbose
                } else {
                    ProgressMode::Indexing
                }
            },
            None => ProgressMode::Indexing,
        }
    }

    /// Whether work is shown; `verbose_only` work only in the verbose mode.
    pub fn allows(self, verbose_only: bool) -> (r: bool)
        ensures
            r == (self == ProgressMode::Verbose || (self == ProgressMode::Indexing
                && !verbose_only)),
    {
        match self {
            ProgressMode::Off => false,
            ProgressMode::Indexing => !verbose_only,
            ProgressMode::Verbose => true,
        }
    }

    pub open spec fn name(self) -> Seq<char> {
        match self {
            ProgressMode::Off => "off"@,
            ProgressMode::Indexing => "indexing"@,
            ProgressMode::Verbose => "verbose"@,
        }
    }

    /// The mode's name.
    pub fn as_str(self) -> (r: &'static str)
        ensures
            r@ == self.name(),
    {
        match self {
            ProgressMode::Off => "off",
            ProgressMode::Indexing => "indexing",
            ProgressMode::Verbose => "verbose",
        }
    }
}

/// A mode is read back from its own name.
pub proof fn law_mode_names_round_trip(mode: ProgressMode)
    ensures
        mode_named(Some(mode.name())) == mode,
{
    reveal_strlit("off");
    reveal_strlit("verbose");
    reveal_strlit("indexing");
    assert("off"@.len() == 3);
    assert("verbose"@.len() == 7);
    assert("indexing"@.len() == 8);
}

/// The kinds of work that are shown.
#[derive(Debug, Clone, Copy, PartialEq, Eq, Structural)]
pub enum ProgressWork {
    Startup,
    GameDataReload,
    SchemaReload,
    ManualRebuild,
    DiagnosticsRefresh,
}

impl ProgressWork {
    /// The title of the work.
    pub fn title(self) -> (r: &'static str)
        ensures
            r@ == (match self {
                ProgressWork::Startup => "Starting ZeroSyntax"@,
                ProgressWork::GameDataReload => "Updating game-data index"@,
                ProgressWork::SchemaReload => "Reloading ZeroSyntax schema"@,
                ProgressWork::ManualRebuild => "Rebuilding ZeroSyntax index"@,
                ProgressWork::DiagnosticsRefresh => "Refreshing ZeroSyntax diagnostics"@,
            }),
    {
        match self {
            ProgressWork::Startup => "Starting ZeroSyntax",
            ProgressWork::GameDataReload => "Updating game-data index",
            ProgressWork::SchemaReload => "Reloading ZeroSyntax schema",
            ProgressWork::ManualRebuild => "Rebuilding ZeroSyntax index",
            ProgressWork::DiagnosticsRefresh => "Refreshing ZeroSyntax diagnostics",
        }
    }

    /// The first message of the work.
    pub fn initial_message(self) -> (r: &'static str)
        ensures
            r@ == (match self {
                ProgressWork::Startup => "preparing workspace data"@,
                ProgressWork::GameDataReload => "applying configured game-data roots"@,
                ProgressWork::SchemaReload => "loading the configured schema"@,
                ProgressWork::ManualRebuild => "clearing the persistent index cache"@,
                ProgressWork::DiagnosticsRefresh => "reanalyzing open documents"@,
            }),
    {
        match self {
            ProgressWork::Startup => "preparing workspace data",
            ProgressWork::GameDataReload => "applying configured game-data roots",
            ProgressWork::SchemaReload => "loading the configured schema",
            ProgressWork::ManualRebuild => "clearing the persistent index cache",
            ProgressWork::DiagnosticsRefresh => "reanalyzing open documents",
        }
    }

    /// Whether the work is shown in the verbose mode only.
    pub fn verbose_only(self) -> (r: bool)
        ensures
            r == (self == ProgressWork::DiagnosticsRefresh),
    {
        match self {
            ProgressWork::DiagnosticsRefresh => true,
            _ => false,
        }
    }
}

/// The plural ending for `n` things.
pub open spec fn plural_of(n: int) -> Seq<char> {
    if n == 1 {
        ""@
    } else {
        "s"@
    }
}

pub fn plural(n: usize) -> (r: &'static str)
    ensures
        r@ == plural_of(n as int),
{
    if n == 1 {
        ""
    } else {
        "s"
    }
}

/// What a scan brought into the index.
#[derive(Debug, Clone, Copy, PartialEq, Eq, Structural)]
pub struct IndexSummary {
    pub ini_total: usize,
    pub model_total: usize,
    pub audio_total: usize,
    pub texture_total: usize,
    pub stats: ScanStats,
}

/// How many inputs a scan passed over.
pub open spec fn skipped_of(stats: ScanStats) -> int {
    stats.discovery_failures + stats.fingerprint_failures + stats.scan_failures
}

/// What went wrong in a scan that still finished.
pub open spec fn warnings_of(stats: ScanStats) -> Seq<char> {
    let skipped = skipped_of(stats);
    let passed_over = decimal(skipped as nat) + (" input"@ + plural_of(skipped) + " skipped"@);
    let unsaved = "persistent cache not saved"@;
    if skipped > 0 && !stats.cache_written {
        "; "@ + passed_over + ", "@ + unsaved
    } else if skipped > 0 {
        "; "@ + passed_over
    } else if !stats.cache_written {
        "; "@ + unsaved
    } else {
        Seq::empty()
    }
}

/// The four totals of a scan in words.
pub open spec fn totals_of(summary: IndexSummary) -> Seq<char> {
    decimal(summary.ini_total as nat) + (" INI files, "@ + decimal(summary.model_total as nat)
        + " W3D models, "@) + (decimal(summary.audio_total as nat) + " audio files, "@ + decimal(
        summary.texture_total as nat,
    ) + " textures"@)
}

/// The last message of a scan.
pub open spec fn completion_of(summary: IndexSummary, outcome: Seq<char>) -> Seq<char> {
    let warnings = warnings_of(summary.stats);
    if summary.stats.discovered_inputs == 0 && skipped_of(summary.stats) == 0 {
        outcome + " — no indexable game data found"@
    } else {
        (if skipped_of(summary.stats) > 0 || !summary.stats.cache_written {
            outcome + " with warnings"@
        } else {
            outcome
        }) + " — "@ + totals_of(summary) + " indexed"@ + warnings
    }
}

fn join4(a: &str, b: &str, c: &str, d: &str) -> (out: String)
    ensures
        out@ == a@ + b@ + c@ + d@,
{
    join2(join3(a, b, c).as_str(), d)
}

/// The totals in words.
pub fn totals_text(summary: IndexSummary) -> (r: String)
    ensures
        r@ == totals_of(summary),
{
    let ini = number(summary.ini_total);
    let models = number(summary.model_total);
    let audio = number(summary.audio_total);
    let textures = number(summary.texture_total);
    let front = join3(" INI files, ", models.as_str(), " W3D models, ");
    let back = join4(audio.as_str(), " audio files, ", textures.as_str(), " textures");
    join3(ini.as_str(), front.as_str(), back.as_str())
}

impl IndexSummary {
    /// The last message of a scan whose success is called `outcome`.
    pub fn completion_message(self, outcome: &str) -> (r: String)
        requires
            skipped_of(self.stats) <= usize::MAX,
        ensures
            r@ == completion_of(self, outcome@),
    {
        let skipped: usize = self.stats.skipped_inputs();
        if self.stats.discovered_inputs == 0 && skipped == 0 {
            return join2(outcome, " — no indexable game data found");
        }
        let warned: bool = skipped > 0 || !self.stats.cache_written;
        let warnings = if skipped > 0 {
            let n = number(skipped);
            let words = join3(" input", plural(skipped), " skipped");
            let passed_over = join2(n.as_str(), words.as_str());
            if !self.stats.cache_written {
                join4("; ", passed_over.as_str(), ", ", "persistent cache not saved")
            } else {
                join2("; ", passed_over.as_str())
            }
        } else if !self.stats.cache_written {
            join2("; ", "persistent cache not saved")
        } else {
            String::new()
        };
        let headed = if warned {
            join2(outcome, " with warnings")
        } else {
            outcome.to_string()
        };
        let totals = totals_text(self);
        join5(headed.as_str(), " — ", totals.as_str(), " indexed", warnings.as_str())
    }
}

/// The share of a scan that has been done, of the 85 percent that checking
/// inputs takes.
pub open spec fn checked_share(done: int, total: int) -> int {
    done * 85 / (if total < 1 {
        1
    } else {
        total
    })
}

/// Checking inputs takes the first 85 percent of a scan.
pub fn checked_percentage(done: usize, total: usize) -> (r: u32)
    requires
        done * 85 <= usize::MAX,
        checked_share(done as int, total as int) <= u32::MAX,
    ensures
        r == checked_share(done as int, total as int),
{
    let whole: usize = if total < 1 {
        1
    } else {
        total
    };
    (done * 85 / whole) as u32
}

/// A scan's share grows with the inputs done and ends at 85 percent.
pub proof fn law_share_grows(done: int, later: int, total: int)
    requires
        0 <= done <= later <= total,
    ensures
        0 <= checked_share(done, total) <= checked_share(later, total) <= 85,
        total > 0 ==> checked_share(total, total) == 85,
{
    if total > 0 {
        assert(0 <= done * 85 / total <= later * 85 / total <= 85 && total * 85 / total == 85)
            by (nonlinear_arith)
            requires
                0 <= done <= later <= total,
                total > 0,
        ;
    }
}

/// Drops reports of a large scan that would show no other percentage.
#[derive(Debug, Clone, Copy, PartialEq, Eq, Structural)]
pub struct Throttle {
    pub last: Option<u32>,
}

impl Throttle {
    pub fn new() -> (r: Throttle)
        ensures
            r.last is None,
    {
        Throttle { last: None }
    }

    /// Whether to report that `done` of `total` inputs are checked.
    pub fn passes(&mut self, done: usize, total: usize) -> (r: bool)
        requires
            done * 85 <= usize::MAX,
            checked_share(done as int, total as int) <= u32::MAX,
        ensures
            r == !(old(self).last == Some(checked_share(done as int, total as int) as u32) && done
                != total),
            r ==> final(self).last == Some(checked_share(done as int, total as int) as u32),
            !r ==> *final(self) == *old(self),
    {
        let percentage: u32 = checked_percentage(done, total);
        let repeated: bool = match self.last {
            Some(last) => last == percentage,
            None => false,
        };
        if repeated && done != total {
            return false;
        }
        self.last = Some(percentage);
        true
    }
}

/// The phases of a scan.
#[derive(Debug, Clone, Copy, PartialEq, Eq, Structural)]
pub enum ScanProgress {
    Discovering,
    InputsDiscovered { total: usize, skipped: usize },
    Indexing { done: usize, total: usize, cache_hits: usize, cache_misses: usize },
    WritingCache,
}

/// What a phase is reported as.
pub open spec fn report_of(event: ScanProgress) -> (Seq<char>, Option<int>) {
    match event {
        ScanProgress::Discovering => ("Discovering workspace and game data"@, None),
        ScanProgress::InputsDiscovered { total, skipped } => (
            if total == 0 && skipped == 0 {
                "No indexable game data found"@
            } else if total == 0 {
                "No readable inputs found — "@ + decimal(skipped as nat) + " skipped"@
            } else if skipped == 0 {
                "Checking 0/"@ + decimal(total as nat) + " inputs"@
            } else {
                "Checking 0/"@ + decimal(total as nat) + " inputs — "@ + decimal(skipped as nat)
                    + " skipped during discovery"@
            },
            if total == 0 {
                Some(85int)
            } else {
                None
            },
        ),
        ScanProgress::Indexing { done, total, cache_hits, cache_misses } => (
            ("Checking "@ + decimal(done as nat) + "/"@ + decimal(total as nat) + " inputs — "@)
                + decimal(cache_hits as nat) + " cached, "@ + decimal(cache_misses as nat)
                + " reparsed"@,
            Some(checked_share(done as int, total as int)),
        ),
        ScanProgress::WritingCache => ("Saving the persistent index cache"@, Some(88int)),
    }
}

pub open spec fn opt_int(n: Option<u32>) -> Option<int> {
    match n {
        Some(v) => Some(v as int),
        None => None,
    }
}

/// The message and the percentage of a phase.
pub fn scan_report(event: ScanProgress) -> (r: (String, Option<u32>))
    requires
        event matches ScanProgress::Indexing { done, total, .. } ==> done * 85 <= usize::MAX
            && checked_share(done as int, total as int) <= u32::MAX,
    ensures
        (r.0@, opt_int(r.1)) == report_of(event),
{
    match event {
        ScanProgress::Discovering => ("Discovering workspace and game data".to_string(), None),
        ScanProgress::InputsDiscovered { total, skipped } => {
            let left = number(skipped);
            let all = number(total);
            if total == 0 {
                let message = if skipped == 0 {
                    "No indexable game data found".to_string()
                } else {
                    join3("No readable inputs found — ", left.as_str(), " skipped")
                };
                (message, Some(85))
            } else if skipped == 0 {
                (join3("Checking 0/", all.as_str(), " inputs"), None)
            } else {
                (
                    join5(
                        "Checking 0/",
                        all.as_str(),
                        " inputs — ",
                        left.as_str(),
                        " skipped during discovery",
                    ),
                    None,
                )
            }
        },
        ScanProgress::Indexing { done, total, cache_hits, cache_misses } => {
            let checked = number(done);
            let all = number(total);
            let hits = number(cache_hits);
            let misses = number(cache_misses);
            let front = join5("Checking ", checked.as_str(), "/", all.as_str(), " inputs — ");
            let message = join5(
                front.as_str(),
                hits.as_str(),
                " cached, ",
                misses.as_str(),
                " reparsed",
            );
            (message, Some(checked_percentage(done, total)))
        },
        ScanProgress::WritingCache => ("Saving the persistent index cache".to_string(), Some(88)),
    }
}

/// How far a refresh of open documents has come, where it takes `span`
/// percent from `start` on.
pub open spec fn refresh_share(start: int, span: int, completed: int, total: int) -> int {
    start + completed * span / (if total < 1 {
        1
    } else {
        total
    })
}

/// The report after `completed` of `total` open documents were refreshed.
pub fn refresh_report(start: u32, span: u32, completed: u32, total: u32) -> (r: (String, u32))
    requires
        completed * span <= u32::MAX,
        refresh_share(start as int, span as int, completed as int, total as int) <= u32::MAX,
    ensures
        r.0@ == "Refreshing diagnostics "@ + decimal(completed as nat) + "/"@ + decimal(
            total as nat,
        ),
        r.1 == refresh_share(start as int, span as int, completed as int, total as int),
{
    let done = number(completed as usize);
    let all = number(total as usize);
    let whole: u32 = if total < 1 {
        1
    } else {
        total
    };
    let message = join4("Refreshing diagnostics ", done.as_str(), "/", all.as_str());
    (message, start + completed * span / whole)
}

/// A refresh starts where the scan left off and ends where its span ends.
pub proof fn law_refresh_fills_its_span(start: int, span: int, total: int)
    requires
        0 <= span,
        0 < total,
    ensures
        refresh_share(start, span, 0, total) == start,
        refresh_share(start, span, total, total) == start + span,
{
    assert(0 * span / total == 0 && total * span / total == span) by (nonlinear_arith)
        requires
            0 <= span,
            0 < total,
    ;
}

/// The message after all open documents were refreshed.
pub fn refreshed_message(refreshed: usize) -> (r: String)
    ensures
        r@ == "Diagnostics refreshed for "@ + decimal(refreshed as nat) + " open document"@
            + plural_of(refreshed as int),
{
    let n = number(refreshed);
    join4("Diagnostics refreshed for ", n.as_str(), " open document", plural(refreshed))
}

} // verus!
