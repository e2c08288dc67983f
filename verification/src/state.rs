//! Settings, and where log lines go.
use crate::binary::{Binary32, NAN_32};
use crate::clock::Moment;
use crate::energy::GpuPowerSample;
use crate::gpu::{GpuMetrics, GpuReadings};
use crate::logs::{
    expand_tilde_with, expanded, home_dir, opt_bytes, opt_slice, pushed, ExternalLogTailer,
    LogBuffer, LogSourceInfo, LogSourceKind, LogSourceStatus,
};
use crate::text::{chars_of, same_text, text_of, trim, trimmed};
use crate::usage::{after_report, cache_report_from, parse_cache_n, report_counts, Usage, UsageStats};
use vstd::prelude::*;
use vstd::slice::slice_to_vec;

verus! {

/// The settings of the control bar.
#[derive(Debug)]
pub struct UiSettings {
    /// The selected preset.
    pub preset_id: String,
    /// The server's port.
    pub port: u16,
    /// The server's program.
    pub llama_server_path: String,
    /// The directory in which the server is started.
    pub llama_server_cwd: String,
    /// The directory of models.
    pub models_dir: String,
    /// A log file that is followed in place of the output of the server.
    pub external_log_file: String,
}

/// The port where none is set.
pub fn default_port() -> (r: u16)
    ensures
        r == 8080,
{
    8080
}

impl Default for UiSettings {
    fn default() -> (r: UiSettings)
        ensures
            r.preset_id@ == Seq::<char>::empty(),
            r.port == 8080,
            r.llama_server_path@ == Seq::<char>::empty(),
            r.llama_server_cwd@ == Seq::<char>::empty(),
            r.models_dir@ == Seq::<char>::empty(),
            r.external_log_file@ == Seq::<char>::empty(),
    {
        UiSettings {
            preset_id: String::new(),
            port: default_port(),
            llama_server_path: String::new(),
            llama_server_cwd: String::new(),
            models_dir: String::new(),
            external_log_file: String::new(),
        }
    }
}

/// A model that can be selected, and how a server for it is started.
#[derive(Debug)]
pub struct ModelPreset {
    /// What it is selected by.
    pub id: String,
    /// What it is called.
    pub name: String,
    /// The path of the model's file.
    pub model_path: String,
    /// The context size, zero where it is left to the server.
    pub context_size: u64,
}

/// The first preset with the identifier `id`.
pub open spec fn preset_of(presets: Seq<ModelPreset>, id: Seq<char>) -> Option<ModelPreset>
    decreases presets.len(),
{
    if presets.len() == 0 {
        None
    } else if presets[0].id@ == id {
        Some(presets[0])
    } else {
        preset_of(presets.drop_first(), id)
    }
}

proof fn lemma_preset_of(presets: Seq<ModelPreset>, id: Seq<char>, k: int)
    requires
        0 <= k <= presets.len(),
        forall|j: int| 0 <= j < k ==> (#[trigger] presets[j]).id@ != id,
        k < presets.len() ==> presets[k].id@ == id,
    ensures
        preset_of(presets, id) == if k < presets.len() {
            Some(presets[k])
        } else {
            None
        },
    decreases presets.len(),
{
    if k > 0 {
        let rest = presets.drop_first();
        assert(presets[0].id@ != id);
        assert forall|j: int| 0 <= j < k - 1 implies (#[trigger] rest[j]).id@ != id by {
            assert(rest[j] == presets[j + 1]);
        }
        lemma_preset_of(rest, id, k - 1);
    }
}

/// The place of the selected preset: the first one with the identifier `id`.
pub fn selected_preset(presets: &Vec<ModelPreset>, id: &str) -> (r: Option<usize>)
    ensures
        match r {
            Some(i) => {
                &&& i < presets@.len()
                &&& presets@[i as int].id@ == id@
                &&& forall|j: int| 0 <= j < i ==> (#[trigger] presets@[j]).id@ != id@
                &&& preset_of(presets@, id@) == Some(presets@[i as int])
            },
            None => {
                &&& forall|j: int| 0 <= j < presets@.len() ==> (#[trigger] presets@[j]).id@ != id@
                &&& preset_of(presets@, id@) is None
            },
        },
{
    let n: usize = presets.len();
    let mut i: usize = 0;
    while i < n
        invariant
            n == presets@.len(),
            i <= n,
            forall|j: int| 0 <= j < i ==> (#[trigger] presets@[j]).id@ != id@,
        decreases n - i,
    {
        if same_text(presets[i].id.as_str(), id) {
            proof {
                lemma_preset_of(presets@, id@, i as int);
            }
            return Some(i);
        }
        i = i + 1;
    }
    proof {
        lemma_preset_of(presets@, id@, n as int);
    }
    None
}

/// The log file to follow: that of the settings, or else that of the command line.
pub open spec fn log_file(
    setting: Seq<char>,
    argument: Option<Seq<u8>>,
    home: Option<Seq<u8>>,
) -> Option<Seq<u8>> {
    let from_setting = expanded(trimmed(setting), home);
    if trimmed(setting).len() > 0 && from_setting.len() > 0 {
        Some(from_setting)
    } else {
        match argument {
            Some(path) => if path.len() > 0 {
                Some(path)
            } else {
                None
            },
            None => None,
        }
    }
}

/// The characters of an optional text.
pub open spec fn opt_str(t: Option<&str>) -> Option<Seq<char>> {
    match t {
        Some(t) => Some(t@),
        None => None,
    }
}

/// The path of the log file to follow, when `~` stands for the user's home directory.
pub fn resolve_external_log_path(ui: &UiSettings, cli: Option<&[u8]>) -> (r: Option<Vec<u8>>)
    ensures
        exists|home: Option<Seq<u8>>|
            opt_bytes(r) == #[trigger] log_file(ui.external_log_file@, opt_slice(cli), home),
{
    match home_dir() {
        Some(home) => {
            let r = resolve_external_log_path_with(ui, cli, Some(home.as_slice()));
            assert(opt_bytes(r) == log_file(ui.external_log_file@, opt_slice(cli), Some(home@)));
            r
        },
        None => {
            let r = resolve_external_log_path_with(ui, cli, None);
            assert(opt_bytes(r) == log_file(ui.external_log_file@, opt_slice(cli), None));
            r
        },
    }
}

/// The path of the log file to follow, when `~` stands for the given directory.
pub fn resolve_external_log_path_with(
    ui: &UiSettings,
    cli: Option<&[u8]>,
    home: Option<&[u8]>,
) -> (r: Option<Vec<u8>>)
    ensures
        opt_bytes(r) == log_file(ui.external_log_file@, opt_slice(cli), opt_slice(home)),
{
    let chars = chars_of(ui.external_log_file.as_str());
    let setting = trim(chars.as_slice());
    if setting.len() > 0 {
        let text = text_of(setting);
        let path = expand_tilde_with(text.as_str(), home);
        if path.len() > 0 {
            return Some(path);
        }
    }
    match cli {
        Some(path) => if path.len() > 0 {
            Some(slice_to_vec(path))
        } else {
            None
        },
        None => None,
    }
}

/// The setting of the log file once the command line has filled a blank one.
pub open spec fn seeded_log_file(setting: Seq<char>, argument: Option<Seq<char>>) -> Seq<char> {
    match argument {
        Some(path) => if trimmed(setting).len() == 0 {
            path
        } else {
            setting
        },
        None => setting,
    }
}

/// Fills a blank setting of the log file from the command line.
pub fn seed_external_log(ui: &mut UiSettings, cli: Option<&str>)
    ensures
        final(ui).external_log_file@ == seeded_log_file(old(ui).external_log_file@, opt_str(cli)),
        *final(ui) == (UiSettings {
            external_log_file: final(ui).external_log_file,
            ..*old(ui)
        }),
{
    if let Some(path) = cli {
        let chars = chars_of(ui.external_log_file.as_str());
        if trim(chars.as_slice()).len() == 0 {
            ui.external_log_file = path.to_owned();
        }
    }
}

/// What is shown of the source of log lines at the start.
pub fn initial_log_source(follows_file: bool, file_name: Option<String>) -> (r: LogSourceInfo)
    ensures
        r.error is None,
        r.line_count == 0,
        if follows_file {
            &&& r.kind == LogSourceKind::ExternalFile
            &&& r.status == LogSourceStatus::WaitingForFile
            &&& r.file_name == file_name
        } else {
            &&& r.kind == LogSourceKind::Unset
            &&& r.status == LogSourceStatus::Idle
            &&& r.file_name is None
        },
{
    if follows_file {
        LogSourceInfo {
            kind: LogSourceKind::ExternalFile,
            status: LogSourceStatus::WaitingForFile,
            file_name,
            error: None,
            line_count: 0,
        }
    } else {
        LogSourceInfo::default()
    }
}

/// Whether a source is none.
pub open spec fn is_no_source(source: LogSourceInfo) -> bool {
    &&& source.kind == LogSourceKind::Unset
    &&& source.status == LogSourceStatus::Idle
    &&& source.file_name is None
    &&& source.error is None
    &&& source.line_count == 0
}

/// Notes that another log file is to be followed, or none: the lines so far are
/// forgotten, so that two sources never mix.
pub fn change_log_file(buffer: &mut LogBuffer, source: &mut LogSourceInfo, follows_file: bool)
    requires
        old(buffer).wf(),
    ensures
        final(buffer).wf(),
        final(buffer)@ == Seq::<Seq<char>>::empty(),
        final(buffer).max_lines == old(buffer).max_lines,
        if !follows_file && old(source).kind == LogSourceKind::ExternalFile {
            is_no_source(*final(source))
        } else {
            *final(source) == *old(source)
        },
{
    buffer.clear();
    if !follows_file && source.kind == LogSourceKind::ExternalFile {
        *source = LogSourceInfo::default();
    }
}

/// Shows how following the log file is doing.
pub fn show_log_file(
    source: &mut LogSourceInfo,
    tailer: &ExternalLogTailer,
    file_name: Option<String>,
    line_count: usize,
)
    ensures
        final(source).kind == LogSourceKind::ExternalFile,
        final(source).status == tailer.status,
        final(source).file_name == file_name,
        match (final(source).error, tailer@.error) {
            (Some(shown), Some(error)) => shown@ == error,
            (None, None) => true,
            _ => false,
        },
        final(source).line_count == line_count,
{
    source.kind = LogSourceKind::ExternalFile;
    source.status = tailer.status();
    source.file_name = file_name;
    source.error = match tailer.error() {
        Some(error) => Some(error.to_owned()),
        None => None,
    };
    source.line_count = line_count;
}

/// The counters after the cache report that a line may hold.
pub open spec fn after_line_report(
    s: Usage,
    line: Seq<char>,
    now: Moment,
    unix_secs: u64,
) -> Usage {
    match cache_report_from(line, 0) {
        Some(n) => if report_counts(s, n, now) {
            after_report(s, n, now, unix_secs)
        } else {
            s
        },
        None => s,
    }
}

/// Whether a line holds a cache report that counts.
pub open spec fn line_counts(s: Usage, line: Seq<char>, now: Moment) -> bool {
    match cache_report_from(line, 0) {
        Some(n) => report_counts(s, n, now),
        None => false,
    }
}

/// Takes in the cache report that a line may hold, and says whether it counted.
pub fn count_cache_report(usage: &mut UsageStats, line: &str, now: Moment, unix_secs: u64) -> (r:
    bool)
    ensures
        r == line_counts(old(usage)@, line@, now),
        final(usage)@ == after_line_report(old(usage)@, line@, now, unix_secs),
{
    match parse_cache_n(line) {
        Some(n) => usage.add_cached_at(n, now, unix_secs),
        None => false,
    }
}

/// Takes in a line of the server's output: its cache report counts in any case, and
/// the line itself is kept unless a file is followed. Says whether the report
/// counted.
pub fn push_log(
    line: String,
    follows_file: bool,
    usage: &mut UsageStats,
    buffer: &mut LogBuffer,
    source: &mut LogSourceInfo,
    now: Moment,
    unix_secs: u64,
) -> (r: bool)
    requires
        old(buffer).wf(),
    ensures
        r == line_counts(old(usage)@, line@, now),
        final(usage)@ == after_line_report(old(usage)@, line@, now, unix_secs),
        final(buffer).wf(),
        if follows_file {
            *final(buffer) == *old(buffer) && *final(source) == *old(source)
        } else {
            &&& final(buffer).max_lines == old(buffer).max_lines
            &&& final(buffer)@ == pushed(old(buffer)@, old(buffer).max_lines as nat, line@)
            &&& final(source).kind == LogSourceKind::ManagedProcess
            &&& final(source).status == LogSourceStatus::Connected
            &&& final(source).file_name is None
            &&& final(source).error is None
            &&& final(source).line_count == final(buffer)@.len()
        },
{
    let counted: bool = count_cache_report(usage, line.as_str(), now, unix_secs);
    if follows_file {
        return counted;
    }
    buffer.push_line(line);
    source.kind = LogSourceKind::ManagedProcess;
    source.status = LogSourceStatus::Connected;
    source.file_name = None;
    source.error = None;
    source.line_count = buffer.len();
    counted
}

/// Forgets the log lines.
pub fn clear_log_view(buffer: &mut LogBuffer, source: &mut LogSourceInfo)
    requires
        old(buffer).wf(),
    ensures
        final(buffer).wf(),
        final(buffer)@ == Seq::<Seq<char>>::empty(),
        final(buffer).max_lines == old(buffer).max_lines,
        *final(source) == (LogSourceInfo { line_count: 0, ..*old(source) }),
{
    buffer.clear();
    source.line_count = 0;
}

/// Whether a sample is the power reading of a card: no number where its power is not
/// known, so that no energy is counted of it while its use still is.
pub open spec fn is_sample_of(sample: GpuPowerSample, entry: (String, GpuMetrics)) -> bool {
    &&& sample.id@ == entry.0@
    &&& sample.power_w == match entry.1.power_consumption {
        Some(watts) => watts,
        None => Binary32 { bits: NAN_32 },
    }
    &&& sample.utilization == Binary32::of(entry.1.load as nat)
}

/// The power readings of all cards, in order.
pub fn power_samples(readings: &GpuReadings) -> (r: Vec<GpuPowerSample>)
    ensures
        r@.len() == readings.entries@.len(),
        forall|i: int|
            0 <= i < r@.len() ==> is_sample_of(#[trigger] r@[i], readings.entries@[i]),
{
    let mut out: Vec<GpuPowerSample> = Vec::new();
    let n: usize = readings.entries.len();
    let mut i: usize = 0;
    while i < n
        invariant
            n == readings.entries@.len(),
            i <= n,
            out@.len() == i,
            forall|j: int|
                0 <= j < i ==> is_sample_of(#[trigger] out@[j], readings.entries@[j]),
        decreases n - i,
    {
        out.push(
            GpuPowerSample {
                id: readings.entries[i].0.as_str().to_owned(),
                power_w: match readings.entries[i].1.power_consumption {
                    Some(watts) => watts,
                    None => Binary32::from_bits(NAN_32),
                },
                utilization: Binary32::from_u32(readings.entries[i].1.load),
            },
        );
        i = i + 1;
    }
    out
}

// ---------------------------------------------------------------------------
// Laws
// ---------------------------------------------------------------------------
/// A setting that is not blank wins over the command line.
pub proof fn law_setting_wins(
    setting: Seq<char>,
    one: Option<Seq<u8>>,
    other: Option<Seq<u8>>,
    home: Option<Seq<u8>>,
)
    requires
        trimmed(setting).len() > 0,
        expanded(trimmed(setting), home).len() > 0,
    ensures
        log_file(setting, one, home) == log_file(setting, other, home),
{
}

/// Filling a blank setting twice is filling it once.
pub proof fn law_seeding_is_settled(setting: Seq<char>, argument: Option<Seq<char>>)
    ensures
        seeded_log_file(seeded_log_file(setting, argument), argument) == seeded_log_file(
            setting,
            argument,
        ),
{
}

/// The selected preset is the first one with the identifier.
pub proof fn law_first_preset_is_selected(presets: Seq<ModelPreset>, id: Seq<char>, i: int)
    ensures
        0 <= i < presets.len() && presets[i].id@ == id && (forall|j: int|
            0 <= j < i ==> (#[trigger] presets[j]).id@ != id) ==> preset_of(presets, id) == Some(
            presets[i],
        ),
        (forall|j: int| 0 <= j < presets.len() ==> (#[trigger] presets[j]).id@ != id) ==> preset_of(
            presets,
            id,
        ) is None,
{
    if forall|j: int| 0 <= j < presets.len() ==> (#[trigger] presets[j]).id@ != id {
        lemma_preset_of(presets, id, presets.len() as int);
    }
    if 0 <= i < presets.len() && presets[i].id@ == id && (forall|j: int|
        0 <= j < i ==> (#[trigger] presets[j]).id@ != id) {
        lemma_preset_of(presets, id, i);
    }
}

/// The log file is the one of the settings where they name one, else the one of the
/// command line where it names one, else none.
pub proof fn law_log_file_is_named_once(
    setting: Seq<char>,
    argument: Option<Seq<u8>>,
    home: Option<Seq<u8>>,
)
    ensures
        ({
            let set = expanded(trimmed(setting), home);
            let named = trimmed(setting).len() > 0 && set.len() > 0;
            &&& named ==> log_file(setting, argument, home) == Some(set)
            &&& !named && argument is Some && argument->0.len() > 0 ==> log_file(
                setting,
                argument,
                home,
            ) == argument
            &&& !named && (argument is None || argument->0.len() == 0) ==> log_file(
                setting,
                argument,
                home,
            ) is None
        }),
{
}

/// The command line fills a blank setting and no other.
pub proof fn law_blank_setting_is_filled(setting: Seq<char>, path: Seq<char>)
    ensures
        trimmed(setting).len() == 0 ==> seeded_log_file(setting, Some(path)) == path,
        trimmed(setting).len() > 0 ==> seeded_log_file(setting, Some(path)) == setting,
        seeded_log_file(setting, None) == setting,
{
}

/// A line with a report that counts adds the tokens of the report, and any other line
/// changes nothing.
pub proof fn law_reports_in_lines_are_counted(
    s: Usage,
    line: Seq<char>,
    now: Moment,
    unix_secs: u64,
    n: u64,
)
    ensures
        cache_report_from(line, 0) == Some(n) && report_counts(s, n, now) ==> line_counts(
            s,
            line,
            now,
        ) && after_line_report(s, line, now, unix_secs) == after_report(s, n, now, unix_secs),
        cache_report_from(line, 0) == Some(n) && !report_counts(s, n, now) ==> !line_counts(
            s,
            line,
            now,
        ) && after_line_report(s, line, now, unix_secs) == s,
        cache_report_from(line, 0) is None ==> !line_counts(s, line, now) && after_line_report(
            s,
            line,
            now,
            unix_secs,
        ) == s,
{
}

/// A sample is of its own card: with the power that was read, or no number where none
/// was, and the use in percent.
pub proof fn law_sample_is_of_its_card(sample: GpuPowerSample, entry: (String, GpuMetrics))
    requires
        is_sample_of(sample, entry),
    ensures
        sample.id@ == entry.0@,
        entry.1.power_consumption is Some ==> sample.power_w == entry.1.power_consumption->0,
        entry.1.power_consumption is None ==> !sample.power_w.widened().finite(),
        sample.utilization == Binary32::of(entry.1.load as nat),
{
}

} // verus!
