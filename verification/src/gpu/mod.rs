//! Telemetry of graphics cards.
use crate::binary::Binary32;
use crate::table::{entries_map, is_ordered, lemma_entry, lemma_prefix_map, Table};
use crate::text::same_text;
use vstd::prelude::*;

pub mod amdgpu;

verus! {

/// How a power reading was obtained: an average is not the draw of the moment.
#[derive(Clone, Copy, Debug, PartialEq, Eq, Structural)]
pub enum PowerKind {
    /// The draw of the moment.
    Current,
    /// An average.
    Average,
}

impl Default for PowerKind {
    fn default() -> (r: PowerKind)
        ensures
            r == PowerKind::Current,
    {
        PowerKind::Current
    }
}

/// What is known of one card.
#[derive(Clone, Copy, Debug, PartialEq, Eq, Structural)]
pub struct GpuMetrics {
    /// The temperature shown, in degrees Celsius.
    pub temp: Binary32,
    /// The temperature at the edge.
    pub temp_edge: Option<Binary32>,
    /// The temperature at the junction.
    pub temp_junction: Option<Binary32>,
    /// The temperature of the memory.
    pub temp_memory: Option<Binary32>,
    /// The utilisation, in percent.
    pub load: u32,
    /// The power drawn, in watts.
    pub power_consumption: Option<Binary32>,
    /// How the power was obtained.
    pub power_kind: PowerKind,
    /// The power limit, in watts.
    pub power_limit: u32,
    /// Memory in use, in MiB.
    pub vram_used: u64,
    /// Memory, in MiB.
    pub vram_total: u64,
    /// The core clock, in MHz.
    pub sclk_mhz: u32,
    /// The memory clock, in MHz.
    pub mclk_mhz: u32,
    /// The fan's speed, in turns per minute.
    pub fan_rpm: Option<u32>,
    /// The fan's speed, in percent.
    pub fan_percent: Option<u32>,
}

/// A card of which nothing is known.
pub open spec fn no_metrics() -> GpuMetrics {
    GpuMetrics {
        temp: Binary32 { bits: 0 },
        temp_edge: None,
        temp_junction: None,
        temp_memory: None,
        load: 0,
        power_consumption: None,
        power_kind: PowerKind::Current,
        power_limit: 0,
        vram_used: 0,
        vram_total: 0,
        sclk_mhz: 0,
        mclk_mhz: 0,
        fan_rpm: None,
        fan_percent: None,
    }
}

impl Default for GpuMetrics {
    fn default() -> (r: GpuMetrics)
        ensures
            r == no_metrics(),
    {
        GpuMetrics {
            temp: Binary32 { bits: 0 },
            temp_edge: None,
            temp_junction: None,
            temp_memory: None,
            load: 0,
            power_consumption: None,
            power_kind: PowerKind::Current,
            power_limit: 0,
            vram_used: 0,
            vram_total: 0,
            sclk_mhz: 0,
            mclk_mhz: 0,
            fan_rpm: None,
            fan_percent: None,
        }
    }
}

/// What is known of all cards, by their names.
pub type GpuReadings = Table<String, GpuMetrics>;

/// A copy of readings.
pub fn copy_readings(readings: &GpuReadings) -> (r: GpuReadings)
    requires
        readings.wf(),
    ensures
        r.wf(),
        r@ == readings@,
{
    let mut out: GpuReadings = Table::new();
    let n: usize = readings.entries.len();
    let mut i: usize = 0;
    while i < n
        invariant
            n == readings.entries@.len(),
            i <= n,
            out.entries@.len() == i,
            forall|j: int|
                0 <= j < i ==> (#[trigger] out.entries@[j]).0@ == readings.entries@[j].0@
                    && out.entries@[j].1 == readings.entries@[j].1,
        decreases n - i,
    {
        let name = readings.entries[i].0.as_str().to_owned();
        out.entries.push((name, readings.entries[i].1));
        i = i + 1;
    }
    proof {
        lemma_same_entries(readings.entries@, out.entries@);
    }
    out
}

proof fn lemma_same_entries(a: Seq<(String, GpuMetrics)>, b: Seq<(String, GpuMetrics)>)
    requires
        is_ordered(a),
        a.len() == b.len(),
        forall|j: int|
            0 <= j < a.len() ==> (#[trigger] b[j]).0@ == a[j].0@ && b[j].1 == a[j].1,
    ensures
        is_ordered(b),
        entries_map(b) == entries_map(a),
{
    assert(is_ordered(b)) by {
        assert forall|i: int, j: int| 0 <= i < j < b.len() implies crate::table::text_before(
            (#[trigger] b[i]).0@,
            (#[trigger] b[j]).0@,
        ) by {
            assert(a[i].0@ == b[i].0@ && a[j].0@ == b[j].0@);
        }
    }
    let m = entries_map(a);
    let n = entries_map(b);
    assert forall|k: Seq<char>| m.dom().contains(k) == n.dom().contains(k) by {
        if m.dom().contains(k) {
            let i = crate::table::place_of(a, k);
            assert(b[i].0@ == a[i].0@);
            lemma_entry(b, i);
        }
        if n.dom().contains(k) {
            let i = crate::table::place_of(b, k);
            assert(b[i].0@ == a[i].0@);
            lemma_entry(a, i);
        }
    }
    assert forall|k: Seq<char>| m.dom().contains(k) implies m[k] == n[k] by {
        let i = crate::table::place_of(a, k);
        assert(b[i].0@ == a[i].0@);
        lemma_entry(a, i);
        lemma_entry(b, i);
    }
    assert(m =~= n);
}

/// Puts the outcome of a poll in place of the readings before: where the poll
/// failed there are none, which is not the same as no cards.
pub fn apply_gpu_poll_result(
    store: &mut Option<GpuReadings>,
    result: Result<GpuReadings, String>,
) -> (r: Result<GpuReadings, String>)
    requires
        result is Ok ==> result->Ok_0.wf(),
    ensures
        match result {
            Ok(readings) => {
                &&& *final(store) == Some(readings)
                &&& r is Ok && r->Ok_0@ == readings@ && r->Ok_0.wf()
            },
            Err(e) => *final(store) is None && r == Err::<GpuReadings, String>(e),
        },
{
    match result {
        Ok(readings) => {
            let copy = copy_readings(&readings);
            *store = Some(readings);
            Ok(copy)
        },
        Err(e) => {
            *store = None;
            Err(e)
        },
    }
}

/// The readings of those backends that gave any, a later one first where two name
/// the same card.
pub open spec fn merged_readings(results: Seq<Result<GpuReadings, String>>) -> Map<
    Seq<char>,
    GpuMetrics,
>
    decreases results.len(),
{
    if results.len() == 0 {
        Map::empty()
    } else {
        let before = merged_readings(results.drop_last());
        match results.last() {
            Ok(readings) => before.union_prefer_right(readings@),
            Err(_) => before,
        }
    }
}

/// Whether some backend gave readings.
pub open spec fn any_ok(results: Seq<Result<GpuReadings, String>>) -> bool {
    exists|i: int| 0 <= i < results.len() && (#[trigger] results[i]) is Ok
}

proof fn lemma_merged_step(results: Seq<Result<GpuReadings, String>>, i: int)
    requires
        0 <= i < results.len(),
    ensures
        merged_readings(results.take(i + 1)) == match results[i] {
            Ok(readings) => merged_readings(results.take(i)).union_prefer_right(readings@),
            Err(_) => merged_readings(results.take(i)),
        },
{
    assert(results.take(i + 1).drop_last() =~= results.take(i));
    assert(results.take(i + 1).last() == results[i]);
}

fn extend(all: &mut GpuReadings, more: &GpuReadings)
    requires
        old(all).wf(),
        more.wf(),
    ensures
        final(all).wf(),
        final(all)@ == old(all)@.union_prefer_right(more@),
{
    let n: usize = more.entries.len();
    let mut i: usize = 0;
    let ghost entries = more.entries@;
    assert(entries_map(entries.take(0)) =~= Map::<Seq<char>, GpuMetrics>::empty());
    assert(old(all)@.union_prefer_right(Map::<Seq<char>, GpuMetrics>::empty()) =~= old(all)@);
    while i < n
        invariant
            n == more.entries@.len(),
            entries == more.entries@,
            is_ordered(entries),
            i <= n,
            all.wf(),
            all@ == old(all)@.union_prefer_right(entries_map(entries.take(i as int))),
        decreases n - i,
    {
        let name = more.entries[i].0.as_str().to_owned();
        let metrics = more.entries[i].1;
        let ghost before = all@;
        all.insert(name, metrics);
        proof {
            lemma_prefix_map(entries, i as int);
            assert(old(all)@.union_prefer_right(
                entries_map(entries.take(i as int)).insert(entries[i as int].0@, metrics),
            ) =~= before.insert(entries[i as int].0@, metrics));
        }
        i = i + 1;
    }
    assert(entries.take(n as int) =~= entries);
}

/// Merges the readings of several backends: a failed backend hides no other, and
/// only where all failed is the last failure the outcome.
pub fn merge_readings(results: Vec<Result<GpuReadings, String>>) -> (r: Result<GpuReadings, String>)
    requires
        forall|i: int|
            0 <= i < results@.len() && (#[trigger] results@[i]) is Ok ==> results@[i]->Ok_0.wf(),
    ensures
        match r {
            Ok(all) => (any_ok(results@) || results@.len() == 0) && all.wf() && all@
                == merged_readings(results@),
            Err(e) => results@.len() > 0 && !any_ok(results@) && results@.last() is Err && e@
                == results@.last()->Err_0@,
        },
{
    let mut all: GpuReadings = Table::new();
    let mut found: bool = false;
    let n: usize = results.len();
    let mut i: usize = 0;
    assert(results@.take(0) =~= Seq::<Result<GpuReadings, String>>::empty());
    while i < n
        invariant
            n == results@.len(),
            i <= n,
            forall|j: int|
                0 <= j < results@.len() && (#[trigger] results@[j]) is Ok
                    ==> results@[j]->Ok_0.wf(),
            all.wf(),
            all@ == merged_readings(results@.take(i as int)),
            found == exists|j: int| 0 <= j < i && (#[trigger] results@[j]) is Ok,
        decreases n - i,
    {
        proof {
            lemma_merged_step(results@, i as int);
        }
        match &results[i] {
            Ok(readings) => {
                extend(&mut all, readings);
                assert(results@[i as int] is Ok);
                found = true;
            },
            Err(_) => {},
        }
        i = i + 1;
    }
    assert(results@.take(n as int) =~= results@);
    if !found && n > 0 {
        match &results[n - 1] {
            Ok(_) => {},
            Err(e) => {
                return Err(e.as_str().to_owned());
            },
        }
    }
    Ok(all)
}

/// A source of telemetry.
#[derive(Clone, Copy, Debug, PartialEq, Eq, Structural)]
pub enum BackendKind {
    /// The tool `rocm-smi`.
    Rocm,
    /// The tool `nvidia-smi`.
    Nvidia,
    /// The kernel's files for AMD cards.
    Amdgpu,
    /// No source.
    Dummy,
}

/// The canonical name of a backend: `vulkan` is an alias of `amdgpu`.
pub open spec fn canonical_backend(force: Seq<char>) -> Seq<char> {
    if force == "vulkan"@ {
        "amdgpu"@
    } else {
        force
    }
}

/// The backend that a name asks for, where it asks for one.
pub open spec fn requested_backend(force: Seq<char>) -> Option<BackendKind> {
    let name = canonical_backend(force);
    if name == "rocm"@ {
        Some(BackendKind::Rocm)
    } else if name == "nvidia"@ {
        Some(BackendKind::Nvidia)
    } else if name == "none"@ {
        Some(BackendKind::Dummy)
    } else if name == "amdgpu"@ {
        Some(BackendKind::Amdgpu)
    } else {
        None
    }
}

/// The backends to use where none is asked for: the tools that exist, or else the
/// kernel's files, or else none.
pub open spec fn automatic_backends(nvidia: bool, rocm: bool, amdgpu: bool) -> Seq<BackendKind> {
    if nvidia && rocm {
        seq![BackendKind::Nvidia, BackendKind::Rocm]
    } else if nvidia {
        seq![BackendKind::Nvidia]
    } else if rocm {
        seq![BackendKind::Rocm]
    } else if amdgpu {
        seq![BackendKind::Amdgpu]
    } else {
        seq![BackendKind::Dummy]
    }
}

/// The canonical name of a backend.
pub fn canonicalize_gpu_backend(force: &str) -> (r: &str)
    ensures
        r@ == canonical_backend(force@),
{
    if same_text(force, "vulkan") {
        "amdgpu"
    } else {
        force
    }
}

/// The backend that a name asks for. Nothing is run or looked at to tell it.
pub fn forced_backend(force: &str) -> (r: Option<BackendKind>)
    ensures
        r == requested_backend(force@),
{
    let name = canonicalize_gpu_backend(force);
    if same_text(name, "rocm") {
        Some(BackendKind::Rocm)
    } else if same_text(name, "nvidia") {
        Some(BackendKind::Nvidia)
    } else if same_text(name, "none") {
        Some(BackendKind::Dummy)
    } else if same_text(name, "amdgpu") {
        Some(BackendKind::Amdgpu)
    } else {
        None
    }
}

/// The backends to use where none is asked for, when it is known which tools exist
/// and whether the kernel has files for AMD cards.
pub fn auto_backends(nvidia: bool, rocm: bool, amdgpu: bool) -> (r: Vec<BackendKind>)
    ensures
        r@ == automatic_backends(nvidia, rocm, amdgpu),
{
    let mut kinds: Vec<BackendKind> = Vec::new();
    if nvidia {
        kinds.push(BackendKind::Nvidia);
    }
    if rocm {
        kinds.push(BackendKind::Rocm);
    } else if !nvidia && amdgpu {
        kinds.push(BackendKind::Amdgpu);
    }
    if kinds.len() == 0 {
        kinds.push(BackendKind::Dummy);
    }
    assert(kinds@ =~= automatic_backends(nvidia, rocm, amdgpu));
    kinds
}

// ---------------------------------------------------------------------------
// Laws
// ---------------------------------------------------------------------------
/// Every card of every backend that answered is reported.
pub proof fn law_no_card_is_hidden(
    results: Seq<Result<GpuReadings, String>>,
    i: int,
    name: Seq<char>,
)
    requires
        0 <= i < results.len(),
        results[i] is Ok,
        results[i]->Ok_0@.dom().contains(name),
    ensures
        merged_readings(results).dom().contains(name),
    decreases results.len(),
{
    if i < results.len() - 1 {
        assert(results.drop_last()[i] == results[i]);
        law_no_card_is_hidden(results.drop_last(), i, name);
    }
}

/// A failed backend takes nothing from the readings of the others.
pub proof fn law_failure_hides_nothing(results: Seq<Result<GpuReadings, String>>, e: String)
    ensures
        merged_readings(results.push(Err(e))) == merged_readings(results),
{
    assert(results.push(Err(e)).drop_last() =~= results);
}

/// There is always a backend, and the one without telemetry only alone.
pub proof fn law_some_backend(nvidia: bool, rocm: bool, amdgpu: bool)
    ensures
        automatic_backends(nvidia, rocm, amdgpu).len() >= 1,
        automatic_backends(nvidia, rocm, amdgpu).contains(BackendKind::Dummy) ==> automatic_backends(
            nvidia,
            rocm,
            amdgpu,
        ).len() == 1,
{
    let s = automatic_backends(nvidia, rocm, amdgpu);
    if s.contains(BackendKind::Dummy) {
        let i = s.index_of(BackendKind::Dummy);
        assert(s[i] == BackendKind::Dummy);
    }
}

/// A name and its canonical form ask for the same backend.
pub proof fn law_alias_asks_for_the_same(force: Seq<char>)
    ensures
        requested_backend(canonical_backend(force)) == requested_backend(force),
        canonical_backend(canonical_backend(force)) == canonical_backend(force),
{
    reveal_strlit("vulkan");
    reveal_strlit("amdgpu");
    assert("vulkan"@[0] != "amdgpu"@[0]);
}

/// Every card has the reading of the last backend that names it, and only cards that
/// some backend names are reported.
pub proof fn law_later_backends_go_first(
    results: Seq<Result<GpuReadings, String>>,
    i: int,
    name: Seq<char>,
)
    ensures
        0 <= i < results.len() && results[i] is Ok && results[i]->Ok_0@.dom().contains(name) && (
        forall|j: int|
            i < j < results.len() && (#[trigger] results[j]) is Ok
                ==> !results[j]->Ok_0@.dom().contains(name)) ==> merged_readings(
            results,
        ).dom().contains(name) && merged_readings(results)[name] == results[i]->Ok_0@[name],
        (forall|j: int|
            0 <= j < results.len() && (#[trigger] results[j]) is Ok
                ==> !results[j]->Ok_0@.dom().contains(name)) ==> !merged_readings(
            results,
        ).dom().contains(name),
    decreases results.len(),
{
    if results.len() > 0 {
        let front = results.drop_last();
        let n = front.len() as int;
        assert(results[n] == results.last());
        law_later_backends_go_first(front, i, name);
        assert forall|j: int| 0 <= j < n implies (#[trigger] front[j]) == results[j] by {}
    }
}

/// The tools that exist are used, in their order, and the kernel's files where no tool
/// does. There is no telemetry only where none of them exists.
pub proof fn law_tools_that_exist_are_used(nvidia: bool, rocm: bool, amdgpu: bool)
    ensures
        ({
            let kinds = automatic_backends(nvidia, rocm, amdgpu);
            &&& kinds.contains(BackendKind::Nvidia) == nvidia
            &&& kinds.contains(BackendKind::Rocm) == rocm
            &&& kinds.contains(BackendKind::Amdgpu) == (amdgpu && !nvidia && !rocm)
            &&& kinds.contains(BackendKind::Dummy) == (!nvidia && !rocm && !amdgpu)
            &&& kinds.no_duplicates()
            &&& nvidia ==> kinds[0] == BackendKind::Nvidia
        }),
{
    let kinds = automatic_backends(nvidia, rocm, amdgpu);
    assert(kinds[0] == kinds.first());
    assert(nvidia && rocm ==> kinds[1] == BackendKind::Rocm);
    assert forall|k: BackendKind| kinds.contains(k) == (exists|i: int|
        0 <= i < kinds.len() && kinds[i] == k) by {}
}

/// A name asks for the backend that it is the name of, and any other name for none.
pub proof fn law_names_ask_for_backends(force: Seq<char>)
    ensures
        (requested_backend(force) == Some(BackendKind::Rocm)) == (force == "rocm"@),
        (requested_backend(force) == Some(BackendKind::Nvidia)) == (force == "nvidia"@),
        (requested_backend(force) == Some(BackendKind::Dummy)) == (force == "none"@),
        (requested_backend(force) == Some(BackendKind::Amdgpu)) == (force == "amdgpu"@ || force
            == "vulkan"@),
{
    reveal_strlit("rocm");
    reveal_strlit("nvidia");
    reveal_strlit("none");
    reveal_strlit("amdgpu");
    reveal_strlit("vulkan");
    assert("rocm"@[0] != "none"@[0]);
    assert("rocm"@.len() == 4 && "none"@.len() == 4);
    assert("nvidia"@.len() == 6 && "amdgpu"@.len() == 6 && "vulkan"@.len() == 6);
    assert("nvidia"@[0] != "amdgpu"@[0]);
    assert("nvidia"@[0] != "vulkan"@[0]);
    assert("amdgpu"@[0] != "vulkan"@[0]);
}

} // verus!
