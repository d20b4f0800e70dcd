//! The options of MMTk: their defaults, and setting them from strings (as the
//! VM passes them, or as environment variables `MMTK_<NAME>` give them).
use vstd::prelude::*;
use vstd::string::{StrSliceExecFns, StringExecFns};
use crate::constants::DEFAULT_STRESS_FACTOR;
use crate::str_parse::{
    parse_u64, parse_i32, parse_bool, str_eq, chars_eq, split_str,
    parse_u64_spec, parse_i32_spec, parse_bool_spec, split_spec,
};

verus! {

/// The nursery size: 32 MB.
pub const NURSERY_SIZE: u64 = 33554432;
/// The default minimum nursery size: 32 MB.
pub const DEFAULT_MIN_NURSERY: u64 = 33554432;
/// The default maximum nursery size: 32 MB.
pub const DEFAULT_MAX_NURSERY: u64 = 33554432;

/// The error of parsing an enum option.
#[derive(Debug, Clone, PartialEq, Eq)]
pub struct EnumParseError(pub &'static str);

/// How the nursery is zeroed.
#[derive(Copy, Clone, Debug, PartialEq, Eq, Structural)]
pub enum NurseryZeroingOptions {
    Temporal,
    Nontemporal,
    Concurrent,
    Adaptive,
}

/// The nursery zeroing option named `s`.
pub open spec fn nursery_zeroing_of(s: Seq<char>) -> Option<NurseryZeroingOptions> {
    if s == "Temporal"@ {
        Some(NurseryZeroingOptions::Temporal)
    } else if s == "Nontemporal"@ {
        Some(NurseryZeroingOptions::Nontemporal)
    } else if s == "Concurrent"@ {
        Some(NurseryZeroingOptions::Concurrent)
    } else if s == "Adaptive"@ {
        Some(NurseryZeroingOptions::Adaptive)
    } else {
        None
    }
}

impl NurseryZeroingOptions {
    /// The option named `s`.
    pub fn from_name(s: &str) -> (r: Result<Self, EnumParseError>)
        ensures
            match nursery_zeroing_of(s@) {
                Some(o) => r == Ok::<Self, EnumParseError>(o),
                None => r is Err,
            },
    {
        if str_eq(s, "Temporal") {
            Ok(NurseryZeroingOptions::Temporal)
        } else if str_eq(s, "Nontemporal") {
            Ok(NurseryZeroingOptions::Nontemporal)
        } else if str_eq(s, "Concurrent") {
            Ok(NurseryZeroingOptions::Concurrent)
        } else if str_eq(s, "Adaptive") {
            Ok(NurseryZeroingOptions::Adaptive)
        } else {
            Err(EnumParseError("Failed to parse NurseryZeroingOptions"))
        }
    }
}

/// The garbage collection plan.
#[derive(Copy, Clone, Debug, PartialEq, Eq, Structural)]
pub enum PlanSelector {
    NoGC,
    SemiSpace,
    GenCopy,
    GenImmix,
    MarkSweep,
    PageProtect,
    Immix,
}

/// The plan named `s`.
pub open spec fn plan_of(s: Seq<char>) -> Option<PlanSelector> {
    if s == "NoGC"@ {
        Some(PlanSelector::NoGC)
    } else if s == "SemiSpace"@ {
        Some(PlanSelector::SemiSpace)
    } else if s == "GenCopy"@ {
        Some(PlanSelector::GenCopy)
    } else if s == "GenImmix"@ {
        Some(PlanSelector::GenImmix)
    } else if s == "MarkSweep"@ {
        Some(PlanSelector::MarkSweep)
    } else if s == "PageProtect"@ {
        Some(PlanSelector::PageProtect)
    } else if s == "Immix"@ {
        Some(PlanSelector::Immix)
    } else {
        None
    }
}

impl PlanSelector {
    /// The plan named `s`.
    pub fn from_name(s: &str) -> (r: Result<Self, EnumParseError>)
        ensures
            match plan_of(s@) {
                Some(p) => r == Ok::<Self, EnumParseError>(p),
                None => r is Err,
            },
    {
        if str_eq(s, "NoGC") {
            Ok(PlanSelector::NoGC)
        } else if str_eq(s, "SemiSpace") {
            Ok(PlanSelector::SemiSpace)
        } else if str_eq(s, "GenCopy") {
            Ok(PlanSelector::GenCopy)
        } else if str_eq(s, "GenImmix") {
            Ok(PlanSelector::GenImmix)
        } else if str_eq(s, "MarkSweep") {
            Ok(PlanSelector::MarkSweep)
        } else if str_eq(s, "PageProtect") {
            Ok(PlanSelector::PageProtect)
        } else if str_eq(s, "Immix") {
            Ok(PlanSelector::Immix)
        } else {
            Err(EnumParseError("Failed to parse PlanSelector"))
        }
    }
}

/// The perf events to count: (event name, pid, cpu).
#[derive(Debug, Clone, PartialEq, Eq)]
pub struct PerfEventOptions {
    pub events: Vec<(String, i32, i32)>,
}

/// The events, with names as character sequences.
pub open spec fn events_view(events: Seq<(String, i32, i32)>) -> Seq<(Seq<char>, i32, i32)> {
    events.map_values(|e: (String, i32, i32)| (e.0@, e.1, e.2))
}

/// One event `name,pid,cpu`.
pub open spec fn event_of(e: Seq<char>) -> Result<(Seq<char>, i32, i32), Seq<char>> {
    let parts = split_spec(e, ',');
    if parts.len() != 3 {
        Err("Please supply (event name, pid, cpu)"@)
    } else if parse_i32_spec(parts[1]) is None || parse_i32_spec(parts[2]) is None {
        Err("Failed to parse cpu"@)
    } else {
        Ok((parts[0], parse_i32_spec(parts[1])->0, parse_i32_spec(parts[2])->0))
    }
}

/// The events of the non-empty pieces, or the error of the first piece that is not an event.
pub open spec fn events_of(pieces: Seq<Seq<char>>) -> Result<Seq<(Seq<char>, i32, i32)>, Seq<char>>
    decreases pieces.len(),
{
    if pieces.len() == 0 {
        Ok(Seq::empty())
    } else if pieces[0].len() == 0 {
        events_of(pieces.skip(1))
    } else {
        match event_of(pieces[0]) {
            Err(e) => Err(e),
            Ok(ev) => match events_of(pieces.skip(1)) {
                Ok(rest) => Ok(seq![ev] + rest),
                Err(e) => Err(e),
            },
        }
    }
}

/// The perf events of `s`: events separated by `;` (empty pieces skipped).
pub open spec fn perf_events_spec(s: Seq<char>) -> Result<Seq<(Seq<char>, i32, i32)>, Seq<char>> {
    events_of(split_spec(s, ';'))
}

impl PerfEventOptions {
    /// Parse the events `name,pid,cpu` separated by `;`.
    pub fn parse_perf_events(events: &str) -> (r: Result<Vec<(String, i32, i32)>, String>)
        ensures
            match perf_events_spec(events@) {
                Ok(evs) => r matches Ok(v) && events_view(v@) == evs,
                Err(e) => r matches Err(m) && m@ == e,
            },
    {
        let pieces = split_str(events, ';');
        let ghost ps = split_spec(events@, ';');
        let mut result: Vec<(String, i32, i32)> = Vec::new();
        let mut i: usize = 0;
        assert(ps.skip(0) =~= ps);
        while i < pieces.len()
            invariant
                pieces@.len() == ps.len(),
                forall|j: int| 0 <= j < pieces@.len() ==> (#[trigger] pieces@[j])@ == ps[j],
                i <= ps.len(),
                perf_events_spec(events@) == (match events_of(ps.skip(i as int)) {
                    Ok(rest) => Ok(events_view(result@) + rest),
                    Err(e) => Err(e),
                }),
            decreases ps.len() - i,
        {
            let e = pieces[i];
            proof {
                assert(ps.skip(i as int)[0] == ps[i as int]);
                assert(ps.skip(i as int).skip(1) =~= ps.skip(i + 1));
            }
            if e.unicode_len() > 0 {
                let parts = split_str(e, ',');
                if parts.len() != 3 {
                    return Err(String::from_str("Please supply (event name, pid, cpu)"));
                }
                let pid = parse_i32(parts[1]);
                let cpu = parse_i32(parts[2]);
                if pid.is_none() || cpu.is_none() {
                    return Err(String::from_str("Failed to parse cpu"));
                }
                let name = String::from_str(parts[0]);
                let ghost before = result@;
                result.push((name, pid.unwrap(), cpu.unwrap()));
                proof {
                    let ev = event_of(ps[i as int])->Ok_0;
                    assert(events_view(result@) =~= events_view(before) + seq![ev]);
                    match events_of(ps.skip(i + 1)) {
                        Ok(rest) => {
                            assert(events_view(before) + (seq![ev] + rest) =~= events_view(result@) + rest);
                        },
                        Err(_) => {},
                    }
                }
            }
            i = i + 1;
        }
        proof {
            assert(events_view(result@) + Seq::empty() =~= events_view(result@));
        }
        Ok(result)
    }

    /// The perf events of `s` (see `parse_perf_events`).
    pub fn parse(s: &str) -> (r: Result<PerfEventOptions, String>)
        ensures
            match perf_events_spec(s@) {
                Ok(evs) => r matches Ok(p) && events_view(p.events@) == evs,
                Err(e) => r matches Err(m) && m@ == e,
            },
    {
        match Self::parse_perf_events(s) {
            Ok(events) => Ok(PerfEventOptions { events }),
            Err(e) => Err(e),
        }
    }
}

/// The number of CPUs available to the process, from `num_cpus::get`, which
/// documents that it returns at least 1; how many depends on the machine, so
/// nothing more is claimed.
#[verifier::external_body]
fn num_cpus_get() -> (r: u64)
    ensures
        r >= 1,
{
    num_cpus::get() as u64
}

/// The options.
pub struct Options {
    pub plan: PlanSelector,
    pub threads: u64,
    pub use_short_stack_scans: bool,
    pub use_return_barrier: bool,
    pub eager_complete_sweep: bool,
    pub ignore_system_g_c: bool,
    pub max_nursery: u64,
    pub min_nursery: u64,
    pub full_heap_system_gc: bool,
    pub variable_size_heap: bool,
    pub no_finalizer: bool,
    pub no_reference_types: bool,
    pub nursery_zeroing: NurseryZeroingOptions,
    pub stress_factor: u64,
    pub analysis_factor: u64,
    pub vm_space_size: u64,
    pub work_perf_events: PerfEventOptions,
    pub phase_perf_events: PerfEventOptions,
}

/// The options that can be set.
#[derive(Copy, Clone, Debug, PartialEq, Eq, Structural)]
pub enum OptionKey {
    Plan,
    Threads,
    UseShortStackScans,
    UseReturnBarrier,
    EagerCompleteSweep,
    IgnoreSystemGC,
    MaxNursery,
    MinNursery,
    FullHeapSystemGc,
    VariableSizeHeap,
    NoFinalizer,
    NoReferenceTypes,
    NurseryZeroing,
    StressFactor,
    AnalysisFactor,
    VmSpaceSize,
    WorkPerfEvents,
    PhasePerfEvents,
}

/// The option named `s`.
pub open spec fn key_of(s: Seq<char>) -> Option<OptionKey> {
    if s == "plan"@ { Some(OptionKey::Plan) }
    else if s == "threads"@ { Some(OptionKey::Threads) }
    else if s == "use_short_stack_scans"@ { Some(OptionKey::UseShortStackScans) }
    else if s == "use_return_barrier"@ { Some(OptionKey::UseReturnBarrier) }
    else if s == "eager_complete_sweep"@ { Some(OptionKey::EagerCompleteSweep) }
    else if s == "ignore_system_g_c"@ { Some(OptionKey::IgnoreSystemGC) }
    else if s == "max_nursery"@ { Some(OptionKey::MaxNursery) }
    else if s == "min_nursery"@ { Some(OptionKey::MinNursery) }
    else if s == "full_heap_system_gc"@ { Some(OptionKey::FullHeapSystemGc) }
    else if s == "variable_size_heap"@ { Some(OptionKey::VariableSizeHeap) }
    else if s == "no_finalizer"@ { Some(OptionKey::NoFinalizer) }
    else if s == "no_reference_types"@ { Some(OptionKey::NoReferenceTypes) }
    else if s == "nursery_zeroing"@ { Some(OptionKey::NurseryZeroing) }
    else if s == "stress_factor"@ { Some(OptionKey::StressFactor) }
    else if s == "analysis_factor"@ { Some(OptionKey::AnalysisFactor) }
    else if s == "vm_space_size"@ { Some(OptionKey::VmSpaceSize) }
    else if s == "work_perf_events"@ { Some(OptionKey::WorkPerfEvents) }
    else if s == "phase_perf_events"@ { Some(OptionKey::PhasePerfEvents) }
    else { None }
}

/// The value of an option, of whichever type it has.
pub enum OptionValue {
    Plan(PlanSelector),
    Number(u64),
    Flag(bool),
    Zeroing(NurseryZeroingOptions),
    Events(Seq<(Seq<char>, i32, i32)>),
}

/// The value of the option named `name` in `o`: the field of that name.
pub open spec fn option_value(o: Options, name: Seq<char>) -> Option<OptionValue> {
    if name == "plan"@ { Some(OptionValue::Plan(o.plan)) }
    else if name == "threads"@ { Some(OptionValue::Number(o.threads)) }
    else if name == "use_short_stack_scans"@ { Some(OptionValue::Flag(o.use_short_stack_scans)) }
    else if name == "use_return_barrier"@ { Some(OptionValue::Flag(o.use_return_barrier)) }
    else if name == "eager_complete_sweep"@ { Some(OptionValue::Flag(o.eager_complete_sweep)) }
    else if name == "ignore_system_g_c"@ { Some(OptionValue::Flag(o.ignore_system_g_c)) }
    else if name == "max_nursery"@ { Some(OptionValue::Number(o.max_nursery)) }
    else if name == "min_nursery"@ { Some(OptionValue::Number(o.min_nursery)) }
    else if name == "full_heap_system_gc"@ { Some(OptionValue::Flag(o.full_heap_system_gc)) }
    else if name == "variable_size_heap"@ { Some(OptionValue::Flag(o.variable_size_heap)) }
    else if name == "no_finalizer"@ { Some(OptionValue::Flag(o.no_finalizer)) }
    else if name == "no_reference_types"@ { Some(OptionValue::Flag(o.no_reference_types)) }
    else if name == "nursery_zeroing"@ { Some(OptionValue::Zeroing(o.nursery_zeroing)) }
    else if name == "stress_factor"@ { Some(OptionValue::Number(o.stress_factor)) }
    else if name == "analysis_factor"@ { Some(OptionValue::Number(o.analysis_factor)) }
    else if name == "vm_space_size"@ { Some(OptionValue::Number(o.vm_space_size)) }
    else if name == "work_perf_events"@ { Some(OptionValue::Events(events_view(o.work_perf_events.events@))) }
    else if name == "phase_perf_events"@ { Some(OptionValue::Events(events_view(o.phase_perf_events.events@))) }
    else { None }
}

/// The value that `val` gives an option whose value has the type of `like`.
pub open spec fn parsed_like(like: OptionValue, val: Seq<char>) -> OptionValue {
    match like {
        OptionValue::Plan(_) => OptionValue::Plan(plan_of(val)->0),
        OptionValue::Number(_) => OptionValue::Number(parse_u64_spec(val)->0),
        OptionValue::Flag(_) => OptionValue::Flag(parse_bool_spec(val)->0),
        OptionValue::Zeroing(_) => OptionValue::Zeroing(nursery_zeroing_of(val)->0),
        OptionValue::Events(_) => OptionValue::Events(perf_events_spec(val)->Ok_0),
    }
}

/// Setting the option named `name` from `val` stores the value parsed from
/// `val` in the field of that name, and leaves the option of every other
/// name as it was.
#[verifier::spinoff_prover]
#[verifier::rlimit(100)]
pub proof fn lemma_set_stores_named_option(old: Options, new: Options, name: Seq<char>, val: Seq<char>)
    requires
        key_of(name) is Some,
        set_succeeds(key_of(name)->0, val),
        option_set(old, new, key_of(name)->0, val),
    ensures
        option_value(new, name) == Some(parsed_like(option_value(old, name)->0, val)),
        forall|other: Seq<char>| other != name ==> #[trigger] option_value(new, other) == option_value(old, other),
{
    match key_of(name)->0 {
        OptionKey::Plan => {
            assert(name == "plan"@);
            assert forall|other: Seq<char>| other != name implies #[trigger] option_value(new, other) == option_value(old, other) by {}
        },
        OptionKey::Threads => {
            assert(name == "threads"@);
            assert forall|other: Seq<char>| other != name implies #[trigger] option_value(new, other) == option_value(old, other) by {}
        },
        OptionKey::UseShortStackScans => {
            assert(name == "use_short_stack_scans"@);
            assert forall|other: Seq<char>| other != name implies #[trigger] option_value(new, other) == option_value(old, other) by {}
        },
        OptionKey::UseReturnBarrier => {
            assert(name == "use_return_barrier"@);
            assert forall|other: Seq<char>| other != name implies #[trigger] option_value(new, other) == option_value(old, other) by {}
        },
        OptionKey::EagerCompleteSweep => {
            assert(name == "eager_complete_sweep"@);
            assert forall|other: Seq<char>| other != name implies #[trigger] option_value(new, other) == option_value(old, other) by {}
        },
        OptionKey::IgnoreSystemGC => {
            assert(name == "ignore_system_g_c"@);
            assert forall|other: Seq<char>| other != name implies #[trigger] option_value(new, other) == option_value(old, other) by {}
        },
        OptionKey::MaxNursery => {
            assert(name == "max_nursery"@);
            assert forall|other: Seq<char>| other != name implies #[trigger] option_value(new, other) == option_value(old, other) by {}
        },
        OptionKey::MinNursery => {
            assert(name == "min_nursery"@);
            assert forall|other: Seq<char>| other != name implies #[trigger] option_value(new, other) == option_value(old, other) by {}
        },
        OptionKey::FullHeapSystemGc => {
            assert(name == "full_heap_system_gc"@);
            assert forall|other: Seq<char>| other != name implies #[trigger] option_value(new, other) == option_value(old, other) by {}
        },
        OptionKey::VariableSizeHeap => {
            assert(name == "variable_size_heap"@);
            assert forall|other: Seq<char>| other != name implies #[trigger] option_value(new, other) == option_value(old, other) by {}
        },
        OptionKey::NoFinalizer => {
            assert(name == "no_finalizer"@);
            assert forall|other: Seq<char>| other != name implies #[trigger] option_value(new, other) == option_value(old, other) by {}
        },
        OptionKey::NoReferenceTypes => {
            assert(name == "no_reference_types"@);
            assert forall|other: Seq<char>| other != name implies #[trigger] option_value(new, other) == option_value(old, other) by {}
        },
        OptionKey::NurseryZeroing => {
            assert(name == "nursery_zeroing"@);
            assert forall|other: Seq<char>| other != name implies #[trigger] option_value(new, other) == option_value(old, other) by {}
        },
        OptionKey::StressFactor => {
            assert(name == "stress_factor"@);
            assert forall|other: Seq<char>| other != name implies #[trigger] option_value(new, other) == option_value(old, other) by {}
        },
        OptionKey::AnalysisFactor => {
            assert(name == "analysis_factor"@);
            assert forall|other: Seq<char>| other != name implies #[trigger] option_value(new, other) == option_value(old, other) by {}
        },
        OptionKey::VmSpaceSize => {
            assert(name == "vm_space_size"@);
            assert forall|other: Seq<char>| other != name implies #[trigger] option_value(new, other) == option_value(old, other) by {}
        },
        OptionKey::WorkPerfEvents => {
            assert(name == "work_perf_events"@);
            assert forall|other: Seq<char>| other != name implies #[trigger] option_value(new, other) == option_value(old, other) by {}
        },
        OptionKey::PhasePerfEvents => {
            assert(name == "phase_perf_events"@);
            assert forall|other: Seq<char>| other != name implies #[trigger] option_value(new, other) == option_value(old, other) by {}
        },
    }
}

/// A positive number parsed from `val`.
pub open spec fn positive(val: Seq<char>) -> bool {
    parse_u64_spec(val) matches Some(v) && v > 0
}

/// Setting the option `key` to `val` succeeds: the value parses and is valid.
pub open spec fn set_succeeds(key: OptionKey, val: Seq<char>) -> bool {
    match key {
        OptionKey::Plan => plan_of(val) is Some,
        OptionKey::Threads | OptionKey::MaxNursery | OptionKey::MinNursery | OptionKey::VmSpaceSize => positive(val),
        OptionKey::StressFactor | OptionKey::AnalysisFactor => parse_u64_spec(val) is Some,
        OptionKey::NurseryZeroing => nursery_zeroing_of(val) is Some,
        OptionKey::WorkPerfEvents | OptionKey::PhasePerfEvents => perf_events_spec(val) is Ok,
        _ => parse_bool_spec(val) is Some,
    }
}

/// `new` is `old` with the option `key` set from `val` (which succeeds).
pub open spec fn option_set(old: Options, new: Options, key: OptionKey, val: Seq<char>) -> bool {
    let n = parse_u64_spec(val)->0;
    let b = parse_bool_spec(val)->0;
    match key {
        OptionKey::Plan => new == Options { plan: plan_of(val)->0, ..old },
        OptionKey::Threads => new == Options { threads: n, ..old },
        OptionKey::UseShortStackScans => new == Options { use_short_stack_scans: b, ..old },
        OptionKey::UseReturnBarrier => new == Options { use_return_barrier: b, ..old },
        OptionKey::EagerCompleteSweep => new == Options { eager_complete_sweep: b, ..old },
        OptionKey::IgnoreSystemGC => new == Options { ignore_system_g_c: b, ..old },
        OptionKey::MaxNursery => new == Options { max_nursery: n, ..old },
        OptionKey::MinNursery => new == Options { min_nursery: n, ..old },
        OptionKey::FullHeapSystemGc => new == Options { full_heap_system_gc: b, ..old },
        OptionKey::VariableSizeHeap => new == Options { variable_size_heap: b, ..old },
        OptionKey::NoFinalizer => new == Options { no_finalizer: b, ..old },
        OptionKey::NoReferenceTypes => new == Options { no_reference_types: b, ..old },
        OptionKey::NurseryZeroing => new == Options { nursery_zeroing: nursery_zeroing_of(val)->0, ..old },
        OptionKey::StressFactor => new == Options { stress_factor: n, ..old },
        OptionKey::AnalysisFactor => new == Options { analysis_factor: n, ..old },
        OptionKey::VmSpaceSize => new == Options { vm_space_size: n, ..old },
        OptionKey::WorkPerfEvents => new == Options { work_perf_events: new.work_perf_events, ..old }
            && events_view(new.work_perf_events.events@) == perf_events_spec(val)->Ok_0,
        OptionKey::PhasePerfEvents => new == Options { phase_perf_events: new.phase_perf_events, ..old }
            && events_view(new.phase_perf_events.events@) == perf_events_spec(val)->Ok_0,
    }
}

/// A name in camel case (`useShortStackScans`) in snake case (`use_short_stack_scans`).
pub open spec fn camel_to_snake(s: Seq<char>) -> Seq<char>
    decreases s.len(),
{
    if s.len() == 0 {
        Seq::empty()
    } else {
        let c = s.last();
        let prev = camel_to_snake(s.drop_last());
        if 'A' <= c <= 'Z' {
            prev.push('_').push(((c as u32) + 32) as char)
        } else {
            prev.push(c)
        }
    }
}

/// The defaults of the options, with `threads` worker threads.
pub open spec fn defaults(o: Options, threads: u64) -> bool {
    &&& o.plan == PlanSelector::NoGC
    &&& o.threads == threads
    &&& !o.use_short_stack_scans
    &&& !o.use_return_barrier
    &&& !o.eager_complete_sweep
    &&& !o.ignore_system_g_c
    &&& o.max_nursery == DEFAULT_MAX_NURSERY
    &&& o.min_nursery == DEFAULT_MIN_NURSERY
    &&& !o.full_heap_system_gc
    &&& o.variable_size_heap
    &&& !o.no_finalizer
    &&& !o.no_reference_types
    &&& o.nursery_zeroing == NurseryZeroingOptions::Temporal
    &&& o.stress_factor == DEFAULT_STRESS_FACTOR
    &&& o.analysis_factor == DEFAULT_STRESS_FACTOR
    &&& o.vm_space_size == 0x7cc_cccc
    &&& o.work_perf_events.events@.len() == 0
    &&& o.phase_perf_events.events@.len() == 0
}

impl Options {
    /// The default options, with `threads` worker threads.
    pub fn with_threads(threads: u64) -> (r: Options)
        ensures
            defaults(r, threads),
    {
        Options {
            plan: PlanSelector::NoGC,
            threads,
            use_short_stack_scans: false,
            use_return_barrier: false,
            eager_complete_sweep: false,
            ignore_system_g_c: false,
            max_nursery: DEFAULT_MAX_NURSERY,
            min_nursery: DEFAULT_MIN_NURSERY,
            full_heap_system_gc: false,
            variable_size_heap: true,
            no_finalizer: false,
            no_reference_types: false,
            nursery_zeroing: NurseryZeroingOptions::Temporal,
            stress_factor: DEFAULT_STRESS_FACTOR,
            analysis_factor: DEFAULT_STRESS_FACTOR,
            vm_space_size: 0x7cc_cccc,
            work_perf_events: PerfEventOptions { events: Vec::new() },
            phase_perf_events: PerfEventOptions { events: Vec::new() },
        }
    }

    /// The option named `s`.
    pub fn option_key(s: &str) -> (r: Option<OptionKey>)
        ensures
            r == key_of(s@),
    {
        if str_eq(s, "plan") { Some(OptionKey::Plan) }
        else if str_eq(s, "threads") { Some(OptionKey::Threads) }
        else if str_eq(s, "use_short_stack_scans") { Some(OptionKey::UseShortStackScans) }
        else if str_eq(s, "use_return_barrier") { Some(OptionKey::UseReturnBarrier) }
        else if str_eq(s, "eager_complete_sweep") { Some(OptionKey::EagerCompleteSweep) }
        else if str_eq(s, "ignore_system_g_c") { Some(OptionKey::IgnoreSystemGC) }
        else if str_eq(s, "max_nursery") { Some(OptionKey::MaxNursery) }
        else if str_eq(s, "min_nursery") { Some(OptionKey::MinNursery) }
        else if str_eq(s, "full_heap_system_gc") { Some(OptionKey::FullHeapSystemGc) }
        else if str_eq(s, "variable_size_heap") { Some(OptionKey::VariableSizeHeap) }
        else if str_eq(s, "no_finalizer") { Some(OptionKey::NoFinalizer) }
        else if str_eq(s, "no_reference_types") { Some(OptionKey::NoReferenceTypes) }
        else if str_eq(s, "nursery_zeroing") { Some(OptionKey::NurseryZeroing) }
        else if str_eq(s, "stress_factor") { Some(OptionKey::StressFactor) }
        else if str_eq(s, "analysis_factor") { Some(OptionKey::AnalysisFactor) }
        else if str_eq(s, "vm_space_size") { Some(OptionKey::VmSpaceSize) }
        else if str_eq(s, "work_perf_events") { Some(OptionKey::WorkPerfEvents) }
        else if str_eq(s, "phase_perf_events") { Some(OptionKey::PhasePerfEvents) }
        else { None }
    }

    /// `s` names an option.
    pub fn is_option_name(s: &str) -> (r: bool)
        ensures
            r == (key_of(s@) is Some),
    {
        Self::option_key(s).is_some()
    }

    /// Set the option `key` from `val`, if `val` parses and is valid; returns whether it did.
    pub fn set_option(&mut self, key: OptionKey, val: &str) -> (r: bool)
        ensures
            r == set_succeeds(key, val@),
            r ==> option_set(*old(self), *final(self), key, val@),
            !r ==> *final(self) == *old(self),
    {
        match key {
            OptionKey::Plan => match PlanSelector::from_name(val) {
                Ok(p) => { self.plan = p; true },
                Err(_) => false,
            },
            OptionKey::NurseryZeroing => match NurseryZeroingOptions::from_name(val) {
                Ok(z) => { self.nursery_zeroing = z; true },
                Err(_) => false,
            },
            OptionKey::WorkPerfEvents => match PerfEventOptions::parse(val) {
                Ok(p) => { self.work_perf_events = p; true },
                Err(_) => false,
            },
            OptionKey::PhasePerfEvents => match PerfEventOptions::parse(val) {
                Ok(p) => { self.phase_perf_events = p; true },
                Err(_) => false,
            },
            OptionKey::Threads | OptionKey::MaxNursery | OptionKey::MinNursery | OptionKey::VmSpaceSize => match parse_u64(val) {
                Some(n) => {
                    if n > 0 {
                        match key {
                            OptionKey::Threads => self.threads = n,
                            OptionKey::MaxNursery => self.max_nursery = n,
                            OptionKey::MinNursery => self.min_nursery = n,
                            _ => self.vm_space_size = n,
                        }
                        true
                    } else {
                        false
                    }
                },
                None => false,
            },
            OptionKey::StressFactor | OptionKey::AnalysisFactor => match parse_u64(val) {
                Some(n) => {
                    match key {
                        OptionKey::StressFactor => self.stress_factor = n,
                        _ => self.analysis_factor = n,
                    }
                    true
                },
                None => false,
            },
            _ => match parse_bool(val) {
                Some(b) => {
                    match key {
                        OptionKey::UseShortStackScans => self.use_short_stack_scans = b,
                        OptionKey::UseReturnBarrier => self.use_return_barrier = b,
                        OptionKey::EagerCompleteSweep => self.eager_complete_sweep = b,
                        OptionKey::IgnoreSystemGC => self.ignore_system_g_c = b,
                        OptionKey::FullHeapSystemGc => self.full_heap_system_gc = b,
                        OptionKey::VariableSizeHeap => self.variable_size_heap = b,
                        OptionKey::NoFinalizer => self.no_finalizer = b,
                        _ => self.no_reference_types = b,
                    }
                    true
                },
                None => false,
            },
        }
    }

    /// Set the option named `s` (in snake case) from `val`, if `val` parses and
    /// is valid; returns whether it did.
    pub fn set_from_str(&mut self, s: &str, val: &str) -> (r: bool)
        requires
            key_of(s@) is Some,
        ensures
            r == set_succeeds(key_of(s@)->0, val@),
            r ==> option_set(*old(self), *final(self), key_of(s@)->0, val@),
            r ==> option_value(*final(self), s@) == Some(parsed_like(option_value(*old(self), s@)->0, val@)),
            r ==> forall|other: Seq<char>| other != s@ ==> #[trigger] option_value(*final(self), other) == option_value(*old(self), other),
            !r ==> *final(self) == *old(self),
    {
        let key = Self::option_key(s).unwrap();
        let ghost before = *self;
        let r = self.set_option(key, val);
        proof {
            if r {
                lemma_set_stores_named_option(before, *self, s@, val@);
            }
        }
        r
    }

    /// The name `s` in snake case.
    pub fn camel_to_snake_case(s: &str) -> (r: Vec<char>)
        ensures
            r@ == camel_to_snake(s@),
    {
        let n = s.unicode_len();
        let mut sr: Vec<char> = Vec::new();
        let mut i: usize = 0;
        while i < n
            invariant
                n == s@.len(),
                i <= n,
                sr@ == camel_to_snake(s@.take(i as int)),
            decreases n - i,
        {
            let c = s.get_char(i);
            proof {
                assert(s@.take(i + 1).drop_last() =~= s@.take(i as int));
                assert(s@.take(i + 1).last() == c);
            }
            if 'A' <= c && c <= 'Z' {
                sr.push('_');
                let lower = ((c as u32) + 32) as u8 as char;
                proof {
                    assert(lower == ((c as u32) + 32) as char);
                }
                sr.push(lower);
            } else {
                sr.push(c);
            }
            i = i + 1;
        }
        proof {
            assert(s@.take(n as int) =~= s@);
        }
        sr
    }

    /// The option whose snake-case name has the characters `s`.
    fn option_key_of_chars(s: &Vec<char>) -> (r: Option<OptionKey>)
        ensures
            r == key_of(s@),
    {
        if chars_eq(s, "plan") { Some(OptionKey::Plan) }
        else if chars_eq(s, "threads") { Some(OptionKey::Threads) }
        else if chars_eq(s, "use_short_stack_scans") { Some(OptionKey::UseShortStackScans) }
        else if chars_eq(s, "use_return_barrier") { Some(OptionKey::UseReturnBarrier) }
        else if chars_eq(s, "eager_complete_sweep") { Some(OptionKey::EagerCompleteSweep) }
        else if chars_eq(s, "ignore_system_g_c") { Some(OptionKey::IgnoreSystemGC) }
        else if chars_eq(s, "max_nursery") { Some(OptionKey::MaxNursery) }
        else if chars_eq(s, "min_nursery") { Some(OptionKey::MinNursery) }
        else if chars_eq(s, "full_heap_system_gc") { Some(OptionKey::FullHeapSystemGc) }
        else if chars_eq(s, "variable_size_heap") { Some(OptionKey::VariableSizeHeap) }
        else if chars_eq(s, "no_finalizer") { Some(OptionKey::NoFinalizer) }
        else if chars_eq(s, "no_reference_types") { Some(OptionKey::NoReferenceTypes) }
        else if chars_eq(s, "nursery_zeroing") { Some(OptionKey::NurseryZeroing) }
        else if chars_eq(s, "stress_factor") { Some(OptionKey::StressFactor) }
        else if chars_eq(s, "analysis_factor") { Some(OptionKey::AnalysisFactor) }
        else if chars_eq(s, "vm_space_size") { Some(OptionKey::VmSpaceSize) }
        else if chars_eq(s, "work_perf_events") { Some(OptionKey::WorkPerfEvents) }
        else if chars_eq(s, "phase_perf_events") { Some(OptionKey::PhasePerfEvents) }
        else { None }
    }

    /// Set the option named `s` in camel case (`stressFactor`) from `val`, if
    /// `val` parses and is valid; returns whether it did.
    pub fn set_from_camelcase_str(&mut self, s: &str, val: &str) -> (r: bool)
        requires
            key_of(camel_to_snake(s@)) is Some,
        ensures
            r == set_succeeds(key_of(camel_to_snake(s@))->0, val@),
            r ==> option_set(*old(self), *final(self), key_of(camel_to_snake(s@))->0, val@),
            !r ==> *final(self) == *old(self),
    {
        let sr = Self::camel_to_snake_case(s);
        let key = Self::option_key_of_chars(&sr).unwrap();
        self.set_option(key, val)
    }
}

impl Default for Options {
    /// The default options, with a worker thread per CPU.
    fn default() -> (r: Options)
        ensures
            defaults(r, r.threads),
            r.threads >= 1,
    {
        Options::with_threads(num_cpus_get())
    }
}

/// The options of an MMTk instance, which the VM may set by name.
pub struct UnsafeOptionsWrapper {
    options: Options,
}

impl UnsafeOptionsWrapper {
    /// The wrapped options.
    pub closed spec fn options_spec(&self) -> Options {
        self.options
    }

    /// Wrap the options.
    pub fn new(o: Options) -> (r: UnsafeOptionsWrapper)
        ensures
            r.options_spec() == o,
    {
        UnsafeOptionsWrapper { options: o }
    }

    /// The options.
    pub fn get(&self) -> (r: &Options)
        ensures
            *r == self.options_spec(),
    {
        &self.options
    }

    /// Set the option named `name` in camel case from `value`; returns whether it did.
    pub fn process(&mut self, name: &str, value: &str) -> (r: bool)
        requires
            key_of(camel_to_snake(name@)) is Some,
        ensures
            r == set_succeeds(key_of(camel_to_snake(name@))->0, value@),
            r ==> option_set(old(self).options_spec(), final(self).options_spec(), key_of(camel_to_snake(name@))->0, value@),
            !r ==> final(self).options_spec() == old(self).options_spec(),
    {
        self.options.set_from_camelcase_str(name, value)
    }
}

} // verus!
