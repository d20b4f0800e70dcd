use mmtk::constants::DEFAULT_STRESS_FACTOR;
use mmtk::options::{
    NurseryZeroingOptions, OptionKey, Options, PerfEventOptions, PlanSelector,
    UnsafeOptionsWrapper,
};

#[test]
fn no_env_var() {
    let options = Options::default();
    assert_eq!(options.stress_factor, DEFAULT_STRESS_FACTOR);
}

#[test]
fn test_str_option_default() {
    let options = Options::default();
    assert_eq!(
        &options.work_perf_events,
        &PerfEventOptions { events: vec![] }
    );
}

#[test]
fn default_has_a_thread_per_cpu() {
    let options = Options::default();
    assert!(options.threads >= 1);
    assert_eq!(options.plan, PlanSelector::NoGC);
    assert!(options.variable_size_heap);
}

#[test]
fn set_stress_factor_from_str() {
    let mut options = Options::with_threads(4);
    assert!(Options::is_option_name("stress_factor"));
    assert!(options.set_from_str("stress_factor", "4096"));
    assert_eq!(options.stress_factor, 4096);
    assert_eq!(options.analysis_factor, DEFAULT_STRESS_FACTOR);
}

#[test]
fn set_two_options_from_str() {
    let mut options = Options::with_threads(4);
    assert!(options.set_from_str("stress_factor", "4096"));
    assert!(options.set_from_str("no_finalizer", "true"));
    assert_eq!(options.stress_factor, 4096);
    assert!(options.no_finalizer);
}

#[test]
fn invalid_value_keeps_default() {
    let mut options = Options::with_threads(4);
    assert!(!options.set_from_str("stress_factor", "abc"));
    assert_eq!(options.stress_factor, DEFAULT_STRESS_FACTOR);
}

#[test]
fn unknown_option_name() {
    assert!(!Options::is_option_name("abc"));
    assert_eq!(Options::option_key("abc"), None);
    assert_eq!(Options::option_key("threads"), Some(OptionKey::Threads));
}

#[test]
fn zero_threads_is_invalid() {
    let mut options = Options::with_threads(4);
    assert!(!options.set_from_str("threads", "0"));
    assert_eq!(options.threads, 4);
    assert!(options.set_from_str("threads", "8"));
    assert_eq!(options.threads, 8);
}

#[test]
fn perf_events_from_str() {
    let mut options = Options::with_threads(1);
    assert!(options.set_from_str("work_perf_events", "PERF_COUNT_HW_CPU_CYCLES,0,-1"));
    assert_eq!(
        &options.work_perf_events,
        &PerfEventOptions {
            events: vec![("PERF_COUNT_HW_CPU_CYCLES".into(), 0, -1)]
        }
    );
}

#[test]
fn invalid_perf_events_keep_default() {
    let mut options = Options::with_threads(1);
    assert!(!options.set_from_str("work_perf_events", "PERF_COUNT_HW_CPU_CYCLES"));
    assert_eq!(
        &options.work_perf_events,
        &PerfEventOptions { events: vec![] }
    );
}

#[test]
fn perf_events_errors() {
    assert_eq!(
        PerfEventOptions::parse_perf_events("A,1"),
        Err(String::from("Please supply (event name, pid, cpu)"))
    );
    assert_eq!(
        PerfEventOptions::parse_perf_events("A,x,1"),
        Err(String::from("Failed to parse cpu"))
    );
    assert_eq!(
        PerfEventOptions::parse_perf_events("A,1,2;;B,-3,4"),
        Ok(vec![("A".to_string(), 1, 2), ("B".to_string(), -3, 4)])
    );
    assert_eq!(PerfEventOptions::parse_perf_events(""), Ok(vec![]));
}

#[test]
fn enum_options_from_names() {
    assert_eq!(PlanSelector::from_name("Immix"), Ok(PlanSelector::Immix));
    assert!(PlanSelector::from_name("immix").is_err());
    assert_eq!(
        NurseryZeroingOptions::from_name("Adaptive"),
        Ok(NurseryZeroingOptions::Adaptive)
    );
    assert!(NurseryZeroingOptions::from_name("Lazy").is_err());
    let mut options = Options::with_threads(1);
    assert!(options.set_from_str("plan", "GenCopy"));
    assert_eq!(options.plan, PlanSelector::GenCopy);
}

#[test]
fn camel_case_names() {
    assert_eq!(
        Options::camel_to_snake_case("useShortStackScans"),
        "use_short_stack_scans".chars().collect::<Vec<char>>()
    );
    let mut wrapper = UnsafeOptionsWrapper::new(Options::with_threads(2));
    assert!(wrapper.process("noReferenceTypes", "true"));
    assert!(wrapper.get().no_reference_types);
    assert!(!wrapper.process("vmSpaceSize", "-1"));
    assert_eq!(wrapper.get().vm_space_size, 0x7cc_cccc);
    assert!(wrapper.process("vmSpaceSize", "1024"));
    assert_eq!(wrapper.get().vm_space_size, 1024);
}
