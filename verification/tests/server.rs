use rust_hypervisor::rust_hypervisor::paging::declarations::NOT_ENOUGH_MEMORY;
use rust_hypervisor::server::{
    alloc_outcome, benchmark_stats, command_argument, free_outcome, parse_command, Command,
    Outcome, PrintTarget, ServerState, TimeStats,
};
use rust_hypervisor::server::{server_step, Message, Next};

fn words(line: &str) -> Vec<String> {
    line.split_whitespace().map(|w| w.to_string()).collect()
}

#[test]
fn parses_commands() {
    assert_eq!(parse_command(&words("")), Command::Empty);
    assert_eq!(parse_command(&words("// a comment")), Command::Comment);
    assert_eq!(parse_command(&words("quit")), Command::Quit);
    assert_eq!(parse_command(&words("verbose")), Command::ToggleVerbose);
    assert_eq!(parse_command(&words("hierarchical")), Command::ToggleHierarchical);
    assert_eq!(parse_command(&words("benchmark now")), Command::ToggleBenchmark);
    assert_eq!(parse_command(&words("alloc 12")), Command::Alloc);
    assert_eq!(parse_command(&words("free 1")), Command::Free);
    assert_eq!(parse_command(&words("alloc")), Command::MissingArgument);
    assert_eq!(parse_command(&words("free")), Command::MissingArgument);
    assert_eq!(parse_command(&words("allocate 3")), Command::Invalid);
}

#[test]
fn parses_print_targets() {
    assert_eq!(parse_command(&words("print")), Command::Print(PrintTarget::Help));
    assert_eq!(parse_command(&words("print help")), Command::Print(PrintTarget::UsageAndHelp));
    assert_eq!(
        parse_command(&words("print phys_pages free")),
        Command::Print(PrintTarget::FreePhysPages)
    );
    assert_eq!(
        parse_command(&words("print phys_pages used")),
        Command::Print(PrintTarget::UsedPhysPages)
    );
    assert_eq!(
        parse_command(&words("print phys_pages all")),
        Command::Print(PrintTarget::AllPhysPages)
    );
    assert_eq!(parse_command(&words("print phys_pages")), Command::Print(PrintTarget::AllPhysPages));
    assert_eq!(parse_command(&words("print virt_pages")), Command::Print(PrintTarget::VirtPages));
    assert_eq!(parse_command(&words("print pages")), Command::Print(PrintTarget::Pages));
    assert_eq!(parse_command(&words("print nothing")), Command::Print(PrintTarget::Nothing));
}

#[test]
fn reads_arguments() {
    assert_eq!(command_argument(&words("alloc 42")), Some(42));
    assert_eq!(command_argument(&words("free 7")), Some(7));
    assert_eq!(command_argument(&words("alloc lots")), None);
    assert_eq!(command_argument(&words("alloc -3")), None);
    assert_eq!(command_argument(&words("alloc +5")), Some(5));
    assert_eq!(command_argument(&words("alloc 007")), Some(7));
    assert_eq!(command_argument(&words("alloc +")), None);
    assert_eq!(command_argument(&words("alloc 1_000")), None);
    assert_eq!(command_argument(&words("alloc 99999999999999999999999")), None);
}

#[test]
fn toggles_switches() {
    let mut state = ServerState::new();
    assert!(!state.verbose && !state.hierarchical && !state.benchmark);
    state.apply(Command::ToggleVerbose);
    assert!(state.verbose);
    state.apply(Command::ToggleHierarchical);
    state.apply(Command::ToggleBenchmark);
    assert!(state.hierarchical && state.benchmark);
    state.apply(Command::Quit);
    assert!(state.verbose && state.hierarchical && state.benchmark);
    state.apply(Command::ToggleVerbose);
    assert!(!state.verbose);
}

#[test]
fn outcomes() {
    assert_eq!(alloc_outcome(Ok(5)), Outcome::Done);
    assert_eq!(alloc_outcome(Err(NOT_ENOUGH_MEMORY)), Outcome::OutOfMemory);
    assert_eq!(alloc_outcome(Err(2)), Outcome::Stop(2));
    assert_eq!(free_outcome(Ok(())), Outcome::Done);
    assert_eq!(free_outcome(Err(2)), Outcome::Stop(2));
}

#[test]
fn benchmark_statistics() {
    assert_eq!(benchmark_stats(&vec![], &vec![]), None);
    let stats = benchmark_stats(&vec![30, 10, 20], &vec![5, 50]).unwrap();
    assert_eq!(stats.alloc, Some(TimeStats { min: 10, max: 30, sum: 60, avg: 20 }));
    assert_eq!(stats.free, Some(TimeStats { min: 5, max: 50, sum: 55, avg: 27 }));
    assert_eq!(stats.overall, TimeStats { min: 5, max: 50, sum: 115, avg: 23 });
}

#[test]
fn benchmark_statistics_in_microseconds_and_nanoseconds() {
    let stats = benchmark_stats(&vec![1500, 2500], &vec![500]).unwrap();
    assert_eq!(stats.alloc, Some(TimeStats { min: 1500, max: 2500, sum: 4000, avg: 2000 }));
    assert_eq!(stats.free, Some(TimeStats { min: 500, max: 500, sum: 500, avg: 500 }));
    assert_eq!(stats.overall, TimeStats { min: 500, max: 2500, sum: 4500, avg: 1500 });
}

#[test]
fn benchmark_statistics_of_allocations_only() {
    let stats = benchmark_stats(&vec![7, 3], &vec![]).unwrap();
    assert_eq!(stats.alloc, Some(TimeStats { min: 3, max: 7, sum: 10, avg: 5 }));
    assert_eq!(stats.free, None);
    assert_eq!(stats.overall, TimeStats { min: 3, max: 7, sum: 10, avg: 5 });
}

#[test]
fn benchmark_statistics_of_frees_only() {
    let stats = benchmark_stats(&vec![], &vec![4]).unwrap();
    assert_eq!(stats.alloc, None);
    assert_eq!(stats.free, Some(TimeStats { min: 4, max: 4, sum: 4, avg: 4 }));
    assert_eq!(stats.overall, TimeStats { min: 4, max: 4, sum: 4, avg: 4 });
}

fn switches(verbose: bool, hierarchical: bool, benchmark: bool) -> ServerState {
    ServerState { verbose, hierarchical, benchmark }
}

#[test]
fn step_quit_reports_and_stops() {
    let a = server_step(switches(true, false, true), Command::Quit, Outcome::Done);
    assert_eq!(a.messages, vec![Message::ExitingProgram, Message::PrintingBenchmarks]);
    assert_eq!(a.next, Next::Quit);
    assert!(!a.record_time);
    let a = server_step(switches(false, false, false), Command::Quit, Outcome::Done);
    assert!(a.messages.is_empty());
    assert_eq!(a.next, Next::Quit);
}

#[test]
fn step_toggles() {
    let a = server_step(switches(false, false, false), Command::ToggleVerbose, Outcome::Done);
    assert_eq!(a.messages, vec![Message::VerboseOff]);
    assert_eq!(a.next, Next::Prompt);
    let a = server_step(switches(false, true, false), Command::ToggleHierarchical, Outcome::Done);
    assert!(a.messages.is_empty());
    let a = server_step(switches(true, true, false), Command::ToggleHierarchical, Outcome::Done);
    assert_eq!(a.messages, vec![Message::HierarchicalOn]);
    let a = server_step(switches(true, false, false), Command::ToggleBenchmark, Outcome::Done);
    assert_eq!(a.messages, vec![Message::BenchmarkOff]);
}

#[test]
fn step_lines_without_work() {
    let a = server_step(switches(true, false, false), Command::Empty, Outcome::Done);
    assert!(a.messages.is_empty());
    assert_eq!(a.next, Next::NextLine);
    let a = server_step(switches(true, false, false), Command::Comment, Outcome::Done);
    assert!(a.messages.is_empty());
    assert_eq!(a.next, Next::Prompt);
    let a = server_step(switches(false, false, false), Command::Invalid, Outcome::Done);
    assert_eq!(a.messages, vec![Message::Help]);
    let a = server_step(switches(true, false, false), Command::Invalid, Outcome::Done);
    assert_eq!(a.messages, vec![Message::InvalidInput, Message::Help]);
    let a = server_step(switches(true, false, false), Command::MissingArgument, Outcome::Done);
    assert_eq!(a.messages, vec![Message::MissingArgument]);
    let a = server_step(switches(false, false, false), Command::Print(PrintTarget::Pages), Outcome::Done);
    assert_eq!(a.messages, vec![Message::Show(PrintTarget::Pages)]);
}

#[test]
fn step_alloc_outcomes() {
    let a = server_step(switches(true, false, true), Command::Alloc, Outcome::Done);
    assert_eq!(a.messages, vec![Message::Allocated, Message::AllocTime]);
    assert!(a.record_time);
    assert_eq!(a.next, Next::Prompt);
    let a = server_step(switches(false, false, true), Command::Alloc, Outcome::OutOfMemory);
    assert_eq!(a.messages, vec![Message::NotEnoughRoom]);
    assert!(!a.record_time);
    assert_eq!(a.next, Next::NextLine);
    let a = server_step(switches(true, false, false), Command::Alloc, Outcome::Stop(2));
    assert_eq!(a.messages, vec![Message::AllocFailed]);
    assert_eq!(a.next, Next::Fail(2));
}

#[test]
fn step_free_outcomes() {
    let a = server_step(switches(true, false, false), Command::Free, Outcome::Done);
    assert_eq!(a.messages, vec![Message::Freed]);
    assert!(a.record_time);
    assert_eq!(a.next, Next::Prompt);
    let a = server_step(switches(true, false, true), Command::Free, Outcome::Stop(2));
    assert_eq!(a.messages, vec![Message::FreeFailed]);
    assert!(!a.record_time);
    assert_eq!(a.next, Next::Fail(2));
}
