use vstd::prelude::*;
use crate::rust_hypervisor::paging::declarations::NOT_ENOUGH_MEMORY;
use crate::rust_hypervisor::paging::declarations::FIRST_INPUT_INDEX;
use crate::rust_hypervisor::paging::declarations::SECOND_INPUT_INDEX;
use crate::rust_hypervisor::paging::declarations::THIRD_INPUT_INDEX;

verus! {

/// The switches of the command-line server.
#[derive(Debug, Clone, Copy, PartialEq, Eq, Structural)]
pub struct ServerState {
    /// Allocate from several chapters where one is not enough.
    pub hierarchical: bool,
    /// Report what each command did.
    pub verbose: bool,
    /// Time each allocation and free.
    pub benchmark: bool,
}

/// What the `print` command shows.
#[derive(Debug, Clone, Copy, PartialEq, Eq, Structural)]
pub enum PrintTarget {
    /// `print help`: how to use `print`, then all commands.
    UsageAndHelp,
    /// `print` alone: all commands.
    Help,
    /// `print phys_pages free`.
    FreePhysPages,
    /// `print phys_pages used`.
    UsedPhysPages,
    /// `print phys_pages`, with `all` or anything else.
    AllPhysPages,
    /// `print virt_pages`.
    VirtPages,
    /// `print pages`: physical, then virtual pages.
    Pages,
    /// `print` with an unknown argument: nothing.
    Nothing,
}

/// A command of the server, read from one line of input.
#[derive(Debug, Clone, Copy, PartialEq, Eq, Structural)]
pub enum Command {
    /// A line with no words.
    Empty,
    /// A line starting with `//`.
    Comment,
    Quit,
    ToggleVerbose,
    ToggleHierarchical,
    ToggleBenchmark,
    Print(PrintTarget),
    /// `alloc <size>`.
    Alloc,
    /// `free <address>`.
    Free,
    /// `alloc` or `free` without its argument.
    MissingArgument,
    /// Anything else.
    Invalid,
}

/// Whether word `i` of `ws` is the keyword `k`.
pub open spec fn is_word(ws: Seq<Seq<char>>, i: int, k: &str) -> bool {
    i < ws.len() && ws[i] == k@
}

/// The `print` target that the words `ws` (starting with `print`) ask for.
pub open spec fn print_target_of(ws: Seq<Seq<char>>) -> PrintTarget {
    if ws.len() < 2 {
        PrintTarget::Help
    } else if is_word(ws, 1, "help") {
        PrintTarget::UsageAndHelp
    } else if is_word(ws, 1, "phys_pages") {
        if is_word(ws, 2, "free") {
            PrintTarget::FreePhysPages
        } else if is_word(ws, 2, "used") {
            PrintTarget::UsedPhysPages
        } else {
            PrintTarget::AllPhysPages
        }
    } else if is_word(ws, 1, "virt_pages") {
        PrintTarget::VirtPages
    } else if is_word(ws, 1, "pages") {
        PrintTarget::Pages
    } else {
        PrintTarget::Nothing
    }
}

/// The command that the words `ws` of a line of input ask for.
pub open spec fn command_of(ws: Seq<Seq<char>>) -> Command {
    if ws.len() == 0 {
        Command::Empty
    } else if is_word(ws, 0, "//") {
        Command::Comment
    } else if is_word(ws, 0, "quit") {
        Command::Quit
    } else if is_word(ws, 0, "verbose") {
        Command::ToggleVerbose
    } else if is_word(ws, 0, "hierarchical") {
        Command::ToggleHierarchical
    } else if is_word(ws, 0, "benchmark") {
        Command::ToggleBenchmark
    } else if is_word(ws, 0, "print") {
        Command::Print(print_target_of(ws))
    } else if is_word(ws, 0, "alloc") && ws.len() >= 2 {
        Command::Alloc
    } else if is_word(ws, 0, "free") && ws.len() >= 2 {
        Command::Free
    } else if is_word(ws, 0, "alloc") || is_word(ws, 0, "free") {
        Command::MissingArgument
    } else {
        Command::Invalid
    }
}

/// The words of a line, as character sequences.
pub open spec fn words_view(words: Seq<String>) -> Seq<Seq<char>> {
    words.map_values(|w: String| w@)
}

/// Whether `words[i]` exists and is the keyword `k`.
fn word_at_is(words: &Vec<String>, i: usize, k: &str) -> (r: bool)
    ensures
        r == is_word(words_view(words@), i as int, k),
{
    if i < words.len() {
        let keyword = k.to_owned();
        words[i] == keyword
    } else {
        false
    }
}

/// Reads the command that the words of a line of input ask for.
pub fn parse_command(words: &Vec<String>) -> (r: Command)
    ensures
        r == command_of(words_view(words@)),
{
    let n = words.len();
    if n == 0 {
        Command::Empty
    } else if word_at_is(words, FIRST_INPUT_INDEX, "//") {
        Command::Comment
    } else if word_at_is(words, FIRST_INPUT_INDEX, "quit") {
        Command::Quit
    } else if word_at_is(words, FIRST_INPUT_INDEX, "verbose") {
        Command::ToggleVerbose
    } else if word_at_is(words, FIRST_INPUT_INDEX, "hierarchical") {
        Command::ToggleHierarchical
    } else if word_at_is(words, FIRST_INPUT_INDEX, "benchmark") {
        Command::ToggleBenchmark
    } else if word_at_is(words, FIRST_INPUT_INDEX, "print") {
        let target = if n < 2 {
            PrintTarget::Help
        } else if word_at_is(words, SECOND_INPUT_INDEX, "help") {
            PrintTarget::UsageAndHelp
        } else if word_at_is(words, SECOND_INPUT_INDEX, "phys_pages") {
            if word_at_is(words, THIRD_INPUT_INDEX, "free") {
                PrintTarget::FreePhysPages
            } else if word_at_is(words, THIRD_INPUT_INDEX, "used") {
                PrintTarget::UsedPhysPages
            } else {
                PrintTarget::AllPhysPages
            }
        } else if word_at_is(words, SECOND_INPUT_INDEX, "virt_pages") {
            PrintTarget::VirtPages
        } else if word_at_is(words, SECOND_INPUT_INDEX, "pages") {
            PrintTarget::Pages
        } else {
            PrintTarget::Nothing
        };
        Command::Print(target)
    } else if word_at_is(words, FIRST_INPUT_INDEX, "alloc") && n >= 2 {
        Command::Alloc
    } else if word_at_is(words, FIRST_INPUT_INDEX, "free") && n >= 2 {
        Command::Free
    } else if word_at_is(words, FIRST_INPUT_INDEX, "alloc") || word_at_is(words, FIRST_INPUT_INDEX, "free") {
        Command::MissingArgument
    } else {
        Command::Invalid
    }
}

/// The switches after a command: each toggle command flips its switch.
pub open spec fn state_after(state: ServerState, cmd: Command) -> ServerState {
    match cmd {
        Command::ToggleVerbose => ServerState { verbose: !state.verbose, ..state },
        Command::ToggleHierarchical => ServerState { hierarchical: !state.hierarchical, ..state },
        Command::ToggleBenchmark => ServerState { benchmark: !state.benchmark, ..state },
        _ => state,
    }
}

impl ServerState {
    /// The switches a server starts with: all off.
    pub fn new() -> (r: ServerState)
        ensures
            !r.hierarchical && !r.verbose && !r.benchmark,
    {
        ServerState { hierarchical: false, verbose: false, benchmark: false }
    }

    /// Applies a command to the switches.
    pub fn apply(&mut self, cmd: Command)
        ensures
            *final(self) == state_after(*old(self), cmd),
    {
        match cmd {
            Command::ToggleVerbose => {
                self.verbose = !self.verbose;
            },
            Command::ToggleHierarchical => {
                self.hierarchical = !self.hierarchical;
            },
            Command::ToggleBenchmark => {
                self.benchmark = !self.benchmark;
            },
            _ => {},
        }
    }
}

/// How the server goes on after an allocation or a free.
#[derive(Debug, Clone, Copy, PartialEq, Eq, Structural)]
pub enum Outcome {
    /// It succeeded: time it and go on.
    Done,
    /// The allocation found no room: say so and read the next command.
    OutOfMemory,
    /// Stop the server with this error code.
    Stop(u8),
}

/// How the server goes on after an allocation that returned `r`: lack of
/// memory is reported and the server goes on; any other error stops it.
pub fn alloc_outcome(r: Result<usize, u8>) -> (o: Outcome)
    ensures
        o == match r {
            Ok(_) => Outcome::Done,
            Err(e) => if e == NOT_ENOUGH_MEMORY {
                Outcome::OutOfMemory
            } else {
                Outcome::Stop(e)
            },
        },
{
    match r {
        Ok(_) => Outcome::Done,
        Err(e) => {
            if e == NOT_ENOUGH_MEMORY {
                Outcome::OutOfMemory
            } else {
                Outcome::Stop(e)
            }
        },
    }
}

/// How the server goes on after a free that returned `r`: any error stops it.
pub fn free_outcome(r: Result<(), u8>) -> (o: Outcome)
    ensures
        o == match r {
            Ok(_) => Outcome::Done,
            Err(e) => Outcome::Stop(e),
        },
{
    match r {
        Ok(_) => Outcome::Done,
        Err(e) => Outcome::Stop(e),
    }
}


/// What the server says or shows after a command, in order.
#[derive(Debug, Clone, Copy, PartialEq, Eq, Structural)]
pub enum Message {
    /// `Exiting program.`
    ExitingProgram,
    /// `Printing out final benchmarking information.`, then the statistics.
    PrintingBenchmarks,
    /// `Verbose mode turned on.` / `... off.`
    VerboseOn,
    VerboseOff,
    /// `Hierarchical mode turned on.` / `... off.`
    HierarchicalOn,
    HierarchicalOff,
    /// `Benchmarking mode turned on.` / `... off.`
    BenchmarkOn,
    BenchmarkOff,
    /// What a `print` command asks for.
    Show(PrintTarget),
    /// `allocated <pages> pages for a size of <size> starting at address <address>.`
    Allocated,
    /// `failed to allocate pages.`
    AllocFailed,
    /// `not enough room to allocate this amount.`
    NotEnoughRoom,
    /// `Alloc ran in <micros> microseconds and <nanos> nanoseconds`
    AllocTime,
    /// `freed pages for address <address>.`
    Freed,
    /// `failed to free pages.`
    FreeFailed,
    /// `Free ran in <micros> microseconds and <nanos> nanoseconds`
    FreeTime,
    /// `Input Error: Must provide another input for alloc or free.`
    MissingArgument,
    /// `Invalid input, try again.`
    InvalidInput,
    /// The list of commands.
    Help,
}

/// What the server does once a command is answered.
#[derive(Debug, Clone, Copy, PartialEq, Eq, Structural)]
pub enum Next {
    /// Print the prompt and read the next line.
    Prompt,
    /// Read the next line without a new prompt.
    NextLine,
    /// Stop normally.
    Quit,
    /// Stop with this error code.
    Fail(u8),
}

/// How the server answers a command.
#[derive(Debug, Clone)]
pub struct Action {
    /// What it says or shows, in order.
    pub messages: Vec<Message>,
    /// Whether the operation's time joins the timing statistics.
    pub record_time: bool,
    /// What it does next.
    pub next: Next,
}

/// `m` where the server is verbose, else nothing.
pub open spec fn if_verbose(state: ServerState, m: Message) -> Seq<Message> {
    if state.verbose {
        seq![m]
    } else {
        Seq::empty()
    }
}

/// `m` where the server is benchmarking, else nothing.
pub open spec fn if_benchmark(state: ServerState, m: Message) -> Seq<Message> {
    if state.benchmark {
        seq![m]
    } else {
        Seq::empty()
    }
}

/// What the server says after the command `cmd`, with the switches `state`
/// as the command left them and, for `alloc` and `free`, the operation's
/// outcome `outcome`.
pub open spec fn step_messages(state: ServerState, cmd: Command, outcome: Outcome) -> Seq<Message> {
    match cmd {
        Command::Empty | Command::Comment => Seq::empty(),
        Command::Quit => if_verbose(state, Message::ExitingProgram) + if_benchmark(
            state,
            Message::PrintingBenchmarks,
        ),
        Command::ToggleVerbose => seq![
            if state.verbose {
                Message::VerboseOn
            } else {
                Message::VerboseOff
            },
        ],
        Command::ToggleHierarchical => if_verbose(
            state,
            if state.hierarchical {
                Message::HierarchicalOn
            } else {
                Message::HierarchicalOff
            },
        ),
        Command::ToggleBenchmark => if_verbose(
            state,
            if state.benchmark {
                Message::BenchmarkOn
            } else {
                Message::BenchmarkOff
            },
        ),
        Command::Print(target) => seq![Message::Show(target)],
        Command::Alloc => match outcome {
            Outcome::Done => if_verbose(state, Message::Allocated) + if_benchmark(state, Message::AllocTime),
            Outcome::OutOfMemory => if_verbose(state, Message::AllocFailed) + seq![Message::NotEnoughRoom],
            Outcome::Stop(_) => if_verbose(state, Message::AllocFailed),
        },
        Command::Free => match outcome {
            Outcome::Stop(_) => if_verbose(state, Message::FreeFailed),
            _ => if_verbose(state, Message::Freed) + if_benchmark(state, Message::FreeTime),
        },
        Command::MissingArgument => if_verbose(state, Message::MissingArgument),
        Command::Invalid => if_verbose(state, Message::InvalidInput) + seq![Message::Help],
    }
}

/// What the server does next after the command `cmd` with outcome `outcome`:
/// an empty line, or an allocation that found no room, goes on without a new
/// prompt; `quit` stops; an operation's error stops with that error; anything
/// else prompts for the next line.
pub open spec fn step_next(cmd: Command, outcome: Outcome) -> Next {
    match cmd {
        Command::Empty => Next::NextLine,
        Command::Quit => Next::Quit,
        Command::Alloc => match outcome {
            Outcome::Done => Next::Prompt,
            Outcome::OutOfMemory => Next::NextLine,
            Outcome::Stop(e) => Next::Fail(e),
        },
        Command::Free => match outcome {
            Outcome::Stop(e) => Next::Fail(e),
            _ => Next::Prompt,
        },
        _ => Next::Prompt,
    }
}

/// Whether the time of the command `cmd` with outcome `outcome` joins the
/// timing statistics: that of every `alloc` and `free` that went through.
pub open spec fn step_records_time(cmd: Command, outcome: Outcome) -> bool {
    match cmd {
        Command::Alloc => outcome is Done,
        Command::Free => !(outcome is Stop),
        _ => false,
    }
}

/// Adds `m` to `messages` where `cond` holds.
fn push_if(messages: &mut Vec<Message>, cond: bool, m: Message)
    ensures
        final(messages)@ == old(messages)@ + if cond {
            seq![m]
        } else {
            Seq::<Message>::empty()
        },
{
    if cond {
        messages.push(m);
    }
}

/// How the server answers the command `cmd`, with the switches `state` as
/// the command left them and, for `alloc` and `free`, the operation's
/// outcome `outcome` (ignored for other commands).
pub fn server_step(state: ServerState, cmd: Command, outcome: Outcome) -> (r: Action)
    ensures
        r.messages@ == step_messages(state, cmd, outcome),
        r.next == step_next(cmd, outcome),
        r.record_time == step_records_time(cmd, outcome),
{
    let mut messages: Vec<Message> = Vec::new();
    let mut record_time = false;
    let next = match cmd {
        Command::Empty => Next::NextLine,
        Command::Comment => Next::Prompt,
        Command::Quit => {
            push_if(&mut messages, state.verbose, Message::ExitingProgram);
            push_if(&mut messages, state.benchmark, Message::PrintingBenchmarks);
            Next::Quit
        },
        Command::ToggleVerbose => {
            let m = if state.verbose {
                Message::VerboseOn
            } else {
                Message::VerboseOff
            };
            messages.push(m);
            Next::Prompt
        },
        Command::ToggleHierarchical => {
            let m = if state.hierarchical {
                Message::HierarchicalOn
            } else {
                Message::HierarchicalOff
            };
            push_if(&mut messages, state.verbose, m);
            Next::Prompt
        },
        Command::ToggleBenchmark => {
            let m = if state.benchmark {
                Message::BenchmarkOn
            } else {
                Message::BenchmarkOff
            };
            push_if(&mut messages, state.verbose, m);
            Next::Prompt
        },
        Command::Print(target) => {
            messages.push(Message::Show(target));
            Next::Prompt
        },
        Command::Alloc => match outcome {
            Outcome::Done => {
                push_if(&mut messages, state.verbose, Message::Allocated);
                push_if(&mut messages, state.benchmark, Message::AllocTime);
                record_time = true;
                Next::Prompt
            },
            Outcome::OutOfMemory => {
                push_if(&mut messages, state.verbose, Message::AllocFailed);
                messages.push(Message::NotEnoughRoom);
                Next::NextLine
            },
            Outcome::Stop(e) => {
                push_if(&mut messages, state.verbose, Message::AllocFailed);
                Next::Fail(e)
            },
        },
        Command::Free => match outcome {
            Outcome::Stop(e) => {
                push_if(&mut messages, state.verbose, Message::FreeFailed);
                Next::Fail(e)
            },
            _ => {
                push_if(&mut messages, state.verbose, Message::Freed);
                push_if(&mut messages, state.benchmark, Message::FreeTime);
                record_time = true;
                Next::Prompt
            },
        },
        Command::MissingArgument => {
            push_if(&mut messages, state.verbose, Message::MissingArgument);
            Next::Prompt
        },
        Command::Invalid => {
            push_if(&mut messages, state.verbose, Message::InvalidInput);
            messages.push(Message::Help);
            Next::Prompt
        },
    };
    Action { messages, record_time, next }
}

/// `c` is an ASCII decimal digit.
pub open spec fn is_digit(c: char) -> bool {
    '0' as int <= c as int <= '9' as int
}

/// The value of the decimal digits `s`, most significant first.
pub open spec fn digits_value(s: Seq<char>) -> int
    decreases s.len(),
{
    if s.len() == 0 {
        0
    } else {
        digits_value(s.drop_last()) * 10 + (s.last() as int - '0' as int)
    }
}

/// The number that the characters `s` stand for as a `usize`: an optional
/// `+`, then one or more ASCII decimal digits whose value fits in a `usize`.
/// Anything else (an empty word, a sign alone, `-`, spaces, other characters,
/// a value too large) stands for no number.
pub open spec fn parsed_usize(s: Seq<char>) -> Option<usize> {
    let digits = if s.len() > 0 && s[0] == '+' {
        s.drop_first()
    } else {
        s
    };
    if digits.len() > 0 && (forall|i: int| 0 <= i < digits.len() ==> is_digit(#[trigger] digits[i]))
        && digits_value(digits) <= usize::MAX {
        Some(digits_value(digits) as usize)
    } else {
        None
    }
}

/// Parses a word as a `usize` with the standard library's `str::parse`
/// (`usize::from_str`, in base 10), `None` where it reports an error. Its
/// documentation accepts exactly an optional `+` followed by decimal digits
/// whose value fits the type; this contract states that rule.
#[verifier::external_body]
fn parse_usize(word: &String) -> (r: Option<usize>)
    ensures
        r == parsed_usize(word@),
{
    word.parse::<usize>().ok()
}

/// The number that the argument of an `alloc` or `free` line stands for, if
/// it is one.
pub fn command_argument(words: &Vec<String>) -> (r: Option<usize>)
    requires
        words.len() >= 2,
    ensures
        r == parsed_usize(words@[1]@),
{
    parse_usize(&words[SECOND_INPUT_INDEX])
}

/// The largest number of nanoseconds a `std::time::Duration` holds.
pub const MAX_DURATION_NANOS: u128 = 18446744073709551615999999999;

/// Sum of the times `s`.
pub open spec fn seq_sum(s: Seq<u128>) -> int
    decreases s.len(),
{
    if s.len() == 0 {
        0
    } else {
        seq_sum(s.drop_last()) + s.last()
    }
}

/// `x` is the least of the times `s`.
pub open spec fn is_min(s: Seq<u128>, x: u128) -> bool {
    s.contains(x) && forall|i: int| 0 <= i < s.len() ==> x <= #[trigger] s[i]
}

/// `x` is the greatest of the times `s`.
pub open spec fn is_max(s: Seq<u128>, x: u128) -> bool {
    s.contains(x) && forall|i: int| 0 <= i < s.len() ==> #[trigger] s[i] <= x
}

/// The least, greatest, total and average of a series of times, in
/// nanoseconds.
#[derive(Debug, Clone, Copy, PartialEq, Eq, Structural)]
pub struct TimeStats {
    pub min: u128,
    pub max: u128,
    pub sum: u128,
    /// The total divided by the number of times, rounded down.
    pub avg: u128,
}

/// `t` holds the least, greatest, total and average of the times `s`.
pub open spec fn stats_of(s: Seq<u128>, t: TimeStats) -> bool {
    &&& is_min(s, t.min)
    &&& is_max(s, t.max)
    &&& t.sum == seq_sum(s)
    &&& t.avg == seq_sum(s) / (s.len() as int)
}

/// `t` holds the statistics of the times `s`, or is `None` where there are none.
pub open spec fn side_stats_of(s: Seq<u128>, t: Option<TimeStats>) -> bool {
    match t {
        None => s.len() == 0,
        Some(t) => s.len() > 0 && stats_of(s, t),
    }
}

/// Time statistics of allocations and of frees, each where some were timed,
/// and of both together.
#[derive(Debug, Clone, Copy, PartialEq, Eq, Structural)]
pub struct BenchmarkStats {
    pub alloc: Option<TimeStats>,
    pub free: Option<TimeStats>,
    pub overall: TimeStats,
}

/// The sum of a series that grows by one time.
proof fn lemma_sum_push(s: Seq<u128>, x: u128)
    ensures
        seq_sum(s.push(x)) == seq_sum(s) + x,
{
    assert(s.push(x).drop_last() == s);
}

/// Sums of times are never negative.
proof fn lemma_sum_nonneg(s: Seq<u128>)
    ensures
        seq_sum(s) >= 0,
    decreases s.len(),
{
    if s.len() > 0 {
        lemma_sum_nonneg(s.drop_last());
    }
}

/// A prefix of a series sums to no more than the series.
proof fn lemma_sum_prefix(s: Seq<u128>, i: int)
    requires
        0 <= i <= s.len(),
    ensures
        seq_sum(s.take(i)) <= seq_sum(s),
    decreases s.len() - i,
{
    if i < s.len() {
        lemma_sum_prefix(s, i + 1);
        assert(s.take(i + 1) == s.take(i).push(s[i]));
        lemma_sum_push(s.take(i), s[i]);
    } else {
        assert(s.take(i) == s);
    }
}

/// The statistics of one series of times.
fn time_stats(times: &Vec<u128>) -> (t: TimeStats)
    requires
        times.len() > 0,
        seq_sum(times@) <= MAX_DURATION_NANOS,
    ensures
        stats_of(times@, t),
{
    let mut min = times[0];
    let mut max = times[0];
    let mut sum = times[0];
    proof {
        assert(times@.take(1) == seq![times@[0]]);
        assert(seq![times@[0]] == Seq::<u128>::empty().push(times@[0]));
        lemma_sum_push(Seq::<u128>::empty(), times@[0]);
    }
    let mut i: usize = 1;
    while i < times.len()
        invariant
            1 <= i <= times.len(),
            seq_sum(times@) <= MAX_DURATION_NANOS,
            times@.take(i as int).contains(min),
            times@.take(i as int).contains(max),
            forall|j: int| 0 <= j < i ==> min <= #[trigger] times@[j] && times@[j] <= max,
            sum == seq_sum(times@.take(i as int)),
        decreases times.len() - i,
    {
        let t = times[i];
        proof {
            assert(times@.take(i + 1) == times@.take(i as int).push(t));
            lemma_sum_push(times@.take(i as int), t);
            lemma_sum_prefix(times@, i + 1);
        }
        if t > max {
            max = t;
        }
        if t < min {
            min = t;
        }
        sum = sum + t;
        proof {
            assert(times@.take(i + 1)[i as int] == t);
            assert(times@.take(i as int).contains(min) ==> times@.take(i + 1).contains(min)) by {
                if times@.take(i as int).contains(min) {
                    let k = choose|k: int| 0 <= k < i && times@.take(i as int)[k] == min;
                    assert(times@.take(i + 1)[k] == min);
                }
            }
            assert(times@.take(i as int).contains(max) ==> times@.take(i + 1).contains(max)) by {
                if times@.take(i as int).contains(max) {
                    let k = choose|k: int| 0 <= k < i && times@.take(i as int)[k] == max;
                    assert(times@.take(i + 1)[k] == max);
                }
            }
        }
        i = i + 1;
    }
    proof {
        assert(times@.take(i as int) == times@);
    }
    let avg = sum / (times.len() as u128);
    TimeStats { min, max, sum, avg }
}

/// The statistics of a series of times, where there are any.
fn side_stats(times: &Vec<u128>) -> (t: Option<TimeStats>)
    requires
        seq_sum(times@) <= MAX_DURATION_NANOS,
    ensures
        side_stats_of(times@, t),
{
    if times.len() == 0 {
        None
    } else {
        Some(time_stats(times))
    }
}

/// The timing statistics of the allocations and frees that were timed, or
/// `None` where none were.
pub fn benchmark_stats(alloc_times: &Vec<u128>, free_times: &Vec<u128>) -> (r: Option<BenchmarkStats>)
    requires
        seq_sum(alloc_times@) + seq_sum(free_times@) <= MAX_DURATION_NANOS,
    ensures
        r is None <==> alloc_times.len() == 0 && free_times.len() == 0,
        r matches Some(b) ==> {
            &&& side_stats_of(alloc_times@, b.alloc)
            &&& side_stats_of(free_times@, b.free)
            &&& stats_of(alloc_times@ + free_times@, b.overall)
        },
{
    if alloc_times.len() == 0 && free_times.len() == 0 {
        return None;
    }
    proof {
        lemma_sum_nonneg(alloc_times@);
        lemma_sum_nonneg(free_times@);
        lemma_sum_concat(alloc_times@, free_times@);
    }
    let alloc = side_stats(alloc_times);
    let free = side_stats(free_times);
    // all times, allocations first
    let mut all: Vec<u128> = Vec::new();
    for i in 0..alloc_times.len()
        invariant
            all@ == alloc_times@.take(i as int),
    {
        proof {
            assert(alloc_times@.take(i + 1) == alloc_times@.take(i as int).push(alloc_times@[i as int]));
        }
        all.push(alloc_times[i]);
    }
    proof {
        assert(alloc_times@.take(alloc_times.len() as int) == alloc_times@);
        assert(all@ == alloc_times@ + free_times@.take(0));
    }
    for i in 0..free_times.len()
        invariant
            all@ == alloc_times@ + free_times@.take(i as int),
    {
        proof {
            assert(free_times@.take(i + 1) == free_times@.take(i as int).push(free_times@[i as int]));
            assert(alloc_times@ + free_times@.take(i + 1) == (alloc_times@ + free_times@.take(i as int)).push(
                free_times@[i as int],
            ));
        }
        all.push(free_times[i]);
    }
    proof {
        assert(free_times@.take(free_times.len() as int) == free_times@);
    }
    let overall = time_stats(&all);
    Some(BenchmarkStats { alloc, free, overall })
}

/// The sum of two series one after the other.
proof fn lemma_sum_concat(a: Seq<u128>, b: Seq<u128>)
    ensures
        seq_sum(a + b) == seq_sum(a) + seq_sum(b),
    decreases b.len(),
{
    if b.len() == 0 {
        assert(a + b == a);
    } else {
        lemma_sum_concat(a, b.drop_last());
        assert((a + b).drop_last() == a + b.drop_last());
    }
}


/// A line is read by its first word alone: `quit`, `verbose`, `hierarchical`,
/// `benchmark` and `//` give their commands whatever follows them, `print`
/// gives a print command, `alloc` and `free` give their operation exactly
/// when an argument follows and otherwise ask for it, an empty line is empty,
/// and any other first word is invalid.
pub proof fn law_first_word_decides(ws: Seq<Seq<char>>)
    ensures
        ws.len() == 0 ==> command_of(ws) == Command::Empty,
        ws.len() > 0 && ws[0] == "quit"@ ==> command_of(ws) == Command::Quit,
        ws.len() > 0 && ws[0] == "verbose"@ ==> command_of(ws) == Command::ToggleVerbose,
        ws.len() > 0 && ws[0] == "hierarchical"@ ==> command_of(ws) == Command::ToggleHierarchical,
        ws.len() > 0 && ws[0] == "benchmark"@ ==> command_of(ws) == Command::ToggleBenchmark,
        ws.len() > 0 && ws[0] == "//"@ ==> command_of(ws) == Command::Comment,
        ws.len() > 0 && ws[0] == "print"@ ==> command_of(ws) is Print,
        ws.len() > 0 && ws[0] == "alloc"@ ==> (command_of(ws) == Command::Alloc <==> ws.len() >= 2),
        ws.len() > 0 && ws[0] == "alloc"@ ==> (command_of(ws) == Command::MissingArgument <==> ws.len() < 2),
        ws.len() > 0 && ws[0] == "free"@ ==> (command_of(ws) == Command::Free <==> ws.len() >= 2),
        ws.len() > 0 && ws[0] == "free"@ ==> (command_of(ws) == Command::MissingArgument <==> ws.len() < 2),
        ws.len() > 0 && ws[0] != "quit"@ && ws[0] != "verbose"@ && ws[0] != "hierarchical"@ && ws[0]
            != "benchmark"@ && ws[0] != "//"@ && ws[0] != "print"@ && ws[0] != "alloc"@ && ws[0]
            != "free"@ ==> command_of(ws) == Command::Invalid,
{
    reveal_strlit("quit");
    reveal_strlit("verbose");
    reveal_strlit("hierarchical");
    reveal_strlit("benchmark");
    reveal_strlit("//");
    reveal_strlit("print");
    reveal_strlit("alloc");
    reveal_strlit("free");
    let k: Seq<Seq<char>> = seq!["quit"@, "verbose"@, "hierarchical"@, "benchmark"@, "//"@, "print"@, "alloc"@, "free"@];
    assert forall|i: int, j: int| 0 <= i < j < k.len() implies k[i] != k[j] by {
        if k[i].len() == k[j].len() {
            assert(k[i][0] != k[j][0]);
        }
    }
}

/// A `print` line shows what its second word names: the commands alone
/// without one, usage and commands for `help`, physical pages for
/// `phys_pages` (only the free or the used ones where a third word says
/// `free` or `used`), virtual pages for `virt_pages`, both for `pages`, and
/// nothing for any other word.
pub proof fn law_print_targets(ws: Seq<Seq<char>>)
    requires
        ws.len() > 0,
        ws[0] == "print"@,
    ensures
        ws.len() == 1 ==> command_of(ws) == Command::Print(PrintTarget::Help),
        ws.len() >= 2 && ws[1] == "help"@ ==> command_of(ws) == Command::Print(PrintTarget::UsageAndHelp),
        ws.len() >= 3 && ws[1] == "phys_pages"@ && ws[2] == "free"@ ==> command_of(ws) == Command::Print(
            PrintTarget::FreePhysPages,
        ),
        ws.len() >= 3 && ws[1] == "phys_pages"@ && ws[2] == "used"@ ==> command_of(ws) == Command::Print(
            PrintTarget::UsedPhysPages,
        ),
        ws.len() >= 2 && ws[1] == "phys_pages"@ && !(ws.len() >= 3 && (ws[2] == "free"@ || ws[2] == "used"@))
            ==> command_of(ws) == Command::Print(PrintTarget::AllPhysPages),
        ws.len() >= 2 && ws[1] == "virt_pages"@ ==> command_of(ws) == Command::Print(PrintTarget::VirtPages),
        ws.len() >= 2 && ws[1] == "pages"@ ==> command_of(ws) == Command::Print(PrintTarget::Pages),
        ws.len() >= 2 && ws[1] != "help"@ && ws[1] != "phys_pages"@ && ws[1] != "virt_pages"@ && ws[1]
            != "pages"@ ==> command_of(ws) == Command::Print(PrintTarget::Nothing),
{
    law_first_word_decides(ws);
    reveal_strlit("print");
    reveal_strlit("help");
    reveal_strlit("phys_pages");
    reveal_strlit("virt_pages");
    reveal_strlit("pages");
    reveal_strlit("free");
    reveal_strlit("used");
    reveal_strlit("quit");
    reveal_strlit("verbose");
    reveal_strlit("hierarchical");
    reveal_strlit("benchmark");
    reveal_strlit("//");
    let k: Seq<Seq<char>> = seq!["help"@, "phys_pages"@, "virt_pages"@, "pages"@];
    assert forall|i: int, j: int| 0 <= i < j < k.len() implies k[i] != k[j] by {
        if k[i].len() == k[j].len() {
            assert(k[i][0] != k[j][0]);
        }
    }
    assert("free"@ != "used"@) by {
        assert("free"@[0] != "used"@[0]);
    }
    assert("print"@ != "quit"@ && "print"@ != "verbose"@ && "print"@ != "hierarchical"@ && "print"@
        != "benchmark"@ && "print"@ != "//"@) by {
        assert("print"@[0] != "quit"@[0]);
    }
}

/// Each toggle flips its own switch and keeps the others; every other command
/// keeps all switches; so a toggle given twice gives back the switches it
/// started from.
pub proof fn law_toggles_flip_one_switch(state: ServerState, cmd: Command)
    ensures
        cmd == Command::ToggleVerbose ==> state_after(state, cmd).verbose == !state.verbose
            && state_after(state, cmd).hierarchical == state.hierarchical
            && state_after(state, cmd).benchmark == state.benchmark,
        cmd == Command::ToggleHierarchical ==> state_after(state, cmd).hierarchical == !state.hierarchical
            && state_after(state, cmd).verbose == state.verbose
            && state_after(state, cmd).benchmark == state.benchmark,
        cmd == Command::ToggleBenchmark ==> state_after(state, cmd).benchmark == !state.benchmark
            && state_after(state, cmd).verbose == state.verbose
            && state_after(state, cmd).hierarchical == state.hierarchical,
        cmd != Command::ToggleVerbose && cmd != Command::ToggleHierarchical && cmd
            != Command::ToggleBenchmark ==> state_after(state, cmd) == state,
        state_after(state_after(state, cmd), cmd) == state,
{
}

/// After a toggle, in verbose mode, the server names the switch's new value,
/// and out of verbose mode it says nothing of hierarchical or benchmarking
/// mode; the verbose switch itself is always reported with its new value.
pub proof fn law_toggle_reports_new_value(before: ServerState, o: Outcome)
    ensures
        ({
            let s = state_after(before, Command::ToggleHierarchical);
            let ms = step_messages(s, Command::ToggleHierarchical, o);
            &&& ms.contains(Message::HierarchicalOn) <==> s.verbose && !before.hierarchical
            &&& ms.contains(Message::HierarchicalOff) <==> s.verbose && before.hierarchical
            &&& ms.len() == if s.verbose { 1int } else { 0int }
        }),
        ({
            let s = state_after(before, Command::ToggleBenchmark);
            let ms = step_messages(s, Command::ToggleBenchmark, o);
            &&& ms.contains(Message::BenchmarkOn) <==> s.verbose && !before.benchmark
            &&& ms.contains(Message::BenchmarkOff) <==> s.verbose && before.benchmark
            &&& ms.len() == if s.verbose { 1int } else { 0int }
        }),
        ({
            let s = state_after(before, Command::ToggleVerbose);
            let ms = step_messages(s, Command::ToggleVerbose, o);
            &&& ms.contains(Message::VerboseOn) <==> !before.verbose
            &&& ms.contains(Message::VerboseOff) <==> before.verbose
            &&& ms.len() == 1
        }),
{
    let o1 = o;
    lemma_messages_said(state_after(before, Command::ToggleHierarchical), Command::ToggleHierarchical, o1);
    lemma_messages_said(state_after(before, Command::ToggleBenchmark), Command::ToggleBenchmark, o1);
    lemma_messages_said(state_after(before, Command::ToggleVerbose), Command::ToggleVerbose, o1);
    let s1 = state_after(before, Command::ToggleHierarchical);
    assert(said(s1, Command::ToggleHierarchical, o1, Message::HierarchicalOn) == step_messages(s1, Command::ToggleHierarchical, o1).contains(Message::HierarchicalOn));
    assert(said(s1, Command::ToggleHierarchical, o1, Message::HierarchicalOff) == step_messages(s1, Command::ToggleHierarchical, o1).contains(Message::HierarchicalOff));
    let s2 = state_after(before, Command::ToggleBenchmark);
    assert(said(s2, Command::ToggleBenchmark, o1, Message::BenchmarkOn) == step_messages(s2, Command::ToggleBenchmark, o1).contains(Message::BenchmarkOn));
    assert(said(s2, Command::ToggleBenchmark, o1, Message::BenchmarkOff) == step_messages(s2, Command::ToggleBenchmark, o1).contains(Message::BenchmarkOff));
    let s3 = state_after(before, Command::ToggleVerbose);
    assert(said(s3, Command::ToggleVerbose, o1, Message::VerboseOn) == step_messages(s3, Command::ToggleVerbose, o1).contains(Message::VerboseOn));
    assert(said(s3, Command::ToggleVerbose, o1, Message::VerboseOff) == step_messages(s3, Command::ToggleVerbose, o1).contains(Message::VerboseOff));
}

/// In benchmark mode every allocation and free that goes through reports its
/// time, and nothing else ever does; such an operation's time always joins
/// the statistics, and no other command's does.
pub proof fn law_operations_report_time(s: ServerState, cmd: Command, o: Outcome)
    ensures
        step_messages(s, cmd, o).contains(Message::AllocTime) <==> cmd == Command::Alloc && o == Outcome::Done
            && s.benchmark,
        step_messages(s, cmd, o).contains(Message::FreeTime) <==> cmd == Command::Free && !(o is Stop)
            && s.benchmark,
        step_records_time(cmd, o) <==> (cmd == Command::Alloc && o == Outcome::Done) || (cmd == Command::Free
            && !(o is Stop)),
{
    lemma_messages_said(s, cmd, o);
    assert(said(s, cmd, o, Message::AllocTime) == step_messages(s, cmd, o).contains(Message::AllocTime));
    assert(said(s, cmd, o, Message::FreeTime) == step_messages(s, cmd, o).contains(Message::FreeTime));
}

/// What each command with each outcome says, message by message, and what
/// the server does next.
pub proof fn law_step_messages(s: ServerState, cmd: Command, o: Outcome)
    ensures
        step_messages(s, cmd, o).contains(Message::Allocated) <==> cmd == Command::Alloc && o == Outcome::Done
            && s.verbose,
        step_messages(s, cmd, o).contains(Message::AllocFailed) <==> cmd == Command::Alloc && o != Outcome::Done
            && s.verbose,
        step_messages(s, cmd, o).contains(Message::NotEnoughRoom) <==> cmd == Command::Alloc && o
            == Outcome::OutOfMemory,
        step_messages(s, cmd, o).contains(Message::Freed) <==> cmd == Command::Free && !(o is Stop) && s.verbose,
        step_messages(s, cmd, o).contains(Message::FreeFailed) <==> cmd == Command::Free && o is Stop && s.verbose,
        step_messages(s, cmd, o).contains(Message::ExitingProgram) <==> cmd == Command::Quit && s.verbose,
        step_messages(s, cmd, o).contains(Message::PrintingBenchmarks) <==> cmd == Command::Quit && s.benchmark,
        step_messages(s, cmd, o).contains(Message::VerboseOn) <==> cmd == Command::ToggleVerbose && s.verbose,
        step_messages(s, cmd, o).contains(Message::VerboseOff) <==> cmd == Command::ToggleVerbose && !s.verbose,
        step_messages(s, cmd, o).contains(Message::HierarchicalOn) <==> cmd == Command::ToggleHierarchical
            && s.verbose && s.hierarchical,
        step_messages(s, cmd, o).contains(Message::HierarchicalOff) <==> cmd == Command::ToggleHierarchical
            && s.verbose && !s.hierarchical,
        step_messages(s, cmd, o).contains(Message::BenchmarkOn) <==> cmd == Command::ToggleBenchmark
            && s.verbose && s.benchmark,
        step_messages(s, cmd, o).contains(Message::BenchmarkOff) <==> cmd == Command::ToggleBenchmark
            && s.verbose && !s.benchmark,
        step_messages(s, cmd, o).contains(Message::MissingArgument) <==> cmd == Command::MissingArgument
            && s.verbose,
        step_messages(s, cmd, o).contains(Message::InvalidInput) <==> cmd == Command::Invalid && s.verbose,
        step_messages(s, cmd, o).contains(Message::Help) <==> cmd == Command::Invalid,
        forall|t: PrintTarget| #[trigger] step_messages(s, cmd, o).contains(Message::Show(t)) <==> cmd
            == Command::Print(t),
        step_next(cmd, o) == Next::Quit <==> cmd == Command::Quit,
        step_next(cmd, o) == Next::NextLine <==> cmd == Command::Empty || (cmd == Command::Alloc && o
            == Outcome::OutOfMemory),
        forall|e: u8| #[trigger] step_next(cmd, o) == Next::Fail(e) <==> (cmd == Command::Alloc || cmd
            == Command::Free) && o == Outcome::Stop(e),
{
    lemma_messages_said(s, cmd, o);
    let ms = step_messages(s, cmd, o);
    assert(said(s, cmd, o, Message::Allocated) == ms.contains(Message::Allocated));
    assert(said(s, cmd, o, Message::AllocFailed) == ms.contains(Message::AllocFailed));
    assert(said(s, cmd, o, Message::NotEnoughRoom) == ms.contains(Message::NotEnoughRoom));
    assert(said(s, cmd, o, Message::Freed) == ms.contains(Message::Freed));
    assert(said(s, cmd, o, Message::FreeFailed) == ms.contains(Message::FreeFailed));
    assert(said(s, cmd, o, Message::ExitingProgram) == ms.contains(Message::ExitingProgram));
    assert(said(s, cmd, o, Message::PrintingBenchmarks) == ms.contains(Message::PrintingBenchmarks));
    assert(said(s, cmd, o, Message::VerboseOn) == ms.contains(Message::VerboseOn));
    assert(said(s, cmd, o, Message::VerboseOff) == ms.contains(Message::VerboseOff));
    assert(said(s, cmd, o, Message::HierarchicalOn) == ms.contains(Message::HierarchicalOn));
    assert(said(s, cmd, o, Message::HierarchicalOff) == ms.contains(Message::HierarchicalOff));
    assert(said(s, cmd, o, Message::BenchmarkOn) == ms.contains(Message::BenchmarkOn));
    assert(said(s, cmd, o, Message::BenchmarkOff) == ms.contains(Message::BenchmarkOff));
    assert(said(s, cmd, o, Message::MissingArgument) == ms.contains(Message::MissingArgument));
    assert(said(s, cmd, o, Message::InvalidInput) == ms.contains(Message::InvalidInput));
    assert(said(s, cmd, o, Message::Help) == ms.contains(Message::Help));
    assert forall|t: PrintTarget| #[trigger] ms.contains(Message::Show(t)) <==> cmd == Command::Print(t) by {
        assert(said(s, cmd, o, Message::Show(t)) == ms.contains(Message::Show(t)));
    }
}

/// Whether the server says `m` after the command `cmd` with outcome `o` and
/// switches `s`, message by message.
spec fn said(s: ServerState, cmd: Command, o: Outcome, m: Message) -> bool {
    match m {
        Message::ExitingProgram => cmd == Command::Quit && s.verbose,
        Message::PrintingBenchmarks => cmd == Command::Quit && s.benchmark,
        Message::VerboseOn => cmd == Command::ToggleVerbose && s.verbose,
        Message::VerboseOff => cmd == Command::ToggleVerbose && !s.verbose,
        Message::HierarchicalOn => cmd == Command::ToggleHierarchical && s.verbose && s.hierarchical,
        Message::HierarchicalOff => cmd == Command::ToggleHierarchical && s.verbose && !s.hierarchical,
        Message::BenchmarkOn => cmd == Command::ToggleBenchmark && s.verbose && s.benchmark,
        Message::BenchmarkOff => cmd == Command::ToggleBenchmark && s.verbose && !s.benchmark,
        Message::Show(t) => cmd == Command::Print(t),
        Message::Allocated => cmd == Command::Alloc && o == Outcome::Done && s.verbose,
        Message::AllocFailed => cmd == Command::Alloc && o != Outcome::Done && s.verbose,
        Message::NotEnoughRoom => cmd == Command::Alloc && o == Outcome::OutOfMemory,
        Message::AllocTime => cmd == Command::Alloc && o == Outcome::Done && s.benchmark,
        Message::Freed => cmd == Command::Free && !(o is Stop) && s.verbose,
        Message::FreeFailed => cmd == Command::Free && o is Stop && s.verbose,
        Message::FreeTime => cmd == Command::Free && !(o is Stop) && s.benchmark,
        Message::MissingArgument => cmd == Command::MissingArgument && s.verbose,
        Message::InvalidInput => cmd == Command::Invalid && s.verbose,
        Message::Help => cmd == Command::Invalid,
    }
}

/// A message is in two messages one after the other where it is in either.
proof fn lemma_cat_contains(a: Seq<Message>, b: Seq<Message>)
    ensures
        forall|m: Message| #[trigger] (a + b).contains(m) <==> a.contains(m) || b.contains(m),
{
    assert forall|m: Message| #[trigger] (a + b).contains(m) <==> a.contains(m) || b.contains(m) by {
        if (a + b).contains(m) {
            let i = choose|i: int| 0 <= i < (a + b).len() && (a + b)[i] == m;
            if i < a.len() {
                assert(a[i] == m);
            } else {
                assert(b[i - a.len()] == m);
            }
        }
        if a.contains(m) {
            let i = choose|i: int| 0 <= i < a.len() && a[i] == m;
            assert((a + b)[i] == m);
        }
        if b.contains(m) {
            let i = choose|i: int| 0 <= i < b.len() && b[i] == m;
            assert((a + b)[a.len() + i] == m);
        }
    }
}

/// The messages of a single message.
proof fn lemma_one_contains(x: Message)
    ensures
        forall|m: Message| #[trigger] seq![x].contains(m) <==> m == x,
{
    assert(seq![x][0] == x);
    assert forall|m: Message| #[trigger] seq![x].contains(m) implies m == x by {
        let i = choose|i: int| 0 <= i < seq![x].len() && seq![x][i] == m;
    }
}

/// Each message is said exactly when `said` has it.
proof fn lemma_messages_said(s: ServerState, cmd: Command, o: Outcome)
    ensures
        forall|m: Message| #[trigger] step_messages(s, cmd, o).contains(m) <==> said(s, cmd, o, m),
{
    assert forall|x: Message, m: Message| #[trigger] if_verbose(s, x).contains(m) <==> s.verbose && m == x by {
        lemma_one_contains(x);
    }
    assert forall|x: Message, m: Message| #[trigger] if_benchmark(s, x).contains(m) <==> s.benchmark && m == x by {
        lemma_one_contains(x);
    }
    assert forall|x: Message, m: Message| #[trigger] seq![x].contains(m) <==> m == x by {
        lemma_one_contains(x);
    }
    match cmd {
        Command::Quit => {
            lemma_cat_contains(if_verbose(s, Message::ExitingProgram), if_benchmark(s, Message::PrintingBenchmarks));
        },
        Command::Alloc => {
            lemma_cat_contains(if_verbose(s, Message::Allocated), if_benchmark(s, Message::AllocTime));
            lemma_cat_contains(if_verbose(s, Message::AllocFailed), seq![Message::NotEnoughRoom]);
        },
        Command::Free => {
            lemma_cat_contains(if_verbose(s, Message::Freed), if_benchmark(s, Message::FreeTime));
        },
        Command::Invalid => {
            lemma_cat_contains(if_verbose(s, Message::InvalidInput), seq![Message::Help]);
        },
        _ => {},
    }
}

} // verus!
