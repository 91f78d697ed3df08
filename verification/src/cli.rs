//! The simulator's command line.

use vstd::prelude::*;

verus! {

/// Where the fair value of the replayed product comes from.
#[derive(Clone, Copy, Debug, PartialEq, Eq, Structural)]
pub enum FvMode {
    Replay,
    Simulate,
}

/// Where the times of the taker trades come from.
#[derive(Clone, Copy, Debug, PartialEq, Eq, Structural)]
pub enum TradeMode {
    ReplayTimes,
    Simulate,
}

/// The options given on the command line. Paths are kept as given; the
/// DRO radius is kept as its text, which is known to read as a number.
#[derive(Clone, Debug)]
pub struct CliOptions {
    pub output_dir: String,
    pub actual_dir: String,
    pub fv_mode: FvMode,
    pub trade_mode: TradeMode,
    pub seed: u64,
    pub strategy_path: Option<String>,
    pub python_bin: String,
    pub sessions: usize,
    pub write_session_limit: usize,
    pub ticks_per_day: usize,
    pub config_path: Option<String>,
    pub fixed_params: bool,
    pub dro: bool,
    pub dro_radius: Option<String>,
    pub dro_k: usize,
}

/// Why the command line was refused.
#[derive(Clone, Debug)]
pub enum CliError {
    /// The flag needs a value and the command line ends after it.
    MissingValue(String),
    /// The flag's value is not one of its known words.
    Unsupported { flag: String, value: String },
    /// The flag's value does not parse as a number.
    Invalid(String),
    /// The argument is no known flag.
    UnknownArgument(String),
}

/// The options, with their strings as character sequences.
pub ghost struct CliView {
    pub output_dir: Seq<char>,
    pub actual_dir: Seq<char>,
    pub fv_mode: FvMode,
    pub trade_mode: TradeMode,
    pub seed: u64,
    pub strategy_path: Option<Seq<char>>,
    pub python_bin: Seq<char>,
    pub sessions: usize,
    pub write_session_limit: usize,
    pub ticks_per_day: usize,
    pub config_path: Option<Seq<char>>,
    pub fixed_params: bool,
    pub dro: bool,
    pub dro_radius: Option<Seq<char>>,
    pub dro_k: usize,
}

/// The refusal, with its strings as character sequences.
pub ghost enum CliErrorView {
    MissingValue(Seq<char>),
    Unsupported { flag: Seq<char>, value: Seq<char> },
    Invalid(Seq<char>),
    UnknownArgument(Seq<char>),
}

pub open spec fn opt_view(o: Option<String>) -> Option<Seq<char>> {
    match o {
        Some(s) => Some(s@),
        None => None,
    }
}

impl View for CliOptions {
    type V = CliView;

    open spec fn view(&self) -> CliView {
        CliView {
            output_dir: self.output_dir@,
            actual_dir: self.actual_dir@,
            fv_mode: self.fv_mode,
            trade_mode: self.trade_mode,
            seed: self.seed,
            strategy_path: opt_view(self.strategy_path),
            python_bin: self.python_bin@,
            sessions: self.sessions,
            write_session_limit: self.write_session_limit,
            ticks_per_day: self.ticks_per_day,
            config_path: opt_view(self.config_path),
            fixed_params: self.fixed_params,
            dro: self.dro,
            dro_radius: opt_view(self.dro_radius),
            dro_k: self.dro_k,
        }
    }
}

impl View for CliError {
    type V = CliErrorView;

    open spec fn view(&self) -> CliErrorView {
        match self {
            CliError::MissingValue(f) => CliErrorView::MissingValue(f@),
            CliError::Unsupported { flag, value } => CliErrorView::Unsupported {
                flag: flag@,
                value: value@,
            },
            CliError::Invalid(f) => CliErrorView::Invalid(f@),
            CliError::UnknownArgument(a) => CliErrorView::UnknownArgument(a@),
        }
    }
}

/// The characters are all decimal digits.
pub open spec fn all_digits(s: Seq<char>) -> bool {
    forall|i: int| 0 <= i < s.len() ==> '0' <= #[trigger] s[i] <= '9'
}

/// The value of a string of decimal digits.
pub open spec fn digits_value(s: Seq<char>) -> int
    decreases s.len(),
{
    if s.len() == 0 {
        0
    } else {
        digits_value(s.drop_last()) * 10 + (s.last() as int - '0' as int)
    }
}

/// The value of an unsigned decimal text as the standard library reads it:
/// an optional `+` followed by at least one decimal digit and nothing else.
pub open spec fn unsigned_decimal(s: Seq<char>) -> Option<int> {
    let d = if s.len() > 0 && s[0] == '+' {
        s.drop_first()
    } else {
        s
    };
    if d.len() > 0 && all_digits(d) {
        Some(digits_value(d))
    } else {
        None
    }
}

/// What `str::parse::<u64>` gives for the text (`None` for an error): the
/// decimal value, where it fits.
pub open spec fn parsed_u64(s: Seq<char>) -> Option<u64> {
    match unsigned_decimal(s) {
        Some(v) => if v <= u64::MAX {
            Some(v as u64)
        } else {
            None
        },
        None => None,
    }
}

/// What `str::parse::<usize>` gives for the text (`None` for an error): the
/// decimal value, where it fits.
pub open spec fn parsed_usize(s: Seq<char>) -> Option<usize> {
    match unsigned_decimal(s) {
        Some(v) => if v <= usize::MAX {
            Some(v as usize)
        } else {
            None
        },
        None => None,
    }
}

/// `str::parse::<u64>`, with its error dropped. Its documentation: the text
/// is an optional `+` followed by digits only, and a value too large for the
/// type is an error.
#[verifier::external_body]
fn parse_u64(s: &str) -> (r: Option<u64>)
    ensures
        r == parsed_u64(s@),
{
    s.parse::<u64>().ok()
}

/// `str::parse::<usize>`, with its error dropped; read as for `u64`, with
/// `usize`'s bound.
#[verifier::external_body]
fn parse_usize(s: &str) -> (r: Option<usize>)
    ensures
        r == parsed_usize(s@),
{
    s.parse::<usize>().ok()
}

/// How the standard library reads one argument as a number: as a `u64`,
/// as a `usize`, and whether it reads as a float.
#[derive(Clone, Copy, Debug, PartialEq, Eq, Structural)]
pub struct NumberReading {
    pub as_u64: Option<u64>,
    pub as_usize: Option<usize>,
    pub as_float: bool,
}

/// The readings of the arguments, given whether each reads as a float.
pub open spec fn readings_of(args: Seq<Seq<char>>, floats: Seq<bool>) -> Seq<NumberReading> {
    Seq::new(
        args.len(),
        |i: int|
            NumberReading {
                as_u64: parsed_u64(args[i]),
                as_usize: parsed_usize(args[i]),
                as_float: floats[i],
            },
    )
}

/// The options when no flag is given.
pub open spec fn default_view() -> CliView {
    CliView {
        output_dir: "../tmp/rust_simulator_output"@,
        actual_dir: "../data/round0"@,
        fv_mode: FvMode::Replay,
        trade_mode: TradeMode::ReplayTimes,
        seed: 20_260_401,
        strategy_path: None,
        python_bin: "python3"@,
        sessions: 1,
        write_session_limit: 0,
        ticks_per_day: 10_000,
        config_path: None,
        fixed_params: false,
        dro: false,
        dro_radius: None,
        dro_k: 8,
    }
}

/// A flag that takes the following argument as its value.
pub open spec fn takes_value(a: Seq<char>) -> bool {
    ||| a == "--output"@
    ||| a == "--actual-dir"@
    ||| a == "--fv-mode"@
    ||| a == "--trade-mode"@
    ||| a == "--tomato-support"@
    ||| a == "--seed"@
    ||| a == "--strategy"@
    ||| a == "--python-bin"@
    ||| a == "--sessions"@
    ||| a == "--write-session-limit"@
    ||| a == "--ticks-per-day"@
    ||| a == "--config"@
    ||| a == "--dro-radius"@
    ||| a == "--dro-k"@
}

/// A count flag's value, or the flag's `Invalid` error.
pub open spec fn count_value(flag: Seq<char>, reading: NumberReading) -> Result<usize, CliErrorView> {
    match reading.as_usize {
        Some(n) => Ok(n),
        None => Err(CliErrorView::Invalid(flag)),
    }
}

/// The options after `flag` was given the value `v`, which reads as a
/// number as `reading` says.
pub open spec fn with_value(o: CliView, flag: Seq<char>, v: Seq<char>, reading: NumberReading) -> Result<
    CliView,
    CliErrorView,
> {
    if flag == "--output"@ {
        Ok(CliView { output_dir: v, ..o })
    } else if flag == "--actual-dir"@ {
        Ok(CliView { actual_dir: v, ..o })
    } else if flag == "--fv-mode"@ {
        if v == "replay"@ {
            Ok(CliView { fv_mode: FvMode::Replay, ..o })
        } else if v == "simulate"@ {
            Ok(CliView { fv_mode: FvMode::Simulate, ..o })
        } else {
            Err(CliErrorView::Unsupported { flag, value: v })
        }
    } else if flag == "--trade-mode"@ {
        if v == "replay-times"@ {
            Ok(CliView { trade_mode: TradeMode::ReplayTimes, ..o })
        } else if v == "simulate"@ {
            Ok(CliView { trade_mode: TradeMode::Simulate, ..o })
        } else {
            Err(CliErrorView::Unsupported { flag, value: v })
        }
    } else if flag == "--tomato-support"@ {
        Ok(o)
    } else if flag == "--seed"@ {
        match reading.as_u64 {
            Some(n) => Ok(CliView { seed: n, ..o }),
            None => Err(CliErrorView::Invalid(flag)),
        }
    } else if flag == "--strategy"@ {
        Ok(CliView { strategy_path: Some(v), ..o })
    } else if flag == "--python-bin"@ {
        Ok(CliView { python_bin: v, ..o })
    } else if flag == "--sessions"@ {
        match count_value(flag, reading) {
            Ok(n) => Ok(CliView { sessions: n, ..o }),
            Err(e) => Err(e),
        }
    } else if flag == "--write-session-limit"@ {
        match count_value(flag, reading) {
            Ok(n) => Ok(CliView { write_session_limit: n, ..o }),
            Err(e) => Err(e),
        }
    } else if flag == "--ticks-per-day"@ {
        match count_value(flag, reading) {
            Ok(n) => Ok(CliView { ticks_per_day: n, ..o }),
            Err(e) => Err(e),
        }
    } else if flag == "--config"@ {
        Ok(CliView { config_path: Some(v), ..o })
    } else if flag == "--dro-radius"@ {
        if reading.as_float {
            Ok(CliView { dro_radius: Some(v), ..o })
        } else {
            Err(CliErrorView::Invalid(flag))
        }
    } else {
        match count_value(flag, reading) {
            Ok(n) => Ok(CliView { dro_k: n, ..o }),
            Err(e) => Err(e),
        }
    }
}

/// The command line read from the front: switches set their option, a
/// valued flag consumes the next argument, and the first refused argument
/// ends the reading with its error. `readings[i]` says how `args[i]` reads
/// as a number.
pub open spec fn parse_from(args: Seq<Seq<char>>, readings: Seq<NumberReading>, o: CliView) -> Result<
    CliView,
    CliErrorView,
>
    decreases args.len(),
{
    if args.len() == 0 {
        Ok(o)
    } else {
        let a = args[0];
        if a == "--fixed-params"@ {
            parse_from(args.drop_first(), readings.drop_first(), CliView { fixed_params: true, ..o })
        } else if a == "--dro"@ {
            parse_from(args.drop_first(), readings.drop_first(), CliView { dro: true, ..o })
        } else if takes_value(a) {
            if args.len() < 2 {
                Err(CliErrorView::MissingValue(a))
            } else {
                match with_value(o, a, args[1], readings[1]) {
                    Ok(next) => parse_from(args.skip(2), readings.skip(2), next),
                    Err(e) => Err(e),
                }
            }
        } else {
            Err(CliErrorView::UnknownArgument(a))
        }
    }
}

/// Law: reading goes on where it left off. When the arguments read to
/// completion, reading them followed by more arguments reads the rest from
/// the options they gave.
pub proof fn law_parse_continues(
    args: Seq<Seq<char>>,
    readings: Seq<NumberReading>,
    o: CliView,
    tail: Seq<Seq<char>>,
    tail_readings: Seq<NumberReading>,
)
    requires
        readings.len() == args.len(),
        parse_from(args, readings, o) is Ok,
    ensures
        parse_from(args + tail, readings + tail_readings, o) == parse_from(
            tail,
            tail_readings,
            parse_from(args, readings, o)->Ok_0,
        ),
    decreases args.len(),
{
    if args.len() == 0 {
        assert(args + tail =~= tail);
        assert(readings + tail_readings =~= tail_readings);
    } else {
        let a = args[0];
        let all = args + tail;
        let all_r = readings + tail_readings;
        assert(all[0] == a);
        if a == "--fixed-params"@ || a == "--dro"@ {
            assert(all.drop_first() =~= args.drop_first() + tail);
            assert(all_r.drop_first() =~= readings.drop_first() + tail_readings);
            let next = if a == "--fixed-params"@ {
                CliView { fixed_params: true, ..o }
            } else {
                CliView { dro: true, ..o }
            };
            law_parse_continues(args.drop_first(), readings.drop_first(), next, tail, tail_readings);
        } else {
            assert(takes_value(a) && args.len() >= 2);
            assert(all[1] == args[1]);
            assert(all_r[1] == readings[1]);
            assert(all.skip(2) =~= args.skip(2) + tail);
            assert(all_r.skip(2) =~= readings.skip(2) + tail_readings);
            let next = with_value(o, a, args[1], readings[1])->Ok_0;
            law_parse_continues(args.skip(2), readings.skip(2), next, tail, tail_readings);
        }
    }
}

/// Law: a switch given last sets its own option and changes nothing else:
/// after arguments that read to options `v`, `--fixed-params` gives `v`
/// with `fixed_params` set, and `--dro` gives `v` with `dro` set.
pub proof fn law_switch_sets_only_its_option(
    args: Seq<Seq<char>>,
    readings: Seq<NumberReading>,
    o: CliView,
    r: NumberReading,
)
    requires
        readings.len() == args.len(),
        parse_from(args, readings, o) is Ok,
    ensures
        parse_from(args.push("--fixed-params"@), readings.push(r), o) == Ok::<CliView, CliErrorView>(
            CliView { fixed_params: true, ..parse_from(args, readings, o)->Ok_0 },
        ),
        parse_from(args.push("--dro"@), readings.push(r), o) == Ok::<CliView, CliErrorView>(
            CliView { dro: true, ..parse_from(args, readings, o)->Ok_0 },
        ),
{
    let v = parse_from(args, readings, o)->Ok_0;
    let fixed = seq!["--fixed-params"@];
    let dro = seq!["--dro"@];
    let rs = seq![r];
    law_parse_continues(args, readings, o, fixed, rs);
    law_parse_continues(args, readings, o, dro, rs);
    assert(args.push("--fixed-params"@) =~= args + fixed);
    assert(args.push("--dro"@) =~= args + dro);
    assert(readings.push(r) =~= readings + rs);
    assert(fixed[0] == "--fixed-params"@);
    assert(dro[0] == "--dro"@);
    assert(fixed.drop_first() =~= Seq::<Seq<char>>::empty());
    assert(dro.drop_first() =~= Seq::<Seq<char>>::empty());
    assert(rs.drop_first() =~= Seq::<NumberReading>::empty());
    assert("--dro"@ != "--fixed-params"@) by {
        reveal_strlit("--dro");
        reveal_strlit("--fixed-params");
        assert("--dro"@.len() != "--fixed-params"@.len());
    }
    assert(parse_from(fixed, rs, v) == parse_from(
        Seq::<Seq<char>>::empty(),
        Seq::<NumberReading>::empty(),
        CliView { fixed_params: true, ..v },
    ));
    assert(parse_from(dro, rs, v) == parse_from(
        Seq::<Seq<char>>::empty(),
        Seq::<NumberReading>::empty(),
        CliView { dro: true, ..v },
    ));
}

/// Law: the switches are set only by their own flags: options that read to
/// completion have `dro` (`fixed_params`) set only where it was set before
/// or `--dro` (`--fixed-params`) is among the arguments.
pub proof fn law_switch_only_from_its_flag(
    args: Seq<Seq<char>>,
    readings: Seq<NumberReading>,
    o: CliView,
)
    requires
        readings.len() == args.len(),
    ensures
        parse_from(args, readings, o) matches Ok(v) ==> (v.dro ==> o.dro || args.contains(
            "--dro"@,
        )) && (v.fixed_params ==> o.fixed_params || args.contains("--fixed-params"@)),
    decreases args.len(),
{
    if args.len() > 0 {
        let a = args[0];
        if a == "--fixed-params"@ || a == "--dro"@ {
            let next = if a == "--fixed-params"@ {
                CliView { fixed_params: true, ..o }
            } else {
                CliView { dro: true, ..o }
            };
            law_switch_only_from_its_flag(args.drop_first(), readings.drop_first(), next);
            assert(args[0] == a);
            assert forall|x: Seq<char>| args.drop_first().contains(x) implies args.contains(x) by {
                let k = choose|k: int| 0 <= k < args.drop_first().len() && args.drop_first()[k] == x;
                assert(args[k + 1] == x);
            }
        } else if takes_value(a) && args.len() >= 2 {
            if let Ok(next) = with_value(o, a, args[1], readings[1]) {
                assert(next.dro == o.dro && next.fixed_params == o.fixed_params);
                law_switch_only_from_its_flag(args.skip(2), readings.skip(2), next);
                assert forall|x: Seq<char>| args.skip(2).contains(x) implies args.contains(x) by {
                    let k = choose|k: int| 0 <= k < args.skip(2).len() && args.skip(2)[k] == x;
                    assert(args[k + 2] == x);
                }
            }
        }
    }
}

/// The arguments as character sequences.
pub open spec fn args_view(args: Seq<String>) -> Seq<Seq<char>> {
    Seq::new(args.len(), |i: int| args[i]@)
}

/// The argument equals the literal.
fn is_flag(arg: &String, lit: &str) -> (b: bool)
    ensures
        b == (arg@ == lit@),
{
    *arg == lit.to_owned()
}

fn default_options() -> (o: CliOptions)
    ensures
        o@ == default_view(),
{
    CliOptions {
        output_dir: "../tmp/rust_simulator_output".to_owned(),
        actual_dir: "../data/round0".to_owned(),
        fv_mode: FvMode::Replay,
        trade_mode: TradeMode::ReplayTimes,
        seed: 20_260_401,
        strategy_path: None,
        python_bin: "python3".to_owned(),
        sessions: 1,
        write_session_limit: 0,
        ticks_per_day: 10_000,
        config_path: None,
        fixed_params: false,
        dro: false,
        dro_radius: None,
        dro_k: 8,
    }
}

fn parse_count(flag: &String, reading: NumberReading) -> (r: Result<usize, CliError>)
    ensures
        match (r, count_value(flag@, reading)) {
            (Ok(n), Ok(m)) => n == m,
            (Err(e), Err(f)) => e@ == f,
            _ => false,
        },
{
    match reading.as_usize {
        Some(n) => Ok(n),
        None => Err(CliError::Invalid(flag.clone())),
    }
}

/// Gives `flag` the value `v` (see `with_value`).
fn apply_value(o: &mut CliOptions, flag: &String, v: &String, reading: NumberReading) -> (r: Result<
    (),
    CliError,
>)
    requires
        takes_value(flag@),
    ensures
        match (r, with_value(old(o)@, flag@, v@, reading)) {
            (Ok(()), Ok(next)) => final(o)@ == next,
            (Err(e), Err(f)) => e@ == f,
            _ => false,
        },
{
    if is_flag(flag, "--output") {
        o.output_dir = v.clone();
    } else if is_flag(flag, "--actual-dir") {
        o.actual_dir = v.clone();
    } else if is_flag(flag, "--fv-mode") {
        if is_flag(v, "replay") {
            o.fv_mode = FvMode::Replay;
        } else if is_flag(v, "simulate") {
            o.fv_mode = FvMode::Simulate;
        } else {
            return Err(CliError::Unsupported { flag: flag.clone(), value: v.clone() });
        }
    } else if is_flag(flag, "--trade-mode") {
        if is_flag(v, "replay-times") {
            o.trade_mode = TradeMode::ReplayTimes;
        } else if is_flag(v, "simulate") {
            o.trade_mode = TradeMode::Simulate;
        } else {
            return Err(CliError::Unsupported { flag: flag.clone(), value: v.clone() });
        }
    } else if is_flag(flag, "--tomato-support") {
    } else if is_flag(flag, "--seed") {
        match reading.as_u64 {
            Some(n) => {
                o.seed = n;
            },
            None => {
                return Err(CliError::Invalid(flag.clone()));
            },
        }
    } else if is_flag(flag, "--strategy") {
        o.strategy_path = Some(v.clone());
    } else if is_flag(flag, "--python-bin") {
        o.python_bin = v.clone();
    } else if is_flag(flag, "--sessions") {
        o.sessions = parse_count(flag, reading)?;
    } else if is_flag(flag, "--write-session-limit") {
        o.write_session_limit = parse_count(flag, reading)?;
    } else if is_flag(flag, "--ticks-per-day") {
        o.ticks_per_day = parse_count(flag, reading)?;
    } else if is_flag(flag, "--config") {
        o.config_path = Some(v.clone());
    } else if is_flag(flag, "--dro-radius") {
        if reading.as_float {
            o.dro_radius = Some(v.clone());
        } else {
            return Err(CliError::Invalid(flag.clone()));
        }
    } else {
        o.dro_k = parse_count(flag, reading)?;
    }
    Ok(())
}

/// The argument is a flag that takes a value.
fn needs_value(a: &String) -> (b: bool)
    ensures
        b == takes_value(a@),
{
    is_flag(a, "--output") || is_flag(a, "--actual-dir") || is_flag(a, "--fv-mode") || is_flag(
        a,
        "--trade-mode",
    ) || is_flag(a, "--tomato-support") || is_flag(a, "--seed") || is_flag(a, "--strategy")
        || is_flag(a, "--python-bin") || is_flag(a, "--sessions") || is_flag(
        a,
        "--write-session-limit",
    ) || is_flag(a, "--ticks-per-day") || is_flag(a, "--config") || is_flag(a, "--dro-radius")
        || is_flag(a, "--dro-k")
}

/// Reads the command line (the arguments after the program's name), given
/// how each argument reads as a number: see `parse_from`, starting from
/// `default_view`.
pub fn parse_args_with_readings(args: &Vec<String>, readings: &Vec<NumberReading>) -> (r: Result<
    CliOptions,
    CliError,
>)
    requires
        readings.len() == args.len(),
    ensures
        match (r, parse_from(args_view(args@), readings@, default_view())) {
            (Ok(o), Ok(v)) => o@ == v,
            (Err(e), Err(f)) => e@ == f,
            _ => false,
        },
{
    let mut o = default_options();
    let mut i: usize = 0;
    proof {
        assert(args_view(args@).skip(0) =~= args_view(args@));
        assert(readings@.skip(0) =~= readings@);
    }
    while i < args.len()
        invariant
            i <= args.len(),
            readings.len() == args.len(),
            parse_from(args_view(args@), readings@, default_view()) == parse_from(
                args_view(args@).skip(i as int),
                readings@.skip(i as int),
                o@,
            ),
        decreases args.len() - i,
    {
        let ghost rest = args_view(args@).skip(i as int);
        let a = &args[i];
        proof {
            assert(rest[0] == a@);
            assert(rest.drop_first() =~= args_view(args@).skip(i + 1));
            assert(readings@.skip(i as int).drop_first() =~= readings@.skip(i + 1));
        }
        if is_flag(a, "--fixed-params") {
            o.fixed_params = true;
            i = i + 1;
        } else if is_flag(a, "--dro") {
            o.dro = true;
            i = i + 1;
        } else if needs_value(a) {
            if i + 1 >= args.len() {
                return Err(CliError::MissingValue(a.clone()));
            }
            let v = &args[i + 1];
            proof {
                assert(rest[1] == v@);
                assert(rest.skip(2) =~= args_view(args@).skip(i + 2));
                assert(readings@.skip(i as int).skip(2) =~= readings@.skip(i + 2));
                assert(readings@.skip(i as int)[1] == readings@[i + 1]);
            }
            let applied = apply_value(&mut o, a, v, readings[i + 1]);
            match applied {
                Ok(()) => {},
                Err(e) => {
                    return Err(e);
                },
            }
            i = i + 2;
        } else {
            return Err(CliError::UnknownArgument(a.clone()));
        }
    }
    Ok(o)
}

/// Reads the command line (the arguments after the program's name).
/// `floats[i]` tells whether `args[i]` parses as a float; the integer
/// readings are `str::parse`'s (see `parse_args_with_readings`).
pub fn parse_args(args: &Vec<String>, floats: &Vec<bool>) -> (r: Result<CliOptions, CliError>)
    requires
        floats.len() == args.len(),
    ensures
        match (r, parse_from(args_view(args@), readings_of(args_view(args@), floats@), default_view())) {
            (Ok(o), Ok(v)) => o@ == v,
            (Err(e), Err(f)) => e@ == f,
            _ => false,
        },
{
    let mut readings: Vec<NumberReading> = Vec::new();
    let mut i: usize = 0;
    while i < args.len()
        invariant
            i <= args.len(),
            floats.len() == args.len(),
            readings@.len() == i,
            forall|k: int|
                0 <= k < i ==> #[trigger] readings@[k] == readings_of(args_view(args@), floats@)[k],
        decreases args.len() - i,
    {
        let text = args[i].as_str();
        readings.push(
            NumberReading {
                as_u64: parse_u64(text),
                as_usize: parse_usize(text),
                as_float: floats[i],
            },
        );
        i = i + 1;
    }
    assert(readings@ =~= readings_of(args_view(args@), floats@));
    parse_args_with_readings(args, &readings)
}

} // verus!
