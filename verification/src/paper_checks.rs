//! Command-line options of the paper checks: which experiment, where to write, the
//! seed and the number of collector runs.
use crate::error::{Error, Result};
use vstd::prelude::*;
use vstd::string::StringExecFns;

verus! {

/// `s` is a non-empty run of ASCII decimal digits.
pub open spec fn decimal_digits(s: Seq<char>) -> bool {
    &&& s.len() > 0
    &&& forall|t: int| 0 <= t < s.len() ==> '0' <= #[trigger] s[t] && s[t] <= '9'
}

/// The value of a run of decimal digits.
pub open spec fn decimal_value(s: Seq<char>) -> nat
    decreases s.len(),
{
    if s.len() == 0 {
        0
    } else {
        decimal_value(s.drop_last()) * 10 + ((s.last() as int) - ('0' as int)) as nat
    }
}

/// The number that an unsigned integer's `FromStr` reads from `s`: an optional `+`
/// followed by decimal digits, before the range of the target type is checked.
pub open spec fn unsigned_text(s: Seq<char>) -> Option<nat> {
    let body = if s.len() > 0 && s[0] == '+' {
        s.drop_first()
    } else {
        s
    };
    if decimal_digits(body) {
        Some(decimal_value(body))
    } else {
        None
    }
}

/// `<u64 as FromStr>::from_str` from std: `Ok` exactly for an optional `+` followed by
/// decimal digits whose value fits in `u64`; the error's text is std's and left unsaid.
#[verifier::external_body]
fn parse_u64(s: &str) -> (r: core::result::Result<u64, String>)
    ensures
        r is Ok <==> (unsigned_text(s@) matches Some(v) && v <= u64::MAX),
        r matches Ok(v) ==> unsigned_text(s@) == Some(v as nat),
{
    s.parse::<u64>().map_err(|e| e.to_string())
}

/// `<usize as FromStr>::from_str` from std: `Ok` exactly for an optional `+` followed by
/// decimal digits whose value fits in `usize`; the error's text is std's and left unsaid.
#[verifier::external_body]
fn parse_usize(s: &str) -> (r: core::result::Result<usize, String>)
    ensures
        r is Ok <==> (unsigned_text(s@) matches Some(v) && v <= usize::MAX),
        r matches Ok(v) ==> unsigned_text(s@) == Some(v as nat),
{
    s.parse::<usize>().map_err(|e| e.to_string())
}

/// Selected experiment, output directory, seed and collector runs per pattern and mode.
pub struct Options {
    /// `all`, `decoder`, `specification` or `collector`.
    pub experiment: String,
    /// A new directory for the results.
    pub out: String,
    /// Seed of the deterministic runs.
    pub seed: u64,
    /// Collector trials per pattern and mode.
    pub runs: usize,
}

/// The content of an [`Options`] value.
pub struct OptionsModel {
    pub experiment: Seq<char>,
    pub out: Seq<char>,
    pub seed: u64,
    pub runs: usize,
}

impl View for Options {
    type V = OptionsModel;

    open spec fn view(&self) -> OptionsModel {
        OptionsModel {
            experiment: self.experiment@,
            out: self.out@,
            seed: self.seed,
            runs: self.runs,
        }
    }
}

/// Why an argument list is rejected.
pub enum ParseFailure {
    /// An option name is the last argument.
    MissingValue,
    /// An option name that is not known.
    UnknownArgument(Seq<char>),
    /// A seed or run count that is not an unsigned number of the right range.
    InvalidNumber,
    /// An experiment other than the four known ones.
    UnknownExperiment,
    /// A run count outside `1..=100000`.
    RunsOutOfRange,
}

/// Options before any argument is read.
pub open spec fn default_options() -> OptionsModel {
    OptionsModel {
        experiment: "all"@,
        out: "results_checks"@,
        seed: 20260921,
        runs: 200,
    }
}

/// Read `args` as name/value pairs on top of `o`.
pub open spec fn apply_args(o: OptionsModel, args: Seq<Seq<char>>) -> core::result::Result<
    OptionsModel,
    ParseFailure,
>
    decreases args.len(),
{
    if args.len() == 0 {
        Ok(o)
    } else if args.len() == 1 {
        Err(ParseFailure::MissingValue)
    } else {
        let name = args[0];
        let value = args[1];
        let rest = args.subrange(2, args.len() as int);
        if name == "--experiment"@ {
            apply_args(OptionsModel { experiment: value, ..o }, rest)
        } else if name == "--out"@ {
            apply_args(OptionsModel { out: value, ..o }, rest)
        } else if name == "--seed"@ {
            match unsigned_text(value) {
                Some(x) if x <= u64::MAX => apply_args(OptionsModel { seed: x as u64, ..o }, rest),
                _ => Err(ParseFailure::InvalidNumber),
            }
        } else if name == "--runs"@ {
            match unsigned_text(value) {
                Some(x) if x <= usize::MAX => apply_args(
                    OptionsModel { runs: x as usize, ..o },
                    rest,
                ),
                _ => Err(ParseFailure::InvalidNumber),
            }
        } else {
            Err(ParseFailure::UnknownArgument(name))
        }
    }
}

/// One of the four experiments.
pub open spec fn known_experiment(e: Seq<char>) -> bool {
    e == "all"@ || e == "decoder"@ || e == "specification"@ || e == "collector"@
}

/// The options that an argument list selects, or why it is rejected.
pub open spec fn parse_spec(args: Seq<Seq<char>>) -> core::result::Result<
    OptionsModel,
    ParseFailure,
> {
    match apply_args(default_options(), args) {
        Err(f) => Err(f),
        Ok(o) => if !known_experiment(o.experiment) {
            Err(ParseFailure::UnknownExperiment)
        } else if !(1 <= o.runs <= 100_000) {
            Err(ParseFailure::RunsOutOfRange)
        } else {
            Ok(o)
        },
    }
}

/// The message of a rejection; a number's is std's own text.
pub open spec fn failure_message(f: ParseFailure) -> Option<Seq<char>> {
    match f {
        ParseFailure::MissingValue => Some("missing argument value"@),
        ParseFailure::UnknownArgument(name) => Some("unknown argument: "@ + name),
        ParseFailure::InvalidNumber => None,
        ParseFailure::UnknownExperiment => Some(
            "use --experiment all|decoder|specification|collector"@,
        ),
        ParseFailure::RunsOutOfRange => Some("--runs must be between 1 and 100000"@),
    }
}

/// The texts of the arguments.
pub open spec fn arg_texts(args: Seq<String>) -> Seq<Seq<char>> {
    args.map_values(|s: String| s@)
}

/// Parse `--experiment`, `--out`, `--seed` and `--runs` pairs.
pub fn parse(args: &[String]) -> (res: Result<Options>)
    ensures
        parse_spec(arg_texts(args@)) matches Ok(o) ==> (res matches Ok(opts) && opts@ == o),
        parse_spec(arg_texts(args@)) matches Err(f) ==> (res matches Err(e) && (failure_message(
            f,
        ) matches Some(msg) ==> e.0@ == msg)),
{
    let ghost texts = arg_texts(args@);
    let experiment_name = "--experiment".to_owned();
    let out_name = "--out".to_owned();
    let seed_name = "--seed".to_owned();
    let runs_name = "--runs".to_owned();
    let mut options = Options {
        experiment: "all".to_owned(),
        out: "results_checks".to_owned(),
        seed: 20260921,
        runs: 200,
    };
    let mut i: usize = 0;
    assert(options@ == default_options());
    assert(texts.subrange(0, texts.len() as int) == texts);
    while i < args.len()
        invariant
            texts == arg_texts(args@),
            i <= args.len(),
            experiment_name@ == "--experiment"@,
            out_name@ == "--out"@,
            seed_name@ == "--seed"@,
            runs_name@ == "--runs"@,
            apply_args(default_options(), texts) == apply_args(
                options@,
                texts.subrange(i as int, texts.len() as int),
            ),
        decreases args.len() - i,
    {
        let ghost rest = texts.subrange(i as int, texts.len() as int);
        let argument = &args[i];
        if i + 1 >= args.len() {
            assert(rest.len() == 1);
            return Err(Error("missing argument value".to_owned()));
        }
        let value = &args[i + 1];
        assert(rest[0] == argument@ && rest[1] == value@);
        assert(rest.subrange(2, rest.len() as int) == texts.subrange(i + 2, texts.len() as int));
        if *argument == experiment_name {
            options.experiment = value.clone();
        } else if *argument == out_name {
            options.out = value.clone();
        } else if *argument == seed_name {
            match parse_u64(value.as_str()) {
                Ok(x) => {
                    options.seed = x;
                },
                Err(e) => {
                    return Err(Error(e));
                },
            }
        } else if *argument == runs_name {
            match parse_usize(value.as_str()) {
                Ok(x) => {
                    options.runs = x;
                },
                Err(e) => {
                    return Err(Error(e));
                },
            }
        } else {
            return Err(Error("unknown argument: ".to_owned().concat(argument.as_str())));
        }
        i = i + 2;
    }
    assert(texts.subrange(i as int, texts.len() as int).len() == 0);
    let known = options.experiment == "all".to_owned() || options.experiment
        == "decoder".to_owned() || options.experiment == "specification".to_owned()
        || options.experiment == "collector".to_owned();
    if !known {
        return Err(Error("use --experiment all|decoder|specification|collector".to_owned()));
    }
    if !(1 <= options.runs && options.runs <= 100_000) {
        return Err(Error("--runs must be between 1 and 100000".to_owned()));
    }
    Ok(options)
}

} // verus!
