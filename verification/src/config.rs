//! The configuration resolver: turn a raw argument list and the state
//! of the `CASE_INSENSITIVE` environment variable into a validated
//! search configuration, or say why none could be built.
use vstd::prelude::*;

verus! {

/// A resolved search invocation: what to look for, in which file, and
/// whether matching is case-sensitive.
pub struct Config {
    pub query: String,
    pub filename: String,
    pub case_sensitive: bool,
}

/// Why configuration resolution returned no `Config`.
#[derive(Debug, PartialEq, Eq)]
pub enum ConfigError {
    /// The help flag was the sole extra argument: the caller should
    /// print the help text and finish successfully.
    Help,
    /// Too few arguments and no help flag: the caller should print the
    /// usage text and fail.
    Usage,
}

/// The argument list asks for help: the help flag is the sole argument
/// after the program name.
pub open spec fn is_help_invocation(args: Seq<Seq<char>>) -> bool {
    args.len() == 2 && args[1] == "-h"@
}

/// The case sensitivity a given argument list and environment resolve
/// to: a fourth argument equal to `"c"` forces a case-sensitive
/// search; in every other case the search is case-sensitive exactly
/// when the `CASE_INSENSITIVE` environment variable is unset.
pub open spec fn resolved_case_sensitive(args: Seq<Seq<char>>, env_case_insensitive: bool) -> bool {
    if args.len() > 3 && args[3] == "c"@ {
        true
    } else {
        !env_case_insensitive
    }
}

/// Character-for-character equality of two string slices.
fn str_eq(a: &str, b: &str) -> (r: bool)
    ensures
        r == (a@ == b@),
{
    let a_len = a.unicode_len();
    let b_len = b.unicode_len();
    if a_len != b_len {
        return false;
    }
    let mut i: usize = 0;
    while i < a_len
        invariant
            a_len == a@.len(),
            a_len == b@.len(),
            i <= a_len,
            forall|j: int| 0 <= j < i ==> a@[j] == b@[j],
        decreases a_len - i,
    {
        if a.get_char(i) != b.get_char(i) {
            return false;
        }
        i += 1;
    }
    proof {
        assert(a@ =~= b@);
    }
    true
}

impl Config {
    /// Resolve a configuration from the raw argument list (program
    /// name first) and from whether the `CASE_INSENSITIVE` environment
    /// variable is set.  The caller reads the environment, prints the
    /// help or usage text on an error, and chooses the exit code.
    pub fn new(args: &Vec<String>, env_case_insensitive: bool) -> (result: Result<
        Config,
        ConfigError,
    >)
        ensures
            match result {
                Ok(config) => {
                    &&& args@.len() >= 3
                    &&& config.query@ == args@[1]@
                    &&& config.filename@ == args@[2]@
                    &&& config.case_sensitive == resolved_case_sensitive(
                        args.deep_view(),
                        env_case_insensitive,
                    )
                },
                Err(e) => {
                    &&& args@.len() < 3
                    &&& (e == ConfigError::Help <==> is_help_invocation(args.deep_view()))
                    &&& (e == ConfigError::Usage <==> !is_help_invocation(args.deep_view()))
                },
            },
    {
        proof {
            assert(args.deep_view().len() == args@.len());
            assert(forall|i: int|
                0 <= i < args@.len() ==> args.deep_view()[i] == #[trigger] args@[i]@);
        }
        if args.len() < 3 {
            if args.len() == 2 && str_eq(args[1].as_str(), "-h") {
                Err(ConfigError::Help)
            } else {
                Err(ConfigError::Usage)
            }
        } else {
            let query = args[1].clone();
            let filename = args[2].clone();
            let case_sensitive = if args.len() > 3 && str_eq(args[3].as_str(), "c") {
                true
            } else {
                !env_case_insensitive
            };
            Ok(Config { query, filename, case_sensitive })
        }
    }
}

} // verus!
