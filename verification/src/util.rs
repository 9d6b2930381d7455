//! Small helpers: logging level selection and string building.
use vstd::prelude::*;
use vstd::string::StringExecFns;

verus! {

/// The log level chosen from the number of verbosity flags on the command
/// line: none means `info`, one means `debug`, more means `trace`.
pub fn setup_env_logger_cli(v_occurrences: u64) -> (level: &'static str)
    ensures
        v_occurrences == 0 ==> level@ == "info"@,
        v_occurrences == 1 ==> level@ == "debug"@,
        v_occurrences >= 2 ==> level@ == "trace"@,
{
    match v_occurrences {
        0 => "info",
        1 => "debug",
        _ => "trace",
    }
}

/// Character-wise equality of two string slices.
pub fn str_eq(a: &str, b: &str) -> (r: bool)
    ensures
        r == (a@ == b@),
{
    let owned_a: String = a.to_owned();
    let owned_b: String = b.to_owned();
    owned_a == owned_b
}

/// The two pieces, joined.
pub fn join2(a: &str, b: &str) -> (r: String)
    ensures
        r@ == a@ + b@,
{
    let owned: String = a.to_owned();
    owned.concat(b)
}

/// The three pieces, joined in order.
pub fn join3(a: &str, b: &str, c: &str) -> (r: String)
    ensures
        r@ == a@ + b@ + c@,
{
    let owned: String = a.to_owned();
    owned.concat(b).concat(c)
}

} // verus!
