//! A loom-compatible model builder, whose settings default to loom's environment variables.

use vstd::arithmetic::power::pow;
use vstd::prelude::*;

use std::path::PathBuf;
use std::time::Duration;

verus! {

/// The value of a decimal numeral: the digits of `d`, most significant first.
pub open spec fn digits_value(d: Seq<u8>) -> nat
    decreases d.len(),
{
    if d.len() == 0 {
        0
    } else {
        digits_value(d.drop_last()) * 10 + (d.last() - 48) as nat
    }
}

/// Every byte of `d` is an ASCII digit.
pub open spec fn all_digits(d: Seq<u8>) -> bool {
    forall|i: int| 0 <= i < d.len() ==> 48 <= #[trigger] d[i] <= 57
}

/// The digits of a numeral as unsigned integer parsing reads it: an optional leading `+`, then
/// one or more ASCII digits.
pub open spec fn numeral_digits(b: Seq<u8>) -> Seq<u8> {
    if b.len() > 0 && b[0] == 43 {
        b.drop_first()
    } else {
        b
    }
}

/// The number that `b` spells, if it is a numeral that fits in a `u64`.
pub open spec fn decimal_u64(b: Seq<u8>) -> Option<u64> {
    let d = numeral_digits(b);
    if d.len() > 0 && all_digits(d) && digits_value(d) <= u64::MAX {
        Some(digits_value(d) as u64)
    } else {
        None
    }
}

/// The number that `b` spells, if it is a numeral that fits in a `usize`.
pub open spec fn decimal_usize(b: Seq<u8>) -> Option<usize> {
    let d = numeral_digits(b);
    if d.len() > 0 && all_digits(d) && digits_value(d) <= usize::MAX {
        Some(digits_value(d) as usize)
    } else {
        None
    }
}

/// A single digit is worth its own value.
pub proof fn lemma_digit_value(c: u8)
    requires
        48 <= c <= 57,
    ensures
        digits_value(seq![c]) == c - 48,
{
    assert(seq![c].drop_last() =~= Seq::<u8>::empty());
    assert(digits_value(Seq::<u8>::empty()) == 0);
    assert(seq![c].last() == c);
}

/// Positional notation: the digits of `a` followed by those of `b` are worth `a` shifted left by
/// as many decimal places as `b` has digits, plus `b`.
pub proof fn lemma_digits_value_append(a: Seq<u8>, b: Seq<u8>)
    ensures
        digits_value(a + b) == digits_value(a) * pow(10, b.len()) + digits_value(b),
    decreases b.len(),
{
    reveal(pow);
    if b.len() == 0 {
        assert(a + b =~= a);
    } else {
        let c = b.drop_last();
        lemma_digits_value_append(a, c);
        assert((a + b).drop_last() =~= a + c);
        assert((a + b).last() == b.last());
        let p = pow(10, c.len());
        assert(pow(10, b.len()) == 10 * p);
        assert((digits_value(a) * p + digits_value(c)) * 10 + (b.last() - 48) as nat
            == digits_value(a) * (10 * p) + (digits_value(c) * 10 + (b.last() - 48) as nat))
            by (nonlinear_arith);
    }
}

/// A numeral is accepted exactly when it is one or more ASCII digits, optionally after a single
/// `+`, and its value fits; its value is that of its digits. A leading `-` is refused.
pub proof fn lemma_decimal_u64_accepts(d: Seq<u8>)
    ensures
        d.len() > 0 && all_digits(d) && digits_value(d) <= u64::MAX ==> {
            &&& decimal_u64(d) == Some(digits_value(d) as u64)
            &&& decimal_u64(seq![43u8] + d) == Some(digits_value(d) as u64)
        },
        d.len() > 0 && all_digits(d) && digits_value(d) > u64::MAX ==> {
            &&& decimal_u64(d) is None
            &&& decimal_u64(seq![43u8] + d) is None
        },
        d.len() > 0 && d[0] == 45 ==> decimal_u64(d) is None,
        decimal_u64(Seq::<u8>::empty()) is None,
        decimal_u64(seq![43u8]) is None,
{
    assert((seq![43u8] + d).drop_first() =~= d);
    if d.len() > 0 && d[0] == 45 {
        assert(!all_digits(numeral_digits(d)));
    }
    assert(seq![43u8].drop_first() =~= Seq::<u8>::empty());
}

proof fn lemma_digits_value_grows(d: Seq<u8>, i: int)
    requires
        0 <= i <= d.len(),
        all_digits(d),
    ensures
        digits_value(d.subrange(0, i)) <= digits_value(d),
    decreases d.len() - i,
{
    if i < d.len() {
        lemma_digits_value_grows(d, i + 1);
        assert(d.subrange(0, i + 1).drop_last() =~= d.subrange(0, i));
    } else {
        assert(d.subrange(0, i) =~= d);
    }
}

/// Parse a decimal numeral, as `u64::from_str` does.
fn parse_u64(b: &[u8]) -> (r: Option<u64>)
    ensures
        r == decimal_u64(b@),
{
    let n = b.len();
    let start: usize = if n > 0 && b[0] == 43 { 1 } else { 0 };
    let ghost d = numeral_digits(b@);
    assert(d =~= b@.subrange(start as int, n as int));
    if start == n {
        return None;
    }
    let mut acc: u64 = 0;
    let mut i: usize = start;
    while i < n
        invariant
            start <= i <= n,
            n == b@.len(),
            d == b@.subrange(start as int, n as int),
            d == numeral_digits(b@),
            all_digits(d.subrange(0, i - start)),
            acc == digits_value(d.subrange(0, i - start)),
        decreases n - i,
    {
        let c = b[i];
        assert(d[i - start] == c);
        if c < 48 || c > 57 {
            assert(!all_digits(d));
            return None;
        }
        let digit = (c - 48) as u64;
        assert(d.subrange(0, i + 1 - start).drop_last() =~= d.subrange(0, i - start));
        assert(digits_value(d.subrange(0, i + 1 - start)) == acc * 10 + digit);
        if acc > (u64::MAX - digit) / 10 {
            proof {
                assert(acc * 10 + digit > u64::MAX) by (nonlinear_arith)
                    requires
                        acc > (u64::MAX - digit) / 10,
                        digit <= 9,
                ;
                assert forall|j: int| 0 <= j < i + 1 - start implies 48 <= #[trigger] d.subrange(0, i + 1 - start)[j] <= 57 by {
                    if j < i - start {
                        assert(d.subrange(0, i + 1 - start)[j] == d.subrange(0, i - start)[j]);
                    }
                }
                if all_digits(d) {
                    lemma_digits_value_grows(d, i + 1 - start);
                }
            }
            return None;
        }
        proof {
            assert(acc * 10 + digit <= u64::MAX) by (nonlinear_arith)
                requires
                    acc <= (u64::MAX - digit) / 10,
                    digit <= 9,
            ;
            assert forall|j: int| 0 <= j < i + 1 - start implies 48 <= #[trigger] d.subrange(0, i + 1 - start)[j] <= 57 by {
                if j < i - start {
                    assert(d.subrange(0, i + 1 - start)[j] == d.subrange(0, i - start)[j]);
                }
            }
        }
        acc = acc * 10 + digit;
        i = i + 1;
    }
    assert(d.subrange(0, n - start) =~= d);
    Some(acc)
}

/// Parse a decimal numeral, as `usize::from_str` does.
fn parse_usize(b: &[u8]) -> (r: Option<usize>)
    ensures
        r == decimal_usize(b@),
{
    match parse_u64(b) {
        Some(v) => {
            if v as u128 <= usize::MAX as u128 {
                Some(v as usize)
            } else {
                None
            }
        },
        None => {
            None
        },
    }
}

/// A name for what `std::time::Duration::from_secs` returns: the duration of `secs` whole
/// seconds.
pub uninterp spec fn duration_of_secs(secs: u64) -> Duration;

/// `std::time::Duration::from_secs`: the duration of `secs` whole seconds. It cannot fail.
#[verifier::external_body]
fn duration_from_secs(secs: u64) -> (d: Duration)
    ensures
        d == duration_of_secs(secs),
{
    Duration::from_secs(secs)
}

/// The values of loom's environment variables, as the caller read them; `None` where unset.
pub struct LoomEnv {
    /// `LOOM_MAX_BRANCHES`
    pub max_branches: Option<Vec<u8>>,
    /// `LOOM_MAX_PERMUTATIONS`
    pub max_permutations: Option<Vec<u8>>,
    /// `LOOM_MAX_DURATION`, in seconds
    pub max_duration: Option<Vec<u8>>,
    /// `LOOM_MAX_PREEMPTIONS`
    pub max_preemptions: Option<Vec<u8>>,
    /// `LOOM_CHECKPOINT_FILE`
    pub checkpoint_file: Option<PathBuf>,
    /// `LOOM_CHECKPOINT_INTERVAL`
    pub checkpoint_interval: Option<Vec<u8>>,
    /// Whether `LOOM_LOCATION` is set
    pub location: bool,
    /// Whether `LOOM_LOG` is set
    pub log: bool,
}

/// A loom environment variable that is set to something other than a number.
#[derive(Debug, Clone, Copy, PartialEq, Eq, Structural)]
pub enum LoomEnvError {
    /// `LOOM_MAX_BRANCHES`
    MaxBranches,
    /// `LOOM_MAX_PERMUTATIONS`
    MaxPermutations,
    /// `LOOM_MAX_DURATION`
    MaxDuration,
    /// `LOOM_MAX_PREEMPTIONS`
    MaxPreemptions,
    /// `LOOM_CHECKPOINT_INTERVAL`
    CheckpointInterval,
}

/// A variable that is set but does not hold a number of the right size.
pub open spec fn bad_usize(v: Option<Vec<u8>>) -> bool {
    v matches Some(b) && decimal_usize(b@) is None
}

/// The first variable, in the order of the builder's fields, that is set to something that is not
/// a number of the right size.
pub open spec fn first_bad_variable(env: LoomEnv) -> Option<LoomEnvError> {
    if bad_usize(env.max_branches) {
        Some(LoomEnvError::MaxBranches)
    } else if bad_usize(env.max_permutations) {
        Some(LoomEnvError::MaxPermutations)
    } else if env.max_duration matches Some(b) && decimal_u64(b@) is None {
        Some(LoomEnvError::MaxDuration)
    } else if bad_usize(env.max_preemptions) {
        Some(LoomEnvError::MaxPreemptions)
    } else if bad_usize(env.checkpoint_interval) {
        Some(LoomEnvError::CheckpointInterval)
    } else {
        None
    }
}

/// The number in a variable, if it is set.
pub open spec fn usize_var(v: Option<Vec<u8>>) -> Option<usize> {
    match v {
        Some(b) => decimal_usize(b@),
        None => None,
    }
}

/// The number in a variable, or 0 when it is unset.
pub open spec fn usize_var_or_zero(v: Option<Vec<u8>>) -> usize {
    match v {
        Some(b) => decimal_usize(b@).unwrap(),
        None => 0,
    }
}

/// Read one variable as a `usize`: `Ok(None)` when unset, `Err(e)` when set to anything else than
/// a number that fits.
fn read_usize(v: &Option<Vec<u8>>, e: LoomEnvError) -> (r: Result<Option<usize>, LoomEnvError>)
    ensures
        r is Err <==> bad_usize(*v),
        r matches Err(x) ==> x == e,
        r matches Ok(x) ==> x == usize_var(*v),
{
    match v {
        Some(b) => match parse_usize(b.as_slice()) {
            Some(x) => Ok(Some(x)),
            None => Err(e),
        },
        None => Ok(None),
    }
}

/// Settings of a model check, in the shape that loom's `model::Builder` has.
#[derive(Debug)]
pub struct Builder {
    /// Max number of threads to check as part of the execution.
    pub max_threads: usize,
    /// Maximum number of thread switches per permutation.
    ///
    /// Defaults to `LOOM_MAX_BRANCHES` environment variable.
    pub max_branches: usize,
    /// Maximum number of permutations to explore.
    ///
    /// Defaults to `LOOM_MAX_PERMUTATIONS` environment variable.
    pub max_permutations: Option<usize>,
    /// Maximum amount of time to spend on checking
    ///
    /// Defaults to `LOOM_MAX_DURATION` environment variable, in seconds.
    pub max_duration: Option<Duration>,
    /// Maximum number of thread preemptions to explore
    ///
    /// Defaults to `LOOM_MAX_PREEMPTIONS` environment variable.
    pub preemption_bound: Option<usize>,
    /// When doing an exhaustive check, uses the file to store and load the check progress
    ///
    /// Defaults to `LOOM_CHECKPOINT_FILE` environment variable.
    pub checkpoint_file: Option<PathBuf>,
    /// How often to write the checkpoint file
    ///
    /// Defaults to `LOOM_CHECKPOINT_INTERVAL` environment variable.
    pub checkpoint_interval: usize,
    /// When `true`, locations are captured on each loom operation.
    ///
    /// Defaults to `LOOM_LOCATION` environment variable.
    pub location: bool,
    /// Log execution output to stdout.
    ///
    /// Defaults to existance of `LOOM_LOG` environment variable.
    pub log: bool,
}

impl Builder {
    /// Every setting is zero, `None` or `false`: the builder for an environment where no loom
    /// variable is set.
    pub open spec fn is_default(self) -> bool {
        &&& self.max_threads == 0
        &&& self.max_branches == 0
        &&& self.max_permutations is None
        &&& self.max_duration is None
        &&& self.preemption_bound is None
        &&& self.checkpoint_file is None
        &&& self.checkpoint_interval == 0
        &&& !self.location
        &&& !self.log
    }

    /// The builder whose settings are taken from the loom variables in `env`, and are zero, `None`
    /// or `false` where a variable is unset.
    pub open spec fn from_env(self, env: LoomEnv) -> bool {
        &&& self.max_threads == 0
        &&& self.max_branches == usize_var_or_zero(env.max_branches)
        &&& self.max_permutations == usize_var(env.max_permutations)
        &&& self.max_duration == match env.max_duration {
            Some(b) => Some(duration_of_secs(decimal_u64(b@).unwrap())),
            None => None,
        }
        &&& self.preemption_bound == usize_var(env.max_preemptions)
        &&& self.checkpoint_file == env.checkpoint_file
        &&& self.checkpoint_interval == usize_var_or_zero(env.checkpoint_interval)
        &&& self.location == env.location
        &&& self.log == env.log
    }

    /// A builder whose settings default to the loom environment variables in `env`. Fails,
    /// naming the first such variable in the order of the fields, when a numeric variable is set
    /// to something other than a number that fits.
    pub fn new(env: LoomEnv) -> (r: Result<Builder, LoomEnvError>)
        ensures
            r is Err <==> first_bad_variable(env) is Some,
            r matches Err(e) ==> Some(e) == first_bad_variable(env),
            r matches Ok(b) ==> b.from_env(env),
            r matches Ok(b) ==> {
                &&& b.max_threads == 0
                &&& b.log == env.log
                &&& b.location == env.location
                &&& b.checkpoint_file == env.checkpoint_file
                &&& (env.max_branches is None ==> b.max_branches == 0)
                &&& (env.max_permutations is None <==> b.max_permutations is None)
                &&& (env.max_duration is None <==> b.max_duration is None)
                &&& (env.max_preemptions is None <==> b.preemption_bound is None)
                &&& (env.checkpoint_interval is None ==> b.checkpoint_interval == 0)
            },
            r matches Ok(b) ==> (env.max_branches matches Some(x) ==> decimal_usize(x@) == Some(b.max_branches)),
            r matches Ok(b) ==> (env.max_permutations matches Some(x) ==> b.max_permutations == decimal_usize(x@)),
            r matches Ok(b) ==> (env.max_duration matches Some(x) ==> b.max_duration == Some(duration_of_secs(decimal_u64(x@).unwrap()))),
            r matches Ok(b) ==> (env.max_preemptions matches Some(x) ==> b.preemption_bound == decimal_usize(x@)),
            r matches Ok(b) ==> (env.checkpoint_interval matches Some(x) ==> decimal_usize(x@) == Some(b.checkpoint_interval)),
    {
        let max_branches = match read_usize(&env.max_branches, LoomEnvError::MaxBranches) {
            Ok(v) => v,
            Err(e) => return Err(e),
        };
        let max_permutations = match read_usize(&env.max_permutations, LoomEnvError::MaxPermutations) {
            Ok(v) => v,
            Err(e) => return Err(e),
        };
        let max_duration = match &env.max_duration {
            Some(b) => match parse_u64(b.as_slice()) {
                Some(secs) => Some(duration_from_secs(secs)),
                None => return Err(LoomEnvError::MaxDuration),
            },
            None => None,
        };
        let preemption_bound = match read_usize(&env.max_preemptions, LoomEnvError::MaxPreemptions) {
            Ok(v) => v,
            Err(e) => return Err(e),
        };
        let checkpoint_interval = match read_usize(&env.checkpoint_interval, LoomEnvError::CheckpointInterval) {
            Ok(v) => v,
            Err(e) => return Err(e),
        };
        let location = env.location;
        let log = env.log;
        Ok(Builder {
            max_threads: 0,
            max_branches: match max_branches {
                Some(v) => v,
                None => 0,
            },
            max_permutations,
            max_duration,
            preemption_bound,
            checkpoint_file: env.checkpoint_file,
            checkpoint_interval: match checkpoint_interval {
                Some(v) => v,
                None => 0,
            },
            location,
            log,
        })
    }
}

/// Each setting of a builder made from an environment comes from its own variable: `log` from
/// whether `LOOM_LOG` is set, `location` from whether `LOOM_LOCATION` is set, the checkpoint file
/// from `LOOM_CHECKPOINT_FILE`, and an unset variable leaves its setting zero or `None`.
pub proof fn lemma_builder_settings(b: Builder, env: LoomEnv)
    requires
        b.from_env(env),
        first_bad_variable(env) is None,
    ensures
        b.max_threads == 0,
        b.log == env.log,
        b.location == env.location,
        b.checkpoint_file == env.checkpoint_file,
        env.max_branches is None ==> b.max_branches == 0,
        env.max_permutations is None <==> b.max_permutations is None,
        env.max_duration is None <==> b.max_duration is None,
        env.max_preemptions is None <==> b.preemption_bound is None,
        env.checkpoint_interval is None ==> b.checkpoint_interval == 0,
{
}

impl Default for Builder {
    /// The builder for an environment where no loom variable is set.
    fn default() -> (b: Self)
        ensures
            b.is_default(),
    {
        Builder {
            max_threads: 0,
            max_branches: 0,
            max_permutations: None,
            max_duration: None,
            preemption_bound: None,
            checkpoint_file: None,
            checkpoint_interval: 0,
            location: false,
            log: false,
        }
    }
}

} // verus!
