//! Limited subprocess execution: the limit chain a run is wrapped in, and
//! how its exit status is read. Spawning and reading the pipes is the
//! application's part.
use vstd::prelude::*;
use crate::text::{decimal, u64_decimal, push_str_chars, push_chars, string_from};

verus! {

/// Per-instance resource budget.
#[derive(Clone, Copy, Debug)]
pub struct Limits {
    pub timeout_s: u64,
    pub mem_mb: u64,
}

/// The outcome of one limited invocation.
#[derive(Clone, Debug)]
pub struct Exec {
    /// Exit status in shell vocabulary: the process's own exit code, or
    /// `128 + signal` when it died on a signal. `None` only if the platform
    /// reports neither.
    pub rc: Option<i32>,
    pub stdout: String,
    pub stderr: String,
    pub wall_ms: u64,
    pub killed_by_timeout: bool,
    /// Set (with everything else empty) when the wrapper could not even be
    /// spawned.
    pub spawn_error: Option<String>,
}

impl Default for Exec {
    fn default() -> (r: Exec)
        ensures
            r.rc is None,
            r.stdout@ == Seq::<char>::empty(),
            r.stderr@ == Seq::<char>::empty(),
            r.wall_ms == 0,
            !r.killed_by_timeout,
            r.spawn_error is None,
    {
        Exec {
            rc: None,
            stdout: String::new(),
            stderr: String::new(),
            wall_ms: 0,
            killed_by_timeout: false,
            spawn_error: None,
        }
    }
}

/// The shell's exit status: the exit code, else `128 + signal`.
pub open spec fn shell_status_spec(code: Option<i32>, signal: Option<i32>) -> Option<int> {
    match code {
        Some(c) => Some(c as int),
        None => match signal {
            Some(s) => Some(128 + s),
            None => None,
        },
    }
}

/// The shell's exit status: the exit code, else `128 + signal`.
pub fn shell_status(code: Option<i32>, signal: Option<i32>) -> (r: Option<i32>)
    requires
        signal matches Some(s) ==> s <= i32::MAX - 128,
    ensures
        match r {
            Some(v) => shell_status_spec(code, signal) == Some(v as int),
            None => shell_status_spec(code, signal) is None,
        },
{
    match code {
        Some(c) => Some(c),
        None => match signal {
            Some(s) => Some(128 + s),
            None => None,
        },
    }
}

/// A run counts as timed out on `timeout`'s own status 124, or when it was
/// killed (137, or no status at all) once the budget had elapsed; a kill
/// before that is an out-of-memory kill.
pub open spec fn timed_out_spec(rc: Option<i32>, wall_ms: u64, timeout_s: u64) -> bool {
    let budget = if timeout_s * 1000 > u64::MAX { u64::MAX as int } else { timeout_s * 1000 };
    rc == Some(124i32) || (rc == Some(137i32) && wall_ms >= budget) || (rc is None && wall_ms >= budget)
}

/// Whether a run with status `rc` after `wall_ms` ms was killed by its
/// `timeout_s` budget.
pub fn timed_out(rc: Option<i32>, wall_ms: u64, timeout_s: u64) -> (b: bool)
    ensures
        b == timed_out_spec(rc, wall_ms, timeout_s),
{
    let budget: u64 = if timeout_s > u64::MAX / 1000 { u64::MAX } else { timeout_s * 1000 };
    rc == Some(124i32) || (rc == Some(137i32) && wall_ms >= budget) || (rc.is_none() && wall_ms >= budget)
}

/// The arguments of the limit chain
/// `prlimit --as=<bytes> timeout -s KILL <t+1> timeout <t> <program> <args…>`.
pub open spec fn limit_chain(program: Seq<char>, args: Seq<Seq<char>>, limits: Limits) -> Seq<Seq<char>> {
    seq![
        "--as="@ + decimal((limits.mem_mb * 1024 * 1024) as nat),
        "timeout"@,
        "-s"@,
        "KILL"@,
        decimal((limits.timeout_s + 1) as nat),
        "timeout"@,
        decimal(limits.timeout_s as nat),
        program,
    ] + args
}

/// The arguments `prlimit` is run with for `program args…` under `limits`.
pub fn limit_args(program: &str, args: &[String], limits: &Limits) -> (r: Vec<String>)
    requires
        limits.mem_mb * 1024 * 1024 <= u64::MAX,
        limits.timeout_s < u64::MAX,
    ensures
        r@.map_values(|a: String| a@) == limit_chain(program@, args@.map_values(|a: String| a@), *limits),
{
    let mut out: Vec<String> = Vec::new();
    let mut as_arg: Vec<char> = Vec::new();
    push_str_chars(&mut as_arg, "--as=");
    let bytes = u64_decimal(limits.mem_mb * 1024 * 1024);
    push_chars(&mut as_arg, bytes.as_slice());
    out.push(string_from(as_arg.as_slice()));
    out.push("timeout".to_owned());
    out.push("-s".to_owned());
    out.push("KILL".to_owned());
    let t1 = u64_decimal(limits.timeout_s + 1);
    out.push(string_from(t1.as_slice()));
    out.push("timeout".to_owned());
    let t = u64_decimal(limits.timeout_s);
    out.push(string_from(t.as_slice()));
    out.push(program.to_owned());
    let ghost head = out@.map_values(|a: String| a@);
    let mut i: usize = 0;
    while i < args.len()
        invariant
            0 <= i <= args@.len(),
            out@.map_values(|a: String| a@) == head + args@.take(i as int).map_values(|a: String| a@),
        decreases args@.len() - i,
    {
        let a = args[i].clone();
        let ghost prev = out@;
        out.push(a);
        proof {
            assert(out@.map_values(|a: String| a@) =~= prev.map_values(|a: String| a@).push(args@[i as int]@));
            assert(args@.take(i + 1).map_values(|a: String| a@) =~= args@.take(i as int).map_values(|a: String| a@).push(args@[i as int]@));
        }
        i = i + 1;
    }
    proof {
        assert(args@.take(args@.len() as int) =~= args@);
        assert(out@.map_values(|a: String| a@) =~= limit_chain(program@, args@.map_values(|a: String| a@), *limits));
    }
    out
}

} // verus!
