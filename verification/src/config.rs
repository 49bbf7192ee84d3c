//! Where a pool lives on disk and how an instance without a name gets one:
//! the data directory that is set once, the directories of its partitions,
//! the rule for a second attempt at opening, and paths that are made on the
//! spot.

use vstd::prelude::*;
use vstd::string::StringExecFns;
use crate::error::Error;
use crate::pool::DB_NUM;

verus! {

/// meta of each instance, Vecx/Mapx, etc.
pub const BNC_META_NAME: &'static str = "__extra_meta__";

/// The data directory of a process that was told none.
pub const DEFAULT_DATA_DIR: &'static str = "/tmp/.bnc";

/// The one place where a process keeps the name of its data directory.
///
/// The name can be given once, before the pool is first used. The first use
/// settles it for good.
#[derive(Debug)]
pub struct DataDir {
    dir: String,
    inited: bool,
}

/// What to do after an attempt at opening.
pub enum Verdict<T, E> {
    /// The attempt succeeded with this value.
    Done(T),
    /// The first attempt failed with this error: make one more.
    Again(E),
    /// The second attempt failed as well, with this error.
    Fatal(E),
}

/// The directory that the pool uses: the configured one, else the one that
/// the environment names, else the default.
pub open spec fn resolved_dir(configured: Seq<char>, env: Option<Seq<char>>) -> Seq<char> {
    if configured.len() > 0 {
        configured
    } else {
        match env {
            Some(e) => e,
            None => DEFAULT_DATA_DIR@,
        }
    }
}

/// The plain value of an optional string slice.
pub open spec fn opt_str(o: Option<&str>) -> Option<Seq<char>> {
    match o {
        Some(s) => Some(s@),
        None => None,
    }
}

/// The name of a decimal digit.
pub open spec fn digit_text(d: nat) -> Seq<char> {
    if d == 0 {
        "0"@
    } else if d == 1 {
        "1"@
    } else if d == 2 {
        "2"@
    } else if d == 3 {
        "3"@
    } else if d == 4 {
        "4"@
    } else if d == 5 {
        "5"@
    } else if d == 6 {
        "6"@
    } else if d == 7 {
        "7"@
    } else if d == 8 {
        "8"@
    } else {
        "9"@
    }
}

/// The decimal numeral of `n`, without leading zeros.
pub open spec fn decimal(n: nat) -> Seq<char>
    decreases n,
{
    if n < 10 {
        digit_text(n)
    } else {
        decimal(n / 10) + digit_text(n % 10)
    }
}

/// The directory of partition `i` below the data directory `dir`.
pub open spec fn shard_dir(dir: Seq<char>, i: nat) -> Seq<char> {
    dir + "/"@ + decimal(i)
}

/// The path of an instance that was opened at place `file:line:column` at
/// time `ts`, told apart from others opened there by `nonce`.
pub open spec fn unique_path_of(
    ts: nat,
    file: Seq<char>,
    line: nat,
    column: nat,
    nonce: nat,
) -> Seq<char> {
    BNC_META_NAME@ + "/"@ + decimal(ts) + "/"@ + file + "_"@ + decimal(line) + "_"@ + decimal(
        column,
    ) + "_"@ + decimal(nonce)
}

impl DataDir {
    /// The configured directory; empty where none was given.
    pub closed spec fn configured(&self) -> Seq<char> {
        self.dir@
    }

    /// The directory was given or used, and cannot be given again.
    pub closed spec fn is_set(&self) -> bool {
        self.inited
    }

    /// A configuration in which no directory was given yet.
    pub fn new() -> (r: DataDir)
        ensures
            !r.is_set(),
            r.configured() == Seq::<char>::empty(),
    {
        DataDir { dir: String::new(), inited: false }
    }
}

/// Set ${BNC_DATA_DIR} manually
///
/// Succeeds once, before the directory was given or used. Every later call
/// fails and changes nothing.
pub fn set_data_dir(cfg: &mut DataDir, dir: &str) -> (r: Result<(), Error>)
    ensures
        r is Ok == !old(cfg).is_set(),
        r is Ok ==> final(cfg).is_set() && final(cfg).configured() == dir@,
        r matches Err(e) ==> e == Error::Initialization && *final(cfg) == *old(cfg),
{
    if cfg.inited {
        Err(Error::Initialization)
    } else {
        cfg.dir = String::from_str(dir);
        cfg.inited = true;
        Ok(())
    }
}

/// The data directory at first use: the configured one, else `env`, the
/// value of the environment's `BNC_DATA_DIR`, else the default. The answer
/// is kept, and the directory cannot be given any more.
pub fn gen_data_dir(cfg: &mut DataDir, env: Option<&str>) -> (r: String)
    ensures
        r@ == resolved_dir(old(cfg).configured(), opt_str(env)),
        final(cfg).is_set(),
        final(cfg).configured() == r@,
{
    let d: String = if cfg.dir.as_str().is_empty() {
        match env {
            Some(e) => String::from_str(e),
            None => String::from_str(DEFAULT_DATA_DIR),
        }
    } else {
        cfg.dir.clone()
    };
    cfg.dir = d.clone();
    cfg.inited = true;
    d
}

/// The one-character text of the digit `d`.
fn digit(d: u64) -> (r: &'static str)
    requires
        d < 10,
    ensures
        r@ == digit_text(d as nat),
{
    if d == 0 {
        "0"
    } else if d == 1 {
        "1"
    } else if d == 2 {
        "2"
    } else if d == 3 {
        "3"
    } else if d == 4 {
        "4"
    } else if d == 5 {
        "5"
    } else if d == 6 {
        "6"
    } else if d == 7 {
        "7"
    } else if d == 8 {
        "8"
    } else {
        "9"
    }
}

/// The decimal numeral of `n`.
pub fn to_decimal(n: u64) -> (r: String)
    ensures
        r@ == decimal(n as nat),
    decreases n,
{
    if n < 10 {
        String::from_str(digit(n))
    } else {
        let mut s = to_decimal(n / 10);
        s.append(digit(n % 10));
        s
    }
}

/// The directories of the partitions below the data directory `dir`, in the
/// order of their indices.
pub fn data_list(dir: &str) -> (r: Vec<String>)
    ensures
        r@.len() == DB_NUM,
        forall|i: int| 0 <= i < DB_NUM ==> (#[trigger] r@[i])@ == shard_dir(dir@, i as nat),
{
    let mut out: Vec<String> = Vec::new();
    let mut i: usize = 0;
    while i < DB_NUM
        invariant
            i <= DB_NUM,
            out@.len() == i,
            forall|j: int| 0 <= j < i ==> (#[trigger] out@[j])@ == shard_dir(dir@, j as nat),
        decreases DB_NUM - i,
    {
        let mut s = String::from_str(dir);
        s.append("/");
        let n = to_decimal(i as u64);
        s.append(n.as_str());
        out.push(s);
        i += 1;
    }
    out
}

/// Try once more when we fail to open a db.
///
/// Says what follows an attempt: a success ends the matter, a first
/// failure asks for one more attempt, and a second failure is final.
pub fn try_twice<T, E>(first_attempt: bool, outcome: Result<T, E>) -> (r: Verdict<T, E>)
    ensures
        r == (match outcome {
            Ok(v) => Verdict::<T, E>::Done(v),
            Err(e) => if first_attempt {
                Verdict::<T, E>::Again(e)
            } else {
                Verdict::<T, E>::Fatal(e)
            },
        }),
{
    match outcome {
        Ok(v) => Verdict::Done(v),
        Err(e) => if first_attempt {
            Verdict::Again(e)
        } else {
            Verdict::Fatal(e)
        },
    }
}

/// A number drawn by `rand::random`, from the generator of the calling
/// thread. Nothing is claimed of the number: any `u32` may come.
#[verifier::external_body]
fn random_u32() -> (r: u32)
{
    rand::random::<u32>()
}

/// The path that `unique_path` builds once the nonce is drawn.
pub fn format_unique_path(ts: u64, file: &str, line: u32, column: u32, nonce: u32) -> (r: String)
    ensures
        r@ == unique_path_of(ts as nat, file@, line as nat, column as nat, nonce as nat),
{
    let mut s = String::from_str(BNC_META_NAME);
    s.append("/");
    let t = to_decimal(ts);
    s.append(t.as_str());
    s.append("/");
    s.append(file);
    s.append("_");
    let l = to_decimal(line as u64);
    s.append(l.as_str());
    s.append("_");
    let c = to_decimal(column as u64);
    s.append(c.as_str());
    s.append("_");
    let n = to_decimal(nonce as u64);
    s.append(n.as_str());
    s
}

/// Generate a unique path for each instance.
///
/// The path names the time and the place in the source at which it was
/// asked for, and ends in a random number.
pub fn unique_path(ts: u64, file: &str, line: u32, column: u32) -> (r: String)
    ensures
        exists|nonce: u32|
            r@ == #[trigger] unique_path_of(
                ts as nat,
                file@,
                line as nat,
                column as nat,
                nonce as nat,
            ),
{
    let nonce = random_u32();
    format_unique_path(ts, file, line, column, nonce)
}

} // verus!
