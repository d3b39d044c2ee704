//! Talking to Slurm: the optional `#SBATCH` lines, the version and partition
//! checks, and the batch script of a chunk.
use vstd::prelude::*;

use crate::model::args_view;
use crate::model::opt_view;
use crate::model::Config;
use crate::model::SlurmConfig;
use crate::pattern::compile_pattern;
use crate::pattern::pattern_captures;
use crate::pattern::pattern_is_match;
use crate::pattern::regex_compiles;
use crate::pattern::regex_groups;
use crate::pattern::regex_search;
use crate::pattern::Pattern;
use crate::text::dec;
use crate::text::join;
use crate::text::join_strings;
use crate::text::u64_to_dec;

verus! {

/// Why a Slurm check refused to go on.
#[derive(Debug, Clone, PartialEq, Eq)]
pub enum SlurmCheckError {
    /// The configuration has no `[slurm]` section.
    NoSlurmConfig,
    /// The cluster runs a Slurm version this interactor does not support.
    UnsupportedVersion {
        /// The version found, as `major.minor`.
        found: String,
        /// The supported versions, as a list.
        supported: String,
    },
    /// The Slurm version could not be read; the reason is attached.
    VersionUnknown(String),
    /// The partition is not one of the cluster's; the cluster's partitions
    /// are attached as a table.
    InvalidPartition {
        /// The partition asked for.
        partition: String,
        /// The partitions present, one per line.
        present: String,
    },
    /// The queue is full: the user's jobs already take all submissions.
    QueueFull {
        /// The jobs the user has scheduled.
        scheduled: usize,
        /// The submissions allowed.
        max_submit: usize,
    },
}

/// What a refused Slurm check reports as its cause.
pub open spec fn check_error_text(e: SlurmCheckError) -> Seq<char> {
    match e {
        SlurmCheckError::NoSlurmConfig => "No SLURM configuration found"@,
        SlurmCheckError::UnsupportedVersion { .. } => "SLURM Version assertion failed"@,
        SlurmCheckError::VersionUnknown(_) => "SLURM versioning failed"@,
        SlurmCheckError::InvalidPartition { .. } => "Invalid partition provided"@,
        SlurmCheckError::QueueFull { scheduled, max_submit } => "You cannot schedule any more runs currently, scheduled: "@
            + dec(scheduled as nat) + ", max_submit: "@ + dec(max_submit as nat),
    }
}

impl SlurmCheckError {
    /// The cause of the refusal, as shown to the user.
    pub fn message(&self) -> (s: String)
        ensures
            s@ == check_error_text(*self),
    {
        let r = match self {
            SlurmCheckError::NoSlurmConfig => String::from_str("No SLURM configuration found"),
            SlurmCheckError::UnsupportedVersion { .. } => String::from_str("SLURM Version assertion failed"),
            SlurmCheckError::VersionUnknown(_) => String::from_str("SLURM versioning failed"),
            SlurmCheckError::InvalidPartition { .. } => String::from_str("Invalid partition provided"),
            SlurmCheckError::QueueFull { scheduled, max_submit } => {
                let mut t = String::from_str("You cannot schedule any more runs currently, scheduled: ");
                t.append(u64_to_dec(*scheduled as u64).as_str());
                t.append(", max_submit: ");
                t.append(u64_to_dec(*max_submit as u64).as_str());
                t
            },
        };
        r
    }
}

/// The mail types that `sbatch --mail-type` accepts.
pub open spec fn is_mail_type(s: Seq<char>) -> bool {
    ||| s == "NONE"@
    ||| s == "BEGIN"@
    ||| s == "END"@
    ||| s == "FAIL"@
    ||| s == "REQUEUE"@
    ||| s == "ALL"@
    ||| s == "INVALID_DEPEND"@
    ||| s == "STAGE_OUT"@
    ||| s == "TIME_LIMIT"@
    ||| s == "TIME_LIMIT_90"@
    ||| s == "TIME_LIMIT_80"@
    ||| s == "TIME_LIMIT_50"@
    ||| s == "ARRAY_TASKS"@
}

fn text_is(s: &String, lit: &str) -> (b: bool)
    ensures
        b == (s@ == lit@),
{
    s.eq(&String::from_str(lit))
}

/// Whether `s` is a mail type that `sbatch` accepts.
pub fn is_valid_mail_type(s: &String) -> (b: bool)
    ensures
        b == is_mail_type(s@),
{
    text_is(s, "NONE") || text_is(s, "BEGIN") || text_is(s, "END") || text_is(s, "FAIL")
        || text_is(s, "REQUEUE") || text_is(s, "ALL") || text_is(s, "INVALID_DEPEND")
        || text_is(s, "STAGE_OUT") || text_is(s, "TIME_LIMIT") || text_is(s, "TIME_LIMIT_90")
        || text_is(s, "TIME_LIMIT_80") || text_is(s, "TIME_LIMIT_50") || text_is(s, "ARRAY_TASKS")
}

/// The line `#SBATCH --name=value`.
pub open spec fn sbatch_line(name: Seq<char>, value: Seq<char>) -> Seq<char> {
    "#SBATCH --"@ + name + "="@ + value + "\n"@
}

/// The line for an optional setting, or nothing where it is unset.
pub open spec fn opt_line(name: Seq<char>, value: Option<Seq<char>>) -> Seq<char> {
    match value {
        Some(v) => sbatch_line(name, v),
        None => Seq::empty(),
    }
}

/// The lines of the extra arguments, in order.
pub open spec fn args_lines(args: Seq<(Seq<char>, Seq<char>, Seq<char>)>) -> Seq<char>
    decreases args.len(),
{
    if args.len() == 0 {
        Seq::empty()
    } else {
        args_lines(args.drop_last()) + sbatch_line(args.last().1, args.last().2)
    }
}

/// The optional `#SBATCH` lines of a Slurm configuration: account, begin,
/// mail type, mail user, then the extra arguments.
pub open spec fn optional_args_text(c: SlurmConfig) -> Seq<char> {
    opt_line("account"@, opt_view(c.account)) + opt_line("begin"@, opt_view(c.begin))
        + opt_line("mail-type"@, opt_view(c.mail_type)) + opt_line("mail-user"@, opt_view(c.mail_user))
        + match args_view(c.additional_args) {
        Some(a) => args_lines(a),
        None => Seq::empty(),
    }
}

fn push_line(out: &mut String, name: &str, value: &str)
    ensures
        final(out)@ == old(out)@ + sbatch_line(name@, value@),
{
    out.append("#SBATCH --");
    out.append(name);
    out.append("=");
    out.append(value);
    out.append("\n");
}

fn push_opt_line(out: &mut String, name: &str, value: &Option<String>)
    ensures
        final(out)@ == old(out)@ + opt_line(name@, opt_view(*value)),
{
    match value {
        Some(v) => push_line(out, name, v.as_str()),
        None => {
            assert(old(out)@ + Seq::<char>::empty() =~= old(out)@);
        },
    }
}

/// Creates the optional `#SBATCH` lines of a Slurm configuration.
pub fn parse_optional_args(slurm_config: &SlurmConfig) -> (s: String)
    requires
        slurm_config.mail_type matches Some(t) ==> is_mail_type(t@),
    ensures
        s@ == optional_args_text(*slurm_config),
{
    let mut result = String::new();
    push_opt_line(&mut result, "account", &slurm_config.account);
    push_opt_line(&mut result, "begin", &slurm_config.begin);
    push_opt_line(&mut result, "mail-type", &slurm_config.mail_type);
    push_opt_line(&mut result, "mail-user", &slurm_config.mail_user);
    let ghost head = result@;
    match &slurm_config.additional_args {
        Some(args) => {
            let ghost a = args_view(slurm_config.additional_args)->0;
            let mut i: usize = 0;
            while i < args.len()
                invariant
                    i <= args.len(),
                    a == args@.map_values(|e: (String, crate::model::SBatchArg)| (e.0@, e.1.name@, e.1.value@)),
                    result@ == head + args_lines(a.take(i as int)),
                decreases args.len() - i,
            {
                push_line(&mut result, args[i].1.name.as_str(), args[i].1.value.as_str());
                proof {
                    assert(a.take(i + 1).drop_last() =~= a.take(i as int));
                }
                i = i + 1;
            }
            assert(a.take(args.len() as int) =~= a);
        },
        None => {
            assert(head + Seq::<char>::empty() =~= head);
        },
    }
    result
}

/// Gets the Slurm settings of a configuration.
///
/// Fails with `NoSlurmConfig` exactly when the configuration has none.
pub fn get_slurm_options_from_config(config: &Config) -> (r: Result<&SlurmConfig, SlurmCheckError>)
    ensures
        match config.slurm {
            Some(s) => r == Ok::<&SlurmConfig, SlurmCheckError>(&s),
            None => r == Err::<&SlurmConfig, SlurmCheckError>(SlurmCheckError::NoSlurmConfig),
        },
{
    match &config.slurm {
        Some(s) => Ok(s),
        None => Err(SlurmCheckError::NoSlurmConfig),
    }
}

} // verus!

verus! {

/// The Slurm versions, as `[major, minor]`, that the command-line interactor supports.
pub open spec fn supported_slurm_versions() -> Seq<(u64, u64)> {
    seq![(21, 8), (22, 5), (23, 2), (23, 11), (24, 5)]
}

/// The pairs `(major, minor)` of a list of versions.
pub open spec fn version_pairs(vs: Seq<[u64; 2]>) -> Seq<(u64, u64)> {
    vs.map_values(|v: [u64; 2]| (v[0], v[1]))
}

/// A version as `major.minor`.
pub open spec fn version_text(v: (u64, u64)) -> Seq<char> {
    dec(v.0 as nat) + "."@ + dec(v.1 as nat)
}

/// Versions as `major.minor`, separated by `, `.
pub open spec fn versions_text(vs: Seq<(u64, u64)>) -> Seq<char> {
    join(vs.map_values(|v: (u64, u64)| version_text(v)), ", "@)
}

/// Interacting with Slurm through its command-line programs.
#[derive(Debug)]
pub struct SlurmCli {
    /// Supported versions by this instance of the CLI interactor.
    pub versions: Vec<[u64; 2]>,
}

impl Default for SlurmCli {
    /// The interactor with the versions it is known to work with.
    fn default() -> (r: Self)
        ensures
            version_pairs(r.versions@) == supported_slurm_versions(),
    {
        let mut versions: Vec<[u64; 2]> = Vec::new();
        versions.push([21, 8]);
        versions.push([22, 5]);
        versions.push([23, 2]);
        versions.push([23, 11]);
        versions.push([24, 5]);
        let r = SlurmCli { versions };
        assert(version_pairs(r.versions@) =~= supported_slurm_versions());
        r
    }
}

fn version_string(v: &[u64; 2]) -> (s: String)
    ensures
        s@ == version_text((v[0], v[1])),
{
    let mut s = u64_to_dec(v[0]);
    s.append(".");
    s.append(u64_to_dec(v[1]).as_str());
    s
}

impl SlurmCli {
    /// Whether a version of Slurm is supported by this interactor.
    pub fn is_version_supported(&self, v: [u64; 2]) -> (b: bool)
        ensures
            b == version_pairs(self.versions@).contains((v[0], v[1])),
    {
        let ghost pairs = version_pairs(self.versions@);
        let mut i: usize = 0;
        while i < self.versions.len()
            invariant
                i <= self.versions.len(),
                pairs == version_pairs(self.versions@),
                forall|j: int| 0 <= j < i ==> pairs[j] != (v[0], v[1]),
            decreases self.versions.len() - i,
        {
            let w = &self.versions[i];
            if w[0] == v[0] && w[1] == v[1] {
                assert(pairs[i as int] == (v[0], v[1]));
                return true;
            }
            i = i + 1;
        }
        assert(!pairs.contains((v[0], v[1]))) by {
            if pairs.contains((v[0], v[1])) {
                let j = choose|j: int| 0 <= j < pairs.len() && pairs[j] == (v[0], v[1]);
                assert(pairs[j] != (v[0], v[1]));
            }
        }
        false
    }

    /// The supported versions, as `major.minor` separated by `, `.
    pub fn get_supported_versions(&self) -> (s: String)
        ensures
            s@ == versions_text(version_pairs(self.versions@)),
    {
        let mut parts: Vec<String> = Vec::new();
        let mut i: usize = 0;
        while i < self.versions.len()
            invariant
                i <= self.versions.len(),
                parts.len() == i,
                forall|j: int| 0 <= j < i ==> #[trigger] parts@[j]@ == version_text(version_pairs(self.versions@)[j]),
            decreases self.versions.len() - i,
        {
            let t = version_string(&self.versions[i as usize]);
            parts.push(t);
            i = i + 1;
        }
        let s = join_strings(&parts, ", ");
        assert(parts@.map_values(|p: String| p@) =~= version_pairs(self.versions@).map_values(|v: (u64, u64)| version_text(v)));
        s
    }

    /// Decides whether the cluster's Slurm version is fit to run on, given
    /// what reading the version gave: the version, or why it could not be read.
    pub fn check_version(&self, version: Result<[u64; 2], String>) -> (r: Result<(), SlurmCheckError>)
        ensures
            match version {
                Ok(v) => if version_pairs(self.versions@).contains((v[0], v[1])) {
                    r is Ok
                } else {
                    r matches Err(SlurmCheckError::UnsupportedVersion { found, supported })
                        && found@ == version_text((v[0], v[1]))
                        && supported@ == versions_text(version_pairs(self.versions@))
                },
                Err(e) => r matches Err(SlurmCheckError::VersionUnknown(m)) && m@ == e@,
            },
    {
        match version {
            Ok(v) => {
                if self.is_version_supported(v) {
                    Ok(())
                } else {
                    Err(SlurmCheckError::UnsupportedVersion {
                        found: version_string(&v),
                        supported: self.get_supported_versions(),
                    })
                }
            },
            Err(e) => Err(SlurmCheckError::VersionUnknown(e)),
        }
    }
}

} // verus!

verus! {

/// Why a limit that Slurm reported could not be read.
#[derive(Debug, Clone, Copy, PartialEq, Eq, Structural)]
pub enum LimitError {
    /// A pattern of the reader failed to compile.
    Pattern,
    /// A capture group that the pattern promises was missing.
    Group,
    /// A number did not fit in 64 bits or was not a number.
    Number,
    /// The duration does not fit in 64 bits of seconds.
    Overflow,
}

/// The forms Slurm writes a maximal wall time in.
#[derive(Debug, Clone, Copy, PartialEq, Eq, Structural)]
pub enum WallForm {
    /// `days-hours:minutes:seconds`
    DaysHms,
    /// `days-hours`
    DaysHours,
    /// `hours:minutes:seconds`
    Hms,
    /// `minutes:seconds`
    MinutesSeconds,
    /// `minutes`
    Minutes,
}

/// The pattern that recognises a form.
pub open spec fn form_pattern(f: WallForm) -> Seq<char> {
    match f {
        WallForm::DaysHms => "(\\d+)-(\\d+):(\\d+):(\\d+)"@,
        WallForm::DaysHours => "(\\d+)-(\\d+)"@,
        WallForm::Hms => "(\\d+):(\\d+):(\\d+)"@,
        WallForm::MinutesSeconds => "(\\d+):(\\d+)"@,
        WallForm::Minutes => "(\\d+)"@,
    }
}

/// How many numbers a form holds.
pub open spec fn form_arity(f: WallForm) -> nat {
    match f {
        WallForm::DaysHms => 4,
        WallForm::DaysHours => 2,
        WallForm::Hms => 3,
        WallForm::MinutesSeconds => 2,
        WallForm::Minutes => 1,
    }
}

/// The seconds that the numbers of a form stand for.
pub open spec fn form_secs(f: WallForm, v: Seq<nat>) -> nat {
    match f {
        WallForm::DaysHms => v[0] * 86400 + v[1] * 3600 + v[2] * 60 + v[3],
        WallForm::DaysHours => v[0] * 86400 + v[1] * 3600,
        WallForm::Hms => v[0] * 3600 + v[1] * 60 + v[2],
        WallForm::MinutesSeconds => v[0] * 60 + v[1],
        WallForm::Minutes => v[0] * 60,
    }
}

/// The numbers in groups `1..=n`, read in order; the first group that is
/// missing, or that is no number below 2^64, gives the error.
pub open spec fn group_numbers(groups: Seq<Option<Seq<char>>>, n: nat) -> Result<Seq<nat>, LimitError>
    decreases n,
{
    if n == 0 {
        Ok(Seq::empty())
    } else {
        match group_numbers(groups, (n - 1) as nat) {
            Err(e) => Err(e),
            Ok(vs) => if n < groups.len() && groups[n as int] is Some {
                match crate::text::parse_unsigned(groups[n as int]->0, u64::MAX as nat) {
                    Some(x) => Ok(vs.push(x)),
                    None => Err(LimitError::Number),
                }
            } else {
                Err(LimitError::Group)
            },
        }
    }
}

/// The seconds that the capture groups of a form stand for.
pub open spec fn wall_secs(f: WallForm, groups: Seq<Option<Seq<char>>>) -> Result<u64, LimitError> {
    match group_numbers(groups, form_arity(f)) {
        Err(e) => Err(e),
        Ok(vs) => if form_secs(f, vs) <= u64::MAX {
            Ok(form_secs(f, vs) as u64)
        } else {
            Err(LimitError::Overflow)
        },
    }
}

proof fn lemma_group_numbers_err(groups: Seq<Option<Seq<char>>>, m: nat, n: nat)
    requires
        m <= n,
        group_numbers(groups, m) is Err,
    ensures
        group_numbers(groups, n) == group_numbers(groups, m),
    decreases n,
{
    if m < n {
        lemma_group_numbers_err(groups, m, (n - 1) as nat);
    }
}

/// The seconds that the capture groups of a match of a form stand for.
pub fn secs_from_groups(form: WallForm, groups: &Vec<Option<String>>) -> (r: Result<u64, LimitError>)
    ensures
        r == wall_secs(form, crate::pattern::groups_view(groups@)),
{
    let ghost gv = crate::pattern::groups_view(groups@);
    let arity: usize = match form {
        WallForm::DaysHms => 4,
        WallForm::DaysHours => 2,
        WallForm::Hms => 3,
        WallForm::MinutesSeconds => 2,
        WallForm::Minutes => 1,
    };
    let mut vals: Vec<u64> = Vec::new();
    assert(vals@.map_values(|x: u64| x as nat) =~= Seq::<nat>::empty());
    let mut i: usize = 1;
    while i <= arity
        invariant
            1 <= i <= arity + 1,
            arity == form_arity(form),
            arity <= 4,
            gv == crate::pattern::groups_view(groups@),
            vals.len() == i - 1,
            group_numbers(gv, (i - 1) as nat) == Ok::<Seq<nat>, LimitError>(vals@.map_values(|x: u64| x as nat)),
        decreases arity + 1 - i,
    {
        assert(((i - 1) + 1) as nat == i as nat);
        if i < groups.len() {
            match &groups[i] {
                Some(t) => {
                    match crate::text::parse_u64_upto(t.as_str(), u64::MAX) {
                        Some(x) => {
                            let ghost before = vals@;
                            vals.push(x);
                            assert(vals@.map_values(|x: u64| x as nat) =~= before.map_values(|x: u64| x as nat).push(x as nat));
                        },
                        None => {
                            proof {
                                lemma_group_numbers_err(gv, i as nat, arity as nat);
                            }
                            return Err(LimitError::Number);
                        },
                    }
                },
                None => {
                    proof {
                        lemma_group_numbers_err(gv, i as nat, arity as nat);
                    }
                    return Err(LimitError::Group);
                },
            }
        } else {
            proof {
                lemma_group_numbers_err(gv, i as nat, arity as nat);
            }
            return Err(LimitError::Group);
        }
        i = i + 1;
    }
    let ghost vs = vals@.map_values(|x: u64| x as nat);
    let total: u128 = match form {
        WallForm::DaysHms => (vals[0] as u128) * 86400 + (vals[1] as u128) * 3600 + (vals[2] as u128) * 60
            + (vals[3] as u128),
        WallForm::DaysHours => (vals[0] as u128) * 86400 + (vals[1] as u128) * 3600,
        WallForm::Hms => (vals[0] as u128) * 3600 + (vals[1] as u128) * 60 + (vals[2] as u128),
        WallForm::MinutesSeconds => (vals[0] as u128) * 60 + (vals[1] as u128),
        WallForm::Minutes => (vals[0] as u128) * 60,
    };
    assert(total == form_secs(form, vs));
    if total > u64::MAX as u128 {
        Err(LimitError::Overflow)
    } else {
        Ok(total as u64)
    }
}

/// The seconds of the first form whose pattern matches the limit, in the
/// order days-h:m:s, days-h, h:m:s, m:s, minutes; no limit where not even a
/// number is found.
pub open spec fn max_wall_time(t: Seq<char>) -> Result<Option<u64>, LimitError> {
    if !(regex_compiles(form_pattern(WallForm::DaysHms)) && regex_compiles(form_pattern(WallForm::DaysHours))
        && regex_compiles(form_pattern(WallForm::Hms)) && regex_compiles(form_pattern(WallForm::MinutesSeconds))
        && regex_compiles(form_pattern(WallForm::Minutes))) {
        Err(LimitError::Pattern)
    } else {
        let f = if regex_search(form_pattern(WallForm::DaysHms), t) {
            WallForm::DaysHms
        } else if regex_search(form_pattern(WallForm::DaysHours), t) {
            WallForm::DaysHours
        } else if regex_search(form_pattern(WallForm::Hms), t) {
            WallForm::Hms
        } else if regex_search(form_pattern(WallForm::MinutesSeconds), t) {
            WallForm::MinutesSeconds
        } else {
            WallForm::Minutes
        };
        match regex_groups(form_pattern(f), t) {
            None => Ok(None),
            Some(g) => match wall_secs(f, g) {
                Ok(s) => Ok(Some(s)),
                Err(e) => Err(e),
            },
        }
    }
}

fn secs_of_match(form: WallForm, p: &Pattern, time: &str) -> (r: Result<Option<u64>, LimitError>)
    requires
        p@ == form_pattern(form),
    ensures
        r == match regex_groups(form_pattern(form), time@) {
            None => Ok(None),
            Some(g) => match wall_secs(form, g) {
                Ok(s) => Ok(Some(s)),
                Err(e) => Err(e),
            },
        },
{
    match pattern_captures(p, time) {
        None => Ok(None),
        Some(g) => match secs_from_groups(form, &g) {
            Ok(s) => Ok(Some(s)),
            Err(e) => Err(e),
        },
    }
}

/// Reads Slurm's `MaxWallDurationPerJob` limit: whole seconds, or `None`
/// where the limit holds no number (no limit).
pub fn max_time_from_limit(time: &str) -> (r: Result<Option<u64>, LimitError>)
    ensures
        r == max_wall_time(time@),
{
    let a = compile_pattern("(\\d+)-(\\d+):(\\d+):(\\d+)");
    let b = compile_pattern("(\\d+)-(\\d+)");
    let c = compile_pattern("(\\d+):(\\d+):(\\d+)");
    let d = compile_pattern("(\\d+):(\\d+)");
    let e = compile_pattern("(\\d+)");
    match (a, b, c, d, e) {
        (Some(a), Some(b), Some(c), Some(d), Some(e)) => {
            if pattern_is_match(&a, time) {
                secs_of_match(WallForm::DaysHms, &a, time)
            } else if pattern_is_match(&b, time) {
                secs_of_match(WallForm::DaysHours, &b, time)
            } else if pattern_is_match(&c, time) {
                secs_of_match(WallForm::Hms, &c, time)
            } else if pattern_is_match(&d, time) {
                secs_of_match(WallForm::MinutesSeconds, &d, time)
            } else {
                secs_of_match(WallForm::Minutes, &e, time)
            }
        },
        _ => Err(LimitError::Pattern),
    }
}

} // verus!

verus! {

/// The submission loop after Slurm answered the `sbatch` of a chunk: an
/// accepted chunk is counted and the loop goes on; a refused one stops it,
/// with the chunks accepted so far.
pub fn after_sbatch(accepted: usize, ok: bool) -> (r: (usize, bool))
    requires
        accepted < usize::MAX,
    ensures
        r.0 == if ok {
            accepted + 1
        } else {
            accepted as int
        },
        r.1 == ok,
{
    if ok {
        (accepted + 1, true)
    } else {
        (accepted, false)
    }
}

/// Whether some row of the table starts with `p`.
pub open spec fn lists_partition(rows: Seq<Seq<Seq<char>>>, p: Seq<char>) -> bool {
    exists|i: int| 0 <= i < rows.len() && rows[i].len() > 0 && #[trigger] rows[i][0] == p
}

/// Functionality associated with running on Slurm.
#[derive(Debug)]
pub struct SlurmHandler {
    /// The way of interaction with Slurm.
    pub internal: SlurmCli,
}

impl Default for SlurmHandler {
    /// A handler over the default command-line interactor.
    fn default() -> (r: Self)
        ensures
            version_pairs(r.internal.versions@) == supported_slurm_versions(),
    {
        SlurmHandler { internal: SlurmCli::default() }
    }
}

impl SlurmHandler {
    /// Checks that `partition` is one of the cluster's partitions, given the
    /// table of partitions that Slurm lists (one row per partition, its name first).
    pub fn check_partition(&self, partitions: Vec<Vec<String>>, partition: &str) -> (r: Result<(), SlurmCheckError>)
        requires
            lists_partition(crate::printing::table_view(partitions@), partition@)
                || crate::printing::rows_fit_first(crate::printing::table_view(partitions@)),
        ensures
            lists_partition(crate::printing::table_view(partitions@), partition@) ==> r is Ok,
            !lists_partition(crate::printing::table_view(partitions@), partition@) ==> (r matches Err(
                SlurmCheckError::InvalidPartition { partition: p, present },
            ) && p@ == partition@ && present@ == (if partitions.len() == 0 {
                Seq::<char>::empty()
            } else {
                crate::text::trim(
                    crate::printing::table_lines(crate::printing::table_view(partitions@), partitions.len() as nat),
                )
            })),
    {
        let ghost rows = crate::printing::table_view(partitions@);
        let mut i: usize = 0;
        while i < partitions.len()
            invariant
                i <= partitions.len(),
                rows == crate::printing::table_view(partitions@),
                forall|j: int| 0 <= j < i ==> !(rows[j].len() > 0 && #[trigger] rows[j][0] == partition@),
            decreases partitions.len() - i,
        {
            if partitions[i].len() > 0 {
                let first = &partitions[i][0];
                assert(rows[i as int][0] == first@);
                if first.eq(&String::from_str(partition)) {
                    return Ok(());
                }
            }
            i = i + 1;
        }
        assert(!lists_partition(rows, partition@));
        Err(SlurmCheckError::InvalidPartition {
            partition: String::from_str(partition),
            present: crate::printing::format_table(partitions),
        })
    }

    /// How many runs each chunk may hold and how many chunks to schedule now,
    /// given the largest array Slurm takes, the submissions allowed, and the
    /// jobs the user has already scheduled.
    ///
    /// Fails with `QueueFull` where nothing more can be submitted.
    pub fn submission_plan(&self, max_array_size: usize, max_submit: usize, scheduled: usize) -> (r: Result<(usize, usize), SlurmCheckError>)
        requires
            scheduled <= max_submit,
            max_submit - scheduled > 0 ==> max_array_size > 0,
        ensures
            max_submit == scheduled ==> r == Err::<(usize, usize), SlurmCheckError>(
                SlurmCheckError::QueueFull { scheduled, max_submit },
            ),
            max_submit > scheduled ==> ({
                let capacity = max_submit - scheduled;
                let size = if max_array_size < capacity { max_array_size as int } else { capacity };
                r == Ok::<(usize, usize), SlurmCheckError>((size as usize, (capacity / size) as usize))
            }),
    {
        let capacity = max_submit - scheduled;
        if capacity == 0 {
            return Err(SlurmCheckError::QueueFull { scheduled, max_submit });
        }
        let max_chunk_size = if max_array_size < capacity {
            max_array_size
        } else {
            capacity
        };
        Ok((max_chunk_size, capacity / max_chunk_size))
    }
}

/// The text `{:?}` gives for a string: quoted, with characters escaped.
pub uninterp spec fn debug_quoted(s: Seq<char>) -> Seq<char>;

/// The debug rendering of a string.
///
/// Calls `<str as Debug>::fmt` through `format!`. Claims only that the result
/// is `debug_quoted` of the text, which depends on the text alone.
#[verifier::external_body]
fn debug_text(s: &str) -> (r: String)
    ensures
        r@ == debug_quoted(s@),
{
    format!("{:?}", s)
}

/// The batch script that submits a chunk to Slurm as an array of `tasks`
/// tasks; each task runs the wrapper on the experiment file for its place in
/// chunk `index`.
pub open spec fn sbatch_script(
    config: SlurmConfig,
    tasks: nat,
    limits: crate::model::ResourceLimits,
    out: Seq<char>,
    err: Seq<char>,
    wrapper: Seq<char>,
    exp_path: Seq<char>,
    index: nat,
) -> Seq<char> {
    "#!/bin/bash\n#SBATCH --job-name=\""@ + config.experiment_name@ + "\"\n#SBATCH --array=\"0-"@
        + dec((tasks - 1) as nat) + "\"\n#SBATCH --ntasks=1\n#SBATCH --partition=\""@
        + config.partition@ + "\"\n#SBATCH --time=\""@
        + crate::duration::slurm_duration_text(limits.time_limit_secs as nat)
        + "\"\n#SBATCH --cpus-per-task=\""@ + dec(limits.cpus as nat)
        + "\"\n#SBATCH --mem-per-cpu=\""@ + dec(limits.mem_per_cpu as nat) + "\"\n#SBATCH --output="@
        + debug_quoted(out) + "\n#SBATCH --error="@ + debug_quoted(err) + "\n"@
        + optional_args_text(config) + "\nset -x\n\n"@ + wrapper + " "@ + exp_path + " "@ + dec(index)
        + " $SLURM_ARRAY_TASK_ID\n"@
}

/// The `#SBATCH` line that asks for `mem` megabytes per CPU.
pub open spec fn mem_line(mem: nat) -> Seq<char> {
    "#SBATCH --mem-per-cpu=\""@ + dec(mem) + "\"\n"@
}

/// The `#SBATCH` line that asks for `cpus` CPUs per task.
pub open spec fn cpus_line(cpus: nat) -> Seq<char> {
    "#SBATCH --cpus-per-task=\""@ + dec(cpus) + "\"\n"@
}

/// The `#SBATCH` line that asks for an array of `tasks` tasks.
pub open spec fn array_line(tasks: nat) -> Seq<char> {
    "#SBATCH --array=\"0-"@ + dec((tasks - 1) as nat) + "\"\n"@
}

/// The `#SBATCH` line that asks for `secs` seconds of wall time.
pub open spec fn time_line(secs: nat) -> Seq<char> {
    "#SBATCH --time=\""@ + crate::duration::slurm_duration_text(secs) + "\"\n"@
}

proof fn lemma_contains_extend(x: Seq<char>, y: Seq<char>, t: Seq<char>)
    requires
        crate::text::contains_text(x, t),
    ensures
        crate::text::contains_text(x + y, t),
{
    let i = choose|i: int| 0 <= i && i + t.len() <= x.len() && #[trigger] x.subrange(i, i + t.len()) == t;
    assert((x + y).subrange(i, i + t.len()) =~= x.subrange(i, i + t.len()));
}

/// The part of the batch script up to the memory per CPU.
pub open spec fn script_head(config: SlurmConfig, tasks: nat, limits: crate::model::ResourceLimits) -> Seq<char> {
    "#!/bin/bash\n#SBATCH --job-name=\""@ + config.experiment_name@ + "\"\n#SBATCH --array=\"0-"@
        + dec((tasks - 1) as nat) + "\"\n#SBATCH --ntasks=1\n#SBATCH --partition=\""@
        + config.partition@ + "\"\n#SBATCH --time=\""@
        + crate::duration::slurm_duration_text(limits.time_limit_secs as nat)
}

proof fn lemma_script_tail(
    config: SlurmConfig,
    tasks: nat,
    limits: crate::model::ResourceLimits,
    out: Seq<char>,
    err: Seq<char>,
    wrapper: Seq<char>,
    exp_path: Seq<char>,
    index: nat,
    t: Seq<char>,
)
    requires
        crate::text::contains_text(
            script_head(config, tasks, limits) + "\"\n#SBATCH --cpus-per-task=\""@ + dec(limits.cpus as nat)
                + "\"\n#SBATCH --mem-per-cpu=\""@ + dec(limits.mem_per_cpu as nat) + "\"\n#SBATCH --output="@,
            t,
        ),
    ensures
        crate::text::contains_text(sbatch_script(config, tasks, limits, out, err, wrapper, exp_path, index), t),
{
    let s1 = script_head(config, tasks, limits) + "\"\n#SBATCH --cpus-per-task=\""@ + dec(limits.cpus as nat)
        + "\"\n#SBATCH --mem-per-cpu=\""@ + dec(limits.mem_per_cpu as nat) + "\"\n#SBATCH --output="@;
    let s2 = s1 + debug_quoted(out);
    lemma_contains_extend(s1, debug_quoted(out), t);
    let s3 = s2 + "\n#SBATCH --error="@;
    lemma_contains_extend(s2, "\n#SBATCH --error="@, t);
    let s4 = s3 + debug_quoted(err);
    lemma_contains_extend(s3, debug_quoted(err), t);
    let s5 = s4 + "\n"@;
    lemma_contains_extend(s4, "\n"@, t);
    let s6 = s5 + optional_args_text(config);
    lemma_contains_extend(s5, optional_args_text(config), t);
    let s7 = s6 + "\nset -x\n\n"@;
    lemma_contains_extend(s6, "\nset -x\n\n"@, t);
    let s8 = s7 + wrapper;
    lemma_contains_extend(s7, wrapper, t);
    let s9 = s8 + " "@;
    lemma_contains_extend(s8, " "@, t);
    let s10 = s9 + exp_path;
    lemma_contains_extend(s9, exp_path, t);
    let s11 = s10 + " "@;
    lemma_contains_extend(s10, " "@, t);
    let s12 = s11 + dec(index);
    lemma_contains_extend(s11, dec(index), t);
    let s13 = s12 + " $SLURM_ARRAY_TASK_ID\n"@;
    lemma_contains_extend(s12, " $SLURM_ARRAY_TASK_ID\n"@, t);
    assert(s13 == sbatch_script(config, tasks, limits, out, err, wrapper, exp_path, index));
}

/// The batch script asks for the chunk's CPUs per task and its memory per
/// CPU each as they are: the memory line holds the memory per CPU, whatever
/// the number of CPUs, and the CPU line the number of CPUs. It asks for an
/// array of one task per job of the chunk, and for the chunk's wall time.
pub proof fn lemma_script_asks_limits(
    config: SlurmConfig,
    tasks: nat,
    limits: crate::model::ResourceLimits,
    out: Seq<char>,
    err: Seq<char>,
    wrapper: Seq<char>,
    exp_path: Seq<char>,
    index: nat,
)
    ensures
        crate::text::contains_text(sbatch_script(config, tasks, limits, out, err, wrapper, exp_path, index), mem_line(limits.mem_per_cpu as nat)),
        crate::text::contains_text(sbatch_script(config, tasks, limits, out, err, wrapper, exp_path, index), cpus_line(limits.cpus as nat)),
        crate::text::contains_text(sbatch_script(config, tasks, limits, out, err, wrapper, exp_path, index), array_line(tasks)),
        crate::text::contains_text(
            sbatch_script(config, tasks, limits, out, err, wrapper, exp_path, index),
            time_line(limits.time_limit_secs as nat),
        ),
{
    reveal_strlit("\"\n#SBATCH --cpus-per-task=\"");
    reveal_strlit("\"\n#SBATCH --mem-per-cpu=\"");
    reveal_strlit("\"\n#SBATCH --output=");
    reveal_strlit("#SBATCH --mem-per-cpu=\"");
    reveal_strlit("#SBATCH --cpus-per-task=\"");
    reveal_strlit("#SBATCH --output=");
    reveal_strlit("\"\n");
    let h = script_head(config, tasks, limits);
    let dc = dec(limits.cpus as nat);
    let dm = dec(limits.mem_per_cpu as nat);
    let c = cpus_line(limits.cpus as nat);
    let m = mem_line(limits.mem_per_cpu as nat);
    let lc = "\"\n#SBATCH --cpus-per-task=\""@;
    let lm = "\"\n#SBATCH --mem-per-cpu=\""@;
    let lo = "\"\n#SBATCH --output="@;
    let s1 = h + lc + dc + lm + dm + lo;
    let y = h + "\"\n"@;
    assert(s1 =~= y + c + m + "#SBATCH --output="@);
    let a = y.len() as int;
    let b = a + c.len();
    assert(s1.subrange(a, b) =~= c);
    assert(s1.subrange(b, b + m.len()) =~= m);
    lemma_script_tail(config, tasks, limits, out, err, wrapper, exp_path, index, m);
    lemma_script_tail(config, tasks, limits, out, err, wrapper, exp_path, index, c);
    reveal_strlit("#!/bin/bash\n#SBATCH --job-name=\"");
    reveal_strlit("\"\n#SBATCH --array=\"0-");
    reveal_strlit("\"\n#SBATCH --ntasks=1\n#SBATCH --partition=\"");
    reveal_strlit("\"\n#SBATCH --time=\"");
    reveal_strlit("#SBATCH --array=\"0-");
    reveal_strlit("#SBATCH --ntasks=1\n#SBATCH --partition=\"");
    reveal_strlit("#SBATCH --time=\"");
    let dt = dec((tasks - 1) as nat);
    let tt = crate::duration::slurm_duration_text(limits.time_limit_secs as nat);
    let al = array_line(tasks);
    let tl = time_line(limits.time_limit_secs as nat);
    let p0 = "#!/bin/bash\n#SBATCH --job-name=\""@ + config.experiment_name@ + "\"\n"@;
    let p1 = "#SBATCH --ntasks=1\n#SBATCH --partition=\""@ + config.partition@ + "\"\n"@;
    let p2 = "#SBATCH --cpus-per-task=\""@ + dc + lm + dm + lo;
    assert(s1 =~= p0 + al + p1 + tl + p2);
    let a0 = p0.len() as int;
    assert(s1.subrange(a0, a0 + al.len()) =~= al);
    let a1 = a0 + al.len() + p1.len();
    assert(s1.subrange(a1, a1 + tl.len()) =~= tl);
    lemma_script_tail(config, tasks, limits, out, err, wrapper, exp_path, index, al);
    lemma_script_tail(config, tasks, limits, out, err, wrapper, exp_path, index, tl);
}

impl SlurmCli {
    /// Records a chunk in the experiment and writes the batch script that
    /// submits it; `slurm_out` and `slurm_err` are the paths of its output
    /// files, with `%A` and `%a` for the array and task ids.
    pub fn chunk_script(
        &self,
        slurm_config: &SlurmConfig,
        chunk: &crate::chunks::Chunk,
        experiment: &mut crate::model::Experiment,
        slurm_out: &str,
        slurm_err: &str,
        exp_path: &str,
    ) -> (script: String)
        requires
            chunk@.0.len() > 0,
            old(experiment).chunks.len() < usize::MAX,
            slurm_config.mail_type matches Some(t) ==> is_mail_type(t@),
        ensures
            crate::chunks::chunks_view(final(experiment).chunks@) == crate::chunks::chunks_view(
                old(experiment).chunks@,
            ).push(chunk@.0),
            final(experiment).runs == old(experiment).runs,
            final(experiment).programs == old(experiment).programs,
            crate::model::same_setup(*final(experiment), *old(experiment)),
            script@ == sbatch_script(
                *slurm_config,
                chunk@.0.len(),
                chunk@.1,
                slurm_out@,
                slurm_err@,
                old(experiment).wrapper@,
                exp_path@,
                old(experiment).chunks.len() as nat,
            ),
            crate::text::contains_text(script@, mem_line(chunk@.1.mem_per_cpu as nat)),
            crate::text::contains_text(script@, cpus_line(chunk@.1.cpus as nat)),
            crate::text::contains_text(script@, array_line(chunk@.0.len())),
            crate::text::contains_text(script@, time_line(chunk@.1.time_limit_secs as nat)),
    {
        proof {
            lemma_script_asks_limits(
                *slurm_config,
                chunk@.0.len(),
                chunk@.1,
                slurm_out@,
                slurm_err@,
                old(experiment).wrapper@,
                exp_path@,
                old(experiment).chunks.len() as nat,
            );
        }
        let resource_limits = chunk.limits();
        let wrapper = experiment.wrapper.clone();
        let jobs = chunk.jobs();
        let chunk_index = crate::chunks::register_runs(experiment, jobs);
        let optional_args = parse_optional_args(slurm_config);
        let mut s = String::from_str("#!/bin/bash\n#SBATCH --job-name=\"");
        s.append(slurm_config.experiment_name.as_str());
        s.append("\"\n#SBATCH --array=\"0-");
        s.append(u64_to_dec((jobs.len() - 1) as u64).as_str());
        s.append("\"\n#SBATCH --ntasks=1\n#SBATCH --partition=\"");
        s.append(slurm_config.partition.as_str());
        s.append("\"\n#SBATCH --time=\"");
        s.append(crate::duration::format_slurm_duration_secs(resource_limits.time_limit_secs).as_str());
        s.append("\"\n#SBATCH --cpus-per-task=\"");
        s.append(u64_to_dec(resource_limits.cpus as u64).as_str());
        s.append("\"\n#SBATCH --mem-per-cpu=\"");
        s.append(u64_to_dec(resource_limits.mem_per_cpu as u64).as_str());
        s.append("\"\n#SBATCH --output=");
        s.append(debug_text(slurm_out).as_str());
        s.append("\n#SBATCH --error=");
        s.append(debug_text(slurm_err).as_str());
        s.append("\n");
        s.append(optional_args.as_str());
        s.append("\nset -x\n\n");
        s.append(wrapper.as_str());
        s.append(" ");
        s.append(exp_path);
        s.append(" ");
        s.append(u64_to_dec(chunk_index as u64).as_str());
        s.append(" $SLURM_ARRAY_TASK_ID\n");
        s
    }
}

} // verus!

verus! {

/// The index of the first line, from `i` on, that holds `field`.
pub open spec fn first_hit_from(ls: Seq<Seq<char>>, field: Seq<char>, i: int) -> Option<int>
    decreases ls.len() - i,
{
    if i < 0 || i >= ls.len() {
        None
    } else if crate::text::contains_text(ls[i], field) {
        Some(i)
    } else {
        first_hit_from(ls, field, i + 1)
    }
}

/// The value of `field` in the output of `scontrol show config`: the text
/// after the first `=` of the first line that holds the field's name, trimmed;
/// `None` where no line holds it or that line has no `=`.
pub open spec fn scontrol_field(out: Seq<char>, field: Seq<char>) -> Option<Seq<char>> {
    let ls = crate::text::split_on(out, '\n');
    match first_hit_from(ls, field, 0) {
        None => None,
        Some(j) => {
            let pieces = crate::text::split_on(ls[j], '=');
            if pieces.len() >= 2 {
                Some(crate::text::trim(pieces[1]))
            } else {
                None
            }
        },
    }
}

/// Finds the value of a field in the output of `scontrol show config`.
pub fn scontrol_value(output: &str, field: &str) -> (r: Option<String>)
    ensures
        match r {
            Some(v) => scontrol_field(output@, field@) == Some(v@),
            None => scontrol_field(output@, field@) is None,
        },
{
    let lines = crate::text::split_char(output, '\n');
    let ghost ls = crate::text::split_on(output@, '\n');
    let mut i: usize = 0;
    while i < lines.len()
        invariant
            i <= lines.len(),
            lines@.map_values(|p: String| p@) == ls,
            ls == crate::text::split_on(output@, '\n'),
            first_hit_from(ls, field@, 0) == first_hit_from(ls, field@, i as int),
        decreases lines.len() - i,
    {
        assert(ls[i as int] == lines[i as int]@);
        if crate::text::contains_str(lines[i].as_str(), field) {
            assert(first_hit_from(ls, field@, i as int) == Some(i as int));
            let pieces = crate::text::split_char(lines[i].as_str(), '=');
            assert(crate::text::split_on(ls[i as int], '=') == pieces@.map_values(|p: String| p@));
            if pieces.len() >= 2 {
                assert(crate::text::split_on(ls[i as int], '=')[1] == pieces[1]@);
                return Some(crate::text::trim_str(pieces[1].as_str()));
            }
            return None;
        }
        i = i + 1;
    }
    None
}

/// A limit as Slurm reports it: the number, or no limit (`usize::MAX`) where
/// the text is not a number.
pub fn limit_or_unbounded(text: &str) -> (r: usize)
    ensures
        r == match crate::text::parse_unsigned(text@, usize::MAX as nat) {
            Some(v) => v as usize,
            None => usize::MAX,
        },
{
    match crate::text::parse_u64_upto(text, usize::MAX as u64) {
        Some(v) => v as usize,
        None => usize::MAX,
    }
}

/// The per-user submission limit of the quality of service, as `sacctmgr`
/// lists it: `None` where it lists nothing, else its first word read as a
/// number (`Some(None)` where that word is not one).
pub fn qos_submit_limit(out: &str) -> (r: Option<Option<usize>>)
    ensures
        crate::text::words(out@).len() == 0 ==> r is None,
        crate::text::words(out@).len() > 0 ==> r == Some(
            match crate::text::parse_unsigned(crate::text::words(out@)[0], usize::MAX as nat) {
                Some(v) => Some(v as usize),
                None => None::<usize>,
            },
        ),
{
    let words = crate::text::split_words(out);
    if words.len() == 0 {
        None
    } else {
        assert(words@[0]@ == crate::text::words(out@)[0]);
        match crate::text::parse_u64_upto(words[0].as_str(), usize::MAX as u64) {
            Some(v) => Some(Some(v as usize)),
            None => Some(None),
        }
    }
}

/// The numbers of the version that `sinfo --version` prints: the numeric
/// runs of its second word. `None` where there is no second word or a run is
/// not a 64-bit number.
pub open spec fn version_numbers_of(out: Seq<char>) -> Option<Seq<nat>> {
    let w = crate::text::words(out);
    if w.len() < 2 {
        None
    } else {
        let runs = crate::text::numeric_runs(w[1]);
        if forall|k: int| 0 <= k < runs.len() ==> #[trigger] crate::text::parse_unsigned(runs[k], u64::MAX as nat) is Some {
            Some(runs.map_values(|r: Seq<char>| crate::text::parse_unsigned(r, u64::MAX as nat)->0))
        } else {
            None
        }
    }
}

/// Reads the numbers of the version that `sinfo --version` printed.
pub fn version_numbers(out: &str) -> (r: Option<Vec<u64>>)
    ensures
        match r {
            Some(v) => version_numbers_of(out@) == Some(v@.map_values(|x: u64| x as nat)),
            None => version_numbers_of(out@) is None,
        },
{
    let w = crate::text::split_words(out);
    if w.len() < 2 {
        return None;
    }
    assert(crate::text::words(out@)[1] == w@[1]@);
    let runs = crate::text::split_numeric_runs(w[1].as_str());
    let ghost rv = crate::text::numeric_runs(w@[1]@);
    let mut nums: Vec<u64> = Vec::new();
    let mut i: usize = 0;
    while i < runs.len()
        invariant
            i <= runs.len(),
            runs@.map_values(|p: String| p@) == rv,
            rv == crate::text::numeric_runs(crate::text::words(out@)[1]),
            crate::text::words(out@).len() >= 2,
            nums.len() == i,
            forall|k: int| 0 <= k < i ==> #[trigger] crate::text::parse_unsigned(rv[k], u64::MAX as nat) == Some(nums@[k] as nat),
        decreases runs.len() - i,
    {
        assert(rv[i as int] == runs@[i as int]@);
        match crate::text::parse_u64_upto(runs[i].as_str(), u64::MAX) {
            Some(x) => nums.push(x),
            None => {
                assert(!(crate::text::parse_unsigned(rv[i as int], u64::MAX as nat) is Some));
                return None;
            },
        }
        i = i + 1;
    }
    assert(nums@.map_values(|x: u64| x as nat) =~= rv.map_values(|r: Seq<char>| crate::text::parse_unsigned(r, u64::MAX as nat)->0));
    Some(nums)
}

/// The `[major, minor]` of a version's numbers; `None` where there are fewer than two.
pub fn version_of_numbers(nums: &Vec<u64>) -> (r: Option<[u64; 2]>)
    ensures
        nums.len() >= 2 ==> (r matches Some(v) && v[0] == nums[0] && v[1] == nums[1]),
        nums.len() < 2 ==> r is None,
{
    if nums.len() >= 2 {
        let v = [nums[0], nums[1]];
        assert(v[0] == nums[0] && v[1] == nums[1]);
        Some(v)
    } else {
        None
    }
}

/// The table of partitions that `sinfo -o "%P %a"` prints: one row per line,
/// the line's words as cells.
pub fn partition_table(out: &str) -> (r: Vec<Vec<String>>)
    ensures
        crate::printing::table_view(r@) == crate::text::split_on(out@, '\n').map_values(|l: Seq<char>| crate::text::words(l)),
{
    let lines = crate::text::split_char(out, '\n');
    let ghost ls = crate::text::split_on(out@, '\n');
    let mut rows: Vec<Vec<String>> = Vec::new();
    let mut i: usize = 0;
    while i < lines.len()
        invariant
            i <= lines.len(),
            lines@.map_values(|p: String| p@) == ls,
            rows.len() == i,
            forall|k: int| 0 <= k < i ==> (#[trigger] rows@[k])@.map_values(|c: String| c@) == crate::text::words(ls[k]),
        decreases lines.len() - i,
    {
        assert(ls[i as int] == lines@[i as int]@);
        let row = crate::text::split_words(lines[i].as_str());
        rows.push(row);
        i = i + 1;
    }
    assert(crate::printing::table_view(rows@) =~= ls.map_values(|l: Seq<char>| crate::text::words(l)));
    rows
}

/// The ids `{job}_{task}` of the jobs `squeue` lists, one per line as
/// `job task`; `None` where a line has fewer than two words.
pub open spec fn queued_ids(out: Seq<char>) -> Option<Seq<Seq<char>>> {
    let ls = crate::text::lines_of(out);
    if forall|k: int| 0 <= k < ls.len() ==> #[trigger] crate::text::words(ls[k]).len() >= 2 {
        Some(ls.map_values(|l: Seq<char>| crate::text::words(l)[0] + seq!['_'] + crate::text::words(l)[1]))
    } else {
        None
    }
}

/// Reads the ids of the scheduled jobs from the output of `squeue`.
pub fn scheduled_job_ids(out: &str) -> (r: Option<Vec<String>>)
    ensures
        match r {
            Some(v) => queued_ids(out@) == Some(v@.map_values(|s: String| s@)),
            None => queued_ids(out@) is None,
        },
{
    let lines = crate::text::split_lines(out);
    let ghost ls = crate::text::lines_of(out@);
    let mut ids: Vec<String> = Vec::new();
    let mut i: usize = 0;
    while i < lines.len()
        invariant
            i <= lines.len(),
            lines@.map_values(|p: String| p@) == ls,
            ls == crate::text::lines_of(out@),
            ids.len() == i,
            forall|k: int| 0 <= k < i ==> #[trigger] crate::text::words(ls[k]).len() >= 2,
            forall|k: int| 0 <= k < i ==> #[trigger] ids@[k]@ == crate::text::words(ls[k])[0] + seq!['_']
                + crate::text::words(ls[k])[1],
        decreases lines.len() - i,
    {
        assert(ls[i as int] == lines@[i as int]@);
        let w = crate::text::split_words(lines[i].as_str());
        assert(w@.map_values(|p: String| p@) == crate::text::words(ls[i as int]));
        if w.len() < 2 {
            assert(crate::text::words(ls[i as int]).len() < 2);
            return None;
        }
        assert(crate::text::words(ls[i as int])[0] == w@[0]@);
        assert(crate::text::words(ls[i as int])[1] == w@[1]@);
        let mut id = w[0].clone();
        crate::text::push_char(&mut id, '_');
        id.append(w[1].as_str());
        ids.push(id);
        i = i + 1;
    }
    assert(ids@.map_values(|s: String| s@) =~= ls.map_values(
        |l: Seq<char>| crate::text::words(l)[0] + seq!['_'] + crate::text::words(l)[1],
    ));
    Some(ids)
}

/// The number of jobs `squeue` lists: its number of lines.
pub fn scheduled_count_of(out: &str) -> (n: usize)
    ensures
        n == crate::text::lines_of(out@).len(),
{
    let lines = crate::text::split_lines(out);
    lines.len()
}

/// One job as `sacct` reports it.
#[derive(Debug, Clone, PartialEq, Eq)]
pub struct SacctOutput {
    /// The job id.
    pub job_id: String,
    /// The job name.
    pub job_name: String,
    /// The state Slurm reports.
    pub state: String,
    /// The exit code Slurm gives the job.
    pub slurm_exit_code: i64,
    /// The exit code of the program.
    pub program_exit_code: i64,
}

/// A number as `sacct` writes an exit code, or zero where it is none.
pub open spec fn code_or_zero(s: Seq<char>) -> int {
    match crate::text::parse_signed(s) {
        Some(v) => v,
        None => 0,
    }
}

/// Whether a line of `sacct -p` output holds a job: four `|`-separated
/// fields, the fourth of the form `slurm:program`.
pub open spec fn sacct_line_ok(l: Seq<char>) -> bool {
    let f = crate::text::split_on(l, '|');
    f.len() >= 4 && crate::text::split_on(f[3], ':').len() >= 2
}

/// Whether `row` is what a line of `sacct -p` output says.
pub open spec fn sacct_row(l: Seq<char>, row: SacctOutput) -> bool {
    let f = crate::text::split_on(l, '|');
    let codes = crate::text::split_on(f[3], ':');
    &&& row.job_id@ == f[0]
    &&& row.job_name@ == f[1]
    &&& row.state@ == f[2]
    &&& row.slurm_exit_code == code_or_zero(codes[0])
    &&& row.program_exit_code == code_or_zero(codes[1])
}

/// The exit codes of a job row are the numbers on either side of the `:` in
/// the fourth field of its line: Slurm's code before it, the program's after
/// it; a code written in decimal digits is read as that number.
pub proof fn lemma_sacct_exit_codes(l: Seq<char>, row: SacctOutput, a: nat, b: nat)
    requires
        sacct_line_ok(l),
        sacct_row(l, row),
        crate::text::split_on(crate::text::split_on(l, '|')[3], ':')[0] == dec(a),
        crate::text::split_on(crate::text::split_on(l, '|')[3], ':')[1] == dec(b),
        a <= 0x7fff_ffff_ffff_ffff,
        b <= 0x7fff_ffff_ffff_ffff,
    ensures
        row.slurm_exit_code == a,
        row.program_exit_code == b,
{
    crate::text::lemma_dec_reads_back(a);
    crate::text::lemma_dec_reads_back(b);
    crate::text::lemma_dec_parses(a, 0x7fff_ffff_ffff_ffff);
    crate::text::lemma_dec_parses(b, 0x7fff_ffff_ffff_ffff);
    assert(crate::text::is_digit(dec(a)[0]));
    assert(crate::text::is_digit(dec(b)[0]));
}

fn code_from(s: &str) -> (c: i64)
    ensures
        c == code_or_zero(s@),
{
    match crate::text::parse_i64(s) {
        Some(v) => v,
        None => 0,
    }
}

/// Reads the jobs from the output of `sacct -p`: the trimmed output's lines
/// after the header. `None` where a line does not hold a job.
pub fn accounting_rows(out: &str) -> (r: Option<Vec<SacctOutput>>)
    ensures
        ({
            let ls = crate::text::split_on(crate::text::trim(out@), '\n').drop_first();
            match r {
                Some(v) => v.len() == ls.len() && (forall|k: int| 0 <= k < ls.len() ==> #[trigger] sacct_line_ok(ls[k])
                    && sacct_row(ls[k], v@[k])) && (forall|k: int| #![trigger v@[k]] 0 <= k < ls.len() ==> {
                    let codes = crate::text::split_on(crate::text::split_on(ls[k], '|')[3], ':');
                    &&& v@[k].job_id@ == crate::text::split_on(ls[k], '|')[0]
                    &&& v@[k].job_name@ == crate::text::split_on(ls[k], '|')[1]
                    &&& v@[k].state@ == crate::text::split_on(ls[k], '|')[2]
                    &&& v@[k].slurm_exit_code == code_or_zero(codes[0])
                    &&& v@[k].program_exit_code == code_or_zero(codes[1])
                }),
                None => exists|k: int| 0 <= k < ls.len() && !#[trigger] sacct_line_ok(ls[k]),
            }
        }),
{
    let trimmed = crate::text::trim_str(out);
    let lines = crate::text::split_char(trimmed.as_str(), '\n');
    let ghost all = crate::text::split_on(trimmed@, '\n');
    let ghost ls = all.drop_first();
    proof {
        crate::text::lemma_split_on_nonempty(trimmed@, '\n');
    }
    let mut rows: Vec<SacctOutput> = Vec::new();
    let mut i: usize = 1;
    while i < lines.len()
        invariant
            1 <= i <= lines.len(),
            lines@.map_values(|p: String| p@) == all,
            all == crate::text::split_on(crate::text::trim(out@), '\n'),
            ls == all.drop_first(),
            rows.len() == i - 1,
            forall|k: int| 0 <= k < i - 1 ==> #[trigger] sacct_line_ok(ls[k]) && sacct_row(ls[k], rows@[k]),
        decreases lines.len() - i,
    {
        assert(ls[i - 1] == lines@[i as int]@);
        let fields = crate::text::split_char(lines[i].as_str(), '|');
        if fields.len() < 4 {
            assert(!sacct_line_ok(ls[i - 1]));
            return None;
        }
        let codes = crate::text::split_char(fields[3].as_str(), ':');
        if codes.len() < 2 {
            assert(crate::text::split_on(ls[i - 1], '|')[3] == fields@[3]@);
            assert(!sacct_line_ok(ls[i - 1]));
            return None;
        }
        let row = SacctOutput {
            job_id: fields[0].clone(),
            job_name: fields[1].clone(),
            state: fields[2].clone(),
            slurm_exit_code: code_from(codes[0].as_str()),
            program_exit_code: code_from(codes[1].as_str()),
        };
        proof {
            let f = crate::text::split_on(ls[i - 1], '|');
            assert(f[0] == fields@[0]@ && f[1] == fields@[1]@ && f[2] == fields@[2]@ && f[3] == fields@[3]@);
            let c = crate::text::split_on(f[3], ':');
            assert(c[0] == codes@[0]@ && c[1] == codes@[1]@);
        }
        rows.push(row);
        i = i + 1;
    }
    proof {
        assert forall|k: int| #![trigger rows@[k]] 0 <= k < ls.len() implies ({
            let codes = crate::text::split_on(crate::text::split_on(ls[k], '|')[3], ':');
            &&& rows@[k].job_id@ == crate::text::split_on(ls[k], '|')[0]
            &&& rows@[k].job_name@ == crate::text::split_on(ls[k], '|')[1]
            &&& rows@[k].state@ == crate::text::split_on(ls[k], '|')[2]
            &&& rows@[k].slurm_exit_code == code_or_zero(codes[0])
            &&& rows@[k].program_exit_code == code_or_zero(codes[1])
        }) by {
            assert(sacct_line_ok(ls[k]) && sacct_row(ls[k], rows@[k]));
        }
    }
    Some(rows)
}

} // verus!

verus! {

/// What a submission plan schedules never exceeds what the queue can take:
/// chunks of the planned size, as many as planned, hold at most the free
/// capacity, no chunk is larger than the largest array, and at least one
/// chunk is planned.
pub proof fn lemma_plan_within_capacity(max_array_size: nat, max_submit: nat, scheduled: nat)
    requires
        scheduled < max_submit,
        max_array_size > 0,
    ensures
        ({
            let capacity = max_submit - scheduled;
            let size = if max_array_size < capacity { max_array_size as int } else { capacity };
            &&& size * (capacity / size) <= capacity
            &&& size <= max_array_size
            &&& capacity / size >= 1
        }),
{
    let capacity = max_submit - scheduled;
    let size = if max_array_size < capacity { max_array_size as int } else { capacity };
    assert(size > 0);
    assert(size * (capacity / size) <= capacity) by (nonlinear_arith)
        requires
            size > 0,
            capacity >= size,
    ;
    assert(capacity / size >= 1) by (nonlinear_arith)
        requires
            size > 0,
            capacity >= size,
    ;
}

} // verus!

verus! {

/// Why runs could not be cancelled.
#[derive(Debug, Clone, Copy, PartialEq, Eq, Structural)]
pub enum CancelError {
    /// There is no run by this id; the experiment's number of runs is attached.
    NoSuchRun {
        /// The id asked for.
        id: usize,
        /// The number of runs of the experiment.
        runs: usize,
    },
    /// The run was never scheduled on Slurm.
    NotOnSlurm(usize),
}

/// Whether run `id` exists and has a Slurm id.
pub open spec fn cancellable(exp: &crate::model::Experiment, id: usize) -> bool {
    id < exp.runs.len() && exp.runs@[id as int].slurm_id is Some
}

/// The Slurm id of run `id`.
pub open spec fn slurm_id_of(exp: &crate::model::Experiment, id: usize) -> Seq<char> {
    exp.runs@[id as int].slurm_id->Some_0@
}

/// The Slurm ids of the first `n` runs, skipping runs Slurm does not know.
pub open spec fn known_slurm_ids(runs: Seq<crate::model::Run>, n: nat) -> Seq<Seq<char>>
    decreases n,
{
    if n == 0 {
        Seq::empty()
    } else {
        let rest = known_slurm_ids(runs, (n - 1) as nat);
        match runs[n - 1].slurm_id {
            Some(s) => rest.push(s@),
            None => rest,
        }
    }
}

/// Whether `ids[k]` is the first of `ids` that cannot be cancelled.
pub open spec fn first_uncancellable(exp: &crate::model::Experiment, ids: Seq<usize>, k: int) -> bool {
    &&& 0 <= k < ids.len()
    &&& !cancellable(exp, ids[k])
    &&& forall|j: int| 0 <= j < k ==> cancellable(exp, #[trigger] ids[j])
}

/// Why run `id` cannot be cancelled.
pub open spec fn cancel_error(exp: &crate::model::Experiment, id: usize) -> CancelError {
    if id < exp.runs.len() {
        CancelError::NotOnSlurm(id)
    } else {
        CancelError::NoSuchRun { id, runs: exp.runs.len() }
    }
}

/// The Slurm ids of all runs of the experiment that Slurm knows, in order.
fn known_ids(exp: &crate::model::Experiment) -> (out: Vec<String>)
    ensures
        out@.map_values(|s: String| s@) == known_slurm_ids(exp.runs@, exp.runs.len() as nat),
{
    let mut out: Vec<String> = Vec::new();
    let mut i: usize = 0;
    while i < exp.runs.len()
        invariant
            i <= exp.runs.len(),
            out@.map_values(|s: String| s@) == known_slurm_ids(exp.runs@, i as nat),
        decreases exp.runs.len() - i,
    {
        let ghost before = out@.map_values(|s: String| s@);
        match &exp.runs[i].slurm_id {
            Some(s) => {
                out.push(s.clone());
                assert(out@.map_values(|s: String| s@) =~= before.push(s@));
            },
            None => {},
        }
        i = i + 1;
    }
    out
}

/// The Slurm ids of the runs `ids`, in order; the first that names no run,
/// or a run Slurm does not know, is the error.
fn ids_to_cancel(exp: &crate::model::Experiment, ids: &Vec<usize>) -> (r: Result<Vec<String>, CancelError>)
    ensures
        r is Ok <==> forall|k: int| 0 <= k < ids.len() ==> cancellable(exp, #[trigger] ids@[k]),
        r matches Ok(v) ==> v@.map_values(|s: String| s@) == ids@.map_values(|id: usize| slurm_id_of(exp, id)),
        r matches Err(e) ==> exists|k: int| #[trigger] first_uncancellable(exp, ids@, k) && e == cancel_error(exp, ids@[k]),
{
    let mut out: Vec<String> = Vec::new();
    let mut i: usize = 0;
    while i < ids.len()
        invariant
            i <= ids.len(),
            forall|j: int| 0 <= j < i ==> cancellable(exp, #[trigger] ids@[j]),
            out@.map_values(|s: String| s@) == ids@.take(i as int).map_values(|id: usize| slurm_id_of(exp, id)),
        decreases ids.len() - i,
    {
        let id = ids[i];
        if id >= exp.runs.len() {
            assert(first_uncancellable(exp, ids@, i as int));
            return Err(CancelError::NoSuchRun { id, runs: exp.runs.len() });
        }
        match &exp.runs[id].slurm_id {
            Some(s) => {
                let ghost before = out@.map_values(|s: String| s@);
                out.push(s.clone());
                assert(out@.map_values(|s: String| s@) =~= before.push(s@));
                assert(ids@.take(i + 1).map_values(|id: usize| slurm_id_of(exp, id)) =~= ids@.take(i as int).map_values(
                    |id: usize| slurm_id_of(exp, id),
                ).push(slurm_id_of(exp, id)));
            },
            None => {
                assert(first_uncancellable(exp, ids@, i as int));
                return Err(CancelError::NotOnSlurm(id));
            },
        }
        i = i + 1;
    }
    assert(ids@.take(ids.len() as int) =~= ids@);
    Ok(out)
}

/// The Slurm ids to cancel for an experiment: those of the runs `run_ids`,
/// in order, or of all its runs that Slurm knows where no ids are given.
/// The first id that names no run, or a run Slurm does not know, is the error.
pub fn runs_to_cancel(exp: &crate::model::Experiment, run_ids: &Option<Vec<usize>>) -> (r: Result<Vec<String>, CancelError>)
    ensures
        run_ids is None ==> (r matches Ok(v) && v@.map_values(|s: String| s@) == known_slurm_ids(exp.runs@, exp.runs.len() as nat)),
        run_ids matches Some(ids) ==> (r is Ok <==> forall|k: int| 0 <= k < ids.len() ==> cancellable(exp, #[trigger] ids@[k])),
        run_ids matches Some(ids) ==> (r matches Ok(v) ==> v@.map_values(|s: String| s@) == ids@.map_values(
            |id: usize| slurm_id_of(exp, id),
        )),
        run_ids matches Some(ids) ==> (r matches Err(e) ==> exists|k: int| #[trigger] first_uncancellable(exp, ids@, k) && e
            == cancel_error(exp, ids@[k])),
{
    match run_ids {
        None => Ok(known_ids(exp)),
        Some(ids) => ids_to_cancel(exp, ids),
    }
}

} // verus!
