//! The tool's settings: their defaults, the overrides given on the command
//! line, where the settings file lives, and the duration syntax of the
//! default time window.
use vstd::prelude::*;

use crate::cache::{opt_view, CacheConfig};
use crate::locations::{join_path, path_join, user_config_dir, user_home_dir};
use crate::text::{
    ascii_lower_char, ascii_lowercase, chars_of, is_ascii_letter, parse_int_spec, parse_u64,
    slice_to_vec, to_u64_opt,
};

verus! {

/// Settings of the tool as a whole.
#[derive(Debug, Clone)]
pub struct GlobalConfig {
    /// Default time window of an analysis, such as `90d`, `6m` or `1y`.
    pub default_window: String,
    /// Default number of results shown.
    pub default_top: usize,
    pub cache: CacheConfig,
    pub parallel: ParallelConfig,
    pub debug: DebugConfig,
}

/// Settings of parallel processing.
#[derive(Debug, Clone, Copy, PartialEq, Eq, Structural)]
pub struct ParallelConfig {
    pub enabled: bool,
    /// Largest number of threads; 0 uses every core.
    pub max_threads: usize,
    pub chunk_size: usize,
}

/// Settings of debug output.
#[derive(Debug, Clone)]
pub struct DebugConfig {
    pub enabled: bool,
    pub timing: bool,
    /// One of `error`, `warn`, `info`, `debug`, `trace`.
    pub log_level: String,
}

/// Settings given on the command line, each overriding the file's.
#[derive(Debug, Clone, Copy, PartialEq, Eq, Structural)]
pub struct ConfigOverrides {
    pub debug: Option<bool>,
    pub cache_enabled: Option<bool>,
    pub parallel_enabled: Option<bool>,
    pub max_threads: Option<usize>,
}

pub fn default_window() -> (r: String)
    ensures
        r@ == "90d"@,
{
    String::from_str("90d")
}

pub fn default_top() -> (r: usize)
    ensures
        r == 25,
{
    25
}

pub fn default_parallel_enabled() -> (r: bool)
    ensures
        r,
{
    true
}

pub fn default_chunk_size() -> (r: usize)
    ensures
        r == 1000,
{
    1000
}

pub fn default_log_level() -> (r: String)
    ensures
        r@ == "info"@,
{
    String::from_str("info")
}

impl Default for ParallelConfig {
    fn default() -> (r: Self)
        ensures
            r.enabled,
            r.max_threads == 0,
            r.chunk_size == 1000,
    {
        ParallelConfig {
            enabled: default_parallel_enabled(),
            max_threads: 0,
            chunk_size: default_chunk_size(),
        }
    }
}

impl Default for DebugConfig {
    fn default() -> (r: Self)
        ensures
            !r.enabled,
            !r.timing,
            r.log_level@ == "info"@,
    {
        DebugConfig { enabled: false, timing: false, log_level: default_log_level() }
    }
}

impl Default for ConfigOverrides {
    fn default() -> (r: Self)
        ensures
            r.debug is None,
            r.cache_enabled is None,
            r.parallel_enabled is None,
            r.max_threads is None,
    {
        ConfigOverrides { debug: None, cache_enabled: None, parallel_enabled: None, max_threads: None }
    }
}

impl Default for GlobalConfig {
    fn default() -> (r: Self)
        ensures
            r.default_window@ == "90d"@,
            r.default_top == 25,
            r.cache.enabled,
            r.cache.max_size_mb == 100,
            r.parallel.enabled,
            r.parallel.max_threads == 0,
            r.parallel.chunk_size == 1000,
            !r.debug.enabled,
            !r.debug.timing,
            r.debug.log_level@ == "info"@,
    {
        GlobalConfig {
            default_window: default_window(),
            default_top: default_top(),
            cache: CacheConfig::default(),
            parallel: ParallelConfig::default(),
            debug: DebugConfig::default(),
        }
    }
}

/// The settings file under a base directory: `<base>/crabgit/config.toml`.
pub open spec fn config_file_under(base: Seq<char>) -> Seq<char> {
    path_join(path_join(base, "crabgit"@), "config.toml"@)
}

/// The base of the settings file: the user's configuration directory, else
/// the home directory, else `.`.
pub open spec fn config_base(config: Option<Seq<char>>, home: Option<Seq<char>>) -> Seq<char> {
    match config {
        Some(d) => d,
        None => match home {
            Some(h) => h,
            None => "."@,
        },
    }
}

/// The settings file for the given readings of the user's configuration
/// and home directories.
pub fn config_path_from(config: Option<String>, home: Option<String>) -> (r: String)
    ensures
        r@ == config_file_under(config_base(opt_view(config), opt_view(home))),
{
    let base = match config {
        Some(d) => d,
        None => match home {
            Some(h) => h,
            None => String::from_str("."),
        },
    };
    let app = join_path(base.as_str(), "crabgit");
    join_path(app.as_str(), "config.toml")
}

/// The settings file: `crabgit/config.toml` under the user's configuration
/// directory, else under the home directory, else under `.`.
pub fn get_config_file_path() -> (r: String)
    ensures
        exists|config: Option<Seq<char>>, home: Option<Seq<char>>|
            r@ == config_file_under(#[trigger] config_base(config, home)),
{
    let config = user_config_dir();
    let home = user_home_dir();
    let ghost c = opt_view(config);
    let ghost h = opt_view(home);
    let r = config_path_from(config, home);
    assert(r@ == config_file_under(config_base(c, h)));
    r
}

/// An optional setting: the override where one is given, else the setting.
pub open spec fn or_keep<T>(o: Option<T>, current: T) -> T {
    match o {
        Some(v) => v,
        None => current,
    }
}

/// The settings with the command line's overrides applied: `debug` sets
/// both debug output and timing; each other override sets its setting;
/// everything else is kept.
pub open spec fn overridden(c: GlobalConfig, o: ConfigOverrides) -> GlobalConfig {
    GlobalConfig {
        cache: CacheConfig { enabled: or_keep(o.cache_enabled, c.cache.enabled), ..c.cache },
        parallel: ParallelConfig {
            enabled: or_keep(o.parallel_enabled, c.parallel.enabled),
            max_threads: or_keep(o.max_threads, c.parallel.max_threads),
            ..c.parallel
        },
        debug: DebugConfig {
            enabled: or_keep(o.debug, c.debug.enabled),
            timing: or_keep(o.debug, c.debug.timing),
            ..c.debug
        },
        ..c
    }
}

/// Overrides that give nothing leave the settings as they are.
pub proof fn lemma_no_overrides_keep_settings(c: GlobalConfig)
    ensures
        overridden(
            c,
            ConfigOverrides {
                debug: None,
                cache_enabled: None,
                parallel_enabled: None,
                max_threads: None,
            },
        ) == c,
{
}

/// An override given on the command line wins: the setting it names takes
/// its value (`debug` sets both debug output and timing), and a setting
/// without an override keeps its value.
pub proof fn lemma_override_wins(c: GlobalConfig, o: ConfigOverrides)
    ensures
        overridden(c, o).cache.enabled == (match o.cache_enabled {
            Some(v) => v,
            None => c.cache.enabled,
        }),
        overridden(c, o).parallel.enabled == (match o.parallel_enabled {
            Some(v) => v,
            None => c.parallel.enabled,
        }),
        overridden(c, o).parallel.max_threads == (match o.max_threads {
            Some(v) => v,
            None => c.parallel.max_threads,
        }),
        o.debug matches Some(d) ==> overridden(c, o).debug.enabled == d && overridden(c, o).debug.timing
            == d,
        o.debug is None ==> overridden(c, o).debug.enabled == c.debug.enabled && overridden(
            c,
            o,
        ).debug.timing == c.debug.timing,
{
}

/// Applying the same overrides twice gives what applying them once gives.
pub proof fn lemma_overrides_idempotent(c: GlobalConfig, o: ConfigOverrides)
    ensures
        overridden(overridden(c, o), o) == overridden(c, o),
{
}

impl GlobalConfig {
    /// Where the settings file lives.
    pub fn config_file_path() -> (r: String)
        ensures
            exists|config: Option<Seq<char>>, home: Option<Seq<char>>|
                r@ == config_file_under(#[trigger] config_base(config, home)),
    {
        get_config_file_path()
    }

    /// The settings with the command line's overrides applied.
    pub fn with_overrides(self, overrides: ConfigOverrides) -> (r: Self)
        ensures
            r == overridden(self, overrides),
    {
        let mut c = self;
        if let Some(debug) = overrides.debug {
            c.debug.enabled = debug;
            c.debug.timing = debug;
        }
        if let Some(cache_enabled) = overrides.cache_enabled {
            c.cache.enabled = cache_enabled;
        }
        if let Some(parallel_enabled) = overrides.parallel_enabled {
            c.parallel.enabled = parallel_enabled;
        }
        if let Some(max_threads) = overrides.max_threads {
            c.parallel.max_threads = max_threads;
        }
        c
    }
}

// ---------------------------------------------------------------------------
// Durations
// ---------------------------------------------------------------------------

/// The Unicode `Alphabetic` property of `char::is_alphabetic`, named rather
/// than written out.
pub uninterp spec fn spec_is_alphabetic(c: char) -> bool;

/// `char::is_alphabetic`. Trusted: the result is named `spec_is_alphabetic`;
/// among ASCII characters exactly the letters have the property.
#[verifier::external_body]
pub(crate) fn char_is_alphabetic(c: char) -> (b: bool)
    ensures
        b == spec_is_alphabetic(c),
        (c as u32) < 128 ==> (b <==> is_ascii_letter(c)),
{
    c.is_alphabetic()
}

/// Whether `c` is alphabetic: among ASCII characters exactly the letters,
/// elsewhere as `char::is_alphabetic` says.
pub open spec fn is_alphabetic_char(c: char) -> bool {
    if (c as u32) < 128 {
        is_ascii_letter(c)
    } else {
        spec_is_alphabetic(c)
    }
}

/// Why a duration was refused.
#[derive(Copy, Clone, Debug, PartialEq, Eq, Structural)]
pub enum DurationError {
    Empty,
    InvalidNumber,
    InvalidUnit,
}

/// Days in one unit: `d`, `w`, `m` (30 days) and `y` (365 days), in either
/// case; 0 for any other character.
pub open spec fn unit_days(c: char) -> int {
    let l = ascii_lower_char(c);
    if l == 'd' {
        1
    } else if l == 'w' {
        7
    } else if l == 'm' {
        30
    } else if l == 'y' {
        365
    } else {
        0
    }
}

/// A duration such as `90d`, `6m`, `2W` or `30` (days where no unit is
/// given), in days: an alphabetic last character is the unit, and what
/// precedes it the number.
pub open spec fn duration_days(s: Seq<char>) -> Result<int, DurationError> {
    if s.len() == 0 {
        Err(DurationError::Empty)
    } else {
        let alpha = is_alphabetic_char(s.last());
        let num = if alpha {
            s.drop_last()
        } else {
            s
        };
        let unit = if alpha {
            s.last()
        } else {
            'd'
        };
        match parse_int_spec(num, false, 0, u64::MAX as int) {
            None => Err(DurationError::InvalidNumber),
            Some(n) => if unit_days(unit) == 0 {
                Err(DurationError::InvalidUnit)
            } else {
                Ok(n * unit_days(unit))
            },
        }
    }
}

/// The duration units: a number N followed by `d`, `w`, `m` or `y` (in
/// either case) is N days, 7-day weeks, 30-day months or 365-day years; a
/// number alone is N days.
pub proof fn lemma_duration_units(n: Seq<char>)
    ensures
        parse_int_spec(n, false, 0, u64::MAX as int) is Some ==> {
            let v = parse_int_spec(n, false, 0, u64::MAX as int)->0;
            &&& duration_days(n.push('d')) == Ok::<int, DurationError>(v)
            &&& duration_days(n.push('D')) == Ok::<int, DurationError>(v)
            &&& duration_days(n.push('w')) == Ok::<int, DurationError>(v * 7)
            &&& duration_days(n.push('W')) == Ok::<int, DurationError>(v * 7)
            &&& duration_days(n.push('m')) == Ok::<int, DurationError>(v * 30)
            &&& duration_days(n.push('M')) == Ok::<int, DurationError>(v * 30)
            &&& duration_days(n.push('y')) == Ok::<int, DurationError>(v * 365)
            &&& duration_days(n.push('Y')) == Ok::<int, DurationError>(v * 365)
            &&& n.len() > 0 && !is_alphabetic_char(n.last()) ==> duration_days(n)
                == Ok::<int, DurationError>(v)
        },
{
    assert(n.push('d').drop_last() =~= n);
    assert(n.push('D').drop_last() =~= n);
    assert(n.push('w').drop_last() =~= n);
    assert(n.push('W').drop_last() =~= n);
    assert(n.push('m').drop_last() =~= n);
    assert(n.push('M').drop_last() =~= n);
    assert(n.push('y').drop_last() =~= n);
    assert(n.push('Y').drop_last() =~= n);
    assert(('d' as u32) == 100 && ('D' as u32) == 68);
    assert(('w' as u32) == 119 && ('W' as u32) == 87);
    assert(('m' as u32) == 109 && ('M' as u32) == 77);
    assert(('y' as u32) == 121 && ('Y' as u32) == 89);
    assert(ascii_lower_char('D') == 'd');
    assert(ascii_lower_char('W') == 'w');
    assert(ascii_lower_char('M') == 'm');
    assert(ascii_lower_char('Y') == 'y');
}

/// The unit of a duration is read without regard to case: two durations
/// that differ only in their unit letter, the one being the other in the
/// other case, give the same result.
pub proof fn lemma_duration_unit_case_insensitive(number: Seq<char>, unit: char, other: char)
    requires
        is_alphabetic_char(unit),
        is_alphabetic_char(other),
        ascii_lower_char(unit) == ascii_lower_char(other),
    ensures
        duration_days(number.push(unit)) == duration_days(number.push(other)),
{
    assert(number.push(unit).drop_last() =~= number);
    assert(number.push(other).drop_last() =~= number);
}

/// The inputs on which the duration is computed without fault: an
/// alphabetic unit is an ASCII character, and the number of days fits in
/// `u64`.
pub open spec fn duration_in_range(s: Seq<char>) -> bool {
    &&& s.len() > 0 && is_alphabetic_char(s.last()) ==> (s.last() as u32) < 128
    &&& duration_days(s) matches Ok(d) ==> d <= u64::MAX
}

/// Parses a duration such as `90d`, `6m` or `1y` into days.
pub fn parse_duration_to_days(duration: &str) -> (r: Result<u64, DurationError>)
    requires
        duration_in_range(duration@),
    ensures
        match duration_days(duration@) {
            Ok(d) => r == Ok::<u64, DurationError>(d as u64),
            Err(e) => r == Err::<u64, DurationError>(e),
        },
{
    let chars = chars_of(duration);
    let n = chars.len();
    if n == 0 {
        return Err(DurationError::Empty);
    }
    let last = chars[n - 1];
    let alpha = char_is_alphabetic(last);
    let num = if alpha {
        slice_to_vec(chars.as_slice(), 0, n - 1)
    } else {
        slice_to_vec(chars.as_slice(), 0, n)
    };
    let unit = if alpha {
        last
    } else {
        'd'
    };
    proof {
        assert(chars@.last() == last);
        if alpha {
            assert(num@ =~= chars@.drop_last());
        } else {
            assert(num@ =~= chars@);
        }
    }
    let number = match parse_u64(num.as_slice()) {
        Some(v) => v,
        None => return Err(DurationError::InvalidNumber),
    };
    let l = ascii_lowercase(unit);
    if l == 'd' {
        Ok(number)
    } else if l == 'w' {
        Ok(number * 7)
    } else if l == 'm' {
        Ok(number * 30)
    } else if l == 'y' {
        Ok(number * 365)
    } else {
        Err(DurationError::InvalidUnit)
    }
}

/// Whether a duration can be parsed without fault: `false` for a
/// non-ASCII alphabetic last character (which cannot be cut off at a byte
/// boundary) and for a number of days beyond `u64`.
pub fn duration_fits(duration: &str) -> (b: bool)
    ensures
        b == duration_in_range(duration@),
{
    let chars = chars_of(duration);
    let n = chars.len();
    if n == 0 {
        return true;
    }
    let last = chars[n - 1];
    proof {
        assert(chars@.last() == last);
    }
    let alpha = char_is_alphabetic(last);
    if alpha && (last as u32) >= 128 {
        return false;
    }
    let num = if alpha {
        slice_to_vec(chars.as_slice(), 0, n - 1)
    } else {
        slice_to_vec(chars.as_slice(), 0, n)
    };
    proof {
        if alpha {
            assert(num@ =~= chars@.drop_last());
        } else {
            assert(num@ =~= chars@);
        }
    }
    let v = match parse_u64(num.as_slice()) {
        Some(v) => v,
        None => return true,
    };
    let unit = if alpha {
        last
    } else {
        'd'
    };
    let l = ascii_lowercase(unit);
    let factor: u64 = if l == 'd' {
        1
    } else if l == 'w' {
        7
    } else if l == 'm' {
        30
    } else if l == 'y' {
        365
    } else {
        return true;
    };
    if v > u64::MAX / factor {
        proof {
            assert(v * factor > u64::MAX) by (nonlinear_arith)
                requires
                    v > u64::MAX / factor,
                    factor > 0,
            ;
        }
        false
    } else {
        proof {
            assert(v * factor <= u64::MAX) by (nonlinear_arith)
                requires
                    v <= u64::MAX / factor,
                    factor > 0,
            ;
        }
        true
    }
}

/// Parses a duration, or gives `None` where `duration_fits` refuses it.
pub fn parse_duration_to_days_checked(duration: &str) -> (r: Option<Result<u64, DurationError>>)
    ensures
        match r {
            Some(res) => duration_in_range(duration@) && match duration_days(duration@) {
                Ok(d) => res == Ok::<u64, DurationError>(d as u64),
                Err(e) => res == Err::<u64, DurationError>(e),
            },
            None => !duration_in_range(duration@),
        },
{
    if duration_fits(duration) {
        Some(parse_duration_to_days(duration))
    } else {
        None
    }
}

} // verus!
