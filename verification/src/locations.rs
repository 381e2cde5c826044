//! Where the tool keeps its configuration and its cache: the platform's
//! directories, as the `dirs` and `tempfile` crates report them, and the
//! joining of path components.
use vstd::prelude::*;

verus! {

/// `base` with the relative component `name` appended, as `PathBuf::push`
/// does on Unix: a `/` is put between them unless `base` is empty or
/// already ends in one.
pub open spec fn path_join(base: Seq<char>, name: Seq<char>) -> Seq<char> {
    if base.len() == 0 {
        name
    } else if base.last() == '/' {
        base + name
    } else {
        base + seq!['/'] + name
    }
}

/// Appends the relative component `name` to `base`.
pub fn join_path(base: &str, name: &str) -> (r: String)
    ensures
        r@ == path_join(base@, name@),
{
    let mut r = String::from_str(base);
    let n = r.as_str().unicode_len();
    if n > 0 && r.as_str().get_char(n - 1) != '/' {
        r.append("/");
        proof {
            reveal_strlit("/");
        }
    }
    r.append(name);
    r
}

/// `dirs::cache_dir`, the user's cache directory, converted with
/// `to_string_lossy`. Trusted for nothing but its type: the answer depends
/// on the platform and the environment.
#[verifier::external_body]
pub(crate) fn user_cache_dir() -> (r: Option<String>) {
    dirs::cache_dir().map(|p| p.to_string_lossy().into_owned())
}

/// `dirs::config_dir`, the user's configuration directory, converted with
/// `to_string_lossy`. Trusted for nothing but its type: the answer depends
/// on the platform and the environment.
#[verifier::external_body]
pub(crate) fn user_config_dir() -> (r: Option<String>) {
    dirs::config_dir().map(|p| p.to_string_lossy().into_owned())
}

/// `dirs::home_dir`, the user's home directory, converted with
/// `to_string_lossy`. Trusted for nothing but its type: the answer depends
/// on the platform and the environment.
#[verifier::external_body]
pub(crate) fn user_home_dir() -> (r: Option<String>) {
    dirs::home_dir().map(|p| p.to_string_lossy().into_owned())
}

/// `tempfile::env::temp_dir`, the system's temporary directory (that of the
/// standard library unless overridden through `tempfile`), converted with
/// `to_string_lossy`. Trusted for nothing but its type: the answer depends
/// on the platform and the environment.
#[verifier::external_body]
pub(crate) fn system_temp_dir() -> (r: String) {
    tempfile::env::temp_dir().to_string_lossy().into_owned()
}

} // verus!
