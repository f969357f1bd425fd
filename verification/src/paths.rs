//! Where the memory system lives: the host assistant's directory under the
//! home directory, unless an override names another one.
use vstd::prelude::*;

verus! {

/// Error when no home directory is known.
pub const NO_HOME_ERROR: &'static str = "Could not determine home directory";

/// `base` joined with the relative component `name`, as `Path::join` does on
/// Unix: a `/` goes between them unless `base` is empty or already ends in one.
pub open spec fn joined(base: Seq<char>, name: Seq<char>) -> Seq<char> {
    if base.len() == 0 || base.last() == '/' {
        base + name
    } else {
        base + seq!['/'] + name
    }
}

/// Joins the relative path component `name` onto `base`.
pub fn join_path(base: &str, name: &str) -> (r: String)
    ensures
        r@ == joined(base@, name@),
{
    let n = base.unicode_len();
    let mut r = String::from_str(base);
    if n > 0 && base.get_char(n - 1) != '/' {
        proof {
            reveal_strlit("/");
        }
        r.append("/");
    }
    r.append(name);
    r
}

/// The plain values of a `Result` of strings.
pub open spec fn result_view(r: Result<String, String>) -> Result<Seq<char>, Seq<char>> {
    match r {
        Ok(s) => Ok(s@),
        Err(e) => Err(e@),
    }
}

/// The memory directory: the override when one is given, else the host
/// directory `host_dir` under the home directory, else an error.
pub open spec fn base_dir_spec(
    env_override: Option<Seq<char>>,
    home: Option<Seq<char>>,
    host_dir: Seq<char>,
) -> Result<Seq<char>, Seq<char>> {
    match env_override {
        Some(p) => Ok(p),
        None => match home {
            Some(h) => Ok(joined(h, host_dir)),
            None => Err(NO_HOME_ERROR@),
        },
    }
}

/// The plain value of an optional string.
pub open spec fn opt_view(o: Option<String>) -> Option<Seq<char>> {
    match o {
        Some(s) => Some(s@),
        None => None,
    }
}

/// The memory directory for a given override and home directory.
pub fn base_dir_from(env_override: Option<String>, home: Option<String>, host_dir: &str) -> (r: Result<
    String,
    String,
>)
    ensures
        result_view(r) == base_dir_spec(opt_view(env_override), opt_view(home), host_dir@),
{
    match env_override {
        Some(p) => Ok(p),
        None => match home {
            Some(h) => Ok(join_path(h.as_str(), host_dir)),
            None => Err(String::from_str(NO_HOME_ERROR)),
        },
    }
}

/// Calls `dirs::home_dir`, which reads the environment (`$HOME`, or the
/// user database on Unix), and turns the path into text (lossily where it is
/// not UTF-8). Which directory it returns depends on the machine, so only
/// this is stated: an empty `$HOME` or home field is passed over, so a
/// directory it returns is never empty.
#[verifier::external_body]
fn home_dir() -> (r: Option<String>)
    ensures
        possible_home(opt_view(r)),
{
    dirs::home_dir().map(|p| p.to_string_lossy().into_owned())
}

/// What a lookup of the home directory can give: none, or a directory whose
/// name is not empty.
pub open spec fn possible_home(home: Option<Seq<char>>) -> bool {
    home matches Some(h) ==> h.len() > 0
}

/// With no override the memory directory lies under the home directory: it
/// begins with the home directory's name and is longer than the host
/// directory's name, so it is never the host directory taken on its own
/// (relative to the current directory).
pub proof fn lemma_base_is_under_home(home: Seq<char>, host_dir: Seq<char>)
    requires
        home.len() > 0,
    ensures
        base_dir_spec(None, Some(home), host_dir) matches Ok(base) && base.len() > host_dir.len()
            && base.subrange(0, home.len() as int) == home,
{
    let base = joined(home, host_dir);
    assert(base.subrange(0, home.len() as int) =~= home);
}

/// The memory directory: `env_override` (the tool's override variable, see
/// `names::home_override_var`) when set, otherwise the host directory
/// `host_dir` under the user's home directory.
pub fn base_dir(env_override: Option<String>, host_dir: &str) -> (r: Result<String, String>)
    ensures
        env_override is Some ==> result_view(r) == base_dir_spec(opt_view(env_override), None, host_dir@),
        env_override is None ==> exists|home: Option<Seq<char>>|
            possible_home(home) && result_view(r) == #[trigger] base_dir_spec(None, home, host_dir@),
{
    match env_override {
        Some(p) => base_dir_from(Some(p), None, host_dir),
        None => {
            let home = home_dir();
            let r = base_dir_from(None, home, host_dir);
            assert(result_view(r) == base_dir_spec(None, opt_view(home), host_dir@));
            r
        },
    }
}

} // verus!
