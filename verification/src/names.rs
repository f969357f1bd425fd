//! The names the memory system goes by: the tool's own name (the command the
//! archiving hook runs, the protocol file's name), the directory of the host
//! assistant that it hooks into, and the host's product name in messages.
use vstd::prelude::*;
use crate::text::{has_prefix, starts_with};

verus! {

/// The names the memory system goes by.
pub struct Names {
    /// The tool's command name.
    pub tool: String,
    /// The host assistant's directory under the home directory (such as
    /// `.name`).
    pub host_dir: String,
    /// The host assistant's product name, as messages print it.
    pub host_product: String,
}

/// The capital letters, in order.
pub const UPPER_LETTERS: &'static str = "ABCDEFGHIJKLMNOPQRSTUVWXYZ";

/// A character of an environment variable's name made from a command name:
/// `-` becomes `_`, ASCII lowercase letters become capitals, the rest stays.
pub open spec fn env_char(c: char) -> char {
    if c == '-' {
        '_'
    } else if 97 <= (c as u32) <= 122 {
        UPPER_LETTERS@[(c as u32) - 97]
    } else {
        c
    }
}

/// The variable that overrides the memory directory for tool `tool`: the
/// tool's name in capitals with `_` for `-`, then `_HOME`.
pub open spec fn home_var(tool: Seq<char>) -> Seq<char> {
    Seq::new(tool.len(), |i: int| env_char(tool[i])) + "_HOME"@
}

/// The name of the variable that overrides the memory directory.
pub fn home_override_var(tool: &str) -> (r: String)
    ensures
        r@ == home_var(tool@),
{
    proof {
        reveal_strlit("ABCDEFGHIJKLMNOPQRSTUVWXYZ");
        reveal_strlit("_");
    }
    let n = tool.unicode_len();
    let mut r = String::new();
    let mut i: usize = 0;
    while i < n
        invariant
            i <= n == tool@.len(),
            UPPER_LETTERS@.len() == 26,
            r@ == Seq::new(i as nat, |k: int| env_char(tool@[k])),
        decreases n - i,
    {
        proof {
            reveal_strlit("ABCDEFGHIJKLMNOPQRSTUVWXYZ");
            reveal_strlit("_");
        }
        let c = tool.get_char(i);
        if c == '-' {
            r.append("_");
        } else if 97 <= (c as u32) && (c as u32) <= 122 {
            let k = (c as u32 - 97) as usize;
            r.append(UPPER_LETTERS.substring_char(k, k + 1));
        } else {
            r.append(tool.substring_char(i, i + 1));
        }
        proof {
            assert(r@ =~= Seq::new((i + 1) as nat, |k: int| env_char(tool@[k])));
        }
        i = i + 1;
    }
    r.append("_HOME");
    r
}

/// The start of the name of a tool that serves one host assistant, named
/// `recall-<host>`.
pub const TOOL_PREFIX: &'static str = "recall-";

/// The host directory that the name of tool `tool` names: `.<host>` for a
/// tool named `recall-<host>` with `<host>` not empty, and none for a name
/// of another form.
pub open spec fn host_dir_named_by(tool: Seq<char>) -> Option<Seq<char>> {
    if has_prefix(tool, TOOL_PREFIX@) && tool.len() > TOOL_PREFIX@.len() {
        Some("."@ + tool.subrange(TOOL_PREFIX@.len() as int, tool.len() as int))
    } else {
        None
    }
}

/// The host directory named by the tool's name (see `host_dir_named_by`).
pub fn host_dir_of(tool: &str) -> (r: Option<String>)
    ensures
        match r {
            Some(d) => host_dir_named_by(tool@) == Some(d@),
            None => host_dir_named_by(tool@) is None,
        },
{
    proof {
        reveal_strlit("recall-");
        reveal_strlit(".");
    }
    let n = tool.unicode_len();
    if starts_with(tool, TOOL_PREFIX) && n > 7 {
        let mut d = String::from_str(".");
        d.append(tool.substring_char(7, n));
        Some(d)
    } else {
        None
    }
}

} // verus!
