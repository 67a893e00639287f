//! The command line's arguments, and the rule that makes `grow` the
//! implicit subcommand. Parsing the command line is the caller's part.
use vstd::prelude::*;

use crate::grow::strings_view;
use crate::text::str_is;

verus! {

/// Arguments of the themed grow aliases (`cake`, `feast`, `buffet`), whose
/// multiplier is fixed by the alias.
#[derive(Debug, Clone)]
pub struct ThemedArgs {
    /// Files and/or directories to pack into one archive.
    pub files: Vec<String>,
    /// Output archive path (default: <input>.fa10, or archive.fa10 for 2+ inputs).
    pub output: Option<String>,
    /// Padding pattern to repeat (default: "FA10-PADDING-BLOCK-").
    pub pattern: Option<String>,
    /// Replace a single input file with its archive in place (requires --confirm).
    pub in_place: bool,
    /// Confirm operations that exceed safety caps or modify in place.
    pub confirm: bool,
    /// Verify the archive by re-hashing every entry after writing.
    pub verify: bool,
    /// Allow packing more than 100 files.
    pub batch: bool,
}

/// Arguments of `restore`.
#[derive(Debug, Clone)]
pub struct RestoreArgs {
    /// Archive(s) to extract.
    pub files: Vec<String>,
    /// Directory to extract into (default: current directory).
    pub output: Option<String>,
    /// Skip SHA-256 verification of the extracted content.
    pub skip_verify: bool,
    /// Overwrite existing files when extracting.
    pub force: bool,
}

/// Arguments of `info`.
#[derive(Debug, Clone)]
pub struct InfoArgs {
    /// Archive to inspect.
    pub file: String,
}

/// Subcommand names and aliases (plus `help`) recognized by the parser.
pub open spec fn is_subcommand(t: Seq<char>) -> bool {
    ||| t == "inflate"@
    ||| t == "grow"@
    ||| t == "restore"@
    ||| t == "info"@
    ||| t == "cake"@
    ||| t == "feast"@
    ||| t == "buffet"@
    ||| t == "diet"@
    ||| t == "slim"@
    ||| t == "help"@
}

/// A global flag that may stand before the subcommand: `--quiet`,
/// `--verbose`, or a bundle of `-q`/`-v` such as `-qv`.
pub open spec fn is_global_flag(t: Seq<char>) -> bool {
    ||| (t.len() >= 2 && t[0] == '-' && forall|k: int|
        1 <= k < t.len() ==> #[trigger] t[k] == 'q' || t[k] == 'v')
    ||| t == "--quiet"@
    ||| t == "--verbose"@
}

/// A request for help or the version, which the parser answers itself.
pub open spec fn is_help_request(t: Seq<char>) -> bool {
    ||| t == "-h"@
    ||| t == "--help"@
    ||| t == "-V"@
    ||| t == "--version"@
}

/// Where `grow` goes when it is implied: before the first argument from `i`
/// on that is not a global flag, unless that argument is a subcommand or a
/// help request (or there is none).
pub open spec fn spec_implicit_grow_at(args: Seq<Seq<char>>, i: nat) -> Option<nat>
    decreases args.len() - i,
{
    if i >= args.len() {
        None
    } else if is_global_flag(args[i as int]) {
        spec_implicit_grow_at(args, i + 1)
    } else if is_help_request(args[i as int]) || is_subcommand(args[i as int]) {
        None
    } else {
        Some(i)
    }
}

/// Whether `tok` names a subcommand.
pub fn is_subcommand_token(tok: &str) -> (r: bool)
    ensures
        r == is_subcommand(tok@),
{
    str_is(tok, "inflate") || str_is(tok, "grow") || str_is(tok, "restore") || str_is(tok, "info")
        || str_is(tok, "cake") || str_is(tok, "feast") || str_is(tok, "buffet") || str_is(
        tok,
        "diet",
    ) || str_is(tok, "slim") || str_is(tok, "help")
}

/// Whether `tok` is a global flag that may precede the subcommand.
pub fn is_global_flag_token(tok: &str) -> (r: bool)
    ensures
        r == is_global_flag(tok@),
{
    if str_is(tok, "--quiet") || str_is(tok, "--verbose") {
        return true;
    }
    let n = tok.unicode_len();
    if n < 2 || tok.get_char(0) != '-' {
        return false;
    }
    let mut k: usize = 1;
    while k < n
        invariant
            1 <= k <= n,
            n == tok@.len(),
            tok@ != "--quiet"@,
            tok@ != "--verbose"@,
            forall|j: int| 1 <= j < k ==> #[trigger] tok@[j] == 'q' || tok@[j] == 'v',
        decreases n - k,
    {
        let c = tok.get_char(k);
        if c != 'q' && c != 'v' {
            assert(!(tok@[k as int] == 'q' || tok@[k as int] == 'v'));
            return false;
        }
        k += 1;
    }
    true
}

/// Make `grow` the implicit default: `fa10 report.csv` behaves like
/// `fa10 grow report.csv`. Gives the position at which `grow` is to be
/// inserted, if any: leading global flags are skipped (`args[0]` is the
/// program name), and a subcommand or a help/version request needs none.
pub fn implicit_grow_at(args: &Vec<String>) -> (r: Option<usize>)
    ensures
        match (r, spec_implicit_grow_at(strings_view(args@), 1)) {
            (Some(i), Some(j)) => i == j,
            (None, None) => true,
            _ => false,
        },
{
    let ghost view = strings_view(args@);
    let mut i: usize = 1;
    while i < args.len()
        invariant
            1 <= i,
            view == strings_view(args@),
            spec_implicit_grow_at(view, i as nat) == spec_implicit_grow_at(view, 1),
        decreases args@.len() - i,
    {
        let tok = args[i].as_str();
        assert(view[i as int] == tok@);
        if is_global_flag_token(tok) {
            i += 1;
            continue;
        }
        if str_is(tok, "-h") || str_is(tok, "--help") || str_is(tok, "-V") || str_is(
            tok,
            "--version",
        ) {
            return None;
        }
        if is_subcommand_token(tok) {
            return None;
        }
        return Some(i);
    }
    None
}


/// Leading global flags are skipped: from `m` on, where everything before
/// `i` is a global flag, the answer is the one at `i`.
proof fn lemma_skip_global_flags(args: Seq<Seq<char>>, m: nat, i: nat)
    requires
        1 <= m <= i < args.len(),
        forall|k: int| m <= k < i ==> is_global_flag(#[trigger] args[k]),
    ensures
        spec_implicit_grow_at(args, m) == spec_implicit_grow_at(args, i),
    decreases i - m,
{
    if m < i {
        assert(is_global_flag(args[m as int]));
        lemma_skip_global_flags(args, m + 1, i);
    }
}

/// The flags and names that the dispatch looks at, spelled out.
proof fn lemma_token_literals()
    ensures
        !is_global_flag("-h"@),
        !is_subcommand("-h"@),
        !is_global_flag("--help"@),
        !is_subcommand("--help"@),
        !is_global_flag("-V"@),
        !is_subcommand("-V"@),
        !is_global_flag("--version"@),
        !is_subcommand("--version"@),
        !is_global_flag("inflate"@),
        !is_help_request("inflate"@),
        !is_global_flag("grow"@),
        !is_help_request("grow"@),
        !is_global_flag("restore"@),
        !is_help_request("restore"@),
        !is_global_flag("info"@),
        !is_help_request("info"@),
        !is_global_flag("cake"@),
        !is_help_request("cake"@),
        !is_global_flag("feast"@),
        !is_help_request("feast"@),
        !is_global_flag("buffet"@),
        !is_help_request("buffet"@),
        !is_global_flag("diet"@),
        !is_help_request("diet"@),
        !is_global_flag("slim"@),
        !is_help_request("slim"@),
        !is_global_flag("help"@),
        !is_help_request("help"@),
{
    reveal_strlit("inflate");
    reveal_strlit("grow");
    reveal_strlit("restore");
    reveal_strlit("info");
    reveal_strlit("cake");
    reveal_strlit("feast");
    reveal_strlit("buffet");
    reveal_strlit("diet");
    reveal_strlit("slim");
    reveal_strlit("help");
    reveal_strlit("-h");
    reveal_strlit("--help");
    reveal_strlit("-V");
    reveal_strlit("--version");
    reveal_strlit("--quiet");
    reveal_strlit("--verbose");
    assert("-h"@ != "inflate"@) by {
        assert("-h"@.len() != "inflate"@.len());
    }
    assert("-h"@ != "grow"@) by {
        assert("-h"@.len() != "grow"@.len());
    }
    assert("-h"@ != "restore"@) by {
        assert("-h"@.len() != "restore"@.len());
    }
    assert("-h"@ != "info"@) by {
        assert("-h"@.len() != "info"@.len());
    }
    assert("-h"@ != "cake"@) by {
        assert("-h"@.len() != "cake"@.len());
    }
    assert("-h"@ != "feast"@) by {
        assert("-h"@.len() != "feast"@.len());
    }
    assert("-h"@ != "buffet"@) by {
        assert("-h"@.len() != "buffet"@.len());
    }
    assert("-h"@ != "diet"@) by {
        assert("-h"@.len() != "diet"@.len());
    }
    assert("-h"@ != "slim"@) by {
        assert("-h"@.len() != "slim"@.len());
    }
    assert("-h"@ != "help"@) by {
        assert("-h"@.len() != "help"@.len());
    }
    assert("-h"@ != "--help"@) by {
        assert("-h"@.len() != "--help"@.len());
    }
    assert("-h"@ != "-V"@) by {
        assert("-h"@[1] != "-V"@[1]);
    }
    assert("-h"@ != "--version"@) by {
        assert("-h"@.len() != "--version"@.len());
    }
    assert("-h"@ != "--quiet"@) by {
        assert("-h"@.len() != "--quiet"@.len());
    }
    assert("-h"@ != "--verbose"@) by {
        assert("-h"@.len() != "--verbose"@.len());
    }
    assert("--help"@ != "inflate"@) by {
        assert("--help"@.len() != "inflate"@.len());
    }
    assert("--help"@ != "grow"@) by {
        assert("--help"@.len() != "grow"@.len());
    }
    assert("--help"@ != "restore"@) by {
        assert("--help"@.len() != "restore"@.len());
    }
    assert("--help"@ != "info"@) by {
        assert("--help"@.len() != "info"@.len());
    }
    assert("--help"@ != "cake"@) by {
        assert("--help"@.len() != "cake"@.len());
    }
    assert("--help"@ != "feast"@) by {
        assert("--help"@.len() != "feast"@.len());
    }
    assert("--help"@ != "buffet"@) by {
        assert("--help"@[0] != "buffet"@[0]);
    }
    assert("--help"@ != "diet"@) by {
        assert("--help"@.len() != "diet"@.len());
    }
    assert("--help"@ != "slim"@) by {
        assert("--help"@.len() != "slim"@.len());
    }
    assert("--help"@ != "help"@) by {
        assert("--help"@.len() != "help"@.len());
    }
    assert("--help"@ != "-h"@) by {
        assert("--help"@.len() != "-h"@.len());
    }
    assert("--help"@ != "-V"@) by {
        assert("--help"@.len() != "-V"@.len());
    }
    assert("--help"@ != "--version"@) by {
        assert("--help"@.len() != "--version"@.len());
    }
    assert("--help"@ != "--quiet"@) by {
        assert("--help"@.len() != "--quiet"@.len());
    }
    assert("--help"@ != "--verbose"@) by {
        assert("--help"@.len() != "--verbose"@.len());
    }
    assert("-V"@ != "inflate"@) by {
        assert("-V"@.len() != "inflate"@.len());
    }
    assert("-V"@ != "grow"@) by {
        assert("-V"@.len() != "grow"@.len());
    }
    assert("-V"@ != "restore"@) by {
        assert("-V"@.len() != "restore"@.len());
    }
    assert("-V"@ != "info"@) by {
        assert("-V"@.len() != "info"@.len());
    }
    assert("-V"@ != "cake"@) by {
        assert("-V"@.len() != "cake"@.len());
    }
    assert("-V"@ != "feast"@) by {
        assert("-V"@.len() != "feast"@.len());
    }
    assert("-V"@ != "buffet"@) by {
        assert("-V"@.len() != "buffet"@.len());
    }
    assert("-V"@ != "diet"@) by {
        assert("-V"@.len() != "diet"@.len());
    }
    assert("-V"@ != "slim"@) by {
        assert("-V"@.len() != "slim"@.len());
    }
    assert("-V"@ != "help"@) by {
        assert("-V"@.len() != "help"@.len());
    }
    assert("-V"@ != "-h"@) by {
        assert("-V"@[1] != "-h"@[1]);
    }
    assert("-V"@ != "--help"@) by {
        assert("-V"@.len() != "--help"@.len());
    }
    assert("-V"@ != "--version"@) by {
        assert("-V"@.len() != "--version"@.len());
    }
    assert("-V"@ != "--quiet"@) by {
        assert("-V"@.len() != "--quiet"@.len());
    }
    assert("-V"@ != "--verbose"@) by {
        assert("-V"@.len() != "--verbose"@.len());
    }
    assert("--version"@ != "inflate"@) by {
        assert("--version"@.len() != "inflate"@.len());
    }
    assert("--version"@ != "grow"@) by {
        assert("--version"@.len() != "grow"@.len());
    }
    assert("--version"@ != "restore"@) by {
        assert("--version"@.len() != "restore"@.len());
    }
    assert("--version"@ != "info"@) by {
        assert("--version"@.len() != "info"@.len());
    }
    assert("--version"@ != "cake"@) by {
        assert("--version"@.len() != "cake"@.len());
    }
    assert("--version"@ != "feast"@) by {
        assert("--version"@.len() != "feast"@.len());
    }
    assert("--version"@ != "buffet"@) by {
        assert("--version"@.len() != "buffet"@.len());
    }
    assert("--version"@ != "diet"@) by {
        assert("--version"@.len() != "diet"@.len());
    }
    assert("--version"@ != "slim"@) by {
        assert("--version"@.len() != "slim"@.len());
    }
    assert("--version"@ != "help"@) by {
        assert("--version"@.len() != "help"@.len());
    }
    assert("--version"@ != "-h"@) by {
        assert("--version"@.len() != "-h"@.len());
    }
    assert("--version"@ != "--help"@) by {
        assert("--version"@.len() != "--help"@.len());
    }
    assert("--version"@ != "-V"@) by {
        assert("--version"@.len() != "-V"@.len());
    }
    assert("--version"@ != "--quiet"@) by {
        assert("--version"@.len() != "--quiet"@.len());
    }
    assert("--version"@ != "--verbose"@) by {
        assert("--version"@[5] != "--verbose"@[5]);
    }
    assert("inflate"@ != "grow"@) by {
        assert("inflate"@.len() != "grow"@.len());
    }
    assert("inflate"@ != "restore"@) by {
        assert("inflate"@[0] != "restore"@[0]);
    }
    assert("inflate"@ != "info"@) by {
        assert("inflate"@.len() != "info"@.len());
    }
    assert("inflate"@ != "cake"@) by {
        assert("inflate"@.len() != "cake"@.len());
    }
    assert("inflate"@ != "feast"@) by {
        assert("inflate"@.len() != "feast"@.len());
    }
    assert("inflate"@ != "buffet"@) by {
        assert("inflate"@.len() != "buffet"@.len());
    }
    assert("inflate"@ != "diet"@) by {
        assert("inflate"@.len() != "diet"@.len());
    }
    assert("inflate"@ != "slim"@) by {
        assert("inflate"@.len() != "slim"@.len());
    }
    assert("inflate"@ != "help"@) by {
        assert("inflate"@.len() != "help"@.len());
    }
    assert("inflate"@ != "-h"@) by {
        assert("inflate"@.len() != "-h"@.len());
    }
    assert("inflate"@ != "--help"@) by {
        assert("inflate"@.len() != "--help"@.len());
    }
    assert("inflate"@ != "-V"@) by {
        assert("inflate"@.len() != "-V"@.len());
    }
    assert("inflate"@ != "--version"@) by {
        assert("inflate"@.len() != "--version"@.len());
    }
    assert("inflate"@ != "--quiet"@) by {
        assert("inflate"@[0] != "--quiet"@[0]);
    }
    assert("inflate"@ != "--verbose"@) by {
        assert("inflate"@.len() != "--verbose"@.len());
    }
    assert("grow"@ != "inflate"@) by {
        assert("grow"@.len() != "inflate"@.len());
    }
    assert("grow"@ != "restore"@) by {
        assert("grow"@.len() != "restore"@.len());
    }
    assert("grow"@ != "info"@) by {
        assert("grow"@[0] != "info"@[0]);
    }
    assert("grow"@ != "cake"@) by {
        assert("grow"@[0] != "cake"@[0]);
    }
    assert("grow"@ != "feast"@) by {
        assert("grow"@.len() != "feast"@.len());
    }
    assert("grow"@ != "buffet"@) by {
        assert("grow"@.len() != "buffet"@.len());
    }
    assert("grow"@ != "diet"@) by {
        assert("grow"@[0] != "diet"@[0]);
    }
    assert("grow"@ != "slim"@) by {
        assert("grow"@[0] != "slim"@[0]);
    }
    assert("grow"@ != "help"@) by {
        assert("grow"@[0] != "help"@[0]);
    }
    assert("grow"@ != "-h"@) by {
        assert("grow"@.len() != "-h"@.len());
    }
    assert("grow"@ != "--help"@) by {
        assert("grow"@.len() != "--help"@.len());
    }
    assert("grow"@ != "-V"@) by {
        assert("grow"@.len() != "-V"@.len());
    }
    assert("grow"@ != "--version"@) by {
        assert("grow"@.len() != "--version"@.len());
    }
    assert("grow"@ != "--quiet"@) by {
        assert("grow"@.len() != "--quiet"@.len());
    }
    assert("grow"@ != "--verbose"@) by {
        assert("grow"@.len() != "--verbose"@.len());
    }
    assert("restore"@ != "inflate"@) by {
        assert("restore"@[0] != "inflate"@[0]);
    }
    assert("restore"@ != "grow"@) by {
        assert("restore"@.len() != "grow"@.len());
    }
    assert("restore"@ != "info"@) by {
        assert("restore"@.len() != "info"@.len());
    }
    assert("restore"@ != "cake"@) by {
        assert("restore"@.len() != "cake"@.len());
    }
    assert("restore"@ != "feast"@) by {
        assert("restore"@.len() != "feast"@.len());
    }
    assert("restore"@ != "buffet"@) by {
        assert("restore"@.len() != "buffet"@.len());
    }
    assert("restore"@ != "diet"@) by {
        assert("restore"@.len() != "diet"@.len());
    }
    assert("restore"@ != "slim"@) by {
        assert("restore"@.len() != "slim"@.len());
    }
    assert("restore"@ != "help"@) by {
        assert("restore"@.len() != "help"@.len());
    }
    assert("restore"@ != "-h"@) by {
        assert("restore"@.len() != "-h"@.len());
    }
    assert("restore"@ != "--help"@) by {
        assert("restore"@.len() != "--help"@.len());
    }
    assert("restore"@ != "-V"@) by {
        assert("restore"@.len() != "-V"@.len());
    }
    assert("restore"@ != "--version"@) by {
        assert("restore"@.len() != "--version"@.len());
    }
    assert("restore"@ != "--quiet"@) by {
        assert("restore"@[0] != "--quiet"@[0]);
    }
    assert("restore"@ != "--verbose"@) by {
        assert("restore"@.len() != "--verbose"@.len());
    }
    assert("info"@ != "inflate"@) by {
        assert("info"@.len() != "inflate"@.len());
    }
    assert("info"@ != "grow"@) by {
        assert("info"@[0] != "grow"@[0]);
    }
    assert("info"@ != "restore"@) by {
        assert("info"@.len() != "restore"@.len());
    }
    assert("info"@ != "cake"@) by {
        assert("info"@[0] != "cake"@[0]);
    }
    assert("info"@ != "feast"@) by {
        assert("info"@.len() != "feast"@.len());
    }
    assert("info"@ != "buffet"@) by {
        assert("info"@.len() != "buffet"@.len());
    }
    assert("info"@ != "diet"@) by {
        assert("info"@[0] != "diet"@[0]);
    }
    assert("info"@ != "slim"@) by {
        assert("info"@[0] != "slim"@[0]);
    }
    assert("info"@ != "help"@) by {
        assert("info"@[0] != "help"@[0]);
    }
    assert("info"@ != "-h"@) by {
        assert("info"@.len() != "-h"@.len());
    }
    assert("info"@ != "--help"@) by {
        assert("info"@.len() != "--help"@.len());
    }
    assert("info"@ != "-V"@) by {
        assert("info"@.len() != "-V"@.len());
    }
    assert("info"@ != "--version"@) by {
        assert("info"@.len() != "--version"@.len());
    }
    assert("info"@ != "--quiet"@) by {
        assert("info"@.len() != "--quiet"@.len());
    }
    assert("info"@ != "--verbose"@) by {
        assert("info"@.len() != "--verbose"@.len());
    }
    assert("cake"@ != "inflate"@) by {
        assert("cake"@.len() != "inflate"@.len());
    }
    assert("cake"@ != "grow"@) by {
        assert("cake"@[0] != "grow"@[0]);
    }
    assert("cake"@ != "restore"@) by {
        assert("cake"@.len() != "restore"@.len());
    }
    assert("cake"@ != "info"@) by {
        assert("cake"@[0] != "info"@[0]);
    }
    assert("cake"@ != "feast"@) by {
        assert("cake"@.len() != "feast"@.len());
    }
    assert("cake"@ != "buffet"@) by {
        assert("cake"@.len() != "buffet"@.len());
    }
    assert("cake"@ != "diet"@) by {
        assert("cake"@[0] != "diet"@[0]);
    }
    assert("cake"@ != "slim"@) by {
        assert("cake"@[0] != "slim"@[0]);
    }
    assert("cake"@ != "help"@) by {
        assert("cake"@[0] != "help"@[0]);
    }
    assert("cake"@ != "-h"@) by {
        assert("cake"@.len() != "-h"@.len());
    }
    assert("cake"@ != "--help"@) by {
        assert("cake"@.len() != "--help"@.len());
    }
    assert("cake"@ != "-V"@) by {
        assert("cake"@.len() != "-V"@.len());
    }
    assert("cake"@ != "--version"@) by {
        assert("cake"@.len() != "--version"@.len());
    }
    assert("cake"@ != "--quiet"@) by {
        assert("cake"@.len() != "--quiet"@.len());
    }
    assert("cake"@ != "--verbose"@) by {
        assert("cake"@.len() != "--verbose"@.len());
    }
    assert("feast"@ != "inflate"@) by {
        assert("feast"@.len() != "inflate"@.len());
    }
    assert("feast"@ != "grow"@) by {
        assert("feast"@.len() != "grow"@.len());
    }
    assert("feast"@ != "restore"@) by {
        assert("feast"@.len() != "restore"@.len());
    }
    assert("feast"@ != "info"@) by {
        assert("feast"@.len() != "info"@.len());
    }
    assert("feast"@ != "cake"@) by {
        assert("feast"@.len() != "cake"@.len());
    }
    assert("feast"@ != "buffet"@) by {
        assert("feast"@.len() != "buffet"@.len());
    }
    assert("feast"@ != "diet"@) by {
        assert("feast"@.len() != "diet"@.len());
    }
    assert("feast"@ != "slim"@) by {
        assert("feast"@.len() != "slim"@.len());
    }
    assert("feast"@ != "help"@) by {
        assert("feast"@.len() != "help"@.len());
    }
    assert("feast"@ != "-h"@) by {
        assert("feast"@.len() != "-h"@.len());
    }
    assert("feast"@ != "--help"@) by {
        assert("feast"@.len() != "--help"@.len());
    }
    assert("feast"@ != "-V"@) by {
        assert("feast"@.len() != "-V"@.len());
    }
    assert("feast"@ != "--version"@) by {
        assert("feast"@.len() != "--version"@.len());
    }
    assert("feast"@ != "--quiet"@) by {
        assert("feast"@.len() != "--quiet"@.len());
    }
    assert("feast"@ != "--verbose"@) by {
        assert("feast"@.len() != "--verbose"@.len());
    }
    assert("buffet"@ != "inflate"@) by {
        assert("buffet"@.len() != "inflate"@.len());
    }
    assert("buffet"@ != "grow"@) by {
        assert("buffet"@.len() != "grow"@.len());
    }
    assert("buffet"@ != "restore"@) by {
        assert("buffet"@.len() != "restore"@.len());
    }
    assert("buffet"@ != "info"@) by {
        assert("buffet"@.len() != "info"@.len());
    }
    assert("buffet"@ != "cake"@) by {
        assert("buffet"@.len() != "cake"@.len());
    }
    assert("buffet"@ != "feast"@) by {
        assert("buffet"@.len() != "feast"@.len());
    }
    assert("buffet"@ != "diet"@) by {
        assert("buffet"@.len() != "diet"@.len());
    }
    assert("buffet"@ != "slim"@) by {
        assert("buffet"@.len() != "slim"@.len());
    }
    assert("buffet"@ != "help"@) by {
        assert("buffet"@.len() != "help"@.len());
    }
    assert("buffet"@ != "-h"@) by {
        assert("buffet"@.len() != "-h"@.len());
    }
    assert("buffet"@ != "--help"@) by {
        assert("buffet"@[0] != "--help"@[0]);
    }
    assert("buffet"@ != "-V"@) by {
        assert("buffet"@.len() != "-V"@.len());
    }
    assert("buffet"@ != "--version"@) by {
        assert("buffet"@.len() != "--version"@.len());
    }
    assert("buffet"@ != "--quiet"@) by {
        assert("buffet"@.len() != "--quiet"@.len());
    }
    assert("buffet"@ != "--verbose"@) by {
        assert("buffet"@.len() != "--verbose"@.len());
    }
    assert("diet"@ != "inflate"@) by {
        assert("diet"@.len() != "inflate"@.len());
    }
    assert("diet"@ != "grow"@) by {
        assert("diet"@[0] != "grow"@[0]);
    }
    assert("diet"@ != "restore"@) by {
        assert("diet"@.len() != "restore"@.len());
    }
    assert("diet"@ != "info"@) by {
        assert("diet"@[0] != "info"@[0]);
    }
    assert("diet"@ != "cake"@) by {
        assert("diet"@[0] != "cake"@[0]);
    }
    assert("diet"@ != "feast"@) by {
        assert("diet"@.len() != "feast"@.len());
    }
    assert("diet"@ != "buffet"@) by {
        assert("diet"@.len() != "buffet"@.len());
    }
    assert("diet"@ != "slim"@) by {
        assert("diet"@[0] != "slim"@[0]);
    }
    assert("diet"@ != "help"@) by {
        assert("diet"@[0] != "help"@[0]);
    }
    assert("diet"@ != "-h"@) by {
        assert("diet"@.len() != "-h"@.len());
    }
    assert("diet"@ != "--help"@) by {
        assert("diet"@.len() != "--help"@.len());
    }
    assert("diet"@ != "-V"@) by {
        assert("diet"@.len() != "-V"@.len());
    }
    assert("diet"@ != "--version"@) by {
        assert("diet"@.len() != "--version"@.len());
    }
    assert("diet"@ != "--quiet"@) by {
        assert("diet"@.len() != "--quiet"@.len());
    }
    assert("diet"@ != "--verbose"@) by {
        assert("diet"@.len() != "--verbose"@.len());
    }
    assert("slim"@ != "inflate"@) by {
        assert("slim"@.len() != "inflate"@.len());
    }
    assert("slim"@ != "grow"@) by {
        assert("slim"@[0] != "grow"@[0]);
    }
    assert("slim"@ != "restore"@) by {
        assert("slim"@.len() != "restore"@.len());
    }
    assert("slim"@ != "info"@) by {
        assert("slim"@[0] != "info"@[0]);
    }
    assert("slim"@ != "cake"@) by {
        assert("slim"@[0] != "cake"@[0]);
    }
    assert("slim"@ != "feast"@) by {
        assert("slim"@.len() != "feast"@.len());
    }
    assert("slim"@ != "buffet"@) by {
        assert("slim"@.len() != "buffet"@.len());
    }
    assert("slim"@ != "diet"@) by {
        assert("slim"@[0] != "diet"@[0]);
    }
    assert("slim"@ != "help"@) by {
        assert("slim"@[0] != "help"@[0]);
    }
    assert("slim"@ != "-h"@) by {
        assert("slim"@.len() != "-h"@.len());
    }
    assert("slim"@ != "--help"@) by {
        assert("slim"@.len() != "--help"@.len());
    }
    assert("slim"@ != "-V"@) by {
        assert("slim"@.len() != "-V"@.len());
    }
    assert("slim"@ != "--version"@) by {
        assert("slim"@.len() != "--version"@.len());
    }
    assert("slim"@ != "--quiet"@) by {
        assert("slim"@.len() != "--quiet"@.len());
    }
    assert("slim"@ != "--verbose"@) by {
        assert("slim"@.len() != "--verbose"@.len());
    }
    assert("help"@ != "inflate"@) by {
        assert("help"@.len() != "inflate"@.len());
    }
    assert("help"@ != "grow"@) by {
        assert("help"@[0] != "grow"@[0]);
    }
    assert("help"@ != "restore"@) by {
        assert("help"@.len() != "restore"@.len());
    }
    assert("help"@ != "info"@) by {
        assert("help"@[0] != "info"@[0]);
    }
    assert("help"@ != "cake"@) by {
        assert("help"@[0] != "cake"@[0]);
    }
    assert("help"@ != "feast"@) by {
        assert("help"@.len() != "feast"@.len());
    }
    assert("help"@ != "buffet"@) by {
        assert("help"@.len() != "buffet"@.len());
    }
    assert("help"@ != "diet"@) by {
        assert("help"@[0] != "diet"@[0]);
    }
    assert("help"@ != "slim"@) by {
        assert("help"@[0] != "slim"@[0]);
    }
    assert("help"@ != "-h"@) by {
        assert("help"@.len() != "-h"@.len());
    }
    assert("help"@ != "--help"@) by {
        assert("help"@.len() != "--help"@.len());
    }
    assert("help"@ != "-V"@) by {
        assert("help"@.len() != "-V"@.len());
    }
    assert("help"@ != "--version"@) by {
        assert("help"@.len() != "--version"@.len());
    }
    assert("help"@ != "--quiet"@) by {
        assert("help"@.len() != "--quiet"@.len());
    }
    assert("help"@ != "--verbose"@) by {
        assert("help"@.len() != "--verbose"@.len());
    }
    assert(!("-h"@[1] == 'q' || "-h"@[1] == 'v'));
    assert(!("--help"@[1] == 'q' || "--help"@[1] == 'v'));
    assert(!("-V"@[1] == 'q' || "-V"@[1] == 'v'));
    assert(!("--version"@[1] == 'q' || "--version"@[1] == 'v'));
    assert("inflate"@[0] != '-');
    assert("grow"@[0] != '-');
    assert("restore"@[0] != '-');
    assert("info"@[0] != '-');
    assert("cake"@[0] != '-');
    assert("feast"@[0] != '-');
    assert("buffet"@[0] != '-');
    assert("diet"@[0] != '-');
    assert("slim"@[0] != '-');
    assert("help"@[0] != '-');
}

/// Law: after any leading global flags, a help or version request (`-h`,
/// `--help`, `-V`, `--version`) or a subcommand name implies no `grow`, so
/// the parser answers it; any other token that does not start with `-` is a
/// path, and `grow` goes right before it.
pub proof fn law_implicit_grow(args: Seq<Seq<char>>, i: nat)
    requires
        1 <= i < args.len(),
        forall|k: int| 1 <= k < i ==> is_global_flag(#[trigger] args[k]),
    ensures
        (args[i as int] == "-h"@ || args[i as int] == "--help"@ || args[i as int] == "-V"@ || args[i as int] == "--version"@) ==> spec_implicit_grow_at(args, 1)
            == None::<nat>,
        (args[i as int] == "inflate"@ || args[i as int] == "grow"@ || args[i as int] == "restore"@ || args[i as int] == "info"@ || args[i as int] == "cake"@ || args[i as int] == "feast"@ || args[i as int] == "buffet"@ || args[i as int] == "diet"@ || args[i as int] == "slim"@ || args[i as int] == "help"@) ==> spec_implicit_grow_at(args, 1)
            == None::<nat>,
        (args[i as int].len() == 0 || args[i as int][0] != '-') && !(args[i as int] == "inflate"@ || args[i as int] == "grow"@ || args[i as int] == "restore"@ || args[i as int] == "info"@ || args[i as int] == "cake"@ || args[i as int] == "feast"@ || args[i as int] == "buffet"@ || args[i as int] == "diet"@ || args[i as int] == "slim"@ || args[i as int] == "help"@)
            ==> spec_implicit_grow_at(args, 1) == Some(i),
{
    lemma_skip_global_flags(args, 1, i);
    lemma_token_literals();
    let t = args[i as int];
    if t.len() == 0 || t[0] != '-' {
        reveal_strlit("--quiet");
        assert(t != "--quiet"@) by {
            if t == "--quiet"@ {
                assert(t.len() > 0 && t[0] == '-');
            }
        }
        reveal_strlit("--verbose");
        assert(t != "--verbose"@) by {
            if t == "--verbose"@ {
                assert(t.len() > 0 && t[0] == '-');
            }
        }
        reveal_strlit("-h");
        assert(t != "-h"@) by {
            if t == "-h"@ {
                assert(t.len() > 0 && t[0] == '-');
            }
        }
        reveal_strlit("--help");
        assert(t != "--help"@) by {
            if t == "--help"@ {
                assert(t.len() > 0 && t[0] == '-');
            }
        }
        reveal_strlit("-V");
        assert(t != "-V"@) by {
            if t == "-V"@ {
                assert(t.len() > 0 && t[0] == '-');
            }
        }
        reveal_strlit("--version");
        assert(t != "--version"@) by {
            if t == "--version"@ {
                assert(t.len() > 0 && t[0] == '-');
            }
        }
        assert(!is_global_flag(t));
        assert(!is_help_request(t));
    }
}

} // verus!
