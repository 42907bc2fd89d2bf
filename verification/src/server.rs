//! Server-level decisions: the log level from the command line, the
//! workspace root from the client's initialization data, and which files the
//! workspace scan indexes.

use vstd::prelude::*;
use vstd::string::*;
use crate::text::{chars_eq, chars_of, has_prefix, lower_seq, lowered, starts_with_chars, string_of};

verus! {

/// The name the server reports to clients.
pub const SERVER_NAME: &'static str = "thymeleaf_ls";

/// The version the server reports to clients.
pub const SERVER_VERSION: &'static str = "0.0.1";

/// The log level given by the arguments from index `i` on: the value after
/// the first `--level`, or the text after the first `--level=`; `INFO` when
/// neither occurs (or `--level` is the last argument).
pub open spec fn level_from(args: Seq<Seq<char>>, i: int) -> Seq<char>
    decreases args.len() - i,
{
    if i < 0 || i >= args.len() {
        "INFO"@
    } else if args[i] == "--level"@ {
        if i + 1 < args.len() {
            args[i + 1]
        } else {
            "INFO"@
        }
    } else if has_prefix(args[i], "--level="@) {
        args[i].skip(8)
    } else {
        level_from(args, i + 1)
    }
}

pub open spec fn arg_views(args: Seq<String>) -> Seq<Seq<char>> {
    args.map_values(|a: String| a@)
}

/// Parses the log level from `--level <LEVEL>` or `--level=<LEVEL>` among the
/// command-line arguments (the first, the program name, is skipped); `INFO`
/// by default.
pub fn parse_log_level(args: &Vec<String>) -> (r: String)
    ensures
        r@ == level_from(arg_views(args@), 1),
{
    let ghost av = arg_views(args@);
    let flag = chars_of("--level");
    let prefix = chars_of("--level=");
    proof {
        reveal_strlit("--level=");
    }
    let mut i: usize = 1;
    while i < args.len()
        invariant
            1 <= i,
            av == arg_views(args@),
            flag@ == "--level"@,
            prefix@ == "--level="@,
            prefix@.len() == 8,
            level_from(av, 1) == level_from(av, i as int),
        decreases args@.len() - i,
    {
        let arg = chars_of(args[i].as_str());
        proof {
            assert(av[i as int] == args@[i as int]@);
        }
        if chars_eq(&arg, &flag) {
            if i + 1 < args.len() {
                proof {
                    assert(av[i + 1] == args@[i + 1]@);
                }
                return args[i + 1].clone();
            }
            return String::from_str("INFO");
        }
        if starts_with_chars(&arg, &prefix) {
            let level = string_of(&arg, 8, arg.len());
            proof {
                assert(arg@.subrange(8, arg@.len() as int) =~= arg@.skip(8));
            }
            return level;
        }
        i += 1;
    }
    String::from_str("INFO")
}

/// The workspace root a client designates: its first workspace folder, else
/// its root URI.
pub fn choose_root_uri(folders: &Vec<String>, root_uri: Option<String>) -> (r: Option<String>)
    ensures
        folders@.len() > 0 ==> r == Some(folders@[0]),
        folders@.len() == 0 ==> r == root_uri,
{
    if folders.len() > 0 {
        Some(folders[0].clone())
    } else {
        root_uri
    }
}

/// Whether a file extension marks an HTML template (`html`, any ASCII case).
pub fn is_html_extension(ext: &str) -> (r: bool)
    ensures
        r == (lower_seq(ext@) == "html"@),
{
    let l = lowered(ext);
    let html = chars_of("html");
    chars_eq(&l, &html)
}

} // verus!
