//! The node's command line: `--log-dir <dir>` names where logs go; any other
//! argument is reported as unknown.
use vstd::prelude::*;

verus! {

/// What the command line asks of the node.
pub struct Args {
    pub log_dir: Option<String>,
    /// Arguments not understood, in the order given.
    pub unknown: Vec<String>,
}

/// The result of scanning `args` from position `i`, with `log_dir` and
/// `unknown` as found before it. `--log-dir` takes the argument after it,
/// or clears the directory when it comes last; a later one wins.
pub open spec fn scan_args(
    args: Seq<String>,
    i: int,
    log_dir: Option<Seq<char>>,
    unknown: Seq<Seq<char>>,
) -> (Option<Seq<char>>, Seq<Seq<char>>)
    decreases args.len() - i,
{
    if i < 0 || i >= args.len() {
        (log_dir, unknown)
    } else if args[i]@ == "--log-dir"@ {
        if i + 1 < args.len() {
            scan_args(args, i + 2, Some(args[i + 1]@), unknown)
        } else {
            scan_args(args, i + 1, None, unknown)
        }
    } else {
        scan_args(args, i + 1, log_dir, unknown.push(args[i]@))
    }
}

/// The view of an optional string.
pub open spec fn opt_view(s: Option<String>) -> Option<Seq<char>> {
    match s {
        Some(s) => Some(s@),
        None => None,
    }
}

/// Reads the arguments that follow the program name.
pub fn parse_args(args: &Vec<String>) -> (r: Args)
    ensures
        (opt_view(r.log_dir), r.unknown@.map_values(|s: String| s@)) == scan_args(
            args@,
            0,
            None,
            seq![],
        ),
{
    let flag = "--log-dir".to_owned();
    let mut log_dir: Option<String> = None;
    let mut unknown: Vec<String> = Vec::new();
    let mut i: usize = 0;
    assert(unknown@.map_values(|s: String| s@) =~= Seq::<Seq<char>>::empty());
    while i < args.len()
        invariant
            i <= args@.len(),
            flag@ == "--log-dir"@,
            scan_args(args@, i as int, opt_view(log_dir), unknown@.map_values(|s: String| s@))
                == scan_args(args@, 0, None, seq![]),
        decreases args@.len() - i,
    {
        let ghost before = unknown@;
        if args[i] == flag {
            if i + 1 < args.len() {
                log_dir = Some(args[i + 1].clone());
                i = i + 2;
            } else {
                log_dir = None;
                i = i + 1;
            }
        } else {
            unknown.push(args[i].clone());
            proof {
                assert(unknown@.map_values(|s: String| s@) =~= before.map_values(|s: String| s@).push(
                    args@[i as int]@,
                ));
            }
            i = i + 1;
        }
    }
    Args { log_dir, unknown }
}

} // verus!
