use vstd::prelude::*;
use vstd::string::*;

verus! {

/// Where the store lives when `--db` is not given.
pub open spec fn default_db_path() -> Seq<char> {
    "sled-exec.db"@
}

/// What the command line asks for.
#[derive(Debug)]
pub struct Options {
    /// Path of the store to open or create.
    pub db_path: String,
    /// Whether the store compresses its log.
    pub compress: bool,
    /// The command to run and its arguments, passed through unchanged.
    pub command: Vec<String>,
}

/// Why the command line was refused; each ends in the usage message.
#[derive(Debug)]
pub enum ArgError {
    /// `-h` or `--help`.
    Help,
    /// `--db` with no path after it.
    MissingDbPath,
    /// An unknown flag before the command.
    InvalidArgument(String),
    /// No command was given.
    MissingCommand,
}

/// Where scanning the options ends.
pub enum Scan {
    /// The command starts at `start` (possibly past the end).
    Command { start: int, db: Seq<char>, compress: bool },
    Help,
    MissingDbPath,
    Invalid { at: int },
}

/// Whether an argument looks like a flag.
pub open spec fn is_flag(a: Seq<char>) -> bool {
    a.len() > 0 && a[0] == '-'
}

/// Scans the options from position `i` on, with the store path and
/// compression chosen so far: `--` ends them, `--db` takes the next
/// argument as the path (a later one wins), `--compress` turns compression
/// on, `-h` and `--help` ask for help, any other flag is refused, and the
/// first other argument starts the command.
pub open spec fn scan(args: Seq<Seq<char>>, i: int, db: Seq<char>, compress: bool) -> Scan
    decreases args.len() - i,
{
    if i < 0 || i >= args.len() {
        Scan::Command { start: i, db, compress }
    } else if args[i] == "--"@ {
        Scan::Command { start: i + 1, db, compress }
    } else if args[i] == "--db"@ {
        if i + 1 < args.len() {
            scan(args, i + 2, args[i + 1], compress)
        } else {
            Scan::MissingDbPath
        }
    } else if args[i] == "--compress"@ {
        scan(args, i + 1, db, true)
    } else if args[i] == "-h"@ || args[i] == "--help"@ {
        Scan::Help
    } else if is_flag(args[i]) {
        Scan::Invalid { at: i }
    } else {
        Scan::Command { start: i, db, compress }
    }
}

/// The characters of each argument.
pub open spec fn views(args: Seq<String>) -> Seq<Seq<char>> {
    args.map_values(|a: String| a@)
}

/// What `parse_args` returns for `args`.
pub open spec fn parsed(args: Seq<String>, r: Result<Options, ArgError>) -> bool {
    let v = views(args);
    match scan(v, 0, default_db_path(), false) {
        Scan::Command { start, db, compress } => if start < v.len() {
            r matches Ok(o) && o.db_path@ == db && o.compress == compress && views(o.command@)
                == v.subrange(start, v.len() as int)
        } else {
            r matches Err(ArgError::MissingCommand)
        },
        Scan::Help => r matches Err(ArgError::Help),
        Scan::MissingDbPath => r matches Err(ArgError::MissingDbPath),
        Scan::Invalid { at } => r matches Err(ArgError::InvalidArgument(a)) && a@ == v[at],
    }
}

fn is_word(a: &String, w: &str) -> (r: bool)
    ensures
        r == (a@ == w@),
{
    let owned = w.to_owned();
    *a == owned
}

fn looks_like_flag(a: &String) -> (r: bool)
    ensures
        r == is_flag(a@),
{
    let s = a.as_str();
    s.unicode_len() > 0 && s.get_char(0) == '-'
}

fn command_from(args: &Vec<String>, start: usize, db: String, compress: bool) -> (r: Result<Options, ArgError>)
    requires
        start <= args@.len(),
    ensures
        start < args@.len() ==> (r matches Ok(o) && o.db_path == db && o.compress == compress
            && views(o.command@) == views(args@).subrange(start as int, args@.len() as int)),
        start == args@.len() ==> (r matches Err(ArgError::MissingCommand)),
{
    if start == args.len() {
        return Err(ArgError::MissingCommand);
    }
    let mut command: Vec<String> = Vec::new();
    let mut i: usize = start;
    while i < args.len()
        invariant
            start <= i <= args@.len(),
            command@.len() == i - start,
            views(command@) == views(args@).subrange(start as int, i as int),
        decreases args@.len() - i,
    {
        let a = args[i].clone();
        let ghost before = command@;
        command.push(a);
        proof {
            assert(command@ == before.push(args@[i as int]));
            assert(views(before) == views(args@).subrange(start as int, i as int));
            assert forall|k: int| 0 <= k < command@.len() implies #[trigger] views(command@)[k]
                == views(args@).subrange(start as int, i + 1)[k] by {
                assert(views(command@)[k] == command@[k]@);
                if k < before.len() {
                    assert(views(before)[k] == before[k]@);
                } else {
                    assert(command@[k] == args@[i as int]);
                }
            }
        }
        i = i + 1;
        assert(views(command@) =~= views(args@).subrange(start as int, i as int));
    }
    Ok(Options { db_path: db, compress, command })
}

/// Reads the command line (without the program's own name):
/// `[--db PATH] [--compress] [--] COMMAND [ARGS...]`.
pub fn parse_args(args: &Vec<String>) -> (r: Result<Options, ArgError>)
    ensures
        parsed(args@, r),
{
    let ghost v = views(args@);
    let mut db = "sled-exec.db".to_owned();
    let mut compress = false;
    let mut i: usize = 0;
    while i < args.len()
        invariant
            v == views(args@),
            0 <= i <= args@.len(),
            scan(v, i as int, db@, compress) == scan(v, 0, default_db_path(), false),
        decreases args@.len() - i,
    {
        let a = &args[i];
        if is_word(a, "--") {
            return command_from(args, i + 1, db, compress);
        } else if is_word(a, "--db") {
            if i + 1 < args.len() {
                db = args[i + 1].clone();
                i = i + 2;
            } else {
                return Err(ArgError::MissingDbPath);
            }
        } else if is_word(a, "--compress") {
            compress = true;
            i = i + 1;
        } else if is_word(a, "-h") || is_word(a, "--help") {
            return Err(ArgError::Help);
        } else if looks_like_flag(a) {
            return Err(ArgError::InvalidArgument(a.clone()));
        } else {
            return command_from(args, i, db, compress);
        }
    }
    command_from(args, i, db, compress)
}

} // verus!
