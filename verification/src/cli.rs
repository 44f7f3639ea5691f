//! The command line.

use crate::codex;
use crate::mcp;
use crate::text;
use vstd::prelude::*;
use vstd::string::*;

verus! {

pub const USAGE: &'static str =
    "alog -- agent trajectories, queryable

USAGE
  alog sync [<dir>...]          index sessions; no arg finds them under ~
  alog view [<dir>...]          sync, then open the browser viewer
  alog search <query>           full-text search; fts5 syntax
  alog show <session> [seq]     one session's timeline, or one record
  alog turns <session>          one line per user request: work, cost, errors
  alog sql <query>              read-only SQL over the index
  alog catalog                  what is in the store, schema and distributions
  alog errors                   failed tool calls, newest first
  alog dump [<session>]         byte-identical jsonl to stdout
  alog index <col>              build a secondary index: kind tool target ts err
  alog snapshot <out.db>        consistent copy (VACUUM INTO, never cp)
  alog doctor [all]             verify the index against the files
  alog mcp                      MCP server over stdio, for an agent
  alog stats                    ingest and size numbers

OPTIONS
  --db <path>     index location (default ~/.alog/index.db, or $ALOG_DB)
  --limit <n>     max rows (default 50; search 20)
  --port <n>      viewer port (default 8877)
  --json          machine-readable output, and errors as {error:{kind,hint,...}}
  --no-snippets   skip source reads in search results
  -j <n>          scan threads (default: cores)
";

// ---------------------------------------------------------------------------
// Options
// ---------------------------------------------------------------------------

/// The options of a command line, and what else stands on it. `limited` says
/// whether a limit was given.
#[derive(Debug)]
pub struct Opts {
    pub db: String,
    pub limit: usize,
    pub limited: bool,
    pub port: u16,
    pub snippets: bool,
    pub json: bool,
    pub threads: usize,
    pub rest: Vec<String>,
}

/// What an `Opts` stands for.
pub struct OptsV {
    pub db: Seq<char>,
    pub limit: int,
    pub limited: bool,
    pub port: int,
    pub snippets: bool,
    pub json: bool,
    pub threads: int,
    pub rest: Seq<Seq<char>>,
}

impl View for Opts {
    type V = OptsV;

    open spec fn view(&self) -> OptsV {
        OptsV {
            db: self.db@,
            limit: self.limit as int,
            limited: self.limited,
            port: self.port as int,
            snippets: self.snippets,
            json: self.json,
            threads: self.threads as int,
            rest: text::texts(self.rest@),
        }
    }
}

/// An argument, empty behind the last one.
pub open spec fn arg(args: Seq<Seq<char>>, i: int) -> Seq<char> {
    if 0 <= i < args.len() {
        args[i]
    } else {
        Seq::empty()
    }
}

/// A number up to `max`, or a default.
pub open spec fn number_or(s: Seq<char>, max: int, d: int) -> int {
    match text::parse_unsigned(s, max) {
        Some(n) => n as int,
        None => d,
    }
}

/// An option that takes a value.
pub open spec fn takes_value(a: Seq<char>) -> bool {
    a == "--db"@ || a == "--limit"@ || a == "-n"@ || a == "--port"@ || a == "-j"@
}

/// The options with one more argument; `v` is the one behind it.
pub open spec fn with_arg(o: OptsV, a: Seq<char>, v: Seq<char>) -> OptsV {
    if a == "--db"@ {
        OptsV { db: v, ..o }
    } else if a == "--limit"@ || a == "-n"@ {
        OptsV { limit: number_or(v, usize::MAX as int, 50), limited: true, ..o }
    } else if a == "--port"@ {
        OptsV { port: number_or(v, 65535, 8877), ..o }
    } else if a == "-j"@ {
        let n = number_or(v, usize::MAX as int, o.threads);
        OptsV {
            threads: if n < 1 {
                1
            } else {
                n
            },
            ..o
        }
    } else if a == "--no-snippets"@ {
        OptsV { snippets: false, ..o }
    } else if a == "--json"@ {
        OptsV { json: true, ..o }
    } else {
        OptsV { rest: o.rest.push(a), ..o }
    }
}

/// The options after the arguments from index `i` on.
pub open spec fn options(args: Seq<Seq<char>>, i: int, o: OptsV) -> OptsV
    decreases args.len() - i + 1,
{
    if !(0 <= i < args.len()) {
        o
    } else {
        options(
            args,
            if takes_value(args[i]) {
                i + 2
            } else {
                i + 1
            },
            with_arg(o, args[i], arg(args, i + 1)),
        )
    }
}

/// The options before any argument.
pub open spec fn no_options(db: Seq<char>, threads: int) -> OptsV {
    OptsV {
        db,
        limit: 0,
        limited: false,
        port: 8877,
        snippets: true,
        json: false,
        threads,
        rest: Seq::empty(),
    }
}

fn read_number(s: &str, max: u64, d: u64) -> (r: u64)
    requires
        d <= max,
    ensures
        r == number_or(s@, max as int, d as int),
        r <= max,
{
    match text::read_unsigned(&text::chars_of(s), max) {
        Some(n) => n,
        None => d,
    }
}

impl Opts {
    fn take(&mut self, a: &str, v: &str)
        ensures
            final(self)@ == with_arg(old(self)@, a@, v@),
    {
        if text::same(a, "--db") {
            self.db = v.to_owned();
        } else if text::same(a, "--limit") || text::same(a, "-n") {
            self.limit = read_number(v, usize::MAX as u64, 50) as usize;
            self.limited = true;
        } else if text::same(a, "--port") {
            self.port = read_number(v, 65535, 8877) as u16;
        } else if text::same(a, "-j") {
            let n: usize = read_number(v, usize::MAX as u64, self.threads as u64) as usize;
            self.threads = if n < 1 {
                1
            } else {
                n
            };
        } else if text::same(a, "--no-snippets") {
            self.snippets = false;
        } else if text::same(a, "--json") {
            self.json = true;
        } else {
            let one = a.to_owned();
            self.rest.push(one);
            assert(text::texts(self.rest@) =~= text::texts(old(self).rest@).push(a@));
        }
    }
}

/// Reads the options of a command line. They may stand before or behind the
/// command. `db` and `threads` count where no option says otherwise.
pub fn parse(args: &Vec<String>, db: String, threads: usize) -> (r: Opts)
    ensures
        r@ == options(text::texts(args@), 0, no_options(db@, threads as int)),
{
    let ghost all = text::texts(args@);
    let mut o = Opts {
        db,
        limit: 0,
        limited: false,
        port: 8877,
        snippets: true,
        json: false,
        threads,
        rest: Vec::new(),
    };
    assert(text::texts(o.rest@) =~= Seq::empty());
    let ghost first = o@;
    let none = String::new();
    assert(none@ =~= Seq::empty());
    let mut i: usize = 0;
    while i < args.len()
        invariant
            i <= args@.len(),
            all == text::texts(args@),
            none@ == Seq::<char>::empty(),
            options(all, 0, first) == options(all, i as int, o@),
        decreases args.len() - i,
    {
        let a = args[i].as_str();
        let v = if args.len() - i > 1 {
            args[i + 1].as_str()
        } else {
            none.as_str()
        };
        assert(v@ == arg(all, i + 1));
        let pair = text::same(a, "--db") || text::same(a, "--limit") || text::same(a, "-n")
            || text::same(a, "--port") || text::same(a, "-j");
        o.take(a, v);
        if !pair {
            i += 1;
        } else if args.len() - i > 1 {
            i += 2;
        } else {
            assert(options(all, i + 2, o@) == o@);
            assert(options(all, i + 1, o@) == o@);
            i += 1;
        }
    }
    o
}

/// How a run starts.
#[derive(Clone, Copy, Debug, PartialEq, Eq, Structural)]
pub enum Start {
    Usage,
    Version,
    Run { json: bool },
}

/// How a run starts: with the usage where it is asked for or nothing else is,
/// with the version, or with a command, whose errors may be wanted as JSON.
pub open spec fn start_of(args: Seq<Seq<char>>) -> Start {
    if args.contains("-h"@) || args.contains("--help"@) || args.len() == 0 {
        Start::Usage
    } else if args.contains("--version"@) || args.contains("-V"@) {
        Start::Version
    } else {
        Start::Run { json: args.contains("--json"@) }
    }
}

/// Whether an argument stands on the command line.
fn has(args: &Vec<String>, a: &str) -> (r: bool)
    ensures
        r == text::texts(args@).contains(a@),
{
    let ghost all = text::texts(args@);
    let mut i: usize = 0;
    while i < args.len()
        invariant
            i <= args@.len(),
            all == text::texts(args@),
            forall|k: int| 0 <= k < i ==> #[trigger] all[k] != a@,
        decreases args.len() - i,
    {
        assert(all[i as int] == args@[i as int]@);
        if text::same(args[i].as_str(), a) {
            return true;
        }
        i += 1;
    }
    false
}

/// How a run starts.
pub fn start(args: &Vec<String>) -> (r: Start)
    ensures
        r == start_of(text::texts(args@)),
{
    if has(args, "-h") || has(args, "--help") || args.len() == 0 {
        Start::Usage
    } else if has(args, "--version") || has(args, "-V") {
        Start::Version
    } else {
        Start::Run { json: has(args, "--json") }
    }
}

// ---------------------------------------------------------------------------
// Commands
// ---------------------------------------------------------------------------

/// What a command line asks for.
#[derive(Debug)]
pub enum Command {
    Sync { dirs: Vec<String> },
    View { dirs: Vec<String> },
    Search { query: String, limit: usize },
    Outline { session: String, limit: usize },
    Record { session: String, seq: String },
    Turns { session: String, limit: usize },
    Sql { query: String, limit: usize },
    Catalog,
    Errors { limit: usize },
    Dump { only: Option<String> },
    Index { name: String },
    Snapshot { out: String },
    Mcp,
    Doctor { sample: usize },
    Stats,
    /// The command line is wrong. Some mistakes are only told where there is an
    /// index.
    Bad { index_first: bool, message: String },
}

/// What a `Command` stands for.
pub enum CommandV {
    Sync { dirs: Seq<Seq<char>> },
    View { dirs: Seq<Seq<char>> },
    Search { query: Seq<char>, limit: int },
    Outline { session: Seq<char>, limit: int },
    Record { session: Seq<char>, seq: Seq<char> },
    Turns { session: Seq<char>, limit: int },
    Sql { query: Seq<char>, limit: int },
    Catalog,
    Errors { limit: int },
    Dump { only: Option<Seq<char>> },
    Index { name: Seq<char> },
    Snapshot { out: Seq<char> },
    Mcp,
    Doctor { sample: int },
    Stats,
    Bad { index_first: bool, message: Seq<char> },
}

impl View for Command {
    type V = CommandV;

    open spec fn view(&self) -> CommandV {
        match self {
            Command::Sync { dirs } => CommandV::Sync { dirs: text::texts(dirs@) },
            Command::View { dirs } => CommandV::View { dirs: text::texts(dirs@) },
            Command::Search { query, limit } => CommandV::Search {
                query: query@,
                limit: *limit as int,
            },
            Command::Outline { session, limit } => CommandV::Outline {
                session: session@,
                limit: *limit as int,
            },
            Command::Record { session, seq } => CommandV::Record { session: session@, seq: seq@ },
            Command::Turns { session, limit } => CommandV::Turns {
                session: session@,
                limit: *limit as int,
            },
            Command::Sql { query, limit } => CommandV::Sql { query: query@, limit: *limit as int },
            Command::Catalog => CommandV::Catalog,
            Command::Errors { limit } => CommandV::Errors { limit: *limit as int },
            Command::Dump { only } => CommandV::Dump {
                only: match only {
                    Some(s) => Some(s@),
                    None => None,
                },
            },
            Command::Index { name } => CommandV::Index { name: name@ },
            Command::Snapshot { out } => CommandV::Snapshot { out: out@ },
            Command::Mcp => CommandV::Mcp,
            Command::Doctor { sample } => CommandV::Doctor { sample: *sample as int },
            Command::Stats => CommandV::Stats,
            Command::Bad { index_first, message } => CommandV::Bad {
                index_first: *index_first,
                message: message@,
            },
        }
    }
}

/// A limit, or a default where it is zero.
pub open spec fn limit_or(limit: int, d: int) -> int {
    if limit == 0 {
        d
    } else {
        limit
    }
}

/// A command whose argument is missing.
pub open spec fn missing(index_first: bool, what: Seq<char>) -> CommandV {
    CommandV::Bad { index_first, message: what }
}

/// What a command with its arguments asks for. Of `doctor` a limit says how many
/// records of each session are read back, one where none is given, and all where
/// it is zero.
pub open spec fn command_of(
    cmd: Seq<char>,
    args: Seq<Seq<char>>,
    limit: int,
    limited: bool,
) -> CommandV {
    if cmd == "sync"@ {
        CommandV::Sync { dirs: args }
    } else if cmd == "view"@ {
        CommandV::View { dirs: args }
    } else if cmd == "search"@ {
        let q = text::join(args, " "@);
        if q.len() == 0 {
            missing(true, "search needs a query"@)
        } else {
            CommandV::Search { query: q, limit: limit_or(limit, 20) }
        }
    } else if cmd == "show"@ {
        if args.len() == 0 {
            missing(true, "show needs a session"@)
        } else if args.len() == 1 {
            CommandV::Outline { session: args[0], limit: limit_or(limit, 80) }
        } else {
            CommandV::Record { session: args[0], seq: args[1] }
        }
    } else if cmd == "turns"@ {
        if args.len() == 0 {
            missing(true, "turns needs a session"@)
        } else {
            CommandV::Turns { session: args[0], limit: limit_or(limit, 60) }
        }
    } else if cmd == "sql"@ {
        CommandV::Sql { query: text::join(args, " "@), limit: limit_or(limit, 50) }
    } else if cmd == "catalog"@ {
        CommandV::Catalog
    } else if cmd == "errors"@ {
        CommandV::Errors { limit: limit_or(limit, 50) }
    } else if cmd == "dump"@ {
        CommandV::Dump {
            only: if args.len() > 0 {
                Some(args[0])
            } else {
                None
            },
        }
    } else if cmd == "index"@ {
        if args.len() == 0 {
            missing(false, "index needs a column name"@)
        } else {
            CommandV::Index { name: args[0] }
        }
    } else if cmd == "snapshot"@ {
        if args.len() == 0 {
            missing(false, "snapshot needs an output path"@)
        } else {
            CommandV::Snapshot { out: args[0] }
        }
    } else if cmd == "mcp"@ {
        CommandV::Mcp
    } else if cmd == "doctor"@ {
        CommandV::Doctor {
            sample: if args.contains("all"@) {
                0
            } else if limited {
                limit
            } else {
                1
            },
        }
    } else if cmd == "stats"@ {
        CommandV::Stats
    } else {
        CommandV::Bad {
            index_first: false,
            message: "unknown command "@ + cmd + "\n\n"@ + USAGE@,
        }
    }
}

/// What the words of a command line ask for.
pub open spec fn words_command(rest: Seq<Seq<char>>, limit: int, limited: bool) -> CommandV {
    if rest.len() == 0 {
        CommandV::Bad { index_first: false, message: "no command\n\n"@ + USAGE@ }
    } else {
        command_of(rest[0], rest.drop_first(), limit, limited)
    }
}

fn bad(index_first: bool, message: &str) -> (r: Command)
    ensures
        r@ == (CommandV::Bad { index_first, message: message@ }),
{
    Command::Bad { index_first, message: message.to_owned() }
}

fn or_limit(limit: usize, d: usize) -> (r: usize)
    ensures
        r == limit_or(limit as int, d as int),
{
    if limit == 0 {
        d
    } else {
        limit
    }
}

fn find_command(cmd: &str, args: Vec<String>, limit: usize, limited: bool) -> (r: Command)
    ensures
        r@ == command_of(cmd@, text::texts(args@), limit as int, limited),
{
    if text::same(cmd, "sync") {
        Command::Sync { dirs: args }
    } else if text::same(cmd, "view") {
        Command::View { dirs: args }
    } else if text::same(cmd, "search") {
        let q = text::join_strings(&args, " ");
        if q.as_str().unicode_len() == 0 {
            bad(true, "search needs a query")
        } else {
            Command::Search { query: q, limit: or_limit(limit, 20) }
        }
    } else if text::same(cmd, "show") {
        if args.len() == 0 {
            bad(true, "show needs a session")
        } else if args.len() == 1 {
            Command::Outline { session: args[0].clone(), limit: or_limit(limit, 80) }
        } else {
            Command::Record { session: args[0].clone(), seq: args[1].clone() }
        }
    } else if text::same(cmd, "turns") {
        if args.len() == 0 {
            bad(true, "turns needs a session")
        } else {
            Command::Turns { session: args[0].clone(), limit: or_limit(limit, 60) }
        }
    } else if text::same(cmd, "sql") {
        Command::Sql { query: text::join_strings(&args, " "), limit: or_limit(limit, 50) }
    } else if text::same(cmd, "catalog") {
        Command::Catalog
    } else if text::same(cmd, "errors") {
        Command::Errors { limit: or_limit(limit, 50) }
    } else if text::same(cmd, "dump") {
        let only = if args.len() > 0 {
            Some(args[0].clone())
        } else {
            None
        };
        Command::Dump { only }
    } else if text::same(cmd, "index") {
        if args.len() == 0 {
            bad(false, "index needs a column name")
        } else {
            Command::Index { name: args[0].clone() }
        }
    } else if text::same(cmd, "snapshot") {
        if args.len() == 0 {
            bad(false, "snapshot needs an output path")
        } else {
            Command::Snapshot { out: args[0].clone() }
        }
    } else if text::same(cmd, "mcp") {
        Command::Mcp
    } else if text::same(cmd, "doctor") {
        let sample: usize = if has(&args, "all") {
            0
        } else if limited {
            limit
        } else {
            1
        };
        Command::Doctor { sample }
    } else if text::same(cmd, "stats") {
        Command::Stats
    } else {
        let mut m = "unknown command ".to_owned();
        m.append(cmd);
        m.append("\n\n");
        m.append(USAGE);
        Command::Bad { index_first: false, message: m }
    }
}

/// What a command line asks for.
pub fn command(o: &Opts) -> (r: Command)
    ensures
        r@ == words_command(o@.rest, o@.limit, o@.limited),
{
    if o.rest.len() == 0 {
        let mut m = "no command\n\n".to_owned();
        m.append(USAGE);
        return Command::Bad { index_first: false, message: m };
    }
    let ghost all = text::texts(o.rest@);
    let mut args: Vec<String> = Vec::new();
    let mut i: usize = 1;
    while i < o.rest.len()
        invariant
            1 <= i <= o.rest@.len(),
            all == text::texts(o.rest@),
            text::texts(args@) == all.subrange(1, i as int),
        decreases o.rest.len() - i,
    {
        let ghost before = text::texts(args@);
        let one = o.rest[i].clone();
        args.push(one);
        assert(text::texts(args@) =~= before.push(one@));
        assert(before.push(one@) =~= all.subrange(1, i + 1));
        i += 1;
    }
    assert(text::texts(args@) =~= all.drop_first());
    find_command(o.rest[0].as_str(), args, o.limit, o.limited)
}

/// The directories to index: those that were given, else those that were found.
pub open spec fn roots_of(given: Seq<Seq<char>>, found: Seq<Seq<char>>) -> Option<Seq<Seq<char>>> {
    if given.len() > 0 {
        Some(given)
    } else if found.len() > 0 {
        Some(found)
    } else {
        None
    }
}

/// The directories to index: those that were given, else those that were found.
pub fn roots(given: Vec<String>, found: Vec<String>) -> (r: Result<Vec<String>, String>)
    ensures
        match r {
            Ok(v) => roots_of(text::texts(given@), text::texts(found@)) == Some(text::texts(v@)),
            Err(e) => roots_of(text::texts(given@), text::texts(found@)) is None && e@
                == "no session directory found under ~; pass one"@,
        },
{
    if given.len() > 0 {
        Ok(given)
    } else if found.len() > 0 {
        Ok(found)
    } else {
        Err("no session directory found under ~; pass one".to_owned())
    }
}

/// The number of a record.
pub fn parse_seq(s: &str) -> (r: Result<i64, String>)
    ensures
        match r {
            Ok(n) => text::parse_signed(s@) == Some(n as int),
            Err(e) => text::parse_signed(s@) is None && e@ == "seq must be a number"@,
        },
{
    match text::read_i64(&text::chars_of(s)) {
        Some(n) => Ok(n),
        None => Err("seq must be a number".to_owned()),
    }
}

/// Failed tool calls, newest first, at most `n`. A failure without a tool of its
/// own has that of the call before it.
pub fn errors_sql(n: usize) -> (r: String)
    ensures
        r@ == ERRORS@ + text::dec(n as nat),
{
    let mut s = ERRORS.to_owned();
    text::push_usize(&mut s, n);
    s
}

/// Failed tool calls, newest first; the number of rows follows.
pub const ERRORS: &'static str =
    "SELECT r.ext AS session, e.seq,
                datetime(e.ts/1000, 'unixepoch', 'localtime') AS at,
                coalesce(e.tool, (SELECT p.tool FROM ev p
                    WHERE p.sid = e.sid AND p.seq < e.seq
                    AND p.tool IS NOT NULL
                    ORDER BY p.seq DESC LIMIT 1)) AS tool,
                coalesce(e.target, (SELECT p.target FROM ev p
                    WHERE p.sid = e.sid AND p.seq < e.seq
                    AND p.tool IS NOT NULL
                    ORDER BY p.seq DESC LIMIT 1)) AS target
         FROM ev e JOIN run r USING (sid) WHERE e.is_err = 1
         ORDER BY e.ts DESC LIMIT ";

/// What is said where there is no index.
pub open spec fn without_index(path: Seq<char>) -> Seq<char> {
    "no index at "@ + path + "; run `alog sync <dir>` first"@
}

/// What is said where there is no index.
pub fn no_index(path: &str) -> (r: String)
    ensures
        r@ == without_index(path@),
        r@ == "no index at "@ + path@ + "; run `alog sync <dir>` first"@,
{
    let mut s = "no index at ".to_owned();
    s.append(path);
    s.append("; run `alog sync <dir>` first");
    s
}

// ---------------------------------------------------------------------------
// Failures
// ---------------------------------------------------------------------------

/// A failure for a machine: a kind to branch on, what to do, and whether doing
/// the same again could work.
pub open spec fn classified(e: Seq<char>) -> (Seq<char>, Seq<char>, bool) {
    if text::starts_with(e, "no index at"@) {
        ("no-index"@, "run `alog sync` to build it"@, false)
    } else if text::contains(e, "no session directory found"@) {
        ("no-session-directory"@, "pass a directory explicitly"@, false)
    } else if text::starts_with(e, "no session"@) {
        (
            "unknown-session"@,
            "list sessions with `alog sql \"SELECT ext FROM run\"`"@,
            false,
        )
    } else if text::contains(e, "no .jsonl files under"@) {
        ("empty-directory"@, "point at a directory containing .jsonl sessions"@, false)
    } else if text::contains(e, "No such file or directory"@) {
        ("no-such-path"@, "check the path exists"@, false)
    } else if text::contains(e, "records unreadable"@) {
        ("stale-index"@, "the source changed on disk; run `alog sync`"@, true)
    } else if text::starts_with(e, "unknown command"@) || text::starts_with(e, "no command"@) {
        ("bad-usage"@, "see `alog --help`"@, false)
    } else if text::ends_with(e, "exists"@) {
        ("output-exists"@, "choose a path that does not exist"@, false)
    } else if text::contains(e, "database is locked"@) || text::contains(e, "busy"@) {
        ("locked"@, "another writer holds the index; retry"@, true)
    } else {
        ("error"@, ""@, false)
    }
}

/// The first line of a message.
pub open spec fn headline(e: Seq<char>) -> Seq<char> {
    match codex::first_line(e) {
        Some(l) => l,
        None => e,
    }
}

/// A failure as JSON.
pub open spec fn failure(e: Seq<char>) -> Seq<char> {
    let (kind, hint, retryable) = classified(e);
    "{\"error\":{\"kind\":"@ + text::json_quote(kind) + ",\"message\":"@ + text::json_quote(
        headline(e),
    ) + ",\"hint\":"@ + text::json_quote(hint) + ",\"retryable\":"@ + (if retryable {
        "true"@
    } else {
        "false"@
    }) + "}}"@
}

/// A failure for a machine: a kind to branch on, what to do, and whether doing
/// the same again could work.
pub fn classify(e: &str) -> (r: (&'static str, &'static str, bool))
    ensures
        (r.0@, r.1@, r.2) == classified(e@),
{
    if text::str_starts_with(e, "no index at") {
        ("no-index", "run `alog sync` to build it", false)
    } else if text::str_contains(e, "no session directory found") {
        ("no-session-directory", "pass a directory explicitly", false)
    } else if text::str_starts_with(e, "no session") {
        (
            "unknown-session",
            "list sessions with `alog sql \"SELECT ext FROM run\"`",
            false,
        )
    } else if text::str_contains(e, "no .jsonl files under") {
        ("empty-directory", "point at a directory containing .jsonl sessions", false)
    } else if text::str_contains(e, "No such file or directory") {
        ("no-such-path", "check the path exists", false)
    } else if text::str_contains(e, "records unreadable") {
        ("stale-index", "the source changed on disk; run `alog sync`", true)
    } else if text::str_starts_with(e, "unknown command") || text::str_starts_with(
        e,
        "no command",
    ) {
        ("bad-usage", "see `alog --help`", false)
    } else if text::str_ends_with(e, "exists") {
        ("output-exists", "choose a path that does not exist", false)
    } else if text::str_contains(e, "database is locked") || text::str_contains(e, "busy") {
        ("locked", "another writer holds the index; retry", true)
    } else {
        ("error", "", false)
    }
}

/// What a failure is told to a machine: an error report as it is, and anything
/// else as JSON.
pub open spec fn told(e: Seq<char>) -> Seq<char> {
    if text::starts_with(e, "{\"code\":\"ALOG_"@) {
        e
    } else {
        failure(e)
    }
}

/// What a failure is told to a machine. An error that is a report already passes
/// through untouched.
pub fn fail(e: &str) -> (r: String)
    ensures
        r@ == told(e@),
{
    if text::str_starts_with(e, "{\"code\":\"ALOG_") {
        return e.to_owned();
    }
    let (kind, hint, retryable) = classify(e);
    let first = match codex::line_one(e) {
        Some(l) => l,
        None => e.to_owned(),
    };
    let mut out = "{\"error\":{\"kind\":".to_owned();
    text::push_json(&mut out, kind);
    out.append(",\"message\":");
    text::push_json(&mut out, first.as_str());
    out.append(",\"hint\":");
    text::push_json(&mut out, hint);
    out.append(",\"retryable\":");
    if retryable {
        out.append("true");
    } else {
        out.append("false");
    }
    out.append("}}");
    out
}

// ---------------------------------------------------------------------------
// What a command line means
// ---------------------------------------------------------------------------

/// A word that is no option.
pub open spec fn plain_word(w: Seq<char>) -> bool {
    &&& w != "--db"@
    &&& w != "--limit"@
    &&& w != "-n"@
    &&& w != "--port"@
    &&& w != "-j"@
    &&& w != "--no-snippets"@
    &&& w != "--json"@
}

/// Words none of which is an option.
pub open spec fn plain_words(ws: Seq<Seq<char>>) -> bool {
    forall|i: int| 0 <= i < ws.len() ==> plain_word(#[trigger] ws[i])
}

proof fn lemma_words_first(a: Seq<Seq<char>>, all: Seq<Seq<char>>, at: int, i: int, o: OptsV)
    requires
        plain_words(a),
        0 <= at <= i <= at + a.len() <= all.len(),
        all.subrange(at, at + a.len()) == a,
    ensures
        options(all, i, o) == options(
            all,
            at + a.len() as int,
            OptsV { rest: o.rest + a.skip(i - at), ..o },
        ),
    decreases at + a.len() - i,
{
    if i < at + a.len() {
        assert(a[i - at] == all[i]);
        assert(plain_word(all[i]));
        let p = with_arg(o, all[i], arg(all, i + 1));
        lemma_words_first(a, all, at, i + 1, p);
        assert(o.rest.push(all[i]) + a.skip(i + 1 - at) =~= o.rest + a.skip(i - at));
    } else {
        assert(o.rest + a.skip(i - at) =~= o.rest);
    }
}

/// Where the words are those of `a`, then `x`, then those of `b`.
proof fn lemma_around(a: Seq<Seq<char>>, x: Seq<Seq<char>>, b: Seq<Seq<char>>, o: OptsV, p: OptsV)
    requires
        plain_words(a),
        plain_words(b),
        ({
            let all = a + x + b;
            let q = OptsV { rest: o.rest + a, ..o };
            options(all, a.len() as int, q) == options(all, (a + x).len() as int, p)
        }),
    ensures
        options(a + x + b, 0, o) == (OptsV { rest: p.rest + b, ..p }),
{
    let all = a + x + b;
    assert(all.subrange(0, 0 + a.len() as int) =~= a);
    lemma_words_first(a, all, 0, 0, o);
    assert(a.skip(0) =~= a);
    let n = (a + x).len() as int;
    assert(all.subrange(n, n + b.len() as int) =~= b);
    lemma_words_first(b, all, n, n, p);
    assert(b.skip(0) =~= b);
    let e = OptsV { rest: p.rest + b, ..p };
    assert(options(all, n + b.len() as int, e) == e);
}

/// Words that are no options are all kept, in order, and change nothing else.
pub proof fn law_words_kept(a: Seq<Seq<char>>, db: Seq<char>, threads: int)
    requires
        plain_words(a),
    ensures
        ({
            let r = options(a, 0, no_options(db, threads));
            &&& r.rest == a
            &&& r.db == db
            &&& r.threads == threads
            &&& !r.limited
            &&& r.limit == 0
            &&& r.port == 8877
            &&& r.snippets
            &&& !r.json
        }),
{
    let o = no_options(db, threads);
    let none = Seq::<Seq<char>>::empty();
    assert(a + none + none =~= a);
    assert(none + a =~= a);
    lemma_around(a, none, none, o, OptsV { rest: o.rest + a, ..o });
    assert(a + none =~= a);
}

proof fn lemma_options_differ()
    ensures
        "--db"@.len() == 4,
        "--limit"@.len() == 7,
        "-n"@.len() == 2,
        "-n"@[1] == 'n',
        "--port"@.len() == 6,
        "--port"@[2] == 'p',
        "-j"@.len() == 2,
        "-j"@[1] == 'j',
        "--no-snippets"@.len() == 13,
        "--json"@.len() == 6,
        "--json"@[2] == 'j',
{
    reveal_strlit("--db");
    reveal_strlit("--limit");
    reveal_strlit("-n");
    reveal_strlit("--port");
    reveal_strlit("-j");
    reveal_strlit("--no-snippets");
    reveal_strlit("--json");
}

/// An option with a value may stand before, between or behind the words: it is
/// taken out with its value, the words stay, and only what it names changes.
#[verifier::spinoff_prover]
#[verifier::rlimit(60)]
pub proof fn law_option_with_value(
    a: Seq<Seq<char>>,
    w: Seq<char>,
    v: Seq<char>,
    b: Seq<Seq<char>>,
    db: Seq<char>,
    threads: int,
)
    requires
        plain_words(a),
        plain_words(b),
        w == "--db"@ || w == "--limit"@ || w == "-n"@ || w == "--port"@ || w == "-j"@,
        threads >= 1,
    ensures
        ({
            let r = options(a + seq![w, v] + b, 0, no_options(db, threads));
            let big = text::parse_unsigned(v, usize::MAX as int);
            let port = text::parse_unsigned(v, 65535);
            &&& r.rest == a + b
            &&& r.snippets && !r.json
            &&& w == "--db"@ ==> r.db == v
            &&& w != "--db"@ ==> r.db == db
            &&& (w == "--limit"@ || w == "-n"@) <==> r.limited
            &&& r.limited && big is Some ==> r.limit == big->Some_0
            &&& r.limited && big is None ==> r.limit == 50
            &&& !r.limited ==> r.limit == 0
            &&& w == "--port"@ && port is Some ==> r.port == port->Some_0
            &&& w != "--port"@ || port is None ==> r.port == 8877
            &&& w == "-j"@ && big is Some && big->Some_0 >= 1 ==> r.threads == big->Some_0
            &&& w == "-j"@ && big is Some && big->Some_0 == 0 ==> r.threads == 1
            &&& w != "-j"@ || big is None ==> r.threads == threads
        }),
{
    lemma_options_differ();
    let o = no_options(db, threads);
    let x = seq![w, v];
    let all = a + x + b;
    let n = a.len() as int;
    assert(all[n] == w);
    assert(arg(all, n + 1) == v);
    let q = OptsV { rest: o.rest + a, ..o };
    let p = with_arg(q, w, v);
    assert(options(all, n, q) == options(all, n + 2, p));
    lemma_around(a, x, b, o, p);
    assert(o.rest + a =~= a);
}

/// An option without a value may stand before, between or behind the words.
#[verifier::spinoff_prover]
#[verifier::rlimit(60)]
pub proof fn law_option_alone(
    a: Seq<Seq<char>>,
    w: Seq<char>,
    b: Seq<Seq<char>>,
    db: Seq<char>,
    threads: int,
)
    requires
        plain_words(a),
        plain_words(b),
        w == "--no-snippets"@ || w == "--json"@,
    ensures
        ({
            let r = options(a + seq![w] + b, 0, no_options(db, threads));
            &&& r.rest == a + b
            &&& r.snippets <==> w != "--no-snippets"@
            &&& r.json <==> w == "--json"@
            &&& r.db == db && r.threads == threads && !r.limited && r.limit == 0 && r.port == 8877
        }),
{
    lemma_options_differ();
    let o = no_options(db, threads);
    let x = seq![w];
    let all = a + x + b;
    let n = a.len() as int;
    assert(all[n] == w);
    let q = OptsV { rest: o.rest + a, ..o };
    let p = with_arg(q, w, arg(all, n + 1));
    assert(options(all, n, q) == options(all, n + 1, p));
    lemma_around(a, x, b, o, p);
    assert(o.rest + a =~= a);
}

proof fn lemma_commands_differ()
    ensures
        "sync"@.len() == 4 && "sync"@[0] == 's' && "sync"@[1] == 'y',
        "view"@.len() == 4 && "view"@[0] == 'v',
        "search"@.len() == 6 && "search"@[0] == 's',
        "show"@.len() == 4 && "show"@[0] == 's' && "show"@[1] == 'h',
        "turns"@.len() == 5 && "turns"@[0] == 't',
        "sql"@.len() == 3 && "sql"@[0] == 's',
        "catalog"@.len() == 7,
        "errors"@.len() == 6 && "errors"@[0] == 'e',
        "dump"@.len() == 4 && "dump"@[0] == 'd',
        "index"@.len() == 5 && "index"@[0] == 'i',
        "snapshot"@.len() == 8,
        "mcp"@.len() == 3 && "mcp"@[0] == 'm',
        "doctor"@.len() == 6 && "doctor"@[0] == 'd',
        "stats"@.len() == 5 && "stats"@[0] == 's',
{
    reveal_strlit("sync");
    reveal_strlit("view");
    reveal_strlit("search");
    reveal_strlit("show");
    reveal_strlit("turns");
    reveal_strlit("sql");
    reveal_strlit("catalog");
    reveal_strlit("errors");
    reveal_strlit("dump");
    reveal_strlit("index");
    reveal_strlit("snapshot");
    reveal_strlit("mcp");
    reveal_strlit("doctor");
    reveal_strlit("stats");
}

proof fn lemma_behind(c: Seq<char>, args: Seq<Seq<char>>, limit: int, limited: bool)
    ensures
        words_command(seq![c] + args, limit, limited) == command_of(c, args, limit, limited),
{
    assert((seq![c] + args).drop_first() =~= args);
}

/// A dump is of the session that is named, and of all where none is.
#[verifier::spinoff_prover]
#[verifier::rlimit(60)]
pub proof fn law_dump_words(s: Seq<char>, more: Seq<Seq<char>>, limit: int, limited: bool)
    ensures
        words_command(seq!["dump"@, s], limit, limited) == (CommandV::Dump { only: Some(s) }),
        words_command(seq!["dump"@, s] + more, limit, limited) == (CommandV::Dump {
            only: Some(s),
        }),
        words_command(seq!["dump"@], limit, limited) == (CommandV::Dump { only: None }),
{
    lemma_commands_differ();
    lemma_behind("dump"@, seq![s] + more, limit, limited);
    lemma_behind("dump"@, seq![s], limit, limited);
    lemma_behind("dump"@, Seq::empty(), limit, limited);
    assert(seq!["dump"@] + seq![s] =~= seq!["dump"@, s]);
    assert(seq!["dump"@] + (seq![s] + more) =~= seq!["dump"@, s] + more);
    assert(seq!["dump"@] + Seq::<Seq<char>>::empty() =~= seq!["dump"@]);
}

/// A dump that was asked for on a command line is of the session named there,
/// wherever the other options stand.
#[verifier::spinoff_prover]
#[verifier::rlimit(60)]
pub proof fn law_dump_line(
    s: Seq<char>,
    w: Seq<char>,
    v: Seq<char>,
    db: Seq<char>,
    threads: int,
    before: bool,
)
    requires
        plain_word(s),
        w == "--db"@ || w == "--limit"@ || w == "-n"@ || w == "--port"@ || w == "-j"@,
        threads >= 1,
    ensures
        ({
            let line = if before {
                seq![w, v, "dump"@, s]
            } else {
                seq!["dump"@, s, w, v]
            };
            let o = options(line, 0, no_options(db, threads));
            words_command(o.rest, o.limit, o.limited) == (CommandV::Dump { only: Some(s) })
        }),
{
    let words = seq!["dump"@, s];
    let none = Seq::<Seq<char>>::empty();
    lemma_options_differ();
    lemma_commands_differ();
    assert("dump"@[0] != '-');
    reveal_strlit("--db");
    assert(plain_word("dump"@));
    assert(plain_words(words));
    assert(plain_words(none));
    if before {
        law_option_with_value(none, w, v, words, db, threads);
        assert(none + seq![w, v] + words =~= seq![w, v, "dump"@, s]);
        assert(none + words =~= words);
    } else {
        law_option_with_value(words, w, v, none, db, threads);
        assert(words + seq![w, v] + none =~= seq!["dump"@, s, w, v]);
        assert(words + none =~= words);
    }
    let o = options(
        if before {
            seq![w, v, "dump"@, s]
        } else {
            seq!["dump"@, s, w, v]
        },
        0,
        no_options(db, threads),
    );
    law_dump_words(s, none, o.limit, o.limited);
}

/// All directories behind `sync` and `view` are indexed, in the order in which
/// they stand.
pub proof fn law_directory_words(dirs: Seq<Seq<char>>, limit: int, limited: bool)
    ensures
        words_command(seq!["sync"@] + dirs, limit, limited) == (CommandV::Sync { dirs }),
        words_command(seq!["view"@] + dirs, limit, limited) == (CommandV::View { dirs }),
{
    lemma_commands_differ();
    lemma_behind("sync"@, dirs, limit, limited);
    lemma_behind("view"@, dirs, limit, limited);
}

/// A search, and a query, is made of all words behind the command, in order and
/// with a blank between them. A limit that was given is kept.
#[verifier::spinoff_prover]
#[verifier::rlimit(60)]
pub proof fn law_query_words(words: Seq<Seq<char>>, limit: int, limited: bool)
    requires
        words.len() > 0,
        forall|i: int| 0 <= i < words.len() ==> text::free_of(#[trigger] words[i], ' '),
        words[0].len() > 0,
        limit >= 0,
    ensures
        match (
            words_command(seq!["search"@] + words, limit, limited),
            words_command(seq!["sql"@] + words, limit, limited),
        ) {
            (
                CommandV::Search { query: a, limit: m },
                CommandV::Sql { query: b, limit: n },
            ) => text::parts(a, ' ') == words && a == b && (limit > 0 ==> m == limit && n == limit)
                && (limit == 0 ==> m == 20 && n == 50),
            _ => false,
        },
{
    lemma_commands_differ();
    lemma_behind("search"@, words, limit, limited);
    lemma_behind("sql"@, words, limit, limited);
    reveal_strlit(" ");
    assert(" "@ =~= seq![' ']);
    text::law_join_comes_apart(words, ' ');
    text::law_joined_in_order(words, " "@, 0);
    let q = text::join(words, " "@);
    if q.len() == 0 {
        text::lemma_parts_one(q, ' ');
        assert(words[0] == q);
    }
}

/// A query that is given as one word is asked for as it is.
pub proof fn law_query_in_one_word(q: Seq<char>, limit: int, limited: bool)
    requires
        limit >= 0,
    ensures
        words_command(seq!["sql"@, q], limit, limited) == (CommandV::Sql {
            query: q,
            limit: if limit > 0 {
                limit
            } else {
                50
            },
        }),
        q.len() > 0 ==> words_command(seq!["search"@, q], limit, limited) == (CommandV::Search {
            query: q,
            limit: if limit > 0 {
                limit
            } else {
                20
            },
        }),
        q.len() == 0 ==> words_command(seq!["search"@, q], limit, limited) is Bad,
{
    lemma_commands_differ();
    lemma_behind("search"@, seq![q], limit, limited);
    lemma_behind("sql"@, seq![q], limit, limited);
    assert(seq!["search"@] + seq![q] =~= seq!["search"@, q]);
    assert(seq!["sql"@] + seq![q] =~= seq!["sql"@, q]);
    assert(text::join(seq![q], " "@) == q) by {
        reveal_with_fuel(text::join, 3);
    }
}

/// The commands on one session are about the one that is named first; with a
/// second word `show` is about that record of it.
#[verifier::spinoff_prover]
#[verifier::rlimit(60)]
pub proof fn law_session_words(
    s: Seq<char>,
    n: Seq<char>,
    more: Seq<Seq<char>>,
    limit: int,
    limited: bool,
)
    requires
        limit >= 0,
    ensures
        words_command(seq!["show"@, s], limit, limited) == (CommandV::Outline {
            session: s,
            limit: if limit > 0 {
                limit
            } else {
                80
            },
        }),
        words_command(seq!["show"@, s, n] + more, limit, limited) == (CommandV::Record {
            session: s,
            seq: n,
        }),
        words_command(seq!["turns"@, s] + more, limit, limited) == (CommandV::Turns {
            session: s,
            limit: if limit > 0 {
                limit
            } else {
                60
            },
        }),
        words_command(seq!["index"@, s] + more, limit, limited) == (CommandV::Index { name: s }),
        words_command(seq!["snapshot"@, s] + more, limit, limited) == (CommandV::Snapshot {
            out: s,
        }),
{
    lemma_commands_differ();
    lemma_behind("show"@, seq![s], limit, limited);
    lemma_behind("show"@, seq![s, n] + more, limit, limited);
    lemma_behind("turns"@, seq![s] + more, limit, limited);
    lemma_behind("index"@, seq![s] + more, limit, limited);
    lemma_behind("snapshot"@, seq![s] + more, limit, limited);
    assert(seq!["show"@] + seq![s] =~= seq!["show"@, s]);
    assert(seq!["show"@] + (seq![s, n] + more) =~= seq!["show"@, s, n] + more);
    assert(seq!["turns"@] + (seq![s] + more) =~= seq!["turns"@, s] + more);
    assert(seq!["index"@] + (seq![s] + more) =~= seq!["index"@, s] + more);
    assert(seq!["snapshot"@] + (seq![s] + more) =~= seq!["snapshot"@, s] + more);
}

/// A command that needs a word is refused without one, and so is a line without
/// a command.
#[verifier::spinoff_prover]
#[verifier::rlimit(60)]
pub proof fn law_missing_words(limit: int, limited: bool)
    ensures
        words_command(seq!["search"@], limit, limited) is Bad,
        words_command(seq!["show"@], limit, limited) is Bad,
        words_command(seq!["turns"@], limit, limited) is Bad,
        words_command(seq!["index"@], limit, limited) is Bad,
        words_command(seq!["snapshot"@], limit, limited) is Bad,
        words_command(Seq::empty(), limit, limited) is Bad,
{
    let none = Seq::<Seq<char>>::empty();
    lemma_commands_differ();
    lemma_behind("search"@, none, limit, limited);
    lemma_behind("show"@, none, limit, limited);
    lemma_behind("turns"@, none, limit, limited);
    lemma_behind("index"@, none, limit, limited);
    lemma_behind("snapshot"@, none, limit, limited);
    assert(seq!["search"@] + none =~= seq!["search"@]);
    assert(seq!["show"@] + none =~= seq!["show"@]);
    assert(seq!["turns"@] + none =~= seq!["turns"@]);
    assert(seq!["index"@] + none =~= seq!["index"@]);
    assert(seq!["snapshot"@] + none =~= seq!["snapshot"@]);
}

/// The commands that stand alone ask for the same whatever follows them; `doctor`
/// reads back all records where `all` is among the words or the limit is zero,
/// else as many as the limit says, and one where there is none.
#[verifier::spinoff_prover]
#[verifier::rlimit(60)]
pub proof fn law_commands_alone(words: Seq<Seq<char>>, limit: int, limited: bool)
    requires
        limit >= 0,
    ensures
        words_command(seq!["catalog"@] + words, limit, limited) is Catalog,
        words_command(seq!["mcp"@] + words, limit, limited) is Mcp,
        words_command(seq!["stats"@] + words, limit, limited) is Stats,
        words_command(seq!["errors"@] + words, limit, limited) == (CommandV::Errors {
            limit: if limit > 0 {
                limit
            } else {
                50
            },
        }),
        words.contains("all"@) ==> words_command(seq!["doctor"@] + words, limit, limited) == (
        CommandV::Doctor { sample: 0 }),
        !words.contains("all"@) && limited ==> words_command(
            seq!["doctor"@] + words,
            limit,
            limited,
        ) == (CommandV::Doctor { sample: limit }),
        !words.contains("all"@) && !limited ==> words_command(
            seq!["doctor"@] + words,
            limit,
            limited,
        ) == (CommandV::Doctor { sample: 1 }),
{
    lemma_commands_differ();
    lemma_behind("catalog"@, words, limit, limited);
    lemma_behind("mcp"@, words, limit, limited);
    lemma_behind("stats"@, words, limit, limited);
    lemma_behind("errors"@, words, limit, limited);
    lemma_behind("doctor"@, words, limit, limited);
}

/// The names of the commands.
pub open spec fn command_names() -> Seq<Seq<char>> {
    seq![
        "sync"@,
        "view"@,
        "search"@,
        "show"@,
        "turns"@,
        "sql"@,
        "catalog"@,
        "errors"@,
        "dump"@,
        "index"@,
        "snapshot"@,
        "mcp"@,
        "doctor"@,
        "stats"@,
    ]
}

/// A word that names no command is told to be unknown, with the usage.
#[verifier::spinoff_prover]
#[verifier::rlimit(60)]
pub proof fn law_unknown_command(
    c: Seq<char>,
    words: Seq<Seq<char>>,
    limit: int,
    limited: bool,
)
    requires
        !command_names().contains(c),
    ensures
        match words_command(seq![c] + words, limit, limited) {
            CommandV::Bad { index_first, message } => !index_first && text::starts_with(
                message,
                "unknown command "@ + c + "\n"@,
            ) && text::ends_with(message, USAGE@),
            _ => false,
        },
{
    lemma_behind(c, words, limit, limited);
    let ns = command_names();
    assert(ns[0] != c && ns[1] != c && ns[2] != c && ns[3] != c && ns[4] != c && ns[5] != c && ns[6]
        != c && ns[7] != c && ns[8] != c && ns[9] != c && ns[10] != c && ns[11] != c && ns[12] != c
        && ns[13] != c);
    let m = "unknown command "@ + c + "\n\n"@ + USAGE@;
    let p = "unknown command "@ + c + "\n"@;
    reveal_strlit("\n\n");
    reveal_strlit("\n");
    assert(m.subrange(0, p.len() as int) =~= p);
    assert(m.subrange(m.len() - USAGE@.len(), m.len() as int) =~= USAGE@);
}

/// Help is given wherever it is asked for; the version only where help is not;
/// and a command is run otherwise, whose failures are told as JSON where that
/// was asked for.
#[verifier::spinoff_prover]
#[verifier::rlimit(60)]
pub proof fn law_start(a: Seq<Seq<char>>, b: Seq<Seq<char>>)
    ensures
        start_of(a + seq!["-h"@] + b) is Usage,
        start_of(a + seq!["--help"@] + b) is Usage,
        start_of(Seq::empty()) is Usage,
        start_of(a) is Run || start_of(a) is Version ==> !(start_of(a + seq!["-V"@]) is Run)
            && start_of(a + seq!["--version"@]) is Version,
        start_of(a) == (Start::Run { json: false }) ==> start_of(a + seq!["--json"@])
            == (Start::Run { json: true }),
{
    let h = a + seq!["-h"@] + b;
    let l = a + seq!["--help"@] + b;
    assert(h[a.len() as int] == "-h"@);
    assert(l[a.len() as int] == "--help"@);
    let v = a + seq!["-V"@];
    let w = a + seq!["--version"@];
    let j = a + seq!["--json"@];
    assert(v[a.len() as int] == "-V"@);
    assert(w[a.len() as int] == "--version"@);
    assert(j[a.len() as int] == "--json"@);
    reveal_strlit("-h");
    reveal_strlit("-V");
    reveal_strlit("--help");
    reveal_strlit("--version");
    reveal_strlit("--json");
    assert("--json"@[2] == 'j' && "--help"@[2] == 'h' && "-h"@[1] == 'h' && "-V"@[1] == 'V');
    assert("--json"@.len() == 6 && "--help"@.len() == 6 && "--version"@.len() == 9 && "-h"@.len()
        == 2 && "-V"@.len() == 2);
    if start_of(a) is Run || start_of(a) is Version {
        assert forall|k: int| 0 <= k < w.len() implies #[trigger] w[k] != "-h"@ && w[k]
            != "--help"@ by {
            if k < a.len() {
                assert(a[k] == w[k]);
            }
        }
    }
    if start_of(a) == (Start::Run { json: false }) {
        assert forall|k: int| 0 <= k < j.len() implies #[trigger] j[k] != "-h"@ && j[k]
            != "--help"@ && j[k] != "-V"@ && j[k] != "--version"@ by {
            if k < a.len() {
                assert(a[k] == j[k]);
            }
        }
    }
}

/// Directories that were given are indexed and nothing else; without any, those
/// that were found are; and without either nothing is.
pub proof fn law_roots(given: Seq<Seq<char>>, found: Seq<Seq<char>>, d: Seq<char>)
    ensures
        roots_of(given.push(d), found) == Some(given.push(d)),
        roots_of(Seq::empty(), found.push(d)) == Some(found.push(d)),
        roots_of(Seq::empty(), Seq::empty()) is None,
{
}

// ---------------------------------------------------------------------------
// What a failure says
// ---------------------------------------------------------------------------

/// A failure that is told to a machine has its kind, the first line of its message,
/// the advice and whether to try again, each under its name.
#[verifier::spinoff_prover]
#[verifier::rlimit(60)]
pub proof fn law_failure_fields(e: Seq<char>)
    ensures
        ({
            let o = failure(e);
            &&& mcp::reads_text(o, "kind"@, Some(classified(e).0))
            &&& mcp::reads_text(o, "message"@, Some(headline(e)))
            &&& mcp::reads_text(o, "hint"@, Some(classified(e).1))
            &&& classified(e).2 ==> mcp::scalar_at(o, "retryable"@) == Some("true"@)
            &&& !(classified(e).2) ==> mcp::scalar_at(o, "retryable"@) == Some("false"@)
        }),
{
    let o = failure(e);
    lemma_names_failure_fields();
    let x0 = mcp::text_scalar(Some(classified(e).0));
    mcp::lemma_scalars_are_sound(Some(classified(e).0), None);
    mcp::lemma_opens("{\"kind\":"@, "kind"@, x0);
    let m0 = seq![("kind"@, x0)];
    let t0 = "{\"kind\":"@ + mcp::written(x0);
    let x1 = mcp::text_scalar(Some(headline(e)));
    mcp::lemma_scalars_are_sound(Some(headline(e)), None);
    mcp::lemma_goes_on(t0, m0, ",\"message\":"@, "message"@, x1);
    let m1 = m0.push(("message"@, x1));
    let t1 = t0 + ",\"message\":"@ + mcp::written(x1);
    let x2 = mcp::text_scalar(Some(classified(e).1));
    mcp::lemma_scalars_are_sound(Some(classified(e).1), None);
    mcp::lemma_goes_on(t1, m1, ",\"hint\":"@, "hint"@, x2);
    let m2 = m1.push(("hint"@, x2));
    let t2 = t1 + ",\"hint\":"@ + mcp::written(x2);
    let x3 = mcp::bool_scalar(classified(e).2);
    mcp::lemma_flags_are_sound(classified(e).2, 0);
    mcp::lemma_goes_on(t2, m2, ",\"retryable\":"@, "retryable"@, x3);
    let m3 = m2.push(("retryable"@, x3));
    let t3 = t2 + ",\"retryable\":"@ + mcp::written(x3);
    let w = t3;
    let ms = m3;
    reveal_strlit("}}");
    let z = "}}"@;
    assert(ms[0] == ("kind"@, x0) && ms[1] == ("message"@, x1) && ms[2] == ("hint"@, x2) && ms[3] == ("retryable"@, x3));
    assert(mcp::distinct_keys(ms));
    assert(mcp::sound_members(ms));
    mcp::lemma_plain_key("error"@);
    let p = seq!['{'] + text::json_quote("error"@) + seq![':'];
    assert(o =~= p + w + z);
    assert(o.subrange(0, p.len() as int) =~= p);
    assert(o.subrange(p.len() as int, (p.len() + w.len()) as int) =~= w);
    assert(o[(p.len() + w.len()) as int] == z[0]);
    mcp::lemma_nested_reads_back(o, "error"@, seq![':'], ms, 0);
    mcp::lemma_nested_reads_back(o, "error"@, seq![':'], ms, 1);
    mcp::lemma_nested_reads_back(o, "error"@, seq![':'], ms, 2);
    mcp::lemma_nested_reads_back(o, "error"@, seq![':'], ms, 3);
}

proof fn lemma_names_failure_fields()
    ensures
        "kind"@.len() == 4 && "kind"@[0] == 'k' && "kind"@[1] == 'i' && "kind"@[2] == 'n' && "kind"@[3] == 'd',
        mcp::plain_key("kind"@),
        "{\"kind\":"@ == seq!['{', '"'] + "kind"@ + seq!['"', ':'],
        "message"@.len() == 7 && "message"@[0] == 'm' && "message"@[1] == 'e' && "message"@[2] == 's' && "message"@[3] == 's' && "message"@[4] == 'a' && "message"@[5] == 'g' && "message"@[6] == 'e',
        mcp::plain_key("message"@),
        ",\"message\":"@ == seq![',', '"'] + "message"@ + seq!['"', ':'],
        "hint"@.len() == 4 && "hint"@[0] == 'h' && "hint"@[1] == 'i' && "hint"@[2] == 'n' && "hint"@[3] == 't',
        mcp::plain_key("hint"@),
        ",\"hint\":"@ == seq![',', '"'] + "hint"@ + seq!['"', ':'],
        "retryable"@.len() == 9 && "retryable"@[0] == 'r' && "retryable"@[1] == 'e' && "retryable"@[2] == 't' && "retryable"@[3] == 'r' && "retryable"@[4] == 'y' && "retryable"@[5] == 'a' && "retryable"@[6] == 'b' && "retryable"@[7] == 'l' && "retryable"@[8] == 'e',
        mcp::plain_key("retryable"@),
        ",\"retryable\":"@ == seq![',', '"'] + "retryable"@ + seq!['"', ':'],
        "error"@.len() == 5 && "error"@[0] == 'e',
        mcp::plain_key("error"@),
        "{\"error\":{\"kind\":"@ == seq!['{'] + (seq!['"'] + "error"@ + seq!['"']) + seq![':'] + "{\"kind\":"@,
{
    reveal_strlit("kind");
    reveal_strlit("{\"kind\":");
    assert("{\"kind\":"@ =~= seq!['{', '"'] + "kind"@ + seq!['"', ':']);
    reveal_strlit("message");
    reveal_strlit(",\"message\":");
    assert(",\"message\":"@ =~= seq![',', '"'] + "message"@ + seq!['"', ':']);
    reveal_strlit("hint");
    reveal_strlit(",\"hint\":");
    assert(",\"hint\":"@ =~= seq![',', '"'] + "hint"@ + seq!['"', ':']);
    reveal_strlit("retryable");
    reveal_strlit(",\"retryable\":");
    assert(",\"retryable\":"@ =~= seq![',', '"'] + "retryable"@ + seq!['"', ':']);
    reveal_strlit("error");
    reveal_strlit("{\"error\":{\"kind\":");
    assert("{\"error\":{\"kind\":"@ =~= seq!['{'] + (seq!['"'] + "error"@ + seq!['"']) + seq![':'] + "{\"kind\":"@);
}

/// The first line of a message is all that stands before its first line break.
pub proof fn law_headline(a: Seq<char>, b: Seq<char>)
    requires
        text::free_of(a, '\n'),
        a.len() > 0,
        a.last() != '\r',
    ensures
        headline(a) == a,
        headline(a + seq!['\n'] + b) == a,
        headline(a + seq!['\r', '\n'] + b) == a,
{
    codex::law_first_line(a, b);
}

/// A report passes through untouched, and anything else is told as a failure.
pub proof fn law_told(e: Seq<char>)
    ensures
        told("{\"code\":\"ALOG_"@ + e) == "{\"code\":\"ALOG_"@ + e,
        !text::starts_with(e, "{\"code\":\"ALOG_"@) ==> mcp::scalar_at(told(e), "message"@) == Some(
            headline(e),
        ),
{
    let p = "{\"code\":\"ALOG_"@;
    assert((p + e).subrange(0, p.len() as int) =~= p);
    law_failure_fields(e);
}

/// The kinds that a machine can branch on: what the library says where there is
/// no index, no session or no such command is told apart, and only what may go
/// away by itself is worth another try.
#[verifier::rlimit(60)]
#[verifier::spinoff_prover]
pub proof fn law_kinds(s: Seq<char>)
    ensures
        classified("no index at "@ + s).0 == "no-index"@,
        !text::contains("no session "@ + s, "no session directory found"@) ==> classified(
            "no session "@ + s,
        ).0 == "unknown-session"@,
        classified(s).2 ==> classified(s).0 == "stale-index"@ || classified(s).0 == "locked"@,
        classified(s).0 == "stale-index"@ || classified(s).0 == "locked"@ ==> classified(s).2,
{
    let a = "no index at "@ + s;
    reveal_strlit("no index at ");
    reveal_strlit("no index at");
    assert(a.subrange(0, 11) =~= "no index at"@);
    let b = "no session "@ + s;
    reveal_strlit("no session ");
    reveal_strlit("no session");
    assert(b.subrange(0, 10) =~= "no session"@);
    assert(b[3] == 's');
    assert("no index at"@[3] == 'i');
    if text::starts_with(b, "no index at"@) {
        assert(b.subrange(0, 11)[3] == 'i');
    }
    lemma_kind_names();
}

proof fn lemma_kind_names()
    ensures
        "stale-index"@.len() == 11 && "stale-index"@[0] == 's',
        "locked"@.len() == 6,
        "no-index"@.len() == 8,
        "no-session-directory"@.len() == 20,
        "unknown-session"@.len() == 15 && "unknown-session"@[0] == 'u',
        "empty-directory"@.len() == 15 && "empty-directory"@[0] == 'e',
        "no-such-path"@.len() == 12,
        "bad-usage"@.len() == 9,
        "output-exists"@.len() == 13,
        "error"@.len() == 5,
{
    reveal_strlit("stale-index");
    reveal_strlit("locked");
    reveal_strlit("no-index");
    reveal_strlit("no-session-directory");
    reveal_strlit("unknown-session");
    reveal_strlit("empty-directory");
    reveal_strlit("no-such-path");
    reveal_strlit("bad-usage");
    reveal_strlit("output-exists");
    reveal_strlit("error");
}

/// A failure is told apart by what its message says; of what is told in more than
/// one way the first that is named here counts.
#[verifier::spinoff_prover]
#[verifier::rlimit(60)]
pub proof fn law_kind_of_message(e: Seq<char>)
    ensures
        ({
            let k = classified(e).0;
            let index = text::starts_with(e, "no index at"@);
            let dirs = text::contains(e, "no session directory found"@);
            let session = text::starts_with(e, "no session"@);
            let files = text::contains(e, "no .jsonl files under"@);
            let path = text::contains(e, "No such file or directory"@);
            let stale = text::contains(e, "records unreadable"@);
            let usage = text::starts_with(e, "unknown command"@) || text::starts_with(
                e,
                "no command"@,
            );
            let there = text::ends_with(e, "exists"@);
            let locked = text::contains(e, "database is locked"@) || text::contains(e, "busy"@);
            &&& k == "no-index"@ <==> index
            &&& k == "no-session-directory"@ <==> dirs && !index
            &&& k == "unknown-session"@ <==> session && !index && !dirs
            &&& k == "empty-directory"@ <==> files && !index && !dirs && !session
            &&& k == "no-such-path"@ <==> path && !index && !dirs && !session && !files
            &&& k == "stale-index"@ <==> stale && !index && !dirs && !session && !files && !path
            &&& k == "bad-usage"@ <==> usage && !index && !dirs && !session && !files && !path
                && !stale
            &&& k == "error"@ ==> !index && !dirs && !session && !files && !path && !stale && !usage
                && !there && !locked
            &&& k == "error"@ || classified(e).1.len() > 0
        }),
{
    lemma_kind_names();
    reveal_strlit("run `alog sync` to build it");
    reveal_strlit("pass a directory explicitly");
    reveal_strlit("list sessions with `alog sql \"SELECT ext FROM run\"`");
    reveal_strlit("point at a directory containing .jsonl sessions");
    reveal_strlit("check the path exists");
    reveal_strlit("the source changed on disk; run `alog sync`");
    reveal_strlit("see `alog --help`");
    reveal_strlit("choose a path that does not exist");
    reveal_strlit("another writer holds the index; retry");
}

/// A missing index is told with its path, and is told apart from other failures.
pub proof fn law_without_index(path: Seq<char>)
    ensures
        classified(without_index(path)).0 == "no-index"@,
        text::contains(without_index(path), path),
        !classified(without_index(path)).2,
{
    let a = "no index at "@;
    let z = "; run `alog sync <dir>` first"@;
    let m = without_index(path);
    law_kinds(path + z);
    assert(m =~= a + (path + z));
    assert(m.subrange(a.len() as int, (a.len() + path.len()) as int) =~= path);
    assert(text::occurs_at(m, path, a.len() as int));
    text::law_find(m, path);
    law_kinds(m);
    lemma_kind_names();
}

} // verus!
