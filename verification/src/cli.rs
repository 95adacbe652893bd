//! The command-line surface of `portez`: what was asked, and the text that
//! answers it. Parsing the arguments, touching files and printing happen in
//! the program around the library.

use vstd::prelude::*;
use vstd::string::StringExecFns;
use vstd::utf8::encode_utf8;

use crate::model::lookup_of;
use crate::registry::{text_of, Assignment, Registry, RegistryError, DEFAULT_NAME};
use crate::text::{decimal, push_decimal, push_spaces, spaces};

verus! {

/// Stable development ports, one per directory and name.
///
/// `portez [NAME]` prints the port registered for NAME in the current
/// directory, allocating the lowest free one on first use. Stdout carries
/// only the number so `PORT=$(portez)` works in scripts.
pub struct Cli {
    /// Project directory; defaults to the current directory.
    pub dir: Option<String>,
    /// Registry file; defaults to `$PORTEZ_CONFIG` or `~/.config/portez/ports.toml`.
    pub registry: Option<String>,
    /// Suppress the first-use notice on stderr.
    pub quiet: bool,
    pub command: Option<Command>,
}

pub enum Command {
    Get(Get),
    List(List),
    Rm(Rm),
    Path(PathCmd),
    Completion(Completion),
}

/// Print the port for NAME here, registering one on first use.
pub struct Get {
    /// Port name within the directory; defaults to `main`.
    pub name: Option<String>,
    /// Fail instead of registering when NAME has no port yet.
    pub existing: bool,
}

/// List every registered port.
pub struct List {
    /// Emit a JSON array instead of a table.
    pub json: bool,
}

/// Forget the port registered for NAME in this directory.
pub struct Rm {
    /// Port name to forget; defaults to `main`.
    pub name: Option<String>,
    /// Forget every name registered for the directory.
    pub all: bool,
}

/// Print the registry file path.
pub struct PathCmd;

/// Print a shell completion script.
pub struct Completion {
    pub shell: Shell,
}

#[derive(Clone, Copy, Debug, PartialEq, Eq)]
pub enum Shell {
    Bash,
    Zsh,
    Fish,
    Elvish,
    Nushell,
    PowerShell,
}

/// Where a command acts: the registry file, the project directory, and
/// whether notices are silenced.
pub struct Context {
    pub registry: String,
    pub dir: Option<String>,
    pub quiet: bool,
}

fn copy_text(s: &Option<String>) -> (r: Option<String>)
    ensures
        match (s, r) {
            (Some(a), Some(b)) => a@ == b@,
            (None, None) => true,
            _ => false,
        },
{
    match s {
        Some(a) => Some(a.clone()),
        None => None,
    }
}

impl Context {
    /// The context of a command line: the registry given with `--registry`,
    /// else `default_path` (the registry's default location, or the reason
    /// there is none).
    ///
    /// # Errors
    /// Fails with `default_path`'s error when no registry was given and there
    /// is no default.
    pub fn new(cli: &Cli, default_path: Result<String, RegistryError>) -> (r: Result<
        Context,
        RegistryError,
    >)
        ensures
            match cli.registry {
                Some(p) => r matches Ok(c) && c.registry@ == p@,
                None => match default_path {
                    Ok(d) => r matches Ok(c) && c.registry@ == d@,
                    Err(e) => r == Err::<Context, RegistryError>(e),
                },
            },
            r matches Ok(c) ==> c.quiet == cli.quiet && match (cli.dir, c.dir) {
                (Some(a), Some(b)) => a@ == b@,
                (None, None) => true,
                _ => false,
            },
    {
        let registry = match &cli.registry {
            Some(path) => path.clone(),
            None => match default_path {
                Ok(path) => path,
                Err(e) => {
                    return Err(e);
                },
            },
        };
        Ok(Context { registry, dir: copy_text(&cli.dir), quiet: cli.quiet })
    }
}

/// The name a `get` or `rm` means: the one given, else `main`.
pub fn port_name(name: Option<&str>) -> (r: &str)
    ensures
        r@ == match name {
            Some(n) => n@,
            None => DEFAULT_NAME@,
        },
{
    match name {
        Some(n) => n,
        None => DEFAULT_NAME,
    }
}

/// What `rm` forgets: every name of the directory with `--all`, else the
/// name given or `main`.
pub fn rm_target(all: bool, name: Option<&str>) -> (r: Option<&str>)
    ensures
        text_of(r) == if all {
            None
        } else {
            Some(
                match name {
                    Some(n) => n@,
                    None => DEFAULT_NAME@,
                },
            )
        },
{
    if all {
        None
    } else {
        Some(port_name(name))
    }
}

/// `get --existing`: the port registered for `(dir, name)`, without
/// registering one.
///
/// # Errors
/// Fails with [`RegistryError::NotRegistered`] when nothing is registered.
pub fn existing_port(registry: &Registry, dir: &str, name: &str) -> (r: Result<u16, RegistryError>)
    ensures
        match lookup_of(registry.contents(), dir@, name@) {
            Some(p) => r == Ok::<u16, RegistryError>(p),
            None => r matches Err(RegistryError::NotRegistered { dir: d, name: n }) && d@ == dir@
                && n@ == name@,
        },
{
    match registry.lookup(dir, name) {
        Some(port) => Ok(port),
        None => Err(RegistryError::NotRegistered { dir: dir.to_owned(), name: name.to_owned() }),
    }
}

/// The notice printed on stderr when a port is first registered.
pub open spec fn registered_text(name: Seq<char>, port: u16, dir: Seq<char>) -> Seq<char> {
    "portez: registered "@ + name + " → "@ + decimal(port as nat) + " for "@ + dir
}

/// The notice printed on stderr for each assignment `rm` forgot.
pub open spec fn removed_text(name: Seq<char>, port: u16, dir: Seq<char>) -> Seq<char> {
    "portez: removed "@ + name + " → "@ + decimal(port as nat) + " for "@ + dir
}

/// `portez: registered {name} → {port} for {dir}`
pub fn registered_notice(name: &str, port: u16, dir: &str) -> (r: String)
    ensures
        r@ == registered_text(name@, port, dir@),
{
    let mut s = "portez: registered ".to_owned();
    s.append(name);
    s.append(" → ");
    push_decimal(&mut s, port);
    s.append(" for ");
    s.append(dir);
    s
}

/// `portez: removed {name} → {port} for {dir}`
pub fn removed_notice(row: &Assignment) -> (r: String)
    ensures
        r@ == removed_text(row.name@, row.port, row.dir@),
{
    let mut s = "portez: removed ".to_owned();
    s.append(row.name.as_str());
    s.append(" → ");
    push_decimal(&mut s, row.port);
    s.append(" for ");
    s.append(row.dir.as_str());
    s
}

/// The length of a text in bytes (UTF-8), as `str::len` counts it.
pub open spec fn byte_len(s: Seq<char>) -> nat {
    (encode_utf8(s).len() as usize) as nat
}

/// `s` padded with spaces on the right to `width` characters, as
/// `{:<width$}` prints it.
pub open spec fn pad_right(s: Seq<char>, width: nat) -> Seq<char> {
    if s.len() < width {
        s + spaces((width - s.len()) as nat)
    } else {
        s
    }
}

/// The width of the NAME column: the longest name in bytes, at least 4.
pub open spec fn name_width(rows: Seq<Assignment>) -> nat
    decreases rows.len(),
{
    if rows.len() == 0 {
        4
    } else {
        let w = name_width(rows.drop_last());
        let n = byte_len(rows.last().name@);
        if n > w {
            n
        } else {
            w
        }
    }
}

/// One line of the `list` table.
pub open spec fn table_line(port: Seq<char>, name: Seq<char>, dir: Seq<char>, width: nat) -> Seq<
    char,
> {
    pad_right(port, 5) + "  "@ + pad_right(name, width) + "  "@ + dir + "\n"@
}

/// The body of the `list` table, one line per assignment.
pub open spec fn table_rows(rows: Seq<Assignment>, width: nat) -> Seq<char>
    decreases rows.len(),
{
    if rows.len() == 0 {
        Seq::empty()
    } else {
        table_rows(rows.drop_last(), width) + table_line(
            decimal(rows.last().port as nat),
            rows.last().name@,
            rows.last().dir@,
            width,
        )
    }
}

/// The `list` table: a header, then a line per assignment.
pub open spec fn table_text(rows: Seq<Assignment>) -> Seq<char> {
    pad_right("PORT"@, 5) + "  "@ + pad_right("NAME"@, name_width(rows)) + "  DIR\n"@
        + table_rows(rows, name_width(rows))
}

fn push_padded(out: &mut String, s: &str, width: usize)
    ensures
        final(out)@ == old(out)@ + pad_right(s@, width as nat),
{
    let n = s.unicode_len();
    out.append(s);
    if n < width {
        push_spaces(out, width - n);
    } else {
        assert(old(out)@ + s@ + spaces(0) =~= old(out)@ + s@);
    }
}

fn column_width(rows: &Vec<Assignment>) -> (r: usize)
    ensures
        r as nat == name_width(rows@),
{
    let mut w: usize = 4;
    let mut i: usize = 0;
    while i < rows.len()
        invariant
            i <= rows.len(),
            w as nat == name_width(rows@.take(i as int)),
        decreases rows.len() - i,
    {
        assert(rows@.take(i + 1).drop_last() =~= rows@.take(i as int));
        let name = rows[i].name.as_str();
        let n = name.len();
        assert(name@ == rows@[i as int].name@);
        assert(rows@.take(i + 1).last() == rows@[i as int]);
        assert(n as nat == byte_len(name@));
        if n > w {
            w = n;
        }
        i += 1;
    }
    assert(rows@.take(rows.len() as int) =~= rows@);
    w
}

/// The table that `list` prints, ordered as given.
pub fn render_table(rows: &Vec<Assignment>) -> (r: String)
    ensures
        r@ == table_text(rows@),
{
    let width = column_width(rows);
    let mut out = String::new();
    push_padded(&mut out, "PORT", 5);
    out.append("  ");
    push_padded(&mut out, "NAME", width);
    out.append("  DIR\n");
    let ghost head = out@;
    let mut i: usize = 0;
    assert(rows@.take(0) =~= Seq::<Assignment>::empty());
    assert(out@ =~= head + table_rows(rows@.take(0), width as nat));
    while i < rows.len()
        invariant
            i <= rows.len(),
            width as nat == name_width(rows@),
            out@ == head + table_rows(rows@.take(i as int), width as nat),
        decreases rows.len() - i,
    {
        let row = &rows[i];
        let ghost before = out@;
        let port = crate::text::decimal_text(row.port);
        push_padded(&mut out, port.as_str(), 5);
        out.append("  ");
        push_padded(&mut out, row.name.as_str(), width);
        out.append("  ");
        out.append(row.dir.as_str());
        out.append("\n");
        assert(rows@.take(i + 1).drop_last() =~= rows@.take(i as int));
        assert(out@ =~= before + table_line(decimal(row.port as nat), row.name@, row.dir@, width as nat));
        i += 1;
    }
    assert(rows@.take(rows.len() as int) =~= rows@);
    out
}

} // verus!
