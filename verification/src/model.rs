//! What a registry document means: the lowest port to hand out, the
//! assignments it records, and when it is well formed.

use vstd::prelude::*;

use crate::document::{ports_entries, ports_key};
use crate::text::{debug_text, decimal};
use crate::tree::{child, entries_of, find, keys_unique, Entries, TomlItem};

verus! {

/// Lowest port handed out when the registry has no `settings.start`.
pub const DEFAULT_START: u16 = 4001;

/// One recorded assignment: `(directory, name) → port`.
pub struct Slot {
    pub dir: Seq<char>,
    pub name: Seq<char>,
    pub port: u16,
}

pub open spec fn settings_key() -> Seq<char> {
    "settings"@
}

pub open spec fn start_key() -> Seq<char> {
    "start"@
}

/// An item read as a port: an integer that fits in `u16`.
pub open spec fn port_value(v: TomlItem) -> Option<u16> {
    match v {
        TomlItem::Integer(n) => if 0 <= n <= 65535 {
            Some(n as u16)
        } else {
            None
        },
        _ => None,
    }
}

/// An item that a well-formed registry accepts as a port: `1..=65535`.
pub open spec fn valid_port(v: TomlItem) -> bool {
    match v {
        TomlItem::Integer(n) => 1 <= n <= 65535,
        _ => false,
    }
}

/// `settings.start` when it reads as a port, else [`DEFAULT_START`].
pub open spec fn start_of(t: TomlItem) -> u16 {
    match child(t, settings_key()) {
        Some(s) => match child(s, start_key()) {
            Some(v) => match port_value(v) {
                Some(p) => p,
                None => DEFAULT_START,
            },
            None => DEFAULT_START,
        },
        None => DEFAULT_START,
    }
}

/// The port recorded for `(dir, name)`, if any.
pub open spec fn lookup_of(t: TomlItem, dir: Seq<char>, name: Seq<char>) -> Option<u16> {
    match child(t, ports_key()) {
        Some(p) => match child(p, dir) {
            Some(d) => match child(d, name) {
                Some(v) => port_value(v),
                None => None,
            },
            None => None,
        },
        None => None,
    }
}

/// The assignments under one directory, in document order.
pub open spec fn name_rows(dir: Seq<char>, ne: Entries) -> Seq<Slot>
    decreases ne.len(),
{
    if ne.len() == 0 {
        Seq::empty()
    } else {
        let r = name_rows(dir, ne.drop_last());
        match port_value(ne.last().1) {
            Some(p) => r.push(Slot { dir, name: ne.last().0, port: p }),
            None => r,
        }
    }
}

/// The assignments of one `ports` entry: none unless it is a table.
pub open spec fn entry_rows(e: (Seq<char>, TomlItem)) -> Seq<Slot> {
    match e.1 {
        TomlItem::Table(ne) => name_rows(e.0, ne),
        _ => Seq::empty(),
    }
}

/// The assignments of the `ports` entries, in document order.
pub open spec fn dir_rows(pe: Entries) -> Seq<Slot>
    decreases pe.len(),
{
    if pe.len() == 0 {
        Seq::empty()
    } else {
        dir_rows(pe.drop_last()) + entry_rows(pe.last())
    }
}

/// Every assignment that the document records, in document order.
pub open spec fn rows_of(t: TomlItem) -> Seq<Slot> {
    dir_rows(ports_entries(t))
}

/// `p` is recorded somewhere.
pub open spec fn port_used(t: TomlItem, p: u16) -> bool {
    has_port(rows_of(t), p)
}

/// Some port at or above the start is free.
pub open spec fn has_free_port(t: TomlItem) -> bool {
    exists|p: u16| start_of(t) <= p && !port_used(t, p)
}

/// `p` is the lowest free port at or above the start.
pub open spec fn lowest_free(t: TomlItem, p: u16) -> bool {
    &&& start_of(t) <= p
    &&& !port_used(t, p)
    &&& forall|q: u16| start_of(t) <= q < p ==> port_used(t, q)
}

/// No port occurs twice.
pub open spec fn ports_distinct(rows: Seq<Slot>) -> bool {
    forall|i: int, j: int| 0 <= i < j < rows.len() ==> rows[i].port != rows[j].port
}

/// `s` lists the slots of `rows` in increasing order of port.
pub open spec fn listing(rows: Seq<Slot>, s: Seq<Slot>) -> bool {
    &&& forall|i: int, j: int| 0 <= i < j < s.len() ==> s[i].port < s[j].port
    &&& forall|i: int| 0 <= i < s.len() ==> rows.contains(#[trigger] s[i])
    &&& forall|i: int| 0 <= i < rows.len() ==> s.contains(#[trigger] rows[i])
}

/// `settings` is missing, or a table whose `start` is missing or a port.
pub open spec fn settings_ok(t: TomlItem) -> bool {
    match child(t, settings_key()) {
        None => true,
        Some(TomlItem::Table(se)) => match find(se, start_key()) {
            None => true,
            Some(v) => valid_port(v),
        },
        Some(_) => false,
    }
}

/// Every `ports` entry is a table whose entries are all ports.
pub open spec fn shapes_ok(pe: Entries) -> bool {
    forall|i: int|
        0 <= i < pe.len() ==> {
            &&& (#[trigger] pe[i]).1 is Table
            &&& forall|j: int|
                0 <= j < entries_of(pe[i].1).len() ==> valid_port(
                    #[trigger] entries_of(pe[i].1)[j].1,
                )
        }
}

/// `ports` is missing, or a table of tables of ports, no port twice.
pub open spec fn ports_ok(t: TomlItem) -> bool {
    match child(t, ports_key()) {
        None => true,
        Some(TomlItem::Table(pe)) => shapes_ok(pe) && ports_distinct(dir_rows(pe)),
        Some(_) => false,
    }
}

/// The contents of a registry that loaded: a table, no key twice in any
/// table, sound settings and sound, unique ports.
pub open spec fn registry_valid(t: TomlItem) -> bool {
    &&& t is Table
    &&& keys_unique(t)
    &&& settings_ok(t)
    &&& ports_ok(t)
}


/// Message: `settings` is not a table.
pub open spec fn settings_msg() -> Seq<char> {
    "settings is not a table"@
}

/// Message: `settings.start` is not a port.
pub open spec fn start_msg() -> Seq<char> {
    "settings.start must be an integer 1..=65535"@
}

/// Message: `ports` is not a table.
pub open spec fn ports_msg() -> Seq<char> {
    "ports is not a table"@
}

/// Message: `ports.<dir>` is not a table (the directory in debug quotes).
pub open spec fn dir_msg(dir: Seq<char>) -> Seq<char> {
    "ports."@ + debug_text(dir) + " is not a table"@
}

/// Message: `ports.<dir>.<name>` is not a port.
pub open spec fn name_msg(dir: Seq<char>, name: Seq<char>) -> Seq<char> {
    "ports."@ + debug_text(dir) + "."@ + name + " is not a port number"@
}

/// Message: a port is recorded twice.
pub open spec fn dup_msg(port: u16) -> Seq<char> {
    "port "@ + decimal(port as nat) + " is assigned more than once"@
}

/// `p` is the port of one of `rows`.
pub open spec fn has_port(rows: Seq<Slot>, p: u16) -> bool {
    exists|i: int| 0 <= i < rows.len() && #[trigger] rows[i].port == p
}

/// The first fault among the names of one directory, scanning in document
/// order; `before` are the assignments of the directories before it.
pub open spec fn names_problem(dir: Seq<char>, ne: Entries, before: Seq<Slot>) -> Option<Seq<char>>
    decreases ne.len(),
{
    if ne.len() == 0 {
        None
    } else {
        match names_problem(dir, ne.drop_last(), before) {
            Some(m) => Some(m),
            None => {
                let v = ne.last().1;
                if !valid_port(v) {
                    Some(name_msg(dir, ne.last().0))
                } else if has_port(before + name_rows(dir, ne.drop_last()), port_value(v)->0) {
                    Some(dup_msg(port_value(v)->0))
                } else {
                    None
                }
            },
        }
    }
}

/// The first fault among the `ports` entries, scanning in document order.
pub open spec fn dirs_problem(pe: Entries) -> Option<Seq<char>>
    decreases pe.len(),
{
    if pe.len() == 0 {
        None
    } else {
        match dirs_problem(pe.drop_last()) {
            Some(m) => Some(m),
            None => match pe.last().1 {
                TomlItem::Table(ne) => names_problem(pe.last().0, ne, dir_rows(pe.drop_last())),
                _ => Some(dir_msg(pe.last().0)),
            },
        }
    }
}

/// The first fault of a registry document: `settings` first, then `ports`.
pub open spec fn problem(t: TomlItem) -> Option<Seq<char>> {
    match child(t, settings_key()) {
        Some(TomlItem::Table(se)) if find(se, start_key()) matches Some(v) && !valid_port(v) => Some(
            start_msg(),
        ),
        Some(TomlItem::Table(_)) | None => match child(t, ports_key()) {
            None => None,
            Some(TomlItem::Table(pe)) => dirs_problem(pe),
            Some(_) => Some(ports_msg()),
        },
        Some(_) => Some(settings_msg()),
    }
}


/// A fault found in a prefix of the names is the first fault of all of them.
pub proof fn lemma_names_problem_prefix(dir: Seq<char>, ne: Entries, before: Seq<Slot>, k: int)
    requires
        0 <= k <= ne.len(),
        names_problem(dir, ne.take(k), before) is Some,
    ensures
        names_problem(dir, ne, before) == names_problem(dir, ne.take(k), before),
    decreases ne.len(),
{
    if k == ne.len() {
        assert(ne.take(k) =~= ne);
    } else {
        assert(ne.drop_last().take(k) =~= ne.take(k));
        lemma_names_problem_prefix(dir, ne.drop_last(), before, k);
    }
}

/// A fault found in a prefix of the `ports` entries is the first fault of all.
pub proof fn lemma_dirs_problem_prefix(pe: Entries, k: int)
    requires
        0 <= k <= pe.len(),
        dirs_problem(pe.take(k)) is Some,
    ensures
        dirs_problem(pe) == dirs_problem(pe.take(k)),
    decreases pe.len(),
{
    if k == pe.len() {
        assert(pe.take(k) =~= pe);
    } else {
        assert(pe.drop_last().take(k) =~= pe.take(k));
        lemma_dirs_problem_prefix(pe.drop_last(), k);
    }
}

/// A name character: an ASCII letter or digit, `-` or `_`.
pub open spec fn name_char_ok(c: char) -> bool {
    ('a' <= c && c <= 'z') || ('A' <= c && c <= 'Z') || ('0' <= c && c <= '9') || c == '-' || c
        == '_'
}

/// A valid port name: not empty, and made of name characters only.
pub open spec fn name_ok(name: Seq<char>) -> bool {
    name.len() > 0 && forall|i: int| 0 <= i < name.len() ==> name_char_ok(#[trigger] name[i])
}

/// Joining a relative path component: a `/` goes between unless the base is
/// empty or already ends with one.
pub open spec fn join_path(base: Seq<char>, part: Seq<char>) -> Seq<char> {
    if base.len() == 0 || base.last() == '/' {
        base + part
    } else {
        base + seq!['/'] + part
    }
}

/// Where the registry lives: `$PORTEZ_CONFIG` when set and not empty, else
/// `$XDG_CONFIG_HOME/portez/ports.toml` when that is set and not empty, else
/// `<home>/.config/portez/ports.toml`; nothing without a home directory.
pub open spec fn default_path_of(
    config: Option<Seq<char>>,
    xdg_config_home: Option<Seq<char>>,
    home: Option<Seq<char>>,
) -> Option<Seq<char>> {
    if config matches Some(c) && c.len() > 0 {
        config
    } else {
        let base = if xdg_config_home matches Some(x) && x.len() > 0 {
            xdg_config_home
        } else {
            match home {
                Some(h) => Some(join_path(h, ".config"@)),
                None => None,
            }
        };
        match base {
            Some(b) => Some(join_path(join_path(b, "portez"@), "ports.toml"@)),
            None => None,
        }
    }
}

/// A list with one more slot has distinct ports exactly when the list has
/// and the new port is not among them.
pub proof fn lemma_distinct_push(rows: Seq<Slot>, s: Slot)
    ensures
        ports_distinct(rows.push(s)) <==> ports_distinct(rows) && !has_port(rows, s.port),
{
    let r = rows.push(s);
    if ports_distinct(r) {
        assert forall|i: int, j: int| 0 <= i < j < rows.len() implies rows[i].port
            != rows[j].port by {
            assert(r[i] == rows[i] && r[j] == rows[j]);
        }
        if has_port(rows, s.port) {
            let i = choose|i: int| 0 <= i < rows.len() && #[trigger] rows[i].port == s.port;
            assert(r[i] == rows[i] && r[rows.len() as int] == s);
        }
    }
    if ports_distinct(rows) && !has_port(rows, s.port) {
        assert forall|i: int, j: int| 0 <= i < j < r.len() implies r[i].port != r[j].port by {
            assert(r[i] == rows[i]);
            if j < rows.len() {
                assert(r[j] == rows[j]);
            } else {
                assert(rows[i].port != s.port);
            }
        }
    }
}

/// Distinct ports carry over to a prefix.
pub proof fn lemma_distinct_prefix(a: Seq<Slot>, b: Seq<Slot>)
    requires
        ports_distinct(a + b),
    ensures
        ports_distinct(a),
{
    assert forall|i: int, j: int| 0 <= i < j < a.len() implies a[i].port != a[j].port by {
        assert((a + b)[i] == a[i] && (a + b)[j] == a[j]);
    }
}

/// The names of one directory pass the checks exactly when all are ports and
/// no port repeats one before it.
pub proof fn lemma_names_problem(dir: Seq<char>, ne: Entries, before: Seq<Slot>)
    requires
        ports_distinct(before),
    ensures
        names_problem(dir, ne, before) is None <==> (forall|j: int|
            0 <= j < ne.len() ==> valid_port(#[trigger] ne[j].1)) && ports_distinct(
            before + name_rows(dir, ne),
        ),
    decreases ne.len(),
{
    if ne.len() == 0 {
        assert(before + name_rows(dir, ne) =~= before);
    } else {
        let d = ne.drop_last();
        let y = ne.last();
        lemma_names_problem(dir, d, before);
        assert forall|j: int| 0 <= j < d.len() implies d[j] == ne[j] by {}
        if valid_port(y.1) {
            let slot = Slot { dir, name: y.0, port: port_value(y.1)->0 };
            assert(name_rows(dir, ne) == name_rows(dir, d).push(slot));
            assert(before + name_rows(dir, ne) =~= (before + name_rows(dir, d)).push(slot));
            lemma_distinct_push(before + name_rows(dir, d), slot);
        }
        if forall|j: int| 0 <= j < ne.len() ==> valid_port(#[trigger] ne[j].1) {
            assert forall|j: int| 0 <= j < d.len() implies valid_port(#[trigger] d[j].1) by {
                assert(d[j] == ne[j]);
            }
        }
        if names_problem(dir, d, before) is None && valid_port(y.1) {
            assert forall|j: int| 0 <= j < ne.len() implies valid_port(#[trigger] ne[j].1) by {
                if j < d.len() {
                    assert(d[j] == ne[j]);
                }
            }
        }
        assert(!valid_port(y.1) ==> !valid_port(ne[ne.len() - 1].1));
    }
}

/// The `ports` entries pass the checks exactly when they are tables of
/// ports and no port is recorded twice.
pub proof fn lemma_dirs_problem(pe: Entries)
    ensures
        dirs_problem(pe) is None <==> shapes_ok(pe) && ports_distinct(dir_rows(pe)),
    decreases pe.len(),
{
    if pe.len() == 0 {
    } else {
        let d = pe.drop_last();
        let x = pe.last();
        lemma_dirs_problem(d);
        assert(dir_rows(pe) == dir_rows(d) + entry_rows(x));
        assert forall|i: int| 0 <= i < d.len() implies #[trigger] d[i] == pe[i] by {}
        if shapes_ok(pe) {
            assert forall|i: int| 0 <= i < d.len() implies {
                &&& (#[trigger] d[i]).1 is Table
                &&& forall|j: int|
                    0 <= j < entries_of(d[i].1).len() ==> valid_port(
                        #[trigger] entries_of(d[i].1)[j].1,
                    )
            } by {
                assert(d[i] == pe[i]);
            }
            assert(pe[pe.len() - 1] == x);
        }
        if ports_distinct(dir_rows(pe)) {
            lemma_distinct_prefix(dir_rows(d), entry_rows(x));
        }
        match x.1 {
            TomlItem::Table(ne) => {
                if ports_distinct(dir_rows(d)) {
                    lemma_names_problem(x.0, ne, dir_rows(d));
                }
                if shapes_ok(d) && (forall|j: int|
                    0 <= j < ne.len() ==> valid_port(#[trigger] ne[j].1)) {
                    assert forall|i: int| 0 <= i < pe.len() implies {
                        &&& (#[trigger] pe[i]).1 is Table
                        &&& forall|j: int|
                            0 <= j < entries_of(pe[i].1).len() ==> valid_port(
                                #[trigger] entries_of(pe[i].1)[j].1,
                            )
                    } by {
                        if i < d.len() {
                            assert(d[i] == pe[i]);
                        } else {
                            assert(pe[i] == x);
                        }
                    }
                }
                if shapes_ok(pe) {
                    assert(pe[pe.len() - 1] == x);
                    assert forall|j: int| 0 <= j < ne.len() implies valid_port(#[trigger] ne[j].1) by {
                        assert(entries_of(pe[pe.len() - 1].1)[j] == ne[j]);
                    }
                }
            },
            _ => {
                assert(pe[pe.len() - 1] == x);
            },
        }
    }
}

/// A registry document that passes the checks is well formed, and back.
pub proof fn lemma_problem_valid(t: TomlItem)
    requires
        t is Table,
        keys_unique(t),
    ensures
        problem(t) is None <==> registry_valid(t),
{
    if let Some(TomlItem::Table(pe)) = child(t, ports_key()) {
        lemma_dirs_problem(pe);
    }
}
} // verus!
