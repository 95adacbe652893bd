//! The TOML-backed port registry.
//!
//! ```toml
//! [settings]
//! start = 4001
//!
//! [ports."/home/me/src/app"]
//! main = 4001
//! debug = 4002
//! ```
//!
//! Directories are stored as canonical absolute paths. Ports are unique
//! across the whole file, so two projects never share a number.

use toml_edit::{DocumentMut, TomlError};
use vstd::prelude::*;
use vstd::string::StringExecFns;

use crate::document::{
    add_port, document_contents, document_plain, document_text, document_tree, parse_document, remove_dir, remove_name, render_document, toml_parse, with_port, without_name,
};
use crate::model::{
    dir_rows, entry_rows, has_free_port, has_port, listing, lookup_of,
    lowest_free, name_rows, names_problem, dirs_problem, port_used, port_value,
    lemma_names_problem_prefix, lemma_dirs_problem_prefix,
    ports_distinct, problem, registry_valid, rows_of, start_of, valid_port, Slot, lemma_problem_valid,
    name_ok, name_char_ok, default_path_of, join_path,
};
use crate::edits::{
    lemma_add_port, lemma_filter_nonempty, lemma_listing_filter, lemma_remove_name,
    lemma_removal, matching, removal,
};
use std::collections::BTreeSet;
use crate::port_set::{has_port_in, insert_port, new_port_set};
use crate::text::{debug_quoted, push_decimal, same_text};

pub use crate::model::DEFAULT_START;
use crate::tree::{
    child, entries_model, find, lemma_entries_model, lemma_find, Node,
    TomlItem,
};

verus! {

/// Environment variable that overrides the registry location.
pub const CONFIG_ENV: &'static str = "PORTEZ_CONFIG";

/// Name used when a request does not supply one.
pub const DEFAULT_NAME: &'static str = "main";

/// One `(directory, name) → port` row.
#[derive(Clone, Debug, PartialEq, Eq)]
pub struct Assignment {
    pub dir: String,
    pub name: String,
    pub port: u16,
}

impl View for Assignment {
    type V = Slot;

    open spec fn view(&self) -> Slot {
        Slot { dir: self.dir@, name: self.name@, port: self.port }
    }
}

/// The slots of a list of assignments.
pub open spec fn slots(v: Seq<Assignment>) -> Seq<Slot> {
    v.map_values(|a: Assignment| a@)
}

/// `std::io::Error`, carried by the errors of file access.
#[verifier::external_type_specification]
#[verifier::external_body]
pub struct ExIoError(std::io::Error);

#[derive(Debug)]
#[allow(inconsistent_fields)]
pub enum RegistryError {
    /// Neither the override nor a home directory is available.
    NoPath,
    /// The registry file cannot be read.
    Read { path: String, source: std::io::Error },
    /// The registry file cannot be written.
    Write { path: String, source: std::io::Error },
    /// The lock beside the registry cannot be taken.
    Lock { path: String, source: std::io::Error },
    /// The registry is not TOML.
    Parse { path: String, source: TomlError },
    /// The registry is TOML of the wrong shape.
    Malformed { path: String, message: String },
    /// A name other than letters, digits, `-` and `_`.
    InvalidName(String),
    /// Every port from `start` up is taken.
    Exhausted { start: u16 },
    /// Nothing is registered for the request.
    NotRegistered { dir: String, name: String },
}

/// An open registry document and the path it came from.
#[derive(Debug)]
pub struct Registry {
    path: String,
    doc: DocumentMut,
    dirty: bool,
}

/// The item under `key` in a table node.
fn child_node<'a>(n: &'a Node, key: &str) -> (r: Option<&'a Node>)
    ensures
        match r {
            Some(c) => child(n@, key@) == Some(c@),
            None => child(n@, key@) is None,
        },
{
    match n {
        Node::Table(v) => {
            let ghost e = entries_model(v@);
            proof {
                lemma_entries_model(v@);
                lemma_find(e, key@);
            }
            let mut i: usize = 0;
            while i < v.len()
                invariant
                    i <= v.len(),
                    e == entries_model(v@),
                    n@ == TomlItem::Table(e),
                    e.len() == v@.len(),
                    forall|j: int| 0 <= j < v@.len() ==> #[trigger] e[j] == (v@[j].0@, v@[j].1@),
                    forall|j: int| 0 <= j < i ==> e[j].0 != key@,
                decreases v.len() - i,
            {
                if same_text(v[i].0.as_str(), key) {
                    assert(e[i as int].0 == key@);
                    proof {
                        lemma_find(e, key@);
                    }
                    assert(find(e, key@) == Some(e[i as int].1));
                    return Some(&v[i].1);
                }
                i += 1;
            }
            None
        },
        _ => None,
    }
}


/// `v` as a port, as `Item::as_integer` and `u16::try_from` read it.
fn port_node(v: &Node) -> (r: Option<u16>)
    ensures
        r == port_value(v@),
{
    match v {
        Node::Integer(n) => if 0 <= *n && *n <= 65535 {
            Some(*n as u16)
        } else {
            None
        },
        _ => None,
    }
}

/// `v` as a port of a well-formed registry, `1..=65535`.
fn valid_port_node(v: &Node) -> (r: Option<u16>)
    ensures
        match r {
            Some(p) => valid_port(v@) && port_value(v@) == Some(p),
            None => !valid_port(v@),
        },
{
    match v {
        Node::Integer(n) => if 1 <= *n && *n <= 65535 {
            Some(*n as u16)
        } else {
            None
        },
        _ => None,
    }
}

/// Checks the shape of a registry document: `settings` is a table whose
/// `start` is a port, `ports` is a table of tables of ports, and no port is
/// recorded twice. The error is the message for the first fault.
pub fn validate(t: &Node) -> (r: Result<(), String>)
    ensures
        match r {
            Ok(_) => problem(t@) is None,
            Err(m) => problem(t@) == Some(m@),
        },
{
    match child_node(t, "settings") {
        Some(Node::Table(_)) => {
            let settings = child_node(t, "settings").unwrap();
            if let Some(start) = child_node(settings, "start") {
                if valid_port_node(start).is_none() {
                    return Err("settings.start must be an integer 1..=65535".to_owned());
                }
            }
        },
        None => {},
        Some(_) => {
            return Err("settings is not a table".to_owned());
        },
    }
    let pe = match child_node(t, "ports") {
        None => {
            return Ok(());
        },
        Some(Node::Table(pe)) => pe,
        Some(_) => {
            return Err("ports is not a table".to_owned());
        },
    };
    let ghost pem = entries_model(pe@);
    proof {
        lemma_entries_model(pe@);
    }
    assert(problem(t@) == dirs_problem(pem));
    let mut seen = new_port_set();
    let mut i: usize = 0;
    assert(pem.take(0) =~= Seq::<(Seq<char>, TomlItem)>::empty());
    assert(dir_rows(pem.take(0)) =~= Seq::<Slot>::empty());
    while i < pe.len()
        invariant
            i <= pe.len(),
            pem == entries_model(pe@),
            pem.len() == pe@.len(),
            forall|k: int| 0 <= k < pe@.len() ==> #[trigger] pem[k] == (pe@[k].0@, pe@[k].1@),
            problem(t@) == dirs_problem(pem),
            dirs_problem(pem.take(i as int)) is None,
            forall|q: u16| seen@.contains(q) <==> has_port(dir_rows(pem.take(i as int)), q),
        decreases pe.len() - i,
    {
        let dir = &pe[i].0;
        let ghost before = dir_rows(pem.take(i as int));
        assert(pem.take(i + 1).drop_last() =~= pem.take(i as int));
        assert(pem.take(i + 1).last() == pem[i as int]);
        match &pe[i].1 {
            Node::Table(ne) => {
                let ghost nem = entries_model(ne@);
                proof {
                    lemma_entries_model(ne@);
                }
                let mut j: usize = 0;
                assert(nem.take(0) =~= Seq::<(Seq<char>, TomlItem)>::empty());
                assert(before + name_rows(dir@, nem.take(0)) =~= before);
                while j < ne.len()
                    invariant
                        i < pe.len(),
                        pem.len() == pe@.len(),
                        j <= ne.len(),
                        nem == entries_model(ne@),
                        nem.len() == ne@.len(),
                        forall|k: int| 0 <= k < ne@.len() ==> #[trigger] nem[k] == (ne@[k].0@, ne@[k].1@),
                        pem[i as int] == (dir@, TomlItem::Table(nem)),
                        pem.take(i + 1).drop_last() == pem.take(i as int),
                        pem.take(i + 1).last() == pem[i as int],
                        problem(t@) == dirs_problem(pem),
                        dirs_problem(pem.take(i as int)) is None,
                        before == dir_rows(pem.take(i as int)),
                        names_problem(dir@, nem.take(j as int), before) is None,
                        forall|q: u16|
                            seen@.contains(q) <==> has_port(
                                before + name_rows(dir@, nem.take(j as int)),
                                q,
                            ),
                    decreases ne.len() - j,
                {
                    let name = &ne[j].0;
                    let ghost prefix = nem.take(j as int);
                    assert(nem.take(j + 1).drop_last() =~= prefix);
                    assert(nem.take(j + 1).last() == nem[j as int]);
                    match valid_port_node(&ne[j].1) {
                        None => {
                            let mut m = "ports.".to_owned();
                            m.append(debug_quoted(dir.as_str()).as_str());
                            m.append(".");
                            m.append(name.as_str());
                            m.append(" is not a port number");
                            proof {
                                lemma_names_problem_prefix(dir@, nem, before, j + 1);
                                assert(nem.take(ne.len() as int) =~= nem);
                                lemma_dirs_problem_prefix(pem, i + 1);
                            }
                            return Err(m);
                        },
                        Some(port) => {
                            let ghost rows0 = before + name_rows(dir@, prefix);
                            if !insert_port(&mut seen, port) {
                                let mut m = "port ".to_owned();
                                push_decimal(&mut m, port);
                                m.append(" is assigned more than once");
                                proof {
                                    lemma_names_problem_prefix(dir@, nem, before, j + 1);
                                    assert(nem.take(ne.len() as int) =~= nem);
                                    lemma_dirs_problem_prefix(pem, i + 1);
                                }
                                return Err(m);
                            }
                            let ghost s_new = Slot { dir: dir@, name: name@, port };
                            assert(name_rows(dir@, nem.take(j + 1)) == name_rows(dir@, prefix).push(
                                s_new,
                            ));
                            let ghost rows1 = before + name_rows(dir@, nem.take(j + 1));
                            assert(rows1 =~= rows0.push(s_new));
                            assert forall|q: u16| seen@.contains(q) <==> has_port(rows1, q) by {
                                if has_port(rows1, q) && q != port {
                                    let k = choose|k: int| 0 <= k < rows1.len() && #[trigger] rows1[k].port == q;
                                    assert(rows0[k].port == q);
                                }
                                if q == port {
                                    assert(rows1[rows0.len() as int].port == q);
                                }
                                if has_port(rows0, q) {
                                    let k = choose|k: int| 0 <= k < rows0.len() && #[trigger] rows0[k].port == q;
                                    assert(rows1[k].port == q);
                                }
                            }
                        },
                    }
                    j += 1;
                }
                assert(nem.take(ne.len() as int) =~= nem);
            },
            _ => {
                let mut m = "ports.".to_owned();
                m.append(debug_quoted(dir.as_str()).as_str());
                m.append(" is not a table");
                proof {
                    lemma_dirs_problem_prefix(pem, i + 1);
                }
                return Err(m);
            },
        }
        i += 1;
    }
    assert(pem.take(pe.len() as int) =~= pem);
    Ok(())
}


/// The assignments that a document records, in document order.
fn collect_rows(t: &Node) -> (r: Vec<Assignment>)
    ensures
        slots(r@) == rows_of(t@),
{
    let mut out: Vec<Assignment> = Vec::new();
    if let Some(Node::Table(pe)) = child_node(t, "ports") {
        let ghost pem = entries_model(pe@);
        proof {
            lemma_entries_model(pe@);
        }
        assert(rows_of(t@) == dir_rows(pem));
        let mut i: usize = 0;
        assert(pem.take(0) =~= Seq::<(Seq<char>, TomlItem)>::empty());
        assert(slots(out@) =~= dir_rows(pem.take(0)));
        while i < pe.len()
            invariant
                i <= pe.len(),
                pem == entries_model(pe@),
                pem.len() == pe@.len(),
                forall|k: int| 0 <= k < pe@.len() ==> #[trigger] pem[k] == (pe@[k].0@, pe@[k].1@),
                rows_of(t@) == dir_rows(pem),
                slots(out@) == dir_rows(pem.take(i as int)),
            decreases pe.len() - i,
        {
            let dir = &pe[i].0;
            assert(pem.take(i + 1).drop_last() =~= pem.take(i as int));
            assert(pem.take(i + 1).last() == pem[i as int]);
            let ghost before = slots(out@);
            match &pe[i].1 {
                Node::Table(ne) => {
                    let ghost nem = entries_model(ne@);
                    proof {
                        lemma_entries_model(ne@);
                    }
                    let mut j: usize = 0;
                    assert(nem.take(0) =~= Seq::<(Seq<char>, TomlItem)>::empty());
                    assert(slots(out@) =~= before + name_rows(dir@, nem.take(0)));
                    while j < ne.len()
                        invariant
                            j <= ne.len(),
                            nem == entries_model(ne@),
                            nem.len() == ne@.len(),
                            forall|k: int|
                                0 <= k < ne@.len() ==> #[trigger] nem[k] == (ne@[k].0@, ne@[k].1@),
                            slots(out@) == before + name_rows(dir@, nem.take(j as int)),
                        decreases ne.len() - j,
                    {
                        assert(nem.take(j + 1).drop_last() =~= nem.take(j as int));
                        assert(nem.take(j + 1).last() == nem[j as int]);
                        if let Some(port) = port_node(&ne[j].1) {
                            let a = Assignment { dir: dir.clone(), name: ne[j].0.clone(), port };
                            let ghost prev = out@;
                            out.push(a);
                            assert(slots(out@) =~= slots(prev).push(a@));
                        }
                        j += 1;
                    }
                    assert(nem.take(ne.len() as int) =~= nem);
                    assert(entry_rows(pem[i as int]) == name_rows(dir@, nem));
                },
                _ => {},
            }
            i += 1;
        }
        assert(pem.take(pe.len() as int) =~= pem);
    } else {
        assert(rows_of(t@) =~= Seq::<Slot>::empty());
        assert(slots(out@) =~= Seq::<Slot>::empty());
    }
    out
}

/// The ports of `rows`, as a set.
fn used_ports(rows: &Vec<Assignment>) -> (r: BTreeSet<u16>)
    ensures
        forall|q: u16| r@.contains(q) <==> has_port(slots(rows@), q),
{
    let mut used = new_port_set();
    let mut i: usize = 0;
    while i < rows.len()
        invariant
            i <= rows.len(),
            forall|q: u16| used@.contains(q) <==> has_port(slots(rows@).take(i as int), q),
        decreases rows.len() - i,
    {
        let ghost before = slots(rows@).take(i as int);
        let ghost after = slots(rows@).take(i + 1);
        insert_port(&mut used, rows[i].port);
        assert(after =~= before.push(rows@[i as int]@));
        assert forall|q: u16| used@.contains(q) <==> has_port(after, q) by {
            if has_port(after, q) && q != rows@[i as int].port {
                let k = choose|k: int| 0 <= k < after.len() && #[trigger] after[k].port == q;
                assert(before[k].port == q);
            }
            if q == rows@[i as int].port {
                assert(after[i as int].port == q);
            }
            if has_port(before, q) {
                let k = choose|k: int| 0 <= k < before.len() && #[trigger] before[k].port == q;
                assert(after[k].port == q);
            }
        }
        i += 1;
    }
    assert(slots(rows@).take(rows.len() as int) =~= slots(rows@));
    used
}

/// Orders assignments by port (ports are distinct).
fn sort_by_port(rows: Vec<Assignment>) -> (r: Vec<Assignment>)
    requires
        ports_distinct(slots(rows@)),
    ensures
        listing(slots(rows@), slots(r@)),
{
    let ghost all = slots(rows@);
    let mut out: Vec<Assignment> = Vec::new();
    let mut i: usize = 0;
    while i < rows.len()
        invariant
            i <= rows.len(),
            all == slots(rows@),
            all.len() == rows@.len(),
            ports_distinct(all),
            forall|a: int, b: int|
                0 <= a < b < out@.len() ==> out@[a].port < out@[b].port,
            forall|k: int|
                #![trigger out@[k]]
                0 <= k < out@.len() ==> exists|m: int| 0 <= m < i && #[trigger] all[m] == out@[k]@,
            forall|m: int| 0 <= m < i ==> slots(out@).contains(#[trigger] all[m]),
        decreases rows.len() - i,
    {
        let x = Assignment { dir: rows[i].dir.clone(), name: rows[i].name.clone(), port: rows[i].port };
        assert(x@ == all[i as int]);
        let mut k: usize = 0;
        while k < out.len() && out[k].port < x.port
            invariant
                k <= out.len(),
                forall|m: int| 0 <= m < k ==> out@[m].port < x.port,
            decreases out.len() - k,
        {
            k += 1;
        }
        // no recorded port equals x's: ports are distinct
        assert forall|m: int| 0 <= m < out@.len() implies out@[m].port != x.port by {
            let w = choose|w: int| 0 <= w < i && #[trigger] all[w] == out@[m]@;
        }
        let ghost prev = out@;
        out.insert(k, x);
        assert(out@ == prev.insert(k as int, x));
        proof {
            prev.insert_ensures(k as int, x);
        }
        assert forall|a: int, b: int| 0 <= a < b < out@.len() implies out@[a].port < out@[b].port by {
            if b < k {
            } else if b == k {
            } else if a < k {
                assert(out@[b] == prev[b - 1]);
            } else if a == k {
                assert(out@[b] == prev[b - 1]);
                assert(prev[k as int].port >= x.port);
                if b - 1 > k {
                    assert(prev[k as int].port < prev[b - 1].port);
                }
            } else {
                assert(out@[a] == prev[a - 1]);
                assert(out@[b] == prev[b - 1]);
            }
        }
        assert forall|q: int| #![trigger out@[q]] 0 <= q < out@.len() implies exists|m: int|
            0 <= m < i + 1 && #[trigger] all[m] == out@[q]@ by {
            if q < k {
                let w = choose|w: int| 0 <= w < i && #[trigger] all[w] == prev[q]@;
            } else if q == k {
                assert(all[i as int] == out@[q]@);
            } else {
                assert(out@[q] == prev[q - 1]);
                let w = choose|w: int| 0 <= w < i && #[trigger] all[w] == prev[q - 1]@;
            }
        }
        assert forall|m: int| 0 <= m < i + 1 implies slots(out@).contains(#[trigger] all[m]) by {
            if m < i {
                assert(slots(prev).contains(all[m]));
                let w = choose|w: int| 0 <= w < slots(prev).len() && slots(prev)[w] == all[m];
                if w < k {
                    assert(slots(out@)[w] == all[m]);
                } else {
                    assert(slots(out@)[w + 1] == all[m]);
                }
            } else {
                assert(slots(out@)[k as int] == all[m]);
            }
        }
        i += 1;
    }
    assert forall|q: int| 0 <= q < slots(out@).len() implies all.contains(#[trigger] slots(out@)[q]) by {
        let w = choose|w: int| 0 <= w < i && #[trigger] all[w] == out@[q]@;
    }
    out
}

/// Lowest port a registry document hands out: `settings.start` when it
/// reads as a port, else [`DEFAULT_START`].
pub fn tree_start(t: &Node) -> (r: u16)
    ensures
        r == start_of(t@),
{
    if let Some(settings) = child_node(t, "settings") {
        if let Some(v) = child_node(settings, "start") {
            if let Some(p) = port_node(v) {
                return p;
            }
        }
    }
    DEFAULT_START
}

/// The port a registry document records for `(dir, name)`, if any.
pub fn tree_lookup(t: &Node, dir: &str, name: &str) -> (r: Option<u16>)
    ensures
        r == lookup_of(t@, dir@, name@),
{
    let ports = child_node(t, "ports")?;
    let names = child_node(ports, dir)?;
    let v = child_node(names, name)?;
    port_node(v)
}

/// Every assignment a registry document records, ordered by port.
pub(crate) fn tree_assignments(t: &Node) -> (r: Vec<Assignment>)
    requires
        ports_distinct(rows_of(t@)),
    ensures
        listing(rows_of(t@), slots(r@)),
{
    sort_by_port(collect_rows(t))
}

/// The lowest port at or above the start that no assignment of a registry
/// document holds.
///
/// # Errors
/// Fails when every port from the start up is taken.
pub fn tree_next_free(t: &Node) -> (r: Result<u16, RegistryError>)
    ensures
        match r {
            Ok(p) => lowest_free(t@, p),
            Err(e) => !has_free_port(t@) && (e matches RegistryError::Exhausted { start }
                && start == start_of(t@)),
        },
{
    let start = tree_start(t);
    let rows = collect_rows(t);
    let used = used_ports(&rows);
    let mut p: u32 = start as u32;
    while p <= 65535
        invariant
            start as u32 <= p <= 65536,
            start == start_of(t@),
            slots(rows@) == rows_of(t@),
            forall|q: u16| used@.contains(q) <==> has_port(slots(rows@), q),
            forall|q: u16| start <= q && (q as u32) < p ==> port_used(t@, q),
        decreases 65536 - p,
    {
        let q = p as u16;
        if !has_port_in(&used, q) {
            return Ok(q);
        }
        p += 1;
    }
    Err(RegistryError::Exhausted { start })
}

impl Registry {
    #[verifier::type_invariant]
    spec fn well_formed(self) -> bool {
        &&& registry_valid(document_contents(self.doc))
        &&& document_plain(self.doc)
    }

    /// What the registry document holds. A registry's document is always
    /// well formed (its type invariant), so this is the document's contents;
    /// the empty table stands in only where that could not be.
    pub closed spec fn contents(&self) -> TomlItem {
        if registry_valid(document_contents(self.doc)) {
            document_contents(self.doc)
        } else {
            TomlItem::Table(Seq::empty())
        }
    }

    /// Every registry is well formed: `settings` is a table whose `start` is
    /// a port, `ports` is a table of tables of ports, and no port is recorded
    /// twice.
    pub proof fn lemma_valid(&self)
        ensures
            registry_valid(self.contents()),
    {
        assert(registry_valid(TomlItem::Table(Seq::empty())));
    }

    /// The contents, read out of the document.
    fn tree(&self) -> (r: Node)
        ensures
            r@ == self.contents(),
    {
        proof {
            use_type_invariant(self);
        }
        document_tree(&self.doc)
    }

    /// The TOML text of the registry document, as `toml_edit` prints it.
    pub closed spec fn text(&self) -> Seq<char> {
        document_text(self.doc)
    }

    /// The file the registry came from.
    pub closed spec fn file(&self) -> Seq<char> {
        self.path@
    }

    /// Whether anything changed since it was loaded.
    pub closed spec fn changed(&self) -> bool {
        self.dirty
    }

    /// Resolve the registry path from `$PORTEZ_CONFIG`, `$XDG_CONFIG_HOME`
    /// and the home directory, in that order.
    ///
    /// # Errors
    /// Fails when neither the override nor a home directory is available.
    pub fn default_path(
        config: Option<&str>,
        xdg_config_home: Option<&str>,
        home: Option<&str>,
    ) -> (r: Result<String, RegistryError>)
        ensures
            match r {
                Ok(p) => default_path_of(
                    text_of(config),
                    text_of(xdg_config_home),
                    text_of(home),
                ) == Some(p@),
                Err(e) => default_path_of(
                    text_of(config),
                    text_of(xdg_config_home),
                    text_of(home),
                ) is None && e is NoPath,
            },
    {
        if let Some(c) = config {
            if c.unicode_len() > 0 {
                return Ok(c.to_owned());
            }
        }
        let base = match xdg_config_home {
            Some(x) if x.unicode_len() > 0 => x.to_owned(),
            _ => match home {
                Some(h) => join(h, ".config"),
                None => {
                    return Err(RegistryError::NoPath);
                },
            },
        };
        let dir = join(base.as_str(), "portez");
        Ok(join(dir.as_str(), "ports.toml"))
    }

    /// Load the registry saved at `path` from its text (empty when there is no
    /// file yet).
    ///
    /// # Errors
    /// Fails when the text is not TOML or has an invalid shape (non-table
    /// sections, non-port values, duplicate ports).
    pub fn load(path: String, text: &str) -> (r: Result<Registry, RegistryError>)
        ensures
            match toml_parse(text@) {
                None => (r matches Err(RegistryError::Parse { path: p, .. }) && p@ == path@),
                Some(t) => match problem(t) {
                    Some(m) => (r matches Err(RegistryError::Malformed { path: p, message })
                        && p@ == path@ && message@ == m),
                    None => (r matches Ok(reg) && reg.contents() == t && reg.file() == path@
                        && !reg.changed() && registry_valid(t)),
                },
            },
            text@.len() == 0 ==> (r matches Ok(reg) && reg.contents() == TomlItem::Table(
                Seq::empty(),
            ) && rows_of(reg.contents()) == Seq::<Slot>::empty()),
    {
        match parse_document(text) {
            Err(source) => Err(RegistryError::Parse { path, source }),
            Ok(doc) => {
                let tree = document_tree(&doc);
                match validate(&tree) {
                    Err(message) => Err(RegistryError::Malformed { path, message }),
                    Ok(()) => {
                        proof {
                            lemma_problem_valid(tree@);
                        }
                        Ok(Registry { path, doc, dirty: false })
                    },
                }
            },
        }
    }

    /// The file the registry belongs to.
    pub fn path(&self) -> (r: &str)
        ensures
            r@ == self.file(),
    {
        self.path.as_str()
    }

    /// Whether the registry changed and needs saving.
    pub fn is_dirty(&self) -> (r: bool)
        ensures
            r == self.changed(),
    {
        self.dirty
    }

    /// Lowest port this registry will hand out.
    pub fn start(&self) -> (r: u16)
        ensures
            r == start_of(self.contents()),
    {
        tree_start(&self.tree())
    }

    /// The port for `(dir, name)`, if registered.
    pub fn lookup(&self, dir: &str, name: &str) -> (r: Option<u16>)
        ensures
            r == lookup_of(self.contents(), dir@, name@),
    {
        tree_lookup(&self.tree(), dir, name)
    }

    /// Every assignment, ordered by port.
    pub fn assignments(&self) -> (r: Vec<Assignment>)
        ensures
            listing(rows_of(self.contents()), slots(r@)),
    {
        proof {
            use_type_invariant(self);
        }
        tree_assignments(&self.tree())
    }

    /// The lowest port at or above the start that no assignment holds.
    ///
    /// # Errors
    /// Fails when every port from the start up is taken.
    fn next_free(&self) -> (r: Result<u16, RegistryError>)
        ensures
            match r {
                Ok(p) => lowest_free(self.contents(), p),
                Err(e) => !has_free_port(self.contents()) && (e matches RegistryError::Exhausted {
                    start,
                } && start == start_of(self.contents())),
            },
    {
        tree_next_free(&self.tree())
    }

    /// Return the port for `(dir, name)`, allocating and recording one if
    /// this is the first request. The bool is `true` when a new port was
    /// registered by this call.
    ///
    /// # Errors
    /// Fails on an invalid name or when every port from `start` up is taken.
    pub fn assign(&mut self, dir: &str, name: &str) -> (r: Result<(u16, bool), RegistryError>)
        ensures
            registry_valid(final(self).contents()),
            final(self).file() == old(self).file(),
            !name_ok(name@) ==> (r matches Err(RegistryError::InvalidName(n)) && n@ == name@),
            name_ok(name@) && lookup_of(old(self).contents(), dir@, name@) is Some ==> r == Ok::<
                (u16, bool),
                RegistryError,
            >((lookup_of(old(self).contents(), dir@, name@)->0, false)),
            name_ok(name@) && lookup_of(old(self).contents(), dir@, name@) is None && !has_free_port(
                old(self).contents(),
            ) ==> (r matches Err(RegistryError::Exhausted { start }) && start == start_of(
                old(self).contents(),
            )),
            name_ok(name@) && lookup_of(old(self).contents(), dir@, name@) is None && has_free_port(
                old(self).contents(),
            ) ==> (r matches Ok((p, true)) && lowest_free(old(self).contents(), p)
                && final(self).contents() == with_port(old(self).contents(), dir@, name@, p)
                && final(self).changed()),
            !(r matches Ok((_, true))) ==> final(self).contents() == old(self).contents()
                && final(self).changed() == old(self).changed(),
    {
        proof {
            use_type_invariant(&*self);
        }
        if let Err(e) = validate_name(name) {
            return Err(e);
        }
        if let Some(port) = self.lookup(dir, name) {
            return Ok((port, false));
        }
        let port = match self.next_free() {
            Ok(p) => p,
            Err(e) => {
                return Err(e);
            },
        };
        proof {
            lemma_add_port(self.contents(), dir@, name@, port);
        }
        add_port(&mut self.doc, "ports", dir, name, port);
        self.dirty = true;
        Ok((port, true))
    }

    /// Remove `(dir, name)`, or every name under `dir` when `name` is `None`.
    /// Returns what was removed, ordered by port.
    ///
    /// # Errors
    /// Fails when nothing matches.
    pub fn remove(&mut self, dir: &str, name: Option<&str>) -> (r: Result<
        Vec<Assignment>,
        RegistryError,
    >)
        ensures
            registry_valid(final(self).contents()),
            final(self).file() == old(self).file(),
            r is Ok <==> exists|i: int|
                0 <= i < rows_of(old(self).contents()).len() && (matching(dir@, text_of(name)))(
                    #[trigger] rows_of(old(self).contents())[i],
                ),
            match r {
                Ok(removed) => listing(
                    rows_of(old(self).contents()).filter(matching(dir@, text_of(name))),
                    slots(removed@),
                ) && final(self).contents() == removal(old(self).contents(), dir@, text_of(name))
                    && final(self).changed(),
                Err(e) => (e matches RegistryError::NotRegistered { dir: d, name: n } && d@ == dir@
                    && n@ == (match name {
                    Some(n) => n@,
                    None => "*"@,
                })) && final(self).contents() == old(self).contents() && final(self).changed()
                    == old(self).changed(),
            },
    {
        proof {
            use_type_invariant(&*self);
        }
        let ghost t = self.contents();
        let ghost m = matching(dir@, text_of(name));
        let before = self.assignments();
        let mut removed: Vec<Assignment> = Vec::new();
        let mut i: usize = 0;
        proof {
            reveal(Seq::filter);
        }
        assert(slots(before@).take(0) =~= Seq::<Slot>::empty());
        while i < before.len()
            invariant
                i <= before.len(),
                m == matching(dir@, text_of(name)),
                slots(removed@) == slots(before@).take(i as int).filter(m),
            decreases before.len() - i,
        {
            let a = &before[i];
            let hit = same_text(a.dir.as_str(), dir) && match name {
                None => true,
                Some(n) => same_text(n, a.name.as_str()),
            };
            let ghost prev = slots(removed@);
            proof {
                reveal(Seq::filter);
                assert(slots(before@).take(i + 1).drop_last() =~= slots(before@).take(i as int));
                assert(slots(before@).take(i + 1).last() == a@);
            }
            if hit {
                removed.push(Assignment { dir: a.dir.clone(), name: a.name.clone(), port: a.port });
                assert(slots(removed@) =~= prev.push(a@));
            }
            i += 1;
        }
        assert(slots(before@).take(before.len() as int) =~= slots(before@));
        proof {
            lemma_listing_filter(rows_of(t), slots(before@), m);
            lemma_filter_nonempty(rows_of(t), m);
        }
        if removed.len() == 0 {
            proof {
                if rows_of(t).filter(m).len() > 0 {
                    assert(slots(removed@).contains(rows_of(t).filter(m)[0]));
                }
            }
            let shown = match name {
                Some(n) => n.to_owned(),
                None => "*".to_owned(),
            };
            return Err(RegistryError::NotRegistered { dir: dir.to_owned(), name: shown });
        }
        let ghost witness = slots(removed@)[0];
        assert(rows_of(t).filter(m).contains(witness));
        proof {
            rows_of(t).lemma_filter_contains_rev(m, witness);
            rows_of(t).filter(m).lemma_filter_pred(m, 0);
            lemma_removal(t, dir@, text_of(name), witness);
            crate::edits::lemma_dir_entry(t, witness);
        }
        match name {
            None => {
                remove_dir(&mut self.doc, "ports", dir);
            },
            Some(n) => {
                proof {
                    lemma_remove_name(t, dir@, n@);
                }
                remove_name(&mut self.doc, "ports", dir, n);
                let ghost t1 = without_name(t, dir@, n@);
                let t1_tree = document_tree(&self.doc);
                let empty = match child_node(&t1_tree, "ports") {
                    Some(ports) => match child_node(ports, dir) {
                        Some(Node::Table(names)) => names.len() == 0,
                        _ => false,
                    },
                    None => false,
                };
                if empty {
                    remove_dir(&mut self.doc, "ports", dir);
                }
            },
        }
        self.dirty = true;
        Ok(removed)
    }

    /// The document as TOML text, comments and layout kept.
    pub fn to_toml(&self) -> (r: String)
        ensures
            r@ == self.text(),
    {
        render_document(&self.doc)
    }
}

/// The text of an optional string.
pub open spec fn text_of(o: Option<&str>) -> Option<Seq<char>> {
    match o {
        Some(s) => Some(s@),
        None => None,
    }
}

/// `base` joined with the relative component `part`.
fn join(base: &str, part: &str) -> (r: String)
    ensures
        r@ == join_path(base@, part@),
{
    let mut out = base.to_owned();
    let n = base.unicode_len();
    if n > 0 && base.get_char(n - 1) != '/' {
        proof {
            reveal_strlit("/");
        }
        out.append("/");
    }
    out.append(part);
    out
}

/// Check that `name` uses letters, digits, `-` and `_` only.
///
/// # Errors
/// Fails with [`RegistryError::InvalidName`] otherwise.
pub fn validate_name(name: &str) -> (r: Result<(), RegistryError>)
    ensures
        match r {
            Ok(_) => name_ok(name@),
            Err(e) => !name_ok(name@) && (e matches RegistryError::InvalidName(n) && n@ == name@),
        },
{
    let n = name.unicode_len();
    let mut ok = n > 0;
    let mut i: usize = 0;
    while i < n
        invariant
            n == name@.len(),
            i <= n,
            ok == (n > 0 && forall|j: int| 0 <= j < i ==> name_char_ok(#[trigger] name@[j])),
        decreases n - i,
    {
        let c = name.get_char(i);
        let good = ('a' <= c && c <= 'z') || ('A' <= c && c <= 'Z') || ('0' <= c && c <= '9')
            || c == '-' || c == '_';
        if !good {
            ok = false;
        }
        i += 1;
    }
    if ok {
        Ok(())
    } else {
        Err(RegistryError::InvalidName(name.to_owned()))
    }
}

} // verus!
