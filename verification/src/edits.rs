//! What recording and removing assignments do to a registry document:
//! well-formedness is kept, and the recorded assignments change exactly as
//! asked.

use vstd::prelude::*;

use crate::document::{
    can_add_port, empty_table, ports_entries, ports_key, with_port, without_dir, without_name,
};
use crate::model::{
    dir_rows, entry_rows, has_port, listing, lookup_of, name_rows, port_used, port_value, ports_distinct,
    ports_ok, registry_valid, rows_of, settings_key, settings_ok, shapes_ok, valid_port,
    Slot,
};
use crate::tree::{
    child, distinct_keys, drop_key, entries_of, entries_unique, find, has_key, keys_unique,
    lemma_drop_key, lemma_drop_key_entries, lemma_entries_unique, lemma_find, lemma_find_some,
    lemma_find_unique, lemma_put, lemma_put_absent, lemma_put_unique, put, put_absent, Entries,
    TomlItem,
};

verus! {

broadcast use vstd::seq_lib::group_filter_ensures;

/// The assignments of consecutive `ports` entries add up.
pub proof fn lemma_dir_rows_add(a: Entries, b: Entries)
    ensures
        dir_rows(a + b) == dir_rows(a) + dir_rows(b),
    decreases b.len(),
{
    if b.len() == 0 {
        assert(a + b =~= a);
        assert(dir_rows(a) + dir_rows(b) =~= dir_rows(a));
    } else {
        lemma_dir_rows_add(a, b.drop_last());
        assert((a + b).drop_last() =~= a + b.drop_last());
        assert((a + b).last() == b.last());
        assert(dir_rows(a) + dir_rows(b) =~= dir_rows(a) + dir_rows(b.drop_last()) + entry_rows(
            b.last(),
        ));
    }
}

/// The assignments of a single entry.
pub proof fn lemma_dir_rows_one(x: (Seq<char>, TomlItem))
    ensures
        dir_rows(seq![x]) == entry_rows(x),
{
    assert(seq![x].drop_last() =~= Seq::<(Seq<char>, TomlItem)>::empty());
    assert(dir_rows(Seq::<(Seq<char>, TomlItem)>::empty()) + entry_rows(x) =~= entry_rows(x));
}

/// Every assignment of a directory's table carries that directory.
pub proof fn lemma_name_rows_dir(dir: Seq<char>, ne: Entries)
    ensures
        forall|i: int| 0 <= i < name_rows(dir, ne).len() ==> (#[trigger] name_rows(dir, ne)[i]).dir
            == dir,
    decreases ne.len(),
{
    if ne.len() > 0 {
        lemma_name_rows_dir(dir, ne.drop_last());
        let r = name_rows(dir, ne.drop_last());
        assert forall|i: int| 0 <= i < name_rows(dir, ne).len() implies (#[trigger] name_rows(
            dir,
            ne,
        )[i]).dir == dir by {
            if i < r.len() {
                assert(name_rows(dir, ne)[i] == r[i]);
            }
        }
    }
}

pub proof fn lemma_entry_rows_dir(x: (Seq<char>, TomlItem))
    ensures
        forall|i: int| 0 <= i < entry_rows(x).len() ==> (#[trigger] entry_rows(x)[i]).dir == x.0,
{
    if let TomlItem::Table(ne) = x.1 {
        lemma_name_rows_dir(x.0, ne);
    }
}

/// An entry sits between the entries before and after it.
pub proof fn lemma_split(pe: Entries, k: int)
    requires
        0 <= k < pe.len(),
    ensures
        pe == pe.take(k) + seq![pe[k]] + pe.skip(k + 1),
        dir_rows(pe) == dir_rows(pe.take(k)) + entry_rows(pe[k]) + dir_rows(pe.skip(k + 1)),
{
    assert(pe =~= pe.take(k) + seq![pe[k]] + pe.skip(k + 1));
    lemma_dir_rows_add(pe.take(k) + seq![pe[k]], pe.skip(k + 1));
    lemma_dir_rows_add(pe.take(k), seq![pe[k]]);
    lemma_dir_rows_one(pe[k]);
}

/// With distinct keys, `put` on a present key replaces that entry.
pub proof fn lemma_put_at(e: Entries, k: int, key: Seq<char>, v: TomlItem)
    requires
        distinct_keys(e),
        0 <= k < e.len(),
        e[k].0 == key,
    ensures
        put(e, key, v) == e.update(k, (key, v)),
{
    assert(has_key(e, key));
    assert(put(e, key, v) =~= e.update(k, (key, v)));
}

/// Keeping the slots that pass `pred` keeps distinct ports distinct.
pub proof fn lemma_filter_distinct(rows: Seq<Slot>, pred: spec_fn(Slot) -> bool)
    requires
        ports_distinct(rows),
    ensures
        ports_distinct(rows.filter(pred)),
    decreases rows.len(),
{
    reveal(Seq::filter);
    if rows.len() > 0 {
        let d = rows.drop_last();
        assert forall|i: int, j: int| 0 <= i < j < d.len() implies d[i].port != d[j].port by {
            assert(d[i] == rows[i] && d[j] == rows[j]);
        }
        lemma_filter_distinct(d, pred);
        if pred(rows.last()) {
            let f = d.filter(pred);
            if has_port(f, rows.last().port) {
                let i = choose|i: int| 0 <= i < f.len() && #[trigger] f[i].port == rows.last().port;
                assert(f.contains(f[i]));
                d.lemma_filter_contains_rev(pred, f[i]);
                let j = choose|j: int| 0 <= j < d.len() && d[j] == f[i];
                assert(rows[j] == d[j]);
                assert(rows[rows.len() - 1] == rows.last());
            }
            crate::model::lemma_distinct_push(f, rows.last());
        }
    }
}

/// A filter that keeps everything, or nothing.
pub proof fn lemma_filter_all(s: Seq<Slot>, pred: spec_fn(Slot) -> bool)
    ensures
        (forall|i: int| 0 <= i < s.len() ==> pred(#[trigger] s[i])) ==> s.filter(pred) == s,
        (forall|i: int| 0 <= i < s.len() ==> !pred(#[trigger] s[i])) ==> s.filter(pred) == Seq::<
            Slot,
        >::empty(),
    decreases s.len(),
{
    reveal(Seq::filter);
    if s.len() > 0 {
        let d = s.drop_last();
        lemma_filter_all(d, pred);
        if forall|i: int| 0 <= i < s.len() ==> pred(#[trigger] s[i]) {
            assert forall|i: int| 0 <= i < d.len() implies pred(#[trigger] d[i]) by {
                assert(d[i] == s[i]);
            }
            assert(pred(s[s.len() - 1]));
            assert(d.push(s.last()) =~= s);
        }
        if forall|i: int| 0 <= i < s.len() ==> !pred(#[trigger] s[i]) {
            assert forall|i: int| 0 <= i < d.len() implies !pred(#[trigger] d[i]) by {
                assert(d[i] == s[i]);
            }
            assert(!pred(s[s.len() - 1]));
        }
    }
}

/// A slot added among distinct ports keeps them distinct when its port is
/// new, and the slots are the old ones and the new one.
pub proof fn lemma_insert_slot(a: Seq<Slot>, b: Seq<Slot>, c: Seq<Slot>, s: Slot)
    requires
        ports_distinct(a + b + c),
        !has_port(a + b + c, s.port),
    ensures
        ports_distinct(a + b.push(s) + c),
        forall|x: Slot| (a + b.push(s) + c).contains(x) <==> ((a + b + c).contains(x) || x == s),
{
    let old_rows = a + b + c;
    let new_rows = a + b.push(s) + c;
    let m: int = (a.len() + b.len()) as int;
    assert(new_rows.len() == old_rows.len() + 1);
    assert forall|i: int| 0 <= i < m implies #[trigger] new_rows[i] == old_rows[i] by {
        if i < a.len() {
        } else {
            assert(new_rows[i] == b.push(s)[i - a.len()]);
        }
    }
    assert(new_rows[m] == s);
    assert forall|i: int| m < i < new_rows.len() implies #[trigger] new_rows[i] == old_rows[i - 1] by {
        assert(new_rows[i] == c[i - m - 1]);
        assert(old_rows[i - 1] == c[i - 1 - m]);
    }
    assert forall|i: int, j: int| 0 <= i < j < new_rows.len() implies new_rows[i].port
        != new_rows[j].port by {
        if i == m {
            assert(new_rows[j] == old_rows[j - 1]);
            assert(old_rows[j - 1].port != s.port);
        } else if j == m {
            assert(new_rows[i] == old_rows[i]);
            assert(old_rows[i].port != s.port);
        } else {
            let oi = if i < m { i } else { i - 1 };
            let oj = if j < m { j } else { j - 1 };
            assert(new_rows[i] == old_rows[oi]);
            assert(new_rows[j] == old_rows[oj]);
        }
    }
    assert forall|x: Slot| new_rows.contains(x) <==> (old_rows.contains(x) || x == s) by {
        if new_rows.contains(x) {
            let i = choose|i: int| 0 <= i < new_rows.len() && new_rows[i] == x;
            if i < m {
                assert(old_rows[i] == x);
            } else if i > m {
                assert(old_rows[i - 1] == x);
            }
        }
        if old_rows.contains(x) {
            let i = choose|i: int| 0 <= i < old_rows.len() && old_rows[i] == x;
            if i < m {
                assert(new_rows[i] == x);
            } else {
                assert(new_rows[i + 1] == x);
            }
        }
        if x == s {
            assert(new_rows[m] == x);
        }
    }
}


/// The keys the registry reads are different words.
pub proof fn lemma_keys_differ()
    ensures
        settings_key() != ports_key(),
{
    reveal_strlit("settings");
    reveal_strlit("ports");
    assert(settings_key()[0] != ports_key()[0]);
}

pub proof fn lemma_empty_table()
    ensures
        keys_unique(empty_table()),
        entries_of(empty_table()).len() == 0,
{
    assert(entries_unique(Seq::<(Seq<char>, TomlItem)>::empty()));
}

/// What a well-formed registry says of its `ports` entries.
pub proof fn lemma_valid_ports(t: TomlItem)
    requires
        registry_valid(t),
    ensures
        t is Table,
        distinct_keys(entries_of(t)),
        entries_unique(entries_of(t)),
        child(t, ports_key()) is None || child(t, ports_key()) == Some(
            TomlItem::Table(ports_entries(t)),
        ),
        child(t, ports_key()) is None ==> ports_entries(t).len() == 0,
        distinct_keys(ports_entries(t)),
        entries_unique(ports_entries(t)),
        shapes_ok(ports_entries(t)),
        ports_distinct(dir_rows(ports_entries(t))),
        rows_of(t) == dir_rows(ports_entries(t)),
{
    let root = entries_of(t);
    assert(keys_unique(t));
    if let Some(v) = child(t, ports_key()) {
        lemma_find_some(root, ports_key());
        lemma_entries_unique(root);
        let i = choose|i: int| 0 <= i < root.len() && root[i].0 == ports_key() && root[i].1 == v;
        assert(keys_unique(root[i].1));
    }
    assert(entries_unique(Seq::<(Seq<char>, TomlItem)>::empty()));
}

/// The table of one `ports` entry of a well-formed registry.
pub proof fn lemma_valid_entry(pe: Entries, k: int)
    requires
        entries_unique(pe),
        shapes_ok(pe),
        0 <= k < pe.len(),
    ensures
        pe[k].1 is Table,
        distinct_keys(entries_of(pe[k].1)),
        entries_unique(entries_of(pe[k].1)),
        forall|j: int|
            0 <= j < entries_of(pe[k].1).len() ==> valid_port(#[trigger] entries_of(pe[k].1)[j].1),
{
    lemma_entries_unique(pe);
    assert(keys_unique(pe[k].1));
}

/// Recording a new assignment on a free port keeps the registry well formed
/// and adds exactly that assignment.
pub proof fn lemma_add_port(t: TomlItem, dir: Seq<char>, name: Seq<char>, p: u16)
    requires
        registry_valid(t),
        lookup_of(t, dir, name) is None,
        !port_used(t, p),
        1 <= p,
    ensures
        can_add_port(t, dir),
        registry_valid(with_port(t, dir, name, p)),
        child(with_port(t, dir, name, p), settings_key()) == child(t, settings_key()),
        lookup_of(with_port(t, dir, name, p), dir, name) == Some(p),
        forall|x: Slot|
            rows_of(with_port(t, dir, name, p)).contains(x) <==> (rows_of(t).contains(x) || x
                == Slot { dir, name, port: p }),
{
    lemma_keys_differ();
    lemma_valid_ports(t);
    lemma_empty_table();
    let root = entries_of(t);
    let pk = ports_key();
    let root1 = put_absent(root, pk, empty_table());
    lemma_put_absent(root, pk, empty_table(), pk);
    lemma_put_absent(root, pk, empty_table(), settings_key());
    lemma_put_unique(root, pk, empty_table());
    lemma_find(root, pk);
    let pe = entries_of(find(root1, pk)->0);
    assert(pe == ports_entries(t));
    assert(find(root1, pk) == Some(TomlItem::Table(pe)));
    // the directory's entry
    let pe1 = put_absent(pe, dir, empty_table());
    lemma_put_absent(pe, dir, empty_table(), dir);
    lemma_put_unique(pe, dir, empty_table());
    lemma_find(pe, dir);
    let k: int = if has_key(pe, dir) {
        crate::tree::choose_first(pe, dir)
    } else {
        pe.len() as int
    };
    if !has_key(pe, dir) {
        assert(pe1 == pe.push((dir, empty_table())));
        assert(pe1[k] == (dir, empty_table()));
        assert(pe1.drop_last() =~= pe);
        assert(dir_rows(pe1) =~= dir_rows(pe));
        assert forall|i: int| 0 <= i < pe1.len() implies {
            &&& (#[trigger] pe1[i]).1 is Table
            &&& forall|j: int|
                0 <= j < entries_of(pe1[i].1).len() ==> valid_port(
                    #[trigger] entries_of(pe1[i].1)[j].1,
                )
        } by {
            if i < pe.len() {
                assert(pe1[i] == pe[i]);
            }
        }
    } else {
        assert(pe1 == pe);
        lemma_find_unique(pe, k);
    }
    assert(pe1[k].0 == dir);
    lemma_find_unique(pe1, k);
    lemma_valid_entry(pe1, k);
    let ne = entries_of(find(pe1, dir)->0);
    assert(ne == entries_of(pe1[k].1));
    // the name is not there yet
    lemma_find(ne, name);
    if has_key(ne, name) {
        let j = crate::tree::choose_first(ne, name);
        assert(valid_port(ne[j].1));
        assert(find(ne, name) == Some(ne[j].1));
        assert(child(t, pk) == Some(TomlItem::Table(pe)));
        assert(find(pe, dir) == Some(pe1[k].1));
        assert(lookup_of(t, dir, name) == port_value(ne[j].1));
        assert(false);
    }
    let slot = Slot { dir, name, port: p };
    let names = put(ne, name, TomlItem::Integer(p as i64));
    assert(names == ne.push((name, TomlItem::Integer(p as i64))));
    lemma_put(ne, name, TomlItem::Integer(p as i64), name);
    lemma_put_unique(ne, name, TomlItem::Integer(p as i64));
    let newv = TomlItem::Table(names);
    assert(keys_unique(newv));
    let pe2 = put(pe1, dir, newv);
    lemma_put_at(pe1, k, dir, newv);
    lemma_put(pe1, dir, newv, dir);
    lemma_put_unique(pe1, dir, newv);
    // the assignments: one more, in the directory's place
    lemma_split(pe1, k);
    lemma_split(pe2, k);
    assert(pe2.take(k) =~= pe1.take(k));
    assert(pe2.skip(k + 1) =~= pe1.skip(k + 1));
    assert(names.drop_last() =~= ne);
    assert(entry_rows(pe2[k]) == entry_rows(pe1[k]).push(slot));
    let a = dir_rows(pe1.take(k));
    let c = dir_rows(pe1.skip(k + 1));
    assert(rows_of(t) == a + entry_rows(pe1[k]) + c);
    lemma_insert_slot(a, entry_rows(pe1[k]), c, slot);
    assert forall|i: int| 0 <= i < pe2.len() implies {
        &&& (#[trigger] pe2[i]).1 is Table
        &&& forall|j: int|
            0 <= j < entries_of(pe2[i].1).len() ==> valid_port(#[trigger] entries_of(pe2[i].1)[j].1)
    } by {
        if i != k {
            assert(pe2[i] == pe1[i]);
        } else {
            assert forall|j: int| 0 <= j < names.len() implies valid_port(#[trigger] names[j].1) by {
                if j < ne.len() {
                    assert(names[j] == ne[j]);
                }
            }
        }
    }
    // the root
    let root2 = put(root1, pk, TomlItem::Table(pe2));
    lemma_put(root1, pk, TomlItem::Table(pe2), pk);
    lemma_put(root1, pk, TomlItem::Table(pe2), settings_key());
    lemma_put_unique(root1, pk, TomlItem::Table(pe2));
    let t2 = with_port(t, dir, name, p);
    assert(t2 == TomlItem::Table(root2));
    assert(child(t2, pk) == Some(TomlItem::Table(pe2)));
    assert(ports_entries(t2) == pe2);
    assert(rows_of(t2) == a + entry_rows(pe1[k]).push(slot) + c);
    assert(keys_unique(t2));
    assert(settings_ok(t2));
    assert(ports_ok(t2));
    assert(child(TomlItem::Table(pe2), dir) == Some(newv));
    assert(child(newv, name) == Some(TomlItem::Integer(p as i64)));
}


/// The assignments that a removal request names: those of `dir`, and of
/// `name` there when one is given.
pub open spec fn matching(dir: Seq<char>, name: Option<Seq<char>>) -> spec_fn(Slot) -> bool {
    |s: Slot| s.dir == dir && (name is None || s.name == name->0)
}

/// The assignments that a removal request leaves.
pub open spec fn keeping(dir: Seq<char>, name: Option<Seq<char>>) -> spec_fn(Slot) -> bool {
    |s: Slot| !(s.dir == dir && (name is None || s.name == name->0))
}

/// The contents after a removal request: the whole directory when no name
/// is given; else the name, and the directory too when that leaves its
/// table empty.
pub open spec fn removal(t: TomlItem, dir: Seq<char>, name: Option<Seq<char>>) -> TomlItem {
    match name {
        None => without_dir(t, dir),
        Some(n) => {
            let t1 = without_name(t, dir, n);
            if entries_of(find(ports_entries(t1), dir)->0).len() == 0 {
                without_dir(t1, dir)
            } else {
                t1
            }
        },
    }
}

/// Every assignment comes from a table entry whose key is its directory.
pub proof fn lemma_dir_rows_source(pe: Entries)
    ensures
        forall|i: int|
            0 <= i < dir_rows(pe).len() ==> exists|j: int|
                0 <= j < pe.len() && pe[j].0 == (#[trigger] dir_rows(pe)[i]).dir && pe[j].1 is Table,
    decreases pe.len(),
{
    if pe.len() > 0 {
        let d = pe.drop_last();
        let x = pe.last();
        lemma_dir_rows_source(d);
        lemma_entry_rows_dir(x);
        assert forall|i: int| 0 <= i < dir_rows(pe).len() implies exists|j: int|
            0 <= j < pe.len() && pe[j].0 == (#[trigger] dir_rows(pe)[i]).dir && pe[j].1 is Table by {
            if i < dir_rows(d).len() {
                assert(dir_rows(pe)[i] == dir_rows(d)[i]);
                let j = choose|j: int|
                    0 <= j < d.len() && d[j].0 == (dir_rows(d)[i]).dir && d[j].1 is Table;
                assert(pe[j] == d[j]);
            } else {
                assert(dir_rows(pe)[i] == entry_rows(x)[i - dir_rows(d).len()]);
                assert(pe[pe.len() - 1] == x);
                assert(x.1 is Table);
            }
        }
    }
}

/// Removing a directory's entry removes exactly its assignments.
pub proof fn lemma_drop_dir_rows(pe: Entries, dir: Seq<char>)
    ensures
        dir_rows(drop_key(pe, dir)) == dir_rows(pe).filter(keeping(dir, None)),
    decreases pe.len(),
{
    reveal(Seq::filter);
    if pe.len() > 0 {
        let d = pe.drop_last();
        let x = pe.last();
        lemma_drop_dir_rows(d, dir);
        lemma_entry_rows_dir(x);
        lemma_filter_all(entry_rows(x), keeping(dir, None));
        Seq::filter_distributes_over_add(dir_rows(d), entry_rows(x), keeping(dir, None));
        if x.0 != dir {
            let r = drop_key(d, dir);
            assert(r.push(x).drop_last() =~= r);
        } else {
            assert(dir_rows(d).filter(keeping(dir, None)) + Seq::<Slot>::empty() =~= dir_rows(
                d,
            ).filter(keeping(dir, None)));
        }
    }
}

/// Removing a name from a directory's table removes exactly its assignment.
pub proof fn lemma_drop_name_rows(dir: Seq<char>, ne: Entries, name: Seq<char>)
    ensures
        name_rows(dir, drop_key(ne, name)) == name_rows(dir, ne).filter(keeping(dir, Some(name))),
    decreases ne.len(),
{
    reveal(Seq::filter);
    if ne.len() > 0 {
        let d = ne.drop_last();
        let x = ne.last();
        lemma_drop_name_rows(dir, d, name);
        let r = drop_key(d, name);
        let rows_d = name_rows(dir, d);
        if let Some(p) = port_value(x.1) {
            let sl = Slot { dir, name: x.0, port: p };
            assert(rows_d.push(sl).drop_last() =~= rows_d);
            assert(rows_d.push(sl).last() == sl);
        }
        if x.0 != name {
            assert(r.push(x).drop_last() =~= r);
            assert(r.push(x).last() == x);
            if let Some(p) = port_value(x.1) {
                let sl = Slot { dir, name: x.0, port: p };
                let rr = name_rows(dir, r);
                assert(rr.push(sl).drop_last() =~= rr);
            }
        }
    }
}

/// What a well-formed registry's `ports` table says of a directory entry
/// that an assignment came from.
pub proof fn lemma_dir_entry(t: TomlItem, s: Slot)
    requires
        registry_valid(t),
        rows_of(t).contains(s),
    ensures
        child(t, ports_key()) == Some(TomlItem::Table(ports_entries(t))),
        find(ports_entries(t), s.dir) matches Some(TomlItem::Table(_)),
{
    lemma_valid_ports(t);
    let pe = ports_entries(t);
    lemma_dir_rows_source(pe);
    let i = choose|i: int| 0 <= i < rows_of(t).len() && rows_of(t)[i] == s;
    let j = choose|j: int| 0 <= j < pe.len() && pe[j].0 == (dir_rows(pe)[i]).dir && pe[j].1 is Table;
    lemma_find_unique(pe, j);
}

/// Removing a directory keeps the registry well formed and removes exactly
/// that directory's assignments.
pub proof fn lemma_remove_dir(t: TomlItem, dir: Seq<char>)
    requires
        registry_valid(t),
        child(t, ports_key()) matches Some(TomlItem::Table(_)),
    ensures
        registry_valid(without_dir(t, dir)),
        child(without_dir(t, dir), settings_key()) == child(t, settings_key()),
        rows_of(without_dir(t, dir)) == rows_of(t).filter(keeping(dir, None)),
        forall|d: Seq<char>| d != dir ==> find(ports_entries(without_dir(t, dir)), d) == find(ports_entries(t), d),
        find(ports_entries(without_dir(t, dir)), dir) is None,
{
    lemma_keys_differ();
    lemma_valid_ports(t);
    let root = entries_of(t);
    let pe = ports_entries(t);
    let pe2 = drop_key(pe, dir);
    lemma_drop_key_entries(pe, dir);
    lemma_drop_dir_rows(pe, dir);
    lemma_filter_distinct(dir_rows(pe), keeping(dir, None));
    assert forall|i: int| 0 <= i < pe2.len() implies {
        &&& (#[trigger] pe2[i]).1 is Table
        &&& forall|j: int|
            0 <= j < entries_of(pe2[i].1).len() ==> valid_port(#[trigger] entries_of(pe2[i].1)[j].1)
    } by {
        let w = choose|w: int| 0 <= w < pe.len() && #[trigger] pe2[i] == pe[w];
        assert(pe[w] == pe2[i]);
    }
    assert(keys_unique(TomlItem::Table(pe2)));
    let t2 = without_dir(t, dir);
    lemma_put(root, ports_key(), TomlItem::Table(pe2), ports_key());
    lemma_put(root, ports_key(), TomlItem::Table(pe2), settings_key());
    lemma_put_unique(root, ports_key(), TomlItem::Table(pe2));
    assert(child(t2, ports_key()) == Some(TomlItem::Table(pe2)));
    assert(ports_entries(t2) == pe2);
    assert(keys_unique(t2));
    assert forall|d: Seq<char>| d != dir implies find(ports_entries(t2), d) == find(pe, d) by {
        lemma_drop_key(pe, dir, d);
    }
    lemma_drop_key(pe, dir, dir);
}

/// The entries before and after a directory's entry carry other directories.
pub proof fn lemma_other_dirs(pe: Entries, k: int)
    requires
        distinct_keys(pe),
        0 <= k < pe.len(),
    ensures
        forall|i: int|
            0 <= i < dir_rows(pe.take(k)).len() ==> (#[trigger] dir_rows(pe.take(k))[i]).dir
                != pe[k].0,
        forall|i: int|
            0 <= i < dir_rows(pe.skip(k + 1)).len() ==> (#[trigger] dir_rows(pe.skip(k + 1))[i]).dir
                != pe[k].0,
{
    let tk = pe.take(k);
    let sk = pe.skip(k + 1);
    lemma_dir_rows_source(tk);
    lemma_dir_rows_source(sk);
    assert forall|i: int| 0 <= i < dir_rows(tk).len() implies (#[trigger] dir_rows(tk)[i]).dir
        != pe[k].0 by {
        let j = choose|j: int| 0 <= j < tk.len() && tk[j].0 == (dir_rows(tk)[i]).dir && tk[j].1 is Table;
        assert(tk[j] == pe[j]);
    }
    assert forall|i: int| 0 <= i < dir_rows(sk).len() implies (#[trigger] dir_rows(sk)[i]).dir
        != pe[k].0 by {
        let j = choose|j: int| 0 <= j < sk.len() && sk[j].0 == (dir_rows(sk)[i]).dir && sk[j].1 is Table;
        assert(sk[j] == pe[j + k + 1]);
    }
}

/// Removing a name keeps the registry well formed and removes exactly that
/// assignment.
pub proof fn lemma_remove_name(t: TomlItem, dir: Seq<char>, name: Seq<char>)
    requires
        registry_valid(t),
        child(t, ports_key()) matches Some(TomlItem::Table(_)),
        find(ports_entries(t), dir) matches Some(TomlItem::Table(_)),
    ensures
        registry_valid(without_name(t, dir, name)),
        child(without_name(t, dir, name), settings_key()) == child(t, settings_key()),
        child(without_name(t, dir, name), ports_key()) matches Some(TomlItem::Table(_)),
        rows_of(without_name(t, dir, name)) == rows_of(t).filter(keeping(dir, Some(name))),
        entries_of(find(ports_entries(without_name(t, dir, name)), dir)->0).len() == 0 ==> forall|i: int|
            0 <= i < rows_of(without_name(t, dir, name)).len() ==> (#[trigger] rows_of(
                without_name(t, dir, name),
            )[i]).dir != dir,
        forall|d: Seq<char>| d != dir ==> find(ports_entries(without_name(t, dir, name)), d) == find(ports_entries(t), d),
        find(ports_entries(without_name(t, dir, name)), dir) == Some(TomlItem::Table(drop_key(entries_of(find(ports_entries(t), dir)->0), name))),
{
    lemma_keys_differ();
    lemma_valid_ports(t);
    let root = entries_of(t);
    let pe = ports_entries(t);
    lemma_find_some(pe, dir);
    let k = choose|k: int| 0 <= k < pe.len() && pe[k].0 == dir && pe[k].1 == find(pe, dir)->0;
    lemma_valid_entry(pe, k);
    let ne = entries_of(pe[k].1);
    let ne2 = drop_key(ne, name);
    lemma_drop_key_entries(ne, name);
    let newv = TomlItem::Table(ne2);
    assert(keys_unique(newv));
    let pe2 = put(pe, dir, newv);
    lemma_put_at(pe, k, dir, newv);
    lemma_put(pe, dir, newv, dir);
    lemma_put_unique(pe, dir, newv);
    // assignments
    lemma_split(pe, k);
    lemma_split(pe2, k);
    assert(pe2.take(k) =~= pe.take(k));
    assert(pe2.skip(k + 1) =~= pe.skip(k + 1));
    let tk = pe.take(k);
    let sk = pe.skip(k + 1);
    let a = dir_rows(tk);
    let c = dir_rows(sk);
    let b = entry_rows(pe[k]);
    lemma_drop_name_rows(dir, ne, name);
    assert(entry_rows(pe2[k]) == b.filter(keeping(dir, Some(name))));
    // the other directories keep their assignments
    lemma_other_dirs(pe, k);
    assert forall|i: int| 0 <= i < a.len() implies (keeping(dir, Some(name)))(#[trigger] a[i]) by {}
    assert forall|i: int| 0 <= i < c.len() implies (keeping(dir, Some(name)))(#[trigger] c[i]) by {}
    lemma_filter_all(a, keeping(dir, Some(name)));
    lemma_filter_all(c, keeping(dir, Some(name)));
    Seq::filter_distributes_over_add(a + b, c, keeping(dir, Some(name)));
    Seq::filter_distributes_over_add(a, b, keeping(dir, Some(name)));
    assert(dir_rows(pe2) == dir_rows(pe).filter(keeping(dir, Some(name))));
    lemma_filter_distinct(dir_rows(pe), keeping(dir, Some(name)));
    assert forall|i: int| 0 <= i < pe2.len() implies {
        &&& (#[trigger] pe2[i]).1 is Table
        &&& forall|j: int|
            0 <= j < entries_of(pe2[i].1).len() ==> valid_port(#[trigger] entries_of(pe2[i].1)[j].1)
    } by {
        if i != k {
            assert(pe2[i] == pe[i]);
        } else {
            assert forall|j: int| 0 <= j < ne2.len() implies valid_port(#[trigger] ne2[j].1) by {
                let w = choose|w: int| 0 <= w < ne.len() && #[trigger] ne2[j] == ne[w];
                assert(ne[w] == ne2[j]);
            }
        }
    }
    // the root
    let t2 = without_name(t, dir, name);
    lemma_put(root, ports_key(), TomlItem::Table(pe2), ports_key());
    lemma_put(root, ports_key(), TomlItem::Table(pe2), settings_key());
    lemma_put_unique(root, ports_key(), TomlItem::Table(pe2));
    assert(child(t2, ports_key()) == Some(TomlItem::Table(pe2)));
    assert(ports_entries(t2) == pe2);
    assert(keys_unique(t2));
    assert forall|d: Seq<char>| d != dir implies find(ports_entries(t2), d) == find(pe, d) by {
        lemma_put(pe, dir, newv, d);
    }
    if ne2.len() == 0 {
        assert(entry_rows(pe2[k]) =~= Seq::<Slot>::empty());
        assert(dir_rows(pe2) =~= a + c);
        assert forall|i: int| 0 <= i < dir_rows(pe2).len() implies (#[trigger] dir_rows(pe2)[i]).dir
            != dir by {
            if i >= a.len() {
                assert(dir_rows(pe2)[i] == c[i - a.len()]);
            }
        }
    }
}

/// A removal request that names something keeps the registry well formed
/// and removes exactly the assignments it names.
pub proof fn lemma_removal(t: TomlItem, dir: Seq<char>, name: Option<Seq<char>>, s: Slot)
    requires
        registry_valid(t),
        rows_of(t).contains(s),
        (matching(dir, name))(s),
    ensures
        registry_valid(removal(t, dir, name)),
        child(removal(t, dir, name), settings_key()) == child(t, settings_key()),
        rows_of(removal(t, dir, name)) == rows_of(t).filter(keeping(dir, name)),
{
    lemma_dir_entry(t, s);
    match name {
        None => {
            lemma_remove_dir(t, dir);
        },
        Some(n) => {
            lemma_remove_name(t, dir, n);
            let t1 = without_name(t, dir, n);
            if entries_of(find(ports_entries(t1), dir)->0).len() == 0 {
                lemma_remove_dir(t1, dir);
                let r1 = rows_of(t1);
                assert forall|i: int| 0 <= i < r1.len() implies (keeping(dir, None))(#[trigger] r1[i]) by {}
                lemma_filter_all(r1, keeping(dir, None));
            }
        },
    }
}


/// Keeping the slots that pass `pred` keeps a listing in order.
pub proof fn lemma_listing_filter(rows: Seq<Slot>, s: Seq<Slot>, pred: spec_fn(Slot) -> bool)
    requires
        listing(rows, s),
    ensures
        listing(rows.filter(pred), s.filter(pred)),
{
    lemma_sorted_filter(s, pred);
    let fr = rows.filter(pred);
    let fs = s.filter(pred);
    assert forall|i: int| 0 <= i < fs.len() implies fr.contains(#[trigger] fs[i]) by {
        assert(fs.contains(fs[i]));
        s.lemma_filter_contains_rev(pred, fs[i]);
        let j = choose|j: int| 0 <= j < s.len() && s[j] == fs[i];
        assert(rows.contains(s[j]));
        let w = choose|w: int| 0 <= w < rows.len() && rows[w] == s[j];
        rows.lemma_filter_contains(pred, w);
    }
    assert forall|i: int| 0 <= i < fr.len() implies fs.contains(#[trigger] fr[i]) by {
        assert(fr.contains(fr[i]));
        rows.lemma_filter_contains_rev(pred, fr[i]);
        let j = choose|j: int| 0 <= j < rows.len() && rows[j] == fr[i];
        assert(s.contains(rows[j]));
        let w = choose|w: int| 0 <= w < s.len() && s[w] == rows[j];
        s.lemma_filter_contains(pred, w);
    }
}

/// A filter of a list in increasing order of port is in increasing order.
pub proof fn lemma_sorted_filter(s: Seq<Slot>, pred: spec_fn(Slot) -> bool)
    requires
        forall|i: int, j: int| 0 <= i < j < s.len() ==> s[i].port < s[j].port,
    ensures
        forall|i: int, j: int|
            0 <= i < j < s.filter(pred).len() ==> s.filter(pred)[i].port < s.filter(pred)[j].port,
    decreases s.len(),
{
    reveal(Seq::filter);
    if s.len() > 0 {
        let d = s.drop_last();
        lemma_sorted_filter(d, pred);
        let f = d.filter(pred);
        if pred(s.last()) {
            let g = f.push(s.last());
            assert forall|i: int, j: int| 0 <= i < j < g.len() implies g[i].port < g[j].port by {
                if j == g.len() - 1 {
                    assert(f.contains(f[i]));
                    d.lemma_filter_contains_rev(pred, f[i]);
                    let w = choose|w: int| 0 <= w < d.len() && d[w] == f[i];
                    assert(s[w] == d[w]);
                    assert(s[s.len() - 1] == s.last());
                } else {
                    assert(g[i] == f[i] && g[j] == f[j]);
                }
            }
        }
    }
}

/// A list with an element matching `pred` has that element in its filter,
/// and a filter's elements come from the list.
pub proof fn lemma_filter_nonempty(rows: Seq<Slot>, pred: spec_fn(Slot) -> bool)
    ensures
        rows.filter(pred).len() > 0 <==> exists|i: int| 0 <= i < rows.len() && pred(#[trigger] rows[i]),
{
    if exists|i: int| 0 <= i < rows.len() && pred(#[trigger] rows[i]) {
        let i = choose|i: int| 0 <= i < rows.len() && pred(#[trigger] rows[i]);
        rows.lemma_filter_contains(pred, i);
    }
    if rows.filter(pred).len() > 0 {
        let f = rows.filter(pred);
        assert(f.contains(f[0]));
        rows.lemma_filter_contains_rev(pred, f[0]);
        let j = choose|j: int| 0 <= j < rows.len() && rows[j] == f[0];
        rows.lemma_filter_pred(pred, 0);
    }
}

} // verus!
