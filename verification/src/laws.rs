//! Properties of the registry as a whole, over the contents that
//! [`Registry::assign`](crate::registry::Registry::assign),
//! [`Registry::remove`](crate::registry::Registry::remove),
//! [`Registry::lookup`](crate::registry::Registry::lookup) and
//! [`Registry::assignments`](crate::registry::Registry::assignments) speak of.

use vstd::prelude::*;

use crate::cli::{byte_len, name_width};
use crate::document::empty_table;
use crate::model::{default_path_of, has_free_port, join_path, name_char_ok, name_ok};
use crate::registry::Assignment;
use crate::text::{decimal, digit};

use crate::document::{ports_entries, with_port};
use crate::edits::{
    keeping, lemma_add_port, lemma_entry_rows_dir, lemma_listing_filter, lemma_removal, lemma_valid_entry,
    lemma_valid_ports, matching, removal,
};
use crate::model::{
    dir_rows, entry_rows, lemma_problem_valid, listing, lookup_of, ports_distinct, lowest_free, name_rows, port_used,
    port_value, problem, registry_valid, rows_of, start_of, Slot, has_port,
    };
use crate::tree::{
    entries_of, find, keys_unique, lemma_find_some, lemma_find_unique, Entries, TomlItem,
};

verus! {

broadcast use vstd::seq_lib::group_filter_ensures;

/// A slot is among a directory's assignments exactly when the directory's
/// table holds its name with its port.
pub proof fn lemma_name_rows_member(dir: Seq<char>, ne: Entries, s: Slot)
    ensures
        name_rows(dir, ne).contains(s) <==> s.dir == dir && exists|j: int|
            0 <= j < ne.len() && ne[j].0 == s.name && port_value(#[trigger] ne[j].1) == Some(
                s.port,
            ),
    decreases ne.len(),
{
    if ne.len() > 0 {
        let d = ne.drop_last();
        let x = ne.last();
        lemma_name_rows_member(dir, d, s);
        let r = name_rows(dir, d);
        if let Some(p) = port_value(x.1) {
            let sl = Slot { dir, name: x.0, port: p };
            if r.push(sl).contains(s) {
                let i = choose|i: int| 0 <= i < r.push(sl).len() && r.push(sl)[i] == s;
                if i < r.len() {
                    assert(r[i] == s);
                } else {
                    assert(ne[ne.len() - 1] == x);
                }
            }
            if s == sl {
                assert(r.push(sl)[r.len() as int] == s);
            }
            if r.contains(s) {
                let i = choose|i: int| 0 <= i < r.len() && r[i] == s;
                assert(r.push(sl)[i] == s);
            }
        }
        if s.dir == dir && exists|j: int|
            0 <= j < ne.len() && ne[j].0 == s.name && port_value(#[trigger] ne[j].1) == Some(
                s.port,
            ) {
            let j = choose|j: int|
                0 <= j < ne.len() && ne[j].0 == s.name && port_value(#[trigger] ne[j].1) == Some(
                    s.port,
                );
            if j < d.len() {
                assert(d[j] == ne[j]);
            }
        }
        if exists|j: int|
            0 <= j < d.len() && d[j].0 == s.name && port_value(#[trigger] d[j].1) == Some(s.port) {
            let j = choose|j: int|
                0 <= j < d.len() && d[j].0 == s.name && port_value(#[trigger] d[j].1) == Some(
                    s.port,
                );
            assert(ne[j] == d[j]);
        }
    }
}

/// A slot is among the assignments of the `ports` entries exactly when it
/// is among those of one entry.
pub proof fn lemma_dir_rows_member(pe: Entries, s: Slot)
    ensures
        dir_rows(pe).contains(s) <==> exists|k: int|
            0 <= k < pe.len() && entry_rows(#[trigger] pe[k]).contains(s),
    decreases pe.len(),
{
    if pe.len() > 0 {
        let d = pe.drop_last();
        let x = pe.last();
        lemma_dir_rows_member(d, s);
        let a = dir_rows(d);
        let b = entry_rows(x);
        if (a + b).contains(s) {
            let i = choose|i: int| 0 <= i < (a + b).len() && (a + b)[i] == s;
            if i < a.len() {
                assert(a[i] == s);
                let k = choose|k: int| 0 <= k < d.len() && entry_rows(#[trigger] d[k]).contains(s);
                assert(pe[k] == d[k]);
            } else {
                assert(b[i - a.len()] == s);
                assert(pe[pe.len() - 1] == x);
            }
        }
        if exists|k: int| 0 <= k < pe.len() && entry_rows(#[trigger] pe[k]).contains(s) {
            let k = choose|k: int| 0 <= k < pe.len() && entry_rows(#[trigger] pe[k]).contains(s);
            if k < d.len() {
                assert(d[k] == pe[k]);
                let i = choose|i: int| 0 <= i < a.len() && a[i] == s;
                assert((a + b)[i] == s);
            } else {
                assert(pe[k] == x);
                let i = choose|i: int| 0 <= i < b.len() && b[i] == s;
                assert((a + b)[i + a.len()] == s);
            }
        }
    }
}

/// What `list` shows is what `get` answers: an assignment is listed exactly
/// when looking its directory and name up gives its port.
pub proof fn law_listed_iff_looked_up(t: TomlItem, s: Slot)
    requires
        registry_valid(t),
    ensures
        rows_of(t).contains(s) <==> lookup_of(t, s.dir, s.name) == Some(s.port),
{
    lemma_valid_ports(t);
    let pe = ports_entries(t);
    lemma_dir_rows_member(pe, s);
    if rows_of(t).contains(s) {
        let k = choose|k: int| 0 <= k < pe.len() && entry_rows(#[trigger] pe[k]).contains(s);
        lemma_entry_rows_dir(pe[k]);
        let i = choose|i: int| 0 <= i < entry_rows(pe[k]).len() && entry_rows(pe[k])[i] == s;
        lemma_valid_entry(pe, k);
        let ne = entries_of(pe[k].1);
        lemma_name_rows_member(pe[k].0, ne, s);
        let j = choose|j: int|
            0 <= j < ne.len() && ne[j].0 == s.name && port_value(#[trigger] ne[j].1) == Some(s.port);
        lemma_find_unique(pe, k);
        lemma_find_unique(ne, j);
    }
    if lookup_of(t, s.dir, s.name) == Some(s.port) {
        let v = find(pe, s.dir)->0;
        lemma_find_some(pe, s.dir);
        let k = choose|k: int| 0 <= k < pe.len() && pe[k].0 == s.dir && pe[k].1 == v;
        lemma_valid_entry(pe, k);
        let ne = entries_of(pe[k].1);
        lemma_find_some(ne, s.name);
        let j = choose|j: int|
            0 <= j < ne.len() && ne[j].0 == s.name && ne[j].1 == find(ne, s.name)->0;
        assert(port_value(ne[j].1) == Some(s.port));
        lemma_name_rows_member(pe[k].0, ne, s);
        assert(entry_rows(pe[k]).contains(s));
    }
}

/// A document loads exactly when it is well formed: `settings` is a table
/// whose `start` is a port in `1..=65535`, `ports` is a table of tables of
/// such ports, and no port is recorded twice.
pub proof fn law_load_accepts_exactly_well_formed(t: TomlItem)
    requires
        t is Table,
        keys_unique(t),
    ensures
        problem(t) is None <==> registry_valid(t),
{
    lemma_problem_valid(t);
}

/// A registration is remembered: after the lowest free port is recorded
/// for `(dir, name)`, looking `(dir, name)` up gives that port, so every
/// later request gets the same number.
pub proof fn law_registered_port_is_remembered(t: TomlItem, dir: Seq<char>, name: Seq<char>, p: u16)
    requires
        registry_valid(t),
        lookup_of(t, dir, name) is None,
        lowest_free(t, p),
    ensures
        lookup_of(with_port(t, dir, name, p), dir, name) == Some(p),
        registry_valid(with_port(t, dir, name, p)),
{
    lemma_add_port(t, dir, name, p);
}

/// A registration adds exactly its own assignment: every other directory
/// and name keeps what it had, the start is unchanged, and the new port was
/// free, so ports stay unique across the whole file.
pub proof fn law_registration_changes_nothing_else(
    t: TomlItem,
    dir: Seq<char>,
    name: Seq<char>,
    p: u16,
    other_dir: Seq<char>,
    other_name: Seq<char>,
)
    requires
        registry_valid(t),
        lookup_of(t, dir, name) is None,
        lowest_free(t, p),
        other_dir != dir || other_name != name,
    ensures
        lookup_of(with_port(t, dir, name, p), other_dir, other_name) == lookup_of(
            t,
            other_dir,
            other_name,
        ),
        start_of(with_port(t, dir, name, p)) == start_of(t),
        forall|x: Slot|
            rows_of(with_port(t, dir, name, p)).contains(x) <==> (rows_of(t).contains(x) || x
                == Slot { dir, name, port: p }),
        !port_used(t, p),
{
    lemma_add_port(t, dir, name, p);
    let t2 = with_port(t, dir, name, p);
    match lookup_of(t, other_dir, other_name) {
        Some(q) => {
            let s = Slot { dir: other_dir, name: other_name, port: q };
            law_listed_iff_looked_up(t, s);
            law_listed_iff_looked_up(t2, s);
        },
        None => {
            match lookup_of(t2, other_dir, other_name) {
                Some(q) => {
                    let s = Slot { dir: other_dir, name: other_name, port: q };
                    law_listed_iff_looked_up(t, s);
                    law_listed_iff_looked_up(t2, s);
                },
                None => {},
            }
        },
    }
}

/// Removal forgets exactly what it names: the assignments left are the old
/// ones that the request does not name, the start is unchanged, and looking
/// a removed pair up gives nothing.
pub proof fn law_removal_forgets_exactly(
    t: TomlItem,
    dir: Seq<char>,
    name: Option<Seq<char>>,
    s: Slot,
    x: Slot,
)
    requires
        registry_valid(t),
        rows_of(t).contains(s),
        (matching(dir, name))(s),
    ensures
        registry_valid(removal(t, dir, name)),
        start_of(removal(t, dir, name)) == start_of(t),
        rows_of(removal(t, dir, name)).contains(x) <==> (rows_of(t).contains(x) && !(matching(
            dir,
            name,
        ))(x)),
        (matching(dir, name))(x) ==> lookup_of(removal(t, dir, name), x.dir, x.name) is None,
{
    lemma_removal(t, dir, name, s);
    let t2 = removal(t, dir, name);
    let rows = rows_of(t);
    if rows.filter(keeping(dir, name)).contains(x) {
        let i = choose|i: int| 0 <= i < rows.filter(keeping(dir, name)).len()
            && rows.filter(keeping(dir, name))[i] == x;
        rows.lemma_filter_contains_rev(keeping(dir, name), x);
    }
    if rows.contains(x) && !(matching(dir, name))(x) {
        let i = choose|i: int| 0 <= i < rows.len() && rows[i] == x;
        rows.lemma_filter_contains(keeping(dir, name), i);
    }
    if (matching(dir, name))(x) {
        if let Some(q) = lookup_of(t2, x.dir, x.name) {
            let y = Slot { dir: x.dir, name: x.name, port: q };
            law_listed_iff_looked_up(t2, y);
            assert(rows_of(t2).contains(y));
            let i = choose|i: int| 0 <= i < rows_of(t2).len() && rows_of(t2)[i] == y;
            rows.lemma_filter_pred(keeping(dir, name), i);
        }
    }
}

/// A freed port is reused: when every port from the start up to a
/// registered port is taken, removing that registration makes its port the
/// one the next registration gets.
pub proof fn law_removed_port_is_reused(t: TomlItem, dir: Seq<char>, name: Seq<char>, p: u16)
    requires
        registry_valid(t),
        lookup_of(t, dir, name) == Some(p),
        start_of(t) <= p,
        forall|q: u16| start_of(t) <= q < p ==> port_used(t, q),
    ensures
        lowest_free(removal(t, dir, Some(name)), p),
{
    let s = Slot { dir, name, port: p };
    law_listed_iff_looked_up(t, s);
    let t2 = removal(t, dir, Some(name));
    let rows = rows_of(t);
    lemma_removal(t, dir, Some(name), s);
    lemma_valid_ports(t);
    // nothing left holds p: the one slot with port p was the removed one
    if has_port(rows_of(t2), p) {
        let i = choose|i: int| 0 <= i < rows_of(t2).len() && #[trigger] rows_of(t2)[i].port == p;
        let y = rows_of(t2)[i];
        rows.lemma_filter_pred(keeping(dir, Some(name)), i);
        law_removal_forgets_exactly(t, dir, Some(name), s, y);
        let a = choose|a: int| 0 <= a < rows.len() && rows[a] == y;
        let b = choose|b: int| 0 <= b < rows.len() && rows[b] == s;
        assert(a != b);
        if a < b {
            assert(rows[a].port != rows[b].port);
        } else {
            assert(rows[b].port != rows[a].port);
        }
    }
    // every port below p is still taken
    assert forall|q: u16| start_of(t2) <= q < p implies port_used(t2, q) by {
        assert(port_used(t, q));
        let i = choose|i: int| 0 <= i < rows.len() && #[trigger] rows[i].port == q;
        let y = rows[i];
        law_removal_forgets_exactly(t, dir, Some(name), s, y);
        assert(rows.contains(y));
        law_listed_iff_looked_up(t, y);
        assert(!(matching(dir, Some(name)))(y));
        assert(rows_of(t2).contains(y));
        let j = choose|j: int| 0 <= j < rows_of(t2).len() && rows_of(t2)[j] == y;
        assert(rows_of(t2)[j].port == q);
    }
}


/// Two sequences each strictly ordered by port that hold the same slots
/// are the same sequence.
pub proof fn lemma_sorted_same_slots(a: Seq<Slot>, b: Seq<Slot>)
    requires
        forall|i: int, j: int| 0 <= i < j < a.len() ==> a[i].port < a[j].port,
        forall|i: int, j: int| 0 <= i < j < b.len() ==> b[i].port < b[j].port,
        forall|x: Slot| a.contains(x) <==> b.contains(x),
    ensures
        a == b,
    decreases a.len(),
{
    if a.len() == 0 {
        if b.len() > 0 {
            assert(b.contains(b[0]));
        }
        assert(a =~= b);
    } else {
        assert(a.contains(a[0]));
        let j = choose|j: int| 0 <= j < b.len() && b[j] == a[0];
        assert(b.contains(b[0]));
        let k = choose|k: int| 0 <= k < a.len() && a[k] == b[0];
        if j > 0 {
            assert(b[0].port < b[j].port);
            if k > 0 {
                assert(a[0].port < a[k].port);
            }
        }
        assert(j == 0);
        let a1 = a.drop_first();
        let b1 = b.drop_first();
        assert forall|x: Slot| a1.contains(x) <==> b1.contains(x) by {
            if a1.contains(x) {
                let i = choose|i: int| 0 <= i < a1.len() && a1[i] == x;
                assert(a[i + 1] == x);
                assert(a[0].port < a[i + 1].port);
                assert(a.contains(x));
                let m = choose|m: int| 0 <= m < b.len() && b[m] == x;
                assert(m != 0);
                assert(b1[m - 1] == x);
            }
            if b1.contains(x) {
                let i = choose|i: int| 0 <= i < b1.len() && b1[i] == x;
                assert(b[i + 1] == x);
                assert(b[0].port < b[i + 1].port);
                assert(b.contains(x));
                let m = choose|m: int| 0 <= m < a.len() && a[m] == x;
                assert(m != 0);
                assert(a1[m - 1] == x);
            }
        }
        lemma_sorted_same_slots(a1, b1);
        assert forall|i: int| 0 <= i < a.len() implies a[i] == b[i] by {
            if i > 0 {
                assert(a[i] == a1[i - 1]);
                assert(b[i] == b1[i - 1]);
            }
        }
        assert(a =~= b);
    }
}

/// A listing is unique: two listings of the same assignments are equal.
pub proof fn law_listing_is_unique(rows: Seq<Slot>, a: Seq<Slot>, b: Seq<Slot>)
    requires
        listing(rows, a),
        listing(rows, b),
    ensures
        a == b,
{
    assert forall|x: Slot| a.contains(x) <==> b.contains(x) by {
        if a.contains(x) {
            let i = choose|i: int| 0 <= i < a.len() && a[i] == x;
            assert(rows.contains(a[i]));
            let j = choose|j: int| 0 <= j < rows.len() && rows[j] == x;
            assert(b.contains(rows[j]));
        }
        if b.contains(x) {
            let i = choose|i: int| 0 <= i < b.len() && b[i] == x;
            assert(rows.contains(b[i]));
            let j = choose|j: int| 0 <= j < rows.len() && rows[j] == x;
            assert(a.contains(rows[j]));
        }
    }
    lemma_sorted_same_slots(a, b);
}

/// Removal keeps the order of what is left: the listing after a removal is
/// the listing before it with the removed assignments taken out, and the
/// removed assignments are the listing before it restricted to those the
/// request names.
pub proof fn law_removal_keeps_listing_order(
    t: TomlItem,
    dir: Seq<char>,
    name: Option<Seq<char>>,
    s: Slot,
    before: Seq<Slot>,
    after: Seq<Slot>,
    removed: Seq<Slot>,
)
    requires
        registry_valid(t),
        rows_of(t).contains(s),
        (matching(dir, name))(s),
        listing(rows_of(t), before),
        listing(rows_of(removal(t, dir, name)), after),
        listing(rows_of(t).filter(matching(dir, name)), removed),
    ensures
        after == before.filter(keeping(dir, name)),
        removed == before.filter(matching(dir, name)),
{
    lemma_removal(t, dir, name, s);
    lemma_listing_filter(rows_of(t), before, keeping(dir, name));
    law_listing_is_unique(rows_of(t).filter(keeping(dir, name)), after, before.filter(keeping(dir, name)));
    lemma_listing_filter(rows_of(t), before, matching(dir, name));
    law_listing_is_unique(rows_of(t).filter(matching(dir, name)), removed, before.filter(matching(dir, name)));
}

/// A listing holds each assignment once: when the ports of the rows are
/// distinct, as in every well-formed registry, the listing and the rows
/// are the same multiset.
pub proof fn law_listing_is_a_permutation(rows: Seq<Slot>, s: Seq<Slot>)
    requires
        listing(rows, s),
        ports_distinct(rows),
    ensures
        s.to_multiset() =~= rows.to_multiset(),
{
    broadcast use vstd::seq_lib::to_multiset_contains;

    assert(s.no_duplicates()) by {
        assert forall|i: int, j: int| 0 <= i < s.len() && 0 <= j < s.len() && i != j implies s[i]
            != s[j] by {
            if i < j {
                assert(s[i].port < s[j].port);
            } else {
                assert(s[j].port < s[i].port);
            }
        }
    }
    assert(rows.no_duplicates()) by {
        assert forall|i: int, j: int| 0 <= i < rows.len() && 0 <= j < rows.len() && i != j implies rows[i]
            != rows[j] by {
            if i < j {
                assert(rows[i].port != rows[j].port);
            } else {
                assert(rows[j].port != rows[i].port);
            }
        }
    }
    s.lemma_multiset_has_no_duplicates();
    rows.lemma_multiset_has_no_duplicates();
    assert forall|x: Slot| s.to_multiset().count(x) == rows.to_multiset().count(x) by {
        if s.contains(x) {
            let i = choose|i: int| 0 <= i < s.len() && s[i] == x;
            assert(rows.contains(s[i]));
        }
        if rows.contains(x) {
            let i = choose|i: int| 0 <= i < rows.len() && rows[i] == x;
            assert(s.contains(rows[i]));
        }
        assert(s.contains(x) <==> s.to_multiset().count(x) > 0);
        assert(rows.contains(x) <==> rows.to_multiset().count(x) > 0);
    }
}

/// An ASCII letter or digit, by its code point (`u8::is_ascii_alphanumeric`).
pub open spec fn ascii_alphanumeric(c: char) -> bool {
    let n = c as int;
    (48 <= n && n <= 57) || (65 <= n && n <= 90) || (97 <= n && n <= 122)
}

/// Names are exactly the non-empty texts of ASCII letters, digits, `-`
/// (code 45) and `_` (code 95): every such name is accepted, any other
/// character refused.
pub proof fn law_names_are_ascii_alphanumerics(name: Seq<char>)
    ensures
        name_ok(name) <==> (name.len() > 0 && forall|i: int|
            0 <= i < name.len() ==> ascii_alphanumeric(#[trigger] name[i]) || name[i] as int == 45
                || name[i] as int == 95),
{
    assert forall|i: int| 0 <= i < name.len() implies (name_char_ok(#[trigger] name[i]) <==> (
    ascii_alphanumeric(name[i]) || name[i] as int == 45 || name[i] as int == 95)) by {
        let c = name[i];
        assert(('a' as int) == 97 && ('z' as int) == 122 && ('A' as int) == 65 && ('Z' as int)
            == 90 && ('0' as int) == 48 && ('9' as int) == 57 && ('-' as int) == 45 && ('_' as int)
            == 95);
    }
}

/// A fresh registry, the empty document, is well formed, holds nothing,
/// starts at 4001, and hands 4001 out first: whatever the directory and
/// name, nothing is recorded for them and 4001 is the lowest free port, so
/// the first registration of a valid name gets `(4001, true)`.
pub proof fn law_fresh_registry_hands_out_4001(dir: Seq<char>, name: Seq<char>)
    ensures
        registry_valid(empty_table()),
        rows_of(empty_table()).len() == 0,
        start_of(empty_table()) == 4001,
        lookup_of(empty_table(), dir, name) is None,
        has_free_port(empty_table()),
        lowest_free(empty_table(), 4001),
{
    let t = empty_table();
    assert(rows_of(t) =~= Seq::<Slot>::empty());
    assert(!port_used(t, 4001));
}

/// The NAME column of `list` fits every name: it is at least 4 wide and at
/// least as wide as each listed name in bytes, and it is exactly 4 or the
/// length of some listed name.
pub proof fn law_name_column_fits_every_name(rows: Seq<Assignment>)
    ensures
        name_width(rows) >= 4,
        forall|i: int| 0 <= i < rows.len() ==> name_width(rows) >= byte_len(#[trigger] rows[i].name@),
        name_width(rows) == 4 || exists|i: int|
            0 <= i < rows.len() && name_width(rows) == byte_len(#[trigger] rows[i].name@),
    decreases rows.len(),
{
    if rows.len() > 0 {
        let d = rows.drop_last();
        law_name_column_fits_every_name(d);
        assert forall|i: int| 0 <= i < rows.len() implies name_width(rows) >= byte_len(
            #[trigger] rows[i].name@,
        ) by {
            if i < d.len() {
                assert(rows[i] == d[i]);
            }
        }
        if name_width(rows) != 4 {
            if name_width(rows) == name_width(d) {
                let j = choose|j: int| 0 <= j < d.len() && name_width(d) == byte_len(#[trigger] d[j].name@);
                assert(rows[j] == d[j]);
            } else {
                assert(name_width(rows) == byte_len(rows[rows.len() - 1].name@));
            }
        }
    }
}

/// The number a text of decimal digits spells, read in base 10 with each
/// digit's value taken from its code point (`'0'` is 48).
pub open spec fn read_decimal(s: Seq<char>) -> int
    decreases s.len(),
{
    if s.len() == 0 {
        0
    } else {
        read_decimal(s.drop_last()) * 10 + (s.last() as u32 - 48)
    }
}

/// The decimal text of a number reads back as that number: it is a
/// non-empty run of the digits `'0'..='9'`, without a leading zero, that
/// spells `n` in base 10. So the ports that `list`, `get` and the notices
/// print are the ports recorded.
pub proof fn law_decimal_reads_back(n: nat)
    ensures
        decimal(n).len() > 0,
        forall|i: int|
            0 <= i < decimal(n).len() ==> 48 <= #[trigger] decimal(n)[i] as u32 && decimal(n)[i] as u32 <= 57,
        n >= 10 ==> decimal(n)[0] as u32 != 48,
        read_decimal(decimal(n)) == n,
    decreases n,
{
    let d = n % 10;
    assert(('0' as u32) == 48 && ('1' as u32) == 49 && ('2' as u32) == 50 && ('3' as u32) == 51
        && ('4' as u32) == 52 && ('5' as u32) == 53 && ('6' as u32) == 54 && ('7' as u32) == 55
        && ('8' as u32) == 56 && ('9' as u32) == 57);
    if n < 10 {
        assert(read_decimal(decimal(n)) == read_decimal(decimal(n).drop_last()) * 10 + (decimal(n).last() as u32 - 48));
        assert(decimal(n).drop_last() =~= Seq::<char>::empty());
    } else {
        let m = n / 10;
        law_decimal_reads_back(m);
        let s = decimal(n);
        assert(s == decimal(m).push(digit(d)));
        assert(s.drop_last() =~= decimal(m));
        assert(digit(d) as u32 - 48 == d);
        assert(read_decimal(s) == m * 10 + d);
        assert(m * 10 + d == n) by (nonlinear_arith)
            requires
                m == n / 10,
                d == n % 10,
        ;
        assert(s[0] == decimal(m)[0]);
        if m >= 10 {
        } else {
            assert(m > 0);
            assert(decimal(m) == seq![digit(m)]);
        }
    }
}

/// An unset `XDG_CONFIG_HOME` counts as an empty one, and the location
/// falls back to `<home>/.config/portez/ports.toml`: with no override and
/// no XDG directory the path is the home directory followed by
/// `/.config/portez/ports.toml` (no `/` is added when the home is empty or
/// ends in one); an XDG directory gives `<xdg>/portez/ports.toml`; a non-empty
/// override is the path itself; with none of them there is no path.
pub proof fn law_default_path_locations(
    config: Option<Seq<char>>,
    xdg: Option<Seq<char>>,
    home: Option<Seq<char>>,
)
    ensures
        default_path_of(config, None, home) == default_path_of(config, Some(Seq::<char>::empty()), home),
        config matches Some(c) && c.len() > 0 ==> default_path_of(config, xdg, home) == config,
        !(config matches Some(c) && c.len() > 0) && !(xdg matches Some(x) && x.len() > 0) ==> match home {
            None => default_path_of(config, xdg, home) is None,
            Some(h) => default_path_of(config, xdg, home) == Some(
                if h.len() == 0 || h.last() == '/' {
                    h + ".config/portez/ports.toml"@
                } else {
                    h + "/.config/portez/ports.toml"@
                },
            ),
        },
        !(config matches Some(c) && c.len() > 0) && (xdg matches Some(x) && x.len() > 0 && x.last()
            != '/') ==> default_path_of(config, xdg, home) == Some(xdg->0 + "/portez/ports.toml"@),
{
    reveal_strlit(".config");
    reveal_strlit("portez");
    reveal_strlit("ports.toml");
    reveal_strlit(".config/portez/ports.toml");
    reveal_strlit("/.config/portez/ports.toml");
    reveal_strlit("/portez/ports.toml");
    if let Some(h) = home {
        let a = join_path(h, ".config"@);
        assert(a.len() > 0 && a.last() == 'g');
        let b = join_path(a, "portez"@);
        assert(b == a + seq!['/'] + "portez"@);
        assert(b.len() > 0 && b.last() == 'z');
        let c = join_path(b, "ports.toml"@);
        assert(c == b + seq!['/'] + "ports.toml"@);
        if h.len() == 0 || h.last() == '/' {
            assert(c =~= h + ".config/portez/ports.toml"@);
        } else {
            assert(c =~= h + "/.config/portez/ports.toml"@);
        }
    }
    if let Some(x) = xdg {
        if x.len() > 0 && x.last() != '/' {
            let b = join_path(x, "portez"@);
            assert(b.len() > 0 && b.last() == 'z');
            assert(join_path(b, "ports.toml"@) =~= x + "/portez/ports.toml"@);
        }
    }
}

} // verus!
