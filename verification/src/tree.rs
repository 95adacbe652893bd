//! The logical shape of a TOML document as the registry reads it, and the
//! table operations that the document layer performs on it.

use vstd::prelude::*;

verus! {

/// Entries of a table, in document order: key and item.
pub type Entries = Seq<(Seq<char>, TomlItem)>;

/// What a TOML item holds, as far as the registry looks at it: an integer,
/// a table (a standard table or an inline one) with its entries in order,
/// or any other value.
pub enum TomlItem {
    Integer(i64),
    Table(Seq<(Seq<char>, TomlItem)>),
    Other,
}

/// Executable form of a [`TomlItem`].
pub enum Node {
    Integer(i64),
    Table(Vec<(String, Node)>),
    Other,
}

pub open spec fn node_model(n: Node) -> TomlItem
    decreases n, 1nat,
{
    match n {
        Node::Integer(i) => TomlItem::Integer(i),
        Node::Table(v) => {
            proof {
                assert(decreases_to!(n => v@));
            }
            TomlItem::Table(entries_model(v@))
        },
        Node::Other => TomlItem::Other,
    }
}

pub open spec fn entries_model(s: Seq<(String, Node)>) -> Entries
    decreases s, 0nat,
{
    if s.len() == 0 {
        Seq::empty()
    } else {
        proof {
            assert(decreases_to!(s => s[s.len() - 1]));
            assert(decreases_to!(s[s.len() - 1] => s[s.len() - 1].1));
            assert(decreases_to!(s => s.drop_last()));
        }
        entries_model(s.drop_last()).push((s[s.len() - 1].0@, node_model(s[s.len() - 1].1)))
    }
}

impl View for Node {
    type V = TomlItem;

    open spec fn view(&self) -> TomlItem {
        node_model(*self)
    }
}

/// The model of executable entries, entry by entry.
pub proof fn lemma_entries_model(s: Seq<(String, Node)>)
    ensures
        entries_model(s).len() == s.len(),
        forall|i: int|
            0 <= i < s.len() ==> #[trigger] entries_model(s)[i] == (s[i].0@, node_model(s[i].1)),
    decreases s.len(),
{
    if s.len() > 0 {
        lemma_entries_model(s.drop_last());
        assert forall|i: int| 0 <= i < s.len() implies #[trigger] entries_model(s)[i] == (
        s[i].0@, node_model(s[i].1)) by {
            if i < s.len() - 1 {
                assert(s.drop_last()[i] == s[i]);
            }
        }
    }
}

/// The entries of a table item; nothing for any other item.
pub open spec fn entries_of(t: TomlItem) -> Entries {
    match t {
        TomlItem::Table(e) => e,
        _ => Seq::empty(),
    }
}

/// The item stored under `k`: the first entry with that key.
pub open spec fn find(e: Entries, k: Seq<char>) -> Option<TomlItem>
    decreases e.len(),
{
    if e.len() == 0 {
        None
    } else {
        match find(e.drop_last(), k) {
            Some(v) => Some(v),
            None => if e.last().0 == k {
                Some(e.last().1)
            } else {
                None
            },
        }
    }
}

/// The item under `k` in a table item, as a table-like lookup gives it:
/// nothing when `t` is not a table.
pub open spec fn child(t: TomlItem, k: Seq<char>) -> Option<TomlItem> {
    match t {
        TomlItem::Table(e) => find(e, k),
        _ => None,
    }
}

pub open spec fn has_key(e: Entries, k: Seq<char>) -> bool {
    exists|i: int| 0 <= i < e.len() && e[i].0 == k
}

/// Inserting into a table: the value replaces the entry with that key in
/// place, or is appended when there is none.
pub open spec fn put(e: Entries, k: Seq<char>, v: TomlItem) -> Entries {
    if has_key(e, k) {
        Seq::new(e.len(), |i: int| if e[i].0 == k { (k, v) } else { e[i] })
    } else {
        e.push((k, v))
    }
}

/// An entry for `k` is appended only when there is none.
pub open spec fn put_absent(e: Entries, k: Seq<char>, v: TomlItem) -> Entries {
    if has_key(e, k) {
        e
    } else {
        e.push((k, v))
    }
}

/// Removing `k` from a table; the other entries keep their order.
pub open spec fn drop_key(e: Entries, k: Seq<char>) -> Entries
    decreases e.len(),
{
    if e.len() == 0 {
        e
    } else {
        let r = drop_key(e.drop_last(), k);
        if e.last().0 == k {
            r
        } else {
            r.push(e.last())
        }
    }
}

/// No key occurs twice in the entries.
pub open spec fn distinct_keys(e: Entries) -> bool {
    forall|i: int, j: int| 0 <= i < j < e.len() ==> e[i].0 != e[j].0
}

/// No table anywhere in `t` holds a key twice.
pub open spec fn keys_unique(t: TomlItem) -> bool
    decreases t, 1nat,
{
    match t {
        TomlItem::Table(e) => {
            proof {
                assert(decreases_to!(t => e));
            }
            distinct_keys(e) && entries_unique(e)
        },
        _ => true,
    }
}

pub open spec fn entries_unique(e: Entries) -> bool
    decreases e, 0nat,
{
    if e.len() == 0 {
        true
    } else {
        proof {
            assert(decreases_to!(e => e[e.len() - 1]));
            assert(decreases_to!(e[e.len() - 1] => e[e.len() - 1].1));
            assert(decreases_to!(e => e.drop_last()));
        }
        entries_unique(e.drop_last()) && keys_unique(e[e.len() - 1].1)
    }
}

pub proof fn lemma_entries_unique(e: Entries)
    ensures
        entries_unique(e) <==> forall|i: int| 0 <= i < e.len() ==> keys_unique(#[trigger] e[i].1),
    decreases e.len(),
{
    if e.len() > 0 {
        lemma_entries_unique(e.drop_last());
        if entries_unique(e) {
            assert forall|i: int| 0 <= i < e.len() implies keys_unique(#[trigger] e[i].1) by {
                if i < e.len() - 1 {
                    assert(e.drop_last()[i] == e[i]);
                }
            }
        }
        if forall|i: int| 0 <= i < e.len() ==> keys_unique(#[trigger] e[i].1) {
            assert forall|i: int| 0 <= i < e.drop_last().len() implies keys_unique(
                #[trigger] e.drop_last()[i].1,
            ) by {
                assert(e.drop_last()[i] == e[i]);
            }
        }
    }
}

/// `find` gives the first entry with the key, and nothing when no entry has it.
pub proof fn lemma_find(e: Entries, k: Seq<char>)
    ensures
        find(e, k) is None <==> !has_key(e, k),
        forall|i: int|
            0 <= i < e.len() && e[i].0 == k && (forall|j: int| 0 <= j < i ==> e[j].0 != k)
                ==> find(e, k) == Some(#[trigger] e[i].1),
    decreases e.len(),
{
    if e.len() > 0 {
        let d = e.drop_last();
        lemma_find(d, k);
        assert forall|i: int|
            0 <= i < e.len() && e[i].0 == k && (forall|j: int| 0 <= j < i ==> e[j].0 != k) implies find(
            e,
            k,
        ) == Some(#[trigger] e[i].1) by {
            if i < e.len() - 1 {
                assert(d[i] == e[i]);
                assert forall|j: int| 0 <= j < i implies d[j].0 != k by {
                    assert(d[j] == e[j]);
                }
            } else {
                assert forall|j: int| 0 <= j < d.len() implies d[j].0 != k by {
                    assert(d[j] == e[j]);
                }
            }
        }
        if has_key(d, k) {
            let i = choose|i: int| 0 <= i < d.len() && d[i].0 == k;
            assert(e[i] == d[i]);
        }
        if has_key(e, k) && !has_key(d, k) {
            let i = choose|i: int| 0 <= i < e.len() && e[i].0 == k;
            if i < e.len() - 1 {
                assert(d[i] == e[i]);
            }
        }
    }
}

/// With distinct keys, the entry at `i` is what `find` gives for its key.
pub proof fn lemma_find_unique(e: Entries, i: int)
    requires
        distinct_keys(e),
        0 <= i < e.len(),
    ensures
        find(e, e[i].0) == Some(e[i].1),
{
    lemma_find(e, e[i].0);
}

/// What `find` gives always comes from some entry with the key.
pub proof fn lemma_find_some(e: Entries, k: Seq<char>)
    requires
        find(e, k) is Some,
    ensures
        exists|i: int| 0 <= i < e.len() && e[i].0 == k && e[i].1 == find(e, k)->0,
    decreases e.len(),
{
    let d = e.drop_last();
    if find(d, k) is Some {
        lemma_find_some(d, k);
        let i = choose|i: int| 0 <= i < d.len() && d[i].0 == k && d[i].1 == find(d, k)->0;
        assert(e[i] == d[i]);
    } else {
        assert(e[e.len() - 1].0 == k);
    }
}

pub proof fn lemma_put(e: Entries, k: Seq<char>, v: TomlItem, k2: Seq<char>)
    ensures
        find(put(e, k, v), k2) == (if k2 == k {
            Some(v)
        } else {
            find(e, k2)
        }),
        distinct_keys(e) ==> distinct_keys(put(e, k, v)),
{
    let p = put(e, k, v);
    lemma_find(e, k2);
    lemma_find(p, k2);
    assert forall|j: int| 0 <= j < e.len() && e[j].0 != k implies p[j] == e[j] by {}
    if k2 == k {
        if has_key(e, k) {
            let f = choose_first(e, k);
            assert(p[f] == (k, v));
            assert forall|j: int| 0 <= j < f implies p[j].0 != k2 by {}
            assert(find(p, k2) == Some(p[f].1));
        } else {
            assert(p[e.len() as int] == (k, v));
            assert forall|j: int| 0 <= j < e.len() as int implies p[j].0 != k2 by {
                assert(p[j] == e[j]);
            }
            assert(find(p, k2) == Some(p[e.len() as int].1));
        }
    } else if has_key(e, k2) {
        let f = choose_first(e, k2);
        assert(p[f] == e[f]);
        assert forall|j: int| 0 <= j < f implies p[j].0 != k2 by {
            if e[j].0 != k {
                assert(p[j] == e[j]);
            }
        }
        assert(find(p, k2) == Some(p[f].1));
        assert(find(e, k2) == Some(e[f].1));
    } else {
        assert forall|j: int| 0 <= j < p.len() implies p[j].0 != k2 by {
            if j < e.len() && e[j].0 != k {
                assert(p[j] == e[j]);
            }
        }
        assert(!has_key(p, k2));
    }
}

/// The first index holding key `k`.
pub proof fn choose_first(e: Entries, k: Seq<char>) -> (f: int)
    requires
        has_key(e, k),
    ensures
        0 <= f < e.len(),
        e[f].0 == k,
        forall|j: int| 0 <= j < f ==> e[j].0 != k,
    decreases e.len(),
{
    let d = e.drop_last();
    if has_key(d, k) {
        let f = choose_first(d, k);
        assert(e[f] == d[f]);
        assert forall|j: int| 0 <= j < f implies e[j].0 != k by {
            assert(e[j] == d[j]);
        }
        f
    } else {
        assert forall|j: int| 0 <= j < e.len() - 1 implies e[j].0 != k by {
            assert(e[j] == d[j]);
        }
        let i = choose|i: int| 0 <= i < e.len() && e[i].0 == k;
        assert(i == e.len() - 1);
        (e.len() - 1) as int
    }
}

pub proof fn lemma_put_absent(e: Entries, k: Seq<char>, v: TomlItem, k2: Seq<char>)
    ensures
        find(put_absent(e, k, v), k2) == (if k2 == k && !has_key(e, k) {
            Some(v)
        } else {
            find(e, k2)
        }),
        distinct_keys(e) ==> distinct_keys(put_absent(e, k, v)),
{
    lemma_find(e, k2);
    if !has_key(e, k) {
        let p = e.push((k, v));
        assert(p.drop_last() =~= e);
        lemma_find(p, k2);
    }
}

pub proof fn lemma_drop_key(e: Entries, k: Seq<char>, k2: Seq<char>)
    ensures
        find(drop_key(e, k), k2) == (if k2 == k {
            None
        } else {
            find(e, k2)
        }),
    decreases e.len(),
{
    if e.len() > 0 {
        lemma_drop_key(e.drop_last(), k, k2);
        let r = drop_key(e.drop_last(), k);
        if e.last().0 != k {
            assert(r.push(e.last()).drop_last() =~= r);
        }
    }
}

/// The entries left after removing `k`: every entry is one of `e`'s and
/// none has the key `k`; distinctness and nested uniqueness carry over.
pub proof fn lemma_drop_key_entries(e: Entries, k: Seq<char>)
    ensures
        drop_key(e, k).len() <= e.len(),
        forall|i: int|
            0 <= i < drop_key(e, k).len() ==> exists|j: int|
                0 <= j < e.len() && #[trigger] drop_key(e, k)[i] == e[j],
        forall|i: int| 0 <= i < drop_key(e, k).len() ==> (#[trigger] drop_key(e, k)[i]).0 != k,
        distinct_keys(e) ==> distinct_keys(drop_key(e, k)),
        entries_unique(e) ==> entries_unique(drop_key(e, k)),
    decreases e.len(),
{
    if e.len() > 0 {
        let d = e.drop_last();
        lemma_drop_key_entries(d, k);
        let r = drop_key(d, k);
        assert forall|i: int| 0 <= i < drop_key(e, k).len() implies exists|j: int|
            0 <= j < e.len() && #[trigger] drop_key(e, k)[i] == e[j] by {
            if i < r.len() {
                let j = choose|j: int| 0 <= j < d.len() && r[i] == d[j];
                assert(e[j] == d[j]);
            } else {
                assert(drop_key(e, k)[i] == e[e.len() - 1]);
            }
        }
        if distinct_keys(e) {
            assert forall|i: int, j: int| 0 <= i < j < d.len() implies d[i].0 != d[j].0 by {
                assert(d[i] == e[i] && d[j] == e[j]);
            }
            if e.last().0 != k {
                let rr = r.push(e.last());
                assert forall|i: int, j: int| 0 <= i < j < rr.len() implies rr[i].0 != rr[j].0 by {
                    if j == rr.len() - 1 {
                        let jj = choose|jj: int| 0 <= jj < d.len() && r[i] == d[jj];
                        assert(d[jj] == e[jj]);
                    } else {
                        assert(rr[i] == r[i] && rr[j] == r[j]);
                    }
                }
            }
        }
        if entries_unique(e) {
            lemma_entries_unique(e);
            lemma_entries_unique(d);
            assert forall|i: int| 0 <= i < d.len() implies keys_unique(#[trigger] d[i].1) by {
                assert(d[i] == e[i]);
            }
            lemma_entries_unique(r);
            lemma_entries_unique(drop_key(e, k));
            assert forall|i: int| 0 <= i < drop_key(e, k).len() implies keys_unique(
                #[trigger] drop_key(e, k)[i].1,
            ) by {
                let j = choose|j: int| 0 <= j < e.len() && #[trigger] drop_key(e, k)[i] == e[j];
            }
        }
    }
}

/// Nested uniqueness survives `put` and `put_absent` of a value that has it.
pub proof fn lemma_put_unique(e: Entries, k: Seq<char>, v: TomlItem)
    requires
        distinct_keys(e),
        entries_unique(e),
        keys_unique(v),
    ensures
        distinct_keys(put(e, k, v)),
        entries_unique(put(e, k, v)),
        distinct_keys(put_absent(e, k, v)),
        entries_unique(put_absent(e, k, v)),
{
    lemma_put(e, k, v, k);
    lemma_put_absent(e, k, v, k);
    lemma_entries_unique(e);
    lemma_entries_unique(put(e, k, v));
    lemma_entries_unique(put_absent(e, k, v));
    if !has_key(e, k) {
        assert(e.push((k, v))[e.len() as int] == (k, v));
    }
}

} // verus!
