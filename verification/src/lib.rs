//! Disk-usage accounting: per-entry size summation and a unique grand total
//! over a set of possibly overlapping filesystem paths.
//!
//! The caller resolves paths against the filesystem and hands the library
//! plain values: each entry's displayed path, its canonical path split into
//! components (absent when canonicalization failed), and its measured size.
//! The library computes the grand total that counts each accounted unit
//! exactly once even when one entry's path contains another's.

use vstd::prelude::*;

pub mod model;

use crate::model::{
    drop_absorbed, insert_item, item_size_sum, lemma_node_sum_take_le,
    lemma_terminal_sum_take_le, lemma_unique_total_le_item_sum, node_size_sum, shadowed,
    strictly_contains, terminal_size_sum, terminals_after, unique_total, ItemModel, PathModel,
    TerminalModel,
};
use vstd::slice::slice_index_get;

verus! {

/// One resolved input path with its recursively measured size.
///
/// `canonical` holds the absolute, symlink-resolved form of `path`, split
/// into its components; resolving it is filesystem work, so the caller
/// supplies it, and `None` records that canonicalization failed.  Such an
/// entry still appears in per-path listings but contributes nothing to the
/// unique total.
pub struct Entry {
    /// The path as given, for display.
    pub path: String,
    /// The canonical path components, or `None` when canonicalization failed.
    pub canonical: Option<Vec<String>>,
    /// The recursively measured size of the entry, in bytes.
    pub size: u64,
    /// Identifier of the filesystem holding the entry, for same-filesystem
    /// filtering by the caller.
    pub filesystem_id: u64,
}

/// The canonical-path model of a component vector.
pub open spec fn path_of(components: Seq<String>) -> PathModel {
    components.map_values(|c: String| c@)
}

impl Entry {
    /// The entry as the aggregation model sees it.
    pub open spec fn item(&self) -> ItemModel {
        (
            match self.canonical {
                Option::None => Option::<PathModel>::None,
                Option::Some(c) => Option::Some(path_of(c@)),
            },
            self.size,
        )
    }
}

/// The model of a whole entry list.
pub open spec fn items_of(entries: Seq<Entry>) -> Seq<ItemModel> {
    entries.map_values(|e: Entry| e.item())
}

/// Whether the components of `a` are a prefix of those of `b` (equality
/// included).
fn path_is_prefix(a: &Vec<String>, b: &Vec<String>) -> (r: bool)
    ensures
        r == path_of(a@).is_prefix_of(path_of(b@)),
{
    if a.len() > b.len() {
        return false;
    }
    let mut k: usize = 0;
    while k < a.len()
        invariant
            k <= a@.len() <= b@.len(),
            forall|m: int| 0 <= m < k ==> a@[m]@ == b@[m]@,
        decreases a@.len() - k,
    {
        if a[k] != b[k] {
            assert(path_of(a@)[k as int] != path_of(b@).subrange(0, a@.len() as int)[k as int]);
            return false;
        }
        k += 1;
    }
    assert(path_of(a@) =~= path_of(b@).subrange(0, a@.len() as int));
    true
}

/// Whether `a` strictly contains `b`: `a` is a proper prefix of `b`.
fn path_strictly_contains(a: &Vec<String>, b: &Vec<String>) -> (r: bool)
    ensures
        r == strictly_contains(path_of(a@), path_of(b@)),
{
    a.len() < b.len() && path_is_prefix(a, b)
}

/// The accounted unit denoted by an entry whose path canonicalized.
pub open spec fn terminal_of(e: Entry) -> TerminalModel {
    (path_of(e.canonical->Some_0@), e.size)
}

/// The terminals denoted by the entries at the given indices.
pub open spec fn terminals_at(entries: Seq<Entry>, idx: Seq<usize>) -> Seq<TerminalModel> {
    idx.map_values(|j: usize| terminal_of(entries[j as int]))
}

/// Whether the indexed terminals already account for `path`: some terminal's
/// path is a prefix of it.
fn shadowed_by(entries: &[Entry], idx: &Vec<usize>, path: &Vec<String>) -> (r: bool)
    requires
        forall|k: int|
            0 <= k < idx@.len() ==> idx@[k] < entries@.len() && entries@[#[trigger] idx@[k]
                as int].canonical is Some,
    ensures
        r == shadowed(terminals_at(entries@, idx@), path_of(path@)),
{
    let ghost terminals = terminals_at(entries@, idx@);
    let mut k: usize = 0;
    while k < idx.len()
        invariant
            k <= idx@.len(),
            forall|j: int|
                0 <= j < idx@.len() ==> idx@[j] < entries@.len() && entries@[#[trigger] idx@[j]
                    as int].canonical is Some,
            terminals == terminals_at(entries@, idx@),
            forall|m: int| 0 <= m < k ==> !(#[trigger] terminals[m].0).is_prefix_of(
                path_of(path@),
            ),
        decreases idx@.len() - k,
    {
        let j = idx[k];
        let e = slice_index_get(entries, j);
        match &e.canonical {
            Option::Some(c) => {
                if path_is_prefix(c, path) {
                    assert(terminals[k as int].0.is_prefix_of(path_of(path@)));
                    return true;
                }
            },
            Option::None => {
                proof {
                    assert(false);
                }
            },
        }
        k += 1;
    }
    false
}

/// Sum the sizes measured for the nodes of one entry's directory walk.
///
/// The caller enumerates every filesystem node under the entry's path and
/// reads each node's own metadata, handing in one value per node: its byte
/// length, or `None` when the metadata could not be read, so that only that
/// node's contribution is excluded from the entry's size.  The plain sum of
/// the lengths must not exceed `u64::MAX`.
pub fn sum_node_sizes(nodes: &[Option<u64>]) -> (total: u64)
    requires
        node_size_sum(nodes@) <= u64::MAX,
    ensures
        total == node_size_sum(nodes@),
{
    let mut total: u64 = 0;
    let n = nodes.len();
    let mut k: usize = 0;
    while k < n
        invariant
            n == nodes@.len(),
            k <= n,
            node_size_sum(nodes@) <= u64::MAX,
            total == node_size_sum(nodes@.take(k as int)),
        decreases n - k,
    {
        proof {
            assert(nodes@.take(k as int + 1).drop_last() =~= nodes@.take(k as int));
            assert(nodes@.take(k as int + 1).last() == nodes@[k as int]);
            lemma_node_sum_take_le(nodes@, k as int + 1);
        }
        match slice_index_get(nodes, k) {
            Option::Some(len) => {
                total = total + *len;
            },
            Option::None => {
                // This node's metadata could not be read: its bytes are
                // excluded, the rest of the walk still counts.
            },
        }
        k += 1;
    }
    proof {
        assert(nodes@.take(n as int) =~= nodes@);
    }
    total
}

/// Calculate the unique grand total of the entries' sizes: the sum in which
/// no byte is counted twice even when one entry's path contains another's.
///
/// Entries are considered in input order.  An entry whose canonical path has
/// an already accounted ancestor (or duplicates an accounted path) is
/// shadowed and contributes nothing; an entry whose canonical path contains
/// previously accounted entries absorbs them, so only the containing path
/// remains accounted.  An entry without a canonical path contributes
/// nothing: its path could not be canonicalized, and overlap cannot be
/// decided for it; the caller may still display it.  The entry list itself
/// is never changed: the result is a function of the entries alone.
///
/// The sizes are required to fit: their plain sum must not exceed `u64::MAX`.
pub fn calculate_unique_total_size(entries: &[Entry]) -> (total: u64)
    requires
        item_size_sum(items_of(entries@)) <= u64::MAX,
    ensures
        total == unique_total(items_of(entries@)),
{
    let ghost items = items_of(entries@);
    // Indices of the entries whose canonical paths are the accounted units so
    // far.  No accounted path is a prefix of another: these are the terminal
    // nodes of the path trie, and shadowing and absorption keep the frontier
    // prefix-free.
    let mut idx: Vec<usize> = Vec::new();
    let n = entries.len();
    let mut i: usize = 0;
    while i < n
        invariant
            n == entries@.len(),
            i <= n,
            forall|k: int|
                0 <= k < idx@.len() ==> idx@[k] < entries@.len() && entries@[#[trigger] idx@[k]
                    as int].canonical is Some,
            items == items_of(entries@),
            terminals_at(entries@, idx@) == terminals_after(items.take(i as int)),
        decreases n - i,
    {
        let ghost pre_terminals = terminals_at(entries@, idx@);
        proof {
            assert(items.take(i as int + 1).drop_last() =~= items.take(i as int));
            assert(items.take(i as int + 1).last() == items[i as int]);
            assert(items[i as int] == entries@[i as int].item());
        }
        let e = slice_index_get(entries, i);
        match &e.canonical {
            Option::None => {
                // Canonicalization failed for this entry: it stays out of the
                // unique total, though the caller may still display it.
            },
            Option::Some(path) => {
                if !shadowed_by(entries, &idx, path) {
                    let ghost p = path_of(path@);
                    // This entry becomes an accounted unit: absorb every
                    // accounted entry nested strictly inside it, so that its
                    // bytes are not counted twice, then account the entry.
                    let mut kept: Vec<usize> = Vec::new();
                    let m = idx.len();
                    let mut k: usize = 0;
                    while k < m
                        invariant
                            m == idx@.len(),
                            k <= m,
                            n == entries@.len(),
                            forall|j: int|
                                0 <= j < idx@.len() ==> idx@[j] < entries@.len()
                                    && entries@[#[trigger] idx@[j] as int].canonical is Some,
                            forall|j: int|
                                0 <= j < kept@.len() ==> kept@[j] < entries@.len()
                                    && entries@[#[trigger] kept@[j] as int].canonical is Some,
                            p == path_of(path@),
                            terminals_at(entries@, kept@) == drop_absorbed(
                                terminals_at(entries@, idx@.take(k as int)),
                                p,
                            ),
                        decreases m - k,
                    {
                        let ghost prev = terminals_at(entries@, idx@.take(k as int));
                        let j = idx[k];
                        let ej = slice_index_get(entries, j);
                        let ghost x = terminal_of(entries@[j as int]);
                        proof {
                            assert(idx@.take(k as int + 1).drop_last() =~= idx@.take(k as int));
                            assert(terminals_at(entries@, idx@.take(k as int + 1)) =~= prev.push(
                                x,
                            ));
                            assert(prev.push(x).drop_last() =~= prev);
                            assert(prev.push(x).last() == x);
                        }
                        match &ej.canonical {
                            Option::Some(cj) => {
                                if !path_strictly_contains(path, cj) {
                                    let ghost kept_pre = kept@;
                                    kept.push(j);
                                    proof {
                                        assert(x.0 == path_of(cj@));
                                        assert(terminals_at(entries@, kept@) =~= terminals_at(
                                            entries@,
                                            kept_pre,
                                        ).push(x));
                                    }
                                } else {
                                    proof {
                                        assert(x.0 == path_of(cj@));
                                    }
                                }
                            },
                            Option::None => {
                                proof {
                                    assert(false);
                                }
                            },
                        }
                        k += 1;
                    }
                    proof {
                        assert(idx@.take(m as int) =~= idx@);
                        assert(terminals_at(entries@, kept@) == drop_absorbed(pre_terminals, p));
                    }
                    let ghost kept_final = kept@;
                    idx = kept;
                    idx.push(i);
                    proof {
                        assert(terminals_at(entries@, idx@) =~= terminals_at(
                            entries@,
                            kept_final,
                        ).push(terminal_of(entries@[i as int])));
                        assert(terminal_of(entries@[i as int]) == (p, entries@[i as int].size));
                        assert(items[i as int].0 == Option::Some(p));
                    }
                } else {
                    // Shadowed: an accounted ancestor already counts these
                    // bytes, so the entry contributes nothing new.
                }
            },
        }
        i += 1;
    }
    proof {
        assert(items.take(n as int) =~= items);
        lemma_unique_total_le_item_sum(items);
    }
    let ghost final_terminals = terminals_at(entries@, idx@);
    let mut total: u64 = 0;
    let r = idx.len();
    let mut k: usize = 0;
    while k < r
        invariant
            r == idx@.len(),
            k <= r,
            n == entries@.len(),
            forall|j: int|
                0 <= j < idx@.len() ==> idx@[j] < entries@.len() && entries@[#[trigger] idx@[j]
                    as int].canonical is Some,
            final_terminals == terminals_at(entries@, idx@),
            terminal_size_sum(final_terminals) <= u64::MAX,
            total == terminal_size_sum(final_terminals.take(k as int)),
        decreases r - k,
    {
        let j = idx[k];
        let ej = slice_index_get(entries, j);
        proof {
            assert(final_terminals.take(k as int + 1).drop_last() =~= final_terminals.take(
                k as int,
            ));
            assert(final_terminals.take(k as int + 1).last() == final_terminals[k as int]);
            assert(final_terminals[k as int].1 == entries@[j as int].size);
            lemma_terminal_sum_take_le(final_terminals, k as int + 1);
        }
        total = total + ej.size;
        k += 1;
    }
    proof {
        assert(final_terminals.take(r as int) =~= final_terminals);
    }
    total
}

/// Aggregating the same entry list twice yields the same total: the unique
/// total is a function of the entries alone, and `calculate_unique_total_size`
/// borrows them immutably, so nothing is hidden in between the calls.  Any
/// two results its contract admits for the same entries are equal.
pub proof fn lemma_unique_total_repeatable(entries: Seq<Entry>, first: u64, second: u64)
    requires
        first == unique_total(items_of(entries)),
        second == unique_total(items_of(entries)),
    ensures
        first == second,
{
}

} // verus!
