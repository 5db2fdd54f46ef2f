//! Mathematical model of the unique-total aggregation.
//!
//! An input entry is modelled as an *item*: the canonical form of its path
//! (the ordered sequence of path components, absent when the path could not
//! be canonicalized) together with its size in bytes.  Inserting the items in
//! input order maintains a sequence of *terminals*: the accounted units whose
//! sizes make up the grand total.  A terminal's path is never a prefix of
//! another terminal's path, so no byte is counted twice:
//!
//! * an item whose path has an already-terminal ancestor (or duplicates a
//!   terminal exactly) is *shadowed* and contributes nothing;
//! * an item that terminates above previously inserted terminals *absorbs*
//!   them: the nested terminals are dropped and the broader path becomes the
//!   single accounted unit.

use vstd::prelude::*;

verus! {

/// A canonical path: the ordered sequence of its components, each a sequence
/// of characters.
pub type PathModel = Seq<Seq<char>>;

/// One resolved input entry, as the aggregation sees it: the canonical path
/// (`None` when canonicalization failed) and the entry's size in bytes.
pub type ItemModel = (Option<PathModel>, u64);

/// One accounted unit: a canonical path holding a size that is part of the
/// grand total.
pub type TerminalModel = (PathModel, u64);

/// `ancestor` strictly contains `inner`: it is a proper prefix of `inner`'s
/// component sequence.
pub open spec fn strictly_contains(ancestor: PathModel, inner: PathModel) -> bool {
    ancestor.len() < inner.len() && ancestor.is_prefix_of(inner)
}

/// A path is shadowed when some terminal's path is a prefix of it (equality
/// included): the bytes under it are already accounted for.
pub open spec fn shadowed(terminals: Seq<TerminalModel>, path: PathModel) -> bool {
    exists|i: int| 0 <= i < terminals.len() && terminals[i].0.is_prefix_of(path)
}

/// Remove every terminal strictly inside `path`: the path is about to become
/// an accounted unit, so nested units are absorbed into it.
pub open spec fn drop_absorbed(terminals: Seq<TerminalModel>, path: PathModel) -> Seq<
    TerminalModel,
>
    decreases terminals.len(),
{
    if terminals.len() == 0 {
        terminals
    } else {
        let rest = drop_absorbed(terminals.drop_last(), path);
        if strictly_contains(path, terminals.last().0) {
            rest
        } else {
            rest.push(terminals.last())
        }
    }
}

/// Insert one item.  An item without a canonical path contributes nothing; a
/// shadowed item contributes nothing; otherwise the item absorbs the
/// terminals nested inside it and becomes a terminal itself.
pub open spec fn insert_item(terminals: Seq<TerminalModel>, item: ItemModel) -> Seq<
    TerminalModel,
> {
    match item.0 {
        Option::None => terminals,
        Option::Some(path) => if shadowed(terminals, path) {
            terminals
        } else {
            drop_absorbed(terminals, path).push((path, item.1))
        },
    }
}

/// The terminals that remain after inserting all items, in input order.
pub open spec fn terminals_after(items: Seq<ItemModel>) -> Seq<TerminalModel>
    decreases items.len(),
{
    if items.len() == 0 {
        Seq::empty()
    } else {
        insert_item(terminals_after(items.drop_last()), items.last())
    }
}

/// The sum of the terminals' sizes.
pub open spec fn terminal_size_sum(terminals: Seq<TerminalModel>) -> int
    decreases terminals.len(),
{
    if terminals.len() == 0 {
        0
    } else {
        terminal_size_sum(terminals.drop_last()) + terminals.last().1
    }
}

/// The plain sum of the items' sizes, counting every item.
pub open spec fn item_size_sum(items: Seq<ItemModel>) -> int
    decreases items.len(),
{
    if items.len() == 0 {
        0
    } else {
        item_size_sum(items.drop_last()) + items.last().1
    }
}

/// The unique grand total: the sum of the sizes that remain accounted once
/// every item has been inserted.
pub open spec fn unique_total(items: Seq<ItemModel>) -> int {
    terminal_size_sum(terminals_after(items))
}

/// The sum of the sizes a directory walk could measure: one value per
/// visited filesystem node, `None` when that node's metadata could not be
/// read, so that the node contributes nothing.
pub open spec fn node_size_sum(nodes: Seq<Option<u64>>) -> int
    decreases nodes.len(),
{
    if nodes.len() == 0 {
        0
    } else {
        node_size_sum(nodes.drop_last()) + match nodes.last() {
            Option::None => 0int,
            Option::Some(s) => s as int,
        }
    }
}

/// A prefix of the walked nodes measures no more than all of them.
pub proof fn lemma_node_sum_take_le(nodes: Seq<Option<u64>>, m: int)
    requires
        0 <= m <= nodes.len(),
    ensures
        node_size_sum(nodes.take(m)) <= node_size_sum(nodes),
    decreases nodes.len() - m,
{
    if m == nodes.len() {
        assert(nodes.take(m) =~= nodes);
    } else {
        assert(nodes.take(m + 1).drop_last() =~= nodes.take(m));
        assert(nodes.take(m + 1).last() == nodes[m]);
        lemma_node_sum_take_le(nodes, m + 1);
    }
}

pub proof fn lemma_terminal_size_sum_nonneg(terminals: Seq<TerminalModel>)
    ensures
        terminal_size_sum(terminals) >= 0,
    decreases terminals.len(),
{
    if terminals.len() > 0 {
        lemma_terminal_size_sum_nonneg(terminals.drop_last());
    }
}

/// Absorbing terminals can only lower the accounted sum.
pub proof fn lemma_drop_absorbed_sum_le(terminals: Seq<TerminalModel>, path: PathModel)
    ensures
        terminal_size_sum(drop_absorbed(terminals, path)) <= terminal_size_sum(terminals),
    decreases terminals.len(),
{
    if terminals.len() > 0 {
        lemma_drop_absorbed_sum_le(terminals.drop_last(), path);
        if strictly_contains(path, terminals.last().0) {
            assert(terminals.last().1 >= 0);
        } else {
            let rest = drop_absorbed(terminals.drop_last(), path);
            assert(rest.push(terminals.last()).drop_last() =~= rest);
        }
    }
}

/// Inserting an item adds at most that item's size to the accounted sum.
pub proof fn lemma_insert_item_sum_le(terminals: Seq<TerminalModel>, item: ItemModel)
    ensures
        terminal_size_sum(insert_item(terminals, item)) <= terminal_size_sum(terminals)
            + item.1,
{
    match item.0 {
        Option::None => {},
        Option::Some(path) => {
            if !shadowed(terminals, path) {
                let rest = drop_absorbed(terminals, path);
                lemma_drop_absorbed_sum_le(terminals, path);
                assert(rest.push((path, item.1)).drop_last() =~= rest);
            }
        },
    }
}

/// A prefix of the terminals accounts for no more than all of them.
pub proof fn lemma_terminal_sum_take_le(terminals: Seq<TerminalModel>, m: int)
    requires
        0 <= m <= terminals.len(),
    ensures
        terminal_size_sum(terminals.take(m)) <= terminal_size_sum(terminals),
    decreases terminals.len() - m,
{
    if m == terminals.len() {
        assert(terminals.take(m) =~= terminals);
    } else {
        assert(terminals.take(m + 1).drop_last() =~= terminals.take(m));
        assert(terminals.take(m + 1).last() == terminals[m]);
        lemma_terminal_sum_take_le(terminals, m + 1);
    }
}

/// The unique total never exceeds the plain sum of all item sizes.
pub proof fn lemma_unique_total_le_item_sum(items: Seq<ItemModel>)
    ensures
        0 <= unique_total(items) <= item_size_sum(items),
    decreases items.len(),
{
    lemma_terminal_size_sum_nonneg(terminals_after(items));
    if items.len() > 0 {
        lemma_unique_total_le_item_sum(items.drop_last());
        lemma_insert_item_sum_le(terminals_after(items.drop_last()), items.last());
    }
}

/// No accounted path is a prefix of another accounted path (equality
/// included): an accounted unit never holds a separately accounted unit, so
/// no byte is counted twice.
pub open spec fn prefix_free(terminals: Seq<TerminalModel>) -> bool {
    forall|i: int, j: int|
        0 <= i < terminals.len() && 0 <= j < terminals.len() && i != j ==> !(#[trigger] terminals[i]
            .0).is_prefix_of(#[trigger] terminals[j].0)
}

/// Absorption keeps exactly the terminals not strictly inside `path`.
proof fn lemma_drop_absorbed_membership(terminals: Seq<TerminalModel>, path: PathModel)
    ensures
        forall|x: TerminalModel| #[trigger]
            drop_absorbed(terminals, path).contains(x) <==> terminals.contains(x)
                && !strictly_contains(path, x.0),
    decreases terminals.len(),
{
    if terminals.len() > 0 {
        let prev = terminals.drop_last();
        let last = terminals.last();
        lemma_drop_absorbed_membership(prev, path);
        let rest = drop_absorbed(prev, path);
        assert forall|x: TerminalModel| #[trigger]
            drop_absorbed(terminals, path).contains(x) implies terminals.contains(x)
            && !strictly_contains(path, x.0) by {
            if strictly_contains(path, last.0) {
                assert(rest.contains(x));
                let k = choose|k: int| 0 <= k < prev.len() && prev[k] == x;
                assert(terminals[k] == x);
            } else {
                let out = rest.push(last);
                let k = choose|k: int| 0 <= k < out.len() && out[k] == x;
                if k < rest.len() {
                    assert(rest.contains(x));
                    let m = choose|m: int| 0 <= m < prev.len() && prev[m] == x;
                    assert(terminals[m] == x);
                } else {
                    assert(x == last);
                    assert(terminals[terminals.len() - 1] == x);
                }
            }
        }
        assert forall|x: TerminalModel|
            terminals.contains(x) && !strictly_contains(path, x.0) implies #[trigger]
            drop_absorbed(terminals, path).contains(x) by {
            let k = choose|k: int| 0 <= k < terminals.len() && terminals[k] == x;
            if k < prev.len() {
                assert(prev[k] == x);
                assert(prev.contains(x));
                assert(rest.contains(x));
                if !strictly_contains(path, last.0) {
                    let m = choose|m: int| 0 <= m < rest.len() && rest[m] == x;
                    assert(rest.push(last)[m] == x);
                }
            } else {
                assert(x == last);
                assert(rest.push(last)[rest.len() as int] == x);
            }
        }
    }
}

/// Absorption never duplicates a terminal.
proof fn lemma_drop_absorbed_no_duplicates(terminals: Seq<TerminalModel>, path: PathModel)
    requires
        terminals.no_duplicates(),
    ensures
        drop_absorbed(terminals, path).no_duplicates(),
    decreases terminals.len(),
{
    if terminals.len() > 0 {
        let prev = terminals.drop_last();
        let last = terminals.last();
        assert(forall|i: int| 0 <= i < prev.len() ==> #[trigger] prev[i] == terminals[i]);
        lemma_drop_absorbed_no_duplicates(prev, path);
        let rest = drop_absorbed(prev, path);
        if !strictly_contains(path, last.0) {
            lemma_drop_absorbed_membership(prev, path);
            assert forall|i: int, j: int|
                0 <= i < rest.push(last).len() && 0 <= j < rest.push(last).len() && i
                    != j implies #[trigger] rest.push(last)[i] != #[trigger] rest.push(last)[j] by {
                if i < rest.len() && j < rest.len() {
                    assert(rest[i] != rest[j]);
                } else if i < rest.len() && j == rest.len() {
                    if rest[i] == last {
                        assert(rest.contains(last)) by {
                            assert(rest[i] == last);
                        }
                        let m = choose|m: int| 0 <= m < prev.len() && prev[m] == last;
                        assert(terminals[m] == terminals[terminals.len() - 1]);
                        assert(false);
                    }
                } else if i == rest.len() && j < rest.len() {
                    if rest[j] == last {
                        assert(rest.contains(last)) by {
                            assert(rest[j] == last);
                        }
                        let m = choose|m: int| 0 <= m < prev.len() && prev[m] == last;
                        assert(terminals[m] == terminals[terminals.len() - 1]);
                        assert(false);
                    }
                }
            }
        }
    }
}

/// Inserting an item keeps the accounted paths prefix-free.
proof fn lemma_insert_item_prefix_free(terminals: Seq<TerminalModel>, item: ItemModel)
    requires
        prefix_free(terminals),
    ensures
        prefix_free(insert_item(terminals, item)),
{
    match item.0 {
        Option::None => {},
        Option::Some(p) => {
            if !shadowed(terminals, p) {
                assert(terminals.no_duplicates()) by {
                    assert forall|i: int, j: int|
                        0 <= i < terminals.len() && 0 <= j < terminals.len() && i
                            != j implies #[trigger] terminals[i] != #[trigger] terminals[j] by {
                        if terminals[i] == terminals[j] {
                            assert(terminals[i].0.is_prefix_of(terminals[j].0));
                        }
                    }
                }
                lemma_drop_absorbed_membership(terminals, p);
                lemma_drop_absorbed_no_duplicates(terminals, p);
                let dropped = drop_absorbed(terminals, p);
                let out = dropped.push((p, item.1));
                assert forall|i: int, j: int|
                    0 <= i < out.len() && 0 <= j < out.len() && i != j implies !(#[trigger] out[i]
                        .0).is_prefix_of(#[trigger] out[j].0) by {
                    if i < dropped.len() && j < dropped.len() {
                        assert(dropped.contains(dropped[i])) by {
                            assert(dropped[i] == dropped[i]);
                        }
                        assert(dropped.contains(dropped[j])) by {
                            assert(dropped[j] == dropped[j]);
                        }
                        let k = choose|k: int|
                            0 <= k < terminals.len() && terminals[k] == dropped[i];
                        let l = choose|l: int|
                            0 <= l < terminals.len() && terminals[l] == dropped[j];
                        assert(dropped[i] != dropped[j]);
                        assert(k != l);
                        assert(!terminals[k].0.is_prefix_of(terminals[l].0));
                    } else if i < dropped.len() && j == dropped.len() {
                        // An accounted path with the new path as an extension
                        // would have shadowed the new item.
                        assert(dropped.contains(dropped[i])) by {
                            assert(dropped[i] == dropped[i]);
                        }
                        let k = choose|k: int|
                            0 <= k < terminals.len() && terminals[k] == dropped[i];
                        if out[i].0.is_prefix_of(p) {
                            assert(shadowed(terminals, p));
                        }
                    } else if i == dropped.len() && j < dropped.len() {
                        // A kept path strictly inside the new one was
                        // absorbed; an equal one would have shadowed it.
                        assert(dropped.contains(dropped[j])) by {
                            assert(dropped[j] == dropped[j]);
                        }
                        let l = choose|l: int|
                            0 <= l < terminals.len() && terminals[l] == dropped[j];
                        let q = out[j].0;
                        if p.is_prefix_of(q) {
                            if p.len() < q.len() {
                                assert(strictly_contains(p, q));
                            } else {
                                assert(p =~= q.subrange(0, p.len() as int));
                                assert(q.subrange(0, p.len() as int) =~= q);
                                assert(q.is_prefix_of(p));
                                assert(shadowed(terminals, p));
                            }
                        }
                    }
                }
            }
        },
    }
}

/// The accounted paths are prefix-free after any input whatsoever: whatever
/// entries are aggregated in whatever order, no accounted unit contains
/// another, so each physical file is counted exactly once.
pub proof fn lemma_terminals_after_prefix_free(items: Seq<ItemModel>)
    ensures
        prefix_free(terminals_after(items)),
    decreases items.len(),
{
    if items.len() > 0 {
        lemma_terminals_after_prefix_free(items.drop_last());
        lemma_insert_item_prefix_free(terminals_after(items.drop_last()), items.last());
    }
}

/// Absorbing changes nothing when no terminal lies strictly inside `path`.
proof fn lemma_drop_absorbed_id(terminals: Seq<TerminalModel>, path: PathModel)
    requires
        forall|i: int|
            0 <= i < terminals.len() ==> !strictly_contains(path, (#[trigger] terminals[i]).0),
    ensures
        drop_absorbed(terminals, path) == terminals,
    decreases terminals.len(),
{
    if terminals.len() > 0 {
        assert(forall|i: int|
            0 <= i < terminals.drop_last().len() ==> #[trigger] terminals.drop_last()[i]
                == terminals[i]);
        lemma_drop_absorbed_id(terminals.drop_last(), path);
        assert(drop_absorbed(terminals, path) =~= terminals);
    }
}

/// The terminals that a list of canonicalized items denotes, one per item.
spec fn terminals_of_items(items: Seq<ItemModel>) -> Seq<TerminalModel> {
    items.map_values(|it: ItemModel| (it.0->Some_0, it.1))
}

/// Mapping items to their terminals keeps the sum of the sizes.
proof fn lemma_terminals_of_items_sum(items: Seq<ItemModel>)
    ensures
        terminal_size_sum(terminals_of_items(items)) == item_size_sum(items),
    decreases items.len(),
{
    if items.len() > 0 {
        lemma_terminals_of_items_sum(items.drop_last());
        assert(terminals_of_items(items).drop_last() =~= terminals_of_items(items.drop_last()));
        assert(terminals_of_items(items).last() == (items.last().0->Some_0, items.last().1));
    }
}

/// With no overlap, every item ends as a terminal of its own.
proof fn lemma_non_overlapping_terminals(items: Seq<ItemModel>)
    requires
        forall|i: int| 0 <= i < items.len() ==> (#[trigger] items[i]).0 is Some,
        forall|i: int, j: int|
            0 <= i < items.len() && 0 <= j < items.len() && i != j ==> !(#[trigger] items[i]
                .0->Some_0).is_prefix_of(#[trigger] items[j].0->Some_0),
    ensures
        terminals_after(items) == terminals_of_items(items),
    decreases items.len(),
{
    if items.len() == 0 {
        assert(terminals_after(items) =~= terminals_of_items(items));
    } else {
        let prev = items.drop_last();
        assert(forall|i: int| 0 <= i < prev.len() ==> #[trigger] prev[i] == items[i]);
        lemma_non_overlapping_terminals(prev);
        let terms = terminals_of_items(prev);
        let last = items.last();
        let p = last.0->Some_0;
        assert(last == items[items.len() - 1]);
        assert forall|i: int| 0 <= i < terms.len() implies !(#[trigger] terms[i]).0.is_prefix_of(
            p,
        ) by {
            assert(terms[i].0 == items[i].0->Some_0);
        }
        assert(!shadowed(terms, p));
        assert forall|i: int| 0 <= i < terms.len() implies !strictly_contains(
            p,
            (#[trigger] terms[i]).0,
        ) by {
            assert(terms[i].0 == items[i].0->Some_0);
        }
        lemma_drop_absorbed_id(terms, p);
        assert(terminals_after(items) == terms.push((p, last.1)));
        assert(terms.push((p, last.1)) =~= terminals_of_items(items));
    }
}

/// For entries that do not overlap — no canonical path is a prefix of
/// another, equality included, and every path canonicalized — the unique
/// total equals the plain sum of all the entries' sizes.
pub proof fn lemma_non_overlapping_unique_total(items: Seq<ItemModel>)
    requires
        forall|i: int| 0 <= i < items.len() ==> (#[trigger] items[i]).0 is Some,
        forall|i: int, j: int|
            0 <= i < items.len() && 0 <= j < items.len() && i != j ==> !(#[trigger] items[i]
                .0->Some_0).is_prefix_of(#[trigger] items[j].0->Some_0),
    ensures
        unique_total(items) == item_size_sum(items),
{
    lemma_non_overlapping_terminals(items);
    lemma_terminals_of_items_sum(items);
}

/// Prefixes chain: a prefix of a prefix of a path is a prefix of that path.
proof fn lemma_prefix_transitive(a: PathModel, b: PathModel, c: PathModel)
    requires
        a.is_prefix_of(b),
        b.is_prefix_of(c),
    ensures
        a.is_prefix_of(c),
{
    assert(a =~= c.subrange(0, a.len() as int)) by {
        assert(forall|k: int| 0 <= k < a.len() ==> a[k] == #[trigger] b[k]);
        assert(forall|k: int| 0 <= k < b.len() ==> b[k] == #[trigger] c[k]);
    }
}

/// Every accounted unit comes from an item: its path and size are the
/// canonical path and size of some input entry.
proof fn lemma_terminal_from_item(items: Seq<ItemModel>, x: TerminalModel)
    requires
        terminals_after(items).contains(x),
    ensures
        exists|j: int|
            0 <= j < items.len() && (#[trigger] items[j]).0 is Some && items[j].0->Some_0 == x.0
                && items[j].1 == x.1,
    decreases items.len(),
{
    let prev = items.drop_last();
    let last = items.last();
    assert(items.len() > 0);
    assert(forall|j: int| 0 <= j < prev.len() ==> #[trigger] prev[j] == items[j]);
    match last.0 {
        Option::None => {
            lemma_terminal_from_item(prev, x);
        },
        Option::Some(p) => {
            if shadowed(terminals_after(prev), p) {
                lemma_terminal_from_item(prev, x);
            } else {
                let dropped = drop_absorbed(terminals_after(prev), p);
                let out = dropped.push((p, last.1));
                let k = choose|k: int| 0 <= k < out.len() && out[k] == x;
                if k < dropped.len() {
                    assert(dropped.contains(x)) by {
                        assert(dropped[k] == x);
                    }
                    lemma_drop_absorbed_membership(terminals_after(prev), p);
                    lemma_terminal_from_item(prev, x);
                } else {
                    assert(x == (p, last.1));
                    assert(items[items.len() - 1] == last);
                }
            }
        },
    }
}

/// The accounted units shadow a path exactly when some item's canonical path
/// is a prefix of it: shadowing survives later insertions, because an
/// absorbing path is itself a prefix of whatever its absorbed terminals
/// prefixed.
proof fn lemma_shadow_coverage(items: Seq<ItemModel>, p: PathModel)
    ensures
        shadowed(terminals_after(items), p) <==> exists|j: int|
            0 <= j < items.len() && (#[trigger] items[j]).0 is Some
                && items[j].0->Some_0.is_prefix_of(p),
    decreases items.len(),
{
    let terms = terminals_after(items);
    if shadowed(terms, p) {
        let i = choose|i: int| 0 <= i < terms.len() && terms[i].0.is_prefix_of(p);
        assert(terms.contains(terms[i])) by {
            assert(terms[i] == terms[i]);
        }
        lemma_terminal_from_item(items, terms[i]);
    }
    if items.len() > 0 {
        let prev = items.drop_last();
        let last = items.last();
        let prev_terms = terminals_after(prev);
        assert(forall|j: int| 0 <= j < prev.len() ==> #[trigger] prev[j] == items[j]);
        lemma_shadow_coverage(prev, p);
        if exists|j: int|
            0 <= j < items.len() && (#[trigger] items[j]).0 is Some
                && items[j].0->Some_0.is_prefix_of(p) {
            let j = choose|j: int|
                0 <= j < items.len() && (#[trigger] items[j]).0 is Some
                    && items[j].0->Some_0.is_prefix_of(p);
            match last.0 {
                Option::None => {
                    assert(j < prev.len());
                },
                Option::Some(pl) => {
                    if shadowed(prev_terms, pl) {
                        // The new item is itself shadowed: nothing changes.
                        if j == items.len() - 1 {
                            let q = choose|q: int|
                                0 <= q < prev_terms.len() && prev_terms[q].0.is_prefix_of(pl);
                            lemma_prefix_transitive(prev_terms[q].0, pl, p);
                        }
                    } else {
                        let dropped = drop_absorbed(prev_terms, pl);
                        let out = dropped.push((pl, last.1));
                        if j == items.len() - 1 {
                            // The new path itself is the prefix of `p`.
                            assert(out[dropped.len() as int].0.is_prefix_of(p));
                        } else {
                            // Some earlier terminal was a prefix of `p`; it
                            // either survives absorption or the absorbing
                            // path is a shorter prefix of `p`.
                            assert(prev[j].0 is Some && prev[j].0->Some_0.is_prefix_of(p));
                            assert(shadowed(prev_terms, p));
                            let q = choose|q: int|
                                0 <= q < prev_terms.len() && prev_terms[q].0.is_prefix_of(p);
                            let x = prev_terms[q];
                            assert(prev_terms.contains(x)) by {
                                assert(prev_terms[q] == x);
                            }
                            lemma_drop_absorbed_membership(prev_terms, pl);
                            if strictly_contains(pl, x.0) {
                                lemma_prefix_transitive(pl, x.0, p);
                                assert(out[dropped.len() as int].0.is_prefix_of(p));
                            } else {
                                assert(dropped.contains(x));
                                let m = choose|m: int| 0 <= m < dropped.len() && dropped[m] == x;
                                assert(out[m].0.is_prefix_of(p));
                            }
                        }
                    }
                },
            }
        }
    }
}

/// Whether the aggregation accounts item `i`: its path canonicalized, no
/// item anywhere in the list has a canonical path strictly above it, and no
/// earlier item has the same canonical path.
///
/// This is where the order asymmetry resolves.  A broader path wins whether
/// it comes before the nested one (the nested one is shadowed) or after it
/// (the nested one is absorbed), so the strict-containment condition ranges
/// over the whole list; equal paths are decided by position alone, first
/// seen wins.
pub open spec fn accounted(items: Seq<ItemModel>, i: int) -> bool {
    &&& 0 <= i < items.len()
    &&& items[i].0 is Some
    &&& (forall|j: int|
        0 <= j < items.len() && (#[trigger] items[j]).0 is Some ==> !strictly_contains(
            items[j].0->Some_0,
            items[i].0->Some_0,
        ))
    &&& (forall|j: int|
        0 <= j < i && (#[trigger] items[j]).0 is Some ==> items[j].0->Some_0 != items[i]
            .0->Some_0)
}

/// Forward half of the characterization: every accounted unit comes from an
/// accounted item.
proof fn lemma_characterization_fwd(items: Seq<ItemModel>, x: TerminalModel)
    requires
        terminals_after(items).contains(x),
    ensures
        exists|i: int|
            accounted(items, i) && x == ((#[trigger] items[i]).0->Some_0, items[i].1),
    decreases items.len(),
{
    assert(items.len() > 0);
    let prev = items.drop_last();
    let last = items.last();
    let prev_terms = terminals_after(prev);
    assert(forall|j: int| 0 <= j < prev.len() ==> #[trigger] prev[j] == items[j]);
    let inserted = last.0 is Some && !shadowed(prev_terms, last.0->Some_0);
    if !inserted {
        // The last item changed nothing: the unit comes from an earlier item,
        // which stays accounted; were the last item strictly above it, the
        // terminal shadowing the last item would sit strictly above another
        // terminal, against prefix-freedom.
        lemma_characterization_fwd(prev, x);
        let i = choose|i: int|
            accounted(prev, i) && x == ((#[trigger] prev[i]).0->Some_0, prev[i].1);
        assert forall|j: int|
            0 <= j < items.len() && (#[trigger] items[j]).0 is Some implies !strictly_contains(
            items[j].0->Some_0,
            items[i].0->Some_0,
        ) by {
            if j < items.len() - 1 {
                assert(prev[j] == items[j]);
            } else {
                let pl = items[j].0->Some_0;
                if strictly_contains(pl, items[i].0->Some_0) {
                    assert(shadowed(prev_terms, pl));
                    let q = choose|q: int|
                        0 <= q < prev_terms.len() && prev_terms[q].0.is_prefix_of(pl);
                    let ix = choose|ix: int| 0 <= ix < prev_terms.len() && prev_terms[ix] == x;
                    lemma_prefix_transitive(prev_terms[q].0, pl, x.0);
                    lemma_terminals_after_prefix_free(prev);
                    if q == ix {
                        assert(x.0.len() <= pl.len() < x.0.len());
                    } else {
                        assert(!prev_terms[q].0.is_prefix_of(prev_terms[ix].0));
                    }
                }
            }
        }
        assert(prev[i] == items[i]);
        assert forall|j: int|
            0 <= j < i && (#[trigger] items[j]).0 is Some implies items[j].0->Some_0 != items[i]
            .0->Some_0 by {
            assert(prev[j] == items[j]);
        }
        assert(accounted(items, i) && x == ((items[i]).0->Some_0, items[i].1));
    } else {
        let pl = last.0->Some_0;
        let dropped = drop_absorbed(prev_terms, pl);
        let out = dropped.push((pl, last.1));
        let k = choose|k: int| 0 <= k < out.len() && out[k] == x;
        if k < dropped.len() {
            // The unit survived the absorption: it is not strictly inside
            // the new path, and it was accounted before.
            assert(dropped.contains(x)) by {
                assert(dropped[k] == x);
            }
            lemma_drop_absorbed_membership(prev_terms, pl);
            lemma_characterization_fwd(prev, x);
            let i = choose|i: int|
                accounted(prev, i) && x == ((#[trigger] prev[i]).0->Some_0, prev[i].1);
            assert forall|j: int|
                0 <= j < items.len() && (#[trigger] items[j]).0 is Some implies !strictly_contains(
                items[j].0->Some_0,
                items[i].0->Some_0,
            ) by {
                if j < items.len() - 1 {
                    assert(prev[j] == items[j]);
                } else {
                    assert(!strictly_contains(pl, x.0));
                }
            }
            assert(prev[i] == items[i]);
            assert forall|j: int|
                0 <= j < i && (#[trigger] items[j]).0 is Some implies items[j].0->Some_0
                != items[i].0->Some_0 by {
                assert(prev[j] == items[j]);
            }
            assert(accounted(items, i) && x == ((items[i]).0->Some_0, items[i].1));
        } else {
            // The unit is the last item itself: nothing strictly above it
            // occurs anywhere earlier (it would shadow it), and its path is
            // fresh (an equal path would shadow it too).
            assert(x == (pl, last.1));
            let w = items.len() - 1;
            assert(items[w] == last);
            lemma_shadow_coverage(prev, pl);
            assert(pl.is_prefix_of(pl)) by {
                assert(pl =~= pl.subrange(0, pl.len() as int));
            }
            assert forall|j: int|
                0 <= j < items.len() && (#[trigger] items[j]).0 is Some implies !strictly_contains(
                items[j].0->Some_0,
                items[w].0->Some_0,
            ) by {
                if j < items.len() - 1 {
                    if strictly_contains(items[j].0->Some_0, pl) {
                        assert(prev[j] == items[j]);
                        assert(shadowed(prev_terms, pl));
                    }
                }
            }
            assert forall|j: int|
                0 <= j < w && (#[trigger] items[j]).0 is Some implies items[j].0->Some_0
                != items[w].0->Some_0 by {
                if items[j].0->Some_0 == pl {
                    assert(prev[j] == items[j]);
                    assert(shadowed(prev_terms, pl));
                }
            }
            assert(accounted(items, w) && x == ((items[w]).0->Some_0, items[w].1));
        }
    }
}

/// Backward half of the characterization: every accounted item ends as an
/// accounted unit.
proof fn lemma_characterization_bwd(items: Seq<ItemModel>, i: int)
    requires
        accounted(items, i),
    ensures
        terminals_after(items).contains(((items[i].0->Some_0, items[i].1))),
    decreases items.len(),
{
    let prev = items.drop_last();
    let last = items.last();
    let prev_terms = terminals_after(prev);
    let x = (items[i].0->Some_0, items[i].1);
    assert(forall|j: int| 0 <= j < prev.len() ==> #[trigger] prev[j] == items[j]);
    if i < items.len() - 1 {
        assert(accounted(prev, i));
        lemma_characterization_bwd(prev, i);
        let m0 = choose|m: int| 0 <= m < prev_terms.len() && prev_terms[m] == x;
        let inserted = last.0 is Some && !shadowed(prev_terms, last.0->Some_0);
        if inserted {
            let pl = last.0->Some_0;
            let dropped = drop_absorbed(prev_terms, pl);
            // The unit survives the absorption: the last item's path does
            // not strictly contain it, by the account condition.
            assert(!strictly_contains(pl, x.0)) by {
                assert(items[items.len() - 1].0 is Some);
            }
            lemma_drop_absorbed_membership(prev_terms, pl);
            assert(prev_terms.contains(x)) by {
                assert(prev_terms[m0] == x);
            }
            assert(dropped.contains(x));
            let m = choose|m: int| 0 <= m < dropped.len() && dropped[m] == x;
            assert(dropped.push((pl, last.1))[m] == x);
        } else {
            assert(terminals_after(items)[m0] == x);
        }
    } else {
        // The accounted item is the last one: nothing shadows its path, or
        // the shadowing terminal's item would strictly contain or duplicate
        // it, against the account condition.
        let pl = items[i].0->Some_0;
        lemma_shadow_coverage(prev, pl);
        if shadowed(prev_terms, pl) {
            let j = choose|j: int|
                0 <= j < prev.len() && (#[trigger] prev[j]).0 is Some
                    && prev[j].0->Some_0.is_prefix_of(pl);
            let pj = prev[j].0->Some_0;
            if pj.len() < pl.len() {
                assert(strictly_contains(pj, pl));
            } else {
                assert(pj =~= pl.subrange(0, pj.len() as int));
                assert(pl.subrange(0, pj.len() as int) =~= pl);
                assert(pj == pl);
            }
            assert(false);
        }
        let dropped = drop_absorbed(prev_terms, pl);
        assert(dropped.push((pl, last.1))[dropped.len() as int] == x);
    }
}

/// Exactly which entries the unique total counts: a path-and-size pair is
/// accounted after aggregation if and only if it is the first entry of its
/// canonical path and no entry anywhere in the list — earlier or later —
/// has a canonical path strictly containing it.  In particular a broader
/// entry wins over a nested one whichever of the two comes first.
pub proof fn lemma_accounted_characterization(items: Seq<ItemModel>, x: TerminalModel)
    ensures
        terminals_after(items).contains(x) <==> exists|i: int|
            accounted(items, i) && x == ((#[trigger] items[i]).0->Some_0, items[i].1),
{
    if terminals_after(items).contains(x) {
        lemma_characterization_fwd(items, x);
    }
    if exists|i: int|
        accounted(items, i) && x == ((#[trigger] items[i]).0->Some_0, items[i].1) {
        let i = choose|i: int|
            accounted(items, i) && x == ((#[trigger] items[i]).0->Some_0, items[i].1);
        lemma_characterization_bwd(items, i);
    }
}

/// An item whose path exactly duplicates an already accounted path
/// contributes nothing: the first entry seen as terminal along a path wins.
pub proof fn lemma_duplicate_item_ignored(items: Seq<ItemModel>, item: ItemModel)
    requires
        item.0 is Some,
        exists|i: int|
            0 <= i < terminals_after(items).len() && (#[trigger] terminals_after(items)[i]).0
                == item.0->Some_0,
    ensures
        terminals_after(items.push(item)) == terminals_after(items),
{
    let terms = terminals_after(items);
    let p = item.0->Some_0;
    let i = choose|i: int| 0 <= i < terms.len() && (#[trigger] terms[i]).0 == p;
    assert(terms[i].0.is_prefix_of(p)) by {
        assert(p =~= p.subrange(0, p.len() as int));
    }
    assert(shadowed(terms, p));
    assert(items.push(item).drop_last() =~= items);
    assert(items.push(item).last() == item);
}

/// A containing entry first, then an entry strictly inside it: the nested
/// entry is shadowed by the already-terminal ancestor, and the unique total
/// is the ancestor's size alone.
pub proof fn lemma_nested_after_ancestor(p: PathModel, s: u64, q: PathModel, t: u64)
    requires
        strictly_contains(p, q),
    ensures
        unique_total(seq![(Option::Some(p), s), (Option::Some(q), t)]) == s,
{
    let items = seq![(Option::Some(p), s), (Option::Some(q), t)];
    let first = seq![(Option::<PathModel>::Some(p), s)];
    assert(items.drop_last() =~= first);
    assert(first.drop_last() =~= Seq::<ItemModel>::empty());
    let none: Seq<TerminalModel> = terminals_after(Seq::empty());
    assert(!shadowed(none, p));
    assert(drop_absorbed(none, p).push((p, s)) =~= seq![(p, s)]);
    assert(terminals_after(first) == seq![(p, s)]);
    assert(seq![(p, s)][0].0.is_prefix_of(q));
    assert(shadowed(seq![(p, s)], q));
    assert(terminals_after(items) == seq![(p, s)]);
    assert(seq![(p, s)].drop_last() =~= Seq::<TerminalModel>::empty());
    assert(terminal_size_sum(Seq::<TerminalModel>::empty()) == 0);
    assert(seq![(p, s)].last() == (p, s));
    assert(terminal_size_sum(seq![(p, s)]) == s);
}

/// An entry strictly inside a containing entry first, then the containing
/// entry: the nested terminal is absorbed — the trie clears the descendants
/// of the node that becomes terminal — and the unique total is again the
/// containing entry's size alone.
pub proof fn lemma_ancestor_after_nested(p: PathModel, s: u64, q: PathModel, t: u64)
    requires
        strictly_contains(p, q),
    ensures
        unique_total(seq![(Option::Some(q), t), (Option::Some(p), s)]) == s,
{
    let items = seq![(Option::Some(q), t), (Option::Some(p), s)];
    let first = seq![(Option::<PathModel>::Some(q), t)];
    assert(items.drop_last() =~= first);
    assert(first.drop_last() =~= Seq::<ItemModel>::empty());
    let none: Seq<TerminalModel> = terminals_after(Seq::empty());
    assert(!shadowed(none, q));
    assert(drop_absorbed(none, q).push((q, t)) =~= seq![(q, t)]);
    assert(terminals_after(first) == seq![(q, t)]);
    assert(!q.is_prefix_of(p));
    assert(!shadowed(seq![(q, t)], p));
    let once = seq![(q, t)];
    assert(once.drop_last() =~= Seq::<TerminalModel>::empty());
    assert(strictly_contains(p, once.last().0));
    assert(drop_absorbed(Seq::<TerminalModel>::empty(), p) == Seq::<TerminalModel>::empty());
    assert(drop_absorbed(once, p) =~= Seq::<TerminalModel>::empty());
    assert(terminals_after(items) =~= seq![(p, s)]);
    assert(seq![(p, s)].drop_last() =~= Seq::<TerminalModel>::empty());
    assert(terminal_size_sum(Seq::<TerminalModel>::empty()) == 0);
    assert(seq![(p, s)].last() == (p, s));
    assert(terminal_size_sum(seq![(p, s)]) == s);
}

} // verus!
