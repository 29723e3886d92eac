//! The renamings carried out on a tree: that each of them finds the path
//! it is to rename.
//!
//! A tree is the set of the paths that exist. Renaming a path moves it and
//! all that lies below it.

use vstd::prelude::*;
use crate::path::lies_under;
use crate::rename::RenameView;
use crate::rename::rename_plan;
use crate::rename::items_to_rename;
use crate::rename::longest_first;
use crate::rename::inserted;
use crate::rename::lemma_descendants_first;
use crate::rename::lemma_items_to_rename;
use crate::rename::lemma_longest_first_keeps_items;
use crate::rename::lemma_renaming_stays_in_directory;
use crate::rename::is_renameable;
use crate::rename::renamed_path;
use crate::path::file_name;
use crate::text::lacks;
use crate::text::replaced;
use crate::text::last_position;
use crate::text::lemma_last_position;
use crate::text::lemma_last_position_is;

verus! {

/// Where `p` is once `from` has been renamed to `to`: a path at or below
/// `from` is at the same place at or below `to`, any other path where it
/// was.
pub open spec fn moved(p: Seq<char>, from: Seq<char>, to: Seq<char>) -> Seq<char> {
    if p == from || lies_under(p, from) {
        to + p.skip(from.len() as int)
    } else {
        p
    }
}

/// The tree once the renaming `op` has been carried out on `tree`.
pub open spec fn tree_renamed(tree: Set<Seq<char>>, op: RenameView) -> Set<Seq<char>> {
    Set::new(
        |q: Seq<char>| exists|p: Seq<char>| tree.contains(p) && moved(p, op.from, op.to) == q,
    )
}

/// The tree once the renamings `ops` have been carried out on `tree`, one
/// after the other.
pub open spec fn tree_after(tree: Set<Seq<char>>, ops: Seq<RenameView>) -> Set<Seq<char>>
    decreases ops.len(),
{
    if ops.len() == 0 {
        tree
    } else {
        tree_renamed(tree_after(tree, ops.drop_last()), ops.last())
    }
}

/// A listing without repetitions gives no path twice to rename.
pub proof fn lemma_items_are_distinct(entries: Seq<Seq<char>>, old: Seq<char>)
    requires
        entries.no_duplicates(),
    ensures
        items_to_rename(entries, old).no_duplicates(),
    decreases entries.len(),
{
    if entries.len() > 0 {
        let before = entries.drop_last();
        let last = entries.last();
        assert(before.no_duplicates()) by {
            assert forall|i: int, j: int|
                0 <= i < before.len() && 0 <= j < before.len() && i != j implies before[i]
                != before[j] by {
                assert(before[i] == entries[i] && before[j] == entries[j]);
            }
        }
        lemma_items_are_distinct(before, old);
        lemma_items_to_rename(before, old);
        let rest = items_to_rename(before, old);
        if rest.contains(last) {
            let m = choose|m: int| 0 <= m < before.len() && before[m] == last;
            assert(entries[m] == entries[entries.len() - 1]);
        }
        assert forall|i: int, j: int|
            0 <= i < items_to_rename(entries, old).len() && 0 <= j < items_to_rename(
                entries,
                old,
            ).len() && i != j implies items_to_rename(entries, old)[i] != items_to_rename(
            entries,
            old,
        )[j] by {
            let items = items_to_rename(entries, old);
            if i < rest.len() && j < rest.len() {
                assert(items[i] == rest[i] && items[j] == rest[j]);
            } else if i < rest.len() {
                assert(rest.contains(rest[i]));
            } else {
                assert(rest.contains(rest[j]));
            }
        }
    }
}

/// Putting paths in the order of renaming gives none twice that was not
/// there twice.
pub proof fn lemma_order_is_distinct(items: Seq<Seq<char>>)
    requires
        items.no_duplicates(),
    ensures
        longest_first(items).no_duplicates(),
    decreases items.len(),
{
    broadcast use vstd::seq_lib::group_to_multiset_ensures;

    if items.len() > 0 {
        let before = items.drop_last();
        let last = items.last();
        assert(before.no_duplicates()) by {
            assert forall|i: int, j: int|
                0 <= i < before.len() && 0 <= j < before.len() && i != j implies before[i]
                != before[j] by {
                assert(before[i] == items[i] && before[j] == items[j]);
            }
        }
        lemma_order_is_distinct(before);
        lemma_longest_first_keeps_items(before);
        lemma_longest_first_keeps_items(items);
        let sorted = longest_first(before);
        let r = longest_first(items);
        if sorted.contains(last) {
            assert(sorted.to_multiset().count(last) > 0);
            assert(before.contains(last));
            let m = choose|m: int| 0 <= m < before.len() && before[m] == last;
            assert(items[m] == items[items.len() - 1]);
        }
        lemma_inserted_keeps_distinct(sorted, last);
    }
}

/// Inserting a path that is not there yet gives no path twice.
proof fn lemma_inserted_keeps_distinct(sorted: Seq<Seq<char>>, item: Seq<char>)
    requires
        sorted.no_duplicates(),
        !sorted.contains(item),
    ensures
        inserted(sorted, item).no_duplicates(),
    decreases sorted.len(),
{
    let r = inserted(sorted, item);
    if sorted.len() == 0 {
    } else if crate::path::byte_len(sorted.last()) >= crate::path::byte_len(item) {
        assert forall|i: int, j: int| 0 <= i < r.len() && 0 <= j < r.len() && i != j implies r[i]
            != r[j] by {
            if i < sorted.len() {
                assert(sorted.contains(sorted[i]));
            }
            if j < sorted.len() {
                assert(sorted.contains(sorted[j]));
            }
        }
    } else {
        let before = sorted.drop_last();
        assert(before.no_duplicates()) by {
            assert forall|i: int, j: int|
                0 <= i < before.len() && 0 <= j < before.len() && i != j implies before[i]
                != before[j] by {
                assert(before[i] == sorted[i] && before[j] == sorted[j]);
            }
        }
        if before.contains(item) {
            let m = choose|m: int| 0 <= m < before.len() && before[m] == item;
            assert(sorted[m] == item);
        }
        lemma_inserted_keeps_distinct(before, item);
        let inner = inserted(before, item);
        lemma_inserted_holds(before, item);
        assert forall|i: int, j: int| 0 <= i < r.len() && 0 <= j < r.len() && i != j implies r[i]
            != r[j] by {
            if i < inner.len() && j < inner.len() {
                assert(r[i] == inner[i] && r[j] == inner[j]);
            } else {
                let k = if i < inner.len() {
                    i
                } else {
                    j
                };
                assert(inner.contains(inner[k]));
                if inner[k] == sorted.last() {
                    assert(inner[k] == item || before.contains(inner[k]));
                    if before.contains(inner[k]) {
                        let m = choose|m: int| 0 <= m < before.len() && before[m] == inner[k];
                        assert(sorted[m] == sorted[sorted.len() - 1]);
                    } else {
                        assert(sorted.contains(item));
                    }
                }
            }
        }
    }
}

/// What a list holds after an insertion: what it held, and the new path.
proof fn lemma_inserted_holds(sorted: Seq<Seq<char>>, item: Seq<char>)
    ensures
        forall|x: Seq<char>| #[trigger]
            inserted(sorted, item).contains(x) ==> x == item || sorted.contains(x),
    decreases sorted.len(),
{
    let r = inserted(sorted, item);
    assert forall|x: Seq<char>| #[trigger] r.contains(x) implies x == item || sorted.contains(
        x,
    ) by {
        let k = choose|k: int| 0 <= k < r.len() && r[k] == x;
        if sorted.len() == 0 {
        } else if crate::path::byte_len(sorted.last()) >= crate::path::byte_len(item) {
            if k < sorted.len() {
                assert(sorted[k] == x);
            }
        } else {
            let before = sorted.drop_last();
            let inner = inserted(before, item);
            lemma_inserted_holds(before, item);
            if k < inner.len() {
                assert(inner[k] == x);
                assert(inner.contains(x));
                if x != item {
                    let m = choose|m: int| 0 <= m < before.len() && before[m] == x;
                    assert(sorted[m] == x);
                }
            } else {
                assert(sorted[sorted.len() - 1] == x);
            }
        }
    }
}

/// While the renamings are carried out in order, every source whose turn
/// has not come is where it was.
proof fn lemma_sources_remain(tree: Set<Seq<char>>, plan: Seq<RenameView>, k: int)
    requires
        0 <= k <= plan.len(),
        forall|i: int| 0 <= i < plan.len() ==> tree.contains((#[trigger] plan[i]).from),
        forall|i: int, j: int|
            0 <= i < plan.len() && 0 <= j < plan.len() && i != j ==> (#[trigger] plan[i]).from != (
            #[trigger] plan[j]).from,
        forall|i: int, j: int|
            0 <= i < plan.len() && 0 <= j < plan.len() && lies_under(
                (#[trigger] plan[i]).from,
                (#[trigger] plan[j]).from,
            ) ==> i < j,
    ensures
        forall|j: int|
            k <= j < plan.len() ==> tree_after(tree, plan.take(k)).contains(
                (#[trigger] plan[j]).from,
            ),
    decreases k,
{
    if k == 0 {
        assert(plan.take(0).len() == 0);
    } else {
        lemma_sources_remain(tree, plan, k - 1);
        let done = plan.take(k);
        assert(done.drop_last() =~= plan.take(k - 1));
        assert(done.last() == plan[k - 1]);
        let prior = tree_after(tree, plan.take(k - 1));
        let op = plan[k - 1];
        assert forall|j: int| k <= j < plan.len() implies tree_after(tree, done).contains(
            (#[trigger] plan[j]).from,
        ) by {
            let p = plan[j].from;
            assert(prior.contains(p));
            assert(p != op.from);
            assert(!lies_under(p, op.from));
            assert(moved(p, op.from, op.to) == p);
        }
    }
}

/// Where the path `p` is once the renamings `ops` have been carried out,
/// one after the other.
pub open spec fn place_after(p: Seq<char>, ops: Seq<RenameView>) -> Seq<char>
    decreases ops.len(),
{
    if ops.len() == 0 {
        p
    } else {
        moved(place_after(p, ops.drop_last()), ops.last().from, ops.last().to)
    }
}

/// The tree after the renamings holds every path of the tree, at the
/// place where the renamings have put it.
pub proof fn lemma_tree_after_holds_places(
    tree: Set<Seq<char>>,
    ops: Seq<RenameView>,
    p: Seq<char>,
)
    requires
        tree.contains(p),
    ensures
        tree_after(tree, ops).contains(place_after(p, ops)),
    decreases ops.len(),
{
    if ops.len() > 0 {
        lemma_tree_after_holds_places(tree, ops.drop_last(), p);
    }
}

/// A path that is moved with a directory above it keeps its final name.
pub proof fn lemma_moved_below_keeps_name(p: Seq<char>, from: Seq<char>, to: Seq<char>)
    requires
        lies_under(p, from),
    ensures
        file_name(moved(p, from, to)) == file_name(p),
{
    let n = from.len() as int;
    let s = p.skip(n);
    let q = to + s;
    lemma_last_position(p, '/');
    let k = last_position(p, '/');
    assert(k >= n) by {
        if k < n {
            assert(p[n] == '/');
        }
    }
    assert forall|j: int| to.len() + (k - n) < j < q.len() implies q[j] != '/' by {
        assert(q[j] == s[j - to.len()]);
        assert(s[j - to.len()] == p[j - to.len() + n]);
    }
    assert(q[to.len() + (k - n)] == s[k - n]);
    assert(s[k - n] == p[k]);
    lemma_last_position_is(q, '/', to.len() + (k - n));
    assert(q.skip(to.len() + (k - n) + 1) =~= p.skip(k + 1));
}

/// The place and the name of one path while the renamings are carried
/// out: a path that is to be renamed stays where it is until its turn
/// comes and has its new name from then on; any other path keeps its name.
proof fn lemma_place_during(
    plan: Seq<RenameView>,
    e: Seq<char>,
    old: Seq<char>,
    new: Seq<char>,
    k: int,
)
    requires
        0 <= k <= plan.len(),
        lacks(new, '/'),
        forall|i: int|
            0 <= i < plan.len() ==> {
                &&& (#[trigger] plan[i]).to == renamed_path(plan[i].from, old, new)
                &&& is_renameable(plan[i].from, old)
                &&& !is_renameable(renamed_path(plan[i].from, old, new), old)
            },
        forall|i: int, j: int|
            0 <= i < plan.len() && 0 <= j < plan.len() && i != j ==> (#[trigger] plan[i]).from != (
            #[trigger] plan[j]).from,
        forall|i: int, j: int|
            0 <= i < plan.len() && 0 <= j < plan.len() && lies_under(
                (#[trigger] plan[i]).from,
                (#[trigger] plan[j]).from,
            ) ==> i < j,
        is_renameable(e, old) ==> exists|t: int| 0 <= t < plan.len() && (#[trigger] plan[t]).from == e,
    ensures
        !is_renameable(e, old) ==> file_name(place_after(e, plan.take(k))) == file_name(e),
        forall|t: int|
            0 <= t < plan.len() && (#[trigger] plan[t]).from == e ==> {
                &&& k <= t ==> place_after(e, plan.take(k)) == e
                &&& k > t ==> file_name(place_after(e, plan.take(k))) == replaced(
                    file_name(e),
                    old,
                    new,
                )
            },
    decreases k,
{
    if k == 0 {
        assert(plan.take(0).len() == 0);
    } else {
        lemma_place_during(plan, e, old, new, k - 1);
        let done = plan.take(k);
        assert(done.drop_last() =~= plan.take(k - 1));
        assert(done.last() == plan[k - 1]);
        let op = plan[k - 1];
        let q = op.from;
        let at = place_after(e, plan.take(k - 1));
        let now = place_after(e, done);
        assert(now == moved(at, q, op.to));
        lemma_renaming_stays_in_directory(q, old, new);
        if lies_under(at, q) {
            lemma_moved_below_keeps_name(at, q, op.to);
        }
        if !is_renameable(e, old) {
            if at == q {
                assert(file_name(e) == file_name(q));
            }
        }
        assert forall|t: int| 0 <= t < plan.len() && (#[trigger] plan[t]).from == e implies (k
            <= t ==> now == e) && (k > t ==> file_name(now) == replaced(
            file_name(e),
            old,
            new,
        )) by {
            if k <= t {
                assert(at == e);
                assert(plan[t].from != plan[k - 1].from);
                assert(!lies_under(plan[t].from, plan[k - 1].from));
            } else if t == k - 1 {
                assert(at == e);
                assert(at.skip(at.len() as int) =~= Seq::<char>::empty());
                assert(now =~= op.to);
            } else {
                assert(file_name(at) == replaced(file_name(e), old, new));
                lemma_renaming_stays_in_directory(e, old, new);
                assert(!is_renameable(renamed_path(plan[t].from, old, new), old));
                if at == q {
                    assert(file_name(at) == file_name(renamed_path(e, old, new)));
                    assert(is_renameable(q, old));
                }
            }
        }
    }
}

/// The names that the renaming leaves. Where the listing names each path
/// once, the new name holds no separator and no renamed path is itself to
/// be renamed, every entry whose name was to change has its new name in
/// the end, and every other entry the name it had.
pub proof fn lemma_names_after_renaming(
    entries: Seq<Seq<char>>,
    old: Seq<char>,
    new: Seq<char>,
    i: int,
)
    requires
        entries.no_duplicates(),
        lacks(new, '/'),
        forall|m: int|
            0 <= m < entries.len() && is_renameable(entries[m], old) ==> !is_renameable(
                renamed_path(#[trigger] entries[m], old, new),
                old,
            ),
        0 <= i < entries.len(),
    ensures
        file_name(place_after(entries[i], rename_plan(entries, old, new))) == (if is_renameable(
            entries[i],
            old,
        ) {
            replaced(file_name(entries[i]), old, new)
        } else {
            file_name(entries[i])
        }),
{
    let plan = rename_plan(entries, old, new);
    let items = items_to_rename(entries, old);
    let order = longest_first(items);
    let e = entries[i];
    lemma_items_are_distinct(entries, old);
    lemma_order_is_distinct(items);
    lemma_descendants_first(entries, old, new);
    crate::rename::lemma_plan_sources(entries, old, new);
    assert forall|a: int, b: int|
        0 <= a < plan.len() && 0 <= b < plan.len() && a != b implies (#[trigger] plan[a]).from != (
    #[trigger] plan[b]).from by {
        assert(order[a] != order[b]);
    }
    assert forall|a: int| 0 <= a < plan.len() implies !is_renameable(
        renamed_path((#[trigger] plan[a]).from, old, new),
        old,
    ) by {
        assert(entries.contains(plan[a].from));
        let m = choose|m: int| 0 <= m < entries.len() && entries[m] == plan[a].from;
        assert(!is_renameable(renamed_path(entries[m], old, new), old));
    }
    assert(entries.contains(e));
    lemma_place_during(plan, e, old, new, plan.len() as int);
    assert(plan.take(plan.len() as int) =~= plan);
    if is_renameable(e, old) {
        let t = choose|t: int| 0 <= t < plan.len() && (#[trigger] plan[t]).from == e;
        assert(plan[t].from == e);
    }
}

/// The places of the entries `entries` once they have been renamed.
pub open spec fn places_after_renaming(
    entries: Seq<Seq<char>>,
    old: Seq<char>,
    new: Seq<char>,
) -> Seq<Seq<char>> {
    Seq::new(entries.len(), |i: int| place_after(entries[i], rename_plan(entries, old, new)))
}

/// Renaming is done in one pass: on the tree that it leaves, there is
/// nothing left to rename. This holds where the listing names each path
/// once, the new name holds no separator, and no renamed path is itself
/// to be renamed, as one is where the new name holds the old one.
pub proof fn lemma_renaming_twice_is_renaming_once(
    entries: Seq<Seq<char>>,
    old: Seq<char>,
    new: Seq<char>,
)
    requires
        entries.no_duplicates(),
        lacks(new, '/'),
        forall|m: int|
            0 <= m < entries.len() && is_renameable(entries[m], old) ==> !is_renameable(
                renamed_path(#[trigger] entries[m], old, new),
                old,
            ),
    ensures
        rename_plan(places_after_renaming(entries, old, new), old, new).len() == 0,
{
    let after = places_after_renaming(entries, old, new);
    assert forall|i: int| 0 <= i < entries.len() implies file_name(#[trigger] after[i]) == (
    if is_renameable(entries[i], old) {
        file_name(renamed_path(entries[i], old, new))
    } else {
        file_name(entries[i])
    }) by {
        lemma_names_after_renaming(entries, old, new, i);
        lemma_renaming_stays_in_directory(entries[i], old, new);
    }
    crate::rename::lemma_second_pass_is_empty(entries, after, old, new);
}

/// No renaming misses its source. Where the listing names paths of the
/// tree, each once, every renaming of the plan finds the path it is to
/// rename when its turn comes, and leaves the renamed path in the tree.
pub proof fn lemma_every_source_is_found(
    tree: Set<Seq<char>>,
    entries: Seq<Seq<char>>,
    old: Seq<char>,
    new: Seq<char>,
)
    requires
        entries.no_duplicates(),
        forall|i: int| 0 <= i < entries.len() ==> tree.contains(entries[i]),
    ensures
        forall|k: int|
            0 <= k < rename_plan(entries, old, new).len() ==> {
                &&& tree_after(tree, rename_plan(entries, old, new).take(k)).contains(
                    (#[trigger] rename_plan(entries, old, new)[k]).from,
                )
                &&& tree_after(tree, rename_plan(entries, old, new).take(k + 1)).contains(
                    rename_plan(entries, old, new)[k].to,
                )
            },
{
    let plan = rename_plan(entries, old, new);
    let items = items_to_rename(entries, old);
    let order = longest_first(items);
    lemma_items_are_distinct(entries, old);
    lemma_order_is_distinct(items);
    lemma_descendants_first(entries, old, new);
    crate::rename::lemma_plan_sources(entries, old, new);
    assert forall|i: int| 0 <= i < plan.len() implies tree.contains((#[trigger] plan[i]).from) by {
        assert(entries.contains(plan[i].from));
        let m = choose|m: int| 0 <= m < entries.len() && entries[m] == plan[i].from;
        assert(tree.contains(entries[m]));
    }
    assert forall|i: int, j: int|
        0 <= i < plan.len() && 0 <= j < plan.len() && i != j implies (#[trigger] plan[i]).from != (
    #[trigger] plan[j]).from by {
        assert(order[i] != order[j]);
    }
    assert forall|k: int| 0 <= k < plan.len() implies tree_after(tree, plan.take(k)).contains(
        (#[trigger] plan[k]).from,
    ) && tree_after(tree, plan.take(k + 1)).contains(plan[k].to) by {
        lemma_sources_remain(tree, plan, k);
        let done = plan.take(k + 1);
        assert(done.drop_last() =~= plan.take(k));
        assert(done.last() == plan[k]);
        let p = plan[k].from;
        assert(p.skip(p.len() as int) =~= Seq::<char>::empty());
        assert(moved(p, plan[k].from, plan[k].to) =~= plan[k].to);
    }
}

} // verus!
