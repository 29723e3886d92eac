//! Renaming the files and directories of the copy whose name holds the old
//! project name.
//!
//! The paths are collected first and renamed afterwards, the longest path
//! first: what lies inside a directory is renamed before the directory is.

use vstd::prelude::*;
use crate::path::file_name;
use crate::path::with_file_name;
use crate::path::is_hidden;
use crate::path::byte_len;
use crate::path::lies_under;
use crate::path::byte_len_of;
use crate::path::file_name_chars;
use crate::path::with_file_name_chars;
use crate::path::lemma_deeper_is_longer;
use crate::path::parent;
use crate::path::directory_prefix;
use crate::path::lemma_split;
use crate::path::lemma_with_file_name;
use crate::text::lemma_replaced_without_char;
use crate::text::lacks;
use crate::run::Xcr;
use crate::text::occurs_in;
use crate::text::replaced;
use crate::text::texts;
use crate::text::to_chars;
use crate::text::from_chars;
use crate::text::contains_chars;
use crate::text::replace_chars;

verus! {

/// One renaming: the path that is renamed and the path that it gets.
#[derive(Debug)]
pub struct RenameOp {
    pub from: String,
    pub to: String,
}

/// One renaming, as plain text.
pub struct RenameView {
    pub from: Seq<char>,
    pub to: Seq<char>,
}

impl View for RenameOp {
    type V = RenameView;

    open spec fn view(&self) -> RenameView {
        RenameView { from: self.from@, to: self.to@ }
    }
}

/// The renamings of a list, as plain text.
pub open spec fn op_views(v: Seq<RenameOp>) -> Seq<RenameView> {
    Seq::new(v.len(), |i: int| v[i]@)
}

/// A path is renamed where its final name holds the old name and is not
/// hidden.
pub open spec fn is_renameable(path: Seq<char>, old: Seq<char>) -> bool {
    occurs_in(file_name(path), old) && !is_hidden(file_name(path))
}

/// The paths of `entries` that are renamed, in the order of `entries`.
pub open spec fn items_to_rename(entries: Seq<Seq<char>>, old: Seq<char>) -> Seq<Seq<char>>
    decreases entries.len(),
{
    if entries.len() == 0 {
        Seq::empty()
    } else {
        let rest = items_to_rename(entries.drop_last(), old);
        if is_renameable(entries.last(), old) {
            rest.push(entries.last())
        } else {
            rest
        }
    }
}

/// `sorted` with `item` put behind every path that takes at least as many
/// bytes.
pub open spec fn inserted(sorted: Seq<Seq<char>>, item: Seq<char>) -> Seq<Seq<char>>
    decreases sorted.len(),
{
    if sorted.len() == 0 {
        seq![item]
    } else if byte_len(sorted.last()) >= byte_len(item) {
        sorted.push(item)
    } else {
        inserted(sorted.drop_last(), item).push(sorted.last())
    }
}

/// `items` in the order in which they are renamed: the path that takes the
/// most bytes first, and paths of one length in the order they had.
pub open spec fn longest_first(items: Seq<Seq<char>>) -> Seq<Seq<char>>
    decreases items.len(),
{
    if items.len() == 0 {
        Seq::empty()
    } else {
        inserted(longest_first(items.drop_last()), items.last())
    }
}

/// The path that `path` gets: in its final name, and nowhere else, the old
/// name gives way to the new one.
pub open spec fn renamed_path(path: Seq<char>, old: Seq<char>, new: Seq<char>) -> Seq<char> {
    with_file_name(path, replaced(file_name(path), old, new))
}

/// The renamings for the tree that `entries` lists, in the order in which
/// they are carried out.
pub open spec fn rename_plan(entries: Seq<Seq<char>>, old: Seq<char>, new: Seq<char>) -> Seq<
    RenameView,
> {
    let order = longest_first(items_to_rename(entries, old));
    Seq::new(
        order.len(),
        |i: int| RenameView { from: order[i], to: renamed_path(order[i], old, new) },
    )
}

/// Inserting at the place behind the last path that is at least as long.
proof fn lemma_inserted_at(sorted: Seq<Seq<char>>, item: Seq<char>, pos: int)
    requires
        0 <= pos <= sorted.len(),
        forall|j: int| pos <= j < sorted.len() ==> byte_len(sorted[j]) < byte_len(item),
        pos > 0 ==> byte_len(sorted[pos - 1]) >= byte_len(item),
    ensures
        inserted(sorted, item) == sorted.insert(pos, item),
    decreases sorted.len(),
{
    if sorted.len() == 0 {
        assert(sorted.insert(pos, item) =~= seq![item]);
    } else if pos == sorted.len() {
        assert(sorted.insert(pos, item) =~= sorted.push(item));
    } else {
        let before = sorted.drop_last();
        assert forall|j: int| pos <= j < before.len() implies byte_len(before[j]) < byte_len(
            item,
        ) by {
            assert(before[j] == sorted[j]);
        }
        if pos > 0 {
            assert(before[pos - 1] == sorted[pos - 1]);
        }
        lemma_inserted_at(before, item, pos);
        assert(before.insert(pos, item).push(sorted.last()) =~= sorted.insert(pos, item));
    }
}

/// Where an inserted path lands, and that the others keep their order.
proof fn lemma_inserted(sorted: Seq<Seq<char>>, item: Seq<char>) -> (pos: int)
    ensures
        0 <= pos <= sorted.len(),
        inserted(sorted, item) == sorted.insert(pos, item),
        forall|j: int| pos <= j < sorted.len() ==> byte_len(sorted[j]) < byte_len(item),
        pos > 0 ==> byte_len(sorted[pos - 1]) >= byte_len(item),
    decreases sorted.len(),
{
    if sorted.len() == 0 {
        assert(sorted.insert(0, item) =~= seq![item]);
        0
    } else if byte_len(sorted.last()) >= byte_len(item) {
        assert(sorted.insert(sorted.len() as int, item) =~= sorted.push(item));
        sorted.len() as int
    } else {
        let before = sorted.drop_last();
        let pos = lemma_inserted(before, item);
        assert(before.insert(pos, item).push(sorted.last()) =~= sorted.insert(pos, item));
        assert forall|j: int| pos <= j < sorted.len() implies byte_len(sorted[j]) < byte_len(
            item,
        ) by {
            if j < before.len() {
                assert(before[j] == sorted[j]);
            }
        }
        if pos > 0 {
            assert(before[pos - 1] == sorted[pos - 1]);
        }
        pos
    }
}

/// The order of renaming holds each path as often as the list does: none
/// is lost and none is added.
pub proof fn lemma_longest_first_keeps_items(items: Seq<Seq<char>>)
    ensures
        longest_first(items).to_multiset() == items.to_multiset(),
        longest_first(items).len() == items.len(),
    decreases items.len(),
{
    broadcast use vstd::seq_lib::group_to_multiset_ensures;

    if items.len() == 0 {
    } else {
        let before = items.drop_last();
        lemma_longest_first_keeps_items(before);
        let sorted = longest_first(before);
        let pos = lemma_inserted(sorted, items.last());
        assert(before.push(items.last()) =~= items);
        assert(sorted.insert(pos, items.last()).to_multiset() =~= sorted.to_multiset().insert(
            items.last(),
        ));
        assert(items.to_multiset() =~= before.to_multiset().insert(items.last()));
    }
}

/// In the order of renaming no path takes more bytes than one before it.
pub proof fn lemma_longest_first_is_ordered(items: Seq<Seq<char>>)
    ensures
        forall|i: int, j: int|
            0 <= i < j < longest_first(items).len() ==> byte_len(longest_first(items)[i])
                >= byte_len(longest_first(items)[j]),
    decreases items.len(),
{
    if items.len() > 0 {
        let before = items.drop_last();
        lemma_longest_first_is_ordered(before);
        let sorted = longest_first(before);
        let item = items.last();
        let pos = lemma_inserted(sorted, item);
        let r = longest_first(items);
        assert(r == sorted.insert(pos, item));
        assert forall|i: int, j: int| 0 <= i < j < r.len() implies byte_len(r[i]) >= byte_len(
            r[j],
        ) by {
            let a = if i < pos {
                i
            } else {
                i - 1
            };
            let b = if j < pos {
                j
            } else {
                j - 1
            };
            if i == pos {
                assert(r[j] == sorted[j - 1]);
            } else if j == pos {
                assert(r[i] == sorted[i]);
                if pos > 0 {
                    assert(byte_len(sorted[i]) >= byte_len(sorted[pos - 1]) || i == pos - 1);
                }
            } else {
                assert(r[i] == sorted[a]);
                assert(r[j] == sorted[b]);
            }
        }
    }
}

/// What is renamed is an entry whose final name holds the old name and is
/// not hidden; every such entry is renamed.
pub proof fn lemma_items_to_rename(entries: Seq<Seq<char>>, old: Seq<char>)
    ensures
        forall|x: Seq<char>| #[trigger]
            items_to_rename(entries, old).contains(x) <==> entries.contains(x) && is_renameable(
                x,
                old,
            ),
        items_to_rename(entries, old).len() <= entries.len(),
    decreases entries.len(),
{
    let items = items_to_rename(entries, old);
    if entries.len() > 0 {
        let before = entries.drop_last();
        let last = entries.last();
        lemma_items_to_rename(before, old);
        let rest = items_to_rename(before, old);
        assert forall|x: Seq<char>| #[trigger]
            items.contains(x) <==> entries.contains(x) && is_renameable(x, old) by {
            if items.contains(x) {
                let k = choose|k: int| 0 <= k < items.len() && items[k] == x;
                if k < rest.len() {
                    assert(rest[k] == x);
                    assert(rest.contains(x));
                    let m = choose|m: int| 0 <= m < before.len() && before[m] == x;
                    assert(entries[m] == x);
                } else {
                    assert(x == last);
                    assert(entries[entries.len() - 1] == x);
                }
            }
            if entries.contains(x) && is_renameable(x, old) {
                let m = choose|m: int| 0 <= m < entries.len() && entries[m] == x;
                if m < before.len() {
                    assert(before[m] == x);
                    assert(before.contains(x));
                    assert(rest.contains(x));
                    let k = choose|k: int| 0 <= k < rest.len() && rest[k] == x;
                    assert(items[k] == x);
                } else {
                    assert(items[items.len() - 1] == x);
                }
            }
        }
    }
}

/// What is renamed, and nothing else: every renaming starts from an entry
/// whose final name holds the old name and is not hidden, and every such
/// entry is renamed.
pub proof fn lemma_plan_sources(entries: Seq<Seq<char>>, old: Seq<char>, new: Seq<char>)
    ensures
        rename_plan(entries, old, new).len() == items_to_rename(entries, old).len(),
        forall|k: int|
            0 <= k < rename_plan(entries, old, new).len() ==> {
                &&& entries.contains((#[trigger] rename_plan(entries, old, new)[k]).from)
                &&& is_renameable(rename_plan(entries, old, new)[k].from, old)
                &&& rename_plan(entries, old, new)[k].to == renamed_path(
                    rename_plan(entries, old, new)[k].from,
                    old,
                    new,
                )
            },
        forall|x: Seq<char>|
            entries.contains(x) && is_renameable(x, old) ==> exists|k: int|
                0 <= k < rename_plan(entries, old, new).len() && (#[trigger] rename_plan(
                    entries,
                    old,
                    new,
                )[k]).from == x,
{
    broadcast use vstd::seq_lib::group_to_multiset_ensures;

    let items = items_to_rename(entries, old);
    let order = longest_first(items);
    let plan = rename_plan(entries, old, new);
    lemma_items_to_rename(entries, old);
    lemma_longest_first_keeps_items(items);
    assert forall|k: int| 0 <= k < plan.len() implies entries.contains(
        (#[trigger] plan[k]).from,
    ) && is_renameable(plan[k].from, old) by {
        assert(order.contains(order[k]));
        assert(order.to_multiset().count(order[k]) > 0);
        assert(items.contains(order[k]));
    }
    assert forall|x: Seq<char>| entries.contains(x) && is_renameable(x, old) implies exists|
        k: int,
    |
        0 <= k < plan.len() && (#[trigger] plan[k]).from == x by {
        assert(items.contains(x));
        assert(items.to_multiset().count(x) > 0);
        assert(order.contains(x));
        let k = choose|k: int| 0 <= k < order.len() && order[k] == x;
        assert(plan[k].from == x);
    }
}

/// What lies inside a directory is renamed before the directory is: a
/// renaming never has its source below the source of an earlier one, so no
/// source is moved away before its turn comes.
pub proof fn lemma_descendants_first(entries: Seq<Seq<char>>, old: Seq<char>, new: Seq<char>)
    ensures
        forall|i: int, j: int|
            0 <= i < rename_plan(entries, old, new).len() && 0 <= j < rename_plan(
                entries,
                old,
                new,
            ).len() && lies_under(
                (#[trigger] rename_plan(entries, old, new)[i]).from,
                (#[trigger] rename_plan(entries, old, new)[j]).from,
            ) ==> i < j,
{
    let items = items_to_rename(entries, old);
    let order = longest_first(items);
    let plan = rename_plan(entries, old, new);
    lemma_longest_first_is_ordered(items);
    assert forall|i: int, j: int|
        0 <= i < plan.len() && 0 <= j < plan.len() && lies_under(
            (#[trigger] plan[i]).from,
            (#[trigger] plan[j]).from,
        ) implies i < j by {
        lemma_deeper_is_longer(order[i], order[j]);
        if j < i {
            assert(byte_len(order[j]) >= byte_len(order[i]));
        }
    }
}

/// The renamings go from the longest source to the shortest.
pub proof fn lemma_plan_is_ordered(entries: Seq<Seq<char>>, old: Seq<char>, new: Seq<char>)
    ensures
        forall|i: int, j: int|
            0 <= i < j < rename_plan(entries, old, new).len() ==> byte_len(
                (#[trigger] rename_plan(entries, old, new)[i]).from,
            ) >= byte_len((#[trigger] rename_plan(entries, old, new)[j]).from),
{
    lemma_longest_first_is_ordered(items_to_rename(entries, old));
}

/// An entry with a hidden name is left as it is, whatever its name holds.
pub proof fn lemma_hidden_entries_stay(entries: Seq<Seq<char>>, old: Seq<char>, new: Seq<char>)
    ensures
        forall|k: int|
            0 <= k < rename_plan(entries, old, new).len() ==> !is_hidden(
                file_name((#[trigger] rename_plan(entries, old, new)[k]).from),
            ),
{
    lemma_plan_sources(entries, old, new);
}

/// Where no entry is to be renamed, there is nothing to do.
pub proof fn lemma_nothing_to_rename(entries: Seq<Seq<char>>, old: Seq<char>, new: Seq<char>)
    requires
        forall|i: int| 0 <= i < entries.len() ==> !is_renameable(entries[i], old),
    ensures
        rename_plan(entries, old, new).len() == 0,
{
    lemma_items_to_rename(entries, old);
    lemma_longest_first_keeps_items(items_to_rename(entries, old));
    let items = items_to_rename(entries, old);
    if items.len() > 0 {
        assert(items.contains(items[0]));
        let m = choose|m: int| 0 <= m < entries.len() && entries[m] == items[0];
        assert(!is_renameable(entries[m], old));
    }
}

/// Renaming once more does nothing. `after` lists a tree whose final names
/// are those that the renaming of `entries` leaves; where none of the new
/// names is itself to be renamed, the plan for `after` is empty.
pub proof fn lemma_second_pass_is_empty(
    entries: Seq<Seq<char>>,
    after: Seq<Seq<char>>,
    old: Seq<char>,
    new: Seq<char>,
)
    requires
        after.len() == entries.len(),
        forall|i: int|
            0 <= i < entries.len() ==> file_name(#[trigger] after[i]) == (if is_renameable(
                entries[i],
                old,
            ) {
                file_name(renamed_path(entries[i], old, new))
            } else {
                file_name(entries[i])
            }),
        forall|i: int|
            0 <= i < entries.len() && is_renameable(entries[i], old) ==> !is_renameable(
                renamed_path(#[trigger] entries[i], old, new),
                old,
            ),
    ensures
        rename_plan(after, old, new).len() == 0,
{
    assert forall|i: int| 0 <= i < after.len() implies !is_renameable(after[i], old) by {
        assert(file_name(after[i]) == (if is_renameable(entries[i], old) {
            file_name(renamed_path(entries[i], old, new))
        } else {
            file_name(entries[i])
        }));
    }
    lemma_nothing_to_rename(after, old, new);
}

/// A renaming changes the final name only: where the new name holds no
/// separator, the renamed path lies in the directory in which it lay.
pub proof fn lemma_renaming_stays_in_directory(path: Seq<char>, old: Seq<char>, new: Seq<char>)
    requires
        lacks(new, '/'),
    ensures
        parent(renamed_path(path, old, new)) == parent(path),
        directory_prefix(renamed_path(path, old, new)) == directory_prefix(path),
        file_name(renamed_path(path, old, new)) == replaced(file_name(path), old, new),
{
    lemma_split(path);
    lemma_replaced_without_char(file_name(path), old, new, '/');
    lemma_with_file_name(path, replaced(file_name(path), old, new));
}

/// Whether the path `path` is renamed.
pub fn renameable(path: &str, old: &Vec<char>) -> (r: bool)
    ensures
        r == is_renameable(path@, old@),
{
    let p = to_chars(path);
    let name = file_name_chars(&p);
    contains_chars(&name, old) && !(name.len() > 0 && name[0] == '.')
}

/// The path that `path` gets when it is renamed.
pub fn rename_path(path: &str, old: &Vec<char>, new: &Vec<char>) -> (r: String)
    ensures
        r@ == renamed_path(path@, old@, new@),
{
    let p = to_chars(path);
    let name = file_name_chars(&p);
    let new_name = replace_chars(&name, old, new);
    let out = with_file_name_chars(&p, &new_name);
    from_chars(&out)
}

/// `items` in the order in which they are renamed.
pub fn sort_longest_first(items: &Vec<String>) -> (r: Vec<String>)
    ensures
        texts(r@) == longest_first(texts(items@)),
{
    let mut out: Vec<String> = Vec::new();
    let mut i: usize = 0;
    assert(texts(items@.take(0)) =~= Seq::<Seq<char>>::empty());
    assert(texts(out@) =~= Seq::<Seq<char>>::empty());
    while i < items.len()
        invariant
            i <= items.len(),
            out.len() == i,
            texts(out@) == longest_first(texts(items@.take(i as int))),
        decreases items.len() - i,
    {
        let ghost seen = texts(items@.take(i as int));
        let ghost next = texts(items@.take(i + 1));
        let ghost sorted = texts(out@);
        assert(next.drop_last() =~= seen);
        assert(next.last() == items@[i as int]@);
        let item = items[i].clone();
        let len = byte_len_of(item.as_str());
        let mut pos: usize = out.len();
        while pos > 0 && byte_len_of(out[pos - 1].as_str()) < len
            invariant
                pos <= out.len(),
                len == byte_len(item@),
                forall|j: int| pos <= j < out.len() ==> byte_len(out@[j]@) < byte_len(item@),
            decreases pos,
        {
            pos -= 1;
        }
        proof {
            assert forall|j: int| pos <= j < sorted.len() implies byte_len(sorted[j]) < byte_len(
                item@,
            ) by {
                assert(sorted[j] == out@[j]@);
            }
            if pos > 0 {
                assert(sorted[pos - 1] == out@[pos - 1]@);
            }
            lemma_inserted_at(sorted, item@, pos as int);
        }
        out.insert(pos, item);
        assert(texts(out@) =~= sorted.insert(pos as int, item@));
        i += 1;
    }
    assert(items@.take(i as int) =~= items@);
    out
}

impl Xcr {
    /// The paths of `entries` that are to be renamed, in the order of
    /// `entries`: those whose final name holds the old name and is not
    /// hidden.
    pub fn collect_items_to_rename(&self, entries: &Vec<String>) -> (r: Vec<String>)
        ensures
            texts(r@) == items_to_rename(texts(entries@), self.config_view().old_name),
    {
        let old = to_chars(self.config().old_name().as_str());
        let mut out: Vec<String> = Vec::new();
        let mut i: usize = 0;
        assert(texts(entries@.take(0)) =~= Seq::<Seq<char>>::empty());
        assert(texts(out@) =~= Seq::<Seq<char>>::empty());
        while i < entries.len()
            invariant
                i <= entries.len(),
                old@ == self.config_view().old_name,
                texts(out@) == items_to_rename(texts(entries@.take(i as int)), old@),
            decreases entries.len() - i,
        {
            let ghost seen = texts(entries@.take(i as int));
            let ghost next = texts(entries@.take(i + 1));
            let ghost kept = texts(out@);
            assert(next.drop_last() =~= seen);
            assert(next.last() == entries@[i as int]@);
            if renameable(entries[i].as_str(), &old) {
                out.push(entries[i].clone());
                assert(texts(out@) =~= kept.push(entries@[i as int]@));
            }
            i += 1;
        }
        assert(entries@.take(i as int) =~= entries@);
        out
    }

    /// The renamings for the tree that `entries` lists, in the order in
    /// which they are to be carried out: the longest path first.
    pub fn rename_files_in_new_project(&self, entries: &Vec<String>) -> (r: Vec<RenameOp>)
        ensures
            op_views(r@) == rename_plan(
                texts(entries@),
                self.config_view().old_name,
                self.config_view().new_name,
            ),
    {
        let old = to_chars(self.config().old_name().as_str());
        let new = to_chars(self.config().new_name().as_str());
        let items = self.collect_items_to_rename(entries);
        let order = sort_longest_first(&items);
        let mut out: Vec<RenameOp> = Vec::new();
        let mut i: usize = 0;
        while i < order.len()
            invariant
                i <= order.len(),
                out.len() == i,
                forall|j: int|
                    0 <= j < i ==> (#[trigger] out@[j])@ == (RenameView {
                        from: order@[j]@,
                        to: renamed_path(order@[j]@, old@, new@),
                    }),
            decreases order.len() - i,
        {
            let from = order[i].clone();
            let to = rename_path(order[i].as_str(), &old, &new);
            out.push(RenameOp { from, to });
            i += 1;
        }
        assert(op_views(out@) =~= rename_plan(texts(entries@), old@, new@)) by {
            let plan = rename_plan(texts(entries@), old@, new@);
            assert(plan.len() == out.len());
            assert forall|j: int| 0 <= j < out.len() implies op_views(out@)[j] == plan[j] by {
                assert(texts(order@)[j] == order@[j]@);
            }
        }
        out
    }
}

} // verus!
