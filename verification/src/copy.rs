//! Copying the project: what is made and copied where, for a listing of the
//! source tree.

use vstd::prelude::*;
use crate::path::joined;
use crate::path::lies_under;
use crate::path::join_chars;
use crate::path::is_under_chars;
use crate::run::Xcr;
use crate::text::to_chars;
use crate::text::from_chars;
use crate::text::copy_range;

verus! {

/// An entry of the source tree: its path, and whether it is a directory.
#[derive(Debug)]
pub struct Entry {
    pub path: String,
    pub is_dir: bool,
}

/// An entry, as plain values.
pub struct EntryView {
    pub path: Seq<char>,
    pub is_dir: bool,
}

impl View for Entry {
    type V = EntryView;

    open spec fn view(&self) -> EntryView {
        EntryView { path: self.path@, is_dir: self.is_dir }
    }
}

/// One step of the copy: the directory `to` is made, or the file `from` is
/// copied to `to`.
#[derive(Debug)]
pub struct CopyOp {
    pub from: String,
    pub to: String,
    pub is_dir: bool,
}

/// One step of the copy, as plain values.
pub struct CopyView {
    pub from: Seq<char>,
    pub to: Seq<char>,
    pub is_dir: bool,
}

impl View for CopyOp {
    type V = CopyView;

    open spec fn view(&self) -> CopyView {
        CopyView { from: self.from@, to: self.to@, is_dir: self.is_dir }
    }
}

/// Why nothing is copied.
#[derive(Debug, Clone, Copy, PartialEq, Eq, Structural)]
pub enum CopyError {
    /// The destination is there already.
    TargetExists,
    /// The entry at this position of the listing is not below the source.
    OutsideSource(usize),
}

/// The entries of a list, as plain values.
pub open spec fn entry_views(v: Seq<Entry>) -> Seq<EntryView> {
    Seq::new(v.len(), |i: int| v[i]@)
}

/// The steps of a list, as plain values.
pub open spec fn copy_views(v: Seq<CopyOp>) -> Seq<CopyView> {
    Seq::new(v.len(), |i: int| v[i]@)
}

/// Where the entry at `path`, below `source`, goes: to the same place
/// below `destination`.
pub open spec fn destination_of(path: Seq<char>, source: Seq<char>, destination: Seq<char>) -> Seq<
    char,
> {
    joined(destination, path.skip(source.len() as int + 1))
}

/// The step that copies the entry `e`.
pub open spec fn copy_of(e: EntryView, source: Seq<char>, destination: Seq<char>) -> CopyView {
    CopyView {
        from: e.path,
        to: destination_of(e.path, source, destination),
        is_dir: e.is_dir,
    }
}

/// The steps that copy the tree that `entries` lists: one for each entry,
/// in the order of the listing.
pub open spec fn copy_steps(
    entries: Seq<EntryView>,
    source: Seq<char>,
    destination: Seq<char>,
) -> Seq<CopyView> {
    Seq::new(entries.len(), |i: int| copy_of(entries[i], source, destination))
}

/// The whole copy: the destination is made, then each entry is copied.
pub open spec fn copy_plan(
    entries: Seq<EntryView>,
    source: Seq<char>,
    destination: Seq<char>,
) -> Seq<CopyView> {
    seq![CopyView { from: source, to: destination, is_dir: true }] + copy_steps(
        entries,
        source,
        destination,
    )
}

/// The position of the first entry that is not below `source`, or the
/// length of the listing where every entry is.
pub open spec fn first_outside(entries: Seq<EntryView>, source: Seq<char>) -> int
    decreases entries.len(),
{
    if entries.len() == 0 {
        0
    } else if !lies_under(entries[0].path, source) {
        0
    } else {
        1 + first_outside(entries.skip(1), source)
    }
}

/// The number of files among `entries`.
pub open spec fn files_in(entries: Seq<EntryView>) -> nat
    decreases entries.len(),
{
    if entries.len() == 0 {
        0
    } else {
        files_in(entries.drop_last()) + if entries.last().is_dir {
            0nat
        } else {
            1nat
        }
    }
}

/// The number of files that the steps `steps` copy.
pub open spec fn files_copied(steps: Seq<CopyView>) -> nat
    decreases steps.len(),
{
    if steps.len() == 0 {
        0
    } else {
        files_copied(steps.drop_last()) + if steps.last().is_dir {
            0nat
        } else {
            1nat
        }
    }
}

/// What `first_outside` finds: an entry that is not below the source, with
/// none before it.
pub proof fn lemma_first_outside(entries: Seq<EntryView>, source: Seq<char>)
    ensures
        0 <= first_outside(entries, source) <= entries.len(),
        first_outside(entries, source) < entries.len() ==> !lies_under(
            entries[first_outside(entries, source)].path,
            source,
        ),
        forall|j: int|
            0 <= j < first_outside(entries, source) ==> lies_under(
                (#[trigger] entries[j]).path,
                source,
            ),
    decreases entries.len(),
{
    if entries.len() > 0 && lies_under(entries[0].path, source) {
        let t = entries.skip(1);
        lemma_first_outside(t, source);
        assert forall|j: int| 0 <= j < first_outside(entries, source) implies lies_under(
            (#[trigger] entries[j]).path,
            source,
        ) by {
            if j > 0 {
                assert(t[j - 1] == entries[j]);
            }
        }
    }
}

/// The copy is structure-preserving: it copies as many files as the source
/// tree holds, each entry by one step of its own kind, to the place below
/// the destination that it has below the source.
pub proof fn lemma_copy_keeps_files(
    entries: Seq<EntryView>,
    source: Seq<char>,
    destination: Seq<char>,
)
    ensures
        copy_steps(entries, source, destination).len() == entries.len(),
        files_copied(copy_steps(entries, source, destination)) == files_in(entries),
        files_copied(copy_plan(entries, source, destination)) == files_in(entries),
    decreases entries.len(),
{
    let steps = copy_steps(entries, source, destination);
    if entries.len() > 0 {
        let before = entries.drop_last();
        lemma_copy_keeps_files(before, source, destination);
        assert(steps.drop_last() =~= copy_steps(before, source, destination));
    }
    lemma_files_copied_sum(
        seq![CopyView { from: source, to: destination, is_dir: true }],
        steps,
    );
    reveal_with_fuel(files_copied, 2);
}

/// The files that two runs of steps copy are those of the one and those
/// of the other.
pub proof fn lemma_files_copied_sum(a: Seq<CopyView>, b: Seq<CopyView>)
    ensures
        files_copied(a + b) == files_copied(a) + files_copied(b),
    decreases b.len(),
{
    if b.len() == 0 {
        assert(a + b =~= a);
    } else {
        assert((a + b).drop_last() =~= a + b.drop_last());
        assert((a + b).last() == b.last());
        lemma_files_copied_sum(a, b.drop_last());
    }
}

/// Two entries below the source go to two places: nothing is copied over
/// something else.
pub proof fn lemma_destinations_differ(
    a: Seq<char>,
    b: Seq<char>,
    source: Seq<char>,
    destination: Seq<char>,
)
    requires
        lies_under(a, source),
        lies_under(b, source),
        a != b,
    ensures
        destination_of(a, source, destination) != destination_of(b, source, destination),
{
    let ra = a.skip(source.len() as int + 1);
    let rb = b.skip(source.len() as int + 1);
    let da = destination_of(a, source, destination);
    let db = destination_of(b, source, destination);
    if da == db {
        let n = (da.len() - ra.len()) as int;
        assert(ra.len() == rb.len());
        assert(ra =~= da.skip(n));
        assert(rb =~= db.skip(n));
        assert(a =~= a.take(source.len() as int) + seq!['/'] + ra);
        assert(b =~= b.take(source.len() as int) + seq!['/'] + rb);
        assert(false);
    }
}

impl Xcr {
    /// The steps that copy the entries `entries` of the source tree to the
    /// destination, one for each entry, in the order of the listing.
    ///
    /// Fails at the first entry that is not below the source.
    pub fn copy_directory(&self, entries: &Vec<Entry>) -> (r: Result<Vec<CopyOp>, CopyError>)
        ensures
            match r {
                Ok(steps) => {
                    &&& first_outside(entry_views(entries@), self.config_view().project_path)
                        == entries.len()
                    &&& copy_views(steps@) == copy_steps(
                        entry_views(entries@),
                        self.config_view().project_path,
                        self.config_view().new_project_path,
                    )
                },
                Err(e) => {
                    &&& first_outside(entry_views(entries@), self.config_view().project_path)
                        < entries.len()
                    &&& e == CopyError::OutsideSource(
                        first_outside(
                            entry_views(entries@),
                            self.config_view().project_path,
                        ) as usize,
                    )
                },
            },
    {
        let source = to_chars(self.config().project_path().as_str());
        let destination = to_chars(self.config().new_project_path().as_str());
        let ghost views = entry_views(entries@);
        let mut out: Vec<CopyOp> = Vec::new();
        let mut i: usize = 0;
        assert(views.skip(0) =~= views);
        while i < entries.len()
            invariant
                i <= entries.len(),
                out.len() == i,
                views == entry_views(entries@),
                source@ == self.config_view().project_path,
                destination@ == self.config_view().new_project_path,
                first_outside(views, source@) == i + first_outside(views.skip(i as int), source@),
                forall|j: int|
                    0 <= j < i ==> (#[trigger] out@[j])@ == copy_of(
                        views[j],
                        source@,
                        destination@,
                    ),
            decreases entries.len() - i,
        {
            let p = to_chars(entries[i].path.as_str());
            proof {
                assert(views.skip(i as int)[0] == views[i as int]);
                assert(views.skip(i as int).skip(1) =~= views.skip(i + 1));
            }
            if !is_under_chars(&p, &source) {
                return Err(CopyError::OutsideSource(i));
            }
            let rest = copy_range(&p, source.len() + 1, p.len());
            let to = join_chars(&destination, &rest);
            out.push(
                CopyOp { from: entries[i].path.clone(), to: from_chars(&to), is_dir: entries[i].is_dir },
            );
            i += 1;
        }
        assert(copy_views(out@) =~= copy_steps(views, source@, destination@));
        Ok(out)
    }

    /// The whole copy: the destination is made, then each entry of the
    /// source tree is copied.
    ///
    /// Fails, with nothing to do, where the destination is there already,
    /// and at the first entry that is not below the source.
    pub fn create_new_project_copy(&self, destination_exists: bool, entries: &Vec<Entry>) -> (r:
        Result<Vec<CopyOp>, CopyError>)
        ensures
            match r {
                Ok(steps) => {
                    &&& !destination_exists
                    &&& first_outside(entry_views(entries@), self.config_view().project_path)
                        == entries.len()
                    &&& copy_views(steps@) == copy_plan(
                        entry_views(entries@),
                        self.config_view().project_path,
                        self.config_view().new_project_path,
                    )
                },
                Err(e) => if destination_exists {
                    e == CopyError::TargetExists
                } else {
                    &&& first_outside(entry_views(entries@), self.config_view().project_path)
                        < entries.len()
                    &&& e == CopyError::OutsideSource(
                        first_outside(
                            entry_views(entries@),
                            self.config_view().project_path,
                        ) as usize,
                    )
                },
            },
    {
        if destination_exists {
            return Err(CopyError::TargetExists);
        }
        match self.copy_directory(entries) {
            Err(e) => Err(e),
            Ok(mut steps) => {
                let ghost copied = copy_views(steps@);
                let root = CopyOp {
                    from: self.config().project_path().clone(),
                    to: self.config().new_project_path().clone(),
                    is_dir: true,
                };
                steps.insert(0, root);
                assert(copy_views(steps@) =~= seq![root@] + copied);
                Ok(steps)
            },
        }
    }
}

} // verus!
