//! Rewriting the text files of the copy: the old name gives way to the new
//! one, and the old bundle identifier to the new one where both are known.
//! A file whose name is hidden and holds the old name is left as it is.

use vstd::prelude::*;
use vstd::string::StringExecFns;
use crate::config::ConfigView;
use crate::run::Xcr;
use crate::text::replaced;
use crate::text::occurs_in;
use crate::text::to_chars;
use crate::text::from_chars;
use crate::text::replace_chars;
use crate::text::same_chars;
use crate::text::contains_chars;
use crate::path::file_name;
use crate::path::is_hidden;
use crate::path::file_name_chars;
use crate::text::lemma_replaced_without_occurrence;

verus! {

/// A text file: where it is and what it holds.
#[derive(Debug)]
pub struct TextFile {
    pub path: String,
    pub content: String,
}

/// A text file, as plain text.
pub struct TextFileView {
    pub path: Seq<char>,
    pub content: Seq<char>,
}

impl View for TextFile {
    type V = TextFileView;

    open spec fn view(&self) -> TextFileView {
        TextFileView { path: self.path@, content: self.content@ }
    }
}

/// The files of a list, as plain text.
pub open spec fn file_views(v: Seq<TextFile>) -> Seq<TextFileView> {
    Seq::new(v.len(), |i: int| v[i]@)
}

/// The file names that are rewritten, as patterns for the final part of a
/// path: project settings, workspace data, property lists, sources and
/// headers, interface files and build schemes.
pub open spec fn content_suffixes() -> Seq<Seq<char>> {
    seq![
        "*.xcodeproj/project.pbxproj"@,
        "*.xcworkspace/contents.xcworkspacedata"@,
        "*.plist"@,
        "*.swift"@,
        "*.h"@,
        "*.m"@,
        "*.storyboard"@,
        "*.xib"@,
        "*.xcscheme"@,
    ]
}

/// The pattern for the files at any depth under `root` whose path ends as
/// `suffix` says.
pub open spec fn pattern_under(root: Seq<char>, suffix: Seq<char>) -> Seq<char> {
    root + "/**/"@ + suffix
}

/// What `content` becomes: every occurrence of the old name is replaced by
/// the new name and then, only where both bundle identifiers are known,
/// every occurrence of the old identifier by the new one.
pub open spec fn rewritten(content: Seq<char>, c: ConfigView) -> Seq<char> {
    let named = replaced(content, c.old_name, c.new_name);
    if c.old_bundle_id is Some && c.new_bundle_id is Some {
        replaced(named, c.old_bundle_id->0, c.new_bundle_id->0)
    } else {
        named
    }
}

/// A file is left alone, whatever it holds, where its name is hidden and
/// holds the old name.
pub open spec fn is_left_alone(path: Seq<char>, old: Seq<char>) -> bool {
    is_hidden(file_name(path)) && occurs_in(file_name(path), old)
}

/// The file that is written in place of `f`, if `f` is not left alone and
/// its content changes.
pub open spec fn update_of(f: TextFileView, c: ConfigView) -> Option<TextFileView> {
    if is_left_alone(f.path, c.old_name) || rewritten(f.content, c) == f.content {
        None
    } else {
        Some(TextFileView { path: f.path, content: rewritten(f.content, c) })
    }
}

/// The files that are written: those of `files` whose content changes, in
/// order, each with its new content.
pub open spec fn updates(files: Seq<TextFileView>, c: ConfigView) -> Seq<TextFileView>
    decreases files.len(),
{
    if files.len() == 0 {
        Seq::empty()
    } else {
        let rest = updates(files.drop_last(), c);
        match update_of(files.last(), c) {
            Some(u) => rest.push(u),
            None => rest,
        }
    }
}

/// A file in which neither the old name nor the old bundle identifier
/// occurs is not written.
pub proof fn lemma_untouched_without_occurrence(f: TextFileView, c: ConfigView)
    requires
        c.old_name.len() > 0,
        !occurs_in(f.content, c.old_name),
        c.old_bundle_id is Some && c.new_bundle_id is Some ==> c.old_bundle_id->0.len() > 0
            && !occurs_in(f.content, c.old_bundle_id->0),
    ensures
        rewritten(f.content, c) == f.content,
        update_of(f, c) is None,
{
    lemma_replaced_without_occurrence(f.content, c.old_name, c.new_name);
    if c.old_bundle_id is Some && c.new_bundle_id is Some {
        lemma_replaced_without_occurrence(f.content, c.old_bundle_id->0, c.new_bundle_id->0);
    }
}

/// A file with a hidden name that holds the old name is not written,
/// whatever it holds.
pub proof fn lemma_hidden_file_is_left_alone(f: TextFileView, c: ConfigView)
    requires
        is_hidden(file_name(f.path)),
        occurs_in(file_name(f.path), c.old_name),
    ensures
        update_of(f, c) is None,
{
}

/// No file that is written has a hidden name that holds the old name.
pub proof fn lemma_updates_spare_hidden_files(files: Seq<TextFileView>, c: ConfigView)
    ensures
        forall|j: int|
            0 <= j < updates(files, c).len() ==> !is_left_alone(
                (#[trigger] updates(files, c)[j]).path,
                c.old_name,
            ),
    decreases files.len(),
{
    if files.len() > 0 {
        let before = files.drop_last();
        lemma_updates_spare_hidden_files(before, c);
        assert forall|j: int| 0 <= j < updates(files, c).len() implies !is_left_alone(
            (#[trigger] updates(files, c)[j]).path,
            c.old_name,
        ) by {
            if j < updates(before, c).len() {
                assert(updates(files, c)[j] == updates(before, c)[j]);
            } else {
                assert(updates(files, c)[j].path == files.last().path);
            }
        }
    }
}

/// Where the old bundle identifier was not found, or no new one was asked
/// for, no identifier is replaced: the name still is.
pub proof fn lemma_bundle_id_left_alone(content: Seq<char>, c: ConfigView)
    requires
        c.old_bundle_id is None || c.new_bundle_id is None,
    ensures
        rewritten(content, c) == replaced(content, c.old_name, c.new_name),
{
}

/// Every file that is written is one of `files`, with the content that it
/// gets, which differs from the one it had; no more files are written
/// than there are.
pub proof fn lemma_updates_are_changes(files: Seq<TextFileView>, c: ConfigView)
    ensures
        updates(files, c).len() <= files.len(),
        forall|j: int|
            0 <= j < updates(files, c).len() ==> exists|i: int|
                0 <= i < files.len() && (#[trigger] updates(files, c)[j]).path == files[i].path
                    && updates(files, c)[j].content == rewritten(files[i].content, c)
                    && updates(files, c)[j].content != files[i].content,
    decreases files.len(),
{
    if files.len() > 0 {
        let before = files.drop_last();
        lemma_updates_are_changes(before, c);
        let last = files.len() - 1;
        assert forall|j: int| 0 <= j < updates(files, c).len() implies exists|i: int|
            0 <= i < files.len() && (#[trigger] updates(files, c)[j]).path == files[i].path
                && updates(files, c)[j].content == rewritten(files[i].content, c) && updates(
                files,
                c,
            )[j].content != files[i].content by {
            if j < updates(before, c).len() {
                let i = choose|i: int|
                    0 <= i < before.len() && updates(before, c)[j].path == before[i].path
                        && updates(before, c)[j].content == rewritten(before[i].content, c)
                        && updates(before, c)[j].content != before[i].content;
                assert(before[i] == files[i]);
            } else {
                assert(updates(files, c)[j].path == files[last].path);
            }
        }
    }
}

/// Where no file's content changes, none is written.
pub proof fn lemma_no_change_no_update(files: Seq<TextFileView>, c: ConfigView)
    requires
        forall|i: int| 0 <= i < files.len() ==> rewritten(files[i].content, c) == files[i].content,
    ensures
        updates(files, c).len() == 0,
    decreases files.len(),
{
    if files.len() > 0 {
        let before = files.drop_last();
        assert forall|i: int| 0 <= i < before.len() implies rewritten(before[i].content, c)
            == before[i].content by {
            assert(before[i] == files[i]);
        }
        lemma_no_change_no_update(before, c);
    }
}

/// Whether the file at `path` is left alone, whatever it holds.
pub fn left_alone(path: &str, old: &Vec<char>) -> (r: bool)
    ensures
        r == is_left_alone(path@, old@),
{
    let p = to_chars(path);
    let name = file_name_chars(&p);
    name.len() > 0 && name[0] == '.' && contains_chars(&name, old)
}

/// The pattern for the files under `root` whose path ends as `suffix` says.
fn pattern_for(root: &str, suffix: &str) -> (r: String)
    ensures
        r@ == pattern_under(root@, suffix@),
{
    let mut r = root.to_owned();
    r.append("/**/");
    r.append(suffix);
    r
}

impl Xcr {
    /// The patterns of the files to rewrite, one for each kind of file, all
    /// under the destination.
    pub fn content_patterns(&self) -> (r: Vec<String>)
        ensures
            r.len() == content_suffixes().len(),
            forall|i: int|
                0 <= i < r.len() ==> (#[trigger] r[i])@ == pattern_under(
                    self.config_view().new_project_path,
                    content_suffixes()[i],
                ),
    {
        let root = self.config().new_project_path().as_str();
        let mut r: Vec<String> = Vec::new();
        r.push(pattern_for(root, "*.xcodeproj/project.pbxproj"));
        r.push(pattern_for(root, "*.xcworkspace/contents.xcworkspacedata"));
        r.push(pattern_for(root, "*.plist"));
        r.push(pattern_for(root, "*.swift"));
        r.push(pattern_for(root, "*.h"));
        r.push(pattern_for(root, "*.m"));
        r.push(pattern_for(root, "*.storyboard"));
        r.push(pattern_for(root, "*.xib"));
        r.push(pattern_for(root, "*.xcscheme"));
        r
    }

    /// The new content of a file that holds `content`, or `None` where the
    /// content stays as it is and the file is not to be written.
    pub fn rewrite_content(&self, content: &str) -> (r: Option<String>)
        ensures
            match r {
                Some(t) => t@ == rewritten(content@, self.config_view()) && t@ != content@,
                None => rewritten(content@, self.config_view()) == content@,
            },
    {
        let config = self.config();
        let text = to_chars(content);
        let old_name = to_chars(config.old_name().as_str());
        let new_name = to_chars(config.new_name().as_str());
        let mut updated = replace_chars(&text, &old_name, &new_name);
        match config.old_bundle_id() {
            Some(old_id) => match config.new_bundle_id() {
                Some(new_id) => {
                    let old_id = to_chars(old_id.as_str());
                    let new_id = to_chars(new_id.as_str());
                    updated = replace_chars(&updated, &old_id, &new_id);
                },
                None => {},
            },
            None => {},
        }
        if same_chars(&updated, &text) {
            None
        } else {
            Some(from_chars(&updated))
        }
    }

    /// The files to write: those of `files` whose content changes, in
    /// order, each with its new content. A file whose name is hidden and
    /// holds the old name is never among them. Their number is the number
    /// of files that the run modifies.
    pub fn update_file_contents(&self, files: &Vec<TextFile>) -> (r: Vec<TextFile>)
        ensures
            file_views(r@) == updates(file_views(files@), self.config_view()),
    {
        let old_name = to_chars(self.config().old_name().as_str());
        let mut out: Vec<TextFile> = Vec::new();
        let mut i: usize = 0;
        assert(file_views(files@.take(0)) =~= Seq::<TextFileView>::empty());
        assert(file_views(out@) =~= Seq::<TextFileView>::empty());
        while i < files.len()
            invariant
                i <= files.len(),
                old_name@ == self.config_view().old_name,
                file_views(out@) == updates(file_views(files@.take(i as int)), self.config_view()),
            decreases files.len() - i,
        {
            let ghost seen = file_views(files@.take(i as int));
            let ghost next = file_views(files@.take(i + 1));
            let ghost written = file_views(out@);
            assert(next.drop_last() =~= seen);
            assert(next.last() == files@[i as int]@);
            if !left_alone(files[i].path.as_str(), &old_name) {
                match self.rewrite_content(files[i].content.as_str()) {
                    Some(content) => {
                        let path = files[i].path.clone();
                        out.push(TextFile { path, content });
                        assert(file_views(out@) =~= written.push(
                            TextFileView { path: files@[i as int].path@, content: content@ },
                        ));
                    },
                    None => {},
                }
            }
            i += 1;
        }
        assert(files@.take(i as int) =~= files@);
        out
    }
}

} // verus!
