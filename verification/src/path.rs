//! Paths as text: components separated by `/`.
//!
//! A path is never looked up here. It is split at its last separator into the
//! directory part and the final name, and put together again.

use vstd::prelude::*;
use vstd::utf8::encode_utf8;
use vstd::utf8::encode_scalar;
use crate::text::to_chars;
use crate::text::from_chars;
use crate::text::append_chars;
use crate::text::copy_range;
use crate::text::matches_at;
use crate::text::last_position;
use crate::text::last_index_of;
use crate::text::lemma_last_position;
use crate::text::lemma_last_position_is;

verus! {

/// The position of the last separator in `p`, or -1 where it has none.
pub open spec fn last_separator(p: Seq<char>) -> int {
    last_position(p, '/')
}

/// The final name of `p`: what follows its last separator.
pub open spec fn file_name(p: Seq<char>) -> Seq<char> {
    p.skip(last_separator(p) + 1)
}

/// `p` up to and including its last separator.
pub open spec fn directory_prefix(p: Seq<char>) -> Seq<char> {
    p.take(last_separator(p) + 1)
}

/// `p` with its final name replaced by `name`.
pub open spec fn with_file_name(p: Seq<char>, name: Seq<char>) -> Seq<char> {
    directory_prefix(p) + name
}

/// The directory that holds `p`. A path without a separator has none; the
/// parent of an entry of the root is the root.
pub open spec fn parent(p: Seq<char>) -> Option<Seq<char>> {
    let k = last_separator(p);
    if k < 0 {
        None
    } else if k == 0 {
        Some(p.take(1))
    } else {
        Some(p.take(k))
    }
}

/// The path of `name` inside the directory `dir`: the two with one
/// separator between them. An empty `dir` stands for no directory at all.
pub open spec fn joined(dir: Seq<char>, name: Seq<char>) -> Seq<char> {
    if dir.len() == 0 || dir.last() == '/' {
        dir + name
    } else {
        dir + seq!['/'] + name
    }
}

/// `p` lies somewhere below the directory `ancestor`.
pub open spec fn lies_under(p: Seq<char>, ancestor: Seq<char>) -> bool {
    &&& p.len() > ancestor.len()
    &&& p.take(ancestor.len() as int) == ancestor
    &&& p[ancestor.len() as int] == '/'
}

/// A name that starts with a dot is hidden.
pub open spec fn is_hidden(name: Seq<char>) -> bool {
    name.len() > 0 && name[0] == '.'
}

/// The number of bytes that `p` takes in UTF-8.
pub open spec fn byte_len(p: Seq<char>) -> nat {
    encode_utf8(p).len()
}

/// What `last_separator` finds: a separator with none after it.
pub proof fn lemma_last_separator(p: Seq<char>)
    ensures
        -1 <= last_separator(p) < p.len(),
        last_separator(p) >= 0 ==> p[last_separator(p)] == '/',
        forall|j: int| last_separator(p) < j < p.len() ==> p[j] != '/',
{
    lemma_last_position(p, '/');
}

/// A final name holds no separator, and the two parts of a path make the
/// path.
pub proof fn lemma_split(p: Seq<char>)
    ensures
        directory_prefix(p) + file_name(p) == p,
        forall|j: int| 0 <= j < file_name(p).len() ==> file_name(p)[j] != '/',
        last_separator(file_name(p)) == -1,
{
    lemma_last_separator(p);
    assert(directory_prefix(p) + file_name(p) =~= p);
    lemma_no_separator(file_name(p));
}

/// A text without a separator has no last separator.
pub proof fn lemma_no_separator(n: Seq<char>)
    requires
        forall|j: int| 0 <= j < n.len() ==> n[j] != '/',
    ensures
        last_separator(n) == -1,
{
    lemma_last_position_is(n, '/', -1);
}

/// Where the last separator stands once a name without separators is put
/// behind a directory prefix.
pub proof fn lemma_last_separator_of_sum(prefix: Seq<char>, name: Seq<char>)
    requires
        prefix.len() == 0 || prefix.last() == '/',
        forall|j: int| 0 <= j < name.len() ==> name[j] != '/',
    ensures
        last_separator(prefix + name) == prefix.len() - 1,
{
    let p = prefix + name;
    assert forall|j: int| prefix.len() - 1 < j < p.len() implies p[j] != '/' by {
        assert(p[j] == name[j - prefix.len()]);
    }
    lemma_last_position_is(p, '/', prefix.len() - 1);
}

/// Replacing the final name by one without separators gives a path with
/// that final name and the same directory part.
pub proof fn lemma_with_file_name(p: Seq<char>, name: Seq<char>)
    requires
        forall|j: int| 0 <= j < name.len() ==> name[j] != '/',
    ensures
        file_name(with_file_name(p, name)) == name,
        directory_prefix(with_file_name(p, name)) == directory_prefix(p),
        parent(with_file_name(p, name)) == parent(p),
{
    lemma_last_separator(p);
    let d = directory_prefix(p);
    lemma_last_separator_of_sum(d, name);
    let q = d + name;
    assert(q.skip(d.len() as int) =~= name);
    assert(q.take(d.len() as int) =~= d);
    let k = last_separator(p);
    if k == 0 {
        assert(q.take(1) =~= p.take(1));
    } else if k > 0 {
        assert(q.take(k) =~= p.take(k));
    }
}

/// The bytes of a text are those of its parts, one after the other.
pub proof fn lemma_byte_len_sum(a: Seq<char>, b: Seq<char>)
    ensures
        byte_len(a + b) == byte_len(a) + byte_len(b),
    decreases a.len(),
{
    if a.len() == 0 {
        assert(a + b =~= b);
    } else {
        assert((a + b).drop_first() =~= a.drop_first() + b);
        assert((a + b)[0] == a[0]);
        lemma_byte_len_sum(a.drop_first(), b);
    }
}

/// Every character takes at least one byte.
pub proof fn lemma_byte_len_at_least_len(a: Seq<char>)
    ensures
        byte_len(a) >= a.len(),
    decreases a.len(),
{
    if a.len() > 0 {
        lemma_byte_len_at_least_len(a.drop_first());
        assert(encode_scalar(a[0] as u32).len() >= 1);
    }
}

/// A path below a directory is longer, in bytes, than the directory's path.
pub proof fn lemma_deeper_is_longer(p: Seq<char>, ancestor: Seq<char>)
    requires
        lies_under(p, ancestor),
    ensures
        byte_len(p) > byte_len(ancestor),
{
    let rest = p.skip(ancestor.len() as int);
    assert(p =~= ancestor + rest);
    lemma_byte_len_sum(ancestor, rest);
    lemma_byte_len_at_least_len(rest);
}

/// The final name of the path `p`.
pub fn file_name_chars(p: &Vec<char>) -> (r: Vec<char>)
    ensures
        r@ == file_name(p@),
{
    let start: usize = match last_index_of(p, '/') {
        Some(k) => k + 1,
        None => 0,
    };
    copy_range(p, start, p.len())
}

/// The path `p` with its final name replaced by `name`.
pub fn with_file_name_chars(p: &Vec<char>, name: &Vec<char>) -> (r: Vec<char>)
    ensures
        r@ == with_file_name(p@, name@),
{
    let end: usize = match last_index_of(p, '/') {
        Some(k) => k + 1,
        None => 0,
    };
    let mut out = copy_range(p, 0, end);
    append_chars(&mut out, name);
    out
}

/// The final name of `path`.
pub fn file_name_of(path: &str) -> (r: String)
    ensures
        r@ == file_name(path@),
{
    let p = to_chars(path);
    let name = file_name_chars(&p);
    from_chars(&name)
}

/// The directory that holds `path`, if the path names one.
pub fn parent_of(path: &str) -> (r: Option<String>)
    ensures
        match r {
            Some(d) => parent(path@) == Some(d@),
            None => parent(path@) is None,
        },
{
    let p = to_chars(path);
    match last_index_of(&p, '/') {
        Some(k) => {
            let end: usize = if k == 0 {
                1
            } else {
                k
            };
            let dir = copy_range(&p, 0, end);
            Some(from_chars(&dir))
        },
        None => None,
    }
}

/// The path of `name` inside the directory `dir`.
pub fn join_chars(dir: &Vec<char>, name: &Vec<char>) -> (r: Vec<char>)
    ensures
        r@ == joined(dir@, name@),
{
    let mut out = copy_range(dir, 0, dir.len());
    assert(out@ =~= dir@);
    if out.len() > 0 && out[out.len() - 1] != '/' {
        out.push('/');
    }
    append_chars(&mut out, name);
    out
}

/// The path of `name` inside the directory `dir`.
pub fn join(dir: &str, name: &str) -> (r: String)
    ensures
        r@ == joined(dir@, name@),
{
    let d = to_chars(dir);
    let n = to_chars(name);
    let out = join_chars(&d, &n);
    from_chars(&out)
}

/// Whether `p` lies somewhere below the directory `ancestor`.
pub fn is_under_chars(p: &Vec<char>, ancestor: &Vec<char>) -> (r: bool)
    ensures
        r == lies_under(p@, ancestor@),
{
    if p.len() <= ancestor.len() {
        return false;
    }
    assert(p@.take(ancestor@.len() as int) =~= p@.subrange(0, ancestor@.len() as int));
    matches_at(p, ancestor, 0) && p[ancestor.len()] == '/'
}

/// The number of bytes that `path` takes in UTF-8.
pub fn byte_len_of(path: &str) -> (r: usize)
    ensures
        r == byte_len(path@),
{
    path.as_bytes().len()
}

} // verus!
