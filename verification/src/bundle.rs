//! Finding the bundle identifier in the text of a settings file.

use vstd::prelude::*;
use crate::config::text_of;
use crate::config::ConfigView;
use crate::run::Xcr;
use crate::text::occurs_in;
use crate::text::first_position;
use crate::text::after_last;
use crate::text::trimmed;
use crate::text::trimmed_end;
use crate::text::Strip;
use crate::text::to_chars;
use crate::text::from_chars;
use crate::text::copy_range;
use crate::text::contains_chars;
use crate::text::first_index_of;
use crate::text::last_index_of;
use crate::text::trim_chars;
use crate::text::trim_end_chars;
use crate::text::lemma_first_position;

verus! {

/// The key under which a settings file holds the bundle identifier.
pub open spec fn bundle_id_key() -> Seq<char> {
    "PRODUCT_BUNDLE_IDENTIFIER"@
}

/// The first line of `s` in which `key` occurs. Lines end at a line feed.
pub open spec fn first_line_with(s: Seq<char>, key: Seq<char>) -> Option<Seq<char>>
    decreases s.len(),
{
    let n = first_position(s, '\n');
    if 0 <= n <= s.len() && occurs_in(s.take(n), key) {
        Some(s.take(n))
    } else if 0 <= n < s.len() {
        first_line_with(s.skip(n + 1), key)
    } else {
        None
    }
}

/// The value that a settings line gives: what follows its last `=`,
/// without the white space around it, then without the `;` that ends it,
/// then without the quotes around it.
pub open spec fn value_of_line(line: Seq<char>) -> Seq<char> {
    trimmed(
        trimmed_end(trimmed(after_last(line, '='), Strip::WhiteSpace), Strip::Char(';')),
        Strip::Char('"'),
    )
}

/// The bundle identifier that the settings text `content` holds: the value
/// of the first line that names the key, if there is such a line.
pub open spec fn bundle_identifier(content: Seq<char>) -> Option<Seq<char>> {
    match first_line_with(content, bundle_id_key()) {
        Some(line) => Some(value_of_line(line)),
        None => None,
    }
}

/// The value that the settings line `line` gives.
pub fn line_value(line: &Vec<char>) -> (r: Vec<char>)
    ensures
        r@ == value_of_line(line@),
{
    let start: usize = match last_index_of(line, '=') {
        Some(k) => k + 1,
        None => 0,
    };
    let segment = copy_range(line, start, line.len());
    let bare = trim_chars(&segment, Strip::WhiteSpace);
    let ended = trim_end_chars(&bare, Strip::Char(';'));
    trim_chars(&ended, Strip::Char('"'))
}

/// The bundle identifier that the settings text `content` holds, if it
/// holds one.
pub fn bundle_identifier_in(content: &str) -> (r: Option<String>)
    ensures
        text_of(r) == bundle_identifier(content@),
{
    let s = to_chars(content);
    let key = to_chars("PRODUCT_BUNDLE_IDENTIFIER");
    let mut start: usize = 0;
    assert(s@.skip(0) =~= s@);
    loop
        invariant
            start <= s.len(),
            s@ == content@,
            key@ == bundle_id_key(),
            first_line_with(s@, key@) == first_line_with(s@.skip(start as int), key@),
        decreases s.len() - start,
    {
        let end = first_index_of(&s, '\n', start);
        let line = copy_range(&s, start, end);
        proof {
            let rest = s@.skip(start as int);
            lemma_first_position(rest, '\n');
            assert(rest.take(end - start) =~= line@);
            if end < s.len() {
                assert(rest.skip(end - start + 1) =~= s@.skip(end + 1));
            }
        }
        if contains_chars(&line, &key) {
            let value = line_value(&line);
            return Some(from_chars(&value));
        }
        if end >= s.len() {
            return None;
        }
        start = end + 1;
    }
}

impl Xcr {
    /// Looks for the bundle identifier in the text of the project's
    /// settings file and records what it finds. That the text holds none
    /// is no failure: the run goes on without one.
    pub fn find_bundle_identifier(&mut self, content: &str)
        ensures
            final(self).config_view() == (ConfigView {
                old_bundle_id: bundle_identifier(content@),
                ..old(self).config_view()
            }),
            final(self).state() == old(self).state(),
    {
        let found = bundle_identifier_in(content);
        self.record_bundle_identifier(found);
    }
}

} // verus!
