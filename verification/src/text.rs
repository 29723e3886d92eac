//! Literal text search and substitution over sequences of characters.
//!
//! Strings are viewed as `Seq<char>`. Every function here is specified over
//! that view; the executable versions work on `Vec<char>` so that a position
//! is reached in constant time.

use vstd::prelude::*;

verus! {

/// Assumed of the standard library, not proved: `String::push` puts the
/// character `c` at the end of `s` and leaves what `s` held before it as
/// it was.
pub assume_specification[ String::push ](s: &mut String, c: char)
    ensures
        final(s)@ == old(s)@.push(c),
;

/// `pat` stands in `s` at position `i`.
pub open spec fn occurs_at(s: Seq<char>, pat: Seq<char>, i: int) -> bool {
    &&& 0 <= i
    &&& i + pat.len() <= s.len()
    &&& s.subrange(i, i + pat.len()) == pat
}

/// `pat` stands somewhere in `s`.
pub open spec fn occurs_in(s: Seq<char>, pat: Seq<char>) -> bool {
    exists|i: int| occurs_at(s, pat, i)
}

/// `s` with every occurrence of `from` replaced by `to`, scanning from the
/// left and never re-reading what was already replaced.
///
/// An empty `from` occurs before every character and at the end, so `to` is
/// put at each of those places.
pub open spec fn replaced(s: Seq<char>, from: Seq<char>, to: Seq<char>) -> Seq<char>
    decreases s.len(),
{
    if from.len() == 0 {
        if s.len() == 0 {
            to
        } else {
            to + seq![s[0]] + replaced(s.skip(1), from, to)
        }
    } else if occurs_at(s, from, 0) {
        to + replaced(s.skip(from.len() as int), from, to)
    } else if s.len() == 0 {
        s
    } else {
        seq![s[0]] + replaced(s.skip(1), from, to)
    }
}

/// The position of the first `c` in `s`, or the length of `s` where it
/// holds none.
pub open spec fn first_position(s: Seq<char>, c: char) -> int
    decreases s.len(),
{
    if s.len() == 0 {
        0
    } else if s[0] == c {
        0
    } else {
        1 + first_position(s.skip(1), c)
    }
}

/// The position of the last `c` in `s`, or -1 where it holds none.
pub open spec fn last_position(s: Seq<char>, c: char) -> int
    decreases s.len(),
{
    if s.len() == 0 {
        -1
    } else if s.last() == c {
        s.len() - 1
    } else {
        last_position(s.drop_last(), c)
    }
}

/// What follows the last `c` in `s`: all of `s` where it holds none.
pub open spec fn after_last(s: Seq<char>, c: char) -> Seq<char> {
    s.skip(last_position(s, c) + 1)
}

/// What `first_position` finds: a `c` with none before it.
pub proof fn lemma_first_position(s: Seq<char>, c: char)
    ensures
        0 <= first_position(s, c) <= s.len(),
        first_position(s, c) < s.len() ==> s[first_position(s, c)] == c,
        forall|j: int| 0 <= j < first_position(s, c) ==> s[j] != c,
    decreases s.len(),
{
    if s.len() > 0 && s[0] != c {
        let t = s.skip(1);
        lemma_first_position(t, c);
        assert forall|j: int| 0 <= j < first_position(s, c) implies s[j] != c by {
            if j > 0 {
                assert(t[j - 1] == s[j]);
            }
        }
    }
}

/// A position that holds `c`, or the end, with no `c` before it, is the
/// first position of `c`.
pub proof fn lemma_first_position_is(s: Seq<char>, c: char, r: int)
    requires
        0 <= r <= s.len(),
        r < s.len() ==> s[r] == c,
        forall|j: int| 0 <= j < r ==> s[j] != c,
    ensures
        first_position(s, c) == r,
{
    lemma_first_position(s, c);
}

/// What `last_position` finds: a `c` with none after it.
pub proof fn lemma_last_position(s: Seq<char>, c: char)
    ensures
        -1 <= last_position(s, c) < s.len(),
        last_position(s, c) >= 0 ==> s[last_position(s, c)] == c,
        forall|j: int| last_position(s, c) < j < s.len() ==> s[j] != c,
    decreases s.len(),
{
    if s.len() > 0 && s.last() != c {
        let t = s.drop_last();
        lemma_last_position(t, c);
        assert forall|j: int| last_position(s, c) < j < s.len() implies s[j] != c by {
            if j < t.len() {
                assert(t[j] == s[j]);
            }
        }
    }
}

/// A position that holds `c`, or -1, with no `c` after it, is the last
/// position of `c`.
pub proof fn lemma_last_position_is(s: Seq<char>, c: char, r: int)
    requires
        -1 <= r < s.len(),
        r >= 0 ==> s[r] == c,
        forall|j: int| r < j < s.len() ==> s[j] != c,
    ensures
        last_position(s, c) == r,
{
    lemma_last_position(s, c);
}

/// The first position at or after `start` that holds `c`, or the length of
/// `s`.
pub fn first_index_of(s: &Vec<char>, c: char, start: usize) -> (r: usize)
    requires
        start <= s.len(),
    ensures
        start <= r <= s.len(),
        r - start == first_position(s@.skip(start as int), c),
{
    let mut i: usize = start;
    while i < s.len() && s[i] != c
        invariant
            start <= i <= s.len(),
            forall|j: int| start <= j < i ==> s@[j] != c,
        decreases s.len() - i,
    {
        i += 1;
    }
    proof {
        let t = s@.skip(start as int);
        assert forall|j: int| 0 <= j < i - start implies t[j] != c by {
            assert(t[j] == s@[start + j]);
        }
        lemma_first_position_is(t, c, i - start);
    }
    i
}

/// The last position that holds `c`.
pub fn last_index_of(s: &Vec<char>, c: char) -> (r: Option<usize>)
    ensures
        match r {
            Some(k) => k == last_position(s@, c) && k < s.len(),
            None => last_position(s@, c) == -1,
        },
{
    let mut i: usize = s.len();
    while i > 0 && s[i - 1] != c
        invariant
            i <= s.len(),
            forall|j: int| i <= j < s.len() ==> s@[j] != c,
        decreases i,
    {
        i -= 1;
    }
    proof {
        lemma_last_position_is(s@, c, i - 1);
    }
    if i == 0 {
        None
    } else {
        Some(i - 1)
    }
}

/// The characters of `s`, in order.
pub fn to_chars(s: &str) -> (v: Vec<char>)
    ensures
        v@ == s@,
{
    let mut v: Vec<char> = Vec::new();
    for c in it: s.chars()
        invariant
            it.seq() == s@,
            v@ == it.seq().take(it.index() as int),
    {
        v.push(c);
    }
    assert(s@.take(s@.len() as int) == s@);
    v
}

/// The string made of the characters of `v`, in order.
pub fn from_chars(v: &Vec<char>) -> (s: String)
    ensures
        s@ == v@,
{
    let mut s = String::new();
    let mut i: usize = 0;
    while i < v.len()
        invariant
            i <= v.len(),
            s@ == v@.take(i as int),
        decreases v.len() - i,
    {
        s.push(v[i]);
        i += 1;
    }
    assert(v@.take(v@.len() as int) == v@);
    s
}

/// The characters of `s` from position `from` up to, not including, `to`.
pub fn copy_range(s: &Vec<char>, from: usize, to: usize) -> (r: Vec<char>)
    requires
        from <= to <= s.len(),
    ensures
        r@ == s@.subrange(from as int, to as int),
{
    let mut r: Vec<char> = Vec::new();
    let mut i: usize = from;
    while i < to
        invariant
            from <= i <= to <= s.len(),
            r@ == s@.subrange(from as int, i as int),
        decreases to - i,
    {
        r.push(s[i]);
        i += 1;
    }
    r
}

/// Appends the characters of `tail` to `out`.
pub fn append_chars(out: &mut Vec<char>, tail: &Vec<char>)
    ensures
        final(out)@ == old(out)@ + tail@,
{
    let mut i: usize = 0;
    while i < tail.len()
        invariant
            i <= tail.len(),
            out@ == old(out)@ + tail@.take(i as int),
        decreases tail.len() - i,
    {
        out.push(tail[i]);
        i += 1;
    }
    assert(tail@.take(tail@.len() as int) == tail@);
}

/// Whether `pat` stands in `s` at position `i`.
pub fn matches_at(s: &Vec<char>, pat: &Vec<char>, i: usize) -> (r: bool)
    ensures
        r == occurs_at(s@, pat@, i as int),
{
    if i > s.len() || pat.len() > s.len() - i {
        return false;
    }
    let mut k: usize = 0;
    while k < pat.len()
        invariant
            i + pat.len() <= s.len(),
            k <= pat.len(),
            forall|j: int| 0 <= j < k ==> s@[i + j] == pat@[j],
        decreases pat.len() - k,
    {
        if s[i + k] != pat[k] {
            assert(s@.subrange(i as int, i + pat@.len())[k as int] == s@[i + k]);
            return false;
        }
        k += 1;
    }
    assert(s@.subrange(i as int, i + pat@.len()) =~= pat@);
    true
}

/// The first position at or after `start` where `pat` stands in `s`.
pub fn find_from(s: &Vec<char>, pat: &Vec<char>, start: usize) -> (r: Option<usize>)
    ensures
        match r {
            Some(i) => start <= i && occurs_at(s@, pat@, i as int) && forall|j: int|
                start <= j < i ==> !occurs_at(s@, pat@, j),
            None => forall|j: int| start <= j ==> !occurs_at(s@, pat@, j),
        },
{
    if pat.len() > s.len() || start > s.len() - pat.len() {
        return None;
    }
    let last: usize = s.len() - pat.len();
    let mut i: usize = start;
    loop
        invariant
            last == s.len() - pat.len(),
            start <= i <= last,
            forall|j: int| start <= j < i ==> !occurs_at(s@, pat@, j),
        decreases last - i,
    {
        if matches_at(s, pat, i) {
            return Some(i);
        }
        if i == last {
            return None;
        }
        i += 1;
    }
}

/// Whether `pat` stands somewhere in `s`.
pub fn contains_chars(s: &Vec<char>, pat: &Vec<char>) -> (r: bool)
    ensures
        r == occurs_in(s@, pat@),
{
    find_from(s, pat, 0).is_some()
}

/// The content of `s[i..]` after replacement, one step unfolded at a match.
proof fn lemma_replaced_step(s: Seq<char>, from: Seq<char>, to: Seq<char>, i: int)
    requires
        0 <= i < s.len(),
    ensures
        occurs_at(s, from, i) && from.len() > 0 ==> replaced(s.skip(i), from, to) == to + replaced(
            s.skip(i + from.len()),
            from,
            to,
        ),
        occurs_at(s, from, i) && from.len() == 0 ==> replaced(s.skip(i), from, to) == to
            + seq![s[i]] + replaced(s.skip(i + 1), from, to),
        !occurs_at(s, from, i) ==> replaced(s.skip(i), from, to) == seq![s[i]] + replaced(
            s.skip(i + 1),
            from,
            to,
        ),
{
    let t = s.skip(i);
    assert(t.len() > 0);
    assert(t[0] == s[i]);
    assert(t.skip(1) =~= s.skip(i + 1));
    if i + from.len() <= s.len() {
        assert(t.subrange(0, from.len() as int) =~= s.subrange(i, i + from.len()));
        assert(t.skip(from.len() as int) =~= s.skip(i + from.len()));
    }
    if from.len() == 0 {
        assert(s.subrange(i, i) =~= from);
    }
    assert(occurs_at(t, from, 0) == occurs_at(s, from, i));
}

/// `s` with every occurrence of `from` replaced by `to`.
pub fn replace_chars(s: &Vec<char>, from: &Vec<char>, to: &Vec<char>) -> (r: Vec<char>)
    ensures
        r@ == replaced(s@, from@, to@),
{
    let mut out: Vec<char> = Vec::new();
    let mut i: usize = 0;
    assert(s@.skip(0) =~= s@);
    while i < s.len()
        invariant
            i <= s.len(),
            out@ + replaced(s@.skip(i as int), from@, to@) == replaced(s@, from@, to@),
        decreases s.len() - i,
    {
        proof {
            lemma_replaced_step(s@, from@, to@, i as int);
        }
        let ghost before = out@;
        if matches_at(s, from, i) {
            append_chars(&mut out, to);
            if from.len() == 0 {
                out.push(s[i]);
                i += 1;
                assert(out@ =~= before + (to@ + seq![s@[i - 1]]));
            } else {
                i += from.len();
            }
        } else {
            out.push(s[i]);
            i += 1;
            assert(out@ =~= before + seq![s@[i - 1]]);
        }
        assert(out@ + replaced(s@.skip(i as int), from@, to@) =~= replaced(s@, from@, to@));
    }
    assert(s@.skip(i as int).len() == 0);
    if from.len() == 0 {
        append_chars(&mut out, to);
    } else {
        assert(!occurs_at(s@.skip(i as int), from@, 0));
        assert(out@ + s@.skip(i as int) =~= out@);
    }
    out
}

/// White space, as Unicode defines it.
pub open spec fn is_white_space(c: char) -> bool {
    let u = c as u32;
    ||| 0x09 <= u <= 0x0D
    ||| u == 0x20
    ||| u == 0x85
    ||| u == 0xA0
    ||| u == 0x1680
    ||| 0x2000 <= u <= 0x200A
    ||| u == 0x2028
    ||| u == 0x2029
    ||| u == 0x202F
    ||| u == 0x205F
    ||| u == 0x3000
}

/// What is taken off the ends of a text.
#[derive(Debug, Clone, Copy)]
pub enum Strip {
    /// White space.
    WhiteSpace,
    /// The given character.
    Char(char),
}

impl Strip {
    /// Whether `c` is taken off.
    pub open spec fn strips(self, c: char) -> bool {
        match self {
            Strip::WhiteSpace => is_white_space(c),
            Strip::Char(x) => c == x,
        }
    }

    /// Whether `c` is taken off.
    pub fn takes(&self, c: char) -> (r: bool)
        ensures
            r == self.strips(c),
    {
        match self {
            Strip::WhiteSpace => {
                let u: u32 = c as u32;
                (0x09 <= u && u <= 0x0D) || u == 0x20 || u == 0x85 || u == 0xA0 || u == 0x1680 || (
                0x2000 <= u && u <= 0x200A) || u == 0x2028 || u == 0x2029 || u == 0x202F || u
                    == 0x205F || u == 0x3000
            },
            Strip::Char(x) => c == *x,
        }
    }
}

/// `s` without the characters at its start that `k` takes off.
pub open spec fn trimmed_start(s: Seq<char>, k: Strip) -> Seq<char>
    decreases s.len(),
{
    if s.len() > 0 && k.strips(s[0]) {
        trimmed_start(s.skip(1), k)
    } else {
        s
    }
}

/// `s` without the characters at its end that `k` takes off.
pub open spec fn trimmed_end(s: Seq<char>, k: Strip) -> Seq<char>
    decreases s.len(),
{
    if s.len() > 0 && k.strips(s.last()) {
        trimmed_end(s.drop_last(), k)
    } else {
        s
    }
}

/// `s` without the characters at either end that `k` takes off.
pub open spec fn trimmed(s: Seq<char>, k: Strip) -> Seq<char> {
    trimmed_end(trimmed_start(s, k), k)
}

/// The position at which `s[from..to]` begins once its start is trimmed.
fn trim_start_index(s: &Vec<char>, from: usize, to: usize, k: Strip) -> (r: usize)
    requires
        from <= to <= s.len(),
    ensures
        from <= r <= to,
        trimmed_start(s@.subrange(from as int, to as int), k) == s@.subrange(r as int, to as int),
{
    let mut i: usize = from;
    while i < to && k.takes(s[i])
        invariant
            from <= i <= to <= s.len(),
            trimmed_start(s@.subrange(from as int, to as int), k) == trimmed_start(
                s@.subrange(i as int, to as int),
                k,
            ),
        decreases to - i,
    {
        assert(s@.subrange(i as int, to as int).skip(1) =~= s@.subrange(i + 1, to as int));
        i += 1;
    }
    i
}

/// The position at which `s[from..to]` ends once its end is trimmed.
fn trim_end_index(s: &Vec<char>, from: usize, to: usize, k: Strip) -> (r: usize)
    requires
        from <= to <= s.len(),
    ensures
        from <= r <= to,
        trimmed_end(s@.subrange(from as int, to as int), k) == s@.subrange(from as int, r as int),
{
    let mut i: usize = to;
    while i > from && k.takes(s[i - 1])
        invariant
            from <= i <= to <= s.len(),
            trimmed_end(s@.subrange(from as int, to as int), k) == trimmed_end(
                s@.subrange(from as int, i as int),
                k,
            ),
        decreases i,
    {
        assert(s@.subrange(from as int, i as int).drop_last() =~= s@.subrange(
            from as int,
            i - 1,
        ));
        i -= 1;
    }
    i
}

/// `s` without the characters at its end that `k` takes off.
pub fn trim_end_chars(s: &Vec<char>, k: Strip) -> (r: Vec<char>)
    ensures
        r@ == trimmed_end(s@, k),
{
    assert(s@.subrange(0, s@.len() as int) =~= s@);
    let end = trim_end_index(s, 0, s.len(), k);
    copy_range(s, 0, end)
}

/// `s` without the characters at either end that `k` takes off.
pub fn trim_chars(s: &Vec<char>, k: Strip) -> (r: Vec<char>)
    ensures
        r@ == trimmed(s@, k),
{
    assert(s@.subrange(0, s@.len() as int) =~= s@);
    let start = trim_start_index(s, 0, s.len(), k);
    let end = trim_end_index(s, start, s.len(), k);
    copy_range(s, start, end)
}

/// Whether `a` and `b` hold the same characters.
pub fn same_chars(a: &Vec<char>, b: &Vec<char>) -> (r: bool)
    ensures
        r == (a@ == b@),
{
    if a.len() != b.len() {
        return false;
    }
    let mut i: usize = 0;
    while i < a.len()
        invariant
            a.len() == b.len(),
            i <= a.len(),
            forall|j: int| 0 <= j < i ==> a@[j] == b@[j],
        decreases a.len() - i,
    {
        if a[i] != b[i] {
            return false;
        }
        i += 1;
    }
    assert(a@ =~= b@);
    true
}

/// A text in which `from` does not occur is left as it is.
pub proof fn lemma_replaced_without_occurrence(s: Seq<char>, from: Seq<char>, to: Seq<char>)
    requires
        from.len() > 0,
        !occurs_in(s, from),
    ensures
        replaced(s, from, to) == s,
    decreases s.len(),
{
    assert(!occurs_at(s, from, 0));
    if s.len() > 0 {
        let t = s.skip(1);
        assert forall|j: int| !occurs_at(t, from, j) by {
            if occurs_at(t, from, j) {
                assert(t.subrange(j, j + from.len()) =~= s.subrange(j + 1, j + 1 + from.len()));
                assert(occurs_at(s, from, j + 1));
            }
        }
        lemma_replaced_without_occurrence(t, from, to);
        assert(seq![s[0]] + t =~= s);
    }
}

/// `c` is nowhere in `s`.
pub open spec fn lacks(s: Seq<char>, c: char) -> bool {
    forall|j: int| 0 <= j < s.len() ==> s[j] != c
}

/// A character that is in neither of two texts is not in their sum.
proof fn lemma_sum_lacks(a: Seq<char>, b: Seq<char>, c: char)
    requires
        lacks(a, c),
        lacks(b, c),
    ensures
        lacks(a + b, c),
{
    assert forall|j: int| 0 <= j < (a + b).len() implies (a + b)[j] != c by {
        if j < a.len() {
            assert((a + b)[j] == a[j]);
        } else {
            assert((a + b)[j] == b[j - a.len()]);
        }
    }
}

/// A character that is not in a text is not in what is left of it once
/// its first `n` characters are gone.
proof fn lemma_rest_lacks(s: Seq<char>, n: int, c: char)
    requires
        lacks(s, c),
        0 <= n <= s.len(),
    ensures
        lacks(s.skip(n), c),
{
    assert forall|j: int| 0 <= j < s.skip(n).len() implies s.skip(n)[j] != c by {
        assert(s.skip(n)[j] == s[j + n]);
    }
}

/// A character that is neither in a text nor in what is put into it is
/// not in the result of a replacement.
pub proof fn lemma_replaced_without_char(s: Seq<char>, from: Seq<char>, to: Seq<char>, c: char)
    requires
        lacks(s, c),
        lacks(to, c),
    ensures
        lacks(replaced(s, from, to), c),
    decreases s.len(),
{
    if from.len() == 0 {
        if s.len() > 0 {
            let t = s.skip(1);
            lemma_rest_lacks(s, 1, c);
            lemma_replaced_without_char(t, from, to, c);
            assert(lacks(seq![s[0]], c));
            lemma_sum_lacks(to, seq![s[0]], c);
            lemma_sum_lacks(to + seq![s[0]], replaced(t, from, to), c);
        }
    } else if occurs_at(s, from, 0) {
        let t = s.skip(from.len() as int);
        lemma_rest_lacks(s, from.len() as int, c);
        lemma_replaced_without_char(t, from, to, c);
        lemma_sum_lacks(to, replaced(t, from, to), c);
    } else if s.len() > 0 {
        let t = s.skip(1);
        lemma_rest_lacks(s, 1, c);
        lemma_replaced_without_char(t, from, to, c);
        assert(lacks(seq![s[0]], c));
        lemma_sum_lacks(seq![s[0]], replaced(t, from, to), c);
    }
}

/// The texts of a list of strings.
pub open spec fn texts(v: Seq<String>) -> Seq<Seq<char>> {
    Seq::new(v.len(), |i: int| v[i]@)
}

} // verus!
