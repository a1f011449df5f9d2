//! The naming convention of schema documents: `<Resource>.json` for the
//! default document, `<Resource>.<version>.json` for a versioned one.

use vstd::prelude::*;

verus! {

/// Number of `.` in `s`.
pub open spec fn dot_count(s: Seq<char>) -> nat
    decreases s.len(),
{
    if s.len() == 0 {
        0
    } else {
        dot_count(s.drop_last()) + if s.last() == '.' { 1nat } else { 0nat }
    }
}

/// Index of the first `.` at or after `start`, or the length of `s`.
pub open spec fn next_dot(s: Seq<char>, start: int) -> int
    decreases s.len() - start,
{
    if start >= s.len() {
        s.len() as int
    } else if s[start] == '.' {
        start
    } else {
        next_dot(s, start + 1)
    }
}

/// Index of the last `.` in `s`, or -1.
pub open spec fn last_dot(s: Seq<char>) -> int
    decreases s.len(),
{
    if s.len() == 0 {
        -1
    } else if s.last() == '.' {
        s.len() - 1
    } else {
        last_dot(s.drop_last())
    }
}

/// The resource name: the text before the first `.`.
pub open spec fn schema_name_of(s: Seq<char>) -> Seq<char> {
    s.take(next_dot(s, 0))
}

/// The version token: the text between the first and the last `.`.
pub open spec fn schema_version_of(s: Seq<char>) -> Seq<char> {
    let first = next_dot(s, 0);
    let last = last_dot(s);
    if first < last { s.subrange(first + 1, last) } else { Seq::empty() }
}

proof fn lemma_next_dot_bounds(s: Seq<char>, start: int)
    requires
        0 <= start <= s.len(),
    ensures
        start <= next_dot(s, start) <= s.len(),
        next_dot(s, start) < s.len() ==> s[next_dot(s, start)] == '.',
    decreases s.len() - start,
{
    if start < s.len() && s[start] != '.' {
        lemma_next_dot_bounds(s, start + 1);
    }
}

proof fn lemma_last_dot(s: Seq<char>)
    ensures
        -1 <= last_dot(s) < s.len(),
        last_dot(s) >= 0 ==> s[last_dot(s)] == '.',
        forall|k: int| 0 <= k < s.len() && s[k] == '.' ==> k <= last_dot(s),
    decreases s.len(),
{
    if s.len() > 0 {
        lemma_last_dot(s.drop_last());
        assert(forall|k: int| 0 <= k < s.len() - 1 ==> s.drop_last()[k] == s[k]);
    }
}

fn first_dot(s: &str) -> (r: usize)
    ensures
        r as int == next_dot(s@, 0),
{
    let len = s.unicode_len();
    let mut i: usize = 0;
    while i < len && s.get_char(i) != '.'
        invariant
            i <= len == s@.len(),
            next_dot(s@, 0) == next_dot(s@, i as int),
        decreases len - i,
    {
        i = i + 1;
    }
    i
}

/// Whether `file_name` names a default document: fewer than three
/// `.`-separated segments.
pub fn is_schema(file_name: &str) -> (r: bool)
    ensures
        r == (dot_count(file_name@) < 2),
{
    let len = file_name.unicode_len();
    let mut dots: usize = 0;
    let mut i: usize = 0;
    while i < len
        invariant
            i <= len == file_name@.len(),
            dots as nat == dot_count(file_name@.take(i as int)),
            dots <= i,
        decreases len - i,
    {
        assert(file_name@.take(i + 1).drop_last() =~= file_name@.take(i as int));
        if file_name.get_char(i) == '.' {
            dots = dots + 1;
        }
        i = i + 1;
    }
    assert(file_name@.take(i as int) =~= file_name@);
    dots < 2
}

/// The resource name of a document: the text before the first `.`.
pub fn get_schema_name(file_name: &str) -> (r: String)
    ensures
        r@ == schema_name_of(file_name@),
{
    proof { lemma_next_dot_bounds(file_name@, 0); }
    let e = first_dot(file_name);
    String::from_str(file_name.substring_char(0, e))
}

/// The version token of a document: the segments between the first and the
/// last, joined by `.`.
pub fn get_schema_version(file_name: &str) -> (r: String)
    ensures
        r@ == schema_version_of(file_name@),
{
    proof {
        lemma_next_dot_bounds(file_name@, 0);
        lemma_last_dot(file_name@);
    }
    let first = first_dot(file_name);
    let len = file_name.unicode_len();
    let mut last: usize = len;
    let mut i: usize = len;
    while i > 0
        invariant
            i <= len == file_name@.len(),
            last <= len,
            last == len ==> last_dot(file_name@) < i,
            last < len ==> last as int == last_dot(file_name@),
        decreases i,
    {
        i = i - 1;
        proof { lemma_last_dot(file_name@); }
        if last == len && file_name.get_char(i) == '.' {
            last = i;
            proof { lemma_last_is(file_name@, i as int); }
        }
    }
    if first < last && last < len {
        String::from_str(file_name.substring_char(first + 1, last))
    } else {
        String::new()
    }
}

proof fn lemma_last_is(s: Seq<char>, i: int)
    requires
        0 <= i < s.len(),
        s[i] == '.',
        last_dot(s) < i + 1,
    ensures
        last_dot(s) == i,
{
    lemma_last_dot(s);
}

} // verus!
