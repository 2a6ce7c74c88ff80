//! Pure helpers on materialized paths.
//!
//! A materialized path is a string of names joined by `/`. Every function here
//! is stated over the path's characters, so a name may hold any character but
//! the separator.

use vstd::prelude::*;
use vstd::string::*;
use vstd::std_specs::iter::IteratorSpec;

verus! {

/// The separator between the names of a materialized path.
pub const SEPARATOR: char = '/';

/// Whether `c` counts as white space when a name is tested for being blank.
pub uninterp spec fn is_white_space(c: char) -> bool;

/// `char::is_whitespace` of std: whether `c` has the Unicode property
/// `White_Space`. The contract gives that answer the name `is_white_space`.
#[verifier::external_body]
fn char_is_whitespace(c: char) -> (r: bool)
    ensures
        r == is_white_space(c),
{
    c.is_whitespace()
}

/// The index of the last separator in `s`, or `-1` where `s` holds none.
pub open spec fn last_separator(s: Seq<char>) -> int
    decreases s.len(),
{
    if s.len() == 0 {
        -1
    } else if s.last() == SEPARATOR {
        s.len() - 1
    } else {
        last_separator(s.drop_last())
    }
}

/// What follows the last separator of `s`; all of `s` where it holds none.
pub open spec fn basename(s: Seq<char>) -> Seq<char> {
    s.subrange(last_separator(s) + 1, s.len() as int)
}

/// What stands before the last separator of `s`; empty where it holds none.
pub open spec fn parent_path(s: Seq<char>) -> Seq<char> {
    if last_separator(s) < 0 {
        Seq::empty()
    } else {
        s.subrange(0, last_separator(s))
    }
}

/// `name` below `parent`; `name` alone where `parent` is the root.
pub open spec fn join(parent: Seq<char>, name: Seq<char>) -> Seq<char> {
    if parent.len() == 0 {
        name
    } else {
        parent + seq![SEPARATOR] + name
    }
}

/// `s` with its last name replaced by `name`.
pub open spec fn with_renamed_basename(s: Seq<char>, name: Seq<char>) -> Seq<char> {
    if last_separator(s) < 0 {
        name
    } else {
        s.subrange(0, last_separator(s) + 1) + name
    }
}

/// `s` without its leading separators.
pub open spec fn trim_start(s: Seq<char>) -> Seq<char>
    decreases s.len(),
{
    if s.len() > 0 && s.first() == SEPARATOR {
        trim_start(s.drop_first())
    } else {
        s
    }
}

/// `s` without its trailing separators.
pub open spec fn trim_end(s: Seq<char>) -> Seq<char>
    decreases s.len(),
{
    if s.len() > 0 && s.last() == SEPARATOR {
        trim_end(s.drop_last())
    } else {
        s
    }
}

/// `s` without the separators that surround it.
pub open spec fn trim_separators(s: Seq<char>) -> Seq<char> {
    trim_end(trim_start(s))
}

/// Whether `s` holds nothing but white space.
pub open spec fn is_blank(s: Seq<char>) -> bool {
    forall|i: int| 0 <= i < s.len() ==> is_white_space(#[trigger] s[i])
}

/// Whether `s` can stand in the hierarchy: not empty, and no separator at
/// either end.
pub open spec fn is_stored_path(s: Seq<char>) -> bool {
    &&& s.len() > 0
    &&& s.first() != SEPARATOR
    &&& s.last() != SEPARATOR
}

/// Whether `path` lies strictly below the folder at `folder`.
pub open spec fn is_below(path: Seq<char>, folder: Seq<char>) -> bool {
    (folder + seq![SEPARATOR]).is_prefix_of(path)
}

/// `path` with its first `skip` characters replaced by `new_prefix`.
pub open spec fn rebased(path: Seq<char>, skip: int, new_prefix: Seq<char>) -> Seq<char> {
    new_prefix + path.subrange(skip, path.len() as int)
}

/// Whether the first `i` characters of `s` name a folder on the way to `s`:
/// they end with a name, and just before a separator or at the end of `s`.
pub open spec fn is_cut(s: Seq<char>, i: int) -> bool {
    0 < i <= s.len() && (i == s.len() || s[i] == SEPARATOR) && s[i - 1] != SEPARATOR
}

/// The folders on the way to `s` that are at most `i` characters long,
/// shortest first.
pub open spec fn chain_upto(s: Seq<char>, i: nat) -> Seq<Seq<char>>
    decreases i,
{
    if i == 0 {
        Seq::empty()
    } else if is_cut(s, i as int) {
        chain_upto(s, (i - 1) as nat).push(s.take(i as int))
    } else {
        chain_upto(s, (i - 1) as nat)
    }
}

/// The folders on the way to `s`, `s` itself last.
pub open spec fn folder_chain(s: Seq<char>) -> Seq<Seq<char>> {
    chain_upto(s, s.len())
}

/// What `last_separator` finds is a separator, and none follows it.
pub proof fn lemma_last_separator(s: Seq<char>)
    ensures
        -1 <= last_separator(s) < s.len(),
        last_separator(s) >= 0 ==> s[last_separator(s)] == SEPARATOR,
        forall|j: int| last_separator(s) < j < s.len() ==> s[j] != SEPARATOR,
    decreases s.len(),
{
    if s.len() > 0 && s.last() != SEPARATOR {
        lemma_last_separator(s.drop_last());
        assert forall|j: int| last_separator(s) < j < s.len() implies s[j] != SEPARATOR by {
            if j < s.len() - 1 {
                assert(s[j] == s.drop_last()[j]);
            }
        }
    }
}

/// A separator that none follows is the one `last_separator` finds.
pub proof fn lemma_last_separator_is(s: Seq<char>, i: int)
    requires
        -1 <= i < s.len(),
        i >= 0 ==> s[i] == SEPARATOR,
        forall|j: int| i < j < s.len() ==> s[j] != SEPARATOR,
    ensures
        last_separator(s) == i,
{
    lemma_last_separator(s);
}

/// The name of a stored path is not empty and holds no separator, and the
/// path is its parent joined with its name.
pub proof fn lemma_split(s: Seq<char>)
    requires
        is_stored_path(s),
    ensures
        basename(s).len() > 0,
        !basename(s).contains(SEPARATOR),
        join(parent_path(s), basename(s)) == s,
        parent_path(s).len() > 0 ==> parent_path(s).first() != SEPARATOR,
{
    lemma_last_separator(s);
    assert(join(parent_path(s), basename(s)) =~= s);
}

/// What is left of `s` without its leading separators is an end of `s` that
/// starts with no separator.
pub proof fn lemma_trim_start(s: Seq<char>)
    ensures
        trim_start(s).len() <= s.len(),
        trim_start(s) == s.subrange(s.len() - trim_start(s).len(), s.len() as int),
        trim_start(s).len() > 0 ==> trim_start(s).first() != SEPARATOR,
    decreases s.len(),
{
    if s.len() > 0 && s.first() == SEPARATOR {
        lemma_trim_start(s.drop_first());
        let rest = s.drop_first();
        assert(rest.subrange(rest.len() - trim_start(rest).len(), rest.len() as int)
            =~= s.subrange(s.len() - trim_start(s).len(), s.len() as int));
    } else {
        assert(s.subrange(0, s.len() as int) =~= s);
    }
}

/// What is left of `s` without its trailing separators is a start of `s`
/// that ends with no separator.
pub proof fn lemma_trim_end(s: Seq<char>)
    ensures
        trim_end(s).len() <= s.len(),
        trim_end(s) == s.take(trim_end(s).len() as int),
        trim_end(s).len() > 0 ==> trim_end(s).last() != SEPARATOR,
    decreases s.len(),
{
    if s.len() > 0 && s.last() == SEPARATOR {
        lemma_trim_end(s.drop_last());
        let rest = s.drop_last();
        assert(rest.take(trim_end(rest).len() as int) =~= s.take(trim_end(s).len() as int));
    } else {
        assert(s.take(s.len() as int) =~= s);
    }
}

/// A trimmed path is empty or can be stored.
pub proof fn lemma_trimmed(s: Seq<char>)
    ensures
        trim_separators(s).len() == 0 || is_stored_path(trim_separators(s)),
{
    lemma_trim_start(s);
    lemma_trim_end(trim_start(s));
}

/// The characters of `s`, in order.
pub fn to_chars(s: &str) -> (v: Vec<char>)
    ensures
        v@ == s@,
{
    let mut v: Vec<char> = Vec::new();
    for c in it: s.chars()
        invariant
            it.seq() == s@,
            v@ == s@.take(it.index() as int),
    {
        v.push(c);
    }
    v
}

/// The index of the last separator among `chars`.
pub fn rfind_separator(chars: &Vec<char>) -> (found: Option<usize>)
    ensures
        match found {
            Some(i) => i as int == last_separator(chars@) && i < chars.len(),
            None => last_separator(chars@) == -1,
        },
{
    let mut i: usize = chars.len();
    while i > 0
        invariant
            i <= chars.len(),
            forall|j: int| i <= j < chars.len() ==> chars@[j] != SEPARATOR,
        decreases i,
    {
        i = i - 1;
        if chars[i] == SEPARATOR {
            proof {
                lemma_last_separator_is(chars@, i as int);
            }
            return Some(i);
        }
    }
    proof {
        lemma_last_separator_is(chars@, -1);
    }
    None
}

/// The last name of `path`.
pub fn get_file_name(path: &str) -> (name: String)
    ensures
        name@ == basename(path@),
{
    let chars = to_chars(path);
    match rfind_separator(&chars) {
        Some(i) => String::from_str(path.substring_char(i + 1, chars.len())),
        None => {
            assert(path@.subrange(0, path@.len() as int) == path@);
            String::from_str(path)
        },
    }
}

/// The path of the folder that holds `path`; empty for a path in the root.
pub fn get_folder_path(path: &str) -> (parent: String)
    ensures
        parent@ == parent_path(path@),
{
    let chars = to_chars(path);
    match rfind_separator(&chars) {
        Some(i) => String::from_str(path.substring_char(0, i)),
        None => String::new(),
    }
}

/// `path` with its last name replaced by `new_name`.
pub fn apply_new_name(path: &str, new_name: &str) -> (renamed: String)
    ensures
        renamed@ == with_renamed_basename(path@, new_name@),
{
    let chars = to_chars(path);
    match rfind_separator(&chars) {
        Some(i) => String::from_str(path.substring_char(0, i + 1)).concat(new_name),
        None => String::from_str(new_name),
    }
}

/// `name` below the folder at `parent`; `name` alone where `parent` is empty.
pub fn join_path(parent: &str, name: &str) -> (joined: String)
    ensures
        joined@ == join(parent@, name@),
{
    if parent.unicode_len() == 0 {
        String::from_str(name)
    } else {
        proof {
            reveal_strlit("/");
            assert("/"@ == seq![SEPARATOR]);
        }
        String::from_str(parent).concat("/").concat(name)
    }
}

/// `path` without the separators that surround it.
pub fn trim_matches_separator(path: &str) -> (trimmed: String)
    ensures
        trimmed@ == trim_separators(path@),
{
    let chars = to_chars(path);
    let n = chars.len();
    let mut start: usize = 0;
    assert(chars@.subrange(0, n as int) == chars@);
    while start < n && chars[start] == SEPARATOR
        invariant
            start <= n,
            n == chars@.len(),
            trim_start(chars@) == trim_start(chars@.subrange(start as int, n as int)),
        decreases n - start,
    {
        assert(chars@.subrange(start as int, n as int).drop_first() == chars@.subrange(
            start as int + 1,
            n as int,
        ));
        start = start + 1;
    }
    assert(trim_start(chars@) == chars@.subrange(start as int, n as int));
    let ghost rest = chars@.subrange(start as int, n as int);
    let mut end: usize = n;
    while end > start && chars[end - 1] == SEPARATOR
        invariant
            start <= end <= n,
            n == chars@.len(),
            rest == chars@.subrange(start as int, n as int),
            trim_end(rest) == trim_end(chars@.subrange(start as int, end as int)),
        decreases end,
    {
        assert(chars@.subrange(start as int, end as int).drop_last() == chars@.subrange(
            start as int,
            end as int - 1,
        ));
        end = end - 1;
    }
    assert(trim_end(rest) == chars@.subrange(start as int, end as int));
    String::from_str(path.substring_char(start, end))
}

/// Whether `text` holds nothing but white space.
pub fn is_blank_text(text: &str) -> (blank: bool)
    ensures
        blank == is_blank(text@),
{
    let chars = to_chars(text);
    let mut i: usize = 0;
    while i < chars.len()
        invariant
            i <= chars.len(),
            chars@ == text@,
            forall|j: int| 0 <= j < i ==> is_white_space(#[trigger] text@[j]),
        decreases chars.len() - i,
    {
        if !char_is_whitespace(chars[i]) {
            return false;
        }
        i = i + 1;
    }
    true
}

/// Whether `path` begins with `prefix`.
pub fn starts_with(path: &Vec<char>, prefix: &Vec<char>) -> (r: bool)
    ensures
        r == prefix@.is_prefix_of(path@),
{
    if prefix.len() > path.len() {
        return false;
    }
    let mut i: usize = 0;
    while i < prefix.len()
        invariant
            i <= prefix.len() <= path.len(),
            forall|j: int| 0 <= j < i ==> path@[j] == prefix@[j],
        decreases prefix.len() - i,
    {
        if path[i] != prefix[i] {
            return false;
        }
        i = i + 1;
    }
    assert(path@.subrange(0, prefix@.len() as int) =~= prefix@);
    true
}

/// Whether `path` lies strictly below the folder at `folder`.
pub fn is_below_folder(path: &str, folder: &str) -> (r: bool)
    ensures
        r == is_below(path@, folder@),
{
    let mut prefix = to_chars(folder);
    prefix.push(SEPARATOR);
    assert(prefix@ == folder@ + seq![SEPARATOR]);
    let chars = to_chars(path);
    starts_with(&chars, &prefix)
}

/// `path` with its first `skip` characters replaced by `new_prefix`.
pub fn rebase(path: &str, skip: usize, new_prefix: &str) -> (moved: String)
    requires
        skip <= path@.len(),
    ensures
        moved@ == rebased(path@, skip as int, new_prefix@),
{
    let n = path.unicode_len();
    String::from_str(new_prefix).concat(path.substring_char(skip, n))
}

/// Whether `text` can stand in the hierarchy as a path.
pub fn is_stored_text(text: &str) -> (stored: bool)
    ensures
        stored == is_stored_path(text@),
{
    let chars = to_chars(text);
    chars.len() > 0 && chars[0] != SEPARATOR && chars[chars.len() - 1] != SEPARATOR
}

} // verus!
