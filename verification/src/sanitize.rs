//! Cleaning the content of cells that come from outside the store.

use vstd::prelude::*;
use vstd::string::*;
use crate::path::to_chars;

verus! {

/// What is left of `content` when the elements and attributes that are not
/// allowed, and the comments, are taken out of it.
pub uninterp spec fn purified(content: Seq<char>) -> Seq<char>;

/// Whether a tag with the name `lower`, in letters of either case, opens at
/// the place `at` of `text`. `upper` is the name in capital letters.
pub open spec fn opens_tag_at(text: Seq<char>, at: int, lower: Seq<char>, upper: Seq<char>) -> bool {
    &&& 0 <= at
    &&& at + 1 + lower.len() <= text.len()
    &&& text[at] == '<'
    &&& forall|j: int|
        0 <= j < lower.len() ==> #[trigger] text[at + 1 + j] == lower[j] || text[at + 1 + j]
            == upper[j]
}

/// Whether a tag with the name `lower` opens somewhere in `text`.
pub open spec fn opens_tag(text: Seq<char>, lower: Seq<char>, upper: Seq<char>) -> bool {
    exists|at: int| #[trigger] opens_tag_at(text, at, lower, upper)
}

/// Whether `content` can be cleaned: no `select` and no `frameset` opens in
/// it. After one of those two, a tag that turns what follows into raw text
/// cannot be told from text, and cleaning gives up.
pub open spec fn is_purifiable(content: Seq<char>) -> bool {
    &&& !opens_tag(content, seq!['s', 'e', 'l', 'e', 'c', 't'], seq!['S', 'E', 'L', 'E', 'C', 'T'])
    &&& !opens_tag(
        content,
        seq!['f', 'r', 'a', 'm', 'e', 's', 'e', 't'],
        seq!['F', 'R', 'A', 'M', 'E', 'S', 'E', 'T'],
    )
}

/// `html_purifier::purifier` with `Settings::default()`: rewrites `content`
/// so that only the allowed elements and attributes stay, and no comment.
/// The contract names the result. The function unwraps what its rewriter
/// hands back, which is an error only where a tag that turns what follows
/// into raw text comes after a `select` or a `frameset`; so the contract
/// leaves out every content in which one of those two opens.
#[verifier::external_body]
fn purify(content: &str) -> (clean: String)
    requires
        is_purifiable(content@),
    ensures
        clean@ == purified(content@),
{
    html_purifier::purifier(content, html_purifier::Settings::default())
}

/// Whether a tag with the name `lower` opens somewhere in `text`.
fn mentions_tag(text: &Vec<char>, lower: &Vec<char>, upper: &Vec<char>) -> (found: bool)
    requires
        lower@.len() == upper@.len(),
    ensures
        found == opens_tag(text@, lower@, upper@),
{
    let n = text.len();
    let m = lower.len();
    if n <= m {
        assert forall|at: int| !#[trigger] opens_tag_at(text@, at, lower@, upper@) by {}
        return false;
    }
    let mut at: usize = 0;
    while at < n - m
        invariant
            m == lower@.len(),
            m == upper@.len(),
            n == text@.len(),
            m + 1 <= n,
            at + m <= n,
            forall|k: int| 0 <= k < at ==> !#[trigger] opens_tag_at(text@, k, lower@, upper@),
        decreases n - at,
    {
        if text[at] == '<' {
            let mut j: usize = 0;
            while j < m && (text[at + 1 + j] == lower[j] || text[at + 1 + j] == upper[j])
                invariant
                    m == lower@.len(),
                    m == upper@.len(),
                    n == text@.len(),
                    at + m < n,
                    j <= m,
                    forall|k: int|
                        0 <= k < j ==> #[trigger] text@[at + 1 + k] == lower@[k] || text@[at + 1
                            + k] == upper@[k],
                decreases m - j,
            {
                j = j + 1;
            }
            if j == m {
                assert(opens_tag_at(text@, at as int, lower@, upper@));
                return true;
            }
            assert(!opens_tag_at(text@, at as int, lower@, upper@)) by {
                if opens_tag_at(text@, at as int, lower@, upper@) {
                    assert(text@[at + 1 + j] == lower@[j as int] || text@[at + 1 + j]
                        == upper@[j as int]);
                }
            }
        }
        at = at + 1;
    }
    assert forall|k: int| !#[trigger] opens_tag_at(text@, k, lower@, upper@) by {}
    false
}

/// The characters of a tag's name.
fn name_of(text: &str) -> (name: Vec<char>)
    ensures
        name@ == text@,
{
    to_chars(text)
}

/// `content` cleaned, where it can be.
pub fn sanitize(content: &str) -> (clean: Option<String>)
    ensures
        match clean {
            Some(text) => is_purifiable(content@) && text@ == purified(content@),
            None => !is_purifiable(content@),
        },
{
    let text = to_chars(content);
    proof {
        reveal_strlit("select");
        reveal_strlit("SELECT");
        reveal_strlit("frameset");
        reveal_strlit("FRAMESET");
    }
    let select = name_of("select");
    let select_upper = name_of("SELECT");
    let frameset = name_of("frameset");
    let frameset_upper = name_of("FRAMESET");
    assert(select@ =~= seq!['s', 'e', 'l', 'e', 'c', 't']);
    assert(select_upper@ =~= seq!['S', 'E', 'L', 'E', 'C', 'T']);
    assert(frameset@ =~= seq!['f', 'r', 'a', 'm', 'e', 's', 'e', 't']);
    assert(frameset_upper@ =~= seq!['F', 'R', 'A', 'M', 'E', 'S', 'E', 'T']);
    if mentions_tag(&text, &select, &select_upper) || mentions_tag(
        &text,
        &frameset,
        &frameset_upper,
    ) {
        None
    } else {
        Some(purify(content))
    }
}

} // verus!
