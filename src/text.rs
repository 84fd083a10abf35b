//! Text facts shared by the matcher: case folding, substring containment and
//! the path-query anchor.
use vstd::prelude::*;

verus! {

/// The lowercase form of a string, as std's Unicode case folding gives it.
pub uninterp spec fn lower_of(s: Seq<char>) -> Seq<char>;

/// Relies on `str::to_lowercase`: the result depends on the characters alone,
/// and an empty string stays empty.
#[verifier::external_body]
pub(crate) fn lowercase(s: &str) -> (r: String)
    ensures
        r@ == lower_of(s@),
        s@.len() == 0 ==> r@.len() == 0,
{
    s.to_lowercase()
}

/// `needle` occurs in `hay` as a contiguous run of characters.
pub open spec fn is_infix(needle: Seq<char>, hay: Seq<char>) -> bool {
    exists|i: int|
        0 <= i && i + needle.len() <= hay.len() && #[trigger] hay.subrange(i, i + needle.len())
            == needle
}

/// Relies on `str::contains` with a `&str` pattern: true exactly when the
/// pattern occurs as a substring.
#[verifier::external_body]
pub(crate) fn contains_str(hay: &str, needle: &str) -> (r: bool)
    ensures
        r == is_infix(needle@, hay@),
{
    hay.contains(needle)
}

/// Index of the last `/` in `q`, or -1 when there is none.
pub open spec fn last_slash(q: Seq<char>) -> int
    decreases q.len(),
{
    if q.len() == 0 {
        -1
    } else if q.last() == '/' {
        q.len() - 1
    } else {
        last_slash(q.drop_last())
    }
}

/// A query is path-shaped when it holds a `/`.
pub open spec fn is_path_query(q: Seq<char>) -> bool {
    q.contains('/')
}

/// The text after the final `/` of `q`; all of `q` when it has none.
pub open spec fn anchor(q: Seq<char>) -> Seq<char> {
    q.subrange(last_slash(q) + 1, q.len() as int)
}

pub proof fn lemma_last_slash_bounds(q: Seq<char>)
    ensures
        -1 <= last_slash(q) < q.len(),
        last_slash(q) >= 0 ==> q[last_slash(q)] == '/',
        forall|k: int| last_slash(q) < k < q.len() ==> q[k] != '/',
    decreases q.len(),
{
    if q.len() > 0 && q.last() != '/' {
        lemma_last_slash_bounds(q.drop_last());
        assert forall|k: int| last_slash(q) < k < q.len() implies q[k] != '/' by {
            if k < q.len() - 1 {
                assert(q.drop_last()[k] == q[k]);
            }
        }
    }
}

/// Splits a query at its final `/`: whether it is path-shaped, and its anchor.
pub fn split_anchor(q: &str) -> (r: (bool, String))
    ensures
        r.0 == is_path_query(q@),
        r.1@ == anchor(q@),
{
    let n = q.unicode_len();
    let mut i: usize = 0;
    let mut start: usize = 0;
    while i < n
        invariant
            n == q@.len(),
            i <= n,
            start as int == last_slash(q@.subrange(0, i as int)) + 1,
        decreases n - i,
    {
        assert(q@.subrange(0, i + 1).drop_last() =~= q@.subrange(0, i as int));
        if q.get_char(i) == '/' {
            start = i + 1;
        }
        i = i + 1;
    }
    assert(q@.subrange(0, n as int) =~= q@);
    proof {
        lemma_last_slash_bounds(q@);
        if q@.contains('/') {
            let k = choose|k: int| 0 <= k < q@.len() && q@[k] == '/';
            assert(k <= last_slash(q@));
        }
    }
    let seg = q.substring_char(start, n).to_owned();
    (start > 0, seg)
}

} // verus!
