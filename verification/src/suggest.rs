//! Edit-distance typo suggestions ("did you mean sqrt?").

use vstd::prelude::*;
use vstd::string::*;
use crate::text::chars_of;

verus! {

pub open spec fn min3(x: nat, y: nat, z: nat) -> nat {
    if x <= y && x <= z { x } else if y <= z { y } else { z }
}

/// Levenshtein distance: the fewest single-character insertions, deletions
/// and substitutions that turn `a` into `b`.
pub open spec fn edit_distance(a: Seq<char>, b: Seq<char>) -> nat
    decreases a.len() + b.len(),
{
    if a.len() == 0 {
        b.len()
    } else if b.len() == 0 {
        a.len()
    } else {
        min3(
            edit_distance(a.drop_last(), b.drop_last()) + (if a.last() == b.last() { 0nat } else { 1nat }),
            edit_distance(a.drop_last(), b) + 1,
            edit_distance(a, b.drop_last()) + 1,
        )
    }
}

pub proof fn lemma_edit_distance_bound(a: Seq<char>, b: Seq<char>)
    ensures
        edit_distance(a, b) <= if a.len() <= b.len() { b.len() } else { a.len() },
    decreases a.len() + b.len(),
{
    if a.len() > 0 && b.len() > 0 {
        lemma_edit_distance_bound(a.drop_last(), b.drop_last());
    }
}

/// The edit distance between the empty string and `b` is `b`'s length.
pub proof fn lemma_edit_distance_from_empty(a: Seq<char>, b: Seq<char>)
    requires
        a.len() == 0,
    ensures
        edit_distance(a, b) == b.len(),
{
}

/// A string is at distance 0 from itself.
pub proof fn lemma_edit_distance_self(a: Seq<char>)
    ensures
        edit_distance(a, a) == 0,
    decreases a.len(),
{
    if a.len() > 0 {
        lemma_edit_distance_self(a.drop_last());
    }
}

pub fn levenshtein(a: &str, b: &str) -> (r: usize)
    requires
        a@.len() < usize::MAX,
        b@.len() < usize::MAX,
    ensures
        r == edit_distance(a@, b@),
{
    let av = chars_of(a);
    let bv = chars_of(b);
    let n = av.len();
    let m = bv.len();
    let mut prev: Vec<usize> = Vec::new();
    let mut j: usize = 0;
    while j <= m
        invariant
            j <= m + 1,
            m == b@.len(),
            n < usize::MAX,
            m < usize::MAX,
            prev.len() == j,
            forall|k: int| 0 <= k < j ==> prev@[k] == k,
        decreases m + 1 - j,
    {
        prev.push(j);
        j = j + 1;
    }
    proof {
        assert forall|k: int| 0 <= k <= m implies prev@[k] == edit_distance(
            a@.subrange(0, 0),
            b@.subrange(0, k),
        ) by {
            lemma_edit_distance_from_empty(a@.subrange(0, 0), b@.subrange(0, k));
        }
    }
    let mut i: usize = 0;
    while i < n
        invariant
            i <= n,
            n == a@.len(),
            m == b@.len(),
            av@ == a@,
            bv@ == b@,
            n < usize::MAX,
            m < usize::MAX,
            prev.len() == m + 1,
            forall|k: int| 0 <= k <= m ==> prev@[k] == edit_distance(
                a@.subrange(0, i as int),
                b@.subrange(0, k),
            ),
        decreases n - i,
    {
        let ca = av[i];
        let ghost ai = a@.subrange(0, i as int);
        let ghost ai1 = a@.subrange(0, i + 1);
        assert(ai1.drop_last() =~= ai);
        let mut cur: Vec<usize> = Vec::new();
        cur.push(i + 1);
        assert(cur@[0] == edit_distance(ai1, b@.subrange(0, 0)));
        let mut jj: usize = 0;
        while jj < m
            invariant
                jj <= m,
                i < n,
                n == a@.len(),
                m == b@.len(),
                av@ == a@,
                bv@ == b@,
                ca == a@[i as int],
                n < usize::MAX,
            m < usize::MAX,
                ai == a@.subrange(0, i as int),
                ai1 == a@.subrange(0, i + 1),
                ai1.drop_last() == ai,
                prev.len() == m + 1,
                forall|k: int| 0 <= k <= m ==> prev@[k] == edit_distance(ai, b@.subrange(0, k)),
                cur.len() == jj + 1,
                forall|k: int| 0 <= k <= jj ==> cur@[k] == edit_distance(ai1, b@.subrange(0, k)),
            decreases m - jj,
        {
            let cb = bv[jj];
            let ghost bj = b@.subrange(0, jj as int);
            let ghost bj1 = b@.subrange(0, jj + 1);
            assert(bj1.drop_last() =~= bj);
            proof {
                lemma_edit_distance_bound(ai, bj);
                lemma_edit_distance_bound(ai, bj1);
                lemma_edit_distance_bound(ai1, bj);
            }
            let cost: usize = if ca != cb { 1 } else { 0 };
            let x = prev[jj] + cost;
            let y = prev[jj + 1] + 1;
            let z = cur[jj] + 1;
            let mut best = x;
            if y < best {
                best = y;
            }
            if z < best {
                best = z;
            }
            assert(ai1.last() == ca);
            assert(bj1.last() == cb);
            assert(best == edit_distance(ai1, bj1));
            cur.push(best);
            jj = jj + 1;
        }
        prev = cur;
        i = i + 1;
    }
    assert(a@.subrange(0, n as int) =~= a@);
    assert(b@.subrange(0, m as int) =~= b@);
    prev[m]
}


/// The lowercase form of a string, as std's Unicode case mapping gives it.
pub uninterp spec fn lowercase(s: Seq<char>) -> Seq<char>;

/// Calls `str::to_lowercase`. The result is named by `lowercase`; like every
/// `String` it holds at most `isize::MAX` bytes, so at most that many characters.
#[verifier::external_body]
fn to_lowercase(s: &str) -> (r: String)
    ensures
        r@ == lowercase(s@),
        r@.len() <= isize::MAX,
{
    s.to_lowercase()
}

/// Index of the first candidate at the least distance from `low`, among the first `k`.
pub open spec fn best_index(low: Seq<char>, cands: Seq<Seq<char>>, k: int) -> int
    decreases k,
{
    if k <= 1 {
        0
    } else {
        let b = best_index(low, cands, k - 1);
        if edit_distance(low, cands[k - 1]) < edit_distance(low, cands[b]) {
            k - 1
        } else {
            b
        }
    }
}

pub proof fn lemma_best_index(low: Seq<char>, cands: Seq<Seq<char>>, k: int)
    requires
        1 <= k <= cands.len(),
    ensures
        0 <= best_index(low, cands, k) < k,
        forall|j: int| 0 <= j < k ==> edit_distance(low, cands[best_index(low, cands, k)])
            <= edit_distance(low, #[trigger] cands[j]),
        forall|j: int| 0 <= j < best_index(low, cands, k) ==> edit_distance(low, cands[best_index(low, cands, k)])
            < edit_distance(low, #[trigger] cands[j]),
    decreases k,
{
    if k > 1 {
        lemma_best_index(low, cands, k - 1);
    }
}

/// The suggestion for a name of `len` characters whose lowercase form is
/// `low`: the closest candidate (the first one on a tie), when it is within 1
/// edit for names of up to 3 characters or 2 edits otherwise, and closer than
/// the name's length.
pub open spec fn suggestion_for(len: nat, low: Seq<char>, cands: Seq<Seq<char>>) -> Option<Seq<char>> {
    if cands.len() == 0 {
        None
    } else {
        let b = best_index(low, cands, cands.len() as int);
        let d = edit_distance(low, cands[b]);
        let limit: nat = if len <= 3 { 1 } else { 2 };
        if d <= limit && d < len {
            Some(cands[b])
        } else {
            None
        }
    }
}

/// What `suggest` proposes for `name`.
pub open spec fn suggestion(name: Seq<char>, cands: Seq<Seq<char>>) -> Option<Seq<char>> {
    suggestion_for(name.len(), lowercase(name), cands)
}

/// The suggestion for the name `name`, already lowercased to `low`.
pub fn suggest_lowered(name: &str, low: &str, candidates: &[&str]) -> (r: Option<String>)
    requires
        low@.len() < usize::MAX,
        forall|k: int| 0 <= k < candidates@.len() ==> (#[trigger] candidates@[k])@.len() < usize::MAX,
    ensures
        r matches Some(s) ==> suggestion_for(name@.len(), low@, candidates@.map_values(|c: &str| c@)) == Some(s@),
        r is None ==> suggestion_for(name@.len(), low@, candidates@.map_values(|c: &str| c@)) is None,
{
    let ghost cv = candidates@.map_values(|c: &str| c@);
    if candidates.len() == 0 {
        return None;
    }
    let mut best: usize = 0;
    let mut dist = levenshtein(low, candidates[0]);
    let mut k: usize = 1;
    while k < candidates.len()
        invariant
            1 <= k <= candidates@.len(),
            cv == candidates@.map_values(|c: &str| c@),
            low@.len() < usize::MAX,
            forall|j: int| 0 <= j < candidates@.len() ==> (#[trigger] candidates@[j])@.len() < usize::MAX,
            best == best_index(low@, cv, k as int),
            best < k,
            dist == edit_distance(low@, cv[best as int]),
        decreases candidates.len() - k,
    {
        proof { lemma_best_index(low@, cv, k as int); }
        let d = levenshtein(low, candidates[k]);
        if d < dist {
            dist = d;
            best = k;
        }
        k = k + 1;
    }
    let len = name.unicode_len();
    let limit: usize = if len <= 3 { 1 } else { 2 };
    if dist <= limit && dist < len {
        let s = candidates[best].to_string();
        proof {
            broadcast use vstd::string::group_string_axioms;
        }
        Some(s)
    } else {
        None
    }
}

/// Closest candidate to `name`, if it's close enough to plausibly be a typo.
/// Never suggests for a distance equal to the name's length (so `x` doesn't
/// become "did you mean e?").
pub fn suggest(name: &str, candidates: &[&str]) -> (r: Option<String>)
    requires
        forall|k: int| 0 <= k < candidates@.len() ==> (#[trigger] candidates@[k])@.len() < usize::MAX,
    ensures
        r matches Some(s) ==> suggestion(name@, candidates@.map_values(|c: &str| c@)) == Some(s@),
        r is None ==> suggestion(name@, candidates@.map_values(|c: &str| c@)) is None,
{
    let lower = to_lowercase(name);
    suggest_lowered(name, lower.as_str(), candidates)
}

} // verus!
