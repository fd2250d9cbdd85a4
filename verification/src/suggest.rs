//! "Did you mean …?": the nearest name to one that does not exist.
//!
//! One suggestion rather than a list, and a threshold that scales with the length of
//! the name: a fixed distance of 2 would make every one-character name a suggestion for
//! every other. The distance is the optimal string alignment distance — Levenshtein
//! with a transposition at cost 1 — because a swapped pair is the most common typing
//! error there is.

use vstd::prelude::*;
use vstd::string::*;

verus! {

/// How far apart two names may be and still be the same intent, by the length of the
/// wanted name: zero below three characters, then one, then two.
pub open spec fn spec_threshold(len: nat) -> nat {
    if len <= 2 {
        0
    } else if len <= 5 {
        1
    } else {
        2
    }
}

/// The least of three.
pub open spec fn min3(x: nat, y: nat, z: nat) -> nat {
    let m = if x <= y { x } else { y };
    if m <= z { m } else { z }
}

/// The optimal string alignment distance between the first `i` characters of `a` and
/// the first `j` characters of `b`: insertions, deletions and substitutions at cost 1,
/// and a transposition of two adjacent characters at cost 1.
pub open spec fn osa(a: Seq<char>, b: Seq<char>, i: nat, j: nat) -> nat
    decreases i, j,
{
    if i == 0 {
        j
    } else if j == 0 {
        i
    } else {
        let substitute = osa(a, b, (i - 1) as nat, (j - 1) as nat) + if a[i - 1] == b[j - 1] {
            0nat
        } else {
            1nat
        };
        let delete = osa(a, b, (i - 1) as nat, j) + 1;
        let insert = osa(a, b, i, (j - 1) as nat) + 1;
        let best = min3(substitute, delete, insert);
        if i > 1 && j > 1 && a[i - 1] == b[j - 2] && a[i - 2] == b[j - 1] {
            let swap = osa(a, b, (i - 2) as nat, (j - 2) as nat) + 1;
            if swap < best { swap } else { best }
        } else {
            best
        }
    }
}

/// The optimal string alignment distance between `a` and `b`.
pub open spec fn osa_distance(a: Seq<char>, b: Seq<char>) -> nat {
    osa(a, b, a.len(), b.len())
}

/// The distance never exceeds the longer of the two prefixes.
pub proof fn lemma_osa_at_most_longer(a: Seq<char>, b: Seq<char>, i: nat, j: nat)
    ensures
        osa(a, b, i, j) <= if i >= j { i } else { j },
    decreases i, j,
{
    if i > 0 && j > 0 {
        lemma_osa_at_most_longer(a, b, (i - 1) as nat, (j - 1) as nat);
    }
}

/// The distance is at least the difference of the two lengths: each step changes the
/// length difference by at most one.
pub proof fn lemma_osa_at_least_length_difference(a: Seq<char>, b: Seq<char>, i: nat, j: nat)
    ensures
        osa(a, b, i, j) >= if i >= j { (i - j) as nat } else { (j - i) as nat },
    decreases i, j,
{
    if i > 0 && j > 0 {
        lemma_osa_at_least_length_difference(a, b, (i - 1) as nat, (j - 1) as nat);
        lemma_osa_at_least_length_difference(a, b, (i - 1) as nat, j);
        lemma_osa_at_least_length_difference(a, b, i, (j - 1) as nat);
        if i > 1 && j > 1 {
            lemma_osa_at_least_length_difference(a, b, (i - 2) as nat, (j - 2) as nat);
        }
    }
}

/// Two prefixes are at distance zero exactly when they are equal.
pub proof fn lemma_osa_zero_iff_equal(a: Seq<char>, b: Seq<char>, i: nat, j: nat)
    requires
        i <= a.len(),
        j <= b.len(),
    ensures
        osa(a, b, i, j) == 0 <==> (i == j && a.subrange(0, i as int) =~= b.subrange(0, j as int)),
    decreases i, j,
{
    if i > 0 && j > 0 {
        lemma_osa_zero_iff_equal(a, b, (i - 1) as nat, (j - 1) as nat);
        lemma_osa_zero_iff_equal(a, b, (i - 1) as nat, j);
        lemma_osa_zero_iff_equal(a, b, i, (j - 1) as nat);
        if i == j && a.subrange(0, i as int) =~= b.subrange(0, j as int) {
            assert(a[i - 1] == a.subrange(0, i as int)[i - 1]);
            assert(b[j - 1] == b.subrange(0, j as int)[j - 1]);
            assert(a.subrange(0, i - 1) =~= a.subrange(0, i as int).subrange(0, i - 1));
            assert(b.subrange(0, j - 1) =~= b.subrange(0, j as int).subrange(0, j - 1));
        }
        if osa(a, b, i, j) == 0 {
            assert(a.subrange(0, i as int) =~= a.subrange(0, i - 1).push(a[i - 1]));
            assert(b.subrange(0, j as int) =~= b.subrange(0, j - 1).push(b[j - 1]));
        }
    }
}

/// The distance between two names is zero exactly when they are the same name.
pub proof fn lemma_distance_zero_iff_equal(a: Seq<char>, b: Seq<char>)
    ensures
        osa_distance(a, b) == 0 <==> a == b,
{
    lemma_osa_zero_iff_equal(a, b, a.len(), b.len());
    assert(a.subrange(0, a.len() as int) =~= a);
    assert(b.subrange(0, b.len() as int) =~= b);
}

/// The distance does not depend on which name is first.
pub proof fn lemma_osa_symmetric(a: Seq<char>, b: Seq<char>, i: nat, j: nat)
    ensures
        osa(a, b, i, j) == osa(b, a, j, i),
    decreases i, j,
{
    if i > 0 && j > 0 {
        lemma_osa_symmetric(a, b, (i - 1) as nat, (j - 1) as nat);
        lemma_osa_symmetric(a, b, (i - 1) as nat, j);
        lemma_osa_symmetric(a, b, i, (j - 1) as nat);
        if i > 1 && j > 1 {
            lemma_osa_symmetric(a, b, (i - 2) as nat, (j - 2) as nat);
        }
    }
}

/// The distance between two names is symmetric.
pub proof fn lemma_distance_symmetric(a: Seq<char>, b: Seq<char>)
    ensures
        osa_distance(a, b) == osa_distance(b, a),
{
    lemma_osa_symmetric(a, b, a.len(), b.len());
}

/// How far apart two names may be and still be the same intent.
///
/// Zero below three characters: a name that short carries no evidence of what was
/// meant. Then one, then two, and capped there.
pub fn threshold(name: &str) -> (r: usize)
    ensures
        r == spec_threshold(name@.len()),
{
    let n = name.unicode_len();
    if n <= 2 {
        0
    } else if n <= 5 {
        1
    } else {
        2
    }
}

/// The characters of `s`, in order.
fn chars_of(s: &str) -> (r: Vec<char>)
    ensures
        r@ == s@,
{
    let n = s.unicode_len();
    let mut out: Vec<char> = Vec::new();
    let mut i: usize = 0;
    while i < n
        invariant
            n == s@.len(),
            i <= n,
            out@ == s@.subrange(0, i as int),
        decreases n - i,
    {
        out.push(s.get_char(i));
        i = i + 1;
        assert(out@ =~= s@.subrange(0, i as int));
    }
    assert(out@ =~= s@);
    out
}

/// A row of `n + 1` zeros.
fn zeros(n: usize) -> (r: Vec<usize>)
    requires
        n < usize::MAX,
    ensures
        r@.len() == n + 1,
{
    let mut out: Vec<usize> = Vec::new();
    let mut k: usize = 0;
    while k <= n
        invariant
            k <= n + 1,
            n < usize::MAX,
            out@.len() == k,
        decreases n + 1 - k,
    {
        out.push(0);
        k = k + 1;
    }
    out
}

/// The optimal string alignment distance between `a` and `b`, or `limit + 1` when the
/// difference of their lengths alone already exceeds `limit`.
///
/// Three rows, because a transposition reads the row before the previous one.
pub fn edit_distance(a: &str, b: &str, limit: usize) -> (r: usize)
    requires
        a@.len() < usize::MAX,
        b@.len() < usize::MAX,
    ensures
        (if a@.len() >= b@.len() { a@.len() - b@.len() } else { b@.len() - a@.len() }) > limit
            ==> r == limit + 1,
        (if a@.len() >= b@.len() { a@.len() - b@.len() } else { b@.len() - a@.len() }) <= limit
            ==> r == osa_distance(a@, b@),
        (r <= limit) == (osa_distance(a@, b@) <= limit),
{
    let ac = chars_of(a);
    let bc = chars_of(b);
    let alen = ac.len();
    let blen = bc.len();
    let ghost sa = a@;
    let ghost sb = b@;
    proof {
        lemma_osa_at_least_length_difference(sa, sb, alen as nat, blen as nat);
    }
    let diff = if alen >= blen { alen - blen } else { blen - alen };
    if diff > limit {
        return limit + 1;
    }

    let mut before = zeros(blen);
    let mut current = zeros(blen);
    let mut previous: Vec<usize> = Vec::new();
    let mut k: usize = 0;
    while k <= blen
        invariant
            blen == sb.len(),
            blen < usize::MAX,
            k <= blen + 1,
            previous@.len() == k,
            forall|m: int| 0 <= m < k ==> previous@[m] == osa(sa, sb, 0, m as nat),
        decreases blen + 1 - k,
    {
        previous.push(k);
        k = k + 1;
    }

    let mut i: usize = 0;
    while i < alen
        invariant
            ac@ == sa,
            bc@ == sb,
            alen == sa.len(),
            blen == sb.len(),
            alen < usize::MAX,
            blen < usize::MAX,
            i <= alen,
            before@.len() == blen + 1,
            previous@.len() == blen + 1,
            current@.len() == blen + 1,
            forall|m: int| 0 <= m <= blen ==> previous@[m] == osa(sa, sb, i as nat, m as nat),
            i >= 1 ==> forall|m: int| 0 <= m <= blen ==> before@[m] == osa(sa, sb, (i - 1) as nat, m as nat),
        decreases alen - i,
    {
        let ca = ac[i];
        current.set(0, i + 1);
        let mut j: usize = 0;
        while j < blen
            invariant
                ac@ == sa,
                bc@ == sb,
                alen == sa.len(),
                blen == sb.len(),
                alen < usize::MAX,
                blen < usize::MAX,
                i < alen,
                j <= blen,
                ca == sa[i as int],
                before@.len() == blen + 1,
                previous@.len() == blen + 1,
                current@.len() == blen + 1,
                forall|m: int| 0 <= m <= blen ==> previous@[m] == osa(sa, sb, i as nat, m as nat),
                i >= 1 ==> forall|m: int| 0 <= m <= blen ==> before@[m] == osa(sa, sb, (i - 1) as nat, m as nat),
                forall|m: int| 0 <= m <= j ==> current@[m] == osa(sa, sb, (i + 1) as nat, m as nat),
            decreases blen - j,
        {
            let cb = bc[j];
            proof {
                lemma_osa_at_most_longer(sa, sb, i as nat, j as nat);
                lemma_osa_at_most_longer(sa, sb, i as nat, (j + 1) as nat);
                lemma_osa_at_most_longer(sa, sb, (i + 1) as nat, j as nat);
                if i > 0 && j > 0 {
                    lemma_osa_at_most_longer(sa, sb, (i - 1) as nat, (j - 1) as nat);
                }
            }
            let cost: usize = if ca != cb { 1 } else { 0 };
            let substitute = previous[j] + cost;
            let delete = previous[j + 1] + 1;
            let insert = current[j] + 1;
            let mut best = if substitute <= delete { substitute } else { delete };
            if insert < best {
                best = insert;
            }
            if i > 0 && j > 0 && ca == bc[j - 1] && ac[i - 1] == cb {
                let swap = before[j - 1] + 1;
                if swap < best {
                    best = swap;
                }
            }
            proof {
                let ii = (i + 1) as nat;
                let jj = (j + 1) as nat;
                assert(osa(sa, sb, ii, jj) == best);
            }
            current.set(j + 1, best);
            j = j + 1;
        }
        std::mem::swap(&mut before, &mut previous);
        std::mem::swap(&mut previous, &mut current);
        i = i + 1;
    }
    previous[blen]
}

/// Whether some candidate is exactly the wanted name.
pub open spec fn has_exact(wanted: Seq<char>, candidates: Seq<&str>) -> bool {
    exists|i: int| 0 <= i < candidates.len() && (#[trigger] candidates[i])@ == wanted
}

/// The distance from the wanted name to candidate `i`.
pub open spec fn candidate_distance(wanted: Seq<char>, candidates: Seq<&str>, i: int) -> nat {
    osa_distance(wanted, candidates[i]@)
}

/// Candidate `k` is the suggestion: near enough, strictly nearer than every candidate
/// before it, and no farther than every candidate after it.
pub open spec fn is_suggestion(wanted: Seq<char>, candidates: Seq<&str>, k: int) -> bool {
    &&& 0 <= k < candidates.len()
    &&& candidate_distance(wanted, candidates, k) <= spec_threshold(wanted.len())
    &&& forall|i: int|
        0 <= i < k ==> candidate_distance(wanted, candidates, i) > candidate_distance(
            wanted,
            candidates,
            k,
        )
    &&& forall|i: int|
        k < i < candidates.len() ==> candidate_distance(wanted, candidates, i)
            >= candidate_distance(wanted, candidates, k)
}

/// The nearest candidate to `wanted`, if one is near enough to be worth offering.
///
/// Ties go to the earlier candidate. An exact match means the caller is reporting an
/// error about a name that does exist, so it is never a suggestion and silences the
/// guess altogether; so does a name too short to guess about.
pub fn nearest<'a>(wanted: &str, candidates: &[&'a str]) -> (r: Option<&'a str>)
    requires
        wanted@.len() < usize::MAX,
        forall|i: int| 0 <= i < candidates@.len() ==> (#[trigger] candidates@[i])@.len() < usize::MAX,
    ensures
        r is None <==> (has_exact(wanted@, candidates@) || spec_threshold(wanted@.len()) == 0
            || forall|i: int|
            0 <= i < candidates@.len() ==> candidate_distance(wanted@, candidates@, i)
                > spec_threshold(wanted@.len())),
        r matches Some(c) ==> exists|k: int|
            is_suggestion(wanted@, candidates@, k) && c == #[trigger] candidates@[k],
{
    let limit = threshold(wanted);
    let mut best: Option<(usize, &'a str)> = None;
    let ghost mut best_k: int = 0;
    let n = candidates.len();
    let mut idx: usize = 0;
    while idx < n
        invariant
            n == candidates@.len(),
            idx <= n,
            limit == spec_threshold(wanted@.len()),
            wanted@.len() < usize::MAX,
            forall|i: int| 0 <= i < candidates@.len() ==> (#[trigger] candidates@[i])@.len() < usize::MAX,
            forall|i: int| 0 <= i < idx ==> (#[trigger] candidates@[i])@ != wanted@,
            limit == 0 ==> best is None,
            best is None ==> limit == 0 || forall|i: int|
                0 <= i < idx ==> candidate_distance(wanted@, candidates@, i) > limit,
            best matches Some((d, c)) ==> {
                &&& 0 <= best_k < idx
                &&& c == candidates@[best_k]
                &&& d == candidate_distance(wanted@, candidates@, best_k)
                &&& d <= limit
                &&& forall|i: int|
                    0 <= i < best_k ==> candidate_distance(wanted@, candidates@, i) > d
                &&& forall|i: int|
                    best_k < i < idx ==> candidate_distance(wanted@, candidates@, i) >= d
            },
        decreases n - idx,
    {
        let candidate = candidates[idx];
        if str_eq(candidate, wanted) {
            assert(has_exact(wanted@, candidates@));
            return None;
        }
        if limit != 0 {
            let distance = edit_distance(wanted, candidate, limit);
            if distance <= limit {
                let replace = match best {
                    None => true,
                    Some((current, _)) => distance < current,
                };
                if replace {
                    best = Some((distance, candidate));
                    proof {
                        best_k = idx as int;
                    }
                }
            }
        }
        idx = idx + 1;
    }
    match best {
        Some((_, name)) => {
            assert(is_suggestion(wanted@, candidates@, best_k));
            Some(name)
        },
        None => None,
    }
}

/// Whether two strings hold the same characters.
pub fn str_eq(a: &str, b: &str) -> (r: bool)
    ensures
        r == (a@ == b@),
{
    let n = a.unicode_len();
    let m = b.unicode_len();
    if n != m {
        return false;
    }
    let mut i: usize = 0;
    while i < n
        invariant
            n == a@.len(),
            n == b@.len(),
            i <= n,
            forall|k: int| 0 <= k < i ==> a@[k] == b@[k],
        decreases n - i,
    {
        if a.get_char(i) != b.get_char(i) {
            return false;
        }
        i = i + 1;
    }
    assert(a@ =~= b@);
    true
}

} // verus!
