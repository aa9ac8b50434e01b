//! `.tackignore` matching.
//!
//! Rules are gitignore-style: one glob per line, blank lines and `#` comments
//! are skipped, and a leading `!` negates an earlier match. Patterns match
//! **repo-relative** paths (forward-slash separated, no leading slash). The
//! `.tack/` control directory is **always** ignored, regardless of the rules.
//!
//! | Token | Meaning |
//! |---|---|
//! | `*` | any run of characters **except** `/` |
//! | `**` | any run of characters **including** `/` (spanning directories) |
//! | `?` | any single character except `/` |
//! | leading `/` | anchor the pattern to the repo root |
//! | trailing `/` | the pattern matches directories only |
//! | other chars | matched literally |
//!
//! A pattern that contains no `/` (after stripping any trailing one) matches by
//! **basename** at any depth. A pattern that contains a `/` is matched against
//! the whole repo-relative path. Last match wins.
use vstd::prelude::*;
use vstd::string::*;

use crate::text;
use crate::encoding;
use crate::text::{chars_of, is_at, skip_white, skip_white_back, string_of};

verus! {

// ── globs ────────────────────────────────────────────────────────────────────

/// `*`
const STAR: char = '*';

/// `?`
const QUESTION: char = '?';

/// `/`
const SLASH: char = '/';

/// Whether `**` stands in the pattern at `i`.
pub open spec fn double_star(p: Seq<char>, i: int) -> bool {
    i + 1 < p.len() && p[i] == '*' && p[i + 1] == '*'
}

/// The index behind a `**` at `i` and an optional `/` that follows it.
pub open spec fn behind_double(p: Seq<char>, i: int) -> int {
    if i + 2 < p.len() && p[i + 2] == '/' {
        i + 3
    } else {
        i + 2
    }
}

/// Whether no `/` stands in `t[a..b]`.
pub open spec fn slash_free(t: Seq<char>, a: int, b: int) -> bool {
    forall|k: int| a <= k < b ==> #[trigger] t[k] != '/'
}

/// Whether the pattern character `p` (not `*`) matches the single character `c`.
pub open spec fn single(p: char, c: char) -> bool {
    if p == '?' {
        c != '/'
    } else {
        p == c
    }
}

/// Whether the pattern from `i` on matches the text from `j` on.
///
/// A star matches nothing, or one more character than before; only a `**` takes a
/// `/`.
pub open spec fn glob(p: Seq<char>, i: int, t: Seq<char>, j: int) -> bool
    decreases p.len() - i, t.len() - j,
{
    if i >= p.len() {
        j == t.len()
    } else if double_star(p, i) {
        glob(p, behind_double(p, i), t, j) || (j < t.len() && glob(p, i, t, j + 1))
    } else if p[i] == '*' {
        glob(p, i + 1, t, j) || (j < t.len() && t[j] != '/' && glob(p, i, t, j + 1))
    } else {
        j < t.len() && single(p[i], t[j]) && glob(p, i + 1, t, j + 1)
    }
}

/// Whether the pattern from `n` on matches the text from some index on that is
/// not before `j`.
pub open spec fn glob_any(p: Seq<char>, n: int, t: Seq<char>, j: int) -> bool {
    exists|k: int| j <= k <= t.len() && #[trigger] glob(p, n, t, k)
}

/// Whether the pattern from `n` on matches the text behind a run from `j` on
/// without a `/`.
pub open spec fn glob_run(p: Seq<char>, n: int, t: Seq<char>, j: int) -> bool {
    exists|k: int| j <= k <= t.len() && slash_free(t, j, k) && #[trigger] glob(p, n, t, k)
}

/// A `**` matches any run, `/` or not.
pub proof fn lemma_double_star(p: Seq<char>, i: int, t: Seq<char>, j: int)
    requires
        double_star(p, i),
        0 <= j <= t.len(),
    ensures
        glob(p, i, t, j) == glob_any(p, behind_double(p, i), t, j),
    decreases t.len() - j,
{
    let n = behind_double(p, i);
    if glob(p, n, t, j) {
        assert(glob_any(p, n, t, j));
    }
    if j < t.len() {
        lemma_double_star(p, i, t, j + 1);
        if glob_any(p, n, t, j) {
            let k = choose|k: int| j <= k <= t.len() && #[trigger] glob(p, n, t, k);
            assert(k == j || glob_any(p, n, t, j + 1));
        }
        if glob_any(p, n, t, j + 1) {
            let k = choose|k: int| j + 1 <= k <= t.len() && #[trigger] glob(p, n, t, k);
            assert(glob_any(p, n, t, j));
        }
    } else if glob_any(p, n, t, j) {
        let k = choose|k: int| j <= k <= t.len() && #[trigger] glob(p, n, t, k);
        assert(k == j);
    }
}

/// A `*` matches any run without `/`.
pub proof fn lemma_single_star(p: Seq<char>, i: int, t: Seq<char>, j: int)
    requires
        0 <= i < p.len(),
        p[i] == '*',
        !double_star(p, i),
        0 <= j <= t.len(),
    ensures
        glob(p, i, t, j) == glob_run(p, i + 1, t, j),
    decreases t.len() - j,
{
    let n = i + 1;
    if glob_run(p, n, t, j) {
        let k = choose|k: int|
            j <= k <= t.len() && slash_free(t, j, k) && #[trigger] glob(p, n, t, k);
        if k > j {
            lemma_single_star(p, i, t, j + 1);
            assert(t[j] != '/');
            assert(slash_free(t, j + 1, k));
            assert(glob_run(p, n, t, j + 1));
        }
    }
    if glob(p, i, t, j) {
        if glob(p, n, t, j) {
            assert(slash_free(t, j, j));
        } else {
            lemma_single_star(p, i, t, j + 1);
            let k = choose|k: int|
                j + 1 <= k <= t.len() && slash_free(t, j + 1, k) && #[trigger] glob(p, n, t, k);
            assert(slash_free(t, j, k));
        }
    }
}

/// Whether the glob matches the text.
pub open spec fn glob_matches(pattern: Seq<char>, text: Seq<char>) -> bool {
    glob(pattern, 0, text, 0)
}

/// Whether the pattern from `n` on matches behind a longer run from `j` on.
spec fn longer_run(p: Seq<char>, n: int, t: Seq<char>, j: int) -> bool {
    exists|k: int| j < k <= t.len() && slash_free(t, j, k) && #[trigger] glob(p, n, t, k)
}

/// Whether the pattern from `n` on matches from some index on behind `j`.
spec fn later(p: Seq<char>, n: int, t: Seq<char>, j: int) -> bool {
    exists|k: int| j < k <= t.len() && #[trigger] glob(p, n, t, k)
}

/// Whether the `n` pattern characters from `a` on hold no star and match the text
/// characters from `k` on.
spec fn run_matches(p: Seq<char>, a: int, n: int, t: Seq<char>, k: int) -> bool {
    &&& 0 <= a
    &&& a + n <= p.len()
    &&& 0 <= k
    &&& k + n <= t.len()
    &&& forall|o: int| 0 <= o < n ==> #[trigger] p[a + o] != '*' && single(p[a + o], t[k + o])
}

/// A run without stars that matches can be left out on both sides.
proof fn lemma_run_skip(p: Seq<char>, a: int, n: int, t: Seq<char>, k: int)
    requires
        0 <= n,
        run_matches(p, a, n, t, k),
    ensures
        glob(p, a, t, k) == glob(p, a + n, t, k + n),
    decreases n,
{
    if n > 0 {
        assert(p[a + 0] != '*' && single(p[a + 0], t[k + 0]));
        assert(run_matches(p, a + 1, n - 1, t, k + 1)) by {
            assert forall|o: int| 0 <= o < n - 1 implies #[trigger] p[a + 1 + o] != '*' && single(
                p[a + 1 + o],
                t[k + 1 + o],
            ) by {
                assert(p[a + (o + 1)] != '*' && single(p[a + (o + 1)], t[k + (o + 1)]));
            }
        }
        lemma_run_skip(p, a + 1, n - 1, t, k + 1);
    }
}

/// Where the pattern matches that begins with a run without stars, the run
/// itself matches, and the rest behind it.
proof fn lemma_run_first(p: Seq<char>, a: int, n: int, t: Seq<char>, k: int)
    requires
        0 <= n,
        0 <= a,
        a + n <= p.len(),
        0 <= k <= t.len(),
        forall|o: int| 0 <= o < n ==> #[trigger] p[a + o] != '*',
        glob(p, a, t, k),
    ensures
        run_matches(p, a, n, t, k),
        glob(p, a + n, t, k + n),
    decreases n,
{
    if n > 0 {
        assert(p[a + 0] != '*');
        assert forall|o: int| 0 <= o < n - 1 implies #[trigger] p[a + 1 + o] != '*' by {
            assert(p[a + (o + 1)] != '*');
        }
        lemma_run_first(p, a + 1, n - 1, t, k + 1);
        assert forall|o: int| 0 <= o < n implies #[trigger] p[a + o] != '*' && single(
            p[a + o],
            t[k + o],
        ) by {
            if o > 0 {
                assert(p[a + 1 + (o - 1)] != '*' && single(p[a + 1 + (o - 1)], t[k + 1 + (o - 1)]));
            }
        }
    }
}

/// A run that matches at two places that are a stretch without `/` apart holds
/// no `/`.
proof fn lemma_run_no_slash(p: Seq<char>, a: int, n: int, t: Seq<char>, j: int, k: int, o: int)
    requires
        j < k,
        run_matches(p, a, n, t, j),
        run_matches(p, a, n, t, k),
        slash_free(t, j, k),
        0 <= o < n,
    ensures
        t[k + o] != '/',
    decreases o,
{
    if t[k + o] == '/' {
        assert(p[a + o] != '*' && single(p[a + o], t[k + o]));
        assert(single(p[a + o], t[j + o]));
        assert(t[j + o] == '/');
        if j + o < k {
            assert(false);
        } else {
            let earlier = j + o - k;
            lemma_run_no_slash(p, a, n, t, j, k, earlier);
            assert(k + earlier == j + o);
        }
    }
}

/// The earlier of two single stars in one segment need not run longer: if it
/// could, the later star can make up for it.
proof fn lemma_star_suffices(p: Seq<char>, a: int, n: int, t: Seq<char>, j: int)
    requires
        0 <= n,
        run_matches(p, a, n, t, j),
        a + n < p.len(),
        p[a + n] == '*',
        !double_star(p, a + n),
        longer_run(p, a, t, j),
    ensures
        glob(p, a + n, t, j + n),
{
    let k = choose|k: int| j < k <= t.len() && slash_free(t, j, k) && #[trigger] glob(p, a, t, k);
    assert forall|o: int| 0 <= o < n implies #[trigger] p[a + o] != '*' by {}
    lemma_run_first(p, a, n, t, k);
    lemma_single_star(p, a + n, t, k + n);
    lemma_single_star(p, a + n, t, j + n);
    let m = choose|m: int|
        k + n <= m <= t.len() && slash_free(t, k + n, m) && #[trigger] glob(p, a + n + 1, t, m);
    assert(slash_free(t, j + n, m)) by {
        assert forall|x: int| j + n <= x < m implies #[trigger] t[x] != '/' by {
            if x < k {
            } else if x < k + n {
                lemma_run_no_slash(p, a, n, t, j, k, x - k);
            }
        }
    }
    assert(glob_run(p, a + n + 1, t, j + n));
}

/// A `**` makes up for a longer run of an earlier single star.
proof fn lemma_double_after_star(p: Seq<char>, a: int, n: int, t: Seq<char>, j: int)
    requires
        0 <= n,
        run_matches(p, a, n, t, j),
        double_star(p, a + n),
        longer_run(p, a, t, j),
    ensures
        glob(p, a + n, t, j + n),
{
    let k = choose|k: int| j < k <= t.len() && slash_free(t, j, k) && #[trigger] glob(p, a, t, k);
    assert forall|o: int| 0 <= o < n implies #[trigger] p[a + o] != '*' by {}
    lemma_run_first(p, a, n, t, k);
    lemma_double_star(p, a + n, t, k + n);
    lemma_double_star(p, a + n, t, j + n);
    let next = behind_double(p, a + n);
    let m = choose|m: int| k + n <= m <= t.len() && #[trigger] glob(p, next, t, m);
    assert(glob_any(p, next, t, j + n));
}

/// The position of an optional backtrack point, for the measure of progress.
spec fn point(at: Option<usize>) -> int {
    match at {
        Some(i) => i + 1,
        None => 0,
    }
}

/// Backtracking glob matcher over the characters of a pattern and a text.
///
/// Only the most recent `*` and the most recent `**` are tried again: an
/// earlier one has nothing to offer that the later one has not.
pub fn match_segments(p: &[char], t: &[char]) -> (r: bool)
    ensures
        r == glob(p@, 0, t@, 0),
{
    let mut pi: usize = 0;
    let mut ti: usize = 0;
    // The most recent `*` (single-segment) backtrack point.
    let mut star_pi: Option<usize> = None;
    let mut star_ti: usize = 0;
    // The most recent `**` (cross-segment) backtrack point.
    let mut dstar_pi: Option<usize> = None;
    let mut dstar_ti: usize = 0;
    loop
        invariant
            pi <= p@.len(),
            ti <= t@.len(),
            star_ti <= t@.len(),
            dstar_ti <= t@.len(),
            glob(p@, 0, t@, 0) == (glob(p@, pi as int, t@, ti as int) || (star_pi matches Some(s)
                && longer_run(p@, s + 1, t@, star_ti as int)) || (dstar_pi matches Some(d)
                && later(p@, d as int, t@, dstar_ti as int))),
            star_pi matches Some(s) ==> {
                &&& s < pi
                &&& ti == star_ti + (pi - s - 1)
                &&& run_matches(p@, s + 1, pi - s - 1, t@, star_ti as int)
            },
            dstar_pi matches Some(d) ==> {
                &&& d <= pi
                &&& glob_any(p@, d as int, t@, dstar_ti as int) ==> glob_any(
                    p@,
                    pi as int,
                    t@,
                    ti as int,
                )
                &&& star_pi matches Some(s) ==> d <= s && (glob_any(
                    p@,
                    d as int,
                    t@,
                    dstar_ti as int,
                ) ==> glob_any(p@, s + 1, t@, star_ti as int))
            },
        decreases
                p@.len() + 1 - point(dstar_pi),
                t@.len() - dstar_ti,
                p@.len() + 1 - point(star_pi),
                t@.len() - star_ti,
                p@.len() - pi,
    {
        let ghost here = glob(p@, pi as int, t@, ti as int);
        if pi < p.len() {
            let c = p[pi];
            if c == STAR && pi + 1 < p.len() && p[pi + 1] == STAR {
                // `**` — matches across separators. Skip the token plus an
                // optional following '/'.
                let mut next: usize = pi + 2;
                if next < p.len() && p[next] == SLASH {
                    next = next + 1;
                }
                proof {
                    assert(next == behind_double(p@, pi as int));
                    lemma_double_star(p@, pi as int, t@, ti as int);
                    if let Some(s) = star_pi {
                        if longer_run(p@, s + 1, t@, star_ti as int) {
                            lemma_double_after_star(
                                p@,
                                s + 1,
                                pi - s - 1,
                                t@,
                                star_ti as int,
                            );
                        }
                    }
                    if let Some(d) = dstar_pi {
                        if later(p@, d as int, t@, dstar_ti as int) {
                            assert(glob_any(p@, d as int, t@, dstar_ti as int));
                            let e = choose|e: int|
                                ti <= e <= t@.len() && #[trigger] glob(p@, pi as int, t@, e);
                            lemma_double_star(p@, pi as int, t@, e);
                            let m = choose|m: int|
                                e <= m <= t@.len() && #[trigger] glob(p@, next as int, t@, m);
                            assert(glob_any(p@, next as int, t@, ti as int));
                        }
                    }
                    assert(glob(p@, 0, t@, 0) == here);
                    assert(here == (glob(p@, next as int, t@, ti as int) || later(
                        p@,
                        next as int,
                        t@,
                        ti as int,
                    ))) by {
                        if here {
                            let m = choose|m: int|
                                ti <= m <= t@.len() && #[trigger] glob(p@, next as int, t@, m);
                            assert(m == ti || later(p@, next as int, t@, ti as int));
                        }
                        if later(p@, next as int, t@, ti as int) {
                            let m = choose|m: int|
                                ti < m <= t@.len() && #[trigger] glob(p@, next as int, t@, m);
                            assert(glob_any(p@, next as int, t@, ti as int));
                        }
                    }
                }
                dstar_pi = Some(next);
                dstar_ti = ti;
                // `**` supersedes any single star before it.
                star_pi = None;
                pi = next;
                continue;
            }
            if c == STAR {
                // Single `*` — matches any run NOT containing '/'.
                proof {
                    lemma_single_star(p@, pi as int, t@, ti as int);
                    if let Some(s) = star_pi {
                        if longer_run(p@, s + 1, t@, star_ti as int) {
                            lemma_star_suffices(p@, s + 1, pi - s - 1, t@, star_ti as int);
                        }
                    }
                    assert(here == (glob(p@, pi + 1, t@, ti as int) || longer_run(
                        p@,
                        pi + 1,
                        t@,
                        ti as int,
                    ))) by {
                        if here {
                            let m = choose|m: int|
                                ti <= m <= t@.len() && slash_free(t@, ti as int, m)
                                    && #[trigger] glob(p@, pi + 1, t@, m);
                            assert(m == ti || longer_run(p@, pi + 1, t@, ti as int));
                        }
                        if glob(p@, pi + 1, t@, ti as int) {
                            assert(slash_free(t@, ti as int, ti as int));
                            assert(glob_run(p@, pi + 1, t@, ti as int));
                        }
                        if longer_run(p@, pi + 1, t@, ti as int) {
                            assert(glob_run(p@, pi + 1, t@, ti as int));
                        }
                    }
                    if glob_any(p@, pi as int, t@, ti as int) {
                        let e = choose|e: int|
                            ti <= e <= t@.len() && #[trigger] glob(p@, pi as int, t@, e);
                        lemma_single_star(p@, pi as int, t@, e);
                        let m = choose|m: int|
                            e <= m <= t@.len() && slash_free(t@, e, m) && #[trigger] glob(
                                p@,
                                pi + 1,
                                t@,
                                m,
                            );
                        assert(glob_any(p@, pi + 1, t@, ti as int));
                    }
                }
                star_pi = Some(pi);
                star_ti = ti;
                pi = pi + 1;
                continue;
            }
            if ti < t.len() && ((c == QUESTION && t[ti] != SLASH) || t[ti] == c) {
                proof {
                    assert(single(p@[pi as int], t@[ti as int]));
                    assert(here == glob(p@, pi + 1, t@, ti + 1));
                    if let Some(s) = star_pi {
                        let n = pi - s - 1;
                        assert forall|o: int| 0 <= o < n + 1 implies #[trigger] p@[s + 1 + o] != '*'
                            && single(p@[s + 1 + o], t@[star_ti + o]) by {}
                    }
                    if glob_any(p@, pi as int, t@, ti as int) {
                        let e = choose|e: int|
                            ti <= e <= t@.len() && #[trigger] glob(p@, pi as int, t@, e);
                        assert(glob(p@, pi + 1, t@, e + 1));
                        assert(glob_any(p@, pi + 1, t@, ti + 1));
                    }
                }
                pi = pi + 1;
                ti = ti + 1;
                continue;
            }
        } else if ti == t.len() {
            return true;
        }
        assert(!here);
        // Mismatch — try to backtrack into a `*` (single segment) first.
        if let Some(s) = star_pi {
            if star_ti < t.len() && t[star_ti] != SLASH {
                proof {
                    lemma_run_skip(p@, s + 1, pi - s - 1, t@, star_ti as int);
                    assert(!glob(p@, s + 1, t@, star_ti as int));
                    let n = s + 1;
                    let j = star_ti as int;
                    assert(longer_run(p@, n, t@, j) == (glob(p@, n, t@, j + 1) || longer_run(
                        p@,
                        n,
                        t@,
                        j + 1,
                    ))) by {
                        if longer_run(p@, n, t@, j) {
                            let k = choose|k: int|
                                j < k <= t@.len() && slash_free(t@, j, k) && #[trigger] glob(
                                    p@,
                                    n,
                                    t@,
                                    k,
                                );
                            if k > j + 1 {
                                assert(slash_free(t@, j + 1, k));
                                assert(longer_run(p@, n, t@, j + 1));
                            }
                        }
                        if longer_run(p@, n, t@, j + 1) {
                            let k = choose|k: int|
                                j + 1 < k <= t@.len() && slash_free(t@, j + 1, k)
                                    && #[trigger] glob(p@, n, t@, k);
                            assert(slash_free(t@, j, k));
                        }
                        if glob(p@, n, t@, j + 1) {
                            assert(slash_free(t@, j, j + 1));
                        }
                    }
                    if glob_any(p@, n, t@, j) {
                        let k = choose|k: int| j <= k <= t@.len() && #[trigger] glob(p@, n, t@, k);
                        assert(k != j);
                        assert(glob_any(p@, n, t@, j + 1));
                    }
                }
                star_ti = star_ti + 1;
                pi = s + 1;
                ti = star_ti;
                continue;
            }
            // The single `*` cannot take a '/', nor run past the end.
            assert(!longer_run(p@, s + 1, t@, star_ti as int)) by {
                if longer_run(p@, s + 1, t@, star_ti as int) {
                    let k = choose|k: int|
                        star_ti < k <= t@.len() && slash_free(t@, star_ti as int, k)
                            && #[trigger] glob(p@, s + 1, t@, k);
                    assert(t@[star_ti as int] != '/');
                }
            }
        }
        // Fall back to the broader `**`, which may take separators.
        if let Some(d) = dstar_pi {
            if dstar_ti < t.len() {
                proof {
                    let j = dstar_ti as int;
                    assert(later(p@, d as int, t@, j) == (glob(p@, d as int, t@, j + 1) || later(
                        p@,
                        d as int,
                        t@,
                        j + 1,
                    ))) by {
                        if later(p@, d as int, t@, j) {
                            let k = choose|k: int|
                                j < k <= t@.len() && #[trigger] glob(p@, d as int, t@, k);
                            assert(k == j + 1 || later(p@, d as int, t@, j + 1));
                        }
                        if later(p@, d as int, t@, j + 1) {
                            let k = choose|k: int|
                                j + 1 < k <= t@.len() && #[trigger] glob(p@, d as int, t@, k);
                            assert(later(p@, d as int, t@, j));
                        }
                    }
                }
                dstar_ti = dstar_ti + 1;
                pi = d;
                ti = dstar_ti;
                star_pi = None;
                continue;
            }
        }
        return false;
    }
}

/// Matches `pattern` against `text`: `*` (no slash), `**` (any), `?` (one
/// non-slash), literals.
pub fn glob_match(pattern: &str, text: &str) -> (r: bool)
    ensures
        r == glob_matches(pattern@, text@),
{
    let p = chars_of(pattern);
    let t = chars_of(text);
    match_segments(p.as_slice(), t.as_slice())
}

// ── rules ────────────────────────────────────────────────────────────────────

/// One parsed ignore rule.
#[derive(Debug, Clone)]
struct Rule {
    /// The glob with any leading `!`, leading `/`, and trailing `/` stripped.
    glob: String,
    /// `true` if the rule began with `!` (re-includes a previously-ignored
    /// path).
    negated: bool,
    /// `true` if the pattern was anchored to the repo root with a leading `/`,
    /// or contains an interior `/`.
    anchored: bool,
    /// `true` if a trailing `/` restricted the rule to directories only.
    dir_only: bool,
}

/// A rule, with its glob as characters.
pub struct RuleV {
    pub glob: Seq<char>,
    pub negated: bool,
    pub anchored: bool,
    pub dir_only: bool,
}

impl View for Rule {
    type V = RuleV;

    closed spec fn view(&self) -> RuleV {
        RuleV {
            glob: self.glob@,
            negated: self.negated,
            anchored: self.anchored,
            dir_only: self.dir_only,
        }
    }
}

/// `s` without the leading `c`, if it has one.
pub open spec fn without_first(s: Seq<char>, c: char) -> Seq<char> {
    if s.len() > 0 && s[0] == c {
        s.skip(1)
    } else {
        s
    }
}

/// `s` without the trailing `c`, if it has one.
pub open spec fn without_last(s: Seq<char>, c: char) -> Seq<char> {
    if s.len() > 0 && s.last() == c {
        s.drop_last()
    } else {
        s
    }
}

/// The rule on a line, if there is one: blank lines and comments hold none.
pub open spec fn rule_of(raw: Seq<char>) -> Option<RuleV> {
    let line = text::trimmed_end(raw);
    let start = text::trimmed_start(line);
    if start.len() == 0 || start[0] == '#' {
        None
    } else {
        rule_in(line)
    }
}

/// The rule that a line without trailing white space stands for.
pub open spec fn rule_in(line: Seq<char>) -> Option<RuleV> {
    let negated = line[0] == '!';
    // An escaped leading '#' or '!' is literal.
    let escaped = without_first(without_first_if(line, negated), '\\');
    let dir_only = escaped.len() > 0 && escaped.last() == '/';
    let bare = without_last(escaped, '/');
    let rooted = bare.len() > 0 && bare[0] == '/';
    let glob = without_first(bare, '/');
    if glob.len() == 0 {
        None
    } else {
        Some(RuleV { glob, negated, anchored: rooted || glob.contains('/'), dir_only })
    }
}

/// `line` without its first character, if it is negated.
pub open spec fn without_first_if(line: Seq<char>, negated: bool) -> Seq<char> {
    if negated {
        line.skip(1)
    } else {
        line
    }
}

/// The rules on the lines, in order.
pub open spec fn rules_on(lines: Seq<Seq<char>>) -> Seq<RuleV>
    decreases lines.len(),
{
    if lines.len() == 0 {
        seq![]
    } else {
        let before = rules_on(lines.drop_last());
        match rule_of(lines.last()) {
            Some(rule) => before.push(rule),
            None => before,
        }
    }
}

/// A path with forward slashes only, and none at its ends.
pub open spec fn normal_path(path: Seq<char>) -> Seq<char> {
    without_slashes(path.map_values(|c: char| if c == '\\' { '/' } else { c }))
}

/// `s` without its leading and trailing slashes.
pub open spec fn without_slashes(s: Seq<char>) -> Seq<char>
    decreases s.len(),
{
    if s.len() > 0 && s[0] == '/' {
        without_slashes(s.skip(1))
    } else if s.len() > 0 && s.last() == '/' {
        without_slashes(s.drop_last())
    } else {
        s
    }
}

/// The last component of a path.
pub open spec fn base_name(path: Seq<char>) -> Seq<char>
    decreases path.len(),
{
    if path.contains('/') {
        base_name(path.skip(1))
    } else {
        path
    }
}

/// Whether the rule's glob matches the normalized path.
pub open spec fn rule_matches(rule: RuleV, path: Seq<char>) -> bool {
    if rule.anchored {
        glob_matches(rule.glob, path)
    } else {
        glob_matches(rule.glob, base_name(path))
    }
}

/// Whether the rule applies to the path: it matches, and a rule for directories
/// meets one.
pub open spec fn applies(rule: RuleV, path: Seq<char>, is_dir: bool) -> bool {
    (rule.dir_only ==> is_dir) && rule_matches(rule, path)
}

/// Whether the last of the rules that applies ignores the path.
pub open spec fn last_ignores(rules: Seq<RuleV>, path: Seq<char>, is_dir: bool) -> bool
    decreases rules.len(),
{
    if rules.len() == 0 {
        false
    } else if applies(rules.last(), path, is_dir) {
        !rules.last().negated
    } else {
        last_ignores(rules.drop_last(), path, is_dir)
    }
}

/// Whether the path is the control directory or lies in it.
pub open spec fn is_control(path: Seq<char>) -> bool {
    path == ".tack"@ || text::begins_with(path, ".tack/"@)
}

/// Whether the rules ignore the path.
pub open spec fn ignores(rules: Seq<RuleV>, path: Seq<char>, is_dir: bool) -> bool {
    is_control(normal_path(path)) || last_ignores(rules, normal_path(path), is_dir)
}

/// The control directory is ignored whatever the rules are.
pub proof fn lemma_control_always_ignored(rules: Seq<RuleV>, path: Seq<char>, is_dir: bool)
    requires
        is_control(normal_path(path)),
    ensures
        ignores(rules, path, is_dir),
{
}

/// A later rule that applies decides, whatever stands before it.
pub proof fn lemma_last_match_wins(
    rules: Seq<RuleV>,
    rule: RuleV,
    path: Seq<char>,
    is_dir: bool,
)
    requires
        !is_control(normal_path(path)),
        applies(rule, normal_path(path), is_dir),
    ensures
        ignores(rules.push(rule), path, is_dir) == !rule.negated,
{
}

/// A later rule that does not apply changes nothing.
pub proof fn lemma_other_rules_do_not_matter(
    rules: Seq<RuleV>,
    rule: RuleV,
    path: Seq<char>,
    is_dir: bool,
)
    requires
        !applies(rule, normal_path(path), is_dir),
    ensures
        ignores(rules.push(rule), path, is_dir) == ignores(rules, path, is_dir),
{
    assert(rules.push(rule).drop_last() =~= rules);
}

// ── lines that hold no rule ──────────────────────────────────────────────────

/// Whether a line is blank or a comment.
pub open spec fn is_skipped(line: Seq<char>) -> bool {
    let start = text::trimmed_start(text::trimmed_end(line));
    start.len() == 0 || start[0] == '#'
}

/// The lines without blank lines, comments and trailing white space.
pub open spec fn tidied(lines: Seq<Seq<char>>) -> Seq<Seq<char>>
    decreases lines.len(),
{
    if lines.len() == 0 {
        seq![]
    } else {
        let before = tidied(lines.drop_last());
        if is_skipped(lines.last()) {
            before
        } else {
            before.push(text::trimmed_end(lines.last()))
        }
    }
}

/// The lines as one text, with a line break between any two.
pub open spec fn joined_lines(lines: Seq<Seq<char>>) -> Seq<char>
    decreases lines.len(),
{
    if lines.len() == 0 {
        seq![]
    } else if lines.len() == 1 {
        lines[0]
    } else {
        joined_lines(lines.drop_last()).push('\n') + lines.last()
    }
}

/// The text without blank lines, comments and trailing white space.
pub open spec fn tidy_text(text: Seq<char>) -> Seq<char> {
    joined_lines(tidied(text::pieces(text, '\n')))
}

/// Whether no line holds a line break.
spec fn unbroken(lines: Seq<Seq<char>>) -> bool {
    forall|i: int, k: int|
        0 <= i < lines.len() && 0 <= k < lines[i].len() ==> #[trigger] lines[i][k] != '\n'
}

proof fn lemma_trimmed_twice(s: Seq<char>)
    ensures
        text::trimmed_end(text::trimmed_end(s)) == text::trimmed_end(s),
        text::trimmed_end(s).len() <= s.len(),
        forall|k: int|
            0 <= k < text::trimmed_end(s).len() ==> #[trigger] text::trimmed_end(s)[k] == s[k],
    decreases s.len(),
{
    if s.len() > 0 && text::white(s.last()) {
        lemma_trimmed_twice(s.drop_last());
    }
}

proof fn lemma_tidied(lines: Seq<Seq<char>>)
    ensures
        rules_on(tidied(lines)) == rules_on(lines),
        unbroken(lines) ==> unbroken(tidied(lines)),
    decreases lines.len(),
{
    if lines.len() > 0 {
        let rest = lines.drop_last();
        let line = lines.last();
        lemma_tidied(rest);
        lemma_trimmed_twice(line);
        let more = tidied(rest).push(text::trimmed_end(line));
        assert(more.drop_last() =~= tidied(rest));
        if unbroken(lines) {
            assert forall|i: int, k: int|
                0 <= i < rest.len() && 0 <= k < rest[i].len() implies #[trigger] rest[i][k]
                != '\n' by {
                assert(lines[i][k] != '\n');
            }
            assert forall|i: int, k: int|
                0 <= i < more.len() && 0 <= k < more[i].len() implies #[trigger] more[i][k]
                != '\n' by {
                if i < tidied(rest).len() {
                    assert(tidied(rest)[i][k] != '\n');
                } else {
                    assert(lines[lines.len() - 1][k] != '\n');
                }
            }
        }
    }
}

proof fn lemma_pieces_unbroken(s: Seq<char>)
    ensures
        text::pieces(s, '\n').len() > 0,
        unbroken(text::pieces(s, '\n')),
    decreases s.len(),
{
    let now = text::pieces(s, '\n');
    if s.len() > 0 {
        lemma_pieces_unbroken(s.drop_last());
        let before = text::pieces(s.drop_last(), '\n');
        assert forall|i: int, k: int| 0 <= i < now.len() && 0 <= k < now[i].len() implies
            #[trigger] now[i][k] != '\n' by {
            if i < before.len() - 1 || s.last() == '\n' {
                assert(now[i] == before[i] || now[i].len() == 0);
                assert(before[i][k] != '\n');
            } else {
                let last = before[before.len() - 1];
                assert(now[i] == last.push(s.last()));
                if k < last.len() {
                    assert(before[before.len() - 1][k] != '\n');
                }
            }
        }
    }
}

/// More of the last line.
proof fn lemma_pieces_append(s: Seq<char>, t: Seq<char>)
    requires
        forall|k: int| 0 <= k < t.len() ==> #[trigger] t[k] != '\n',
    ensures
        ({
            let before = text::pieces(s, '\n');
            text::pieces(s + t, '\n') == before.drop_last().push(before.last() + t)
        }),
    decreases t.len(),
{
    let before = text::pieces(s, '\n');
    lemma_pieces_unbroken(s);
    if t.len() == 0 {
        assert(s + t =~= s);
        assert(before.last() + t =~= before.last());
        assert(before.drop_last().push(before.last()) =~= before);
    } else {
        let u = t.drop_last();
        assert forall|k: int| 0 <= k < u.len() implies #[trigger] u[k] != '\n' by {
            assert(t[k] != '\n');
        }
        lemma_pieces_append(s, u);
        assert((s + t).drop_last() =~= s + u);
        assert((s + t).last() == t[t.len() - 1]);
        let shorter = before.drop_last().push(before.last() + u);
        assert(shorter.drop_last() =~= before.drop_last());
        assert((before.last() + u).push(t.last()) =~= before.last() + t);
    }
}

proof fn lemma_pieces_joined(lines: Seq<Seq<char>>)
    requires
        lines.len() > 0,
        unbroken(lines),
    ensures
        text::pieces(joined_lines(lines), '\n') == lines,
    decreases lines.len(),
{
    let line = lines.last();
    assert forall|k: int| 0 <= k < line.len() implies #[trigger] line[k] != '\n' by {
        assert(lines[lines.len() - 1][k] != '\n');
    }
    if lines.len() == 1 {
        lemma_pieces_append(seq![], line);
        assert(Seq::<char>::empty() + line =~= line);
        assert(text::pieces(line, '\n') =~= lines);
    } else {
        let rest = lines.drop_last();
        assert forall|i: int, k: int|
            0 <= i < rest.len() && 0 <= k < rest[i].len() implies #[trigger] rest[i][k]
            != '\n' by {
            assert(lines[i][k] != '\n');
        }
        lemma_pieces_joined(rest);
        let head = joined_lines(rest).push('\n');
        assert(head.drop_last() =~= joined_lines(rest));
        lemma_pieces_append(head, line);
        assert(text::pieces(head, '\n') =~= rest.push(seq![]));
        assert(Seq::<char>::empty() + line =~= line);
        assert(rest.push(seq![]).drop_last() =~= rest);
        assert(rest.push(line) =~= lines);
    }
}

/// Blank lines, comments and trailing white space change no answer: a text and
/// what is left of it without them hold the same rules, and ignore the same
/// paths.
pub proof fn lemma_tidying_changes_nothing(text: Seq<char>, path: Seq<char>, is_dir: bool)
    ensures
        rules_on(text::pieces(tidy_text(text), '\n')) == rules_on(text::pieces(text, '\n')),
        ignores(rules_on(text::pieces(tidy_text(text), '\n')), path, is_dir) == ignores(
            rules_on(text::pieces(text, '\n')),
            path,
            is_dir,
        ),
{
    let lines = text::pieces(text, '\n');
    lemma_pieces_unbroken(text);
    lemma_tidied(lines);
    if tidied(lines).len() > 0 {
        lemma_pieces_joined(tidied(lines));
    } else {
        let none: Seq<char> = seq![];
        assert(text::pieces(none, '\n') =~= seq![none]);
        assert(seq![none].drop_last() =~= seq![]);
        assert(rules_on(seq![none]) == rules_on(seq![none].drop_last()));
    }
}

/// A rule for directories never applies to a file.
pub proof fn lemma_directory_rules_spare_files(rule: RuleV, path: Seq<char>)
    requires
        rule.dir_only,
    ensures
        !applies(rule, path, false),
{
}

// ── what lines and globs stand for ───────────────────────────────────────────

/// Whether a text is a plain name: no separator, no white space, and no character
/// with a meaning of its own.
pub open spec fn plain_name(name: Seq<char>) -> bool {
    &&& name.len() > 0
    &&& forall|k: int|
        0 <= k < name.len() ==> {
            let c = #[trigger] name[k];
            c != '/' && c != '\\' && c != '*' && c != '?' && c != '!' && c != '#' && c != '\n'
                && !text::white(c)
        }
}

/// Whether a text is the path of a directory other than the control directory, with
/// forward slashes only and none at its ends.
pub open spec fn plain_dir(dir: Seq<char>) -> bool {
    &&& dir.len() > 0
    &&& dir[0] != '/'
    &&& dir.last() != '/'
    &&& forall|k: int| 0 <= k < dir.len() ==> #[trigger] dir[k] != '\\'
    &&& dir != ".tack"@
    &&& !text::begins_with(dir, ".tack/"@)
}

/// The rules of a text.
pub open spec fn rules_in(text: Seq<char>) -> Seq<RuleV> {
    rules_on(text::pieces(text, '\n'))
}

/// A name on a line, with a slash before and behind it where that is wanted.
pub open spec fn name_line(name: Seq<char>, lead: bool, trail: bool) -> Seq<char> {
    let start: Seq<char> = if lead {
        seq!['/'] + name
    } else {
        name
    };
    if trail {
        start + seq!['/']
    } else {
        start
    }
}

/// Whether a text has no star and no question mark.
pub open spec fn literal(text: Seq<char>) -> bool {
    forall|k: int| 0 <= k < text.len() ==> #[trigger] text[k] != '*' && text[k] != '?'
}

proof fn lemma_literal_from(p: Seq<char>, i: int, t: Seq<char>, j: int)
    requires
        literal(p),
        0 <= i <= p.len(),
        0 <= j <= t.len(),
    ensures
        glob(p, i, t, j) == (p.skip(i) == t.skip(j)),
    decreases p.len() - i,
{
    if i < p.len() {
        assert(p[i] != '*' && p[i] != '?');
        if j < t.len() {
            lemma_literal_from(p, i + 1, t, j + 1);
            assert(p.skip(i) =~= seq![p[i]] + p.skip(i + 1));
            assert(t.skip(j) =~= seq![t[j]] + t.skip(j + 1));
            if p.skip(i) == t.skip(j) {
                assert(p.skip(i)[0] == t.skip(j)[0]);
                assert(p.skip(i).skip(1) =~= p.skip(i + 1));
                assert(t.skip(j).skip(1) =~= t.skip(j + 1));
            }
        } else {
            assert(p.skip(i).len() > 0 && t.skip(j).len() == 0);
        }
    } else {
        assert(p.skip(i).len() == 0);
        if j == t.len() {
            assert(p.skip(i) =~= t.skip(j));
        } else {
            assert(t.skip(j).len() > 0);
        }
    }
}

/// A pattern without stars and question marks matches itself and nothing else.
pub proof fn law_literal_glob(pattern: Seq<char>, text: Seq<char>)
    requires
        literal(pattern),
    ensures
        glob_matches(pattern, text) <==> pattern == text,
{
    lemma_literal_from(pattern, 0, text, 0);
    assert(pattern.skip(0) =~= pattern);
    assert(text.skip(0) =~= text);
}

/// A literal run at the start of a pattern matches itself; the rest of the pattern
/// matches the rest of the text.
proof fn lemma_literal_first(p: Seq<char>, n: int, t: Seq<char>)
    requires
        0 <= n <= p.len(),
        literal(p.take(n)),
    ensures
        glob(p, 0, t, 0) == (n <= t.len() && p.take(n) == t.take(n) && glob(p, n, t, n)),
{
    assert forall|o: int| 0 <= o < n implies #[trigger] p[0 + o] != '*' by {
        assert(p.take(n)[o] != '*');
    }
    if glob(p, 0, t, 0) {
        lemma_run_first(p, 0, n, t, 0);
        assert forall|o: int| 0 <= o < n implies p.take(n)[o] == t.take(n)[o] by {
            assert(p.take(n)[o] != '?');
            assert(single(p[0 + o], t[0 + o]));
        }
        assert(p.take(n) =~= t.take(n));
    }
    if n <= t.len() && p.take(n) == t.take(n) {
        assert forall|o: int| 0 <= o < n implies #[trigger] p[0 + o] != '*' && single(
            p[0 + o],
            t[0 + o],
        ) by {
            assert(p.take(n)[o] == t.take(n)[o]);
            assert(p.take(n)[o] != '*' && p.take(n)[o] != '?');
        }
        lemma_run_skip(p, 0, n, t, 0);
    }
}

/// The literal end of a pattern matches the end of the text.
proof fn lemma_literal_end(p: Seq<char>, n: int, b: Seq<char>, t: Seq<char>, k: int)
    requires
        0 <= n <= p.len(),
        p.skip(n) == b,
        literal(b),
        0 <= k <= t.len(),
    ensures
        glob(p, n, t, k) == (t.skip(k) == b),
    decreases p.len() - n,
{
    if n < p.len() {
        assert(b[0] == p[n]);
        assert(p[n] != '*' && p[n] != '?');
        assert(p.skip(n + 1) =~= b.skip(1));
        assert(literal(b.skip(1))) by {
            assert forall|x: int| 0 <= x < b.skip(1).len() implies #[trigger] b.skip(1)[x] != '*'
                && b.skip(1)[x] != '?' by {
                assert(b[x + 1] != '*');
            }
        }
        if k < t.len() {
            lemma_literal_end(p, n + 1, b.skip(1), t, k + 1);
            if t.skip(k) == b {
                assert(t.skip(k)[0] == b[0]);
                assert(t.skip(k).skip(1) =~= t.skip(k + 1));
            }
            if p[n] == t[k] && t.skip(k + 1) == b.skip(1) {
                assert(t.skip(k) =~= seq![t[k]] + t.skip(k + 1));
                assert(b =~= seq![b[0]] + b.skip(1));
            }
        } else {
            assert(t.skip(k).len() == 0);
        }
    } else {
        assert(b.len() == 0);
        if k == t.len() {
            assert(t.skip(k) =~= b);
        } else {
            assert(t.skip(k).len() > 0);
        }
    }
}

/// Whether a text is `a`, a run without slashes, and `b`.
pub open spec fn star_splits(text: Seq<char>, a: Seq<char>, b: Seq<char>) -> bool {
    exists|run: Seq<char>| text == a + run + b && !#[trigger] run.contains('/')
}

/// `*` stands for any run of characters without a slash.
pub proof fn law_star_glob(a: Seq<char>, b: Seq<char>, text: Seq<char>)
    requires
        literal(a),
        literal(b),
    ensures
        glob_matches(a + seq!['*'] + b, text) <==> star_splits(text, a, b),
{
    let p = a + seq!['*'] + b;
    let n = a.len() as int;
    assert(p.take(n) =~= a);
    assert(p[n] == '*');
    assert(p.skip(n + 1) =~= b);
    assert(!double_star(p, n)) by {
        if n + 1 < p.len() {
            assert(p[n + 1] == b[0]);
        }
    }
    lemma_literal_first(p, n, text);
    if n <= text.len() {
        lemma_single_star(p, n, text, n);
    }
    if glob_matches(p, text) {
        let k = choose|k: int|
            n <= k <= text.len() && slash_free(text, n, k) && #[trigger] glob(p, n + 1, text, k);
        lemma_literal_end(p, n + 1, b, text, k);
        let run = text.subrange(n, k);
        assert(text =~= a + run + b) by {
            assert(text =~= text.take(n) + text.subrange(n, k) + text.skip(k));
        }
        assert(!run.contains('/')) by {
            if run.contains('/') {
                let x = choose|x: int| 0 <= x < run.len() && run[x] == '/';
                assert(text[n + x] != '/');
            }
        }
    }
    if star_splits(text, a, b) {
        let run = choose|run: Seq<char>| text == a + run + b && !#[trigger] run.contains('/');
        let k = n + run.len();
        assert(text.take(n) =~= a);
        assert(text.skip(k) =~= b);
        lemma_literal_end(p, n + 1, b, text, k);
        assert(slash_free(text, n, k)) by {
            assert forall|x: int| n <= x < k implies #[trigger] text[x] != '/' by {
                assert(run[x - n] == text[x]);
                if text[x] == '/' {
                    assert(run.contains(run[x - n]));
                }
            }
        }
        assert(glob_run(p, n + 1, text, n));
    }
}

/// Whether a text is `a`, any run, and `b`.
pub open spec fn any_splits(text: Seq<char>, a: Seq<char>, b: Seq<char>) -> bool {
    exists|run: Seq<char>| text == #[trigger] ((a + run) + b)
}

/// `**`, with a slash behind it or without, stands for any run of characters.
pub proof fn law_double_star_glob(a: Seq<char>, slash: bool, b: Seq<char>, text: Seq<char>)
    requires
        literal(a),
        literal(b),
        !slash ==> b.len() == 0 || b[0] != '/',
    ensures
        glob_matches(
            a + (if slash {
                seq!['*', '*', '/']
            } else {
                seq!['*', '*']
            }) + b,
            text,
        ) <==> any_splits(text, a, b),
{
    let stars = if slash {
        seq!['*', '*', '/']
    } else {
        seq!['*', '*']
    };
    let p = a + stars + b;
    let n = a.len() as int;
    let next = n + stars.len();
    assert(p.take(n) =~= a);
    assert(p[n] == '*' && p[n + 1] == '*');
    assert(p.skip(next) =~= b);
    assert(behind_double(p, n) == next) by {
        if slash {
            assert(p[n + 2] == '/');
        } else if n + 2 < p.len() {
            assert(p[n + 2] == b[0]);
        }
    }
    lemma_literal_first(p, n, text);
    if n <= text.len() {
        lemma_double_star(p, n, text, n);
    }
    if glob_matches(p, text) {
        let k = choose|k: int| n <= k <= text.len() && #[trigger] glob(p, next, text, k);
        lemma_literal_end(p, next, b, text, k);
        let run = text.subrange(n, k);
        assert(text =~= (a + run) + b) by {
            assert(text =~= text.take(n) + text.subrange(n, k) + text.skip(k));
        }
    }
    if any_splits(text, a, b) {
        let run = choose|run: Seq<char>| text == #[trigger] ((a + run) + b);
        let k = n + run.len();
        assert(text.take(n) =~= a);
        assert(text.skip(k) =~= b);
        lemma_literal_end(p, next, b, text, k);
        assert(glob_any(p, next, text, n));
    }
}

/// Whether a text is `a`, one character other than a slash, and `b`.
pub open spec fn one_splits(text: Seq<char>, a: Seq<char>, b: Seq<char>) -> bool {
    exists|c: char| c != '/' && text == #[trigger] (a.push(c) + b)
}

/// `?` stands for any one character but a slash.
pub proof fn law_question_glob(a: Seq<char>, b: Seq<char>, text: Seq<char>)
    requires
        literal(a),
        literal(b),
    ensures
        glob_matches(a + seq!['?'] + b, text) <==> one_splits(text, a, b),
{
    let p = a + seq!['?'] + b;
    let n = a.len() as int;
    assert(p.take(n) =~= a);
    assert(p[n] == '?');
    assert(p.skip(n + 1) =~= b);
    lemma_literal_first(p, n, text);
    if n < text.len() {
        lemma_literal_end(p, n + 1, b, text, n + 1);
    }
    if glob_matches(p, text) {
        let c = text[n];
        assert(text =~= a.push(c) + b) by {
            assert(text =~= text.take(n).push(text[n]) + text.skip(n + 1));
        }
    }
    if one_splits(text, a, b) {
        let c = choose|c: char| c != '/' && text == #[trigger] (a.push(c) + b);
        assert(text.take(n) =~= a);
        assert(text[n] == c);
        assert(text.skip(n + 1) =~= b);
    }
}

/// A line without a break is the only line of its text.
proof fn lemma_one_line(line: Seq<char>)
    requires
        !line.contains('\n'),
    ensures
        text::pieces(line, '\n') == seq![line],
{
    assert forall|k: int| 0 <= k < line.len() implies #[trigger] line[k] != '\n' by {
        assert(line.contains(line[k]));
    }
    lemma_pieces_append(seq![], line);
    assert(Seq::<char>::empty() + line =~= line);
    let none: Seq<char> = seq![];
    assert(text::pieces(none, '\n') =~= seq![none]);
    assert(seq![none].drop_last() =~= seq![]);
    assert(Seq::<Seq<char>>::empty().push(line) =~= seq![line]);
}

/// The only rule of a text of one line.
proof fn lemma_one_rule(line: Seq<char>)
    requires
        !line.contains('\n'),
    ensures
        rules_in(line) == (match rule_of(line) {
            Some(rule) => seq![rule],
            None => seq![],
        }),
{
    lemma_one_line(line);
    assert(seq![line].drop_last() =~= seq![]);
    assert(rules_on(seq![line].drop_last()) =~= seq![]);
    if let Some(rule) = rule_of(line) {
        assert(Seq::<RuleV>::empty().push(rule) =~= seq![rule]);
    }
}

proof fn lemma_slashes_kept(path: Seq<char>)
    requires
        path.len() == 0 || path[0] != '/' && path.last() != '/',
        forall|k: int| 0 <= k < path.len() ==> #[trigger] path[k] != '\\',
    ensures
        normal_path(path) == path,
{
    assert(path.map_values(|c: char| if c == '\\' { '/' } else { c }) =~= path);
}

/// A path with forward slashes only, and none at its ends, stays as it is.
pub proof fn law_normal_paths_stay(path: Seq<char>)
    requires
        path.len() > 0 ==> path[0] != '/' && path.last() != '/',
        !path.contains('\\'),
    ensures
        normal_path(path) == path,
{
    assert forall|k: int| 0 <= k < path.len() implies #[trigger] path[k] != '\\' by {
        assert(path.contains(path[k]));
    }
    lemma_slashes_kept(path);
}

/// Whether a text is made of slashes.
pub open spec fn only_slashes(text: Seq<char>) -> bool {
    forall|k: int| 0 <= k < text.len() ==> #[trigger] text[k] == '/'
}

/// Whether taking slashes off the ends of `text` leaves `core`.
pub open spec fn peels_to(text: Seq<char>, core: Seq<char>) -> bool {
    &&& core.len() > 0 ==> core[0] != '/' && core.last() != '/'
    &&& exists|before: Seq<char>, after: Seq<char>|
        only_slashes(before) && only_slashes(after) && text == #[trigger] ((before + core) + after)
}

proof fn lemma_peels(s: Seq<char>)
    ensures
        peels_to(s, without_slashes(s)),
    decreases s.len(),
{
    let core = without_slashes(s);
    let none: Seq<char> = seq![];
    if s.len() > 0 && s[0] == '/' {
        let rest = s.skip(1);
        lemma_peels(rest);
        let (before, after) = choose|before: Seq<char>, after: Seq<char>|
            only_slashes(before) && only_slashes(after) && rest == #[trigger] ((before + core)
                + after);
        let more = seq!['/'] + before;
        assert(s =~= (more + core) + after) by {
            assert(s =~= seq!['/'] + rest);
        }
        assert(only_slashes(more));
    } else if s.len() > 0 && s.last() == '/' {
        let rest = s.drop_last();
        lemma_peels(rest);
        let (before, after) = choose|before: Seq<char>, after: Seq<char>|
            only_slashes(before) && only_slashes(after) && rest == #[trigger] ((before + core)
                + after);
        let more = after.push('/');
        assert(s =~= (before + core) + more) by {
            assert(s =~= rest.push('/'));
        }
        assert(only_slashes(more));
    } else {
        assert(s =~= (none + s) + none);
        assert(only_slashes(none));
    }
}

/// A normalized path is the path with its backslashes turned round and the slashes
/// at its ends taken off, and nothing else.
pub proof fn law_normal_path(path: Seq<char>)
    ensures
        !normal_path(path).contains('\\'),
        exists|turned: Seq<char>|
            {
                &&& turned.len() == path.len()
                &&& forall|k: int|
                    0 <= k < path.len() ==> turned[k] == (if path[k] == '\\' {
                        '/'
                    } else {
                        path[k]
                    })
                &&& #[trigger] peels_to(turned, normal_path(path))
            },
{
    let turned = path.map_values(|c: char| if c == '\\' { '/' } else { c });
    lemma_peels(turned);
    let core = normal_path(path);
    let (before, after) = choose|before: Seq<char>, after: Seq<char>|
        only_slashes(before) && only_slashes(after) && turned == #[trigger] ((before + core) + after);
    if core.contains('\\') {
        let k = choose|k: int| 0 <= k < core.len() && core[k] == '\\';
        assert(turned[before.len() + k] == core[k]);
    }
    assert(peels_to(turned, core));
}

/// The last component of a path that ends in a plain name below a directory.
proof fn lemma_base_name(dir: Seq<char>, name: Seq<char>)
    requires
        !name.contains('/'),
    ensures
        base_name(dir + seq!['/'] + name) == name,
        base_name(name) == name,
    decreases dir.len(),
{
    let path = dir + seq!['/'] + name;
    assert(path[dir.len() as int] == '/');
    assert(path.contains('/'));
    assert(base_name(name) == name);
    assert(base_name(path) == base_name(path.skip(1)));
    if dir.len() == 0 {
        assert(path.skip(1) =~= name);
    } else {
        assert(path.skip(1) =~= dir.skip(1) + seq!['/'] + name);
        lemma_base_name(dir.skip(1), name);
    }
}

/// The rule on a line that is a plain name with or without slashes at its ends.
proof fn lemma_name_rule(name: Seq<char>, negated: bool, lead: bool, trail: bool)
    requires
        plain_name(name),
    ensures
        ({
            let line = if negated {
                seq!['!'] + name_line(name, lead, trail)
            } else {
                name_line(name, lead, trail)
            };
            &&& !line.contains('\n')
            &&& rule_of(line) == Some(RuleV { glob: name, negated, anchored: lead, dir_only: trail })
        }),
{
    let body = name_line(name, lead, trail);
    let line = if negated {
        seq!['!'] + body
    } else {
        body
    };
    let rooted: Seq<char> = if lead {
        seq!['/'] + name
    } else {
        name
    };
    assert(name[0] != '/' && !text::white(name[0]));
    assert(name[name.len() - 1] != '/' && !text::white(name[name.len() - 1]));
    assert(!text::white('/') && !text::white('!'));
    assert forall|k: int| 0 <= k < line.len() implies #[trigger] line[k] != '\n' by {
        let at = k - (if negated { 1int } else { 0int }) - (if lead { 1int } else { 0int });
        if 0 <= at < name.len() {
            assert(line[k] == name[at]);
        }
    }
    assert(!text::white(line[0]) && !text::white(line.last()));
    assert(text::trimmed_end(line) == line);
    assert(text::trimmed_start(line) == line);
    assert(line[0] != '#');
    assert(without_first_if(line, negated) =~= body);
    assert(body[0] != '\\');
    assert(without_first(body, '\\') == body);
    assert(without_last(body, '/') =~= rooted);
    assert(without_first(rooted, '/') =~= name);
    assert(!name.contains('/')) by {
        if name.contains('/') {
            let k = choose|k: int| 0 <= k < name.len() && name[k] == '/';
            assert(name[k] != '/');
        }
    }
}

proof fn lemma_plain_path(dir: Seq<char>, name: Seq<char>)
    requires
        plain_name(name),
        plain_dir(dir),
    ensures
        normal_path(name) == name,
        normal_path(dir + seq!['/'] + name) == dir + seq!['/'] + name,
        !name.contains('/'),
        literal(name),
        name != dir + seq!['/'] + name,
        name != ".tack"@ ==> !is_control(name),
        !is_control(dir + seq!['/'] + name),
{
    let path = dir + seq!['/'] + name;
    let n = dir.len() as int;
    assert(name[0] != '/' && name[name.len() - 1] != '/');
    assert forall|k: int| 0 <= k < name.len() implies #[trigger] name[k] != '\\' by {}
    lemma_slashes_kept(name);
    assert forall|k: int| 0 <= k < path.len() implies #[trigger] path[k] != '\\' by {
        if k < n {
            assert(path[k] == dir[k]);
        } else if k > n {
            assert(path[k] == name[k - n - 1]);
        }
    }
    lemma_slashes_kept(path);
    assert(!name.contains('/')) by {
        if name.contains('/') {
            let k = choose|k: int| 0 <= k < name.len() && name[k] == '/';
            assert(name[k] != '/');
        }
    }
    assert(literal(name)) by {
        assert forall|k: int| 0 <= k < name.len() implies #[trigger] name[k] != '*' && name[k]
            != '?' by {}
    }
    assert(path.len() > name.len());
    reveal_strlit(".tack");
    reveal_strlit(".tack/");
    let control = ".tack"@;
    let inside = ".tack/"@;
    assert(inside.len() == 6 && inside[5] == '/' && control.len() == 5);
    assert(inside =~= control.push('/'));
    if text::begins_with(name, inside) {
        assert(name.subrange(0, 6)[5] == '/');
        assert(name[5] != '/');
    }
    if path == control {
        assert(control[n] == '/');
        assert(control[0] == '.' && control[1] == 't' && control[2] == 'a' && control[3] == 'c'
            && control[4] == 'k');
    }
    if text::begins_with(path, inside) {
        assert(path.subrange(0, 6) =~= inside);
        if n >= 6 {
            assert(dir.subrange(0, 6) =~= path.subrange(0, 6));
            assert(text::begins_with(dir, inside));
        } else if n == 5 {
            assert(dir =~= control) by {
                assert forall|k: int| 0 <= k < 5 implies dir[k] == control[k] by {
                    assert(path.subrange(0, 6)[k] == inside[k]);
                }
            }
        } else {
            assert(path.subrange(0, 6)[n] == inside[n]);
            assert(path[n] == '/');
            assert(inside[0] == '.' && inside[1] == 't' && inside[2] == 'a' && inside[3] == 'c'
                && inside[4] == 'k');
        }
    }
}

/// A line with a name ignores what has that name: a leading slash, only at the
/// root; a trailing slash, only a directory.
pub proof fn law_name_line(
    name: Seq<char>,
    lead: bool,
    trail: bool,
    dir: Seq<char>,
    other: Seq<char>,
    is_dir: bool,
)
    requires
        plain_name(name),
        name != ".tack"@,
        plain_name(other),
        other != ".tack"@,
        other != name,
        plain_dir(dir),
    ensures
        ({
            let rules = rules_in(name_line(name, lead, trail));
            &&& ignores(rules, name, is_dir) <==> (trail ==> is_dir)
            &&& ignores(rules, dir + seq!['/'] + name, is_dir) <==> !lead && (trail ==> is_dir)
            &&& !ignores(rules, other, is_dir)
            &&& !ignores(rules, dir + seq!['/'] + other, is_dir)
        }),
{
    let rules = rules_in(name_line(name, lead, trail));
    lemma_name_rule(name, false, lead, trail);
    lemma_one_rule(name_line(name, lead, trail));
    lemma_plain_path(dir, name);
    lemma_plain_path(dir, other);
    lemma_base_name(dir, name);
    lemma_base_name(dir, other);
    law_literal_glob(name, name);
    law_literal_glob(name, other);
    law_literal_glob(name, dir + seq!['/'] + name);
    law_literal_glob(name, dir + seq!['/'] + other);
    assert(name != dir + seq!['/'] + other) by {
        if name == dir + seq!['/'] + other {
            assert((dir + seq!['/'] + other)[dir.len() as int] == '/');
            assert(name.contains('/'));
        }
    }
    assert(rules.drop_last() =~= seq![]);
    assert(rules.last() == rules[0]);
    reveal_with_fuel(last_ignores, 2);
}

/// Whether a text is a pattern: no white space in it, no slash at its ends, and at its
/// beginning no character with a meaning of its own.
pub open spec fn is_pattern(pattern: Seq<char>) -> bool {
    &&& pattern.len() > 0
    &&& pattern[0] != '/' && pattern[0] != '\\' && pattern[0] != '!' && pattern[0] != '#'
    &&& pattern.last() != '/'
    &&& forall|k: int|
        0 <= k < pattern.len() ==> #[trigger] pattern[k] != '\n' && !text::white(pattern[k])
}

/// A line with a pattern stands for that pattern: a `!` before it takes it back, a slash
/// before it or in it ties it to the root, and a slash behind it limits it to directories.
pub proof fn law_pattern_line(pattern: Seq<char>, negated: bool, lead: bool, trail: bool)
    requires
        is_pattern(pattern),
    ensures
        ({
            let line = if negated {
                seq!['!'] + name_line(pattern, lead, trail)
            } else {
                name_line(pattern, lead, trail)
            };
            &&& !line.contains('\n')
            &&& rule_of(line) matches Some(rule) && rule.glob == pattern && rule.negated == negated
                && rule.dir_only == trail && (rule.anchored <==> lead || pattern.contains('/'))
        }),
{
    let body = name_line(pattern, lead, trail);
    let line = if negated {
        seq!['!'] + body
    } else {
        body
    };
    let rooted: Seq<char> = if lead {
        seq!['/'] + pattern
    } else {
        pattern
    };
    assert(!text::white(pattern[0]));
    assert(!text::white(pattern[pattern.len() - 1]));
    assert(!text::white('/') && !text::white('!'));
    assert forall|k: int| 0 <= k < line.len() implies #[trigger] line[k] != '\n' by {
        let at = k - (if negated { 1int } else { 0int }) - (if lead { 1int } else { 0int });
        if 0 <= at < pattern.len() {
            assert(line[k] == pattern[at]);
        }
    }
    assert(!text::white(line[0]) && !text::white(line.last()));
    assert(text::trimmed_end(line) == line);
    assert(text::trimmed_start(line) == line);
    assert(line[0] != '#');
    assert(without_first_if(line, negated) =~= body);
    assert(body[0] != '\\');
    assert(without_first(body, '\\') == body);
    assert(without_last(body, '/') =~= rooted);
    assert(without_first(rooted, '/') =~= pattern);
}

/// White space behind a line has no meaning, whatever the line holds.
pub proof fn law_trailing_space(line: Seq<char>, space: Seq<char>)
    requires
        text::all_white(space),
    ensures
        rule_of(line + space) == rule_of(line),
        rule_of(space) is None,
    decreases space.len(),
{
    if space.len() > 0 {
        let less = space.drop_last();
        assert forall|k: int| 0 <= k < less.len() implies text::white(#[trigger] less[k]) by {
            assert(text::white(space[k]));
        }
        law_trailing_space(line, less);
        assert(text::white(space[space.len() - 1]));
        assert((line + space).drop_last() =~= line + less);
        assert((line + space).last() == space.last());
    } else {
        assert(line + space =~= line);
    }
}

/// A line with a path ignores what stands there from the root on, and nothing of the same
/// name elsewhere.
pub proof fn law_path_line(
    a: Seq<char>,
    b: Seq<char>,
    lead: bool,
    trail: bool,
    dir: Seq<char>,
    is_dir: bool,
)
    requires
        plain_name(a),
        plain_name(b),
        a != ".tack"@,
        b != ".tack"@,
        plain_dir(dir),
    ensures
        ({
            let path = a + seq!['/'] + b;
            let rules = rules_in(name_line(path, lead, trail));
            &&& ignores(rules, path, is_dir) <==> (trail ==> is_dir)
            &&& !ignores(rules, dir + seq!['/'] + path, is_dir)
            &&& !ignores(rules, b, is_dir)
        }),
{
    let path = a + seq!['/'] + b;
    let n = a.len() as int;
    assert(a[0] != '/' && b[b.len() - 1] != '/');
    assert forall|k: int| 0 <= k < path.len() implies #[trigger] path[k] != '\n' && !text::white(
        path[k],
    ) && path[k] != '\\' && path[k] != '*' && path[k] != '?' by {
        if k < n {
            assert(path[k] == a[k]);
        } else if k > n {
            assert(path[k] == b[k - n - 1]);
        } else {
            assert(!text::white('/'));
        }
    }
    assert(path[0] == a[0] && path.last() == b.last());
    assert(path[n] == '/');
    assert(path.contains('/'));
    law_pattern_line(path, false, lead, trail);
    lemma_one_rule(name_line(path, lead, trail));
    let rules = rules_in(name_line(path, lead, trail));
    assert(literal(path));
    let deep = dir + seq!['/'] + path;
    law_literal_glob(path, path);
    law_literal_glob(path, deep);
    law_literal_glob(path, b);
    assert(plain_dir(a)) by {
        assert(a.last() == a[a.len() - 1]);
        assert forall|k: int| 0 <= k < a.len() implies #[trigger] a[k] != '\\' by {}
        reveal_strlit(".tack/");
        if text::begins_with(a, ".tack/"@) {
            assert(a.subrange(0, 6)[5] == '/');
            assert(a[5] != '/');
        }
    }
    lemma_plain_path(a, b);
    let below = dir + seq!['/'] + a;
    assert(deep =~= below + seq!['/'] + b);
    lemma_plain_path(dir, a);
    assert(plain_dir(below)) by {
        assert forall|k: int| 0 <= k < below.len() implies #[trigger] below[k] != '\\' by {
            if k < dir.len() {
                assert(below[k] == dir[k]);
            } else if k > dir.len() {
                assert(below[k] == a[k - dir.len() - 1]);
            }
        }
        assert(below[0] == dir[0]);
        assert(below.last() == a[a.len() - 1]);
    }
    lemma_plain_path(below, b);
    assert(deep.len() > path.len() && b.len() < path.len());
    assert(rules.drop_last() =~= seq![]);
    assert(rules.last() == rules[0]);
    reveal_with_fuel(last_ignores, 2);
}

/// A star before an ending ignores every name with that ending, in every directory, and no
/// other.
pub proof fn law_ending_line(
    stem: Seq<char>,
    ending: Seq<char>,
    dir: Seq<char>,
    other: Seq<char>,
    is_dir: bool,
)
    requires
        plain_name(ending),
        plain_name(stem + ending),
        stem + ending != ".tack"@,
        plain_dir(dir),
        plain_name(other),
        other != ".tack"@,
        other.len() < ending.len() || other.skip(other.len() - ending.len()) != ending,
    ensures
        ({
            let rules = rules_in(seq!['*'] + ending);
            &&& ignores(rules, stem + ending, is_dir)
            &&& ignores(rules, dir + seq!['/'] + (stem + ending), is_dir)
            &&& !ignores(rules, other, is_dir)
            &&& !ignores(rules, dir + seq!['/'] + other, is_dir)
        }),
{
    let name = stem + ending;
    let pattern = seq!['*'] + ending;
    let none: Seq<char> = seq![];
    assert forall|k: int| 0 <= k < pattern.len() implies #[trigger] pattern[k] != '\n'
        && !text::white(pattern[k]) && pattern[k] != '/' by {
        if k > 0 {
            assert(pattern[k] == ending[k - 1]);
        } else {
            assert(!text::white('*'));
        }
    }
    assert(pattern[0] == '*');
    assert(pattern[pattern.len() - 1] != '/');
    law_pattern_line(pattern, false, false, false);
    assert(name_line(pattern, false, false) == pattern);
    lemma_one_rule(pattern);
    let rules = rules_in(pattern);
    assert(none + seq!['*'] + ending =~= pattern);
    assert(literal(ending)) by {
        assert forall|k: int| 0 <= k < ending.len() implies #[trigger] ending[k] != '*' && ending[k]
            != '?' by {}
    }
    law_star_glob(none, ending, name);
    law_star_glob(none, ending, other);
    assert(star_splits(name, none, ending)) by {
        assert(name =~= none + stem + ending);
        assert(!stem.contains('/')) by {
            if stem.contains('/') {
                let k = choose|k: int| 0 <= k < stem.len() && stem[k] == '/';
                assert(name[k] == '/');
            }
        }
    }
    assert(!star_splits(other, none, ending)) by {
        if star_splits(other, none, ending) {
            let run = choose|run: Seq<char>| other == none + run + ending && !#[trigger] run.contains('/');
            assert(other.skip(other.len() - ending.len()) =~= ending);
        }
    }
    lemma_plain_path(dir, name);
    lemma_plain_path(dir, other);
    lemma_base_name(dir, name);
    lemma_base_name(dir, other);
    assert(rules.drop_last() =~= seq![]);
    assert(rules.last() == rules[0]);
    reveal_with_fuel(last_ignores, 2);
}

/// Of two lines the later one decides: a name with a `!` before it takes back what a
/// line above it ignores, and is itself taken back by a line below it.
pub proof fn law_negated_line(name: Seq<char>, lead: bool, trail: bool)
    requires
        plain_name(name),
        name != ".tack"@,
    ensures
        ({
            let line = name_line(name, lead, trail);
            let negated = seq!['!'] + line;
            &&& !ignores(rules_in(line + seq!['\n'] + negated), name, true)
            &&& ignores(rules_in(negated + seq!['\n'] + line), name, true)
            &&& !ignores(rules_in(negated), name, true)
        }),
{
    let line = name_line(name, lead, trail);
    let negated = seq!['!'] + line;
    let dir: Seq<char> = seq!['d'];
    reveal_strlit(".tack");
    reveal_strlit(".tack/");
    assert(".tack"@.len() == 5 && ".tack/"@.len() == 6);
    lemma_plain_path(dir, name);
    lemma_base_name(dir, name);
    law_literal_glob(name, name);
    lemma_name_rule(name, false, lead, trail);
    lemma_name_rule(name, true, lead, trail);
    lemma_one_rule(negated);
    lemma_two_rules(line, negated);
    lemma_two_rules(negated, line);
    let yes = rule_of(line)->Some_0;
    let no = rule_of(negated)->Some_0;
    assert(seq![yes, no].drop_last() =~= seq![yes]);
    assert(seq![no, yes].drop_last() =~= seq![no]);
    assert(seq![no].drop_last() =~= seq![]);
}

/// The rules of a text of two lines.
proof fn lemma_two_rules(a: Seq<char>, b: Seq<char>)
    requires
        !a.contains('\n'),
        !b.contains('\n'),
        rule_of(a) is Some,
        rule_of(b) is Some,
    ensures
        rules_in(a + seq!['\n'] + b) == seq![rule_of(a)->Some_0, rule_of(b)->Some_0],
{
    let head = a + seq!['\n'];
    lemma_one_line(a);
    assert(head.drop_last() =~= a);
    assert(head.last() == '\n');
    assert(text::pieces(head, '\n') =~= seq![a, seq![]]);
    assert forall|k: int| 0 <= k < b.len() implies #[trigger] b[k] != '\n' by {
        assert(b.contains(b[k]));
    }
    lemma_pieces_append(head, b);
    assert(seq![a, Seq::<char>::empty()].drop_last() =~= seq![a]);
    assert(Seq::<char>::empty() + b =~= b);
    let lines = text::pieces(head + b, '\n');
    assert(lines =~= seq![a, b]);
    assert(lines.drop_last() =~= seq![a]);
    assert(seq![a].drop_last() =~= seq![]);
    assert(rules_on(seq![a].drop_last()) =~= seq![]);
    let first = rule_of(a)->Some_0;
    let second = rule_of(b)->Some_0;
    assert(Seq::<RuleV>::empty().push(first) =~= seq![first]);
    assert(rules_on(seq![a]) == seq![first]);
    assert(lines.last() == b);
    assert(seq![first].push(second) =~= seq![first, second]);
}

/// A line that begins with `#` says nothing, and with `\#` or `\!` before a name it
/// means the name with that character.
pub proof fn law_comment_and_escape(mark: char, rest: Seq<char>, name: Seq<char>, path: Seq<char>, is_dir: bool)
    requires
        !rest.contains('\n'),
        mark == '#' || mark == '!',
        plain_name(name),
    ensures
        ignores(rules_in(seq!['#'] + rest), path, is_dir) <==> is_control(normal_path(path)),
        ignores(rules_in(seq!['\\', mark] + name), seq![mark] + name, is_dir),
{
    let comment = seq!['#'] + rest;
    assert(!comment.contains('\n')) by {
        if comment.contains('\n') {
            let k = choose|k: int| 0 <= k < comment.len() && comment[k] == '\n';
            assert(rest[k - 1] == '\n');
            assert(rest.contains(rest[k - 1]));
        }
    }
    lemma_one_rule(comment);
    lemma_trimmed_start_kept(comment);
    let line = seq!['\\', mark] + name;
    let marked = seq![mark] + name;
    assert(!line.contains('\n')) by {
        if line.contains('\n') {
            let k = choose|k: int| 0 <= k < line.len() && line[k] == '\n';
            assert(name[k - 2] != '\n');
        }
    }
    lemma_one_rule(line);
    assert(line.last() == name[name.len() - 1]);
    assert(text::trimmed_end(line) == line);
    assert(!text::white('\\'));
    assert(text::trimmed_start(line) == line);
    assert(without_first_if(line, false) == line);
    assert(without_first(line, '\\') =~= marked);
    assert(marked.last() == name[name.len() - 1]);
    assert(without_last(marked, '/') == marked);
    assert(without_first(marked, '/') == marked);
    assert forall|k: int| 0 <= k < marked.len() implies #[trigger] marked[k] != '/' && marked[k]
        != '\\' && marked[k] != '*' && marked[k] != '?' by {
        if k > 0 {
            assert(marked[k] == name[k - 1]);
        }
    }
    lemma_slashes_kept(marked);
    assert(!marked.contains('/'));
    assert(literal(marked));
    law_literal_glob(marked, marked);
    assert(base_name(marked) == marked);
    let rules = rules_in(line);
    assert(rules.drop_last() =~= seq![]);
    assert(rules.last() == rules[0]);
}

/// Taking white space off the end keeps a first character that is none.
proof fn lemma_trimmed_start_kept(s: Seq<char>)
    requires
        s.len() > 0,
        !text::white(s[0]),
    ensures
        text::trimmed_end(s).len() > 0,
        text::trimmed_end(s)[0] == s[0],
    decreases s.len(),
{
    if text::white(s.last()) {
        lemma_trimmed_start_kept(s.drop_last());
    }
}

/// The control directory and all below it are ignored, whatever the text says;
/// without any text nothing else is.
pub proof fn law_control_directory(text: Seq<char>, rest: Seq<char>, path: Seq<char>, is_dir: bool)
    requires
        plain_dir(path),
        rest.len() > 0,
        rest.last() != '/',
        !rest.contains('\\'),
    ensures
        ignores(rules_in(text), ".tack"@, is_dir),
        ignores(rules_in(text), ".tack/"@ + rest, is_dir),
        !ignores(rules_in(seq![]), path, is_dir),
{
    reveal_strlit(".tack");
    reveal_strlit(".tack/");
    let control = ".tack"@;
    assert(control[0] == '.' && control[1] == 't' && control[2] == 'a' && control[3] == 'c'
        && control[4] == 'k' && control.len() == 5);
    assert forall|k: int| 0 <= k < control.len() implies #[trigger] control[k] != '\\' by {}
    lemma_slashes_kept(control);
    let below = ".tack/"@ + rest;
    assert(".tack/"@ =~= control.push('/'));
    assert forall|k: int| 0 <= k < below.len() implies #[trigger] below[k] != '\\' by {
        if k >= 6 {
            assert(below[k] == rest[k - 6]);
            assert(rest.contains(rest[k - 6]));
        } else {
            assert(below[k] == control.push('/')[k]);
        }
    }
    assert(below.last() == rest.last());
    lemma_slashes_kept(below);
    assert(below.subrange(0, 6) =~= ".tack/"@);
    lemma_slashes_kept(path);
    let none: Seq<char> = seq![];
    assert(text::pieces(none, '\n') =~= seq![none]);
    assert(seq![none].drop_last() =~= seq![]);
    assert(rules_on(seq![none].drop_last()) =~= seq![]);
}

/// A compiled set of `.tackignore` rules.
#[derive(Debug, Clone)]
pub struct IgnoreRules {
    rules: Vec<Rule>,
}

impl View for IgnoreRules {
    type V = Seq<RuleV>;

    closed spec fn view(&self) -> Seq<RuleV> {
        encoding::views(self.rules@)
    }
}

/// The rule on the line `chars[from..to]`, if there is one.
fn parse_line(chars: &[char], from: usize, to: usize) -> (r: Option<Rule>)
    requires
        from <= to <= chars@.len(),
    ensures
        match r {
            Some(rule) => rule_of(chars@.subrange(from as int, to as int)) == Some(rule@),
            None => rule_of(chars@.subrange(from as int, to as int)) is None,
        },
{
    let end = skip_white_back(chars, from, to);
    let first = skip_white(chars, from, end);
    if first == end {
        assert(chars@.subrange(first as int, end as int).len() == 0);
        return None;
    }
    assert(chars@.subrange(first as int, end as int)[0] == chars@[first as int]);
    if chars[first] == '#' {
        return None;
    }
    parse_rule(chars, from, end)
}

/// The rule that `chars[from..end]`, which does not end in white space, stands
/// for.
fn parse_rule(chars: &[char], from: usize, end: usize) -> (r: Option<Rule>)
    requires
        from < end <= chars@.len(),
    ensures
        match r {
            Some(rule) => rule_in(chars@.subrange(from as int, end as int)) == Some(rule@),
            None => rule_in(chars@.subrange(from as int, end as int)) is None,
        },
{
    let ghost line = chars@.subrange(from as int, end as int);
    let mut a: usize = from;
    let mut b: usize = end;
    assert(line[0] == chars@[from as int]);
    let negated = chars[a] == '!';
    if negated {
        a = a + 1;
    }
    let ghost s1 = chars@.subrange(a as int, b as int);
    assert(s1 =~= without_first_if(line, negated));
    if a < b && chars[a] == '\\' {
        a = a + 1;
    }
    let ghost s2 = chars@.subrange(a as int, b as int);
    assert(s2 =~= without_first(s1, '\\'));
    let dir_only = a < b && chars[b - 1] == '/';
    if dir_only {
        b = b - 1;
    }
    let ghost s3 = chars@.subrange(a as int, b as int);
    assert(s3 =~= without_last(s2, '/'));
    let rooted = a < b && chars[a] == '/';
    if rooted {
        a = a + 1;
    }
    let ghost glob = chars@.subrange(a as int, b as int);
    assert(glob =~= without_first(s3, '/'));
    if a == b {
        return None;
    }
    let interior = has_slash(chars, a, b);
    Some(Rule { glob: string_of(chars, a, b), negated, anchored: rooted || interior, dir_only })
}

/// Whether a `/` stands in `chars[from..to]`.
fn has_slash(chars: &[char], from: usize, to: usize) -> (r: bool)
    requires
        from <= to <= chars@.len(),
    ensures
        r == chars@.subrange(from as int, to as int).contains('/'),
{
    let ghost part = chars@.subrange(from as int, to as int);
    let mut i: usize = from;
    while i < to
        invariant
            from <= i <= to <= chars@.len(),
            part == chars@.subrange(from as int, to as int),
            forall|k: int| from <= k < i ==> chars@[k] != '/',
        decreases to - i,
    {
        if chars[i] == '/' {
            assert(part[i - from] == '/');
            return true;
        }
        i += 1;
    }
    assert(!part.contains('/')) by {
        if part.contains('/') {
            let k = choose|k: int| 0 <= k < part.len() && part[k] == '/';
            assert(chars@[from + k] == '/');
        }
    }
    false
}

impl Rule {
    /// Returns `true` if this rule's glob matches the normalized path.
    fn matches(&self, path: &str) -> (r: bool)
        ensures
            r == rule_matches(self@, path@),
    {
        if self.anchored {
            glob_match(self.glob.as_str(), path)
        } else {
            // Unanchored, slash-free patterns match by basename at any depth.
            let base = last_component(path);
            glob_match(self.glob.as_str(), base.as_str())
        }
    }
}

/// The last component of a path.
fn last_component(path: &str) -> (r: String)
    ensures
        r@ == base_name(path@),
{
    let chars = chars_of(path);
    let n: usize = chars.len();
    let mut start: usize = 0;
    assert(chars@.subrange(0, n as int) =~= path@);
    while has_slash(&chars, start, n)
        invariant
            start <= n,
            n == chars@.len(),
            base_name(chars@.subrange(start as int, n as int)) == base_name(path@),
        decreases n - start,
    {
        assert(chars@.subrange(start as int, n as int).len() > 0);
        assert(chars@.subrange(start as int, n as int).skip(1) =~= chars@.subrange(
            start + 1,
            n as int,
        ));
        start = start + 1;
    }
    string_of(&chars, start, n)
}

/// Normalizes a path to a forward-slash, leading/trailing-slash-free string.
pub fn normalize(path: &str) -> (r: String)
    ensures
        r@ == normal_path(path@),
{
    let raw = chars_of(path);
    let mut chars: Vec<char> = Vec::new();
    let ghost slashed = path@.map_values(|c: char| if c == '\\' { '/' } else { c });
    let mut i: usize = 0;
    while i < raw.len()
        invariant
            i <= raw@.len(),
            raw@ == path@,
            chars@.len() == i,
            slashed == path@.map_values(|c: char| if c == '\\' { '/' } else { c }),
            forall|k: int| 0 <= k < i ==> chars@[k] == slashed[k],
        decreases raw.len() - i,
    {
        let c = raw[i];
        chars.push(if c == '\\' { '/' } else { c });
        i += 1;
    }
    assert(chars@ =~= slashed);
    let mut from: usize = 0;
    let mut to: usize = chars.len();
    assert(chars@.subrange(0, to as int) =~= slashed);
    while from < to && chars[from] == '/'
        invariant
            from <= to <= chars@.len(),
            without_slashes(chars@.subrange(from as int, to as int)) == without_slashes(slashed),
        decreases to - from,
    {
        assert(chars@.subrange(from as int, to as int).skip(1) =~= chars@.subrange(
            from + 1,
            to as int,
        ));
        from = from + 1;
    }
    while from < to && chars[to - 1] == '/'
        invariant
            from <= to <= chars@.len(),
            from < to ==> chars@[from as int] != '/',
            without_slashes(chars@.subrange(from as int, to as int)) == without_slashes(slashed),
        decreases to - from,
    {
        assert(chars@.subrange(from as int, to as int).drop_last() =~= chars@.subrange(
            from as int,
            to - 1,
        ));
        to = to - 1;
    }
    string_of(&chars, from, to)
}

impl IgnoreRules {
    /// Returns an empty rule set (matches nothing except the always-ignored
    /// `.tack/`).
    pub fn empty() -> (r: Self)
        ensures
            r@ == Seq::<RuleV>::empty(),
            forall|path: Seq<char>, is_dir: bool| #[trigger]
                ignores(r@, path, is_dir) == is_control(normal_path(path)),
    {
        let r = IgnoreRules { rules: Vec::new() };
        assert(r@ =~= Seq::<RuleV>::empty());
        r
    }

    /// The number of rules.
    pub fn len(&self) -> (r: usize)
        ensures
            r == self@.len(),
    {
        self.rules.len()
    }

    /// Whether there are no rules.
    pub fn is_empty(&self) -> (r: bool)
        ensures
            r == (self@.len() == 0),
    {
        self.rules.len() == 0
    }

    /// Parses ignore rules from the text of a `.tackignore` file.
    ///
    /// Blank lines and lines whose first non-whitespace character is `#` are
    /// skipped. Trailing whitespace on a line is trimmed. Leading `!` negates;
    /// leading `/` anchors; trailing `/` restricts to directories.
    pub fn parse(text: &str) -> (r: Self)
        ensures
            r@ == rules_on(text::pieces(text@, '\n')),
    {
        let chars = chars_of(text);
        let mut rules: Vec<Rule> = Vec::new();
        let mut start: usize = 0;
        let mut i: usize = 0;
        proof {
            assert(chars@.take(0) =~= seq![]);
            assert(chars@.subrange(0, 0) =~= seq![]);
            assert(text::pieces(chars@.take(0), '\n').drop_last() =~= seq![]);
            assert(encoding::views(rules@) =~= seq![]);
        }
        while i < chars.len()
            invariant
                start <= i <= chars@.len(),
                chars@ == text@,
                text::pieces(chars@.take(i as int), '\n').len() > 0,
                text::pieces(chars@.take(i as int), '\n').last() == chars@.subrange(start as int, i as int),
                encoding::views(rules@) == rules_on(text::pieces(chars@.take(i as int), '\n').drop_last()),
            decreases chars.len() - i,
        {
            let ghost lines = text::pieces(chars@.take(i as int), '\n');
            let ghost next = text::pieces(chars@.take(i + 1), '\n');
            proof {
                assert(chars@.take(i + 1).drop_last() =~= chars@.take(i as int));
                assert(chars@.take(i + 1).last() == chars@[i as int]);
            }
            if chars[i] == '\n' {
                let ghost was = rules@;
                match parse_line(&chars, start, i) {
                    Some(rule) => {
                        rules.push(rule);
                        assert(encoding::views(rules@) =~= encoding::views(was).push(rule@));
                    },
                    None => {},
                }
                start = i + 1;
                proof {
                    assert(next.drop_last() =~= lines);
                    assert(chars@.subrange(start as int, i + 1) =~= seq![]);
                }
            } else {
                proof {
                    assert(next.drop_last() =~= lines.drop_last());
                    assert(chars@.subrange(start as int, i + 1) =~= chars@.subrange(
                        start as int,
                        i as int,
                    ).push(chars@[i as int]));
                }
            }
            i += 1;
        }
        proof {
            assert(chars@.take(i as int) =~= text@);
        }
        let ghost was = rules@;
        match parse_line(&chars, start, i) {
            Some(rule) => {
                rules.push(rule);
                assert(encoding::views(rules@) =~= encoding::views(was).push(rule@));
            },
            None => {},
        }
        Self { rules }
    }

    /// Returns `true` if the repo-relative `rel_path` should be ignored.
    ///
    /// `rel_path` is interpreted with either separator (`/` or `\\`). `is_dir`
    /// says whether the path names a directory. `.tack` (and anything beneath
    /// it) is always ignored. Otherwise the **last** rule that applies decides.
    pub fn is_ignored(&self, rel_path: &str, is_dir: bool) -> (r: bool)
        ensures
            r == ignores(self@, rel_path@, is_dir),
    {
        let normalized = normalize(rel_path);
        let path = chars_of(normalized.as_str());
        let control = chars_of(".tack");
        let inside = chars_of(".tack/");
        if (path.len() == control.len() && is_at(&path, &control, 0)) || is_at(&path, &inside, 0) {
            proof {
                if path@.len() == control@.len() && text::occurs_at(path@, control@, 0) {
                    assert(path@.subrange(0, control@.len() as int) =~= path@);
                }
            }
            return true;
        }
        proof {
            if path@ == control@ {
                assert(path@.subrange(0, control@.len() as int) =~= control@);
            }
        }
        let mut ignored = false;
        let mut i: usize = 0;
        assert(encoding::views(self.rules@).take(0) =~= seq![]);
        while i < self.rules.len()
            invariant
                i <= self.rules@.len(),
                normalized@ == normal_path(rel_path@),
                ignored == last_ignores(
                    encoding::views(self.rules@).take(i as int),
                    normalized@,
                    is_dir,
                ),
            decreases self.rules.len() - i,
        {
            let rule = &self.rules[i];
            proof {
                let next = encoding::views(self.rules@).take(i + 1);
                assert(next.drop_last() =~= encoding::views(self.rules@).take(i as int));
                assert(next.last() == rule@);
            }
            if (!rule.dir_only || is_dir) && rule.matches(normalized.as_str()) {
                ignored = !rule.negated;
            }
            i += 1;
        }
        assert(encoding::views(self.rules@).take(i as int) =~= encoding::views(self.rules@));
        ignored
    }
}

impl Default for IgnoreRules {
    fn default() -> (r: Self)
        ensures
            r@ == Seq::<RuleV>::empty(),
    {
        IgnoreRules::empty()
    }
}

} // verus!
