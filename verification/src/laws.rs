//! The general properties of the scanner and the resolver, stated and
//! proved over the specification functions that the executable
//! functions' contracts use.

use vstd::prelude::*;

verus! {

use crate::config::SpecConfig;
use crate::parse::advance_spec;
use crate::parse::cve_code;
use crate::parse::first_code_match;
use crate::parse::first_non_dash;
use crate::parse::is_ascii_digit_char;
use crate::parse::lemma_first_code_match;
use crate::parse::matches_at;
use crate::parse::prefix_gate_spec;
use crate::parse::resolve_spec;
use crate::parse::scan_from;
use crate::parse::scan_spec;
use crate::parse::walk_spec;

/// With no configured branch prefixes the prefix gate never rejects: the
/// resolution of any branch is exactly its segment walk.
pub proof fn lemma_empty_prefixes_never_reject(c: SpecConfig, branch: Seq<char>)
    requires
        c.branch_prefixes.len() == 0,
    ensures
        prefix_gate_spec(c.branch_prefixes, branch),
        resolve_spec(c, branch) == walk_spec(c.codes, branch, 0),
{
}

/// With a non-empty prefix list, a branch that starts with no configured
/// prefix followed by a slash resolves to nothing.
pub proof fn lemma_prefix_gate_rejects(c: SpecConfig, branch: Seq<char>)
    requires
        c.branch_prefixes.len() > 0,
        forall|j: int|
            0 <= j < c.branch_prefixes.len() ==> !matches_at(
                branch,
                0,
                c.branch_prefixes[j].push('/'),
            ),
    ensures
        resolve_spec(c, branch) is None,
{
}

/// `first_non_dash` names the first position that does not hold a dash.
proof fn lemma_first_non_dash_at(s: Seq<char>, i: int, k: int)
    requires
        0 <= i <= k < s.len(),
        forall|t: int| i <= t < k ==> s[t] == '-',
        s[k] != '-',
    ensures
        first_non_dash(s, i) == k,
    decreases k - i,
{
    if i < k {
        lemma_first_non_dash_at(s, i + 1, k);
    }
}

/// The scanner rejects any string whose first character that is not a
/// dash is not an ASCII digit.
pub proof fn lemma_scan_rejects_nondigit_start(s: Seq<char>, amount: int, k: int)
    requires
        0 <= k < s.len(),
        forall|t: int| 0 <= t < k ==> s[t] == '-',
        s[k] != '-',
        !is_ascii_digit_char(s[k]),
    ensures
        scan_spec(s, amount) == Seq::<char>::empty(),
{
    lemma_first_non_dash_at(s, 0, k);
}

/// At a given position, the first code in configuration order that
/// occurs there decides the outcome of the whole walk: either its scan
/// yields the reference, or the resolution fails, with no fallback to
/// later codes or later segments.
pub proof fn lemma_first_match_wins(codes: Seq<Seq<char>>, branch: Seq<char>, i: int, j: int)
    requires
        0 <= i <= branch.len(),
        0 <= j < codes.len(),
        matches_at(branch, i, codes[j]),
        forall|t: int| 0 <= t < j ==> !matches_at(branch, i, codes[t]),
    ensures
        walk_spec(codes, branch, i) == ({
            let id = scan_spec(branch.skip(i + codes[j].len()), 1);
            if id.len() == 0 {
                None
            } else {
                Some(codes[j] + seq!['-'] + id)
            }
        }),
{
    lemma_first_code_match(codes, branch, i);
    let fcm = first_code_match(codes, branch, i);
    if fcm < j {
        assert(matches_at(branch, i, codes[fcm]));
        assert(false);
    }
    if fcm > j {
        assert(!matches_at(branch, i, codes[j]));
        assert(false);
    }
}

/// Position `i` of `branch` is a segment boundary: the very start of the
/// branch name, or the position just past a slash.
pub open spec fn is_segment_boundary(branch: Seq<char>, i: int) -> bool {
    i == 0 || (0 < i <= branch.len() && branch[i - 1] == '/')
}

proof fn lemma_walk_anchored(codes: Seq<Seq<char>>, branch: Seq<char>, i: int)
    requires
        0 <= i <= branch.len(),
        is_segment_boundary(branch, i),
        walk_spec(codes, branch, i) is Some,
    ensures
        exists|p: int|
            #[trigger] is_segment_boundary(branch, p) && i <= p <= branch.len() && (
            first_code_match(codes, branch, p) < codes.len() || matches_at(branch, p, cve_code())),
    decreases branch.len() - i, 1int,
{
    let j = first_code_match(codes, branch, i);
    if j < codes.len() || matches_at(branch, i, cve_code()) {
        assert(is_segment_boundary(branch, i) && i <= i <= branch.len() && (first_code_match(
            codes,
            branch,
            i,
        ) < codes.len() || matches_at(branch, i, cve_code())));
    } else {
        lemma_advance_anchored(codes, branch, i);
    }
}

proof fn lemma_advance_anchored(codes: Seq<Seq<char>>, branch: Seq<char>, i: int)
    requires
        0 <= i <= branch.len(),
        advance_spec(codes, branch, i) is Some,
    ensures
        exists|p: int|
            #[trigger] is_segment_boundary(branch, p) && i <= p <= branch.len() && (
            first_code_match(codes, branch, p) < codes.len() || matches_at(branch, p, cve_code())),
    decreases branch.len() - i, 0int,
{
    if i < branch.len() {
        if branch[i] == '/' {
            lemma_walk_anchored(codes, branch, i + 1);
        } else {
            lemma_advance_anchored(codes, branch, i + 1);
        }
    }
}

/// Matching is anchored at segment boundaries: a resolved reference
/// always comes from a configured code (or the CVE literal) that occurs
/// at the start of the branch name or right after a slash; a code buried
/// in the middle of a segment never yields one.
pub proof fn lemma_reference_is_anchored(c: SpecConfig, branch: Seq<char>)
    requires
        resolve_spec(c, branch) is Some,
    ensures
        exists|p: int|
            #[trigger] is_segment_boundary(branch, p) && 0 <= p <= branch.len() && (
            first_code_match(c.codes, branch, p) < c.codes.len() || matches_at(
                branch,
                p,
                cve_code(),
            )),
{
    lemma_walk_anchored(c.codes, branch, 0);
}

} // verus!

verus! {

/// `r` is exactly `g` hyphen-separated groups of ASCII digits: it begins
/// with a digit, ends with a digit, and no two dashes are adjacent.
pub open spec fn wf_groups(r: Seq<char>, g: int) -> bool
    decreases r.len(),
{
    if r.len() == 0 {
        false
    } else {
        g >= 1 && is_ascii_digit_char(r[0]) && wf_after_digit(r.skip(1), g)
    }
}

/// The shape of the remainder `r` right after a digit, with `g` groups
/// still reflected (the one under way included): more digits extend the
/// current group, a single dash opens the next, and the string must end
/// on a digit.
pub open spec fn wf_after_digit(r: Seq<char>, g: int) -> bool
    decreases r.len(),
{
    if r.len() == 0 {
        g == 1
    } else if is_ascii_digit_char(r[0]) {
        wf_after_digit(r.skip(1), g)
    } else if r[0] == '-' {
        wf_groups(r.skip(1), g - 1)
    } else {
        false
    }
}

/// The number of dashes in `r`.
pub open spec fn dash_count(r: Seq<char>) -> int
    decreases r.len(),
{
    if r.len() == 0 {
        0
    } else {
        (if r[0] == '-' {
            1int
        } else {
            0int
        }) + dash_count(r.skip(1))
    }
}

/// A well-formed result of `g` groups holds exactly `g - 1` dashes.
pub proof fn lemma_wf_dash_count(r: Seq<char>, g: int)
    ensures
        wf_groups(r, g) ==> dash_count(r) == g - 1,
        wf_after_digit(r, g) ==> dash_count(r) == g - 1,
    decreases r.len(),
{
    if r.len() > 0 {
        lemma_wf_dash_count(r.skip(1), g);
        lemma_wf_dash_count(r.skip(1), g - 1);
    }
}

/// Scanning from just after a digit, with a well-formed region of `g`
/// groups ahead of position `i` up to position `ll`, moves the scan to
/// the end of that region, having consumed `g - 1` separators.
proof fn lemma_scan_through(s: Seq<char>, i: int, ll: int, g: int, rem: int)
    requires
        0 <= i <= ll <= s.len(),
        1 <= g <= rem,
        wf_after_digit(s.subrange(i, ll), g),
    ensures
        scan_from(s, i, i, rem, false) == scan_from(s, ll, ll, rem - g + 1, false),
    decreases ll - i,
{
    let region = s.subrange(i, ll);
    if region.len() == 0 {
    } else if is_ascii_digit_char(region[0]) {
        assert(region.skip(1) =~= s.subrange(i + 1, ll));
        lemma_scan_through(s, i + 1, ll, g, rem);
    } else {
        assert(region[0] == '-');
        assert(region.skip(1) =~= s.subrange(i + 1, ll));
        assert(wf_groups(s.subrange(i + 1, ll), g - 1));
        assert(i + 1 < ll);
        assert(is_ascii_digit_char(s[i + 1]));
        assert(s.subrange(i + 1, ll).skip(1) =~= s.subrange(i + 2, ll));
        assert(scan_from(s, i, i, rem, false) == scan_from(s, i + 1, i, rem - 1, true));
        assert(scan_from(s, i + 1, i, rem - 1, true) == scan_from(s, i + 2, i + 2, rem - 1, false));
        lemma_scan_through(s, i + 2, ll, g - 1, rem - 1);
    }
}

/// Scanning a string that is itself exactly `g` well-formed groups
/// returns the whole string when `g` is the amount asked for, and
/// nothing when it falls short.
pub proof fn lemma_scan_of_wf(r: Seq<char>, g: int, amount: int)
    requires
        wf_groups(r, g),
        1 <= g <= amount,
    ensures
        scan_spec(r, amount) == if g == amount {
            r
        } else {
            Seq::<char>::empty()
        },
{
    assert(is_ascii_digit_char(r[0]));
    assert(r[0] != '-');
    assert(first_non_dash(r, 0) == 0);
    assert(r.skip(1) =~= r.subrange(1, r.len() as int));
    lemma_scan_through(r, 1, r.len() as int, g, amount);
    assert(scan_from(r, r.len() as int, r.len() as int, amount - g + 1, false) == Some(
        (r.len() as int, amount - g + 1),
    ));
    if g == amount {
        assert(r.subrange(0, r.len() as int) =~= r);
    }
}

} // verus!

verus! {

proof fn lemma_first_non_dash_bounds(s: Seq<char>, i: int)
    requires
        0 <= i,
    ensures
        i <= first_non_dash(s, i) || first_non_dash(s, i) == s.len(),
        first_non_dash(s, i) <= s.len(),
        0 <= first_non_dash(s, i),
    decreases s.len() - i,
{
    if i < s.len() && s[i] == '-' {
        lemma_first_non_dash_bounds(s, i + 1);
    }
}

/// The claim of `lemma_scan_from_shape` about the state machine entered
/// right after a digit: the final `end` closes a well-formed region of
/// `g` digit groups beginning at `i`, with `g` accounted against the
/// separators consumed.
spec fn scan_shape_claim(s: Seq<char>, i: int, rem: int) -> bool {
    match scan_from(s, i, i, rem, false) {
        None => true,
        Some(p) => {
            let e = p.0;
            let r2 = p.1;
            i <= e <= s.len() && 0 <= r2 <= rem && exists|g: int|
                1 <= g <= rem - r2 + (if r2 == 0 {
                    0int
                } else {
                    1int
                }) && #[trigger] wf_after_digit(s.subrange(i, e), g)
        },
    }
}

/// What comes out of the scanning state machine, entered right after a
/// digit at position `i - 1` with `rem` groups still wanted, is the end
/// of a well-formed region of digit groups beginning at `i`.
proof fn lemma_scan_from_shape(s: Seq<char>, i: int, rem: int)
    requires
        0 <= i <= s.len(),
        1 <= rem,
    ensures
        scan_shape_claim(s, i, rem),
    decreases s.len() - i,
{
    let res = scan_from(s, i, i, rem, false);
    if i >= s.len() {
        assert(s.subrange(i, i) =~= Seq::<char>::empty());
        assert(wf_after_digit(s.subrange(i, i), 1));
    } else if is_ascii_digit_char(s[i]) {
        lemma_scan_from_shape(s, i + 1, rem);
        if res is Some {
            let e = (res->0).0;
            let r2 = (res->0).1;
            let g = choose|g: int|
                1 <= g <= rem - r2 + (if r2 == 0 {
                    0int
                } else {
                    1int
                }) && #[trigger] wf_after_digit(s.subrange(i + 1, e), g);
            assert(s.subrange(i, e).skip(1) =~= s.subrange(i + 1, e));
            assert(s.subrange(i, e)[0] == s[i]);
            assert(wf_after_digit(s.subrange(i, e), g));
        }
    } else if s[i] == '-' {
        if rem == 1 {
            assert(s.subrange(i, i) =~= Seq::<char>::empty());
            assert(wf_after_digit(s.subrange(i, i), 1));
        } else {
            assert(res == scan_from(s, i + 1, i, rem - 1, true));
            if i + 1 >= s.len() {
                assert(s.subrange(i, i) =~= Seq::<char>::empty());
                assert(wf_after_digit(s.subrange(i, i), 1));
            } else if is_ascii_digit_char(s[i + 1]) {
                assert(res == scan_from(s, i + 2, i + 2, rem - 1, false));
                lemma_scan_from_shape(s, i + 2, rem - 1);
                if res is Some {
                    let e = (res->0).0;
                    let r2 = (res->0).1;
                    let g = choose|g: int|
                        1 <= g <= (rem - 1) - r2 + (if r2 == 0 {
                            0int
                        } else {
                            1int
                        }) && #[trigger] wf_after_digit(s.subrange(i + 2, e), g);
                    assert(s.subrange(i, e)[0] == '-');
                    assert(s.subrange(i, e).skip(1) =~= s.subrange(i + 1, e));
                    assert(s.subrange(i + 1, e)[0] == s[i + 1]);
                    assert(s.subrange(i + 1, e).skip(1) =~= s.subrange(i + 2, e));
                    assert(wf_groups(s.subrange(i + 1, e), g));
                    assert(wf_after_digit(s.subrange(i, e), g + 1));
                }
            } else if s[i + 1] == '-' {
            } else {
                assert(s.subrange(i, i) =~= Seq::<char>::empty());
                assert(wf_after_digit(s.subrange(i, i), 1));
            }
        }
    } else {
        assert(s.subrange(i, i) =~= Seq::<char>::empty());
        assert(wf_after_digit(s.subrange(i, i), 1));
    }
}

/// A non-empty scanner result is well formed: `g` hyphen-separated
/// digit groups, for some `g` between one and the amount asked for.
pub proof fn lemma_scan_result_shape(s: Seq<char>, amount: int)
    requires
        1 <= amount,
        scan_spec(s, amount).len() > 0,
    ensures
        exists|g: int| 1 <= g <= amount && #[trigger] wf_groups(scan_spec(s, amount), g),
{
    let k = first_non_dash(s, 0);
    lemma_first_non_dash_bounds(s, 0);
    let res = scan_from(s, k + 1, k + 1, amount, false);
    lemma_scan_from_shape(s, k + 1, amount);
    let e = (res->0).0;
    let r2 = (res->0).1;
    let g = choose|g: int|
        1 <= g <= amount - r2 + (if r2 == 0 {
            0int
        } else {
            1int
        }) && #[trigger] wf_after_digit(s.subrange(k + 1, e), g);
    assert(s.subrange(k, e).skip(1) =~= s.subrange(k + 1, e));
    assert(s.subrange(k, e)[0] == s[k]);
    assert(wf_groups(s.subrange(k, e), g));
}

/// The scanner is idempotent on its own output: a non-empty result that
/// carries the full amount of groups (one dash fewer than the amount
/// asked) rescans to exactly itself. A scan whose last consumed
/// separator was not followed by a digit returns fewer groups, and only
/// such a result rescans differently.
pub proof fn lemma_scan_idempotent(s: Seq<char>, amount: int)
    requires
        1 <= amount,
        scan_spec(s, amount).len() > 0,
        dash_count(scan_spec(s, amount)) == amount - 1,
    ensures
        scan_spec(scan_spec(s, amount), amount) == scan_spec(s, amount),
{
    let r = scan_spec(s, amount);
    lemma_scan_result_shape(s, amount);
    let g = choose|g: int| 1 <= g <= amount && #[trigger] wf_groups(r, g);
    lemma_wf_dash_count(r, g);
    lemma_scan_of_wf(r, g, amount);
}

/// With a single required group no side condition is needed: any
/// non-empty scan for one group rescans to exactly itself.
pub proof fn lemma_scan_idempotent_single(s: Seq<char>)
    requires
        scan_spec(s, 1).len() > 0,
    ensures
        scan_spec(scan_spec(s, 1), 1) == scan_spec(s, 1),
{
    let r = scan_spec(s, 1);
    lemma_scan_result_shape(s, 1);
    let g = choose|g: int| 1 <= g <= 1 && #[trigger] wf_groups(r, g);
    lemma_scan_of_wf(r, 1, 1);
}

/// A doubled separator strictly between groups is a hard failure: a
/// string that begins with fewer well-formed groups than asked, followed
/// by two dashes, scans to nothing, whatever comes after.
pub proof fn lemma_doubled_separator_rejects(r: Seq<char>, t: Seq<char>, g: int, amount: int)
    requires
        wf_groups(r, g),
        1 <= g < amount,
    ensures
        scan_spec(r + seq!['-', '-'] + t, amount) == Seq::<char>::empty(),
{
    let s = r + seq!['-', '-'] + t;
    let ll = r.len() as int;
    assert(s[0] == r[0]);
    assert(first_non_dash(s, 0) == 0);
    assert(s.subrange(1, ll) =~= r.skip(1));
    lemma_scan_through(s, 1, ll, g, amount);
    assert(s[ll] == '-');
    assert(s[ll + 1] == '-');
    assert(scan_from(s, ll, ll, amount - g + 1, false) == scan_from(
        s,
        ll + 1,
        ll,
        amount - g,
        true,
    ));
    assert(scan_from(s, ll + 1, ll, amount - g, true) is None);
}

} // verus!

verus! {

proof fn lemma_fnd_through_dashes(s: Seq<char>, i: int, d: int)
    requires
        0 <= i <= d <= s.len(),
        forall|t: int| 0 <= t < d ==> s[t] == '-',
    ensures
        first_non_dash(s, i) == first_non_dash(s, d),
    decreases d - i,
{
    if i < d {
        lemma_fnd_through_dashes(s, i + 1, d);
    }
}

proof fn lemma_fnd_shift(p: Seq<char>, t: Seq<char>, j: int)
    requires
        0 <= j,
    ensures
        first_non_dash(p + t, p.len() + j) == p.len() + first_non_dash(t, j),
    decreases t.len() - j,
{
    let s = p + t;
    if j < t.len() {
        assert(s[p.len() + j] == t[j]);
        if t[j] == '-' {
            lemma_fnd_shift(p, t, j + 1);
        }
    }
}

proof fn lemma_scan_from_shift(p: Seq<char>, t: Seq<char>, i: int, e: int, rem: int, on_sep: bool)
    requires
        0 <= i,
    ensures
        scan_from(p + t, p.len() + i, p.len() + e, rem, on_sep) == match scan_from(
            t,
            i,
            e,
            rem,
            on_sep,
        ) {
            None => None,
            Some(q) => Some((p.len() + q.0, q.1)),
        },
    decreases t.len() - i,
{
    let s = p + t;
    let d = p.len() as int;
    if i < t.len() {
        assert(s[d + i] == t[i]);
        if is_ascii_digit_char(t[i]) {
            lemma_scan_from_shift(p, t, i + 1, i + 1, rem, false);
        } else if t[i] == '-' && !on_sep && rem != 1 {
            lemma_scan_from_shift(p, t, i + 1, e, rem - 1, true);
        }
    }
}

/// Dashes in front of the first digit are immaterial: prepending any run
/// of dashes to a string leaves its scan unchanged.
pub proof fn lemma_leading_dashes_tolerated(d: nat, t: Seq<char>, amount: int)
    requires
        1 <= amount,
    ensures
        scan_spec(Seq::new(d, |x: int| '-') + t, amount) == scan_spec(t, amount),
{
    let p = Seq::new(d, |x: int| '-');
    let s = p + t;
    lemma_fnd_through_dashes(s, 0, d as int);
    lemma_fnd_shift(p, t, 0);
    let kt = first_non_dash(t, 0);
    let ks = first_non_dash(s, 0);
    assert(ks == d + kt);
    lemma_first_non_dash_bounds(t, 0);
    if kt >= t.len() || !is_ascii_digit_char(t[kt]) {
        if kt < t.len() {
            assert(s[ks] == t[kt]);
        }
    } else {
        assert(s[ks] == t[kt]);
        lemma_scan_from_shift(p, t, kt + 1, kt + 1, amount, false);
        lemma_scan_from_shape(t, kt + 1, amount);
        match scan_from(t, kt + 1, kt + 1, amount, false) {
            None => {},
            Some(q) => {
                if q.1 <= 1 {
                    assert(s.subrange(ks, d + q.0) =~= t.subrange(kt, q.0));
                }
            },
        }
    }
}

} // verus!
