//! The branch-name reference extractor: a number-sequence scanner and a
//! resolver that walks the slash-separated segments of a branch name.

use vstd::prelude::*;

verus! {

/// An ASCII decimal digit.
pub open spec fn is_ascii_digit_char(c: char) -> bool {
    '0' <= c && c <= '9'
}

/// Index of the first character at or after `i` that is not `'-'`, or
/// `s.len()` if the rest of `s` is all dashes.
pub open spec fn first_non_dash(s: Seq<char>, i: int) -> int
    decreases s.len() - i,
{
    if i < 0 || i >= s.len() {
        s.len() as int
    } else if s[i] == '-' {
        first_non_dash(s, i + 1)
    } else {
        i
    }
}

/// One step at a time, the scanning state machine that follows the first
/// digit of a number sequence. `i` is the position under scrutiny, `end`
/// is one past the last matched digit, `remaining` counts the separators
/// that may still be consumed, and `on_sep` says whether the previous
/// character was a consumed separator. `None` is the hard failure on a
/// repeated separator; otherwise the final `(end, remaining)` pair is
/// returned. Scanning stops early once `remaining` reaches zero, and any
/// character other than a digit or `'-'` terminates it.
pub open spec fn scan_from(
    s: Seq<char>,
    i: int,
    end: int,
    remaining: int,
    on_sep: bool,
) -> Option<(int, int)>
    decreases s.len() - i,
{
    if i < 0 || i >= s.len() {
        Some((end, remaining))
    } else if is_ascii_digit_char(s[i]) {
        scan_from(s, i + 1, i + 1, remaining, false)
    } else if s[i] == '-' {
        if on_sep {
            None
        } else if remaining == 1 {
            Some((end, 0))
        } else {
            scan_from(s, i + 1, end, remaining - 1, true)
        }
    } else {
        Some((end, remaining))
    }
}

/// The number-sequence scanner: the longest leading match of `amount`
/// hyphen-separated digit groups in `s`, after a tolerated run of leading
/// dashes, or the empty sequence when there is no such match. A scan that
/// consumed fewer separators than `amount - 1` yields nothing.
pub open spec fn scan_spec(s: Seq<char>, amount: int) -> Seq<char> {
    let k = first_non_dash(s, 0);
    if k >= s.len() || !is_ascii_digit_char(s[k]) {
        Seq::empty()
    } else {
        match scan_from(s, k + 1, k + 1, amount, false) {
            None => Seq::empty(),
            Some((end, remaining)) => {
                if remaining > 1 {
                    Seq::empty()
                } else {
                    s.subrange(k, end)
                }
            },
        }
    }
}

/// Scan `value` for `amount` hyphen-separated groups of ASCII digits and
/// return the exact matched substring, or `""` when there is no valid
/// leading match.
pub fn extract_number_sequences<'a>(value: &'a str, amount: usize) -> (r: &'a str)
    requires
        1 <= amount,
    ensures
        r@ == scan_spec(value@, amount as int),
{
    let n = value.unicode_len();
    let mut k: usize = 0;
    while k < n && value.get_char(k) == '-'
        invariant
            k <= n,
            n == value@.len(),
            first_non_dash(value@, 0) == first_non_dash(value@, k as int),
        decreases n - k,
    {
        k = k + 1;
    }
    if k == n {
        proof {
            reveal_strlit("");
        }
        assert(""@ =~= scan_spec(value@, amount as int));
        return "";
    }
    let c = value.get_char(k);
    if !(c >= '0' && c <= '9') {
        proof {
            reveal_strlit("");
        }
        assert(""@ =~= scan_spec(value@, amount as int));
        return "";
    }
    let ghost init = scan_from(value@, k + 1, k + 1, amount as int, false);
    let mut end: usize = k + 1;
    let mut i: usize = k + 1;
    let mut remaining: usize = amount;
    let mut on_sep = false;
    loop
        invariant
            n == value@.len(),
            k < n,
            k + 1 <= end <= i <= n,
            1 <= remaining,
            scan_from(value@, i as int, end as int, remaining as int, on_sep) == init,
            first_non_dash(value@, 0) == k,
            is_ascii_digit_char(value@[k as int]),
            1 <= amount,
            init == scan_from(value@, k + 1, k + 1, amount as int, false),
        ensures
            k + 1 <= end <= n,
            init is Some,
            (init->0).0 == end as int,
            ((init->0).1 > 1) <==> (remaining > 1),
        decreases n - i,
    {
        if i >= n {
            break;
        }
        let c = value.get_char(i);
        if c >= '0' && c <= '9' {
            end = i + 1;
            on_sep = false;
            i = i + 1;
        } else if c == '-' {
            if on_sep {
                proof {
                    reveal_strlit("");
                }
                assert(""@ =~= scan_spec(value@, amount as int));
                return "";
            }
            if remaining == 1 {
                break;
            }
            remaining = remaining - 1;
            on_sep = true;
            i = i + 1;
        } else {
            break;
        }
    }
    if remaining > 1 {
        proof {
            reveal_strlit("");
        }
        assert(""@ =~= scan_spec(value@, amount as int));
        return "";
    }
    let r = value.substring_char(k, end);
    assert(r@ =~= scan_spec(value@, amount as int));
    r
}

} // verus!

verus! {

use crate::config::Config;

/// True when `pat` occurs in `s` exactly at position `i`.
pub open spec fn matches_at(s: Seq<char>, i: int, pat: Seq<char>) -> bool {
    0 <= i && i + pat.len() <= s.len() && s.subrange(i, i + pat.len()) == pat
}

/// Compare the characters of `pat` against `s` at position `i`.
fn starts_with_at(s: &str, i: usize, pat: &str) -> (r: bool)
    requires
        i <= s@.len(),
    ensures
        r == matches_at(s@, i as int, pat@),
{
    let n = s.unicode_len();
    let m = pat.unicode_len();
    if m > n - i {
        return false;
    }
    let mut j: usize = 0;
    while j < m
        invariant
            j <= m,
            i + m <= n,
            n == s@.len(),
            m == pat@.len(),
            forall|t: int| 0 <= t < j ==> s@[i + t] == pat@[t],
        decreases m - j,
    {
        if s.get_char(i + j) != pat.get_char(j) {
            assert(!matches_at(s@, i as int, pat@)) by {
                if matches_at(s@, i as int, pat@) {
                    assert(s@.subrange(i as int, i + pat@.len())[j as int] == s@[i + j]);
                }
            }
            return false;
        }
        j = j + 1;
    }
    assert(s@.subrange(i as int, i + m as int) =~= pat@);
    true
}

/// The prefix gate: with no configured prefixes every branch passes;
/// otherwise the branch must start with some configured prefix followed
/// by a slash.
pub open spec fn prefix_gate_spec(prefixes: Seq<Seq<char>>, branch: Seq<char>) -> bool {
    prefixes.len() == 0 || exists|j: int|
        0 <= j < prefixes.len() && #[trigger] matches_at(branch, 0, prefixes[j].push('/'))
}

/// Does `branch` satisfy the prefix gate of `prefixes`?
pub fn prefix_matches(branch: &str, prefixes: &Vec<String>) -> (r: bool)
    ensures
        r == prefix_gate_spec(prefixes.deep_view(), branch@),
{
    let ghost pv = prefixes.deep_view();
    if prefixes.len() == 0 {
        return true;
    }
    let mut j: usize = 0;
    while j < prefixes.len()
        invariant
            j <= prefixes.len(),
            pv == prefixes.deep_view(),
            pv.len() == prefixes@.len(),
            forall|t: int| 0 <= t < j ==> !matches_at(branch@, 0, pv[t].push('/')),
        decreases prefixes.len() - j,
    {
        let mut pw = prefixes[j].clone();
        pw.append("/");
        proof {
            reveal_strlit("/");
        }
        assert(pw@ =~= pv[j as int].push('/'));
        if starts_with_at(branch, 0, pw.as_str()) {
            assert(matches_at(branch@, 0, pv[j as int].push('/')));
            return true;
        }
        j = j + 1;
    }
    false
}

/// Index of the first code in `codes` that occurs at position `i` of
/// `branch`, or `codes.len()` when none does.
pub open spec fn first_code_match(codes: Seq<Seq<char>>, branch: Seq<char>, i: int) -> int
    decreases codes.len(),
{
    if codes.len() == 0 {
        0
    } else if matches_at(branch, i, codes[0]) {
        0
    } else {
        1 + first_code_match(codes.skip(1), branch, i)
    }
}

/// `first_code_match` is in range, names a code that matches when it is
/// short of `codes.len()`, and nothing before it matches.
pub proof fn lemma_first_code_match(codes: Seq<Seq<char>>, branch: Seq<char>, i: int)
    ensures
        0 <= first_code_match(codes, branch, i) <= codes.len(),
        first_code_match(codes, branch, i) < codes.len() ==> matches_at(
            branch,
            i,
            codes[first_code_match(codes, branch, i)],
        ),
        forall|j: int|
            0 <= j < first_code_match(codes, branch, i) ==> !matches_at(branch, i, codes[j]),
    decreases codes.len(),
{
    if codes.len() == 0 {
    } else if matches_at(branch, i, codes[0]) {
    } else {
        lemma_first_code_match(codes.skip(1), branch, i);
        assert forall|j: int|
            0 <= j < first_code_match(codes, branch, i) implies !matches_at(
            branch,
            i,
            codes[j],
        ) by {
            if j >= 1 {
                assert(codes.skip(1)[j - 1] == codes[j]);
                assert(!matches_at(branch, i, codes.skip(1)[j - 1]));
            }
        }
        if first_code_match(codes, branch, i) < codes.len() {
            assert(codes.skip(1)[first_code_match(codes.skip(1), branch, i)] == codes[
                first_code_match(codes, branch, i)
            ]);
        }
    }
}

/// The built-in code for security advisories.
pub open spec fn cve_code() -> Seq<char> {
    seq!['C', 'V', 'E']
}

/// The segment walk, poised at position `i` of `branch` (position 0 or
/// just past a slash). The first configured code that occurs at `i`
/// decides the outcome: its scan either yields the reference or fails
/// the whole resolution. Failing that, the literal CVE code is tried
/// with two required groups; failing that, the walk moves past the next
/// slash.
pub open spec fn walk_spec(codes: Seq<Seq<char>>, branch: Seq<char>, i: int) -> Option<Seq<char>>
    decreases branch.len() - i, 1int,
{
    if i < 0 || i > branch.len() {
        None
    } else {
        let j = first_code_match(codes, branch, i);
        if j < codes.len() {
            let id = scan_spec(branch.skip(i + codes[j].len()), 1);
            if id.len() == 0 {
                None
            } else {
                Some(codes[j] + seq!['-'] + id)
            }
        } else if matches_at(branch, i, cve_code()) {
            let id = scan_spec(branch.skip(i + 3), 2);
            if id.len() == 0 {
                None
            } else {
                Some(cve_code() + seq!['-'] + id)
            }
        } else {
            advance_spec(codes, branch, i)
        }
    }
}

/// Nothing matched at position `i`: resume the walk just past the next
/// slash at or after `i`, or give up when no slash remains.
pub open spec fn advance_spec(codes: Seq<Seq<char>>, branch: Seq<char>, i: int) -> Option<
    Seq<char>,
>
    decreases branch.len() - i, 0int,
{
    if i < 0 || i >= branch.len() {
        None
    } else if branch[i] == '/' {
        walk_spec(codes, branch, i + 1)
    } else {
        advance_spec(codes, branch, i + 1)
    }
}

/// The reference resolver: `None` when the prefix gate rejects, else the
/// outcome of the segment walk from the start of the branch name.
pub open spec fn resolve_spec(c: crate::config::SpecConfig, branch: Seq<char>) -> Option<
    Seq<char>,
> {
    if !prefix_gate_spec(c.branch_prefixes, branch) {
        None
    } else {
        walk_spec(c.codes, branch, 0)
    }
}

/// Locate a configured issue code (or the literal CVE form) in `branch`
/// and return the canonical `CODE-NUMBER` (or `CVE-NUMBER-NUMBER`)
/// reference, or `None` when the branch carries no reference.
pub fn find_issue_reference(config: &Config, branch: &str) -> (r: Option<String>)
    ensures
        r is Some <==> resolve_spec(config@, branch@) is Some,
        r is Some ==> (r->0)@ == resolve_spec(config@, branch@)->0,
{
    if !prefix_matches(branch, &config.branch_prefixes) {
        return None;
    }
    let ghost cv = config@.codes;
    let n = branch.unicode_len();
    let mut i: usize = 0;
    loop
        invariant
            i <= n,
            n == branch@.len(),
            cv == config@.codes,
            cv.len() == config.codes@.len(),
            walk_spec(cv, branch@, i as int) == walk_spec(cv, branch@, 0),
            prefix_gate_spec(config@.branch_prefixes, branch@),
        decreases n - i,
    {
        let m = config.codes.len();
        let mut j: usize = 0;
        while j < m
            invariant
                j <= m,
                m == config.codes@.len(),
                i <= n,
                n == branch@.len(),
                cv == config@.codes,
                cv.len() == config.codes@.len(),
                walk_spec(cv, branch@, i as int) == walk_spec(cv, branch@, 0),
                prefix_gate_spec(config@.branch_prefixes, branch@),
                forall|t: int| 0 <= t < j ==> !matches_at(branch@, i as int, cv[t]),
            decreases m - j,
        {
            let code = &config.codes[j];
            if starts_with_at(branch, i, code.as_str()) {
                proof {
                    lemma_first_code_match(cv, branch@, i as int);
                    let fcm = first_code_match(cv, branch@, i as int);
                    assert(cv[j as int] == config.codes@[j as int]@);
                    assert(matches_at(branch@, i as int, cv[j as int]));
                    if fcm < j {
                        assert(matches_at(branch@, i as int, cv[fcm]));
                        assert(false);
                    }
                    if fcm > j {
                        assert(!matches_at(branch@, i as int, cv[j as int]));
                        assert(false);
                    }
                }
                assert(first_code_match(cv, branch@, i as int) == j);
                let clen = code.as_str().unicode_len();
                assert(clen as int == cv[j as int].len());
                let rest = branch.substring_char(i + clen, n);
                assert(rest@ =~= branch@.skip(i + clen));
                let id = extract_number_sequences(rest, 1);
                assert(id@ == scan_spec(branch@.skip(i as int + cv[j as int].len()), 1));
                if id.is_empty() {
                    assert(walk_spec(cv, branch@, i as int) is None);
                    assert(resolve_spec(config@, branch@) is None);
                    return None;
                }
                let mut out = code.clone();
                out.append("-");
                out.append(id);
                proof {
                    reveal_strlit("-");
                }
                assert(out@ =~= cv[j as int] + seq!['-'] + id@);
                return Some(out);
            }
            j = j + 1;
        }
        proof {
            lemma_first_code_match(cv, branch@, i as int);
        }
        assert(first_code_match(cv, branch@, i as int) == cv.len());
        proof {
            reveal_strlit("CVE");
        }
        assert("CVE"@ =~= cve_code());
        if starts_with_at(branch, i, "CVE") {
            let rest = branch.substring_char(i + 3, n);
            assert(rest@ =~= branch@.skip(i + 3));
            let id = extract_number_sequences(rest, 2);
            if id.is_empty() {
                return None;
            }
            let mut out = "CVE".to_owned();
            out.append("-");
            out.append(id);
            proof {
                reveal_strlit("-");
            }
            assert(out@ =~= cve_code() + seq!['-'] + id@);
            return Some(out);
        }
        let mut k = i;
        while k < n && branch.get_char(k) != '/'
            invariant
                i <= k <= n,
                n == branch@.len(),
                cv == config@.codes,
                advance_spec(cv, branch@, k as int) == advance_spec(cv, branch@, i as int),
            decreases n - k,
        {
            k = k + 1;
        }
        assert(walk_spec(cv, branch@, i as int) == advance_spec(cv, branch@, i as int));
        if k == n {
            return None;
        }
        assert(advance_spec(cv, branch@, k as int) == walk_spec(cv, branch@, k + 1));
        i = k + 1;
    }
}

} // verus!
