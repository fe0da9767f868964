//! The version token scanner: a single left-to-right pass over a filename
//! that pulls out the first dotted numeric version token, if any.

use vstd::prelude::*;

verus! {

/// `c` is an ASCII decimal digit.
pub open spec fn is_ascii_digit_char(c: char) -> bool {
    '0' <= c && c <= '9'
}

/// Characters a version run is made of: digits and dots.
pub open spec fn is_version_char(c: char) -> bool {
    is_ascii_digit_char(c) || c == '.'
}

/// A valid version token: non-empty, made of digits and dots only, beginning
/// and ending with a digit, with no two adjacent dots (so every dot-separated
/// segment is a non-empty run of digits) and at least two dots (so at least
/// three segments).
pub open spec fn valid_version_token(s: Seq<char>) -> bool {
    &&& s.len() > 0
    &&& (forall|k: int| 0 <= k < s.len() ==> is_version_char(#[trigger] s[k]))
    &&& is_ascii_digit_char(s[0])
    &&& is_ascii_digit_char(s[s.len() - 1])
    &&& (forall|k: int| #![trigger s[k]] 0 <= k < s.len() - 1 ==> !(s[k] == '.' && s[k + 1] == '.'))
    &&& (exists|a: int, b: int| 0 <= a < b < s.len() && s[a] == '.' && s[b] == '.')
}

/// The anchor substring that every filename of the distribution family
/// carries; names without it are rejected outright.
pub open spec fn anchor() -> Seq<char> {
    "google-cloud-cli-"@
}

/// `sub` occurs somewhere in `s`.
pub open spec fn contains_seq(s: Seq<char>, sub: Seq<char>) -> bool {
    exists|k: int|
        0 <= k && k + sub.len() <= s.len() && #[trigger] s.subrange(k, k + sub.len() as int)
            == sub
}

/// `s` contains the anchor substring.
pub open spec fn contains_anchor(s: Seq<char>) -> bool {
    contains_seq(s, anchor())
}

/// The left context of a run beginning at `i`: positions `r..i` are all dots,
/// and `r` is the string start or is preceded by a non-version character.
pub open spec fn run_left_context(s: Seq<char>, r: int, i: int) -> bool {
    &&& 0 <= r <= i
    &&& (r == 0 || !is_version_char(s[r - 1]))
    &&& (forall|k: int| r <= k < i ==> #[trigger] s[k] == '.')
}

/// Position `i` starts a scan run: it holds a digit whose left context is a
/// (possibly empty) stretch of dots preceded by the string start or by a
/// non-version character.
pub open spec fn run_start_at(s: Seq<char>, i: int) -> bool {
    &&& 0 <= i < s.len()
    &&& is_ascii_digit_char(s[i])
    &&& (exists|r: int| run_left_context(s, r, i))
}

/// The run beginning at `i` extends exactly to `j` (exclusive), is
/// right-maximal there, and forms a valid version token.
pub open spec fn qualifying_run(s: Seq<char>, i: int, j: int) -> bool {
    &&& 0 <= i < j <= s.len()
    &&& run_start_at(s, i)
    &&& valid_version_token(s.subrange(i, j))
    &&& (j == s.len() || !is_version_char(s[j]))
}

/// Some run of `s` qualifies as a version token.
pub open spec fn has_qualifying_run(s: Seq<char>) -> bool {
    exists|i: int, j: int| qualifying_run(s, i, j)
}

/// The bounds of the leftmost qualifying run.
pub open spec fn first_run_indices(s: Seq<char>) -> (int, int) {
    choose|i: int, j: int|
        qualifying_run(s, i, j) && (forall|i2: int, j2: int|
            qualifying_run(s, i2, j2) ==> i <= i2)
}

/// The leftmost qualifying run itself.
pub open spec fn first_qualifying_run(s: Seq<char>) -> Seq<char> {
    s.subrange(first_run_indices(s).0, first_run_indices(s).1)
}

/// What scanning a filename yields: the first qualifying run of a name that
/// carries the anchor, and nothing otherwise.
pub open spec fn scan_version(s: Seq<char>) -> Option<Seq<char>> {
    if contains_anchor(s) && has_qualifying_run(s) {
        Some(first_qualifying_run(s))
    } else {
        None
    }
}

fn char_is_digit(c: char) -> (r: bool)
    ensures
        r == is_ascii_digit_char(c),
{
    '0' <= c && c <= '9'
}

fn char_is_version(c: char) -> (r: bool)
    ensures
        r == is_version_char(c),
{
    ('0' <= c && c <= '9') || c == '.'
}

/// Whether `pat` occurs in `s` at position `i`.
pub(crate) fn match_at(s: &str, s_len: usize, i: usize, pat: &str, pat_len: usize) -> (r: bool)
    requires
        s_len == s@.len(),
        pat_len == pat@.len(),
        i + pat_len <= s_len,
    ensures
        r == (s@.subrange(i as int, i + pat@.len()) == pat@),
{
    let mut k: usize = 0;
    while k < pat_len
        invariant
            s_len == s@.len(),
            pat_len == pat@.len(),
            i + pat_len <= s_len,
            0 <= k <= pat_len,
            forall|m: int| 0 <= m < k ==> s@[i + m] == #[trigger] pat@[m],
        decreases pat_len - k,
    {
        if s.get_char(i + k) != pat.get_char(k) {
            proof {
                assert(s@.subrange(i as int, i + pat@.len())[k as int] != pat@[k as int]);
            }
            return false;
        }
        k += 1;
    }
    proof {
        assert(s@.subrange(i as int, i + pat@.len()) =~= pat@);
    }
    true
}

/// Whether `pat` occurs anywhere in `s`.
fn contains_substr(s: &str, pat: &str) -> (r: bool)
    ensures
        r == contains_seq(s@, pat@),
{
    let s_len = s.unicode_len();
    let pat_len = pat.unicode_len();
    if pat_len > s_len {
        return false;
    }
    if pat_len == 0 {
        proof {
            assert(s@.subrange(0, 0 + pat@.len() as int) =~= pat@);
        }
        return true;
    }
    let last = s_len - pat_len;
    let mut k: usize = 0;
    while k <= last
        invariant
            s_len == s@.len(),
            pat_len == pat@.len(),
            1 <= pat_len <= s_len,
            last == s_len - pat_len,
            k <= last + 1,
            forall|k2: int|
                0 <= k2 < k ==> #[trigger] s@.subrange(k2, k2 + pat@.len() as int) != pat@,
        decreases last + 1 - k,
    {
        if match_at(s, s_len, k, pat, pat_len) {
            return true;
        }
        k += 1;
    }
    false
}

/// Whether `s[i..j]` is a valid version token.
fn token_is_valid(s: &str, s_len: usize, i: usize, j: usize) -> (r: bool)
    requires
        s_len == s@.len(),
        i < j <= s_len,
    ensures
        r == valid_version_token(s@.subrange(i as int, j as int)),
{
    let ghost t = s@.subrange(i as int, j as int);
    if !char_is_digit(s.get_char(i)) {
        proof {
            assert(t[0] == s@[i as int]);
        }
        return false;
    }
    if !char_is_digit(s.get_char(j - 1)) {
        proof {
            assert(t[t.len() - 1] == s@[j - 1]);
        }
        return false;
    }
    let mut dots: usize = 0;
    let ghost mut gd1: int = 0;
    let ghost mut gd2: int = 0;
    let mut k: usize = i;
    while k < j
        invariant
            s_len == s@.len(),
            i < j <= s_len,
            i <= k <= j,
            t == s@.subrange(i as int, j as int),
            is_ascii_digit_char(s@[i as int]),
            is_ascii_digit_char(s@[j - 1]),
            forall|m: int| i <= m < k ==> is_version_char(#[trigger] s@[m]),
            forall|m: int| #![trigger s@[m]] i <= m < k - 1 ==> !(s@[m] == '.' && s@[m + 1] == '.'),
            dots <= k - i,
            dots == 0 ==> forall|m: int| i <= m < k ==> #[trigger] s@[m] != '.',
            dots == 1 ==> i <= gd1 < k && s@[gd1] == '.' && (forall|m: int|
                i <= m < k && #[trigger] s@[m] == '.' ==> m == gd1),
            dots >= 2 ==> i <= gd1 < gd2 < k && s@[gd1] == '.' && s@[gd2] == '.',
        decreases j - k,
    {
        let c = s.get_char(k);
        if !char_is_version(c) {
            proof {
                assert(t[k - i] == s@[k as int]);
            }
            return false;
        }
        if c == '.' {
            if s.get_char(k - 1) == '.' {
                proof {
                    assert(t[k - 1 - i] == s@[k - 1]);
                    assert(t[k - i] == s@[k as int]);
                }
                return false;
            }
            proof {
                if dots == 0 {
                    gd1 = k as int;
                } else if dots == 1 {
                    gd2 = k as int;
                }
            }
            dots += 1;
        }
        k += 1;
    }
    let r = dots >= 2;
    proof {
        if r {
            assert forall|x: int| 0 <= x < t.len() implies is_version_char(#[trigger] t[x]) by {
                assert(t[x] == s@[i + x]);
            };
            assert forall|x: int| #![trigger t[x]] 0 <= x < t.len() - 1 implies !(t[x] == '.'
                && t[x + 1] == '.') by {
                assert(t[x] == s@[i + x]);
                assert(t[x + 1] == s@[i + x + 1]);
            };
            assert(t[gd1 - i] == s@[gd1] && t[gd2 - i] == s@[gd2]);
            assert(valid_version_token(t));
        } else {
            if valid_version_token(t) {
                let (a, b) = choose|a: int, b: int|
                    0 <= a < b < t.len() && t[a] == '.' && t[b] == '.';
                assert(t[a] == s@[i + a]);
                assert(t[b] == s@[i + b]);
                assert(false);
            }
        }
    }
    r
}

/// No valid token ending at or beyond a run start `rs` can begin strictly
/// before it: the characters to the left of `rs` are dots back to a
/// non-version character (or the string start), and a token starting there
/// would have to begin with a digit yet cover that blocking position.
proof fn lemma_run_start_blocks_earlier(s: Seq<char>, rs: int)
    requires
        run_start_at(s, rs),
    ensures
        forall|i2: int, j2: int|
            0 <= i2 < rs && rs <= j2 <= s.len() ==> !valid_version_token(
                #[trigger] s.subrange(i2, j2),
            ),
{
    let r = choose|r: int| run_left_context(s, r, rs);
    assert forall|i2: int, j2: int|
        0 <= i2 < rs && rs <= j2 <= s.len() implies !valid_version_token(
        #[trigger] s.subrange(i2, j2),
    ) by {
        if valid_version_token(s.subrange(i2, j2)) {
            let t = s.subrange(i2, j2);
            if i2 >= r {
                assert(s[i2] == '.');
                assert(t[0] == s[i2]);
                assert(false);
            } else {
                assert(r >= 1);
                assert(!is_version_char(s[r - 1]));
                assert(t[r - 1 - i2] == s[r - 1]);
                assert(is_version_char(t[r - 1 - i2]));
                assert(false);
            }
        }
    };
}

/// Inside a run of version characters that begins at `rs`, no later position
/// can itself start a run: its left context would have to reach a
/// non-version character, but every character back to `rs` is a digit or dot.
proof fn lemma_run_blocks_inner_starts(s: Seq<char>, rs: int, m: int)
    requires
        run_start_at(s, rs),
        rs <= m <= s.len(),
        forall|k: int| rs <= k < m ==> is_version_char(#[trigger] s[k]),
    ensures
        forall|i2: int| rs < i2 < m ==> !run_start_at(s, i2),
{
    assert forall|i2: int| rs < i2 < m implies !run_start_at(s, i2) by {
        if run_start_at(s, i2) {
            let r2 = choose|r2: int| run_left_context(s, r2, i2);
            if r2 <= rs {
                assert(s[rs] == '.');
                assert(is_ascii_digit_char(s[rs]));
                assert(false);
            } else {
                assert(r2 >= 1);
                assert(!is_version_char(s[r2 - 1]));
                assert(is_version_char(s[r2 - 1]));
                assert(false);
            }
        }
    };
}

/// When the scan stands outside a run at position `m` (everything back to a
/// non-version character is dots), no valid token can end exactly at `m`.
proof fn lemma_dots_block_tokens(s: Seq<char>, m: int)
    requires
        0 <= m <= s.len(),
        exists|r: int| run_left_context(s, r, m),
    ensures
        forall|i2: int| 0 <= i2 < m ==> !valid_version_token(#[trigger] s.subrange(i2, m)),
{
    let r = choose|r: int| run_left_context(s, r, m);
    assert forall|i2: int| 0 <= i2 < m implies !valid_version_token(
        #[trigger] s.subrange(i2, m),
    ) by {
        if valid_version_token(s.subrange(i2, m)) {
            let t = s.subrange(i2, m);
            if i2 >= r {
                assert(s[i2] == '.');
                assert(t[0] == s[i2]);
                assert(false);
            } else {
                assert(r >= 1);
                assert(!is_version_char(s[r - 1]));
                assert(t[r - 1 - i2] == s[r - 1]);
                assert(is_version_char(t[r - 1 - i2]));
                assert(false);
            }
        }
    };
}

/// A qualifying run that no other qualifying run ends before is the first
/// qualifying run, and scanning yields exactly it.
proof fn lemma_scan_yields(s: Seq<char>, rs: int, j: int)
    requires
        contains_anchor(s),
        qualifying_run(s, rs, j),
        forall|i2: int, j2: int| #[trigger] qualifying_run(s, i2, j2) ==> j2 >= j,
    ensures
        scan_version(s) == Some(s.subrange(rs, j)),
{
    assert(has_qualifying_run(s));
    assert forall|i2: int, j2: int| #[trigger] qualifying_run(s, i2, j2) implies rs <= i2 by {
        if i2 < rs {
            lemma_run_start_blocks_earlier(s, rs);
            assert(j2 >= j);
            assert(valid_version_token(s.subrange(i2, j2)));
            assert(false);
        }
    };
    assert(qualifying_run(s, rs, j) && (forall|i2: int, j2: int|
        qualifying_run(s, i2, j2) ==> rs <= i2));
    let (ci, cj) = first_run_indices(s);
    assert(qualifying_run(s, ci, cj) && (forall|i2: int, j2: int|
        qualifying_run(s, i2, j2) ==> ci <= i2));
    assert(ci == rs);
    assert(cj >= j);
    if cj > j {
        let t = s.subrange(rs, cj);
        assert(is_version_char(t[j - rs]));
        assert(t[j - rs] == s[j]);
        assert(j < s.len());
        assert(!is_version_char(s[j]));
        assert(false);
    }
    assert(first_qualifying_run(s) == s.subrange(rs, j));
}

/// The anchor's length and character facts the laws below lean on: it holds
/// no digit at all, and it ends in a character that is neither digit nor dot.
proof fn lemma_anchor_chars()
    ensures
        anchor().len() == 17,
        forall|k: int| 0 <= k < 17 ==> !is_ascii_digit_char(#[trigger] anchor()[k]),
        !is_version_char(anchor()[16]),
{
    reveal_strlit("google-cloud-cli-");
}

/// A name without the anchor substring never yields a version token.
pub proof fn lemma_no_anchor_no_version(s: Seq<char>)
    requires
        !contains_anchor(s),
    ensures
        scan_version(s) is None,
{
}

/// No qualifying run of a well-formed name ends before the end of its
/// version token: the anchor holds no digit to end a token on, and inside
/// the token every following character is still a digit or a dot.
proof fn lemma_no_early_run_end(v: Seq<char>, tail: Seq<char>, i2: int, j2: int)
    requires
        valid_version_token(v),
        qualifying_run(anchor() + v + tail, i2, j2),
    ensures
        j2 >= 17 + v.len(),
{
    lemma_anchor_chars();
    let s = anchor() + v + tail;
    if j2 < 17 + v.len() {
        let t = s.subrange(i2, j2);
        assert(is_ascii_digit_char(t[t.len() - 1]));
        assert(t[t.len() - 1] == s[j2 - 1]);
        if j2 <= 17 {
            assert(s[j2 - 1] == anchor()[j2 - 1]);
            assert(false);
        } else {
            assert(s[j2] == v[j2 - 17]);
            assert(is_version_char(v[j2 - 17]));
            assert(j2 < s.len());
            assert(false);
        }
    }
}

/// A well-formed release filename — the anchor, a valid version token, then
/// a tail that does not begin with a digit or a dot — yields exactly that
/// token, with nothing of the tail attached.
#[verifier::rlimit(60)]
pub proof fn lemma_well_formed_name_extracts(v: Seq<char>, tail: Seq<char>)
    requires
        valid_version_token(v),
        tail.len() > 0 ==> !is_version_char(tail[0]),
    ensures
        scan_version(anchor() + v + tail) == Some(v),
{
    lemma_anchor_chars();
    let s = anchor() + v + tail;
    let vlen = v.len() as int;
    assert(contains_anchor(s)) by {
        assert(s.subrange(0, 0 + anchor().len() as int) =~= anchor());
    };
    assert(qualifying_run(s, 17, 17 + vlen)) by {
        assert(s.subrange(17, 17 + vlen) =~= v);
        assert(s[16] == anchor()[16]);
        assert(run_left_context(s, 17, 17));
        assert(s[17] == v[0]);
        assert(run_start_at(s, 17));
        if tail.len() > 0 {
            assert(s[17 + vlen] == tail[0]);
        }
    };
    assert forall|i2: int, j2: int| #[trigger] qualifying_run(s, i2, j2) implies j2 >= 17
        + vlen by {
        lemma_no_early_run_end(v, tail, i2, j2);
    };
    lemma_scan_yields(s, 17, 17 + vlen);
    assert(s.subrange(17, 17 + vlen) =~= v);
}

/// Every qualifying run ends at or after position `n`: nothing the scan has
/// already passed over was missed.
spec fn no_qualifying_end_before(s: Seq<char>, n: int) -> bool {
    forall|i2: int, j2: int| #[trigger] qualifying_run(s, i2, j2) ==> j2 >= n
}

/// The scan stands inside the run begun at `rs` after reading `n`
/// characters.
spec fn in_run_state(s: Seq<char>, rs: int, n: int) -> bool {
    &&& 0 <= rs < n <= s.len()
    &&& run_start_at(s, rs)
    &&& forall|k: int| rs <= k < n ==> is_version_char(#[trigger] s[k])
}

/// The scan stands outside any run after reading `n` characters.
spec fn outside_run_state(s: Seq<char>, n: int) -> bool {
    exists|r: int| run_left_context(s, r, n)
}

/// Reading one more digit or dot lets no qualifying run slip past: such a
/// run would need a non-version character (or the string end) right here.
proof fn lemma_inv_step_vchar(s: Seq<char>, n: int)
    requires
        0 <= n < s.len(),
        is_version_char(s[n]),
        no_qualifying_end_before(s, n),
    ensures
        no_qualifying_end_before(s, n + 1),
{
    assert forall|i2: int, j2: int| #[trigger] qualifying_run(s, i2, j2) implies j2 >= n + 1 by {
        if j2 <= n {
            assert(j2 >= n);
        }
    };
}

/// Reading the non-version character that ends an unqualified run lets no
/// qualifying run slip past: the only candidate ending here is the run
/// itself, and it does not qualify. The scan then stands outside any run.
proof fn lemma_inv_step_end_run(s: Seq<char>, rs: int, n: int)
    requires
        0 <= n < s.len(),
        in_run_state(s, rs, n),
        !is_version_char(s[n]),
        !valid_version_token(s.subrange(rs, n)),
        no_qualifying_end_before(s, n),
    ensures
        no_qualifying_end_before(s, n + 1),
        outside_run_state(s, n + 1),
{
    lemma_run_start_blocks_earlier(s, rs);
    lemma_run_blocks_inner_starts(s, rs, n);
    assert forall|i2: int, j2: int| #[trigger] qualifying_run(s, i2, j2) implies j2 >= n + 1 by {
        if j2 <= n {
            assert(j2 == n);
            if i2 < rs {
                assert(valid_version_token(s.subrange(i2, j2)));
                assert(false);
            } else if i2 > rs {
                assert(run_start_at(s, i2));
                assert(false);
            } else {
                assert(false);
            }
        }
    };
    assert(run_left_context(s, n + 1, n + 1));
}

/// Reading any non-digit while outside a run keeps the scan outside and
/// lets no qualifying run slip past: no token can end at a position whose
/// left context is a dot stretch.
proof fn lemma_inv_step_outside(s: Seq<char>, n: int)
    requires
        0 <= n < s.len(),
        !is_ascii_digit_char(s[n]),
        outside_run_state(s, n),
        no_qualifying_end_before(s, n),
    ensures
        no_qualifying_end_before(s, n + 1),
        outside_run_state(s, n + 1),
{
    let r = choose|r: int| run_left_context(s, r, n);
    lemma_dots_block_tokens(s, n);
    assert forall|i2: int, j2: int| #[trigger] qualifying_run(s, i2, j2) implies j2 >= n + 1 by {
        if j2 <= n {
            assert(j2 == n);
            assert(valid_version_token(s.subrange(i2, n)));
            assert(false);
        }
    };
    if s[n] == '.' {
        assert(run_left_context(s, r, n + 1));
    } else {
        assert(run_left_context(s, n + 1, n + 1));
    }
}

/// A scan that ends inside an unqualified run found no qualifying run.
proof fn lemma_none_in_run(s: Seq<char>, rs: int)
    requires
        in_run_state(s, rs, s.len() as int),
        !valid_version_token(s.subrange(rs, s.len() as int)),
        no_qualifying_end_before(s, s.len() as int),
    ensures
        !has_qualifying_run(s),
{
    lemma_run_start_blocks_earlier(s, rs);
    lemma_run_blocks_inner_starts(s, rs, s.len() as int);
    if has_qualifying_run(s) {
        let (i2, j2) = choose|i2: int, j2: int| qualifying_run(s, i2, j2);
        assert(j2 == s.len());
        if i2 < rs {
            assert(valid_version_token(s.subrange(i2, j2)));
            assert(false);
        } else if i2 > rs {
            assert(run_start_at(s, i2));
            assert(false);
        } else {
            assert(false);
        }
    }
}

/// A scan that ends outside any run found no qualifying run.
proof fn lemma_none_outside(s: Seq<char>)
    requires
        outside_run_state(s, s.len() as int),
        no_qualifying_end_before(s, s.len() as int),
    ensures
        !has_qualifying_run(s),
{
    lemma_dots_block_tokens(s, s.len() as int);
    if has_qualifying_run(s) {
        let (i2, j2) = choose|i2: int, j2: int| qualifying_run(s, i2, j2);
        assert(j2 == s.len());
        assert(valid_version_token(s.subrange(i2, s.len() as int)));
        assert(false);
    }
}

/// Extracts the first dotted numeric version token from a release-archive
/// filename. Returns `None` for names outside the distribution family (no
/// anchor substring) and for names in which no digit-and-dot run forms a
/// valid version token.
pub fn extract_version_from_name(name: &str) -> (result: Option<String>)
    ensures
        match result {
            Some(v) => scan_version(name@) == Some(v@),
            None => scan_version(name@) is None,
        },
{
    if !contains_substr(name, "google-cloud-cli-") {
        return None;
    }
    let len = name.unicode_len();
    let mut in_run: bool = false;
    let mut run_start: usize = 0;
    let mut n: usize = 0;
    proof {
        assert(run_left_context(name@, 0, 0));
    }
    while n < len
        invariant
            len == name@.len(),
            n <= len,
            contains_anchor(name@),
            no_qualifying_end_before(name@, n as int),
            in_run ==> in_run_state(name@, run_start as int, n as int),
            !in_run ==> outside_run_state(name@, n as int),
        decreases len - n,
    {
        let c = name.get_char(n);
        if char_is_digit(c) {
            if !in_run {
                proof {
                    assert(run_start_at(name@, n as int));
                }
                run_start = n;
                in_run = true;
            }
            proof {
                lemma_inv_step_vchar(name@, n as int);
            }
        } else if c == '.' && in_run {
            proof {
                lemma_inv_step_vchar(name@, n as int);
            }
        } else {
            if in_run {
                proof {
                    assert(!is_version_char(name@[n as int]));
                }
                if token_is_valid(name, len, run_start, n) {
                    let v = name.substring_char(run_start, n).to_owned();
                    proof {
                        assert(qualifying_run(name@, run_start as int, n as int));
                        lemma_scan_yields(name@, run_start as int, n as int);
                    }
                    return Some(v);
                }
                proof {
                    lemma_inv_step_end_run(name@, run_start as int, n as int);
                }
                in_run = false;
            } else {
                proof {
                    lemma_inv_step_outside(name@, n as int);
                }
            }
        }
        n += 1;
    }
    if in_run {
        if token_is_valid(name, len, run_start, len) {
            let v = name.substring_char(run_start, len).to_owned();
            proof {
                assert(qualifying_run(name@, run_start as int, len as int));
                lemma_scan_yields(name@, run_start as int, len as int);
            }
            return Some(v);
        }
        proof {
            lemma_none_in_run(name@, run_start as int);
        }
        return None;
    }
    proof {
        lemma_none_outside(name@);
    }
    None
}

} // verus!
