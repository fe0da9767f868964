//! Resolution of a version plus host platform and architecture into a
//! concrete download URL by literal placeholder substitution.

use vstd::prelude::*;
use vstd::string::StringExecFns;
use crate::version::match_at;

verus! {

/// The operating system the host environment reports. `Other` stands for
/// any system outside the supported family.
#[derive(Clone, Copy, Debug, PartialEq, Eq, Structural)]
pub enum HostOs {
    Linux,
    MacOS,
    Windows,
    Other,
}

/// The architecture the host environment reports. `Other` stands for any
/// architecture outside the supported family.
#[derive(Clone, Copy, Debug, PartialEq, Eq, Structural)]
pub enum HostArch {
    X86,
    X64,
    Arm,
    Arm64,
    Other,
}

/// Why a resolve operation is rejected at the boundary.
#[derive(Clone, Copy, Debug, PartialEq, Eq, Structural)]
pub enum ResolveError {
    UnsupportedOs,
    UnsupportedArch,
}

pub open spec fn os_supported(os: HostOs) -> bool {
    !(os is Other)
}

pub open spec fn arch_supported(arch: HostArch) -> bool {
    !(arch is Other)
}

/// The platform tag substituted into the URL template.
pub open spec fn platform_name(os: HostOs) -> Seq<char> {
    match os {
        HostOs::Linux => "linux"@,
        HostOs::MacOS => "darwin"@,
        HostOs::Windows => "windows"@,
        HostOs::Other => Seq::empty(),
    }
}

/// The architecture tag substituted into the URL template. Both ARM
/// flavours collapse to the same tag: the artifact naming upstream does not
/// distinguish 32-bit from 64-bit ARM.
pub open spec fn arch_name(arch: HostArch) -> Seq<char> {
    match arch {
        HostArch::X86 => "x86_64"@,
        HostArch::X64 => "x64"@,
        HostArch::Arm => "arm"@,
        HostArch::Arm64 => "arm"@,
        HostArch::Other => Seq::empty(),
    }
}

/// The archive extension substituted into the URL template.
pub open spec fn ext_name(os: HostOs) -> Seq<char> {
    if os is Windows {
        "zip"@
    } else {
        "tar.gz"@
    }
}

/// Rejects a host environment outside the supported family; the version
/// itself places no further constraint here.
pub fn check_version_for_os_and_arch(os: HostOs, arch: HostArch) -> (r: Result<(), ResolveError>)
    ensures
        r is Ok <==> os_supported(os) && arch_supported(arch),
        r == Err::<(), ResolveError>(ResolveError::UnsupportedOs) <==> !os_supported(os),
        r == Err::<(), ResolveError>(ResolveError::UnsupportedArch) <==> os_supported(os)
            && !arch_supported(arch),
{
    match os {
        HostOs::Linux | HostOs::MacOS | HostOs::Windows => (),
        HostOs::Other => {
            return Err(ResolveError::UnsupportedOs);
        },
    }
    match arch {
        HostArch::X86 | HostArch::X64 | HostArch::Arm | HostArch::Arm64 => (),
        HostArch::Other => {
            return Err(ResolveError::UnsupportedArch);
        },
    }
    Ok(())
}

/// `s` with every non-overlapping occurrence of `pat`, found left to right,
/// replaced by `to`.
pub open spec fn replace_seq(s: Seq<char>, pat: Seq<char>, to: Seq<char>) -> Seq<char>
    decreases s.len(),
{
    if pat.len() == 0 || s.len() < pat.len() {
        s
    } else if s.subrange(0, pat.len() as int) == pat {
        to + replace_seq(s.skip(pat.len() as int), pat, to)
    } else {
        s.subrange(0, 1) + replace_seq(s.skip(1), pat, to)
    }
}

/// Replaces every non-overlapping occurrence of `pat` in `s` by `to`,
/// scanning left to right.
pub fn replace_literal(s: &str, pat: &str, to: &str) -> (r: String)
    requires
        pat@.len() >= 1,
    ensures
        r@ == replace_seq(s@, pat@, to@),
{
    let s_len = s.unicode_len();
    let pat_len = pat.unicode_len();
    if pat_len > s_len {
        return s.to_owned();
    }
    let last = s_len - pat_len;
    let mut r = String::new();
    let mut seg_start: usize = 0;
    let mut i: usize = 0;
    proof {
        assert(s@.skip(0) =~= s@);
        assert(Seq::<char>::empty() + s@.subrange(0, 0) + replace_seq(s@, pat@, to@)
            =~= replace_seq(s@, pat@, to@));
    }
    while i <= last
        invariant
            s_len == s@.len(),
            pat_len == pat@.len(),
            1 <= pat_len <= s_len,
            last == s_len - pat_len,
            seg_start <= i <= s_len,
            replace_seq(s@, pat@, to@) == r@ + s@.subrange(seg_start as int, i as int)
                + replace_seq(s@.skip(i as int), pat@, to@),
        decreases s_len - i,
    {
        let ghost r_old = r@;
        let ghost seg_old = seg_start as int;
        let ghost i_old = i as int;
        if match_at(s, s_len, i, pat, pat_len) {
            proof {
                assert(s@.skip(i_old).subrange(0, pat@.len() as int) =~= s@.subrange(
                    i_old,
                    i_old + pat@.len(),
                ));
                assert(s@.skip(i_old).skip(pat@.len() as int) =~= s@.skip(i_old + pat@.len()));
            }
            let seg = s.substring_char(seg_start, i);
            r.append(seg);
            r.append(to);
            i = i + pat_len;
            seg_start = i;
            proof {
                assert(r@ =~= r_old + s@.subrange(seg_old, i_old) + to@);
                assert(r_old + s@.subrange(seg_old, i_old) + replace_seq(
                    s@.skip(i_old),
                    pat@,
                    to@,
                ) =~= r@ + s@.subrange(seg_start as int, i as int) + replace_seq(
                    s@.skip(i as int),
                    pat@,
                    to@,
                ));
            }
        } else {
            i = i + 1;
            proof {
                assert(s@.skip(i_old).subrange(0, pat@.len() as int) =~= s@.subrange(
                    i_old,
                    i_old + pat@.len(),
                ));
                assert(s@.skip(i_old).skip(1) =~= s@.skip(i_old + 1));
                assert(s@.skip(i_old).subrange(0, 1) =~= s@.subrange(i_old, i_old + 1));
                assert(r_old + s@.subrange(seg_old, i_old) + (s@.subrange(i_old, i_old + 1)
                    + replace_seq(s@.skip(i_old + 1), pat@, to@)) =~= r@ + s@.subrange(
                    seg_start as int,
                    i as int,
                ) + replace_seq(s@.skip(i as int), pat@, to@));
            }
        }
    }
    proof {
        assert(s@.skip(i as int) =~= s@.subrange(i as int, s@.len() as int));
        assert(s@.subrange(seg_start as int, i as int) + s@.subrange(i as int, s@.len() as int)
            =~= s@.subrange(seg_start as int, s@.len() as int));
    }
    let tail = s.substring_char(seg_start, s_len);
    r.append(tail);
    proof {
        assert(r@ =~= replace_seq(s@, pat@, to@));
    }
    r
}

/// The download URL for a template and a resolved version on a supported
/// host: the four placeholders substituted in turn.
pub open spec fn resolved_url(
    template: Seq<char>,
    version: Seq<char>,
    os: HostOs,
    arch: HostArch,
) -> Seq<char> {
    replace_seq(
        replace_seq(
            replace_seq(
                replace_seq(template, "{version}"@, version),
                "{platform}"@,
                platform_name(os),
            ),
            "{arch}"@,
            arch_name(arch),
        ),
        "{ext}"@,
        ext_name(os),
    )
}

/// Substitutes version, platform tag, architecture tag and archive
/// extension into the URL template, after rejecting an unsupported host.
pub fn resolve_download_url(template: &str, version: &str, os: HostOs, arch: HostArch) -> (r:
    Result<String, ResolveError>)
    ensures
        r is Ok <==> os_supported(os) && arch_supported(arch),
        r matches Ok(u) ==> u@ == resolved_url(template@, version@, os, arch),
        r == Err::<String, ResolveError>(ResolveError::UnsupportedOs) <==> !os_supported(os),
        r == Err::<String, ResolveError>(ResolveError::UnsupportedArch) <==> os_supported(os)
            && !arch_supported(arch),
{
    match check_version_for_os_and_arch(os, arch) {
        Err(e) => {
            return Err(e);
        },
        Ok(()) => (),
    }
    proof {
        reveal_strlit("{version}");
        reveal_strlit("{platform}");
        reveal_strlit("{arch}");
        reveal_strlit("{ext}");
    }
    let platform = match os {
        HostOs::Linux => "linux",
        HostOs::MacOS => "darwin",
        HostOs::Windows => "windows",
        HostOs::Other => "",
    };
    let arch_tag = match arch {
        HostArch::X86 => "x86_64",
        HostArch::X64 => "x64",
        HostArch::Arm => "arm",
        HostArch::Arm64 => "arm",
        HostArch::Other => "",
    };
    let ext = if matches!(os, HostOs::Windows) {
        "zip"
    } else {
        "tar.gz"
    };
    let u1 = replace_literal(template, "{version}", version);
    let u2 = replace_literal(u1.as_str(), "{platform}", platform);
    let u3 = replace_literal(u2.as_str(), "{arch}", arch_tag);
    let u4 = replace_literal(u3.as_str(), "{ext}", ext);
    Ok(u4)
}

/// `s` holds no opening brace, so no placeholder can begin inside it.
pub open spec fn brace_free(s: Seq<char>) -> bool {
    forall|k: int| 0 <= k < s.len() ==> #[trigger] s[k] != '{'
}

/// Every opening brace in `s` is followed by a character other than `bad`.
/// With `bad` the second character of a placeholder, no occurrence of that
/// placeholder can begin anywhere in `s`.
pub open spec fn brace_follow_ok(s: Seq<char>, bad: char) -> bool {
    forall|k: int| 0 <= k < s.len() && #[trigger] s[k] == '{' ==> k + 1 < s.len() && s[k + 1] != bad
}

/// A valid version token holds digits and dots only, hence no brace.
proof fn lemma_token_brace_free(v: Seq<char>)
    requires
        crate::version::valid_version_token(v),
    ensures
        brace_free(v),
{
    assert forall|k: int| 0 <= k < v.len() implies #[trigger] v[k] != '{' by {
        assert(crate::version::is_version_char(v[k]));
    };
}

proof fn lemma_brace_free_concat(x: Seq<char>, y: Seq<char>)
    requires
        brace_free(x),
        brace_free(y),
    ensures
        brace_free(x + y),
{
    assert forall|k: int| 0 <= k < (x + y).len() implies #[trigger] (x + y)[k] != '{' by {
        if k < x.len() {
            assert((x + y)[k] == x[k]);
        } else {
            assert((x + y)[k] == y[k - x.len()]);
        }
    };
}

proof fn lemma_follow_from_free(s: Seq<char>, bad: char)
    requires
        brace_free(s),
    ensures
        brace_follow_ok(s, bad),
{
}

proof fn lemma_follow_concat(x: Seq<char>, y: Seq<char>, bad: char)
    requires
        brace_follow_ok(x, bad),
        brace_follow_ok(y, bad),
    ensures
        brace_follow_ok(x + y, bad),
{
    assert forall|k: int| 0 <= k < (x + y).len() && #[trigger] (x + y)[k] == '{' implies k + 1 < (
    x + y).len() && (x + y)[k + 1] != bad by {
        if k < x.len() {
            assert(x[k] == '{');
            assert((x + y)[k + 1] == x[k + 1]);
        } else {
            assert(y[k - x.len()] == '{');
            assert((x + y)[k + 1] == y[k + 1 - x.len()]);
        }
    };
}

/// A placeholder whose second character differs from `bad`, and whose
/// interior holds no further brace, blocks no occurrence check.
proof fn lemma_follow_placeholder(q: Seq<char>, bad: char)
    requires
        q.len() >= 2,
        q[1] != bad,
        forall|m: int| 1 <= m < q.len() ==> #[trigger] q[m] != '{',
    ensures
        brace_follow_ok(q, bad),
{
}

/// No occurrence of a placeholder `p` begins in `s` when every brace in `s`
/// is followed by something other than `p`'s second character.
proof fn lemma_no_occurrence(s: Seq<char>, p: Seq<char>)
    requires
        p.len() >= 2,
        p[0] == '{',
        brace_follow_ok(s, p[1]),
    ensures
        !crate::version::contains_seq(s, p),
{
    assert forall|k: int| 0 <= k && k + p.len() <= s.len() implies #[trigger] s.subrange(
        k,
        k + p.len() as int,
    ) != p by {
        if s.subrange(k, k + p.len() as int) == p {
            assert(s.subrange(k, k + p.len() as int)[0] == s[k]);
            assert(s.subrange(k, k + p.len() as int)[1] == s[k + 1]);
            assert(s[k] == '{');
            assert(false);
        }
    };
}

/// Replacement is the identity on a string without an occurrence of the
/// pattern.
proof fn lemma_replace_absent(s: Seq<char>, pat: Seq<char>, to: Seq<char>)
    requires
        pat.len() >= 1,
        !crate::version::contains_seq(s, pat),
    ensures
        replace_seq(s, pat, to) == s,
    decreases s.len(),
{
    if s.len() >= pat.len() {
        assert(s.subrange(0, 0 + pat.len() as int) != pat);
        assert forall|k: int| 0 <= k && k + pat.len() <= s.skip(1).len() implies #[trigger] s.skip(
            1,
        ).subrange(k, k + pat.len() as int) != pat by {
            assert(s.skip(1).subrange(k, k + pat.len() as int) =~= s.subrange(
                k + 1,
                k + 1 + pat.len() as int,
            ));
        };
        lemma_replace_absent(s.skip(1), pat, to);
        assert(s.subrange(0, 1) + s.skip(1) =~= s);
    }
}

/// Replacement passes over a prefix in which no occurrence of the pattern
/// can begin: every brace there is followed by the wrong character.
proof fn lemma_replace_concat_free(a: Seq<char>, b: Seq<char>, pat: Seq<char>, to: Seq<char>)
    requires
        pat.len() >= 2,
        pat[0] == '{',
        brace_follow_ok(a, pat[1]),
    ensures
        replace_seq(a + b, pat, to) == a + replace_seq(b, pat, to),
    decreases a.len(),
{
    let s = a + b;
    if a.len() == 0 {
        assert(s =~= b);
        assert(a + replace_seq(b, pat, to) =~= replace_seq(b, pat, to));
    } else if s.len() < pat.len() {
        assert(b.len() < pat.len());
        assert(replace_seq(b, pat, to) == b);
    } else {
        assert(s[0] == a[0]);
        if a[0] == '{' {
            assert(1 < a.len() && a[1] != pat[1]);
            assert(s.subrange(0, pat.len() as int)[1] == s[1]);
            assert(s[1] == a[1]);
            assert(s.subrange(0, pat.len() as int) != pat);
        } else {
            assert(s.subrange(0, pat.len() as int)[0] == s[0]);
            assert(s.subrange(0, pat.len() as int) != pat);
        }
        assert(s.skip(1) =~= a.skip(1) + b);
        assert(brace_follow_ok(a.skip(1), pat[1])) by {
            assert forall|k: int|
                0 <= k < a.skip(1).len() && #[trigger] a.skip(1)[k] == '{' implies k + 1 < a.skip(
                1,
            ).len() && a.skip(1)[k + 1] != pat[1] by {
                assert(a.skip(1)[k] == a[k + 1]);
                assert(a.skip(1)[k + 1] == a[k + 2]);
            };
        };
        lemma_replace_concat_free(a.skip(1), b, pat, to);
        assert(s.subrange(0, 1) + (a.skip(1) + replace_seq(b, pat, to)) =~= a + replace_seq(
            b,
            pat,
            to,
        ));
    }
}

/// Replacement consumes a pattern standing at the head.
proof fn lemma_replace_at_head(b: Seq<char>, pat: Seq<char>, to: Seq<char>)
    requires
        pat.len() >= 1,
    ensures
        replace_seq(pat + b, pat, to) == to + replace_seq(b, pat, to),
{
    let s = pat + b;
    assert(s.subrange(0, pat.len() as int) =~= pat);
    assert(s.skip(pat.len() as int) =~= b);
}

/// A template holding one occurrence of a placeholder — no occurrence can
/// begin on the left, none stands on the right — has exactly that
/// occurrence replaced.
proof fn lemma_substitute_one(a: Seq<char>, pat: Seq<char>, to: Seq<char>, b: Seq<char>)
    requires
        pat.len() >= 2,
        pat[0] == '{',
        brace_follow_ok(a, pat[1]),
        !crate::version::contains_seq(b, pat),
    ensures
        replace_seq(a + pat + b, pat, to) == a + to + b,
{
    assert(a + pat + b =~= a + (pat + b));
    lemma_replace_concat_free(a, pat + b, pat, to);
    lemma_replace_at_head(b, pat, to);
    lemma_replace_absent(b, pat, to);
    assert(a + (to + replace_seq(b, pat, to)) =~= a + to + b);
}

/// Character facts about the four placeholders.
proof fn lemma_placeholder_chars()
    ensures
        "{version}"@.len() == 9 && "{version}"@[0] == '{' && "{version}"@[1] == 'v',
        forall|m: int| 1 <= m < 9 ==> #[trigger] "{version}"@[m] != '{',
        "{platform}"@.len() == 10 && "{platform}"@[0] == '{' && "{platform}"@[1] == 'p',
        forall|m: int| 1 <= m < 10 ==> #[trigger] "{platform}"@[m] != '{',
        "{arch}"@.len() == 6 && "{arch}"@[0] == '{' && "{arch}"@[1] == 'a',
        forall|m: int| 1 <= m < 6 ==> #[trigger] "{arch}"@[m] != '{',
        "{ext}"@.len() == 5 && "{ext}"@[0] == '{' && "{ext}"@[1] == 'e',
        forall|m: int| 1 <= m < 5 ==> #[trigger] "{ext}"@[m] != '{',
{
    reveal_strlit("{version}");
    reveal_strlit("{platform}");
    reveal_strlit("{arch}");
    reveal_strlit("{ext}");
}

/// The substituted tags themselves hold no brace.
proof fn lemma_tags_brace_free(os: HostOs, arch: HostArch)
    ensures
        brace_free(platform_name(os)),
        brace_free(arch_name(arch)),
        brace_free(ext_name(os)),
{
    reveal_strlit("linux");
    reveal_strlit("darwin");
    reveal_strlit("windows");
    reveal_strlit("x86_64");
    reveal_strlit("x64");
    reveal_strlit("arm");
    reveal_strlit("zip");
    reveal_strlit("tar.gz");
}

/// Substitution is total and exact: in a template that carries each of the
/// four placeholders exactly once, separated by brace-free stretches, every
/// placeholder is replaced exactly once, whatever valid version and
/// supported host are substituted, and the surrounding stretches pass
/// through untouched. The result is the evident concatenation — independent
/// of the order the four substitutions are applied in — and, as
/// `lemma_resolved_brace_free` adds, no placeholder syntax survives in it.
pub proof fn lemma_resolver_substitutes_once(
    a: Seq<char>,
    b: Seq<char>,
    c: Seq<char>,
    d: Seq<char>,
    e: Seq<char>,
    version: Seq<char>,
    os: HostOs,
    arch: HostArch,
)
    requires
        crate::version::valid_version_token(version),
        os_supported(os),
        arch_supported(arch),
        brace_free(a),
        brace_free(b),
        brace_free(c),
        brace_free(d),
        brace_free(e),
    ensures
        resolved_url(
            a + "{version}"@ + b + "{platform}"@ + c + "{arch}"@ + d + "{ext}"@ + e,
            version,
            os,
            arch,
        ) == a + version + b + platform_name(os) + c + arch_name(arch) + d + ext_name(os) + e,
{
    lemma_placeholder_chars();
    lemma_tags_brace_free(os, arch);
    lemma_token_brace_free(version);
    let vp = "{version}"@;
    let pp = "{platform}"@;
    let ap = "{arch}"@;
    let ep = "{ext}"@;
    let t = a + vp + b + pp + c + ap + d + ep + e;

    let b1 = b + pp + c + ap + d + ep + e;
    assert(brace_follow_ok(b1, 'v')) by {
        lemma_follow_from_free(b, 'v');
        lemma_follow_placeholder(pp, 'v');
        lemma_follow_from_free(c, 'v');
        lemma_follow_placeholder(ap, 'v');
        lemma_follow_from_free(d, 'v');
        lemma_follow_placeholder(ep, 'v');
        lemma_follow_from_free(e, 'v');
        lemma_follow_concat(b, pp, 'v');
        lemma_follow_concat(b + pp, c, 'v');
        lemma_follow_concat(b + pp + c, ap, 'v');
        lemma_follow_concat(b + pp + c + ap, d, 'v');
        lemma_follow_concat(b + pp + c + ap + d, ep, 'v');
        lemma_follow_concat(b + pp + c + ap + d + ep, e, 'v');
    };
    lemma_no_occurrence(b1, vp);
    assert(t =~= a + vp + b1);
    lemma_follow_from_free(a, 'v');
    lemma_substitute_one(a, vp, version, b1);
    let u1 = replace_seq(t, vp, version);
    assert(u1 == a + version + b1);

    let a2 = a + version + b;
    let b2 = c + ap + d + ep + e;
    assert(brace_free(a2)) by {
        lemma_brace_free_concat(a, version);
        lemma_brace_free_concat(a + version, b);
    };
    assert(brace_follow_ok(b2, 'p')) by {
        lemma_follow_from_free(c, 'p');
        lemma_follow_placeholder(ap, 'p');
        lemma_follow_from_free(d, 'p');
        lemma_follow_placeholder(ep, 'p');
        lemma_follow_from_free(e, 'p');
        lemma_follow_concat(c, ap, 'p');
        lemma_follow_concat(c + ap, d, 'p');
        lemma_follow_concat(c + ap + d, ep, 'p');
        lemma_follow_concat(c + ap + d + ep, e, 'p');
    };
    lemma_no_occurrence(b2, pp);
    assert(u1 =~= a2 + pp + b2);
    lemma_follow_from_free(a2, 'p');
    lemma_substitute_one(a2, pp, platform_name(os), b2);
    let u2 = replace_seq(u1, pp, platform_name(os));
    assert(u2 == a2 + platform_name(os) + b2);

    let a3 = a2 + platform_name(os) + c;
    let b3 = d + ep + e;
    assert(brace_free(a3)) by {
        lemma_brace_free_concat(a2, platform_name(os));
        lemma_brace_free_concat(a2 + platform_name(os), c);
    };
    assert(brace_follow_ok(b3, 'a')) by {
        lemma_follow_from_free(d, 'a');
        lemma_follow_placeholder(ep, 'a');
        lemma_follow_from_free(e, 'a');
        lemma_follow_concat(d, ep, 'a');
        lemma_follow_concat(d + ep, e, 'a');
    };
    lemma_no_occurrence(b3, ap);
    assert(u2 =~= a3 + ap + b3);
    lemma_follow_from_free(a3, 'a');
    lemma_substitute_one(a3, ap, arch_name(arch), b3);
    let u3 = replace_seq(u2, ap, arch_name(arch));
    assert(u3 == a3 + arch_name(arch) + b3);

    let a4 = a3 + arch_name(arch) + d;
    assert(brace_free(a4)) by {
        lemma_brace_free_concat(a3, arch_name(arch));
        lemma_brace_free_concat(a3 + arch_name(arch), d);
    };
    assert(brace_follow_ok(e, 'e')) by {
        lemma_follow_from_free(e, 'e');
    };
    lemma_no_occurrence(e, ep);
    assert(u3 =~= a4 + ep + e);
    lemma_follow_from_free(a4, 'e');
    lemma_substitute_one(a4, ep, ext_name(os), e);
    let u4 = replace_seq(u3, ep, ext_name(os));
    assert(u4 == a4 + ext_name(os) + e);
    assert(u4 =~= a + version + b + platform_name(os) + c + arch_name(arch) + d + ext_name(os)
        + e);
}

/// Substitution order is irrelevant: applying the four substitutions in the
/// opposite order — extension, architecture, platform, version — yields the
/// very string the resolver's own order yields. Each placeholder stands
/// apart from the others, so no substitution can disturb another.
/// Reverse-order substitution, first half: replacing the extension and then
/// the architecture leaves the version and platform placeholders standing.
proof fn lemma_reverse_ext_arch(
    a: Seq<char>,
    b: Seq<char>,
    c: Seq<char>,
    d: Seq<char>,
    e: Seq<char>,
    os: HostOs,
    arch: HostArch,
)
    requires
        os_supported(os),
        arch_supported(arch),
        brace_free(a),
        brace_free(b),
        brace_free(c),
        brace_free(d),
        brace_free(e),
    ensures
        ({
            let t = a + "{version}"@ + b + "{platform}"@ + c + "{arch}"@ + d + "{ext}"@ + e;
            replace_seq(replace_seq(t, "{ext}"@, ext_name(os)), "{arch}"@, arch_name(arch)) == a
                + "{version}"@ + b + "{platform}"@ + c + arch_name(arch) + d + ext_name(os) + e
        }),
{
    lemma_placeholder_chars();
    lemma_tags_brace_free(os, arch);
    let vp = "{version}"@;
    let pp = "{platform}"@;
    let ap = "{arch}"@;
    let ep = "{ext}"@;
    let t = a + vp + b + pp + c + ap + d + ep + e;

    let p1 = a + vp + b + pp + c + ap + d;
    assert(brace_follow_ok(p1, 'e')) by {
        lemma_follow_from_free(a, 'e');
        lemma_follow_placeholder(vp, 'e');
        lemma_follow_from_free(b, 'e');
        lemma_follow_placeholder(pp, 'e');
        lemma_follow_from_free(c, 'e');
        lemma_follow_placeholder(ap, 'e');
        lemma_follow_from_free(d, 'e');
        lemma_follow_concat(a, vp, 'e');
        lemma_follow_concat(a + vp, b, 'e');
        lemma_follow_concat(a + vp + b, pp, 'e');
        lemma_follow_concat(a + vp + b + pp, c, 'e');
        lemma_follow_concat(a + vp + b + pp + c, ap, 'e');
        lemma_follow_concat(a + vp + b + pp + c + ap, d, 'e');
    };
    assert(brace_follow_ok(e, 'e')) by {
        lemma_follow_from_free(e, 'e');
    };
    lemma_no_occurrence(e, ep);
    assert(t =~= p1 + ep + e);
    lemma_substitute_one(p1, ep, ext_name(os), e);
    let w1 = replace_seq(t, ep, ext_name(os));
    assert(w1 == p1 + ext_name(os) + e);

    let p2 = a + vp + b + pp + c;
    let s2 = d + ext_name(os) + e;
    assert(brace_follow_ok(p2, 'a')) by {
        lemma_follow_from_free(a, 'a');
        lemma_follow_placeholder(vp, 'a');
        lemma_follow_from_free(b, 'a');
        lemma_follow_placeholder(pp, 'a');
        lemma_follow_from_free(c, 'a');
        lemma_follow_concat(a, vp, 'a');
        lemma_follow_concat(a + vp, b, 'a');
        lemma_follow_concat(a + vp + b, pp, 'a');
        lemma_follow_concat(a + vp + b + pp, c, 'a');
    };
    assert(brace_follow_ok(s2, 'a')) by {
        lemma_brace_free_concat(d, ext_name(os));
        lemma_brace_free_concat(d + ext_name(os), e);
        lemma_follow_from_free(s2, 'a');
    };
    lemma_no_occurrence(s2, ap);
    assert(w1 =~= p2 + ap + s2);
    lemma_substitute_one(p2, ap, arch_name(arch), s2);
    assert(replace_seq(w1, ap, arch_name(arch)) == p2 + arch_name(arch) + s2);
    assert(p2 + arch_name(arch) + s2 =~= a + vp + b + pp + c + arch_name(arch) + d + ext_name(os)
        + e);
}

/// Reverse-order substitution, second half: replacing the platform and then
/// the version around an already-substituted brace-free tail.
proof fn lemma_reverse_platform_version(
    a: Seq<char>,
    b: Seq<char>,
    tail: Seq<char>,
    version: Seq<char>,
    os: HostOs,
)
    requires
        crate::version::valid_version_token(version),
        os_supported(os),
        brace_free(a),
        brace_free(b),
        brace_free(tail),
    ensures
        replace_seq(
            replace_seq(a + "{version}"@ + b + "{platform}"@ + tail, "{platform}"@,
                platform_name(os)),
            "{version}"@,
            version,
        ) == a + version + b + platform_name(os) + tail,
{
    lemma_placeholder_chars();
    lemma_tags_brace_free(os, HostArch::Arm);
    lemma_token_brace_free(version);
    let vp = "{version}"@;
    let pp = "{platform}"@;
    let t = a + vp + b + pp + tail;

    let p1 = a + vp + b;
    assert(brace_follow_ok(p1, 'p')) by {
        lemma_follow_from_free(a, 'p');
        lemma_follow_placeholder(vp, 'p');
        lemma_follow_from_free(b, 'p');
        lemma_follow_concat(a, vp, 'p');
        lemma_follow_concat(a + vp, b, 'p');
    };
    assert(brace_follow_ok(tail, 'p')) by {
        lemma_follow_from_free(tail, 'p');
    };
    lemma_no_occurrence(tail, pp);
    assert(t =~= p1 + pp + tail);
    lemma_substitute_one(p1, pp, platform_name(os), tail);
    let w1 = replace_seq(t, pp, platform_name(os));
    assert(w1 == p1 + platform_name(os) + tail);

    let s2 = b + platform_name(os) + tail;
    assert(brace_follow_ok(s2, 'v')) by {
        lemma_brace_free_concat(b, platform_name(os));
        lemma_brace_free_concat(b + platform_name(os), tail);
        lemma_follow_from_free(s2, 'v');
    };
    lemma_no_occurrence(s2, vp);
    assert(brace_follow_ok(a, 'v')) by {
        lemma_follow_from_free(a, 'v');
    };
    assert(w1 =~= a + vp + s2);
    lemma_substitute_one(a, vp, version, s2);
    assert(replace_seq(w1, vp, version) == a + version + s2);
    assert(a + version + s2 =~= a + version + b + platform_name(os) + tail);
}

pub proof fn lemma_resolution_order_irrelevant(
    a: Seq<char>,
    b: Seq<char>,
    c: Seq<char>,
    d: Seq<char>,
    e: Seq<char>,
    version: Seq<char>,
    os: HostOs,
    arch: HostArch,
)
    requires
        crate::version::valid_version_token(version),
        os_supported(os),
        arch_supported(arch),
        brace_free(a),
        brace_free(b),
        brace_free(c),
        brace_free(d),
        brace_free(e),
    ensures
        ({
            let t = a + "{version}"@ + b + "{platform}"@ + c + "{arch}"@ + d + "{ext}"@ + e;
            replace_seq(
                replace_seq(
                    replace_seq(
                        replace_seq(t, "{ext}"@, ext_name(os)),
                        "{arch}"@,
                        arch_name(arch),
                    ),
                    "{platform}"@,
                    platform_name(os),
                ),
                "{version}"@,
                version,
            ) == resolved_url(t, version, os, arch)
        }),
{
    lemma_tags_brace_free(os, arch);
    lemma_resolver_substitutes_once(a, b, c, d, e, version, os, arch);
    lemma_reverse_ext_arch(a, b, c, d, e, os, arch);
    let vp = "{version}"@;
    let pp = "{platform}"@;
    let tail = c + arch_name(arch) + d + ext_name(os) + e;
    assert(brace_free(tail)) by {
        lemma_brace_free_concat(c, arch_name(arch));
        lemma_brace_free_concat(c + arch_name(arch), d);
        lemma_brace_free_concat(c + arch_name(arch) + d, ext_name(os));
        lemma_brace_free_concat(c + arch_name(arch) + d + ext_name(os), e);
    };
    assert(a + vp + b + pp + c + arch_name(arch) + d + ext_name(os) + e =~= a + vp + b + pp
        + tail);
    lemma_reverse_platform_version(a, b, tail, version, os);
    assert(a + version + b + platform_name(os) + tail =~= a + version + b + platform_name(os) + c
        + arch_name(arch) + d + ext_name(os) + e);
}

/// No placeholder syntax survives resolution: the resolved URL of such a
/// template holds no opening brace at all.
pub proof fn lemma_resolved_brace_free(
    a: Seq<char>,
    b: Seq<char>,
    c: Seq<char>,
    d: Seq<char>,
    e: Seq<char>,
    version: Seq<char>,
    os: HostOs,
    arch: HostArch,
)
    requires
        crate::version::valid_version_token(version),
        os_supported(os),
        arch_supported(arch),
        brace_free(a),
        brace_free(b),
        brace_free(c),
        brace_free(d),
        brace_free(e),
    ensures
        brace_free(
            resolved_url(
                a + "{version}"@ + b + "{platform}"@ + c + "{arch}"@ + d + "{ext}"@ + e,
                version,
                os,
                arch,
            ),
        ),
{
    lemma_resolver_substitutes_once(a, b, c, d, e, version, os, arch);
    lemma_tags_brace_free(os, arch);
    lemma_token_brace_free(version);
    lemma_brace_free_concat(a, version);
    lemma_brace_free_concat(a + version, b);
    lemma_brace_free_concat(a + version + b, platform_name(os));
    lemma_brace_free_concat(a + version + b + platform_name(os), c);
    lemma_brace_free_concat(a + version + b + platform_name(os) + c, arch_name(arch));
    lemma_brace_free_concat(a + version + b + platform_name(os) + c + arch_name(arch), d);
    lemma_brace_free_concat(a + version + b + platform_name(os) + c + arch_name(arch) + d,
        ext_name(os));
    lemma_brace_free_concat(a + version + b + platform_name(os) + c + arch_name(arch) + d
        + ext_name(os), e);
}

/// The stock template splits into brace-free stretches around the four
/// placeholders, one occurrence of each.
proof fn lemma_default_template_shape()
    ensures
        crate::config::default_dist_url()
            == "https://storage.googleapis.com/storage/v1/b/cloud-sdk-release/o/google-cloud-cli-"@
            + "{version}"@ + "-"@ + "{platform}"@ + "-"@ + "{arch}"@ + "."@ + "{ext}"@
            + "?alt=media"@,
        brace_free(
            "https://storage.googleapis.com/storage/v1/b/cloud-sdk-release/o/google-cloud-cli-"@,
        ),
        brace_free("-"@),
        brace_free("."@),
        brace_free("?alt=media"@),
{
    reveal_strlit(
        "https://storage.googleapis.com/storage/v1/b/cloud-sdk-release/o/google-cloud-cli-{version}-{platform}-{arch}.{ext}?alt=media",
    );
    reveal_strlit(
        "https://storage.googleapis.com/storage/v1/b/cloud-sdk-release/o/google-cloud-cli-",
    );
    reveal_strlit("{version}");
    reveal_strlit("{platform}");
    reveal_strlit("{arch}");
    reveal_strlit("{ext}");
    reveal_strlit("-");
    reveal_strlit(".");
    reveal_strlit("?alt=media");
    assert(crate::config::default_dist_url()
        =~= "https://storage.googleapis.com/storage/v1/b/cloud-sdk-release/o/google-cloud-cli-"@
        + "{version}"@ + "-"@ + "{platform}"@ + "-"@ + "{arch}"@ + "."@ + "{ext}"@
        + "?alt=media"@);
}

/// Resolution against the stock template is pinned exactly: the result is
/// the stock URL around the substituted version, platform tag, architecture
/// tag and extension, and no placeholder syntax survives in it.
pub proof fn lemma_default_url_resolution(version: Seq<char>, os: HostOs, arch: HostArch)
    requires
        crate::version::valid_version_token(version),
        os_supported(os),
        arch_supported(arch),
    ensures
        resolved_url(crate::config::default_dist_url(), version, os, arch)
            == "https://storage.googleapis.com/storage/v1/b/cloud-sdk-release/o/google-cloud-cli-"@
            + version + "-"@ + platform_name(os) + "-"@ + arch_name(arch) + "."@ + ext_name(os)
            + "?alt=media"@,
        brace_free(resolved_url(crate::config::default_dist_url(), version, os, arch)),
{
    lemma_default_template_shape();
    let a =
        "https://storage.googleapis.com/storage/v1/b/cloud-sdk-release/o/google-cloud-cli-"@;
    let sep = "-"@;
    let dot = "."@;
    let e = "?alt=media"@;
    lemma_resolver_substitutes_once(a, sep, sep, dot, e, version, os, arch);
    lemma_resolved_brace_free(a, sep, sep, dot, e, version, os, arch);
}

/// Both ARM flavours substitute the identical architecture tag.
pub proof fn lemma_arch_collapse()
    ensures
        arch_name(HostArch::Arm) == arch_name(HostArch::Arm64),
        arch_name(HostArch::Arm) == "arm"@,
{
}

/// Windows alone takes the `zip` extension; every other supported platform
/// takes `tar.gz`.
pub proof fn lemma_extension_rule()
    ensures
        ext_name(HostOs::Windows) == "zip"@,
        forall|os: HostOs|
            os_supported(os) && !(os is Windows) ==> #[trigger] ext_name(os) == "tar.gz"@,
{
}

} // verus!
