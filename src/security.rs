//! Security posture checks: the SSH daemon's configuration and the sudo policy.

use vstd::prelude::*;
use crate::health::Severity;
use crate::text::{
    ascii_lower, ascii_lower_of, contains, has_infix, has_prefix, join_of, join_range, lines,
    lines_of, owned, starts_with, str_eq, trim, trim_of, views, words, words_of,
};
use vstd::string::StrSliceExecFns;
use vstd::string::StringExecFns;

verus! {

/// One observation of a security check.
#[derive(Debug, Clone, PartialEq, Eq)]
pub struct Finding {
    pub message: String,
    pub severity: Severity,
}

/// The views of a list of findings: message and severity.
pub open spec fn sviews(v: Seq<Finding>) -> Seq<(Seq<char>, Severity)> {
    v.map_values(|f: Finding| (f.message@, f.severity))
}

/// What the SSH daemon's configuration allows.
#[derive(Debug, Clone, PartialEq, Eq)]
pub struct SshdConfigAnalysis {
    pub hardening_present: bool,
    pub findings: Vec<Finding>,
}

/// What the sudo policy grants.
#[derive(Debug, Clone, PartialEq, Eq)]
pub struct SudoersAnalysis {
    pub includes_dir: bool,
    pub findings: Vec<Finding>,
}

/// The settings read so far from an SSH daemon configuration (values in small letters; the
/// last occurrence of a key wins).
pub ghost struct SshdSettings {
    pub password_auth: Option<Seq<char>>,
    pub permit_root: Option<Seq<char>>,
    pub challenge_response: Option<Seq<char>>,
    pub protocol: Option<Seq<char>>,
    pub hardening: bool,
}

/// A configuration line that carries a setting: neither blank nor a comment.
pub open spec fn is_setting(line: Seq<char>) -> bool {
    trim_of(line).len() > 0 && !has_prefix(trim_of(line), "#"@) && words_of(trim_of(line)).len() > 0
}

/// The settings after one more configuration line.
pub open spec fn sshd_step(st: SshdSettings, line: Seq<char>) -> SshdSettings {
    if !is_setting(line) {
        st
    } else {
        let ws = words_of(trim_of(line));
        let key = ascii_lower_of(ws[0]);
        let value = ascii_lower_of(join_of(ws.subrange(1, ws.len() as int), " "@));
        if key == "passwordauthentication"@ {
            SshdSettings { password_auth: Some(value), ..st }
        } else if key == "permitrootlogin"@ {
            SshdSettings { permit_root: Some(value), ..st }
        } else if key == "challengeresponseauthentication"@ {
            SshdSettings { challenge_response: Some(value), ..st }
        } else if key == "protocol"@ {
            SshdSettings { protocol: Some(value), ..st }
        } else if key == "kexalgorithms"@ || key == "ciphers"@ || key == "macs"@ {
            SshdSettings { hardening: true, ..st }
        } else {
            st
        }
    }
}

/// The settings of a whole configuration.
pub open spec fn sshd_scan(ls: Seq<Seq<char>>) -> SshdSettings
    decreases ls.len(),
{
    if ls.len() == 0 {
        SshdSettings {
            password_auth: None,
            permit_root: None,
            challenge_response: None,
            protocol: None,
            hardening: false,
        }
    } else {
        sshd_step(sshd_scan(ls.drop_last()), ls.last())
    }
}

/// A finding when `cond` holds.
pub open spec fn finding_if(cond: bool, message: Seq<char>, severity: Severity) -> Seq<
    (Seq<char>, Severity),
> {
    if cond {
        seq![(message, severity)]
    } else {
        Seq::empty()
    }
}

/// The findings on a configuration's settings, in a fixed order.
pub open spec fn sshd_findings(st: SshdSettings) -> Seq<(Seq<char>, Severity)> {
    finding_if(st.password_auth == Some("yes"@), "PasswordAuthentication is enabled"@, Severity::Warning)
        + finding_if(
        st.permit_root == Some("yes"@) || st.permit_root == Some("without-password"@),
        "PermitRootLogin allows direct root access"@,
        Severity::Critical,
    ) + finding_if(
        st.challenge_response == Some("yes"@),
        "ChallengeResponseAuthentication is enabled"@,
        Severity::Warning,
    ) + finding_if(
        st.protocol matches Some(p) && has_infix(p, "1"@),
        "SSH protocol version 1 is allowed"@,
        Severity::Critical,
    )
}

fn opt_is(o: &Option<String>, s: &str) -> (r: bool)
    ensures
        r == (match o { Some(v) => v@ == s@, None => false }),
{
    match o {
        Some(v) => str_eq(v.as_str(), s),
        None => false,
    }
}

fn push_finding(v: &mut Vec<Finding>, message: &str, severity: Severity)
    ensures
        sviews(final(v)@) == sviews(old(v)@).push((message@, severity)),
{
    v.push(Finding { message: owned(message), severity });
    assert(sviews(final(v)@) =~= sviews(old(v)@).push((message@, severity)));
}

/// Reads an SSH daemon configuration: password, root and challenge-response logins, the
/// protocol version, and whether key exchange, ciphers or MACs are pinned.
pub fn analyze_sshd_config_from_str(contents: &str) -> (r: SshdConfigAnalysis)
    ensures
        r.hardening_present == sshd_scan(lines_of(contents@)).hardening,
        sviews(r.findings@) == sshd_findings(sshd_scan(lines_of(contents@))),
{
    let ls = lines(contents);
    let ghost lv = views(ls@);
    let mut password_auth: Option<String> = None;
    let mut permit_root: Option<String> = None;
    let mut challenge_response: Option<String> = None;
    let mut protocol: Option<String> = None;
    let mut hardening = false;
    let mut i: usize = 0;
    while i < ls.len()
        invariant
            lv == views(ls@),
            i <= ls@.len(),
            sshd_scan(lv.subrange(0, i as int)) == (SshdSettings {
                password_auth: crate::network::opt_view(password_auth),
                permit_root: crate::network::opt_view(permit_root),
                challenge_response: crate::network::opt_view(challenge_response),
                protocol: crate::network::opt_view(protocol),
                hardening,
            }),
        decreases ls@.len() - i,
    {
        assert(lv.subrange(0, i + 1).drop_last() == lv.subrange(0, i as int));
        assert(lv.subrange(0, i + 1).last() == ls@[i as int]@);
        let t = trim(ls[i].as_str());
        let ws = words(t.as_str());
        if t.as_str().unicode_len() > 0 && !starts_with(t.as_str(), "#") && ws.len() > 0 {
            let key = ascii_lower(ws[0].as_str());
            let joined = join_range(&ws, 1, ws.len(), " ");
            let value = ascii_lower(joined.as_str());
            if str_eq(key.as_str(), "passwordauthentication") {
                password_auth = Some(value);
            } else if str_eq(key.as_str(), "permitrootlogin") {
                permit_root = Some(value);
            } else if str_eq(key.as_str(), "challengeresponseauthentication") {
                challenge_response = Some(value);
            } else if str_eq(key.as_str(), "protocol") {
                protocol = Some(value);
            } else if str_eq(key.as_str(), "kexalgorithms") || str_eq(key.as_str(), "ciphers")
                || str_eq(key.as_str(), "macs") {
                hardening = true;
            }
        }
        i = i + 1;
    }
    assert(lv.subrange(0, ls@.len() as int) == lv);
    let mut findings: Vec<Finding> = Vec::new();
    let ghost st = sshd_scan(lv);
    assert(sviews(findings@) =~= Seq::<(Seq<char>, Severity)>::empty());
    if opt_is(&password_auth, "yes") {
        push_finding(&mut findings, "PasswordAuthentication is enabled", Severity::Warning);
    }
    assert(sviews(findings@) =~= finding_if(st.password_auth == Some("yes"@), "PasswordAuthentication is enabled"@, Severity::Warning));
    let ghost f1 = sviews(findings@);
    if opt_is(&permit_root, "yes") || opt_is(&permit_root, "without-password") {
        push_finding(&mut findings, "PermitRootLogin allows direct root access", Severity::Critical);
    }
    assert(sviews(findings@) =~= f1 + finding_if(
        st.permit_root == Some("yes"@) || st.permit_root == Some("without-password"@),
        "PermitRootLogin allows direct root access"@,
        Severity::Critical,
    ));
    let ghost f2 = sviews(findings@);
    if opt_is(&challenge_response, "yes") {
        push_finding(&mut findings, "ChallengeResponseAuthentication is enabled", Severity::Warning);
    }
    assert(sviews(findings@) =~= f2 + finding_if(
        st.challenge_response == Some("yes"@),
        "ChallengeResponseAuthentication is enabled"@,
        Severity::Warning,
    ));
    let ghost f3 = sviews(findings@);
    let v1 = match &protocol {
        Some(p) => contains(p.as_str(), "1"),
        None => false,
    };
    if v1 {
        push_finding(&mut findings, "SSH protocol version 1 is allowed", Severity::Critical);
    }
    assert(sviews(findings@) =~= f3 + finding_if(
        st.protocol matches Some(p) && has_infix(p, "1"@),
        "SSH protocol version 1 is allowed"@,
        Severity::Critical,
    ));
    SshdConfigAnalysis { hardening_present: hardening, findings }
}

/// Some line names an included directory.
pub open spec fn has_includedir(ls: Seq<Seq<char>>) -> bool {
    exists|i: int| 0 <= i < ls.len() && has_infix(#[trigger] ls[i], "#includedir"@)
}

/// The findings on one sudo policy line.
pub open spec fn sudoers_line_findings(line: Seq<char>) -> Seq<(Seq<char>, Severity)> {
    let t = trim_of(line);
    if t.len() == 0 || has_prefix(t, "#"@) {
        Seq::empty()
    } else {
        finding_if(
            has_infix(t, "NOPASSWD:"@) && has_infix(t, "ALL"@),
            "Potential password-less sudo entry: "@ + t,
            Severity::Warning,
        ) + finding_if(
            has_infix(t, "ALL=(ALL) ALL"@) && words_of(t).len() > 0 && words_of(t)[0] == "ALL"@,
            "Wildcard sudo entry grants full access"@,
            Severity::Critical,
        )
    }
}

/// The findings on a whole sudo policy, line by line.
pub open spec fn sudoers_findings(ls: Seq<Seq<char>>) -> Seq<(Seq<char>, Severity)>
    decreases ls.len(),
{
    if ls.len() == 0 {
        Seq::empty()
    } else {
        sudoers_findings(ls.drop_last()) + sudoers_line_findings(ls.last())
    }
}

/// Reads a sudo policy: whether it includes a directory, password-less entries, and
/// entries that grant everything to everyone.
pub fn analyze_sudoers_from_str(contents: &str) -> (r: SudoersAnalysis)
    ensures
        r.includes_dir == has_includedir(lines_of(contents@)),
        sviews(r.findings@) == sudoers_findings(lines_of(contents@)),
{
    let ls = lines(contents);
    let ghost lv = views(ls@);
    let mut includes_dir = false;
    let mut findings: Vec<Finding> = Vec::new();
    let mut i: usize = 0;
    assert(sviews(findings@) =~= Seq::<(Seq<char>, Severity)>::empty());
    while i < ls.len()
        invariant
            lv == views(ls@),
            i <= ls@.len(),
            includes_dir == has_includedir(lv.subrange(0, i as int)),
            sviews(findings@) == sudoers_findings(lv.subrange(0, i as int)),
        decreases ls@.len() - i,
    {
        let ghost pre = lv.subrange(0, i as int);
        let ghost cur = lv.subrange(0, i + 1);
        assert(cur.drop_last() == pre);
        assert(cur.last() == ls@[i as int]@);
        let line = ls[i].as_str();
        let hit = contains(line, "#includedir");
        proof {
            if hit {
                assert(cur[i as int] == ls@[i as int]@);
            }
            if has_includedir(cur) && !hit {
                let j = choose|j: int| 0 <= j < cur.len() && has_infix(#[trigger] cur[j], "#includedir"@);
                assert(j < i);
                assert(pre[j] == cur[j]);
            }
            if has_includedir(pre) {
                let j = choose|j: int| 0 <= j < pre.len() && has_infix(#[trigger] pre[j], "#includedir"@);
                assert(cur[j] == pre[j]);
            }
        }
        includes_dir = includes_dir || hit;
        let ghost f0 = sviews(findings@);
        let t = trim(line);
        if t.as_str().unicode_len() > 0 && !starts_with(t.as_str(), "#") {
            if contains(t.as_str(), "NOPASSWD:") && contains(t.as_str(), "ALL") {
                let mut message = String::from_str("Potential password-less sudo entry: ");
                message.append(t.as_str());
                let f = Finding { message, severity: Severity::Warning };
                findings.push(f);
                assert(sviews(findings@) =~= f0.push(("Potential password-less sudo entry: "@ + t@, Severity::Warning)));
            }
            let ghost f1 = sviews(findings@);
            let ws = words(t.as_str());
            if contains(t.as_str(), "ALL=(ALL) ALL") && ws.len() > 0 && str_eq(ws[0].as_str(), "ALL") {
                push_finding(&mut findings, "Wildcard sudo entry grants full access", Severity::Critical);
            }
            assert(sviews(findings@) =~= f0 + sudoers_line_findings(ls@[i as int]@));
        } else {
            assert(sviews(findings@) =~= f0 + sudoers_line_findings(ls@[i as int]@));
        }
        i = i + 1;
    }
    assert(lv.subrange(0, ls@.len() as int) == lv);
    SudoersAnalysis { includes_dir, findings }
}

} // verus!
