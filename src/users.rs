//! Local accounts: parsing of `/etc/passwd` and `/etc/group`, and who may use sudo.

use vstd::prelude::*;
use crate::text::{
    has_prefix, lines, lines_of, owned, parse_u32, split_char, split_of, starts_with, str_eq,
    trim, trim_of, u32_of, views, decimal,
};
use vstd::string::StrSliceExecFns;
use vstd::string::StringExecFns;

verus! {

/// One account of `/etc/passwd`.
#[derive(Debug, Clone, PartialEq, Eq)]
pub struct UserRecord {
    pub name: String,
    pub uid: u32,
    pub gid: u32,
    pub home: String,
    pub shell: String,
    pub system: bool,
    pub interactive: bool,
    pub sudo: bool,
}

/// One group of `/etc/group`.
#[derive(Debug, Clone, PartialEq, Eq)]
pub struct GroupEntry {
    pub name: String,
    pub gid: u32,
    pub members: Vec<String>,
}

/// Why a line of an account database yields no record.
#[derive(Debug, Clone, Copy, PartialEq, Eq, Structural)]
pub enum LineError {
    /// A blank line or a comment.
    Ignored,
    /// Too few colon-separated fields.
    Malformed,
    /// The user id is not a number.
    InvalidUid,
    /// The group id is not a number.
    InvalidGid,
}

/// Shells that offer an interactive login.
pub open spec fn is_interactive(shell: Seq<char>) -> bool {
    shell == "/bin/sh"@ || shell == "/bin/bash"@ || shell == "/usr/bin/bash"@ || shell == "/bin/zsh"@
        || shell == "/usr/bin/zsh"@ || shell == "/bin/fish"@ || shell == "/usr/bin/fish"@
        || shell == "/usr/bin/tmux"@ || shell == "/bin/tcsh"@ || shell == "/bin/csh"@
}

/// Whether the shell offers an interactive login.
pub fn is_interactive_shell(shell: &str) -> (r: bool)
    ensures
        r == is_interactive(shell@),
{
    str_eq(shell, "/bin/sh") || str_eq(shell, "/bin/bash") || str_eq(shell, "/usr/bin/bash")
        || str_eq(shell, "/bin/zsh") || str_eq(shell, "/usr/bin/zsh") || str_eq(shell, "/bin/fish")
        || str_eq(shell, "/usr/bin/fish") || str_eq(shell, "/usr/bin/tmux") || str_eq(
        shell,
        "/bin/tcsh",
    ) || str_eq(shell, "/bin/csh")
}

/// A blank line or a comment.
pub open spec fn is_skipped(line: Seq<char>) -> bool {
    trim_of(line).len() == 0 || has_prefix(line, "#"@)
}

/// The error of a passwd line, `None` for a valid one.
pub open spec fn passwd_check(line: Seq<char>) -> Option<LineError> {
    let parts = split_of(line, ':');
    if is_skipped(line) {
        Some(LineError::Ignored)
    } else if parts.len() < 7 {
        Some(LineError::Malformed)
    } else if u32_of(parts[2]) is None {
        Some(LineError::InvalidUid)
    } else if u32_of(parts[3]) is None {
        Some(LineError::InvalidGid)
    } else {
        None
    }
}

/// `u` is the account that a valid passwd line describes: ids below 1000 are system
/// accounts; sudo is decided later.
pub open spec fn user_of_line(line: Seq<char>, u: UserRecord) -> bool {
    let parts = split_of(line, ':');
    &&& u.name@ == parts[0]
    &&& u32_of(parts[2]) == Some(u.uid)
    &&& u32_of(parts[3]) == Some(u.gid)
    &&& u.home@ == parts[5]
    &&& u.shell@ == parts[6]
    &&& u.system == (u.uid < 1000)
    &&& u.interactive == is_interactive(parts[6])
    &&& !u.sudo
}

fn skipped(line: &str) -> (r: bool)
    ensures
        r == is_skipped(line@),
{
    let t = trim(line);
    t.as_str().unicode_len() == 0 || starts_with(line, "#")
}

/// The account of one `/etc/passwd` line.
pub fn parse_passwd_line(line: &str) -> (r: Result<UserRecord, LineError>)
    ensures
        match r {
            Ok(u) => passwd_check(line@) is None && user_of_line(line@, u),
            Err(e) => passwd_check(line@) == Some(e),
        },
{
    if skipped(line) {
        return Err(LineError::Ignored);
    }
    let parts = split_char(line, ':');
    if parts.len() < 7 {
        return Err(LineError::Malformed);
    }
    let uid = match parse_u32(parts[2].as_str()) {
        Some(v) => v,
        None => return Err(LineError::InvalidUid),
    };
    let gid = match parse_u32(parts[3].as_str()) {
        Some(v) => v,
        None => return Err(LineError::InvalidGid),
    };
    Ok(UserRecord {
        name: owned(parts[0].as_str()),
        uid,
        gid,
        home: owned(parts[5].as_str()),
        shell: owned(parts[6].as_str()),
        system: uid < 1000,
        interactive: is_interactive_shell(parts[6].as_str()),
        sudo: false,
    })
}

/// The valid passwd lines among `ls`, in order.
pub open spec fn passwd_lines(ls: Seq<Seq<char>>) -> Seq<Seq<char>>
    decreases ls.len(),
{
    if ls.len() == 0 {
        Seq::empty()
    } else {
        passwd_lines(ls.drop_last()) + if passwd_check(ls.last()) is None {
            seq![ls.last()]
        } else {
            Seq::empty()
        }
    }
}

/// The accounts of a passwd file; lines that are not accounts are skipped.
pub fn parse_passwd(content: &str) -> (r: Vec<UserRecord>)
    ensures
        r@.len() == passwd_lines(lines_of(content@)).len(),
        forall|i: int|
            0 <= i < r@.len() ==> user_of_line(passwd_lines(lines_of(content@))[i], #[trigger] r@[i]),
{
    let ls = lines(content);
    let ghost lv = views(ls@);
    let mut out: Vec<UserRecord> = Vec::new();
    let mut i: usize = 0;
    while i < ls.len()
        invariant
            lv == views(ls@),
            i <= ls@.len(),
            out@.len() == passwd_lines(lv.subrange(0, i as int)).len(),
            forall|j: int|
                0 <= j < out@.len() ==> user_of_line(passwd_lines(lv.subrange(0, i as int))[j], #[trigger] out@[j]),
        decreases ls@.len() - i,
    {
        let ghost pre = passwd_lines(lv.subrange(0, i as int));
        assert(lv.subrange(0, i + 1).drop_last() == lv.subrange(0, i as int));
        assert(lv.subrange(0, i + 1).last() == ls@[i as int]@);
        match parse_passwd_line(ls[i].as_str()) {
            Ok(u) => {
                out.push(u);
                assert forall|j: int| 0 <= j < out@.len() implies user_of_line(passwd_lines(lv.subrange(0, i + 1))[j], #[trigger] out@[j]) by {
                    if j < pre.len() {
                        assert(passwd_lines(lv.subrange(0, i + 1))[j] == pre[j]);
                    }
                }
            },
            Err(_) => {
                assert(passwd_lines(lv.subrange(0, i + 1)) == pre + Seq::<Seq<char>>::empty());
                assert(pre + Seq::<Seq<char>>::empty() == pre);
            },
        }
        i = i + 1;
    }
    assert(lv.subrange(0, ls@.len() as int) == lv);
    out
}

/// The error of a group line, `None` for a valid one.
pub open spec fn group_check(line: Seq<char>) -> Option<LineError> {
    let parts = split_of(line, ':');
    if is_skipped(line) {
        Some(LineError::Ignored)
    } else if parts.len() < 4 {
        Some(LineError::Malformed)
    } else if u32_of(parts[2]) is None {
        Some(LineError::InvalidGid)
    } else {
        None
    }
}

/// The non-empty pieces of a sequence of pieces.
pub open spec fn non_empty(ps: Seq<Seq<char>>) -> Seq<Seq<char>>
    decreases ps.len(),
{
    if ps.len() == 0 {
        Seq::empty()
    } else {
        non_empty(ps.drop_last()) + if ps.last().len() > 0 {
            seq![ps.last()]
        } else {
            Seq::empty()
        }
    }
}

/// `g` is the group that a valid group line describes; members are the non-empty names of
/// its comma-separated list.
pub open spec fn group_of_line(line: Seq<char>, g: GroupEntry) -> bool {
    let parts = split_of(line, ':');
    &&& g.name@ == parts[0]
    &&& u32_of(parts[2]) == Some(g.gid)
    &&& views(g.members@) == non_empty(split_of(parts[3], ','))
}

/// The group of one `/etc/group` line.
pub fn parse_group_line(line: &str) -> (r: Result<GroupEntry, LineError>)
    ensures
        match r {
            Ok(g) => group_check(line@) is None && group_of_line(line@, g),
            Err(e) => group_check(line@) == Some(e),
        },
{
    if skipped(line) {
        return Err(LineError::Ignored);
    }
    let parts = split_char(line, ':');
    if parts.len() < 4 {
        return Err(LineError::Malformed);
    }
    let gid = match parse_u32(parts[2].as_str()) {
        Some(v) => v,
        None => return Err(LineError::InvalidGid),
    };
    let pieces = split_char(parts[3].as_str(), ',');
    let ghost pv = views(pieces@);
    let mut members: Vec<String> = Vec::new();
    let mut i: usize = 0;
    while i < pieces.len()
        invariant
            pv == views(pieces@),
            i <= pieces@.len(),
            views(members@) == non_empty(pv.subrange(0, i as int)),
        decreases pieces@.len() - i,
    {
        assert(pv.subrange(0, i + 1).drop_last() == pv.subrange(0, i as int));
        assert(pv.subrange(0, i + 1).last() == pieces@[i as int]@);
        if pieces[i].as_str().unicode_len() > 0 {
            let m = owned(pieces[i].as_str());
            proof {
                crate::text::lemma_views_push(members@, m);
            }
            members.push(m);
        }
        assert(views(members@) =~= non_empty(pv.subrange(0, i + 1)));
        i = i + 1;
    }
    assert(pv.subrange(0, pieces@.len() as int) == pv);
    Ok(GroupEntry { name: owned(parts[0].as_str()), gid, members })
}

/// The valid group lines among `ls`, in order.
pub open spec fn group_lines(ls: Seq<Seq<char>>) -> Seq<Seq<char>>
    decreases ls.len(),
{
    if ls.len() == 0 {
        Seq::empty()
    } else {
        group_lines(ls.drop_last()) + if group_check(ls.last()) is None {
            seq![ls.last()]
        } else {
            Seq::empty()
        }
    }
}

/// The groups of a group file; lines that are not groups are skipped.
pub fn parse_groups(content: &str) -> (r: Vec<GroupEntry>)
    ensures
        r@.len() == group_lines(lines_of(content@)).len(),
        forall|i: int|
            0 <= i < r@.len() ==> group_of_line(group_lines(lines_of(content@))[i], #[trigger] r@[i]),
{
    let ls = lines(content);
    let ghost lv = views(ls@);
    let mut out: Vec<GroupEntry> = Vec::new();
    let mut i: usize = 0;
    while i < ls.len()
        invariant
            lv == views(ls@),
            i <= ls@.len(),
            out@.len() == group_lines(lv.subrange(0, i as int)).len(),
            forall|j: int|
                0 <= j < out@.len() ==> group_of_line(group_lines(lv.subrange(0, i as int))[j], #[trigger] out@[j]),
        decreases ls@.len() - i,
    {
        let ghost pre = group_lines(lv.subrange(0, i as int));
        assert(lv.subrange(0, i + 1).drop_last() == lv.subrange(0, i as int));
        assert(lv.subrange(0, i + 1).last() == ls@[i as int]@);
        match parse_group_line(ls[i].as_str()) {
            Ok(g) => {
                out.push(g);
                assert forall|j: int| 0 <= j < out@.len() implies group_of_line(group_lines(lv.subrange(0, i + 1))[j], #[trigger] out@[j]) by {
                    if j < pre.len() {
                        assert(group_lines(lv.subrange(0, i + 1))[j] == pre[j]);
                    }
                }
            },
            Err(_) => {
                assert(group_lines(lv.subrange(0, i + 1)) == pre + Seq::<Seq<char>>::empty());
                assert(pre + Seq::<Seq<char>>::empty() == pre);
            },
        }
        i = i + 1;
    }
    assert(lv.subrange(0, ls@.len() as int) == lv);
    out
}

/// The accounts of the host.
#[derive(Debug, Clone, PartialEq, Eq)]
pub struct UsersSnapshot {
    pub users: Vec<UserRecord>,
}

/// How many accounts satisfy `f`.
pub open spec fn count_users(us: Seq<UserRecord>, f: spec_fn(UserRecord) -> bool) -> nat
    decreases us.len(),
{
    if us.len() == 0 {
        0
    } else {
        count_users(us.drop_last(), f) + if f(us.last()) { 1nat } else { 0nat }
    }
}

proof fn lemma_count_users_le(us: Seq<UserRecord>, f: spec_fn(UserRecord) -> bool)
    ensures
        count_users(us, f) <= us.len(),
    decreases us.len(),
{
    if us.len() > 0 {
        lemma_count_users_le(us.drop_last(), f);
    }
}

impl UsersSnapshot {
    /// The one-line summary: totals of accounts, system, interactive and sudo accounts.
    pub fn summary(&self) -> (r: String)
        ensures
            r@ == crate::text::decimal_of(self.users@.len()) + " users ("@
                + crate::text::decimal_of(count_users(self.users@, |u: UserRecord| u.system))
                + " system, "@
                + crate::text::decimal_of(count_users(self.users@, |u: UserRecord| u.interactive))
                + " interactive, "@
                + crate::text::decimal_of(count_users(self.users@, |u: UserRecord| u.sudo)) + " sudo)"@,
    {
        let us = &self.users;
        let mut system: usize = 0;
        let mut interactive: usize = 0;
        let mut sudo: usize = 0;
        let mut i: usize = 0;
        while i < us.len()
            invariant
                i <= us@.len(),
                system == count_users(us@.subrange(0, i as int), |u: UserRecord| u.system),
                interactive == count_users(us@.subrange(0, i as int), |u: UserRecord| u.interactive),
                sudo == count_users(us@.subrange(0, i as int), |u: UserRecord| u.sudo),
            decreases us@.len() - i,
        {
            assert(us@.subrange(0, i + 1).drop_last() == us@.subrange(0, i as int));
            proof {
                lemma_count_users_le(us@.subrange(0, i as int), |u: UserRecord| u.system);
                lemma_count_users_le(us@.subrange(0, i as int), |u: UserRecord| u.interactive);
                lemma_count_users_le(us@.subrange(0, i as int), |u: UserRecord| u.sudo);
            }
            if us[i].system {
                system = system + 1;
            }
            if us[i].interactive {
                interactive = interactive + 1;
            }
            if us[i].sudo {
                sudo = sudo + 1;
            }
            i = i + 1;
        }
        assert(us@.subrange(0, us@.len() as int) == us@);
        let mut r = decimal(us.len() as u128);
        r.append(" users (");
        r.append(decimal(system as u128).as_str());
        r.append(" system, ");
        r.append(decimal(interactive as u128).as_str());
        r.append(" interactive, ");
        r.append(decimal(sudo as u128).as_str());
        r.append(" sudo)");
        r
    }
}


/// Groups whose members may use sudo.
pub open spec fn is_privileged_group(name: Seq<char>) -> bool {
    name == "sudo"@ || name == "wheel"@ || name == "admin"@
}

/// An account may use sudo when a privileged group is its primary group or lists it.
pub open spec fn grants_sudo(u: UserRecord, gs: Seq<GroupEntry>) -> bool {
    exists|j: int|
        0 <= j < gs.len() && is_privileged_group((#[trigger] gs[j]).name@) && (gs[j].gid == u.gid
            || views(gs[j].members@).contains(u.name@))
}

fn listed(members: &Vec<String>, name: &str) -> (r: bool)
    ensures
        r == views(members@).contains(name@),
{
    let mut i: usize = 0;
    while i < members.len()
        invariant
            i <= members@.len(),
            forall|j: int| 0 <= j < i ==> members@[j]@ != name@,
        decreases members@.len() - i,
    {
        if str_eq(members[i].as_str(), name) {
            assert(views(members@)[i as int] == name@);
            return true;
        }
        i = i + 1;
    }
    assert(!views(members@).contains(name@)) by {
        if views(members@).contains(name@) {
            let j = choose|j: int| 0 <= j < views(members@).len() && views(members@)[j] == name@;
            assert(members@[j]@ == name@);
        }
    }
    false
}

fn may_use_sudo(u: &UserRecord, groups: &Vec<GroupEntry>) -> (r: bool)
    ensures
        r == grants_sudo(*u, groups@),
{
    let mut j: usize = 0;
    while j < groups.len()
        invariant
            j <= groups@.len(),
            forall|k: int|
                0 <= k < j ==> !(is_privileged_group((#[trigger] groups@[k]).name@) && (groups@[k].gid
                    == u.gid || views(groups@[k].members@).contains(u.name@))),
        decreases groups@.len() - j,
    {
        let g = &groups[j];
        let privileged = str_eq(g.name.as_str(), "sudo") || str_eq(g.name.as_str(), "wheel")
            || str_eq(g.name.as_str(), "admin");
        if privileged && (g.gid == u.gid || listed(&g.members, u.name.as_str())) {
            return true;
        }
        j = j + 1;
    }
    false
}

/// Marks the accounts that may use sudo, leaving everything else as it is.
pub fn mark_sudo(users: Vec<UserRecord>, groups: &Vec<GroupEntry>) -> (r: Vec<UserRecord>)
    ensures
        r@.len() == users@.len(),
        forall|i: int|
            0 <= i < r@.len() ==> (#[trigger] r@[i]) == (UserRecord { sudo: grants_sudo(users@[i], groups@), ..users@[i] }),
{
    let mut rest = users;
    let ghost all = rest@;
    let mut out: Vec<UserRecord> = Vec::new();
    let mut back: Vec<UserRecord> = Vec::new();
    while rest.len() > 0
        invariant
            rest@.len() + back@.len() == all.len(),
            rest@ == all.subrange(0, rest@.len() as int),
            forall|k: int|
                0 <= k < back@.len() ==> (#[trigger] back@[k]) == (UserRecord {
                    sudo: grants_sudo(all[all.len() - 1 - k], groups@),
                    ..all[all.len() - 1 - k]
                }),
        decreases rest@.len(),
    {
        let ghost idx = rest@.len() - 1;
        let mut u = rest.pop().unwrap();
        assert(u == all[idx]);
        u.sudo = may_use_sudo(&u, groups);
        back.push(u);
    }
    while back.len() > 0
        invariant
            out@.len() + back@.len() == all.len(),
            forall|k: int|
                0 <= k < back@.len() ==> (#[trigger] back@[k]) == (UserRecord {
                    sudo: grants_sudo(all[all.len() - 1 - k], groups@),
                    ..all[all.len() - 1 - k]
                }),
            forall|i: int|
                0 <= i < out@.len() ==> (#[trigger] out@[i]) == (UserRecord {
                    sudo: grants_sudo(all[i], groups@),
                    ..all[i]
                }),
        decreases back@.len(),
    {
        let u = back.pop().unwrap();
        out.push(u);
    }
    out
}

} // verus!
