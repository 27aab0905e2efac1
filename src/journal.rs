//! Recent journal events: framing of the JSON export and the entry derived from its fields.

use vstd::prelude::*;
use crate::network::{find, first_occurrence, lemma_first_occurrence_unique};
use crate::text::{
    contains, has_infix, lines, lines_of, owned, parse_u64, trim, trim_of, u64_of, views, words,
    words_of,
};
use vstd::string::StrSliceExecFns;
use vstd::string::StringExecFns;

verus! {

/// One journal event.
#[derive(Debug, Clone, PartialEq, Eq)]
pub struct JournalEntry {
    pub timestamp: String,
    pub source: Option<String>,
    pub message: String,
}

/// The non-blank lines among `ls`, in order: one JSON record each.
pub open spec fn record_lines(ls: Seq<Seq<char>>) -> Seq<Seq<char>>
    decreases ls.len(),
{
    if ls.len() == 0 {
        Seq::empty()
    } else {
        record_lines(ls.drop_last()) + if trim_of(ls.last()).len() > 0 {
            seq![ls.last()]
        } else {
            Seq::empty()
        }
    }
}

/// The records of a journal export: its non-blank lines.
pub fn journal_lines(content: &str) -> (r: Vec<String>)
    ensures
        views(r@) == record_lines(lines_of(content@)),
{
    let ls = lines(content);
    let ghost lv = views(ls@);
    let mut out: Vec<String> = Vec::new();
    let mut i: usize = 0;
    while i < ls.len()
        invariant
            lv == views(ls@),
            i <= ls@.len(),
            views(out@) == record_lines(lv.subrange(0, i as int)),
        decreases ls@.len() - i,
    {
        assert(lv.subrange(0, i + 1).drop_last() == lv.subrange(0, i as int));
        assert(lv.subrange(0, i + 1).last() == ls@[i as int]@);
        if trim(ls[i].as_str()).as_str().unicode_len() > 0 {
            let l = owned(ls[i].as_str());
            proof {
                crate::text::lemma_views_push(out@, l);
            }
            out.push(l);
        }
        assert(views(out@) =~= record_lines(lv.subrange(0, i + 1)));
        i = i + 1;
    }
    assert(lv.subrange(0, ls@.len() as int) == lv);
    out
}

/// The RFC 3339 text, with milliseconds and a `Z` suffix, of the instant `secs` seconds and
/// `nanos` nanoseconds after the Unix epoch, where that instant can be represented.
pub uninterp spec fn rfc3339_millis_of(secs: int, nanos: int) -> Option<Seq<char>>;

/// Relies on chrono's `DateTime::<Utc>::from_timestamp(secs, nanos)`, which gives `None`
/// for an instant out of its range, and on `to_rfc3339_opts(SecondsFormat::Millis, true)`
/// for the text.
#[verifier::external_body]
fn rfc3339_millis(secs: i64, nanos: u32) -> (r: Option<String>)
    requires
        nanos < 1_000_000_000,
    ensures
        match r {
            Some(t) => rfc3339_millis_of(secs as int, nanos as int) == Some(t@),
            None => rfc3339_millis_of(secs as int, nanos as int) is None,
        },
{
    match chrono::DateTime::<chrono::Utc>::from_timestamp(secs, nanos) {
        Some(dt) => Some(dt.to_rfc3339_opts(chrono::SecondsFormat::Millis, true)),
        None => None,
    }
}

/// The text of a journal timestamp given in microseconds since the epoch.
pub open spec fn timestamp_of(value: Seq<char>) -> Option<Seq<char>> {
    match u64_of(value) {
        Some(micros) => rfc3339_millis_of(
            (micros / 1_000_000) as int,
            ((micros % 1_000_000) * 1000) as int,
        ),
        None => None,
    }
}

/// A journal timestamp (microseconds since the epoch) in RFC 3339 form.
pub fn format_timestamp(value: &str) -> (r: Option<String>)
    ensures
        match r {
            Some(t) => timestamp_of(value@) == Some(t@),
            None => timestamp_of(value@) is None,
        },
{
    let micros = match parse_u64(value) {
        Some(m) => m,
        None => return None,
    };
    let secs = micros / 1_000_000;
    let nanos = ((micros % 1_000_000) as u32) * 1000;
    rfc3339_millis(secs as i64, nanos)
}

/// The entry of a record from its message, timestamp, unit and command fields: a blank
/// message reads `(no message)`, an unreadable time `unknown`, and the unit is preferred to
/// the command as the source.
pub fn entry_from_fields(
    message: Option<String>,
    realtime_timestamp: Option<String>,
    unit: Option<String>,
    comm: Option<String>,
) -> (r: JournalEntry)
    ensures
        r.message@ == match message {
            Some(m) => if trim_of(m@).len() == 0 { "(no message)"@ } else { m@ },
            None => "(no message)"@,
        },
        r.timestamp@ == match realtime_timestamp {
            Some(t) => match timestamp_of(t@) {
                Some(s) => s,
                None => "unknown"@,
            },
            None => "unknown"@,
        },
        r.source == match unit {
            Some(u) => Some(u),
            None => comm,
        },
{
    let message = match message {
        Some(m) => if trim(m.as_str()).as_str().unicode_len() == 0 {
            String::from_str("(no message)")
        } else {
            m
        },
        None => String::from_str("(no message)"),
    };
    let timestamp = match realtime_timestamp {
        Some(t) => match format_timestamp(t.as_str()) {
            Some(s) => s,
            None => String::from_str("unknown"),
        },
        None => String::from_str("unknown"),
    };
    let source = match unit {
        Some(u) => Some(u),
        None => comm,
    };
    JournalEntry { timestamp, source, message }
}


/// The lowercase form of `s`.
pub uninterp spec fn lower_of(s: Seq<char>) -> Seq<char>;

/// Relies on `str::to_lowercase`: the result depends on the characters alone.
#[verifier::external_body]
fn lowercase(s: &str) -> (r: String)
    ensures
        r@ == lower_of(s@),
{
    s.to_lowercase()
}

/// Characters kept in a token: small letters and digits, with `.:-` for hosts and `-_.`
/// for user names.
pub open spec fn token_char(c: char, user: bool) -> bool {
    ('a' <= c && c <= 'z') || ('0' <= c && c <= '9') || c == '.' || c == '-' || (if user {
        c == '_'
    } else {
        c == ':'
    })
}

/// `s` without the characters at its start that a token does not keep.
pub open spec fn strip_start(s: Seq<char>, user: bool) -> Seq<char>
    decreases s.len(),
{
    if s.len() > 0 && !token_char(s[0], user) {
        strip_start(s.drop_first(), user)
    } else {
        s
    }
}

/// `s` without the characters at its end that a token does not keep.
pub open spec fn strip_end(s: Seq<char>, user: bool) -> Seq<char>
    decreases s.len(),
{
    if s.len() > 0 && !token_char(s.last(), user) {
        strip_end(s.drop_last(), user)
    } else {
        s
    }
}

/// The text between the first and the second occurrence of `marker` (to the end where
/// there is no second one), if `marker` occurs at all.
pub open spec fn piece_after(msg: Seq<char>, marker: Seq<char>) -> Option<Seq<char>> {
    if !has_infix(msg, marker) {
        None
    } else {
        let i = choose|i: int| first_occurrence(msg, marker, i);
        let tail = msg.subrange(i + marker.len(), msg.len() as int);
        if has_infix(tail, marker) {
            let j = choose|j: int| first_occurrence(tail, marker, j);
            Some(tail.subrange(0, j))
        } else {
            Some(tail)
        }
    }
}

/// The first word after `marker`, stripped to the characters a token keeps; none where
/// nothing is left.
pub open spec fn token_after(msg: Seq<char>, marker: Seq<char>, user: bool) -> Option<Seq<char>> {
    match piece_after(msg, marker) {
        None => None,
        Some(seg) => {
            let ws = words_of(seg);
            if ws.len() == 0 {
                None
            } else {
                let t = strip_end(strip_start(ws[0], user), user);
                if t.len() == 0 {
                    None
                } else {
                    Some(t)
                }
            }
        },
    }
}

fn token_char_exec(c: char, user: bool) -> (r: bool)
    ensures
        r == token_char(c, user),
{
    ('a' <= c && c <= 'z') || ('0' <= c && c <= '9') || c == '.' || c == '-' || (if user {
        c == '_'
    } else {
        c == ':'
    })
}

fn strip_token(s: &str, user: bool) -> (r: String)
    ensures
        r@ == strip_end(strip_start(s@, user), user),
{
    let n = s.unicode_len();
    let mut i: usize = 0;
    assert(s@.subrange(0, n as int) == s@);
    while i < n && !token_char_exec(s.get_char(i), user)
        invariant
            n == s@.len(),
            i <= n,
            strip_start(s@, user) == strip_start(s@.subrange(i as int, n as int), user),
        decreases n - i,
    {
        assert(s@.subrange(i as int, n as int).drop_first() == s@.subrange(i + 1, n as int));
        i = i + 1;
    }
    let mut j: usize = n;
    while j > i && !token_char_exec(s.get_char(j - 1), user)
        invariant
            n == s@.len(),
            i <= j <= n,
            strip_end(strip_start(s@, user), user) == strip_end(s@.subrange(i as int, j as int), user),
        decreases j,
    {
        assert(s@.subrange(i as int, j as int).drop_last() == s@.subrange(i as int, j - 1));
        j = j - 1;
    }
    owned(s.substring_char(i, j))
}

/// The first word after `marker` in `msg`, stripped to the characters a token keeps.
pub fn token_after_marker(msg: &str, marker: &str, user: bool) -> (r: Option<String>)
    requires
        marker@.len() > 0,
    ensures
        match r {
            Some(t) => token_after(msg@, marker@, user) == Some(t@),
            None => token_after(msg@, marker@, user) is None,
        },
{
    let i = match find(msg, marker) {
        Some(i) => i,
        None => return None,
    };
    proof {
        let k = choose|k: int| first_occurrence(msg@, marker@, k);
        lemma_first_occurrence_unique(msg@, marker@, i as int, k);
    }
    let n = msg.unicode_len();
    let m = marker.unicode_len();
    let tail = msg.substring_char(i + m, n);
    let seg: &str = match find(tail, marker) {
        Some(j) => {
            proof {
                let k = choose|k: int| first_occurrence(tail@, marker@, k);
                lemma_first_occurrence_unique(tail@, marker@, j as int, k);
            }
            tail.substring_char(0, j)
        },
        None => tail,
    };
    let ws = words(seg);
    if ws.len() == 0 {
        return None;
    }
    let t = strip_token(ws[0].as_str(), user);
    if t.as_str().unicode_len() == 0 {
        None
    } else {
        Some(t)
    }
}

/// The host or user name after `marker` in a lowercased message.
pub fn extract_after(message: &str, marker: &str) -> (r: Option<String>)
    requires
        marker@.len() > 0,
    ensures
        match r {
            Some(t) => token_after(message@, marker@, false) == Some(t@),
            None => token_after(message@, marker@, false) is None,
        },
{
    token_after_marker(message, marker, false)
}

/// The user name of a failed login in a lowercased message: the word after `for`.
pub fn extract_username_from_failure(message: &str) -> (r: Option<String>)
    ensures
        match r {
            Some(t) => token_after(message@, "for"@, true) == Some(t@),
            None => token_after(message@, "for"@, true) is None,
        },
{
    proof {
        reveal_strlit("for");
    }
    token_after_marker(message, "for", true)
}


/// A name and how often it was seen.
#[derive(Debug, Clone, PartialEq, Eq)]
pub struct CountEntry {
    pub name: String,
    pub count: u64,
}

/// How often `n` occurs in `names`.
pub open spec fn occurrences(names: Seq<Seq<char>>, n: Seq<char>) -> nat
    decreases names.len(),
{
    if names.len() == 0 {
        0
    } else {
        occurrences(names.drop_last(), n) + if names.last() == n { 1nat } else { 0nat }
    }
}

proof fn lemma_occurrences_le(names: Seq<Seq<char>>, n: Seq<char>)
    ensures
        occurrences(names, n) <= names.len(),
    decreases names.len(),
{
    if names.len() > 0 {
        lemma_occurrences_le(names.drop_last(), n);
    }
}

/// `t` counts every name of `names` once, with its number of occurrences.
pub open spec fn tally_ok(t: Seq<CountEntry>, names: Seq<Seq<char>>) -> bool {
    &&& forall|k: int| 0 <= k < t.len() ==> (#[trigger] t[k]).count == occurrences(names, t[k].name@)
    &&& forall|k1: int, k2: int|
        0 <= k1 < t.len() && 0 <= k2 < t.len() && k1 != k2 ==> (#[trigger] t[k1]).name@ != (#[trigger] t[k2]).name@
    &&& forall|i: int| 0 <= i < names.len() ==> exists|k: int| 0 <= k < t.len() && (#[trigger] t[k]).name@ == #[trigger] names[i]
}

/// Counts one more occurrence of `name`.
fn add_name(t: &mut Vec<CountEntry>, name: String, Ghost(names): Ghost<Seq<Seq<char>>>)
    requires
        tally_ok(old(t)@, names),
        names.len() + 1 < u64::MAX,
    ensures
        tally_ok(final(t)@, names.push(name@)),
{
    let ghost names2 = names.push(name@);
    assert(names2.drop_last() == names);
    let n = t.len();
    let mut k: usize = 0;
    while k < n && !crate::text::str_eq(t[k].name.as_str(), name.as_str())
        invariant
            n == t@.len(),
            t@ == old(t)@,
            k <= n,
            forall|j: int| 0 <= j < k ==> t@[j].name@ != name@,
        decreases n - k,
    {
        k = k + 1;
    }
    let ghost t0 = t@;
    if k < n {
        let mut e = t.remove(k);
        proof {
            lemma_occurrences_le(names, name@);
        }
        e.count = e.count + 1;
        t.insert(k, e);
        assert(t@ == t0.update(k as int, e));
        assert forall|q: int| 0 <= q < t@.len() implies (#[trigger] t@[q]).count == occurrences(names2, t@[q].name@) by {
            if q != k {
                assert(t@[q] == t0[q]);
            }
        }
        assert forall|i: int| 0 <= i < names2.len() implies exists|q: int| 0 <= q < t@.len() && (#[trigger] t@[q]).name@ == #[trigger] names2[i] by {
            if i < names.len() {
                assert(names2[i] == names[i]);
                let q = choose|q: int| 0 <= q < t0.len() && (#[trigger] t0[q]).name@ == names[i];
                assert(t@[q].name@ == t0[q].name@);
            } else {
                assert(t@[k as int].name@ == names2[i]);
            }
        }
        assert forall|k1: int, k2: int| 0 <= k1 < t@.len() && 0 <= k2 < t@.len() && k1 != k2 implies (#[trigger] t@[k1]).name@ != (#[trigger] t@[k2]).name@ by {
            assert(t@[k1].name@ == t0[k1].name@ && t@[k2].name@ == t0[k2].name@);
        }
    } else {
        proof {
            assert forall|i: int| 0 <= i < names.len() implies names[i] != name@ by {
                let q = choose|q: int| 0 <= q < t0.len() && (#[trigger] t0[q]).name@ == names[i];
            }
            lemma_occurrences_absent(names, name@);
        }
        let e = CountEntry { name, count: 1 };
        t.push(e);
        assert forall|q: int| 0 <= q < t@.len() implies (#[trigger] t@[q]).count == occurrences(names2, t@[q].name@) by {
            if q < n {
                assert(t@[q] == t0[q]);
            }
        }
        assert forall|i: int| 0 <= i < names2.len() implies exists|q: int| 0 <= q < t@.len() && (#[trigger] t@[q]).name@ == #[trigger] names2[i] by {
            if i < names.len() {
                assert(names2[i] == names[i]);
                let q = choose|q: int| 0 <= q < t0.len() && (#[trigger] t0[q]).name@ == names[i];
                assert(t@[q] == t0[q]);
            } else {
                assert(t@[n as int].name@ == names2[i]);
            }
        }
        assert forall|k1: int, k2: int| 0 <= k1 < t@.len() && 0 <= k2 < t@.len() && k1 != k2 implies (#[trigger] t@[k1]).name@ != (#[trigger] t@[k2]).name@ by {
            if k1 < n && k2 < n {
                assert(t@[k1] == t0[k1] && t@[k2] == t0[k2]);
            } else if k1 < n {
                assert(t@[k1] == t0[k1]);
            } else if k2 < n {
                assert(t@[k2] == t0[k2]);
            }
        }
    }
}

proof fn lemma_occurrences_absent(names: Seq<Seq<char>>, n: Seq<char>)
    requires
        forall|i: int| 0 <= i < names.len() ==> names[i] != n,
    ensures
        occurrences(names, n) == 0,
    decreases names.len(),
{
    if names.len() > 0 {
        lemma_occurrences_absent(names.drop_last(), n);
    }
}


/// Neighbouring entries are in descending order of count.
pub open spec fn desc_counts(r: Seq<CountEntry>) -> bool {
    forall|j: int| 0 <= j < r.len() - 1 ==> (#[trigger] r[j]).count >= r[j + 1].count
}

/// `r` holds the most frequent entries of `t`, at most five, most frequent first.
pub open spec fn top_of(r: Seq<CountEntry>, t: Seq<CountEntry>) -> bool {
    &&& r.len() == if t.len() < 5 { t.len() } else { 5 }
    &&& forall|j: int| 0 <= j < r.len() ==> t.contains(#[trigger] r[j])
    &&& r.to_multiset().subset_of(t.to_multiset())
    &&& desc_counts(r)
    &&& forall|k: int| 0 <= k < t.len() && !r.contains(#[trigger] t[k]) ==> forall|j: int| 0 <= j < r.len() ==> t[k].count <= (#[trigger] r[j]).count
}

fn max_index(v: &Vec<CountEntry>) -> (r: usize)
    requires
        v@.len() > 0,
    ensures
        r < v@.len(),
        forall|q: int| 0 <= q < v@.len() ==> (#[trigger] v@[q]).count <= v@[r as int].count,
{
    let mut best: usize = 0;
    let mut q: usize = 1;
    while q < v.len()
        invariant
            v@.len() > 0,
            best < v@.len(),
            1 <= q <= v@.len(),
            forall|p: int| 0 <= p < q ==> (#[trigger] v@[p]).count <= v@[best as int].count,
        decreases v@.len() - q,
    {
        if v[q].count > v[best].count {
            best = q;
        }
        q = q + 1;
    }
    best
}

/// The five most frequent entries, most frequent first.
pub fn top_counts(t: Vec<CountEntry>) -> (r: Vec<CountEntry>)
    ensures
        top_of(r@, t@),
{
    broadcast use vstd::seq_lib::group_to_multiset_ensures, vstd::seq_lib::to_multiset_contains;
    let ghost all = t@;
    let mut rest = t;
    let mut out: Vec<CountEntry> = Vec::new();
    assert(out@.to_multiset() =~= vstd::multiset::Multiset::empty());
    assert(out@.to_multiset().add(rest@.to_multiset()) =~= all.to_multiset());
    while out.len() < 5 && rest.len() > 0
        invariant
            out@.to_multiset().add(rest@.to_multiset()) == all.to_multiset(),
            out@.len() + rest@.len() == all.len(),
            out@.len() <= 5,
            desc_counts(out@),
            forall|j: int, q: int| 0 <= j < out@.len() && 0 <= q < rest@.len() ==> (#[trigger] out@[j]).count >= (#[trigger] rest@[q]).count,
        decreases rest@.len(),
    {
        let i = max_index(&rest);
        let ghost r0 = rest@;
        let ghost o0 = out@;
        let x = rest.remove(i);
        proof {
            vstd::seq_lib::to_multiset_remove(r0, i as int);
            assert(r0[i as int] == x);
        }
        out.push(x);
        proof {
            vstd::seq_lib::to_multiset_build(o0, x);
            assert(rest@ == r0.remove(i as int));
            assert(out@ == o0.push(x));
            assert(r0[i as int] == x);
            assert(r0.contains(x));
            vstd::seq_lib::to_multiset_contains(r0, x);
            assert(r0.to_multiset().count(x) > 0);
            assert(out@.to_multiset() == o0.to_multiset().insert(x));
            assert(rest@.to_multiset() == r0.to_multiset().remove(x));
            assert(out@.to_multiset().add(rest@.to_multiset()) =~= all.to_multiset());
            assert forall|j: int| 0 <= j < out@.len() - 1 implies (#[trigger] out@[j]).count >= out@[j + 1].count by {
                assert(out@[j] == o0[j]);
                if j + 1 < o0.len() {
                    assert(out@[j + 1] == o0[j + 1]);
                } else {
                    assert(r0[i as int] == x);
                }
            }
            assert forall|j: int, q: int| 0 <= j < out@.len() && 0 <= q < rest@.len() implies (#[trigger] out@[j]).count >= (#[trigger] rest@[q]).count by {
                let qq = if q < i { q } else { q + 1 };
                assert(rest@[q] == r0[qq]);
                if j < o0.len() {
                    assert(out@[j] == o0[j]);
                }
            }
        }
    }
    proof {
        assert forall|j: int| 0 <= j < out@.len() implies all.contains(#[trigger] out@[j]) by {
            assert(out@.to_multiset().count(out@[j]) > 0);
            assert(all.to_multiset().count(out@[j]) > 0);
        }
        assert(out@.to_multiset().subset_of(all.to_multiset()));
        assert forall|k: int| 0 <= k < all.len() && !out@.contains(#[trigger] all[k]) implies forall|j: int| 0 <= j < out@.len() ==> all[k].count <= (#[trigger] out@[j]).count by {
            assert(all.to_multiset().count(all[k]) > 0);
            assert(out@.to_multiset().count(all[k]) == 0);
            assert(rest@.to_multiset().count(all[k]) > 0);
            assert(rest@.contains(all[k]));
            let q = choose|q: int| 0 <= q < rest@.len() && rest@[q] == all[k];
            assert forall|j: int| 0 <= j < out@.len() implies all[k].count <= (#[trigger] out@[j]).count by {
                assert(out@[j].count >= rest@[q].count);
            }
        }
    }
    out
}


/// An entry with its source and message in lowercase.
#[derive(Debug, Clone)]
pub struct LoweredEntry {
    pub source: String,
    pub message: String,
}

/// The mathematical content of a lowered entry.
pub ghost struct LowView {
    pub source: Seq<char>,
    pub message: Seq<char>,
}

/// The views of lowered entries.
pub open spec fn low_views(v: Seq<LoweredEntry>) -> Seq<LowView> {
    v.map_values(|e: LoweredEntry| LowView { source: e.source@, message: e.message@ })
}

/// An entry of the SSH daemon.
pub open spec fn is_ssh(e: LowView) -> bool {
    has_infix(e.source, "ssh"@)
}

/// A login attempt for an unknown user.
pub open spec fn is_invalid_user(e: LowView) -> bool {
    has_infix(e.message, "invalid user"@)
}

/// A failed authentication.
pub open spec fn is_auth_failure(e: LowView) -> bool {
    has_infix(e.message, "failed password"@) || has_infix(e.message, "authentication failure"@)
}

/// The token as a list of zero or one names.
pub open spec fn opt_names(o: Option<Seq<char>>) -> Seq<Seq<char>> {
    match o {
        Some(t) => seq![t],
        None => Seq::empty(),
    }
}

/// The user names an entry mentions.
pub open spec fn entry_users(e: LowView) -> Seq<Seq<char>> {
    if !is_ssh(e) {
        Seq::empty()
    } else {
        (if is_invalid_user(e) {
            opt_names(token_after(e.message, "invalid user"@, false))
        } else {
            Seq::empty()
        }) + (if is_auth_failure(e) {
            opt_names(token_after(e.message, "for"@, true))
        } else {
            Seq::empty()
        })
    }
}

/// The remote hosts an entry mentions.
pub open spec fn entry_hosts(e: LowView) -> Seq<Seq<char>> {
    if !is_ssh(e) {
        Seq::empty()
    } else {
        opt_names(token_after(e.message, "from"@, false))
    }
}

/// The user names of all entries, in order.
pub open spec fn ssh_users(es: Seq<LowView>) -> Seq<Seq<char>>
    decreases es.len(),
{
    if es.len() == 0 {
        Seq::empty()
    } else {
        ssh_users(es.drop_last()) + entry_users(es.last())
    }
}

/// The remote hosts of all entries, in order.
pub open spec fn ssh_hosts(es: Seq<LowView>) -> Seq<Seq<char>>
    decreases es.len(),
{
    if es.len() == 0 {
        Seq::empty()
    } else {
        ssh_hosts(es.drop_last()) + entry_hosts(es.last())
    }
}

/// How many SSH entries satisfy `f`.
pub open spec fn ssh_count(es: Seq<LowView>, f: spec_fn(LowView) -> bool) -> nat
    decreases es.len(),
{
    if es.len() == 0 {
        0
    } else {
        ssh_count(es.drop_last(), f) + if is_ssh(es.last()) && f(es.last()) { 1nat } else { 0nat }
    }
}

/// Failed SSH logins and their most frequent users and hosts.
#[derive(Debug, Clone, PartialEq, Eq)]
pub struct SshSummary {
    pub invalid_user_count: u64,
    pub auth_failure_count: u64,
    pub top_usernames: Vec<CountEntry>,
    pub top_hosts: Vec<CountEntry>,
}

/// `r` summarises the SSH activity of `es`: none without failed logins.
pub open spec fn ssh_summary_ok(r: Option<SshSummary>, es: Seq<LowView>) -> bool {
    let invalid = ssh_count(es, |e: LowView| is_invalid_user(e));
    let failures = ssh_count(es, |e: LowView| is_auth_failure(e));
    match r {
        None => invalid == 0 && failures == 0,
        Some(s) => {
            &&& (invalid > 0 || failures > 0)
            &&& s.invalid_user_count == invalid
            &&& s.auth_failure_count == failures
            &&& exists|t: Seq<CountEntry>| tally_ok(t, ssh_users(es)) && top_of(s.top_usernames@, t)
            &&& exists|t: Seq<CountEntry>| tally_ok(t, ssh_hosts(es)) && top_of(s.top_hosts@, t)
        },
    }
}

proof fn lemma_ssh_bounds(es: Seq<LowView>)
    ensures
        ssh_users(es).len() <= 2 * es.len(),
        ssh_hosts(es).len() <= es.len(),
        ssh_count(es, |e: LowView| is_invalid_user(e)) <= es.len(),
        ssh_count(es, |e: LowView| is_auth_failure(e)) <= es.len(),
    decreases es.len(),
{
    if es.len() > 0 {
        lemma_ssh_bounds(es.drop_last());
    }
}

/// Summarises failed SSH logins among lowercased entries.
pub fn summarize_lowered(entries: &Vec<LoweredEntry>) -> (r: Option<SshSummary>)
    requires
        entries@.len() < 0x4000_0000_0000_0000,
    ensures
        ssh_summary_ok(r, low_views(entries@)),
{
    let ghost es = low_views(entries@);
    let mut invalid: u64 = 0;
    let mut failures: u64 = 0;
    let mut users: Vec<CountEntry> = Vec::new();
    let mut hosts: Vec<CountEntry> = Vec::new();
    let mut i: usize = 0;
    while i < entries.len()
        invariant
            es == low_views(entries@),
            i <= entries@.len(),
            entries@.len() < 0x4000_0000_0000_0000,
            invalid == ssh_count(es.subrange(0, i as int), |e: LowView| is_invalid_user(e)),
            failures == ssh_count(es.subrange(0, i as int), |e: LowView| is_auth_failure(e)),
            tally_ok(users@, ssh_users(es.subrange(0, i as int))),
            tally_ok(hosts@, ssh_hosts(es.subrange(0, i as int))),
        decreases entries@.len() - i,
    {
        let ghost pre = es.subrange(0, i as int);
        let ghost cur = es.subrange(0, i + 1);
        assert(cur.drop_last() == pre);
        let e = &entries[i];
        assert(cur.last() == (LowView { source: e.source@, message: e.message@ }));
        proof {
            lemma_ssh_bounds(pre);
        }
        let ghost ev = LowView { source: e.source@, message: e.message@ };
        proof {
            reveal_strlit("invalid user");
            reveal_strlit("from");
        }
        if contains(e.source.as_str(), "ssh") {
            let ghost mut names = ssh_users(pre);
            let inv = contains(e.message.as_str(), "invalid user");
            if inv {
                invalid = invalid + 1;
                match token_after_marker(e.message.as_str(), "invalid user", false) {
                    Some(name) => {
                        add_name(&mut users, name, Ghost(names));
                        proof { names = names.push(token_after(ev.message, "invalid user"@, false)->0); }
                    },
                    None => {},
                }
            }
            let ghost after_invalid = names;
            assert(after_invalid == ssh_users(pre) + (if is_invalid_user(ev) {
                opt_names(token_after(ev.message, "invalid user"@, false))
            } else {
                Seq::<Seq<char>>::empty()
            }));
            let fail = contains(e.message.as_str(), "failed password") || contains(
                e.message.as_str(),
                "authentication failure",
            );
            if fail {
                failures = failures + 1;
                match extract_username_from_failure(e.message.as_str()) {
                    Some(name) => {
                        add_name(&mut users, name, Ghost(names));
                        proof { names = names.push(token_after(ev.message, "for"@, true)->0); }
                    },
                    None => {},
                }
            }
            assert(names =~= ssh_users(cur));
            assert(ssh_hosts(cur) =~= ssh_hosts(pre) + entry_hosts(ev));
            match token_after_marker(e.message.as_str(), "from", false) {
                Some(host) => {
                    assert(ssh_hosts(pre).push(host@) =~= ssh_hosts(cur));
                    add_name(&mut hosts, host, Ghost(ssh_hosts(pre)));
                },
                None => {
                    assert(ssh_hosts(pre) =~= ssh_hosts(cur));
                },
            }
        } else {
            assert(ssh_users(cur) =~= ssh_users(pre));
            assert(ssh_hosts(cur) =~= ssh_hosts(pre));
        }
        i = i + 1;
    }
    assert(es.subrange(0, entries@.len() as int) == es);
    if invalid == 0 && failures == 0 {
        return None;
    }
    let ghost tu = users@;
    let ghost th = hosts@;
    let top_usernames = top_counts(users);
    let top_hosts = top_counts(hosts);
    assert(tally_ok(tu, ssh_users(es)) && top_of(top_usernames@, tu));
    assert(tally_ok(th, ssh_hosts(es)) && top_of(top_hosts@, th));
    Some(SshSummary { invalid_user_count: invalid, auth_failure_count: failures, top_usernames, top_hosts })
}


/// A journal entry with its source (empty where unknown) and message in lowercase.
pub open spec fn lowered(e: JournalEntry) -> LowView {
    LowView {
        source: lower_of(
            match e.source {
                Some(s) => s@,
                None => Seq::empty(),
            },
        ),
        message: lower_of(e.message@),
    }
}

/// The lowered views of journal entries.
pub open spec fn lowered_all(es: Seq<JournalEntry>) -> Seq<LowView> {
    es.map_values(|e: JournalEntry| lowered(e))
}

/// Summarises failed SSH logins: entries of an SSH source that mention an invalid user or
/// a failed authentication, with the most frequent user names and remote hosts.
pub fn summarize_ssh_activity(entries: &[JournalEntry]) -> (r: Option<SshSummary>)
    requires
        entries@.len() < 0x4000_0000_0000_0000,
    ensures
        ssh_summary_ok(r, lowered_all(entries@)),
{
    let mut lowered_entries: Vec<LoweredEntry> = Vec::new();
    let mut i: usize = 0;
    while i < entries.len()
        invariant
            i <= entries@.len(),
            lowered_entries@.len() == i,
            low_views(lowered_entries@) == lowered_all(entries@).subrange(0, i as int),
        decreases entries@.len() - i,
    {
        let e = &entries[i];
        let source = match &e.source {
            Some(s) => lowercase(s.as_str()),
            None => lowercase(""),
        };
        proof {
            reveal_strlit("");
            assert(""@ =~= Seq::<char>::empty());
        }
        assert(source@ == lowered(entries@[i as int]).source);
        let l = LoweredEntry { source, message: lowercase(e.message.as_str()) };
        let ghost before = low_views(lowered_entries@);
        lowered_entries.push(l);
        assert(low_views(lowered_entries@) =~= lowered_all(entries@).subrange(0, i + 1));
        i = i + 1;
    }
    assert(lowered_all(entries@).subrange(0, entries@.len() as int) =~= lowered_all(entries@));
    summarize_lowered(&lowered_entries)
}

} // verus!
