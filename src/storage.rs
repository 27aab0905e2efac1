//! Mount classification for the storage overview.

use vstd::prelude::*;
use crate::network::{seq_lt, str_lt, strictly_sorted};
use crate::text::{
    digit_value, has_prefix, lines, lines_of, push_char, split_char, split_of, starts_with, str_eq,
    trim, trim_of, views, words, words_of,
};
use vstd::string::StrSliceExecFns;

verus! {

/// Whether a mount holds data or is a kernel or memory pseudo filesystem.
#[derive(Debug, Clone, Copy, PartialEq, Eq, Structural)]
pub enum MountCategory {
    Operating,
    Pseudo,
}

/// Filesystem types that hold no operating data.
pub open spec fn is_pseudo_fs(t: Seq<char>) -> bool {
    t == "squashfs"@ || t == "overlay"@ || t == "tmpfs"@ || t == "devtmpfs"@ || t == "cgroup2"@
        || t == "proc"@ || t == "sysfs"@ || t == "nsfs"@ || t == "ramfs"@ || t == "zram"@
        || t == "fuse.snapfuse"@ || t == "securityfs"@ || t == "pstore"@
}

/// The category of a filesystem type.
pub fn classify_mount(fs_type: &str) -> (r: MountCategory)
    ensures
        r == if is_pseudo_fs(fs_type@) { MountCategory::Pseudo } else { MountCategory::Operating },
{
    if str_eq(fs_type, "squashfs") || str_eq(fs_type, "overlay") || str_eq(fs_type, "tmpfs")
        || str_eq(fs_type, "devtmpfs") || str_eq(fs_type, "cgroup2") || str_eq(fs_type, "proc")
        || str_eq(fs_type, "sysfs") || str_eq(fs_type, "nsfs") || str_eq(fs_type, "ramfs")
        || str_eq(fs_type, "zram") || str_eq(fs_type, "fuse.snapfuse") || str_eq(
        fs_type,
        "securityfs",
    ) || str_eq(fs_type, "pstore") {
        MountCategory::Pseudo
    } else {
        MountCategory::Operating
    }
}

/// A mount point related to an operational path: equal to it, above it or below it.
pub open spec fn near_path(m: Seq<char>, target: Seq<char>) -> bool {
    m == target || has_prefix(target, m) || has_prefix(m, target)
}

/// Mount points that matter for operating the host: the root, and the mounts related to
/// the system's data, home, container and boot paths.
pub open spec fn is_operational(m: Seq<char>) -> bool {
    m == "/"@ || near_path(m, "/"@) || near_path(m, "/var"@) || near_path(m, "/home"@) || near_path(
        m,
        "/var/lib/docker"@,
    ) || near_path(m, "/var/lib/containers"@) || near_path(m, "/boot"@) || near_path(
        m,
        "/boot/efi"@,
    )
}

fn near(m: &str, target: &str) -> (r: bool)
    ensures
        r == near_path(m@, target@),
{
    str_eq(m, target) || starts_with(target, m) || starts_with(m, target)
}

/// Whether a mount point matters for operating the host.
pub fn is_operational_mount(mount_point: &str) -> (r: bool)
    ensures
        r == is_operational(mount_point@),
{
    str_eq(mount_point, "/") || near(mount_point, "/") || near(mount_point, "/var") || near(
        mount_point,
        "/home",
    ) || near(mount_point, "/var/lib/docker") || near(mount_point, "/var/lib/containers") || near(
        mount_point,
        "/boot",
    ) || near(mount_point, "/boot/efi")
}


/// Relies on `char::from_u32`: the character of a code point below the surrogate range.
#[verifier::external_body]
fn char_from_code(v: u32) -> (r: Option<char>)
    ensures
        v < 0xD800 ==> r == Some(v as char),
{
    char::from_u32(v)
}

/// An ASCII decimal digit.
pub open spec fn is_ascii_digit(c: char) -> bool {
    '0' <= c && c <= '9'
}

/// The number of ASCII digits at the start of `s`, at most `n`.
pub open spec fn digit_run(s: Seq<char>, n: nat) -> nat
    decreases n,
{
    if n == 0 || s.len() == 0 || !is_ascii_digit(s[0]) {
        0
    } else {
        1 + digit_run(s.drop_first(), (n - 1) as nat)
    }
}

/// The value of an octal digit.
pub open spec fn octal_digit(c: char) -> Option<nat> {
    match digit_value(c) {
        Some(d) => if d < 8 { Some(d) } else { None },
        None => None,
    }
}

/// The value of three octal digits.
pub open spec fn octal3(ds: Seq<char>) -> Option<nat> {
    match (octal_digit(ds[0]), octal_digit(ds[1]), octal_digit(ds[2])) {
        (Some(a), Some(b), Some(c)) => Some(a * 64 + b * 8 + c),
        _ => None,
    }
}

/// A mount table field with its `\ooo` octal escapes decoded; a backslash that is not
/// followed by three octal digits stays as it is.
pub open spec fn decode_of(s: Seq<char>) -> Seq<char>
    decreases s.len(),
    via decode_of_decreases
{
    if s.len() == 0 {
        Seq::empty()
    } else if s[0] == '\\' {
        let k = digit_run(s.drop_first(), 3) as int;
        let ds = s.subrange(1, 1 + k);
        let rest = s.subrange(1 + k, s.len() as int);
        if k == 3 && octal3(ds) is Some {
            seq![(octal3(ds)->0 as u32) as char] + decode_of(rest)
        } else {
            seq!['\\'] + ds + decode_of(rest)
        }
    } else {
        seq![s[0]] + decode_of(s.drop_first())
    }
}

#[via_fn]
proof fn decode_of_decreases(s: Seq<char>) {
    if s.len() > 0 {
        lemma_digit_run_bound(s.drop_first(), 3);
    }
}

fn octal_digit_of(c: char) -> (r: Option<u32>)
    ensures
        match octal_digit(c) {
            Some(d) => r == Some(d as u32),
            None => r is None,
        },
{
    if '0' <= c && c <= '7' {
        let d = (c as u32) - ('0' as u32);
        proof {
            assert(c == '0' || c == '1' || c == '2' || c == '3' || c == '4' || c == '5' || c == '6' || c == '7') by {
                assert((c as u32) >= 48 && (c as u32) <= 55);
            }
        }
        Some(d)
    } else {
        None
    }
}

proof fn lemma_digit_run_bound(s: Seq<char>, n: nat)
    ensures
        digit_run(s, n) <= n,
        digit_run(s, n) <= s.len(),
        forall|j: int| 0 <= j < digit_run(s, n) ==> is_ascii_digit(#[trigger] s[j]),
    decreases n,
{
    if !(n == 0 || s.len() == 0 || !is_ascii_digit(s[0])) {
        lemma_digit_run_bound(s.drop_first(), (n - 1) as nat);
        assert forall|j: int| 0 <= j < digit_run(s, n) implies is_ascii_digit(#[trigger] s[j]) by {
            if j > 0 {
                assert(s[j] == s.drop_first()[j - 1]);
            }
        }
    }
}

fn digit_at(s: &str, i: usize) -> (r: bool)
    requires
        i < s@.len(),
    ensures
        r == is_ascii_digit(s@[i as int]),
{
    let d = s.get_char(i);
    '0' <= d && d <= '9'
}

/// Decodes the `\ooo` octal escapes of a mount table field (a space is written `\040`).
pub fn decode_mount_field(raw: &str) -> (r: String)
    ensures
        r@ == decode_of(raw@),
{
    let n = raw.unicode_len();
    let mut out = String::new();
    let mut i: usize = 0;
    assert(raw@.subrange(0, n as int) == raw@);
    while i < n
        invariant
            n == raw@.len(),
            i <= n,
            out@ + decode_of(raw@.subrange(i as int, n as int)) == decode_of(raw@),
        decreases n - i,
    {
        let ghost t = raw@.subrange(i as int, n as int);
        let c = raw.get_char(i);
        if c == '\\' {
            // Count up to three digits after the backslash.
            let mut k: usize = 0;
            assert(t.drop_first().subrange(0, t.len() - 1) == t.drop_first());
            while k < 3 && i + 1 + k < n && digit_at(raw, i + 1 + k)
                invariant
                    n == raw@.len(),
                    i < n,
                    k <= 3,
                    i + 1 + k <= n,
                    digit_run(t.drop_first(), 3) == k + digit_run(t.drop_first().subrange(k as int, t.len() - 1), (3 - k) as nat),
                    t == raw@.subrange(i as int, n as int),
                decreases 3 - k,
            {
                assert(t.drop_first().subrange(k as int, t.len() - 1).drop_first() == t.drop_first().subrange(k + 1, t.len() - 1));
                assert(t.drop_first().subrange(k as int, t.len() - 1)[0] == raw@[i + 1 + k]);
                k = k + 1;
            }
            assert(k < 3 && i + 1 + k < n ==> t.drop_first().subrange(k as int, t.len() - 1)[0] == raw@[i + 1 + k]);
            assert(digit_run(t.drop_first().subrange(k as int, t.len() - 1), (3 - k) as nat) == 0);
            proof {
                lemma_digit_run_bound(t.drop_first(), 3);
            }
            let ghost ds = t.subrange(1, 1 + k);
            assert(ds == raw@.subrange(i + 1, i + 1 + k));
            assert(t.subrange(1 + k, t.len() as int) == raw@.subrange(i + 1 + k, n as int));
            let mut decoded: Option<char> = None;
            if k == 3 {
                match (octal_digit_of(raw.get_char(i + 1)), octal_digit_of(raw.get_char(i + 2)), octal_digit_of(raw.get_char(i + 3))) {
                    (Some(a), Some(b), Some(d)) => {
                        assert(ds[0] == raw@[i + 1] && ds[1] == raw@[i + 2] && ds[2] == raw@[i + 3]);
                        decoded = char_from_code(a * 64 + b * 8 + d);
                    },
                    _ => {
                        assert(ds[0] == raw@[i + 1] && ds[1] == raw@[i + 2] && ds[2] == raw@[i + 3]);
                    },
                }
            }
            let ghost base = out@;
            let ghost rest = raw@.subrange(i + 1 + k, n as int);
            match decoded {
                Some(ch) => {
                    push_char(&mut out, ch);
                    assert(out@ + decode_of(rest) =~= base + decode_of(t));
                },
                None => {
                    push_char(&mut out, '\\');
                    let mut j: usize = 0;
                    while j < k
                        invariant
                            n == raw@.len(),
                            i + 1 + k <= n,
                            j <= k,
                            ds == raw@.subrange(i + 1, i + 1 + k),
                            out@ == base.push('\\') + ds.subrange(0, j as int),
                        decreases k - j,
                    {
                        push_char(&mut out, raw.get_char(i + 1 + j));
                        assert(ds.subrange(0, j + 1) == ds.subrange(0, j as int).push(raw@[i + 1 + j]));
                        j = j + 1;
                    }
                    assert(ds.subrange(0, k as int) == ds);
                    assert(out@ + decode_of(rest) =~= base + decode_of(t));
                },
            }
            i = i + 1 + k;
        } else {
            assert(t.drop_first() == raw@.subrange(i + 1, n as int));
            let ghost base = out@;
            push_char(&mut out, c);
            assert(out@ + decode_of(raw@.subrange(i + 1, n as int)) =~= base + decode_of(t));
            i = i + 1;
        }
    }
    assert(raw@.subrange(n as int, n as int) == Seq::<char>::empty());
    assert(out@ + Seq::<char>::empty() == out@);
    out
}


/// One line of the mount table.
#[derive(Debug, Clone, PartialEq, Eq)]
pub struct MountEntry {
    pub source: String,
    pub mount_point: String,
    pub fs_type: String,
    pub options: Vec<String>,
}

impl MountEntry {
    /// Whether the mount is read-only (`ro` among its options).
    pub fn is_read_only(&self) -> (r: bool)
        ensures
            r == views(self.options@).contains("ro"@),
    {
        let mut i: usize = 0;
        while i < self.options.len()
            invariant
                i <= self.options@.len(),
                forall|j: int| 0 <= j < i ==> self.options@[j]@ != "ro"@,
            decreases self.options@.len() - i,
        {
            if str_eq(self.options[i].as_str(), "ro") {
                assert(views(self.options@)[i as int] == "ro"@);
                return true;
            }
            i = i + 1;
        }
        assert(!views(self.options@).contains("ro"@)) by {
            if views(self.options@).contains("ro"@) {
                let j = choose|j: int| 0 <= j < views(self.options@).len() && views(self.options@)[j] == "ro"@;
                assert(self.options@[j]@ == "ro"@);
            }
        }
        false
    }
}

/// The mathematical content of a mount entry.
pub ghost struct MountView {
    pub source: Seq<char>,
    pub mount_point: Seq<char>,
    pub fs_type: Seq<char>,
    pub options: Seq<Seq<char>>,
}

/// The view of a mount entry.
pub open spec fn mount_view(e: MountEntry) -> MountView {
    MountView {
        source: e.source@,
        mount_point: e.mount_point@,
        fs_type: e.fs_type@,
        options: views(e.options@),
    }
}

/// The views of a list of mount entries.
pub open spec fn mount_views(out: Seq<MountEntry>) -> Seq<MountView> {
    out.map_values(|e: MountEntry| mount_view(e))
}

/// Word `i` of `ws`, empty where there is none.
pub open spec fn word_or_empty(ws: Seq<Seq<char>>, i: int) -> Seq<char> {
    if i < ws.len() {
        ws[i]
    } else {
        Seq::empty()
    }
}

/// The entry of a non-blank mount table line: decoded source, mount point and type, and
/// the comma-separated options.
pub open spec fn mount_of_line(line: Seq<char>) -> MountView {
    let ws = words_of(line);
    MountView {
        source: decode_of(word_or_empty(ws, 0)),
        mount_point: decode_of(word_or_empty(ws, 1)),
        fs_type: decode_of(word_or_empty(ws, 2)),
        options: split_of(word_or_empty(ws, 3), ','),
    }
}

/// The entries of the non-blank lines, in file order.
pub open spec fn mount_lines(ls: Seq<Seq<char>>) -> Seq<MountView>
    decreases ls.len(),
{
    if ls.len() == 0 {
        Seq::empty()
    } else {
        mount_lines(ls.drop_last()) + if trim_of(ls.last()).len() > 0 {
            seq![mount_of_line(ls.last())]
        } else {
            Seq::empty()
        }
    }
}

/// The mount points of a list of entries.
pub open spec fn points_of(ms: Seq<MountView>) -> Seq<Seq<char>> {
    ms.map_values(|m: MountView| m.mount_point)
}

/// Entry `i` is the first with its mount point.
pub open spec fn first_of_point(ms: Seq<MountView>, i: int) -> bool {
    0 <= i < ms.len() && forall|j: int| 0 <= j < i ==> (#[trigger] ms[j]).mount_point != ms[i].mount_point
}

/// The mount table's entries: one per mount point (the first line that names it), in order
/// of mount point.
pub open spec fn mounts_ok(out: Seq<MountEntry>, parsed: Seq<MountView>) -> bool {
    &&& strictly_sorted(points_of(mount_views(out)))
    &&& points_of(mount_views(out)).to_set() == points_of(parsed).to_set()
    &&& entries_first(out, parsed)
}

/// Every entry is the first parsed line with its mount point.
pub open spec fn entries_first(out: Seq<MountEntry>, parsed: Seq<MountView>) -> bool {
    forall|k: int| 0 <= k < out.len() ==> exists|i: int| first_of_point(parsed, i) && #[trigger] mount_view(out[k]) == parsed[i]
}

fn word_at(ws: &Vec<String>, i: usize) -> (r: String)
    ensures
        r@ == word_or_empty(views(ws@), i as int),
{
    if i < ws.len() {
        crate::text::owned(ws[i].as_str())
    } else {
        String::new()
    }
}

fn entry_of_line(line: &str) -> (r: MountEntry)
    ensures
        mount_view(r) == mount_of_line(line@),
{
    let ws = words(line);
    let options_field = word_at(&ws, 3);
    let options = split_char(options_field.as_str(), ',');
    MountEntry {
        source: decode_mount_field(word_at(&ws, 0).as_str()),
        mount_point: decode_mount_field(word_at(&ws, 1).as_str()),
        fs_type: decode_mount_field(word_at(&ws, 2).as_str()),
        options,
    }
}

/// Parses the mount table: one entry per mount point, the first line that names it, in
/// order of mount point.
#[verifier::rlimit(50)]
pub fn parse_proc_mounts(contents: &str) -> (r: Vec<MountEntry>)
    ensures
        mounts_ok(r@, mount_lines(lines_of(contents@))),
{
    let ls = lines(contents);
    let ghost lv = views(ls@);
    let mut out: Vec<MountEntry> = Vec::new();
    let mut i: usize = 0;
    proof {
        assert(points_of(mount_views(out@)) =~= Seq::<Seq<char>>::empty());
        assert(points_of(mount_lines(lv.subrange(0, 0))) =~= Seq::<Seq<char>>::empty());
    }
    while i < ls.len()
        invariant
            lv == views(ls@),
            i <= ls@.len(),
            mounts_ok(out@, mount_lines(lv.subrange(0, i as int))),
        decreases ls@.len() - i,
    {
        let ghost parsed = mount_lines(lv.subrange(0, i as int));
        assert(lv.subrange(0, i + 1).drop_last() == lv.subrange(0, i as int));
        assert(lv.subrange(0, i + 1).last() == ls@[i as int]@);
        if trim(ls[i].as_str()).as_str().unicode_len() > 0 {
            let e = entry_of_line(ls[i].as_str());
            let ghost parsed2 = parsed.push(mount_view(e));
            assert(mount_lines(lv.subrange(0, i + 1)) == parsed2);
            add_mount(&mut out, e, Ghost(parsed));
        } else {
            assert(mount_lines(lv.subrange(0, i + 1)) =~= parsed);
        }
        i = i + 1;
    }
    assert(lv.subrange(0, ls@.len() as int) == lv);
    out
}

proof fn lemma_points_push(ms: Seq<MountView>, x: MountView)
    ensures
        points_of(ms.push(x)) == points_of(ms).push(x.mount_point),
{
    assert(points_of(ms.push(x)) =~= points_of(ms).push(x.mount_point));
}

proof fn lemma_insert_point_set(pv: Seq<Seq<char>>, k: int, mp: Seq<char>, pp: Seq<Seq<char>>)
    requires
        0 <= k <= pv.len(),
        pv.to_set() == pp.to_set(),
    ensures
        pv.insert(k, mp).to_set() == pp.push(mp).to_set(),
{
    let np = pv.insert(k, mp);
    let p2 = pp.push(mp);
    assert forall|x: Seq<char>| np.to_set().contains(x) implies p2.to_set().contains(x) by {
        let q = choose|q: int| 0 <= q < np.len() && np[q] == x;
        if q == k {
            assert(p2[pp.len() as int] == x);
        } else {
            let o = if q < k { q } else { q - 1 };
            assert(pv[o] == x);
            assert(pv.to_set().contains(x));
            assert(pp.to_set().contains(x));
            let r = choose|r: int| 0 <= r < pp.len() && pp[r] == x;
            assert(p2[r] == x);
        }
    }
    assert forall|x: Seq<char>| p2.to_set().contains(x) implies np.to_set().contains(x) by {
        let q = choose|q: int| 0 <= q < p2.len() && p2[q] == x;
        if q == pp.len() {
            assert(np[k] == x);
        } else {
            assert(pp[q] == x);
            assert(pp.to_set().contains(x));
            assert(pv.to_set().contains(x));
            let r = choose|r: int| 0 <= r < pv.len() && pv[r] == x;
            if r < k {
                assert(np[r] == x);
            } else {
                assert(np[r + 1] == x);
            }
        }
    }
    assert(np.to_set() =~= p2.to_set());
}

fn has_point(out: &Vec<MountEntry>, point: &str) -> (r: bool)
    ensures
        r == exists|q: int| 0 <= q < out@.len() && out@[q].mount_point@ == point@,
{
    let mut j: usize = 0;
    while j < out.len()
        invariant
            j <= out@.len(),
            forall|q: int| 0 <= q < j ==> out@[q].mount_point@ != point@,
        decreases out@.len() - j,
    {
        if str_eq(out[j].mount_point.as_str(), point) {
            return true;
        }
        j = j + 1;
    }
    false
}

/// Adds the entry of the next line unless its mount point is already known.
#[verifier::rlimit(60)]
fn add_mount(out: &mut Vec<MountEntry>, e: MountEntry, Ghost(parsed): Ghost<Seq<MountView>>)
    requires
        mounts_ok(old(out)@, parsed),
    ensures
        mounts_ok(final(out)@, parsed.push(mount_view(e))),
{
    let ghost parsed2 = parsed.push(mount_view(e));
    let ghost pv = points_of(mount_views(old(out)@));
    proof {
        lemma_points_push(parsed, mount_view(e));
    }
    assert forall|k: int| 0 <= k < old(out)@.len() implies exists|i: int| first_of_point(parsed2, i) && #[trigger] mount_view(old(out)@[k]) == parsed2[i] by {
        let i = choose|i: int| first_of_point(parsed, i) && #[trigger] mount_view(old(out)@[k]) == parsed[i];
        assert(parsed2[i] == parsed[i]);
        assert forall|j: int| 0 <= j < i implies (#[trigger] parsed2[j]).mount_point != parsed2[i].mount_point by {
            assert(parsed2[j] == parsed[j]);
        }
    }
    let n = out.len();
    if has_point(out, e.mount_point.as_str()) {
        proof {
            let q = choose|q: int| 0 <= q < out@.len() && out@[q].mount_point@ == e.mount_point@;
            assert(pv[q] == e.mount_point@);
            assert(pv.to_set().contains(e.mount_point@));
            assert forall|x: Seq<char>| points_of(parsed2).to_set().contains(x) == points_of(parsed).to_set().contains(x) by {
                if points_of(parsed2).contains(x) {
                    let r = choose|r: int| 0 <= r < points_of(parsed2).len() && points_of(parsed2)[r] == x;
                    if r < parsed.len() {
                        assert(points_of(parsed)[r] == x);
                    }
                }
                if points_of(parsed).contains(x) {
                    let r = choose|r: int| 0 <= r < points_of(parsed).len() && points_of(parsed)[r] == x;
                    assert(points_of(parsed2)[r] == x);
                }
            }
            assert(points_of(parsed2).to_set() =~= points_of(parsed).to_set());
        }
        return;
    }
    proof {
        assert(!pv.to_set().contains(e.mount_point@)) by {
            if pv.contains(e.mount_point@) {
                let q = choose|q: int| 0 <= q < pv.len() && pv[q] == e.mount_point@;
                assert(out@[q].mount_point@ == e.mount_point@);
            }
        }
    }
    let mut k: usize = 0;
    while k < n && str_lt(out[k].mount_point.as_str(), e.mount_point.as_str())
        invariant
            n == out@.len(),
            out@ == old(out)@,
            pv == points_of(mount_views(out@)),
            k <= n,
            k > 0 ==> seq_lt(out@[k - 1].mount_point@, e.mount_point@),
        decreases n - k,
    {
        k = k + 1;
    }
    proof {
        if k < n {
            crate::network::lemma_seq_lt_total(out@[k as int].mount_point@, e.mount_point@);
            assert(pv[k as int] == out@[k as int].mount_point@);
            assert(seq_lt(e.mount_point@, pv[k as int]));
        }
        if k > 0 {
            assert(pv[k - 1] == out@[k - 1].mount_point@);
            assert(seq_lt(pv[k - 1], e.mount_point@));
        }
        assert(strictly_sorted(pv));
    }
    let ghost o0 = out@;
    let ghost ev = mount_view(e);
    out.insert(k, e);
    proof {
        let np = points_of(mount_views(out@));
        assert(np =~= pv.insert(k as int, ev.mount_point));
        assert forall|q: int| 0 <= q < np.len() - 1 implies seq_lt(#[trigger] np[q], np[q + 1]) by {
            if q < k - 1 {
                assert(np[q] == pv[q] && np[q + 1] == pv[q + 1]);
            } else if q == k - 1 {
                assert(np[q] == pv[q]);
            } else if q == k {
                assert(np[q + 1] == pv[q]);
            } else {
                assert(np[q] == pv[q - 1] && np[q + 1] == pv[q]);
            }
        }
        lemma_insert_point_set(pv, k as int, ev.mount_point, points_of(parsed));
        assert(strictly_sorted(np));
        assert(np.to_set() =~= points_of(parsed2).to_set());
        assert forall|q: int| 0 <= q < out@.len() implies exists|i: int| first_of_point(parsed2, i) && #[trigger] mount_view(out@[q]) == parsed2[i] by {
            assert(o0 == old(out)@);
            if q < k {
                assert(out@[q] == o0[q]);
                assert(mount_view(out@[q]) == mount_view(old(out)@[q]));
            } else if q > k {
                assert(out@[q] == o0[q - 1]);
                assert(mount_view(out@[q]) == mount_view(old(out)@[q - 1]));
            } else {
                let i = parsed.len() as int;
                assert(parsed2[i] == ev);
                assert forall|j: int| 0 <= j < i implies (#[trigger] parsed2[j]).mount_point != parsed2[i].mount_point by {
                    assert(parsed2[j] == parsed[j]);
                    assert(points_of(parsed)[j] == parsed[j].mount_point);
                    assert(points_of(parsed).to_set().contains(parsed[j].mount_point));
                }
                assert(first_of_point(parsed2, i));
            }
        }
        assert(entries_first(out@, parsed2));
        assert(parsed2 == parsed.push(mount_view(e)));
        assert(np == points_of(mount_views(out@)));
        assert(strictly_sorted(points_of(mount_views(out@))));
        assert(points_of(mount_views(out@)).to_set() == points_of(parsed2).to_set());
        assert(mounts_ok(out@, parsed2));
    }
}


/// Space and inode figures of a mounted filesystem; ratios in millionths.
#[derive(Debug, Clone, Copy, PartialEq, Eq)]
pub struct MountStat {
    pub total_bytes: u64,
    pub used_bytes: u64,
    pub available_bytes: u64,
    pub usage_ppm: u32,
    pub inodes_total: Option<u64>,
    pub inodes_used: Option<u64>,
    pub inodes_available: Option<u64>,
    pub inodes_usage_ppm: Option<u32>,
}

/// `a * b`, capped at the largest 64-bit value.
pub open spec fn sat_mul(a: u64, b: u64) -> u64 {
    if a * b > u64::MAX {
        u64::MAX
    } else {
        (a * b) as u64
    }
}

/// `a - b`, floored at zero.
pub open spec fn sat_sub(a: u64, b: u64) -> u64 {
    if a >= b {
        (a - b) as u64
    } else {
        0
    }
}

/// `part / whole` in millionths, rounded half up (`whole > 0`, `part <= whole`).
pub open spec fn ratio_ppm(part: u64, whole: u64) -> u32 {
    ((part * 1_000_000 + whole / 2) / (whole as int)) as u32
}

fn saturating_mul(a: u64, b: u64) -> (r: u64)
    ensures
        r == sat_mul(a, b),
{
    assert((a as int) * (b as int) <= 0xffff_ffff_ffff_ffff * 0xffff_ffff_ffff_ffff) by (nonlinear_arith)
        requires
            a <= 0xffff_ffff_ffff_ffffu64,
            b <= 0xffff_ffff_ffff_ffffu64,
    ;
    let p = (a as u128) * (b as u128);
    if p > 0xffff_ffff_ffff_ffffu128 {
        0xffff_ffff_ffff_ffff
    } else {
        p as u64
    }
}

fn ratio(part: u64, whole: u64) -> (r: u32)
    requires
        whole > 0,
        part <= whole,
    ensures
        r == ratio_ppm(part, whole),
{
    let q = ((part as u128) * 1_000_000 + (whole as u128) / 2) / (whole as u128);
    assert(q <= 1_000_000) by (nonlinear_arith)
        requires
            q == ((part as int) * 1_000_000 + (whole as int) / 2) / (whole as int),
            whole > 0,
            part <= whole,
    {
        assert((part as int) * 1_000_000 + (whole as int) / 2 < (whole as int) * 1_000_001);
    }
    q as u32
}

/// The figures of a filesystem from its `statvfs` counters: the fragment size (or the
/// block size where it is zero) times the block counts; inode figures only where the
/// filesystem has inodes.
pub fn mount_stat(
    frsize: u64,
    bsize: u64,
    blocks: u64,
    bavail: u64,
    files: u64,
    ffree: u64,
    favail: u64,
) -> (r: MountStat)
    ensures
        ({
            let block = if frsize > 0 { frsize } else { bsize };
            let total = sat_mul(blocks, block);
            let avail = sat_mul(bavail, block);
            let used = sat_sub(total, avail);
            &&& r.total_bytes == total
            &&& r.available_bytes == avail
            &&& r.used_bytes == used
            &&& r.usage_ppm == if total == 0 { 0 } else { ratio_ppm(used, total) }
            &&& r.inodes_total == if files > 0 { Some(files) } else { None }
            &&& r.inodes_used == if files > 0 { Some(sat_sub(files, ffree)) } else { None }
            &&& r.inodes_available == if files > 0 { Some(favail) } else { None }
            &&& r.inodes_usage_ppm == if files > 0 { Some(ratio_ppm(sat_sub(files, ffree), files)) } else { None }
        }),
{
    let block = if frsize > 0 { frsize } else { bsize };
    let total = saturating_mul(blocks, block);
    let avail = saturating_mul(bavail, block);
    let used = total.saturating_sub(avail);
    let usage_ppm = if total == 0 { 0 } else { ratio(used, total) };
    if files > 0 {
        let iused = files.saturating_sub(ffree);
        MountStat {
            total_bytes: total,
            used_bytes: used,
            available_bytes: avail,
            usage_ppm,
            inodes_total: Some(files),
            inodes_used: Some(iused),
            inodes_available: Some(favail),
            inodes_usage_ppm: Some(ratio(iused, files)),
        }
    } else {
        MountStat {
            total_bytes: total,
            used_bytes: used,
            available_bytes: avail,
            usage_ppm,
            inodes_total: None,
            inodes_used: None,
            inodes_available: None,
            inodes_usage_ppm: None,
        }
    }
}


/// Totals over the operating mounts.
#[derive(Debug, Clone, Copy, PartialEq, Eq)]
pub struct AggregateUsage {
    pub total_bytes: u64,
    pub used_bytes: u64,
    pub available_bytes: u64,
}

/// `a + b`, capped at the largest 64-bit value.
pub open spec fn sat_add(a: u64, b: u64) -> u64 {
    if a + b > u64::MAX {
        u64::MAX
    } else {
        (a + b) as u64
    }
}

/// A field of each figure, summed with saturation.
pub open spec fn sat_sum(ms: Seq<MountStat>, f: spec_fn(MountStat) -> u64) -> u64
    decreases ms.len(),
{
    if ms.len() == 0 {
        0
    } else {
        sat_add(sat_sum(ms.drop_last(), f), f(ms.last()))
    }
}

/// Sums the space figures of the mounts, saturating at the largest 64-bit value.
pub fn aggregate_usage(mounts: &[MountStat]) -> (r: AggregateUsage)
    ensures
        r.total_bytes == sat_sum(mounts@, |m: MountStat| m.total_bytes),
        r.used_bytes == sat_sum(mounts@, |m: MountStat| m.used_bytes),
        r.available_bytes == sat_sum(mounts@, |m: MountStat| m.available_bytes),
{
    let mut total: u64 = 0;
    let mut used: u64 = 0;
    let mut available: u64 = 0;
    let mut i: usize = 0;
    while i < mounts.len()
        invariant
            i <= mounts@.len(),
            total == sat_sum(mounts@.subrange(0, i as int), |m: MountStat| m.total_bytes),
            used == sat_sum(mounts@.subrange(0, i as int), |m: MountStat| m.used_bytes),
            available == sat_sum(mounts@.subrange(0, i as int), |m: MountStat| m.available_bytes),
        decreases mounts@.len() - i,
    {
        assert(mounts@.subrange(0, i + 1).drop_last() == mounts@.subrange(0, i as int));
        total = total.saturating_add(mounts[i].total_bytes);
        used = used.saturating_add(mounts[i].used_bytes);
        available = available.saturating_add(mounts[i].available_bytes);
        i = i + 1;
    }
    assert(mounts@.subrange(0, mounts@.len() as int) == mounts@);
    AggregateUsage { total_bytes: total, used_bytes: used, available_bytes: available }
}

} // verus!
