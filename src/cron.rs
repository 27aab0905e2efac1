//! Scheduled jobs: lines of the system crontab and of the cron drop-in directory.

use vstd::prelude::*;
use crate::text::{
    decimal, decimal_of, has_prefix, join_of, join_range, lines, lines_of, owned, starts_with,
    trim, trim_of, views, words, words_of,
};
use vstd::string::StrSliceExecFns;
use vstd::string::StringExecFns;

verus! {

/// One scheduled job.
#[derive(Debug, Clone, PartialEq, Eq)]
pub struct CronEntry {
    pub schedule: String,
    pub user: String,
    pub command: String,
}

/// The jobs of one file of the drop-in directory.
#[derive(Debug, Clone, PartialEq, Eq)]
pub struct CronFileSummary {
    pub path: String,
    pub entries: Vec<CronEntry>,
}

/// Why a crontab line yields no job.
#[derive(Debug, Clone, Copy, PartialEq, Eq, Structural)]
pub enum CronLineError {
    Ignored,
    MissingHour,
    MissingDay,
    MissingMonth,
    MissingWeekday,
    MissingUser,
    MissingCommand,
}

impl CronLineError {
    /// A short description of the error.
    pub open spec fn text(&self) -> Seq<char> {
        match self {
            CronLineError::Ignored => "ignored line"@,
            CronLineError::MissingHour => "missing hour"@,
            CronLineError::MissingDay => "missing day"@,
            CronLineError::MissingMonth => "missing month"@,
            CronLineError::MissingWeekday => "missing weekday"@,
            CronLineError::MissingUser => "missing user"@,
            CronLineError::MissingCommand => "missing command"@,
        }
    }

    /// A short description of the error.
    pub fn as_str(&self) -> (r: &'static str)
        ensures
            r@ == self.text(),
    {
        match self {
            CronLineError::Ignored => "ignored line",
            CronLineError::MissingHour => "missing hour",
            CronLineError::MissingDay => "missing day",
            CronLineError::MissingMonth => "missing month",
            CronLineError::MissingWeekday => "missing weekday",
            CronLineError::MissingUser => "missing user",
            CronLineError::MissingCommand => "missing command",
        }
    }
}

/// The error of a crontab line, `None` for a job. A schedule is a macro such as `@daily`
/// or five time fields; a user and a non-empty command follow.
pub open spec fn cron_check(line: Seq<char>) -> Option<CronLineError> {
    let t = trim_of(line);
    let ws = words_of(t);
    if t.len() == 0 || has_prefix(t, "#"@) || ws.len() == 0 {
        Some(CronLineError::Ignored)
    } else if has_prefix(ws[0], "@"@) {
        if ws.len() < 2 {
            Some(CronLineError::MissingUser)
        } else if join_of(ws.subrange(2, ws.len() as int), " "@).len() == 0 {
            Some(CronLineError::MissingCommand)
        } else {
            None
        }
    } else if ws.len() < 2 {
        Some(CronLineError::MissingHour)
    } else if ws.len() < 3 {
        Some(CronLineError::MissingDay)
    } else if ws.len() < 4 {
        Some(CronLineError::MissingMonth)
    } else if ws.len() < 5 {
        Some(CronLineError::MissingWeekday)
    } else if ws.len() < 6 {
        Some(CronLineError::MissingUser)
    } else if join_of(ws.subrange(6, ws.len() as int), " "@).len() == 0 {
        Some(CronLineError::MissingCommand)
    } else {
        None
    }
}

/// `e` is the job of a valid crontab line.
pub open spec fn cron_of_line(line: Seq<char>, e: CronEntry) -> bool {
    let ws = words_of(trim_of(line));
    if has_prefix(ws[0], "@"@) {
        &&& e.schedule@ == ws[0]
        &&& e.user@ == ws[1]
        &&& e.command@ == join_of(ws.subrange(2, ws.len() as int), " "@)
    } else {
        &&& e.schedule@ == join_of(ws.subrange(0, 5), " "@)
        &&& e.user@ == ws[5]
        &&& e.command@ == join_of(ws.subrange(6, ws.len() as int), " "@)
    }
}

/// The job of one crontab line.
pub fn parse_cron_line(line: &str) -> (r: Result<CronEntry, CronLineError>)
    ensures
        match r {
            Ok(e) => cron_check(line@) is None && cron_of_line(line@, e),
            Err(err) => cron_check(line@) == Some(err),
        },
{
    let t = trim(line);
    if t.as_str().unicode_len() == 0 || starts_with(t.as_str(), "#") {
        return Err(CronLineError::Ignored);
    }
    let ws = words(t.as_str());
    let n = ws.len();
    if n == 0 {
        return Err(CronLineError::Ignored);
    }
    if starts_with(ws[0].as_str(), "@") {
        if n < 2 {
            return Err(CronLineError::MissingUser);
        }
        let command = join_range(&ws, 2, n, " ");
        if command.as_str().unicode_len() == 0 {
            return Err(CronLineError::MissingCommand);
        }
        return Ok(CronEntry {
            schedule: owned(ws[0].as_str()),
            user: owned(ws[1].as_str()),
            command,
        });
    }
    if n < 2 {
        return Err(CronLineError::MissingHour);
    }
    if n < 3 {
        return Err(CronLineError::MissingDay);
    }
    if n < 4 {
        return Err(CronLineError::MissingMonth);
    }
    if n < 5 {
        return Err(CronLineError::MissingWeekday);
    }
    if n < 6 {
        return Err(CronLineError::MissingUser);
    }
    let command = join_range(&ws, 6, n, " ");
    if command.as_str().unicode_len() == 0 {
        return Err(CronLineError::MissingCommand);
    }
    Ok(CronEntry {
        schedule: join_range(&ws, 0, 5, " "),
        user: owned(ws[5].as_str()),
        command,
    })
}

/// The job lines among `ls`, in order.
pub open spec fn cron_lines(ls: Seq<Seq<char>>) -> Seq<Seq<char>>
    decreases ls.len(),
{
    if ls.len() == 0 {
        Seq::empty()
    } else {
        cron_lines(ls.drop_last()) + if cron_check(ls.last()) is None {
            seq![ls.last()]
        } else {
            Seq::empty()
        }
    }
}

/// The jobs of a crontab; other lines are skipped.
pub fn parse_crontab(content: &str) -> (r: Vec<CronEntry>)
    ensures
        r@.len() == cron_lines(lines_of(content@)).len(),
        forall|i: int|
            0 <= i < r@.len() ==> cron_of_line(cron_lines(lines_of(content@))[i], #[trigger] r@[i]),
{
    let ls = lines(content);
    let ghost lv = views(ls@);
    let mut out: Vec<CronEntry> = Vec::new();
    let mut i: usize = 0;
    while i < ls.len()
        invariant
            lv == views(ls@),
            i <= ls@.len(),
            out@.len() == cron_lines(lv.subrange(0, i as int)).len(),
            forall|j: int|
                0 <= j < out@.len() ==> cron_of_line(cron_lines(lv.subrange(0, i as int))[j], #[trigger] out@[j]),
        decreases ls@.len() - i,
    {
        let ghost pre = cron_lines(lv.subrange(0, i as int));
        assert(lv.subrange(0, i + 1).drop_last() == lv.subrange(0, i as int));
        assert(lv.subrange(0, i + 1).last() == ls@[i as int]@);
        match parse_cron_line(ls[i].as_str()) {
            Ok(e) => {
                out.push(e);
                assert forall|j: int| 0 <= j < out@.len() implies cron_of_line(cron_lines(lv.subrange(0, i + 1))[j], #[trigger] out@[j]) by {
                    if j < pre.len() {
                        assert(cron_lines(lv.subrange(0, i + 1))[j] == pre[j]);
                    }
                }
            },
            Err(_) => {
                assert(cron_lines(lv.subrange(0, i + 1)) == pre + Seq::<Seq<char>>::empty());
                assert(pre + Seq::<Seq<char>>::empty() == pre);
            },
        }
        i = i + 1;
    }
    assert(lv.subrange(0, ls@.len() as int) == lv);
    out
}

/// The jobs of the host.
#[derive(Debug, Clone, PartialEq, Eq)]
pub struct CronSnapshot {
    pub system_entries: Vec<CronEntry>,
    pub cron_d: Vec<CronFileSummary>,
}

/// The number of jobs in a list of files.
pub open spec fn file_entries(fs: Seq<CronFileSummary>) -> nat
    decreases fs.len(),
{
    if fs.len() == 0 {
        0
    } else {
        file_entries(fs.drop_last()) + fs.last().entries@.len()
    }
}

impl CronSnapshot {
    /// The one-line summary: how many jobs there are in all.
    pub fn summary(&self) -> (r: String)
        ensures
            r@ == decimal_of(self.system_entries@.len() + file_entries(self.cron_d@))
                + " cron entries"@,
    {
        let fs = &self.cron_d;
        let mut total: u128 = self.system_entries.len() as u128;
        let mut i: usize = 0;
        while i < fs.len()
            invariant
                i <= fs@.len(),
                total == self.system_entries@.len() + file_entries(fs@.subrange(0, i as int)),
                total <= (i + 1) * (usize::MAX as int),
            decreases fs@.len() - i,
        {
            assert(fs@.subrange(0, i + 1).drop_last() == fs@.subrange(0, i as int));
            let len = fs[i].entries.len();
            assert(total + len <= (i + 2) * (usize::MAX as int)) by (nonlinear_arith)
                requires
                    total <= (i + 1) * (usize::MAX as int),
                    len <= usize::MAX,
            ;
            assert((i + 2) * (usize::MAX as int) <= u128::MAX) by (nonlinear_arith)
                requires
                    i < usize::MAX,
            ;
            total = total + len as u128;
            i = i + 1;
        }
        assert(fs@.subrange(0, fs@.len() as int) == fs@);
        let mut r = decimal(total);
        r.append(" cron entries");
        r
    }
}

} // verus!
