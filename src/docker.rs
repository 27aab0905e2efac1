//! Values taken from the container engine's answers.

use vstd::prelude::*;
use crate::text::{owned, views};
use vstd::string::StrSliceExecFns;

verus! {

/// A size as the engine reports it: negative values mean unknown.
pub fn normalize_size(value: Option<i64>) -> (r: Option<u64>)
    ensures
        r == match value {
            Some(v) => if v >= 0 { Some(v as u64) } else { None },
            None => None,
        },
{
    match value {
        Some(size) => if size >= 0 { Some(size as u64) } else { None },
        None => None,
    }
}

/// `s` without its leading copies of `c`.
pub open spec fn strip_leading(s: Seq<char>, c: char) -> Seq<char>
    decreases s.len(),
{
    if s.len() > 0 && s[0] == c {
        strip_leading(s.drop_first(), c)
    } else {
        s
    }
}

pub fn strip_slashes(s: &str) -> (r: String)
    ensures
        r@ == strip_leading(s@, '/'),
{
    let n = s.unicode_len();
    let mut i: usize = 0;
    assert(s@.subrange(0, n as int) == s@);
    while i < n && s.get_char(i) == '/'
        invariant
            n == s@.len(),
            i <= n,
            strip_leading(s@, '/') == strip_leading(s@.subrange(i as int, n as int), '/'),
        decreases n - i,
    {
        assert(s@.subrange(i as int, n as int).drop_first() == s@.subrange(i + 1, n as int));
        i = i + 1;
    }
    owned(s.substring_char(i, n))
}

/// Container names without the leading slashes the engine puts before them.
pub fn clean_names(raw: Option<Vec<String>>) -> (r: Vec<String>)
    ensures
        views(r@) == match raw {
            Some(v) => views(v@).map_values(|n: Seq<char>| strip_leading(n, '/')),
            None => Seq::empty(),
        },
{
    match raw {
        None => {
            let r: Vec<String> = Vec::new();
            assert(views(r@) =~= Seq::<Seq<char>>::empty());
            r
        },
        Some(names) => {
            let mut out: Vec<String> = Vec::new();
            let mut i: usize = 0;
            while i < names.len()
                invariant
                    i <= names@.len(),
                    views(out@) == views(names@).subrange(0, i as int).map_values(
                        |n: Seq<char>| strip_leading(n, '/'),
                    ),
                decreases names@.len() - i,
            {
                let c = strip_slashes(names[i].as_str());
                proof {
                    crate::text::lemma_views_push(out@, c);
                }
                out.push(c);
                assert(views(out@) =~= views(names@).subrange(0, i + 1).map_values(
                    |n: Seq<char>| strip_leading(n, '/'),
                ));
                i = i + 1;
            }
            assert(views(names@).subrange(0, names@.len() as int) == views(names@));
            out
        },
    }
}

} // verus!
