//! The versions of the archive database.

use crate::db::rows::{JobRow, JobView};
use crate::error::AppError;
use crate::paths::with_slashes;
use crate::text::{chars_of, owned, push_chars};
use vstd::prelude::*;
use vstd::slice::slice_subrange;

verus! {

/// The version of the database that this program writes.
pub const HEAD_VERSION: u32 = 13;

/// An archive that a later version of the program wrote is refused.
pub fn check_version(found: i64) -> (r: Result<(), AppError>)
    ensures
        match r {
            Ok(_) => found <= HEAD_VERSION,
            Err(e) => found > HEAD_VERSION && (e matches AppError::ArchiveSchemaTooNew {
                found: f,
                expected,
            } && f == found && expected == HEAD_VERSION),
        },
{
    if found > HEAD_VERSION as i64 {
        return Err(AppError::ArchiveSchemaTooNew { found, expected: HEAD_VERSION as i64 });
    }
    Ok(())
}

/// What follows the last `/`; everything where there is none.
pub open spec fn last_name(p: Seq<char>) -> Seq<char>
    decreases p.len(),
{
    if p.len() == 0 || p.last() == '/' {
        Seq::empty()
    } else {
        last_name(p.drop_last()).push(p.last())
    }
}

/// The archive-relative form of an output path: its file name is kept, and the
/// directory is that of the timelapses.
pub open spec fn relative_output(p: Seq<char>) -> Seq<char> {
    "Timelapses/"@ + last_name(crate::paths::slashed(p))
}

/// The archive-relative form of an output path.
pub fn relativize_output(p: &str) -> (r: String)
    ensures
        r@ == relative_output(p@),
{
    let v = with_slashes(&chars_of(p));
    let n: usize = v.len();
    let mut i: usize = n;
    proof {
        assert(v@.take(n as int) == v@);
        assert(last_name(v@.take(n as int)) + v@.subrange(n as int, n as int) == last_name(v@));
    }
    while i > 0 && v[i - 1] != '/'
        invariant
            i <= n,
            n == v.len(),
            v@ == crate::paths::slashed(p@),
            last_name(v@.take(i as int)) + v@.subrange(i as int, n as int) == last_name(v@),
        decreases i,
    {
        proof {
            let a = v@.take(i as int);
            assert(a.drop_last() == v@.take(i - 1));
            assert(last_name(a) == last_name(v@.take(i - 1)).push(v@[i - 1]));
            assert(last_name(v@.take(i - 1)) + v@.subrange(i - 1, n as int) == last_name(a)
                + v@.subrange(i as int, n as int));
        }
        i -= 1;
    }
    proof {
        assert(last_name(v@.take(i as int)) == Seq::<char>::empty());
        assert(v@.subrange(i as int, n as int) == last_name(v@));
    }
    let mut s = owned("Timelapses/");
    push_chars(&mut s, slice_subrange(v.as_slice(), i, n));
    s
}

/// The row with its output path in archive-relative form.
pub open spec fn with_relative_output(r: JobView) -> JobView {
    JobView {
        output_path: match r.output_path {
            Some(p) => Some(relative_output(p)),
            None => None,
        },
        ..r
    }
}

/// Brings all output paths into archive-relative form.
pub fn relativize_outputs(jobs: Vec<JobRow>) -> (r: Vec<JobRow>)
    ensures
        crate::db::rows::job_rows(r@) == crate::db::rows::job_rows(jobs@).map_values(
            |x: JobView| with_relative_output(x),
        ),
{
    let ghost all = jobs@;
    let ghost av = crate::db::rows::job_rows(jobs@);
    let ghost wanted = av.map_values(|x: JobView| with_relative_output(x));
    let mut out: Vec<JobRow> = Vec::new();
    let ghost mut n: int = 0;
    for x in it: jobs
        invariant
            it.seq() == all,
            n == it.index(),
            av == crate::db::rows::job_rows(all),
            wanted == av.map_values(|x: JobView| with_relative_output(x)),
            crate::db::rows::job_rows(out@) == wanted.take(n),
    {
        proof {
            assert(av[n] == x@);
        }
        let mut y = x;
        if let Some(p) = &y.output_path {
            let rel = relativize_output(p.as_str());
            y.output_path = Some(rel);
        }
        let ghost before = out@;
        let ghost yv = y@;
        out.push(y);
        proof {
            assert(yv == wanted[n]);
            assert(crate::db::rows::job_rows(out@) == crate::db::rows::job_rows(before).push(yv));
            assert(wanted.take(n + 1) == wanted.take(n).push(yv));
            n = n + 1;
        }
    }
    proof {
        assert(wanted.take(wanted.len() as int) == wanted);
    }
    out
}

proof fn lemma_last_name_of_name(s: Seq<char>)
    ensures
        last_name(last_name(s)) == last_name(s),
        forall|i: int| 0 <= i < last_name(s).len() ==> #[trigger] last_name(s)[i] != '/',
        forall|d: Seq<char>|
            d.len() > 0 && d.last() == '/' ==> #[trigger] last_name(d + last_name(s)) == last_name(s),
    decreases s.len(),
{
    if s.len() > 0 && s.last() != '/' {
        let u = s.drop_last();
        lemma_last_name_of_name(u);
        let n = last_name(s);
        assert(n.drop_last() == last_name(u));
        assert forall|d: Seq<char>| d.len() > 0 && d.last() == '/' implies #[trigger] last_name(
            d + n,
        ) == n by {
            assert((d + n).drop_last() == d + last_name(u));
            assert(last_name(d + last_name(u)) == last_name(u));
        }
    } else {
        assert forall|d: Seq<char>| d.len() > 0 && d.last() == '/' implies #[trigger] last_name(
            d + last_name(s),
        ) == last_name(s) by {
            assert(d + last_name(s) == d);
        }
    }
}

/// The file name of an output is never touched, and bringing a path into
/// archive-relative form a second time changes nothing.
pub proof fn relative_outputs_keep_their_names(p: Seq<char>)
    ensures
        last_name(relative_output(p)) == last_name(crate::paths::slashed(p)),
        relative_output(relative_output(p)) == relative_output(p),
{
    let t = crate::paths::slashed(p);
    reveal_strlit("Timelapses/");
    lemma_last_name_of_name(t);
    assert(last_name("Timelapses/"@ + last_name(t)) == last_name(t));
    assert(crate::paths::slashed(relative_output(p)) == relative_output(p)) by {
        assert(relative_output(p)[0] == 'T' && relative_output(p)[1] == 'i');
    }
}

} // verus!
