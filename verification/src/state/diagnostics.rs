//! Diagnostics of files, such as compiler errors, by source.

use vstd::prelude::*;

use crate::range::Range;
use crate::text::str_eq;

verus! {

/// Diagnostics by source, then by file path.
pub struct Diagnostics {
    pub sources: Vec<(DiagnosticSource, Vec<(String, Vec<Diagnostic>)>)>,
}

/// Counts of diagnostics by kind.
#[derive(Debug, Clone, Copy, PartialEq, Eq, Structural)]
pub struct DiagnosticStats {
    pub error_count: i32,
    pub warning_count: i32,
    pub other_count: i32,
}

/// Where diagnostics come from.
#[derive(Debug, Clone, Copy, PartialEq, Eq, Structural, Hash)]
pub enum DiagnosticSource {
    Lsp,
}

/// How serious a diagnostic is.
#[derive(Debug, Clone, Copy, PartialEq, Eq, Structural)]
pub enum DiagnosticKind {
    Error,
    Warning,
    Lint,
}

/// A diagnostic: its kind, the text it is about and its message.
pub struct Diagnostic {
    pub kind: DiagnosticKind,
    pub range: Range,
    pub message: String,
}

/// Every diagnostic with the path of its file, source by source, file by
/// file, in order.
pub open spec fn all_diagnostics(sources: Seq<(DiagnosticSource, Vec<(String, Vec<Diagnostic>)>)>) -> Seq<
    (Seq<char>, Diagnostic),
>
    decreases sources.len(),
{
    if sources.len() == 0 {
        Seq::empty()
    } else {
        all_diagnostics(sources.drop_last()) + file_diagnostics(sources.last().1@)
    }
}

/// Every diagnostic of a source with the path of its file, in order.
pub open spec fn file_diagnostics(files: Seq<(String, Vec<Diagnostic>)>) -> Seq<(Seq<char>, Diagnostic)>
    decreases files.len(),
{
    if files.len() == 0 {
        Seq::empty()
    } else {
        file_diagnostics(files.drop_last()) + files.last().1@.map_values(
            |d: Diagnostic| (files.last().0@, d),
        )
    }
}

/// The diagnostics of file `path`, source by source.
pub open spec fn diagnostics_of(path: Seq<char>, all: Seq<(Seq<char>, Diagnostic)>) -> Seq<Diagnostic>
    decreases all.len(),
{
    if all.len() == 0 {
        Seq::empty()
    } else {
        diagnostics_of(path, all.drop_last()) + (if all.last().0 == path {
            seq![all.last().1]
        } else {
            Seq::empty()
        })
    }
}

/// Number of diagnostics of a kind (`None` for the kinds other than errors
/// and warnings).
pub open spec fn count_kind(all: Seq<(Seq<char>, Diagnostic)>, kind: Option<DiagnosticKind>) -> int
    decreases all.len(),
{
    if all.len() == 0 {
        0
    } else {
        let k = all.last().1.kind;
        let matches = match kind {
            Some(x) => k == x,
            None => k == DiagnosticKind::Lint,
        };
        count_kind(all.drop_last(), kind) + if matches {
            1int
        } else {
            0int
        }
    }
}

impl Diagnostics {
    /// Every diagnostic with the path of its file.
    pub open spec fn all_spec(self) -> Seq<(Seq<char>, Diagnostic)> {
        all_diagnostics(self.sources@)
    }

    /// Every diagnostic with the path of its file (see `all_diagnostics`).
    pub fn iter(&self) -> (r: Vec<(&str, &Diagnostic)>)
        ensures
            r@.len() == self.all_spec().len(),
            forall|i: int|
                0 <= i < r@.len() ==> (#[trigger] r@[i]).0@ == self.all_spec()[i].0 && *r@[i].1
                    == self.all_spec()[i].1,
    {
        let mut r: Vec<(&str, &Diagnostic)> = Vec::new();
        let mut s: usize = 0;
        while s < self.sources.len()
            invariant
                s <= self.sources@.len(),
                r@.len() == all_diagnostics(self.sources@.take(s as int)).len(),
                forall|i: int|
                    0 <= i < r@.len() ==> (#[trigger] r@[i]).0@ == all_diagnostics(self.sources@.take(s as int))[i].0
                        && *r@[i].1 == all_diagnostics(self.sources@.take(s as int))[i].1,
            decreases self.sources@.len() - s,
        {
            let files = &self.sources[s].1;
            let ghost before = r@;
            let mut f: usize = 0;
            while f < files.len()
                invariant
                    f <= files@.len(),
                    files@ == self.sources@[s as int].1@,
                    r@.len() == before.len() + file_diagnostics(files@.take(f as int)).len(),
                    forall|i: int| 0 <= i < before.len() ==> r@[i] == before[i],
                    forall|i: int|
                        0 <= i < file_diagnostics(files@.take(f as int)).len() ==> (#[trigger] r@[before.len()
                            + i]).0@ == file_diagnostics(files@.take(f as int))[i].0 && *r@[before.len() + i].1
                            == file_diagnostics(files@.take(f as int))[i].1,
                decreases files@.len() - f,
            {
                let path = files[f].0.as_str();
                let diags = &files[f].1;
                let ghost mid = r@;
                let ghost fd = file_diagnostics(files@.take(f as int));
                let mut d: usize = 0;
                while d < diags.len()
                    invariant
                        d <= diags@.len(),
                        diags@ == files@[f as int].1@,
                        path@ == files@[f as int].0@,
                        r@.len() == mid.len() + d,
                        forall|i: int| 0 <= i < mid.len() ==> r@[i] == mid[i],
                        forall|i: int| 0 <= i < d ==> (#[trigger] r@[mid.len() + i]).0@ == path@ && *r@[mid.len() + i].1 == diags@[i],
                    decreases diags@.len() - d,
                {
                    r.push((path, &diags[d]));
                    d += 1;
                }
                proof {
                    let t = files@.take(f + 1);
                    assert(t.drop_last() =~= files@.take(f as int));
                    assert(t.last() == files@[f as int]);
                    let m = diags@.map_values(|x: Diagnostic| (path@, x));
                    assert(file_diagnostics(t) == fd + m);
                    let nfd = file_diagnostics(t);
                    assert forall|i: int| 0 <= i < nfd.len() implies (#[trigger] r@[before.len() + i]).0@
                        == nfd[i].0 && *r@[before.len() + i].1 == nfd[i].1 by {
                        if i < fd.len() {
                            assert(r@[before.len() + i] == mid[before.len() + i]);
                        } else {
                            let k = i - fd.len();
                            assert(r@[mid.len() + k].0@ == path@);
                            assert(nfd[i] == m[k]);
                        }
                    }
                }
                f += 1;
            }
            proof {
                let t = self.sources@.take(s + 1);
                assert(t.drop_last() =~= self.sources@.take(s as int));
                assert(files@.take(f as int) =~= files@);
                let prev = all_diagnostics(self.sources@.take(s as int));
                let fdall = file_diagnostics(files@);
                assert(all_diagnostics(t) == prev + fdall);
                let na = all_diagnostics(t);
                assert forall|i: int| 0 <= i < na.len() implies (#[trigger] r@[i]).0@ == na[i].0 && *r@[i].1
                    == na[i].1 by {
                    if i < prev.len() {
                        assert(r@[i] == before[i]);
                    } else {
                        let k = i - prev.len();
                        assert(r@[before.len() + k].0@ == fdall[k].0);
                    }
                }
            }
            s += 1;
        }
        proof {
            assert(self.sources@.take(s as int) =~= self.sources@);
        }
        r
    }

    /// The diagnostics of file `path` (see `diagnostics_of`).
    pub fn for_file(&self, path: &str) -> (r: Vec<&Diagnostic>)
        ensures
            r@.len() == diagnostics_of(path@, self.all_spec()).len(),
            forall|i: int| 0 <= i < r@.len() ==> *(#[trigger] r@[i]) == diagnostics_of(path@, self.all_spec())[i],
    {
        let all = self.iter();
        let mut r: Vec<&Diagnostic> = Vec::new();
        let mut i: usize = 0;
        let ghost a = self.all_spec();
        while i < all.len()
            invariant
                i <= all@.len(),
                all@.len() == a.len(),
                forall|j: int| 0 <= j < all@.len() ==> (#[trigger] all@[j]).0@ == a[j].0 && *all@[j].1 == a[j].1,
                r@.len() == diagnostics_of(path@, a.take(i as int)).len(),
                forall|j: int| 0 <= j < r@.len() ==> *(#[trigger] r@[j]) == diagnostics_of(path@, a.take(i as int))[j],
            decreases all@.len() - i,
        {
            let (p, d) = all[i];
            if str_eq(p, path) {
                r.push(d);
            }
            proof {
                let t = a.take(i + 1);
                assert(t.drop_last() =~= a.take(i as int));
                assert(t.last() == a[i as int]);
                assert(all@[i as int] == (p, d));
            }
            i += 1;
        }
        proof {
            assert(a.take(i as int) =~= a);
        }
        r
    }

    /// The number of errors, of warnings and of other diagnostics.
    pub fn stats(&self) -> (r: DiagnosticStats)
        requires
            self.all_spec().len() <= i32::MAX,
        ensures
            r.error_count == count_kind(self.all_spec(), Some(DiagnosticKind::Error)),
            r.warning_count == count_kind(self.all_spec(), Some(DiagnosticKind::Warning)),
            r.other_count == count_kind(self.all_spec(), None),
    {
        let all = self.iter();
        let ghost a = self.all_spec();
        let mut stats = DiagnosticStats { error_count: 0, warning_count: 0, other_count: 0 };
        let mut i: usize = 0;
        while i < all.len()
            invariant
                i <= all@.len(),
                all@.len() == a.len(),
                a.len() <= i32::MAX,
                forall|j: int| 0 <= j < all@.len() ==> *(#[trigger] all@[j]).1 == a[j].1,
                stats.error_count == count_kind(a.take(i as int), Some(DiagnosticKind::Error)),
                stats.warning_count == count_kind(a.take(i as int), Some(DiagnosticKind::Warning)),
                stats.other_count == count_kind(a.take(i as int), None),
                stats.error_count + stats.warning_count + stats.other_count == i,
                stats.error_count >= 0 && stats.warning_count >= 0 && stats.other_count >= 0,
            decreases all@.len() - i,
        {
            let d = all[i].1;
            proof {
                let t = a.take(i + 1);
                assert(t.drop_last() =~= a.take(i as int));
                assert(t.last() == a[i as int]);
                assert(*all@[i as int].1 == a[i as int].1);
            }
            match d.kind {
                DiagnosticKind::Error => stats.error_count += 1,
                DiagnosticKind::Warning => stats.warning_count += 1,
                _ => stats.other_count += 1,
            }
            i += 1;
        }
        proof {
            assert(a.take(i as int) =~= a);
        }
        stats
    }
}

} // verus!
