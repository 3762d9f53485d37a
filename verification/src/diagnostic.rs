use vstd::prelude::*;

use crate::text::texts;

verus! {

/// How serious a diagnostic is.
#[derive(Debug, Clone, Copy, PartialEq, Eq, Structural)]
pub enum Severity {
    Error,
    Warning,
    Info,
}

/// The lower-case word a severity is rendered as.
pub open spec fn severity_word(severity: Severity) -> Seq<char> {
    match severity {
        Severity::Error => "error"@,
        Severity::Warning => "warning"@,
        Severity::Info => "info"@,
    }
}

impl Severity {
    /// The lower-case word for this severity.
    pub fn label(self) -> (r: &'static str)
        ensures
            r@ == severity_word(self),
    {
        match self {
            Severity::Error => "error",
            Severity::Warning => "warning",
            Severity::Info => "info",
        }
    }
}

/// A position in a file: a start line and column, and optionally where it ends.
#[derive(Debug, Clone, Copy, PartialEq, Eq, Structural)]
pub struct Span {
    pub line: u32,
    pub column: u32,
    pub end_line: Option<u32>,
    pub end_column: Option<u32>,
}

/// A single normalized diagnostic. Every parser maps its tool's output into
/// this shape; every formatter renders out of it.
#[derive(Debug, Clone)]
pub struct Diagnostic {
    pub source: String,
    pub severity: Severity,
    pub file: Option<String>,
    pub span: Option<Span>,
    pub code: Option<String>,
    pub message: String,
}

/// A diagnostic with its texts seen as character sequences.
pub struct DiagnosticView {
    pub source: Seq<char>,
    pub severity: Severity,
    pub file: Option<Seq<char>>,
    pub span: Option<Span>,
    pub code: Option<Seq<char>>,
    pub message: Seq<char>,
}

/// The characters of an optional string.
pub open spec fn text_opt(o: Option<String>) -> Option<Seq<char>> {
    match o {
        Some(s) => Some(s@),
        None => None,
    }
}

impl View for Diagnostic {
    type V = DiagnosticView;

    open spec fn view(&self) -> DiagnosticView {
        DiagnosticView {
            source: self.source@,
            severity: self.severity,
            file: text_opt(self.file),
            span: self.span,
            code: text_opt(self.code),
            message: self.message@,
        }
    }
}

/// The views of a sequence of diagnostics.
pub open spec fn views(ds: Seq<Diagnostic>) -> Seq<DiagnosticView> {
    ds.map_values(|d: Diagnostic| d@)
}

/// Counts of diagnostics by severity, and the number of distinct files named.
#[derive(Debug, Clone, Copy, PartialEq, Eq, Structural)]
pub struct Summary {
    pub errors: usize,
    pub warnings: usize,
    pub infos: usize,
    pub files: usize,
}

impl Default for Summary {
    fn default() -> (r: Summary)
        ensures
            r == (Summary { errors: 0, warnings: 0, infos: 0, files: 0 }),
    {
        Summary { errors: 0, warnings: 0, infos: 0, files: 0 }
    }
}

/// How many diagnostics in `ds` have severity `severity`.
pub open spec fn severity_count(ds: Seq<DiagnosticView>, severity: Severity) -> nat {
    ds.filter(|d: DiagnosticView| d.severity == severity).len()
}

/// The files that the diagnostics in `ds` name.
pub open spec fn files_named(ds: Seq<DiagnosticView>) -> Set<Seq<char>> {
    Set::new(|f: Seq<char>| exists|i: int| 0 <= i < ds.len() && ds[i].file == Some(f))
}

/// Whether `s` is the summary of `ds`: its counts per severity, and the number
/// of distinct files named.
pub open spec fn summarizes(s: Summary, ds: Seq<DiagnosticView>) -> bool {
    &&& s.errors == severity_count(ds, Severity::Error)
    &&& s.warnings == severity_count(ds, Severity::Warning)
    &&& s.infos == severity_count(ds, Severity::Info)
    &&& s.files == files_named(ds).len()
}

/// What a summary accumulator has seen: counts by severity and the set of files.
pub struct Tally {
    pub errors: nat,
    pub warnings: nat,
    pub infos: nat,
    pub files: Set<Seq<char>>,
}

/// The empty tally.
pub open spec fn empty_tally() -> Tally {
    Tally { errors: 0, warnings: 0, infos: 0, files: Set::empty() }
}

/// The count a tally holds for one severity.
pub open spec fn tally_count(t: Tally, severity: Severity) -> nat {
    match severity {
        Severity::Error => t.errors,
        Severity::Warning => t.warnings,
        Severity::Info => t.infos,
    }
}

/// The tally after one more diagnostic.
pub open spec fn tally_step(t: Tally, d: DiagnosticView) -> Tally {
    let counted = match d.severity {
        Severity::Error => Tally { errors: t.errors + 1, ..t },
        Severity::Warning => Tally { warnings: t.warnings + 1, ..t },
        Severity::Info => Tally { infos: t.infos + 1, ..t },
    };
    match d.file {
        Some(f) => Tally { files: t.files.insert(f), ..counted },
        None => counted,
    }
}

/// The tally after the diagnostics of `ds`, in order, from the empty tally.
pub open spec fn tally_of(ds: Seq<DiagnosticView>) -> Tally
    decreases ds.len(),
{
    if ds.len() == 0 {
        empty_tally()
    } else {
        tally_step(tally_of(ds.drop_last()), ds.last())
    }
}

/// Tallying diagnostics one at a time, as they stream past, ends with the same
/// counts and the same set of files as summarizing them all at once.
pub proof fn lemma_tally_of(ds: Seq<DiagnosticView>)
    ensures
        tally_of(ds).errors == severity_count(ds, Severity::Error),
        tally_of(ds).warnings == severity_count(ds, Severity::Warning),
        tally_of(ds).infos == severity_count(ds, Severity::Info),
        tally_of(ds).files == files_named(ds),
        tally_of(ds).files.finite(),
    decreases ds.len(),
{
    broadcast use vstd::seq_lib::group_filter_ensures;
    if ds.len() == 0 {
        assert(files_named(ds) =~= Set::empty());
        assert(ds.filter(|d: DiagnosticView| d.severity == Severity::Error) =~= Seq::<DiagnosticView>::empty());
        assert(ds.filter(|d: DiagnosticView| d.severity == Severity::Warning) =~= Seq::<DiagnosticView>::empty());
        assert(ds.filter(|d: DiagnosticView| d.severity == Severity::Info) =~= Seq::<DiagnosticView>::empty());
    } else {
        let init = ds.drop_last();
        let d = ds.last();
        lemma_tally_of(init);
        assert(ds =~= init.push(d));
        init.lemma_filter_push(d, |x: DiagnosticView| x.severity == Severity::Error);
        init.lemma_filter_push(d, |x: DiagnosticView| x.severity == Severity::Warning);
        init.lemma_filter_push(d, |x: DiagnosticView| x.severity == Severity::Info);
        match d.file {
            Some(f) => {
                assert forall|g: Seq<char>| #[trigger] files_named(ds).contains(g) <==> files_named(init).insert(f).contains(g) by {
                    if files_named(ds).contains(g) {
                        let i = choose|i: int| 0 <= i < ds.len() && ds[i].file == Some(g);
                        if i < init.len() {
                            assert(init[i] == ds[i]);
                        }
                    }
                    if files_named(init).contains(g) {
                        let i = choose|i: int| 0 <= i < init.len() && init[i].file == Some(g);
                        assert(ds[i] == init[i]);
                    }
                    if g == f {
                        assert(ds[ds.len() - 1].file == Some(g));
                    }
                }
                assert(files_named(ds) =~= files_named(init).insert(f));
            },
            None => {
                assert forall|g: Seq<char>| #[trigger] files_named(ds).contains(g) <==> files_named(init).contains(g) by {
                    if files_named(ds).contains(g) {
                        let i = choose|i: int| 0 <= i < ds.len() && ds[i].file == Some(g);
                        if i < init.len() {
                            assert(init[i] == ds[i]);
                        }
                    }
                    if files_named(init).contains(g) {
                        let i = choose|i: int| 0 <= i < init.len() && init[i].file == Some(g);
                        assert(ds[i] == init[i]);
                    }
                }
                assert(files_named(ds) =~= files_named(init));
            },
        }
    }
}


/// Tallies diagnostics as they stream past, so the flat formatter can print a
/// summary without holding every diagnostic in memory.
pub struct SummaryAccumulator {
    errors: usize,
    warnings: usize,
    infos: usize,
    files: Vec<String>,
}

impl View for SummaryAccumulator {
    type V = Tally;

    closed spec fn view(&self) -> Tally {
        Tally {
            errors: self.errors as nat,
            warnings: self.warnings as nat,
            infos: self.infos as nat,
            files: texts(self.files@).to_set(),
        }
    }
}

impl SummaryAccumulator {
    /// The accumulator's invariant: each file is held once.
    pub closed spec fn wf(&self) -> bool {
        texts(self.files@).no_duplicates()
    }

    /// An accumulator that has seen nothing.
    pub fn new() -> (r: SummaryAccumulator)
        ensures
            r.wf(),
            r@ == empty_tally(),
    {
        let r = SummaryAccumulator { errors: 0, warnings: 0, infos: 0, files: Vec::new() };
        assert(texts(r.files@).to_set() =~= Set::<Seq<char>>::empty());
        r
    }

    /// Counts one more diagnostic and records the file it names.
    pub fn add(&mut self, diagnostic: &Diagnostic)
        requires
            old(self).wf(),
            tally_count(old(self)@, diagnostic.severity) < usize::MAX,
        ensures
            final(self).wf(),
            final(self)@ == tally_step(old(self)@, diagnostic@),
    {
        match diagnostic.severity {
            Severity::Error => self.errors = self.errors + 1,
            Severity::Warning => self.warnings = self.warnings + 1,
            Severity::Info => self.infos = self.infos + 1,
        }
        if let Some(file) = &diagnostic.file {
            let mut i: usize = 0;
            let mut found = false;
            while !found && i < self.files.len()
                invariant
                    i <= self.files@.len(),
                    found ==> i < self.files@.len() && texts(self.files@)[i as int] == file@,
                    !found ==> forall|k: int| 0 <= k < i ==> texts(self.files@)[k] != file@,
                decreases self.files@.len() - i, if found { 0int } else { 1int },
            {
                if self.files[i] == *file {
                    found = true;
                } else {
                    i += 1;
                }
            }
            let ghost before = texts(self.files@);
            if found {
                assert(before[i as int] == file@);
                assert(before.to_set().contains(file@));
                assert(before.to_set().insert(file@) =~= before.to_set());
            } else {
                self.files.push(file.clone());
                assert(texts(self.files@) =~= before.push(file@));
                assert forall|k: int| 0 <= k < before.len() implies before[k] != file@ by {}
                assert(!before.contains(file@));
                proof { before.lemma_push_to_set_commute(file@); }
            }
        }
    }

    /// The counts so far, and the number of distinct files seen.
    pub fn summary(&self) -> (r: Summary)
        requires
            self.wf(),
        ensures
            r.errors == self@.errors,
            r.warnings == self@.warnings,
            r.infos == self@.infos,
            r.files == self@.files.len(),
    {
        proof {
            texts(self.files@).unique_seq_to_set();
        }
        Summary {
            errors: self.errors,
            warnings: self.warnings,
            infos: self.infos,
            files: self.files.len(),
        }
    }
}

impl Default for SummaryAccumulator {
    fn default() -> (r: SummaryAccumulator)
        ensures
            r.wf(),
            r@ == empty_tally(),
    {
        SummaryAccumulator::new()
    }
}


/// The full result of running and parsing one tool invocation.
#[derive(Debug)]
pub struct Report {
    pub diagnostics: Vec<Diagnostic>,
    /// The wrapped tool's real exit code, so simp can mirror it.
    pub tool_exit: i32,
    pub summary: Summary,
}

impl Report {
    /// A report of `diagnostics`, with their summary and the tool's exit code.
    pub fn new(diagnostics: Vec<Diagnostic>, tool_exit: i32) -> (r: Report)
        ensures
            r.diagnostics@ == diagnostics@,
            r.tool_exit == tool_exit,
            summarizes(r.summary, views(diagnostics@)),
    {
        let summary = summarize(&diagnostics);
        Report { diagnostics, tool_exit, summary }
    }
}

/// Counts diagnostics by severity and the distinct files they name.
pub fn summarize(diagnostics: &[Diagnostic]) -> (r: Summary)
    ensures
        summarizes(r, views(diagnostics@)),
{
    let ghost ds = views(diagnostics@);
    let mut acc = SummaryAccumulator::new();
    let mut i: usize = 0;
    assert(ds.take(0) =~= Seq::<DiagnosticView>::empty());
    while i < diagnostics.len()
        invariant
            i <= diagnostics@.len(),
            ds == views(diagnostics@),
            acc.wf(),
            acc@ == tally_of(ds.take(i as int)),
            acc@.errors + acc@.warnings + acc@.infos == i,
        decreases diagnostics@.len() - i,
    {
        assert(ds.take(i + 1).drop_last() =~= ds.take(i as int));
        assert(ds.take(i + 1).last() == diagnostics@[i as int]@);
        acc.add(&diagnostics[i]);
        i += 1;
    }
    assert(ds.take(i as int) =~= ds);
    proof {
        lemma_tally_of(ds);
    }
    acc.summary()
}


/// Taking one diagnostic out of `ds` takes it out of the counts and the set
/// of files.
proof fn lemma_summary_remove(ds: Seq<DiagnosticView>, k: int, severity: Severity)
    requires
        0 <= k < ds.len(),
    ensures
        severity_count(ds, severity) == severity_count(ds.remove(k), severity) + if ds[k].severity
            == severity {
            1nat
        } else {
            0nat
        },
        files_named(ds) == match ds[k].file {
            Some(f) => files_named(ds.remove(k)).insert(f),
            None => files_named(ds.remove(k)),
        },
{
    let pred = |d: DiagnosticView| d.severity == severity;
    let a = ds.take(k);
    let b = ds.skip(k + 1);
    let mid = seq![ds[k]];
    assert(ds =~= a + (mid + b));
    assert(ds.remove(k) =~= a + b);
    Seq::filter_distributes_over_add(a, mid + b, pred);
    Seq::filter_distributes_over_add(mid, b, pred);
    Seq::filter_distributes_over_add(a, b, pred);
    reveal_with_fuel(Seq::filter, 2);
    assert(mid.drop_last() =~= Seq::<DiagnosticView>::empty());
    let r = ds.remove(k);
    assert forall|g: Seq<char>| #[trigger] files_named(ds).contains(g) <==> (files_named(r).contains(g)
        || ds[k].file == Some(g)) by {
        if files_named(ds).contains(g) {
            let i = choose|i: int| 0 <= i < ds.len() && ds[i].file == Some(g);
            if i < k {
                assert(r[i] == ds[i]);
            } else if i > k {
                assert(r[i - 1] == ds[i]);
            }
        }
        if files_named(r).contains(g) {
            let i = choose|i: int| 0 <= i < r.len() && r[i].file == Some(g);
            if i < k {
                assert(r[i] == ds[i]);
            } else {
                assert(r[i] == ds[i + 1]);
            }
        }
    }
    match ds[k].file {
        Some(f) => assert(files_named(ds) =~= files_named(r).insert(f)),
        None => assert(files_named(ds) =~= files_named(r)),
    }
}

/// Diagnostics in any order have the same counts and the same set of files.
proof fn lemma_summary_permutation(ds1: Seq<DiagnosticView>, ds2: Seq<DiagnosticView>)
    requires
        ds1.to_multiset() == ds2.to_multiset(),
    ensures
        severity_count(ds1, Severity::Error) == severity_count(ds2, Severity::Error),
        severity_count(ds1, Severity::Warning) == severity_count(ds2, Severity::Warning),
        severity_count(ds1, Severity::Info) == severity_count(ds2, Severity::Info),
        files_named(ds1) == files_named(ds2),
    decreases ds1.len(),
{
    broadcast use vstd::seq_lib::group_to_multiset_ensures;
    broadcast use vstd::seq_lib::group_filter_ensures;
    if ds1.len() == 0 {
        assert(ds1.to_multiset().len() == 0);
        assert(ds2.to_multiset().len() == ds2.len());
        assert(ds2.len() == 0);
        assert(ds1 =~= ds2);
    } else {
        let init = ds1.drop_last();
        let d = ds1.last();
        assert(ds1 =~= init.push(d));
        assert(ds1.to_multiset() =~= init.to_multiset().insert(d));
        assert(ds2.to_multiset().count(d) > 0);
        assert(ds2.contains(d));
        let k = ds2.lemma_contains_to_index(d);
        let r = ds2.remove(k);
        assert(r.to_multiset() =~= init.to_multiset());
        lemma_summary_permutation(init, r);
        lemma_summary_remove(ds2, k, Severity::Error);
        lemma_summary_remove(ds2, k, Severity::Warning);
        lemma_summary_remove(ds2, k, Severity::Info);
        lemma_summary_remove(ds1, ds1.len() - 1, Severity::Error);
        lemma_summary_remove(ds1, ds1.len() - 1, Severity::Warning);
        lemma_summary_remove(ds1, ds1.len() - 1, Severity::Info);
        assert(ds1.remove(ds1.len() - 1) =~= init);
    }
}

/// The summary does not depend on the order diagnostics stream past:
/// tallying any reordering of the same diagnostics ends with the same tally.
pub proof fn lemma_tally_order_independent(ds1: Seq<DiagnosticView>, ds2: Seq<DiagnosticView>)
    requires
        ds1.to_multiset() == ds2.to_multiset(),
    ensures
        tally_of(ds1) == tally_of(ds2),
{
    lemma_tally_of(ds1);
    lemma_tally_of(ds2);
    lemma_summary_permutation(ds1, ds2);
}

} // verus!
