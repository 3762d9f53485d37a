use vstd::prelude::*;

use crate::diagnostic::{views, Diagnostic, DiagnosticView, Severity};
use crate::profiles::StreamParser;
use crate::text::{chars_of, owned, string_of_range, trim, trim_range};

verus! {

/// The diagnostic for one line of `--list-different` output: none for a blank
/// line, else a file-level "not formatted" warning for the trimmed path.
pub open spec fn not_formatted(source: Seq<char>, line: Seq<char>) -> Seq<DiagnosticView> {
    if trim(line).len() == 0 {
        Seq::empty()
    } else {
        seq![
            DiagnosticView {
                source,
                severity: Severity::Warning,
                file: Some(trim(line)),
                span: None,
                code: None,
                message: "not formatted"@,
            },
        ]
    }
}

/// A streaming parser for formatters whose `--list-different` output is one
/// unformatted file path per line (prettier, oxfmt). Each path becomes a
/// file-level "not formatted" diagnostic, emitted as its line arrives.
pub struct ListDifferent {
    pub source: &'static str,
}

impl StreamParser for ListDifferent {
    fn push_line(&mut self, line: &str) -> (r: Vec<Diagnostic>)
        ensures
            final(self).source@ == old(self).source@,
            views(r@) == not_formatted(old(self).source@, line@),
    {
        let cs = chars_of(line);
        let (a, b) = trim_range(&cs, 0, cs.len());
        assert(cs@.subrange(0, cs@.len() as int) =~= cs@);
        let mut out: Vec<Diagnostic> = Vec::new();
        if a == b {
            assert(views(out@) =~= Seq::<DiagnosticView>::empty());
            return out;
        }
        out.push(
            Diagnostic {
                source: owned(self.source),
                severity: Severity::Warning,
                file: Some(string_of_range(&cs, a, b)),
                span: None,
                code: None,
                message: owned("not formatted"),
            },
        );
        assert(views(out@) =~= not_formatted(self.source@, line@));
        out
    }
}

} // verus!
