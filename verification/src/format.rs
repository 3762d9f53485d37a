use vstd::prelude::*;

use crate::diagnostic::{
    files_named, lemma_tally_of, severity_count, severity_word, summarizes, tally_of, views,
    Diagnostic, DiagnosticView, Report, Severity, Span, Summary, SummaryAccumulator,
};
use crate::text::{
    chars_of, decimal, digit_char, ends_with, lemma_matches_self, lemma_matches_within,
    matches_at, occurs, push_char, push_decimal, push_str, starts_with,
};

verus! {

/// How a report is rendered.
#[derive(Debug, Clone, Copy, PartialEq, Eq, Structural)]
pub enum Format {
    /// Flat one-diagnostic-per-line, self-contained. Default.
    Flat,
    /// Machine-readable JSON for downstream tooling.
    Json,
}

/// `line:column` of a span.
pub open spec fn span_coords_text(span: Span) -> Seq<char> {
    decimal(span.line as nat) + seq![':'] + decimal(span.column as nat)
}

/// One character as it stands in a flat line: a line feed as `\n`, a carriage
/// return as `\r`, any other character as itself.
pub open spec fn one_line_char(c: char) -> Seq<char> {
    if c == '\n' {
        seq!['\\', 'n']
    } else if c == '\r' {
        seq!['\\', 'r']
    } else {
        seq![c]
    }
}

/// Text as it stands in a flat line: line breaks written out, so the text stays
/// on one line.
pub open spec fn one_line(s: Seq<char>) -> Seq<char>
    decreases s.len(),
{
    if s.len() == 0 {
        Seq::empty()
    } else {
        one_line(s.drop_last()) + one_line_char(s.last())
    }
}

/// Whether `s` holds no line feed and no carriage return.
pub open spec fn single_line(s: Seq<char>) -> bool {
    forall|i: int| 0 <= i < s.len() ==> #[trigger] s[i] != '\n' && s[i] != '\r'
}

/// Where a diagnostic points: `file:line:column`, the bare file, or `<unknown>`.
pub open spec fn location_text(d: DiagnosticView) -> Seq<char> {
    match d.file {
        Some(f) => match d.span {
            Some(s) => one_line(f) + seq![':'] + span_coords_text(s),
            None => one_line(f),
        },
        None => "<unknown>"@,
    }
}

/// One self-contained line for a diagnostic:
/// `<severity> <location>[ <code>] <message>`, with line breaks in the file,
/// code and message written out.
pub open spec fn flat_line_text(d: DiagnosticView) -> Seq<char> {
    severity_word(d.severity) + seq![' '] + location_text(d) + match d.code {
        Some(c) => seq![' '] + one_line(c),
        None => Seq::<char>::empty(),
    } + seq![' '] + one_line(d.message)
}

/// Joining two texts without line breaks gives one without line breaks.
pub proof fn lemma_single_line_add(a: Seq<char>, b: Seq<char>)
    requires
        single_line(a),
        single_line(b),
    ensures
        single_line(a + b),
{
    assert forall|i: int| 0 <= i < (a + b).len() implies #[trigger] (a + b)[i] != '\n' && (a
        + b)[i] != '\r' by {
        if i < a.len() {
            assert((a + b)[i] == a[i]);
        } else {
            assert((a + b)[i] == b[i - a.len()]);
        }
    }
}

/// Text written out for a flat line holds no line break.
pub proof fn lemma_one_line_single(s: Seq<char>)
    ensures
        single_line(one_line(s)),
    decreases s.len(),
{
    if s.len() > 0 {
        lemma_one_line_single(s.drop_last());
        lemma_single_line_add(one_line(s.drop_last()), one_line_char(s.last()));
    }
}

/// A decimal number holds no line break.
pub proof fn lemma_decimal_single(n: nat)
    ensures
        single_line(decimal(n)),
    decreases n,
{
    if n >= 10 {
        lemma_decimal_single(n / 10);
        lemma_single_line_add(decimal(n / 10), seq![digit_char((n % 10) as int)]);
    }
}

/// Text without line breaks is written out unchanged.
pub proof fn lemma_one_line_keeps(s: Seq<char>)
    requires
        single_line(s),
    ensures
        one_line(s) == s,
    decreases s.len(),
{
    if s.len() > 0 {
        let init = s.drop_last();
        assert(single_line(init)) by {
            assert forall|i: int| 0 <= i < init.len() implies #[trigger] init[i] != '\n' && init[i]
                != '\r' by {
                assert(init[i] == s[i]);
            }
        }
        lemma_one_line_keeps(init);
        assert(s[s.len() - 1] != '\n' && s[s.len() - 1] != '\r');
        assert(init + seq![s.last()] =~= s);
    }
}

/// A flat line starts with the severity word and a space, and, for a message
/// without line breaks, ends with a space and the message itself; for a file
/// and code without line breaks, `file:line:column` and the code stand between.
pub proof fn lemma_flat_line_parts(d: DiagnosticView)
    ensures
        starts_with(flat_line_text(d), severity_word(d.severity) + seq![' ']),
        single_line(d.message) ==> ends_with(flat_line_text(d), seq![' '] + d.message),
        (d.file is Some && single_line(d.file->Some_0) && d.span is Some && d.code is Some
            && single_line(d.code->Some_0) && single_line(d.message)) ==> flat_line_text(d) == severity_word(
            d.severity,
        ) + seq![' '] + d.file->Some_0 + seq![':'] + decimal(d.span->Some_0.line as nat) + seq![
            ':',
        ] + decimal(d.span->Some_0.column as nat) + seq![' '] + d.code->Some_0 + seq![' ']
            + d.message,
{
    let t = flat_line_text(d);
    let head = severity_word(d.severity) + seq![' '];
    let e = Seq::<char>::empty();
    let body = location_text(d) + match d.code {
        Some(c) => seq![' '] + one_line(c),
        None => Seq::<char>::empty(),
    } + seq![' '] + one_line(d.message);
    assert(t =~= e + head + body);
    lemma_matches_self(head);
    lemma_matches_within(e, head, body, head, 0);
    if single_line(d.message) {
        lemma_one_line_keeps(d.message);
        let tail = seq![' '] + d.message;
        let front = severity_word(d.severity) + seq![' '] + location_text(d) + match d.code {
            Some(c) => seq![' '] + one_line(c),
            None => Seq::<char>::empty(),
        };
        assert(t =~= front + tail + e);
        lemma_matches_self(tail);
        lemma_matches_within(front, tail, e, tail, 0);
    }
    if let Some(f) = d.file {
        if single_line(f) {
            lemma_one_line_keeps(f);
        }
    }
    if let Some(c) = d.code {
        if single_line(c) {
            lemma_one_line_keeps(c);
        }
    }
    if d.file is Some && d.span is Some && d.code is Some {
        assert(span_coords_text(d.span->Some_0) == decimal(d.span->Some_0.line as nat) + seq![':']
            + decimal(d.span->Some_0.column as nat));
        if single_line(d.file->Some_0) && single_line(d.code->Some_0) && single_line(d.message) {
            assert(t =~= severity_word(d.severity) + seq![' '] + d.file->Some_0 + seq![':']
                + decimal(d.span->Some_0.line as nat) + seq![':'] + decimal(
                d.span->Some_0.column as nat,
            ) + seq![' '] + d.code->Some_0 + seq![' '] + d.message);
        }
    }
}


/// A flat line holds no line break: every diagnostic takes exactly one line of
/// flat output.
pub proof fn lemma_flat_line_single(d: DiagnosticView)
    ensures
        single_line(flat_line_text(d)),
{
    reveal_strlit("error");
    reveal_strlit("warning");
    reveal_strlit("info");
    reveal_strlit("<unknown>");
    let sp = seq![' '];
    let colon = seq![':'];
    assert(single_line(sp) && single_line(colon));
    assert(single_line(severity_word(d.severity)));
    assert(single_line("<unknown>"@));
    let loc = location_text(d);
    match d.file {
        Some(f) => {
            lemma_one_line_single(f);
            match d.span {
                Some(s) => {
                    lemma_decimal_single(s.line as nat);
                    lemma_decimal_single(s.column as nat);
                    lemma_single_line_add(decimal(s.line as nat), colon);
                    lemma_single_line_add(decimal(s.line as nat) + colon, decimal(s.column as nat));
                    lemma_single_line_add(one_line(f), colon);
                    lemma_single_line_add(one_line(f) + colon, span_coords_text(s));
                },
                None => {},
            }
        },
        None => {},
    }
    let code = match d.code {
        Some(c) => sp + one_line(c),
        None => Seq::<char>::empty(),
    };
    match d.code {
        Some(c) => {
            lemma_one_line_single(c);
            lemma_single_line_add(sp, one_line(c));
        },
        None => {},
    }
    lemma_one_line_single(d.message);
    let w = severity_word(d.severity);
    lemma_single_line_add(w, sp);
    lemma_single_line_add(w + sp, loc);
    lemma_single_line_add(w + sp + loc, code);
    lemma_single_line_add(w + sp + loc + code, sp);
    lemma_single_line_add(w + sp + loc + code + sp, one_line(d.message));
}

/// `<count> <noun>`, with an `s` on the noun unless the count is one.
pub open spec fn plural_text(count: nat, noun: Seq<char>) -> Seq<char> {
    decimal(count) + seq![' '] + noun + if count == 1 {
        Seq::<char>::empty()
    } else {
        seq!['s']
    }
}

/// `parts` separated by `sep`.
pub open spec fn join_text(parts: Seq<Seq<char>>, sep: Seq<char>) -> Seq<char>
    decreases parts.len(),
{
    if parts.len() == 0 {
        Seq::empty()
    } else if parts.len() == 1 {
        parts[0]
    } else {
        join_text(parts.drop_last(), sep) + sep + parts.last()
    }
}

/// The non-zero severity counts, each pluralized, errors first.
pub open spec fn summary_parts(errors: nat, warnings: nat, infos: nat) -> Seq<Seq<char>> {
    (if errors > 0 {
        seq![plural_text(errors, "error"@)]
    } else {
        Seq::empty()
    }) + (if warnings > 0 {
        seq![plural_text(warnings, "warning"@)]
    } else {
        Seq::empty()
    }) + (if infos > 0 {
        seq![plural_text(infos, "info"@)]
    } else {
        Seq::empty()
    })
}

/// The summary line: `no problems`, or the counts joined by `, ` followed by
/// the number of files.
pub open spec fn summary_text(errors: nat, warnings: nat, infos: nat, files: nat) -> Seq<char> {
    let parts = summary_parts(errors, warnings, infos);
    if parts.len() == 0 {
        "no problems"@
    } else {
        join_text(parts, ", "@) + ", "@ + plural_text(files, "file"@)
    }
}

/// The diagnostic lines of a flat rendering, each ended by a newline.
pub open spec fn flat_lines_text(ds: Seq<DiagnosticView>) -> Seq<char>
    decreases ds.len(),
{
    if ds.len() == 0 {
        Seq::empty()
    } else {
        flat_lines_text(ds.drop_last()) + flat_line_text(ds.last()) + seq!['\n']
    }
}

/// What follows the diagnostic lines: a blank line when there were any, then
/// the summary line.
pub open spec fn flat_tail_text(any: bool, errors: nat, warnings: nat, infos: nat, files: nat) -> Seq<char> {
    (if any {
        seq!['\n']
    } else {
        Seq::<char>::empty()
    }) + summary_text(errors, warnings, infos, files) + seq!['\n']
}

/// The flat rendering of diagnostics `ds` with summary `s`.
pub open spec fn flat_text(ds: Seq<DiagnosticView>, s: Summary) -> Seq<char> {
    flat_lines_text(ds) + flat_tail_text(
        ds.len() > 0,
        s.errors as nat,
        s.warnings as nat,
        s.infos as nat,
        s.files as nat,
    )
}

/// Appends `line:column` of `span` to `out`.
pub fn push_span_coords(out: &mut String, span: &Span)
    ensures
        final(out)@ == old(out)@ + span_coords_text(*span),
{
    push_decimal(out, span.line as u64);
    push_char(out, ':');
    push_decimal(out, span.column as u64);
    assert(final(out)@ =~= old(out)@ + span_coords_text(*span));
}

/// `line:column` of `span`.
pub fn span_coords(span: &Span) -> (r: String)
    ensures
        r@ == span_coords_text(*span),
{
    let mut out = String::new();
    push_span_coords(&mut out, span);
    assert(out@ =~= span_coords_text(*span));
    out
}

/// Appends `<count> <noun>`, pluralized, to `out`.
pub fn push_plural(out: &mut String, count: usize, noun: &str)
    ensures
        final(out)@ == old(out)@ + plural_text(count as nat, noun@),
{
    push_decimal(out, count as u64);
    push_char(out, ' ');
    push_str(out, noun);
    if count != 1 {
        push_char(out, 's');
    }
    assert(final(out)@ =~= old(out)@ + plural_text(count as nat, noun@));
}

/// `<count> <noun>`, with an `s` on the noun unless the count is one.
pub fn pluralize(count: usize, noun: &str) -> (r: String)
    ensures
        r@ == plural_text(count as nat, noun@),
{
    let mut out = String::new();
    push_plural(&mut out, count, noun);
    assert(out@ =~= plural_text(count as nat, noun@));
    out
}

/// Appends `s` to `out` with its line breaks written out.
pub fn push_one_line(out: &mut String, s: &str)
    ensures
        final(out)@ == old(out)@ + one_line(s@),
{
    let cs = chars_of(s);
    let mut i: usize = 0;
    assert(cs@.take(0) =~= Seq::<char>::empty());
    assert(out@ =~= old(out)@ + one_line(cs@.take(0)));
    while i < cs.len()
        invariant
            i <= cs@.len(),
            cs@ == s@,
            out@ == old(out)@ + one_line(cs@.take(i as int)),
        decreases cs@.len() - i,
    {
        let c = cs[i];
        let ghost before = out@;
        if c == '\n' {
            push_char(out, '\\');
            push_char(out, 'n');
        } else if c == '\r' {
            push_char(out, '\\');
            push_char(out, 'r');
        } else {
            push_char(out, c);
        }
        assert(out@ =~= before + one_line_char(c));
        assert(cs@.take(i + 1).drop_last() =~= cs@.take(i as int));
        assert(cs@.take(i + 1).last() == c);
        i += 1;
    }
    assert(cs@.take(i as int) =~= cs@);
}

/// Appends one flat line for `diagnostic` to `out`, without a newline.
pub fn push_flat_line(out: &mut String, diagnostic: &Diagnostic)
    ensures
        final(out)@ == old(out)@ + flat_line_text(diagnostic@),
{
    let ghost d = diagnostic@;
    push_str(out, diagnostic.severity.label());
    push_char(out, ' ');
    let ghost at_location = out@;
    match &diagnostic.file {
        Some(file) => {
            push_one_line(out, file.as_str());
            match &diagnostic.span {
                Some(span) => {
                    push_char(out, ':');
                    push_span_coords(out, span);
                },
                None => {},
            }
        },
        None => push_str(out, "<unknown>"),
    }
    assert(out@ =~= at_location + location_text(d));
    let ghost at_code = out@;
    match &diagnostic.code {
        Some(code) => {
            push_char(out, ' ');
            push_one_line(out, code.as_str());
        },
        None => {},
    }
    assert(out@ =~= at_code + match d.code {
        Some(c) => seq![' '] + one_line(c),
        None => Seq::<char>::empty(),
    });
    push_char(out, ' ');
    push_one_line(out, diagnostic.message.as_str());
    assert(final(out)@ =~= old(out)@ + flat_line_text(d));
}

/// One self-contained line for `diagnostic`: it holds no line break.
pub fn flat_line(diagnostic: &Diagnostic) -> (r: String)
    ensures
        r@ == flat_line_text(diagnostic@),
        single_line(r@),
{
    proof {
        lemma_flat_line_single(diagnostic@);
    }
    let mut out = String::new();
    push_flat_line(&mut out, diagnostic);
    assert(out@ =~= flat_line_text(diagnostic@));
    out
}


/// Joining one more part adds the separator and the part.
pub proof fn lemma_join_push(parts: Seq<Seq<char>>, sep: Seq<char>, p: Seq<char>)
    ensures
        join_text(parts.push(p), sep) == if parts.len() == 0 {
            p
        } else {
            join_text(parts, sep) + sep + p
        },
{
    assert(parts.push(p).drop_last() =~= parts);
    if parts.len() == 0 {
        assert(parts.push(p)[0] == p);
    }
}

/// Every part occurs in the parts joined.
pub proof fn lemma_join_contains(parts: Seq<Seq<char>>, sep: Seq<char>, i: int)
    requires
        0 <= i < parts.len(),
    ensures
        occurs(join_text(parts, sep), parts[i]),
    decreases parts.len(),
{
    let e = Seq::<char>::empty();
    if parts.len() == 1 {
        lemma_matches_self(parts[0]);
        assert(matches_at(join_text(parts, sep), parts[i], 0));
    } else {
        let front = join_text(parts.drop_last(), sep);
        let whole = join_text(parts, sep);
        if i == parts.len() - 1 {
            lemma_matches_self(parts.last());
            lemma_matches_within(front + sep, parts.last(), e, parts.last(), 0);
            assert(front + sep + parts.last() + e =~= whole);
            assert(matches_at(whole, parts[i], (front + sep).len() as int));
        } else {
            lemma_join_contains(parts.drop_last(), sep, i);
            let k = choose|k: int| matches_at(front, parts.drop_last()[i], k);
            lemma_matches_within(e, front, sep + parts.last(), parts[i], k);
            assert(e + front + (sep + parts.last()) =~= whole);
            assert(matches_at(whole, parts[i], k));
        }
    }
}

/// The summary line says `no problems` exactly when there are no errors,
/// warnings or infos. Otherwise every non-zero count appears in it, pluralized,
/// and it ends with `, ` and the number of files.
pub proof fn lemma_summary_mentions(errors: nat, warnings: nat, infos: nat, files: nat)
    ensures
        (summary_text(errors, warnings, infos, files) == "no problems"@) == (errors == 0
            && warnings == 0 && infos == 0),
        errors > 0 ==> occurs(summary_text(errors, warnings, infos, files), plural_text(errors, "error"@)),
        warnings > 0 ==> occurs(
            summary_text(errors, warnings, infos, files),
            plural_text(warnings, "warning"@),
        ),
        infos > 0 ==> occurs(summary_text(errors, warnings, infos, files), plural_text(infos, "info"@)),
        (errors > 0 || warnings > 0 || infos > 0) ==> ends_with(
            summary_text(errors, warnings, infos, files),
            ", "@ + plural_text(files, "file"@),
        ),
{
    let parts = summary_parts(errors, warnings, infos);
    let text = summary_text(errors, warnings, infos, files);
    if errors > 0 || warnings > 0 || infos > 0 {
        reveal_strlit("no problems");
        reveal_strlit(", ");
        let joined = join_text(parts, ", "@);
        let tail = ", "@ + plural_text(files, "file"@);
        assert(parts.len() > 0);
        assert(text =~= joined + tail);
        let e = Seq::<char>::empty();
        lemma_matches_self(tail);
        lemma_matches_within(joined, tail, e, tail, 0);
        assert(joined + tail + e =~= text);
        assert(ends_with(text, tail));
        assert(text[joined.len() as int] == ',');
        if text == "no problems"@ {
            assert("no problems"@[joined.len() as int] != ',');
        }
        let w: int = if errors > 0 { 1 } else { 0 };
        let n: int = if warnings > 0 { w + 1 } else { w };
        if errors > 0 {
            assert(parts[0] == plural_text(errors, "error"@));
        }
        if warnings > 0 {
            assert(parts[w] == plural_text(warnings, "warning"@));
        }
        if infos > 0 {
            assert(parts[n] == plural_text(infos, "info"@));
        }
        assert forall|p: Seq<char>| occurs(joined, p) implies occurs(text, p) by {
            let k = choose|k: int| matches_at(joined, p, k);
            lemma_matches_within(e, joined, tail, p, k);
            assert(e + joined + tail =~= text);
            assert(matches_at(text, p, k));
        }
        if errors > 0 {
            lemma_join_contains(parts, ", "@, 0);
        }
        if warnings > 0 {
            lemma_join_contains(parts, ", "@, w);
        }
        if infos > 0 {
            lemma_join_contains(parts, ", "@, n);
        }
    }
}


/// Appends `part` to `out` as the next of the parts `parts` joined by `, `.
fn push_part(out: &mut String, parts: Ghost<Seq<Seq<char>>>, first: bool, count: usize, noun: &str) -> (r: Ghost<
    Seq<Seq<char>>,
>)
    requires
        first == (parts@.len() == 0),
        old(out)@.len() >= join_text(parts@, ", "@).len(),
        old(out)@ == old(out)@.subrange(0, old(out)@.len() - join_text(parts@, ", "@).len()) + join_text(parts@, ", "@),
    ensures
        r@ == parts@.push(plural_text(count as nat, noun@)),
        final(out)@ == old(out)@.subrange(0, old(out)@.len() - join_text(parts@, ", "@).len()) + join_text(r@, ", "@),
{
    let ghost base = old(out)@.subrange(0, old(out)@.len() - join_text(parts@, ", "@).len());
    if !first {
        push_str(out, ", ");
    }
    push_plural(out, count, noun);
    proof {
        lemma_join_push(parts@, ", "@, plural_text(count as nat, noun@));
        if parts@.len() > 0 {
            assert(out@ =~= base + (join_text(parts@, ", "@) + ", "@ + plural_text(count as nat, noun@)));
        } else {
            assert(out@ =~= base + plural_text(count as nat, noun@));
        }
    }
    Ghost(parts@.push(plural_text(count as nat, noun@)))
}

/// Appends the summary line for `summary` to `out`, without a newline.
pub fn push_summary_line(out: &mut String, summary: &Summary)
    ensures
        final(out)@ == old(out)@ + summary_text(
            summary.errors as nat,
            summary.warnings as nat,
            summary.infos as nat,
            summary.files as nat,
        ),
{
    let ghost base = old(out)@;
    let mut parts: Ghost<Seq<Seq<char>>> = Ghost(Seq::empty());
    assert(out@.subrange(0, out@.len() as int) =~= out@);
    assert(out@ =~= out@ + join_text(parts@, ", "@));
    if summary.errors > 0 {
        parts = push_part(out, parts, true, summary.errors, "error");
    }
    if summary.warnings > 0 {
        assert(out@.subrange(0, out@.len() - join_text(parts@, ", "@).len()) =~= base);
        parts = push_part(out, parts, summary.errors == 0, summary.warnings, "warning");
    }
    if summary.infos > 0 {
        assert(out@.subrange(0, out@.len() - join_text(parts@, ", "@).len()) =~= base);
        parts = push_part(out, parts, summary.errors == 0 && summary.warnings == 0, summary.infos, "info");
    }
    let ghost expected = summary_parts(
        summary.errors as nat,
        summary.warnings as nat,
        summary.infos as nat,
    );
    assert(parts@ =~= expected);
    if summary.errors == 0 && summary.warnings == 0 && summary.infos == 0 {
        push_str(out, "no problems");
        assert(final(out)@ =~= base + "no problems"@);
    } else {
        push_str(out, ", ");
        push_plural(out, summary.files, "file");
        assert(final(out)@ =~= base + (join_text(expected, ", "@) + ", "@ + plural_text(
            summary.files as nat,
            "file"@,
        )));
    }
}

/// The summary line of a report.
pub fn summary_line(report: &Report) -> (r: String)
    ensures
        r@ == summary_text(
            report.summary.errors as nat,
            report.summary.warnings as nat,
            report.summary.infos as nat,
            report.summary.files as nat,
        ),
{
    let mut out = String::new();
    push_summary_line(&mut out, &report.summary);
    assert(out@ =~= summary_text(
        report.summary.errors as nat,
        report.summary.warnings as nat,
        report.summary.infos as nat,
        report.summary.files as nat,
    ));
    out
}

/// Renders a report in the flat format: one line per diagnostic, then a blank
/// line if there were any, then the summary line.
pub fn render_flat(report: &Report) -> (r: String)
    ensures
        r@ == flat_text(views(report.diagnostics@), report.summary),
{
    let ghost ds = views(report.diagnostics@);
    let mut out = String::new();
    let mut i: usize = 0;
    assert(ds.take(0) =~= Seq::<DiagnosticView>::empty());
    while i < report.diagnostics.len()
        invariant
            i <= report.diagnostics@.len(),
            ds == views(report.diagnostics@),
            out@ == flat_lines_text(ds.take(i as int)),
        decreases report.diagnostics@.len() - i,
    {
        assert(ds.take(i + 1).drop_last() =~= ds.take(i as int));
        assert(ds.take(i + 1).last() == report.diagnostics@[i as int]@);
        push_flat_line(&mut out, &report.diagnostics[i]);
        push_char(&mut out, '\n');
        i += 1;
    }
    assert(ds.take(i as int) =~= ds);
    let ghost lines = out@;
    if report.diagnostics.len() > 0 {
        push_char(&mut out, '\n');
    }
    push_summary_line(&mut out, &report.summary);
    push_char(&mut out, '\n');
    assert(out@ =~= flat_text(ds, report.summary));
    out
}


/// What a renderer hands back once the stream has ended.
pub enum Finished {
    /// The rest of the flat output: a blank line if anything was printed, then
    /// the summary line.
    Text(String),
    /// The full report, for JSON output (a whole document, so it is buffered).
    Json(Report),
}

/// Renders diagnostics as they stream past. In flat mode each diagnostic's line
/// is handed back the moment it arrives and only a tally is kept; in JSON mode
/// diagnostics are buffered until the end.
pub struct Renderer {
    format: Format,
    tally: SummaryAccumulator,
    count: usize,
    buffered: Vec<Diagnostic>,
    seen: Ghost<Seq<DiagnosticView>>,
}

impl Renderer {
    /// The diagnostics seen so far, in order.
    pub closed spec fn seen(&self) -> Seq<DiagnosticView> {
        self.seen@
    }

    /// The format being rendered.
    pub closed spec fn format(&self) -> Format {
        self.format
    }

    /// The renderer's invariant.
    pub closed spec fn wf(&self) -> bool {
        &&& self.tally.wf()
        &&& self.tally@ == tally_of(self.seen@)
        &&& self.count == self.seen@.len()
        &&& self.tally@.errors + self.tally@.warnings + self.tally@.infos == self.count
        &&& self.format == Format::Json ==> views(self.buffered@) == self.seen@
    }

    /// A renderer that has seen nothing.
    pub fn new(format: Format) -> (r: Renderer)
        ensures
            r.wf(),
            r.format() == format,
            r.seen() == Seq::<DiagnosticView>::empty(),
    {
        let r = Renderer {
            format,
            tally: SummaryAccumulator::new(),
            count: 0,
            buffered: Vec::new(),
            seen: Ghost(Seq::empty()),
        };
        assert(views(r.buffered@) =~= Seq::<DiagnosticView>::empty());
        r
    }

    /// How many diagnostics have been seen.
    pub fn count(&self) -> (r: usize)
        requires
            self.wf(),
        ensures
            r == self.seen().len(),
    {
        self.count
    }

    /// Takes one diagnostic and returns the text to print for it now: its flat
    /// line and a newline, or nothing in JSON mode.
    pub fn diagnostic(&mut self, diagnostic: Diagnostic) -> (r: String)
        requires
            old(self).wf(),
            old(self).seen().len() < usize::MAX,
        ensures
            final(self).wf(),
            final(self).format() == old(self).format(),
            final(self).seen() == old(self).seen().push(diagnostic@),
            r@ == if old(self).format() == Format::Flat {
                flat_line_text(diagnostic@) + seq!['\n']
            } else {
                Seq::<char>::empty()
            },
            old(self).format() == Format::Flat ==> single_line(r@.drop_last()),
    {
        let ghost d = diagnostic@;
        proof {
            lemma_flat_line_single(d);
        }
        let ghost before = self.seen@;
        self.tally.add(&diagnostic);
        self.count = self.count + 1;
        self.seen = Ghost(before.push(d));
        assert(before.push(d).drop_last() =~= before);
        let mut out = String::new();
        match self.format {
            Format::Flat => {
                push_flat_line(&mut out, &diagnostic);
                push_char(&mut out, '\n');
                assert(out@.drop_last() =~= flat_line_text(d));
            },
            Format::Json => {
                let ghost old_views = views(self.buffered@);
                self.buffered.push(diagnostic);
                assert(views(self.buffered@) =~= old_views.push(d));
            },
        }
        assert(out@ =~= if self.format == Format::Flat {
            flat_line_text(d) + seq!['\n']
        } else {
            Seq::<char>::empty()
        });
        out
    }

    /// The stream has ended: returns the rest of the flat output, or the report
    /// of everything seen for JSON.
    pub fn finish(self, tool_exit: i32) -> (r: Finished)
        requires
            self.wf(),
        ensures
            self.format() == Format::Flat ==> (r matches Finished::Text(t) && t@ == flat_tail_text(
                self.seen().len() > 0,
                severity_count(self.seen(), Severity::Error),
                severity_count(self.seen(), Severity::Warning),
                severity_count(self.seen(), Severity::Info),
                files_named(self.seen()).len(),
            )),
            self.format() == Format::Json ==> (r matches Finished::Json(report) && views(
                report.diagnostics@,
            ) == self.seen() && report.tool_exit == tool_exit && summarizes(
                report.summary,
                self.seen(),
            )),
    {
        proof {
            lemma_tally_of(self.seen@);
        }
        match self.format {
            Format::Flat => {
                let summary = self.tally.summary();
                let mut out = String::new();
                if self.count > 0 {
                    push_char(&mut out, '\n');
                }
                push_summary_line(&mut out, &summary);
                push_char(&mut out, '\n');
                assert(out@ =~= flat_tail_text(
                    self.seen@.len() > 0,
                    summary.errors as nat,
                    summary.warnings as nat,
                    summary.infos as nat,
                    summary.files as nat,
                ));
                Finished::Text(out)
            },
            Format::Json => {
                let report = Report::new(self.buffered, tool_exit);
                Finished::Json(report)
            },
        }
    }
}

/// The flat output streamed diagnostic by diagnostic (each line as it arrives,
/// then the tail from the running tally) is exactly the flat rendering of the
/// whole report.
pub proof fn lemma_streamed_flat_is_rendered(ds: Seq<DiagnosticView>, s: Summary)
    requires
        summarizes(s, ds),
    ensures
        flat_lines_text(ds) + flat_tail_text(
            ds.len() > 0,
            severity_count(ds, Severity::Error),
            severity_count(ds, Severity::Warning),
            severity_count(ds, Severity::Info),
            files_named(ds).len(),
        ) == flat_text(ds, s),
{
}

} // verus!
