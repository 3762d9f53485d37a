use vstd::prelude::*;

use crate::diagnostic::{severity_word, views, Diagnostic, DiagnosticView, Severity, Span};
use crate::profiles::{
    one_or_none, optional_views, Injection, InjectionView, Parser, RawOutput, StreamParser,
};
use crate::text::{
    char_rows, chars_equal, chars_of, decimal, find, find_exec, is_digit, lemma_decimal_digits,
    lemma_find_first, lemma_find_none, lemma_parse_u32_decimal, lemma_rfind_last, lines, lines_of,
    matches_at, matches_at_exec, owned, parse_u32, parse_u32_exec, rfind_char, rfind_char_exec,
    slice_chars, starts_with, string_of, string_of_range, texts, trim, trim_range,
};

verus! {

/// tsc's `--pretty` setting in `args`, from index `i` on: `--pretty=v` is on
/// unless `v` is `false`; a bare `--pretty` is on unless the next arg is `false`.
pub open spec fn pretty_from(args: Seq<Seq<char>>, i: int) -> Option<bool>
    decreases args.len() - i,
{
    if i < 0 || i >= args.len() {
        None
    } else if starts_with(args[i], "--pretty="@) {
        Some(args[i].skip("--pretty="@.len() as int) != "false"@)
    } else if args[i] == "--pretty"@ {
        Some(!(i + 1 < args.len() && args[i + 1] == "false"@))
    } else {
        pretty_from(args, i + 1)
    }
}

/// What simp injects for tsc: `--pretty false` unless the args already set it;
/// refused when they turn pretty output on.
pub open spec fn injection_for(args: Seq<Seq<char>>) -> InjectionView {
    match pretty_from(args, 0) {
        Some(false) => InjectionView::Append(seq![]),
        Some(true) => InjectionView::Unsupported(
            "tsc `--pretty` is enabled; simp needs `--pretty false` to parse output"@,
        ),
        None => InjectionView::Append(seq!["--pretty"@, "false"@]),
    }
}

/// Reads tsc's `--pretty` setting if present. Handles `--pretty=false`,
/// `--pretty false`, and a bare `--pretty` (which tsc treats as on).
pub fn pretty_flag(args: &[String]) -> (r: Option<bool>)
    ensures
        r == pretty_from(texts(args@), 0),
{
    let ghost a = texts(args@);
    let prefix = chars_of("--pretty=");
    let bare = chars_of("--pretty");
    let off = chars_of("false");
    let mut i: usize = 0;
    while i < args.len()
        invariant
            i <= args@.len(),
            a == texts(args@),
            prefix@ == "--pretty="@,
            bare@ == "--pretty"@,
            off@ == "false"@,
            pretty_from(a, 0) == pretty_from(a, i as int),
        decreases args@.len() - i,
    {
        let arg = chars_of(args[i].as_str());
        assert(arg@ == a[i as int]);
        if matches_at_exec(&arg, &prefix, 0) {
            let value = slice_chars(&arg, prefix.len(), arg.len());
            assert(value@ == a[i as int].skip("--pretty="@.len() as int));
            return Some(!chars_equal(&value, &off));
        }
        if chars_equal(&arg, &bare) {
            if i + 1 < args.len() {
                let next = chars_of(args[i + 1].as_str());
                assert(next@ == a[i + 1]);
                return Some(!chars_equal(&next, &off));
            }
            return Some(true);
        }
        i += 1;
    }
    None
}

/// tsc has no stable JSON reporter; simp parses its non-pretty text form, so it
/// needs `--pretty false`. If the user already forced pretty output on, it can't
/// parse it.
pub fn inject(args: &[String]) -> (r: Injection)
    ensures
        r@ == injection_for(texts(args@)),
{
    match pretty_flag(args) {
        Some(false) => {
            let v: Vec<String> = Vec::new();
            assert(texts(v@) =~= seq![]);
            Injection::Append(v)
        },
        Some(true) => Injection::Unsupported(
            owned("tsc `--pretty` is enabled; simp needs `--pretty false` to parse output"),
        ),
        None => {
            let mut v: Vec<String> = Vec::new();
            v.push(owned("--pretty"));
            v.push(owned("false"));
            assert(texts(v@) =~= seq!["--pretty"@, "false"@]);
            Injection::Append(v)
        },
    }
}

/// A `path(line,col)` location at the start of a tsc line.
pub struct Location {
    pub file: String,
    pub line: u32,
    pub column: u32,
}

/// A location with its path seen as characters.
pub struct LocationView {
    pub file: Seq<char>,
    pub line: u32,
    pub column: u32,
}

/// The view of an optional location.
pub open spec fn location_view(l: Option<Location>) -> Option<LocationView> {
    match l {
        Some(l) => Some(LocationView { file: l.file@, line: l.line, column: l.column }),
        None => None,
    }
}

/// Splits a leading `path(line,col): ` off the front of a line: the first `): `
/// ends it, the last `(` before that starts the coordinates, and both
/// coordinates must parse. Otherwise there is no location and the whole line
/// remains.
pub open spec fn split_location_text(line: Seq<char>) -> (Option<LocationView>, Seq<char>) {
    match find(line, "): "@) {
        None => (None, line),
        Some(marker) => {
            let head = line.take(marker);
            let rest = line.skip(marker + "): "@.len());
            match rfind_char(head, '(') {
                None => (None, line),
                Some(open) => {
                    let coords = head.skip(open + 1);
                    match find(coords, seq![',']) {
                        None => (None, line),
                        Some(comma) => match (
                            parse_u32(coords.take(comma)),
                            parse_u32(coords.skip(comma + 1)),
                        ) {
                            (Some(l), Some(c)) => (
                                Some(LocationView { file: head.take(open), line: l, column: c }),
                                rest,
                            ),
                            _ => (None, line),
                        },
                    }
                },
            }
        },
    }
}

/// Splits a leading `path(line,col): ` location off the front of a line.
/// Returns the parsed location (if present) and the remainder after `): `.
pub fn split_location(line: &Vec<char>) -> (r: (Option<Location>, Vec<char>))
    ensures
        (location_view(r.0), r.1@) == split_location_text(line@),
{
    let marker_pat = chars_of("): ");
    let marker = match find_exec(line, &marker_pat, 0) {
        Some(m) => m,
        None => return (None, line.clone()),
    };
    let open = match rfind_char_exec(line, marker, '(') {
        Some(o) => o,
        None => return (None, line.clone()),
    };
    assert(line@.take(marker as int) =~= line@.subrange(0, marker as int));
    let coords = slice_chars(line, open + 1, marker);
    assert(coords@ =~= line@.take(marker as int).skip(open + 1));
    let comma_pat = vec![','];
    assert(comma_pat@ =~= seq![',']);
    let comma = match find_exec(&coords, &comma_pat, 0) {
        Some(c) => c,
        None => return (None, line.clone()),
    };
    assert(coords@.subrange(0, comma as int) =~= coords@.take(comma as int));
    assert(coords@.subrange(comma + 1, coords@.len() as int) =~= coords@.skip(comma + 1));
    let line_no = parse_u32_exec(&coords, 0, comma);
    let col_no = parse_u32_exec(&coords, comma + 1, coords.len());
    match (line_no, col_no) {
        (Some(l), Some(c)) => {
            let file = string_of_range(line, 0, open);
            assert(file@ =~= line@.take(marker as int).take(open as int));
            let llen = line.len();
            let rest = slice_chars(line, marker + marker_pat.len(), llen);
            assert(rest@ =~= line@.skip(marker + "): "@.len()));
            (Some(Location { file, line: l, column: c }), rest)
        },
        _ => (None, line.clone()),
    }
}


/// The severity a tsc severity word names.
pub open spec fn severity_of_word(word: Seq<char>) -> Option<Severity> {
    if word == "error"@ {
        Some(Severity::Error)
    } else if word == "warning"@ {
        Some(Severity::Warning)
    } else {
        None
    }
}

/// The diagnostic of one `--pretty false` tsc line, after its optional location:
/// `<severity> <code>: <message>`, where the severity is `error` or `warning` and
/// the code starts with `TS`; the message is trimmed.
pub open spec fn parse_line_text(line: Seq<char>) -> Option<DiagnosticView> {
    let (loc, rest) = split_location_text(line);
    match find(rest, seq![' ']) {
        None => None,
        Some(sp) => match severity_of_word(rest.take(sp)) {
            None => None,
            Some(severity) => {
                let after = rest.skip(sp + 1);
                match find(after, ": "@) {
                    None => None,
                    Some(k) => {
                        let code = after.take(k);
                        if starts_with(code, "TS"@) {
                            Some(
                                DiagnosticView {
                                    source: "tsc"@,
                                    severity,
                                    file: match loc {
                                        Some(l) => Some(l.file),
                                        None => None,
                                    },
                                    span: match loc {
                                        Some(l) => Some(
                                            Span {
                                                line: l.line,
                                                column: l.column,
                                                end_line: None,
                                                end_column: None,
                                            },
                                        ),
                                        None => None,
                                    },
                                    code: Some(code),
                                    message: trim(after.skip(k + ": "@.len())),
                                },
                            )
                        } else {
                            None
                        }
                    },
                }
            },
        },
    }
}

/// The view of an optional diagnostic.
pub open spec fn diagnostic_view(d: Option<Diagnostic>) -> Option<DiagnosticView> {
    match d {
        Some(d) => Some(d@),
        None => None,
    }
}

/// Parses one line given as characters.
pub fn parse_line_chars(line: &Vec<char>) -> (r: Option<Diagnostic>)
    ensures
        diagnostic_view(r) == parse_line_text(line@),
{
    let (location, rest) = split_location(line);
    let space = vec![' '];
    assert(space@ =~= seq![' ']);
    let sp = match find_exec(&rest, &space, 0) {
        Some(k) => k,
        None => return None,
    };
    let word = slice_chars(&rest, 0, sp);
    assert(word@ =~= rest@.take(sp as int));
    let severity = if chars_equal(&word, &chars_of("error")) {
        Severity::Error
    } else if chars_equal(&word, &chars_of("warning")) {
        Severity::Warning
    } else {
        return None;
    };
    let rlen = rest.len();
    let after = slice_chars(&rest, sp + 1, rlen);
    assert(after@ =~= rest@.skip(sp + 1));
    let sep = chars_of(": ");
    let k = match find_exec(&after, &sep, 0) {
        Some(k) => k,
        None => return None,
    };
    let code = slice_chars(&after, 0, k);
    assert(code@ =~= after@.take(k as int));
    if !matches_at_exec(&code, &chars_of("TS"), 0) {
        return None;
    }
    let alen = after.len();
    let (a, b) = trim_range(&after, k + sep.len(), alen);
    assert(after@.subrange(k + sep@.len(), alen as int) =~= after@.skip(k + ": "@.len()));
    let message = string_of_range(&after, a, b);
    let (file, span) = match location {
        Some(loc) => (
            Some(loc.file),
            Some(Span { line: loc.line, column: loc.column, end_line: None, end_column: None }),
        ),
        None => (None, None),
    };
    Some(
        Diagnostic {
            source: owned("tsc"),
            severity,
            file,
            span,
            code: Some(string_of(&code)),
            message,
        },
    )
}

/// Parses one `--pretty false` tsc line. Two shapes are handled:
///   src/api.ts(12,5): error TS2304: Cannot find name 'foo'.
///   error TS18003: No inputs were found in config file ...
pub fn parse_line(line: &str) -> (r: Option<Diagnostic>)
    ensures
        diagnostic_view(r) == parse_line_text(line@),
{
    parse_line_chars(&chars_of(line))
}

/// The diagnostics of the lines that parse, in order.
pub open spec fn parsed_lines(ls: Seq<Seq<char>>) -> Seq<DiagnosticView>
    decreases ls.len(),
{
    if ls.len() == 0 {
        Seq::empty()
    } else {
        match parse_line_text(ls.last()) {
            Some(d) => parsed_lines(ls.drop_last()).push(d),
            None => parsed_lines(ls.drop_last()),
        }
    }
}

/// The text tsc's diagnostics are read from: stdout, or stderr when stdout is
/// only whitespace.
pub open spec fn body_text(stdout: Seq<char>, stderr: Seq<char>) -> Seq<char> {
    if trim(stdout).len() == 0 {
        stderr
    } else {
        stdout
    }
}

/// Parses all of tsc's output: every line that is a diagnostic, in order.
pub fn parse(raw: &RawOutput) -> (r: Vec<Diagnostic>)
    ensures
        views(r@) == parsed_lines(lines(body_text(raw.stdout@, raw.stderr@))),
{
    let out_cs = chars_of(raw.stdout);
    let (a, b) = trim_range(&out_cs, 0, out_cs.len());
    assert(out_cs@.subrange(0, out_cs@.len() as int) =~= out_cs@);
    let body = if a == b {
        chars_of(raw.stderr)
    } else {
        out_cs
    };
    let ls = lines_of(&body);
    let ghost rows = char_rows(ls@);
    let mut out: Vec<Diagnostic> = Vec::new();
    let mut i: usize = 0;
    assert(rows.take(0) =~= Seq::<Seq<char>>::empty());
    assert(views(out@) =~= Seq::<DiagnosticView>::empty());
    while i < ls.len()
        invariant
            i <= ls@.len(),
            rows == char_rows(ls@),
            views(out@) == parsed_lines(rows.take(i as int)),
        decreases ls@.len() - i,
    {
        assert(rows.take(i + 1).drop_last() =~= rows.take(i as int));
        assert(rows.take(i + 1).last() == ls@[i as int]@);
        let ghost before = out@;
        match parse_line_chars(&ls[i]) {
            Some(d) => {
                out.push(d);
                assert(views(out@) =~= views(before).push(out@.last()@));
            },
            None => {},
        }
        i += 1;
    }
    assert(rows.take(i as int) =~= rows);
    out
}


/// A streaming parser for tsc's line-oriented output.
pub struct TscParser;

impl StreamParser for TscParser {
    fn push_line(&mut self, line: &str) -> (r: Vec<Diagnostic>)
        ensures
            views(r@) == optional_views(parse_line_text(line@)),
    {
        one_or_none(parse_line(line))
    }
}


/// A fresh parser for tsc's output.
pub fn parser() -> (r: Parser)
    ensures
        r is Tsc,
{
    Parser::Tsc(TscParser)
}


/// Scanning `a + e` for `--pretty` from index `a.len() + j` on reads only `e`.
pub proof fn lemma_pretty_shift(a: Seq<Seq<char>>, e: Seq<Seq<char>>, j: int)
    requires
        0 <= j,
    ensures
        pretty_from(a + e, a.len() + j) == pretty_from(e, j),
    decreases e.len() - j,
{
    let s = a + e;
    if j < e.len() {
        assert(s[a.len() + j] == e[j]);
        if a.len() + j + 1 < s.len() {
            assert(s[a.len() + j + 1] == e[j + 1]);
        }
        lemma_pretty_shift(a, e, j + 1);
    }
}

/// When `a` sets no `--pretty` from index `i` on, scanning `a + e` from `i` reads
/// only `e`.
pub proof fn lemma_pretty_past(a: Seq<Seq<char>>, e: Seq<Seq<char>>, i: int)
    requires
        0 <= i <= a.len(),
        pretty_from(a, i) is None,
    ensures
        pretty_from(a + e, i) == pretty_from(e, 0),
    decreases a.len() - i,
{
    if i < a.len() {
        assert((a + e)[i] == a[i]);
        lemma_pretty_past(a, e, i + 1);
    } else {
        lemma_pretty_shift(a, e, 0);
    }
}

/// Running tsc with the flags simp injects asks for nothing more: injecting
/// again into the extended args appends nothing.
pub proof fn lemma_injection_settles(args: Seq<Seq<char>>)
    requires
        injection_for(args) is Append,
    ensures
        injection_for(args + injection_for(args)->Append_0) == InjectionView::Append(seq![]),
{
    let flags = injection_for(args)->Append_0;
    if pretty_from(args, 0) is Some {
        assert(args + flags =~= args);
    } else {
        let e = seq!["--pretty"@, "false"@];
        assert(flags == e);
        lemma_pretty_past(args, e, 0);
        reveal_strlit("--pretty");
        reveal_strlit("--pretty=");
        assert(!starts_with(e[0], "--pretty="@));
        assert(pretty_from(e, 0) == Some(false));
    }
}


/// The text after a tsc line's location: `<severity> <code>: <message>`.
pub open spec fn body_line(severity: Severity, code: Seq<char>, message: Seq<char>) -> Seq<char> {
    severity_word(severity) + seq![' '] + code + ": "@ + message
}

/// A full tsc line: `<file>(<line>,<column>): ` followed by the body.
pub open spec fn located_line(
    file: Seq<char>,
    line: u32,
    column: u32,
    severity: Severity,
    code: Seq<char>,
    message: Seq<char>,
) -> Seq<char> {
    file + seq!['('] + decimal(line as nat) + seq![','] + decimal(column as nat) + "): "@
        + body_line(severity, code, message)
}

/// In a body line, the severity word ends at the first space and the code at the
/// first `": "` after it, so the message is everything after that separator.
proof fn lemma_body_fields(severity: Severity, code: Seq<char>, message: Seq<char>)
    requires
        severity != Severity::Info,
        forall|j: int| 0 <= j < code.len() ==> code[j] != ':',
    ensures
        ({
            let rest = body_line(severity, code, message);
            let w = severity_word(severity).len() as int;
            &&& find(rest, seq![' ']) == Some(w)
            &&& rest.take(w) == severity_word(severity)
            &&& severity_of_word(severity_word(severity)) == Some(severity)
            &&& rest.skip(w + 1) == code + ": "@ + message
            &&& find(code + ": "@ + message, ": "@) == Some(code.len() as int)
            &&& (code + ": "@ + message).take(code.len() as int) == code
            &&& (code + ": "@ + message).skip(code.len() + 2int) == message
        }),
{
    reveal_strlit("error");
    reveal_strlit("warning");
    reveal_strlit(": ");
    let word = severity_word(severity);
    let rest = body_line(severity, code, message);
    let w = word.len() as int;
    let after = code + ": "@ + message;
    assert(rest =~= word + (seq![' '] + after));
    assert(rest.subrange(w, w + 1) =~= seq![' ']);
    assert(forall|j: int| 0 <= j < w ==> rest[j] == word[j]);
    lemma_find_first(rest, seq![' '], w);
    assert(rest.take(w) =~= word);
    assert(rest.skip(w + 1) =~= after);
    if word == "warning"@ {
        assert(word != "error"@) by {
            assert(word.len() != "error"@.len());
        }
    }
    let c = code.len() as int;
    assert(after.subrange(c, c + 2) =~= ": "@);
    assert(forall|j: int| 0 <= j < c ==> after[j] == code[j]);
    lemma_find_first(after, ": "@, c);
    assert(after.take(c) =~= code);
    assert(after.skip(c + 2) =~= message);
}

/// A located tsc line is read into its parts: the file is the text before the
/// coordinates, the span holds the line and column, the code is the text between
/// the severity word and the first `": "` after it, and the message is the rest,
/// trimmed, kept whole even where it holds `:` or `": "` itself.
pub proof fn lemma_parse_located_line(
    file: Seq<char>,
    line: u32,
    column: u32,
    severity: Severity,
    code: Seq<char>,
    message: Seq<char>,
)
    requires
        forall|j: int| 0 <= j < file.len() ==> file[j] != ')',
        severity != Severity::Info,
        starts_with(code, "TS"@),
        forall|j: int| 0 <= j < code.len() ==> code[j] != ':',
    ensures
        parse_line_text(located_line(file, line, column, severity, code, message)) == Some(
            DiagnosticView {
                source: "tsc"@,
                severity,
                file: Some(file),
                span: Some(Span { line, column, end_line: None, end_column: None }),
                code: Some(code),
                message: trim(message),
            },
        ),
{
    reveal_strlit("): ");
    let dl = decimal(line as nat);
    let dc = decimal(column as nat);
    lemma_decimal_digits(line as nat);
    lemma_decimal_digits(column as nat);
    lemma_parse_u32_decimal(line);
    lemma_parse_u32_decimal(column);
    let body = body_line(severity, code, message);
    let head = file + seq!['('] + dl + seq![','] + dc;
    let full = located_line(file, line, column, severity, code, message);
    assert(full =~= head + ("): "@ + body));
    let m = head.len() as int;
    assert(full.subrange(m, m + 3) =~= "): "@);
    assert forall|j: int| 0 <= j < m implies full[j] != ')' by {
        assert(full[j] == head[j]);
        if j >= file.len() + 1 && j < file.len() + 1 + dl.len() {
            assert(is_digit(dl[j - file.len() - 1]));
        }
        if j >= file.len() + 2 + dl.len() {
            assert(is_digit(dc[j - file.len() - 2 - dl.len()]));
        }
    }
    lemma_find_first(full, "): "@, m);
    assert(full.take(m) =~= head);
    assert(full.skip(m + "): "@.len()) =~= body);
    let open = file.len() as int;
    assert forall|j: int| open < j < head.len() implies head[j] != '(' by {
        if j >= file.len() + 1 && j < file.len() + 1 + dl.len() {
            assert(is_digit(dl[j - file.len() - 1]));
        }
        if j >= file.len() + 2 + dl.len() {
            assert(is_digit(dc[j - file.len() - 2 - dl.len()]));
        }
    }
    lemma_rfind_last(head, '(', open);
    let coords = head.skip(open + 1);
    assert(coords =~= dl + seq![','] + dc);
    assert(coords.subrange(dl.len() as int, dl.len() + 1int) =~= seq![',']);
    assert forall|j: int| 0 <= j < dl.len() implies coords[j] != ',' by {
        assert(is_digit(dl[j]));
    }
    lemma_find_first(coords, seq![','], dl.len() as int);
    assert(coords.take(dl.len() as int) =~= dl);
    assert(coords.skip(dl.len() + 1int) =~= dc);
    assert(head.take(open) =~= file);
    assert(split_location_text(full) == (
        Some(LocationView { file, line, column }),
        body,
    ));
    reveal_strlit(": ");
    lemma_body_fields(severity, code, message);
}

/// A tsc line without a location is read the same way: no file and no span, the
/// code up to the first `": "`, and the rest of the line, trimmed, as the message.
pub proof fn lemma_parse_global_line(severity: Severity, code: Seq<char>, message: Seq<char>)
    requires
        severity != Severity::Info,
        starts_with(code, "TS"@),
        forall|j: int| 0 <= j < code.len() ==> code[j] != ':' && code[j] != ')',
        forall|j: int| 0 <= j < message.len() ==> message[j] != ')',
    ensures
        parse_line_text(body_line(severity, code, message)) == Some(
            DiagnosticView {
                source: "tsc"@,
                severity,
                file: None,
                span: None,
                code: Some(code),
                message: trim(message),
            },
        ),
{
    reveal_strlit("): ");
    reveal_strlit(": ");
    reveal_strlit("error");
    reveal_strlit("warning");
    let body = body_line(severity, code, message);
    let word = severity_word(severity);
    assert forall|j: int| 0 <= j < body.len() implies body[j] != "): "@[0] by {
        if j >= word.len() + 1 + code.len() + 2 {
            assert(body[j] == message[j - word.len() - 1 - code.len() - 2]);
        }
    }
    lemma_find_none(body, "): "@);
    lemma_body_fields(severity, code, message);
}


/// Whether `args` leaves tsc's `--pretty` setting alone: no arg is `--pretty` or
/// starts with `--pretty=`.
pub open spec fn no_pretty_arg(args: Seq<Seq<char>>) -> bool {
    forall|i: int| 0 <= i < args.len() ==> args[i] != "--pretty"@ && !starts_with(args[i], "--pretty="@)
}

proof fn lemma_no_pretty_from(args: Seq<Seq<char>>, i: int)
    requires
        0 <= i,
        no_pretty_arg(args),
    ensures
        pretty_from(args, i) is None,
    decreases args.len() - i,
{
    if i < args.len() {
        lemma_no_pretty_from(args, i + 1);
    }
}

/// A bare `--pretty` turns pretty output off only when the very next arg is
/// `false`; followed by anything else (another flag, `true`) or by nothing it
/// turns it on, and simp refuses to inject. Args before it that leave the setting
/// alone change nothing.
pub proof fn lemma_bare_pretty(args: Seq<Seq<char>>, rest: Seq<Seq<char>>)
    requires
        no_pretty_arg(args),
    ensures
        injection_for(args + seq!["--pretty"@] + rest) == (if rest.len() > 0 && rest[0]
            == "false"@ {
            InjectionView::Append(seq![])
        } else {
            InjectionView::Unsupported(
                "tsc `--pretty` is enabled; simp needs `--pretty false` to parse output"@,
            )
        }),
{
    reveal_strlit("--pretty");
    reveal_strlit("--pretty=");
    let e = seq!["--pretty"@] + rest;
    lemma_no_pretty_from(args, 0);
    lemma_pretty_past(args, e, 0);
    assert(args + seq!["--pretty"@] + rest =~= args + e);
    assert(e[0] == "--pretty"@);
    assert(!starts_with(e[0], "--pretty="@));
    if rest.len() > 0 {
        assert(e[1] == rest[0]);
    }
}

/// `--pretty=<v>` turns pretty output off only when `v` is exactly `false`; any
/// other value turns it on, and simp refuses to inject.
pub proof fn lemma_pretty_value(args: Seq<Seq<char>>, value: Seq<char>, rest: Seq<Seq<char>>)
    requires
        no_pretty_arg(args),
    ensures
        injection_for(args + seq!["--pretty="@ + value] + rest) == (if value == "false"@ {
            InjectionView::Append(seq![])
        } else {
            InjectionView::Unsupported(
                "tsc `--pretty` is enabled; simp needs `--pretty false` to parse output"@,
            )
        }),
{
    let arg = "--pretty="@ + value;
    let e = seq![arg] + rest;
    lemma_no_pretty_from(args, 0);
    lemma_pretty_past(args, e, 0);
    assert(args + seq![arg] + rest =~= args + e);
    assert(e[0] == arg);
    assert(arg.subrange(0, "--pretty="@.len() as int) =~= "--pretty="@);
    assert(arg.skip("--pretty="@.len() as int) =~= value);
}


/// Parsing all of tsc's output at once gives the same diagnostics, in the same
/// order, as streaming its lines one at a time through the line parser.
pub proof fn lemma_streaming_matches_batch(ls: Seq<Seq<char>>)
    ensures
        parsed_lines(ls) == ls.flat_map(|l: Seq<char>| optional_views(parse_line_text(l))),
    decreases ls.len(),
{
    let f = |l: Seq<char>| optional_views(parse_line_text(l));
    if ls.len() == 0 {
        assert(ls.map_values(f) =~= Seq::<Seq<DiagnosticView>>::empty());
    } else {
        let init = ls.drop_last();
        lemma_streaming_matches_batch(init);
        init.lemma_flat_map_push(f, ls.last());
        assert(init.push(ls.last()) =~= ls);
        match parse_line_text(ls.last()) {
            Some(d) => {
                assert(parsed_lines(init).push(d) =~= parsed_lines(init) + seq![d]);
            },
            None => {
                assert(parsed_lines(init) =~= parsed_lines(init) + Seq::<DiagnosticView>::empty());
            },
        }
    }
}

} // verus!
