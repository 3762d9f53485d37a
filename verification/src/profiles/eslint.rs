use vstd::prelude::*;

use crate::diagnostic::{text_opt, views, Diagnostic, DiagnosticView, Severity, Span};
use crate::profiles::{
    dangling_flag, first_flag_match, flag_matches, flag_value, flag_value_of, has_flag_in,
    lemma_flag_value_append, lemma_flag_value_given, Injection, InjectionView, Parser,
};
use crate::text::{chars_equal, chars_of, lacks, owned, push_char, push_str, strs, texts};

verus! {

/// What simp injects for eslint: `--format json` unless the args already choose
/// a format; refused when they choose another one.
pub open spec fn injection_for(args: Seq<Seq<char>>) -> InjectionView {
    match flag_value_of(args, seq!["-f"@, "--format"@]) {
        Some(v) => if v == "json"@ {
            InjectionView::Append(seq![])
        } else {
            InjectionView::Unsupported(
                "eslint is set to `--format "@ + v + "`; simp needs `--format json`"@,
            )
        },
        None => InjectionView::Append(seq!["--format"@, "json"@]),
    }
}

/// eslint can emit many report formats; simp parses the JSON one. Respect an
/// existing `--format json`, and refuse to fight a different formatter the user
/// asked for.
pub fn inject(args: &[String]) -> (r: Injection)
    ensures
        r@ == injection_for(texts(args@)),
{
    let names: [&str; 2] = ["-f", "--format"];
    assert(strs(names@) =~= seq!["-f"@, "--format"@]);
    match flag_value(args, &names) {
        Some(value) => {
            if chars_equal(&chars_of(value), &chars_of("json")) {
                let v: Vec<String> = Vec::new();
                assert(texts(v@) =~= seq![]);
                Injection::Append(v)
            } else {
                let mut reason = String::new();
                push_str(&mut reason, "eslint is set to `--format ");
                push_str(&mut reason, value);
                push_str(&mut reason, "`; simp needs `--format json`");
                assert(reason@ =~= "eslint is set to `--format "@ + value@
                    + "`; simp needs `--format json`"@);
                Injection::Unsupported(reason)
            }
        },
        None => {
            let mut v: Vec<String> = Vec::new();
            v.push(owned("--format"));
            v.push(owned("json"));
            assert(texts(v@) =~= seq!["--format"@, "json"@]);
            Injection::Append(v)
        },
    }
}

/// One message of eslint's JSON report.
#[derive(Debug, Clone)]
pub struct Message {
    pub rule_id: Option<String>,
    pub severity: u8,
    pub message: String,
    pub line: Option<u32>,
    pub column: Option<u32>,
    pub end_line: Option<u32>,
    pub end_column: Option<u32>,
}

/// One file's entry in eslint's JSON report.
#[derive(Debug, Clone)]
pub struct FileResult {
    pub file_path: String,
    pub messages: Vec<Message>,
}

/// eslint's numeric severity: 2 is an error, 1 a warning, anything else info.
pub open spec fn severity_for(value: u8) -> Severity {
    if value == 2 {
        Severity::Error
    } else if value == 1 {
        Severity::Warning
    } else {
        Severity::Info
    }
}

/// Maps eslint's numeric severity.
pub fn severity_from(value: u8) -> (r: Severity)
    ensures
        r == severity_for(value),
{
    match value {
        2 => Severity::Error,
        1 => Severity::Warning,
        _ => Severity::Info,
    }
}

/// A message's span: none without a line; the column defaults to 1.
pub open spec fn span_for(m: Message) -> Option<Span> {
    match m.line {
        Some(l) => Some(
            Span {
                line: l,
                column: match m.column {
                    Some(c) => c,
                    None => 1,
                },
                end_line: m.end_line,
                end_column: m.end_column,
            },
        ),
        None => None,
    }
}

/// The span of a message.
pub fn span_from(message: &Message) -> (r: Option<Span>)
    ensures
        r == span_for(*message),
{
    let line = match message.line {
        Some(l) => l,
        None => return None,
    };
    Some(
        Span {
            line,
            column: match message.column {
                Some(c) => c,
                None => 1,
            },
            end_line: message.end_line,
            end_column: message.end_column,
        },
    )
}

/// The diagnostic for one message of the file at `path`.
pub open spec fn message_view(path: Seq<char>, m: Message) -> DiagnosticView {
    DiagnosticView {
        source: "eslint"@,
        severity: severity_for(m.severity),
        file: Some(path),
        span: span_for(m),
        code: text_opt(m.rule_id),
        message: m.message@,
    }
}

/// The diagnostics of one file's messages, in order.
pub open spec fn file_views(f: FileResult) -> Seq<DiagnosticView> {
    f.messages@.map_values(|m: Message| message_view(f.file_path@, m))
}

/// The diagnostics of all files' messages, file by file.
pub open spec fn files_views(fs: Seq<FileResult>) -> Seq<DiagnosticView>
    decreases fs.len(),
{
    if fs.len() == 0 {
        Seq::empty()
    } else {
        files_views(fs.drop_last()) + file_views(fs.last())
    }
}

/// A copy of an optional string.
fn copy_opt(o: &Option<String>) -> (r: Option<String>)
    ensures
        text_opt(r) == text_opt(*o),
{
    match o {
        Some(s) => Some(s.clone()),
        None => None,
    }
}

/// Turns eslint's decoded JSON report into diagnostics: one per message, file by
/// file. A document that did not decode gives none.
pub fn parse(decoded: Option<Vec<FileResult>>) -> (r: Vec<Diagnostic>)
    ensures
        views(r@) == match decoded {
            Some(fs) => files_views(fs@),
            None => Seq::empty(),
        },
{
    let mut out: Vec<Diagnostic> = Vec::new();
    let files = match decoded {
        Some(fs) => fs,
        None => {
            assert(views(out@) =~= Seq::<DiagnosticView>::empty());
            return out;
        },
    };
    let mut i: usize = 0;
    assert(files@.take(0) =~= Seq::<FileResult>::empty());
    assert(views(out@) =~= Seq::<DiagnosticView>::empty());
    while i < files.len()
        invariant
            i <= files@.len(),
            views(out@) == files_views(files@.take(i as int)),
        decreases files@.len() - i,
    {
        let file = &files[i];
        let ghost base = views(out@);
        let ghost fv = file_views(*file);
        let mut j: usize = 0;
        assert(fv.take(0) =~= Seq::<DiagnosticView>::empty());
        assert(base + fv.take(0) =~= base);
        while j < file.messages.len()
            invariant
                j <= file.messages@.len(),
                fv == file_views(*file),
                views(out@) == base + fv.take(j as int),
            decreases file.messages@.len() - j,
        {
            let m = &file.messages[j];
            let d = Diagnostic {
                source: owned("eslint"),
                severity: severity_from(m.severity),
                file: Some(file.file_path.clone()),
                span: span_from(m),
                code: copy_opt(&m.rule_id),
                message: m.message.clone(),
            };
            assert(d@ == fv[j as int]);
            let ghost before = views(out@);
            out.push(d);
            assert(views(out@) =~= before.push(d@));
            assert(fv.take(j + 1) =~= fv.take(j as int).push(fv[j as int]));
            j += 1;
        }
        assert(fv.take(j as int) =~= fv);
        assert(files@.take(i + 1).drop_last() =~= files@.take(i as int));
        assert(files@.take(i + 1).last() == *file);
        i += 1;
    }
    assert(files@.take(i as int) =~= files@);
    out
}

/// eslint's `--format json` is a single JSON array emitted at the end, so it
/// can't be parsed incrementally: the parser accumulates the document, which is
/// decoded whole once the stream closes.
pub struct EslintParser {
    pub document: String,
}

impl EslintParser {
    /// A parser with an empty document.
    pub fn new() -> (r: EslintParser)
        ensures
            r.document@ == Seq::<char>::empty(),
    {
        EslintParser { document: String::new() }
    }

    /// Adds one line, with its newline, to the document; nothing is complete yet.
    pub fn push_line(&mut self, line: &str) -> (r: Vec<Diagnostic>)
        ensures
            final(self).document@ == old(self).document@ + line@ + seq!['\n'],
            r@.len() == 0,
    {
        push_str(&mut self.document, line);
        push_char(&mut self.document, '\n');
        Vec::new()
    }

    /// The whole document, for decoding.
    pub fn finish(self) -> (r: String)
        ensures
            r@ == self.document@,
    {
        self.document
    }
}

impl Default for EslintParser {
    fn default() -> (r: EslintParser)
        ensures
            r.document@ == Seq::<char>::empty(),
    {
        EslintParser::new()
    }
}


/// A fresh parser for eslint's JSON report.
pub fn parser() -> (r: Parser)
    ensures
        r matches Parser::Eslint(e) && e.document@ == Seq::<char>::empty(),
{
    Parser::Eslint(EslintParser::new())
}


/// Every message of the report with the path of its file, file by file.
pub open spec fn located_messages(fs: Seq<FileResult>) -> Seq<(Seq<char>, Message)>
    decreases fs.len(),
{
    if fs.len() == 0 {
        Seq::empty()
    } else {
        located_messages(fs.drop_last()) + fs.last().messages@.map_values(
            |m: Message| (fs.last().file_path@, m),
        )
    }
}

/// Whether `d` is the diagnostic eslint's message `m`, in the file at `path`,
/// stands for: the same file, rule and message text, the numeric severity read
/// as 2 error, 1 warning, otherwise info, and the span of its position.
pub open spec fn reports(d: DiagnosticView, path: Seq<char>, m: Message) -> bool {
    &&& d.source == "eslint"@
    &&& d.file == Some(path)
    &&& d.code == text_opt(m.rule_id)
    &&& d.message == m.message@
    &&& d.severity == (if m.severity == 2 {
        Severity::Error
    } else if m.severity == 1 {
        Severity::Warning
    } else {
        Severity::Info
    })
    &&& d.span == span_for(m)
}

/// The report gives exactly one diagnostic per message, in file order, and the
/// k-th diagnostic carries the k-th message unchanged.
pub proof fn lemma_one_diagnostic_per_message(fs: Seq<FileResult>)
    ensures
        files_views(fs).len() == located_messages(fs).len(),
        forall|k: int|
            0 <= k < files_views(fs).len() ==> reports(
                #[trigger] files_views(fs)[k],
                located_messages(fs)[k].0,
                located_messages(fs)[k].1,
            ),
    decreases fs.len(),
{
    if fs.len() > 0 {
        let init = fs.drop_last();
        let f = fs.last();
        lemma_one_diagnostic_per_message(init);
        let n = files_views(init).len() as int;
        let here = f.messages@.map_values(|m: Message| (f.file_path@, m));
        assert forall|k: int| 0 <= k < files_views(fs).len() implies reports(
            #[trigger] files_views(fs)[k],
            located_messages(fs)[k].0,
            located_messages(fs)[k].1,
        ) by {
            if k < n {
                assert(files_views(fs)[k] == files_views(init)[k]);
                assert(located_messages(fs)[k] == located_messages(init)[k]);
            } else {
                assert(files_views(fs)[k] == file_views(f)[k - n]);
                assert(located_messages(fs)[k] == here[k - n]);
            }
        }
    }
}


/// Running eslint with the flags simp injects asks for nothing more: injecting
/// again into the extended args appends nothing. (Args that end with a bare
/// `-f` or `--format` are left out: their format is missing, and the injected
/// flags would become its value.)
pub proof fn lemma_injection_settles(args: Seq<Seq<char>>)
    requires
        injection_for(args) is Append,
        !dangling_flag(args, seq!["-f"@, "--format"@]),
    ensures
        injection_for(args + injection_for(args)->Append_0) == InjectionView::Append(seq![]),
{
    let names = seq!["-f"@, "--format"@];
    let flags = injection_for(args)->Append_0;
    if flag_value_of(args, names) is Some {
        assert(args + flags =~= args);
    } else {
        let e = seq!["--format"@, "json"@];
        assert(flags == e);
        lemma_flag_value_append(args, e, names);
        reveal_strlit("--format");
        reveal_strlit("-f");
        reveal_strlit("-f=");
        reveal_strlit("json");
        assert(names[0].push('=') =~= "-f="@);
        assert(e[0].subrange(0, 3) != "-f="@) by {
            assert(e[0].subrange(0, 3)[1] == '-');
        }
        assert(!flag_matches(e[0], names[0]));
        assert(flag_matches(e[0], names[1]));
        assert(first_flag_match(e[0], names, 1) == Some(1int));
        assert(first_flag_match(e[0], names, 0) == Some(1int));
        assert(flag_value_of(e, names) == Some("json"@));
    }
}


/// A format given as `-f` or `--format` after args that choose none is the one used:
/// `json`, given either as a separate arg or after `=`, needs nothing injected;
/// any other value is refused, naming it.
pub proof fn lemma_format_given(args: Seq<Seq<char>>, flag: Seq<char>, value: Seq<char>, rest: Seq<Seq<char>>)
    requires
        !has_flag_in(args, seq!["-f"@, "--format"@]),
        (flag == "-f"@ || flag == "--format"@),
    ensures
        ({
            let expected = if value == "json"@ {
                InjectionView::Append(seq![])
            } else {
                InjectionView::Unsupported("eslint is set to `--format "@ + value + "`; simp needs `--format json`"@)
            };
            &&& injection_for(args + seq![flag, value] + rest) == expected
            &&& injection_for(args + seq![flag + seq!['='] + value] + rest) == expected
        }),
{
    reveal_strlit("-f");
    reveal_strlit("--format");
    let names = seq!["-f"@, "--format"@];
    assert forall|j: int| 0 <= j < names.len() implies lacks(#[trigger] names[j], '=') by {}
    let k: int = if flag == names[0] { 0 } else { 1 };
    assert(names[k] == flag);
    lemma_flag_value_given(args, names, k, value, rest);
}

} // verus!
