use simp::cli::{command_or_bail, resolve_or_bail, Enabled};
use simp::diagnostic::{summarize, Diagnostic, Report, Severity, Span, SummaryAccumulator};
use simp::format::{
    flat_line, pluralize, render_flat, span_coords, summary_line, Finished, Format, Renderer,
};
use simp::profiles::biome;
use simp::profiles::eslint::{self, FileResult, Message};
use simp::profiles::list_different::ListDifferent;
use simp::profiles::tsc;
use simp::profiles::{
    flag_value, has_flag, known_names, program_stem, resolve, Injection, Parser, Pending,
    Profile, RawOutput, StreamParser, Tool,
};
use simp::runner::{exit_status, wrapped_args};

fn args(items: &[&str]) -> Vec<String> {
    items.iter().map(|item| item.to_string()).collect()
}

fn diag(severity: Severity, file: Option<&str>, span: Option<(u32, u32)>, code: Option<&str>, message: &str) -> Diagnostic {
    Diagnostic {
        source: "tsc".to_string(),
        severity,
        file: file.map(|f| f.to_string()),
        span: span.map(|(line, column)| Span { line, column, end_line: None, end_column: None }),
        code: code.map(|c| c.to_string()),
        message: message.to_string(),
    }
}

fn readme_diagnostics() -> Vec<Diagnostic> {
    vec![
        diag(Severity::Error, Some("src/api.ts"), Some((12, 5)), Some("TS2304"), "Cannot find name 'foo'"),
        diag(Severity::Error, Some("src/db.ts"), Some((8, 3)), Some("TS2345"), "Argument type mismatch"),
    ]
}

#[test]
fn severity_labels() {
    assert_eq!(Severity::Error.label(), "error");
    assert_eq!(Severity::Warning.label(), "warning");
    assert_eq!(Severity::Info.label(), "info");
}

#[test]
fn summary_counts_severities_and_distinct_files() {
    let ds = vec![
        diag(Severity::Error, Some("a.ts"), None, None, "x"),
        diag(Severity::Warning, Some("a.ts"), None, None, "y"),
        diag(Severity::Warning, Some("b.ts"), None, None, "z"),
        diag(Severity::Info, None, None, None, "w"),
    ];
    let s = summarize(&ds);
    assert_eq!((s.errors, s.warnings, s.infos, s.files), (1, 2, 1, 2));
    let report = Report::new(ds, 3);
    assert_eq!(report.tool_exit, 3);
    assert_eq!(report.summary, s);
    assert_eq!(report.diagnostics.len(), 4);
}

#[test]
fn streaming_tally_matches_summary() {
    let ds = readme_diagnostics();
    let mut acc = SummaryAccumulator::default();
    for d in &ds {
        acc.add(d);
    }
    assert_eq!(acc.summary(), summarize(&ds));
}

#[test]
fn flat_render_matches_readme() {
    let report = Report::new(readme_diagnostics(), 2);
    assert_eq!(
        render_flat(&report),
        "error src/api.ts:12:5 TS2304 Cannot find name 'foo'\nerror src/db.ts:8:3 TS2345 Argument type mismatch\n\n2 errors, 2 files\n"
    );
}

#[test]
fn flat_render_without_problems() {
    let report = Report::new(Vec::new(), 0);
    assert_eq!(render_flat(&report), "no problems\n");
    assert_eq!(summary_line(&report), "no problems");
}

#[test]
fn summary_line_lists_counts_in_order() {
    let ds = vec![
        diag(Severity::Info, Some("a.ts"), None, None, "i"),
        diag(Severity::Warning, Some("a.ts"), None, None, "w"),
        diag(Severity::Error, Some("a.ts"), None, None, "e"),
        diag(Severity::Warning, Some("a.ts"), None, None, "w2"),
    ];
    let report = Report::new(ds, 1);
    assert_eq!(summary_line(&report), "1 error, 2 warnings, 1 info, 1 file");
}

#[test]
fn pluralize_counts() {
    assert_eq!(pluralize(1, "error"), "1 error");
    assert_eq!(pluralize(2, "file"), "2 files");
    assert_eq!(pluralize(0, "info"), "0 infos");
    assert_eq!(pluralize(1234567, "warning"), "1234567 warnings");
}

#[test]
fn span_coordinates() {
    let span = Span { line: 40, column: 7, end_line: Some(41), end_column: None };
    assert_eq!(span_coords(&span), "40:7");
    let max = Span { line: u32::MAX, column: 0, end_line: None, end_column: None };
    assert_eq!(span_coords(&max), "4294967295:0");
}

#[test]
fn flat_line_locations() {
    assert_eq!(
        flat_line(&diag(Severity::Warning, Some("a.ts"), None, None, "not formatted")),
        "warning a.ts not formatted"
    );
    assert_eq!(
        flat_line(&diag(Severity::Error, None, Some((1, 2)), Some("TS18003"), "No inputs")),
        "error <unknown> TS18003 No inputs"
    );
}

#[test]
fn streamed_flat_output_equals_batch_render() {
    let ds = readme_diagnostics();
    let mut renderer = Renderer::new(Format::Flat);
    let mut out = String::new();
    for d in ds.clone() {
        out.push_str(&renderer.diagnostic(d));
    }
    assert_eq!(renderer.count(), 2);
    match renderer.finish(1) {
        Finished::Text(tail) => out.push_str(&tail),
        Finished::Json(_) => panic!("flat renderer returned a report"),
    }
    assert_eq!(out, render_flat(&Report::new(ds, 1)));
}

#[test]
fn json_renderer_buffers_report() {
    let mut renderer = Renderer::new(Format::Json);
    for d in readme_diagnostics() {
        assert_eq!(renderer.diagnostic(d), "");
    }
    match renderer.finish(7) {
        Finished::Json(report) => {
            assert_eq!(report.diagnostics.len(), 2);
            assert_eq!(report.tool_exit, 7);
            assert_eq!((report.summary.errors, report.summary.files), (2, 2));
        }
        Finished::Text(_) => panic!("json renderer returned text"),
    }
}

#[test]
fn resolves_through_directories() {
    let p = resolve("./node_modules/.bin/tsc").unwrap();
    assert_eq!((p.name, p.tool), ("tsc", Tool::Tsc));
    assert_eq!(resolve("C:\\tools\\eslint").unwrap().tool, Tool::Eslint);
    assert!(resolve("cargo").is_none());
    assert!(resolve("tsc/").is_none());
    assert_eq!(program_stem("a/b\\c"), "c");
    assert_eq!(program_stem("plain"), "plain");
}

#[test]
fn known_names_resolve_to_their_tools() {
    let names = known_names();
    assert_eq!(names, vec!["tsc", "eslint", "biome", "prettier", "oxfmt"]);
    for name in names {
        assert_eq!(resolve(name).unwrap().name, name);
    }
}

#[test]
fn flag_values_in_both_forms() {
    let names = ["-f", "--format"];
    assert_eq!(flag_value(&args(&["-f", "json"]), &names), Some("json"));
    assert_eq!(flag_value(&args(&["x", "--format=a=b"]), &names), Some("a=b"));
    assert_eq!(flag_value(&args(&["--format"]), &names), None);
    assert_eq!(flag_value(&args(&["--formats", "x"]), &names), None);
    assert!(has_flag(&args(&["--write=yes"]), &["--write"]));
    assert!(!has_flag(&args(&["--writer"]), &["--write"]));
}

#[test]
fn injection_settles_for_every_tool() {
    for tool in [Tool::Tsc, Tool::Eslint, Tool::Biome, Tool::Prettier, Tool::Oxfmt] {
        let profile = Profile::of(tool);
        let user = args(&["src/"]);
        let flags = match profile.inject(&user) {
            Injection::Append(flags) => flags,
            Injection::Unsupported(reason) => panic!("{reason}"),
        };
        assert!(!flags.is_empty());
        let mut extended = user.clone();
        extended.extend(flags);
        assert_eq!(profile.inject(&extended), Injection::Append(vec![]));
    }
}

#[test]
fn dangling_format_flag_is_not_settled() {
    let user = args(&["-f"]);
    let flags = match eslint::inject(&user) {
        Injection::Append(flags) => flags,
        Injection::Unsupported(_) => panic!("unexpected refusal"),
    };
    let mut extended = user.clone();
    extended.extend(flags);
    assert!(matches!(eslint::inject(&extended), Injection::Unsupported(_)));
}

#[test]
fn unsupported_messages() {
    assert_eq!(
        eslint::inject(&args(&["--format", "stylish"])),
        Injection::Unsupported("eslint is set to `--format stylish`; simp needs `--format json`".to_string())
    );
    assert_eq!(
        biome::inject(&args(&["--reporter=json"])),
        Injection::Unsupported("biome is set to `--reporter json`; simp needs `--reporter=github`".to_string())
    );
    assert_eq!(
        tsc::inject(&args(&["--pretty=yes"])),
        Injection::Unsupported("tsc `--pretty` is enabled; simp needs `--pretty false` to parse output".to_string())
    );
}

#[test]
fn wrapped_args_append_or_warn() {
    let (all, warning) = wrapped_args(&args(&["--noEmit"]), Injection::Append(args(&["--pretty", "false"])));
    assert_eq!(all, args(&["--noEmit", "--pretty", "false"]));
    assert!(warning.is_none());
    let (all, warning) = wrapped_args(&args(&["--pretty"]), Injection::Unsupported("why".to_string()));
    assert_eq!(all, args(&["--pretty"]));
    assert_eq!(warning.as_deref(), Some("simp: why; diagnostics may be empty"));
}

#[test]
fn exit_status_is_clamped() {
    assert_eq!(exit_status(0), 0);
    assert_eq!(exit_status(2), 2);
    assert_eq!(exit_status(300), 255);
    assert_eq!(exit_status(-1), 0);
}

#[test]
fn command_and_profile_errors() {
    let empty: Vec<String> = Vec::new();
    assert_eq!(
        command_or_bail(&empty).unwrap_err(),
        "no command given. Use `simp <tool> <args>`.\nKnown tools: tsc, eslint, biome, prettier, oxfmt"
    );
    let command = args(&["tsc", "--noEmit"]);
    let (program, rest) = command_or_bail(&command).unwrap();
    assert_eq!(program, "tsc");
    assert_eq!(rest, &command[1..]);
    assert_eq!(
        resolve_or_bail("cargo").unwrap_err(),
        "no profile for `cargo`. Known tools: tsc, eslint, biome, prettier, oxfmt"
    );
    assert_eq!(resolve_or_bail("bin/biome").unwrap().tool, Tool::Biome);
}

#[test]
fn enabled_resolution() {
    assert!(Enabled::True.resolve(false));
    assert!(!Enabled::False.resolve(true));
    assert!(Enabled::Auto.resolve(true));
    assert!(!Enabled::Auto.resolve(false));
}

#[test]
fn biome_unescapes_and_defaults() {
    assert_eq!(biome::unescape_message("100%250A"), "100%0A");
    assert_eq!(biome::unescape_message("a%0D%0Ab"), "a\r\nb");
    assert_eq!(biome::unescape_property("a%2Cb%3Ac"), "a,b:c");
    let d = biome::parse_line("::notice title=x%2Cy,file=dir%3Aa.ts,line=3::hi").unwrap();
    assert_eq!(d.severity, Severity::Info);
    assert_eq!(d.code.as_deref(), Some("x,y"));
    assert_eq!(d.file.as_deref(), Some("dir:a.ts"));
    let span = d.span.unwrap();
    assert_eq!((span.line, span.column, span.end_line), (3, 1, None));
    assert!(biome::parse_line("::error title=x,bad::m").is_none());
    assert!(biome::parse_line("::debug title=x::m").is_none());
    let no_line = biome::parse_line("::error line=x,col=2::m").unwrap();
    assert!(no_line.span.is_none());
    assert!(no_line.file.is_none());
}

#[test]
fn tsc_line_shapes() {
    assert!(tsc::parse_line("src/a.ts(x,5): error TS1: m").is_none());
    let plus = tsc::parse_line("a.ts(+3,1): error TS1: m").unwrap();
    assert_eq!(plus.span.unwrap().line, 3);
    assert!(tsc::parse_line("a.ts(3,1): info TS1: m").is_none());
    assert!(tsc::parse_line("error XX1: m").is_none());
    let nested = tsc::parse_line("dir(1)/f.ts(2,3): error TS9:   spaced  ").unwrap();
    assert_eq!(nested.file.as_deref(), Some("dir(1)/f.ts"));
    assert_eq!(nested.message, "spaced");
    assert!(tsc::parse_line("a.ts(99999999999,1): error TS1: m").is_none());
}

#[test]
fn tsc_reads_stderr_when_stdout_is_blank_and_strips_crlf() {
    let ds = tsc::parse(&RawOutput {
        stdout: " \n\t",
        stderr: "error TS1: one\r\nwarning TS2: two\r\n",
    });
    assert_eq!(ds.len(), 2);
    assert_eq!(ds[0].message, "one");
    assert_eq!(ds[1].severity, Severity::Warning);
    let mut streaming = tsc::TscParser;
    assert_eq!(streaming.push_line("error TS1: one").len(), 1);
    assert!(streaming.finish().is_empty());
}

#[test]
fn list_different_trims_unicode_whitespace() {
    let mut parser = ListDifferent { source: "oxfmt" };
    let out = parser.push_line("\u{3000}src/a.ts\t");
    assert_eq!(out[0].file.as_deref(), Some("src/a.ts"));
    assert_eq!(out[0].source, "oxfmt");
}

#[test]
fn eslint_mapping_helpers() {
    assert_eq!(eslint::severity_from(0), Severity::Info);
    assert_eq!(eslint::severity_from(1), Severity::Warning);
    assert_eq!(eslint::severity_from(2), Severity::Error);
    let message = Message {
        rule_id: None,
        severity: 2,
        message: "m".to_string(),
        line: Some(4),
        column: None,
        end_line: None,
        end_column: Some(9),
    };
    let span = eslint::span_from(&message).unwrap();
    assert_eq!((span.line, span.column, span.end_column), (4, 1, Some(9)));
    let unplaced = Message { line: None, ..message.clone() };
    assert!(eslint::span_from(&unplaced).is_none());
    let files = vec![
        FileResult { file_path: "a.ts".to_string(), messages: vec![message.clone()] },
        FileResult { file_path: "b.ts".to_string(), messages: vec![unplaced, message] },
    ];
    let ds = eslint::parse(Some(files));
    assert_eq!(ds.len(), 3);
    assert_eq!(ds[2].file.as_deref(), Some("b.ts"));
    assert_eq!(ds[0].source, "eslint");
    assert!(eslint::parse(None).is_empty());
}

#[test]
fn parser_dispatch() {
    let mut p = Profile::of(Tool::Eslint).parser();
    assert!(p.push_line("[").is_empty());
    assert!(p.push_line("]").is_empty());
    match p.finish() {
        Pending::Decode(doc) => assert_eq!(doc, "[\n]\n"),
        Pending::Done(_) => panic!("eslint parser finished without its document"),
    }
    let mut p = Profile::of(Tool::Prettier).parser();
    assert_eq!(p.push_line("x.ts")[0].source, "prettier");
    assert!(matches!(p, Parser::ListDifferent(_)));
    assert!(matches!(p.finish(), Pending::Done(v) if v.is_empty()));
    let mut p = Profile::of(Tool::Biome).parser();
    assert_eq!(p.push_line("::error title=t::m").len(), 1);
}

#[test]
fn unescape_message_undoes_github_escaping() {
    // GitHub escapes `%`, `\r` and `\n` in message text.
    assert_eq!(biome::unescape_message("50%25 done%0D%0A"), "50% done\r\n");
    assert_eq!(biome::unescape_message("%250A"), "%0A");
}

#[test]
fn unescape_property_undoes_github_escaping() {
    assert_eq!(biome::unescape_property("a%3Ab%2Cc%25"), "a:b,c%");
    // A value holding the text `%2C` is restored too: `%25` is decoded last.
    assert_eq!(biome::unescape_property("%252C"), "%2C");
    assert_eq!(biome::unescape_property("%253A%0A"), "%3A\n");
}

#[test]
fn tsc_streaming_matches_batch() {
    let output = "a.ts(1,1): error TS1: one\nnoise\nerror TS2: two\n";
    let batch = tsc::parse(&RawOutput { stdout: output, stderr: "" });
    let mut parser = tsc::TscParser;
    let mut streamed = Vec::new();
    for line in output.lines() {
        streamed.extend(parser.push_line(line));
    }
    streamed.extend(parser.finish());
    assert_eq!(batch.len(), streamed.len());
    for (a, b) in batch.iter().zip(streamed.iter()) {
        assert_eq!((&a.file, &a.code, &a.message, a.severity), (&b.file, &b.code, &b.message, b.severity));
    }
}

#[test]
fn flat_line_keeps_line_breaks_on_one_line() {
    let d = biome::parse_line("::error title=t,file=a.ts,line=1,col=1::a%0Ab%0Dc").unwrap();
    assert_eq!(d.message, "a\nb\rc");
    let line = flat_line(&d);
    assert_eq!(line, "error a.ts:1:1 t a\\nb\\rc");
    assert!(!line.contains('\n') && !line.contains('\r'));
    let mut renderer = Renderer::new(Format::Flat);
    assert_eq!(renderer.diagnostic(d), "error a.ts:1:1 t a\\nb\\rc\n");
}

#[test]
fn summary_ignores_order() {
    let mut ds = vec![
        diag(Severity::Error, Some("a.ts"), None, None, "x"),
        diag(Severity::Warning, Some("b.ts"), None, None, "y"),
        diag(Severity::Info, None, None, None, "z"),
        diag(Severity::Error, Some("a.ts"), None, None, "w"),
    ];
    let forward = summarize(&ds);
    ds.reverse();
    let mut acc = SummaryAccumulator::new();
    for d in &ds {
        acc.add(d);
    }
    assert_eq!(acc.summary(), forward);
    assert_eq!((forward.errors, forward.warnings, forward.infos, forward.files), (2, 1, 1, 2));
}

#[test]
fn property_round_trip_through_github_escaping() {
    let original = "50%2C a:b,c\r\n%3A%";
    let escaped = original
        .replace('%', "%25")
        .replace('\r', "%0D")
        .replace('\n', "%0A")
        .replace(':', "%3A")
        .replace(',', "%2C");
    assert_eq!(biome::unescape_property(&escaped), original);
    let message = "%0A done\r\n100%";
    let escaped = message.replace('%', "%25").replace('\r', "%0D").replace('\n', "%0A");
    assert_eq!(biome::unescape_message(&escaped), message);
}
