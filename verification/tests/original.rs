use simp::agent::{any_env_set, AGENT_MARKERS};
use simp::diagnostic::Severity;
use simp::profiles::biome;
use simp::profiles::eslint::{self, EslintParser, FileResult, Message};
use simp::profiles::list_different::ListDifferent;
use simp::profiles::tsc;
use simp::profiles::{oxfmt, prettier, Injection, RawOutput, StreamParser};

fn args(items: &[&str]) -> Vec<String> {
    items.iter().map(|item| item.to_string()).collect()
}

fn lookup<'a>(set: &'a [(&'a str, &'a str)]) -> impl Fn(&str) -> Option<String> + 'a {
    move |name| {
        set.iter()
            .find(|(key, _)| *key == name)
            .map(|(_, value)| value.to_string())
    }
}

#[test]
fn detects_known_marker() {
    assert!(any_env_set(&AGENT_MARKERS, lookup(&[("CURSOR_AGENT", "1")])));
    assert!(any_env_set(&AGENT_MARKERS, lookup(&[("AGENT", "goose")])));
    assert!(any_env_set(&AGENT_MARKERS, lookup(&[("CODEX_SANDBOX", "seatbelt")])));
}

#[test]
fn ignores_empty_marker() {
    assert!(!any_env_set(&AGENT_MARKERS, lookup(&[("CLAUDECODE", "")])));
}

#[test]
fn absent_when_unrelated_vars_set() {
    assert!(!any_env_set(&AGENT_MARKERS, lookup(&[("PATH", "/usr/bin")])));
}

// Captured verbatim from `biome lint --reporter=github`.
const BIOME_SAMPLE: &str = "::warning title=lint/correctness/noUnusedImports,file=sample.ts,line=1,endLine=1,col=8,endColumn=18::This import is unused.";

#[test]
fn parses_github_annotation() {
    let diagnostic = biome::parse_line(BIOME_SAMPLE).expect("a diagnostic");
    assert_eq!(diagnostic.source, "biome");
    assert_eq!(diagnostic.severity, Severity::Warning);
    assert_eq!(diagnostic.file.as_deref(), Some("sample.ts"));
    assert_eq!(
        diagnostic.code.as_deref(),
        Some("lint/correctness/noUnusedImports")
    );
    assert_eq!(diagnostic.message, "This import is unused.");
    let span = diagnostic.span.unwrap();
    assert_eq!((span.line, span.column), (1, 8));
    assert_eq!((span.end_line, span.end_column), (Some(1), Some(18)));
}

#[test]
fn maps_error_and_ignores_noise() {
    assert_eq!(
        biome::parse_line("::error title=x,file=a.ts,line=2,col=1::boom")
            .unwrap()
            .severity,
        Severity::Error
    );
    assert!(biome::parse_line("Checking files...").is_none());
}

#[test]
fn unescapes_message_newline() {
    let diagnostic = biome::parse_line("::error title=t,file=a.ts,line=1,col=1::a%0Ab").unwrap();
    assert_eq!(diagnostic.message, "a\nb");
}

#[test]
fn injects_github_reporter_by_default() {
    assert_eq!(
        biome::inject(&args(&["check", "./src"])),
        Injection::Append(args(&["--reporter=github"]))
    );
}

#[test]
fn rejects_other_reporter() {
    assert!(matches!(
        biome::inject(&args(&["lint", "--reporter", "json"])),
        Injection::Unsupported(_)
    ));
    assert_eq!(
        biome::inject(&args(&["lint", "--reporter=github"])),
        Injection::Append(vec![])
    );
}

const ESLINT_SAMPLE: &str = r#"[
        {
            "filePath": "/repo/src/api.ts",
            "messages": [
                {
                    "ruleId": "no-unused-vars",
                    "severity": 2,
                    "message": "'foo' is defined but never used.",
                    "line": 12,
                    "column": 5,
                    "endLine": 12,
                    "endColumn": 8
                },
                {
                    "ruleId": null,
                    "severity": 1,
                    "message": "Parsing skipped.",
                    "line": 1,
                    "column": 1
                }
            ]
        }
    ]"#;

fn optional_u32(value: &serde_json::Value, key: &str) -> Option<Option<u32>> {
    match value.get(key) {
        None | Some(serde_json::Value::Null) => Some(None),
        Some(v) => v.as_u64().and_then(|n| u32::try_from(n).ok()).map(Some),
    }
}

fn decode_message(value: &serde_json::Value) -> Option<Message> {
    let rule_id = match value.get("ruleId") {
        None | Some(serde_json::Value::Null) => None,
        Some(v) => Some(v.as_str()?.to_string()),
    };
    Some(Message {
        rule_id,
        severity: u8::try_from(value.get("severity")?.as_u64()?).ok()?,
        message: value.get("message")?.as_str()?.to_string(),
        line: optional_u32(value, "line")?,
        column: optional_u32(value, "column")?,
        end_line: optional_u32(value, "endLine")?,
        end_column: optional_u32(value, "endColumn")?,
    })
}

/// Decodes eslint's JSON report, the shape the app decodes it into.
fn decode(document: &str) -> Option<Vec<FileResult>> {
    let value: serde_json::Value = serde_json::from_str(document).ok()?;
    let mut files = Vec::new();
    for file in value.as_array()? {
        let mut messages = Vec::new();
        for message in file.get("messages")?.as_array()? {
            messages.push(decode_message(message)?);
        }
        files.push(FileResult {
            file_path: file.get("filePath")?.as_str()?.to_string(),
            messages,
        });
    }
    Some(files)
}

/// Drive the document through the streaming parser line by line, which is
/// how the runner feeds it: exercises accumulation as well as parsing.
fn run_eslint(input: &str) -> Vec<simp::diagnostic::Diagnostic> {
    let mut parser = EslintParser::default();
    for line in input.lines() {
        assert!(parser.push_line(line).is_empty());
    }
    eslint::parse(decode(&parser.finish()))
}

#[test]
fn injects_json_format_by_default() {
    assert_eq!(
        eslint::inject(&args(&["./src"])),
        Injection::Append(args(&["--format", "json"]))
    );
}

#[test]
fn respects_existing_json_format() {
    assert_eq!(eslint::inject(&args(&["-f", "json"])), Injection::Append(vec![]));
    assert_eq!(eslint::inject(&args(&["--format=json"])), Injection::Append(vec![]));
}

#[test]
fn rejects_other_formatter() {
    assert!(matches!(
        eslint::inject(&args(&["--format", "stylish"])),
        Injection::Unsupported(_)
    ));
}

#[test]
fn parses_messages() {
    let diagnostics = run_eslint(ESLINT_SAMPLE);
    assert_eq!(diagnostics.len(), 2);

    let first = &diagnostics[0];
    assert_eq!(first.file.as_deref(), Some("/repo/src/api.ts"));
    assert_eq!(first.code.as_deref(), Some("no-unused-vars"));
    assert_eq!(first.severity, Severity::Error);
    let span = first.span.unwrap();
    assert_eq!((span.line, span.column), (12, 5));
    assert_eq!(span.end_column, Some(8));

    let second = &diagnostics[1];
    assert!(second.code.is_none());
    assert_eq!(second.severity, Severity::Warning);
}

#[test]
fn empty_on_garbage() {
    assert!(run_eslint("not json").is_empty());
}

#[test]
fn one_diagnostic_per_path() {
    let mut parser = ListDifferent { source: "prettier" };
    let first = parser.push_line("src/a.ts");
    assert_eq!(first.len(), 1);
    assert_eq!(first[0].source, "prettier");
    assert_eq!(first[0].file.as_deref(), Some("src/a.ts"));
    assert_eq!(first[0].severity, Severity::Warning);
    assert_eq!(first[0].message, "not formatted");
    assert!(first[0].span.is_none());

    assert!(parser.push_line("   ").is_empty());
    assert!(parser.finish().is_empty());
}

#[test]
fn oxfmt_injects_list_different_by_default() {
    assert_eq!(
        oxfmt::inject(&args(&["src/"])),
        Injection::Append(args(&["--list-different"]))
    );
}

#[test]
fn oxfmt_respects_existing_list_different() {
    assert_eq!(
        oxfmt::inject(&args(&["--list-different", "src/"])),
        Injection::Append(vec![])
    );
}

#[test]
fn rejects_check() {
    assert!(matches!(
        oxfmt::inject(&args(&["--check", "src/"])),
        Injection::Unsupported(_)
    ));
}

#[test]
fn prettier_injects_list_different_by_default() {
    assert_eq!(
        prettier::inject(&args(&["src/"])),
        Injection::Append(args(&["--list-different"]))
    );
}

#[test]
fn prettier_respects_existing_list_different() {
    assert_eq!(prettier::inject(&args(&["-l", "src/"])), Injection::Append(vec![]));
}

#[test]
fn rejects_write_and_check() {
    assert!(matches!(
        prettier::inject(&args(&["--write", "src/"])),
        Injection::Unsupported(_)
    ));
    assert!(matches!(
        prettier::inject(&args(&["--check", "src/"])),
        Injection::Unsupported(_)
    ));
}

fn run_tsc(input: &str) -> Vec<simp::diagnostic::Diagnostic> {
    tsc::parse(&RawOutput {
        stdout: input,
        stderr: "",
    })
}

#[test]
fn injects_pretty_false_by_default() {
    assert_eq!(
        tsc::inject(&args(&["--noEmit"])),
        Injection::Append(args(&["--pretty", "false"]))
    );
}

#[test]
fn respects_existing_pretty_false() {
    assert_eq!(tsc::inject(&args(&["--pretty", "false"])), Injection::Append(vec![]));
    assert_eq!(tsc::inject(&args(&["--pretty=false"])), Injection::Append(vec![]));
}

#[test]
fn rejects_pretty_on() {
    assert!(matches!(tsc::inject(&args(&["--pretty"])), Injection::Unsupported(_)));
    assert!(matches!(tsc::inject(&args(&["--pretty", "true"])), Injection::Unsupported(_)));
    assert!(matches!(tsc::inject(&args(&["--pretty=true"])), Injection::Unsupported(_)));
}

#[test]
fn located_error() {
    let diagnostics = run_tsc("src/api.ts(12,5): error TS2304: Cannot find name 'foo'.");
    assert_eq!(diagnostics.len(), 1);
    let diagnostic = &diagnostics[0];
    assert_eq!(diagnostic.file.as_deref(), Some("src/api.ts"));
    let span = diagnostic.span.unwrap();
    assert_eq!((span.line, span.column), (12, 5));
    assert_eq!(diagnostic.code.as_deref(), Some("TS2304"));
    assert_eq!(diagnostic.message, "Cannot find name 'foo'.");
    assert_eq!(diagnostic.severity, Severity::Error);
}

#[test]
fn unlocated_error() {
    let diagnostics = run_tsc("error TS18003: No inputs were found in config file.");
    assert_eq!(diagnostics.len(), 1);
    assert!(diagnostics[0].file.is_none());
    assert!(diagnostics[0].span.is_none());
    assert_eq!(diagnostics[0].code.as_deref(), Some("TS18003"));
}

#[test]
fn ignores_noise() {
    let diagnostics = run_tsc("Found 2 errors in 1 file.\n\nCompiling...");
    assert!(diagnostics.is_empty());
}

#[test]
fn path_with_spaces() {
    let diagnostics = run_tsc("src/my file.ts(3,1): warning TS6133: 'x' is declared but never used.");
    assert_eq!(diagnostics[0].file.as_deref(), Some("src/my file.ts"));
    assert_eq!(diagnostics[0].severity, Severity::Warning);
}
