use vstd::prelude::*;

use crate::diagnostic::{views, Diagnostic, DiagnosticView, Severity, Span};
use crate::profiles::{
    dangling_flag, first_flag_match, flag_matches, flag_value, flag_value_of, has_flag_in,
    lemma_flag_value_append, lemma_flag_value_given, one_or_none, optional_views, Injection,
    InjectionView, Parser, StreamParser,
};
use crate::text::{
    chars_equal, chars_of, char_rows, decimal, find, find_exec, is_digit, join_char, lacks,
    lemma_decimal_digits, lemma_find_first, lemma_join_char_lacks, lemma_parse_u32_decimal,
    lemma_split_join, matches_at, matches_at_exec, owned, parse_u32, parse_u32_exec, push_str,
    replace, replace_exec, slice_chars, split_char, split_char_exec, starts_with, string_of, strs,
    texts,
};

verus! {

/// What simp injects for biome: `--reporter=github` unless the args already
/// choose a reporter; refused when they choose another one.
pub open spec fn injection_for(args: Seq<Seq<char>>) -> InjectionView {
    match flag_value_of(args, seq!["--reporter"@]) {
        Some(v) => if v == "github"@ {
            InjectionView::Append(seq![])
        } else {
            InjectionView::Unsupported(
                "biome is set to `--reporter "@ + v + "`; simp needs `--reporter=github`"@,
            )
        },
        None => InjectionView::Append(seq!["--reporter=github"@]),
    }
}

/// Biome's JSON reporter omits severity and uses byte-offset spans. Its `github`
/// reporter is the one that carries per-diagnostic severity *and* line/column,
/// and it's line-oriented, so it streams.
pub fn inject(args: &[String]) -> (r: Injection)
    ensures
        r@ == injection_for(texts(args@)),
{
    let names: [&str; 1] = ["--reporter"];
    assert(strs(names@) =~= seq!["--reporter"@]);
    match flag_value(args, &names) {
        Some(value) => {
            if chars_equal(&chars_of(value), &chars_of("github")) {
                let v: Vec<String> = Vec::new();
                assert(texts(v@) =~= seq![]);
                Injection::Append(v)
            } else {
                let mut reason = String::new();
                push_str(&mut reason, "biome is set to `--reporter ");
                push_str(&mut reason, value);
                push_str(&mut reason, "`; simp needs `--reporter=github`");
                assert(reason@ =~= "biome is set to `--reporter "@ + value@
                    + "`; simp needs `--reporter=github`"@);
                Injection::Unsupported(reason)
            }
        },
        None => {
            let mut v: Vec<String> = Vec::new();
            v.push(owned("--reporter=github"));
            assert(texts(v@) =~= seq!["--reporter=github"@]);
            Injection::Append(v)
        },
    }
}

/// Undoes GitHub's command-string escaping for message text: `%0A`, `%0D`, then
/// `%25`, so a decoded `%` can't be reinterpreted as another escape.
pub open spec fn unescape_message_text(value: Seq<char>) -> Seq<char> {
    replace(
        replace(replace(value, seq!['%', '0', 'A'], seq!['\n']), seq!['%', '0', 'D'], seq!['\r']),
        seq!['%', '2', '5'],
        seq!['%'],
    )
}

/// Undoes GitHub's command-string escaping for a property value: `%0A`, `%0D`,
/// `%3A`, `%2C`, then `%25` last, so a decoded `%` can't be reinterpreted as
/// another escape.
pub open spec fn unescape_property_text(value: Seq<char>) -> Seq<char> {
    replace(
        replace(
            replace(
                replace(replace(value, seq!['%', '0', 'A'], seq!['\n']), seq!['%', '0', 'D'], seq!['\r']),
                seq!['%', '3', 'A'],
                seq![':'],
            ),
            seq!['%', '2', 'C'],
            seq![','],
        ),
        seq!['%', '2', '5'],
        seq!['%'],
    )
}

fn unescape_message_chars(value: &Vec<char>) -> (r: Vec<char>)
    ensures
        r@ == unescape_message_text(value@),
{
    let (p1, t1) = (vec!['%', '0', 'A'], vec!['\n']);
    let (p2, t2) = (vec!['%', '0', 'D'], vec!['\r']);
    let (p3, t3) = (vec!['%', '2', '5'], vec!['%']);
    assert(p1@ =~= seq!['%', '0', 'A'] && t1@ =~= seq!['\n']);
    assert(p2@ =~= seq!['%', '0', 'D'] && t2@ =~= seq!['\r']);
    assert(p3@ =~= seq!['%', '2', '5'] && t3@ =~= seq!['%']);
    let a = replace_exec(value, &p1, &t1);
    let b = replace_exec(&a, &p2, &t2);
    replace_exec(&b, &p3, &t3)
}

fn unescape_property_chars(value: &Vec<char>) -> (r: Vec<char>)
    ensures
        r@ == unescape_property_text(value@),
{
    let (p1, t1) = (vec!['%', '0', 'A'], vec!['\n']);
    let (p2, t2) = (vec!['%', '0', 'D'], vec!['\r']);
    let (p3, t3) = (vec!['%', '3', 'A'], vec![':']);
    let (p4, t4) = (vec!['%', '2', 'C'], vec![',']);
    let (p5, t5) = (vec!['%', '2', '5'], vec!['%']);
    assert(p1@ =~= seq!['%', '0', 'A'] && t1@ =~= seq!['\n']);
    assert(p2@ =~= seq!['%', '0', 'D'] && t2@ =~= seq!['\r']);
    assert(p3@ =~= seq!['%', '3', 'A'] && t3@ =~= seq![':']);
    assert(p4@ =~= seq!['%', '2', 'C'] && t4@ =~= seq![',']);
    assert(p5@ =~= seq!['%', '2', '5'] && t5@ =~= seq!['%']);
    let a = replace_exec(value, &p1, &t1);
    let b = replace_exec(&a, &p2, &t2);
    let c = replace_exec(&b, &p3, &t3);
    let d = replace_exec(&c, &p4, &t4);
    replace_exec(&d, &p5, &t5)
}

/// Undoes GitHub's command-string escaping for message text.
pub fn unescape_message(value: &str) -> (r: String)
    ensures
        r@ == unescape_message_text(value@),
{
    string_of(&unescape_message_chars(&chars_of(value)))
}

/// Undoes GitHub's command-string escaping for a property value.
pub fn unescape_property(value: &str) -> (r: String)
    ensures
        r@ == unescape_property_text(value@),
{
    string_of(&unescape_property_chars(&chars_of(value)))
}


/// The properties of a GitHub annotation that simp reads.
pub struct Fields {
    pub file: Option<Seq<char>>,
    pub code: Option<Seq<char>>,
    pub line: Option<u32>,
    pub column: Option<u32>,
    pub end_line: Option<u32>,
    pub end_column: Option<u32>,
}

/// No properties read yet.
pub open spec fn no_fields() -> Fields {
    Fields { file: None, code: None, line: None, column: None, end_line: None, end_column: None }
}

/// The fields after one `key=value` property; none when it has no `=`. A
/// number that does not parse clears its field; unknown keys are ignored.
pub open spec fn apply_property(f: Fields, prop: Seq<char>) -> Option<Fields> {
    match find(prop, seq!['=']) {
        None => None,
        Some(e) => {
            let key = prop.take(e);
            let value = prop.skip(e + 1);
            Some(
                if key == "file"@ {
                    Fields { file: Some(unescape_property_text(value)), ..f }
                } else if key == "title"@ {
                    Fields { code: Some(unescape_property_text(value)), ..f }
                } else if key == "line"@ {
                    Fields { line: parse_u32(value), ..f }
                } else if key == "col"@ {
                    Fields { column: parse_u32(value), ..f }
                } else if key == "endLine"@ {
                    Fields { end_line: parse_u32(value), ..f }
                } else if key == "endColumn"@ {
                    Fields { end_column: parse_u32(value), ..f }
                } else {
                    f
                },
            )
        },
    }
}

/// The fields after the properties `props`, in order; none if any lacks `=`.
pub open spec fn apply_properties(f: Fields, props: Seq<Seq<char>>) -> Option<Fields>
    decreases props.len(),
{
    if props.len() == 0 {
        Some(f)
    } else {
        match apply_property(f, props[0]) {
            None => None,
            Some(g) => apply_properties(g, props.drop_first()),
        }
    }
}

/// The severity a GitHub annotation command names.
pub open spec fn severity_of_command(word: Seq<char>) -> Option<Severity> {
    if word == "error"@ {
        Some(Severity::Error)
    } else if word == "warning"@ {
        Some(Severity::Warning)
    } else if word == "notice"@ {
        Some(Severity::Info)
    } else {
        None
    }
}

/// The diagnostic of one GitHub Actions annotation line,
/// `::<command> <key>=<value>,...::<message>`; the first `::` after the opening
/// one separates the properties from the message.
pub open spec fn parse_line_text(line: Seq<char>) -> Option<DiagnosticView> {
    if !starts_with(line, "::"@) {
        None
    } else {
        let rest = line.skip("::"@.len() as int);
        match find(rest, "::"@) {
            None => None,
            Some(k) => {
                let head = rest.take(k);
                let message = rest.skip(k + "::"@.len());
                match find(head, seq![' ']) {
                    None => None,
                    Some(sp) => match severity_of_command(head.take(sp)) {
                        None => None,
                        Some(severity) => match apply_properties(
                            no_fields(),
                            split_char(head.skip(sp + 1), ','),
                        ) {
                            None => None,
                            Some(f) => Some(
                                DiagnosticView {
                                    source: "biome"@,
                                    severity,
                                    file: f.file,
                                    span: match f.line {
                                        Some(l) => Some(
                                            Span {
                                                line: l,
                                                column: match f.column {
                                                    Some(c) => c,
                                                    None => 1,
                                                },
                                                end_line: f.end_line,
                                                end_column: f.end_column,
                                            },
                                        ),
                                        None => None,
                                    },
                                    code: f.code,
                                    message: unescape_message_text(message),
                                },
                            ),
                        },
                    },
                }
            },
        }
    }
}

/// The properties read so far.
struct Properties {
    file: Option<Vec<char>>,
    code: Option<Vec<char>>,
    line: Option<u32>,
    column: Option<u32>,
    end_line: Option<u32>,
    end_column: Option<u32>,
}

spec fn chars_opt(o: Option<Vec<char>>) -> Option<Seq<char>> {
    match o {
        Some(v) => Some(v@),
        None => None,
    }
}

impl View for Properties {
    type V = Fields;

    closed spec fn view(&self) -> Fields {
        Fields {
            file: chars_opt(self.file),
            code: chars_opt(self.code),
            line: self.line,
            column: self.column,
            end_line: self.end_line,
            end_column: self.end_column,
        }
    }
}

fn apply_property_exec(f: Properties, prop: &Vec<char>) -> (r: Option<Properties>)
    ensures
        match r {
            Some(g) => apply_property(f@, prop@) == Some(g@),
            None => apply_property(f@, prop@) is None,
        },
{
    let eq = vec!['='];
    assert(eq@ =~= seq!['=']);
    let e = match find_exec(prop, &eq, 0) {
        Some(e) => e,
        None => return None,
    };
    let key = slice_chars(prop, 0, e);
    assert(key@ =~= prop@.take(e as int));
    let plen = prop.len();
    let value = slice_chars(prop, e + 1, plen);
    assert(value@ =~= prop@.skip(e + 1));
    let mut g = f;
    if chars_equal(&key, &chars_of("file")) {
        g.file = Some(unescape_property_chars(&value));
    } else if chars_equal(&key, &chars_of("title")) {
        g.code = Some(unescape_property_chars(&value));
    } else if chars_equal(&key, &chars_of("line")) {
        g.line = parse_u32_exec(&value, 0, value.len());
    } else if chars_equal(&key, &chars_of("col")) {
        g.column = parse_u32_exec(&value, 0, value.len());
    } else if chars_equal(&key, &chars_of("endLine")) {
        g.end_line = parse_u32_exec(&value, 0, value.len());
    } else if chars_equal(&key, &chars_of("endColumn")) {
        g.end_column = parse_u32_exec(&value, 0, value.len());
    }
    assert(value@.subrange(0, value@.len() as int) =~= value@);
    Some(g)
}

/// The chars of an optional character vector, as a string.
fn string_opt(o: Option<Vec<char>>) -> (r: Option<String>)
    ensures
        match r {
            Some(s) => chars_opt(o) == Some(s@),
            None => o is None,
        },
{
    match o {
        Some(v) => Some(string_of(&v)),
        None => None,
    }
}

/// Parses one line given as characters.
fn parse_line_chars(line: &Vec<char>) -> (r: Option<Diagnostic>)
    ensures
        match r {
            Some(d) => parse_line_text(line@) == Some(d@),
            None => parse_line_text(line@) is None,
        },
{
    let colons = vec![':', ':'];
    assert(colons@ =~= "::"@) by {
        reveal_strlit("::");
    }
    if !matches_at_exec(line, &colons, 0) {
        return None;
    }
    let llen = line.len();
    let rest = slice_chars(line, 2, llen);
    assert(rest@ =~= line@.skip("::"@.len() as int));
    let k = match find_exec(&rest, &colons, 0) {
        Some(k) => k,
        None => return None,
    };
    let head = slice_chars(&rest, 0, k);
    assert(head@ =~= rest@.take(k as int));
    let rlen = rest.len();
    let message = slice_chars(&rest, k + 2, rlen);
    assert(message@ =~= rest@.skip(k + "::"@.len()));
    let space = vec![' '];
    assert(space@ =~= seq![' ']);
    let sp = match find_exec(&head, &space, 0) {
        Some(sp) => sp,
        None => return None,
    };
    let word = slice_chars(&head, 0, sp);
    assert(word@ =~= head@.take(sp as int));
    let severity = if chars_equal(&word, &chars_of("error")) {
        Severity::Error
    } else if chars_equal(&word, &chars_of("warning")) {
        Severity::Warning
    } else if chars_equal(&word, &chars_of("notice")) {
        Severity::Info
    } else {
        return None;
    };
    let hlen = head.len();
    let props = split_char_exec(&head, sp + 1, hlen, ',');
    assert(head@.subrange(sp + 1, hlen as int) =~= head@.skip(sp + 1));
    let ghost pieces = char_rows(props@);
    let mut f = Properties {
        file: None,
        code: None,
        line: None,
        column: None,
        end_line: None,
        end_column: None,
    };
    assert(f@ == no_fields());
    let mut i: usize = 0;
    assert(pieces.skip(0) =~= pieces);
    assert(apply_properties(no_fields(), pieces) is None ==> parse_line_text(line@) is None);
    while i < props.len()
        invariant
            i <= props@.len(),
            apply_properties(no_fields(), pieces) is None ==> parse_line_text(line@) is None,
            pieces == char_rows(props@),
            apply_properties(no_fields(), pieces) == apply_properties(f@, pieces.skip(i as int)),
        decreases props@.len() - i,
    {
        assert(pieces.skip(i as int)[0] == props@[i as int]@);
        assert(pieces.skip(i as int).drop_first() =~= pieces.skip(i + 1));
        f = match apply_property_exec(f, &props[i]) {
            Some(g) => g,
            None => return None,
        };
        i += 1;
    }
    assert(pieces.skip(i as int) =~= Seq::<Seq<char>>::empty());
    let span = match f.line {
        Some(l) => Some(
            Span {
                line: l,
                column: match f.column {
                    Some(c) => c,
                    None => 1,
                },
                end_line: f.end_line,
                end_column: f.end_column,
            },
        ),
        None => None,
    };
    Some(
        Diagnostic {
            source: owned("biome"),
            severity,
            file: string_opt(f.file),
            span,
            code: string_opt(f.code),
            message: string_of(&unescape_message_chars(&message)),
        },
    )
}

/// Parses one GitHub Actions annotation line, e.g.
///   ::warning title=lint/correctness/noUnusedImports,file=a.ts,line=1,endLine=1,col=8,endColumn=18::This import is unused.
pub fn parse_line(line: &str) -> (r: Option<Diagnostic>)
    ensures
        match r {
            Some(d) => parse_line_text(line@) == Some(d@),
            None => parse_line_text(line@) is None,
        },
{
    parse_line_chars(&chars_of(line))
}

/// A streaming parser for biome's `github` reporter output.
pub struct BiomeParser;

impl StreamParser for BiomeParser {
    fn push_line(&mut self, line: &str) -> (r: Vec<Diagnostic>)
        ensures
            views(r@) == optional_views(parse_line_text(line@)),
    {
        one_or_none(parse_line(line))
    }
}


/// A fresh parser for biome's `github` reporter output.
pub fn parser() -> (r: Parser)
    ensures
        r is Biome,
{
    Parser::Biome(BiomeParser)
}


/// Running biome with the flag simp injects asks for nothing more: injecting
/// again into the extended args appends nothing. (Args that end with a bare
/// `--reporter` are left out: the injected flag would follow it as its value.)
pub proof fn lemma_injection_settles(args: Seq<Seq<char>>)
    requires
        injection_for(args) is Append,
        !dangling_flag(args, seq!["--reporter"@]),
    ensures
        injection_for(args + injection_for(args)->Append_0) == InjectionView::Append(seq![]),
{
    let names = seq!["--reporter"@];
    let flags = injection_for(args)->Append_0;
    if flag_value_of(args, names) is Some {
        assert(args + flags =~= args);
    } else {
        let e = seq!["--reporter=github"@];
        assert(flags == e);
        lemma_flag_value_append(args, e, names);
        reveal_strlit("--reporter=github");
        reveal_strlit("--reporter");
        reveal_strlit("github");
        assert(e[0] != names[0]);
        assert(e[0].subrange(0, 11) =~= names[0].push('='));
        assert(flag_matches(e[0], names[0]));
        assert(first_flag_match(e[0], names, 0) == Some(0int));
        assert(e[0].skip(11) =~= "github"@);
        assert(flag_value_of(e, names) == Some("github"@));
    }
}


/// The pieces of `blocks` laid end to end.
pub open spec fn concat(blocks: Seq<Seq<char>>) -> Seq<char>
    decreases blocks.len(),
{
    if blocks.len() == 0 {
        Seq::empty()
    } else {
        blocks[0] + concat(blocks.drop_first())
    }
}

/// GitHub's escaping of message text: `%` as `%25`, then `\r` as `%0D`, then
/// `\n` as `%0A`.
pub open spec fn escape_data(s: Seq<char>) -> Seq<char> {
    replace(
        replace(replace(s, seq!['%'], seq!['%', '2', '5']), seq!['\r'], seq!['%', '0', 'D']),
        seq!['\n'],
        seq!['%', '0', 'A'],
    )
}

/// GitHub's escaping of a property value: the message escapes, then `:` as
/// `%3A` and `,` as `%2C`.
pub open spec fn escape_property(s: Seq<char>) -> Seq<char> {
    replace(replace(escape_data(s), seq![':'], seq!['%', '3', 'A']), seq![','], seq!['%', '2', 'C'])
}

/// The escape of one character of message text.
pub open spec fn escape_data_char(c: char) -> Seq<char> {
    if c == '%' {
        seq!['%', '2', '5']
    } else if c == '\r' {
        seq!['%', '0', 'D']
    } else if c == '\n' {
        seq!['%', '0', 'A']
    } else {
        seq![c]
    }
}

/// The escape of one character of a property value.
pub open spec fn escape_property_char(c: char) -> Seq<char> {
    if c == ':' {
        seq!['%', '3', 'A']
    } else if c == ',' {
        seq!['%', '2', 'C']
    } else {
        escape_data_char(c)
    }
}

/// Each piece is a single character other than `%`, or a three-character
/// escape: `%` followed by two characters other than `%`.
pub open spec fn escaped_pieces(blocks: Seq<Seq<char>>) -> bool {
    forall|i: int|
        0 <= i < blocks.len() ==> {
            let b = #[trigger] blocks[i];
            (b.len() == 1 && b[0] != '%') || (b.len() == 3 && b[0] == '%' && b[1] != '%' && b[2]
                != '%')
        }
}

/// The pieces after replacing each piece equal to `pat` by `to`.
pub open spec fn replace_pieces(blocks: Seq<Seq<char>>, pat: Seq<char>, to: Seq<char>) -> Seq<
    Seq<char>,
> {
    blocks.map_values(|b: Seq<char>| if b == pat {
        to
    } else {
        b
    })
}

/// Replacing a three-character escape in a string made of escape pieces
/// replaces whole pieces: a `%` only ever starts a piece.
proof fn lemma_replace_pieces(blocks: Seq<Seq<char>>, pat: Seq<char>, to: Seq<char>)
    requires
        escaped_pieces(blocks),
        pat.len() == 3,
        pat[0] == '%',
    ensures
        replace(concat(blocks), pat, to) == concat(replace_pieces(blocks, pat, to)),
    decreases blocks.len(),
{
    let s = concat(blocks);
    let out = replace_pieces(blocks, pat, to);
    if blocks.len() == 0 {
    } else {
        let b = blocks[0];
        let rest = blocks.drop_first();
        assert(escaped_pieces(rest)) by {
            assert forall|i: int| 0 <= i < rest.len() implies {
                let c = #[trigger] rest[i];
                (c.len() == 1 && c[0] != '%') || (c.len() == 3 && c[0] == '%' && c[1] != '%'
                    && c[2] != '%')
            } by {
                assert(rest[i] == blocks[i + 1]);
            }
        }
        lemma_replace_pieces(rest, pat, to);
        assert(replace_pieces(rest, pat, to) =~= out.drop_first());
        assert(s == b + concat(rest));
        let r = concat(rest);
        if b.len() == 1 {
            assert(s[0] == b[0]);
            assert(!matches_at(s, pat, 0)) by {
                if matches_at(s, pat, 0) {
                    assert(s.subrange(0, 3)[0] == s[0]);
                }
            }
            assert(s.drop_first() =~= r);
            assert(b != pat);
            assert(out[0] == b);
            assert(seq![s[0]] =~= b);
        } else {
            if b == pat {
                assert(s.subrange(0, 3) =~= b);
                assert(s.skip(3) =~= r);
                assert(out[0] == to);
            } else {
                assert(s.subrange(0, 3) =~= b);
                let s1 = s.drop_first();
                let s2 = s1.drop_first();
                assert(s1 =~= seq![b[1], b[2]] + r);
                assert(s2 =~= seq![b[2]] + r);
                assert(s2.drop_first() =~= r);
                assert(!matches_at(s1, pat, 0)) by {
                    if matches_at(s1, pat, 0) {
                        assert(s1.subrange(0, 3)[0] == s1[0]);
                    }
                }
                assert(!matches_at(s2, pat, 0)) by {
                    if matches_at(s2, pat, 0) {
                        assert(s2.subrange(0, 3)[0] == s2[0]);
                    }
                }
                assert(replace(s2, pat, to) == seq![b[2]] + replace(r, pat, to));
                assert(replace(s1, pat, to) == seq![b[1]] + replace(s2, pat, to));
                assert(replace(s, pat, to) == seq![b[0]] + replace(s1, pat, to));
                assert(seq![b[0]] + (seq![b[1]] + (seq![b[2]] + replace(r, pat, to))) =~= b
                    + replace(r, pat, to));
                assert(out[0] == b);
            }
        }
    }
}

/// Pieces that are single characters spell those characters.
proof fn lemma_concat_singles(s: Seq<char>, blocks: Seq<Seq<char>>)
    requires
        blocks.len() == s.len(),
        forall|i: int| 0 <= i < s.len() ==> #[trigger] blocks[i] == seq![s[i]],
    ensures
        concat(blocks) == s,
    decreases s.len(),
{
    if s.len() > 0 {
        lemma_concat_singles(s.drop_first(), blocks.drop_first());
        assert(concat(blocks) =~= seq![s[0]] + s.drop_first());
    }
}

/// Replacing a single character distributes over concatenation.
proof fn lemma_replace_char_append(a: Seq<char>, b: Seq<char>, p: char, to: Seq<char>)
    ensures
        replace(a + b, seq![p], to) == replace(a, seq![p], to) + replace(b, seq![p], to),
    decreases a.len(),
{
    let pat = seq![p];
    let s = a + b;
    if a.len() == 0 {
        assert(s =~= b);
    } else {
        assert(s[0] == a[0]);
        assert(s.subrange(0, 1) =~= seq![s[0]]);
        assert(a.subrange(0, 1) =~= seq![a[0]]);
        if a[0] == p {
            assert(matches_at(s, pat, 0) && matches_at(a, pat, 0));
            assert(s.skip(1) =~= a.skip(1) + b);
            lemma_replace_char_append(a.skip(1), b, p, to);
            assert(to + (replace(a.skip(1), pat, to) + replace(b, pat, to)) =~= (to + replace(
                a.skip(1),
                pat,
                to,
            )) + replace(b, pat, to));
        } else {
            assert(seq![a[0]] != pat) by {
                assert(seq![a[0]][0] != pat[0]);
            }
            assert(!matches_at(s, pat, 0) && !matches_at(a, pat, 0));
            assert(s.drop_first() =~= a.drop_first() + b);
            lemma_replace_char_append(a.drop_first(), b, p, to);
            assert(seq![a[0]] + (replace(a.drop_first(), pat, to) + replace(b, pat, to)) =~= (seq![
                a[0],
            ] + replace(a.drop_first(), pat, to)) + replace(b, pat, to));
        }
    }
}

/// Replacing a single character in a one-character string.
proof fn lemma_replace_char_single(c: char, p: char, to: Seq<char>)
    ensures
        replace(seq![c], seq![p], to) == if c == p {
            to
        } else {
            seq![c]
        },
{
    let s = seq![c];
    assert(s.subrange(0, 1) =~= s);
    assert(s.skip(1) =~= Seq::<char>::empty());
    assert(s.drop_first() =~= Seq::<char>::empty());
    let e = Seq::<char>::empty();
    assert(replace(e, seq![p], to) == e);
    if c == p {
        assert(s =~= seq![p]);
        assert(matches_at(s, seq![p], 0));
        assert(replace(s, seq![p], to) == to + replace(e, seq![p], to));
        assert(to + e =~= to);
    } else {
        assert(seq![p] != s) by {
            assert(seq![p][0] != s[0]);
        }
        assert(!matches_at(s, seq![p], 0));
        assert(replace(s, seq![p], to) == seq![s[0]] + replace(e, seq![p], to));
        assert(seq![s[0]] + e =~= s);
    }
}

/// Replacing a single character in a three-character string that lacks it.
proof fn lemma_replace_char_three(x: char, y: char, z: char, p: char, to: Seq<char>)
    requires
        x != p,
        y != p,
        z != p,
    ensures
        replace(seq![x, y, z], seq![p], to) == seq![x, y, z],
{
    lemma_replace_char_append(seq![x], seq![y, z], p, to);
    lemma_replace_char_append(seq![y], seq![z], p, to);
    lemma_replace_char_single(x, p, to);
    lemma_replace_char_single(y, p, to);
    lemma_replace_char_single(z, p, to);
    assert(seq![x] + seq![y, z] =~= seq![x, y, z]);
    assert(seq![y] + seq![z] =~= seq![y, z]);
}

/// Replacing a single character in pieces laid end to end replaces it in each
/// piece.
proof fn lemma_replace_char_concat(blocks: Seq<Seq<char>>, p: char, to: Seq<char>)
    ensures
        replace(concat(blocks), seq![p], to) == concat(
            blocks.map_values(|b: Seq<char>| replace(b, seq![p], to)),
        ),
    decreases blocks.len(),
{
    let mapped = blocks.map_values(|b: Seq<char>| replace(b, seq![p], to));
    if blocks.len() == 0 {
    } else {
        let rest = blocks.drop_first();
        lemma_replace_char_concat(rest, p, to);
        lemma_replace_char_append(blocks[0], concat(rest), p, to);
        assert(rest.map_values(|b: Seq<char>| replace(b, seq![p], to)) =~= mapped.drop_first());
    }
}

/// GitHub's message escaping, done by replacing in turn, escapes each
/// character on its own.
pub proof fn lemma_escape_data_by_char(s: Seq<char>)
    ensures
        escape_data(s) == concat(s.map_values(|c: char| escape_data_char(c))),
{
    let p25 = seq!['%', '2', '5'];
    let p0d = seq!['%', '0', 'D'];
    let p0a = seq!['%', '0', 'A'];
    let b0 = s.map_values(|c: char| seq![c]);
    lemma_concat_singles(s, b0);
    lemma_replace_char_concat(b0, '%', p25);
    let b1 = b0.map_values(|b: Seq<char>| replace(b, seq!['%'], p25));
    lemma_replace_char_concat(b1, '\r', p0d);
    let b2 = b1.map_values(|b: Seq<char>| replace(b, seq!['\r'], p0d));
    lemma_replace_char_concat(b2, '\n', p0a);
    let b3 = b2.map_values(|b: Seq<char>| replace(b, seq!['\n'], p0a));
    assert forall|i: int| 0 <= i < s.len() implies #[trigger] b3[i] == escape_data_char(s[i]) by {
        let c = s[i];
        lemma_replace_char_single(c, '%', p25);
        lemma_replace_char_single(c, '\r', p0d);
        lemma_replace_char_single(c, '\n', p0a);
        lemma_replace_char_three('%', '2', '5', '\r', p0d);
        lemma_replace_char_three('%', '2', '5', '\n', p0a);
        lemma_replace_char_three('%', '0', 'D', '\n', p0a);
    }
    assert(b3 =~= s.map_values(|c: char| escape_data_char(c)));
}

/// GitHub's property escaping, done by replacing in turn, escapes each
/// character on its own.
pub proof fn lemma_escape_property_by_char(s: Seq<char>)
    ensures
        escape_property(s) == concat(s.map_values(|c: char| escape_property_char(c))),
{
    let p3a = seq!['%', '3', 'A'];
    let p2c = seq!['%', '2', 'C'];
    let b3 = s.map_values(|c: char| escape_data_char(c));
    lemma_escape_data_by_char(s);
    lemma_replace_char_concat(b3, ':', p3a);
    let b4 = b3.map_values(|b: Seq<char>| replace(b, seq![':'], p3a));
    lemma_replace_char_concat(b4, ',', p2c);
    let b5 = b4.map_values(|b: Seq<char>| replace(b, seq![','], p2c));
    assert forall|i: int| 0 <= i < s.len() implies #[trigger] b5[i] == escape_property_char(s[i]) by {
        let c = s[i];
        lemma_replace_char_single(c, ':', p3a);
        lemma_replace_char_single(c, ',', p2c);
        lemma_replace_char_three('%', '2', '5', ':', p3a);
        lemma_replace_char_three('%', '2', '5', ',', p2c);
        lemma_replace_char_three('%', '0', 'D', ':', p3a);
        lemma_replace_char_three('%', '0', 'D', ',', p2c);
        lemma_replace_char_three('%', '0', 'A', ':', p3a);
        lemma_replace_char_three('%', '0', 'A', ',', p2c);
        lemma_replace_char_three('%', '3', 'A', ',', p2c);
    }
    assert(b5 =~= s.map_values(|c: char| escape_property_char(c)));
}

/// Unescaping a message undoes GitHub's escaping of it: `%25` is decoded last,
/// so a decoded `%` is never read as the start of another escape.
pub proof fn lemma_unescape_message_inverts_escape(s: Seq<char>)
    ensures
        unescape_message_text(escape_data(s)) == s,
{
    lemma_escape_data_by_char(s);
    let b0 = s.map_values(|c: char| escape_data_char(c));
    let p1 = seq!['%', '0', 'A'];
    let p2 = seq!['%', '0', 'D'];
    let p3 = seq!['%', '2', '5'];
    let b1 = replace_pieces(b0, p1, seq!['\n']);
    let b2 = replace_pieces(b1, p2, seq!['\r']);
    let b3 = replace_pieces(b2, p3, seq!['%']);
    assert(escaped_pieces(b0));
    lemma_replace_pieces(b0, p1, seq!['\n']);
    assert(escaped_pieces(b1));
    lemma_replace_pieces(b1, p2, seq!['\r']);
    assert(escaped_pieces(b2));
    lemma_replace_pieces(b2, p3, seq!['%']);
    assert forall|i: int| 0 <= i < s.len() implies #[trigger] b3[i] == seq![s[i]] by {
        let c = s[i];
        if c == '%' {
            assert(b0[i] == p3);
            assert(p3 != p1 && p3 != p2) by {
                assert(p3[1] != p1[1]);
                assert(p3[1] != p2[1]);
            }
        } else if c == '\r' {
            assert(b0[i] == p2);
            assert(p2 != p1) by {
                assert(p2[2] != p1[2]);
            }
        } else if c == '\n' {
            assert(b0[i] == p1);
        } else {
            assert(b0[i] == seq![c]);
        }
    }
    lemma_concat_singles(s, b3);
}

/// Unescaping a property value undoes GitHub's escaping of it, for every
/// value: `%25` is decoded last, so a decoded `%` is never read as the start of
/// another escape.
pub proof fn lemma_unescape_property_inverts_escape(s: Seq<char>)
    ensures
        unescape_property_text(escape_property(s)) == s,
{
    lemma_escape_property_by_char(s);
    let b0 = s.map_values(|c: char| escape_property_char(c));
    let p1 = seq!['%', '0', 'A'];
    let p2 = seq!['%', '0', 'D'];
    let p3 = seq!['%', '3', 'A'];
    let p4 = seq!['%', '2', 'C'];
    let p5 = seq!['%', '2', '5'];
    let b1 = replace_pieces(b0, p1, seq!['\n']);
    let b2 = replace_pieces(b1, p2, seq!['\r']);
    let b3 = replace_pieces(b2, p3, seq![':']);
    let b4 = replace_pieces(b3, p4, seq![',']);
    let b5 = replace_pieces(b4, p5, seq!['%']);
    assert(escaped_pieces(b0));
    lemma_replace_pieces(b0, p1, seq!['\n']);
    assert(escaped_pieces(b1));
    lemma_replace_pieces(b1, p2, seq!['\r']);
    assert(escaped_pieces(b2));
    lemma_replace_pieces(b2, p3, seq![':']);
    assert(escaped_pieces(b3));
    lemma_replace_pieces(b3, p4, seq![',']);
    assert(escaped_pieces(b4));
    lemma_replace_pieces(b4, p5, seq!['%']);
    assert(p1[1] != p3[1] && p1[1] != p4[1] && p1[1] != p5[1] && p2[1] != p3[1]);
    assert(p2[1] != p4[1] && p2[1] != p5[1] && p3[1] != p4[1] && p3[1] != p5[1]);
    assert(p4[2] != p5[2] && p1[2] != p2[2]);
    assert forall|i: int| 0 <= i < s.len() implies #[trigger] b5[i] == seq![s[i]] by {
        let c = s[i];
        if c == '%' {
            assert(b0[i] == p5);
        } else if c == '\r' {
            assert(b0[i] == p2);
        } else if c == '\n' {
            assert(b0[i] == p1);
        } else if c == ':' {
            assert(b0[i] == p3);
        } else if c == ',' {
            assert(b0[i] == p4);
        } else {
            assert(b0[i] == seq![c]);
        }
    }
    lemma_concat_singles(s, b5);
}


/// The annotation command for a severity.
pub open spec fn command_word(severity: Severity) -> Seq<char> {
    match severity {
        Severity::Error => "error"@,
        Severity::Warning => "warning"@,
        Severity::Info => "notice"@,
    }
}

/// A `key=value` property.
pub open spec fn property(key: Seq<char>, value: Seq<char>) -> Seq<char> {
    key + seq!['='] + value
}

/// The properties biome writes for a diagnostic, in its order.
pub open spec fn annotation_properties(
    title: Seq<char>,
    file: Seq<char>,
    line: u32,
    end_line: u32,
    column: u32,
    end_column: u32,
) -> Seq<Seq<char>> {
    seq![
        property("title"@, title),
        property("file"@, file),
        property("line"@, decimal(line as nat)),
        property("endLine"@, decimal(end_line as nat)),
        property("col"@, decimal(column as nat)),
        property("endColumn"@, decimal(end_column as nat)),
    ]
}

/// A full annotation line: `::<command> <properties>::<message>`.
pub open spec fn annotation_line(
    severity: Severity,
    title: Seq<char>,
    file: Seq<char>,
    line: u32,
    end_line: u32,
    column: u32,
    end_column: u32,
    message: Seq<char>,
) -> Seq<char> {
    "::"@ + command_word(severity) + seq![' '] + join_char(
        annotation_properties(title, file, line, end_line, column, end_column),
        ',',
    ) + "::"@ + message
}

/// A property's key ends at its first `=`.
proof fn lemma_property_parts(key: Seq<char>, value: Seq<char>)
    requires
        lacks(key, '='),
    ensures
        find(property(key, value), seq!['=']) == Some(key.len() as int),
        property(key, value).take(key.len() as int) == key,
        property(key, value).skip(key.len() + 1int) == value,
{
    let p = property(key, value);
    assert(p.subrange(key.len() as int, key.len() + 1int) =~= seq!['=']);
    assert(forall|j: int| 0 <= j < key.len() ==> p[j] == key[j]);
    lemma_find_first(p, seq!['='], key.len() as int);
    assert(p.take(key.len() as int) =~= key);
    assert(p.skip(key.len() + 1int) =~= value);
}

/// A decimal number holds no separator or key character.
proof fn lemma_decimal_lacks(n: nat, c: char)
    requires
        !is_digit(c),
    ensures
        lacks(decimal(n), c),
{
    lemma_decimal_digits(n);
}

/// No property biome writes holds `,` or `:` when its title and file do not.
proof fn lemma_annotation_properties_lack(
    title: Seq<char>,
    file: Seq<char>,
    line: u32,
    end_line: u32,
    column: u32,
    end_column: u32,
)
    requires
        lacks(title, ','),
        lacks(title, ':'),
        lacks(file, ','),
        lacks(file, ':'),
    ensures
        ({
            let props = annotation_properties(title, file, line, end_line, column, end_column);
            forall|i: int|
                0 <= i < props.len() ==> lacks(#[trigger] props[i], ',') && lacks(props[i], ':')
        }),
{
    reveal_strlit("title");
    reveal_strlit("file");
    reveal_strlit("line");
    reveal_strlit("endLine");
    reveal_strlit("col");
    reveal_strlit("endColumn");
    let props = annotation_properties(title, file, line, end_line, column, end_column);
    lemma_decimal_lacks(line as nat, ',');
    lemma_decimal_lacks(end_line as nat, ',');
    lemma_decimal_lacks(column as nat, ',');
    lemma_decimal_lacks(end_column as nat, ',');
    lemma_decimal_lacks(line as nat, ':');
    lemma_decimal_lacks(end_line as nat, ':');
    lemma_decimal_lacks(column as nat, ':');
    lemma_decimal_lacks(end_column as nat, ':');
    assert forall|i: int| 0 <= i < props.len() implies lacks(#[trigger] props[i], ',') && lacks(
        props[i],
        ':',
    ) by {
        let p = props[i];
        assert forall|j: int| 0 <= j < p.len() implies p[j] != ',' && p[j] != ':' by {
            if i == 0 {
                if j > 5 {
                    assert(p[j] == title[j - 6]);
                }
            } else if i == 1 {
                if j > 4 {
                    assert(p[j] == file[j - 5]);
                }
            } else if i == 2 {
                if j > 4 {
                    assert(p[j] == decimal(line as nat)[j - 5]);
                }
            } else if i == 3 {
                if j > 7 {
                    assert(p[j] == decimal(end_line as nat)[j - 8]);
                }
            } else if i == 4 {
                if j > 3 {
                    assert(p[j] == decimal(column as nat)[j - 4]);
                }
            } else {
                if j > 9 {
                    assert(p[j] == decimal(end_column as nat)[j - 10]);
                }
            }
        }
    }
}

/// The properties biome writes fill every field that simp reads.
proof fn lemma_apply_annotation_properties(
    title: Seq<char>,
    file: Seq<char>,
    line: u32,
    end_line: u32,
    column: u32,
    end_column: u32,
)
    ensures
        apply_properties(
            no_fields(),
            annotation_properties(title, file, line, end_line, column, end_column),
        ) == Some(
            Fields {
                file: Some(unescape_property_text(file)),
                code: Some(unescape_property_text(title)),
                line: Some(line),
                column: Some(column),
                end_line: Some(end_line),
                end_column: Some(end_column),
            },
        ),
{
    reveal_strlit("title");
    reveal_strlit("file");
    reveal_strlit("line");
    reveal_strlit("endLine");
    reveal_strlit("col");
    reveal_strlit("endColumn");
    let props = annotation_properties(title, file, line, end_line, column, end_column);
    lemma_property_parts("title"@, title);
    lemma_property_parts("file"@, file);
    lemma_property_parts("line"@, decimal(line as nat));
    lemma_property_parts("endLine"@, decimal(end_line as nat));
    lemma_property_parts("col"@, decimal(column as nat));
    lemma_property_parts("endColumn"@, decimal(end_column as nat));
    lemma_parse_u32_decimal(line);
    lemma_parse_u32_decimal(end_line);
    lemma_parse_u32_decimal(column);
    lemma_parse_u32_decimal(end_column);
    assert("line"@[0] != "file"@[0]);
    let f0 = no_fields();
    let f1 = Fields { code: Some(unescape_property_text(title)), ..f0 };
    let f2 = Fields { file: Some(unescape_property_text(file)), ..f1 };
    let f3 = Fields { line: Some(line), ..f2 };
    let f4 = Fields { end_line: Some(end_line), ..f3 };
    let f5 = Fields { column: Some(column), ..f4 };
    let f6 = Fields { end_column: Some(end_column), ..f5 };
    assert(apply_property(f0, props[0]) == Some(f1));
    assert(apply_property(f1, props[1]) == Some(f2));
    assert(apply_property(f2, props[2]) == Some(f3));
    assert(apply_property(f3, props[3]) == Some(f4));
    assert(apply_property(f4, props[4]) == Some(f5));
    assert(apply_property(f5, props[5]) == Some(f6));
    let p1 = props.drop_first();
    let p2 = p1.drop_first();
    let p3 = p2.drop_first();
    let p4 = p3.drop_first();
    let p5 = p4.drop_first();
    let p6 = p5.drop_first();
    assert(p6 =~= Seq::<Seq<char>>::empty());
    assert(apply_properties(f6, p6) == Some(f6));
    assert(p5[0] == props[5]);
    assert(apply_properties(f5, p5) == Some(f6));
    assert(p4[0] == props[4]);
    assert(apply_properties(f4, p4) == Some(f6));
    assert(p3[0] == props[3]);
    assert(apply_properties(f3, p3) == Some(f6));
    assert(p2[0] == props[2]);
    assert(apply_properties(f2, p2) == Some(f6));
    assert(p1[0] == props[1]);
    assert(apply_properties(f1, p1) == Some(f6));
}

/// Each property is read into its own field: the span starts at the `line`
/// property's line and the `col` property's column, and ends at the `endLine`
/// and `endColumn` ones, each independent of the others; the `title` is the code
/// and the `file` the file, both unescaped, and the text after the closing `::`
/// is the unescaped message.
pub proof fn lemma_parse_annotation(
    severity: Severity,
    title: Seq<char>,
    file: Seq<char>,
    line: u32,
    end_line: u32,
    column: u32,
    end_column: u32,
    message: Seq<char>,
)
    requires
        lacks(title, ','),
        lacks(title, ':'),
        lacks(file, ','),
        lacks(file, ':'),
    ensures
        parse_line_text(
            annotation_line(severity, title, file, line, end_line, column, end_column, message),
        ) == Some(
            DiagnosticView {
                source: "biome"@,
                severity,
                file: Some(unescape_property_text(file)),
                span: Some(
                    Span { line, column, end_line: Some(end_line), end_column: Some(end_column) },
                ),
                code: Some(unescape_property_text(title)),
                message: unescape_message_text(message),
            },
        ),
{
    reveal_strlit("::");
    reveal_strlit("error");
    reveal_strlit("warning");
    reveal_strlit("notice");
    let props = annotation_properties(title, file, line, end_line, column, end_column);
    let word = command_word(severity);
    let joined = join_char(props, ',');
    let full = annotation_line(severity, title, file, line, end_line, column, end_column, message);
    lemma_annotation_properties_lack(title, file, line, end_line, column, end_column);
    lemma_join_char_lacks(props, ',', ':');
    lemma_split_join(props, ',');
    lemma_apply_annotation_properties(title, file, line, end_line, column, end_column);
    // The opening `::`, then the first `::` after it.
    let rest = word + seq![' '] + joined + "::"@ + message;
    assert(full =~= "::"@ + rest);
    assert(full.subrange(0, 2) =~= "::"@);
    assert(full.skip("::"@.len() as int) =~= rest);
    let head = word + seq![' '] + joined;
    let k = head.len() as int;
    assert(rest =~= head + ("::"@ + message));
    assert(rest.subrange(k, k + 2) =~= "::"@);
    assert forall|j: int| 0 <= j < k implies rest[j] != "::"@[0] by {
        assert(rest[j] == head[j]);
        if j > word.len() {
            assert(head[j] == joined[j - word.len() - 1]);
        }
    }
    lemma_find_first(rest, "::"@, k);
    assert(rest.take(k) =~= head);
    assert(rest.skip(k + "::"@.len()) =~= message);
    // The command word ends at the first space.
    let w = word.len() as int;
    assert(head.subrange(w, w + 1) =~= seq![' ']);
    assert(forall|j: int| 0 <= j < w ==> head[j] == word[j]);
    lemma_find_first(head, seq![' '], w);
    assert(head.take(w) =~= word);
    assert(head.skip(w + 1) =~= joined);
    assert(severity_of_command(word) == Some(severity));
}


/// A reporter given as `--reporter` after args that choose none is the one used:
/// `github`, given either as a separate arg or after `=`, needs nothing injected;
/// any other value is refused, naming it.
pub proof fn lemma_reporter_given(args: Seq<Seq<char>>, flag: Seq<char>, value: Seq<char>, rest: Seq<Seq<char>>)
    requires
        !has_flag_in(args, seq!["--reporter"@]),
        flag == "--reporter"@,
    ensures
        ({
            let expected = if value == "github"@ {
                InjectionView::Append(seq![])
            } else {
                InjectionView::Unsupported("biome is set to `--reporter "@ + value + "`; simp needs `--reporter=github`"@)
            };
            &&& injection_for(args + seq![flag, value] + rest) == expected
            &&& injection_for(args + seq![flag + seq!['='] + value] + rest) == expected
        }),
{
    reveal_strlit("--reporter");
    let names = seq!["--reporter"@];
    assert forall|j: int| 0 <= j < names.len() implies lacks(#[trigger] names[j], '=') by {}
    let k: int = if flag == names[0] { 0 } else { 1 };
    assert(names[k] == flag);
    lemma_flag_value_given(args, names, k, value, rest);
}

} // verus!
