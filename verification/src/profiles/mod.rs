use vstd::prelude::*;

pub mod biome;
pub mod eslint;
pub mod list_different;
pub mod oxfmt;
pub mod prettier;
pub mod tsc;

use crate::diagnostic::{views, Diagnostic, DiagnosticView};
use crate::text::{chars_equal, chars_of, lacks, matches_at_exec, starts_with, strs, texts};

verus! {

/// What to do about machine-readable flags, given the args the user already
/// passed. Profiles decide this per-invocation rather than declaring a fixed
/// flag list, because the user may have set a conflicting (or already-correct)
/// output mode themselves.
#[derive(Debug, PartialEq, Eq)]
pub enum Injection {
    /// Append these flags to the wrapped command. Empty means the args already
    /// request parseable output, so nothing needs adding.
    Append(Vec<String>),
    /// The args force an output mode simp can't parse (e.g. `--pretty true`).
    /// The string explains why, for a warning.
    Unsupported(String),
}

/// An injection with its texts seen as character sequences.
pub enum InjectionView {
    Append(Seq<Seq<char>>),
    Unsupported(Seq<char>),
}

impl View for Injection {
    type V = InjectionView;

    open spec fn view(&self) -> InjectionView {
        match self {
            Injection::Append(flags) => InjectionView::Append(texts(flags@)),
            Injection::Unsupported(reason) => InjectionView::Unsupported(reason@),
        }
    }
}

/// Whether `arg` is the flag `name`, bare or as `name=value`.
pub open spec fn flag_matches(arg: Seq<char>, name: Seq<char>) -> bool {
    arg == name || starts_with(arg, name.push('='))
}

/// The first of `names`, from index `j` on, that `arg` is.
pub open spec fn first_flag_match(arg: Seq<char>, names: Seq<Seq<char>>, j: int) -> Option<int>
    decreases names.len() - j,
{
    if j < 0 || j >= names.len() {
        None
    } else if flag_matches(arg, names[j]) {
        Some(j)
    } else {
        first_flag_match(arg, names, j + 1)
    }
}

/// A flag match found from index `j` on lies in range and matches.
pub proof fn lemma_first_flag_match(arg: Seq<char>, names: Seq<Seq<char>>, j: int)
    requires
        0 <= j,
    ensures
        first_flag_match(arg, names, j) matches Some(k) ==> j <= k < names.len() && flag_matches(
            arg,
            names[k],
        ),
    decreases names.len() - j,
{
    if j < names.len() && !flag_matches(arg, names[j]) {
        lemma_first_flag_match(arg, names, j + 1);
    }
}

/// The value of the first of `args`, from index `i` on, that is one of the
/// flags `names`: the next arg after a bare flag (none if it is the last), or
/// what follows `=`.
pub open spec fn flag_value_from(args: Seq<Seq<char>>, names: Seq<Seq<char>>, i: int) -> Option<
    Seq<char>,
>
    decreases args.len() - i,
{
    if i < 0 || i >= args.len() {
        None
    } else {
        match first_flag_match(args[i], names, 0) {
            Some(j) => if args[i] == names[j] {
                if i + 1 < args.len() {
                    Some(args[i + 1])
                } else {
                    None
                }
            } else {
                Some(args[i].skip(names[j].len() + 1int))
            },
            None => flag_value_from(args, names, i + 1),
        }
    }
}

/// The value of a flag in `args`, under any of the aliases `names`.
pub open spec fn flag_value_of(args: Seq<Seq<char>>, names: Seq<Seq<char>>) -> Option<Seq<char>> {
    flag_value_from(args, names, 0)
}

/// Whether any of `args` is one of the flags `names`, bare or with a value.
pub open spec fn has_flag_in(args: Seq<Seq<char>>, names: Seq<Seq<char>>) -> bool {
    exists|i: int, j: int|
        0 <= i < args.len() && 0 <= j < names.len() && flag_matches(#[trigger] args[i], #[trigger] names[j])
}

/// Whether `arg` is the flag `name`, bare or as `name=value`.
fn flag_matches_exec(arg: &Vec<char>, name: &Vec<char>) -> (r: bool)
    ensures
        r == flag_matches(arg@, name@),
{
    if chars_equal(arg, name) {
        return true;
    }
    let mut with_eq = name.clone();
    with_eq.push('=');
    assert(with_eq@ == name@.push('='));
    matches_at_exec(arg, &with_eq, 0)
}

/// The characters of each name.
fn name_chars(names: &[&str]) -> (r: Vec<Vec<char>>)
    ensures
        r@.len() == names@.len(),
        forall|j: int| 0 <= j < names@.len() ==> #[trigger] r@[j]@ == names@[j]@,
{
    let mut out: Vec<Vec<char>> = Vec::new();
    let mut j: usize = 0;
    while j < names.len()
        invariant
            j <= names@.len(),
            out@.len() == j,
            forall|k: int| 0 <= k < j ==> #[trigger] out@[k]@ == names@[k]@,
        decreases names@.len() - j,
    {
        out.push(chars_of(names[j]));
        j += 1;
    }
    out
}

/// The first of the names that `arg` is, as a flag.
fn first_flag_match_exec(arg: &Vec<char>, names: &Vec<Vec<char>>, seqs: Ghost<Seq<Seq<char>>>) -> (r:
    Option<usize>)
    requires
        seqs@.len() == names@.len(),
        forall|j: int| 0 <= j < names@.len() ==> #[trigger] names@[j]@ == seqs@[j],
    ensures
        match r {
            Some(j) => first_flag_match(arg@, seqs@, 0) == Some(j as int),
            None => first_flag_match(arg@, seqs@, 0) is None,
        },
        r matches Some(j) ==> j < names@.len(),
{
    let mut j: usize = 0;
    while j < names.len()
        invariant
            j <= names@.len(),
            seqs@.len() == names@.len(),
            forall|k: int| 0 <= k < names@.len() ==> #[trigger] names@[k]@ == seqs@[k],
            first_flag_match(arg@, seqs@, 0) == first_flag_match(arg@, seqs@, j as int),
        decreases names@.len() - j,
    {
        if flag_matches_exec(arg, &names[j]) {
            return Some(j);
        }
        j += 1;
    }
    None
}

/// Reads the value of a flag from args, handling both `--flag value` and
/// `--flag=value` forms. Returns the first match across the given aliases.
pub fn flag_value<'a>(args: &'a [String], names: &[&str]) -> (r: Option<&'a str>)
    ensures
        match flag_value_of(texts(args@), strs(names@)) {
            Some(v) => r is Some && r->0@ == v,
            None => r is None,
        },
{
    let ghost a = texts(args@);
    let ghost n = strs(names@);
    let name_cs = name_chars(names);
    let mut i: usize = 0;
    while i < args.len()
        invariant
            i <= args@.len(),
            a == texts(args@),
            n == strs(names@),
            name_cs@.len() == names@.len(),
            forall|j: int| 0 <= j < names@.len() ==> #[trigger] name_cs@[j]@ == names@[j]@,
            flag_value_of(a, n) == flag_value_from(a, n, i as int),
        decreases args@.len() - i,
    {
        let arg = chars_of(args[i].as_str());
        assert(arg@ == a[i as int]);
        match first_flag_match_exec(&arg, &name_cs, Ghost(n)) {
            Some(j) => {
                proof {
                    lemma_first_flag_match(a[i as int], n, 0);
                }
                assert(n[j as int] == name_cs@[j as int]@);
                if chars_equal(&arg, &name_cs[j]) {
                    if i + 1 < args.len() {
                        assert(a[i + 1] == args@[i + 1]@);
                        return Some(args[i + 1].as_str());
                    } else {
                        return None;
                    }
                } else {
                    assert(n[j as int].push('=').len() == n[j as int].len() + 1);
                    assert(n[j as int].len() + 1 <= arg@.len());
                    let alen = arg.len();
                    let value = args[i].as_str().substring_char(name_cs[j].len() + 1, alen);
                    assert(a[i as int].skip(n[j as int].len() + 1int) =~= a[i as int].subrange(
                        n[j as int].len() + 1int,
                        a[i as int].len() as int,
                    ));
                    return Some(value);
                }
            },
            None => {},
        }
        i += 1;
    }
    None
}

/// Whether any of the given flag aliases is present, as a bare flag or with an
/// `=value`. For boolean/switch flags where only presence matters.
pub fn has_flag(args: &[String], names: &[&str]) -> (r: bool)
    ensures
        r == has_flag_in(texts(args@), strs(names@)),
{
    let ghost a = texts(args@);
    let ghost n = strs(names@);
    let name_cs = name_chars(names);
    let mut i: usize = 0;
    while i < args.len()
        invariant
            i <= args@.len(),
            a == texts(args@),
            n == strs(names@),
            name_cs@.len() == names@.len(),
            forall|j: int| 0 <= j < names@.len() ==> #[trigger] name_cs@[j]@ == names@[j]@,
            forall|x: int, y: int|
                0 <= x < i && 0 <= y < n.len() ==> !flag_matches(#[trigger] a[x], #[trigger] n[y]),
        decreases args@.len() - i,
    {
        let arg = chars_of(args[i].as_str());
        assert(arg@ == a[i as int]);
        let mut j: usize = 0;
        while j < name_cs.len()
            invariant
                j <= name_cs@.len(),
                i < args@.len(),
                a == texts(args@),
                arg@ == a[i as int],
                name_cs@.len() == names@.len() == n.len(),
                forall|k: int| 0 <= k < names@.len() ==> #[trigger] name_cs@[k]@ == names@[k]@,
                n == strs(names@),
                forall|y: int| 0 <= y < j ==> !flag_matches(a[i as int], #[trigger] n[y]),
            decreases name_cs@.len() - j,
        {
            if flag_matches_exec(&arg, &name_cs[j]) {
                assert(flag_matches(a[i as int], n[j as int]));
                return true;
            }
            j += 1;
        }
        i += 1;
    }
    false
}

/// The part of a program path after its last `/` or `\`.
pub open spec fn last_separator(s: Seq<char>) -> Option<int>
    decreases s.len(),
{
    if s.len() == 0 {
        None
    } else if s.last() == '/' || s.last() == '\\' {
        Some(s.len() - 1)
    } else {
        last_separator(s.drop_last())
    }
}

/// The program name without any directory before it.
pub open spec fn stem_of(s: Seq<char>) -> Seq<char> {
    match last_separator(s) {
        Some(k) => s.skip(k + 1),
        None => s,
    }
}

/// Strip directory and wrapper prefixes so `./node_modules/.bin/tsc` resolves.
pub fn program_stem(name: &str) -> (r: &str)
    ensures
        r@ == stem_of(name@),
{
    let cs = chars_of(name);
    let mut j = cs.len();
    assert(cs@.subrange(0, cs@.len() as int) =~= cs@);
    while j > 0
        invariant
            j <= cs@.len(),
            cs@ == name@,
            last_separator(cs@) == last_separator(cs@.subrange(0, j as int)),
        decreases j,
    {
        if cs[j - 1] == '/' || cs[j - 1] == '\\' {
            assert(name@.skip(j as int) =~= name@.subrange(j as int, name@.len() as int));
            return name.substring_char(j, cs.len());
        }
        assert(cs@.subrange(0, j as int).drop_last() =~= cs@.subrange(0, j - 1));
        j -= 1;
    }
    assert(cs@.subrange(0, cs@.len() as int) =~= cs@);
    name
}


/// A wrapped tool's captured output streams.
pub struct RawOutput<'a> {
    pub stdout: &'a str,
    pub stderr: &'a str,
}


/// Incrementally turns a tool's output into diagnostics, one line at a time, so
/// callers can render results before the tool finishes. Line-oriented tools
/// (tsc) emit from `push_line`; whole-document tools buffer in `push_line` and
/// emit what they hold at the end.
pub trait StreamParser {
    /// Consume one line of output (the trailing newline already stripped).
    /// Returns any diagnostics that are complete as of this line.
    fn push_line(&mut self, line: &str) -> Vec<Diagnostic>;

    /// Input is exhausted; return any diagnostics still buffered. Line parsers
    /// have nothing left, so the default is empty.
    fn finish(&mut self) -> (r: Vec<Diagnostic>)
        default_ensures
            r@.len() == 0,
    {
        Vec::new()
    }
}

/// The diagnostics of an optional one: none or that one.
pub open spec fn optional_views(d: Option<DiagnosticView>) -> Seq<DiagnosticView> {
    match d {
        Some(d) => seq![d],
        None => Seq::empty(),
    }
}

/// The diagnostic of an optional one, as a list.
pub fn one_or_none(d: Option<Diagnostic>) -> (r: Vec<Diagnostic>)
    ensures
        views(r@) == optional_views(tsc::diagnostic_view(d)),
{
    let mut v: Vec<Diagnostic> = Vec::new();
    match d {
        Some(d) => {
            v.push(d);
            assert(views(v@) =~= seq![v@[0]@]);
        },
        None => {
            assert(views(v@) =~= Seq::<DiagnosticView>::empty());
        },
    }
    v
}


/// The parser for one invocation of a tool.
pub enum Parser {
    Tsc(tsc::TscParser),
    Eslint(eslint::EslintParser),
    Biome(biome::BiomeParser),
    ListDifferent(list_different::ListDifferent),
}

/// What a parser holds once its input is exhausted.
pub enum Pending {
    /// The remaining diagnostics.
    Done(Vec<Diagnostic>),
    /// eslint's whole JSON document, to be decoded and handed to `eslint::parse`.
    Decode(String),
}

impl Parser {
    /// Consumes one line of output and returns the diagnostics it completes.
    pub fn push_line(&mut self, line: &str) -> (r: Vec<Diagnostic>)
        ensures
            match *old(self) {
                Parser::Tsc(_) => *final(self) is Tsc && views(r@) == optional_views(
                    tsc::parse_line_text(line@),
                ),
                Parser::Biome(_) => *final(self) is Biome && views(r@) == optional_views(
                    biome::parse_line_text(line@),
                ),
                Parser::ListDifferent(l) => *final(self) matches Parser::ListDifferent(m)
                    && m.source@ == l.source@ && views(r@) == list_different::not_formatted(
                    l.source@,
                    line@,
                ),
                Parser::Eslint(e) => *final(self) matches Parser::Eslint(f) && f.document@
                    == e.document@ + line@ + seq!['\n'] && r@.len() == 0,
            },
    {
        match self {
            Parser::Tsc(p) => p.push_line(line),
            Parser::Eslint(p) => p.push_line(line),
            Parser::Biome(p) => p.push_line(line),
            Parser::ListDifferent(p) => p.push_line(line),
        }
    }

    /// Input is exhausted: line parsers have nothing left; eslint hands over
    /// its document.
    pub fn finish(self) -> (r: Pending)
        ensures
            match self {
                Parser::Eslint(e) => r matches Pending::Decode(doc) && doc@ == e.document@,
                _ => r matches Pending::Done(v) && v@.len() == 0,
            },
    {
        match self {
            Parser::Eslint(p) => Pending::Decode(p.finish()),
            _ => Pending::Done(Vec::new()),
        }
    }
}

/// The tools simp knows.
#[derive(Debug, Clone, Copy, PartialEq, Eq, Structural)]
pub enum Tool {
    Tsc,
    Eslint,
    Biome,
    Prettier,
    Oxfmt,
}

/// The program name a tool is matched by.
pub open spec fn tool_name(tool: Tool) -> Seq<char> {
    match tool {
        Tool::Tsc => "tsc"@,
        Tool::Eslint => "eslint"@,
        Tool::Biome => "biome"@,
        Tool::Prettier => "prettier"@,
        Tool::Oxfmt => "oxfmt"@,
    }
}

/// The known tools, in the order they are looked up.
pub open spec fn known_tools() -> Seq<Tool> {
    seq![Tool::Tsc, Tool::Eslint, Tool::Biome, Tool::Prettier, Tool::Oxfmt]
}

/// The first known tool whose name is `name`.
pub open spec fn tool_named(name: Seq<char>) -> Option<Tool> {
    if name == "tsc"@ {
        Some(Tool::Tsc)
    } else if name == "eslint"@ {
        Some(Tool::Eslint)
    } else if name == "biome"@ {
        Some(Tool::Biome)
    } else if name == "prettier"@ {
        Some(Tool::Prettier)
    } else if name == "oxfmt"@ {
        Some(Tool::Oxfmt)
    } else {
        None
    }
}

/// Everything simp knows about one supported tool: the name it is matched by,
/// how to coax machine-readable output out of it, and how to parse that output.
#[derive(Debug, Clone, Copy)]
pub struct Profile {
    /// Matched against the wrapped command's program name (e.g. the `tsc` in
    /// `simp tsc --noEmit`).
    pub name: &'static str,
    pub tool: Tool,
}

/// What simp injects for `tool`, given the args the user passed.
pub open spec fn injection_of(tool: Tool, args: Seq<Seq<char>>) -> InjectionView {
    match tool {
        Tool::Tsc => tsc::injection_for(args),
        Tool::Eslint => eslint::injection_for(args),
        Tool::Biome => biome::injection_for(args),
        Tool::Prettier => prettier::injection_for(args),
        Tool::Oxfmt => oxfmt::injection_for(args),
    }
}

impl Profile {
    /// The profile of a tool.
    pub fn of(tool: Tool) -> (r: Profile)
        ensures
            r.tool == tool,
            r.name@ == tool_name(tool),
    {
        let name = match tool {
            Tool::Tsc => "tsc",
            Tool::Eslint => "eslint",
            Tool::Biome => "biome",
            Tool::Prettier => "prettier",
            Tool::Oxfmt => "oxfmt",
        };
        Profile { name, tool }
    }

    /// Decides which flags (if any) to inject for parseable output, given the
    /// args the user already passed.
    pub fn inject(&self, args: &[String]) -> (r: Injection)
        ensures
            r@ == injection_of(self.tool, texts(args@)),
    {
        match self.tool {
            Tool::Tsc => tsc::inject(args),
            Tool::Eslint => eslint::inject(args),
            Tool::Biome => biome::inject(args),
            Tool::Prettier => prettier::inject(args),
            Tool::Oxfmt => oxfmt::inject(args),
        }
    }

    /// A fresh streaming parser for one invocation.
    pub fn parser(&self) -> (r: Parser)
        ensures
            match self.tool {
                Tool::Tsc => r is Tsc,
                Tool::Eslint => r matches Parser::Eslint(e) && e.document@ == Seq::<char>::empty(),
                Tool::Biome => r is Biome,
                Tool::Prettier => r matches Parser::ListDifferent(l) && l.source@ == "prettier"@,
                Tool::Oxfmt => r matches Parser::ListDifferent(l) && l.source@ == "oxfmt"@,
            },
    {
        match self.tool {
            Tool::Tsc => tsc::parser(),
            Tool::Eslint => eslint::parser(),
            Tool::Biome => biome::parser(),
            Tool::Prettier => prettier::parser(),
            Tool::Oxfmt => oxfmt::parser(),
        }
    }
}

/// Resolves a profile by the wrapped command's program name (e.g. the `tsc` in
/// `simp tsc --noEmit`), after stripping any directory from it.
pub fn resolve(name: &str) -> (r: Option<Profile>)
    ensures
        match tool_named(stem_of(name@)) {
            Some(t) => r matches Some(p) && p.tool == t && p.name@ == tool_name(t),
            None => r is None,
        },
{
    let stem = chars_of(program_stem(name));
    let tool = if chars_equal(&stem, &chars_of("tsc")) {
        Tool::Tsc
    } else if chars_equal(&stem, &chars_of("eslint")) {
        Tool::Eslint
    } else if chars_equal(&stem, &chars_of("biome")) {
        Tool::Biome
    } else if chars_equal(&stem, &chars_of("prettier")) {
        Tool::Prettier
    } else if chars_equal(&stem, &chars_of("oxfmt")) {
        Tool::Oxfmt
    } else {
        return None;
    };
    Some(Profile::of(tool))
}

/// The names of the known tools, in lookup order.
pub fn known_names() -> (r: Vec<&'static str>)
    ensures
        strs(r@) == known_tools().map_values(|t: Tool| tool_name(t)),
{
    let mut v: Vec<&'static str> = Vec::new();
    v.push("tsc");
    v.push("eslint");
    v.push("biome");
    v.push("prettier");
    v.push("oxfmt");
    assert(strs(v@) =~= known_tools().map_values(|t: Tool| tool_name(t)));
    v
}


/// Scanning `a + e` from index `a.len() + j` on reads only `e`.
pub proof fn lemma_flag_value_shift(a: Seq<Seq<char>>, e: Seq<Seq<char>>, names: Seq<Seq<char>>, j: int)
    requires
        0 <= j,
    ensures
        flag_value_from(a + e, names, a.len() + j) == flag_value_from(e, names, j),
    decreases e.len() - j,
{
    let s = a + e;
    if j < e.len() {
        assert(s[a.len() + j] == e[j]);
        if a.len() + j + 1 < s.len() {
            assert(s[a.len() + j + 1] == e[j + 1]);
        }
        lemma_flag_value_shift(a, e, names, j + 1);
    }
}

/// When none of `a` from index `i` on is one of the flags, scanning `a + e`
/// from `i` reads only `e`.
pub proof fn lemma_flag_value_past(a: Seq<Seq<char>>, e: Seq<Seq<char>>, names: Seq<Seq<char>>, i: int)
    requires
        0 <= i <= a.len(),
        forall|k: int| i <= k < a.len() ==> first_flag_match(#[trigger] a[k], names, 0) is None,
    ensures
        flag_value_from(a + e, names, i) == flag_value_from(e, names, 0),
    decreases a.len() - i,
{
    if i < a.len() {
        assert((a + e)[i] == a[i]);
        lemma_flag_value_past(a, e, names, i + 1);
    } else {
        lemma_flag_value_shift(a, e, names, 0);
    }
}

/// Args with none of the flags have no flag match at any index.
pub proof fn lemma_no_flag_no_match(a: Seq<Seq<char>>, names: Seq<Seq<char>>)
    requires
        !has_flag_in(a, names),
    ensures
        forall|k: int| 0 <= k < a.len() ==> first_flag_match(#[trigger] a[k], names, 0) is None,
{
    assert forall|k: int| 0 <= k < a.len() implies first_flag_match(#[trigger] a[k], names, 0) is None by {
        lemma_first_flag_match(a[k], names, 0);
        if let Some(j) = first_flag_match(a[k], names, 0) {
            assert(flag_matches(a[k], names[j]));
        }
    }
}

/// With none of the flags in `a`, the flag's value in `a + e` is its value in `e`.
pub proof fn lemma_flag_value_append(a: Seq<Seq<char>>, e: Seq<Seq<char>>, names: Seq<Seq<char>>)
    requires
        !has_flag_in(a, names),
    ensures
        flag_value_of(a + e, names) == flag_value_of(e, names),
{
    lemma_no_flag_no_match(a, names);
    lemma_flag_value_past(a, e, names, 0);
}

/// Some flag matches from index `j` on when the one at `k` does.
proof fn lemma_first_flag_found(arg: Seq<char>, names: Seq<Seq<char>>, j: int, k: int)
    requires
        0 <= j <= k < names.len(),
        flag_matches(arg, names[k]),
    ensures
        first_flag_match(arg, names, j) is Some,
    decreases k - j,
{
    if j < k && !flag_matches(arg, names[j]) {
        lemma_first_flag_found(arg, names, j + 1, k);
    }
}

/// Where no flag name holds `=`, the flag `names[k]`, bare or as
/// `names[k]=value`, is matched by a name equal to it.
proof fn lemma_flag_matched_by_name(arg: Seq<char>, names: Seq<Seq<char>>, k: int, value: Seq<char>)
    requires
        0 <= k < names.len(),
        forall|j: int| 0 <= j < names.len() ==> lacks(#[trigger] names[j], '='),
        arg == names[k] || arg == names[k] + seq!['='] + value,
    ensures
        first_flag_match(arg, names, 0) matches Some(j) && names[j] == names[k],
{
    let n = names[k];
    assert(lacks(n, '='));
    if arg != n {
        assert(starts_with(arg, n.push('='))) by {
            assert(arg.subrange(0, n.len() + 1int) =~= n.push('='));
        }
    }
    lemma_first_flag_found(arg, names, 0, k);
    lemma_first_flag_match(arg, names, 0);
    let j = first_flag_match(arg, names, 0)->Some_0;
    let m = names[j];
    assert(lacks(m, '='));
    if arg == n {
        if arg != m {
            assert(arg.subrange(0, m.len() + 1int) == m.push('='));
            assert(arg[m.len() as int] == arg.subrange(0, m.len() + 1int)[m.len() as int]);
        }
    } else {
        assert(arg[n.len() as int] == '=');
        if arg == m {
            assert(m[n.len() as int] == '=');
        } else {
            assert(arg.subrange(0, m.len() + 1int) == m.push('='));
            assert(arg[m.len() as int] == arg.subrange(0, m.len() + 1int)[m.len() as int]);
            if m.len() < n.len() {
                assert(arg[m.len() as int] == n[m.len() as int]);
            }
            if m.len() > n.len() {
                assert(arg[n.len() as int] == arg.subrange(0, m.len() + 1int)[n.len() as int]);
            }
            assert(m =~= n) by {
                assert forall|i: int| 0 <= i < m.len() implies m[i] == n[i] by {
                    assert(arg[i] == arg.subrange(0, m.len() + 1int)[i]);
                }
            }
        }
    }
}

/// A flag given after args that hold none of its aliases is read back: as
/// `name value` its value is the next arg, as `name=value` the text after `=`,
/// whatever follows.
pub proof fn lemma_flag_value_given(
    args: Seq<Seq<char>>,
    names: Seq<Seq<char>>,
    k: int,
    value: Seq<char>,
    rest: Seq<Seq<char>>,
)
    requires
        !has_flag_in(args, names),
        0 <= k < names.len(),
        forall|j: int| 0 <= j < names.len() ==> lacks(#[trigger] names[j], '='),
    ensures
        flag_value_of(args + seq![names[k], value] + rest, names) == Some(value),
        flag_value_of(args + seq![names[k] + seq!['='] + value] + rest, names) == Some(value),
{
    let n = names[k];
    let bare = seq![n, value] + rest;
    lemma_flag_matched_by_name(n, names, k, value);
    lemma_flag_value_append(args, bare, names);
    assert(args + seq![n, value] + rest =~= args + bare);
    assert(bare[0] == n && bare[1] == value);
    let joined = n + seq!['='] + value;
    let eq = seq![joined] + rest;
    lemma_flag_matched_by_name(joined, names, k, value);
    lemma_flag_value_append(args, eq, names);
    assert(args + seq![joined] + rest =~= args + eq);
    assert(eq[0] == joined);
    assert(joined != n) by {
        assert(joined.len() != n.len());
    }
    assert(joined.skip(n.len() + 1int) =~= value);
}


/// A flag is in `a + e` exactly when it is in `a` or in `e`.
pub proof fn lemma_has_flag_append(a: Seq<Seq<char>>, e: Seq<Seq<char>>, names: Seq<Seq<char>>)
    ensures
        has_flag_in(a + e, names) == (has_flag_in(a, names) || has_flag_in(e, names)),
{
    let s = a + e;
    if has_flag_in(s, names) {
        let (i, j) = choose|i: int, j: int|
            0 <= i < s.len() && 0 <= j < names.len() && flag_matches(#[trigger] s[i], #[trigger] names[j]);
        if i < a.len() {
            assert(s[i] == a[i]);
        } else {
            assert(s[i] == e[i - a.len()]);
        }
    }
    if has_flag_in(a, names) {
        let (i, j) = choose|i: int, j: int|
            0 <= i < a.len() && 0 <= j < names.len() && flag_matches(#[trigger] a[i], #[trigger] names[j]);
        assert(s[i] == a[i]);
    }
    if has_flag_in(e, names) {
        let (i, j) = choose|i: int, j: int|
            0 <= i < e.len() && 0 <= j < names.len() && flag_matches(#[trigger] e[i], #[trigger] names[j]);
        assert(s[a.len() + i] == e[i]);
    }
}

/// A flag that stands anywhere in the args is found.
pub proof fn lemma_has_flag_at(a: Seq<Seq<char>>, x: Seq<char>, b: Seq<Seq<char>>, names: Seq<Seq<char>>, j: int)
    requires
        0 <= j < names.len(),
        flag_matches(x, names[j]),
    ensures
        has_flag_in(a + seq![x] + b, names),
{
    let s = a + seq![x] + b;
    assert(s[a.len() as int] == x);
    assert(flag_matches(s[a.len() as int], names[j]));
}

/// An arg that is none of the flags changes nothing in whether the flags are
/// present.
pub proof fn lemma_has_flag_without(a: Seq<Seq<char>>, x: Seq<char>, b: Seq<Seq<char>>, names: Seq<Seq<char>>)
    requires
        forall|j: int| 0 <= j < names.len() ==> !flag_matches(x, #[trigger] names[j]),
    ensures
        has_flag_in(a + seq![x] + b, names) == has_flag_in(a + b, names),
{
    lemma_has_flag_append(a, seq![x] + b, names);
    lemma_has_flag_append(seq![x], b, names);
    lemma_has_flag_append(a, b, names);
    assert(a + seq![x] + b =~= a + (seq![x] + b));
    if has_flag_in(seq![x], names) {
        let (i, j) = choose|i: int, j: int|
            0 <= i < 1 && 0 <= j < names.len() && flag_matches(#[trigger] seq![x][i], #[trigger] names[j]);
        assert(seq![x][i] == x);
    }
}


/// An arg that differs from a flag's name at some index within both is not
/// that flag, bare or with a value.
pub proof fn lemma_flags_differ_at(x: Seq<char>, name: Seq<char>, i: int)
    requires
        0 <= i < x.len(),
        i < name.len(),
        x[i] != name[i],
    ensures
        !flag_matches(x, name),
{
    if starts_with(x, name.push('=')) {
        assert(x.subrange(0, name.len() + 1int)[i] == x[i]);
        assert(name.push('=')[i] == name[i]);
    }
}


/// A flag's value is missing while the flag is present only when a bare flag
/// ends the args.
pub open spec fn dangling_flag(args: Seq<Seq<char>>, names: Seq<Seq<char>>) -> bool {
    flag_value_of(args, names) is None && has_flag_in(args, names)
}


/// For every tool, running it with the flags simp injects asks for nothing
/// more: injecting again into the extended args appends nothing. (For eslint
/// and biome, args that end with a bare format or reporter flag are left out.)
pub proof fn lemma_injection_settles(tool: Tool, args: Seq<Seq<char>>)
    requires
        injection_of(tool, args) is Append,
        tool == Tool::Eslint ==> !dangling_flag(args, seq!["-f"@, "--format"@]),
        tool == Tool::Biome ==> !dangling_flag(args, seq!["--reporter"@]),
    ensures
        injection_of(tool, args + injection_of(tool, args)->Append_0) == InjectionView::Append(
            seq![],
        ),
{
    match tool {
        Tool::Tsc => tsc::lemma_injection_settles(args),
        Tool::Eslint => eslint::lemma_injection_settles(args),
        Tool::Biome => biome::lemma_injection_settles(args),
        Tool::Prettier => prettier::lemma_injection_settles(args),
        Tool::Oxfmt => oxfmt::lemma_injection_settles(args),
    }
}

/// A separator found lies within the string.
proof fn lemma_last_separator_bounds(s: Seq<char>)
    ensures
        last_separator(s) matches Some(k) ==> 0 <= k < s.len(),
    decreases s.len(),
{
    if s.len() > 0 {
        lemma_last_separator_bounds(s.drop_last());
    }
}

/// The last separator of `s + t` is in `t` when `t` has one, else it is `s`'s.
proof fn lemma_last_separator_append(s: Seq<char>, t: Seq<char>)
    ensures
        last_separator(s + t) == match last_separator(t) {
            Some(k) => Some(s.len() + k),
            None => last_separator(s),
        },
    decreases t.len(),
{
    if t.len() == 0 {
        assert(s + t =~= s);
    } else {
        assert((s + t).drop_last() =~= s + t.drop_last());
        assert((s + t).last() == t.last());
        lemma_last_separator_append(s, t.drop_last());
    }
}

/// A program's stem does not depend on the directory it is run from: the stem
/// of `dir/name` (or `dir\name`) is the stem of `name`.
pub proof fn lemma_stem_ignores_directory(dir: Seq<char>, sep: char, name: Seq<char>)
    requires
        sep == '/' || sep == '\\',
    ensures
        stem_of(dir.push(sep) + name) == stem_of(name),
{
    let p = dir.push(sep);
    lemma_last_separator_append(p, name);
    lemma_last_separator_bounds(name);
    assert(last_separator(p) == Some(dir.len() as int)) by {
        assert(p.last() == sep);
    }
    match last_separator(name) {
        Some(k) => {
            assert((p + name).skip(p.len() + k + 1) =~= name.skip(k + 1));
        },
        None => {
            assert((p + name).skip(dir.len() + 1int) =~= name);
        },
    }
}

/// Every known tool's name resolves to that tool.
pub proof fn lemma_known_names_resolve(tool: Tool)
    ensures
        tool_named(tool_name(tool)) == Some(tool),
{
    reveal_strlit("tsc");
    reveal_strlit("eslint");
    reveal_strlit("biome");
    reveal_strlit("prettier");
    reveal_strlit("oxfmt");
    match tool {
        Tool::Tsc => {},
        Tool::Eslint => {
            assert("eslint"@.len() != "tsc"@.len());
        },
        Tool::Biome => {
            assert("biome"@.len() != "tsc"@.len() && "biome"@.len() != "eslint"@.len());
        },
        Tool::Prettier => {
            assert("prettier"@.len() != "tsc"@.len() && "prettier"@.len() != "eslint"@.len()
                && "prettier"@.len() != "biome"@.len());
        },
        Tool::Oxfmt => {
            assert("oxfmt"@.len() != "tsc"@.len() && "oxfmt"@.len() != "eslint"@.len()
                && "oxfmt"@.len() != "prettier"@.len());
            assert("oxfmt"@[0] != "biome"@[0]);
        },
    }
}

} // verus!
