use vstd::prelude::*;

use crate::profiles::list_different::ListDifferent;
use crate::profiles::{
    flag_matches, has_flag, has_flag_in, lemma_flags_differ_at, lemma_has_flag_append,
    lemma_has_flag_at, lemma_has_flag_without, Injection, InjectionView, Parser,
};
use crate::text::{owned, strs, texts};

verus! {

/// What simp injects for prettier: refuse `--write` (it would modify files) and
/// `--check` (human-formatted output simp can't parse); add `--list-different`
/// unless it is already there.
pub open spec fn injection_for(args: Seq<Seq<char>>) -> InjectionView {
    if has_flag_in(args, seq!["-w"@, "--write"@]) {
        InjectionView::Unsupported(
            "prettier `--write` would modify files; simp needs `--list-different`"@,
        )
    } else if has_flag_in(args, seq!["-c"@, "--check"@]) {
        InjectionView::Unsupported(
            "prettier `--check` output isn't parseable; simp needs `--list-different`"@,
        )
    } else if has_flag_in(args, seq!["-l"@, "--list-different"@]) {
        InjectionView::Append(seq![])
    } else {
        InjectionView::Append(seq!["--list-different"@])
    }
}

/// `--list-different` prints the paths of unformatted files, one per line,
/// which is exactly what simp wants.
pub fn inject(args: &[String]) -> (r: Injection)
    ensures
        r@ == injection_for(texts(args@)),
{
    let write: [&str; 2] = ["-w", "--write"];
    let check: [&str; 2] = ["-c", "--check"];
    let list: [&str; 2] = ["-l", "--list-different"];
    assert(strs(write@) =~= seq!["-w"@, "--write"@]);
    assert(strs(check@) =~= seq!["-c"@, "--check"@]);
    assert(strs(list@) =~= seq!["-l"@, "--list-different"@]);
    if has_flag(args, &write) {
        return Injection::Unsupported(
            owned("prettier `--write` would modify files; simp needs `--list-different`"),
        );
    }
    if has_flag(args, &check) {
        return Injection::Unsupported(
            owned("prettier `--check` output isn't parseable; simp needs `--list-different`"),
        );
    }
    if has_flag(args, &list) {
        let v: Vec<String> = Vec::new();
        assert(texts(v@) =~= seq![]);
        return Injection::Append(v);
    }
    let mut v: Vec<String> = Vec::new();
    v.push(owned("--list-different"));
    assert(texts(v@) =~= seq!["--list-different"@]);
    Injection::Append(v)
}

/// A fresh parser for prettier's `--list-different` output.
pub fn parser() -> (r: Parser)
    ensures
        r matches Parser::ListDifferent(l) && l.source@ == "prettier"@,
{
    Parser::ListDifferent(ListDifferent { source: "prettier" })
}


/// Running prettier with the flag simp injects asks for nothing more: injecting
/// again into the extended args appends nothing.
pub proof fn lemma_injection_settles(args: Seq<Seq<char>>)
    requires
        injection_for(args) is Append,
    ensures
        injection_for(args + injection_for(args)->Append_0) == InjectionView::Append(seq![]),
{
    let write = seq!["-w"@, "--write"@];
    let check = seq!["-c"@, "--check"@];
    let list = seq!["-l"@, "--list-different"@];
    let flags = injection_for(args)->Append_0;
    if has_flag_in(args, list) {
        assert(args + flags =~= args);
    } else {
        let e = seq!["--list-different"@];
        assert(flags == e);
        reveal_strlit("--list-different");
        reveal_strlit("-w");
        reveal_strlit("--write");
        reveal_strlit("-c");
        reveal_strlit("--check");
        reveal_strlit("-l");
        let x = e[0];
        assert(x.subrange(0, 3)[1] == '-');
        assert(x.subrange(0, 8)[2] == 'l');
        assert(!flag_matches(x, write[0]) && !flag_matches(x, write[1])) by {
            assert(write[0].push('=')[1] == 'w');
            assert(write[1].push('=')[2] == 'w');
        }
        assert(!flag_matches(x, check[0]) && !flag_matches(x, check[1])) by {
            assert(check[0].push('=')[1] == 'c');
            assert(check[1].push('=')[2] == 'c');
        }
        assert(!has_flag_in(e, write));
        assert(!has_flag_in(e, check));
        assert(flag_matches(e[0], list[1]));
        assert(has_flag_in(e, list));
        lemma_has_flag_append(args, e, write);
        lemma_has_flag_append(args, e, check);
        lemma_has_flag_append(args, e, list);
    }
}


/// `-w` or `--write` anywhere in the args is refused, whatever else they hold.
pub proof fn lemma_write_refused(a: Seq<Seq<char>>, flag: Seq<char>, b: Seq<Seq<char>>)
    requires
        flag == "-w"@ || flag == "--write"@,
    ensures
        injection_for(a + seq![flag] + b) == InjectionView::Unsupported(
            "prettier `--write` would modify files; simp needs `--list-different`"@,
        ),
{
    let write = seq!["-w"@, "--write"@];
    let j: int = if flag == write[0] { 0 } else { 1 };
    lemma_has_flag_at(a, flag, b, write, j);
}

/// `-c` or `--check` anywhere in args that do not ask to write is refused.
pub proof fn lemma_check_refused(a: Seq<Seq<char>>, flag: Seq<char>, b: Seq<Seq<char>>)
    requires
        flag == "-c"@ || flag == "--check"@,
        !has_flag_in(a + b, seq!["-w"@, "--write"@]),
    ensures
        injection_for(a + seq![flag] + b) == InjectionView::Unsupported(
            "prettier `--check` output isn't parseable; simp needs `--list-different`"@,
        ),
{
    reveal_strlit("-w");
    reveal_strlit("--write");
    reveal_strlit("-c");
    reveal_strlit("--check");
    let write = seq!["-w"@, "--write"@];
    let check = seq!["-c"@, "--check"@];
    if flag == check[0] {
        lemma_flags_differ_at(flag, write[0], 1);
        lemma_flags_differ_at(flag, write[1], 1);
    } else {
        lemma_flags_differ_at(flag, write[0], 1);
        lemma_flags_differ_at(flag, write[1], 2);
    }
    lemma_has_flag_without(a, flag, b, write);
    let j: int = if flag == check[0] { 0 } else { 1 };
    lemma_has_flag_at(a, flag, b, check, j);
}

/// `-l` or `--list-different` in args that neither write nor check is kept, and
/// nothing is added.
pub proof fn lemma_list_kept(a: Seq<Seq<char>>, flag: Seq<char>, b: Seq<Seq<char>>)
    requires
        flag == "-l"@ || flag == "--list-different"@,
        !has_flag_in(a + b, seq!["-w"@, "--write"@]),
        !has_flag_in(a + b, seq!["-c"@, "--check"@]),
    ensures
        injection_for(a + seq![flag] + b) == InjectionView::Append(seq![]),
{
    reveal_strlit("-w");
    reveal_strlit("--write");
    reveal_strlit("-c");
    reveal_strlit("--check");
    reveal_strlit("-l");
    reveal_strlit("--list-different");
    let write = seq!["-w"@, "--write"@];
    let check = seq!["-c"@, "--check"@];
    let list = seq!["-l"@, "--list-different"@];
    if flag == list[0] {
        lemma_flags_differ_at(flag, write[0], 1);
        lemma_flags_differ_at(flag, write[1], 1);
        lemma_flags_differ_at(flag, check[0], 1);
        lemma_flags_differ_at(flag, check[1], 1);
    } else {
        lemma_flags_differ_at(flag, write[0], 1);
        lemma_flags_differ_at(flag, write[1], 2);
        lemma_flags_differ_at(flag, check[0], 1);
        lemma_flags_differ_at(flag, check[1], 2);
    }
    lemma_has_flag_without(a, flag, b, write);
    lemma_has_flag_without(a, flag, b, check);
    let j: int = if flag == list[0] { 0 } else { 1 };
    lemma_has_flag_at(a, flag, b, list, j);
}

} // verus!
