use vstd::prelude::*;

use crate::profiles::list_different::ListDifferent;
use crate::profiles::{
    flag_matches, has_flag, has_flag_in, lemma_flags_differ_at, lemma_has_flag_append,
    lemma_has_flag_at, lemma_has_flag_without, Injection, InjectionView, Parser,
};
use crate::text::{owned, strs, texts};

verus! {

/// What simp injects for oxfmt: refuse `--check` (human output); add
/// `--list-different` unless it is already there.
pub open spec fn injection_for(args: Seq<Seq<char>>) -> InjectionView {
    if has_flag_in(args, seq!["--check"@]) {
        InjectionView::Unsupported(
            "oxfmt `--check` output isn't parseable; simp needs `--list-different`"@,
        )
    } else if has_flag_in(args, seq!["--list-different"@]) {
        InjectionView::Append(seq![])
    } else {
        InjectionView::Append(seq!["--list-different"@])
    }
}

/// oxfmt writes files in place by default, so injecting `--list-different` is
/// also what keeps simp from mutating the working tree: it prints unformatted
/// paths (one per line, exit 1) instead.
pub fn inject(args: &[String]) -> (r: Injection)
    ensures
        r@ == injection_for(texts(args@)),
{
    let check: [&str; 1] = ["--check"];
    let list: [&str; 1] = ["--list-different"];
    assert(strs(check@) =~= seq!["--check"@]);
    assert(strs(list@) =~= seq!["--list-different"@]);
    if has_flag(args, &check) {
        return Injection::Unsupported(
            owned("oxfmt `--check` output isn't parseable; simp needs `--list-different`"),
        );
    }
    if has_flag(args, &list) {
        let v: Vec<String> = Vec::new();
        assert(texts(v@) =~= seq![]);
        return Injection::Append(v);
    }
    let mut v: Vec<String> = Vec::new();
    v.push(owned("--list-different"));
    assert(texts(v@) =~= seq!["--list-different"@]);
    Injection::Append(v)
}

/// A fresh parser for oxfmt's `--list-different` output.
pub fn parser() -> (r: Parser)
    ensures
        r matches Parser::ListDifferent(l) && l.source@ == "oxfmt"@,
{
    Parser::ListDifferent(ListDifferent { source: "oxfmt" })
}


/// Running oxfmt with the flag simp injects asks for nothing more: injecting
/// again into the extended args appends nothing.
pub proof fn lemma_injection_settles(args: Seq<Seq<char>>)
    requires
        injection_for(args) is Append,
    ensures
        injection_for(args + injection_for(args)->Append_0) == InjectionView::Append(seq![]),
{
    let check = seq!["--check"@];
    let list = seq!["--list-different"@];
    let flags = injection_for(args)->Append_0;
    if has_flag_in(args, list) {
        assert(args + flags =~= args);
    } else {
        let e = seq!["--list-different"@];
        assert(flags == e);
        reveal_strlit("--list-different");
        reveal_strlit("--check");
        let x = e[0];
        assert(x.subrange(0, 8)[2] == 'l');
        assert(!flag_matches(x, check[0])) by {
            assert(check[0].push('=')[2] == 'c');
        }
        assert(!has_flag_in(e, check));
        assert(flag_matches(e[0], list[0]));
        assert(has_flag_in(e, list));
        lemma_has_flag_append(args, e, check);
        lemma_has_flag_append(args, e, list);
    }
}


/// `--check` anywhere in the args is refused, whatever else they hold.
pub proof fn lemma_check_refused(a: Seq<Seq<char>>, b: Seq<Seq<char>>)
    ensures
        injection_for(a + seq!["--check"@] + b) == InjectionView::Unsupported(
            "oxfmt `--check` output isn't parseable; simp needs `--list-different`"@,
        ),
{
    lemma_has_flag_at(a, "--check"@, b, seq!["--check"@], 0);
}

/// `--list-different` in args without `--check` is kept, and nothing is added.
pub proof fn lemma_list_kept(a: Seq<Seq<char>>, b: Seq<Seq<char>>)
    requires
        !has_flag_in(a + b, seq!["--check"@]),
    ensures
        injection_for(a + seq!["--list-different"@] + b) == InjectionView::Append(seq![]),
{
    reveal_strlit("--check");
    reveal_strlit("--list-different");
    let check = seq!["--check"@];
    lemma_flags_differ_at("--list-different"@, check[0], 2);
    lemma_has_flag_without(a, "--list-different"@, b, check);
    lemma_has_flag_at(a, "--list-different"@, b, seq!["--list-different"@], 0);
}

} // verus!
