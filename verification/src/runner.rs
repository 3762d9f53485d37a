use vstd::prelude::*;

use crate::profiles::{Injection, InjectionView};
use crate::text::{owned, push_str, texts};

verus! {

/// What a wrapped tool printed and how it exited.
pub struct Captured {
    pub stdout: String,
    pub stderr: String,
    pub exit_code: i32,
}

/// The args to run the wrapped command with: the user's args, then the injected
/// flags. When the args force an output mode simp can't parse, the tool still
/// runs with the user's args, so its exit code passes through, and a warning
/// says why diagnostics may be empty.
pub fn wrapped_args(args: &[String], injection: Injection) -> (r: (Vec<String>, Option<String>))
    ensures
        match injection@ {
            InjectionView::Append(flags) => texts(r.0@) == texts(args@) + flags && r.1 is None,
            InjectionView::Unsupported(reason) => texts(r.0@) == texts(args@) && (r.1 matches Some(
                w,
            ) && w@ == "simp: "@ + reason + "; diagnostics may be empty"@),
        },
{
    let mut out: Vec<String> = Vec::new();
    let mut i: usize = 0;
    while i < args.len()
        invariant
            i <= args@.len(),
            texts(out@) == texts(args@).take(i as int),
        decreases args@.len() - i,
    {
        let ghost before = out@;
        out.push(args[i].clone());
        assert(texts(out@) =~= texts(before).push(args@[i as int]@));
        assert(texts(args@).take(i + 1) =~= texts(args@).take(i as int).push(args@[i as int]@));
        i += 1;
    }
    assert(texts(args@).take(i as int) =~= texts(args@));
    match injection {
        Injection::Append(flags) => {
            let ghost base = texts(out@);
            let mut j: usize = 0;
            assert(base + texts(flags@).take(0) =~= base);
            while j < flags.len()
                invariant
                    j <= flags@.len(),
                    texts(out@) == base + texts(flags@).take(j as int),
                decreases flags@.len() - j,
            {
                let ghost before = out@;
                out.push(flags[j].clone());
                assert(texts(out@) =~= texts(before).push(flags@[j as int]@));
                assert(texts(flags@).take(j + 1) =~= texts(flags@).take(j as int).push(
                    flags@[j as int]@,
                ));
                j += 1;
            }
            assert(texts(flags@).take(j as int) =~= texts(flags@));
            (out, None)
        },
        Injection::Unsupported(reason) => {
            let mut warning = owned("simp: ");
            push_str(&mut warning, reason.as_str());
            push_str(&mut warning, "; diagnostics may be empty");
            (out, Some(warning))
        },
    }
}

/// simp's own exit status for a tool's exit code: the code clamped to 0..=255.
pub fn exit_status(code: i32) -> (r: u8)
    ensures
        r == if code < 0 {
            0
        } else if code > 255 {
            255
        } else {
            code
        },
{
    if code < 0 {
        0
    } else if code > 255 {
        255
    } else {
        code as u8
    }
}

} // verus!
