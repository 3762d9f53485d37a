use vstd::prelude::*;

use crate::format::join_text;
use crate::profiles::{
    known_names, known_tools, resolve, stem_of, tool_name, tool_named, Profile, Tool,
};
use crate::text::{owned, push_str, strs};

verus! {

/// Whether to normalize output.
#[derive(Debug, Clone, Copy, PartialEq, Eq, Structural)]
pub enum Enabled {
    True,
    False,
    /// Normalize only inside an AI agent.
    Auto,
}

impl Enabled {
    /// Resolves the tri-state to a decision, given whether an agent was detected.
    pub fn resolve(self, agent_detected: bool) -> (r: bool)
        ensures
            r == match self {
                Enabled::True => true,
                Enabled::False => false,
                Enabled::Auto => agent_detected,
            },
    {
        match self {
            Enabled::True => true,
            Enabled::False => false,
            Enabled::Auto => agent_detected,
        }
    }
}

/// The known tool names joined by `, `.
pub open spec fn known_list_text() -> Seq<char> {
    join_text(known_tools().map_values(|t: Tool| tool_name(t)), ", "@)
}

/// Appends the known tool names, joined by `, `, to `out`.
fn push_known_names(out: &mut String)
    ensures
        final(out)@ == old(out)@ + known_list_text(),
{
    let names = known_names();
    let ghost parts = strs(names@);
    let mut i: usize = 0;
    assert(parts.take(0) =~= Seq::<Seq<char>>::empty());
    assert(old(out)@ + join_text(parts.take(0), ", "@) =~= old(out)@);
    while i < names.len()
        invariant
            i <= names@.len(),
            parts == strs(names@),
            out@ == old(out)@ + join_text(parts.take(i as int), ", "@),
        decreases names@.len() - i,
    {
        let ghost before = out@;
        if i > 0 {
            push_str(out, ", ");
        }
        push_str(out, names[i]);
        proof {
            crate::format::lemma_join_push(parts.take(i as int), ", "@, parts[i as int]);
            assert(parts.take(i + 1) =~= parts.take(i as int).push(parts[i as int]));
            if i > 0 {
                assert(out@ =~= old(out)@ + (join_text(parts.take(i as int), ", "@) + ", "@
                    + parts[i as int]));
            } else {
                assert(out@ =~= old(out)@ + parts[i as int]);
            }
        }
        i += 1;
    }
    assert(parts.take(i as int) =~= parts);
}

/// Splits the wrapped command into the program and its args; with no command,
/// the error names the known tools.
pub fn command_or_bail(command: &[String]) -> (r: Result<(&String, &[String]), String>)
    ensures
        command@.len() == 0 ==> (r matches Err(e) && e@ == "no command given. Use `simp <tool> <args>`.\nKnown tools: "@
            + known_list_text()),
        command@.len() > 0 ==> (r matches Ok((program, args)) && *program == command@[0] && args@
            == command@.skip(1)),
{
    if command.len() == 0 {
        let mut message = owned("no command given. Use `simp <tool> <args>`.\nKnown tools: ");
        push_known_names(&mut message);
        return Err(message);
    }
    let (first, rest) = command.split_at(1);
    assert(rest@ =~= command@.skip(1));
    Ok((&first[0], rest))
}

/// Resolves the profile for a program; for an unknown program, the error names
/// it and the known tools.
pub fn resolve_or_bail(name: &str) -> (r: Result<Profile, String>)
    ensures
        match tool_named(stem_of(name@)) {
            Some(t) => r matches Ok(p) && p.tool == t && p.name@ == tool_name(t),
            None => r matches Err(e) && e@ == "no profile for `"@ + name@ + "`. Known tools: "@
                + known_list_text(),
        },
{
    match resolve(name) {
        Some(p) => Ok(p),
        None => {
            let mut message = owned("no profile for `");
            push_str(&mut message, name);
            push_str(&mut message, "`. Known tools: ");
            push_known_names(&mut message);
            Err(message)
        },
    }
}

} // verus!
