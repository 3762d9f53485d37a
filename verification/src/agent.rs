use vstd::prelude::*;

verus! {

/// Environment markers set by known AI coding agents in the shell commands they
/// run. Only presence (non-empty) is checked, never the value, so the shared
/// `AGENT` convention covers every tool that adopts it regardless of the value
/// it picks.
///
/// Detection is deliberately an allowlist: a false negative (an unrecognized
/// agent) is recoverable with `--enabled=true` or `SIMP_ENABLED=true`, whereas a
/// false positive would mangle native output for a human, or for a CI pipeline
/// that merely pipes stdout.
pub const AGENT_MARKERS: [&'static str; 10] = [
    "CLAUDECODE",
    "CURSOR_AGENT",
    "GEMINI_CLI",
    "CODEX_SANDBOX",
    "AUGMENT_AGENT",
    "CLINE_ACTIVE",
    "OPENCODE_CLIENT",
    "TRAE_AI_SHELL_ID",
    "AGENT",
    "AI_AGENT",
];

/// Filesystem markers for agents that leave a path rather than an env var.
pub const AGENT_PATHS: [&'static str; 1] = [
    "/opt/.devin",
];

/// Whether a looked-up variable counts as set: present and non-empty.
pub open spec fn is_set(value: Option<String>) -> bool {
    value matches Some(v) && v@.len() > 0
}

/// Whether one lookup of `marker` can return a set value.
pub open spec fn found_set<F: Fn(&str) -> Option<String>>(lookup: F, marker: &str) -> bool {
    exists|v: Option<String>| #[trigger] call_ensures(lookup, (marker,), v) && is_set(v)
}

/// Whether one lookup of `marker` can return an unset value.
pub open spec fn found_unset<F: Fn(&str) -> Option<String>>(lookup: F, marker: &str) -> bool {
    exists|v: Option<String>| #[trigger] call_ensures(lookup, (marker,), v) && !is_set(v)
}

/// Whether any of `markers` is set, by the given lookup. Markers are looked up
/// in order until one is set; split from the environment so it can be tested
/// without mutating process-global state.
pub fn any_env_set<F: Fn(&str) -> Option<String>>(markers: &[&str], lookup: F) -> (r: bool)
    requires
        forall|i: int| 0 <= i < markers@.len() ==> call_requires(lookup, (#[trigger] markers@[i],)),
    ensures
        r ==> exists|i: int| 0 <= i < markers@.len() && #[trigger] found_set(lookup, markers@[i]),
        !r ==> forall|i: int| 0 <= i < markers@.len() ==> #[trigger] found_unset(lookup, markers@[i]),
{
    let mut i: usize = 0;
    while i < markers.len()
        invariant
            i <= markers@.len(),
            forall|k: int| 0 <= k < markers@.len() ==> call_requires(lookup, (#[trigger] markers@[k],)),
            forall|k: int| 0 <= k < i ==> #[trigger] found_unset(lookup, markers@[k]),
        decreases markers@.len() - i,
    {
        let value = lookup(markers[i]);
        let set = match &value {
            Some(v) => !v.as_str().is_empty(),
            None => false,
        };
        assert(set == is_set(value));
        if set {
            assert(found_set(lookup, markers@[i as int]));
            return true;
        }
        assert(found_unset(lookup, markers@[i as int]));
        i += 1;
    }
    false
}

} // verus!
