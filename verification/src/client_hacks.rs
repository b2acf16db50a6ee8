//! Client-side script payloads: each script is flattened to a single line
//! before the driver sends it to the game client's console.

use vstd::prelude::*;

verus! {

/// The length of the leading run of `c` in `s`.
pub open spec fn run_len(s: Seq<char>, c: char) -> nat
    decreases s.len(),
{
    if s.len() > 0 && s[0] == c {
        1 + run_len(s.skip(1), c)
    } else {
        0
    }
}

/// The leading run never outruns the sequence.
proof fn lemma_run_len(s: Seq<char>, c: char)
    ensures
        run_len(s, c) <= s.len(),
    decreases s.len(),
{
    if s.len() > 0 && s[0] == c {
        lemma_run_len(s.skip(1), c);
    }
}

/// `s` with every newline removed, together with the run of tabs — or, if
/// no tab follows, the run of spaces — directly after it.
pub open spec fn spec_strip_newlines(s: Seq<char>) -> Seq<char>
    decreases s.len() via spec_strip_newlines_decreases
{
    if s.len() == 0 {
        Seq::empty()
    } else if s[0] == '\n' {
        let rest = s.skip(1);
        if run_len(rest, '\t') > 0 {
            spec_strip_newlines(rest.skip(run_len(rest, '\t') as int))
        } else if run_len(rest, ' ') > 0 {
            spec_strip_newlines(rest.skip(run_len(rest, ' ') as int))
        } else {
            spec_strip_newlines(rest)
        }
    } else {
        seq![s[0]] + spec_strip_newlines(s.skip(1))
    }
}

#[via_fn]
proof fn spec_strip_newlines_decreases(s: Seq<char>) {
    if s.len() > 0 && s[0] == '\n' {
        lemma_run_len(s.skip(1), '\t');
        lemma_run_len(s.skip(1), ' ');
    }
}

/// Relies on regex's `Regex::replace_all` with an alternation of a newline
/// followed by a run of tabs, a newline followed by a run of spaces, and a
/// bare newline.  Matching is leftmost-first and the runs are greedy, so
/// each newline is removed together with the tab run after it, or, if no
/// tab follows, the space run after it.
#[verifier::external_body]
fn strip_newline_runs(code: &str) -> (r: String)
    ensures
        r@ == spec_strip_newlines(code@),
{
    let re = regex::Regex::new(r"\n\t+|\n +|\n").unwrap();
    re.replace_all(code, "").into_owned()
}

/// A utility to inject code into the client.  The provided script should be
/// resilient to being run multiple times.
#[derive(Debug)]
pub struct ClientHack {
    name: String,
    inject_code: String,
}

impl ClientHack {
    /// The hack's name.
    pub closed spec fn spec_name(self) -> Seq<char> {
        self.name@
    }

    /// The single-line payload the client runs.
    pub closed spec fn spec_code(self) -> Seq<char> {
        self.inject_code@
    }

    /// Prepares a client hack from a script: the script is flattened to one
    /// line by removing each newline and the indentation after it.
    pub fn new(name: &str, code: &str) -> (hack: ClientHack)
        ensures
            hack.spec_name() == name@,
            hack.spec_code() == spec_strip_newlines(code@),
    {
        let replaced = strip_newline_runs(code);
        ClientHack { name: name.to_string(), inject_code: replaced }
    }

    /// The hack's name, for logging.
    pub fn name(&self) -> (r: &String)
        ensures
            r@ == self.spec_name(),
    {
        &self.name
    }

    /// The payload to send to the client console.
    pub fn code(&self) -> (r: &String)
        ensures
            r@ == self.spec_code(),
    {
        &self.inject_code
    }
}

/// Prepares every client hack, in the order they must be injected: the
/// visualizer hack first, and the controlling interface hack last so that
/// it can find everything injected before it.
pub fn inject_all(visualizer_code: &str, ui_code: &str) -> (hacks: Vec<ClientHack>)
    ensures
        hacks@.len() == 2,
        hacks@[0].spec_code() == spec_strip_newlines(visualizer_code@),
        hacks@[1].spec_code() == spec_strip_newlines(ui_code@),
{
    let mut hacks: Vec<ClientHack> = Vec::new();
    hacks.push(ClientHack::new("visualizer_hack", visualizer_code));
    // this one must be last so that it can find everything
    hacks.push(ClientHack::new("hacks_ui", ui_code));
    hacks
}

} // verus!
