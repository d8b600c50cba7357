//! The decisions of an interactive chat session: reading a line, the local
//! fallback reply, commit messages, and branch bookkeeping.

use vstd::prelude::*;
use vstd::string::StringSliceAdditionalSpecFns;
use vstd::utf8::{decode_utf8, encode_utf8, is_char_boundary};
use crate::groq_client::MemoryDelta;
use crate::router::ContextQuery;
use crate::text::{
    append_chars, chars_of, join, join_exec, owned, str_eq, string_of, string_views, trim, trim_exec,
    views,
};

verus! {

broadcast use {vstd::string::group_string_axioms, vstd::utf8::encode_utf8_decode_utf8};

/// The characters of `v` joined by newlines.
pub fn join_lines(v: &Vec<String>) -> (r: String)
    ensures
        r@ == join(string_views(v@), "\n"@),
{
    let parts = crate::character::char_vecs(v);
    let nl = chars_of("\n");
    let joined = join_exec(&parts, &nl);
    string_of(&joined)
}

// ---------------------------------------------------------------------------
// Reading a line
// ---------------------------------------------------------------------------

/// What a line typed in the chat asks for.
#[derive(Debug)]
pub enum ChatInput {
    Quit,
    Skip,
    Message(String),
}

/// The code of `c` with ASCII capitals lowered.
pub open spec fn ascii_lower(c: char) -> u32 {
    if 'A' <= c && c <= 'Z' {
        ((c as u32) + 32) as u32
    } else {
        c as u32
    }
}

/// `s` equals `t` ignoring ASCII case (`eq_ignore_ascii_case`).
pub open spec fn eq_ignore_ascii_case(s: Seq<char>, t: Seq<char>) -> bool {
    s.len() == t.len() && forall|i: int| 0 <= i < s.len() ==> ascii_lower(#[trigger] s[i]) == ascii_lower(t[i])
}

fn ascii_lower_exec(c: char) -> (r: u32)
    ensures
        r == ascii_lower(c),
{
    if 'A' <= c && c <= 'Z' {
        (c as u32) + 32
    } else {
        c as u32
    }
}

fn eq_ignore_case_exec(s: &Vec<char>, t: &str) -> (r: bool)
    ensures
        r == eq_ignore_ascii_case(s@, t@),
{
    let tv = chars_of(t);
    if s.len() != tv.len() {
        return false;
    }
    let n = s.len();
    for i in 0..n
        invariant
            n == s.len(),
            n == tv.len(),
            tv@ == t@,
            forall|j: int| 0 <= j < i ==> ascii_lower(#[trigger] s@[j]) == ascii_lower(tv@[j]),
    {
        if ascii_lower_exec(s[i]) != ascii_lower_exec(tv[i]) {
            return false;
        }
    }
    true
}

/// A typed line, trimmed: `/quit` or `/exit` in any ASCII case ends the
/// session, an empty line is skipped, anything else is a message.
pub open spec fn chat_input_spec(line: Seq<char>) -> Option<Seq<char>> {
    let t = trim(line);
    if eq_ignore_ascii_case(t, "/quit"@) || eq_ignore_ascii_case(t, "/exit"@) {
        None
    } else {
        Some(t)
    }
}

/// What a typed line asks for (see `chat_input_spec`).
pub fn chat_input(line: &str) -> (r: ChatInput)
    ensures
        match chat_input_spec(line@) {
            None => r is Quit,
            Some(t) => if t.len() == 0 {
                r is Skip
            } else {
                r matches ChatInput::Message(m) && m@ == t
            },
        },
{
    let v = chars_of(line);
    let t = trim_exec(&v);
    if eq_ignore_case_exec(&t, "/quit") || eq_ignore_case_exec(&t, "/exit") {
        return ChatInput::Quit;
    }
    if t.len() == 0 {
        return ChatInput::Skip;
    }
    ChatInput::Message(string_of(&t))
}

// ---------------------------------------------------------------------------
// The local reply
// ---------------------------------------------------------------------------

/// The reply given without the model: the knowledge-graph facts under a
/// heading when there are any, a note when recent conversation is known,
/// and the input echoed.
pub open spec fn local_reply(input: Seq<char>, ctx: ContextQuery) -> Seq<char> {
    let p0 = if ctx.kg_facts.len() > 0 {
        seq!["Based on the knowledge graph:"@] + string_views(ctx.kg_facts@)
    } else {
        Seq::empty()
    };
    let p1 = if ctx.recent_messages.len() > 0 {
        p0.push("Recent context is available."@)
    } else {
        p0
    };
    join(p1.push("(Groq not available. Echo:) "@ + input), "\n"@)
}

/// The reply given without the model (see `local_reply`), with no memory
/// changes.
pub fn local_response(input: &str, context: &ContextQuery) -> (r: (String, MemoryDelta))
    ensures
        r.0@ == local_reply(input@, *context),
        r.1.kg_updates.len() == 0,
        r.1.memory_updates.len() == 0,
        r.1.current_topic is None,
{
    let mut parts: Vec<String> = Vec::new();
    if context.kg_facts.len() > 0 {
        parts.push(owned("Based on the knowledge graph:"));
        let n = context.kg_facts.len();
        let ghost base = string_views(parts@);
        for i in 0..n
            invariant
                n == context.kg_facts.len(),
                string_views(parts@) == base + string_views(context.kg_facts@).take(i as int),
        {
            let ghost before = string_views(parts@);
            parts.push(context.kg_facts[i].clone());
            assert(string_views(parts@) =~= before.push(context.kg_facts@[i as int]@));
            assert(string_views(context.kg_facts@).take(i + 1) =~= string_views(
                context.kg_facts@,
            ).take(i as int).push(context.kg_facts@[i as int]@));
        }
        assert(string_views(context.kg_facts@).take(n as int) =~= string_views(context.kg_facts@));
        assert(base =~= seq!["Based on the knowledge graph:"@]);
    } else {
        assert(string_views(parts@) =~= Seq::<Seq<char>>::empty());
    }
    if context.recent_messages.len() > 0 {
        let ghost before = string_views(parts@);
        parts.push(owned("Recent context is available."));
        assert(string_views(parts@) =~= before.push("Recent context is available."@));
    }
    let ghost before = string_views(parts@);
    parts.push(crate::text::concat2("(Groq not available. Echo:) ", input));
    assert(string_views(parts@) =~= before.push("(Groq not available. Echo:) "@ + input@));
    (join_lines(&parts), MemoryDelta::empty())
}

// ---------------------------------------------------------------------------
// Commit messages
// ---------------------------------------------------------------------------

/// The input cut to its first 50 bytes followed by `...` when longer.
pub open spec fn summarized_input(input: Seq<char>) -> Seq<char> {
    if crate::validation::byte_len(input) > 50 {
        decode_utf8(encode_utf8(input).take(50)) + "..."@
    } else {
        input
    }
}

/// The input summarised for a commit message (see `summarized_input`).
pub fn summarize_input(input: &str) -> (r: String)
    requires
        crate::validation::byte_len(input@) > 50 ==> is_char_boundary(encode_utf8(input@), 50),
    ensures
        r@ == summarized_input(input@),
{
    if input.len() > 50 {
        let (head, _) = input.split_at(50);
        assert(head.spec_bytes() =~= encode_utf8(input@).take(50));
        crate::text::concat2(head, "...")
    } else {
        owned(input)
    }
}

/// The commit message for one chat turn.
pub open spec fn turn_commit_text(input: Seq<char>, topic: Option<Seq<char>>) -> Seq<char> {
    "memory: "@ + summarized_input(input) + " | topic: "@ + match topic {
        Some(t) => t,
        None => "general"@,
    }
}

/// The commit message for one chat turn: the summarised input and the
/// current topic (`general` when there is none).
pub fn turn_commit_message(input: &str, topic: &Option<String>) -> (r: String)
    requires
        crate::validation::byte_len(input@) > 50 ==> is_char_boundary(encode_utf8(input@), 50),
    ensures
        r@ == turn_commit_text(
            input@,
            match topic {
                Some(t) => Some(t@),
                None => None,
            },
        ),
{
    let s = summarize_input(input);
    let mut r = owned("memory: ");
    r.append(s.as_str());
    r.append(" | topic: ");
    match topic {
        Some(t) => r.append(t.as_str()),
        None => r.append("general"),
    }
    r
}

// ---------------------------------------------------------------------------
// Branches
// ---------------------------------------------------------------------------

/// A chat on a branch that does not exist creates it, unless the
/// repository has no branches yet.
pub fn branch_needs_create(branches: &Vec<String>, branch: &str) -> (r: bool)
    ensures
        r == (!string_views(branches@).contains(branch@) && branches.len() > 0),
{
    let n = branches.len();
    for i in 0..n
        invariant
            n == branches.len(),
            forall|j: int| 0 <= j < i ==> string_views(branches@)[j] != branch@,
    {
        if str_eq(branches[i].as_str(), branch) {
            assert(string_views(branches@)[i as int] == branch@);
            return false;
        }
    }
    n > 0
}

/// A line of the branch listing: `* ` before the current branch, two spaces
/// before the others.
pub open spec fn branch_line(current: Seq<char>, b: Seq<char>) -> Seq<char> {
    if b == current {
        "* "@ + b
    } else {
        "  "@ + b
    }
}

/// The branch listing, one line per branch in order.
pub fn branch_list_lines(current: &str, branches: &Vec<String>) -> (r: Vec<String>)
    ensures
        string_views(r@) == string_views(branches@).map_values(|b: Seq<char>| branch_line(current@, b)),
{
    let ghost target = string_views(branches@).map_values(|b: Seq<char>| branch_line(current@, b));
    let mut r: Vec<String> = Vec::new();
    let n = branches.len();
    for i in 0..n
        invariant
            n == branches.len(),
            target == string_views(branches@).map_values(|b: Seq<char>| branch_line(current@, b)),
            string_views(r@) == target.take(i as int),
    {
        let b = branches[i].as_str();
        let line = if str_eq(b, current) {
            crate::text::concat2("* ", b)
        } else {
            crate::text::concat2("  ", b)
        };
        let ghost before = string_views(r@);
        r.push(line);
        assert(string_views(r@) =~= before.push(target[i as int]));
        assert(target.take(i + 1) =~= target.take(i as int).push(target[i as int]));
    }
    assert(target.take(n as int) =~= target);
    r
}

} // verus!
