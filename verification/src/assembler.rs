//! Building the prompt sent to the model, and applying the memory changes
//! that come back.

use vstd::prelude::*;
use crate::character::{learn, learn_all, prompt_lines, Character};
use crate::groq_client::MemoryDelta;
use crate::memory::Message;
use crate::router::ContextQuery;
use crate::text::{
    append_chars, chars_of, contains, join, join_exec, lemma_join_inner_part, owned, string_of,
    string_views, unicode_uppercase, views,
};

verus! {

broadcast use vstd::string::group_string_axioms;

/// `s` with its first character upper-cased (which may give several characters).
pub open spec fn capitalized(s: Seq<char>) -> Seq<char> {
    if s.len() == 0 {
        Seq::empty()
    } else {
        unicode_uppercase(s[0]) + s.drop_first()
    }
}

/// `s` with its first character upper-cased; an ASCII first character is
/// upper-cased in ASCII.
pub fn capitalize(s: &str) -> (r: String)
    ensures
        r@ == capitalized(s@),
        s@.len() > 0 && (s@[0] as u32) < 0x80 ==> unicode_uppercase(s@[0]) == seq![
            crate::text::ascii_uppercase_char(s@[0]),
        ],
{
    let v = chars_of(s);
    if v.len() == 0 {
        return String::new();
    }
    let mut r = crate::text::char_to_uppercase(v[0]);
    let rest = crate::text::slice_chars(&v, 1, v.len());
    append_chars(&mut r, &rest);
    assert(rest@ =~= s@.drop_first());
    r
}

pub open spec fn format_instruction_text() -> Seq<char> {
    "\n## Response Format\nReturn a JSON object with these fields:\n- \"response\": your natural language reply to the user\n- \"kg_updates\": array of objects { \"path\": \"dot.path\", \"value\": any } for new stable facts\n- \"memory_updates\": array of strings for learned mutable facts about the user or conversation\n- \"current_topic\": optional string describing the active topic\n\nBe concise and grounded in the provided context.\n"@
}

/// How the model is asked to shape its answer.
pub fn format_instruction() -> (r: String)
    ensures
        r@ == format_instruction_text(),
{
    owned(
        "\n## Response Format\nReturn a JSON object with these fields:\n- \"response\": your natural language reply to the user\n- \"kg_updates\": array of objects { \"path\": \"dot.path\", \"value\": any } for new stable facts\n- \"memory_updates\": array of strings for learned mutable facts about the user or conversation\n- \"current_topic\": optional string describing the active topic\n\nBe concise and grounded in the provided context.\n",
    )
}

/// A conversation line: capitalised role, a colon, the content.
pub open spec fn message_line(m: Message) -> Seq<char> {
    capitalized(m.role@) + ": "@ + m.content@
}

/// A memory line: its score label in brackets before the conversation line.
pub open spec fn memory_line(label: Seq<char>, m: Message) -> Seq<char> {
    "[score="@ + label + "] "@ + message_line(m)
}

/// The sections of the prompt: the system prompt; the knowledge-graph facts,
/// the recent conversation and the relevant memories, each under a heading
/// and only when there are any; the user's query; the answer format.
pub open spec fn prompt_sections(
    c: Character,
    ctx: ContextQuery,
    query: Seq<char>,
    labels: Seq<Seq<char>>,
) -> Seq<Seq<char>> {
    let s0 = seq![join(prompt_lines(c), "\n"@)];
    let s1 = if ctx.kg_facts.len() > 0 {
        s0.push("## Knowledge Graph\n"@) + string_views(ctx.kg_facts@)
    } else {
        s0
    };
    let s2 = if ctx.recent_messages.len() > 0 {
        s1.push("\n## Recent Conversation"@) + ctx.recent_messages@.map_values(
            |m: Message| message_line(m),
        )
    } else {
        s1
    };
    let s3 = if ctx.top_memories.len() > 0 {
        s2.push("\n## Relevant Memories"@) + Seq::new(
            ctx.top_memories.len() as nat,
            |i: int| memory_line(labels[i], ctx.top_memories@[i]),
        )
    } else {
        s2
    };
    s3.push("\n## User Query\n"@ + query).push(format_instruction_text())
}

/// Every knowledge-graph fact of the context is a line of the prompt: the
/// knowledge-graph heading comes right after the character's part, followed
/// by every fact in order, each standing between two newlines in the
/// assembled prompt.
pub proof fn law_prompt_lists_every_fact(
    c: Character,
    ctx: ContextQuery,
    query: Seq<char>,
    labels: Seq<Seq<char>>,
)
    requires
        ctx.kg_facts.len() > 0,
    ensures
        prompt_sections(c, ctx, query, labels)[1] == "## Knowledge Graph\n"@,
        forall|i: int|
            0 <= i < ctx.kg_facts.len() ==> prompt_sections(c, ctx, query, labels)[2 + i]
                == (#[trigger] ctx.kg_facts@[i])@,
        forall|i: int|
            0 <= i < ctx.kg_facts.len() ==> contains(
                join(prompt_sections(c, ctx, query, labels), "\n"@),
                "\n"@ + (#[trigger] ctx.kg_facts@[i])@ + "\n"@,
            ),
{
    let secs = prompt_sections(c, ctx, query, labels);
    let n = ctx.kg_facts.len() as int;
    let s0 = seq![join(prompt_lines(c), "\n"@)];
    let s1 = s0.push("## Knowledge Graph\n"@) + string_views(ctx.kg_facts@);
    assert(s1.len() == 2 + n);
    assert(secs.len() >= s1.len() + 2);
    assert forall|i: int| 0 <= i < n implies secs[2 + i] == (#[trigger] ctx.kg_facts@[i])@ by {
        assert(s1[2 + i] == string_views(ctx.kg_facts@)[i]);
    }
    assert forall|i: int| 0 <= i < n implies contains(
        join(secs, "\n"@),
        "\n"@ + (#[trigger] ctx.kg_facts@[i])@ + "\n"@,
    ) by {
        assert(secs[2 + i] == ctx.kg_facts@[i]@);
        lemma_join_inner_part(secs, "\n"@, 2 + i);
    }
}

fn message_line_exec(m: &Message) -> (r: Vec<char>)
    ensures
        r@ == message_line(*m),
{
    let mut s = capitalize(m.role.as_str());
    s.append(": ");
    s.append(m.content.as_str());
    chars_of(s.as_str())
}

/// The prompt for the model: the sections of `prompt_sections` joined by
/// newlines. `score_labels[i]` is the printed combined score of the `i`-th
/// relevant memory.
pub fn assemble_prompt(
    character: &Character,
    context: &ContextQuery,
    user_query: &str,
    score_labels: &Vec<String>,
) -> (r: String)
    requires
        score_labels.len() == context.top_memories.len(),
    ensures
        r@ == join(
            prompt_sections(*character, *context, user_query@, string_views(score_labels@)),
            "\n"@,
        ),
{
    let ghost labels = string_views(score_labels@);
    let mut sections: Vec<Vec<char>> = Vec::new();
    let sp = character.system_prompt();
    sections.push(chars_of(sp.as_str()));
    assert(views(sections@) =~= seq![join(prompt_lines(*character), "\n"@)]);
    if context.kg_facts.len() > 0 {
        sections.push(chars_of("## Knowledge Graph\n"));
        let ghost base = views(sections@);
        let n = context.kg_facts.len();
        for i in 0..n
            invariant
                n == context.kg_facts.len(),
                views(sections@) == base + string_views(context.kg_facts@).take(i as int),
        {
            let ghost before = views(sections@);
            sections.push(chars_of(context.kg_facts[i].as_str()));
            assert(views(sections@) =~= before.push(context.kg_facts@[i as int]@));
            assert(string_views(context.kg_facts@).take(i + 1) =~= string_views(
                context.kg_facts@,
            ).take(i as int).push(context.kg_facts@[i as int]@));
        }
        assert(string_views(context.kg_facts@).take(n as int) =~= string_views(
            context.kg_facts@,
        ));
    }
    let ghost s0 = seq![join(prompt_lines(*character), "\n"@)];
    let ghost s1 = if context.kg_facts.len() > 0 {
        s0.push("## Knowledge Graph\n"@) + string_views(context.kg_facts@)
    } else {
        s0
    };
    assert(views(sections@) == s1);
    let ghost s2 = if context.recent_messages.len() > 0 {
        s1.push("\n## Recent Conversation"@) + context.recent_messages@.map_values(
            |m: Message| message_line(m),
        )
    } else {
        s1
    };
    if context.recent_messages.len() > 0 {
        sections.push(chars_of("\n## Recent Conversation"));
        let ghost base = views(sections@);
        let ghost lines = context.recent_messages@.map_values(|m: Message| message_line(m));
        let n = context.recent_messages.len();
        for i in 0..n
            invariant
                n == context.recent_messages.len(),
                lines == context.recent_messages@.map_values(|m: Message| message_line(m)),
                views(sections@) == base + lines.take(i as int),
        {
            let ghost before = views(sections@);
            let l = message_line_exec(&context.recent_messages[i]);
            sections.push(l);
            assert(views(sections@) =~= before.push(l@));
            assert(lines.take(i + 1) =~= lines.take(i as int).push(lines[i as int]));
        }
        assert(lines.take(n as int) =~= lines);
    }
    assert(views(sections@) == s2);
    let ghost s3 = if context.top_memories.len() > 0 {
        s2.push("\n## Relevant Memories"@) + Seq::new(
            context.top_memories.len() as nat,
            |i: int| memory_line(labels[i], context.top_memories@[i]),
        )
    } else {
        s2
    };
    if context.top_memories.len() > 0 {
        sections.push(chars_of("\n## Relevant Memories"));
        let ghost base = views(sections@);
        let ghost lines = Seq::new(
            context.top_memories.len() as nat,
            |i: int| memory_line(labels[i], context.top_memories@[i]),
        );
        let n = context.top_memories.len();
        for i in 0..n
            invariant
                n == context.top_memories.len(),
                n == score_labels.len(),
                labels == string_views(score_labels@),
                lines == Seq::new(
                    context.top_memories.len() as nat,
                    |i: int| memory_line(labels[i], context.top_memories@[i]),
                ),
                views(sections@) == base + lines.take(i as int),
        {
            let ghost before = views(sections@);
            let mut s = owned("[score=");
            s.append(score_labels[i].as_str());
            s.append("] ");
            let ml = message_line_exec(&context.top_memories[i]);
            append_chars(&mut s, &ml);
            let l = chars_of(s.as_str());
            sections.push(l);
            assert(views(sections@) =~= before.push(l@));
            assert(lines.take(i + 1) =~= lines.take(i as int).push(lines[i as int]));
        }
        assert(lines.take(n as int) =~= lines);
    }
    assert(views(sections@) == s3);
    let q = crate::text::concat2("\n## User Query\n", user_query);
    sections.push(chars_of(q.as_str()));
    let fi = format_instruction();
    sections.push(chars_of(fi.as_str()));
    assert(views(sections@) =~= prompt_sections(*character, *context, user_query@, labels));
    let nl = chars_of("\n");
    let joined = join_exec(&sections, &nl);
    string_of(&joined)
}

// ---------------------------------------------------------------------------
// Applying a memory delta
// ---------------------------------------------------------------------------

/// The report lines for learning the facts in turn: one `learned: <fact>`
/// per fact that was new at its turn.
pub open spec fn learn_report(learned: Seq<Seq<char>>, facts: Seq<Seq<char>>) -> Seq<Seq<char>>
    decreases facts.len(),
{
    if facts.len() == 0 {
        Seq::empty()
    } else {
        (if learned.contains(facts[0]) {
            Seq::empty()
        } else {
            seq!["learned: "@ + facts[0]]
        }) + learn_report(learn(learned, facts[0]), facts.drop_first())
    }
}

/// Applies a memory delta to a character: learns each new fact, takes the
/// proposed topic; returns a line per change (`learned: ...`, then
/// `topic: ...`).
pub fn apply_delta(delta: &MemoryDelta, character: &mut Character) -> (r: Vec<String>)
    ensures
        string_views(final(character).memory.learned@) == learn_all(
            string_views(old(character).memory.learned@),
            string_views(delta.memory_updates@),
        ),
        final(character).memory.current_topic == (match delta.current_topic {
            Some(t) => Some(t),
            None => old(character).memory.current_topic,
        }),
        string_views(r@) == learn_report(
            string_views(old(character).memory.learned@),
            string_views(delta.memory_updates@),
        ) + (match delta.current_topic {
            Some(t) => seq!["topic: "@ + t@],
            None => Seq::empty(),
        }),
        final(character).core == old(character).core,
        final(character).name == old(character).name,
{
    let mut updates: Vec<String> = Vec::new();
    let ghost facts = string_views(delta.memory_updates@);
    let ghost start = string_views(character.memory.learned@);
    let n = delta.memory_updates.len();
    assert(facts.skip(0) =~= facts);
    assert(string_views(updates@) =~= Seq::<Seq<char>>::empty());
    for i in 0..n
        invariant
            n == delta.memory_updates.len(),
            facts == string_views(delta.memory_updates@),
            learn_all(start, facts) == learn_all(
                string_views(character.memory.learned@),
                facts.skip(i as int),
            ),
            learn_report(start, facts) == string_views(updates@) + learn_report(
                string_views(character.memory.learned@),
                facts.skip(i as int),
            ),
            character.memory.current_topic == old(character).memory.current_topic,
            character.core == old(character).core,
            character.name == old(character).name,
    {
        let ghost l = string_views(character.memory.learned@);
        let ghost rs = string_views(updates@);
        let fact = &delta.memory_updates[i];
        assert(facts.skip(i as int)[0] == fact@);
        assert(facts.skip(i as int).drop_first() =~= facts.skip(i + 1));
        let added = crate::character::learn_fact(&mut character.memory.learned, fact.as_str());
        if added {
            let line = crate::text::concat2("learned: ", fact.as_str());
            updates.push(line);
            assert(string_views(updates@) =~= rs.push("learned: "@ + fact@));
            assert(rs + (seq!["learned: "@ + fact@] + learn_report(
                string_views(character.memory.learned@),
                facts.skip(i + 1),
            )) =~= rs.push("learned: "@ + fact@) + learn_report(
                string_views(character.memory.learned@),
                facts.skip(i + 1),
            ));
        } else {
            assert(Seq::<Seq<char>>::empty() + learn_report(
                string_views(character.memory.learned@),
                facts.skip(i + 1),
            ) =~= learn_report(string_views(character.memory.learned@), facts.skip(i + 1)));
        }
    }
    assert(facts.skip(n as int) =~= Seq::<Seq<char>>::empty());
    assert(string_views(updates@) + Seq::<Seq<char>>::empty() =~= string_views(updates@));
    match &delta.current_topic {
        Some(t) => {
            character.memory.current_topic = Some(t.clone());
            let ghost rs = string_views(updates@);
            updates.push(crate::text::concat2("topic: ", t.as_str()));
            assert(string_views(updates@) =~= rs + seq!["topic: "@ + t@]);
        },
        None => {
            assert(string_views(updates@) =~= string_views(updates@) + Seq::<Seq<char>>::empty());
        },
    }
    updates
}

} // verus!
