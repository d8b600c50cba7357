//! Query intent: whether a question is about stored facts, past
//! conversation, or both.

use vstd::prelude::*;
use crate::text::{
    all_ascii, ascii_lowercase_char, chars_of, contains, contains_exec, owned, str_eq, to_lowercase,
    unicode_lowercase,
};

verus! {

broadcast use vstd::string::group_string_axioms;

/// Where the answer to a query is looked for.
#[derive(Debug, Clone, Copy, PartialEq, Eq, Structural)]
pub enum Intent {
    KnowledgeGraph,
    Memory,
    Both,
}

pub open spec fn intent_name(i: Intent) -> Seq<char> {
    match i {
        Intent::KnowledgeGraph => "kg"@,
        Intent::Memory => "memory"@,
        Intent::Both => "both"@,
    }
}

/// The intent a classifier's answer names: `kg`, `memory`, and anything
/// else meaning both.
pub open spec fn intent_of_name(s: Seq<char>) -> Intent {
    if s == "kg"@ {
        Intent::KnowledgeGraph
    } else if s == "memory"@ {
        Intent::Memory
    } else {
        Intent::Both
    }
}

impl Intent {
    /// The short name of the intent.
    pub fn as_str(&self) -> (r: &'static str)
        ensures
            r@ == intent_name(*self),
    {
        match self {
            Intent::KnowledgeGraph => "kg",
            Intent::Memory => "memory",
            Intent::Both => "both",
        }
    }

    /// The intent named by a classifier's answer.
    pub fn from_name(s: &str) -> (r: Intent)
        ensures
            r == intent_of_name(s@),
    {
        if str_eq(s, "kg") {
            Intent::KnowledgeGraph
        } else if str_eq(s, "memory") {
            Intent::Memory
        } else {
            Intent::Both
        }
    }
}

/// Naming an intent and reading the name back gives the same intent.
pub proof fn law_intent_name_roundtrip(i: Intent)
    ensures
        intent_of_name(intent_name(i)) == i,
{
    reveal_strlit("kg");
    reveal_strlit("memory");
    reveal_strlit("both");
    assert("kg"@ != "memory"@) by {
        assert("kg"@.len() != "memory"@.len());
    }
    assert("both"@ != "memory"@) by {
        assert("both"@.len() != "memory"@.len());
    }
    assert("both"@ != "kg"@) by {
        assert("both"@.len() != "kg"@.len());
    }
}

/// Phrases that point at the knowledge graph.
pub open spec fn kg_phrases() -> Seq<Seq<char>> {
    seq![
        "what is"@,
        "who is"@,
        "where is"@,
        "when is"@,
        "tell me about"@,
        "what are"@,
        "define"@,
        "lookup"@,
        "kg:"@,
    ]
}

/// Phrases that point at conversation memory.
pub open spec fn memory_phrases() -> Seq<Seq<char>> {
    seq![
        "remember"@,
        "recall"@,
        "what did"@,
        "when did"@,
        "last time"@,
        "previously"@,
        "we discussed"@,
        "memory:"@,
    ]
}

/// Some phrase of `phrases` occurs in `s`.
pub open spec fn mentions_any(s: Seq<char>, phrases: Seq<Seq<char>>) -> bool {
    exists|i: int| 0 <= i < phrases.len() && contains(s, #[trigger] phrases[i])
}

/// The rule-based intent of a query: knowledge graph when only a
/// knowledge-graph phrase occurs in the lower-cased query, memory when only
/// a memory phrase does, both otherwise.
pub open spec fn rule_intent(query: Seq<char>) -> Intent {
    let lower = unicode_lowercase(query);
    let kg = mentions_any(lower, kg_phrases());
    let mem = mentions_any(lower, memory_phrases());
    if kg && !mem {
        Intent::KnowledgeGraph
    } else if !kg && mem {
        Intent::Memory
    } else {
        Intent::Both
    }
}

fn phrase_vec(p: &str) -> (v: Vec<char>)
    ensures
        v@ == p@,
{
    chars_of(p)
}

fn kg_phrase_list() -> (r: Vec<Vec<char>>)
    ensures
        r.len() == kg_phrases().len(),
        forall|i: int| 0 <= i < r.len() ==> (#[trigger] r[i])@ == kg_phrases()[i],
{
    let mut r = Vec::new();
    r.push(phrase_vec("what is"));
    r.push(phrase_vec("who is"));
    r.push(phrase_vec("where is"));
    r.push(phrase_vec("when is"));
    r.push(phrase_vec("tell me about"));
    r.push(phrase_vec("what are"));
    r.push(phrase_vec("define"));
    r.push(phrase_vec("lookup"));
    r.push(phrase_vec("kg:"));
    r
}

fn memory_phrase_list() -> (r: Vec<Vec<char>>)
    ensures
        r.len() == memory_phrases().len(),
        forall|i: int| 0 <= i < r.len() ==> (#[trigger] r[i])@ == memory_phrases()[i],
{
    let mut r = Vec::new();
    r.push(phrase_vec("remember"));
    r.push(phrase_vec("recall"));
    r.push(phrase_vec("what did"));
    r.push(phrase_vec("when did"));
    r.push(phrase_vec("last time"));
    r.push(phrase_vec("previously"));
    r.push(phrase_vec("we discussed"));
    r.push(phrase_vec("memory:"));
    r
}

fn mentions_any_exec(s: &Vec<char>, phrases: &Vec<Vec<char>>, Ghost(ps): Ghost<Seq<Seq<char>>>) -> (r: bool)
    requires
        phrases.len() == ps.len(),
        forall|i: int| 0 <= i < phrases.len() ==> (#[trigger] phrases[i])@ == ps[i],
    ensures
        r == mentions_any(s@, ps),
{
    let n = phrases.len();
    for i in 0..n
        invariant
            n == phrases.len(),
            phrases.len() == ps.len(),
            forall|j: int| 0 <= j < phrases.len() ==> (#[trigger] phrases[j])@ == ps[j],
            forall|j: int| 0 <= j < i ==> !contains(s@, #[trigger] ps[j]),
    {
        if contains_exec(s, &phrases[i]) {
            assert(contains(s@, ps[i as int]));
            return true;
        }
    }
    false
}

/// Classifies a query by the phrases it contains (see `rule_intent`); an
/// ASCII query is lower-cased in ASCII.
pub fn rule_classify(query: &str) -> (r: Intent)
    ensures
        r == rule_intent(query@),
        all_ascii(query@) ==> unicode_lowercase(query@) == query@.map_values(
            |c: char| ascii_lowercase_char(c),
        ),
{
    let lower = to_lowercase(query);
    let lv = chars_of(lower.as_str());
    let kg = mentions_any_exec(&lv, &kg_phrase_list(), Ghost(kg_phrases()));
    let mem = mentions_any_exec(&lv, &memory_phrase_list(), Ghost(memory_phrases()));
    if kg && !mem {
        Intent::KnowledgeGraph
    } else if !kg && mem {
        Intent::Memory
    } else {
        Intent::Both
    }
}

/// The intent to use once the language model has been asked: its
/// normalised answer when it gave one, else the rule-based intent (no model
/// configured, or the request failed).
pub fn classify_with(query: &str, model_answer: Option<String>) -> (r: Intent)
    ensures
        r == (match model_answer {
            Some(a) => intent_of_name(a@),
            None => rule_intent(query@),
        }),
{
    match model_answer {
        Some(a) => Intent::from_name(a.as_str()),
        None => rule_classify(query),
    }
}

/// The classifier's answer normalised to `kg`, `memory` or `both`: lower-cased,
/// then anything other than `kg` or `memory` read as `both`.
pub fn normalize_intent(answer: &str) -> (r: String)
    ensures
        r@ == intent_name(intent_of_name(unicode_lowercase(answer@))),
{
    let lower = to_lowercase(answer);
    let i = Intent::from_name(lower.as_str());
    owned(i.as_str())
}

} // verus!
