//! The assistant's character: fixed core traits and the facts it has learned.

use vstd::prelude::*;
use crate::kg::{key_name, YamlValue};
use crate::text::{chars_of, join, join_exec, owned, str_eq, string_views, views};

verus! {

broadcast use vstd::string::group_string_axioms;

/// The traits of a character that never change.
#[derive(Debug)]
pub struct CharacterCore {
    pub name: String,
    pub personality: Vec<String>,
    pub constraints: Vec<String>,
}

/// What a character has learned, and the topic at hand.
#[derive(Debug)]
pub struct CharacterMemory {
    pub learned: Vec<String>,
    pub current_topic: Option<String>,
}

/// A character: its core, its memory, and the name it is stored under.
#[derive(Debug)]
pub struct Character {
    pub core: CharacterCore,
    pub memory: CharacterMemory,
    pub name: String,
}

fn words2(a: &str, b: &str) -> (r: Vec<String>)
    ensures
        string_views(r@) == seq![a@, b@],
{
    let mut r: Vec<String> = Vec::new();
    r.push(owned(a));
    r.push(owned(b));
    assert(string_views(r@) =~= seq![a@, b@]);
    r
}

fn words3(a: &str, b: &str, c: &str) -> (r: Vec<String>)
    ensures
        string_views(r@) == seq![a@, b@, c@],
{
    let mut r = words2(a, b);
    let ghost before = string_views(r@);
    r.push(owned(c));
    assert(string_views(r@) =~= before.push(c@));
    assert(before.push(c@) =~= seq![a@, b@, c@]);
    r
}

impl CharacterCore {
    /// A core with the given name and no traits.
    pub fn named(name: &str) -> (c: CharacterCore)
        ensures
            c.name@ == name@,
            c.personality.len() == 0,
            c.constraints.len() == 0,
    {
        CharacterCore { name: owned(name), personality: Vec::new(), constraints: Vec::new() }
    }

    /// The core of the default character, `GUAC`.
    pub fn guac() -> (c: CharacterCore)
        ensures
            c.name@ == "GUAC"@,
            string_views(c.personality@) == seq!["curious"@, "analytical"@, "helpful"@],
            string_views(c.constraints@) == seq![
                "cannot alter core values"@,
                "must ground responses in memory and knowledge graph"@,
            ],
    {
        CharacterCore {
            name: owned("GUAC"),
            personality: words3("curious", "analytical", "helpful"),
            constraints: words2(
                "cannot alter core values",
                "must ground responses in memory and knowledge graph",
            ),
        }
    }
}

impl CharacterMemory {
    /// Nothing learned, no topic.
    pub fn empty() -> (m: CharacterMemory)
        ensures
            m.learned.len() == 0,
            m.current_topic is None,
    {
        CharacterMemory { learned: Vec::new(), current_topic: None }
    }
}

// ---------------------------------------------------------------------------
// The system prompt
// ---------------------------------------------------------------------------

pub open spec fn closing_sentence() -> Seq<char> {
    "You have access to a knowledge graph and conversation memory. Respond helpfully and update memory when facts change."@
}

/// The lines of the system prompt: who the character is, its personality,
/// constraints and learned facts when it has any, its current topic when set,
/// and a closing instruction.
pub open spec fn prompt_lines(c: Character) -> Seq<Seq<char>> {
    let l0 = seq!["You are "@ + c.core.name@ + "."@];
    let l1 = if c.core.personality.len() > 0 {
        l0.push("Personality: "@ + join(string_views(c.core.personality@), ", "@))
    } else {
        l0
    };
    let l2 = if c.core.constraints.len() > 0 {
        l1.push("Constraints: "@ + join(string_views(c.core.constraints@), "; "@))
    } else {
        l1
    };
    let l3 = if c.memory.learned.len() > 0 {
        l2.push("Learned facts: "@ + join(string_views(c.memory.learned@), "; "@))
    } else {
        l2
    };
    let l4 = match c.memory.current_topic {
        Some(t) => l3.push("Current topic: "@ + t@),
        None => l3,
    };
    l4.push(closing_sentence())
}

/// The strings' characters, one vector each.
pub fn char_vecs(v: &Vec<String>) -> (r: Vec<Vec<char>>)
    ensures
        views(r@) == string_views(v@),
{
    let mut r: Vec<Vec<char>> = Vec::new();
    let n = v.len();
    for i in 0..n
        invariant
            n == v.len(),
            views(r@) == string_views(v@).take(i as int),
    {
        let c = chars_of(v[i].as_str());
        let ghost before = views(r@);
        r.push(c);
        assert(views(r@) =~= before.push(v@[i as int]@));
        assert(string_views(v@).take(i + 1) =~= string_views(v@).take(i as int).push(v@[i as int]@));
    }
    assert(string_views(v@).take(n as int) =~= string_views(v@));
    r
}

/// `label` followed by the items joined with `sep`.
pub fn labelled_join(label: &str, items: &Vec<String>, sep: &str) -> (r: Vec<char>)
    ensures
        r@ == label@ + join(string_views(items@), sep@),
{
    let parts = char_vecs(items);
    let sv = chars_of(sep);
    let joined = join_exec(&parts, &sv);
    let mut r = chars_of(label);
    let ghost l = r@;
    let n = joined.len();
    for i in 0..n
        invariant
            n == joined.len(),
            r@ == l + joined@.take(i as int),
    {
        r.push(joined[i]);
        assert(joined@.take(i + 1) =~= joined@.take(i as int).push(joined@[i as int]));
    }
    assert(joined@.take(n as int) =~= joined@);
    r
}

/// `a + b + c` as characters.
fn cat3(a: &str, b: &str, c: &str) -> (r: Vec<char>)
    ensures
        r@ == a@ + b@ + c@,
{
    let s = crate::text::concat3(a, b, c);
    chars_of(s.as_str())
}

impl Character {
    /// The character stored under `name`, from its core and memory files
    /// when they exist (`None` when a file is missing): a missing core gives
    /// a core with that name and no traits, a missing memory an empty one.
    pub fn assemble(name: &str, core: Option<CharacterCore>, memory: Option<CharacterMemory>) -> (c:
        Character)
        ensures
            c.name@ == name@,
            match core {
                Some(k) => c.core == k,
                None => c.core.name@ == name@ && c.core.personality.len() == 0
                    && c.core.constraints.len() == 0,
            },
            match memory {
                Some(m) => c.memory == m,
                None => c.memory.learned.len() == 0 && c.memory.current_topic is None,
            },
    {
        let core = match core {
            Some(k) => k,
            None => CharacterCore::named(name),
        };
        let memory = match memory {
            Some(m) => m,
            None => CharacterMemory::empty(),
        };
        Character { core, memory, name: owned(name) }
    }

    /// The system prompt: the lines of `prompt_lines` joined by newlines.
    pub fn system_prompt(&self) -> (r: String)
        ensures
            r@ == join(prompt_lines(*self), "\n"@),
    {
        let mut lines: Vec<Vec<char>> = Vec::new();
        lines.push(cat3("You are ", self.core.name.as_str(), "."));
        if self.core.personality.len() > 0 {
            lines.push(labelled_join("Personality: ", &self.core.personality, ", "));
        }
        if self.core.constraints.len() > 0 {
            lines.push(labelled_join("Constraints: ", &self.core.constraints, "; "));
        }
        if self.memory.learned.len() > 0 {
            lines.push(labelled_join("Learned facts: ", &self.memory.learned, "; "));
        }
        match &self.memory.current_topic {
            Some(t) => {
                let s = crate::text::concat2("Current topic: ", t.as_str());
                lines.push(chars_of(s.as_str()));
            },
            None => {},
        }
        lines.push(
            chars_of(
                "You have access to a knowledge graph and conversation memory. Respond helpfully and update memory when facts change.",
            ),
        );
        assert(views(lines@) =~= prompt_lines(*self));
        let nl = chars_of("\n");
        let joined = join_exec(&lines, &nl);
        crate::text::string_of(&joined)
    }
}

// ---------------------------------------------------------------------------
// Learning
// ---------------------------------------------------------------------------

/// `learned` with `fact` added at the end unless it is already there.
pub open spec fn learn(learned: Seq<Seq<char>>, fact: Seq<char>) -> Seq<Seq<char>> {
    if learned.contains(fact) {
        learned
    } else {
        learned.push(fact)
    }
}

/// `learned` after learning each fact in turn.
pub open spec fn learn_all(learned: Seq<Seq<char>>, facts: Seq<Seq<char>>) -> Seq<Seq<char>>
    decreases facts.len(),
{
    if facts.len() == 0 {
        learned
    } else {
        learn_all(learn(learned, facts[0]), facts.drop_first())
    }
}

/// The string updates among YAML values (looking through tags), in order.
pub open spec fn string_updates(us: Seq<crate::kg::Yaml>) -> Seq<Seq<char>>
    decreases us.len(),
{
    if us.len() == 0 {
        Seq::empty()
    } else {
        let rest = string_updates(us.drop_first());
        match key_name(us[0]) {
            Some(s) => seq![s] + rest,
            None => rest,
        }
    }
}

pub open spec fn yaml_views(us: Seq<YamlValue>) -> Seq<crate::kg::Yaml> {
    us.map_values(|u: YamlValue| u@)
}

/// Whether `v` holds the characters of `fact`.
fn contains_string(v: &Vec<String>, fact: &str) -> (r: bool)
    ensures
        r == string_views(v@).contains(fact@),
{
    let n = v.len();
    for i in 0..n
        invariant
            n == v.len(),
            forall|j: int| 0 <= j < i ==> string_views(v@)[j] != fact@,
    {
        if str_eq(v[i].as_str(), fact) {
            assert(string_views(v@)[i as int] == fact@);
            return true;
        }
    }
    false
}

/// Learns one fact; reports whether it was new.
pub fn learn_fact(learned: &mut Vec<String>, fact: &str) -> (added: bool)
    ensures
        string_views(final(learned)@) == learn(string_views(old(learned)@), fact@),
        added == !string_views(old(learned)@).contains(fact@),
{
    if contains_string(learned, fact) {
        false
    } else {
        let ghost before = string_views(learned@);
        learned.push(owned(fact));
        assert(string_views(learned@) =~= before.push(fact@));
        true
    }
}

/// Adds every string among `updates` that the character has not learned yet.
pub fn apply_memory_updates(character: &mut Character, updates: &[YamlValue])
    ensures
        string_views(final(character).memory.learned@) == learn_all(
            string_views(old(character).memory.learned@),
            string_updates(yaml_views(updates@)),
        ),
        final(character).memory.current_topic == old(character).memory.current_topic,
        final(character).core == old(character).core,
        final(character).name == old(character).name,
{
    let n = updates.len();
    let ghost us = yaml_views(updates@);
    let ghost start = string_views(character.memory.learned@);
    assert(us.skip(0) =~= us);
    for i in 0..n
        invariant
            n == updates.len(),
            us == yaml_views(updates@),
            learn_all(start, string_updates(us)) == learn_all(
                string_views(character.memory.learned@),
                string_updates(us.skip(i as int)),
            ),
            character.memory.current_topic == old(character).memory.current_topic,
            character.core == old(character).core,
            character.name == old(character).name,
    {
        assert(us.skip(i as int).drop_first() =~= us.skip(i + 1));
        assert(us.skip(i as int)[0] == updates@[i as int]@);
        let ghost rest = string_updates(us.skip(i + 1));
        match updates[i].as_str() {
            Some(s) => {
                let ghost l = string_views(character.memory.learned@);
                let _ = learn_fact(&mut character.memory.learned, s.as_str());
                proof {
                    let f = seq![s@] + rest;
                    assert(string_updates(us.skip(i as int)) == f);
                    assert(f[0] == s@);
                    assert(f.drop_first() =~= rest);
                    assert(learn_all(l, f) == learn_all(learn(l, s@), rest));
                }
            },
            None => {
                assert(string_updates(us.skip(i as int)) == rest);
            },
        }
    }
    assert(us.skip(n as int) =~= Seq::<crate::kg::Yaml>::empty());
}

/// Learning the same facts a second time changes nothing.
pub proof fn law_learn_all_idempotent(learned: Seq<Seq<char>>, facts: Seq<Seq<char>>)
    ensures
        learn_all(learn_all(learned, facts), facts) == learn_all(learned, facts),
{
    lemma_learn_all_contains(learned, facts);
    lemma_learn_all_noop(learn_all(learned, facts), facts);
}

/// Everything learned stays learned, and every fact ends up learned.
pub proof fn lemma_learn_all_contains(learned: Seq<Seq<char>>, facts: Seq<Seq<char>>)
    ensures
        forall|x: Seq<char>| learned.contains(x) ==> learn_all(learned, facts).contains(x),
        forall|i: int| 0 <= i < facts.len() ==> learn_all(learned, facts).contains(#[trigger] facts[i]),
    decreases facts.len(),
{
    if facts.len() > 0 {
        let l1 = learn(learned, facts[0]);
        lemma_learn_all_contains(l1, facts.drop_first());
        assert forall|x: Seq<char>| learned.contains(x) implies l1.contains(x) by {
            if !learned.contains(facts[0]) {
                let k = choose|k: int| 0 <= k < learned.len() && learned[k] == x;
                assert(l1[k] == x);
            }
        }
        assert(l1.contains(facts[0])) by {
            if !learned.contains(facts[0]) {
                assert(l1[learned.len() as int] == facts[0]);
            }
        }
        assert forall|i: int| 0 <= i < facts.len() implies learn_all(learned, facts).contains(
            #[trigger] facts[i],
        ) by {
            if i > 0 {
                assert(facts.drop_first()[i - 1] == facts[i]);
            }
        }
    }
}

/// Learning facts that are all known already changes nothing.
pub proof fn lemma_learn_all_noop(learned: Seq<Seq<char>>, facts: Seq<Seq<char>>)
    requires
        forall|i: int| 0 <= i < facts.len() ==> learned.contains(#[trigger] facts[i]),
    ensures
        learn_all(learned, facts) == learned,
    decreases facts.len(),
{
    if facts.len() > 0 {
        assert(learned.contains(facts[0]));
        assert forall|i: int| 0 <= i < facts.drop_first().len() implies learned.contains(
            #[trigger] facts.drop_first()[i],
        ) by {
            assert(facts.drop_first()[i] == facts[i + 1]);
        }
        lemma_learn_all_noop(learned, facts.drop_first());
    }
}

/// Learning keeps a list of facts free of repeats.
pub proof fn law_learn_all_no_duplicates(learned: Seq<Seq<char>>, facts: Seq<Seq<char>>)
    requires
        learned.no_duplicates(),
    ensures
        learn_all(learned, facts).no_duplicates(),
    decreases facts.len(),
{
    if facts.len() > 0 {
        let l1 = learn(learned, facts[0]);
        assert(l1.no_duplicates()) by {
            if !learned.contains(facts[0]) {
                assert forall|i: int, j: int| 0 <= i < l1.len() && 0 <= j < l1.len() && i != j implies l1[i]
                    != l1[j] by {
                    if i == learned.len() {
                        assert(l1[j] == learned[j]);
                    } else if j == learned.len() {
                        assert(l1[i] == learned[i]);
                    }
                }
            }
        }
        law_learn_all_no_duplicates(l1, facts.drop_first());
    }
}

} // verus!
