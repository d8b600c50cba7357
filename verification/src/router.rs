//! Choosing the context a query needs: which knowledge-graph facts it
//! mentions, and which parts of the conversation to include.

use vstd::prelude::*;
use crate::classifier::Intent;
use crate::kg::{get_path, key_name, path_segments, untag, Yaml, YamlValue, KnowledgeGraph};
use crate::memory::{copy_messages, Conversation, Message};
use crate::text::{
    chars_of, contains, contains_exec, string_of, string_views, to_lowercase, unicode_lowercase,
};

verus! {

broadcast use vstd::string::group_string_axioms;

/// The context gathered for a query.
#[derive(Debug)]
pub struct ContextQuery {
    pub kg_facts: Vec<String>,
    pub recent_messages: Vec<Message>,
    pub top_memories: Vec<Message>,
}

/// The context for a query with the given intent: the facts when the
/// knowledge graph is consulted, the last `max_context` messages and the
/// chosen memories when the conversation is.
pub fn gather_context(
    intent: Intent,
    kg_facts: Vec<String>,
    conv: &Conversation,
    max_context: usize,
    top_memories: Vec<Message>,
) -> (c: ContextQuery)
    ensures
        c.kg_facts@ == (if intent == Intent::Memory {
            Seq::empty()
        } else {
            kg_facts@
        }),
        c.recent_messages@ == (if intent == Intent::KnowledgeGraph {
            Seq::empty()
        } else {
            conv.messages@.skip(
                if conv.messages.len() > max_context {
                    conv.messages.len() - max_context
                } else {
                    0
                },
            )
        }),
        c.top_memories@ == (if intent == Intent::KnowledgeGraph {
            Seq::empty()
        } else {
            top_memories@
        }),
{
    let facts = match intent {
        Intent::KnowledgeGraph | Intent::Both => kg_facts,
        Intent::Memory => Vec::new(),
    };
    let recent = match intent {
        Intent::Memory | Intent::Both => copy_messages(conv.recent(max_context)),
        Intent::KnowledgeGraph => Vec::new(),
    };
    let top = match intent {
        Intent::Memory | Intent::Both => top_memories,
        Intent::KnowledgeGraph => Vec::new(),
    };
    ContextQuery { kg_facts: facts, recent_messages: recent, top_memories: top }
}

/// `s` with every `.` turned into a space.
pub open spec fn dots_to_spaces(s: Seq<char>) -> Seq<char> {
    s.map_values(|c: char| if c == '.' { ' ' } else { c })
}

/// `s` without its dots.
pub open spec fn without_dots(s: Seq<char>) -> Seq<char> {
    s.filter(|c: char| c != '.')
}

/// The lower-cased query mentions the path: spelt with spaces, run
/// together, or as it is (each lower-cased).
pub open spec fn mentioned(lower: Seq<char>, path: Seq<char>) -> bool {
    contains(lower, unicode_lowercase(dots_to_spaces(path))) || contains(
        lower,
        unicode_lowercase(without_dots(path)),
    ) || contains(lower, unicode_lowercase(path))
}

/// The facts for the mentioned paths that lead somewhere, in order.
pub open spec fn path_facts(data: Yaml, lower: Seq<char>, paths: Seq<Seq<char>>) -> Seq<
    (Seq<char>, Yaml),
>
    decreases paths.len(),
{
    if paths.len() == 0 {
        Seq::empty()
    } else {
        let rest = path_facts(data, lower, paths.drop_last());
        let p = paths.last();
        if mentioned(lower, p) && get_path(data, path_segments(p)) is Some {
            rest.push((p, get_path(data, path_segments(p))->Some_0))
        } else {
            rest
        }
    }
}

/// The entries with string keys among `m`, as facts.
pub open spec fn entry_facts(m: Seq<(Yaml, Yaml)>) -> Seq<(Seq<char>, Yaml)>
    decreases m.len(),
{
    if m.len() == 0 {
        Seq::empty()
    } else {
        let rest = entry_facts(m.drop_last());
        match key_name(m.last().0) {
            Some(k) => rest.push((k, m.last().1)),
            None => rest,
        }
    }
}

/// The facts shown when no path is mentioned: the string-keyed entries
/// among the first five of a top-level mapping.
pub open spec fn fallback_facts(data: Yaml) -> Seq<(Seq<char>, Yaml)> {
    match untag(data) {
        Yaml::Dict(m) => entry_facts(m.take(if m.len() < 5 { m.len() as int } else { 5 })),
        _ => Seq::empty(),
    }
}

/// The facts of the knowledge graph that a query mentions, or the fallback
/// facts when it mentions none.
pub open spec fn selected_facts(data: Yaml, paths: Seq<Seq<char>>, query: Seq<char>) -> Seq<
    (Seq<char>, Yaml),
> {
    let found = path_facts(data, unicode_lowercase(query), paths);
    if found.len() > 0 {
        found
    } else {
        fallback_facts(data)
    }
}

proof fn lemma_path_facts_contain(data: Yaml, lower: Seq<char>, paths: Seq<Seq<char>>, i: int)
    requires
        0 <= i < paths.len(),
        mentioned(lower, paths[i]),
        get_path(data, path_segments(paths[i])) is Some,
    ensures
        path_facts(data, lower, paths).contains(
            (paths[i], get_path(data, path_segments(paths[i]))->Some_0),
        ),
    decreases paths.len(),
{
    let fact = (paths[i], get_path(data, path_segments(paths[i]))->Some_0);
    let all = path_facts(data, lower, paths);
    if i < paths.len() - 1 {
        let front = paths.drop_last();
        assert(front[i] == paths[i]);
        lemma_path_facts_contain(data, lower, front, i);
        let prior = path_facts(data, lower, front);
        let k = choose|k: int| 0 <= k < prior.len() && prior[k] == fact;
        assert(all[k] == fact);
    } else {
        assert(paths.last() == paths[i]);
        assert(all[all.len() - 1] == fact);
    }
}

/// A path the query mentions is selected with its value: when the
/// lower-cased query contains the lower-cased path (as it is, with its dots
/// as spaces, or without its dots) and the path reads a value, the selected
/// facts hold that path with that value (so the fallback facts are not used).
pub proof fn law_mentioned_paths_are_selected(
    data: Yaml,
    paths: Seq<Seq<char>>,
    query: Seq<char>,
    i: int,
)
    requires
        0 <= i < paths.len(),
        contains(unicode_lowercase(query), unicode_lowercase(paths[i])) || contains(
            unicode_lowercase(query),
            unicode_lowercase(paths[i].map_values(|c: char| if c == '.' { ' ' } else { c })),
        ) || contains(
            unicode_lowercase(query),
            unicode_lowercase(paths[i].filter(|c: char| c != '.')),
        ),
        get_path(data, path_segments(paths[i])) is Some,
    ensures
        selected_facts(data, paths, query).contains(
            (paths[i], get_path(data, path_segments(paths[i]))->Some_0),
        ),
        selected_facts(data, paths, query) == path_facts(data, unicode_lowercase(query), paths),
{
    let lower = unicode_lowercase(query);
    assert(paths[i].map_values(|c: char| if c == '.' { ' ' } else { c }) == dots_to_spaces(paths[i]));
    assert(paths[i].filter(|c: char| c != '.') == without_dots(paths[i]));
    lemma_path_facts_contain(data, lower, paths, i);
}

pub open spec fn fact_views(fs: Seq<(String, &YamlValue)>) -> Seq<(Seq<char>, Yaml)> {
    fs.map_values(|f: (String, &YamlValue)| (f.0@, f.1@))
}

fn lowered(v: &Vec<char>) -> (r: Vec<char>)
    ensures
        r@ == unicode_lowercase(v@),
{
    let s = string_of(v);
    let l = to_lowercase(s.as_str());
    chars_of(l.as_str())
}

fn mentioned_exec(lower: &Vec<char>, path: &Vec<char>) -> (r: bool)
    ensures
        r == mentioned(lower@, path@),
{
    let mut spaced: Vec<char> = Vec::new();
    let mut joined: Vec<char> = Vec::new();
    let n = path.len();
    for i in 0..n
        invariant
            n == path.len(),
            spaced@ == dots_to_spaces(path@.take(i as int)),
            joined@ == without_dots(path@.take(i as int)),
    {
        let c = path[i];
        proof {
            assert(path@.take(i + 1) =~= path@.take(i as int).push(c));
            assert(without_dots(path@.take(i + 1)) =~= if c != '.' {
                without_dots(path@.take(i as int)).push(c)
            } else {
                without_dots(path@.take(i as int))
            }) by {
                reveal_with_fuel(Seq::filter, 1);
                assert(path@.take(i + 1).drop_last() =~= path@.take(i as int));
            }
        }
        spaced.push(if c == '.' { ' ' } else { c });
        if c != '.' {
            joined.push(c);
        }
        assert(spaced@ =~= dots_to_spaces(path@.take(i + 1)));
    }
    assert(path@.take(n as int) =~= path@);
    if contains_exec(lower, &lowered(&spaced)) {
        return true;
    }
    if contains_exec(lower, &lowered(&joined)) {
        return true;
    }
    contains_exec(lower, &lowered(path))
}

impl YamlValue {
    /// The value with any tags removed from the outside.
    pub fn untag_ref(&self) -> (r: &YamlValue)
        ensures
            r@ == untag(self@),
        decreases self,
    {
        match self {
            YamlValue::Tagged(_, inner) => inner.untag_ref(),
            _ => self,
        }
    }
}

/// The facts of the knowledge graph that `query` mentions (see
/// `selected_facts`), each as its path or key and its value.
pub fn select_kg_facts<'a>(kg: &'a KnowledgeGraph, query: &str) -> (r: Vec<(String, &'a YamlValue)>)
    ensures
        fact_views(r@) == selected_facts(kg.data_spec(), kg.paths_spec(), query@),
{
    let lq = to_lowercase(query);
    let lower = chars_of(lq.as_str());
    let paths = kg.paths();
    let mut found: Vec<(String, &'a YamlValue)> = Vec::new();
    let ghost ps = string_views(paths@);
    let n = paths.len();
    for i in 0..n
        invariant
            n == paths.len(),
            ps == string_views(paths@),
            lower@ == unicode_lowercase(query@),
            fact_views(found@) == path_facts(kg.data_spec(), lower@, ps.take(i as int)),
    {
        let pv = chars_of(paths[i].as_str());
        assert(ps.take(i + 1).drop_last() =~= ps.take(i as int));
        assert(ps.take(i + 1).last() == pv@);
        if mentioned_exec(&lower, &pv) {
            match kg.get(paths[i].as_str()) {
                Some(v) => {
                    let ghost before = fact_views(found@);
                    found.push((paths[i].clone(), v));
                    assert(fact_views(found@) =~= before.push((pv@, v@)));
                },
                None => {},
            }
        }
    }
    assert(ps.take(n as int) =~= ps);
    if found.len() > 0 {
        return found;
    }
    let mut out: Vec<(String, &'a YamlValue)> = Vec::new();
    assert(fact_views(out@) =~= Seq::<(Seq<char>, Yaml)>::empty());
    match kg.data().untag_ref() {
        YamlValue::Mapping(m) => {
            proof {
                crate::kg::lemma_deep_entries(m@);
            }
            let ghost e = crate::kg::deep_entries(m@);
            let lim = if m.len() < 5 {
                m.len()
            } else {
                5
            };
            for i in 0..lim
                invariant
                    lim <= m.len(),
                    e == crate::kg::deep_entries(m@),
                    e.len() == m.len(),
                    forall|k: int| 0 <= k < m.len() ==> #[trigger] e[k] == (m@[k].0@, m@[k].1@),
                    fact_views(out@) == entry_facts(e.take(i as int)),
            {
                assert(e.take(i + 1).drop_last() =~= e.take(i as int));
                assert(e.take(i + 1).last() == e[i as int]);
                match m[i].0.as_str() {
                    Some(k) => {
                        let ghost before = fact_views(out@);
                        out.push((k.clone(), &m[i].1));
                        assert(fact_views(out@) =~= before.push((k@, m@[i as int].1@)));
                    },
                    None => {},
                }
            }
            assert(e.take(lim as int) =~= e.take(if e.len() < 5 { e.len() as int } else { 5 }));
        },
        _ => {},
    }
    out
}

} // verus!
