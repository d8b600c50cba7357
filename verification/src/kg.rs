//! The knowledge graph: a YAML document addressed by dot-paths.

use vstd::prelude::*;
use crate::parse::{parse_yaml, render_yaml, yaml_parse, yaml_text_of};
use crate::text::{
    chars_eq, chars_of, decimal, decimal_exec, lemma_decimal_parses, lemma_split_concat, lemma_split_no_sep,
    lemma_split_len, parse_usize, parse_usize_spec, split, split_exec, string_of, string_views,
    views,
};

verus! {

/// A YAML value as the knowledge graph stores it. Numbers are kept as the
/// text YAML prints for them.
#[derive(Debug)]
pub enum YamlValue {
    Null,
    Bool(bool),
    Number(String),
    String(String),
    Sequence(Vec<YamlValue>),
    Mapping(Vec<(YamlValue, YamlValue)>),
    Tagged(String, Box<YamlValue>),
}

/// The mathematical value of a `YamlValue`.
pub enum Yaml {
    Null,
    Bool(bool),
    Number(Seq<char>),
    Str(Seq<char>),
    List(Seq<Yaml>),
    Dict(Seq<(Yaml, Yaml)>),
    Tagged(Seq<char>, Box<Yaml>),
}

pub open spec fn deep(v: YamlValue) -> Yaml
    decreases v,
{
    match v {
        YamlValue::Null => Yaml::Null,
        YamlValue::Bool(b) => Yaml::Bool(b),
        YamlValue::Number(n) => Yaml::Number(n@),
        YamlValue::String(s) => Yaml::Str(s@),
        YamlValue::Sequence(items) => Yaml::List(deep_items(items@)),
        YamlValue::Mapping(entries) => Yaml::Dict(deep_entries(entries@)),
        YamlValue::Tagged(t, b) => Yaml::Tagged(t@, Box::new(deep(*b))),
    }
}

pub open spec fn deep_items(s: Seq<YamlValue>) -> Seq<Yaml>
    decreases s,
{
    if s.len() == 0 {
        Seq::empty()
    } else {
        deep_items(s.drop_last()).push(deep(s.last()))
    }
}

pub open spec fn deep_entries(s: Seq<(YamlValue, YamlValue)>) -> Seq<(Yaml, Yaml)>
    decreases s,
{
    if s.len() == 0 {
        Seq::empty()
    } else {
        deep_entries(s.drop_last()).push((deep(s.last().0), deep(s.last().1)))
    }
}


pub proof fn lemma_deep_items(s: Seq<YamlValue>)
    ensures
        deep_items(s).len() == s.len(),
        forall|i: int| 0 <= i < s.len() ==> #[trigger] deep_items(s)[i] == deep(s[i]),
    decreases s.len(),
{
    if s.len() > 0 {
        lemma_deep_items(s.drop_last());
        assert forall|i: int| 0 <= i < s.len() implies #[trigger] deep_items(s)[i] == deep(s[i]) by {
            if i < s.len() - 1 {
                assert(s.drop_last()[i] == s[i]);
            }
        }
    }
}

pub proof fn lemma_deep_entries(s: Seq<(YamlValue, YamlValue)>)
    ensures
        deep_entries(s).len() == s.len(),
        forall|i: int|
            0 <= i < s.len() ==> #[trigger] deep_entries(s)[i] == (deep(s[i].0), deep(s[i].1)),
    decreases s.len(),
{
    if s.len() > 0 {
        lemma_deep_entries(s.drop_last());
        assert forall|i: int| 0 <= i < s.len() implies #[trigger] deep_entries(s)[i] == (
            deep(s[i].0),
            deep(s[i].1),
        ) by {
            if i < s.len() - 1 {
                assert(s.drop_last()[i] == s[i]);
            }
        }
    }
}

impl View for YamlValue {
    type V = Yaml;

    open spec fn view(&self) -> Yaml {
        deep(*self)
    }
}

// ---------------------------------------------------------------------------
// Mathematical operations on YAML values
// ---------------------------------------------------------------------------

/// The value with any tags removed from the outside (`Value::untag_ref`).
pub open spec fn untag(y: Yaml) -> Yaml
    decreases y,
{
    match y {
        Yaml::Tagged(_, inner) => untag(*inner),
        _ => y,
    }
}

/// The first index at or after `i` whose key is the string `s`.
pub open spec fn find_key_from(m: Seq<(Yaml, Yaml)>, s: Seq<char>, i: int) -> Option<int>
    decreases m.len() - i,
{
    if i < 0 || i >= m.len() {
        None
    } else if m[i].0 == Yaml::Str(s) {
        Some(i)
    } else {
        find_key_from(m, s, i + 1)
    }
}

/// The index of the entry whose key is the string `s`, if any (the first such).
pub open spec fn find_key(m: Seq<(Yaml, Yaml)>, s: Seq<char>) -> Option<int> {
    find_key_from(m, s, 0)
}

/// The value stored under the string key `s` (`Mapping::get` with a `&str`).
pub open spec fn lookup(m: Seq<(Yaml, Yaml)>, s: Seq<char>) -> Option<Yaml> {
    match find_key(m, s) {
        Some(i) => Some(m[i].1),
        None => None,
    }
}

/// The entries with `val` stored under the string key `s`
/// (`Mapping::insert`): an existing entry keeps its place and key, a new one
/// goes last.
pub open spec fn insert(m: Seq<(Yaml, Yaml)>, s: Seq<char>, val: Yaml) -> Seq<(Yaml, Yaml)> {
    match find_key(m, s) {
        Some(i) => m.update(i, (m[i].0, val)),
        None => m.push((Yaml::Str(s), val)),
    }
}

/// The value at the dot-path `segs` below `v` (`KnowledgeGraph::get`):
/// mappings are entered by string key, sequences by decimal index, and any
/// other value ends the walk with nothing.
pub open spec fn get_path(v: Yaml, segs: Seq<Seq<char>>) -> Option<Yaml>
    decreases segs.len(),
{
    if segs.len() == 0 {
        Some(v)
    } else {
        match v {
            Yaml::Dict(m) => match lookup(m, segs[0]) {
                Some(c) => get_path(c, segs.drop_first()),
                None => None,
            },
            Yaml::List(items) => match parse_usize_spec(segs[0]) {
                Some(k) => if k < items.len() {
                    get_path(items[k as int], segs.drop_first())
                } else {
                    None
                },
                None => None,
            },
            _ => None,
        }
    }
}

/// The value `v` with `val` stored at the dot-path `segs`
/// (`KnowledgeGraph::set`): missing mappings along the way are created
/// empty; the walk fails (nothing) when it meets anything but a mapping.
pub open spec fn set_path(v: Yaml, segs: Seq<Seq<char>>, val: Yaml) -> Option<Yaml>
    decreases segs.len(),
{
    if segs.len() == 0 {
        Some(val)
    } else {
        match v {
            Yaml::Dict(m) => if segs.len() == 1 {
                Some(Yaml::Dict(insert(m, segs[0], val)))
            } else {
                let child = match lookup(m, segs[0]) {
                    Some(c) => c,
                    None => Yaml::Dict(Seq::empty()),
                };
                match set_path(child, segs.drop_first(), val) {
                    Some(nc) => Some(Yaml::Dict(insert(m, segs[0], nc))),
                    None => None,
                }
            },
            _ => None,
        }
    }
}

pub proof fn lemma_find_key_from(m: Seq<(Yaml, Yaml)>, s: Seq<char>, i: int)
    requires
        0 <= i <= m.len(),
    ensures
        match find_key_from(m, s, i) {
            Some(j) => i <= j < m.len() && m[j].0 == Yaml::Str(s) && forall|k: int|
                i <= k < j ==> m[k].0 != Yaml::Str(s),
            None => forall|k: int| i <= k < m.len() ==> m[k].0 != Yaml::Str(s),
        },
    decreases m.len() - i,
{
    if i < m.len() && m[i].0 != Yaml::Str(s) {
        lemma_find_key_from(m, s, i + 1);
    }
}

/// `find_key` finds the first matching entry.
pub proof fn lemma_find_key(m: Seq<(Yaml, Yaml)>, s: Seq<char>)
    ensures
        match find_key(m, s) {
            Some(j) => 0 <= j < m.len() && m[j].0 == Yaml::Str(s) && forall|k: int|
                0 <= k < j ==> m[k].0 != Yaml::Str(s),
            None => forall|k: int| 0 <= k < m.len() ==> m[k].0 != Yaml::Str(s),
        },
{
    lemma_find_key_from(m, s, 0);
}

/// Any index characterised as the first match is what `find_key` returns.
pub proof fn lemma_find_key_unique(m: Seq<(Yaml, Yaml)>, s: Seq<char>, j: int)
    requires
        0 <= j < m.len(),
        m[j].0 == Yaml::Str(s),
        forall|k: int| 0 <= k < j ==> m[k].0 != Yaml::Str(s),
    ensures
        find_key(m, s) == Some(j),
{
    lemma_find_key(m, s);
    match find_key(m, s) {
        Some(j2) => {
            if j2 < j {
                assert(m[j2].0 != Yaml::Str(s));
            } else if j2 > j {
                assert(m[j].0 != Yaml::Str(s));
            }
        },
        None => {
            assert(m[j].0 != Yaml::Str(s));
        },
    }
}

pub proof fn lemma_find_key_none(m: Seq<(Yaml, Yaml)>, s: Seq<char>)
    requires
        forall|k: int| 0 <= k < m.len() ==> m[k].0 != Yaml::Str(s),
    ensures
        find_key(m, s) is None,
{
    lemma_find_key(m, s);
    if let Some(j) = find_key(m, s) {
        assert(m[j].0 != Yaml::Str(s));
    }
}

/// Reading a key just inserted gives the inserted value.
pub proof fn lemma_lookup_insert_same(m: Seq<(Yaml, Yaml)>, s: Seq<char>, val: Yaml)
    ensures
        lookup(insert(m, s, val), s) == Some(val),
{
    lemma_find_key(m, s);
    let n = insert(m, s, val);
    match find_key(m, s) {
        Some(j) => {
            lemma_find_key_unique(n, s, j);
        },
        None => {
            assert forall|k: int| 0 <= k < m.len() implies n[k].0 != Yaml::Str(s) by {
                assert(n[k] == m[k]);
            }
            lemma_find_key_unique(n, s, m.len() as int);
        },
    }
}

/// Inserting under one key leaves what other keys hold unchanged.
pub proof fn lemma_lookup_insert_other(m: Seq<(Yaml, Yaml)>, s: Seq<char>, t: Seq<char>, val: Yaml)
    requires
        s != t,
    ensures
        lookup(insert(m, s, val), t) == lookup(m, t),
{
    lemma_find_key(m, s);
    lemma_find_key(m, t);
    let n = insert(m, s, val);
    assert(Yaml::Str(s) != Yaml::Str(t));
    match find_key(m, t) {
        Some(j) => {
            assert(n[j].0 == m[j].0);
            assert forall|k: int| 0 <= k < j implies n[k].0 != Yaml::Str(t) by {
                assert(n[k].0 == m[k].0);
            }
            lemma_find_key_unique(n, t, j);
            if let Some(i) = find_key(m, s) {
                assert(i != j);
            }
        },
        None => {
            assert forall|k: int| 0 <= k < n.len() implies n[k].0 != Yaml::Str(t) by {
                if k < m.len() {
                    assert(n[k].0 == m[k].0);
                }
            }
            lemma_find_key_none(n, t);
        },
    }
}

/// Whether storing at `segs` succeeds does not depend on the value stored.
pub proof fn lemma_set_path_some(v: Yaml, segs: Seq<Seq<char>>, a: Yaml, b: Yaml)
    ensures
        set_path(v, segs, a) is Some <==> set_path(v, segs, b) is Some,
    decreases segs.len(),
{
    if segs.len() > 1 {
        if let Yaml::Dict(m) = v {
            let child = match lookup(m, segs[0]) {
                Some(c) => c,
                None => Yaml::Dict(Seq::empty()),
            };
            lemma_set_path_some(child, segs.drop_first(), a, b);
        }
    }
}

// ---------------------------------------------------------------------------
// Laws
// ---------------------------------------------------------------------------

/// Reading a path after a successful write to it gives back the written value.
pub proof fn law_get_after_set(v: Yaml, segs: Seq<Seq<char>>, val: Yaml)
    requires
        set_path(v, segs, val) is Some,
    ensures
        get_path(set_path(v, segs, val)->Some_0, segs) == Some(val),
    decreases segs.len(),
{
    if segs.len() > 0 {
        if let Yaml::Dict(m) = v {
            if segs.len() == 1 {
                lemma_lookup_insert_same(m, segs[0], val);
                assert(get_path(val, segs.drop_first()) == Some(val));
            } else {
                let child = match lookup(m, segs[0]) {
                    Some(c) => c,
                    None => Yaml::Dict(Seq::empty()),
                };
                let nc = set_path(child, segs.drop_first(), val)->Some_0;
                law_get_after_set(child, segs.drop_first(), val);
                lemma_lookup_insert_same(m, segs[0], nc);
                assert(set_path(v, segs, val) == Some(Yaml::Dict(insert(m, segs[0], nc))));
            }
        }
    }
}

/// A write leaves every path that starts with a different first segment as
/// it was.
pub proof fn law_set_keeps_other_keys(
    v: Yaml,
    segs: Seq<Seq<char>>,
    val: Yaml,
    other: Seq<Seq<char>>,
)
    requires
        set_path(v, segs, val) is Some,
        segs.len() > 0,
        other.len() > 0,
        other[0] != segs[0],
    ensures
        get_path(set_path(v, segs, val)->Some_0, other) == get_path(v, other),
{
    if let Yaml::Dict(m) = v {
        if segs.len() == 1 {
            lemma_lookup_insert_other(m, segs[0], other[0], val);
        } else {
            let child = match lookup(m, segs[0]) {
                Some(c) => c,
                None => Yaml::Dict(Seq::empty()),
            };
            let nc = set_path(child, segs.drop_first(), val)->Some_0;
            lemma_lookup_insert_other(m, segs[0], other[0], nc);
        }
    }
}

/// A write leaves every path that parts from the written one as it was:
/// when the two paths agree on their first `k` segments and differ at
/// segment `k` (so neither is a prefix of the other), reading the other path
/// after the write gives what it gave before.
pub proof fn law_set_keeps_diverging_paths(
    v: Yaml,
    segs: Seq<Seq<char>>,
    val: Yaml,
    other: Seq<Seq<char>>,
    k: int,
)
    requires
        set_path(v, segs, val) is Some,
        0 <= k < segs.len(),
        k < other.len(),
        segs.take(k) == other.take(k),
        segs[k] != other[k],
    ensures
        get_path(set_path(v, segs, val)->Some_0, other) == get_path(v, other),
    decreases k,
{
    if k == 0 {
        law_set_keeps_other_keys(v, segs, val, other);
    } else {
        assert(segs[0] == segs.take(k)[0] && other[0] == other.take(k)[0]);
        let s0 = segs[0];
        assert(other[0] == s0);
        if let Yaml::Dict(m) = v {
            let child = match lookup(m, s0) {
                Some(c) => c,
                None => Yaml::Dict(Seq::empty()),
            };
            let rest = segs.drop_first();
            let orest = other.drop_first();
            let nc = set_path(child, rest, val)->Some_0;
            assert(set_path(v, segs, val) == Some(Yaml::Dict(insert(m, s0, nc))));
            assert(rest.take(k - 1) =~= orest.take(k - 1)) by {
                assert forall|i: int| 0 <= i < k - 1 implies #[trigger] rest.take(k - 1)[i]
                    == orest.take(k - 1)[i] by {
                    assert(segs.take(k)[i + 1] == other.take(k)[i + 1]);
                }
            }
            law_set_keeps_diverging_paths(child, rest, val, orest, k - 1);
            lemma_lookup_insert_same(m, s0, nc);
            match lookup(m, s0) {
                Some(c) => {},
                None => {
                    assert(find_key(Seq::<(Yaml, Yaml)>::empty(), orest[0]) is None) by {
                        lemma_find_key_none(Seq::<(Yaml, Yaml)>::empty(), orest[0]);
                    }
                },
            }
        }
    }
}

/// Two writes to paths that part from each other can be made in either
/// order (as `merge` makes its updates one after another, this is a merge of
/// two such updates in either order): both orders leave each written value
/// at its path. (The entries of a mapping may come in another order, and a
/// path that parts from both is left as it was by each write, see
/// `law_set_keeps_diverging_paths`.)
pub proof fn law_diverging_writes_commute(
    v: Yaml,
    a: Seq<Seq<char>>,
    x: Yaml,
    b: Seq<Seq<char>>,
    y: Yaml,
    k: int,
)
    requires
        0 <= k < a.len(),
        k < b.len(),
        a.take(k) == b.take(k),
        a[k] != b[k],
        set_path(v, a, x) is Some,
        set_path(set_path(v, a, x)->Some_0, b, y) is Some,
        set_path(v, b, y) is Some,
        set_path(set_path(v, b, y)->Some_0, a, x) is Some,
    ensures
        ({
            let ab = set_path(set_path(v, a, x)->Some_0, b, y)->Some_0;
            let ba = set_path(set_path(v, b, y)->Some_0, a, x)->Some_0;
            &&& get_path(ab, a) == Some(x)
            &&& get_path(ba, a) == Some(x)
            &&& get_path(ab, b) == Some(y)
            &&& get_path(ba, b) == Some(y)
        }),
{
    let va = set_path(v, a, x)->Some_0;
    let vb = set_path(v, b, y)->Some_0;
    law_get_after_set(v, a, x);
    law_get_after_set(v, b, y);
    law_get_after_set(va, b, y);
    law_get_after_set(vb, a, x);
    law_set_keeps_diverging_paths(va, b, y, a, k);
    law_set_keeps_diverging_paths(vb, a, x, b, k);
}

/// The two paths part from each other: they agree up to some segment and
/// differ there (so neither is a prefix of the other).
pub open spec fn diverge(a: Seq<Seq<char>>, b: Seq<Seq<char>>) -> bool {
    exists|k: int| 0 <= k < a.len() && k < b.len() && a.take(k) == b.take(k) && a[k] != b[k]
}

/// Merging updates that all part from `p` leaves the value at `p` alone.
proof fn lemma_merge_keeps(v: Yaml, ups: Seq<(Seq<char>, Yaml)>, p: Seq<Seq<char>>)
    requires
        merge_spec(v, ups).1 is None,
        forall|i: int| 0 <= i < ups.len() ==> diverge(path_segments(#[trigger] ups[i].0), p),
    ensures
        get_path(merge_spec(v, ups).0, p) == get_path(v, p),
    decreases ups.len(),
{
    if ups.len() > 0 {
        let segs = path_segments(ups[0].0);
        let nv = set_path(v, segs, ups[0].1)->Some_0;
        let rest = ups.drop_first();
        assert forall|i: int| 0 <= i < rest.len() implies diverge(path_segments(#[trigger] rest[i].0), p) by {
            assert(rest[i] == ups[i + 1]);
        }
        lemma_merge_keeps(nv, rest, p);
        assert(diverge(segs, p));
        let k = choose|k: int|
            0 <= k < segs.len() && k < p.len() && segs.take(k) == p.take(k) && segs[k] != p[k];
        law_set_keeps_diverging_paths(v, segs, ups[0].1, p, k);
    }
}

/// After a merge whose updates all succeed and whose paths part from each
/// other (no path a prefix of another), every update reads back: the value
/// at each update's path is the value it wrote.
pub proof fn law_merged_updates_read_back(v: Yaml, ups: Seq<(Seq<char>, Yaml)>)
    requires
        merge_spec(v, ups).1 is None,
        forall|i: int, j: int|
            0 <= i < ups.len() && 0 <= j < ups.len() && i != j ==> diverge(
                path_segments(#[trigger] ups[i].0),
                path_segments(#[trigger] ups[j].0),
            ),
    ensures
        forall|i: int|
            0 <= i < ups.len() ==> get_path(merge_spec(v, ups).0, path_segments(#[trigger] ups[i].0))
                == Some(ups[i].1),
    decreases ups.len(),
{
    if ups.len() > 0 {
        let segs = path_segments(ups[0].0);
        let nv = set_path(v, segs, ups[0].1)->Some_0;
        let rest = ups.drop_first();
        assert forall|i: int, j: int|
            0 <= i < rest.len() && 0 <= j < rest.len() && i != j implies diverge(
                path_segments(#[trigger] rest[i].0),
                path_segments(#[trigger] rest[j].0),
            ) by {
            assert(rest[i] == ups[i + 1] && rest[j] == ups[j + 1]);
        }
        law_merged_updates_read_back(nv, rest);
        assert forall|i: int| 0 <= i < rest.len() implies diverge(
            path_segments(#[trigger] rest[i].0),
            segs,
        ) by {
            assert(rest[i] == ups[i + 1]);
            assert(diverge(path_segments(ups[i + 1].0), path_segments(ups[0].0)));
        }
        lemma_merge_keeps(nv, rest, segs);
        law_get_after_set(v, segs, ups[0].1);
        assert forall|i: int| 0 <= i < ups.len() implies get_path(
            merge_spec(v, ups).0,
            path_segments(#[trigger] ups[i].0),
        ) == Some(ups[i].1) by {
            if i > 0 {
                assert(rest[i - 1] == ups[i]);
            }
        }
    }
}


pub proof fn lemma_set_path_empty_dict(segs: Seq<Seq<char>>, val: Yaml)
    ensures
        set_path(Yaml::Dict(Seq::empty()), segs, val) is Some,
    decreases segs.len(),
{
    if segs.len() > 1 {
        lemma_find_key_none(Seq::empty(), segs[0]);
        lemma_set_path_empty_dict(segs.drop_first(), val);
    }
}

pub proof fn lemma_deep_entries_update(s: Seq<(YamlValue, YamlValue)>, j: int, e: (YamlValue, YamlValue))
    requires
        0 <= j < s.len(),
    ensures
        deep_entries(s.update(j, e)) == deep_entries(s).update(j, (deep(e.0), deep(e.1))),
{
    lemma_deep_entries(s);
    lemma_deep_entries(s.update(j, e));
    assert(deep_entries(s.update(j, e)) =~= deep_entries(s).update(j, (deep(e.0), deep(e.1))));
}

pub proof fn lemma_deep_entries_push(s: Seq<(YamlValue, YamlValue)>, e: (YamlValue, YamlValue))
    ensures
        deep_entries(s.push(e)) == deep_entries(s).push((deep(e.0), deep(e.1))),
{
    assert(s.push(e).drop_last() =~= s);
}

pub proof fn lemma_skip_step<A>(s: Seq<A>, i: int)
    requires
        0 <= i < s.len(),
    ensures
        s.skip(i).len() > 0,
        s.skip(i)[0] == s[i],
        s.skip(i).drop_first() == s.skip(i + 1),
{
    assert(s.skip(i).drop_first() =~= s.skip(i + 1));
}

/// Whether the key `k` is the string `s`.
fn key_matches(k: &YamlValue, s: &Vec<char>) -> (r: bool)
    ensures
        r == (k@ == Yaml::Str(s@)),
{
    match k {
        YamlValue::String(t) => {
            let tv = chars_of(t.as_str());
            chars_eq(&tv, s)
        },
        _ => false,
    }
}

/// The index of the entry whose key is the string `s`, if any.
fn find_key_exec(m: &Vec<(YamlValue, YamlValue)>, s: &Vec<char>) -> (r: Option<usize>)
    ensures
        match r {
            Some(j) => j < m.len() && find_key(deep_entries(m@), s@) == Some(j as int),
            None => find_key(deep_entries(m@), s@) is None,
        },
{
    let ghost e = deep_entries(m@);
    proof {
        lemma_deep_entries(m@);
    }
    let n = m.len();
    for i in 0..n
        invariant
            n == m.len(),
            e == deep_entries(m@),
            e.len() == m.len(),
            forall|k: int| 0 <= k < m.len() ==> #[trigger] e[k] == (deep(m@[k].0), deep(m@[k].1)),
            find_key(e, s@) == find_key_from(e, s@, i as int),
    {
        if key_matches(&m[i].0, s) {
            assert(e[i as int].0 == Yaml::Str(s@));
            return Some(i);
        }
        assert(e[i as int].0 != Yaml::Str(s@));
    }
    None
}

/// An error from a knowledge-graph update.
#[derive(Debug)]
pub enum KgError {
    /// The path runs into a value that is not a mapping; holds the path.
    NotAMapping(String),
}

impl KgError {
    /// The text reported for this error.
    pub fn message(&self) -> (r: String)
        ensures
            match self {
                KgError::NotAMapping(p) => r@ == "cannot set path "@ + p@ + ": not a mapping"@,
            },
    {
        match self {
            KgError::NotAMapping(p) => crate::text::concat3("cannot set path ", p.as_str(), ": not a mapping"),
        }
    }
}

/// A YAML document stored under `root/core.yaml`.
pub struct KnowledgeGraph {
    root: String,
    data: YamlValue,
}

pub open spec fn path_segments(path: Seq<char>) -> Seq<Seq<char>> {
    split(path, '.')
}

impl KnowledgeGraph {
    /// The graph rooted at the directory `root` holding `data`.
    pub fn new(root: &str, data: YamlValue) -> (kg: KnowledgeGraph)
        ensures
            kg.root_spec() == root@,
            kg.data_spec() == data@,
    {
        KnowledgeGraph { root: root.to_owned(), data }
    }

    pub closed spec fn root_spec(&self) -> Seq<char> {
        self.root@
    }

    pub closed spec fn data_spec(&self) -> Yaml {
        self.data@
    }

    /// The leaf paths of the document (what `paths` returns).
    pub open spec fn paths_spec(&self) -> Seq<Seq<char>> {
        collect(self.data_spec(), Seq::empty())
    }

    /// The directory the graph is stored in.
    pub fn root(&self) -> (r: &String)
        ensures
            r@ == self.root_spec(),
    {
        &self.root
    }

    /// The whole document.
    pub fn data(&self) -> (r: &YamlValue)
        ensures
            r@ == self.data_spec(),
    {
        &self.data
    }

    /// The value at a dot-path (see `get_path`).
    pub fn get(&self, path: &str) -> (r: Option<&YamlValue>)
        ensures
            match r {
                Some(x) => get_path(self.data_spec(), path_segments(path@)) == Some(x@),
                None => get_path(self.data_spec(), path_segments(path@)) is None,
            },
    {
        let pv = chars_of(path);
        let segs = split_exec(&pv, '.');
        let ghost ss = views(segs@);
        let mut cur: &YamlValue = &self.data;
        let mut i: usize = 0;
        assert(ss.skip(0) =~= ss);
        while i < segs.len()
            invariant
                i <= segs.len(),
                ss == views(segs@),
                ss == path_segments(path@),
                get_path(self.data@, ss) == get_path(cur@, ss.skip(i as int)),
            decreases segs.len() - i,
        {
            proof {
                lemma_skip_step(ss, i as int);
            }
            match cur {
                YamlValue::Mapping(m) => {
                    proof {
                        lemma_deep_entries(m@);
                    }
                    match find_key_exec(m, &segs[i]) {
                        Some(j) => {
                            cur = &m[j].1;
                        },
                        None => {
                            return None;
                        },
                    }
                },
                YamlValue::Sequence(items) => {
                    proof {
                        lemma_deep_items(items@);
                    }
                    let seg = string_of(&segs[i]);
                    match parse_usize(seg.as_str()) {
                        Some(k) => {
                            if k < items.len() {
                                cur = &items[k];
                            } else {
                                return None;
                            }
                        },
                        None => {
                            return None;
                        },
                    }
                },
                _ => {
                    return None;
                },
            }
            i = i + 1;
        }
        assert(ss.skip(i as int) =~= Seq::<Seq<char>>::empty());
        Some(cur)
    }

    /// Stores `value` at a dot-path, creating missing mappings along the
    /// way; fails, changing nothing, when the path runs into a value that is
    /// not a mapping.
    pub fn set(&mut self, path: &str, value: YamlValue) -> (r: Result<(), KgError>)
        ensures
            final(self).root_spec() == old(self).root_spec(),
            match set_path(old(self).data_spec(), path_segments(path@), value@) {
                Some(nv) => r is Ok && final(self).data_spec() == nv,
                None => r matches Err(KgError::NotAMapping(p)) && p@ == path@
                    && final(self).data_spec() == old(self).data_spec(),
            },
    {
        let pv = chars_of(path);
        let segs = split_exec(&pv, '.');
        let ghost ss = views(segs@);
        proof {
            lemma_split_len(pv@, '.');
            assert(ss.skip(0) =~= ss);
            lemma_set_path_some(self.data@, ss, Yaml::Null, value@);
        }
        if !can_set(&self.data, &segs, 0) {
            return Err(KgError::NotAMapping(path.to_owned()));
        }
        let mut data = YamlValue::Null;
        std::mem::swap(&mut data, &mut self.data);
        let nv = set_owned(data, &segs, 0, value);
        self.data = nv;
        Ok(())
    }

    /// Applies the updates in order; stops at the first one that fails,
    /// keeping those applied before it.
    pub fn merge(&mut self, updates: Vec<(String, YamlValue)>) -> (r: Result<(), KgError>)
        ensures
            final(self).root_spec() == old(self).root_spec(),
            final(self).data_spec() == merge_spec(old(self).data_spec(), update_views(updates@)).0,
            match merge_spec(old(self).data_spec(), update_views(updates@)).1 {
                None => r is Ok,
                Some(p) => r matches Err(KgError::NotAMapping(q)) && q@ == p,
            },
    {
        let mut ups = updates;
        let ghost start = self.data_spec();
        while ups.len() > 0
            invariant
                self.root_spec() == old(self).root_spec(),
                start == old(self).data_spec(),
                merge_spec(start, update_views(updates@)) == merge_spec(
                    self.data_spec(),
                    update_views(ups@),
                ),
            decreases ups.len(),
        {
            let ghost uv = update_views(ups@);
            let (p, x) = ups.remove(0);
            assert(update_views(ups@) =~= uv.drop_first());
            assert(uv[0] == (p@, x@));
            let ghost before = self.data_spec();
            match self.set(p.as_str(), x) {
                Ok(()) => {},
                Err(e) => {
                    assert(merge_spec(before, uv) == (before, Some(p@)));
                    return Err(e);
                },
            }
        }
        assert(update_views(ups@) =~= Seq::<(Seq<char>, Yaml)>::empty());
        Ok(())
    }

    /// Every dot-path that leads to a value that is neither a mapping nor a
    /// sequence, in document order, with sequence positions as indices.
    pub fn paths(&self) -> (r: Vec<String>)
        ensures
            string_views(r@) == collect(self.data_spec(), Seq::empty()),
    {
        let mut out: Vec<String> = Vec::new();
        let prefix: Vec<char> = Vec::new();
        assert(string_views(out@) =~= Seq::<Seq<char>>::empty());
        assert(prefix@ =~= Seq::<char>::empty());
        collect_paths(&self.data, &prefix, &mut out);
        out
    }

    /// Stores the text `value` at a dot-path: the YAML value it parses to
    /// when it parses (`parsed`), else the text itself as a string.
    pub fn store_text(&mut self, path: &str, value: &str, parsed: Option<YamlValue>) -> (r: Result<(), KgError>)
        ensures
            final(self).root_spec() == old(self).root_spec(),
            ({
                let stored = match parsed {
                    Some(p) => p@,
                    None => Yaml::Str(value@),
                };
                match set_path(old(self).data_spec(), path_segments(path@), stored) {
                    Some(nv) => r is Ok && final(self).data_spec() == nv,
                    None => r is Err && final(self).data_spec() == old(self).data_spec(),
                }
            }),
    {
        let v = match parsed {
            Some(p) => p,
            None => YamlValue::String(value.to_owned()),
        };
        self.set(path, v)
    }

    /// Stores the text `value` at a dot-path as the YAML it reads as, or as
    /// a plain string when it is not YAML (see `store_text`).
    pub fn set_str(&mut self, path: &str, value: &str) -> (r: Result<(), KgError>)
        ensures
            final(self).root_spec() == old(self).root_spec(),
            ({
                let stored = match yaml_parse(value@) {
                    Some(p) => p,
                    None => Yaml::Str(value@),
                };
                match set_path(old(self).data_spec(), path_segments(path@), stored) {
                    Some(nv) => r is Ok && final(self).data_spec() == nv,
                    None => r is Err && final(self).data_spec() == old(self).data_spec(),
                }
            }),
    {
        let parsed = parse_yaml(value);
        self.store_text(path, value, parsed)
    }

    /// The graph under `root` whose stored document parsed to `parsed`: an
    /// empty mapping when there was no document or it did not parse.
    pub fn with_document(root: &str, parsed: Option<YamlValue>) -> (kg: KnowledgeGraph)
        ensures
            kg.root_spec() == root@,
            kg.data_spec() == (match parsed {
                Some(v) => v@,
                None => Yaml::Dict(Seq::empty()),
            }),
    {
        let data = match parsed {
            Some(v) => v,
            None => {
                let entries: Vec<(YamlValue, YamlValue)> = Vec::new();
                assert(deep_entries(entries@) =~= Seq::<(Yaml, Yaml)>::empty());
                YamlValue::Mapping(entries)
            },
        };
        KnowledgeGraph::new(root, data)
    }

    /// The graph under `root` from the text of its stored document, if there
    /// is one (see `with_document`).
    pub fn from_document(root: &str, text: Option<&str>) -> (kg: KnowledgeGraph)
        ensures
            kg.root_spec() == root@,
            kg.data_spec() == (match text {
                Some(t) => match yaml_parse(t@) {
                    Some(v) => v,
                    None => Yaml::Dict(Seq::empty()),
                },
                None => Yaml::Dict(Seq::empty()),
            }),
    {
        let parsed = match text {
            Some(t) => parse_yaml(t),
            None => None,
        };
        Self::with_document(root, parsed)
    }
}

/// Whether storing at `segs[i..]` below `v` would succeed.
fn can_set(v: &YamlValue, segs: &Vec<Vec<char>>, i: usize) -> (b: bool)
    requires
        i <= segs.len(),
    ensures
        b == (set_path(v@, views(segs@).skip(i as int), Yaml::Null) is Some),
    decreases segs.len() - i,
{
    let ghost ss = views(segs@);
    if i == segs.len() {
        return true;
    }
    proof {
        lemma_skip_step(ss, i as int);
    }
    match v {
        YamlValue::Mapping(m) => {
            if i + 1 == segs.len() {
                return true;
            }
            proof {
                lemma_deep_entries(m@);
            }
            match find_key_exec(m, &segs[i]) {
                Some(j) => can_set(&m[j].1, segs, i + 1),
                None => {
                    proof {
                        lemma_set_path_empty_dict(ss.skip(i + 1), Yaml::Null);
                    }
                    true
                },
            }
        },
        _ => false,
    }
}

/// `v` with `val` stored at `segs[i..]`, for a walk known to succeed.
fn set_owned(v: YamlValue, segs: &Vec<Vec<char>>, i: usize, val: YamlValue) -> (nv: YamlValue)
    requires
        i < segs.len(),
        set_path(v@, views(segs@).skip(i as int), val@) is Some,
    ensures
        set_path(v@, views(segs@).skip(i as int), val@) == Some(nv@),
    decreases segs.len() - i,
{
    let ghost ss = views(segs@);
    proof {
        lemma_skip_step(ss, i as int);
    }
    match v {
        YamlValue::Mapping(mut m) => {
            let ghost m0 = m@;
            let ghost e = deep_entries(m0);
            proof {
                lemma_deep_entries(m0);
            }
            let idx = find_key_exec(&m, &segs[i]);
            if i + 1 == segs.len() {
                match idx {
                    Some(j) => {
                        let mut entry = (YamlValue::Null, YamlValue::Null);
                        m.set_and_swap(j, &mut entry);
                        let (k, _previous) = entry;
                        let ghost kk = k;
                        let ghost vv = val;
                        m.set(j, (k, val));
                        proof {
                            assert(m@ =~= m0.update(j as int, (kk, vv)));
                            lemma_deep_entries_update(m0, j as int, (kk, vv));
                            assert(deep(kk) == e[j as int].0);
                        }
                    },
                    None => {
                        let key = YamlValue::String(string_of(&segs[i]));
                        proof {
                            lemma_deep_entries_push(m0, (key, val));
                        }
                        m.push((key, val));
                    },
                }
                YamlValue::Mapping(m)
            } else {
                match idx {
                    Some(j) => {
                        let mut entry = (YamlValue::Null, YamlValue::Null);
                        m.set_and_swap(j, &mut entry);
                        let (k, c) = entry;
                        assert(deep(c) == e[j as int].1);
                        let nc = set_owned(c, segs, i + 1, val);
                        let ghost kk = k;
                        let ghost nn = nc;
                        m.set(j, (k, nc));
                        proof {
                            assert(m@ =~= m0.update(j as int, (kk, nn)));
                            lemma_deep_entries_update(m0, j as int, (kk, nn));
                            assert(deep(kk) == e[j as int].0);
                        }
                    },
                    None => {
                        proof {
                            lemma_set_path_empty_dict(ss.skip(i + 1), val@);
                        }
                        let empty: Vec<(YamlValue, YamlValue)> = Vec::new();
                        assert(deep(YamlValue::Mapping(empty)) == Yaml::Dict(Seq::empty())) by {
                            assert(empty@ =~= Seq::<(YamlValue, YamlValue)>::empty());
                            assert(deep_entries(empty@) =~= Seq::<(Yaml, Yaml)>::empty());
                        }
                        let nc = set_owned(YamlValue::Mapping(empty), segs, i + 1, val);
                        let key = YamlValue::String(string_of(&segs[i]));
                        proof {
                            lemma_deep_entries_push(m0, (key, nc));
                        }
                        m.push((key, nc));
                    },
                }
                YamlValue::Mapping(m)
            }
        },
        _ => {
            proof {
                assert(false);
            }
            YamlValue::Null
        },
    }
}


/// The updates with their paths and values taken by view.
pub open spec fn update_views(s: Seq<(String, YamlValue)>) -> Seq<(Seq<char>, Yaml)> {
    s.map_values(|e: (String, YamlValue)| (e.0@, e.1@))
}

/// The document after applying the updates in order, and the path of the
/// first update that failed, if one did (the document then holds the
/// updates before it).
pub open spec fn merge_spec(v: Yaml, ups: Seq<(Seq<char>, Yaml)>) -> (Yaml, Option<Seq<char>>)
    decreases ups.len(),
{
    if ups.len() == 0 {
        (v, None)
    } else {
        match set_path(v, path_segments(ups[0].0), ups[0].1) {
            Some(nv) => merge_spec(nv, ups.drop_first()),
            None => (v, Some(ups[0].0)),
        }
    }
}

/// The dot-path of a child named `name` below `prefix`.
pub open spec fn child_path(prefix: Seq<char>, name: Seq<char>) -> Seq<char> {
    if prefix.len() == 0 {
        name
    } else {
        prefix + seq!['.'] + name
    }
}

/// A mapping or a sequence, looking through tags.
pub open spec fn is_collection(y: Yaml) -> bool {
    untag(y) is List || untag(y) is Dict
}

/// The string a key holds, looking through tags (`Value::as_str`).
pub open spec fn key_name(k: Yaml) -> Option<Seq<char>> {
    match untag(k) {
        Yaml::Str(s) => Some(s),
        _ => None,
    }
}

/// `path` itself when the value there is a leaf.
pub open spec fn leaf_path(v: Yaml, path: Seq<char>) -> Seq<Seq<char>> {
    if is_collection(v) {
        Seq::empty()
    } else {
        seq![path]
    }
}

/// The leaf paths below `v`, which sits at `prefix` (`collect_paths`):
/// entries with string keys in order, then sequence items by index; a
/// tagged value is not entered.
pub open spec fn collect(v: Yaml, prefix: Seq<char>) -> Seq<Seq<char>>
    decreases v,
{
    match v {
        Yaml::Dict(m) => collect_entries(m, prefix),
        Yaml::List(items) => collect_items(items, prefix),
        _ => Seq::empty(),
    }
}

pub open spec fn collect_entries(m: Seq<(Yaml, Yaml)>, prefix: Seq<char>) -> Seq<Seq<char>>
    decreases m,
{
    if m.len() == 0 {
        Seq::empty()
    } else {
        collect_entries(m.drop_last(), prefix) + match key_name(m.last().0) {
            Some(k) => leaf_path(m.last().1, child_path(prefix, k)) + collect(
                m.last().1,
                child_path(prefix, k),
            ),
            None => Seq::empty(),
        }
    }
}

pub open spec fn collect_items(items: Seq<Yaml>, prefix: Seq<char>) -> Seq<Seq<char>>
    decreases items,
{
    if items.len() == 0 {
        Seq::empty()
    } else {
        let p = child_path(prefix, decimal((items.len() - 1) as nat));
        collect_items(items.drop_last(), prefix) + leaf_path(items.last(), p) + collect(
            items.last(),
            p,
        )
    }
}

// ---------------------------------------------------------------------------
// Every listed path can be read
// ---------------------------------------------------------------------------

/// A key text a dot-path can name: not empty and without a dot.
pub open spec fn segment_name(s: Seq<char>) -> bool {
    s.len() > 0 && !s.contains('.')
}

/// Every path `collect` lists below `v` names a value: each mapping key is
/// a plain string that names a segment (keys that are not strings are
/// skipped by the listing), no mapping repeats a key, and every sequence
/// can be indexed by a `usize`.
pub open spec fn addressable(v: Yaml) -> bool
    decreases v,
{
    match v {
        Yaml::Dict(m) => addressable_entries(m),
        Yaml::List(items) => items.len() <= usize::MAX && addressable_items(items),
        _ => true,
    }
}

pub open spec fn addressable_entries(m: Seq<(Yaml, Yaml)>) -> bool
    decreases m,
{
    if m.len() == 0 {
        true
    } else {
        addressable_entries(m.drop_last()) && match m.last().0 {
            Yaml::Str(k) => segment_name(k) && find_key(m.drop_last(), k) is None && addressable(
                m.last().1,
            ),
            _ => key_name(m.last().0) is None,
        }
    }
}

pub open spec fn addressable_items(items: Seq<Yaml>) -> bool
    decreases items,
{
    if items.len() == 0 {
        true
    } else {
        addressable_items(items.drop_last()) && addressable(items.last())
    }
}

/// The segments of the path at which a listing starts: none for the root.
pub open spec fn prefix_segments(prefix: Seq<char>) -> Seq<Seq<char>> {
    if prefix.len() == 0 {
        Seq::empty()
    } else {
        path_segments(prefix)
    }
}

proof fn lemma_get_path_concat(v: Yaml, a: Seq<Seq<char>>, b: Seq<Seq<char>>)
    ensures
        get_path(v, a + b) == (match get_path(v, a) {
            Some(w) => get_path(w, b),
            None => None,
        }),
    decreases a.len(),
{
    if a.len() == 0 {
        assert(a + b =~= b);
    } else {
        assert((a + b)[0] == a[0]);
        assert((a + b).drop_first() =~= a.drop_first() + b);
        match v {
            Yaml::Dict(m) => match lookup(m, a[0]) {
                Some(c) => lemma_get_path_concat(c, a.drop_first(), b),
                None => {},
            },
            Yaml::List(items) => match parse_usize_spec(a[0]) {
                Some(k) => if k < items.len() {
                    lemma_get_path_concat(items[k as int], a.drop_first(), b);
                },
                None => {},
            },
            _ => {},
        }
    }
}

/// The segments of a child path are the parent's followed by the name.
proof fn lemma_child_segments(prefix: Seq<char>, name: Seq<char>)
    requires
        segment_name(name),
    ensures
        child_path(prefix, name).len() > 0,
        path_segments(child_path(prefix, name)) == prefix_segments(prefix).push(name),
{
    lemma_split_no_sep(name, '.');
    if prefix.len() > 0 {
        lemma_split_concat(prefix, name, '.');
        assert(path_segments(prefix) + seq![name] =~= path_segments(prefix).push(name));
    } else {
        assert(Seq::<Seq<char>>::empty().push(name) =~= seq![name]);
    }
}

proof fn lemma_collect_readable(root: Yaml, v: Yaml, prefix: Seq<char>)
    requires
        addressable(v),
        get_path(root, prefix_segments(prefix)) == Some(v),
    ensures
        forall|q: Seq<char>|
            #[trigger] collect(v, prefix).contains(q) ==> q.len() > 0 && get_path(
                root,
                path_segments(q),
            ) is Some,
    decreases v, 0nat,
{
    match v {
        Yaml::Dict(m) => {
            assert(m.take(m.len() as int) =~= m);
            lemma_entries_readable(root, m, m, prefix);
            assert(collect(v, prefix) == collect_entries(m, prefix));
        },
        Yaml::List(items) => {
            assert(items.take(items.len() as int) =~= items);
            lemma_items_readable(root, items, items, prefix);
            assert(collect(v, prefix) == collect_items(items, prefix));
        },
        _ => {},
    }
}

/// The paths listed for a value found at `p`: `p` itself for a leaf, and
/// those below it.
proof fn lemma_child_readable(root: Yaml, child: Yaml, p: Seq<char>)
    requires
        p.len() > 0,
        addressable(child),
        get_path(root, path_segments(p)) == Some(child),
    ensures
        forall|q: Seq<char>|
            #[trigger] (leaf_path(child, p) + collect(child, p)).contains(q) ==> q.len() > 0
                && get_path(root, path_segments(q)) is Some,
    decreases child, 1nat,
{
    assert(prefix_segments(p) == path_segments(p));
    lemma_collect_readable(root, child, p);
    let l = leaf_path(child, p);
    let c = collect(child, p);
    assert forall|q: Seq<char>| #[trigger] (l + c).contains(q) implies q.len() > 0 && get_path(
        root,
        path_segments(q),
    ) is Some by {
        let k = choose|k: int| 0 <= k < (l + c).len() && (l + c)[k] == q;
        if k < l.len() {
            assert(q == p);
        } else {
            assert(c[k - l.len()] == q);
            assert(c.contains(q));
        }
    }
}

proof fn lemma_entries_readable(
    root: Yaml,
    big: Seq<(Yaml, Yaml)>,
    m: Seq<(Yaml, Yaml)>,
    prefix: Seq<char>,
)
    requires
        m.len() <= big.len(),
        big.take(m.len() as int) == m,
        addressable_entries(m),
        get_path(root, prefix_segments(prefix)) == Some(Yaml::Dict(big)),
    ensures
        forall|q: Seq<char>|
            #[trigger] collect_entries(m, prefix).contains(q) ==> q.len() > 0 && get_path(
                root,
                path_segments(q),
            ) is Some,
    decreases m, 0nat,
{
    if m.len() > 0 {
        let m0 = m.drop_last();
        let i = m.len() - 1;
        assert(big.take(m0.len() as int) =~= m0);
        lemma_entries_readable(root, big, m0, prefix);
        let rest = collect_entries(m0, prefix);
        let added = match key_name(m.last().0) {
            Some(k) => leaf_path(m.last().1, child_path(prefix, k)) + collect(
                m.last().1,
                child_path(prefix, k),
            ),
            None => Seq::empty(),
        };
        assert(collect_entries(m, prefix) == rest + added);
        match m.last().0 {
            Yaml::Str(k) => {
                assert(key_name(m.last().0) == Some(k));
                let child = m.last().1;
                assert(big[i] == m.last());
                lemma_find_key(m0, k);
                assert forall|j: int| 0 <= j < i implies big[j].0 != Yaml::Str(k) by {
                    assert(big[j] == m0[j]);
                }
                lemma_find_key_unique(big, k, i);
                assert(lookup(big, k) == Some(child));
                let p = child_path(prefix, k);
                lemma_child_segments(prefix, k);
                lemma_get_path_concat(root, prefix_segments(prefix), seq![k]);
                assert(prefix_segments(prefix).push(k) =~= prefix_segments(prefix) + seq![k]);
                assert(seq![k].drop_first() =~= Seq::<Seq<char>>::empty());
                assert(seq![k][0] == k);
                assert(get_path(child, seq![k].drop_first()) == Some(child));
                assert(get_path(Yaml::Dict(big), seq![k]) == Some(child));
                lemma_child_readable(root, child, p);
            },
            _ => {},
        }
        assert forall|q: Seq<char>| #[trigger] (rest + added).contains(q) implies q.len() > 0
            && get_path(root, path_segments(q)) is Some by {
            let k = choose|k: int| 0 <= k < (rest + added).len() && (rest + added)[k] == q;
            if k < rest.len() {
                assert(rest[k] == q);
                assert(rest.contains(q));
            } else {
                assert(added[k - rest.len()] == q);
                assert(added.contains(q));
            }
        }
    }
}

proof fn lemma_items_readable(root: Yaml, big: Seq<Yaml>, items: Seq<Yaml>, prefix: Seq<char>)
    requires
        items.len() <= big.len(),
        big.len() <= usize::MAX,
        big.take(items.len() as int) == items,
        addressable_items(items),
        get_path(root, prefix_segments(prefix)) == Some(Yaml::List(big)),
    ensures
        forall|q: Seq<char>|
            #[trigger] collect_items(items, prefix).contains(q) ==> q.len() > 0 && get_path(
                root,
                path_segments(q),
            ) is Some,
    decreases items, 0nat,
{
    if items.len() > 0 {
        let i0 = items.drop_last();
        let i = items.len() - 1;
        assert(big.take(i0.len() as int) =~= i0);
        lemma_items_readable(root, big, i0, prefix);
        let rest = collect_items(i0, prefix);
        let name = decimal(i as nat);
        let p = child_path(prefix, name);
        let child = items.last();
        let added = leaf_path(child, p) + collect(child, p);
        assert(collect_items(items, prefix) =~= rest + added);
        lemma_decimal_parses(i as nat);
        assert(big[i] == child);
        lemma_child_segments(prefix, name);
        lemma_get_path_concat(root, prefix_segments(prefix), seq![name]);
        assert(prefix_segments(prefix).push(name) =~= prefix_segments(prefix) + seq![name]);
        assert(seq![name].drop_first() =~= Seq::<Seq<char>>::empty());
        assert(seq![name][0] == name);
        assert(get_path(child, seq![name].drop_first()) == Some(child));
        assert(get_path(Yaml::List(big), seq![name]) == Some(child));
        lemma_child_readable(root, child, p);
        assert forall|q: Seq<char>| #[trigger] (rest + added).contains(q) implies q.len() > 0
            && get_path(root, path_segments(q)) is Some by {
            let k = choose|k: int| 0 <= k < (rest + added).len() && (rest + added)[k] == q;
            if k < rest.len() {
                assert(rest[k] == q);
                assert(rest.contains(q));
            } else {
                assert(added[k - rest.len()] == q);
                assert(added.contains(q));
            }
        }
    }
}

/// Every path the graph lists (`paths`) reads back a value (`get`), when
/// the document is addressable: its mapping keys are plain strings without
/// dots, none repeated within a mapping.
pub proof fn law_listed_paths_are_readable(v: Yaml)
    requires
        addressable(v),
    ensures
        forall|q: Seq<char>|
            #[trigger] collect(v, Seq::empty()).contains(q) ==> get_path(v, path_segments(q)) is Some,
{
    lemma_collect_readable(v, v, Seq::empty());
}

impl YamlValue {
    /// The string this value holds, looking through tags (`Value::as_str`).
    pub fn as_str(&self) -> (r: Option<&String>)
        ensures
            match r {
                Some(s) => key_name(self@) == Some(s@),
                None => key_name(self@) is None,
            },
        decreases self,
    {
        match self {
            YamlValue::String(s) => Some(s),
            YamlValue::Tagged(_, inner) => inner.as_str(),
            _ => None,
        }
    }
}

/// Whether a value is a mapping or a sequence, looking through tags.
fn is_collection_exec(v: &YamlValue) -> (r: bool)
    ensures
        r == is_collection(v@),
    decreases v,
{
    match v {
        YamlValue::Mapping(_) => true,
        YamlValue::Sequence(_) => true,
        YamlValue::Tagged(_, inner) => is_collection_exec(inner),
        _ => false,
    }
}

fn child_path_exec(prefix: &Vec<char>, name: &Vec<char>) -> (r: Vec<char>)
    ensures
        r@ == child_path(prefix@, name@),
{
    if prefix.len() == 0 {
        return name.clone();
    }
    let mut r = prefix.clone();
    r.push('.');
    let n = name.len();
    for i in 0..n
        invariant
            n == name.len(),
            r@ == prefix@ + seq!['.'] + name@.take(i as int),
    {
        r.push(name[i]);
        assert(name@.take(i + 1) =~= name@.take(i as int).push(name@[i as int]));
    }
    assert(name@.take(n as int) =~= name@);
    r
}

fn push_child(v: &YamlValue, path: &Vec<char>, out: &mut Vec<String>)
    ensures
        string_views(final(out)@) == string_views(old(out)@) + leaf_path(v@, path@) + collect(
            v@,
            path@,
        ),
    decreases v, 1nat,
{
    let ghost o = string_views(out@);
    if !is_collection_exec(v) {
        out.push(string_of(path));
        assert(string_views(out@) =~= o + leaf_path(v@, path@));
    } else {
        assert(o + leaf_path(v@, path@) =~= o);
    }
    collect_paths(v, path, out);
}

/// Appends to `out` the leaf paths below `value`, which sits at `prefix`.
fn collect_paths(value: &YamlValue, prefix: &Vec<char>, out: &mut Vec<String>)
    ensures
        string_views(final(out)@) == string_views(old(out)@) + collect(value@, prefix@),
    decreases value, 0nat,
{
    let ghost o = string_views(out@);
    match value {
        YamlValue::Mapping(m) => {
            let ghost e = deep_entries(m@);
            proof {
                lemma_deep_entries(m@);
            }
            let n = m.len();
            for i in 0..n
                invariant
                    n == m.len(),
                    *value == YamlValue::Mapping(*m),
                    e == deep_entries(m@),
                    e.len() == m.len(),
                    forall|k: int| 0 <= k < m.len() ==> #[trigger] e[k] == (deep(m@[k].0), deep(m@[k].1)),
                    string_views(out@) == o + collect_entries(e.take(i as int), prefix@),
            {
                let ghost before = string_views(out@);
                assert(e.take(i + 1).drop_last() =~= e.take(i as int));
                assert(e.take(i + 1).last() == e[i as int]);
                match m[i].0.as_str() {
                    Some(k) => {
                        let kv = chars_of(k.as_str());
                        let np = child_path_exec(prefix, &kv);
                        proof {
                            assert(decreases_to!(*value => (*value)->Mapping_0));
                            assert(decreases_to!(*m => m[i as int]));
                            assert(decreases_to!(m[i as int] => m[i as int].1));
                            assert(decreases_to!(*value => m[i as int].1));
                        }
                        push_child(&m[i].1, &np, out);
                    },
                    None => {},
                }
                assert(string_views(out@) =~= o + collect_entries(e.take(i + 1), prefix@));
            }
            assert(e.take(n as int) =~= e);
        },
        YamlValue::Sequence(items) => {
            let ghost e = deep_items(items@);
            proof {
                lemma_deep_items(items@);
            }
            let n = items.len();
            for i in 0..n
                invariant
                    n == items.len(),
                    *value == YamlValue::Sequence(*items),
                    e == deep_items(items@),
                    e.len() == items.len(),
                    forall|k: int| 0 <= k < items.len() ==> #[trigger] e[k] == deep(items@[k]),
                    string_views(out@) == o + collect_items(e.take(i as int), prefix@),
            {
                assert(e.take(i + 1).drop_last() =~= e.take(i as int));
                assert(e.take(i + 1).last() == e[i as int]);
                let digits = decimal_exec(i as u64);
                let np = child_path_exec(prefix, &digits);
                proof {
                    assert(decreases_to!(*value => (*value)->Sequence_0));
                    assert(decreases_to!(*items => items[i as int]));
                    assert(decreases_to!(*value => items[i as int]));
                }
                push_child(&items[i], &np, out);
                assert(string_views(out@) =~= o + collect_items(e.take(i + 1), prefix@));
            }
            assert(e.take(n as int) =~= e);
        },
        _ => {
            assert(string_views(out@) =~= o + collect(value@, prefix@));
        },
    }
}


/// How a value is shown to a person: a string as it is, anything else as
/// its YAML text `rendering` trimmed.
pub open spec fn described(v: Yaml, rendering: Seq<char>) -> Seq<char> {
    match v {
        Yaml::Str(s) => s,
        _ => crate::text::trim(rendering),
    }
}

/// How a value is shown to a person when its YAML text is `rendering` (see
/// `described`).
pub fn describe_rendered(value: &YamlValue, rendering: &str) -> (r: String)
    ensures
        r@ == described(value@, rendering@),
{
    match value {
        YamlValue::String(s) => s.clone(),
        _ => {
            let v = chars_of(rendering);
            let t = crate::text::trim_exec(&v);
            string_of(&t)
        },
    }
}

/// Every tag in the value has a name (YAML has no empty tag).
pub open spec fn tags_named(y: Yaml) -> bool
    decreases y,
{
    match y {
        Yaml::List(items) => items_named(items),
        Yaml::Dict(m) => entries_named(m),
        Yaml::Tagged(t, b) => t.len() > 0 && tags_named(*b),
        _ => true,
    }
}

pub open spec fn items_named(items: Seq<Yaml>) -> bool
    decreases items,
{
    if items.len() == 0 {
        true
    } else {
        items_named(items.drop_last()) && tags_named(items.last())
    }
}

pub open spec fn entries_named(m: Seq<(Yaml, Yaml)>) -> bool
    decreases m,
{
    if m.len() == 0 {
        true
    } else {
        entries_named(m.drop_last()) && tags_named(m.last().0) && tags_named(m.last().1)
    }
}

impl YamlValue {
    /// Whether every tag in the value has a name (see `tags_named`).
    pub fn tags_named(&self) -> (r: bool)
        ensures
            r == tags_named(self@),
        decreases self,
    {
        match self {
            YamlValue::Sequence(items) => {
                proof {
                    lemma_deep_items(items@);
                }
                let ghost e = deep_items(items@);
                let mut ok = true;
                let n = items.len();
                for i in 0..n
                    invariant
                        n == items.len(),
                        *self == YamlValue::Sequence(*items),
                        e == deep_items(items@),
                        e.len() == items.len(),
                        forall|k: int| 0 <= k < items.len() ==> #[trigger] e[k] == deep(items@[k]),
                        ok == items_named(e.take(i as int)),
                {
                    proof {
                        assert(decreases_to!(*self => (*self)->Sequence_0));
                        assert(decreases_to!(*items => items[i as int]));
                        assert(e.take(i + 1).drop_last() =~= e.take(i as int));
                    }
                    let here = items[i].tags_named();
                    ok = ok && here;
                }
                assert(e.take(n as int) =~= e);
                ok
            },
            YamlValue::Mapping(m) => {
                proof {
                    lemma_deep_entries(m@);
                }
                let ghost e = deep_entries(m@);
                let mut ok = true;
                let n = m.len();
                for i in 0..n
                    invariant
                        n == m.len(),
                        *self == YamlValue::Mapping(*m),
                        e == deep_entries(m@),
                        e.len() == m.len(),
                        forall|k: int|
                            0 <= k < m.len() ==> #[trigger] e[k] == (deep(m@[k].0), deep(m@[k].1)),
                        ok == entries_named(e.take(i as int)),
                {
                    proof {
                        assert(decreases_to!(*self => (*self)->Mapping_0));
                        assert(decreases_to!(*m => m[i as int]));
                        assert(decreases_to!(m[i as int] => m[i as int].0));
                        assert(decreases_to!(m[i as int] => m[i as int].1));
                        assert(e.take(i + 1).drop_last() =~= e.take(i as int));
                    }
                    let k_ok = m[i].0.tags_named();
                    let v_ok = m[i].1.tags_named();
                    ok = ok && k_ok && v_ok;
                }
                assert(e.take(n as int) =~= e);
                ok
            },
            YamlValue::Tagged(t, b) => chars_of(t.as_str()).len() > 0 && b.tags_named(),
            _ => true,
        }
    }
}

/// The YAML text of a value, as `serde_yaml::to_string` writes it (see
/// `yaml_text_of`); nothing when it cannot be written.
pub fn yaml_text(value: &YamlValue) -> (r: Option<String>)
    requires
        tags_named(value@),
    ensures
        match r {
            Some(t) => yaml_text_of(value@) == Some(t@),
            None => yaml_text_of(value@) is None,
        },
{
    render_yaml(value)
}

/// The YAML text of a value, or nothing when it has none.
pub open spec fn text_or_empty(t: Option<Seq<char>>) -> Seq<char> {
    match t {
        Some(x) => x,
        None => Seq::empty(),
    }
}

/// How a value is shown to a person: a string as it is, anything else as
/// its YAML text trimmed (empty when it cannot be written).
pub fn describe_value(value: &YamlValue) -> (r: String)
    requires
        tags_named(value@),
    ensures
        r@ == described(value@, text_or_empty(yaml_text_of(value@))),
{
    let rendering = match render_yaml(value) {
        Some(t) => t,
        None => String::new(),
    };
    describe_rendered(value, rendering.as_str())
}

/// A value shown with its path: `path: value` (see `described`).
pub open spec fn fact_line(path: Seq<char>, v: Yaml, rendering: Seq<char>) -> Seq<char> {
    path + ": "@ + described(v, rendering)
}

/// A value shown with its path (see `fact_line`).
pub fn fact_line_text(path: &str, value: &YamlValue) -> (r: String)
    requires
        tags_named(value@),
    ensures
        r@ == fact_line(path@, value@, text_or_empty(yaml_text_of(value@))),
{
    let d = describe_value(value);
    crate::text::concat3(path, ": ", d.as_str())
}

impl KnowledgeGraph {
    /// The text of the stored document: the YAML text of the data (see
    /// `yaml_text_of`).
    pub fn document_text(&self) -> (r: Option<String>)
        requires
            tags_named(self.data_spec()),
        ensures
            match r {
                Some(t) => yaml_text_of(self.data_spec()) == Some(t@),
                None => yaml_text_of(self.data_spec()) is None,
            },
    {
        render_yaml(&self.data)
    }
}

proof fn lemma_entries_named(m: Seq<(Yaml, Yaml)>, i: int)
    requires
        entries_named(m),
        0 <= i < m.len(),
    ensures
        tags_named(m[i].1),
    decreases m.len(),
{
    if i < m.len() - 1 {
        lemma_entries_named(m.drop_last(), i);
        assert(m.drop_last()[i] == m[i]);
    }
}

proof fn lemma_items_named(items: Seq<Yaml>, i: int)
    requires
        items_named(items),
        0 <= i < items.len(),
    ensures
        tags_named(items[i]),
    decreases items.len(),
{
    if i < items.len() - 1 {
        lemma_items_named(items.drop_last(), i);
        assert(items.drop_last()[i] == items[i]);
    }
}

/// A value found inside a value whose tags are all named has named tags.
proof fn lemma_get_path_named(v: Yaml, segs: Seq<Seq<char>>)
    requires
        tags_named(v),
    ensures
        get_path(v, segs) matches Some(w) ==> tags_named(w),
    decreases segs.len(),
{
    if segs.len() > 0 {
        match v {
            Yaml::Dict(m) => {
                lemma_find_key(m, segs[0]);
                match find_key(m, segs[0]) {
                    Some(i) => {
                        lemma_entries_named(m, i);
                        lemma_get_path_named(m[i].1, segs.drop_first());
                    },
                    None => {},
                }
            },
            Yaml::List(items) => match parse_usize_spec(segs[0]) {
                Some(k) => if k < items.len() {
                    lemma_items_named(items, k as int);
                    lemma_get_path_named(items[k as int], segs.drop_first());
                },
                None => {},
            },
            _ => {},
        }
    }
}

/// What `get_string` gives for the value at a path: a string as it is,
/// anything else as its YAML text trimmed; nothing when there is no value
/// or it cannot be written.
pub open spec fn string_at(v: Option<Yaml>) -> Option<Seq<char>> {
    match v {
        None => None,
        Some(Yaml::Str(s)) => Some(s),
        Some(y) => match yaml_text_of(y) {
            Some(t) => Some(crate::text::trim(t)),
            None => None,
        },
    }
}

impl KnowledgeGraph {
    /// The value at a dot-path as text (see `string_at`).
    pub fn get_string(&self, path: &str) -> (r: Option<String>)
        requires
            tags_named(self.data_spec()),
        ensures
            match r {
                Some(s) => string_at(get_path(self.data_spec(), path_segments(path@))) == Some(s@),
                None => string_at(get_path(self.data_spec(), path_segments(path@))) is None,
            },
    {
        proof {
            lemma_get_path_named(self.data_spec(), path_segments(path@));
        }
        match self.get(path) {
            None => None,
            Some(v) => match v {
                YamlValue::String(s) => Some(s.clone()),
                _ => match render_yaml(v) {
                    Some(t) => {
                        let tv = chars_of(t.as_str());
                        let tt = crate::text::trim_exec(&tv);
                        Some(string_of(&tt))
                    },
                    None => None,
                },
            },
        }
    }
}

} // verus!
