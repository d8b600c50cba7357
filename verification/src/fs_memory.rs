//! Addressing memory as a filesystem: `/memory/projects/firebac` names a
//! path under the memory directory and a dot-path in the knowledge graph.

use vstd::prelude::*;
use crate::config::{join_path, path_join, Config};
use crate::text::{
    chars_of, is_char, join, join_exec, slice_chars, split, starts_with, starts_with_exec,
    string_of, string_views, trim_char, trim_char_bounds, trim_end_by, trim_start_by, views,
};
use crate::validation::{
    address_error, address_relative, address_relative_exec, dot_dot, memory_prefix, memory_word,
};

verus! {

broadcast use vstd::string::group_string_axioms;

/// Memory addressed by paths below the memory directory of a configuration.
pub struct FsMemory<'a> {
    config: &'a Config,
}

impl<'a> FsMemory<'a> {
    pub fn new(config: &'a Config) -> (f: FsMemory<'a>)
        ensures
            f.config() == config,
    {
        FsMemory { config }
    }

    pub closed spec fn config(&self) -> &'a Config {
        self.config
    }

    /// The filesystem path an address names: the address below the memory
    /// root (see `address_relative`) joined to the memory directory.
    pub fn resolve(&self, address: &str) -> (r: String)
        ensures
            r@ == path_join(self.config().memory_dir@, address_relative(address@)),
    {
        let v = chars_of(address);
        let rel = address_relative_exec(&v);
        let rs = string_of(&rel);
        join_path(self.config.memory_dir.as_str(), rs.as_str())
    }
}

/// The knowledge-graph path of an address: slashes trimmed from both ends, a
/// leading `memory/` dropped, the remaining slashes turned into dots.
pub open spec fn kg_path_of(address: Seq<char>) -> Seq<char> {
    let t = trim_char(address, '/');
    let rest = if starts_with(t, memory_prefix()) {
        t.skip(7)
    } else {
        t
    };
    rest.map_values(|c: char| if c == '/' { '.' } else { c })
}

/// The knowledge-graph path of an address (see `kg_path_of`).
pub fn address_to_kg_path(address: &str) -> (r: String)
    ensures
        r@ == kg_path_of(address@),
{
    let v = chars_of(address);
    let (a, b) = trim_char_bounds(&v, '/');
    let t = slice_chars(&v, a, b);
    let prefix = chars_of("memory/");
    proof {
        reveal_strlit("memory/");
    }
    assert(prefix@ =~= memory_prefix());
    let rest = if starts_with_exec(&t, &prefix) {
        let r = slice_chars(&t, 7, t.len());
        assert(r@ =~= t@.skip(7));
        r
    } else {
        t
    };
    let mut out: Vec<char> = Vec::new();
    let n = rest.len();
    for i in 0..n
        invariant
            n == rest.len(),
            out@ == rest@.take(i as int).map_values(|c: char| if c == '/' { '.' } else { c }),
    {
        let c = rest[i];
        out.push(if c == '/' { '.' } else { c });
        assert(out@ =~= rest@.take(i + 1).map_values(|c: char| if c == '/' { '.' } else { c }));
    }
    assert(rest@.take(n as int) =~= rest@);
    string_of(&out)
}

/// An address turned into a knowledge-graph path holds no slash.
pub proof fn law_kg_path_has_no_slash(address: Seq<char>)
    ensures
        forall|i: int| 0 <= i < kg_path_of(address).len() ==> kg_path_of(address)[i] != '/',
{
}

/// An address names the same place with or without a leading `/memory/`
/// and surrounding slashes: for a relative address `r` that neither starts
/// nor ends with a slash and does not itself begin with the memory root,
/// both `/memory/r/` and `r` lie at `r` below the memory directory (and so
/// resolve to the same path).
pub proof fn law_memory_root_optional(r: Seq<char>)
    requires
        r.len() > 0 ==> r[0] != '/' && r.last() != '/',
        r != memory_word(),
        !starts_with(r, memory_prefix()),
    ensures
        address_relative(seq!['/'] + memory_prefix() + r + seq!['/']) == r,
        address_relative(r) == r,
{
    let p = is_char('/');
    let a = seq!['/'] + memory_prefix() + r + seq!['/'];
    let inner = memory_prefix() + r + seq!['/'];
    assert(a.drop_first() =~= inner);
    assert(!p(inner[0]));
    assert(trim_start_by(inner, p) == inner);
    assert(trim_start_by(a, p) == inner);
    let body = memory_prefix() + r;
    assert(inner.drop_last() =~= body);
    if r.len() == 0 {
        assert(body.drop_last() =~= memory_word());
        assert(!p(memory_word().last()));
        assert(trim_end_by(memory_word(), p) == memory_word());
        assert(trim_end_by(body, p) == memory_word());
        assert(trim_end_by(inner, p) == memory_word());
        assert(trim_char(r, '/') =~= r);
    } else {
        assert(body.last() == r.last());
        assert(trim_end_by(body, p) == body);
        assert(trim_end_by(inner, p) == body);
        assert(trim_char(a, '/') == body);
        assert(body != memory_word()) by {
            assert(body.len() > memory_word().len());
        }
        assert(body.take(7) =~= memory_prefix());
        assert(body.skip(7) =~= r);
        assert(trim_start_by(r, p) == r);
        assert(trim_end_by(r, p) == r);
    }
}

/// An accepted address cannot climb out of the memory directory: the part
/// below the memory root is relative and has no `..` segment, and the path
/// it resolves to (`FsMemory::resolve`) begins with the memory directory.
pub proof fn law_accepted_address_stays_inside(memory_dir: Seq<char>, address: Seq<char>)
    requires
        address_error(address) is None,
    ensures
        !(address_relative(address).len() > 0 && address_relative(address)[0] == '/'),
        forall|i: int|
            0 <= i < split(address_relative(address), '/').len() ==> #[trigger] split(
                address_relative(address),
                '/',
            )[i] != dot_dot(),
        starts_with(path_join(memory_dir, address_relative(address)), memory_dir),
{
    let rel = address_relative(address);
    let p = path_join(memory_dir, rel);
    assert(p.take(memory_dir.len() as int) =~= memory_dir);
}

// ---------------------------------------------------------------------------
// Directory listings
// ---------------------------------------------------------------------------

/// `a` sorts before or equal to `b`: lexicographic order by code point,
/// which is the byte order `String` compares by.
pub open spec fn lex_le(a: Seq<char>, b: Seq<char>) -> bool
    decreases a.len(),
{
    if a.len() == 0 {
        true
    } else if b.len() == 0 {
        false
    } else if a[0] != b[0] {
        a[0] < b[0]
    } else {
        lex_le(a.drop_first(), b.drop_first())
    }
}

pub proof fn lemma_lex_total(a: Seq<char>, b: Seq<char>)
    ensures
        lex_le(a, b) || lex_le(b, a),
    decreases a.len(),
{
    if a.len() > 0 && b.len() > 0 {
        if a[0] == b[0] {
            lemma_lex_total(a.drop_first(), b.drop_first());
        }
    }
}

pub proof fn lemma_lex_trans(a: Seq<char>, b: Seq<char>, c: Seq<char>)
    requires
        lex_le(a, b),
        lex_le(b, c),
    ensures
        lex_le(a, c),
    decreases a.len(),
{
    if a.len() > 0 && b.len() > 0 && c.len() > 0 && a[0] == b[0] && b[0] == c[0] {
        lemma_lex_trans(a.drop_first(), b.drop_first(), c.drop_first());
    }
}

/// Whether `a` sorts before or equal to `b`.
fn lex_le_exec(a: &Vec<char>, b: &Vec<char>) -> (r: bool)
    ensures
        r == lex_le(a@, b@),
{
    let mut i: usize = 0;
    assert(a@.skip(0) =~= a@);
    assert(b@.skip(0) =~= b@);
    while i < a.len() && i < b.len() && a[i] == b[i]
        invariant
            i <= a.len(),
            i <= b.len(),
            lex_le(a@, b@) == lex_le(a@.skip(i as int), b@.skip(i as int)),
        decreases a.len() - i,
    {
        assert(a@.skip(i as int).drop_first() =~= a@.skip(i + 1));
        assert(b@.skip(i as int).drop_first() =~= b@.skip(i + 1));
        i = i + 1;
    }
    if i == a.len() {
        true
    } else if i == b.len() {
        false
    } else {
        a[i] < b[i]
    }
}

proof fn lemma_empty_multiset(s: Seq<Seq<char>>)
    requires
        s.len() == 0,
    ensures
        s.to_multiset() =~= vstd::multiset::Multiset::<Seq<char>>::empty(),
{
    broadcast use {vstd::seq_lib::group_seq_properties, vstd::multiset::group_multiset_axioms};

    assert forall|a: Seq<char>| s.to_multiset().count(a) == 0 by {
        assert(!s.contains(a));
        s.to_multiset_ensures();
    }
}

/// The sequence is in order.
pub open spec fn sorted(s: Seq<Seq<char>>) -> bool {
    forall|i: int, j: int| 0 <= i < j < s.len() ==> lex_le(s[i], s[j])
}

/// The entries in sorted order (what `Vec::sort` leaves).
pub fn sort_entries(entries: Vec<String>) -> (r: Vec<String>)
    ensures
        sorted(string_views(r@)),
        string_views(r@).to_multiset() == string_views(entries@).to_multiset(),
{
    let mut out: Vec<String> = Vec::new();
    let mut rest = entries;
    let ghost all = string_views(entries@);
    assert(string_views(rest@) =~= all);
    assert(string_views(out@) =~= Seq::<Seq<char>>::empty());
    proof {
        lemma_empty_multiset(string_views(out@));
        assert(vstd::multiset::Multiset::<Seq<char>>::empty().add(all.to_multiset())
            =~= all.to_multiset()) by {
            broadcast use vstd::multiset::group_multiset_axioms;
        }
    }
    while rest.len() > 0
        invariant
            sorted(string_views(out@)),
            string_views(out@).to_multiset().add(string_views(rest@).to_multiset())
                == all.to_multiset(),
        decreases rest.len(),
    {
        let ghost rv = string_views(rest@);
        let x = rest.pop().unwrap();
        let xv = chars_of(x.as_str());
        assert(rv =~= string_views(rest@).push(x@));
        let mut k: usize = out.len();
        let ghost ov0 = string_views(out@);
        while k > 0 && !lex_le_exec(&chars_of(out[k - 1].as_str()), &xv)
            invariant
                k <= out.len(),
                xv@ == x@,
                ov0 == string_views(out@),
                forall|j: int| k <= j < out.len() ==> !lex_le(ov0[j], x@),
            decreases k,
        {
            assert(ov0[k - 1] == out@[k - 1]@);
            k = k - 1;
        }
        assert(k > 0 ==> ov0[k - 1] == out@[k - 1]@);
        let ghost ov = string_views(out@);
        let ghost rest_v = string_views(rest@);
        out.insert(k, x);
        proof {
            let nv = string_views(out@);
            assert(nv =~= ov.insert(k as int, x@));
            assert forall|i: int, j: int| 0 <= i < j < nv.len() implies lex_le(nv[i], nv[j]) by {
                if j == k {
                    if i < k - 1 {
                        lemma_lex_trans(ov[i], ov[k - 1], x@);
                    }
                } else if i == k {
                    lemma_lex_total(x@, ov[j - 1]);
                } else if i < k && j > k {
                    assert(nv[j] == ov[j - 1]);
                } else if j < k {
                } else {
                    assert(nv[i] == ov[i - 1] && nv[j] == ov[j - 1]);
                }
            }
            assert(rv.to_multiset() =~= rest_v.to_multiset().insert(x@)) by {
                broadcast use vstd::seq_lib::to_multiset_build;
            }
            assert(nv.to_multiset() =~= ov.to_multiset().insert(x@)) by {
                broadcast use vstd::seq_lib::to_multiset_insert;
            }
            assert(nv.to_multiset().add(rest_v.to_multiset()) =~= ov.to_multiset().add(
                rv.to_multiset(),
            )) by {
                broadcast use vstd::multiset::group_multiset_axioms;
            }
        }
    }
    proof {
        lemma_empty_multiset(string_views(rest@));
    }
    assert(string_views(out@).to_multiset().add(vstd::multiset::Multiset::empty())
        =~= string_views(out@).to_multiset()) by {
        broadcast use vstd::multiset::group_multiset_axioms;
    }
    out
}

} // verus!
