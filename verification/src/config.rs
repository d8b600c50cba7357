//! Configuration: where the memory repository lives, which model to use and
//! the window sizes, resolved from environment values, a config file and
//! defaults; and the layout of files under the memory directory.

use vstd::prelude::*;
use crate::text::{
    append_chars, chars_eq, chars_of, decimal, decimal_exec, join, join_exec, lemma_join_split,
    lemma_split_concat, lemma_split_len,
    owned, parse_usize, slice_chars, parse_usize_spec, split, split_exec, string_of, trim, trim_exec, views,
};

verus! {

broadcast use vstd::string::group_string_axioms;

// ---------------------------------------------------------------------------
// Paths
// ---------------------------------------------------------------------------

/// `base.join(rel)` for Unix paths: an absolute `rel` replaces `base`;
/// otherwise a `/` is put between them unless `base` is empty or already
/// ends with one.
pub open spec fn path_join(base: Seq<char>, rel: Seq<char>) -> Seq<char> {
    if rel.len() > 0 && rel[0] == '/' {
        rel
    } else if base.len() == 0 || base.last() == '/' {
        base + rel
    } else {
        base + seq!['/'] + rel
    }
}

/// `base` joined with `rel` (see `path_join`).
pub fn join_path(base: &str, rel: &str) -> (r: String)
    ensures
        r@ == path_join(base@, rel@),
{
    let b = chars_of(base);
    let rv = chars_of(rel);
    if rv.len() > 0 && rv[0] == '/' {
        return owned(rel);
    }
    let mut out = owned(base);
    if !(b.len() == 0 || b[b.len() - 1] == '/') {
        let mut slash: Vec<char> = Vec::new();
        slash.push('/');
        append_chars(&mut out, &slash);
        assert(slash@ =~= seq!['/']);
    }
    append_chars(&mut out, &rv);
    out
}

/// A branch name with every character outside `[A-Za-z0-9_/-]` replaced by `-`.
pub open spec fn sanitized_branch(name: Seq<char>) -> Seq<char> {
    name.map_values(|c: char| if branch_char_ok(c) { c } else { '-' })
}

/// A character kept as it is in branch directory names.
pub open spec fn branch_char_ok(c: char) -> bool {
    ('a' <= c && c <= 'z') || ('A' <= c && c <= 'Z') || ('0' <= c && c <= '9') || c == '-' || c
        == '_' || c == '/'
}

/// Makes a branch name safe to use as a directory name.
pub fn sanitize_branch(name: &str) -> (r: String)
    ensures
        r@ == sanitized_branch(name@),
{
    let v = chars_of(name);
    let mut out: Vec<char> = Vec::new();
    let n = v.len();
    for i in 0..n
        invariant
            n == v.len(),
            v@ == name@,
            out@ == sanitized_branch(v@).take(i as int),
    {
        let c = v[i];
        let ok = ('a' <= c && c <= 'z') || ('A' <= c && c <= 'Z') || ('0' <= c && c <= '9') || c
            == '-' || c == '_' || c == '/';
        out.push(if ok { c } else { '-' });
        assert(out@ =~= sanitized_branch(v@).take(i + 1));
    }
    assert(out@ =~= sanitized_branch(v@));
    string_of(&out)
}

/// Sanitising a branch name twice gives the same as sanitising it once, and
/// the result holds only characters that sanitising keeps.
pub proof fn law_sanitize_branch_idempotent(name: Seq<char>)
    ensures
        sanitized_branch(sanitized_branch(name)) == sanitized_branch(name),
        forall|i: int|
            0 <= i < sanitized_branch(name).len() ==> branch_char_ok(
                #[trigger] sanitized_branch(name)[i],
            ),
        sanitized_branch(name).len() == name.len(),
{
    assert(sanitized_branch(sanitized_branch(name)) =~= sanitized_branch(name));
}

// ---------------------------------------------------------------------------
// Configuration
// ---------------------------------------------------------------------------

/// Settings read from a config file; every field may be missing.
#[derive(Debug, Clone, Default)]
pub struct ConfigFile {
    pub groq_api_key: Option<String>,
    pub groq_model: Option<String>,
    pub max_context_messages: Option<usize>,
    pub max_memory_messages: Option<usize>,
    pub compression_threshold: Option<usize>,
}

/// Raw values of the environment variables `GROQ_API_KEY`, `GROQ_MODEL`,
/// `GUAC_MAX_CONTEXT`, `GUAC_MAX_MEMORY` and `GUAC_COMPRESS_THRESHOLD`.
#[derive(Debug, Clone, Default)]
pub struct ConfigEnv {
    pub groq_api_key: Option<String>,
    pub groq_model: Option<String>,
    pub max_context: Option<String>,
    pub max_memory: Option<String>,
    pub compress_threshold: Option<String>,
}

/// The resolved configuration (its floating-point scoring weights and memory
/// threshold are kept by the program around this library).
#[derive(Debug, Clone)]
pub struct Config {
    pub base_dir: String,
    pub memory_dir: String,
    pub kg_dir: String,
    pub conversations_dir: String,
    pub characters_dir: String,
    pub groq_api_key: Option<String>,
    pub groq_model: String,
    pub max_context_messages: usize,
    pub max_memory_messages: usize,
    pub compression_threshold: usize,
}

pub open spec fn opt_view(o: Option<String>) -> Option<Seq<char>> {
    match o {
        Some(s) => Some(s@),
        None => None,
    }
}

/// The environment value if set, else the file value.
pub open spec fn env_or_file(env: Option<Seq<char>>, file: Option<Seq<char>>) -> Option<Seq<char>> {
    match env {
        Some(v) => Some(v),
        None => file,
    }
}

/// The environment value if it is set and parses as a `usize`, else the
/// file value.
pub open spec fn env_or_file_parse(env: Option<Seq<char>>, file: Option<usize>) -> Option<usize> {
    match env {
        Some(v) => match parse_usize_spec(v) {
            Some(n) => Some(n),
            None => file,
        },
        None => file,
    }
}

pub open spec fn default_model() -> Seq<char> {
    seq![
        'l', 'l', 'a', 'm', 'a', '-', '3', '.', '1', '-', '8', 'b', '-', 'i', 'n', 's', 't', 'a', 'n',
        't',
    ]
}

pub open spec fn memory_name() -> Seq<char> {
    seq!['m', 'e', 'm', 'o', 'r', 'y']
}

pub open spec fn kg_name() -> Seq<char> {
    seq!['k', 'g']
}

pub open spec fn conversations_name() -> Seq<char> {
    seq!['c', 'o', 'n', 'v', 'e', 'r', 's', 'a', 't', 'i', 'o', 'n', 's']
}

pub open spec fn characters_name() -> Seq<char> {
    seq!['c', 'h', 'a', 'r', 'a', 'c', 't', 'e', 'r', 's']
}

/// The API key in force: the environment's, else the file's, dropped when it
/// is blank.
pub open spec fn api_key_spec(env: Option<Seq<char>>, file: Option<Seq<char>>) -> Option<Seq<char>> {
    match env_or_file(env, file) {
        Some(k) => if trim(k).len() == 0 {
            None
        } else {
            Some(k)
        },
        None => None,
    }
}

fn unwrap_or_usize(o: Option<usize>, d: usize) -> (r: usize)
    ensures
        r == (match o {
            Some(v) => v,
            None => d,
        }),
{
    match o {
        Some(v) => v,
        None => d,
    }
}

fn env_or_file_parse_exec(env: &Option<String>, file: Option<usize>) -> (r: Option<usize>)
    ensures
        r == env_or_file_parse(opt_view(*env), file),
{
    match env {
        Some(v) => match parse_usize(v.as_str()) {
            Some(n) => Some(n),
            None => file,
        },
        None => file,
    }
}

fn env_or_file_exec(env: &Option<String>, file: &Option<String>) -> (r: Option<String>)
    ensures
        opt_view(r) == env_or_file(opt_view(*env), opt_view(*file)),
{
    match env {
        Some(v) => Some(v.clone()),
        None => match file {
            Some(v) => Some(v.clone()),
            None => None,
        },
    }
}

impl Config {
    /// Resolves the configuration for the base directory `base_dir`: each
    /// setting comes from the environment, else the config file, else its
    /// default; the memory directories sit under `base_dir/memory`.
    pub fn resolve(base_dir: &str, env: &ConfigEnv, file: &ConfigFile) -> (c: Config)
        ensures
            c.base_dir@ == base_dir@,
            c.memory_dir@ == path_join(base_dir@, memory_name()),
            c.kg_dir@ == path_join(c.memory_dir@, kg_name()),
            c.conversations_dir@ == path_join(c.memory_dir@, conversations_name()),
            c.characters_dir@ == path_join(c.memory_dir@, characters_name()),
            opt_view(c.groq_api_key) == api_key_spec(
                opt_view(env.groq_api_key),
                opt_view(file.groq_api_key),
            ),
            c.groq_model@ == (match env_or_file(
                opt_view(env.groq_model),
                opt_view(file.groq_model),
            ) {
                Some(m) => m,
                None => default_model(),
            }),
            c.max_context_messages == (match env_or_file_parse(
                opt_view(env.max_context),
                file.max_context_messages,
            ) {
                Some(n) => n,
                None => 10,
            }),
            c.max_memory_messages == (match env_or_file_parse(
                opt_view(env.max_memory),
                file.max_memory_messages,
            ) {
                Some(n) => n,
                None => 50,
            }),
            c.compression_threshold == (match env_or_file_parse(
                opt_view(env.compress_threshold),
                file.compression_threshold,
            ) {
                Some(n) => n,
                None => 20,
            }),
    {
        proof {
            reveal_strlit("memory");
            reveal_strlit("kg");
            reveal_strlit("conversations");
            reveal_strlit("characters");
            reveal_strlit("llama-3.1-8b-instant");
        }
        let memory_dir = join_path(base_dir, "memory");
        let kg_dir = join_path(memory_dir.as_str(), "kg");
        let conversations_dir = join_path(memory_dir.as_str(), "conversations");
        let characters_dir = join_path(memory_dir.as_str(), "characters");
        assert("memory"@ =~= memory_name());
        assert("kg"@ =~= kg_name());
        assert("conversations"@ =~= conversations_name());
        assert("characters"@ =~= characters_name());
        assert("llama-3.1-8b-instant"@ =~= default_model());

        let key = env_or_file_exec(&env.groq_api_key, &file.groq_api_key);
        let groq_api_key = match key {
            Some(k) => {
                let kv = chars_of(k.as_str());
                let t = trim_exec(&kv);
                if t.len() == 0 {
                    None
                } else {
                    Some(k)
                }
            },
            None => None,
        };
        let groq_model = match env_or_file_exec(&env.groq_model, &file.groq_model) {
            Some(m) => m,
            None => owned("llama-3.1-8b-instant"),
        };
        Config {
            base_dir: owned(base_dir),
            memory_dir,
            kg_dir,
            conversations_dir,
            characters_dir,
            groq_api_key,
            groq_model,
            max_context_messages: unwrap_or_usize(
                env_or_file_parse_exec(&env.max_context, file.max_context_messages),
                10,
            ),
            max_memory_messages: unwrap_or_usize(
                env_or_file_parse_exec(&env.max_memory, file.max_memory_messages),
                50,
            ),
            compression_threshold: unwrap_or_usize(
                env_or_file_parse_exec(&env.compress_threshold, file.compression_threshold),
                20,
            ),
        }
    }

    /// The four directories that must exist, in the order they are created.
    pub fn dirs(&self) -> (r: Vec<String>)
        ensures
            r.len() == 4,
            r[0] == self.memory_dir,
            r[1] == self.kg_dir,
            r[2] == self.conversations_dir,
            r[3] == self.characters_dir,
    {
        let mut r = Vec::new();
        r.push(self.memory_dir.clone());
        r.push(self.kg_dir.clone());
        r.push(self.conversations_dir.clone());
        r.push(self.characters_dir.clone());
        r
    }

    /// `conversations/<sanitized branch>/chat.yaml`.
    pub fn conversation_path(&self, branch: &str) -> (r: String)
        ensures
            r@ == path_join(
                path_join(self.conversations_dir@, sanitized_branch(branch@)),
                chat_file(),
            ),
    {
        let b = sanitize_branch(branch);
        let dir = join_path(self.conversations_dir.as_str(), b.as_str());
        proof {
            reveal_strlit("chat.yaml");
        }
        assert("chat.yaml"@ =~= chat_file());
        join_path(dir.as_str(), "chat.yaml")
    }

    /// `characters/<name>/core.yaml`.
    pub fn character_core_path(&self, name: &str) -> (r: String)
        ensures
            r@ == path_join(path_join(self.characters_dir@, name@), core_file()),
    {
        let dir = join_path(self.characters_dir.as_str(), name);
        proof {
            reveal_strlit("core.yaml");
        }
        assert("core.yaml"@ =~= core_file());
        join_path(dir.as_str(), "core.yaml")
    }

    /// `characters/<name>/memory.yaml`.
    pub fn character_memory_path(&self, name: &str) -> (r: String)
        ensures
            r@ == path_join(path_join(self.characters_dir@, name@), memory_file()),
    {
        let dir = join_path(self.characters_dir.as_str(), name);
        proof {
            reveal_strlit("memory.yaml");
        }
        assert("memory.yaml"@ =~= memory_file());
        join_path(dir.as_str(), "memory.yaml")
    }

    /// `conversations/<sanitized branch>/summary-L<level>.yaml`.
    pub fn summary_path(&self, branch: &str, level: u32) -> (r: String)
        ensures
            r@ == path_join(
                path_join(self.conversations_dir@, sanitized_branch(branch@)),
                summary_file(level as nat),
            ),
    {
        let b = sanitize_branch(branch);
        let dir = join_path(self.conversations_dir.as_str(), b.as_str());
        let mut name = owned("summary-L");
        let digits = decimal_exec(level as u64);
        append_chars(&mut name, &digits);
        name.append(".yaml");
        proof {
            reveal_strlit("summary-L");
            reveal_strlit(".yaml");
        }
        assert(name@ =~= summary_file(level as nat));
        join_path(dir.as_str(), name.as_str())
    }
}

pub open spec fn chat_file() -> Seq<char> {
    seq!['c', 'h', 'a', 't', '.', 'y', 'a', 'm', 'l']
}

pub open spec fn core_file() -> Seq<char> {
    seq!['c', 'o', 'r', 'e', '.', 'y', 'a', 'm', 'l']
}

pub open spec fn memory_file() -> Seq<char> {
    seq!['m', 'e', 'm', 'o', 'r', 'y', '.', 'y', 'a', 'm', 'l']
}

/// `summary-L<level>.yaml`.
pub open spec fn summary_file(level: nat) -> Seq<char> {
    seq!['s', 'u', 'm', 'm', 'a', 'r', 'y', '-', 'L'] + decimal(level) + seq![
        '.',
        'y',
        'a',
        'm',
        'l',
    ]
}


// ---------------------------------------------------------------------------
// Stripping the memory directory off a path
// ---------------------------------------------------------------------------

/// A path segment that names no component: empty (repeated or trailing
/// separators) or `.` inside the path.
pub open spec fn skippable(seg: Seq<char>) -> bool {
    seg.len() == 0 || seg == seq!['.']
}

/// How a Unix path starts: at the root, at `.`, or with a plain component.
pub enum PathStart {
    Root,
    Cur,
    Plain,
}

pub open spec fn path_start(p: Seq<char>) -> PathStart {
    if p.len() > 0 && p[0] == '/' {
        PathStart::Root
    } else if split(p, '/')[0] == seq!['.'] {
        PathStart::Cur
    } else {
        PathStart::Plain
    }
}

/// The segments after the starting component.
pub open spec fn path_body(p: Seq<char>) -> Seq<Seq<char>> {
    match path_start(p) {
        PathStart::Plain => split(p, '/'),
        _ => split(p, '/').drop_first(),
    }
}

/// Matching the components of `bs[j..]` against those of `ps[i..]`
/// (skipping empty and `.` segments on both sides): where the rest of `ps`
/// begins when every component of `bs` matched, nothing otherwise.
pub open spec fn strip_from(ps: Seq<Seq<char>>, bs: Seq<Seq<char>>, i: int, j: int) -> Option<int>
    decreases ps.len() - i + bs.len() - j,
{
    if i < 0 || j < 0 || i > ps.len() || j > bs.len() {
        None
    } else if j < bs.len() && skippable(bs[j]) {
        strip_from(ps, bs, i, j + 1)
    } else if j == bs.len() {
        Some(i)
    } else if i < ps.len() && skippable(ps[i]) {
        strip_from(ps, bs, i + 1, j)
    } else if i == ps.len() {
        None
    } else if ps[i] == bs[j] {
        strip_from(ps, bs, i + 1, j + 1)
    } else {
        None
    }
}

/// `bs` holds a component.
pub open spec fn has_component(bs: Seq<Seq<char>>) -> bool {
    exists|k: int| 0 <= k < bs.len() && !skippable(#[trigger] bs[k])
}

/// The index of the first segment that is not skippable, or the length.
pub open spec fn first_kept(s: Seq<Seq<char>>, i: int) -> int
    decreases s.len() - i,
{
    if i < 0 || i >= s.len() || !skippable(s[i]) {
        i
    } else {
        first_kept(s, i + 1)
    }
}

/// One past the index of the last segment that is not skippable, or `lo`.
pub open spec fn last_kept(s: Seq<Seq<char>>, lo: int, hi: int) -> int
    decreases hi - lo,
{
    if hi <= lo || !skippable(s[hi - 1]) {
        hi
    } else {
        last_kept(s, lo, hi - 1)
    }
}

/// `path.strip_prefix(memory_dir).unwrap_or(path)` for Unix paths, as text
/// (`relative_to_memory`): when the components of `dir` are a prefix of
/// those of `path`, the rest of `path` with empty and `.` segments trimmed
/// from its ends; otherwise `path` unchanged.
pub open spec fn relative_path(dir: Seq<char>, path: Seq<char>) -> Seq<char> {
    let ps = path_body(path);
    let bs = path_body(dir);
    let same_start = path_start(path) == path_start(dir);
    if same_start && (path_start(path) != PathStart::Plain || has_component(bs)) {
        match strip_from(ps, bs, 0, 0) {
            Some(i) => {
                let a = first_kept(ps, i);
                join(ps.subrange(a, last_kept(ps, a, ps.len() as int)), seq!['/'])
            },
            None => path,
        }
    } else if !has_component(bs) && path_start(dir) == PathStart::Plain {
        let e = last_kept(ps, 0, ps.len() as int);
        match path_start(path) {
            PathStart::Root => seq!['/'] + join(ps.take(e), seq!['/']),
            PathStart::Cur => if e == 0 {
                seq!['.']
            } else {
                seq!['.', '/'] + join(ps.take(e), seq!['/'])
            },
            PathStart::Plain => join(ps.take(e), seq!['/']),
        }
    } else {
        path
    }
}

/// An accepted branch name keeps its files inside the conversations
/// directory: the sanitised name is relative and holds no `.` at all (so no
/// `..` segment), and a file of the branch directory (such as `chat.yaml`
/// or `summary-L1.yaml`) lies below `dir`.
pub proof fn law_valid_branch_stays_inside(dir: Seq<char>, name: Seq<char>, file: Seq<char>)
    requires
        crate::validation::branch_error(name) is None,
        !(file.len() > 0 && file[0] == '/'),
    ensures
        sanitized_branch(name).len() > 0 && sanitized_branch(name)[0] != '/',
        !sanitized_branch(name).contains('.'),
        crate::text::starts_with(path_join(path_join(dir, sanitized_branch(name)), file), dir),
{
    let b = sanitized_branch(name);
    assert(name[0] != '/' && name[0] != '-');
    assert(b[0] != '/');
    if b.contains('.') {
        let k = choose|k: int| 0 <= k < b.len() && b[k] == '.';
        assert(b[k] == (if branch_char_ok(name[k]) { name[k] } else { '-' }));
    }
    let inner = path_join(dir, b);
    assert(inner.take(dir.len() as int) =~= dir);
    let outer = path_join(inner, file);
    assert(outer.take(inner.len() as int) =~= inner);
    assert(outer.take(dir.len() as int) =~= dir);
}

/// Every segment names a component: none is empty or `.`.
pub open spec fn all_components(segs: Seq<Seq<char>>) -> bool {
    forall|k: int| 0 <= k < segs.len() ==> !skippable(#[trigger] segs[k])
}

proof fn lemma_strip_matching(ps: Seq<Seq<char>>, bs: Seq<Seq<char>>, j: int)
    requires
        0 <= j <= bs.len() <= ps.len(),
        ps.take(bs.len() as int) == bs,
        all_components(bs),
    ensures
        strip_from(ps, bs, j, j) == Some(bs.len() as int),
    decreases bs.len() - j,
{
    if j < bs.len() {
        assert(ps[j] == ps.take(bs.len() as int)[j]);
        assert(!skippable(bs[j]));
        lemma_strip_matching(ps, bs, j + 1);
    }
}

/// A text whose split segments all name components neither starts nor ends
/// with a slash, and is not empty.
proof fn lemma_component_text(t: Seq<char>)
    requires
        all_components(split(t, '/')),
    ensures
        t.len() > 0,
        t[0] != '/',
        t.last() != '/',
{
    lemma_split_len(t, '/');
    if t.len() == 0 {
        assert(split(t, '/') == seq![Seq::<char>::empty()]);
        assert(skippable(split(t, '/')[0]));
    } else {
        if t[0] == '/' {
            let rest = t.drop_first();
            assert(t =~= Seq::<char>::empty() + seq!['/'] + rest);
            lemma_split_concat(Seq::<char>::empty(), rest, '/');
            assert(split(t, '/')[0] == Seq::<char>::empty());
            assert(skippable(split(t, '/')[0]));
        }
        if t.last() == '/' {
            let front = t.drop_last();
            assert(t =~= front + seq!['/'] + Seq::<char>::empty());
            lemma_split_concat(front, Seq::<char>::empty(), '/');
            lemma_split_len(front, '/');
            let k = split(t, '/').len() - 1;
            assert(split(t, '/')[k] == Seq::<char>::empty());
            assert(skippable(split(t, '/')[k]));
        }
    }
}

/// What joining builds, stripping takes apart: for an absolute directory
/// `/d` and a relative path `rel`, both made of proper components (no empty
/// or `.` segments), the path of `rel` below `/d`, taken relative to `/d`,
/// is `rel` again.
pub proof fn law_relative_undoes_join(d: Seq<char>, rel: Seq<char>)
    requires
        all_components(split(d, '/')),
        all_components(split(rel, '/')),
    ensures
        relative_path(seq!['/'] + d, path_join(seq!['/'] + d, rel)) == rel,
{
    lemma_component_text(d);
    lemma_component_text(rel);
    lemma_split_len(rel, '/');
    let dir = seq!['/'] + d;
    let path = path_join(dir, rel);
    assert(dir.last() == d.last());
    assert(path == dir + seq!['/'] + rel);
    let inner = d + seq!['/'] + rel;
    assert(dir =~= Seq::<char>::empty() + seq!['/'] + d);
    assert(path =~= Seq::<char>::empty() + seq!['/'] + inner);
    lemma_split_concat(Seq::<char>::empty(), d, '/');
    lemma_split_concat(Seq::<char>::empty(), inner, '/');
    lemma_split_concat(d, rel, '/');
    let empty_split = split(Seq::<char>::empty(), '/');
    assert(empty_split == seq![Seq::<char>::empty()]);
    let bs = split(d, '/');
    let rs = split(rel, '/');
    let ps = bs + rs;
    assert(split(dir, '/') == empty_split + bs);
    assert(split(path, '/') == empty_split + ps);
    assert(path_start(dir) == PathStart::Root);
    assert(path_start(path) == PathStart::Root);
    assert(path_body(dir) =~= bs);
    assert(path_body(path) =~= ps);
    assert(ps.take(bs.len() as int) =~= bs);
    lemma_strip_matching(ps, bs, 0);
    let i = bs.len() as int;
    assert(ps[i] == rs[0]);
    assert(!skippable(rs[0]));
    assert(first_kept(ps, i) == i);
    assert(ps[ps.len() - 1] == rs[rs.len() - 1]);
    assert(!skippable(rs[rs.len() - 1]));
    assert(last_kept(ps, i, ps.len() as int) == ps.len());
    assert(ps.subrange(i, ps.len() as int) =~= rs);
    lemma_join_split(rel, '/');
}

fn is_skippable(seg: &Vec<char>) -> (r: bool)
    ensures
        r == skippable(seg@),
{
    let r = seg.len() == 0 || (seg.len() == 1 && seg[0] == '.');
    proof {
        if seg.len() == 1 && seg[0] == '.' {
            assert(seg@ =~= seq!['.']);
        }
        if seg@ == seq!['.'] {
            assert(seg@.len() == 1 && seg@[0] == '.');
        }
    }
    r
}

/// The start of a path and its body segments.
fn path_parts(p: &Vec<char>) -> (r: (u8, Vec<Vec<char>>))
    ensures
        r.0 == 0 <==> path_start(p@) == PathStart::Root,
        r.0 == 1 <==> path_start(p@) == PathStart::Cur,
        r.0 == 2 <==> path_start(p@) == PathStart::Plain,
        views(r.1@) == path_body(p@),
{
    let segs = split_exec(p, '/');
    proof {
        lemma_split_len(p@, '/');
    }
    let root = p.len() > 0 && p[0] == '/';
    let first = &segs[0];
    let cur = first.len() == 1 && first[0] == '.';
    proof {
        if cur {
            assert(first@ =~= seq!['.']);
        }
        if views(segs@)[0] == seq!['.'] {
            assert(first@.len() == 1 && first@[0] == '.');
        }
    }
    if root || cur {
        let mut body: Vec<Vec<char>> = Vec::new();
        let n = segs.len();
        for k in 1..n
            invariant
                n == segs.len(),
                n >= 1,
                views(body@) == views(segs@).subrange(1, k as int),
        {
            let seg = slice_chars(&segs[k], 0, segs[k].len());
            let ghost before = views(body@);
            body.push(seg);
            assert(segs[k as int]@.subrange(0, segs[k as int]@.len() as int) =~= segs[k as int]@);
            assert(views(body@) =~= before.push(segs[k as int]@));
            assert(views(segs@).subrange(1, k + 1) =~= views(segs@).subrange(1, k as int).push(
                segs[k as int]@,
            ));
        }
        assert(views(segs@).subrange(1, n as int) =~= views(segs@).drop_first());
        (if root { 0 } else { 1 }, body)
    } else {
        (2, segs)
    }
}

fn has_component_exec(bs: &Vec<Vec<char>>) -> (r: bool)
    ensures
        r == has_component(views(bs@)),
{
    let n = bs.len();
    for k in 0..n
        invariant
            n == bs.len(),
            forall|q: int| 0 <= q < k ==> skippable(#[trigger] views(bs@)[q]),
    {
        if !is_skippable(&bs[k]) {
            assert(!skippable(views(bs@)[k as int]));
            return true;
        }
    }
    false
}

fn strip_exec(ps: &Vec<Vec<char>>, bs: &Vec<Vec<char>>) -> (r: Option<usize>)
    ensures
        match r {
            Some(i) => strip_from(views(ps@), views(bs@), 0, 0) == Some(i as int) && i <= ps.len(),
            None => strip_from(views(ps@), views(bs@), 0, 0) is None,
        },
{
    let ghost pv = views(ps@);
    let ghost bv = views(bs@);
    let mut i: usize = 0;
    let mut j: usize = 0;
    loop
        invariant
            i <= ps.len(),
            j <= bs.len(),
            pv == views(ps@),
            bv == views(bs@),
            strip_from(pv, bv, 0, 0) == strip_from(pv, bv, i as int, j as int),
        decreases ps.len() - i + bs.len() - j,
    {
        if j < bs.len() && is_skippable(&bs[j]) {
            j = j + 1;
        } else if j == bs.len() {
            return Some(i);
        } else if i < ps.len() && is_skippable(&ps[i]) {
            i = i + 1;
        } else if i == ps.len() {
            return None;
        } else if chars_eq(&ps[i], &bs[j]) {
            i = i + 1;
            j = j + 1;
        } else {
            return None;
        }
    }
}

fn first_kept_exec(s: &Vec<Vec<char>>, i: usize) -> (r: usize)
    requires
        i <= s.len(),
    ensures
        r as int == first_kept(views(s@), i as int),
        i <= r <= s.len(),
{
    let mut k = i;
    while k < s.len() && is_skippable(&s[k])
        invariant
            i <= k <= s.len(),
            first_kept(views(s@), i as int) == first_kept(views(s@), k as int),
        decreases s.len() - k,
    {
        k = k + 1;
    }
    k
}

fn last_kept_exec(s: &Vec<Vec<char>>, lo: usize) -> (r: usize)
    requires
        lo <= s.len(),
    ensures
        r as int == last_kept(views(s@), lo as int, s.len() as int),
        lo <= r <= s.len(),
{
    let mut k = s.len();
    while k > lo && is_skippable(&s[k - 1])
        invariant
            lo <= k <= s.len(),
            last_kept(views(s@), lo as int, s.len() as int) == last_kept(
                views(s@),
                lo as int,
                k as int,
            ),
        decreases k - lo,
    {
        k = k - 1;
    }
    k
}

fn sub_segments(s: &Vec<Vec<char>>, a: usize, b: usize) -> (r: Vec<Vec<char>>)
    requires
        a <= b <= s.len(),
    ensures
        views(r@) == views(s@).subrange(a as int, b as int),
{
    let mut r: Vec<Vec<char>> = Vec::new();
    let mut k = a;
    while k < b
        invariant
            a <= k <= b <= s.len(),
            views(r@) == views(s@).subrange(a as int, k as int),
        decreases b - k,
    {
        let seg = slice_chars(&s[k], 0, s[k].len());
        let ghost before = views(r@);
        r.push(seg);
        assert(s[k as int]@.subrange(0, s[k as int]@.len() as int) =~= s[k as int]@);
        assert(views(r@) =~= before.push(s[k as int]@));
        assert(views(s@).subrange(a as int, k + 1) =~= views(s@).subrange(a as int, k as int).push(
            s[k as int]@,
        ));
        k = k + 1;
    }
    r
}

/// `path` relative to the memory directory when it lies below it, else
/// `path` itself (see `relative_path`).
pub fn relative_to_memory(memory_dir: &str, path: &str) -> (r: String)
    ensures
        r@ == relative_path(memory_dir@, path@),
{
    let pv = chars_of(path);
    let dv = chars_of(memory_dir);
    let (pstart, ps) = path_parts(&pv);
    let (dstart, bs) = path_parts(&dv);
    let mut slash: Vec<char> = Vec::new();
    slash.push('/');
    assert(slash@ =~= seq!['/']);
    let bs_has = has_component_exec(&bs);
    if pstart == dstart && (pstart != 2 || bs_has) {
        match strip_exec(&ps, &bs) {
            Some(i) => {
                let a = first_kept_exec(&ps, i);
                let e = last_kept_exec_from(&ps, a);
                let rest = sub_segments(&ps, a, e);
                let joined = join_exec(&rest, &slash);
                string_of(&joined)
            },
            None => path.to_owned(),
        }
    } else if !bs_has && dstart == 2 {
        let e = last_kept_exec(&ps, 0);
        let kept = sub_segments(&ps, 0, e);
        let joined = join_exec(&kept, &slash);
        assert(views(ps@).subrange(0, e as int) =~= views(ps@).take(e as int));
        if pstart == 0 {
            let mut out: Vec<char> = Vec::new();
            out.push('/');
            let mut r = string_of(&out);
            append_chars(&mut r, &joined);
            assert(out@ =~= seq!['/']);
            r
        } else if pstart == 1 {
            let mut out: Vec<char> = Vec::new();
            out.push('.');
            if e == 0 {
                assert(out@ =~= seq!['.']);
                string_of(&out)
            } else {
                out.push('/');
                assert(out@ =~= seq!['.', '/']);
                let mut r = string_of(&out);
                append_chars(&mut r, &joined);
                r
            }
        } else {
            string_of(&joined)
        }
    } else {
        path.to_owned()
    }
}

fn last_kept_exec_from(s: &Vec<Vec<char>>, lo: usize) -> (r: usize)
    requires
        lo <= s.len(),
    ensures
        r as int == last_kept(views(s@), lo as int, s.len() as int),
        lo <= r <= s.len(),
{
    last_kept_exec(s, lo)
}

} // verus!
