//! Conversation memory: messages and their scores, the recent window, the
//! word sets used for scoring, commit messages, and the protocol by which
//! memory changes are committed to the git repository.

use vstd::prelude::*;
use crate::config::relative_path;
use crate::config::relative_to_memory;
use crate::text::{
    alphanumeric_char, append_chars, chars_eq, chars_of, decimal, decimal_exec, join, join_exec,
    lines, lines_exec, owned, str_eq, string_of, string_views, to_lowercase, trim, trim_exec,
    unicode_alphanumeric, unicode_lowercase, views,
};
use crate::validation::{sanitize_commit_message, sanitized};

verus! {

broadcast use vstd::string::group_string_axioms;

// ---------------------------------------------------------------------------
// Messages and conversations
// ---------------------------------------------------------------------------

/// The four scores of a message, each held as the IEEE-754 bit pattern of
/// the `f64` it stands for (`f64::to_bits`).
#[derive(Debug, Clone, Copy, PartialEq, Eq, Structural)]
pub struct MemoryScores {
    pub importance: u64,
    pub novelty: u64,
    pub recency: u64,
    pub repetition: u64,
}

/// One message of a conversation.
#[derive(Debug)]
pub struct Message {
    pub role: String,
    pub content: String,
    /// Seconds since the Unix epoch.
    pub timestamp: i64,
    pub scores: MemoryScores,
    pub summary: Option<String>,
}

/// The messages of one branch, oldest first.
#[derive(Debug)]
pub struct Conversation {
    pub branch: String,
    pub messages: Vec<Message>,
}

impl Message {
    /// An identical message.
    pub fn copy(&self) -> (r: Message)
        ensures
            r == *self,
    {
        Message {
            role: self.role.clone(),
            content: self.content.clone(),
            timestamp: self.timestamp,
            scores: self.scores,
            summary: match &self.summary {
                Some(s) => Some(s.clone()),
                None => None,
            },
        }
    }
}

/// Identical copies of the messages.
pub fn copy_messages(ms: &[Message]) -> (r: Vec<Message>)
    ensures
        r@ == ms@,
{
    let mut r: Vec<Message> = Vec::new();
    let n = ms.len();
    for i in 0..n
        invariant
            n == ms@.len(),
            r@ == ms@.take(i as int),
    {
        r.push(ms[i].copy());
        assert(r@ =~= ms@.take(i + 1));
    }
    assert(ms@.take(n as int) =~= ms@);
    r
}

impl Conversation {
    /// An empty conversation on the branch `main` (what loading gives when
    /// no file exists yet).
    pub fn new_main() -> (c: Conversation)
        ensures
            c.branch@ == "main"@,
            c.messages.len() == 0,
    {
        Conversation { branch: owned("main"), messages: Vec::new() }
    }

    /// The last `n` messages (all of them when there are fewer).
    pub fn recent(&self, n: usize) -> (r: &[Message])
        ensures
            r@ == self.messages@.skip(
                if self.messages.len() > n {
                    self.messages.len() - n
                } else {
                    0
                },
            ),
    {
        let len = self.messages.len();
        let start = if len > n {
            len - n
        } else {
            0
        };
        let (_, tail) = self.messages.as_slice().split_at(start);
        assert(tail@ =~= self.messages@.skip(start as int));
        tail
    }
}

// ---------------------------------------------------------------------------
// Word sets for scoring
// ---------------------------------------------------------------------------

/// The pieces of `s` between characters that satisfy `sep`.
pub open spec fn split_where(s: Seq<char>, sep: spec_fn(char) -> bool) -> Seq<Seq<char>>
    decreases s.len(),
{
    if s.len() == 0 {
        seq![Seq::<char>::empty()]
    } else {
        let r = split_where(s.drop_last(), sep);
        if sep(s.last()) {
            r.push(Seq::<char>::empty())
        } else {
            r.update(r.len() - 1, r.last().push(s.last()))
        }
    }
}

pub proof fn lemma_split_where_len(s: Seq<char>, sep: spec_fn(char) -> bool)
    ensures
        split_where(s, sep).len() >= 1,
    decreases s.len(),
{
    if s.len() > 0 {
        lemma_split_where_len(s.drop_last(), sep);
    }
}

pub open spec fn not_alphanumeric() -> spec_fn(char) -> bool {
    |c: char| !unicode_alphanumeric(c)
}

/// A word long enough to count: more than two bytes of UTF-8.
pub open spec fn long_word(w: Seq<char>) -> bool {
    crate::validation::byte_len(w) > 2
}

/// The words of a text: its lower-cased form split at every character that
/// is not alphanumeric, keeping the words longer than two bytes.
pub open spec fn words(text: Seq<char>) -> Set<Seq<char>> {
    let pieces = split_where(unicode_lowercase(text), not_alphanumeric());
    Set::new(|w: Seq<char>| pieces.contains(w) && long_word(w))
}

fn split_alnum(s: &Vec<char>) -> (r: Vec<Vec<char>>)
    ensures
        views(r@) == split_where(s@, not_alphanumeric()),
{
    let mut done: Vec<Vec<char>> = Vec::new();
    let mut cur: Vec<char> = Vec::new();
    let n = s.len();
    for i in 0..n
        invariant
            n == s.len(),
            views(done@).push(cur@) == split_where(s@.take(i as int), not_alphanumeric()),
    {
        proof {
            assert(s@.take(i + 1).drop_last() =~= s@.take(i as int));
            assert(s@.take(i + 1).last() == s@[i as int]);
        }
        if !alphanumeric_char(s[i]) {
            let finished = cur;
            done.push(finished);
            cur = Vec::new();
            assert(views(done@).push(cur@) =~= split_where(s@.take(i + 1), not_alphanumeric()));
        } else {
            cur.push(s[i]);
            assert(views(done@).push(cur@) =~= split_where(s@.take(i + 1), not_alphanumeric()));
        }
    }
    assert(s@.take(n as int) =~= s@);
    done.push(cur);
    assert(views(done@) =~= split_where(s@, not_alphanumeric()));
    done
}

fn contains_word(ws: &Vec<String>, w: &Vec<char>) -> (r: bool)
    ensures
        r == string_views(ws@).contains(w@),
{
    let n = ws.len();
    for i in 0..n
        invariant
            n == ws.len(),
            forall|j: int| 0 <= j < i ==> string_views(ws@)[j] != w@,
    {
        let v = chars_of(ws[i].as_str());
        if chars_eq(&v, w) {
            assert(string_views(ws@)[i as int] == w@);
            return true;
        }
    }
    false
}

/// The distinct words of `text` (see `words`), in order of first occurrence.
pub fn tokenize(text: &str) -> (r: Vec<String>)
    ensures
        string_views(r@).to_set() == words(text@),
        string_views(r@).no_duplicates(),
{
    let lower = to_lowercase(text);
    let lv = chars_of(lower.as_str());
    let pieces = split_alnum(&lv);
    let ghost all = views(pieces@);
    let mut out: Vec<String> = Vec::new();
    let n = pieces.len();
    for i in 0..n
        invariant
            n == pieces.len(),
            all == views(pieces@),
            all == split_where(unicode_lowercase(text@), not_alphanumeric()),
            string_views(out@).no_duplicates(),
            forall|w: Seq<char>|
                #![trigger string_views(out@).contains(w)]
                #![trigger all.take(i as int).contains(w)]
                string_views(out@).contains(w) <==> (all.take(i as int).contains(w) && long_word(w)),
    {
        let p = &pieces[i];
        let s = string_of(p);
        let ghost before = string_views(out@);
        let ghost t0 = all.take(i as int);
        let ghost t1 = all.take(i + 1);
        proof {
            assert(t1 =~= t0.push(p@));
            assert forall|w: Seq<char>| t1.contains(w) <==> (t0.contains(w) || w == p@) by {
                if t1.contains(w) {
                    let k = choose|k: int| 0 <= k < t1.len() && #[trigger] t1[k] == w;
                    if k < i {
                        assert(t0[k] == w);
                    }
                }
                if w == p@ {
                    assert(t1[i as int] == w);
                }
                if t0.contains(w) {
                    let k = choose|k: int| 0 <= k < t0.len() && #[trigger] t0[k] == w;
                    assert(t1[k] == w);
                }
            }
        }
        let long = s.as_str().len() > 2;
        assert(long == long_word(p@));
        let fresh = !contains_word(&out, p);
        assert(fresh == !before.contains(p@));
        if long && fresh {
            out.push(s);
            proof {
                assert(string_views(out@) =~= before.push(p@));
                let after = string_views(out@);
                assert forall|w: Seq<char>| after.contains(w) <==> (before.contains(w) || w == p@) by {
                    if after.contains(w) {
                        let k = choose|k: int| 0 <= k < after.len() && #[trigger] after[k] == w;
                        if k < before.len() {
                            assert(before[k] == w);
                        }
                    }
                    if w == p@ {
                        assert(after[before.len() as int] == w);
                    }
                    if before.contains(w) {
                        let k = choose|k: int| 0 <= k < before.len() && #[trigger] before[k] == w;
                        assert(after[k] == w);
                    }
                }
            }
        }
        assert forall|w: Seq<char>| string_views(out@).contains(w) <==> (t1.contains(w) && long_word(w)) by {
            assert(t1.contains(w) <==> (t0.contains(w) || w == p@));
            assert(before.contains(w) <==> (t0.contains(w) && long_word(w)));
            if long && fresh {
                assert(string_views(out@).contains(w) <==> (before.contains(w) || w == p@));
            } else {
                assert(string_views(out@) == before);
            }
        }
    }
    assert(all.take(n as int) =~= all);
    assert forall|w: Seq<char>| string_views(out@).to_set().contains(w) <==> words(text@).contains(w) by {
        assert(string_views(out@).to_set().contains(w) <==> string_views(out@).contains(w));
        assert(string_views(out@).contains(w) <==> (all.take(n as int).contains(w) && long_word(w)));
    }
    assert(string_views(out@).to_set() =~= words(text@));
    out
}

// ---------------------------------------------------------------------------
// What a message's scores are computed from
// ---------------------------------------------------------------------------

/// How many words two texts share.
pub open spec fn shared_words(a: Seq<char>, b: Seq<char>) -> nat {
    words(a).intersect(words(b)).len()
}

/// How many distinct words two texts have between them.
pub open spec fn joint_words(a: Seq<char>, b: Seq<char>) -> nat {
    (words(a) + words(b)).len()
}

/// Two texts are similar when they share more than half of the words of the
/// one with fewer words (at least one word counted).
pub open spec fn similar_texts(a: Seq<char>, b: Seq<char>) -> bool {
    let smaller = if words(a).len() < words(b).len() {
        words(a).len()
    } else {
        words(b).len()
    };
    2 * shared_words(a, b) > if smaller == 0 {
        1
    } else {
        smaller
    }
}

/// How many of the messages are similar to `text`.
pub open spec fn similar_count(text: Seq<char>, ms: Seq<Message>) -> nat
    decreases ms.len(),
{
    if ms.len() == 0 {
        0
    } else {
        similar_count(text, ms.drop_last()) + if similar_texts(text, ms.last().content@) {
            1nat
        } else {
            0nat
        }
    }
}

/// The last `k` messages (all when there are fewer).
pub open spec fn last_messages(ms: Seq<Message>, k: nat) -> Seq<Message> {
    if ms.len() > k {
        ms.skip(ms.len() - k)
    } else {
        ms
    }
}

/// The counts from which a new message's scores are computed.
#[derive(Debug)]
pub struct ScoreBasis {
    /// How many distinct words the message has.
    pub word_count: usize,
    pub has_question: bool,
    pub has_exclamation: bool,
    /// For each of the last ten earlier messages, newest first: how many
    /// words it shares with the message, and how many distinct words the two
    /// have between them (counted wide, so the sum of two counts fits).
    pub overlaps: Vec<(usize, u128)>,
    /// How many of the last twenty earlier messages are similar to it (see
    /// `similar_texts`).
    pub similar: usize,
}

/// How many elements of `a` lie in `b`.
pub open spec fn count_in(a: Seq<Seq<char>>, b: Set<Seq<char>>) -> nat
    decreases a.len(),
{
    if a.len() == 0 {
        0
    } else {
        count_in(a.drop_last(), b) + if b.contains(a.last()) {
            1nat
        } else {
            0nat
        }
    }
}

proof fn lemma_count_in(a: Seq<Seq<char>>, b: Set<Seq<char>>)
    requires
        a.no_duplicates(),
    ensures
        count_in(a, b) == a.to_set().intersect(b).len(),
        a.to_set().intersect(b).finite(),
    decreases a.len(),
{
    broadcast use {vstd::set::group_set_axioms, vstd::seq_lib::seq_to_set_is_finite};

    if a.len() == 0 {
        assert(a.to_set().intersect(b) =~= Set::empty());
    } else {
        let rest = a.drop_last();
        let x = a.last();
        assert(rest.no_duplicates()) by {
            assert forall|i: int, j: int| 0 <= i < rest.len() && 0 <= j < rest.len() && i != j implies rest[i]
                != rest[j] by {
                assert(rest[i] == a[i] && rest[j] == a[j]);
            }
        }
        lemma_count_in(rest, b);
        assert(a.to_set() =~= rest.to_set().insert(x)) by {
            assert(a =~= rest.push(x));
            assert forall|w: Seq<char>| a.contains(w) <==> (rest.contains(w) || w == x) by {
                if a.contains(w) {
                    let k = choose|k: int| 0 <= k < a.len() && a[k] == w;
                    if k < rest.len() {
                        assert(rest[k] == w);
                    }
                }
                if rest.contains(w) {
                    let k = choose|k: int| 0 <= k < rest.len() && rest[k] == w;
                    assert(a[k] == w);
                }
                if w == x {
                    assert(a[a.len() - 1] == w);
                }
            }
        }
        assert(!rest.to_set().contains(x)) by {
            if rest.contains(x) {
                let k = choose|k: int| 0 <= k < rest.len() && rest[k] == x;
                assert(a[k] == a[a.len() - 1]);
            }
        }
        let s0 = rest.to_set().intersect(b);
        if b.contains(x) {
            assert(a.to_set().intersect(b) =~= s0.insert(x));
        } else {
            assert(a.to_set().intersect(b) =~= s0);
        }
    }
}

/// Whether the text contains the character.
fn has_char(s: &str, c: char) -> (r: bool)
    ensures
        r == s@.contains(c),
{
    let v = chars_of(s);
    let n = v.len();
    for i in 0..n
        invariant
            n == v.len(),
            v@ == s@,
            forall|j: int| 0 <= j < i ==> v@[j] != c,
    {
        if v[i] == c {
            assert(s@[i as int] == c);
            return true;
        }
    }
    false
}

/// How many words of `ws` are among `ps`.
fn shared_count(ws: &Vec<String>, ps: &Vec<String>) -> (r: usize)
    requires
        string_views(ws@).no_duplicates(),
    ensures
        r == string_views(ws@).to_set().intersect(string_views(ps@).to_set()).len(),
{
    let ghost a = string_views(ws@);
    let ghost b = string_views(ps@).to_set();
    let mut c: usize = 0;
    let n = ws.len();
    for i in 0..n
        invariant
            n == ws.len(),
            a == string_views(ws@),
            b == string_views(ps@).to_set(),
            c == count_in(a.take(i as int), b),
            c <= i,
    {
        proof {
            assert(a.take(i + 1).drop_last() =~= a.take(i as int));
            assert(a.take(i + 1).last() == ws@[i as int]@);
        }
        let v = chars_of(ws[i].as_str());
        if contains_word(ps, &v) {
            c = c + 1;
        }
    }
    proof {
        assert(a.take(n as int) =~= a);
        lemma_count_in(a, b);
    }
    c
}

/// The counts for one earlier message: shared words, joint words, and
/// whether the two are similar.
fn compare_words(ws: &Vec<String>, content: &str, prev: &str) -> (r: (usize, u128, bool))
    requires
        string_views(ws@).to_set() == words(content@),
        string_views(ws@).no_duplicates(),
    ensures
        r.0 == shared_words(content@, prev@),
        r.1 == joint_words(content@, prev@),
        r.2 == similar_texts(content@, prev@),
{
    broadcast use {vstd::set::group_set_axioms, vstd::seq_lib::seq_to_set_is_finite};

    let ps = tokenize(prev);
    let inter = shared_count(ws, &ps);
    let ghost wset = words(content@);
    let ghost pset = words(prev@);
    proof {
        string_views(ws@).unique_seq_to_set();
        string_views(ps@).unique_seq_to_set();
        vstd::set_lib::lemma_set_intersect_union_lens(wset, pset);
        vstd::set_lib::lemma_len_subset(wset.intersect(pset), wset);
        vstd::set_lib::lemma_len_subset(wset.intersect(pset), pset);
    }
    let joint: u128 = (ws.len() as u128) + (ps.len() as u128) - (inter as u128);
    let smaller = if ws.len() < ps.len() {
        ws.len()
    } else {
        ps.len()
    };
    let bound = if smaller == 0 {
        1
    } else {
        smaller
    };
    let similar = inter > bound - inter;
    (inter, joint, similar)
}

/// The counts from which the scores of a new message with `content` are
/// computed, against the earlier messages `history`.
pub fn score_basis(content: &str, history: &[Message]) -> (b: ScoreBasis)
    ensures
        b.word_count == words(content@).len(),
        b.has_question == content@.contains('?'),
        b.has_exclamation == content@.contains('!'),
        b.overlaps@.len() == last_messages(history@, 10).len(),
        forall|k: int|
            0 <= k < b.overlaps@.len() ==> {
                let m = history@[history@.len() - 1 - k];
                &&& (#[trigger] b.overlaps@[k]).0 == shared_words(content@, m.content@)
                &&& b.overlaps@[k].1 == joint_words(content@, m.content@)
            },
        b.similar == similar_count(content@, last_messages(history@, 20)),
{
    broadcast use vstd::seq_lib::seq_to_set_is_finite;

    let ws = tokenize(content);
    proof {
        string_views(ws@).unique_seq_to_set();
    }
    let n = history.len();
    let near = if n > 10 {
        10
    } else {
        n
    };
    let mut overlaps: Vec<(usize, u128)> = Vec::new();
    for k in 0..near
        invariant
            near <= n,
            n == history@.len(),
            near == last_messages(history@, 10).len(),
            string_views(ws@).to_set() == words(content@),
            string_views(ws@).no_duplicates(),
            overlaps@.len() == k,
            forall|j: int|
                0 <= j < k ==> {
                    let m = history@[history@.len() - 1 - j];
                    &&& (#[trigger] overlaps@[j]).0 == shared_words(content@, m.content@)
                    &&& overlaps@[j].1 == joint_words(content@, m.content@)
                },
    {
        let m = &history[n - 1 - k];
        let (inter, joint, _) = compare_words(&ws, content, m.content.as_str());
        overlaps.push((inter, joint));
    }
    let far = if n > 20 {
        20
    } else {
        n
    };
    let start = n - far;
    let ghost tail = last_messages(history@, 20);
    assert(tail =~= history@.skip(start as int));
    let mut similar: usize = 0;
    for i in start..n
        invariant
            start <= n,
            n == history@.len(),
            tail == history@.skip(start as int),
            string_views(ws@).to_set() == words(content@),
            string_views(ws@).no_duplicates(),
            similar == similar_count(content@, tail.take(i - start)),
            similar <= i - start,
    {
        let m = &history[i];
        proof {
            assert(tail.take(i - start + 1).drop_last() =~= tail.take(i - start));
            assert(tail.take(i - start + 1).last() == history@[i as int]);
        }
        let (_, _, close) = compare_words(&ws, content, m.content.as_str());
        if close {
            similar = similar + 1;
        }
    }
    assert(tail.take(n - start) =~= tail);
    ScoreBasis {
        word_count: ws.len(),
        has_question: has_char(content, '?'),
        has_exclamation: has_char(content, '!'),
        overlaps,
        similar,
    }
}


// ---------------------------------------------------------------------------
// Commit messages
// ---------------------------------------------------------------------------

/// The paths relative to the memory directory.
pub open spec fn relative_paths(dir: Seq<char>, paths: Seq<Seq<char>>) -> Seq<Seq<char>> {
    paths.map_values(|p: Seq<char>| relative_path(dir, p))
}

/// The commit message for a memory change: the sanitised message, a blank
/// line, `Files:`, then each changed path relative to the memory directory
/// on a line of its own.
pub open spec fn commit_text_spec(message: Seq<char>, dir: Seq<char>, paths: Seq<Seq<char>>) -> Seq<
    char,
> {
    sanitized(message) + "\n\nFiles:\n"@ + join(relative_paths(dir, paths), seq!['\n'])
}

/// The commit message for a memory change (see `commit_text_spec`).
pub fn commit_text(message: &str, memory_dir: &str, paths: &Vec<String>) -> (r: String)
    ensures
        r@ == commit_text_spec(message@, memory_dir@, string_views(paths@)),
{
    let mut rel: Vec<Vec<char>> = Vec::new();
    let n = paths.len();
    for i in 0..n
        invariant
            n == paths.len(),
            views(rel@) == relative_paths(memory_dir@, string_views(paths@)).take(i as int),
    {
        let r = relative_to_memory(memory_dir, paths[i].as_str());
        let rv = chars_of(r.as_str());
        let ghost before = views(rel@);
        rel.push(rv);
        assert(views(rel@) =~= before.push(rv@));
        assert(relative_paths(memory_dir@, string_views(paths@)).take(i + 1) =~= relative_paths(
            memory_dir@,
            string_views(paths@),
        ).take(i as int).push(rv@));
    }
    assert(relative_paths(memory_dir@, string_views(paths@)).take(n as int) =~= relative_paths(
        memory_dir@,
        string_views(paths@),
    ));
    let mut nl: Vec<char> = Vec::new();
    nl.push('\n');
    assert(nl@ =~= seq!['\n']);
    let listing = join_exec(&rel, &nl);
    let mut out = sanitize_commit_message(message);
    out.append("\n\nFiles:\n");
    append_chars(&mut out, &listing);
    out
}

// ---------------------------------------------------------------------------
// The git protocol
// ---------------------------------------------------------------------------

/// A git repository holding the memory directory.
#[derive(Debug)]
pub struct GitMemory {
    pub repo_path: String,
}

/// What happened when one git command was run.
#[derive(Debug)]
pub enum GitOutcome {
    /// The command ran; `stdout` and `stderr` decoded lossily as UTF-8.
    Exited { success: bool, stdout: String, stderr: String },
    /// The command could not be started; the reason.
    SpawnFailed(String),
}

/// A failed git command and its arguments.
#[derive(Debug)]
pub enum GitError {
    /// The process could not be started.
    Spawn { args: Vec<String>, reason: String },
    /// The command exited unsuccessfully; what it wrote to standard error.
    Failed { args: Vec<String>, stderr: String },
}

/// What a finished git operation yields.
#[derive(Debug)]
pub enum GitReply {
    Done,
    Text(String),
    Lines(Vec<String>),
}

/// The next thing the caller must do to advance an operation.
#[derive(Debug)]
pub enum GitAction {
    /// Create this directory (and its parents), then step with no outcome.
    EnsureDir(String),
    /// Run `git` with these arguments in the repository, then step with its outcome.
    Run(Vec<String>),
    /// The operation is over.
    Finish(Result<GitReply, GitError>),
}

/// A git operation in progress.
#[derive(Debug)]
pub struct GitTask {
    op: GitOp,
    phase: u8,
    pending: Option<GitError>,
}

/// The git operations the memory repository uses.
#[derive(Debug)]
pub enum GitOp {
    Init(String),
    AddAll,
    Commit(String),
    BranchCreate(String),
    Checkout(String),
    ListBranches,
    CurrentBranch,
    LogOneline(usize),
}

/// A failed command, by views.
pub enum GitErrorView {
    Spawn(Seq<Seq<char>>, Seq<char>),
    Failed(Seq<Seq<char>>, Seq<char>),
}

pub open spec fn error_view(e: GitError) -> GitErrorView {
    match e {
        GitError::Spawn { args, reason } => GitErrorView::Spawn(string_views(args@), reason@),
        GitError::Failed { args, stderr } => GitErrorView::Failed(string_views(args@), stderr@),
    }
}

/// What the runner makes of one command (`GitMemory::git`): trimmed
/// standard output on success, else the failure with the arguments.
pub open spec fn command_result(args: Seq<Seq<char>>, o: GitOutcome) -> Result<Seq<char>, GitErrorView> {
    match o {
        GitOutcome::Exited { success, stdout, stderr } => if success {
            Ok(trim(stdout@))
        } else {
            Err(GitErrorView::Failed(args, stderr@))
        },
        GitOutcome::SpawnFailed(reason) => Err(GitErrorView::Spawn(args, reason@)),
    }
}

pub open spec fn add_all_args() -> Seq<Seq<char>> {
    seq!["add"@, "."@]
}

pub open spec fn commit_args(message: Seq<char>) -> Seq<Seq<char>> {
    seq!["commit"@, "-m"@, message]
}

pub open spec fn status_args() -> Seq<Seq<char>> {
    seq!["status"@, "--porcelain"@]
}

pub open spec fn branch_create_args(name: Seq<char>) -> Seq<Seq<char>> {
    seq!["branch"@, name]
}

pub open spec fn checkout_args(name: Seq<char>) -> Seq<Seq<char>> {
    seq!["checkout"@, name]
}

pub open spec fn list_branches_args() -> Seq<Seq<char>> {
    seq!["branch"@, "--format=%(refname:short)"@]
}

pub open spec fn current_branch_args() -> Seq<Seq<char>> {
    seq!["branch"@, "--show-current"@]
}

pub open spec fn log_args(n: nat) -> Seq<Seq<char>> {
    seq!["log"@, "--oneline"@, "-n"@, decimal(n)]
}

pub open spec fn init_args() -> Seq<Seq<char>> {
    seq!["init"@]
}

pub open spec fn config_email_args() -> Seq<Seq<char>> {
    seq!["config"@, "user.email"@, "guac@local"@]
}

pub open spec fn config_name_args() -> Seq<Seq<char>> {
    seq!["config"@, "user.name"@, "GUAC"@]
}

pub open spec fn rename_main_args() -> Seq<Seq<char>> {
    seq!["branch"@, "-m"@, "main"@]
}

/// The branch names in `git branch` output: each line trimmed.
pub open spec fn branch_lines(out: Seq<char>) -> Seq<Seq<char>> {
    lines(out).map_values(|l: Seq<char>| trim(l))
}

/// The action, by views.
pub enum ActionView {
    EnsureDir(Seq<char>),
    Run(Seq<Seq<char>>),
    FinishDone,
    FinishText(Seq<char>),
    FinishLines(Seq<Seq<char>>),
    FinishErr(GitErrorView),
}

pub open spec fn action_view(a: GitAction) -> ActionView {
    match a {
        GitAction::EnsureDir(d) => ActionView::EnsureDir(d@),
        GitAction::Run(args) => ActionView::Run(string_views(args@)),
        GitAction::Finish(Ok(GitReply::Done)) => ActionView::FinishDone,
        GitAction::Finish(Ok(GitReply::Text(t))) => ActionView::FinishText(t@),
        GitAction::Finish(Ok(GitReply::Lines(ls))) => ActionView::FinishLines(string_views(ls@)),
        GitAction::Finish(Err(e)) => ActionView::FinishErr(error_view(e)),
    }
}

/// The operation, by views.
pub enum OpView {
    Init(Seq<char>),
    AddAll,
    Commit(Seq<char>),
    BranchCreate(Seq<char>),
    Checkout(Seq<char>),
    ListBranches,
    CurrentBranch,
    LogOneline(nat),
}

pub open spec fn op_view(op: GitOp) -> OpView {
    match op {
        GitOp::Init(p) => OpView::Init(p@),
        GitOp::AddAll => OpView::AddAll,
        GitOp::Commit(m) => OpView::Commit(m@),
        GitOp::BranchCreate(n) => OpView::BranchCreate(n@),
        GitOp::Checkout(n) => OpView::Checkout(n@),
        GitOp::ListBranches => OpView::ListBranches,
        GitOp::CurrentBranch => OpView::CurrentBranch,
        GitOp::LogOneline(n) => OpView::LogOneline(n as nat),
    }
}

/// The single command of an operation that runs one command.
pub open spec fn single_args(op: OpView) -> Seq<Seq<char>> {
    match op {
        OpView::AddAll => add_all_args(),
        OpView::BranchCreate(n) => branch_create_args(n),
        OpView::Checkout(n) => checkout_args(n),
        OpView::ListBranches => list_branches_args(),
        OpView::CurrentBranch => current_branch_args(),
        OpView::LogOneline(n) => log_args(n),
        _ => Seq::empty(),
    }
}

/// How an operation that runs one command finishes on that command's result.
pub open spec fn single_finish(op: OpView, r: Result<Seq<char>, GitErrorView>) -> ActionView {
    match r {
        Err(e) => ActionView::FinishErr(e),
        Ok(out) => match op {
            OpView::ListBranches => ActionView::FinishLines(branch_lines(out)),
            OpView::CurrentBranch => ActionView::FinishText(out),
            OpView::LogOneline(_) => ActionView::FinishText(out),
            _ => ActionView::FinishDone,
        },
    }
}

/// The state of an operation, by views: the operation, how far it has got,
/// and (for a commit) the error of a failed `git commit`.
pub struct TaskView {
    pub op: OpView,
    pub phase: nat,
    pub pending: Option<GitErrorView>,
}

/// The protocol: from a state and the outcome of the last step (none at the
/// start and after a directory was made) to the next state and action.
///
/// * One-command operations run their command, then finish with its result
///   (`list_branches` splitting the output into trimmed lines).
/// * `commit` runs `add .`; a failure ends it. It then runs `commit -m`;
///   success ends it. On failure it runs `status --porcelain`: if that fails
///   its error ends it, if the status is blank the commit counts as done
///   (nothing to commit), otherwise the commit's error ends it.
/// * `init` makes the directory, runs `init` and the two `config` commands
///   (a failure ends it), asks for the current branch, and renames it to
///   `main` only when it is `master`; failing to learn the branch is not an
///   error.
pub open spec fn transition(t: TaskView, o: Option<GitOutcome>) -> (TaskView, ActionView) {
    let done = TaskView { op: t.op, phase: 99, pending: None };
    match t.op {
        OpView::Commit(msg) => if t.phase == 0 {
            (TaskView { phase: 1, ..t }, ActionView::Run(add_all_args()))
        } else if t.phase == 1 {
            match command_result(add_all_args(), o->Some_0) {
                Err(e) => (done, ActionView::FinishErr(e)),
                Ok(_) => (TaskView { phase: 2, ..t }, ActionView::Run(commit_args(msg))),
            }
        } else if t.phase == 2 {
            match command_result(commit_args(msg), o->Some_0) {
                Ok(_) => (done, ActionView::FinishDone),
                Err(e) => (
                    TaskView { op: t.op, phase: 3, pending: Some(e) },
                    ActionView::Run(status_args()),
                ),
            }
        } else {
            match command_result(status_args(), o->Some_0) {
                Err(e) => (done, ActionView::FinishErr(e)),
                Ok(st) => if trim(st).len() == 0 {
                    (done, ActionView::FinishDone)
                } else {
                    (done, ActionView::FinishErr(t.pending->Some_0))
                },
            }
        },
        OpView::Init(dir) => if t.phase == 0 {
            (TaskView { phase: 1, ..t }, ActionView::EnsureDir(dir))
        } else if t.phase == 1 {
            (TaskView { phase: 2, ..t }, ActionView::Run(init_args()))
        } else if t.phase == 2 {
            match command_result(init_args(), o->Some_0) {
                Err(e) => (done, ActionView::FinishErr(e)),
                Ok(_) => (TaskView { phase: 3, ..t }, ActionView::Run(config_email_args())),
            }
        } else if t.phase == 3 {
            match command_result(config_email_args(), o->Some_0) {
                Err(e) => (done, ActionView::FinishErr(e)),
                Ok(_) => (TaskView { phase: 4, ..t }, ActionView::Run(config_name_args())),
            }
        } else if t.phase == 4 {
            match command_result(config_name_args(), o->Some_0) {
                Err(e) => (done, ActionView::FinishErr(e)),
                Ok(_) => (TaskView { phase: 5, ..t }, ActionView::Run(current_branch_args())),
            }
        } else if t.phase == 5 {
            match command_result(current_branch_args(), o->Some_0) {
                Ok(b) => if b == "master"@ {
                    (TaskView { phase: 6, ..t }, ActionView::Run(rename_main_args()))
                } else {
                    (done, ActionView::FinishDone)
                },
                Err(_) => (done, ActionView::FinishDone),
            }
        } else {
            match command_result(rename_main_args(), o->Some_0) {
                Err(e) => (done, ActionView::FinishErr(e)),
                Ok(_) => (done, ActionView::FinishDone),
            }
        },
        _ => if t.phase == 0 {
            (TaskView { phase: 1, ..t }, ActionView::Run(single_args(t.op)))
        } else {
            (done, single_finish(t.op, command_result(single_args(t.op), o->Some_0)))
        },
    }
}

/// A commit waiting for its status check holds the commit's error; no
/// other state holds one.
pub open spec fn task_wf(t: TaskView) -> bool {
    (t.op is Commit && t.phase == 3) <==> t.pending is Some
}

/// Whether the next step needs the outcome of a command.
pub open spec fn needs_outcome(t: TaskView) -> bool {
    match t.op {
        OpView::Init(_) => t.phase >= 2,
        _ => t.phase >= 1,
    }
}

/// The operation is over.
pub open spec fn finished(t: TaskView) -> bool {
    match t.op {
        OpView::Commit(_) => t.phase > 3,
        OpView::Init(_) => t.phase > 6,
        _ => t.phase > 1,
    }
}

/// The action ends the operation.
pub open spec fn is_finish(a: ActionView) -> bool {
    match a {
        ActionView::EnsureDir(_) => false,
        ActionView::Run(_) => false,
        _ => true,
    }
}

/// Every git operation ends: a step of an unfinished operation keeps the
/// operation and its well-formedness and raises the phase, an unfinished
/// phase is at most six, and the step that finishes the operation is the
/// one that hands back `Finish`.
pub proof fn law_git_step_progress(t: TaskView, o: Option<GitOutcome>)
    requires
        task_wf(t),
        !finished(t),
    ensures
        transition(t, o).0.op == t.op,
        transition(t, o).0.phase > t.phase,
        t.phase <= 6,
        task_wf(transition(t, o).0),
        finished(transition(t, o).0) <==> is_finish(transition(t, o).1),
{
}

fn args1(a: &str) -> (r: Vec<String>)
    ensures
        string_views(r@) == seq![a@],
{
    let mut r: Vec<String> = Vec::new();
    r.push(a.to_owned());
    assert(string_views(r@) =~= seq![a@]);
    r
}

fn args2(a: &str, b: &str) -> (r: Vec<String>)
    ensures
        string_views(r@) == seq![a@, b@],
{
    let mut r: Vec<String> = Vec::new();
    r.push(a.to_owned());
    r.push(b.to_owned());
    assert(string_views(r@) =~= seq![a@, b@]);
    r
}

fn args3(a: &str, b: &str, c: &str) -> (r: Vec<String>)
    ensures
        string_views(r@) == seq![a@, b@, c@],
{
    let mut r: Vec<String> = Vec::new();
    r.push(a.to_owned());
    r.push(b.to_owned());
    r.push(c.to_owned());
    assert(string_views(r@) =~= seq![a@, b@, c@]);
    r
}

fn run_args(t: &GitTask) -> (r: Vec<String>)
    ensures
        string_views(r@) == single_args(op_view(t.op)),
{
    match &t.op {
        GitOp::AddAll => args2("add", "."),
        GitOp::BranchCreate(n) => args2("branch", n.as_str()),
        GitOp::Checkout(n) => args2("checkout", n.as_str()),
        GitOp::ListBranches => args2("branch", "--format=%(refname:short)"),
        GitOp::CurrentBranch => args2("branch", "--show-current"),
        GitOp::LogOneline(n) => {
            let d = decimal_exec(*n as u64);
            let ds = string_of(&d);
            let mut r = args3("log", "--oneline", "-n");
            let ghost before = string_views(r@);
            r.push(ds);
            assert(string_views(r@) =~= before.push(decimal(*n as nat)));
            assert(string_views(r@) =~= log_args(*n as nat));
            r
        },
        _ => {
            let r: Vec<String> = Vec::new();
            assert(string_views(r@) =~= Seq::<Seq<char>>::empty());
            r
        },
    }
}

/// What the runner makes of one command (see `command_result`).
fn command_result_exec(args: Vec<String>, o: GitOutcome) -> (r: Result<String, GitError>)
    ensures
        match command_result(string_views(args@), o) {
            Ok(out) => r matches Ok(s) && s@ == out,
            Err(e) => r matches Err(x) && error_view(x) == e,
        },
{
    match o {
        GitOutcome::Exited { success, stdout, stderr } => {
            if success {
                let v = chars_of(stdout.as_str());
                let t = trim_exec(&v);
                Ok(string_of(&t))
            } else {
                Err(GitError::Failed { args, stderr })
            }
        },
        GitOutcome::SpawnFailed(reason) => Err(GitError::Spawn { args, reason }),
    }
}

fn branch_lines_exec(out: &String) -> (r: Vec<String>)
    ensures
        string_views(r@) == branch_lines(out@),
{
    let v = chars_of(out.as_str());
    let ls = lines_exec(&v);
    let mut r: Vec<String> = Vec::new();
    let n = ls.len();
    for i in 0..n
        invariant
            n == ls.len(),
            views(ls@) == lines(out@),
            string_views(r@) == branch_lines(out@).take(i as int),
    {
        let t = trim_exec(&ls[i]);
        let ghost before = string_views(r@);
        r.push(string_of(&t));
        assert(string_views(r@) =~= before.push(t@));
        assert(branch_lines(out@).take(i + 1) =~= branch_lines(out@).take(i as int).push(
            trim(ls@[i as int]@),
        ));
    }
    assert(branch_lines(out@).take(n as int) =~= branch_lines(out@));
    r
}

impl GitTask {
    pub closed spec fn view(&self) -> TaskView {
        TaskView {
            op: op_view(self.op),
            phase: self.phase as nat,
            pending: match self.pending {
                Some(e) => Some(error_view(e)),
                None => None,
            },
        }
    }

    /// Whether the next step needs the outcome of a command.
    pub fn needs_outcome(&self) -> (r: bool)
        ensures
            r == needs_outcome(self.view()),
    {
        match &self.op {
            GitOp::Init(_) => self.phase >= 2,
            _ => self.phase >= 1,
        }
    }

    /// Advances the operation by one step (see `transition`).
    pub fn step(&mut self, outcome: Option<GitOutcome>) -> (a: GitAction)
        requires
            task_wf(old(self).view()),
            !finished(old(self).view()),
            needs_outcome(old(self).view()) <==> outcome is Some,
        ensures
            task_wf(final(self).view()),
            (final(self).view(), action_view(a)) == transition(old(self).view(), outcome),
    {
        match &self.op {
            GitOp::Commit(_) => self.step_commit(outcome),
            GitOp::Init(_) => self.step_init(outcome),
            _ => self.step_single(outcome),
        }
    }

    #[verifier::spinoff_prover]
    fn step_commit(&mut self, outcome: Option<GitOutcome>) -> (a: GitAction)
        requires
            old(self).op is Commit,
            task_wf(old(self).view()),
            !finished(old(self).view()),
            needs_outcome(old(self).view()) <==> outcome is Some,
        ensures
            task_wf(final(self).view()),
            (final(self).view(), action_view(a)) == transition(old(self).view(), outcome),
    {
        let msg = match &self.op {
            GitOp::Commit(m) => m.clone(),
            _ => String::new(),
        };
        if self.phase == 0 {
            self.phase = 1;
            GitAction::Run(args2("add", "."))
        } else if self.phase == 1 {
            let o = outcome.unwrap();
            match command_result_exec(args2("add", "."), o) {
                Err(e) => {
                    self.phase = 99;
                    GitAction::Finish(Err(e))
                },
                Ok(_) => {
                    self.phase = 2;
                    GitAction::Run(args3("commit", "-m", msg.as_str()))
                },
            }
        } else if self.phase == 2 {
            let o = outcome.unwrap();
            match command_result_exec(args3("commit", "-m", msg.as_str()), o) {
                Ok(_) => {
                    self.phase = 99;
                    GitAction::Finish(Ok(GitReply::Done))
                },
                Err(e) => {
                    self.phase = 3;
                    self.pending = Some(e);
                    GitAction::Run(args2("status", "--porcelain"))
                },
            }
        } else {
            let o = outcome.unwrap();
            let pending = self.pending.take();
            self.phase = 99;
            match command_result_exec(args2("status", "--porcelain"), o) {
                Err(e) => GitAction::Finish(Err(e)),
                Ok(st) => {
                    let sv = chars_of(st.as_str());
                    let tv = trim_exec(&sv);
                    if tv.len() == 0 {
                        GitAction::Finish(Ok(GitReply::Done))
                    } else {
                        GitAction::Finish(Err(pending.unwrap()))
                    }
                },
            }
        }
    }

    #[verifier::spinoff_prover]
    fn step_init(&mut self, outcome: Option<GitOutcome>) -> (a: GitAction)
        requires
            old(self).op is Init,
            task_wf(old(self).view()),
            !finished(old(self).view()),
            needs_outcome(old(self).view()) <==> outcome is Some,
        ensures
            task_wf(final(self).view()),
            (final(self).view(), action_view(a)) == transition(old(self).view(), outcome),
    {
        let dir = match &self.op {
            GitOp::Init(d) => d.clone(),
            _ => String::new(),
        };
        if self.phase == 0 {
            self.phase = 1;
            GitAction::EnsureDir(dir)
        } else if self.phase == 1 {
            self.phase = 2;
            GitAction::Run(args1("init"))
        } else if self.phase == 2 {
            match command_result_exec(args1("init"), outcome.unwrap()) {
                Err(e) => {
                    self.phase = 99;
                    GitAction::Finish(Err(e))
                },
                Ok(_) => {
                    self.phase = 3;
                    GitAction::Run(args3("config", "user.email", "guac@local"))
                },
            }
        } else if self.phase == 3 {
            match command_result_exec(args3("config", "user.email", "guac@local"), outcome.unwrap()) {
                Err(e) => {
                    self.phase = 99;
                    GitAction::Finish(Err(e))
                },
                Ok(_) => {
                    self.phase = 4;
                    GitAction::Run(args3("config", "user.name", "GUAC"))
                },
            }
        } else if self.phase == 4 {
            match command_result_exec(args3("config", "user.name", "GUAC"), outcome.unwrap()) {
                Err(e) => {
                    self.phase = 99;
                    GitAction::Finish(Err(e))
                },
                Ok(_) => {
                    self.phase = 5;
                    GitAction::Run(args2("branch", "--show-current"))
                },
            }
        } else if self.phase == 5 {
            match command_result_exec(args2("branch", "--show-current"), outcome.unwrap()) {
                Ok(b) => {
                    if str_eq(b.as_str(), "master") {
                        self.phase = 6;
                        GitAction::Run(args3("branch", "-m", "main"))
                    } else {
                        self.phase = 99;
                        GitAction::Finish(Ok(GitReply::Done))
                    }
                },
                Err(_) => {
                    self.phase = 99;
                    GitAction::Finish(Ok(GitReply::Done))
                },
            }
        } else {
            self.phase = 99;
            match command_result_exec(args3("branch", "-m", "main"), outcome.unwrap()) {
                Err(e) => GitAction::Finish(Err(e)),
                Ok(_) => GitAction::Finish(Ok(GitReply::Done)),
            }
        }
    }

    #[verifier::spinoff_prover]
    fn step_single(&mut self, outcome: Option<GitOutcome>) -> (a: GitAction)
        requires
            !(old(self).op is Init),
            !(old(self).op is Commit),
            task_wf(old(self).view()),
            !finished(old(self).view()),
            needs_outcome(old(self).view()) <==> outcome is Some,
        ensures
            task_wf(final(self).view()),
            (final(self).view(), action_view(a)) == transition(old(self).view(), outcome),
    {
        if self.phase == 0 {
            let args = run_args(self);
            self.phase = 1;
            GitAction::Run(args)
        } else {
            let args = run_args(self);
            let r = command_result_exec(args, outcome.unwrap());
            let a = match r {
                Err(e) => GitAction::Finish(Err(e)),
                Ok(out) => match &self.op {
                    GitOp::ListBranches => GitAction::Finish(Ok(GitReply::Lines(branch_lines_exec(&out)))),
                    GitOp::CurrentBranch => GitAction::Finish(Ok(GitReply::Text(out))),
                    GitOp::LogOneline(_) => GitAction::Finish(Ok(GitReply::Text(out))),
                    _ => GitAction::Finish(Ok(GitReply::Done)),
                },
            };
            self.phase = 99;
            a
        }
    }
}

impl GitMemory {
    /// The repository at `repo_path`.
    pub fn new(repo_path: &str) -> (g: GitMemory)
        ensures
            g.repo_path@ == repo_path@,
    {
        GitMemory { repo_path: repo_path.to_owned() }
    }

    /// The directory whose existence marks an initialised repository.
    pub fn git_dir(&self) -> (r: String)
        ensures
            r@ == crate::config::path_join(self.repo_path@, ".git"@),
    {
        crate::config::join_path(self.repo_path.as_str(), ".git")
    }

    fn task(op: GitOp) -> (t: GitTask)
        ensures
            t.view() == (TaskView { op: op_view(op), phase: 0, pending: None }),
    {
        GitTask { op, phase: 0, pending: None }
    }

    /// Initialises the repository, its identity, and the branch name `main`.
    pub fn init(&self) -> (t: GitTask)
        ensures
            t.view() == (TaskView { op: OpView::Init(self.repo_path@), phase: 0, pending: None }),
    {
        Self::task(GitOp::Init(self.repo_path.clone()))
    }

    /// Stages every change.
    pub fn add_all(&self) -> (t: GitTask)
        ensures
            t.view() == (TaskView { op: OpView::AddAll, phase: 0, pending: None }),
    {
        Self::task(GitOp::AddAll)
    }

    /// Stages every change and commits it with `message`; having nothing to
    /// commit is not an error.
    pub fn commit(&self, message: &str) -> (t: GitTask)
        ensures
            t.view() == (TaskView { op: OpView::Commit(message@), phase: 0, pending: None }),
    {
        Self::task(GitOp::Commit(message.to_owned()))
    }

    /// Creates a branch.
    pub fn branch_create(&self, name: &str) -> (t: GitTask)
        ensures
            t.view() == (TaskView { op: OpView::BranchCreate(name@), phase: 0, pending: None }),
    {
        Self::task(GitOp::BranchCreate(name.to_owned()))
    }

    /// Switches to a branch.
    pub fn checkout(&self, name: &str) -> (t: GitTask)
        ensures
            t.view() == (TaskView { op: OpView::Checkout(name@), phase: 0, pending: None }),
    {
        Self::task(GitOp::Checkout(name.to_owned()))
    }

    /// Lists the local branches.
    pub fn list_branches(&self) -> (t: GitTask)
        ensures
            t.view() == (TaskView { op: OpView::ListBranches, phase: 0, pending: None }),
    {
        Self::task(GitOp::ListBranches)
    }

    /// Names the current branch.
    pub fn current_branch(&self) -> (t: GitTask)
        ensures
            t.view() == (TaskView { op: OpView::CurrentBranch, phase: 0, pending: None }),
    {
        Self::task(GitOp::CurrentBranch)
    }

    /// The last `n` commits, one line each.
    pub fn log_oneline(&self, n: usize) -> (t: GitTask)
        ensures
            t.view() == (TaskView { op: OpView::LogOneline(n as nat), phase: 0, pending: None }),
    {
        Self::task(GitOp::LogOneline(n))
    }
}

} // verus!
