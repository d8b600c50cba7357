//! Temporal compression: the lowest-scoring messages beyond a threshold are
//! taken out of a conversation and replaced by a summary kept beside it.

use vstd::prelude::*;
use vstd::utf8::{decode_utf8, encode_utf8, is_char_boundary};
use vstd::string::StringSliceAdditionalSpecFns;
use crate::memory::{Conversation, Message};
use crate::text::{
    append_chars, chars_of, decimal, decimal_exec, join, join_exec, owned, str_eq, string_of,
    trim, trim_exec, views,
};

verus! {

broadcast use {vstd::string::group_string_axioms, vstd::utf8::encode_utf8_decode_utf8};

/// One summary of a run of old messages.
#[derive(Debug)]
pub struct SummaryEntry {
    pub level: u32,
    pub timestamp: String,
    pub source_range: String,
    pub summary: String,
}

/// The summaries of one branch at one level.
#[derive(Debug)]
pub struct SummaryFile {
    pub branch: String,
    pub entries: Vec<SummaryEntry>,
}

impl SummaryFile {
    /// No summaries yet, on the branch `main` (what loading gives when no
    /// file exists).
    pub fn new_main() -> (f: SummaryFile)
        ensures
            f.branch@ == "main"@,
            f.entries.len() == 0,
    {
        SummaryFile { branch: owned("main"), entries: Vec::new() }
    }

    /// Records the summary of the first `count` messages of `branch`, made at
    /// `timestamp`, as a level-1 entry after the existing ones.
    pub fn record(&mut self, branch: &str, timestamp: String, count: usize, summary: String)
        ensures
            final(self).branch@ == branch@,
            final(self).entries@.len() == old(self).entries@.len() + 1,
            final(self).entries@.take(old(self).entries@.len() as int) == old(self).entries@,
            final(self).entries@.last().level == 1,
            final(self).entries@.last().timestamp == timestamp,
            final(self).entries@.last().source_range@ == source_range_text(count as nat),
            final(self).entries@.last().summary == summary,
    {
        self.branch = owned(branch);
        let mut range = owned("messages 0..");
        let digits = decimal_exec(count as u64);
        append_chars(&mut range, &digits);
        let ghost before = self.entries@;
        self.entries.push(SummaryEntry { level: 1, timestamp, source_range: range, summary });
        assert(self.entries@.take(before.len() as int) =~= before);
    }
}

/// `messages 0..<count>`.
pub open spec fn source_range_text(count: nat) -> Seq<char> {
    "messages 0.."@ + decimal(count)
}

/// How many messages compression takes: as many as there are beyond
/// `threshold`.
pub open spec fn compress_count(len: nat, threshold: nat) -> nat {
    if len <= threshold {
        0
    } else {
        (len - threshold) as nat
    }
}

/// Message `j` is ranked before message `i`: a lower rank, or the same rank
/// and an earlier place in the conversation.
pub open spec fn ranked_before(ranks: Seq<u64>, j: int, i: int) -> bool {
    ranks[j] < ranks[i] || (ranks[j] == ranks[i] && j < i)
}

/// How many of the first `n` messages are ranked before message `i`.
pub open spec fn count_before(ranks: Seq<u64>, i: int, n: int) -> nat
    decreases n,
{
    if n <= 0 {
        0
    } else {
        count_before(ranks, i, n - 1) + if ranked_before(ranks, n - 1, i) {
            1nat
        } else {
            0nat
        }
    }
}

/// Message `i` is among the `k` messages ranked lowest.
pub open spec fn among_lowest(ranks: Seq<u64>, k: nat, i: int) -> bool {
    count_before(ranks, i, ranks.len() as int) < k
}

/// Those of the first `n` messages that are (`taken`) or are not among the
/// `k` ranked lowest, in their order.
pub open spec fn select(ms: Seq<Message>, ranks: Seq<u64>, k: nat, taken: bool, n: int) -> Seq<
    Message,
>
    decreases n,
{
    if n <= 0 {
        Seq::empty()
    } else {
        let rest = select(ms, ranks, k, taken, n - 1);
        if among_lowest(ranks, k, n - 1) == taken {
            rest.push(ms[n - 1])
        } else {
            rest
        }
    }
}

/// Takes the messages beyond the newest `threshold` out of the conversation:
/// as many as there are beyond it, the lowest-scoring ones. `ranks[i]` ranks
/// message `i` by its combined score (lower ranks score lower); among equal
/// ranks the older message goes first. Both the taken and the kept messages
/// keep their order; none is taken when there are not more than
/// `threshold`.
pub fn take_for_compression(conv: &mut Conversation, threshold: usize, ranks: &Vec<u64>) -> (taken:
    Vec<Message>)
    requires
        ranks.len() == old(conv).messages.len(),
    ensures
        ({
            let ms = old(conv).messages@;
            let k = compress_count(ms.len(), threshold as nat);
            &&& taken@.len() == k
            &&& ms.len() > threshold ==> taken@.len() == ms.len() - threshold
                && final(conv).messages@.len() == threshold
            &&& ms.len() <= threshold ==> taken@.len() == 0 && final(conv).messages@.len()
                == ms.len()
            &&& taken@ == select(ms, ranks@, k, true, ms.len() as int)
            &&& final(conv).messages@ == select(ms, ranks@, k, false, ms.len() as int)
        }),
        final(conv).branch == old(conv).branch,
{
    let len = conv.messages.len();
    let k: usize = if len <= threshold {
        0
    } else {
        len - threshold
    };
    let ghost ms = conv.messages@;
    let ghost rs = ranks@;
    let mut old_messages: Vec<Message> = Vec::new();
    std::mem::swap(&mut old_messages, &mut conv.messages);
    let mut taken: Vec<Message> = Vec::new();
    let mut kept: Vec<Message> = Vec::new();
    for i in 0..len
        invariant
            len == ms.len(),
            len == rs.len(),
            rs == ranks@,
            old_messages@ == ms,
            k == compress_count(len as nat, threshold as nat),
            taken@ == select(ms, rs, k as nat, true, i as int),
            kept@ == select(ms, rs, k as nat, false, i as int),
    {
        let mut c: usize = 0;
        for j in 0..len
            invariant
                len == rs.len(),
                rs == ranks@,
                i < len,
                c == count_before(rs, i as int, j as int),
                c <= j,
        {
            if ranks[j] < ranks[i] || (ranks[j] == ranks[i] && j < i) {
                c = c + 1;
            }
        }
        if c < k {
            taken.push(old_messages[i].copy());
        } else {
            kept.push(old_messages[i].copy());
        }
    }
    conv.messages = kept;
    proof {
        lemma_select_len(ms, rs, k as nat, len as int);
        lemma_lowest_count(rs, k as nat);
        law_compression_keeps_threshold(ms, rs, threshold as nat);
    }
    taken
}

/// The places of the first `m` messages that are among the `k` ranked lowest.
pub open spec fn lowest_places(ranks: Seq<u64>, k: nat, m: int) -> Set<int> {
    Set::new(|i: int| 0 <= i < m && among_lowest(ranks, k, i))
}

proof fn lemma_count_before_bound(ranks: Seq<u64>, i: int, m: int)
    requires
        0 <= i < ranks.len(),
        0 <= m <= ranks.len(),
    ensures
        count_before(ranks, i, m) + (if i < m { 1int } else { 0int }) <= m,
    decreases m,
{
    if m > 0 {
        lemma_count_before_bound(ranks, i, m - 1);
    }
}

proof fn lemma_select_len(ms: Seq<Message>, ranks: Seq<u64>, k: nat, m: int)
    requires
        0 <= m <= ranks.len(),
    ensures
        lowest_places(ranks, k, m).finite(),
        select(ms, ranks, k, true, m).len() == lowest_places(ranks, k, m).len(),
    decreases m,
{
    if m == 0 {
        assert(lowest_places(ranks, k, m) =~= Set::<int>::empty());
    } else {
        lemma_select_len(ms, ranks, k, m - 1);
        let before = lowest_places(ranks, k, m - 1);
        if among_lowest(ranks, k, m - 1) {
            assert(lowest_places(ranks, k, m) =~= before.insert(m - 1));
        } else {
            assert(lowest_places(ranks, k, m) =~= before);
        }
    }
}

/// Exactly `k` messages are among the `k` ranked lowest, when there are at
/// least `k`.
proof fn lemma_lowest_count(ranks: Seq<u64>, k: nat)
    requires
        k <= ranks.len(),
    ensures
        lowest_places(ranks, k, ranks.len() as int).len() == k,
{
    broadcast use vstd::set::group_set_axioms;

    let n = ranks.len() as int;
    let f = |i: int| count_before(ranks, i, n) as int;
    let all = vstd::set_lib::set_int_range(0, n);
    let low = lowest_places(ranks, k, n);
    let high = Set::new(|i: int| 0 <= i < n && !among_lowest(ranks, k, i));
    vstd::set_lib::lemma_int_range(0, n);
    vstd::set_lib::lemma_int_range(0, k as int);
    vstd::set_lib::lemma_int_range(k as int, n);
    assert(vstd::relations::injective_on(f, all)) by {
        assert forall|a: int, b: int| all.contains(a) && all.contains(b) && #[trigger] f(a) == #[trigger] f(b)
            implies a == b by {
            if a != b {
                if ranked_before(ranks, a, b) {
                    lemma_count_before_step(ranks, a, b, n);
                } else {
                    assert(ranked_before(ranks, b, a));
                    lemma_count_before_step(ranks, b, a, n);
                }
            }
        }
    }
    vstd::set_lib::lemma_len_subset(low, all);
    vstd::set_lib::lemma_len_subset(high, all);
    assert(vstd::relations::injective_on(f, low));
    assert(vstd::relations::injective_on(f, high));
    vstd::set_lib::lemma_map_size(low, low.map(f), f);
    vstd::set_lib::lemma_map_size(high, high.map(f), f);
    assert(low.map(f).subset_of(vstd::set_lib::set_int_range(0, k as int))) by {
        assert forall|v: int| low.map(f).contains(v) implies vstd::set_lib::set_int_range(
            0,
            k as int,
        ).contains(v) by {
            let i = choose|i: int| low.contains(i) && f(i) == v;
        }
    }
    assert(high.map(f).subset_of(vstd::set_lib::set_int_range(k as int, n))) by {
        assert forall|v: int| high.map(f).contains(v) implies vstd::set_lib::set_int_range(
            k as int,
            n,
        ).contains(v) by {
            let i = choose|i: int| high.contains(i) && f(i) == v;
            lemma_count_before_bound(ranks, i, n);
        }
    }
    vstd::set_lib::lemma_len_subset(low.map(f), vstd::set_lib::set_int_range(0, k as int));
    vstd::set_lib::lemma_len_subset(high.map(f), vstd::set_lib::set_int_range(k as int, n));
    assert(low + high =~= all);
    assert(low.disjoint(high));
    vstd::set_lib::lemma_set_disjoint_lens(low, high);
}

proof fn lemma_select_split(ms: Seq<Message>, ranks: Seq<u64>, k: nat, m: int)
    requires
        0 <= m,
    ensures
        select(ms, ranks, k, true, m).len() + select(ms, ranks, k, false, m).len() == m,
    decreases m,
{
    if m > 0 {
        lemma_select_split(ms, ranks, k, m - 1);
    }
}

/// Compression takes exactly the messages beyond the threshold: with more
/// messages than `threshold`, `len - threshold` are taken and `threshold`
/// kept; otherwise none is taken and all are kept.
pub proof fn law_compression_keeps_threshold(ms: Seq<Message>, ranks: Seq<u64>, threshold: nat)
    requires
        ranks.len() == ms.len(),
    ensures
        ({
            let n = ms.len() as int;
            let k = compress_count(ms.len(), threshold);
            let taken = select(ms, ranks, k, true, n);
            let kept = select(ms, ranks, k, false, n);
            &&& ms.len() > threshold ==> taken.len() == ms.len() - threshold && kept.len()
                == threshold
            &&& ms.len() <= threshold ==> taken.len() == 0 && kept.len() == ms.len()
        }),
{
    let n = ms.len() as int;
    let k = compress_count(ms.len(), threshold);
    lemma_select_split(ms, ranks, k, n);
    lemma_select_len(ms, ranks, k, n);
    if k <= ms.len() {
        lemma_lowest_count(ranks, k);
    }
}

/// Compression takes the lowest-ranked messages: every taken message ranks
/// at or below every kept one (and, on equal ranks, is the older).
pub proof fn law_compression_takes_lowest(ranks: Seq<u64>, k: nat, i: int, j: int)
    requires
        0 <= i < ranks.len(),
        0 <= j < ranks.len(),
        among_lowest(ranks, k, i),
        !among_lowest(ranks, k, j),
    ensures
        ranks[i] <= ranks[j],
        ranks[i] == ranks[j] ==> i < j,
{
    if ranked_before(ranks, j, i) {
        lemma_count_before_step(ranks, j, i, ranks.len() as int);
    }
}

/// When `j` ranks before `i`, everything ranked before `j` ranks before `i`,
/// and so does `j`.
proof fn lemma_count_before_step(ranks: Seq<u64>, j: int, i: int, n: int)
    requires
        0 <= i < ranks.len(),
        0 <= j < ranks.len(),
        0 <= n <= ranks.len(),
        ranked_before(ranks, j, i),
    ensures
        count_before(ranks, j, n) + (if j < n { 1int } else { 0int }) <= count_before(ranks, i, n),
    decreases n,
{
    if n > 0 {
        lemma_count_before_step(ranks, j, i, n - 1);
    }
}

/// A message as a line of the text handed to the summariser: role, colon,
/// content.
pub open spec fn transcript_line(m: Message) -> Seq<char> {
    m.role@ + ": "@ + m.content@
}

/// The text handed to the summariser: one line per message.
pub open spec fn transcript(ms: Seq<Message>) -> Seq<char> {
    join(ms.map_values(|m: Message| transcript_line(m)), "\n"@)
}

/// The messages as one text (see `transcript`).
pub fn compression_text(messages: &Vec<Message>) -> (r: String)
    ensures
        r@ == transcript(messages@),
{
    let ghost lines = messages@.map_values(|m: Message| transcript_line(m));
    let mut parts: Vec<Vec<char>> = Vec::new();
    let n = messages.len();
    for i in 0..n
        invariant
            n == messages.len(),
            lines == messages@.map_values(|m: Message| transcript_line(m)),
            views(parts@) == lines.take(i as int),
    {
        let s = crate::text::concat3(messages[i].role.as_str(), ": ", messages[i].content.as_str());
        let ghost before = views(parts@);
        parts.push(chars_of(s.as_str()));
        assert(views(parts@) =~= before.push(lines[i as int]));
        assert(lines.take(i + 1) =~= lines.take(i as int).push(lines[i as int]));
    }
    assert(lines.take(n as int) =~= lines);
    let nl = chars_of("\n");
    let joined = join_exec(&parts, &nl);
    string_of(&joined)
}

/// A message's trimmed content, cut to its first 200 bytes followed by `...`
/// when longer.
pub open spec fn shortened(content: Seq<char>) -> Seq<char> {
    let t = trim(content);
    if crate::validation::byte_len(t) > 200 {
        decode_utf8(encode_utf8(t).take(200)) + "..."@
    } else {
        t
    }
}

/// Cutting the trimmed content at 200 bytes falls between characters
/// (otherwise slicing there panics).
pub open spec fn cut_ok(content: Seq<char>) -> bool {
    let t = trim(content);
    crate::validation::byte_len(t) > 200 ==> is_char_boundary(encode_utf8(t), 200)
}

pub open spec fn is_assistant(m: Message) -> bool {
    m.role@ == "assistant"@
}

/// The shortened contents of the assistant's messages, in order.
pub open spec fn assistant_parts(ms: Seq<Message>) -> Seq<Seq<char>>
    decreases ms.len(),
{
    if ms.len() == 0 {
        Seq::empty()
    } else {
        let rest = assistant_parts(ms.drop_last());
        if is_assistant(ms.last()) {
            rest.push(shortened(ms.last().content@))
        } else {
            rest
        }
    }
}

/// `s` with each run of equal neighbours reduced to one (`Vec::dedup`).
pub open spec fn dedup(s: Seq<Seq<char>>) -> Seq<Seq<char>>
    decreases s.len(),
{
    if s.len() == 0 {
        Seq::empty()
    } else {
        let r = dedup(s.drop_last());
        if r.len() > 0 && r.last() == s.last() {
            r
        } else {
            r.push(s.last())
        }
    }
}

/// A summary made without the model: the distinct consecutive shortened
/// replies of the assistant joined by spaces, or `(conversation continued)`
/// when there are none.
pub open spec fn extractive(ms: Seq<Message>) -> Seq<char> {
    let parts = dedup(assistant_parts(ms));
    if parts.len() == 0 {
        "(conversation continued)"@
    } else {
        join(parts, " "@)
    }
}

fn shorten(content: &String) -> (r: Vec<char>)
    requires
        cut_ok(content@),
    ensures
        r@ == shortened(content@),
{
    let v = chars_of(content.as_str());
    let t = trim_exec(&v);
    let ts = string_of(&t);
    let s = ts.as_str();
    if s.len() > 200 {
        let (head, _) = s.split_at(200);
        let mut r = chars_of(head);
        proof {
            assert(head.spec_bytes() =~= encode_utf8(t@).take(200));
        }
        let dots = chars_of("...");
        let n = dots.len();
        let ghost h = r@;
        for i in 0..n
            invariant
                n == dots.len(),
                r@ == h + dots@.take(i as int),
        {
            r.push(dots[i]);
            assert(dots@.take(i + 1) =~= dots@.take(i as int).push(dots@[i as int]));
        }
        assert(dots@.take(n as int) =~= dots@);
        r
    } else {
        t
    }
}

/// A summary made without the model (see `extractive`).
pub fn extractive_summary(messages: &Vec<Message>) -> (r: String)
    requires
        forall|i: int|
            0 <= i < messages.len() && is_assistant(#[trigger] messages@[i]) ==> cut_ok(
                messages@[i].content@,
            ),
    ensures
        r@ == extractive(messages@),
{
    let mut parts: Vec<Vec<char>> = Vec::new();
    let n = messages.len();
    for i in 0..n
        invariant
            n == messages.len(),
            forall|k: int|
                0 <= k < messages.len() && is_assistant(#[trigger] messages@[k]) ==> cut_ok(
                    messages@[k].content@,
                ),
            views(parts@) == dedup(assistant_parts(messages@.take(i as int))),
    {
        let m = &messages[i];
        assert(messages@.take(i + 1).drop_last() =~= messages@.take(i as int));
        assert(messages@.take(i + 1).last() == *m);
        if str_eq(m.role.as_str(), "assistant") {
            let p = shorten(&m.content);
            let ghost ap = assistant_parts(messages@.take(i as int));
            assert(assistant_parts(messages@.take(i + 1)) == ap.push(p@));
            assert(dedup(ap.push(p@)).len() >= 0);
            assert(ap.push(p@).drop_last() =~= ap);
            let dup = parts.len() > 0 && crate::text::chars_eq(&parts[parts.len() - 1], &p);
            if !dup {
                let ghost before = views(parts@);
                parts.push(p);
                assert(views(parts@) =~= before.push(p@));
            }
        }
    }
    assert(messages@.take(n as int) =~= messages@);
    if parts.len() == 0 {
        return owned("(conversation continued)");
    }
    let sp = chars_of(" ");
    let joined = join_exec(&parts, &sp);
    string_of(&joined)
}

} // verus!
