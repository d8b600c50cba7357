//! Character-sequence helpers shared by the rest of the library: the
//! mathematical meaning of trimming, splitting and searching, and executable
//! versions proved against it.

use vstd::prelude::*;

verus! {

broadcast use vstd::string::group_string_axioms;

// ---------------------------------------------------------------------------
// Character classes
// ---------------------------------------------------------------------------

/// Unicode general category Cc, which is what `char::is_control` tests.
pub open spec fn is_control(c: char) -> bool {
    (c as u32) <= 0x1f || (0x7f <= (c as u32) && (c as u32) <= 0x9f)
}

/// The Unicode `White_Space` property, which is what `char::is_whitespace` tests.
pub open spec fn is_whitespace(c: char) -> bool {
    let u = c as u32;
    (0x09 <= u && u <= 0x0d) || u == 0x20 || u == 0x85 || u == 0xa0 || u == 0x1680 || (0x2000
        <= u && u <= 0x200a) || u == 0x2028 || u == 0x2029 || u == 0x202f || u == 0x205f || u
        == 0x3000
}

/// ASCII letters and digits.
pub open spec fn is_ascii_alphanumeric(c: char) -> bool {
    ('a' <= c && c <= 'z') || ('A' <= c && c <= 'Z') || ('0' <= c && c <= '9')
}

pub fn control_char(c: char) -> (b: bool)
    ensures
        b == is_control(c),
{
    let u = c as u32;
    u <= 0x1f || (0x7f <= u && u <= 0x9f)
}

pub fn whitespace_char(c: char) -> (b: bool)
    ensures
        b == is_whitespace(c),
{
    let u = c as u32;
    (0x09 <= u && u <= 0x0d) || u == 0x20 || u == 0x85 || u == 0xa0 || u == 0x1680 || (0x2000
        <= u && u <= 0x200a) || u == 0x2028 || u == 0x2029 || u == 0x202f || u == 0x205f || u
        == 0x3000
}

/// What `char::is_alphanumeric` answers for `c` (the Unicode `Alphabetic` or
/// `Numeric` property).
pub uninterp spec fn unicode_alphanumeric(c: char) -> bool;

/// Calls `char::is_alphanumeric`. The contract names its answer and states,
/// as the std documentation and the Unicode tables give it for the ASCII
/// range, that an ASCII character is alphanumeric exactly when it is an
/// ASCII letter or digit. Outside ASCII nothing more is claimed.
#[verifier::external_body]
pub(crate) fn alphanumeric_char(c: char) -> (b: bool)
    ensures
        b == unicode_alphanumeric(c),
        (c as u32) < 0x80 ==> (b <==> is_ascii_alphanumeric(c)),
{
    c.is_alphanumeric()
}

/// The ASCII lower-case form of a character: `A`..`Z` become `a`..`z`,
/// everything else stays.
pub open spec fn ascii_lowercase_char(c: char) -> char {
    if 'A' <= c && c <= 'Z' {
        ((c as u32) + 32) as char
    } else {
        c
    }
}

/// The ASCII upper-case form of a character: `a`..`z` become `A`..`Z`,
/// everything else stays.
pub open spec fn ascii_uppercase_char(c: char) -> char {
    if 'a' <= c && c <= 'z' {
        ((c as u32) - 32) as char
    } else {
        c
    }
}

/// All characters are ASCII.
pub open spec fn all_ascii(s: Seq<char>) -> bool {
    forall|i: int| 0 <= i < s.len() ==> (#[trigger] s[i] as u32) < 0x80
}

/// What `str::to_lowercase` returns for a string with the given characters.
pub uninterp spec fn unicode_lowercase(s: Seq<char>) -> Seq<char>;

/// Calls `str::to_lowercase`. Its result depends on the string alone and is
/// named; the Unicode case tables are not restated, except that an ASCII
/// string is lower-cased character by character in ASCII (the Unicode
/// lower-case mapping of `A`..`Z` is `a`..`z`, and other ASCII characters
/// have none).
#[verifier::external_body]
pub(crate) fn to_lowercase(s: &str) -> (res: String)
    ensures
        res@ == unicode_lowercase(s@),
        all_ascii(s@) ==> res@ == s@.map_values(|c: char| ascii_lowercase_char(c)),
{
    s.to_lowercase()
}

/// What `char::to_uppercase` yields for `c`, as a sequence of characters.
pub uninterp spec fn unicode_uppercase(c: char) -> Seq<char>;

/// Calls `char::to_uppercase` and collects what it yields into a `String`.
/// The characters it yields are named; the Unicode case tables are not
/// restated, except that an ASCII character yields its ASCII upper-case form
/// alone (as the std documentation's examples and the Unicode tables give).
#[verifier::external_body]
pub(crate) fn char_to_uppercase(c: char) -> (res: String)
    ensures
        res@ == unicode_uppercase(c),
        (c as u32) < 0x80 ==> res@ == seq![ascii_uppercase_char(c)],
{
    c.to_uppercase().collect()
}

/// Calls `String::push`, which appends one character.
#[verifier::external_body]
pub(crate) fn push_char(s: &mut String, c: char)
    ensures
        final(s)@ == old(s)@.push(c),
{
    s.push(c)
}

// ---------------------------------------------------------------------------
// Conversions between `str`, `String` and `Vec<char>`
// ---------------------------------------------------------------------------

/// The characters of `s`, in order.
pub fn chars_of(s: &str) -> (v: Vec<char>)
    ensures
        v@ == s@,
{
    let mut v: Vec<char> = Vec::new();
    for c in it: s.chars()
        invariant
            v@ == it.seq().take(it.index() as int),
            it.seq() == s@,
    {
        v.push(c);
    }
    v
}

/// The string made of the characters of `v`.
pub fn string_of(v: &Vec<char>) -> (s: String)
    ensures
        s@ == v@,
{
    let mut s = String::new();
    let n = v.len();
    for i in 0..n
        invariant
            n == v.len(),
            s@ == v@.take(i as int),
    {
        push_char(&mut s, v[i]);
        assert(v@.take(i + 1) == v@.take(i as int).push(v@[i as int]));
    }
    assert(v@.take(n as int) == v@);
    s
}

/// The string made of the characters of `s`, owned.
pub fn owned(s: &str) -> (r: String)
    ensures
        r@ == s@,
{
    s.to_owned()
}

/// Appends the characters of `v` to `s`.
pub fn append_chars(s: &mut String, v: &Vec<char>)
    ensures
        final(s)@ == old(s)@ + v@,
{
    let n = v.len();
    let ghost start = s@;
    for i in 0..n
        invariant
            n == v.len(),
            s@ == start + v@.take(i as int),
    {
        push_char(s, v[i]);
        assert(v@.take(i + 1) == v@.take(i as int).push(v@[i as int]));
    }
    assert(v@.take(n as int) == v@);
}

/// `a + b` as a new string.
pub fn concat2(a: &str, b: &str) -> (r: String)
    ensures
        r@ == a@ + b@,
{
    let mut r = a.to_owned();
    r.append(b);
    r
}

/// `a + b + c` as a new string.
pub fn concat3(a: &str, b: &str, c: &str) -> (r: String)
    ensures
        r@ == a@ + b@ + c@,
{
    let mut r = a.to_owned();
    r.append(b);
    r.append(c);
    r
}

/// Whether two character vectors hold the same characters.
pub fn chars_eq(a: &Vec<char>, b: &Vec<char>) -> (r: bool)
    ensures
        r == (a@ == b@),
{
    if a.len() != b.len() {
        return false;
    }
    let n = a.len();
    for i in 0..n
        invariant
            n == a.len(),
            n == b.len(),
            forall|j: int| 0 <= j < i ==> a@[j] == b@[j],
    {
        if a[i] != b[i] {
            return false;
        }
    }
    assert(a@ =~= b@);
    true
}

/// Whether two strings hold the same characters.
pub fn str_eq(a: &str, b: &str) -> (r: bool)
    ensures
        r == (a@ == b@),
{
    let va = chars_of(a);
    let vb = chars_of(b);
    chars_eq(&va, &vb)
}

// ---------------------------------------------------------------------------
// Searching
// ---------------------------------------------------------------------------

/// `p` occurs in `s` starting at index `i`.
pub open spec fn occurs_at(s: Seq<char>, p: Seq<char>, i: int) -> bool {
    0 <= i && i + p.len() <= s.len() && s.subrange(i, i + p.len()) == p
}

/// `p` occurs somewhere in `s` (what `str::contains` tests for a string pattern).
pub open spec fn contains(s: Seq<char>, p: Seq<char>) -> bool {
    exists|i: int| occurs_at(s, p, i)
}

/// `s` begins with `p`.
pub open spec fn starts_with(s: Seq<char>, p: Seq<char>) -> bool {
    p.len() <= s.len() && s.take(p.len() as int) == p
}

/// `s` ends with `p`.
pub open spec fn ends_with(s: Seq<char>, p: Seq<char>) -> bool {
    p.len() <= s.len() && s.skip(s.len() - p.len()) == p
}

/// Whether `p` occurs in `s` at index `i`.
pub fn occurs_at_exec(s: &Vec<char>, p: &Vec<char>, i: usize) -> (r: bool)
    ensures
        r == occurs_at(s@, p@, i as int),
{
    if i > s.len() || p.len() > s.len() - i {
        return false;
    }
    let n = p.len();
    for j in 0..n
        invariant
            n == p.len(),
            i + n <= s.len(),
            forall|k: int| 0 <= k < j ==> s@[i + k] == p@[k],
    {
        if s[i + j] != p[j] {
            assert(s@.subrange(i as int, i + n)[j as int] != p@[j as int]);
            return false;
        }
    }
    assert(s@.subrange(i as int, i + n) =~= p@);
    true
}

/// Whether `p` occurs anywhere in `s`.
pub fn contains_exec(s: &Vec<char>, p: &Vec<char>) -> (r: bool)
    ensures
        r == contains(s@, p@),
{
    if p.len() > s.len() {
        return false;
    }
    let last = s.len() - p.len();
    let mut i: usize = 0;
    while i < last
        invariant
            last == s.len() - p.len(),
            p.len() <= s.len(),
            i <= last,
            forall|k: int| 0 <= k < i ==> !occurs_at(s@, p@, k),
        decreases last - i,
    {
        if occurs_at_exec(s, p, i) {
            return true;
        }
        i = i + 1;
    }
    if occurs_at_exec(s, p, last) {
        return true;
    }
    assert forall|k: int| !occurs_at(s@, p@, k) by {
        if 0 <= k && k + p@.len() <= s@.len() {
            assert(k <= i);
        }
    }
    false
}

/// Whether `s` begins with `p`.
pub fn starts_with_exec(s: &Vec<char>, p: &Vec<char>) -> (r: bool)
    ensures
        r == starts_with(s@, p@),
{
    let r = occurs_at_exec(s, p, 0);
    proof {
        if r {
            assert(s@.take(p@.len() as int) =~= s@.subrange(0, p@.len() as int));
        }
        if starts_with(s@, p@) {
            assert(s@.take(p@.len() as int) =~= s@.subrange(0, p@.len() as int));
        }
    }
    r
}

// ---------------------------------------------------------------------------
// Trimming
// ---------------------------------------------------------------------------

/// `s` without its leading characters that satisfy `p` (`trim_start_matches`).
pub open spec fn trim_start_by(s: Seq<char>, p: spec_fn(char) -> bool) -> Seq<char>
    decreases s.len(),
{
    if s.len() > 0 && p(s[0]) {
        trim_start_by(s.drop_first(), p)
    } else {
        s
    }
}

/// `s` without its trailing characters that satisfy `p` (`trim_end_matches`).
pub open spec fn trim_end_by(s: Seq<char>, p: spec_fn(char) -> bool) -> Seq<char>
    decreases s.len(),
{
    if s.len() > 0 && p(s.last()) {
        trim_end_by(s.drop_last(), p)
    } else {
        s
    }
}

pub open spec fn ws() -> spec_fn(char) -> bool {
    |c: char| is_whitespace(c)
}

pub open spec fn is_char(c: char) -> spec_fn(char) -> bool {
    |d: char| d == c
}

/// `str::trim`: both ends stripped of Unicode white space.
pub open spec fn trim(s: Seq<char>) -> Seq<char> {
    trim_end_by(trim_start_by(s, ws()), ws())
}

/// `trim_start_matches(c)` followed by `trim_end_matches(c)`.
pub open spec fn trim_char(s: Seq<char>, c: char) -> Seq<char> {
    trim_end_by(trim_start_by(s, is_char(c)), is_char(c))
}

pub proof fn lemma_trim_start_step(s: Seq<char>, p: spec_fn(char) -> bool, i: int)
    requires
        0 <= i < s.len(),
        p(s[i]),
    ensures
        trim_start_by(s.subrange(i, s.len() as int), p) == trim_start_by(
            s.subrange(i + 1, s.len() as int),
            p,
        ),
{
    assert(s.subrange(i, s.len() as int).drop_first() =~= s.subrange(i + 1, s.len() as int));
}

/// Bounds `(a, b)` such that `s[a..b]` is `s` with leading characters
/// satisfying the predicate removed: here white space.
pub fn trim_bounds(s: &Vec<char>) -> (r: (usize, usize))
    ensures
        r.0 <= r.1 <= s.len(),
        s@.subrange(r.0 as int, r.1 as int) == trim(s@),
{
    let n = s.len();
    let mut a: usize = 0;
    assert(s@.subrange(0, n as int) =~= s@);
    while a < n && whitespace_char(s[a])
        invariant
            n == s.len(),
            a <= n,
            trim_start_by(s@, ws()) == trim_start_by(s@.subrange(a as int, n as int), ws()),
        decreases n - a,
    {
        proof {
            lemma_trim_start_step(s@, ws(), a as int);
        }
        a = a + 1;
    }
    let ghost t = s@.subrange(a as int, n as int);
    assert(s@.subrange(0, n as int) =~= s@);
    assert(trim_start_by(t, ws()) == t);
    let mut b: usize = n;
    while b > a && whitespace_char(s[b - 1])
        invariant
            n == s.len(),
            a <= b <= n,
            t == s@.subrange(a as int, n as int),
            trim_end_by(t, ws()) == trim_end_by(s@.subrange(a as int, b as int), ws()),
        decreases b - a,
    {
        proof {
            let u = s@.subrange(a as int, b as int);
            assert(u.drop_last() =~= s@.subrange(a as int, b - 1));
        }
        b = b - 1;
    }
    (a, b)
}

/// Bounds `(a, b)` such that `s[a..b]` is `s` with the character `c` removed
/// from both ends as often as it occurs there.
pub fn trim_char_bounds(s: &Vec<char>, c: char) -> (r: (usize, usize))
    ensures
        r.0 <= r.1 <= s.len(),
        s@.subrange(r.0 as int, r.1 as int) == trim_char(s@, c),
{
    let n = s.len();
    let mut a: usize = 0;
    assert(s@.subrange(0, n as int) =~= s@);
    while a < n && s[a] == c
        invariant
            n == s.len(),
            a <= n,
            trim_start_by(s@, is_char(c)) == trim_start_by(
                s@.subrange(a as int, n as int),
                is_char(c),
            ),
        decreases n - a,
    {
        proof {
            lemma_trim_start_step(s@, is_char(c), a as int);
        }
        a = a + 1;
    }
    let ghost t = s@.subrange(a as int, n as int);
    assert(s@.subrange(0, n as int) =~= s@);
    assert(trim_start_by(t, is_char(c)) == t);
    let mut b: usize = n;
    while b > a && s[b - 1] == c
        invariant
            n == s.len(),
            a <= b <= n,
            t == s@.subrange(a as int, n as int),
            trim_end_by(t, is_char(c)) == trim_end_by(s@.subrange(a as int, b as int), is_char(c)),
        decreases b - a,
    {
        proof {
            let u = s@.subrange(a as int, b as int);
            assert(u.drop_last() =~= s@.subrange(a as int, b - 1));
        }
        b = b - 1;
    }
    (a, b)
}

/// The characters `s[a..b]` as a new vector.
pub fn slice_chars(s: &Vec<char>, a: usize, b: usize) -> (r: Vec<char>)
    requires
        a <= b <= s.len(),
    ensures
        r@ == s@.subrange(a as int, b as int),
{
    let mut r: Vec<char> = Vec::new();
    let mut i = a;
    while i < b
        invariant
            a <= i <= b <= s.len(),
            r@ == s@.subrange(a as int, i as int),
        decreases b - i,
    {
        r.push(s[i]);
        assert(s@.subrange(a as int, i + 1) =~= s@.subrange(a as int, i as int).push(s@[i as int]));
        i = i + 1;
    }
    r
}

/// `s` with white space removed from both ends.
pub fn trim_exec(s: &Vec<char>) -> (r: Vec<char>)
    ensures
        r@ == trim(s@),
{
    let (a, b) = trim_bounds(s);
    slice_chars(s, a, b)
}

// ---------------------------------------------------------------------------
// Splitting
// ---------------------------------------------------------------------------

/// The pieces of `s` between occurrences of `sep` (`str::split` with a
/// character pattern); there is always at least one piece.
pub open spec fn split(s: Seq<char>, sep: char) -> Seq<Seq<char>>
    decreases s.len(),
{
    if s.len() == 0 {
        seq![Seq::<char>::empty()]
    } else {
        let r = split(s.drop_last(), sep);
        if s.last() == sep {
            r.push(Seq::<char>::empty())
        } else {
            r.update(r.len() - 1, r.last().push(s.last()))
        }
    }
}

pub proof fn lemma_split_len(s: Seq<char>, sep: char)
    ensures
        split(s, sep).len() >= 1,
    decreases s.len(),
{
    if s.len() > 0 {
        lemma_split_len(s.drop_last(), sep);
    }
}

/// Splitting at a separator placed between two texts splits each of them.
pub proof fn lemma_split_concat(a: Seq<char>, b: Seq<char>, sep: char)
    ensures
        split(a + seq![sep] + b, sep) == split(a, sep) + split(b, sep),
    decreases b.len(),
{
    let s = a + seq![sep] + b;
    lemma_split_len(a, sep);
    if b.len() == 0 {
        assert(s.drop_last() =~= a);
        assert(split(a, sep).push(Seq::<char>::empty()) =~= split(a, sep) + split(b, sep));
    } else {
        let b0 = b.drop_last();
        lemma_split_concat(a, b0, sep);
        lemma_split_len(b0, sep);
        assert(s.drop_last() =~= a + seq![sep] + b0);
        assert(s.last() == b.last());
        let r = split(a, sep) + split(b0, sep);
        if b.last() == sep {
            assert(r.push(Seq::<char>::empty()) =~= split(a, sep) + split(b, sep));
        } else {
            assert(r.update(r.len() - 1, r.last().push(b.last())) =~= split(a, sep) + split(b, sep));
        }
    }
}

/// Joining the pieces of a split with the separator gives the text back.
pub proof fn lemma_join_split(s: Seq<char>, sep: char)
    ensures
        join(split(s, sep), seq![sep]) == s,
    decreases s.len(),
{
    if s.len() > 0 {
        let s0 = s.drop_last();
        lemma_join_split(s0, sep);
        lemma_split_len(s0, sep);
        let r = split(s0, sep);
        if s.last() == sep {
            let r1 = r.push(Seq::<char>::empty());
            assert(r1.drop_last() =~= r);
            assert(join(r1, seq![sep]) =~= s);
        } else {
            let r1 = r.update(r.len() - 1, r.last().push(s.last()));
            if r.len() == 1 {
                assert(join(r1, seq![sep]) =~= s);
            } else {
                let c = s.last();
                assert(r1.drop_last() =~= r.drop_last());
                assert(r1.last() == r.last().push(c));
                assert(join(r, seq![sep]) == join(r.drop_last(), seq![sep]) + seq![sep] + r.last());
                assert(join(r1, seq![sep]) == join(r.drop_last(), seq![sep]) + seq![sep] + r.last().push(
                    c,
                ));
                assert(s =~= s0.push(c));
                assert(join(r1, seq![sep]) =~= s);
            }
        }
    }
}

/// The views of a vector of character vectors.
pub open spec fn views(v: Seq<Vec<char>>) -> Seq<Seq<char>> {
    v.map_values(|x: Vec<char>| x@)
}

/// The views of a vector of strings.
pub open spec fn string_views(v: Seq<String>) -> Seq<Seq<char>> {
    v.map_values(|x: String| x@)
}

/// `s` split at every `sep`.
pub fn split_exec(s: &Vec<char>, sep: char) -> (r: Vec<Vec<char>>)
    ensures
        views(r@) == split(s@, sep),
{
    let mut done: Vec<Vec<char>> = Vec::new();
    let mut cur: Vec<char> = Vec::new();
    let n = s.len();
    for i in 0..n
        invariant
            n == s.len(),
            views(done@).push(cur@) == split(s@.take(i as int), sep),
    {
        let ghost before = s@.take(i as int);
        proof {
            assert(s@.take(i + 1).drop_last() =~= before);
            assert(s@.take(i + 1).last() == s@[i as int]);
        }
        if s[i] == sep {
            let finished = cur;
            done.push(finished);
            cur = Vec::new();
            assert(views(done@).push(cur@) =~= split(s@.take(i + 1), sep));
        } else {
            cur.push(s[i]);
            assert(views(done@).push(cur@) =~= split(s@.take(i + 1), sep));
        }
    }
    assert(s@.take(n as int) =~= s@);
    done.push(cur);
    assert(views(done@) =~= split(s@, sep));
    done
}

// ---------------------------------------------------------------------------
// Numbers
// ---------------------------------------------------------------------------

pub open spec fn digit_char(d: nat) -> char
    recommends
        d < 10,
{
    if d == 0 {
        '0'
    } else if d == 1 {
        '1'
    } else if d == 2 {
        '2'
    } else if d == 3 {
        '3'
    } else if d == 4 {
        '4'
    } else if d == 5 {
        '5'
    } else if d == 6 {
        '6'
    } else if d == 7 {
        '7'
    } else if d == 8 {
        '8'
    } else {
        '9'
    }
}

/// The decimal digits of `n`, most significant first, as `Display` prints them.
pub open spec fn decimal(n: nat) -> Seq<char>
    decreases n,
{
    if n < 10 {
        seq![digit_char(n)]
    } else {
        decimal(n / 10).push(digit_char(n % 10))
    }
}

fn digit_exec(d: u64) -> (c: char)
    requires
        d < 10,
    ensures
        c == digit_char(d as nat),
{
    if d == 0 {
        '0'
    } else if d == 1 {
        '1'
    } else if d == 2 {
        '2'
    } else if d == 3 {
        '3'
    } else if d == 4 {
        '4'
    } else if d == 5 {
        '5'
    } else if d == 6 {
        '6'
    } else if d == 7 {
        '7'
    } else if d == 8 {
        '8'
    } else {
        '9'
    }
}

/// The decimal representation of `n` (what `n.to_string()` gives).
pub fn decimal_exec(n: u64) -> (r: Vec<char>)
    ensures
        r@ == decimal(n as nat),
    decreases n,
{
    if n < 10 {
        let mut v = Vec::new();
        v.push(digit_exec(n));
        v
    } else {
        let mut v = decimal_exec(n / 10);
        v.push(digit_exec(n % 10));
        v
    }
}

/// The value of the digit character `c`, if it is an ASCII digit.
pub open spec fn digit_value(c: char) -> int {
    (c as u32) - ('0' as u32)
}

pub open spec fn is_digit(c: char) -> bool {
    '0' <= c && c <= '9'
}

/// The value of a run of decimal digits.
pub open spec fn digits_value(s: Seq<char>) -> nat
    decreases s.len(),
{
    if s.len() == 0 {
        0
    } else {
        (digits_value(s.drop_last()) * 10 + digit_value(s.last())) as nat
    }
}

/// All characters of `s` are ASCII digits.
pub open spec fn all_digits(s: Seq<char>) -> bool {
    forall|i: int| 0 <= i < s.len() ==> is_digit(#[trigger] s[i])
}

/// What `str::parse::<usize>` yields: an optional `+`, then one or more ASCII
/// digits whose value fits in a `usize`.
pub open spec fn parse_usize_spec(s: Seq<char>) -> Option<usize> {
    let body = if s.len() > 0 && s[0] == '+' {
        s.drop_first()
    } else {
        s
    };
    if body.len() > 0 && all_digits(body) && digits_value(body) <= usize::MAX {
        Some(digits_value(body) as usize)
    } else {
        None
    }
}

/// A decimal numeral is a non-empty run of digits whose value is the number.
pub proof fn lemma_decimal_digits(n: nat)
    ensures
        decimal(n).len() > 0,
        all_digits(decimal(n)),
        digits_value(decimal(n)) == n,
    decreases n,
{
    let d = n % 10;
    assert(digit_value(digit_char(d)) == d && is_digit(digit_char(d))) by {
        assert(d < 10);
    }
    if n >= 10 {
        lemma_decimal_digits(n / 10);
        let s = decimal(n);
        assert(s.drop_last() =~= decimal(n / 10));
        assert(s.last() == digit_char(d));
        assert((n / 10) * 10 + d == n) by (nonlinear_arith)
            requires
                d == n % 10,
        ;
        assert(digits_value(s) == (digits_value(s.drop_last()) * 10 + digit_value(s.last())) as nat);
        assert(digits_value(s.drop_last()) == n / 10);
        assert(digit_value(s.last()) == d);
        assert forall|i: int| 0 <= i < s.len() implies is_digit(#[trigger] s[i]) by {
            if i < s.len() - 1 {
                assert(s[i] == decimal(n / 10)[i]);
            }
        }
    } else {
        assert(n % 10 == n);
        let s = decimal(n);
        assert(s.drop_last() =~= Seq::<char>::empty());
        assert(digits_value(s.drop_last()) == 0);
        assert(s.last() == digit_char(n));
        assert(digits_value(s) == (digits_value(s.drop_last()) * 10 + digit_value(s.last())) as nat);
    }
}

/// A decimal numeral of a number that fits a `usize` parses back to it.
pub proof fn lemma_decimal_parses(n: nat)
    requires
        n <= usize::MAX,
    ensures
        parse_usize_spec(decimal(n)) == Some(n as usize),
        !decimal(n).contains('.'),
{
    lemma_decimal_digits(n);
    let s = decimal(n);
    assert(is_digit(s[0]));
    if s.contains('.') {
        let k = choose|k: int| 0 <= k < s.len() && s[k] == '.';
        assert(is_digit(s[k]));
    }
}

pub proof fn lemma_digits_value_monotone(s: Seq<char>, i: int)
    requires
        0 <= i <= s.len(),
        all_digits(s),
    ensures
        digits_value(s.take(i)) <= digits_value(s),
    decreases s.len() - i,
{
    if i < s.len() {
        lemma_digits_value_monotone(s, i + 1);
        assert(s.take(i + 1).drop_last() =~= s.take(i));
        assert(is_digit(s[i]));
    } else {
        assert(s.take(i) =~= s);
    }
}

/// `s` parsed as a `usize` in the way `str::parse` does.
pub fn parse_usize(s: &str) -> (r: Option<usize>)
    ensures
        r == parse_usize_spec(s@),
{
    let v = chars_of(s);
    let start: usize = if v.len() > 0 && v[0] == '+' {
        1
    } else {
        0
    };
    let ghost body = if s@.len() > 0 && s@[0] == '+' {
        s@.drop_first()
    } else {
        s@
    };
    assert(body =~= v@.subrange(start as int, v@.len() as int));
    if start >= v.len() {
        return None;
    }
    let mut acc: usize = 0;
    let mut i = start;
    while i < v.len()
        invariant
            start <= i <= v.len(),
            v@ == s@,
            body == (if s@.len() > 0 && s@[0] == '+' {
                s@.drop_first()
            } else {
                s@
            }),
            body =~= v@.subrange(start as int, v@.len() as int),
            all_digits(body.take(i - start)),
            acc as nat == digits_value(body.take(i - start)),
        decreases v.len() - i,
    {
        let c = v[i];
        let ghost k = (i - start) as int;
        assert(body[k] == c);
        assert(body.take(k + 1).drop_last() =~= body.take(k));
        if !('0' <= c && c <= '9') {
            proof {
                assert(!is_digit(body[k]));
                assert(!all_digits(body));
                assert(parse_usize_spec(s@) is None);
            }
            return None;
        }
        let d = (c as u32 - '0' as u32) as usize;
        if acc > (usize::MAX - d) / 10 {
            proof {
                assert(acc * 10 + d > usize::MAX) by (nonlinear_arith)
                    requires
                        acc > (usize::MAX - d) / 10,
                        d <= 9,
                ;
                assert(all_digits(body.take(k + 1)));
                if all_digits(body) {
                    lemma_digits_value_monotone(body, k + 1);
                }
                assert(parse_usize_spec(s@) is None);
            }
            return None;
        }
        acc = acc * 10 + d;
        assert(all_digits(body.take(k + 1)));
        i = i + 1;
    }
    assert(body.take(i - start) =~= body);
    Some(acc)
}

} // verus!

verus! {

// ---------------------------------------------------------------------------
// Joining and lines
// ---------------------------------------------------------------------------

/// The parts joined with `sep` between consecutive parts (`[..].join(sep)`).
pub open spec fn join(parts: Seq<Seq<char>>, sep: Seq<char>) -> Seq<char>
    decreases parts.len(),
{
    if parts.len() == 0 {
        Seq::<char>::empty()
    } else if parts.len() == 1 {
        parts[0]
    } else {
        join(parts.drop_last(), sep) + sep + parts.last()
    }
}

/// `parts` joined with `sep`.
pub fn join_exec(parts: &Vec<Vec<char>>, sep: &Vec<char>) -> (r: Vec<char>)
    ensures
        r@ == join(views(parts@), sep@),
{
    let mut r: Vec<char> = Vec::new();
    let n = parts.len();
    for i in 0..n
        invariant
            n == parts.len(),
            r@ == join(views(parts@).take(i as int), sep@),
    {
        let ghost before = r@;
        if i > 0 {
            let mut k: usize = 0;
            while k < sep.len()
                invariant
                    0 <= k <= sep.len(),
                    r@ == before + sep@.take(k as int),
                decreases sep.len() - k,
            {
                r.push(sep[k]);
                assert(sep@.take(k + 1) =~= sep@.take(k as int).push(sep@[k as int]));
                k = k + 1;
            }
            assert(sep@.take(sep.len() as int) =~= sep@);
        }
        let ghost mid = r@;
        let part = &parts[i];
        let mut k: usize = 0;
        while k < part.len()
            invariant
                0 <= k <= part.len(),
                r@ == mid + part@.take(k as int),
            decreases part.len() - k,
        {
            r.push(part[k]);
            assert(part@.take(k + 1) =~= part@.take(k as int).push(part@[k as int]));
            k = k + 1;
        }
        assert(part@.take(part.len() as int) =~= part@);
        proof {
            let t = views(parts@).take(i + 1);
            assert(t.drop_last() =~= views(parts@).take(i as int));
            assert(t.last() == parts@[i as int]@);
            if i == 0 {
                assert(before =~= Seq::<char>::empty());
                assert(r@ =~= part@);
            } else {
                assert(r@ =~= before + sep@ + part@);
            }
        }
    }
    assert(views(parts@).take(n as int) =~= views(parts@));
    r
}

/// The lines of `s` as `str::lines` yields them for text holding no `'\r'`:
/// the pieces between newlines, where a final newline ends the last line
/// rather than starting an empty one.
pub open spec fn lines(s: Seq<char>) -> Seq<Seq<char>> {
    if s.len() == 0 {
        Seq::<Seq<char>>::empty()
    } else if s.last() == '\n' {
        split(s.drop_last(), '\n')
    } else {
        split(s, '\n')
    }
}

/// The lines of `s` (see `lines`).
pub fn lines_exec(s: &Vec<char>) -> (r: Vec<Vec<char>>)
    ensures
        views(r@) == lines(s@),
{
    if s.len() == 0 {
        let r: Vec<Vec<char>> = Vec::new();
        assert(views(r@) =~= Seq::<Seq<char>>::empty());
        return r;
    }
    if s[s.len() - 1] == '\n' {
        let body = slice_chars(s, 0, s.len() - 1);
        assert(body@ =~= s@.drop_last());
        split_exec(&body, '\n')
    } else {
        split_exec(s, '\n')
    }
}

/// Every character of `s` satisfies `p`.
pub open spec fn all_chars(s: Seq<char>, p: spec_fn(char) -> bool) -> bool {
    forall|i: int| 0 <= i < s.len() ==> p(#[trigger] s[i])
}

pub proof fn lemma_trim_start_sub(s: Seq<char>, p: spec_fn(char) -> bool)
    ensures
        exists|a: int| 0 <= a <= s.len() && trim_start_by(s, p) == s.subrange(a, s.len() as int),
    decreases s.len(),
{
    if s.len() > 0 && p(s[0]) {
        lemma_trim_start_sub(s.drop_first(), p);
        let a = choose|a: int|
            0 <= a <= s.drop_first().len() && trim_start_by(s.drop_first(), p)
                == s.drop_first().subrange(a, s.drop_first().len() as int);
        assert(s.drop_first().subrange(a, s.drop_first().len() as int) =~= s.subrange(
            a + 1,
            s.len() as int,
        ));
    } else {
        assert(s.subrange(0, s.len() as int) =~= s);
    }
}

pub proof fn lemma_trim_end_sub(s: Seq<char>, p: spec_fn(char) -> bool)
    ensures
        exists|b: int| 0 <= b <= s.len() && trim_end_by(s, p) == s.subrange(0, b),
    decreases s.len(),
{
    if s.len() > 0 && p(s.last()) {
        lemma_trim_end_sub(s.drop_last(), p);
        let b = choose|b: int|
            0 <= b <= s.drop_last().len() && trim_end_by(s.drop_last(), p)
                == s.drop_last().subrange(0, b);
        assert(s.drop_last().subrange(0, b) =~= s.subrange(0, b));
    } else {
        assert(s.subrange(0, s.len() as int) =~= s);
    }
}

/// Trimming keeps a property that every character has.
pub proof fn lemma_trim_keeps_all(s: Seq<char>, q: spec_fn(char) -> bool)
    requires
        all_chars(s, q),
    ensures
        all_chars(trim(s), q),
{
    lemma_trim_start_sub(s, ws());
    let t = trim_start_by(s, ws());
    let a = choose|a: int| 0 <= a <= s.len() && t == s.subrange(a, s.len() as int);
    assert(all_chars(t, q)) by {
        assert forall|i: int| 0 <= i < t.len() implies q(#[trigger] t[i]) by {
            assert(t[i] == s[a + i]);
        }
    }
    lemma_trim_end_sub(t, ws());
    let b = choose|b: int| 0 <= b <= t.len() && trim_end_by(t, ws()) == t.subrange(0, b);
    assert forall|i: int| 0 <= i < trim(s).len() implies q(#[trigger] trim(s)[i]) by {
        assert(trim(s)[i] == t[i]);
    }
}

/// Joining keeps a property that every character of the parts and of the
/// separator has.
/// `s` neither starts nor ends with white space.
pub open spec fn ws_free_edges(s: Seq<char>) -> bool {
    s.len() == 0 || (!is_whitespace(s[0]) && !is_whitespace(s.last()))
}

proof fn lemma_trim_start_front(s: Seq<char>, p: spec_fn(char) -> bool)
    ensures
        trim_start_by(s, p).len() == 0 || !p(trim_start_by(s, p)[0]),
    decreases s.len(),
{
    if s.len() > 0 && p(s[0]) {
        lemma_trim_start_front(s.drop_first(), p);
    }
}

proof fn lemma_trim_end_back(s: Seq<char>, p: spec_fn(char) -> bool)
    ensures
        trim_end_by(s, p).len() == 0 || !p(trim_end_by(s, p).last()),
    decreases s.len(),
{
    if s.len() > 0 && p(s.last()) {
        lemma_trim_end_back(s.drop_last(), p);
    }
}

/// A trimmed text has no white space at either end.
pub proof fn lemma_trim_edges(s: Seq<char>)
    ensures
        ws_free_edges(trim(s)),
{
    let t = trim_start_by(s, ws());
    lemma_trim_start_front(s, ws());
    lemma_trim_end_back(t, ws());
    lemma_trim_end_sub(t, ws());
    let b = choose|b: int| 0 <= b <= t.len() && trim_end_by(t, ws()) == t.subrange(0, b);
    if trim(s).len() > 0 {
        assert(trim(s)[0] == t[0]);
    }
}

/// Trimming a text without white space at its ends leaves it as it is.
pub proof fn lemma_trim_unchanged(s: Seq<char>)
    requires
        ws_free_edges(s),
    ensures
        trim(s) == s,
{
    assert(trim_start_by(s, ws()) == s);
    assert(trim_end_by(s, ws()) == s);
}

/// Joining from the front: the first part, the separator, and the rest.
pub proof fn lemma_join_front(parts: Seq<Seq<char>>, sep: Seq<char>)
    requires
        parts.len() >= 2,
    ensures
        join(parts, sep) == parts[0] + sep + join(parts.drop_first(), sep),
    decreases parts.len(),
{
    if parts.len() == 2 {
        assert(parts.drop_last() =~= seq![parts[0]]);
        assert(parts.drop_first() =~= seq![parts[1]]);
        assert(join(parts.drop_last(), sep) == parts.drop_last()[0]);
        assert(join(parts.drop_first(), sep) == parts.drop_first()[0]);
        assert(parts.last() == parts[1]);
    } else {
        let front = parts.drop_last();
        lemma_join_front(front, sep);
        assert(front.drop_first() =~= parts.drop_first().drop_last());
        assert(parts.drop_first().last() == parts.last());
        assert(join(parts, sep) =~= parts[0] + sep + join(parts.drop_first(), sep));
    }
}

/// The join of the first `m` parts begins the join of all of them.
pub proof fn lemma_join_prefix(parts: Seq<Seq<char>>, sep: Seq<char>, m: int)
    requires
        1 <= m <= parts.len(),
    ensures
        join(parts.take(m), sep).len() <= join(parts, sep).len(),
        join(parts, sep).take(join(parts.take(m), sep).len() as int) == join(parts.take(m), sep),
    decreases parts.len(),
{
    if m == parts.len() {
        assert(parts.take(m) =~= parts);
        assert(join(parts, sep).take(join(parts, sep).len() as int) =~= join(parts, sep));
    } else {
        let front = parts.drop_last();
        assert(front.take(m) =~= parts.take(m));
        lemma_join_prefix(front, sep, m);
        let a = join(front, sep);
        let b = join(parts.take(m), sep);
        assert(join(parts, sep) == a + sep + parts.last());
        assert((a + sep + parts.last()).take(b.len() as int) =~= a.take(b.len() as int));
    }
}

/// A part strictly inside a join stands between two separators.
pub proof fn lemma_join_inner_part(parts: Seq<Seq<char>>, sep: Seq<char>, i: int)
    requires
        1 <= i,
        i + 1 < parts.len(),
    ensures
        contains(join(parts, sep), sep + parts[i] + sep),
{
    let a = join(parts.take(i), sep);
    let t1 = parts.take(i + 1);
    let t2 = parts.take(i + 2);
    assert(t1.drop_last() =~= parts.take(i));
    assert(t1.last() == parts[i]);
    assert(join(t1, sep) == a + sep + parts[i]);
    assert(t2.drop_last() =~= t1);
    assert(t2.last() == parts[i + 1]);
    let j2 = join(t2, sep);
    assert(j2 == a + sep + parts[i] + sep + parts[i + 1]);
    let pat = sep + parts[i] + sep;
    assert(j2.subrange(a.len() as int, (a.len() + pat.len()) as int) =~= pat);
    lemma_join_prefix(parts, sep, i + 2);
    let whole = join(parts, sep);
    let lo = a.len() as int;
    let hi = (a.len() + pat.len()) as int;
    assert(whole.take(j2.len() as int) == j2);
    assert(whole.subrange(lo, hi) =~= whole.take(j2.len() as int).subrange(lo, hi));
    assert(occurs_at(whole, pat, a.len() as int));
}

/// Splitting a join at its separator gives the parts back, when no part
/// holds the separator.
pub proof fn lemma_split_join(parts: Seq<Seq<char>>, sep: char)
    requires
        parts.len() >= 1,
        forall|i: int| 0 <= i < parts.len() ==> !(#[trigger] parts[i]).contains(sep),
    ensures
        split(join(parts, seq![sep]), sep) == parts,
    decreases parts.len(),
{
    if parts.len() == 1 {
        lemma_split_no_sep(parts[0], sep);
        assert(seq![parts[0]] =~= parts);
    } else {
        let front = parts.drop_last();
        assert forall|i: int| 0 <= i < front.len() implies !(#[trigger] front[i]).contains(sep) by {
            assert(front[i] == parts[i]);
        }
        lemma_split_join(front, sep);
        assert(!parts.last().contains(sep)) by {
            assert(parts.last() == parts[parts.len() - 1]);
        }
        lemma_split_no_sep(parts.last(), sep);
        lemma_split_concat(join(front, seq![sep]), parts.last(), sep);
        assert(front + seq![parts.last()] =~= parts);
    }
}

/// A text without the separator splits into itself alone.
pub proof fn lemma_split_no_sep(s: Seq<char>, sep: char)
    requires
        !s.contains(sep),
    ensures
        split(s, sep) == seq![s],
    decreases s.len(),
{
    if s.len() > 0 {
        let s0 = s.drop_last();
        assert(!s0.contains(sep)) by {
            if s0.contains(sep) {
                let k = choose|k: int| 0 <= k < s0.len() && s0[k] == sep;
                assert(s[k] == sep);
            }
        }
        lemma_split_no_sep(s0, sep);
        assert(s.last() != sep) by {
            assert(s[s.len() - 1] == s.last());
        }
        assert(s0.push(s.last()) =~= s);
        let r = split(s0, sep);
        assert(r.len() == 1 && r.last() == s0);
        assert(split(s, sep) == r.update(r.len() - 1, r.last().push(s.last())));
        assert(r.update(0, s) =~= seq![s]);
    } else {
        assert(s =~= Seq::<char>::empty());
    }
}

/// Every piece of a split holds only characters of the text other than the
/// separator.
pub proof fn lemma_split_pieces(s: Seq<char>, sep: char, q: spec_fn(char) -> bool)
    requires
        all_chars(s, q),
    ensures
        forall|i: int|
            0 <= i < split(s, sep).len() ==> all_chars(#[trigger] split(s, sep)[i], q) && !split(
                s,
                sep,
            )[i].contains(sep),
    decreases s.len(),
{
    lemma_split_len(s, sep);
    if s.len() > 0 {
        let s0 = s.drop_last();
        assert(all_chars(s0, q)) by {
            assert forall|k: int| 0 <= k < s0.len() implies q(#[trigger] s0[k]) by {
                assert(s0[k] == s[k]);
            }
        }
        lemma_split_pieces(s0, sep, q);
        lemma_split_len(s0, sep);
        let r = split(s0, sep);
        let c = s.last();
        assert(q(c)) by {
            assert(c == s[s.len() - 1]);
        }
        if c != sep {
            let l = r.last().push(c);
            assert(all_chars(l, q) && !l.contains(sep)) by {
                assert(r.last() == r[r.len() - 1]);
                assert forall|k: int| 0 <= k < l.len() implies q(#[trigger] l[k]) by {
                    if k < l.len() - 1 {
                        assert(l[k] == r.last()[k]);
                    }
                }
                if l.contains(sep) {
                    let k = choose|k: int| 0 <= k < l.len() && l[k] == sep;
                    assert(l[k] == r.last()[k]);
                }
            }
            assert forall|i: int| 0 <= i < split(s, sep).len() implies all_chars(
                #[trigger] split(s, sep)[i],
                q,
            ) && !split(s, sep)[i].contains(sep) by {
                if i < r.len() - 1 {
                    assert(split(s, sep)[i] == r[i]);
                }
            }
        } else {
            assert forall|i: int| 0 <= i < split(s, sep).len() implies all_chars(
                #[trigger] split(s, sep)[i],
                q,
            ) && !split(s, sep)[i].contains(sep) by {
                if i < r.len() {
                    assert(split(s, sep)[i] == r[i]);
                } else {
                    assert(split(s, sep)[i] =~= Seq::<char>::empty());
                }
            }
        }
    } else {
        assert(split(s, sep)[0] =~= Seq::<char>::empty());
    }
}

pub proof fn lemma_join_keeps_all(parts: Seq<Seq<char>>, sep: Seq<char>, q: spec_fn(char) -> bool)
    requires
        forall|i: int| 0 <= i < parts.len() ==> all_chars(#[trigger] parts[i], q),
        all_chars(sep, q),
    ensures
        all_chars(join(parts, sep), q),
    decreases parts.len(),
{
    if parts.len() > 1 {
        lemma_join_keeps_all(parts.drop_last(), sep, q);
        let j = join(parts.drop_last(), sep);
        let l = parts.last();
        assert(all_chars(l, q)) by {
            assert(l == parts[parts.len() - 1]);
        }
        assert forall|i: int| 0 <= i < (j + sep + l).len() implies q(#[trigger] (j + sep + l)[i]) by {
            if i < j.len() {
                assert((j + sep + l)[i] == j[i]);
            } else if i < j.len() + sep.len() {
                assert((j + sep + l)[i] == sep[i - j.len()]);
            } else {
                assert((j + sep + l)[i] == l[i - j.len() - sep.len()]);
            }
        }
    } else if parts.len() == 1 {
        assert(all_chars(parts[0], q));
    }
}

} // verus!
