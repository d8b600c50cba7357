//! Input validation for branch names, knowledge-graph paths and memory
//! addresses, and sanitising of commit messages.

use vstd::prelude::*;
use vstd::utf8::encode_utf8;
use crate::text::{
    all_chars, alphanumeric_char, chars_eq, chars_of, contains, contains_exec, control_char,
    is_control, join, join_exec, lemma_join_keeps_all, lemma_split_len, lemma_trim_keeps_all,
    lines, lines_exec, slice_chars, split, split_exec, starts_with, starts_with_exec, string_of,
    trim, trim_char, trim_char_bounds, trim_exec, unicode_alphanumeric, views, is_whitespace,
    lemma_join_front, lemma_split_join, lemma_split_pieces, lemma_trim_edges, lemma_trim_unchanged,
    trim_end_by, trim_start_by, ws, ws_free_edges,
};

verus! {

broadcast use vstd::string::group_string_axioms;

/// Longest branch name accepted, in bytes.
pub const MAX_BRANCH_LEN: usize = 128;

/// Longest knowledge-graph path or memory address accepted, in bytes.
pub const MAX_PATH_LEN: usize = 256;

/// A path component that memory addresses may not contain.
#[derive(Debug, Clone, Copy, PartialEq, Eq, Structural)]
pub enum BadComponent {
    /// `.` at the start of a relative address.
    CurDir,
    /// `..` anywhere.
    ParentDir,
    /// A leading `/`: the address below the memory root is absolute.
    RootDir,
}

/// Why an input was refused.
#[derive(Debug, Clone, PartialEq, Eq)]
pub enum ValidationError {
    BranchEmpty,
    BranchTooLong,
    BranchLeadingDash,
    BranchLeadingSlash,
    BranchDotName,
    BranchDotDot,
    BranchControlChar,
    KgPathEmpty,
    KgPathTooLong,
    KgPathEdgeDot,
    KgPathDotDot,
    KgPathEmptySegment,
    /// The offending segment.
    KgPathInvalidSegment(String),
    AddressEmpty,
    AddressTooLong,
    AddressBadComponent(BadComponent),
}

/// The same error, with any string it holds taken by its characters.
pub enum ErrorView {
    BranchEmpty,
    BranchTooLong,
    BranchLeadingDash,
    BranchLeadingSlash,
    BranchDotName,
    BranchDotDot,
    BranchControlChar,
    KgPathEmpty,
    KgPathTooLong,
    KgPathEdgeDot,
    KgPathDotDot,
    KgPathEmptySegment,
    KgPathInvalidSegment(Seq<char>),
    AddressEmpty,
    AddressTooLong,
    AddressBadComponent(BadComponent),
}

impl View for ValidationError {
    type V = ErrorView;

    open spec fn view(&self) -> ErrorView {
        match self {
            ValidationError::BranchEmpty => ErrorView::BranchEmpty,
            ValidationError::BranchTooLong => ErrorView::BranchTooLong,
            ValidationError::BranchLeadingDash => ErrorView::BranchLeadingDash,
            ValidationError::BranchLeadingSlash => ErrorView::BranchLeadingSlash,
            ValidationError::BranchDotName => ErrorView::BranchDotName,
            ValidationError::BranchDotDot => ErrorView::BranchDotDot,
            ValidationError::BranchControlChar => ErrorView::BranchControlChar,
            ValidationError::KgPathEmpty => ErrorView::KgPathEmpty,
            ValidationError::KgPathTooLong => ErrorView::KgPathTooLong,
            ValidationError::KgPathEdgeDot => ErrorView::KgPathEdgeDot,
            ValidationError::KgPathDotDot => ErrorView::KgPathDotDot,
            ValidationError::KgPathEmptySegment => ErrorView::KgPathEmptySegment,
            ValidationError::KgPathInvalidSegment(s) => ErrorView::KgPathInvalidSegment(s@),
            ValidationError::AddressEmpty => ErrorView::AddressEmpty,
            ValidationError::AddressTooLong => ErrorView::AddressTooLong,
            ValidationError::AddressBadComponent(c) => ErrorView::AddressBadComponent(*c),
        }
    }
}

/// The text reported for a refused input.
pub open spec fn error_message(e: ErrorView) -> Seq<char> {
    match e {
        ErrorView::BranchEmpty => "branch name cannot be empty"@,
        ErrorView::BranchTooLong => "branch name too long (max 128 characters)"@,
        ErrorView::BranchLeadingDash => "branch name cannot start with '-'"@,
        ErrorView::BranchLeadingSlash => "branch name cannot start with '/'"@,
        ErrorView::BranchDotName => "branch name cannot be '.' or '..'"@,
        ErrorView::BranchDotDot => "branch name cannot contain '..'"@,
        ErrorView::BranchControlChar => "branch name cannot contain control characters"@,
        ErrorView::KgPathEmpty => "knowledge graph path cannot be empty"@,
        ErrorView::KgPathTooLong => "knowledge graph path too long (max 256 characters)"@,
        ErrorView::KgPathEdgeDot => "knowledge graph path cannot start or end with '.'"@,
        ErrorView::KgPathDotDot => "knowledge graph path cannot contain '..'"@,
        ErrorView::KgPathEmptySegment => "knowledge graph path cannot contain empty segments"@,
        ErrorView::KgPathInvalidSegment(s) => "knowledge graph segment '"@ + s
            + "' contains invalid characters"@,
        ErrorView::AddressEmpty => "memory address cannot be empty"@,
        ErrorView::AddressTooLong => "memory address too long (max 256 characters)"@,
        ErrorView::AddressBadComponent(BadComponent::CurDir) =>
            "memory address contains invalid path component: CurDir"@,
        ErrorView::AddressBadComponent(BadComponent::ParentDir) =>
            "memory address contains invalid path component: ParentDir"@,
        ErrorView::AddressBadComponent(BadComponent::RootDir) =>
            "memory address contains invalid path component: RootDir"@,
    }
}

impl ValidationError {
    /// The text reported for this error (see `error_message`).
    pub fn message(&self) -> (r: String)
        ensures
            r@ == error_message(self@),
    {
        let text = match self {
            ValidationError::BranchEmpty => "branch name cannot be empty",
            ValidationError::BranchTooLong => "branch name too long (max 128 characters)",
            ValidationError::BranchLeadingDash => "branch name cannot start with '-'",
            ValidationError::BranchLeadingSlash => "branch name cannot start with '/'",
            ValidationError::BranchDotName => "branch name cannot be '.' or '..'",
            ValidationError::BranchDotDot => "branch name cannot contain '..'",
            ValidationError::BranchControlChar => "branch name cannot contain control characters",
            ValidationError::KgPathEmpty => "knowledge graph path cannot be empty",
            ValidationError::KgPathTooLong => "knowledge graph path too long (max 256 characters)",
            ValidationError::KgPathEdgeDot => "knowledge graph path cannot start or end with '.'",
            ValidationError::KgPathDotDot => "knowledge graph path cannot contain '..'",
            ValidationError::KgPathEmptySegment => "knowledge graph path cannot contain empty segments",
            ValidationError::KgPathInvalidSegment(s) => {
                return crate::text::concat3(
                    "knowledge graph segment '",
                    s.as_str(),
                    "' contains invalid characters",
                );
            },
            ValidationError::AddressEmpty => "memory address cannot be empty",
            ValidationError::AddressTooLong => "memory address too long (max 256 characters)",
            ValidationError::AddressBadComponent(BadComponent::CurDir) =>
                "memory address contains invalid path component: CurDir",
            ValidationError::AddressBadComponent(BadComponent::ParentDir) =>
                "memory address contains invalid path component: ParentDir",
            ValidationError::AddressBadComponent(BadComponent::RootDir) =>
                "memory address contains invalid path component: RootDir",
        };
        text.to_owned()
    }
}

/// The result `Ok(())` or `Err(e)` for the outcome `None` or `Some(e)`.
pub open spec fn outcome(e: Option<ErrorView>, r: Result<(), ValidationError>) -> bool {
    match e {
        None => r is Ok,
        Some(ev) => r is Err && r->Err_0@ == ev,
    }
}

/// The length in bytes of the UTF-8 encoding of `s`, as `str::len` reports it.
pub open spec fn byte_len(s: Seq<char>) -> usize {
    encode_utf8(s).len() as usize
}

pub open spec fn dot_dot() -> Seq<char> {
    seq!['.', '.']
}

// ---------------------------------------------------------------------------
// Branch names
// ---------------------------------------------------------------------------

/// The first rule a branch name breaks, in the order they are checked.
pub open spec fn branch_error(name: Seq<char>) -> Option<ErrorView> {
    if name.len() == 0 {
        Some(ErrorView::BranchEmpty)
    } else if byte_len(name) > MAX_BRANCH_LEN {
        Some(ErrorView::BranchTooLong)
    } else if name[0] == '-' {
        Some(ErrorView::BranchLeadingDash)
    } else if name[0] == '/' {
        Some(ErrorView::BranchLeadingSlash)
    } else if name == seq!['.'] || name == dot_dot() {
        Some(ErrorView::BranchDotName)
    } else if contains(name, dot_dot()) {
        Some(ErrorView::BranchDotDot)
    } else if exists|i: int| 0 <= i < name.len() && is_control(#[trigger] name[i]) {
        Some(ErrorView::BranchControlChar)
    } else {
        None
    }
}

/// A branch name is accepted exactly when it is non-empty, at most 128 bytes
/// long, starts with neither `-` nor `/`, is not `.` or `..`, has no two
/// dots in a row and no control character.
pub proof fn law_branch_rules(name: Seq<char>)
    ensures
        branch_error(name) is None <==> {
            &&& name.len() > 0
            &&& byte_len(name) <= 128
            &&& name[0] != '-'
            &&& name[0] != '/'
            &&& name != seq!['.']
            &&& name != seq!['.', '.']
            &&& forall|i: int| 0 <= i < name.len() - 1 ==> !(#[trigger] name[i] == '.' && name[i + 1] == '.')
            &&& forall|i: int| 0 <= i < name.len() ==> !is_control(#[trigger] name[i])
        },
{
    let pairs = forall|i: int| 0 <= i < name.len() - 1 ==> !(#[trigger] name[i] == '.' && name[i + 1] == '.');
    assert(contains(name, dot_dot()) <==> !pairs) by {
        if contains(name, dot_dot()) {
            let i = choose|i: int| crate::text::occurs_at(name, dot_dot(), i);
            assert(name.subrange(i, i + 2)[0] == name[i]);
            assert(name.subrange(i, i + 2)[1] == name[i + 1]);
            assert(name[i] == '.' && name[i + 1] == '.');
        }
        if !pairs {
            let i = choose|i: int| 0 <= i < name.len() - 1 && #[trigger] name[i] == '.' && name[i + 1] == '.';
            assert(name.subrange(i, i + 2) =~= dot_dot());
            assert(crate::text::occurs_at(name, dot_dot(), i));
        }
    }
    assert(seq!['.', '.'] =~= dot_dot());
}

fn dot_dot_exec() -> (r: Vec<char>)
    ensures
        r@ == dot_dot(),
{
    let mut r = Vec::new();
    r.push('.');
    r.push('.');
    assert(r@ =~= dot_dot());
    r
}

/// Index of the first control character of `s`, if any.
fn find_control(s: &Vec<char>) -> (r: Option<usize>)
    ensures
        r is None <==> (forall|i: int| 0 <= i < s.len() ==> !is_control(#[trigger] s@[i])),
        r matches Some(i) ==> i < s.len() && is_control(s@[i as int]),
{
    let n = s.len();
    for i in 0..n
        invariant
            n == s.len(),
            forall|j: int| 0 <= j < i ==> !is_control(#[trigger] s@[j]),
    {
        if control_char(s[i]) {
            return Some(i);
        }
    }
    None
}

/// Checks that a branch name is safe to use as a git ref and as a directory
/// name below the conversations directory: besides the rules of git, an
/// absolute name (a leading `/`) is refused.
pub fn validate_branch(name: &str) -> (r: Result<(), ValidationError>)
    ensures
        outcome(branch_error(name@), r),
{
    let v = chars_of(name);
    if v.len() == 0 {
        return Err(ValidationError::BranchEmpty);
    }
    if name.len() > MAX_BRANCH_LEN {
        return Err(ValidationError::BranchTooLong);
    }
    if v[0] == '-' {
        return Err(ValidationError::BranchLeadingDash);
    }
    if v[0] == '/' {
        return Err(ValidationError::BranchLeadingSlash);
    }
    let dd = dot_dot_exec();
    if (v.len() == 1 && v[0] == '.') || chars_eq(&v, &dd) {
        assert(v.len() == 1 && v[0] == '.' ==> v@ =~= seq!['.']);
        return Err(ValidationError::BranchDotName);
    }
    assert(v@ != seq!['.']) by {
        if v@ == seq!['.'] {
            assert(v@.len() == 1 && v@[0] == '.');
        }
    }
    if contains_exec(&v, &dd) {
        return Err(ValidationError::BranchDotDot);
    }
    match find_control(&v) {
        Some(i) => {
            assert(is_control(name@[i as int]));
            Err(ValidationError::BranchControlChar)
        },
        None => Ok(()),
    }
}

// ---------------------------------------------------------------------------
// Knowledge-graph paths
// ---------------------------------------------------------------------------

/// A character allowed in a path segment.
pub open spec fn segment_char_ok(c: char) -> bool {
    unicode_alphanumeric(c) || c == '_' || c == '-'
}

/// What is wrong with one segment, if anything.
pub open spec fn segment_error(seg: Seq<char>) -> Option<ErrorView> {
    if seg.len() == 0 {
        Some(ErrorView::KgPathEmptySegment)
    } else if exists|i: int| 0 <= i < seg.len() && !segment_char_ok(#[trigger] seg[i]) {
        Some(ErrorView::KgPathInvalidSegment(seg))
    } else {
        None
    }
}

/// The error of the first faulty segment, in order.
pub open spec fn segments_error(segs: Seq<Seq<char>>) -> Option<ErrorView>
    decreases segs.len(),
{
    if segs.len() == 0 {
        None
    } else if segment_error(segs[0]) is Some {
        segment_error(segs[0])
    } else {
        segments_error(segs.drop_first())
    }
}

/// The first rule a knowledge-graph dot-path breaks, in the order they are checked.
pub open spec fn kg_path_error(path: Seq<char>) -> Option<ErrorView> {
    if path.len() == 0 {
        Some(ErrorView::KgPathEmpty)
    } else if byte_len(path) > MAX_PATH_LEN {
        Some(ErrorView::KgPathTooLong)
    } else if path[0] == '.' || path.last() == '.' {
        Some(ErrorView::KgPathEdgeDot)
    } else if contains(path, dot_dot()) {
        Some(ErrorView::KgPathDotDot)
    } else {
        segments_error(split(path, '.'))
    }
}

fn segment_check(seg: &Vec<char>) -> (r: Result<(), ValidationError>)
    ensures
        outcome(segment_error(seg@), r),
{
    if seg.len() == 0 {
        return Err(ValidationError::KgPathEmptySegment);
    }
    let n = seg.len();
    for i in 0..n
        invariant
            n == seg.len(),
            forall|j: int| 0 <= j < i ==> segment_char_ok(#[trigger] seg@[j]),
    {
        let c = seg[i];
        let ok = alphanumeric_char(c) || c == '_' || c == '-';
        if !ok {
            assert(!segment_char_ok(seg@[i as int]));
            return Err(ValidationError::KgPathInvalidSegment(string_of(seg)));
        }
    }
    Ok(())
}

/// Checks that a knowledge-graph path is a non-empty dot-separated list of
/// segments made of alphanumerics, `_` and `-`.
pub fn validate_kg_path(path: &str) -> (r: Result<(), ValidationError>)
    ensures
        outcome(kg_path_error(path@), r),
{
    let v = chars_of(path);
    if v.len() == 0 {
        return Err(ValidationError::KgPathEmpty);
    }
    if path.len() > MAX_PATH_LEN {
        return Err(ValidationError::KgPathTooLong);
    }
    if v[0] == '.' || v[v.len() - 1] == '.' {
        return Err(ValidationError::KgPathEdgeDot);
    }
    let dd = dot_dot_exec();
    if contains_exec(&v, &dd) {
        return Err(ValidationError::KgPathDotDot);
    }
    let segs = split_exec(&v, '.');
    let n = segs.len();
    assert(views(segs@).skip(0) =~= views(segs@));
    assert(kg_path_error(path@) == segments_error(split(path@, '.')));
    for i in 0..n
        invariant
            n == segs.len(),
            kg_path_error(path@) == segments_error(split(path@, '.')),
            views(segs@) == split(path@, '.'),
            segments_error(views(segs@)) == segments_error(views(segs@).skip(i as int)),
    {
        let ghost rest = views(segs@).skip(i as int);
        assert(rest[0] == segs@[i as int]@);
        assert(rest.drop_first() =~= views(segs@).skip(i + 1));
        let r = segment_check(&segs[i]);
        if r.is_err() {
            return r;
        }
    }
    assert(views(segs@).skip(n as int) =~= Seq::<Seq<char>>::empty());
    Ok(())
}

// ---------------------------------------------------------------------------
// Memory addresses
// ---------------------------------------------------------------------------

pub open spec fn memory_word() -> Seq<char> {
    seq!['m', 'e', 'm', 'o', 'r', 'y']
}

pub open spec fn memory_prefix() -> Seq<char> {
    seq!['m', 'e', 'm', 'o', 'r', 'y', '/']
}

/// The part of an address below the memory root: slashes trimmed from both
/// ends, then a leading `memory` segment dropped.
pub open spec fn address_relative(address: Seq<char>) -> Seq<char> {
    let t = trim_char(address, '/');
    if t == memory_word() {
        Seq::<char>::empty()
    } else if starts_with(t, memory_prefix()) {
        t.skip(7)
    } else {
        t
    }
}

/// The first component of the part of an address below the memory root
/// that is not a plain name: the root when that part is absolute (it would
/// replace the memory directory when joined), `.` when it opens the part,
/// else the first `..`.
pub open spec fn bad_component(rel: Seq<char>) -> Option<BadComponent> {
    let segs = split(rel, '/');
    if rel.len() > 0 && rel[0] == '/' {
        Some(BadComponent::RootDir)
    } else if segs[0] == seq!['.'] {
        Some(BadComponent::CurDir)
    } else if exists|i: int| 0 <= i < segs.len() && #[trigger] segs[i] == dot_dot() {
        Some(BadComponent::ParentDir)
    } else {
        None
    }
}

/// The first rule a memory address breaks, in the order they are checked.
pub open spec fn address_error(address: Seq<char>) -> Option<ErrorView> {
    if address.len() == 0 {
        Some(ErrorView::AddressEmpty)
    } else if byte_len(address) > MAX_PATH_LEN {
        Some(ErrorView::AddressTooLong)
    } else {
        match bad_component(address_relative(address)) {
            Some(c) => Some(ErrorView::AddressBadComponent(c)),
            None => None,
        }
    }
}

fn memory_word_exec() -> (r: Vec<char>)
    ensures
        r@ == memory_word(),
{
    let r = chars_of("memory");
    proof {
        reveal_strlit("memory");
    }
    assert(r@ =~= memory_word());
    r
}

fn memory_prefix_exec() -> (r: Vec<char>)
    ensures
        r@ == memory_prefix(),
{
    let r = chars_of("memory/");
    proof {
        reveal_strlit("memory/");
    }
    assert(r@ =~= memory_prefix());
    r
}

/// The part of `address` below the memory root (see `address_relative`).
pub fn address_relative_exec(address: &Vec<char>) -> (r: Vec<char>)
    ensures
        r@ == address_relative(address@),
{
    let (a, b) = trim_char_bounds(address, '/');
    let t = slice_chars(address, a, b);
    let word = memory_word_exec();
    if chars_eq(&t, &word) {
        return Vec::new();
    }
    let prefix = memory_prefix_exec();
    if starts_with_exec(&t, &prefix) {
        let r = slice_chars(&t, 7, t.len());
        assert(r@ =~= t@.skip(7));
        r
    } else {
        t
    }
}

fn bad_component_exec(rel: &Vec<char>) -> (r: Option<BadComponent>)
    ensures
        r == bad_component(rel@),
{
    let segs = split_exec(rel, '/');
    proof {
        lemma_split_len(rel@, '/');
    }
    let rooted = rel.len() > 0 && rel[0] == '/';
    if rooted {
        return Some(BadComponent::RootDir);
    }
    let first = &segs[0];
    if !rooted && first.len() == 1 && first[0] == '.' {
        assert(first@ =~= seq!['.']);
        return Some(BadComponent::CurDir);
    }
    assert(!(!rooted && views(segs@)[0] == seq!['.'])) by {
        if !rooted && views(segs@)[0] == seq!['.'] {
            assert(first@.len() == 1 && first@[0] == '.');
        }
    }
    let dd = dot_dot_exec();
    let n = segs.len();
    for i in 0..n
        invariant
            n == segs.len(),
            dd@ == dot_dot(),
            !(rel@.len() > 0 && rel@[0] == '/'),
            split(rel@, '/')[0] != seq!['.'],
            views(segs@) == split(rel@, '/'),
            forall|j: int| 0 <= j < i ==> views(segs@)[j] != dot_dot(),
    {
        if chars_eq(&segs[i], &dd) {
            assert(views(segs@)[i as int] == dot_dot());
            assert(split(rel@, '/')[i as int] == dot_dot());
            return Some(BadComponent::ParentDir);
        }
    }
    None
}

/// Checks that a memory address is non-empty, not too long, and cannot
/// climb out of the memory directory.
pub fn validate_address(address: &str) -> (r: Result<(), ValidationError>)
    ensures
        outcome(address_error(address@), r),
{
    let v = chars_of(address);
    if v.len() == 0 {
        return Err(ValidationError::AddressEmpty);
    }
    if address.len() > MAX_PATH_LEN {
        return Err(ValidationError::AddressTooLong);
    }
    let rel = address_relative_exec(&v);
    match bad_component_exec(&rel) {
        Some(c) => Err(ValidationError::AddressBadComponent(c)),
        None => Ok(()),
    }
}

// ---------------------------------------------------------------------------
// Commit messages
// ---------------------------------------------------------------------------

/// Control characters other than newline replaced by spaces.
pub open spec fn blank_controls(s: Seq<char>) -> Seq<char> {
    s.map_values(|c: char| if is_control(c) && c != '\n' { ' ' } else { c })
}

/// A commit message with control characters (but newlines) turned into
/// spaces, every line trimmed, and the whole trimmed.
pub open spec fn sanitized(message: Seq<char>) -> Seq<char> {
    trim(join(trim_each(lines(blank_controls(message))), seq!['\n']))
}

/// Each piece trimmed.
pub open spec fn trim_each(ls: Seq<Seq<char>>) -> Seq<Seq<char>> {
    ls.map_values(|l: Seq<char>| trim(l))
}

/// Makes a string safe to use as a git commit message.
pub fn sanitize_commit_message(message: &str) -> (r: String)
    ensures
        r@ == sanitized(message@),
        forall|i: int| 0 <= i < r@.len() ==> !is_control(#[trigger] r@[i]) || r@[i] == '\n',
{
    let v = chars_of(message);
    let mut mapped: Vec<char> = Vec::new();
    let n = v.len();
    for i in 0..n
        invariant
            n == v.len(),
            v@ == message@,
            mapped@ == blank_controls(v@).take(i as int),
    {
        let c = v[i];
        let d = if control_char(c) && c != '\n' {
            ' '
        } else {
            c
        };
        mapped.push(d);
        assert(mapped@ =~= blank_controls(v@).take(i + 1));
    }
    assert(mapped@ =~= blank_controls(v@));
    let ls = lines_exec(&mapped);
    let mut trimmed: Vec<Vec<char>> = Vec::new();
    let m = ls.len();
    for i in 0..m
        invariant
            m == ls.len(),
            views(ls@) == lines(blank_controls(message@)),
            views(trimmed@) == trim_each(views(ls@).take(i as int)),
    {
        let t = trim_exec(&ls[i]);
        let ghost before = views(trimmed@);
        trimmed.push(t);
        assert(views(trimmed@) =~= before.push(t@));
        assert(trim_each(views(ls@).take(i + 1)) =~= trim_each(views(ls@).take(i as int)).push(
            trim(ls@[i as int]@),
        ));
    }
    assert(views(ls@).take(m as int) =~= views(ls@));
    let mut nl: Vec<char> = Vec::new();
    nl.push('\n');
    assert(nl@ =~= seq!['\n']);
    let joined = join_exec(&trimmed, &nl);
    let out = trim_exec(&joined);
    proof {
        let q = |c: char| !is_control(c) || c == '\n';
        let bl = blank_controls(message@);
        assert(all_chars(bl, q));
        let ls_v = lines(bl);
        assert forall|i: int| 0 <= i < ls_v.len() implies all_chars(#[trigger] ls_v[i], q) by {
            lemma_lines_chars(bl, q, i);
        }
        let tl = trim_each(ls_v);
        assert forall|i: int| 0 <= i < tl.len() implies all_chars(#[trigger] tl[i], q) by {
            lemma_trim_keeps_all(ls_v[i], q);
        }
        assert(all_chars(seq!['\n'], q));
        lemma_join_keeps_all(tl, seq!['\n'], q);
        lemma_trim_keeps_all(join(tl, seq!['\n']), q);
        assert(forall|i: int| 0 <= i < out@.len() ==> q(#[trigger] out@[i]));
    }
    string_of(&out)
}

/// Every piece of `split(s, sep)` consists of characters of `s`.
pub proof fn lemma_split_chars(s: Seq<char>, sep: char, q: spec_fn(char) -> bool, k: int)
    requires
        all_chars(s, q),
        0 <= k < split(s, sep).len(),
    ensures
        all_chars(split(s, sep)[k], q),
    decreases s.len(),
{
    if s.len() > 0 {
        let r = split(s.drop_last(), sep);
        lemma_split_len(s.drop_last(), sep);
        assert(all_chars(s.drop_last(), q));
        if s.last() == sep {
            if k < r.len() {
                lemma_split_chars(s.drop_last(), sep, q, k);
            }
        } else {
            lemma_split_chars(s.drop_last(), sep, q, r.len() - 1);
            assert(q(s.last())) by {
                assert(s.last() == s[s.len() - 1]);
            }
            if k < r.len() - 1 {
                lemma_split_chars(s.drop_last(), sep, q, k);
            } else {
                let l = r.last().push(s.last());
                assert forall|i: int| 0 <= i < l.len() implies q(#[trigger] l[i]) by {
                    if i < r.last().len() {
                        assert(l[i] == r.last()[i]);
                    }
                }
            }
        }
    } else {
        assert(split(s, sep)[k] =~= Seq::<char>::empty());
    }
}

/// Every line of `s` consists of characters of `s`.
pub proof fn lemma_lines_chars(s: Seq<char>, q: spec_fn(char) -> bool, k: int)
    requires
        all_chars(s, q),
        0 <= k < lines(s).len(),
    ensures
        all_chars(lines(s)[k], q),
{
    if s.len() > 0 {
        if s.last() == '\n' {
            assert(all_chars(s.drop_last(), q));
            lemma_split_chars(s.drop_last(), '\n', q, k);
        } else {
            lemma_split_chars(s, '\n', q, k);
        }
    }
}

// ---------------------------------------------------------------------------
// Sanitised messages are stable
// ---------------------------------------------------------------------------

/// A character that may stand inside a line of a sanitised message.
pub open spec fn line_char(c: char) -> bool {
    c != '\n' && !is_control(c)
}

/// A line as sanitising leaves it: trimmed, without newlines or control
/// characters.
pub open spec fn clean_line(t: Seq<char>) -> bool {
    ws_free_edges(t) && all_chars(t, |c: char| line_char(c))
}

/// The lines without the blank lines at the front (one is kept when all are).
pub open spec fn drop_blank_front(ls: Seq<Seq<char>>) -> Seq<Seq<char>>
    decreases ls.len(),
{
    if ls.len() >= 2 && ls[0].len() == 0 {
        drop_blank_front(ls.drop_first())
    } else {
        ls
    }
}

/// The lines without the blank lines at the back (one is kept when all are).
pub open spec fn drop_blank_back(ls: Seq<Seq<char>>) -> Seq<Seq<char>>
    decreases ls.len(),
{
    if ls.len() >= 2 && ls.last().len() == 0 {
        drop_blank_back(ls.drop_last())
    } else {
        ls
    }
}

pub open spec fn all_clean(ls: Seq<Seq<char>>) -> bool {
    forall|i: int| 0 <= i < ls.len() ==> clean_line(#[trigger] ls[i])
}

proof fn lemma_clean_no_newline(t: Seq<char>)
    requires
        clean_line(t),
    ensures
        !t.contains('\n'),
{
    if t.contains('\n') {
        let k = choose|k: int| 0 <= k < t.len() && t[k] == '\n';
        assert(line_char(t[k]));
    }
}

proof fn lemma_trim_start_lines(ls: Seq<Seq<char>>)
    requires
        ls.len() >= 1,
        all_clean(ls),
    ensures
        trim_start_by(join(ls, seq!['\n']), ws()) == join(drop_blank_front(ls), seq!['\n']),
        drop_blank_front(ls).len() >= 1,
        all_clean(drop_blank_front(ls)),
    decreases ls.len(),
{
    let j = join(ls, seq!['\n']);
    if ls.len() >= 2 && ls[0].len() == 0 {
        let rest = ls.drop_first();
        assert(all_clean(rest)) by {
            assert forall|i: int| 0 <= i < rest.len() implies clean_line(#[trigger] rest[i]) by {
                assert(rest[i] == ls[i + 1]);
            }
        }
        lemma_trim_start_lines(rest);
        lemma_join_front(ls, seq!['\n']);
        assert(ls[0] =~= Seq::<char>::empty());
        assert(j =~= seq!['\n'] + join(rest, seq!['\n']));
        assert(is_whitespace(j[0]));
        assert(j.drop_first() =~= join(rest, seq!['\n']));
    } else if ls.len() == 1 {
        assert(clean_line(ls[0]));
        assert(j == ls[0]);
        assert(trim_start_by(j, ws()) == j);
    } else {
        assert(clean_line(ls[0]));
        lemma_join_front(ls, seq!['\n']);
        assert(j[0] == ls[0][0]);
        assert(trim_start_by(j, ws()) == j);
    }
}

proof fn lemma_trim_end_lines(ls: Seq<Seq<char>>)
    requires
        ls.len() >= 1,
        all_clean(ls),
    ensures
        trim_end_by(join(ls, seq!['\n']), ws()) == join(drop_blank_back(ls), seq!['\n']),
        drop_blank_back(ls).len() >= 1,
        all_clean(drop_blank_back(ls)),
    decreases ls.len(),
{
    let j = join(ls, seq!['\n']);
    if ls.len() >= 2 && ls.last().len() == 0 {
        let front = ls.drop_last();
        assert(all_clean(front)) by {
            assert forall|i: int| 0 <= i < front.len() implies clean_line(#[trigger] front[i]) by {
                assert(front[i] == ls[i]);
            }
        }
        lemma_trim_end_lines(front);
        assert(ls.last() =~= Seq::<char>::empty());
        assert(j =~= join(front, seq!['\n']) + seq!['\n']);
        assert(is_whitespace(j.last()));
        assert(j.drop_last() =~= join(front, seq!['\n']));
    } else if ls.len() == 1 {
        assert(clean_line(ls[0]));
        assert(j == ls[0]);
        assert(trim_end_by(j, ws()) == j);
    } else {
        assert(clean_line(ls[ls.len() - 1]));
        assert(ls.last() == ls[ls.len() - 1]);
        assert(j.last() == ls.last().last());
        assert(trim_end_by(j, ws()) == j);
    }
}

/// Sanitising a commit message gives a stable text: it is trimmed, every
/// line of it is trimmed, and sanitising it again changes nothing.
pub proof fn law_sanitized_is_stable(message: Seq<char>)
    ensures
        trim(sanitized(message)) == sanitized(message),
        forall|i: int|
            0 <= i < split(sanitized(message), '\n').len() ==> trim(
                #[trigger] split(sanitized(message), '\n')[i],
            ) == split(sanitized(message), '\n')[i],
        sanitized(sanitized(message)) == sanitized(message),
{
    let q = |c: char| !is_control(c) || c == '\n';
    let b = blank_controls(message);
    assert(all_chars(b, q));
    let r = sanitized(message);
    let ls = lines(b);
    if b.len() == 0 {
        assert(ls =~= Seq::<Seq<char>>::empty());
        assert(trim_each(ls) =~= Seq::<Seq<char>>::empty());
        assert(join(trim_each(ls), seq!['\n']) =~= Seq::<char>::empty());
        assert(trim(Seq::<char>::empty()) =~= Seq::<char>::empty());
        assert(r =~= Seq::<char>::empty());
        assert(blank_controls(r) =~= Seq::<char>::empty());
        assert(split(r, '\n') =~= seq![Seq::<char>::empty()]);
        assert(trim(split(r, '\n')[0]) =~= Seq::<char>::empty());
    } else {
        let body = if b.last() == '\n' { b.drop_last() } else { b };
        assert(all_chars(body, q)) by {
            assert forall|k: int| 0 <= k < body.len() implies q(#[trigger] body[k]) by {
                assert(body[k] == b[k]);
            }
        }
        assert(ls == split(body, '\n'));
        lemma_split_pieces(body, '\n', q);
        lemma_split_len(body, '\n');
        let t = trim_each(ls);
        assert(all_clean(t)) by {
            assert forall|i: int| 0 <= i < t.len() implies clean_line(#[trigger] t[i]) by {
                let l = ls[i];
                assert(all_chars(l, |c: char| line_char(c))) by {
                    assert forall|k: int| 0 <= k < l.len() implies line_char(#[trigger] l[k]) by {
                        assert(q(l[k]));
                        assert(l.contains(l[k]));
                    }
                }
                lemma_trim_keeps_all(l, |c: char| line_char(c));
                lemma_trim_edges(l);
            }
        }
        let j = join(t, seq!['\n']);
        lemma_trim_start_lines(t);
        let d1 = drop_blank_front(t);
        lemma_trim_end_lines(d1);
        let d2 = drop_blank_back(d1);
        assert(r == join(d2, seq!['\n']));
        lemma_trim_edges(j);
        assert(ws_free_edges(r));
        lemma_trim_unchanged(r);
        assert forall|i: int| 0 <= i < d2.len() implies !(#[trigger] d2[i]).contains('\n') by {
            lemma_clean_no_newline(d2[i]);
        }
        lemma_split_join(d2, '\n');
        assert forall|i: int| 0 <= i < split(r, '\n').len() implies trim(
            #[trigger] split(r, '\n')[i],
        ) == split(r, '\n')[i] by {
            assert(clean_line(d2[i]));
            lemma_trim_unchanged(d2[i]);
        }
        // Sanitising again.
        assert(all_chars(r, q)) by {
            assert forall|i: int| 0 <= i < d2.len() implies all_chars(#[trigger] d2[i], q) by {
                assert(clean_line(d2[i]));
                assert forall|k: int| 0 <= k < d2[i].len() implies q(#[trigger] d2[i][k]) by {
                    assert(line_char(d2[i][k]));
                }
            }
            assert(all_chars(seq!['\n'], q));
            lemma_join_keeps_all(d2, seq!['\n'], q);
        }
        assert(blank_controls(r) =~= r) by {
            assert forall|k: int| 0 <= k < r.len() implies #[trigger] blank_controls(r)[k] == r[k] by {
                assert(q(r[k]));
            }
        }
        if r.len() == 0 {
            assert(lines(r) =~= Seq::<Seq<char>>::empty());
            assert(trim_each(lines(r)) =~= Seq::<Seq<char>>::empty());
            assert(join(trim_each(lines(r)), seq!['\n']) =~= Seq::<char>::empty());
        } else {
            assert(is_whitespace('\n'));
            assert(r.last() != '\n');
            assert(lines(r) == split(r, '\n'));
            assert(trim_each(d2) =~= d2) by {
                assert forall|i: int| 0 <= i < d2.len() implies #[trigger] trim_each(d2)[i] == d2[i] by {
                    assert(clean_line(d2[i]));
                    lemma_trim_unchanged(d2[i]);
                }
            }
        }
    }
}

} // verus!
