//! Compilation and matching of rsync-style glob patterns.
//!
//! A pattern string (raw bytes) is compiled once by [`RsyncPattern::new`]
//! into a flag set plus an ordered instruction sequence, and is then matched
//! against candidate paths with [`RsyncPattern::matches`], which backtracks
//! across candidate segment boundaries exactly as rsync's filter rules do.

use vstd::prelude::*;

verus! {

/// The path-separator byte `/`.
pub const SLASH: u8 = 47;
/// The wildcard byte `*`.
pub const STAR: u8 = 42;
/// The single-byte wildcard `?`.
pub const QUESTION: u8 = 63;
/// The byte `[` opening a character set.
pub const OPEN_BRACKET: u8 = 91;
/// The byte `]` closing a character set.
pub const CLOSE_BRACKET: u8 = 93;
/// The escape byte `\`.
pub const BACKSLASH: u8 = 92;
/// The byte `^` negating a character set.
pub const CARET: u8 = 94;
/// The byte `-` separating the endpoints of a range in a character set.
pub const DASH: u8 = 45;
/// The byte `:`, which would begin a POSIX class such as `[:alpha:]`.
pub const COLON: u8 = 58;

/// One unit of a compiled pattern body.
#[derive(Debug, Clone)]
pub enum Instr {
    /// An exact byte run.
    Literal(Vec<u8>),
    /// Exactly one byte (`?`).
    AnyByte,
    /// Zero or more bytes excluding `/` (a single `*`).
    ZeroOrMoreNonSlash,
    /// Zero or more bytes of any kind, including `/` (`**`).
    ZeroOrMore,
    /// One byte inside any of the inclusive ranges (`[...]`).
    ByteInSet(Vec<(u8, u8)>),
    /// One byte outside all of the inclusive ranges (`[^...]`).
    ByteNotInSet(Vec<(u8, u8)>),
    /// Terminal sentinel for a trailing `/***`: the remainder starts with
    /// `/`, or is empty while the candidate is a directory.
    DirectoryOrAny,
}

/// The mathematical shape of one instruction.
#[verifier::ext_equal]
pub enum SpecInstr {
    Literal(Seq<u8>),
    AnyByte,
    ZeroOrMoreNonSlash,
    ZeroOrMore,
    ByteInSet(Seq<(u8, u8)>),
    ByteNotInSet(Seq<(u8, u8)>),
    DirectoryOrAny,
}

impl View for Instr {
    type V = SpecInstr;

    open spec fn view(&self) -> SpecInstr {
        match self {
            Instr::Literal(bytes) => SpecInstr::Literal(bytes@),
            Instr::AnyByte => SpecInstr::AnyByte,
            Instr::ZeroOrMoreNonSlash => SpecInstr::ZeroOrMoreNonSlash,
            Instr::ZeroOrMore => SpecInstr::ZeroOrMore,
            Instr::ByteInSet(set) => SpecInstr::ByteInSet(set@),
            Instr::ByteNotInSet(set) => SpecInstr::ByteNotInSet(set@),
            Instr::DirectoryOrAny => SpecInstr::DirectoryOrAny,
        }
    }
}

/// The instruction-by-instruction view of a compiled body.
pub open spec fn instrs_view(instrs: Seq<Instr>) -> Seq<SpecInstr> {
    Seq::new(instrs.len(), |i: int| instrs[i]@)
}

/// `b` lies inside one of the inclusive ranges of `set`.
pub open spec fn spec_byte_in_set(b: u8, set: Seq<(u8, u8)>) -> bool {
    exists|i: int| 0 <= i < set.len() && set[i].0 <= b && b <= set[i].1
}

/// `s` contains the byte `/` somewhere.
pub open spec fn spec_contains_slash(s: Seq<u8>) -> bool {
    exists|i: int| 0 <= i < s.len() && s[i] == SLASH
}

/// The remainder `rem` of a candidate path satisfies the instruction
/// sequence `instrs`, where `dir` says whether the candidate was flagged as
/// a directory.  Wildcards may consume any number of bytes, so those cases
/// quantify over the split point; `DirectoryOrAny` ends evaluation at once.
pub open spec fn spec_pattern_matches(rem: Seq<u8>, instrs: Seq<SpecInstr>, dir: bool) -> bool
    decreases instrs.len(),
{
    if instrs.len() == 0 {
        rem.len() == 0
    } else {
        let rest = instrs.drop_first();
        match instrs[0] {
            SpecInstr::Literal(bytes) => rem.len() >= bytes.len() && rem.take(
                bytes.len() as int,
            ) == bytes && spec_pattern_matches(rem.skip(bytes.len() as int), rest, dir),
            SpecInstr::AnyByte => rem.len() >= 1 && spec_pattern_matches(rem.skip(1), rest, dir),
            SpecInstr::ByteInSet(set) => rem.len() >= 1 && spec_byte_in_set(rem[0], set)
                && spec_pattern_matches(rem.skip(1), rest, dir),
            SpecInstr::ByteNotInSet(set) => rem.len() >= 1 && !spec_byte_in_set(rem[0], set)
                && spec_pattern_matches(rem.skip(1), rest, dir),
            SpecInstr::ZeroOrMoreNonSlash => if rest.len() == 0 {
                !spec_contains_slash(rem)
            } else {
                exists|k: int|
                    0 <= k <= rem.len() && !spec_contains_slash(rem.take(k))
                        && spec_pattern_matches(rem.skip(k), rest, dir)
            },
            SpecInstr::ZeroOrMore => if rest.len() == 0 {
                true
            } else {
                exists|k: int| 0 <= k <= rem.len() && spec_pattern_matches(rem.skip(k), rest, dir)
            },
            SpecInstr::DirectoryOrAny => (rem.len() >= 1 && rem[0] == SLASH) || (rem.len() == 0
                && dir),
        }
    }
}

/// Decides whether `byte` falls in any inclusive range of `set`.
pub fn byte_in_set(byte: u8, set: &[(u8, u8)]) -> (r: bool)
    ensures
        r == spec_byte_in_set(byte, set@),
{
    let mut i: usize = 0;
    while i < set.len()
        invariant
            0 <= i <= set@.len(),
            forall|j: int| 0 <= j < i ==> !(set@[j].0 <= byte && byte <= set@[j].1),
        decreases set@.len() - i,
    {
        let (start, end) = set[i];
        if byte >= start && byte <= end {
            return true;
        }
        i = i + 1;
    }
    false
}

/// Decides whether `s` contains the byte `/`.
fn contains_slash(s: &[u8]) -> (r: bool)
    ensures
        r == spec_contains_slash(s@),
{
    let mut i: usize = 0;
    while i < s.len()
        invariant
            0 <= i <= s@.len(),
            forall|j: int| 0 <= j < i ==> s@[j] != SLASH,
        decreases s@.len() - i,
    {
        if s[i] == SLASH {
            return true;
        }
        i = i + 1;
    }
    false
}

/// Decides whether `needle` is a prefix of `hay`.
fn starts_with_bytes(hay: &[u8], needle: &[u8]) -> (r: bool)
    ensures
        r == (hay@.len() >= needle@.len() && hay@.take(needle@.len() as int) == needle@),
{
    if hay.len() < needle.len() {
        return false;
    }
    let mut i: usize = 0;
    while i < needle.len()
        invariant
            0 <= i <= needle@.len() <= hay@.len(),
            forall|j: int| 0 <= j < i ==> hay@[j] == needle@[j],
        decreases needle@.len() - i,
    {
        if hay[i] != needle[i] {
            proof {
                assert(hay@.take(needle@.len() as int)[i as int] != needle@[i as int]);
            }
            return false;
        }
        i = i + 1;
    }
    proof {
        assert(hay@.take(needle@.len() as int) =~= needle@);
    }
    true
}

/// Evaluates the instruction sequence `pattern` against the path remainder
/// `rem`, backtracking through wildcards; `dir` says whether the candidate
/// was flagged as a directory.
#[verifier::loop_isolation(false)]
pub fn pattern_matches(rem: &[u8], pattern: &[Instr], dir: bool) -> (r: bool)
    ensures
        r == spec_pattern_matches(rem@, instrs_view(pattern@), dir),
    decreases pattern@.len(),
{
    if pattern.len() == 0 {
        return rem.len() == 0;
    }
    let rest = &pattern[1..pattern.len()];
    proof {
        assert(instrs_view(pattern@).drop_first() =~= instrs_view(rest@));
    }
    match &pattern[0] {
        Instr::Literal(bytes) => {
            if starts_with_bytes(rem, bytes.as_slice()) {
                pattern_matches(&rem[bytes.len()..rem.len()], rest, dir)
            } else {
                false
            }
        },
        Instr::AnyByte => {
            if rem.len() == 0 {
                false
            } else {
                pattern_matches(&rem[1..rem.len()], rest, dir)
            }
        },
        Instr::ByteInSet(set) => {
            if rem.len() == 0 {
                false
            } else if !byte_in_set(rem[0], set.as_slice()) {
                false
            } else {
                pattern_matches(&rem[1..rem.len()], rest, dir)
            }
        },
        Instr::ByteNotInSet(set) => {
            if rem.len() == 0 {
                false
            } else if byte_in_set(rem[0], set.as_slice()) {
                false
            } else {
                pattern_matches(&rem[1..rem.len()], rest, dir)
            }
        },
        Instr::ZeroOrMore => {
            if rest.len() == 0 {
                return true;
            }
            let mut k: usize = 0;
            loop
                invariant
                    0 <= k <= rem@.len(),
                    forall|j: int|
                        0 <= j < k ==> !spec_pattern_matches(rem@.skip(j), instrs_view(rest@), dir),
                decreases rem@.len() - k,
            {
                if pattern_matches(&rem[k..rem.len()], rest, dir) {
                    return true;
                }
                if k == rem.len() {
                    proof {
                        assert(forall|j: int|
                            0 <= j <= rem@.len() ==> !spec_pattern_matches(
                                rem@.skip(j),
                                instrs_view(rest@),
                                dir,
                            ));
                    }
                    return false;
                }
                k = k + 1;
            }
        },
        Instr::ZeroOrMoreNonSlash => {
            if rest.len() == 0 {
                return !contains_slash(rem);
            }
            let mut k: usize = 0;
            loop
                invariant
                    0 <= k <= rem@.len(),
                    !spec_contains_slash(rem@.take(k as int)),
                    forall|j: int|
                        0 <= j < k ==> !spec_pattern_matches(rem@.skip(j), instrs_view(rest@), dir),
                decreases rem@.len() - k,
            {
                if pattern_matches(&rem[k..rem.len()], rest, dir) {
                    return true;
                }
                if k == rem.len() {
                    proof {
                        assert forall|j: int| 0 <= j <= rem@.len() implies !(
                        !spec_contains_slash(rem@.take(j)) && spec_pattern_matches(
                            rem@.skip(j),
                            instrs_view(rest@),
                            dir,
                        )) by {
                            assert(!spec_pattern_matches(rem@.skip(j), instrs_view(rest@), dir));
                        }
                    }
                    return false;
                }
                if rem[k] == SLASH {
                    proof {
                        assert forall|j: int| 0 <= j <= rem@.len() implies !(
                        !spec_contains_slash(rem@.take(j)) && spec_pattern_matches(
                            rem@.skip(j),
                            instrs_view(rest@),
                            dir,
                        )) by {
                            if j <= k {
                                assert(!spec_pattern_matches(
                                    rem@.skip(j),
                                    instrs_view(rest@),
                                    dir,
                                ));
                            } else {
                                assert(rem@.take(j)[k as int] == SLASH);
                                assert(spec_contains_slash(rem@.take(j)));
                            }
                        }
                    }
                    return false;
                }
                proof {
                    assert forall|i: int| 0 <= i < k + 1 implies #[trigger] rem@.take(k + 1)[i]
                        != SLASH by {
                        if i < k {
                            assert(rem@.take(k as int)[i] != SLASH);
                        }
                    }
                }
                k = k + 1;
            }
        },
        Instr::DirectoryOrAny => {
            if rem.len() >= 1 && rem[0] == SLASH {
                true
            } else {
                rem.len() == 0 && dir
            }
        },
    }
}

/// Lazily yields the byte offsets immediately following each `/` of a path,
/// scanned from the end toward the start.
pub struct SlashFinder<'a> {
    cur: &'a [u8],
}

impl<'a> View for SlashFinder<'a> {
    type V = Seq<u8>;

    closed spec fn view(&self) -> Seq<u8> {
        self.cur@
    }
}

impl<'a> SlashFinder<'a> {
    /// Starts a scan over `src`.
    pub fn new(src: &'a [u8]) -> (r: SlashFinder<'a>)
        ensures
            r@ == src@,
    {
        SlashFinder { cur: src }
    }

    /// Yields the offset just past the rightmost `/` not yet consumed, or
    /// `None` once no `/` is left; the scan then resumes left of that `/`.
    pub fn next(&mut self) -> (r: Option<usize>)
        ensures
            match r {
                Some(pos) => 1 <= pos <= old(self)@.len() && old(self)@[pos - 1] == SLASH && (
                forall|j: int| pos <= j < old(self)@.len() ==> old(self)@[j] != SLASH)
                    && final(self)@ == old(self)@.take(pos - 1),
                None => (forall|j: int| 0 <= j < old(self)@.len() ==> old(self)@[j] != SLASH)
                    && final(self)@.len() == 0,
            },
    {
        proof {
            assert(self@.take(self@.len() as int) =~= self@);
        }
        loop
            invariant
                self@.len() <= old(self)@.len(),
                self@ == old(self)@.take(self@.len() as int),
                forall|j: int| self@.len() <= j < old(self)@.len() ==> old(self)@[j] != SLASH,
            decreases self@.len(),
        {
            let len = self.cur.len();
            if len == 0 {
                return None;
            }
            let last = self.cur[len - 1];
            self.cur = &self.cur[0..len - 1];
            proof {
                assert(self@ =~= old(self)@.take(len - 1));
            }
            if last == SLASH {
                return Some(len);
            }
        }
    }
}

/// Why a pattern failed to compile.  All compile failures are final: no
/// partial pattern is ever returned.
#[derive(Clone, Copy, Debug, PartialEq, Eq, Structural)]
pub enum CompileError {
    /// The pattern ends in an unescaped `\`.
    TrailingEscape,
    /// POSIX class syntax such as `[:alpha:]` is unsupported.
    PosixClassUnsupported,
    /// A character set is missing its closing `]`.
    UnterminatedSet,
    /// A character-set range endpoint is not an ASCII byte.
    NonAsciiSetRange,
    /// `***` appears anywhere other than as the full trailing `/***`.
    MisplacedTripleStar,
}

impl CompileError {
    /// A human-readable reason for the failure.
    pub fn message(&self) -> (r: &'static str)
        ensures
            *self == CompileError::TrailingEscape ==> r@ == "Pattern contains a trailing `\\`"@,
            *self == CompileError::PosixClassUnsupported ==> r@
                == "Character classes like [:alpha:] are not supported"@,
            *self == CompileError::UnterminatedSet ==> r@
                == "Pattern contains a character set with no closing `]`"@,
            *self == CompileError::NonAsciiSetRange ==> r@
                == "Non-ASCII characters in character sets (`[...]`) are not supported; they most likely would not do what you want anyway."@,
            *self == CompileError::MisplacedTripleStar ==> r@
                == "`***` is not supported in this location"@,
    {
        match self {
            CompileError::TrailingEscape => "Pattern contains a trailing `\\`",
            CompileError::PosixClassUnsupported => "Character classes like [:alpha:] are not supported",
            CompileError::UnterminatedSet => "Pattern contains a character set with no closing `]`",
            CompileError::NonAsciiSetRange => "Non-ASCII characters in character sets (`[...]`) are not supported; they most likely would not do what you want anyway.",
            CompileError::MisplacedTripleStar => "`***` is not supported in this location",
        }
    }
}

/// `s` holds at least one of the wildcard bytes `*`, `?` or `[`.
pub open spec fn spec_has_wildcard(s: Seq<u8>) -> bool {
    exists|i: int| 0 <= i < s.len() && (s[i] == STAR || s[i] == QUESTION || s[i] == OPEN_BRACKET)
}

/// The pending literal buffer, flushed as a `Literal` instruction when it is
/// not empty.
pub open spec fn spec_flush(lits: Seq<u8>) -> Seq<SpecInstr> {
    if lits.len() > 0 {
        seq![SpecInstr::Literal(lits)]
    } else {
        Seq::empty()
    }
}

/// Parses the inside of a character set (everything after `[` and an
/// optional `^`), accumulating inclusive ranges into `acc` until the closing
/// `]`, then compiles the rest of the body.  Returns the instructions for
/// the set and everything after it.
pub open spec fn spec_compile_set(rem: Seq<u8>, negated: bool, acc: Seq<(u8, u8)>) -> Result<
    Seq<SpecInstr>,
    CompileError,
>
    decreases rem.len(),
{
    if acc.len() > 0 && rem.len() > 0 && rem[0] == CLOSE_BRACKET {
        let instr = if negated {
            SpecInstr::ByteNotInSet(acc)
        } else {
            SpecInstr::ByteInSet(acc)
        };
        match spec_compile_body(rem.skip(1), Seq::empty()) {
            Ok(tail) => Ok(seq![instr] + tail),
            Err(e) => Err(e),
        }
    } else if rem.len() >= 2 && rem[0] == OPEN_BRACKET && rem[1] == COLON {
        Err(CompileError::PosixClassUnsupported)
    } else if rem.len() == 0 {
        Err(CompileError::UnterminatedSet)
    } else if rem.len() > 1 && rem[1] == DASH {
        if rem.len() < 3 {
            Err(CompileError::UnterminatedSet)
        } else if rem[0] >= 0x80 || rem[2] >= 0x80 {
            Err(CompileError::NonAsciiSetRange)
        } else {
            spec_compile_set(rem.skip(3), negated, acc.push((rem[0], rem[2])))
        }
    } else if rem[0] >= 0x80 {
        Err(CompileError::NonAsciiSetRange)
    } else {
        spec_compile_set(rem.skip(1), negated, acc.push((rem[0], rem[0])))
    }
}

/// Compiles a pattern body (the pattern with anchor and directory markers
/// already stripped) that is known to hold a wildcard, carrying the pending
/// literal bytes in `lits`.
pub open spec fn spec_compile_body(rem: Seq<u8>, lits: Seq<u8>) -> Result<
    Seq<SpecInstr>,
    CompileError,
>
    decreases rem.len(),
{
    if rem.len() == 0 {
        Ok(spec_flush(lits))
    } else {
        let b = rem[0];
        let rest = rem.skip(1);
        if b == BACKSLASH {
            if rest.len() == 0 {
                Err(CompileError::TrailingEscape)
            } else {
                spec_compile_body(rest.skip(1), lits.push(rest[0]))
            }
        } else if b == OPEN_BRACKET {
            let negated = rest.len() > 0 && rest[0] == CARET;
            let after = if negated {
                rest.skip(1)
            } else {
                rest
            };
            match spec_compile_set(after, negated, Seq::empty()) {
                Ok(tail) => Ok(spec_flush(lits) + tail),
                Err(e) => Err(e),
            }
        } else if b == QUESTION {
            match spec_compile_body(rest, Seq::empty()) {
                Ok(tail) => Ok(spec_flush(lits) + seq![SpecInstr::AnyByte] + tail),
                Err(e) => Err(e),
            }
        } else if b == STAR {
            if rest.len() >= 2 && rest[0] == STAR && rest[1] == STAR {
                Err(CompileError::MisplacedTripleStar)
            } else if rest.len() >= 1 && rest[0] == STAR {
                match spec_compile_body(rest.skip(1), Seq::empty()) {
                    Ok(tail) => Ok(spec_flush(lits) + seq![SpecInstr::ZeroOrMore] + tail),
                    Err(e) => Err(e),
                }
            } else {
                match spec_compile_body(rest, Seq::empty()) {
                    Ok(tail) => Ok(spec_flush(lits) + seq![SpecInstr::ZeroOrMoreNonSlash] + tail),
                    Err(e) => Err(e),
                }
            }
        } else if b == SLASH && rest.len() == 3 && rest[0] == STAR && rest[1] == STAR && rest[2]
            == STAR {
            Ok(spec_flush(lits) + seq![SpecInstr::DirectoryOrAny])
        } else {
            spec_compile_body(rest, lits.push(b))
        }
    }
}

/// The mathematical shape of a compiled pattern.
#[verifier::ext_equal]
pub struct SpecPattern {
    /// The pattern began with `/` and matches from the path root only.
    pub anchor_start: bool,
    /// The pattern ended with `/` and matches directories only.
    pub req_dir: bool,
    /// The pattern (before stripping) held a `/` and spans path segments.
    pub full_path: bool,
    /// The compiled body.
    pub instructions: Seq<SpecInstr>,
    /// The untouched source text.
    pub original: Seq<u8>,
}

/// `s` ends in an unescaped `\`: its trailing run of `\` has odd length, so
/// the last one escapes nothing.
pub open spec fn ends_in_unescaped_backslash(s: Seq<u8>) -> bool
    decreases s.len(),
{
    if s.len() == 0 {
        false
    } else if s[s.len() - 1] != BACKSLASH {
        false
    } else {
        !ends_in_unescaped_backslash(s.take(s.len() - 1))
    }
}

/// The whole compilation: records the flags, strips the anchor and directory
/// markers, and compiles the remaining body.  A body without a wildcard
/// byte becomes a single literal — no wildcard semantics — except that a
/// trailing unescaped `\` is a compile error there too.
pub open spec fn spec_compile(original: Seq<u8>) -> Result<SpecPattern, CompileError> {
    let full_path = spec_contains_slash(original);
    let anchor_start = original.len() > 0 && original[0] == SLASH;
    let s1 = if anchor_start {
        original.skip(1)
    } else {
        original
    };
    let req_dir = s1.len() > 0 && s1[s1.len() - 1] == SLASH;
    let s2 = if req_dir {
        s1.take(s1.len() - 1)
    } else {
        s1
    };
    let body = if spec_has_wildcard(s2) {
        spec_compile_body(s2, Seq::empty())
    } else if ends_in_unescaped_backslash(s2) {
        Err(CompileError::TrailingEscape)
    } else {
        Ok(seq![SpecInstr::Literal(s2)])
    };
    match body {
        Ok(instructions) => Ok(
            SpecPattern { anchor_start, req_dir, full_path, instructions, original },
        ),
        Err(e) => Err(e),
    }
}

/// The instructions built so far, combined with what compiling the rest of
/// the body must still produce, yield exactly `goal`.
pub open spec fn body_step(
    goal: Result<Seq<SpecInstr>, CompileError>,
    built: Seq<SpecInstr>,
    rem: Seq<u8>,
    lits: Seq<u8>,
) -> bool {
    goal == (match spec_compile_body(rem, lits) {
        Ok(tail) => Ok::<Seq<SpecInstr>, CompileError>(built + tail),
        Err(e) => Err::<Seq<SpecInstr>, CompileError>(e),
    })
}

/// Skipping inside a subrange stays within the enclosing sequence.
proof fn lemma_subrange_skip(s: Seq<u8>, a: int, b: int, k: int)
    requires
        0 <= a <= b <= s.len(),
        0 <= k <= b - a,
    ensures
        s.subrange(a, b).skip(k) == s.subrange(a + k, b),
{
    assert(s.subrange(a, b).skip(k) =~= s.subrange(a + k, b));
}

/// Viewing a pushed instruction appends its view.
proof fn lemma_instrs_view_push(v: Seq<Instr>, x: Instr)
    ensures
        instrs_view(v.push(x)) == instrs_view(v) + seq![x@],
{
    assert(instrs_view(v.push(x)) =~= instrs_view(v) + seq![x@]);
}

/// A trailing `\` run of odd length leaves its last `\` unescaped.
proof fn lemma_trailing_backslash_run(s: Seq<u8>, k: int)
    requires
        0 <= k <= s.len(),
        forall|j: int| s.len() - k <= j < s.len() ==> s[j] == BACKSLASH,
        k < s.len() ==> s[s.len() - k - 1] != BACKSLASH,
    ensures
        ends_in_unescaped_backslash(s) == (k % 2 == 1),
    decreases k,
{
    if k > 0 {
        assert(s[s.len() - 1] == BACKSLASH);
        lemma_trailing_backslash_run(s.take(s.len() - 1), k - 1);
    }
}

/// Decides whether the body `src[lo..hi]` ends in an unescaped `\`, by
/// measuring the parity of its trailing `\` run.
fn body_ends_in_unescaped_backslash(src: &Vec<u8>, lo: usize, hi: usize) -> (r: bool)
    requires
        lo <= hi <= src@.len(),
    ensures
        r == ends_in_unescaped_backslash(src@.subrange(lo as int, hi as int)),
{
    let ghost s2 = src@.subrange(lo as int, hi as int);
    let mut run: usize = 0;
    while hi - run > lo && src[hi - run - 1] == BACKSLASH
        invariant
            lo <= hi <= src@.len(),
            0 <= run <= hi - lo,
            forall|j: int| hi - run <= j < hi ==> src@[j] == BACKSLASH,
        decreases hi - lo - run,
    {
        run = run + 1;
    }
    proof {
        assert forall|j: int| s2.len() - run <= j < s2.len() implies s2[j] == BACKSLASH by {
            assert(src@[lo + j] == BACKSLASH);
        }
        lemma_trailing_backslash_run(s2, run as int);
    }
    run % 2 == 1
}

/// Flushes the pending literal bytes into a `Literal` instruction, handing
/// back an empty buffer.
fn flush_literals(pattern: &mut Vec<Instr>, literals: Vec<u8>) -> (r: Vec<u8>)
    ensures
        instrs_view(final(pattern)@) == instrs_view(old(pattern)@) + spec_flush(literals@),
        r@ == Seq::<u8>::empty(),
{
    if literals.len() > 0 {
        proof {
            lemma_instrs_view_push(pattern@, Instr::Literal(literals));
        }
        pattern.push(Instr::Literal(literals));
        let r: Vec<u8> = Vec::new();
        proof {
            assert(r@ =~= Seq::<u8>::empty());
        }
        r
    } else {
        proof {
            assert(instrs_view(pattern@) + spec_flush(literals@) =~= instrs_view(pattern@));
            assert(literals@ =~= Seq::<u8>::empty());
        }
        literals
    }
}

/// Reads the inside of a character set out of `src[start..hi]` (everything
/// after `[` and an optional `^`): the accumulated ranges and the position
/// just past the closing `]`, or the failure that `spec_compile_set` assigns.
#[verifier::loop_isolation(false)]
fn parse_set_ranges(src: &Vec<u8>, hi: usize, start: usize, negated: bool) -> (res: Result<
    (Vec<(u8, u8)>, usize),
    CompileError,
>)
    requires
        start <= hi <= src@.len(),
    ensures
        ({
            let whole = spec_compile_set(
                src@.subrange(start as int, hi as int),
                negated,
                Seq::<(u8, u8)>::empty(),
            );
            match res {
                Ok(p) => start < p.1 <= hi && whole == (match spec_compile_body(
                    src@.subrange(p.1 as int, hi as int),
                    Seq::<u8>::empty(),
                ) {
                    Ok(tail) => Ok::<Seq<SpecInstr>, CompileError>(
                        seq![
                            if negated {
                                SpecInstr::ByteNotInSet(p.0@)
                            } else {
                                SpecInstr::ByteInSet(p.0@)
                            },
                        ] + tail,
                    ),
                    Err(e) => Err::<Seq<SpecInstr>, CompileError>(e),
                }),
                Err(e) => whole == Err::<Seq<SpecInstr>, CompileError>(e),
            }
        }),
{
    let mut pos = start;
    let mut set: Vec<(u8, u8)> = Vec::new();
    proof {
        assert(set@ =~= Seq::<(u8, u8)>::empty());
    }
    while set.len() == 0 || pos == hi || src[pos] != CLOSE_BRACKET
        invariant
            start <= pos <= hi,
            spec_compile_set(src@.subrange(pos as int, hi as int), negated, set@)
                == spec_compile_set(
                src@.subrange(start as int, hi as int),
                negated,
                Seq::<(u8, u8)>::empty(),
            ),
        decreases hi - pos,
    {
        if pos == hi {
            return Err(CompileError::UnterminatedSet);
        }
        if hi - pos >= 2 && src[pos] == OPEN_BRACKET && src[pos + 1] == COLON {
            return Err(CompileError::PosixClassUnsupported);
        }
        let sch = src[pos];
        if hi - pos >= 2 && src[pos + 1] == DASH {
            if hi - pos < 3 {
                return Err(CompileError::UnterminatedSet);
            }
            let ech = src[pos + 2];
            if sch >= 0x80 || ech >= 0x80 {
                return Err(CompileError::NonAsciiSetRange);
            }
            proof {
                lemma_subrange_skip(src@, pos as int, hi as int, 3);
            }
            set.push((sch, ech));
            pos = pos + 3;
        } else {
            if sch >= 0x80 {
                return Err(CompileError::NonAsciiSetRange);
            }
            proof {
                lemma_subrange_skip(src@, pos as int, hi as int, 1);
            }
            set.push((sch, sch));
            pos = pos + 1;
        }
    }
    proof {
        lemma_subrange_skip(src@, pos as int, hi as int, 1);
    }
    Ok((set, pos + 1))
}

/// Decides whether `s` holds one of the wildcard bytes `*`, `?` or `[`.
fn has_wildcard_in(s: &[u8]) -> (r: bool)
    ensures
        r == spec_has_wildcard(s@),
{
    let mut i: usize = 0;
    while i < s.len()
        invariant
            0 <= i <= s@.len(),
            forall|j: int|
                0 <= j < i ==> !(s@[j] == STAR || s@[j] == QUESTION || s@[j] == OPEN_BRACKET),
        decreases s@.len() - i,
    {
        let b = s[i];
        if b == STAR || b == QUESTION || b == OPEN_BRACKET {
            return true;
        }
        i = i + 1;
    }
    false
}

/// A compiled rsync-style glob pattern: flags plus an ordered instruction
/// sequence, immutable and shareable once built.
#[derive(Debug, Clone)]
pub struct RsyncPattern {
    anchor_start: bool,
    req_dir: bool,
    full_path: bool,
    pattern: Vec<Instr>,
    original: Vec<u8>,
}

impl View for RsyncPattern {
    type V = SpecPattern;

    closed spec fn view(&self) -> SpecPattern {
        SpecPattern {
            anchor_start: self.anchor_start,
            req_dir: self.req_dir,
            full_path: self.full_path,
            instructions: instrs_view(self.pattern@),
            original: self.original@,
        }
    }
}

/// `path` with all leading `/` removed.
pub open spec fn strip_leading_slashes(s: Seq<u8>) -> Seq<u8>
    decreases s.len(),
{
    if s.len() > 0 && s[0] == SLASH {
        strip_leading_slashes(s.skip(1))
    } else {
        s
    }
}

/// `path` with all trailing `/` removed.
pub open spec fn strip_trailing_slashes(s: Seq<u8>) -> Seq<u8>
    decreases s.len(),
{
    if s.len() > 0 && s[s.len() - 1] == SLASH {
        strip_trailing_slashes(s.take(s.len() - 1))
    } else {
        s
    }
}

/// The index just past the last `/` of `s`, or `0` when `s` has none: where
/// the final path segment starts.
pub open spec fn final_seg_start(s: Seq<u8>) -> int
    decreases s.len(),
{
    if s.len() == 0 {
        0
    } else if s[s.len() - 1] == SLASH {
        s.len() as int
    } else {
        final_seg_start(s.take(s.len() - 1))
    }
}

/// `i` is the offset immediately following a `/` of `s`: the start of a
/// path segment other than the first.
pub open spec fn is_boundary(s: Seq<u8>, i: int) -> bool {
    1 <= i <= s.len() && s[i - 1] == SLASH
}

/// The candidate was explicitly flagged as a directory: after removing
/// leading `/`, it still ends in `/`.
pub open spec fn spec_is_dir(path: Seq<u8>) -> bool {
    let stripped = strip_leading_slashes(path);
    stripped.len() > 0 && stripped[stripped.len() - 1] == SLASH
}

/// The candidate as the matcher sees it: leading `/` removed, and, for a
/// directory, the trailing `/` run removed as well.
pub open spec fn spec_normalize(path: Seq<u8>) -> Seq<u8> {
    let stripped = strip_leading_slashes(path);
    if spec_is_dir(path) {
        strip_trailing_slashes(stripped.take(stripped.len() - 1))
    } else {
        stripped
    }
}

/// What `RsyncPattern::matches` decides: a directory-only pattern needs a
/// directory candidate; a full-path pattern is tried at the root and — when
/// not anchored — at every segment boundary; a single-segment pattern sees
/// only the final segment.
pub open spec fn spec_matches(p: SpecPattern, path: Seq<u8>) -> bool {
    let is_dir = spec_is_dir(path);
    let norm = spec_normalize(path);
    if p.req_dir && !is_dir {
        false
    } else if p.full_path {
        spec_pattern_matches(norm, p.instructions, is_dir) || (!p.anchor_start && exists|i: int|
            is_boundary(norm, i) && spec_pattern_matches(norm.skip(i), p.instructions, is_dir))
    } else {
        spec_pattern_matches(norm.skip(final_seg_start(norm)), p.instructions, is_dir)
    }
}

/// Removing leading slashes is the same as skipping past them.
proof fn lemma_strip_leading(s: Seq<u8>, k: int)
    requires
        0 <= k <= s.len(),
        forall|j: int| 0 <= j < k ==> s[j] == SLASH,
        k < s.len() ==> s[k] != SLASH,
    ensures
        strip_leading_slashes(s) == s.skip(k),
    decreases k,
{
    if k == 0 {
        assert(s.skip(0) =~= s);
    } else {
        lemma_strip_leading(s.skip(1), k - 1);
        assert(s.skip(1).skip(k - 1) =~= s.skip(k));
    }
}

/// Removing trailing slashes is the same as cutting them off.
proof fn lemma_strip_trailing(s: Seq<u8>, k: int)
    requires
        0 <= k <= s.len(),
        forall|j: int| k <= j < s.len() ==> s[j] == SLASH,
        k > 0 ==> s[k - 1] != SLASH,
    ensures
        strip_trailing_slashes(s) == s.take(k),
    decreases s.len(),
{
    if k == s.len() {
        assert(s.take(k) =~= s);
    } else {
        lemma_strip_trailing(s.take(s.len() - 1), k);
        assert(s.take(s.len() - 1).take(k) =~= s.take(k));
    }
}

/// The final segment starts right after the last slash.
proof fn lemma_final_seg_start(s: Seq<u8>, k: int)
    requires
        0 <= k <= s.len(),
        k > 0 ==> s[k - 1] == SLASH,
        forall|j: int| k <= j < s.len() ==> s[j] != SLASH,
    ensures
        final_seg_start(s) == k,
    decreases s.len(),
{
    if s.len() == 0 {
    } else if s[s.len() - 1] == SLASH {
        assert(k == s.len());
    } else {
        assert(k < s.len());
        lemma_final_seg_start(s.take(s.len() - 1), k);
    }
}

/// Tries a full instruction-sequence match at every segment boundary of the
/// normalized candidate, scanning from the end toward the start.
fn any_boundary_matches(norm: &[u8], pattern: &[Instr], dir: bool) -> (r: bool)
    ensures
        r == exists|i: int|
            is_boundary(norm@, i) && spec_pattern_matches(
                norm@.skip(i),
                instrs_view(pattern@),
                dir,
            ),
{
    let mut finder = SlashFinder::new(norm);
    let ghost mut seen: int = norm@.len() as int;
    proof {
        assert(finder@ =~= norm@.take(seen));
    }
    loop
        invariant
            0 <= seen <= norm@.len(),
            finder@ == norm@.take(seen),
            forall|i: int|
                seen < i <= norm@.len() && is_boundary(norm@, i) ==> !spec_pattern_matches(
                    norm@.skip(i),
                    instrs_view(pattern@),
                    dir,
                ),
        ensures
            forall|i: int|
                is_boundary(norm@, i) ==> !spec_pattern_matches(
                    norm@.skip(i),
                    instrs_view(pattern@),
                    dir,
                ),
        decreases seen,
    {
        match finder.next() {
            Some(bpos) => {
                if pattern_matches(&norm[bpos..norm.len()], pattern, dir) {
                    proof {
                        assert(is_boundary(norm@, bpos as int));
                        assert(spec_pattern_matches(
                            norm@.skip(bpos as int),
                            instrs_view(pattern@),
                            dir,
                        ));
                    }
                    return true;
                }
                proof {
                    assert(finder@ =~= norm@.take(bpos - 1));
                    assert forall|i: int|
                        bpos - 1 < i <= norm@.len() && is_boundary(
                            norm@,
                            i,
                        ) implies !spec_pattern_matches(
                        norm@.skip(i),
                        instrs_view(pattern@),
                        dir,
                    ) by {
                        if i > seen {
                        } else if i == bpos {
                        } else {
                            assert(norm@.take(seen)[i - 1] != SLASH);
                        }
                    }
                    seen = bpos - 1;
                }
            },
            None => {
                proof {
                    assert forall|i: int| is_boundary(norm@, i) implies !spec_pattern_matches(
                        norm@.skip(i),
                        instrs_view(pattern@),
                        dir,
                    ) by {
                        if i <= seen {
                            assert(norm@.take(seen)[i - 1] == SLASH);
                            assert(false);
                        }
                    }
                    seen = 0;
                    assert(finder@ =~= norm@.take(0));
                }
                break;
            },
        }
    }
    false
}

/// Compiles `src[lo..hi]`, a pattern body known to hold a wildcard byte,
/// into its instruction sequence, or reports the failure that
/// `spec_compile_body` assigns.
#[verifier::loop_isolation(false)]
#[verifier::rlimit(100)]
fn compile_wildcard_body(src: &Vec<u8>, lo: usize, hi: usize) -> (res: Result<
    Vec<Instr>,
    CompileError,
>)
    requires
        lo <= hi <= src@.len(),
    ensures
        ({
            let goal = spec_compile_body(src@.subrange(lo as int, hi as int), Seq::<u8>::empty());
            match res {
                Ok(pattern) => goal == Ok::<Seq<SpecInstr>, CompileError>(instrs_view(pattern@)),
                Err(e) => goal == Err::<Seq<SpecInstr>, CompileError>(e),
            }
        }),
{
    let ghost s2 = src@.subrange(lo as int, hi as int);
    let ghost goal = spec_compile_body(s2, Seq::<u8>::empty());
    let mut pattern: Vec<Instr> = Vec::new();
    let mut literals: Vec<u8> = Vec::new();
    let mut pos: usize = lo;
    proof {
        assert(instrs_view(pattern@) =~= Seq::<SpecInstr>::empty());
        assert(literals@ =~= Seq::<u8>::empty());
        if goal is Ok {
            assert(Seq::<SpecInstr>::empty() + goal->Ok_0 =~= goal->Ok_0);
        }
    }
    while pos < hi
        invariant
            lo <= pos <= hi <= src@.len(),
            body_step(goal, instrs_view(pattern@), src@.subrange(pos as int, hi as int), literals@),
        decreases hi - pos,
    {
        let ghost rem = src@.subrange(pos as int, hi as int);
        let ghost rest = rem.skip(1);
        proof {
            lemma_subrange_skip(src@, pos as int, hi as int, 1);
        }
        let b = src[pos];
        if b == BACKSLASH {
            if pos + 1 == hi {
                return Err(CompileError::TrailingEscape);
            }
            literals.push(src[pos + 1]);
            proof {
                lemma_subrange_skip(src@, pos as int + 1, hi as int, 1);
            }
            pos = pos + 2;
        } else if b == OPEN_BRACKET {
            let ghost built0 = instrs_view(pattern@);
            let ghost lits0 = literals@;
            literals = flush_literals(&mut pattern, literals);
            let ghost flushed = instrs_view(pattern@);
            let negated = pos + 1 < hi && src[pos + 1] == CARET;
            proof {
                if negated {
                    lemma_subrange_skip(src@, pos as int + 1, hi as int, 1);
                }
            }
            let spos = if negated {
                pos + 2
            } else {
                pos + 1
            };
            match parse_set_ranges(src, hi, spos, negated) {
                Err(e) => {
                    return Err(e);
                },
                Ok(pair) => {
                    let (set, np) = pair;
                    let ghost sinstr = if negated {
                        SpecInstr::ByteNotInSet(set@)
                    } else {
                        SpecInstr::ByteInSet(set@)
                    };
                    let instr = if negated {
                        Instr::ByteNotInSet(set)
                    } else {
                        Instr::ByteInSet(set)
                    };
                    proof {
                        lemma_instrs_view_push(pattern@, instr);
                        let rem2 = src@.subrange(np as int, hi as int);
                        if spec_compile_body(rem2, Seq::<u8>::empty()) is Ok {
                            let tail = spec_compile_body(rem2, Seq::<u8>::empty())->Ok_0;
                            assert(built0 + (spec_flush(lits0) + (seq![sinstr] + tail)) =~= (
                            flushed + seq![sinstr]) + tail);
                        }
                    }
                    pattern.push(instr);
                    pos = np;
                },
            }
        } else if b == QUESTION {
            let ghost built0 = instrs_view(pattern@);
            let ghost lits0 = literals@;
            literals = flush_literals(&mut pattern, literals);
            proof {
                lemma_instrs_view_push(pattern@, Instr::AnyByte);
                if spec_compile_body(rest, Seq::<u8>::empty()) is Ok {
                    let tail = spec_compile_body(rest, Seq::<u8>::empty())->Ok_0;
                    assert(built0 + ((spec_flush(lits0) + seq![SpecInstr::AnyByte]) + tail) =~= ((
                    built0 + spec_flush(lits0)) + seq![SpecInstr::AnyByte]) + tail);
                    assert(spec_flush(lits0) + seq![SpecInstr::AnyByte] + tail =~= (spec_flush(
                        lits0,
                    ) + seq![SpecInstr::AnyByte]) + tail);
                }
            }
            pattern.push(Instr::AnyByte);
            pos = pos + 1;
        } else if b == STAR {
            if hi - pos > 2 && src[pos + 1] == STAR && src[pos + 2] == STAR {
                return Err(CompileError::MisplacedTripleStar);
            }
            let ghost built0 = instrs_view(pattern@);
            let ghost lits0 = literals@;
            literals = flush_literals(&mut pattern, literals);
            if pos + 1 < hi && src[pos + 1] == STAR {
                proof {
                    lemma_instrs_view_push(pattern@, Instr::ZeroOrMore);
                    lemma_subrange_skip(src@, pos as int + 1, hi as int, 1);
                    if spec_compile_body(rest.skip(1), Seq::<u8>::empty()) is Ok {
                        let tail = spec_compile_body(rest.skip(1), Seq::<u8>::empty())->Ok_0;
                        assert(built0 + ((spec_flush(lits0) + seq![SpecInstr::ZeroOrMore]) + tail)
                            =~= ((built0 + spec_flush(lits0)) + seq![SpecInstr::ZeroOrMore])
                            + tail);
                        assert(spec_flush(lits0) + seq![SpecInstr::ZeroOrMore] + tail =~= (
                        spec_flush(lits0) + seq![SpecInstr::ZeroOrMore]) + tail);
                    }
                }
                pattern.push(Instr::ZeroOrMore);
                pos = pos + 2;
            } else {
                proof {
                    lemma_instrs_view_push(pattern@, Instr::ZeroOrMoreNonSlash);
                    if spec_compile_body(rest, Seq::<u8>::empty()) is Ok {
                        let tail = spec_compile_body(rest, Seq::<u8>::empty())->Ok_0;
                        assert(built0 + ((spec_flush(lits0) + seq![SpecInstr::ZeroOrMoreNonSlash])
                            + tail) =~= ((built0 + spec_flush(lits0))
                            + seq![SpecInstr::ZeroOrMoreNonSlash]) + tail);
                        assert(spec_flush(lits0) + seq![SpecInstr::ZeroOrMoreNonSlash] + tail =~= (
                        spec_flush(lits0) + seq![SpecInstr::ZeroOrMoreNonSlash]) + tail);
                    }
                }
                pattern.push(Instr::ZeroOrMoreNonSlash);
                pos = pos + 1;
            }
        } else if b == SLASH && hi - pos == 4 && src[pos + 1] == STAR && src[pos + 2] == STAR
            && src[pos + 3] == STAR {
            let ghost built0 = instrs_view(pattern@);
            let ghost lits0 = literals@;
            literals = flush_literals(&mut pattern, literals);
            proof {
                lemma_instrs_view_push(pattern@, Instr::DirectoryOrAny);
                assert(built0 + (spec_flush(lits0) + seq![SpecInstr::DirectoryOrAny]) =~= (built0
                    + spec_flush(lits0)) + seq![SpecInstr::DirectoryOrAny]);
                assert(spec_flush(lits0) + seq![SpecInstr::DirectoryOrAny] =~= spec_flush(lits0)
                    + seq![SpecInstr::DirectoryOrAny]);
            }
            pattern.push(Instr::DirectoryOrAny);
            pos = hi;
            proof {
                assert(src@.subrange(hi as int, hi as int) =~= Seq::<u8>::empty());
                assert(instrs_view(pattern@) + Seq::<SpecInstr>::empty() =~= instrs_view(pattern@));
                assert(spec_flush(literals@) =~= Seq::<SpecInstr>::empty());
            }
        } else {
            literals.push(b);
            pos = pos + 1;
        }
    }
    proof {
        assert(src@.subrange(hi as int, hi as int) =~= Seq::<u8>::empty());
    }
    let _ = flush_literals(&mut pattern, literals);
    proof {
        assert(goal == Ok::<Seq<SpecInstr>, CompileError>(instrs_view(pattern@)));
    }
    Ok(pattern)
}

impl RsyncPattern {
    /// Compiles the pattern bytes `src` into a matcher, or reports exactly
    /// the failure that `spec_compile` assigns to malformed input.
    pub fn new(src: Vec<u8>) -> (r: Result<RsyncPattern, CompileError>)
        ensures
            match r {
                Ok(p) => spec_compile(src@) == Ok::<SpecPattern, CompileError>(p@),
                Err(e) => spec_compile(src@) == Err::<SpecPattern, CompileError>(e),
            },
    {
        let len = src.len();
        let full_path = contains_slash(src.as_slice());
        let anchor_start = len > 0 && src[0] == SLASH;
        let lo: usize = if anchor_start {
            1
        } else {
            0
        };
        let req_dir = len > lo && src[len - 1] == SLASH;
        let hi: usize = if req_dir {
            len - 1
        } else {
            len
        };
        let ghost s2 = src@.subrange(lo as int, hi as int);
        proof {
            let s1 = if anchor_start {
                src@.skip(1)
            } else {
                src@
            };
            assert(s1 =~= src@.subrange(lo as int, len as int));
            assert(req_dir == (s1.len() > 0 && s1[s1.len() - 1] == SLASH));
            if req_dir {
                assert(s1.take(s1.len() - 1) =~= s2);
            } else {
                assert(s1 =~= s2);
            }
        }
        let body_slice = &src.as_slice()[lo..hi];
        if !has_wildcard_in(body_slice) {
            if body_ends_in_unescaped_backslash(&src, lo, hi) {
                return Err(CompileError::TrailingEscape);
            }
            let mut pattern: Vec<Instr> = Vec::new();
            pattern.push(Instr::Literal(vstd::slice::slice_to_vec(body_slice)));
            let rp = RsyncPattern { anchor_start, req_dir, full_path, pattern, original: src };
            proof {
                assert(instrs_view(rp.pattern@) =~= seq![SpecInstr::Literal(s2)]);
                assert(rp@ =~~= spec_compile(rp.original@)->Ok_0);
            }
            return Ok(rp);
        }
        match compile_wildcard_body(&src, lo, hi) {
            Err(e) => Err(e),
            Ok(pattern) => {
                let rp = RsyncPattern { anchor_start, req_dir, full_path, pattern, original: src };
                proof {
                    assert(rp@ =~~= spec_compile(rp.original@)->Ok_0);
                }
                Ok(rp)
            },
        }
    }


    /// Decides whether the pattern matches the candidate `path`: the
    /// candidate is normalized (leading `/` stripped; a trailing `/` marks a
    /// directory and is stripped with any further trailing `/`), and the
    /// instruction sequence is then tried at every starting offset that the
    /// pattern's flags allow.  Total: malformed candidates simply fail.
    #[verifier::loop_isolation(false)]
    pub fn matches(&self, path: &[u8]) -> (r: bool)
        ensures
            r == spec_matches(self@, path@),
    {
        let mut lo: usize = 0;
        while lo < path.len() && path[lo] == SLASH
            invariant
                0 <= lo <= path@.len(),
                forall|j: int| 0 <= j < lo ==> path@[j] == SLASH,
            decreases path@.len() - lo,
        {
            lo = lo + 1;
        }
        proof {
            lemma_strip_leading(path@, lo as int);
        }
        let ghost stripped = path@.skip(lo as int);
        let is_dir = lo < path.len() && path[path.len() - 1] == SLASH;
        let mut hi: usize = path.len();
        if is_dir {
            hi = hi - 1;
            while hi > lo && path[hi - 1] == SLASH
                invariant
                    lo <= hi < path@.len(),
                    forall|j: int| hi <= j < path@.len() - 1 ==> path@[j] == SLASH,
                decreases hi,
            {
                hi = hi - 1;
            }
            proof {
                let inner = stripped.take(stripped.len() - 1);
                assert(inner =~= path@.subrange(lo as int, path@.len() - 1));
                lemma_strip_trailing(inner, hi - lo as int);
                assert(inner.take(hi - lo as int) =~= path@.subrange(lo as int, hi as int));
            }
        } else {
            if self.req_dir {
                return false;
            }
            proof {
                assert(path@.subrange(lo as int, hi as int) =~= stripped);
            }
        }
        let ghost norm = spec_normalize(path@);
        proof {
            assert(norm == path@.subrange(lo as int, hi as int));
        }
        let norm_slice = &path[lo..hi];
        if self.full_path {
            if !self.anchor_start {
                if any_boundary_matches(norm_slice, self.pattern.as_slice(), is_dir) {
                    return true;
                }
            }
            pattern_matches(norm_slice, self.pattern.as_slice(), is_dir)
        } else {
            let mut finder = SlashFinder::new(norm_slice);
            match finder.next() {
                Some(bpos) => {
                    proof {
                        lemma_final_seg_start(norm, bpos as int);
                    }
                    pattern_matches(
                        &norm_slice[bpos..norm_slice.len()],
                        self.pattern.as_slice(),
                        is_dir,
                    )
                },
                None => {
                    proof {
                        lemma_final_seg_start(norm, 0);
                        assert(norm.skip(0) =~= norm);
                    }
                    pattern_matches(norm_slice, self.pattern.as_slice(), is_dir)
                },
            }
        }
    }

    /// The untouched source text of the pattern, kept for display.
    pub fn get_original_form(&self) -> (r: &[u8])
        ensures
            r@ == self@.original,
    {
        self.original.as_slice()
    }
}

/// Stripping leading slashes distributes over appending bytes that do not
/// begin with a slash.
proof fn lemma_strip_leading_append(a: Seq<u8>, b: Seq<u8>)
    requires
        b.len() > 0,
        b[0] != SLASH,
    ensures
        strip_leading_slashes(a + b) == strip_leading_slashes(a) + b,
    decreases a.len(),
{
    if a.len() == 0 {
        assert(a + b =~= b);
        assert(strip_leading_slashes(a) + b =~= b);
    } else if a[0] == SLASH {
        assert((a + b)[0] == SLASH);
        assert((a + b).skip(1) =~= a.skip(1) + b);
        lemma_strip_leading_append(a.skip(1), b);
    } else {
        assert((a + b)[0] != SLASH);
    }
}

/// Stripping leading slashes keeps the last byte of a sequence.
proof fn lemma_strip_leading_last(s: Seq<u8>)
    requires
        strip_leading_slashes(s).len() > 0,
    ensures
        s.len() > 0,
        strip_leading_slashes(s).last() == s.last(),
    decreases s.len(),
{
    if s.len() > 0 && s[0] == SLASH {
        lemma_strip_leading_last(s.skip(1));
    }
}

/// A pattern holding no `/` sees only the final segment of a candidate:
/// prepending a directory prefix (any bytes ending in `/`) to a non-empty,
/// slash-free segment leaves the verdict unchanged.  (A directory candidate
/// such as `a/` is judged with its directory flag set, so the segment must
/// be non-empty for the two candidates to be alike.)
pub proof fn lemma_single_segment_only(
    src: Seq<u8>,
    p: SpecPattern,
    prefix: Seq<u8>,
    seg: Seq<u8>,
)
    requires
        spec_compile(src) == Ok::<SpecPattern, CompileError>(p),
        !spec_contains_slash(src),
        prefix.len() > 0,
        prefix[prefix.len() - 1] == SLASH,
        seg.len() > 0,
        !spec_contains_slash(seg),
    ensures
        spec_matches(p, prefix + seg) == spec_matches(p, seg),
{
    assert(!p.full_path);
    assert(!p.req_dir) by {
        if src.len() > 0 && src[src.len() - 1] == SLASH {
            assert(spec_contains_slash(src));
        }
    }
    assert(seg[seg.len() - 1] != SLASH);
    assert(seg[0] != SLASH);
    lemma_strip_leading_append(prefix, seg);
    let q = strip_leading_slashes(prefix);
    let norm1 = q + seg;
    assert(strip_leading_slashes(prefix + seg) == norm1);
    assert(norm1.last() == seg[seg.len() - 1]);
    assert(!spec_is_dir(prefix + seg));
    assert(spec_normalize(prefix + seg) == norm1);
    if q.len() > 0 {
        lemma_strip_leading_last(prefix);
        assert(q.last() == SLASH);
    }
    assert forall|j: int| q.len() <= j < norm1.len() implies norm1[j] != SLASH by {
        assert(norm1[j] == seg[j - q.len()]);
    }
    lemma_final_seg_start(norm1, q.len() as int);
    assert(norm1.skip(q.len() as int) =~= seg);
    assert(!spec_is_dir(seg));
    assert(spec_normalize(seg) == seg);
    lemma_final_seg_start(seg, 0);
    assert(seg.skip(0) =~= seg);
}

/// Compilation is deterministic: two patterns compiled from the same bytes
/// return the same verdict on every candidate path.
pub proof fn lemma_compile_deterministic(
    src: Seq<u8>,
    p1: SpecPattern,
    p2: SpecPattern,
    path: Seq<u8>,
)
    requires
        spec_compile(src) == Ok::<SpecPattern, CompileError>(p1),
        spec_compile(src) == Ok::<SpecPattern, CompileError>(p2),
    ensures
        spec_matches(p1, path) == spec_matches(p2, path),
{
}

/// A root anchor implies a full-path pattern: the leading `/` itself makes
/// the pattern span the path.
pub proof fn lemma_anchor_implies_full_path(src: Seq<u8>, p: SpecPattern)
    requires
        spec_compile(src) == Ok::<SpecPattern, CompileError>(p),
    ensures
        p.anchor_start ==> p.full_path,
{
    if src.len() > 0 && src[0] == SLASH {
        assert(spec_contains_slash(src));
    }
}

} // verus!
