use copyright_check::rsync_pattern::{byte_in_set, pattern_matches, CompileError, Instr, RsyncPattern, SlashFinder};

#[test]
pub fn test() {
    let cases: &[(&[u8], &[&[u8]], &[&[u8]])] = &[
        // Match single-byte filenames
        (
            b"?",
            &[b"f", b"\x96"],
            &[b"fo", b"foo", b"fooo", "井".as_bytes()],
        ),
        // Match two-byte filenames
        (
            b"??",
            &[b"fo"],
            &[b"f", b"\x96", b"foo", b"fooo", "井".as_bytes()],
        ),
        // Match three-byte filenames
        (
            b"???",
            &[b"foo", "井".as_bytes()],
            &[b"f", b"\x96", b"fo", b"fooo"],
        ),
        // Match four-byte filenames
        (
            b"????",
            &[b"fooo"],
            &[b"f", b"\x96", b"fo", b"foo", "井".as_bytes()],
        ),
        // Test character class
        (
            b"foo_[ad-f]_version",
            &[
                b"foo_a_version",
                b"foo_d_version",
                b"foo_e_version",
                b"foo_f_version",
            ],
            &[b"foo_b_version", b"foo_c_version", b"foo_g_version"],
        ),
        // Simple filename match
        (
            b"foo",
            &[b"foo", b"dir/foo", b"cage/dir/foo"],
            &[b"bar", b"foo/bar"],
        ),
        // Match a file in a directory
        (
            b"foo/bar",
            &[b"foo/bar", b"dir/foo/bar", b"cage/dir/foo/bar"],
            &[b"bar", b"foo/bar/baz", b"cage/foo/bar/baz"],
        ),
        // Match only at the root
        (
            b"/foo/bar",
            &[b"foo/bar"],
            &[
                b"dir/foo/bar",
                b"cage/dir/foo/bar",
                b"bar",
                b"foo/bar/baz",
                b"cage/foo/bar/baz",
            ],
        ),
        // Match anything underneath a directory, including itself
        (
            b"foo/***",
            &[
                b"foo/",
                b"foo/bar",
                b"foo/bar/woof",
                b"foo/baz",
                b"foo/bang",
                b"cage/foo/",
                b"cage/foo/bar",
                b"cage/foo/bar/woof",
                b"cage/foo/baz",
                b"cage/foo/bang",
            ],
            &[b"foo", b"cage/foo"],
        ),
        // Match anything underneath a directory
        (
            b"foo/**",
            &[
                b"foo/bar",
                b"foo/bar/woof",
                b"foo/baz",
                b"foo/bang",
                b"cage/foo/bar",
                b"cage/foo/bar/woof",
                b"cage/foo/baz",
                b"cage/foo/bang",
            ],
            &[b"foo", b"foo/", b"cage/foo", b"cage/foo/"],
        ),
        // Match anything *directly* underneath an anchored directory
        (
            b"/foo/*",
            &[b"foo/bar", b"foo/baz", b"foo/bang"],
            &[
                b"foo",
                b"foo/",
                b"foo/bar/woof",
                b"cage/foo",
                b"cage/foo/",
                b"cage/foo/bar",
                b"cage/foo/bar/woof",
                b"cage/foo/baz",
                b"cage/foo/bang",
            ],
        ),
        // Match anything underneath a directory, anchored
        (
            b"/foo/**",
            &[b"foo/bar", b"foo/bar/woof", b"foo/baz", b"foo/bang"],
            &[
                b"foo",
                b"foo/",
                b"cage/foo",
                b"cage/foo/",
                b"cage/foo/bar",
                b"cage/foo/bar/woof",
                b"cage/foo/baz",
                b"cage/foo/bang",
            ],
        ),
        // Match anything *directly* underneath a directory, anchored
        (
            b"/foo/*",
            &[b"foo/bar", b"foo/baz", b"foo/bang"],
            &[
                b"foo",
                b"foo/",
                b"foo/bar/woof",
                b"cage/foo",
                b"cage/foo/",
                b"cage/foo/bar",
                b"cage/foo/bar/woof",
                b"cage/foo/baz",
                b"cage/foo/bang",
            ],
        ),
    ];
    let mut wrong = 0;
    for (source, matches, unmatches) in cases {
        let pattern = RsyncPattern::new(source.to_vec()).unwrap();
        for case in matches.iter() {
            if !pattern.matches(case) {
                println!(
                    "Expected pattern \"{}\" to match path \"{}\", \
                           but it did not\nPattern compiled to: {:?}",
                    String::from_utf8_lossy(source),
                    String::from_utf8_lossy(case),
                    pattern
                );
                wrong += 1;
            }
        }
        for case in unmatches.iter() {
            if pattern.matches(case) {
                println!(
                    "Expected pattern \"{}\" not to match path \
                           \"{}\", but it did\nPattern compiled to: {:?}",
                    String::from_utf8_lossy(source),
                    String::from_utf8_lossy(case),
                    pattern
                );
                wrong += 1;
            }
        }
    }
    if wrong > 0 {
        panic!("Some cases are wrong!")
    }
}

#[test]
fn compile_trailing_escape() {
    let r = RsyncPattern::new(b"a\\".to_vec());
    assert_eq!(r.unwrap_err(), CompileError::TrailingEscape);
    let r = RsyncPattern::new(b"?\\".to_vec());
    assert_eq!(r.unwrap_err(), CompileError::TrailingEscape);
    let r = RsyncPattern::new(b"a*\\".to_vec());
    assert_eq!(r.unwrap_err(), CompileError::TrailingEscape);
    let r = RsyncPattern::new(b"a\\\\\\".to_vec());
    assert_eq!(r.unwrap_err(), CompileError::TrailingEscape);
    // An even run of `\` escapes itself.  Without a wildcard byte the fast
    // path keeps both bytes literal.
    let literal = RsyncPattern::new(b"a\\\\".to_vec()).unwrap();
    assert!(literal.matches(b"a\\\\"));
    assert!(!literal.matches(b"a\\"));
}

#[test]
fn compile_unterminated_set() {
    let r = RsyncPattern::new(b"[abc".to_vec());
    assert_eq!(r.unwrap_err(), CompileError::UnterminatedSet);
    // `[]` treats the first `]` as an ordinary set member, so the set is
    // still unterminated.
    let r = RsyncPattern::new(b"[]".to_vec());
    assert_eq!(r.unwrap_err(), CompileError::UnterminatedSet);
    // A range cut off right after its dash is also unterminated.
    let r = RsyncPattern::new(b"[a-".to_vec());
    assert_eq!(r.unwrap_err(), CompileError::UnterminatedSet);
}

#[test]
fn compile_misplaced_triple_star() {
    let r = RsyncPattern::new(b"a***b".to_vec());
    assert_eq!(r.unwrap_err(), CompileError::MisplacedTripleStar);
    let r = RsyncPattern::new(b"***".to_vec());
    assert_eq!(r.unwrap_err(), CompileError::MisplacedTripleStar);
}

#[test]
fn compile_posix_class() {
    let r = RsyncPattern::new(b"[[:alpha:]]".to_vec());
    assert_eq!(r.unwrap_err(), CompileError::PosixClassUnsupported);
}

#[test]
fn compile_non_ascii_set_range() {
    let r = RsyncPattern::new(b"[\x96]".to_vec());
    assert_eq!(r.unwrap_err(), CompileError::NonAsciiSetRange);
    let r = RsyncPattern::new(b"[a-\xff]".to_vec());
    assert_eq!(r.unwrap_err(), CompileError::NonAsciiSetRange);
}

#[test]
fn error_messages_are_readable() {
    assert_eq!(
        CompileError::TrailingEscape.message(),
        "Pattern contains a trailing `\\`"
    );
    assert_eq!(
        CompileError::UnterminatedSet.message(),
        "Pattern contains a character set with no closing `]`"
    );
    assert_eq!(
        CompileError::MisplacedTripleStar.message(),
        "`***` is not supported in this location"
    );
    assert_eq!(
        CompileError::PosixClassUnsupported.message(),
        "Character classes like [:alpha:] are not supported"
    );
    assert_eq!(
        CompileError::NonAsciiSetRange.message(),
        "Non-ASCII characters in character sets (`[...]`) are not supported; they most likely would not do what you want anyway."
    );
}

#[test]
fn final_segment_only() {
    // A pattern without `/` sees only the final path segment.
    let pattern = RsyncPattern::new(b"fo?".to_vec()).unwrap();
    for seg in [&b"foo"[..], b"fox", b"bar", b"fo"] {
        let mut deep = b"a/".to_vec();
        deep.extend_from_slice(seg);
        assert_eq!(pattern.matches(&deep), pattern.matches(seg));
    }
}

#[test]
fn compile_idempotent() {
    // Compiling the same bytes twice yields matchers with identical
    // verdicts.
    for source in [&b"foo/*"[..], b"/a/**", b"x[0-9]y", b"a?c", b"plain"] {
        let p1 = RsyncPattern::new(source.to_vec()).unwrap();
        let p2 = RsyncPattern::new(source.to_vec()).unwrap();
        for path in [
            &b"foo/bar"[..],
            b"a/b/c",
            b"x5y",
            b"abc",
            b"plain",
            b"dir/plain",
            b"",
            b"foo/",
        ] {
            assert_eq!(p1.matches(path), p2.matches(path));
        }
    }
}

#[test]
fn segment_wildcard_vs_cross_segment_wildcard() {
    let single = RsyncPattern::new(b"foo/*".to_vec()).unwrap();
    assert!(single.matches(b"foo/bar"));
    assert!(!single.matches(b"foo/bar/woof"));
    let cross = RsyncPattern::new(b"foo/**".to_vec()).unwrap();
    assert!(cross.matches(b"foo/bar"));
    assert!(cross.matches(b"foo/bar/woof"));
}

#[test]
fn directory_only_pattern() {
    let pattern = RsyncPattern::new(b"foo/".to_vec()).unwrap();
    assert!(pattern.matches(b"foo/"));
    assert!(pattern.matches(b"cage/foo/"));
    assert!(!pattern.matches(b"foo"));
    assert!(!pattern.matches(b"cage/foo"));
}

#[test]
fn leading_slashes_are_normalized() {
    let pattern = RsyncPattern::new(b"/foo/bar".to_vec()).unwrap();
    assert!(pattern.matches(b"//foo/bar"));
    let pattern = RsyncPattern::new(b"foo/".to_vec()).unwrap();
    // Extra trailing slashes still mark a directory.
    assert!(pattern.matches(b"foo//"));
}

#[test]
fn escaped_wildcards_are_literal() {
    let pattern = RsyncPattern::new(b"a\\*b".to_vec()).unwrap();
    assert!(pattern.matches(b"a*b"));
    assert!(!pattern.matches(b"axb"));
    assert!(!pattern.matches(b"ab"));
}

#[test]
fn negated_character_set() {
    let pattern = RsyncPattern::new(b"x[^0-9]z".to_vec()).unwrap();
    assert!(pattern.matches(b"xaz"));
    assert!(!pattern.matches(b"x5z"));
}

#[test]
fn get_original_form_round_trips() {
    let pattern = RsyncPattern::new(b"/foo/*".to_vec()).unwrap();
    assert_eq!(pattern.get_original_form(), b"/foo/*");
}

#[test]
fn slash_finder_scans_backward() {
    let mut finder = SlashFinder::new(b"a/b/c");
    assert_eq!(finder.next(), Some(4));
    assert_eq!(finder.next(), Some(2));
    assert_eq!(finder.next(), None);
    let mut empty = SlashFinder::new(b"abc");
    assert_eq!(empty.next(), None);
}

#[test]
fn byte_in_set_checks_ranges() {
    let set = [(b'a', b'a'), (b'd', b'f')];
    assert!(byte_in_set(b'a', &set));
    assert!(byte_in_set(b'e', &set));
    assert!(!byte_in_set(b'b', &set));
    assert!(!byte_in_set(b'g', &set));
    assert!(!byte_in_set(b'a', &[]));
}

#[test]
fn pattern_matches_runs_instructions() {
    let instrs = vec![
        Instr::Literal(b"ab".to_vec()),
        Instr::AnyByte,
        Instr::ZeroOrMoreNonSlash,
    ];
    assert!(pattern_matches(b"abXsuffix", &instrs, false));
    assert!(!pattern_matches(b"abX/suffix", &instrs, false));
    assert!(!pattern_matches(b"ab", &instrs, false));
}

#[test]
fn empty_pattern_matches_empty_path() {
    let pattern = RsyncPattern::new(Vec::new()).unwrap();
    assert!(pattern.matches(b""));
    // A bare `/` normalizes to the empty path.
    assert!(pattern.matches(b"/"));
    assert!(!pattern.matches(b"x"));
    // `a/` is a directory whose name is `a`, not an empty final segment.
    assert!(!pattern.matches(b"a/"));
}
