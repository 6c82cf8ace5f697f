use copyright_check::notice::prototype_matches_practice;

#[test]
fn prototypes_and_practice() {
    const PROTOTYPE: &str = "Sonic, Tails, Knuckles, Amy, and Sticks";
    const PRACTICES: &[&str] = &[
        "Sonic, Tails, Knuckles, Amy, and Sticks",
        "Sonic, Tails,       Knuckles, Amy, and Sticks",
        "Sonic, Tails, Knuckles,\tAmy, and Sticks",
        "Sonic, Tails,\n#Knuckles, Amy, and Sticks",
        "Sonic, Tails, Knuckles,\n # Amy, and Sticks",
        "Sonic, Tails, Knuckles, Amy, and\n *  Sticks",
        "Sonic,\nTails, Knuckles, Amy, and Sticks",
        "Sonic,\n###Tails, Knuckles, Amy, and Sticks",
        "Sonic, Tails,\r###Knuckles, Amy, and Sticks",
    ];
    let mut bad = false;
    for practice in PRACTICES.iter().copied() {
        if !prototype_matches_practice(PROTOTYPE, practice) {
            println!("{:?} != {:?}", PROTOTYPE, practice);
            bad = true;
        }
    }
    if bad {
        panic!("Some prototypes that should match practice did not!");
    }
}

#[test]
fn prototypes_and_bad_practice() {
    const PROTOTYPE: &str = "Sonic, Tails, Knuckles, Amy, and Sticks";
    const PRACTICES: &[&str] = &[
        "Sonic, Tails,Knuckles, Amy, and Sticks",
        "Sonic, Tails, Knuckles,\u{2028}Amy, and Sticks",
        "Sonic, Tails, Knuckles, A my, and Sticks",
        "Sonic, Tails,\n# # Knuckles, Amy, and Sticks",
        "Sonic, Tails, Knuckles,\n / * Amy, and Sticks",
    ];
    let mut bad = false;
    for practice in PRACTICES.iter().copied() {
        if prototype_matches_practice(PROTOTYPE, practice) {
            println!("{:?} == {:?}", PROTOTYPE, practice);
            bad = true;
        }
    }
    if bad {
        panic!("Some prototypes that should not match practice did!");
    }
}

#[test]
fn exact_text_matches_itself() {
    assert!(prototype_matches_practice("abc", "abc"));
    assert!(prototype_matches_practice("", ""));
    assert!(!prototype_matches_practice("abc", "abcd"));
    assert!(!prototype_matches_practice("abcd", "abc"));
}

#[test]
fn space_needs_some_whitespace() {
    // A prototype space must stand for at least one whitespace character.
    assert!(!prototype_matches_practice("a b", "ab"));
    assert!(prototype_matches_practice("a b", "a  \t b"));
    // A run that exhausts the practice text never matches.
    assert!(!prototype_matches_practice("a ", "a "));
}

#[test]
fn comment_chars_only_after_line_break() {
    assert!(prototype_matches_practice("a b", "a\n# b"));
    assert!(!prototype_matches_practice("a b", "a #b"));
}
