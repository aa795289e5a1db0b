use brain::Brain;

fn toks(items: &[&str]) -> Vec<String> {
    items.iter().map(|s| s.to_string()).collect()
}

#[test]
fn tokenize_hello_world() {
    assert_eq!(Brain::tokenize("Hello, World!"), toks(&["Hello", ",", " ", "World", "!"]));
}

#[test]
fn tokenize_include_line() {
    assert_eq!(
        Brain::tokenize("#include <coffee.h>"),
        toks(&["#", "include", " ", "<", "coffee", ".", "h", ">"])
    );
}

#[test]
fn tokenize_numbers() {
    assert_eq!(
        Brain::tokenize("123 + 234 = 0xCAFEBABE"),
        toks(&["123", " ", "+", " ", "234", " ", "=", " ", "0xCAFEBABE"])
    );
}

#[test]
fn tokenize_empty() {
    assert_eq!(Brain::tokenize(""), Vec::<String>::new());
}

#[test]
fn tokenize_round_trip() {
    let samples = [
        "",
        "Hello, World!",
        "#include <coffee.h>",
        "123 + 234 = 0xCAFEBABE",
        "a\nb\tc  d",
        "h\u{e9}llo \u{a1}ol\u{e9}!",
        "...!!!",
    ];
    for s in samples {
        let joined: String = Brain::tokenize(s).concat();
        assert_eq!(joined, s);
    }
}

#[test]
fn tokenize_non_ascii_starts_word_but_never_extends_one() {
    // A non-ASCII letter may begin a token but never continues one.
    assert_eq!(Brain::tokenize("\u{e9}a"), toks(&["\u{e9}a"]));
    assert_eq!(Brain::tokenize("a\u{e9}"), toks(&["a", "\u{e9}"]));
    assert_eq!(Brain::tokenize("\u{a1}a"), toks(&["\u{a1}", "a"]));
}
