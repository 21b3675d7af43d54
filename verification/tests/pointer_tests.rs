use jsonpointer_flatten::escape;
use jsonpointer_flatten::unescape;

#[test]
fn escape_spec_examples() {
    assert_eq!(escape("a/b"), "a~1b");
    assert_eq!(escape("m~n"), "m~0n");
    assert_eq!(escape(""), "");
    assert_eq!(escape(" "), " ");
    assert_eq!(escape("~/"), "~0~1");
    assert_eq!(escape("/~"), "~1~0");
}

#[test]
fn escape_does_not_recognise_escaped_shapes() {
    assert_eq!(escape("~0"), "~00");
    assert_eq!(escape("~1"), "~01");
}

#[test]
fn unescape_spec_examples() {
    assert_eq!(unescape("a~1b"), "a/b");
    assert_eq!(unescape("m~0n"), "m~n");
    assert_eq!(unescape(""), "");
    assert_eq!(unescape("~01"), "~1");
    assert_eq!(unescape("~0~1"), "~/");
}

#[test]
fn unescape_leaves_stray_tildes_alone() {
    assert_eq!(unescape("~"), "~");
    assert_eq!(unescape("~x"), "~x");
    assert_eq!(unescape("x~"), "x~");
}

#[test]
fn unescape_inverts_escape() {
    for key in ["", "~", "/", "~0", "~1", "a/b", "m~n", "~/~/", "a~0b~1c", "plain key"] {
        assert_eq!(unescape(&escape(key)), key);
    }
}
