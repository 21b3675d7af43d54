//! RFC 6901 escaping of pointer tokens, and its inverse.

use vstd::prelude::*;

verus! {

/// The escaped form of one character of an object member name:
/// `~` becomes `~0`, `/` becomes `~1`, every other character stands as
/// itself.
pub open spec fn escape_char(c: char) -> Seq<char> {
    if c == '~' {
        seq!['~', '0']
    } else if c == '/' {
        seq!['~', '1']
    } else {
        seq![c]
    }
}

/// RFC 6901 escaping of an object member name: each `~` of the input is
/// replaced by `~0` and each `/` by `~1`; nothing else changes. A name
/// that already looks escaped (it contains `~0` or `~1`) is not special:
/// its `~` is escaped again.
pub open spec fn escape_seq(s: Seq<char>) -> Seq<char>
    decreases s.len(),
{
    if s.len() == 0 {
        Seq::empty()
    } else {
        escape_char(s[0]) + escape_seq(s.skip(1))
    }
}

/// The inverse reading of an escaped pointer token: `~1` turns back into
/// `/` and `~0` into `~`, scanning left to right, each `~` consumed by at
/// most one replacement. A lone `~`, or `~` followed by anything but `0`
/// or `1`, stands as itself.
pub open spec fn unescape_seq(s: Seq<char>) -> Seq<char>
    decreases s.len(),
{
    if s.len() == 0 {
        Seq::empty()
    } else if s.len() >= 2 && s[0] == '~' && s[1] == '1' {
        seq!['/'] + unescape_seq(s.skip(2))
    } else if s.len() >= 2 && s[0] == '~' && s[1] == '0' {
        seq!['~'] + unescape_seq(s.skip(2))
    } else {
        seq![s[0]] + unescape_seq(s.skip(1))
    }
}

/// Relies on std's `String::push`: it appends exactly the given character.
#[verifier::external_body]
pub(crate) fn push_char(s: &mut String, c: char)
    ensures
        final(s)@ == old(s)@.push(c),
{
    s.push(c)
}

/// Escaping distributes over appending one character at the end.
proof fn lemma_escape_snoc(s: Seq<char>, c: char)
    ensures
        escape_seq(s.push(c)) == escape_seq(s) + escape_char(c),
    decreases s.len(),
{
    if s.len() == 0 {
        assert(s.push(c)[0] == c);
        assert(s.push(c).skip(1) =~= Seq::<char>::empty());
        assert(escape_char(c) + escape_seq(Seq::empty()) =~= escape_char(c));
        assert(escape_seq(s) + escape_char(c) =~= escape_char(c));
    } else {
        lemma_escape_snoc(s.skip(1), c);
        assert(s.push(c)[0] == s[0]);
        assert(s.push(c).skip(1) =~= s.skip(1).push(c));
        assert(escape_char(s[0]) + (escape_seq(s.skip(1)) + escape_char(c)) =~= (escape_char(
            s[0],
        ) + escape_seq(s.skip(1))) + escape_char(c));
    }
}

/// Escape an object member name for use inside a JSON Pointer: `~` is
/// replaced by `~0` and then `/` by `~1`, over the whole string. Total for
/// every input, including the empty string and strings that already hold
/// literal `~0`/`~1` sequences (those are escaped again, not recognised).
pub fn escape(value: &str) -> (r: String)
    ensures
        r@ == escape_seq(value@),
{
    let n = value.unicode_len();
    let mut out = String::new();
    let mut i: usize = 0;
    while i < n
        invariant
            i <= n,
            n == value@.len(),
            out@ == escape_seq(value@.take(i as int)),
        decreases n - i,
    {
        let c = value.get_char(i);
        if c == '~' {
            push_char(&mut out, '~');
            push_char(&mut out, '0');
        } else if c == '/' {
            push_char(&mut out, '~');
            push_char(&mut out, '1');
        } else {
            push_char(&mut out, c);
        }
        proof {
            lemma_escape_snoc(value@.take(i as int), c);
            assert(value@.take(i as int + 1) =~= value@.take(i as int).push(c));
            assert(out@ =~= escape_seq(value@.take(i as int)) + escape_char(c));
        }
        i = i + 1;
    }
    proof {
        assert(value@.take(n as int) =~= value@);
    }
    out
}

/// Undo RFC 6901 escaping of a pointer token: `~1` is replaced by `/` and
/// then `~0` by `~`, over the whole string — the exact reverse of
/// [`escape`]'s encoding order. Total for every input; sequences that are
/// no valid escape (a trailing `~`, or `~x`) pass through unchanged.
pub fn unescape(value: &str) -> (r: String)
    ensures
        r@ == unescape_seq(value@),
{
    let n = value.unicode_len();
    let mut out = String::new();
    let mut i: usize = 0;
    proof {
        assert(value@.skip(0) =~= value@);
        assert(out@ + unescape_seq(value@) =~= unescape_seq(value@));
    }
    while i < n
        invariant
            i <= n,
            n == value@.len(),
            unescape_seq(value@) == out@ + unescape_seq(value@.skip(i as int)),
        decreases n - i,
    {
        let ghost sfx = value@.skip(i as int);
        let ghost prev = out@;
        proof {
            assert(sfx[0] == value@[i as int]);
        }
        let c = value.get_char(i);
        if c == '~' && i + 1 < n {
            let d = value.get_char(i + 1);
            proof {
                assert(sfx[1] == value@[i as int + 1]);
            }
            if d == '1' {
                push_char(&mut out, '/');
                proof {
                    assert(sfx.skip(2) =~= value@.skip(i as int + 2));
                    assert(out@ + unescape_seq(value@.skip(i as int + 2)) =~= prev + unescape_seq(
                        sfx,
                    ));
                }
                i = i + 2;
            } else if d == '0' {
                push_char(&mut out, '~');
                proof {
                    assert(sfx.skip(2) =~= value@.skip(i as int + 2));
                    assert(out@ + unescape_seq(value@.skip(i as int + 2)) =~= prev + unescape_seq(
                        sfx,
                    ));
                }
                i = i + 2;
            } else {
                push_char(&mut out, c);
                proof {
                    assert(sfx.skip(1) =~= value@.skip(i as int + 1));
                    assert(out@ + unescape_seq(value@.skip(i as int + 1)) =~= prev + unescape_seq(
                        sfx,
                    ));
                }
                i = i + 1;
            }
        } else {
            push_char(&mut out, c);
            proof {
                assert(sfx.skip(1) =~= value@.skip(i as int + 1));
                assert(out@ + unescape_seq(value@.skip(i as int + 1)) =~= prev + unescape_seq(sfx));
            }
            i = i + 1;
        }
    }
    proof {
        assert(value@.skip(n as int) =~= Seq::<char>::empty());
        assert(out@ + unescape_seq(Seq::<char>::empty()) =~= out@);
    }
    out
}

/// Decoding inverts encoding: for every member name `k`, unescaping the
/// escaped form of `k` gives back exactly `k`.
pub proof fn lemma_unescape_escape(k: Seq<char>)
    ensures
        unescape_seq(escape_seq(k)) == k,
    decreases k.len(),
{
    if k.len() == 0 {
        assert(unescape_seq(escape_seq(k)) =~= k);
    } else {
        lemma_unescape_escape(k.skip(1));
        let c = k[0];
        let e = escape_seq(k);
        let rest = escape_seq(k.skip(1));
        if c == '~' {
            assert(e =~= seq!['~', '0'] + rest);
            assert(e.skip(2) =~= rest);
            assert(unescape_seq(e) =~= seq!['~'] + k.skip(1));
            assert(seq!['~'] + k.skip(1) =~= k);
        } else if c == '/' {
            assert(e =~= seq!['~', '1'] + rest);
            assert(e.skip(2) =~= rest);
            assert(unescape_seq(e) =~= seq!['/'] + k.skip(1));
            assert(seq!['/'] + k.skip(1) =~= k);
        } else {
            assert(e =~= seq![c] + rest);
            assert(e.skip(1) =~= rest);
            assert(unescape_seq(e) =~= seq![c] + k.skip(1));
            assert(seq![c] + k.skip(1) =~= k);
        }
    }
}

/// The escaped form of a member name never contains `/`: that is what
/// makes a pointer's segment boundaries unambiguous.
pub proof fn lemma_escape_no_slash(k: Seq<char>)
    ensures
        forall|i: int| 0 <= i < escape_seq(k).len() ==> escape_seq(k)[i] != '/',
    decreases k.len(),
{
    if k.len() == 0 {
    } else {
        lemma_escape_no_slash(k.skip(1));
        assert forall|i: int| 0 <= i < escape_seq(k).len() implies escape_seq(k)[i] != '/' by {
            if i < escape_char(k[0]).len() {
                assert(escape_seq(k)[i] == escape_char(k[0])[i]);
            } else {
                assert(escape_seq(k)[i] == escape_seq(k.skip(1))[i - escape_char(k[0]).len()]);
            }
        }
    }
}

} // verus!
