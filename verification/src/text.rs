//! Character classes of the wire format, the escaping rules, and
//! end-of-line trimming, as spec functions with their executable
//! counterparts.

use vstd::prelude::*;

verus! {

/// The characters the wire format gives a meaning of their own: the two
/// line terminators, the field terminator, the key/value separator and
/// the escape character itself.
pub open spec fn is_special(c: char) -> bool {
    c == '\n' || c == '\r' || c == '\t' || c == ':' || c == '\\'
}

/// The Unicode white-space characters; trimming the end of an encoded
/// line removes exactly these.
pub open spec fn is_ws_char(c: char) -> bool {
    ||| c == '\u{0009}'
    ||| c == '\u{000A}'
    ||| c == '\u{000B}'
    ||| c == '\u{000C}'
    ||| c == '\u{000D}'
    ||| c == ' '
    ||| c == '\u{0085}'
    ||| c == '\u{00A0}'
    ||| c == '\u{1680}'
    ||| c == '\u{2000}'
    ||| c == '\u{2001}'
    ||| c == '\u{2002}'
    ||| c == '\u{2003}'
    ||| c == '\u{2004}'
    ||| c == '\u{2005}'
    ||| c == '\u{2006}'
    ||| c == '\u{2007}'
    ||| c == '\u{2008}'
    ||| c == '\u{2009}'
    ||| c == '\u{200A}'
    ||| c == '\u{2028}'
    ||| c == '\u{2029}'
    ||| c == '\u{202F}'
    ||| c == '\u{205F}'
    ||| c == '\u{3000}'
}

/// Decides [`is_ws_char`].
pub fn whitespace_char(c: char) -> (r: bool)
    ensures
        r == is_ws_char(c),
{
    c == '\u{0009}' || c == '\u{000A}' || c == '\u{000B}' || c == '\u{000C}' || c == '\u{000D}'
        || c == ' ' || c == '\u{0085}' || c == '\u{00A0}' || c == '\u{1680}'
        || (c >= '\u{2000}' && c <= '\u{200A}') || c == '\u{2028}' || c == '\u{2029}'
        || c == '\u{202F}' || c == '\u{205F}' || c == '\u{3000}'
}

/// What one character contributes to an escaped key or value.
pub open spec fn escape_char(c: char) -> Seq<char> {
    if c == '\r' {
        seq!['\\', 'r']
    } else if c == '\n' {
        seq!['\\', 'n']
    } else if c == '\t' {
        seq!['\\', 't']
    } else if c == ':' {
        seq!['\\', ':']
    } else if c == '\\' {
        seq!['\\', '\\']
    } else {
        seq![c]
    }
}

/// The escaped form of a whole key or value.
pub open spec fn escape_seq(s: Seq<char>) -> Seq<char>
    decreases s.len(),
{
    if s.len() == 0 {
        Seq::empty()
    } else {
        escape_seq(s.drop_last()) + escape_char(s.last())
    }
}

/// Escaping can also be unfolded at the front.
pub proof fn lemma_escape_seq_first(s: Seq<char>)
    requires
        s.len() > 0,
    ensures
        escape_seq(s) == escape_char(s[0]) + escape_seq(s.skip(1)),
    decreases s.len(),
{
    if s.len() == 1 {
        assert(s.drop_last() =~= Seq::<char>::empty());
        assert(s.skip(1) =~= Seq::<char>::empty());
        assert(escape_char(s[0]) + escape_seq(s.skip(1)) =~= escape_char(s.last()));
    } else {
        lemma_escape_seq_first(s.drop_last());
        assert(s.drop_last()[0] == s[0]);
        assert(s.drop_last().skip(1) =~= s.skip(1).drop_last());
        assert(s.skip(1).last() == s.last());
        assert(escape_char(s[0]) + escape_seq(s.skip(1)) =~= escape_char(s[0]) + (escape_seq(
            s.skip(1).drop_last(),
        ) + escape_char(s.last())));
        assert(escape_seq(s) =~= (escape_char(s[0]) + escape_seq(s.drop_last().skip(1)))
            + escape_char(s.last()));
    }
}

/// Appends the escaped form of `s` to `out`.
pub fn escape_into(out: &mut Vec<char>, s: &str)
    ensures
        final(out)@ == old(out)@ + escape_seq(s@),
{
    let n = s.unicode_len();
    assert(s@.take(0) =~= Seq::<char>::empty());
    assert(out@ =~= out@ + escape_seq(s@.take(0)));
    for i in 0..n
        invariant
            n == s@.len(),
            out@ == old(out)@ + escape_seq(s@.take(i as int)),
    {
        let c = s.get_char(i);
        if c == '\r' {
            out.push('\\');
            out.push('r');
        } else if c == '\n' {
            out.push('\\');
            out.push('n');
        } else if c == '\t' {
            out.push('\\');
            out.push('t');
        } else if c == ':' {
            out.push('\\');
            out.push(':');
        } else if c == '\\' {
            out.push('\\');
            out.push('\\');
        } else {
            out.push(c);
        }
        proof {
            assert(s@.take(i + 1).drop_last() =~= s@.take(i as int));
            assert(s@.take(i + 1).last() == s@[i as int]);
            assert(out@ =~= old(out)@ + (escape_seq(s@.take(i as int)) + escape_char(s@[i as int])));
        }
    }
    assert(s@.take(n as int) =~= s@);
}

/// What one character of a key or value comes back as after an encode
/// and a decode: the recognized escapes cancel out, while the escaped
/// colon keeps its backslash, the colon not being a recognized escape
/// target on the way back.
pub open spec fn reescape_char(c: char) -> Seq<char> {
    if c == ':' {
        seq!['\\', ':']
    } else {
        seq![c]
    }
}

/// What a whole key or value comes back as after an encode and a decode.
pub open spec fn reescape(s: Seq<char>) -> Seq<char>
    decreases s.len(),
{
    if s.len() == 0 {
        Seq::empty()
    } else {
        reescape(s.drop_last()) + reescape_char(s.last())
    }
}

/// Reescaping can also be unfolded at the front.
pub proof fn lemma_reescape_first(s: Seq<char>)
    requires
        s.len() > 0,
    ensures
        reescape(s) == reescape_char(s[0]) + reescape(s.skip(1)),
    decreases s.len(),
{
    if s.len() == 1 {
        assert(s.drop_last() =~= Seq::<char>::empty());
        assert(s.skip(1) =~= Seq::<char>::empty());
        assert(reescape_char(s[0]) + reescape(s.skip(1)) =~= reescape_char(s.last()));
    } else {
        lemma_reescape_first(s.drop_last());
        assert(s.drop_last()[0] == s[0]);
        assert(s.drop_last().skip(1) =~= s.skip(1).drop_last());
        assert(s.skip(1).last() == s.last());
        assert(reescape_char(s[0]) + reescape(s.skip(1)) =~= reescape_char(s[0]) + (reescape(
            s.skip(1).drop_last(),
        ) + reescape_char(s.last())));
        assert(reescape(s) =~= (reescape_char(s[0]) + reescape(s.drop_last().skip(1)))
            + reescape_char(s.last()));
    }
}

/// A sequence without a colon comes back unchanged.
pub proof fn lemma_reescape_identity(s: Seq<char>)
    requires
        forall|i: int| 0 <= i < s.len() ==> s[i] != ':',
    ensures
        reescape(s) == s,
    decreases s.len(),
{
    if s.len() == 0 {
        assert(reescape(s) =~= s);
    } else {
        lemma_reescape_identity(s.drop_last());
        assert(reescape(s) =~= s.drop_last() + seq![s.last()]);
        assert(s.drop_last() + seq![s.last()] =~= s);
    }
}

/// Reescaping keeps a sequence non-empty and never empties one.
pub proof fn lemma_reescape_len(s: Seq<char>)
    ensures
        reescape(s).len() >= s.len(),
        reescape(s).len() == 0 <==> s.len() == 0,
    decreases s.len(),
{
    if s.len() > 0 {
        lemma_reescape_len(s.drop_last());
    }
}

/// A line with its trailing white space removed.
pub open spec fn trim_ws_end(s: Seq<char>) -> Seq<char>
    decreases s.len(),
{
    if s.len() > 0 && is_ws_char(s.last()) {
        trim_ws_end(s.drop_last())
    } else {
        s
    }
}

/// Removes trailing white space in place.
pub fn trim_end(out: &mut Vec<char>)
    ensures
        final(out)@ == trim_ws_end(old(out)@),
{
    loop
        invariant
            trim_ws_end(out@) == trim_ws_end(old(out)@),
        decreases out.len(),
    {
        if out.len() == 0 {
            return ;
        }
        let c = out[out.len() - 1];
        assert(c == out@.last());
        if !whitespace_char(c) {
            return ;
        }
        let _popped = out.pop();
    }
}

/// Relies on `String`'s `FromIterator<char>` implementation: collecting
/// characters yields the string of exactly those characters in order.
#[verifier::external_body]
pub(crate) fn string_of_chars(v: &Vec<char>) -> (s: String)
    ensures
        s@ == v@,
{
    v.iter().collect()
}

/// Compares two string slices character by character.
pub fn str_eq(a: &str, b: &str) -> (r: bool)
    ensures
        r == (a@ == b@),
{
    let na = a.unicode_len();
    let nb = b.unicode_len();
    if na != nb {
        assert(a@ != b@);
        return false;
    }
    for i in 0..na
        invariant
            na == a@.len(),
            na == b@.len(),
            forall|j: int| 0 <= j < i ==> a@[j] == b@[j],
    {
        if a.get_char(i) != b.get_char(i) {
            return false;
        }
    }
    proof {
        assert(a@ =~= b@);
    }
    true
}

} // verus!
