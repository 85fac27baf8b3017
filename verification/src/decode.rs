//! The decoder: one line of text to a [`Record`], and a multi-line
//! document to one record per line.
//!
//! Decoding is total: any sequence of characters decodes to some
//! record.  A single left-to-right scan keeps a key buffer and a value
//! buffer; the first unescaped colon of a field switches from the key
//! to the value, a tab commits the pending field, a line terminator or
//! the end of the input commits it and stops.  An empty committed value
//! is stored as the absent marker, a committed key that is empty drops
//! the field, and a later field under the same key replaces an earlier
//! one.

use crate::record::Record;
use vstd::prelude::*;

verus! {

/// Commits a pending field: nothing if the key buffer is empty, else
/// the value, an empty value standing for the absent marker.
pub open spec fn commit(
    key: Seq<char>,
    val: Seq<char>,
    rec: Map<Seq<char>, Option<Seq<char>>>,
) -> Map<Seq<char>, Option<Seq<char>>> {
    if key.len() == 0 {
        rec
    } else {
        rec.insert(
            key,
            if val.len() == 0 {
                None
            } else {
                Some(val)
            },
        )
    }
}

/// One left-to-right scan of the remaining input.  `key` and `val` are
/// the buffers accumulated so far, `in_value` selects the buffer that
/// receives ordinary characters, and `rec` holds the fields committed
/// so far.
///
/// A backslash is handled together with the character after it: the
/// recognized targets `n`, `r`, `t` and `\` stand for the control
/// character they name, while after any other character the backslash
/// itself stays in the buffer, followed by that character unchanged.  A
/// line terminator stops the scan even directly after a backslash, and
/// a backslash at the very end of the input is dropped.
pub open spec fn scan(
    s: Seq<char>,
    key: Seq<char>,
    val: Seq<char>,
    in_value: bool,
    rec: Map<Seq<char>, Option<Seq<char>>>,
) -> Map<Seq<char>, Option<Seq<char>>>
    decreases s.len(),
{
    if s.len() == 0 {
        commit(key, val, rec)
    } else {
        let c = s[0];
        if c == '\n' || c == '\r' {
            commit(key, val, rec)
        } else if c == '\\' {
            if s.len() == 1 {
                commit(key, val, rec)
            } else {
                let d = s[1];
                if d == '\n' || d == '\r' {
                    commit(key, val, rec)
                } else {
                    let app = if d == 'n' {
                        seq!['\n']
                    } else if d == 'r' {
                        seq!['\r']
                    } else if d == 't' {
                        seq!['\t']
                    } else if d == '\\' {
                        seq!['\\']
                    } else {
                        seq!['\\', d]
                    };
                    if in_value {
                        scan(s.skip(2), key, val + app, true, rec)
                    } else {
                        scan(s.skip(2), key + app, val, false, rec)
                    }
                }
            }
        } else if c == ':' && !in_value {
            scan(s.skip(1), key, val, true, rec)
        } else if c == '\t' {
            scan(s.skip(1), Seq::empty(), Seq::empty(), false, commit(key, val, rec))
        } else if in_value {
            scan(s.skip(1), key, val.push(c), true, rec)
        } else {
            scan(s.skip(1), key.push(c), val, false, rec)
        }
    }
}

/// The mapping one line of text decodes to.
pub open spec fn parse_line_spec(s: Seq<char>) -> Map<Seq<char>, Option<Seq<char>>> {
    scan(s, Seq::empty(), Seq::empty(), false, Map::empty())
}

/// The number of characters before the first newline, or the length of
/// the whole sequence if it has none.
pub open spec fn line_end(s: Seq<char>) -> nat
    decreases s.len(),
{
    if s.len() == 0 {
        0
    } else if s[0] == '\n' {
        0
    } else {
        1 + line_end(s.skip(1))
    }
}

pub proof fn lemma_line_end(s: Seq<char>)
    ensures
        line_end(s) <= s.len(),
        forall|i: int| 0 <= i < line_end(s) ==> s[i] != '\n',
        line_end(s) < s.len() ==> s[line_end(s) as int] == '\n',
    decreases s.len(),
{
    if s.len() > 0 && s[0] != '\n' {
        lemma_line_end(s.skip(1));
        assert(forall|i: int| 0 <= i < line_end(s.skip(1)) ==> s.skip(1)[i] != '\n');
        assert forall|i: int| 0 <= i < line_end(s) implies s[i] != '\n' by {
            if i > 0 {
                assert(s.skip(1)[i - 1] == s[i]);
            }
        }
        if line_end(s) < s.len() {
            assert(s.skip(1)[line_end(s) as int - 1] == s[line_end(s) as int]);
        }
    }
}

/// The logical lines of a document: the newline character separates
/// lines, and no terminator is needed after the last one; an empty
/// document holds no line at all.
pub open spec fn split_lines(s: Seq<char>) -> Seq<Seq<char>>
    decreases s.len(),
{
    if s.len() == 0 {
        Seq::empty()
    } else {
        let e = line_end(s);
        if e >= s.len() {
            seq![s]
        } else {
            seq![s.take(e as int)] + split_lines(s.skip(e + 1 as int))
        }
    }
}

/// Decodes one line of text.  Total: every character sequence decodes
/// to some record.
pub fn parse_line(input: &str) -> (r: Record)
    ensures
        r.wf(),
        r@ == parse_line_spec(input@),
{
    let ghost s = input@;
    let n = input.unicode_len();

    // Count the field terminators first; the count sizes the record.
    let mut count: usize = 0;
    for i in 0..n
        invariant
            s == input@,
            n == s.len(),
            count <= i,
    {
        if input.get_char(i) == '\t' {
            count = count + 1;
        }
    }

    let mut line = Record::with_capacity(count);
    let mut key: Vec<char> = Vec::new();
    let mut val: Vec<char> = Vec::new();
    let mut in_value = false;
    let mut i: usize = 0;

    proof {
        assert(s.skip(0) =~= s);
    }
    loop
        invariant
            s == input@,
            n == s.len(),
            i <= n,
            line.wf(),
            scan(s.skip(i as int), key@, val@, in_value, line@) == parse_line_spec(s),
        ensures
            line.wf(),
            commit(key@, val@, line@) == parse_line_spec(s),
        decreases n - i,
    {
        if i == n {
            assert(s.skip(i as int) =~= Seq::<char>::empty());
            break ;
        }
        let c = input.get_char(i);
        proof {
            assert(s.skip(i as int)[0] == s[i as int]);
            assert(s.skip(i as int).len() == n - i);
        }
        if c == '\n' || c == '\r' {
            break ;
        } else if c == '\\' {
            if i + 1 == n {
                proof {
                    assert(s.skip(i as int).len() == 1);
                }
                break ;
            }
            let d = input.get_char(i + 1);
            proof {
                assert(s.skip(i as int)[1] == s[i + 1]);
                assert(s.skip(i as int).skip(2) =~= s.skip(i + 2));
            }
            if d == '\n' || d == '\r' {
                break ;
            }
            let ghost key0 = key@;
            let ghost val0 = val@;
            let recognized = d == 'n' || d == 'r' || d == 't' || d == '\\';
            let unescaped: char = if d == 'n' {
                '\n'
            } else if d == 'r' {
                '\r'
            } else if d == 't' {
                '\t'
            } else if d == '\\' {
                '\\'
            } else {
                d
            };
            if in_value {
                if !recognized {
                    val.push('\\');
                }
                val.push(unescaped);
            } else {
                if !recognized {
                    key.push('\\');
                }
                key.push(unescaped);
            }
            proof {
                let app: Seq<char> = if d == 'n' {
                    seq!['\n']
                } else if d == 'r' {
                    seq!['\r']
                } else if d == 't' {
                    seq!['\t']
                } else if d == '\\' {
                    seq!['\\']
                } else {
                    seq!['\\', d]
                };
                if in_value {
                    assert(val@ =~= val0 + app);
                    assert(key@ == key0);
                } else {
                    assert(key@ =~= key0 + app);
                    assert(val@ == val0);
                }
            }
            i = i + 2;
        } else if c == ':' && !in_value {
            proof {
                assert(s.skip(i as int).skip(1) =~= s.skip(i + 1));
            }
            in_value = true;
            i = i + 1;
        } else if c == '\t' {
            proof {
                assert(s.skip(i as int).skip(1) =~= s.skip(i + 1));
            }
            let key_str = crate::text::string_of_chars(&key);
            let val_str = crate::text::string_of_chars(&val);
            if key.len() > 0 {
                line.insert(key_str.as_str(), val_str.as_str());
            }
            key.clear();
            val.clear();
            in_value = false;
            i = i + 1;
        } else {
            proof {
                assert(s.skip(i as int).skip(1) =~= s.skip(i + 1));
            }
            if in_value {
                val.push(c);
            } else {
                key.push(c);
            }
            i = i + 1;
        }
    }

    // End of scan: commit the pending field.
    let key_str = crate::text::string_of_chars(&key);
    let val_str = crate::text::string_of_chars(&val);
    if key.len() > 0 {
        line.insert(key_str.as_str(), val_str.as_str());
    }
    line
}

/// Decodes a multi-line document, one record per line, in order.
pub fn parse(input: &str) -> (r: Vec<Record>)
    ensures
        r@.len() == split_lines(input@).len(),
        forall|i: int| 0 <= i < r@.len() ==> r@[i].wf(),
        forall|i: int| 0 <= i < r@.len() ==> r@[i]@ == parse_line_spec(split_lines(input@)[i]),
{
    let ghost s = input@;
    let n = input.unicode_len();
    let mut out: Vec<Record> = Vec::new();
    let mut pos: usize = 0;

    proof {
        assert(s.skip(0) =~= s);
    }
    while pos < n
        invariant
            s == input@,
            n == s.len(),
            pos <= n,
            out@.len() + split_lines(s.skip(pos as int)).len() == split_lines(s).len(),
            forall|i: int|
                0 <= i < out@.len() ==> #[trigger] out@[i].wf() && out@[i]@ == parse_line_spec(
                    split_lines(s)[i],
                ),
            forall|i: int|
                0 <= i < split_lines(s.skip(pos as int)).len() ==> split_lines(s)[out@.len() + i]
                    == split_lines(s.skip(pos as int))[i],
        decreases n - pos,
    {
        let mut e: usize = pos;
        while e < n && input.get_char(e) != '\n'
            invariant
                s == input@,
                n == s.len(),
                pos <= e <= n,
                forall|i: int| pos <= i < e ==> s[i] != '\n',
            decreases n - e,
        {
            e = e + 1;
        }
        proof {
            let rest = s.skip(pos as int);
            lemma_line_end(rest);
            assert(forall|i: int| 0 <= i < e - pos ==> rest[i] == s[pos + i] && rest[i] != '\n');
            if e < n {
                assert(rest[e - pos] == s[e as int]);
            }
            assert(line_end(rest) == e - pos) by {
                if line_end(rest) < e - pos {
                    assert(rest[line_end(rest) as int] != '\n');
                    assert(line_end(rest) == rest.len() || rest[line_end(rest) as int] == '\n');
                }
            }
            assert(rest.take(e - pos) =~= s.subrange(pos as int, e as int));
        }
        let segment = input.substring_char(pos, e);
        let rec = parse_line(segment);
        let ghost out0 = out@;
        out.push(rec);
        let next = if e == n {
            n
        } else {
            e + 1
        };
        proof {
            let rest = s.skip(pos as int);
            let tail = s.skip(next as int);
            if e == n {
                assert(split_lines(rest) =~= seq![rest]);
                assert(rest =~= s.subrange(pos as int, e as int));
                assert(tail =~= Seq::<char>::empty());
                assert(split_lines(rest)[0] == rest);
            } else {
                assert(split_lines(rest) =~= seq![rest.take(e - pos)] + split_lines(
                    rest.skip(e - pos + 1),
                ));
                assert(rest.skip(e - pos + 1) =~= tail);
                assert(split_lines(rest)[0] == rest.take(e - pos));
                assert(forall|i: int|
                    0 <= i < split_lines(tail).len() ==> split_lines(rest)[i + 1] == split_lines(
                        tail,
                    )[i]);
            }
            assert(segment@ == split_lines(rest)[0]);
            assert(out@ =~= out0.push(rec));
            assert(split_lines(s)[out0.len() as int] == split_lines(rest)[0]);
            assert forall|i: int| 0 <= i < split_lines(tail).len() implies split_lines(s)[out@.len()
                + i] == split_lines(tail)[i] by {
                assert(split_lines(s)[out0.len() + (i + 1)] == split_lines(rest)[i + 1]);
            }
        }
        pos = next;
    }
    proof {
        assert(s.skip(n as int) =~= Seq::<char>::empty());
        assert forall|i: int| 0 <= i < out@.len() implies out@[i]@ == parse_line_spec(
            split_lines(s)[i],
        ) by {
            assert(out@[i].wf());
        }
    }
    out
}

} // verus!
