//! The laws that tie the encoder and the decoder together: a line
//! assembled by the encoder decodes back to the mapping it came from,
//! and an escaped special character comes back exactly once.
//!
//! The statements speak of the same spec functions the two sides'
//! contracts use: [`body_of`] and [`trim_ws_end`] describe what
//! [`crate::encode::DumpArgument::dump`] returns, and
//! [`parse_line_spec`] what [`crate::decode::parse_line`] yields.

use crate::decode::{parse_line_spec, scan};
use crate::encode::{body_of, segment_of};
use crate::text::{
    escape_char, escape_seq, is_special, is_ws_char, lemma_escape_seq_first, lemma_reescape_first,
    lemma_reescape_identity, lemma_reescape_len, reescape, reescape_char, trim_ws_end,
};
use vstd::prelude::*;

verus! {

/// How often a character occurs in a sequence.
pub open spec fn count_char(s: Seq<char>, c: char) -> nat
    decreases s.len(),
{
    if s.len() == 0 {
        0
    } else {
        count_char(s.drop_last(), c) + (if s.last() == c {
            1nat
        } else {
            0nat
        })
    }
}

pub proof fn lemma_count_concat(a: Seq<char>, b: Seq<char>, c: char)
    ensures
        count_char(a + b, c) == count_char(a, c) + count_char(b, c),
    decreases b.len(),
{
    if b.len() == 0 {
        assert(a + b =~= a);
    } else {
        lemma_count_concat(a, b.drop_last(), c);
        assert((a + b).drop_last() =~= a + b.drop_last());
        assert((a + b).last() == b.last());
    }
}

pub proof fn lemma_count_zero(s: Seq<char>, c: char)
    ensures
        (count_char(s, c) == 0) <==> !s.contains(c),
    decreases s.len(),
{
    if s.len() > 0 {
        lemma_count_zero(s.drop_last(), c);
        if s.contains(c) {
            let i = choose|i: int| 0 <= i < s.len() && s[i] == c;
            if i < s.len() - 1 {
                assert(s.drop_last()[i] == c);
                assert(s.drop_last().contains(c));
            }
        }
        if s.drop_last().contains(c) {
            let i = choose|i: int| 0 <= i < s.drop_last().len() && s.drop_last()[i] == c;
            assert(s[i] == c);
        }
    }
}

/// What an encode-then-decode pass does to the occurrence counts of
/// the special characters: every count is kept, except that each colon
/// puts one more backslash into the text.
pub proof fn lemma_count_reescape(v: Seq<char>, c: char)
    ensures
        c != '\\' ==> count_char(reescape(v), c) == count_char(v, c),
        c == '\\' ==> count_char(reescape(v), c) == count_char(v, c) + count_char(v, ':'),
    decreases v.len(),
{
    if v.len() == 0 {
        assert(reescape(v) =~= Seq::<char>::empty());
    } else {
        lemma_count_reescape(v.drop_last(), c);
        lemma_count_concat(reescape(v.drop_last()), reescape_char(v.last()), c);
        let rc = reescape_char(v.last());
        assert(reescape(v) == reescape(v.drop_last()) + rc);
        assert(count_char(reescape(v), c) == count_char(reescape(v.drop_last()), c) + count_char(
            rc,
            c,
        ));
        if v.last() == ':' {
            assert(rc =~= seq!['\\', ':']);
            assert(rc.drop_last() =~= seq!['\\']);
            assert(seq!['\\'].drop_last() =~= Seq::<char>::empty());
            assert(count_char(Seq::<char>::empty(), c) == 0);
            assert(count_char(seq!['\\'], c) == (if c == '\\' {
                1nat
            } else {
                0nat
            }));
            assert(seq!['\\'].last() == '\\');
            assert(rc.last() == ':');
            assert(count_char(rc, c) == count_char(seq!['\\'], c) + (if c == ':' {
                1nat
            } else {
                0nat
            }));
        } else {
            assert(rc =~= seq![v.last()]);
            assert(rc.drop_last() =~= Seq::<char>::empty());
            assert(count_char(Seq::<char>::empty(), c) == 0);
            assert(rc.last() == v.last());
            assert(count_char(rc, c) == (if v.last() == c {
                1nat
            } else {
                0nat
            }));
        }
        assert(count_char(v, c) == count_char(v.drop_last(), c) + (if v.last() == c {
            1nat
        } else {
            0nat
        }));
    }
}

/// A decoded value: a non-empty committed text, or the absent marker
/// where the committed text is empty.
pub open spec fn entry_value(v: Seq<char>) -> Option<Seq<char>> {
    if v.len() == 0 {
        None
    } else {
        Some(v)
    }
}

/// The fields a decode of an assembled line commits, applied to `rec`
/// in entry order: each key and value as it comes back out of the
/// escaping, an empty value as the absent marker.
pub open spec fn insert_all(
    rp: Seq<(Seq<char>, Seq<char>)>,
    rec: Map<Seq<char>, Option<Seq<char>>>,
) -> Map<Seq<char>, Option<Seq<char>>>
    decreases rp.len(),
{
    if rp.len() == 0 {
        rec
    } else {
        insert_all(rp.skip(1), rec.insert(reescape(rp[0].0), entry_value(reescape(rp[0].1))))
    }
}

/// The mapping a list of key/value texts stands for, a later entry
/// overriding an earlier one under the same key, an empty value
/// standing for the absent marker.
pub open spec fn map_of_pairs(rp: Seq<(Seq<char>, Seq<char>)>) -> Map<Seq<char>, Option<Seq<char>>>
    decreases rp.len(),
{
    if rp.len() == 0 {
        Map::empty()
    } else {
        map_of_pairs(rp.drop_last()).insert(rp.last().0, entry_value(rp.last().1))
    }
}

pub proof fn lemma_body_first(rp: Seq<(Seq<char>, Seq<char>)>)
    requires
        rp.len() > 0,
    ensures
        body_of(rp) == segment_of(rp[0]) + body_of(rp.skip(1)),
    decreases rp.len(),
{
    if rp.len() == 1 {
        assert(rp.drop_last() =~= Seq::<(Seq<char>, Seq<char>)>::empty());
        assert(rp.skip(1) =~= Seq::<(Seq<char>, Seq<char>)>::empty());
        assert(segment_of(rp[0]) + body_of(rp.skip(1)) =~= segment_of(rp.last()));
    } else {
        lemma_body_first(rp.drop_last());
        assert(rp.drop_last()[0] == rp[0]);
        assert(rp.drop_last().skip(1) =~= rp.skip(1).drop_last());
        assert(rp.skip(1).last() == rp.last());
        assert(segment_of(rp[0]) + body_of(rp.skip(1)) =~= segment_of(rp[0]) + (body_of(
            rp.skip(1).drop_last(),
        ) + segment_of(rp.last())));
        assert(body_of(rp) =~= (segment_of(rp[0]) + body_of(rp.drop_last().skip(1))) + segment_of(
            rp.last(),
        ));
    }
}

pub proof fn lemma_insert_all_push(
    rp: Seq<(Seq<char>, Seq<char>)>,
    p: (Seq<char>, Seq<char>),
    rec: Map<Seq<char>, Option<Seq<char>>>,
)
    ensures
        insert_all(rp.push(p), rec) == insert_all(rp, rec).insert(
            reescape(p.0),
            entry_value(reescape(p.1)),
        ),
    decreases rp.len(),
{
    if rp.len() == 0 {
        assert(rp.push(p)[0] == p);
        assert(rp.push(p).skip(1) =~= Seq::<(Seq<char>, Seq<char>)>::empty());
        let rec1 = rec.insert(reescape(p.0), entry_value(reescape(p.1)));
        assert(insert_all(rp.push(p), rec) == insert_all(rp.push(p).skip(1), rec1));
        assert(insert_all(rp.push(p).skip(1), rec1) == rec1);
        assert(insert_all(rp, rec) == rec);
    } else {
        assert(rp.push(p)[0] == rp[0]);
        assert(rp.push(p).skip(1) =~= rp.skip(1).push(p));
        let rec1 = rec.insert(reescape(rp[0].0), entry_value(reescape(rp[0].1)));
        lemma_insert_all_push(rp.skip(1), p, rec1);
        assert(insert_all(rp.push(p), rec) == insert_all(rp.skip(1).push(p), rec1));
        assert(insert_all(rp, rec) == insert_all(rp.skip(1), rec1));
    }
}

/// The scan of an escaped text appends exactly its reescaped form to
/// the active buffer and consumes nothing further.
pub proof fn lemma_scan_escaped(
    v: Seq<char>,
    rest: Seq<char>,
    key: Seq<char>,
    val: Seq<char>,
    in_value: bool,
    rec: Map<Seq<char>, Option<Seq<char>>>,
)
    ensures
        scan(escape_seq(v) + rest, key, val, in_value, rec) == (if in_value {
            scan(rest, key, val + reescape(v), true, rec)
        } else {
            scan(rest, key + reescape(v), val, false, rec)
        }),
    decreases v.len(),
{
    if v.len() == 0 {
        assert(escape_seq(v) + rest =~= rest);
        assert(val + reescape(v) =~= val);
        assert(key + reescape(v) =~= key);
    } else {
        let c = v[0];
        let tail = v.skip(1);
        lemma_escape_seq_first(v);
        lemma_reescape_first(v);
        let e1 = escape_char(c);
        let s = escape_seq(v) + rest;
        assert(s =~= e1 + (escape_seq(tail) + rest));
        if c == '\r' || c == '\n' || c == '\t' || c == ':' || c == '\\' {
            assert(e1.len() == 2 && e1[0] == '\\');
            assert(s[0] == '\\');
            assert(s.len() >= 2);
            assert(s[1] == e1[1]);
            assert(s.skip(2) =~= escape_seq(tail) + rest);
            let app: Seq<char> = if e1[1] == 'n' {
                seq!['\n']
            } else if e1[1] == 'r' {
                seq!['\r']
            } else if e1[1] == 't' {
                seq!['\t']
            } else if e1[1] == '\\' {
                seq!['\\']
            } else {
                seq!['\\', e1[1]]
            };
            assert(app =~= reescape_char(c));
            if in_value {
                lemma_scan_escaped(tail, rest, key, val + app, true, rec);
                assert((val + app) + reescape(tail) =~= val + reescape(v));
            } else {
                lemma_scan_escaped(tail, rest, key + app, val, false, rec);
                assert((key + app) + reescape(tail) =~= key + reescape(v));
            }
        } else {
            assert(e1 =~= seq![c]);
            assert(s[0] == c);
            assert(s.skip(1) =~= escape_seq(tail) + rest);
            assert(reescape_char(c) =~= seq![c]);
            if in_value {
                lemma_scan_escaped(tail, rest, key, val.push(c), true, rec);
                assert(val.push(c) + reescape(tail) =~= val + reescape(v));
            } else {
                lemma_scan_escaped(tail, rest, key.push(c), val, false, rec);
                assert(key.push(c) + reescape(tail) =~= key + reescape(v));
            }
        }
    }
}

/// The scan of assembled fields commits exactly those fields and then
/// goes on with the rest of the line.
pub proof fn lemma_scan_body_rest(
    rp: Seq<(Seq<char>, Seq<char>)>,
    rest: Seq<char>,
    rec: Map<Seq<char>, Option<Seq<char>>>,
)
    requires
        forall|i: int| 0 <= i < rp.len() ==> (#[trigger] rp[i]).0.len() > 0,
    ensures
        scan(body_of(rp) + rest, Seq::empty(), Seq::empty(), false, rec) == scan(
            rest,
            Seq::empty(),
            Seq::empty(),
            false,
            insert_all(rp, rec),
        ),
    decreases rp.len(),
{
    if rp.len() == 0 {
        assert(body_of(rp) + rest =~= rest);
    } else {
        let k = rp[0].0;
        let v = rp[0].1;
        lemma_body_first(rp);
        let tailb = body_of(rp.skip(1));
        let rest_t = seq!['\t'] + (tailb + rest);
        let rest_v = escape_seq(v) + rest_t;
        let rest_k = seq![':'] + rest_v;
        assert(body_of(rp) + rest =~= escape_seq(k) + rest_k);
        lemma_scan_escaped(k, rest_k, Seq::empty(), Seq::empty(), false, rec);
        assert(Seq::empty() + reescape(k) =~= reescape(k));
        assert(rest_k[0] == ':');
        assert(rest_k.skip(1) =~= rest_v);
        lemma_scan_escaped(v, rest_t, reescape(k), Seq::empty(), true, rec);
        assert(Seq::empty() + reescape(v) =~= reescape(v));
        assert(rest_t[0] == '\t');
        assert(rest_t.skip(1) =~= tailb + rest);
        lemma_reescape_len(k);
        let rec1 = rec.insert(reescape(k), entry_value(reescape(v)));
        lemma_reescape_len(v);
        assert(scan(rest_t, reescape(k), reescape(v), true, rec) == scan(
            tailb + rest,
            Seq::empty(),
            Seq::empty(),
            false,
            rec1,
        ));
        assert(forall|i: int| 0 <= i < rp.skip(1).len() ==> rp.skip(1)[i] == rp[i + 1]);
        lemma_scan_body_rest(rp.skip(1), rest, rec1);
        assert(insert_all(rp, rec) == insert_all(rp.skip(1), rec1));
    }
}

/// The escaped value's last character survives end trimming: it is
/// either the escape of a special character or, by assumption, no
/// white space.
pub open spec fn trim_stable(v: Seq<char>) -> bool {
    v.len() == 0 || is_special(v.last()) || !is_ws_char(v.last())
}

/// Trimming the assembled line removes exactly the final tab.
pub proof fn lemma_trim_line(rp: Seq<(Seq<char>, Seq<char>)>)
    requires
        rp.len() > 0,
        trim_stable(rp.last().1),
    ensures
        trim_ws_end(body_of(rp)) == body_of(rp.drop_last()) + (escape_seq(rp.last().0)
            + seq![':'] + escape_seq(rp.last().1)),
{
    let a = body_of(rp.drop_last());
    let k = rp.last().0;
    let v = rp.last().1;
    let core = escape_seq(k) + seq![':'] + escape_seq(v);
    assert(body_of(rp) =~= (a + core).push('\t'));
    assert(body_of(rp).last() == '\t');
    assert(body_of(rp).drop_last() =~= a + core);
    if v.len() == 0 {
        assert(escape_seq(v) =~= Seq::<char>::empty());
        assert((a + core).last() == ':');
        assert(!is_ws_char((a + core).last()));
    } else {
        assert(escape_char(v.last()).len() >= 1);
        assert(escape_seq(v).last() == escape_char(v.last()).last());
        assert(!is_ws_char(escape_char(v.last()).last()));
        assert((a + core).last() == escape_seq(v).last());
    }
    assert((a + core).len() > 0);
    assert(trim_ws_end(a + core) == a + core);
    assert(trim_ws_end(body_of(rp)) == trim_ws_end(a + core));
}

/// Decoding an assembled, trimmed line commits exactly the assembled
/// fields, in order, through the escaping and back.
pub proof fn lemma_encode_decode(rp: Seq<(Seq<char>, Seq<char>)>)
    requires
        forall|i: int| 0 <= i < rp.len() ==> (#[trigger] rp[i]).0.len() > 0,
        rp.len() > 0 ==> trim_stable(rp.last().1),
    ensures
        parse_line_spec(trim_ws_end(body_of(rp))) == insert_all(rp, Map::empty()),
{
    if rp.len() == 0 {
        assert(body_of(rp) =~= Seq::<char>::empty());
        assert(trim_ws_end(body_of(rp)) == body_of(rp));
    } else {
        lemma_trim_line(rp);
        let a = body_of(rp.drop_last());
        let k = rp.last().0;
        let v = rp.last().1;
        let core = escape_seq(k) + seq![':'] + escape_seq(v);
        let core_rest = seq![':'] + escape_seq(v);
        assert(forall|i: int| 0 <= i < rp.drop_last().len() ==> rp.drop_last()[i] == rp[i]);
        lemma_scan_body_rest(rp.drop_last(), core, Map::empty());
        let rec1 = insert_all(rp.drop_last(), Map::empty());
        assert(core =~= escape_seq(k) + core_rest);
        lemma_scan_escaped(k, core_rest, Seq::empty(), Seq::empty(), false, rec1);
        assert(Seq::empty() + reescape(k) =~= reescape(k));
        assert(core_rest[0] == ':');
        assert(core_rest.skip(1) =~= escape_seq(v));
        assert(escape_seq(v) =~= escape_seq(v) + Seq::<char>::empty());
        lemma_scan_escaped(v, Seq::empty(), reescape(k), Seq::empty(), true, rec1);
        assert(Seq::empty() + reescape(v) =~= reescape(v));
        lemma_reescape_len(k);
        lemma_reescape_len(v);
        assert(scan(Seq::empty(), reescape(k), reescape(v), true, rec1) == rec1.insert(
            reescape(k),
            entry_value(reescape(v)),
        ));
        assert(rp.drop_last().push(rp.last()) =~= rp);
        lemma_insert_all_push(rp.drop_last(), rp.last(), Map::empty());
        assert(trim_ws_end(body_of(rp)) == a + core);
    }
}

/// With no colon anywhere, what comes back is what went in.
pub proof fn lemma_insert_all_plain(rp: Seq<(Seq<char>, Seq<char>)>)
    requires
        forall|i: int|
            0 <= i < rp.len() ==> !(#[trigger] rp[i]).0.contains(':') && !rp[i].1.contains(':'),
    ensures
        insert_all(rp, Map::empty()) == map_of_pairs(rp),
    decreases rp.len(),
{
    if rp.len() > 0 {
        assert(forall|i: int| 0 <= i < rp.drop_last().len() ==> rp.drop_last()[i] == rp[i]);
        lemma_insert_all_plain(rp.drop_last());
        lemma_insert_all_push(rp.drop_last(), rp.last(), Map::empty());
        assert(rp.drop_last().push(rp.last()) =~= rp);
        assert(forall|ci: int| 0 <= ci < rp.last().0.len() ==> rp.last().0[ci] != ':') by {
            assert(!rp[rp.len() - 1].0.contains(':'));
        }
        assert(forall|ci: int| 0 <= ci < rp.last().1.len() ==> rp.last().1[ci] != ':') by {
            assert(!rp[rp.len() - 1].1.contains(':'));
        }
        lemma_reescape_identity(rp.last().0);
        lemma_reescape_identity(rp.last().1);
    }
}

/// Round trip: a mapping whose keys are non-empty and whose keys and
/// values hold no colon, encoded as a line and decoded again, comes
/// back as exactly the mapping it was, a later duplicate key
/// overriding an earlier one and an empty value coming back as the
/// absent marker.  The one condition beyond the format's own rules is
/// that the last value must not end in unescaped white space, which
/// end trimming would eat.
pub proof fn lemma_round_trip(rp: Seq<(Seq<char>, Seq<char>)>)
    requires
        forall|i: int|
            0 <= i < rp.len() ==> (#[trigger] rp[i]).0.len() > 0 && !rp[i].0.contains(':')
                && !rp[i].1.contains(':'),
        rp.len() > 0 ==> trim_stable(rp.last().1),
    ensures
        parse_line_spec(trim_ws_end(body_of(rp))) == map_of_pairs(rp),
{
    lemma_encode_decode(rp);
    lemma_insert_all_plain(rp);
}

/// Escape symmetry: a value holding one occurrence of a special
/// character, encoded under a colon-free key and decoded again, holds
/// that character exactly once afterwards as well — nothing is escaped
/// twice.  A backslash in a value that also holds a colon is the one
/// exception: the colon's escape leaves an extra backslash behind.
pub proof fn lemma_escape_symmetry(k: Seq<char>, v: Seq<char>, c: char)
    requires
        k.len() > 0,
        !k.contains(':'),
        is_special(c),
        count_char(v, c) == 1,
        !(c == '\\' && v.contains(':')),
        trim_stable(v),
    ensures
        parse_line_spec(trim_ws_end(body_of(seq![(k, v)]))) == Map::empty().insert(
            k,
            Some(reescape(v)),
        ),
        count_char(reescape(v), c) == 1,
{
    let rp = seq![(k, v)];
    assert(rp[0] == (k, v));
    assert(rp.last() == (k, v));
    lemma_encode_decode(rp);
    assert(rp.skip(1) =~= Seq::<(Seq<char>, Seq<char>)>::empty());
    assert(forall|ci: int| 0 <= ci < k.len() ==> k[ci] != ':');
    lemma_reescape_identity(k);
    assert(v.len() > 0) by {
        if v.len() == 0 {
            assert(count_char(v, c) == 0);
        }
    }
    lemma_reescape_len(v);
    assert(entry_value(reescape(v)) == Some(reescape(v)));
    let rec1 = Map::<Seq<char>, Option<Seq<char>>>::empty().insert(
        reescape(k),
        entry_value(reescape(v)),
    );
    assert(insert_all(rp, Map::empty()) == insert_all(rp.skip(1), rec1));
    assert(insert_all(rp.skip(1), rec1) == rec1);
    assert(rec1 == Map::empty().insert(k, Some(reescape(v))));
    lemma_count_reescape(v, c);
    if c == '\\' {
        lemma_count_zero(v, ':');
    }
}

} // verus!
