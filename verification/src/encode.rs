//! The encoder: a mapping-like input to one escaped line of text.
//!
//! The input is first coerced to a list of key/value scalar items: a
//! natively associative value is used directly, otherwise the result of
//! its primary or of its alternate to-mapping conversion, in that
//! order; a value with none of the three shapes is rejected.  Each item
//! is then rendered to text, the special characters are escaped, the
//! fields are joined as `key:value` with a tab after each, and the
//! trailing white space of the assembled line is trimmed.  The first
//! item whose rendering failed aborts the encode with its message.

use crate::text::{escape_into, escape_seq, string_of_chars, trim_end, trim_ws_end};
use vstd::prelude::*;

verus! {

/// One key or value item of the mapping to encode, as handed over by
/// the host together with the outcome of the host-side rendering
/// capability it chose.
pub enum Scalar {
    /// An interned-name item; it renders as its textual name.
    Name(String),
    /// An already textual item; it renders as itself.
    Text(String),
    /// Any other item whose generic to-text conversion succeeded, with
    /// that conversion's result.
    Converted(String),
    /// An item whose rendering failed, with the failure's message.
    Unconvertible(String),
}

/// Why an encode was refused.
#[derive(Debug)]
pub enum EncodeError {
    /// The input has no native mapping shape and exposes neither
    /// to-mapping conversion.
    ArgumentNotMappable,
    /// Rendering a key or a value failed; the first such failure
    /// aborts the encode with its message.
    Render(String),
}

/// Whether an item renders at all.
pub open spec fn scalar_ok(s: Scalar) -> bool {
    !(s is Unconvertible)
}

/// The text an item renders to.
pub open spec fn scalar_text(s: Scalar) -> Seq<char> {
    match s {
        Scalar::Name(t) => t@,
        Scalar::Text(t) => t@,
        Scalar::Converted(t) => t@,
        Scalar::Unconvertible(_) => Seq::empty(),
    }
}

/// The message of an item whose rendering failed.
pub open spec fn scalar_err(s: Scalar) -> Seq<char> {
    match s {
        Scalar::Unconvertible(m) => m@,
        _ => Seq::empty(),
    }
}

/// The message of the first item whose rendering failed, keys checked
/// before their values, in entry order.
pub open spec fn first_render_error(entries: Seq<(Scalar, Scalar)>) -> Option<Seq<char>>
    decreases entries.len(),
{
    if entries.len() == 0 {
        None
    } else if !scalar_ok(entries[0].0) {
        Some(scalar_err(entries[0].0))
    } else if !scalar_ok(entries[0].1) {
        Some(scalar_err(entries[0].1))
    } else {
        first_render_error(entries.skip(1))
    }
}

/// The rendered text of every entry.
pub open spec fn rendered_of(entries: Seq<(Scalar, Scalar)>) -> Seq<(Seq<char>, Seq<char>)> {
    entries.map_values(|p: (Scalar, Scalar)| (scalar_text(p.0), scalar_text(p.1)))
}

/// One field of the assembled line: escaped key, colon, escaped value,
/// tab.
pub open spec fn segment_of(p: (Seq<char>, Seq<char>)) -> Seq<char> {
    escape_seq(p.0) + seq![':'] + escape_seq(p.1) + seq!['\t']
}

/// The assembled line before trimming.
pub open spec fn body_of(rp: Seq<(Seq<char>, Seq<char>)>) -> Seq<char>
    decreases rp.len(),
{
    if rp.len() == 0 {
        Seq::empty()
    } else {
        body_of(rp.drop_last()) + segment_of(rp.last())
    }
}

/// What encoding a list of rendered entries yields: the trimmed
/// assembled line, or the first rendering failure's message.
pub open spec fn dump_spec(entries: Seq<(Scalar, Scalar)>) -> Result<Seq<char>, Seq<char>> {
    match first_render_error(entries) {
        Some(m) => Err(m),
        None => Ok(trim_ws_end(body_of(rendered_of(entries)))),
    }
}

/// The shapes under which the host can hand a value over for encoding:
/// the value's own entries where it is natively associative, and the
/// entries produced by whichever to-mapping conversions it exposes.
pub struct MappingSource {
    /// The value's own entries, where the value is natively a mapping.
    pub native: Option<Vec<(Scalar, Scalar)>>,
    /// What the value's primary to-mapping conversion returned, where
    /// the value exposes one.
    pub primary: Option<Vec<(Scalar, Scalar)>>,
    /// What the value's alternate to-mapping conversion returned,
    /// where the value exposes one.
    pub secondary: Option<Vec<(Scalar, Scalar)>>,
}

/// The entries an input coerces to: its native shape first, then its
/// primary conversion, then its alternate one; nothing if it has none
/// of the three.
pub open spec fn coerced(source: MappingSource) -> Option<Seq<(Scalar, Scalar)>> {
    match source.native {
        Some(e) => Some(e@),
        None => match source.primary {
            Some(e) => Some(e@),
            None => match source.secondary {
                Some(e) => Some(e@),
                None => None,
            },
        },
    }
}

/// A mapping accepted for encoding: an ordered list of key/value
/// items.
pub struct DumpArgument {
    entries: Vec<(Scalar, Scalar)>,
}

impl View for DumpArgument {
    type V = Seq<(Scalar, Scalar)>;

    closed spec fn view(&self) -> Seq<(Scalar, Scalar)> {
        self.entries@
    }
}

impl DumpArgument {
    /// Wraps the entries of a value that already is a mapping.
    pub fn from_hash(entries: Vec<(Scalar, Scalar)>) -> (r: DumpArgument)
        ensures
            r@ == entries@,
    {
        DumpArgument { entries }
    }

    /// Coerces an arbitrary input to a mapping: its native shape is
    /// used directly; failing that, the result of its primary, then of
    /// its alternate to-mapping conversion; an input with none of the
    /// three is refused.
    pub fn from_source(source: MappingSource) -> (r: Result<DumpArgument, EncodeError>)
        ensures
            match coerced(source) {
                Some(e) => r is Ok && r->Ok_0@ == e,
                None => r == Err::<DumpArgument, EncodeError>(EncodeError::ArgumentNotMappable),
            },
    {
        match source.native {
            Some(entries) => Ok(DumpArgument { entries }),
            None => match source.primary {
                Some(entries) => Ok(DumpArgument { entries }),
                None => match source.secondary {
                    Some(entries) => Ok(DumpArgument { entries }),
                    None => Err(EncodeError::ArgumentNotMappable),
                },
            },
        }
    }

    /// Encodes the mapping as one line: each field as escaped key,
    /// colon, escaped value, followed by a tab, with the line's
    /// trailing white space trimmed; or the first rendering failure.
    pub fn dump(&self) -> (r: Result<String, EncodeError>)
        ensures
            dump_spec(self@) is Ok ==> r is Ok && r->Ok_0@ == dump_spec(self@)->Ok_0,
            dump_spec(self@) is Err ==> r is Err && (r->Err_0 matches EncodeError::Render(m)
                && m@ == dump_spec(self@)->Err_0),
    {
        let mut out: Vec<char> = Vec::new();
        let n = self.entries.len();
        assert(self.entries@.take(0) =~= Seq::<(Scalar, Scalar)>::empty());
        assert(rendered_of(self.entries@.take(0)) =~= Seq::<(Seq<char>, Seq<char>)>::empty());
        assert(self.entries@.skip(0) =~= self.entries@);
        let mut idx: usize = 0;
        while idx < n
            invariant
                n == self.entries@.len(),
                idx <= n,
                first_render_error(self.entries@) == first_render_error(
                    self.entries@.skip(idx as int),
                ),
                out@ == body_of(rendered_of(self.entries@.take(idx as int))),
            decreases n - idx,
        {
            proof {
                assert(self.entries@.skip(idx as int)[0] == self.entries@[idx as int]);
                assert(self.entries@.skip(idx as int).skip(1) =~= self.entries@.skip(idx + 1));
            }
            let key_text = match self.entries[idx].0.render() {
                Ok(t) => t,
                Err(m) => {
                    return Err(EncodeError::Render(m.clone()));
                },
            };
            let val_text = match self.entries[idx].1.render() {
                Ok(t) => t,
                Err(m) => {
                    return Err(EncodeError::Render(m.clone()));
                },
            };
            escape_into(&mut out, key_text.as_str());
            out.push(':');
            escape_into(&mut out, val_text.as_str());
            out.push('\t');
            proof {
                let rp0 = rendered_of(self.entries@.take(idx as int));
                let rp1 = rendered_of(self.entries@.take(idx + 1));
                let p = (scalar_text(self.entries@[idx as int].0), scalar_text(
                    self.entries@[idx as int].1,
                ));
                assert(rp1 =~= rp0.push(p));
                assert(rp1.drop_last() =~= rp0);
                assert(rp1.last() == p);
                assert(out@ =~= body_of(rp0) + segment_of(p));
            }
            idx = idx + 1;
        }
        proof {
            assert(self.entries@.take(n as int) =~= self.entries@);
            assert(self.entries@.skip(n as int) =~= Seq::<(Scalar, Scalar)>::empty());
        }
        trim_end(&mut out);
        Ok(string_of_chars(&out))
    }
}

impl Scalar {
    /// The text this item renders to, or the message of its failed
    /// rendering.
    pub fn render(&self) -> (r: Result<&String, &String>)
        ensures
            scalar_ok(*self) ==> r is Ok && r->Ok_0@ == scalar_text(*self),
            !scalar_ok(*self) ==> r is Err && r->Err_0@ == scalar_err(*self),
    {
        match self {
            Scalar::Name(t) => Ok(t),
            Scalar::Text(t) => Ok(t),
            Scalar::Converted(t) => Ok(t),
            Scalar::Unconvertible(m) => Err(m),
        }
    }
}

} // verus!
