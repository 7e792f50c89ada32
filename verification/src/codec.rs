//! Byte-level text of the journal: fields are escaped so that they contain no
//! delimiter or record terminator, records are fields joined by commas, and the
//! journal is records each terminated by a line feed.

use vstd::prelude::*;

use crate::FormatError;

verus! {

/// The escape lead-in byte, a backslash.
pub const ESC: u8 = 0x5C;

/// The field delimiter, a comma.
pub const COMMA: u8 = 0x2C;

/// The record terminator, a line feed.
pub const LF: u8 = 0x0A;

/// A carriage return, escaped so that records stay single lines everywhere.
pub const CR: u8 = 0x0D;

/// The escape code for a comma, the letter `c`.
pub const CODE_COMMA: u8 = 0x63;

/// The escape code for a line feed, the letter `n`.
pub const CODE_LF: u8 = 0x6E;

/// The escape code for a carriage return, the letter `r`.
pub const CODE_CR: u8 = 0x72;

/// The views of a sequence of byte vectors.
pub open spec fn seq_views(v: Seq<Vec<u8>>) -> Seq<Seq<u8>> {
    Seq::new(v.len(), |i: int| v[i]@)
}

/// `b` occurs nowhere in `s`.
pub open spec fn avoids(s: Seq<u8>, b: u8) -> bool {
    forall|i: int| 0 <= i < s.len() ==> #[trigger] s[i] != b
}

/// How one byte of a field is written in the journal.
pub open spec fn enc_byte(b: u8) -> Seq<u8> {
    if b == ESC {
        seq![ESC, ESC]
    } else if b == COMMA {
        seq![ESC, CODE_COMMA]
    } else if b == LF {
        seq![ESC, CODE_LF]
    } else if b == CR {
        seq![ESC, CODE_CR]
    } else {
        seq![b]
    }
}

/// A field escaped byte by byte.
pub open spec fn spec_escape(s: Seq<u8>) -> Seq<u8>
    decreases s.len(),
{
    if s.len() == 0 {
        Seq::empty()
    } else {
        enc_byte(s[0]) + spec_escape(s.skip(1))
    }
}

/// The byte an escape code stands for, if the code is known.
pub open spec fn dec_code(c: u8) -> Option<u8> {
    if c == ESC {
        Some(ESC)
    } else if c == CODE_COMMA {
        Some(COMMA)
    } else if c == CODE_LF {
        Some(LF)
    } else if c == CODE_CR {
        Some(CR)
    } else {
        None
    }
}

/// Undoes `spec_escape`; `None` on a dangling or unknown escape.
pub open spec fn spec_unescape(s: Seq<u8>) -> Option<Seq<u8>>
    decreases s.len(),
{
    if s.len() == 0 {
        Some(Seq::empty())
    } else if s[0] == ESC {
        if s.len() == 1 {
            None
        } else {
            match dec_code(s[1]) {
                None => None,
                Some(b) => match spec_unescape(s.skip(2)) {
                    None => None,
                    Some(r) => Some(seq![b] + r),
                },
            }
        }
    } else {
        match spec_unescape(s.skip(1)) {
            None => None,
            Some(r) => Some(seq![s[0]] + r),
        }
    }
}

/// An escaped field holds no delimiter, terminator or carriage return.
pub proof fn lemma_escape_avoids(s: Seq<u8>)
    ensures
        avoids(spec_escape(s), COMMA),
        avoids(spec_escape(s), LF),
        avoids(spec_escape(s), CR),
    decreases s.len(),
{
    if s.len() > 0 {
        lemma_escape_avoids(s.skip(1));
        let e = enc_byte(s[0]);
        let rest = spec_escape(s.skip(1));
        assert forall|i: int| 0 <= i < spec_escape(s).len() implies #[trigger] spec_escape(s)[i]
            != COMMA && spec_escape(s)[i] != LF && spec_escape(s)[i] != CR by {
            if i < e.len() {
                assert(spec_escape(s)[i] == e[i]);
            } else {
                assert(spec_escape(s)[i] == rest[i - e.len()]);
            }
        }
    }
}

/// Unescaping an escaped field gives the field back.
pub proof fn lemma_unescape_escape(s: Seq<u8>)
    ensures
        spec_unescape(spec_escape(s)) == Some(s),
    decreases s.len(),
{
    if s.len() == 0 {
        assert(spec_escape(s) =~= Seq::<u8>::empty());
    } else {
        lemma_unescape_escape(s.skip(1));
        let b0 = s[0];
        let e = spec_escape(s);
        if b0 == ESC || b0 == COMMA || b0 == LF || b0 == CR {
            assert(e[0] == ESC);
            assert(dec_code(e[1]) == Some(b0));
            assert(e.skip(2) =~= spec_escape(s.skip(1)));
            assert(seq![b0] + s.skip(1) =~= s);
        } else {
            assert(e[0] == b0);
            assert(e.skip(1) =~= spec_escape(s.skip(1)));
            assert(seq![b0] + s.skip(1) =~= s);
        }
    }
}

/// Escapes one field.
pub fn escape_field(s: &Vec<u8>) -> (r: Vec<u8>)
    ensures
        r@ == spec_escape(s@),
{
    let mut out: Vec<u8> = Vec::new();
    let mut i: usize = 0;
    proof {
        assert(s@.skip(0) =~= s@);
        assert(Seq::<u8>::empty() + spec_escape(s@) =~= spec_escape(s@));
    }
    while i < s.len()
        invariant
            0 <= i <= s@.len(),
            spec_escape(s@) == out@ + spec_escape(s@.skip(i as int)),
        decreases s@.len() - i,
    {
        let b = s[i];
        proof {
            assert(s@.skip(i as int)[0] == s@[i as int]);
            assert(s@.skip(i as int).skip(1) =~= s@.skip(i as int + 1));
        }
        let ghost out0 = out@;
        if b == ESC {
            out.push(ESC);
            out.push(ESC);
        } else if b == COMMA {
            out.push(ESC);
            out.push(CODE_COMMA);
        } else if b == LF {
            out.push(ESC);
            out.push(CODE_LF);
        } else if b == CR {
            out.push(ESC);
            out.push(CODE_CR);
        } else {
            out.push(b);
        }
        proof {
            assert(out@ =~= out0 + enc_byte(s@[i as int]));
            assert(out0 + enc_byte(s@[i as int]) + spec_escape(s@.skip(i as int + 1)) =~= out0
                + spec_escape(s@.skip(i as int)));
        }
        i += 1;
    }
    proof {
        assert(s@.skip(i as int) =~= Seq::<u8>::empty());
        assert(spec_escape(s@) =~= out@);
    }
    out
}

/// Unescapes one field; a dangling or unknown escape is a syntax error.
pub fn unescape_field(s: &Vec<u8>) -> (r: Result<Vec<u8>, FormatError>)
    ensures
        r is Ok <==> spec_unescape(s@) is Some,
        r matches Ok(f) ==> spec_unescape(s@) == Some(f@),
        r matches Err(e) ==> e == FormatError::Syntax,
{
    let mut out: Vec<u8> = Vec::new();
    let mut i: usize = 0;
    proof {
        assert(s@.skip(0) =~= s@);
        if spec_unescape(s@) is Some {
            assert(Seq::<u8>::empty() + spec_unescape(s@)->Some_0 =~= spec_unescape(s@)->Some_0);
        }
    }
    while i < s.len()
        invariant
            0 <= i <= s@.len(),
            spec_unescape(s@) == match spec_unescape(s@.skip(i as int)) {
                None => None::<Seq<u8>>,
                Some(r) => Some(out@ + r),
            },
        decreases s@.len() - i,
    {
        let b = s[i];
        proof {
            assert(s@.skip(i as int)[0] == s@[i as int]);
        }
        if b == ESC {
            if i + 1 == s.len() {
                proof {
                    assert(s@.skip(i as int).len() == 1);
                }
                return Err(FormatError::Syntax);
            }
            let c = s[i + 1];
            proof {
                assert(s@.skip(i as int)[1] == s@[i as int + 1]);
                assert(s@.skip(i as int).skip(2) =~= s@.skip(i as int + 2));
            }
            let d: u8;
            if c == ESC {
                d = ESC;
            } else if c == CODE_COMMA {
                d = COMMA;
            } else if c == CODE_LF {
                d = LF;
            } else if c == CODE_CR {
                d = CR;
            } else {
                return Err(FormatError::Syntax);
            }
            let ghost out0 = out@;
            out.push(d);
            i += 2;
            proof {
                if spec_unescape(s@.skip(i as int)) is Some {
                    let r2 = spec_unescape(s@.skip(i as int))->Some_0;
                    assert(out@ + r2 =~= out0 + (seq![d] + r2));
                }
            }
        } else {
            proof {
                assert(s@.skip(i as int).skip(1) =~= s@.skip(i as int + 1));
            }
            let ghost out0 = out@;
            out.push(b);
            i += 1;
            proof {
                if spec_unescape(s@.skip(i as int)) is Some {
                    let r2 = spec_unescape(s@.skip(i as int))->Some_0;
                    assert(out@ + r2 =~= out0 + (seq![b] + r2));
                }
            }
        }
    }
    proof {
        assert(s@.skip(i as int) =~= Seq::<u8>::empty());
        assert(out@ + Seq::<u8>::empty() =~= out@);
    }
    Ok(out)
}

/// Appends all of `s` to `out`.
pub fn push_all(out: &mut Vec<u8>, s: &Vec<u8>)
    ensures
        final(out)@ == old(out)@ + s@,
{
    let mut j: usize = 0;
    proof {
        assert(out@ =~= old(out)@ + s@.take(0));
    }
    while j < s.len()
        invariant
            0 <= j <= s@.len(),
            out@ == old(out)@ + s@.take(j as int),
        decreases s@.len() - j,
    {
        out.push(s[j]);
        proof {
            assert(old(out)@ + s@.take(j as int + 1) =~= (old(out)@ + s@.take(j as int)).push(
                s@[j as int],
            ));
        }
        j += 1;
    }
    proof {
        assert(s@.take(j as int) =~= s@);
    }
}

/// Whether two byte vectors hold the same bytes.
pub fn bytes_eq(a: &Vec<u8>, b: &Vec<u8>) -> (r: bool)
    ensures
        r == (a@ == b@),
{
    if a.len() != b.len() {
        return false;
    }
    let mut i: usize = 0;
    while i < a.len()
        invariant
            0 <= i <= a@.len(),
            a@.len() == b@.len(),
            forall|k: int| 0 <= k < i ==> a@[k] == b@[k],
        decreases a@.len() - i,
    {
        if a[i] != b[i] {
            return false;
        }
        i += 1;
    }
    proof {
        assert(a@ =~= b@);
    }
    true
}

/// Whether two vectors of byte vectors hold the same fields.
pub fn fields_eq(a: &Vec<Vec<u8>>, b: &Vec<Vec<u8>>) -> (r: bool)
    ensures
        r == (seq_views(a@) == seq_views(b@)),
{
    if a.len() != b.len() {
        proof {
            assert(seq_views(a@).len() != seq_views(b@).len());
        }
        return false;
    }
    let mut i: usize = 0;
    while i < a.len()
        invariant
            0 <= i <= a@.len(),
            a@.len() == b@.len(),
            forall|k: int| 0 <= k < i ==> seq_views(a@)[k] == seq_views(b@)[k],
        decreases a@.len() - i,
    {
        if !bytes_eq(&a[i], &b[i]) {
            proof {
                assert(seq_views(a@)[i as int] != seq_views(b@)[i as int]);
            }
            return false;
        }
        i += 1;
    }
    proof {
        assert(seq_views(a@) =~= seq_views(b@));
    }
    true
}

/// Splits `s` at every occurrence of `sep`. There is always one segment more
/// than there are separators; an empty input is one empty segment.
pub open spec fn spec_split(s: Seq<u8>, sep: u8) -> Seq<Seq<u8>>
    decreases s.len(),
{
    if s.len() == 0 {
        seq![Seq::<u8>::empty()]
    } else {
        let rest = spec_split(s.drop_last(), sep);
        if s.last() == sep {
            rest.push(Seq::empty())
        } else {
            rest.update(rest.len() - 1, rest.last().push(s.last()))
        }
    }
}

pub proof fn lemma_split_len(s: Seq<u8>, sep: u8)
    ensures
        spec_split(s, sep).len() >= 1,
    decreases s.len(),
{
    if s.len() > 0 {
        lemma_split_len(s.drop_last(), sep);
    }
}

/// Joins segments with `sep` between each two.
pub open spec fn spec_join(xs: Seq<Seq<u8>>, sep: u8) -> Seq<u8>
    decreases xs.len(),
{
    if xs.len() == 0 {
        Seq::empty()
    } else if xs.len() == 1 {
        xs[0]
    } else {
        spec_join(xs.drop_last(), sep) + seq![sep] + xs.last()
    }
}

/// Splitting a string without separators gives that one segment.
pub proof fn lemma_split_sepfree(s: Seq<u8>, sep: u8)
    requires
        avoids(s, sep),
    ensures
        spec_split(s, sep) == seq![s],
    decreases s.len(),
{
    if s.len() == 0 {
        assert(s =~= Seq::<u8>::empty());
        assert(spec_split(s, sep) =~= seq![s]);
    } else {
        lemma_split_sepfree(s.drop_last(), sep);
        assert(s.last() != sep);
        assert(spec_split(s, sep) =~= seq![s.drop_last().push(s.last())]);
        assert(s.drop_last().push(s.last()) =~= s);
    }
}

/// Splitting distributes over a separator before a separator-free tail.
pub proof fn lemma_split_append(a: Seq<u8>, b: Seq<u8>, sep: u8)
    requires
        avoids(b, sep),
    ensures
        spec_split(a + seq![sep] + b, sep) == spec_split(a, sep).push(b),
    decreases b.len(),
{
    lemma_split_len(a, sep);
    if b.len() == 0 {
        let s = a + seq![sep] + b;
        assert(s.drop_last() =~= a);
        assert(s.last() == sep);
        assert(b =~= Seq::<u8>::empty());
        assert(spec_split(s, sep) =~= spec_split(a, sep).push(b));
    } else {
        let s = a + seq![sep] + b;
        assert(s.drop_last() =~= a + seq![sep] + b.drop_last());
        assert(avoids(b.drop_last(), sep)) by {
            assert(forall|i: int|
                0 <= i < b.drop_last().len() ==> #[trigger] b.drop_last()[i] == b[i]);
        }
        lemma_split_append(a, b.drop_last(), sep);
        assert(s.last() == b.last());
        assert(s.last() != sep);
        let rest = spec_split(a, sep).push(b.drop_last());
        assert(rest.last() == b.drop_last());
        assert(spec_split(s, sep) == rest.update(rest.len() - 1, b.drop_last().push(b.last())));
        assert(b.drop_last().push(b.last()) =~= b);
        assert(rest.update(rest.len() - 1, b) =~= spec_split(a, sep).push(b));
    }
}

/// Splitting a join of separator-free segments gives the segments back.
pub proof fn lemma_split_join(xs: Seq<Seq<u8>>, sep: u8)
    requires
        xs.len() >= 1,
        forall|i: int| 0 <= i < xs.len() ==> avoids(#[trigger] xs[i], sep),
    ensures
        spec_split(spec_join(xs, sep), sep) == xs,
    decreases xs.len(),
{
    if xs.len() == 1 {
        lemma_split_sepfree(xs[0], sep);
        assert(seq![xs[0]] =~= xs);
    } else {
        lemma_split_join(xs.drop_last(), sep);
        lemma_split_append(spec_join(xs.drop_last(), sep), xs.last(), sep);
        assert(xs.drop_last().push(xs.last()) =~= xs);
    }
}

/// Splits a byte vector at every `sep`.
pub fn split_bytes(s: &Vec<u8>, sep: u8) -> (r: Vec<Vec<u8>>)
    ensures
        seq_views(r@) == spec_split(s@, sep),
{
    let mut segs: Vec<Vec<u8>> = Vec::new();
    let mut cur: Vec<u8> = Vec::new();
    let mut i: usize = 0;
    while i < s.len()
        invariant
            0 <= i <= s@.len(),
            seq_views(segs@).push(cur@) == spec_split(s@.take(i as int), sep),
        decreases s@.len() - i,
    {
        let b = s[i];
        proof {
            assert(s@.take(i as int + 1).drop_last() =~= s@.take(i as int));
            assert(s@.take(i as int + 1).last() == s@[i as int]);
        }
        if b == sep {
            let ghost segs0 = segs@;
            let ghost cur0 = cur@;
            segs.push(cur);
            cur = Vec::new();
            proof {
                assert(seq_views(segs@).push(cur@) =~= seq_views(segs0).push(cur0).push(
                    Seq::empty(),
                ));
            }
        } else {
            let ghost segs0 = segs@;
            let ghost cur0 = cur@;
            let ghost prev = spec_split(s@.take(i as int), sep);
            cur.push(b);
            proof {
                lemma_split_len(s@.take(i as int), sep);
                assert(prev.last() == cur0);
                assert(seq_views(segs@).push(cur@) =~= prev.update(
                    prev.len() - 1,
                    cur0.push(b),
                ));
            }
        }
        i += 1;
    }
    segs.push(cur);
    proof {
        assert(s@.take(i as int) =~= s@);
        assert(seq_views(segs@) =~= spec_split(s@, sep));
    }
    segs
}

/// Joins byte vectors with `sep` between each two.
pub fn join_bytes(v: &Vec<Vec<u8>>, sep: u8) -> (r: Vec<u8>)
    ensures
        r@ == spec_join(seq_views(v@), sep),
{
    let mut out: Vec<u8> = Vec::new();
    let mut i: usize = 0;
    while i < v.len()
        invariant
            0 <= i <= v@.len(),
            out@ == spec_join(seq_views(v@).take(i as int), sep),
        decreases v@.len() - i,
    {
        let ghost out0 = out@;
        if i > 0 {
            out.push(sep);
        }
        let row = &v[i];
        let mut j: usize = 0;
        while j < row.len()
            invariant
                0 <= j <= row@.len(),
                i < v@.len(),
                row == &v[i as int],
                out@ == if i == 0 {
                    row@.take(j as int)
                } else {
                    out0 + seq![sep] + row@.take(j as int)
                },
            decreases row@.len() - j,
        {
            out.push(row[j]);
            proof {
                assert(row@.take(j as int).push(row@[j as int]) =~= row@.take(j as int + 1));
                if i > 0 {
                    assert((out0 + seq![sep] + row@.take(j as int)).push(row@[j as int]) =~= out0
                        + seq![sep] + row@.take(j as int + 1));
                }
            }
            j += 1;
        }
        proof {
            let views = seq_views(v@);
            assert(row@.take(j as int) =~= row@);
            assert(views.take(i as int + 1).drop_last() =~= views.take(i as int));
            assert(views.take(i as int + 1).last() == v@[i as int]@);
            if i == 0 {
                assert(out@ =~= spec_join(views.take(1), sep));
            }
        }
        i += 1;
    }
    proof {
        assert(seq_views(v@).take(i as int) =~= seq_views(v@));
    }
    out
}

} // verus!
