//! The per-candidate work: deriving the artifact's lookup path from the
//! candidate's name and version, rendering derived values into journal fields,
//! and deciding whether an inspection outcome is journaled or skipped.

use vstd::prelude::*;

use crate::ItemError;
use crate::codec::{COMMA, fields_eq, join_bytes, push_all, seq_views, spec_join};
use crate::journal::{EntryModel, JournalEntry};
use crate::selector::{Candidate, CandidateModel};

verus! {

/// A path separator.
pub const SLASH: u8 = 0x2F;

/// The hyphen between name and version in an artifact file name.
pub const HYPHEN: u8 = 0x2D;

/// An ASCII byte lowered.
pub open spec fn spec_lower(b: u8) -> u8 {
    if 0x41 <= b <= 0x5A {
        (b + 0x20) as u8
    } else {
        b
    }
}

/// A byte string lowered byte by byte.
pub open spec fn spec_lower_all(s: Seq<u8>) -> Seq<u8> {
    Seq::new(s.len(), |i: int| spec_lower(s[i]))
}

/// The prefix directories of the artifact tree for a lowered name: one- to
/// three-byte names get their own shallow shelves, longer names are filed by
/// their first four bytes, two per level.
pub open spec fn spec_prefix_dirs(n: Seq<u8>) -> Seq<u8> {
    if n.len() == 1 {
        seq![0x31]
    } else if n.len() == 2 {
        seq![0x32]
    } else if n.len() == 3 {
        seq![0x33, SLASH, n[0]]
    } else {
        n.take(2) + seq![SLASH] + n.subrange(2, 4)
    }
}

/// The `.crate` file suffix.
pub open spec fn spec_crate_suffix() -> Seq<u8> {
    seq![0x2E, 0x63, 0x72, 0x61, 0x74, 0x65]
}

/// The artifact's path relative to the artifact root:
/// `prefix/lowered-name/name-version.crate`.
pub open spec fn spec_rel_path(name: Seq<u8>, version: Seq<u8>) -> Seq<u8> {
    let low = spec_lower_all(name);
    spec_prefix_dirs(low) + seq![SLASH] + low + seq![SLASH] + name + seq![HYPHEN] + version
        + spec_crate_suffix()
}

/// Lowers a byte string.
pub fn lower_all(s: &Vec<u8>) -> (r: Vec<u8>)
    ensures
        r@ == spec_lower_all(s@),
{
    let mut out: Vec<u8> = Vec::new();
    let mut i: usize = 0;
    while i < s.len()
        invariant
            0 <= i <= s@.len(),
            out@.len() == i,
            forall|k: int| 0 <= k < i ==> out@[k] == spec_lower(s@[k]),
        decreases s@.len() - i,
    {
        let b = s[i];
        if 0x41 <= b && b <= 0x5A {
            out.push(b + 0x20);
        } else {
            out.push(b);
        }
        i += 1;
    }
    proof {
        assert(out@ =~= spec_lower_all(s@));
    }
    out
}

/// Derives the artifact's relative lookup path from the candidate's name and
/// version, deterministically.
pub fn lookup_rel_path(name: &Vec<u8>, version: &Vec<u8>) -> (r: Vec<u8>)
    requires
        name@.len() >= 1,
    ensures
        r@ == spec_rel_path(name@, version@),
{
    let low = lower_all(name);
    let mut out: Vec<u8> = Vec::new();
    if low.len() == 1 {
        out.push(0x31);
    } else if low.len() == 2 {
        out.push(0x32);
    } else if low.len() == 3 {
        out.push(0x33);
        out.push(SLASH);
        out.push(low[0]);
    } else {
        out.push(low[0]);
        out.push(low[1]);
        out.push(SLASH);
        out.push(low[2]);
        out.push(low[3]);
    }
    proof {
        assert(out@ =~= spec_prefix_dirs(low@));
    }
    out.push(SLASH);
    push_all(&mut out, &low);
    out.push(SLASH);
    push_all(&mut out, name);
    out.push(HYPHEN);
    push_all(&mut out, version);
    out.push(0x2E);
    out.push(0x63);
    out.push(0x72);
    out.push(0x61);
    out.push(0x74);
    out.push(0x65);
    proof {
        assert(out@ =~= spec_rel_path(name@, version@));
    }
    out
}

/// A single quote, the delimiter and escape of store text literals.
pub const QUOTE: u8 = 0x27;

/// Every quote doubled, so the text can stand inside a quoted literal.
pub open spec fn spec_double_quotes(s: Seq<u8>) -> Seq<u8>
    decreases s.len(),
{
    if s.len() == 0 {
        Seq::empty()
    } else if s[0] == QUOTE {
        seq![QUOTE, QUOTE] + spec_double_quotes(s.skip(1))
    } else {
        seq![s[0]] + spec_double_quotes(s.skip(1))
    }
}

/// A quoted store text literal with inner quotes doubled.
pub open spec fn spec_text_literal(s: Seq<u8>) -> Seq<u8> {
    seq![QUOTE] + spec_double_quotes(s) + seq![QUOTE]
}

/// Doubles every quote in the text.
pub fn double_quotes_field(s: &Vec<u8>) -> (r: Vec<u8>)
    ensures
        r@ == spec_double_quotes(s@),
{
    let mut out: Vec<u8> = Vec::new();
    let mut i: usize = 0;
    proof {
        assert(s@.skip(0) =~= s@);
        assert(out@ + spec_double_quotes(s@.skip(0)) =~= spec_double_quotes(s@));
    }
    while i < s.len()
        invariant
            0 <= i <= s@.len(),
            out@ + spec_double_quotes(s@.skip(i as int)) == spec_double_quotes(s@),
        decreases s@.len() - i,
    {
        let b = s[i];
        let ghost out0 = out@;
        proof {
            assert(s@.skip(i as int)[0] == s@[i as int]);
            assert(s@.skip(i as int).skip(1) =~= s@.skip(i as int + 1));
        }
        if b == QUOTE {
            out.push(QUOTE);
            out.push(QUOTE);
            proof {
                assert(out@ =~= out0 + seq![QUOTE, QUOTE]);
                assert(out@ + spec_double_quotes(s@.skip(i as int + 1)) =~= out0
                    + spec_double_quotes(s@.skip(i as int)));
            }
        } else {
            out.push(b);
            proof {
                assert(out@ =~= out0 + seq![b]);
                assert(out@ + spec_double_quotes(s@.skip(i as int + 1)) =~= out0
                    + spec_double_quotes(s@.skip(i as int)));
            }
        }
        i += 1;
    }
    proof {
        assert(s@.skip(i as int) =~= Seq::<u8>::empty());
        assert(out@ =~= spec_double_quotes(s@));
    }
    out
}

/// Renders text as a quoted store literal.
pub fn text_literal(s: &Vec<u8>) -> (r: Vec<u8>)
    ensures
        r@ == spec_text_literal(s@),
{
    let mut out: Vec<u8> = Vec::new();
    out.push(QUOTE);
    let mut body = double_quotes_field(s);
    out.append(&mut body);
    out.push(QUOTE);
    proof {
        assert(out@ =~= spec_text_literal(s@));
    }
    out
}

/// An ASCII whitespace byte, trimmed from the edges of derived text.
pub open spec fn is_ws(b: u8) -> bool {
    b == 0x20 || (0x09 <= b <= 0x0D)
}

/// The text without its leading whitespace.
pub open spec fn spec_trim_front(s: Seq<u8>) -> Seq<u8>
    decreases s.len(),
{
    if s.len() > 0 && is_ws(s[0]) {
        spec_trim_front(s.skip(1))
    } else {
        s
    }
}

/// The text without its trailing whitespace.
pub open spec fn spec_trim_back(s: Seq<u8>) -> Seq<u8>
    decreases s.len(),
{
    if s.len() > 0 && is_ws(s.last()) {
        spec_trim_back(s.drop_last())
    } else {
        s
    }
}

/// The text without leading and trailing whitespace.
pub open spec fn spec_trim(s: Seq<u8>) -> Seq<u8> {
    spec_trim_back(spec_trim_front(s))
}

/// Trims ASCII whitespace from both edges.
pub fn trim_field(s: &Vec<u8>) -> (r: Vec<u8>)
    ensures
        r@ == spec_trim(s@),
{
    let n = s.len();
    let mut i: usize = 0;
    let mut scanning = true;
    proof {
        assert(s@.skip(0) =~= s@);
    }
    while scanning && i < n
        invariant
            0 <= i <= s@.len(),
            n == s@.len(),
            spec_trim_front(s@) == spec_trim_front(s@.skip(i as int)),
            !scanning ==> i < s@.len() && !is_ws(s@[i as int]),
        decreases s@.len() - i + (if scanning { 1int } else { 0int }),
    {
        let b = s[i];
        if b == 0x20 || (0x09 <= b && b <= 0x0D) {
            proof {
                assert(s@.skip(i as int)[0] == s@[i as int]);
                assert(s@.skip(i as int).skip(1) =~= s@.skip(i as int + 1));
            }
            i += 1;
        } else {
            scanning = false;
        }
    }
    let ghost t = s@.skip(i as int);
    proof {
        if i < s@.len() {
            assert(t[0] == s@[i as int]);
        }
        assert(spec_trim_front(s@) == t);
    }
    let mut j: usize = n - i;
    let mut trimming = true;
    proof {
        assert(t.take(j as int) =~= t);
    }
    while trimming && j > 0
        invariant
            0 <= j <= t.len(),
            n == s@.len(),
            t == s@.skip(i as int),
            i + t.len() == s@.len(),
            spec_trim_back(t) == spec_trim_back(t.take(j as int)),
            !trimming ==> j > 0 && !is_ws(t[j - 1]),
        decreases j + (if trimming { 1int } else { 0int }),
    {
        let b = s[i + j - 1];
        proof {
            assert(t[j - 1] == s@[i + j - 1]);
        }
        if b == 0x20 || (0x09 <= b && b <= 0x0D) {
            proof {
                assert(t.take(j as int).last() == t[j - 1]);
                assert(t.take(j as int).drop_last() =~= t.take(j as int - 1));
            }
            j -= 1;
        } else {
            trimming = false;
        }
    }
    proof {
        if j == 0 {
            assert(t.take(0) =~= Seq::<u8>::empty());
        } else {
            assert(t.take(j as int).last() == t[j - 1]);
        }
        assert(spec_trim(s@) == t.take(j as int));
    }
    let mut out: Vec<u8> = Vec::new();
    let mut m: usize = 0;
    while m < j
        invariant
            0 <= m <= j,
            j <= t.len(),
            n == s@.len(),
            t == s@.skip(i as int),
            i + t.len() == s@.len(),
            out@.len() == m,
            forall|k: int| 0 <= k < m ==> out@[k] == t[k],
        decreases j - m,
    {
        out.push(s[i + m]);
        proof {
            assert(s@[i + m] == t[m as int]);
        }
        m += 1;
    }
    proof {
        assert(out@ =~= t.take(j as int));
    }
    out
}

/// How one byte of derived text is written to keep the value on one line: a
/// line feed becomes a backslash and the letter `n`.
pub open spec fn nl_byte(b: u8) -> Seq<u8> {
    if b == 0x0A {
        seq![0x5Cu8, 0x6Eu8]
    } else {
        seq![b]
    }
}

/// Every line feed written out, so the value stays on one line.
pub open spec fn spec_escape_newlines(s: Seq<u8>) -> Seq<u8>
    decreases s.len(),
{
    if s.len() == 0 {
        Seq::empty()
    } else {
        nl_byte(s[0]) + spec_escape_newlines(s.skip(1))
    }
}

/// Writes every line feed out as a backslash and the letter `n`.
pub fn escape_newlines(s: &Vec<u8>) -> (r: Vec<u8>)
    ensures
        r@ == spec_escape_newlines(s@),
{
    let mut out: Vec<u8> = Vec::new();
    let mut i: usize = 0;
    proof {
        assert(s@.skip(0) =~= s@);
        assert(out@ + spec_escape_newlines(s@.skip(0)) =~= spec_escape_newlines(s@));
    }
    while i < s.len()
        invariant
            0 <= i <= s@.len(),
            out@ + spec_escape_newlines(s@.skip(i as int)) == spec_escape_newlines(s@),
        decreases s@.len() - i,
    {
        let b = s[i];
        let ghost out0 = out@;
        proof {
            assert(s@.skip(i as int)[0] == s@[i as int]);
            assert(s@.skip(i as int).skip(1) =~= s@.skip(i as int + 1));
        }
        if b == 0x0A {
            out.push(0x5C);
            out.push(0x6E);
            proof {
                assert(out@ =~= out0 + seq![0x5Cu8, 0x6Eu8]);
                assert(out@ + spec_escape_newlines(s@.skip(i as int + 1)) =~= out0
                    + spec_escape_newlines(s@.skip(i as int)));
            }
        } else {
            out.push(b);
            proof {
                assert(out@ =~= out0 + seq![b]);
                assert(out@ + spec_escape_newlines(s@.skip(i as int + 1)) =~= out0
                    + spec_escape_newlines(s@.skip(i as int)));
            }
        }
        i += 1;
    }
    proof {
        assert(s@.skip(i as int) =~= Seq::<u8>::empty());
        assert(out@ =~= spec_escape_newlines(s@));
    }
    out
}

/// How free text (a description) is rendered as a single-line quoted literal:
/// inner quotes doubled, edges trimmed, line breaks written out.
pub open spec fn spec_description_field(s: Seq<u8>) -> Seq<u8> {
    seq![QUOTE] + spec_escape_newlines(spec_trim(spec_double_quotes(s))) + seq![QUOTE]
}

/// Renders free text as a single-line quoted store literal.
pub fn description_field(s: &Vec<u8>) -> (r: Vec<u8>)
    ensures
        r@ == spec_description_field(s@),
{
    let doubled = double_quotes_field(s);
    let trimmed = trim_field(&doubled);
    let mut escaped = escape_newlines(&trimmed);
    let mut out: Vec<u8> = Vec::new();
    out.push(QUOTE);
    out.append(&mut escaped);
    out.push(QUOTE);
    proof {
        assert(out@ =~= spec_description_field(s@));
    }
    out
}

/// A boolean store value: `t` or `f`.
pub fn flag_field(b: bool) -> (r: Vec<u8>)
    ensures
        b ==> r@ == seq![0x74u8],
        !b ==> r@ == seq![0x66u8],
{
    let mut out: Vec<u8> = Vec::new();
    if b {
        out.push(0x74);
    } else {
        out.push(0x66);
    }
    proof {
        if b {
            assert(out@ =~= seq![0x74u8]);
        } else {
            assert(out@ =~= seq![0x66u8]);
        }
    }
    out
}

/// A braced list value: the items joined by commas inside braces.
pub open spec fn spec_list_field(items: Seq<Seq<u8>>) -> Seq<u8> {
    seq![0x7Bu8] + spec_join(items, COMMA) + seq![0x7Du8]
}

/// Renders a list of items as a braced store value.
pub fn list_field(items: &Vec<Vec<u8>>) -> (r: Vec<u8>)
    ensures
        r@ == spec_list_field(seq_views(items@)),
{
    let mut out: Vec<u8> = Vec::new();
    out.push(0x7B);
    let mut body = join_bytes(items, COMMA);
    out.append(&mut body);
    out.push(0x7D);
    proof {
        assert(out@ =~= spec_list_field(seq_views(items@)));
    }
    out
}

/// Renders a derived artifact size as the store's integer column value,
/// failing with `TooLarge` when the size does not fit the column type.
pub fn size_field(size: u64) -> (r: Result<Vec<u8>, ItemError>)
    ensures
        size <= i32::MAX ==> (r matches Ok(f) && f@ == crate::decimal::spec_decimal(size as nat)),
        size > i32::MAX ==> r == Err::<Vec<u8>, ItemError>(ItemError::TooLarge),
{
    if size <= i32::MAX as u64 {
        Ok(crate::decimal::decimal_of(size))
    } else {
        Err(ItemError::TooLarge)
    }
}

/// Renders an optional text value: present text becomes a quoted literal,
/// absence becomes the sentinel token.
pub fn opt_field(v: Option<Vec<u8>>) -> (r: Vec<u8>)
    ensures
        v matches Some(s) ==> r@ == spec_text_literal(s@),
        v is None ==> r@ == crate::journal::spec_sentinel(),
{
    match v {
        Some(s) => text_literal(&s),
        None => crate::journal::sentinel_field(),
    }
}

/// The model of an inspection outcome: either the derived value columns, or
/// the per-item failure.
pub open spec fn outcome_model(o: Result<Vec<Vec<u8>>, ItemError>) -> Result<
    Seq<Seq<u8>>,
    ItemError,
> {
    match o {
        Ok(d) => Ok(seq_views(d@)),
        Err(e) => Err(e),
    }
}

/// Why a candidate was not journaled. A failed candidate is retried on the
/// next run; one whose derived value matches the store needs no update.
#[derive(Clone, Copy, PartialEq, Eq, Structural, Debug)]
pub enum SkipReason {
    Failed(ItemError),
    NoChange,
}

/// What the worker does with one candidate's inspection outcome.
pub enum Decision {
    Journal(JournalEntry),
    Skip(SkipReason),
}

/// The entry a candidate's outcome contributes, if any: a successful
/// inspection whose value differs from what the store records.
pub open spec fn spec_worker_entry(c: CandidateModel, o: Result<Seq<Seq<u8>>, ItemError>) -> Option<
    EntryModel,
> {
    match o {
        Err(_) => None,
        Ok(d) => if c.recorded == Some(d) {
            None
        } else {
            Some(EntryModel { record_id: c.record_id, fields: d })
        },
    }
}

/// Why a candidate's outcome is skipped, if it is.
pub open spec fn spec_worker_skip(c: CandidateModel, o: Result<Seq<Seq<u8>>, ItemError>) -> Option<
    SkipReason,
> {
    match o {
        Err(e) => Some(SkipReason::Failed(e)),
        Ok(d) => if c.recorded == Some(d) {
            Some(SkipReason::NoChange)
        } else {
            None
        },
    }
}

/// Decides one candidate: a failure or an unchanged value is skipped (and so
/// retried or left alone), anything else becomes a journal entry under the
/// candidate's record identifier.
pub fn worker_step(c: &Candidate, derived: Result<Vec<Vec<u8>>, ItemError>) -> (r: Decision)
    ensures
        r matches Decision::Journal(e) ==> spec_worker_entry(c@, outcome_model(derived)) == Some(
            e@,
        ),
        r matches Decision::Skip(s) ==> spec_worker_skip(c@, outcome_model(derived)) == Some(s),
        (r is Journal) == (spec_worker_entry(c@, outcome_model(derived)) is Some),
{
    match derived {
        Err(e) => Decision::Skip(SkipReason::Failed(e)),
        Ok(d) => {
            let same = match &c.recorded {
                Some(rec) => fields_eq(rec, &d),
                None => false,
            };
            if same {
                Decision::Skip(SkipReason::NoChange)
            } else {
                Decision::Journal(JournalEntry { record_id: c.record_id, fields: d })
            }
        },
    }
}

} // verus!
