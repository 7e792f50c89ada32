//! The journal: an append-only sequence of records, one line per resolved
//! record, columns = (record identifier, value fields), and the set of
//! identifiers it resolves.

use vstd::prelude::*;

use crate::FormatError;
use crate::codec::{
    COMMA, LF, avoids, escape_field, join_bytes, lemma_escape_avoids, lemma_split_append,
    lemma_split_join, lemma_split_len, lemma_unescape_escape, seq_views, spec_escape, spec_join,
    spec_split, spec_unescape, split_bytes, unescape_field,
};
use crate::decimal::{
    all_digits, decimal_of, lemma_decimal_roundtrip, parse_decimal, spec_decimal, spec_value,
};

verus! {

/// The ghost shape of a journal entry.
pub ghost struct EntryModel {
    pub record_id: u64,
    pub fields: Seq<Seq<u8>>,
}

/// One resolved record: its identifier and the derived value columns.
#[derive(Debug, PartialEq, Eq)]
pub struct JournalEntry {
    pub record_id: u64,
    pub fields: Vec<Vec<u8>>,
}

impl View for JournalEntry {
    type V = EntryModel;

    open spec fn view(&self) -> EntryModel {
        EntryModel { record_id: self.record_id, fields: seq_views(self.fields@) }
    }
}

/// The models of a sequence of entries.
pub open spec fn models_of(es: Seq<JournalEntry>) -> Seq<EntryModel> {
    Seq::new(es.len(), |i: int| es[i]@)
}

/// An entry fit for a journal with `vcols` value columns.
pub open spec fn entry_wf(e: EntryModel, vcols: nat) -> bool {
    e.fields.len() == vcols
}

/// The raw columns of an entry: the identifier's digits first, then the values.
pub open spec fn spec_columns(e: EntryModel) -> Seq<Seq<u8>> {
    seq![spec_decimal(e.record_id as nat)] + e.fields
}

/// The columns, each escaped.
pub open spec fn spec_escaped_columns(e: EntryModel) -> Seq<Seq<u8>> {
    Seq::new(spec_columns(e).len(), |i: int| spec_escape(spec_columns(e)[i]))
}

/// The body of an entry's journal line, without the terminator.
pub open spec fn spec_line_body(e: EntryModel) -> Seq<u8> {
    spec_join(spec_escaped_columns(e), COMMA)
}

/// One journal record: the line body, terminated by a line feed.
pub open spec fn spec_encode_entry(e: EntryModel) -> Seq<u8> {
    spec_line_body(e) + seq![LF]
}

/// The whole journal text: the records, one after another.
pub open spec fn spec_encode_journal(es: Seq<EntryModel>) -> Seq<u8>
    decreases es.len(),
{
    if es.len() == 0 {
        Seq::empty()
    } else {
        spec_encode_journal(es.drop_last()) + spec_encode_entry(es.last())
    }
}

/// Undoes `spec_escape` on every column; `None` if any column is malformed.
pub open spec fn spec_unescape_all(cols: Seq<Seq<u8>>) -> Option<Seq<Seq<u8>>>
    decreases cols.len(),
{
    if cols.len() == 0 {
        Some(Seq::empty())
    } else {
        match spec_unescape_all(cols.drop_last()) {
            None => None,
            Some(pre) => match spec_unescape(cols.last()) {
                None => None,
                Some(f) => Some(pre.push(f)),
            },
        }
    }
}

/// Parses one journal line body into an entry. The record must have exactly
/// `vcols + 1` columns; the first must be a decimal identifier in range.
pub open spec fn spec_parse_line(line: Seq<u8>, vcols: nat) -> Result<EntryModel, FormatError> {
    let cols = spec_split(line, COMMA);
    if cols.len() != vcols + 1 {
        Err(FormatError::ColumnCount)
    } else {
        match spec_unescape_all(cols) {
            None => Err(FormatError::Syntax),
            Some(raw) => {
                let idcol = raw[0];
                if idcol.len() > 0 && all_digits(idcol) && spec_value(idcol) <= u64::MAX {
                    Ok(EntryModel { record_id: spec_value(idcol) as u64, fields: raw.skip(1) })
                } else {
                    Err(FormatError::RecordId)
                }
            },
        }
    }
}

/// Parses the line bodies in order; the first malformed record aborts.
pub open spec fn spec_parse_lines(lines: Seq<Seq<u8>>, vcols: nat) -> Result<
    Seq<EntryModel>,
    FormatError,
>
    decreases lines.len(),
{
    if lines.len() == 0 {
        Ok(Seq::empty())
    } else {
        match spec_parse_lines(lines.drop_last(), vcols) {
            Err(e) => Err(e),
            Ok(pre) => match spec_parse_line(lines.last(), vcols) {
                Err(e) => Err(e),
                Ok(en) => Ok(pre.push(en)),
            },
        }
    }
}

/// Parses a whole journal text. Whatever follows the final line feed (normally
/// nothing, possibly a torn final append) is ignored.
pub open spec fn spec_parse_journal(bytes: Seq<u8>, vcols: nat) -> Result<
    Seq<EntryModel>,
    FormatError,
> {
    spec_parse_lines(spec_split(bytes, LF).drop_last(), vcols)
}

/// Encodes one entry as its journal record.
pub fn encode_entry(e: &JournalEntry) -> (r: Vec<u8>)
    ensures
        r@ == spec_encode_entry(e@),
{
    let mut cols: Vec<Vec<u8>> = Vec::new();
    let idtext = decimal_of(e.record_id);
    cols.push(escape_field(&idtext));
    let mut i: usize = 0;
    while i < e.fields.len()
        invariant
            0 <= i <= e.fields@.len(),
            cols@.len() == 1 + i,
            forall|k: int|
                0 <= k <= i ==> seq_views(cols@)[k] == spec_escape(spec_columns(e@)[k]),
        decreases e.fields@.len() - i,
    {
        let f = escape_field(&e.fields[i]);
        let ghost cols0 = cols@;
        cols.push(f);
        proof {
            assert forall|k: int| 0 <= k <= i + 1 implies seq_views(cols@)[k] == spec_escape(
                spec_columns(e@)[k],
            ) by {
                if k <= i {
                    assert(seq_views(cols@)[k] == seq_views(cols0)[k]);
                } else {
                    assert(seq_views(cols@)[k] == f@);
                    assert(spec_columns(e@)[k] == e.fields@[i as int]@);
                }
            }
        }
        i += 1;
    }
    proof {
        assert(seq_views(cols@) =~= spec_escaped_columns(e@));
    }
    let mut line = join_bytes(&cols, COMMA);
    line.push(LF);
    proof {
        assert(line@ =~= spec_encode_entry(e@));
    }
    line
}

/// Appends one entry's record to the journal bytes. This is the journal
/// writer's single serialization point: one durable record per entry, in
/// arrival order, never rewriting what is already there.
pub fn append_entry(journal: &mut Vec<u8>, e: &JournalEntry)
    ensures
        final(journal)@ == old(journal)@ + spec_encode_entry(e@),
{
    let mut line = encode_entry(e);
    journal.append(&mut line);
}

/// If the first `i` columns unescape but column `i` does not, the whole
/// record is malformed.
proof fn lemma_unescape_all_error(cols: Seq<Seq<u8>>, i: int)
    requires
        0 <= i < cols.len(),
        spec_unescape_all(cols.take(i)) is Some,
        spec_unescape(cols[i]) is None,
    ensures
        spec_unescape_all(cols) is None,
    decreases cols.len(),
{
    if i == cols.len() - 1 {
        assert(cols.take(i) =~= cols.drop_last());
    } else {
        assert(cols.drop_last().take(i) =~= cols.take(i));
        assert(cols.drop_last()[i] == cols[i]);
        lemma_unescape_all_error(cols.drop_last(), i);
    }
}

/// If the first `i` lines parse but line `i` does not, the whole journal
/// fails with that line's error.
proof fn lemma_parse_lines_error(lines: Seq<Seq<u8>>, vcols: nat, i: int)
    requires
        0 <= i < lines.len(),
        spec_parse_lines(lines.take(i), vcols) is Ok,
        spec_parse_line(lines[i], vcols) is Err,
    ensures
        spec_parse_lines(lines, vcols) == Err::<Seq<EntryModel>, FormatError>(
            spec_parse_line(lines[i], vcols)->Err_0,
        ),
    decreases lines.len(),
{
    if i == lines.len() - 1 {
        assert(lines.take(i) =~= lines.drop_last());
    } else {
        assert(lines.drop_last().take(i) =~= lines.take(i));
        assert(lines.drop_last()[i] == lines[i]);
        lemma_parse_lines_error(lines.drop_last(), vcols, i);
    }
}

/// Parses one line body into an entry.
pub fn parse_line(line: &Vec<u8>, vcols: usize) -> (r: Result<JournalEntry, FormatError>)
    requires
        vcols < usize::MAX,
    ensures
        r matches Ok(e) ==> spec_parse_line(line@, vcols as nat) == Ok::<EntryModel, FormatError>(
            e@,
        ),
        r matches Err(er) ==> spec_parse_line(line@, vcols as nat) == Err::<
            EntryModel,
            FormatError,
        >(er),
{
    let cols = split_bytes(line, COMMA);
    let ghost colsv = spec_split(line@, COMMA);
    if cols.len() != vcols + 1 {
        return Err(FormatError::ColumnCount);
    }
    let mut raw: Vec<Vec<u8>> = Vec::new();
    let mut i: usize = 0;
    proof {
        assert(colsv.take(0) =~= Seq::<Seq<u8>>::empty());
        assert(seq_views(raw@) =~= Seq::<Seq<u8>>::empty());
    }
    while i < cols.len()
        invariant
            0 <= i <= cols@.len(),
            seq_views(cols@) == colsv,
            colsv == spec_split(line@, COMMA),
            cols@.len() == vcols + 1,
            vcols < usize::MAX,
            spec_unescape_all(colsv.take(i as int)) == Some(seq_views(raw@)),
            raw@.len() == i,
        decreases cols@.len() - i,
    {
        proof {
            assert(colsv[i as int] == cols@[i as int]@);
        }
        match unescape_field(&cols[i]) {
            Ok(f) => {
                let ghost raw0 = seq_views(raw@);
                raw.push(f);
                proof {
                    assert(colsv.take(i as int + 1).drop_last() =~= colsv.take(i as int));
                    assert(colsv.take(i as int + 1).last() == colsv[i as int]);
                    assert(seq_views(raw@) =~= raw0.push(f@));
                }
                i += 1;
            },
            Err(er) => {
                proof {
                    lemma_unescape_all_error(colsv, i as int);
                    assert(spec_unescape_all(colsv) is None);
                    assert(colsv.len() == vcols + 1);
                    assert(spec_parse_line(line@, vcols as nat) == Err::<EntryModel, FormatError>(
                        FormatError::Syntax,
                    ));
                }
                return Err(er);
            },
        }
    }
    proof {
        assert(colsv.take(i as int) =~= colsv);
    }
    proof {
        let rawv = spec_unescape_all(colsv)->Some_0;
        assert(rawv == seq_views(raw@));
        assert(rawv[0] == raw@[0]@);
    }
    let id = match parse_decimal(&raw[0]) {
        Ok(v) => v,
        Err(er) => {
            return Err(er);
        },
    };
    let idcol = raw.remove(0);
    let entry = JournalEntry { record_id: id, fields: raw };
    proof {
        let rawv = spec_unescape_all(colsv)->Some_0;
        assert(rawv[0] == idcol@);
        assert(entry@.fields =~= rawv.skip(1));
        assert(spec_value(rawv[0]) as u64 == id);
    }
    Ok(entry)
}

/// Parses a whole journal text into its entries. The bytes after the final
/// line feed are ignored; a missing journal is simply empty bytes.
pub fn parse_journal(bytes: &Vec<u8>, vcols: usize) -> (r: Result<Vec<JournalEntry>, FormatError>)
    requires
        vcols < usize::MAX,
    ensures
        r matches Ok(es) ==> spec_parse_journal(bytes@, vcols as nat) == Ok::<
            Seq<EntryModel>,
            FormatError,
        >(models_of(es@)),
        r matches Err(er) ==> spec_parse_journal(bytes@, vcols as nat) == Err::<
            Seq<EntryModel>,
            FormatError,
        >(er),
{
    let segs = split_bytes(bytes, LF);
    let ghost lines = spec_split(bytes@, LF).drop_last();
    proof {
        lemma_split_len(bytes@, LF);
    }
    let n = segs.len() - 1;
    let mut out: Vec<JournalEntry> = Vec::new();
    let mut i: usize = 0;
    proof {
        assert(lines.take(0) =~= Seq::<Seq<u8>>::empty());
        assert(models_of(out@) =~= Seq::<EntryModel>::empty());
    }
    while i < n
        invariant
            0 <= i <= n,
            n == segs@.len() - 1,
            seq_views(segs@) == spec_split(bytes@, LF),
            lines == spec_split(bytes@, LF).drop_last(),
            vcols < usize::MAX,
            spec_parse_lines(lines.take(i as int), vcols as nat) == Ok::<
                Seq<EntryModel>,
                FormatError,
            >(models_of(out@)),
            out@.len() == i,
        decreases n - i,
    {
        proof {
            assert(lines[i as int] == segs@[i as int]@);
        }
        match parse_line(&segs[i], vcols) {
            Ok(e) => {
                let ghost pre = models_of(out@);
                out.push(e);
                proof {
                    assert(lines.take(i as int + 1).drop_last() =~= lines.take(i as int));
                    assert(lines.take(i as int + 1).last() == lines[i as int]);
                    assert(models_of(out@) =~= pre.push(e@));
                }
                i += 1;
            },
            Err(er) => {
                proof {
                    lemma_parse_lines_error(lines, vcols as nat, i as int);
                }
                return Err(er);
            },
        }
    }
    proof {
        assert(lines.take(i as int) =~= lines);
    }
    Ok(out)
}

/// A line body never holds a line feed.
proof fn lemma_body_avoids_lf(e: EntryModel)
    ensures
        avoids(spec_line_body(e), LF),
{
    let cols = spec_escaped_columns(e);
    assert forall|i: int| 0 <= i < cols.len() implies avoids(#[trigger] cols[i], LF) by {
        lemma_escape_avoids(spec_columns(e)[i]);
    }
    lemma_join_avoids(cols, COMMA, LF);
}

/// Joining segments that avoid `b` with a separator other than `b` avoids `b`.
proof fn lemma_join_avoids(xs: Seq<Seq<u8>>, sep: u8, b: u8)
    requires
        sep != b,
        forall|i: int| 0 <= i < xs.len() ==> avoids(#[trigger] xs[i], b),
    ensures
        avoids(spec_join(xs, sep), b),
    decreases xs.len(),
{
    if xs.len() > 1 {
        lemma_join_avoids(xs.drop_last(), sep, b);
        let pre = spec_join(xs.drop_last(), sep);
        let whole = spec_join(xs, sep);
        assert forall|i: int| 0 <= i < whole.len() implies #[trigger] whole[i] != b by {
            if i < pre.len() {
                assert(whole[i] == pre[i]);
            } else if i == pre.len() {
                assert(whole[i] == sep);
            } else {
                assert(whole[i] == xs.last()[i - pre.len() - 1]);
            }
        }
    }
}

/// The journal text is the line bodies joined by line feeds, with a final
/// line feed after the last record.
proof fn lemma_encode_as_join(es: Seq<EntryModel>)
    requires
        es.len() >= 1,
    ensures
        spec_encode_journal(es) == spec_join(
            Seq::new(es.len(), |i: int| spec_line_body(es[i])),
            LF,
        ) + seq![LF],
    decreases es.len(),
{
    let bodies = Seq::new(es.len(), |i: int| spec_line_body(es[i]));
    if es.len() == 1 {
        assert(spec_encode_journal(es.drop_last()) =~= Seq::<u8>::empty());
        assert(spec_encode_journal(es) =~= spec_join(bodies, LF) + seq![LF]);
    } else {
        lemma_encode_as_join(es.drop_last());
        let pre = Seq::new(es.drop_last().len(), |i: int| spec_line_body(es.drop_last()[i]));
        assert(bodies.drop_last() =~= pre);
        assert(spec_join(bodies, LF) == spec_join(pre, LF) + seq![LF] + spec_line_body(es.last()));
        assert(spec_encode_journal(es) =~= spec_join(bodies, LF) + seq![LF]);
    }
}

/// Every escaped column unescapes back to the column.
proof fn lemma_unescape_all_escaped(cols: Seq<Seq<u8>>)
    ensures
        spec_unescape_all(Seq::new(cols.len(), |i: int| spec_escape(cols[i]))) == Some(cols),
    decreases cols.len(),
{
    let esc = Seq::new(cols.len(), |i: int| spec_escape(cols[i]));
    if cols.len() == 0 {
        assert(cols =~= Seq::<Seq<u8>>::empty());
    } else {
        lemma_unescape_all_escaped(cols.drop_last());
        assert(esc.drop_last() =~= Seq::new(
            cols.drop_last().len(),
            |i: int| spec_escape(cols.drop_last()[i]),
        ));
        lemma_unescape_escape(cols.last());
        assert(esc.last() == spec_escape(cols.last()));
        assert(cols.drop_last().push(cols.last()) =~= cols);
    }
}

/// Parsing an encoded line body gives the entry back.
pub proof fn lemma_parse_encode_line(e: EntryModel, vcols: nat)
    requires
        entry_wf(e, vcols),
    ensures
        spec_parse_line(spec_line_body(e), vcols) == Ok::<EntryModel, FormatError>(e),
{
    let cols = spec_columns(e);
    let esc = spec_escaped_columns(e);
    assert forall|i: int| 0 <= i < esc.len() implies avoids(#[trigger] esc[i], COMMA) by {
        lemma_escape_avoids(cols[i]);
    }
    lemma_split_join(esc, COMMA);
    lemma_unescape_all_escaped(cols);
    assert(esc =~= Seq::new(cols.len(), |i: int| spec_escape(cols[i])));
    lemma_decimal_roundtrip(e.record_id as nat);
    assert(cols[0] == spec_decimal(e.record_id as nat));
    assert(cols.skip(1) =~= e.fields);
    assert(spec_value(cols[0]) as u64 == e.record_id);
    assert(spec_parse_line(spec_line_body(e), vcols)->Ok_0 == e);
}

/// Parsing an encoded journal gives the entries back: the round trip that
/// makes re-reading the journal safe.
pub proof fn lemma_parse_encode_journal(es: Seq<EntryModel>, vcols: nat)
    requires
        forall|i: int| 0 <= i < es.len() ==> entry_wf(#[trigger] es[i], vcols),
    ensures
        spec_parse_journal(spec_encode_journal(es), vcols) == Ok::<Seq<EntryModel>, FormatError>(
            es,
        ),
{
    let bodies = Seq::new(es.len(), |i: int| spec_line_body(es[i]));
    if es.len() == 0 {
        assert(spec_encode_journal(es) =~= Seq::<u8>::empty());
        assert(spec_split(Seq::<u8>::empty(), LF).drop_last() =~= Seq::<Seq<u8>>::empty());
        assert(es =~= Seq::<EntryModel>::empty());
    } else {
        lemma_encode_as_join(es);
        assert forall|i: int| 0 <= i < bodies.len() implies avoids(#[trigger] bodies[i], LF) by {
            lemma_body_avoids_lf(es[i]);
        }
        lemma_split_join(bodies, LF);
        lemma_split_append(spec_join(bodies, LF), Seq::<u8>::empty(), LF);
        assert(spec_join(bodies, LF) + seq![LF] + Seq::<u8>::empty() =~= spec_encode_journal(es));
        assert(spec_split(spec_encode_journal(es), LF) == spec_split(
            spec_join(bodies, LF),
            LF,
        ).push(Seq::<u8>::empty()));
        assert(spec_split(spec_encode_journal(es), LF).drop_last() =~= bodies);
        lemma_parse_bodies(es, vcols);
    }
}

/// Parsing the encoded line bodies in order gives the entries in order.
proof fn lemma_parse_bodies(es: Seq<EntryModel>, vcols: nat)
    requires
        forall|i: int| 0 <= i < es.len() ==> entry_wf(#[trigger] es[i], vcols),
    ensures
        spec_parse_lines(Seq::new(es.len(), |i: int| spec_line_body(es[i])), vcols) == Ok::<
            Seq<EntryModel>,
            FormatError,
        >(es),
    decreases es.len(),
{
    let bodies = Seq::new(es.len(), |i: int| spec_line_body(es[i]));
    if es.len() == 0 {
        assert(bodies =~= Seq::<Seq<u8>>::empty());
        assert(es =~= Seq::<EntryModel>::empty());
    } else {
        lemma_parse_bodies(es.drop_last(), vcols);
        let pre_bodies = Seq::new(es.drop_last().len(), |i: int| spec_line_body(es.drop_last()[i]));
        assert(bodies.drop_last() =~= pre_bodies);
        assert(spec_parse_lines(bodies.drop_last(), vcols) == Ok::<Seq<EntryModel>, FormatError>(
            es.drop_last(),
        ));
        assert(entry_wf(es[es.len() - 1], vcols));
        lemma_parse_encode_line(es.last(), vcols);
        assert(bodies.last() == spec_line_body(es.last()));
        assert(spec_parse_lines(bodies, vcols) == Ok::<Seq<EntryModel>, FormatError>(
            es.drop_last().push(es.last()),
        ));
        assert(es.drop_last().push(es.last()) =~= es);
    }
}

/// The sentinel token `NULL`: a value explicitly absent, distinct from "not
/// yet processed", which is absence from the journal altogether.
pub open spec fn spec_sentinel() -> Seq<u8> {
    seq![0x4Eu8, 0x55u8, 0x4Cu8, 0x4Cu8]
}

/// The sentinel token as a fresh field value.
pub fn sentinel_field() -> (r: Vec<u8>)
    ensures
        r@ == spec_sentinel(),
{
    let mut out: Vec<u8> = Vec::new();
    out.push(0x4E);
    out.push(0x55);
    out.push(0x4C);
    out.push(0x4C);
    proof {
        assert(out@ =~= spec_sentinel());
    }
    out
}

/// Whether a field holds exactly the sentinel token.
pub fn is_sentinel_field(f: &Vec<u8>) -> (r: bool)
    ensures
        r == (f@ == spec_sentinel()),
{
    proof {
        assert(spec_sentinel().len() == 4);
        assert(spec_sentinel()[0] == 0x4E);
        assert(spec_sentinel()[1] == 0x55);
        assert(spec_sentinel()[2] == 0x4C);
        assert(spec_sentinel()[3] == 0x4C);
    }
    if f.len() != 4 {
        return false;
    }
    let r = f[0] == 0x4E && f[1] == 0x55 && f[2] == 0x4C && f[3] == 0x4C;
    proof {
        if r {
            assert(f@ =~= spec_sentinel());
        }
    }
    r
}

/// Taking one more entry into view resolves exactly its identifier as well.
pub proof fn lemma_resolved_take_push(es: Seq<EntryModel>, i: int)
    requires
        0 <= i < es.len(),
    ensures
        resolved_ids(es.take(i + 1)) == resolved_ids(es.take(i)).insert(es[i].record_id),
{
    let now = es.take(i + 1);
    let pre = es.take(i);
    assert forall|id: u64| resolved_ids(now).contains(id) implies resolved_ids(pre).insert(
        es[i].record_id,
    ).contains(id) by {
        let k = choose|k: int| 0 <= k < now.len() && now[k].record_id == id;
        if k < i {
            assert(pre[k].record_id == id);
        }
    }
    assert forall|id: u64| resolved_ids(pre).insert(es[i].record_id).contains(id) implies
        resolved_ids(now).contains(id) by {
        if resolved_ids(pre).contains(id) {
            let k = choose|k: int| 0 <= k < pre.len() && pre[k].record_id == id;
            assert(now[k].record_id == id);
        } else {
            assert(now[i].record_id == id);
        }
    }
    assert(resolved_ids(now) =~= resolved_ids(pre).insert(es[i].record_id));
}

/// The set of record identifiers present in a journal.
pub open spec fn resolved_ids(es: Seq<EntryModel>) -> Set<u64> {
    Set::new(|id: u64| exists|i: int| 0 <= i < es.len() && (#[trigger] es[i]).record_id == id)
}

/// The set of record identifiers already resolved, as an executable value
/// used to filter candidate selection.
pub struct ResolvedSet {
    ids: Vec<u64>,
}

impl View for ResolvedSet {
    type V = Set<u64>;

    closed spec fn view(&self) -> Set<u64> {
        self.ids@.to_set()
    }
}

impl ResolvedSet {
    /// The empty set: a journal that does not exist yet resolves nothing.
    pub fn new() -> (r: Self)
        ensures
            r@ == Set::<u64>::empty(),
    {
        let r = ResolvedSet { ids: Vec::new() };
        proof {
            assert(r@ =~= Set::<u64>::empty());
        }
        r
    }

    pub fn contains(&self, id: u64) -> (r: bool)
        ensures
            r == self@.contains(id),
    {
        let mut i: usize = 0;
        while i < self.ids.len()
            invariant
                0 <= i <= self.ids@.len(),
                forall|k: int| 0 <= k < i ==> self.ids@[k] != id,
            decreases self.ids@.len() - i,
        {
            if self.ids[i] == id {
                proof {
                    assert(self.ids@.contains(id));
                }
                return true;
            }
            i += 1;
        }
        proof {
            assert(!self.ids@.contains(id));
        }
        false
    }

    pub fn insert(&mut self, id: u64)
        ensures
            final(self)@ == old(self)@.insert(id),
    {
        if self.contains(id) {
            proof {
                assert(self@ =~= old(self)@.insert(id));
            }
        } else {
            let ghost ids0 = self.ids@;
            self.ids.push(id);
            proof {
                assert forall|x: u64| self.ids@.contains(x) implies ids0.to_set().insert(
                    id,
                ).contains(x) by {
                    let k = choose|k: int| 0 <= k < self.ids@.len() && self.ids@[k] == x;
                    if k < ids0.len() {
                        assert(ids0[k] == x);
                        assert(ids0.contains(x));
                    }
                }
                assert forall|x: u64| ids0.to_set().insert(id).contains(x) implies self.ids@
                    .contains(x) by {
                    if ids0.contains(x) {
                        let k = choose|k: int| 0 <= k < ids0.len() && ids0[k] == x;
                        assert(self.ids@[k] == x);
                    } else {
                        assert(self.ids@[ids0.len() as int] == id);
                    }
                }
                assert(self@ =~= old(self)@.insert(id));
            }
        }
    }

    /// The resolved set of a journal's entries.
    pub fn from_entries(es: &Vec<JournalEntry>) -> (r: Self)
        ensures
            r@ == resolved_ids(models_of(es@)),
    {
        let mut r = ResolvedSet::new();
        let mut i: usize = 0;
        while i < es.len()
            invariant
                0 <= i <= es@.len(),
                r@ == resolved_ids(models_of(es@.take(i as int))),
            decreases es@.len() - i,
        {
            let ghost pre = models_of(es@.take(i as int));
            r.insert(es[i].record_id);
            proof {
                let now = models_of(es@.take(i as int + 1));
                assert forall|id: u64| resolved_ids(now).contains(id) implies resolved_ids(
                    pre,
                ).insert(es@[i as int]@.record_id).contains(id) by {
                    let k = choose|k: int| 0 <= k < now.len() && now[k].record_id == id;
                    if k < i {
                        assert(pre[k].record_id == id);
                    }
                }
                assert forall|id: u64| resolved_ids(pre).insert(
                    es@[i as int]@.record_id,
                ).contains(id) implies resolved_ids(now).contains(id) by {
                    if resolved_ids(pre).contains(id) {
                        let k = choose|k: int| 0 <= k < pre.len() && pre[k].record_id == id;
                        assert(now[k].record_id == id);
                    } else {
                        assert(now[i as int].record_id == id);
                    }
                }
                assert(r@ =~= resolved_ids(now));
            }
            i += 1;
        }
        proof {
            assert(es@.take(i as int) =~= es@);
        }
        r
    }
}

} // verus!
