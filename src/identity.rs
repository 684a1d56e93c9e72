//! The account and group databases: colon-separated records, one per line,
//! read into a map from name to numeric identifier.
use vstd::prelude::*;
use vstd::string::StringSliceAdditionalSpecFns;
use crate::number::{NumberError, number_value, parse_u32};

verus! {

/// Ends a line.
pub const NEWLINE: u8 = 10;
/// Dropped from before a newline.
pub const CARRIAGE_RETURN: u8 = 13;
/// Separates the fields of a record.
pub const COLON: u8 = 58;

/// Splits `s` at every `sep`, as `str::split` does: `n` separators give `n + 1`
/// pieces, empty ones included.
pub open spec fn split_at_byte(s: Seq<u8>, sep: u8) -> Seq<Seq<u8>>
    decreases s.len(),
{
    if s.len() == 0 {
        seq![Seq::empty()]
    } else {
        let p = split_at_byte(s.drop_last(), sep);
        if s.last() == sep {
            p.push(Seq::empty())
        } else {
            p.update(p.len() - 1, p.last().push(s.last()))
        }
    }
}

proof fn lemma_split_nonempty(s: Seq<u8>, sep: u8)
    ensures
        split_at_byte(s, sep).len() >= 1,
    decreases s.len(),
{
    if s.len() > 0 {
        lemma_split_nonempty(s.drop_last(), sep);
    }
}

/// The `i`-th line of a text split at newlines: a line ended by a newline
/// loses one carriage return before it, as with `str::lines`.
pub open spec fn line_at(pieces: Seq<Seq<u8>>, i: int) -> Seq<u8> {
    if i + 1 < pieces.len() && pieces[i].len() > 0 && pieces[i].last() == CARRIAGE_RETURN {
        pieces[i].drop_last()
    } else {
        pieces[i]
    }
}

/// The lines of `text`; empty ones are kept here and skipped by the parser.
pub open spec fn text_lines(text: Seq<u8>) -> Seq<Seq<u8>> {
    let pieces = split_at_byte(text, NEWLINE);
    Seq::new(pieces.len(), |i: int| line_at(pieces, i))
}

/// Why a database could not be read into a map.
#[derive(Debug, PartialEq, Eq)]
pub enum IdentityError {
    /// The record of this name has fewer than three fields.
    MissingIdentityField(Vec<u8>),
    /// The third field of this name's record is not a `u32`.
    MalformedIdentityField(Vec<u8>, NumberError),
}

/// What an [`IdentityError`] says, over plain sequences.
pub enum IdentityFault {
    MissingIdentityField(Seq<u8>),
    MalformedIdentityField(Seq<u8>, NumberError),
}

impl View for IdentityError {
    type V = IdentityFault;

    open spec fn view(&self) -> IdentityFault {
        match self {
            IdentityError::MissingIdentityField(n) => IdentityFault::MissingIdentityField(n@),
            IdentityError::MalformedIdentityField(n, e) => IdentityFault::MalformedIdentityField(n@, *e),
        }
    }
}

/// One non-empty line read as a record: field 0 is the name, field 2 the
/// identifier in decimal; the other fields are not read.
pub open spec fn record_of(line: Seq<u8>) -> Result<(Seq<u8>, u32), IdentityFault> {
    let fields = split_at_byte(line, COLON);
    let name = fields[0];
    if fields.len() < 3 {
        Err(IdentityFault::MissingIdentityField(name))
    } else {
        match number_value(fields[2], 10) {
            Err(e) => Err(IdentityFault::MalformedIdentityField(name, e)),
            Ok(id) => Ok((name, id)),
        }
    }
}

/// The lines read in order: empty lines are skipped, the first bad record
/// ends the reading, and a later record of a name replaces an earlier one.
pub open spec fn records_map(lines: Seq<Seq<u8>>) -> Result<Map<Seq<u8>, u32>, IdentityFault>
    decreases lines.len(),
{
    if lines.len() == 0 {
        Ok(Map::empty())
    } else {
        match records_map(lines.drop_last()) {
            Err(e) => Err(e),
            Ok(m) => if lines.last().len() == 0 {
                Ok(m)
            } else {
                match record_of(lines.last()) {
                    Err(e) => Err(e),
                    Ok(r) => Ok(m.insert(r.0, r.1)),
                }
            },
        }
    }
}

/// What a whole database text reads as.
pub open spec fn database_of(text: Seq<u8>) -> Result<Map<Seq<u8>, u32>, IdentityFault> {
    records_map(text_lines(text))
}

/// The map that a sequence of records gives when each later one wins.
pub open spec fn map_of(entries: Seq<(Seq<u8>, u32)>) -> Map<Seq<u8>, u32>
    decreases entries.len(),
{
    if entries.len() == 0 {
        Map::empty()
    } else {
        map_of(entries.drop_last()).insert(entries.last().0, entries.last().1)
    }
}

/// Names mapped to numeric identifiers, as read from one database.
pub struct IdentityMap {
    entries: Vec<(Vec<u8>, u32)>,
}

impl IdentityMap {
    /// The records kept, in the order read.
    pub closed spec fn records(&self) -> Seq<(Seq<u8>, u32)> {
        self.entries@.map_values(|e: (Vec<u8>, u32)| (e.0@, e.1))
    }
}

impl View for IdentityMap {
    type V = Map<Seq<u8>, u32>;

    closed spec fn view(&self) -> Map<Seq<u8>, u32> {
        map_of(self.records())
    }
}

/// The contents of each byte vector.
pub open spec fn byte_views(v: Seq<Vec<u8>>) -> Seq<Seq<u8>> {
    v.map_values(|p: Vec<u8>| p@)
}

/// Splits `s@.take(end)` at every `sep`.
fn split_bytes(s: &[u8], end: usize, sep: u8) -> (r: Vec<Vec<u8>>)
    requires
        end <= s@.len(),
    ensures
        byte_views(r@) == split_at_byte(s@.take(end as int), sep),
{
    let mut pieces: Vec<Vec<u8>> = Vec::new();
    let mut cur: Vec<u8> = Vec::new();
    let mut i: usize = 0;
    assert(s@.take(0) =~= Seq::<u8>::empty());
    while i < end
        invariant
            i <= end <= s@.len(),
            byte_views(pieces@).push(cur@) == split_at_byte(s@.take(i as int), sep),
        decreases end - i,
    {
        let ghost before = split_at_byte(s@.take(i as int), sep);
        assert(s@.take(i + 1).drop_last() =~= s@.take(i as int));
        let c = s[i];
        if c == sep {
            let ghost old_pieces = pieces@;
            let done = cur;
            pieces.push(done);
            cur = Vec::new();
            assert(byte_views(pieces@) =~= byte_views(old_pieces).push(done@));
            assert(byte_views(pieces@).push(cur@) =~= before.push(Seq::empty()));
        } else {
            cur.push(c);
            assert(byte_views(pieces@).push(cur@) =~= before.update(before.len() - 1, before.last().push(c)));
        }
        i = i + 1;
    }
    let ghost old_pieces = pieces@;
    let ghost last = cur@;
    pieces.push(cur);
    assert(byte_views(pieces@) =~= byte_views(old_pieces).push(last));
    assert(s@.take(end as int) =~= s@.take(i as int));
    pieces
}

/// Whether two byte strings are equal.
fn same_bytes(a: &[u8], b: &[u8]) -> (r: bool)
    ensures
        r == (a@ == b@),
{
    if a.len() != b.len() {
        return false;
    }
    let mut i: usize = 0;
    while i < a.len()
        invariant
            i <= a@.len() == b@.len(),
            forall|j: int| 0 <= j < i ==> a@[j] == b@[j],
        decreases a@.len() - i,
    {
        if a[i] != b[i] {
            return false;
        }
        i = i + 1;
    }
    assert(a@ =~= b@);
    true
}

proof fn lemma_map_of_absent(entries: Seq<(Seq<u8>, u32)>, n: int, k: Seq<u8>)
    requires
        0 <= n <= entries.len(),
        forall|j: int| n <= j < entries.len() ==> #[trigger] entries[j].0 != k,
    ensures
        map_of(entries).contains_key(k) == map_of(entries.take(n)).contains_key(k),
        map_of(entries).contains_key(k) ==> map_of(entries)[k] == map_of(entries.take(n))[k],
    decreases entries.len() - n,
{
    if n < entries.len() {
        let t = entries.take(n + 1);
        assert(t.drop_last() =~= entries.take(n));
        lemma_map_of_absent(entries, n + 1, k);
    } else {
        assert(entries.take(n) =~= entries);
    }
}

impl IdentityMap {
    /// The identifier of `name`: that of the last record of that name.
    pub fn get(&self, name: &str) -> (r: Option<u32>)
        ensures
            r is Some <==> self@.contains_key(name.spec_bytes()),
            r matches Some(id) ==> self@[name.spec_bytes()] == id,
    {
        let key = name.as_bytes();
        let ghost recs = self.records();
        let mut i: usize = self.entries.len();
        while i > 0
            invariant
                i <= self.entries@.len(),
                recs == self.records(),
                key@ == name.spec_bytes(),
                forall|j: int| i <= j < recs.len() ==> #[trigger] recs[j].0 != key@,
            decreases i,
        {
            let e = &self.entries[i - 1];
            if same_bytes(e.0.as_slice(), key) {
                proof {
                    lemma_map_of_absent(recs, i as int, key@);
                    assert(recs.take(i as int).drop_last() =~= recs.take(i - 1));
                }
                return Some(e.1);
            }
            i = i - 1;
        }
        proof {
            lemma_map_of_absent(recs, 0, key@);
        }
        None
    }
}

/// Once a prefix of the lines fails, every longer prefix fails the same way.
proof fn lemma_records_error_persists(lines: Seq<Seq<u8>>, n: int, m: int)
    requires
        0 <= n <= m <= lines.len(),
        records_map(lines.take(n)) is Err,
    ensures
        records_map(lines.take(m)) == records_map(lines.take(n)),
    decreases m - n,
{
    if m > n {
        lemma_records_error_persists(lines, n, m - 1);
        assert(lines.take(m).drop_last() =~= lines.take(m - 1));
    }
}

proof fn lemma_map_of_push(entries: Seq<(Seq<u8>, u32)>, e: (Seq<u8>, u32))
    ensures
        map_of(entries.push(e)) == map_of(entries).insert(e.0, e.1),
{
    assert(entries.push(e).drop_last() =~= entries);
}

/// Reads a database text: one record per line, fields separated by `:`,
/// the name in field 0 and the identifier in field 2; empty lines are skipped.
/// The first bad record fails the whole reading; a later record of a name
/// replaces an earlier one.
pub fn parse_identity_db(text: &str) -> (r: Result<IdentityMap, IdentityError>)
    ensures
        r is Ok <==> database_of(text.spec_bytes()) is Ok,
        r matches Ok(m) ==> database_of(text.spec_bytes()) == Ok::<Map<Seq<u8>, u32>, IdentityFault>(m@),
        r matches Err(e) ==> database_of(text.spec_bytes()) == Err::<Map<Seq<u8>, u32>, IdentityFault>(e@),
{
    let bytes = text.as_bytes();
    let pieces = split_bytes(bytes, bytes.len(), NEWLINE);
    assert(bytes@.take(bytes@.len() as int) =~= bytes@);
    let ghost all = byte_views(pieces@);
    let ghost lines = text_lines(bytes@);
    let mut entries: Vec<(Vec<u8>, u32)> = Vec::new();
    let mut i: usize = 0;
    assert(lines.take(0) =~= Seq::<Seq<u8>>::empty());
    while i < pieces.len()
        invariant
            i <= pieces@.len(),
            all == byte_views(pieces@),
            all == split_at_byte(bytes@, NEWLINE),
            lines == text_lines(bytes@),
            bytes@ == text.spec_bytes(),
            records_map(lines.take(i as int)) == Ok::<Map<Seq<u8>, u32>, IdentityFault>(
                map_of(entries@.map_values(|e: (Vec<u8>, u32)| (e.0@, e.1))),
            ),
        decreases pieces@.len() - i,
    {
        let ghost prev = entries@.map_values(|e: (Vec<u8>, u32)| (e.0@, e.1));
        let ghost upto = lines.take(i + 1);
        assert(upto.drop_last() =~= lines.take(i as int));
        assert(upto.last() == line_at(all, i as int));
        let piece = &pieces[i];
        let mut end: usize = piece.len();
        if i + 1 < pieces.len() && end > 0 && piece[end - 1] == CARRIAGE_RETURN {
            end = end - 1;
        }
        assert(piece@.take(end as int) =~= upto.last());
        if end > 0 {
            let mut fields = split_bytes(piece.as_slice(), end, COLON);
            proof {
                lemma_split_nonempty(upto.last(), COLON);
            }
            assert(byte_views(fields@)[0] == fields@[0]@);
            if fields.len() < 3 {
                let name = fields.remove(0);
                proof {
                    lemma_records_error_persists(lines, i + 1, lines.len() as int);
                    assert(lines.take(lines.len() as int) =~= lines);
                }
                return Err(IdentityError::MissingIdentityField(name));
            }
            assert(byte_views(fields@)[2] == fields@[2]@);
            match parse_u32(fields[2].as_slice(), 10) {
                Err(e) => {
                    let name = fields.remove(0);
                    proof {
                        lemma_records_error_persists(lines, i + 1, lines.len() as int);
                        assert(lines.take(lines.len() as int) =~= lines);
                    }
                    return Err(IdentityError::MalformedIdentityField(name, e));
                },
                Ok(id) => {
                    let name = fields.remove(0);
                    entries.push((name, id));
                    proof {
                        let now = entries@.map_values(|e: (Vec<u8>, u32)| (e.0@, e.1));
                        assert(now =~= prev.push((name@, id)));
                        lemma_map_of_push(prev, (name@, id));
                    }
                },
            }
        }
        i = i + 1;
    }
    assert(lines.take(i as int) =~= lines);
    let m = IdentityMap { entries };
    assert(m.records() =~= entries@.map_values(|e: (Vec<u8>, u32)| (e.0@, e.1)));
    Ok(m)
}

/// Whether line `i` of `lines` is a record named `name`.
pub open spec fn names_at(lines: Seq<Seq<u8>>, i: int, name: Seq<u8>) -> bool {
    lines[i].len() > 0 && record_of(lines[i]) is Ok && record_of(lines[i])->Ok_0.0 == name
}

/// Every non-empty line is a record with at least three fields and a decimal identifier.
pub open spec fn all_records_well_formed(lines: Seq<Seq<u8>>) -> bool {
    forall|i: int| 0 <= i < lines.len() && lines[i].len() > 0 ==> #[trigger] record_of(lines[i]) is Ok
}

proof fn lemma_records_last_wins(lines: Seq<Seq<u8>>)
    requires
        all_records_well_formed(lines),
    ensures
        records_map(lines) is Ok,
        forall|name: Seq<u8>| #[trigger] records_map(lines)->Ok_0.contains_key(name)
            <==> exists|i: int| 0 <= i < lines.len() && #[trigger] names_at(lines, i, name),
        forall|i: int, name: Seq<u8>|
            0 <= i < lines.len() && #[trigger] names_at(lines, i, name)
            && (forall|j: int| i < j < lines.len() ==> !#[trigger] names_at(lines, j, name))
            ==> records_map(lines)->Ok_0[name] == record_of(lines[i])->Ok_0.1,
    decreases lines.len(),
{
    if lines.len() > 0 {
        let init = lines.drop_last();
        let n = lines.len() - 1;
        assert forall|i: int| 0 <= i < init.len() && init[i].len() > 0 implies #[trigger] record_of(init[i]) is Ok by {
            assert(init[i] == lines[i]);
        }
        lemma_records_last_wins(init);
        let m = records_map(init)->Ok_0;
        assert forall|i: int, name: Seq<u8>| 0 <= i < init.len() implies
            #[trigger] names_at(init, i, name) == names_at(lines, i, name) by {
            assert(init[i] == lines[i]);
        }
        assert forall|name: Seq<u8>| #[trigger] records_map(lines)->Ok_0.contains_key(name)
            <==> exists|i: int| 0 <= i < lines.len() && #[trigger] names_at(lines, i, name) by {
            if records_map(lines)->Ok_0.contains_key(name) {
                if names_at(lines, n, name) {
                } else {
                    let i = choose|i: int| 0 <= i < init.len() && #[trigger] names_at(init, i, name);
                    assert(names_at(lines, i, name));
                }
            }
            if exists|i: int| 0 <= i < lines.len() && #[trigger] names_at(lines, i, name) {
                let i = choose|i: int| 0 <= i < lines.len() && #[trigger] names_at(lines, i, name);
                if i < n {
                    assert(names_at(init, i, name));
                }
            }
        }
        assert forall|i: int, name: Seq<u8>|
            0 <= i < lines.len() && #[trigger] names_at(lines, i, name)
            && (forall|j: int| i < j < lines.len() ==> !#[trigger] names_at(lines, j, name))
            implies records_map(lines)->Ok_0[name] == record_of(lines[i])->Ok_0.1 by {
            if i < n {
                assert(!names_at(lines, n, name));
                assert(names_at(init, i, name));
                assert forall|j: int| i < j < init.len() implies !#[trigger] names_at(init, j, name) by {
                    assert(!names_at(lines, j, name));
                }
            }
        }
    }
}

/// When every non-empty line of `text` is a well-formed record, the reading
/// succeeds and holds exactly the names of those records, each with the
/// identifier of its last record.
pub proof fn lemma_last_record_wins(text: Seq<u8>)
    requires
        all_records_well_formed(text_lines(text)),
    ensures
        database_of(text) is Ok,
        forall|name: Seq<u8>| #[trigger] database_of(text)->Ok_0.contains_key(name)
            <==> exists|i: int| 0 <= i < text_lines(text).len() && #[trigger] names_at(text_lines(text), i, name),
        forall|i: int, name: Seq<u8>|
            0 <= i < text_lines(text).len() && #[trigger] names_at(text_lines(text), i, name)
            && (forall|j: int| i < j < text_lines(text).len() ==> !#[trigger] names_at(text_lines(text), j, name))
            ==> database_of(text)->Ok_0[name] == record_of(text_lines(text)[i])->Ok_0.1,
{
    lemma_records_last_wins(text_lines(text));
}

/// A single bad record anywhere in `text` (too few fields, or an identifier
/// that is not a decimal `u32`) makes the whole reading fail: no map is given.
pub proof fn lemma_bad_record_fails(text: Seq<u8>, i: int)
    requires
        0 <= i < text_lines(text).len(),
        text_lines(text)[i].len() > 0,
        record_of(text_lines(text)[i]) is Err,
    ensures
        database_of(text) is Err,
{
    let lines = text_lines(text);
    assert(lines.take(i + 1).drop_last() =~= lines.take(i));
    assert(records_map(lines.take(i + 1)) is Err);
    lemma_records_error_persists(lines, i + 1, lines.len() as int);
    assert(lines.take(lines.len() as int) =~= lines);
}

} // verus!
