//! The reference database: its binary form, and how it is put together
//! from a corpus of characters whose sub-strokes lie in one block of bytes.

use crate::matcher::{CharData, SubStrokeTriple};
use vstd::prelude::*;

verus! {

/// The error of `bincode`, of which nothing is looked at.
#[verifier::external_type_specification]
#[verifier::external_body]
pub struct ExErrorKind(bincode::ErrorKind);

/// The error of `base64`, of which nothing is looked at.
#[verifier::external_type_specification]
#[verifier::external_body]
pub struct ExDecodeError(base64::DecodeError);

/// A reference character as plain values: the character, its stroke
/// count, and for each sub-stroke the direction, the length and the
/// center.
pub type Record = (char, u16, Vec<(u8, u8, u8)>);

/// What `bincode::deserialize` reads from `bytes` as a list of records:
/// nothing, if it reports an error.
pub uninterp spec fn bincode_decoded(bytes: Seq<u8>) -> Option<Seq<(char, u16, Seq<(u8, u8, u8)>)>>;

/// What `bincode::serialize` writes for a list of records: nothing, if it
/// reports an error.
pub uninterp spec fn bincode_encoded(records: Seq<(char, u16, Seq<(u8, u8, u8)>)>) -> Option<
    Seq<u8>,
>;

/// What `base64::decode` reads from `text`: nothing, if it reports an
/// error.
pub uninterp spec fn base64_decoded(text: Seq<char>) -> Option<Seq<u8>>;

/// Calls `bincode::deserialize` for a list of records. The call succeeds
/// exactly when [`bincode_decoded`] is something, and then returns that.
#[verifier::external_body]
fn bincode_deserialize(bytes: &[u8]) -> (res: Result<Vec<Record>, Box<bincode::ErrorKind>>)
    ensures
        res is Ok <==> bincode_decoded(bytes@) is Some,
        res is Ok ==> Some(res->Ok_0.deep_view()) == bincode_decoded(bytes@),
{
    bincode::deserialize(bytes)
}

/// Calls `bincode::serialize` on a list of records. The call succeeds
/// exactly when [`bincode_encoded`] is something, and then returns that.
/// What it writes, `bincode::deserialize` reads back as the same records.
#[verifier::external_body]
fn bincode_serialize(records: &Vec<Record>) -> (res: Result<Vec<u8>, Box<bincode::ErrorKind>>)
    ensures
        res is Ok <==> bincode_encoded(records.deep_view()) is Some,
        res is Ok ==> Some(res->Ok_0@) == bincode_encoded(records.deep_view()),
        res is Ok ==> bincode_decoded(res->Ok_0@) == Some(records.deep_view()),
{
    bincode::serialize(records)
}

/// Calls `base64::decode`. The call succeeds exactly when
/// [`base64_decoded`] is something, and then returns that.
#[verifier::external_body]
fn base64_decode(text: &str) -> (res: Result<Vec<u8>, base64::DecodeError>)
    ensures
        res is Ok <==> base64_decoded(text@) is Some,
        res is Ok ==> Some(res->Ok_0@) == base64_decoded(text@),
{
    base64::decode(text)
}

/// Why a database could not be read or written.
#[derive(Debug, Clone, Copy, PartialEq, Eq, Structural)]
pub enum DatabaseError {
    /// The bytes are not the binary form of a database.
    Corrupt,
    /// The database has no binary form.
    Unwritable,
}

/// Why a corpus could not be turned into a database.
#[derive(Debug, Clone, Copy, PartialEq, Eq, Structural)]
pub enum CorpusError {
    /// The block of sub-strokes is not valid base64.
    Encoding,
    /// A character's sub-strokes reach beyond the end of the block.
    OutOfRange,
}

/// The direction, the length and the center of a sub-stroke.
pub open spec fn values_of(triple: SubStrokeTriple) -> (u8, u8, u8) {
    (triple.dir, triple.length, triple.center)
}

/// The record that describes a reference character.
pub open spec fn record_of(data: CharData) -> (char, u16, Seq<(u8, u8, u8)>) {
    (
        data.hanzi,
        data.stroke_count,
        data.sub_strokes@.map_values(|triple: SubStrokeTriple| values_of(triple)),
    )
}

/// The records that describe the reference characters, in the same order.
pub open spec fn records_of(char_data: Seq<CharData>) -> Seq<(char, u16, Seq<(u8, u8, u8)>)> {
    char_data.map_values(|data: CharData| record_of(data))
}

/// The character of a record.
fn hanzi_of(record: &Record) -> (hanzi: char)
    ensures
        hanzi == record.0,
{
    record.0
}

/// Turns records into reference characters.
pub fn from_records(records: &Vec<Record>) -> (char_data: Vec<CharData>)
    ensures
        records_of(char_data@) == records.deep_view(),
{
    let mut res: Vec<CharData> = Vec::new();
    let mut i: usize = 0;
    while i < records.len()
        invariant
            0 <= i <= records@.len(),
            res@.len() == i,
            records.deep_view().len() == records@.len(),
            forall|k: int| 0 <= k < i ==> record_of(#[trigger] res@[k]) == records.deep_view()[k],
        decreases records@.len() - i,
    {
        let record = &records[i];
        let values = &record.2;
        let mut sub_strokes: Vec<SubStrokeTriple> = Vec::new();
        let mut j: usize = 0;
        while j < values.len()
            invariant
                0 <= j <= values@.len(),
                sub_strokes@.len() == j,
                forall|k: int| 0 <= k < j ==> values_of(#[trigger] sub_strokes@[k]) == values@[k],
            decreases values@.len() - j,
        {
            let value = values[j];
            sub_strokes.push(SubStrokeTriple { dir: value.0, length: value.1, center: value.2 });
            j += 1;
        }
        proof {
            let deep = records.deep_view()[i as int];
            assert(deep.0 == record.0 && deep.1 == record.1);
            assert(deep.2 =~= values@);
            assert(sub_strokes@.map_values(|triple: SubStrokeTriple| values_of(triple)) =~= deep.2);
        }
        res.push(CharData { hanzi: hanzi_of(record), stroke_count: record.1, sub_strokes });
        i += 1;
    }
    assert(records_of(res@) =~= records.deep_view());
    res
}

/// Turns reference characters into records.
pub fn to_records(char_data: &Vec<CharData>) -> (records: Vec<Record>)
    ensures
        records.deep_view() == records_of(char_data@),
{
    let mut res: Vec<Record> = Vec::new();
    let mut i: usize = 0;
    while i < char_data.len()
        invariant
            0 <= i <= char_data@.len(),
            res@.len() == i,
            res.deep_view().len() == i,
            forall|k: int| 0 <= k < i ==> record_of(#[trigger] char_data@[k]) == res.deep_view()[k],
        decreases char_data@.len() - i,
    {
        let data = &char_data[i];
        let mut values: Vec<(u8, u8, u8)> = Vec::new();
        let mut j: usize = 0;
        while j < data.sub_strokes.len()
            invariant
                0 <= j <= data.sub_strokes@.len(),
                values@.len() == j,
                forall|k: int|
                    0 <= k < j ==> values_of(data.sub_strokes@[k]) == #[trigger] values@[k],
            decreases data.sub_strokes@.len() - j,
        {
            let triple = data.sub_strokes[j];
            values.push((triple.dir, triple.length, triple.center));
            j += 1;
        }
        let ghost before = res.deep_view();
        let ghost plain = values@;
        res.push((data.hanzi, data.stroke_count, values));
        proof {
            let deep = res.deep_view();
            assert(deep.len() == i + 1);
            assert forall|k: int| 0 <= k < i + 1 implies record_of(#[trigger] char_data@[k])
                == deep[k] by {
                if k < i {
                    assert(deep[k] == before[k]);
                } else {
                    assert(deep[k].2 =~= plain);
                    assert(data.sub_strokes@.map_values(|triple: SubStrokeTriple| values_of(triple))
                        =~= deep[k].2);
                }
            }
        }
        i += 1;
    }
    assert(res.deep_view() =~= records_of(char_data@));
    res
}

/// Reads a database from its binary form: a list of reference characters,
/// each with its character, its stroke count and the list of its
/// sub-strokes of three bytes each.
pub fn load_strokes(bytes: &[u8]) -> (res: Result<Vec<CharData>, DatabaseError>)
    ensures
        res is Ok <==> bincode_decoded(bytes@) is Some,
        res is Ok ==> Some(records_of(res->Ok_0@)) == bincode_decoded(bytes@),
        res is Err ==> res->Err_0 == DatabaseError::Corrupt,
{
    match bincode_deserialize(bytes) {
        Ok(records) => Ok(from_records(&records)),
        Err(_) => Err(DatabaseError::Corrupt),
    }
}

/// Writes a database in its binary form. What is written,
/// [`load_strokes`] reads back as the same characters.
pub fn save_strokes(char_data: &Vec<CharData>) -> (res: Result<Vec<u8>, DatabaseError>)
    ensures
        res is Ok <==> bincode_encoded(records_of(char_data@)) is Some,
        res is Ok ==> Some(res->Ok_0@) == bincode_encoded(records_of(char_data@)),
        res is Ok ==> bincode_decoded(res->Ok_0@) == Some(records_of(char_data@)),
        res is Err ==> res->Err_0 == DatabaseError::Unwritable,
{
    let records = to_records(char_data);
    match bincode_serialize(&records) {
        Ok(bytes) => Ok(bytes),
        Err(_) => Err(DatabaseError::Unwritable),
    }
}

/// One character of a corpus: its sub-strokes are the `sub_stroke_count`
/// groups of three bytes that begin at the offset `start` of the corpus'
/// block of sub-strokes.
#[derive(Debug, Clone, Copy, PartialEq, Eq, Structural)]
pub struct CorpusChar {
    pub hanzi: char,
    pub stroke_count: u16,
    pub sub_stroke_count: u64,
    pub start: u64,
}

/// Whether the sub-strokes of the corpus character lie within a block of
/// `len` bytes.
pub open spec fn within_block(entry: CorpusChar, len: int) -> bool {
    entry.start + 3 * entry.sub_stroke_count <= len
}

/// The sub-strokes of a corpus character in the block `bytes`.
pub open spec fn triples_at(bytes: Seq<u8>, entry: CorpusChar) -> Seq<SubStrokeTriple> {
    Seq::new(
        entry.sub_stroke_count as nat,
        |k: int|
            SubStrokeTriple {
                dir: bytes[entry.start + 3 * k],
                length: bytes[entry.start + 3 * k + 1],
                center: bytes[entry.start + 3 * k + 2],
            },
    )
}

/// The reference character is the corpus character with its sub-strokes
/// from the block `bytes`.
pub open spec fn is_assembled(data: CharData, bytes: Seq<u8>, entry: CorpusChar) -> bool {
    &&& data.hanzi == entry.hanzi
    &&& data.stroke_count == entry.stroke_count
    &&& data.sub_strokes@ == triples_at(bytes, entry)
}

/// Puts the reference characters of a corpus together from its
/// characters and its block of sub-strokes.
pub fn assemble(chars: &Vec<CorpusChar>, bytes: &Vec<u8>) -> (res: Result<
    Vec<CharData>,
    CorpusError,
>)
    ensures
        res is Ok <==> forall|i: int|
            0 <= i < chars@.len() ==> within_block(#[trigger] chars@[i], bytes@.len() as int),
        res is Ok ==> res->Ok_0@.len() == chars@.len() && forall|i: int|
            0 <= i < chars@.len() ==> is_assembled(#[trigger] res->Ok_0@[i], bytes@, chars@[i]),
        res is Err ==> res->Err_0 == CorpusError::OutOfRange,
{
    let mut res: Vec<CharData> = Vec::new();
    let mut i: usize = 0;
    while i < chars.len()
        invariant
            0 <= i <= chars@.len(),
            res@.len() == i,
            forall|k: int| 0 <= k < i ==> within_block(#[trigger] chars@[k], bytes@.len() as int),
            forall|k: int| 0 <= k < i ==> is_assembled(#[trigger] res@[k], bytes@, chars@[k]),
        decreases chars@.len() - i,
    {
        let entry = chars[i];
        let len: u64 = bytes.len() as u64;
        assert(bytes@.len() <= usize::MAX);
        assert(bytes@.len() <= usize::MAX);
        if entry.start > len || entry.sub_stroke_count > (len - entry.start) / 3 {
            assert(!within_block(chars@[i as int], bytes@.len() as int));
            return Err(CorpusError::OutOfRange);
        }
        let mut sub_strokes: Vec<SubStrokeTriple> = Vec::new();
        let mut cnt: u64 = 0;
        while cnt < entry.sub_stroke_count
            invariant
                0 <= cnt <= entry.sub_stroke_count,
                entry.start + 3 * entry.sub_stroke_count <= bytes@.len() <= usize::MAX,
                sub_strokes@.len() == cnt,
                forall|k: int|
                    0 <= k < cnt ==> #[trigger] sub_strokes@[k] == triples_at(bytes@, entry)[k],
            decreases entry.sub_stroke_count - cnt,
        {
            let at: usize = (entry.start + cnt * 3) as usize;
            sub_strokes.push(
                SubStrokeTriple { dir: bytes[at], length: bytes[at + 1], center: bytes[at + 2] },
            );
            cnt += 1;
        }
        assert(sub_strokes@ =~= triples_at(bytes@, entry));
        res.push(CharData { hanzi: entry.hanzi, stroke_count: entry.stroke_count, sub_strokes });
        i += 1;
    }
    Ok(res)
}

/// Turns a corpus into reference characters. The block of sub-strokes
/// comes as base64 text.
pub fn parse_json_strokes(chars: &Vec<CorpusChar>, substrokes: &str) -> (res: Result<
    Vec<CharData>,
    CorpusError,
>)
    ensures
        res is Ok <==> base64_decoded(substrokes@) is Some && forall|i: int|
            0 <= i < chars@.len() ==> within_block(
                #[trigger] chars@[i],
                base64_decoded(substrokes@)->Some_0.len() as int,
            ),
        res is Ok ==> res->Ok_0@.len() == chars@.len() && forall|i: int|
            0 <= i < chars@.len() ==> is_assembled(
                #[trigger] res->Ok_0@[i],
                base64_decoded(substrokes@)->Some_0,
                chars@[i],
            ),
        res is Err ==> (res->Err_0 == CorpusError::Encoding <==> base64_decoded(substrokes@)
            is None),
{
    match base64_decode(substrokes) {
        Ok(bytes) => {
            match assemble(chars, &bytes) {
                Ok(char_data) => Ok(char_data),
                Err(e) => Err(e),
            }
        },
        Err(_) => Err(CorpusError::Encoding),
    }
}

} // verus!
