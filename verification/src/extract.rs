//! Selecting parts of a line by a position list: bytes, grapheme clusters
//! or the fields of a delimited record.

use csv::StringRecord;
use std::ops::Range;
use unicode_segmentation::UnicodeSegmentation;
use vstd::prelude::*;
use vstd::string::*;
use vstd::utf8::{
    decode_utf8,
    encode_utf8,
    encode_utf8_decode_utf8,
    encode_utf8_valid_utf8,
    valid_utf8,
};
use crate::text::{decode_lossy, utf8_lossy};

verus! {

/// The items of `items` that the range `r` reaches: those from `r.start`
/// up to `r.end`, as far as `items` has them.
pub open spec fn slice_of<T>(items: Seq<T>, r: Range<usize>) -> Seq<T> {
    let lo = if r.start <= items.len() { r.start as int } else { items.len() as int };
    let hi = if r.end <= items.len() { r.end as int } else { items.len() as int };
    if lo < hi {
        items.subrange(lo, hi)
    } else {
        Seq::empty()
    }
}

/// What a position list selects from `items`: the slice of each range, one
/// after the other in the order of the list.
pub open spec fn select<T>(items: Seq<T>, ranges: Seq<Range<usize>>) -> Seq<T>
    decreases ranges.len(),
{
    if ranges.len() == 0 {
        Seq::empty()
    } else {
        select(items, ranges.drop_last()) + slice_of(items, ranges.last())
    }
}

/// The texts of a sequence of string slices.
pub open spec fn texts_of(parts: Seq<&str>) -> Seq<Seq<char>> {
    Seq::new(parts.len(), |i: int| parts[i]@)
}

/// The smaller of `a` and `b`.
fn at_most(a: usize, b: usize) -> (m: usize)
    ensures
        m == if a <= b { a } else { b },
{
    if a <= b {
        a
    } else {
        b
    }
}

/// One more range of the list has been handled.
proof fn lemma_select_next<T>(items: Seq<T>, ranges: Seq<Range<usize>>, k: int)
    requires
        0 <= k < ranges.len(),
    ensures
        select(items, ranges.take(k + 1)) == select(items, ranges.take(k)) + slice_of(
            items,
            ranges[k],
        ),
{
    assert(ranges.take(k + 1).drop_last() =~= ranges.take(k));
}

/// A list followed by another selects what the first selects and then
/// what the second selects: the order of the ranges is kept, and a range
/// given twice yields its items twice.
pub proof fn lemma_select_concat<T>(
    items: Seq<T>,
    first: Seq<Range<usize>>,
    second: Seq<Range<usize>>,
)
    ensures
        select(items, first + second) == select(items, first) + select(items, second),
    decreases second.len(),
{
    if second.len() == 0 {
        assert(first + second =~= first);
        assert(select(items, first) + select(items, second) =~= select(items, first));
    } else {
        assert((first + second).drop_last() =~= first + second.drop_last());
        lemma_select_concat(items, first, second.drop_last());
        assert(select(items, first + second) =~= select(items, first) + select(items, second));
    }
}

/// A list of one range selects the slice of that range.
pub proof fn lemma_select_one<T>(items: Seq<T>, r: Range<usize>)
    ensures
        select(items, seq![r]) == slice_of(items, r),
{
    assert(seq![r].drop_last() =~= Seq::<Range<usize>>::empty());
    assert(select(items, seq![r].drop_last()) =~= Seq::<T>::empty());
    assert(select(items, seq![r]) =~= slice_of(items, r));
}

/// The bytes that `ranges` selects from `bytes`.
pub fn select_bytes(bytes: &[u8], ranges: &[Range<usize>]) -> (picked: Vec<u8>)
    ensures
        picked@ == select(bytes@, ranges@),
{
    let n = bytes.len();
    let mut picked: Vec<u8> = Vec::new();
    let mut k: usize = 0;
    while k < ranges.len()
        invariant
            k <= ranges.len(),
            n == bytes@.len(),
            picked@ == select(bytes@, ranges@.take(k as int)),
        decreases ranges.len() - k,
    {
        let lo = at_most(ranges[k].start, n);
        let hi = at_most(ranges[k].end, n);
        let ghost before = picked@;
        let mut i: usize = lo;
        while i < hi
            invariant
                lo <= i,
                hi <= n,
                i <= hi || i == lo,
                n == bytes@.len(),
                picked@ == before + bytes@.subrange(lo as int, i as int),
            decreases hi - i,
        {
            picked.push(bytes[i]);
            assert(bytes@.subrange(lo as int, i + 1) =~= bytes@.subrange(lo as int, i as int).push(
                bytes@[i as int],
            ));
            i += 1;
        }
        proof {
            lemma_select_next(bytes@, ranges@, k as int);
            assert(picked@ =~= before + slice_of(bytes@, ranges@[k as int]));
        }
        k += 1;
    }
    assert(ranges@.take(k as int) =~= ranges@);
    picked
}

/// Selects bytes of `line` and reads them as text again. The ranges count
/// bytes of the line's UTF-8 form; a range that reaches past the end yields
/// what is there. The selected bytes are joined first and decoded then, so a
/// character cut in two by a range shows as U+FFFD.
pub fn extract_bytes(line: &str, byte_pos: &[Range<usize>]) -> (res: String)
    ensures
        res@ == utf8_lossy(select(encode_utf8(line@), byte_pos@)),
        valid_utf8(select(encode_utf8(line@), byte_pos@)) ==> res@ == decode_utf8(
            select(encode_utf8(line@), byte_pos@),
        ),
{
    let picked = select_bytes(line.as_bytes(), byte_pos);
    decode_lossy(picked.as_slice())
}

/// One range from the first byte to the end of the line or beyond selects
/// bytes that read as the line itself.
pub proof fn lemma_whole_line_in_bytes(line: Seq<char>, r: Range<usize>)
    requires
        r.start == 0,
        r.end >= encode_utf8(line).len(),
    ensures
        valid_utf8(select(encode_utf8(line), seq![r])),
        decode_utf8(select(encode_utf8(line), seq![r])) == line,
{
    let bytes = encode_utf8(line);
    lemma_select_one(bytes, r);
    assert(slice_of(bytes, r) =~= bytes);
    encode_utf8_valid_utf8(line);
    encode_utf8_decode_utf8(line);
}

/// The extended grapheme clusters of a text, in order.
pub uninterp spec fn graphemes(line: Seq<char>) -> Seq<Seq<char>>;

/// `UnicodeSegmentation::graphemes` with extended clusters, collected.
/// Trusted: the slices are the extended grapheme clusters of `line`, and
/// they are consecutive pieces of `line` that together make it up.
#[verifier::external_body]
fn grapheme_clusters<'a>(line: &'a str) -> (clusters: Vec<&'a str>)
    ensures
        texts_of(clusters@) == graphemes(line@),
        texts_of(clusters@).flatten() == line@,
{
    line.graphemes(true).collect()
}

/// Every item that a position list selects is an item of `items`.
pub proof fn lemma_select_within<T>(items: Seq<T>, ranges: Seq<Range<usize>>)
    ensures
        forall|i: int|
            0 <= i < select(items, ranges).len() ==> items.contains(
                #[trigger] select(items, ranges)[i],
            ),
    decreases ranges.len(),
{
    if ranges.len() > 0 {
        lemma_select_within(items, ranges.drop_last());
        let head = select(items, ranges.drop_last());
        let tail = slice_of(items, ranges.last());
        assert forall|i: int| 0 <= i < select(items, ranges).len() implies items.contains(
            #[trigger] select(items, ranges)[i],
        ) by {
            if i < head.len() {
                assert(select(items, ranges)[i] == head[i]);
            } else {
                assert(select(items, ranges)[i] == tail[i - head.len()]);
            }
        }
    }
}

/// Every character of a part is a character of the parts joined.
pub proof fn lemma_part_within_whole<A>(parts: Seq<Seq<A>>, j: int, i: int)
    requires
        0 <= j < parts.len(),
        0 <= i < parts[j].len(),
    ensures
        parts.flatten().contains(parts[j][i]),
    decreases parts.len(),
{
    let rest = parts.drop_first().flatten();
    assert(parts.flatten() =~= parts.first() + rest);
    if j == 0 {
        assert(parts.flatten()[i] == parts[0][i]);
    } else {
        lemma_part_within_whole(parts.drop_first(), j - 1, i);
        let k = choose|k: int| 0 <= k < rest.len() && rest[k] == parts[j][i];
        assert(parts.flatten()[parts.first().len() + k] == parts[j][i]);
    }
}

/// Every character of the parts joined is a character of one part.
pub proof fn lemma_whole_within_parts<A>(parts: Seq<Seq<A>>, k: int) -> (place: (int, int))
    requires
        0 <= k < parts.flatten().len(),
    ensures
        0 <= place.0 < parts.len(),
        0 <= place.1 < parts[place.0].len(),
        parts[place.0][place.1] == parts.flatten()[k],
    decreases parts.len(),
{
    let rest = parts.drop_first().flatten();
    assert(parts.flatten() =~= parts.first() + rest);
    if k < parts.first().len() {
        (0, k)
    } else {
        let inner = lemma_whole_within_parts(parts.drop_first(), k - parts.first().len());
        (inner.0 + 1, inner.1)
    }
}

/// Joining parts that were selected from `parts` yields no character that
/// `parts` joined do not hold.
pub proof fn lemma_selected_text_within<A>(parts: Seq<Seq<A>>, ranges: Seq<Range<usize>>)
    ensures
        forall|k: int|
            0 <= k < select(parts, ranges).flatten().len() ==> parts.flatten().contains(
                #[trigger] select(parts, ranges).flatten()[k],
            ),
{
    let picked = select(parts, ranges);
    lemma_select_within(parts, ranges);
    assert forall|k: int| 0 <= k < picked.flatten().len() implies parts.flatten().contains(
        #[trigger] picked.flatten()[k],
    ) by {
        let place = lemma_whole_within_parts(picked, k);
        assert(parts.contains(picked[place.0]));
        let j = choose|j: int| 0 <= j < parts.len() && parts[j] == picked[place.0];
        lemma_part_within_whole(parts, j, place.1);
    }
}

/// The text of the parts that `ranges` selects from `parts`, joined.
pub fn select_text(parts: &[&str], ranges: &[Range<usize>]) -> (res: String)
    ensures
        res@ == select(texts_of(parts@), ranges@).flatten(),
{
    let ghost texts = texts_of(parts@);
    let n = parts.len();
    let mut res = String::new();
    let mut k: usize = 0;
    assert(select(texts, ranges@.take(0)).flatten() =~= Seq::<char>::empty());
    while k < ranges.len()
        invariant
            k <= ranges.len(),
            n == parts@.len(),
            texts == texts_of(parts@),
            res@ == select(texts, ranges@.take(k as int)).flatten(),
        decreases ranges.len() - k,
    {
        let lo = at_most(ranges[k].start, n);
        let hi = at_most(ranges[k].end, n);
        let ghost before = select(texts, ranges@.take(k as int));
        let mut i: usize = lo;
        assert(before + texts.subrange(lo as int, lo as int) =~= before);
        while i < hi
            invariant
                lo <= i,
                hi <= n,
                i <= hi || i == lo,
                n == parts@.len(),
                texts == texts_of(parts@),
                res@ == (before + texts.subrange(lo as int, i as int)).flatten(),
            decreases hi - i,
        {
            res.append(parts[i]);
            proof {
                let sofar = before + texts.subrange(lo as int, i as int);
                assert(before + texts.subrange(lo as int, i + 1) =~= sofar.push(texts[i as int]));
                sofar.lemma_flatten_push(texts[i as int]);
            }
            i += 1;
        }
        proof {
            lemma_select_next(texts, ranges@, k as int);
            assert(before + texts.subrange(lo as int, i as int) =~= before + slice_of(
                texts,
                ranges@[k as int],
            ));
        }
        k += 1;
    }
    assert(ranges@.take(k as int) =~= ranges@);
    res
}

/// Selects characters of `line` as a reader sees them: the ranges count
/// extended grapheme clusters. A range that reaches past the end yields what
/// is there; the clusters selected are joined in the order of the list.
/// Whole clusters are taken, so the result holds no character that the line
/// does not hold.
pub fn extract_chars(line: &str, char_pos: &[Range<usize>]) -> (res: String)
    ensures
        res@ == select(graphemes(line@), char_pos@).flatten(),
        forall|k: int| 0 <= k < res@.len() ==> line@.contains(#[trigger] res@[k]),
{
    let clusters = grapheme_clusters(line);
    proof {
        lemma_selected_text_within(graphemes(line@), char_pos@);
    }
    select_text(clusters.as_slice(), char_pos)
}

/// A record of the `csv` crate, as the crate holds it.
#[verifier::external_type_specification]
#[verifier::external_body]
pub struct ExStringRecord(StringRecord);

/// The fields of a record, in order.
pub uninterp spec fn record_fields(record: StringRecord) -> Seq<Seq<char>>;

/// `StringRecord::len`. Trusted: it is the number of the record's fields.
pub assume_specification[ StringRecord::len ](record: &StringRecord) -> (n: usize)
    ensures
        n == record_fields(*record).len(),
;

/// `StringRecord::get`. Trusted: it hands out the field at index `i`, and
/// nothing where the record has no such field.
pub assume_specification<'a>[ StringRecord::get ](record: &'a StringRecord, i: usize) -> (field:
    Option<&'a str>)
    ensures
        field is Some <==> i < record_fields(*record).len(),
        field is Some ==> field->Some_0@ == record_fields(*record)[i as int],
;

/// The texts of a sequence of strings.
pub open spec fn strings_of(parts: Seq<String>) -> Seq<Seq<char>> {
    Seq::new(parts.len(), |i: int| parts[i]@)
}

/// Selects fields of a record. The ranges count fields; an index that
/// the record does not have is passed over. The fields come in the order of
/// the list and, within a range, in rising order; a range given twice
/// yields its fields twice.
pub fn extract_fields(line: &StringRecord, field_pos: &[Range<usize>]) -> (res: Vec<String>)
    ensures
        res.deep_view() == select(record_fields(*line), field_pos@),
{
    let ghost fields = record_fields(*line);
    let n = line.len();
    let mut res: Vec<String> = Vec::new();
    let mut k: usize = 0;
    assert(strings_of(res@) =~= select(fields, field_pos@.take(0)));
    while k < field_pos.len()
        invariant
            k <= field_pos.len(),
            fields == record_fields(*line),
            n == fields.len(),
            strings_of(res@) == select(fields, field_pos@.take(k as int)),
        decreases field_pos.len() - k,
    {
        let lo = at_most(field_pos[k].start, n);
        let hi = at_most(field_pos[k].end, n);
        let ghost before = strings_of(res@);
        let mut i: usize = lo;
        assert(before + fields.subrange(lo as int, lo as int) =~= before);
        while i < hi
            invariant
                lo <= i,
                hi <= n,
                i <= hi || i == lo,
                fields == record_fields(*line),
                n == fields.len(),
                strings_of(res@) == before + fields.subrange(lo as int, i as int),
            decreases hi - i,
        {
            let ghost sofar = res@;
            if let Some(field) = line.get(i) {
                res.push(field.to_owned());
                assert(strings_of(res@) =~= strings_of(sofar).push(fields[i as int]));
            }
            assert(before + fields.subrange(lo as int, i + 1) =~= (before + fields.subrange(
                lo as int,
                i as int,
            )).push(fields[i as int]));
            i += 1;
        }
        proof {
            lemma_select_next(fields, field_pos@, k as int);
            assert(before + fields.subrange(lo as int, i as int) =~= before + slice_of(
                fields,
                field_pos@[k as int],
            ));
        }
        k += 1;
    }
    assert(field_pos@.take(k as int) =~= field_pos@);
    assert(res.deep_view() =~= strings_of(res@));
    res
}

} // verus!
