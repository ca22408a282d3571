//! Domain names on the wire: labels, back-reference pointers, and the table
//! of names that makes the pointers resolvable.

use crate::buffer::{as_slice, be16, bytes_of, put_u16, put_u8, written};
use crate::error::DnsError;
use crate::label_map::{name_at, offset_of, record, LabelMap, NameTable};
use crate::parse::{
    parse_string, parse_u16, parse_u8, read_string, read_u16, Decoding, DnsData, Encoding,
    MAX_LABEL_LEN,
};
use bytes::{Bytes, BytesMut};
use vstd::prelude::*;
use vstd::string::{StrSliceExecFns, StringExecFns};
use vstd::utf8::encode_utf8;

verus! {

/// The largest offset that the 14 bits of a pointer can name.
pub const MAX_OFFSET: usize = 0x3fff;

/// What stands at the start of the next part of a name.
#[derive(Clone, Copy, Debug, PartialEq, Eq, Structural)]
pub enum LabelByte {
    /// A two-byte back reference, which ends the name.
    Pointer,
    /// The zero byte, which ends the name.
    Null,
    /// The length of a label that follows.
    Length,
}

/// How the byte of `buf` at `pos` is read.
pub open spec fn classify(buf: Seq<u8>, pos: int) -> Result<LabelByte, DnsError> {
    if !(0 <= pos < buf.len()) {
        Err(DnsError::Truncated)
    } else if buf[pos] == 0 {
        Ok(LabelByte::Null)
    } else if buf[pos] & 0xc0 == 0xc0 {
        Ok(LabelByte::Pointer)
    } else {
        Ok(LabelByte::Length)
    }
}

impl LabelByte {
    /// Tells what the byte at `pos` announces: the end of the name, a
    /// pointer (both top bits set), or a label.
    pub fn from_byte(buf: &Bytes, pos: usize) -> (r: Result<LabelByte, DnsError>)
        ensures
            r == classify(bytes_of(*buf), pos as int),
    {
        let s = as_slice(buf);
        if pos >= s.len() {
            return Err(DnsError::Truncated);
        }
        let b = s[pos];
        if b == 0 {
            Ok(LabelByte::Null)
        } else if b & 0xc0 == 0xc0 {
            Ok(LabelByte::Pointer)
        } else {
            Ok(LabelByte::Length)
        }
    }
}

/// One segment of a domain name, without the dots around it.
#[derive(Debug, PartialEq, Eq, Hash)]
pub struct Label(pub String);

impl Default for Label {
    fn default() -> (r: Label)
        ensures
            r@ == Seq::<char>::empty(),
    {
        Label(String::new())
    }
}

impl Clone for Label {
    fn clone(&self) -> (r: Label)
        ensures
            r@ == self@,
    {
        Label(self.0.clone())
    }
}

impl View for Label {
    type V = Seq<char>;

    open spec fn view(&self) -> Seq<char> {
        self.0@
    }
}

/// A domain name: its labels, leftmost first.
#[derive(Debug, PartialEq, Eq, Hash)]
pub struct Domain {
    pub labels: Vec<Label>,
}

impl Default for Domain {
    fn default() -> (r: Domain)
        ensures
            r@ == Seq::<Seq<char>>::empty(),
    {
        let r = Domain { labels: Vec::new() };
        assert(r@ == Seq::<Seq<char>>::empty());
        r
    }
}

impl Clone for Domain {
    fn clone(&self) -> (r: Domain)
        ensures
            r@ == self@,
    {
        let mut labels: Vec<Label> = Vec::new();
        let mut i: usize = 0;
        while i < self.labels.len()
            invariant
                i <= self.labels.len(),
                labels.len() == i,
                forall|k: int| 0 <= k < i ==> (#[trigger] labels[k])@ == self.labels[k]@,
            decreases self.labels.len() - i,
        {
            labels.push(self.labels[i].clone());
            i += 1;
        }
        assert(label_texts(labels@) == label_texts(self.labels@));
        Domain { labels }
    }
}

/// The texts of a run of labels.
pub open spec fn label_texts(labels: Seq<Label>) -> Seq<Seq<char>> {
    Seq::new(labels.len(), |i: int| labels[i]@)
}

impl View for Domain {
    type V = Seq<Seq<char>>;

    open spec fn view(&self) -> Seq<Seq<char>> {
        label_texts(self.labels@)
    }
}

/// The labels joined by dots.
pub open spec fn join_dots(labels: Seq<Seq<char>>) -> Seq<char>
    decreases labels.len(),
{
    if labels.len() == 0 {
        Seq::empty()
    } else if labels.len() == 1 {
        labels[0]
    } else {
        join_dots(labels.drop_last()) + seq!['.'] + labels.last()
    }
}

/// The index of the last dot of `name`, or -1 where it has none.
pub open spec fn last_dot(name: Seq<char>) -> int
    decreases name.len(),
{
    if name.len() == 0 {
        -1
    } else if name.last() == '.' {
        name.len() - 1
    } else {
        last_dot(name.drop_last())
    }
}

/// The pieces of `name` between its dots: the inverse of `join_dots` on
/// labels that hold no dot.
pub open spec fn split_dots(name: Seq<char>) -> Seq<Seq<char>>
    decreases name.len(),
{
    let k = last_dot(name);
    if 0 <= k < name.len() {
        split_dots(name.take(k)).push(name.skip(k + 1))
    } else {
        seq![name]
    }
}

/// Where the last dot is, if there is one.
pub proof fn lemma_last_dot(name: Seq<char>)
    ensures
        -1 <= last_dot(name) < name.len(),
        last_dot(name) >= 0 ==> name[last_dot(name)] == '.',
        forall|i: int| last_dot(name) < i < name.len() ==> name[i] != '.',
    decreases name.len(),
{
    if name.len() > 0 && name.last() != '.' {
        let front = name.drop_last();
        lemma_last_dot(front);
        assert forall|i: int| last_dot(name) < i < name.len() implies name[i] != '.' by {
            if i < front.len() {
                assert(front[i] == name[i]);
            }
        }
    }
}

/// One more character that is no dot lengthens the last piece.
pub proof fn lemma_split_push_char(name: Seq<char>, c: char)
    requires
        c != '.',
    ensures
        split_dots(name.push(c)) == split_dots(name).drop_last().push(split_dots(name).last().push(c)),
        split_dots(name).len() > 0,
{
    lemma_last_dot(name);
    let longer = name.push(c);
    assert(longer.drop_last() == name);
    let k = last_dot(name);
    if 0 <= k {
        assert(longer.take(k) == name.take(k));
        assert(longer.skip(k + 1) == name.skip(k + 1).push(c));
        assert(split_dots(name).drop_last() == split_dots(name.take(k)));
    } else {
        assert(split_dots(name).drop_last() == Seq::<Seq<char>>::empty());
    }
}

/// A dot starts a new, empty piece.
pub proof fn lemma_split_push_dot(name: Seq<char>)
    ensures
        split_dots(name.push('.')) == split_dots(name).push(Seq::empty()),
{
    let longer = name.push('.');
    assert(longer.take(name.len() as int) == name);
    assert(longer.skip(name.len() as int + 1) == Seq::<char>::empty());
}

/// The name of the labels from `from` up to `to`, joined by dots.
pub(crate) fn join_labels(labels: &Vec<Label>, from: usize, to: usize) -> (r: String)
    requires
        from <= to <= labels.len(),
    ensures
        r@ == join_dots(label_texts(labels@).subrange(from as int, to as int)),
{
    let mut name = String::new();
    let mut k = from;
    let ghost texts = label_texts(labels@);
    while k < to
        invariant
            from <= k <= to <= labels.len(),
            texts == label_texts(labels@),
            name@ == join_dots(texts.subrange(from as int, k as int)),
        decreases to - k,
    {
        proof {
            reveal_strlit(".");
            assert(texts.subrange(from as int, k + 1).drop_last() == texts.subrange(
                from as int,
                k as int,
            ));
            assert("."@ == seq!['.']);
        }
        if k > from {
            name.append(".");
        }
        name.append(labels[k].0.as_str());
        k += 1;
    }
    name
}

/// The labels of a dotted name.
pub(crate) fn split_name(name: &String) -> (r: Vec<Label>)
    ensures
        label_texts(r@) == split_dots(name@),
{
    let text = name.as_str();
    let n = text.unicode_len();
    let mut labels: Vec<Label> = Vec::new();
    let mut start: usize = 0;
    let mut i: usize = 0;
    while i < n
        invariant
            start <= i <= n,
            n == text@.len(),
            split_dots(text@.take(i as int)) == label_texts(labels@).push(
                text@.subrange(start as int, i as int),
            ),
        decreases n - i,
    {
        proof {
            assert(text@.take(i + 1) == text@.take(i as int).push(text@[i as int]));
            let pieces = label_texts(labels@).push(text@.subrange(start as int, i as int));
            assert(pieces.drop_last() == label_texts(labels@));
        }
        if text.get_char(i) == '.' {
            proof {
                lemma_split_push_dot(text@.take(i as int));
            }
            let piece = String::from_str(text.substring_char(start, i));
            let ghost before = label_texts(labels@);
            labels.push(Label(piece));
            start = i + 1;
            proof {
                assert(label_texts(labels@) == before.push(piece@));
                assert(text@.subrange(start as int, i + 1) == Seq::<char>::empty());
            }
        } else {
            proof {
                lemma_split_push_char(text@.take(i as int), text@[i as int]);
                assert(text@.subrange(start as int, i + 1) == text@.subrange(
                    start as int,
                    i as int,
                ).push(text@[i as int]));
            }
        }
        i += 1;
    }
    let piece = String::from_str(text.substring_char(start, n));
    let ghost before = label_texts(labels@);
    labels.push(Label(piece));
    proof {
        assert(label_texts(labels@) == before.push(piece@));
        assert(text@.take(n as int) == text@);
    }
    labels
}

/// The two bytes of a pointer to `offset`.
pub open spec fn pointer_bytes(offset: int) -> Seq<u8> {
    be16(0xc000u16 | (offset as u16))
}

/// A label on the wire: its length in bytes, then its text in UTF-8.
pub open spec fn label_bytes(label: Seq<char>) -> Seq<u8> {
    seq![encode_utf8(label).len() as u8] + encode_utf8(label)
}

/// `rest`, with `prefix` before its bytes.
pub open spec fn after(prefix: Seq<u8>, rest: Encoding) -> Encoding {
    Encoding {
        result: match rest.result {
            Ok(bytes) => Ok(prefix + bytes),
            Err(e) => Err(e),
        },
        table: rest.table,
    }
}

/// The wire form of the labels from index `i` on, the first of them written
/// at offset `at`. The whole remaining name is looked up first: where the
/// table knows it, a pointer to it ends the name. Otherwise the name is
/// recorded at `at`, the label at `i` is written out, and the rest follows.
/// After the last label stands the zero byte.
pub open spec fn encode_labels(labels: Seq<Seq<char>>, i: int, at: int, table: NameTable) -> Encoding
    decreases labels.len() - i,
{
    if i >= labels.len() {
        Encoding { result: Ok(seq![0u8]), table }
    } else {
        let name = join_dots(labels.skip(i));
        match offset_of(table, name) {
            Some(offset) => Encoding {
                result: if offset <= MAX_OFFSET {
                    Ok(pointer_bytes(offset))
                } else {
                    Err(DnsError::OffsetOutOfRange)
                },
                table,
            },
            None => if at > MAX_OFFSET {
                Encoding { result: Err(DnsError::OffsetOutOfRange), table }
            } else if encode_utf8(labels[i]).len() > MAX_LABEL_LEN {
                Encoding { result: Err(DnsError::LabelTooLong), table }
            } else {
                after(
                    label_bytes(labels[i]),
                    encode_labels(
                        labels,
                        i + 1,
                        at + label_bytes(labels[i]).len(),
                        record(table, name, at),
                    ),
                )
            },
        }
    }
}

/// The wire form of a name written at offset `pos`. A name without labels
/// has no bytes.
pub open spec fn encode_domain(labels: Seq<Seq<char>>, pos: int, table: NameTable) -> Encoding {
    if labels.len() == 0 {
        Encoding { result: Ok(Seq::empty()), table }
    } else {
        encode_labels(labels, 0, pos, table)
    }
}

/// The longest wire form of a name, in bytes.
pub const MAX_NAME_LEN: usize = 0x3fff + 63 + 3;

/// A name that starts at `at` has at most `MAX_NAME_LEN - at` bytes, and at
/// least one.
pub proof fn lemma_encode_labels_len(labels: Seq<Seq<char>>, i: int, at: int, table: NameTable)
    requires
        0 <= i <= labels.len(),
        0 <= at,
    ensures
        encode_labels(labels, i, at, table).result matches Ok(bytes) ==> 1 <= bytes.len() && (at
            <= MAX_OFFSET ==> at + bytes.len() <= MAX_NAME_LEN) && bytes.len() <= MAX_NAME_LEN,
    decreases labels.len() - i,
{
    if i < labels.len() {
        let name = join_dots(labels.skip(i));
        if offset_of(table, name) is None && at <= MAX_OFFSET && encode_utf8(labels[i]).len()
            <= MAX_LABEL_LEN {
            lemma_encode_labels_len(
                labels,
                i + 1,
                at + label_bytes(labels[i]).len(),
                record(table, name, at),
            );
        }
    }
}

/// The name that starts with `labels` and goes on with `tail`, where there
/// is one.
pub open spec fn full_name(labels: Seq<Seq<char>>, tail: Option<Seq<char>>) -> Seq<char> {
    match tail {
        Some(rest) => join_dots(labels.push(rest)),
        None => join_dots(labels),
    }
}

/// The table after a name was read whose labels stood at `offsets` and which
/// went on with `tail`: from index `i` on, each label's offset is recorded
/// for the name that starts there, unless that name is known already.
pub open spec fn register(
    table: NameTable,
    labels: Seq<Seq<char>>,
    offsets: Seq<int>,
    tail: Option<Seq<char>>,
    i: int,
) -> NameTable
    decreases labels.len() - i,
{
    if i >= labels.len() || i < 0 {
        table
    } else {
        register(
            record(table, full_name(labels.skip(i), tail), offsets[i]),
            labels,
            offsets,
            tail,
            i + 1,
        )
    }
}

/// A failed decoding, which leaves the table as it was.
pub open spec fn refused<V>(e: DnsError, table: NameTable) -> Decoding<V> {
    Decoding { result: Err(e), table }
}

/// The name that `buf` holds from `at` on, after `labels` were read at
/// `offsets`. A zero byte ends the name. A pointer ends it with the labels
/// of the oldest name that the table holds at the offset pointed to. A
/// label is read and the name goes on after it.
pub open spec fn decode_labels(
    buf: Seq<u8>,
    at: int,
    labels: Seq<Seq<char>>,
    offsets: Seq<int>,
    table: NameTable,
) -> Decoding<Seq<Seq<char>>>
    decreases buf.len() - at,
{
    match classify(buf, at) {
        Err(e) => refused(e, table),
        Ok(LabelByte::Null) => Decoding {
            result: Ok((at + 1, labels)),
            table: register(table, labels, offsets, None, 0),
        },
        Ok(LabelByte::Pointer) => match read_u16(buf, at) {
            Err(e) => refused(e, table),
            Ok((next, pointer)) => match name_at(table, (pointer & 0x3fff) as int) {
                None => refused(DnsError::UnknownPointer, table),
                Some(name) => Decoding {
                    result: Ok((next, labels + split_dots(name))),
                    table: register(table, labels, offsets, Some(name), 0),
                },
            },
        },
        Ok(LabelByte::Length) => match read_string(buf, at) {
            Err(e) => refused(e, table),
            Ok((next, label)) => decode_labels(
                buf,
                next,
                labels.push(label),
                offsets.push(at),
                table,
            ),
        },
    }
}

/// The name that `buf` holds at `pos`.
pub open spec fn decode_domain(buf: Seq<u8>, pos: int, table: NameTable) -> Decoding<
    Seq<Seq<char>>,
> {
    decode_labels(buf, pos, Seq::empty(), Seq::empty(), table)
}

/// Offsets as mathematical integers.
pub open spec fn positions(offsets: Seq<usize>) -> Seq<int> {
    Seq::new(offsets.len(), |i: int| offsets[i] as int)
}

/// Records, for each label of a name just read, the name that starts at it.
fn register_names(
    labels: &Vec<Label>,
    offsets: &Vec<usize>,
    tail: Option<&String>,
    label_map: &mut LabelMap,
)
    requires
        labels.len() == offsets.len(),
    ensures
        final(label_map)@ == register(
            old(label_map)@,
            label_texts(labels@),
            positions(offsets@),
            match tail {
                Some(rest) => Some(rest@),
                None => None,
            },
            0,
        ),
{
    let ghost texts = label_texts(labels@);
    let ghost places = positions(offsets@);
    let ghost rest: Option<Seq<char>> = match tail {
        Some(rest) => Some(rest@),
        None => None,
    };
    let n = labels.len();
    let mut i: usize = 0;
    while i < n
        invariant
            i <= n,
            n == labels.len(),
            n == offsets.len(),
            texts == label_texts(labels@),
            places == positions(offsets@),
            rest == match tail {
                Some(rest) => Some(rest@),
                None => None::<Seq<char>>,
            },
            register(label_map@, texts, places, rest, i as int) == register(
                old(label_map)@,
                texts,
                places,
                rest,
                0,
            ),
        decreases n - i,
    {
        let mut name = join_labels(labels, i, n);
        proof {
            assert(texts.subrange(i as int, n as int) == texts.skip(i as int));
        }
        match tail {
            Some(rest) => {
                proof {
                    reveal_strlit(".");
                    assert("."@ == seq!['.']);
                    assert(texts.skip(i as int).push(rest@).drop_last() == texts.skip(i as int));
                }
                name.append(".");
                name.append(rest.as_str());
            },
            None => {},
        }
        label_map.record(name, offsets[i]);
        i += 1;
    }
}

impl DnsData for Domain {
    open spec fn encoding(&self, pos: int, table: NameTable) -> Encoding {
        encode_domain(self@, pos, table)
    }

    open spec fn decoding(buf: Seq<u8>, pos: int, table: NameTable) -> Decoding<Seq<Seq<char>>> {
        decode_domain(buf, pos, table)
    }

    fn encode(&self, pos: usize, label_map: &mut LabelMap) -> (r: Result<Bytes, DnsError>) {
        let mut buf = BytesMut::new();
        let n = self.labels.len();
        if n == 0 {
            return Ok(buf.freeze());
        }
        let ghost texts = self@;
        let mut i: usize = 0;
        while i < n
            invariant
                i <= n,
                n == self.labels.len(),
                n > 0,
                texts == self@,
                written(buf).len() <= MAX_OFFSET + MAX_LABEL_LEN + 1,
                after(
                    written(buf),
                    encode_labels(texts, i as int, pos + written(buf).len(), label_map@),
                ) == encode_labels(texts, 0, pos as int, old(label_map)@),
            decreases n - i,
        {
            let name = join_labels(&self.labels, i, n);
            proof {
                assert(texts.subrange(i as int, n as int) == texts.skip(i as int));
            }
            match label_map.get(&name) {
                Some(offset) => {
                    if offset > MAX_OFFSET {
                        return Err(DnsError::OffsetOutOfRange);
                    }
                    put_u16(&mut buf, 0xc000u16 | (offset as u16));
                    return Ok(buf.freeze());
                },
                None => {
                    let emitted = buf.len();
                    if emitted > MAX_OFFSET || pos > MAX_OFFSET - emitted {
                        return Err(DnsError::OffsetOutOfRange);
                    }
                    let text = self.labels[i].0.as_str().as_bytes();
                    if text.len() > MAX_LABEL_LEN {
                        return Err(DnsError::LabelTooLong);
                    }
                    label_map.record(name, pos + emitted);
                    let ghost before = written(buf);
                    put_u8(&mut buf, text.len() as u8);
                    buf.extend_from_slice(text);
                    proof {
                        assert(written(buf) == before + label_bytes(texts[i as int]));
                        let rest = encode_labels(
                            texts,
                            i + 1,
                            pos + written(buf).len(),
                            label_map@,
                        );
                        if let Ok(bytes) = rest.result {
                            assert(written(buf) + bytes == before + (label_bytes(texts[i as int])
                                + bytes));
                        }
                    }
                    i += 1;
                },
            }
        }
        let ghost before = written(buf);
        put_u8(&mut buf, 0);
        proof {
            assert(written(buf) == before + seq![0u8]);
        }
        Ok(buf.freeze())
    }

    fn decode(buf: &Bytes, pos: usize, label_map: &mut LabelMap) -> (r: Result<
        (usize, Domain),
        DnsError,
    >) {
        let mut current = pos;
        let mut labels: Vec<Label> = Vec::new();
        let mut offsets: Vec<usize> = Vec::new();
        let ghost bytes = bytes_of(*buf);
        proof {
            assert(label_texts(labels@) == Seq::<Seq<char>>::empty());
            assert(positions(offsets@) == Seq::<int>::empty());
        }
        loop
            invariant
                bytes == bytes_of(*buf),
                label_map@ == old(label_map)@,
                labels.len() == offsets.len(),
                decode_labels(
                    bytes,
                    current as int,
                    label_texts(labels@),
                    positions(offsets@),
                    label_map@,
                ) == decode_domain(bytes, pos as int, label_map@),
            decreases bytes.len() - current,
        {
            match LabelByte::from_byte(buf, current) {
                Err(e) => {
                    return Err(e);
                },
                Ok(LabelByte::Null) => {
                    let next = match parse_u8(buf, current) {
                        Ok((next, _)) => next,
                        Err(e) => {
                            return Err(e);
                        },
                    };
                    register_names(&labels, &offsets, None, label_map);
                    return Ok((next, Domain { labels }));
                },
                Ok(LabelByte::Pointer) => {
                    let (next, pointer) = match parse_u16(buf, current) {
                        Ok(read) => read,
                        Err(e) => {
                            return Err(e);
                        },
                    };
                    let offset = pointer & 0x3fff;
                    let name = match label_map.name_at(offset as usize) {
                        Some(name) => name,
                        None => {
                            return Err(DnsError::UnknownPointer);
                        },
                    };
                    register_names(&labels, &offsets, Some(&name), label_map);
                    let ghost read = label_texts(labels@);
                    let mut tail = split_name(&name);
                    labels.append(&mut tail);
                    proof {
                        assert(label_texts(labels@) == read + split_dots(name@));
                    }
                    return Ok((next, Domain { labels }));
                },
                Ok(LabelByte::Length) => {
                    let (next, label) = match parse_string(buf, current) {
                        Ok(read) => read,
                        Err(e) => {
                            return Err(e);
                        },
                    };
                    let ghost read = label_texts(labels@);
                    let ghost places = positions(offsets@);
                    offsets.push(current);
                    labels.push(Label(label));
                    proof {
                        assert(label_texts(labels@) == read.push(label@));
                        assert(positions(offsets@) == places.push(current as int));
                    }
                    current = next;
                },
            }
        }
    }
}

} // verus!
