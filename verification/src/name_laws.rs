//! What holds of names on the wire: a name that was encoded is decoded to
//! itself, with or without pointers, and a name whose ending the table
//! knows is written as a pointer.

use crate::error::DnsError;
use crate::label::{
    classify, decode_domain, decode_labels, encode_domain, encode_labels, full_name, join_dots,
    label_bytes, last_dot, pointer_bytes, register, split_dots, LabelByte, MAX_OFFSET,
};
use crate::label_map::{
    grown_from, lemma_grown_twice, lemma_record_grows, name_at, offset_of, record, NameTable,
};
use crate::parse::{
    lemma_u16_round_trip, read_string, read_u16, u16_of, Decoding, Encoding, MAX_LABEL_LEN,
};
use vstd::prelude::*;
use vstd::utf8::encode_utf8;

verus! {

/// A text without a dot.
pub open spec fn dot_free(text: Seq<char>) -> bool {
    forall|i: int| 0 <= i < text.len() ==> text[i] != '.'
}

/// A label that can be told from its neighbours: it has between 1 and 63
/// bytes and no dot.
pub open spec fn plain_label(label: Seq<char>) -> bool {
    &&& 1 <= encode_utf8(label).len() <= MAX_LABEL_LEN
    &&& dot_free(label)
}

/// A name of at least one label, all of them plain.
pub open spec fn plain_name(labels: Seq<Seq<char>>) -> bool {
    &&& labels.len() >= 1
    &&& forall|i: int| 0 <= i < labels.len() ==> plain_label(#[trigger] labels[i])
}

/// A joined name is its first label, a dot, and the rest joined.
pub proof fn lemma_join_front(labels: Seq<Seq<char>>)
    requires
        labels.len() >= 2,
    ensures
        join_dots(labels) == labels[0] + seq!['.'] + join_dots(labels.drop_first()),
    decreases labels.len(),
{
    let front = labels.drop_last();
    let rest = labels.drop_first();
    if labels.len() == 2 {
        assert(join_dots(front) == labels[0]);
        assert(join_dots(rest) == labels[1]);
    } else {
        lemma_join_front(front);
        assert(rest.drop_last() == front.drop_first());
        assert(join_dots(labels) == (labels[0] + seq!['.'] + join_dots(front.drop_first()))
            + seq!['.'] + labels.last());
        assert(join_dots(rest) == join_dots(rest.drop_last()) + seq!['.'] + labels.last());
        assert(join_dots(labels) =~= labels[0] + seq!['.'] + join_dots(rest));
    }
}

/// Joining the end of a name first, and then the whole, joins the whole.
pub proof fn lemma_join_nested(front: Seq<Seq<char>>, back: Seq<Seq<char>>)
    requires
        back.len() >= 1,
    ensures
        join_dots(front.push(join_dots(back))) == join_dots(front + back),
    decreases back.len(),
{
    if back.len() == 1 {
        assert(front.push(back[0]) == front + back);
    } else {
        let inner = back.drop_last();
        lemma_join_nested(front, inner);
        assert((front + back).drop_last() == front + inner);
        assert(front.push(join_dots(back)).drop_last() == front);
        assert(front.push(join_dots(inner)).drop_last() == front);
        if front.len() == 0 {
            assert(join_dots(front.push(join_dots(back))) == join_dots(back));
            assert(join_dots(front.push(join_dots(inner))) == join_dots(inner));
        } else {
            assert(join_dots(front.push(join_dots(back))) =~= join_dots(front) + seq!['.']
                + join_dots(inner) + seq!['.'] + back.last());
            assert(join_dots(front.push(join_dots(inner))) == join_dots(front) + seq!['.']
                + join_dots(inner));
        }
    }
}

/// A text without a dot has no last dot.
pub proof fn lemma_last_dot_none(text: Seq<char>)
    requires
        dot_free(text),
    ensures
        last_dot(text) == -1,
    decreases text.len(),
{
    if text.len() > 0 {
        let front = text.drop_last();
        assert forall|i: int| 0 <= i < front.len() implies front[i] != '.' by {
            assert(front[i] == text[i]);
        }
        lemma_last_dot_none(front);
    }
}

/// The last dot of a text that ends in a dot and a dot-free label is the dot
/// before that label.
pub proof fn lemma_last_dot_joined(front: Seq<char>, label: Seq<char>)
    requires
        dot_free(label),
    ensures
        last_dot(front + seq!['.'] + label) == front.len(),
    decreases label.len(),
{
    let text = front + seq!['.'] + label;
    if label.len() == 0 {
        assert(text.last() == '.');
    } else {
        let shorter = label.drop_last();
        assert forall|i: int| 0 <= i < shorter.len() implies shorter[i] != '.' by {
            assert(shorter[i] == label[i]);
        }
        lemma_last_dot_joined(front, shorter);
        assert(text.last() == label.last());
        assert(text.drop_last() == front + seq!['.'] + shorter);
    }
}

/// Labels without dots are found again by splitting their joined name.
pub proof fn lemma_split_join(labels: Seq<Seq<char>>)
    requires
        labels.len() >= 1,
        forall|i: int| 0 <= i < labels.len() ==> dot_free(#[trigger] labels[i]),
    ensures
        split_dots(join_dots(labels)) == labels,
    decreases labels.len(),
{
    if labels.len() == 1 {
        lemma_last_dot_none(labels[0]);
        assert(seq![labels[0]] == labels);
    } else {
        let front = labels.drop_last();
        let name = join_dots(labels);
        assert forall|i: int| 0 <= i < front.len() implies dot_free(#[trigger] front[i]) by {
            assert(front[i] == labels[i]);
        }
        lemma_split_join(front);
        lemma_last_dot_joined(join_dots(front), labels.last());
        let k = join_dots(front).len() as int;
        assert(name.take(k) == join_dots(front));
        assert(name.skip(k + 1) == labels.last());
        assert(front.push(labels.last()) == labels);
    }
}

/// From one label to the next the remaining name gets shorter.
pub proof fn lemma_suffix_names_differ(labels: Seq<Seq<char>>, i: int, j: int)
    requires
        0 <= i < j < labels.len(),
    ensures
        join_dots(labels.skip(i)).len() > join_dots(labels.skip(j)).len(),
        join_dots(labels.skip(i)) != join_dots(labels.skip(j)),
    decreases j - i,
{
    lemma_join_front(labels.skip(i));
    assert(labels.skip(i).drop_first() == labels.skip(i + 1));
    if i + 1 < j {
        lemma_suffix_names_differ(labels, i + 1, j);
    }
}

/// Each offset of the table is larger than the one before it.
pub open spec fn increasing(table: NameTable) -> bool {
    forall|i: int, j: int| 0 <= i < j < table.len() ==> (#[trigger] table[i]).1 < (#[trigger] table[j]).1
}

/// The offsets of the table grow from entry to entry and all lie before
/// `at`: the table of a message that was written or read up to `at`.
pub open spec fn ordered_before(table: NameTable, at: int) -> bool {
    &&& increasing(table)
    &&& forall|i: int| 0 <= i < table.len() ==> 0 <= (#[trigger] table[i]).1 < at
}

/// Entries under other names do not change what a name is recorded at.
pub proof fn lemma_offset_of_others(table: NameTable, more: NameTable, name: Seq<char>)
    requires
        forall|i: int| 0 <= i < more.len() ==> (#[trigger] more[i]).0 != name,
    ensures
        offset_of(table + more, name) == offset_of(table, name),
    decreases more.len(),
{
    if more.len() == 0 {
        assert(table + more == table);
    } else {
        let fewer = more.drop_last();
        assert((table + more).drop_last() == table + fewer);
        assert forall|i: int| 0 <= i < fewer.len() implies (#[trigger] fewer[i]).0 != name by {
            assert(fewer[i] == more[i]);
        }
        lemma_offset_of_others(table, fewer, name);
        assert((table + more).last() == more.last());
        assert(more[more.len() - 1].0 != name);
    }
}

/// A name that has an offset stands in the table with it.
pub proof fn lemma_offset_of_some(table: NameTable, name: Seq<char>) -> (i: int)
    requires
        offset_of(table, name) is Some,
    ensures
        0 <= i < table.len(),
        table[i] == (name, offset_of(table, name)->Some_0),
    decreases table.len(),
{
    let front = table.drop_last();
    if offset_of(front, name) is Some {
        let i = lemma_offset_of_some(front, name);
        assert(front[i] == table[i]);
        i
    } else {
        table.len() - 1
    }
}

/// In a table of growing offsets, an entry is the one found at its offset.
pub proof fn lemma_name_at_entry(table: NameTable, i: int)
    requires
        increasing(table),
        0 <= i < table.len(),
    ensures
        name_at(table, table[i].1) == Some(table[i].0),
    decreases table.len(),
{
    let front = table.drop_last();
    let offset = table[i].1;
    assert forall|a: int, b: int| 0 <= a < b < front.len() implies (#[trigger] front[a]).1 < (
    #[trigger] front[b]).1 by {
        assert(front[a] == table[a] && front[b] == table[b]);
    }
    if i < table.len() - 1 {
        assert(front[i] == table[i]);
        lemma_name_at_entry(front, i);
    } else {
        lemma_name_at_absent(front, offset);
        assert forall|a: int| 0 <= a < front.len() implies (#[trigger] front[a]).1 != offset by {
            assert(front[a] == table[a]);
        }
    }
}

/// No name is found at an offset that no entry has.
pub proof fn lemma_name_at_absent(table: NameTable, offset: int)
    ensures
        (forall|i: int| 0 <= i < table.len() ==> (#[trigger] table[i]).1 != offset) ==> name_at(
            table,
            offset,
        ) is None,
    decreases table.len(),
{
    if table.len() > 0 {
        let front = table.drop_last();
        lemma_name_at_absent(front, offset);
        if forall|i: int| 0 <= i < table.len() ==> (#[trigger] table[i]).1 != offset {
            assert forall|i: int| 0 <= i < front.len() implies (#[trigger] front[i]).1 != offset by {
                assert(front[i] == table[i]);
            }
            assert(table[table.len() - 1].1 != offset);
        }
    }
}

/// The number of bytes that the first `i` labels take on the wire.
pub open spec fn wire_len(labels: Seq<Seq<char>>, i: int) -> int
    decreases i,
{
    if i <= 0 {
        0
    } else {
        wire_len(labels, i - 1) + label_bytes(labels[i - 1]).len()
    }
}

/// The labels from `i` up to `k`, written out one after the other.
pub open spec fn wire_from(labels: Seq<Seq<char>>, i: int, k: int) -> Seq<u8>
    decreases k - i,
{
    if i >= k {
        Seq::empty()
    } else {
        label_bytes(labels[i]) + wire_from(labels, i + 1, k)
    }
}

/// The first index from `i` on at which the table knows the remaining
/// name, or the number of labels where it knows none.
pub open spec fn first_known(labels: Seq<Seq<char>>, i: int, table: NameTable) -> int
    decreases labels.len() - i,
{
    if i >= labels.len() {
        labels.len() as int
    } else if offset_of(table, join_dots(labels.skip(i))) is Some {
        i
    } else {
        first_known(labels, i + 1, table)
    }
}

/// What ends a name whose first `k` labels were written out: a pointer to
/// the rest, or the zero byte where nothing is left.
pub open spec fn name_end(labels: Seq<Seq<char>>, k: int, table: NameTable) -> Seq<u8> {
    if k >= labels.len() {
        seq![0u8]
    } else {
        pointer_bytes(offset_of(table, join_dots(labels.skip(k)))->Some_0)
    }
}

/// The compressed form of a name: the labels up to the first known ending
/// written out, then the pointer to that ending or the zero byte.
pub open spec fn compressed(labels: Seq<Seq<char>>, table: NameTable) -> Seq<u8> {
    let k = first_known(labels, 0, table);
    wire_from(labels, 0, k) + name_end(labels, k, table)
}

/// The entries that writing out the first `k` labels of a name at `pos`
/// adds to the table: each remaining name, at the offset of its first label.
pub open spec fn new_entries(labels: Seq<Seq<char>>, pos: int, k: int) -> NameTable {
    Seq::new(k as nat, |t: int| (join_dots(labels.skip(t)), pos + wire_len(labels, t)))
}

/// The offsets of the first `k` labels of a name written at `pos`.
pub open spec fn label_offsets(labels: Seq<Seq<char>>, pos: int, k: int) -> Seq<int> {
    Seq::new(k as nat, |t: int| pos + wire_len(labels, t))
}

/// Before the first known ending the table knows no ending.
pub proof fn lemma_first_known(labels: Seq<Seq<char>>, i: int, table: NameTable)
    requires
        0 <= i <= labels.len(),
    ensures
        i <= first_known(labels, i, table) <= labels.len(),
        forall|t: int|
            i <= t < first_known(labels, i, table) ==> offset_of(
                table,
                #[trigger] join_dots(labels.skip(t)),
            ) is None,
        first_known(labels, i, table) < labels.len() ==> offset_of(
            table,
            join_dots(labels.skip(first_known(labels, i, table))),
        ) is Some,
    decreases labels.len() - i,
{
    if i < labels.len() && offset_of(table, join_dots(labels.skip(i))) is None {
        lemma_first_known(labels, i + 1, table);
    }
}

/// Every label takes at least its length byte.
pub proof fn lemma_wire_len_grows(labels: Seq<Seq<char>>, i: int, j: int)
    requires
        0 <= i <= j,
    ensures
        0 <= wire_len(labels, i),
        wire_len(labels, i) + (j - i) <= wire_len(labels, j),
    decreases j,
{
    if i < j {
        lemma_wire_len_grows(labels, i, j - 1);
    } else if i > 0 {
        lemma_wire_len_grows(labels, i - 1, i - 1);
    }
}

/// The labels from `i` up to `k` take the bytes between their offsets.
pub proof fn lemma_wire_from_len(labels: Seq<Seq<char>>, i: int, k: int)
    requires
        0 <= i <= k,
    ensures
        wire_from(labels, i, k).len() == wire_len(labels, k) - wire_len(labels, i),
    decreases k - i,
{
    if i < k {
        lemma_wire_from_len(labels, i + 1, k);
    }
}

/// The entries that a name has added so far do not hide what the table
/// knew of its remaining names.
pub proof fn lemma_entries_keep(labels: Seq<Seq<char>>, pos: int, table: NameTable, i: int, t: int)
    requires
        0 <= i <= t < labels.len(),
    ensures
        offset_of(table + new_entries(labels, pos, i), join_dots(labels.skip(t))) == offset_of(
            table,
            join_dots(labels.skip(t)),
        ),
{
    let more = new_entries(labels, pos, i);
    let name = join_dots(labels.skip(t));
    assert forall|a: int| 0 <= a < more.len() implies (#[trigger] more[a]).0 != name by {
        lemma_suffix_names_differ(labels, a, t);
    }
    lemma_offset_of_others(table, more, name);
}

/// What encoding gives from label `i` on, after the labels before it were
/// written out: the labels up to the first known ending, and that ending.
pub proof fn lemma_encode_shape(labels: Seq<Seq<char>>, i: int, pos: int, table: NameTable)
    requires
        0 <= i <= first_known(labels, 0, table),
    ensures
        ({
            let k = first_known(labels, 0, table);
            let rest = encode_labels(
                labels,
                i,
                pos + wire_len(labels, i),
                table + new_entries(labels, pos, i),
            );
            rest.result matches Ok(bytes) ==> {
                &&& bytes == wire_from(labels, i, k) + name_end(labels, k, table)
                &&& rest.table == table + new_entries(labels, pos, k)
                &&& k < labels.len() ==> offset_of(table, join_dots(labels.skip(k)))->Some_0
                    <= MAX_OFFSET
                &&& forall|t: int|
                    i <= t < k ==> encode_utf8(#[trigger] labels[t]).len() <= MAX_LABEL_LEN && pos
                        + wire_len(labels, t) <= MAX_OFFSET
            }
        }),
    decreases first_known(labels, 0, table) - i,
{
    let k = first_known(labels, 0, table);
    let at = pos + wire_len(labels, i);
    let so_far = table + new_entries(labels, pos, i);
    lemma_first_known(labels, 0, table);
    if i < labels.len() {
        let name = join_dots(labels.skip(i));
        lemma_entries_keep(labels, pos, table, i, i);
        if i < k {
            assert(offset_of(so_far, name) is None);
            assert(record(so_far, name, at) == table + new_entries(labels, pos, i + 1));
            lemma_encode_shape(labels, i + 1, pos, table);
            let rest = encode_labels(labels, i, at, so_far);
            if let Ok(bytes) = rest.result {
                assert(bytes == wire_from(labels, i, k) + name_end(labels, k, table));
            }
        } else {
            assert(wire_from(labels, i, k) + name_end(labels, k, table) == name_end(
                labels,
                k,
                table,
            ));
        }
    } else {
        assert(wire_from(labels, i, k) + name_end(labels, k, table) == seq![0u8]);
    }
}

/// Recording the names of the labels just read, each of them new to the
/// table, appends one entry for each.
pub proof fn lemma_register_all(
    table: NameTable,
    labels: Seq<Seq<char>>,
    offsets: Seq<int>,
    tail: Option<Seq<char>>,
    entries: NameTable,
    j: int,
)
    requires
        labels.len() == offsets.len(),
        labels.len() == entries.len(),
        0 <= j <= labels.len(),
        forall|t: int|
            0 <= t < labels.len() ==> #[trigger] entries[t] == (
                full_name(labels.skip(t), tail),
                offsets[t],
            ),
        forall|t: int|
            j <= t < labels.len() ==> offset_of(table + entries.take(t), (#[trigger] entries[t]).0) is None,
    ensures
        register(table + entries.take(j), labels, offsets, tail, j) == table + entries,
    decreases labels.len() - j,
{
    if j < labels.len() {
        let so_far = table + entries.take(j);
        assert(offset_of(so_far, entries[j].0) is None);
        assert(so_far.push(entries[j]) == table + entries.take(j + 1));
        lemma_register_all(table, labels, offsets, tail, entries, j + 1);
    } else {
        assert(entries.take(j) == entries);
    }
}

/// The byte of a label's length announces a label.
proof fn lemma_length_byte(len: u8)
    requires
        1 <= len <= 63,
    ensures
        len != 0,
        len & 0xc0 != 0xc0,
{
    assert(len & 0xc0 != 0xc0) by (bit_vector)
        requires
            1 <= len <= 63,
    ;
}

/// The bytes of a pointer announce a pointer and hold its offset.
pub proof fn lemma_pointer_bytes(offset: u16)
    requires
        offset <= 0x3fff,
    ensures
        ({
            let pointer = 0xc000u16 | offset;
            let high = (pointer >> 8) as u8;
            let low = (pointer & 0xff) as u8;
            &&& high != 0
            &&& high & 0xc0 == 0xc0
            &&& u16_of(high, low) == pointer
            &&& pointer & 0x3fff == offset
        }),
{
    let pointer = 0xc000u16 | offset;
    lemma_u16_round_trip(pointer);
    assert(((pointer >> 8) as u8) != 0 && ((pointer >> 8) as u8) & 0xc0 == 0xc0 && pointer & 0x3fff
        == offset) by (bit_vector)
        requires
            offset <= 0x3fff,
            pointer == 0xc000u16 | offset,
    ;
}

/// A plain label that a buffer holds at `at` is read as a label, and as
/// itself.
pub proof fn lemma_read_label(buf: Seq<u8>, at: int, label: Seq<char>)
    requires
        plain_label(label),
        0 <= at,
        at + label_bytes(label).len() <= buf.len(),
        buf.subrange(at, at + label_bytes(label).len()) == label_bytes(label),
    ensures
        classify(buf, at) == Ok::<_, DnsError>(LabelByte::Length),
        read_string(buf, at) == Ok::<_, DnsError>((at + label_bytes(label).len(), label)),
{
    broadcast use vstd::utf8::encode_utf8_valid_utf8, vstd::utf8::encode_utf8_decode_utf8;

    let text = encode_utf8(label);
    let len = text.len() as u8;
    let held = buf.subrange(at, at + label_bytes(label).len());
    lemma_length_byte(len);
    assert(held[0] == len);
    assert(buf[at] == len);
    assert(buf.subrange(at + 1, at + 1 + len) == text) by {
        assert forall|x: int| 0 <= x < len implies buf.subrange(at + 1, at + 1 + len)[x]
            == text[x] by {
            assert(held[x + 1] == text[x]);
        }
    }
}

/// A name of plain labels that is written out in full is decoded to its
/// labels, whatever the table holds.
pub proof fn lemma_decode_full(
    buf: Seq<u8>,
    labels: Seq<Seq<char>>,
    i: int,
    pos: int,
    offsets: Seq<int>,
    table: NameTable,
)
    requires
        plain_name(labels),
        0 <= pos,
        0 <= i <= labels.len(),
        pos + wire_len(labels, labels.len() as int) + 1 <= buf.len(),
        buf.subrange(
            pos + wire_len(labels, i),
            pos + wire_len(labels, labels.len() as int) + 1,
        ) == wire_from(labels, i, labels.len() as int) + seq![0u8],
    ensures
        decode_labels(buf, pos + wire_len(labels, i), labels.take(i), offsets, table).result == Ok::<
            _,
            DnsError,
        >((pos + wire_len(labels, labels.len() as int) + 1, labels)),
    decreases labels.len() - i,
{
    let n = labels.len() as int;
    let at = pos + wire_len(labels, i);
    let end = pos + wire_len(labels, n) + 1;
    let rest = buf.subrange(at, end);
    lemma_wire_len_grows(labels, i, n);
    lemma_wire_len_grows(labels, 0, i);
    if i < n {
        let label = labels[i];
        let len = label_bytes(label).len() as int;
        lemma_wire_len_grows(labels, i + 1, n);
        lemma_wire_from_len(labels, i + 1, n);
        assert(wire_from(labels, i, n) == label_bytes(label) + wire_from(labels, i + 1, n));
        assert(buf.subrange(at, at + len) == label_bytes(label)) by {
            assert forall|x: int| 0 <= x < len implies buf.subrange(at, at + len)[x]
                == label_bytes(label)[x] by {
                assert(rest[x] == label_bytes(label)[x]);
            }
        }
        lemma_read_label(buf, at, label);
        assert(buf.subrange(at + len, end) == wire_from(labels, i + 1, n) + seq![0u8]) by {
            let next = buf.subrange(at + len, end);
            let want = wire_from(labels, i + 1, n) + seq![0u8];
            assert forall|x: int| 0 <= x < next.len() implies next[x] == want[x] by {
                assert(rest[x + len] == want[x]);
            }
        }
        assert(labels.take(i).push(label) == labels.take(i + 1));
        lemma_decode_full(buf, labels, i + 1, pos, offsets.push(at), table);
    } else {
        assert(wire_from(labels, i, n) + seq![0u8] == seq![0u8]);
        assert(buf[at] == rest[0]);
        assert(labels.take(i) == labels);
    }
}

/// What decoding gives from label `i` on, after the labels before it were
/// read, where the buffer holds the compressed form of a name.
pub proof fn lemma_decode_shape(
    buf: Seq<u8>,
    labels: Seq<Seq<char>>,
    i: int,
    pos: int,
    table: NameTable,
)
    requires
        plain_name(labels),
        0 <= pos,
        ordered_before(table, pos),
        0 <= i <= first_known(labels, 0, table),
        ({
            let k = first_known(labels, 0, table);
            let end = pos + wire_len(labels, k) + name_end(labels, k, table).len();
            &&& k < labels.len() ==> offset_of(table, join_dots(labels.skip(k)))->Some_0
                <= MAX_OFFSET
            &&& end <= buf.len()
            &&& buf.subrange(pos + wire_len(labels, i), end) == wire_from(labels, i, k) + name_end(
                labels,
                k,
                table,
            )
        }),
    ensures
        ({
            let k = first_known(labels, 0, table);
            let end = pos + wire_len(labels, k) + name_end(labels, k, table).len();
            decode_labels(
                buf,
                pos + wire_len(labels, i),
                labels.take(i),
                label_offsets(labels, pos, i),
                table,
            ) == (Decoding {
                result: Ok((end, labels)),
                table: table + new_entries(labels, pos, k),
            })
        }),
    decreases first_known(labels, 0, table) - i,
{
    let k = first_known(labels, 0, table);
    let at = pos + wire_len(labels, i);
    let tail = name_end(labels, k, table);
    let end = pos + wire_len(labels, k) + tail.len();
    let rest = buf.subrange(at, end);
    let read = labels.take(i);
    let offsets = label_offsets(labels, pos, i);
    let entries = new_entries(labels, pos, k);
    lemma_first_known(labels, 0, table);
    lemma_wire_len_grows(labels, i, k);
    lemma_wire_len_grows(labels, 0, i);
    if i < k {
        let label = labels[i];
        let len = label_bytes(label).len() as int;
        lemma_wire_len_grows(labels, i + 1, k);
        lemma_wire_from_len(labels, i + 1, k);
        assert(wire_from(labels, i, k) == label_bytes(label) + wire_from(labels, i + 1, k));
        assert(buf.subrange(at, at + len) == label_bytes(label)) by {
            assert forall|x: int| 0 <= x < len implies buf.subrange(at, at + len)[x]
                == label_bytes(label)[x] by {
                assert(rest[x] == label_bytes(label)[x]);
            }
        }
        lemma_read_label(buf, at, label);
        assert(read.push(label) == labels.take(i + 1));
        assert(offsets.push(at) == label_offsets(labels, pos, i + 1));
        assert(buf.subrange(at + len, end) == wire_from(labels, i + 1, k) + tail) by {
            let next = buf.subrange(at + len, end);
            let want = wire_from(labels, i + 1, k) + tail;
            assert forall|x: int| 0 <= x < next.len() implies next[x] == want[x] by {
                assert(rest[x + len] == want[x]);
            }
        }
        lemma_decode_shape(buf, labels, i + 1, pos, table);
    } else {
        assert(wire_from(labels, i, k) + tail == tail);
        assert(buf[at] == rest[0]);
        assert forall|t: int| 0 <= t < k implies offset_of(
            table + entries.take(t),
            (#[trigger] entries[t]).0,
        ) is None by {
            assert(entries.take(t) == new_entries(labels, pos, t));
            lemma_entries_keep(labels, pos, table, t, t);
        }
        assert(entries.take(0) == Seq::<(Seq<char>, int)>::empty());
        assert(table + entries.take(0) == table);
        if k == labels.len() {
            assert(read == labels);
            assert forall|t: int| 0 <= t < k implies #[trigger] entries[t] == (
                full_name(read.skip(t), None),
                offsets[t],
            ) by {}
            lemma_register_all(table, read, offsets, None, entries, 0);
        } else {
            let name = join_dots(labels.skip(k));
            let offset = offset_of(table, name)->Some_0;
            let found = lemma_offset_of_some(table, name);
            lemma_name_at_entry(table, found);
            lemma_pointer_bytes(offset as u16);
            let pointer = 0xc000u16 | (offset as u16);
            assert(buf[at + 1] == rest[1]);
            assert(classify(buf, at) == Ok::<_, DnsError>(LabelByte::Pointer));
            assert(read_u16(buf, at) == Ok::<_, DnsError>((at + 2, pointer)));
            assert((pointer & 0x3fff) as int == offset);
            assert forall|t: int| 0 <= t < labels.skip(k).len() implies dot_free(
                #[trigger] labels.skip(k)[t],
            ) by {
                assert(plain_label(labels[k + t]));
            }
            lemma_split_join(labels.skip(k));
            assert(read + labels.skip(k) == labels);
            assert forall|t: int| 0 <= t < k implies #[trigger] entries[t] == (
                full_name(read.skip(t), Some(name)),
                offsets[t],
            ) by {
                lemma_join_nested(read.skip(t), labels.skip(k));
                assert(read.skip(t) + labels.skip(k) == labels.skip(t));
            }
            lemma_register_all(table, read, offsets, Some(name), entries, 0);
        }
    }
}

/// The entries that a name adds keep the table in order.
pub proof fn lemma_entries_ordered(labels: Seq<Seq<char>>, pos: int, table: NameTable, k: int, end: int)
    requires
        0 <= pos,
        0 <= k,
        ordered_before(table, pos),
        pos + wire_len(labels, k) <= end,
        k == 0 ==> pos <= end,
    ensures
        ordered_before(table + new_entries(labels, pos, k), end),
{
    let more = new_entries(labels, pos, k);
    let all = table + more;
    lemma_wire_len_grows(labels, 0, k);
    assert forall|a: int| 0 <= a < all.len() implies 0 <= (#[trigger] all[a]).1 < end by {
        if a >= table.len() {
            assert(all[a] == more[a - table.len()]);
            lemma_wire_len_grows(labels, a - table.len(), k);
        } else {
            assert(all[a] == table[a]);
        }
    }
    assert forall|a: int, b: int| 0 <= a < b < all.len() implies (#[trigger] all[a]).1 < (
    #[trigger] all[b]).1 by {
        if b >= table.len() {
            assert(all[b] == more[b - table.len()]);
            lemma_wire_len_grows(labels, 0, b - table.len());
            if a >= table.len() {
                assert(all[a] == more[a - table.len()]);
                lemma_wire_len_grows(labels, a - table.len(), b - table.len());
            } else {
                assert(all[a] == table[a]);
            }
        } else {
            assert(all[a] == table[a] && all[b] == table[b]);
        }
    }
}

/// Whether a name can be encoded at `pos`: each label that is written out
/// fits its length byte and starts within reach of a pointer, and so does
/// the ending that the table knows, where it knows one.
pub open spec fn encodable(labels: Seq<Seq<char>>, pos: int, table: NameTable) -> bool {
    let k = first_known(labels, 0, table);
    &&& forall|t: int|
        0 <= t < k ==> encode_utf8(#[trigger] labels[t]).len() <= MAX_LABEL_LEN && pos + wire_len(
            labels,
            t,
        ) <= MAX_OFFSET
    &&& k < labels.len() ==> offset_of(table, join_dots(labels.skip(k)))->Some_0 <= MAX_OFFSET
}

/// A name is encoded exactly if it can be.
pub proof fn lemma_encode_succeeds_iff(labels: Seq<Seq<char>>, pos: int, table: NameTable)
    requires
        labels.len() >= 1,
    ensures
        encode_domain(labels, pos, table).result is Ok <==> encodable(labels, pos, table),
{
    lemma_first_known(labels, 0, table);
    assert(table + new_entries(labels, pos, 0) == table);
    lemma_encode_shape(labels, 0, pos, table);
    if encodable(labels, pos, table) {
        lemma_encode_succeeds(labels, 0, pos, table);
    }
}

/// A name is encoded in its compressed form: the labels before the first
/// ending that the table knows are written out and recorded, and a pointer
/// to that ending follows, or the zero byte where the table knows none.
pub proof fn lemma_encode_compresses(labels: Seq<Seq<char>>, pos: int, table: NameTable)
    requires
        labels.len() >= 1,
        encode_domain(labels, pos, table).result is Ok,
    ensures
        encode_domain(labels, pos, table) == (Encoding {
            result: Ok(compressed(labels, table)),
            table: table + new_entries(labels, pos, first_known(labels, 0, table)),
        }),
        compressed(labels, table).len() == wire_len(labels, first_known(labels, 0, table))
            + name_end(labels, first_known(labels, 0, table), table).len(),
        first_known(labels, 0, table) < labels.len() ==> offset_of(
            table,
            join_dots(labels.skip(first_known(labels, 0, table))),
        )->Some_0 <= MAX_OFFSET,
{
    lemma_first_known(labels, 0, table);
    assert(table + new_entries(labels, pos, 0) == table);
    lemma_encode_shape(labels, 0, pos, table);
    lemma_wire_from_len(labels, 0, first_known(labels, 0, table));
}

/// Where each label that is written out fits its length byte and starts
/// within reach of a pointer, and the ending that the table knows lies
/// within reach too, the name can be encoded.
pub proof fn lemma_encode_succeeds(labels: Seq<Seq<char>>, i: int, pos: int, table: NameTable)
    requires
        0 <= i <= first_known(labels, 0, table),
        forall|t: int|
            i <= t < first_known(labels, 0, table) ==> encode_utf8(#[trigger] labels[t]).len()
                <= MAX_LABEL_LEN && pos + wire_len(labels, t) <= MAX_OFFSET,
        first_known(labels, 0, table) < labels.len() ==> offset_of(
            table,
            join_dots(labels.skip(first_known(labels, 0, table))),
        )->Some_0 <= MAX_OFFSET,
    ensures
        encode_labels(
            labels,
            i,
            pos + wire_len(labels, i),
            table + new_entries(labels, pos, i),
        ).result is Ok,
    decreases first_known(labels, 0, table) - i,
{
    let k = first_known(labels, 0, table);
    let at = pos + wire_len(labels, i);
    let so_far = table + new_entries(labels, pos, i);
    lemma_first_known(labels, 0, table);
    if i < labels.len() {
        let name = join_dots(labels.skip(i));
        lemma_entries_keep(labels, pos, table, i, i);
        if i < k {
            assert(offset_of(so_far, name) is None);
            assert(encode_utf8(labels[i]).len() <= MAX_LABEL_LEN);
            assert(record(so_far, name, at) == table + new_entries(labels, pos, i + 1));
            lemma_encode_succeeds(labels, i + 1, pos, table);
        }
    }
}

/// A name of plain labels that was encoded at `pos`, after a message whose
/// table is in order, is decoded to itself from any buffer that holds its
/// bytes at `pos`, whether it ends in a pointer or not. Decoding leaves the
/// table that encoding left, and the cursor at the end of the name.
pub proof fn lemma_domain_round_trip(
    labels: Seq<Seq<char>>,
    pos: int,
    table: NameTable,
    buf: Seq<u8>,
)
    requires
        plain_name(labels),
        0 <= pos,
        ordered_before(table, pos),
        encode_domain(labels, pos, table).result matches Ok(bytes) && pos + bytes.len()
            <= buf.len() && buf.subrange(pos, pos + bytes.len()) == bytes,
    ensures
        decode_domain(buf, pos, table) == (Decoding {
            result: Ok((pos + encode_domain(labels, pos, table).result->Ok_0.len(), labels)),
            table: encode_domain(labels, pos, table).table,
        }),
        ordered_before(
            encode_domain(labels, pos, table).table,
            pos + encode_domain(labels, pos, table).result->Ok_0.len(),
        ),
{
    let k = first_known(labels, 0, table);
    lemma_encode_compresses(labels, pos, table);
    lemma_first_known(labels, 0, table);
    if k < labels.len() {
        let found = lemma_offset_of_some(table, join_dots(labels.skip(k)));
    }
    assert(labels.take(0) == Seq::<Seq<char>>::empty());
    assert(label_offsets(labels, pos, 0) == Seq::<int>::empty());
    lemma_decode_shape(buf, labels, 0, pos, table);
    lemma_entries_ordered(
        labels,
        pos,
        table,
        k,
        pos + encode_domain(labels, pos, table).result->Ok_0.len(),
    );
}

/// A digit or one of the letters `a` to `f`.
pub open spec fn lower_hex(c: char) -> bool {
    ('0' <= c <= '9') || ('a' <= c <= 'f')
}

/// A name of two to six labels, each of one to five lower-case hexadecimal
/// digits.
pub open spec fn hex_name(labels: Seq<Seq<char>>) -> bool {
    &&& 2 <= labels.len() <= 6
    &&& forall|i: int|
        0 <= i < labels.len() ==> 1 <= (#[trigger] labels[i]).len() <= 5 && forall|j: int|
            0 <= j < labels[i].len() ==> lower_hex(#[trigger] labels[i][j])
}

/// A label of hexadecimal digits takes one byte for each digit.
pub proof fn lemma_hex_label(label: Seq<char>)
    requires
        forall|j: int| 0 <= j < label.len() ==> lower_hex(#[trigger] label[j]),
    ensures
        encode_utf8(label).len() == label.len(),
        dot_free(label),
{
    assert(vstd::utf8::is_ascii_chars(label));
    vstd::utf8::is_ascii_chars_encode_utf8(label);
}

/// A name of hexadecimal labels, encoded with an empty table at offset 0,
/// is written out in full, and decoding those bytes with an empty table
/// gives the labels back.
pub proof fn lemma_hex_name_round_trip(labels: Seq<Seq<char>>)
    requires
        hex_name(labels),
    ensures
        encode_domain(labels, 0, Seq::empty()).result matches Ok(bytes) && bytes == wire_from(
            labels,
            0,
            labels.len() as int,
        ) + seq![0u8] && decode_domain(bytes, 0, Seq::empty()).result == Ok::<_, DnsError>(
            (bytes.len() as int, labels),
        ),
{
    let table = Seq::<(Seq<char>, int)>::empty();
    let n = labels.len() as int;
    assert forall|t: int| 0 <= t < n implies plain_label(#[trigger] labels[t]) by {
        lemma_hex_label(labels[t]);
    }
    lemma_first_known_fresh(labels, 0);
    assert forall|t: int| 0 <= t < n implies encode_utf8(#[trigger] labels[t]).len()
        <= MAX_LABEL_LEN && wire_len(labels, t) <= MAX_OFFSET by {
        lemma_hex_label(labels[t]);
        lemma_hex_wire_len(labels, t);
    }
    assert(table + new_entries(labels, 0, 0) == table);
    lemma_encode_succeeds(labels, 0, 0, table);
    lemma_encode_compresses(labels, 0, table);
    let bytes = encode_domain(labels, 0, table).result->Ok_0;
    assert(bytes.subrange(0, bytes.len() as int) == bytes);
    lemma_domain_round_trip(labels, 0, table, bytes);
}

/// An empty table knows no name.
pub proof fn lemma_first_known_fresh(labels: Seq<Seq<char>>, i: int)
    requires
        0 <= i <= labels.len(),
    ensures
        first_known(labels, i, Seq::empty()) == labels.len(),
    decreases labels.len() - i,
{
    if i < labels.len() {
        lemma_first_known_fresh(labels, i + 1);
    }
}

/// The first `i` labels of a hexadecimal name take at most six bytes each.
proof fn lemma_hex_wire_len(labels: Seq<Seq<char>>, i: int)
    requires
        hex_name(labels),
        0 <= i <= labels.len(),
    ensures
        wire_len(labels, i) <= 6 * i,
    decreases i,
{
    if i > 0 {
        lemma_hex_wire_len(labels, i - 1);
        lemma_hex_label(labels[i - 1]);
    }
}

/// A name that was encoded with a pointer is decoded to the labels that its
/// full form is decoded to: the labels of the name.
pub proof fn lemma_pointer_resolves(
    labels: Seq<Seq<char>>,
    pos: int,
    table: NameTable,
    short: Seq<u8>,
    long: Seq<u8>,
)
    requires
        plain_name(labels),
        0 <= pos,
        ordered_before(table, pos),
        encode_domain(labels, pos, table).result matches Ok(bytes) && pos + bytes.len()
            <= short.len() && short.subrange(pos, pos + bytes.len()) == bytes,
        pos + wire_len(labels, labels.len() as int) + 1 <= long.len(),
        long.subrange(pos, pos + wire_len(labels, labels.len() as int) + 1) == wire_from(
            labels,
            0,
            labels.len() as int,
        ) + seq![0u8],
    ensures
        decode_domain(short, pos, table).result matches Ok(found) && found.1 == labels,
        decode_domain(long, pos, table).result matches Ok(found) && found.1 == labels,
{
    lemma_domain_round_trip(labels, pos, table, short);
    assert(labels.take(0) == Seq::<Seq<char>>::empty());
    lemma_decode_full(long, labels, 0, pos, Seq::empty(), table);
}

/// Encoding a name only grows the table, whether it succeeds or not.
pub proof fn lemma_encode_grows(labels: Seq<Seq<char>>, pos: int, table: NameTable)
    ensures
        grown_from(encode_domain(labels, pos, table).table, table),
{
    assert(table.take(table.len() as int) == table);
    lemma_encode_labels_grows(labels, 0, pos, table);
}

/// Encoding the labels from `i` on only grows the table.
pub proof fn lemma_encode_labels_grows(labels: Seq<Seq<char>>, i: int, at: int, table: NameTable)
    requires
        0 <= i,
    ensures
        grown_from(encode_labels(labels, i, at, table).table, table),
    decreases labels.len() - i,
{
    assert(table.take(table.len() as int) == table);
    if i < labels.len() {
        let name = join_dots(labels.skip(i));
        if offset_of(table, name) is None && at <= MAX_OFFSET && encode_utf8(labels[i]).len()
            <= MAX_LABEL_LEN {
            let next = record(table, name, at);
            lemma_record_grows(table, name, at);
            lemma_encode_labels_grows(labels, i + 1, at + label_bytes(labels[i]).len(), next);
            lemma_grown_twice(
                encode_labels(labels, i + 1, at + label_bytes(labels[i]).len(), next).table,
                next,
                table,
            );
        }
    }
}

/// Recording the names of the labels just read only grows the table.
pub proof fn lemma_register_grows(
    table: NameTable,
    labels: Seq<Seq<char>>,
    offsets: Seq<int>,
    tail: Option<Seq<char>>,
    i: int,
)
    ensures
        grown_from(register(table, labels, offsets, tail, i), table),
    decreases labels.len() - i,
{
    assert(table.take(table.len() as int) == table);
    if 0 <= i < labels.len() {
        let next = record(table, full_name(labels.skip(i), tail), offsets[i]);
        lemma_record_grows(table, full_name(labels.skip(i), tail), offsets[i]);
        lemma_register_grows(next, labels, offsets, tail, i + 1);
        lemma_grown_twice(register(next, labels, offsets, tail, i + 1), next, table);
    }
}

/// Decoding a name only grows the table, whether it succeeds or not.
pub proof fn lemma_decode_grows(buf: Seq<u8>, pos: int, table: NameTable)
    ensures
        grown_from(decode_domain(buf, pos, table).table, table),
{
    lemma_decode_labels_grows(buf, pos, Seq::empty(), Seq::empty(), table);
}

/// Decoding the rest of a name only grows the table.
pub proof fn lemma_decode_labels_grows(
    buf: Seq<u8>,
    at: int,
    labels: Seq<Seq<char>>,
    offsets: Seq<int>,
    table: NameTable,
)
    ensures
        grown_from(decode_labels(buf, at, labels, offsets, table).table, table),
    decreases buf.len() - at,
{
    assert(table.take(table.len() as int) == table);
    match classify(buf, at) {
        Ok(LabelByte::Null) => {
            lemma_register_grows(table, labels, offsets, None, 0);
        },
        Ok(LabelByte::Pointer) => {
            if let Ok((next, pointer)) = read_u16(buf, at) {
                if let Some(name) = name_at(table, (pointer & 0x3fff) as int) {
                    lemma_register_grows(table, labels, offsets, Some(name), 0);
                }
            }
        },
        Ok(LabelByte::Length) => {
            if let Ok((next, label)) = read_string(buf, at) {
                lemma_decode_labels_grows(buf, next, labels.push(label), offsets.push(at), table);
            }
        },
        Err(_) => {},
    }
}

} // verus!
