//! The compact binary encoding of a row.
//!
//! A row is written as the number of its columns followed by each column's
//! name and cell. Lengths and counts are variable-length integers: a value
//! up to 250 is one byte; larger values are a marker byte (251, 252 or 253)
//! followed by the value in 2, 4 or 8 little-endian bytes. Text is its
//! length in bytes followed by its UTF-8 bytes. A cell is a one-integer
//! type marker (0 string, 1 number, 2 timestamp, 3 null) followed by the
//! payload: text, eight little-endian bytes, or a zigzag-coded integer.
//!
//! This is the layout that the `bincode` crate writes in its standard
//! configuration for a map from strings to an enumeration of the four kinds
//! of cell, so that rows written by either can be read by the other.

use vstd::prelude::*;
use vstd::slice::slice_subrange;
use crate::db::row::{cell_fits, texts_fit, Row};
use crate::db::{DBValue, ValueModel};
use crate::text::{bytes_of, lemma_utf8_round_trip, text_from_utf8, utf8_bytes, utf8_text};

verus! {

/// The value of two little-endian bytes.
pub open spec fn le2_value(s: Seq<u8>) -> nat {
    s[0] as nat + 256 * (s[1] as nat)
}

/// The value of four little-endian bytes.
pub open spec fn le4_value(s: Seq<u8>) -> nat {
    s[0] as nat + 256 * (s[1] as nat) + 65536 * (s[2] as nat) + 16777216 * (s[3] as nat)
}

/// The value of eight little-endian bytes.
pub open spec fn le8_value(s: Seq<u8>) -> nat {
    le4_value(s) + 4294967296 * le4_value(s.skip(4))
}

/// A value below 2^16 as two little-endian bytes.
pub open spec fn le2_bytes(n: nat) -> Seq<u8> {
    seq![(n % 256) as u8, (n / 256 % 256) as u8]
}

/// A value below 2^32 as four little-endian bytes.
pub open spec fn le4_bytes(n: nat) -> Seq<u8> {
    seq![
        (n % 256) as u8,
        (n / 256 % 256) as u8,
        (n / 256 / 256 % 256) as u8,
        (n / 256 / 256 / 256 % 256) as u8,
    ]
}

/// A value below 2^64 as eight little-endian bytes.
pub open spec fn le8_bytes(n: nat) -> Seq<u8> {
    le4_bytes(n % 4294967296) + le4_bytes(n / 4294967296)
}

/// A variable-length unsigned integer.
pub open spec fn varint(n: u64) -> Seq<u8> {
    if n <= 250 {
        seq![n as u8]
    } else if n <= 0xffff {
        seq![251u8] + le2_bytes(n as nat)
    } else if n <= 0xffff_ffff {
        seq![252u8] + le4_bytes(n as nat)
    } else {
        seq![253u8] + le8_bytes(n as nat)
    }
}

/// Reads a variable-length unsigned integer of up to 64 bits from the front
/// of `s`: the value and the number of bytes it took. A marker is followed
/// by as many bytes as it announces, whatever the value they hold.
pub open spec fn parse_varint(s: Seq<u8>) -> Option<(u64, nat)> {
    if s.len() == 0 {
        None
    } else if s[0] <= 250 {
        Some((s[0] as u64, 1))
    } else if s[0] == 251 {
        if s.len() >= 3 {
            Some((le2_value(s.skip(1)) as u64, 3))
        } else {
            None
        }
    } else if s[0] == 252 {
        if s.len() >= 5 {
            Some((le4_value(s.skip(1)) as u64, 5))
        } else {
            None
        }
    } else if s[0] == 253 {
        if s.len() >= 9 {
            Some((le8_value(s.skip(1)) as u64, 9))
        } else {
            None
        }
    } else {
        None
    }
}

/// Reads a variable-length unsigned integer of up to 32 bits: as
/// `parse_varint`, but the eight-byte form is not accepted.
pub open spec fn parse_varint32(s: Seq<u8>) -> Option<(u64, nat)> {
    if s.len() > 0 && s[0] == 253 {
        None
    } else {
        parse_varint(s)
    }
}

/// The zigzag code of a signed integer: 0, -1, 1, -2, ... become 0, 1, 2,
/// 3, ...
pub open spec fn zigzag(t: i64) -> u64 {
    if t < 0 {
        (-2 * (t as int) - 1) as u64
    } else {
        (2 * (t as int)) as u64
    }
}

/// The signed integer of a zigzag code.
pub open spec fn unzigzag(n: u64) -> i64 {
    if n % 2 == 0 {
        (n / 2) as i64
    } else {
        (-((n / 2) as int) - 1) as i64
    }
}

/// Text: the length of its UTF-8 form, then that form.
pub open spec fn encode_text(t: Seq<char>) -> Seq<u8> {
    varint(utf8_bytes(t).len() as u64) + utf8_bytes(t)
}

/// Reads text from the front of `s`: its characters and the number of bytes
/// taken. The announced bytes must be there and be well-formed UTF-8.
pub open spec fn parse_text(s: Seq<u8>) -> Option<(Seq<char>, nat)> {
    match parse_varint(s) {
        Some((len, used)) => {
            if s.len() - used >= len {
                match utf8_text(s.subrange(used as int, used + len)) {
                    Some(text) => Some((text, (used + len) as nat)),
                    None => None,
                }
            } else {
                None
            }
        },
        None => None,
    }
}

/// A cell: its type marker, then its payload.
pub open spec fn encode_value(v: ValueModel) -> Seq<u8> {
    match v {
        ValueModel::String(s) => seq![0u8] + encode_text(s),
        ValueModel::Number(bits) => seq![1u8] + le8_bytes(bits as nat),
        ValueModel::Timestamp(t) => seq![2u8] + varint(zigzag(t)),
        ValueModel::Null => seq![3u8],
    }
}

/// Reads a cell from the front of `s`.
pub open spec fn parse_value(s: Seq<u8>) -> Option<(ValueModel, nat)> {
    match parse_varint32(s) {
        Some((tag, used)) => {
            let rest = s.skip(used as int);
            if tag == 0 {
                match parse_text(rest) {
                    Some((text, n)) => Some((ValueModel::String(text), used + n)),
                    None => None,
                }
            } else if tag == 1 {
                if rest.len() >= 8 {
                    Some((ValueModel::Number(le8_value(rest) as u64), used + 8))
                } else {
                    None
                }
            } else if tag == 2 {
                match parse_varint(rest) {
                    Some((n, m)) => Some((ValueModel::Timestamp(unzigzag(n)), used + m)),
                    None => None,
                }
            } else if tag == 3 {
                Some((ValueModel::Null, used))
            } else {
                None
            }
        },
        None => None,
    }
}

/// The columns of a row one after the other: name, then cell.
pub open spec fn encode_entries(names: Seq<Seq<char>>, cells: Seq<ValueModel>) -> Seq<u8>
    decreases names.len(),
{
    if names.len() == 0 || cells.len() == 0 {
        Seq::empty()
    } else {
        encode_text(names[0]) + encode_value(cells[0]) + encode_entries(
            names.drop_first(),
            cells.drop_first(),
        )
    }
}

/// The encoding of a row with the given names and cells, in that order.
pub open spec fn encode_columns(names: Seq<Seq<char>>, cells: Seq<ValueModel>) -> Seq<u8> {
    varint(names.len() as u64) + encode_entries(names, cells)
}

/// Reads one column from the front of `s`: its name, its cell and the
/// number of bytes taken.
pub open spec fn parse_entry(s: Seq<u8>) -> Option<(Seq<char>, ValueModel, nat)> {
    match parse_text(s) {
        Some((name, n1)) => match parse_value(s.skip(n1 as int)) {
            Some((value, n2)) => Some((name, value, n1 + n2)),
            None => None,
        },
        None => None,
    }
}

/// Reads `count` columns from the front of `s` and adds them to `known` in
/// the order read, a later column replacing an earlier one of the same
/// name.
pub open spec fn parse_entries(
    s: Seq<u8>,
    count: nat,
    known: Map<Seq<char>, ValueModel>,
) -> Option<Map<Seq<char>, ValueModel>>
    decreases count,
{
    if count == 0 {
        Some(known)
    } else {
        match parse_entry(s) {
            Some((name, value, n)) => parse_entries(
                s.skip(n as int),
                (count - 1) as nat,
                known.insert(name, value),
            ),
            None => None,
        }
    }
}

/// Reads a row from the front of `s`. Bytes after the row are not looked
/// at.
pub open spec fn parse_row(s: Seq<u8>) -> Option<Map<Seq<char>, ValueModel>> {
    match parse_varint(s) {
        Some((count, used)) => parse_entries(s.skip(used as int), count as nat, Map::empty()),
        None => None,
    }
}

/// The map that holds `cells[i]` under `names[i]`, added to `known` in
/// order.
pub open spec fn with_entries(
    names: Seq<Seq<char>>,
    cells: Seq<ValueModel>,
    known: Map<Seq<char>, ValueModel>,
) -> Map<Seq<char>, ValueModel>
    decreases names.len(),
{
    if names.len() == 0 || cells.len() == 0 {
        known
    } else {
        with_entries(names.drop_first(), cells.drop_first(), known.insert(names[0], cells[0]))
    }
}

/// What follows a prefix is what was appended to it.
proof fn lemma_skip_concat(a: Seq<u8>, b: Seq<u8>)
    ensures
        (a + b).skip(a.len() as int) == b,
        (a + b).subrange(0, a.len() as int) == a,
        (a + b).len() == a.len() + b.len(),
{
    assert((a + b).skip(a.len() as int) =~= b);
    assert((a + b).subrange(0, a.len() as int) =~= a);
}

/// Concatenation is associative.
proof fn lemma_concat_assoc(a: Seq<u8>, b: Seq<u8>, c: Seq<u8>)
    ensures
        (a + b) + c == a + (b + c),
{
    assert((a + b) + c =~= a + (b + c));
}

/// Four little-endian bytes hold the value they were made from.
pub proof fn lemma_le4_round_trip(n: nat, rest: Seq<u8>)
    requires
        n < 0x1_0000_0000,
    ensures
        le4_value(le4_bytes(n) + rest) == n,
        le4_bytes(n).len() == 4,
{
    let b = le4_bytes(n);
    let s = b + rest;
    assert(s[0] == b[0] && s[1] == b[1] && s[2] == b[2] && s[3] == b[3]);
}

/// Eight little-endian bytes hold the value they were made from.
pub proof fn lemma_le8_round_trip(n: nat, rest: Seq<u8>)
    requires
        n < 0x1_0000_0000_0000_0000,
    ensures
        le8_value(le8_bytes(n) + rest) == n,
        le8_bytes(n).len() == 8,
{
    let lo = n % 4294967296;
    let hi = n / 4294967296;
    let s = le8_bytes(n) + rest;
    lemma_concat_assoc(le4_bytes(lo), le4_bytes(hi), rest);
    lemma_le4_round_trip(lo, le4_bytes(hi) + rest);
    lemma_skip_concat(le4_bytes(lo), le4_bytes(hi) + rest);
    lemma_le4_round_trip(hi, rest);
}

/// A variable-length integer followed by anything reads back as itself.
pub proof fn lemma_varint_round_trip(n: u64, rest: Seq<u8>)
    ensures
        parse_varint(varint(n) + rest) == Some((n, varint(n).len())),
        1 <= varint(n).len() <= 9,
        n <= 0xffff_ffff ==> parse_varint32(varint(n) + rest) == Some((n, varint(n).len())),
{
    let s = varint(n) + rest;
    if n <= 250 {
    } else if n <= 0xffff {
        let b = le2_bytes(n as nat);
        lemma_concat_assoc(seq![251u8], b, rest);
        lemma_skip_concat(seq![251u8], b + rest);
        assert((b + rest)[0] == b[0] && (b + rest)[1] == b[1]);
    } else if n <= 0xffff_ffff {
        let b = le4_bytes(n as nat);
        lemma_concat_assoc(seq![252u8], b, rest);
        lemma_skip_concat(seq![252u8], b + rest);
        lemma_le4_round_trip(n as nat, rest);
    } else {
        let b = le8_bytes(n as nat);
        lemma_concat_assoc(seq![253u8], b, rest);
        lemma_skip_concat(seq![253u8], b + rest);
        lemma_le8_round_trip(n as nat, rest);
    }
}

/// A zigzag code decodes to the integer it was made from.
pub proof fn lemma_zigzag_round_trip(t: i64)
    ensures
        unzigzag(zigzag(t)) == t,
{
}

/// Text followed by anything reads back as itself.
pub proof fn lemma_text_round_trip(t: Seq<char>, rest: Seq<u8>)
    requires
        utf8_bytes(t).len() <= u64::MAX,
    ensures
        parse_text(encode_text(t) + rest) == Some((t, encode_text(t).len())),
{
    let payload = utf8_bytes(t);
    let len = payload.len() as u64;
    let head = varint(len);
    let s = encode_text(t) + rest;
    lemma_concat_assoc(head, payload, rest);
    lemma_varint_round_trip(len, payload + rest);
    lemma_skip_concat(head, payload + rest);
    lemma_skip_concat(payload, rest);
    assert(s.subrange(head.len() as int, head.len() + len) =~= payload);
    lemma_utf8_round_trip(t);
}

/// A cell followed by anything reads back as itself.
pub proof fn lemma_value_round_trip(v: ValueModel, rest: Seq<u8>)
    requires
        v is String ==> utf8_bytes(v->String_0).len() <= u64::MAX,
    ensures
        parse_value(encode_value(v) + rest) == Some((v, encode_value(v).len())),
{
    let s = encode_value(v) + rest;
    match v {
        ValueModel::String(text) => {
            lemma_concat_assoc(seq![0u8], encode_text(text), rest);
            lemma_skip_concat(seq![0u8], encode_text(text) + rest);
            lemma_text_round_trip(text, rest);
        },
        ValueModel::Number(bits) => {
            lemma_concat_assoc(seq![1u8], le8_bytes(bits as nat), rest);
            lemma_skip_concat(seq![1u8], le8_bytes(bits as nat) + rest);
            lemma_le8_round_trip(bits as nat, rest);
        },
        ValueModel::Timestamp(t) => {
            lemma_concat_assoc(seq![2u8], varint(zigzag(t)), rest);
            lemma_skip_concat(seq![2u8], varint(zigzag(t)) + rest);
            lemma_varint_round_trip(zigzag(t), rest);
            lemma_zigzag_round_trip(t);
        },
        ValueModel::Null => {
            lemma_skip_concat(seq![3u8], rest);
        },
    }
}

/// A column followed by anything reads back as itself.
pub proof fn lemma_entry_round_trip(name: Seq<char>, cell: ValueModel, rest: Seq<u8>)
    requires
        utf8_bytes(name).len() <= u64::MAX,
        cell is String ==> utf8_bytes(cell->String_0).len() <= u64::MAX,
    ensures
        parse_entry(encode_text(name) + encode_value(cell) + rest) == Some(
            (name, cell, (encode_text(name) + encode_value(cell)).len()),
        ),
{
    let e1 = encode_text(name);
    let e2 = encode_value(cell);
    lemma_concat_assoc(e1, e2, rest);
    lemma_text_round_trip(name, e2 + rest);
    lemma_skip_concat(e1, e2 + rest);
    lemma_value_round_trip(cell, rest);
}

/// What holds of every text of a row holds of every text but the first.
proof fn lemma_texts_fit_tail(names: Seq<Seq<char>>, cells: Seq<ValueModel>)
    requires
        names.len() == cells.len(),
        names.len() > 0,
        texts_fit(names, cells),
    ensures
        texts_fit(names.drop_first(), cells.drop_first()),
        utf8_bytes(names[0]).len() <= usize::MAX,
        cells[0] is String ==> utf8_bytes(cells[0]->String_0).len() <= usize::MAX,
{
    assert(cell_fits(cells[0]));
    let n1 = names.drop_first();
    let c1 = cells.drop_first();
    assert forall|i: int| 0 <= i < n1.len() implies utf8_bytes(#[trigger] n1[i]).len()
        <= usize::MAX by {
        assert(n1[i] == names[i + 1]);
    }
    assert forall|i: int| 0 <= i < c1.len() implies cell_fits(#[trigger] c1[i]) by {
        assert(c1[i] == cells[i + 1]);
    }
}

/// Columns followed by anything read back as the map they were written
/// from.
pub proof fn lemma_entries_round_trip(
    names: Seq<Seq<char>>,
    cells: Seq<ValueModel>,
    rest: Seq<u8>,
    known: Map<Seq<char>, ValueModel>,
)
    requires
        names.len() == cells.len(),
        texts_fit(names, cells),
    ensures
        parse_entries(encode_entries(names, cells) + rest, names.len(), known) == Some(
            with_entries(names, cells, known),
        ),
    decreases names.len(),
{
    if names.len() > 0 {
        let n1 = names.drop_first();
        let c1 = cells.drop_first();
        let tail = encode_entries(n1, c1);
        let e1 = encode_text(names[0]);
        let e2 = encode_value(cells[0]);
        let s = encode_entries(names, cells) + rest;
        lemma_texts_fit_tail(names, cells);
        lemma_concat_assoc(e1 + e2, tail, rest);
        lemma_entry_round_trip(names[0], cells[0], tail + rest);
        lemma_skip_concat(e1 + e2, tail + rest);
        lemma_entries_round_trip(n1, c1, rest, known.insert(names[0], cells[0]));
    } else {
        assert(encode_entries(names, cells) + rest =~= rest);
    }
}

/// Adding distinct names to a map: afterwards the map holds each added name
/// with its cell, and what it held before under every other name.
pub proof fn lemma_with_entries(
    names: Seq<Seq<char>>,
    cells: Seq<ValueModel>,
    known: Map<Seq<char>, ValueModel>,
)
    requires
        names.len() == cells.len(),
        names.no_duplicates(),
    ensures
        forall|k: Seq<char>| #[trigger]
            with_entries(names, cells, known).contains_key(k) <==> names.contains(k)
                || known.contains_key(k),
        forall|i: int|
            0 <= i < names.len() ==> with_entries(names, cells, known)[#[trigger] names[i]]
                == cells[i],
        forall|k: Seq<char>|
            !names.contains(k) && known.contains_key(k) ==> #[trigger] with_entries(
                names,
                cells,
                known,
            )[k] == known[k],
    decreases names.len(),
{
    if names.len() > 0 {
        let n1 = names.drop_first();
        let c1 = cells.drop_first();
        let k1 = known.insert(names[0], cells[0]);
        let whole = with_entries(names, cells, known);
        assert(whole == with_entries(n1, c1, k1));
        assert(n1.no_duplicates()) by {
            assert forall|i: int, j: int|
                0 <= i < n1.len() && 0 <= j < n1.len() && i != j implies n1[i] != n1[j] by {
                assert(n1[i] == names[i + 1]);
                assert(n1[j] == names[j + 1]);
            }
        }
        lemma_with_entries(n1, c1, k1);
        assert(!n1.contains(names[0])) by {
            if n1.contains(names[0]) {
                let j = n1.index_of(names[0]);
                assert(n1[j] == names[j + 1]);
            }
        }
        assert forall|k: Seq<char>| #[trigger]
            whole.contains_key(k) <==> names.contains(k) || known.contains_key(k) by {
            assert(with_entries(n1, c1, k1).contains_key(k) <==> n1.contains(k)
                || k1.contains_key(k));
            if n1.contains(k) {
                let j = n1.index_of(k);
                assert(names[j + 1] == k);
            }
            if k == names[0] {
                assert(names[0] == k);
            }
            if names.contains(k) {
                let j = names.index_of(k);
                if j > 0 {
                    assert(n1[j - 1] == k);
                }
            }
        }
        assert forall|i: int| 0 <= i < names.len() implies whole[#[trigger] names[i]]
            == cells[i] by {
            if i > 0 {
                assert(n1[i - 1] == names[i]);
                assert(c1[i - 1] == cells[i]);
                assert(with_entries(n1, c1, k1)[n1[i - 1]] == c1[i - 1]);
            } else {
                assert(k1.contains_key(names[0]));
                assert(with_entries(n1, c1, k1)[names[0]] == k1[names[0]]);
            }
        }
        assert forall|k: Seq<char>|
            !names.contains(k) && known.contains_key(k) implies #[trigger] whole[k]
            == known[k] by {
            if n1.contains(k) {
                let j = n1.index_of(k);
                assert(names[j + 1] == k);
            }
            assert(names[0] != k);
            assert(k1.contains_key(k));
            assert(with_entries(n1, c1, k1)[k] == k1[k]);
        }
    }
}

/// Round trip: the encoding of a well-formed row, followed by anything,
/// reads back as the row.
pub proof fn lemma_row_round_trip(row: Row, rest: Seq<u8>)
    requires
        row.wf(),
    ensures
        parse_row(encode_columns(row.names(), row.cells()) + rest) == Some(row@),
{
    let names = row.names();
    let cells = row.cells();
    row.lemma_wf();
    let count = names.len() as u64;
    let body = encode_entries(names, cells);
    let s = encode_columns(names, cells) + rest;
    lemma_concat_assoc(varint(count), body, rest);
    lemma_varint_round_trip(count, body + rest);
    lemma_skip_concat(varint(count), body + rest);
    lemma_entries_round_trip(names, cells, rest, Map::empty());
    lemma_with_entries(names, cells, Map::empty());
    let m = with_entries(names, cells, Map::empty());
    assert forall|k: Seq<char>| #[trigger] m.contains_key(k) implies m[k] == row@[k] by {
        let i = names.index_of(k);
        assert(names[i] == k);
        row.lemma_entry(i);
    }
    assert(m =~= row@);
}

/// Appends `bytes` to `out`.
pub fn append_bytes(out: &mut Vec<u8>, bytes: &[u8])
    ensures
        final(out)@ == old(out)@ + bytes@,
{
    let mut i: usize = 0;
    while i < bytes.len()
        invariant
            i <= bytes.len(),
            out@ == old(out)@ + bytes@.take(i as int),
        decreases bytes.len() - i,
    {
        out.push(bytes[i]);
        i += 1;
        assert(out@ =~= old(out)@ + bytes@.take(i as int));
    }
    assert(bytes@.take(i as int) =~= bytes@);
}

/// Appends a value below 2^32 as four little-endian bytes.
pub fn write_le4(out: &mut Vec<u8>, n: u32)
    ensures
        final(out)@ == old(out)@ + le4_bytes(n as nat),
{
    out.push((n % 256) as u8);
    out.push((n / 256 % 256) as u8);
    out.push((n / 256 / 256 % 256) as u8);
    out.push((n / 256 / 256 / 256 % 256) as u8);
    assert(out@ =~= old(out)@ + le4_bytes(n as nat));
}

/// Appends a value as eight little-endian bytes.
pub fn write_le8(out: &mut Vec<u8>, n: u64)
    ensures
        final(out)@ == old(out)@ + le8_bytes(n as nat),
{
    let lo: u32 = (n % 4294967296) as u32;
    let hi: u32 = (n / 4294967296) as u32;
    write_le4(out, lo);
    write_le4(out, hi);
    assert(out@ =~= old(out)@ + le8_bytes(n as nat));
}

/// Appends a variable-length unsigned integer.
pub fn write_varint(out: &mut Vec<u8>, n: u64)
    ensures
        final(out)@ == old(out)@ + varint(n),
{
    if n <= 250 {
        out.push(n as u8);
    } else if n <= 0xffff {
        out.push(251u8);
        out.push((n % 256) as u8);
        out.push((n / 256 % 256) as u8);
    } else if n <= 0xffff_ffff {
        out.push(252u8);
        write_le4(out, n as u32);
    } else {
        out.push(253u8);
        write_le8(out, n);
    }
    assert(out@ =~= old(out)@ + varint(n));
}

/// The value of the four little-endian bytes at `pos`.
pub fn read_le4(bytes: &[u8], pos: usize) -> (n: u32)
    requires
        pos + 4 <= bytes.len(),
    ensures
        n == le4_value(bytes@.skip(pos as int)),
{
    let b0: u32 = bytes[pos] as u32;
    let b1: u32 = bytes[pos + 1] as u32;
    let b2: u32 = bytes[pos + 2] as u32;
    let b3: u32 = bytes[pos + 3] as u32;
    b0 + 256 * b1 + 65536 * b2 + 16777216 * b3
}

/// The value of the eight little-endian bytes at `pos`.
pub fn read_le8(bytes: &[u8], pos: usize) -> (n: u64)
    requires
        pos + 8 <= bytes.len(),
    ensures
        n == le8_value(bytes@.skip(pos as int)),
{
    let lo: u64 = read_le4(bytes, pos) as u64;
    let hi: u64 = read_le4(bytes, pos + 4) as u64;
    assert(bytes@.skip(pos as int).skip(4) =~= bytes@.skip(pos + 4));
    lo + 4294967296 * hi
}

/// Reads a variable-length unsigned integer at `pos`: the value and the
/// position after it.
pub fn read_varint(bytes: &[u8], pos: usize) -> (r: Option<(u64, usize)>)
    requires
        pos <= bytes.len(),
    ensures
        match r {
            Some((n, next)) => pos < next <= bytes.len() && parse_varint(bytes@.skip(pos as int))
                == Some((n, (next - pos) as nat)),
            None => parse_varint(bytes@.skip(pos as int)) is None,
        },
{
    if pos >= bytes.len() {
        return None;
    }
    let left: usize = bytes.len() - pos;
    let tag = bytes[pos];
    let ghost s = bytes@.skip(pos as int);
    if tag <= 250 {
        Some((tag as u64, pos + 1))
    } else if tag == 251 {
        if left >= 3 {
            let b0: u64 = bytes[pos + 1] as u64;
            let b1: u64 = bytes[pos + 2] as u64;
            assert(s.skip(1)[0] == bytes@[pos + 1]);
            assert(s.skip(1)[1] == bytes@[pos + 2]);
            Some((b0 + 256 * b1, pos + 3))
        } else {
            None
        }
    } else if tag == 252 {
        if left >= 5 {
            assert(s.skip(1) =~= bytes@.skip(pos + 1));
            Some((read_le4(bytes, pos + 1) as u64, pos + 5))
        } else {
            None
        }
    } else if tag == 253 {
        if left >= 9 {
            assert(s.skip(1) =~= bytes@.skip(pos + 1));
            Some((read_le8(bytes, pos + 1), pos + 9))
        } else {
            None
        }
    } else {
        None
    }
}

/// The zigzag code of `t`.
pub fn to_zigzag(t: i64) -> (n: u64)
    ensures
        n == zigzag(t),
{
    if t < 0 {
        let m: u64 = (-(t + 1)) as u64;
        m * 2 + 1
    } else {
        (t as u64) * 2
    }
}

/// The signed integer of the zigzag code `n`.
pub fn from_zigzag(n: u64) -> (t: i64)
    ensures
        t == unzigzag(n),
{
    if n % 2 == 0 {
        (n / 2) as i64
    } else {
        -((n / 2) as i64) - 1
    }
}

/// Appends the encoding of a text.
pub fn write_text(out: &mut Vec<u8>, text: &str)
    ensures
        final(out)@ == old(out)@ + encode_text(text@),
{
    let bytes = bytes_of(text);
    write_varint(out, bytes.len() as u64);
    append_bytes(out, bytes);
    assert(out@ =~= old(out)@ + encode_text(text@));
}

/// Reads a text at `pos`: the text and the position after it.
pub fn read_text(bytes: &[u8], pos: usize) -> (r: Option<(String, usize)>)
    requires
        pos <= bytes.len(),
    ensures
        match r {
            Some((text, next)) => pos < next <= bytes.len() && parse_text(bytes@.skip(pos as int))
                == Some((text@, (next - pos) as nat)),
            None => parse_text(bytes@.skip(pos as int)) is None,
        },
{
    let ghost s = bytes@.skip(pos as int);
    match read_varint(bytes, pos) {
        Some((len, start)) => {
            if (bytes.len() - start) as u64 >= len {
                let end: usize = start + len as usize;
                let payload = slice_subrange(bytes, start, end);
                assert(payload@ =~= s.subrange(start - pos, start - pos + len));
                match text_from_utf8(payload) {
                    Some(text) => Some((text, end)),
                    None => None,
                }
            } else {
                None
            }
        },
        None => None,
    }
}

/// Appends the encoding of a cell.
pub fn write_value(out: &mut Vec<u8>, value: &DBValue)
    ensures
        final(out)@ == old(out)@ + encode_value(value@),
{
    match value {
        DBValue::String(s) => {
            out.push(0u8);
            write_text(out, s.as_str());
        },
        DBValue::Number(bits) => {
            out.push(1u8);
            write_le8(out, *bits);
        },
        DBValue::Timestamp(t) => {
            out.push(2u8);
            write_varint(out, to_zigzag(*t));
        },
        DBValue::Null => {
            out.push(3u8);
        },
    }
    assert(out@ =~= old(out)@ + encode_value(value@));
}

/// Reads a cell at `pos`: the cell and the position after it.
pub fn read_value(bytes: &[u8], pos: usize) -> (r: Option<(DBValue, usize)>)
    requires
        pos <= bytes.len(),
    ensures
        match r {
            Some((value, next)) => pos < next <= bytes.len() && parse_value(
                bytes@.skip(pos as int),
            ) == Some((value@, (next - pos) as nat)),
            None => parse_value(bytes@.skip(pos as int)) is None,
        },
{
    let ghost s = bytes@.skip(pos as int);
    if pos < bytes.len() && bytes[pos] == 253 {
        return None;
    }
    match read_varint(bytes, pos) {
        Some((tag, start)) => {
            assert(s.skip(start - pos) =~= bytes@.skip(start as int));
            if tag == 0 {
                match read_text(bytes, start) {
                    Some((text, next)) => Some((DBValue::String(text), next)),
                    None => None,
                }
            } else if tag == 1 {
                if bytes.len() - start >= 8 {
                    Some((DBValue::Number(read_le8(bytes, start)), start + 8))
                } else {
                    None
                }
            } else if tag == 2 {
                match read_varint(bytes, start) {
                    Some((n, next)) => Some((DBValue::Timestamp(from_zigzag(n)), next)),
                    None => None,
                }
            } else if tag == 3 {
                Some((DBValue::Null, start))
            } else {
                None
            }
        },
        None => None,
    }
}

/// Writing one more column after the others.
pub proof fn lemma_encode_entries_push(
    names: Seq<Seq<char>>,
    cells: Seq<ValueModel>,
    name: Seq<char>,
    cell: ValueModel,
)
    requires
        names.len() == cells.len(),
    ensures
        encode_entries(names.push(name), cells.push(cell)) == encode_entries(names, cells)
            + encode_text(name) + encode_value(cell),
    decreases names.len(),
{
    let more_names = names.push(name);
    let more_cells = cells.push(cell);
    let e = encode_text(name) + encode_value(cell);
    if names.len() == 0 {
        assert(more_names.drop_first() =~= Seq::<Seq<char>>::empty());
        assert(more_cells.drop_first() =~= Seq::<ValueModel>::empty());
        assert(encode_entries(more_names.drop_first(), more_cells.drop_first()) =~= Seq::<
            u8,
        >::empty());
        assert(encode_entries(names, cells) =~= Seq::<u8>::empty());
        assert(encode_entries(more_names, more_cells) =~= Seq::<u8>::empty() + encode_text(name)
            + encode_value(cell));
    } else {
        let n1 = names.drop_first();
        let c1 = cells.drop_first();
        lemma_encode_entries_push(n1, c1, name, cell);
        assert(more_names.drop_first() =~= n1.push(name));
        assert(more_cells.drop_first() =~= c1.push(cell));
        let head = encode_text(names[0]) + encode_value(cells[0]);
        assert(encode_entries(more_names, more_cells) == head + encode_entries(
            n1.push(name),
            c1.push(cell),
        ));
        lemma_concat_assoc(encode_entries(n1, c1), encode_text(name), encode_value(cell));
        lemma_concat_assoc(head, encode_entries(n1, c1), e);
        lemma_concat_assoc(encode_entries(names, cells), encode_text(name), encode_value(cell));
    }
}

/// The encoding of a row: its columns in stored order.
pub fn encode_row(row: &Row) -> (bytes: Vec<u8>)
    requires
        row.wf(),
    ensures
        bytes@ == encode_columns(row.names(), row.cells()),
{
    let mut out: Vec<u8> = Vec::new();
    let n = row.len();
    write_varint(&mut out, n as u64);
    let mut i: usize = 0;
    assert(row.names().take(0) =~= Seq::<Seq<char>>::empty());
    while i < n
        invariant
            row.wf(),
            n == row.names().len(),
            n == row.cells().len(),
            i <= n,
            out@ == varint(n as u64) + encode_entries(
                row.names().take(i as int),
                row.cells().take(i as int),
            ),
        decreases n - i,
    {
        write_text(&mut out, row.name_at(i).as_str());
        write_value(&mut out, row.value_at(i));
        proof {
            lemma_encode_entries_push(
                row.names().take(i as int),
                row.cells().take(i as int),
                row.names()[i as int],
                row.cells()[i as int],
            );
            assert(row.names().take(i + 1) =~= row.names().take(i as int).push(
                row.names()[i as int],
            ));
            assert(row.cells().take(i + 1) =~= row.cells().take(i as int).push(
                row.cells()[i as int],
            ));
            assert(out@ =~= varint(n as u64) + encode_entries(
                row.names().take(i + 1),
                row.cells().take(i + 1),
            ));
        }
        i += 1;
    }
    proof {
        assert(row.names().take(n as int) =~= row.names());
        assert(row.cells().take(n as int) =~= row.cells());
    }
    out
}

/// Reads one column at `pos`: its name, its cell and the position after
/// it.
pub fn read_entry(bytes: &[u8], pos: usize) -> (r: Option<(String, DBValue, usize)>)
    requires
        pos <= bytes.len(),
    ensures
        match r {
            Some((name, value, next)) => pos < next <= bytes.len() && parse_entry(
                bytes@.skip(pos as int),
            ) == Some((name@, value@, (next - pos) as nat)),
            None => parse_entry(bytes@.skip(pos as int)) is None,
        },
{
    let ghost s = bytes@.skip(pos as int);
    match read_text(bytes, pos) {
        Some((name, after_name)) => {
            assert(s.skip(after_name - pos) =~= bytes@.skip(after_name as int));
            match read_value(bytes, after_name) {
                Some((value, after_value)) => Some((name, value, after_value)),
                None => None,
            }
        },
        None => None,
    }
}

/// Reads a row from the front of `bytes`; `None` when the bytes do not
/// hold one.
pub fn decode_row(bytes: &[u8]) -> (r: Option<Row>)
    ensures
        match r {
            Some(row) => row.wf() && parse_row(bytes@) == Some(row@),
            None => parse_row(bytes@) is None,
        },
{
    assert(bytes@.skip(0) =~= bytes@);
    match read_varint(bytes, 0) {
        Some((count, start)) => {
            let mut row = Row::new();
            let mut pos: usize = start;
            let mut i: u64 = 0;
            while i < count
                invariant
                    i <= count,
                    pos <= bytes.len(),
                    row.wf(),
                    parse_row(bytes@) == parse_entries(
                        bytes@.skip(pos as int),
                        (count - i) as nat,
                        row@,
                    ),
                decreases count - i,
            {
                match read_entry(bytes, pos) {
                    Some((name, value, next)) => {
                        assert(bytes@.skip(pos as int).skip(next - pos) =~= bytes@.skip(
                            next as int,
                        ));
                        let _ = row.insert(name, value);
                        pos = next;
                    },
                    None => {
                        return None;
                    },
                }
                i += 1;
            }
            Some(row)
        },
        None => None,
    }
}

} // verus!
