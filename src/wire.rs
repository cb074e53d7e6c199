//! The flattened form of a `Message`.
//!
//! A flattened message is its header (17 little-endian 32-bit words, the
//! first being the magic "HMF1"), then one 24-byte entry per field, then the
//! data blob verbatim.
use vstd::bytes::*;
use vstd::prelude::*;

use crate::errors::{ErrorKind, HaikuError};
use crate::flattenable::{append_bytes, Flattenable};
use crate::message::{
    copy_range, flat_size, lemma_wf_layout, read_le32, read_u32_at, FieldHeader, FieldView, Message,
    MessageHeader, FIELD_HEADER_SIZE, HEADER_SIZE,
};
use crate::types::{B_MESSAGE_TYPE, MESSAGE_FORMAT_HAIKU};

verus! {

/// 32-bit words written one after the other, little-endian.
pub open spec fn words_bytes(ws: Seq<u32>) -> Seq<u8>
    decreases ws.len(),
{
    if ws.len() == 0 {
        Seq::empty()
    } else {
        words_bytes(ws.drop_last()) + spec_u32_to_le_bytes(ws.last())
    }
}

/// Entry `i` of the hash table as a word, or -1 past its end.
pub open spec fn table_word(h: MessageHeader, i: int) -> u32 {
    if i < h.hash_table@.len() {
        h.hash_table@[i] as u32
    } else {
        0xffff_ffffu32
    }
}

/// The words of a message header, in wire order; the first is always the
/// format word.
pub open spec fn header_words(h: MessageHeader) -> Seq<u32> {
    seq![
        MESSAGE_FORMAT_HAIKU,
        h.what,
        h.flags,
        h.target as u32,
        h.current_specifier as u32,
        h.message_area as u32,
        h.reply_port as u32,
        h.reply_target as u32,
        h.reply_team as u32,
        h.data_size,
        h.field_count,
        h.hash_table_size,
        table_word(h, 0),
        table_word(h, 1),
        table_word(h, 2),
        table_word(h, 3),
        table_word(h, 4),
    ]
}

/// The 24 bytes of a field header.
pub open spec fn field_bytes(f: FieldHeader) -> Seq<u8> {
    spec_u16_to_le_bytes(f.flags) + spec_u16_to_le_bytes(f.name_length) + words_bytes(
        seq![f.field_type, f.count, f.data_size, f.offset, f.next_field as u32],
    )
}

/// Field headers written one after the other.
pub open spec fn fields_bytes(fs: Seq<FieldHeader>) -> Seq<u8>
    decreases fs.len(),
{
    if fs.len() == 0 {
        Seq::empty()
    } else {
        fields_bytes(fs.drop_last()) + field_bytes(fs.last())
    }
}

/// The flattened bytes of a message.
pub open spec fn message_bytes(m: Message) -> Seq<u8> {
    words_bytes(header_words(m.header)) + fields_bytes(m.fields@) + m.data@
}

/// The 32-bit word at byte `pos` of `b`.
pub open spec fn word_at(b: Seq<u8>, pos: int) -> int {
    spec_u32_from_le_bytes(b.subrange(pos, pos + 4)) as int
}

/// Whether `unflatten` accepts `b`: it is at least a header long, starts
/// with the format word (the bytes "HMF1"), and is exactly as long as its
/// header says.
pub open spec fn wire_ok(b: Seq<u8>) -> bool {
    &&& b.len() >= HEADER_SIZE
    &&& word_at(b, 0) == MESSAGE_FORMAT_HAIKU
    &&& HEADER_SIZE + FIELD_HEADER_SIZE * word_at(b, 40) + word_at(b, 36) == b.len()
}

pub proof fn lemma_words_bytes(ws: Seq<u32>)
    ensures
        words_bytes(ws).len() == 4 * ws.len(),
        forall|i: int|
            0 <= i < ws.len() ==> #[trigger] words_bytes(ws).subrange(4 * i, 4 * i + 4)
                == spec_u32_to_le_bytes(ws[i]),
    decreases ws.len(),
{
    lemma_auto_spec_u32_to_from_le_bytes();
    if ws.len() > 0 {
        let pre = ws.drop_last();
        lemma_words_bytes(pre);
        let b = words_bytes(ws);
        assert forall|i: int| 0 <= i < ws.len() implies #[trigger] b.subrange(4 * i, 4 * i + 4)
            == spec_u32_to_le_bytes(ws[i]) by {
            if i < pre.len() {
                assert(b.subrange(4 * i, 4 * i + 4) =~= words_bytes(pre).subrange(4 * i, 4 * i + 4));
            } else {
                assert(b.subrange(4 * i, 4 * i + 4) =~= spec_u32_to_le_bytes(ws.last()));
            }
        }
    }
}

pub proof fn lemma_field_bytes_len(f: FieldHeader)
    ensures
        field_bytes(f).len() == FIELD_HEADER_SIZE,
{
    lemma_auto_spec_u16_to_from_le_bytes();
    lemma_words_bytes(seq![f.field_type, f.count, f.data_size, f.offset, f.next_field as u32]);
}

pub proof fn lemma_fields_bytes(fs: Seq<FieldHeader>)
    ensures
        fields_bytes(fs).len() == FIELD_HEADER_SIZE * fs.len(),
        forall|i: int|
            0 <= i < fs.len() ==> #[trigger] fields_bytes(fs).subrange(
                FIELD_HEADER_SIZE * i,
                FIELD_HEADER_SIZE * i + FIELD_HEADER_SIZE,
            ) == field_bytes(fs[i]),
    decreases fs.len(),
{
    if fs.len() > 0 {
        let pre = fs.drop_last();
        lemma_fields_bytes(pre);
        lemma_field_bytes_len(fs.last());
        let b = fields_bytes(fs);
        assert forall|i: int| 0 <= i < fs.len() implies #[trigger] b.subrange(
            FIELD_HEADER_SIZE * i,
            FIELD_HEADER_SIZE * i + FIELD_HEADER_SIZE,
        ) == field_bytes(fs[i]) by {
            if i < pre.len() {
                assert(b.subrange(FIELD_HEADER_SIZE * i, FIELD_HEADER_SIZE * i + FIELD_HEADER_SIZE)
                    =~= fields_bytes(pre).subrange(
                    FIELD_HEADER_SIZE * i,
                    FIELD_HEADER_SIZE * i + FIELD_HEADER_SIZE,
                ));
            } else {
                assert(b.subrange(FIELD_HEADER_SIZE * i, FIELD_HEADER_SIZE * i + FIELD_HEADER_SIZE)
                    =~= field_bytes(fs.last()));
            }
        }
    }
}

/// The length of a flattened message.
pub proof fn lemma_message_bytes_len(m: Message)
    ensures
        message_bytes(m).len() == flat_size(m.fields@.len() as int, m.data@.len() as int),
{
    lemma_words_bytes(header_words(m.header));
    lemma_fields_bytes(m.fields@);
}

/// Append the little-endian bytes of `w`.
fn push_word(out: &mut Vec<u8>, w: u32)
    ensures
        final(out)@ == old(out)@ + spec_u32_to_le_bytes(w),
{
    let b = u32_to_le_bytes(w);
    append_bytes(out, b.as_slice());
}

/// Append the 24 bytes of a field header.
fn push_field(out: &mut Vec<u8>, f: &FieldHeader)
    ensures
        final(out)@ == old(out)@ + field_bytes(*f),
{
    let ghost start = out@;
    let a = u16_to_le_bytes(f.flags);
    append_bytes(out, a.as_slice());
    let b = u16_to_le_bytes(f.name_length);
    append_bytes(out, b.as_slice());
    push_word(out, f.field_type);
    push_word(out, f.count);
    push_word(out, f.data_size);
    push_word(out, f.offset);
    push_word(out, f.next_field as u32);
    proof {
        let ws = seq![f.field_type, f.count, f.data_size, f.offset, f.next_field as u32];
        assert(ws.drop_last().drop_last().drop_last().drop_last().drop_last() =~= Seq::<u32>::empty());
        assert(ws.drop_last().drop_last().drop_last().drop_last() =~= seq![f.field_type]);
        assert(ws.drop_last().drop_last().drop_last() =~= seq![f.field_type, f.count]);
        assert(ws.drop_last().drop_last() =~= seq![f.field_type, f.count, f.data_size]);
        assert(ws.drop_last() =~= seq![f.field_type, f.count, f.data_size, f.offset]);
        reveal_with_fuel(words_bytes, 6);
        assert(out@ =~= start + field_bytes(*f));
    }
}

/// The header of `m` as words, in wire order.
fn header_word_vec(h: &MessageHeader) -> (r: Vec<u32>)
    ensures
        r@ == header_words(*h),
{
    let mut r: Vec<u32> = Vec::new();
    r.push(MESSAGE_FORMAT_HAIKU);
    r.push(h.what);
    r.push(h.flags);
    r.push(h.target as u32);
    r.push(h.current_specifier as u32);
    r.push(h.message_area as u32);
    r.push(h.reply_port as u32);
    r.push(h.reply_target as u32);
    r.push(h.reply_team as u32);
    r.push(h.data_size);
    r.push(h.field_count);
    r.push(h.hash_table_size);
    let mut i: usize = 0;
    while i < 5
        invariant
            i <= 5,
            r@.len() == 12 + i,
            forall|j: int| 0 <= j < 12 + i ==> #[trigger] r@[j] == header_words(*h)[j],
        decreases 5 - i,
    {
        if i < h.hash_table.len() {
            r.push(h.hash_table[i] as u32);
        } else {
            r.push(0xffff_ffffu32);
        }
        i = i + 1;
    }
    assert(r@ =~= header_words(*h));
    r
}

/// Decode 17 header words starting at byte 0 of `b`.
fn read_words(b: &[u8], count: usize) -> (r: Vec<u32>)
    requires
        4 * count <= b@.len(),
    ensures
        r@.len() == count,
        words_bytes(r@) == b@.subrange(0, 4 * count as int),
        forall|i: int| 0 <= i < count ==> #[trigger] r@[i] as int == word_at(b@, 4 * i),
{
    let mut r: Vec<u32> = Vec::new();
    let mut i: usize = 0;
    let n = b.len();
    while i < count
        invariant
            n == b@.len(),
            4 * count <= n,
            i <= count,
            r@.len() == i,
            words_bytes(r@) == b@.subrange(0, 4 * i as int),
            forall|j: int| 0 <= j < i ==> #[trigger] r@[j] as int == word_at(b@, 4 * j),
        decreases count - i,
    {
        let w = read_u32_at(b, 4 * i);
        let ghost prev = r@;
        proof {
            lemma_auto_spec_u32_to_from_le_bytes();
            assert(b@.subrange(4 * i as int, b@.len() as int).subrange(0, 4) =~= b@.subrange(
                4 * i as int,
                4 * i + 4,
            ));
            assert(spec_u32_to_le_bytes(w) == b@.subrange(4 * i as int, 4 * i + 4));
        }
        r.push(w);
        proof {
            assert(r@.drop_last() =~= prev);
            assert(words_bytes(r@) == words_bytes(prev) + spec_u32_to_le_bytes(w));
            assert(b@.subrange(0, 4 * (i + 1)) =~= b@.subrange(0, 4 * i as int) + b@.subrange(
                4 * i as int,
                4 * i + 4,
            ));
        }
        i = i + 1;
    }
    r
}

impl Flattenable<Message> for Message {
    open spec fn spec_type_code() -> u32 {
        B_MESSAGE_TYPE
    }

    open spec fn spec_fixed_size() -> bool {
        false
    }

    open spec fn spec_item_size() -> nat {
        0
    }

    open spec fn flat(&self) -> Seq<u8> {
        message_bytes(*self)
    }

    open spec fn decodable(bytes: Seq<u8>) -> bool {
        wire_ok(bytes)
    }

    open spec fn decodes_to(bytes: Seq<u8>, v: Message) -> bool {
        &&& message_bytes(v) == bytes
        &&& v.header.hash_table@.len() == 5
        &&& v.fields@.len() == v.header.field_count
        &&& v.data@.len() == v.header.data_size
    }

    fn type_code() -> (r: u32) {
        B_MESSAGE_TYPE
    }

    fn is_fixed_size() -> (r: bool) {
        false
    }

    fn item_size() -> (r: usize) {
        0
    }

    fn flattened_size(&self) -> (r: usize) {
        proof {
            lemma_message_bytes_len(*self);
        }
        HEADER_SIZE + FIELD_HEADER_SIZE * self.fields.len() + self.data.len()
    }

    fn flatten(&self) -> (r: Vec<u8>) {
        let mut out: Vec<u8> = Vec::new();
        let words = header_word_vec(&self.header);
        let mut i: usize = 0;
        while i < words.len()
            invariant
                i <= words@.len(),
                words@ == header_words(self.header),
                out@ == words_bytes(words@.subrange(0, i as int)),
            decreases words@.len() - i,
        {
            push_word(&mut out, words[i]);
            i = i + 1;
            assert(words@.subrange(0, i as int).drop_last() =~= words@.subrange(0, i - 1));
        }
        assert(words@.subrange(0, words@.len() as int) =~= words@);
        let ghost head = out@;
        let mut j: usize = 0;
        while j < self.fields.len()
            invariant
                j <= self.fields@.len(),
                head == words_bytes(header_words(self.header)),
                out@ == head + fields_bytes(self.fields@.subrange(0, j as int)),
            decreases self.fields@.len() - j,
        {
            push_field(&mut out, &self.fields[j]);
            j = j + 1;
            assert(self.fields@.subrange(0, j as int).drop_last() =~= self.fields@.subrange(0, j - 1));
        }
        assert(self.fields@.subrange(0, self.fields@.len() as int) =~= self.fields@);
        append_bytes(&mut out, self.data.as_slice());
        out
    }

    fn unflatten(buffer: &[u8]) -> (r: Result<Message, HaikuError>) {
        let n = buffer.len();
        if n < HEADER_SIZE {
            return Err(HaikuError::new(ErrorKind::InvalidData, "buffer is shorter than a message header"));
        }
        let words = read_words(buffer, 17);
        if words[0] != MESSAGE_FORMAT_HAIKU {
            return Err(HaikuError::new(ErrorKind::InvalidData, "buffer does not hold a message"));
        }
        let data_size = words[9];
        let field_count = words[10];
        let total: u64 = (HEADER_SIZE as u64) + (FIELD_HEADER_SIZE as u64) * (field_count as u64)
            + (data_size as u64);
        if total != n as u64 {
            return Err(HaikuError::new(ErrorKind::InvalidData, "buffer size differs from the message size"));
        }
        let mut hash_table: Vec<i32> = Vec::new();
        let mut i: usize = 12;
        while i < 17
            invariant
                12 <= i <= 17,
                words@.len() == 17,
                hash_table@.len() == i - 12,
                forall|j: int| 0 <= j < i - 12 ==> #[trigger] hash_table@[j] as u32 == words@[12 + j],
            decreases 17 - i,
        {
            hash_table.push(words[i] as i32);
            proof {
                let w = words@[i as int];
                assert((w as i32) as u32 == w) by (bit_vector);
            }
            i = i + 1;
        }
        let header = MessageHeader {
            message_format: words[0],
            what: words[1],
            flags: words[2],
            target: words[3] as i32,
            current_specifier: words[4] as i32,
            message_area: words[5] as i32,
            reply_port: words[6] as i32,
            reply_target: words[7] as i32,
            reply_team: words[8] as i32,
            data_size: data_size,
            field_count: field_count,
            hash_table_size: words[11],
            hash_table: hash_table,
        };
        proof {
            lemma_i32_u32(words@[3]);
            lemma_i32_u32(words@[4]);
            lemma_i32_u32(words@[5]);
            lemma_i32_u32(words@[6]);
            lemma_i32_u32(words@[7]);
            lemma_i32_u32(words@[8]);
            assert(header_words(header) =~= words@);
        }
        let mut fields: Vec<FieldHeader> = Vec::new();
        let mut pos: usize = HEADER_SIZE;
        let mut k: u32 = 0;
        while k < field_count
            invariant
                n == buffer@.len(),
                n == HEADER_SIZE + FIELD_HEADER_SIZE * field_count + data_size,
                k <= field_count,
                pos == HEADER_SIZE + FIELD_HEADER_SIZE * k,
                fields@.len() == k,
                fields_bytes(fields@) == buffer@.subrange(HEADER_SIZE as int, pos as int),
            decreases field_count - k,
        {
            let f = read_field(buffer, pos);
            let ghost prev = fields@;
            fields.push(f);
            proof {
                assert(fields@.drop_last() =~= prev);
                assert(fields_bytes(fields@) == fields_bytes(prev) + field_bytes(f));
                assert(buffer@.subrange(HEADER_SIZE as int, pos + FIELD_HEADER_SIZE) =~= buffer@.subrange(
                    HEADER_SIZE as int,
                    pos as int,
                ) + buffer@.subrange(pos as int, pos + FIELD_HEADER_SIZE));
            }
            pos = pos + FIELD_HEADER_SIZE;
            k = k + 1;
        }
        let data = copy_range(buffer, pos, n);
        let m = Message { header: header, fields: fields, data: data };
        proof {
            assert(buffer@ =~= buffer@.subrange(0, HEADER_SIZE as int) + buffer@.subrange(
                HEADER_SIZE as int,
                pos as int,
            ) + buffer@.subrange(pos as int, n as int));
            assert(message_bytes(m) =~= buffer@);
        }
        Ok(m)
    }
}

/// A 32-bit word read as signed and written back is unchanged.
pub proof fn lemma_i32_u32(w: u32)
    ensures
        (w as i32) as u32 == w,
{
    assert((w as i32) as u32 == w) by (bit_vector);
}

/// Two signed words with the same bits are equal.
pub proof fn lemma_u32_cast_inj(x: i32, y: i32)
    ensures
        x as u32 == y as u32 ==> x == y,
{
    assert(x as u32 == y as u32 ==> x == y) by (bit_vector);
}

/// Decode the field header at byte `pos` of `b`.
fn read_field(b: &[u8], pos: usize) -> (r: FieldHeader)
    requires
        pos + FIELD_HEADER_SIZE <= b@.len(),
    ensures
        field_bytes(r) == b@.subrange(pos as int, pos + FIELD_HEADER_SIZE),
{
    let n = b.len();
    let s = vstd::slice::slice_subrange(b, pos, pos + FIELD_HEADER_SIZE);
    let flags = u16_from_le_bytes(vstd::slice::slice_subrange(s, 0, 2));
    let name_length = u16_from_le_bytes(vstd::slice::slice_subrange(s, 2, 4));
    let rest = vstd::slice::slice_subrange(s, 4, 24);
    let ws = read_words(rest, 5);
    let next = ws[4] as i32;
    let r = FieldHeader {
        flags: flags,
        name_length: name_length,
        field_type: ws[0],
        count: ws[1],
        data_size: ws[2],
        offset: ws[3],
        next_field: next,
    };
    proof {
        lemma_auto_spec_u16_to_from_le_bytes();
        let w = ws@[4];
        assert((w as i32) as u32 == w) by (bit_vector);
        assert(seq![r.field_type, r.count, r.data_size, r.offset, r.next_field as u32] =~= ws@);
        assert(rest@.subrange(0, 20) =~= rest@);
        assert(s@.subrange(0, 2) =~= spec_u16_to_le_bytes(flags));
        assert(s@.subrange(2, 4) =~= spec_u16_to_le_bytes(name_length));
        assert(s@ =~= s@.subrange(0, 2) + s@.subrange(2, 4) + rest@);
    }
    r
}


/// Words are determined by their bytes.
pub proof fn lemma_words_inj(a: Seq<u32>, b: Seq<u32>)
    requires
        a.len() == b.len(),
        words_bytes(a) == words_bytes(b),
    ensures
        a == b,
{
    lemma_words_bytes(a);
    lemma_words_bytes(b);
    lemma_auto_spec_u32_to_from_le_bytes();
    assert forall|i: int| 0 <= i < a.len() implies a[i] == b[i] by {
        assert(words_bytes(a).subrange(4 * i, 4 * i + 4) == words_bytes(b).subrange(4 * i, 4 * i + 4));
        assert(spec_u32_to_le_bytes(a[i]).len() == 4);
        assert(spec_u32_to_le_bytes(b[i]).len() == 4);
    }
    assert(a =~= b);
}

/// A field header is determined by its bytes.
pub proof fn lemma_field_inj(f: FieldHeader, g: FieldHeader)
    requires
        field_bytes(f) == field_bytes(g),
    ensures
        f == g,
{
    lemma_auto_spec_u16_to_from_le_bytes();
    let wf = seq![f.field_type, f.count, f.data_size, f.offset, f.next_field as u32];
    let wg = seq![g.field_type, g.count, g.data_size, g.offset, g.next_field as u32];
    lemma_words_bytes(wf);
    lemma_words_bytes(wg);
    assert(field_bytes(f).subrange(0, 2) =~= spec_u16_to_le_bytes(f.flags));
    assert(field_bytes(g).subrange(0, 2) =~= spec_u16_to_le_bytes(g.flags));
    assert(field_bytes(f).subrange(2, 4) =~= spec_u16_to_le_bytes(f.name_length));
    assert(field_bytes(g).subrange(2, 4) =~= spec_u16_to_le_bytes(g.name_length));
    assert(field_bytes(f).subrange(4, 24) =~= words_bytes(wf));
    assert(field_bytes(g).subrange(4, 24) =~= words_bytes(wg));
    lemma_words_inj(wf, wg);
    assert(wf[4] == wg[4]);
    let (x, y) = (f.next_field, g.next_field);
    assert(x as u32 == y as u32 ==> x == y) by (bit_vector);
}

/// Field headers are determined by their bytes and their number.
pub proof fn lemma_fields_inj(a: Seq<FieldHeader>, b: Seq<FieldHeader>)
    requires
        a.len() == b.len(),
        fields_bytes(a) == fields_bytes(b),
    ensures
        a == b,
{
    lemma_fields_bytes(a);
    lemma_fields_bytes(b);
    assert forall|i: int| 0 <= i < a.len() implies a[i] == b[i] by {
        assert(fields_bytes(a).subrange(FIELD_HEADER_SIZE * i, FIELD_HEADER_SIZE * i + FIELD_HEADER_SIZE)
            == fields_bytes(b).subrange(FIELD_HEADER_SIZE * i, FIELD_HEADER_SIZE * i + FIELD_HEADER_SIZE));
        lemma_field_inj(a[i], b[i]);
    }
    assert(a =~= b);
}

/// Round trip: flattening a well-formed message gives bytes that
/// `unflatten` accepts, and the message it reads back from them is well
/// formed, has the same code and header, and holds the same fields with the
/// same values, byte for byte.
pub proof fn lemma_round_trip(m: Message, back: Message)
    requires
        m.wf(),
        Message::decodes_to(message_bytes(m), back),
    ensures
        wire_ok(message_bytes(m)),
        back.wf(),
        back@ == m@,
        back.header.what == m.header.what,
        back.header.flags == m.header.flags,
        back.header.target == m.header.target,
        back.header.reply_port == m.header.reply_port,
        back.header.reply_target == m.header.reply_target,
        back.header.reply_team == m.header.reply_team,
{
    lemma_wire_ok(m);
    lemma_wf_layout(&m);
    crate::message::lemma_wf_index(&m);
    let hm = header_words(m.header);
    let hb = header_words(back.header);
    lemma_words_bytes(hm);
    lemma_words_bytes(hb);
    lemma_fields_bytes(m.fields@);
    lemma_fields_bytes(back.fields@);
    let bm = message_bytes(m);
    assert(bm.subrange(0, 68) =~= words_bytes(hm));
    assert(message_bytes(back).subrange(0, 68) =~= words_bytes(hb));
    lemma_words_inj(hm, hb);
    assert(back.fields@.len() == m.fields@.len());
    let fe = 68 + FIELD_HEADER_SIZE * m.fields@.len();
    assert(bm.subrange(68, fe) =~= fields_bytes(m.fields@));
    assert(message_bytes(back).subrange(68, fe) =~= fields_bytes(back.fields@));
    lemma_fields_inj(m.fields@, back.fields@);
    assert(bm.subrange(fe, bm.len() as int) =~= m.data@);
    assert(message_bytes(back).subrange(fe, bm.len() as int) =~= back.data@);
    lemma_u32_cast_inj(back.header.target, m.header.target);
    lemma_u32_cast_inj(back.header.reply_port, m.header.reply_port);
    lemma_u32_cast_inj(back.header.reply_target, m.header.reply_target);
    lemma_u32_cast_inj(back.header.reply_team, m.header.reply_team);
    assert(hm[3] == hb[3] && hm[6] == hb[6] && hm[7] == hb[7] && hm[8] == hb[8]);
    assert forall|i: int| 0 <= i < 5 implies back.header.hash_table@[i] == m.header.hash_table@[i] by {
        assert(hm[12 + i] == hb[12 + i]);
        let (x, y) = (back.header.hash_table@[i], m.header.hash_table@[i]);
        assert(x as u32 == y as u32 ==> x == y) by (bit_vector);
    }
    assert(back.header.hash_table@ =~= m.header.hash_table@);
    assert(back@ =~= m@);
    assert(back.names() =~= m.names());
    assert(back.nexts() =~= m.nexts());
    reveal(Message::wf);
}

/// The bytes of a well-formed message with the right magic are accepted by
/// `unflatten`.
pub proof fn lemma_wire_ok(m: Message)
    requires
        m.wf(),
    ensures
        wire_ok(message_bytes(m)),
{
    lemma_wf_layout(&m);
    lemma_message_bytes_len(m);
    let hm = header_words(m.header);
    lemma_words_bytes(hm);
    lemma_auto_spec_u32_to_from_le_bytes();
    let bm = message_bytes(m);
    assert(bm.subrange(0, 4) =~= words_bytes(hm).subrange(0, 4));
    let (i0, i9, i10): (int, int, int) = (0, 9, 10);
    assert(words_bytes(hm).subrange(4 * i0, 4 * i0 + 4) == spec_u32_to_le_bytes(hm[i0]));
    assert(words_bytes(hm).subrange(4 * i9, 4 * i9 + 4) == spec_u32_to_le_bytes(hm[i9]));
    assert(words_bytes(hm).subrange(4 * i10, 4 * i10 + 4) == spec_u32_to_le_bytes(hm[i10]));
    assert(spec_u32_to_le_bytes(hm[i0]).len() == 4);
    assert(spec_u32_to_le_bytes(hm[i9]).len() == 4);
    assert(spec_u32_to_le_bytes(hm[i10]).len() == 4);
    assert(bm.subrange(36, 40) =~= words_bytes(hm).subrange(36int, 40int));
    assert(bm.subrange(40, 44) =~= words_bytes(hm).subrange(40int, 44int));
}

} // verus!
