//! The `Message`: a self-describing record of named, typed, multi-valued
//! fields.
//!
//! A message holds a header, an index of field headers and one data blob.
//! Each field owns one contiguous region of the blob: its NUL-terminated name,
//! then its values. Fixed-size values are stored back to back; each
//! variable-size value is preceded by its length as a 4-byte little-endian
//! integer. Regions follow each other in field order without gaps.
//!
//! Fields are found by name through a small hash table: each bucket holds the
//! index of the first field whose name hashes to it, and each field holds the
//! index of the next field in the same bucket.
use vstd::bytes::*;
use vstd::prelude::*;
use vstd::utf8::encode_utf8;

use crate::errors::{ErrorKind, HaikuError};
use crate::flattenable::Flattenable;
use crate::messenger::Messenger;
use crate::types::{
    B_ANY_TYPE, B_NULL_TOKEN, B_PREFERRED_TOKEN, MESSAGE_FLAG_IS_REPLY, MESSAGE_FLAG_REPLY_DONE,
    MESSAGE_FLAG_REPLY_REQUIRED, MESSAGE_FLAG_VALID, MESSAGE_FLAG_WAS_DELIVERED,
    MESSAGE_FORMAT_HAIKU,
};

verus! {

/// Size of a flattened message header in bytes.
pub const HEADER_SIZE: usize = 68;

/// Size of a flattened field header in bytes.
pub const FIELD_HEADER_SIZE: usize = 24;

/// Number of buckets of the field hash table.
pub const HASH_TABLE_SIZE: u32 = 5;

/// The fixed part of a message.
#[derive(Debug)]
pub struct MessageHeader {
    pub message_format: u32,
    pub what: u32,
    pub flags: u32,
    pub target: i32,
    pub current_specifier: i32,
    pub message_area: i32,
    pub reply_port: i32,
    pub reply_target: i32,
    pub reply_team: i32,
    pub data_size: u32,
    pub field_count: u32,
    pub hash_table_size: u32,
    /// The first field of each bucket, or -1.
    pub hash_table: Vec<i32>,
}

/// The index entry of one field.
#[derive(Clone, Copy, Debug, PartialEq, Eq, Structural)]
pub struct FieldHeader {
    pub flags: u16,
    /// Length of the name, including its NUL terminator.
    pub name_length: u16,
    pub field_type: u32,
    pub count: u32,
    /// Size of the values, including their length prefixes.
    pub data_size: u32,
    /// Where the field's name starts in the data blob.
    pub offset: u32,
    /// The next field in the same hash bucket, or -1.
    pub next_field: i32,
}

/// A record of named fields, each holding one or more values of one type.
///
/// The index and the data are public so that contracts can speak of them;
/// change them only through the methods, which keep `wf()`.
#[derive(Debug)]
pub struct Message {
    pub header: MessageHeader,
    pub fields: Vec<FieldHeader>,
    pub data: Vec<u8>,
}

/// What a field holds: its name (without the terminator), its type code,
/// whether its values have a fixed size, and its values in order.
pub ghost struct FieldView {
    pub name: Seq<u8>,
    pub type_code: u32,
    pub fixed: bool,
    pub values: Seq<Seq<u8>>,
}

// ----- hashing -----

/// One step of the name hash.
pub open spec fn hash_step(h: u32, b: u8) -> u32 {
    ((h << 7u32) ^ (h >> 24u32)) ^ (b as u32)
}

/// The name hash before its final mixing step, over a prefix of the name.
pub open spec fn hash_prefix(s: Seq<u8>) -> u32
    decreases s.len(),
{
    if s.len() == 0 {
        0
    } else {
        hash_step(hash_prefix(s.drop_last()), s.last())
    }
}

/// The hash of a field name.
pub open spec fn name_hash(s: Seq<u8>) -> u32 {
    let h = hash_prefix(s);
    h ^ (h << 12u32)
}

/// The hash bucket of a field name.
pub open spec fn bucket(name: Seq<u8>) -> int {
    (name_hash(name) % HASH_TABLE_SIZE) as int
}

// ----- values -----

/// A length as the 4-byte little-endian prefix of a variable-size value.
pub open spec fn le32(n: int) -> Seq<u8> {
    spec_u32_to_le_bytes(n as u32)
}

/// The 4-byte little-endian number at the start of `b`.
pub open spec fn read_le32(b: Seq<u8>) -> int {
    spec_u32_from_le_bytes(b.subrange(0, 4)) as int
}

/// Parse `count` length-prefixed values that fill `b` exactly.
pub open spec fn parse_var(b: Seq<u8>, count: nat) -> Option<Seq<Seq<u8>>>
    decreases count,
{
    if count == 0 {
        if b.len() == 0 {
            Some(Seq::empty())
        } else {
            None
        }
    } else if b.len() < 4 {
        None
    } else {
        let len = read_le32(b);
        if 4 + len > b.len() {
            None
        } else {
            match parse_var(b.subrange(4 + len, b.len() as int), (count - 1) as nat) {
                Some(rest) => Some(seq![b.subrange(4, 4 + len)] + rest),
                None => None,
            }
        }
    }
}

/// Value `index` of a run of length-prefixed values that lies from `start`
/// to `limit` of `data` is at `a..b`: its length prefix is just before `a`,
/// and the values before and after it parse on their own.
pub open spec fn var_split(
    data: Seq<u8>,
    start: int,
    limit: int,
    a: int,
    b: int,
    vs: Seq<Seq<u8>>,
    index: int,
) -> bool {
    &&& start + 4 <= a <= b <= limit
    &&& read_le32(data.subrange(a - 4, data.len() as int)) == b - a
    &&& parse_var(data.subrange(start, a - 4), index as nat) == Some(vs.subrange(0, index))
    &&& parse_var(data.subrange(b, limit), (vs.len() - index - 1) as nat) == Some(
        vs.subrange(index + 1, vs.len() as int),
    )
}

/// Where value `index` of field `f` lies in `data`: for fixed-size values
/// at its slot of equal-size slots, for variable-size values as `var_split`
/// describes.
pub open spec fn value_place(f: FieldHeader, data: Seq<u8>, a: int, b: int, vs: Seq<Seq<u8>>, index: int) -> bool {
    let start = f.offset + f.name_length;
    let limit = start + f.data_size;
    if fixed_flag(f.flags) {
        let size = (f.data_size / f.count) as int;
        a == start + index * size && b == a + size
    } else {
        var_split(data, start, limit, a, b, vs, index)
    }
}

/// `count` values of `size` bytes each, stored back to back in `b`.
pub open spec fn chunks(b: Seq<u8>, size: int, count: nat) -> Seq<Seq<u8>> {
    Seq::new(count, |i: int| b.subrange(i * size, i * size + size))
}

/// The bytes that one value takes in a field: a length prefix for
/// variable-size values, then the value.
pub open spec fn stored_value(fixed: bool, v: Seq<u8>) -> Seq<u8> {
    if fixed {
        v
    } else {
        le32(v.len() as int) + v
    }
}

// ----- fields -----

pub open spec fn fixed_flag(flags: u16) -> bool {
    flags & 2u16 != 0
}

pub open spec fn field_flags(fixed: bool) -> u16 {
    if fixed {
        3
    } else {
        1
    }
}

pub open spec fn field_size(f: FieldHeader) -> int {
    f.name_length as int + f.data_size as int
}

pub open spec fn field_end(f: FieldHeader) -> int {
    f.offset as int + field_size(f)
}

/// The bytes of the data blob that belong to field `f`.
pub open spec fn region(f: FieldHeader, data: Seq<u8>) -> Seq<u8> {
    data.subrange(f.offset as int, field_end(f))
}

/// The value bytes of a field region: what follows the name.
pub open spec fn value_bytes(f: FieldHeader, r: Seq<u8>) -> Seq<u8> {
    r.subrange(f.name_length as int, r.len() as int)
}

/// A field region agrees with its header.
pub open spec fn region_ok(f: FieldHeader, r: Seq<u8>) -> bool {
    &&& f.name_length >= 2
    &&& f.count >= 1
    &&& f.flags == field_flags(fixed_flag(f.flags))
    &&& r.len() == field_size(f)
    &&& r[f.name_length - 1] == 0
    &&& if fixed_flag(f.flags) {
        f.data_size % f.count == 0
    } else {
        parse_var(value_bytes(f, r), f.count as nat) is Some
    }
}

/// The values a field region holds.
#[verifier::opaque]
pub open spec fn region_values(f: FieldHeader, r: Seq<u8>) -> Seq<Seq<u8>> {
    if fixed_flag(f.flags) {
        chunks(value_bytes(f, r), (f.data_size / f.count) as int, f.count as nat)
    } else {
        match parse_var(value_bytes(f, r), f.count as nat) {
            Some(vs) => vs,
            None => Seq::empty(),
        }
    }
}

/// What a field region holds.
pub open spec fn region_view(f: FieldHeader, r: Seq<u8>) -> FieldView {
    FieldView {
        name: r.subrange(0, f.name_length - 1),
        type_code: f.field_type,
        fixed: fixed_flag(f.flags),
        values: region_values(f, r),
    }
}

/// Field regions follow each other from the start of the blob to its end.
pub open spec fn layout_ok(fields: Seq<FieldHeader>, len: int) -> bool {
    &&& fields.len() == 0 ==> len == 0
    &&& fields.len() > 0 ==> fields[0].offset == 0 && field_end(fields.last()) == len
    &&& forall|i: int|
        #![trigger fields[i]]
        0 < i < fields.len() ==> fields[i].offset == field_end(fields[i - 1])
}

// ----- index -----

/// The link of field `i` points to the next field of its bucket, or is -1
/// when there is none.
pub open spec fn next_ok(names: Seq<Seq<u8>>, nexts: Seq<i32>, i: int) -> bool {
    let nx = nexts[i] as int;
    if nx == -1 {
        forall|j: int| i < j < names.len() ==> bucket(#[trigger] names[j]) != bucket(names[i])
    } else {
        &&& i < nx < names.len()
        &&& bucket(names[nx]) == bucket(names[i])
        &&& forall|j: int| i < j < nx ==> bucket(#[trigger] names[j]) != bucket(names[i])
    }
}

/// Bucket `h` holds the first field whose name hashes to it, or -1 when
/// there is none.
pub open spec fn head_ok(names: Seq<Seq<u8>>, table: Seq<i32>, h: int) -> bool {
    let t = table[h] as int;
    if t == -1 {
        forall|j: int| 0 <= j < names.len() ==> bucket(#[trigger] names[j]) != h
    } else {
        &&& 0 <= t < names.len()
        &&& bucket(names[t]) == h
        &&& forall|j: int| 0 <= j < t ==> bucket(#[trigger] names[j]) != h
    }
}

/// The hash index over the field names is complete and exact, and no two
/// fields share a name.
pub open spec fn index_ok(names: Seq<Seq<u8>>, nexts: Seq<i32>, table: Seq<i32>) -> bool {
    &&& nexts.len() == names.len()
    &&& table.len() == HASH_TABLE_SIZE
    &&& forall|i: int| 0 <= i < names.len() ==> #[trigger] next_ok(names, nexts, i)
    &&& forall|h: int| 0 <= h < HASH_TABLE_SIZE ==> #[trigger] head_ok(names, table, h)
    &&& forall|i: int, j: int| 0 <= i < j < names.len() ==> names[i] != names[j]
}

/// Every index in `links` is -1 or names a field among `n`.
pub open spec fn links_in_range(links: Seq<i32>, n: int) -> bool {
    forall|i: int| 0 <= i < links.len() ==> -1 <= #[trigger] links[i] < n
}

/// The position of the field named `name`, if there is one.
pub open spec fn lookup(fields: Seq<FieldView>, name: Seq<u8>) -> Option<int> {
    if exists|i: int| 0 <= i < fields.len() && fields[i].name == name {
        Some(choose|i: int| 0 <= i < fields.len() && fields[i].name == name)
    } else {
        None
    }
}

/// Two headers that agree on everything but the index: the format, the
/// code, the flags, the target, the specifier, the area and the reply
/// address.
pub open spec fn same_stamp(a: MessageHeader, b: MessageHeader) -> bool {
    &&& a.message_format == b.message_format
    &&& a.what == b.what
    &&& a.flags == b.flags
    &&& a.target == b.target
    &&& a.current_specifier == b.current_specifier
    &&& a.message_area == b.message_area
    &&& a.reply_port == b.reply_port
    &&& a.reply_target == b.reply_target
    &&& a.reply_team == b.reply_team
}

/// The size of a flattened message with `n` fields and `d` data bytes.
pub open spec fn flat_size(n: int, d: int) -> int {
    HEADER_SIZE + FIELD_HEADER_SIZE * n + d
}

impl View for Message {
    type V = Seq<FieldView>;

    open spec fn view(&self) -> Seq<FieldView> {
        Seq::new(
            self.fields@.len(),
            |i: int| region_view(self.fields@[i], region(self.fields@[i], self.data@)),
        )
    }
}

impl Message {
    /// The names of the fields, in order.
    pub open spec fn names(&self) -> Seq<Seq<u8>> {
        self@.map_values(|f: FieldView| f.name)
    }

    /// The bucket links of the fields, in order.
    pub open spec fn nexts(&self) -> Seq<i32> {
        self.fields@.map_values(|f: FieldHeader| f.next_field)
    }

    /// The message is consistent: its header counts match, its field regions
    /// tile the data blob and agree with their headers, and its hash index
    /// is exact.
    #[verifier::opaque]
    pub open spec fn wf(&self) -> bool {
        &&& self.header.hash_table_size == HASH_TABLE_SIZE
        &&& self.header.field_count == self.fields@.len()
        &&& self.header.data_size == self.data@.len()
        &&& flat_size(self.fields@.len() as int, self.data@.len() as int) <= u32::MAX
        &&& layout_ok(self.fields@, self.data@.len() as int)
        &&& forall|i: int|
            0 <= i < self.fields@.len() ==> region_ok(
                #[trigger] self.fields@[i],
                region(self.fields@[i], self.data@),
            )
        &&& index_ok(self.names(), self.nexts(), self.header.hash_table@)
    }

    /// The size of this message when flattened.
    pub open spec fn spec_flattened_size(&self) -> int {
        flat_size(self.fields@.len() as int, self.data@.len() as int)
    }
}

// ----- lemmas -----

/// The two flag values a field can carry.
pub proof fn lemma_field_flags()
    ensures
        fixed_flag(3u16),
        !fixed_flag(1u16),
        field_flags(true) == 3u16,
        field_flags(false) == 1u16,
{
    assert(3u16 & 2u16 != 0) by (bit_vector);
    assert(1u16 & 2u16 == 0) by (bit_vector);
}

/// Regions come in order: each ends before the next one starts, and all
/// end within the blob.
pub proof fn lemma_layout_order(fields: Seq<FieldHeader>, len: int)
    requires
        layout_ok(fields, len),
    ensures
        forall|i: int, j: int|
            0 <= i < j < fields.len() ==> field_end(#[trigger] fields[i]) <= (#[trigger] fields[j]).offset,
        forall|i: int| 0 <= i < fields.len() ==> field_end(#[trigger] fields[i]) <= len,
{
    assert forall|i: int, j: int|
        0 <= i < j < fields.len() implies field_end(#[trigger] fields[i]) <= (#[trigger] fields[j]).offset by {
        lemma_layout_step(fields, len, i, j);
    }
    assert forall|i: int| 0 <= i < fields.len() implies field_end(#[trigger] fields[i]) <= len by {
        if i < fields.len() - 1 {
            lemma_layout_step(fields, len, i, fields.len() - 1);
        }
    }
}

proof fn lemma_layout_step(fields: Seq<FieldHeader>, len: int, i: int, j: int)
    requires
        layout_ok(fields, len),
        0 <= i < j < fields.len(),
    ensures
        field_end(fields[i]) <= fields[j].offset,
    decreases j - i,
{
    assert(fields[j].offset == field_end(fields[j - 1]));
    if i < j - 1 {
        lemma_layout_step(fields, len, i, j - 1);
    }
}

/// What `lookup` finds is a field of that name.
pub proof fn lemma_lookup_some(fields: Seq<FieldView>, name: Seq<u8>)
    ensures
        lookup(fields, name) matches Some(k) ==> 0 <= k < fields.len() && fields[k].name == name,
{
}

/// With unique names, a field whose name matches is the one `lookup` finds.
pub proof fn lemma_lookup_unique(fields: Seq<FieldView>, names: Seq<Seq<u8>>, name: Seq<u8>, k: int)
    requires
        names == fields.map_values(|f: FieldView| f.name),
        forall|i: int, j: int| 0 <= i < j < names.len() ==> names[i] != names[j],
        0 <= k < fields.len(),
        fields[k].name == name,
    ensures
        lookup(fields, name) == Some(k),
{
    let c = choose|i: int| 0 <= i < fields.len() && fields[i].name == name;
    assert(names[c] == fields[c].name);
    assert(names[k] == fields[k].name);
    if c < k {
        assert(names[c] != names[k]);
    } else if k < c {
        assert(names[k] != names[c]);
    }
}

/// Joining two runs of length-prefixed values parses as the joined values.
pub proof fn lemma_parse_var_concat(x: Seq<u8>, y: Seq<u8>, c1: nat, c2: nat)
    requires
        parse_var(x, c1) is Some,
        parse_var(y, c2) is Some,
    ensures
        parse_var(x + y, c1 + c2) == Some(parse_var(x, c1)->0 + parse_var(y, c2)->0),
    decreases c1,
{
    if c1 == 0 {
        assert(x + y =~= y);
        assert(parse_var(x, c1)->0 + parse_var(y, c2)->0 =~= parse_var(y, c2)->0);
    } else {
        let len = read_le32(x);
        let rest = x.subrange(4 + len, x.len() as int);
        lemma_parse_var_concat(rest, y, (c1 - 1) as nat, c2);
        let xy = x + y;
        assert(xy.subrange(0, 4) =~= x.subrange(0, 4));
        assert(xy.subrange(4, 4 + len) =~= x.subrange(4, 4 + len));
        assert(xy.subrange(4 + len, xy.len() as int) =~= rest + y);
        assert((c1 + c2 - 1) as nat == (c1 - 1) as nat + c2);
        let vx = parse_var(x, c1)->0;
        let vr = parse_var(rest, (c1 - 1) as nat)->0;
        let vy = parse_var(y, c2)->0;
        assert(vx == seq![x.subrange(4, 4 + len)] + vr);
        assert(seq![x.subrange(4, 4 + len)] + (vr + vy) =~= vx + vy);
    }
}

/// A successful parse yields exactly `count` values.
pub proof fn lemma_parse_var_len(b: Seq<u8>, count: nat)
    requires
        parse_var(b, count) is Some,
    ensures
        parse_var(b, count)->0.len() == count,
    decreases count,
{
    if count > 0 {
        let len = read_le32(b);
        lemma_parse_var_len(b.subrange(4 + len, b.len() as int), (count - 1) as nat);
    }
}

/// One length-prefixed value parses as itself.
pub proof fn lemma_parse_var_single(v: Seq<u8>)
    requires
        v.len() <= u32::MAX,
    ensures
        parse_var(le32(v.len() as int) + v, 1) == Some(seq![v]),
{
    lemma_auto_spec_u32_to_from_le_bytes();
    reveal_with_fuel(parse_var, 2);
    let b = le32(v.len() as int) + v;
    assert(b.subrange(0, 4) =~= le32(v.len() as int));
    assert(read_le32(b) == v.len());
    assert(b.subrange(4, 4 + v.len() as int) =~= v);
    assert(b.subrange(4 + v.len() as int, b.len() as int) =~= Seq::<u8>::empty());
    assert(seq![v] + Seq::<Seq<u8>>::empty() =~= seq![v]);
}

/// The first value of a run of length-prefixed values, where the run is
/// read at position `p`.
pub proof fn lemma_parse_var_first(b: Seq<u8>, c: nat)
    requires
        parse_var(b, c) is Some,
        c > 0,
    ensures
        b.len() >= 4,
        4 + read_le32(b) <= b.len(),
        parse_var(b, c)->0[0] == b.subrange(4, 4 + read_le32(b)),
        parse_var(b.subrange(4 + read_le32(b), b.len() as int), (c - 1) as nat) == Some(
            parse_var(b, c)->0.subrange(1, c as int),
        ),
{
    lemma_parse_var_len(b, c);
    let len = read_le32(b);
    let vs = parse_var(b, c)->0;
    let vr = parse_var(b.subrange(4 + len, b.len() as int), (c - 1) as nat)->0;
    assert(vs == seq![b.subrange(4, 4 + len)] + vr);
    assert(vs.subrange(1, c as int) =~= vr);
}

// ----- executable helpers -----

/// The bytes of `data` from `start` to `end`.
pub fn copy_range(data: &[u8], start: usize, end: usize) -> (r: Vec<u8>)
    requires
        start <= end <= data@.len(),
    ensures
        r@ == data@.subrange(start as int, end as int),
{
    let mut r: Vec<u8> = Vec::new();
    let mut i = start;
    while i < end
        invariant
            start <= i <= end <= data@.len(),
            r@ == data@.subrange(start as int, i as int),
        decreases end - i,
    {
        r.push(data[i]);
        i = i + 1;
        assert(r@ =~= data@.subrange(start as int, i as int));
    }
    r
}

/// The 4-byte little-endian number at `pos` of `data`.
pub fn read_u32_at(data: &[u8], pos: usize) -> (r: u32)
    requires
        pos + 4 <= data@.len(),
    ensures
        r as int == read_le32(data@.subrange(pos as int, data@.len() as int)),
{
    let n = data.len();
    let s = vstd::slice::slice_subrange(data, pos, pos + 4);
    assert(s@ =~= data@.subrange(pos as int, data@.len() as int).subrange(0, 4));
    u32_from_le_bytes(s)
}

/// The hash of a field name.
pub(crate) fn hash_name(name: &[u8]) -> (r: u32)
    ensures
        r == name_hash(name@),
{
    let mut result: u32 = 0;
    let mut i: usize = 0;
    while i < name.len()
        invariant
            i <= name@.len(),
            result == hash_prefix(name@.subrange(0, i as int)),
        decreases name@.len() - i,
    {
        assert(name@.subrange(0, i + 1).drop_last() =~= name@.subrange(0, i as int));
        result = (result << 7u32) ^ (result >> 24u32);
        result = result ^ (name[i] as u32);
        i = i + 1;
    }
    assert(name@.subrange(0, name@.len() as int) =~= name@);
    result = result ^ (result << 12u32);
    result
}

/// Whether the name stored for field `f` in `data` is `name`.
fn name_matches(data: &Vec<u8>, f: &FieldHeader, name: &[u8]) -> (r: bool)
    ensures
        r == (f.name_length >= 1 && f.offset + f.name_length - 1 <= data@.len()
            && data@.subrange(f.offset as int, f.offset + f.name_length - 1) == name@),
{
    if f.name_length < 1 {
        return false;
    }
    let len = (f.name_length - 1) as usize;
    if (f.offset as u64) + (len as u64) > data.len() as u64 {
        return false;
    }
    let start = f.offset as usize;
    if len != name.len() {
        assert(data@.subrange(f.offset as int, f.offset + f.name_length - 1).len() != name@.len());
        return false;
    }
    let n = data.len();
    let mut i: usize = 0;
    while i < len
        invariant
            n == data@.len(),
            i <= len == name@.len(),
            start + len <= data@.len(),
            start == f.offset,
            len == f.name_length - 1,
            forall|j: int| 0 <= j < i ==> data@[start + j] == name@[j],
        decreases len - i,
    {
        if data[start + i] != name[i] {
            assert(data@.subrange(f.offset as int, f.offset + f.name_length - 1)[i as int] != name@[i as int]);
            return false;
        }
        i = i + 1;
    }
    assert(data@.subrange(f.offset as int, f.offset + f.name_length - 1) =~= name@);
    true
}

/// What `wf` says of a message, and facts about its view.
pub proof fn lemma_wf_view(m: &Message)
    requires
        m.wf(),
    ensures
        m.header.hash_table_size == HASH_TABLE_SIZE,
        m.header.field_count == m.fields@.len(),
        m.header.data_size == m.data@.len(),
        flat_size(m.fields@.len() as int, m.data@.len() as int) <= u32::MAX,
        layout_ok(m.fields@, m.data@.len() as int),
        index_ok(m.names(), m.nexts(), m.header.hash_table@),
        m@.len() == m.fields@.len(),
        m.names().len() == m.fields@.len(),
        m.nexts().len() == m.fields@.len(),
        forall|i: int|
            #![trigger m.fields@[i]]
            0 <= i < m.fields@.len() ==> {
                &&& region_ok(m.fields@[i], region(m.fields@[i], m.data@))
                &&& field_end(m.fields@[i]) <= m.data@.len()
                &&& region(m.fields@[i], m.data@).len() == field_size(m.fields@[i])
                &&& m@[i] == region_view(m.fields@[i], region(m.fields@[i], m.data@))
                &&& m.names()[i] == m@[i].name
                &&& m.nexts()[i] == m.fields@[i].next_field
                &&& m@[i].name == m.data@.subrange(
                    m.fields@[i].offset as int,
                    m.fields@[i].offset + m.fields@[i].name_length - 1,
                )
            },
{
    reveal(Message::wf);
    lemma_layout_order(m.fields@, m.data@.len() as int);
}

/// What `wf` says of the header and the layout of a message.
pub proof fn lemma_wf_layout(m: &Message)
    requires
        m.wf(),
    ensures
        m.header.hash_table_size == HASH_TABLE_SIZE,
        m.header.field_count == m.fields@.len(),
        m.header.data_size == m.data@.len(),
        flat_size(m.fields@.len() as int, m.data@.len() as int) <= u32::MAX,
        layout_ok(m.fields@, m.data@.len() as int),
        forall|i: int| 0 <= i < m.fields@.len() ==> field_end(#[trigger] m.fields@[i]) <= m.data@.len(),
        forall|i: int, j: int|
            0 <= i < j < m.fields@.len() ==> field_end(#[trigger] m.fields@[i]) <= (
            #[trigger] m.fields@[j]).offset,
{
    reveal(Message::wf);
    lemma_layout_order(m.fields@, m.data@.len() as int);
}

/// A message whose parts meet each condition of `wf` is well formed.
pub proof fn lemma_wf_intro(m: &Message)
    requires
        m.header.hash_table_size == HASH_TABLE_SIZE,
        m.header.field_count == m.fields@.len(),
        m.header.data_size == m.data@.len(),
        flat_size(m.fields@.len() as int, m.data@.len() as int) <= u32::MAX,
        layout_ok(m.fields@, m.data@.len() as int),
        forall|i: int|
            0 <= i < m.fields@.len() ==> region_ok(
                #[trigger] m.fields@[i],
                region(m.fields@[i], m.data@),
            ),
        index_ok(m.names(), m.nexts(), m.header.hash_table@),
    ensures
        m.wf(),
{
    reveal(Message::wf);
}

/// What `wf` says of each field region of a message.
pub proof fn lemma_wf_regions(m: &Message)
    requires
        m.wf(),
    ensures
        forall|i: int|
            0 <= i < m.fields@.len() ==> region_ok(
                #[trigger] m.fields@[i],
                region(m.fields@[i], m.data@),
            ),
{
    reveal(Message::wf);
}

/// What `wf` says of the hash index of a message.
pub proof fn lemma_wf_index(m: &Message)
    requires
        m.wf(),
    ensures
        index_ok(m.names(), m.nexts(), m.header.hash_table@),
{
    reveal(Message::wf);
}

/// The name of field `k` of a well-formed message, where it lies in the blob.
pub proof fn lemma_wf_name(m: &Message, k: int)
    requires
        m.wf(),
        0 <= k < m.fields@.len(),
    ensures
        m.names()[k] == m@[k].name,
        m.nexts()[k] == m.fields@[k].next_field,
        m.names().len() == m.fields@.len(),
        m.nexts().len() == m.fields@.len(),
        m@[k].name == m.data@.subrange(
            m.fields@[k].offset as int,
            m.fields@[k].offset + m.fields@[k].name_length - 1,
        ),
{
    lemma_wf_view(m);
    assert(m.fields@[k] == m.fields@[k]);
}

/// What `wf` says of field `k` of a message.
pub proof fn lemma_wf_field(m: &Message, k: int)
    requires
        m.wf(),
        0 <= k < m.fields@.len(),
    ensures
        region_ok(m.fields@[k], region(m.fields@[k], m.data@)),
        field_end(m.fields@[k]) <= m.data@.len(),
        m@[k] == region_view(m.fields@[k], region(m.fields@[k], m.data@)),
        m@.len() == m.fields@.len(),
{
    lemma_wf_view(m);
    assert(m.fields@[k] == m.fields@[k]);
}

impl Message {
    /// An empty message with the code `what`.
    pub fn new(what: u32) -> (r: Message)
        ensures
            r.wf(),
            r@ == Seq::<FieldView>::empty(),
            r.fields@.len() == 0,
            r.data@.len() == 0,
            r.header.what == what,
            r.header.message_format == MESSAGE_FORMAT_HAIKU,
            r.header.flags == MESSAGE_FLAG_VALID,
            r.header.target == B_NULL_TOKEN,
            r.header.reply_target == B_NULL_TOKEN,
            r.header.current_specifier == -1,
            r.header.message_area == -1,
            r.header.reply_port == -1,
            r.header.reply_team == -1,
            r.header.hash_table@ == seq![-1i32, -1i32, -1i32, -1i32, -1i32],
    {
        let r = Message {
            header: MessageHeader {
                message_format: MESSAGE_FORMAT_HAIKU,
                what: what,
                flags: MESSAGE_FLAG_VALID,
                target: B_NULL_TOKEN,
                current_specifier: -1,
                message_area: -1,
                reply_port: -1,
                reply_target: B_NULL_TOKEN,
                reply_team: -1,
                data_size: 0,
                field_count: 0,
                hash_table_size: HASH_TABLE_SIZE,
                hash_table: vec![-1i32, -1, -1, -1, -1],
            },
            fields: Vec::new(),
            data: Vec::new(),
        };
        assert(r@ =~= Seq::<FieldView>::empty());
        reveal(Message::wf);
        assert(r.names() =~= Seq::<Seq<u8>>::empty());
        assert(r.nexts() =~= Seq::<i32>::empty());
        assert(r.header.hash_table@ =~= seq![-1i32, -1i32, -1i32, -1i32, -1i32]);
        r
    }

    /// The code that says what this message means.
    pub fn what(&self) -> (r: u32)
        ensures
            r == self.header.what,
    {
        self.header.what
    }

    /// Set the code that says what this message means.
    pub fn set_what(&mut self, what: u32)
        ensures
            final(self).header.what == what,
            final(self).header.flags == old(self).header.flags,
            final(self).header.target == old(self).header.target,
            final(self).fields == old(self).fields,
            final(self).data == old(self).data,
            old(self).wf() ==> final(self).wf(),
    {
        proof {
            reveal(Message::wf);
        }
        self.header.what = what;
    }

    /// Find the field named `name` whose type is `type_code` (any type for
    /// `B_ANY_TYPE`), by walking its hash bucket.
    ///
    /// On a message that is not well formed this stops after as many steps
    /// as there are fields and never reads out of bounds.
    pub(crate) fn find_field(&self, name: &[u8], type_code: u32) -> (r: Option<usize>)
        ensures
            r matches Some(k) ==> k < self.fields@.len(),
            self.wf() ==> r == (match lookup(self@, name@) {
                Some(k) => if self@[k].type_code == type_code || type_code == B_ANY_TYPE {
                    Some(k as usize)
                } else {
                    None::<usize>
                },
                None => None,
            }),
    {
        proof {
            if self.wf() {
                lemma_wf_view(self);
            }
        }
        if name.len() == 0 || self.header.field_count == 0 {
            proof {
                if self.wf() && lookup(self@, name@) is Some {
                    let k = lookup(self@, name@)->0;
                    assert(self@[k].name == name@);
                    assert(self.fields@[k].name_length >= 2);
                }
            }
            return None;
        }
        let hts = self.header.hash_table_size;
        if hts == 0 || hts > HASH_TABLE_SIZE || self.header.hash_table.len() < HASH_TABLE_SIZE as usize {
            return None;
        }
        let h = hash_name(name) % hts;
        let mut cur: i32 = self.header.hash_table[h as usize];
        let mut steps: usize = 0;
        let ghost names = self.names();
        proof {
            if self.wf() {
                assert(head_ok(names, self.header.hash_table@, h as int));
            }
        }
        while cur >= 0 && steps < self.fields.len()
            invariant
                self.wf() ==> {
                    &&& h == bucket(name@)
                    &&& names == self.names()
                    &&& cur == -1 || (0 <= cur < names.len() && bucket(names[cur as int]) == h)
                    &&& cur >= 0 ==> steps <= cur
                    &&& forall|j: int|
                        0 <= j < (if cur == -1 {
                            names.len() as int
                        } else {
                            cur as int
                        }) && bucket(#[trigger] names[j]) == h ==> names[j] != name@
                },
            decreases self.fields@.len() - steps,
        {
            let idx = cur as usize;
            if idx >= self.fields.len() {
                return None;
            }
            proof {
                if self.wf() {
                    lemma_wf_field(self, idx as int);
                    lemma_wf_index(self);
                    lemma_wf_name(self, idx as int);
                }
            }
            let f = self.fields[idx];
            if name_matches(&self.data, &f, name) {
                proof {
                    if self.wf() {
                        lemma_lookup_unique(self@, names, name@, idx as int);
                    }
                }
                if f.field_type == type_code || type_code == B_ANY_TYPE {
                    return Some(idx);
                } else {
                    return None;
                }
            }
            proof {
                if self.wf() {
                    assert(next_ok(names, self.nexts(), idx as int));
                }
            }
            cur = f.next_field;
            steps = steps + 1;
        }
        proof {
            if self.wf() {
                if lookup(self@, name@) is Some {
                    let k = lookup(self@, name@)->0;
                    assert(names[k] == name@);
                }
            }
        }
        None
    }

    /// Where value `index` of field `k` lies in the data blob; `None` when
    /// the stored sizes point outside the field or the blob.
    pub(crate) fn value_range(&self, k: usize, index: usize) -> (r: Option<(usize, usize)>)
        requires
            k < self.fields@.len(),
            index < self.fields@[k as int].count,
        ensures
            r matches Some((a, b)) ==> a <= b <= self.data@.len(),
            self.wf() ==> (r matches Some((a, b)) && self.data@.subrange(a as int, b as int)
                == self@[k as int].values[index as int] && value_place(
                self.fields@[k as int],
                self.data@,
                a as int,
                b as int,
                self@[k as int].values,
                index as int,
            )),
    {
        reveal(region_values);
        let f = self.fields[k];
        let start: u64 = f.offset as u64 + f.name_length as u64;
        let limit: u64 = start + f.data_size as u64;
        let dlen = self.data.len();
        if limit > dlen as u64 {
            proof {
                if self.wf() {
                    lemma_wf_field(self, k as int);
                }
            }
            return None;
        }
        let ghost vb = value_bytes(f, region(f, self.data@));
        proof {
            if self.wf() {
                lemma_wf_field(self, k as int);
                lemma_field_flags();
                assert(vb =~= self.data@.subrange(start as int, limit as int));
            }
        }
        if (f.flags & crate::types::FIELD_FLAG_FIXED_SIZE) != 0 {
            let item_size: u64 = (f.data_size / f.count) as u64;
            let idx = index as u64;
            assert(idx * item_size + item_size <= f.data_size as int) by (nonlinear_arith)
                requires
                    idx < f.count,
                    item_size == f.data_size / f.count,
                    f.count > 0,
            {
                assert((idx + 1) * item_size <= f.count * item_size);
                assert(f.count * item_size <= f.data_size);
            }
            let pos: u64 = start + idx * item_size;
            let end: u64 = pos + item_size;
            proof {
                if self.wf() {
                    assert(self.data@.subrange(pos as int, end as int) =~= vb.subrange(
                        idx * item_size,
                        idx * item_size + item_size,
                    ));
                }
            }
            Some((pos as usize, end as usize))
        } else {
            self.var_value_range(k, index, start, limit)
        }
    }

    /// Walk the length prefixes of the variable-size field `k`, whose values
    /// lie from `start` to `limit`, to its value `index`.
    fn var_value_range(&self, k: usize, index: usize, start: u64, limit: u64) -> (r: Option<(usize, usize)>)
        requires
            k < self.fields@.len(),
            index < self.fields@[k as int].count,
            start == self.fields@[k as int].offset + self.fields@[k as int].name_length,
            limit == start + self.fields@[k as int].data_size,
            limit <= self.data@.len(),
            self.fields@[k as int].flags & 2u16 == 0,
        ensures
            r matches Some((a, b)) ==> a <= b <= self.data@.len(),
            self.wf() ==> (r matches Some((a, b)) && self.data@.subrange(a as int, b as int)
                == self@[k as int].values[index as int] && var_split(
                self.data@,
                start as int,
                limit as int,
                a as int,
                b as int,
                self@[k as int].values,
                index as int,
            )),
    {
        reveal(region_values);
        let f = self.fields[k];
        let ghost vb = value_bytes(f, region(f, self.data@));
        let ghost vs = parse_var(vb, f.count as nat)->0;
        proof {
            if self.wf() {
                lemma_wf_field(self, k as int);
                lemma_field_flags();
                assert(vb =~= self.data@.subrange(start as int, limit as int));
                lemma_parse_var_len(vb, f.count as nat);
                assert(vs.subrange(0, f.count as int) =~= vs);
                assert(self@[k as int].values == vs);
                assert(self.data@.subrange(start as int, start as int) =~= Seq::<u8>::empty());
                assert(vs.subrange(0, 0) =~= Seq::<Seq<u8>>::empty());
            }
        }
        let mut pos: u64 = start;
        let mut i: usize = 0;
        let dlen = self.data.len();
        loop
            invariant
                dlen == self.data@.len(),
                start <= pos <= limit <= self.data@.len(),
                i <= index < f.count,
                f == self.fields@[k as int],
                self.wf() ==> {
                    &&& self@[k as int].values == vs
                    &&& vs.len() == f.count
                    &&& parse_var(self.data@.subrange(pos as int, limit as int), (f.count - i) as nat)
                        == Some(vs.subrange(i as int, f.count as int))
                    &&& parse_var(self.data@.subrange(start as int, pos as int), i as nat) == Some(
                        vs.subrange(0, i as int),
                    )
                },
            decreases index - i,
        {
            if limit - pos < 4 {
                proof {
                    if self.wf() {
                        lemma_parse_var_first(self.data@.subrange(pos as int, limit as int), (f.count - i) as nat);
                    }
                }
                return None;
            }
            let item_size = read_u32_at(self.data.as_slice(), pos as usize);
            let ghost here = self.data@.subrange(pos as int, limit as int);
            proof {
                assert(self.data@.subrange(pos as int, self.data@.len() as int).subrange(0, 4)
                    =~= here.subrange(0, 4));
                assert(item_size == read_le32(here));
                assert(here.len() == limit - pos);
                if self.wf() {
                    lemma_parse_var_first(here, (f.count - i) as nat);
                }
            }
            if item_size as u64 > limit - pos - 4 {
                return None;
            }
            if i == index {
                let vstart = (pos + 4) as usize;
                let vend = (pos + 4 + item_size as u64) as usize;
                proof {
                    if self.wf() {
                        assert(self.data@.subrange(vstart as int, vend as int) =~= here.subrange(4, 4 + item_size));
                        assert(vs.subrange(i as int, f.count as int)[0] == vs[i as int]);
                        assert(here.subrange(4 + item_size, here.len() as int) =~= self.data@.subrange(
                            vend as int,
                            limit as int,
                        ));
                        assert(vs.subrange(i as int, f.count as int).subrange(1, (f.count - i) as int)
                            =~= vs.subrange(i + 1, f.count as int));
                        assert(self.data@.subrange(pos as int, self.data@.len() as int).subrange(0, 4)
                            =~= self.data@.subrange(vstart - 4, self.data@.len() as int).subrange(0, 4));
                    }
                }
                return Some((vstart, vend));
            }
            proof {
                if self.wf() {
                    assert(here.subrange(4 + item_size, here.len() as int) =~= self.data@.subrange(
                        pos + 4 + item_size,
                        limit as int,
                    ));
                    assert(vs.subrange(i as int, f.count as int).subrange(1, (f.count - i) as int)
                        =~= vs.subrange(i + 1, f.count as int));
                    let rec = self.data@.subrange(pos as int, pos + 4 + item_size);
                    assert(rec.subrange(0, 4) =~= here.subrange(0, 4));
                    assert(rec.subrange(4, 4 + item_size) =~= here.subrange(4, 4 + item_size));
                    assert(rec.subrange(4 + item_size, rec.len() as int) =~= Seq::<u8>::empty());
                    reveal_with_fuel(parse_var, 2);
                    assert(parse_var(rec, 1) == Some(seq![vs[i as int]])) by {
                        assert(seq![rec.subrange(4, 4 + item_size)] + Seq::<Seq<u8>>::empty() =~= seq![vs[i as int]]);
                        assert(vs.subrange(i as int, f.count as int)[0] == vs[i as int]);
                    }
                    lemma_parse_var_concat(self.data@.subrange(start as int, pos as int), rec, i as nat, 1);
                    assert(self.data@.subrange(start as int, pos as int) + rec =~= self.data@.subrange(
                        start as int,
                        pos + 4 + item_size,
                    ));
                    assert(vs.subrange(0, i as int) + seq![vs[i as int]] =~= vs.subrange(0, i + 1));
                }
            }
            pos = pos + 4 + item_size as u64;
            i = i + 1;
        }
    }

    /// Read the value at `index` of the field `name`, as a `T`.
    ///
    /// Fails with `NotFound` when there is no such field or it holds another
    /// type, with `InvalidInput` when `index` is past its last value, and with
    /// `InvalidData` when the stored value cannot be read as a `T` or, in a
    /// message that is not well formed, lies outside the data.
    pub fn find_data<T: Flattenable<T>>(&self, name: &str, index: usize) -> (r: Result<T, HaikuError>)
        ensures
            self.wf() ==> match lookup(self@, encode_utf8(name@)) {
                None => r matches Err(e) && e.spec_kind() == ErrorKind::NotFound,
                Some(k) => if !(self@[k].type_code == T::spec_type_code() || T::spec_type_code()
                    == B_ANY_TYPE) {
                    r matches Err(e) && e.spec_kind() == ErrorKind::NotFound
                } else if index >= self@[k].values.len() {
                    r matches Err(e) && e.spec_kind() == ErrorKind::InvalidInput
                } else {
                    &&& r is Ok <==> T::decodable(self@[k].values[index as int])
                    &&& r matches Ok(v) ==> T::decodes_to(self@[k].values[index as int], v)
                    &&& r matches Err(e) ==> e.spec_kind() == ErrorKind::InvalidData
                },
            },
            r matches Ok(v) ==> exists|a: int, b: int|
                0 <= a <= b <= self.data@.len() && #[trigger] T::decodes_to(self.data@.subrange(a, b), v),
            r matches Err(e) ==> (e.spec_kind() == ErrorKind::NotFound || e.spec_kind()
                == ErrorKind::InvalidInput || e.spec_kind() == ErrorKind::InvalidData),
    {
        reveal(region_values);
        let k = match self.find_field(name.as_bytes(), T::type_code()) {
            Some(k) => k,
            None => return Err(HaikuError::new(ErrorKind::NotFound, "no field with this name and type")),
        };
        proof {
            if self.wf() {
                lemma_wf_view(self);
                let f = self.fields@[k as int];
                if !fixed_flag(f.flags) {
                    lemma_parse_var_len(value_bytes(f, region(f, self.data@)), f.count as nat);
                }
            }
        }
        if index >= self.fields[k].count as usize {
            return Err(HaikuError::new(ErrorKind::InvalidInput, "index is out of range"));
        }
        match self.value_range(k, index) {
            Some((a, b)) => {
                let bytes = vstd::slice::slice_subrange(self.data.as_slice(), a, b);
                let r = T::unflatten(bytes);
                proof {
                    if r is Ok {
                        assert(T::decodes_to(self.data@.subrange(a as int, b as int), r->Ok_0));
                    }
                }
                r
            },
            None => Err(HaikuError::new(ErrorKind::InvalidData, "value lies outside the data")),
        }
    }

    /// The type code, the number of values, and whether values have a fixed
    /// size, of the field `name`; `None` when there is no such field.
    pub fn get_info(&self, name: &str) -> (r: Option<(u32, usize, bool)>)
        ensures
            self.wf() ==> r == (match lookup(self@, encode_utf8(name@)) {
                Some(k) => Some(
                    (self@[k].type_code, self@[k].values.len() as usize, self@[k].fixed),
                ),
                None => None,
            }),
    {
        reveal(region_values);
        let k = match self.find_field(name.as_bytes(), B_ANY_TYPE) {
            Some(k) => k,
            None => return None,
        };
        let f = self.fields[k];
        proof {
            if self.wf() {
                lemma_wf_view(self);
                let r = region(f, self.data@);
                if !fixed_flag(f.flags) {
                    lemma_parse_var_len(value_bytes(f, r), f.count as nat);
                }
            }
        }
        Some((f.field_type, f.count as usize, (f.flags & crate::types::FIELD_FLAG_FIXED_SIZE) != 0))
    }

    /// Whether the message has no fields.
    pub fn is_empty(&self) -> (r: bool)
        ensures
            r == (self.fields@.len() == 0),
            self.wf() ==> r == (self@.len() == 0),
    {
        self.fields.len() == 0
    }

    /// Whether the message code has the shape of a system code: an
    /// underscore followed by three upper case ASCII letters.
    pub fn is_system(&self) -> (r: bool)
        ensures
            r == is_system_code(self.header.what),
    {
        let w = self.header.what;
        let a = (w >> 24u32) & 0xff;
        let b = (w >> 16u32) & 0xff;
        let c = (w >> 8u32) & 0xff;
        let d = w & 0xff;
        a == 0x5f && is_upper(b) && is_upper(c) && is_upper(d)
    }

    /// Whether this message is a reply.
    pub fn is_reply(&self) -> (r: bool)
        ensures
            r == (self.header.flags & MESSAGE_FLAG_IS_REPLY != 0),
    {
        (self.header.flags & MESSAGE_FLAG_IS_REPLY) != 0
    }

    /// Whether this message was delivered through a messenger.
    pub fn was_delivered(&self) -> (r: bool)
        ensures
            r == (self.header.flags & MESSAGE_FLAG_WAS_DELIVERED != 0),
    {
        (self.header.flags & MESSAGE_FLAG_WAS_DELIVERED) != 0
    }

    /// Whether the sender asked for a reply and already has one.
    pub fn is_source_waiting(&self) -> (r: bool)
        ensures
            r == (self.header.flags & MESSAGE_FLAG_REPLY_REQUIRED != 0 && self.header.flags
                & MESSAGE_FLAG_REPLY_DONE != 0),
    {
        (self.header.flags & MESSAGE_FLAG_REPLY_REQUIRED) != 0 && (self.header.flags
            & MESSAGE_FLAG_REPLY_DONE) != 0
    }

    /// Whether this message was delivered from a team other than `team`.
    pub fn is_source_remote(&self, team: i32) -> (r: bool)
        ensures
            r == (self.header.flags & MESSAGE_FLAG_WAS_DELIVERED != 0 && self.header.reply_team
                != team),
    {
        (self.header.flags & MESSAGE_FLAG_WAS_DELIVERED) != 0 && self.header.reply_team != team
    }

    /// A messenger to the sender's reply address, for a message that was
    /// delivered; `None` otherwise or when it names no port.
    pub fn get_return_address(&self) -> (r: Option<Messenger>)
        ensures
            self.header.flags & MESSAGE_FLAG_WAS_DELIVERED == 0 || self.header.reply_port < 0 ==> r is None,
            self.header.flags & MESSAGE_FLAG_WAS_DELIVERED != 0 && self.header.reply_port >= 0 ==> (r matches Some(
                m,
            ) && m.port.port == self.header.reply_port && m.token == B_PREFERRED_TOKEN),
    {
        if (self.header.flags & MESSAGE_FLAG_WAS_DELIVERED) == 0 {
            return None;
        }
        Messenger::from_port_id(self.header.reply_port)
    }
}

/// Whether `c` is the code of an upper case ASCII letter.
pub open spec fn is_upper_code(c: u32) -> bool {
    0x41 <= c <= 0x5a
}

fn is_upper(c: u32) -> (r: bool)
    ensures
        r == is_upper_code(c),
{
    0x41 <= c && c <= 0x5a
}

/// Whether a message code is an underscore followed by three upper case
/// ASCII letters.
pub open spec fn is_system_code(w: u32) -> bool {
    &&& (w >> 24u32) & 0xff == 0x5f
    &&& is_upper_code((w >> 16u32) & 0xff)
    &&& is_upper_code((w >> 8u32) & 0xff)
    &&& is_upper_code(w & 0xff)
}


/// Hash-chain integrity: in a well-formed message, which every
/// constructor and every edit of this library keeps, every bucket link of a
/// field and every hash table entry is either -1 or the index of a field.
pub proof fn lemma_links_live(m: &Message)
    requires
        m.wf(),
    ensures
        links_in_range(m.nexts(), m.fields@.len() as int),
        links_in_range(m.header.hash_table@, m.fields@.len() as int),
        m.nexts().len() == m.fields@.len(),
        forall|i: int|
            0 <= i < m.fields@.len() ==> -1 <= (#[trigger] m.fields@[i]).next_field < m.fields@.len(),
{
    lemma_wf_index(m);
    lemma_wf_layout(m);
    let names = m.names();
    let nexts = m.nexts();
    assert forall|i: int| 0 <= i < nexts.len() implies -1 <= #[trigger] nexts[i] < m.fields@.len() by {
        assert(next_ok(names, nexts, i));
    }
    assert forall|h: int| 0 <= h < m.header.hash_table@.len() implies -1 <= #[trigger] m.header.hash_table@[h]
        < m.fields@.len() by {
        assert(head_ok(names, m.header.hash_table@, h));
    }
    assert forall|i: int| 0 <= i < m.fields@.len() implies -1 <= (#[trigger] m.fields@[i]).next_field
        < m.fields@.len() by {
        assert(nexts[i] == m.fields@[i].next_field);
    }
}

/// Offset consistency: in a well-formed message, which every constructor
/// and every edit of this library keeps, the bytes at each field's offset
/// are that field's name followed by a NUL byte.
pub proof fn lemma_names_at_offsets(m: &Message)
    requires
        m.wf(),
    ensures
        forall|i: int|
            0 <= i < m.fields@.len() ==> m.data@.subrange(
                (#[trigger] m.fields@[i]).offset as int,
                m.fields@[i].offset + m.fields@[i].name_length,
            ) == m@[i].name.push(0),
{
    lemma_wf_view(m);
    assert forall|i: int|
        0 <= i < m.fields@.len() implies m.data@.subrange(
        (#[trigger] m.fields@[i]).offset as int,
        m.fields@[i].offset + m.fields@[i].name_length,
    ) == m@[i].name.push(0) by {
        let f = m.fields@[i];
        let r = region(f, m.data@);
        assert(region_ok(f, r));
        assert(r[f.name_length - 1] == 0);
        assert(m.data@.subrange(f.offset as int, f.offset + f.name_length) =~= m@[i].name.push(0));
    }
}


} // verus!
