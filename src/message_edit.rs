//! Adding, replacing and removing the values and fields of a `Message`.
//!
//! Every change splices bytes into or out of the data blob and then shifts
//! the offsets of the fields behind the change by the net number of bytes.
//! Removing a field also renumbers the hash links that point past it.
use vstd::bytes::*;
use vstd::prelude::*;
use vstd::utf8::encode_utf8;

use crate::errors::{ErrorKind, HaikuError};
use crate::flattenable::{append_bytes, Flattenable};
use crate::message::{
    same_stamp,
    flat_size,
    var_split, value_place,
    lemma_wf_intro,
    field_flags, HASH_TABLE_SIZE, HEADER_SIZE,
    lemma_wf_regions, lemma_wf_index,
    lemma_wf_layout,
    bucket, chunks, copy_range, field_end, field_size, fixed_flag, head_ok, index_ok, layout_ok,
    lemma_field_flags, lemma_layout_order, lemma_parse_var_concat, lemma_parse_var_single,
    lemma_wf_field, lemma_wf_view, lookup, next_ok, parse_var, region, region_ok, region_values,
    region_view, stored_value, value_bytes, FieldHeader, FieldView, Message, FIELD_HEADER_SIZE,
};
use crate::types::{B_ANY_TYPE, FIELD_FLAG_FIXED_SIZE, FIELD_FLAG_VALID};

verus! {

/// Two field headers that differ at most in their offsets.
pub open spec fn same_but_offset(a: FieldHeader, b: FieldHeader) -> bool {
    &&& a.flags == b.flags
    &&& a.name_length == b.name_length
    &&& a.field_type == b.field_type
    &&& a.count == b.count
    &&& a.data_size == b.data_size
    &&& a.next_field == b.next_field
}

/// `f` with its offset moved by `delta` when it lies at or after `from`.
pub open spec fn shifted(f: FieldHeader, from: int, delta: int) -> FieldHeader {
    if f.offset >= from {
        FieldHeader { offset: (f.offset + delta) as u32, ..f }
    } else {
        f
    }
}

/// The fields after adding value `v` to the field `name`, creating the
/// field when there is none.
pub open spec fn with_value(
    fields: Seq<FieldView>,
    name: Seq<u8>,
    type_code: u32,
    fixed: bool,
    v: Seq<u8>,
) -> Seq<FieldView> {
    match lookup(fields, name) {
        Some(k) => fields.update(k, FieldView { values: fields[k].values.push(v), ..fields[k] }),
        None => fields.push(FieldView { name: name, type_code: type_code, fixed: fixed, values: seq![v] }),
    }
}

/// Whether `add_data` accepts a value: the name is not empty and fits a
/// field header, an existing field of that name has the same type, kind and
/// (for fixed-size values) value size, and the grown message still fits the
/// 32-bit sizes of the format.
pub open spec fn add_ok(m: &Message, name: Seq<u8>, type_code: u32, fixed: bool, v: Seq<u8>) -> bool {
    let stored = stored_value(fixed, v).len();
    &&& 0 < name.len() < 0xffff
    &&& fixed || v.len() <= u32::MAX
    &&& match lookup(m@, name) {
        Some(k) => {
            &&& m@[k].type_code == type_code
            &&& m@[k].fixed == fixed
            &&& fixed ==> v.len() == m@[k].values[0].len()
            &&& m@[k].values.len() < u32::MAX
            &&& m.spec_flattened_size() + stored <= u32::MAX
        },
        None => m.spec_flattened_size() + FIELD_HEADER_SIZE + name.len() + 1 + stored <= u32::MAX,
    }
}

/// A byte string made of `data` up to `p`, then `b`, then `data` from `q`.
pub fn splice_bytes(data: &Vec<u8>, p: usize, q: usize, b: &[u8]) -> (r: Vec<u8>)
    requires
        p <= q <= data@.len(),
    ensures
        r@ == data@.subrange(0, p as int) + b@ + data@.subrange(q as int, data@.len() as int),
{
    let mut r = copy_range(data.as_slice(), 0, p);
    append_bytes(&mut r, b);
    let tail = copy_range(data.as_slice(), q, data.len());
    append_bytes(&mut r, tail.as_slice());
    r
}

/// Splicing bytes inside the value part of region `k` keeps the layout,
/// keeps every other region, and splices region `k` the same way.
pub proof fn lemma_splice(
    fields: Seq<FieldHeader>,
    data: Seq<u8>,
    k: int,
    p: int,
    q: int,
    b: Seq<u8>,
    nf: Seq<FieldHeader>,
    nd: Seq<u8>,
)
    requires
        layout_ok(fields, data.len() as int),
        0 <= k < fields.len(),
        fields[k].offset + fields[k].name_length <= p <= q <= field_end(fields[k]),
        nd == data.subrange(0, p) + b + data.subrange(q, data.len() as int),
        nf.len() == fields.len(),
        forall|i: int|
            0 <= i < fields.len() && i != k ==> same_but_offset(#[trigger] nf[i], fields[i]),
        forall|i: int|
            0 <= i < fields.len() ==> (#[trigger] nf[i]).offset == fields[i].offset + (if i > k {
                b.len() - (q - p)
            } else {
                0
            }),
        nf[k].name_length == fields[k].name_length,
        nf[k].data_size == fields[k].data_size + b.len() - (q - p),
    ensures
        layout_ok(nf, nd.len() as int),
        forall|i: int|
            0 <= i < fields.len() && i != k ==> region(#[trigger] nf[i], nd) == region(fields[i], data),
        region(nf[k], nd) == region(fields[k], data).subrange(0, p - fields[k].offset) + b + region(
            fields[k],
            data,
        ).subrange(q - fields[k].offset, field_size(fields[k])),
{
    lemma_layout_order(fields, data.len() as int);
    let delta = b.len() - (q - p);
    assert forall|i: int| #![trigger nf[i]] 0 < i < nf.len() implies nf[i].offset == field_end(nf[i - 1]) by {
        assert(fields[i].offset == field_end(fields[i - 1]));
    }
    if nf.len() > 0 {
        assert(nf.last() == nf[nf.len() - 1]);
        assert(fields.last() == fields[fields.len() - 1]);
    }
    assert forall|i: int|
        0 <= i < fields.len() && i != k implies region(#[trigger] nf[i], nd) == region(fields[i], data) by {
        if i < k {
            assert(field_end(fields[i]) <= fields[k].offset);
            assert(region(nf[i], nd) =~= region(fields[i], data));
        } else {
            assert(field_end(fields[k]) <= fields[i].offset);
            assert(region(nf[i], nd) =~= region(fields[i], data));
        }
    }
    assert(region(nf[k], nd) =~= region(fields[k], data).subrange(0, p - fields[k].offset) + b + region(
        fields[k],
        data,
    ).subrange(q - fields[k].offset, field_size(fields[k])));
}

/// Two field headers that agree on everything that shapes a region's
/// content: all but the offset and the bucket link.
pub open spec fn same_content(a: FieldHeader, b: FieldHeader) -> bool {
    &&& a.flags == b.flags
    &&& a.name_length == b.name_length
    &&& a.field_type == b.field_type
    &&& a.count == b.count
    &&& a.data_size == b.data_size
}

/// Headers that agree on their content describe regions the same way.
pub proof fn lemma_same_region_view(a: FieldHeader, b: FieldHeader, r: Seq<u8>)
    requires
        same_content(a, b),
    ensures
        region_ok(a, r) == region_ok(b, r),
        region_view(a, r) == region_view(b, r),
{
    reveal(region_values);
}

/// Appending one value to the value bytes of a field.
pub proof fn lemma_append_value(f: FieldHeader, nf: FieldHeader, r: Seq<u8>, v: Seq<u8>)
    requires
        region_ok(f, r),
        f.count < u32::MAX,
        nf == (FieldHeader {
            count: (f.count + 1) as u32,
            data_size: (f.data_size + stored_value(fixed_flag(f.flags), v).len()) as u32,
            ..f
        }),
        f.data_size + stored_value(fixed_flag(f.flags), v).len() <= u32::MAX,
        fixed_flag(f.flags) ==> v.len() == region_values(f, r)[0].len(),
        !fixed_flag(f.flags) ==> v.len() <= u32::MAX,
    ensures
        region_ok(nf, r + stored_value(fixed_flag(f.flags), v)),
        region_view(nf, r + stored_value(fixed_flag(f.flags), v)) == (FieldView {
            values: region_view(f, r).values.push(v),
            ..region_view(f, r)
        }),
{
    reveal(region_values);
    let fixed = fixed_flag(f.flags);
    let s = stored_value(fixed, v);
    let nr = r + s;
    assert(value_bytes(nf, nr) =~= value_bytes(f, r) + s);
    assert(nr.subrange(0, f.name_length - 1) =~= r.subrange(0, f.name_length - 1));
    assert(nr[f.name_length - 1] == r[f.name_length - 1]);
    if fixed {
        let c = f.count as int;
        let size = (f.data_size / f.count) as int;
        assert(f.data_size == c * size) by (nonlinear_arith)
            requires
                f.data_size % f.count == 0,
                size == f.data_size / f.count,
                c == f.count,
                c > 0,
        ;
        assert(region_values(f, r)[0].len() == size) by {
            assert(0 * size == 0);
        }
        assert((c * size + size) / (c + 1) == size && (c * size + size) % (c + 1) == 0) by (nonlinear_arith)
            requires
                c > 0,
                size >= 0,
        {
            assert(c * size + size == (c + 1) * size);
        }
        let vb = value_bytes(f, r);
        let nvb = value_bytes(nf, nr);
        assert forall|i: int| 0 <= i < c implies #[trigger] chunks(nvb, size, (c + 1) as nat)[i] == chunks(
            vb,
            size,
            c as nat,
        )[i] by {
            assert(i * size + size <= c * size) by (nonlinear_arith)
                requires
                    0 <= i < c,
                    size >= 0,
            {
                assert((i + 1) * size <= c * size);
            }
            assert(nvb.subrange(i * size, i * size + size) =~= vb.subrange(i * size, i * size + size));
        }
        assert(chunks(nvb, size, (c + 1) as nat)[c] =~= v);
        assert(chunks(nvb, size, (c + 1) as nat) =~= chunks(vb, size, c as nat).push(v));
    } else {
        lemma_parse_var_single(v);
        lemma_parse_var_concat(value_bytes(f, r), s, f.count as nat, 1);
        assert(parse_var(value_bytes(f, r), f.count as nat)->0 + seq![v] =~= parse_var(
            value_bytes(f, r),
            f.count as nat,
        )->0.push(v));
    }
}

impl Message {
    /// Move the offset of every field that starts at or after `from` by
    /// `delta` bytes.
    fn update_offsets(&mut self, from: usize, delta: i64)
        requires
            forall|i: int|
                0 <= i < old(self).fields@.len() && (#[trigger] old(self).fields@[i]).offset >= from
                    ==> 0 <= old(self).fields@[i].offset + delta <= u32::MAX,
        ensures
            final(self).fields@.len() == old(self).fields@.len(),
            forall|i: int|
                0 <= i < old(self).fields@.len() ==> #[trigger] final(self).fields@[i] == shifted(
                    old(self).fields@[i],
                    from as int,
                    delta as int,
                ),
            final(self).header == old(self).header,
            final(self).data == old(self).data,
    {
        let n = self.fields.len();
        let mut i: usize = 0;
        while i < n
            invariant
                n == self.fields@.len() == old(self).fields@.len(),
                i <= n,
                self.header == old(self).header,
                self.data == old(self).data,
                forall|j: int|
                    0 <= j < old(self).fields@.len() && (#[trigger] old(self).fields@[j]).offset >= from
                        ==> 0 <= old(self).fields@[j].offset + delta <= u32::MAX,
                forall|j: int|
                    0 <= j < i ==> #[trigger] self.fields@[j] == shifted(
                        old(self).fields@[j],
                        from as int,
                        delta as int,
                    ),
                forall|j: int| i <= j < n ==> #[trigger] self.fields@[j] == old(self).fields@[j],
            decreases n - i,
        {
            let f = self.fields[i];
            if f.offset as usize >= from {
                let moved = ((f.offset as i64) + delta) as u32;
                self.fields.set(i, FieldHeader { offset: moved, ..f });
            }
            i = i + 1;
        }
    }

    /// Add `value` to the existing field `k`, behind its last value.
    fn append_value(&mut self, k: usize, value: &Vec<u8>, fixed: bool)
        requires
            old(self).wf(),
            k < old(self).fields@.len(),
            fixed == old(self)@[k as int].fixed,
            fixed ==> value@.len() == old(self)@[k as int].values[0].len(),
            !fixed ==> value@.len() <= u32::MAX,
            old(self)@[k as int].values.len() < u32::MAX,
            old(self).spec_flattened_size() + stored_value(fixed, value@).len() <= u32::MAX,
        ensures
            final(self).wf(),
            final(self)@ == old(self)@.update(
                k as int,
                FieldView { values: old(self)@[k as int].values.push(value@), ..old(self)@[k as int] },
            ),
            same_stamp(final(self).header, old(self).header),
    {
        proof {
            lemma_wf_view(self);
            lemma_wf_field(self, k as int);
            lemma_field_flags();
            lemma_values_len(self, k as int);
        }
        let ghost before = *self;
        let f = self.fields[k];
        let stored: Vec<u8> = if fixed {
            value.clone()
        } else {
            let mut s = u32_to_le_bytes(value.len() as u32);
            append_bytes(&mut s, value.as_slice());
            s
        };
        proof {
            if fixed {
                assert(stored@ == value@);
            }
            assert(stored@ == stored_value(fixed, value@));
        }
        let at = (f.offset as usize) + (f.name_length as usize) + (f.data_size as usize);
        proof {
            assert forall|i: int|
                0 <= i < before.fields@.len() && (#[trigger] before.fields@[i]).offset >= at implies 0
                    <= before.fields@[i].offset + stored@.len() <= u32::MAX by {
                assert(field_end(before.fields@[i]) <= before.data@.len());
            }
        }
        self.update_offsets(at, stored.len() as i64);
        let new_data = splice_bytes(&self.data, at, at, stored.as_slice());
        self.data = new_data;
        let nf = FieldHeader {
            count: f.count + 1,
            data_size: f.data_size + stored.len() as u32,
            ..f
        };
        self.fields.set(k, nf);
        self.header.data_size = self.header.data_size + stored.len() as u32;
        proof {
            lemma_append_wf(before, *self, k as int, value@, stored@);
        }
    }
}

/// A well-formed field holds as many values as its header counts.
pub proof fn lemma_values_len(m: &Message, k: int)
    requires
        m.wf(),
        0 <= k < m.fields@.len(),
    ensures
        m@[k].values.len() == m.fields@[k].count,
{
    lemma_wf_field(m, k);
    reveal(region_values);
    let f = m.fields@[k];
    if !fixed_flag(f.flags) {
        crate::message::lemma_parse_var_len(value_bytes(f, region(f, m.data@)), f.count as nat);
    }
}

/// After a value is appended to field `k`, the message is still well formed
/// and only that field gained the value.
#[verifier::rlimit(100)]
proof fn lemma_append_wf(before: Message, after: Message, k: int, v: Seq<u8>, stored: Seq<u8>)
    requires
        before.wf(),
        0 <= k < before.fields@.len(),
        stored == stored_value(before@[k].fixed, v),
        before@[k].fixed ==> v.len() == before@[k].values[0].len(),
        !before@[k].fixed ==> v.len() <= u32::MAX,
        before@[k].values.len() < u32::MAX,
        before.spec_flattened_size() + stored.len() <= u32::MAX,
        after.data@ == before.data@.subrange(0, field_end(before.fields@[k])) + stored
            + before.data@.subrange(field_end(before.fields@[k]), before.data@.len() as int),
        after.fields@.len() == before.fields@.len(),
        forall|i: int|
            0 <= i < before.fields@.len() && i != k ==> #[trigger] after.fields@[i] == shifted(
                before.fields@[i],
                field_end(before.fields@[k]),
                stored.len() as int,
            ),
        after.fields@[k] == (FieldHeader {
            count: (before.fields@[k].count + 1) as u32,
            data_size: (before.fields@[k].data_size + stored.len()) as u32,
            ..before.fields@[k]
        }),
        after.header.hash_table == before.header.hash_table,
        after.header.hash_table_size == before.header.hash_table_size,
        after.header.field_count == before.header.field_count,
        after.header.data_size == before.header.data_size + stored.len(),
    ensures
        after.wf(),
        after@ == before@.update(k, FieldView { values: before@[k].values.push(v), ..before@[k] }),
{
    lemma_wf_layout(&before);
    lemma_wf_regions(&before);
    lemma_wf_index(&before);
    lemma_wf_field(&before, k);
    lemma_values_len(&before, k);
    lemma_field_flags();
    let of = before.fields@;
    let od = before.data@;
    let nfs = after.fields@;
    let nd = after.data@;
    let f = of[k];
    let at = field_end(f);
    assert forall|i: int| 0 <= i < of.len() && i != k implies same_but_offset(#[trigger] nfs[i], of[i]) by {}
    assert forall|i: int| 0 <= i < of.len() implies (#[trigger] nfs[i]).offset == of[i].offset + (if i > k {
        stored.len() - 0
    } else {
        0
    }) by {
        if i > k {
            assert(field_end(of[k]) <= of[i].offset);
        } else if i < k {
            assert(field_end(of[i]) <= of[k].offset);
        }
    }
    lemma_splice(of, od, k, at, at, stored, nfs, nd);
    let r = region(f, od);
    assert(r.subrange(0, at - f.offset) =~= r);
    assert(r.subrange(at - f.offset, field_size(f)) =~= Seq::<u8>::empty());
    assert(region(nfs[k], nd) =~= r + stored);
    lemma_append_value(f, nfs[k], r, v);
    assert forall|i: int| 0 <= i < nfs.len() implies region_ok(#[trigger] nfs[i], region(nfs[i], nd)) by {
        if i != k {
            lemma_same_region_view(nfs[i], of[i], region(nfs[i], nd));
        }
    }
    assert(after@ =~= before@.update(k, FieldView { values: before@[k].values.push(v), ..before@[k] })) by {
        assert forall|i: int| 0 <= i < nfs.len() && i != k implies after@[i] == before@[i] by {
            lemma_same_region_view(nfs[i], of[i], region(nfs[i], nd));
        }
    }
    assert(after.names() =~= before.names());
    assert(after.nexts() =~= before.nexts());
    reveal(Message::wf);
}


/// Adding a field with a new name at the end of the index: it becomes the
/// tail of its bucket, linked from the old tail or from the bucket head.
pub proof fn lemma_index_push(
    names: Seq<Seq<u8>>,
    nexts: Seq<i32>,
    table: Seq<i32>,
    name: Seq<u8>,
    tail: int,
    new_nexts: Seq<i32>,
    new_table: Seq<i32>,
)
    requires
        index_ok(names, nexts, table),
        forall|i: int| 0 <= i < names.len() ==> names[i] != name,
        names.len() < i32::MAX,
        tail == -1 ==> table[bucket(name)] == -1,
        tail == -1 ==> new_nexts == nexts.push(-1i32),
        tail == -1 ==> new_table == table.update(bucket(name), names.len() as i32),
        tail != -1 ==> {
            &&& 0 <= tail < names.len()
            &&& bucket(names[tail]) == bucket(name)
            &&& nexts[tail] == -1
            &&& new_nexts == nexts.update(tail, names.len() as i32).push(-1i32)
            &&& new_table == table
        },
    ensures
        index_ok(names.push(name), new_nexts, new_table),
{
    let n = names.len() as int;
    let h = bucket(name);
    let nn = names.push(name);
    assert(0 <= h < 5) by {
        assert(name_hash_mod(name));
    }
    assert forall|i: int| 0 <= i < nn.len() implies #[trigger] next_ok(nn, new_nexts, i) by {
        if i == n {
        } else if i == tail {
            assert(next_ok(names, nexts, i));
            assert forall|j: int| i < j < n implies bucket(#[trigger] nn[j]) != bucket(nn[i]) by {
                assert(nn[j] == names[j]);
            }
        } else {
            assert(next_ok(names, nexts, i));
            assert(new_nexts[i] == nexts[i]);
            if nexts[i] == -1 {
                if bucket(names[i]) == h {
                    if tail == -1 {
                        assert(head_ok(names, table, h));
                    } else if i < tail {
                        assert(bucket(names[tail]) == bucket(names[i]));
                    } else {
                        assert(next_ok(names, nexts, tail));
                        assert(bucket(names[i]) == bucket(names[tail]));
                    }
                }
                assert forall|j: int| i < j < nn.len() implies bucket(#[trigger] nn[j]) != bucket(nn[i]) by {
                    if j < n {
                        assert(nn[j] == names[j]);
                    }
                }
            } else {
                assert forall|j: int| i < j < new_nexts[i] implies bucket(#[trigger] nn[j]) != bucket(nn[i]) by {
                    assert(nn[j] == names[j]);
                }
            }
        }
    }
    assert forall|g: int| 0 <= g < 5 implies #[trigger] head_ok(nn, new_table, g) by {
        assert(head_ok(names, table, g));
        if g == h && tail == -1 {
            assert forall|j: int| 0 <= j < n implies bucket(#[trigger] nn[j]) != g by {
                assert(nn[j] == names[j]);
            }
        } else {
            assert(new_table[g] == table[g]);
            if table[g] == -1 {
                if g == h {
                    assert(bucket(names[tail]) == g);
                }
                assert forall|j: int| 0 <= j < nn.len() implies bucket(#[trigger] nn[j]) != g by {
                    if j < n {
                        assert(nn[j] == names[j]);
                    }
                }
            } else {
                assert forall|j: int| 0 <= j < table[g] implies bucket(#[trigger] nn[j]) != g by {
                    assert(nn[j] == names[j]);
                }
            }
        }
    }
    assert forall|i: int, j: int| 0 <= i < j < nn.len() implies nn[i] != nn[j] by {
        if j == n {
            assert(nn[i] == names[i]);
        } else {
            assert(nn[i] == names[i] && nn[j] == names[j]);
        }
    }
}

/// A name hash modulo the table size is a bucket number.
pub open spec fn name_hash_mod(name: Seq<u8>) -> bool {
    0 <= bucket(name) < 5
}


/// The header of a new field with one value.
pub open spec fn new_field_header(
    name: Seq<u8>,
    type_code: u32,
    fixed: bool,
    stored: Seq<u8>,
    offset: int,
) -> FieldHeader {
    FieldHeader {
        flags: field_flags(fixed),
        name_length: (name.len() + 1) as u16,
        field_type: type_code,
        count: 1,
        data_size: stored.len() as u32,
        offset: offset as u32,
        next_field: -1i32,
    }
}

/// The region of a new field with one value.
proof fn lemma_new_region(name: Seq<u8>, type_code: u32, fixed: bool, v: Seq<u8>, offset: int)
    requires
        0 < name.len() < 0xffff,
        stored_value(fixed, v).len() <= u32::MAX,
        !fixed ==> v.len() <= u32::MAX,
        0 <= offset <= u32::MAX,
    ensures
        ({
            let f = new_field_header(name, type_code, fixed, stored_value(fixed, v), offset);
            let r = name.push(0) + stored_value(fixed, v);
            &&& region_ok(f, r)
            &&& region_view(f, r) == (FieldView {
                name: name,
                type_code: type_code,
                fixed: fixed,
                values: seq![v],
            })
        }),
{
    reveal(region_values);
    lemma_field_flags();
    let stored = stored_value(fixed, v);
    let f = new_field_header(name, type_code, fixed, stored, offset);
    let r = name.push(0) + stored;
    assert(r.subrange(0, f.name_length - 1) =~= name);
    assert(r[f.name_length - 1] == 0);
    assert(value_bytes(f, r) =~= stored);
    if fixed {
        assert(f.data_size / f.count == v.len());
        assert(chunks(stored, v.len() as int, 1)[0] =~= v);
        assert(chunks(stored, v.len() as int, 1) =~= seq![v]);
    } else {
        lemma_parse_var_single(v);
    }
}

/// The regions after a field with a new name is added at the end.
#[verifier::rlimit(100)]
proof fn lemma_add_field_content(
    before: Message,
    after: Message,
    name: Seq<u8>,
    type_code: u32,
    fixed: bool,
    v: Seq<u8>,
    tail: int,
)
    requires
        before.wf(),
        lookup(before@, name) is None,
        0 < name.len() < 0xffff,
        !fixed ==> v.len() <= u32::MAX,
        before.spec_flattened_size() + FIELD_HEADER_SIZE + name.len() + 1 + stored_value(fixed, v).len()
            <= u32::MAX,
        tail == -1 ==> before.header.hash_table@[bucket(name)] == -1,
        tail == -1 ==> after.fields@ == before.fields@.push(
            new_field_header(name, type_code, fixed, stored_value(fixed, v), before.data@.len() as int),
        ),
        tail == -1 ==> after.header.hash_table@ == before.header.hash_table@.update(
            bucket(name),
            before.fields@.len() as i32,
        ),
        tail != -1 ==> {
            &&& 0 <= tail < before.fields@.len()
            &&& bucket(before.names()[tail]) == bucket(name)
            &&& before.fields@[tail].next_field == -1
            &&& after.fields@ == before.fields@.update(
                tail,
                FieldHeader { next_field: before.fields@.len() as i32, ..before.fields@[tail] },
            ).push(
                new_field_header(name, type_code, fixed, stored_value(fixed, v), before.data@.len() as int),
            )
            &&& after.header.hash_table@ == before.header.hash_table@
        },
        after.data@ == before.data@ + name.push(0) + stored_value(fixed, v),
        after.header.hash_table_size == before.header.hash_table_size,
        after.header.field_count == before.header.field_count + 1,
        after.header.data_size == before.header.data_size + name.len() + 1 + stored_value(fixed, v).len(),
    ensures
        layout_ok(after.fields@, after.data@.len() as int),
        forall|i: int|
            0 <= i < after.fields@.len() ==> region_ok(
                #[trigger] after.fields@[i],
                region(after.fields@[i], after.data@),
            ),
        after@ == before@.push(FieldView { name: name, type_code: type_code, fixed: fixed, values: seq![v] }),
{
    lemma_wf_layout(&before);
    lemma_wf_regions(&before);
    lemma_wf_index(&before);
    let n = before.fields@.len() as int;
    let of = before.fields@;
    let od = before.data@;
    let nfs = after.fields@;
    let nd = after.data@;
    let stored = stored_value(fixed, v);
    let nf = new_field_header(name, type_code, fixed, stored, od.len() as int);
    lemma_new_region(name, type_code, fixed, v, od.len() as int);
    assert(nfs[n] == nf);
    assert forall|i: int| 0 <= i < n implies same_content(#[trigger] nfs[i], of[i]) && nfs[i].offset
        == of[i].offset by {}
    // layout
    assert forall|i: int| #![trigger nfs[i]] 0 < i < nfs.len() implies nfs[i].offset == field_end(nfs[i - 1]) by {
        if i < n {
            assert(of[i].offset == field_end(of[i - 1]));
        } else {
            assert(of.last() == of[n - 1]);
        }
    }
    assert(nfs.last() == nf);
    if n > 0 {
        assert(nfs[0].offset == of[0].offset);
    }
    assert(layout_ok(nfs, nd.len() as int));
    // regions
    assert forall|i: int| 0 <= i < n implies region(#[trigger] nfs[i], nd) == region(of[i], od) by {
        assert(region(nfs[i], nd) =~= region(of[i], od));
    }
    assert(region(nf, nd) =~= name.push(0) + stored);
    assert forall|i: int| 0 <= i < nfs.len() implies region_ok(#[trigger] nfs[i], region(nfs[i], nd)) by {
        if i < n {
            lemma_same_region_view(nfs[i], of[i], region(nfs[i], nd));
        }
    }
    let fv = FieldView { name: name, type_code: type_code, fixed: fixed, values: seq![v] };
    assert(after@ =~= before@.push(fv)) by {
        assert forall|i: int| 0 <= i < n implies after@[i] == before@[i] by {
            lemma_same_region_view(nfs[i], of[i], region(nfs[i], nd));
        }
    }
}

/// After a field with a new name is added at the end, the message is still
/// well formed and holds the new field last.
#[verifier::rlimit(100)]
proof fn lemma_add_field_wf(
    before: Message,
    after: Message,
    name: Seq<u8>,
    type_code: u32,
    fixed: bool,
    v: Seq<u8>,
    tail: int,
)
    requires
        before.wf(),
        lookup(before@, name) is None,
        0 < name.len() < 0xffff,
        !fixed ==> v.len() <= u32::MAX,
        before.spec_flattened_size() + FIELD_HEADER_SIZE + name.len() + 1 + stored_value(fixed, v).len()
            <= u32::MAX,
        tail == -1 ==> before.header.hash_table@[bucket(name)] == -1,
        tail == -1 ==> after.fields@ == before.fields@.push(
            new_field_header(name, type_code, fixed, stored_value(fixed, v), before.data@.len() as int),
        ),
        tail == -1 ==> after.header.hash_table@ == before.header.hash_table@.update(
            bucket(name),
            before.fields@.len() as i32,
        ),
        tail != -1 ==> {
            &&& 0 <= tail < before.fields@.len()
            &&& bucket(before.names()[tail]) == bucket(name)
            &&& before.fields@[tail].next_field == -1
            &&& after.fields@ == before.fields@.update(
                tail,
                FieldHeader { next_field: before.fields@.len() as i32, ..before.fields@[tail] },
            ).push(
                new_field_header(name, type_code, fixed, stored_value(fixed, v), before.data@.len() as int),
            )
            &&& after.header.hash_table@ == before.header.hash_table@
        },
        after.data@ == before.data@ + name.push(0) + stored_value(fixed, v),
        after.header.hash_table_size == before.header.hash_table_size,
        after.header.field_count == before.header.field_count + 1,
        after.header.data_size == before.header.data_size + name.len() + 1 + stored_value(fixed, v).len(),
    ensures
        after.wf(),
        after@ == before@.push(FieldView { name: name, type_code: type_code, fixed: fixed, values: seq![v] }),
{
    lemma_add_field_content(before, after, name, type_code, fixed, v, tail);
    lemma_wf_layout(&before);
    lemma_wf_index(&before);
    let n = before.fields@.len() as int;
    // index
    assert(after.names() =~= before.names().push(name));
    assert forall|i: int| 0 <= i < n implies before.names()[i] != name by {
        assert(before.names()[i] == before@[i].name);
    }
    if tail == -1 {
        assert(after.nexts() =~= before.nexts().push(-1i32));
    } else {
        assert(after.nexts() =~= before.nexts().update(tail, n as i32).push(-1i32));
    }
    assert(n < i32::MAX);
    lemma_index_push(
        before.names(),
        before.nexts(),
        before.header.hash_table@,
        name,
        tail,
        after.nexts(),
        after.header.hash_table@,
    );
    lemma_message_size_after_add(before, after, name, fixed, v);
    lemma_wf_intro(&after);
}

/// The size of a message after a field with one value is added.
proof fn lemma_message_size_after_add(before: Message, after: Message, name: Seq<u8>, fixed: bool, v: Seq<u8>)
    requires
        before.wf(),
        before.spec_flattened_size() + FIELD_HEADER_SIZE + name.len() + 1 + stored_value(fixed, v).len()
            <= u32::MAX,
        after.fields@.len() == before.fields@.len() + 1,
        after.data@.len() == before.data@.len() + name.len() + 1 + stored_value(fixed, v).len(),
    ensures
        flat_size(after.fields@.len() as int, after.data@.len() as int) <= u32::MAX,
{
}

impl Message {
    /// Add a new field named `name` holding the single value `value`, and
    /// link it at the tail of its hash bucket.
    fn add_field(&mut self, name: &[u8], type_code: u32, fixed: bool, value: &Vec<u8>)
        requires
            old(self).wf(),
            lookup(old(self)@, name@) is None,
            0 < name@.len() < 0xffff,
            !fixed ==> value@.len() <= u32::MAX,
            old(self).spec_flattened_size() + FIELD_HEADER_SIZE + name@.len() + 1 + stored_value(
                fixed,
                value@,
            ).len() <= u32::MAX,
        ensures
            final(self).wf(),
            final(self)@ == old(self)@.push(
                FieldView { name: name@, type_code: type_code, fixed: fixed, values: seq![value@] },
            ),
            same_stamp(final(self).header, old(self).header),
    {
        proof {
            lemma_wf_layout(self);
            lemma_wf_index(self);
            lemma_field_flags();
        }
        let ghost before = *self;
        let ghost names = self.names();
        let ghost nexts = self.nexts();
        let n = self.fields.len();
        let h = (crate::message::hash_name(name) % HASH_TABLE_SIZE) as usize;
        let head = self.header.hash_table[h];
        let ghost mut tail: int = -1;
        proof {
            assert(h as int == bucket(name@));
            assert(head_ok(names, self.header.hash_table@, h as int));
        }
        if head >= 0 {
            let mut cur = head as usize;
            while self.fields[cur].next_field >= 0
                invariant
                    cur < n == self.fields@.len(),
                    self.fields == before.fields,
                    names == before.names(),
                    nexts == before.nexts(),
                    index_ok(names, nexts, before.header.hash_table@),
                    bucket(names[cur as int]) == h,
                decreases n - cur,
            {
                let nx = self.fields[cur].next_field;
                proof {
                    assert(next_ok(names, nexts, cur as int));
                    assert(nexts[cur as int] == nx);
                }
                cur = nx as usize;
            }
            let f = self.fields[cur];
            self.fields.set(cur, FieldHeader { next_field: n as i32, ..f });
            proof {
                tail = cur as int;
                assert(nexts[cur as int] == f.next_field);
                assert(next_ok(names, nexts, cur as int));
                assert(f.next_field == -1);
            }
        } else {
            self.header.hash_table.set(h, n as i32);
        }
        let stored: Vec<u8> = if fixed {
            value.clone()
        } else {
            let mut s = u32_to_le_bytes(value.len() as u32);
            append_bytes(&mut s, value.as_slice());
            s
        };
        proof {
            assert(stored@ == stored_value(fixed, value@));
        }
        let flags: u16 = if fixed {
            FIELD_FLAG_VALID | FIELD_FLAG_FIXED_SIZE
        } else {
            FIELD_FLAG_VALID
        };
        assert(flags == field_flags(fixed)) by {
            assert(1u16 | 2u16 == 3u16) by (bit_vector);
        }
        let header = FieldHeader {
            flags: flags,
            name_length: (name.len() + 1) as u16,
            field_type: type_code,
            count: 1,
            data_size: stored.len() as u32,
            offset: self.data.len() as u32,
            next_field: -1,
        };
        self.fields.push(header);
        append_bytes(&mut self.data, name);
        self.data.push(0);
        append_bytes(&mut self.data, stored.as_slice());
        self.header.field_count = self.header.field_count + 1;
        self.header.data_size = self.header.data_size + (name.len() as u32) + 1 + (stored.len() as u32);
        proof {
            assert(self.data@ =~= before.data@ + name@.push(0) + stored@);
            lemma_add_field_wf(before, *self, name@, type_code, fixed, value@, tail);
        }
    }

    /// Add `data` as the last value of the field `name`, creating the field
    /// when the message has none of that name.
    ///
    /// Fails with `InvalidInput`, and leaves the message as it was, when the
    /// name is empty or longer than a field header can hold, when the field
    /// exists with another type or kind of value or (for fixed-size values)
    /// another value size, when it holds as many values as a count can hold,
    /// or when the message would outgrow the 32-bit sizes of its format.
    pub fn add_data<T: Flattenable<T>>(&mut self, name: &str, data: &T) -> (r: Result<(), HaikuError>)
        requires
            old(self).wf(),
        ensures
            r is Ok <==> add_ok(
                old(self),
                encode_utf8(name@),
                T::spec_type_code(),
                T::spec_fixed_size(),
                data.flat(),
            ),
            r is Ok ==> final(self).wf() && final(self)@ == with_value(
                old(self)@,
                encode_utf8(name@),
                T::spec_type_code(),
                T::spec_fixed_size(),
                data.flat(),
            ),
            r matches Err(e) ==> e.spec_kind() == ErrorKind::InvalidInput && *final(self) == *old(
                self,
            ),
            same_stamp(final(self).header, old(self).header),
    {
        let name_bytes = name.as_bytes();
        let fixed = T::is_fixed_size();
        let type_code = T::type_code();
        let value = data.flatten();
        self.add_bytes(name_bytes, type_code, fixed, &value)
    }

    /// Add the flattened value `value`, of type `type_code` and of fixed
    /// size when `fixed`, as the last value of the field `name`; see
    /// `add_data`.
    pub fn add_bytes(&mut self, name_bytes: &[u8], type_code: u32, fixed: bool, value: &Vec<u8>) -> (r: Result<(), HaikuError>)
        requires
            old(self).wf(),
        ensures
            r is Ok <==> add_ok(old(self), name_bytes@, type_code, fixed, value@),
            r is Ok ==> final(self).wf() && final(self)@ == with_value(old(self)@, name_bytes@, type_code, fixed, value@),
            r matches Err(e) ==> e.spec_kind() == ErrorKind::InvalidInput && *final(self) == *old(
                self,
            ),
            same_stamp(final(self).header, old(self).header),
    {
        proof {
            lemma_wf_layout(self);
        }
        if name_bytes.len() == 0 || name_bytes.len() >= 0xffff {
            return Err(HaikuError::new(ErrorKind::InvalidInput, "field names must be 1 to 65534 bytes long"));
        }
        if !fixed && value.len() as u64 > u32::MAX as u64 {
            return Err(HaikuError::new(ErrorKind::InvalidInput, "value is too large"));
        }
        let stored_len: u64 = if fixed {
            value.len() as u64
        } else {
            value.len() as u64 + 4
        };
        proof {
            lemma_auto_spec_u32_to_from_le_bytes();
            assert(stored_len == stored_value(fixed, value@).len());
        }
        if stored_len > u32::MAX as u64 {
            return Err(HaikuError::new(ErrorKind::InvalidInput, "message is too large"));
        }
        let size: u64 = (HEADER_SIZE as u64) + (FIELD_HEADER_SIZE as u64) * (self.fields.len() as u64)
            + (self.data.len() as u64);
        match self.find_field(name_bytes, B_ANY_TYPE) {
            Some(k) => {
                let f = self.fields[k];
                proof {
                    lemma_wf_field(self, k as int);
                    lemma_values_len(self, k as int);
                    lemma_field_flags();
                    reveal(region_values);
                }
                let field_fixed = (f.flags & FIELD_FLAG_FIXED_SIZE) != 0;
                if f.field_type != type_code || field_fixed != fixed {
                    return Err(HaikuError::new(ErrorKind::InvalidInput, "field holds values of another type"));
                }
                if fixed && value.len() as u64 != (f.data_size / f.count) as u64 {
                    proof {
                        assert(0 * ((f.data_size / f.count) as int) == 0);
                    }
                    return Err(HaikuError::new(ErrorKind::InvalidInput, "value has another size than the field's values"));
                }
                if f.count == u32::MAX || size + stored_len > u32::MAX as u64 {
                    return Err(HaikuError::new(ErrorKind::InvalidInput, "message is too large"));
                }
                proof {
                    if fixed {
                        assert(0 * ((f.data_size / f.count) as int) == 0);
                    }
                }
                self.append_value(k, value, fixed);
                Ok(())
            },
            None => {
                if size + (FIELD_HEADER_SIZE as u64) + (name_bytes.len() as u64) + 1 + stored_len
                    > u32::MAX as u64 {
                    return Err(HaikuError::new(ErrorKind::InvalidInput, "message is too large"));
                }
                self.add_field(name_bytes, type_code, fixed, value);
                Ok(())
            },
        }
    }
}


/// A bucket link after field `k` is removed: links past `k` move down by
/// one, and a link to `k` takes over `k`'s own link `nk`.
pub open spec fn relink(x: i32, k: int, nk: i32) -> i32 {
    if x > k {
        (x - 1) as i32
    } else if x == k {
        if nk > k {
            (nk - 1) as i32
        } else {
            nk
        }
    } else {
        x
    }
}

/// The position that entry `i` had before entry `k` was removed.
pub open spec fn before_removal(i: int, k: int) -> int {
    if i < k {
        i
    } else {
        i + 1
    }
}

/// Removing field `k` from the index, with links renumbered, keeps the
/// index exact.
pub proof fn lemma_index_remove(
    names: Seq<Seq<u8>>,
    nexts: Seq<i32>,
    table: Seq<i32>,
    k: int,
    new_nexts: Seq<i32>,
    new_table: Seq<i32>,
)
    requires
        index_ok(names, nexts, table),
        0 <= k < names.len(),
        new_nexts.len() == names.len() - 1,
        forall|i: int|
            0 <= i < names.len() - 1 ==> #[trigger] new_nexts[i] == relink(
                nexts[before_removal(i, k)],
                k,
                nexts[k],
            ),
        new_table.len() == table.len(),
        forall|h: int| 0 <= h < table.len() ==> #[trigger] new_table[h] == relink(table[h], k, nexts[k]),
    ensures
        index_ok(names.remove(k), new_nexts, new_table),
{
    let n = names.len() as int;
    let nn = names.remove(k);
    let nk = nexts[k];
    assert(next_ok(names, nexts, k));
    assert forall|i: int| 0 <= i < nn.len() implies #[trigger] next_ok(nn, new_nexts, i) by {
        let j = before_removal(i, k);
        assert(nn[i] == names[j]);
        assert(next_ok(names, nexts, j));
        let nx = nexts[j] as int;
        if nx == -1 {
            assert forall|l: int| i < l < nn.len() implies bucket(#[trigger] nn[l]) != bucket(nn[i]) by {
                assert(nn[l] == names[before_removal(l, k)]);
            }
        } else if nx == k {
            if nk == -1 {
                assert forall|l: int| i < l < nn.len() implies bucket(#[trigger] nn[l]) != bucket(nn[i]) by {
                    assert(nn[l] == names[before_removal(l, k)]);
                }
            } else {
                assert(nn[nk - 1] == names[nk as int]);
                assert forall|l: int| i < l < nk - 1 implies bucket(#[trigger] nn[l]) != bucket(nn[i]) by {
                    assert(nn[l] == names[before_removal(l, k)]);
                }
            }
        } else if nx > k {
            assert(nn[nx - 1] == names[nx]);
            assert forall|l: int| i < l < nx - 1 implies bucket(#[trigger] nn[l]) != bucket(nn[i]) by {
                assert(nn[l] == names[before_removal(l, k)]);
            }
        } else {
            assert(nn[nx] == names[nx]);
            assert forall|l: int| i < l < nx implies bucket(#[trigger] nn[l]) != bucket(nn[i]) by {
                assert(nn[l] == names[before_removal(l, k)]);
            }
        }
    }
    assert forall|h: int| 0 <= h < 5 implies #[trigger] head_ok(nn, new_table, h) by {
        assert(head_ok(names, table, h));
        let t = table[h] as int;
        if t == -1 {
            assert forall|l: int| 0 <= l < nn.len() implies bucket(#[trigger] nn[l]) != h by {
                assert(nn[l] == names[before_removal(l, k)]);
            }
        } else if t == k {
            if nk == -1 {
                assert forall|l: int| 0 <= l < nn.len() implies bucket(#[trigger] nn[l]) != h by {
                    assert(nn[l] == names[before_removal(l, k)]);
                }
            } else {
                assert(nn[nk - 1] == names[nk as int]);
                assert forall|l: int| 0 <= l < nk - 1 implies bucket(#[trigger] nn[l]) != h by {
                    assert(nn[l] == names[before_removal(l, k)]);
                }
            }
        } else if t > k {
            assert(nn[t - 1] == names[t]);
            assert forall|l: int| 0 <= l < t - 1 implies bucket(#[trigger] nn[l]) != h by {
                assert(nn[l] == names[before_removal(l, k)]);
            }
        } else {
            assert(nn[t] == names[t]);
            assert forall|l: int| 0 <= l < t implies bucket(#[trigger] nn[l]) != h by {
                assert(nn[l] == names[before_removal(l, k)]);
            }
        }
    }
    assert forall|i: int, j: int| 0 <= i < j < nn.len() implies nn[i] != nn[j] by {
        assert(nn[i] == names[before_removal(i, k)]);
        assert(nn[j] == names[before_removal(j, k)]);
    }
}

/// After field `k` is cut out of the blob and the index, the message is
/// still well formed and holds the other fields in order.
#[verifier::rlimit(100)]
proof fn lemma_remove_field_wf(before: Message, after: Message, k: int, relinked: Seq<FieldHeader>)
    requires
        before.wf(),
        0 <= k < before.fields@.len(),
        after.data@ == before.data@.subrange(0, before.fields@[k].offset as int) + before.data@.subrange(
            field_end(before.fields@[k]),
            before.data@.len() as int,
        ),
        relinked.len() == before.fields@.len(),
        forall|j: int|
            0 <= j < relinked.len() ==> #[trigger] relinked[j] == (FieldHeader {
                next_field: relink(before.fields@[j].next_field, k, before.fields@[k].next_field),
                ..shifted(before.fields@[j], field_end(before.fields@[k]), -field_size(before.fields@[k]))
            }),
        after.fields@ == relinked.remove(k),
        after.header.hash_table@.len() == before.header.hash_table@.len(),
        forall|h: int|
            0 <= h < before.header.hash_table@.len() ==> #[trigger] after.header.hash_table@[h] == relink(
                before.header.hash_table@[h],
                k,
                before.fields@[k].next_field,
            ),
        after.header.hash_table_size == before.header.hash_table_size,
        after.header.field_count == before.header.field_count - 1,
        after.header.data_size == before.header.data_size - field_size(before.fields@[k]),
    ensures
        after.wf(),
        after@ == before@.remove(k),
{
    lemma_remove_content(before, after, k, relinked);
    lemma_wf_index(&before);
    lemma_wf_layout(&before);
    assert(after.fields@.len() == before.fields@.len() - 1);
    assert(field_size(before.fields@[k]) <= before.data@.len()) by {
        assert(field_end(before.fields@[k]) <= before.data@.len());
    }
    // index
    lemma_remove_index(before, after, k);
    lemma_wf_intro(&after);
}

/// The hash index left after field `k` is removed is exact.
#[verifier::rlimit(100)]
proof fn lemma_remove_index(before: Message, after: Message, k: int)
    requires
        index_ok(before.names(), before.nexts(), before.header.hash_table@),
        0 <= k < before.fields@.len(),
        before@.len() == before.fields@.len(),
        after@ == before@.remove(k),
        after.fields@.len() == before.fields@.len() - 1,
        forall|i: int|
            0 <= i < after.fields@.len() ==> (#[trigger] after.fields@[i]).next_field == relink(
                before.fields@[before_removal(i, k)].next_field,
                k,
                before.fields@[k].next_field,
            ),
        after.header.hash_table@.len() == before.header.hash_table@.len(),
        forall|h: int|
            0 <= h < before.header.hash_table@.len() ==> #[trigger] after.header.hash_table@[h] == relink(
                before.header.hash_table@[h],
                k,
                before.fields@[k].next_field,
            ),
    ensures
        index_ok(after.names(), after.nexts(), after.header.hash_table@),
{
    assert(after.names() =~= before.names().remove(k));
    assert forall|i: int| 0 <= i < after.fields@.len() implies #[trigger] after.nexts()[i] == relink(
        before.nexts()[before_removal(i, k)],
        k,
        before.nexts()[k],
    ) by {}
    lemma_index_remove(
        before.names(),
        before.nexts(),
        before.header.hash_table@,
        k,
        after.nexts(),
        after.header.hash_table@,
    );
}

/// The regions left after field `k` is removed are laid out and filled as
/// before, without field `k`.
#[verifier::rlimit(100)]
proof fn lemma_remove_content(before: Message, after: Message, k: int, relinked: Seq<FieldHeader>)
    requires
        before.wf(),
        0 <= k < before.fields@.len(),
        after.data@ == before.data@.subrange(0, before.fields@[k].offset as int) + before.data@.subrange(
            field_end(before.fields@[k]),
            before.data@.len() as int,
        ),
        relinked.len() == before.fields@.len(),
        forall|j: int|
            0 <= j < relinked.len() ==> #[trigger] relinked[j] == (FieldHeader {
                next_field: relink(before.fields@[j].next_field, k, before.fields@[k].next_field),
                ..shifted(before.fields@[j], field_end(before.fields@[k]), -field_size(before.fields@[k]))
            }),
        after.fields@ == relinked.remove(k),
    ensures
        layout_ok(after.fields@, after.data@.len() as int),
        forall|i: int|
            0 <= i < after.fields@.len() ==> region_ok(
                #[trigger] after.fields@[i],
                region(after.fields@[i], after.data@),
            ),
        after@ == before@.remove(k),
        forall|i: int|
            0 <= i < after.fields@.len() ==> (#[trigger] after.fields@[i]).next_field == relink(
                before.fields@[before_removal(i, k)].next_field,
                k,
                before.fields@[k].next_field,
            ),
{
    lemma_wf_layout(&before);
    lemma_wf_regions(&before);
    let of = before.fields@;
    let od = before.data@;
    let nfs = after.fields@;
    let nd = after.data@;
    assert forall|i: int| 0 <= i < of.len() implies (#[trigger] of[i]).name_length >= 2 by {
        assert(region_ok(of[i], region(of[i], od)));
    }
    lemma_relinked_fields(of, od.len() as int, k, relinked, nfs);
    lemma_remove_layout(of, od, k, nfs, nd);
    assert forall|i: int| 0 <= i < nfs.len() implies region_ok(#[trigger] nfs[i], region(nfs[i], nd)) by {
        lemma_same_region_view(nfs[i], of[before_removal(i, k)], region(nfs[i], nd));
    }
    assert(after@ =~= before@.remove(k)) by {
        assert forall|i: int| 0 <= i < nfs.len() implies after@[i] == before@.remove(k)[i] by {
            lemma_same_region_view(nfs[i], of[before_removal(i, k)], region(nfs[i], nd));
        }
    }
}

/// The headers left after field `k` is removed, described entry by entry.
#[verifier::rlimit(100)]
proof fn lemma_relinked_fields(of: Seq<FieldHeader>, len: int, k: int, relinked: Seq<FieldHeader>, nfs: Seq<FieldHeader>)
    requires
        layout_ok(of, len),
        0 <= k < of.len(),
        forall|i: int| 0 <= i < of.len() ==> (#[trigger] of[i]).name_length >= 2,
        relinked.len() == of.len(),
        forall|j: int|
            0 <= j < relinked.len() ==> #[trigger] relinked[j] == (FieldHeader {
                next_field: relink(of[j].next_field, k, of[k].next_field),
                ..shifted(of[j], field_end(of[k]), -field_size(of[k]))
            }),
        nfs == relinked.remove(k),
    ensures
        nfs.len() == of.len() - 1,
        forall|i: int|
            0 <= i < nfs.len() ==> {
                let j = before_removal(i, k);
                &&& same_content(#[trigger] nfs[i], of[j])
                &&& nfs[i].offset == of[j].offset - (if j > k {
                    field_size(of[k])
                } else {
                    0
                })
                &&& nfs[i].next_field == relink(of[j].next_field, k, of[k].next_field)
            },
{
    lemma_layout_order(of, len);
    assert forall|i: int| 0 <= i < nfs.len() implies {
        let j = before_removal(i, k);
        &&& same_content(#[trigger] nfs[i], of[j])
        &&& nfs[i].offset == of[j].offset - (if j > k {
            field_size(of[k])
        } else {
            0
        })
        &&& nfs[i].next_field == relink(of[j].next_field, k, of[k].next_field)
    } by {
        let j = before_removal(i, k);
        assert(nfs[i] == relinked[j]);
        if j < k {
            assert(field_end(of[j]) <= of[k].offset);
        } else {
            assert(field_end(of[k]) <= of[j].offset);
        }
    }
}

/// What is left after field `k` is removed.
pub open spec fn removal_ok(of: Seq<FieldHeader>, od: Seq<u8>, k: int, nfs: Seq<FieldHeader>, nd: Seq<u8>) -> bool {
    &&& layout_ok(of, od.len() as int)
    &&& 0 <= k < of.len()
    &&& forall|i: int| 0 <= i < of.len() ==> (#[trigger] of[i]).name_length >= 2
    &&& nd == od.subrange(0, of[k].offset as int) + od.subrange(field_end(of[k]), od.len() as int)
    &&& nfs.len() == of.len() - 1
    &&& forall|i: int|
        0 <= i < nfs.len() ==> {
            let j = before_removal(i, k);
            &&& same_content(#[trigger] nfs[i], of[j])
            &&& nfs[i].offset == of[j].offset - (if j > k {
                field_size(of[k])
            } else {
                0
            })
        }
}

/// Cutting region `k` out of the blob keeps the layout of the other
/// regions and their bytes.
proof fn lemma_remove_layout(of: Seq<FieldHeader>, od: Seq<u8>, k: int, nfs: Seq<FieldHeader>, nd: Seq<u8>)
    requires
        removal_ok(of, od, k, nfs, nd),
    ensures
        layout_ok(nfs, nd.len() as int),
        forall|i: int|
            0 <= i < nfs.len() ==> region(#[trigger] nfs[i], nd) == region(of[before_removal(i, k)], od),
{
    lemma_remove_chain(of, od, k, nfs, nd);
    lemma_remove_regions(of, od, k, nfs, nd);
}

#[verifier::rlimit(100)]
proof fn lemma_remove_chain(of: Seq<FieldHeader>, od: Seq<u8>, k: int, nfs: Seq<FieldHeader>, nd: Seq<u8>)
    requires
        removal_ok(of, od, k, nfs, nd),
    ensures
        layout_ok(nfs, nd.len() as int),
{
    lemma_layout_order(of, od.len() as int);
    let n = of.len() as int;
    assert forall|i: int| #![trigger nfs[i]] 0 < i < nfs.len() implies nfs[i].offset == field_end(nfs[i - 1]) by {
        if i < k {
            assert(of[i].offset == field_end(of[i - 1]));
        } else if i == k {
            assert(of[k + 1].offset == field_end(of[k]));
            assert(of[k].offset == field_end(of[k - 1]));
        } else {
            assert(of[i + 1].offset == field_end(of[i]));
        }
    }
    if nfs.len() > 0 {
        assert(nfs.last() == nfs[nfs.len() - 1]);
        assert(of.last() == of[n - 1]);
        if k == 0 {
            assert(of[1].offset == field_end(of[0]));
        }
        if k == n - 1 {
            assert(of[k].offset == field_end(of[k - 1]));
        }
    } else {
        assert(of.last() == of[0]);
    }
}

#[verifier::rlimit(100)]
proof fn lemma_remove_regions(of: Seq<FieldHeader>, od: Seq<u8>, k: int, nfs: Seq<FieldHeader>, nd: Seq<u8>)
    requires
        removal_ok(of, od, k, nfs, nd),
    ensures
        forall|i: int|
            0 <= i < nfs.len() ==> region(#[trigger] nfs[i], nd) == region(of[before_removal(i, k)], od),
{
    lemma_layout_order(of, od.len() as int);
    assert forall|i: int| 0 <= i < nfs.len() implies region(#[trigger] nfs[i], nd) == region(
        of[before_removal(i, k)],
        od,
    ) by {
        let j = before_removal(i, k);
        if j < k {
            assert(field_end(of[j]) <= of[k].offset);
        } else {
            assert(field_end(of[k]) <= of[j].offset);
        }
        assert(field_end(of[j]) <= od.len());
        lemma_region_after_cut(of[j], nfs[i], of[k], od, nd, j > k);
    }
}

/// One region after the region `cut` is cut out of the blob.
proof fn lemma_region_after_cut(f: FieldHeader, nf: FieldHeader, cut: FieldHeader, od: Seq<u8>, nd: Seq<u8>, after_cut: bool)
    requires
        same_content(nf, f),
        nd == od.subrange(0, cut.offset as int) + od.subrange(field_end(cut), od.len() as int),
        cut.offset <= field_end(cut) <= od.len(),
        field_end(f) <= od.len(),
        after_cut ==> field_end(cut) <= f.offset && nf.offset == f.offset - field_size(cut),
        !after_cut ==> field_end(f) <= cut.offset && nf.offset == f.offset,
    ensures
        region(nf, nd) == region(f, od),
{
    assert(region(nf, nd) =~= region(f, od));
}

impl Message {
    /// Remove the field `name` with all its values.
    ///
    /// Fails with `NotFound`, and leaves the message as it was, when there
    /// is no such field.
    pub fn remove_field(&mut self, name: &str) -> (r: Result<(), HaikuError>)
        requires
            old(self).wf(),
        ensures
            final(self).wf(),
            match lookup(old(self)@, encode_utf8(name@)) {
                Some(k) => (r is Ok) && final(self)@ == old(self)@.remove(k),
                None => (r matches Err(e) && e.spec_kind() == ErrorKind::NotFound) && *final(self) == *old(self),
            },
            same_stamp(final(self).header, old(self).header),
    {
        let name_bytes = name.as_bytes();
        let k = match self.find_field(name_bytes, B_ANY_TYPE) {
            Some(k) => k,
            None => return Err(HaikuError::new(ErrorKind::NotFound, "no field with this name")),
        };
        let n = self.fields.len();
        proof {
            crate::message::lemma_lookup_some(self@, encode_utf8(name@));
            assert(name_bytes@ == encode_utf8(name@));
            assert(lookup(self@, encode_utf8(name@)) == Some(k as int));
        }
        self.remove_field_at(k);
        Ok(())
    }

    /// Remove field `k`: cut its region out of the blob, move the fields
    /// behind it, and renumber the bucket links.
    fn remove_field_at(&mut self, k: usize)
        requires
            old(self).wf(),
            k < old(self).fields@.len(),
        ensures
            final(self).wf(),
            final(self)@ == old(self)@.remove(k as int),
            same_stamp(final(self).header, old(self).header),
    {
        proof {
            lemma_wf_layout(self);
            lemma_wf_regions(self);
            lemma_wf_index(self);
        }
        let ghost before = *self;
        let f = self.fields[k];
        let start = f.offset as usize;
        let end = start + (f.name_length as usize) + (f.data_size as usize);
        let size = end - start;
        proof {
            assert forall|i: int|
                0 <= i < before.fields@.len() && (#[trigger] before.fields@[i]).offset >= end implies 0
                    <= before.fields@[i].offset - size <= u32::MAX by {
                if i < k {
                    assert(field_end(before.fields@[i]) <= before.fields@[k as int].offset);
                    assert(region_ok(before.fields@[i], region(before.fields@[i], before.data@)));
                } else if i > k {
                    assert(field_end(before.fields@[k as int]) <= before.fields@[i].offset);
                }
            }
            assert(FIELD_HEADER_SIZE * before.fields@.len() <= u32::MAX);
        }
        self.update_offsets(end, -(size as i64));
        // the link that replaces links to field k
        let nk = f.next_field;
        let n = self.fields.len();
        let mut i: usize = 0;
        while i < n
            invariant
                n == self.fields@.len() == before.fields@.len(),
                k < n,
                i <= n,
                k < i32::MAX,
                self.header == before.header,
                self.data == before.data,
                nk == before.fields@[k as int].next_field,
                forall|j: int|
                    0 <= j < i ==> #[trigger] self.fields@[j] == (FieldHeader {
                        next_field: relink(before.fields@[j].next_field, k as int, nk),
                        ..shifted(before.fields@[j], end as int, -(size as int))
                    }),
                forall|j: int|
                    i <= j < n ==> #[trigger] self.fields@[j] == shifted(
                        before.fields@[j],
                        end as int,
                        -(size as int),
                    ),
            decreases n - i,
        {
            let g = self.fields[i];
            let nx = relink_exec(g.next_field, k, nk);
            self.fields.set(i, FieldHeader { next_field: nx, ..g });
            i = i + 1;
        }
        let ghost relinked = self.fields@;
        let mut h: usize = 0;
        while h < self.header.hash_table.len()
            invariant
                k < i32::MAX,
                self.fields@ == relinked,
                self.data == before.data,
                self.header.hash_table_size == before.header.hash_table_size,
                self.header.field_count == before.header.field_count,
                self.header.data_size == before.header.data_size,
                self.header.what == before.header.what,
                self.header.flags == before.header.flags,
                self.header.target == before.header.target,
                self.header.message_area == before.header.message_area,
                self.header.message_format == before.header.message_format,
                same_stamp(self.header, before.header),
                self.header.hash_table@.len() == before.header.hash_table@.len(),
                h <= self.header.hash_table@.len(),
                nk == before.fields@[k as int].next_field,
                k < before.fields@.len(),
                forall|j: int|
                    0 <= j < h ==> #[trigger] self.header.hash_table@[j] == relink(
                        before.header.hash_table@[j],
                        k as int,
                        nk,
                    ),
                forall|j: int|
                    h <= j < self.header.hash_table@.len() ==> #[trigger] self.header.hash_table@[j]
                        == before.header.hash_table@[j],
            decreases self.header.hash_table@.len() - h,
        {
            let t = self.header.hash_table[h];
            let nt = relink_exec(t, k, nk);
            self.header.hash_table.set(h, nt);
            h = h + 1;
        }
        self.fields.remove(k);
        let empty: Vec<u8> = Vec::new();
        let new_data = splice_bytes(&self.data, start, end, empty.as_slice());
        self.data = new_data;
        self.header.field_count = self.header.field_count - 1;
        self.header.data_size = self.header.data_size - size as u32;
        proof {
            assert(self.data@ =~= before.data@.subrange(0, start as int) + before.data@.subrange(
                end as int,
                before.data@.len() as int,
            ));
            lemma_remove_field_wf(before, *self, k as int, relinked);
        }
    }
}

/// The link `x` after field `k`, whose own link is `nk`, is removed.
fn relink_exec(x: i32, k: usize, nk: i32) -> (r: i32)
    requires
        k < i32::MAX,
    ensures
        r == relink(x, k as int, nk),
{
    let k = k as i32;
    if x > k {
        x - 1
    } else if x == k {
        if nk > k {
            nk - 1
        } else {
            nk
        }
    } else {
        x
    }
}


/// The fields after removing value `index` of field `k`; a field left
/// without values is removed.
pub open spec fn without_value(fields: Seq<FieldView>, k: int, index: int) -> Seq<FieldView> {
    if fields[k].values.len() == 1 {
        fields.remove(k)
    } else {
        fields.update(k, FieldView { values: fields[k].values.remove(index), ..fields[k] })
    }
}

/// The fields after replacing value `index` of field `k` by `v`.
pub open spec fn with_replaced(fields: Seq<FieldView>, k: int, index: int, v: Seq<u8>) -> Seq<FieldView> {
    fields.update(k, FieldView { values: fields[k].values.update(index, v), ..fields[k] })
}

/// Length-prefixed values around a replaced or removed one.
proof fn lemma_var_middle(pre: Seq<u8>, mid: Seq<u8>, post: Seq<u8>, vs: Seq<Seq<u8>>, i: int, mv: Seq<Seq<u8>>)
    requires
        0 <= i < vs.len(),
        parse_var(pre, i as nat) == Some(vs.subrange(0, i)),
        parse_var(post, (vs.len() - i - 1) as nat) == Some(vs.subrange(i + 1, vs.len() as int)),
        parse_var(mid, mv.len()) == Some(mv),
    ensures
        parse_var(pre + mid + post, (i + mv.len() + vs.len() - i - 1) as nat) == Some(
            vs.subrange(0, i) + mv + vs.subrange(i + 1, vs.len() as int),
        ),
{
    lemma_parse_var_concat(pre, mid, i as nat, mv.len());
    lemma_parse_var_concat(pre + mid, post, (i + mv.len()) as nat, (vs.len() - i - 1) as nat);
}

/// Chunks of equal size around a replaced or removed one.
proof fn lemma_chunks_middle(vb: Seq<u8>, size: int, c: int, i: int, mid: Seq<u8>, m: int)
    requires
        0 <= i < c,
        size >= 0,
        vb.len() == c * size,
        m == 0 || m == 1,
        mid.len() == m * size,
    ensures
        ({
            let nvb = vb.subrange(0, i * size) + mid + vb.subrange(i * size + size, vb.len() as int);
            &&& nvb.len() == (c - 1 + m) * size
            &&& chunks(nvb, size, (c - 1 + m) as nat) == if m == 1 {
                chunks(vb, size, c as nat).update(i, mid)
            } else {
                chunks(vb, size, c as nat).remove(i)
            }
        }),
{
    let nvb = vb.subrange(0, i * size) + mid + vb.subrange(i * size + size, vb.len() as int);
    assert(i * size + size <= c * size) by (nonlinear_arith)
        requires
            0 <= i < c,
            size >= 0,
    {
        assert((i + 1) * size <= c * size);
    }
    assert(0 <= i * size) by (nonlinear_arith)
        requires
            0 <= i,
            size >= 0,
    ;
    assert(nvb.len() == (c - 1 + m) * size) by (nonlinear_arith)
        requires
            nvb.len() == i * size + m * size + (c * size - (i * size + size)),
    ;
    let old_c = chunks(vb, size, c as nat);
    let new_c = chunks(nvb, size, (c - 1 + m) as nat);
    let want = if m == 1 {
        old_c.update(i, mid)
    } else {
        old_c.remove(i)
    };
    assert forall|j: int| 0 <= j < c - 1 + m implies #[trigger] new_c[j] == want[j] by {
        if j < i {
            assert(j * size + size <= i * size) by (nonlinear_arith)
                requires
                    0 <= j < i,
                    size >= 0,
            {
                assert((j + 1) * size <= i * size);
            }
            assert(0 <= j * size) by (nonlinear_arith)
                requires
                    0 <= j,
                    size >= 0,
            ;
            assert(nvb.subrange(j * size, j * size + size) =~= vb.subrange(j * size, j * size + size));
        } else if j == i && m == 1 {
            assert(nvb.subrange(j * size, j * size + size) =~= mid);
        } else {
            let oj = j + 1 - m;
            assert(oj * size == j * size + size - m * size) by (nonlinear_arith)
                requires
                    oj == j + 1 - m,
            ;
            assert(j * size >= i * size + m * size) by (nonlinear_arith)
                requires
                    j >= i + m,
                    size >= 0,
            {
                assert((j - i - m) * size >= 0);
            }
            assert(oj * size + size <= c * size) by (nonlinear_arith)
                requires
                    oj < c,
                    size >= 0,
            {
                assert((oj + 1) * size <= c * size);
            }
            assert(nvb.subrange(j * size, j * size + size) =~= vb.subrange(oj * size, oj * size + size));
        }
    }
    assert(new_c.len() == want.len());
    assert(new_c =~= want);
}


/// A field region whose name part is kept and whose values are replaced
/// by `vb`, holding `values`.
proof fn lemma_field_values(f: FieldHeader, nf: FieldHeader, r: Seq<u8>, vb: Seq<u8>, values: Seq<Seq<u8>>)
    requires
        region_ok(f, r),
        same_but_counts(f, nf),
        nf.count >= 1,
        vb.len() == nf.data_size,
        fixed_flag(f.flags) ==> nf.data_size % nf.count == 0 && chunks(
            vb,
            (nf.data_size / nf.count) as int,
            nf.count as nat,
        ) == values,
        !fixed_flag(f.flags) ==> parse_var(vb, nf.count as nat) == Some(values),
    ensures
        region_ok(nf, r.subrange(0, f.name_length as int) + vb),
        region_view(nf, r.subrange(0, f.name_length as int) + vb) == (FieldView {
            values: values,
            ..region_view(f, r)
        }),
{
    reveal(region_values);
    let nr = r.subrange(0, f.name_length as int) + vb;
    assert(nr.subrange(0, f.name_length - 1) =~= r.subrange(0, f.name_length - 1));
    assert(nr[f.name_length - 1] == r[f.name_length - 1]);
    assert(value_bytes(nf, nr) =~= vb);
}

/// Two field headers that differ at most in their offsets, counts and
/// value sizes.
pub open spec fn same_but_counts(a: FieldHeader, b: FieldHeader) -> bool {
    &&& a.flags == b.flags
    &&& a.name_length == b.name_length
    &&& a.field_type == b.field_type
    &&& a.next_field == b.next_field
    &&& a.offset == b.offset
}

/// After the bytes `p..q` within the values of field `k` are replaced by
/// `bytes`, leaving field `k` with the header `nf` and the content `fv`, the
/// message is still well formed and only field `k` changed.
#[verifier::rlimit(100)]
proof fn lemma_value_splice_wf(
    before: Message,
    after: Message,
    k: int,
    p: int,
    q: int,
    bytes: Seq<u8>,
    fv: FieldView,
)
    requires
        before.wf(),
        0 <= k < before.fields@.len(),
        before.fields@[k].offset + before.fields@[k].name_length <= p <= q <= field_end(
            before.fields@[k],
        ),
        before.spec_flattened_size() + bytes.len() - (q - p) <= u32::MAX,
        after.data@ == before.data@.subrange(0, p) + bytes + before.data@.subrange(
            q,
            before.data@.len() as int,
        ),
        after.fields@.len() == before.fields@.len(),
        forall|i: int|
            0 <= i < before.fields@.len() && i != k ==> #[trigger] after.fields@[i] == shifted(
                before.fields@[i],
                field_end(before.fields@[k]),
                bytes.len() - (q - p),
            ),
        same_but_counts(before.fields@[k], after.fields@[k]),
        after.fields@[k].data_size == before.fields@[k].data_size + bytes.len() - (q - p),
        region_ok(after.fields@[k], region(after.fields@[k], after.data@)),
        region_view(after.fields@[k], region(after.fields@[k], after.data@)) == fv,
        fv.name == before@[k].name,
        after.header.hash_table == before.header.hash_table,
        after.header.hash_table_size == before.header.hash_table_size,
        after.header.field_count == before.header.field_count,
        after.header.data_size == before.header.data_size + bytes.len() - (q - p),
    ensures
        after.wf(),
        after@ == before@.update(k, fv),
{
    lemma_wf_layout(&before);
    lemma_wf_regions(&before);
    lemma_wf_index(&before);
    let of = before.fields@;
    let od = before.data@;
    let nfs = after.fields@;
    let nd = after.data@;
    let delta = bytes.len() - (q - p);
    assert forall|i: int| 0 <= i < of.len() && i != k implies same_but_offset(#[trigger] nfs[i], of[i]) by {}
    assert forall|i: int| 0 <= i < of.len() implies (#[trigger] nfs[i]).offset == of[i].offset + (if i > k {
        delta
    } else {
        0
    }) by {
        if i > k {
            assert(field_end(of[k]) <= of[i].offset);
        } else if i < k {
            assert(field_end(of[i]) <= of[k].offset);
        }
    }
    lemma_splice(of, od, k, p, q, bytes, nfs, nd);
    assert forall|i: int| 0 <= i < nfs.len() implies region_ok(#[trigger] nfs[i], region(nfs[i], nd)) by {
        if i != k {
            lemma_same_region_view(nfs[i], of[i], region(nfs[i], nd));
        }
    }
    assert(after@ =~= before@.update(k, fv)) by {
        assert forall|i: int| 0 <= i < nfs.len() && i != k implies after@[i] == before@[i] by {
            lemma_same_region_view(nfs[i], of[i], region(nfs[i], nd));
        }
    }
    assert(after.names() =~= before.names());
    assert(after.nexts() =~= before.nexts());
    lemma_wf_intro(&after);
}

impl Message {
    /// Replace the bytes `p..q`, which lie within the values of field `k`,
    /// by `bytes`, move the fields behind it, and give field `k` `count`
    /// values.
    fn splice_value(&mut self, k: usize, p: usize, q: usize, bytes: &[u8], count: u32)
        requires
            old(self).wf(),
            k < old(self).fields@.len(),
            old(self).fields@[k as int].offset + old(self).fields@[k as int].name_length <= p <= q
                <= field_end(old(self).fields@[k as int]),
            old(self).spec_flattened_size() + bytes@.len() - (q - p) <= u32::MAX,
        ensures
            final(self).data@ == old(self).data@.subrange(0, p as int) + bytes@ + old(self).data@.subrange(
                q as int,
                old(self).data@.len() as int,
            ),
            final(self).fields@.len() == old(self).fields@.len(),
            forall|i: int|
                0 <= i < old(self).fields@.len() && i != k ==> #[trigger] final(self).fields@[i]
                    == shifted(
                    old(self).fields@[i],
                    field_end(old(self).fields@[k as int]),
                    bytes@.len() - (q - p),
                ),
            final(self).fields@[k as int] == (FieldHeader {
                count: count,
                data_size: (old(self).fields@[k as int].data_size + bytes@.len() - (q - p)) as u32,
                ..old(self).fields@[k as int]
            }),
            final(self).header.hash_table == old(self).header.hash_table,
            final(self).header.hash_table_size == old(self).header.hash_table_size,
            final(self).header.field_count == old(self).header.field_count,
            final(self).header.data_size == old(self).header.data_size + bytes@.len() - (q - p),
            same_stamp(final(self).header, old(self).header),
    {
        proof {
            lemma_wf_layout(self);
            lemma_wf_regions(self);
        }
        let ghost before = *self;
        let f = self.fields[k];
        let end = (f.offset as usize) + (f.name_length as usize) + (f.data_size as usize);
        let grow = bytes.len();
        let shrink = q - p;
        let delta: i64 = (grow as i64) - (shrink as i64);
        proof {
            assert forall|i: int|
                0 <= i < before.fields@.len() && (#[trigger] before.fields@[i]).offset >= end implies 0
                    <= before.fields@[i].offset + delta <= u32::MAX by {
                assert(field_end(before.fields@[i]) <= before.data@.len());
                if i < k {
                    assert(field_end(before.fields@[i]) <= before.fields@[k as int].offset);
                    assert(region_ok(before.fields@[i], region(before.fields@[i], before.data@)));
                } else if i > k {
                    assert(field_end(before.fields@[k as int]) <= before.fields@[i].offset);
                }
            }
        }
        self.update_offsets(end, delta);
        let new_data = splice_bytes(&self.data, p, q, bytes);
        self.data = new_data;
        let nf = FieldHeader {
            count: count,
            data_size: ((f.data_size as i64) + delta) as u32,
            ..f
        };
        self.fields.set(k, nf);
        self.header.data_size = ((self.header.data_size as i64) + delta) as u32;
        proof {
            assert(f.offset < end) by {
                assert(region_ok(f, region(f, before.data@)));
            }
        }
    }

    /// Remove the value at `index` of the field `name`; removing the last
    /// value of a field removes the field.
    ///
    /// Fails with `NotFound` when there is no such field and with
    /// `InvalidInput` when `index` is past its last value, leaving the
    /// message as it was.
    pub fn remove_data(&mut self, name: &str, index: usize) -> (r: Result<(), HaikuError>)
        requires
            old(self).wf(),
        ensures
            final(self).wf(),
            match lookup(old(self)@, encode_utf8(name@)) {
                None => (r matches Err(e) && e.spec_kind() == ErrorKind::NotFound) && *final(self) == *old(self),
                Some(k) => if index >= old(self)@[k].values.len() {
                    (r matches Err(e) && e.spec_kind() == ErrorKind::InvalidInput) && *final(self) == *old(self)
                } else {
                    (r is Ok) && final(self)@ == without_value(old(self)@, k, index as int)
                },
            },
            same_stamp(final(self).header, old(self).header),
    {
        let name_bytes = name.as_bytes();
        let k = match self.find_field(name_bytes, B_ANY_TYPE) {
            Some(k) => k,
            None => return Err(HaikuError::new(ErrorKind::NotFound, "no field with this name")),
        };
        let n = self.fields.len();
        proof {
            crate::message::lemma_lookup_some(self@, encode_utf8(name@));
            assert(lookup(self@, encode_utf8(name@)) == Some(k as int));
            lemma_wf_field(self, k as int);
            lemma_values_len(self, k as int);
            lemma_wf_layout(self);
            lemma_field_flags();
        }
        let f = self.fields[k];
        if index == 0 && f.count == 1 {
            self.remove_field_at(k);
            return Ok(());
        }
        if index >= f.count as usize {
            return Err(HaikuError::new(ErrorKind::InvalidInput, "index is out of range"));
        }
        let (a, b) = match self.value_range(k, index) {
            Some(range) => range,
            None => return Err(HaikuError::new(ErrorKind::InvalidData, "value lies outside the data")),
        };
        let fixed = (f.flags & FIELD_FLAG_FIXED_SIZE) != 0;
        let p = if fixed {
            a
        } else {
            a - 4
        };
        proof {
            lemma_place_bounds(f, self.data@, a as int, b as int, self@[k as int].values, index as int);
        }
        let ghost before = *self;
        let empty: Vec<u8> = Vec::new();
        self.splice_value(k, p, b, empty.as_slice(), f.count - 1);
        proof {
            lemma_remove_value(before, *self, k as int, index as int, a as int, p as int, b as int);
        }
        Ok(())
    }
}


/// The start of a value's stored bytes: the value itself for fixed-size
/// values, its length prefix for variable-size ones.
pub open spec fn stored_start(f: FieldHeader, a: int) -> int {
    if fixed_flag(f.flags) {
        a
    } else {
        a - 4
    }
}

/// A placed value lies within the values of its field.
proof fn lemma_place_bounds(f: FieldHeader, data: Seq<u8>, a: int, b: int, vs: Seq<Seq<u8>>, i: int)
    requires
        value_place(f, data, a, b, vs, i),
        region_ok(f, region(f, data)),
        0 <= i < f.count,
    ensures
        f.offset + f.name_length <= stored_start(f, a) <= b <= field_end(f),
{
    if fixed_flag(f.flags) {
        let size = (f.data_size / f.count) as int;
        assert(i * size + size <= f.data_size) by (nonlinear_arith)
            requires
                0 <= i < f.count,
                size == f.data_size / f.count,
                f.count > 0,
        {
            assert((i + 1) * size <= f.count * size);
            assert(f.count * size <= f.data_size);
        }
        assert(0 <= i * size) by (nonlinear_arith)
            requires
                0 <= i,
                size >= 0,
        ;
    }
}

/// Removing a value that is not the field's last one.
#[verifier::rlimit(100)]
proof fn lemma_remove_value(before: Message, after: Message, k: int, i: int, a: int, p: int, b: int)
    requires
        before.wf(),
        0 <= k < before.fields@.len(),
        0 <= i < before.fields@[k].count,
        before.fields@[k].count >= 2,
        value_place(before.fields@[k], before.data@, a, b, before@[k].values, i),
        p == stored_start(before.fields@[k], a),
        before.fields@[k].offset + before.fields@[k].name_length <= p <= b <= field_end(before.fields@[k]),
        after.data@ == before.data@.subrange(0, p) + before.data@.subrange(b, before.data@.len() as int),
        after.fields@.len() == before.fields@.len(),
        forall|j: int|
            0 <= j < before.fields@.len() && j != k ==> #[trigger] after.fields@[j] == shifted(
                before.fields@[j],
                field_end(before.fields@[k]),
                0 - (b - p),
            ),
        after.fields@[k] == (FieldHeader {
            count: (before.fields@[k].count - 1) as u32,
            data_size: (before.fields@[k].data_size - (b - p)) as u32,
            ..before.fields@[k]
        }),
        after.header.hash_table == before.header.hash_table,
        after.header.hash_table_size == before.header.hash_table_size,
        after.header.field_count == before.header.field_count,
        after.header.data_size == before.header.data_size - (b - p),
    ensures
        after.wf(),
        after@ == before@.update(k, FieldView { values: before@[k].values.remove(i), ..before@[k] }),
{
    lemma_remove_value_field(before, after, k, i, a, p, b);
    lemma_wf_field(&before, k);
    lemma_wf_layout(&before);
    lemma_value_splice_wf(
        before,
        after,
        k,
        p,
        b,
        Seq::<u8>::empty(),
        FieldView { values: before@[k].values.remove(i), ..before@[k] },
    );
}

/// Field `k` after the change, region and content.
#[verifier::rlimit(100)]
proof fn lemma_remove_value_field(before: Message, after: Message, k: int, i: int, a: int, p: int, b: int)
    requires
        before.wf(),
        0 <= k < before.fields@.len(),
        0 <= i < before.fields@[k].count,
        before.fields@[k].count >= 2,
        value_place(before.fields@[k], before.data@, a, b, before@[k].values, i),
        p == stored_start(before.fields@[k], a),
        before.fields@[k].offset + before.fields@[k].name_length <= p <= b <= field_end(before.fields@[k]),
        after.data@ == before.data@.subrange(0, p) + before.data@.subrange(b, before.data@.len() as int),
        after.fields@.len() == before.fields@.len(),
        forall|j: int|
            0 <= j < before.fields@.len() && j != k ==> #[trigger] after.fields@[j] == shifted(
                before.fields@[j],
                field_end(before.fields@[k]),
                0 - (b - p),
            ),
        after.fields@[k] == (FieldHeader {
            count: (before.fields@[k].count - 1) as u32,
            data_size: (before.fields@[k].data_size - (b - p)) as u32,
            ..before.fields@[k]
        }),
        after.header.hash_table == before.header.hash_table,
        after.header.hash_table_size == before.header.hash_table_size,
        after.header.field_count == before.header.field_count,
        after.header.data_size == before.header.data_size - (b - p),
    ensures
        region_ok(after.fields@[k], region(after.fields@[k], after.data@)),
        region_view(after.fields@[k], region(after.fields@[k], after.data@)) == (FieldView {
            values: before@[k].values.remove(i),
            ..before@[k]
        }),
        same_but_counts(before.fields@[k], after.fields@[k]),
{
    lemma_wf_field(&before, k);
    lemma_wf_layout(&before);
    lemma_values_len(&before, k);
    lemma_field_flags();
    reveal(region_values);
    let f = before.fields@[k];
    let r = region(f, before.data@);
    let st = f.offset + f.name_length;
    let vb = value_bytes(f, r);
    let vs = before@[k].values;
    let nf = after.fields@[k];
    let nvb = vb.subrange(0, p - st) + vb.subrange(b - st, vb.len() as int);
    lemma_layout_order(before.fields@, before.data@.len() as int);
    assert(vb =~= before.data@.subrange(st as int, field_end(f)));
    assert(after.data@ =~= before.data@.subrange(0, p) + Seq::<u8>::empty() + before.data@.subrange(b, before.data@.len() as int));
    assert forall|j: int| 0 <= j < before.fields@.len() && j != k implies same_but_offset(#[trigger] after.fields@[j], before.fields@[j]) by {}
    assert forall|j: int| 0 <= j < before.fields@.len() implies (#[trigger] after.fields@[j]).offset == before.fields@[j].offset + (if j > k {
        0 - (b - p)
    } else {
        0
    }) by {
        if j > k {
            assert(field_end(before.fields@[k]) <= before.fields@[j].offset);
        } else if j < k {
            assert(field_end(before.fields@[j]) <= before.fields@[k].offset);
        }
    }
    lemma_splice(before.fields@, before.data@, k, p, b, Seq::<u8>::empty(), after.fields@, after.data@);
    assert(region(nf, after.data@) =~= r.subrange(0, f.name_length as int) + nvb);
    let c = f.count as int;
    if fixed_flag(f.flags) {
        let size = (f.data_size / f.count) as int;
        assert(f.data_size == c * size) by (nonlinear_arith)
            requires
                f.data_size % f.count == 0,
                size == f.data_size / f.count,
                c == f.count,
                c > 0,
        ;
        lemma_chunks_middle(vb, size, c, i, Seq::<u8>::empty(), 0);
        assert(vb.subrange(0, i * size) + Seq::<u8>::empty() =~= vb.subrange(0, i * size));
        assert(nf.data_size == (c - 1) * size);
        assert((c - 1) * size / (c - 1) == size && ((c - 1) * size) % (c - 1) == 0) by (nonlinear_arith)
            requires
                c >= 2,
        ;
        lemma_field_values(f, nf, r, nvb, vs.remove(i));
    } else {
        let limit = st + f.data_size;
        assert(before.data@.subrange(st as int, p) =~= vb.subrange(0, p - st));
        assert(before.data@.subrange(b, limit as int) =~= vb.subrange(b - st, vb.len() as int));
        assert(parse_var(Seq::<u8>::empty(), 0) == Some(Seq::<Seq<u8>>::empty()));
        lemma_var_middle(
            vb.subrange(0, p - st),
            Seq::<u8>::empty(),
            vb.subrange(b - st, vb.len() as int),
            vs,
            i,
            Seq::<Seq<u8>>::empty(),
        );
        assert(vb.subrange(0, p - st) + Seq::<u8>::empty() =~= vb.subrange(0, p - st));
        assert(vs.subrange(0, i) + Seq::<Seq<u8>>::empty() + vs.subrange(i + 1, vs.len() as int)
            =~= vs.remove(i));
        lemma_field_values(f, nf, r, nvb, vs.remove(i));
    }
}



/// Whether `replace_data` accepts value `v` for value `i` of field `k`: a
/// fixed-size value keeps its size, and the message still fits the 32-bit
/// sizes of its format.
pub open spec fn replace_ok(m: &Message, k: int, i: int, v: Seq<u8>) -> bool {
    let fixed = m@[k].fixed;
    &&& fixed ==> v.len() == m@[k].values[i].len()
    &&& !fixed ==> v.len() <= u32::MAX
    &&& m.spec_flattened_size() + stored_value(fixed, v).len() - stored_value(fixed, m@[k].values[i]).len()
        <= u32::MAX
}

/// Replacing a value.
#[verifier::rlimit(100)]
proof fn lemma_replace_value(
    before: Message,
    after: Message,
    k: int,
    i: int,
    a: int,
    p: int,
    b: int,
    v: Seq<u8>,
    stored: Seq<u8>,
)
    requires
        before.wf(),
        0 <= k < before.fields@.len(),
        0 <= i < before.fields@[k].count,
        value_place(before.fields@[k], before.data@, a, b, before@[k].values, i),
        before.data@.subrange(a, b) == before@[k].values[i],
        p == stored_start(before.fields@[k], a),
        before.fields@[k].offset + before.fields@[k].name_length <= p <= b <= field_end(before.fields@[k]),
        stored == stored_value(before@[k].fixed, v),
        before@[k].fixed ==> v.len() == b - a,
        !before@[k].fixed ==> v.len() <= u32::MAX,
        before.spec_flattened_size() + stored.len() - (b - p) <= u32::MAX,
        after.data@ == before.data@.subrange(0, p) + stored + before.data@.subrange(b, before.data@.len() as int),
        after.fields@.len() == before.fields@.len(),
        forall|j: int|
            0 <= j < before.fields@.len() && j != k ==> #[trigger] after.fields@[j] == shifted(
                before.fields@[j],
                field_end(before.fields@[k]),
                stored.len() - (b - p),
            ),
        after.fields@[k] == (FieldHeader {
            data_size: (before.fields@[k].data_size + stored.len() - (b - p)) as u32,
            ..before.fields@[k]
        }),
        after.header.hash_table == before.header.hash_table,
        after.header.hash_table_size == before.header.hash_table_size,
        after.header.field_count == before.header.field_count,
        after.header.data_size == before.header.data_size + stored.len() - (b - p),
    ensures
        after.wf(),
        after@ == with_replaced(before@, k, i, v),
{
    lemma_replace_value_field(before, after, k, i, a, p, b, v, stored);
    lemma_wf_field(&before, k);
    lemma_value_splice_wf(before, after, k, p, b, stored, FieldView { values: before@[k].values.update(i, v), ..before@[k] });
}

/// Field `k` after the change, region and content.
#[verifier::rlimit(100)]
proof fn lemma_replace_value_field(
    before: Message,
    after: Message,
    k: int,
    i: int,
    a: int,
    p: int,
    b: int,
    v: Seq<u8>,
    stored: Seq<u8>,
)
    requires
        before.wf(),
        0 <= k < before.fields@.len(),
        0 <= i < before.fields@[k].count,
        value_place(before.fields@[k], before.data@, a, b, before@[k].values, i),
        before.data@.subrange(a, b) == before@[k].values[i],
        p == stored_start(before.fields@[k], a),
        before.fields@[k].offset + before.fields@[k].name_length <= p <= b <= field_end(before.fields@[k]),
        stored == stored_value(before@[k].fixed, v),
        before@[k].fixed ==> v.len() == b - a,
        !before@[k].fixed ==> v.len() <= u32::MAX,
        before.spec_flattened_size() + stored.len() - (b - p) <= u32::MAX,
        after.data@ == before.data@.subrange(0, p) + stored + before.data@.subrange(b, before.data@.len() as int),
        after.fields@.len() == before.fields@.len(),
        forall|j: int|
            0 <= j < before.fields@.len() && j != k ==> #[trigger] after.fields@[j] == shifted(
                before.fields@[j],
                field_end(before.fields@[k]),
                stored.len() - (b - p),
            ),
        after.fields@[k] == (FieldHeader {
            data_size: (before.fields@[k].data_size + stored.len() - (b - p)) as u32,
            ..before.fields@[k]
        }),
        after.header.hash_table == before.header.hash_table,
        after.header.hash_table_size == before.header.hash_table_size,
        after.header.field_count == before.header.field_count,
        after.header.data_size == before.header.data_size + stored.len() - (b - p),
    ensures
        region_ok(after.fields@[k], region(after.fields@[k], after.data@)),
        region_view(after.fields@[k], region(after.fields@[k], after.data@)) == (FieldView {
            values: before@[k].values.update(i, v),
            ..before@[k]
        }),
        same_but_counts(before.fields@[k], after.fields@[k]),
{
    lemma_wf_field(&before, k);
    lemma_wf_layout(&before);
    lemma_values_len(&before, k);
    lemma_field_flags();
    reveal(region_values);
    let f = before.fields@[k];
    let r = region(f, before.data@);
    let st = f.offset + f.name_length;
    let vb = value_bytes(f, r);
    let vs = before@[k].values;
    let nf = after.fields@[k];
    let nvb = vb.subrange(0, p - st) + stored + vb.subrange(b - st, vb.len() as int);
    lemma_layout_order(before.fields@, before.data@.len() as int);
    assert(vb =~= before.data@.subrange(st as int, field_end(f)));
    assert forall|j: int| 0 <= j < before.fields@.len() && j != k implies same_but_offset(#[trigger] after.fields@[j], before.fields@[j]) by {}
    assert forall|j: int| 0 <= j < before.fields@.len() implies (#[trigger] after.fields@[j]).offset == before.fields@[j].offset + (if j > k {
        stored.len() - (b - p)
    } else {
        0
    }) by {
        if j > k {
            assert(field_end(before.fields@[k]) <= before.fields@[j].offset);
        } else if j < k {
            assert(field_end(before.fields@[j]) <= before.fields@[k].offset);
        }
    }
    lemma_splice(before.fields@, before.data@, k, p, b, stored, after.fields@, after.data@);
    assert(region(nf, after.data@) =~= r.subrange(0, f.name_length as int) + nvb);
    let c = f.count as int;
    if fixed_flag(f.flags) {
        let size = (f.data_size / f.count) as int;
        assert(f.data_size == c * size) by (nonlinear_arith)
            requires
                f.data_size % f.count == 0,
                size == f.data_size / f.count,
                c == f.count,
                c > 0,
        ;
        assert(v.len() == 1 * size);
        lemma_chunks_middle(vb, size, c, i, v, 1);
        assert(nf.data_size == f.data_size);
        lemma_field_values(f, nf, r, nvb, vs.update(i, v));
    } else {
        let limit = st + f.data_size;
        assert(before.data@.subrange(st as int, p) =~= vb.subrange(0, p - st));
        assert(before.data@.subrange(b, limit as int) =~= vb.subrange(b - st, vb.len() as int));
        lemma_parse_var_single(v);
        lemma_var_middle(vb.subrange(0, p - st), stored, vb.subrange(b - st, vb.len() as int), vs, i, seq![v]);
        assert(vs.subrange(0, i) + seq![v] + vs.subrange(i + 1, vs.len() as int) =~= vs.update(i, v));
        lemma_field_values(f, nf, r, nvb, vs.update(i, v));
    }
}


impl Message {
    /// Replace the value at `index` of the field `name` by `data`.
    ///
    /// Fails with `NotFound` when there is no such field or it holds another
    /// type, and with `InvalidInput` when `index` is past its last value,
    /// when a fixed-size value would change size, or when the message would
    /// outgrow the 32-bit sizes of its format; the message is then left as
    /// it was.
    pub fn replace_data<T: Flattenable<T>>(&mut self, name: &str, index: usize, data: &T) -> (r: Result<(), HaikuError>)
        requires
            old(self).wf(),
        ensures
            final(self).wf(),
            match lookup(old(self)@, encode_utf8(name@)) {
                None => (r matches Err(e) && e.spec_kind() == ErrorKind::NotFound) && *final(self) == *old(self),
                Some(k) => if !(old(self)@[k].type_code == T::spec_type_code() || T::spec_type_code()
                    == B_ANY_TYPE) {
                    (r matches Err(e) && e.spec_kind() == ErrorKind::NotFound) && *final(self) == *old(self)
                } else if index >= old(self)@[k].values.len() || !replace_ok(
                    old(self),
                    k,
                    index as int,
                    data.flat(),
                ) {
                    (r matches Err(e) && e.spec_kind() == ErrorKind::InvalidInput) && *final(self) == *old(self)
                } else {
                    (r is Ok) && final(self)@ == with_replaced(old(self)@, k, index as int, data.flat())
                },
            },
            same_stamp(final(self).header, old(self).header),
    {
        let name_bytes = name.as_bytes();
        let k = match self.find_field(name_bytes, T::type_code()) {
            Some(k) => k,
            None => return Err(HaikuError::new(ErrorKind::NotFound, "no field with this name and type")),
        };
        let n = self.fields.len();
        proof {
            crate::message::lemma_lookup_some(self@, encode_utf8(name@));
            assert(lookup(self@, encode_utf8(name@)) == Some(k as int));
            lemma_wf_field(self, k as int);
            lemma_values_len(self, k as int);
            lemma_wf_layout(self);
            lemma_field_flags();
        }
        let f = self.fields[k];
        if index >= f.count as usize {
            return Err(HaikuError::new(ErrorKind::InvalidInput, "index is out of range"));
        }
        let (a, b) = match self.value_range(k, index) {
            Some(range) => range,
            None => return Err(HaikuError::new(ErrorKind::InvalidData, "value lies outside the data")),
        };
        proof {
            lemma_place_bounds(f, self.data@, a as int, b as int, self@[k as int].values, index as int);
            lemma_auto_spec_u32_to_from_le_bytes();
        }
        let value = data.flatten();
        let fixed = (f.flags & FIELD_FLAG_FIXED_SIZE) != 0;
        let size: u64 = (HEADER_SIZE as u64) + (FIELD_HEADER_SIZE as u64) * (self.fields.len() as u64)
            + (self.data.len() as u64);
        if fixed {
            if value.len() != b - a {
                return Err(HaikuError::new(ErrorKind::InvalidInput, "value has another size than the field's values"));
            }
            let ghost before = *self;
            self.splice_value(k, a, b, value.as_slice(), f.count);
            proof {
                lemma_replace_value(before, *self, k as int, index as int, a as int, a as int, b as int, value@, value@);
            }
            Ok(())
        } else {
            if value.len() as u64 > u32::MAX as u64 {
                return Err(HaikuError::new(ErrorKind::InvalidInput, "value is too large"));
            }
            let p = a - 4;
            let grow: u64 = value.len() as u64 + 4;
            let shrink: u64 = (b - p) as u64;
            proof {
                let vs = self@[k as int].values;
                assert(stored_value(false, vs[index as int]).len() == b - p);
            }
            if size + grow > u32::MAX as u64 + shrink {
                return Err(HaikuError::new(ErrorKind::InvalidInput, "message is too large"));
            }
            let mut stored = u32_to_le_bytes(value.len() as u32);
            append_bytes(&mut stored, value.as_slice());
            let ghost before = *self;
            self.splice_value(k, p, b, stored.as_slice(), f.count);
            proof {
                lemma_replace_value(before, *self, k as int, index as int, a as int, p as int, b as int, value@, stored@);
            }
            Ok(())
        }
    }
}


} // verus!
