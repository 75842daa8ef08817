//! Byte-level building blocks shared by the record and block formats:
//! base-128 varints, zigzag integers, and the protobuf field encodings.

use vstd::prelude::*;

verus! {

/// Why a varint could not be read.
#[derive(Clone, Copy, Debug, PartialEq, Eq, Structural)]
pub enum VarintFault {
    /// The bytes end before the varint does.
    Truncated,
    /// The tenth byte carries more than the one bit that is left of a `u64`.
    Overflow,
}

/// The base-128 encoding of `v`: seven bits a byte, least significant group
/// first, the high bit set on every byte but the last.
pub open spec fn varint(v: int) -> Seq<u8>
    decreases v,
{
    if v < 128 {
        seq![v as u8]
    } else {
        seq![(128 + v % 128) as u8] + varint(v / 128)
    }
}

/// How large the part of a varint that starts at byte `idx` can be: one more
/// than its largest value.
pub open spec fn varint_bound(idx: int) -> int
    decreases 9 - idx,
{
    if idx >= 9 {
        2
    } else {
        128 * varint_bound(idx + 1)
    }
}

/// Reads a varint whose first `idx` bytes have been read already.
pub open spec fn take_varint_from(b: Seq<u8>, idx: int) -> Result<(int, Seq<u8>), VarintFault>
    decreases b.len(),
{
    if b.len() == 0 {
        Err(VarintFault::Truncated)
    } else if idx >= 9 && b[0] > 1 {
        Err(VarintFault::Overflow)
    } else if b[0] < 128 {
        Ok((b[0] as int, b.skip(1)))
    } else {
        match take_varint_from(b.skip(1), idx + 1) {
            Ok((hi, rest)) => Ok((b[0] - 128 + 128 * hi, rest)),
            Err(e) => Err(e),
        }
    }
}

/// Reads one varint off the front of `b`: its value and the bytes after it.
pub open spec fn take_varint(b: Seq<u8>) -> Result<(int, Seq<u8>), VarintFault> {
    take_varint_from(b, 0)
}

pub proof fn lemma_take_varint_from(b: Seq<u8>, idx: int)
    requires
        0 <= idx <= 9,
    ensures
        take_varint_from(b, idx) matches Ok((v, rest)) ==> {
            &&& 0 <= v < varint_bound(idx)
            &&& rest.len() < b.len()
            &&& rest == b.skip(b.len() - rest.len())
        },
    decreases b.len(),
{
    reveal_with_fuel(varint_bound, 2);
    if b.len() > 0 && !(idx >= 9 && b[0] > 1) && b[0] >= 128 {
        lemma_take_varint_from(b.skip(1), idx + 1);
        match take_varint_from(b.skip(1), idx + 1) {
            Ok((hi, rest)) => {
                let k = b.len() - 1 - rest.len();
                assert(b.skip(1).skip(k) =~= b.skip(k + 1));
            },
            Err(_) => {},
        }
    }
    lemma_bound_positive(idx);
}

proof fn lemma_bound_positive(idx: int)
    requires
        0 <= idx <= 9,
    ensures
        varint_bound(idx) >= 2,
        idx < 9 ==> varint_bound(idx) >= 128,
    decreases 9 - idx,
{
    if idx < 9 {
        lemma_bound_positive(idx + 1);
    }
}

pub proof fn lemma_bound_zero()
    ensures
        varint_bound(0) == 0x1_0000_0000_0000_0000,
        varint_bound(1) == 0x200_0000_0000_0000,
{
    reveal_with_fuel(varint_bound, 11);
}

/// A varint that is read off is shorter than what it was read from, and its
/// value is a `u64`.
pub proof fn lemma_take_varint(b: Seq<u8>)
    ensures
        take_varint(b) matches Ok((v, rest)) ==> {
            &&& 0 <= v <= u64::MAX
            &&& rest.len() < b.len()
            &&& rest == b.skip(b.len() - rest.len())
        },
{
    lemma_take_varint_from(b, 0);
    lemma_bound_zero();
}

pub proof fn lemma_varint_roundtrip_from(v: int, idx: int, rest: Seq<u8>)
    requires
        0 <= idx <= 9,
        0 <= v < varint_bound(idx),
    ensures
        take_varint_from(varint(v) + rest, idx) == Ok::<(int, Seq<u8>), VarintFault>((v, rest)),
    decreases v,
{
    let b = varint(v) + rest;
    if v < 128 {
        assert(b.skip(1) =~= rest);
    } else {
        assert(idx < 9);
        let lead: Seq<u8> = seq![(128 + v % 128) as u8];
        assert(b =~= lead + (varint(v / 128) + rest));
        assert(b.skip(1) =~= varint(v / 128) + rest);
        lemma_varint_roundtrip_from(v / 128, idx + 1, rest);
    }
}

/// Reading gives back what was written, and leaves what follows it.
pub proof fn lemma_varint_roundtrip(v: int, rest: Seq<u8>)
    requires
        0 <= v <= u64::MAX,
    ensures
        take_varint(varint(v) + rest) == Ok::<(int, Seq<u8>), VarintFault>((v, rest)),
{
    lemma_bound_zero();
    lemma_varint_roundtrip_from(v, 0, rest);
}

pub proof fn lemma_varint_nonempty(v: int)
    ensures
        varint(v).len() >= 1,
    decreases v,
{
    if v >= 128 {
        lemma_varint_nonempty(v / 128);
    }
}

/// Appends the bytes of `src` to `out`.
pub fn push_all(out: &mut Vec<u8>, src: &[u8])
    ensures
        final(out)@ == old(out)@ + src@,
{
    out.extend_from_slice(src);
    assert(out@ =~= old(out)@ + src@);
}

/// Appends `value` as a varint.
pub fn write_varint(out: &mut Vec<u8>, value: u64)
    ensures
        final(out)@ == old(out)@ + varint(value as int),
{
    let mut rest: u64 = value;
    while rest >= 128
        invariant
            out@ + varint(rest as int) == old(out)@ + varint(value as int),
        decreases rest,
    {
        let ghost before = out@;
        out.push(128 + (rest % 128) as u8);
        proof {
            assert(before + varint(rest as int) =~= out@ + varint((rest / 128) as int));
        }
        rest = rest / 128;
    }
    let ghost before = out@;
    out.push(rest as u8);
    proof {
        assert(before + varint(rest as int) =~= out@);
    }
}

fn read_varint_from(bytes: &[u8], pos: usize, idx: u8) -> (res: Result<(u64, usize), VarintFault>)
    requires
        pos <= bytes@.len(),
        idx <= 9,
    ensures
        match res {
            Ok((v, next)) => pos < next <= bytes@.len() && take_varint_from(
                bytes@.skip(pos as int),
                idx as int,
            ) == Ok::<(int, Seq<u8>), VarintFault>((v as int, bytes@.skip(next as int))),
            Err(e) => take_varint_from(bytes@.skip(pos as int), idx as int) == Err::<
                (int, Seq<u8>),
                VarintFault,
            >(e),
        },
    decreases bytes@.len() - pos,
{
    let ghost here = bytes@.skip(pos as int);
    if pos >= bytes.len() {
        return Err(VarintFault::Truncated);
    }
    let byte: u8 = bytes[pos];
    proof {
        assert(here[0] == byte);
        assert(here.skip(1) =~= bytes@.skip(pos + 1));
        lemma_take_varint_from(here, idx as int);
    }
    if idx == 9 && byte > 1 {
        return Err(VarintFault::Overflow);
    }
    if byte < 128 {
        return Ok((byte as u64, pos + 1));
    }
    match read_varint_from(bytes, pos + 1, idx + 1) {
        Ok((hi, next)) => {
            proof {
                lemma_take_varint_from(here.skip(1), idx + 1);
                lemma_bound_zero();
                lemma_bound_falls(1, idx + 1);
            }
            Ok(((byte - 128) as u64 + 128 * hi, next))
        },
        Err(e) => Err(e),
    }
}

proof fn lemma_bound_falls(i: int, j: int)
    requires
        0 <= i <= j <= 9,
    ensures
        varint_bound(j) <= varint_bound(i),
    decreases j - i,
{
    if i < j {
        lemma_bound_falls(i + 1, j);
        lemma_bound_positive(i + 1);
    }
}

/// Reads the varint that starts at `pos`: its value and where the next byte is.
pub fn read_varint_at(bytes: &[u8], pos: usize) -> (res: Result<(u64, usize), VarintFault>)
    requires
        pos <= bytes@.len(),
    ensures
        match res {
            Ok((v, next)) => pos < next <= bytes@.len() && take_varint(bytes@.skip(pos as int))
                == Ok::<(int, Seq<u8>), VarintFault>((v as int, bytes@.skip(next as int))),
            Err(e) => take_varint(bytes@.skip(pos as int)) == Err::<(int, Seq<u8>), VarintFault>(
                e,
            ),
        },
{
    read_varint_from(bytes, pos, 0)
}

/// Signed integers folded onto the naturals so that small magnitudes stay small.
pub open spec fn zigzag(v: int) -> int {
    if v >= 0 {
        2 * v
    } else {
        -2 * v - 1
    }
}

pub open spec fn unzigzag(u: int) -> int {
    if u % 2 == 0 {
        u / 2
    } else {
        -(u / 2) - 1
    }
}

/// Folding a signed integer and unfolding it again gives it back.
pub proof fn lemma_zigzag_roundtrip(v: int)
    ensures
        unzigzag(zigzag(v)) == v,
        i64::MIN <= v <= i64::MAX ==> 0 <= zigzag(v) <= u64::MAX,
{
}

pub fn zigzag_i64(value: i64) -> (res: u64)
    ensures
        res as int == zigzag(value as int),
{
    if value >= 0 {
        (value as u64) * 2
    } else {
        ((-(value + 1)) as u64) * 2 + 1
    }
}

pub fn unzigzag_i64(value: u64) -> (res: i64)
    ensures
        res as int == unzigzag(value as int),
{
    let half: i64 = (value / 2) as i64;
    if value % 2 == 0 {
        half
    } else {
        -half - 1
    }
}

/// The `u64` that an `i64` shares its bit pattern with.
pub open spec fn wrap_u64(v: int) -> int {
    if v >= 0 {
        v
    } else {
        v + 0x1_0000_0000_0000_0000
    }
}

/// The `i64` that a `u64` shares its bit pattern with.
pub open spec fn wrap_i64(v: int) -> int {
    if v <= i64::MAX {
        v
    } else {
        v - 0x1_0000_0000_0000_0000
    }
}

pub fn i64_to_u64(value: i64) -> (res: u64)
    ensures
        res as int == wrap_u64(value as int),
{
    if value >= 0 {
        value as u64
    } else {
        u64::MAX - ((-(value + 1)) as u64)
    }
}

pub fn u64_to_i64(value: u64) -> (res: i64)
    ensures
        res as int == wrap_i64(value as int),
{
    if value <= 0x7fff_ffff_ffff_ffff {
        value as i64
    } else {
        -((u64::MAX - value) as i64) - 1
    }
}

/// Protobuf wire types: how the value after a field key is laid out.
pub const WIRE_VARINT: u8 = 0;

pub const WIRE_FIXED64: u8 = 1;

pub const WIRE_BYTES: u8 = 2;

pub const WIRE_GROUP_START: u8 = 3;

pub const WIRE_GROUP_END: u8 = 4;

pub const WIRE_FIXED32: u8 = 5;

/// A scalar field: key and value, or nothing at all for the default value 0.
pub open spec fn field_varint(field: int, value: int) -> Seq<u8> {
    if value == 0 {
        Seq::empty()
    } else {
        varint(field * 8) + varint(value)
    }
}

/// A length-delimited field, written even when its body is empty.
pub open spec fn field_message(field: int, body: Seq<u8>) -> Seq<u8> {
    varint(field * 8 + 2) + varint(body.len() as int) + body
}

/// A string or packed field: nothing at all when the body is empty.
pub open spec fn field_bytes(field: int, body: Seq<u8>) -> Seq<u8> {
    if body.len() == 0 {
        Seq::empty()
    } else {
        field_message(field, body)
    }
}

/// Varints back to back.
pub open spec fn varints(values: Seq<int>) -> Seq<u8>
    decreases values.len(),
{
    if values.len() == 0 {
        Seq::empty()
    } else {
        varint(values[0]) + varints(values.skip(1))
    }
}

/// One length-delimited field per body, in order.
pub open spec fn messages(field: int, bodies: Seq<Seq<u8>>) -> Seq<u8>
    decreases bodies.len(),
{
    if bodies.len() == 0 {
        Seq::empty()
    } else {
        field_message(field, bodies[0]) + messages(field, bodies.skip(1))
    }
}

pub open spec fn ints(values: Seq<u32>) -> Seq<int> {
    values.map_values(|v: u32| v as int)
}

pub open spec fn zigzags(values: Seq<i64>) -> Seq<int> {
    values.map_values(|v: i64| zigzag(v as int))
}

pub proof fn lemma_varints_push(values: Seq<int>, v: int)
    ensures
        varints(values.push(v)) == varints(values) + varint(v),
    decreases values.len(),
{
    reveal_with_fuel(varints, 2);
    let all = values.push(v);
    if values.len() == 0 {
        assert(all.skip(1) =~= Seq::empty());
        assert(varints(all) =~= varint(v));
    } else {
        assert(all.skip(1) =~= values.skip(1).push(v));
        lemma_varints_push(values.skip(1), v);
        assert(varints(all) =~= varints(values) + varint(v));
    }
}

pub proof fn lemma_messages_push(field: int, bodies: Seq<Seq<u8>>, body: Seq<u8>)
    ensures
        messages(field, bodies.push(body)) == messages(field, bodies) + field_message(field, body),
    decreases bodies.len(),
{
    reveal_with_fuel(messages, 2);
    let all = bodies.push(body);
    if bodies.len() == 0 {
        assert(all.skip(1) =~= Seq::empty());
        assert(messages(field, all) =~= field_message(field, body));
    } else {
        assert(all.skip(1) =~= bodies.skip(1).push(body));
        lemma_messages_push(field, bodies.skip(1), body);
        assert(messages(field, all) =~= messages(field, bodies) + field_message(field, body));
    }
}

/// Appends a scalar field.
pub fn put_field_varint(out: &mut Vec<u8>, field: u32, value: u64)
    requires
        field < 0x1000_0000,
    ensures
        final(out)@ == old(out)@ + field_varint(field as int, value as int),
{
    if value == 0 {
        assert(out@ =~= old(out)@ + field_varint(field as int, value as int));
        return ;
    }
    write_varint(out, field as u64 * 8);
    write_varint(out, value);
    assert(out@ =~= old(out)@ + field_varint(field as int, value as int));
}

/// Appends a length-delimited field.
pub fn put_field_message(out: &mut Vec<u8>, field: u32, body: &[u8])
    requires
        field < 0x1000_0000,
    ensures
        final(out)@ == old(out)@ + field_message(field as int, body@),
{
    write_varint(out, field as u64 * 8 + 2);
    write_varint(out, body.len() as u64);
    push_all(out, body);
    assert(out@ =~= old(out)@ + field_message(field as int, body@));
}

/// Appends a length-delimited field unless its body is empty.
pub fn put_field_bytes(out: &mut Vec<u8>, field: u32, body: &[u8])
    requires
        field < 0x1000_0000,
    ensures
        final(out)@ == old(out)@ + field_bytes(field as int, body@),
{
    if body.len() == 0 {
        assert(out@ =~= old(out)@ + field_bytes(field as int, body@));
        return ;
    }
    put_field_message(out, field, body);
}

/// Appends a packed `uint32` field.
pub fn put_packed_u32(out: &mut Vec<u8>, field: u32, values: &[u32])
    requires
        field < 0x1000_0000,
    ensures
        final(out)@ == old(out)@ + field_bytes(field as int, varints(ints(values@))),
{
    let mut body: Vec<u8> = Vec::new();
    let mut i: usize = 0;
    while i < values.len()
        invariant
            i <= values@.len(),
            body@ == varints(ints(values@.take(i as int))),
        decreases values@.len() - i,
    {
        write_varint(&mut body, values[i] as u64);
        proof {
            lemma_varints_push(ints(values@.take(i as int)), values@[i as int] as int);
            assert(ints(values@.take(i + 1)) =~= ints(values@.take(i as int)).push(
                values@[i as int] as int,
            ));
        }
        i = i + 1;
    }
    assert(values@.take(i as int) =~= values@);
    put_field_bytes(out, field, body.as_slice());
}

/// Appends a packed `sint64` field.
pub fn put_packed_i64(out: &mut Vec<u8>, field: u32, values: &[i64])
    requires
        field < 0x1000_0000,
    ensures
        final(out)@ == old(out)@ + field_bytes(field as int, varints(zigzags(values@))),
{
    let mut body: Vec<u8> = Vec::new();
    let mut i: usize = 0;
    while i < values.len()
        invariant
            i <= values@.len(),
            body@ == varints(zigzags(values@.take(i as int))),
        decreases values@.len() - i,
    {
        write_varint(&mut body, zigzag_i64(values[i]));
        proof {
            let z = zigzag(values@[i as int] as int);
            lemma_varints_push(zigzags(values@.take(i as int)), z);
            assert(zigzags(values@.take(i + 1)) =~= zigzags(values@.take(i as int)).push(z));
        }
        i = i + 1;
    }
    assert(values@.take(i as int) =~= values@);
    put_field_bytes(out, field, body.as_slice());
}

/// How many messages may nest before a decoder gives up.
pub const RECURSION_LIMIT: u32 = 100;

/// Reads a field key: tag, wire type, and the bytes after it.
pub open spec fn take_key(b: Seq<u8>) -> Option<(int, int, Seq<u8>)> {
    match take_varint(b) {
        Ok((key, rest)) => if key <= u32::MAX && key % 8 <= 5 && key / 8 >= 1 {
            Some((key / 8, key % 8, rest))
        } else {
            None
        },
        Err(_) => None,
    }
}

/// Reads a length and that many bytes: the body, and what follows it.
pub open spec fn take_bytes(b: Seq<u8>) -> Option<(Seq<u8>, Seq<u8>)> {
    match take_varint(b) {
        Ok((n, rest)) => if n <= rest.len() {
            Some((rest.take(n), rest.skip(n)))
        } else {
            None
        },
        Err(_) => None,
    }
}

/// What is left of `b` after the value of an unknown field. `depth` is how
/// many more groups may nest.
pub open spec fn skip_field(wire: int, tag: int, b: Seq<u8>, depth: int) -> Option<Seq<u8>>
    decreases b.len(), 1int,
{
    if depth <= 0 {
        None
    } else if wire == WIRE_VARINT {
        match take_varint(b) {
            Ok((_, rest)) => Some(rest),
            Err(_) => None,
        }
    } else if wire == WIRE_FIXED64 {
        if b.len() >= 8 {
            Some(b.skip(8))
        } else {
            None
        }
    } else if wire == WIRE_BYTES {
        match take_bytes(b) {
            Some((_, rest)) => Some(rest),
            None => None,
        }
    } else if wire == WIRE_GROUP_START {
        skip_group(tag, b, depth)
    } else if wire == WIRE_FIXED32 {
        if b.len() >= 4 {
            Some(b.skip(4))
        } else {
            None
        }
    } else {
        None
    }
}

/// What is left of `b` after the fields of a group and its end marker.
pub open spec fn skip_group(tag: int, b: Seq<u8>, depth: int) -> Option<Seq<u8>>
    decreases b.len(), 0int,
{
    proof {
        lemma_take_varint(b);
    }
    match take_key(b) {
        None => None,
        Some((inner_tag, inner_wire, rest)) => if inner_wire == WIRE_GROUP_END {
            if inner_tag == tag {
                Some(rest)
            } else {
                None
            }
        } else {
            match skip_field(inner_wire, inner_tag, rest, depth - 1) {
                Some(after) => if after.len() < b.len() {
                    skip_group(tag, after, depth)
                } else {
                    None
                },
                None => None,
            }
        },
    }
}

/// Skipping a field never adds bytes; what is left is a suffix.
pub proof fn lemma_skip_suffix(wire: int, tag: int, b: Seq<u8>, depth: int)
    ensures
        skip_field(wire, tag, b, depth) matches Some(rest) ==> {
            &&& rest.len() <= b.len()
            &&& rest == b.skip(b.len() - rest.len())
        },
        skip_group(tag, b, depth) matches Some(rest) ==> {
            &&& rest.len() < b.len()
            &&& rest == b.skip(b.len() - rest.len())
        },
    decreases b.len(),
{
    lemma_take_varint(b);
    match take_bytes(b) {
        Some((body, rest)) => {
            let n = body.len() as int;
            match take_varint(b) {
                Ok((_, r)) => {
                    assert(b.skip(b.len() - r.len()).skip(n) =~= b.skip(b.len() - r.len() + n));
                },
                Err(_) => {},
            }
        },
        None => {},
    }
    match take_key(b) {
        Some((t, w, r)) => {
            lemma_skip_suffix(w, t, r, depth - 1);
            match skip_field(w, t, r, depth - 1) {
                Some(after) => {
                    let i = b.len() - r.len();
                    let j = r.len() - after.len();
                    assert(b.skip(i).skip(j) =~= b.skip(i + j));
                    lemma_skip_suffix(w, tag, after, depth);
                    match skip_group(tag, after, depth) {
                        Some(last) => {
                            let k = after.len() - last.len();
                            assert(b.skip(i + j).skip(k) =~= b.skip(i + j + k));
                        },
                        None => {},
                    }
                },
                None => {},
            }
        },
        None => {},
    }
}

/// All varints of a packed body.
pub open spec fn take_all_varints(b: Seq<u8>) -> Option<Seq<int>>
    decreases b.len(),
{
    if b.len() == 0 {
        Some(Seq::empty())
    } else {
        proof {
            lemma_take_varint(b);
        }
        match take_varint(b) {
            Ok((v, rest)) => match take_all_varints(rest) {
                Some(more) => Some(seq![v] + more),
                None => None,
            },
            Err(_) => None,
        }
    }
}

/// The values of one occurrence of a repeated scalar field, packed or not.
pub open spec fn take_repeated(wire: int, b: Seq<u8>) -> Option<(Seq<int>, Seq<u8>)> {
    if wire == WIRE_BYTES {
        match take_bytes(b) {
            Some((body, rest)) => match take_all_varints(body) {
                Some(values) => Some((values, rest)),
                None => None,
            },
            None => None,
        }
    } else if wire == WIRE_VARINT {
        match take_varint(b) {
            Ok((v, rest)) => Some((seq![v], rest)),
            Err(_) => None,
        }
    } else {
        None
    }
}

/// The low 32 bits of a value.
pub open spec fn low32(v: int) -> u32 {
    (v % 0x1_0000_0000) as u32
}

pub open spec fn low32s(values: Seq<int>) -> Seq<u32> {
    values.map_values(|v: int| low32(v))
}

pub open spec fn signed(values: Seq<int>) -> Seq<i64> {
    values.map_values(|v: int| unzigzag(v) as i64)
}

pub proof fn lemma_take_bytes(b: Seq<u8>)
    ensures
        take_bytes(b) matches Some((body, rest)) ==> {
            &&& body.len() + rest.len() < b.len()
            &&& rest == b.skip(b.len() - rest.len())
            &&& body == b.subrange(b.len() - rest.len() - body.len(), b.len() - rest.len())
        },
{
    lemma_take_varint(b);
    match take_varint(b) {
        Ok((n, rest)) => {
            if n <= rest.len() {
                let at = b.len() - rest.len();
                assert(b.skip(at).skip(n) =~= b.skip(at + n));
                assert(b.skip(at).take(n) =~= b.subrange(at, at + n));
            }
        },
        Err(_) => {},
    }
}

pub proof fn lemma_take_repeated(wire: int, b: Seq<u8>)
    ensures
        take_repeated(wire, b) matches Some((values, rest)) ==> rest.len() < b.len(),
{
    lemma_take_varint(b);
    lemma_take_bytes(b);
}

pub fn read_key(bytes: &[u8], pos: usize) -> (res: Option<(u32, u8, usize)>)
    requires
        pos <= bytes@.len(),
    ensures
        match res {
            Some((tag, wire, next)) => pos < next <= bytes@.len() && take_key(
                bytes@.skip(pos as int),
            ) == Some((tag as int, wire as int, bytes@.skip(next as int))),
            None => take_key(bytes@.skip(pos as int)) is None,
        },
{
    match read_varint_at(bytes, pos) {
        Ok((key, next)) => {
            if key <= 0xffff_ffff && key % 8 <= 5 && key / 8 >= 1 {
                Some(((key / 8) as u32, (key % 8) as u8, next))
            } else {
                None
            }
        },
        Err(_) => None,
    }
}

/// Where the body of a length-delimited value starts and ends.
pub fn read_bytes(bytes: &[u8], pos: usize) -> (res: Option<(usize, usize)>)
    requires
        pos <= bytes@.len(),
    ensures
        match res {
            Some((start, end)) => pos < start <= end <= bytes@.len() && take_bytes(
                bytes@.skip(pos as int),
            ) == Some((bytes@.subrange(start as int, end as int), bytes@.skip(end as int))),
            None => take_bytes(bytes@.skip(pos as int)) is None,
        },
{
    match read_varint_at(bytes, pos) {
        Ok((n, start)) => {
            if n <= (bytes.len() - start) as u64 {
                let end: usize = start + n as usize;
                proof {
                    assert(bytes@.skip(start as int).take(n as int) =~= bytes@.subrange(
                        start as int,
                        end as int,
                    ));
                    assert(bytes@.skip(start as int).skip(n as int) =~= bytes@.skip(end as int));
                }
                Some((start, end))
            } else {
                None
            }
        },
        Err(_) => None,
    }
}

/// Where the value of an unknown field ends.
pub fn skip_field_at(wire: u8, tag: u32, bytes: &[u8], pos: usize, depth: u32) -> (res: Option<
    usize,
>)
    requires
        pos <= bytes@.len(),
    ensures
        match res {
            Some(next) => pos <= next <= bytes@.len() && skip_field(
                wire as int,
                tag as int,
                bytes@.skip(pos as int),
                depth as int,
            ) == Some(bytes@.skip(next as int)),
            None => skip_field(
                wire as int,
                tag as int,
                bytes@.skip(pos as int),
                depth as int,
            ) is None,
        },
    decreases depth, 0nat,
{
    if depth == 0 {
        return None;
    }
    if wire == WIRE_VARINT {
        match read_varint_at(bytes, pos) {
            Ok((_, next)) => Some(next),
            Err(_) => None,
        }
    } else if wire == WIRE_FIXED64 {
        if bytes.len() - pos >= 8 {
            assert(bytes@.skip(pos as int).skip(8) =~= bytes@.skip(pos + 8));
            Some(pos + 8)
        } else {
            None
        }
    } else if wire == WIRE_BYTES {
        match read_bytes(bytes, pos) {
            Some((_, end)) => Some(end),
            None => None,
        }
    } else if wire == WIRE_GROUP_START {
        skip_group_at(tag, bytes, pos, depth)
    } else if wire == WIRE_FIXED32 {
        if bytes.len() - pos >= 4 {
            assert(bytes@.skip(pos as int).skip(4) =~= bytes@.skip(pos + 4));
            Some(pos + 4)
        } else {
            None
        }
    } else {
        None
    }
}

fn skip_group_at(tag: u32, bytes: &[u8], pos: usize, depth: u32) -> (res: Option<usize>)
    requires
        pos <= bytes@.len(),
        depth > 0,
    ensures
        match res {
            Some(next) => pos <= next <= bytes@.len() && skip_group(
                tag as int,
                bytes@.skip(pos as int),
                depth as int,
            ) == Some(bytes@.skip(next as int)),
            None => skip_group(tag as int, bytes@.skip(pos as int), depth as int) is None,
        },
    decreases depth - 1, 1nat + (bytes@.len() - pos),
{
    let mut at: usize = pos;
    loop
        invariant
            pos <= at <= bytes@.len(),
            depth > 0,
            skip_group(tag as int, bytes@.skip(pos as int), depth as int) == skip_group(
                tag as int,
                bytes@.skip(at as int),
                depth as int,
            ),
        decreases bytes@.len() - at,
    {
        match read_key(bytes, at) {
            None => {
                return None;
            },
            Some((inner_tag, inner_wire, next)) => {
                if inner_wire == WIRE_GROUP_END {
                    if inner_tag == tag {
                        return Some(next);
                    }
                    return None;
                }
                match skip_field_at(inner_wire, inner_tag, bytes, next, depth - 1) {
                    None => {
                        return None;
                    },
                    Some(after) => {
                        at = after;
                    },
                }
            },
        }
    }
}

/// The values of one occurrence of a repeated scalar field, and where it ends.
pub fn read_repeated(wire: u8, bytes: &[u8], pos: usize) -> (res: Option<(Vec<u64>, usize)>)
    requires
        pos <= bytes@.len(),
    ensures
        match res {
            Some((values, next)) => pos < next <= bytes@.len() && take_repeated(
                wire as int,
                bytes@.skip(pos as int),
            ) == Some((values@.map_values(|v: u64| v as int), bytes@.skip(next as int))),
            None => take_repeated(wire as int, bytes@.skip(pos as int)) is None,
        },
{
    let mut values: Vec<u64> = Vec::new();
    if wire == WIRE_BYTES {
        match read_bytes(bytes, pos) {
            None => None,
            Some((start, end)) => {
                let body = vstd::slice::slice_subrange(bytes, start, end);
                let mut at: usize = 0;
                let ghost so_far = values@.map_values(|v: u64| v as int);
                proof {
                    assert(body@.skip(0) =~= body@);
                    assert(take_all_varints(body@) matches Some(t) ==> so_far + t =~= t);
                }
                while at < body.len()
                    invariant
                        at <= body@.len(),
                        wire == WIRE_BYTES,
                        pos <= bytes@.len(),
                        take_bytes(bytes@.skip(pos as int)) == Some(
                            (body@, bytes@.skip(end as int)),
                        ),
                        take_all_varints(body@) is None <==> take_all_varints(
                            body@.skip(at as int),
                        ) is None,
                        take_all_varints(body@) matches Some(t) ==> t == values@.map_values(
                            |v: u64| v as int,
                        ) + take_all_varints(body@.skip(at as int))->0,
                    decreases body@.len() - at,
                {
                    let ghost before = values@.map_values(|v: u64| v as int);
                    match read_varint_at(body, at) {
                        Ok((v, next)) => {
                            values.push(v);
                            proof {
                                assert(values@.map_values(|v: u64| v as int) =~= before.push(
                                    v as int,
                                ));
                                let tail = take_all_varints(body@.skip(next as int));
                                if tail is Some {
                                    assert(before + (seq![v as int] + tail->0) =~= before.push(
                                        v as int,
                                    ) + tail->0);
                                }
                            }
                            at = next;
                        },
                        Err(_) => {
                            return None;
                        },
                    }
                }
                proof {
                    assert(body@.skip(at as int) =~= Seq::empty());
                    assert(values@.map_values(|v: u64| v as int) + Seq::<int>::empty()
                        =~= values@.map_values(|v: u64| v as int));
                }
                Some((values, end))
            },
        }
    } else if wire == WIRE_VARINT {
        match read_varint_at(bytes, pos) {
            Ok((v, next)) => {
                values.push(v);
                assert(values@.map_values(|v: u64| v as int) =~= seq![v as int]);
                Some((values, next))
            },
            Err(_) => None,
        }
    } else {
        None
    }
}

} // verus!
