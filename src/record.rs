//! Password records and their encoding inside a container body:
//! `password 0 domain 0 username 0 count (key 0 value 0) * count`, where the
//! strings are UTF-8 and `count` is an unsigned 64-bit little-endian integer.
use vstd::prelude::*;
use vstd::utf8::{decode_utf8, encode_scalar, encode_utf8, valid_utf8, encode_utf8_decode_utf8};
use crate::bytes::{append_bytes, copy_range};
use crate::cursor::VecReader;
use crate::errors::{ErrorKind, Result};

verus! {

/// One password entry.
pub struct Password {
    pub password: String,
    pub domain: String,
    pub username: String,
    /// Additional named fields, at most one per name.
    pub additional_fields: Vec<(String, String)>,
}

/// The contents of a record.
pub struct PasswordView {
    pub password: Seq<char>,
    pub domain: Seq<char>,
    pub username: Seq<char>,
    pub fields: Seq<(Seq<char>, Seq<char>)>,
}

impl Password {
    /// A valid record names each additional field at most once.
    pub open spec fn wf(&self) -> bool {
        unique_names(self@.fields)
    }
}

impl View for Password {
    type V = PasswordView;

    open spec fn view(&self) -> PasswordView {
        PasswordView {
            password: self.password@,
            domain: self.domain@,
            username: self.username@,
            fields: fields_view(self.additional_fields@),
        }
    }
}

/// The names and values of a list of fields.
pub open spec fn fields_view(fields: Seq<(String, String)>) -> Seq<(Seq<char>, Seq<char>)> {
    fields.map_values(|f: (String, String)| (f.0@, f.1@))
}

/// No two fields share a name.
pub open spec fn unique_names(fields: Seq<(Seq<char>, Seq<char>)>) -> bool {
    forall|i: int, j: int| 0 <= i < j < fields.len() ==> #[trigger] fields[i].0 != #[trigger] fields[j].0
}

/// The bytes hold no zero byte.
pub open spec fn zero_free(b: Seq<u8>) -> bool {
    forall|i: int| 0 <= i < b.len() ==> b[i] != 0
}

/// The string holds no NUL character, the terminator of the encoding.
pub open spec fn no_nul(s: Seq<char>) -> bool {
    forall|i: int| 0 <= i < s.len() ==> (#[trigger] s[i]) as u32 != 0
}

impl PasswordView {
    /// The record can be encoded and read back: no string holds a NUL and no
    /// two fields share a name.
    pub open spec fn encodable(&self) -> bool {
        &&& no_nul(self.password)
        &&& no_nul(self.domain)
        &&& no_nul(self.username)
        &&& unique_names(self.fields)
        &&& forall|i: int| 0 <= i < self.fields.len() ==> no_nul((#[trigger] self.fields[i]).0) && no_nul(self.fields[i].1)
    }
}

/// The little-endian bytes of a 64-bit integer.
pub open spec fn u64_le(v: u64) -> Seq<u8> {
    seq![v as u8, (v >> 8) as u8, (v >> 16) as u8, (v >> 24) as u8,
        (v >> 32) as u8, (v >> 40) as u8, (v >> 48) as u8, (v >> 56) as u8]
}

/// A string on the wire: its UTF-8 bytes and a NUL.
pub open spec fn string_wire(s: Seq<char>) -> Seq<u8> {
    encode_utf8(s) + seq![0u8]
}

/// A list of fields on the wire, without the count.
pub open spec fn fields_wire(fields: Seq<(Seq<char>, Seq<char>)>) -> Seq<u8>
    decreases fields.len(),
{
    if fields.len() == 0 {
        Seq::empty()
    } else {
        fields_wire(fields.drop_last()) + string_wire(fields.last().0) + string_wire(fields.last().1)
    }
}

/// A record on the wire.
pub open spec fn record_wire(p: PasswordView) -> Seq<u8> {
    string_wire(p.password) + string_wire(p.domain) + string_wire(p.username)
        + u64_le(p.fields.len() as u64) + fields_wire(p.fields)
}

/// A sequence of records on the wire, one after the other.
pub open spec fn records_wire(ps: Seq<PasswordView>) -> Seq<u8>
    decreases ps.len(),
{
    if ps.len() == 0 {
        Seq::empty()
    } else {
        records_wire(ps.drop_last()) + record_wire(ps.last())
    }
}

/// The fields after setting `name` to `value`: an existing field of that name
/// takes the value in place, otherwise the field is added at the end.
pub open spec fn with_field(fields: Seq<(Seq<char>, Seq<char>)>, name: Seq<char>, value: Seq<char>) -> Seq<(Seq<char>, Seq<char>)> {
    if exists|j: int| 0 <= j < fields.len() && fields[j].0 == name {
        let j = choose|j: int| 0 <= j < fields.len() && fields[j].0 == name;
        fields.update(j, (name, value))
    } else {
        fields.push((name, value))
    }
}

/// The fields that setting each pair in turn gives, from none.
pub open spec fn fields_from_pairs(pairs: Seq<(Seq<char>, Seq<char>)>) -> Seq<(Seq<char>, Seq<char>)>
    decreases pairs.len(),
{
    if pairs.len() == 0 {
        Seq::empty()
    } else {
        let last = pairs.last();
        with_field(fields_from_pairs(pairs.drop_last()), last.0, last.1)
    }
}

/// Pairs with distinct names give themselves, in order.
pub proof fn lemma_fields_from_unique_pairs(pairs: Seq<(Seq<char>, Seq<char>)>)
    requires
        unique_names(pairs),
    ensures
        fields_from_pairs(pairs) == pairs,
    decreases pairs.len(),
{
    if pairs.len() > 0 {
        let init = pairs.drop_last();
        assert(unique_names(init)) by {
            assert forall|i: int, j: int| 0 <= i < j < init.len() implies #[trigger] init[i].0 != #[trigger] init[j].0 by {
                assert(init[i] == pairs[i] && init[j] == pairs[j]);
            }
        }
        lemma_fields_from_unique_pairs(init);
        let last = pairs.last();
        assert(!exists|j: int| 0 <= j < init.len() && init[j].0 == last.0) by {
            assert forall|j: int| 0 <= j < init.len() implies init[j].0 != last.0 by {
                assert(init[j] == pairs[j]);
                assert(pairs[j].0 != pairs[pairs.len() - 1].0);
            }
        }
        assert(init.push(last) =~= pairs);
    }
}

/// Relies on std's `String::from_utf8`: it succeeds exactly on valid UTF-8 and
/// then holds the characters that the bytes encode.
#[verifier::external_body]
fn string_from_utf8(bytes: Vec<u8>) -> (r: Option<String>)
    ensures
        r is Some <==> valid_utf8(bytes@),
        r is Some ==> r->Some_0@ == decode_utf8(bytes@),
{
    String::from_utf8(bytes).ok()
}

/// The UTF-8 bytes of a string without NUL hold no zero byte.
proof fn lemma_encode_no_zero(s: Seq<char>)
    requires
        no_nul(s),
    ensures
        forall|i: int| 0 <= i < encode_utf8(s).len() ==> encode_utf8(s)[i] != 0,
    decreases s.len(),
{
    if s.len() > 0 {
        let rest = s.drop_first();
        assert(no_nul(rest)) by {
            assert forall|i: int| 0 <= i < rest.len() implies (#[trigger] rest[i]) as u32 != 0 by {
                assert(rest[i] == s[i + 1]);
            }
        }
        lemma_encode_no_zero(rest);
        let v = s[0] as u32;
        assert(v != 0);
        let e = encode_scalar(v);
        assert forall|i: int| 0 <= i < e.len() implies e[i] != 0 by {
            assert(v != 0 && v <= 0x7F ==> (v & 0x7F) as u8 != 0) by (bit_vector);
            assert((0xC0u8 | ((v >> 6) & 0x1F) as u8) != 0) by (bit_vector);
            assert((0xE0u8 | ((v >> 12) & 0x0F) as u8) != 0) by (bit_vector);
            assert((0xF0u8 | ((v >> 18) & 0x7) as u8) != 0) by (bit_vector);
            assert((0x80u8 | (v & 0x3F) as u8) != 0) by (bit_vector);
            assert((0x80u8 | ((v >> 6) & 0x3F) as u8) != 0) by (bit_vector);
            assert((0x80u8 | ((v >> 12) & 0x3F) as u8) != 0) by (bit_vector);
        }
        assert(encode_utf8(s) == e + encode_utf8(rest));
    }
}

/// Appends a string and its terminator.
pub fn write_string(buf: &mut Vec<u8>, string: &str)
    ensures
        final(buf)@ == old(buf)@ + string_wire(string@),
{
    append_bytes(buf, string.as_bytes());
    buf.push(0u8);
    assert(buf@ =~= old(buf)@ + string_wire(string@));
}

/// Appends a 64-bit integer, little-endian.
pub fn write_u64(buf: &mut Vec<u8>, value: u64)
    ensures
        final(buf)@ == old(buf)@ + u64_le(value),
{
    buf.push(value as u8);
    buf.push((value >> 8) as u8);
    buf.push((value >> 16) as u8);
    buf.push((value >> 24) as u8);
    buf.push((value >> 32) as u8);
    buf.push((value >> 40) as u8);
    buf.push((value >> 48) as u8);
    buf.push((value >> 56) as u8);
    assert(buf@ =~= old(buf)@ + u64_le(value));
}

/// Appends the count of fields and each name and value.
pub fn write_additional_fields(buf: &mut Vec<u8>, additional_fields: &Vec<(String, String)>)
    ensures
        final(buf)@ == old(buf)@ + u64_le(additional_fields@.len() as u64)
            + fields_wire(fields_view(additional_fields@)),
{
    write_u64(buf, additional_fields.len() as u64);
    let ghost start = buf@;
    let mut i: usize = 0;
    while i < additional_fields.len()
        invariant
            i <= additional_fields@.len(),
            buf@ == start + fields_wire(fields_view(additional_fields@.take(i as int))),
        decreases additional_fields@.len() - i,
    {
        let (key, value) = &additional_fields[i];
        write_string(buf, key.as_str());
        write_string(buf, value.as_str());
        proof {
            let next = fields_view(additional_fields@.take(i + 1));
            assert(next.drop_last() =~= fields_view(additional_fields@.take(i as int)));
        }
        i = i + 1;
    }
    assert(additional_fields@.take(i as int) =~= additional_fields@);
}

/// Appends a record.
pub fn write_password(buf: &mut Vec<u8>, password: &Password)
    requires
        password.wf(),
    ensures
        final(buf)@ == old(buf)@ + record_wire(password@),
{
    write_string(buf, password.password.as_str());
    write_string(buf, password.domain.as_str());
    write_string(buf, password.username.as_str());
    write_additional_fields(buf, &password.additional_fields);
    assert(buf@ =~= old(buf)@ + record_wire(password@));
}

/// Appends records one after the other.
pub fn write_passwords(buf: &mut Vec<u8>, passwords: &[Password])
    requires
        forall|i: int| 0 <= i < passwords@.len() ==> (#[trigger] passwords@[i]).wf(),
    ensures
        final(buf)@ == old(buf)@ + records_wire(passwords@.map_values(|p: Password| p@)),
{
    let mut i: usize = 0;
    while i < passwords.len()
        invariant
            i <= passwords@.len(),
            forall|j: int| 0 <= j < passwords@.len() ==> (#[trigger] passwords@[j]).wf(),
            buf@ == old(buf)@ + records_wire(passwords@.take(i as int).map_values(|p: Password| p@)),
        decreases passwords@.len() - i,
    {
        write_password(buf, &passwords[i]);
        proof {
            let next = passwords@.take(i + 1).map_values(|p: Password| p@);
            assert(next.drop_last() =~= passwords@.take(i as int).map_values(|p: Password| p@));
        }
        i = i + 1;
    }
    assert(passwords@.take(i as int) =~= passwords@);
}


/// A zero-free prefix followed by a zero is the same split of a sequence whichever
/// way it is found.
proof fn lemma_terminated_split(a: Seq<u8>, ra: Seq<u8>, b: Seq<u8>, rb: Seq<u8>, t: u8)
    requires
        a + seq![t] + ra == b + seq![t] + rb,
        forall|i: int| 0 <= i < a.len() ==> a[i] != t,
        forall|i: int| 0 <= i < b.len() ==> b[i] != t,
    ensures
        a == b,
        ra == rb,
{
    let whole = a + seq![t] + ra;
    if a.len() < b.len() {
        assert(whole[a.len() as int] == t);
        assert(whole[a.len() as int] == b[a.len() as int]);
    } else if b.len() < a.len() {
        assert(whole[b.len() as int] == t);
        assert(whole[b.len() as int] == a[b.len() as int]);
    }
    assert(a =~= whole.take(a.len() as int));
    assert(b =~= whole.take(b.len() as int));
    assert(ra =~= whole.skip(a.len() as int + 1));
    assert(rb =~= whole.skip(b.len() as int + 1));
}

proof fn lemma_u64_le_injective(a: u64, b: u64)
    requires
        u64_le(a) == u64_le(b),
    ensures
        a == b,
{
    assert(u64_le(a)[0] == u64_le(b)[0]);
    assert(u64_le(a)[1] == u64_le(b)[1]);
    assert(u64_le(a)[2] == u64_le(b)[2]);
    assert(u64_le(a)[3] == u64_le(b)[3]);
    assert(u64_le(a)[4] == u64_le(b)[4]);
    assert(u64_le(a)[5] == u64_le(b)[5]);
    assert(u64_le(a)[6] == u64_le(b)[6]);
    assert(u64_le(a)[7] == u64_le(b)[7]);
    assert(
        a as u8 == b as u8 && (a >> 8) as u8 == (b >> 8) as u8 && (a >> 16) as u8 == (b >> 16) as u8
        && (a >> 24) as u8 == (b >> 24) as u8 && (a >> 32) as u8 == (b >> 32) as u8
        && (a >> 40) as u8 == (b >> 40) as u8 && (a >> 48) as u8 == (b >> 48) as u8
        && (a >> 56) as u8 == (b >> 56) as u8 ==> a == b
    ) by (bit_vector);
}

/// Two sequences that start alike, each followed by its own rest.
proof fn lemma_prefix_split(a: Seq<u8>, ra: Seq<u8>, b: Seq<u8>, rb: Seq<u8>)
    requires
        a + ra == b + rb,
        a.len() == b.len(),
    ensures
        a == b,
        ra == rb,
{
    assert(a =~= (a + ra).take(a.len() as int));
    assert(b =~= (b + rb).take(b.len() as int));
    assert(ra =~= (a + ra).skip(a.len() as int));
    assert(rb =~= (b + rb).skip(b.len() as int));
}

impl VecReader {
    /// Reads up to the next `terminator` and past it, and returns the bytes
    /// before it. Without a terminator ahead, fails with `CorruptedFile` and
    /// leaves the reader as it was.
    pub fn read_until(&mut self, terminator: u8) -> (r: Result<Vec<u8>>)
        requires
            old(self).wf(),
        ensures
            final(self).wf(),
            final(self).data() == old(self).data(),
            r is Ok <==> old(self).remaining().contains(terminator),
            r is Ok ==> {
                let v = r->Ok_0@;
                &&& forall|i: int| 0 <= i < v.len() ==> v[i] != terminator
                &&& old(self).remaining() == v + seq![terminator] + final(self).remaining()
            },
            r is Err ==> r->Err_0.kind_of() == ErrorKind::CorruptedFile && final(self).position() == old(self).position(),
    {
        let rest = self.rest();
        let mut length: usize = 0;
        while length < rest.len() && rest[length] != terminator
            invariant
                length <= rest@.len(),
                forall|i: int| 0 <= i < length ==> rest@[i] != terminator,
            decreases rest@.len() - length,
        {
            length = length + 1;
        }
        if length == rest.len() {
            assert(!rest@.contains(terminator));
            return Err(ErrorKind::CorruptedFile.without_source_error());
        }
        let res = copy_range(rest, 0, length);
        proof {
            let old_rest = old(self).remaining();
            assert(old_rest =~= res@ + seq![terminator] + old_rest.skip(length + 1));
        }
        self.consume(length + 1);
        assert(self.remaining() =~= old(self).remaining().skip(length + 1));
        Ok(res)
    }

    /// Reads a NUL-terminated UTF-8 string. Fails with `CorruptedFile` where no
    /// NUL follows and with `EncodingError` where the bytes are not UTF-8.
    pub fn read_string(&mut self) -> (r: Result<String>)
        requires
            old(self).wf(),
        ensures
            final(self).wf(),
            final(self).data() == old(self).data(),
            r is Ok ==> old(self).remaining() == string_wire(r->Ok_0@) + final(self).remaining(),
            r is Err ==> r->Err_0.kind_of() == ErrorKind::CorruptedFile || r->Err_0.kind_of() == ErrorKind::EncodingError,
            !old(self).remaining().contains(0u8) <==> (r is Err && r->Err_0.kind_of() == ErrorKind::CorruptedFile),
            r is Err && r->Err_0.kind_of() == ErrorKind::CorruptedFile ==> final(self).position() == old(self).position(),
            forall|b: Seq<u8>, rest: Seq<u8>|
                #![trigger b + seq![0u8] + rest]
                zero_free(b) && old(self).remaining() == b + seq![0u8] + rest ==> {
                    &&& final(self).remaining() == rest
                    &&& (r is Ok <==> valid_utf8(b))
                    &&& (r is Ok ==> r->Ok_0@ == decode_utf8(b))
                    &&& (!valid_utf8(b) ==> r->Err_0.kind_of() == ErrorKind::EncodingError)
                },
            forall|s: Seq<char>, rest: Seq<u8>|
                #![trigger string_wire(s) + rest]
                no_nul(s) && old(self).remaining() == string_wire(s) + rest
                    ==> r is Ok && r->Ok_0@ == s && final(self).remaining() == rest,
    {
        proof {
            assert forall|b: Seq<u8>, rest: Seq<u8>|
                #![trigger b + seq![0u8] + rest]
                zero_free(b) && old(self).remaining() == b + seq![0u8] + rest
                implies old(self).remaining().contains(0u8) by {
                assert(old(self).remaining()[b.len() as int] == 0u8);
            }
            assert forall|s: Seq<char>, rest: Seq<u8>|
                #![trigger string_wire(s) + rest]
                no_nul(s) && old(self).remaining() == string_wire(s) + rest
                implies old(self).remaining().contains(0u8) by {
                assert(old(self).remaining()[encode_utf8(s).len() as int] == 0u8);
            }
        }
        let bytes = self.read_until(0u8)?;
        let ghost b = bytes@;
        match string_from_utf8(bytes) {
            Some(s) => {
                proof {
                    vstd::utf8::decode_utf8_encode_utf8(b);
                    assert forall|s2: Seq<char>, rest: Seq<u8>|
                        #![trigger string_wire(s2) + rest]
                        no_nul(s2) && old(self).remaining() == string_wire(s2) + rest
                        implies s@ == s2 && self.remaining() == rest by {
                        lemma_encode_no_zero(s2);
                        assert(string_wire(s2) + rest =~= encode_utf8(s2) + seq![0u8] + rest);
                        lemma_terminated_split(b, self.remaining(), encode_utf8(s2), rest, 0u8);
                        encode_utf8_decode_utf8(s2);
                    }
                    assert(string_wire(s@) + self.remaining() =~= b + seq![0u8] + self.remaining());
                    assert forall|b2: Seq<u8>, rest: Seq<u8>|
                        #![trigger b2 + seq![0u8] + rest]
                        zero_free(b2) && old(self).remaining() == b2 + seq![0u8] + rest
                        implies self.remaining() == rest && b2 == b by {
                        lemma_terminated_split(b, self.remaining(), b2, rest, 0u8);
                    }
                }
                Ok(s)
            },
            None => {
                proof {
                    assert forall|s2: Seq<char>, rest: Seq<u8>|
                        #![trigger string_wire(s2) + rest]
                        no_nul(s2) && old(self).remaining() == string_wire(s2) + rest
                        implies false by {
                        lemma_encode_no_zero(s2);
                        assert(string_wire(s2) + rest =~= encode_utf8(s2) + seq![0u8] + rest);
                        lemma_terminated_split(b, self.remaining(), encode_utf8(s2), rest, 0u8);
                        vstd::utf8::encode_utf8_valid_utf8(s2);
                    }
                    assert forall|b2: Seq<u8>, rest: Seq<u8>|
                        #![trigger b2 + seq![0u8] + rest]
                        zero_free(b2) && old(self).remaining() == b2 + seq![0u8] + rest
                        implies self.remaining() == rest && b2 == b by {
                        lemma_terminated_split(b, self.remaining(), b2, rest, 0u8);
                    }
                }
                Err(ErrorKind::EncodingError.without_source_error())
            },
        }
    }

    /// Reads a 64-bit little-endian integer. Fails with `CorruptedFile`, and
    /// leaves the reader as it was, where fewer than eight bytes remain.
    pub fn read_u64(&mut self) -> (r: Result<u64>)
        requires
            old(self).wf(),
        ensures
            final(self).wf(),
            final(self).data() == old(self).data(),
            r is Ok <==> old(self).remaining().len() >= 8,
            r is Ok ==> old(self).remaining() == u64_le(r->Ok_0) + final(self).remaining(),
            r is Err ==> r->Err_0.kind_of() == ErrorKind::CorruptedFile && final(self).position() == old(self).position(),
    {
        let rest = self.rest();
        if rest.len() < 8 {
            return Err(ErrorKind::CorruptedFile.without_source_error());
        }
        let b0 = rest[0];
        let b1 = rest[1];
        let b2 = rest[2];
        let b3 = rest[3];
        let b4 = rest[4];
        let b5 = rest[5];
        let b6 = rest[6];
        let b7 = rest[7];
        let v: u64 = (b0 as u64) | ((b1 as u64) << 8) | ((b2 as u64) << 16) | ((b3 as u64) << 24)
            | ((b4 as u64) << 32) | ((b5 as u64) << 40) | ((b6 as u64) << 48) | ((b7 as u64) << 56);
        assert(v as u8 == b0 && (v >> 8) as u8 == b1 && (v >> 16) as u8 == b2 && (v >> 24) as u8 == b3
            && (v >> 32) as u8 == b4 && (v >> 40) as u8 == b5 && (v >> 48) as u8 == b6
            && (v >> 56) as u8 == b7) by (bit_vector)
            requires
                v == (b0 as u64) | ((b1 as u64) << 8) | ((b2 as u64) << 16) | ((b3 as u64) << 24)
                    | ((b4 as u64) << 32) | ((b5 as u64) << 40) | ((b6 as u64) << 48) | ((b7 as u64) << 56);
        self.consume(8);
        assert(old(self).remaining() =~= u64_le(v) + self.remaining());
        Ok(v)
    }
}


/// Every string of the fields is free of NUL.
pub open spec fn fields_clean(fields: Seq<(Seq<char>, Seq<char>)>) -> bool {
    forall|i: int| 0 <= i < fields.len() ==> no_nul((#[trigger] fields[i]).0) && no_nul(fields[i].1)
}

proof fn lemma_fields_wire_concat(a: Seq<(Seq<char>, Seq<char>)>, b: Seq<(Seq<char>, Seq<char>)>)
    ensures
        fields_wire(a + b) == fields_wire(a) + fields_wire(b),
    decreases b.len(),
{
    if b.len() == 0 {
        assert(a + b =~= a);
        assert(fields_wire(a) + fields_wire(b) =~= fields_wire(a));
    } else {
        lemma_fields_wire_concat(a, b.drop_last());
        assert((a + b).drop_last() =~= a + b.drop_last());
        assert((a + b).last() == b.last());
        assert(fields_wire(a + b) =~= fields_wire(a) + fields_wire(b));
    }
}

proof fn lemma_fields_wire_front(f: Seq<(Seq<char>, Seq<char>)>)
    requires
        f.len() > 0,
    ensures
        fields_wire(f) == string_wire(f[0].0) + string_wire(f[0].1) + fields_wire(f.drop_first()),
{
    let head = f.take(1);
    lemma_fields_wire_concat(head, f.drop_first());
    assert(head + f.drop_first() =~= f);
    assert(head.drop_last() =~= Seq::<(Seq<char>, Seq<char>)>::empty());
    assert(head.last() == f[0]);
    assert(fields_wire(head.drop_last()) =~= Seq::<u8>::empty());
    assert(fields_wire(head) =~= string_wire(f[0].0) + string_wire(f[0].1));
}

/// Splits `string_wire(s) + rest` the one way it can be split.
proof fn lemma_string_wire_unique(s1: Seq<char>, r1: Seq<u8>, s2: Seq<char>, r2: Seq<u8>)
    requires
        no_nul(s1),
        no_nul(s2),
        string_wire(s1) + r1 == string_wire(s2) + r2,
    ensures
        s1 == s2,
        r1 == r2,
{
    lemma_encode_no_zero(s1);
    lemma_encode_no_zero(s2);
    assert(string_wire(s1) + r1 =~= encode_utf8(s1) + seq![0u8] + r1);
    assert(string_wire(s2) + r2 =~= encode_utf8(s2) + seq![0u8] + r2);
    lemma_terminated_split(encode_utf8(s1), r1, encode_utf8(s2), r2, 0u8);
    encode_utf8_decode_utf8(s1);
    encode_utf8_decode_utf8(s2);
}

proof fn lemma_fields_wire_unique(
    f1: Seq<(Seq<char>, Seq<char>)>,
    r1: Seq<u8>,
    f2: Seq<(Seq<char>, Seq<char>)>,
    r2: Seq<u8>,
)
    requires
        fields_clean(f1),
        fields_clean(f2),
        f1.len() == f2.len(),
        fields_wire(f1) + r1 == fields_wire(f2) + r2,
    ensures
        f1 == f2,
        r1 == r2,
    decreases f1.len(),
{
    if f1.len() == 0 {
        assert(fields_wire(f1) + r1 =~= r1);
        assert(fields_wire(f2) + r2 =~= r2);
        assert(f1 =~= f2);
    } else {
        lemma_fields_wire_front(f1);
        lemma_fields_wire_front(f2);
        let t1 = fields_wire(f1.drop_first()) + r1;
        let t2 = fields_wire(f2.drop_first()) + r2;
        assert(fields_wire(f1) + r1 =~= string_wire(f1[0].0) + (string_wire(f1[0].1) + t1));
        assert(fields_wire(f2) + r2 =~= string_wire(f2[0].0) + (string_wire(f2[0].1) + t2));
        assert(fields_clean(f1) ==> no_nul(f1[0].0) && no_nul(f1[0].1));
        assert(fields_clean(f2) ==> no_nul(f2[0].0) && no_nul(f2[0].1));
        lemma_string_wire_unique(f1[0].0, string_wire(f1[0].1) + t1, f2[0].0, string_wire(f2[0].1) + t2);
        lemma_string_wire_unique(f1[0].1, t1, f2[0].1, t2);
        assert(fields_clean(f1.drop_first())) by {
            assert forall|i: int| 0 <= i < f1.drop_first().len() implies no_nul((#[trigger] f1.drop_first()[i]).0) && no_nul(f1.drop_first()[i].1) by {
                assert(f1.drop_first()[i] == f1[i + 1]);
            }
        }
        assert(fields_clean(f2.drop_first())) by {
            assert forall|i: int| 0 <= i < f2.drop_first().len() implies no_nul((#[trigger] f2.drop_first()[i]).0) && no_nul(f2.drop_first()[i].1) by {
                assert(f2.drop_first()[i] == f2[i + 1]);
            }
        }
        lemma_fields_wire_unique(f1.drop_first(), r1, f2.drop_first(), r2);
        assert(f1 =~= f2) by {
            assert(f1 =~= seq![f1[0]] + f1.drop_first());
            assert(f2 =~= seq![f2[0]] + f2.drop_first());
        }
    }
}

/// Sets the field `name` to `value`, in place where a field of that name exists.
pub fn insert_field(fields: &mut Vec<(String, String)>, name: String, value: String)
    requires
        unique_names(fields_view(old(fields)@)),
    ensures
        fields_view(final(fields)@) == with_field(fields_view(old(fields)@), name@, value@),
        unique_names(fields_view(final(fields)@)),
{
    let ghost fv = fields_view(fields@);
    let mut j: usize = 0;
    while j < fields.len()
        invariant
            j <= fields@.len(),
            fields@ == old(fields)@,
            fv == fields_view(fields@),
            unique_names(fv),
            forall|k: int| 0 <= k < j ==> fv[k].0 != name@,
        decreases fields@.len() - j,
    {
        if fields[j].0 == name {
            proof {
                assert(fv[j as int].0 == name@);
                let c = choose|c: int| 0 <= c < fv.len() && fv[c].0 == name@;
                assert(fv[j as int].0 == name@);
                if c != j {
                    if c < j {
                        assert(fv[c].0 != fv[j as int].0);
                    } else {
                        assert(fv[j as int].0 != fv[c].0);
                    }
                }
            }
            fields[j] = (name, value);
            proof {
                assert(fields_view(fields@) =~= with_field(fv, name@, value@));
                let nv = fields_view(fields@);
                assert forall|a: int, b: int| 0 <= a < b < nv.len() implies #[trigger] nv[a].0 != #[trigger] nv[b].0 by {
                    if a != j && b != j {
                        assert(nv[a] == fv[a] && nv[b] == fv[b]);
                    } else if a == j {
                        assert(nv[b] == fv[b]);
                        assert(fv[a].0 != fv[b].0);
                    } else {
                        assert(nv[a] == fv[a]);
                        assert(fv[a].0 != fv[b].0);
                    }
                }
            }
            return;
        }
        j = j + 1;
    }
    fields.push((name, value));
    proof {
        assert(!exists|c: int| 0 <= c < fv.len() && fv[c].0 == name@);
        assert(fields_view(fields@) =~= with_field(fv, name@, value@));
        let nv = fields_view(fields@);
        assert forall|a: int, b: int| 0 <= a < b < nv.len() implies #[trigger] nv[a].0 != #[trigger] nv[b].0 by {
            if b < fv.len() {
                assert(nv[a] == fv[a] && nv[b] == fv[b]);
            } else {
                assert(nv[a] == fv[a]);
            }
        }
    }
}


/// `x` is a strict prefix of `y`: bytes that end before `y` does.
pub open spec fn proper_prefix(x: Seq<u8>, y: Seq<u8>) -> bool {
    x.len() < y.len() && x == y.take(x.len() as int)
}

/// `bytes` are the count and fields of `fields`, cut before their end.
pub open spec fn cut_fields(bytes: Seq<u8>, fields: Seq<(Seq<char>, Seq<char>)>) -> bool {
    &&& fields_clean(fields)
    &&& fields.len() <= u64::MAX
    &&& proper_prefix(bytes, u64_le(fields.len() as u64) + fields_wire(fields))
}

/// `bytes` are the encoding of the encodable record `p`, cut before its end.
pub open spec fn cut_record(bytes: Seq<u8>, p: PasswordView) -> bool {
    &&& p.encodable()
    &&& p.fields.len() <= u64::MAX
    &&& proper_prefix(bytes, record_wire(p))
}

/// A strict prefix of `a + b` ends inside `a` or is `a` and a strict prefix of `b`.
proof fn lemma_cut_split(x: Seq<u8>, a: Seq<u8>, b: Seq<u8>)
    requires
        proper_prefix(x, a + b),
    ensures
        x.len() < a.len() ==> x == a.take(x.len() as int),
        x.len() >= a.len() ==> x == a + x.skip(a.len() as int) && proper_prefix(x.skip(a.len() as int), b),
{
    if x.len() < a.len() {
        assert(x =~= a.take(x.len() as int));
    } else {
        assert(x =~= a + x.skip(a.len() as int));
        assert(x.skip(a.len() as int) =~= b.take(x.len() - a.len()));
    }
}

/// A strict prefix of a string on the wire followed by `y` either holds no zero
/// byte or is that whole string followed by a strict prefix of `y`.
proof fn lemma_cut_string(x: Seq<u8>, s: Seq<char>, y: Seq<u8>)
    requires
        no_nul(s),
        proper_prefix(x, string_wire(s) + y),
    ensures
        x.len() < string_wire(s).len() ==> !x.contains(0u8),
        x.len() >= string_wire(s).len() ==> x == string_wire(s) + x.skip(string_wire(s).len() as int)
            && proper_prefix(x.skip(string_wire(s).len() as int), y),
{
    lemma_cut_split(x, string_wire(s), y);
    if x.len() < string_wire(s).len() {
        lemma_encode_no_zero(s);
        assert forall|i: int| 0 <= i < x.len() implies x[i] != 0u8 by {
            assert(x[i] == string_wire(s)[i]);
            assert(string_wire(s)[i] == encode_utf8(s)[i]);
        }
    }
}

/// `bytes` are the count and the encoding of `fields`, which read back as
/// themselves, followed by `rest`.
pub open spec fn encodes_fields(bytes: Seq<u8>, fields: Seq<(Seq<char>, Seq<char>)>, rest: Seq<u8>) -> bool {
    &&& unique_names(fields)
    &&& fields_clean(fields)
    &&& fields.len() <= u64::MAX
    &&& bytes == u64_le(fields.len() as u64) + fields_wire(fields) + rest
}

/// `bytes` are the encoding of the encodable record `p`, followed by `rest`.
pub open spec fn encodes_record(bytes: Seq<u8>, p: PasswordView, rest: Seq<u8>) -> bool {
    &&& p.encodable()
    &&& p.fields.len() <= u64::MAX
    &&& bytes == record_wire(p) + rest
}

proof fn lemma_encodes_fields_unique(
    bytes: Seq<u8>,
    f1: Seq<(Seq<char>, Seq<char>)>,
    r1: Seq<u8>,
    f2: Seq<(Seq<char>, Seq<char>)>,
    r2: Seq<u8>,
)
    requires
        encodes_fields(bytes, f1, r1),
        encodes_fields(bytes, f2, r2),
    ensures
        f1 == f2,
        r1 == r2,
{
    let t1 = fields_wire(f1) + r1;
    let t2 = fields_wire(f2) + r2;
    assert(bytes =~= u64_le(f1.len() as u64) + t1);
    assert(bytes =~= u64_le(f2.len() as u64) + t2);
    lemma_prefix_split(u64_le(f1.len() as u64), t1, u64_le(f2.len() as u64), t2);
    lemma_u64_le_injective(f1.len() as u64, f2.len() as u64);
    lemma_fields_wire_unique(f1, r1, f2, r2);
}

impl VecReader {
    /// Reads a count and that many name and value strings; a later field of a
    /// name already read replaces its value.
    pub fn read_additional_fields(&mut self) -> (r: Result<Vec<(String, String)>>)
        requires
            old(self).wf(),
        ensures
            final(self).wf(),
            final(self).data() == old(self).data(),
            r is Ok ==> unique_names(fields_view(r->Ok_0@)),
            r is Ok ==> exists|pairs: Seq<(Seq<char>, Seq<char>)>|
                #[trigger] fields_from_pairs(pairs) == fields_view(r->Ok_0@)
                    && pairs.len() <= u64::MAX
                    && old(self).remaining() == u64_le(pairs.len() as u64) + fields_wire(pairs) + final(self).remaining(),
            r is Err ==> r->Err_0.kind_of() == ErrorKind::CorruptedFile || r->Err_0.kind_of() == ErrorKind::EncodingError,
            forall|fields: Seq<(Seq<char>, Seq<char>)>, rest: Seq<u8>|
                #[trigger] encodes_fields(old(self).remaining(), fields, rest)
                    ==> r is Ok && fields_view(r->Ok_0@) == fields && final(self).remaining() == rest,
            forall|fields: Seq<(Seq<char>, Seq<char>)>|
                #[trigger] cut_fields(old(self).remaining(), fields)
                    ==> r is Err && r->Err_0.kind_of() == ErrorKind::CorruptedFile,
    {
        let ghost bytes = old(self).remaining();
        let ghost cut = exists|f: Seq<(Seq<char>, Seq<char>)>| cut_fields(bytes, f);
        let ghost ctarget: Seq<(Seq<char>, Seq<char>)> = if cut {
            choose|f: Seq<(Seq<char>, Seq<char>)>| cut_fields(bytes, f)
        } else {
            Seq::empty()
        };
        let ghost premise = exists|f: Seq<(Seq<char>, Seq<char>)>, rest: Seq<u8>| encodes_fields(bytes, f, rest);
        let ghost picked: (Seq<(Seq<char>, Seq<char>)>, Seq<u8>) = if premise {
            choose|f: Seq<(Seq<char>, Seq<char>)>, rest: Seq<u8>| encodes_fields(bytes, f, rest)
        } else {
            (Seq::empty(), Seq::empty())
        };
        let ghost target = picked.0;
        let ghost trest = picked.1;
        let count = match self.read_u64() {
            Ok(c) => c,
            Err(e) => {
                proof {
                    assert forall|f: Seq<(Seq<char>, Seq<char>)>, rest: Seq<u8>|
                        #[trigger] encodes_fields(bytes, f, rest) implies false by {
                        assert(bytes.len() >= 8);
                    }
                }
                return Err(e);
            },
        };
        let ghost start = self.remaining();
        proof {
            if cut {
                let n = ctarget.len() as u64;
                lemma_cut_split(bytes, u64_le(n), fields_wire(ctarget));
                if bytes.len() >= 8 {
                    lemma_prefix_split(u64_le(count), start, u64_le(n), bytes.skip(8));
                    lemma_u64_le_injective(count, n);
                    assert(ctarget.skip(0) =~= ctarget);
                }
            }
            if premise {
                assert(bytes =~= u64_le(target.len() as u64) + (fields_wire(target) + trest));
                lemma_prefix_split(u64_le(count), start, u64_le(target.len() as u64), fields_wire(target) + trest);
                lemma_u64_le_injective(count, target.len() as u64);
                assert(target.skip(0) =~= target);
            }
        }
        let mut fields: Vec<(String, String)> = Vec::new();
        let ghost mut pairs: Seq<(Seq<char>, Seq<char>)> = Seq::empty();
        let mut i: u64 = 0;
        assert(fields_view(fields@) =~= fields_from_pairs(pairs));
        while i < count
            invariant
                self.wf(),
                self.data() == old(self).data(),
                i <= count,
                pairs.len() == i,
                start == fields_wire(pairs) + self.remaining(),
                fields_view(fields@) == fields_from_pairs(pairs),
                unique_names(fields_view(fields@)),
                bytes == old(self).remaining(),
                premise == exists|f: Seq<(Seq<char>, Seq<char>)>, rest: Seq<u8>| encodes_fields(bytes, f, rest),
                premise ==> encodes_fields(bytes, target, trest),
                premise ==> count == target.len() && pairs == target.take(i as int)
                    && self.remaining() == fields_wire(target.skip(i as int)) + trest
                    && fields_clean(target),
                cut == exists|f: Seq<(Seq<char>, Seq<char>)>| cut_fields(bytes, f),
                cut ==> count == ctarget.len() && fields_clean(ctarget)
                    && proper_prefix(self.remaining(), fields_wire(ctarget.skip(i as int))),
            decreases count - i,
        {
            proof {
                if cut {
                    lemma_fields_wire_front(ctarget.skip(i as int));
                    let t = ctarget[i as int];
                    assert(ctarget.skip(i as int)[0] == t);
                    assert(ctarget.skip(i as int).drop_first() =~= ctarget.skip(i + 1));
                    assert(fields_wire(ctarget.skip(i as int)) =~= string_wire(t.0) + (string_wire(t.1) + fields_wire(ctarget.skip(i + 1))));
                    assert(no_nul(t.0) && no_nul(t.1));
                    lemma_cut_string(self.remaining(), t.0, string_wire(t.1) + fields_wire(ctarget.skip(i + 1)));
                }
            }
            proof {
                if premise {
                    lemma_fields_wire_front(target.skip(i as int));
                    let t = target[i as int];
                    assert(target.skip(i as int)[0] == t);
                    assert(target.skip(i as int).drop_first() =~= target.skip(i + 1));
                    assert(self.remaining() =~= string_wire(t.0) + (string_wire(t.1) + (fields_wire(target.skip(i + 1)) + trest)));
                    assert(no_nul(t.0) && no_nul(t.1));
                }
            }
            let ghost before = self.remaining();
            let key = match self.read_string() {
                Ok(k) => k,
                Err(e) => {
                    proof {
                        if premise {
                            let t = target[i as int];
                            assert(before == string_wire(t.0) + (string_wire(t.1) + (fields_wire(target.skip(i + 1)) + trest)));
                            assert(no_nul(t.0) && no_nul(t.1));
                        }
                        assert(!premise);
                        assert forall|f: Seq<(Seq<char>, Seq<char>)>, rest: Seq<u8>|
                            #[trigger] encodes_fields(bytes, f, rest) implies false by {
                            assert(exists|f2: Seq<(Seq<char>, Seq<char>)>, r2: Seq<u8>| encodes_fields(bytes, f2, r2));
                        }
                        if cut {
                            let t = ctarget[i as int];
                            let y = string_wire(t.1) + fields_wire(ctarget.skip(i + 1));
                            if before.len() >= string_wire(t.0).len() {
                                assert(before == string_wire(t.0) + before.skip(string_wire(t.0).len() as int));
                            }
                        }
                        assert forall|f: Seq<(Seq<char>, Seq<char>)>| #[trigger] cut_fields(bytes, f)
                            implies e.kind_of() == ErrorKind::CorruptedFile by {
                            assert(cut);
                        }
                    }
                    return Err(e);
                },
            };
            let ghost mid = self.remaining();
            proof {
                if cut {
                    let t = ctarget[i as int];
                    let y = string_wire(t.1) + fields_wire(ctarget.skip(i + 1));
                    if before.len() < string_wire(t.0).len() {
                        assert(!before.contains(0u8));
                    }
                    assert(before == string_wire(t.0) + before.skip(string_wire(t.0).len() as int));
                    assert(mid == before.skip(string_wire(t.0).len() as int));
                    lemma_cut_string(mid, t.1, fields_wire(ctarget.skip(i + 1)));
                }
            }
            proof {
                if premise {
                    let t = target[i as int];
                    assert(mid =~= string_wire(t.1) + (fields_wire(target.skip(i + 1)) + trest));
                }
            }
            let value = match self.read_string() {
                Ok(v) => v,
                Err(e) => {
                    proof {
                        if premise {
                            let t = target[i as int];
                            assert(mid == string_wire(t.1) + (fields_wire(target.skip(i + 1)) + trest));
                            assert(no_nul(t.0) && no_nul(t.1));
                        }
                        assert(!premise);
                        assert forall|f: Seq<(Seq<char>, Seq<char>)>, rest: Seq<u8>|
                            #[trigger] encodes_fields(bytes, f, rest) implies false by {
                            assert(exists|f2: Seq<(Seq<char>, Seq<char>)>, r2: Seq<u8>| encodes_fields(bytes, f2, r2));
                        }
                        if cut {
                            let t = ctarget[i as int];
                            if mid.len() >= string_wire(t.1).len() {
                                assert(mid == string_wire(t.1) + mid.skip(string_wire(t.1).len() as int));
                            }
                        }
                        assert forall|f: Seq<(Seq<char>, Seq<char>)>| #[trigger] cut_fields(bytes, f)
                            implies e.kind_of() == ErrorKind::CorruptedFile by {
                            assert(cut);
                        }
                    }
                    return Err(e);
                },
            };
            proof {
                if cut {
                    let t = ctarget[i as int];
                    if mid.len() < string_wire(t.1).len() {
                        assert(!mid.contains(0u8));
                    }
                    assert(mid == string_wire(t.1) + mid.skip(string_wire(t.1).len() as int));
                    assert(self.remaining() == mid.skip(string_wire(t.1).len() as int));
                }
            }
            proof {
                let next = pairs.push((key@, value@));
                assert(next.drop_last() =~= pairs);
                assert(start =~= fields_wire(next) + self.remaining());
                if premise {
                    assert(next =~= target.take(i + 1));
                }
                pairs = next;
            }
            insert_field(&mut fields, key, value);
            i = i + 1;
        }
        proof {
            if premise {
                assert(target.take(i as int) =~= target);
                assert(target.skip(i as int) =~= Seq::<(Seq<char>, Seq<char>)>::empty());
                assert(fields_wire(Seq::<(Seq<char>, Seq<char>)>::empty()) =~= Seq::<u8>::empty());
                assert(self.remaining() =~= trest);
                lemma_fields_from_unique_pairs(target);
                assert forall|f: Seq<(Seq<char>, Seq<char>)>, rest: Seq<u8>|
                    #[trigger] encodes_fields(bytes, f, rest)
                    implies fields_view(fields@) == f && self.remaining() == rest by {
                    lemma_encodes_fields_unique(bytes, f, rest, target, trest);
                }
            }
            assert(bytes =~= u64_le(pairs.len() as u64) + fields_wire(pairs) + self.remaining());
            if cut {
                assert(ctarget.skip(i as int) =~= Seq::<(Seq<char>, Seq<char>)>::empty());
                assert(fields_wire(Seq::<(Seq<char>, Seq<char>)>::empty()) =~= Seq::<u8>::empty());
            }
            assert forall|f: Seq<(Seq<char>, Seq<char>)>| #[trigger] cut_fields(bytes, f) implies false by {
                assert(cut);
            }
        }
        Ok(fields)
    }
}


/// The encoding of a record, split where `read_password` reads it, without
/// what follows.
proof fn lemma_record_layout(p: PasswordView)
    ensures
        record_wire(p) == string_wire(p.password) + (string_wire(p.domain) + (string_wire(p.username)
            + (u64_le(p.fields.len() as u64) + fields_wire(p.fields)))),
        p.encodable() ==> fields_clean(p.fields),
{
    assert(record_wire(p) =~= string_wire(p.password) + (string_wire(p.domain) + (string_wire(p.username)
        + (u64_le(p.fields.len() as u64) + fields_wire(p.fields)))));
}

/// The encoding of a record, split where `read_password` reads it.
proof fn lemma_record_wire_parts(p: PasswordView, rest: Seq<u8>)
    ensures
        record_wire(p) + rest == string_wire(p.password) + (string_wire(p.domain) + (string_wire(p.username)
            + (u64_le(p.fields.len() as u64) + fields_wire(p.fields) + rest))),
{
    assert(record_wire(p) + rest =~= string_wire(p.password) + (string_wire(p.domain) + (string_wire(p.username)
        + (u64_le(p.fields.len() as u64) + fields_wire(p.fields) + rest))));
}

proof fn lemma_record_fields_encoded(p: PasswordView, rest: Seq<u8>)
    requires
        p.encodable(),
        p.fields.len() <= u64::MAX,
    ensures
        encodes_fields(u64_le(p.fields.len() as u64) + fields_wire(p.fields) + rest, p.fields, rest),
{
}

impl VecReader {
    /// Reads a record: password, domain and username strings, then the fields.
    pub fn read_password(&mut self) -> (r: Result<Password>)
        requires
            old(self).wf(),
        ensures
            final(self).wf(),
            final(self).data() == old(self).data(),
            r is Ok ==> unique_names(r->Ok_0@.fields),
            r is Ok ==> exists|pairs: Seq<(Seq<char>, Seq<char>)>|
                #[trigger] fields_from_pairs(pairs) == r->Ok_0@.fields
                    && pairs.len() <= u64::MAX
                    && old(self).remaining() == record_wire(PasswordView { fields: pairs, ..r->Ok_0@ }) + final(self).remaining(),
            r is Err ==> r->Err_0.kind_of() == ErrorKind::CorruptedFile || r->Err_0.kind_of() == ErrorKind::EncodingError,
            forall|p: PasswordView, rest: Seq<u8>|
                #[trigger] encodes_record(old(self).remaining(), p, rest)
                    ==> r is Ok && r->Ok_0@ == p && final(self).remaining() == rest,
            forall|p: PasswordView|
                #[trigger] cut_record(old(self).remaining(), p)
                    ==> r is Err && r->Err_0.kind_of() == ErrorKind::CorruptedFile,
    {
        let ghost bytes = old(self).remaining();
        let password = match self.read_string() {
            Ok(s) => s,
            Err(e) => {
                proof {
                    assert forall|p: PasswordView, rest: Seq<u8>| #[trigger] encodes_record(bytes, p, rest) implies false by {
                        lemma_record_wire_parts(p, rest);
                    }
                    assert forall|p: PasswordView| #[trigger] cut_record(bytes, p)
                        implies e.kind_of() == ErrorKind::CorruptedFile by {
                        lemma_record_layout(p);
                        let y1 = string_wire(p.domain) + (string_wire(p.username) + (u64_le(p.fields.len() as u64) + fields_wire(p.fields)));
                        lemma_cut_string(bytes, p.password, y1);
                    }
                }
                return Err(e);
            },
        };
        let ghost after_password = self.remaining();
        let domain = match self.read_string() {
            Ok(s) => s,
            Err(e) => {
                proof {
                    assert forall|p: PasswordView, rest: Seq<u8>| #[trigger] encodes_record(bytes, p, rest) implies false by {
                        lemma_record_wire_parts(p, rest);
                    }
                    assert forall|p: PasswordView| #[trigger] cut_record(bytes, p)
                        implies e.kind_of() == ErrorKind::CorruptedFile by {
                        lemma_record_layout(p);
                        let y2 = string_wire(p.username) + (u64_le(p.fields.len() as u64) + fields_wire(p.fields));
                        let y1 = string_wire(p.domain) + y2;
                        lemma_cut_string(bytes, p.password, y1);
                        if bytes.len() >= string_wire(p.password).len() {
                            lemma_cut_string(after_password, p.domain, y2);
                        }
                    }
                }
                return Err(e);
            },
        };
        let ghost after_domain = self.remaining();
        let username = match self.read_string() {
            Ok(s) => s,
            Err(e) => {
                proof {
                    assert forall|p: PasswordView, rest: Seq<u8>| #[trigger] encodes_record(bytes, p, rest) implies false by {
                        lemma_record_wire_parts(p, rest);
                    }
                    assert forall|p: PasswordView| #[trigger] cut_record(bytes, p)
                        implies e.kind_of() == ErrorKind::CorruptedFile by {
                        lemma_record_layout(p);
                        let y3 = u64_le(p.fields.len() as u64) + fields_wire(p.fields);
                        let y2 = string_wire(p.username) + y3;
                        let y1 = string_wire(p.domain) + y2;
                        lemma_cut_string(bytes, p.password, y1);
                        if bytes.len() >= string_wire(p.password).len() {
                            lemma_cut_string(after_password, p.domain, y2);
                            if after_password.len() >= string_wire(p.domain).len() {
                                lemma_cut_string(after_domain, p.username, y3);
                            }
                        }
                    }
                }
                return Err(e);
            },
        };
        let ghost after_username = self.remaining();
        let additional_fields = match self.read_additional_fields() {
            Ok(f) => f,
            Err(e) => {
                proof {
                    assert forall|p: PasswordView, rest: Seq<u8>| #[trigger] encodes_record(bytes, p, rest) implies false by {
                        lemma_record_wire_parts(p, rest);
                        lemma_record_fields_encoded(p, rest);
                    }
                    assert forall|p: PasswordView| #[trigger] cut_record(bytes, p)
                        implies e.kind_of() == ErrorKind::CorruptedFile by {
                        lemma_record_layout(p);
                        let y3 = u64_le(p.fields.len() as u64) + fields_wire(p.fields);
                        let y2 = string_wire(p.username) + y3;
                        let y1 = string_wire(p.domain) + y2;
                        lemma_cut_string(bytes, p.password, y1);
                        if bytes.len() >= string_wire(p.password).len() {
                            lemma_cut_string(after_password, p.domain, y2);
                            if after_password.len() >= string_wire(p.domain).len() {
                                lemma_cut_string(after_domain, p.username, y3);
                                if after_domain.len() >= string_wire(p.username).len() {
                                    assert(cut_fields(after_username, p.fields));
                                }
                            }
                        }
                    }
                }
                return Err(e);
            },
        };
        let r = Password { password, domain, username, additional_fields };
        proof {
            assert forall|p: PasswordView, rest: Seq<u8>| #[trigger] encodes_record(bytes, p, rest)
                implies r@ == p && self.remaining() == rest by {
                lemma_record_wire_parts(p, rest);
                lemma_record_fields_encoded(p, rest);
            }
            let pairs = choose|pairs: Seq<(Seq<char>, Seq<char>)>|
                #[trigger] fields_from_pairs(pairs) == fields_view(r.additional_fields@)
                    && pairs.len() <= u64::MAX
                    && after_username == u64_le(pairs.len() as u64) + fields_wire(pairs) + self.remaining();
            let pv = PasswordView { fields: pairs, ..r@ };
            lemma_record_wire_parts(pv, self.remaining());
            assert(bytes == record_wire(pv) + self.remaining());
            assert forall|p: PasswordView| #[trigger] cut_record(bytes, p) implies false by {
                lemma_record_layout(p);
                let y3 = u64_le(p.fields.len() as u64) + fields_wire(p.fields);
                let y2 = string_wire(p.username) + y3;
                let y1 = string_wire(p.domain) + y2;
                lemma_cut_string(bytes, p.password, y1);
                if bytes.len() >= string_wire(p.password).len() {
                    lemma_cut_string(after_password, p.domain, y2);
                    if after_password.len() >= string_wire(p.domain).len() {
                        lemma_cut_string(after_domain, p.username, y3);
                        if after_domain.len() >= string_wire(p.username).len() {
                            assert(cut_fields(after_username, p.fields));
                        }
                    }
                }
            }
        }
        Ok(r)
    }
}

/// The bytes that `write_password` appends for an encodable record are read back
/// by `read_password` as that same record, whatever follows them.
pub proof fn lemma_record_round_trip(p: PasswordView, rest: Seq<u8>)
    requires
        p.encodable(),
        p.fields.len() <= u64::MAX,
    ensures
        encodes_record(record_wire(p) + rest, p, rest),
{
}


/// Every record of the list can be encoded and read back.
pub open spec fn all_encodable(ps: Seq<PasswordView>) -> bool {
    forall|i: int| 0 <= i < ps.len() ==> (#[trigger] ps[i]).encodable() && ps[i].fields.len() <= u64::MAX
}

/// An encoded record followed by some bytes splits only one way.
proof fn lemma_encodes_record_unique(bytes: Seq<u8>, p1: PasswordView, r1: Seq<u8>, p2: PasswordView, r2: Seq<u8>)
    requires
        encodes_record(bytes, p1, r1),
        encodes_record(bytes, p2, r2),
    ensures
        p1 == p2,
        r1 == r2,
{
    lemma_record_wire_parts(p1, r1);
    lemma_record_wire_parts(p2, r2);
    let f1 = u64_le(p1.fields.len() as u64) + fields_wire(p1.fields) + r1;
    let f2 = u64_le(p2.fields.len() as u64) + fields_wire(p2.fields) + r2;
    lemma_string_wire_unique(p1.password, string_wire(p1.domain) + (string_wire(p1.username) + f1),
        p2.password, string_wire(p2.domain) + (string_wire(p2.username) + f2));
    lemma_string_wire_unique(p1.domain, string_wire(p1.username) + f1, p2.domain, string_wire(p2.username) + f2);
    lemma_string_wire_unique(p1.username, f1, p2.username, f2);
    lemma_encodes_fields_unique(f1, p1.fields, r1, p2.fields, r2);
}

proof fn lemma_records_wire_concat(a: Seq<PasswordView>, b: Seq<PasswordView>)
    ensures
        records_wire(a + b) == records_wire(a) + records_wire(b),
    decreases b.len(),
{
    if b.len() == 0 {
        assert(a + b =~= a);
        assert(records_wire(a) + records_wire(b) =~= records_wire(a));
    } else {
        lemma_records_wire_concat(a, b.drop_last());
        assert((a + b).drop_last() =~= a + b.drop_last());
        assert((a + b).last() == b.last());
        assert(records_wire(a + b) =~= records_wire(a) + records_wire(b));
    }
}

/// The encoding of a list of records, split after its first record.
pub proof fn lemma_records_wire_front(ps: Seq<PasswordView>)
    requires
        ps.len() > 0,
    ensures
        records_wire(ps) == record_wire(ps[0]) + records_wire(ps.drop_first()),
{
    let head = ps.take(1);
    lemma_records_wire_concat(head, ps.drop_first());
    assert(head + ps.drop_first() =~= ps);
    assert(head.last() == ps[0]);
    assert(records_wire(head.drop_last()) =~= Seq::<u8>::empty());
    assert(records_wire(head) =~= record_wire(ps[0]));
}

proof fn lemma_record_wire_nonempty(p: PasswordView)
    ensures
        record_wire(p).len() > 0,
{
    assert(string_wire(p.password).len() > 0);
}

/// The encoding of a list of records of which each can be read back splits
/// into those records only one way.
pub(crate) proof fn lemma_records_wire_unique(p1: Seq<PasswordView>, p2: Seq<PasswordView>)
    requires
        all_encodable(p1),
        all_encodable(p2),
        records_wire(p1) == records_wire(p2),
    ensures
        p1 == p2,
    decreases p1.len(),
{
    if p1.len() == 0 {
        if p2.len() > 0 {
            lemma_records_wire_front(p2);
            lemma_record_wire_nonempty(p2[0]);
        }
        assert(p1 =~= p2);
    } else {
        lemma_records_wire_front(p1);
        if p2.len() == 0 {
            lemma_record_wire_nonempty(p1[0]);
            assert(false);
        } else {
            lemma_records_wire_front(p2);
            let bytes = records_wire(p1);
            assert(p1[0].encodable() && p1[0].fields.len() <= u64::MAX);
            assert(p2[0].encodable() && p2[0].fields.len() <= u64::MAX);
            lemma_encodes_record_unique(bytes, p1[0], records_wire(p1.drop_first()), p2[0], records_wire(p2.drop_first()));
            assert(all_encodable(p1.drop_first())) by {
                assert forall|i: int| 0 <= i < p1.drop_first().len() implies (#[trigger] p1.drop_first()[i]).encodable() && p1.drop_first()[i].fields.len() <= u64::MAX by {
                    assert(p1.drop_first()[i] == p1[i + 1]);
                }
            }
            assert(all_encodable(p2.drop_first())) by {
                assert forall|i: int| 0 <= i < p2.drop_first().len() implies (#[trigger] p2.drop_first()[i]).encodable() && p2.drop_first()[i].fields.len() <= u64::MAX by {
                    assert(p2.drop_first()[i] == p2[i + 1]);
                }
            }
            lemma_records_wire_unique(p1.drop_first(), p2.drop_first());
            assert(p1 =~= seq![p1[0]] + p1.drop_first());
            assert(p2 =~= seq![p2[0]] + p2.drop_first());
        }
    }
}

} // verus!
