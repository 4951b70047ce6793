//! The wire formats of a token: MessagePack, and hexadecimal or base64 text
//! of it.

use crate::caveat::{self, Caveat, CaveatModel};
use crate::crypto::SIGNATURE_SIZE;
use crate::error::StroopwafelError;
use crate::text;
use crate::stroopwafel::{self, Stroopwafel, TokenModel};
use base64::Engine;
use vstd::prelude::*;

verus! {

/// Largest length a MessagePack header can carry.
pub open spec fn fits_u32(n: nat) -> bool {
    n < 0x1_0000_0000
}

/// `n` as two big-endian bytes.
pub open spec fn be16(n: nat) -> Seq<u8> {
    seq![(n / 0x100) as u8, (n % 0x100) as u8]
}

/// `n` as four big-endian bytes.
pub open spec fn be32(n: nat) -> Seq<u8> {
    seq![(n / 0x100_0000) as u8, ((n / 0x1_0000) % 0x100) as u8, ((n / 0x100) % 0x100) as u8, (n % 0x100) as u8]
}

/// The header forms of one MessagePack family (bin, str or array): a
/// "fix" form holding lengths below `fix_limit` in the tag byte itself, an
/// optional one-byte-length form, and two- and four-byte-length forms.
pub struct LenForm {
    pub fix_base: u8,
    pub fix_limit: u8,
    pub has_tag8: bool,
    pub tag8: u8,
    pub tag16: u8,
    pub tag32: u8,
}

/// The shortest header of family `f` for length `n`.
pub open spec fn len_header(f: LenForm, n: nat) -> Seq<u8> {
    if n < f.fix_limit {
        seq![(f.fix_base + n) as u8]
    } else if f.has_tag8 && n < 0x100 {
        seq![f.tag8, n as u8]
    } else if n < 0x1_0000 {
        seq![f.tag16] + be16(n)
    } else {
        seq![f.tag32] + be32(n)
    }
}

/// The bin family: `0xc4`, `0xc5`, `0xc6`.
pub open spec fn bin_form() -> LenForm {
    LenForm { fix_base: 0, fix_limit: 0, has_tag8: true, tag8: 0xc4, tag16: 0xc5, tag32: 0xc6 }
}

/// The str family: fixstr `0xa0..=0xbf`, `0xd9`, `0xda`, `0xdb`.
pub open spec fn str_form() -> LenForm {
    LenForm { fix_base: 0xa0, fix_limit: 32, has_tag8: true, tag8: 0xd9, tag16: 0xda, tag32: 0xdb }
}

/// The array family: fixarray `0x90..=0x9f`, `0xdc`, `0xdd`.
pub open spec fn array_form() -> LenForm {
    LenForm { fix_base: 0x90, fix_limit: 16, has_tag8: false, tag8: 0, tag16: 0xdc, tag32: 0xdd }
}

/// The shortest MessagePack header of a binary of length `n`.
pub open spec fn bin_header(n: nat) -> Seq<u8> {
    len_header(bin_form(), n)
}

/// The shortest MessagePack header of a string of `n` UTF-8 bytes.
pub open spec fn str_header(n: nat) -> Seq<u8> {
    len_header(str_form(), n)
}

/// The shortest MessagePack header of an array of `n` elements.
pub open spec fn array_header(n: nat) -> Seq<u8> {
    len_header(array_form(), n)
}

/// MessagePack nil.
pub open spec fn nil() -> Seq<u8> {
    seq![0xc0u8]
}

/// A binary value.
pub open spec fn enc_bin(b: Seq<u8>) -> Seq<u8> {
    bin_header(b.len()) + b
}

/// A string value, as its UTF-8 bytes.
pub open spec fn enc_str(s: Seq<char>) -> Seq<u8> {
    str_header(vstd::utf8::encode_utf8(s).len()) + vstd::utf8::encode_utf8(s)
}

/// An optional binary value: nil when absent.
pub open spec fn enc_opt_bin(o: Option<Seq<u8>>) -> Seq<u8> {
    match o {
        Some(b) => enc_bin(b),
        None => nil(),
    }
}

/// An optional string value: nil when absent.
pub open spec fn enc_opt_str(o: Option<Seq<char>>) -> Seq<u8> {
    match o {
        Some(s) => enc_str(s),
        None => nil(),
    }
}

/// A caveat: the array `[caveat_id, verification_key_id, location]`.
pub open spec fn enc_caveat(c: CaveatModel) -> Seq<u8> {
    array_header(3) + enc_bin(c.caveat_id) + enc_opt_bin(c.verification_key_id) + enc_opt_str(c.location)
}

/// The caveats one after the other.
pub open spec fn enc_caveats(cs: Seq<CaveatModel>) -> Seq<u8>
    decreases cs.len(),
{
    if cs.len() == 0 {
        Seq::empty()
    } else {
        enc_caveats(cs.drop_last()) + enc_caveat(cs.last())
    }
}

/// The MessagePack encoding of a token: the array
/// `[location, identifier, caveats, signature]`.
pub open spec fn encode_token(t: TokenModel) -> Seq<u8> {
    array_header(4) + enc_opt_str(t.location) + enc_bin(t.identifier) + array_header(t.caveats.len())
        + enc_caveats(t.caveats) + enc_bin(t.signature)
}

/// Every length in caveat `c` fits a MessagePack header.
pub open spec fn caveat_encodable(c: CaveatModel) -> bool {
    &&& fits_u32(c.caveat_id.len())
    &&& (c.verification_key_id matches Some(k) ==> fits_u32(k.len()))
    &&& (c.location matches Some(l) ==> fits_u32(vstd::utf8::encode_utf8(l).len()))
}

/// Every length in token `t` fits a MessagePack header, and its signature
/// has the size of a tag.
pub open spec fn encodable(t: TokenModel) -> bool {
    &&& (t.location matches Some(l) ==> fits_u32(vstd::utf8::encode_utf8(l).len()))
    &&& fits_u32(t.identifier.len())
    &&& fits_u32(t.caveats.len())
    &&& forall|i: int| 0 <= i < t.caveats.len() ==> caveat_encodable(#[trigger] t.caveats[i])
    &&& t.signature.len() == SIGNATURE_SIZE
}

/// Appends `b` to `out`.
fn append_bytes(out: &mut Vec<u8>, b: &[u8])
    ensures
        final(out)@ == old(out)@ + b@,
{
    let ghost start = out@;
    let mut i: usize = 0;
    while i < b.len()
        invariant
            i <= b@.len(),
            out@ == start + b@.take(i as int),
        decreases b@.len() - i,
    {
        out.push(b[i]);
        i += 1;
        assert(out@ =~= start + b@.take(i as int));
    }
    assert(b@.take(i as int) =~= b@);
}

/// Appends `n` as two big-endian bytes.
fn push_be16(out: &mut Vec<u8>, n: usize)
    requires
        n < 0x1_0000,
    ensures
        final(out)@ == old(out)@ + be16(n as nat),
{
    out.push((n / 0x100) as u8);
    out.push((n % 0x100) as u8);
    assert(final(out)@ =~= old(out)@ + be16(n as nat));
}

/// Appends `n` as four big-endian bytes.
fn push_be32(out: &mut Vec<u8>, n: usize)
    requires
        fits_u32(n as nat),
    ensures
        final(out)@ == old(out)@ + be32(n as nat),
{
    out.push((n / 0x100_0000) as u8);
    out.push(((n / 0x1_0000) % 0x100) as u8);
    out.push(((n / 0x100) % 0x100) as u8);
    out.push((n % 0x100) as u8);
    assert(final(out)@ =~= old(out)@ + be32(n as nat));
}

/// Appends a binary value.
fn push_bin(out: &mut Vec<u8>, b: &[u8])
    requires
        fits_u32(b@.len()),
    ensures
        final(out)@ == old(out)@ + enc_bin(b@),
{
    let n = b.len();
    let ghost start = out@;
    if n < 0x100 {
        out.push(0xc4);
        out.push(n as u8);
        assert(out@ =~= start + bin_header(n as nat));
    } else if n < 0x1_0000 {
        out.push(0xc5);
        push_be16(out, n);
        assert(out@ =~= start + bin_header(n as nat));
    } else {
        out.push(0xc6);
        push_be32(out, n);
        assert(out@ =~= start + bin_header(n as nat));
    }
    append_bytes(out, b);
    assert(out@ =~= start + enc_bin(b@));
}

/// Appends a string value.
fn push_str(out: &mut Vec<u8>, s: &str)
    requires
        fits_u32(vstd::utf8::encode_utf8(s@).len()),
    ensures
        final(out)@ == old(out)@ + enc_str(s@),
{
    let b = s.as_bytes();
    let n = b.len();
    let ghost start = out@;
    if n < 32 {
        out.push((0xa0 + n) as u8);
    } else if n < 0x100 {
        out.push(0xd9);
        out.push(n as u8);
    } else if n < 0x1_0000 {
        out.push(0xda);
        push_be16(out, n);
    } else {
        out.push(0xdb);
        push_be32(out, n);
    }
    assert(out@ =~= start + str_header(n as nat));
    append_bytes(out, b);
    assert(out@ =~= start + enc_str(s@));
}

/// Appends an array header.
fn push_array_header(out: &mut Vec<u8>, n: usize)
    requires
        fits_u32(n as nat),
    ensures
        final(out)@ == old(out)@ + array_header(n as nat),
{
    let ghost start = out@;
    if n < 16 {
        out.push((0x90 + n) as u8);
    } else if n < 0x1_0000 {
        out.push(0xdc);
        push_be16(out, n);
    } else {
        out.push(0xdd);
        push_be32(out, n);
    }
    assert(out@ =~= start + array_header(n as nat));
}

/// Appends an optional binary value.
fn push_opt_bin(out: &mut Vec<u8>, o: &Option<Vec<u8>>)
    requires
        o matches Some(b) ==> fits_u32(b@.len()),
    ensures
        final(out)@ == old(out)@ + enc_opt_bin(caveat::bytes_opt(*o)),
{
    match o {
        Some(b) => push_bin(out, b.as_slice()),
        None => {
            out.push(0xc0);
            assert(final(out)@ =~= old(out)@ + nil());
        },
    }
}

/// Appends an optional string value.
fn push_opt_str(out: &mut Vec<u8>, o: &Option<String>)
    requires
        o matches Some(s) ==> fits_u32(vstd::utf8::encode_utf8(s@).len()),
    ensures
        final(out)@ == old(out)@ + enc_opt_str(caveat::text_opt(*o)),
{
    match o {
        Some(s) => push_str(out, s.as_str()),
        None => {
            out.push(0xc0);
            assert(final(out)@ =~= old(out)@ + nil());
        },
    }
}

/// Whether `n` fits a MessagePack length.
fn fits(n: usize) -> (r: bool)
    ensures
        r == fits_u32(n as nat),
{
    (n as u64) < 0x1_0000_0000u64
}

/// Whether an optional string's UTF-8 length fits a MessagePack length.
fn text_fits(o: &Option<String>) -> (r: bool)
    ensures
        r == (caveat::text_opt(*o) matches Some(l) ==> fits_u32(vstd::utf8::encode_utf8(l).len())),
{
    match o {
        Some(s) => fits(s.as_str().as_bytes().len()),
        None => true,
    }
}

/// Whether every length in `c` fits a MessagePack length.
fn caveat_fits(c: &Caveat) -> (r: bool)
    ensures
        r == caveat_encodable(c@),
{
    let key_fits = match &c.verification_key_id {
        Some(k) => fits(k.len()),
        None => true,
    };
    fits(c.caveat_id.len()) && key_fits && text_fits(&c.location)
}

/// Appends a caveat.
fn push_caveat(out: &mut Vec<u8>, c: &Caveat)
    requires
        caveat_encodable(c@),
    ensures
        final(out)@ == old(out)@ + enc_caveat(c@),
{
    let ghost start = out@;
    push_array_header(out, 3);
    push_bin(out, c.caveat_id.as_slice());
    push_opt_bin(out, &c.verification_key_id);
    push_opt_str(out, &c.location);
    assert(out@ =~= start + enc_caveat(c@));
}

impl Stroopwafel {
    /// Serializes this token to MessagePack: the array
    /// `[location, identifier, caveats, signature]`, binary fields as `bin`,
    /// each with the shortest header. Fails only on a length that no
    /// MessagePack header can carry.
    pub fn to_msgpack(&self) -> (r: Result<Vec<u8>, StroopwafelError>)
        ensures
            r is Ok <==> encodable(self@),
            r matches Ok(b) ==> b@ == encode_token(self@),
            r is Err ==> r matches Err(StroopwafelError::DeserializationError(_)),
    {
        let ghost t = self@;
        if !(text_fits(&self.location) && fits(self.identifier.len()) && fits(self.caveats.len())) {
            return Err(StroopwafelError::DeserializationError("Length too large for MessagePack".to_owned()));
        }
        let mut i: usize = 0;
        while i < self.caveats.len()
            invariant
                i <= self.caveats@.len(),
                t == self@,
                forall|j: int| 0 <= j < i ==> caveat_encodable(#[trigger] t.caveats[j]),
            decreases self.caveats@.len() - i,
        {
            assert(t.caveats[i as int] == self.caveats@[i as int]@);
            if !caveat_fits(&self.caveats[i]) {
                return Err(StroopwafelError::DeserializationError("Length too large for MessagePack".to_owned()));
            }
            i += 1;
        }
        let mut out: Vec<u8> = Vec::new();
        push_array_header(&mut out, 4);
        push_opt_str(&mut out, &self.location);
        push_bin(&mut out, self.identifier.as_slice());
        push_array_header(&mut out, self.caveats.len());
        let ghost head = out@;
        let mut i: usize = 0;
        assert(t.caveats.take(0) =~= Seq::<CaveatModel>::empty());
        while i < self.caveats.len()
            invariant
                i <= self.caveats@.len(),
                t == self@,
                forall|j: int| 0 <= j < t.caveats.len() ==> caveat_encodable(#[trigger] t.caveats[j]),
                out@ == head + enc_caveats(t.caveats.take(i as int)),
            decreases self.caveats@.len() - i,
        {
            assert(t.caveats[i as int] == self.caveats@[i as int]@);
            push_caveat(&mut out, &self.caveats[i]);
            assert(t.caveats.take(i + 1).drop_last() =~= t.caveats.take(i as int));
            i += 1;
            assert(out@ =~= head + enc_caveats(t.caveats.take(i as int)));
        }
        assert(t.caveats.take(i as int) =~= t.caveats);
        push_bin(&mut out, self.signature.as_slice());
        assert(out@ =~= encode_token(t));
        Ok(out)
    }
}

/// `e` occurs in `data` at index `pos`.
pub open spec fn prefix_at(data: Seq<u8>, pos: int, e: Seq<u8>) -> bool {
    0 <= pos && pos + e.len() <= data.len() && data.subrange(pos, pos + e.len()) == e
}

pub(crate) proof fn lemma_prefix_split(data: Seq<u8>, pos: int, a: Seq<u8>, b: Seq<u8>)
    requires
        prefix_at(data, pos, a + b),
    ensures
        prefix_at(data, pos, a),
        prefix_at(data, pos + a.len(), b),
{
    let whole = data.subrange(pos, pos + (a + b).len());
    assert(data.subrange(pos, pos + a.len()) =~= whole.subrange(0, a.len() as int));
    assert(data.subrange(pos + a.len(), pos + a.len() + b.len()) =~= whole.subrange(
        a.len() as int,
        (a + b).len() as int,
    ));
    assert((a + b).subrange(0, a.len() as int) =~= a);
    assert((a + b).subrange(a.len() as int, (a + b).len() as int) =~= b);
}

proof fn lemma_prefix_join(data: Seq<u8>, pos: int, a: Seq<u8>, b: Seq<u8>)
    requires
        prefix_at(data, pos, a),
        prefix_at(data, pos + a.len(), b),
    ensures
        prefix_at(data, pos, a + b),
{
    assert(data.subrange(pos, pos + (a + b).len()) =~= data.subrange(pos, pos + a.len()) + data.subrange(
        pos + a.len(),
        pos + a.len() + b.len(),
    ));
}

/// The big-endian number in the two bytes at `p`.
pub open spec fn be16_at(data: Seq<u8>, p: int) -> nat {
    (data[p] as nat) * 0x100 + data[p + 1] as nat
}

/// The big-endian number in the four bytes at `p`.
pub open spec fn be32_at(data: Seq<u8>, p: int) -> nat {
    (((data[p] as nat) * 0x100 + data[p + 1] as nat) * 0x100 + data[p + 2] as nat) * 0x100 + data[p + 3] as nat
}

proof fn lemma_be16(data: Seq<u8>, p: int, n: nat)
    requires
        0 <= p,
        p + 2 <= data.len(),
        n < 0x1_0000,
    ensures
        (data.subrange(p, p + 2) == be16(n)) <==> (be16_at(data, p) == n),
{
    let a = data[p] as nat;
    let b = data[p + 1] as nat;
    assert(a * 0x100 + b == n ==> a == n / 0x100 && b == n % 0x100) by (nonlinear_arith)
        requires
            a < 0x100,
            b < 0x100,
    ;
    assert(n == (n / 0x100) * 0x100 + n % 0x100) by (nonlinear_arith);
    assert(n / 0x100 < 0x100) by (nonlinear_arith)
        requires
            n < 0x1_0000,
    ;
    if data.subrange(p, p + 2) == be16(n) {
        assert(data.subrange(p, p + 2)[0] == data[p]);
        assert(data.subrange(p, p + 2)[1] == data[p + 1]);
    }
    if be16_at(data, p) == n {
        assert(data.subrange(p, p + 2) =~= be16(n));
    }
}

proof fn lemma_be32(data: Seq<u8>, p: int, n: nat)
    requires
        0 <= p,
        p + 4 <= data.len(),
        fits_u32(n),
    ensures
        (data.subrange(p, p + 4) == be32(n)) <==> (be32_at(data, p) == n),
{
    let a = data[p] as nat;
    let b = data[p + 1] as nat;
    let c = data[p + 2] as nat;
    let d = data[p + 3] as nat;
    assert(((a * 0x100 + b) * 0x100 + c) * 0x100 + d == n ==> a == n / 0x100_0000 && b == (n / 0x1_0000) % 0x100 && c
        == (n / 0x100) % 0x100 && d == n % 0x100) by (nonlinear_arith)
        requires
            a < 0x100,
            b < 0x100,
            c < 0x100,
            d < 0x100,
    ;
    assert(n == (((n / 0x100_0000) * 0x100 + (n / 0x1_0000) % 0x100) * 0x100 + (n / 0x100) % 0x100) * 0x100 + n
        % 0x100) by (nonlinear_arith);
    assert(n / 0x100_0000 < 0x100) by (nonlinear_arith)
        requires
            n < 0x1_0000_0000,
    ;
    if data.subrange(p, p + 4) == be32(n) {
        assert(data.subrange(p, p + 4)[0] == data[p]);
        assert(data.subrange(p, p + 4)[1] == data[p + 1]);
        assert(data.subrange(p, p + 4)[2] == data[p + 2]);
        assert(data.subrange(p, p + 4)[3] == data[p + 3]);
    }
    if be32_at(data, p) == n {
        assert(data.subrange(p, p + 4) =~= be32(n));
    }
}

/// The tags of a family are apart from each other, from its fix range and
/// from nil.
pub open spec fn form_ok(f: LenForm) -> bool {
    &&& f.fix_base as int + f.fix_limit as int <= 0xc0
    &&& f.has_tag8 ==> 0xc0 < f.tag8 && f.tag8 != f.tag16 && f.tag8 != f.tag32
    &&& 0xc0 < f.tag16
    &&& 0xc0 < f.tag32
    &&& f.tag16 != f.tag32
}

/// The smallest length that the two-byte form may carry.
pub open spec fn min16(f: LenForm) -> nat {
    if f.has_tag8 {
        0x100
    } else {
        f.fix_limit as nat
    }
}

/// What reading a header of family `f` at `pos` gives: the length and the
/// index after the header; `None` unless a shortest header is there.
pub open spec fn read_header_spec(f: LenForm, data: Seq<u8>, pos: int) -> Option<(nat, int)> {
    if pos < 0 || pos >= data.len() {
        None
    } else {
        let b = data[pos];
        if f.fix_base <= b && (b as int) < f.fix_base + f.fix_limit {
            Some(((b - f.fix_base) as nat, pos + 1))
        } else if f.has_tag8 && b == f.tag8 {
            if data.len() - pos >= 2 && data[pos + 1] >= f.fix_limit {
                Some((data[pos + 1] as nat, pos + 2))
            } else {
                None
            }
        } else if b == f.tag16 {
            if pos + 3 <= data.len() && be16_at(data, pos + 1) >= min16(f) {
                Some((be16_at(data, pos + 1), pos + 3))
            } else {
                None
            }
        } else if b == f.tag32 {
            if pos + 5 <= data.len() && be32_at(data, pos + 1) >= 0x1_0000 {
                Some((be32_at(data, pos + 1), pos + 5))
            } else {
                None
            }
        } else {
            None
        }
    }
}

proof fn lemma_header_sound(f: LenForm, data: Seq<u8>, pos: int)
    requires
        form_ok(f),
        read_header_spec(f, data, pos) is Some,
    ensures
        ({
            let (n, p) = read_header_spec(f, data, pos)->Some_0;
            fits_u32(n) && p == pos + len_header(f, n).len() && prefix_at(data, pos, len_header(f, n))
        }),
{
    let (n, p) = read_header_spec(f, data, pos)->Some_0;
    let b = data[pos];
    let h = len_header(f, n);
    if f.fix_base <= b && (b as int) < f.fix_base + f.fix_limit {
        assert(data.subrange(pos, pos + 1) =~= h);
    } else if f.has_tag8 && b == f.tag8 {
        assert(data.subrange(pos, pos + 2) =~= h);
    } else if b == f.tag16 {
        assert(n < 0x1_0000) by (nonlinear_arith)
            requires
                n == (data[pos + 1] as nat) * 0x100 + data[pos + 2] as nat,
                data[pos + 1] < 0x100,
                data[pos + 2] < 0x100,
        ;
        lemma_be16(data, pos + 1, n);
        assert(data.subrange(pos, pos + 3) =~= seq![b] + data.subrange(pos + 1, pos + 3));
    } else {
        assert(fits_u32(n)) by (nonlinear_arith)
            requires
                n == (((data[pos + 1] as nat) * 0x100 + data[pos + 2] as nat) * 0x100 + data[pos + 3] as nat)
                    * 0x100 + data[pos + 4] as nat,
                data[pos + 1] < 0x100,
                data[pos + 2] < 0x100,
                data[pos + 3] < 0x100,
                data[pos + 4] < 0x100,
        ;
        lemma_be32(data, pos + 1, n);
        assert(data.subrange(pos, pos + 5) =~= seq![b] + data.subrange(pos + 1, pos + 5));
    }
}

pub(crate) proof fn lemma_header_complete(f: LenForm, data: Seq<u8>, pos: int, n: nat)
    requires
        form_ok(f),
        fits_u32(n),
        prefix_at(data, pos, len_header(f, n)),
    ensures
        read_header_spec(f, data, pos) == Some((n, pos + len_header(f, n).len())),
{
    let h = len_header(f, n);
    assert(data[pos] == h[0]) by {
        assert(data.subrange(pos, pos + h.len())[0] == data[pos]);
    }
    if n < f.fix_limit {
    } else if f.has_tag8 && n < 0x100 {
        assert(data[pos + 1] == h[1]) by {
            assert(data.subrange(pos, pos + h.len())[1] == data[pos + 1]);
        }
    } else if n < 0x1_0000 {
        assert(data.subrange(pos + 1, pos + 3) =~= data.subrange(pos, pos + 3).subrange(1, 3));
        assert(h.subrange(1, 3) =~= be16(n));
        lemma_be16(data, pos + 1, n);
    } else {
        assert(data.subrange(pos + 1, pos + 5) =~= data.subrange(pos, pos + 5).subrange(1, 5));
        assert(h.subrange(1, 5) =~= be32(n));
        lemma_be32(data, pos + 1, n);
    }
}

fn bin_form_value() -> (r: LenForm)
    ensures
        r == bin_form(),
{
    LenForm { fix_base: 0, fix_limit: 0, has_tag8: true, tag8: 0xc4, tag16: 0xc5, tag32: 0xc6 }
}

fn str_form_value() -> (r: LenForm)
    ensures
        r == str_form(),
{
    LenForm { fix_base: 0xa0, fix_limit: 32, has_tag8: true, tag8: 0xd9, tag16: 0xda, tag32: 0xdb }
}

fn array_form_value() -> (r: LenForm)
    ensures
        r == array_form(),
{
    LenForm { fix_base: 0x90, fix_limit: 16, has_tag8: false, tag8: 0, tag16: 0xdc, tag32: 0xdd }
}

/// Reads a header of family `f` at `pos`.
fn read_header(f: &LenForm, data: &[u8], pos: usize) -> (r: Option<(usize, usize)>)
    ensures
        match r {
            Some((n, p)) => read_header_spec(*f, data@, pos as int) == Some((n as nat, p as int)),
            None => read_header_spec(*f, data@, pos as int) is None,
        },
{
    if pos >= data.len() {
        return None;
    }
    let b = data[pos];
    if f.fix_base <= b && (b as u16) < f.fix_base as u16 + f.fix_limit as u16 {
        Some(((b - f.fix_base) as usize, pos + 1))
    } else if f.has_tag8 && b == f.tag8 {
        if data.len() - pos >= 2 && data[pos + 1] >= f.fix_limit {
            Some((data[pos + 1] as usize, pos + 2))
        } else {
            None
        }
    } else if b == f.tag16 {
        if data.len() - pos >= 3 {
            let n = (data[pos + 1] as usize) * 0x100 + data[pos + 2] as usize;
            let min: usize = if f.has_tag8 {
                0x100
            } else {
                f.fix_limit as usize
            };
            if n >= min {
                Some((n, pos + 3))
            } else {
                None
            }
        } else {
            None
        }
    } else if b == f.tag32 {
        if data.len() - pos >= 5 {
            let n: u64 = (((data[pos + 1] as u64) * 0x100 + data[pos + 2] as u64) * 0x100 + data[pos + 3] as u64)
                * 0x100 + data[pos + 4] as u64;
            if n >= 0x1_0000 && n <= usize::MAX as u64 {
                Some((n as usize, pos + 5))
            } else {
                None
            }
        } else {
            None
        }
    } else {
        None
    }
}

/// Reads the header of family `f` at `pos` and the `n` payload bytes after
/// it: the payload's bounds, exactly when some payload of a fitting length
/// is encoded there with a shortest header.
fn read_sized(f: &LenForm, data: &[u8], pos: usize) -> (r: Option<(usize, usize)>)
    requires
        form_ok(*f),
    ensures
        r matches Some((start, end)) ==> start <= end <= data@.len() && fits_u32((end - start) as nat) && prefix_at(
            data@,
            pos as int,
            len_header(*f, (end - start) as nat) + data@.subrange(start as int, end as int),
        ) && start == pos + len_header(*f, (end - start) as nat).len(),
        forall|x: Seq<u8>|
            fits_u32(x.len()) && #[trigger] prefix_at(data@, pos as int, len_header(*f, x.len()) + x) ==> (r matches Some(
                (start, end),
            ) && data@.subrange(start as int, end as int) == x),
{
    match read_header(f, data, pos) {
        None => {
            proof {
                assert forall|x: Seq<u8>|
                    fits_u32(x.len()) && #[trigger] prefix_at(data@, pos as int, len_header(*f, x.len()) + x) implies false by {
                    lemma_prefix_split(data@, pos as int, len_header(*f, x.len()), x);
                    lemma_header_complete(*f, data@, pos as int, x.len());
                }
            }
            None
        },
        Some((n, start)) => {
            proof {
                lemma_header_sound(*f, data@, pos as int);
            }
            if n > data.len() - start {
                proof {
                    assert forall|x: Seq<u8>|
                        fits_u32(x.len()) && #[trigger] prefix_at(data@, pos as int, len_header(*f, x.len()) + x) implies false by {
                        lemma_prefix_split(data@, pos as int, len_header(*f, x.len()), x);
                        lemma_header_complete(*f, data@, pos as int, x.len());
                    }
                }
                return None;
            }
            let end = start + n;
            proof {
                let h = len_header(*f, n as nat);
                assert(prefix_at(data@, start as int, data@.subrange(start as int, end as int)));
                lemma_prefix_join(data@, pos as int, h, data@.subrange(start as int, end as int));
                assert forall|x: Seq<u8>|
                    fits_u32(x.len()) && #[trigger] prefix_at(data@, pos as int, len_header(*f, x.len()) + x) implies data@.subrange(
                    start as int,
                    end as int,
                ) == x by {
                    lemma_prefix_split(data@, pos as int, len_header(*f, x.len()), x);
                    lemma_header_complete(*f, data@, pos as int, x.len());
                }
            }
            Some((start, end))
        },
    }
}

/// Reads a binary value at `pos`.
fn read_bin(data: &[u8], pos: usize) -> (r: Option<(Vec<u8>, usize)>)
    ensures
        r matches Some((v, p)) ==> fits_u32(v@.len()) && prefix_at(data@, pos as int, enc_bin(v@)) && p == pos
            + enc_bin(v@).len(),
        forall|x: Seq<u8>|
            fits_u32(x.len()) && #[trigger] prefix_at(data@, pos as int, enc_bin(x)) ==> (r matches Some((v, p)) && v@
                == x && p == pos + enc_bin(x).len()),
{
    let f = bin_form_value();
    match read_sized(&f, data, pos) {
        None => None,
        Some((start, end)) => {
            let v = vstd::slice::slice_to_vec(&data[start..end]);
            Some((v, end))
        },
    }
}

/// Reads a string value at `pos`.
fn read_str(data: &[u8], pos: usize) -> (r: Option<(String, usize)>)
    ensures
        r matches Some((v, p)) ==> fits_u32(vstd::utf8::encode_utf8(v@).len()) && prefix_at(data@, pos as int, enc_str(v@))
            && p == pos + enc_str(v@).len(),
        forall|x: Seq<char>|
            fits_u32(vstd::utf8::encode_utf8(x).len()) && #[trigger] prefix_at(data@, pos as int, enc_str(x)) ==> (r matches Some(
                (v, p),
            ) && v@ == x && p == pos + enc_str(x).len()),
{
    broadcast use vstd::utf8::encode_utf8_valid_utf8, vstd::utf8::encode_utf8_decode_utf8;

    let f = str_form_value();
    match read_sized(&f, data, pos) {
        None => {
            proof {
                assert forall|x: Seq<char>|
                    fits_u32(vstd::utf8::encode_utf8(x).len()) && #[trigger] prefix_at(data@, pos as int, enc_str(x)) implies false by {
                    assert(prefix_at(data@, pos as int, len_header(f, vstd::utf8::encode_utf8(x).len()) + vstd::utf8::encode_utf8(x)));
                }
            }
            None
        },
        Some((start, end)) => {
            let payload = &data[start..end];
            match text::utf8_string(payload) {
                None => {
                    proof {
                        assert forall|x: Seq<char>|
                            fits_u32(vstd::utf8::encode_utf8(x).len()) && #[trigger] prefix_at(data@, pos as int, enc_str(x)) implies false by {
                            assert(prefix_at(data@, pos as int, len_header(f, vstd::utf8::encode_utf8(x).len()) + vstd::utf8::encode_utf8(x)));
                        }
                    }
                    None
                },
                Some(v) => {
                    proof {
                        vstd::utf8::decode_utf8_encode_utf8(payload@);
                        assert forall|x: Seq<char>|
                            fits_u32(vstd::utf8::encode_utf8(x).len()) && #[trigger] prefix_at(data@, pos as int, enc_str(x)) implies v@ == x by {
                            assert(prefix_at(data@, pos as int, len_header(f, vstd::utf8::encode_utf8(x).len()) + vstd::utf8::encode_utf8(x)));
                        }
                    }
                    Some((v, end))
                },
            }
        },
    }
}

/// Reads an optional binary value (nil when absent) at `pos`.
fn read_opt_bin(data: &[u8], pos: usize) -> (r: Option<(Option<Vec<u8>>, usize)>)
    ensures
        r matches Some((v, p)) ==> (caveat::bytes_opt(v) matches Some(b) ==> fits_u32(b.len())) && prefix_at(
            data@,
            pos as int,
            enc_opt_bin(caveat::bytes_opt(v)),
        ) && p == pos + enc_opt_bin(caveat::bytes_opt(v)).len(),
        forall|x: Option<Seq<u8>>|
            (x matches Some(b) ==> fits_u32(b.len())) && #[trigger] prefix_at(data@, pos as int, enc_opt_bin(x)) ==> (r matches Some(
                (v, p),
            ) && caveat::bytes_opt(v) == x && p == pos + enc_opt_bin(x).len()),
{
    if pos < data.len() && data[pos] == 0xc0 {
        proof {
            assert(data@.subrange(pos as int, pos + 1) =~= nil());
            assert forall|x: Option<Seq<u8>>|
                (x matches Some(b) ==> fits_u32(b.len())) && #[trigger] prefix_at(data@, pos as int, enc_opt_bin(x)) implies x
                is None by {
                let e = enc_opt_bin(x);
                assert(data@.subrange(pos as int, pos + e.len())[0] == data@[pos as int]);
            }
        }
        return Some((None, pos + 1));
    }
    let r = read_bin(data, pos);
    proof {
        assert forall|x: Option<Seq<u8>>|
            (x matches Some(b) ==> fits_u32(b.len())) && #[trigger] prefix_at(data@, pos as int, enc_opt_bin(x)) implies x
            is Some by {
            let e = enc_opt_bin(x);
            assert(data@.subrange(pos as int, pos + e.len())[0] == data@[pos as int]);
        }
        assert forall|x: Option<Seq<u8>>|
            (x matches Some(b) ==> fits_u32(b.len())) && #[trigger] prefix_at(data@, pos as int, enc_opt_bin(x)) implies (
            match r {
                Some((v, p)) => Some(v@) == x && p == pos + enc_opt_bin(x).len(),
                None => false,
            }) by {
            let b = x->Some_0;
            assert(prefix_at(data@, pos as int, enc_bin(b)));
        }
    }
    match r {
        Some((v, p)) => Some((Some(v), p)),
        None => None,
    }
}

/// Reads an optional string value (nil when absent) at `pos`.
fn read_opt_str(data: &[u8], pos: usize) -> (r: Option<(Option<String>, usize)>)
    ensures
        r matches Some((v, p)) ==> (caveat::text_opt(v) matches Some(l) ==> fits_u32(vstd::utf8::encode_utf8(l).len()))
            && prefix_at(data@, pos as int, enc_opt_str(caveat::text_opt(v))) && p == pos + enc_opt_str(
            caveat::text_opt(v),
        ).len(),
        forall|x: Option<Seq<char>>|
            (x matches Some(l) ==> fits_u32(vstd::utf8::encode_utf8(l).len())) && #[trigger] prefix_at(
                data@,
                pos as int,
                enc_opt_str(x),
            ) ==> (r matches Some((v, p)) && caveat::text_opt(v) == x && p == pos + enc_opt_str(x).len()),
{
    if pos < data.len() && data[pos] == 0xc0 {
        proof {
            assert(data@.subrange(pos as int, pos + 1) =~= nil());
            assert forall|x: Option<Seq<char>>|
                (x matches Some(l) ==> fits_u32(vstd::utf8::encode_utf8(l).len())) && #[trigger] prefix_at(
                    data@,
                    pos as int,
                    enc_opt_str(x),
                ) implies x is None by {
                let e = enc_opt_str(x);
                assert(data@.subrange(pos as int, pos + e.len())[0] == data@[pos as int]);
            }
        }
        return Some((None, pos + 1));
    }
    let r = read_str(data, pos);
    proof {
        assert forall|x: Option<Seq<char>>|
            (x matches Some(l) ==> fits_u32(vstd::utf8::encode_utf8(l).len())) && #[trigger] prefix_at(
                data@,
                pos as int,
                enc_opt_str(x),
            ) implies x is Some by {
            let e = enc_opt_str(x);
            assert(data@.subrange(pos as int, pos + e.len())[0] == data@[pos as int]);
        }
        assert forall|x: Option<Seq<char>>|
            (x matches Some(l) ==> fits_u32(vstd::utf8::encode_utf8(l).len())) && #[trigger] prefix_at(
                data@,
                pos as int,
                enc_opt_str(x),
            ) implies (match r {
                Some((v, p)) => Some(v@) == x && p == pos + enc_opt_str(x).len(),
                None => false,
            }) by {
            let l = x->Some_0;
            assert(prefix_at(data@, pos as int, enc_str(l)));
        }
    }
    match r {
        Some((v, p)) => Some((Some(v), p)),
        None => None,
    }
}

/// Reads an array header at `pos`.
fn read_array_len(data: &[u8], pos: usize) -> (r: Option<(usize, usize)>)
    ensures
        r matches Some((n, p)) ==> fits_u32(n as nat) && prefix_at(data@, pos as int, array_header(n as nat)) && p == pos
            + array_header(n as nat).len(),
        forall|n: nat|
            fits_u32(n) && #[trigger] prefix_at(data@, pos as int, array_header(n)) ==> r == Some(
                (n as usize, (pos + array_header(n).len()) as usize),
            ),
{
    let f = array_form_value();
    let r = read_header(&f, data, pos);
    proof {
        if r is Some {
            lemma_header_sound(f, data@, pos as int);
        }
        assert forall|n: nat| fits_u32(n) && #[trigger] prefix_at(data@, pos as int, array_header(n)) implies r == Some(
            (n as usize, (pos + array_header(n).len()) as usize),
        ) by {
            lemma_header_complete(f, data@, pos as int, n);
        }
    }
    r
}

/// Reads a caveat at `pos`.
fn read_caveat(data: &[u8], pos: usize) -> (r: Option<(Caveat, usize)>)
    ensures
        r matches Some((c, p)) ==> caveat_encodable(c@) && prefix_at(data@, pos as int, enc_caveat(c@)) && p == pos
            + enc_caveat(c@).len(),
        forall|x: CaveatModel|
            caveat_encodable(x) && #[trigger] prefix_at(data@, pos as int, enc_caveat(x)) ==> (r matches Some((c, p))
                && c@ == x && p == pos + enc_caveat(x).len()),
{
    proof {
        assert forall|x: CaveatModel| caveat_encodable(x) && #[trigger] prefix_at(data@, pos as int, enc_caveat(x)) implies {
            let p1 = pos + array_header(3).len();
            let p2 = p1 + enc_bin(x.caveat_id).len();
            let p3 = p2 + enc_opt_bin(x.verification_key_id).len();
            &&& prefix_at(data@, pos as int, array_header(3))
            &&& prefix_at(data@, p1, enc_bin(x.caveat_id))
            &&& prefix_at(data@, p2, enc_opt_bin(x.verification_key_id))
            &&& prefix_at(data@, p3, enc_opt_str(x.location))
        } by {
            let h = array_header(3);
            let a = enc_bin(x.caveat_id);
            let b = enc_opt_bin(x.verification_key_id);
            let c = enc_opt_str(x.location);
            lemma_prefix_split(data@, pos as int, h + a + b, c);
            lemma_prefix_split(data@, pos as int, h + a, b);
            lemma_prefix_split(data@, pos as int, h, a);
        }
    }
    let (n, p1) = match read_array_len(data, pos) {
        Some(v) => v,
        None => return None,
    };
    if n != 3 {
        return None;
    }
    let (id, p2) = match read_bin(data, p1) {
        Some(v) => v,
        None => return None,
    };
    let (vk, p3) = match read_opt_bin(data, p2) {
        Some(v) => v,
        None => return None,
    };
    let (loc, p4) = match read_opt_str(data, p3) {
        Some(v) => v,
        None => return None,
    };
    let c = Caveat { caveat_id: id, verification_key_id: vk, location: loc };
    proof {
        lemma_prefix_join(data@, pos as int, array_header(3), enc_bin(c@.caveat_id));
        lemma_prefix_join(data@, pos as int, array_header(3) + enc_bin(c@.caveat_id), enc_opt_bin(c@.verification_key_id));
        lemma_prefix_join(
            data@,
            pos as int,
            array_header(3) + enc_bin(c@.caveat_id) + enc_opt_bin(c@.verification_key_id),
            enc_opt_str(c@.location),
        );
    }
    Some((c, p4))
}

/// Copies a 32-byte slice into a tag.
fn to_tag(v: &[u8]) -> (r: [u8; SIGNATURE_SIZE])
    requires
        v@.len() == SIGNATURE_SIZE,
    ensures
        r@ == v@,
{
    let mut r: [u8; SIGNATURE_SIZE] = [0u8; SIGNATURE_SIZE];
    let mut i: usize = 0;
    while i < SIGNATURE_SIZE
        invariant
            i <= SIGNATURE_SIZE,
            v@.len() == SIGNATURE_SIZE,
            r@.len() == SIGNATURE_SIZE,
            forall|j: int| 0 <= j < i ==> r@[j] == v@[j],
        decreases SIGNATURE_SIZE - i,
    {
        r[i] = v[i];
        i += 1;
    }
    assert(r@ =~= v@);
    r
}

proof fn lemma_enc_caveats_prefix(data: Seq<u8>, pos: int, cs: Seq<CaveatModel>, k: int)
    requires
        0 <= k <= cs.len(),
        prefix_at(data, pos, enc_caveats(cs)),
    ensures
        prefix_at(data, pos, enc_caveats(cs.take(k))),
    decreases cs.len(),
{
    if k == cs.len() {
        assert(cs.take(k) =~= cs);
    } else {
        lemma_prefix_split(data, pos, enc_caveats(cs.drop_last()), enc_caveat(cs.last()));
        assert(cs.drop_last().take(k) =~= cs.take(k));
        lemma_enc_caveats_prefix(data, pos, cs.drop_last(), k);
    }
}

/// The error for bytes that are not a token's MessagePack encoding.
fn malformed() -> (e: StroopwafelError)
    ensures
        e matches StroopwafelError::DeserializationError(_),
{
    StroopwafelError::DeserializationError("Invalid MessagePack token".to_owned())
}

impl Stroopwafel {
    /// Deserializes a token from MessagePack: succeeds exactly when `data` is
    /// the encoding that `to_msgpack` gives of some token.
    #[verifier::rlimit(50)]
    pub fn from_msgpack(data: &[u8]) -> (r: Result<Stroopwafel, StroopwafelError>)
        ensures
            r matches Ok(u) ==> encodable(u@) && encode_token(u@) == data@,
            forall|t: TokenModel| encodable(t) && #[trigger] encode_token(t) == data@ ==> (r matches Ok(u) && u@ == t),
            r is Err ==> r matches Err(StroopwafelError::DeserializationError(_)),
    {
        let ghost d = data@;
        proof {
            assert forall|t: TokenModel| encodable(t) && #[trigger] encode_token(t) == d implies {
                let p1 = array_header(4).len() as int;
                let p2 = p1 + enc_opt_str(t.location).len();
                let p3 = p2 + enc_bin(t.identifier).len();
                let p4 = p3 + array_header(t.caveats.len()).len();
                let p5 = p4 + enc_caveats(t.caveats).len();
                &&& prefix_at(d, 0, array_header(4))
                &&& prefix_at(d, p1, enc_opt_str(t.location))
                &&& prefix_at(d, p2, enc_bin(t.identifier))
                &&& prefix_at(d, p3, array_header(t.caveats.len()))
                &&& prefix_at(d, p4, enc_caveats(t.caveats))
                &&& prefix_at(d, p5, enc_bin(t.signature))
                &&& p5 + enc_bin(t.signature).len() == d.len()
            } by {
                let h = array_header(4);
                let a = enc_opt_str(t.location);
                let b = enc_bin(t.identifier);
                let c = array_header(t.caveats.len());
                let e = enc_caveats(t.caveats);
                let g = enc_bin(t.signature);
                assert(d.subrange(0, d.len() as int) =~= d);
                lemma_prefix_split(d, 0, h + a + b + c + e, g);
                lemma_prefix_split(d, 0, h + a + b + c, e);
                lemma_prefix_split(d, 0, h + a + b, c);
                lemma_prefix_split(d, 0, h + a, b);
                lemma_prefix_split(d, 0, h, a);
            }
        }
        let (n4, p1) = match read_array_len(data, 0) {
            Some(v) => v,
            None => return Err(malformed()),
        };
        if n4 != 4 {
            return Err(malformed());
        }
        let (location, p2) = match read_opt_str(data, p1) {
            Some(v) => v,
            None => return Err(malformed()),
        };
        let (identifier, p3) = match read_bin(data, p2) {
            Some(v) => v,
            None => return Err(malformed()),
        };
        let (n, p4) = match read_array_len(data, p3) {
            Some(v) => v,
            None => return Err(malformed()),
        };
        let ghost head = array_header(4) + enc_opt_str(caveat::text_opt(location)) + enc_bin(identifier@) + array_header(
            n as nat,
        );
        proof {
            lemma_prefix_join(d, 0, array_header(4), enc_opt_str(caveat::text_opt(location)));
            lemma_prefix_join(d, 0, array_header(4) + enc_opt_str(caveat::text_opt(location)), enc_bin(identifier@));
            lemma_prefix_join(
                d,
                0,
                array_header(4) + enc_opt_str(caveat::text_opt(location)) + enc_bin(identifier@),
                array_header(n as nat),
            );
            assert(stroopwafel::caveats_view(Seq::<Caveat>::empty()) =~= Seq::<CaveatModel>::empty());
            assert(head + Seq::<u8>::empty() =~= head);
        }
        let mut caveats: Vec<Caveat> = Vec::new();
        let mut pos = p4;
        let mut i: usize = 0;
        while i < n
            invariant
                d == data@,
                i <= n,
                fits_u32(n as nat),
                pos <= d.len(),
                caveats@.len() == i,
                forall|j: int| 0 <= j < i ==> caveat_encodable(#[trigger] caveats@[j]@),
                prefix_at(d, 0, head + enc_caveats(stroopwafel::caveats_view(caveats@))),
                pos == (head + enc_caveats(stroopwafel::caveats_view(caveats@))).len(),
                forall|t: TokenModel| encodable(t) && #[trigger] encode_token(t) == d ==> {
                    &&& t.location == caveat::text_opt(location)
                    &&& t.identifier == identifier@
                    &&& t.caveats.len() == n
                    &&& stroopwafel::caveats_view(caveats@) == t.caveats.take(i as int)
                    &&& prefix_at(d, head.len() as int, enc_caveats(t.caveats))
                    &&& prefix_at(
                        d,
                        (head.len() + enc_caveats(t.caveats).len()) as int,
                        enc_bin(t.signature),
                    )
                    &&& head.len() + enc_caveats(t.caveats).len() + enc_bin(t.signature).len() == d.len()
                },
            decreases n - i,
        {
            let ghost before = stroopwafel::caveats_view(caveats@);
            proof {
                assert forall|t: TokenModel| encodable(t) && #[trigger] encode_token(t) == d implies prefix_at(
                    d,
                    pos as int,
                    enc_caveat(t.caveats[i as int]),
                ) by {
                    lemma_enc_caveats_prefix(d, head.len() as int, t.caveats, i + 1);
                    assert(t.caveats.take(i + 1).drop_last() =~= t.caveats.take(i as int));
                    lemma_prefix_split(
                        d,
                        head.len() as int,
                        enc_caveats(t.caveats.take(i as int)),
                        enc_caveat(t.caveats[i as int]),
                    );
                }
            }
            let (c, next) = match read_caveat(data, pos) {
                Some(v) => v,
                None => {
                    proof {
                        assert forall|t: TokenModel| encodable(t) && #[trigger] encode_token(t) == d implies false by {
                            assert(caveat_encodable(t.caveats[i as int]));
                        }
                    }
                    return Err(malformed());
                },
            };
            proof {
                lemma_prefix_join(d, 0, head + enc_caveats(before), enc_caveat(c@));
            }
            caveats.push(c);
            proof {
                let now = stroopwafel::caveats_view(caveats@);
                assert(now =~= before.push(c@));
                assert(now.drop_last() =~= before);
                assert(head + enc_caveats(now) =~= head + enc_caveats(before) + enc_caveat(c@));
                assert forall|t: TokenModel| encodable(t) && #[trigger] encode_token(t) == d implies now == t.caveats.take(
                    i + 1,
                ) by {
                    assert(t.caveats.take(i + 1) =~= t.caveats.take(i as int).push(t.caveats[i as int]));
                }
            }
            pos = next;
            i += 1;
        }
        proof {
            assert forall|t: TokenModel| encodable(t) && #[trigger] encode_token(t) == d implies stroopwafel::caveats_view(
                caveats@,
            ) == t.caveats && prefix_at(d, pos as int, enc_bin(t.signature)) && fits_u32(t.signature.len()) && pos
                + enc_bin(t.signature).len() == d.len() by {
                assert(t.caveats.take(n as int) =~= t.caveats);
            }
        }
        let (sig, end) = match read_bin(data, pos) {
            Some(v) => v,
            None => {
                proof {
                    assert forall|t: TokenModel| encodable(t) && #[trigger] encode_token(t) == d implies false by {
                        assert(prefix_at(d, pos as int, enc_bin(t.signature)));
                    }
                }
                return Err(malformed());
            },
        };
        if sig.len() != SIGNATURE_SIZE || end != data.len() {
            proof {
                assert forall|t: TokenModel| encodable(t) && #[trigger] encode_token(t) == d implies false by {
                    assert(prefix_at(d, pos as int, enc_bin(t.signature)));
                }
            }
            return Err(malformed());
        }
        let u = Stroopwafel { location, identifier, caveats, signature: to_tag(sig.as_slice()) };
        proof {
            lemma_prefix_join(d, 0, head + enc_caveats(u@.caveats), enc_bin(sig@));
            assert(head + enc_caveats(u@.caveats) + enc_bin(sig@) =~= encode_token(u@));
            assert(d.subrange(0, d.len() as int) =~= d);
            assert forall|t: TokenModel| encodable(t) && #[trigger] encode_token(t) == d implies u@ == t by {
                assert(t.caveats.take(n as int) =~= t.caveats);
            }
        }
        Ok(u)
    }
}

#[verifier::external_type_specification]
#[verifier::external_body]
pub struct ExFromHexError(hex::FromHexError);

#[verifier::external_type_specification]
#[verifier::external_body]
pub struct ExDecodeError(base64::DecodeError);

/// The lowercase hexadecimal digit of `v` (below 16).
pub open spec fn hex_digit(v: int) -> char {
    if v < 10 {
        (48 + v) as char
    } else {
        (87 + v) as char
    }
}

/// The value of hexadecimal digit `c` in either case.
pub open spec fn hex_value(c: char) -> Option<int> {
    let u = c as u32;
    if 48 <= u <= 57 {
        Some(u - 48)
    } else if 97 <= u <= 102 {
        Some(u - 87)
    } else if 65 <= u <= 70 {
        Some(u - 55)
    } else {
        None
    }
}

/// Two lowercase hexadecimal digits for each byte of `b`.
pub open spec fn hex_of(b: Seq<u8>) -> Seq<char> {
    Seq::new(2 * b.len(), |i: int| if i % 2 == 0 { hex_digit(b[i / 2] as int / 16) } else { hex_digit(b[i / 2] as int % 16) })
}

/// `s` is an even number of hexadecimal digits.
pub open spec fn is_hex_text(s: Seq<char>) -> bool {
    s.len() % 2 == 0 && forall|i: int| 0 <= i < s.len() ==> (#[trigger] hex_value(s[i])) is Some
}

/// The bytes that the hexadecimal digit pairs of `s` stand for.
pub open spec fn hex_bytes(s: Seq<char>) -> Seq<u8> {
    Seq::new(s.len() / 2, |i: int| (hex_value(s[2 * i])->Some_0 * 16 + hex_value(s[2 * i + 1])->Some_0) as u8)
}

/// Relies on `hex::encode`: two lowercase digits for each byte.
#[verifier::external_body]
fn hex_encode(b: &[u8]) -> (r: String)
    ensures
        r@ == hex_of(b@),
{
    hex::encode(b)
}

/// Relies on `hex::decode`: it succeeds exactly on an even number of
/// hexadecimal digits of either case (any other character, as UTF-8, has a
/// byte outside `0-9a-fA-F`), each pair giving one byte.
#[verifier::external_body]
fn hex_decode(s: &str) -> (r: Result<Vec<u8>, hex::FromHexError>)
    ensures
        r is Ok <==> is_hex_text(s@),
        r matches Ok(v) ==> v@ == hex_bytes(s@),
{
    hex::decode(s)
}

/// The URL-safe, unpadded base64 text of `b`.
pub uninterp spec fn base64_of(b: Seq<u8>) -> Seq<char>;

/// Relies on base64's `URL_SAFE_NO_PAD.encode`: the text depends on the bytes
/// alone.
#[verifier::external_body]
fn base64_encode(b: &[u8]) -> (r: String)
    ensures
        r@ == base64_of(b@),
{
    base64::engine::general_purpose::URL_SAFE_NO_PAD.encode(b)
}

/// Relies on base64's `URL_SAFE_NO_PAD.decode`: decoding the text that
/// `encode` made of some bytes gives those bytes back, and since this engine
/// accepts neither padding nor nonzero trailing bits, any text it decodes is
/// the encoding of what it decodes to.
#[verifier::external_body]
fn base64_decode(s: &str) -> (r: Result<Vec<u8>, base64::DecodeError>)
    ensures
        r is Ok || forall|w: Seq<u8>| base64_of(w) != s@,
        r matches Ok(v) ==> base64_of(v@) == s@,
        r matches Ok(v) ==> forall|w: Seq<u8>| #[trigger] base64_of(w) == s@ ==> v@ == w,
{
    base64::engine::general_purpose::URL_SAFE_NO_PAD.decode(s)
}

impl Stroopwafel {
    /// Serializes this token as lowercase hexadecimal of its MessagePack
    /// encoding.
    pub fn to_hex(&self) -> (r: Result<String, StroopwafelError>)
        ensures
            r is Ok <==> encodable(self@),
            r matches Ok(s) ==> s@ == hex_of(encode_token(self@)),
            r is Err ==> r matches Err(StroopwafelError::DeserializationError(_)),
    {
        let bytes = self.to_msgpack()?;
        Ok(hex_encode(bytes.as_slice()))
    }

    /// Deserializes a token from hexadecimal text of its MessagePack
    /// encoding.
    pub fn from_hex(hex_str: &str) -> (r: Result<Stroopwafel, StroopwafelError>)
        ensures
            r matches Ok(u) ==> is_hex_text(hex_str@) && encodable(u@) && encode_token(u@) == hex_bytes(hex_str@),
            is_hex_text(hex_str@) ==> forall|t: TokenModel|
                encodable(t) && #[trigger] encode_token(t) == hex_bytes(hex_str@) ==> (r matches Ok(u) && u@ == t),
            r is Err ==> r matches Err(StroopwafelError::DeserializationError(_)),
    {
        match hex_decode(hex_str) {
            Ok(bytes) => Self::from_msgpack(bytes.as_slice()),
            Err(e) => Err(StroopwafelError::DeserializationError(e.to_string())),
        }
    }

    /// Serializes this token as URL-safe, unpadded base64 of its MessagePack
    /// encoding.
    pub fn to_base64(&self) -> (r: Result<String, StroopwafelError>)
        ensures
            r is Ok <==> encodable(self@),
            r matches Ok(s) ==> s@ == base64_of(encode_token(self@)),
            r is Err ==> r matches Err(StroopwafelError::DeserializationError(_)),
    {
        let bytes = self.to_msgpack()?;
        Ok(base64_encode(bytes.as_slice()))
    }

    /// Deserializes a token from URL-safe, unpadded base64 of its MessagePack
    /// encoding.
    pub fn from_base64(b64: &str) -> (r: Result<Stroopwafel, StroopwafelError>)
        ensures
            forall|t: TokenModel| encodable(t) && #[trigger] base64_of(encode_token(t)) == b64@ ==> (r matches Ok(u) && u@ == t),
            r matches Ok(u) ==> encodable(u@) && base64_of(encode_token(u@)) == b64@,
            r is Err ==> r matches Err(StroopwafelError::DeserializationError(_)),
    {
        match base64_decode(b64) {
            Ok(bytes) => Self::from_msgpack(bytes.as_slice()),
            Err(e) => Err(StroopwafelError::DeserializationError(e.to_string())),
        }
    }
}

pub(crate) proof fn lemma_sized_unique(f: LenForm, d: Seq<u8>, pos: int, a: Seq<u8>, b: Seq<u8>)
    requires
        form_ok(f),
        fits_u32(a.len()),
        fits_u32(b.len()),
        prefix_at(d, pos, len_header(f, a.len()) + a),
        prefix_at(d, pos, len_header(f, b.len()) + b),
    ensures
        a == b,
{
    lemma_prefix_split(d, pos, len_header(f, a.len()), a);
    lemma_prefix_split(d, pos, len_header(f, b.len()), b);
    lemma_header_complete(f, d, pos, a.len());
    lemma_header_complete(f, d, pos, b.len());
}

proof fn lemma_str_unique(d: Seq<u8>, pos: int, x: Seq<char>, y: Seq<char>)
    requires
        fits_u32(vstd::utf8::encode_utf8(x).len()),
        fits_u32(vstd::utf8::encode_utf8(y).len()),
        prefix_at(d, pos, enc_str(x)),
        prefix_at(d, pos, enc_str(y)),
    ensures
        x == y,
{
    lemma_sized_unique(str_form(), d, pos, vstd::utf8::encode_utf8(x), vstd::utf8::encode_utf8(y));
    vstd::utf8::encode_utf8_decode_utf8(x);
    vstd::utf8::encode_utf8_decode_utf8(y);
}

proof fn lemma_first_byte(d: Seq<u8>, pos: int, e: Seq<u8>)
    requires
        prefix_at(d, pos, e),
        e.len() > 0,
    ensures
        d[pos] == e[0],
{
    assert(d.subrange(pos, pos + e.len())[0] == d[pos]);
}

proof fn lemma_opt_bin_unique(d: Seq<u8>, pos: int, x: Option<Seq<u8>>, y: Option<Seq<u8>>)
    requires
        x matches Some(b) ==> fits_u32(b.len()),
        y matches Some(b) ==> fits_u32(b.len()),
        prefix_at(d, pos, enc_opt_bin(x)),
        prefix_at(d, pos, enc_opt_bin(y)),
    ensures
        x == y,
{
    lemma_first_byte(d, pos, enc_opt_bin(x));
    lemma_first_byte(d, pos, enc_opt_bin(y));
    if x is Some && y is Some {
        lemma_sized_unique(bin_form(), d, pos, x->Some_0, y->Some_0);
    }
}

pub(crate) proof fn lemma_opt_str_unique(d: Seq<u8>, pos: int, x: Option<Seq<char>>, y: Option<Seq<char>>)
    requires
        x matches Some(l) ==> fits_u32(vstd::utf8::encode_utf8(l).len()),
        y matches Some(l) ==> fits_u32(vstd::utf8::encode_utf8(l).len()),
        prefix_at(d, pos, enc_opt_str(x)),
        prefix_at(d, pos, enc_opt_str(y)),
    ensures
        x == y,
{
    lemma_first_byte(d, pos, enc_opt_str(x));
    lemma_first_byte(d, pos, enc_opt_str(y));
    if x is Some && y is Some {
        lemma_str_unique(d, pos, x->Some_0, y->Some_0);
    }
}

proof fn lemma_caveat_unique(d: Seq<u8>, pos: int, x: CaveatModel, y: CaveatModel)
    requires
        caveat_encodable(x),
        caveat_encodable(y),
        prefix_at(d, pos, enc_caveat(x)),
        prefix_at(d, pos, enc_caveat(y)),
    ensures
        x == y,
{
    let h = array_header(3);
    lemma_prefix_split(d, pos, h + enc_bin(x.caveat_id) + enc_opt_bin(x.verification_key_id), enc_opt_str(x.location));
    lemma_prefix_split(d, pos, h + enc_bin(x.caveat_id), enc_opt_bin(x.verification_key_id));
    lemma_prefix_split(d, pos, h, enc_bin(x.caveat_id));
    lemma_prefix_split(d, pos, h + enc_bin(y.caveat_id) + enc_opt_bin(y.verification_key_id), enc_opt_str(y.location));
    lemma_prefix_split(d, pos, h + enc_bin(y.caveat_id), enc_opt_bin(y.verification_key_id));
    lemma_prefix_split(d, pos, h, enc_bin(y.caveat_id));
    lemma_sized_unique(bin_form(), d, pos + h.len(), x.caveat_id, y.caveat_id);
    let p2 = pos + h.len() + enc_bin(x.caveat_id).len();
    lemma_opt_bin_unique(d, p2, x.verification_key_id, y.verification_key_id);
    let p3 = p2 + enc_opt_bin(x.verification_key_id).len();
    lemma_opt_str_unique(d, p3, x.location, y.location);
}

pub(crate) proof fn lemma_caveats_unique(d: Seq<u8>, pos: int, xs: Seq<CaveatModel>, ys: Seq<CaveatModel>)
    requires
        xs.len() == ys.len(),
        forall|i: int| 0 <= i < xs.len() ==> caveat_encodable(#[trigger] xs[i]),
        forall|i: int| 0 <= i < ys.len() ==> caveat_encodable(#[trigger] ys[i]),
        prefix_at(d, pos, enc_caveats(xs)),
        prefix_at(d, pos, enc_caveats(ys)),
    ensures
        xs == ys,
    decreases xs.len(),
{
    if xs.len() == 0 {
        assert(xs =~= ys);
    } else {
        lemma_prefix_split(d, pos, enc_caveats(xs.drop_last()), enc_caveat(xs.last()));
        lemma_prefix_split(d, pos, enc_caveats(ys.drop_last()), enc_caveat(ys.last()));
        assert forall|i: int| 0 <= i < xs.drop_last().len() implies caveat_encodable(#[trigger] xs.drop_last()[i]) by {
            assert(xs.drop_last()[i] == xs[i]);
        }
        assert forall|i: int| 0 <= i < ys.drop_last().len() implies caveat_encodable(#[trigger] ys.drop_last()[i]) by {
            assert(ys.drop_last()[i] == ys[i]);
        }
        lemma_caveats_unique(d, pos, xs.drop_last(), ys.drop_last());
        assert(caveat_encodable(xs[xs.len() - 1]));
        assert(caveat_encodable(ys[ys.len() - 1]));
        lemma_caveat_unique(d, pos + enc_caveats(xs.drop_last()).len(), xs.last(), ys.last());
        assert(xs =~= xs.drop_last().push(xs.last()));
        assert(ys =~= ys.drop_last().push(ys.last()));
    }
}

} // verus!
