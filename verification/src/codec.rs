use vstd::prelude::*;

use vstd::arithmetic::div_mod::lemma_fundamental_div_mod;

use crate::errors::CdxError;
use crate::history::{views_of, Entry, EntryV, History};
use crate::text::push_char;

verus! {

// The persisted form of a history is one self-describing byte string:
// an eight-byte little-endian entry count, then each entry as its two
// strings, a string being an eight-byte little-endian character count
// followed by each character as its four-byte little-endian scalar
// value. Decoding accepts exactly the encodings and nothing else.

/// The `width` lowest little-endian base-256 digits of `n`.
pub open spec fn le_bytes(n: nat, width: nat) -> Seq<u8>
    decreases width,
{
    if width == 0 {
        Seq::empty()
    } else {
        seq![(n % 256) as u8] + le_bytes(n / 256, (width - 1) as nat)
    }
}

/// The value of a little-endian base-256 digit string.
pub open spec fn le_val(b: Seq<u8>) -> nat
    decreases b.len(),
{
    if b.len() == 0 {
        0
    } else {
        b[0] as nat + 256 * le_val(b.skip(1))
    }
}

/// 256 to the `w`.
pub open spec fn pow256(w: nat) -> nat
    decreases w,
{
    if w == 0 {
        1
    } else {
        256 * pow256((w - 1) as nat)
    }
}

/// `v` is a Unicode scalar value: a code point outside the surrogate
/// range.
pub open spec fn is_scalar_value(v: nat) -> bool {
    v < 0xD800 || (0xE000 <= v && v <= 0x10FFFF)
}

pub open spec fn encode_chars(s: Seq<char>) -> Seq<u8>
    decreases s.len(),
{
    if s.len() == 0 {
        Seq::empty()
    } else {
        le_bytes(s[0] as nat, 4) + encode_chars(s.skip(1))
    }
}

pub open spec fn encode_string(s: Seq<char>) -> Seq<u8> {
    le_bytes(s.len(), 8) + encode_chars(s)
}

pub open spec fn encode_entry(e: EntryV) -> Seq<u8> {
    encode_string(e.raw) + encode_string(e.canonical)
}

pub open spec fn encode_entries(h: Seq<EntryV>) -> Seq<u8>
    decreases h.len(),
{
    if h.len() == 0 {
        Seq::empty()
    } else {
        encode_entry(h[0]) + encode_entries(h.skip(1))
    }
}

/// The persisted byte form of a whole history.
pub open spec fn encode(h: Seq<EntryV>) -> Seq<u8> {
    le_bytes(h.len(), 8) + encode_entries(h)
}

pub open spec fn decode_len(b: Seq<u8>) -> Option<(nat, Seq<u8>)> {
    if b.len() >= 8 {
        Some((le_val(b.take(8)), b.skip(8)))
    } else {
        None
    }
}

pub open spec fn decode_char(b: Seq<u8>) -> Option<(char, Seq<u8>)> {
    if b.len() >= 4 && is_scalar_value(le_val(b.take(4))) {
        Some((le_val(b.take(4)) as char, b.skip(4)))
    } else {
        None
    }
}

pub open spec fn decode_chars(b: Seq<u8>, n: nat) -> Option<(Seq<char>, Seq<u8>)>
    decreases n,
{
    if n == 0 {
        Some((Seq::empty(), b))
    } else {
        match decode_char(b) {
            None => None,
            Some((c, rest)) => match decode_chars(rest, (n - 1) as nat) {
                None => None,
                Some((s, rest2)) => Some((seq![c] + s, rest2)),
            },
        }
    }
}

pub open spec fn decode_string(b: Seq<u8>) -> Option<(Seq<char>, Seq<u8>)> {
    match decode_len(b) {
        None => None,
        Some((n, rest)) => decode_chars(rest, n),
    }
}

pub open spec fn decode_entry(b: Seq<u8>) -> Option<(EntryV, Seq<u8>)> {
    match decode_string(b) {
        None => None,
        Some((raw, rest)) => match decode_string(rest) {
            None => None,
            Some((canonical, rest2)) => Some((EntryV { raw, canonical }, rest2)),
        },
    }
}

pub open spec fn decode_entries(b: Seq<u8>, n: nat) -> Option<(Seq<EntryV>, Seq<u8>)>
    decreases n,
{
    if n == 0 {
        Some((Seq::empty(), b))
    } else {
        match decode_entry(b) {
            None => None,
            Some((e, rest)) => match decode_entries(rest, (n - 1) as nat) {
                None => None,
                Some((h, rest2)) => Some((seq![e] + h, rest2)),
            },
        }
    }
}

/// The histories a byte string decodes to: `Some` exactly on complete,
/// well-formed encodings.
pub open spec fn decode(b: Seq<u8>) -> Option<Seq<EntryV>> {
    match decode_len(b) {
        None => None,
        Some((n, rest)) => match decode_entries(rest, n) {
            None => None,
            Some((h, rest2)) => if rest2.len() == 0 {
                Some(h)
            } else {
                None
            },
        },
    }
}

/// Every count in `h` fits the format's eight-byte length fields; true
/// of anything that exists in memory.
pub open spec fn encodable(h: Seq<EntryV>) -> bool {
    &&& h.len() < pow256(8)
    &&& forall|i: int|
        0 <= i < h.len() ==> (#[trigger] h[i]).raw.len() < pow256(8) && h[i].canonical.len()
            < pow256(8)
}

proof fn lemma_pow256_pos(w: nat)
    ensures
        pow256(w) >= 1,
    decreases w,
{
    if w > 0 {
        lemma_pow256_pos((w - 1) as nat);
    }
}

proof fn lemma_pow256_mono(a: nat, b: nat)
    requires
        a <= b,
    ensures
        pow256(a) <= pow256(b),
    decreases b,
{
    lemma_pow256_pos(a);
    if a < b {
        lemma_pow256_mono(a, (b - 1) as nat);
        lemma_pow256_pos((b - 1) as nat);
    }
}

proof fn lemma_pow256_8()
    ensures
        pow256(8) == 0x10000000000000000,
        pow256(4) == 0x100000000,
{
    reveal_with_fuel(pow256, 9);
}

proof fn lemma_le_bytes_len(n: nat, w: nat)
    ensures
        le_bytes(n, w).len() == w,
    decreases w,
{
    if w > 0 {
        lemma_le_bytes_len(n / 256, (w - 1) as nat);
    }
}

proof fn lemma_le_bytes_val(n: nat, w: nat)
    requires
        n < pow256(w),
    ensures
        le_val(le_bytes(n, w)) == n,
    decreases w,
{
    if w == 0 {
        assert(n == 0);
    } else {
        let d = (n % 256) as u8;
        let tail = le_bytes(n / 256, (w - 1) as nat);
        assert(n / 256 < pow256((w - 1) as nat)) by (nonlinear_arith)
            requires
                n < 256 * pow256((w - 1) as nat),
        ;
        lemma_le_bytes_val(n / 256, (w - 1) as nat);
        assert((seq![d] + tail).skip(1) =~= tail);
        assert((seq![d] + tail)[0] == d);
        lemma_fundamental_div_mod(n as int, 256);
    }
}

proof fn lemma_encode_chars_snoc(s: Seq<char>, c: char)
    ensures
        encode_chars(s.push(c)) == encode_chars(s) + le_bytes(c as nat, 4),
    decreases s.len(),
{
    if s.len() == 0 {
        assert(s.push(c)[0] == c);
        assert(s.push(c).skip(1) =~= Seq::<char>::empty());
        assert(encode_chars(Seq::<char>::empty()) == Seq::<u8>::empty());
        assert(encode_chars(s.push(c)) == le_bytes(c as nat, 4) + Seq::<u8>::empty());
        assert(le_bytes(c as nat, 4) + Seq::<u8>::empty() =~= le_bytes(c as nat, 4));
        assert(encode_chars(s) == Seq::<u8>::empty());
        assert(Seq::<u8>::empty() + le_bytes(c as nat, 4) =~= le_bytes(c as nat, 4));
    } else {
        lemma_encode_chars_snoc(s.skip(1), c);
        assert(s.push(c).skip(1) =~= s.skip(1).push(c));
        assert(s.push(c)[0] == s[0]);
        assert(le_bytes(s[0] as nat, 4) + (encode_chars(s.skip(1)) + le_bytes(c as nat, 4)) =~= (
        le_bytes(s[0] as nat, 4) + encode_chars(s.skip(1))) + le_bytes(c as nat, 4));
    }
}

proof fn lemma_encode_entries_snoc(h: Seq<EntryV>, e: EntryV)
    ensures
        encode_entries(h.push(e)) == encode_entries(h) + encode_entry(e),
    decreases h.len(),
{
    if h.len() == 0 {
        assert(h.push(e)[0] == e);
        assert(h.push(e).skip(1) =~= Seq::<EntryV>::empty());
        assert(encode_entries(Seq::<EntryV>::empty()) == Seq::<u8>::empty());
        assert(encode_entries(h.push(e)) == encode_entry(e) + Seq::<u8>::empty());
        assert(encode_entry(e) + Seq::<u8>::empty() =~= encode_entry(e));
        assert(encode_entries(h) == Seq::<u8>::empty());
        assert(Seq::<u8>::empty() + encode_entry(e) =~= encode_entry(e));
    } else {
        lemma_encode_entries_snoc(h.skip(1), e);
        assert(h.push(e).skip(1) =~= h.skip(1).push(e));
        assert(h.push(e)[0] == h[0]);
        assert(encode_entry(h[0]) + (encode_entries(h.skip(1)) + encode_entry(e)) =~= (
        encode_entry(h[0]) + encode_entries(h.skip(1))) + encode_entry(e));
    }
}

proof fn lemma_decode_len_of_encode(n: nat, rest: Seq<u8>)
    requires
        n < pow256(8),
    ensures
        decode_len(le_bytes(n, 8) + rest) == Some((n, rest)),
{
    lemma_le_bytes_len(n, 8);
    assert((le_bytes(n, 8) + rest).take(8) =~= le_bytes(n, 8));
    assert((le_bytes(n, 8) + rest).skip(8) =~= rest);
    lemma_le_bytes_val(n, 8);
}

proof fn lemma_decode_char_of_encode(c: char, rest: Seq<u8>)
    ensures
        decode_char(le_bytes(c as nat, 4) + rest) == Some((c, rest)),
{
    lemma_pow256_8();
    lemma_le_bytes_len(c as nat, 4);
    assert((le_bytes(c as nat, 4) + rest).take(4) =~= le_bytes(c as nat, 4));
    assert((le_bytes(c as nat, 4) + rest).skip(4) =~= rest);
    lemma_le_bytes_val(c as nat, 4);
    assert(is_scalar_value(c as nat));
    assert((c as nat) as char == c);
}

proof fn lemma_decode_chars_of_encode(s: Seq<char>, rest: Seq<u8>)
    ensures
        decode_chars(encode_chars(s) + rest, s.len()) == Some((s, rest)),
    decreases s.len(),
{
    if s.len() == 0 {
        assert(encode_chars(s) + rest =~= rest);
        assert(s =~= Seq::<char>::empty());
    } else {
        lemma_decode_chars_of_encode(s.skip(1), rest);
        assert((le_bytes(s[0] as nat, 4) + encode_chars(s.skip(1))) + rest =~= le_bytes(
            s[0] as nat,
            4,
        ) + (encode_chars(s.skip(1)) + rest));
        lemma_decode_char_of_encode(s[0], encode_chars(s.skip(1)) + rest);
        assert(seq![s[0]] + s.skip(1) =~= s);
    }
}

proof fn lemma_decode_string_of_encode(s: Seq<char>, rest: Seq<u8>)
    requires
        s.len() < pow256(8),
    ensures
        decode_string(encode_string(s) + rest) == Some((s, rest)),
{
    assert((le_bytes(s.len(), 8) + encode_chars(s)) + rest =~= le_bytes(s.len(), 8) + (
    encode_chars(s) + rest));
    lemma_decode_len_of_encode(s.len(), encode_chars(s) + rest);
    lemma_decode_chars_of_encode(s, rest);
}

proof fn lemma_decode_entry_of_encode(e: EntryV, rest: Seq<u8>)
    requires
        e.raw.len() < pow256(8),
        e.canonical.len() < pow256(8),
    ensures
        decode_entry(encode_entry(e) + rest) == Some((e, rest)),
{
    assert((encode_string(e.raw) + encode_string(e.canonical)) + rest =~= encode_string(e.raw) + (
    encode_string(e.canonical) + rest));
    lemma_decode_string_of_encode(e.raw, encode_string(e.canonical) + rest);
    lemma_decode_string_of_encode(e.canonical, rest);
}

proof fn lemma_decode_entries_of_encode(h: Seq<EntryV>, rest: Seq<u8>)
    requires
        forall|i: int|
            0 <= i < h.len() ==> (#[trigger] h[i]).raw.len() < pow256(8) && h[i].canonical.len()
                < pow256(8),
    ensures
        decode_entries(encode_entries(h) + rest, h.len()) == Some((h, rest)),
    decreases h.len(),
{
    if h.len() == 0 {
        assert(encode_entries(h) + rest =~= rest);
        assert(h =~= Seq::<EntryV>::empty());
    } else {
        lemma_decode_entries_of_encode(h.skip(1), rest);
        assert((encode_entry(h[0]) + encode_entries(h.skip(1))) + rest =~= encode_entry(h[0]) + (
        encode_entries(h.skip(1)) + rest));
        lemma_decode_entry_of_encode(h[0], encode_entries(h.skip(1)) + rest);
        assert(seq![h[0]] + h.skip(1) =~= h);
    }
}

/// Law: the persisted encoding round-trips. Decoding the bytes that
/// `encode` produces for any history yields exactly that history —
/// same order, same `raw` and `canonical` of every entry.
pub proof fn lemma_encode_decode(h: Seq<EntryV>)
    requires
        encodable(h),
    ensures
        decode(encode(h)) == Some(h),
{
    lemma_decode_len_of_encode(h.len(), encode_entries(h));
    lemma_decode_entries_of_encode(h, Seq::<u8>::empty());
    assert(encode_entries(h) + Seq::<u8>::empty() =~= encode_entries(h));
}

/// Relies on char::from_u32: `Some` exactly on Unicode scalar values
/// (code points outside the surrogate range), returning the character
/// with that value.
#[verifier::external_body]
fn char_from_u32(v: u32) -> (r: Option<char>)
    ensures
        r == if is_scalar_value(v as nat) {
            Some(v as char)
        } else {
            None::<char>
        },
{
    char::from_u32(v)
}

/// Appends the `width` lowest little-endian base-256 digits of `v`.
fn push_le(out: &mut Vec<u8>, v: u64, width: usize)
    ensures
        final(out)@ == old(out)@ + le_bytes(v as nat, width as nat),
{
    let mut m: u64 = v;
    let mut k: usize = 0;
    proof {
        assert(out@.subrange(0, old(out)@.len() as int) =~= old(out)@);
        assert(out@.skip(old(out)@.len() as int) =~= Seq::<u8>::empty());
        assert(le_bytes(v as nat, width as nat) =~= Seq::<u8>::empty() + le_bytes(
            v as nat,
            width as nat,
        ));
    }
    while k < width
        invariant
            k <= width,
            out@.len() == old(out)@.len() + k,
            out@.subrange(0, old(out)@.len() as int) == old(out)@,
            le_bytes(v as nat, width as nat) == out@.skip(old(out)@.len() as int) + le_bytes(
                m as nat,
                (width - k) as nat,
            ),
        decreases width - k,
    {
        let ghost out0 = out@;
        let ghost m0 = m as nat;
        let d = (m % 256) as u8;
        out.push(d);
        m = m / 256;
        k += 1;
        proof {
            assert(le_bytes(m0, (width - k + 1) as nat) == seq![(m0 % 256) as u8] + le_bytes(
                m0 / 256,
                (width - k) as nat,
            ));
            assert((m0 % 256) as u8 == d);
            assert(m as nat == m0 / 256);
            assert(out@.subrange(0, old(out)@.len() as int) =~= out0.subrange(
                0,
                old(out)@.len() as int,
            ));
            assert(out@.skip(old(out)@.len() as int) =~= out0.skip(old(out)@.len() as int)
                + seq![d]);
            assert((out0.skip(old(out)@.len() as int) + seq![d]) + le_bytes(
                m as nat,
                (width - k) as nat,
            ) =~= out0.skip(old(out)@.len() as int) + (seq![d] + le_bytes(
                m as nat,
                (width - k) as nat,
            )));
        }
    }
    proof {
        assert(le_bytes(m as nat, 0) == Seq::<u8>::empty());
        assert(out@.skip(old(out)@.len() as int) + Seq::<u8>::empty() =~= out@.skip(
            old(out)@.len() as int,
        ));
        assert(out@ =~= out@.subrange(0, old(out)@.len() as int) + out@.skip(
            old(out)@.len() as int,
        ));
    }
}

/// Appends the encoding of one string: its character count, then each
/// character's scalar value.
fn push_string(out: &mut Vec<u8>, s: &String)
    ensures
        final(out)@ == old(out)@ + encode_string(s@),
{
    let st: &str = s.as_str();
    let len = st.unicode_len();
    push_le(out, len as u64, 8);
    let mut i: usize = 0;
    proof {
        assert(s@.take(0) =~= Seq::<char>::empty());
        assert(out@ + Seq::<u8>::empty() =~= out@);
    }
    while i < len
        invariant
            i <= len,
            len == s@.len(),
            st@ == s@,
            out@ == old(out)@ + le_bytes(s@.len(), 8) + encode_chars(s@.take(i as int)),
        decreases len - i,
    {
        let c = st.get_char(i);
        push_le(out, c as u64, 4);
        proof {
            lemma_encode_chars_snoc(s@.take(i as int), c);
            assert(s@.take(i as int).push(c) =~= s@.take(i + 1));
            assert((c as u64) as nat == c as nat);
            assert((old(out)@ + le_bytes(s@.len(), 8) + encode_chars(s@.take(i as int))) + le_bytes(
                c as nat,
                4,
            ) =~= old(out)@ + le_bytes(s@.len(), 8) + (encode_chars(s@.take(i as int)) + le_bytes(
                c as nat,
                4,
            )));
        }
        i += 1;
    }
    proof {
        assert(s@.take(len as int) =~= s@);
        assert(old(out)@ + le_bytes(s@.len(), 8) + encode_chars(s@) =~= old(out)@ + (le_bytes(
            s@.len(),
            8,
        ) + encode_chars(s@)));
    }
}

/// Reads `width` bytes at `pos` as a little-endian value.
fn read_le(bytes: &Vec<u8>, pos: usize, width: usize) -> (r: Option<(u64, usize)>)
    requires
        width <= 8,
        pos <= bytes@.len(),
    ensures
        match r {
            Some(vp) => {
                &&& bytes@.len() - pos >= width
                &&& vp.1 == pos + width
                &&& vp.0 as nat == le_val(bytes@.subrange(pos as int, (pos + width) as int))
                &&& (vp.0 as nat) < pow256(width as nat)
            },
            None => bytes@.len() - pos < width,
        },
{
    let blen: usize = bytes.len();
    if blen - pos < width {
        return None;
    }
    let mut acc: u64 = 0;
    let mut k: usize = width;
    proof {
        assert(bytes@.subrange((pos + width) as int, (pos + width) as int) =~= Seq::<u8>::empty());
    }
    while k > 0
        invariant
            k <= width <= 8,
            blen == bytes@.len(),
            pos + width <= bytes@.len(),
            acc as nat == le_val(bytes@.subrange((pos + k) as int, (pos + width) as int)),
            (acc as nat) < pow256((width - k) as nat),
        decreases k,
    {
        let ghost acc0 = acc as nat;
        k -= 1;
        let b = bytes[pos + k];
        proof {
            let s = bytes@.subrange((pos + k) as int, (pos + width) as int);
            assert(s.len() == width - k);
            assert(s[0] == bytes@[pos + k]);
            assert(s.skip(1) =~= bytes@.subrange((pos + k + 1) as int, (pos + width) as int));
            lemma_pow256_mono((width - k) as nat, 8);
            lemma_pow256_8();
            assert(256 * acc0 + b < 256 * pow256((width - k - 1) as nat)) by (nonlinear_arith)
                requires
                    acc0 < pow256((width - k - 1) as nat),
                    b < 256,
            ;
            assert(256 * pow256((width - k - 1) as nat) == pow256((width - k) as nat));
        }
        acc = acc * 256 + (b as u64);
        proof {
            assert(acc as nat == 256 * acc0 + b);
        }
    }
    proof {
        assert(bytes@.subrange(pos as int, (pos + width) as int) == bytes@.subrange(
            (pos + 0) as int,
            (pos + width) as int,
        ));
    }
    Some((acc, pos + width))
}

/// Reads one encoded character at `pos`.
fn read_char(bytes: &Vec<u8>, pos: usize) -> (r: Option<(char, usize)>)
    requires
        pos <= bytes@.len(),
    ensures
        match r {
            Some(cp) => {
                &&& decode_char(bytes@.skip(pos as int)) == Some(
                    (cp.0, bytes@.skip(cp.1 as int)),
                )
                &&& cp.1 == pos + 4
                &&& pos + 4 <= bytes@.len()
            },
            None => decode_char(bytes@.skip(pos as int)) is None,
        },
{
    proof {
        lemma_pow256_8();
    }
    match read_le(bytes, pos, 4) {
        None => {
            proof {
                assert(bytes@.skip(pos as int).len() < 4);
            }
            None
        },
        Some((v, p2)) => {
            proof {
                assert(bytes@.skip(pos as int).take(4) =~= bytes@.subrange(
                    pos as int,
                    (pos + 4) as int,
                ));
                assert(bytes@.skip(pos as int).skip(4) =~= bytes@.skip((pos + 4) as int));
                assert((v as u32) as nat == v as nat);
            }
            match char_from_u32(v as u32) {
                Some(c) => Some((c, p2)),
                None => None,
            }
        },
    }
}

/// `o` with `acc` prepended to a decoded character sequence.
spec fn chars_with_prefix(acc: Seq<char>, o: Option<(Seq<char>, Seq<u8>)>) -> Option<
    (Seq<char>, Seq<u8>),
> {
    match o {
        None => None,
        Some((s, rest)) => Some((acc + s, rest)),
    }
}

/// Reads one encoded string at `pos`.
fn read_string(bytes: &Vec<u8>, pos: usize) -> (r: Option<(String, usize)>)
    requires
        pos <= bytes@.len(),
    ensures
        match r {
            Some(sp) => {
                &&& decode_string(bytes@.skip(pos as int)) == Some(
                    (sp.0@, bytes@.skip(sp.1 as int)),
                )
                &&& pos <= sp.1 <= bytes@.len()
            },
            None => decode_string(bytes@.skip(pos as int)) is None,
        },
{
    let (n, start) = match read_le(bytes, pos, 8) {
        None => {
            proof {
                assert(bytes@.skip(pos as int).len() < 8);
            }
            return None;
        },
        Some(vp) => vp,
    };
    proof {
        assert(bytes@.skip(pos as int).take(8) =~= bytes@.subrange(pos as int, (pos + 8) as int));
        assert(bytes@.skip(pos as int).skip(8) =~= bytes@.skip((pos + 8) as int));
    }
    let mut s = String::new();
    let mut p: usize = start;
    let mut j: u64 = 0;
    while j < n
        invariant
            j <= n,
            start == pos + 8 <= bytes@.len(),
            start <= p <= bytes@.len(),
            decode_len(bytes@.skip(pos as int)) == Some((n as nat, bytes@.skip(start as int))),
            decode_chars(bytes@.skip(start as int), n as nat) == chars_with_prefix(
                s@,
                decode_chars(bytes@.skip(p as int), (n - j) as nat),
            ),
        decreases n - j,
    {
        match read_char(bytes, p) {
            None => {
                proof {
                    assert(decode_chars(bytes@.skip(p as int), (n - j) as nat) is None);
                }
                return None;
            },
            Some((c, p2)) => {
                let ghost s0 = s@;
                push_char(&mut s, c);
                proof {
                    let o2 = decode_chars(bytes@.skip(p2 as int), (n - j - 1) as nat);
                    assert(decode_chars(bytes@.skip(p as int), (n - j) as nat)
                        == chars_with_prefix(seq![c], o2));
                    match o2 {
                        None => {},
                        Some((t, rest)) => {
                            assert(s0 + (seq![c] + t) =~= (s0.push(c)) + t);
                        },
                    }
                }
                p = p2;
                j += 1;
            },
        }
    }
    proof {
        assert(decode_chars(bytes@.skip(p as int), 0) == Some(
            (Seq::<char>::empty(), bytes@.skip(p as int)),
        ));
        assert(s@ + Seq::<char>::empty() =~= s@);
    }
    Some((s, p))
}

/// Reads one encoded entry at `pos`.
fn read_entry(bytes: &Vec<u8>, pos: usize) -> (r: Option<(Entry, usize)>)
    requires
        pos <= bytes@.len(),
    ensures
        match r {
            Some(ep) => {
                &&& decode_entry(bytes@.skip(pos as int)) == Some(
                    (ep.0@, bytes@.skip(ep.1 as int)),
                )
                &&& pos <= ep.1 <= bytes@.len()
            },
            None => decode_entry(bytes@.skip(pos as int)) is None,
        },
{
    match read_string(bytes, pos) {
        None => None,
        Some((raw, p1)) => match read_string(bytes, p1) {
            None => None,
            Some((canonical, p2)) => Some((Entry { raw, canonical }, p2)),
        },
    }
}

/// `o` with `acc` prepended to a decoded entry sequence.
spec fn entries_with_prefix(acc: Seq<EntryV>, o: Option<(Seq<EntryV>, Seq<u8>)>) -> Option<
    (Seq<EntryV>, Seq<u8>),
> {
    match o {
        None => None,
        Some((h, rest)) => Some((acc + h, rest)),
    }
}

impl History {
    /// Serializes the full ordered entry list into the persisted byte
    /// form.
    pub fn to_bytes(&self) -> (r: Vec<u8>)
        ensures
            r@ == encode(self@),
    {
        let entries = self.entries();
        let ghost h = self@;
        let mut out: Vec<u8> = Vec::new();
        push_le(&mut out, entries.len() as u64, 8);
        proof {
            assert(views_of(entries@).len() == h.len());
            assert(Seq::<u8>::empty() + le_bytes(h.len(), 8) =~= le_bytes(h.len(), 8));
            assert(h.take(0) =~= Seq::<EntryV>::empty());
            assert(out@ + Seq::<u8>::empty() =~= out@);
        }
        let mut i: usize = 0;
        while i < entries.len()
            invariant
                i <= entries@.len(),
                views_of(entries@) == h,
                out@ == le_bytes(h.len(), 8) + encode_entries(h.take(i as int)),
            decreases entries@.len() - i,
        {
            let ghost done = h.take(i as int);
            push_string(&mut out, &entries[i].raw);
            push_string(&mut out, &entries[i].canonical);
            proof {
                let e = h[i as int];
                assert(entries@[i as int]@ == e);
                lemma_encode_entries_snoc(done, e);
                assert(done.push(e) =~= h.take(i + 1));
                assert(((le_bytes(h.len(), 8) + encode_entries(done)) + encode_string(e.raw))
                    + encode_string(e.canonical) =~= le_bytes(h.len(), 8) + (encode_entries(done)
                    + (encode_string(e.raw) + encode_string(e.canonical))));
                assert(encode_entries(done) + (encode_string(e.raw) + encode_string(e.canonical))
                    =~= encode_entries(done) + encode_entry(e));
            }
            i += 1;
        }
        proof {
            assert(h.take(entries@.len() as int) =~= h);
        }
        out
    }

    /// Decodes the persisted byte form: `Ok` exactly on complete,
    /// well-formed encodings, `CorruptStore` on everything else. The
    /// absent-file case is the caller's: it starts from
    /// [`History::new`] instead.
    pub fn from_bytes(bytes: &Vec<u8>) -> (r: Result<History, CdxError>)
        ensures
            match r {
                Ok(h) => decode(bytes@) == Some(h@),
                Err(e) => decode(bytes@) is None && e matches CdxError::CorruptStore(_),
            },
    {
        let (count, start) = match read_le(bytes, 0, 8) {
            None => {
                return Err(
                    CdxError::CorruptStore(String::from_str("history bytes shorter than a count")),
                );
            },
            Some(vp) => vp,
        };
        proof {
            assert(bytes@.skip(0) =~= bytes@);
            assert(bytes@.take(8) =~= bytes@.subrange(0, 8));
        }
        let mut entries: Vec<Entry> = Vec::new();
        let mut p: usize = start;
        let mut i: u64 = 0;
        proof {
            assert(views_of(entries@) =~= Seq::<EntryV>::empty());
        }
        while i < count
            invariant
                i <= count,
                start == 8 <= bytes@.len(),
                start <= p <= bytes@.len(),
                decode_len(bytes@) == Some((count as nat, bytes@.skip(8))),
                decode_entries(bytes@.skip(8), count as nat) == entries_with_prefix(
                    views_of(entries@),
                    decode_entries(bytes@.skip(p as int), (count - i) as nat),
                ),
            decreases count - i,
        {
            match read_entry(bytes, p) {
                None => {
                    proof {
                        assert(decode_entries(bytes@.skip(p as int), (count - i) as nat) is None);
                    }
                    return Err(
                        CdxError::CorruptStore(
                            String::from_str("history bytes end inside an entry"),
                        ),
                    );
                },
                Some((e, p2)) => {
                    let ghost acc0 = views_of(entries@);
                    let ghost ev = e@;
                    entries.push(e);
                    proof {
                        let o2 = decode_entries(bytes@.skip(p2 as int), (count - i - 1) as nat);
                        assert(decode_entries(bytes@.skip(p as int), (count - i) as nat)
                            == entries_with_prefix(seq![ev], o2));
                        assert(views_of(entries@) =~= acc0.push(ev));
                        match o2 {
                            None => {},
                            Some((t, rest)) => {
                                assert(acc0 + (seq![ev] + t) =~= (acc0.push(ev)) + t);
                            },
                        }
                    }
                    p = p2;
                    i += 1;
                },
            }
        }
        proof {
            assert(decode_entries(bytes@.skip(p as int), 0) == Some(
                (Seq::<EntryV>::empty(), bytes@.skip(p as int)),
            ));
            assert(views_of(entries@) + Seq::<EntryV>::empty() =~= views_of(entries@));
        }
        if p != bytes.len() {
            return Err(
                CdxError::CorruptStore(String::from_str("history bytes continue past the list")),
            );
        }
        proof {
            assert(bytes@.skip(p as int).len() == 0);
        }
        Ok(History::from_entries(entries))
    }
}

} // verus!
