//! Byte encoding of the values that the log and the snapshot carry.
//!
//! Integers are 8 bytes little endian; an enum is one tag byte; a string is
//! its length in characters followed by each character's scalar value; a
//! sequence is its length followed by its elements. Every decoder reads
//! from a position and, on success, returns the value and the position
//! after it, such that the bytes in between are that value's encoding.
use vstd::prelude::*;
use vstd::string::StrSliceExecFns;

verus! {

/// `x` as 8 bytes, least significant first.
pub open spec fn enc_u64(x: u64) -> Seq<u8> {
    seq![
        (x & 0xff) as u8,
        ((x >> 8u64) & 0xff) as u8,
        ((x >> 16u64) & 0xff) as u8,
        ((x >> 24u64) & 0xff) as u8,
        ((x >> 32u64) & 0xff) as u8,
        ((x >> 40u64) & 0xff) as u8,
        ((x >> 48u64) & 0xff) as u8,
        ((x >> 56u64) & 0xff) as u8,
    ]
}

/// The scalar value of a character.
pub open spec fn char_code(c: char) -> u64 {
    (c as u32) as u64
}

/// The characters of `s`, one 8-byte scalar value each.
pub open spec fn enc_chars(s: Seq<char>) -> Seq<u8>
    decreases s.len(),
{
    if s.len() == 0 {
        Seq::empty()
    } else {
        enc_chars(s.drop_last()) + enc_u64(char_code(s.last()))
    }
}

/// A string: its length, then its characters.
pub open spec fn enc_str(s: Seq<char>) -> Seq<u8> {
    enc_u64(s.len() as u64) + enc_chars(s)
}

/// One tag byte.
pub open spec fn enc_tag(t: u8) -> Seq<u8> {
    seq![t]
}

/// The value that the 8 bytes `b[0..8]` encode.
pub open spec fn u64_of(b0: u8, b1: u8, b2: u8, b3: u8, b4: u8, b5: u8, b6: u8, b7: u8) -> u64 {
    (b0 as u64) | ((b1 as u64) << 8u64) | ((b2 as u64) << 16u64) | ((b3 as u64) << 24u64)
        | ((b4 as u64) << 32u64) | ((b5 as u64) << 40u64) | ((b6 as u64) << 48u64) | ((b7 as u64) << 56u64)
}

pub proof fn lemma_u64_bytes(b0: u8, b1: u8, b2: u8, b3: u8, b4: u8, b5: u8, b6: u8, b7: u8)
    ensures
        enc_u64(u64_of(b0, b1, b2, b3, b4, b5, b6, b7)) == seq![b0, b1, b2, b3, b4, b5, b6, b7],
{
    let x = u64_of(b0, b1, b2, b3, b4, b5, b6, b7);
    assert((x & 0xff) as u8 == b0 && ((x >> 8u64) & 0xff) as u8 == b1 && ((x >> 16u64) & 0xff) as u8 == b2
        && ((x >> 24u64) & 0xff) as u8 == b3 && ((x >> 32u64) & 0xff) as u8 == b4
        && ((x >> 40u64) & 0xff) as u8 == b5 && ((x >> 48u64) & 0xff) as u8 == b6
        && ((x >> 56u64) & 0xff) as u8 == b7) by (bit_vector)
        requires x == (b0 as u64) | ((b1 as u64) << 8u64) | ((b2 as u64) << 16u64) | ((b3 as u64) << 24u64)
            | ((b4 as u64) << 32u64) | ((b5 as u64) << 40u64) | ((b6 as u64) << 48u64) | ((b7 as u64) << 56u64);
    assert(enc_u64(x) =~= seq![b0, b1, b2, b3, b4, b5, b6, b7]);
}

/// Whether the bytes `e` stand in `b` at `pos`.
pub open spec fn holds_at(b: Seq<u8>, pos: int, e: Seq<u8>) -> bool {
    0 <= pos && pos + e.len() <= b.len() && b.subrange(pos, pos + e.len()) == e
}

/// What stands at `pos` also stands there in pieces.
pub proof fn lemma_holds_split(b: Seq<u8>, pos: int, x: Seq<u8>, y: Seq<u8>)
    requires
        holds_at(b, pos, x + y),
    ensures
        holds_at(b, pos, x),
        holds_at(b, pos + x.len(), y),
{
    let e = x + y;
    assert forall|i: int| 0 <= i < x.len() implies b[pos + i] == x[i] by {
        assert(b.subrange(pos, pos + e.len())[i] == e[i]);
    }
    assert forall|i: int| 0 <= i < y.len() implies b[pos + x.len() + i] == y[i] by {
        assert(b.subrange(pos, pos + e.len())[x.len() + i] == e[x.len() + i]);
    }
    assert(b.subrange(pos, pos + x.len()) =~= x);
    assert(b.subrange(pos + x.len(), pos + x.len() + y.len()) =~= y);
}

/// A part of what stands at `pos` stands at its offset.
pub proof fn lemma_holds_part(b: Seq<u8>, pos: int, e: Seq<u8>, a: int, c: int)
    requires
        holds_at(b, pos, e),
        0 <= a <= c <= e.len(),
    ensures
        holds_at(b, pos + a, e.subrange(a, c)),
{
    assert forall|i: int| 0 <= i < c - a implies #[trigger] b[pos + a + i] == e[a + i] by {
        assert(b.subrange(pos, pos + e.len())[a + i] == e[a + i]);
    }
    assert(b.subrange(pos + a, pos + c) =~= e.subrange(a, c));
}

/// The `i`-th character's bytes in the encoding of `t`.
pub proof fn lemma_enc_chars_chunk(t: Seq<char>, i: int)
    requires
        0 <= i < t.len(),
    ensures
        enc_chars(t).len() == 8 * t.len(),
        enc_chars(t).subrange(8 * i, 8 * i + 8) == enc_u64(char_code(t[i])),
    decreases t.len(),
{
    lemma_enc_chars_len(t.drop_last());
    if i == t.len() - 1 {
        assert(enc_chars(t).subrange(8 * i, 8 * i + 8) =~= enc_u64(char_code(t[i])));
    } else {
        lemma_enc_chars_chunk(t.drop_last(), i);
        assert(enc_chars(t).subrange(8 * i, 8 * i + 8) =~= enc_chars(t.drop_last()).subrange(8 * i, 8 * i + 8));
    }
}

pub proof fn lemma_enc_chars_len(t: Seq<char>)
    ensures
        enc_chars(t).len() == 8 * t.len(),
    decreases t.len(),
{
    if t.len() > 0 {
        lemma_enc_chars_len(t.drop_last());
    }
}

/// A character is a Unicode scalar value, and is determined by it.
pub proof fn lemma_char_scalar(c: char)
    ensures
        (c as u32) <= 0xD7FF || (0xE000 <= (c as u32) && (c as u32) <= 0x10FFFF),
        forall|d: char| #[trigger] (d as u32) == (c as u32) ==> d == c,
{
}

/// Each value has one encoding: equal encodings mean equal values.
pub proof fn lemma_enc_u64_injective(x: u64, y: u64)
    requires
        enc_u64(x) == enc_u64(y),
    ensures
        x == y,
{
    let e = enc_u64(x);
    assert(e[0] == enc_u64(y)[0] && e[1] == enc_u64(y)[1] && e[2] == enc_u64(y)[2] && e[3] == enc_u64(y)[3]);
    assert(e[4] == enc_u64(y)[4] && e[5] == enc_u64(y)[5] && e[6] == enc_u64(y)[6] && e[7] == enc_u64(y)[7]);
    assert(x == y) by (bit_vector)
        requires
            (x & 0xff) as u8 == (y & 0xff) as u8,
            ((x >> 8u64) & 0xff) as u8 == ((y >> 8u64) & 0xff) as u8,
            ((x >> 16u64) & 0xff) as u8 == ((y >> 16u64) & 0xff) as u8,
            ((x >> 24u64) & 0xff) as u8 == ((y >> 24u64) & 0xff) as u8,
            ((x >> 32u64) & 0xff) as u8 == ((y >> 32u64) & 0xff) as u8,
            ((x >> 40u64) & 0xff) as u8 == ((y >> 40u64) & 0xff) as u8,
            ((x >> 48u64) & 0xff) as u8 == ((y >> 48u64) & 0xff) as u8,
            ((x >> 56u64) & 0xff) as u8 == ((y >> 56u64) & 0xff) as u8,
    ;
}

/// Appends the encoding of `x`.
pub fn put_u64(out: &mut Vec<u8>, x: u64)
    ensures
        final(out)@ == old(out)@ + enc_u64(x),
{
    out.push((x & 0xff) as u8);
    out.push(((x >> 8) & 0xff) as u8);
    out.push(((x >> 16) & 0xff) as u8);
    out.push(((x >> 24) & 0xff) as u8);
    out.push(((x >> 32) & 0xff) as u8);
    out.push(((x >> 40) & 0xff) as u8);
    out.push(((x >> 48) & 0xff) as u8);
    out.push(((x >> 56) & 0xff) as u8);
    proof {
        assert(out@ =~= old(out)@ + enc_u64(x));
    }
}

/// Appends one tag byte.
pub fn put_tag(out: &mut Vec<u8>, t: u8)
    ensures
        final(out)@ == old(out)@ + enc_tag(t),
{
    out.push(t);
    proof {
        assert(out@ =~= old(out)@ + enc_tag(t));
    }
}

/// Reads the integer at `pos`.
pub fn get_u64(b: &[u8], pos: usize) -> (r: Option<(u64, usize)>)
    ensures
        r.is_none() <==> pos + 8 > b@.len(),
        r matches Some((v, p)) ==> p == pos + 8 && p <= b@.len() && b@.subrange(pos as int, p as int) == enc_u64(v),
        forall|x: u64| #[trigger] holds_at(b@, pos as int, enc_u64(x)) ==> r == Some((x, (pos + 8) as usize)),
{
    if pos > b.len() || b.len() - pos < 8 {
        return None;
    }
    let v = (b[pos] as u64) | ((b[pos + 1] as u64) << 8) | ((b[pos + 2] as u64) << 16)
        | ((b[pos + 3] as u64) << 24) | ((b[pos + 4] as u64) << 32) | ((b[pos + 5] as u64) << 40)
        | ((b[pos + 6] as u64) << 48) | ((b[pos + 7] as u64) << 56);
    proof {
        lemma_u64_bytes(b@[pos as int], b@[pos + 1], b@[pos + 2], b@[pos + 3], b@[pos + 4], b@[pos + 5],
            b@[pos + 6], b@[pos + 7]);
        assert(b@.subrange(pos as int, pos + 8) =~= seq![b@[pos as int], b@[pos + 1], b@[pos + 2],
            b@[pos + 3], b@[pos + 4], b@[pos + 5], b@[pos + 6], b@[pos + 7]]);
        assert forall|x: u64| #[trigger] holds_at(b@, pos as int, enc_u64(x)) implies v == x by {
            lemma_enc_u64_injective(v, x);
        }
    }
    Some((v, pos + 8))
}

/// Reads the tag byte at `pos`.
pub fn get_tag(b: &[u8], pos: usize) -> (r: Option<(u8, usize)>)
    ensures
        r.is_none() <==> pos + 1 > b@.len(),
        r matches Some((t, p)) ==> p == pos + 1 && p <= b@.len() && b@.subrange(pos as int, p as int) == enc_tag(t),
        forall|x: u8| #[trigger] holds_at(b@, pos as int, enc_tag(x)) ==> r == Some((x, (pos + 1) as usize)),
{
    if pos >= b.len() {
        return None;
    }
    proof {
        assert(b@.subrange(pos as int, pos + 1) =~= enc_tag(b@[pos as int]));
        assert forall|x: u8| #[trigger] holds_at(b@, pos as int, enc_tag(x)) implies b@[pos as int] == x by {
            assert(b@.subrange(pos as int, pos + 1)[0] == b@[pos as int]);
        }
    }
    Some((b[pos], pos + 1))
}

/// Relies on `char::from_u32`: `Some` exactly for Unicode scalar values
/// (up to 0x10FFFF, outside the surrogates 0xD800..=0xDFFF), and then the
/// character of that value.
#[verifier::external_body]
fn char_from_code(v: u32) -> (r: Option<char>)
    ensures
        r.is_some() <==> (v <= 0xD7FF || (0xE000 <= v && v <= 0x10FFFF)),
        r matches Some(c) ==> c as u32 == v,
{
    char::from_u32(v)
}

/// Relies on `String::push`: appends one character.
#[verifier::external_body]
pub(crate) fn push_char(s: &mut String, c: char)
    ensures
        final(s)@ == old(s)@.push(c),
{
    s.push(c)
}

/// Appends the encoding of the string `s`.
pub fn put_str(out: &mut Vec<u8>, s: &String)
    ensures
        final(out)@ == old(out)@ + enc_str(s@),
{
    let t = s.as_str();
    let n = t.unicode_len();
    put_u64(out, n as u64);
    let ghost start = out@;
    let mut i: usize = 0;
    while i < n
        invariant
            n == s@.len(),
            t@ == s@,
            0 <= i <= n,
            out@ == start + enc_chars(s@.subrange(0, i as int)),
        decreases n - i,
    {
        let c = t.get_char(i);
        put_u64(out, c as u32 as u64);
        proof {
            let p = s@.subrange(0, i + 1);
            assert(p.drop_last() =~= s@.subrange(0, i as int));
            assert(p.last() == c);
            vstd::seq_lib::lemma_concat_associative(start, enc_chars(s@.subrange(0, i as int)), enc_u64(char_code(c)));
        }
        i += 1;
    }
    proof {
        assert(s@.subrange(0, n as int) =~= s@);
        vstd::seq_lib::lemma_concat_associative(old(out)@, enc_u64(s@.len() as u64), enc_chars(s@));
    }
}

/// Reads the string at `pos`; when the encoding of `target` stands there,
/// it is that string.
pub fn get_str(b: &[u8], pos: usize, target: Ghost<Option<Seq<char>>>) -> (r: Option<(String, usize)>)
    requires
        target@ matches Some(t) ==> holds_at(b@, pos as int, enc_str(t)),
    ensures
        r matches Some((s, p)) ==> pos <= p <= b@.len() && b@.subrange(pos as int, p as int) == enc_str(s@),
        target@ matches Some(t) ==> (r matches Some((s, p)) && s@ == t && p == pos + enc_str(t).len()),
{
    let blen = b.len();
    proof {
        if let Some(t) = target@ {
            lemma_holds_split(b@, pos as int, enc_u64(t.len() as u64), enc_chars(t));
            lemma_enc_chars_len(t);
            assert(t.len() <= blen);
        }
    }
    let (n, mut p) = match get_u64(b, pos) {
        Some(x) => x,
        None => {
            return None;
        },
    };
    let mut s = String::new();
    let mut i: u64 = 0;
    while i < n
        invariant
            pos + 8 <= p <= b@.len(),
            b@.subrange(pos as int, pos + 8) == enc_u64(n),
            s@.len() == i,
            0 <= i <= n,
            b@.subrange(pos + 8, p as int) == enc_chars(s@),
            target@ matches Some(t) ==> holds_at(b@, pos + 8, enc_chars(t)) && n == t.len()
                && s@ == t.subrange(0, i as int) && p == pos + 8 + 8 * i && enc_chars(t).len() == 8 * t.len(),
        decreases n - i,
    {
        proof {
            if let Some(t) = target@ {
                lemma_enc_chars_chunk(t, i as int);
                lemma_holds_part(b@, pos + 8, enc_chars(t), 8 * i, 8 * i + 8);
                assert(holds_at(b@, p as int, enc_u64(char_code(t[i as int]))));
            }
        }
        let (v, q) = match get_u64(b, p) {
            Some(x) => x,
            None => {
                return None;
            },
        };
        proof {
            if let Some(t) = target@ {
                assert(v == char_code(t[i as int]));
                lemma_char_scalar(t[i as int]);
            }
        }
        if v > 0x10FFFF {
            return None;
        }
        let c = match char_from_code(v as u32) {
            Some(c) => c,
            None => {
                return None;
            },
        };
        let ghost s0 = s@;
        push_char(&mut s, c);
        proof {
            assert(s@.drop_last() =~= s0);
            assert(char_code(c) == v);
            if let Some(t) = target@ {
                lemma_char_scalar(t[i as int]);
                lemma_char_scalar(c);
                assert(s@ =~= t.subrange(0, i + 1));
            }
            assert(b@.subrange(pos + 8, q as int) =~= b@.subrange(pos + 8, p as int) + b@.subrange(p as int, q as int));
        }
        p = q;
        i += 1;
    }
    proof {
        assert(b@.subrange(pos as int, p as int) =~= b@.subrange(pos as int, pos + 8) + b@.subrange(pos + 8, p as int));
        if let Some(t) = target@ {
            assert(s@ =~= t);
        }
    }
    Some((s, p))
}

} // verus!
