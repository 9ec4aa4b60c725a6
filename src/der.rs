//! Definite-length DER tag-length-value framing.
use vstd::prelude::*;
use vstd::arithmetic::div_mod::lemma_fundamental_div_mod_converse;

verus! {

/// Content octets of one element must stay below this size (three length octets).
pub const CONTENT_LIMIT: usize = 0x1000000;

/// Low-level cause of a failed encode or decode.
#[derive(Debug, Clone, Copy, PartialEq, Eq, Structural)]
pub enum DerError {
    /// The input ended inside an element header or its content.
    Truncated,
    /// The length octets are not in the definite, minimal form.
    BadLength,
    /// An element has another tag than the structure requires.
    UnexpectedTag { expected: u8, found: u8 },
    /// Bytes follow the last element of a structure.
    TrailingData,
    /// The content of an element is not a value of its type.
    InvalidValue,
    /// A value is too large for the encoder.
    Oversized,
}

/// The definite-form DER length octets for a content length below `CONTENT_LIMIT`.
pub open spec fn length_octets(n: nat) -> Seq<u8> {
    if n < 0x80 {
        seq![n as u8]
    } else if n < 0x100 {
        seq![0x81u8, n as u8]
    } else if n < 0x10000 {
        seq![0x82u8, (n / 0x100) as u8, (n % 0x100) as u8]
    } else {
        seq![0x83u8, (n / 0x10000) as u8, ((n / 0x100) % 0x100) as u8, (n % 0x100) as u8]
    }
}

/// A complete DER element: tag, length octets, content.
pub open spec fn tlv(tag: u8, content: Seq<u8>) -> Seq<u8> {
    seq![tag] + length_octets(content.len()) + content
}

/// The length octets at the start of `s`: how many there are and the length they give.
pub open spec fn parse_length(s: Seq<u8>) -> Option<(nat, nat)> {
    if s.len() == 0 {
        None
    } else if s[0] < 0x80 {
        Some((1, s[0] as nat))
    } else if s[0] == 0x81 && s.len() >= 2 && s[1] >= 0x80 {
        Some((2, s[1] as nat))
    } else if s[0] == 0x82 && s.len() >= 3 && s[1] >= 1 {
        Some((3, s[1] as nat * 0x100 + s[2] as nat))
    } else if s[0] == 0x83 && s.len() >= 4 && s[1] >= 1 {
        Some((4, s[1] as nat * 0x10000 + s[2] as nat * 0x100 + s[3] as nat))
    } else {
        None
    }
}

proof fn lemma_split_byte(x: nat)
    ensures
        x == (x / 0x100) * 0x100 + x % 0x100,
        x % 0x100 < 0x100,
{
    vstd::arithmetic::div_mod::lemma_fundamental_div_mod(x as int, 0x100);
}

/// Canonical length octets are read back as the length they encode.
pub proof fn lemma_parse_length(n: nat, rest: Seq<u8>)
    requires
        n < CONTENT_LIMIT,
    ensures
        parse_length(length_octets(n) + rest) == Some((length_octets(n).len(), n)),
        1 <= length_octets(n).len() <= 4,
{
    let s = length_octets(n) + rest;
    if n < 0x80 {
    } else if n < 0x100 {
    } else if n < 0x10000 {
        lemma_split_byte(n);
        assert(n / 0x100 >= 1) by {
            vstd::arithmetic::div_mod::lemma_div_is_ordered(0x100, n as int, 0x100);
        }
        assert(n / 0x100 < 0x100) by {
            vstd::arithmetic::div_mod::lemma_div_by_multiple_is_strongly_ordered(n as int, 0x10000, 0x100, 0x100);
        }
        assert(s[1] as nat * 0x100 + s[2] as nat == n);
    } else {
        lemma_split_byte(n);
        let q = n / 0x100;
        lemma_split_byte(q);
        vstd::arithmetic::div_mod::lemma_div_denominator(n as int, 0x100, 0x100);
        assert(q / 0x100 == n / 0x10000);
        assert(n / 0x10000 >= 1) by {
            vstd::arithmetic::div_mod::lemma_div_is_ordered(0x10000, n as int, 0x10000);
        }
        assert(n / 0x10000 < 0x100) by {
            vstd::arithmetic::div_mod::lemma_div_by_multiple_is_strongly_ordered(n as int, 0x1000000, 0x100, 0x10000);
        }
        assert(s[1] as nat * 0x10000 + s[2] as nat * 0x100 + s[3] as nat == n);
    }
}

/// Length octets that parse are the canonical octets of the length they give.
pub proof fn lemma_length_canonical(s: Seq<u8>)
    requires
        parse_length(s) is Some,
    ensures
        ({
            let (k, n) = parse_length(s).unwrap();
            n < CONTENT_LIMIT && s.subrange(0, k as int) == length_octets(n)
        }),
{
    let (k, n) = parse_length(s).unwrap();
    if s[0] < 0x80 {
        assert(s.subrange(0, 1) =~= length_octets(n));
    } else if s[0] == 0x81 {
        assert(s.subrange(0, 2) =~= length_octets(n));
    } else if s[0] == 0x82 {
        lemma_fundamental_div_mod_converse(n as int, 0x100, s[1] as int, s[2] as int);
        assert(s.subrange(0, 3) =~= length_octets(n));
    } else {
        let hi = s[1] as nat * 0x100 + s[2] as nat;
        assert(n == hi * 0x100 + s[3] as nat);
        lemma_fundamental_div_mod_converse(n as int, 0x100, hi as int, s[3] as int);
        lemma_fundamental_div_mod_converse(hi as int, 0x100, s[1] as int, s[2] as int);
        vstd::arithmetic::div_mod::lemma_div_denominator(n as int, 0x100, 0x100);
        assert(s.subrange(0, 4) =~= length_octets(n));
    }
}

/// The element at the start of `s`: its tag, header size and content length.
pub open spec fn parse_tlv(s: Seq<u8>) -> Option<(u8, nat, nat)> {
    if s.len() < 2 {
        None
    } else {
        match parse_length(s.drop_first()) {
            Some((k, n)) => if 1 + k + n <= s.len() {
                Some((s[0], 1 + k, n))
            } else {
                None
            },
            None => None,
        }
    }
}

/// A canonical element is read back with its tag and content, whatever follows it.
pub proof fn lemma_parse_tlv(tag: u8, content: Seq<u8>, rest: Seq<u8>)
    requires
        content.len() < CONTENT_LIMIT,
    ensures
        parse_tlv(tlv(tag, content) + rest) == Some(
            (tag, 1 + length_octets(content.len()).len(), content.len()),
        ),
        (tlv(tag, content) + rest).subrange(
            1 + length_octets(content.len()).len() as int,
            tlv(tag, content).len() as int,
        ) == content,
        tlv(tag, content).len() == 1 + length_octets(content.len()).len() + content.len(),
{
    let s = tlv(tag, content) + rest;
    lemma_parse_length(content.len(), content + rest);
    assert(s.drop_first() =~= length_octets(content.len()) + (content + rest));
    assert(s.subrange(1 + length_octets(content.len()).len() as int, tlv(tag, content).len() as int)
        =~= content);
}

/// An element that parses is the canonical encoding of its tag and content.
pub proof fn lemma_tlv_canonical(s: Seq<u8>)
    requires
        parse_tlv(s) is Some,
    ensures
        ({
            let (t, h, n) = parse_tlv(s).unwrap();
            n < CONTENT_LIMIT && s.subrange(0, (h + n) as int) == tlv(t, s.subrange(h as int, (h + n) as int))
        }),
{
    let (t, h, n) = parse_tlv(s).unwrap();
    lemma_length_canonical(s.drop_first());
    assert(s.drop_first().subrange(0, h - 1) =~= s.subrange(1, h as int));
    assert(s.subrange(0, (h + n) as int) =~= tlv(t, s.subrange(h as int, (h + n) as int)));
}

/// Reads the header of the element that starts at `pos` and ends by `end`.
pub fn read_element(b: &[u8], pos: usize, end: usize) -> (r: Result<(u8, usize, usize), DerError>)
    requires
        pos <= end <= b@.len(),
    ensures
        match parse_tlv(b@.subrange(pos as int, end as int)) {
            Some((t, h, n)) => r == Ok::<(u8, usize, usize), DerError>((t, (pos + h) as usize, (pos + h + n) as usize)),
            None => r is Err,
        },
{
    let ghost s = b@.subrange(pos as int, end as int);
    if end - pos < 2 {
        return Err(DerError::Truncated);
    }
    let tag = b[pos];
    let first = b[pos + 1];
    let avail = end - pos;
    let mut h: usize;
    let mut n: usize;
    if first < 0x80 {
        h = 2;
        n = first as usize;
    } else if first == 0x81 {
        if avail < 3 || b[pos + 2] < 0x80 {
            return Err(DerError::BadLength);
        }
        h = 3;
        n = b[pos + 2] as usize;
    } else if first == 0x82 {
        if avail < 4 || b[pos + 2] < 1 {
            return Err(DerError::BadLength);
        }
        h = 4;
        n = b[pos + 2] as usize * 0x100 + b[pos + 3] as usize;
    } else if first == 0x83 {
        if avail < 5 || b[pos + 2] < 1 {
            return Err(DerError::BadLength);
        }
        h = 5;
        n = b[pos + 2] as usize * 0x10000 + b[pos + 3] as usize * 0x100 + b[pos + 4] as usize;
    } else {
        return Err(DerError::BadLength);
    }
    assert(parse_length(s.drop_first()) == Some(((h - 1) as nat, n as nat)));
    if n > avail - h {
        return Err(DerError::Truncated);
    }
    Ok((tag, pos + h, pos + h + n))
}

/// Reads the element at `pos` and requires it to carry `tag`; returns its content range.
pub fn expect_element(b: &[u8], pos: usize, end: usize, tag: u8) -> (r: Result<(usize, usize), DerError>)
    requires
        pos <= end <= b@.len(),
    ensures
        match parse_tlv(b@.subrange(pos as int, end as int)) {
            Some((t, h, n)) => if t == tag {
                r == Ok::<(usize, usize), DerError>(((pos + h) as usize, (pos + h + n) as usize))
            } else {
                r is Err
            },
            None => r is Err,
        },
{
    let (t, s, e) = read_element(b, pos, end)?;
    if t != tag {
        return Err(DerError::UnexpectedTag { expected: tag, found: t });
    }
    Ok((s, e))
}

/// Appends `src` to `out`.
pub fn push_all(out: &mut Vec<u8>, src: &[u8])
    ensures
        final(out)@ == old(out)@ + src@,
{
    let mut i: usize = 0;
    while i < src.len()
        invariant
            i <= src@.len(),
            out@ == old(out)@ + src@.subrange(0, i as int),
        decreases src@.len() - i,
    {
        out.push(src[i]);
        i += 1;
        assert(out@ =~= old(out)@ + src@.subrange(0, i as int));
    }
    assert(src@.subrange(0, i as int) =~= src@);
}

/// Appends the header of an element with the given tag and content length.
pub fn push_header(out: &mut Vec<u8>, tag: u8, len: usize)
    requires
        len < CONTENT_LIMIT,
    ensures
        final(out)@ == old(out)@ + seq![tag] + length_octets(len as nat),
{
    out.push(tag);
    if len < 0x80 {
        out.push(len as u8);
    } else if len < 0x100 {
        out.push(0x81);
        out.push(len as u8);
    } else if len < 0x10000 {
        out.push(0x82);
        out.push((len / 0x100) as u8);
        out.push((len % 0x100) as u8);
    } else {
        out.push(0x83);
        out.push((len / 0x10000) as u8);
        out.push(((len / 0x100) % 0x100) as u8);
        out.push((len % 0x100) as u8);
    }
    assert(final(out)@ =~= old(out)@ + seq![tag] + length_octets(len as nat));
}

/// Appends the element with the given tag and content.
pub fn push_element(out: &mut Vec<u8>, tag: u8, content: &[u8])
    requires
        content@.len() < CONTENT_LIMIT,
    ensures
        final(out)@ == old(out)@ + tlv(tag, content@),
{
    push_header(out, tag, content.len());
    push_all(out, content);
    assert(final(out)@ =~= old(out)@ + tlv(tag, content@));
}

} // verus!
