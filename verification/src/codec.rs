//! The plaintext encoding of an entry collection: a deterministic,
//! order-preserving, lossless byte encoding.
//!
//! Layout: a little-endian `u64` entry count, then for each entry its four
//! text fields in order (name, username, password, comments), each encoded
//! as a little-endian `u64` byte length followed by the field's UTF-8 bytes.
//! Decoding accepts exactly the encodings this module produces.

use vstd::prelude::*;
use vstd::bytes::*;
use vstd::utf8::*;
use vstd::slice::slice_subrange;
use crate::entry::{Entry, EntryView, views_of};

verus! {

/// The encoding of one text field: length prefix, then UTF-8 bytes.
pub open spec fn enc_str(s: Seq<char>) -> Seq<u8> {
    spec_u64_to_le_bytes(encode_utf8(s).len() as u64) + encode_utf8(s)
}

/// The encoding of one entry: its four fields in order.
pub open spec fn enc_entry(e: EntryView) -> Seq<u8> {
    enc_str(e.name) + enc_str(e.username) + enc_str(e.password) + enc_str(e.comments)
}

/// The concatenated encodings of a sequence of entries.
pub open spec fn enc_entries(es: Seq<EntryView>) -> Seq<u8>
    decreases es.len(),
{
    if es.len() == 0 {
        Seq::empty()
    } else {
        enc_entry(es[0]) + enc_entries(es.drop_first())
    }
}

/// The full plaintext encoding of an entry collection.
pub open spec fn serialize(es: Seq<EntryView>) -> Seq<u8> {
    spec_u64_to_le_bytes(es.len() as u64) + enc_entries(es)
}

/// A field whose length prefix fits in the `u64` of the encoding.
pub open spec fn str_encodable(s: Seq<char>) -> bool {
    encode_utf8(s).len() <= u64::MAX
}

pub open spec fn entry_encodable(e: EntryView) -> bool {
    &&& str_encodable(e.name)
    &&& str_encodable(e.username)
    &&& str_encodable(e.password)
    &&& str_encodable(e.comments)
}

/// A collection the encoding represents exactly. Every collection that fits
/// in memory satisfies this.
pub open spec fn encodable(es: Seq<EntryView>) -> bool {
    &&& es.len() <= u64::MAX
    &&& forall|i: int| 0 <= i < es.len() ==> entry_encodable(#[trigger] es[i])
}

/// Parse one length-prefixed field at position `i`; on success, the decoded
/// characters and the position just past the field.
pub open spec fn parse_str_at(b: Seq<u8>, i: int) -> Option<(Seq<char>, int)> {
    if 0 <= i && i + 8 <= b.len() {
        let n = spec_u64_from_le_bytes(b.subrange(i, i + 8)) as int;
        if i + 8 + n <= b.len() && valid_utf8(b.subrange(i + 8, i + 8 + n)) {
            Some((decode_utf8(b.subrange(i + 8, i + 8 + n)), i + 8 + n))
        } else {
            None
        }
    } else {
        None
    }
}

/// Parse one entry (four fields) at position `i`.
pub open spec fn parse_entry_at(b: Seq<u8>, i: int) -> Option<(EntryView, int)> {
    match parse_str_at(b, i) {
        Some((name, i1)) => match parse_str_at(b, i1) {
            Some((username, i2)) => match parse_str_at(b, i2) {
                Some((password, i3)) => match parse_str_at(b, i3) {
                    Some((comments, i4)) => Some(
                        (EntryView { name, username, password, comments }, i4),
                    ),
                    None => None,
                },
                None => None,
            },
            None => None,
        },
        None => None,
    }
}

/// Parse `n` consecutive entries starting at position `i`.
pub open spec fn parse_entries_at(b: Seq<u8>, i: int, n: nat) -> Option<(Seq<EntryView>, int)>
    decreases n,
{
    if n == 0 {
        Some((Seq::empty(), i))
    } else {
        match parse_entry_at(b, i) {
            Some((e, j)) => match parse_entries_at(b, j, (n - 1) as nat) {
                Some((es, k)) => Some((seq![e] + es, k)),
                None => None,
            },
            None => None,
        }
    }
}

/// Parse a whole plaintext: entry count, that many entries, nothing left
/// over. This is the inverse of `serialize` (see `lemma_serialize_parse`).
pub open spec fn parse(b: Seq<u8>) -> Option<Seq<EntryView>> {
    if b.len() >= 8 {
        let n = spec_u64_from_le_bytes(b.subrange(0, 8));
        match parse_entries_at(b, 8, n as nat) {
            Some((es, j)) => if j == b.len() {
                Some(es)
            } else {
                None
            },
            None => None,
        }
    } else {
        None
    }
}

/// A subrange equal to a concatenation splits into subranges equal to the
/// parts.
proof fn lemma_prefix_split(b: Seq<u8>, i: int, x: Seq<u8>, y: Seq<u8>)
    requires
        0 <= i,
        i + x.len() + y.len() <= b.len(),
        b.subrange(i, i + x.len() + y.len()) == x + y,
    ensures
        b.subrange(i, i + x.len()) == x,
        b.subrange(i + x.len(), i + x.len() + y.len()) == y,
{
    let xy = b.subrange(i, i + x.len() + y.len());
    assert forall|k: int| 0 <= k < x.len() implies b[i + k] == x[k] by {
        assert(xy[k] == b[i + k]);
        assert((x + y)[k] == x[k]);
    }
    assert(b.subrange(i, i + x.len()) =~= x);
    assert forall|k: int| 0 <= k < y.len() implies b[i + x.len() + k] == y[k] by {
        assert(xy[x.len() + k] == b[i + x.len() + k]);
        assert((x + y)[x.len() + k] == y[k]);
    }
    assert(b.subrange(i + x.len(), i + x.len() + y.len()) =~= y);
}

/// Parsing a field at the position where its encoding lies recovers it.
proof fn lemma_parse_str(b: Seq<u8>, i: int, s: Seq<char>)
    requires
        str_encodable(s),
        0 <= i,
        i + enc_str(s).len() <= b.len(),
        b.subrange(i, i + enc_str(s).len()) == enc_str(s),
    ensures
        parse_str_at(b, i) == Some((s, i + enc_str(s).len())),
{
    lemma_auto_spec_u64_to_from_le_bytes();
    broadcast use encode_utf8_valid_utf8, encode_utf8_decode_utf8;

    let bs = encode_utf8(s);
    let m = bs.len() as int;
    let h = spec_u64_to_le_bytes(bs.len() as u64);
    assert(h.len() == 8);
    lemma_prefix_split(b, i, h, bs);
    assert(spec_u64_from_le_bytes(b.subrange(i, i + 8)) == bs.len() as u64);
    assert((bs.len() as u64) as int == m);
    assert(b.subrange(i + 8, i + 8 + m) == bs);
    assert(valid_utf8(bs));
    assert(decode_utf8(bs) == s);
}

/// Parsing an entry at the position where its encoding lies recovers it.
proof fn lemma_parse_entry(b: Seq<u8>, i: int, e: EntryView)
    requires
        entry_encodable(e),
        0 <= i,
        i + enc_entry(e).len() <= b.len(),
        b.subrange(i, i + enc_entry(e).len()) == enc_entry(e),
    ensures
        parse_entry_at(b, i) == Some((e, i + enc_entry(e).len())),
{
    let a = enc_str(e.name);
    let bu = enc_str(e.username);
    let c = enc_str(e.password);
    let d = enc_str(e.comments);
    assert(enc_entry(e) =~= a + (bu + (c + d)));
    assert(enc_entry(e).len() == a.len() + bu.len() + c.len() + d.len());

    lemma_prefix_split(b, i, a, bu + (c + d));
    lemma_parse_str(b, i, e.name);
    let i1 = i + a.len();

    lemma_prefix_split(b, i1, bu, c + d);
    lemma_parse_str(b, i1, e.username);
    let i2 = i1 + bu.len();

    lemma_prefix_split(b, i2, c, d);
    lemma_parse_str(b, i2, e.password);
    let i3 = i2 + c.len();

    lemma_parse_str(b, i3, e.comments);
}

/// Parsing a run of entries at the position where their encodings lie
/// recovers them.
proof fn lemma_parse_entries(b: Seq<u8>, i: int, es: Seq<EntryView>)
    requires
        forall|k: int| 0 <= k < es.len() ==> entry_encodable(#[trigger] es[k]),
        0 <= i,
        i + enc_entries(es).len() <= b.len(),
        b.subrange(i, i + enc_entries(es).len()) == enc_entries(es),
    ensures
        parse_entries_at(b, i, es.len()) == Some((es, i + enc_entries(es).len())),
    decreases es.len(),
{
    if es.len() == 0 {
        assert(es =~= Seq::<EntryView>::empty());
    } else {
        let e = es[0];
        let rest = es.drop_first();
        assert(enc_entries(es) == enc_entry(e) + enc_entries(rest));
        lemma_prefix_split(b, i, enc_entry(e), enc_entries(rest));
        lemma_parse_entry(b, i, e);
        let j = i + enc_entry(e).len();
        lemma_parse_entries(b, j, rest);
        assert(seq![e] + rest =~= es);
    }
}

/// Round trip: decoding an encoding yields exactly the encoded collection.
/// This is the losslessness guarantee of the record model.
pub proof fn lemma_serialize_parse(es: Seq<EntryView>)
    requires
        encodable(es),
    ensures
        parse(serialize(es)) == Some(es),
{
    lemma_auto_spec_u64_to_from_le_bytes();
    let h = spec_u64_to_le_bytes(es.len() as u64);
    let t = enc_entries(es);
    let b = serialize(es);
    assert(h.len() == 8);
    assert(b.subrange(0, h.len() + t.len() as int) =~= b);
    lemma_prefix_split(b, 0, h, t);
    assert(spec_u64_from_le_bytes(b.subrange(0, 8)) == es.len() as u64);
    assert((es.len() as u64) as nat == es.len());
    lemma_parse_entries(b, 8, es);
}

/// Parsing only succeeds on a field's encoding: whatever a successful parse
/// read is exactly `enc_str` of its result.
proof fn lemma_parse_str_sound(b: Seq<u8>, i: int, s: Seq<char>, j: int)
    requires
        parse_str_at(b, i) == Some((s, j)),
    ensures
        str_encodable(s),
        i <= i + 8 <= j <= b.len(),
        enc_str(s).len() == j - i,
        b.subrange(i, j) == enc_str(s),
{
    lemma_auto_spec_u64_to_from_le_bytes();
    broadcast use decode_utf8_encode_utf8;

    let n = spec_u64_from_le_bytes(b.subrange(i, i + 8)) as int;
    let bytes = b.subrange(i + 8, i + 8 + n);
    assert(encode_utf8(s) == bytes);
    assert(spec_u64_to_le_bytes(bytes.len() as u64) == b.subrange(i, i + 8));
    assert(b.subrange(i, j) =~= b.subrange(i, i + 8) + b.subrange(i + 8, j));
}

/// Parsing only succeeds on an entry's encoding.
proof fn lemma_parse_entry_sound(b: Seq<u8>, i: int, e: EntryView, j: int)
    requires
        parse_entry_at(b, i) == Some((e, j)),
    ensures
        entry_encodable(e),
        i <= j <= b.len(),
        enc_entry(e).len() == j - i,
        b.subrange(i, j) == enc_entry(e),
{
    let (name, i1) = parse_str_at(b, i).unwrap();
    let (username, i2) = parse_str_at(b, i1).unwrap();
    let (password, i3) = parse_str_at(b, i2).unwrap();
    let (comments, i4) = parse_str_at(b, i3).unwrap();
    lemma_parse_str_sound(b, i, name, i1);
    lemma_parse_str_sound(b, i1, username, i2);
    lemma_parse_str_sound(b, i2, password, i3);
    lemma_parse_str_sound(b, i3, comments, i4);
    assert(b.subrange(i, j) =~= ((b.subrange(i, i1) + b.subrange(i1, i2)) + b.subrange(i2, i3))
        + b.subrange(i3, i4));
}

/// Parsing only succeeds on a run of entry encodings.
proof fn lemma_parse_entries_sound(b: Seq<u8>, i: int, n: nat, es: Seq<EntryView>, j: int)
    requires
        parse_entries_at(b, i, n) == Some((es, j)),
        0 <= i <= b.len(),
    ensures
        es.len() == n,
        forall|k: int| 0 <= k < es.len() ==> entry_encodable(#[trigger] es[k]),
        i <= j <= b.len(),
        enc_entries(es).len() == j - i,
        b.subrange(i, j) == enc_entries(es),
    decreases n,
{
    if n == 0 {
        assert(b.subrange(i, i) =~= enc_entries(es));
    } else {
        let (e, j1) = parse_entry_at(b, i).unwrap();
        let (rest, _) = parse_entries_at(b, j1, (n - 1) as nat).unwrap();
        lemma_parse_entry_sound(b, i, e, j1);
        lemma_parse_entries_sound(b, j1, (n - 1) as nat, rest, j);
        assert(es == seq![e] + rest);
        assert(es.drop_first() =~= rest);
        assert(es[0] == e);
        assert(b.subrange(i, j) =~= b.subrange(i, j1) + b.subrange(j1, j));
    }
}

/// The converse round trip: a whole plaintext parses only when it is
/// exactly the encoding of the parsed collection. Together with
/// `lemma_serialize_parse` this makes `serialize` and `parse` mutually
/// inverse, so decoding fails on precisely the malformed plaintexts.
pub proof fn lemma_parse_serialize(b: Seq<u8>, es: Seq<EntryView>)
    requires
        parse(b) == Some(es),
    ensures
        serialize(es) == b,
        encodable(es),
{
    lemma_auto_spec_u64_to_from_le_bytes();
    let n = spec_u64_from_le_bytes(b.subrange(0, 8));
    let (es0, j) = parse_entries_at(b, 8, n as nat).unwrap();
    lemma_parse_entries_sound(b, 8, n as nat, es0, j);
    assert(spec_u64_to_le_bytes(es.len() as u64) == b.subrange(0, 8));
    assert(b =~= b.subrange(0, 8) + b.subrange(8, b.len() as int));
}

/// Relies on core::str::from_utf8: returns the string whose UTF-8 encoding
/// is exactly `b`, and succeeds if and only if `b` is valid UTF-8.
#[verifier::external_body]
fn utf8_to_str(b: &[u8]) -> (r: Option<&str>)
    ensures
        r matches Some(s) ==> encode_utf8(s@) == b@,
        valid_utf8(b@) ==> r is Some,
{
    core::str::from_utf8(b).ok()
}

/// Append the encoding of one text field to `out`.
fn encode_str_into(out: &mut Vec<u8>, s: &str)
    ensures
        final(out)@ == old(out)@ + enc_str(s@),
        str_encodable(s@),
{
    let bs = s.as_bytes();
    let m = bs.len();
    let len_bytes = u64_to_le_bytes(m as u64);
    out.extend_from_slice(len_bytes.as_slice());
    out.extend_from_slice(bs);
}

/// Encode an entry collection; the deterministic plaintext the store
/// encrypts.
pub fn serialize_entries(entries: &Vec<Entry>) -> (r: Vec<u8>)
    ensures
        r@ == serialize(views_of(entries@)),
        encodable(views_of(entries@)),
{
    let n = entries.len();
    let mut out = u64_to_le_bytes(n as u64);
    let mut k: usize = 0;
    while k < n
        invariant
            n == entries@.len(),
            k <= n,
            out@ == spec_u64_to_le_bytes(n as u64) + enc_entries(
                views_of(entries@.subrange(0, k as int)),
            ),
            forall|i: int| 0 <= i < k ==> entry_encodable(#[trigger] views_of(entries@)[i]),
        decreases n - k,
    {
        let ghost prev = views_of(entries@.subrange(0, k as int));
        let e = &entries[k];
        encode_str_into(&mut out, e.name.as_str());
        encode_str_into(&mut out, e.username.as_str());
        encode_str_into(&mut out, e.password.as_str());
        encode_str_into(&mut out, e.comments.as_str());
        proof {
            lemma_enc_entries_push(prev, e@);
            assert(views_of(entries@.subrange(0, k + 1 as int)) =~= prev.push(e@));
            assert(out@ =~= spec_u64_to_le_bytes(n as u64) + enc_entries(prev.push(e@)));
        }
        k = k + 1;
    }
    proof {
        assert(entries@.subrange(0, n as int) =~= entries@);
    }
    out
}

proof fn lemma_enc_entries_push(es: Seq<EntryView>, e: EntryView)
    ensures
        enc_entries(es.push(e)) == enc_entries(es) + enc_entry(e),
    decreases es.len(),
{
    if es.len() == 0 {
        assert(es.push(e)[0] == e);
        assert(es.push(e).drop_first() =~= Seq::<EntryView>::empty());
        assert(enc_entries(Seq::<EntryView>::empty()) == Seq::<u8>::empty());
        assert(enc_entries(es.push(e)) == enc_entry(e) + Seq::<u8>::empty());
        assert(enc_entry(e) + Seq::<u8>::empty() =~= enc_entry(e));
        assert(enc_entries(es) + enc_entry(e) =~= enc_entry(e));
    } else {
        assert(es.push(e).drop_first() =~= es.drop_first().push(e));
        lemma_enc_entries_push(es.drop_first(), e);
        assert(es.push(e)[0] == es[0]);
        assert(enc_entries(es.push(e)) == enc_entry(es[0]) + (enc_entries(es.drop_first())
            + enc_entry(e)));
        assert(enc_entry(es[0]) + (enc_entries(es.drop_first()) + enc_entry(e)) =~= (enc_entry(
            es[0],
        ) + enc_entries(es.drop_first())) + enc_entry(e));
    }
}

/// Read one length-prefixed field at position `i`.
fn read_str(b: &[u8], i: usize) -> (r: Option<(String, usize)>)
    ensures
        match parse_str_at(b@, i as int) {
            Some((s, j)) => r matches Some(p) && p.0@ == s && p.1 == j,
            None => r is None,
        },
{
    broadcast use encode_utf8_valid_utf8, encode_utf8_decode_utf8;

    if b.len() < 8 || i > b.len() - 8 {
        return None;
    }
    let len_bytes = slice_subrange(b, i, i + 8);
    let m = u64_from_le_bytes(len_bytes);
    let rest = b.len() - (i + 8);
    if m > rest as u64 {
        return None;
    }
    let m_us = m as usize;
    let sb = slice_subrange(b, i + 8, i + 8 + m_us);
    match utf8_to_str(sb) {
        Some(s) => Some((s.to_owned(), i + 8 + m_us)),
        None => {
            assert(!valid_utf8(b@.subrange(i as int + 8, i as int + 8 + m as int)));
            None
        },
    }
}

/// Read one entry (four fields) at position `i`.
fn read_entry(b: &[u8], i: usize) -> (r: Option<(Entry, usize)>)
    ensures
        match parse_entry_at(b@, i as int) {
            Some((e, j)) => r matches Some(p) && p.0@ == e && p.1 == j,
            None => r is None,
        },
{
    let (name, i1) = match read_str(b, i) {
        Some(p) => p,
        None => {
            return None;
        },
    };
    let (username, i2) = match read_str(b, i1) {
        Some(p) => p,
        None => {
            return None;
        },
    };
    let (password, i3) = match read_str(b, i2) {
        Some(p) => p,
        None => {
            return None;
        },
    };
    let (comments, i4) = match read_str(b, i3) {
        Some(p) => p,
        None => {
            return None;
        },
    };
    Some((Entry { name, username, password, comments }, i4))
}

/// Prepend an already-parsed prefix to the outcome of parsing a remainder.
pub open spec fn opt_prepend(pre: Seq<EntryView>, o: Option<(Seq<EntryView>, int)>) -> Option<
    (Seq<EntryView>, int),
> {
    match o {
        Some((es, j)) => Some((pre + es, j)),
        None => None,
    }
}

/// Decode a plaintext into an entry collection; `None` on anything that is
/// not exactly an encoding this module produces.
pub fn deserialize_entries(b: &[u8]) -> (r: Option<Vec<Entry>>)
    ensures
        match parse(b@) {
            Some(es) => r matches Some(v) && views_of(v@) == es,
            None => r is None,
        },
{
    if b.len() < 8 {
        return None;
    }
    let count = u64_from_le_bytes(slice_subrange(b, 0, 8));
    let mut acc: Vec<Entry> = Vec::new();
    let mut i: usize = 8;
    let mut k: u64 = 0;
    proof {
        assert(views_of(acc@) =~= Seq::<EntryView>::empty());
        assert(opt_prepend(Seq::empty(), parse_entries_at(b@, 8, count as nat)) == parse_entries_at(
            b@,
            8,
            count as nat,
        )) by {
            if let Some((es, j)) = parse_entries_at(b@, 8, count as nat) {
                assert(Seq::<EntryView>::empty() + es =~= es);
            }
        }
    }
    while k < count
        invariant
            8 <= i <= b@.len(),
            k <= count,
            count == spec_u64_from_le_bytes(b@.subrange(0, 8)),
            acc@.len() == k as int,
            parse_entries_at(b@, 8, count as nat) == opt_prepend(
                views_of(acc@),
                parse_entries_at(b@, i as int, (count - k) as nat),
            ),
        decreases count - k,
    {
        let ghost pre = views_of(acc@);
        match read_entry(b, i) {
            Some((e, j)) => {
                proof {
                    let o = parse_entries_at(b@, j as int, (count - k - 1) as nat);
                    assert(parse_entries_at(b@, i as int, (count - k) as nat) == opt_prepend(
                        seq![e@],
                        o,
                    ));
                    if let Some((es, jj)) = o {
                        assert(pre + (seq![e@] + es) =~= pre.push(e@) + es);
                    }
                    lemma_parse_positions(b@, i as int);
                }
                acc.push(e);
                i = j;
                k = k + 1;
                proof {
                    assert(views_of(acc@) =~= pre.push(acc@[acc@.len() - 1]@));
                }
            },
            None => {
                return None;
            },
        }
    }
    proof {
        if let Some((es, j)) = parse_entries_at(b@, 8, count as nat) {
            assert(views_of(acc@) + Seq::<EntryView>::empty() =~= views_of(acc@));
        }
    }
    if i == b.len() {
        Some(acc)
    } else {
        None
    }
}

/// A successful entry parse ends at a position inside the input.
proof fn lemma_parse_positions(b: Seq<u8>, i: int)
    ensures
        parse_entry_at(b, i) matches Some((e, j)) ==> i < j <= b.len(),
{
}

} // verus!
