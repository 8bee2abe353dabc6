//! The length-prefixed byte format in which nodes are written: a list of byte
//! strings, each behind a prefix that tells its length.

use vstd::prelude::*;
use vstd::slice::slice_subrange;

verus! {

/// The bytes of `n` in base 256, most significant first, without leading zeros.
pub open spec fn be_bytes(n: nat) -> Seq<u8>
    decreases n,
{
    if n == 0 {
        Seq::empty()
    } else {
        be_bytes(n / 256).push((n % 256) as u8)
    }
}

/// The number that `s` writes in base 256, most significant byte first.
pub open spec fn be_value(s: Seq<u8>) -> nat
    decreases s.len(),
{
    if s.len() == 0 {
        0
    } else {
        be_value(s.drop_last()) * 256 + s.last() as nat
    }
}

/// 256 to the power `k`.
pub open spec fn pow256(k: nat) -> nat
    decreases k,
{
    if k == 0 {
        1
    } else {
        256 * pow256((k - 1) as nat)
    }
}

/// The prefix that announces a payload of `len` bytes: one byte `base + len`
/// for up to 55 bytes, else the byte `base + 55 + k` and the `k` bytes of `len`.
/// `base` is 128 for a string and 192 for a list.
pub open spec fn length_prefix(base: nat, len: nat) -> Seq<u8> {
    if len <= 55 {
        seq![(base + len) as u8]
    } else {
        seq![(base + 55 + be_bytes(len).len()) as u8] + be_bytes(len)
    }
}

/// The written form of one byte string: a single byte below 128 stands for
/// itself, anything else follows its length prefix.
pub open spec fn encode_string(s: Seq<u8>) -> Seq<u8> {
    if s.len() == 1 && s[0] < 128 {
        s
    } else {
        length_prefix(128, s.len()) + s
    }
}

/// The written forms of `items`, one after the other.
pub open spec fn encode_strings(items: Seq<Seq<u8>>) -> Seq<u8>
    decreases items.len(),
{
    if items.len() == 0 {
        Seq::empty()
    } else {
        encode_strings(items.drop_last()) + encode_string(items.last())
    }
}

/// The written form of a list of byte strings.
pub open spec fn encode_list(items: Seq<Seq<u8>>) -> Seq<u8> {
    length_prefix(192, encode_strings(items).len()) + encode_strings(items)
}

/// Reads a length prefix at the head of `bytes`, whose first byte is at least
/// `base`: the length of the prefix and the length that it announces.
pub open spec fn parse_length(bytes: Seq<u8>, base: nat) -> Option<(nat, nat)> {
    let d = (bytes[0] - base) as nat;
    if d <= 55 {
        Some((1, d))
    } else if bytes.len() >= 1 + (d - 55) {
        Some(((1 + (d - 55)) as nat, be_value(bytes.subrange(1, 1 + (d - 55)))))
    } else {
        None
    }
}

/// Reads one byte string at the head of `bytes`: the string and the number of
/// bytes that its written form takes.
pub open spec fn parse_string(bytes: Seq<u8>) -> Option<(Seq<u8>, nat)> {
    if bytes.len() == 0 {
        None
    } else if bytes[0] < 128 {
        Some((seq![bytes[0]], 1))
    } else if bytes[0] >= 192 {
        None
    } else {
        match parse_length(bytes, 128) {
            Some((h, l)) => if h + l <= bytes.len() {
                Some((bytes.subrange(h as int, (h + l) as int), h + l))
            } else {
                None
            },
            None => None,
        }
    }
}

/// Reads byte strings until `bytes` is used up.
pub open spec fn parse_strings(bytes: Seq<u8>) -> Option<Seq<Seq<u8>>>
    decreases bytes.len(),
{
    if bytes.len() == 0 {
        Some(Seq::empty())
    } else {
        match parse_string(bytes) {
            Some((s, n)) => if 0 < n <= bytes.len() {
                match parse_strings(bytes.skip(n as int)) {
                    Some(rest) => Some(seq![s] + rest),
                    None => None,
                }
            } else {
                None
            },
            None => None,
        }
    }
}

/// Reads a list of byte strings that takes up all of `bytes`.
pub open spec fn parse_list(bytes: Seq<u8>) -> Option<Seq<Seq<u8>>> {
    if bytes.len() == 0 || bytes[0] < 192 {
        None
    } else {
        match parse_length(bytes, 192) {
            Some((h, l)) => if h + l == bytes.len() {
                parse_strings(bytes.skip(h as int))
            } else {
                None
            },
            None => None,
        }
    }
}

/// A number below `256^k` is written in at most `k` bytes.
pub proof fn lemma_be_bytes_len(n: nat, k: nat)
    requires
        n < pow256(k),
    ensures
        be_bytes(n).len() <= k,
    decreases k,
{
    if k == 0 {
    } else if n > 0 {
        lemma_be_bytes_len(n / 256, (k - 1) as nat);
    }
}

/// A number that fits in 64 bits is written in at most 8 bytes, and a positive
/// one in at least 1.
pub proof fn lemma_be_bytes_len_u64(n: nat)
    requires
        n <= u64::MAX,
    ensures
        be_bytes(n).len() <= 8,
        n > 0 ==> be_bytes(n).len() >= 1,
{
    reveal_with_fuel(pow256, 9);
    assert(pow256(8) == 0x1_0000_0000_0000_0000);
    lemma_be_bytes_len(n, 8);
}

/// Reading what `be_bytes` wrote gives the number back.
pub proof fn lemma_be_round_trip(n: nat)
    ensures
        be_value(be_bytes(n)) == n,
    decreases n,
{
    if n > 0 {
        lemma_be_round_trip(n / 256);
        let s = be_bytes(n);
        assert(s.drop_last() =~= be_bytes(n / 256));
    }
}

/// A number written in base 256 is at least the number that any leading part
/// of it writes.
pub proof fn lemma_be_value_prefix(s: Seq<u8>, k: int)
    requires
        0 <= k <= s.len(),
    ensures
        be_value(s.take(k)) <= be_value(s),
    decreases s.len() - k,
{
    if k == s.len() {
        assert(s.take(k) =~= s);
    } else {
        lemma_be_value_prefix(s.drop_last(), k);
        assert(s.drop_last().take(k) =~= s.take(k));
    }
}

/// A length prefix is read back as itself, whatever follows it.
pub proof fn lemma_length_round_trip(base: nat, len: nat, rest: Seq<u8>)
    requires
        base == 128 || base == 192,
        len <= u64::MAX,
    ensures
        1 <= length_prefix(base, len).len() <= 9,
        base <= (length_prefix(base, len) + rest)[0] < base + 64,
        parse_length(length_prefix(base, len) + rest, base) == Some(
            (length_prefix(base, len).len(), len),
        ),
{
    let p = length_prefix(base, len);
    let bytes = p + rest;
    lemma_be_bytes_len_u64(len);
    lemma_be_round_trip(len);
    if len > 55 {
        let k = be_bytes(len).len();
        assert(bytes[0] == (base + 55 + k) as u8);
        assert(bytes.subrange(1, 1 + k as int) =~= be_bytes(len));
    } else {
        assert(bytes[0] == (base + len) as u8);
    }
}

/// A written byte string is read back as itself, whatever follows it.
pub proof fn lemma_string_round_trip(s: Seq<u8>, rest: Seq<u8>)
    requires
        s.len() <= u64::MAX,
    ensures
        encode_string(s).len() >= 1,
        parse_string(encode_string(s) + rest) == Some((s, encode_string(s).len())),
{
    let bytes = encode_string(s) + rest;
    if s.len() == 1 && s[0] < 128 {
        assert(bytes[0] == s[0]);
        assert(seq![bytes[0]] =~= s);
    } else {
        let p = length_prefix(128, s.len());
        lemma_length_round_trip(128, s.len(), s + rest);
        assert(bytes =~= p + (s + rest));
        assert(bytes.subrange(p.len() as int, (p.len() + s.len()) as int) =~= s);
    }
}

/// Written forms are laid out first to last.
pub proof fn lemma_encode_strings_front(items: Seq<Seq<u8>>)
    requires
        items.len() > 0,
    ensures
        encode_strings(items) == encode_string(items[0]) + encode_strings(items.skip(1)),
    decreases items.len(),
{
    if items.len() == 1 {
        assert(items.drop_last() =~= Seq::<Seq<u8>>::empty());
        assert(items.skip(1) =~= Seq::<Seq<u8>>::empty());
        assert(encode_strings(items) =~= encode_string(items[0]) + encode_strings(items.skip(1)));
    } else {
        lemma_encode_strings_front(items.drop_last());
        assert(items.drop_last().skip(1) =~= items.skip(1).drop_last());
        assert(items.drop_last()[0] == items[0]);
        assert(items.skip(1).last() == items.last());
        assert(encode_strings(items) =~= encode_string(items[0]) + encode_strings(items.skip(1)));
    }
}

/// Written byte strings are read back as themselves.
pub proof fn lemma_strings_round_trip(items: Seq<Seq<u8>>)
    requires
        forall|i: int| 0 <= i < items.len() ==> (#[trigger] items[i]).len() <= u64::MAX,
    ensures
        parse_strings(encode_strings(items)) == Some(items),
    decreases items.len(),
{
    if items.len() == 0 {
        assert(encode_strings(items) =~= Seq::<u8>::empty());
        assert(items =~= Seq::<Seq<u8>>::empty());
    } else {
        let rest = encode_strings(items.skip(1));
        let first = encode_string(items[0]);
        lemma_encode_strings_front(items);
        lemma_string_round_trip(items[0], rest);
        assert forall|i: int| 0 <= i < items.skip(1).len() implies (#[trigger] items.skip(
            1,
        )[i]).len() <= u64::MAX by {
            assert(items.skip(1)[i] == items[i + 1]);
        }
        lemma_strings_round_trip(items.skip(1));
        assert((first + rest).skip(first.len() as int) =~= rest);
        assert(seq![items[0]] + items.skip(1) =~= items);
    }
}

/// A written list is read back as itself.
pub proof fn lemma_list_round_trip(items: Seq<Seq<u8>>)
    requires
        forall|i: int| 0 <= i < items.len() ==> (#[trigger] items[i]).len() <= u64::MAX,
        encode_strings(items).len() <= u64::MAX,
    ensures
        parse_list(encode_list(items)) == Some(items),
{
    let payload = encode_strings(items);
    let p = length_prefix(192, payload.len());
    lemma_length_round_trip(192, payload.len(), payload);
    lemma_strings_round_trip(items);
    assert((p + payload).skip(p.len() as int) =~= payload);
}

/// Appends the bytes of `n` in base 256, most significant first.
fn append_be(out: &mut Vec<u8>, n: usize)
    ensures
        final(out)@ == old(out)@ + be_bytes(n as nat),
    decreases n,
{
    if n > 0 {
        append_be(out, n / 256);
        out.push((n % 256) as u8);
        assert(out@ =~= old(out)@ + be_bytes(n as nat));
    } else {
        assert(out@ =~= old(out)@ + be_bytes(n as nat));
    }
}

/// Appends the prefix that announces `len` bytes of a string (`base` 128) or of
/// a list (`base` 192).
pub fn append_length(out: &mut Vec<u8>, base: u8, len: usize)
    requires
        base == 128 || base == 192,
    ensures
        final(out)@ == old(out)@ + length_prefix(base as nat, len as nat),
{
    if len <= 55 {
        out.push(base + len as u8);
        assert(out@ =~= old(out)@ + length_prefix(base as nat, len as nat));
    } else {
        let mut digits: Vec<u8> = Vec::new();
        append_be(&mut digits, len);
        proof {
            lemma_be_bytes_len_u64(len as nat);
            assert(digits@ =~= be_bytes(len as nat));
        }
        out.push(base + 55 + digits.len() as u8);
        out.append(&mut digits);
        assert(out@ =~= old(out)@ + length_prefix(base as nat, len as nat));
    }
}

/// Appends the written form of the byte string `s`.
pub fn append_string(out: &mut Vec<u8>, s: &[u8])
    ensures
        final(out)@ == old(out)@ + encode_string(s@),
{
    if s.len() == 1 && s[0] < 128 {
        out.push(s[0]);
        assert(out@ =~= old(out)@ + encode_string(s@));
    } else {
        append_length(out, 128, s.len());
        let ghost mid = out@;
        let mut i: usize = 0;
        while i < s.len()
            invariant
                i <= s@.len(),
                out@ == mid + s@.take(i as int),
            decreases s@.len() - i,
        {
            out.push(s[i]);
            assert(out@ =~= mid + s@.take(i + 1));
            i += 1;
        }
        assert(s@.take(s@.len() as int) =~= s@);
        assert(out@ =~= old(out)@ + encode_string(s@));
    }
}

/// The written form of the list whose items, already written one after the
/// other, are `payload`.
pub fn wrap_list(payload: Vec<u8>) -> (r: Vec<u8>)
    ensures
        r@ == length_prefix(192, payload@.len()) + payload@,
{
    let mut payload = payload;
    let ghost body = payload@;
    let mut r: Vec<u8> = Vec::new();
    append_length(&mut r, 192, payload.len());
    r.append(&mut payload);
    assert(r@ =~= length_prefix(192, body.len()) + body);
    r
}

/// Reads the length prefix that starts at `pos`.
fn read_length(bytes: &[u8], pos: usize, base: u8) -> (r: Option<(usize, usize)>)
    requires
        pos < bytes@.len(),
        base == 128 || base == 192,
        base <= bytes@[pos as int] < base + 64,
    ensures
        match parse_length(bytes@.skip(pos as int), base as nat) {
            Some((h, l)) => if l <= usize::MAX {
                r == Some((h as usize, l as usize)) && h <= bytes@.len() - pos
            } else {
                r is None
            },
            None => r is None,
        },
{
    let ghost tail = bytes@.skip(pos as int);
    assert(tail[0] == bytes@[pos as int]);
    let d: u8 = bytes[pos] - base;
    if d <= 55 {
        return Some((1, d as usize));
    }
    let ll: usize = (d - 55) as usize;
    if bytes.len() - pos < 1 + ll {
        return None;
    }
    let ghost digits = tail.subrange(1, 1 + ll);
    let mut acc: usize = 0;
    let mut k: usize = 0;
    while k < ll
        invariant
            k <= ll <= 8,
            pos + 1 + ll <= bytes@.len() <= usize::MAX,
            tail == bytes@.skip(pos as int),
            digits == tail.subrange(1, 1 + ll),
            parse_length(tail, base as nat) == Some(((1 + ll) as nat, be_value(digits))),
            acc == be_value(digits.take(k as int)),
        decreases ll - k,
    {
        let b: u8 = bytes[pos + 1 + k];
        proof {
            let next = digits.take(k + 1);
            assert(next.drop_last() =~= digits.take(k as int));
            assert(next.last() == b);
            assert(be_value(next) == acc * 256 + b);
            lemma_be_value_prefix(digits, k + 1);
        }
        if acc > usize::MAX / 256 {
            assert(acc * 256 > usize::MAX);
            return None;
        }
        acc = acc * 256 + b as usize;
        k += 1;
    }
    assert(digits.take(ll as int) =~= digits);
    Some((1 + ll, acc))
}

/// Whether `items` are the byte strings `parsed`, in order.
pub open spec fn same_items(items: Seq<&[u8]>, parsed: Seq<Seq<u8>>) -> bool {
    &&& items.len() == parsed.len()
    &&& forall|i: int| 0 <= i < items.len() ==> (#[trigger] items[i])@ == parsed[i]
}

/// Reads a list of byte strings that takes up all of `bytes`; `None` where
/// `bytes` is not such a list.
pub fn decode_list<'a>(bytes: &'a [u8]) -> (r: Option<Vec<&'a [u8]>>)
    ensures
        match parse_list(bytes@) {
            Some(parsed) => r is Some && same_items(r->0@, parsed),
            None => r is None,
        },
{
    if bytes.len() == 0 || bytes[0] < 192 {
        return None;
    }
    assert(bytes@.skip(0) =~= bytes@);
    let (h, l) = match read_length(bytes, 0, 192) {
        Some(hl) => hl,
        None => {
            return None;
        },
    };
    if bytes.len() - h != l {
        return None;
    }
    let ghost payload = bytes@.skip(h as int);
    let mut items: Vec<&'a [u8]> = Vec::new();
    let ghost mut parsed: Seq<Seq<u8>> = Seq::empty();
    let mut pos: usize = h;
    assert(payload.skip(0) =~= payload);
    assert(Seq::<Seq<u8>>::empty() + parse_strings(payload)->0 =~= parse_strings(payload)->0);
    while pos < bytes.len()
        invariant
            h <= pos <= bytes@.len(),
            payload == bytes@.skip(h as int),
            parse_list(bytes@) == parse_strings(payload),
            same_items(items@, parsed),
            parse_strings(payload) == match parse_strings(payload.skip(pos - h)) {
                Some(rest) => Some(parsed + rest),
                None => None,
            },
        decreases bytes@.len() - pos,
    {
        let ghost tail = payload.skip(pos - h);
        assert(tail =~= bytes@.skip(pos as int));
        assert(tail[0] == bytes@[pos as int]);
        let first: u8 = bytes[pos];
        let start: usize;
        let end: usize;
        if first < 128 {
            start = pos;
            end = pos + 1;
            assert(bytes@.subrange(start as int, end as int) =~= seq![first]);
        } else if first >= 192 {
            return None;
        } else {
            match read_length(bytes, pos, 128) {
                Some((sh, sl)) => {
                    if bytes.len() - pos - sh < sl {
                        return None;
                    }
                    start = pos + sh;
                    end = start + sl;
                    assert(bytes@.subrange(start as int, end as int) =~= tail.subrange(
                        sh as int,
                        sh + sl,
                    ));
                },
                None => {
                    return None;
                },
            }
        }
        let item: &'a [u8] = slice_subrange(bytes, start, end);
        let ghost s = item@;
        assert(parse_string(tail) == Some((s, (end - pos) as nat)));
        assert(tail.skip(end - pos) =~= payload.skip(end - h));
        proof {
            let after = parse_strings(payload.skip(end - h));
            if after is Some {
                assert(parsed + (seq![s] + after->0) =~= parsed.push(s) + after->0);
            }
        }
        items.push(item);
        proof {
            parsed = parsed.push(s);
        }
        pos = end;
    }
    assert(payload.skip(pos - h) =~= Seq::<u8>::empty());
    assert(parsed + Seq::<Seq<u8>>::empty() =~= parsed);
    Some(items)
}

} // verus!
