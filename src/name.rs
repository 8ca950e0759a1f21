use vstd::prelude::*;
use vstd::string::StringSliceAdditionalSpecFns;
use vstd::utf8::*;

use crate::dns::DnsError;

verus! {

/// ASCII lower-casing of one byte.
pub open spec fn lower_byte(b: u8) -> u8 {
    if 65 <= b && b <= 90 {
        (b + 32) as u8
    } else {
        b
    }
}

pub open spec fn lower_bytes(s: Seq<u8>) -> Seq<u8> {
    s.map_values(|b: u8| lower_byte(b))
}

/// The labels joined by dots.
pub open spec fn dotted(labels: Seq<Seq<u8>>) -> Seq<u8>
    decreases labels.len(),
{
    if labels.len() == 0 {
        Seq::empty()
    } else if labels.len() == 1 {
        labels[0]
    } else {
        dotted(labels.drop_last()) + seq![46u8] + labels.last()
    }
}

/// A length byte of 192 or more starts a compression pointer.
pub open spec fn is_pointer(b: u8) -> bool {
    b >= 192
}

/// The offset that the two bytes of a compression pointer designate.
pub open spec fn pointer_target(b0: u8, b1: u8) -> int {
    (b0 - 192) * 256 + b1
}

/// The labels of the name at `p`, following at most `hops` compression pointers; `None` when
/// the name runs past the buffer or needs more hops.
pub open spec fn labels_at(buf: Seq<u8>, p: int, hops: nat) -> Option<Seq<Seq<u8>>>
    decreases hops, buf.len() - p,
{
    if p < 0 || p >= buf.len() {
        None
    } else if buf[p] == 0 {
        Some(Seq::empty())
    } else if is_pointer(buf[p]) {
        if p + 1 >= buf.len() || hops == 0 {
            None
        } else {
            labels_at(buf, pointer_target(buf[p], buf[p + 1]), (hops - 1) as nat)
        }
    } else {
        let n = buf[p] as int;
        if p + 1 + n > buf.len() {
            None
        } else {
            match labels_at(buf, p + 1 + n, hops) {
                Some(rest) => Some(seq![buf.subrange(p + 1, p + 1 + n)] + rest),
                None => None,
            }
        }
    }
}

/// Where the caller's cursor stands after the name at `p`: past its terminating zero, or past
/// the first compression pointer met before it.
pub open spec fn name_end(buf: Seq<u8>, p: int) -> Option<int>
    decreases buf.len() - p,
{
    if p < 0 || p >= buf.len() {
        None
    } else if buf[p] == 0 {
        Some(p + 1)
    } else if is_pointer(buf[p]) {
        if p + 1 >= buf.len() {
            None
        } else {
            Some(p + 2)
        }
    } else {
        let n = buf[p] as int;
        if p + 1 + n > buf.len() {
            None
        } else {
            name_end(buf, p + 1 + n)
        }
    }
}

pub proof fn lemma_name_end_bounds(buf: Seq<u8>, p: int)
    ensures
        name_end(buf, p) matches Some(q) ==> 0 <= p < q <= buf.len(),
    decreases buf.len() - p,
{
    if 0 <= p < buf.len() && buf[p] != 0 && !is_pointer(buf[p]) {
        let n = buf[p] as int;
        if p + 1 + n <= buf.len() {
            lemma_name_end_bounds(buf, p + 1 + n);
        }
    }
}

/// The name at `p`, with pointer chains bounded by the length of the buffer.
pub open spec fn spec_name_at(buf: Seq<u8>, p: int) -> Option<Seq<Seq<u8>>> {
    labels_at(buf, p, buf.len() as nat)
}

/// The text of a decoded name: its labels lower-cased and joined by dots, read as UTF-8.
pub open spec fn name_text(labels: Seq<Seq<u8>>) -> Seq<char> {
    utf8_text(lower_bytes(dotted(labels)))
}

/// What `String::from_utf8_lossy` makes of bytes that are not valid UTF-8.
pub uninterp spec fn lossy_text(b: Seq<u8>) -> Seq<char>;

/// The text that `String::from_utf8_lossy` gives for `b`.
pub open spec fn utf8_text(b: Seq<u8>) -> Seq<char> {
    if valid_utf8(b) {
        decode_utf8(b)
    } else {
        lossy_text(b)
    }
}

/// Relies on `String::from_utf8_lossy`: valid UTF-8 is decoded as it stands, and the result
/// depends on the bytes alone.
#[verifier::external_body]
fn text_from_utf8(b: &[u8]) -> (r: String)
    ensures
        valid_utf8(b@) ==> r@ == decode_utf8(b@),
        !valid_utf8(b@) ==> r@ == lossy_text(b@),
{
    String::from_utf8_lossy(b).into_owned()
}

fn to_lower(b: u8) -> (r: u8)
    ensures
        r == lower_byte(b),
{
    if 65 <= b && b <= 90 {
        b + 32
    } else {
        b
    }
}

proof fn lemma_lower_concat(a: Seq<u8>, b: Seq<u8>)
    ensures
        lower_bytes(a + b) == lower_bytes(a) + lower_bytes(b),
{
    assert(lower_bytes(a + b) =~= lower_bytes(a) + lower_bytes(b));
}

proof fn lemma_dotted_push(labels: Seq<Seq<u8>>, l: Seq<u8>)
    ensures
        labels.len() == 0 ==> dotted(labels.push(l)) == l,
        labels.len() > 0 ==> dotted(labels.push(l)) == dotted(labels) + seq![46u8] + l,
{
    assert(labels.push(l).drop_last() =~= labels);
    if labels.len() == 0 {
        assert(labels.push(l)[0] == l);
    }
}

/// Decodes the name at `*cursor`, following compression pointers through at most as many hops as
/// the buffer has bytes. The cursor moves past the name's terminator, or past the first pointer;
/// on failure it stays where it was.
pub fn decode_name(buf: &[u8], cursor: &mut usize) -> (r: Result<String, DnsError>)
    ensures
        match spec_name_at(buf@, *old(cursor) as int) {
            Some(labels) => {
                &&& r matches Ok(s) && s@ == name_text(labels)
                &&& name_end(buf@, *old(cursor) as int) == Some(*final(cursor) as int)
            },
            None => r == Err::<String, DnsError>(DnsError::Malformed) && *final(cursor) == *old(
                cursor,
            ),
        },
{
    let ghost start = *cursor as int;
    let ghost bufs = buf@;
    let len = buf.len();
    let mut pos: usize = *cursor;
    let mut hops: usize = len;
    let mut end: Option<usize> = None;
    let mut out: Vec<u8> = Vec::new();
    let ghost mut acc: Seq<Seq<u8>> = Seq::empty();
    let mut first = true;
    loop
        invariant
            first == (acc.len() == 0),
            *cursor as int == start,
            *cursor == *old(cursor),
            len == buf@.len(),
            bufs == buf@,
            hops <= len,
            match labels_at(bufs, pos as int, hops as nat) {
                Some(rest) => spec_name_at(bufs, start) == Some(acc + rest),
                None => spec_name_at(bufs, start) is None,
            },
            out@ == lower_bytes(dotted(acc)),
            end matches Some(e) ==> name_end(bufs, start) == Some(e as int),
            end is None ==> name_end(bufs, start) == name_end(bufs, pos as int),
        decreases hops, len - pos,
    {
        if pos >= len {
            assert(labels_at(bufs, pos as int, hops as nat) is None);
            assert(spec_name_at(bufs, start) is None);
            return Err(DnsError::Malformed);
        }
        let b = buf[pos];
        if b == 0 {
            proof {
                assert(acc + Seq::<Seq<u8>>::empty() =~= acc);
            }
            let e = match end {
                Some(e) => e,
                None => pos + 1,
            };
            *cursor = e;
            let text = text_from_utf8(out.as_slice());
            assert(text@ == utf8_text(out@));
            return Ok(text);
        } else if b >= 192 {
            if pos + 1 >= len || hops == 0 {
                assert(labels_at(bufs, pos as int, hops as nat) is None);
                assert(spec_name_at(bufs, start) is None);
                return Err(DnsError::Malformed);
            }
            if end.is_none() {
                end = Some(pos + 2);
            }
            pos = (b - 192) as usize * 256 + buf[pos + 1] as usize;
            hops = hops - 1;
        } else {
            let n = b as usize;
            if n > len - pos - 1 {
                assert(labels_at(bufs, pos as int, hops as nat) is None);
                assert(spec_name_at(bufs, start) is None);
                return Err(DnsError::Malformed);
            }
            let ghost label = bufs.subrange(pos + 1, pos + 1 + n);
            proof {
                lemma_dotted_push(acc, label);
                if acc.len() > 0 {
                    lemma_lower_concat(dotted(acc), seq![46u8]);
                    lemma_lower_concat(dotted(acc) + seq![46u8], label);
                }
            }
            if !first {
                out.push(46u8);
            }
            first = false;
            let ghost base = out@;
            let mut j: usize = 0;
            while j < n
                invariant
                    j <= n,
                    pos + 1 + n <= len,
                    len == buf@.len(),
                    bufs == buf@,
                    label == bufs.subrange(pos + 1, pos + 1 + n),
                    out@ == base + lower_bytes(label.take(j as int)),
                decreases n - j,
            {
                let c = to_lower(buf[pos + 1 + j]);
                proof {
                    assert(label.take(j as int + 1) =~= label.take(j as int).push(label[j as int]));
                    lemma_lower_concat(label.take(j as int), seq![label[j as int]]);
                }
                out.push(c);
                proof {
                    assert(lower_bytes(seq![label[j as int]]) =~= seq![c]);
                }
                j = j + 1;
            }
            proof {
                assert(label.take(n as int) =~= label);
                assert(seq![label] + (acc + Seq::<Seq<u8>>::empty()) == seq![label] + acc);
                let rest = labels_at(bufs, (pos + 1 + n) as int, hops as nat);
                if let Some(r) = rest {
                    assert(acc + (seq![label] + r) =~= acc.push(label) + r);
                }
                acc = acc.push(label);
            }
            pos = pos + 1 + n;
        }
    }
}

/// The pieces of `s` between dots, as `str::split('.')` gives them.
pub open spec fn split_dots(s: Seq<u8>) -> Seq<Seq<u8>>
    decreases s.len(),
{
    if s.len() == 0 {
        seq![Seq::empty()]
    } else {
        let init = split_dots(s.drop_last());
        if s.last() == 46u8 {
            init.push(Seq::empty())
        } else {
            init.update(init.len() - 1, init.last().push(s.last()))
        }
    }
}

/// Each label as its length byte followed by its bytes.
pub open spec fn wire_labels(labels: Seq<Seq<u8>>) -> Seq<u8>
    decreases labels.len(),
{
    if labels.len() == 0 {
        Seq::empty()
    } else {
        seq![(labels[0].len() % 256) as u8] + labels[0] + wire_labels(labels.drop_first())
    }
}

/// The wire form of a dotted name: its labels, then a zero byte.
pub open spec fn spec_encode_name(name: Seq<u8>) -> Seq<u8> {
    wire_labels(split_dots(name)).push(0u8)
}

pub open spec fn labels_short(labels: Seq<Seq<u8>>) -> bool {
    forall|k: int| 0 <= k < labels.len() ==> #[trigger] labels[k].len() <= 63
}

/// A name fits the wire: no label over 63 bytes, and at most 255 bytes encoded.
pub open spec fn encodable(name: Seq<u8>) -> bool {
    labels_short(split_dots(name)) && spec_encode_name(name).len() <= 255
}

proof fn lemma_split_nonempty(s: Seq<u8>)
    ensures
        split_dots(s).len() >= 1,
    decreases s.len(),
{
    if s.len() > 0 {
        lemma_split_nonempty(s.drop_last());
    }
}

proof fn lemma_short_push(labels: Seq<Seq<u8>>, l: Seq<u8>)
    ensures
        labels_short(labels.push(l)) == (labels_short(labels) && l.len() <= 63),
{
    assert(labels.push(l)[labels.len() as int] == l);
    if labels_short(labels.push(l)) {
        assert forall|k: int| 0 <= k < labels.len() implies #[trigger] labels[k].len() <= 63 by {
            assert(labels.push(l)[k] == labels[k]);
        }
    }
    if labels_short(labels) && l.len() <= 63 {
        assert forall|k: int| 0 <= k < labels.push(l).len() implies #[trigger] labels.push(l)[k].len()
            <= 63 by {
            if k < labels.len() {
                assert(labels.push(l)[k] == labels[k]);
            }
        }
    }
}

proof fn lemma_wire_push(labels: Seq<Seq<u8>>, l: Seq<u8>)
    ensures
        wire_labels(labels.push(l)) == wire_labels(labels) + seq![(l.len() % 256) as u8] + l,
    decreases labels.len(),
{
    if labels.len() == 0 {
        assert(labels.push(l).drop_first() =~= Seq::<Seq<u8>>::empty());
        assert(labels.push(l)[0] == l);
        assert(wire_labels(labels.push(l).drop_first()) =~= Seq::<u8>::empty());
        assert(wire_labels(labels.push(l)) =~= seq![(l.len() % 256) as u8] + l);
    } else {
        lemma_wire_push(labels.drop_first(), l);
        assert(labels.push(l).drop_first() =~= labels.drop_first().push(l));
        assert(wire_labels(labels.push(l)) =~= wire_labels(labels) + seq![(l.len() % 256) as u8] + l);
    }
}

/// Encodes a dotted name as length-prefixed labels ended by a zero byte; fails with `Size` when
/// a label is longer than 63 bytes or the encoding longer than 255.
pub fn encode_name(name: &str) -> (r: Result<Vec<u8>, DnsError>)
    ensures
        match r {
            Ok(v) => encodable(name.spec_bytes()) && v@ == spec_encode_name(name.spec_bytes()),
            Err(e) => !encodable(name.spec_bytes()) && e == DnsError::Size,
        },
{
    let bytes = name.as_bytes();
    let ghost s = bytes@;
    let n = bytes.len();
    let mut out: Vec<u8> = Vec::new();
    let mut start: usize = 0;
    let mut short = true;
    let ghost mut done: Seq<Seq<u8>> = Seq::empty();
    let mut i: usize = 0;
    proof {
        assert(s.take(0) =~= Seq::<u8>::empty());
        assert(s.subrange(0, 0) =~= Seq::<u8>::empty());
        assert(split_dots(Seq::<u8>::empty()) == done.push(Seq::<u8>::empty()));
    }
    while i < n
        invariant
            s == bytes@,
            n == s.len(),
            start <= i <= n,
            split_dots(s.take(i as int)) == done.push(s.subrange(start as int, i as int)),
            out@ == wire_labels(done),
            short == labels_short(done),
        decreases n - i,
    {
        proof {
            assert(s.take(i as int + 1).drop_last() =~= s.take(i as int));
        }
        if bytes[i] == 46u8 {
            let ghost label = s.subrange(start as int, i as int);
            if i - start > 63 {
                short = false;
            }
            out.push(((i - start) % 256) as u8);
            let mut j: usize = start;
            while j < i
                invariant
                    s == bytes@,
                    n == s.len(),
                    start <= j <= i < n,
                    label == s.subrange(start as int, i as int),
                    out@ == wire_labels(done) + seq![(label.len() % 256) as u8] + s.subrange(start as int, j as int),
                decreases i - j,
            {
                proof {
                    assert(s.subrange(start as int, j + 1) =~= s.subrange(start as int, j as int).push(s[j as int]));
                }
                out.push(bytes[j]);
                j = j + 1;
            }
            proof {
                lemma_wire_push(done, label);
                assert(done.push(label).push(Seq::<u8>::empty()).drop_last() =~= done.push(label));
                lemma_short_push(done, label);
                done = done.push(label);
                assert(s.subrange(i + 1, i + 1) =~= Seq::<u8>::empty());
            }
            start = i + 1;
        } else {
            proof {
                assert(s.subrange(start as int, i + 1) =~= s.subrange(start as int, i as int).push(s[i as int]));
                assert(done.push(s.subrange(start as int, i as int)).update(done.len() as int, s.subrange(start as int, i + 1)) =~= done.push(s.subrange(start as int, i + 1)));
            }
        }
        i = i + 1;
    }
    let ghost label = s.subrange(start as int, n as int);
    if n - start > 63 {
        short = false;
    }
    out.push(((n - start) % 256) as u8);
    let mut j: usize = start;
    while j < n
        invariant
            s == bytes@,
            n == s.len(),
            start <= j <= n,
            label == s.subrange(start as int, n as int),
            out@ == wire_labels(done) + seq![(label.len() % 256) as u8] + s.subrange(start as int, j as int),
        decreases n - j,
    {
        proof {
            assert(s.subrange(start as int, j + 1) =~= s.subrange(start as int, j as int).push(s[j as int]));
        }
        out.push(bytes[j]);
        j = j + 1;
    }
    out.push(0u8);
    proof {
        assert(s.take(n as int) =~= s);
        lemma_wire_push(done, label);
        assert(done.push(label).len() == done.len() + 1);
        lemma_short_push(done, label);
    }
    if !short || out.len() > 255 {
        return Err(DnsError::Size);
    }
    Ok(out)
}

/// ASCII lower-casing of one character.
pub open spec fn lower_char(c: char) -> char {
    if 'A' <= c && c <= 'Z' {
        ((c as u8) + 32) as u8 as char
    } else {
        c
    }
}

pub open spec fn lower_chars(s: Seq<char>) -> Seq<char> {
    s.map_values(|c: char| lower_char(c))
}

proof fn lemma_labels_of_wire(buf: Seq<u8>, p: int, labels: Seq<Seq<u8>>, hops: nat)
    requires
        0 <= p,
        p + wire_labels(labels).len() + 1 <= buf.len(),
        buf.subrange(p, p + wire_labels(labels).len() + 1) == wire_labels(labels).push(0u8),
        forall|k: int| 0 <= k < labels.len() ==> 0 < #[trigger] labels[k].len() <= 63,
    ensures
        labels_at(buf, p, hops) == Some(labels),
        name_end(buf, p) == Some(p + wire_labels(labels).len() + 1),
    decreases labels.len(),
{
    let w = wire_labels(labels);
    assert(buf[p] == buf.subrange(p, p + w.len() + 1)[0]);
    if labels.len() > 0 {
        let l = labels[0];
        let rest = labels.drop_first();
        let n = l.len() as int;
        let q = p + 1 + n;
        assert(w == seq![(n % 256) as u8] + l + wire_labels(rest));
        assert(buf[p] == n);
        assert(buf.subrange(p + 1, q) =~= l) by {
            assert forall|i: int| 0 <= i < n implies buf.subrange(p + 1, q)[i] == l[i] by {
                assert(buf.subrange(p, p + w.len() + 1)[1 + i] == buf[p + 1 + i]);
                assert(w.push(0u8)[1 + i] == l[i]);
            }
        }
        assert(buf.subrange(q, q + wire_labels(rest).len() + 1) =~= wire_labels(rest).push(0u8)) by {
            assert forall|i: int| 0 <= i < wire_labels(rest).len() + 1 implies buf.subrange(
                q,
                q + wire_labels(rest).len() + 1,
            )[i] == wire_labels(rest).push(0u8)[i] by {
                assert(buf.subrange(p, p + w.len() + 1)[1 + n + i] == buf[q + i]);
                assert(w.push(0u8)[1 + n + i] == wire_labels(rest).push(0u8)[i]);
            }
        }
        assert forall|k: int| 0 <= k < rest.len() implies 0 < #[trigger] rest[k].len() <= 63 by {
            assert(rest[k] == labels[k + 1]);
        }
        lemma_labels_of_wire(buf, q, rest, hops);
        assert(seq![l] + rest =~= labels);
    } else {
        assert(w.push(0u8)[0] == 0);
    }
}

proof fn lemma_dotted_split(s: Seq<u8>)
    ensures
        dotted(split_dots(s)) == s,
    decreases s.len(),
{
    if s.len() > 0 {
        let init = split_dots(s.drop_last());
        lemma_dotted_split(s.drop_last());
        lemma_split_nonempty(s.drop_last());
        if s.last() == 46u8 {
            lemma_dotted_push(init, Seq::empty());
        } else {
            let l = init.last().push(s.last());
            let upd = init.update(init.len() - 1, l);
            assert(upd =~= init.drop_last().push(l));
            assert(init =~= init.drop_last().push(init.last()));
            lemma_dotted_push(init.drop_last(), l);
            lemma_dotted_push(init.drop_last(), init.last());
        }
        assert(s =~= s.drop_last().push(s.last()));
    }
}

proof fn lemma_ascii_lower_text(name: Seq<char>)
    requires
        is_ascii_chars(name),
    ensures
        utf8_text(lower_bytes(encode_utf8(name))) == lower_chars(name),
{
    let low = lower_chars(name);
    is_ascii_chars_encode_utf8(name);
    assert(is_ascii_chars(low));
    is_ascii_chars_encode_utf8(low);
    assert(encode_utf8(low) =~= lower_bytes(encode_utf8(name))) by {
        assert forall|i: int| 0 <= i < low.len() implies encode_utf8(low)[i] == lower_bytes(
            encode_utf8(name),
        )[i] by {
            let c = name[i];
            assert(encode_utf8(name)[i] == c as u8);
            assert(encode_utf8(low)[i] == low[i] as u8);
        }
    }
    encode_utf8_valid_utf8(low);
    encode_utf8_decode_utf8(low);
}

/// Decoding, at any offset of a buffer, the encoding of an ASCII name whose labels are not
/// empty and which fits the wire gives the name lower-cased, and leaves the cursor just past the
/// encoding.
pub proof fn lemma_name_round_trip(name: Seq<char>, buf: Seq<u8>, c: int)
    requires
        is_ascii_chars(name),
        encodable(encode_utf8(name)),
        forall|k: int|
            0 <= k < split_dots(encode_utf8(name)).len() ==> #[trigger] split_dots(
                encode_utf8(name),
            )[k].len() > 0,
        0 <= c,
        c + spec_encode_name(encode_utf8(name)).len() <= buf.len(),
        buf.subrange(c, c + spec_encode_name(encode_utf8(name)).len()) == spec_encode_name(
            encode_utf8(name),
        ),
    ensures
        ({
            let w = spec_encode_name(encode_utf8(name));
            &&& spec_name_at(buf, c) matches Some(labels) && name_text(labels) == lower_chars(name)
            &&& name_end(buf, c) == Some(c + w.len())
        }),
{
    let b = encode_utf8(name);
    let labels = split_dots(b);
    lemma_labels_of_wire(buf, c, labels, buf.len() as nat);
    lemma_dotted_split(b);
    lemma_ascii_lower_text(name);
}

} // verus!
