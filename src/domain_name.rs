use vstd::prelude::*;
use vstd::utf8::{
    decode_first_codepoint, decode_utf8, encode_scalar, encode_utf8, encode_utf8_decode_utf8,
    encode_utf8_valid_utf8, length_of_first_scalar, pop_first_scalar, valid_first_scalar, valid_utf8,
};

use crate::error::DnsError;
use crate::wire::push_bytes;

verus! {

/// How many compression pointers one name may follow.
pub const MAX_JUMPS: usize = 5;

/// The byte `.` that separates the labels of a name in text.
pub const DOT: u8 = 46;

/// A length byte whose top two bits are set starts a compression pointer.
pub open spec fn is_pointer(l: u8) -> bool {
    l >= 0xC0
}

/// The offset that the pointer made of bytes `hi` and `lo` leads to: its low 14 bits.
pub open spec fn pointer_target(hi: u8, lo: u8) -> int {
    (hi as int - 0xC0) * 256 + lo as int
}

/// Reads labels from `pos` of `b`, having followed `jumps` pointers so far. On success
/// gives the labels read and the offset where the enclosing record resumes: past the
/// terminating zero byte, or past the first pointer met on the way.
pub open spec fn walk_name(b: Seq<u8>, pos: int, jumps: int) -> Result<(Seq<Seq<u8>>, int), DnsError>
    decreases MAX_JUMPS - jumps, b.len() - pos,
{
    if pos < 0 || pos >= b.len() || jumps < 0 || jumps > MAX_JUMPS {
        Err(DnsError::OffsetOutOfBounds)
    } else {
        let l = b[pos];
        if is_pointer(l) {
            if pos + 1 >= b.len() {
                Err(DnsError::TruncatedName)
            } else if jumps + 1 > MAX_JUMPS {
                Err(DnsError::CompressionLoop)
            } else {
                match walk_name(b, pointer_target(l, b[pos + 1]), jumps + 1) {
                    Ok((ls, _)) => Ok((ls, pos + 2)),
                    Err(e) => Err(e),
                }
            }
        } else if l == 0 {
            Ok((seq![], pos + 1))
        } else if pos + 1 + l > b.len() {
            Err(DnsError::TruncatedName)
        } else if !valid_utf8(b.subrange(pos + 1, pos + 1 + l)) {
            Err(DnsError::InvalidLabelEncoding)
        } else {
            match walk_name(b, pos + 1 + l, jumps) {
                Ok((ls, next)) => Ok((seq![b.subrange(pos + 1, pos + 1 + l)] + ls, next)),
                Err(e) => Err(e),
            }
        }
    }
}

/// The labels of the name at `pos` of `b`, and the offset just past it.
pub open spec fn name_at(b: Seq<u8>, pos: int) -> Result<(Seq<Seq<u8>>, int), DnsError> {
    walk_name(b, pos, 0)
}

/// Labels joined by dots.
pub open spec fn joined(ls: Seq<Seq<u8>>) -> Seq<u8>
    decreases ls.len(),
{
    if ls.len() == 0 {
        seq![]
    } else if ls.len() == 1 {
        ls[0]
    } else {
        joined(ls.drop_last()) + seq![DOT] + ls.last()
    }
}

/// The text form of a name, as bytes: its labels joined by dots, or a lone dot for the root.
pub open spec fn dotted(ls: Seq<Seq<u8>>) -> Seq<u8> {
    if ls.len() == 0 {
        seq![DOT]
    } else {
        joined(ls)
    }
}

/// The name at `pos` of `b` as text, and the offset just past it.
pub open spec fn decoded_name(b: Seq<u8>, pos: int) -> Result<(Seq<char>, int), DnsError> {
    match name_at(b, pos) {
        Ok((ls, next)) => Ok((decode_utf8(dotted(ls)), next)),
        Err(e) => Err(e),
    }
}

/// The non-empty runs of `b` between dots, `cur` being the run read so far.
pub open spec fn labels_from(b: Seq<u8>, cur: Seq<u8>) -> Seq<Seq<u8>>
    decreases b.len(),
{
    if b.len() == 0 {
        if cur.len() == 0 { seq![] } else { seq![cur] }
    } else if b[0] == DOT {
        (if cur.len() == 0 { seq![] } else { seq![cur] }) + labels_from(b.drop_first(), seq![])
    } else {
        labels_from(b.drop_first(), cur.push(b[0]))
    }
}

/// The labels of a name given as text bytes: the non-empty runs between dots.
pub open spec fn name_labels(b: Seq<u8>) -> Seq<Seq<u8>> {
    labels_from(b, seq![])
}

/// Each label preceded by its length byte.
pub open spec fn wire_labels(ls: Seq<Seq<u8>>) -> Seq<u8>
    decreases ls.len(),
{
    if ls.len() == 0 {
        seq![]
    } else {
        seq![ls[0].len() as u8] + ls[0] + wire_labels(ls.drop_first())
    }
}

/// The wire form of the name `n`: its labels with their lengths, then a zero byte.
pub open spec fn name_wire(n: Seq<char>) -> Seq<u8> {
    wire_labels(name_labels(encode_utf8(n))) + seq![0u8]
}

/// No label of `n` is longer than 63 bytes.
pub open spec fn encodable(n: Seq<char>) -> bool {
    forall|i: int|
        0 <= i < name_labels(encode_utf8(n)).len() ==> #[trigger] name_labels(
            encode_utf8(n),
        )[i].len() <= 63
}

spec fn resume(
    ls: Seq<Seq<u8>>,
    jumped: bool,
    ret: int,
    rest: Result<(Seq<Seq<u8>>, int), DnsError>,
) -> Result<(Seq<Seq<u8>>, int), DnsError> {
    match rest {
        Ok((more, next)) => Ok((ls + more, if jumped { ret } else { next })),
        Err(e) => Err(e),
    }
}

proof fn lemma_encode_utf8_concat(a: Seq<char>, b: Seq<char>)
    ensures
        encode_utf8(a + b) == encode_utf8(a) + encode_utf8(b),
    decreases a.len(),
{
    if a.len() == 0 {
        assert(a + b =~= b);
        assert(encode_utf8(a) + encode_utf8(b) =~= encode_utf8(b));
    } else {
        lemma_encode_utf8_concat(a.drop_first(), b);
        assert((a + b).drop_first() =~= a.drop_first() + b);
        assert(encode_utf8(a + b) =~= encode_utf8(a) + encode_utf8(b));
    }
}

proof fn lemma_encode_dot()
    ensures
        encode_utf8(seq!['.']) == seq![DOT],
{
    let s = seq!['.'];
    assert(s.drop_first() =~= Seq::<char>::empty());
    assert(encode_utf8(Seq::<char>::empty()) =~= Seq::<u8>::empty());
    let c = s[0] as u32;
    assert(c == 46);
    assert(c & 0x7F == 46) by (bit_vector)
        requires
            c == 46,
    ;
    assert(encode_utf8(s) == encode_scalar(c) + encode_utf8(s.drop_first()));
    assert(encode_utf8(s) =~= seq![DOT]);
}

/// Relies on std::str::from_utf8: it accepts exactly the valid UTF-8 byte sequences,
/// and the text it gives back is encoded by those bytes.
#[verifier::external_body]
fn utf8_text(b: &[u8]) -> (r: Option<String>)
    ensures
        r is Some <==> valid_utf8(b@),
        r matches Some(s) ==> encode_utf8(s@) == b@,
{
    match std::str::from_utf8(b) {
        Ok(s) => Some(s.to_owned()),
        Err(_) => None,
    }
}

/// Decodes the name at `offset` of `bytes`, following compression pointers, and gives
/// it as text with the offset where the enclosing record resumes.
pub fn parse_domain_name(bytes: &[u8], offset: usize) -> (r: Result<(String, usize), DnsError>)
    ensures
        name_at(bytes@, offset as int) is Err ==> r == Err::<(String, usize), DnsError>(
            name_at(bytes@, offset as int)->Err_0,
        ),
        name_at(bytes@, offset as int) is Ok ==> r is Ok && encode_utf8(r->Ok_0.0@) == dotted(
            name_at(bytes@, offset as int)->Ok_0.0,
        ) && r->Ok_0.1 == name_at(bytes@, offset as int)->Ok_0.1,
        r is Ok ==> decoded_name(bytes@, offset as int) == Ok::<(Seq<char>, int), DnsError>(
            (r->Ok_0.0@, r->Ok_0.1 as int),
        ),
{
    let ghost b = bytes@;
    let ghost start = offset as int;
    let mut name = String::new();
    let mut any = false;
    let ghost mut labels: Seq<Seq<u8>> = seq![];
    let mut pos = offset;
    let mut jumped = false;
    let mut jump_offset: usize = offset;
    let mut jumps: usize = 0;
    proof {
        assert(labels + seq![] =~= labels);
    }
    loop
        invariant_except_break
            name_at(b, start) == resume(
                labels,
                jumped,
                jump_offset as int,
                walk_name(b, pos as int, jumps as int),
            ),
        invariant
            b == bytes@,
            start == offset as int,
            jumps <= MAX_JUMPS,
            any == (labels.len() > 0),
            !any ==> name@.len() == 0,
            encode_utf8(name@) == joined(labels),
        ensures
            name_at(b, start) == resume(labels, jumped, jump_offset as int, Ok((seq![], pos as int))),
        decreases MAX_JUMPS - jumps, bytes@.len() - pos,
    {
        let ghost walk = walk_name(b, pos as int, jumps as int);
        assert(walk is Err ==> name_at(b, start) == walk);
        if pos >= bytes.len() {
            assert(walk == Err::<(Seq<Seq<u8>>, int), DnsError>(DnsError::OffsetOutOfBounds));
            return Err(DnsError::OffsetOutOfBounds);
        }
        let length = bytes[pos];
        assert(length == b[pos as int]);
        if length >= 0xC0 {
            if pos + 1 >= bytes.len() {
                assert(walk == Err::<(Seq<Seq<u8>>, int), DnsError>(DnsError::TruncatedName));
                return Err(DnsError::TruncatedName);
            }
            let hi = length & 0x3F;
            assert(hi == length - 0xC0) by (bit_vector)
                requires
                    hi == length & 0x3F,
                    length >= 0xC0,
            ;
            let pointer: usize = (hi as usize) * 256 + bytes[pos + 1] as usize;
            if !jumped {
                jump_offset = pos + 2;
            }
            pos = pointer;
            jumped = true;
            jumps += 1;
            if jumps > MAX_JUMPS {
                assert(walk == Err::<(Seq<Seq<u8>>, int), DnsError>(DnsError::CompressionLoop));
                return Err(DnsError::CompressionLoop);
            }
            continue;
        }
        if length == 0 {
            assert(walk == Ok::<(Seq<Seq<u8>>, int), DnsError>((seq![], pos + 1)));
            pos += 1;
            break;
        }
        if length as usize > bytes.len() - (pos + 1) {
            assert(walk == Err::<(Seq<Seq<u8>>, int), DnsError>(DnsError::TruncatedName));
            return Err(DnsError::TruncatedName);
        }
        let end = pos + 1 + length as usize;
        let label_bytes = &bytes[pos + 1..end];
        let label = match utf8_text(label_bytes) {
            None => {
                assert(walk == Err::<(Seq<Seq<u8>>, int), DnsError>(DnsError::InvalidLabelEncoding));
                return Err(DnsError::InvalidLabelEncoding);
            },
            Some(label) => label,
        };
        let ghost x = label_bytes@;
        assert(x == b.subrange(pos + 1, end as int));
        proof {
            let dot = ".";
            reveal_strlit(".");
            assert(dot@ =~= seq!['.']);
            lemma_encode_dot();
            if any {
                lemma_encode_utf8_concat(name@, dot@);
                lemma_encode_utf8_concat(name@ + dot@, label@);
                assert(labels.push(x).drop_last() =~= labels);
                assert(joined(labels.push(x)) == joined(labels) + seq![DOT] + x);
            } else {
                assert(name@ + label@ =~= label@);
                assert(labels.push(x) =~= seq![x]);
            }
            match walk_name(b, end as int, jumps as int) {
                Ok((more, next)) => {
                    assert(labels + (seq![x] + more) =~= labels.push(x) + more);
                }
                Err(e) => {}
            }
        }
        if any {
            name.append(".");
        }
        name.append(label.as_str());
        assert(encode_utf8(name@) == joined(labels.push(x)));
        any = true;
        proof {
            labels = labels.push(x);
        }
        pos = end;
    }
    proof {
        assert(labels + seq![] =~= labels);
    }
    let final_offset = if jumped { jump_offset } else { pos };
    let root = ".";
    let domain = if any { name } else { String::from_str(root) };
    proof {
        reveal_strlit(".");
        assert(root@ =~= seq!['.']);
        lemma_encode_dot();
        assert(encode_utf8(domain@) == dotted(labels));
        encode_utf8_decode_utf8(domain@);
        assert(name_at(b, start) == Ok::<(Seq<Seq<u8>>, int), DnsError>(
            (labels, final_offset as int),
        ));
    }
    Ok((domain, final_offset))
}

proof fn lemma_wire_labels_concat(a: Seq<Seq<u8>>, b: Seq<Seq<u8>>)
    ensures
        wire_labels(a + b) == wire_labels(a) + wire_labels(b),
    decreases a.len(),
{
    if a.len() == 0 {
        assert(a + b =~= b);
        assert(wire_labels(a) + wire_labels(b) =~= wire_labels(b));
    } else {
        lemma_wire_labels_concat(a.drop_first(), b);
        assert((a + b).drop_first() =~= a.drop_first() + b);
        assert(wire_labels(a + b) =~= wire_labels(a) + wire_labels(b));
    }
}

proof fn lemma_wire_label(x: Seq<u8>)
    ensures
        wire_labels(seq![x]) == seq![x.len() as u8] + x,
{
    assert(seq![x].drop_first() =~= Seq::<Seq<u8>>::empty());
    assert(wire_labels(Seq::<Seq<u8>>::empty()) == Seq::<u8>::empty());
    assert(seq![x.len() as u8] + x + Seq::<u8>::empty() =~= seq![x.len() as u8] + x);
}

/// Appends the label `b[start..end]` preceded by its length.
fn push_label(out: &mut Vec<u8>, b: &[u8], start: usize, end: usize, Ghost(done): Ghost<Seq<Seq<u8>>>)
    requires
        start < end <= b@.len(),
        end - start <= 63,
        old(out)@ == wire_labels(done),
    ensures
        final(out)@ == wire_labels(done.push(b@.subrange(start as int, end as int))),
{
    let ghost x = b@.subrange(start as int, end as int);
    out.push((end - start) as u8);
    push_bytes(out, &b[start..end]);
    proof {
        lemma_wire_labels_concat(done, seq![x]);
        lemma_wire_label(x);
        assert(done + seq![x] =~= done.push(x));
        assert(final(out)@ =~= wire_labels(done) + (seq![x.len() as u8] + x));
    }
}

/// Encodes a name given as text: each non-empty label between dots, preceded by its
/// length, then a zero byte; fails where a label is longer than 63 bytes.
pub fn try_encode_domain_name(name: &str) -> (r: Result<Vec<u8>, DnsError>)
    ensures
        encodable(name@) <==> r is Ok,
        r matches Ok(v) ==> v@ == name_wire(name@),
        r matches Err(e) ==> e == DnsError::LabelTooLong,
{
    let b = name.as_bytes();
    let ghost text = b@;
    assert(text == encode_utf8(name@));
    let mut encoded: Vec<u8> = Vec::new();
    let mut start: usize = 0;
    let mut i: usize = 0;
    let ghost mut done: Seq<Seq<u8>> = seq![];
    proof {
        assert(text.subrange(0, 0) =~= Seq::<u8>::empty());
        assert(text.subrange(0, text.len() as int) =~= text);
        assert(done + name_labels(text) =~= name_labels(text));
    }
    while i < b.len()
        invariant
            text == b@,
            text == encode_utf8(name@),
            forall|k: int| 0 <= k < done.len() ==> #[trigger] done[k].len() <= 63,
            start <= i <= text.len(),
            name_labels(text) == done + labels_from(
                text.subrange(i as int, text.len() as int),
                text.subrange(start as int, i as int),
            ),
            encoded@ == wire_labels(done),
        decreases text.len() - i,
    {
        let ghost rest = text.subrange(i as int, text.len() as int);
        let ghost cur = text.subrange(start as int, i as int);
        assert(rest.drop_first() =~= text.subrange(i + 1, text.len() as int));
        if b[i] == DOT {
            if i > start {
                assert(name_labels(text) == (done + seq![cur]) + labels_from(rest.drop_first(), seq![]));
                assert(name_labels(text)[done.len() as int] == cur);
                if i - start > 63 {
                    assert(name_labels(encode_utf8(name@))[done.len() as int].len() > 63);
                    return Err(DnsError::LabelTooLong);
                }
                push_label(&mut encoded, b, start, i, Ghost(done));
                proof {
                    done = done.push(cur);
                }
            } else {
                assert(cur.len() == 0);
                assert(seq![] + labels_from(rest.drop_first(), seq![]) =~= labels_from(rest.drop_first(), seq![]));
            }
            start = i + 1;
            assert(text.subrange(start as int, start as int) =~= Seq::<u8>::empty());
        } else {
            assert(cur.push(text[i as int]) =~= text.subrange(start as int, i + 1));
        }
        i += 1;
    }
    let ghost cur = text.subrange(start as int, i as int);
    assert(text.subrange(i as int, text.len() as int).len() == 0);
    if i > start {
        assert(name_labels(text) == done + seq![cur]);
        assert(name_labels(text)[done.len() as int] == cur);
        if i - start > 63 {
            assert(name_labels(encode_utf8(name@))[done.len() as int].len() > 63);
            return Err(DnsError::LabelTooLong);
        }
        push_label(&mut encoded, b, start, i, Ghost(done));
        proof {
            assert(done + seq![cur] =~= done.push(cur));
            done = done.push(cur);
        }
    } else {
        assert(name_labels(text) =~= done);
    }
    assert(done == name_labels(text));
    let ghost before = encoded@;
    encoded.push(0);
    assert(encoded@ =~= before + seq![0u8]);
    assert(encodable(name@)) by {
        assert forall|k: int| 0 <= k < name_labels(encode_utf8(name@)).len() implies #[trigger] name_labels(
            encode_utf8(name@),
        )[k].len() <= 63 by {
            assert(done[k].len() <= 63);
        }
    }
    Ok(encoded)
}

/// Encodes a name given as text: each non-empty label between dots, preceded by its
/// length, then a zero byte. The root `.` gives the single zero byte.
pub fn encode_domain_name(name: &str) -> (r: Vec<u8>)
    requires
        encodable(name@),
    ensures
        r@ == name_wire(name@),
{
    try_encode_domain_name(name).unwrap()
}

/// A name in text that the wire form carries unchanged: its labels joined by dots (a
/// lone dot for the root), each of at most 63 bytes, 255 bytes in all on the wire.
pub open spec fn is_domain_name(n: Seq<char>) -> bool {
    &&& dotted(name_labels(encode_utf8(n))) == encode_utf8(n)
    &&& encodable(n)
    &&& name_wire(n).len() <= 255
}

/// Splitting valid UTF-8 text at a dot leaves valid UTF-8 text on each side.
proof fn lemma_utf8_split_at_dot(x: Seq<u8>, y: Seq<u8>)
    requires
        valid_utf8(x + seq![DOT] + y),
    ensures
        valid_utf8(x),
        valid_utf8(y),
    decreases x.len(),
{
    let s = x + seq![DOT] + y;
    if x.len() == 0 {
        assert(s[0] == DOT);
        assert(length_of_first_scalar(s) == 1);
        assert(pop_first_scalar(s) =~= y);
    } else {
        let k = length_of_first_scalar(s);
        assert(s[x.len() as int] == DOT);
        assert(1 <= k <= x.len());
        assert(x.subrange(0, k) =~= s.subrange(0, k));
        assert(decode_first_codepoint(x) == decode_first_codepoint(s));
        assert(valid_first_scalar(x));
        assert(length_of_first_scalar(x) == k);
        let rest = x.subrange(k, x.len() as int);
        assert(pop_first_scalar(s) =~= rest + seq![DOT] + y);
        lemma_utf8_split_at_dot(rest, y);
        assert(pop_first_scalar(x) =~= rest);
    }
}

/// The labels of valid UTF-8 text joined by dots are valid UTF-8 text each.
proof fn lemma_joined_labels_utf8(ls: Seq<Seq<u8>>)
    requires
        valid_utf8(joined(ls)),
    ensures
        forall|i: int| 0 <= i < ls.len() ==> valid_utf8(#[trigger] ls[i]),
    decreases ls.len(),
{
    if ls.len() == 1 {
    } else if ls.len() > 1 {
        lemma_utf8_split_at_dot(joined(ls.drop_last()), ls.last());
        lemma_joined_labels_utf8(ls.drop_last());
        assert forall|i: int| 0 <= i < ls.len() implies valid_utf8(#[trigger] ls[i]) by {
            if i < ls.len() - 1 {
                assert(ls[i] == ls.drop_last()[i]);
            }
        }
    }
}

/// The runs between dots are never empty.
proof fn lemma_labels_nonempty(b: Seq<u8>, cur: Seq<u8>)
    ensures
        forall|i: int| 0 <= i < labels_from(b, cur).len() ==> #[trigger] labels_from(b, cur)[i].len() > 0,
    decreases b.len(),
{
    if b.len() == 0 {
        if cur.len() > 0 {
            assert(labels_from(b, cur) == seq![cur]);
        } else {
            assert(labels_from(b, cur).len() == 0);
        }
    } else if b[0] == DOT {
        lemma_labels_nonempty(b.drop_first(), seq![]);
        let head: Seq<Seq<u8>> = if cur.len() == 0 { seq![] } else { seq![cur] };
        let tail = labels_from(b.drop_first(), seq![]);
        assert(labels_from(b, cur) == head + tail);
        assert forall|i: int| 0 <= i < labels_from(b, cur).len() implies #[trigger] labels_from(
            b,
            cur,
        )[i].len() > 0 by {
            if i >= head.len() {
                assert(labels_from(b, cur)[i] == tail[i - head.len()]);
            } else {
                assert(labels_from(b, cur)[i] == cur);
            }
        }
    } else {
        lemma_labels_nonempty(b.drop_first(), cur.push(b[0]));
        assert(labels_from(b, cur) == labels_from(b.drop_first(), cur.push(b[0])));
    }
}

/// Reading the wire form of labels, placed anywhere in a buffer, gives the labels back
/// and the offset just past the terminating zero byte.
proof fn lemma_walk_wire(b: Seq<u8>, p: int, ls: Seq<Seq<u8>>, jumps: int)
    requires
        0 <= p,
        0 <= jumps <= MAX_JUMPS,
        p + wire_labels(ls).len() + 1 <= b.len(),
        b.subrange(p, p + wire_labels(ls).len() + 1) == wire_labels(ls) + seq![0u8],
        forall|i: int|
            0 <= i < ls.len() ==> 0 < #[trigger] ls[i].len() <= 63 && valid_utf8(ls[i]),
    ensures
        walk_name(b, p, jumps) == Ok::<(Seq<Seq<u8>>, int), DnsError>(
            (ls, p + wire_labels(ls).len() + 1),
        ),
    decreases ls.len(),
{
    let w = wire_labels(ls) + seq![0u8];
    assert(b[p] == w[0]);
    if ls.len() == 0 {
        assert(w[0] == 0);
        assert(ls =~= Seq::<Seq<u8>>::empty());
        assert(walk_name(b, p, jumps) == Ok::<(Seq<Seq<u8>>, int), DnsError>((seq![], p + 1)));
    } else {
        let x = ls[0];
        let l = x.len();
        let rest = ls.drop_first();
        let wr = wire_labels(rest) + seq![0u8];
        assert(w =~= seq![l as u8] + x + wr);
        assert(b[p] == l as u8);
        assert(b.subrange(p + 1, p + 1 + l) =~= x) by {
            assert forall|k: int| 0 <= k < l implies b[p + 1 + k] == x[k] by {
                assert(b[p + 1 + k] == w[1 + k]);
            }
        }
        assert(b.subrange(p + 1 + l, p + 1 + l + wire_labels(rest).len() + 1) =~= wr) by {
            assert forall|k: int| 0 <= k < wr.len() implies b[p + 1 + l + k] == wr[k] by {
                assert(b[p + 1 + l + k] == w[1 + l + k]);
            }
        }
        assert forall|i: int| 0 <= i < rest.len() implies 0 < #[trigger] rest[i].len() <= 63
            && valid_utf8(rest[i]) by {
            assert(rest[i] == ls[i + 1]);
        }
        lemma_walk_wire(b, p + 1 + l, rest, jumps);
        assert(seq![x] + rest =~= ls);
        assert(wire_labels(ls).len() == 1 + l + wire_labels(rest).len());
        assert(!is_pointer(b[p]));
        assert(valid_utf8(b.subrange(p + 1, p + 1 + l)));
    }
}

/// The labels of a domain name: each of 1 to 63 bytes and valid UTF-8 text.
proof fn lemma_domain_name_labels(n: Seq<char>)
    requires
        is_domain_name(n),
    ensures
        forall|i: int|
            0 <= i < name_labels(encode_utf8(n)).len() ==> 0 < #[trigger] name_labels(
                encode_utf8(n),
            )[i].len() <= 63 && valid_utf8(name_labels(encode_utf8(n))[i]),
        decode_utf8(dotted(name_labels(encode_utf8(n)))) == n,
{
    let text = encode_utf8(n);
    let ls = name_labels(text);
    encode_utf8_valid_utf8(n);
    encode_utf8_decode_utf8(n);
    lemma_labels_nonempty(text, seq![]);
    if ls.len() > 0 {
        lemma_joined_labels_utf8(ls);
    }
}

/// A buffer that starts with the wire form of a domain name decodes to that name, and
/// the offset just past its encoding.
pub proof fn lemma_name_prefix(n: Seq<char>, b: Seq<u8>)
    requires
        is_domain_name(n),
        name_wire(n).len() <= b.len(),
        b.subrange(0, name_wire(n).len() as int) == name_wire(n),
    ensures
        decoded_name(b, 0) == Ok::<(Seq<char>, int), DnsError>((n, name_wire(n).len() as int)),
{
    lemma_domain_name_labels(n);
    lemma_walk_wire(b, 0, name_labels(encode_utf8(n)), 0);
}

/// Decoding the wire form of a domain name gives the name back, and the offset just past
/// its encoding.
pub proof fn lemma_name_round_trip(n: Seq<char>)
    requires
        is_domain_name(n),
    ensures
        decoded_name(name_wire(n), 0) == Ok::<(Seq<char>, int), DnsError>(
            (n, name_wire(n).len() as int),
        ),
{
    let w = name_wire(n);
    assert(w.subrange(0, w.len() as int) =~= w);
    lemma_name_prefix(n, w);
}

/// Reading labels whose wire form the buffer cuts short fails with a truncation error.
proof fn lemma_walk_wire_cut(b: Seq<u8>, p: int, ls: Seq<Seq<u8>>, jumps: int)
    requires
        0 <= p <= b.len(),
        0 <= jumps <= MAX_JUMPS,
        b.len() < p + wire_labels(ls).len() + 1,
        b.subrange(p, b.len() as int) == (wire_labels(ls) + seq![0u8]).subrange(0, b.len() - p),
        forall|i: int|
            0 <= i < ls.len() ==> 0 < #[trigger] ls[i].len() <= 63 && valid_utf8(ls[i]),
    ensures
        walk_name(b, p, jumps) == Err::<(Seq<Seq<u8>>, int), DnsError>(DnsError::OffsetOutOfBounds)
            || walk_name(b, p, jumps) == Err::<(Seq<Seq<u8>>, int), DnsError>(
            DnsError::TruncatedName,
        ),
    decreases ls.len(),
{
    if p < b.len() {
        let w = wire_labels(ls) + seq![0u8];
        let bs = b.subrange(p, b.len() as int);
        let ws = w.subrange(0, b.len() - p);
        assert(b[p] == bs[0] && bs[0] == ws[0]);
        if ls.len() == 0 {
        } else {
            let x = ls[0];
            let l = x.len();
            let rest = ls.drop_first();
            let wr = wire_labels(rest) + seq![0u8];
            assert(w =~= seq![l as u8] + x + wr);
            assert(b[p] == l as u8);
            if p + 1 + l <= b.len() {
                assert(b.subrange(p + 1, p + 1 + l) =~= x) by {
                    assert forall|k: int| 0 <= k < l implies b[p + 1 + k] == x[k] by {
                        assert(b[p + 1 + k] == bs[1 + k] && bs[1 + k] == ws[1 + k]);
                    }
                }
                let q = p + 1 + l;
                assert(b.subrange(q, b.len() as int) =~= wr.subrange(0, b.len() - q)) by {
                    assert forall|k: int| 0 <= k < b.len() - q implies b[q + k] == wr[k] by {
                        assert(b[q + k] == bs[1 + l + k] && bs[1 + l + k] == ws[1 + l + k]);
                    }
                }
                assert forall|i: int| 0 <= i < rest.len() implies 0 < #[trigger] rest[i].len()
                    <= 63 && valid_utf8(rest[i]) by {
                    assert(rest[i] == ls[i + 1]);
                }
                lemma_walk_wire_cut(b, q, rest, jumps);
            }
        }
    }
}

/// Any strict prefix of the wire form of a domain name fails to decode with a truncation
/// error.
pub proof fn lemma_truncated_name(n: Seq<char>, b: Seq<u8>)
    requires
        is_domain_name(n),
        b.len() < name_wire(n).len(),
        b == name_wire(n).subrange(0, b.len() as int),
    ensures
        name_at(b, 0) == Err::<(Seq<Seq<u8>>, int), DnsError>(DnsError::OffsetOutOfBounds)
            || name_at(b, 0) == Err::<(Seq<Seq<u8>>, int), DnsError>(DnsError::TruncatedName),
{
    lemma_domain_name_labels(n);
    assert(b.subrange(0, b.len() as int) =~= b);
    lemma_walk_wire_cut(b, 0, name_labels(encode_utf8(n)), 0);
}

/// From `pos` the name is plain labels up to its terminating zero byte, with no pointer.
pub open spec fn labels_only(b: Seq<u8>, pos: int) -> bool
    decreases b.len() - pos,
{
    0 <= pos < b.len() && (b[pos] == 0 || (!is_pointer(b[pos]) && pos + 1 + b[pos] <= b.len()
        && labels_only(b, pos + 1 + b[pos])))
}

/// From `pos` at least `n` compression pointers lead one to the next.
pub open spec fn pointer_chain(b: Seq<u8>, pos: int, n: nat) -> bool
    decreases n,
{
    n == 0 || (0 <= pos && pos + 1 < b.len() && is_pointer(b[pos]) && pointer_chain(
        b,
        pointer_target(b[pos], b[pos + 1]),
        (n - 1) as nat,
    ))
}

/// Reading plain labels does not depend on how many pointers led to them.
proof fn lemma_labels_only_jumps(b: Seq<u8>, pos: int, jumps: int)
    requires
        labels_only(b, pos),
        0 <= jumps <= MAX_JUMPS,
    ensures
        walk_name(b, pos, jumps) == walk_name(b, pos, 0),
    decreases b.len() - pos,
{
    if b[pos] != 0 {
        lemma_labels_only_jumps(b, pos + 1 + b[pos], jumps);
        lemma_labels_only_jumps(b, pos + 1 + b[pos], 0);
    }
}

/// A pointer at `m` to plain labels at `k` decodes to the name at `k`, and the record
/// holding it resumes two bytes past `m`.
pub proof fn lemma_pointer_to_labels(b: Seq<u8>, k: int, m: int)
    requires
        0 <= k < 0x4000,
        0 <= m,
        m + 1 < b.len(),
        b[m] == 0xC0 + k / 256,
        b[m + 1] == k % 256,
        labels_only(b, k),
    ensures
        decoded_name(b, m) == match decoded_name(b, k) {
            Ok((n, _)) => Ok((n, m + 2)),
            Err(e) => Err(e),
        },
{
    assert(pointer_target(b[m], b[m + 1]) == k);
    lemma_labels_only_jumps(b, k, 1);
}

/// A chain of more pointers than allowed fails with a compression loop error.
proof fn lemma_chain_fails(b: Seq<u8>, pos: int, jumps: int)
    requires
        0 <= jumps <= MAX_JUMPS,
        pointer_chain(b, pos, (MAX_JUMPS + 1 - jumps) as nat),
    ensures
        walk_name(b, pos, jumps) == Err::<(Seq<Seq<u8>>, int), DnsError>(DnsError::CompressionLoop),
    decreases MAX_JUMPS - jumps,
{
    if jumps < MAX_JUMPS {
        lemma_chain_fails(b, pointer_target(b[pos], b[pos + 1]), jumps + 1);
    }
}

/// A name that starts a chain of more than five pointers fails with a compression loop
/// error.
pub proof fn lemma_pointer_loop(b: Seq<u8>, pos: int)
    requires
        pointer_chain(b, pos, (MAX_JUMPS + 1) as nat),
    ensures
        name_at(b, pos) == Err::<(Seq<Seq<u8>>, int), DnsError>(DnsError::CompressionLoop),
{
    lemma_chain_fails(b, pos, 0);
}

proof fn lemma_self_chain(b: Seq<u8>, m: int, n: nat)
    requires
        0 <= m < 0x4000,
        m + 1 < b.len(),
        b[m] == 0xC0 + m / 256,
        b[m + 1] == m % 256,
    ensures
        pointer_chain(b, m, n),
    decreases n,
{
    if n > 0 {
        lemma_self_chain(b, m, (n - 1) as nat);
    }
}

/// A pointer that points at itself fails with a compression loop error.
pub proof fn lemma_self_pointer(b: Seq<u8>, m: int)
    requires
        0 <= m < 0x4000,
        m + 1 < b.len(),
        b[m] == 0xC0 + m / 256,
        b[m + 1] == m % 256,
    ensures
        name_at(b, m) == Err::<(Seq<Seq<u8>>, int), DnsError>(DnsError::CompressionLoop),
{
    lemma_self_chain(b, m, (MAX_JUMPS + 1) as nat);
    lemma_pointer_loop(b, m);
}

} // verus!
