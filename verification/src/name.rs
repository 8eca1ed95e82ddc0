//! Domain names on the wire: length-prefixed labels terminated by a zero
//! byte, with backward pointer compression. Decoding is position-aware over
//! the whole message buffer and bounded against malicious pointer chains;
//! encoding never emits pointers.

use vstd::prelude::*;

use crate::bytes::spliced;
use crate::error::DnsError;

verus! {

/// A decoded domain name: its labels in order, without the root label.
/// Label text is kept as the raw bytes received.
#[derive(Debug, Clone, PartialEq, Eq)]
pub struct Label {
    pub parts: Vec<Vec<u8>>,
}

impl View for Label {
    type V = Seq<Seq<u8>>;

    open spec fn view(&self) -> Seq<Seq<u8>> {
        self.parts.deep_view()
    }
}

/// One element of the label-part stream, tagged by its first byte:
/// `0x00` is the root terminator, a byte with both top bits set starts a
/// two-byte compression pointer, anything else is the length of a regular
/// label that follows.
#[derive(Debug, Clone, PartialEq, Eq)]
pub enum LabelPart {
    Root,
    Regular(Vec<u8>),
    Backreference(usize),
}

/// The 14-bit offset held by the compression pointer at `pos`: the low six
/// bits of the first byte and all eight of the second.
pub open spec fn ptr_offset(b: Seq<u8>, pos: int) -> int
    recommends
        0 <= pos,
        pos + 2 <= b.len(),
{
    (b[pos] - 0xc0) * 256 + b[pos + 1]
}

/// Bytes left in `b` from `pos` on; zero once past the end.
pub open spec fn remaining(b: Seq<u8>, pos: int) -> int {
    if pos <= b.len() {
        b.len() - pos
    } else {
        0
    }
}

/// The labels of the name starting at `pos`, reading against the whole
/// message `b`, with `jumps` pointer hops already taken.
///
/// A regular label contributes its text and scanning continues behind it; a
/// pointer moves the read position to its offset, burning one of the four
/// allowed hops; the root terminator ends the name. Errors mirror the
/// decoder's: running out of bytes is `Truncated`, an offset of 512 or more
/// is `PointerOutOfRange`, a fifth hop is `TooManyIndirections`.
pub open spec fn name_labels(b: Seq<u8>, pos: int, jumps: int) -> Result<Seq<Seq<u8>>, DnsError>
    decreases 4 - jumps, remaining(b, pos),
{
    if pos < 0 || pos >= b.len() {
        Err(DnsError::Truncated)
    } else {
        let tag = b[pos];
        if tag == 0 {
            Ok(Seq::empty())
        } else if tag >= 0xc0 {
            if pos + 2 > b.len() {
                Err(DnsError::Truncated)
            } else if ptr_offset(b, pos) >= 512 {
                Err(DnsError::PointerOutOfRange)
            } else if jumps >= 4 {
                Err(DnsError::TooManyIndirections)
            } else {
                name_labels(b, ptr_offset(b, pos), jumps + 1)
            }
        } else {
            if pos + 1 + tag > b.len() {
                Err(DnsError::Truncated)
            } else {
                match name_labels(b, pos + 1 + tag, jumps) {
                    Ok(rest) => Ok(seq![b.subrange(pos + 1, pos + 1 + tag)] + rest),
                    Err(e) => Err(e),
                }
            }
        }
    }
}

/// Where the caller's cursor lands after the name at `pos`: just past the
/// root byte, or just past the first pointer — only label text is imported
/// from a jump target, never a position.
pub open spec fn name_end(b: Seq<u8>, pos: int) -> Result<int, DnsError>
    decreases remaining(b, pos),
{
    if pos < 0 || pos >= b.len() {
        Err(DnsError::Truncated)
    } else {
        let tag = b[pos];
        if tag == 0 {
            Ok(pos + 1)
        } else if tag >= 0xc0 {
            if pos + 2 > b.len() {
                Err(DnsError::Truncated)
            } else {
                Ok(pos + 2)
            }
        } else {
            if pos + 1 + tag > b.len() {
                Err(DnsError::Truncated)
            } else {
                name_end(b, pos + 1 + tag)
            }
        }
    }
}

/// Reads the single label part at `pos`: the root byte, a two-byte pointer,
/// or a length byte followed by that much text. `Truncated` exactly when the
/// part runs past the end of the buffer.
pub fn parse_label_part(buf: &[u8], pos: usize) -> (r: Result<(LabelPart, usize), DnsError>)
    ensures
        match r {
            Ok((part, end)) => pos < buf@.len() && {
                let tag = buf@[pos as int];
                if tag == 0 {
                    part == LabelPart::Root && end == pos + 1
                } else if tag >= 0xc0 {
                    &&& pos + 2 <= buf@.len()
                    &&& part matches LabelPart::Backreference(j) && j == ptr_offset(
                        buf@,
                        pos as int,
                    )
                    &&& end == pos + 2
                } else {
                    &&& pos + 1 + tag <= buf@.len()
                    &&& part matches LabelPart::Regular(s) && s@ == buf@.subrange(
                        pos + 1,
                        pos + 1 + tag,
                    )
                    &&& end == pos + 1 + tag
                }
            },
            Err(e) => e == DnsError::Truncated && (pos >= buf@.len() || {
                let tag = buf@[pos as int];
                if tag >= 0xc0 {
                    pos + 2 > buf@.len()
                } else {
                    tag != 0 && pos + 1 + tag > buf@.len()
                }
            }),
        },
{
    if pos >= buf.len() {
        return Err(DnsError::Truncated);
    }
    let tag = buf[pos];
    if tag == 0 {
        Ok((LabelPart::Root, pos + 1))
    } else if tag >= 0xc0 {
        if buf.len() - pos < 2 {
            return Err(DnsError::Truncated);
        }
        let offset = ((tag - 0xc0) as usize) * 256 + (buf[pos + 1] as usize);
        Ok((LabelPart::Backreference(offset), pos + 2))
    } else {
        let count = tag as usize;
        if buf.len() - pos < count + 1 {
            return Err(DnsError::Truncated);
        }
        let text = vstd::slice::slice_to_vec(vstd::slice::slice_subrange(buf, pos + 1, pos + 1
            + count));
        Ok((LabelPart::Regular(text), pos + 1 + count))
    }
}

/// Decodes the possibly-compressed name at `pos` against the whole message
/// `buf`. On success the labels are exactly `name_labels(buf@, pos, 0)` and
/// the returned cursor is `name_end(buf@, pos)`: the position just past the
/// root byte, or just past the first pointer.
pub fn parse_label(buf: &[u8], pos: usize) -> (r: Result<(Label, usize), DnsError>)
    ensures
        match r {
            Ok((label, end)) => {
                &&& name_labels(buf@, pos as int, 0) == Ok::<_, DnsError>(label@)
                &&& name_end(buf@, pos as int) == Ok::<_, DnsError>(end as int)
                &&& end <= buf@.len()
            },
            Err(e) => name_labels(buf@, pos as int, 0) == Err::<Seq<Seq<u8>>, _>(e),
        },
{
    let mut parts: Vec<Vec<u8>> = Vec::new();
    let mut cur = pos;
    let mut jumps: usize = 0;
    let mut ret_pos: usize = 0;
    let mut jumped = false;
    loop
        invariant
            jumps <= 4,
            (match name_labels(buf@, cur as int, jumps as int) {
                Ok(rest) => name_labels(buf@, pos as int, 0) == Ok::<_, DnsError>(
                    parts.deep_view() + rest,
                ),
                Err(e) => name_labels(buf@, pos as int, 0) == Err::<Seq<Seq<u8>>, _>(e),
            }),
            jumped ==> name_end(buf@, pos as int) == Ok::<_, DnsError>(ret_pos as int) && ret_pos
                <= buf@.len(),
            !jumped ==> name_end(buf@, pos as int) == name_end(buf@, cur as int),
        decreases 4 - jumps, remaining(buf@, cur as int),
    {
        match parse_label_part(buf, cur) {
            Err(e) => {
                return Err(e);
            },
            Ok((LabelPart::Root, end)) => {
                let end_pos = if jumped {
                    ret_pos
                } else {
                    end
                };
                let label = Label { parts };
                proof {
                    assert(label@ + Seq::<Seq<u8>>::empty() =~= label@);
                }
                return Ok((label, end_pos));
            },
            Ok((LabelPart::Regular(s), end)) => {
                let ghost pdv = parts.deep_view();
                let ghost sv = s@;
                parts.push(s);
                proof {
                    assert(parts.deep_view() =~~= pdv.push(sv));
                    assert(pdv + seq![sv] =~= pdv.push(sv));
                    if name_labels(buf@, end as int, jumps as int) is Ok {
                        let rest = name_labels(buf@, end as int, jumps as int)->Ok_0;
                        assert(pdv + (seq![sv] + rest) =~= parts.deep_view() + rest);
                    }
                }
                cur = end;
            },
            Ok((LabelPart::Backreference(j), end)) => {
                if j >= 512 {
                    return Err(DnsError::PointerOutOfRange);
                }
                if jumps >= 4 {
                    return Err(DnsError::TooManyIndirections);
                }
                if !jumped {
                    ret_pos = end;
                    jumped = true;
                }
                jumps = jumps + 1;
                cur = j;
            },
        }
    }
}

/// The wire bytes of `labels` alone: a length byte and the text of each
/// label, in order, without the root terminator.
pub open spec fn labels_bytes(labels: Seq<Seq<u8>>) -> Seq<u8>
    decreases labels.len(),
{
    if labels.len() == 0 {
        Seq::empty()
    } else {
        seq![labels[0].len() as u8] + labels[0] + labels_bytes(labels.drop_first())
    }
}

/// The uncompressed wire encoding of a whole name: every label, then the
/// root terminator.
pub open spec fn name_bytes(labels: Seq<Seq<u8>>) -> Seq<u8> {
    labels_bytes(labels) + seq![0u8]
}

/// Every label short enough for a length byte of its own and none empty, so
/// that the encoding decodes back to the same labels.
pub open spec fn name_wf(labels: Seq<Seq<u8>>) -> bool {
    forall|i: int| 0 <= i < labels.len() ==> 1 <= (#[trigger] labels[i]).len() <= 63
}

/// Every label short enough to encode at all; empty labels are allowed
/// here, the encoder writes them even though they do not decode back.
pub open spec fn name_fits(labels: Seq<Seq<u8>>) -> bool {
    forall|i: int| 0 <= i < labels.len() ==> (#[trigger] labels[i]).len() <= 63
}

/// Appending one label to the front section of the encoding.
proof fn lemma_labels_bytes_snoc(s: Seq<Seq<u8>>, i: int)
    requires
        0 <= i < s.len(),
    ensures
        labels_bytes(s.take(i + 1)) == labels_bytes(s.take(i)) + seq![s[i].len() as u8] + s[i],
    decreases i,
{
    if i == 0 {
        assert(s.take(1).drop_first() =~= Seq::<Seq<u8>>::empty());
        assert(s.take(0) =~= Seq::<Seq<u8>>::empty());
        assert(labels_bytes(s.take(1)) =~= Seq::empty() + seq![s[0].len() as u8] + s[0]);
    } else {
        let t = s.drop_first();
        lemma_labels_bytes_snoc(t, i - 1);
        assert(s.take(i + 1).drop_first() =~= t.take(i));
        assert(s.take(i).drop_first() =~= t.take(i - 1));
        assert(s.take(i + 1)[0] == s[0] && s.take(i)[0] == s[0]);
        assert(labels_bytes(s.take(i + 1)) == seq![s[0].len() as u8] + s[0] + labels_bytes(
            t.take(i),
        ));
        assert(labels_bytes(s.take(i)) == seq![s[0].len() as u8] + s[0] + labels_bytes(
            t.take(i - 1),
        ));
        assert(labels_bytes(s.take(i + 1)) =~= labels_bytes(s.take(i)) + seq![s[i].len() as u8]
            + s[i]);
    }
}

/// An owned copy of the name with the same labels.
pub fn clone_label(label: &Label) -> (r: Label)
    ensures
        r@ == label@,
{
    let mut parts: Vec<Vec<u8>> = Vec::new();
    let mut i: usize = 0;
    while i < label.parts.len()
        invariant
            i <= label.parts@.len(),
            parts.deep_view() == label@.take(i as int),
        decreases label.parts@.len() - i,
    {
        let ghost pre = parts.deep_view();
        let part = vstd::slice::slice_to_vec(label.parts[i].as_slice());
        let ghost pv = part@;
        parts.push(part);
        proof {
            assert(parts.deep_view() =~~= pre.push(pv));
            assert(pv =~= label@[i as int]);
            assert(pre.push(label@[i as int]) =~= label@.take(i + 1));
        }
        i = i + 1;
    }
    proof {
        assert(label@.take(label@.len() as int) =~= label@);
        assert(label@.len() == label.parts@.len());
    }
    Label { parts }
}

/// Appends the uncompressed encoding of `label` to a buffer under
/// construction. `LabelTooLong` exactly when some label exceeds 63 bytes,
/// and then the buffer is untouched.
pub fn append_name(v: &mut Vec<u8>, label: &Label) -> (r: Result<(), DnsError>)
    ensures
        match r {
            Ok(()) => {
                &&& forall|i: int| 0 <= i < label@.len() ==> (#[trigger] label@[i]).len() <= 63
                &&& final(v)@ == old(v)@ + name_bytes(label@)
            },
            Err(e) => {
                &&& e == DnsError::LabelTooLong
                &&& exists|i: int| 0 <= i < label@.len() && (#[trigger] label@[i]).len() > 63
                &&& final(v)@ == old(v)@
            },
        },
{
    let ghost dv = label@;
    let ghost base = v@;
    let mut i: usize = 0;
    while i < label.parts.len()
        invariant
            i <= dv.len(),
            dv.len() == label.parts@.len(),
            dv == label@,
            v@ == base,
            forall|k: int| 0 <= k < i ==> (#[trigger] dv[k]).len() <= 63,
        decreases label.parts@.len() - i,
    {
        if label.parts[i].len() > 63 {
            proof {
                assert(dv[i as int].len() > 63);
            }
            return Err(DnsError::LabelTooLong);
        }
        i = i + 1;
    }
    let mut i: usize = 0;
    while i < label.parts.len()
        invariant
            i <= dv.len(),
            dv.len() == label.parts@.len(),
            dv == label@,
            forall|k: int| 0 <= k < dv.len() ==> (#[trigger] dv[k]).len() <= 63,
            v@ == base + labels_bytes(dv.take(i as int)),
        decreases label.parts@.len() - i,
    {
        let part = &label.parts[i];
        let ghost vpre = v@;
        v.push(part.len() as u8);
        proof {
            assert(v@ =~= vpre + seq![part@.len() as u8] + part@.take(0));
        }
        let mut j: usize = 0;
        while j < part.len()
            invariant
                j <= part@.len(),
                v@ == vpre + seq![part@.len() as u8] + part@.take(j as int),
            decreases part@.len() - j,
        {
            v.push(part[j]);
            proof {
                assert(part@.take(j + 1) =~= part@.take(j as int).push(part@[j as int]));
                assert(v@ =~= vpre + seq![part@.len() as u8] + part@.take(j + 1));
            }
            j = j + 1;
        }
        proof {
            assert(part@.take(part@.len() as int) =~= part@);
            assert(dv[i as int] =~= part@);
            lemma_labels_bytes_snoc(dv, i as int);
            assert(v@ =~= base + labels_bytes(dv.take(i + 1)));
        }
        i = i + 1;
    }
    proof {
        assert(dv.take(dv.len() as int) =~= dv);
    }
    v.push(0);
    proof {
        assert(v@ =~= base + name_bytes(dv));
    }
    Ok(())
}

/// Packs `label` as an uncompressed name at `index`. `LabelTooLong` exactly
/// when some label exceeds 63 bytes; otherwise `BufferTooSmall` exactly when
/// the encoding does not fit; otherwise the encoding stands at `index` and
/// every byte outside it is unchanged.
pub fn pack_label(out: &mut Vec<u8>, index: usize, label: &Label) -> (r: Result<usize, DnsError>)
    ensures
        match r {
            Ok(n) => {
                &&& forall|i: int| 0 <= i < label@.len() ==> (#[trigger] label@[i]).len() <= 63
                &&& index + name_bytes(label@).len() <= old(out)@.len()
                &&& n == index + name_bytes(label@).len()
                &&& final(out)@ == spliced(old(out)@, index as int, name_bytes(label@))
            },
            Err(e) => final(out)@ == old(out)@ && {
                if e == DnsError::LabelTooLong {
                    exists|i: int| 0 <= i < label@.len() && (#[trigger] label@[i]).len() > 63
                } else {
                    &&& e == DnsError::BufferTooSmall
                    &&& forall|i: int|
                        0 <= i < label@.len() ==> (#[trigger] label@[i]).len() <= 63
                    &&& index + name_bytes(label@).len() > old(out)@.len()
                }
            },
        },
{
    let mut v: Vec<u8> = Vec::new();
    match append_name(&mut v, label) {
        Ok(()) => {},
        Err(e) => { return Err(e); },
    }
    crate::bytes::write_bytes(out, index, &v)
}

/// An uncompressed encoding decodes back to the labels it was made from:
/// wherever `name_bytes(labels)` stands in a message, the name decoder
/// returns exactly `labels` and stops just past the root terminator,
/// whatever hop budget is already spent.
pub proof fn lemma_name_bytes_parse(b: Seq<u8>, pos: int, labels: Seq<Seq<u8>>, jumps: int)
    requires
        0 <= pos,
        0 <= jumps <= 4,
        name_wf(labels),
        pos + name_bytes(labels).len() <= b.len(),
        b.subrange(pos, pos + name_bytes(labels).len()) == name_bytes(labels),
    ensures
        name_labels(b, pos, jumps) == Ok::<_, DnsError>(labels),
        name_end(b, pos) == Ok::<_, DnsError>(pos + name_bytes(labels).len()),
    decreases labels.len(),
{
    let nb = name_bytes(labels);
    assert forall|k: int| 0 <= k < nb.len() implies b[pos + k] == nb[k] by {
        assert(b.subrange(pos, pos + nb.len())[k] == b[pos + k]);
    }
    if labels.len() == 0 {
        assert(labels_bytes(labels) =~= Seq::<u8>::empty());
        assert(nb[0] == 0);
        assert(b[pos] == 0);
        assert(labels =~= Seq::<Seq<u8>>::empty());
    } else {
        let first = labels[0];
        let rest = labels.drop_first();
        let n0 = first.len() as int;
        assert(1 <= first.len() <= 63);
        assert(nb =~= seq![first.len() as u8] + first + name_bytes(rest));
        let tag = b[pos];
        assert(nb[0] == first.len() as u8);
        assert(b[pos + 0] == nb[0]);
        assert(tag == first.len() as u8);
        assert(tag == n0);
        assert(0 < tag && tag < 0xc0);
        let rb = name_bytes(rest);
        let pos2 = pos + 1 + n0;
        assert(nb.len() == 1 + n0 + rb.len());
        assert(b.subrange(pos + 1, pos + 1 + n0) =~= first) by {
            assert forall|i: int| 0 <= i < n0 implies b[pos + 1 + i] == first[i] by {
                assert(nb[1 + i] == first[i]);
            }
        }
        assert(b.subrange(pos2, pos2 + rb.len()) =~= rb) by {
            assert forall|i: int| 0 <= i < rb.len() implies b[pos2 + i] == rb[i] by {
                assert(nb[1 + n0 + i] == rb[i]);
            }
        }
        assert(name_wf(rest)) by {
            assert forall|i: int| 0 <= i < rest.len() implies 1 <= (#[trigger] rest[i]).len()
                <= 63 by {
                assert(rest[i] == labels[i + 1]);
            }
        }
        lemma_name_bytes_parse(b, pos2, rest, jumps);
        assert(seq![b.subrange(pos + 1, pos + 1 + n0)] + rest =~= labels);
    }
}

/// More hop budget never changes a successful decode: a name that parses
/// with some hops already spent parses to the same labels with fewer spent.
pub proof fn lemma_name_labels_budget(b: Seq<u8>, pos: int, j1: int, j2: int)
    requires
        0 <= j2 <= j1 <= 4,
        name_labels(b, pos, j1) is Ok,
    ensures
        name_labels(b, pos, j2) == name_labels(b, pos, j1),
    decreases 4 - j1, remaining(b, pos),
{
    let tag = b[pos];
    if tag == 0 {
    } else if tag >= 0xc0 {
        lemma_name_labels_budget(b, ptr_offset(b, pos), j1 + 1, j2 + 1);
    } else {
        lemma_name_labels_budget(b, pos + 1 + tag, j1, j2);
    }
}

/// A compression pointer is transparent: when the name at the pointer
/// decodes at all, it decodes to the same labels as the name at the
/// pointed-to offset, and the caller's cursor consumes exactly the two
/// pointer bytes.
pub proof fn lemma_pointer_same_labels(b: Seq<u8>, pos: int)
    requires
        0 <= pos,
        pos + 2 <= b.len(),
        b[pos] >= 0xc0,
        name_labels(b, pos, 0) is Ok,
    ensures
        name_labels(b, pos, 0) == name_labels(b, ptr_offset(b, pos), 0),
        name_end(b, pos) == Ok::<_, DnsError>(pos + 2),
{
    lemma_name_labels_budget(b, ptr_offset(b, pos), 1, 0);
}

/// A self-referential pointer cannot loop the decoder: it burns the whole
/// hop budget and fails with `TooManyIndirections`.
pub proof fn lemma_pointer_cycle(b: Seq<u8>, pos: int)
    requires
        0 <= pos < 512,
        pos + 2 <= b.len(),
        b[pos] >= 0xc0,
        ptr_offset(b, pos) == pos,
    ensures
        name_labels(b, pos, 0) == Err::<Seq<Seq<u8>>, _>(DnsError::TooManyIndirections),
{
    assert(name_labels(b, pos, 4) == Err::<Seq<Seq<u8>>, _>(DnsError::TooManyIndirections));
    assert(name_labels(b, pos, 3) == name_labels(b, pos, 4));
    assert(name_labels(b, pos, 2) == name_labels(b, pos, 3));
    assert(name_labels(b, pos, 1) == name_labels(b, pos, 2));
    assert(name_labels(b, pos, 0) == name_labels(b, pos, 1));
}

} // verus!
