use vstd::prelude::*;

use vstd::string::StringExecFns;
use vstd::string::StringSliceAdditionalSpecFns;
use vstd::utf8::*;

use crate::buffer::BytePacketBuffer;
use crate::buffer::MAX_BUFFER_SIZE;
use crate::buffer::lemma_splice_concat;
use crate::buffer::splice;
use crate::error::DnsError;

verus! {

/// The hop limit on compression-pointer chains.  A pointer targets one of
/// the buffer's positions, so a chain of more hops than the buffer has
/// positions must revisit one, and a revisited position loops forever.
pub const MAX_JUMPS: usize = 513;

// ---------------------------------------------------------------------
// What the label strings of a decoded name look like.
// ---------------------------------------------------------------------
/// What `String::from_utf8_lossy` returns on the given bytes.
pub uninterp spec fn lossy_chars(bytes: Seq<u8>) -> Seq<char>;

/// What `str::to_lowercase` returns on the given characters.
pub uninterp spec fn lower_chars(s: Seq<char>) -> Seq<char>;

/// An ASCII byte, with upper-case letters folded to lower case.
pub open spec fn ascii_lower_byte(b: u8) -> u8 {
    if 65 <= b && b <= 90 {
        (b + 32) as u8
    } else {
        b
    }
}

/// Every byte is ASCII.
pub open spec fn is_ascii_bytes(l: Seq<u8>) -> bool {
    forall|i: int| 0 <= i < l.len() ==> l[i] < 128
}

/// The characters, with ASCII upper-case letters folded to lower case.
pub open spec fn ascii_lower_chars(s: Seq<char>) -> Seq<char> {
    Seq::new(s.len(), |i: int| ascii_lower_char(s[i]))
}

/// A character, with ASCII upper-case letters folded to lower case.
pub open spec fn ascii_lower_char(c: char) -> char {
    if 65 <= c as u32 && c as u32 <= 90 {
        (((c as u32 + 32) as u8)) as char
    } else {
        c
    }
}

/// The bytes read as characters, one for one.
pub open spec fn bytes_as_chars(l: Seq<u8>) -> Seq<char> {
    Seq::new(l.len(), |i: int| l[i] as char)
}

/// The string a decoded label's raw bytes turn into: lossy UTF-8
/// decoding followed by lower-casing.  On ASCII bytes that is exactly a
/// per-byte case fold.
pub open spec fn label_view(l: Seq<u8>) -> Seq<char> {
    if is_ascii_bytes(l) {
        Seq::new(l.len(), |i: int| ascii_lower_byte(l[i]) as char)
    } else {
        lower_chars(lossy_chars(l))
    }
}

/// The dotted name built from decoded labels.
pub open spec fn name_view(ls: Seq<Seq<u8>>) -> Seq<char>
    decreases ls.len(),
{
    if ls.len() == 0 {
        Seq::empty()
    } else if ls.len() == 1 {
        label_view(ls[0])
    } else {
        label_view(ls[0]) + seq!['.'] + name_view(ls.drop_first())
    }
}

/// Relies on `String::from_utf8_lossy`: the result depends on the bytes
/// alone; valid UTF-8 decodes to exactly its characters, and malformed
/// sequences become replacement characters instead of errors.
#[verifier::external_body]
fn utf8_lossy(bytes: &[u8]) -> (r: String)
    ensures
        r@ == lossy_chars(bytes@),
        valid_utf8(bytes@) ==> r@ == decode_utf8(bytes@),
{
    String::from_utf8_lossy(bytes).into_owned()
}

/// Relies on `str::to_lowercase`: the result depends on the characters
/// alone, and on ASCII input it folds the letters `A` to `Z` to their
/// lower-case counterparts and leaves every other character unchanged.
#[verifier::external_body]
fn to_lower(s: &str) -> (r: String)
    ensures
        r@ == lower_chars(s@),
        is_ascii_chars(s@) ==> r@ == ascii_lower_chars(s@),
{
    s.to_lowercase()
}

/// ASCII bytes are valid UTF-8 and decode to themselves, one character
/// per byte.
proof fn lemma_ascii_bytes_decode(l: Seq<u8>)
    requires
        is_ascii_bytes(l),
    ensures
        valid_utf8(l),
        decode_utf8(l) == bytes_as_chars(l),
        is_ascii_chars(bytes_as_chars(l)),
{
    let chars = bytes_as_chars(l);
    assert forall|i: int| 0 <= i < chars.len() implies (chars[i] as u32) < 128 by {
        assert(chars[i] == l[i] as char);
    }
    assert(is_ascii_chars(chars));
    is_ascii_chars_encode_utf8(chars);
    assert(encode_utf8(chars) =~= l);
    encode_utf8_valid_utf8(chars);
    encode_utf8_decode_utf8(chars);
}

/// Turn one label's raw bytes into its string form.
fn label_string(bytes: &[u8]) -> (r: String)
    ensures
        r@ == label_view(bytes@),
{
    let s = utf8_lossy(bytes);
    let r = to_lower(s.as_str());
    proof {
        if is_ascii_bytes(bytes@) {
            lemma_ascii_bytes_decode(bytes@);
            assert(r@ =~= label_view(bytes@));
        }
    }
    r
}

// ---------------------------------------------------------------------
// The wire form of a name on the write side.
// ---------------------------------------------------------------------
/// The labels of a dotted name: the byte string split on every `.`,
/// with `cur` the partial label read so far.
pub open spec fn split_acc(s: Seq<u8>, cur: Seq<u8>) -> Seq<Seq<u8>>
    decreases s.len(),
{
    if s.len() == 0 {
        seq![cur]
    } else if s[0] == 46 {
        seq![cur] + split_acc(s.drop_first(), seq![])
    } else {
        split_acc(s.drop_first(), cur.push(s[0]))
    }
}

/// The labels of a dotted name's byte string.
pub open spec fn name_labels(s: Seq<u8>) -> Seq<Seq<u8>> {
    split_acc(s, seq![])
}

/// One label on the wire: a length byte, then the raw bytes.
pub open spec fn enc_label(l: Seq<u8>) -> Seq<u8> {
    seq![l.len() as u8] + l
}

/// A label list on the wire, without the terminator.
pub open spec fn enc_label_list(ls: Seq<Seq<u8>>) -> Seq<u8>
    decreases ls.len(),
{
    if ls.len() == 0 {
        Seq::empty()
    } else {
        enc_label(ls[0]) + enc_label_list(ls.drop_first())
    }
}

/// A whole name on the wire: its labels, then a zero terminator.  No
/// compression pointer is ever emitted on write.
pub open spec fn enc_name(bs: Seq<u8>) -> Seq<u8> {
    enc_label_list(name_labels(bs)) + seq![0u8]
}

/// Every label of the name fits the 63-byte limit of the wire format.
pub open spec fn labels_fit(bs: Seq<u8>) -> bool {
    forall|i: int| 0 <= i < name_labels(bs).len() ==> #[trigger] name_labels(bs)[i].len() <= 63
}

/// Encoding one more label appends its wire form.
proof fn lemma_enc_label_list_take(ls: Seq<Seq<u8>>, j: int)
    requires
        0 <= j < ls.len(),
    ensures
        enc_label_list(ls.take(j + 1)) == enc_label_list(ls.take(j)) + enc_label(ls[j]),
    decreases j,
{
    if j == 0 {
        assert(ls.take(1).drop_first() =~= Seq::<Seq<u8>>::empty());
        assert(ls.take(0) =~= Seq::<Seq<u8>>::empty());
        assert(enc_label_list(ls.take(1)) == enc_label(ls[0]) + enc_label_list(
            ls.take(1).drop_first(),
        ));
        assert(enc_label_list(ls.take(1)) =~= enc_label_list(ls.take(0)) + enc_label(ls[0]));
    } else {
        lemma_enc_label_list_take(ls.drop_first(), j - 1);
        assert(ls.take(j + 1).drop_first() =~= ls.drop_first().take(j));
        assert(ls.take(j).drop_first() =~= ls.drop_first().take(j - 1));
        assert(enc_label(ls[0]) + (enc_label_list(ls.drop_first().take(j - 1)) + enc_label(
            ls[j],
        )) =~= (enc_label(ls[0]) + enc_label_list(ls.drop_first().take(j - 1))) + enc_label(ls[j]));
    }
}

/// A prefix of the label list never encodes longer than the whole.
proof fn lemma_enc_label_list_mono(ls: Seq<Seq<u8>>, j: int)
    requires
        0 <= j <= ls.len(),
    ensures
        enc_label_list(ls.take(j)).len() <= enc_label_list(ls).len(),
    decreases ls.len() - j,
{
    if j == ls.len() {
        assert(ls.take(j) =~= ls);
    } else {
        lemma_enc_label_list_take(ls, j);
        lemma_enc_label_list_mono(ls, j + 1);
    }
}

// ---------------------------------------------------------------------
// The wire form of a name on the read side.
// ---------------------------------------------------------------------
/// How a name decode ends: its labels and the cursor's final resting
/// place, or the error that stopped it.
pub enum NameDec {
    Done { labels: Seq<Seq<u8>>, end: int },
    Fail(DnsError),
}

/// What is left of the buffer from `p` on, clamped at zero; a measure
/// for the decoder's forward walk between pointer hops.
pub open spec fn rem_to(buflen: int, p: int) -> int {
    if p <= buflen {
        buflen - p
    } else {
        0
    }
}

/// The name decoder, one step per label or pointer hop.
///
/// `p` is the scan position; `ext` is the externally visible end of the
/// name, fixed at two bytes past the first pointer; `fuel` bounds the
/// remaining pointer hops.  A length byte with both high bits set is a
/// 14-bit pointer; a zero length byte terminates the name.
pub open spec fn dec_name_rec(buf: Seq<u8>, p: int, ext: Option<int>, fuel: nat) -> NameDec
    decreases fuel, rem_to(buf.len() as int, p),
{
    if p < 0 || p >= buf.len() {
        NameDec::Fail(DnsError::BoundsError)
    } else {
        let len = buf[p];
        if (len & 0xC0) == 0xC0 {
            if p + 1 >= buf.len() {
                NameDec::Fail(DnsError::BoundsError)
            } else if fuel == 0 {
                NameDec::Fail(DnsError::PointerLoop)
            } else {
                let target = ((len ^ 0xC0) as int) * 256 + (buf[p + 1] as int);
                let next_ext = if ext is Some {
                    ext
                } else {
                    Some(p + 2)
                };
                dec_name_rec(buf, target, next_ext, (fuel - 1) as nat)
            }
        } else if len == 0 {
            NameDec::Done {
                labels: seq![],
                end: match ext {
                    Option::Some(e) => e,
                    Option::None => p + 1,
                },
            }
        } else if p + 1 + (len as int) > buf.len() {
            NameDec::Fail(DnsError::BoundsError)
        } else {
            match dec_name_rec(buf, p + 1 + (len as int), ext, fuel) {
                NameDec::Done { labels, end } => NameDec::Done {
                    labels: seq![buf.subrange(p + 1, p + 1 + (len as int))] + labels,
                    end,
                },
                f => f,
            }
        }
    }
}

/// The name starting at `start`, decoded with a full hop budget.
pub open spec fn dec_name(buf: Seq<u8>, start: int) -> NameDec {
    dec_name_rec(buf, start, Option::None, MAX_JUMPS as nat)
}

/// Labels already read go in front of whatever the rest decodes to.
pub open spec fn dec_prepend(pre: Seq<Seq<u8>>, d: NameDec) -> NameDec {
    match d {
        NameDec::Done { labels, end } => NameDec::Done { labels: pre + labels, end },
        NameDec::Fail(k) => NameDec::Fail(k),
    }
}

proof fn lemma_dec_prepend_empty(d: NameDec)
    ensures
        dec_prepend(seq![], d) == d,
{
    match d {
        NameDec::Done { labels, end } => {
            assert(seq![].add(labels) =~= labels);
        },
        NameDec::Fail(_) => {},
    }
}

proof fn lemma_dec_prepend_assoc(a: Seq<Seq<u8>>, b: Seq<Seq<u8>>, d: NameDec)
    ensures
        dec_prepend(a, dec_prepend(b, d)) == dec_prepend(a + b, d),
{
    match d {
        NameDec::Done { labels, end } => {
            assert(a + (b + labels) =~= (a + b) + labels);
        },
        NameDec::Fail(_) => {},
    }
}

/// Appending a label to a dotted name inserts one separator.
proof fn lemma_name_view_push(acc: Seq<Seq<u8>>, l: Seq<u8>)
    ensures
        name_view(acc.push(l)) == if acc.len() == 0 {
            label_view(l)
        } else {
            name_view(acc) + seq!['.'] + label_view(l)
        },
    decreases acc.len(),
{
    if acc.len() == 0 {
        assert(acc.push(l) =~= seq![l]);
    } else {
        lemma_name_view_push(acc.drop_first(), l);
        assert(acc.push(l).drop_first() =~= acc.drop_first().push(l));
        if acc.len() == 1 {
            assert(acc.drop_first() =~= Seq::<Seq<u8>>::empty());
            assert(name_view(acc.push(l)) =~= name_view(acc) + seq!['.'] + label_view(l));
        } else {
            assert(label_view(acc[0]) + seq!['.'] + (name_view(acc.drop_first()) + seq!['.']
                + label_view(l)) =~= (label_view(acc[0]) + seq!['.'] + name_view(acc.drop_first()))
                + seq!['.'] + label_view(l));
        }
    }
}

impl BytePacketBuffer {
    /// Decode a domain name at the cursor, following compression
    /// pointers.
    ///
    /// The cursor advances past the name's own bytes exactly once: on the
    /// first pointer it lands two bytes past that pointer and never moves
    /// again; without a pointer it lands just past the terminator.  On
    /// any failure the cursor stays put.
    pub fn read_qname(&mut self) -> (r: Result<String, DnsError>)
        requires
            old(self).wf(),
        ensures
            final(self).wf(),
            final(self).buf == old(self).buf,
            match dec_name(old(self).buf@, old(self).pos as int) {
                NameDec::Done { labels, end } => r is Ok && r.unwrap()@ == name_view(labels)
                    && final(self).pos == end,
                NameDec::Fail(k) => r == Err::<String, DnsError>(k) && final(self).pos == old(self).pos,
            },
    {
        let ghost buf0 = self.buf@;
        let ghost start = self.pos as int;
        let mut qname_pos: usize = self.pos;
        let mut ext: Option<usize> = Option::None;
        let mut jumps: usize = 0;
        let mut out = String::new();
        let mut first: bool = true;
        let ghost mut acc: Seq<Seq<u8>> = seq![];
        proof {
            lemma_dec_prepend_empty(dec_name(buf0, start));
        }
        loop
            invariant_except_break
                self.wf(),
                self.buf@ == buf0,
                self.pos as int == start,
                jumps <= MAX_JUMPS,
                out@ == name_view(acc),
                first <==> acc.len() == 0,
                dec_name(buf0, start) == dec_prepend(
                    acc,
                    dec_name_rec(
                        buf0,
                        qname_pos as int,
                        match ext {
                            Option::Some(e) => Option::Some(e as int),
                            Option::None => Option::None,
                        },
                        (MAX_JUMPS - jumps) as nat,
                    ),
                ),
            ensures
                self.wf(),
                self.buf@ == buf0,
                self.pos as int == start,
                out@ == name_view(acc),
                dec_name(buf0, start) == (NameDec::Done {
                    labels: acc,
                    end: match ext {
                        Option::Some(e) => e as int,
                        Option::None => qname_pos as int,
                    },
                }),
            decreases (MAX_JUMPS - jumps), rem_to(MAX_BUFFER_SIZE as int, qname_pos as int),
        {
            let ghost ext_view: Option<int> = (match ext {
                Option::Some(e) => Option::Some(e as int),
                Option::None => Option::None,
            });
            let ghost fuel = (MAX_JUMPS - jumps) as nat;
            let len = match self.get(qname_pos) {
                Ok(v) => v,
                Err(e) => {
                    return Err(e);
                },
            };
            if (len & 0xC0) == 0xC0 {
                let second = match self.get(qname_pos + 1) {
                    Ok(v) => v,
                    Err(e) => {
                        return Err(e);
                    },
                };
                if jumps >= MAX_JUMPS {
                    return Err(DnsError::PointerLoop);
                }
                ext = match ext {
                    Option::Some(e) => Option::Some(e),
                    Option::None => Option::Some(qname_pos + 2),
                };
                jumps = jumps + 1;
                let lx: usize = (len ^ 0xC0) as usize;
                let sx: usize = second as usize;
                let target: usize = (lx << 8) | sx;
                proof {
                    assert((((len ^ 0xC0) as usize) << 8) | (second as usize) == ((len
                        ^ 0xC0) as usize) * 256 + (second as usize)) by (bit_vector);
                }
                qname_pos = target;
            } else {
                qname_pos = qname_pos + 1;
                if len == 0 {
                    proof {
                        let done = dec_name_rec(buf0, qname_pos as int - 1, ext_view, fuel);
                        assert(acc + seq![] =~= acc);
                        assert(dec_prepend(acc, done) == (NameDec::Done {
                            labels: acc,
                            end: match ext_view {
                                Option::Some(e) => e,
                                Option::None => qname_pos as int,
                            },
                        }));
                    }
                    break ;
                }
                let slice = match self.get_range(qname_pos, len as usize) {
                    Ok(s) => s,
                    Err(e) => {
                        return Err(e);
                    },
                };
                let label = label_string(slice);
                if first {
                    first = false;
                } else {
                    out.append(".");
                }
                out.append(label.as_str());
                proof {
                    reveal_strlit(".");
                    let l = buf0.subrange(qname_pos as int, qname_pos + len as int);
                    lemma_name_view_push(acc, l);
                    if acc.len() > 0 {
                        assert(name_view(acc) + "."@ + label@ =~= name_view(acc.push(l)));
                    }
                    let after = dec_name_rec(buf0, qname_pos + len as int, ext_view, fuel);
                    assert(dec_name_rec(buf0, qname_pos as int - 1, ext_view, fuel) == dec_prepend(
                        seq![l],
                        after,
                    ));
                    lemma_dec_prepend_assoc(acc, seq![l], after);
                    assert(acc + seq![l] =~= acc.push(l));
                    acc = acc.push(l);
                }
                qname_pos = qname_pos + len as usize;
            }
        }
        // the zero length byte ended the name
        match ext {
            Option::Some(e) => {
                self.pos = e;
            },
            Option::None => {
                self.pos = qname_pos;
            },
        }
        Ok(out)
    }
}

impl BytePacketBuffer {
    /// Encode a domain name at the cursor: each label as a length byte
    /// and its raw bytes, closed by a single zero byte, with no
    /// compression pointers.  A label longer than 63 bytes is rejected
    /// before anything is written, and a name that does not fit the
    /// buffer is rejected whole: on any failure the buffer is unchanged.
    pub fn write_qname(&mut self, qname: &str) -> (r: Result<(), DnsError>)
        requires
            old(self).wf(),
        ensures
            final(self).wf(),
            !labels_fit(qname.spec_bytes()) ==> r == Err::<(), DnsError>(DnsError::LabelTooLong)
                && *final(self) == *old(self),
            labels_fit(qname.spec_bytes()) && old(self).pos + enc_name(qname.spec_bytes()).len()
                <= MAX_BUFFER_SIZE ==> r == Ok::<(), DnsError>(()) && final(self).buf@ == splice(
                old(self).buf@,
                old(self).pos as int,
                enc_name(qname.spec_bytes()),
            ) && final(self).pos == old(self).pos + enc_name(qname.spec_bytes()).len(),
            labels_fit(qname.spec_bytes()) && old(self).pos + enc_name(qname.spec_bytes()).len()
                > MAX_BUFFER_SIZE ==> r == Err::<(), DnsError>(DnsError::BoundsError) && *final(self) == *old(self),
    {
        let ghost bs = qname.spec_bytes();
        let bytes: &[u8] = qname.as_bytes();
        let mut labels: Vec<Vec<u8>> = Vec::new();
        let mut cur: Vec<u8> = Vec::new();
        let mut i: usize = 0;
        proof {
            assert(bs.skip(0) =~= bs);
            assert(labels.deep_view() + split_acc(bs, cur@) =~= split_acc(bs, cur@));
        }
        while i < bytes.len()
            invariant
                i <= bytes@.len(),
                bytes@ == bs,
                cur.deep_view() == cur@,
                name_labels(bs) == labels.deep_view() + split_acc(bs.skip(i as int), cur@),
            decreases bytes@.len() - i,
        {
            let b = bytes[i];
            proof {
                assert(bs.skip(i as int).drop_first() =~= bs.skip(i as int + 1));
                assert(bs.skip(i as int)[0] == bs[i as int]);
            }
            if b == 46 {
                let ghost old_labels = labels.deep_view();
                let ghost old_cur = cur@;
                labels.push(cur);
                cur = Vec::new();
                proof {
                    assert(labels.deep_view() =~= old_labels.push(old_cur));
                    assert(old_labels + (seq![old_cur] + split_acc(bs.skip(i as int + 1), cur@))
                        =~= old_labels.push(old_cur) + split_acc(bs.skip(i as int + 1), cur@));
                }
            } else {
                cur.push(b);
                proof {
                    assert(cur.deep_view() =~= cur@);
                }
            }
            i = i + 1;
        }
        let ghost old_labels = labels.deep_view();
        let ghost old_cur = cur@;
        labels.push(cur);
        proof {
            assert(bs.skip(bs.len() as int) =~= Seq::<u8>::empty());
            assert(labels.deep_view() =~= old_labels.push(old_cur));
            assert(old_labels + seq![old_cur] =~= old_labels.push(old_cur));
            assert(name_labels(bs) == labels.deep_view());
        }
        let ghost dv = labels.deep_view();
        // reject any label over the 63-byte wire limit before writing
        let mut j: usize = 0;
        while j < labels.len()
            invariant
                j <= labels@.len(),
                bs == qname.spec_bytes(),
                labels.deep_view() == dv,
                dv == name_labels(bs),
                self.wf(),
                self.buf == old(self).buf,
                self.pos == old(self).pos,
                forall|k: int| 0 <= k < j ==> #[trigger] dv[k].len() <= 63,
            decreases labels@.len() - j,
        {
            proof {
                assert(dv[j as int] == labels@[j as int].deep_view());
                assert(labels@[j as int].deep_view() =~= labels@[j as int]@);
            }
            if labels[j].len() > 63 {
                proof {
                    assert(name_labels(bs)[j as int].len() > 63);
                    assert(!labels_fit(bs));
                }
                return Err(DnsError::LabelTooLong);
            }
            j = j + 1;
        }
        assert(labels_fit(bs));
        // the whole name must fit; measure it before writing anything
        let mut total: usize = 1;
        let mut t: usize = 0;
        proof {
            assert(dv.take(0) =~= Seq::<Seq<u8>>::empty());
        }
        while t < labels.len()
            invariant
                t <= labels@.len(),
                bs == qname.spec_bytes(),
                labels.deep_view() == dv,
                dv == name_labels(bs),
                labels_fit(bs),
                total == 1 + enc_label_list(dv.take(t as int)).len(),
                total <= MAX_BUFFER_SIZE,
                self.wf(),
                self.buf == old(self).buf,
                self.pos == old(self).pos,
            decreases labels@.len() - t,
        {
            proof {
                lemma_enc_label_list_take(dv, t as int);
                assert(dv[t as int] =~= labels@[t as int]@);
            }
            total = total + 1 + labels[t].len();
            t = t + 1;
            if total > MAX_BUFFER_SIZE {
                proof {
                    lemma_enc_label_list_mono(dv, t as int);
                }
                return Err(DnsError::BoundsError);
            }
        }
        proof {
            assert(dv.take(labels@.len() as int) =~= dv);
            assert(total == enc_name(bs).len());
        }
        if self.pos > MAX_BUFFER_SIZE - total {
            return Err(DnsError::BoundsError);
        }
        // everything checked: write the labels and the terminator
        let ghost buf0 = self.buf@;
        let ghost startpos = self.pos as int;
        let mut k: usize = 0;
        proof {
            assert(dv.take(0) =~= Seq::<Seq<u8>>::empty());
            assert(splice(buf0, startpos, Seq::<u8>::empty()) =~= buf0);
        }
        while k < labels.len()
            invariant
                k <= labels@.len(),
                bs == qname.spec_bytes(),
                labels.deep_view() == dv,
                dv == name_labels(bs),
                labels_fit(bs),
                self.wf(),
                startpos + enc_label_list(dv).len() + 1 <= MAX_BUFFER_SIZE,
                self.pos as int == startpos + enc_label_list(dv.take(k as int)).len(),
                self.buf@ == splice(buf0, startpos, enc_label_list(dv.take(k as int))),
            decreases labels@.len() - k,
        {
            proof {
                lemma_enc_label_list_take(dv, k as int);
                lemma_enc_label_list_mono(dv, k as int + 1);
                assert(dv[k as int] =~= labels@[k as int]@);
            }
            let label = &labels[k];
            let ghost ek = enc_label_list(dv.take(k as int));
            self.write(label.len() as u8)?;
            proof {
                lemma_splice_concat(buf0, startpos, ek, seq![label@.len() as u8]);
            }
            self.write_all(label.as_slice())?;
            proof {
                lemma_splice_concat(buf0, startpos, ek + seq![label@.len() as u8], label@);
                assert((ek + seq![label@.len() as u8]) + label@ =~= ek + enc_label(dv[k as int]));
                assert(self.buf@ == splice(buf0, startpos, enc_label_list(dv.take(k as int + 1))));
            }
            k = k + 1;
        }
        proof {
            assert(dv.take(labels@.len() as int) =~= dv);
        }
        self.write(0)?;
        proof {
            lemma_splice_concat(buf0, startpos, enc_label_list(dv), seq![0u8]);
            assert(self.buf@ == splice(buf0, startpos, enc_name(bs)));
        }
        Ok(())
    }
}

} // verus!
