use vstd::prelude::*;

use vstd::utf8::*;

use crate::buffer::MAX_BUFFER_SIZE;
use crate::buffer::be16;
use crate::buffer::be32;
use crate::buffer::combine16;
use crate::buffer::combine32;
use crate::buffer::lemma_combine16_be16;
use crate::buffer::lemma_combine32_be32;
use crate::buffer::splice;
use crate::error::DnsError;
use crate::name::NameDec;
use crate::name::bytes_as_chars;
use crate::name::dec_name;
use crate::name::dec_name_rec;
use crate::name::enc_label;
use crate::name::enc_label_list;
use crate::name::enc_name;
use crate::name::label_view;
use crate::name::name_labels;
use crate::name::name_view;
use crate::name::split_acc;
use crate::name::MAX_JUMPS;
use crate::packet::PacketDec;
use crate::packet::PacketV;
use crate::packet::QuestionsDec;
use crate::packet::RecordsDec;
use crate::packet::dec_packet;
use crate::packet::dec_questions;
use crate::packet::dec_records;
use crate::packet::enc_packet;
use crate::packet::enc_questions;
use crate::packet::enc_records;
use crate::record::RecordDec;
use crate::record::RecordV;
use crate::record::dec_record;
use crate::record::enc_record;
use crate::header::dec_header_at;
use crate::header::dec_header_ok;

verus! {

// ---------------------------------------------------------------------
// What a message must look like for encoding to be reversible.
// ---------------------------------------------------------------------
/// A name that survives the wire unchanged: ASCII with no upper-case
/// letters—decoding folds case, so mixed case cannot come back—and every
/// label of one to 63 bytes, since an empty label would end the name
/// early and a longer one cannot be written at all.
pub open spec fn valid_name(n: Seq<char>) -> bool {
    &&& is_ascii_chars(n)
    &&& forall|i: int| 0 <= i < n.len() ==> !(65 <= (#[trigger] n[i]) as u32 <= 90)
    &&& forall|i: int|
        0 <= i < name_labels(encode_utf8(n)).len() ==> 1 <= (#[trigger] name_labels(
            encode_utf8(n),
        )[i]).len() <= 63
}

// ---------------------------------------------------------------------
// Splitting a name into labels and joining them back.
// ---------------------------------------------------------------------
/// Labels joined with dots, at the byte level.
pub open spec fn joinb(ls: Seq<Seq<u8>>) -> Seq<u8>
    decreases ls.len(),
{
    if ls.len() == 0 {
        Seq::empty()
    } else if ls.len() == 1 {
        ls[0]
    } else {
        ls[0] + seq![46u8] + joinb(ls.drop_first())
    }
}

/// Splitting always yields at least one label.
proof fn lemma_split_acc_min(s: Seq<u8>, cur: Seq<u8>)
    ensures
        split_acc(s, cur).len() >= 1,
    decreases s.len(),
{
    if s.len() != 0 {
        if s[0] == 46 {
            lemma_split_acc_min(s.drop_first(), seq![]);
        } else {
            lemma_split_acc_min(s.drop_first(), cur.push(s[0]));
        }
    }
}

/// Joining what splitting produced gives the partial label back, then
/// the rest of the bytes.
proof fn lemma_join_split(s: Seq<u8>, cur: Seq<u8>)
    ensures
        joinb(split_acc(s, cur)) == cur + s,
    decreases s.len(),
{
    if s.len() == 0 {
        assert(joinb(split_acc(s, cur)) =~= cur + s);
    } else if s[0] == 46 {
        lemma_join_split(s.drop_first(), seq![]);
        lemma_split_acc_min(s.drop_first(), seq![]);
        let rest = split_acc(s.drop_first(), seq![]);
        assert((seq![cur] + rest).drop_first() =~= rest);
        assert(joinb(seq![cur] + rest) == cur + seq![46u8] + joinb(rest));
        assert(seq![].add(s.drop_first()) =~= s.drop_first());
        assert(cur + seq![46u8] + s.drop_first() =~= cur + s);
    } else {
        lemma_join_split(s.drop_first(), cur.push(s[0]));
        assert(cur.push(s[0]) + s.drop_first() =~= cur + s);
    }
}

/// Every byte of every label satisfies whatever every byte of the input
/// satisfied; in particular labels hold no separator.
proof fn lemma_split_bytes(s: Seq<u8>, cur: Seq<u8>)
    requires
        forall|i: int| 0 <= i < s.len() ==> s[i] < 128 && !(65 <= s[i] <= 90),
        forall|i: int| 0 <= i < cur.len() ==> cur[i] < 128 && !(65 <= cur[i] <= 90),
    ensures
        forall|i: int, j: int|
            0 <= i < split_acc(s, cur).len() && 0 <= j < split_acc(s, cur)[i].len() ==> (
            #[trigger] split_acc(s, cur)[i][j]) < 128 && !(65 <= split_acc(s, cur)[i][j] <= 90),
    decreases s.len(),
{
    if s.len() == 0 {
        assert forall|i: int, j: int|
            0 <= i < split_acc(s, cur).len() && 0 <= j < split_acc(s, cur)[i].len() implies (
        #[trigger] split_acc(s, cur)[i][j]) < 128 && !(65 <= split_acc(s, cur)[i][j] <= 90) by {
            assert(split_acc(s, cur)[i] == cur);
        }
    } else if s[0] == 46 {
        lemma_split_bytes(s.drop_first(), seq![]);
        let rest = split_acc(s.drop_first(), seq![]);
        assert forall|i: int, j: int|
            0 <= i < split_acc(s, cur).len() && 0 <= j < split_acc(s, cur)[i].len() implies (
        #[trigger] split_acc(s, cur)[i][j]) < 128 && !(65 <= split_acc(s, cur)[i][j] <= 90) by {
            if i == 0 {
                assert(split_acc(s, cur)[i] == cur);
            } else {
                assert(split_acc(s, cur)[i] == rest[i - 1]);
            }
        }
    } else {
        assert forall|i: int| 0 <= i < cur.push(s[0]).len() implies cur.push(s[0])[i] < 128 && !(65
            <= cur.push(s[0])[i] <= 90) by {}
        lemma_split_bytes(s.drop_first(), cur.push(s[0]));
        let whole = split_acc(s, cur);
        let tail = split_acc(s.drop_first(), cur.push(s[0]));
        assert forall|i: int, j: int|
            0 <= i < whole.len() && 0 <= j < whole[i].len() implies (#[trigger] whole[i][j]) < 128
            && !(65 <= whole[i][j] <= 90) by {
            assert(whole[i] == tail[i]);
            assert(tail[i][j] < 128 && !(65 <= tail[i][j] <= 90));
        }
    }
}

/// For ASCII lower-case labels, the decoded string of the joined labels
/// is the labels' own characters, dots between them.
proof fn lemma_name_view_join(ls: Seq<Seq<u8>>)
    requires
        forall|i: int, j: int|
            0 <= i < ls.len() && 0 <= j < ls[i].len() ==> (#[trigger] ls[i][j]) < 128 && !(65
                <= ls[i][j] <= 90),
    ensures
        name_view(ls) == bytes_as_chars(joinb(ls)),
    decreases ls.len(),
{
    if ls.len() == 0 {
        assert(name_view(ls) =~= bytes_as_chars(joinb(ls)));
    } else if ls.len() == 1 {
        assert(crate::name::is_ascii_bytes(ls[0]));
        assert(label_view(ls[0]) =~= bytes_as_chars(ls[0]));
    } else {
        assert forall|i: int, j: int|
            0 <= i < ls.drop_first().len() && 0 <= j < ls.drop_first()[i].len() implies (
        #[trigger] ls.drop_first()[i][j]) < 128 && !(65 <= ls.drop_first()[i][j] <= 90) by {
            assert(ls.drop_first()[i] == ls[i + 1]);
        }
        lemma_name_view_join(ls.drop_first());
        assert(crate::name::is_ascii_bytes(ls[0]));
        assert(label_view(ls[0]) =~= bytes_as_chars(ls[0]));
        assert('.' as u32 == 46);
        assert(label_view(ls[0]) + seq!['.'] + bytes_as_chars(joinb(ls.drop_first()))
            =~= bytes_as_chars(ls[0] + seq![46u8] + joinb(ls.drop_first())));
    }
}

/// A valid name comes back from its own labels unchanged.
proof fn lemma_name_view_roundtrip(n: Seq<char>)
    requires
        valid_name(n),
    ensures
        name_view(name_labels(encode_utf8(n))) == n,
{
    let bs = encode_utf8(n);
    is_ascii_chars_encode_utf8(n);
    assert(bs =~= Seq::new(n.len(), |i: int| n[i] as u8));
    assert forall|i: int| 0 <= i < bs.len() implies bs[i] < 128 && !(65 <= bs[i] <= 90) by {
        assert(bs[i] == n[i] as u8);
    }
    lemma_split_bytes(bs, seq![]);
    lemma_name_view_join(name_labels(bs));
    lemma_join_split(bs, seq![]);
    assert(seq![].add(bs) =~= bs);
    assert(bytes_as_chars(bs) =~= n);
}

// ---------------------------------------------------------------------
// The decoder undoes the encoder, region by region.
// ---------------------------------------------------------------------
/// A region holding two runs in a row holds each of them.
proof fn lemma_region_split(buf: Seq<u8>, pos: int, d1: Seq<u8>, d2: Seq<u8>)
    requires
        0 <= pos,
        pos + d1.len() + d2.len() <= buf.len(),
        buf.subrange(pos, pos + d1.len() + d2.len()) == d1 + d2,
    ensures
        buf.subrange(pos, pos + d1.len()) == d1,
        buf.subrange(pos + d1.len(), pos + d1.len() + d2.len()) == d2,
{
    assert forall|k: int| 0 <= k < d1.len() implies buf.subrange(pos, pos + d1.len())[k]
        == d1[k] by {
        assert(buf.subrange(pos, pos + d1.len() + d2.len())[k] == (d1 + d2)[k]);
        assert(buf.subrange(pos, pos + d1.len() + d2.len())[k] == buf[pos + k]);
        assert(buf.subrange(pos, pos + d1.len())[k] == buf[pos + k]);
        assert((d1 + d2)[k] == d1[k]);
    }
    assert(buf.subrange(pos, pos + d1.len()) =~= d1);
    assert forall|k: int| 0 <= k < d2.len() implies buf.subrange(
        pos + d1.len(),
        pos + d1.len() + d2.len(),
    )[k] == d2[k] by {
        assert(buf.subrange(pos, pos + d1.len() + d2.len())[d1.len() + k] == (d1 + d2)[d1.len()
            + k]);
        assert(buf.subrange(pos, pos + d1.len() + d2.len())[d1.len() + k] == buf[pos + d1.len()
            + k]);
        assert(buf.subrange(pos + d1.len(), pos + d1.len() + d2.len())[k] == buf[pos + d1.len()
            + k]);
        assert((d1 + d2)[d1.len() + k] == d2[k]);
    }
    assert(buf.subrange(pos + d1.len(), pos + d1.len() + d2.len()) =~= d2);
}

/// A byte of a held region is the region's own byte.
proof fn lemma_region_index(buf: Seq<u8>, pos: int, data: Seq<u8>, k: int)
    requires
        0 <= pos,
        pos + data.len() <= buf.len(),
        buf.subrange(pos, pos + data.len()) == data,
        0 <= k < data.len(),
    ensures
        buf[pos + k] == data[k],
{
    assert(buf.subrange(pos, pos + data.len())[k] == buf[pos + k]);
}

/// A label list written without pointers decodes to exactly those
/// labels, whatever the hop budget and whatever end the first pointer
/// would have fixed.
proof fn lemma_dec_enc_labels(buf: Seq<u8>, pos: int, ls: Seq<Seq<u8>>, ext: Option<int>, fuel: nat)
    requires
        forall|i: int| 0 <= i < ls.len() ==> 1 <= (#[trigger] ls[i]).len() <= 63,
        0 <= pos,
        pos + enc_label_list(ls).len() + 1 <= buf.len(),
        buf.subrange(pos, pos + enc_label_list(ls).len() + 1) == enc_label_list(ls) + seq![0u8],
    ensures
        dec_name_rec(buf, pos, ext, fuel) == (NameDec::Done {
            labels: ls,
            end: match ext {
                Option::Some(e) => e,
                Option::None => pos + enc_label_list(ls).len() + 1,
            },
        }),
    decreases ls.len(),
{
    if ls.len() == 0 {
        lemma_region_index(buf, pos, enc_label_list(ls) + seq![0u8], 0);
        assert(buf[pos] == 0);
        assert((0u8 & 0xC0) != 0xC0) by (bit_vector);
        assert(dec_name_rec(buf, pos, ext, fuel) == (NameDec::Done {
            labels: seq![],
            end: match ext {
                Option::Some(e) => e,
                Option::None => pos + 1,
            },
        }));
        assert(Seq::<Seq<u8>>::empty() =~= ls);
    } else {
        let l0 = ls[0];
        let rest = ls.drop_first();
        let lb: u8 = l0.len() as u8;
        assert(enc_label_list(ls) == enc_label(l0) + enc_label_list(rest));
        assert(enc_label_list(ls) + seq![0u8] =~= enc_label(l0) + (enc_label_list(rest)
            + seq![0u8]));
        lemma_region_split(buf, pos, enc_label(l0), enc_label_list(rest) + seq![0u8]);
        lemma_region_index(buf, pos, enc_label(l0), 0);
        assert(buf[pos] == lb);
        assert(lb <= 63 ==> ((lb & 0xC0) != 0xC0)) by (bit_vector);
        assert(lb != 0);
        assert forall|k: int| 0 <= k < l0.len() implies buf[pos + 1 + k] == l0[k] by {
            lemma_region_index(buf, pos, enc_label(l0), 1 + k);
        }
        assert(buf.subrange(pos + 1, pos + 1 + lb as int) =~= l0);
        assert forall|i: int| 0 <= i < rest.len() implies 1 <= (#[trigger] rest[i]).len()
            <= 63 by {
            assert(rest[i] == ls[i + 1]);
        }
        lemma_dec_enc_labels(buf, pos + 1 + l0.len() as int, rest, ext, fuel);
        assert(seq![l0] + rest =~= ls);
    }
}

/// A name written without pointers decodes to its own labels, and the
/// cursor lands just past the terminator.
proof fn lemma_dec_enc_name(buf: Seq<u8>, pos: int, n: Seq<char>)
    requires
        valid_name(n),
        0 <= pos,
        pos + enc_name(encode_utf8(n)).len() <= buf.len(),
        buf.subrange(pos, pos + enc_name(encode_utf8(n)).len()) == enc_name(encode_utf8(n)),
    ensures
        dec_name(buf, pos) == (NameDec::Done {
            labels: name_labels(encode_utf8(n)),
            end: pos + enc_name(encode_utf8(n)).len(),
        }),
{
    let bs = encode_utf8(n);
    assert(enc_name(bs) == enc_label_list(name_labels(bs)) + seq![0u8]);
    lemma_dec_enc_labels(buf, pos, name_labels(bs), Option::None, MAX_JUMPS as nat);
}

/// A question fit for the wire: a reversible name and a type that is
/// what its own code decodes to.
pub open spec fn valid_question(q: crate::question::QuestionV) -> bool {
    &&& valid_name(q.name)
    &&& q.qtype.is_canonical()
}

/// A written question decodes back to itself.
proof fn lemma_dec_enc_question(buf: Seq<u8>, pos: int, q: crate::question::QuestionV)
    requires
        valid_question(q),
        0 <= pos,
        pos + crate::question::enc_question(q).len() <= buf.len(),
        buf.subrange(pos, pos + crate::question::enc_question(q).len())
            == crate::question::enc_question(q),
    ensures
        crate::question::dec_question(buf, pos) == (crate::question::QuestionDec::Done {
            q,
            end: pos + crate::question::enc_question(q).len(),
        }),
{
    let bs = encode_utf8(q.name);
    let nd = enc_name(bs);
    let tail = be16(q.qtype.spec_num()) + be16(1u16);
    assert(crate::question::enc_question(q) =~= nd + tail);
    lemma_region_split(buf, pos, nd, tail);
    lemma_dec_enc_name(buf, pos, q.name);
    lemma_name_view_roundtrip(q.name);
    let e = pos + nd.len() as int;
    lemma_region_index(buf, e, tail, 0);
    lemma_region_index(buf, e, tail, 1);
    lemma_combine16_be16(q.qtype.spec_num());
    assert(combine16(buf[e], buf[e + 1]) == q.qtype.spec_num());
}

/// A record fit for the wire: reversible names, and for AAAA exactly
/// eight groups.  `Unknown` records cannot be encoded at all, so none is
/// fit.
pub open spec fn valid_record(r: RecordV) -> bool {
    match r {
        RecordV::Unknown { .. } => false,
        RecordV::A { domain, .. } => valid_name(domain),
        RecordV::NS { domain, host, .. } => valid_name(domain) && valid_name(host),
        RecordV::CNAME { domain, host, .. } => valid_name(domain) && valid_name(host),
        RecordV::MX { domain, host, .. } => valid_name(domain) && valid_name(host),
        RecordV::AAAA { domain, addr, .. } => valid_name(domain) && addr.len() == 8,
    }
}

/// The ten fixed bytes after a record's name decode to their own fields,
/// and the payload region follows.
proof fn lemma_dec_fixed(buf: Seq<u8>, e: int, code: u16, ttl: u32, dl: u16, tail: Seq<u8>)
    requires
        0 <= e,
        e + 10 + tail.len() <= buf.len(),
        buf.subrange(e, e + 10 + tail.len()) == be16(code) + be16(1u16) + be32(ttl) + be16(dl)
            + tail,
    ensures
        combine16(buf[e], buf[e + 1]) == code,
        combine32(buf[e + 4], buf[e + 5], buf[e + 6], buf[e + 7]) == ttl,
        combine16(buf[e + 8], buf[e + 9]) == dl,
        buf.subrange(e + 10, e + 10 + tail.len()) == tail,
{
    let fixed = be16(code) + be16(1u16) + be32(ttl) + be16(dl);
    assert(fixed =~= seq![
        be16(code)[0],
        be16(code)[1],
        be16(1u16)[0],
        be16(1u16)[1],
        be32(ttl)[0],
        be32(ttl)[1],
        be32(ttl)[2],
        be32(ttl)[3],
        be16(dl)[0],
        be16(dl)[1],
    ]);
    assert(buf.subrange(e, e + 10 + tail.len()) =~= fixed + tail);
    lemma_region_split(buf, e, fixed, tail);
    lemma_region_index(buf, e, fixed, 0);
    lemma_region_index(buf, e, fixed, 1);
    lemma_region_index(buf, e, fixed, 4);
    lemma_region_index(buf, e, fixed, 5);
    lemma_region_index(buf, e, fixed, 6);
    lemma_region_index(buf, e, fixed, 7);
    lemma_region_index(buf, e, fixed, 8);
    lemma_region_index(buf, e, fixed, 9);
    lemma_combine16_be16(code);
    lemma_combine32_be32(ttl);
    lemma_combine16_be16(dl);
}

/// A written A record decodes back to itself.
proof fn lemma_dec_enc_record_a(buf: Seq<u8>, pos: int, domain: Seq<char>, addr: u32, ttl: u32)
    requires
        valid_name(domain),
        0 <= pos,
        pos + enc_record(RecordV::A { domain, addr, ttl }).len() <= buf.len(),
        buf.subrange(pos, pos + enc_record(RecordV::A { domain, addr, ttl }).len()) == enc_record(
            RecordV::A { domain, addr, ttl },
        ),
    ensures
        dec_record(buf, pos) == (RecordDec::Done {
            rec: RecordV::A { domain, addr, ttl },
            end: pos + enc_record(RecordV::A { domain, addr, ttl }).len(),
        }),
{
    let r = RecordV::A { domain, addr, ttl };
    let nd = enc_name(encode_utf8(domain));
    let tail = be32(addr);
    let rest = be16(1u16) + be16(1u16) + be32(ttl) + be16(4u16) + tail;
    assert(enc_record(r) =~= nd + rest);
    lemma_region_split(buf, pos, nd, rest);
    lemma_dec_enc_name(buf, pos, domain);
    lemma_name_view_roundtrip(domain);
    let e = pos + nd.len() as int;
    lemma_dec_fixed(buf, e, 1u16, ttl, 4u16, tail);
    let p = e + 10;
    lemma_region_index(buf, p, tail, 0);
    lemma_region_index(buf, p, tail, 1);
    lemma_region_index(buf, p, tail, 2);
    lemma_region_index(buf, p, tail, 3);
    lemma_combine32_be32(addr);
}

/// A written NS or CNAME record decodes back to itself; the two share
/// one wire shape, told apart by the type code.
proof fn lemma_dec_enc_record_host(
    buf: Seq<u8>,
    pos: int,
    r: RecordV,
    domain: Seq<char>,
    host: Seq<char>,
    ttl: u32,
    code: u16,
)
    requires
        valid_name(domain),
        valid_name(host),
        (code == 2 && r == (RecordV::NS { domain, host, ttl })) || (code == 5 && r
            == (RecordV::CNAME { domain, host, ttl })),
        0 <= pos,
        pos + enc_record(r).len() <= buf.len(),
        buf.subrange(pos, pos + enc_record(r).len()) == enc_record(r),
    ensures
        dec_record(buf, pos) == (RecordDec::Done { rec: r, end: pos + enc_record(r).len() }),
{
    let nd = enc_name(encode_utf8(domain));
    let nh = enc_name(encode_utf8(host));
    let rest = be16(code) + be16(1u16) + be32(ttl) + be16(nh.len() as u16) + nh;
    assert(enc_record(r) =~= nd + rest);
    lemma_region_split(buf, pos, nd, rest);
    lemma_dec_enc_name(buf, pos, domain);
    lemma_name_view_roundtrip(domain);
    let e = pos + nd.len() as int;
    lemma_dec_fixed(buf, e, code, ttl, nh.len() as u16, nh);
    lemma_dec_enc_name(buf, e + 10, host);
    lemma_name_view_roundtrip(host);
}

/// A written MX record decodes back to itself.
proof fn lemma_dec_enc_record_mx(
    buf: Seq<u8>,
    pos: int,
    domain: Seq<char>,
    priority: u16,
    host: Seq<char>,
    ttl: u32,
)
    requires
        valid_name(domain),
        valid_name(host),
        0 <= pos,
        pos + enc_record(RecordV::MX { domain, priority, host, ttl }).len() <= buf.len(),
        buf.subrange(pos, pos + enc_record(RecordV::MX { domain, priority, host, ttl }).len())
            == enc_record(RecordV::MX { domain, priority, host, ttl }),
    ensures
        dec_record(buf, pos) == (RecordDec::Done {
            rec: RecordV::MX { domain, priority, host, ttl },
            end: pos + enc_record(RecordV::MX { domain, priority, host, ttl }).len(),
        }),
{
    let r = RecordV::MX { domain, priority, host, ttl };
    let nd = enc_name(encode_utf8(domain));
    let nh = enc_name(encode_utf8(host));
    let tail = be16(priority) + nh;
    let rest = be16(15u16) + be16(1u16) + be32(ttl) + be16((nh.len() + 2) as u16) + tail;
    assert(enc_record(r) =~= nd + rest);
    lemma_region_split(buf, pos, nd, rest);
    lemma_dec_enc_name(buf, pos, domain);
    lemma_name_view_roundtrip(domain);
    let e = pos + nd.len() as int;
    lemma_dec_fixed(buf, e, 15u16, ttl, (nh.len() + 2) as u16, tail);
    let p = e + 10;
    lemma_region_split(buf, p, be16(priority), nh);
    lemma_region_index(buf, p, be16(priority), 0);
    lemma_region_index(buf, p, be16(priority), 1);
    lemma_combine16_be16(priority);
    lemma_dec_enc_name(buf, p + 2, host);
    lemma_name_view_roundtrip(host);
}

/// A written AAAA record decodes back to itself.
#[verifier::rlimit(60)]
proof fn lemma_dec_enc_record_aaaa(
    buf: Seq<u8>,
    pos: int,
    domain: Seq<char>,
    addr: Seq<u16>,
    ttl: u32,
)
    requires
        valid_name(domain),
        addr.len() == 8,
        0 <= pos,
        pos + enc_record(RecordV::AAAA { domain, addr, ttl }).len() <= buf.len(),
        buf.subrange(pos, pos + enc_record(RecordV::AAAA { domain, addr, ttl }).len())
            == enc_record(RecordV::AAAA { domain, addr, ttl }),
    ensures
        dec_record(buf, pos) == (RecordDec::Done {
            rec: RecordV::AAAA { domain, addr, ttl },
            end: pos + enc_record(RecordV::AAAA { domain, addr, ttl }).len(),
        }),
{
    let r = RecordV::AAAA { domain, addr, ttl };
    let nd = enc_name(encode_utf8(domain));
    let tail = be16(addr[0]) + be16(addr[1]) + be16(addr[2]) + be16(addr[3]) + be16(addr[4])
        + be16(addr[5]) + be16(addr[6]) + be16(addr[7]);
    let rest = be16(28u16) + be16(1u16) + be32(ttl) + be16(16u16) + tail;
    assert(enc_record(r) =~= nd + rest);
    lemma_region_split(buf, pos, nd, rest);
    lemma_dec_enc_name(buf, pos, domain);
    lemma_name_view_roundtrip(domain);
    let e = pos + nd.len() as int;
    lemma_dec_fixed(buf, e, 28u16, ttl, 16u16, tail);
    let p = e + 10;
    assert(tail =~= seq![
        be16(addr[0])[0],
        be16(addr[0])[1],
        be16(addr[1])[0],
        be16(addr[1])[1],
        be16(addr[2])[0],
        be16(addr[2])[1],
        be16(addr[3])[0],
        be16(addr[3])[1],
        be16(addr[4])[0],
        be16(addr[4])[1],
        be16(addr[5])[0],
        be16(addr[5])[1],
        be16(addr[6])[0],
        be16(addr[6])[1],
        be16(addr[7])[0],
        be16(addr[7])[1],
    ]);
    assert forall|i: int| 0 <= i < 8 implies combine16(buf[p + 2 * i], buf[p + 2 * i + 1])
        == addr[i] by {
        lemma_region_index(buf, p, tail, 2 * i);
        lemma_region_index(buf, p, tail, 2 * i + 1);
        lemma_combine16_be16(addr[i]);
        if i == 0 {
            assert(tail[0] == be16(addr[0])[0] && tail[1] == be16(addr[0])[1]);
        } else if i == 1 {
            assert(tail[2] == be16(addr[1])[0] && tail[3] == be16(addr[1])[1]);
        } else if i == 2 {
            assert(tail[4] == be16(addr[2])[0] && tail[5] == be16(addr[2])[1]);
        } else if i == 3 {
            assert(tail[6] == be16(addr[3])[0] && tail[7] == be16(addr[3])[1]);
        } else if i == 4 {
            assert(tail[8] == be16(addr[4])[0] && tail[9] == be16(addr[4])[1]);
        } else if i == 5 {
            assert(tail[10] == be16(addr[5])[0] && tail[11] == be16(addr[5])[1]);
        } else if i == 6 {
            assert(tail[12] == be16(addr[6])[0] && tail[13] == be16(addr[6])[1]);
        } else {
            assert(tail[14] == be16(addr[7])[0] && tail[15] == be16(addr[7])[1]);
        }
    }
    assert(Seq::new(8, |i: int| combine16(buf[p + 2 * i], buf[p + 2 * i + 1])) =~= addr);
}

/// A written record decodes back to itself.
proof fn lemma_dec_enc_record(buf: Seq<u8>, pos: int, r: RecordV)
    requires
        valid_record(r),
        0 <= pos,
        pos + enc_record(r).len() <= buf.len(),
        buf.subrange(pos, pos + enc_record(r).len()) == enc_record(r),
    ensures
        dec_record(buf, pos) == (RecordDec::Done { rec: r, end: pos + enc_record(r).len() }),
{
    match r {
        RecordV::Unknown { .. } => {
            assert(false);
        },
        RecordV::A { domain, addr, ttl } => {
            lemma_dec_enc_record_a(buf, pos, domain, addr, ttl);
        },
        RecordV::NS { domain, host, ttl } => {
            lemma_dec_enc_record_host(buf, pos, r, domain, host, ttl, 2);
        },
        RecordV::CNAME { domain, host, ttl } => {
            lemma_dec_enc_record_host(buf, pos, r, domain, host, ttl, 5);
        },
        RecordV::MX { domain, priority, host, ttl } => {
            lemma_dec_enc_record_mx(buf, pos, domain, priority, host, ttl);
        },
        RecordV::AAAA { domain, addr, ttl } => {
            lemma_dec_enc_record_aaaa(buf, pos, domain, addr, ttl);
        },
    }
}

/// A written question list decodes back to itself.
proof fn lemma_dec_enc_questions(buf: Seq<u8>, pos: int, qs: Seq<crate::question::QuestionV>)
    requires
        forall|i: int| 0 <= i < qs.len() ==> valid_question(#[trigger] qs[i]),
        0 <= pos,
        pos + enc_questions(qs).len() <= buf.len(),
        buf.subrange(pos, pos + enc_questions(qs).len()) == enc_questions(qs),
    ensures
        dec_questions(buf, pos, qs.len() as nat) == (QuestionsDec::Done {
            qs,
            end: pos + enc_questions(qs).len(),
        }),
    decreases qs.len(),
{
    if qs.len() == 0 {
        assert(Seq::<crate::question::QuestionV>::empty() =~= qs);
    } else {
        let q0 = crate::question::enc_question(qs[0]);
        let rest = enc_questions(qs.drop_first());
        assert(enc_questions(qs) == q0 + rest);
        lemma_region_split(buf, pos, q0, rest);
        lemma_dec_enc_question(buf, pos, qs[0]);
        assert forall|i: int| 0 <= i < qs.drop_first().len() implies valid_question(
            #[trigger] qs.drop_first()[i],
        ) by {
            assert(qs.drop_first()[i] == qs[i + 1]);
        }
        lemma_dec_enc_questions(buf, pos + q0.len() as int, qs.drop_first());
        assert(seq![qs[0]] + qs.drop_first() =~= qs);
    }
}

/// A written record list decodes back to itself.
proof fn lemma_dec_enc_records(buf: Seq<u8>, pos: int, rs: Seq<RecordV>)
    requires
        forall|i: int| 0 <= i < rs.len() ==> valid_record(#[trigger] rs[i]),
        0 <= pos,
        pos + enc_records(rs).len() <= buf.len(),
        buf.subrange(pos, pos + enc_records(rs).len()) == enc_records(rs),
    ensures
        dec_records(buf, pos, rs.len() as nat) == (RecordsDec::Done {
            rs,
            end: pos + enc_records(rs).len(),
        }),
    decreases rs.len(),
{
    if rs.len() == 0 {
        assert(Seq::<RecordV>::empty() =~= rs);
    } else {
        let r0 = enc_record(rs[0]);
        let rest = enc_records(rs.drop_first());
        assert(enc_records(rs) == r0 + rest);
        lemma_region_split(buf, pos, r0, rest);
        lemma_dec_enc_record(buf, pos, rs[0]);
        assert forall|i: int| 0 <= i < rs.drop_first().len() implies valid_record(
            #[trigger] rs.drop_first()[i],
        ) by {
            assert(rs.drop_first()[i] == rs[i + 1]);
        }
        lemma_dec_enc_records(buf, pos + r0.len() as int, rs.drop_first());
        assert(seq![rs[0]] + rs.drop_first() =~= rs);
    }
}

/// A message fit for the wire: a well-formed header whose counts are the
/// section lengths, reversible questions, and reversible records—so in
/// particular no `Unknown` record anywhere.
pub open spec fn valid_packet(p: PacketV) -> bool {
    &&& p.header.wf()
    &&& p.header.questions == p.questions.len()
    &&& p.header.answers == p.answers.len()
    &&& p.header.authoritative_entries == p.authorities.len()
    &&& p.header.resource_entries == p.resources.len()
    &&& forall|i: int| 0 <= i < p.questions.len() ==> valid_question(#[trigger] p.questions[i])
    &&& forall|i: int| 0 <= i < p.answers.len() ==> valid_record(#[trigger] p.answers[i])
    &&& forall|i: int| 0 <= i < p.authorities.len() ==> valid_record(#[trigger] p.authorities[i])
    &&& forall|i: int| 0 <= i < p.resources.len() ==> valid_record(#[trigger] p.resources[i])
}

/// A written message decodes back to itself, field for field and section
/// for section, wherever its bytes lie.
#[verifier::spinoff_prover]
#[verifier::rlimit(100)]
pub proof fn lemma_dec_enc_packet(buf: Seq<u8>, pos: int, p: PacketV)
    requires
        valid_packet(p),
        0 <= pos,
        pos + enc_packet(p).len() <= buf.len(),
        buf.subrange(pos, pos + enc_packet(p).len()) == enc_packet(p),
    ensures
        dec_packet(buf, pos) == (PacketDec::Done { p, end: pos + enc_packet(p).len() }),
{
    let hd = p.header.enc();
    let eq = enc_questions(p.questions);
    let ea = enc_records(p.answers);
    let eu = enc_records(p.authorities);
    let er = enc_records(p.resources);
    let a2 = hd + eq;
    let a3 = a2 + ea;
    let a4 = a3 + eu;
    let p1 = pos + hd.len() as int;
    let p2 = p1 + eq.len() as int;
    let p3 = p2 + ea.len() as int;
    let p4 = p3 + eu.len() as int;
    let fin = pos + enc_packet(p).len() as int;
    assert(buf.subrange(pos, p4) == a4 && buf.subrange(p4, fin) == er) by {
        assert(enc_packet(p) == a4 + er);
        lemma_region_split(buf, pos, a4, er);
    }
    assert(buf.subrange(pos, p3) == a3 && buf.subrange(p3, p4) == eu) by {
        lemma_region_split(buf, pos, a3, eu);
    }
    assert(buf.subrange(pos, p2) == a2 && buf.subrange(p2, p3) == ea) by {
        lemma_region_split(buf, pos, a2, ea);
    }
    assert(buf.subrange(pos, p1) == hd && buf.subrange(p1, p2) == eq) by {
        lemma_region_split(buf, pos, hd, eq);
    }
    assert(hd.len() == 12);
    assert(dec_header_ok(buf, pos) && dec_header_at(buf, pos) == p.header) by {
        crate::header::lemma_header_roundtrip(p.header, buf, pos);
    }
    assert(dec_questions(buf, p1, p.questions.len() as nat) == (QuestionsDec::Done {
        qs: p.questions,
        end: p2,
    })) by {
        lemma_dec_enc_questions(buf, p1, p.questions);
    }
    assert(dec_records(buf, p2, p.answers.len() as nat) == (RecordsDec::Done {
        rs: p.answers,
        end: p3,
    })) by {
        lemma_dec_enc_records(buf, p2, p.answers);
    }
    assert(dec_records(buf, p3, p.authorities.len() as nat) == (RecordsDec::Done {
        rs: p.authorities,
        end: p4,
    })) by {
        lemma_dec_enc_records(buf, p3, p.authorities);
    }
    assert(dec_records(buf, p4, p.resources.len() as nat) == (RecordsDec::Done {
        rs: p.resources,
        end: fin,
    })) by {
        lemma_dec_enc_records(buf, p4, p.resources);
    }
}

/// The round trip: a valid message—no `Unknown` records, reversible
/// names, counts that match the sections—written into a buffer decodes
/// back to exactly the same message.  Together with the contracts of
/// [`crate::packet::DnsPacket`]'s `write_packet` and `read_packet`, this
/// is the law that decoding undoes encoding.
pub proof fn lemma_packet_roundtrip(p: PacketV, b0: Seq<u8>)
    requires
        valid_packet(p),
        b0.len() == MAX_BUFFER_SIZE,
        enc_packet(p).len() <= MAX_BUFFER_SIZE,
    ensures
        dec_packet(splice(b0, 0, enc_packet(p)), 0) == (PacketDec::Done {
            p,
            end: enc_packet(p).len() as int,
        }),
{
    let buf = splice(b0, 0, enc_packet(p));
    assert(buf.subrange(0, enc_packet(p).len() as int) =~= enc_packet(p));
    lemma_dec_enc_packet(buf, 0, p);
}

} // verus!
