//! Binary encoding of a `VersionMetaGroup`.
//!
//! Integers are 8 bytes little-endian; a string is its UTF-8 byte length followed by
//! its bytes; an optional value is a tag byte (0 absent, 1 present) followed by the
//! value; a change is a tag byte (0 update, 1 delete) followed by its fields; a list
//! is its element count followed by its elements. A group holds at least one version.
use vstd::prelude::*;
use vstd::utf8::*;
use vstd::slice::slice_subrange;
use crate::model::{opt_str_view, ChangeView, FileChange, MetaView, VersionMeta, VersionMetaGroup};

verus! {

pub open spec fn le64(v: u64) -> Seq<u8> {
    seq![
        v as u8,
        (v >> 8u64) as u8,
        (v >> 16u64) as u8,
        (v >> 24u64) as u8,
        (v >> 32u64) as u8,
        (v >> 40u64) as u8,
        (v >> 48u64) as u8,
        (v >> 56u64) as u8,
    ]
}

pub open spec fn from_le64(b: Seq<u8>) -> u64 {
    (b[0] as u64) | ((b[1] as u64) << 8u64) | ((b[2] as u64) << 16u64) | ((b[3] as u64) << 24u64)
        | ((b[4] as u64) << 32u64) | ((b[5] as u64) << 40u64) | ((b[6] as u64) << 48u64) | ((
    b[7] as u64) << 56u64)
}

pub open spec fn enc_str(s: Seq<char>) -> Seq<u8> {
    le64(encode_utf8(s).len() as u64) + encode_utf8(s)
}

pub open spec fn enc_opt_u64(o: Option<u64>) -> Seq<u8> {
    match o {
        Some(v) => seq![1u8] + le64(v),
        None => seq![0u8],
    }
}

pub open spec fn enc_opt_str(o: Option<Seq<char>>) -> Seq<u8> {
    match o {
        Some(s) => seq![1u8] + enc_str(s),
        None => seq![0u8],
    }
}

pub open spec fn enc_change(c: ChangeView) -> Seq<u8> {
    match c {
        ChangeView::Update { path, offset, size, modified, hash } => seq![0u8] + enc_str(path)
            + enc_opt_u64(offset) + le64(size) + le64(modified) + enc_opt_str(hash),
        ChangeView::Delete { path } => seq![1u8] + enc_str(path),
    }
}

pub open spec fn enc_changes(cs: Seq<ChangeView>) -> Seq<u8>
    decreases cs.len(),
{
    if cs.len() == 0 {
        seq![]
    } else {
        enc_change(cs[0]) + enc_changes(cs.drop_first())
    }
}

pub open spec fn enc_meta(m: MetaView) -> Seq<u8> {
    enc_str(m.label) + enc_str(m.logs) + le64(m.changes.len() as u64) + enc_changes(m.changes)
}

pub open spec fn enc_metas(ms: Seq<MetaView>) -> Seq<u8>
    decreases ms.len(),
{
    if ms.len() == 0 {
        seq![]
    } else {
        enc_meta(ms[0]) + enc_metas(ms.drop_first())
    }
}

/// The encoding of a whole group.
pub open spec fn enc_group(g: Seq<MetaView>) -> Seq<u8> {
    le64(g.len() as u64) + enc_metas(g)
}

pub open spec fn dec_u64(b: Seq<u8>) -> Option<(u64, Seq<u8>)> {
    if b.len() < 8 {
        None
    } else {
        Some((from_le64(b.take(8)), b.skip(8)))
    }
}

#[verifier::opaque]
pub open spec fn dec_str(b: Seq<u8>) -> Option<(Seq<char>, Seq<u8>)> {
    match dec_u64(b) {
        Some((n, r)) => if n as int <= r.len() && valid_utf8(r.take(n as int)) {
            Some((decode_utf8(r.take(n as int)), r.skip(n as int)))
        } else {
            None
        },
        None => None,
    }
}

pub open spec fn dec_opt_u64(b: Seq<u8>) -> Option<(Option<u64>, Seq<u8>)> {
    if b.len() == 0 {
        None
    } else if b[0] == 0 {
        Some((None, b.skip(1)))
    } else if b[0] == 1 {
        match dec_u64(b.skip(1)) {
            Some((v, r)) => Some((Some(v), r)),
            None => None,
        }
    } else {
        None
    }
}

pub open spec fn dec_opt_str(b: Seq<u8>) -> Option<(Option<Seq<char>>, Seq<u8>)> {
    if b.len() == 0 {
        None
    } else if b[0] == 0 {
        Some((None, b.skip(1)))
    } else if b[0] == 1 {
        match dec_str(b.skip(1)) {
            Some((s, r)) => Some((Some(s), r)),
            None => None,
        }
    } else {
        None
    }
}

#[verifier::opaque]
pub open spec fn dec_change(b: Seq<u8>) -> Option<(ChangeView, Seq<u8>)> {
    if b.len() == 0 {
        None
    } else if b[0] == 0 {
        match dec_str(b.skip(1)) {
            Some((path, r1)) => match dec_opt_u64(r1) {
                Some((offset, r2)) => match dec_u64(r2) {
                    Some((size, r3)) => match dec_u64(r3) {
                        Some((modified, r4)) => match dec_opt_str(r4) {
                            Some((hash, r5)) => Some(
                                (ChangeView::Update { path, offset, size, modified, hash }, r5),
                            ),
                            None => None,
                        },
                        None => None,
                    },
                    None => None,
                },
                None => None,
            },
            None => None,
        }
    } else if b[0] == 1 {
        match dec_str(b.skip(1)) {
            Some((path, r1)) => Some((ChangeView::Delete { path }, r1)),
            None => None,
        }
    } else {
        None
    }
}

pub open spec fn dec_changes(n: nat, b: Seq<u8>) -> Option<(Seq<ChangeView>, Seq<u8>)>
    decreases n,
{
    if n == 0 {
        Some((seq![], b))
    } else {
        match dec_change(b) {
            Some((c, r)) => match dec_changes((n - 1) as nat, r) {
                Some((cs, r2)) => Some((seq![c] + cs, r2)),
                None => None,
            },
            None => None,
        }
    }
}

#[verifier::opaque]
pub open spec fn dec_meta(b: Seq<u8>) -> Option<(MetaView, Seq<u8>)> {
    match dec_str(b) {
        Some((label, r1)) => match dec_str(r1) {
            Some((logs, r2)) => match dec_u64(r2) {
                Some((n, r3)) => match dec_changes(n as nat, r3) {
                    Some((changes, r4)) => Some((MetaView { label, logs, changes }, r4)),
                    None => None,
                },
                None => None,
            },
            None => None,
        },
        None => None,
    }
}

pub open spec fn dec_metas(n: nat, b: Seq<u8>) -> Option<(Seq<MetaView>, Seq<u8>)>
    decreases n,
{
    if n == 0 {
        Some((seq![], b))
    } else {
        match dec_meta(b) {
            Some((m, r)) => match dec_metas((n - 1) as nat, r) {
                Some((ms, r2)) => Some((seq![m] + ms, r2)),
                None => None,
            },
            None => None,
        }
    }
}

/// What a byte sequence decodes to: a non-empty group that uses every byte, or nothing.
pub open spec fn dec_group(b: Seq<u8>) -> Option<Seq<MetaView>> {
    match dec_u64(b) {
        Some((n, r)) => if n == 0 {
            None
        } else {
            match dec_metas(n as nat, r) {
                Some((ms, rest)) => if rest.len() == 0 {
                    Some(ms)
                } else {
                    None
                },
                None => None,
            }
        },
        None => None,
    }
}

pub open spec fn str_fits(s: Seq<char>) -> bool {
    encode_utf8(s).len() <= u64::MAX
}

pub open spec fn change_fits(c: ChangeView) -> bool {
    match c {
        ChangeView::Update { path, hash, .. } => str_fits(path) && match hash {
            Some(h) => str_fits(h),
            None => true,
        },
        ChangeView::Delete { path } => str_fits(path),
    }
}

pub open spec fn meta_fits(m: MetaView) -> bool {
    &&& str_fits(m.label)
    &&& str_fits(m.logs)
    &&& m.changes.len() <= u64::MAX
    &&& forall|i: int| 0 <= i < m.changes.len() ==> change_fits(#[trigger] m.changes[i])
}

/// A group that the encoding can carry: non-empty, with every length within 64 bits.
pub open spec fn group_fits(g: Seq<MetaView>) -> bool {
    &&& 0 < g.len() <= u64::MAX
    &&& forall|i: int| 0 <= i < g.len() ==> meta_fits(#[trigger] g[i])
}

/// Decoding an encoded integer gives it back, and the bytes after it.
pub proof fn lemma_dec_u64(v: u64, rest: Seq<u8>)
    ensures
        dec_u64(le64(v) + rest) == Some((v, rest)),
{
    let b = le64(v) + rest;
    assert(b.take(8) =~= le64(v));
    assert(b.skip(8) =~= rest);
    let b0 = v as u8;
    let b1 = (v >> 8u64) as u8;
    let b2 = (v >> 16u64) as u8;
    let b3 = (v >> 24u64) as u8;
    let b4 = (v >> 32u64) as u8;
    let b5 = (v >> 40u64) as u8;
    let b6 = (v >> 48u64) as u8;
    let b7 = (v >> 56u64) as u8;
    assert((b0 as u64) | ((b1 as u64) << 8u64) | ((b2 as u64) << 16u64) | ((b3 as u64) << 24u64)
        | ((b4 as u64) << 32u64) | ((b5 as u64) << 40u64) | ((b6 as u64) << 48u64) | ((
    b7 as u64) << 56u64) == v) by (bit_vector)
        requires
            b0 == v as u8,
            b1 == (v >> 8u64) as u8,
            b2 == (v >> 16u64) as u8,
            b3 == (v >> 24u64) as u8,
            b4 == (v >> 32u64) as u8,
            b5 == (v >> 40u64) as u8,
            b6 == (v >> 48u64) as u8,
            b7 == (v >> 56u64) as u8,
    ;
}

/// Decoding an encoded string gives it back, and the bytes after it.
pub proof fn lemma_dec_str(s: Seq<char>, rest: Seq<u8>)
    requires
        str_fits(s),
    ensures
        dec_str(enc_str(s) + rest) == Some((s, rest)),
{
    reveal(dec_str);
    broadcast use {encode_utf8_valid_utf8, encode_utf8_decode_utf8};

    let e = encode_utf8(s);
    lemma_dec_u64(e.len() as u64, e + rest);
    assert(enc_str(s) + rest =~= le64(e.len() as u64) + (e + rest));
    assert((e + rest).take(e.len() as int) =~= e);
    assert((e + rest).skip(e.len() as int) =~= rest);
}

proof fn lemma_dec_change(c: ChangeView, rest: Seq<u8>)
    requires
        change_fits(c),
    ensures
        dec_change(enc_change(c) + rest) == Some((c, rest)),
{
    reveal(dec_change);
    match c {
        ChangeView::Update { path, offset, size, modified, hash } => {
            let t5 = enc_opt_str(hash) + rest;
            let t4 = le64(modified) + t5;
            let t3 = le64(size) + t4;
            let t2 = enc_opt_u64(offset) + t3;
            let t1 = enc_str(path) + t2;
            assert(enc_change(c) + rest =~= seq![0u8] + t1);
            assert((seq![0u8] + t1).skip(1) =~= t1);
            lemma_dec_str(path, t2);
            match offset {
                Some(v) => {
                    assert(t2 =~= seq![1u8] + (le64(v) + t3));
                    assert(t2.skip(1) =~= le64(v) + t3);
                    lemma_dec_u64(v, t3);
                },
                None => {
                    assert(t2.skip(1) =~= t3);
                },
            }
            lemma_dec_u64(size, t4);
            lemma_dec_u64(modified, t5);
            match hash {
                Some(h) => {
                    assert(t5 =~= seq![1u8] + (enc_str(h) + rest));
                    assert(t5.skip(1) =~= enc_str(h) + rest);
                    lemma_dec_str(h, rest);
                },
                None => {
                    assert(t5.skip(1) =~= rest);
                },
            }
        },
        ChangeView::Delete { path } => {
            assert(enc_change(c) + rest =~= seq![1u8] + (enc_str(path) + rest));
            assert((seq![1u8] + (enc_str(path) + rest)).skip(1) =~= enc_str(path) + rest);
            lemma_dec_str(path, rest);
        },
    }
}

proof fn lemma_dec_changes(cs: Seq<ChangeView>, rest: Seq<u8>)
    requires
        forall|i: int| 0 <= i < cs.len() ==> change_fits(#[trigger] cs[i]),
    ensures
        dec_changes(cs.len(), enc_changes(cs) + rest) == Some((cs, rest)),
    decreases cs.len(),
{
    if cs.len() > 0 {
        let tail = cs.drop_first();
        assert(forall|i: int| 0 <= i < tail.len() ==> tail[i] == cs[i + 1]);
        lemma_dec_changes(tail, rest);
        assert(enc_changes(cs) + rest =~= enc_change(cs[0]) + (enc_changes(tail) + rest));
        assert(change_fits(cs[0]));
        lemma_dec_change(cs[0], enc_changes(tail) + rest);
        assert(seq![cs[0]] + tail =~= cs);
    }
}

proof fn lemma_dec_meta(m: MetaView, rest: Seq<u8>)
    requires
        meta_fits(m),
    ensures
        dec_meta(enc_meta(m) + rest) == Some((m, rest)),
{
    reveal(dec_meta);
    let t3 = enc_changes(m.changes) + rest;
    let t2 = le64(m.changes.len() as u64) + t3;
    let t1 = enc_str(m.logs) + t2;
    assert(enc_meta(m) + rest =~= enc_str(m.label) + t1);
    lemma_dec_str(m.label, t1);
    lemma_dec_str(m.logs, t2);
    lemma_dec_u64(m.changes.len() as u64, t3);
    lemma_dec_changes(m.changes, rest);
}

proof fn lemma_dec_metas(ms: Seq<MetaView>, rest: Seq<u8>)
    requires
        forall|i: int| 0 <= i < ms.len() ==> meta_fits(#[trigger] ms[i]),
    ensures
        dec_metas(ms.len(), enc_metas(ms) + rest) == Some((ms, rest)),
    decreases ms.len(),
{
    if ms.len() > 0 {
        let tail = ms.drop_first();
        assert(forall|i: int| 0 <= i < tail.len() ==> tail[i] == ms[i + 1]);
        lemma_dec_metas(tail, rest);
        assert(enc_metas(ms) + rest =~= enc_meta(ms[0]) + (enc_metas(tail) + rest));
        assert(meta_fits(ms[0]));
        lemma_dec_meta(ms[0], enc_metas(tail) + rest);
        assert(seq![ms[0]] + tail =~= ms);
    }
}

/// Decoding the encoding of a group gives that group back.
pub proof fn lemma_round_trip(g: Seq<MetaView>)
    requires
        group_fits(g),
    ensures
        dec_group(enc_group(g)) == Some(g),
{
    lemma_dec_u64(g.len() as u64, enc_metas(g));
    lemma_dec_metas(g, seq![]);
    assert(enc_metas(g) + seq![] =~= enc_metas(g));
}

proof fn lemma_enc_changes_push(cs: Seq<ChangeView>, c: ChangeView)
    ensures
        enc_changes(cs.push(c)) == enc_changes(cs) + enc_change(c),
    decreases cs.len(),
{
    if cs.len() == 0 {
        let one = cs.push(c);
        assert(one.drop_first() =~= Seq::<ChangeView>::empty());
        assert(enc_changes(one.drop_first()) == Seq::<u8>::empty());
        assert(one[0] == c);
        assert(enc_changes(one) =~= enc_change(c) + Seq::<u8>::empty());
        assert(enc_changes(cs) == Seq::<u8>::empty());
        assert(enc_changes(cs) + enc_change(c) =~= enc_change(c));
    } else {
        assert(cs.push(c).drop_first() =~= cs.drop_first().push(c));
        lemma_enc_changes_push(cs.drop_first(), c);
        assert(enc_changes(cs.push(c)) =~= enc_changes(cs) + enc_change(c));
    }
}

proof fn lemma_enc_metas_push(ms: Seq<MetaView>, m: MetaView)
    ensures
        enc_metas(ms.push(m)) == enc_metas(ms) + enc_meta(m),
    decreases ms.len(),
{
    if ms.len() == 0 {
        let one = ms.push(m);
        assert(one.drop_first() =~= Seq::<MetaView>::empty());
        assert(enc_metas(one.drop_first()) == Seq::<u8>::empty());
        assert(one[0] == m);
        assert(enc_metas(one) =~= enc_meta(m) + Seq::<u8>::empty());
        assert(enc_metas(ms) == Seq::<u8>::empty());
        assert(enc_metas(ms) + enc_meta(m) =~= enc_meta(m));
    } else {
        assert(ms.push(m).drop_first() =~= ms.drop_first().push(m));
        lemma_enc_metas_push(ms.drop_first(), m);
        assert(enc_metas(ms.push(m)) =~= enc_metas(ms) + enc_meta(m));
    }
}

/// The bytes are no valid encoding.
#[derive(Clone, Copy, Debug, PartialEq, Eq, Structural)]
pub enum CodecError {
    Malformed,
}

/// Relies on std::str::from_utf8: it accepts exactly the valid UTF-8 byte sequences,
/// and the string it gives is made of those bytes.
#[verifier::external_body]
fn utf8_string(b: &[u8]) -> (r: Option<String>)
    ensures
        match r {
            Some(s) => encode_utf8(s@) == b@,
            None => !valid_utf8(b@),
        },
{
    match std::str::from_utf8(b) {
        Ok(s) => Some(s.to_string()),
        Err(_) => None,
    }
}

pub(crate) fn put_u64(out: &mut Vec<u8>, v: u64)
    ensures
        final(out)@ == old(out)@ + le64(v),
{
    out.push(v as u8);
    out.push((v >> 8u64) as u8);
    out.push((v >> 16u64) as u8);
    out.push((v >> 24u64) as u8);
    out.push((v >> 32u64) as u8);
    out.push((v >> 40u64) as u8);
    out.push((v >> 48u64) as u8);
    out.push((v >> 56u64) as u8);
    assert(out@ =~= old(out)@ + le64(v));
}

pub(crate) fn put_str(out: &mut Vec<u8>, s: &String)
    ensures
        final(out)@ == old(out)@ + enc_str(s@),
{
    let bytes = s.as_str().as_bytes();
    assert(bytes@ == encode_utf8(s@));
    put_u64(out, bytes.len() as u64);
    let ghost start = out@;
    let mut i: usize = 0;
    while i < bytes.len()
        invariant
            i <= bytes@.len(),
            out@ == start + bytes@.take(i as int),
        decreases bytes@.len() - i,
    {
        out.push(bytes[i]);
        i += 1;
        assert(out@ =~= start + bytes@.take(i as int));
    }
    assert(bytes@.take(i as int) =~= bytes@);
    assert(out@ =~= old(out)@ + enc_str(s@));
}

fn put_opt_str(out: &mut Vec<u8>, o: &Option<String>)
    ensures
        final(out)@ == old(out)@ + enc_opt_str(opt_str_view(*o)),
{
    match o {
        Some(s) => {
            out.push(1u8);
            put_str(out, s);
            assert(out@ =~= old(out)@ + enc_opt_str(opt_str_view(*o)));
        },
        None => {
            out.push(0u8);
            assert(out@ =~= old(out)@ + enc_opt_str(opt_str_view(*o)));
        },
    }
}

fn put_change(out: &mut Vec<u8>, c: &FileChange)
    ensures
        final(out)@ == old(out)@ + enc_change(c@),
{
    match c {
        FileChange::UpdateFile { path, offset, size, modified, hash } => {
            out.push(0u8);
            put_str(out, path);
            match offset {
                Some(v) => {
                    out.push(1u8);
                    put_u64(out, *v);
                },
                None => {
                    out.push(0u8);
                },
            }
            put_u64(out, *size);
            put_u64(out, *modified);
            put_opt_str(out, hash);
        },
        FileChange::DeleteFile { path } => {
            out.push(1u8);
            put_str(out, path);
        },
    }
    assert(out@ =~= old(out)@ + enc_change(c@));
}

fn put_meta(out: &mut Vec<u8>, m: &VersionMeta)
    ensures
        final(out)@ == old(out)@ + enc_meta(m@),
{
    put_str(out, &m.label);
    put_str(out, &m.logs);
    put_u64(out, m.changes.len() as u64);
    let ghost start = out@;
    let ghost cs = m@.changes;
    let mut i: usize = 0;
    while i < m.changes.len()
        invariant
            i <= m.changes@.len(),
            cs == m.changes@.map_values(|c: FileChange| c@),
            out@ == start + enc_changes(cs.take(i as int)),
        decreases m.changes@.len() - i,
    {
        put_change(out, &m.changes[i]);
        proof {
            assert(cs.take(i + 1) =~= cs.take(i as int).push(cs[i as int]));
            lemma_enc_changes_push(cs.take(i as int), cs[i as int]);
        }
        i += 1;
        assert(out@ =~= start + enc_changes(cs.take(i as int)));
    }
    assert(cs.take(i as int) =~= cs);
    assert(out@ =~= old(out)@ + enc_meta(m@));
}

/// Encodes a group as bytes.
pub fn serialize(g: &VersionMetaGroup) -> (r: Vec<u8>)
    ensures
        r@ == enc_group(g@),
{
    let mut out: Vec<u8> = Vec::new();
    put_u64(&mut out, g.metas.len() as u64);
    let ghost start = out@;
    let ghost ms = g@;
    let mut i: usize = 0;
    while i < g.metas.len()
        invariant
            i <= g.metas@.len(),
            ms == g.metas@.map_values(|m: VersionMeta| m@),
            out@ == start + enc_metas(ms.take(i as int)),
        decreases g.metas@.len() - i,
    {
        put_meta(&mut out, &g.metas[i]);
        proof {
            assert(ms.take(i + 1) =~= ms.take(i as int).push(ms[i as int]));
            lemma_enc_metas_push(ms.take(i as int), ms[i as int]);
        }
        i += 1;
        assert(out@ =~= start + enc_metas(ms.take(i as int)));
    }
    assert(ms.take(i as int) =~= ms);
    assert(out@ =~= enc_group(g@));
    out
}

pub(crate) fn get_u64(b: &[u8], pos: usize) -> (r: Option<(u64, usize)>)
    requires
        pos <= b@.len(),
    ensures
        r is None <==> dec_u64(b@.skip(pos as int)) is None,
        r matches Some((v, p)) ==> pos <= p <= b@.len() && dec_u64(b@.skip(pos as int)) == Some(
            (v, b@.skip(p as int)),
        ),
{
    if b.len() - pos < 8 {
        return None;
    }
    let v = (b[pos] as u64) | ((b[pos + 1] as u64) << 8u64) | ((b[pos + 2] as u64) << 16u64) | ((
    b[pos + 3] as u64) << 24u64) | ((b[pos + 4] as u64) << 32u64) | ((b[pos + 5] as u64)
        << 40u64) | ((b[pos + 6] as u64) << 48u64) | ((b[pos + 7] as u64) << 56u64);
    let ghost t = b@.skip(pos as int).take(8);
    assert(t =~= seq![b@[pos as int], b@[pos + 1], b@[pos + 2], b@[pos + 3], b@[pos + 4], b@[pos + 5], b@[pos + 6], b@[pos + 7]]);
    assert(b@.skip(pos as int).skip(8) =~= b@.skip(pos + 8));
    Some((v, pos + 8))
}

pub(crate) fn get_str(b: &[u8], pos: usize) -> (r: Option<(String, usize)>)
    requires
        pos <= b@.len(),
    ensures
        r is None <==> dec_str(b@.skip(pos as int)) is None,
        r matches Some((s, p)) ==> pos <= p <= b@.len() && dec_str(b@.skip(pos as int)) == Some(
            (s@, b@.skip(p as int)),
        ),
{
    reveal(dec_str);
    broadcast use {encode_utf8_valid_utf8, encode_utf8_decode_utf8};

    let (n, p) = match get_u64(b, pos) {
        Some(x) => x,
        None => return None,
    };
    if n > (b.len() - p) as u64 {
        return None;
    }
    let e = p + n as usize;
    let sub = slice_subrange(b, p, e);
    assert(sub@ =~= b@.skip(p as int).take(n as int));
    assert(b@.skip(p as int).skip(n as int) =~= b@.skip(e as int));
    match utf8_string(sub) {
        Some(s) => Some((s, e)),
        None => None,
    }
}

fn get_opt_str(b: &[u8], pos: usize) -> (r: Option<(Option<String>, usize)>)
    requires
        pos <= b@.len(),
    ensures
        r is None <==> dec_opt_str(b@.skip(pos as int)) is None,
        r matches Some((s, p)) ==> pos <= p <= b@.len() && dec_opt_str(b@.skip(pos as int))
            == Some((opt_str_view(s), b@.skip(p as int))),
{
    if pos >= b.len() {
        return None;
    }
    assert(b@.skip(pos as int).skip(1) =~= b@.skip(pos + 1));
    if b[pos] == 0 {
        Some((None, pos + 1))
    } else if b[pos] == 1 {
        match get_str(b, pos + 1) {
            Some((s, p)) => Some((Some(s), p)),
            None => None,
        }
    } else {
        None
    }
}

fn get_change(b: &[u8], pos: usize) -> (r: Option<(FileChange, usize)>)
    requires
        pos <= b@.len(),
    ensures
        r is None <==> dec_change(b@.skip(pos as int)) is None,
        r matches Some((c, p)) ==> pos <= p <= b@.len() && dec_change(b@.skip(pos as int))
            == Some((c@, b@.skip(p as int))),
{
    reveal(dec_change);
    if pos >= b.len() {
        return None;
    }
    assert(b@.skip(pos as int).skip(1) =~= b@.skip(pos + 1));
    if b[pos] == 0 {
        let (path, pos1) = match get_str(b, pos + 1) {
            Some(x) => x,
            None => return None,
        };
        if pos1 >= b.len() {
            return None;
        }
        assert(b@.skip(pos1 as int).skip(1) =~= b@.skip(pos1 + 1));
        let (offset, pos2) = if b[pos1] == 0 {
            (None, pos1 + 1)
        } else if b[pos1] == 1 {
            match get_u64(b, pos1 + 1) {
                Some((v, p)) => (Some(v), p),
                None => return None,
            }
        } else {
            return None;
        };
        let (size, pos3) = match get_u64(b, pos2) {
            Some(x) => x,
            None => return None,
        };
        let (modified, pos4) = match get_u64(b, pos3) {
            Some(x) => x,
            None => return None,
        };
        let (hash, pos5) = match get_opt_str(b, pos4) {
            Some(x) => x,
            None => return None,
        };
        Some((FileChange::UpdateFile { path, offset, size, modified, hash }, pos5))
    } else if b[pos] == 1 {
        match get_str(b, pos + 1) {
            Some((path, p)) => Some((FileChange::DeleteFile { path }, p)),
            None => None,
        }
    } else {
        None
    }
}

fn get_meta(b: &[u8], pos: usize) -> (r: Option<(VersionMeta, usize)>)
    requires
        pos <= b@.len(),
    ensures
        r is None <==> dec_meta(b@.skip(pos as int)) is None,
        r matches Some((m, p)) ==> pos <= p <= b@.len() && dec_meta(b@.skip(pos as int)) == Some(
            (m@, b@.skip(p as int)),
        ),
{
    reveal(dec_meta);
    let (label, pos1) = match get_str(b, pos) {
        Some(x) => x,
        None => return None,
    };
    let (logs, pos2) = match get_str(b, pos1) {
        Some(x) => x,
        None => return None,
    };
    let (n, pos3) = match get_u64(b, pos2) {
        Some(x) => x,
        None => return None,
    };
    let mut changes: Vec<FileChange> = Vec::new();
    let mut cur = pos3;
    let mut i: u64 = 0;
    while i < n
        invariant
            dec_meta(b@.skip(pos as int)) == match dec_changes(n as nat, b@.skip(pos3 as int)) {
                Some((cs, r)) => Some((MetaView { label: label@, logs: logs@, changes: cs }, r)),
                None => None,
            },
            pos <= pos3 <= cur <= b@.len(),
            i <= n,
            dec_changes(n as nat, b@.skip(pos3 as int)) == match dec_changes(
                (n - i) as nat,
                b@.skip(cur as int),
            ) {
                Some((cs, r)) => Some((changes@.map_values(|c: FileChange| c@) + cs, r)),
                None => None,
            },
        decreases n - i,
    {
        let ghost rest = b@.skip(cur as int);
        match get_change(b, cur) {
            Some((c, p)) => {
                let ghost before = changes@.map_values(|c: FileChange| c@);
                changes.push(c);
                proof {
                    let after = changes@.map_values(|c: FileChange| c@);
                    assert(after =~= before.push(c@));
                    match dec_changes((n - i - 1) as nat, b@.skip(p as int)) {
                        Some((cs, r)) => {
                            assert(before + (seq![c@] + cs) =~= after + cs);
                        },
                        None => {},
                    }
                }
                cur = p;
                i += 1;
            },
            None => {
                assert(dec_changes((n - i) as nat, rest) is None);
                assert(dec_changes(n as nat, b@.skip(pos3 as int)) is None);
                return None;
            },
        }
    }
    let ghost cv = changes@.map_values(|c: FileChange| c@);
    assert(cv + seq![] =~= cv);
    Some((VersionMeta { label, logs, changes }, cur))
}

/// Decodes a group from bytes; fails exactly on bytes that are no group's encoding.
pub fn deserialize(b: &[u8]) -> (r: Result<VersionMetaGroup, CodecError>)
    ensures
        r is Ok <==> dec_group(b@) is Some,
        r matches Ok(g) ==> dec_group(b@) == Some(g@),
{
    assert(b@.skip(0) =~= b@);
    let (n, pos0) = match get_u64(b, 0) {
        Some(x) => x,
        None => return Err(CodecError::Malformed),
    };
    if n == 0 {
        return Err(CodecError::Malformed);
    }
    let mut metas: Vec<VersionMeta> = Vec::new();
    let mut cur = pos0;
    let mut i: u64 = 0;
    while i < n
        invariant
            dec_group(b@) == match dec_metas(n as nat, b@.skip(pos0 as int)) {
                Some((ms, rest)) => if rest.len() == 0 {
                    Some(ms)
                } else {
                    None
                },
                None => None,
            },
            pos0 <= cur <= b@.len(),
            i <= n,
            dec_metas(n as nat, b@.skip(pos0 as int)) == match dec_metas(
                (n - i) as nat,
                b@.skip(cur as int),
            ) {
                Some((ms, r)) => Some((metas@.map_values(|m: VersionMeta| m@) + ms, r)),
                None => None,
            },
        decreases n - i,
    {
        let ghost rest = b@.skip(cur as int);
        match get_meta(b, cur) {
            Some((m, p)) => {
                let ghost before = metas@.map_values(|m: VersionMeta| m@);
                metas.push(m);
                proof {
                    let after = metas@.map_values(|m: VersionMeta| m@);
                    assert(after =~= before.push(m@));
                    match dec_metas((n - i - 1) as nat, b@.skip(p as int)) {
                        Some((ms, r)) => {
                            assert(before + (seq![m@] + ms) =~= after + ms);
                        },
                        None => {},
                    }
                }
                cur = p;
                i += 1;
            },
            None => {
                assert(dec_metas((n - i) as nat, rest) is None);
                assert(dec_metas(n as nat, b@.skip(pos0 as int)) is None);
                return Err(CodecError::Malformed);
            },
        }
    }
    let ghost mv = metas@.map_values(|m: VersionMeta| m@);
    assert(mv + seq![] =~= mv);
    if cur != b.len() {
        return Err(CodecError::Malformed);
    }
    Ok(VersionMetaGroup { metas })
}

} // verus!
