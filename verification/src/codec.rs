//! The cache file format: a pretty-printed JSON document holding the key
//! entries of a key set, one object per entry with its identifier,
//! algorithm and key material.
//!
//! The encoder writes one canonical byte string per key set; the decoder
//! accepts exactly the canonical encodings, so a decoded set always
//! round-trips and anything else is a parse error.

use crate::keyset::{
    entries_wf, entry_wf, keyset_wf, kids_unique, plain_byte, plain_seq,
    KeyEntry, KeySet, KeyView,
};
use vstd::prelude::*;

verus! {

pub open spec fn lit_header() -> Seq<u8> {
    seq![0x7bu8, 0x0au8, 0x20u8, 0x20u8, 0x22u8, 0x6bu8, 0x65u8, 0x79u8, 0x73u8, 0x22u8, 0x3au8, 0x20u8, 0x5bu8]
}

pub open spec fn lit_empty_tail() -> Seq<u8> {
    seq![0x5du8, 0x0au8, 0x7du8, 0x0au8]
}

pub open spec fn lit_first() -> Seq<u8> {
    seq![0x0au8]
}

pub open spec fn lit_entry_open() -> Seq<u8> {
    seq![0x20u8, 0x20u8, 0x20u8, 0x20u8, 0x7bu8, 0x0au8, 0x20u8, 0x20u8, 0x20u8, 0x20u8, 0x20u8, 0x20u8, 0x22u8, 0x6bu8, 0x69u8, 0x64u8, 0x22u8, 0x3au8, 0x20u8, 0x22u8]
}

pub open spec fn lit_alg() -> Seq<u8> {
    seq![0x22u8, 0x2cu8, 0x0au8, 0x20u8, 0x20u8, 0x20u8, 0x20u8, 0x20u8, 0x20u8, 0x22u8, 0x61u8, 0x6cu8, 0x67u8, 0x22u8, 0x3au8, 0x20u8, 0x22u8]
}

pub open spec fn lit_material() -> Seq<u8> {
    seq![0x22u8, 0x2cu8, 0x0au8, 0x20u8, 0x20u8, 0x20u8, 0x20u8, 0x20u8, 0x20u8, 0x22u8, 0x6du8, 0x61u8, 0x74u8, 0x65u8, 0x72u8, 0x69u8, 0x61u8, 0x6cu8, 0x22u8, 0x3au8, 0x20u8, 0x22u8]
}

pub open spec fn lit_entry_close() -> Seq<u8> {
    seq![0x22u8, 0x0au8, 0x20u8, 0x20u8, 0x20u8, 0x20u8, 0x7du8]
}

pub open spec fn lit_sep() -> Seq<u8> {
    seq![0x2cu8, 0x0au8]
}

pub open spec fn lit_tail() -> Seq<u8> {
    seq![0x0au8, 0x20u8, 0x20u8, 0x5du8, 0x0au8, 0x7du8, 0x0au8]
}

/// The bytes of one encoded entry.
pub open spec fn encode_entry_spec(e: KeyView) -> Seq<u8> {
    lit_entry_open() + e.kid + lit_alg() + e.alg + lit_material() + e.material + lit_entry_close()
}

/// The bytes of every entry after the first, each behind a separator.
pub open spec fn encode_rest_spec(s: Seq<KeyView>) -> Seq<u8>
    decreases s.len(),
{
    if s.len() == 0 {
        Seq::<u8>::empty()
    } else {
        lit_sep() + encode_entry_spec(s[0]) + encode_rest_spec(s.skip(1))
    }
}

/// The canonical encoding of a key set.
pub open spec fn encode_spec(s: Seq<KeyView>) -> Seq<u8> {
    if s.len() == 0 {
        lit_header() + lit_empty_tail()
    } else {
        lit_header() + lit_first() + encode_entry_spec(s[0]) + encode_rest_spec(s.skip(1))
            + lit_tail()
    }
}

fn make_header() -> (r: Vec<u8>)
    ensures
        r@ == lit_header(),
{
    let mut v: Vec<u8> = Vec::new();
    v.push(0x7b);
    v.push(0x0a);
    v.push(0x20);
    v.push(0x20);
    v.push(0x22);
    v.push(0x6b);
    v.push(0x65);
    v.push(0x79);
    v.push(0x73);
    v.push(0x22);
    v.push(0x3a);
    v.push(0x20);
    v.push(0x5b);
    proof {
        assert(v@ =~= lit_header());
    }
    v
}

fn make_empty_tail() -> (r: Vec<u8>)
    ensures
        r@ == lit_empty_tail(),
{
    let mut v: Vec<u8> = Vec::new();
    v.push(0x5d);
    v.push(0x0a);
    v.push(0x7d);
    v.push(0x0a);
    proof {
        assert(v@ =~= lit_empty_tail());
    }
    v
}

fn make_first() -> (r: Vec<u8>)
    ensures
        r@ == lit_first(),
{
    let mut v: Vec<u8> = Vec::new();
    v.push(0x0a);
    proof {
        assert(v@ =~= lit_first());
    }
    v
}

fn make_entry_open() -> (r: Vec<u8>)
    ensures
        r@ == lit_entry_open(),
{
    let mut v: Vec<u8> = Vec::new();
    v.push(0x20);
    v.push(0x20);
    v.push(0x20);
    v.push(0x20);
    v.push(0x7b);
    v.push(0x0a);
    v.push(0x20);
    v.push(0x20);
    v.push(0x20);
    v.push(0x20);
    v.push(0x20);
    v.push(0x20);
    v.push(0x22);
    v.push(0x6b);
    v.push(0x69);
    v.push(0x64);
    v.push(0x22);
    v.push(0x3a);
    v.push(0x20);
    v.push(0x22);
    proof {
        assert(v@ =~= lit_entry_open());
    }
    v
}

fn make_alg() -> (r: Vec<u8>)
    ensures
        r@ == lit_alg(),
{
    let mut v: Vec<u8> = Vec::new();
    v.push(0x22);
    v.push(0x2c);
    v.push(0x0a);
    v.push(0x20);
    v.push(0x20);
    v.push(0x20);
    v.push(0x20);
    v.push(0x20);
    v.push(0x20);
    v.push(0x22);
    v.push(0x61);
    v.push(0x6c);
    v.push(0x67);
    v.push(0x22);
    v.push(0x3a);
    v.push(0x20);
    v.push(0x22);
    proof {
        assert(v@ =~= lit_alg());
    }
    v
}

fn make_material() -> (r: Vec<u8>)
    ensures
        r@ == lit_material(),
{
    let mut v: Vec<u8> = Vec::new();
    v.push(0x22);
    v.push(0x2c);
    v.push(0x0a);
    v.push(0x20);
    v.push(0x20);
    v.push(0x20);
    v.push(0x20);
    v.push(0x20);
    v.push(0x20);
    v.push(0x22);
    v.push(0x6d);
    v.push(0x61);
    v.push(0x74);
    v.push(0x65);
    v.push(0x72);
    v.push(0x69);
    v.push(0x61);
    v.push(0x6c);
    v.push(0x22);
    v.push(0x3a);
    v.push(0x20);
    v.push(0x22);
    proof {
        assert(v@ =~= lit_material());
    }
    v
}

fn make_entry_close() -> (r: Vec<u8>)
    ensures
        r@ == lit_entry_close(),
{
    let mut v: Vec<u8> = Vec::new();
    v.push(0x22);
    v.push(0x0a);
    v.push(0x20);
    v.push(0x20);
    v.push(0x20);
    v.push(0x20);
    v.push(0x7d);
    proof {
        assert(v@ =~= lit_entry_close());
    }
    v
}

fn make_sep() -> (r: Vec<u8>)
    ensures
        r@ == lit_sep(),
{
    let mut v: Vec<u8> = Vec::new();
    v.push(0x2c);
    v.push(0x0a);
    proof {
        assert(v@ =~= lit_sep());
    }
    v
}

fn make_tail() -> (r: Vec<u8>)
    ensures
        r@ == lit_tail(),
{
    let mut v: Vec<u8> = Vec::new();
    v.push(0x0a);
    v.push(0x20);
    v.push(0x20);
    v.push(0x5d);
    v.push(0x0a);
    v.push(0x7d);
    v.push(0x0a);
    proof {
        assert(v@ =~= lit_tail());
    }
    v
}

/// Appends one encoded entry.
fn append_entry(out: &mut Vec<u8>, e: &KeyEntry)
    ensures
        final(out)@ == old(out)@ + encode_entry_spec(e@),
{
    let mut t = make_entry_open();
    out.append(&mut t);
    let mut kid = crate::keyset::clone_bytes(&e.kid);
    out.append(&mut kid);
    let mut t = make_alg();
    out.append(&mut t);
    let mut alg = crate::keyset::clone_bytes(&e.alg);
    out.append(&mut alg);
    let mut t = make_material();
    out.append(&mut t);
    let mut material = crate::keyset::clone_bytes(&e.material);
    out.append(&mut material);
    let mut t = make_entry_close();
    out.append(&mut t);
    proof {
        assert(out@ =~= old(out)@ + encode_entry_spec(e@));
    }
}

/// One more entry on the right of the remainder is one more separated
/// entry at its end.
proof fn lemma_rest_push(s: Seq<KeyView>, e: KeyView)
    ensures
        encode_rest_spec(s.push(e)) == encode_rest_spec(s) + lit_sep() + encode_entry_spec(e),
    decreases s.len(),
{
    if s.len() == 0 {
        assert(s.push(e).skip(1) =~= Seq::<KeyView>::empty());
        assert(s.push(e)[0] == e);
        assert(s =~= Seq::<KeyView>::empty());
        assert(encode_rest_spec(Seq::<KeyView>::empty()) == Seq::<u8>::empty());
        assert(encode_rest_spec(s.push(e)) == lit_sep() + encode_entry_spec(e)
            + Seq::<u8>::empty());
        assert(lit_sep() + encode_entry_spec(e) + Seq::<u8>::empty() =~= Seq::<u8>::empty()
            + lit_sep() + encode_entry_spec(e));
    } else {
        assert(s.push(e)[0] == s[0]);
        assert(s.push(e).skip(1) =~= s.skip(1).push(e));
        lemma_rest_push(s.skip(1), e);
        let a = lit_sep();
        let x = encode_entry_spec(s[0]);
        let r1 = encode_rest_spec(s.skip(1));
        let ee = encode_entry_spec(e);
        assert(encode_rest_spec(s.push(e)) == a + x + encode_rest_spec(s.push(e).skip(1)));
        assert(encode_rest_spec(s.push(e).skip(1)) == encode_rest_spec(s.skip(1).push(e)));
        assert(encode_rest_spec(s.skip(1).push(e)) == r1 + a + ee);
        assert(a + x + (r1 + a + ee) =~= (a + x + r1) + a + ee);
        assert(encode_rest_spec(s) == a + x + r1);
    }
}

/// Writes the canonical cache-file bytes of a key set.
pub fn encode_key_set(ks: &KeySet) -> (r: Vec<u8>)
    ensures
        r@ == encode_spec(ks@),
{
    let mut out = make_header();
    let n = ks.len();
    if n == 0 {
        let mut t = make_empty_tail();
        out.append(&mut t);
        return out;
    }
    let mut t = make_first();
    out.append(&mut t);
    append_entry(&mut out, ks.entry_at(0));
    let mut i: usize = 1;
    while i < n
        invariant
            1 <= i <= n,
            n == ks@.len(),
            out@ == lit_header() + lit_first() + encode_entry_spec(ks@[0]) + encode_rest_spec(
                ks@.subrange(1, i as int),
            ),
        decreases n - i,
    {
        let mut t = make_sep();
        out.append(&mut t);
        append_entry(&mut out, ks.entry_at(i));
        proof {
            lemma_rest_push(ks@.subrange(1, i as int), ks@[i as int]);
            assert(ks@.subrange(1, i as int).push(ks@[i as int]) =~= ks@.subrange(1, i as int + 1));
            assert(out@ =~= lit_header() + lit_first() + encode_entry_spec(ks@[0])
                + encode_rest_spec(ks@.subrange(1, i as int + 1)));
        }
        i += 1;
    }
    let mut t = make_tail();
    out.append(&mut t);
    proof {
        assert(ks@.subrange(1, n as int) =~= ks@.skip(1));
        assert(out@ =~= encode_spec(ks@));
    }
    out
}

/// The content at `pos` begins with `lit`.
pub open spec fn starts_with(s: Seq<u8>, pos: int, lit: Seq<u8>) -> bool {
    0 <= pos && pos + lit.len() <= s.len() && s.subrange(pos, pos + lit.len()) == lit
}

/// Position of the closing quote of the plain string starting at `pos`.
pub open spec fn scan_string(s: Seq<u8>, pos: int) -> Option<int>
    decreases s.len() - pos,
{
    if pos < 0 || pos >= s.len() {
        None
    } else if s[pos] == 0x22 {
        Some(pos)
    } else if plain_byte(s[pos]) {
        scan_string(s, pos + 1)
    } else {
        None
    }
}

/// One entry object at `pos`: its key view and the position after it.
pub open spec fn parse_entry(s: Seq<u8>, pos: int) -> Option<(KeyView, int)> {
    if !starts_with(s, pos, lit_entry_open()) {
        None
    } else {
        let p1 = pos + lit_entry_open().len();
        match scan_string(s, p1) {
            None => None,
            Some(e1) => if !starts_with(s, e1, lit_alg()) {
                None
            } else {
                let p2 = e1 + lit_alg().len();
                match scan_string(s, p2) {
                    None => None,
                    Some(e2) => if !starts_with(s, e2, lit_material()) {
                        None
                    } else {
                        let p3 = e2 + lit_material().len();
                        match scan_string(s, p3) {
                            None => None,
                            Some(e3) => if !starts_with(s, e3, lit_entry_close()) {
                                None
                            } else {
                                Some(
                                    (
                                        KeyView {
                                            kid: s.subrange(p1, e1),
                                            alg: s.subrange(p2, e2),
                                            material: s.subrange(p3, e3),
                                        },
                                        e3 + lit_entry_close().len(),
                                    ),
                                )
                            },
                        }
                    },
                }
            },
        }
    }
}

/// Every further entry behind its separator, and the position after them.
pub open spec fn parse_rest(s: Seq<u8>, pos: int) -> Option<(Seq<KeyView>, int)>
    decreases s.len() - pos,
{
    if pos < 0 || pos > s.len() {
        None
    } else if !starts_with(s, pos, lit_sep()) {
        Some((Seq::<KeyView>::empty(), pos))
    } else {
        match parse_entry(s, pos + 2) {
            None => None,
            Some((e, p2)) => if pos < p2 <= s.len() {
                match parse_rest(s, p2) {
                    None => None,
                    Some((es, p3)) => Some((seq![e] + es, p3)),
                }
            } else {
                None
            },
        }
    }
}

/// The whole document: the entries it encodes, in order.
pub open spec fn parse_document(s: Seq<u8>) -> Option<Seq<KeyView>> {
    if !starts_with(s, 0, lit_header()) {
        None
    } else {
        let pos = lit_header().len() as int;
        if starts_with(s, pos, lit_empty_tail()) {
            if pos + lit_empty_tail().len() == s.len() {
                Some(Seq::<KeyView>::empty())
            } else {
                None
            }
        } else if starts_with(s, pos, lit_first()) {
            match parse_entry(s, pos + 1) {
                None => None,
                Some((e, p2)) => match parse_rest(s, p2) {
                    None => None,
                    Some((es, p3)) => if starts_with(s, p3, lit_tail()) && p3 + lit_tail().len()
                        == s.len() {
                        Some(seq![e] + es)
                    } else {
                        None
                    },
                },
            }
        } else {
            None
        }
    }
}

/// What the decoder accepts: a well-formed document, its entries under
/// unique identifiers.
pub open spec fn decode_spec(s: Seq<u8>) -> Option<Seq<KeyView>> {
    match parse_document(s) {
        None => None,
        Some(es) => if keyset_wf(es) {
            Some(es)
        } else {
            None
        },
    }
}

/// Whether the bytes at `pos` begin with `lit`.
fn check_lit(s: &Vec<u8>, pos: usize, lit: &Vec<u8>) -> (r: bool)
    requires
        pos <= s@.len(),
    ensures
        r == starts_with(s@, pos as int, lit@),
{
    let slen = s.len();
    if slen - pos < lit.len() {
        return false;
    }
    let n = lit.len();
    let mut j: usize = 0;
    while j < n
        invariant
            j <= n,
            pos + n <= slen,
            slen == s@.len(),
            n == lit@.len(),
            forall|t: int| 0 <= t < j ==> s@[pos + t] == lit@[t],
        decreases n - j,
    {
        if s[pos + j] != lit[j] {
            proof {
                assert(s@.subrange(pos as int, pos + n) != lit@) by {
                    assert(s@.subrange(pos as int, pos + n)[j as int] == s@[pos + j]);
                }
            }
            return false;
        }
        j += 1;
    }
    proof {
        assert(s@.subrange(pos as int, pos + n) =~= lit@);
    }
    true
}

fn is_plain(b: u8) -> (r: bool)
    ensures
        r == plain_byte(b),
{
    0x20 <= b && b <= 0x7e && b != 0x22 && b != 0x5c
}

/// Finds the closing quote of the plain string starting at `pos`.
fn scan_str(s: &Vec<u8>, pos: usize) -> (r: Option<usize>)
    requires
        pos <= s@.len(),
    ensures
        match r {
            Some(e) => scan_string(s@, pos as int) == Some(e as int) && pos <= e < s@.len(),
            None => scan_string(s@, pos as int) is None,
        },
{
    let n = s.len();
    let mut j: usize = pos;
    while j < n
        invariant
            pos <= j <= n,
            n == s@.len(),
            scan_string(s@, pos as int) == scan_string(s@, j as int),
        decreases n - j,
    {
        let b = s[j];
        if b == 0x22 {
            return Some(j);
        }
        if !is_plain(b) {
            return None;
        }
        j += 1;
    }
    None
}

/// Copies the bytes of `s` between `from` and `to`.
fn copy_range(s: &Vec<u8>, from: usize, to: usize) -> (r: Vec<u8>)
    requires
        from <= to <= s@.len(),
    ensures
        r@ == s@.subrange(from as int, to as int),
{
    let mut out: Vec<u8> = Vec::new();
    let mut j: usize = from;
    while j < to
        invariant
            from <= j <= to,
            to <= s@.len(),
            out@ == s@.subrange(from as int, j as int),
        decreases to - j,
    {
        out.push(s[j]);
        proof {
            assert(out@ =~= s@.subrange(from as int, j as int + 1));
        }
        j += 1;
    }
    out
}

/// Reads one entry object at `pos`.
fn parse_entry_exec(s: &Vec<u8>, pos: usize) -> (r: Option<(KeyEntry, usize)>)
    requires
        pos <= s@.len(),
    ensures
        match r {
            Some((e, p)) => parse_entry(s@, pos as int) == Some((e@, p as int)) && pos < p
                <= s@.len(),
            None => parse_entry(s@, pos as int) is None,
        },
{
    let slen = s.len();
    let open = make_entry_open();
    if !check_lit(s, pos, &open) {
        return None;
    }
    proof {
        assert(pos + open@.len() <= slen);
    }
    let p1 = pos + open.len();
    let e1 = match scan_str(s, p1) {
        None => {
            return None;
        },
        Some(e) => e,
    };
    let kid = copy_range(s, p1, e1);
    let alg_lit = make_alg();
    if !check_lit(s, e1, &alg_lit) {
        return None;
    }
    proof {
        assert(e1 + alg_lit@.len() <= slen);
    }
    let p2 = e1 + alg_lit.len();
    let e2 = match scan_str(s, p2) {
        None => {
            return None;
        },
        Some(e) => e,
    };
    let alg = copy_range(s, p2, e2);
    let mat_lit = make_material();
    if !check_lit(s, e2, &mat_lit) {
        return None;
    }
    proof {
        assert(e2 + mat_lit@.len() <= slen);
    }
    let p3 = e2 + mat_lit.len();
    let e3 = match scan_str(s, p3) {
        None => {
            return None;
        },
        Some(e) => e,
    };
    let material = copy_range(s, p3, e3);
    let close = make_entry_close();
    if !check_lit(s, e3, &close) {
        return None;
    }
    proof {
        assert(e3 + close@.len() <= slen);
    }
    let p4 = e3 + close.len();
    Some((KeyEntry { kid, alg, material }, p4))
}

/// Reads every further entry behind its separator.
fn parse_rest_exec(s: &Vec<u8>, pos: usize) -> (r: Option<(Vec<KeyEntry>, usize)>)
    requires
        pos <= s@.len(),
    ensures
        match r {
            Some((v, p)) => parse_rest(s@, pos as int) == Some(
                (v@.map_values(|e: KeyEntry| e@), p as int),
            ) && pos <= p <= s@.len(),
            None => parse_rest(s@, pos as int) is None,
        },
    decreases s@.len() - pos,
{
    let slen = s.len();
    let sep = make_sep();
    if !check_lit(s, pos, &sep) {
        let out: Vec<KeyEntry> = Vec::new();
        proof {
            assert(out@.map_values(|e: KeyEntry| e@) =~= Seq::<KeyView>::empty());
        }
        return Some((out, pos));
    }
    proof {
        assert(pos + 2 <= slen);
    }
    let (e, p2) = match parse_entry_exec(s, pos + 2) {
        None => {
            return None;
        },
        Some(x) => x,
    };
    let (rest, p3) = match parse_rest_exec(s, p2) {
        None => {
            return None;
        },
        Some(x) => x,
    };
    let mut out: Vec<KeyEntry> = Vec::new();
    let ghost ev = e@;
    out.push(e);
    let mut rest = rest;
    let ghost restv = rest@.map_values(|x: KeyEntry| x@);
    out.append(&mut rest);
    proof {
        assert(out@.map_values(|x: KeyEntry| x@) =~~= seq![ev] + restv);
    }
    Some((out, p3))
}

/// Reads a whole document.
fn parse_document_exec(s: &Vec<u8>) -> (r: Option<Vec<KeyEntry>>)
    ensures
        match r {
            Some(v) => parse_document(s@) == Some(v@.map_values(|e: KeyEntry| e@)),
            None => parse_document(s@) is None,
        },
{
    let header = make_header();
    if !check_lit(s, 0, &header) {
        return None;
    }
    let pos = header.len();
    proof {
        assert(pos <= s@.len());
    }
    let empty_tail = make_empty_tail();
    if check_lit(s, pos, &empty_tail) {
        if pos + empty_tail.len() == s.len() {
            let out: Vec<KeyEntry> = Vec::new();
            proof {
                assert(out@.map_values(|e: KeyEntry| e@) =~= Seq::<KeyView>::empty());
            }
            return Some(out);
        } else {
            return None;
        }
    }
    let first = make_first();
    if !check_lit(s, pos, &first) {
        return None;
    }
    let (e, p2) = match parse_entry_exec(s, pos + 1) {
        None => {
            return None;
        },
        Some(x) => x,
    };
    let (rest, p3) = match parse_rest_exec(s, p2) {
        None => {
            return None;
        },
        Some(x) => x,
    };
    let tail = make_tail();
    let slen = s.len();
    let tail_fits = check_lit(s, p3, &tail) && tail.len() <= slen - p3;
    if tail_fits && p3 + tail.len() == slen {
        let mut out: Vec<KeyEntry> = Vec::new();
        let ghost ev = e@;
        out.push(e);
        let mut rest = rest;
        let ghost restv = rest@.map_values(|x: KeyEntry| x@);
        out.append(&mut rest);
        proof {
            assert(out@.map_values(|x: KeyEntry| x@) =~~= seq![ev] + restv);
        }
        Some(out)
    } else {
        None
    }
}

/// A scanned string is plain and ends at a quote.
proof fn lemma_scan_plain(s: Seq<u8>, pos: int)
    requires
        scan_string(s, pos) is Some,
    ensures
        0 <= pos <= scan_string(s, pos)->Some_0 < s.len(),
        s[scan_string(s, pos)->Some_0] == 0x22,
        plain_seq(s.subrange(pos, scan_string(s, pos)->Some_0)),
    decreases s.len() - pos,
{
    let e = scan_string(s, pos)->Some_0;
    if s[pos] == 0x22 {
        assert(s.subrange(pos, pos).len() == 0);
    } else {
        lemma_scan_plain(s, pos + 1);
        assert forall|i: int| 0 <= i < s.subrange(pos, e).len() implies plain_byte(
            #[trigger] s.subrange(pos, e)[i],
        ) by {
            if i > 0 {
                assert(s.subrange(pos, e)[i] == s.subrange(pos + 1, e)[i - 1]);
            }
        }
    }
}

/// A parsed entry is well formed.
proof fn lemma_parse_entry_wf(s: Seq<u8>, pos: int)
    requires
        parse_entry(s, pos) is Some,
    ensures
        entry_wf(parse_entry(s, pos)->Some_0.0),
        pos < parse_entry(s, pos)->Some_0.1 <= s.len(),
{
    let p1 = pos + lit_entry_open().len();
    lemma_scan_plain(s, p1);
    let e1 = scan_string(s, p1)->Some_0;
    let p2 = e1 + lit_alg().len();
    lemma_scan_plain(s, p2);
    let e2 = scan_string(s, p2)->Some_0;
    let p3 = e2 + lit_material().len();
    lemma_scan_plain(s, p3);
}

/// Every entry parsed from the remainder is well formed.
proof fn lemma_parse_rest_wf(s: Seq<u8>, pos: int)
    requires
        parse_rest(s, pos) is Some,
    ensures
        entries_wf(parse_rest(s, pos)->Some_0.0),
        pos <= parse_rest(s, pos)->Some_0.1 <= s.len(),
    decreases s.len() - pos,
{
    if starts_with(s, pos, lit_sep()) {
        lemma_parse_entry_wf(s, pos + 2);
        let (e, p2) = parse_entry(s, pos + 2)->Some_0;
        lemma_parse_rest_wf(s, p2);
        let es = parse_rest(s, p2)->Some_0.0;
        assert forall|i: int| 0 <= i < (seq![e] + es).len() implies entry_wf(
            #[trigger] (seq![e] + es)[i],
        ) by {
            if i > 0 {
                assert((seq![e] + es)[i] == es[i - 1]);
            }
        }
    }
}

/// Every entry of a parsed document is well formed.
proof fn lemma_parse_document_wf(s: Seq<u8>)
    requires
        parse_document(s) is Some,
    ensures
        entries_wf(parse_document(s)->Some_0),
{
    let pos = lit_header().len() as int;
    if starts_with(s, pos, lit_empty_tail()) {
    } else {
        lemma_parse_entry_wf(s, pos + 1);
        let (e, p2) = parse_entry(s, pos + 1)->Some_0;
        lemma_parse_rest_wf(s, p2);
        let es = parse_rest(s, p2)->Some_0.0;
        assert forall|i: int| 0 <= i < (seq![e] + es).len() implies entry_wf(
            #[trigger] (seq![e] + es)[i],
        ) by {
            if i > 0 {
                assert((seq![e] + es)[i] == es[i - 1]);
            }
        }
    }
}

/// The cache file exists but does not hold a well-formed key set.
#[derive(Clone, Copy, Debug, PartialEq, Eq, Structural)]
pub struct ParseError;

/// Reads a key set back from cache-file bytes: accepts exactly the
/// well-formed documents and returns their entries.
pub fn decode_key_set(bytes: &Vec<u8>) -> (r: Result<KeySet, ParseError>)
    ensures
        match r {
            Ok(k) => decode_spec(bytes@) == Some(k@) && k.wf(),
            Err(_) => decode_spec(bytes@) is None,
        },
{
    let parsed = match parse_document_exec(bytes) {
        None => {
            return Err(ParseError);
        },
        Some(v) => v,
    };
    let ghost pv = parsed@.map_values(|e: KeyEntry| e@);
    proof {
        lemma_parse_document_wf(bytes@);
    }
    let mut ks = KeySet::new();
    let n = parsed.len();
    let mut i: usize = 0;
    while i < n
        invariant
            i <= n,
            n == parsed@.len(),
            pv == parsed@.map_values(|e: KeyEntry| e@),
            parse_document(bytes@) == Some(pv),
            entries_wf(pv),
            ks.wf(),
            ks@ == pv.take(i as int),
        decreases n - i,
    {
        let e = parsed[i].duplicate();
        proof {
            assert(e@ == pv[i as int]);
        }
        if ks.contains_kid(&e.kid) {
            proof {
                let j = choose|j: int|
                    0 <= j < ks@.len() && (#[trigger] ks@[j]).kid == e@.kid;
                assert(pv[j] == ks@[j]);
                assert(!kids_unique(pv));
            }
            return Err(ParseError);
        }
        ks.insert(e);
        proof {
            crate::keyset::lemma_find_kid(pv.take(i as int), e@.kid);
            assert(ks@ =~= pv.take(i as int).push(pv[i as int]));
            assert(pv.take(i as int).push(pv[i as int]) =~= pv.take(i as int + 1));
        }
        i += 1;
    }
    proof {
        assert(pv.take(n as int) =~= pv);
    }
    Ok(ks)
}

/// A plain string followed by a quote scans to that quote.
proof fn lemma_scan_of_plain(s: Seq<u8>, pos: int, k: int)
    requires
        0 <= k,
        0 <= pos,
        pos + k < s.len(),
        plain_seq(s.subrange(pos, pos + k)),
        s[pos + k] == 0x22,
    ensures
        scan_string(s, pos) == Some(pos + k),
    decreases k,
{
    if k == 0 {
    } else {
        assert(s[pos] == s.subrange(pos, pos + k)[0]);
        assert(plain_byte(s[pos]));
        assert forall|i: int| 0 <= i < s.subrange(pos + 1, pos + k).len() implies plain_byte(
            #[trigger] s.subrange(pos + 1, pos + k)[i],
        ) by {
            assert(s.subrange(pos + 1, pos + k)[i] == s.subrange(pos, pos + k)[i + 1]);
        }
        lemma_scan_of_plain(s, pos + 1, k - 1);
    }
}

/// A slice of a region of `s` known to equal `t` is the matching slice
/// of `t`.
proof fn lemma_sub_of_eq(s: Seq<u8>, pos: int, t: Seq<u8>, a: int, b: int)
    requires
        0 <= pos,
        pos + t.len() <= s.len(),
        s.subrange(pos, pos + t.len()) == t,
        0 <= a <= b <= t.len(),
    ensures
        s.subrange(pos + a, pos + b) == t.subrange(a, b),
{
    let tl = t.len() as int;
    assert forall|i: int| 0 <= i < b - a implies s.subrange(pos + a, pos + b)[i] == t.subrange(
        a,
        b,
    )[i] by {
        assert(s.subrange(pos + a, pos + b)[i] == s[pos + a + i]);
        assert(s.subrange(pos, pos + tl)[a + i] == s[pos + (a + i)]);
        assert(t.subrange(a, b)[i] == t[a + i]);
    }
    assert(s.subrange(pos + a, pos + b) =~= t.subrange(a, b));
}

/// The byte of `s` at offset `a` into a region known to equal `t`.
proof fn lemma_byte_of_eq(s: Seq<u8>, pos: int, t: Seq<u8>, a: int)
    requires
        0 <= pos,
        pos + t.len() <= s.len(),
        s.subrange(pos, pos + t.len()) == t,
        0 <= a < t.len(),
    ensures
        s[pos + a] == t[a],
{
    let tl = t.len() as int;
    assert(s.subrange(pos, pos + tl)[a] == s[pos + a]);
}

/// An encoded entry parses back to itself.
#[verifier::rlimit(50)]
proof fn lemma_parse_entry_of_encoded(s: Seq<u8>, pos: int, e: KeyView)
    requires
        entry_wf(e),
        0 <= pos,
        pos + encode_entry_spec(e).len() <= s.len(),
        s.subrange(pos, pos + encode_entry_spec(e).len()) == encode_entry_spec(e),
    ensures
        parse_entry(s, pos) == Some((e, pos + encode_entry_spec(e).len())),
{
    let t = encode_entry_spec(e);
    let tl = t.len() as int;
    let l4 = lit_entry_open().len() as int;
    let l5 = lit_alg().len() as int;
    let l6 = lit_material().len() as int;
    let l7 = lit_entry_close().len() as int;
    let kl = e.kid.len() as int;
    let al = e.alg.len() as int;
    let ml = e.material.len() as int;
    assert(tl == l4 + kl + l5 + al + l6 + ml + l7);
    let p1 = pos + l4;
    let e1 = p1 + kl;
    let p2 = e1 + l5;
    let e2 = p2 + al;
    let p3 = e2 + l6;
    let e3 = p3 + ml;
    lemma_sub_of_eq(s, pos, t, 0, l4);
    assert(t.subrange(0, l4) =~= lit_entry_open());
    assert(s.subrange(pos, pos + l4) == s.subrange(pos + 0, pos + l4));
    assert(starts_with(s, pos, lit_entry_open()));
    lemma_sub_of_eq(s, pos, t, l4, l4 + kl);
    assert(t.subrange(l4, l4 + kl) =~= e.kid);
    assert(s.subrange(p1, e1) == e.kid);
    lemma_byte_of_eq(s, pos, t, l4 + kl);
    assert(t[l4 + kl] == lit_alg()[0]);
    assert(s[e1] == 0x22);
    lemma_scan_of_plain(s, p1, kl);
    lemma_sub_of_eq(s, pos, t, l4 + kl, l4 + kl + l5);
    assert(t.subrange(l4 + kl, l4 + kl + l5) =~= lit_alg());
    assert(s.subrange(e1, e1 + l5) == lit_alg());
    assert(starts_with(s, e1, lit_alg()));
    lemma_sub_of_eq(s, pos, t, l4 + kl + l5, l4 + kl + l5 + al);
    assert(t.subrange(l4 + kl + l5, l4 + kl + l5 + al) =~= e.alg);
    assert(s.subrange(p2, e2) == e.alg);
    lemma_byte_of_eq(s, pos, t, l4 + kl + l5 + al);
    assert(t[l4 + kl + l5 + al] == lit_material()[0]);
    assert(s[e2] == 0x22);
    lemma_scan_of_plain(s, p2, al);
    lemma_sub_of_eq(s, pos, t, l4 + kl + l5 + al, l4 + kl + l5 + al + l6);
    assert(t.subrange(l4 + kl + l5 + al, l4 + kl + l5 + al + l6) =~= lit_material());
    assert(s.subrange(e2, e2 + l6) == lit_material());
    assert(starts_with(s, e2, lit_material()));
    lemma_sub_of_eq(s, pos, t, l4 + kl + l5 + al + l6, l4 + kl + l5 + al + l6 + ml);
    assert(t.subrange(l4 + kl + l5 + al + l6, l4 + kl + l5 + al + l6 + ml) =~= e.material);
    assert(s.subrange(p3, e3) == e.material);
    lemma_byte_of_eq(s, pos, t, l4 + kl + l5 + al + l6 + ml);
    assert(t[l4 + kl + l5 + al + l6 + ml] == lit_entry_close()[0]);
    assert(s[e3] == 0x22);
    lemma_scan_of_plain(s, p3, ml);
    lemma_sub_of_eq(s, pos, t, l4 + kl + l5 + al + l6 + ml, tl);
    assert(t.subrange(l4 + kl + l5 + al + l6 + ml, tl) =~= lit_entry_close());
    assert(s.subrange(e3, e3 + l7) == lit_entry_close());
    assert(starts_with(s, e3, lit_entry_close()));
    assert(parse_entry(s, pos)->Some_0.0 =~~= e);
}

/// An encoded remainder, followed by the tail's first byte, parses back
/// to its entries.
proof fn lemma_parse_rest_of_encoded(s: Seq<u8>, pos: int, es: Seq<KeyView>)
    requires
        entries_wf(es),
        0 <= pos,
        pos + encode_rest_spec(es).len() < s.len(),
        s.subrange(pos, pos + encode_rest_spec(es).len()) == encode_rest_spec(es),
        s[pos + encode_rest_spec(es).len()] == 0x0a,
    ensures
        parse_rest(s, pos) == Some((es, pos + encode_rest_spec(es).len())),
    decreases es.len(),
{
    let t = encode_rest_spec(es);
    let tl = t.len() as int;
    if es.len() == 0 {
        assert(tl == 0);
        assert(!starts_with(s, pos, lit_sep())) by {
            if starts_with(s, pos, lit_sep()) {
                assert(s.subrange(pos, pos + 2)[0] == s[pos]);
            }
        }
        assert(parse_rest(s, pos) == Some((Seq::<KeyView>::empty(), pos)));
        assert(Seq::<KeyView>::empty() =~= es);
    } else {
        let ee = encode_entry_spec(es[0]);
        let eel = ee.len() as int;
        let rest = encode_rest_spec(es.skip(1));
        let rl = rest.len() as int;
        assert(tl == 2 + eel + rl);
        lemma_sub_of_eq(s, pos, t, 0, 2);
        assert(t.subrange(0, 2) =~= lit_sep());
        assert(s.subrange(pos + 0, pos + 2) == s.subrange(pos, pos + 2));
        assert(starts_with(s, pos, lit_sep()));
        lemma_sub_of_eq(s, pos, t, 2, 2 + eel);
        assert(t.subrange(2, 2 + eel) =~= ee);
        assert(s.subrange(pos + 2, pos + 2 + eel) == ee);
        assert(entry_wf(es[0]));
        lemma_parse_entry_of_encoded(s, pos + 2, es[0]);
        let p2 = pos + 2 + eel;
        lemma_sub_of_eq(s, pos, t, 2 + eel, tl);
        assert(t.subrange(2 + eel, tl) =~= rest);
        assert(s.subrange(p2, p2 + rl) == rest);
        assert(s[p2 + rl] == 0x0a);
        assert forall|i: int| 0 <= i < es.skip(1).len() implies entry_wf(
            #[trigger] es.skip(1)[i],
        ) by {
            assert(es.skip(1)[i] == es[i + 1]);
        }
        lemma_parse_rest_of_encoded(s, p2, es.skip(1));
        assert(seq![es[0]] + es.skip(1) =~= es);
    }
}

/// A concatenation splits into its two parts.
proof fn lemma_concat_parts(x: Seq<u8>, y: Seq<u8>)
    ensures
        (x + y).subrange(0, x.len() as int) == x,
        (x + y).subrange(x.len() as int, (x + y).len() as int) == y,
{
    assert((x + y).subrange(0, x.len() as int) =~= x);
    assert((x + y).subrange(x.len() as int, (x + y).len() as int) =~= y);
}

/// Round trip: the canonical encoding of a well-formed key set decodes
/// to exactly that key set.
pub proof fn lemma_encode_decode(ks: Seq<KeyView>)
    requires
        keyset_wf(ks),
    ensures
        decode_spec(encode_spec(ks)) == Some(ks),
{
    let s = encode_spec(ks);
    let hl = lit_header().len() as int;
    let sl = s.len() as int;
    if ks.len() == 0 {
        lemma_concat_parts(lit_header(), lit_empty_tail());
        assert(starts_with(s, 0, lit_header())) by {
            assert(s.subrange(0int + 0, 0 + hl) == s.subrange(0, hl));
        }
        assert(starts_with(s, hl, lit_empty_tail())) by {
            assert(s.subrange(hl + 0, hl + lit_empty_tail().len()) == s.subrange(hl, sl));
        }
        assert(parse_document(s) == Some(Seq::<KeyView>::empty()));
        assert(Seq::<KeyView>::empty() =~= ks);
    } else {
        lemma_encode_decode_nonempty(ks);
    }
}

/// The five segments of a non-empty encoding, located by offset.
#[verifier::rlimit(100)]
proof fn lemma_encode_segments(ks: Seq<KeyView>)
    requires
        ks.len() > 0,
    ensures
        encode_spec(ks).len() == lit_header().len() + 1 + encode_entry_spec(ks[0]).len()
            + encode_rest_spec(ks.skip(1)).len() + lit_tail().len(),
        encode_spec(ks).subrange(0, lit_header().len() as int) == lit_header(),
        encode_spec(ks).subrange(
            lit_header().len() as int,
            lit_header().len() as int + 1,
        ) == lit_first(),
        encode_spec(ks).subrange(
            lit_header().len() as int + 1,
            lit_header().len() as int + 1 + encode_entry_spec(ks[0]).len() as int,
        ) == encode_entry_spec(ks[0]),
        encode_spec(ks).subrange(
            lit_header().len() as int + 1 + encode_entry_spec(ks[0]).len() as int,
            lit_header().len() as int + 1 + encode_entry_spec(ks[0]).len() as int
                + encode_rest_spec(ks.skip(1)).len() as int,
        ) == encode_rest_spec(ks.skip(1)),
        encode_spec(ks).subrange(
            lit_header().len() as int + 1 + encode_entry_spec(ks[0]).len() as int
                + encode_rest_spec(ks.skip(1)).len() as int,
            encode_spec(ks).len() as int,
        ) == lit_tail(),
{
    let s = encode_spec(ks);
    let hl = lit_header().len() as int;
    let sl = s.len() as int;
    let ee = encode_entry_spec(ks[0]);
    let eel = ee.len() as int;
    let rest = encode_rest_spec(ks.skip(1));
    let rl = rest.len() as int;
    let tll = lit_tail().len() as int;
    let x4 = lit_header() + lit_first() + ee + rest;
    let x3 = lit_header() + lit_first() + ee;
    let x2 = lit_header() + lit_first();
    assert(s == x4 + lit_tail());
    let x4l = x4.len() as int;
    let x3l = x3.len() as int;
    assert(sl == hl + 1 + eel + rl + tll);
    lemma_concat_parts(x4, lit_tail());
    lemma_concat_parts(x3, rest);
    lemma_concat_parts(x2, ee);
    lemma_concat_parts(lit_header(), lit_first());
    let p2 = hl + 1 + eel;
    let p3 = p2 + rl;
    assert(s.subrange(0, x4l) == x4);
    assert(s.subrange(p3, sl) == lit_tail()) by {
        assert(s.subrange(x4l, sl) == lit_tail());
    }
    lemma_sub_of_eq(s, 0, x4, x3l, x4l);
    assert(s.subrange(p2, p3) == rest) by {
        assert(s.subrange(0 + x3l, 0 + x4l) == x4.subrange(x3l, x4l));
    }
    lemma_sub_of_eq(s, 0, x4, 0, x3l);
    assert(s.subrange(0int + 0, 0 + x3l) == x4.subrange(0, x3l));
    assert(x4.subrange(0, x3l) == x3);
    assert(s.subrange(0, x3l) == x3);
    lemma_sub_of_eq(s, 0, x3, hl + 1, x3l);
    assert(s.subrange(hl + 1, p2) == ee) by {
        assert(s.subrange(0 + (hl + 1), 0 + x3l) == x3.subrange(hl + 1, x3l));
        assert(x2.len() == hl + 1);
        assert(x3.subrange(x2.len() as int, x3l) == ee);
    }
    lemma_sub_of_eq(s, 0, x3, 0, hl + 1);
    assert(s.subrange(0, hl + 1) == x2) by {
        assert(s.subrange(0int + 0, 0 + (hl + 1)) == x3.subrange(0, hl + 1));
        assert(x3.subrange(0, x2.len() as int) == x2);
    }
    lemma_sub_of_eq(s, 0, x2, 0, hl);
    assert(s.subrange(0, hl) == lit_header()) by {
        assert(s.subrange(0int + 0, 0 + hl) == x2.subrange(0, hl));
        assert(x2.subrange(0, hl) == lit_header());
    }
    lemma_sub_of_eq(s, 0, x2, hl, hl + 1);
    assert(s.subrange(hl, hl + 1) == lit_first()) by {
        assert(s.subrange(0 + hl, 0 + (hl + 1)) == x2.subrange(hl, hl + 1));
        assert(x2.subrange(hl, x2.len() as int) == lit_first());
    }
}

/// The round trip for a key set with at least one entry.
#[verifier::rlimit(100)]
proof fn lemma_encode_decode_nonempty(ks: Seq<KeyView>)
    requires
        keyset_wf(ks),
        ks.len() > 0,
    ensures
        decode_spec(encode_spec(ks)) == Some(ks),
{
    let s = encode_spec(ks);
    let hl = lit_header().len() as int;
    let eel = encode_entry_spec(ks[0]).len() as int;
    let rl = encode_rest_spec(ks.skip(1)).len() as int;
    let p2 = hl + 1 + eel;
    let p3 = p2 + rl;
    assert(parse_document(s) == Some(ks)) by {
        lemma_prefix_facts(ks);
        lemma_middle_facts(ks);
        lemma_document_assembly(s, ks[0], ks.skip(1), p2, p3);
        assert(seq![ks[0]] + ks.skip(1) =~= ks);
    }
    lemma_decode_gate(s, ks);
}

/// A parsed document with unique identifiers passes the decoder's gate.
proof fn lemma_decode_gate(s: Seq<u8>, ks: Seq<KeyView>)
    requires
        parse_document(s) == Some(ks),
        keyset_wf(ks),
    ensures
        decode_spec(s) == Some(ks),
{
}

/// The opening of a non-empty encoding: the header, then the newline
/// before the first entry, never the empty list's closing bracket.
#[verifier::rlimit(100)]
proof fn lemma_prefix_facts(ks: Seq<KeyView>)
    requires
        ks.len() > 0,
    ensures
        starts_with(encode_spec(ks), 0, lit_header()),
        !starts_with(encode_spec(ks), lit_header().len() as int, lit_empty_tail()),
        starts_with(encode_spec(ks), lit_header().len() as int, lit_first()),
{
    let s = encode_spec(ks);
    let hl = lit_header().len() as int;
    lemma_encode_segments(ks);
    assert(starts_with(s, 0, lit_header())) by {
        assert(s.subrange(0int + 0, 0 + hl) == s.subrange(0, hl));
    }
    assert(s[hl] == 0x0a) by {
        assert(s.subrange(hl, hl + 1)[0] == s[hl]);
        assert(lit_first()[0] == 0x0a);
    }
    assert(!starts_with(s, hl, lit_empty_tail())) by {
        if starts_with(s, hl, lit_empty_tail()) {
            assert(s.subrange(hl, hl + 4)[0] == s[hl]);
        }
    }
    assert(starts_with(s, hl, lit_first())) by {
        assert(s.subrange(hl + 0, hl + 1) == s.subrange(hl, hl + 1));
    }
}

/// The body of a non-empty encoding: the first entry parses at its
/// offset, the remainder after it, and the tail closes the document.
#[verifier::rlimit(100)]
proof fn lemma_middle_facts(ks: Seq<KeyView>)
    requires
        keyset_wf(ks),
        ks.len() > 0,
    ensures
        parse_entry(encode_spec(ks), lit_header().len() as int + 1) == Some(
            (ks[0], lit_header().len() as int + 1 + encode_entry_spec(ks[0]).len() as int),
        ),
        parse_rest(
            encode_spec(ks),
            lit_header().len() as int + 1 + encode_entry_spec(ks[0]).len() as int,
        ) == Some(
            (
                ks.skip(1),
                lit_header().len() as int + 1 + encode_entry_spec(ks[0]).len() as int
                    + encode_rest_spec(ks.skip(1)).len() as int,
            ),
        ),
        starts_with(
            encode_spec(ks),
            lit_header().len() as int + 1 + encode_entry_spec(ks[0]).len() as int
                + encode_rest_spec(ks.skip(1)).len() as int,
            lit_tail(),
        ),
        lit_header().len() as int + 1 + encode_entry_spec(ks[0]).len() as int + encode_rest_spec(
            ks.skip(1),
        ).len() as int + lit_tail().len() == encode_spec(ks).len(),
{
    let s = encode_spec(ks);
    let hl = lit_header().len() as int;
    let sl = s.len() as int;
    let eel = encode_entry_spec(ks[0]).len() as int;
    let rest = encode_rest_spec(ks.skip(1));
    let rl = rest.len() as int;
    let tll = lit_tail().len() as int;
    let p2 = hl + 1 + eel;
    let p3 = p2 + rl;
    lemma_encode_segments(ks);
    lemma_parse_entry_of_encoded(s, hl + 1, ks[0]);
    assert(s[p3] == 0x0a) by {
        assert(s.subrange(p3, sl)[0] == s[p3]);
        assert(lit_tail()[0] == 0x0a);
    }
    assert(s.subrange(p2, p2 + rl) == rest);
    lemma_parse_rest_of_encoded(s, p2, ks.skip(1));
    assert(starts_with(s, p3, lit_tail())) by {
        assert(s.subrange(p3 + 0, p3 + tll) == s.subrange(p3, sl));
    }
}

/// A document whose pieces parse assembles to its entry list.
proof fn lemma_document_assembly(s: Seq<u8>, e0: KeyView, rest: Seq<KeyView>, p2: int, p3: int)
    requires
        starts_with(s, 0, lit_header()),
        !starts_with(s, lit_header().len() as int, lit_empty_tail()),
        starts_with(s, lit_header().len() as int, lit_first()),
        parse_entry(s, lit_header().len() as int + 1) == Some((e0, p2)),
        parse_rest(s, p2) == Some((rest, p3)),
        starts_with(s, p3, lit_tail()),
        p3 + lit_tail().len() == s.len(),
    ensures
        parse_document(s) == Some(seq![e0] + rest),
{
}

} // verus!
