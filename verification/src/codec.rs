//! The canonical binary encoding of edges, packages of deltas and grouped
//! matches, and their stable hash: fields in their order, without padding,
//! variable-sized fields behind their length, integers in the variable-length
//! little-endian form.

use crate::event::{Deltas, DeltasView};
use crate::graph::{Delta, DeltaView, Edge, EdgeView, Node, NodeView};
use crate::ordered::{as_map, keys_of, lemma_entries_unique, strictly_sorted};
use crate::query::{GroupedQueryMatch, MatchEntries, QueryMatch};
use vstd::prelude::*;
use vstd::slice::slice_subrange;
use vstd::string::StringSliceAdditionalSpecFns;
use vstd::utf8::{decode_utf8, encode_utf8, encode_utf8_decode_utf8, valid_utf8};

verus! {

/// The `n` low bytes of a number, the lowest first.
pub open spec fn le_bytes(x: nat, n: nat) -> Seq<u8>
    decreases n,
{
    if n == 0 {
        Seq::empty()
    } else {
        seq![(x % 256) as u8] + le_bytes(x / 256, (n - 1) as nat)
    }
}

/// The variable-length form of an unsigned integer: a number up to 250 is
/// its own single byte; a larger one follows a byte that tells its width
/// (251 for two bytes, 252 for four, 253 for eight), the lowest byte first.
pub open spec fn varint(x: u64) -> Seq<u8> {
    if x <= 250 {
        seq![x as u8]
    } else if x <= 0xffff {
        seq![251u8] + le_bytes(x as nat, 2)
    } else if x <= 0xffff_ffff {
        seq![252u8] + le_bytes(x as nat, 4)
    } else {
        seq![253u8] + le_bytes(x as nat, 8)
    }
}

/// The digest that seahash gives a byte string.
pub uninterp spec fn seahash_digest(bytes: Seq<u8>) -> u64;

/// `bincode::encode_to_vec` on a `u64` with the standard configuration: the
/// variable-length little-endian form of the number, as bincode documents
/// its format.
#[verifier::external_body]
fn encode_u64(x: u64) -> (r: Vec<u8>)
    ensures
        r@ == varint(x),
{
    match bincode::encode_to_vec(x, bincode::config::standard()) {
        Ok(bytes) => bytes,
        Err(_) => Vec::new(),
    }
}

/// `seahash::hash`: the digest of a byte string under seahash's fixed seed.
/// The result depends on the bytes alone.
#[verifier::external_body]
fn seahash_of(bytes: &Vec<u8>) -> (r: u64)
    ensures
        r == seahash_digest(bytes@),
{
    seahash::hash(bytes.as_slice())
}

/// The number that bytes stand for, the lowest byte first.
pub open spec fn le_value(b: Seq<u8>) -> nat
    decreases b.len(),
{
    if b.len() == 0 {
        0
    } else {
        b[0] as nat + 256 * le_value(b.skip(1))
    }
}

/// How many bytes follow a byte that tells a width.
pub open spec fn width_of(marker: u8) -> nat {
    if marker == 251 {
        2
    } else if marker == 252 {
        4
    } else {
        8
    }
}

/// What reading an integer in the variable-length form off the front of
/// `b` gives: the number, and how many bytes it took. `widest` is the
/// highest width byte that the integer's type admits: 252 for 32 bits, 253
/// for 64. A number need not stand in its shortest form to be read.
pub open spec fn varint_at(b: Seq<u8>, widest: u8) -> Option<(nat, nat)> {
    if b.len() == 0 {
        None
    } else if b[0] <= 250 {
        Some((b[0] as nat, 1))
    } else if b[0] > widest || b.len() < 1 + width_of(b[0]) {
        None
    } else {
        Some((le_value(b.subrange(1, 1 + width_of(b[0]) as int)), 1 + width_of(b[0])))
    }
}

/// `bincode::decode_from_slice` for a `u32` with the standard configuration:
/// the number at the front of the bytes in the variable-length little-endian
/// form and how many bytes it took; nothing where the bytes end early or
/// begin with a width byte above that of four bytes.
#[verifier::external_body]
fn decode_u32(bytes: &[u8]) -> (r: Option<(u32, usize)>)
    ensures
        match r {
            Some((x, n)) => varint_at(bytes@, 252) == Some((x as nat, n as nat)),
            None => varint_at(bytes@, 252).is_none(),
        },
{
    bincode::decode_from_slice::<u32, _>(bytes, bincode::config::standard()).ok()
}

/// `bincode::decode_from_slice` for a `u64` with the standard configuration:
/// as for 32 bits, with the width byte of eight bytes admitted too.
#[verifier::external_body]
fn decode_u64(bytes: &[u8]) -> (r: Option<(u64, usize)>)
    ensures
        match r {
            Some((x, n)) => varint_at(bytes@, 253) == Some((x as nat, n as nat)),
            None => varint_at(bytes@, 253).is_none(),
        },
{
    bincode::decode_from_slice::<u64, _>(bytes, bincode::config::standard()).ok()
}

/// `core::str::from_utf8`: the bytes as text, where they are well-formed
/// UTF-8, and nothing where they are not.
#[verifier::external_body]
fn text_of(bytes: &[u8]) -> (r: Option<&str>)
    ensures
        r.is_some() == valid_utf8(bytes@),
        r matches Some(s) ==> encode_utf8(s@) == bytes@,
{
    core::str::from_utf8(bytes).ok()
}

/// What reading a string off the front of `b` gives: the text, and how many
/// bytes it took. The string stands behind the number of its bytes, and its
/// bytes are well-formed UTF-8.
pub open spec fn text_at(b: Seq<u8>) -> Option<(Seq<char>, nat)> {
    match varint_at(b, 253) {
        None => None,
        Some((len, used)) => if used + len <= b.len() && valid_utf8(
            b.subrange(used as int, (used + len) as int),
        ) {
            Some((decode_utf8(b.subrange(used as int, (used + len) as int)), used + len))
        } else {
            None
        },
    }
}

/// What reading the index of an enum's variant off the front of `b` gives.
pub open spec fn index_at(b: Seq<u8>) -> Option<(nat, nat)> {
    varint_at(b, 252)
}

/// Reads the index of an enum's variant off the front of the bytes.
pub fn read_index(bytes: &[u8]) -> (r: Option<(u32, usize)>)
    ensures
        match r {
            Some((x, n)) => index_at(bytes@) == Some((x as nat, n as nat)),
            None => index_at(bytes@).is_none(),
        },
{
    decode_u32(bytes)
}

/// Reads a string off the front of the bytes.
pub fn read_text(bytes: &[u8]) -> (r: Option<(String, usize)>)
    ensures
        match r {
            Some((s, n)) => text_at(bytes@) == Some((s@, n as nat)),
            None => text_at(bytes@).is_none(),
        },
{
    match decode_u64(bytes) {
        None => None,
        Some((len, used)) => {
            if len > (bytes.len() - used) as u64 {
                return None;
            }
            let end: usize = used + len as usize;
            let body = slice_subrange(bytes, used, end);
            match text_of(body) {
                None => None,
                Some(text) => {
                    proof {
                        encode_utf8_decode_utf8(text@);
                    }
                    Some((text.to_owned(), end))
                },
            }
        },
    }
}

/// The number of values that `n` bytes can hold.
pub open spec fn capacity(n: nat) -> nat
    decreases n,
{
    if n == 0 {
        1
    } else {
        256 * capacity((n - 1) as nat)
    }
}

/// The `n` low bytes of a number that fits in them stand for that number.
pub proof fn lemma_le_round_trip(x: nat, n: nat)
    requires
        x < capacity(n),
    ensures
        le_bytes(x, n).len() == n,
        le_value(le_bytes(x, n)) == x,
    decreases n,
{
    if n > 0 {
        let tail = le_bytes(x / 256, (n - 1) as nat);
        assert(x / 256 < capacity((n - 1) as nat)) by (nonlinear_arith)
            requires
                x < 256 * capacity((n - 1) as nat),
        ;
        lemma_le_round_trip(x / 256, (n - 1) as nat);
        assert(le_bytes(x, n).skip(1) =~= tail);
        assert(x == x % 256 + 256 * (x / 256)) by (nonlinear_arith);
    }
}

/// The number of bytes of a number's variable-length form.
pub open spec fn varint_len(x: u64) -> nat {
    if x <= 250 {
        1
    } else if x <= 0xffff {
        3
    } else if x <= 0xffff_ffff {
        5
    } else {
        9
    }
}

/// An integer that was written in the variable-length form is read back as
/// it was, whatever follows it, where the type that it is read as admits
/// its width.
pub proof fn lemma_varint_round_trip(x: u64, widest: u8, tail: Seq<u8>)
    requires
        widest == 253 || (widest == 252 && x <= 0xffff_ffff),
    ensures
        varint(x).len() == varint_len(x),
        varint_at(varint(x) + tail, widest) == Some((x as nat, varint_len(x))),
{
    let b = varint(x) + tail;
    assert(capacity(2) == 0x1_0000 && capacity(4) == 0x1_0000_0000 && capacity(8)
        == 0x1_0000_0000_0000_0000) by {
        reveal_with_fuel(capacity, 9);
    }
    if x > 250 {
        let n: nat = if x <= 0xffff {
            2
        } else if x <= 0xffff_ffff {
            4
        } else {
            8
        };
        lemma_le_round_trip(x as nat, n);
        assert(b.subrange(1, 1 + n as int) =~= le_bytes(x as nat, n));
        assert(b[0] == varint(x)[0]);
    } else {
        assert(b[0] == varint(x)[0]);
    }
}

/// A string that was written behind the number of its bytes is read back
/// as it was, whatever follows it.
pub proof fn lemma_text_round_trip(s: Seq<char>, tail: Seq<u8>)
    requires
        encode_utf8(s).len() <= u64::MAX,
    ensures
        text_at(enc_str(s) + tail) == Some((s, enc_str(s).len())),
{
    let body = encode_utf8(s);
    let len = body.len() as u64;
    let b = enc_str(s) + tail;
    lemma_varint_round_trip(len, 253, body + tail);
    assert(b =~= varint(len) + (body + tail));
    let used = varint_len(len);
    assert(b.subrange(used as int, (used + len) as int) =~= body);
    vstd::utf8::encode_utf8_valid_utf8(s);
    encode_utf8_decode_utf8(s);
}

/// A byte string behind its length.
pub open spec fn enc_bytes(b: Seq<u8>) -> Seq<u8> {
    varint(b.len() as u64) + b
}

/// A string: its UTF-8 bytes behind their number.
pub open spec fn enc_str(s: Seq<char>) -> Seq<u8> {
    enc_bytes(vstd::utf8::encode_utf8(s))
}

/// An optional value: a byte 0, or a byte 1 before the value.
pub open spec fn enc_opt(inner: Option<Seq<u8>>) -> Seq<u8> {
    match inner {
        None => seq![0u8],
        Some(b) => seq![1u8] + b,
    }
}

pub open spec fn enc_opt_str(s: Option<Seq<char>>) -> Seq<u8> {
    enc_opt(
        match s {
            None => None,
            Some(x) => Some(enc_str(x)),
        },
    )
}

pub open spec fn enc_opt_bytes(s: Option<Seq<u8>>) -> Seq<u8> {
    enc_opt(
        match s {
            None => None,
            Some(x) => Some(enc_bytes(x)),
        },
    )
}

pub open spec fn enc_opt_u64(s: Option<u64>) -> Seq<u8> {
    enc_opt(
        match s {
            None => None,
            Some(x) => Some(varint(x)),
        },
    )
}

/// A node: its three names, its class by the position of the variant, and
/// its value.
pub open spec fn enc_node(n: NodeView) -> Seq<u8> {
    enc_opt_str(n.query_node_name) + enc_opt_str(n.instance_node_name) + enc_opt_str(n.node_type)
        + varint(n.node_class.index() as u64) + enc_opt_bytes(n.value_bytes)
}

/// An edge: its two nodes, its type and its two timestamps.
pub open spec fn enc_edge(e: EdgeView) -> Seq<u8> {
    enc_node(e.src) + enc_node(e.trg) + enc_str(e.edge_type) + enc_opt_u64(e.from_timestamp)
        + enc_opt_u64(e.to_timestamp)
}

/// A delta: its two nodes, its type, its timestamp and its kind by the
/// position of the variant.
pub open spec fn enc_delta(d: DeltaView) -> Seq<u8> {
    enc_node(d.src) + enc_node(d.trg) + enc_str(d.edge_type) + varint(d.timestamp) + varint(
        d.delta_type.index() as u64,
    )
}

/// The first `n` deltas, one after the other.
pub open spec fn enc_delta_items(s: Seq<DeltaView>, n: int) -> Seq<u8>
    decreases n,
{
    if n <= 0 {
        Seq::empty()
    } else {
        enc_delta_items(s, n - 1) + enc_delta(s[n - 1])
    }
}

/// A package of deltas: its id, the id and the time of its origin, and its
/// deltas in increasing order behind their number.
pub open spec fn enc_deltas(ds: DeltasView) -> Seq<u8> {
    enc_str(ds.deltas_id) + enc_str(ds.origin_id) + varint(ds.origin_timestamp) + varint(
        ds.deltas.len() as u64,
    ) + enc_delta_items(ds.deltas, ds.deltas.len() as int)
}

/// The first `n` entries of a match, each a query edge before its optional
/// image.
pub open spec fn enc_entries(s: MatchEntries, n: int) -> Seq<u8>
    decreases n,
{
    if n <= 0 {
        Seq::empty()
    } else {
        enc_entries(s, n - 1) + enc_edge(s[n - 1].0) + enc_opt(
            match s[n - 1].1 {
                None => None,
                Some(e) => Some(enc_edge(e)),
            },
        )
    }
}

/// A match: its entries in increasing order of the query edges, behind
/// their number.
pub open spec fn enc_match(s: MatchEntries) -> Seq<u8> {
    varint(s.len() as u64) + enc_entries(s, s.len() as int)
}

/// The first `n` matches, one after the other.
pub open spec fn enc_matches(s: Seq<MatchEntries>, n: int) -> Seq<u8>
    decreases n,
{
    if n <= 0 {
        Seq::empty()
    } else {
        enc_matches(s, n - 1) + enc_match(s[n - 1])
    }
}

/// A grouped match: its matches behind their number.
pub open spec fn enc_grouped(s: Seq<MatchEntries>) -> Seq<u8> {
    varint(s.len() as u64) + enc_matches(s, s.len() as int)
}

pub(crate) fn put_u64(out: &mut Vec<u8>, x: u64)
    ensures
        final(out)@ == old(out)@ + varint(x),
{
    let mut bytes = encode_u64(x);
    out.append(&mut bytes);
}

fn put_len(out: &mut Vec<u8>, n: usize)
    ensures
        final(out)@ == old(out)@ + varint(n as u64),
{
    put_u64(out, n as u64);
}

fn put_bytes(out: &mut Vec<u8>, b: &[u8])
    ensures
        final(out)@ == old(out)@ + enc_bytes(b@),
{
    let ghost start = out@;
    put_len(out, b.len());
    out.extend_from_slice(b);
    assert(out@ =~= start + enc_bytes(b@));
}

pub(crate) fn put_str(out: &mut Vec<u8>, s: &String)
    ensures
        final(out)@ == old(out)@ + enc_str(s@),
{
    put_bytes(out, s.as_str().as_bytes());
}

fn put_opt_str(out: &mut Vec<u8>, s: &Option<String>)
    ensures
        final(out)@ == old(out)@ + enc_opt_str(s.deep_view()),
{
    let ghost start = out@;
    match s {
        None => {
            out.push(0u8);
            assert(out@ =~= start + enc_opt_str(s.deep_view()));
        },
        Some(x) => {
            out.push(1u8);
            put_str(out, x);
            assert(out@ =~= start + enc_opt_str(s.deep_view()));
        },
    }
}

fn put_opt_bytes(out: &mut Vec<u8>, s: &Option<Vec<u8>>)
    ensures
        final(out)@ == old(out)@ + enc_opt_bytes(s.deep_view()),
{
    let ghost start = out@;
    match s {
        None => {
            out.push(0u8);
            assert(out@ =~= start + enc_opt_bytes(s.deep_view()));
        },
        Some(x) => {
            out.push(1u8);
            assert(x.deep_view() =~= x@);
            put_bytes(out, x.as_slice());
            assert(out@ =~= start + enc_opt_bytes(s.deep_view()));
        },
    }
}

fn put_opt_u64(out: &mut Vec<u8>, s: &Option<u64>)
    ensures
        final(out)@ == old(out)@ + enc_opt_u64(*s),
{
    let ghost start = out@;
    match s {
        None => {
            out.push(0u8);
            assert(out@ =~= start + enc_opt_u64(*s));
        },
        Some(x) => {
            out.push(1u8);
            put_u64(out, *x);
            assert(out@ =~= start + enc_opt_u64(*s));
        },
    }
}

proof fn lemma_joined(start: Seq<u8>, a: Seq<u8>, b: Seq<u8>, c: Seq<u8>, d: Seq<u8>, e: Seq<u8>)
    ensures
        start + a + b + c + d + e == start + (a + b + c + d + e),
{
    assert(start + a + b + c + d + e =~= start + (a + b + c + d + e));
}

fn put_node(out: &mut Vec<u8>, n: &Node)
    ensures
        final(out)@ == old(out)@ + enc_node(n@),
{
    let ghost start = out@;
    put_opt_str(out, &n.query_node_name);
    put_opt_str(out, &n.instance_node_name);
    put_opt_str(out, &n.node_type);
    put_u64(out, n.node_class.code() as u64);
    put_opt_bytes(out, &n.value_bytes);
    proof {
        lemma_joined(
            start,
            enc_opt_str(n@.query_node_name),
            enc_opt_str(n@.instance_node_name),
            enc_opt_str(n@.node_type),
            varint(n@.node_class.index() as u64),
            enc_opt_bytes(n@.value_bytes),
        );
    }
}

fn put_edge(out: &mut Vec<u8>, e: &Edge)
    ensures
        final(out)@ == old(out)@ + enc_edge(e@),
{
    let ghost start = out@;
    put_node(out, &e.src);
    put_node(out, &e.trg);
    put_str(out, &e.edge_type);
    put_opt_u64(out, &e.from_timestamp);
    put_opt_u64(out, &e.to_timestamp);
    proof {
        lemma_joined(
            start,
            enc_node(e@.src),
            enc_node(e@.trg),
            enc_str(e@.edge_type),
            enc_opt_u64(e@.from_timestamp),
            enc_opt_u64(e@.to_timestamp),
        );
    }
}

fn put_delta(out: &mut Vec<u8>, d: &Delta)
    ensures
        final(out)@ == old(out)@ + enc_delta(d@),
{
    let ghost start = out@;
    put_node(out, &d.src);
    put_node(out, &d.trg);
    put_str(out, &d.edge_type);
    put_u64(out, d.timestamp);
    put_u64(out, d.delta_type.code() as u64);
    proof {
        lemma_joined(
            start,
            enc_node(d@.src),
            enc_node(d@.trg),
            enc_str(d@.edge_type),
            varint(d@.timestamp),
            varint(d@.delta_type.index() as u64),
        );
    }
}

fn put_match(out: &mut Vec<u8>, m: &QueryMatch)
    ensures
        final(out)@ == old(out)@ + enc_match(m@),
{
    let ghost start = out@;
    let ghost s = m@;
    put_len(out, m.homomorphism.len());
    let ghost head = out@;
    let mut i: usize = 0;
    assert(out@ =~= head + enc_entries(s, 0));
    while i < m.homomorphism.len()
        invariant
            i <= s.len(),
            s == m@,
            out@ == head + enc_entries(s, i as int),
        decreases s.len() - i,
    {
        let ghost before = out@;
        put_edge(out, m.homomorphism.key_at(i));
        match m.homomorphism.value_at(i) {
            None => {
                out.push(0u8);
            },
            Some(e) => {
                out.push(1u8);
                put_edge(out, e);
            },
        }
        assert(out@ =~= head + enc_entries(s, i + 1));
        i = i + 1;
    }
    assert(out@ =~= start + enc_match(s));
}

/// The canonical encoding of an edge.
pub fn encode_edge(e: &Edge) -> (r: Vec<u8>)
    ensures
        r@ == enc_edge(e@),
{
    let mut out: Vec<u8> = Vec::new();
    put_edge(&mut out, e);
    assert(out@ =~= enc_edge(e@));
    out
}

/// The canonical encoding of a package of deltas.
pub fn encode_deltas(ds: &Deltas) -> (r: Vec<u8>)
    ensures
        r@ == enc_deltas(ds@),
{
    let mut out: Vec<u8> = Vec::new();
    let ghost s = ds@.deltas;
    put_str(&mut out, &ds.deltas_id);
    put_str(&mut out, &ds.origin_id);
    put_u64(&mut out, ds.origin_timestamp);
    put_len(&mut out, ds.deltas.len());
    let ghost head = out@;
    let mut i: usize = 0;
    assert(out@ =~= head + enc_delta_items(s, 0));
    while i < ds.deltas.len()
        invariant
            i <= s.len(),
            s == ds.deltas@,
            out@ == head + enc_delta_items(s, i as int),
        decreases s.len() - i,
    {
        put_delta(&mut out, ds.deltas.at(i));
        assert(out@ =~= head + enc_delta_items(s, i + 1));
        i = i + 1;
    }
    assert(out@ =~= enc_deltas(ds@));
    out
}

/// The canonical encoding of a grouped match.
pub fn encode_grouped_match(g: &GroupedQueryMatch) -> (r: Vec<u8>)
    ensures
        r@ == enc_grouped(g@),
{
    let mut out: Vec<u8> = Vec::new();
    let ghost s = g@;
    put_len(&mut out, g.grouped_matches.len());
    let ghost head = out@;
    let mut i: usize = 0;
    assert(out@ =~= head + enc_matches(s, 0));
    while i < g.grouped_matches.len()
        invariant
            i <= s.len(),
            s == g@,
            out@ == head + enc_matches(s, i as int),
        decreases s.len() - i,
    {
        put_match(&mut out, &g.grouped_matches[i]);
        assert(out@ =~= head + enc_matches(s, i + 1));
        i = i + 1;
    }
    assert(out@ =~= enc_grouped(s));
    out
}

/// The digest of a byte string.
pub fn hash_bytes(bytes: &Vec<u8>) -> (r: u64)
    ensures
        r == seahash_digest(bytes@),
{
    seahash_of(bytes)
}

impl Edge {
    /// The stable hash of the edge: the digest of its canonical encoding.
    pub fn stable_hash(&self) -> (r: u64)
        ensures
            r == seahash_digest(enc_edge(self@)),
    {
        let bytes = encode_edge(self);
        seahash_of(&bytes)
    }
}

impl Deltas {
    /// The stable hash of the package: the digest of its canonical encoding.
    pub fn stable_hash(&self) -> (r: u64)
        ensures
            r == seahash_digest(enc_deltas(self@)),
    {
        let bytes = encode_deltas(self);
        seahash_of(&bytes)
    }
}

impl GroupedQueryMatch {
    /// The stable hash of the grouped match: the digest of its canonical
    /// encoding.
    pub fn stable_hash(&self) -> (r: u64)
        ensures
            r == seahash_digest(enc_grouped(self@)),
    {
        let bytes = encode_grouped_match(self);
        seahash_of(&bytes)
    }
}

/// Two grouped matches whose matches are the same maps, one for one, have
/// the same stable hash: the order in which a match was put together does
/// not show in it.
pub proof fn lemma_equal_matches_hash_alike(a: Seq<MatchEntries>, b: Seq<MatchEntries>)
    requires
        a.len() == b.len(),
        forall|i: int| 0 <= i < a.len() ==> strictly_sorted::<Edge>(keys_of(#[trigger] a[i])),
        forall|i: int| 0 <= i < b.len() ==> strictly_sorted::<Edge>(keys_of(#[trigger] b[i])),
        forall|i: int| 0 <= i < a.len() ==> as_map(#[trigger] a[i]) == as_map(b[i]),
    ensures
        seahash_digest(enc_grouped(a)) == seahash_digest(enc_grouped(b)),
{
    assert forall|i: int| 0 <= i < a.len() implies a[i] == b[i] by {
        lemma_entries_unique::<Edge, Option<EdgeView>>(a[i], b[i]);
    }
    assert(a =~= b);
}

} // verus!
