use vstd::prelude::*;
use vstd::string::StrSliceExecFns;
use crate::collection::{collection_inv, spec_dim, Collection, CollectionView, Config, Distance};
use crate::error::Error;
use crate::record::{MetaView, Metadata, Record, RecordView};
use crate::vector::Vector;

verus! {

broadcast use vstd::string::group_string_axioms;

// A durable snapshot of a collection is a sequence of 64-bit words,
// written out as little-endian bytes:
//   metric tag, dimension tag, dimension value, id counter, record count,
// then per record: id, vector length, one word per component, a metadata
// tag, and the metadata payload (character count and one word per
// character for text; one word for an integer). Components and integers
// are offset so that every word is non-negative; characters are stored as
// their Unicode scalar values.
/// The word standing for a vector component.
pub open spec fn enc_i32(c: i32) -> u64 {
    (c as int + 0x8000_0000) as u64
}

/// The component a word stands for; meaningful for words below 2^32.
pub open spec fn dec_i32(w: u64) -> i32 {
    (w as int - 0x8000_0000) as i32
}

/// The word standing for integer metadata.
pub open spec fn enc_i64(x: i64) -> u64 {
    (x as int + 0x8000_0000_0000_0000) as u64
}

/// The integer a word stands for.
pub open spec fn dec_i64(w: u64) -> i64 {
    (w as int - 0x8000_0000_0000_0000) as i64
}

/// Whether a word is a Unicode scalar value, i.e. stands for a character.
pub open spec fn valid_scalar(w: u64) -> bool {
    w < 0xD800 || (0xE000 <= w && w <= 0x10FFFF)
}

/// The word standing for a character.
pub open spec fn enc_char(c: char) -> u64 {
    c as u64
}

/// The character a word stands for; meaningful for valid scalar words.
pub open spec fn dec_char(w: u64) -> char {
    w as char
}

pub open spec fn enc_seq_i32(s: Seq<i32>) -> Seq<u64> {
    s.map_values(|c: i32| enc_i32(c))
}

pub open spec fn enc_seq_char(s: Seq<char>) -> Seq<u64> {
    s.map_values(|c: char| enc_char(c))
}

/// The words standing for one metadata value.
pub open spec fn enc_meta(m: MetaView) -> Seq<u64> {
    match m {
        MetaView::Text(s) => seq![0u64, s.len() as u64] + enc_seq_char(s),
        MetaView::Integer(x) => seq![1u64, enc_i64(x)],
    }
}

/// The words standing for one record.
pub open spec fn enc_record(r: RecordView) -> Seq<u64> {
    seq![r.vector.len() as u64] + enc_seq_i32(r.vector) + enc_meta(r.data)
}

/// The words standing for one stored item: its id, then the record.
pub open spec fn enc_item(it: (u64, RecordView)) -> Seq<u64> {
    seq![it.0] + enc_record(it.1)
}

/// The words standing for a run of stored items, in order.
pub open spec fn enc_items(items: Seq<(u64, RecordView)>) -> Seq<u64>
    decreases items.len(),
{
    if items.len() == 0 {
        Seq::empty()
    } else {
        enc_item(items[0]) + enc_items(items.drop_first())
    }
}

/// The words standing for a configuration.
pub open spec fn enc_config(c: Config) -> Seq<u64> {
    seq![0u64] + (match c.dimension {
        Some(d) => seq![1u64, d as u64],
        None => seq![0u64, 0u64],
    })
}

/// The whole durable form of a collection value.
pub open spec fn spec_encode(v: CollectionView) -> Seq<u64> {
    enc_config(v.config) + seq![v.next_id, v.items.len() as u64] + enc_items(v.items)
}

/// Every count of the value fits in a word. Views of actual collections
/// always do, their sequences being views of vectors and strings.
pub open spec fn item_bounded(it: (u64, RecordView)) -> bool {
    &&& it.1.vector.len() <= u64::MAX
    &&& match it.1.data {
        MetaView::Text(s) => s.len() <= u64::MAX,
        MetaView::Integer(_) => true,
    }
}

pub open spec fn bounded(v: CollectionView) -> bool {
    &&& v.items.len() <= u64::MAX
    &&& forall|i: int| 0 <= i < v.items.len() ==> item_bounded(#[trigger] v.items[i])
}

/// Encoding distributes over concatenation of item runs.
proof fn lemma_enc_items_concat(a: Seq<(u64, RecordView)>, b: Seq<(u64, RecordView)>)
    ensures
        enc_items(a + b) == enc_items(a) + enc_items(b),
    decreases a.len(),
{
    if a.len() == 0 {
        assert(a + b =~= b);
        assert(enc_items(a) + enc_items(b) =~= enc_items(b));
    } else {
        assert((a + b)[0] == a[0]);
        assert((a + b).len() > 0);
        assert((a + b).drop_first() =~= a.drop_first() + b);
        lemma_enc_items_concat(a.drop_first(), b);
        assert(enc_items(a + b) =~= enc_items(a) + enc_items(b));
    }
}

/// Parse `count` characters from `s` starting at `pos`.
pub open spec fn parse_chars(s: Seq<u64>, pos: int, count: int) -> Option<(Seq<char>, int)>
    decreases count,
{
    if count <= 0 {
        Some((Seq::empty(), pos))
    } else if 0 <= pos < s.len() && valid_scalar(s[pos]) {
        match parse_chars(s, pos + 1, count - 1) {
            Some((cs, p2)) => Some((seq![dec_char(s[pos])] + cs, p2)),
            None => None,
        }
    } else {
        None
    }
}

/// Parse `count` vector components from `s` starting at `pos`.
pub open spec fn parse_comps(s: Seq<u64>, pos: int, count: int) -> Option<(Seq<i32>, int)>
    decreases count,
{
    if count <= 0 {
        Some((Seq::empty(), pos))
    } else if 0 <= pos < s.len() && s[pos] < 0x1_0000_0000 {
        match parse_comps(s, pos + 1, count - 1) {
            Some((cs, p2)) => Some((seq![dec_i32(s[pos])] + cs, p2)),
            None => None,
        }
    } else {
        None
    }
}

/// Parse one metadata value from `s` starting at `pos`.
pub open spec fn parse_meta(s: Seq<u64>, pos: int) -> Option<(MetaView, int)> {
    if 0 <= pos && pos + 2 <= s.len() {
        if s[pos] == 0u64 {
            match parse_chars(s, pos + 2, s[pos + 1] as int) {
                Some((cs, p2)) => Some((MetaView::Text(cs), p2)),
                None => None,
            }
        } else if s[pos] == 1u64 {
            Some((MetaView::Integer(dec_i64(s[pos + 1])), pos + 2))
        } else {
            None
        }
    } else {
        None
    }
}

/// Parse one record from `s` starting at `pos`.
pub open spec fn parse_record(s: Seq<u64>, pos: int) -> Option<(RecordView, int)> {
    if 0 <= pos < s.len() {
        match parse_comps(s, pos + 1, s[pos] as int) {
            Some((vec, p2)) => match parse_meta(s, p2) {
                Some((m, p3)) => Some((RecordView { vector: vec, data: m }, p3)),
                None => None,
            },
            None => None,
        }
    } else {
        None
    }
}

/// Parse `count` stored items from `s` starting at `pos`.
pub open spec fn parse_items(s: Seq<u64>, pos: int, count: int) -> Option<
    (Seq<(u64, RecordView)>, int),
>
    decreases count,
{
    if count <= 0 {
        Some((Seq::empty(), pos))
    } else if 0 <= pos < s.len() {
        match parse_record(s, pos + 1) {
            Some((r, p2)) => match parse_items(s, p2, count - 1) {
                Some((rest, p3)) => Some((seq![(s[pos], r)] + rest, p3)),
                None => None,
            },
            None => None,
        }
    } else {
        None
    }
}

/// Parse a configuration from `s` starting at `pos`.
pub open spec fn parse_config(s: Seq<u64>, pos: int) -> Option<(Config, int)> {
    if 0 <= pos && pos + 3 <= s.len() && s[pos] == 0u64 {
        if s[pos + 1] == 0u64 {
            Some((Config { distance: Distance::Euclidean, dimension: None }, pos + 3))
        } else if s[pos + 1] == 1u64 && s[pos + 2] as int <= usize::MAX as int {
            Some(
                (
                    Config { distance: Distance::Euclidean, dimension: Some(s[pos + 2] as usize) },
                    pos + 3,
                ),
            )
        } else {
            None
        }
    } else {
        None
    }
}

/// The collection value a sequence of durable words stands for, if it is
/// a complete well-formed snapshot; anything else parses to nothing.
pub open spec fn spec_decode(s: Seq<u64>) -> Option<CollectionView> {
    match parse_config(s, 0) {
        Some((cfg, p1)) => if p1 + 2 <= s.len() {
            match parse_items(s, p1 + 2, s[p1 + 1] as int) {
                Some((items, p3)) => if p3 == s.len() {
                    let v = CollectionView { config: cfg, items, next_id: s[p1] };
                    if collection_inv(v) {
                        Some(v)
                    } else {
                        None
                    }
                } else {
                    None
                },
                None => None,
            }
        } else {
            None
        },
        None => None,
    }
}

/// If `s` holds `e` at `pos`, it holds every slice of `e` at the
/// correspondingly shifted position.
proof fn lemma_subrange_of_match(s: Seq<u64>, pos: int, e: Seq<u64>, lo: int, hi: int)
    requires
        0 <= pos,
        pos + e.len() <= s.len(),
        s.subrange(pos, pos + e.len() as int) == e,
        0 <= lo <= hi <= e.len(),
    ensures
        s.subrange(pos + lo, pos + hi) == e.subrange(lo, hi),
{
    assert forall|x: int| 0 <= x < hi - lo implies s.subrange(pos + lo, pos + hi)[x] == e.subrange(
        lo,
        hi,
    )[x] by {
        assert(s[pos + lo + x] == s.subrange(pos, pos + e.len() as int)[lo + x]);
    }
    assert(s.subrange(pos + lo, pos + hi) =~= e.subrange(lo, hi));
}

proof fn lemma_char_round(c: char)
    ensures
        valid_scalar(enc_char(c)),
        dec_char(enc_char(c)) == c,
{
}

proof fn lemma_parse_chars_enc(s: Seq<u64>, pos: int, cs: Seq<char>)
    requires
        0 <= pos,
        pos + cs.len() <= s.len(),
        s.subrange(pos, pos + cs.len()) == enc_seq_char(cs),
    ensures
        parse_chars(s, pos, cs.len() as int) == Some((cs, pos + cs.len())),
    decreases cs.len(),
{
    if cs.len() == 0 {
        assert(parse_chars(s, pos, 0) == Some((Seq::<char>::empty(), pos)));
        assert(cs =~= Seq::<char>::empty());
    } else {
        assert(s[pos] == s.subrange(pos, pos + cs.len())[0]);
        assert(s[pos] == enc_char(cs[0]));
        lemma_char_round(cs[0]);
        let tail = cs.drop_first();
        lemma_subrange_of_match(s, pos, enc_seq_char(cs), 1, cs.len() as int);
        assert(enc_seq_char(cs).subrange(1, cs.len() as int) =~= enc_seq_char(tail));
        assert(s.subrange(pos + 1, pos + 1 + tail.len()) == enc_seq_char(tail));
        lemma_parse_chars_enc(s, pos + 1, tail);
        assert(seq![dec_char(s[pos])] + tail =~= cs);
    }
}

proof fn lemma_i32_round(c: i32)
    ensures
        enc_i32(c) < 0x1_0000_0000,
        dec_i32(enc_i32(c)) == c,
{
}

proof fn lemma_parse_comps_enc(s: Seq<u64>, pos: int, cs: Seq<i32>)
    requires
        0 <= pos,
        pos + cs.len() <= s.len(),
        s.subrange(pos, pos + cs.len()) == enc_seq_i32(cs),
    ensures
        parse_comps(s, pos, cs.len() as int) == Some((cs, pos + cs.len())),
    decreases cs.len(),
{
    if cs.len() == 0 {
        assert(parse_comps(s, pos, 0) == Some((Seq::<i32>::empty(), pos)));
        assert(cs =~= Seq::<i32>::empty());
    } else {
        assert(s[pos] == s.subrange(pos, pos + cs.len())[0]);
        assert(s[pos] == enc_i32(cs[0]));
        lemma_i32_round(cs[0]);
        let tail = cs.drop_first();
        lemma_subrange_of_match(s, pos, enc_seq_i32(cs), 1, cs.len() as int);
        assert(enc_seq_i32(cs).subrange(1, cs.len() as int) =~= enc_seq_i32(tail));
        assert(s.subrange(pos + 1, pos + 1 + tail.len()) == enc_seq_i32(tail));
        lemma_parse_comps_enc(s, pos + 1, tail);
        assert(seq![dec_i32(s[pos])] + tail =~= cs);
    }
}

proof fn lemma_parse_meta_enc(s: Seq<u64>, pos: int, m: MetaView)
    requires
        0 <= pos,
        pos + enc_meta(m).len() <= s.len(),
        s.subrange(pos, pos + enc_meta(m).len()) == enc_meta(m),
        match m {
            MetaView::Text(t) => t.len() <= u64::MAX,
            MetaView::Integer(_) => true,
        },
    ensures
        parse_meta(s, pos) == Some((m, pos + enc_meta(m).len())),
{
    let e = enc_meta(m);
    match m {
        MetaView::Text(t) => {
            assert(e == seq![0u64, t.len() as u64] + enc_seq_char(t));
            assert(e.len() == 2 + t.len());
            assert(s[pos] == e[0] && s[pos + 1] == e[1]);
            assert(s[pos] == 0u64);
            assert(s[pos + 1] == t.len() as u64);
            assert(s[pos + 1] as int == t.len() as int);
            lemma_subrange_of_match(s, pos, e, 2, e.len() as int);
            assert(e.subrange(2, e.len() as int) =~= enc_seq_char(t));
            assert(s.subrange(pos + 2, pos + 2 + t.len()) == enc_seq_char(t));
            lemma_parse_chars_enc(s, pos + 2, t);
        },
        MetaView::Integer(x) => {
            assert(e == seq![1u64, enc_i64(x)]);
            assert(s[pos] == e[0] && s[pos + 1] == e[1]);
            assert(s[pos] == 1u64);
            assert(dec_i64(enc_i64(x)) == x);
        },
    }
}

proof fn lemma_parse_record_enc(s: Seq<u64>, pos: int, r: RecordView)
    requires
        0 <= pos,
        pos + enc_record(r).len() <= s.len(),
        s.subrange(pos, pos + enc_record(r).len()) == enc_record(r),
        r.vector.len() <= u64::MAX,
        match r.data {
            MetaView::Text(t) => t.len() <= u64::MAX,
            MetaView::Integer(_) => true,
        },
    ensures
        parse_record(s, pos) == Some((r, pos + enc_record(r).len())),
{
    let e = enc_record(r);
    let vl = r.vector.len() as int;
    assert(e.len() == 1 + vl + enc_meta(r.data).len());
    assert(s[pos] == e[0]);
    assert(s[pos] == r.vector.len() as u64);
    assert(s[pos] as int == vl);
    lemma_subrange_of_match(s, pos, e, 1, 1 + vl);
    assert(e.subrange(1, 1 + vl) =~= enc_seq_i32(r.vector));
    assert(s.subrange(pos + 1, pos + 1 + vl) == enc_seq_i32(r.vector));
    lemma_parse_comps_enc(s, pos + 1, r.vector);
    lemma_subrange_of_match(s, pos, e, 1 + vl, e.len() as int);
    assert(e.subrange(1 + vl, e.len() as int) =~= enc_meta(r.data));
    assert(s.subrange(pos + 1 + vl, pos + 1 + vl + enc_meta(r.data).len()) == enc_meta(r.data));
    lemma_parse_meta_enc(s, pos + 1 + vl, r.data);
    assert(parse_record(s, pos) == Some(
        (RecordView { vector: r.vector, data: r.data }, pos + e.len()),
    ));
    assert(RecordView { vector: r.vector, data: r.data } == r);
}

proof fn lemma_parse_items_enc(s: Seq<u64>, pos: int, items: Seq<(u64, RecordView)>)
    requires
        0 <= pos,
        pos + enc_items(items).len() <= s.len(),
        s.subrange(pos, pos + enc_items(items).len()) == enc_items(items),
        forall|i: int| 0 <= i < items.len() ==> item_bounded(#[trigger] items[i]),
    ensures
        parse_items(s, pos, items.len() as int) == Some((items, pos + enc_items(items).len())),
    decreases items.len(),
{
    if items.len() == 0 {
        assert(parse_items(s, pos, 0) == Some((Seq::<(u64, RecordView)>::empty(), pos)));
        assert(items =~= Seq::<(u64, RecordView)>::empty());
    } else {
        let it = items[0];
        let tail = items.drop_first();
        let e0 = enc_item(it);
        let e = enc_items(items);
        assert(e == e0 + enc_items(tail));
        assert(e0.len() == 1 + enc_record(it.1).len());
        assert(s[pos] == e[0]);
        assert(e[0] == e0[0]);
        assert(s[pos] == it.0);
        assert(s.subrange(pos + 1, pos + 1 + enc_record(it.1).len()) =~= enc_record(it.1)) by {
            assert forall|x: int| 0 <= x < enc_record(it.1).len() implies s.subrange(
                pos + 1,
                pos + 1 + enc_record(it.1).len(),
            )[x] == enc_record(it.1)[x] by {
                assert(s[pos + 1 + x] == s.subrange(pos, pos + e.len())[1 + x]);
                assert(e[1 + x] == e0[1 + x]);
                assert(e0[1 + x] == enc_record(it.1)[x]);
            }
        }
        assert(item_bounded(it));
        lemma_parse_record_enc(s, pos + 1, it.1);
        let p2 = pos + 1 + enc_record(it.1).len();
        assert(s.subrange(p2, p2 + enc_items(tail).len()) =~= enc_items(tail)) by {
            assert forall|x: int| 0 <= x < enc_items(tail).len() implies s.subrange(
                p2,
                p2 + enc_items(tail).len(),
            )[x] == enc_items(tail)[x] by {
                assert(s[p2 + x] == s.subrange(pos, pos + e.len())[e0.len() + x]);
                assert(e[e0.len() + x] == enc_items(tail)[x]);
            }
        }
        assert forall|i: int| 0 <= i < tail.len() implies item_bounded(#[trigger] tail[i]) by {
            assert(tail[i] == items[i + 1]);
        }
        lemma_parse_items_enc(s, p2, tail);
        assert(seq![(s[pos], it.1)] + tail =~= items);
    }
}

/// Decoding inverts encoding: every well-formed, bounded collection value
/// comes back exactly from its durable words. Together with the contracts
/// of `save_collection` and `get_collection`, a saved collection is
/// retrieved with an identical record set.
pub proof fn lemma_encode_decode(v: CollectionView)
    requires
        collection_inv(v),
        bounded(v),
    ensures
        spec_decode(spec_encode(v)) == Some(v),
{
    let s = spec_encode(v);
    let hd = enc_config(v.config) + seq![v.next_id, v.items.len() as u64];
    assert(s =~= hd + enc_items(v.items));
    assert(hd.len() == 5);
    assert(s[0] == 0u64);
    match v.config.dimension {
        Some(d) => {
            assert(s[1] == 1u64);
            assert(s[2] == d as u64);
            assert(s[2] as int <= usize::MAX as int);
            assert(parse_config(s, 0) == Some((v.config, 3int))) by {
                assert(s[2] as usize == d);
                assert(Config { distance: Distance::Euclidean, dimension: Some(s[2] as usize) }
                    == v.config);
            }
        },
        None => {
            assert(s[1] == 0u64);
            assert(parse_config(s, 0) == Some((v.config, 3int))) by {
                assert(Config { distance: Distance::Euclidean, dimension: None::<usize> }
                    == v.config);
            }
        },
    }
    assert(s[3] == v.next_id);
    assert(s[4] == v.items.len() as u64);
    assert(s[4] as int == v.items.len() as int);
    assert(s.subrange(5, 5 + enc_items(v.items).len() as int) =~= enc_items(v.items));
    lemma_parse_items_enc(s, 5, v.items);
    assert(parse_items(s, 5, v.items.len() as int) == Some((v.items, s.len() as int)));
    assert(CollectionView { config: v.config, items: v.items, next_id: s[3] } == v);
}

/// Relies on char::from_u32: the conversion succeeds exactly on Unicode
/// scalar values (no surrogate, at most 0x10FFFF) and yields the
/// character with that scalar value.
pub assume_specification[ char::from_u32 ](v: u32) -> (r: Option<char>)
    ensures
        r is Some <==> (v < 0xD800 || (0xE000 <= v && v <= 0x10FFFF)),
        r is Some ==> r.unwrap() == v as char,
;

/// Relies on String::push: appends exactly the one character.
#[verifier::external_body]
fn push_char(s: &mut String, c: char)
    ensures
        final(s)@ == old(s)@.push(c),
{
    s.push(c);
}

/// The whole parse of `count0` characters from `pos0` equals the
/// characters gathered so far followed by whatever a parse of the
/// remaining `rem` from `p` yields.
spec fn chars_cont(s: Seq<u64>, pos0: int, count0: int, acc: Seq<char>, p: int, rem: int) -> bool {
    parse_chars(s, pos0, count0) == (match parse_chars(s, p, rem) {
        Some((cs, q)) => Some((acc + cs, q)),
        None => None::<(Seq<char>, int)>,
    })
}

fn parse_chars_exec(s: &Vec<u64>, pos: usize, count: u64) -> (r: Option<(String, usize)>)
    requires
        pos <= s@.len(),
    ensures
        match r {
            Some(v) => parse_chars(s@, pos as int, count as int) == Some((v.0@, v.1 as int))
                && v.1 <= s@.len(),
            None => parse_chars(s@, pos as int, count as int) is None,
        },
{
    let mut text = String::new();
    let mut p = pos;
    let mut rem = count;
    proof {
        assert(text@ =~= Seq::<char>::empty());
        if parse_chars(s@, pos as int, count as int) is Some {
            let (cs, q) = parse_chars(s@, pos as int, count as int).unwrap();
            assert(text@ + cs =~= cs);
        }
    }
    while rem > 0
        invariant
            p <= s@.len(),
            chars_cont(s@, pos as int, count as int, text@, p as int, rem as int),
        decreases rem,
    {
        if p >= s.len() {
            return None;
        }
        let w = s[p];
        if !(w < 0xD800 || (0xE000 <= w && w <= 0x10FFFF)) {
            return None;
        }
        let c = match char::from_u32(w as u32) {
            Some(c) => c,
            None => {
                proof {
                    assert(false);
                }
                return None;
            },
        };
        proof {
            assert(c == (w as u32) as char);
            assert(w as u32 == w);
            assert(c == dec_char(w));
        }
        let ghost old_text = text@;
        push_char(&mut text, c);
        proof {
            let pc = parse_chars(s@, p + 1, rem - 1);
            if pc is Some {
                let (cs2, q) = pc.unwrap();
                assert(parse_chars(s@, p as int, rem as int) == Some(
                    (seq![dec_char(s@[p as int])] + cs2, q),
                ));
                assert(old_text + (seq![c] + cs2) =~= text@ + cs2);
            } else {
                assert(parse_chars(s@, p as int, rem as int) is None);
            }
        }
        p = p + 1;
        rem = rem - 1;
    }
    proof {
        assert(parse_chars(s@, p as int, 0) == Some((Seq::<char>::empty(), p as int)));
        assert(text@ + Seq::<char>::empty() =~= text@);
    }
    Some((text, p))
}

/// As `chars_cont`, for vector components.
spec fn comps_cont(s: Seq<u64>, pos0: int, count0: int, acc: Seq<i32>, p: int, rem: int) -> bool {
    parse_comps(s, pos0, count0) == (match parse_comps(s, p, rem) {
        Some((cs, q)) => Some((acc + cs, q)),
        None => None::<(Seq<i32>, int)>,
    })
}

fn parse_comps_exec(s: &Vec<u64>, pos: usize, count: u64) -> (r: Option<(Vec<i32>, usize)>)
    requires
        pos <= s@.len(),
    ensures
        match r {
            Some(v) => parse_comps(s@, pos as int, count as int) == Some((v.0@, v.1 as int))
                && v.1 <= s@.len(),
            None => parse_comps(s@, pos as int, count as int) is None,
        },
{
    let mut comps: Vec<i32> = Vec::new();
    let mut p = pos;
    let mut rem = count;
    proof {
        assert(comps@ =~= Seq::<i32>::empty());
        if parse_comps(s@, pos as int, count as int) is Some {
            let (cs, q) = parse_comps(s@, pos as int, count as int).unwrap();
            assert(comps@ + cs =~= cs);
        }
    }
    while rem > 0
        invariant
            p <= s@.len(),
            comps_cont(s@, pos as int, count as int, comps@, p as int, rem as int),
        decreases rem,
    {
        if p >= s.len() {
            return None;
        }
        let w = s[p];
        if w >= 0x1_0000_0000 {
            return None;
        }
        let c = ((w as i64) - 0x8000_0000) as i32;
        proof {
            assert(c == dec_i32(w));
        }
        let ghost old_comps = comps@;
        comps.push(c);
        proof {
            let pc = parse_comps(s@, p + 1, rem - 1);
            if pc is Some {
                let (cs2, q) = pc.unwrap();
                assert(parse_comps(s@, p as int, rem as int) == Some(
                    (seq![dec_i32(s@[p as int])] + cs2, q),
                ));
                assert(old_comps + (seq![c] + cs2) =~= comps@ + cs2);
            } else {
                assert(parse_comps(s@, p as int, rem as int) is None);
            }
        }
        p = p + 1;
        rem = rem - 1;
    }
    proof {
        assert(parse_comps(s@, p as int, 0) == Some((Seq::<i32>::empty(), p as int)));
        assert(comps@ + Seq::<i32>::empty() =~= comps@);
    }
    Some((comps, p))
}

fn parse_meta_exec(s: &Vec<u64>, pos: usize) -> (r: Option<(Metadata, usize)>)
    requires
        pos <= s@.len(),
    ensures
        match r {
            Some(v) => parse_meta(s@, pos as int) == Some((v.0@, v.1 as int)) && v.1 <= s@.len(),
            None => parse_meta(s@, pos as int) is None,
        },
{
    if s.len() < 2 || pos > s.len() - 2 {
        return None;
    }
    let tag = s[pos];
    if tag == 0 {
        let cnt = s[pos + 1];
        match parse_chars_exec(s, pos + 2, cnt) {
            Some((text, p2)) => Some((Metadata::Text(text), p2)),
            None => None,
        }
    } else if tag == 1 {
        let w = s[pos + 1];
        let x = ((w as i128) - 0x8000_0000_0000_0000) as i64;
        proof {
            assert(x == dec_i64(w));
        }
        Some((Metadata::Integer(x), pos + 2))
    } else {
        None
    }
}

fn parse_record_exec(s: &Vec<u64>, pos: usize) -> (r: Option<(Record, usize)>)
    requires
        pos <= s@.len(),
    ensures
        match r {
            Some(v) => parse_record(s@, pos as int) == Some((v.0@, v.1 as int)) && v.1 <= s@.len(),
            None => parse_record(s@, pos as int) is None,
        },
{
    if pos >= s.len() {
        return None;
    }
    let vlen = s[pos];
    let (comps, p2) = match parse_comps_exec(s, pos + 1, vlen) {
        Some(x) => x,
        None => {
            return None;
        },
    };
    let (meta, p3) = match parse_meta_exec(s, p2) {
        Some(x) => x,
        None => {
            return None;
        },
    };
    let rec = Record { vector: Vector(comps), data: meta };
    Some((rec, p3))
}

/// As `chars_cont`, for stored items.
spec fn items_cont(
    s: Seq<u64>,
    pos0: int,
    count0: int,
    acc: Seq<(u64, RecordView)>,
    p: int,
    rem: int,
) -> bool {
    parse_items(s, pos0, count0) == (match parse_items(s, p, rem) {
        Some((its, q)) => Some((acc + its, q)),
        None => None::<(Seq<(u64, RecordView)>, int)>,
    })
}

fn parse_items_exec(s: &Vec<u64>, pos: usize, count: u64) -> (r: Option<(Vec<(u64, Record)>, usize)>)
    requires
        pos <= s@.len(),
    ensures
        match r {
            Some(v) => parse_items(s@, pos as int, count as int) == Some(
                (crate::collection::items_view(v.0@), v.1 as int),
            ) && v.1 <= s@.len(),
            None => parse_items(s@, pos as int, count as int) is None,
        },
{
    let mut items: Vec<(u64, Record)> = Vec::new();
    let mut p = pos;
    let mut rem = count;
    proof {
        assert(crate::collection::items_view(items@) =~= Seq::<(u64, RecordView)>::empty());
        if parse_items(s@, pos as int, count as int) is Some {
            let (its, q) = parse_items(s@, pos as int, count as int).unwrap();
            assert(crate::collection::items_view(items@) + its =~= its);
        }
    }
    while rem > 0
        invariant
            p <= s@.len(),
            items_cont(
                s@,
                pos as int,
                count as int,
                crate::collection::items_view(items@),
                p as int,
                rem as int,
            ),
        decreases rem,
    {
        if p >= s.len() {
            return None;
        }
        let id = s[p];
        let (rec, p2) = match parse_record_exec(s, p + 1) {
            Some(x) => x,
            None => {
                proof {
                    assert(parse_items(s@, p as int, rem as int) is None);
                }
                return None;
            },
        };
        let ghost old_view = crate::collection::items_view(items@);
        items.push((id, rec));
        proof {
            assert(crate::collection::items_view(items@) =~= old_view.push((id, rec@)));
            let pc = parse_items(s@, p2 as int, rem - 1);
            if pc is Some {
                let (its2, q) = pc.unwrap();
                assert(parse_items(s@, p as int, rem as int) == Some(
                    (seq![(s@[p as int], rec@)] + its2, q),
                ));
                assert(old_view + (seq![(id, rec@)] + its2) =~= crate::collection::items_view(
                    items@,
                ) + its2);
            } else {
                assert(parse_items(s@, p as int, rem as int) is None);
            }
        }
        p = p2;
        rem = rem - 1;
    }
    proof {
        assert(parse_items(s@, p as int, 0) == Some((Seq::<(u64, RecordView)>::empty(), p as int)));
        assert(crate::collection::items_view(items@) + Seq::<(u64, RecordView)>::empty()
            =~= crate::collection::items_view(items@));
    }
    Some((items, p))
}

/// Ids strictly ascend when every adjacent pair does.
proof fn lemma_adjacent_ascending(items: Seq<(u64, RecordView)>, i: int, j: int)
    requires
        forall|t: int| 0 <= t < items.len() - 1 ==> (#[trigger] items[t]).0 < items[t + 1].0,
        0 <= i < j < items.len(),
    ensures
        items[i].0 < items[j].0,
    decreases j - i,
{
    if j > i + 1 {
        lemma_adjacent_ascending(items, i, j - 1);
    }
}

/// Decide whether a parsed collection value is well-formed.
fn check_inv(c: &Collection) -> (r: bool)
    ensures
        r == collection_inv(c@),
{
    let ghost v = c@;
    let n = c.items.len();
    if n == 0 {
        return true;
    }
    let d: usize = match c.config.dimension {
        Some(dim) => dim,
        None => c.items[0].1.vector.0.len(),
    };
    proof {
        assert(v.items[0] == crate::collection::items_view(c.items@)[0]);
        assert(d as int == spec_dim(v).unwrap());
    }
    let mut i: usize = 0;
    while i < n
        invariant
            i <= n,
            n == c.items@.len(),
            v == c@,
            v.items.len() == n,
            d as int == spec_dim(v).unwrap(),
            forall|t: int| 0 <= t < i ==> (#[trigger] v.items[t]).0 < v.next_id,
            forall|t: int| 0 <= t < i && t + 1 < n ==> (#[trigger] v.items[t]).0 < v.items[t + 1].0,
            forall|t: int|
                0 <= t < i ==> (#[trigger] v.items[t]).1.vector.len() == spec_dim(v).unwrap(),
        decreases n - i,
    {
        proof {
            assert(v.items[i as int] == crate::collection::items_view(c.items@)[i as int]);
            if i + 1 < n {
                assert(v.items[i + 1] == crate::collection::items_view(c.items@)[i + 1]);
            }
        }
        if c.items[i].0 >= c.next_id {
            return false;
        }
        if i + 1 < n && c.items[i].0 >= c.items[i + 1].0 {
            proof {
                assert(!collection_inv(v));
            }
            return false;
        }
        if c.items[i].1.vector.0.len() != d {
            return false;
        }
        i = i + 1;
    }
    proof {
        assert forall|a: int, b: int| 0 <= a < b < v.items.len() implies (#[trigger] v.items[a]).0
            < (#[trigger] v.items[b]).0 by {
            lemma_adjacent_ascending(v.items, a, b);
        }
    }
    true
}

/// Rebuild a collection from its durable words. Anything that is not a
/// complete well-formed snapshot is rejected.
pub fn decode_collection(words: &Vec<u64>) -> (r: Result<Collection, Error>)
    ensures
        match r {
            Ok(c) => spec_decode(words@) == Some(c@) && c.wf(),
            Err(e) => e == Error::PersistenceFailure && spec_decode(words@) is None,
        },
{
    if words.len() < 3 || words[0] != 0 {
        return Err(Error::PersistenceFailure);
    }
    let dim: Option<usize> = if words[1] == 0 {
        None
    } else if words[1] == 1 {
        let w2 = words[2];
        if w2 > usize::MAX as u64 {
            return Err(Error::PersistenceFailure);
        }
        Some(w2 as usize)
    } else {
        return Err(Error::PersistenceFailure);
    };
    let config = Config { distance: Distance::Euclidean, dimension: dim };
    proof {
        assert(parse_config(words@, 0) == Some((config, 3int)));
    }
    if words.len() < 5 {
        return Err(Error::PersistenceFailure);
    }
    let next_id = words[3];
    let count = words[4];
    let (items, p3) = match parse_items_exec(words, 5, count) {
        Some(x) => x,
        None => {
            return Err(Error::PersistenceFailure);
        },
    };
    if p3 != words.len() {
        return Err(Error::PersistenceFailure);
    }
    let c = Collection { config, items, next_id };
    if !check_inv(&c) {
        return Err(Error::PersistenceFailure);
    }
    proof {
        assert(spec_decode(words@) == Some(c@));
    }
    Ok(c)
}

/// Turn a collection into its durable words.
pub fn encode_collection(c: &Collection) -> (out: Vec<u64>)
    ensures
        out@ == spec_encode(c@),
        bounded(c@),
{
    let ghost v = c@;
    let mut out: Vec<u64> = Vec::new();
    out.push(0u64);
    match c.config.dimension {
        Some(d) => {
            out.push(1u64);
            out.push(d as u64);
        },
        None => {
            out.push(0u64);
            out.push(0u64);
        },
    }
    out.push(c.next_id);
    out.push(c.items.len() as u64);
    let ghost header = enc_config(v.config) + seq![v.next_id, v.items.len() as u64];
    proof {
        assert(enc_items(v.items.take(0)) == Seq::<u64>::empty()) by {
            assert(v.items.take(0).len() == 0);
        }
        assert(out@ =~= header + enc_items(v.items.take(0)));
    }
    let mut i: usize = 0;
    while i < c.items.len()
        invariant
            i <= c.items@.len(),
            v == c@,
            v.items.len() == c.items@.len(),
            header == enc_config(v.config) + seq![v.next_id, v.items.len() as u64],
            out@ == header + enc_items(v.items.take(i as int)),
            forall|t: int| 0 <= t < i ==> item_bounded(#[trigger] v.items[t]),
        decreases c.items@.len() - i,
    {
        let ghost pre_out = out@;
        proof {
            assert(v.items[i as int] == crate::collection::items_view(c.items@)[i as int]);
        }
        let item = &c.items[i];
        out.push(item.0);
        let vlen = item.1.vector.0.len();
        out.push(vlen as u64);
        let mut j: usize = 0;
        while j < vlen
            invariant
                j <= vlen,
                vlen == item.1.vector.0@.len(),
                out@ == pre_out + seq![item.0, vlen as u64] + enc_seq_i32(
                    item.1.vector.0@.take(j as int),
                ),
            decreases vlen - j,
        {
            let comp = item.1.vector.0[j];
            out.push(((comp as i64) + 0x8000_0000) as u64);
            proof {
                assert(enc_seq_i32(item.1.vector.0@.take(j + 1)) =~= enc_seq_i32(
                    item.1.vector.0@.take(j as int),
                ).push(enc_i32(item.1.vector.0@[j as int])));
                assert(out@ =~= pre_out + seq![item.0, vlen as u64] + enc_seq_i32(
                    item.1.vector.0@.take(j + 1),
                ));
            }
            j = j + 1;
        }
        proof {
            assert(item.1.vector.0@.take(vlen as int) =~= item.1.vector.0@);
        }
        let ghost with_vec = pre_out + seq![item.0, vlen as u64] + enc_seq_i32(item.1.vector.0@);
        match &item.1.data {
            Metadata::Text(s) => {
                out.push(0u64);
                let slen = s.as_str().unicode_len();
                out.push(slen as u64);
                let mut j: usize = 0;
                while j < slen
                    invariant
                        j <= slen,
                        slen == s@.len(),
                        out@ == with_vec + seq![0u64, slen as u64] + enc_seq_char(
                            s@.take(j as int),
                        ),
                    decreases slen - j,
                {
                    let ch = s.as_str().get_char(j);
                    out.push(ch as u64);
                    proof {
                        assert(enc_seq_char(s@.take(j + 1)) =~= enc_seq_char(
                            s@.take(j as int),
                        ).push(enc_char(s@[j as int])));
                        assert(out@ =~= with_vec + seq![0u64, slen as u64] + enc_seq_char(
                            s@.take(j + 1),
                        ));
                    }
                    j = j + 1;
                }
                proof {
                    assert(s@.take(slen as int) =~= s@);
                    assert(out@ =~= with_vec + enc_meta(item.1@.data));
                    assert(item_bounded(v.items[i as int]));
                }
            },
            Metadata::Integer(x) => {
                out.push(1u64);
                out.push(((*x as i128) + 0x8000_0000_0000_0000) as u64);
                proof {
                    assert(out@ =~= with_vec + enc_meta(item.1@.data));
                    assert(item_bounded(v.items[i as int]));
                }
            },
        }
        proof {
            assert(out@ =~= pre_out + enc_item(v.items[i as int]));
            assert(v.items.take(i + 1) =~= v.items.take(i as int) + seq![v.items[i as int]]);
            lemma_enc_items_concat(v.items.take(i as int), seq![v.items[i as int]]);
            let s1 = seq![v.items[i as int]];
            assert(s1[0] == v.items[i as int]);
            assert(s1.drop_first().len() == 0);
            assert(enc_items(s1.drop_first()) == Seq::<u64>::empty());
            assert(enc_items(s1) == enc_item(v.items[i as int]) + enc_items(s1.drop_first()));
            assert(enc_items(s1) =~= enc_item(v.items[i as int]));
            assert(out@ =~= header + enc_items(v.items.take(i + 1)));
            assert(item_bounded(v.items[i as int]));
        }
        i = i + 1;
    }
    proof {
        assert(v.items.take(v.items.len() as int) =~= v.items);
        assert(out@ =~= spec_encode(v));
        assert(bounded(v));
    }
    out
}

/// The little-endian bytes of a run of words, eight per word, in order.
pub open spec fn words_to_bytes(ws: Seq<u64>) -> Seq<u8>
    decreases ws.len(),
{
    if ws.len() == 0 {
        Seq::empty()
    } else {
        vstd::bytes::spec_u64_to_le_bytes(ws[0]) + words_to_bytes(ws.drop_first())
    }
}

/// The words read back from little-endian bytes, eight bytes at a time.
pub open spec fn bytes_to_words(bs: Seq<u8>) -> Seq<u64> {
    Seq::new(bs.len() / 8, |i: int| vstd::bytes::spec_u64_from_le_bytes(
        bs.subrange(8 * i, 8 * i + 8),
    ))
}

proof fn lemma_words_to_bytes_concat(a: Seq<u64>, b: Seq<u64>)
    ensures
        words_to_bytes(a + b) == words_to_bytes(a) + words_to_bytes(b),
    decreases a.len(),
{
    if a.len() == 0 {
        assert(a + b =~= b);
        assert(words_to_bytes(a) + words_to_bytes(b) =~= words_to_bytes(b));
    } else {
        assert((a + b)[0] == a[0]);
        assert((a + b).len() > 0);
        assert((a + b).drop_first() =~= a.drop_first() + b);
        lemma_words_to_bytes_concat(a.drop_first(), b);
        assert(words_to_bytes(a + b) =~= words_to_bytes(a) + words_to_bytes(b));
    }
}

proof fn lemma_words_to_bytes_len(ws: Seq<u64>)
    ensures
        words_to_bytes(ws).len() == 8 * ws.len(),
    decreases ws.len(),
{
    vstd::bytes::lemma_auto_spec_u64_to_from_le_bytes();
    if ws.len() > 0 {
        lemma_words_to_bytes_len(ws.drop_first());
    }
}

/// Reading the bytes of a run of words eight at a time gives the words
/// back.
proof fn lemma_words_bytes_round(ws: Seq<u64>)
    ensures
        words_to_bytes(ws).len() == 8 * ws.len(),
        bytes_to_words(words_to_bytes(ws)) == ws,
    decreases ws.len(),
{
    vstd::bytes::lemma_auto_spec_u64_to_from_le_bytes();
    lemma_words_to_bytes_len(ws);
    let bs = words_to_bytes(ws);
    vstd::arithmetic::div_mod::lemma_div_multiples_vanish(ws.len() as int, 8);
    assert(bs.len() / 8 == ws.len());
    if ws.len() == 0 {
        assert(bytes_to_words(bs) =~= ws);
    } else {
        let tail = ws.drop_first();
        lemma_words_bytes_round(tail);
        let head = vstd::bytes::spec_u64_to_le_bytes(ws[0]);
        let bt = words_to_bytes(tail);
        assert(bs == head + bt);
        assert(head.len() == 8);
        assert forall|i: int| 0 <= i < ws.len() implies bytes_to_words(bs)[i] == ws[i] by {
            if i == 0 {
                assert(bs.subrange(0, 8) =~= head);
            } else {
                assert(bs.subrange(8 * i, 8 * i + 8) =~= bt.subrange(
                    8 * (i - 1),
                    8 * (i - 1) + 8,
                ));
                assert(bytes_to_words(bt)[i - 1] == tail[i - 1]);
            }
        }
        assert(bytes_to_words(bs) =~= ws);
    }
}

/// The whole durable byte form of a collection value.
pub open spec fn spec_encode_bytes(v: CollectionView) -> Seq<u8> {
    words_to_bytes(spec_encode(v))
}

/// The collection value a byte sequence stands for, if it is a complete
/// well-formed snapshot.
pub open spec fn spec_decode_bytes(bs: Seq<u8>) -> Option<CollectionView> {
    if bs.len() % 8 == 0 {
        spec_decode(bytes_to_words(bs))
    } else {
        None
    }
}

/// Decoding inverts encoding at the byte level too.
pub proof fn lemma_encode_decode_bytes(v: CollectionView)
    requires
        collection_inv(v),
        bounded(v),
    ensures
        spec_decode_bytes(spec_encode_bytes(v)) == Some(v),
{
    lemma_words_bytes_round(spec_encode(v));
    lemma_encode_decode(v);
    vstd::arithmetic::div_mod::lemma_mod_multiples_basic(spec_encode(v).len() as int, 8);
    assert((spec_encode(v).len() as int) * 8 == 8 * spec_encode(v).len());
}

/// Turn a collection into its durable bytes.
pub fn encode_collection_bytes(c: &Collection) -> (out: Vec<u8>)
    ensures
        out@ == spec_encode_bytes(c@),
        bounded(c@),
{
    let words = encode_collection(c);
    let mut out: Vec<u8> = Vec::new();
    let mut i: usize = 0;
    proof {
        assert(words@.take(0).len() == 0);
        assert(out@ =~= words_to_bytes(words@.take(0)));
    }
    while i < words.len()
        invariant
            i <= words@.len(),
            out@ == words_to_bytes(words@.take(i as int)),
        decreases words@.len() - i,
    {
        let mut b = vstd::bytes::u64_to_le_bytes(words[i]);
        let ghost pre = out@;
        out.append(&mut b);
        proof {
            let w = words@[i as int];
            assert(words@.take(i + 1) =~= words@.take(i as int) + seq![w]);
            lemma_words_to_bytes_concat(words@.take(i as int), seq![w]);
            assert(seq![w].drop_first().len() == 0);
            assert(words_to_bytes(seq![w].drop_first()) == Seq::<u8>::empty());
            assert(seq![w][0] == w);
            assert(words_to_bytes(seq![w]) =~= vstd::bytes::spec_u64_to_le_bytes(w));
            assert(out@ =~= words_to_bytes(words@.take(i + 1)));
        }
        i = i + 1;
    }
    proof {
        assert(words@.take(words@.len() as int) =~= words@);
    }
    out
}

/// Rebuild a collection from its durable bytes. Anything that is not a
/// complete well-formed snapshot is rejected.
pub fn decode_collection_bytes(bytes: &Vec<u8>) -> (r: Result<Collection, Error>)
    ensures
        match r {
            Ok(c) => spec_decode_bytes(bytes@) == Some(c@) && c.wf(),
            Err(e) => e == Error::PersistenceFailure && spec_decode_bytes(bytes@) is None,
        },
{
    if bytes.len() % 8 != 0 {
        return Err(Error::PersistenceFailure);
    }
    let n = bytes.len() / 8;
    proof {
        vstd::arithmetic::div_mod::lemma_fundamental_div_mod(bytes@.len() as int, 8);
        assert(8 * (n as int) == bytes@.len());
    }
    let mut words: Vec<u64> = Vec::new();
    let mut i: usize = 0;
    while i < n
        invariant
            i <= n,
            n == bytes@.len() / 8,
            8 * (n as int) == bytes@.len(),
            bytes@.len() <= usize::MAX,
            words@.len() == i,
            forall|t: int|
                0 <= t < i ==> words@[t] == vstd::bytes::spec_u64_from_le_bytes(
                    bytes@.subrange(8 * t, 8 * t + 8),
                ),
        decreases n - i,
    {
        let lo = 8 * i;
        let hi = lo + 8;
        let sl = vstd::slice::slice_subrange(bytes.as_slice(), lo, hi);
        let w = vstd::bytes::u64_from_le_bytes(sl);
        words.push(w);
        i = i + 1;
    }
    proof {
        assert(words@ =~= bytes_to_words(bytes@));
    }
    decode_collection(&words)
}

} // verus!
