use vstd::prelude::*;
use vstd::string::StrSliceExecFns;
use crate::error::Error;

verus! {

broadcast use vstd::string::group_string_axioms;

/// The chunks of `t` at chunk size `size`: successive runs of `size`
/// characters taken from the front, the final run possibly shorter.
/// A chunk size of zero yields no chunks; callers reject it before
/// reaching this function.
pub open spec fn spec_chunks(t: Seq<char>, size: nat) -> Seq<Seq<char>>
    decreases t.len(),
{
    if size == 0 {
        Seq::empty()
    } else if t.len() == 0 {
        Seq::empty()
    } else if t.len() <= size {
        seq![t]
    } else {
        seq![t.take(size as int)] + spec_chunks(t.skip(size as int), size)
    }
}

/// All the given character runs joined back together, in order.
pub open spec fn concat_all(parts: Seq<Seq<char>>) -> Seq<char>
    decreases parts.len(),
{
    if parts.len() == 0 {
        Seq::empty()
    } else {
        parts[0] + concat_all(parts.drop_first())
    }
}

/// Chunking loses nothing: joining the chunks of `t` in order gives back
/// `t` exactly, for every text and every chunk size of at least one.
pub proof fn lemma_chunks_concat(t: Seq<char>, size: nat)
    requires
        size >= 1,
    ensures
        concat_all(spec_chunks(t, size)) == t,
    decreases t.len(),
{
    if t.len() == 0 {
        assert(concat_all(spec_chunks(t, size)) =~= t);
    } else if t.len() <= size {
        let c = spec_chunks(t, size);
        assert(c == seq![t]);
        assert(c.drop_first() =~= Seq::<Seq<char>>::empty());
        assert(c[0] == t);
        assert(concat_all(c.drop_first()) == Seq::<char>::empty());
        assert(concat_all(c) == t + Seq::<char>::empty());
        assert(t + Seq::<char>::empty() =~= t);
    } else {
        let head = t.take(size as int);
        let tail = t.skip(size as int);
        lemma_chunks_concat(tail, size);
        assert((seq![head] + spec_chunks(tail, size)).drop_first() =~= spec_chunks(
            tail,
            size,
        ));
        assert((seq![head] + spec_chunks(tail, size))[0] == head);
        assert(concat_all(spec_chunks(t, size)) == head + concat_all(spec_chunks(tail, size)));
        assert(head + tail =~= t);
    }
}

/// The shape of the chunking: a text of length `n` falls into
/// `ceil(n / size)` chunks; every chunk but the last holds exactly
/// `size` characters, and the last holds the remainder, between one and
/// `size` characters.
pub proof fn lemma_chunks_shape(t: Seq<char>, size: nat)
    requires
        size >= 1,
    ensures
        spec_chunks(t, size).len() == (t.len() + size - 1) as int / (size as int),
        forall|i: int|
            0 <= i < spec_chunks(t, size).len() - 1 ==> (#[trigger] spec_chunks(t, size)[i]).len()
                == size,
        spec_chunks(t, size).len() > 0 ==> {
            let m = spec_chunks(t, size).len();
            let last = spec_chunks(t, size)[m - 1];
            1 <= last.len() <= size && last.len() == t.len() - (m - 1) * size
        },
    decreases t.len(),
{
    let c = spec_chunks(t, size);
    if t.len() == 0 {
        vstd::arithmetic::div_mod::lemma_basic_div((size - 1) as int, size as int);
    } else if t.len() <= size {
        assert(c == seq![t]);
        vstd::arithmetic::div_mod::lemma_div_plus_one((t.len() - 1) as int, size as int);
        vstd::arithmetic::div_mod::lemma_basic_div((t.len() - 1) as int, size as int);
        assert(c.len() == 1);
        assert(c[0] == t);
        assert(t.len() - 0 * size == t.len());
    } else {
        let head = t.take(size as int);
        let tail = t.skip(size as int);
        lemma_chunks_shape(tail, size);
        let ct = spec_chunks(tail, size);
        assert(c == seq![head] + ct);
        assert(c.len() == 1 + ct.len());
        vstd::arithmetic::div_mod::lemma_div_plus_one(
            (tail.len() + size - 1) as int,
            size as int,
        );
        assert forall|i: int| 0 <= i < c.len() - 1 implies (#[trigger] c[i]).len() == size by {
            if i == 0 {
                assert(c[0] == head);
            } else {
                assert(c[i] == ct[i - 1]);
            }
        }
        assert(ct.len() > 0);
        let m = c.len();
        assert(c[m - 1] == ct[ct.len() - 1]);
        vstd::arithmetic::mul::lemma_mul_is_distributive_add_other_way(
            size as int,
            m - 2,
            1,
        );
        assert((m - 1) * size == (m - 2) * size + size);
    }
}

/// Chunking the empty text yields no chunks, for every chunk size.
pub proof fn lemma_chunks_empty(size: nat)
    ensures
        spec_chunks(Seq::<char>::empty(), size) == Seq::<Seq<char>>::empty(),
{
}

/// Split `text` into chunks of `size` characters each, measured in Unicode
/// scalar values; the final chunk may be shorter. The empty text yields an
/// empty sequence, and a chunk size of zero is rejected.
pub fn chunk(text: &str, size: usize) -> (res: Result<Vec<String>, Error>)
    ensures
        match res {
            Ok(chunks) => size >= 1 && chunks.deep_view() == spec_chunks(
                text@,
                size as nat,
            ),
            Err(e) => size == 0 && e == Error::InvalidConfiguration,
        },
{
    if size == 0 {
        return Err(Error::InvalidConfiguration);
    }
    let n = text.unicode_len();
    let mut chunks: Vec<String> = Vec::new();
    let mut start: usize = 0;
    proof {
        assert(text@.skip(0) =~= text@);
        assert(chunks.deep_view() =~= Seq::<Seq<char>>::empty());
        assert(chunks.deep_view() + spec_chunks(text@.skip(0), size as nat) =~= spec_chunks(
            text@,
            size as nat,
        ));
    }
    while start < n
        invariant
            1 <= size,
            start <= n,
            n == text@.len(),
            spec_chunks(text@, size as nat) == chunks.deep_view() + spec_chunks(
                text@.skip(start as int),
                size as nat,
            ),
        decreases n - start,
    {
        let end = if n - start < size {
            n
        } else {
            start + size
        };
        let piece = text.substring_char(start, end);
        let piece_string = piece.to_string();
        let ghost old_dv = chunks.deep_view();
        chunks.push(piece_string);
        proof {
            let rest = text@.skip(start as int);
            assert(chunks.deep_view() =~= old_dv + seq![piece@]);
            if n - start <= size {
                assert(piece@ =~= rest);
                assert(spec_chunks(rest, size as nat) == seq![rest]);
                assert(text@.skip(end as int).len() == 0);
                assert(spec_chunks(text@.skip(end as int), size as nat)
                    == Seq::<Seq<char>>::empty());
                assert(old_dv + spec_chunks(rest, size as nat) =~= (old_dv + seq![piece@])
                    + spec_chunks(text@.skip(end as int), size as nat));
            } else {
                assert(rest.len() > size);
                assert(piece@ =~= rest.take(size as int));
                assert(rest.skip(size as int) =~= text@.skip(end as int));
                assert(spec_chunks(rest, size as nat) == seq![rest.take(size as int)]
                    + spec_chunks(rest.skip(size as int), size as nat));
                assert(old_dv + spec_chunks(rest, size as nat) =~= (old_dv + seq![piece@])
                    + spec_chunks(text@.skip(end as int), size as nat));
            }
        }
        start = end;
    }
    proof {
        assert(text@.skip(start as int).len() == 0);
        assert(spec_chunks(text@.skip(start as int), size as nat)
            == Seq::<Seq<char>>::empty());
        assert(chunks.deep_view() + Seq::<Seq<char>>::empty() =~= chunks.deep_view());
    }
    Ok(chunks)
}

} // verus!
