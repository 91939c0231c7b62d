//! Byte-level model of line-oriented text: a stream is a sequence of bytes,
//! split at newline bytes into chunks (terminator kept) or lines
//! (terminator stripped), and reassembled by concatenation.

use vstd::prelude::*;

verus! {

/// The newline delimiter byte.
pub open spec fn newline() -> u8 {
    10
}

/// The chunks of `data`: maximal runs of bytes each ending with a newline
/// byte, except that a final run without a terminator is a chunk too.
/// Concatenating the chunks gives back `data` exactly.
pub open spec fn spec_chunks(data: Seq<u8>) -> Seq<Seq<u8>>
    decreases data.len(),
{
    if data.len() == 0 {
        Seq::empty()
    } else if data[0] == newline() {
        seq![seq![newline()]] + spec_chunks(data.skip(1))
    } else {
        let rest = spec_chunks(data.skip(1));
        if rest.len() == 0 {
            seq![seq![data[0]]]
        } else {
            seq![seq![data[0]] + rest[0]] + rest.skip(1)
        }
    }
}

/// `s` with one trailing newline byte removed, if it has one.
pub open spec fn strip_newline(s: Seq<u8>) -> Seq<u8> {
    if s.len() > 0 && s.last() == newline() {
        s.drop_last()
    } else {
        s
    }
}

/// The lines of `data`: its chunks with the newline terminator stripped.
pub open spec fn spec_lines(data: Seq<u8>) -> Seq<Seq<u8>> {
    spec_chunks(data).map_values(|c: Seq<u8>| strip_newline(c))
}

/// Concatenation of a sequence of byte sequences, in order.
pub open spec fn join(xs: Seq<Seq<u8>>) -> Seq<u8>
    decreases xs.len(),
{
    if xs.len() == 0 {
        Seq::empty()
    } else {
        xs[0] + join(xs.skip(1))
    }
}

/// True when `s` contains no newline byte.
pub open spec fn has_no_newline(s: Seq<u8>) -> bool {
    forall|i: int| 0 <= i < s.len() ==> s[i] != newline()
}

pub proof fn lemma_join_push(xs: Seq<Seq<u8>>, x: Seq<u8>)
    ensures
        join(xs.push(x)) == join(xs) + x,
    decreases xs.len(),
{
    if xs.len() == 0 {
        assert(xs.push(x).skip(1) =~= Seq::<Seq<u8>>::empty());
        assert(join(Seq::<Seq<u8>>::empty()) == Seq::<u8>::empty());
        assert(join(xs.push(x)) == xs.push(x)[0] + join(xs.push(x).skip(1)));
        assert(join(xs.push(x)) =~= join(xs) + x);
    } else {
        assert(xs.push(x).skip(1) =~= xs.skip(1).push(x));
        lemma_join_push(xs.skip(1), x);
        assert(join(xs.push(x)) == xs.push(x)[0] + join(xs.skip(1).push(x)));
        assert(join(xs.push(x)) == xs[0] + (join(xs.skip(1)) + x));
        assert(join(xs) == xs[0] + join(xs.skip(1)));
        assert(join(xs.push(x)) =~= join(xs) + x);
    }
}

/// Concatenation splits at any point: the first `k` parts followed by the
/// rest give the whole.
pub proof fn lemma_join_split(xs: Seq<Seq<u8>>, k: int)
    requires
        0 <= k <= xs.len(),
    ensures
        join(xs) == join(xs.take(k)) + join(xs.skip(k)),
    decreases k,
{
    if k == 0 {
        assert(xs.take(0) =~= Seq::<Seq<u8>>::empty());
        assert(xs.skip(0) =~= xs);
        assert(join(xs) =~= join(xs.take(0)) + join(xs.skip(0)));
    } else {
        assert(xs.len() > 0);
        lemma_join_split(xs.skip(1), k - 1);
        assert(xs.skip(1).take(k - 1) =~= xs.take(k).skip(1));
        assert(xs.skip(1).skip(k - 1) =~= xs.skip(k));
        assert(xs.take(k)[0] == xs[0]);
        assert(join(xs.take(k)) == xs[0] + join(xs.take(k).skip(1)));
        assert(join(xs) =~= join(xs.take(k)) + join(xs.skip(k)));
    }
}

/// Every chunk holds at least one byte.
pub proof fn lemma_chunks_nonempty(data: Seq<u8>)
    ensures
        forall|i: int| 0 <= i < spec_chunks(data).len() ==> spec_chunks(data)[i].len() > 0,
    decreases data.len(),
{
    if data.len() == 0 {
    } else {
        lemma_chunks_nonempty(data.skip(1));
        let rest = spec_chunks(data.skip(1));
        assert forall|i: int| 0 <= i < spec_chunks(data).len() implies spec_chunks(data)[i].len()
            > 0 by {
            if data[0] == newline() {
                if i > 0 {
                    assert(spec_chunks(data)[i] == rest[i - 1]);
                }
            } else if rest.len() > 0 {
                if i > 0 {
                    assert(spec_chunks(data)[i] == rest.skip(1)[i - 1]);
                    assert(rest.skip(1)[i - 1] == rest[i]);
                }
            }
        }
    }
}

/// Concatenating the chunks of `data` yields `data` itself.
pub proof fn lemma_join_chunks(data: Seq<u8>)
    ensures
        join(spec_chunks(data)) == data,
    decreases data.len(),
{
    if data.len() == 0 {
        assert(join(spec_chunks(data)) =~= data);
    } else {
        lemma_join_chunks(data.skip(1));
        let rest = spec_chunks(data.skip(1));
        if data[0] == newline() {
            let cs = seq![seq![newline()]] + rest;
            assert(cs.skip(1) =~= rest);
            assert(cs.len() > 0);
            assert(join(cs) == cs[0] + join(rest));
            assert(cs[0] =~= seq![newline()]);
            assert(join(spec_chunks(data)) =~= data);
        } else if rest.len() == 0 {
            assert(data.skip(1) =~= Seq::<u8>::empty());
            assert(join(rest) == Seq::<u8>::empty());
            assert(data.skip(1).len() == 0);
            assert(data.len() == 1);
            let cs = seq![seq![data[0]]];
            assert(cs.skip(1) =~= Seq::<Seq<u8>>::empty());
            assert(join(Seq::<Seq<u8>>::empty()) == Seq::<u8>::empty());
            assert(join(cs) == cs[0] + join(cs.skip(1)));
            assert(join(spec_chunks(data)) =~= data);
        } else {
            let cs = seq![seq![data[0]] + rest[0]] + rest.skip(1);
            assert(cs.skip(1) =~= rest.skip(1));
            assert(cs.len() > 0);
            assert(join(cs) == cs[0] + join(rest.skip(1)));
            assert(join(rest) == rest[0] + join(rest.skip(1)));
            assert(cs[0] == seq![data[0]] + rest[0]);
            assert(join(cs) =~= seq![data[0]] + (rest[0] + join(rest.skip(1))));
            assert(join(cs) =~= seq![data[0]] + join(rest));
            assert(join(spec_chunks(data)) =~= data);
        }
    }
}

/// A newline-free prefix followed by a newline starts exactly one chunk.
pub proof fn lemma_chunks_front(c: Seq<u8>, rest: Seq<u8>)
    requires
        has_no_newline(c),
    ensures
        spec_chunks(c + seq![newline()] + rest) == seq![c + seq![newline()]] + spec_chunks(rest),
    decreases c.len(),
{
    let whole = c + seq![newline()] + rest;
    if c.len() == 0 {
        assert(whole[0] == newline());
        assert(whole.skip(1) =~= rest);
        assert(c + seq![newline()] =~= seq![newline()]);
        assert(spec_chunks(whole) =~= seq![c + seq![newline()]] + spec_chunks(rest));
    } else {
        assert(whole[0] == c[0]);
        assert(whole[0] != newline());
        assert(whole.skip(1) =~= c.skip(1) + seq![newline()] + rest);
        lemma_chunks_front(c.skip(1), rest);
        let inner = spec_chunks(whole.skip(1));
        assert(inner == seq![c.skip(1) + seq![newline()]] + spec_chunks(rest));
        assert(inner.len() > 0);
        assert(inner[0] == c.skip(1) + seq![newline()]);
        assert(seq![whole[0]] + inner[0] =~= c + seq![newline()]);
        assert(inner.skip(1) =~= spec_chunks(rest));
        assert(spec_chunks(whole) =~= seq![c + seq![newline()]] + spec_chunks(rest));
    }
}

/// A nonempty newline-free stream is a single unterminated chunk.
pub proof fn lemma_chunks_unterminated(c: Seq<u8>)
    requires
        c.len() > 0,
        has_no_newline(c),
    ensures
        spec_chunks(c) == seq![c],
    decreases c.len(),
{
    if c.len() == 1 {
        assert(c.skip(1) =~= Seq::<u8>::empty());
        assert(spec_chunks(c.skip(1)).len() == 0);
        assert(spec_chunks(c) == seq![seq![c[0]]]);
        assert(seq![c[0]] =~= c);
        assert(spec_chunks(c) =~= seq![c]);
    } else {
        lemma_chunks_unterminated(c.skip(1));
        assert(spec_chunks(c.skip(1)) == seq![c.skip(1)]);
        assert(spec_chunks(c.skip(1)).len() == 1);
        assert(spec_chunks(c) == seq![seq![c[0]] + c.skip(1)] + spec_chunks(c.skip(1)).skip(1));
        assert(seq![c[0]] + c.skip(1) =~= c);
        assert(spec_chunks(c.skip(1)).skip(1) =~= Seq::<Seq<u8>>::empty());
        assert(spec_chunks(c) =~= seq![c]);
    }
}

/// When the stream ends with a newline, every chunk ends with one.
pub proof fn lemma_chunks_terminated(data: Seq<u8>)
    requires
        data.len() > 0,
        data.last() == newline(),
    ensures
        forall|i: int|
            0 <= i < spec_chunks(data).len() ==> #[trigger] spec_chunks(data)[i].last()
                == newline(),
    decreases data.len(),
{
    lemma_chunks_nonempty(data);
    if data[0] == newline() {
        if data.len() > 1 {
            assert(data.skip(1).last() == newline());
            lemma_chunks_terminated(data.skip(1));
        } else {
            assert(data.skip(1) =~= Seq::<u8>::empty());
        }
        assert forall|i: int| 0 <= i < spec_chunks(data).len() implies #[trigger] spec_chunks(
            data,
        )[i].last() == newline() by {
            if i == 0 {
            } else {
                assert(spec_chunks(data)[i] == spec_chunks(data.skip(1))[i - 1]);
            }
        }
    } else {
        let rest = spec_chunks(data.skip(1));
        assert(data.len() > 1);
        assert(data.skip(1).last() == newline());
        lemma_chunks_terminated(data.skip(1));
        assert(data.skip(1).len() > 0);
        assert(rest.len() > 0) by {
            if rest.len() == 0 {
                lemma_join_chunks(data.skip(1));
                assert(join(rest).len() == 0);
            }
        }
        lemma_chunks_nonempty(data.skip(1));
        assert forall|i: int| 0 <= i < spec_chunks(data).len() implies #[trigger] spec_chunks(
            data,
        )[i].last() == newline() by {
            if i == 0 {
                assert(rest[0].last() == newline());
                assert(spec_chunks(data)[0] == seq![data[0]] + rest[0]);
                assert((seq![data[0]] + rest[0]).last() == rest[0].last());
            } else {
                assert(spec_chunks(data)[i] == rest.skip(1)[i - 1]);
                assert(rest.skip(1)[i - 1] == rest[i]);
            }
        }
    }
}

/// The views of a sequence of byte vectors.
pub open spec fn views(s: Seq<Vec<u8>>) -> Seq<Seq<u8>> {
    s.map_values(|v: Vec<u8>| v@)
}

/// Appends all bytes of `src` to `dst`.
pub fn push_all(dst: &mut Vec<u8>, src: &Vec<u8>)
    ensures
        final(dst)@ == old(dst)@ + src@,
{
    let mut i: usize = 0;
    while i < src.len()
        invariant
            i <= src@.len(),
            dst@ == old(dst)@ + src@.take(i as int),
        decreases src@.len() - i,
    {
        let b = src[i];
        dst.push(b);
        assert(old(dst)@ + src@.take(i as int) + seq![src@[i as int]] =~= old(dst)@ + src@.take(
            i + 1,
        ));
        i += 1;
    }
    assert(src@.take(src@.len() as int) =~= src@);
}

/// Splits `data` into its chunks, each a maximal newline-terminated run
/// (the last chunk may lack the terminator).
pub fn split_chunks(data: &Vec<u8>) -> (r: Vec<Vec<u8>>)
    ensures
        views(r@) == spec_chunks(data@),
{
    let ghost whole = spec_chunks(data@);
    let mut chunks: Vec<Vec<u8>> = Vec::new();
    let mut cur: Vec<u8> = Vec::new();
    let mut i: usize = 0;
    proof {
        assert(data@.skip(0) =~= data@);
        assert(cur@ + data@.skip(0) =~= data@);
        assert(views(chunks@) =~= Seq::<Seq<u8>>::empty());
        assert(views(chunks@) + whole =~= whole);
    }
    while i < data.len()
        invariant
            i <= data@.len(),
            has_no_newline(cur@),
            whole == spec_chunks(data@),
            views(chunks@) + spec_chunks(cur@ + data@.skip(i as int)) == whole,
        decreases data@.len() - i,
    {
        let b = data[i];
        let ghost prev = cur@;
        if b == 10 {
            cur.push(10);
            proof {
                assert(prev + seq![newline()] =~= cur@);
                assert(prev + data@.skip(i as int) =~= prev + seq![newline()] + data@.skip(
                    i + 1,
                ));
                lemma_chunks_front(prev, data@.skip(i + 1));
                assert(spec_chunks(prev + data@.skip(i as int)) == seq![cur@] + spec_chunks(
                    data@.skip(i + 1),
                ));
                assert(views(chunks@.push(cur)) =~= views(chunks@).push(cur@));
                assert((views(chunks@).push(cur@)) + spec_chunks(data@.skip(i + 1)) =~= views(
                    chunks@,
                ) + (seq![cur@] + spec_chunks(data@.skip(i + 1))));
                assert(Seq::<u8>::empty() + data@.skip(i + 1) =~= data@.skip(i + 1));
            }
            chunks.push(cur);
            cur = Vec::new();
        } else {
            cur.push(b);
            proof {
                assert(prev + data@.skip(i as int) =~= cur@ + data@.skip(i + 1));
            }
        }
        i += 1;
    }
    proof {
        assert(data@.skip(data@.len() as int) =~= Seq::<u8>::empty());
        assert(cur@ + Seq::<u8>::empty() =~= cur@);
    }
    if cur.len() > 0 {
        proof {
            lemma_chunks_unterminated(cur@);
            assert(views(chunks@.push(cur)) =~= views(chunks@).push(cur@));
            assert(views(chunks@).push(cur@) =~= views(chunks@) + seq![cur@]);
        }
        chunks.push(cur);
    } else {
        proof {
            assert(cur@ =~= Seq::<u8>::empty());
            assert(views(chunks@) + spec_chunks(cur@) =~= views(chunks@));
        }
    }
    chunks
}

/// Splits `data` into its lines: chunks with the trailing newline removed.
pub fn split_lines(data: &Vec<u8>) -> (r: Vec<Vec<u8>>)
    ensures
        views(r@) == spec_lines(data@),
{
    let chunks = split_chunks(data);
    let mut lines: Vec<Vec<u8>> = Vec::new();
    let mut i: usize = 0;
    proof {
        assert(views(lines@) =~= views(chunks@).map_values(
            |c: Seq<u8>| strip_newline(c),
        ).take(0));
    }
    while i < chunks.len()
        invariant
            i <= chunks@.len(),
            views(chunks@) == spec_chunks(data@),
            views(lines@) == spec_lines(data@).take(i as int),
        decreases chunks@.len() - i,
    {
        let chunk = &chunks[i];
        let keep: usize = if chunk.len() > 0 && chunk[chunk.len() - 1] == 10 {
            chunk.len() - 1
        } else {
            chunk.len()
        };
        let mut line: Vec<u8> = Vec::new();
        let mut j: usize = 0;
        while j < keep
            invariant
                j <= keep,
                keep <= chunk@.len(),
                line@ == chunk@.take(j as int),
            decreases keep - j,
        {
            let b = chunk[j];
            line.push(b);
            assert(chunk@.take(j as int).push(chunk@[j as int]) =~= chunk@.take(j + 1));
            j += 1;
        }
        proof {
            assert(line@ == chunk@.take(keep as int));
            assert(chunk@ == views(chunks@)[i as int]);
            if chunk@.len() > 0 && chunk@.last() == newline() {
                assert(chunk@.take(keep as int) =~= strip_newline(chunk@));
            } else {
                assert(chunk@.take(keep as int) =~= chunk@);
            }
            assert(line@ == strip_newline(spec_chunks(data@)[i as int]));
            assert(views(lines@.push(line)) =~= views(lines@).push(line@));
            assert(spec_lines(data@).take(i as int).push(spec_lines(data@)[i as int])
                =~= spec_lines(data@).take(i + 1));
        }
        lines.push(line);
        i += 1;
    }
    proof {
        assert(spec_lines(data@).take(spec_lines(data@).len() as int) =~= spec_lines(data@));
    }
    lines
}

} // verus!
