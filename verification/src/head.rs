//! The head limiter: emits at most the first N lines or the first N bytes
//! of a source. Lines are re-emitted verbatim, terminator included; a byte
//! limit takes a raw prefix and decodes it permissively, replacing invalid
//! text with the replacement marker.

use crate::source::{head_failure_prefix, open_failure_message, render_failure_message,
    render_head_failure_prefix, SourceInput};
use crate::text::{join, newline, spec_chunks, views};
use crate::text::{lemma_join_chunks, lemma_join_push, lemma_join_split, push_all, split_chunks};
use vstd::prelude::*;
use vstd::utf8::valid_utf8;

verus! {

/// What the permissive text decoder returns for the given bytes. The
/// result is a function of the bytes alone.
pub uninterp spec fn lossy_decoded(bytes: Seq<u8>) -> Seq<u8>;

/// Relies on String::from_utf8_lossy: decodes bytes as UTF-8, substituting
/// the replacement character for invalid sequences, so valid UTF-8 input
/// comes back unchanged; the result depends on the input bytes alone.
#[verifier::external_body]
fn lossy_decode(bytes: &Vec<u8>) -> (r: Vec<u8>)
    ensures
        r@ == lossy_decoded(bytes@),
        bytes@.len() == 0 ==> r@.len() == 0,
        valid_utf8(bytes@) ==> r@ == bytes@,
{
    String::from_utf8_lossy(bytes.as_slice()).into_owned().into_bytes()
}

/// The first `n` lines of `data`, terminators kept: the concatenation of
/// the first `min(n, line count)` chunks.
pub open spec fn spec_head_lines(data: Seq<u8>, n: nat) -> Seq<u8> {
    let chunks = spec_chunks(data);
    let k = if n <= chunks.len() {
        n
    } else {
        chunks.len()
    };
    join(chunks.take(k as int))
}

/// The first `min(n, length)` raw bytes of `data`.
pub open spec fn spec_head_bytes_raw(data: Seq<u8>, n: nat) -> Seq<u8> {
    data.take(
        (if n <= data.len() {
            n
        } else {
            data.len()
        }) as int,
    )
}

/// The output under a byte limit: the raw prefix, decoded permissively.
pub open spec fn spec_head_bytes(data: Seq<u8>, n: nat) -> Seq<u8> {
    lossy_decoded(spec_head_bytes_raw(data, n))
}

/// Emits the first `n` lines of `data`, each fully intact including its
/// terminator; a limit beyond the line count yields the whole source.
pub fn head_lines(data: &Vec<u8>, n: u64) -> (out: Vec<u8>)
    ensures
        out@ == spec_head_lines(data@, n as nat),
{
    let chunks = split_chunks(data);
    let k: usize = if (chunks.len() as u64) <= n {
        chunks.len()
    } else {
        n as usize
    };
    assert(k == (if n as nat <= spec_chunks(data@).len() {
        n as nat
    } else {
        spec_chunks(data@).len()
    }));
    let mut out: Vec<u8> = Vec::new();
    let mut i: usize = 0;
    proof {
        assert(spec_chunks(data@).take(0) =~= Seq::<Seq<u8>>::empty());
    }
    while i < k
        invariant
            i <= k,
            k <= chunks@.len(),
            views(chunks@) == spec_chunks(data@),
            out@ == join(spec_chunks(data@).take(i as int)),
        decreases k - i,
    {
        let chunk = &chunks[i];
        push_all(&mut out, chunk);
        proof {
            lemma_join_push(spec_chunks(data@).take(i as int), chunk@);
            assert(spec_chunks(data@).take(i as int).push(spec_chunks(data@)[i as int])
                =~= spec_chunks(data@).take(i + 1));
        }
        i += 1;
    }
    out
}

/// Emits the permissive decoding of the first `n` raw bytes of `data`;
/// a limit beyond the length yields the whole source, decoded.
pub fn head_bytes(data: &Vec<u8>, n: u64) -> (out: Vec<u8>)
    ensures
        out@ == spec_head_bytes(data@, n as nat),
{
    let k: usize = if (data.len() as u64) <= n {
        data.len()
    } else {
        n as usize
    };
    let mut prefix: Vec<u8> = Vec::new();
    let mut i: usize = 0;
    while i < k
        invariant
            i <= k,
            k <= data@.len(),
            prefix@ == data@.take(i as int),
        decreases k - i,
    {
        let b = data[i];
        prefix.push(b);
        assert(data@.take(i as int).push(data@[i as int]) =~= data@.take(i + 1));
        i += 1;
    }
    assert(prefix@ == spec_head_bytes_raw(data@, n as nat));
    lossy_decode(&prefix)
}

/// The bytes of `"==> "`, opening a filename banner.
pub open spec fn banner_open() -> Seq<u8> {
    seq![61u8, 61u8, 62u8, 32u8]
}

/// The bytes of `" <=="`, closing a filename banner.
pub open spec fn banner_close() -> Seq<u8> {
    seq![32u8, 60u8, 61u8, 61u8]
}

/// The banner line naming a source, newline-terminated; every banner but
/// the first is preceded by a blank line.
pub open spec fn spec_banner(name: Seq<u8>, first: bool) -> Seq<u8> {
    (if first {
        Seq::<u8>::empty()
    } else {
        seq![newline()]
    }) + banner_open() + name + banner_close() + seq![newline()]
}

/// Renders the banner line for a source.
pub fn render_banner(name: &Vec<u8>, first: bool) -> (r: Vec<u8>)
    ensures
        r@ == spec_banner(name@, first),
{
    let mut v: Vec<u8> = Vec::new();
    if !first {
        v.push(10);
    }
    v.push(61);
    v.push(61);
    v.push(62);
    v.push(32);
    push_all(&mut v, name);
    v.push(32);
    v.push(60);
    v.push(61);
    v.push(61);
    v.push(10);
    assert(v@ =~= spec_banner(name@, first));
    v
}

/// The byte limit as the specification sees it.
pub open spec fn nat_limit(bytes: Option<u64>) -> Option<nat> {
    match bytes {
        Some(b) => Some(b as nat),
        None => None,
    }
}

/// What one source contributes to standard output: when it opened, its
/// banner (only with several sources) followed by the limited content;
/// nothing when it failed.
pub open spec fn spec_head_file_output(
    inp: SourceInput,
    idx: int,
    multi: bool,
    lines: nat,
    bytes: Option<nat>,
) -> Seq<u8> {
    match inp.data {
        Ok(d) => (if multi {
            spec_banner(inp.name@, idx == 0)
        } else {
            Seq::<u8>::empty()
        }) + (match bytes {
            Some(b) => spec_head_bytes(d@, b),
            None => spec_head_lines(d@, lines),
        }),
        Err(_) => Seq::empty(),
    }
}

/// The whole standard output of a head run: each source's contribution,
/// in source order; banners appear only when more than one source is
/// given.
pub open spec fn spec_head_output(
    inputs: Seq<SourceInput>,
    lines: nat,
    bytes: Option<nat>,
) -> Seq<u8> {
    join(
        Seq::new(
            inputs.len(),
            |i: int| spec_head_file_output(inputs[i], i, inputs.len() > 1, lines, bytes),
        ),
    )
}

/// The error-channel messages of a head run: one open-failure report per
/// source that failed to open, in source order.
pub open spec fn spec_head_errors(inputs: Seq<SourceInput>) -> Seq<Seq<u8>>
    decreases inputs.len(),
{
    if inputs.len() == 0 {
        Seq::empty()
    } else {
        spec_head_errors(inputs.drop_last()) + (match inputs.last().data {
            Ok(_) => Seq::<Seq<u8>>::empty(),
            Err(c) => seq![
                open_failure_message(head_failure_prefix(), inputs.last().name@, c@),
            ],
        })
    }
}

/// Runs the head limiter over the opened sources in order. Every source
/// that opened contributes its limited content, preceded by its banner
/// when several sources were named; every source that failed contributes
/// one failure report to the error messages instead, and the run
/// continues with the next source.
pub fn head_run(inputs: &Vec<SourceInput>, lines: u64, bytes: Option<u64>) -> (r: (
    Vec<u8>,
    Vec<Vec<u8>>,
))
    ensures
        r.0@ == spec_head_output(inputs@, lines as nat, nat_limit(bytes)),
        views(r.1@) == spec_head_errors(inputs@),
{
    let multi = inputs.len() > 1;
    let ghost blimit = nat_limit(bytes);
    let mut out: Vec<u8> = Vec::new();
    let mut errs: Vec<Vec<u8>> = Vec::new();
    let mut i: usize = 0;
    proof {
        assert(inputs@.take(0) =~= Seq::<SourceInput>::empty());
        assert(Seq::new(0, |j: int| spec_head_file_output(inputs@.take(0)[j], j, multi,
            lines as nat, blimit)) =~= Seq::<Seq<u8>>::empty());
        assert(views(errs@) =~= spec_head_errors(inputs@.take(0)));
    }
    while i < inputs.len()
        invariant
            i <= inputs@.len(),
            multi == (inputs@.len() > 1),
            blimit == nat_limit(bytes),
            out@ == join(
                Seq::new(
                    i as nat,
                    |j: int| spec_head_file_output(inputs@[j], j, multi, lines as nat, blimit),
                ),
            ),
            views(errs@) == spec_head_errors(inputs@.take(i as int)),
        decreases inputs@.len() - i,
    {
        let ghost pre = inputs@.take(i as int);
        let ghost post = inputs@.take(i + 1);
        let ghost f_pre = Seq::new(i as nat, |j: int| spec_head_file_output(inputs@[j], j, multi,
            lines as nat, blimit));
        proof {
            assert(post.drop_last() =~= pre);
            assert(post.last() == inputs@[i as int]);
        }
        let inp = &inputs[i];
        match &inp.data {
            Ok(d) => {
                if multi {
                    let banner = render_banner(&inp.name, i == 0);
                    push_all(&mut out, &banner);
                }
                let piece = match bytes {
                    Some(b) => head_bytes(d, b),
                    None => head_lines(d, lines),
                };
                push_all(&mut out, &piece);
                proof {
                    assert(out@ =~= join(f_pre) + spec_head_file_output(inputs@[i as int],
                        i as int, multi, lines as nat, blimit));
                    lemma_join_push(f_pre, spec_head_file_output(inputs@[i as int], i as int,
                        multi, lines as nat, blimit));
                    assert(f_pre.push(spec_head_file_output(inputs@[i as int], i as int, multi,
                        lines as nat, blimit)) =~= Seq::new((i + 1) as nat, |j: int|
                        spec_head_file_output(inputs@[j], j, multi, lines as nat, blimit)));
                    assert(views(errs@) =~= spec_head_errors(post));
                }
            },
            Err(c) => {
                let prefix = render_head_failure_prefix();
                let msg = render_failure_message(&prefix, &inp.name, c);
                errs.push(msg);
                proof {
                    lemma_join_push(f_pre, spec_head_file_output(inputs@[i as int], i as int,
                        multi, lines as nat, blimit));
                    assert(f_pre.push(spec_head_file_output(inputs@[i as int], i as int, multi,
                        lines as nat, blimit)) =~= Seq::new((i + 1) as nat, |j: int|
                        spec_head_file_output(inputs@[j], j, multi, lines as nat, blimit)));
                    assert(out@ + Seq::<u8>::empty() =~= out@);
                    assert(views(errs@) =~= spec_head_errors(post));
                }
            },
        }
        i += 1;
    }
    proof {
        assert(inputs@.take(inputs@.len() as int) =~= inputs@);
        assert(Seq::new(inputs@.len(), |j: int| spec_head_file_output(inputs@[j], j, multi,
            lines as nat, blimit)) =~= Seq::new(inputs@.len(), |j: int| spec_head_file_output(
            inputs@[j], j, inputs@.len() > 1, lines as nat, nat_limit(bytes))));
    }
    (out, errs)
}

/// A line limit at least the source's line count yields the whole source.
pub proof fn lemma_head_lines_whole(data: Seq<u8>, n: nat)
    requires
        n >= spec_chunks(data).len(),
    ensures
        spec_head_lines(data, n) == data,
{
    assert(spec_chunks(data).take(spec_chunks(data).len() as int) =~= spec_chunks(data));
    lemma_join_chunks(data);
}

/// Under a line limit the output is a prefix of the source: its own first
/// bytes, never more than the source holds.
pub proof fn lemma_head_lines_is_prefix(data: Seq<u8>, n: nat)
    ensures
        spec_head_lines(data, n).len() <= data.len(),
        spec_head_lines(data, n) == data.take(spec_head_lines(data, n).len() as int),
{
    let chunks = spec_chunks(data);
    let k = if n <= chunks.len() {
        n
    } else {
        chunks.len()
    };
    lemma_join_split(chunks, k as int);
    lemma_join_chunks(data);
    assert(join(chunks.take(k as int)) + join(chunks.skip(k as int)) == data);
    let out = join(chunks.take(k as int));
    assert(out == data.take(out.len() as int)) by {
        assert(out =~= data.take(out.len() as int));
    }
}

/// The raw prefix under a byte limit never exceeds the limit nor the
/// source, and a limit at least the length takes the whole source.
pub proof fn lemma_head_bytes_raw_bounds(data: Seq<u8>, n: nat)
    ensures
        spec_head_bytes_raw(data, n).len() <= n,
        spec_head_bytes_raw(data, n).len() <= data.len(),
        n >= data.len() ==> spec_head_bytes_raw(data, n) == data,
{
    if n >= data.len() {
        assert(spec_head_bytes_raw(data, n) =~= data);
    }
}

} // verus!
