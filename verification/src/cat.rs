//! The line concatenator: emits every line of a source followed by a
//! newline, optionally prefixed by a right-aligned six-column line number
//! and a tab. Numbering starts at 1 for each source; in nonblank mode a
//! zero-length line is emitted bare and does not advance the counter.

use crate::numbering::number_field;
use crate::source::{cat_failure_prefix, open_failure_message, render_cat_failure_prefix,
    render_failure_message, SourceInput};
use crate::text::{join, newline, spec_chunks, spec_lines, strip_newline, views};
use crate::text::{lemma_chunks_nonempty, lemma_chunks_terminated, lemma_join_chunks,
    lemma_join_push, split_lines, push_all};
use crate::numbering::render_number;
use vstd::prelude::*;

verus! {

/// The tab byte that separates a line number from the line.
pub open spec fn tab() -> u8 {
    9
}

/// Whether a line receives a number under the given flags.
pub open spec fn is_numbered(line: Seq<u8>, number_lines: bool, number_nonblank: bool) -> bool {
    number_lines || (number_nonblank && line.len() > 0)
}

/// One emitted line: the line followed by a newline, preceded by the
/// six-column number field and a tab when it is numbered.
pub open spec fn render_line(line: Seq<u8>, num: nat, numbered: bool) -> Seq<u8> {
    if numbered {
        number_field(num) + seq![tab()] + line + seq![newline()]
    } else {
        line + seq![newline()]
    }
}

/// How many of `lines` receive a number under the given flags.
pub open spec fn count_numbered(lines: Seq<Seq<u8>>, number_lines: bool, number_nonblank: bool) -> nat
    decreases lines.len(),
{
    if lines.len() == 0 {
        0
    } else {
        (if is_numbered(lines[0], number_lines, number_nonblank) {
            1nat
        } else {
            0nat
        }) + count_numbered(lines.skip(1), number_lines, number_nonblank)
    }
}

/// The emitted lines for `lines`, with the next line number starting at
/// `start` and advancing once per numbered line.
pub open spec fn rendered_lines(
    lines: Seq<Seq<u8>>,
    start: nat,
    number_lines: bool,
    number_nonblank: bool,
) -> Seq<Seq<u8>>
    decreases lines.len(),
{
    if lines.len() == 0 {
        Seq::empty()
    } else {
        let numbered = is_numbered(lines[0], number_lines, number_nonblank);
        seq![render_line(lines[0], start, numbered)] + rendered_lines(
            lines.skip(1),
            start + (if numbered {
                1nat
            } else {
                0nat
            }),
            number_lines,
            number_nonblank,
        )
    }
}

/// The whole output of the concatenator for one source: its lines rendered
/// in order, numbering starting at 1.
pub open spec fn spec_cat(data: Seq<u8>, number_lines: bool, number_nonblank: bool) -> Seq<u8> {
    join(rendered_lines(spec_lines(data), 1, number_lines, number_nonblank))
}

pub proof fn lemma_count_numbered_push(lines: Seq<Seq<u8>>, x: Seq<u8>, nl: bool, nb: bool)
    ensures
        count_numbered(lines.push(x), nl, nb) == count_numbered(lines, nl, nb) + (if is_numbered(
            x,
            nl,
            nb,
        ) {
            1nat
        } else {
            0nat
        }),
    decreases lines.len(),
{
    if lines.len() == 0 {
        assert(lines.push(x).skip(1) =~= Seq::<Seq<u8>>::empty());
        assert(count_numbered(Seq::<Seq<u8>>::empty(), nl, nb) == 0);
        assert(lines.push(x)[0] == x);
    } else {
        assert(lines.push(x).skip(1) =~= lines.skip(1).push(x));
        lemma_count_numbered_push(lines.skip(1), x, nl, nb);
        assert(lines.push(x)[0] == lines[0]);
        assert(count_numbered(lines.push(x), nl, nb) == (if is_numbered(lines[0], nl, nb) {
            1nat
        } else {
            0nat
        }) + count_numbered(lines.skip(1).push(x), nl, nb));
    }
}

pub proof fn lemma_rendered_lines_push(lines: Seq<Seq<u8>>, x: Seq<u8>, start: nat, nl: bool, nb: bool)
    ensures
        rendered_lines(lines.push(x), start, nl, nb) == rendered_lines(lines, start, nl, nb).push(
            render_line(
                x,
                start + count_numbered(lines, nl, nb),
                is_numbered(x, nl, nb),
            ),
        ),
    decreases lines.len(),
{
    if lines.len() == 0 {
        assert(lines.push(x).skip(1) =~= Seq::<Seq<u8>>::empty());
        assert(lines.push(x)[0] == x);
        assert(count_numbered(lines, nl, nb) == 0);
        let startx = start + (if is_numbered(x, nl, nb) {
            1nat
        } else {
            0nat
        });
        assert(rendered_lines(Seq::<Seq<u8>>::empty(), startx, nl, nb)
            == Seq::<Seq<u8>>::empty());
        assert(rendered_lines(lines.push(x), start, nl, nb) =~= rendered_lines(
            lines,
            start,
            nl,
            nb,
        ).push(render_line(x, start + count_numbered(lines, nl, nb), is_numbered(x, nl, nb))));
    } else {
        assert(lines.push(x).skip(1) =~= lines.skip(1).push(x));
        let numbered = is_numbered(lines[0], nl, nb);
        let start1 = start + (if numbered {
            1nat
        } else {
            0nat
        });
        lemma_rendered_lines_push(lines.skip(1), x, start1, nl, nb);
        assert(start1 + count_numbered(lines.skip(1), nl, nb) == start + count_numbered(
            lines,
            nl,
            nb,
        ));
        assert(rendered_lines(lines.push(x), start, nl, nb) =~= rendered_lines(
            lines,
            start,
            nl,
            nb,
        ).push(render_line(x, start + count_numbered(lines, nl, nb), is_numbered(x, nl, nb))));
    }
}

/// Applies the concatenator's transformation to the bytes of one source:
/// the result is exactly `spec_cat` of the input under the given flags.
pub fn cat_file(data: &Vec<u8>, number_lines: bool, number_nonblank: bool) -> (out: Vec<u8>)
    ensures
        out@ == spec_cat(data@, number_lines, number_nonblank),
{
    let lines = split_lines(data);
    let ghost lseq = spec_lines(data@);
    let mut out: Vec<u8> = Vec::new();
    let mut num: u128 = 1;
    let mut i: usize = 0;
    proof {
        assert(lseq.take(0) =~= Seq::<Seq<u8>>::empty());
        assert(out@ =~= join(rendered_lines(lseq.take(0), 1, number_lines, number_nonblank)));
    }
    while i < lines.len()
        invariant
            i <= lines@.len(),
            views(lines@) == lseq,
            lseq == spec_lines(data@),
            num == 1 + count_numbered(lseq.take(i as int), number_lines, number_nonblank),
            num <= 1 + i,
            out@ == join(rendered_lines(lseq.take(i as int), 1, number_lines, number_nonblank)),
        decreases lines@.len() - i,
    {
        let line = &lines[i];
        assert(line@ == lseq[i as int]);
        let numbered = number_lines || (number_nonblank && line.len() > 0);
        let ghost rline = render_line(lseq[i as int], num as nat, numbered);
        if numbered {
            let field = render_number(num);
            push_all(&mut out, &field);
            out.push(9);
            push_all(&mut out, line);
            out.push(10);
            proof {
                assert(usize::MAX <= u64::MAX);
                assert(out@ =~= join(
                    rendered_lines(lseq.take(i as int), 1, number_lines, number_nonblank),
                ) + rline);
            }
            num = num + 1;
        } else {
            push_all(&mut out, line);
            out.push(10);
            proof {
                assert(out@ =~= join(
                    rendered_lines(lseq.take(i as int), 1, number_lines, number_nonblank),
                ) + rline);
            }
        }
        proof {
            lemma_count_numbered_push(lseq.take(i as int), lseq[i as int], number_lines,
                number_nonblank);
            lemma_rendered_lines_push(lseq.take(i as int), lseq[i as int], 1, number_lines,
                number_nonblank);
            lemma_join_push(
                rendered_lines(lseq.take(i as int), 1, number_lines, number_nonblank),
                rline,
            );
            assert(lseq.take(i as int).push(lseq[i as int]) =~= lseq.take(i + 1));
        }
        i += 1;
    }
    proof {
        assert(lseq.take(lseq.len() as int) =~= lseq);
    }
    out
}

/// Every line of the input is emitted exactly once, whatever the flags:
/// the rendered output has one line per input line.
pub proof fn lemma_rendered_count(lines: Seq<Seq<u8>>, start: nat, nl: bool, nb: bool)
    ensures
        rendered_lines(lines, start, nl, nb).len() == lines.len(),
    decreases lines.len(),
{
    if lines.len() == 0 {
    } else {
        let numbered = is_numbered(lines[0], nl, nb);
        lemma_rendered_count(
            lines.skip(1),
            start + (if numbered {
                1nat
            } else {
                0nat
            }),
            nl,
            nb,
        );
    }
}

/// In line-numbering mode every line is numbered and the numbers count up
/// by one from `start`: the `i`-th emitted line carries number `start + i`.
pub proof fn lemma_number_all_lines(lines: Seq<Seq<u8>>, start: nat)
    ensures
        rendered_lines(lines, start, true, false).len() == lines.len(),
        forall|i: int|
            0 <= i < lines.len() ==> rendered_lines(lines, start, true, false)[i] == render_line(
                lines[i],
                (start + i) as nat,
                true,
            ),
    decreases lines.len(),
{
    if lines.len() == 0 {
    } else {
        lemma_number_all_lines(lines.skip(1), start + 1);
        assert forall|i: int| 0 <= i < lines.len() implies rendered_lines(lines, start, true, false)[i]
            == render_line(lines[i], (start + i) as nat, true) by {
            if i > 0 {
                assert(rendered_lines(lines, start, true, false)[i] == rendered_lines(
                    lines.skip(1),
                    start + 1,
                    true,
                    false,
                )[i - 1]);
                assert(lines.skip(1)[i - 1] == lines[i]);
            }
        }
    }
}

/// In nonblank-numbering mode only zero-length lines are left unnumbered:
/// a blank line is emitted as a bare newline, and every other line carries
/// the number `start` plus the count of nonblank lines before it.
pub proof fn lemma_number_nonblank_lines(lines: Seq<Seq<u8>>, start: nat)
    ensures
        rendered_lines(lines, start, false, true).len() == lines.len(),
        forall|i: int|
            0 <= i < lines.len() && lines[i].len() == 0 ==> rendered_lines(lines, start, false, true)[i]
                == lines[i] + seq![newline()],
        forall|i: int|
            0 <= i < lines.len() && lines[i].len() > 0 ==> rendered_lines(lines, start, false, true)[i]
                == render_line(
                lines[i],
                start + count_numbered(lines.take(i), false, true),
                true,
            ),
    decreases lines.len(),
{
    if lines.len() == 0 {
    } else {
        let numbered = is_numbered(lines[0], false, true);
        let start1 = start + (if numbered {
            1nat
        } else {
            0nat
        });
        lemma_number_nonblank_lines(lines.skip(1), start1);
        assert forall|i: int|
            0 <= i < lines.len() && lines[i].len() > 0 implies rendered_lines(lines, start, false, true)[i]
            == render_line(lines[i], start + count_numbered(lines.take(i), false, true), true) by {
            if i == 0 {
                assert(lines.take(0) =~= Seq::<Seq<u8>>::empty());
            } else {
                assert(rendered_lines(lines, start, false, true)[i] == rendered_lines(
                    lines.skip(1),
                    start1,
                    false,
                    true,
                )[i - 1]);
                assert(lines.skip(1)[i - 1] == lines[i]);
                assert(lines.skip(1).take(i - 1) =~= lines.take(i).skip(1));
                assert(lines.take(i)[0] == lines[0]);
                assert(count_numbered(lines.take(i), false, true) == (if numbered {
                    1nat
                } else {
                    0nat
                }) + count_numbered(lines.skip(1).take(i - 1), false, true));
            }
        }
        assert forall|i: int|
            0 <= i < lines.len() && lines[i].len() == 0 implies rendered_lines(lines, start, false, true)[i]
            == lines[i] + seq![newline()] by {
            if i > 0 {
                assert(rendered_lines(lines, start, false, true)[i] == rendered_lines(
                    lines.skip(1),
                    start1,
                    false,
                    true,
                )[i - 1]);
                assert(lines.skip(1)[i - 1] == lines[i]);
            }
        }
    }
}

/// Without numbering, every emitted line is the input line followed by a
/// newline.
pub proof fn lemma_rendered_plain(lines: Seq<Seq<u8>>, start: nat)
    ensures
        rendered_lines(lines, start, false, false).len() == lines.len(),
        forall|i: int|
            0 <= i < lines.len() ==> rendered_lines(lines, start, false, false)[i] == lines[i]
                + seq![newline()],
    decreases lines.len(),
{
    if lines.len() == 0 {
    } else {
        lemma_rendered_plain(lines.skip(1), start);
        assert forall|i: int| 0 <= i < lines.len() implies rendered_lines(lines, start, false, false)[i]
            == lines[i] + seq![newline()] by {
            if i > 0 {
                assert(rendered_lines(lines, start, false, false)[i] == rendered_lines(
                    lines.skip(1),
                    start,
                    false,
                    false,
                )[i - 1]);
                assert(lines.skip(1)[i - 1] == lines[i]);
            }
        }
    }
}

/// Concatenating a line-delimited input without flags reproduces it
/// byte-for-byte: on input that is empty or ends with a newline, the
/// plain concatenator is the identity.
pub proof fn lemma_cat_plain_identity(data: Seq<u8>)
    requires
        data.len() == 0 || data.last() == newline(),
    ensures
        spec_cat(data, false, false) == data,
{
    let chunks = spec_chunks(data);
    let lines = spec_lines(data);
    lemma_rendered_plain(lines, 1);
    lemma_chunks_nonempty(data);
    if data.len() > 0 {
        lemma_chunks_terminated(data);
    }
    assert forall|i: int| 0 <= i < lines.len() implies rendered_lines(lines, 1, false, false)[i]
        == chunks[i] by {
        assert(lines[i] == strip_newline(chunks[i]));
        assert(chunks[i].len() > 0 && chunks[i].last() == newline());
        assert(strip_newline(chunks[i]) == chunks[i].drop_last());
        assert(chunks[i].drop_last() + seq![newline()] =~= chunks[i]);
    }
    assert(rendered_lines(lines, 1, false, false) =~= chunks);
    lemma_join_chunks(data);
}

/// Every emitted line ends with a newline, so concatenated output is empty
/// or newline-terminated.
pub proof fn lemma_join_terminated(xs: Seq<Seq<u8>>)
    requires
        forall|i: int| 0 <= i < xs.len() ==> #[trigger] xs[i].len() > 0 && xs[i].last() == newline(),
    ensures
        xs.len() > 0 ==> join(xs).len() > 0 && join(xs).last() == newline(),
    decreases xs.len(),
{
    if xs.len() == 0 {
    } else {
        assert(forall|i: int|
            0 <= i < xs.skip(1).len() ==> #[trigger] xs.skip(1)[i].len() > 0
                && xs.skip(1)[i].last() == newline()) by {
            assert(forall|i: int|
                0 <= i < xs.skip(1).len() ==> xs.skip(1)[i] == xs[i + 1]);
        }
        lemma_join_terminated(xs.skip(1));
        assert(xs[0].len() > 0 && xs[0].last() == newline());
        if xs.skip(1).len() == 0 {
            assert(join(xs.skip(1)).len() == 0);
        }
    }
}

/// What one source contributes to standard output: the cat transformation
/// of its bytes when it opened, nothing when it failed.
pub open spec fn spec_cat_file_output(inp: SourceInput, nl: bool, nb: bool) -> Seq<u8> {
    match inp.data {
        Ok(d) => spec_cat(d@, nl, nb),
        Err(_) => Seq::empty(),
    }
}

/// The whole standard output of a cat run: each source's contribution, in
/// source order.
pub open spec fn spec_cat_output(inputs: Seq<SourceInput>, nl: bool, nb: bool) -> Seq<u8> {
    join(Seq::new(inputs.len(), |i: int| spec_cat_file_output(inputs[i], nl, nb)))
}

/// The error-channel messages of a cat run: one open-failure report per
/// source that failed to open, in source order.
pub open spec fn spec_cat_errors(inputs: Seq<SourceInput>) -> Seq<Seq<u8>>
    decreases inputs.len(),
{
    if inputs.len() == 0 {
        Seq::empty()
    } else {
        spec_cat_errors(inputs.drop_last()) + (match inputs.last().data {
            Ok(_) => Seq::<Seq<u8>>::empty(),
            Err(c) => seq![
                open_failure_message(cat_failure_prefix(), inputs.last().name@, c@),
            ],
        })
    }
}

/// Runs the concatenator over the opened sources in order. Every source
/// that opened contributes the cat transformation of its bytes to the
/// output; every source that failed contributes one failure report to the
/// error messages instead, and the run continues with the next source.
pub fn cat_run(inputs: &Vec<SourceInput>, number_lines: bool, number_nonblank: bool) -> (r: (
    Vec<u8>,
    Vec<Vec<u8>>,
))
    ensures
        r.0@ == spec_cat_output(inputs@, number_lines, number_nonblank),
        views(r.1@) == spec_cat_errors(inputs@),
{
    let mut out: Vec<u8> = Vec::new();
    let mut errs: Vec<Vec<u8>> = Vec::new();
    let mut i: usize = 0;
    proof {
        assert(inputs@.take(0) =~= Seq::<SourceInput>::empty());
        assert(Seq::new(0, |j: int| spec_cat_file_output(inputs@.take(0)[j], number_lines,
            number_nonblank)) =~= Seq::<Seq<u8>>::empty());
        assert(views(errs@) =~= spec_cat_errors(inputs@.take(0)));
    }
    while i < inputs.len()
        invariant
            i <= inputs@.len(),
            out@ == spec_cat_output(inputs@.take(i as int), number_lines, number_nonblank),
            views(errs@) == spec_cat_errors(inputs@.take(i as int)),
        decreases inputs@.len() - i,
    {
        let ghost pre = inputs@.take(i as int);
        let ghost post = inputs@.take(i + 1);
        proof {
            assert(post.drop_last() =~= pre);
            assert(post.last() == inputs@[i as int]);
        }
        let inp = &inputs[i];
        match &inp.data {
            Ok(d) => {
                let piece = cat_file(d, number_lines, number_nonblank);
                push_all(&mut out, &piece);
                proof {
                    let f_pre = Seq::new(pre.len(), |j: int| spec_cat_file_output(pre[j],
                        number_lines, number_nonblank));
                    let f_post = Seq::new(post.len(), |j: int| spec_cat_file_output(post[j],
                        number_lines, number_nonblank));
                    assert(f_post =~= f_pre.push(spec_cat_file_output(inputs@[i as int],
                        number_lines, number_nonblank)));
                    lemma_join_push(f_pre, spec_cat_file_output(inputs@[i as int], number_lines,
                        number_nonblank));
                    assert(views(errs@) =~= spec_cat_errors(post));
                }
            },
            Err(c) => {
                let prefix = render_cat_failure_prefix();
                let msg = render_failure_message(&prefix, &inp.name, c);
                errs.push(msg);
                proof {
                    let f_pre = Seq::new(pre.len(), |j: int| spec_cat_file_output(pre[j],
                        number_lines, number_nonblank));
                    let f_post = Seq::new(post.len(), |j: int| spec_cat_file_output(post[j],
                        number_lines, number_nonblank));
                    assert(f_post =~= f_pre.push(spec_cat_file_output(inputs@[i as int],
                        number_lines, number_nonblank)));
                    lemma_join_push(f_pre, spec_cat_file_output(inputs@[i as int], number_lines,
                        number_nonblank));
                    assert(out@ + Seq::<u8>::empty() =~= out@);
                    assert(views(errs@) =~= spec_cat_errors(post));
                }
            },
        }
        i += 1;
    }
    proof {
        assert(inputs@.take(inputs@.len() as int) =~= inputs@);
    }
    (out, errs)
}

/// The plain concatenator is idempotent: feeding its output back through
/// it yields the same bytes again.
pub proof fn lemma_cat_plain_idempotent(data: Seq<u8>)
    ensures
        spec_cat(spec_cat(data, false, false), false, false) == spec_cat(data, false, false),
{
    let out = spec_cat(data, false, false);
    let lines = spec_lines(data);
    lemma_rendered_plain(lines, 1);
    assert(forall|i: int|
        0 <= i < rendered_lines(lines, 1, false, false).len()
            ==> #[trigger] rendered_lines(lines, 1, false, false)[i].len() > 0 && rendered_lines(
            lines,
            1,
            false,
            false,
        )[i].last() == newline()) by {
        assert(forall|i: int|
            0 <= i < lines.len() ==> rendered_lines(lines, 1, false, false)[i] == lines[i]
                + seq![newline()]);
    }
    lemma_join_terminated(rendered_lines(lines, 1, false, false));
    lemma_cat_plain_identity(out);
}

} // verus!
