//! The pass-through copier: echoes its single source to the output
//! unchanged. Unlike the concatenator and the head limiter, a failure to
//! open the one source aborts the run, with a message naming the source
//! and the cause.

use crate::source::{open_failure_message, render_failure_message, SourceInput};
use crate::text::push_all;
use vstd::prelude::*;

verus! {

/// Copies the single source through: the bytes of a source that opened
/// come back unchanged; a source that failed to open yields the failure
/// message `name: cause` instead.
pub fn copy_run(input: &SourceInput) -> (r: Result<Vec<u8>, Vec<u8>>)
    ensures
        input.data is Ok ==> r is Ok && r->Ok_0@ == input.data->Ok_0@,
        input.data is Err ==> r is Err && r->Err_0@ == open_failure_message(
            Seq::empty(),
            input.name@,
            input.data->Err_0@,
        ),
{
    match &input.data {
        Ok(d) => {
            let mut out: Vec<u8> = Vec::new();
            push_all(&mut out, d);
            assert(out@ =~= d@);
            Ok(out)
        },
        Err(c) => {
            let empty: Vec<u8> = Vec::new();
            Err(render_failure_message(&empty, &input.name, c))
        },
    }
}

} // verus!
