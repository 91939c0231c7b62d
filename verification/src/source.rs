//! Opened sources as the transformation logic sees them: a filename token
//! together with either the bytes the source yielded or the cause text of
//! an open failure. The binary maps `-` to standard input and opens file
//! paths; this module only carries the outcome and renders the failure
//! messages each tool reports.

use crate::text::push_all;
use vstd::prelude::*;

verus! {

/// One source handed to a run: its filename token and either its content
/// bytes or, when opening failed, the cause text.
pub struct SourceInput {
    /// The filename token the source was named by.
    pub name: Vec<u8>,
    /// The source's bytes, or the cause text of the open failure.
    pub data: Result<Vec<u8>, Vec<u8>>,
}

/// An open-failure report: a prefix, the offending filename, then the
/// cause, separated by a colon and a space.
pub open spec fn open_failure_message(prefix: Seq<u8>, name: Seq<u8>, cause: Seq<u8>) -> Seq<u8> {
    prefix + name + seq![58u8, 32u8] + cause
}

/// The bytes of `"Failed to open "`, the concatenator's failure prefix.
pub open spec fn cat_failure_prefix() -> Seq<u8> {
    seq![70u8, 97u8, 105u8, 108u8, 101u8, 100u8, 32u8, 116u8, 111u8, 32u8, 111u8, 112u8, 101u8, 110u8, 32u8]
}

/// The bytes of `"Error opening "`, the head limiter's failure prefix.
pub open spec fn head_failure_prefix() -> Seq<u8> {
    seq![69u8, 114u8, 114u8, 111u8, 114u8, 32u8, 111u8, 112u8, 101u8, 110u8, 105u8, 110u8, 103u8, 32u8]
}

/// Builds `"Failed to open "` as bytes.
pub fn render_cat_failure_prefix() -> (r: Vec<u8>)
    ensures
        r@ == cat_failure_prefix(),
{
    let mut v: Vec<u8> = Vec::new();
    v.push(70);
    v.push(97);
    v.push(105);
    v.push(108);
    v.push(101);
    v.push(100);
    v.push(32);
    v.push(116);
    v.push(111);
    v.push(32);
    v.push(111);
    v.push(112);
    v.push(101);
    v.push(110);
    v.push(32);
    assert(v@ =~= cat_failure_prefix());
    v
}

/// Builds `"Error opening "` as bytes.
pub fn render_head_failure_prefix() -> (r: Vec<u8>)
    ensures
        r@ == head_failure_prefix(),
{
    let mut v: Vec<u8> = Vec::new();
    v.push(69);
    v.push(114);
    v.push(114);
    v.push(111);
    v.push(114);
    v.push(32);
    v.push(111);
    v.push(112);
    v.push(101);
    v.push(110);
    v.push(105);
    v.push(110);
    v.push(103);
    v.push(32);
    assert(v@ =~= head_failure_prefix());
    v
}

/// Renders an open-failure report from its parts.
pub fn render_failure_message(prefix: &Vec<u8>, name: &Vec<u8>, cause: &Vec<u8>) -> (r: Vec<u8>)
    ensures
        r@ == open_failure_message(prefix@, name@, cause@),
{
    let mut v: Vec<u8> = Vec::new();
    push_all(&mut v, prefix);
    push_all(&mut v, name);
    v.push(58);
    v.push(32);
    push_all(&mut v, cause);
    assert(v@ =~= open_failure_message(prefix@, name@, cause@));
    v
}

} // verus!
