//! Writing a bundle: one record per file, a header line with its path and
//! its body between fences.
use vstd::prelude::*;
use crate::bytes::{is_utf8, push_range, NEWLINE};
use crate::escape::{escape_markdown_content, escape_text, fence, fence_bytes};
use crate::path::{binary_extension, is_binary_file, is_markdown_path, lower_ext, markdown_path};
use crate::codec::{base64_of, encode_base64};
use crate::decode::{
    binary_fence, binary_fence_bytes, header_marker, header_marker_bytes,
};

verus! {

/// A text file that the bundle cannot carry.
#[derive(Debug, PartialEq, Eq)]
pub enum EncodeError {
    NotUtf8 { path: Vec<u8> },
}

/// The record of an image: its bytes in base64 under the binary fence.
pub open spec fn binary_record(p: Seq<u8>, b: Seq<u8>) -> Seq<u8> {
    header_marker() + p + seq![NEWLINE, NEWLINE] + binary_fence() + seq![NEWLINE] + base64_of(b)
        + seq![NEWLINE] + fence() + seq![NEWLINE, NEWLINE]
}

/// The body of a text record: escaped where the path is a markdown file.
pub open spec fn text_body(p: Seq<u8>, c: Seq<u8>) -> Seq<u8> {
    if markdown_path(p) {
        escape_text(c)
    } else {
        c
    }
}

/// The record of a text file, its fence tagged with `label`.
pub open spec fn text_record(p: Seq<u8>, label: Seq<u8>, c: Seq<u8>) -> Seq<u8> {
    header_marker() + p + seq![NEWLINE, NEWLINE] + fence() + label + seq![NEWLINE, NEWLINE]
        + text_body(p, c) + seq![NEWLINE, NEWLINE] + fence() + seq![NEWLINE, NEWLINE]
}

/// A path that names an image carried as base64.
pub open spec fn binary_path(p: Seq<u8>) -> bool {
    binary_extension(lower_ext(p))
}

/// The record of a file; `None` for a text file that is not UTF-8.
pub open spec fn record_of(p: Seq<u8>, label: Seq<u8>, c: Seq<u8>) -> Option<Seq<u8>> {
    if binary_path(p) {
        Some(binary_record(p, c))
    } else if vstd::utf8::valid_utf8(c) {
        Some(text_record(p, label, c))
    } else {
        None
    }
}

fn push_all(out: &mut Vec<u8>, src: &[u8])
    ensures
        final(out)@ == old(out)@ + src@,
{
    push_range(out, src, 0, src.len());
    assert(src@.subrange(0, src@.len() as int) =~= src@);
}

/// The record of one file: `rel_path` is its `/`-separated path under the
/// root, `content` its bytes, `label` the tag of its fence (empty for none;
/// images take the binary tag instead).
pub fn process_file(rel_path: &[u8], content: &[u8], label: &[u8]) -> (r: Result<Vec<u8>, EncodeError>)
    ensures
        match record_of(rel_path@, label@, content@) {
            Some(t) => r is Ok && r->Ok_0@ == t,
            None => (r matches Err(EncodeError::NotUtf8 { path }) && path@ == rel_path@),
        },
{
    let mut out = header_marker_bytes();
    push_all(&mut out, rel_path);
    out.push(NEWLINE);
    out.push(NEWLINE);
    let f = fence_bytes();
    if is_binary_file(rel_path) {
        let bin = binary_fence_bytes();
        push_all(&mut out, &bin);
        out.push(NEWLINE);
        let b64 = encode_base64(content);
        push_all(&mut out, &b64);
        out.push(NEWLINE);
        push_all(&mut out, &f);
        out.push(NEWLINE);
        out.push(NEWLINE);
        assert(out@ =~= binary_record(rel_path@, content@));
        return Ok(out);
    }
    if !is_utf8(content) {
        let mut path: Vec<u8> = Vec::new();
        push_all(&mut path, rel_path);
        return Err(EncodeError::NotUtf8 { path });
    }
    push_all(&mut out, &f);
    push_all(&mut out, label);
    out.push(NEWLINE);
    out.push(NEWLINE);
    let md = is_markdown_path(rel_path);
    let body = escape_markdown_content(content, md);
    push_all(&mut out, &body);
    out.push(NEWLINE);
    out.push(NEWLINE);
    push_all(&mut out, &f);
    out.push(NEWLINE);
    out.push(NEWLINE);
    assert(out@ =~= text_record(rel_path@, label@, content@));
    Ok(out)
}

/// A file handed to `pack_files`.
#[derive(Debug, PartialEq, Eq)]
pub struct SourceFile {
    pub rel_path: Vec<u8>,
    pub content: Vec<u8>,
    pub label: Vec<u8>,
}

/// The bundle of `files` in order; `None` where one of them has no record.
pub open spec fn bundle_of(files: Seq<SourceFile>) -> Option<Seq<u8>>
    decreases files.len(),
{
    if files.len() == 0 {
        Some(Seq::empty())
    } else {
        let f = files.last();
        match (bundle_of(files.drop_last()), record_of(f.rel_path@, f.label@, f.content@)) {
            (Some(a), Some(b)) => Some(a + b),
            _ => None,
        }
    }
}

/// Index of the first file that has no record, if any.
pub open spec fn first_refused(files: Seq<SourceFile>) -> int {
    choose|k: int|
        0 <= k < files.len() && record_of(files[k].rel_path@, files[k].label@, files[k].content@)
            is None && forall|m: int|
            0 <= m < k ==> record_of(files[m].rel_path@, files[m].label@, files[m].content@) is Some
}

pub proof fn lemma_bundle_prefix(files: Seq<SourceFile>)
    ensures
        bundle_of(files) is Some <==> forall|m: int|
            0 <= m < files.len() ==> #[trigger] record_of(files[m].rel_path@, files[m].label@, files[m].content@)
                is Some,
    decreases files.len(),
{
    if files.len() > 0 {
        lemma_bundle_prefix(files.drop_last());
        if bundle_of(files) is Some {
            assert forall|m: int| 0 <= m < files.len() implies #[trigger] record_of(
                files[m].rel_path@,
                files[m].label@,
                files[m].content@,
            ) is Some by {
                if m < files.len() - 1 {
                    assert(files[m] == files.drop_last()[m]);
                }
            }
        } else {
            if forall|m: int| 0 <= m < files.len() ==> #[trigger] record_of(files[m].rel_path@, files[m].label@, files[m].content@) is Some {
                assert forall|m: int| 0 <= m < files.drop_last().len() implies #[trigger] record_of(
                    files.drop_last()[m].rel_path@,
                    files.drop_last()[m].label@,
                    files.drop_last()[m].content@,
                ) is Some by {
                    assert(files[m] == files.drop_last()[m]);
                }
                assert(record_of(files[files.len() - 1].rel_path@, files[files.len() - 1].label@, files[files.len() - 1].content@) is Some);
            }
        }
    }
}

/// The bundle of `files`, in their order; a text file that is not UTF-8
/// stops it with an error that names the first such file.
pub fn pack_files(files: &[SourceFile]) -> (r: Result<Vec<u8>, EncodeError>)
    ensures
        bundle_of(files@) is Some ==> r is Ok && r->Ok_0@ == bundle_of(files@)->Some_0,
        bundle_of(files@) is None ==> (r matches Err(EncodeError::NotUtf8 { path })
            && path@ == files@[first_refused(files@)].rel_path@),
{
    let mut out: Vec<u8> = Vec::new();
    let mut i: usize = 0;
    assert(files@.take(0) =~= Seq::<SourceFile>::empty());
    while i < files.len()
        invariant
            i <= files@.len(),
            bundle_of(files@.take(i as int)) == Some(out@),
        decreases files@.len() - i,
    {
        let f = &files[i];
        assert(files@.take(i + 1).drop_last() =~= files@.take(i as int));
        assert(files@.take(i + 1).last() == files@[i as int]);
        match process_file(&f.rel_path, &f.content, &f.label) {
            Ok(rec) => {
                push_all(&mut out, &rec);
            },
            Err(e) => {
                proof {
                    lemma_bundle_prefix(files@.take(i as int));
                    lemma_bundle_prefix(files@);
                    assert forall|m: int| 0 <= m < i implies #[trigger] record_of(
                        files@[m].rel_path@,
                        files@[m].label@,
                        files@[m].content@,
                    ) is Some by {
                        assert(files@.take(i as int)[m] == files@[m]);
                    }
                    let k = first_refused(files@);
                    assert(0 <= i < files@.len() && record_of(files@[i as int].rel_path@, files@[i as int].label@, files@[i as int].content@) is None);
                    if k < i {
                        assert(record_of(files@[k].rel_path@, files@[k].label@, files@[k].content@) is Some);
                    } else if k > i {
                    }
                    assert(k == i);
                }
                return Err(e);
            },
        }
        i = i + 1;
    }
    assert(files@.take(i as int) =~= files@);
    Ok(out)
}

} // verus!
