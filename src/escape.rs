//! The escaping rule for bodies of markdown files: a line that begins with a
//! fence or with `#` gets a leading backslash, which decoding takes off again.
use vstd::prelude::*;
use crate::bytes::{
    first_nl, lemma_first_nl, starts_with, find_nl, push_range, starts_with_in, BACKSLASH,
    BACKTICK, HASH, NEWLINE,
};

verus! {

/// The fence prefix: three backticks.
pub open spec fn fence() -> Seq<u8> {
    seq![BACKTICK, BACKTICK, BACKTICK]
}

/// A line that would be read as a fence or a heading.
pub open spec fn needs_escape(l: Seq<u8>) -> bool {
    starts_with(l, fence()) || starts_with(l, seq![HASH])
}

/// A line that begins with a backslash followed by a fence or `#`.
pub open spec fn is_escaped(l: Seq<u8>) -> bool {
    starts_with(l, seq![BACKSLASH] + fence()) || starts_with(l, seq![BACKSLASH, HASH])
}

pub open spec fn escape_line(l: Seq<u8>) -> Seq<u8> {
    if needs_escape(l) {
        seq![BACKSLASH] + l
    } else {
        l
    }
}

pub open spec fn unescape_line(l: Seq<u8>) -> Seq<u8> {
    if is_escaped(l) {
        l.skip(1)
    } else {
        l
    }
}

/// `c` with every line (the parts between newlines) passed through `escape_line`.
pub open spec fn escape_text(c: Seq<u8>) -> Seq<u8>
    decreases c.len(),
{
    let j = first_nl(c);
    if 0 <= j < c.len() {
        escape_line(c.take(j)) + seq![NEWLINE] + escape_text(c.skip(j + 1))
    } else {
        escape_line(c)
    }
}

/// The fence prefix as bytes.
pub fn fence_bytes() -> (r: Vec<u8>)
    ensures
        r@ == fence(),
{
    let r = vec![BACKTICK, BACKTICK, BACKTICK];
    assert(r@ =~= fence());
    r
}

/// Escapes the lines of a markdown body; any other body is returned as it is.
pub fn escape_markdown_content(content: &[u8], is_markdown: bool) -> (r: Vec<u8>)
    ensures
        r@ == (if is_markdown { escape_text(content@) } else { content@ }),
{
    let mut out: Vec<u8> = Vec::new();
    if !is_markdown {
        push_range(&mut out, content, 0, content.len());
        assert(content@.subrange(0, content@.len() as int) =~= content@);
        return out;
    }
    let f = fence_bytes();
    let hash = vec![HASH];
    assert(hash@ =~= seq![HASH]);
    let mut i: usize = 0;
    assert(content@.skip(0) =~= content@);
    loop
        invariant
            is_markdown,
            i <= content@.len(),
            f@ == fence(),
            hash@ == seq![HASH],
            out@ + escape_text(content@.skip(i as int)) == escape_text(content@),
        decreases content@.len() - i,
    {
        let j = find_nl(content, i);
        let ghost rest = content@.skip(i as int);
        let ghost line = content@.subrange(i as int, j as int);
        proof {
            lemma_first_nl(rest);
            assert(rest.take(j - i) =~= line);
        }
        let ghost before = out@;
        if starts_with_in(content, i, j, &f) || starts_with_in(content, i, j, &hash) {
            out.push(BACKSLASH);
        }
        push_range(&mut out, content, i, j);
        assert(out@ =~= before + escape_line(line));
        if j == content.len() {
            assert(rest =~= line);
            assert(escape_text(rest) == escape_line(line));
            assert(out@ == escape_text(content@));
            return out;
        }
        out.push(NEWLINE);
        assert(rest.skip(j - i + 1) =~= content@.skip(j + 1));
        assert(escape_text(rest) == escape_line(line) + seq![NEWLINE] + escape_text(
            content@.skip(j + 1),
        ));
        assert(out@ + escape_text(content@.skip(j + 1)) =~= before + escape_text(rest));
        i = j + 1;
    }
}

/// Takes the escaping backslash off one line of a markdown body; any other
/// line is returned as it is.
pub fn unescape_markdown_content(line: &[u8], is_markdown: bool) -> (r: Vec<u8>)
    ensures
        r@ == (if is_markdown { unescape_line(line@) } else { line@ }),
{
    let mut out: Vec<u8> = Vec::new();
    let mut bf = vec![BACKSLASH, BACKTICK, BACKTICK, BACKTICK];
    let bh = vec![BACKSLASH, HASH];
    assert(bf@ =~= seq![BACKSLASH] + fence());
    assert(bh@ =~= seq![BACKSLASH, HASH]);
    if is_markdown && (starts_with_in(line, 0, line.len(), &bf) || starts_with_in(
        line,
        0,
        line.len(),
        &bh,
    )) {
        push_range(&mut out, line, 1, line.len());
        assert(line@.subrange(1, line@.len() as int) =~= line@.skip(1));
    } else {
        push_range(&mut out, line, 0, line.len());
    }
    assert(line@.subrange(0, line@.len() as int) =~= line@);
    out
}

} // verus!
