//! Reading a bundle back: a state machine over its lines that hands out one
//! pending record per header, and the step that turns a pending record into
//! the bytes of a file.
use vstd::prelude::*;
use crate::bytes::{
    first_nl, lemma_first_nl, push_range, starts_with, starts_with_in, find_nl, trim, trim_bytes,
    NEWLINE,
};
use crate::escape::{fence, fence_bytes, unescape_line, unescape_markdown_content};
use crate::path::{markdown_path, is_markdown_path};
use crate::codec::{base64_of, decode_base64, lemma_base64_injective};

verus! {

pub const CR: u8 = 13;

/// `###  trxx:`, the start of a header line; the path follows it.
pub open spec fn header_marker() -> Seq<u8> {
    seq![35u8, 35u8, 35u8, 32u8, 32u8, 116u8, 114u8, 120u8, 120u8, 58u8]
}

/// The fence that opens a base64 body: three backticks and `binary`.
pub open spec fn binary_fence() -> Seq<u8> {
    seq![96u8, 96u8, 96u8, 98u8, 105u8, 110u8, 97u8, 114u8, 121u8]
}

pub fn header_marker_bytes() -> (r: Vec<u8>)
    ensures
        r@ == header_marker(),
{
    let r = vec![35u8, 35u8, 35u8, 32u8, 32u8, 116u8, 114u8, 120u8, 120u8, 58u8];
    assert(r@ =~= header_marker());
    r
}

pub fn binary_fence_bytes() -> (r: Vec<u8>)
    ensures
        r@ == binary_fence(),
{
    let r = vec![96u8, 96u8, 96u8, 98u8, 105u8, 110u8, 97u8, 114u8, 121u8];
    assert(r@ =~= binary_fence());
    r
}

/// A line without the carriage return that closed it.
pub open spec fn strip_cr(l: Seq<u8>) -> Seq<u8> {
    if l.len() > 0 && l.last() == CR {
        l.drop_last()
    } else {
        l
    }
}

/// The lines of `t`: split at each newline, a carriage return before the
/// newline dropped, and no empty line after a final newline.
pub open spec fn lines_of(t: Seq<u8>) -> Seq<Seq<u8>>
    decreases t.len(),
{
    let j = first_nl(t);
    if t.len() == 0 {
        Seq::empty()
    } else if 0 <= j < t.len() {
        seq![strip_cr(t.take(j))] + lines_of(t.skip(j + 1))
    } else {
        seq![t]
    }
}

/// The state of the decoder between two lines.
pub struct Scan {
    pub path: Seq<u8>,
    pub body: Seq<u8>,
    pub markdown: bool,
    pub in_header: bool,
    pub in_fence: bool,
    pub is_binary: bool,
}

/// A record as the line scan leaves it: its path, the body lines gathered
/// (each with a newline), and whether the body is base64.
pub struct Pending {
    pub path: Seq<u8>,
    pub body: Seq<u8>,
    pub is_binary: bool,
}

pub open spec fn initial() -> Scan {
    Scan {
        path: Seq::empty(),
        body: Seq::empty(),
        markdown: false,
        in_header: true,
        in_fence: false,
        is_binary: false,
    }
}

/// The path named by a header line.
pub open spec fn header_path(line: Seq<u8>) -> Seq<u8> {
    trim(line.skip(header_marker().len() as int), false)
}

/// One line of a bundle applied to the state.
pub open spec fn step(s: Scan, line: Seq<u8>) -> Scan {
    if starts_with(line, header_marker()) {
        let p = header_path(line);
        Scan {
            path: p,
            body: Seq::empty(),
            markdown: markdown_path(p),
            in_header: true,
            in_fence: false,
            is_binary: false,
        }
    } else if !s.in_header {
        if starts_with(line, binary_fence()) {
            Scan { in_fence: true, is_binary: true, body: Seq::empty(), ..s }
        } else if starts_with(line, fence()) {
            Scan { in_fence: !s.in_fence, ..s }
        } else if s.in_fence {
            Scan {
                body: s.body + (if s.markdown { unescape_line(line) } else { line }) + seq![NEWLINE],
                ..s
            }
        } else {
            s
        }
    } else if line.len() == 0 {
        Scan { in_header: false, ..s }
    } else {
        s
    }
}

/// The record that the state holds, if it names a path and has a body.
pub open spec fn ready(s: Scan) -> Seq<Pending> {
    if s.path.len() > 0 && s.body.len() > 0 {
        seq![Pending { path: s.path, body: s.body, is_binary: s.is_binary }]
    } else {
        Seq::empty()
    }
}

/// What a line hands out: a header line closes the record before it.
pub open spec fn emitted(s: Scan, line: Seq<u8>) -> Seq<Pending> {
    if starts_with(line, header_marker()) {
        ready(s)
    } else {
        Seq::empty()
    }
}

/// The records handed out over `lines` from state `s`.
pub open spec fn scan_out(s: Scan, lines: Seq<Seq<u8>>) -> Seq<Pending>
    decreases lines.len(),
{
    if lines.len() == 0 {
        Seq::empty()
    } else {
        emitted(s, lines[0]) + scan_out(step(s, lines[0]), lines.skip(1))
    }
}

/// The state after `lines` from state `s`.
pub open spec fn scan_end(s: Scan, lines: Seq<Seq<u8>>) -> Scan
    decreases lines.len(),
{
    if lines.len() == 0 {
        s
    } else {
        scan_end(step(s, lines[0]), lines.skip(1))
    }
}

/// Every pending record of a bundle, in order.
pub open spec fn pending_of(text: Seq<u8>) -> Seq<Pending> {
    let lines = lines_of(text);
    scan_out(initial(), lines) + ready(scan_end(initial(), lines))
}

/// A record read from a bundle, before its body is turned into bytes.
#[derive(Debug, PartialEq, Eq)]
pub struct PendingRecord {
    pub path: Vec<u8>,
    pub body: Vec<u8>,
    pub is_binary: bool,
}

impl View for PendingRecord {
    type V = Pending;

    open spec fn view(&self) -> Pending {
        Pending { path: self.path@, body: self.body@, is_binary: self.is_binary }
    }
}

/// The line-by-line decoder.
pub struct Decoder {
    path: Vec<u8>,
    body: Vec<u8>,
    markdown: bool,
    in_header: bool,
    in_fence: bool,
    is_binary: bool,
}

impl View for Decoder {
    type V = Scan;

    closed spec fn view(&self) -> Scan {
        Scan {
            path: self.path@,
            body: self.body@,
            markdown: self.markdown,
            in_header: self.in_header,
            in_fence: self.in_fence,
            is_binary: self.is_binary,
        }
    }
}

pub open spec fn opt_seq(o: Option<PendingRecord>) -> Seq<Pending> {
    match o {
        Some(p) => seq![p@],
        None => Seq::empty(),
    }
}

impl Decoder {
    pub fn new() -> (r: Decoder)
        ensures
            r@ == initial(),
    {
        Decoder {
            path: Vec::new(),
            body: Vec::new(),
            markdown: false,
            in_header: true,
            in_fence: false,
            is_binary: false,
        }
    }

    fn take_ready(&self) -> (r: Option<PendingRecord>)
        ensures
            opt_seq(r) == ready(self@),
    {
        if self.path.len() > 0 && self.body.len() > 0 {
            Some(PendingRecord { path: self.path.clone(), body: self.body.clone(), is_binary: self.is_binary })
        } else {
            None
        }
    }

    /// Takes in one line (without its line ending); a header line hands out
    /// the record before it.
    pub fn feed(&mut self, line: &[u8]) -> (r: Option<PendingRecord>)
        ensures
            final(self)@ == step(old(self)@, line@),
            opt_seq(r) == emitted(old(self)@, line@),
    {
        let header = header_marker_bytes();
        let bin = binary_fence_bytes();
        let f = fence_bytes();
        assert(line@.subrange(0, line@.len() as int) =~= line@);
        if starts_with_in(line, 0, line.len(), &header) {
            let out = self.take_ready();
            let mut rest: Vec<u8> = Vec::new();
            push_range(&mut rest, line, header.len(), line.len());
            assert(rest@ =~= line@.skip(header_marker().len() as int));
            let p = trim_bytes(&rest, false);
            self.markdown = is_markdown_path(&p);
            self.path = p;
            self.body = Vec::new();
            self.in_header = true;
            self.in_fence = false;
            self.is_binary = false;
            assert(self@ =~= step(old(self)@, line@));
            return out;
        }
        if !self.in_header {
            if starts_with_in(line, 0, line.len(), &bin) {
                self.in_fence = true;
                self.is_binary = true;
                self.body = Vec::new();
            } else if starts_with_in(line, 0, line.len(), &f) {
                self.in_fence = !self.in_fence;
            } else if self.in_fence {
                let l = unescape_markdown_content(line, self.markdown);
                let ghost before = self.body@;
                push_range(&mut self.body, &l, 0, l.len());
                self.body.push(NEWLINE);
                assert(l@.subrange(0, l@.len() as int) =~= l@);
                assert(self.body@ =~= before + l@ + seq![NEWLINE]);
            }
        } else if line.len() == 0 {
            self.in_header = false;
        }
        assert(self@ =~= step(old(self)@, line@));
        None
    }

    /// Ends the input: hands out the last record, if any.
    pub fn finish(&self) -> (r: Option<PendingRecord>)
        ensures
            opt_seq(r) == ready(self@),
    {
        self.take_ready()
    }
}

/// Splits a bundle into its pending records, in order.
pub fn parse_bundle(text: &[u8]) -> (r: Vec<PendingRecord>)
    ensures
        r@.map_values(|p: PendingRecord| p@) == pending_of(text@),
{
    let mut dec = Decoder::new();
    let mut out: Vec<PendingRecord> = Vec::new();
    let mut i: usize = 0;
    assert(text@.skip(0) =~= text@);
    while i < text.len()
        invariant
            i <= text@.len(),
            out@.map_values(|p: PendingRecord| p@) + scan_out(dec@, lines_of(text@.skip(i as int)))
                == scan_out(initial(), lines_of(text@)),
            scan_end(dec@, lines_of(text@.skip(i as int))) == scan_end(initial(), lines_of(text@)),
        decreases text@.len() - i,
    {
        let j = find_nl(text, i);
        let ghost rest = text@.skip(i as int);
        proof {
            lemma_first_nl(rest);
        }
        let mut hi = j;
        if j < text.len() && j > i && text[j - 1] == CR {
            hi = j - 1;
        }
        let mut line: Vec<u8> = Vec::new();
        push_range(&mut line, text, i, hi);
        let ghost lines = lines_of(rest);
        let ghost next = if j < text@.len() { text@.skip(j + 1) } else { Seq::<u8>::empty() };
        proof {
            if j < text@.len() {
                assert(rest.skip(j - i + 1) =~= next);
                if j > i {
                    assert(rest.take(j - i).drop_last() =~= text@.subrange(i as int, j - 1));
                }
                assert(line@ =~= strip_cr(rest.take(j - i)));
            } else {
                assert(line@ =~= rest);
            }
            assert(lines[0] == line@);
            assert(lines.skip(1) =~= lines_of(next));
        }
        let ghost s0 = dec@;
        let ghost before = out@;
        let r = dec.feed(&line);
        match r {
            Some(p) => {
                out.push(p);
            },
            None => {},
        }
        assert(out@.map_values(|p: PendingRecord| p@) =~= before.map_values(|p: PendingRecord| p@)
            + emitted(s0, line@));
        if j == text.len() {
            assert(lines_of(text@.skip(text@.len() as int)) =~= Seq::<Seq<u8>>::empty()) by {
                assert(text@.skip(text@.len() as int) =~= Seq::<u8>::empty());
            }
            i = j;
        } else {
            assert(text@.skip(j + 1) == next);
            i = j + 1;
        }
        assert(text@.skip(i as int) =~= next);
    }
    let last = dec.finish();
    match last {
        Some(p) => {
            out.push(p);
        },
        None => {},
    }
    proof {
        assert(lines_of(text@.skip(i as int)) =~= Seq::<Seq<u8>>::empty()) by {
            assert(text@.skip(i as int) =~= Seq::<u8>::empty());
        }
    }
    assert(out@.map_values(|p: PendingRecord| p@) =~= pending_of(text@));
    out
}

} // verus!

verus! {

/// A file as decoded from a bundle.
#[derive(Debug, PartialEq, Eq)]
pub struct FileRecord {
    pub path: Vec<u8>,
    pub content: Vec<u8>,
}

/// A binary record whose body is not base64.
#[derive(Debug, PartialEq, Eq)]
pub enum RevertError {
    InvalidBase64 { path: Vec<u8> },
}

/// The contents of a text record: its body without the newlines around it.
pub open spec fn text_content(p: Pending) -> Seq<u8> {
    trim(p.body, true)
}

/// The base64 text of a binary record: its body without white space around it.
pub open spec fn payload(p: Pending) -> Seq<u8> {
    trim(p.body, false)
}

/// What a pending record turns into: `None` for a binary body that is not
/// base64, `Some(None)` for a record with nothing in it, else the bytes of
/// its file.
pub open spec fn outcome(p: Pending) -> Option<Option<Seq<u8>>> {
    if p.is_binary {
        if payload(p).len() == 0 {
            Some(None)
        } else if exists|b: Seq<u8>| base64_of(b) == payload(p) {
            Some(Some(choose|b: Seq<u8>| base64_of(b) == payload(p)))
        } else {
            None
        }
    } else if text_content(p).len() == 0 {
        Some(None)
    } else {
        Some(Some(text_content(p)))
    }
}

/// Turns a pending record into a file. `Ok(None)` is a record with nothing
/// in it, which is skipped.
pub fn finish_record(rec: &PendingRecord) -> (r: Result<Option<FileRecord>, RevertError>)
    ensures
        !rec.is_binary ==> r is Ok,
        !rec.is_binary ==> (r->Ok_0 is None <==> text_content(rec@).len() == 0),
        !rec.is_binary && r->Ok_0 is Some ==> r->Ok_0->Some_0.content@ == text_content(rec@),
        rec.is_binary && payload(rec@).len() == 0 ==> (r is Ok && r->Ok_0 is None),
        rec.is_binary && payload(rec@).len() > 0 ==> forall|b: Seq<u8>| #[trigger]
            base64_of(b) == payload(rec@) ==> (r is Ok && r->Ok_0 is Some
                && r->Ok_0->Some_0.content@ == b),
        rec.is_binary && payload(rec@).len() > 0 ==> (r is Err || r->Ok_0 is Some),
        rec.is_binary && payload(rec@).len() > 0 ==> (r is Ok <==> exists|b: Seq<u8>|
            base64_of(b) == payload(rec@)),
        rec.is_binary && r is Ok && r->Ok_0 is Some ==> base64_of(r->Ok_0->Some_0.content@)
            == payload(rec@),
        match outcome(rec@) {
            None => r is Err,
            Some(None) => r is Ok && r->Ok_0 is None,
            Some(Some(c)) => r is Ok && r->Ok_0 is Some && r->Ok_0->Some_0.content@ == c,
        },
        r is Ok && r->Ok_0 is Some ==> r->Ok_0->Some_0.path@ == rec.path@,
        r matches Err(RevertError::InvalidBase64 { path }) ==> rec.is_binary && path@ == rec.path@,
{
    if rec.is_binary {
        let t = trim_bytes(&rec.body, false);
        if t.len() == 0 {
            return Ok(None);
        }
        match decode_base64(&t) {
            Ok(bytes) => {
                proof {
                    let c = choose|b: Seq<u8>| base64_of(b) == payload(rec@);
                    lemma_base64_injective(c, bytes@);
                }
                Ok(Some(FileRecord { path: rec.path.clone(), content: bytes }))
            },
            Err(_) => Err(RevertError::InvalidBase64 { path: rec.path.clone() }),
        }
    } else {
        let t = trim_bytes(&rec.body, true);
        if t.len() == 0 {
            return Ok(None);
        }
        Ok(Some(FileRecord { path: rec.path.clone(), content: t }))
    }
}

} // verus!

verus! {

/// The files that one revert run writes for the pending records `ps`, in
/// order, as (path, contents): every record's file, skipping empty records,
/// up to the first record that is refused.
pub open spec fn writes(ps: Seq<Pending>) -> Seq<(Seq<u8>, Seq<u8>)>
    decreases ps.len(),
{
    if ps.len() == 0 {
        Seq::empty()
    } else {
        match outcome(ps[0]) {
            None => Seq::empty(),
            Some(None) => writes(ps.skip(1)),
            Some(Some(c)) => seq![(ps[0].path, c)] + writes(ps.skip(1)),
        }
    }
}

/// The path of the first record of `ps` that is refused, if any.
pub open spec fn stopped_at(ps: Seq<Pending>) -> Option<Seq<u8>>
    decreases ps.len(),
{
    if ps.len() == 0 {
        None
    } else {
        match outcome(ps[0]) {
            None => Some(ps[0].path),
            _ => stopped_at(ps.skip(1)),
        }
    }
}

/// Decodes a whole bundle: the files to write, in order, and the error of
/// the record that stopped the run, if one did.
pub fn decode_bundle(text: &[u8]) -> (r: (Vec<FileRecord>, Option<RevertError>))
    ensures
        r.0@.map_values(|f: FileRecord| (f.path@, f.content@)) == writes(pending_of(text@)),
        match stopped_at(pending_of(text@)) {
            None => r.1 is None,
            Some(p) => (r.1 matches Some(RevertError::InvalidBase64 { path }) && path@ == p),
        },
{
    let recs = parse_bundle(text);
    let ghost ps = recs@.map_values(|p: PendingRecord| p@);
    let mut out: Vec<FileRecord> = Vec::new();
    let mut i: usize = 0;
    assert(ps.skip(0) =~= ps);
    while i < recs.len()
        invariant
            i <= recs@.len() == ps.len(),
            ps == recs@.map_values(|p: PendingRecord| p@),
            ps == pending_of(text@),
            out@.map_values(|f: FileRecord| (f.path@, f.content@)) + writes(ps.skip(i as int))
                == writes(ps),
            stopped_at(ps.skip(i as int)) == stopped_at(ps),
        decreases recs@.len() - i,
    {
        let ghost rest = ps.skip(i as int);
        assert(rest[0] == recs@[i as int]@);
        assert(rest.skip(1) =~= ps.skip(i + 1));
        let ghost before = out@.map_values(|f: FileRecord| (f.path@, f.content@));
        match finish_record(&recs[i]) {
            Ok(Some(f)) => {
                out.push(f);
                assert(out@.map_values(|f: FileRecord| (f.path@, f.content@)) =~= before + seq![
                    (rest[0].path, outcome(rest[0])->Some_0->Some_0),
                ]);
            },
            Ok(None) => {},
            Err(e) => {
                assert(writes(rest) == Seq::<(Seq<u8>, Seq<u8>)>::empty());
                assert(before + writes(rest) =~= before);
                return (out, Some(e));
            },
        }
        i = i + 1;
    }
    assert(ps.skip(i as int) =~= Seq::<Pending>::empty());
    assert(out@.map_values(|f: FileRecord| (f.path@, f.content@)) + Seq::<(Seq<u8>, Seq<u8>)>::empty()
        =~= out@.map_values(|f: FileRecord| (f.path@, f.content@)));
    (out, None)
}

} // verus!
