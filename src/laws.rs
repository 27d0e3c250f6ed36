//! What holds of the bundle format as a whole: escaping undone by
//! unescaping, the binary flag, and that decoding a bundle gives back the
//! files that were packed into it.
use vstd::prelude::*;
use crate::bytes::{first_nl, lemma_first_nl, lemma_first_nl_unique, starts_with, NEWLINE};
use crate::escape::{escape_line, escape_text, fence, is_escaped, needs_escape, unescape_line};
use crate::decode::{
    binary_fence, header_marker, lines_of, ready, strip_cr, step, Scan, scan_out, scan_end, CR,
};
use crate::bytes::{back_ws, front_ws, lead, trail, trim};
use crate::path::markdown_path;
use crate::encode::{binary_path, binary_record, bundle_of, record_of, text_body, text_record, SourceFile};
use crate::decode::{initial, payload, pending_of, text_content, writes, Pending};
use crate::codec::{base64_byte, base64_of, lemma_base64_shape};

verus! {

/// `s` holds no newline.
pub open spec fn no_nl(s: Seq<u8>) -> bool {
    forall|k: int| 0 <= k < s.len() ==> s[k] != NEWLINE
}

/// The parts of `c` between its newlines (one more than it has newlines).
pub open spec fn pieces(c: Seq<u8>) -> Seq<Seq<u8>>
    decreases c.len(),
{
    let j = first_nl(c);
    if 0 <= j < c.len() {
        seq![c.take(j)] + pieces(c.skip(j + 1))
    } else {
        seq![c]
    }
}

/// Each of `ls` followed by a newline, one after the other.
pub open spec fn join_lines(ls: Seq<Seq<u8>>) -> Seq<u8>
    decreases ls.len(),
{
    if ls.len() == 0 {
        Seq::empty()
    } else {
        ls[0] + seq![NEWLINE] + join_lines(ls.skip(1))
    }
}

/// A line that does not end with a carriage return.
pub open spec fn no_cr_end(l: Seq<u8>) -> bool {
    l.len() == 0 || l.last() != CR
}

proof fn lemma_lines_empty()
    ensures
        lines_of(Seq::empty()) == Seq::<Seq<u8>>::empty(),
{
}

proof fn lemma_lines_concat(a: Seq<u8>, b: Seq<u8>)
    requires
        a.len() > 0,
        a.last() == NEWLINE,
    ensures
        lines_of(a + b) == lines_of(a) + lines_of(b),
    decreases a.len(),
{
    lemma_first_nl(a);
    let j = first_nl(a);
    assert(j < a.len());
    assert forall|k: int| 0 <= k < j implies (a + b)[k] != NEWLINE by {
        assert((a + b)[k] == a[k]);
    }
    lemma_first_nl_unique(a + b, j);
    assert((a + b).take(j) =~= a.take(j));
    assert((a + b).skip(j + 1) =~= a.skip(j + 1) + b);
    if j + 1 == a.len() {
        assert(a.skip(j + 1) =~= Seq::<u8>::empty());
        assert(a.skip(j + 1) + b =~= b);
        assert(lines_of(a) =~= seq![strip_cr(a.take(j))] + lines_of(Seq::<u8>::empty()));
        assert(lines_of(a) =~= seq![strip_cr(a.take(j))]);
    } else {
        lemma_lines_concat(a.skip(j + 1), b);
        assert(lines_of(a + b) =~= seq![strip_cr(a.take(j))] + (lines_of(a.skip(j + 1)) + lines_of(b)));
    }
}

proof fn lemma_line_single(x: Seq<u8>)
    requires
        no_nl(x),
    ensures
        lines_of(x + seq![NEWLINE]) == seq![strip_cr(x)],
{
    let t = x + seq![NEWLINE];
    assert forall|k: int| 0 <= k < x.len() implies t[k] != NEWLINE by {
        assert(t[k] == x[k]);
    }
    lemma_first_nl_unique(t, x.len() as int);
    assert(t.take(x.len() as int) =~= x);
    assert(t.skip(x.len() as int + 1) =~= Seq::<u8>::empty());
    assert(lines_of(t) =~= seq![strip_cr(x)] + lines_of(Seq::<u8>::empty()));
}

proof fn lemma_pieces_facts(c: Seq<u8>)
    ensures
        pieces(c).len() > 0,
        forall|i: int| 0 <= i < pieces(c).len() ==> no_nl(#[trigger] pieces(c)[i]),
        lines_of(c + seq![NEWLINE]) == pieces(c).map_values(|l: Seq<u8>| strip_cr(l)),
        join_lines(pieces(c)) == c + seq![NEWLINE],
    decreases c.len(),
{
    lemma_first_nl(c);
    let j = first_nl(c);
    let t = c + seq![NEWLINE];
    assert forall|k: int| 0 <= k < j implies t[k] != NEWLINE by {
        assert(t[k] == c[k]);
    }
    lemma_first_nl_unique(t, j);
    assert(t.take(j) =~= c.take(j));
    if j < c.len() {
        let r = c.skip(j + 1);
        lemma_pieces_facts(r);
        assert(t.skip(j + 1) =~= r + seq![NEWLINE]);
        assert forall|i: int| 0 <= i < pieces(c).len() implies no_nl(#[trigger] pieces(c)[i]) by {
            if i > 0 {
                assert(pieces(c)[i] == pieces(r)[i - 1]);
            }
        }
        assert(lines_of(t) =~= pieces(c).map_values(|l: Seq<u8>| strip_cr(l)));
        assert(pieces(c).skip(1) =~= pieces(r));
        assert(c.take(j) + seq![NEWLINE] + (r + seq![NEWLINE]) =~= t);
    } else {
        assert(t.take(j) =~= c);
        assert(t.skip(j + 1) =~= Seq::<u8>::empty());
        assert(lines_of(t) =~= seq![strip_cr(c)] + lines_of(Seq::<u8>::empty()));
        assert(lines_of(t) =~= pieces(c).map_values(|l: Seq<u8>| strip_cr(l)));
        assert(pieces(c).skip(1) =~= Seq::<Seq<u8>>::empty());
        assert(join_lines(pieces(c)) =~= c + seq![NEWLINE] + join_lines(Seq::<Seq<u8>>::empty()));
    }
}

proof fn lemma_escape_line_no_nl(l: Seq<u8>)
    requires
        no_nl(l),
    ensures
        no_nl(escape_line(l)),
        l.len() > 0 ==> escape_line(l).last() == l.last(),
        escape_line(l).len() == 0 ==> l.len() == 0,
{
    if needs_escape(l) {
        assert forall|k: int| 0 <= k < escape_line(l).len() implies escape_line(l)[k] != NEWLINE by {
            if k > 0 {
                assert(escape_line(l)[k] == l[k - 1]);
            }
        }
    }
}

proof fn lemma_pieces_escape(c: Seq<u8>)
    ensures
        pieces(escape_text(c)) == pieces(c).map_values(|l: Seq<u8>| escape_line(l)),
    decreases c.len(),
{
    lemma_first_nl(c);
    let j = first_nl(c);
    let e = escape_text(c);
    let x = c.take(j);
    assert(no_nl(x));
    lemma_escape_line_no_nl(x);
    let el = escape_line(x);
    if j < c.len() {
        let r = c.skip(j + 1);
        lemma_pieces_escape(r);
        assert(e == el + seq![NEWLINE] + escape_text(r));
        assert forall|k: int| 0 <= k < el.len() implies e[k] != NEWLINE by {
            assert(e[k] == el[k]);
        }
        lemma_first_nl_unique(e, el.len() as int);
        assert(e.take(el.len() as int) =~= el);
        assert(e.skip(el.len() as int + 1) =~= escape_text(r));
        assert(pieces(e) =~= seq![el] + pieces(escape_text(r)));
        assert(pieces(c) =~= seq![x] + pieces(r));
        assert(pieces(c).map_values(|l: Seq<u8>| escape_line(l)) =~= seq![el] + pieces(r).map_values(
            |l: Seq<u8>| escape_line(l),
        ));
    } else {
        assert(x =~= c);
        assert(e == el);
        lemma_first_nl_unique(e, el.len() as int);
        assert(pieces(c).map_values(|l: Seq<u8>| escape_line(l)) =~= seq![el]);
    }
}

/// Escaping a line and taking the escape off again gives the line back,
/// for every line that does not already begin with a backslash followed by
/// a fence or `#`.
pub proof fn lemma_escape_round_trip(l: Seq<u8>)
    requires
        !is_escaped(l),
    ensures
        unescape_line(escape_line(l)) == l,
{
    if needs_escape(l) {
        let e = seq![crate::bytes::BACKSLASH] + l;
        if starts_with(l, fence()) {
            assert(e.subrange(0, 4) =~= seq![crate::bytes::BACKSLASH] + fence());
        } else {
            assert(l[0] == l.subrange(0, 1)[0]);
            assert(e[1] == l[0]);
            assert(e.subrange(0, 2) =~= seq![crate::bytes::BACKSLASH, crate::bytes::HASH]);
        }
        assert(e.skip(1) =~= l);
    }
}

proof fn lemma_scan_one(s: Scan, l: Seq<u8>)
    ensures
        scan_out(s, seq![l]) == crate::decode::emitted(s, l),
        scan_end(s, seq![l]) == step(s, l),
{
    let one = seq![l];
    assert(one[0] == l);
    assert(one.skip(1) =~= Seq::<Seq<u8>>::empty());
    assert(scan_out(step(s, l), one.skip(1)) == Seq::<crate::decode::Pending>::empty());
    assert(scan_end(step(s, l), one.skip(1)) == step(s, l));
    assert(scan_out(s, seq![l]) =~= crate::decode::emitted(s, l) + Seq::<crate::decode::Pending>::empty());
}

proof fn lemma_scan_concat(s: Scan, a: Seq<Seq<u8>>, b: Seq<Seq<u8>>)
    ensures
        scan_out(s, a + b) == scan_out(s, a) + scan_out(scan_end(s, a), b),
        scan_end(s, a + b) == scan_end(scan_end(s, a), b),
    decreases a.len(),
{
    if a.len() == 0 {
        assert(a + b =~= b);
    } else {
        assert((a + b)[0] == a[0]);
        assert((a + b).skip(1) =~= a.skip(1) + b);
        lemma_scan_concat(step(s, a[0]), a.skip(1), b);
    }
}

proof fn lemma_binary_fence_is_fence(l: Seq<u8>)
    ensures
        starts_with(l, binary_fence()) ==> starts_with(l, fence()),
{
    if starts_with(l, binary_fence()) {
        assert(l.subrange(0, 3) =~= l.subrange(0, 9).subrange(0, 3));
        assert(binary_fence().subrange(0, 3) =~= fence());
    }
}

/// The line as the decoder stores it.
pub open spec fn body_line(markdown: bool, l: Seq<u8>) -> Seq<u8> {
    if markdown {
        unescape_line(l)
    } else {
        l
    }
}

proof fn lemma_scan_body(s: Scan, ls: Seq<Seq<u8>>)
    requires
        !s.in_header,
        s.in_fence,
        forall|i: int|
            0 <= i < ls.len() ==> !starts_with(#[trigger] ls[i], header_marker()) && !starts_with(
                ls[i],
                fence(),
            ),
    ensures
        scan_out(s, ls) == Seq::<crate::decode::Pending>::empty(),
        scan_end(s, ls) == (Scan {
            body: s.body + join_lines(ls.map_values(|l: Seq<u8>| body_line(s.markdown, l))),
            ..s
        }),
    decreases ls.len(),
{
    let m = ls.map_values(|l: Seq<u8>| body_line(s.markdown, l));
    if ls.len() == 0 {
        assert(s.body + join_lines(m) =~= s.body);
    } else {
        lemma_binary_fence_is_fence(ls[0]);
        let s1 = step(s, ls[0]);
        assert(s1 == Scan { body: s.body + body_line(s.markdown, ls[0]) + seq![NEWLINE], ..s });
        assert forall|i: int| 0 <= i < ls.skip(1).len() implies !starts_with(
            #[trigger] ls.skip(1)[i],
            header_marker(),
        ) && !starts_with(ls.skip(1)[i], fence()) by {
            assert(ls.skip(1)[i] == ls[i + 1]);
        }
        lemma_scan_body(s1, ls.skip(1));
        assert(m.skip(1) =~= ls.skip(1).map_values(|l: Seq<u8>| body_line(s.markdown, l)));
        assert(s1.body + join_lines(m.skip(1)) =~= s.body + join_lines(m));
    }
}

/// The word that follows the fence in the binary fence.
pub open spec fn binary_word() -> Seq<u8> {
    seq![98u8, 105u8, 110u8, 97u8, 114u8, 121u8]
}

/// A path that a header carries unchanged: not empty, on one line, with no
/// white space at either end.
pub open spec fn path_ok(p: Seq<u8>) -> bool {
    p.len() > 0 && no_nl(p) && front_ws(p, false) == 0 && back_ws(p, false) == 0
}

/// A fence tag that reads back as a text fence.
pub open spec fn label_ok(label: Seq<u8>) -> bool {
    no_nl(label) && !starts_with(label, binary_word()) && no_cr_end(label)
}

/// Text contents that a record carries unchanged: not empty, no newline at
/// either end, no carriage return before a line end, and no line that the
/// decoder would take for structure: in markdown, no line that already looks
/// escaped; elsewhere, no line that begins with a fence or a header.
pub open spec fn content_ok(p: Seq<u8>, c: Seq<u8>) -> bool {
    &&& c.len() > 0
    &&& c[0] != NEWLINE
    &&& c.last() != NEWLINE
    &&& forall|i: int|
        0 <= i < pieces(c).len() ==> no_cr_end(#[trigger] pieces(c)[i]) && (if markdown_path(p) {
            !is_escaped(pieces(c)[i])
        } else {
            !starts_with(pieces(c)[i], fence()) && !starts_with(pieces(c)[i], header_marker())
        })
}

proof fn lemma_first_byte(y: Seq<u8>, q: Seq<u8>)
    requires
        starts_with(y, q),
        q.len() > 0,
    ensures
        y[0] == q[0],
{
    assert(y[0] == y.subrange(0, q.len() as int)[0]);
}

proof fn lemma_path_trim(p: Seq<u8>)
    requires
        path_ok(p),
    ensures
        trim(p, false) == p,
        strip_cr(p) == p,
{
    assert(lead(p, false) == 0);
    assert(p.skip(0) =~= p);
    assert(trail(p, false) == 0);
    assert(p.take(p.len() as int) =~= p);
}

proof fn lemma_lines_nl_only()
    ensures
        lines_of(seq![NEWLINE]) == seq![Seq::<u8>::empty()],
{
    lemma_line_single(Seq::<u8>::empty());
    assert(Seq::<u8>::empty() + seq![NEWLINE] =~= seq![NEWLINE]);
}

proof fn lemma_no_nl_concat(a: Seq<u8>, b: Seq<u8>)
    requires
        no_nl(a),
        no_nl(b),
    ensures
        no_nl(a + b),
{
    assert forall|k: int| 0 <= k < (a + b).len() implies (a + b)[k] != NEWLINE by {
        if k < a.len() {
            assert((a + b)[k] == a[k]);
        } else {
            assert((a + b)[k] == b[k - a.len()]);
        }
    }
}

proof fn lemma_scan_cons(s: Scan, l: Seq<u8>, rest: Seq<Seq<u8>>)
    ensures
        scan_out(s, seq![l] + rest) == crate::decode::emitted(s, l) + scan_out(step(s, l), rest),
        scan_end(s, seq![l] + rest) == scan_end(step(s, l), rest),
{
    lemma_scan_concat(s, seq![l], rest);
    lemma_scan_one(s, l);
}

proof fn lemma_text_lines(p: Seq<u8>, label: Seq<u8>, c: Seq<u8>)
    requires
        path_ok(p),
        label_ok(label),
        content_ok(p, c),
    ensures
        lines_of(text_record(p, label, c)) == seq![header_marker() + p, Seq::<u8>::empty(), fence() + label, Seq::<u8>::empty()]
            + pieces(text_body(p, c)) + seq![Seq::<u8>::empty(), fence(), Seq::<u8>::empty()],
        forall|i: int|
            0 <= i < pieces(text_body(p, c)).len() ==> !starts_with(
                #[trigger] pieces(text_body(p, c))[i],
                header_marker(),
            ) && !starts_with(pieces(text_body(p, c))[i], fence()),
        pieces(text_body(p, c)).map_values(|l: Seq<u8>| body_line(markdown_path(p), l)) == pieces(c),
{
    let b = text_body(p, c);
    let nl = seq![NEWLINE];
    let e = Seq::<u8>::empty();
    let a1 = header_marker() + p + nl;
    let a3 = fence() + label + nl;
    let bb = b + nl;
    let a6 = fence() + nl;
    let t = a1 + (nl + (a3 + (nl + (bb + (nl + (a6 + nl))))));
    assert(text_record(p, label, c) =~= t);
    lemma_path_trim(p);
    let hp = header_marker() + p;
    lemma_no_nl_concat(header_marker(), p);
    assert(hp + nl =~= a1);
    lemma_line_single(hp);
    assert(strip_cr(hp) == hp) by {
        assert(hp.last() == p.last());
    }
    let fl = fence() + label;
    lemma_no_nl_concat(fence(), label);
    lemma_line_single(fl);
    assert(strip_cr(fl) == fl) by {
        if label.len() > 0 {
            assert(fl.last() == label.last());
        }
    }
    lemma_no_nl_concat(fence(), e);
    assert(fence() + e =~= fence());
    lemma_line_single(fence());
    lemma_lines_nl_only();
    lemma_pieces_facts(c);
    lemma_pieces_facts(b);
    let pc = pieces(c);
    let pb = pieces(b);
    let md = markdown_path(p);
    if md {
        lemma_pieces_escape(c);
        assert(pb == pc.map_values(|l: Seq<u8>| escape_line(l)));
        assert forall|i: int| 0 <= i < pb.len() implies no_cr_end(#[trigger] pb[i]) && !starts_with(
            pb[i],
            header_marker(),
        ) && !starts_with(pb[i], fence()) && body_line(md, pb[i]) == pc[i] by {
            let x = pc[i];
            assert(pb[i] == escape_line(x));
            lemma_escape_line_no_nl(x);
            lemma_escape_round_trip(x);
            if needs_escape(x) {
                if starts_with(pb[i], header_marker()) {
                    lemma_first_byte(pb[i], header_marker());
                }
                if starts_with(pb[i], fence()) {
                    lemma_first_byte(pb[i], fence());
                }
            } else {
                if starts_with(x, header_marker()) {
                    lemma_first_byte(x, header_marker());
                    assert(x.subrange(0, 1) =~= seq![crate::bytes::HASH]);
                }
            }
        }
        assert(pb.map_values(|l: Seq<u8>| body_line(md, l)) =~= pc);
    } else {
        assert(pb == pc);
        assert(pb.map_values(|l: Seq<u8>| body_line(md, l)) =~= pc);
    }
    assert(pb.map_values(|l: Seq<u8>| strip_cr(l)) =~= pb);
    assert(strip_cr(fence()) == fence());
    assert(lines_of(a6) == seq![fence()]);
    assert(lines_of(a1) == seq![hp]);
    assert(lines_of(a3) == seq![fl]);
    assert(lines_of(bb) == pb);
    let r6 = a6 + nl;
    let r5 = nl + r6;
    let r4 = bb + r5;
    let r3 = nl + r4;
    let r2 = a3 + r3;
    let r1 = nl + r2;
    lemma_lines_concat(a6, nl);
    assert(lines_of(r6) =~= seq![fence(), e]);
    lemma_lines_concat(nl, r6);
    assert(lines_of(r5) =~= seq![e, fence(), e]);
    lemma_lines_concat(bb, r5);
    assert(lines_of(r4) =~= pb + seq![e, fence(), e]);
    lemma_lines_concat(nl, r4);
    assert(lines_of(r3) =~= seq![e] + pb + seq![e, fence(), e]);
    lemma_lines_concat(a3, r3);
    assert(lines_of(r2) =~= seq![fl, e] + pb + seq![e, fence(), e]);
    lemma_lines_concat(nl, r2);
    assert(lines_of(r1) =~= seq![e, fl, e] + pb + seq![e, fence(), e]);
    lemma_lines_concat(a1, r1);
    assert(t == a1 + r1);
    assert(lines_of(t) =~= seq![hp, e, fl, e] + pb + seq![e, fence(), e]);
}

/// The decoder state after the record of a text file.
pub open spec fn text_end(p: Seq<u8>, c: Seq<u8>) -> Scan {
    Scan {
        path: p,
        body: seq![NEWLINE] + c + seq![NEWLINE, NEWLINE],
        markdown: markdown_path(p),
        in_header: false,
        in_fence: false,
        is_binary: false,
    }
}

proof fn lemma_header_step(s: Scan, p: Seq<u8>)
    requires
        path_ok(p),
    ensures
        crate::decode::emitted(s, header_marker() + p) == ready(s),
        step(s, header_marker() + p) == (Scan {
            path: p,
            body: Seq::empty(),
            markdown: markdown_path(p),
            in_header: true,
            in_fence: false,
            is_binary: false,
        }),
{
    let l = header_marker() + p;
    assert(l.subrange(0, 10) =~= header_marker());
    assert(l.skip(10) =~= p);
    lemma_path_trim(p);
}

#[verifier::rlimit(50)]
proof fn lemma_text_scan(s: Scan, p: Seq<u8>, label: Seq<u8>, c: Seq<u8>)
    requires
        path_ok(p),
        label_ok(label),
        content_ok(p, c),
    ensures
        scan_out(s, lines_of(text_record(p, label, c))) == ready(s),
        scan_end(s, lines_of(text_record(p, label, c))) == text_end(p, c),
{
    lemma_text_lines(p, label, c);
    let e = Seq::<u8>::empty();
    let md = markdown_path(p);
    let pb = pieces(text_body(p, c));
    let fl = fence() + label;
    let tail = seq![e, fence(), e];
    let l2 = seq![e, fl, e] + pb + tail;
    let l3 = seq![fl, e] + pb + tail;
    let l4 = seq![e] + pb + tail;
    let l5 = pb + tail;
    assert(lines_of(text_record(p, label, c)) =~= seq![header_marker() + p] + l2);
    assert(l2 =~= seq![e] + l3);
    assert(l3 =~= seq![fl] + l4);
    assert(l4 =~= seq![e] + l5);
    lemma_header_step(s, p);
    let s1 = step(s, header_marker() + p);
    lemma_scan_cons(s, header_marker() + p, l2);
    let s2 = step(s1, e);
    assert(s2 == Scan { in_header: false, ..s1 });
    lemma_scan_cons(s1, e, l3);
    assert(!starts_with(fl, header_marker())) by {
        if starts_with(fl, header_marker()) {
            lemma_first_byte(fl, header_marker());
        }
    }
    assert(!starts_with(fl, binary_fence())) by {
        if starts_with(fl, binary_fence()) {
            assert(label.subrange(0, 6) =~= fl.subrange(0, 9).subrange(3, 9));
            assert(binary_fence().subrange(3, 9) =~= binary_word());
        }
    }
    assert(starts_with(fl, fence())) by {
        assert(fl.subrange(0, 3) =~= fence());
    }
    let s3 = step(s2, fl);
    assert(s3 == Scan { in_fence: true, ..s2 });
    lemma_scan_cons(s2, fl, l4);
    assert(unescape_line(e) == e);
    let s4 = step(s3, e);
    assert(s4 == Scan { body: seq![NEWLINE], ..s3 }) by {
        assert(e + e + seq![NEWLINE] =~= seq![NEWLINE]);
    }
    lemma_scan_cons(s3, e, l5);
    lemma_scan_concat(s4, pb, tail);
    lemma_scan_body(s4, pb);
    lemma_pieces_facts(c);
    let s5 = scan_end(s4, pb);
    assert(s5.body == seq![NEWLINE] + c + seq![NEWLINE]);
    assert(tail =~= seq![e] + seq![fence(), e]);
    lemma_scan_cons(s5, e, seq![fence(), e]);
    let s6 = step(s5, e);
    assert(s6.body =~= seq![NEWLINE] + c + seq![NEWLINE, NEWLINE]);
    assert(starts_with(fence(), fence())) by {
        assert(fence().subrange(0, 3) =~= fence());
    }
    assert(!starts_with(fence(), binary_fence()));
    assert(!starts_with(fence(), header_marker()));
    assert(seq![fence(), e] =~= seq![fence()] + seq![e]);
    lemma_scan_cons(s6, fence(), seq![e]);
    let s7 = step(s6, fence());
    lemma_scan_one(s7, e);
    assert(step(s7, e) == s7);
    assert(s7 == text_end(p, c));
    assert(scan_out(s, lines_of(text_record(p, label, c))) =~= ready(s));
}

/// Text that is all base64 alphabet and padding, and not empty.
pub open spec fn base64_text(t: Seq<u8>) -> bool {
    t.len() > 0 && forall|k: int| 0 <= k < t.len() ==> base64_byte(#[trigger] t[k])
}

/// The decoder state after the record of an image.
pub open spec fn binary_end(p: Seq<u8>, t: Seq<u8>) -> Scan {
    Scan {
        path: p,
        body: t + seq![NEWLINE],
        markdown: markdown_path(p),
        in_header: false,
        in_fence: false,
        is_binary: true,
    }
}

#[verifier::rlimit(50)]
proof fn lemma_binary_scan(s: Scan, p: Seq<u8>, b: Seq<u8>)
    requires
        path_ok(p),
        b.len() > 0,
    ensures
        base64_text(base64_of(b)),
        scan_out(s, lines_of(binary_record(p, b))) == ready(s),
        scan_end(s, lines_of(binary_record(p, b))) == binary_end(p, base64_of(b)),
{
    let t = base64_of(b);
    lemma_base64_shape(b);
    assert(base64_text(t));
    let nl = seq![NEWLINE];
    let e = Seq::<u8>::empty();
    let hp = header_marker() + p;
    let a1 = hp + nl;
    let a3 = binary_fence() + nl;
    let a4 = t + nl;
    let a5 = fence() + nl;
    let r5 = a5 + nl;
    let r4 = a4 + r5;
    let r3 = a3 + r4;
    let r2 = nl + r3;
    let r1 = a1 + r2;
    assert(binary_record(p, b) =~= r1);
    assert(no_nl(t)) by {
        assert forall|k: int| 0 <= k < t.len() implies t[k] != NEWLINE by {
            assert(base64_byte(t[k]));
        }
    }
    lemma_path_trim(p);
    lemma_no_nl_concat(header_marker(), p);
    lemma_line_single(hp);
    assert(strip_cr(hp) == hp) by {
        assert(hp.last() == p.last());
    }
    lemma_line_single(binary_fence());
    assert(strip_cr(binary_fence()) == binary_fence());
    lemma_line_single(t);
    assert(strip_cr(t) == t) by {
        assert(base64_byte(t.last()));
    }
    lemma_line_single(fence());
    assert(strip_cr(fence()) == fence());
    lemma_lines_nl_only();
    lemma_lines_concat(a5, nl);
    lemma_lines_concat(a4, r5);
    lemma_lines_concat(a3, r4);
    lemma_lines_concat(nl, r3);
    lemma_lines_concat(a1, r2);
    let l2 = seq![e, binary_fence(), t, fence(), e];
    assert(lines_of(r1) =~= seq![hp] + l2);
    let l3 = seq![binary_fence(), t, fence(), e];
    let l4 = seq![t, fence(), e];
    let l5 = seq![fence(), e];
    assert(l2 =~= seq![e] + l3);
    assert(l3 =~= seq![binary_fence()] + l4);
    assert(l4 =~= seq![t] + l5);
    assert(l5 =~= seq![fence()] + seq![e]);
    lemma_header_step(s, p);
    let s1 = step(s, hp);
    lemma_scan_cons(s, hp, l2);
    let s2 = step(s1, e);
    lemma_scan_cons(s1, e, l3);
    assert(!starts_with(binary_fence(), header_marker()));
    assert(starts_with(binary_fence(), binary_fence())) by {
        assert(binary_fence().subrange(0, 9) =~= binary_fence());
    }
    let s3 = step(s2, binary_fence());
    assert(s3 == Scan { in_fence: true, is_binary: true, body: e, ..s2 });
    lemma_scan_cons(s2, binary_fence(), l4);
    assert(!starts_with(t, header_marker())) by {
        if starts_with(t, header_marker()) {
            lemma_first_byte(t, header_marker());
            assert(base64_byte(t[0]));
        }
    }
    assert(!starts_with(t, fence())) by {
        if starts_with(t, fence()) {
            lemma_first_byte(t, fence());
            assert(base64_byte(t[0]));
        }
    }
    lemma_binary_fence_is_fence(t);
    assert(!is_escaped(t)) by {
        if is_escaped(t) {
            if starts_with(t, seq![crate::bytes::BACKSLASH] + fence()) {
                lemma_first_byte(t, seq![crate::bytes::BACKSLASH] + fence());
            } else {
                lemma_first_byte(t, seq![crate::bytes::BACKSLASH, crate::bytes::HASH]);
            }
            assert(base64_byte(t[0]));
        }
    }
    let s4 = step(s3, t);
    assert(s4.body =~= t + nl);
    lemma_scan_cons(s3, t, l5);
    assert(starts_with(fence(), fence())) by {
        assert(fence().subrange(0, 3) =~= fence());
    }
    assert(!starts_with(fence(), binary_fence()));
    assert(!starts_with(fence(), header_marker()));
    lemma_scan_cons(s4, fence(), seq![e]);
    let s5 = step(s4, fence());
    lemma_scan_one(s5, e);
    assert(step(s5, e) == s5);
    assert(s5 == binary_end(p, t));
    assert(scan_out(s, lines_of(binary_record(p, b))) =~= ready(s));
}

/// A file that a bundle carries and gives back unchanged. An image needs
/// a fit path and some bytes; a text file needs a fit path, valid UTF-8, a
/// fit fence tag and fit contents.
pub open spec fn packable(f: SourceFile) -> bool {
    let p = f.rel_path@;
    &&& path_ok(p)
    &&& if binary_path(p) {
        f.content@.len() > 0
    } else {
        vstd::utf8::valid_utf8(f.content@) && label_ok(f.label@) && content_ok(p, f.content@)
    }
}

/// The decoder state after the record of `f`.
pub open spec fn record_end(f: SourceFile) -> Scan {
    if binary_path(f.rel_path@) {
        binary_end(f.rel_path@, base64_of(f.content@))
    } else {
        text_end(f.rel_path@, f.content@)
    }
}

/// The pending record that decoding hands out for `f`.
pub open spec fn expected(f: SourceFile) -> Pending {
    Pending { path: record_end(f).path, body: record_end(f).body, is_binary: record_end(f).is_binary }
}

/// A pending record that turns back into `f`: same path, and the same
/// contents, or for an image the base64 text of the same bytes.
pub open spec fn restores(pd: Pending, f: SourceFile) -> bool {
    &&& pd.path == f.rel_path@
    &&& pd.is_binary == binary_path(f.rel_path@)
    &&& if pd.is_binary {
        payload(pd) == base64_of(f.content@)
    } else {
        text_content(pd) == f.content@
    }
}

proof fn lemma_trim_text(c: Seq<u8>)
    requires
        c.len() > 0,
        c[0] != NEWLINE,
        c.last() != NEWLINE,
    ensures
        trim(seq![NEWLINE] + c + seq![NEWLINE, NEWLINE], true) == c,
{
    let x = seq![NEWLINE] + c + seq![NEWLINE, NEWLINE];
    let r = c + seq![NEWLINE, NEWLINE];
    assert(x.skip(1) =~= r);
    assert(lead(r, true) == 0);
    assert(lead(x, true) == 1);
    let y = c + seq![NEWLINE];
    assert(r.take(r.len() - 1) =~= y);
    assert(y.take(y.len() - 1) =~= c);
    assert(c[c.len() - 1] == c.last());
    assert(trail(c, true) == 0);
    assert(trail(y, true) == 1);
    assert(trail(r, true) == 2);
    assert(r.take(r.len() - 2) =~= c);
}

proof fn lemma_trim_payload(t: Seq<u8>)
    requires
        base64_text(t),
    ensures
        trim(t + seq![NEWLINE], false) == t,
{
    let x = t + seq![NEWLINE];
    assert(base64_byte(t[0]));
    assert(base64_byte(t.last()));
    assert(t[t.len() - 1] == t.last());
    assert(x[0] == t[0]);
    assert(lead(x, false) == 0);
    assert(x.skip(0) =~= x);
    assert(x.take(x.len() - 1) =~= t);
    assert(trail(t, false) == 0);
    assert(trail(x, false) == 1);
}

proof fn lemma_record_scan(s: Scan, f: SourceFile)
    requires
        packable(f),
    ensures
        record_of(f.rel_path@, f.label@, f.content@) is Some,
        scan_out(s, lines_of(record_of(f.rel_path@, f.label@, f.content@)->Some_0)) == ready(s),
        scan_end(s, lines_of(record_of(f.rel_path@, f.label@, f.content@)->Some_0)) == record_end(f),
        ready(record_end(f)) == seq![expected(f)],
        restores(expected(f), f),
        record_of(f.rel_path@, f.label@, f.content@)->Some_0.len() > 0,
        record_of(f.rel_path@, f.label@, f.content@)->Some_0.last() == NEWLINE,
{
    let p = f.rel_path@;
    let c = f.content@;
    if binary_path(p) {
        lemma_binary_scan(s, p, c);
        lemma_trim_payload(base64_of(c));
    } else {
        lemma_text_scan(s, p, f.label@, c);
        lemma_trim_text(c);
        assert(text_record(p, f.label@, c).len() > 0);
    }
    assert(ready(record_end(f)) =~= seq![expected(f)]);
}

proof fn lemma_bundle_scan(files: Seq<SourceFile>)
    requires
        forall|i: int| 0 <= i < files.len() ==> packable(#[trigger] files[i]),
    ensures
        bundle_of(files) is Some,
        bundle_of(files)->Some_0.len() == 0 || bundle_of(files)->Some_0.last() == NEWLINE,
        scan_out(initial(), lines_of(bundle_of(files)->Some_0)) + ready(
            scan_end(initial(), lines_of(bundle_of(files)->Some_0)),
        ) == files.map_values(|f: SourceFile| expected(f)),
        files.len() == 0 ==> scan_end(initial(), lines_of(bundle_of(files)->Some_0)) == initial(),
        files.len() > 0 ==> scan_end(initial(), lines_of(bundle_of(files)->Some_0)) == record_end(
            files.last(),
        ),
    decreases files.len(),
{
    if files.len() == 0 {
        lemma_lines_empty();
        assert(files.map_values(|f: SourceFile| expected(f)) =~= Seq::<Pending>::empty());
        assert(ready(initial()) =~= Seq::<Pending>::empty());
        assert(scan_out(initial(), Seq::<Seq<u8>>::empty()) =~= Seq::<Pending>::empty());
    } else {
        let pre = files.drop_last();
        assert forall|i: int| 0 <= i < pre.len() implies packable(#[trigger] pre[i]) by {
            assert(pre[i] == files[i]);
        }
        lemma_bundle_scan(pre);
        let f = files.last();
        let a = bundle_of(pre)->Some_0;
        let la = lines_of(a);
        let ea = scan_end(initial(), la);
        lemma_record_scan(ea, f);
        let r = record_of(f.rel_path@, f.label@, f.content@)->Some_0;
        assert(bundle_of(files) == Some(a + r));
        if a.len() == 0 {
            assert(a + r =~= r);
            lemma_lines_empty();
            assert(la == Seq::<Seq<u8>>::empty());
            assert(la + lines_of(r) =~= lines_of(r));
        } else {
            lemma_lines_concat(a, r);
        }
        assert(lines_of(a + r) == la + lines_of(r));
        lemma_scan_concat(initial(), la, lines_of(r));
        assert((a + r).last() == r.last());
        assert(files.map_values(|f: SourceFile| expected(f)) =~= pre.map_values(
            |f: SourceFile| expected(f),
        ).push(expected(f)));
        assert(scan_out(initial(), la) + ready(ea) == pre.map_values(|f: SourceFile| expected(f)));
        assert(scan_out(initial(), lines_of(a + r)) + ready(record_end(f)) =~= pre.map_values(
            |f: SourceFile| expected(f),
        ).push(expected(f)));
    }
}

/// Decoding the bundle of packable files gives back, in order, one pending
/// record per file that turns back into that file: text with the same
/// contents, an image with the base64 text of the same bytes (which
/// `finish_record` decodes to those bytes).
pub proof fn lemma_round_trip(files: Seq<SourceFile>)
    requires
        forall|i: int| 0 <= i < files.len() ==> packable(#[trigger] files[i]),
    ensures
        bundle_of(files) is Some,
        pending_of(bundle_of(files)->Some_0).len() == files.len(),
        forall|i: int|
            0 <= i < files.len() ==> restores(#[trigger] pending_of(bundle_of(files)->Some_0)[i], files[i]),
{
    lemma_bundle_scan(files);
    let pd = pending_of(bundle_of(files)->Some_0);
    assert(pd == files.map_values(|f: SourceFile| expected(f)));
    assert forall|i: int| 0 <= i < files.len() implies restores(#[trigger] pd[i], files[i]) by {
        lemma_record_scan(initial(), files[i]);
    }
}

/// The record of an image decodes to one binary record whose base64 text
/// is that of the image's bytes.
pub proof fn lemma_binary_round_trip(p: Seq<u8>, b: Seq<u8>)
    requires
        path_ok(p),
        binary_path(p),
        b.len() > 0,
    ensures
        pending_of(binary_record(p, b)) == seq![Pending { path: p, body: base64_of(b) + seq![NEWLINE], is_binary: true }],
        payload(pending_of(binary_record(p, b))[0]) == base64_of(b),
{
    lemma_binary_scan(initial(), p, b);
    lemma_trim_payload(base64_of(b));
    assert(ready(initial()) =~= Seq::<Pending>::empty());
    assert(pending_of(binary_record(p, b)) =~= seq![Pending { path: p, body: base64_of(b) + seq![NEWLINE], is_binary: true }]);
}

/// The binary flag: a header clears it, a binary fence after the header
/// sets it, and no other line changes it.
pub proof fn lemma_binary_flag(s: Scan, line: Seq<u8>)
    ensures
        step(s, line).is_binary == (if starts_with(line, header_marker()) {
            false
        } else if !s.in_header && starts_with(line, binary_fence()) {
            true
        } else {
            s.is_binary
        }),
{
}

/// A file system, as a map from path to contents, after the writes `ws`
/// in order: each write replaces what was at its path.
pub open spec fn apply(fs: Map<Seq<u8>, Seq<u8>>, ws: Seq<(Seq<u8>, Seq<u8>)>) -> Map<Seq<u8>, Seq<u8>>
    decreases ws.len(),
{
    if ws.len() == 0 {
        fs
    } else {
        apply(fs.insert(ws[0].0, ws[0].1), ws.skip(1))
    }
}

proof fn lemma_apply_overlay(fs: Map<Seq<u8>, Seq<u8>>, ws: Seq<(Seq<u8>, Seq<u8>)>)
    ensures
        apply(fs, ws) == fs.union_prefer_right(apply(Map::empty(), ws)),
    decreases ws.len(),
{
    if ws.len() == 0 {
        assert(fs.union_prefer_right(Map::<Seq<u8>, Seq<u8>>::empty()) =~= fs);
    } else {
        let (k, v) = ws[0];
        lemma_apply_overlay(fs.insert(k, v), ws.skip(1));
        lemma_apply_overlay(Map::empty().insert(k, v), ws.skip(1));
        let tail = apply(Map::<Seq<u8>, Seq<u8>>::empty(), ws.skip(1));
        assert(apply(Map::<Seq<u8>, Seq<u8>>::empty(), ws) == Map::<Seq<u8>, Seq<u8>>::empty().insert(k, v).union_prefer_right(tail));
        assert(fs.insert(k, v).union_prefer_right(tail) =~= fs.union_prefer_right(
            Map::<Seq<u8>, Seq<u8>>::empty().insert(k, v).union_prefer_right(tail),
        ));
    }
}

/// Reverting the same bundle twice leaves the same files as reverting it
/// once: the second run writes the same files (`decode_bundle` gives
/// `writes(pending_of(text))`, a function of the text alone), and each write
/// replaces the one before.
pub proof fn lemma_revert_twice(fs: Map<Seq<u8>, Seq<u8>>, text: Seq<u8>)
    ensures
        apply(apply(fs, writes(pending_of(text))), writes(pending_of(text))) == apply(
            fs,
            writes(pending_of(text)),
        ),
{
    let ws = writes(pending_of(text));
    let once = apply(fs, ws);
    lemma_apply_overlay(fs, ws);
    lemma_apply_overlay(once, ws);
    let w = apply(Map::<Seq<u8>, Seq<u8>>::empty(), ws);
    assert(fs.union_prefer_right(w).union_prefer_right(w) =~= fs.union_prefer_right(w));
}

} // verus!
