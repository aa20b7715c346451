//! Lines of a byte buffer: splitting, trimming and joining.
//!
//! A buffer splits at `\n`; a line that ended in `\r\n` loses its `\r`; a
//! final `\n` does not start an empty last line.
use vstd::prelude::*;

use crate::bytes::append_bytes;

verus! {

pub const NL: u8 = 10;

pub const CR: u8 = 13;

/// The pieces of `b` between newline bytes; there is always at least one.
pub open spec fn pieces(b: Seq<u8>) -> Seq<Seq<u8>>
    decreases b.len(),
{
    if b.len() == 0 {
        seq![seq![]]
    } else {
        let p = pieces(b.drop_last());
        if b.last() == NL {
            p.push(seq![])
        } else {
            p.update(p.len() - 1, p.last().push(b.last()))
        }
    }
}

/// A line without the `\r` of a `\r\n` ending.
pub open spec fn strip_cr(l: Seq<u8>) -> Seq<u8> {
    if l.len() > 0 && l.last() == CR {
        l.drop_last()
    } else {
        l
    }
}

/// The lines of `b`.
pub open spec fn lines_of(b: Seq<u8>) -> Seq<Seq<u8>> {
    let p = pieces(b);
    let ended = p.drop_last().map_values(|l: Seq<u8>| strip_cr(l));
    if b.len() == 0 || b.last() == NL {
        ended
    } else {
        ended.push(p.last())
    }
}

/// Whether `c` is ASCII whitespace (tab, line feed, vertical tab, form
/// feed, carriage return, space).
pub open spec fn is_space(c: u8) -> bool {
    c == 32 || (9 <= c && c <= 13)
}

/// Whether `a b` encodes a two-byte Unicode whitespace (U+0085, U+00A0).
pub open spec fn is_space2(a: u8, b: u8) -> bool {
    a == 0xC2 && (b == 0x85 || b == 0xA0)
}

/// Whether `a b c` encodes a three-byte Unicode whitespace (U+1680,
/// U+2000 to U+200A, U+2028, U+2029, U+202F, U+205F, U+3000).
pub open spec fn is_space3(a: u8, b: u8, c: u8) -> bool {
    (a == 0xE1 && b == 0x9A && c == 0x80)
        || (a == 0xE2 && b == 0x80 && ((0x80 <= c && c <= 0x8A) || c == 0xA8 || c == 0xA9 || c == 0xAF))
        || (a == 0xE2 && b == 0x81 && c == 0x9F)
        || (a == 0xE3 && b == 0x80 && c == 0x80)
}

/// Length in bytes of the whitespace character that ends `l`, or 0.
pub open spec fn trailing_space_len(l: Seq<u8>) -> int {
    let n = l.len() as int;
    if n >= 1 && is_space(l[n - 1]) {
        1
    } else if n >= 2 && is_space2(l[n - 2], l[n - 1]) {
        2
    } else if n >= 3 && is_space3(l[n - 3], l[n - 2], l[n - 1]) {
        3
    } else {
        0
    }
}

/// `l` without its trailing Unicode whitespace, given as UTF-8.
pub open spec fn trim_end(l: Seq<u8>) -> Seq<u8>
    decreases l.len(),
{
    if trailing_space_len(l) > 0 {
        trim_end(l.take(l.len() - trailing_space_len(l)))
    } else {
        l
    }
}

/// The lines joined with `\n` between them.
pub open spec fn join_lines(ls: Seq<Seq<u8>>) -> Seq<u8>
    decreases ls.len(),
{
    if ls.len() == 0 {
        seq![]
    } else if ls.len() == 1 {
        ls[0]
    } else {
        join_lines(ls.drop_last()) + seq![NL] + ls.last()
    }
}

/// `b` with a final `\n` added where `newline_at_end` asks for one and `b` is
/// non-empty and lacks it.
pub open spec fn with_final_newline(b: Seq<u8>, newline_at_end: bool) -> Seq<u8> {
    if newline_at_end && b.len() > 0 && b.last() != NL {
        b.push(NL)
    } else {
        b
    }
}

/// Lines joined back into a buffer, ending in `\n` where `newline_at_end` asks.
pub open spec fn rebuild(ls: Seq<Seq<u8>>, newline_at_end: bool) -> Seq<u8> {
    with_final_newline(join_lines(ls), newline_at_end)
}

pub open spec fn ends_with_newline(b: Seq<u8>) -> bool {
    b.len() > 0 && b.last() == NL
}

pub open spec fn lines_view(v: Seq<Vec<u8>>) -> Seq<Seq<u8>> {
    v.map_values(|l: Vec<u8>| l@)
}

proof fn lemma_pieces_nonempty(b: Seq<u8>)
    ensures
        pieces(b).len() >= 1,
    decreases b.len(),
{
    if b.len() > 0 {
        lemma_pieces_nonempty(b.drop_last());
    }
}

/// Splits `b` into its lines.
pub fn split_lines(b: &[u8]) -> (r: Vec<Vec<u8>>)
    ensures
        lines_view(r@) == lines_of(b@),
{
    let mut done: Vec<Vec<u8>> = Vec::new();
    let mut cur: Vec<u8> = Vec::new();
    let mut i: usize = 0;
    proof {
        assert(b@.take(0) =~= Seq::<u8>::empty());
    }
    while i < b.len()
        invariant
            i <= b@.len(),
            pieces(b@.take(i as int)).len() >= 1,
            lines_view(done@) == pieces(b@.take(i as int)).drop_last().map_values(|l: Seq<u8>| strip_cr(l)),
            cur@ == pieces(b@.take(i as int)).last(),
        decreases b@.len() - i,
    {
        let ghost p = pieces(b@.take(i as int));
        assert(b@.take(i + 1).drop_last() =~= b@.take(i as int));
        assert(b@.take(i + 1).last() == b@[i as int]);
        proof {
            lemma_pieces_nonempty(b@.take(i + 1));
        }
        if b[i] == NL {
            let ghost line = cur@;
            if cur.len() > 0 && cur[cur.len() - 1] == CR {
                cur.pop();
            }
            assert(cur@ == strip_cr(line));
            let ghost before = done@;
            done.push(cur);
            cur = Vec::new();
            assert(lines_view(done@) =~= lines_view(before).push(strip_cr(line)));
            assert(pieces(b@.take(i + 1)).drop_last() =~= p);
            assert(p.map_values(|l: Seq<u8>| strip_cr(l)) =~= p.drop_last().map_values(|l: Seq<u8>| strip_cr(l)).push(strip_cr(line)));
        } else {
            cur.push(b[i]);
            let ghost q = pieces(b@.take(i + 1));
            assert(q.drop_last() =~= p.drop_last());
        }
        i = i + 1;
    }
    assert(b@.take(b@.len() as int) =~= b@);
    proof {
        if b@.len() > 0 {
            let p = pieces(b@.drop_last());
            lemma_pieces_nonempty(b@.drop_last());
            assert(b@.drop_last() =~= b@.take(b@.len() - 1));
        }
    }
    if cur.len() > 0 {
        done.push(cur);
    }
    proof {
        let p = pieces(b@);
        if b@.len() > 0 && b@.last() != NL {
            assert(lines_view(done@) =~= p.drop_last().map_values(|l: Seq<u8>| strip_cr(l)).push(p.last()));
        } else if b@.len() > 0 {
            assert(lines_view(done@) == p.drop_last().map_values(|l: Seq<u8>| strip_cr(l)));
        } else {
            assert(lines_view(done@) =~= p.drop_last().map_values(|l: Seq<u8>| strip_cr(l)));
        }
    }
    done
}

/// Length of the whitespace character that ends `l[..n]`, or 0.
fn space_len_before(l: &[u8], n: usize) -> (k: usize)
    requires
        n <= l@.len(),
    ensures
        k as int == trailing_space_len(l@.take(n as int)),
{
    let ghost t = l@.take(n as int);
    assert(n >= 1 ==> t[n - 1] == l@[n - 1]);
    assert(n >= 2 ==> t[n - 2] == l@[n - 2]);
    assert(n >= 3 ==> t[n - 3] == l@[n - 3]);
    if n >= 1 && (l[n - 1] == 32 || (9 <= l[n - 1] && l[n - 1] <= 13)) {
        1
    } else if n >= 2 && l[n - 2] == 0xC2 && (l[n - 1] == 0x85 || l[n - 1] == 0xA0) {
        2
    } else if n >= 3 && ((l[n - 3] == 0xE1 && l[n - 2] == 0x9A && l[n - 1] == 0x80) || (l[n - 3] == 0xE2
        && l[n - 2] == 0x80 && ((0x80 <= l[n - 1] && l[n - 1] <= 0x8A) || l[n - 1] == 0xA8 || l[n - 1] == 0xA9
        || l[n - 1] == 0xAF)) || (l[n - 3] == 0xE2 && l[n - 2] == 0x81 && l[n - 1] == 0x9F) || (l[n - 3] == 0xE3
        && l[n - 2] == 0x80 && l[n - 1] == 0x80)) {
        3
    } else {
        0
    }
}

/// `l` without its trailing whitespace.
pub fn trimmed_end(l: &[u8]) -> (r: Vec<u8>)
    ensures
        r@ == trim_end(l@),
{
    let mut n: usize = l.len();
    assert(l@.take(l@.len() as int) =~= l@);
    loop
        invariant
            n <= l@.len(),
            trim_end(l@.take(n as int)) == trim_end(l@),
        ensures
            n <= l@.len(),
            trim_end(l@.take(n as int)) == trim_end(l@),
            trailing_space_len(l@.take(n as int)) == 0,
        decreases n,
    {
        let k = space_len_before(l, n);
        if k == 0 {
            break;
        }
        assert(l@.take(n as int).take(n - k) =~= l@.take(n - k));
        n = n - k;
    }
    assert(trim_end(l@.take(n as int)) == l@.take(n as int));
    crate::bytes::copy_range(l, 0, n)
}

/// Joins `ls` with `\n` between lines, and adds a final `\n` where
/// `newline_at_end` asks for one and the result lacks it.
pub fn join_with_newlines(ls: &Vec<Vec<u8>>, newline_at_end: bool) -> (r: Vec<u8>)
    ensures
        r@ == rebuild(lines_view(ls@), newline_at_end),
{
    let mut out: Vec<u8> = Vec::new();
    let mut i: usize = 0;
    while i < ls.len()
        invariant
            i <= ls@.len(),
            out@ == join_lines(lines_view(ls@).take(i as int)),
        decreases ls@.len() - i,
    {
        let ghost before = out@;
        let ghost v = lines_view(ls@);
        assert(v.take(i + 1).drop_last() =~= v.take(i as int));
        assert(v.take(i + 1).last() == ls@[i as int]@);
        if i > 0 {
            out.push(NL);
        }
        append_bytes(&mut out, ls[i].as_slice());
        proof {
            if i == 0 {
                assert(out@ =~= ls@[0]@);
            } else {
                assert(out@ =~= before + seq![NL] + ls@[i as int]@);
            }
        }
        i = i + 1;
    }
    assert(lines_view(ls@).take(ls@.len() as int) =~= lines_view(ls@));
    if newline_at_end && out.len() > 0 && out[out.len() - 1] != NL {
        out.push(NL);
    }
    out
}

} // verus!
