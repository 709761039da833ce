//! Byte-sequence helpers: subranges, concatenation, whitespace trimming,
//! splitting on commas and joining with a separator.
//!
//! Everything is specified over `Seq<u8>`; the executable functions return
//! exactly what the spec functions describe.

use vstd::prelude::*;

verus! {

/// ASCII whitespace: space, tab, newline, carriage return, vertical tab,
/// form feed. This is the set trimmed from around parsed tags.
pub open spec fn is_ws(b: u8) -> bool {
    b == 32 || b == 9 || b == 10 || b == 13 || b == 11 || b == 12
}

/// Executable mirror of [`is_ws`].
pub fn is_ws_byte(b: u8) -> (r: bool)
    ensures
        r == is_ws(b),
{
    b == 32 || b == 9 || b == 10 || b == 13 || b == 11 || b == 12
}

/// The two-byte separator `", "` used when rendering a tag list.
pub open spec fn comma_space() -> Seq<u8> {
    seq![44u8, 32u8]
}

/// `s` with leading whitespace removed.
pub open spec fn trim_start(s: Seq<u8>) -> Seq<u8>
    decreases s.len(),
{
    if s.len() > 0 && is_ws(s[0]) {
        trim_start(s.skip(1))
    } else {
        s
    }
}

/// `s` with trailing whitespace removed.
pub open spec fn trim_end(s: Seq<u8>) -> Seq<u8>
    decreases s.len(),
{
    if s.len() > 0 && is_ws(s.last()) {
        trim_end(s.drop_last())
    } else {
        s
    }
}

/// `s` with surrounding whitespace removed.
pub open spec fn trim(s: Seq<u8>) -> Seq<u8> {
    trim_end(trim_start(s))
}

/// When the first `a` bytes are whitespace and byte `a` is not, trimming the
/// start drops exactly those `a` bytes.
proof fn lemma_trim_start_skip(s: Seq<u8>, a: int)
    requires
        0 <= a <= s.len(),
        forall|k: int| 0 <= k < a ==> is_ws(s[k]),
        a == s.len() || !is_ws(s[a]),
    ensures
        trim_start(s) == s.skip(a),
    decreases a,
{
    if a == 0 {
        assert(s.skip(0) =~= s);
    } else {
        assert(is_ws(s[0]));
        lemma_trim_start_skip(s.skip(1), a - 1);
        assert(s.skip(1).skip(a - 1) =~= s.skip(a));
    }
}

/// When every byte from `b` on is whitespace and byte `b - 1` is not,
/// trimming the end keeps exactly the first `b` bytes.
proof fn lemma_trim_end_take(s: Seq<u8>, b: int)
    requires
        0 <= b <= s.len(),
        forall|k: int| b <= k < s.len() ==> is_ws(s[k]),
        b == 0 || !is_ws(s[b - 1]),
    ensures
        trim_end(s) == s.take(b),
    decreases s.len() - b,
{
    if b == s.len() {
        assert(s.take(b) =~= s);
    } else {
        assert(is_ws(s.last()));
        lemma_trim_end_take(s.drop_last(), b);
        assert(s.drop_last().take(b) =~= s.take(b));
    }
}

/// A space in front never changes the trimmed value.
pub proof fn lemma_trim_unpad(s: Seq<u8>, b: u8)
    requires
        is_ws(b),
    ensures
        trim(seq![b] + s) == trim(s),
{
    assert((seq![b] + s)[0] == b);
    assert((seq![b] + s).skip(1) =~= s);
}

/// Copies `s[a..b]` into a fresh vector.
pub fn subvec(s: &Vec<u8>, a: usize, b: usize) -> (r: Vec<u8>)
    requires
        a <= b <= s.len(),
    ensures
        r@ == s@.subrange(a as int, b as int),
{
    let mut r: Vec<u8> = Vec::new();
    let mut i: usize = a;
    while i < b
        invariant
            a <= i <= b <= s.len(),
            r@ == s@.subrange(a as int, i as int),
        decreases b - i,
    {
        proof {
            assert(s@.subrange(a as int, i as int + 1) =~= s@.subrange(a as int, i as int).push(
                s@[i as int],
            ));
        }
        r.push(s[i]);
        i = i + 1;
    }
    r
}

/// Appends all of `src` to `dst`.
pub fn append_vec(dst: &mut Vec<u8>, src: &Vec<u8>)
    ensures
        final(dst)@ == old(dst)@ + src@,
{
    let mut i: usize = 0;
    while i < src.len()
        invariant
            i <= src.len(),
            dst@ == old(dst)@ + src@.subrange(0, i as int),
        decreases src.len() - i,
    {
        proof {
            assert(old(dst)@ + src@.subrange(0, i as int + 1) =~= (old(dst)@ + src@.subrange(
                0,
                i as int,
            )).push(src@[i as int]));
        }
        dst.push(src[i]);
        i = i + 1;
    }
    proof {
        assert(src@.subrange(0, src@.len() as int) =~= src@);
    }
}

/// Appends `src[a..b]` to `dst`.
pub fn append_range(dst: &mut Vec<u8>, src: &Vec<u8>, a: usize, b: usize)
    requires
        a <= b <= src.len(),
    ensures
        final(dst)@ == old(dst)@ + src@.subrange(a as int, b as int),
{
    let mut i: usize = a;
    while i < b
        invariant
            a <= i <= b <= src.len(),
            dst@ == old(dst)@ + src@.subrange(a as int, i as int),
        decreases b - i,
    {
        proof {
            assert(old(dst)@ + src@.subrange(a as int, i as int + 1) =~= (old(dst)@
                + src@.subrange(a as int, i as int)).push(src@[i as int]));
        }
        dst.push(src[i]);
        i = i + 1;
    }
}

/// Copies the whole vector.
pub fn copy_vec(s: &Vec<u8>) -> (r: Vec<u8>)
    ensures
        r@ == s@,
{
    let r = subvec(s, 0, s.len());
    proof {
        assert(s@.subrange(0, s@.len() as int) =~= s@);
    }
    r
}

/// Removes the surrounding whitespace from `s`, as [`trim`] describes.
pub fn trim_bytes(s: &Vec<u8>) -> (r: Vec<u8>)
    ensures
        r@ == trim(s@),
{
    let n = s.len();
    let mut a: usize = 0;
    while a < n && is_ws_byte(s[a])
        invariant
            a <= n,
            n == s.len(),
            forall|k: int| 0 <= k < a ==> is_ws(s@[k]),
        decreases n - a,
    {
        a = a + 1;
    }
    let mut b: usize = n;
    while b > a && is_ws_byte(s[b - 1])
        invariant
            a <= b <= n,
            n == s.len(),
            forall|k: int| b <= k < n ==> is_ws(s@[k]),
        decreases b,
    {
        b = b - 1;
    }
    proof {
        lemma_trim_start_skip(s@, a as int);
        let t = s@.skip(a as int);
        assert(forall|k: int| b - a <= k < t.len() ==> is_ws(t[k]));
        lemma_trim_end_take(t, b - a);
        assert(t.take(b - a) =~= s@.subrange(a as int, b as int));
    }
    subvec(s, a, b)
}

/// Byte-for-byte equality of two vectors.
pub fn bytes_eq(a: &Vec<u8>, b: &Vec<u8>) -> (r: bool)
    ensures
        r == (a@ == b@),
{
    if a.len() != b.len() {
        return false;
    }
    let mut i: usize = 0;
    while i < a.len()
        invariant
            i <= a.len(),
            a@.len() == b@.len(),
            forall|k: int| 0 <= k < i ==> a@[k] == b@[k],
        decreases a.len() - i,
    {
        if a[i] != b[i] {
            return false;
        }
        i = i + 1;
    }
    proof {
        assert(a@ =~= b@);
    }
    true
}

/// Splitting on commas: the pieces between comma bytes, in order. A string
/// without commas is one piece; every comma adds a piece, so the result is
/// never empty and an empty string yields one empty piece.
pub open spec fn split_commas(s: Seq<u8>) -> Seq<Seq<u8>>
    decreases s.len(),
{
    if s.len() == 0 {
        seq![Seq::<u8>::empty()]
    } else if s[0] == 44 {
        seq![Seq::<u8>::empty()] + split_commas(s.skip(1))
    } else {
        let r = split_commas(s.skip(1));
        seq![seq![s[0]] + r[0]] + r.skip(1)
    }
}

/// A comma-free string splits into exactly itself.
pub proof fn lemma_split_comma_free(s: Seq<u8>)
    requires
        forall|k: int| 0 <= k < s.len() ==> s[k] != 44,
    ensures
        split_commas(s) == seq![s],
    decreases s.len(),
{
    if s.len() == 0 {
        assert(seq![Seq::<u8>::empty()] =~~= seq![s]);
    } else {
        assert(s[0] != 44);
        lemma_split_comma_free(s.skip(1));
        assert(seq![s[0]] + s.skip(1) =~= s);
        assert(seq![seq![s[0]] + s.skip(1)] + seq![s.skip(1)].skip(1) =~~= seq![s]);
    }
}

/// Splitting `piece , rest` takes the comma-free `piece` off the front.
pub proof fn lemma_split_at_comma(piece: Seq<u8>, rest: Seq<u8>)
    requires
        forall|k: int| 0 <= k < piece.len() ==> piece[k] != 44,
    ensures
        split_commas(piece + seq![44u8] + rest) == seq![piece] + split_commas(rest),
    decreases piece.len(),
{
    let s = piece + seq![44u8] + rest;
    if piece.len() == 0 {
        assert(s[0] == 44);
        assert(s.skip(1) =~= rest);
        assert(seq![Seq::<u8>::empty()] + split_commas(rest) =~~= seq![piece] + split_commas(rest));
    } else {
        assert(s[0] == piece[0]);
        assert(s[0] != 44);
        assert(s.skip(1) =~= piece.skip(1) + seq![44u8] + rest);
        lemma_split_at_comma(piece.skip(1), rest);
        let r = split_commas(s.skip(1));
        assert(r == seq![piece.skip(1)] + split_commas(rest));
        assert(r[0] == piece.skip(1));
        assert(seq![s[0]] + r[0] =~= piece);
        assert(r.skip(1) =~= split_commas(rest));
        assert(seq![seq![s[0]] + r[0]] + r.skip(1) =~~= seq![piece] + split_commas(rest));
    }
}

/// Splits `s` on commas, as [`split_commas`] describes.
pub fn split_commas_vec(s: &Vec<u8>) -> (r: Vec<Vec<u8>>)
    ensures
        r@.map_values(|p: Vec<u8>| p@) == split_commas(s@),
        r@.len() >= 1,
{
    let mut r: Vec<Vec<u8>> = Vec::new();
    let mut cur: Vec<u8> = Vec::new();
    let mut start: usize = 0;
    let mut i: usize = 0;
    proof {
        assert(s@.skip(0) =~= s@);
        assert(r@.map_values(|p: Vec<u8>| p@) + split_commas(s@) =~~= split_commas(s@));
    }
    while i < s.len()
        invariant
            start <= i <= s.len(),
            cur@ == s@.subrange(start as int, i as int),
            forall|k: int| start <= k < i ==> s@[k] != 44,
            split_commas(s@) == r@.map_values(|p: Vec<u8>| p@) + split_commas(
                s@.skip(start as int),
            ),
        decreases s.len() - i,
    {
        if s[i] == 44 {
            proof {
                assert(s@.skip(start as int) =~= cur@ + seq![44u8] + s@.skip(i as int + 1));
                lemma_split_at_comma(cur@, s@.skip(i as int + 1));
                assert((r@.push(cur)).map_values(|p: Vec<u8>| p@) =~= r@.map_values(
                    |p: Vec<u8>| p@,
                ) + seq![cur@]);
            }
            r.push(cur);
            cur = Vec::new();
            i = i + 1;
            start = i;
            proof {
                assert(cur@ =~= s@.subrange(start as int, i as int));
            }
        } else {
            proof {
                assert(s@.subrange(start as int, i as int + 1) =~= s@.subrange(
                    start as int,
                    i as int,
                ).push(s@[i as int]));
            }
            cur.push(s[i]);
            i = i + 1;
        }
    }
    proof {
        assert(s@.skip(start as int) =~= cur@);
        lemma_split_comma_free(cur@);
        assert((r@.push(cur)).map_values(|p: Vec<u8>| p@) =~= r@.map_values(|p: Vec<u8>| p@)
            + seq![cur@]);
    }
    r.push(cur);
    r
}

/// The pieces joined with `sep` between consecutive pieces.
pub open spec fn join_sep(ps: Seq<Seq<u8>>, sep: Seq<u8>) -> Seq<u8>
    decreases ps.len(),
{
    if ps.len() == 0 {
        Seq::<u8>::empty()
    } else if ps.len() == 1 {
        ps[0]
    } else {
        join_sep(ps.drop_last(), sep) + sep + ps.last()
    }
}

/// [`join_sep`] can also be unfolded from the front.
pub proof fn lemma_join_sep_front(ps: Seq<Seq<u8>>, sep: Seq<u8>)
    requires
        ps.len() >= 2,
    ensures
        join_sep(ps, sep) == ps[0] + sep + join_sep(ps.drop_first(), sep),
    decreases ps.len(),
{
    let dl = ps.drop_last();
    if ps.len() == 2 {
        assert(dl =~~= seq![ps[0]]);
        assert(ps.drop_first() =~~= seq![ps[1]]);
        assert(join_sep(dl, sep) == ps[0]);
        assert(join_sep(ps.drop_first(), sep) == ps[1]);
    } else {
        lemma_join_sep_front(dl, sep);
        assert(ps.drop_first().drop_last() =~~= dl.drop_first());
        assert(ps.drop_first().len() >= 2);
        assert(ps.drop_first().last() == ps.last());
        assert(join_sep(ps.drop_first(), sep) == join_sep(dl.drop_first(), sep) + sep
            + ps.last());
        assert(dl[0] == ps[0]);
        assert((dl[0] + sep + join_sep(dl.drop_first(), sep)) + sep + ps.last() =~= ps[0] + sep
            + (join_sep(dl.drop_first(), sep) + sep + ps.last()));
    }
}

/// Joins the pieces with `", "` between them.
pub fn join_comma_space(parts: &Vec<Vec<u8>>) -> (r: Vec<u8>)
    ensures
        r@ == join_sep(parts@.map_values(|p: Vec<u8>| p@), comma_space()),
{
    let ghost ms = parts@.map_values(|p: Vec<u8>| p@);
    let mut r: Vec<u8> = Vec::new();
    let mut i: usize = 0;
    while i < parts.len()
        invariant
            i <= parts.len(),
            ms == parts@.map_values(|p: Vec<u8>| p@),
            r@ == join_sep(ms.take(i as int), comma_space()),
        decreases parts.len() - i,
    {
        proof {
            assert(ms.take(i as int + 1).drop_last() =~= ms.take(i as int));
            assert(ms.take(i as int + 1).last() == ms[i as int]);
            assert(ms[i as int] == parts@[i as int]@);
        }
        if i > 0 {
            r.push(44);
            r.push(32);
        }
        append_vec(&mut r, &parts[i]);
        proof {
            if i == 0 {
                assert(join_sep(ms.take(1), comma_space()) == ms[0]);
                assert(r@ =~= ms[0]);
            } else {
                assert(r@ =~= join_sep(ms.take(i as int), comma_space()) + comma_space()
                    + ms[i as int]);
            }
        }
        i = i + 1;
    }
    proof {
        assert(ms.take(ms.len() as int) =~= ms);
    }
    r
}

} // verus!
