//! The front-matter header: locating its closing delimiter, recognising the
//! tags line, parsing the recorded tags, and merging new tags in.
//!
//! A header is the block before the first `\n---\n`; inside it the tags line
//! has the shape `tags:` + whitespace + `[` + comma-separated items + `]`.
//! [`merge_model`] is the full mathematical description of a merge; the
//! executable [`merge_tags`] returns exactly what it says.

use vstd::prelude::*;

use crate::error::Error;
use crate::text::{
    append_range, append_vec, bytes_eq, comma_space, copy_vec, is_ws, is_ws_byte,
    join_comma_space, join_sep, split_commas, split_commas_vec, subvec, trim, trim_bytes,
};

verus! {

/// True when the five delimiter bytes `\n---\n` stand at position `i`.
pub open spec fn delim_at(s: Seq<u8>, i: int) -> bool {
    &&& 0 <= i
    &&& i + 5 <= s.len()
    &&& s[i] == 10
    &&& s[i + 1] == 45
    &&& s[i + 2] == 45
    &&& s[i + 3] == 45
    &&& s[i + 4] == 10
}

/// Position of the first header-closing delimiter at or after `i`.
pub open spec fn first_delim_from(s: Seq<u8>, i: int) -> Option<int>
    decreases s.len() - i,
{
    if i + 5 > s.len() {
        None
    } else if delim_at(s, i) {
        Some(i)
    } else {
        first_delim_from(s, i + 1)
    }
}

/// Finds the first header-closing delimiter of `s`.
pub fn find_delim(s: &Vec<u8>) -> (r: Option<usize>)
    ensures
        match r {
            Some(i) => first_delim_from(s@, 0) == Some(i as int) && delim_at(s@, i as int),
            None => first_delim_from(s@, 0) is None,
        },
{
    if s.len() < 5 {
        return None;
    }
    let mut i: usize = 0;
    while i <= s.len() - 5
        invariant
            s@.len() >= 5,
            i <= s@.len(),
            first_delim_from(s@, 0) == first_delim_from(s@, i as int),
        decreases s.len() - i,
    {
        if s[i] == 10 && s[i + 1] == 45 && s[i + 2] == 45 && s[i + 3] == 45 && s[i + 4] == 10 {
            return Some(i);
        }
        proof {
            assert(!delim_at(s@, i as int));
            assert(first_delim_from(s@, i as int) == first_delim_from(s@, i as int + 1));
        }
        i = i + 1;
    }
    proof {
        assert(first_delim_from(s@, i as int) is None);
    }
    None
}

/// The end of the line starting at `i`: the first newline at or after `i`,
/// or the end of `s`.
pub open spec fn line_end_from(s: Seq<u8>, i: int) -> int
    decreases s.len() - i,
{
    if i >= s.len() {
        s.len() as int
    } else if s[i] == 10 {
        i
    } else {
        line_end_from(s, i + 1)
    }
}

/// The line end lies between `i` and the end of `s`, sits on a newline when
/// inside `s`, and no newline comes before it.
pub proof fn lemma_line_end_bounds(s: Seq<u8>, i: int)
    requires
        0 <= i <= s.len(),
    ensures
        i <= line_end_from(s, i) <= s.len(),
        line_end_from(s, i) < s.len() ==> s[line_end_from(s, i)] == 10,
        forall|k: int| i <= k < line_end_from(s, i) ==> s[k] != 10,
    decreases s.len() - i,
{
    if i >= s.len() {
    } else if s[i] == 10 {
    } else {
        lemma_line_end_bounds(s, i + 1);
    }
}

/// First position at or after `i` in the line `l` that is not whitespace,
/// or the length of `l`.
pub open spec fn skip_blanks(l: Seq<u8>, i: int) -> int
    decreases l.len() - i,
{
    if i >= l.len() {
        l.len() as int
    } else if is_ws(l[i]) {
        skip_blanks(l, i + 1)
    } else {
        i
    }
}

/// The bytes `tags:`.
pub open spec fn tags_key() -> Seq<u8> {
    seq![116u8, 97u8, 103u8, 115u8, 58u8]
}

/// A line of the shape `tags:` + whitespace + `[` + anything + `]`.
pub open spec fn is_tags_line(l: Seq<u8>) -> bool {
    &&& l.len() >= 7
    &&& l.subrange(0, 5) == tags_key()
    &&& skip_blanks(l, 5) < l.len()
    &&& l[skip_blanks(l, 5)] == 91
    &&& l[l.len() - 1] == 93
}

/// The bracket interior of a tags line.
pub open spec fn tags_inside(l: Seq<u8>) -> Seq<u8> {
    l.subrange(skip_blanks(l, 5) + 1, l.len() - 1)
}

/// Decides whether `s[ls..le]` is a tags line.
pub fn is_tags_line_at(s: &Vec<u8>, ls: usize, le: usize) -> (r: bool)
    requires
        ls <= le <= s.len(),
    ensures
        r == is_tags_line(s@.subrange(ls as int, le as int)),
{
    let ghost l = s@.subrange(ls as int, le as int);
    let n = le - ls;
    if n < 7 {
        return false;
    }
    if !(s[ls] == 116 && s[ls + 1] == 97 && s[ls + 2] == 103 && s[ls + 3] == 115 && s[ls + 4]
        == 58) {
        proof {
            assert(l.subrange(0, 5)[0] == s@[ls as int]);
            assert(l.subrange(0, 5)[1] == s@[ls as int + 1]);
            assert(l.subrange(0, 5)[2] == s@[ls as int + 2]);
            assert(l.subrange(0, 5)[3] == s@[ls as int + 3]);
            assert(l.subrange(0, 5)[4] == s@[ls as int + 4]);
            assert(l.subrange(0, 5) != tags_key());
        }
        return false;
    }
    proof {
        assert(l.subrange(0, 5) =~= tags_key());
    }
    let mut j: usize = 5;
    while j < n && is_ws_byte(s[ls + j])
        invariant
            5 <= j <= n,
            n == le - ls,
            ls <= le <= s@.len(),
            l == s@.subrange(ls as int, le as int),
            skip_blanks(l, 5) == skip_blanks(l, j as int),
        decreases n - j,
    {
        proof {
            assert(l[j as int] == s@[ls as int + j]);
            assert(skip_blanks(l, j as int) == skip_blanks(l, j as int + 1));
        }
        j = j + 1;
    }
    if j >= n {
        proof {
            assert(skip_blanks(l, j as int) == l.len());
        }
        return false;
    }
    proof {
        assert(l[j as int] == s@[ls as int + j]);
        assert(skip_blanks(l, j as int) == j as int);
    }
    if s[ls + j] != 91 {
        return false;
    }
    if s[le - 1] != 93 {
        proof {
            assert(l[l.len() - 1] == s@[le as int - 1]);
        }
        return false;
    }
    proof {
        assert(l[l.len() - 1] == s@[le as int - 1]);
    }
    true
}

/// The start of the first tags line among the lines of `s` that begin
/// before `he`.
pub open spec fn find_tags_line_from(s: Seq<u8>, i: int, he: int) -> Option<int>
    decreases he - i,
    via find_tags_line_from_decreases
{
    if !(0 <= i && i < he && he <= s.len()) {
        None
    } else {
        let e = line_end_from(s, i);
        if is_tags_line(s.subrange(i, e)) {
            Some(i)
        } else if e >= he {
            None
        } else {
            find_tags_line_from(s, e + 1, he)
        }
    }
}

#[via_fn]
proof fn find_tags_line_from_decreases(s: Seq<u8>, i: int, he: int) {
    if 0 <= i && i < he && he <= s.len() {
        lemma_line_end_bounds(s, i);
    }
}

/// Finds the first tags line of the header `s[..he]`, returning its start
/// and end.
pub fn find_tags_line(s: &Vec<u8>, he: usize) -> (r: Option<(usize, usize)>)
    requires
        he <= s.len(),
    ensures
        match r {
            Some(p) => {
                &&& find_tags_line_from(s@, 0, he as int) == Some(p.0 as int)
                &&& p.1 == line_end_from(s@, p.0 as int)
                &&& p.0 <= p.1 <= s@.len()
                &&& p.0 < he
                &&& is_tags_line(s@.subrange(p.0 as int, p.1 as int))
            },
            None => find_tags_line_from(s@, 0, he as int) is None,
        },
{
    let mut i: usize = 0;
    while i < he
        invariant
            i <= he <= s@.len(),
            find_tags_line_from(s@, 0, he as int) == find_tags_line_from(s@, i as int, he as int),
        decreases he - i,
    {
        let mut k: usize = i;
        while k < s.len() && s[k] != 10
            invariant
                i <= k <= s@.len(),
                line_end_from(s@, i as int) == line_end_from(s@, k as int),
            decreases s.len() - k,
        {
            proof {
                assert(line_end_from(s@, k as int) == line_end_from(s@, k as int + 1));
            }
            k = k + 1;
        }
        let e = k;
        proof {
            assert(line_end_from(s@, e as int) == e as int);
            assert(line_end_from(s@, i as int) == e as int);
        }
        if is_tags_line_at(s, i, e) {
            proof {
                assert(find_tags_line_from(s@, i as int, he as int) == Some(i as int));
            }
            return Some((i, e));
        }
        if e >= he {
            proof {
                assert(find_tags_line_from(s@, i as int, he as int) is None);
            }
            return None;
        }
        proof {
            assert(find_tags_line_from(s@, i as int, he as int) == find_tags_line_from(
                s@,
                e as int + 1,
                he as int,
            ));
        }
        i = e + 1;
    }
    proof {
        assert(find_tags_line_from(s@, i as int, he as int) is None);
    }
    None
}

/// Locates the bracket interior of the tags line `s[ls..le]`.
pub fn tags_inside_span(s: &Vec<u8>, ls: usize, le: usize) -> (r: (usize, usize))
    requires
        ls <= le <= s.len(),
        is_tags_line(s@.subrange(ls as int, le as int)),
    ensures
        ls <= r.0 <= r.1 <= le,
        s@.subrange(r.0 as int, r.1 as int) == tags_inside(s@.subrange(ls as int, le as int)),
{
    let ghost l = s@.subrange(ls as int, le as int);
    let n = le - ls;
    let mut j: usize = 5;
    while j < n && is_ws_byte(s[ls + j])
        invariant
            5 <= j <= n,
            n == le - ls,
            ls <= le <= s@.len(),
            l == s@.subrange(ls as int, le as int),
            skip_blanks(l, 5) == skip_blanks(l, j as int),
        decreases n - j,
    {
        proof {
            assert(l[j as int] == s@[ls as int + j]);
            assert(skip_blanks(l, j as int) == skip_blanks(l, j as int + 1));
        }
        j = j + 1;
    }
    proof {
        if j == n {
            assert(skip_blanks(l, j as int) == l.len());
        }
        assert(j < n);
        assert(l[j as int] == s@[ls as int + j]);
        assert(skip_blanks(l, j as int) == j as int);
        assert(l[j as int] == 91);
        assert(l[l.len() - 1] == 93);
        assert(j as int != l.len() - 1);
        assert(l.subrange(j as int + 1, n as int - 1) =~= s@.subrange(
            ls as int + j + 1,
            le as int - 1,
        ));
    }
    (ls + j + 1, le - 1)
}

/// The tags recorded in a bracket interior: the comma-separated items, each
/// trimmed of surrounding whitespace.
pub open spec fn parse_items(inside: Seq<u8>) -> Seq<Seq<u8>> {
    split_commas(inside).map_values(|p: Seq<u8>| trim(p))
}

/// Parses a bracket interior, as [`parse_items`] describes.
pub fn parse_items_vec(s: &Vec<u8>) -> (r: Vec<Vec<u8>>)
    ensures
        r@.map_values(|p: Vec<u8>| p@) == parse_items(s@),
        r@.len() >= 1,
{
    let pieces = split_commas_vec(s);
    let ghost ps = split_commas(s@);
    let mut r: Vec<Vec<u8>> = Vec::new();
    let mut i: usize = 0;
    proof {
        assert(r@.map_values(|p: Vec<u8>| p@) =~~= ps.take(0).map_values(|p: Seq<u8>| trim(p)));
    }
    while i < pieces.len()
        invariant
            i <= pieces.len(),
            pieces@.map_values(|p: Vec<u8>| p@) == ps,
            ps == split_commas(s@),
            r@.map_values(|p: Vec<u8>| p@) == ps.take(i as int).map_values(
                |p: Seq<u8>| trim(p),
            ),
        decreases pieces.len() - i,
    {
        proof {
            assert(pieces@[i as int]@ == ps[i as int]);
        }
        let t = trim_bytes(&pieces[i]);
        proof {
            assert(t@ == trim(ps[i as int]));
            assert(r@.map_values(|p: Vec<u8>| p@).len() == r@.len());
            assert(ps.take(i as int).len() == i);
            assert(r@.len() == i);
            let lhs = (r@.push(t)).map_values(|p: Vec<u8>| p@);
            let rhs = ps.take(i as int + 1).map_values(|p: Seq<u8>| trim(p));
            assert forall|k: int| 0 <= k < i + 1 implies #[trigger] lhs[k] == rhs[k] by {
                assert(ps.take(i as int + 1)[k] == ps[k]);
                if k < i as int {
                    assert((r@.push(t))[k] == r@[k]);
                    assert((r@.map_values(|p: Vec<u8>| p@))[k] == (ps.take(i as int).map_values(
                        |p: Seq<u8>| trim(p),
                    ))[k]);
                    assert(ps.take(i as int)[k] == ps[k]);
                } else {
                    assert((r@.push(t))[k] == t);
                }
            }
            assert(lhs =~= rhs);
        }
        r.push(t);
        i = i + 1;
    }
    proof {
        assert(ps.take(ps.len() as int) =~= ps);
        assert(r@.map_values(|p: Vec<u8>| p@) =~~= parse_items(s@));
    }
    r
}

/// Whether the list holds `t`, by exact byte equality.
pub fn contains_bytes(list: &Vec<Vec<u8>>, t: &Vec<u8>) -> (r: bool)
    ensures
        r == list@.map_values(|p: Vec<u8>| p@).contains(t@),
{
    let ghost ms = list@.map_values(|p: Vec<u8>| p@);
    let mut i: usize = 0;
    while i < list.len()
        invariant
            i <= list.len(),
            ms == list@.map_values(|p: Vec<u8>| p@),
            forall|k: int| 0 <= k < i ==> ms[k] != t@,
        decreases list.len() - i,
    {
        if bytes_eq(&list[i], t) {
            proof {
                assert(ms[i as int] == t@);
            }
            return true;
        }
        i = i + 1;
    }
    proof {
        assert(forall|k: int| 0 <= k < ms.len() ==> ms[k] != t@);
    }
    false
}

/// The input tags that are genuinely new: those not already in `existing`,
/// kept in input order.
pub open spec fn keep_new(tags: Seq<Seq<u8>>, existing: Seq<Seq<u8>>) -> Seq<Seq<u8>>
    decreases tags.len(),
{
    if tags.len() == 0 {
        Seq::<Seq<u8>>::empty()
    } else {
        let r = keep_new(tags.drop_last(), existing);
        if existing.contains(tags.last()) {
            r
        } else {
            r.push(tags.last())
        }
    }
}

/// Filters `tags` down to the genuinely new ones, as [`keep_new`] describes.
pub fn keep_new_vec(tags: &Vec<Vec<u8>>, existing: &Vec<Vec<u8>>) -> (r: Vec<Vec<u8>>)
    ensures
        r@.map_values(|p: Vec<u8>| p@) == keep_new(
            tags@.map_values(|p: Vec<u8>| p@),
            existing@.map_values(|p: Vec<u8>| p@),
        ),
{
    let ghost ts = tags@.map_values(|p: Vec<u8>| p@);
    let ghost ex = existing@.map_values(|p: Vec<u8>| p@);
    let mut r: Vec<Vec<u8>> = Vec::new();
    let mut i: usize = 0;
    proof {
        assert(ts.take(0) =~~= Seq::<Seq<u8>>::empty());
        assert(r@.map_values(|p: Vec<u8>| p@) =~~= keep_new(ts.take(0), ex));
    }
    while i < tags.len()
        invariant
            i <= tags.len(),
            ts == tags@.map_values(|p: Vec<u8>| p@),
            ex == existing@.map_values(|p: Vec<u8>| p@),
            r@.map_values(|p: Vec<u8>| p@) == keep_new(ts.take(i as int), ex),
        decreases tags.len() - i,
    {
        proof {
            assert(ts.take(i as int + 1).drop_last() =~~= ts.take(i as int));
            assert(ts.take(i as int + 1).last() == ts[i as int]);
            assert(tags@[i as int]@ == ts[i as int]);
        }
        if !contains_bytes(existing, &tags[i]) {
            let t = copy_vec(&tags[i]);
            proof {
                assert((r@.push(t)).map_values(|p: Vec<u8>| p@) =~~= r@.map_values(
                    |p: Vec<u8>| p@,
                ).push(ts[i as int]));
            }
            r.push(t);
        }
        i = i + 1;
    }
    proof {
        assert(ts.take(ts.len() as int) =~= ts);
    }
    r
}

/// A delimiter with none before it is the first one.
pub proof fn lemma_first_delim_position(s: Seq<u8>, j: int, d: int)
    requires
        0 <= j <= d,
        delim_at(s, d),
        forall|i: int| j <= i < d ==> !delim_at(s, i),
    ensures
        first_delim_from(s, j) == Some(d),
    decreases d - j,
{
    if j < d {
        lemma_first_delim_position(s, j + 1, d);
    }
}

/// A newline (or the end of `s`) with no newline between is the line end.
pub proof fn lemma_line_end_position(s: Seq<u8>, j: int, e: int)
    requires
        0 <= j <= e <= s.len(),
        forall|k: int| j <= k < e ==> s[k] != 10,
        e == s.len() || s[e] == 10,
    ensures
        line_end_from(s, j) == e,
    decreases e - j,
{
    if j < e {
        lemma_line_end_position(s, j + 1, e);
    }
}

/// A tag the header renderer can read back: free of commas and newlines,
/// with no surrounding whitespace.
pub open spec fn plain_tag(t: Seq<u8>) -> bool {
    &&& forall|k: int| 0 <= k < t.len() ==> (#[trigger] t[k]) != 44 && t[k] != 10
    &&& trim(t) == t
}

/// Joining plain tags with `", "` yields no newline.
pub proof fn lemma_join_plain_no_newline(ts: Seq<Seq<u8>>)
    requires
        forall|i: int| 0 <= i < ts.len() ==> plain_tag(#[trigger] ts[i]),
    ensures
        forall|k: int| 0 <= k < join_sep(ts, comma_space()).len() ==> (#[trigger] join_sep(
            ts,
            comma_space(),
        )[k]) != 10,
    decreases ts.len(),
{
    let j = join_sep(ts, comma_space());
    if ts.len() == 0 {
    } else if ts.len() == 1 {
        assert(plain_tag(ts[0]));
        assert(j == ts[0]);
    } else {
        let dl = ts.drop_last();
        lemma_join_plain_no_newline(dl);
        let jd = join_sep(dl, comma_space());
        assert(j == jd + comma_space() + ts.last());
        assert(plain_tag(ts[ts.len() - 1]));
        assert forall|k: int| 0 <= k < j.len() implies (#[trigger] j[k]) != 10 by {
            if k < jd.len() {
                assert(j[k] == jd[k]);
            } else if k < jd.len() + 2 {
                assert(j[k] == comma_space()[k - jd.len()]);
            } else {
                assert(j[k] == ts.last()[k - jd.len() - 2]);
            }
        }
    }
}

/// Parsing the rendered join of plain tags gives the tags back.
pub proof fn lemma_parse_items_round_trip(ts: Seq<Seq<u8>>)
    requires
        ts.len() >= 1,
        forall|i: int| 0 <= i < ts.len() ==> plain_tag(#[trigger] ts[i]),
    ensures
        parse_items(join_sep(ts, comma_space())) == ts,
    decreases ts.len(),
{
    let j = join_sep(ts, comma_space());
    if ts.len() == 1 {
        assert(plain_tag(ts[0]));
        assert(j == ts[0]);
        crate::text::lemma_split_comma_free(j);
        let lhs = split_commas(j).map_values(|p: Seq<u8>| trim(p));
        assert(split_commas(j) == seq![ts[0]]);
        assert(lhs.len() == 1);
        assert(lhs[0] == trim(ts[0]));
        assert(lhs =~~= ts);
    } else {
        let rest = ts.drop_first();
        assert(forall|i: int| 0 <= i < rest.len() ==> plain_tag(#[trigger] rest[i]));
        lemma_parse_items_round_trip(rest);
        crate::text::lemma_join_sep_front(ts, comma_space());
        let jr = join_sep(rest, comma_space());
        let tail = seq![32u8] + jr;
        assert(plain_tag(ts[0]));
        assert(j =~= ts[0] + seq![44u8] + tail);
        crate::text::lemma_split_at_comma(ts[0], tail);
        assert(split_commas(j) == seq![ts[0]] + split_commas(tail));
        assert(tail[0] == 32);
        assert(tail.skip(1) =~= jr);
        let sp = split_commas(jr);
        assert(split_commas(tail) =~~= seq![seq![32u8] + sp[0]] + sp.skip(1));
        let lhs = split_commas(j).map_values(|p: Seq<u8>| trim(p));
        let rhs = sp.map_values(|p: Seq<u8>| trim(p));
        assert(rhs == rest);
        assert(sp.len() >= 1) by {
            if sp.len() == 0 {
                assert(rhs.len() == 0);
            }
        }
        assert forall|k: int| 0 <= k < lhs.len() implies #[trigger] lhs[k] == ts[k] by {
            assert(lhs[k] == trim(split_commas(j)[k]));
            if k == 0 {
                assert(split_commas(j)[0] == ts[0]);
            } else if k == 1 {
                assert(split_commas(j)[1] == split_commas(tail)[0]);
                assert(split_commas(tail)[0] == seq![32u8] + sp[0]);
                crate::text::lemma_trim_unpad(sp[0], 32);
                assert(trim(seq![32u8] + sp[0]) == trim(sp[0]));
                assert(rhs[0] == trim(sp[0]));
                assert(rhs[0] == rest[0]);
                assert(rest[0] == ts[1]);
            } else {
                assert(split_commas(j)[k] == split_commas(tail)[k - 1]);
                assert(split_commas(tail)[k - 1] == sp.skip(1)[k - 2]);
                assert(sp.skip(1)[k - 2] == sp[k - 1]);
                assert(rhs[k - 1] == trim(sp[k - 1]));
                assert(rhs[k - 1] == rest[k - 1]);
                assert(rest[k - 1] == ts[k]);
            }
        }
        assert(lhs.len() == ts.len()) by {
            assert(split_commas(j).len() == 1 + split_commas(tail).len());
            assert(split_commas(tail).len() == 1 + sp.skip(1).len());
            assert(sp.len() == rest.len());
        }
        assert(lhs =~~= ts);
    }
}

/// What [`first_delim_from`] returns really is a delimiter.
proof fn lemma_first_delim_sound(s: Seq<u8>, j: int)
    ensures
        match first_delim_from(s, j) {
            Some(d) => delim_at(s, d) && j <= d,
            None => true,
        },
    decreases s.len() - j,
{
    if j + 5 > s.len() {
    } else if delim_at(s, j) {
    } else {
        lemma_first_delim_sound(s, j + 1);
    }
}

/// What [`find_tags_line_from`] returns is a line start inside the header.
proof fn lemma_find_tags_line_sound(s: Seq<u8>, i: int, he: int)
    ensures
        match find_tags_line_from(s, i, he) {
            Some(ls) => i <= ls < he && he <= s.len(),
            None => true,
        },
    decreases he - i,
{
    if 0 <= i && i < he && he <= s.len() {
        let e = line_end_from(s, i);
        if is_tags_line(s.subrange(i, e)) {
        } else if e >= he {
        } else {
            lemma_line_end_bounds(s, i);
            lemma_find_tags_line_sound(s, e + 1, he);
        }
    }
}

/// **Append-only entries**, the merge's half: whatever a merge does to the
/// tags line, every byte from the header-closing delimiter on — the blank
/// line and all entry lines — survives unchanged at the end of the result.
pub proof fn lemma_merge_preserves_entries(c: Seq<u8>, tags: Seq<Seq<u8>>, he: int)
    requires
        first_delim_from(c, 0) == Some(he),
        merge_model(c, tags) is Some,
    ensures
        match merge_model(c, tags) {
            Some(out) => out.len() >= c.len() - he && out.skip(
                out.len() - (c.len() - he),
            ) == c.skip(he),
            None => false,
        },
{
    lemma_first_delim_sound(c, 0);
    assert(delim_at(c, he));
    match find_tags_line_from(c, 0, he) {
        None => {
            assert(parsed_tags_span(c) is None);
        },
        Some(ls) => {
            lemma_find_tags_line_sound(c, 0, he);
            let le = line_end_from(c, ls);
            lemma_line_end_bounds(c, ls);
            assert(le <= he) by {
                if le > he {
                    assert(c[he] != 10);
                }
            }
            let kept = keep_new(tags, header_tags(c));
            if kept.len() == 0 {
                assert(c.skip(c.len() - (c.len() - he)) == c.skip(he));
            } else {
                let out = c.take(ls) + rendered_tags_line(header_tags(c) + kept) + c.skip(le);
                let tail = c.len() - he;
                assert(out.len() == ls + rendered_tags_line(header_tags(c) + kept).len() + (
                c.len() - le));
                assert(out.len() - tail >= 0);
                assert forall|k: int| 0 <= k < tail implies out.skip(out.len() - tail)[k]
                    == c.skip(he)[k] by {
                    assert(out.skip(out.len() - tail)[k] == out[out.len() - tail + k]);
                    assert(out[out.len() - tail + k] == c.skip(le)[he - le + k]);
                }
                assert(out.skip(out.len() - tail) =~= c.skip(he));
            }
        },
    }
}

/// Membership in a pushed sequence: the old members and the new element.
proof fn lemma_contains_push(s: Seq<Seq<u8>>, x: Seq<u8>, t: Seq<u8>)
    ensures
        s.push(x).contains(t) <==> (s.contains(t) || x == t),
{
    if s.contains(t) {
        let i = choose|i: int| 0 <= i < s.len() && s[i] == t;
        assert(s.push(x)[i] == t);
    }
    if x == t {
        assert(s.push(x)[s.len() as int] == t);
    }
    if s.push(x).contains(t) && x != t {
        let i = choose|i: int| 0 <= i < s.push(x).len() && s.push(x)[i] == t;
        assert(s[i] == t);
    }
}

/// Membership in a concatenation: a member of either part.
proof fn lemma_contains_add(a: Seq<Seq<u8>>, b: Seq<Seq<u8>>, t: Seq<u8>)
    ensures
        (a + b).contains(t) <==> (a.contains(t) || b.contains(t)),
{
    if a.contains(t) {
        let i = choose|i: int| 0 <= i < a.len() && a[i] == t;
        assert((a + b)[i] == t);
    }
    if b.contains(t) {
        let i = choose|i: int| 0 <= i < b.len() && b[i] == t;
        assert((a + b)[a.len() + i] == t);
    }
    if (a + b).contains(t) {
        let i = choose|i: int| 0 <= i < (a + b).len() && (a + b)[i] == t;
        if i < a.len() {
            assert(a[i] == t);
        } else {
            assert(b[i - a.len()] == t);
        }
    }
}

/// What [`keep_new`] holds: exactly the input tags that are not already
/// present.
pub proof fn lemma_keep_new_exact(tags: Seq<Seq<u8>>, existing: Seq<Seq<u8>>, t: Seq<u8>)
    ensures
        keep_new(tags, existing).contains(t) <==> (tags.contains(t) && !existing.contains(t)),
    decreases tags.len(),
{
    if tags.len() == 0 {
    } else {
        let prefix = tags.drop_last();
        lemma_keep_new_exact(prefix, existing, t);
        let r = keep_new(prefix, existing);
        assert(tags.contains(t) <==> (prefix.contains(t) || tags.last() == t)) by {
            if prefix.contains(t) {
                let i = choose|i: int| 0 <= i < prefix.len() && prefix[i] == t;
                assert(tags[i] == t);
            }
            if tags.last() == t {
                assert(tags[tags.len() - 1] == t);
            }
            if tags.contains(t) {
                let i = choose|i: int| 0 <= i < tags.len() && tags[i] == t;
                if i < tags.len() - 1 {
                    assert(prefix[i] == t);
                }
            }
        }
        if !existing.contains(tags.last()) {
            lemma_contains_push(r, tags.last(), t);
        }
    }
}

/// [`keep_new`] never repeats a tag when the input does not.
pub proof fn lemma_keep_new_no_duplicates(tags: Seq<Seq<u8>>, existing: Seq<Seq<u8>>)
    requires
        tags.no_duplicates(),
    ensures
        keep_new(tags, existing).no_duplicates(),
    decreases tags.len(),
{
    if tags.len() == 0 {
    } else {
        let prefix = tags.drop_last();
        let last = tags.last();
        assert(prefix.no_duplicates());
        lemma_keep_new_no_duplicates(prefix, existing);
        let r = keep_new(prefix, existing);
        if !existing.contains(last) {
            assert(!prefix.contains(last)) by {
                if prefix.contains(last) {
                    let i = choose|i: int| 0 <= i < prefix.len() && prefix[i] == last;
                    assert(tags[i] == tags[tags.len() - 1]);
                }
            }
            lemma_keep_new_exact(prefix, existing, last);
            assert(!r.contains(last));
            assert forall|i: int, j: int|
                0 <= i < r.push(last).len() && 0 <= j < r.push(last).len() && i != j implies r.push(
                last,
            )[i] != r.push(last)[j] by {
                if i < r.len() && j < r.len() {
                    assert(r[i] != r[j]);
                } else if j == r.len() && i < r.len() {
                    if r[i] == last {
                        assert(r.contains(last));
                    }
                } else if i == r.len() && j < r.len() {
                    if r[j] == last {
                        assert(r.contains(last));
                    }
                }
            }
        }
    }
}

/// The tag list a successful merge records: the existing tags, then the
/// genuinely new ones.
pub open spec fn merged_tags(tags: Seq<Seq<u8>>, existing: Seq<Seq<u8>>) -> Seq<Seq<u8>> {
    existing + keep_new(tags, existing)
}

/// **Tag merge no-duplication**: a merge appends only genuinely new tags.
/// The existing tags keep their places, a tag stands in the merged list
/// exactly when it was already recorded or was supplied, and when neither
/// list repeats itself the merged list does not either.
pub proof fn lemma_tag_merge_no_duplication(tags: Seq<Seq<u8>>, existing: Seq<Seq<u8>>)
    ensures
        merged_tags(tags, existing).take(existing.len() as int) == existing,
        forall|t: Seq<u8>|
            #[trigger] merged_tags(tags, existing).contains(t) <==> (existing.contains(t)
                || tags.contains(t)),
        (existing.no_duplicates() && tags.no_duplicates()) ==> merged_tags(
            tags,
            existing,
        ).no_duplicates(),
{
    let kept = keep_new(tags, existing);
    let m = merged_tags(tags, existing);
    assert(m.take(existing.len() as int) =~~= existing);
    assert forall|t: Seq<u8>|
        #[trigger] m.contains(t) <==> (existing.contains(t) || tags.contains(t)) by {
        lemma_keep_new_exact(tags, existing, t);
        lemma_contains_add(existing, kept, t);
    }
    if existing.no_duplicates() && tags.no_duplicates() {
        lemma_keep_new_no_duplicates(tags, existing);
        assert forall|i: int, j: int|
            0 <= i < m.len() && 0 <= j < m.len() && i != j implies m[i] != m[j] by {
            let e = existing.len() as int;
            if i < e && j < e {
                assert(existing[i] != existing[j]);
            } else if i >= e && j >= e {
                assert(kept[i - e] != kept[j - e]);
            } else if i < e && j >= e {
                lemma_keep_new_exact(tags, existing, kept[j - e]);
                assert(kept.contains(kept[j - e]));
                if existing[i] == kept[j - e] {
                    assert(existing.contains(existing[i]));
                }
            } else {
                lemma_keep_new_exact(tags, existing, kept[i - e]);
                assert(kept.contains(kept[i - e]));
                if existing[j] == kept[i - e] {
                    assert(existing.contains(existing[j]));
                }
            }
        }
    }
}

/// [`keep_new`] finds nothing new exactly when every supplied tag is
/// already present.
pub proof fn lemma_keep_new_all_present(tags: Seq<Seq<u8>>, existing: Seq<Seq<u8>>)
    ensures
        keep_new(tags, existing).len() == 0 <==> (forall|t: Seq<u8>|
            #[trigger] tags.contains(t) ==> existing.contains(t)),
{
    let kept = keep_new(tags, existing);
    if kept.len() == 0 {
        assert forall|t: Seq<u8>| #[trigger] tags.contains(t) implies existing.contains(t) by {
            lemma_keep_new_exact(tags, existing, t);
        }
    } else {
        assert(kept.contains(kept[0]));
        lemma_keep_new_exact(tags, existing, kept[0]);
        assert(tags.contains(kept[0]) && !existing.contains(kept[0]));
    }
}

/// **Tag merge idempotence**: when every supplied tag is already recorded
/// in the header, the merge leaves the contents byte-identical.
pub proof fn lemma_tag_merge_idempotence(c: Seq<u8>, tags: Seq<Seq<u8>>)
    requires
        parsed_tags_span(c) is Some,
        forall|t: Seq<u8>| #[trigger] tags.contains(t) ==> header_tags(c).contains(t),
    ensures
        merge_model(c, tags) == Some(c),
{
    lemma_keep_new_all_present(tags, header_tags(c));
}

/// **Malformed header rejection**: contents without a parsable header —
/// no closing delimiter, or no tags line in the block before it — have no
/// merge result, so [`merge_tags`] fails and nothing is written.
pub proof fn lemma_malformed_header_rejected(c: Seq<u8>, tags: Seq<Seq<u8>>)
    requires
        parsed_tags_span(c) is None,
    ensures
        merge_model(c, tags) is None,
{
}

/// Where the tags line of `c` stands: the span between the start of the
/// first tags line of the header and its line end. `None` when `c` has no
/// header delimiter or the header has no tags line.
pub open spec fn parsed_tags_span(c: Seq<u8>) -> Option<(int, int)> {
    match first_delim_from(c, 0) {
        None => None,
        Some(he) => match find_tags_line_from(c, 0, he) {
            None => None,
            Some(ls) => Some((ls, line_end_from(c, ls))),
        },
    }
}

/// The tags recorded in the header of `c`; the empty sequence when the
/// header does not parse.
pub open spec fn header_tags(c: Seq<u8>) -> Seq<Seq<u8>> {
    match parsed_tags_span(c) {
        Some(sp) => parse_items(tags_inside(c.subrange(sp.0, sp.1))),
        None => Seq::<Seq<u8>>::empty(),
    }
}

/// The line `tags: [` + the joined tag list + `]`.
pub open spec fn rendered_tags_line(ts: Seq<Seq<u8>>) -> Seq<u8> {
    seq![116u8, 97u8, 103u8, 115u8, 58u8, 32u8, 91u8] + join_sep(ts, comma_space()) + seq![93u8]
}

/// What merging `tags` into the contents `c` yields: `None` when the header
/// cannot be parsed; the unchanged contents when no tag is genuinely new;
/// otherwise `c` with its tags line replaced by one holding the existing
/// tags followed by the new ones.
pub open spec fn merge_model(c: Seq<u8>, tags: Seq<Seq<u8>>) -> Option<Seq<u8>> {
    match parsed_tags_span(c) {
        None => None,
        Some(sp) => {
            let kept = keep_new(tags, header_tags(c));
            if kept.len() == 0 {
                Some(c)
            } else {
                Some(
                    c.take(sp.0) + rendered_tags_line(header_tags(c) + kept) + c.skip(sp.1),
                )
            }
        },
    }
}

/// Merges `tags` into the header of `contents`, returning the full new
/// contents, exactly as [`merge_model`] describes. Fails with
/// `CannotParseMetaData`, and only then, when the header delimiter or the
/// tags line is missing.
pub fn merge_tags(contents: &Vec<u8>, tags: &Vec<Vec<u8>>) -> (r: Result<Vec<u8>, Error>)
    ensures
        match r {
            Ok(out) => merge_model(contents@, tags@.map_values(|t: Vec<u8>| t@)) == Some(out@),
            Err(e) => e is CannotParseMetaData && merge_model(
                contents@,
                tags@.map_values(|t: Vec<u8>| t@),
            ) is None,
        },
{
    let ghost ts = tags@.map_values(|t: Vec<u8>| t@);
    let he = match find_delim(contents) {
        None => {
            return Err(Error::CannotParseMetaData);
        },
        Some(he) => he,
    };
    let (ls, le) = match find_tags_line(contents, he) {
        None => {
            return Err(Error::CannotParseMetaData);
        },
        Some(p) => p,
    };
    proof {
        assert(parsed_tags_span(contents@) == Some((ls as int, le as int)));
    }
    let sp = tags_inside_span(contents, ls, le);
    let inside = subvec(contents, sp.0, sp.1);
    let existing = parse_items_vec(&inside);
    proof {
        assert(existing@.map_values(|p: Vec<u8>| p@) == header_tags(contents@));
    }
    let kept = keep_new_vec(tags, &existing);
    if kept.len() == 0 {
        proof {
            assert(keep_new(ts, header_tags(contents@)).len() == 0);
        }
        Ok(copy_vec(contents))
    } else {
        let mut all = existing;
        let mut new_tail = kept;
        all.append(&mut new_tail);
        proof {
            assert(all@.map_values(|p: Vec<u8>| p@) =~~= header_tags(contents@) + keep_new(
                ts,
                header_tags(contents@),
            ));
        }
        let line = join_comma_space(&all);
        let mut out = subvec(contents, 0, ls);
        out.push(116);
        out.push(97);
        out.push(103);
        out.push(115);
        out.push(58);
        out.push(32);
        out.push(91);
        append_vec(&mut out, &line);
        out.push(93);
        append_range(&mut out, contents, le, contents.len());
        proof {
            assert(contents@.subrange(0, ls as int) == contents@.take(ls as int));
            assert(contents@.subrange(le as int, contents@.len() as int) =~= contents@.skip(
                le as int,
            ));
            assert(out@ =~= contents@.take(ls as int) + rendered_tags_line(
                header_tags(contents@) + keep_new(ts, header_tags(contents@)),
            ) + contents@.skip(le as int));
        }
        Ok(out)
    }
}

} // verus!
