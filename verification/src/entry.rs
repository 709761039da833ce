//! A note entry — the content line and its tags — and the verified parts
//! of the write path: deciding what a write must do, rendering the fresh
//! header and the entry line, merging tags into an existing header, and
//! resolving today's target path.

use vstd::prelude::*;

use crate::error::Error;
use crate::header::{
    delim_at, find_tags_line_from, header_tags, is_tags_line, lemma_first_delim_position,
    lemma_line_end_position, lemma_parse_items_round_trip, line_end_from, merge_model,
    merge_tags, parse_items, parsed_tags_span, plain_tag, skip_blanks, tags_inside, tags_key,
};
use crate::host::{home_dir_bytes, today};
use crate::path::{
    note_dir_bytes, note_file_bytes, resolve, root_bytes, root_from_home, valid_date, NotePath,
};
use crate::text::{append_vec, comma_space, join_comma_space, join_sep};

verus! {

/// One note: the entry text and the tags to attach to the day's header.
pub struct Entry {
    /// The entry text, written as the line `- {content}`.
    pub content: Vec<u8>,
    /// The tags to record in the header, in order.
    pub tags: Vec<Vec<u8>>,
}

/// What a write must do, given the size of the note file.
#[derive(PartialEq, Eq, Structural, Clone, Copy, Debug)]
pub enum WriteAction {
    /// The file is new or empty: write a fresh header, then the entry line.
    InitHeader,
    /// The file has contents and tags were supplied: merge the tags into
    /// the header, then append the entry line.
    MergeThenAppend,
    /// The file has contents and no tags were supplied: append the entry
    /// line and nothing else.
    AppendOnly,
}

/// The action a write takes: a fresh header on an empty file, a tag merge
/// when tags were supplied, a plain append otherwise.
pub open spec fn write_action(tags: Seq<Seq<u8>>, file_size: u64) -> WriteAction {
    if file_size == 0 {
        WriteAction::InitHeader
    } else if tags.len() > 0 {
        WriteAction::MergeThenAppend
    } else {
        WriteAction::AppendOnly
    }
}

/// **Empty-tags fast path**: a write with no tags to a non-empty file only
/// appends — the plan never asks for the header to be read or rewritten.
pub proof fn lemma_empty_tags_fast_path(tags: Seq<Seq<u8>>, file_size: u64)
    requires
        tags.len() == 0,
        file_size > 0,
    ensures
        write_action(tags, file_size) == WriteAction::AppendOnly,
{
}

/// The bytes of `---\ntitle: "default"\ntags: [`.
pub open spec fn meta_prefix() -> Seq<u8> {
    seq![
        45u8, 45u8, 45u8, 10u8, 116u8, 105u8, 116u8, 108u8, 101u8, 58u8, 32u8, 34u8, 100u8,
        101u8, 102u8, 97u8, 117u8, 108u8, 116u8, 34u8, 10u8, 116u8, 97u8, 103u8, 115u8, 58u8,
        32u8, 91u8,
    ]
}

/// The bytes of `]\n---\n\n`.
pub open spec fn meta_suffix() -> Seq<u8> {
    seq![93u8, 10u8, 45u8, 45u8, 45u8, 10u8, 10u8]
}

/// The header written to a fresh file: the delimiter line, the fixed
/// `default` title, the bracketed tag list, the closing delimiter and a
/// blank line.
pub open spec fn meta_bytes(ts: Seq<Seq<u8>>) -> Seq<u8> {
    meta_prefix() + join_sep(ts, comma_space()) + meta_suffix()
}

/// **Idempotent header creation**, read-back half: the header that
/// [`Entry::generate_meta`] writes parses back to exactly the given tags,
/// in input order, whatever entry lines follow it. Stated for at least one
/// plain tag — free of commas and newlines, without surrounding
/// whitespace — since an empty bracket reads back as one empty tag and a
/// comma inside a tag splits it.
pub proof fn lemma_generated_header_parses(ts: Seq<Seq<u8>>, rest: Seq<u8>)
    requires
        ts.len() >= 1,
        forall|i: int| 0 <= i < ts.len() ==> plain_tag(#[trigger] ts[i]),
    ensures
        header_tags(meta_bytes(ts) + rest) == ts,
{
    let j = join_sep(ts, comma_space());
    let jl = j.len() as int;
    let c = meta_bytes(ts) + rest;
    assert(meta_prefix().len() == 28);
    assert(meta_suffix().len() == 7);
    assert(c.len() == 35 + jl + rest.len());
    assert forall|k: int| 0 <= k < 28 implies c[k] == meta_prefix()[k] by {}
    assert forall|k: int| 0 <= k < jl implies c[28 + k] == j[k] by {}
    assert forall|k: int| 0 <= k < 7 implies c[28 + jl + k] == meta_suffix()[k] by {}
    crate::header::lemma_join_plain_no_newline(ts);
    let he = 29 + jl;
    assert(delim_at(c, he)) by {
        assert(c[he] == meta_suffix()[1]);
        assert(c[he + 1] == meta_suffix()[2]);
        assert(c[he + 2] == meta_suffix()[3]);
        assert(c[he + 3] == meta_suffix()[4]);
        assert(c[he + 4] == meta_suffix()[5]);
    }
    assert forall|i: int| 0 <= i < he implies !delim_at(c, i) by {
        if delim_at(c, i) {
            assert(c[i] == 10);
            if i < 28 {
                assert(c[i] == meta_prefix()[i]);
                assert(i == 3 || i == 20);
                if i == 3 {
                    assert(c[4] == meta_prefix()[4]);
                    assert(c[4] == 116);
                } else {
                    assert(c[21] == meta_prefix()[21]);
                    assert(c[21] == 116);
                }
            } else if i < 28 + jl {
                assert(c[i] == j[i - 28]);
            } else {
                assert(i == 28 + jl);
                assert(c[i] == meta_suffix()[0]);
            }
        }
    }
    lemma_first_delim_position(c, 0, he);
    lemma_line_end_position(c, 0, 3);
    let l1 = c.subrange(0, 3);
    assert(!is_tags_line(l1));
    lemma_line_end_position(c, 4, 20);
    let l2 = c.subrange(4, 20);
    assert(!is_tags_line(l2)) by {
        assert(l2.subrange(0, 5)[1] == c[5]);
        assert(c[5] == 105);
        if l2.subrange(0, 5) == tags_key() {
            assert(l2.subrange(0, 5)[1] == 97);
        }
    }
    assert forall|k: int| 21 <= k < he implies c[k] != 10 by {
        if k < 28 {
            assert(c[k] == meta_prefix()[k]);
        } else if k < 28 + jl {
            assert(c[k] == j[k - 28]);
        } else {
            assert(c[k] == meta_suffix()[0]);
        }
    }
    lemma_line_end_position(c, 21, he);
    let l3 = c.subrange(21, he);
    assert(l3.len() == 8 + jl);
    assert(is_tags_line(l3)) by {
        assert(l3.subrange(0, 5) =~= tags_key()) by {
            assert(l3.subrange(0, 5)[0] == c[21]);
            assert(l3.subrange(0, 5)[1] == c[22]);
            assert(l3.subrange(0, 5)[2] == c[23]);
            assert(l3.subrange(0, 5)[3] == c[24]);
            assert(l3.subrange(0, 5)[4] == c[25]);
        }
        assert(l3[5] == c[26]);
        assert(l3[6] == c[27]);
        assert(c[26] == 32 && c[27] == 91);
        assert(skip_blanks(l3, 6) == 6);
        assert(skip_blanks(l3, 5) == 6);
        assert(l3[l3.len() - 1] == c[28 + jl]);
        assert(c[28 + jl] == meta_suffix()[0]);
    }
    assert(find_tags_line_from(c, 21, he) == Some(21int));
    assert(find_tags_line_from(c, 4, he) == Some(21int)) by {
        assert(line_end_from(c, 4) == 20);
        assert(!is_tags_line(c.subrange(4, 20)));
    }
    assert(find_tags_line_from(c, 0, he) == Some(21int)) by {
        assert(line_end_from(c, 0) == 3);
        assert(!is_tags_line(c.subrange(0, 3)));
    }
    assert(parsed_tags_span(c) matches Some(sp) && sp.0 == 21 && sp.1 == he);
    assert(tags_inside(l3) =~= j) by {
        assert(l3[5] == c[26]);
        assert(l3[6] == c[27]);
        assert(c[26] == 32 && c[27] == 91);
        assert(skip_blanks(l3, 6) == 6);
        assert(skip_blanks(l3, 5) == 6);
        assert forall|k: int| 0 <= k < jl implies tags_inside(l3)[k] == j[k] by {
            assert(tags_inside(l3)[k] == l3[7 + k]);
            assert(l3[7 + k] == c[28 + k]);
        }
    }
    lemma_parse_items_round_trip(ts);
    assert(header_tags(c) == parse_items(tags_inside(c.subrange(21, he))));
    assert(c.subrange(21, he) == l3);
    assert(header_tags(c) == ts);
}

/// The appended entry line `- {content}` with its newline.
pub open spec fn entry_line_bytes(content: Seq<u8>) -> Seq<u8> {
    seq![45u8, 32u8] + content + seq![10u8]
}

impl Entry {
    /// The tag list as mathematical sequences.
    pub open spec fn tags_view(&self) -> Seq<Seq<u8>> {
        self.tags@.map_values(|t: Vec<u8>| t@)
    }

    /// Makes an entry from its parts.
    pub fn new(content: Vec<u8>, tags: Vec<Vec<u8>>) -> (e: Entry)
        ensures
            e.content == content,
            e.tags == tags,
    {
        Entry { content, tags }
    }

    /// Decides what a write must do for a file of the given size.
    pub fn write_plan(&self, file_size: u64) -> (a: WriteAction)
        ensures
            a == write_action(self.tags_view(), file_size),
    {
        if file_size == 0 {
            WriteAction::InitHeader
        } else if self.tags.len() > 0 {
            WriteAction::MergeThenAppend
        } else {
            WriteAction::AppendOnly
        }
    }

    /// Renders the fresh header for a new file, with this entry's tags in
    /// input order.
    pub fn generate_meta(&self) -> (r: Vec<u8>)
        ensures
            r@ == meta_bytes(self.tags_view()),
    {
        let mut out: Vec<u8> = Vec::new();
        out.push(45);
        out.push(45);
        out.push(45);
        out.push(10);
        out.push(116);
        out.push(105);
        out.push(116);
        out.push(108);
        out.push(101);
        out.push(58);
        out.push(32);
        out.push(34);
        out.push(100);
        out.push(101);
        out.push(102);
        out.push(97);
        out.push(117);
        out.push(108);
        out.push(116);
        out.push(34);
        out.push(10);
        out.push(116);
        out.push(97);
        out.push(103);
        out.push(115);
        out.push(58);
        out.push(32);
        out.push(91);
        proof {
            assert(out@ =~= meta_prefix());
        }
        let line = join_comma_space(&self.tags);
        append_vec(&mut out, &line);
        out.push(93);
        out.push(10);
        out.push(45);
        out.push(45);
        out.push(45);
        out.push(10);
        out.push(10);
        proof {
            assert(out@ =~= meta_bytes(self.tags_view()));
        }
        out
    }

    /// Renders the entry line `- {content}\n`.
    pub fn entry_line(&self) -> (r: Vec<u8>)
        ensures
            r@ == entry_line_bytes(self.content@),
    {
        let mut out: Vec<u8> = Vec::new();
        out.push(45);
        out.push(32);
        append_vec(&mut out, &self.content);
        out.push(10);
        proof {
            assert(out@ =~= entry_line_bytes(self.content@));
        }
        out
    }

    /// Merges this entry's tags into existing file contents, returning the
    /// full new contents — unchanged when every tag is already recorded.
    /// Fails with `CannotParseMetaData`, and only then, when the header
    /// delimiter or the tags line is missing.
    pub fn update_meta(&self, contents: &Vec<u8>) -> (r: Result<Vec<u8>, Error>)
        ensures
            match r {
                Ok(out) => merge_model(contents@, self.tags_view()) == Some(out@),
                Err(e) => e is CannotParseMetaData && merge_model(
                    contents@,
                    self.tags_view(),
                ) is None,
            },
    {
        merge_tags(contents, &self.tags)
    }

    /// Resolves today's write target: `{home}/.til/notes/{MM-DD-YYYY}` as
    /// the directory and `default.md` inside it. Fails with
    /// `CannotFindDir` when no home directory can be determined, and with
    /// `CannotBuildPath` when the clock reports a year the four-digit
    /// scheme cannot render.
    pub fn build_path(&self) -> (r: Result<NotePath, Error>)
        ensures
            match r {
                Ok(p) => exists|root: Seq<u8>, y: int, m: int, d: int|
                    valid_date(y, m, d) && p.dir@ == #[trigger] note_dir_bytes(root, y, m, d)
                        && p.file@ == note_file_bytes(root, y, m, d),
                Err(e) => match e {
                    Error::CannotFindDir(w) => w@ == seq![114u8, 111u8, 111u8, 116u8],
                    Error::CannotBuildPath => true,
                    _ => false,
                },
            },
    {
        let (y, m, d) = today();
        if y < 0 || y > 9999 {
            return Err(Error::CannotBuildPath);
        }
        let root = match find_root_dir() {
            None => {
                let mut which: Vec<u8> = Vec::new();
                which.push(114);
                which.push(111);
                which.push(111);
                which.push(116);
                proof {
                    assert(which@ =~= seq![114u8, 111u8, 111u8, 116u8]);
                }
                return Err(Error::CannotFindDir(which));
            },
            Some(root) => root,
        };
        let p = resolve(&root, y, m, d);
        proof {
            assert(valid_date(y as int, m as int, d as int) && p.dir@ == note_dir_bytes(
                root@,
                y as int,
                m as int,
                d as int,
            ) && p.file@ == note_file_bytes(root@, y as int, m as int, d as int));
        }
        Ok(p)
    }
}

/// The notes root: `.til/notes` under the user's home directory, when one
/// can be determined.
pub fn find_root_dir() -> (r: Option<Vec<u8>>)
    ensures
        r matches Some(p) ==> exists|home: Seq<u8>| p@ == #[trigger] root_bytes(home),
{
    match home_dir_bytes() {
        None => None,
        Some(h) => {
            let root = root_from_home(&h);
            proof {
                assert(root@ == root_bytes(h@));
            }
            Some(root)
        },
    }
}

} // verus!
