//! Resolving the date-partitioned note path: `{root}/{MM-DD-YYYY}/default.md`
//! with zero-padded month and day and a four-digit year.

use vstd::prelude::*;

use crate::text::{append_vec, copy_vec};

verus! {

/// Two decimal digits, zero padded.
pub open spec fn two_digits(n: int) -> Seq<u8> {
    seq![(48 + n / 10) as u8, (48 + n % 10) as u8]
}

/// Four decimal digits, zero padded.
pub open spec fn four_digits(n: int) -> Seq<u8> {
    seq![
        (48 + n / 1000) as u8,
        (48 + (n / 100) % 10) as u8,
        (48 + (n / 10) % 10) as u8,
        (48 + n % 10) as u8,
    ]
}

/// A date the path scheme can render: a four-digit year and plausible
/// month and day numbers.
pub open spec fn valid_date(y: int, m: int, d: int) -> bool {
    0 <= y <= 9999 && 1 <= m <= 12 && 1 <= d <= 31
}

/// The date directory name `MM-DD-YYYY`.
pub open spec fn date_bytes(y: int, m: int, d: int) -> Seq<u8> {
    two_digits(m) + seq![45u8] + two_digits(d) + seq![45u8] + four_digits(y)
}

/// The bytes of the file name `default.md`.
pub open spec fn default_file_name() -> Seq<u8> {
    seq![100u8, 101u8, 102u8, 97u8, 117u8, 108u8, 116u8, 46u8, 109u8, 100u8]
}

/// The bytes of `.til/notes`, the notes root relative to the home
/// directory.
pub open spec fn rel_root() -> Seq<u8> {
    seq![46u8, 116u8, 105u8, 108u8, 47u8, 110u8, 111u8, 116u8, 101u8, 115u8]
}

/// The notes root under a given home directory: `{home}/.til/notes`.
pub open spec fn root_bytes(home: Seq<u8>) -> Seq<u8> {
    home + seq![47u8] + rel_root()
}

/// The date directory `{root}/{MM-DD-YYYY}`.
pub open spec fn note_dir_bytes(root: Seq<u8>, y: int, m: int, d: int) -> Seq<u8> {
    root + seq![47u8] + date_bytes(y, m, d)
}

/// The note file `{root}/{MM-DD-YYYY}/default.md`.
pub open spec fn note_file_bytes(root: Seq<u8>, y: int, m: int, d: int) -> Seq<u8> {
    note_dir_bytes(root, y, m, d) + seq![47u8] + default_file_name()
}

/// A resolved write target.
pub struct NotePath {
    /// The date directory, which must exist before the file is opened.
    pub dir: Vec<u8>,
    /// The note file `default.md` inside `dir`.
    pub file: Vec<u8>,
}

/// Appends the two zero-padded digits of `n`.
fn push_two_digits(out: &mut Vec<u8>, n: u32)
    requires
        n < 100,
    ensures
        final(out)@ == old(out)@ + two_digits(n as int),
{
    let tens = n / 10;
    let ones = n % 10;
    proof {
        assert(tens < 10) by (nonlinear_arith)
            requires
                n < 100,
                tens == n / 10,
        ;
    }
    out.push(48 + tens as u8);
    out.push(48 + ones as u8);
    proof {
        assert(out@ =~= old(out)@ + two_digits(n as int));
    }
}

/// Appends the four zero-padded digits of `n`.
fn push_four_digits(out: &mut Vec<u8>, n: u32)
    requires
        n < 10000,
    ensures
        final(out)@ == old(out)@ + four_digits(n as int),
{
    let d1 = n / 1000;
    let d2 = (n / 100) % 10;
    let d3 = (n / 10) % 10;
    let d4 = n % 10;
    proof {
        assert(d1 < 10) by (nonlinear_arith)
            requires
                n < 10000,
                d1 == n / 1000,
        ;
    }
    out.push(48 + d1 as u8);
    out.push(48 + d2 as u8);
    out.push(48 + d3 as u8);
    out.push(48 + d4 as u8);
    proof {
        assert(out@ =~= old(out)@ + four_digits(n as int));
    }
}

/// Renders the date as `MM-DD-YYYY`.
pub fn format_date(y: i32, m: u32, d: u32) -> (r: Vec<u8>)
    requires
        valid_date(y as int, m as int, d as int),
    ensures
        r@ == date_bytes(y as int, m as int, d as int),
{
    let mut out: Vec<u8> = Vec::new();
    push_two_digits(&mut out, m);
    out.push(45);
    push_two_digits(&mut out, d);
    out.push(45);
    push_four_digits(&mut out, y as u32);
    proof {
        assert(out@ =~= date_bytes(y as int, m as int, d as int));
    }
    out
}

/// Resolves the write target for a root and a date. The result is a pure
/// function of the two: the same root and calendar date always name the
/// same directory and file.
pub fn resolve(root: &Vec<u8>, y: i32, m: u32, d: u32) -> (r: NotePath)
    requires
        valid_date(y as int, m as int, d as int),
    ensures
        r.dir@ == note_dir_bytes(root@, y as int, m as int, d as int),
        r.file@ == note_file_bytes(root@, y as int, m as int, d as int),
{
    let date = format_date(y, m, d);
    let mut dir = copy_vec(root);
    dir.push(47);
    append_vec(&mut dir, &date);
    proof {
        assert(dir@ =~= note_dir_bytes(root@, y as int, m as int, d as int));
    }
    let mut file = copy_vec(&dir);
    file.push(47);
    file.push(100);
    file.push(101);
    file.push(102);
    file.push(97);
    file.push(117);
    file.push(108);
    file.push(116);
    file.push(46);
    file.push(109);
    file.push(100);
    proof {
        assert(file@ =~= note_file_bytes(root@, y as int, m as int, d as int));
    }
    NotePath { dir, file }
}

/// The notes root under a home directory: `{home}/.til/notes`.
pub fn root_from_home(home: &Vec<u8>) -> (r: Vec<u8>)
    ensures
        r@ == home@ + seq![47u8] + rel_root(),
{
    let mut r = copy_vec(home);
    r.push(47);
    r.push(46);
    r.push(116);
    r.push(105);
    r.push(108);
    r.push(47);
    r.push(110);
    r.push(111);
    r.push(116);
    r.push(101);
    r.push(115);
    proof {
        assert(r@ =~= home@ + seq![47u8] + rel_root());
    }
    r
}

/// **Same-day path stability**: the note path is a function of the root
/// and the calendar date alone, so any two resolutions that agree on both
/// name the same file.
pub proof fn lemma_same_day_path_stable(a: Seq<u8>, b: Seq<u8>, root: Seq<u8>, y: int, m: int, d: int)
    requires
        a == note_file_bytes(root, y, m, d),
        b == note_file_bytes(root, y, m, d),
    ensures
        a == b,
{
}

} // verus!
