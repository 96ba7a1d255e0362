//! The text that reports a duplicate group.

use crate::types::{views_of, FileInfo, FileInfoView};
use vstd::prelude::*;
use vstd::string::StringExecFns;

verus! {

/// The character of a decimal digit.
pub open spec fn digit(d: int) -> char {
    if d == 0 {
        '0'
    } else if d == 1 {
        '1'
    } else if d == 2 {
        '2'
    } else if d == 3 {
        '3'
    } else if d == 4 {
        '4'
    } else if d == 5 {
        '5'
    } else if d == 6 {
        '6'
    } else if d == 7 {
        '7'
    } else if d == 8 {
        '8'
    } else {
        '9'
    }
}

/// The decimal numeral of `n`, without leading zeros.
pub open spec fn decimal(n: nat) -> Seq<char>
    decreases n,
{
    if n < 10 {
        seq![digit(n as int)]
    } else {
        decimal(n / 10).push(digit((n % 10) as int))
    }
}

/// The lines of the members of a group: every path on a line of its own,
/// marked as a member, the last one marked as the last and followed by an
/// empty line.
pub open spec fn member_lines(paths: Seq<Seq<char>>) -> Seq<char>
    decreases paths.len(),
{
    if paths.len() == 0 {
        Seq::empty()
    } else if paths.len() == 1 {
        "\u{2514} "@ + paths[0] + "\n\n"@
    } else {
        "\u{251C} "@ + paths[0] + "\n"@ + member_lines(paths.skip(1))
    }
}

/// The block of text that reports one duplicate group: a line with the
/// size of its files, then the lines of its members.
pub open spec fn group_block(size: u64, paths: Seq<Seq<char>>) -> Seq<char> {
    "\u{250C} "@ + decimal(size as nat) + " bytes\n"@ + member_lines(paths)
}

/// The paths of a sequence of files.
pub open spec fn paths_of(files: Seq<FileInfoView>) -> Seq<Seq<char>> {
    files.map_values(|f: FileInfoView| f.path)
}

/// The text of one decimal digit.
fn digit_text(d: u64) -> (text: &'static str)
    requires
        d < 10,
    ensures
        text@ == seq![digit(d as int)],
{
    proof {
        reveal_strlit("0");
        reveal_strlit("1");
        reveal_strlit("2");
        reveal_strlit("3");
        reveal_strlit("4");
        reveal_strlit("5");
        reveal_strlit("6");
        reveal_strlit("7");
        reveal_strlit("8");
        reveal_strlit("9");
    }
    let text = if d == 0 {
        "0"
    } else if d == 1 {
        "1"
    } else if d == 2 {
        "2"
    } else if d == 3 {
        "3"
    } else if d == 4 {
        "4"
    } else if d == 5 {
        "5"
    } else if d == 6 {
        "6"
    } else if d == 7 {
        "7"
    } else if d == 8 {
        "8"
    } else {
        "9"
    };
    assert(text@ =~= seq![digit(d as int)]);
    text
}

/// Writes a number in decimal.
pub fn to_decimal(n: u64) -> (text: String)
    ensures
        text@ == decimal(n as nat),
    decreases n,
{
    if n < 10 {
        String::from_str(digit_text(n))
    } else {
        let mut text = to_decimal(n / 10);
        text.append(digit_text(n % 10));
        assert(text@ =~= decimal((n / 10) as nat).push(digit((n % 10) as int)));
        text
    }
}

/// Writes the block of text that reports one duplicate group.
pub fn render_group(size: u64, group: &Vec<FileInfo>) -> (text: String)
    ensures
        text@ == group_block(size, paths_of(views_of(group@))),
{
    let ghost paths = paths_of(views_of(group@));
    let mut text = String::from_str("\u{250C} ");
    text.append(to_decimal(size).as_str());
    text.append(" bytes\n");
    let ghost head = text@;
    let n = group.len();
    let mut i: usize = 0;
    assert(paths.skip(0) =~= paths);
    while i < n
        invariant
            n == group@.len(),
            i <= n,
            paths == paths_of(views_of(group@)),
            head == "\u{250C} "@ + decimal(size as nat) + " bytes\n"@,
            text@ + member_lines(paths.skip(i as int)) == head + member_lines(paths),
        decreases n - i,
    {
        let ghost before = text@;
        let ghost rest = paths.skip(i as int);
        proof {
            assert(rest[0] == group@[i as int].path@);
            assert(rest.skip(1) =~= paths.skip(i + 1));
        }
        if i + 1 < n {
            text.append("\u{251C} ");
            text.append(group[i].display());
            text.append("\n");
            assert(text@ + member_lines(rest.skip(1)) =~= before + member_lines(rest));
        } else {
            text.append("\u{2514} ");
            text.append(group[i].display());
            text.append("\n\n");
            assert(text@ =~= before + member_lines(rest));
            assert(member_lines(paths.skip(i + 1)) =~= Seq::<char>::empty());
        }
        i += 1;
    }
    assert(member_lines(paths.skip(n as int)) =~= Seq::<char>::empty());
    assert(text@ =~= text@ + Seq::<char>::empty());
    text
}

} // verus!
