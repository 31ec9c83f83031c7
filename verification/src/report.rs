//! The lines that list the kinds of files of a backup and their extensions.

use crate::infer::extension_type::{display_name, ExtensionType};
use vstd::prelude::*;

verus! {

/// The character of a decimal digit.
pub open spec fn digit_char(d: nat) -> char {
    if d == 0 {
        '0'
    } else if d == 1 {
        '1'
    } else if d == 2 {
        '2'
    } else if d == 3 {
        '3'
    } else if d == 4 {
        '4'
    } else if d == 5 {
        '5'
    } else if d == 6 {
        '6'
    } else if d == 7 {
        '7'
    } else if d == 8 {
        '8'
    } else {
        '9'
    }
}

/// A number written in decimal, without leading zeros.
pub open spec fn decimal(n: nat) -> Seq<char>
    decreases n,
{
    if n < 10 {
        seq![digit_char(n)]
    } else {
        decimal(n / 10).push(digit_char(n % 10))
    }
}

/// The line that heads a kind: its shown name and its number of files.
pub open spec fn kind_line_text(kind: ExtensionType, total: nat) -> Seq<char> {
    display_name(kind) + seq![' ', '('] + decimal(total) + seq![' ', 'f', 'i', 'l', 'e', 's', ')']
}

/// The line of an extension under its kind: the extension and its number of
/// files.
pub open spec fn extension_line_text(extension: Seq<char>, count: nat) -> Seq<char> {
    seq![' ', ' ', '-', ' ', '.'] + extension + seq![' ', '('] + decimal(count) + seq![
        ' ',
        'f',
        'i',
        'l',
        'e',
        's',
        ')',
    ]
}

/// The text of one decimal digit.
fn digit_text(d: u32) -> (res: &'static str)
    requires
        d < 10,
    ensures
        res@ == seq![digit_char(d as nat)],
{
    proof {
        reveal_strlit("0");
        reveal_strlit("1");
        reveal_strlit("2");
        reveal_strlit("3");
        reveal_strlit("4");
        reveal_strlit("5");
        reveal_strlit("6");
        reveal_strlit("7");
        reveal_strlit("8");
        reveal_strlit("9");
    }
    if d == 0 {
        "0"
    } else if d == 1 {
        "1"
    } else if d == 2 {
        "2"
    } else if d == 3 {
        "3"
    } else if d == 4 {
        "4"
    } else if d == 5 {
        "5"
    } else if d == 6 {
        "6"
    } else if d == 7 {
        "7"
    } else if d == 8 {
        "8"
    } else {
        "9"
    }
}

/// Writes `n` in decimal at the end of `out`.
fn append_decimal(out: &mut String, n: u32)
    ensures
        final(out)@ == old(out)@ + decimal(n as nat),
    decreases n,
{
    if n >= 10 {
        append_decimal(out, n / 10);
    }
    out.append(digit_text(n % 10));
    proof {
        assert(out@ =~= old(out)@ + decimal(n as nat));
    }
}

/// The line that heads a kind in the listing of a backup, such as
/// `Image (3 files)`.
pub fn kind_line(kind: &ExtensionType, total: u32) -> (res: String)
    ensures
        res@ == kind_line_text(*kind, total as nat),
{
    let mut line: String = kind.to_string();
    proof {
        reveal_strlit(" (");
        reveal_strlit(" files)");
    }
    line.append(" (");
    append_decimal(&mut line, total);
    line.append(" files)");
    proof {
        assert(line@ =~= kind_line_text(*kind, total as nat));
    }
    line
}

/// The line of an extension under its kind in the listing of a backup, such
/// as `  - .png (2 files)`.
pub fn extension_line(extension: &str, count: u32) -> (res: String)
    ensures
        res@ == extension_line_text(extension@, count as nat),
{
    proof {
        reveal_strlit("  - .");
        reveal_strlit(" (");
        reveal_strlit(" files)");
    }
    let mut line: String = String::new();
    line.append("  - .");
    line.append(extension);
    line.append(" (");
    append_decimal(&mut line, count);
    line.append(" files)");
    proof {
        assert(line@ =~= extension_line_text(extension@, count as nat));
    }
    line
}

/// The number that a text of decimal digits stands for, each digit being its
/// character's code less that of '0'.
pub open spec fn decimal_value(digits: Seq<char>) -> int
    decreases digits.len(),
{
    if digits.len() == 0 {
        0
    } else {
        decimal_value(digits.drop_last()) * 10 + (digits.last() as int - '0' as int)
    }
}

/// The decimal text of a number is made of the digits '0' to '9', starts with
/// a digit other than '0' unless it is "0", and reads back as the number.
pub proof fn lemma_decimal_reads_back(n: nat)
    ensures
        decimal_value(decimal(n)) == n,
        decimal(n).len() > 0,
        forall|k: int| 0 <= k < decimal(n).len() ==> '0' <= #[trigger] decimal(n)[k] <= '9',
        n >= 10 ==> decimal(n)[0] != '0',
    decreases n,
{
    let d: nat = n % 10;
    assert(digit_char(d) as int - '0' as int == d);
    assert(decimal_value(decimal(n)) == decimal_value(decimal(n).drop_last()) * 10 + (decimal(n).last() as int
        - '0' as int));
    if n < 10 {
        assert(decimal(n).drop_last() =~= Seq::<char>::empty());
        assert(decimal_value(Seq::<char>::empty()) == 0);
        assert(d == n);
        assert(decimal(n).last() == digit_char(d));
    } else {
        lemma_decimal_reads_back(n / 10);
        let rest: Seq<char> = decimal(n / 10);
        assert(decimal(n).drop_last() =~= rest);
        assert(decimal(n).last() == digit_char(d));
        assert(n == (n / 10) * 10 + d);
        assert(decimal(n)[0] == rest[0]);
        assert forall|k: int| 0 <= k < decimal(n).len() implies '0' <= #[trigger] decimal(n)[k] <= '9' by {
            if k < rest.len() {
                assert(decimal(n)[k] == rest[k]);
            }
        }
    }
}

} // verus!
