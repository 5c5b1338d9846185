//! Rendering report rows as lines of text, the words right-aligned to the
//! longest of them.

use crate::report::{lines, Line, Row};
use vstd::prelude::*;
use vstd::string::{StrSliceExecFns, StringExecFns};

verus! {

/// The character of the decimal digit `d`.
pub open spec fn digit_char(d: nat) -> char {
    seq!['0', '1', '2', '3', '4', '5', '6', '7', '8', '9'][d as int]
}

/// `n` written in decimal, without leading zeros.
pub open spec fn decimal(n: nat) -> Seq<char>
    decreases n,
{
    if n < 10 {
        seq![digit_char(n)]
    } else {
        decimal(n / 10).push(digit_char(n % 10))
    }
}

/// `n` spaces.
pub open spec fn spaces(n: nat) -> Seq<char> {
    Seq::new(n, |i: int| ' ')
}

/// The length of the longest word shown in `ls`; 0 where there is none.
pub open spec fn max_width(ls: Seq<Line>) -> nat
    decreases ls.len(),
{
    if ls.len() == 0 {
        0
    } else {
        let before = max_width(ls.drop_last());
        if ls.last().word.len() > before {
            ls.last().word.len()
        } else {
            before
        }
    }
}

/// The line for `l`: the word, with spaces before it where it is shorter
/// than `width`, then a colon, a space and the count.
pub open spec fn rendered(l: Line, width: nat) -> Seq<char> {
    spaces((if width > l.word.len() { width - l.word.len() } else { 0 }) as nat) + l.word
        + seq![':', ' '] + decimal(l.count)
}

/// No word shown in `ls` is longer than `max_width(ls)`, and where `ls` is
/// not empty one of them is that long.
pub proof fn lemma_max_width(ls: Seq<Line>)
    ensures
        forall|i: int| 0 <= i < ls.len() ==> (#[trigger] ls[i]).word.len() <= max_width(ls),
        ls.len() > 0 ==> exists|i: int| 0 <= i < ls.len() && (#[trigger] ls[i]).word.len() == max_width(ls),
    decreases ls.len(),
{
    if ls.len() > 0 {
        let front = ls.drop_last();
        lemma_max_width(front);
        assert forall|i: int| 0 <= i < ls.len() implies (#[trigger] ls[i]).word.len() <= max_width(
            ls,
        ) by {
            if i < front.len() {
                assert(front[i] == ls[i]);
            }
        }
        if ls.last().word.len() > max_width(front) || front.len() == 0 {
            assert(ls[ls.len() - 1].word.len() == max_width(ls));
        } else {
            let i = choose|i: int| 0 <= i < front.len() && (#[trigger] front[i]).word.len() == max_width(front);
            assert(ls[i] == front[i]);
        }
    }
}

/// The length of the longest word shown in `rows`.
pub fn max_word_width(rows: &Vec<Row>) -> (w: usize)
    ensures
        w == max_width(lines(rows@)),
{
    let mut w: usize = 0;
    let mut i: usize = 0;
    while i < rows.len()
        invariant
            i <= rows@.len(),
            w == max_width(lines(rows@).take(i as int)),
        decreases rows@.len() - i,
    {
        let n: usize = rows[i].word.as_str().unicode_len();
        proof {
            let next = lines(rows@).take(i + 1);
            assert(next.drop_last() =~= lines(rows@).take(i as int));
            assert(next.last() == rows@[i as int]@);
        }
        if n > w {
            w = n;
        }
        i += 1;
    }
    assert(lines(rows@).take(i as int) =~= lines(rows@));
    w
}

/// The one-character string of the decimal digit `d`.
fn digit_str(d: usize) -> (s: &'static str)
    requires
        d < 10,
    ensures
        s@ == seq![digit_char(d as nat)],
{
    proof {
        reveal_strlit("0");
        reveal_strlit("1");
        reveal_strlit("2");
        reveal_strlit("3");
        reveal_strlit("4");
        reveal_strlit("5");
        reveal_strlit("6");
        reveal_strlit("7");
        reveal_strlit("8");
        reveal_strlit("9");
    }
    let s: &'static str = match d {
        0 => "0",
        1 => "1",
        2 => "2",
        3 => "3",
        4 => "4",
        5 => "5",
        6 => "6",
        7 => "7",
        8 => "8",
        _ => "9",
    };
    assert(s@ =~= seq![digit_char(d as nat)]);
    s
}

/// Appends `n` in decimal to `line`.
pub fn push_decimal(line: &mut String, n: usize)
    ensures
        final(line)@ == old(line)@ + decimal(n as nat),
    decreases n,
{
    if n >= 10 {
        push_decimal(line, n / 10);
    }
    line.append(digit_str(n % 10));
    assert(final(line)@ =~= old(line)@ + decimal(n as nat));
}

/// The line for `row` in a report whose longest word has `width`
/// characters.
pub fn render_row(row: &Row, width: usize) -> (line: String)
    ensures
        line@ == rendered(row@, width as nat),
{
    let mut line: String = String::new();
    let n: usize = row.word.as_str().unicode_len();
    let pad: usize = if width > n {
        width - n
    } else {
        0
    };
    let mut i: usize = 0;
    while i < pad
        invariant
            i <= pad,
            line@ == spaces(i as nat),
        decreases pad - i,
    {
        proof {
            reveal_strlit(" ");
        }
        line.append(" ");
        i += 1;
        assert(line@ =~= spaces(i as nat));
    }
    line.append(row.word.as_str());
    proof {
        reveal_strlit(": ");
    }
    line.append(": ");
    assert(line@ =~= spaces(pad as nat) + row.word@ + seq![':', ' ']);
    push_decimal(&mut line, row.count);
    line
}

/// The lines of a report: one for each row, in order, the words right-aligned
/// to the longest word among them.
pub fn render(rows: &Vec<Row>) -> (out: Vec<String>)
    ensures
        out@.len() == rows@.len(),
        forall|i: int|
            0 <= i < rows@.len() ==> (#[trigger] out@[i])@ == rendered(
                rows@[i]@,
                max_width(lines(rows@)),
            ),
{
    let width: usize = max_word_width(rows);
    let mut out: Vec<String> = Vec::new();
    let mut i: usize = 0;
    while i < rows.len()
        invariant
            i <= rows@.len(),
            out@.len() == i,
            width == max_width(lines(rows@)),
            forall|k: int|
                0 <= k < i ==> (#[trigger] out@[k])@ == rendered(
                    rows@[k]@,
                    max_width(lines(rows@)),
                ),
        decreases rows@.len() - i,
    {
        let line: String = render_row(&rows[i], width);
        out.push(line);
        i += 1;
    }
    out
}

} // verus!
