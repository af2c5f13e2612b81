//! Text out and text in: how a grid is drawn for a terminal, and how a typed
//! line is read as a command.

use crate::game::Command;
use crate::grid::{Cell, Coord, Grid, HEIGHT, WIDTH};
use vstd::prelude::*;
use vstd::string::*;

verus! {

/// What a cell looks like: two columns wide, coloured by ANSI escapes.
pub open spec fn glyph(cell: Cell) -> Seq<char> {
    match cell {
        Cell::Empty => "  "@,
        Cell::Obstacle => "\x1B[31m\u{2588}\u{2588}\x1B[0m"@,
        Cell::Player => "\x1B[32m\u{26c4}\x1B[0m"@,
        Cell::Target => "\x1B[33m\u{2b50}\x1B[0m"@,
        Cell::Path => "\x1B[34m\u{b7}\u{b7}\x1B[0m"@,
    }
}

/// `n` dashes.
pub open spec fn dashes(n: nat) -> Seq<char>
    decreases n,
{
    if n == 0 {
        Seq::empty()
    } else {
        dashes((n - 1) as nat) + "-"@
    }
}

/// The line above and below the cells: two dashes per column between two
/// corners.
pub open spec fn border() -> Seq<char> {
    "+"@ + dashes((2 * WIDTH) as nat) + "+\n"@
}

/// The left edge and the first `upto` cells of row `row`.
pub open spec fn row_start(cells: Map<Coord, Cell>, row: usize, upto: nat) -> Seq<char>
    decreases upto,
{
    if upto == 0 {
        "|"@
    } else {
        row_start(cells, row, (upto - 1) as nat) + glyph(cells[(row, (upto - 1) as usize)])
    }
}

/// Row `row` as a line of text.
pub open spec fn row_line(cells: Map<Coord, Cell>, row: usize) -> Seq<char> {
    row_start(cells, row, WIDTH as nat) + "|\n"@
}

/// The first `upto` rows as lines of text.
pub open spec fn rows_text(cells: Map<Coord, Cell>, upto: nat) -> Seq<char>
    decreases upto,
{
    if upto == 0 {
        Seq::empty()
    } else {
        rows_text(cells, (upto - 1) as nat) + row_line(cells, (upto - 1) as usize)
    }
}

/// The whole screen: the escapes that clear the terminal and move to its top
/// left corner, then the framed rows.
pub open spec fn screen(cells: Map<Coord, Cell>) -> Seq<char> {
    "\x1B[2J\x1B[1;1H"@ + border() + rows_text(cells, HEIGHT as nat) + border()
}

fn border_text() -> (text: String)
    ensures
        text@ == border(),
{
    let mut text = String::new();
    text.append("+");
    let mut drawn: usize = 0;
    while drawn < 2 * WIDTH
        invariant
            drawn <= 2 * WIDTH,
            text@ == "+"@ + dashes(drawn as nat),
        decreases 2 * WIDTH - drawn,
    {
        text.append("-");
        drawn += 1;
        assert(text@ =~= "+"@ + dashes(drawn as nat));
    }
    text.append("+\n");
    text
}

fn row_text(grid: &Grid, row: usize) -> (text: String)
    requires
        row < HEIGHT,
    ensures
        text@ == row_line(grid@, row),
{
    let mut text = String::new();
    text.append("|");
    let mut col: usize = 0;
    while col < WIDTH
        invariant
            row < HEIGHT,
            col <= WIDTH,
            text@ == row_start(grid@, row, col as nat),
        decreases WIDTH - col,
    {
        match grid.cells[row][col] {
            Cell::Empty => text.append("  "),
            Cell::Obstacle => text.append("\x1B[31m\u{2588}\u{2588}\x1B[0m"),
            Cell::Player => text.append("\x1B[32m\u{26c4}\x1B[0m"),
            Cell::Target => text.append("\x1B[33m\u{2b50}\x1B[0m"),
            Cell::Path => text.append("\x1B[34m\u{b7}\u{b7}\x1B[0m"),
        }
        col += 1;
    }
    text.append("|\n");
    text
}

/// Draws `grid` as text for a terminal: the terminal is cleared, then the
/// rows follow inside a frame, every cell by its glyph.
pub fn render(grid: &Grid) -> (text: String)
    ensures
        text@ == screen(grid@),
{
    let mut text = String::new();
    text.append("\x1B[2J\x1B[1;1H");
    let edge = border_text();
    text.append(edge.as_str());
    let ghost head = text@;
    let mut row: usize = 0;
    while row < HEIGHT
        invariant
            row <= HEIGHT,
            text@ == head + rows_text(grid@, row as nat),
        decreases HEIGHT - row,
    {
        let line = row_text(grid, row);
        text.append(line.as_str());
        row += 1;
        assert(text@ =~= head + rows_text(grid@, row as nat));
    }
    text.append(edge.as_str());
    text
}

/// White space as Unicode defines it.
pub open spec fn is_space(c: char) -> bool {
    ||| c == ' '
    ||| '\t' <= c <= '\r'
    ||| c == '\u{85}'
    ||| c == '\u{a0}'
    ||| c == '\u{1680}'
    ||| '\u{2000}' <= c <= '\u{200a}'
    ||| c == '\u{2028}'
    ||| c == '\u{2029}'
    ||| c == '\u{202f}'
    ||| c == '\u{205f}'
    ||| c == '\u{3000}'
}

/// A decimal digit.
pub open spec fn is_digit(c: char) -> bool {
    '0' <= c <= '9'
}

/// Where the run of characters that starts at `i` ends: a run of white
/// space if `spaces` is set, a run of anything else if not.
pub open spec fn run_end(s: Seq<char>, i: int, spaces: bool) -> int
    decreases s.len() - i,
{
    if 0 <= i < s.len() && is_space(s[i]) == spaces {
        run_end(s, i + 1, spaces)
    } else {
        i
    }
}

/// The number that a row of digits writes.
pub open spec fn digits_value(t: Seq<char>) -> nat
    decreases t.len(),
{
    if t.len() == 0 {
        0
    } else {
        digits_value(t.drop_last()) * 10 + (t.last() as nat - '0' as nat) as nat
    }
}

/// A word without its plus sign, if it starts with one.
pub open spec fn unsigned(word: Seq<char>) -> Seq<char> {
    if word.len() > 0 && word[0] == '+' {
        word.drop_first()
    } else {
        word
    }
}

/// Nothing but decimal digits.
pub open spec fn all_digits(t: Seq<char>) -> bool {
    forall|i: int| 0 <= i < t.len() ==> is_digit(#[trigger] t[i])
}

/// The index that a word writes: decimal digits, at least one, after an
/// optional plus sign, with a value that an index can hold.
pub open spec fn number(word: Seq<char>) -> Option<usize> {
    let digits = unsigned(word);
    if digits.len() > 0 && all_digits(digits) && digits_value(digits) <= usize::MAX {
        Some(digits_value(digits) as usize)
    } else {
        None
    }
}

/// What a typed line asks for. The line is taken apart into words at white
/// space. A single word `q` or `Q` asks to stop; exactly two words that are
/// both numbers name a target by row and column; anything else is malformed.
pub open spec fn parsed(s: Seq<char>) -> Command {
    let a0 = run_end(s, 0, true);
    let b0 = run_end(s, a0, false);
    let a1 = run_end(s, b0, true);
    let b1 = run_end(s, a1, false);
    let end = run_end(s, b1, true);
    let first = s.subrange(a0, b0);
    let second = s.subrange(a1, b1);
    if a1 >= s.len() {
        if first.len() == 1 && (first[0] == 'q' || first[0] == 'Q') {
            Command::Quit
        } else {
            Command::Malformed
        }
    } else if end >= s.len() {
        match (number(first), number(second)) {
            (Some(row), Some(col)) => Command::Target(row, col),
            _ => Command::Malformed,
        }
    } else {
        Command::Malformed
    }
}

/// Whether `c` is white space.
pub fn is_whitespace(c: char) -> (space: bool)
    ensures
        space == is_space(c),
{
    c == ' ' || ('\t' <= c && c <= '\r') || c == '\u{85}' || c == '\u{a0}' || c == '\u{1680}' || (
    '\u{2000}' <= c && c <= '\u{200a}') || c == '\u{2028}' || c == '\u{2029}' || c == '\u{202f}'
        || c == '\u{205f}' || c == '\u{3000}'
}

fn chars_of(line: &str) -> (chars: Vec<char>)
    ensures
        chars@ == line@,
{
    let count: usize = line.unicode_len();
    let mut chars: Vec<char> = Vec::new();
    let mut at: usize = 0;
    while at < count
        invariant
            count == line@.len(),
            at <= count,
            chars@ == line@.take(at as int),
        decreases count - at,
    {
        chars.push(line.get_char(at));
        assert(line@.take(at + 1) =~= line@.take(at as int).push(line@[at as int]));
        at += 1;
    }
    assert(line@.take(line@.len() as int) =~= line@);
    chars
}

fn skip_run(chars: &Vec<char>, from: usize, spaces: bool) -> (to: usize)
    requires
        from <= chars.len(),
    ensures
        from <= to <= chars.len(),
        to == run_end(chars@, from as int, spaces),
{
    let mut to: usize = from;
    while to < chars.len() && is_whitespace(chars[to]) == spaces
        invariant
            from <= to <= chars.len(),
            run_end(chars@, from as int, spaces) == run_end(chars@, to as int, spaces),
        decreases chars.len() - to,
    {
        to += 1;
    }
    to
}

/// A longer row of digits writes no smaller a number.
proof fn lemma_digits_grow(t: Seq<char>, k: int)
    requires
        0 <= k <= t.len(),
    ensures
        digits_value(t.take(k)) <= digits_value(t),
    decreases t.len(),
{
    if k < t.len() {
        lemma_digits_grow(t.drop_last(), k);
        assert(t.drop_last().take(k) =~= t.take(k));
    } else {
        assert(t.take(k) =~= t);
    }
}

fn read_number(chars: &Vec<char>, from: usize, to: usize) -> (value: Option<usize>)
    requires
        from <= to <= chars.len(),
    ensures
        value == number(chars@.subrange(from as int, to as int)),
{
    let ghost word = chars@.subrange(from as int, to as int);
    let start: usize = if from < to && chars[from] == '+' {
        from + 1
    } else {
        from
    };
    let ghost digits = chars@.subrange(start as int, to as int);
    assert(digits =~= unsigned(word));
    if start == to {
        return None;
    }
    let mut value: usize = 0;
    let mut at: usize = start;
    while at < to
        invariant
            from <= start <= at <= to <= chars.len(),
            start < to,
            word == chars@.subrange(from as int, to as int),
            digits == chars@.subrange(start as int, to as int),
            digits == unsigned(word),
            value == digits_value(digits.take(at - start)),
            forall|i: int| 0 <= i < at - start ==> is_digit(#[trigger] digits[i]),
        decreases to - at,
    {
        let c: char = chars[at];
        assert(c == digits[at - start]);
        if !('0' <= c && c <= '9') {
            assert(!is_digit(digits[at - start]));
            return None;
        }
        let digit: usize = (c as u32 - '0' as u32) as usize;
        proof {
            let longer = digits.take(at - start + 1);
            assert(longer.drop_last() =~= digits.take(at - start));
            assert(longer.last() == c);
            assert(digits_value(longer) == value * 10 + digit);
            lemma_digits_grow(digits, at - start + 1);
        }
        let tens: usize = match value.checked_mul(10) {
            Some(tens) => tens,
            None => {
                return None;
            },
        };
        value = match tens.checked_add(digit) {
            Some(sum) => sum,
            None => {
                return None;
            },
        };
        at += 1;
    }
    assert(digits.take(digits.len() as int) =~= digits);
    Some(value)
}

/// Reads a typed line as a command.
pub fn parse_command(line: &str) -> (command: Command)
    ensures
        command == parsed(line@),
{
    let chars = chars_of(line);
    let a0: usize = skip_run(&chars, 0, true);
    let b0: usize = skip_run(&chars, a0, false);
    let a1: usize = skip_run(&chars, b0, true);
    let b1: usize = skip_run(&chars, a1, false);
    let end: usize = skip_run(&chars, b1, true);
    if a1 >= chars.len() {
        if b0 - a0 == 1 && (chars[a0] == 'q' || chars[a0] == 'Q') {
            Command::Quit
        } else {
            Command::Malformed
        }
    } else if end >= chars.len() {
        let row: Option<usize> = read_number(&chars, a0, b0);
        let col: Option<usize> = read_number(&chars, a1, b1);
        match (row, col) {
            (Some(row), Some(col)) => Command::Target(row, col),
            _ => Command::Malformed,
        }
    } else {
        Command::Malformed
    }
}

/// Reads what came from the input, a typed line or its end, as a command:
/// the end of the input asks to stop.
pub fn read_command(input: Option<&str>) -> (command: Command)
    ensures
        command == match input {
            Some(line) => parsed(line@),
            None => Command::Quit,
        },
{
    match input {
        Some(line) => parse_command(line),
        None => Command::Quit,
    }
}

} // verus!
