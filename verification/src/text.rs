//! Comma-separated lines.
//!
//! A line is its cells joined by commas and closed by a newline. The cells are
//! written here for counts and column names; a floating-point cell arrives as
//! the text that the caller formatted.

use vstd::arithmetic::power::{lemma_pow0, pow};
use vstd::prelude::*;
use vstd::string::StringExecFns;

verus! {

/// The character of a decimal digit.
pub open spec fn digit(value: nat) -> char {
    if value == 0 {
        '0'
    } else if value == 1 {
        '1'
    } else if value == 2 {
        '2'
    } else if value == 3 {
        '3'
    } else if value == 4 {
        '4'
    } else if value == 5 {
        '5'
    } else if value == 6 {
        '6'
    } else if value == 7 {
        '7'
    } else if value == 8 {
        '8'
    } else {
        '9'
    }
}

/// A number in decimal, without leading zeros.
pub open spec fn decimal(value: nat) -> Seq<char>
    decreases value,
{
    if value < 10 {
        seq![digit(value)]
    } else {
        decimal(value / 10).push(digit(value % 10))
    }
}

/// The cells with a comma before each of them.
pub open spec fn comma_led(cells: Seq<Seq<char>>) -> Seq<char>
    decreases cells.len(),
{
    if cells.len() == 0 {
        Seq::empty()
    } else {
        comma_led(cells.drop_last()).push(',') + cells.last()
    }
}

/// One line: the first cell, the others with a comma before each, and a
/// newline.
pub open spec fn line(first: Seq<char>, rest: Seq<Seq<char>>) -> Seq<char> {
    (first + comma_led(rest)).push('\n')
}

/// `prefix` numbered from `from`, `count` times over.
pub open spec fn numbered(prefix: Seq<char>, from: nat, count: nat) -> Seq<Seq<char>> {
    Seq::new(count, |i: int| prefix + decimal((from + i) as nat))
}

/// Appends a digit.
fn push_digit(sink: &mut String, value: usize)
    requires
        value < 10,
    ensures
        final(sink)@ == old(sink)@.push(digit(value as nat)),
{
    proof {
        reveal_strlit("0");
        reveal_strlit("1");
        reveal_strlit("2");
        reveal_strlit("3");
        reveal_strlit("4");
        reveal_strlit("5");
        reveal_strlit("6");
        reveal_strlit("7");
        reveal_strlit("8");
        reveal_strlit("9");
    }
    let text: &str = match value {
        0 => "0",
        1 => "1",
        2 => "2",
        3 => "3",
        4 => "4",
        5 => "5",
        6 => "6",
        7 => "7",
        8 => "8",
        _ => "9",
    };
    assert(text@ =~= seq![digit(value as nat)]);
    sink.append(text);
    assert(sink@ =~= old(sink)@.push(digit(value as nat)));
}

/// Appends a number in decimal.
pub fn push_decimal(sink: &mut String, value: usize)
    ensures
        final(sink)@ == old(sink)@ + decimal(value as nat),
    decreases value,
{
    if value >= 10 {
        push_decimal(sink, value / 10);
    }
    push_digit(sink, value % 10);
    assert(sink@ =~= old(sink)@ + decimal(value as nat));
}

/// Appends a comma.
fn push_comma(sink: &mut String)
    ensures
        final(sink)@ == old(sink)@.push(','),
{
    proof {
        reveal_strlit(",");
    }
    sink.append(",");
    assert(sink@ =~= old(sink)@.push(','));
}

/// Appends a newline.
pub fn push_newline(sink: &mut String)
    ensures
        final(sink)@ == old(sink)@.push('\n'),
{
    proof {
        reveal_strlit("\n");
    }
    sink.append("\n");
    assert(sink@ =~= old(sink)@.push('\n'));
}

proof fn lemma_comma_led_push(cells: Seq<Seq<char>>, cell: Seq<char>)
    ensures
        comma_led(cells.push(cell)) == comma_led(cells).push(',') + cell,
{
    assert(cells.push(cell).drop_last() =~= cells);
}

/// Appending cells one list after the other is appending the joined list.
pub proof fn comma_led_splits(left: Seq<Seq<char>>, right: Seq<Seq<char>>)
    ensures
        comma_led(left + right) == comma_led(left) + comma_led(right),
    decreases right.len(),
{
    if right.len() == 0 {
        assert(left + right =~= left);
        assert(comma_led(left) + comma_led(right) =~= comma_led(left));
    } else {
        comma_led_splits(left, right.drop_last());
        assert((left + right).drop_last() =~= left + right.drop_last());
        assert((left + right).last() == right.last());
        assert(comma_led(left + right) =~= comma_led(left) + comma_led(right));
    }
}

/// Appends a comma and a cell.
pub fn push_cell(sink: &mut String, cell: &str)
    ensures
        final(sink)@ == old(sink)@.push(',') + cell@,
{
    push_comma(sink);
    sink.append(cell);
}

/// The texts of a list of strings.
pub open spec fn texts(cells: Seq<String>) -> Seq<Seq<char>> {
    Seq::new(cells.len(), |i: int| cells[i]@)
}

/// Appends every cell with a comma before it.
pub fn push_cells(sink: &mut String, cells: &[String])
    ensures
        final(sink)@ == old(sink)@ + comma_led(texts(cells@)),
{
    let mut i: usize = 0;
    assert(sink@ =~= old(sink)@ + comma_led(texts(cells@).take(0)));
    while i < cells.len()
        invariant
            i <= cells@.len(),
            sink@ == old(sink)@ + comma_led(texts(cells@).take(i as int)),
        decreases cells@.len() - i,
    {
        push_cell(sink, cells[i].as_str());
        proof {
            let seen = texts(cells@).take(i as int);
            lemma_comma_led_push(seen, cells@[i as int]@);
            assert(texts(cells@).take(i + 1) =~= seen.push(cells@[i as int]@));
            assert(sink@ =~= old(sink)@ + comma_led(texts(cells@).take(i + 1)));
        }
        i += 1;
    }
    assert(texts(cells@).take(i as int) =~= texts(cells@));
}

/// Appends `count` cells that number `prefix` from `from` on.
pub fn push_numbered(sink: &mut String, prefix: &str, from: usize, count: usize)
    requires
        from + count <= usize::MAX,
    ensures
        final(sink)@ == old(sink)@ + comma_led(numbered(prefix@, from as nat, count as nat)),
{
    let ghost cells = numbered(prefix@, from as nat, count as nat);
    let mut i: usize = 0;
    assert(sink@ =~= old(sink)@ + comma_led(cells.take(0)));
    while i < count
        invariant
            i <= count,
            from + count <= usize::MAX,
            cells == numbered(prefix@, from as nat, count as nat),
            sink@ == old(sink)@ + comma_led(cells.take(i as int)),
        decreases count - i,
    {
        push_cell(sink, prefix);
        push_decimal(sink, from + i);
        proof {
            let seen = cells.take(i as int);
            lemma_comma_led_push(seen, cells[i as int]);
            assert(cells.take(i + 1) =~= seen.push(cells[i as int]));
            assert(sink@ =~= old(sink)@ + comma_led(cells.take(i + 1)));
        }
        i += 1;
    }
    assert(cells.take(i as int) =~= cells);
}

/// A text without commas and newlines.
pub open spec fn plain(text: Seq<char>) -> bool {
    !text.contains(',') && !text.contains('\n')
}

/// A number in decimal has at least one character and is free of commas and
/// newlines.
pub proof fn decimals_are_plain(value: nat)
    ensures
        plain(decimal(value)),
        decimal(value).len() > 0,
    decreases value,
{
    if value >= 10 {
        decimals_are_plain(value / 10);
        let before = decimal(value / 10);
        let text = decimal(value);
        assert forall|i: int| 0 <= i < text.len() implies text[i] != ',' && text[i] != '\n' by {
            if i < before.len() {
                assert(before.contains(before[i]));
                assert(text[i] == before[i]);
            }
        }
    }
}

/// The cells of a line without its newline: the text is cut at every comma.
pub open spec fn split_cells(text: Seq<char>) -> Seq<Seq<char>>
    decreases text.len(),
{
    if text.len() == 0 {
        seq![Seq::empty()]
    } else {
        let before = split_cells(text.drop_last());
        if text.last() == ',' {
            before.push(Seq::empty())
        } else {
            before.drop_last().push(before.last().push(text.last()))
        }
    }
}

proof fn lemma_split_nonempty(text: Seq<char>)
    ensures
        split_cells(text).len() > 0,
    decreases text.len(),
{
    if text.len() > 0 {
        lemma_split_nonempty(text.drop_last());
    }
}

/// Cutting after a comma-free continuation only lengthens the last cell.
proof fn lemma_split_extends(text: Seq<char>, more: Seq<char>)
    requires
        !more.contains(','),
    ensures
        split_cells(text + more) == split_cells(text).drop_last().push(
            split_cells(text).last() + more,
        ),
    decreases more.len(),
{
    lemma_split_nonempty(text);
    let cut = split_cells(text);
    if more.len() == 0 {
        assert(text + more =~= text);
        assert(cut.last() + more =~= cut.last());
        assert(cut.drop_last().push(cut.last()) =~= cut);
    } else {
        assert forall|c: char| more.drop_last().contains(c) implies more.contains(c) by {
            let i = choose|i: int| 0 <= i < more.drop_last().len() && more.drop_last()[i] == c;
            assert(more[i] == c);
        }
        lemma_split_extends(text, more.drop_last());
        assert((text + more).drop_last() =~= text + more.drop_last());
        assert((text + more).last() == more.last());
        assert(more.contains(more.last()));
        let shorter = split_cells(text + more.drop_last());
        assert(shorter.drop_last() =~= cut.drop_last());
        assert(shorter.last().push(more.last()) =~= cut.last() + more);
    }
}

/// A written line reads back as its cells: cutting it at the commas gives the
/// cells that were joined, provided that none of them holds a comma.
pub proof fn lines_read_back(first: Seq<char>, rest: Seq<Seq<char>>)
    requires
        plain(first),
        forall|i: int| 0 <= i < rest.len() ==> plain(#[trigger] rest[i]),
    ensures
        line(first, rest).last() == '\n',
        split_cells(line(first, rest).drop_last()) == seq![first] + rest,
    decreases rest.len(),
{
    let text = first + comma_led(rest);
    assert(line(first, rest).drop_last() =~= text);
    if rest.len() == 0 {
        assert(text =~= Seq::<char>::empty() + first);
        lemma_split_extends(Seq::empty(), first);
        assert(split_cells(text) =~= seq![first] + rest) by {
            assert(Seq::<char>::empty() + first =~= first);
        }
    } else {
        let shorter = rest.drop_last();
        lines_read_back(first, shorter);
        let before = first + comma_led(shorter);
        assert(line(first, shorter).drop_last() =~= before);
        let opened = before.push(',');
        assert(opened.drop_last() =~= before);
        assert(split_cells(opened) == (seq![first] + shorter).push(Seq::empty()));
        lemma_split_extends(opened, rest.last());
        assert(opened + rest.last() =~= text);
        assert(Seq::<char>::empty() + rest.last() =~= rest.last());
        assert(split_cells(text) =~= seq![first] + rest);
    }
}

/// The lines of a document, one after the other, each given by its first cell
/// and the others.
pub open spec fn document(lines: Seq<(Seq<char>, Seq<Seq<char>>)>) -> Seq<char>
    decreases lines.len(),
{
    if lines.len() == 0 {
        Seq::empty()
    } else {
        document(lines.drop_last()) + line(lines.last().0, lines.last().1)
    }
}

/// One more line is appended at the end.
pub proof fn document_grows(
    lines: Seq<(Seq<char>, Seq<Seq<char>>)>,
    last: (Seq<char>, Seq<Seq<char>>),
)
    ensures
        document(lines.push(last)) == document(lines) + line(last.0, last.1),
{
    assert(lines.push(last).drop_last() =~= lines);
}

/// The lines of a text: each ends with a newline.
pub open spec fn split_lines(text: Seq<char>) -> Seq<Seq<char>>
    decreases text.len(),
{
    if text.len() == 0 {
        Seq::empty()
    } else {
        let before = split_lines(text.drop_last());
        let starts = text.len() == 1 || text[text.len() - 2] == '\n';
        if starts {
            before.push(seq![text.last()])
        } else {
            before.drop_last().push(before.last().push(text.last()))
        }
    }
}

/// Appending a line to a text that ends with one adds it to the lines.
proof fn lemma_split_appends(text: Seq<char>, more: Seq<char>)
    requires
        text.len() == 0 || text.last() == '\n',
        more.len() > 0,
        forall|i: int| 0 <= i < more.len() - 1 ==> more[i] != '\n',
    ensures
        split_lines(text + more) == split_lines(text).push(more),
    decreases more.len(),
{
    let whole = text + more;
    if more.len() == 1 {
        assert(whole.drop_last() =~= text);
        assert(seq![whole.last()] =~= more);
    } else {
        let shorter = more.drop_last();
        lemma_split_appends(text, shorter);
        assert(whole.drop_last() =~= text + shorter);
        assert(whole[whole.len() - 2] == more[more.len() - 2]);
        assert(more[more.len() - 2] != '\n');
        let before = split_lines(text + shorter);
        assert(before.drop_last() =~= split_lines(text));
        assert(before.last().push(whole.last()) =~= more);
    }
}

proof fn lemma_comma_led_has_no_newline(cells: Seq<Seq<char>>)
    requires
        forall|i: int| 0 <= i < cells.len() ==> plain(#[trigger] cells[i]),
    ensures
        !comma_led(cells).contains('\n'),
    decreases cells.len(),
{
    if cells.len() > 0 {
        lemma_comma_led_has_no_newline(cells.drop_last());
        let before = comma_led(cells.drop_last());
        let last = cells.last();
        let text = comma_led(cells);
        assert(plain(cells[cells.len() - 1]));
        assert forall|i: int| 0 <= i < text.len() implies text[i] != '\n' by {
            if i < before.len() {
                assert(text[i] == before[i]);
                assert(before.contains(before[i]));
            } else if i > before.len() {
                assert(text[i] == last[i - before.len() - 1]);
                assert(last.contains(last[i - before.len() - 1]));
            }
        }
    }
}

proof fn lemma_document_ends(lines: Seq<(Seq<char>, Seq<Seq<char>>)>)
    ensures
        document(lines).len() == 0 || document(lines).last() == '\n',
{
}

/// A document reads back: its lines are the lines that were written, and each
/// gives back its cells, provided that no cell holds a comma or a newline.
pub proof fn documents_read_back(lines: Seq<(Seq<char>, Seq<Seq<char>>)>)
    requires
        forall|k: int| 0 <= k < lines.len() ==> plain((#[trigger] lines[k]).0),
        forall|k: int, i: int|
            0 <= k < lines.len() && 0 <= i < lines[k].1.len() ==> plain(
                #[trigger] lines[k].1[i],
            ),
    ensures
        split_lines(document(lines)).len() == lines.len(),
        forall|k: int|
            0 <= k < lines.len() ==> #[trigger] split_lines(document(lines))[k] == line(
                lines[k].0,
                lines[k].1,
            ) && split_cells(split_lines(document(lines))[k].drop_last()) == seq![lines[k].0]
                + lines[k].1,
    decreases lines.len(),
{
    if lines.len() > 0 {
        let before = lines.drop_last();
        documents_read_back(before);
        lemma_document_ends(before);
        let last = lines.last();
        assert(lines[lines.len() - 1] == last);
        let written = line(last.0, last.1);
        assert forall|i: int| 0 <= i < last.1.len() implies plain(#[trigger] last.1[i]) by {
            assert(plain(lines[lines.len() - 1].1[i]));
        }
        lemma_comma_led_has_no_newline(last.1);
        assert forall|i: int| 0 <= i < written.len() - 1 implies written[i] != '\n' by {
            if i < last.0.len() {
                assert(written[i] == last.0[i]);
                assert(last.0.contains(last.0[i]));
            } else {
                let tail = comma_led(last.1);
                assert(written[i] == tail[i - last.0.len()]);
                assert(tail.contains(tail[i - last.0.len()]));
            }
        }
        lemma_split_appends(document(before), written);
        lines_read_back(last.0, last.1);
        assert forall|k: int| 0 <= k < lines.len() implies #[trigger] split_lines(
            document(lines),
        )[k] == line(lines[k].0, lines[k].1) && split_cells(
            split_lines(document(lines))[k].drop_last(),
        ) == seq![lines[k].0] + lines[k].1 by {
            if k < before.len() {
                assert(before[k] == lines[k]);
                assert(split_lines(document(before))[k] == line(before[k].0, before[k].1));
            }
        }
    }
}

/// A written number reads back: its text consists of digits, has no leading zero
/// unless it is the single digit of zero, and reading it from the left, ten
/// times what was read plus the next digit, gives the number. So different
/// numbers have different texts.
pub proof fn decimals_read_back(value: nat, other: nat)
    ensures
        decimal(value).len() > 0,
        forall|i: int|
            0 <= i < decimal(value).len() ==> '0' <= #[trigger] decimal(value)[i] <= '9',
        decimal(value)[0] == '0' <==> value == 0,
        value < 10 ==> decimal(value).len() == 1,
        decimal(value).fold_left(
            0int,
            |read: int, c: char| 10 * read + (c as int - '0' as int),
        ) == value,
        decimal(value) == decimal(other) ==> value == other,
{
    lemma_decimal_reads(value);
    lemma_decimal_reads(other);
}

proof fn lemma_decimal_reads(value: nat)
    ensures
        decimal(value).len() > 0,
        forall|i: int|
            0 <= i < decimal(value).len() ==> '0' <= #[trigger] decimal(value)[i] <= '9',
        decimal(value)[0] == '0' <==> value == 0,
        decimal(value).fold_left(
            0int,
            |read: int, c: char| 10 * read + (c as int - '0' as int),
        ) == value,
    decreases value,
{
    let step = |read: int, c: char| 10 * read + (c as int - '0' as int);
    let text = decimal(value);
    if value < 10 {
        assert(text.drop_last() =~= Seq::empty());
        reveal_with_fuel(Seq::fold_left, 2);
    } else {
        lemma_decimal_reads(value / 10);
        let before = decimal(value / 10);
        assert(text.drop_last() =~= before);
        assert(text[0] == before[0]);
        assert forall|i: int| 0 <= i < text.len() implies '0' <= #[trigger] text[i] <= '9' by {
            if i < before.len() {
                assert(text[i] == before[i]);
            }
        }
        assert(text.fold_left(0int, step) == step(before.fold_left(0int, step), text.last()));
    }
}

/// The digits of a number, each times the power of ten of its place, sum to the
/// number.
pub proof fn decimals_sum_to_their_number(value: nat)
    ensures
        Seq::new(
            decimal(value).len(),
            |i: int|
                (decimal(value)[i] as int - '0' as int) * pow(
                    10,
                    (decimal(value).len() - 1 - i) as nat,
                ),
        ).fold_left(0int, |sum: int, term: int| sum + term) == value,
    decreases value,
{
    let text = decimal(value);
    let n = text.len();
    let sum = |sum: int, term: int| sum + term;
    let terms = Seq::new(n, |i: int| (text[i] as int - '0' as int) * pow(10, (n - 1 - i) as nat));
    lemma_pow0(10);
    if value < 10 {
        assert(terms.drop_last() =~= Seq::empty());
        assert(terms.last() == (text[0] as int - '0' as int) * 1);
        reveal_with_fuel(Seq::fold_left, 2);
    } else {
        decimals_sum_to_their_number(value / 10);
        let before = decimal(value / 10);
        let m = before.len();
        let shorter = Seq::new(
            m,
            |i: int| (before[i] as int - '0' as int) * pow(10, (m - 1 - i) as nat),
        );
        assert(n == m + 1);
        assert forall|i: int| 0 <= i < m implies #[trigger] terms[i] == 10 * shorter[i] by {
            reveal(pow);
            let place = pow(10, (m - 1 - i) as nat);
            let d = before[i] as int - '0' as int;
            assert(text[i] == before[i]);
            assert(pow(10, (n - 1 - i) as nat) == 10 * place);
            assert(d * (10 * place) == 10 * (d * place)) by (nonlinear_arith);
        }
        lemma_sum_scales(terms.drop_last(), shorter);
        assert(terms.last() == (text.last() as int - '0' as int) * 1);
        assert(terms.fold_left(0int, sum) == sum(
            terms.drop_last().fold_left(0int, sum),
            terms.last(),
        ));
    }
}

proof fn lemma_sum_scales(scaled: Seq<int>, terms: Seq<int>)
    requires
        scaled.len() == terms.len(),
        forall|i: int| 0 <= i < terms.len() ==> #[trigger] scaled[i] == 10 * terms[i],
    ensures
        scaled.fold_left(0int, |sum: int, term: int| sum + term) == 10 * terms.fold_left(
            0int,
            |sum: int, term: int| sum + term,
        ),
    decreases terms.len(),
{
    if terms.len() > 0 {
        lemma_sum_scales(scaled.drop_last(), terms.drop_last());
    }
}

/// A line is its cells in order, with one comma between each two of them and a
/// newline behind the last.
pub proof fn lines_join_their_cells(first: Seq<char>, rest: Seq<Seq<char>>)
    ensures
        comma_led(rest) == rest.flat_map(|cell: Seq<char>| seq![','] + cell),
        line(first, rest) == first + rest.flat_map(|cell: Seq<char>| seq![','] + cell) + seq!['\n'],
    decreases rest.len(),
{
    let led = |cell: Seq<char>| seq![','] + cell;
    if rest.len() > 0 {
        let before = rest.drop_last();
        lines_join_their_cells(first, before);
        before.lemma_flat_map_push(led, rest.last());
        assert(before.push(rest.last()) =~= rest);
        assert(comma_led(rest) =~= comma_led(before) + led(rest.last()));
    } else {
        assert(rest.flat_map(led) =~= Seq::empty());
    }
    assert(line(first, rest) =~= first + rest.flat_map(led) + seq!['\n']);
}

/// A document is its lines in order, and nothing else.
pub proof fn documents_join_their_lines(lines: Seq<(Seq<char>, Seq<Seq<char>>)>)
    ensures
        document(lines) == lines.flat_map(
            |cells: (Seq<char>, Seq<Seq<char>>)|
                cells.0 + cells.1.flat_map(|cell: Seq<char>| seq![','] + cell) + seq!['\n'],
        ),
    decreases lines.len(),
{
    let written = |cells: (Seq<char>, Seq<Seq<char>>)|
        cells.0 + cells.1.flat_map(|cell: Seq<char>| seq![','] + cell) + seq!['\n'];
    if lines.len() > 0 {
        let before = lines.drop_last();
        documents_join_their_lines(before);
        before.lemma_flat_map_push(written, lines.last());
        assert(before.push(lines.last()) =~= lines);
        lines_join_their_cells(lines.last().0, lines.last().1);
    } else {
        assert(lines.flat_map(written) =~= Seq::empty());
    }
}

/// Numbered names are the prefix with each number from the first on, as many as
/// asked for, and a list of strings has its texts in their order.
pub proof fn names_are_numbered(prefix: Seq<char>, from: nat, count: nat, cells: Seq<String>)
    ensures
        numbered(prefix, from, count).len() == count,
        forall|i: int|
            0 <= i < count ==> #[trigger] numbered(prefix, from, count)[i] == prefix + decimal(
                (from + i) as nat,
            ),
        texts(cells).len() == cells.len(),
        forall|i: int| 0 <= i < cells.len() ==> #[trigger] texts(cells)[i] == cells[i]@,
{
}

} // verus!
