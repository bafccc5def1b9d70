//! The shape of error reports.

use vstd::prelude::*;

use crate::digits::{decimal, lemma_radix_chars};
use crate::error::{
    caret_count, expected_text, joined, kind_text, line_around, line_end, quoted_line, repeated,
    report, smaller, Error, MAX_LINE,
};
use crate::lexical::lemma_line_end;
use crate::span::{chars_before, last_line, lemma_index_from, position_after};

verus! {

/// Whether a text holds no line feed.
pub open spec fn is_line(s: Seq<char>) -> bool {
    forall|i: int| 0 <= i < s.len() ==> #[trigger] s[i] != '\n'
}

pub proof fn lemma_last_line(s: Seq<char>)
    ensures
        last_line(s).len() <= s.len(),
        last_line(s) == s.skip(s.len() - last_line(s).len()),
        is_line(last_line(s)),
    decreases s.len(),
{
    if s.len() > 0 && s.last() != '\n' {
        let t = s.drop_last();
        lemma_last_line(t);
        let n = last_line(t).len();
        assert(last_line(s) =~= s.skip(t.len() - n)) by {
            assert(t.skip(t.len() - n).push(s.last()) =~= s.skip(t.len() - n));
        }
    } else {
        assert(last_line(s) =~= s.skip(s.len() as int));
    }
}

pub proof fn lemma_to_line_end(s: Seq<char>, i: int)
    requires
        0 <= i <= s.len(),
    ensures
        i <= line_end(s, i) <= s.len(),
        forall|k: int| i <= k < line_end(s, i) ==> #[trigger] s[k] != '\n',
    decreases s.len() - i,
{
    if i < s.len() && s[i] != '\n' {
        lemma_to_line_end(s, i + 1);
    }
}

proof fn lemma_line_around(s: Seq<char>, at: int)
    requires
        0 <= at <= s.len(),
    ensures
        is_line(line_around(s, at)),
        is_line(quoted_line(line_around(s, at))),
{
    let before = s.take(at);
    lemma_last_line(before);
    lemma_to_line_end(s, at);
    let start = at - last_line(before).len();
    let end = line_end(s, at);
    let line = s.subrange(start, end);
    assert forall|i: int| 0 <= i < line.len() implies #[trigger] line[i] != '\n' by {
        if start + i < at {
            assert(last_line(before)[i] == before[start + i]);
        } else {
            assert(s[start + i] != '\n');
        }
    }
    reveal_strlit("...");
}

pub proof fn lemma_joined(list: Seq<Seq<char>>, separator: Seq<char>)
    requires
        is_line(separator),
        forall|i: int| 0 <= i < list.len() ==> is_line(#[trigger] list[i]),
    ensures
        is_line(joined(list, separator)),
    decreases list.len(),
{
    if list.len() > 0 {
        lemma_joined(list.drop_last(), separator);
    }
}

proof fn lemma_expected(list: Seq<Seq<char>>)
    requires
        forall|i: int| 0 <= i < list.len() ==> is_line(#[trigger] list[i]),
    ensures
        is_line(expected_text(list)),
{
    reveal_strlit(" expected ");
    reveal_strlit(" or ");
    reveal_strlit(", or ");
    reveal_strlit(", ");
    if list.len() > 0 {
        assert(is_line(list[0]));
        assert(is_line(list.last()));
        if list.len() == 2 {
            assert(is_line(list[1]));
        }
        lemma_joined(list.drop_last(), ", "@);
    }
}

/// The margin of a report on line `line`: a space wider than the line number.
pub open spec fn margin(line: int) -> Seq<char> {
    repeated(' ', decimal(line as nat).len() as int + 1)
}

/// The five lines of a report, without their line feeds.
pub open spec fn report_lines(error: Error, source: Seq<char>, path: Seq<char>) -> Seq<Seq<char>> {
    let at = chars_before(source, error.span.start as nat);
    let (line, column) = position_after(source.take(at));
    seq![
        "error: "@ + kind_text(error.kind),
        margin(line) + "--> "@ + path + ":"@ + decimal(line as nat) + ":"@ + decimal(column as nat),
        margin(line) + " |"@,
        " "@ + decimal(line as nat) + " | "@ + quoted_line(line_around(source, at)),
        margin(line) + " | "@ + repeated(' ', smaller(column - 1, MAX_LINE as int)) + repeated(
            '^',
            caret_count(error.span.spec_text(source)),
        ) + expected_text(error.expected),
    ]
}

pub proof fn lemma_lines(a: Seq<char>, b: Seq<char>)
    requires
        is_line(a),
        is_line(b),
    ensures
        is_line(a + b),
{
}

proof fn lemma_joins_two(p: Seq<char>, a: Seq<char>, b: Seq<char>)
    ensures
        p + a + b == p + (a + b),
{
    assert(p + a + b =~= p + (a + b));
}

proof fn lemma_joins_four(p: Seq<char>, a: Seq<char>, b: Seq<char>, c: Seq<char>, d: Seq<char>)
    ensures
        p + a + b + c + d == p + (a + b + c + d),
{
    lemma_joins_two(p, a, b);
    lemma_joins_two(p, a + b, c);
    lemma_joins_two(p, a + b + c, d);
}

proof fn lemma_places(
    line: int,
    column: int,
    path: Seq<char>,
    quoted: Seq<char>,
    pad: int,
    carets: int,
    suffix: Seq<char>,
)
    requires
        is_line(path),
        is_line(quoted),
        is_line(suffix),
    ensures
        is_line(
            margin(line) + "--> "@ + path + ":"@ + decimal(line as nat) + ":"@ + decimal(
                column as nat,
            ),
        ),
        is_line(margin(line) + " |"@),
        is_line(" "@ + decimal(line as nat) + " | "@ + quoted),
        is_line(margin(line) + " | "@ + repeated(' ', pad) + repeated('^', carets) + suffix),
{
    lemma_radix_chars(line as nat, 10);
    lemma_radix_chars(column as nat, 10);
    reveal_strlit("--> ");
    reveal_strlit(":");
    reveal_strlit(" |");
    reveal_strlit(" ");
    reveal_strlit(" | ");
    let m = margin(line);
    let number = decimal(line as nat);
    assert(is_line(m));
    assert(is_line(number));
    assert(is_line(decimal(column as nat)));
    assert(is_line(repeated(' ', pad)));
    assert(is_line(repeated('^', carets)));
    lemma_lines(m, "--> "@);
    lemma_lines(m + "--> "@, path);
    lemma_lines(m + "--> "@ + path, ":"@);
    lemma_lines(m + "--> "@ + path + ":"@, number);
    lemma_lines(m + "--> "@ + path + ":"@ + number, ":"@);
    lemma_lines(m + "--> "@ + path + ":"@ + number + ":"@, decimal(column as nat));
    lemma_lines(m, " |"@);
    lemma_lines(" "@, number);
    lemma_lines(" "@ + number, " | "@);
    lemma_lines(" "@ + number + " | "@, quoted);
    lemma_lines(m, " | "@);
    lemma_lines(m + " | "@, repeated(' ', pad));
    lemma_lines(m + " | "@ + repeated(' ', pad), repeated('^', carets));
    lemma_lines(m + " | "@ + repeated(' ', pad) + repeated('^', carets), suffix);
}

/// Whatever the span of an error, its report has five lines, each ended by one line feed. The
/// second ends with the path, the line and the column of the span. The fifth has between 1 and
/// 200 carets, directly followed by what was expected.
pub proof fn law_reports_have_five_lines(error: Error, source: Seq<char>, path: Seq<char>)
    requires
        is_line(path),
        is_line(kind_text(error.kind)),
        forall|i: int| 0 <= i < error.expected.len() ==> is_line(#[trigger] error.expected[i]),
    ensures
        ({
            let lines = report_lines(error, source, path);
            &&& lines.len() == 5
            &&& forall|i: int| 0 <= i < 5 ==> is_line(#[trigger] lines[i])
            &&& report(error, source, path) == lines[0] + "\n"@ + lines[1] + "\n"@ + lines[2]
                + "\n"@ + lines[3] + "\n"@ + lines[4] + "\n"@
        }),
        1 <= caret_count(error.span.spec_text(source)) <= 200,
{
    let at = chars_before(source, error.span.start as nat);
    lemma_index_from(source, 0, error.span.start as nat);
    let (line, column) = position_after(source.take(at));
    let number = decimal(line as nat);
    let quoted = quoted_line(line_around(source, at));
    let pad = smaller(column - 1, MAX_LINE as int);
    let carets = caret_count(error.span.spec_text(source));
    let suffix = expected_text(error.expected);
    lemma_line_around(source, at);
    lemma_expected(error.expected);
    lemma_line_end(error.span.spec_text(source), 0);
    assert(is_line("error: "@)) by {
        reveal_strlit("error: ");
    }
    lemma_lines("error: "@, kind_text(error.kind));
    lemma_places(line, column, path, quoted, pad, carets, suffix);
    let lines = report_lines(error, source, path);
    let m = margin(line);
    let n = "\n"@;
    let p1 = lines[0] + n;
    lemma_joins_four(p1, m, "--> "@, path, ":"@);
    lemma_joins_four(p1, m + "--> "@ + path + ":"@, number, ":"@, decimal(column as nat));
    let p2 = p1 + lines[1] + n;
    assert(" |\n"@ == " |"@ + n) by {
        reveal_strlit(" |\n");
        reveal_strlit(" |");
        reveal_strlit("\n");
        assert(" |\n"@ =~= " |"@ + "\n"@);
    }
    lemma_joins_two(p2 + m, " |"@, n);
    lemma_joins_two(p2, m, " |"@);
    let p3 = p2 + lines[2] + n;
    lemma_joins_four(p3, " "@, number, " | "@, quoted);
    let p4 = p3 + lines[3] + n;
    lemma_joins_four(p4, m, " | "@, repeated(' ', pad), repeated('^', carets));
    lemma_joins_two(p4, m + " | "@ + repeated(' ', pad) + repeated('^', carets), suffix);
}

} // verus!
