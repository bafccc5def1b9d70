//! What messages and reports tell: the names that an error is about, and the place in the source.

use vstd::prelude::*;

use crate::constructing::{from_reflect_text, FromReflectError};
use crate::digits::{decimal, int_text};
use crate::error::{
    caret_count, expected_text, joined, kind_text, line_around, line_end, quoted_line, repeated,
    Error, ErrorKind,
};
use crate::grammar::token_text;
use crate::plan::{failure_text, Failure};
use crate::printed_lines::stands_at;
use crate::report_law::{lemma_last_line, lemma_to_line_end, margin, report_lines};
use crate::span::{chars_before, last_line, position_after};
use crate::token::TokenKind;
use crate::token_laws::sign_text;

verus! {

/// Whether a message has a piece of text in it.
pub open spec fn tells(message: Seq<char>, piece: Seq<char>) -> bool {
    exists|at: int| stands_at(message, at, piece)
}

proof fn lemma_tells(a: Seq<char>, piece: Seq<char>, b: Seq<char>)
    ensures
        tells(a + piece + b, piece),
{
    let message = a + piece + b;
    let at = a.len() as int;
    assert(message.subrange(at, at + piece.len()) =~= piece);
    assert(stands_at(message, at, piece));
}

proof fn lemma_tells_more(a: Seq<char>, message: Seq<char>, b: Seq<char>, piece: Seq<char>)
    requires
        tells(message, piece),
    ensures
        tells(a + message + b, piece),
{
    let at = choose|at: int| stands_at(message, at, piece);
    let whole = a + message + b;
    let from = a.len() + at;
    assert(whole.subrange(from, from + piece.len()) =~= message.subrange(at, at + piece.len()));
    assert(stands_at(whole, from, piece));
}

// -- build errors -------------------------------------------------------------------------------

/// What an error is about: the names, paths, numbers and reasons in it.
pub open spec fn subjects(failure: Failure) -> Seq<Seq<char>> {
    match failure {
        Failure::Mismatch { found, expected, .. } => seq![found, expected],
        Failure::IntegerOutOfRange { value, type_path, .. } => seq![int_text(value), type_path],
        Failure::NotRepresentable { value, type_path, .. } => seq![int_text(value), type_path],
        Failure::InvalidAssetPath { path, .. } => seq![path],
        Failure::UnknownField { type_path, field, .. } => seq![type_path, field],
        Failure::DuplicateField { type_path, field, .. } => seq![type_path, field],
        Failure::TypeNotStruct { type_path, .. } => seq![type_path],
        Failure::TypeNotTupleStruct { type_path, .. } => seq![type_path],
        Failure::TooManyTupleFields { type_path, given, expected, .. } => seq![
            type_path,
            decimal(given as nat),
            decimal(expected as nat),
        ],
        Failure::UnknownVariant { type_path, variant, .. } => seq![type_path, variant],
        Failure::ApplyFailed { type_path, error, .. } => seq![type_path, error],
        Failure::MissingDefault { type_path, .. } => seq![type_path],
        Failure::UnknownEntityName { name, .. } => seq![name],
        Failure::UnregisteredType { type_path, .. } => seq![type_path],
        Failure::UnresolvedSymbol { reason, .. } => seq![reason],
        Failure::Malformed { message, .. } => seq![message],
    }
}

proof fn lemma_two(a: Seq<char>, x: Seq<char>, b: Seq<char>, y: Seq<char>, c: Seq<char>)
    ensures
        tells(a + x + b + y + c, x),
        tells(a + x + b + y + c, y),
{
    lemma_tells(a, x, b + y + c);
    assert(a + x + (b + y + c) =~= a + x + b + y + c);
    lemma_tells(a + x + b, y, c);
}

/// The message of an error names all that the error is about.
pub proof fn law_messages_name_their_subjects(failure: Failure, i: int)
    requires
        0 <= i < subjects(failure).len(),
    ensures
        tells(failure_text(failure), subjects(failure)[i]),
{
    let none = Seq::<char>::empty();
    match failure {
        Failure::Mismatch { found, expected, .. } => {
            lemma_two("expected a value of type `"@, expected, "`, found `"@, found, "`"@);
        },
        Failure::IntegerOutOfRange { value, type_path, .. } => {
            lemma_two(
                "the integer `"@,
                int_text(value),
                "` is out of range for `"@,
                type_path,
                "`"@,
            );
        },
        Failure::NotRepresentable { value, type_path, .. } => {
            lemma_two(
                "the integer `"@,
                int_text(value),
                "` is not exactly representable as `"@,
                type_path,
                "`"@,
            );
        },
        Failure::InvalidAssetPath { path, .. } => {
            lemma_tells("`"@, path, "` is not a valid asset path"@);
        },
        Failure::UnknownField { type_path, field, .. } => {
            lemma_two("`"@, type_path, "` has no field named `"@, field, "`"@);
        },
        Failure::DuplicateField { type_path, field, .. } => {
            lemma_two(
                "the field `"@,
                field,
                "` of `"@,
                type_path,
                "` is specified more than once"@,
            );
        },
        Failure::TypeNotStruct { type_path, .. } => {
            lemma_tells("`"@, type_path, "` does not have named fields"@);
        },
        Failure::TypeNotTupleStruct { type_path, .. } => {
            lemma_tells("`"@, type_path, "` does not have positional fields"@);
        },
        Failure::TooManyTupleFields { type_path, given, expected, .. } => {
            let most = decimal(expected as nat);
            let number = decimal(given as nat);
            lemma_two("`"@, type_path, "` has "@, most, " fields, but "@);
            let start = "`"@ + type_path + "` has "@ + most + " fields, but "@;
            let tail = " were given"@;
            lemma_tells(start, number, tail);
            lemma_tells_more(none, start, number + tail, type_path);
            lemma_tells_more(none, start, number + tail, most);
            assert(none + start + (number + tail) =~= start + number + tail);
        },
        Failure::UnknownVariant { type_path, variant, .. } => {
            lemma_two("`"@, type_path, "` has no variant named `"@, variant, "`"@);
        },
        Failure::ApplyFailed { type_path, error, .. } => {
            lemma_two("a value could not be applied to `"@, type_path, "`: "@, error, none);
            let text = "a value could not be applied to `"@ + type_path + "`: "@ + error;
            assert(text + none =~= text);
        },
        Failure::MissingDefault { type_path, .. } => {
            lemma_tells(
                "`"@,
                type_path,
                "` has no reflected default value; add `#[reflect(Default)]` to it"@,
            );
        },
        Failure::UnknownEntityName { name, .. } => {
            lemma_tells("no entity is named `#"@, name, "`"@);
        },
        Failure::UnregisteredType { type_path, .. } => {
            lemma_tells("the type `"@, type_path, "` is not registered"@);
        },
        Failure::UnresolvedSymbol { reason, .. } => {
            lemma_tells(none, reason, none);
            assert(none + reason + none =~= reason);
        },
        Failure::Malformed { message, .. } => {
            lemma_tells(none, message, none);
            assert(none + message + none =~= message);
        },
    }
}

// -- parse errors -------------------------------------------------------------------------------

/// The message of a parse error names the token, the character, the field or the construct that
/// it is about.
pub proof fn law_kinds_name_their_subject(kind: ErrorKind)
    ensures
        match kind {
            ErrorKind::UnexpectedToken(found) => tells(kind_text(kind), found),
            ErrorKind::UnknownCharacter(c) => kind_text(kind).contains(c),
            ErrorKind::DuplicateField(name) => tells(kind_text(kind), name),
            ErrorKind::Unsupported(message) => tells(kind_text(kind), message),
            ErrorKind::Internal(what) => tells(kind_text(kind), what),
            _ => kind_text(kind).len() > 0,
        },
{
    let none = Seq::<char>::empty();
    match kind {
        ErrorKind::UnexpectedToken(found) => {
            lemma_tells("unexpected "@, found, none);
            assert("unexpected "@ + found + none =~= "unexpected "@ + found);
        },
        ErrorKind::UnknownCharacter(c) => {
            let start = "unexpected character `"@;
            assert(kind_text(kind)[start.len() as int] == c);
        },
        ErrorKind::DuplicateField(name) => {
            lemma_tells("duplicate field `"@, name, "`"@);
        },
        ErrorKind::Unsupported(message) => {
            lemma_tells(none, message, none);
            assert(none + message + none =~= message);
        },
        ErrorKind::Internal(what) => {
            lemma_tells("internal parser error: "@, what, none);
            assert("internal parser error: "@ + what + none =~= "internal parser error: "@ + what);
        },
        _ => {
            reveal_strlit("unexpected end of file");
            reveal_strlit("unterminated string literal");
            reveal_strlit("unterminated block comment");
            reveal_strlit("invalid escape sequence");
            reveal_strlit("invalid numeric literal");
            reveal_strlit("integer literal out of range for i128");
            reveal_strlit("a `:\"…\"` scene include must be the first entry of an entity");
            reveal_strlit(
                "only scene assets can be included with `:`; expected a string literal, e.g. `:\"player.bsn\"`",
            );
            reveal_strlit("duplicate entity name; an entity may have at most one `#Name`");
            reveal_strlit("`-` may only be applied to a number or `inf`");
            reveal_strlit("paths may not start with `::`");
            reveal_strlit("nesting is too deep (limit ");
        },
    }
}

/// In messages, a sign is called as it is written, in quotes.
pub proof fn law_signs_are_quoted(kind: TokenKind)
    ensures
        sign_text(kind) matches Some(sign) ==> token_text(kind) == seq!['`'] + sign + seq!['`'],
{
    reveal_strlit("`::`");
    reveal_strlit("`:`");
    reveal_strlit("`,`");
    reveal_strlit("`#`");
    reveal_strlit("`@`");
    reveal_strlit("`~`");
    reveal_strlit("`-`");
    reveal_strlit("`<`");
    reveal_strlit("`>`");
    reveal_strlit("`(`");
    reveal_strlit("`)`");
    reveal_strlit("`{`");
    reveal_strlit("`}`");
    reveal_strlit("`[`");
    reveal_strlit("`]`");
    if let Some(sign) = sign_text(kind) {
        assert(token_text(kind) =~= seq!['`'] + sign + seq!['`']);
    }
}

proof fn lemma_joined_tells(list: Seq<Seq<char>>, separator: Seq<char>, i: int)
    requires
        0 <= i < list.len(),
    ensures
        tells(joined(list, separator), list[i]),
    decreases list.len(),
{
    let none = Seq::<char>::empty();
    let shorter = list.drop_last();
    if list.len() == 1 {
        lemma_tells(none, list[0], none);
        assert(none + list[0] + none =~= list[0]);
    } else if i == list.len() - 1 {
        let before = joined(shorter, separator) + separator;
        lemma_tells(before, list[i], none);
        assert(before + list[i] + none =~= before + list[i]);
    } else {
        lemma_joined_tells(shorter, separator, i);
        assert(shorter[i] == list[i]);
        let rest = separator + list.last();
        lemma_tells_more(none, joined(shorter, separator), rest, list[i]);
        assert(none + joined(shorter, separator) + rest =~= joined(shorter, separator) + separator
            + list.last());
    }
}

/// Everything that was expected is told, and where nothing was, nothing is.
pub proof fn law_everything_expected_is_told(list: Seq<Seq<char>>)
    ensures
        list.len() == 0 <==> expected_text(list).len() == 0,
        forall|i: int| 0 <= i < list.len() ==> tells(expected_text(list), #[trigger] list[i]),
{
    let none = Seq::<char>::empty();
    reveal_strlit(" expected ");
    assert forall|i: int| 0 <= i < list.len() implies tells(
        expected_text(list),
        #[trigger] list[i],
    ) by {
        let start = " expected "@;
        if list.len() == 1 {
            lemma_tells(start, list[0], none);
            assert(start + list[0] + none =~= start + list[0]);
        } else if list.len() == 2 {
            lemma_two(start, list[0], " or "@, list[1], none);
            let text = start + list[0] + " or "@ + list[1];
            assert(text + none =~= text);
        } else {
            let most = joined(list.drop_last(), ", "@);
            let before = start + most + ", or "@;
            if i == list.len() - 1 {
                lemma_tells(before, list[i], none);
                assert(before + list[i] + none =~= before + list[i]);
            } else {
                lemma_joined_tells(list.drop_last(), ", "@, i);
                assert(list.drop_last()[i] == list[i]);
                let rest = ", or "@ + list.last();
                lemma_tells_more(start, most, rest, list[i]);
                assert(start + most + rest =~= before + list.last());
            }
        }
    }
}

// -- carets -------------------------------------------------------------------------------------

/// In a report, the first caret stands under the character at which the error starts, as far as
/// the line is shown; a tab is shown as a space.
pub proof fn law_carets_stand_under_the_error(error: Error, source: Seq<char>, path: Seq<char>)
    requires
        ({
            let at = chars_before(source, error.span.start as nat);
            &&& 0 <= at < source.len()
            &&& source[at] != '\n'
            &&& source[at] != '\r'
            &&& position_after(source.take(at)).1 <= 200
        }),
    ensures
        ({
            let at = chars_before(source, error.span.start as nat);
            let lines = report_lines(error, source, path);
            exists|i: int|
                #![trigger lines[4][i]]
                {
                    &&& 0 <= i < lines[4].len()
                    &&& i < lines[3].len()
                    &&& lines[4][i] == '^'
                    &&& forall|j: int| 0 <= j < i ==> #[trigger] lines[4][j] != '^'
                    &&& lines[3][i] == (if source[at] == '\t' {
                        ' '
                    } else {
                        source[at]
                    })
                }
        }),
{
    let at = chars_before(source, error.span.start as nat);
    let lines = report_lines(error, source, path);
    let before = source.take(at);
    let (line, column) = position_after(before);
    let number = decimal(line as nat);
    lemma_last_line(before);
    lemma_to_line_end(source, at);
    lemma_to_line_end(source, at + 1);
    lemma_to_line_end(error.span.spec_text(source), 0);
    let start = at - last_line(before).len();
    let end = line_end(source, at);
    assert(end > at);
    let whole = source.subrange(start, end);
    assert(whole[column - 1] == source[at]);
    let shown = line_around(source, at);
    assert(shown.len() > column - 1) by {
        if shown.len() < whole.len() {
            assert(whole.last() == '\r');
        }
    }
    assert(shown[column - 1] == source[at]);
    let quoted = quoted_line(shown);
    assert(quoted[column - 1] == (if source[at] == '\t' {
        ' '
    } else {
        source[at]
    }));
    reveal_strlit(" ");
    reveal_strlit(" | ");
    let i = number.len() + 4 + column - 1;
    assert(lines[3][i] == quoted[column - 1]);
    let head = margin(line) + " | "@ + repeated(' ', column - 1);
    let carets = repeated('^', caret_count(error.span.spec_text(source)));
    assert(lines[4] == head + carets + expected_text(error.expected));
    assert(carets[0] == '^');
    assert(head.len() == i);
    assert(lines[4][i] == carets[0]);
    assert forall|j: int| 0 <= j < i implies #[trigger] lines[4][j] != '^' by {
        if j < number.len() + 1 {
        } else if j < number.len() + 4 {
            assert(lines[4][j] == " | "@[j - number.len() - 1]);
        }
    }
}

// -- construction errors ------------------------------------------------------------------------

/// The message of a failed construction names the type, and the traits or the reason.
pub proof fn law_construction_messages_name_their_subjects(error: FromReflectError)
    ensures
        ({
            let text = from_reflect_text(error);
            match error {
                FromReflectError::NotRegistered { type_label } => tells(text, type_label@),
                FromReflectError::MissingConstructor { type_label, traits } => tells(
                    text,
                    type_label@,
                ) && tells(text, traits@),
                FromReflectError::ApplyFailed { type_label, error } => tells(text, type_label@)
                    && tells(text, error@),
                FromReflectError::MismatchedType { type_label, source_trait } => tells(
                    text,
                    type_label@,
                ) && tells(text, source_trait@),
            }
        }),
{
    let none = Seq::<char>::empty();
    let text = from_reflect_text(error);
    match error {
        FromReflectError::NotRegistered { type_label } => {
            lemma_tells("The type `"@, type_label@, "` is not registered in the `TypeRegistry`"@);
        },
        FromReflectError::MissingConstructor { type_label, traits } => {
            lemma_two(
                "Couldn't create an instance of `"@,
                type_label@,
                "` using the reflected "@,
                traits@,
                ". Are you perhaps missing a `#[reflect(Default)]` attribute?"@,
            );
        },
        FromReflectError::ApplyFailed { type_label, error } => {
            lemma_two(
                "Failed to apply a reflected value onto a default instance of `"@,
                type_label@,
                "`: "@,
                error@,
                none,
            );
            assert(text + none =~= text);
        },
        FromReflectError::MismatchedType { type_label, source_trait } => {
            lemma_two(
                "The registration for the reflected `"@,
                source_trait@,
                "` trait for the type `"@,
                type_label@,
                "` produced a value of a different type"@,
            );
        },
    }
}

} // verus!
