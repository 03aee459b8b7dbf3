//! From a path string to its segments, in two stages: `split` cuts the text
//! into tokens, `to_segments` groups the tokens by command. `parse` does
//! both.

use vstd::prelude::*;
use crate::error::ParseError;
use crate::error::ParseErrorView;
use crate::number::digits_between;
use crate::number::exponent_between;
use crate::number::float_literal;
use crate::number::is_digit;
use crate::number::is_float_literal;
use crate::number::mantissa_between;
use crate::number::number_from;
use crate::number::sign_at;
use crate::number::special_from;
use crate::path::views;
use crate::path::PathSegment;
use crate::path::SegmentView;
use crate::text::chars_of;

verus! {

/// Spaces and commas stand between tokens and mean nothing else.
pub open spec fn is_separator(c: char) -> bool {
    c == ' ' || c == ','
}

/// The twenty command letters: upper case for absolute coordinates, lower
/// case for coordinates relative to the current point.
pub open spec fn is_command_letter(c: char) -> bool {
    c == 'M' || c == 'm' || c == 'L' || c == 'l' || c == 'H' || c == 'h' || c == 'V' || c == 'v'
        || c == 'Q' || c == 'q' || c == 'T' || c == 't' || c == 'C' || c == 'c' || c == 'S'
        || c == 's' || c == 'A' || c == 'a' || c == 'Z' || c == 'z'
}

/// The characters that the body of a number is made of: digits and the dot.
pub open spec fn is_number_char(c: char) -> bool {
    ('0' <= c && c <= '9') || c == '.'
}

/// The length of the longest run of separators that starts at `from`.
pub open spec fn separator_run(text: Seq<char>, from: int) -> nat
    decreases text.len() - from,
{
    if 0 <= from < text.len() && is_separator(text[from]) {
        1 + separator_run(text, from + 1)
    } else {
        0
    }
}

/// The length of the longest run of digits and dots that starts at `from`.
pub open spec fn number_run(text: Seq<char>, from: int) -> nat
    decreases text.len() - from,
{
    if 0 <= from < text.len() && is_number_char(text[from]) {
        1 + number_run(text, from + 1)
    } else {
        0
    }
}

/// Whether a sign stands at `index`: 1 if so, else 0.
pub open spec fn sign_len(text: Seq<char>, index: int) -> nat {
    if 0 <= index < text.len() && (text[index] == '-' || text[index] == '+') {
        1
    } else {
        0
    }
}

/// How many characters the number at `index` takes: an optional sign and
/// then every digit and dot that follows. Zero where no number starts.
pub open spec fn number_size(text: Seq<char>, index: int) -> nat {
    sign_len(text, index) + number_run(text, index + sign_len(text, index))
}

/// The text of the number at `index`: a minus sign is kept, a plus sign is
/// dropped, the digits and dots follow as they stand.
pub open spec fn number_text(text: Seq<char>, index: int) -> Seq<char> {
    let body = text.subrange(
        index + sign_len(text, index),
        index + number_size(text, index),
    );
    if sign_len(text, index) == 1 && text[index] == '-' {
        seq!['-'] + body
    } else {
        body
    }
}

/// How many characters the token at `index` takes; 0 where none starts.
pub open spec fn token_size(text: Seq<char>, index: int) -> nat {
    if number_size(text, index) > 0 {
        number_size(text, index)
    } else if 0 <= index < text.len() && is_command_letter(text[index]) {
        1
    } else {
        0
    }
}

/// The text of the token at `index`, where one starts.
pub open spec fn token_text(text: Seq<char>, index: int) -> Seq<char> {
    if number_size(text, index) > 0 {
        number_text(text, index)
    } else {
        seq![text[index]]
    }
}

/// The tokens of `text` from `pos` on, or the first character that starts no
/// token.
pub open spec fn lex(text: Seq<char>, pos: int) -> Result<Seq<Seq<char>>, char>
    decreases text.len() - pos,
    via lex_decreases
{
    let at = pos + separator_run(text, pos);
    let size = token_size(text, at);
    if pos < 0 || at >= text.len() {
        Ok(Seq::empty())
    } else if size == 0 {
        Err(text[at])
    } else {
        match lex(text, at + size) {
            Ok(rest) => Ok(seq![token_text(text, at)] + rest),
            Err(c) => Err(c),
        }
    }
}

/// A token is not empty and lies within the text, so less of the text is
/// left behind it.
#[via_fn]
proof fn lex_decreases(text: Seq<char>, pos: int) {
    if pos >= 0 {
        lemma_token_size(text, pos + separator_run(text, pos));
    }
}

/// The tokens of a whole path string.
pub open spec fn tokens(text: Seq<char>) -> Result<Seq<Seq<char>>, char> {
    lex(text, 0)
}

/// The texts of a vector of strings.
pub open spec fn texts(v: Seq<String>) -> Seq<Seq<char>> {
    v.map_values(|s: String| s@)
}

/// What a result gives when `head` is put before its tokens: a failure stays
/// as it is.
pub open spec fn after(head: Seq<Seq<char>>, rest: Result<Seq<Seq<char>>, char>) -> Result<
    Seq<Seq<char>>,
    char,
> {
    match rest {
        Ok(tail) => Ok(head + tail),
        Err(c) => Err(c),
    }
}

/// The character itself where it is a command letter.
pub fn is_command(c: char) -> (r: Option<char>)
    ensures
        is_command_letter(c) ==> r == Some(c),
        !is_command_letter(c) ==> r is None,
{
    match c {
        'M' | 'm' | 'L' | 'l' | 'H' | 'h' | 'V' | 'v' | 'Q' | 'q' | 'T' | 't' | 'C' | 'c' | 'S'
        | 's' | 'A' | 'a' | 'Z' | 'z' => Some(c),
        _ => None,
    }
}

/// Counts the separators that start at `index`.
pub fn drop_whitespace(text: &Vec<char>, index: usize) -> (n: usize)
    ensures
        n == separator_run(text@, index as int),
        n == 0 || index + n <= text.len(),
        forall|i: int| index <= i < index + n ==> is_separator(#[trigger] text[i]),
        index + n < text.len() ==> !is_separator(text[index + n]),
{
    let mut cursor: usize = index;
    while cursor < text.len() && (text[cursor] == ' ' || text[cursor] == ',')
        invariant
            index <= cursor,
            cursor == index || cursor <= text.len(),
            separator_run(text@, index as int) == (cursor - index) + separator_run(
                text@,
                cursor as int,
            ),
        decreases text.len() - cursor,
    {
        cursor += 1;
    }
    proof {
        lemma_separator_run(text@, index as int);
    }
    cursor - index
}

/// Reads the number that starts at `index`: its text and how many characters
/// it took. `None` where neither a sign, a digit nor a dot stands there.
pub fn parse_number(text: &Vec<char>, index: usize) -> (r: Option<(String, usize)>)
    ensures
        r is Some <==> number_size(text@, index as int) > 0,
        r matches Some((value, size)) ==> size == number_size(text@, index as int) && index
            + size <= text.len() && value@ == number_text(text@, index as int),
{
    let mut cursor: usize = index;
    let mut value: String = String::new();
    if cursor < text.len() {
        let c = text[cursor];
        if c == '-' {
            cursor += 1;
            value.push('-');
        } else if c == '+' {
            cursor += 1;
        }
    }
    let ghost start = cursor as int;
    let ghost sign = value@;
    assert(start <= text.len() ==> value@ =~= sign + text@.subrange(start, cursor as int));
    while cursor < text.len() && ((text[cursor] >= '0' && text[cursor] <= '9') || text[cursor]
        == '.')
        invariant
            start <= cursor,
            cursor == start || cursor <= text.len(),
            start == index + sign_len(text@, index as int),
            number_run(text@, start) == (cursor - start) + number_run(text@, cursor as int),
            start <= text.len() ==> value@ == sign + text@.subrange(start, cursor as int),
        decreases text.len() - cursor,
    {
        value.push(text[cursor]);
        cursor += 1;
        assert(value@ =~= sign + text@.subrange(start, cursor as int));
    }
    if cursor != index {
        Some((value, cursor - index))
    } else {
        None
    }
}

/// Reads the command letter at `index`, as a text of one character.
pub fn parse_command(text: &Vec<char>, index: usize) -> (r: Option<(String, usize)>)
    ensures
        r is Some <==> index < text.len() && is_command_letter(text[index as int]),
        r matches Some((value, size)) ==> value@ == seq![text[index as int]] && size == 1,
{
    if index < text.len() {
        match is_command(text[index]) {
            Some(c) => {
                let mut value = String::new();
                value.push(c);
                Some((value, 1))
            },
            None => None,
        }
    } else {
        None
    }
}

/// Cuts a path string into its tokens: command letters and numbers, in the
/// order in which they stand, with the separators between them dropped. Fails
/// at the first character that starts no token.
pub fn split(d: &str) -> (r: Result<Vec<String>, ParseError>)
    ensures
        r matches Ok(found) ==> tokens(d@) == Ok::<Seq<Seq<char>>, char>(texts(found@)),
        r matches Err(e) ==> tokens(d@) is Err && e@ == ParseErrorView::InvalidToken(
            tokens(d@)->Err_0,
        ),
{
    let text = chars_of(d);
    let mut cursor: usize = 0;
    let mut ret: Vec<String> = Vec::new();
    cursor += drop_whitespace(&text, cursor);
    proof {
        lemma_separator_run(text@, 0);
        assert(texts(ret@) =~= Seq::empty());
        assert(lex(text@, 0) == lex(text@, cursor as int));
        assert(after(texts(ret@), lex(text@, cursor as int)) == lex(text@, cursor as int)) by {
            match lex(text@, cursor as int) {
                Ok(tail) => {
                    assert(texts(ret@) + tail =~= tail);
                },
                Err(c) => {},
            }
        }
    }
    while cursor < text.len()
        invariant
            text@ == d@,
            cursor <= text.len(),
            separator_run(text@, cursor as int) == 0,
            tokens(d@) == after(texts(ret@), lex(text@, cursor as int)),
        decreases text.len() - cursor,
    {
        let ghost before = texts(ret@);
        let ghost at = cursor as int;
        let found = match parse_number(&text, cursor) {
            Some(hit) => Some(hit),
            None => parse_command(&text, cursor),
        };
        match found {
            Some((value, size)) => {
                proof {
                    lemma_token_size(text@, at);
                    assert(texts(ret@.push(value)) =~= before.push(value@));
                    match lex(text@, at + size) {
                        Ok(tail) => {
                            assert(before + (seq![value@] + tail) =~= before.push(value@) + tail);
                        },
                        Err(c) => {},
                    }
                }
                cursor += size;
                ret.push(value);
            },
            None => {
                return Err(ParseError::InvalidToken(text[cursor]));
            },
        }
        let ghost landed = cursor as int;
        cursor += drop_whitespace(&text, cursor);
        proof {
            lemma_separator_run(text@, landed);
            assert(lex(text@, landed) == lex(text@, cursor as int));
        }
    }
    proof {
        assert(texts(ret@) + Seq::<Seq<char>>::empty() =~= texts(ret@));
    }
    Ok(ret)
}

/// A run of separators lies within the text, holds separators only, and ends
/// where the text ends or at a character that is no separator.
pub proof fn lemma_separator_run(text: Seq<char>, from: int)
    requires
        0 <= from,
    ensures
        from + separator_run(text, from) <= text.len() || separator_run(text, from) == 0,
        forall|i: int|
            from <= i < from + separator_run(text, from) ==> is_separator(#[trigger] text[i]),
        from + separator_run(text, from) < text.len() ==> !is_separator(
            text[from + separator_run(text, from)],
        ),
        separator_run(text, from + separator_run(text, from)) == 0,
    decreases text.len() - from,
{
    if from < text.len() && is_separator(text[from]) {
        lemma_separator_run(text, from + 1);
    }
}

/// A run of digits and dots lies within the text, holds digits and dots
/// only, and ends where the text ends or at a character of another kind.
pub proof fn lemma_number_run(text: Seq<char>, from: int)
    requires
        0 <= from,
    ensures
        from + number_run(text, from) <= text.len() || number_run(text, from) == 0,
        forall|i: int|
            from <= i < from + number_run(text, from) ==> is_number_char(#[trigger] text[i]),
        from + number_run(text, from) < text.len() ==> !is_number_char(
            text[from + number_run(text, from)],
        ),
    decreases text.len() - from,
{
    if from < text.len() && is_number_char(text[from]) {
        lemma_number_run(text, from + 1);
    }
}

/// A token lies within the text.
pub proof fn lemma_token_size(text: Seq<char>, index: int)
    requires
        0 <= index,
    ensures
        token_size(text, index) == 0 || index + token_size(text, index) <= text.len(),
{
    lemma_number_run(text, index + sign_len(text, index));
}

/// A token is a command when it is one command letter and nothing else.
pub open spec fn is_command_token(token: Seq<char>) -> bool {
    token.len() == 1 && is_command_letter(token[0])
}

/// A number token: digits and dots, with or without a minus sign before
/// them. The empty text is one: it is what a lone plus sign leaves.
pub open spec fn is_number_token(token: Seq<char>) -> bool {
    forall|i: int|
        0 <= i < token.len() ==> is_number_char(#[trigger] token[i]) || (i == 0 && token[i]
            == '-')
}

/// Every token is a command letter or a number token, whatever the text.
pub proof fn lemma_token_shapes(text: Seq<char>, pos: int)
    ensures
        lex(text, pos) matches Ok(found) ==> forall|i: int|
            0 <= i < found.len() ==> is_command_token(#[trigger] found[i]) || is_number_token(
                found[i],
            ),
    decreases text.len() - pos,
{
    let at = pos + separator_run(text, pos);
    let size = token_size(text, at);
    if pos >= 0 && at < text.len() && size > 0 {
        lemma_token_size(text, at);
        lemma_token_shapes(text, at + size);
        let token = token_text(text, at);
        assert(is_command_token(token) || is_number_token(token)) by {
            if number_size(text, at) > 0 {
                let from = at + sign_len(text, at);
                lemma_number_run(text, from);
                let body = text.subrange(from, at + number_size(text, at));
                assert forall|i: int| 0 <= i < body.len() implies is_number_char(
                    #[trigger] body[i],
                ) by {
                    assert(body[i] == text[from + i]);
                }
                assert(is_number_token(token));
            }
        }
        match lex(text, at + size) {
            Ok(rest) => {
                let found = seq![token] + rest;
                assert forall|i: int| 0 <= i < found.len() implies is_command_token(
                    #[trigger] found[i],
                ) || is_number_token(found[i]) by {
                    if i > 0 {
                        assert(found[i] == rest[i - 1]);
                    }
                }
            },
            Err(c) => {},
        }
    }
}

/// The characters that path data is made of: the separators, the command
/// letters, the two signs, the digits and the dot.
pub open spec fn is_path_char(c: char) -> bool {
    is_separator(c) || is_command_letter(c) || c == '+' || c == '-' || is_number_char(c)
}

/// A text has tokens throughout exactly when it is made of path characters
/// only. Where it is not, the first character of another kind is the one
/// that is reported.
pub proof fn lemma_lex_outcome(text: Seq<char>, pos: int)
    requires
        0 <= pos,
    ensures
        lex(text, pos) is Ok <==> forall|i: int|
            pos <= i < text.len() ==> is_path_char(#[trigger] text[i]),
        lex(text, pos) matches Err(c) ==> exists|i: int|
            pos <= i < text.len() && #[trigger] text[i] == c && !is_path_char(c) && forall|j: int|
                pos <= j < i ==> is_path_char(#[trigger] text[j]),
    decreases text.len() - pos,
{
    lemma_separator_run(text, pos);
    let at = pos + separator_run(text, pos);
    let size = token_size(text, at);
    if at < text.len() {
        lemma_token_size(text, at);
        lemma_number_run(text, at + sign_len(text, at));
        if size == 0 {
            assert(!is_path_char(text[at]));
            assert(forall|j: int| pos <= j < at ==> is_path_char(#[trigger] text[j]));
        } else {
            lemma_lex_outcome(text, at + size);
            assert forall|j: int| pos <= j < at + size implies is_path_char(
                #[trigger] text[j],
            ) by {
                if j >= at && number_size(text, at) > 0 && j >= at + sign_len(text, at) {
                    assert(is_number_char(text[j]));
                }
            }
            match lex(text, at + size) {
                Ok(rest) => {},
                Err(c) => {
                    let i = choose|i: int|
                        at + size <= i < text.len() && #[trigger] text[i] == c && !is_path_char(c)
                            && forall|j: int| at + size <= j < i ==> is_path_char(#[trigger] text[j]);
                    assert(pos <= i < text.len() && text[i] == c);
                    assert(forall|j: int| pos <= j < i ==> is_path_char(#[trigger] text[j]));
                    assert(!is_path_char(text[i]));
                },
            }
        }
    }
}

/// Two texts are alike when they differ at most in which separator stands
/// where.
pub open spec fn alike(a: Seq<char>, b: Seq<char>) -> bool {
    &&& a.len() == b.len()
    &&& forall|i: int|
        0 <= i < a.len() ==> #[trigger] a[i] == b[i] || (is_separator(a[i]) && is_separator(b[i]))
}

/// Texts that are alike have their runs of separators in the same places.
proof fn lemma_alike_separator_run(a: Seq<char>, b: Seq<char>, from: int)
    requires
        alike(a, b),
    ensures
        separator_run(a, from) == separator_run(b, from),
    decreases a.len() - from,
{
    if 0 <= from < a.len() {
        assert(a[from] == b[from] || (is_separator(a[from]) && is_separator(b[from])));
        if is_separator(a[from]) {
            lemma_alike_separator_run(a, b, from + 1);
        }
    }
}

/// Texts that are alike have their runs of digits and dots in the same
/// places.
proof fn lemma_alike_number_run(a: Seq<char>, b: Seq<char>, from: int)
    requires
        alike(a, b),
    ensures
        number_run(a, from) == number_run(b, from),
    decreases a.len() - from,
{
    if 0 <= from < a.len() {
        assert(a[from] == b[from] || (is_separator(a[from]) && is_separator(b[from])));
        if is_number_char(a[from]) {
            lemma_alike_number_run(a, b, from + 1);
        }
    }
}

/// Texts that are alike have the same token at each place where one starts.
proof fn lemma_alike_token(a: Seq<char>, b: Seq<char>, at: int)
    requires
        alike(a, b),
        0 <= at < a.len(),
    ensures
        token_size(a, at) == token_size(b, at),
        token_size(a, at) > 0 ==> token_text(a, at) == token_text(b, at),
{
    assert(a[at] == b[at] || (is_separator(a[at]) && is_separator(b[at])));
    let from = at + sign_len(a, at);
    lemma_alike_number_run(a, b, from);
    if number_size(a, at) > 0 {
        lemma_number_run(a, from);
        let until = at + number_size(a, at);
        assert(a.subrange(from, until) =~= b.subrange(from, until)) by {
            assert forall|i: int| from <= i < until implies a[i] == b[i] by {
                assert(is_number_char(a[i]));
                assert(a[i] == b[i] || (is_separator(a[i]) && is_separator(b[i])));
            }
        }
    }
}

/// Which separator stands between two tokens makes no difference: a comma
/// weighs no more than a space. Texts that are alike have the same tokens,
/// or fail at the same character.
pub proof fn lemma_separators_alike(a: Seq<char>, b: Seq<char>, pos: int)
    requires
        alike(a, b),
    ensures
        lex(a, pos) == lex(b, pos),
    decreases a.len() - pos,
{
    lemma_alike_separator_run(a, b, pos);
    let at = pos + separator_run(a, pos);
    if pos >= 0 && at < a.len() {
        lemma_alike_token(a, b, at);
        lemma_token_size(a, at);
        if token_size(a, at) == 0 {
            lemma_separator_run(a, pos);
            assert(a[at] == b[at] || (is_separator(a[at]) && is_separator(b[at])));
        } else {
            lemma_separators_alike(a, b, at + token_size(a, at));
        }
    }
}

/// How many parameters one segment of a command takes. A character that is
/// no command takes none.
pub open spec fn param_count(command: char) -> nat {
    if command == 'H' || command == 'h' || command == 'V' || command == 'v' {
        1
    } else if command == 'M' || command == 'm' || command == 'L' || command == 'l' || command
        == 'T' || command == 't' {
        2
    } else if command == 'Q' || command == 'q' || command == 'S' || command == 's' {
        4
    } else if command == 'C' || command == 'c' {
        6
    } else if command == 'A' || command == 'a' {
        7
    } else {
        0
    }
}

/// The two letters that close a subpath. They take no parameters.
pub open spec fn is_closepath(c: char) -> bool {
    c == 'Z' || c == 'z'
}

/// A command that the parameter groups that follow it can repeat: any but
/// the closepath.
pub open spec fn is_repeatable(c: char) -> bool {
    is_command_letter(c) && !is_closepath(c)
}

/// The place of the first token from `from` up to `to` that is no number;
/// `to` where each is one.
pub open spec fn first_bad(tokens: Seq<Seq<char>>, from: int, to: int) -> int
    decreases to - from,
{
    if from >= to {
        to
    } else if !is_float_literal(tokens[from]) {
        from
    } else {
        first_bad(tokens, from + 1, to)
    }
}

/// The command of the segment that starts at `pos`: the letter that stands
/// there, or else the repeated `command`.
pub open spec fn command_at(tokens: Seq<Seq<char>>, pos: int, command: char) -> char {
    if is_command_token(tokens[pos]) {
        tokens[pos][0]
    } else {
        command
    }
}

/// Where the parameters of the segment that starts at `pos` start: behind
/// its letter, where it has one.
pub open spec fn first_param(tokens: Seq<Seq<char>>, pos: int) -> int {
    if is_command_token(tokens[pos]) {
        pos + 1
    } else {
        pos
    }
}

/// Where the segment that starts at `pos` ends.
pub open spec fn segment_end(tokens: Seq<Seq<char>>, pos: int, command: char) -> int {
    first_param(tokens, pos) + param_count(command_at(tokens, pos, command))
}

/// The segments that the tokens from `pos` on make, where `command` is the
/// command that a group of parameters without a letter of its own repeats.
///
/// A command letter starts a segment of that command; any other token starts
/// one of the repeated command and is its first parameter. The segment takes
/// as many tokens as its command has parameters, and each must be a number.
/// A closepath is a segment by itself and is never repeated: parameters
/// behind it belong to the command that was repeated before it. With a
/// repeated command that takes no parameters the tokens would never run out,
/// so there they count as used up.
pub open spec fn build(tokens: Seq<Seq<char>>, pos: int, command: char) -> Result<
    Seq<SegmentView>,
    ParseErrorView,
>
    decreases tokens.len() - pos,
{
    if pos < 0 || pos >= tokens.len() {
        Ok(Seq::empty())
    } else {
        let current = command_at(tokens, pos, command);
        let first = first_param(tokens, pos);
        let until = segment_end(tokens, pos, command);
        let bad = first_bad(tokens, first, until);
        if until > tokens.len() {
            Err(ParseErrorView::InsufficientParameters(current))
        } else if bad < until {
            Err(ParseErrorView::UnexpectedParameter(tokens[bad]))
        } else if until <= pos {
            Ok(Seq::empty())
        } else {
            let segment = SegmentView { command: current, values: tokens.subrange(first, until) };
            let repeated = if is_closepath(current) {
                command
            } else {
                current
            };
            match build(tokens, until, repeated) {
                Ok(rest) => Ok(seq![segment] + rest),
                Err(e) => Err(e),
            }
        }
    }
}

/// The segments of a sequence of tokens. Before the first command letter a
/// group of parameters counts as a moveto.
pub open spec fn segments(tokens: Seq<Seq<char>>) -> Result<Seq<SegmentView>, ParseErrorView> {
    build(tokens, 0, 'M')
}

/// The segments of a path string: those of its tokens, where it has tokens
/// throughout.
pub open spec fn parse_text(text: Seq<char>) -> Result<Seq<SegmentView>, ParseErrorView> {
    match tokens(text) {
        Ok(found) => segments(found),
        Err(c) => Err(ParseErrorView::InvalidToken(c)),
    }
}

/// What a reading gave, with texts as sequences of characters.
pub open spec fn outcome(r: Result<Vec<PathSegment>, ParseError>) -> Result<
    Seq<SegmentView>,
    ParseErrorView,
> {
    match r {
        Ok(found) => Ok(views(found@)),
        Err(e) => Err(e@),
    }
}

/// Every segment of `found` is well formed.
pub open spec fn all_well_formed(found: Seq<SegmentView>) -> bool {
    forall|i: int| 0 <= i < found.len() ==> (#[trigger] found[i]).well_formed()
}

/// What a result gives when `head` is put before its segments: a failure
/// stays as it is.
pub open spec fn following(
    head: Seq<SegmentView>,
    rest: Result<Seq<SegmentView>, ParseErrorView>,
) -> Result<Seq<SegmentView>, ParseErrorView> {
    match rest {
        Ok(tail) => Ok(head + tail),
        Err(e) => Err(e),
    }
}

/// How many parameters one segment of `command` takes.
pub fn get_param_count(command: char) -> (n: usize)
    ensures
        n == param_count(command),
{
    match command {
        'H' | 'h' | 'V' | 'v' => 1,
        'M' | 'm' | 'L' | 'l' | 'T' | 't' => 2,
        'Q' | 'q' | 'S' | 's' => 4,
        'C' | 'c' => 6,
        'A' | 'a' => 7,
        _ => 0,
    }
}

/// The command that a token names, where it is a command letter by itself.
fn command_of(token: &String) -> (r: Option<char>)
    ensures
        is_command_token(token@) ==> r == Some(token@[0]),
        !is_command_token(token@) ==> r is None,
{
    let chars = chars_of(token.as_str());
    if chars.len() == 1 {
        is_command(chars[0])
    } else {
        None
    }
}

/// Copies the tokens from `first` up to `until`, or finds the first that is
/// no number.
fn read_values(src: &Vec<String>, first: usize, until: usize) -> (r: Result<Vec<String>, String>)
    requires
        first <= until <= src.len(),
    ensures
        r matches Ok(values) ==> first_bad(texts(src@), first as int, until as int) == until
            && texts(values@) == texts(src@).subrange(first as int, until as int),
        r matches Err(token) ==> first_bad(texts(src@), first as int, until as int) < until
            && token@ == texts(src@)[first_bad(texts(src@), first as int, until as int)],
{
    let mut values: Vec<String> = Vec::new();
    let mut i: usize = first;
    proof {
        assert(texts(values@) =~= texts(src@).subrange(first as int, i as int));
    }
    while i < until
        invariant
            first <= i <= until <= src.len(),
            first_bad(texts(src@), first as int, until as int) == first_bad(
                texts(src@),
                i as int,
                until as int,
            ),
            values.len() == i - first,
            texts(values@) == texts(src@).subrange(first as int, i as int),
        decreases until - i,
    {
        let token = src[i].clone();
        if !float_literal(token.as_str()) {
            return Err(token);
        }
        proof {
            let old_texts = texts(values@);
            let new_texts = texts(values@.push(token));
            let wanted = texts(src@).subrange(first as int, i + 1);
            assert(new_texts.len() == wanted.len());
            assert forall|j: int| 0 <= j < new_texts.len() implies new_texts[j] == wanted[j] by {
                if j < values@.len() {
                    assert(new_texts[j] == old_texts[j]);
                    assert(old_texts[j] == texts(src@).subrange(first as int, i as int)[j]);
                } else {
                    assert(new_texts[j] == token@);
                }
            }
            assert(new_texts =~= wanted);
        }
        values.push(token);
        i += 1;
    }
    Ok(values)
}

/// Groups tokens into segments. A command letter opens a segment; a group of
/// parameters without a letter repeats the last command that was not a
/// closepath, and before any such command counts as a moveto. Fails where
/// the tokens end before a segment has its parameters, and where a parameter
/// is no number.
pub fn to_segments(src: &Vec<String>) -> (r: Result<Vec<PathSegment>, ParseError>)
    ensures
        outcome(r) == segments(texts(src@)),
        r matches Ok(found) ==> all_well_formed(views(found@)),
{
    let ghost all = texts(src@);
    let mut ret: Vec<PathSegment> = Vec::new();
    let mut command = 'M';
    let mut cursor: usize = 0;
    let len = src.len();
    proof {
        assert(views(ret@) =~= Seq::empty());
        match build(all, 0, 'M') {
            Ok(tail) => {
                assert(views(ret@) + tail =~= tail);
            },
            Err(e) => {},
        }
    }
    while cursor < len
        invariant
            len == src.len(),
            all == texts(src@),
            cursor <= len,
            is_repeatable(command),
            segments(all) == following(views(ret@), build(all, cursor as int, command)),
        decreases len - cursor,
    {
        let ghost before = views(ret@);
        let ghost pos = cursor as int;
        let (current, first) = match command_of(&src[cursor]) {
            Some(c) => (c, cursor + 1),
            None => (command, cursor),
        };
        let count = get_param_count(current);
        if count > len - first {
            return Err(ParseError::InsufficientParameters(current));
        }
        let until = first + count;
        let values = match read_values(src, first, until) {
            Ok(values) => values,
            Err(token) => {
                return Err(ParseError::UnexpectedParameter(token));
            },
        };
        let segment = PathSegment::new(current, values);
        let repeated = if current == 'Z' || current == 'z' {
            command
        } else {
            current
        };
        proof {
            assert(until > pos);
            assert(views(ret@.push(segment)) =~= before.push(segment@));
            match build(all, until as int, repeated) {
                Ok(tail) => {
                    assert(before + (seq![segment@] + tail) =~= before.push(segment@) + tail);
                },
                Err(e) => {},
            }
        }
        ret.push(segment);
        command = repeated;
        cursor = until;
    }
    proof {
        assert(views(ret@) + Seq::<SegmentView>::empty() =~= views(ret@));
        lemma_build_well_formed(all, 0, 'M');
    }
    Ok(ret)
}

/// Reads a path string into its segments.
pub fn parse(d: &str) -> (r: Result<Vec<PathSegment>, ParseError>)
    ensures
        outcome(r) == parse_text(d@),
        r matches Ok(found) ==> all_well_formed(views(found@)),
{
    match split(d) {
        Ok(found) => to_segments(&found),
        Err(e) => Err(e),
    }
}

/// Every token from `from` up to `to` is a number exactly when none of them
/// is the first that is not, and the first that is not lies in that range.
pub proof fn lemma_first_bad(tokens: Seq<Seq<char>>, from: int, to: int)
    requires
        from <= to,
    ensures
        from <= first_bad(tokens, from, to) <= to,
        forall|i: int|
            from <= i < first_bad(tokens, from, to) ==> is_float_literal(#[trigger] tokens[i]),
        first_bad(tokens, from, to) < to ==> !is_float_literal(
            tokens[first_bad(tokens, from, to)],
        ),
    decreases to - from,
{
    if from < to && is_float_literal(tokens[from]) {
        lemma_first_bad(tokens, from + 1, to);
    }
}

/// The segments that tokens make are well formed: each has a command letter,
/// as many parameters as the command takes, and numbers for parameters.
pub proof fn lemma_build_well_formed(tokens: Seq<Seq<char>>, pos: int, command: char)
    requires
        is_repeatable(command),
    ensures
        build(tokens, pos, command) matches Ok(found) ==> all_well_formed(found),
    decreases tokens.len() - pos,
{
    if 0 <= pos < tokens.len() {
        let current = command_at(tokens, pos, command);
        let first = first_param(tokens, pos);
        let until = segment_end(tokens, pos, command);
        lemma_first_bad(tokens, first, until);
        if until <= tokens.len() && first_bad(tokens, first, until) == until && until > pos {
            let segment = SegmentView { command: current, values: tokens.subrange(first, until) };
            let repeated = if is_closepath(current) {
                command
            } else {
                current
            };
            assert(segment.well_formed()) by {
                assert forall|i: int| 0 <= i < segment.values.len() implies is_float_literal(
                    #[trigger] segment.values[i],
                ) by {
                    assert(segment.values[i] == tokens[first + i]);
                }
            }
            lemma_build_well_formed(tokens, until, repeated);
            match build(tokens, until, repeated) {
                Ok(rest) => {
                    let found = seq![segment] + rest;
                    assert forall|i: int| 0 <= i < found.len() implies (
                    #[trigger] found[i]).well_formed() by {
                        if i > 0 {
                            assert(found[i] == rest[i - 1]);
                        }
                    }
                },
                Err(e) => {},
            }
        }
    }
}

/// The tokens from `from` on that are no command letters, in their order.
pub open spec fn numbers_from(tokens: Seq<Seq<char>>, from: int) -> Seq<Seq<char>>
    decreases tokens.len() - from,
{
    if from < 0 || from >= tokens.len() {
        Seq::empty()
    } else if is_command_token(tokens[from]) {
        numbers_from(tokens, from + 1)
    } else {
        seq![tokens[from]] + numbers_from(tokens, from + 1)
    }
}

/// The parameters of a sequence of segments, in their order.
pub open spec fn parameters(found: Seq<SegmentView>) -> Seq<Seq<char>>
    decreases found.len(),
{
    if found.len() == 0 {
        Seq::empty()
    } else {
        found[0].values + parameters(found.drop_first())
    }
}

/// A stretch of tokens without a command letter is kept whole.
proof fn lemma_numbers_run(tokens: Seq<Seq<char>>, from: int, to: int)
    requires
        0 <= from <= to <= tokens.len(),
        forall|i: int| from <= i < to ==> !is_command_token(#[trigger] tokens[i]),
    ensures
        numbers_from(tokens, from) == tokens.subrange(from, to) + numbers_from(tokens, to),
    decreases to - from,
{
    if from < to {
        lemma_numbers_run(tokens, from + 1, to);
        assert(seq![tokens[from]] + (tokens.subrange(from + 1, to) + numbers_from(tokens, to))
            =~= tokens.subrange(from, to) + numbers_from(tokens, to));
    } else {
        assert(tokens.subrange(from, to) + numbers_from(tokens, to) =~= numbers_from(
            tokens,
            to,
        ));
    }
}

/// Where the tokens make segments, every token that is no command letter is
/// a parameter of exactly one of them: the parameters of the segments, read
/// in order, are those tokens in their order. None is dropped, none is used
/// twice, and a closepath takes none of them.
pub proof fn lemma_parameters_kept(tokens: Seq<Seq<char>>, pos: int, command: char)
    requires
        0 <= pos,
        is_repeatable(command),
    ensures
        build(tokens, pos, command) matches Ok(found) ==> parameters(found) == numbers_from(
            tokens,
            pos,
        ),
    decreases tokens.len() - pos,
{
    if pos < tokens.len() {
        let current = command_at(tokens, pos, command);
        let first = first_param(tokens, pos);
        let until = segment_end(tokens, pos, command);
        lemma_first_bad(tokens, first, until);
        if until <= tokens.len() && first_bad(tokens, first, until) == until {
            let segment = SegmentView { command: current, values: tokens.subrange(first, until) };
            let repeated = if is_closepath(current) {
                command
            } else {
                current
            };
            lemma_parameters_kept(tokens, until, repeated);
            assert forall|i: int| first <= i < until implies !is_command_token(
                #[trigger] tokens[i],
            ) by {
                if is_command_token(tokens[i]) {
                    lemma_command_is_no_number(tokens[i]);
                }
            }
            lemma_numbers_run(tokens, first, until);
            match build(tokens, until, repeated) {
                Ok(rest) => {
                    let found = seq![segment] + rest;
                    assert(found.drop_first() =~= rest);
                    assert(found[0] == segment);
                },
                Err(e) => {},
            }
        }
    }
}

/// A token has a digit.
pub open spec fn has_digit(token: Seq<char>) -> bool {
    exists|i: int| 0 <= i < token.len() && is_digit(#[trigger] token[i])
}

/// A token has no more than one dot.
pub open spec fn has_one_dot_at_most(token: Seq<char>) -> bool {
    forall|i: int, j: int|
        0 <= i < j < token.len() ==> !(#[trigger] token[i] == '.' && #[trigger] token[j] == '.')
}

/// Of the number tokens, which are cut without a look at their dots, those
/// are numbers that have a digit and no second dot: `1.2.3`, a lone dot and
/// a lone sign are tokens and no numbers.
pub proof fn lemma_number_token_is_number(token: Seq<char>)
    requires
        is_number_token(token),
    ensures
        is_float_literal(token) <==> has_digit(token) && has_one_dot_at_most(token),
{
    let from = sign_at(token, 0);
    let len = token.len() as int;
    assert(forall|i: int| from <= i < len ==> is_number_char(#[trigger] token[i]));
    assert(!special_from(token, from)) by {
        if special_from(token, from) {
            assert(is_number_char(token[from + 0]));
        }
    }
    if is_float_literal(token) {
        let end = choose|end: int|
            from <= end <= token.len() && #[trigger] mantissa_between(token, from, end) && (end
                == token.len() || exponent_between(token, end, token.len() as int));
        if end < len {
            assert(is_number_char(token[end]));
        }
        if from < len && digits_between(token, from, len) {
            assert(is_digit(token[from]));
        } else {
            let dot = choose|dot: int|
                from <= dot < len && #[trigger] token[dot] == '.' && len - from > 1
                    && digits_between(token, from, dot) && digits_between(token, dot + 1, len);
            if dot > from {
                assert(is_digit(token[from]));
            } else {
                assert(is_digit(token[from + 1]));
            }
            assert forall|i: int, j: int| 0 <= i < j < len implies !(#[trigger] token[i] == '.'
                && #[trigger] token[j] == '.') by {
                if token[i] == '.' && token[j] == '.' {
                    if i != dot && i >= from {
                        assert(is_digit(token[i]));
                    }
                    if j != dot {
                        assert(is_digit(token[j]));
                    }
                }
            }
        }
    }
    if has_digit(token) && has_one_dot_at_most(token) {
        let d = choose|i: int| 0 <= i < token.len() && is_digit(#[trigger] token[i]);
        assert(from <= d);
        if exists|k: int| from <= k < len && #[trigger] token[k] == '.' {
            let dot = choose|k: int| from <= k < len && #[trigger] token[k] == '.';
            assert forall|i: int| from <= i < dot implies is_digit(#[trigger] token[i]) by {
                assert(is_number_char(token[i]));
                assert(!(token[i] == '.' && token[dot] == '.'));
            }
            assert forall|i: int| dot + 1 <= i < len implies is_digit(#[trigger] token[i]) by {
                assert(is_number_char(token[i]));
                assert(!(token[dot] == '.' && token[i] == '.'));
            }
            assert(d != dot);
            assert(mantissa_between(token, from, len));
        } else {
            assert forall|i: int| from <= i < len implies is_digit(#[trigger] token[i]) by {
                assert(is_number_char(token[i]));
            }
            assert(mantissa_between(token, from, len));
        }
        assert(number_from(token, from));
    }
}

/// A command letter is no number.
pub proof fn lemma_command_is_no_number(token: Seq<char>)
    requires
        is_command_token(token),
    ensures
        !is_float_literal(token),
{
    assert(sign_at(token, 0) == 0);
    assert(!is_digit(token[0]));
    assert(!special_from(token, 0));
    assert forall|end: int| 0 <= end <= token.len() implies !#[trigger] mantissa_between(
        token,
        0,
        end,
    ) by {
        if end == 1 {
            assert(!digits_between(token, 0, 1));
        }
    }
}

/// A command letter that stands where a segment still lacks a parameter
/// fails the reading, and so does anything else there that is no number:
/// the first such token is reported as an unexpected parameter.
pub proof fn lemma_letter_among_parameters(
    tokens: Seq<Seq<char>>,
    pos: int,
    command: char,
    at: int,
)
    requires
        0 <= pos < tokens.len(),
        segment_end(tokens, pos, command) <= tokens.len(),
        first_param(tokens, pos) <= at < segment_end(tokens, pos, command),
        is_command_token(tokens[at]) || !is_float_literal(tokens[at]),
    ensures
        build(tokens, pos, command) == Err::<Seq<SegmentView>, ParseErrorView>(
            ParseErrorView::UnexpectedParameter(
                tokens[first_bad(
                    tokens,
                    first_param(tokens, pos),
                    segment_end(tokens, pos, command),
                )],
            ),
        ),
        first_param(tokens, pos) <= first_bad(
            tokens,
            first_param(tokens, pos),
            segment_end(tokens, pos, command),
        ) <= at,
{
    if is_command_token(tokens[at]) {
        lemma_command_is_no_number(tokens[at]);
    }
    lemma_first_bad(tokens, first_param(tokens, pos), segment_end(tokens, pos, command));
}

/// A segment that the tokens end before fails the reading: its command is
/// reported as lacking parameters, whatever the tokens that are there.
pub proof fn lemma_tokens_run_out(tokens: Seq<Seq<char>>, pos: int, command: char)
    requires
        0 <= pos < tokens.len(),
        segment_end(tokens, pos, command) > tokens.len(),
    ensures
        build(tokens, pos, command) == Err::<Seq<SegmentView>, ParseErrorView>(
            ParseErrorView::InsufficientParameters(command_at(tokens, pos, command)),
        ),
{
}

/// Two readings of one text agree: in their segments, letter by letter and
/// parameter by parameter, or in their failure.
pub proof fn lemma_parse_repeats(
    text: Seq<char>,
    first: Result<Vec<PathSegment>, ParseError>,
    second: Result<Vec<PathSegment>, ParseError>,
)
    requires
        outcome(first) == parse_text(text),
        outcome(second) == parse_text(text),
    ensures
        outcome(first) == outcome(second),
{
}

} // verus!
