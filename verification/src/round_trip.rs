//! The canonical text of an expression reads back as the expression.

use vstd::prelude::*;
use vstd::string::StringSliceAdditionalSpecFns;
use crate::parser::{
    arguments_at,
    binary_at,
    binary_rest,
    canonical_list,
    escaped,
    expression_at,
    expression_of,
    find_byte,
    is_identifier_part,
    is_identifier_start,
    is_keyword,
    is_plain_identifier,
    is_space,
    lemma_find_byte,
    lemma_run_end,
    more_arguments_at,
    number_at,
    operator_at,
    piped_at,
    primary_at,
    quoted_at,
    run_end,
    unary_at,
    word_syntax,
    ByteClass,
    Operator,
    Syntax,
    BACKQUOTE,
    BACKSLASH,
    BANG,
    BAR,
    CLOSE_PAREN,
    COMMA,
    DOT,
    DOUBLE_QUOTE,
    LEVELS,
    MINUS_SIGN,
    OPEN_PAREN,
    SINGLE_QUOTE,
    SPACE,
};
use crate::text::{
    all_digits,
    decimal_digits,
    digits_value,
    integer_numeral,
    is_digit,
    numeral_value,
};

verus! {

/// A numeral that the grammar reads as a binary64 value, and as a whole:
/// digits, a point and more digits, or digits alone that are too many for
/// a machine integer.
pub open spec fn is_float_numeral(numeral: Seq<u8>) -> bool {
    let whole = run_end(numeral, 0, ByteClass::Digit);
    &&& whole > 0
    &&& if whole == numeral.len() {
        numeral_value(numeral) is None
    } else {
        &&& numeral[whole] == DOT
        &&& whole + 1 < numeral.len()
        &&& run_end(numeral, whole + 1, ByteClass::Digit) == numeral.len()
    }
}

impl Syntax {
    /// The tree is one that the grammar can yield: no column name holds a
    /// backquote, no integer is negative (a minus sign is the function
    /// `neg`), every numeral of a binary64 value is one, and every function
    /// name can be written as a bare word.
    pub open spec fn well_formed(self) -> bool
        decreases self,
    {
        match self {
            Syntax::Identifier(name) => !name.contains(BACKQUOTE),
            Syntax::Integer(value) => value >= 0,
            Syntax::Float(numeral) => is_float_numeral(numeral),
            Syntax::Call(name, args) => is_plain_identifier(name) && forall|i: int|
                0 <= i < args.len() ==> (#[trigger] args[i]).well_formed(),
            _ => true,
        }
    }
}

/// The text holds `piece` from `pos` on.
pub open spec fn has_at(text: Seq<u8>, pos: int, piece: Seq<u8>) -> bool {
    &&& 0 <= pos
    &&& pos + piece.len() <= text.len()
    &&& text.subrange(pos, pos + piece.len()) == piece
}

/// Nothing that could continue an expression stands at `pos`: the text
/// ends there, or a comma or a closing parenthesis stands there.
pub open spec fn ends_at(text: Seq<u8>, pos: int) -> bool {
    pos == text.len() || (0 <= pos < text.len() && (text[pos] == COMMA || text[pos] == CLOSE_PAREN))
}

/// A piece that the text holds is there byte for byte.
pub proof fn lemma_has_at(text: Seq<u8>, pos: int, piece: Seq<u8>)
    requires
        has_at(text, pos, piece),
    ensures
        forall|i: int| 0 <= i < piece.len() ==> #[trigger] text[pos + i] == piece[i],
{
    assert forall|i: int| 0 <= i < piece.len() implies #[trigger] text[pos + i] == piece[i] by {
        assert(text.subrange(pos, pos + piece.len())[i] == text[pos + i]);
    }
}

/// Where the text holds two pieces on end, it holds each.
pub proof fn lemma_has_both(text: Seq<u8>, pos: int, first: Seq<u8>, second: Seq<u8>)
    requires
        has_at(text, pos, first + second),
    ensures
        has_at(text, pos, first),
        has_at(text, pos + first.len(), second),
{
    lemma_has_at(text, pos, first + second);
    assert(text.subrange(pos, pos + first.len()) =~= first) by {
        assert forall|i: int| 0 <= i < first.len() implies text[pos + i] == first[i] by {
            assert((first + second)[i] == first[i]);
        }
    }
    assert(text.subrange(pos + first.len(), pos + first.len() + second.len()) =~= second) by {
        assert forall|i: int| 0 <= i < second.len() implies text[pos + first.len() + i]
            == second[i] by {
            assert((first + second)[first.len() + i] == second[i]);
            assert(text[pos + (first.len() + i)] == (first + second)[first.len() + i]);
        }
    }
}

/// A run of bytes of a class that is followed by no byte of the class ends
/// where it ends.
pub proof fn lemma_run_is(text: Seq<u8>, pos: int, end: int, class: ByteClass)
    requires
        0 <= pos <= end <= text.len(),
        forall|i: int| pos <= i < end ==> class.spec_holds(#[trigger] text[i]),
        end == text.len() || !class.spec_holds(text[end]),
    ensures
        run_end(text, pos, class) == end,
    decreases end - pos,
{
    if pos < end {
        lemma_run_is(text, pos + 1, end, class);
    }
}

/// The first byte of a kind is found where it stands.
pub proof fn lemma_find_is(text: Seq<u8>, pos: int, at: int, byte: u8)
    requires
        0 <= pos <= at < text.len(),
        text[at] == byte,
        forall|i: int| pos <= i < at ==> #[trigger] text[i] != byte,
    ensures
        find_byte(text, pos, byte) == Some(at),
    decreases at - pos,
{
    if pos < at {
        lemma_find_is(text, pos + 1, at, byte);
    }
}

/// The digits of a number are digits, at least one, and denote the number.
pub proof fn lemma_decimal_digits(n: nat)
    ensures
        decimal_digits(n).len() >= 1,
        all_digits(decimal_digits(n)),
        digits_value(decimal_digits(n)) == n,
    decreases n,
{
    if n >= 10 {
        lemma_decimal_digits(n / 10);
        let shorter = decimal_digits(n / 10);
        let digits = decimal_digits(n);
        assert(digits.drop_last() =~= shorter);
        assert forall|i: int| 0 <= i < digits.len() implies is_digit(#[trigger] digits[i]) by {
            if i < shorter.len() {
                assert(digits[i] == shorter[i]);
            }
        }
    } else {
        let digits = decimal_digits(n);
        assert(digits.drop_last() =~= Seq::<u8>::empty());
        assert(digits_value(digits.drop_last()) == 0);
    }
}

/// The numeral of a machine integer that is not negative denotes it.
pub proof fn lemma_numeral_of_integer(value: i64)
    requires
        value >= 0,
    ensures
        numeral_value(integer_numeral(value as int)) == Some(value),
{
    lemma_decimal_digits(value as nat);
    let digits = decimal_digits(value as nat);
    assert(is_digit(digits[0]));
}

/// The content of a string is read back from its escaped form and the
/// closing quote.
pub proof fn lemma_reads_escaped(text: Seq<u8>, pos: int, content: Seq<u8>)
    requires
        has_at(text, pos, escaped(content) + seq![DOUBLE_QUOTE]),
    ensures
        quoted_at(text, pos, DOUBLE_QUOTE) == Some((content, pos + escaped(content).len() + 1)),
    decreases content.len(),
{
    let piece = escaped(content) + seq![DOUBLE_QUOTE];
    lemma_has_at(text, pos, piece);
    if content.len() == 0 {
        assert(text[pos + 0] == piece[0]);
    } else {
        let rest = content.skip(1);
        let head = if content[0] == DOUBLE_QUOTE || content[0] == BACKSLASH {
            seq![BACKSLASH, content[0]]
        } else {
            seq![content[0]]
        };
        assert(escaped(content) == head + escaped(rest));
        assert(piece =~= head + (escaped(rest) + seq![DOUBLE_QUOTE]));
        lemma_has_both(text, pos, head, escaped(rest) + seq![DOUBLE_QUOTE]);
        lemma_reads_escaped(text, pos + head.len(), rest);
        assert(text[pos + 0] == piece[0]);
        assert(content =~= seq![content[0]] + rest);
        if content[0] == DOUBLE_QUOTE || content[0] == BACKSLASH {
            assert(text[pos + 1] == piece[1]);
            assert(piece[0] == BACKSLASH);
            assert(piece[1] == content[0]);
        } else {
            assert(piece[0] == content[0]);
        }
    }
}

/// A byte with which the canonical text of an expression can start: a
/// backquote, a double quote, a digit, a letter or an underscore.
pub open spec fn starts_primary(byte: u8) -> bool {
    byte == BACKQUOTE || byte == DOUBLE_QUOTE || is_digit(byte) || is_identifier_start(byte)
}

/// The three keywords are bare words, each different from the others.
pub proof fn lemma_keywords()
    ensures
        "true".spec_bytes() == seq![116u8, 114u8, 117u8, 101u8],
        "false".spec_bytes() == seq![102u8, 97u8, 108u8, 115u8, 101u8],
        "null".spec_bytes() == seq![110u8, 117u8, 108u8, 108u8],
        is_plain_identifier("true".spec_bytes()),
        is_plain_identifier("false".spec_bytes()),
        is_plain_identifier("null".spec_bytes()),
{
    reveal_strlit("true");
    reveal_strlit("false");
    reveal_strlit("null");
    vstd::string::is_ascii_spec_bytes("true");
    vstd::string::is_ascii_spec_bytes("false");
    vstd::string::is_ascii_spec_bytes("null");
    assert("true".spec_bytes() =~= seq![116u8, 114u8, 117u8, 101u8]);
    assert("false".spec_bytes() =~= seq![102u8, 97u8, 108u8, 115u8, 101u8]);
    assert("null".spec_bytes() =~= seq![110u8, 117u8, 108u8, 108u8]);
}

/// The canonical text of a well-formed expression is not empty and starts
/// with a byte that starts a primary expression.
pub proof fn lemma_canonical_starts(e: Syntax)
    requires
        e.well_formed(),
    ensures
        e.canonical().len() > 0,
        starts_primary(e.canonical()[0]),
{
    match e {
        Syntax::Identifier(name) => {},
        Syntax::Integer(value) => {
            lemma_decimal_digits(value as nat);
            assert(is_digit(decimal_digits(value as nat)[0]));
        },
        Syntax::Float(numeral) => {
            lemma_run_end(numeral, 0, ByteClass::Digit);
            assert(ByteClass::Digit.spec_holds(numeral[0]));
        },
        Syntax::String(content) => {},
        Syntax::Boolean(value) => {
            lemma_keywords();
        },
        Syntax::Null => {
            lemma_keywords();
        },
        Syntax::Call(name, args) => {
            assert(e.canonical()[0] == name[0]);
        },
    }
}

/// A run of blanks that starts at a byte that is no blank, or at the end of
/// the text, is empty.
pub proof fn lemma_no_blanks(text: Seq<u8>, pos: int)
    requires
        0 <= pos <= text.len(),
        pos == text.len() || !is_space(text[pos]),
    ensures
        run_end(text, pos, ByteClass::Space) == pos,
{
}

/// A primary expression after which nothing continues an expression, and
/// which starts with no sign, is the whole expression of every level.
pub proof fn lemma_binary_of_primary(text: Seq<u8>, pos: int, level: nat, e: Syntax, next: int)
    requires
        primary_at(text, pos) == Some((e, next)),
        0 <= pos < next <= text.len(),
        ends_at(text, next),
        text[pos] != MINUS_SIGN,
        text[pos] != BANG,
        level >= 1,
    ensures
        binary_at(text, pos, level) == Some((e, next)),
    decreases LEVELS + 1 - level,
{
    if level > LEVELS {
        assert(unary_at(text, pos) == primary_at(text, pos));
        assert(binary_at(text, pos, level) == unary_at(text, pos));
    } else {
        lemma_binary_of_primary(text, pos, level + 1, e, next);
        lemma_no_blanks(text, next);
        assert(operator_at(text, next) is None);
        assert(binary_rest(text, e, next, level) == Some((e, next)));
        assert(binary_at(text, pos, level) == binary_rest(text, e, next, level));
    }
}

/// A primary expression after which nothing continues an expression, and
/// which starts with no sign, is the whole expression.
pub proof fn lemma_expression_of_primary(text: Seq<u8>, pos: int, e: Syntax, next: int)
    requires
        primary_at(text, pos) == Some((e, next)),
        0 <= pos < next <= text.len(),
        ends_at(text, next),
        text[pos] != MINUS_SIGN,
        text[pos] != BANG,
    ensures
        expression_at(text, pos) == Some((e, next)),
{
    lemma_binary_of_primary(text, pos, 1, e, next);
    lemma_no_blanks(text, next);
}

/// A number is read back from its canonical text.
pub proof fn lemma_reads_number(e: Syntax, text: Seq<u8>, pos: int)
    requires
        e is Integer || e is Float,
        e.well_formed(),
        has_at(text, pos, e.canonical()),
        ends_at(text, pos + e.canonical().len()),
    ensures
        number_at(text, pos) == (e, pos + e.canonical().len()),
        is_digit(text[pos]),
{
    let numeral = e.canonical();
    let end = pos + numeral.len();
    lemma_has_at(text, pos, numeral);
    lemma_canonical_starts(e);
    assert(text[pos + 0] == numeral[0]);
    match e {
        Syntax::Integer(value) => {
            lemma_decimal_digits(value as nat);
            lemma_numeral_of_integer(value);
            assert forall|i: int| pos <= i < end implies ByteClass::Digit.spec_holds(
                #[trigger] text[i],
            ) by {
                assert(text[pos + (i - pos)] == numeral[i - pos]);
            }
            lemma_run_is(text, pos, end, ByteClass::Digit);
        },
        Syntax::Float(_) => {
            let whole = run_end(numeral, 0, ByteClass::Digit);
            lemma_run_end(numeral, 0, ByteClass::Digit);
            assert forall|i: int| pos <= i < pos + whole implies ByteClass::Digit.spec_holds(
                #[trigger] text[i],
            ) by {
                assert(text[pos + (i - pos)] == numeral[i - pos]);
            }
            if whole == numeral.len() {
                lemma_run_is(text, pos, end, ByteClass::Digit);
            } else {
                assert(text[pos + whole] == numeral[whole]);
                lemma_run_is(text, pos, pos + whole, ByteClass::Digit);
                lemma_run_end(numeral, whole + 1, ByteClass::Digit);
                assert(text[pos + (whole + 1)] == numeral[whole + 1]);
                assert(ByteClass::Digit.spec_holds(numeral[whole + 1]));
                assert forall|i: int| pos + whole + 1 <= i < end implies ByteClass::Digit.spec_holds(
                    #[trigger] text[i],
                ) by {
                    assert(text[pos + (i - pos)] == numeral[i - pos]);
                }
                lemma_run_is(text, pos + whole + 1, end, ByteClass::Digit);
            }
        },
        _ => {},
    }
}

/// A word is read back from the bare word: a keyword as its constant, any
/// other as a column name.
pub proof fn lemma_reads_word(word: Seq<u8>, text: Seq<u8>, pos: int)
    requires
        is_plain_identifier(word),
        has_at(text, pos, word),
        ends_at(text, pos + word.len()),
    ensures
        primary_at(text, pos) == Some((word_syntax(word), pos + word.len())),
{
    let end = pos + word.len();
    lemma_has_at(text, pos, word);
    assert(text[pos + 0] == word[0]);
    assert forall|i: int| pos <= i < end implies ByteClass::IdentifierPart.spec_holds(
        #[trigger] text[i],
    ) by {
        assert(text[pos + (i - pos)] == word[i - pos]);
    }
    lemma_run_is(text, pos, end, ByteClass::IdentifierPart);
    lemma_no_blanks(text, end);
}

/// A well-formed expression is read back from its canonical text, wherever
/// that stands, if nothing that continues an expression follows it.
pub proof fn lemma_reads_canonical(e: Syntax, text: Seq<u8>, pos: int)
    requires
        e.well_formed(),
        has_at(text, pos, e.canonical()),
        ends_at(text, pos + e.canonical().len()),
    ensures
        expression_at(text, pos) == Some((e, pos + e.canonical().len())),
    decreases e, 0nat,
{
    let piece = e.canonical();
    let end = pos + piece.len();
    lemma_has_at(text, pos, piece);
    lemma_canonical_starts(e);
    assert(text[pos + 0] == piece[0]);
    match e {
        Syntax::Identifier(name) => {
            if is_plain_identifier(name) && !is_keyword(name) {
                lemma_reads_word(name, text, pos);
            } else {
                assert(piece == seq![BACKQUOTE] + name + seq![BACKQUOTE]);
                assert(text[pos + (name.len() + 1)] == piece[(name.len() + 1) as int]);
                assert forall|i: int| pos + 1 <= i < pos + 1 + name.len() implies #[trigger] text[i]
                    != BACKQUOTE by {
                    assert(text[pos + (i - pos)] == piece[i - pos]);
                    assert(piece[i - pos] == name[i - pos - 1]);
                    assert(name.contains(name[i - pos - 1]));
                }
                lemma_find_is(text, pos + 1, pos + 1 + name.len(), BACKQUOTE);
                assert(text.subrange(pos + 1, pos + 1 + name.len()) =~= name) by {
                    assert forall|i: int| 0 <= i < name.len() implies text[pos + 1 + i]
                        == name[i] by {
                        assert(text[pos + (i + 1)] == piece[i + 1]);
                    }
                }
            }
        },
        Syntax::Integer(_) => {
            lemma_reads_number(e, text, pos);
        },
        Syntax::Float(_) => {
            lemma_reads_number(e, text, pos);
        },
        Syntax::String(content) => {
            assert(piece =~= seq![DOUBLE_QUOTE] + (escaped(content) + seq![DOUBLE_QUOTE]));
            lemma_has_both(text, pos, seq![DOUBLE_QUOTE], escaped(content) + seq![DOUBLE_QUOTE]);
            lemma_reads_escaped(text, pos + 1, content);
        },
        Syntax::Boolean(value) => {
            lemma_keywords();
            lemma_reads_word(piece, text, pos);
        },
        Syntax::Null => {
            lemma_keywords();
            lemma_reads_word(piece, text, pos);
        },
        Syntax::Call(name, args) => {
            let list = canonical_list(args, 0);
            assert(piece =~= name + (seq![OPEN_PAREN] + (list + seq![CLOSE_PAREN])));
            lemma_has_both(text, pos, name, seq![OPEN_PAREN] + (list + seq![CLOSE_PAREN]));
            let paren = pos + name.len();
            lemma_has_both(text, paren, seq![OPEN_PAREN], list + seq![CLOSE_PAREN]);
            lemma_has_at(text, paren, seq![OPEN_PAREN]);
            assert(text[paren + 0] == OPEN_PAREN);
            lemma_has_at(text, pos, name);
            assert forall|i: int| pos <= i < paren implies ByteClass::IdentifierPart.spec_holds(
                #[trigger] text[i],
            ) by {
                assert(text[pos + (i - pos)] == name[i - pos]);
            }
            lemma_run_is(text, pos, paren, ByteClass::IdentifierPart);
            lemma_no_blanks(text, paren);
            assert(text.subrange(pos, paren) == name);
            let inside = paren + 1;
            lemma_has_at(text, inside, list + seq![CLOSE_PAREN]);
            assert(text[inside + 0] == (list + seq![CLOSE_PAREN])[0]);
            if args.len() == 0 {
                assert(list =~= Seq::<u8>::empty());
                lemma_no_blanks(text, inside);
                assert(args =~= Seq::<Syntax>::empty());
            } else {
                lemma_canonical_starts(args[0]);
                lemma_list_starts(args, 0);
                assert((list + seq![CLOSE_PAREN])[0] == list[0]);
                lemma_no_blanks(text, inside);
                lemma_reads_list(args, 0, text, inside);
                assert(args.skip(0) =~= args);
            }
            assert(primary_at(text, pos) == Some((e, end)));
        },
    }
    lemma_expression_of_primary(text, pos, e, end);
}

/// The canonical text of a list starts with that of its first expression.
pub proof fn lemma_list_starts(args: Seq<Syntax>, from: nat)
    requires
        from < args.len(),
        args[from as int].well_formed(),
    ensures
        canonical_list(args, from).len() > 0,
        canonical_list(args, from)[0] == args[from as int].canonical()[0],
{
    lemma_canonical_starts(args[from as int]);
}

/// The expressions of a list are read back from their canonical text and
/// the closing parenthesis.
pub proof fn lemma_reads_list(args: Seq<Syntax>, from: nat, text: Seq<u8>, pos: int)
    requires
        forall|i: int| 0 <= i < args.len() ==> (#[trigger] args[i]).well_formed(),
        from < args.len(),
        has_at(text, pos, canonical_list(args, from) + seq![CLOSE_PAREN]),
    ensures
        more_arguments_at(text, pos) == Some(
            (args.skip(from as int), pos + canonical_list(args, from).len() + 1),
        ),
    decreases args, args.len() - from,
{
    let first = args[from as int];
    let piece = first.canonical();
    let next = pos + piece.len();
    lemma_canonical_starts(first);
    if from + 1 == args.len() {
        lemma_has_both(text, pos, piece, seq![CLOSE_PAREN]);
        lemma_has_at(text, next, seq![CLOSE_PAREN]);
        assert(text[next + 0] == CLOSE_PAREN);
        lemma_reads_canonical(first, text, pos);
        lemma_no_blanks(text, next);
        assert(args.skip(from as int) =~= seq![first]);
    } else {
        let rest = canonical_list(args, from + 1);
        assert(canonical_list(args, from) + seq![CLOSE_PAREN] =~= piece + (seq![COMMA, SPACE] + (rest
            + seq![CLOSE_PAREN])));
        lemma_has_both(text, pos, piece, seq![COMMA, SPACE] + (rest + seq![CLOSE_PAREN]));
        lemma_has_both(text, next, seq![COMMA, SPACE], rest + seq![CLOSE_PAREN]);
        lemma_has_at(text, next, seq![COMMA, SPACE]);
        assert(text[next + 0] == COMMA);
        assert(text[next + 1] == SPACE);
        lemma_reads_canonical(first, text, pos);
        lemma_no_blanks(text, next);
        let following = next + 2;
        lemma_has_at(text, following, rest + seq![CLOSE_PAREN]);
        lemma_list_starts(args, from + 1);
        lemma_canonical_starts(args[(from + 1) as int]);
        assert(text[following + 0] == (rest + seq![CLOSE_PAREN])[0]);
        assert((rest + seq![CLOSE_PAREN])[0] == rest[0]);
        lemma_run_is(text, next + 1, following, ByteClass::Space);
        lemma_reads_list(args, from + 1, text, following);
        assert(args.skip(from as int) =~= seq![first] + args.skip((from + 1) as int));
    }
}

/// The canonical text of a well-formed expression is a source that holds
/// the expression and nothing else.
pub proof fn lemma_canonical_reads_back(e: Syntax)
    requires
        e.well_formed(),
    ensures
        expression_of(e.canonical()) == Some(e),
{
    let text = e.canonical();
    lemma_canonical_starts(e);
    lemma_no_blanks(text, 0);
    assert(text.subrange(0, text.len() as int) =~= text);
    lemma_reads_canonical(e, text, 0);
    lemma_no_blanks(text, text.len() as int);
}

/// Every name that an operator stands for is a bare word.
pub proof fn lemma_operator_names()
    ensures
        forall|operator: Operator| is_plain_identifier(#[trigger] operator.spec_name()),
        is_plain_identifier("neg".spec_bytes()),
        is_plain_identifier("not".spec_bytes()),
{
    reveal_strlit("or");
    reveal_strlit("and");
    reveal_strlit("eq");
    reveal_strlit("ne");
    reveal_strlit("le");
    reveal_strlit("ge");
    reveal_strlit("lt");
    reveal_strlit("gt");
    reveal_strlit("add");
    reveal_strlit("sub");
    reveal_strlit("mul");
    reveal_strlit("div");
    reveal_strlit("neg");
    reveal_strlit("not");
    vstd::string::is_ascii_spec_bytes("or");
    vstd::string::is_ascii_spec_bytes("and");
    vstd::string::is_ascii_spec_bytes("eq");
    vstd::string::is_ascii_spec_bytes("ne");
    vstd::string::is_ascii_spec_bytes("le");
    vstd::string::is_ascii_spec_bytes("ge");
    vstd::string::is_ascii_spec_bytes("lt");
    vstd::string::is_ascii_spec_bytes("gt");
    vstd::string::is_ascii_spec_bytes("add");
    vstd::string::is_ascii_spec_bytes("sub");
    vstd::string::is_ascii_spec_bytes("mul");
    vstd::string::is_ascii_spec_bytes("div");
    vstd::string::is_ascii_spec_bytes("neg");
    vstd::string::is_ascii_spec_bytes("not");
    assert forall|operator: Operator| is_plain_identifier(#[trigger] operator.spec_name()) by {
        match operator {
            Operator::Or => {},
            Operator::And => {},
            Operator::Equal => {},
            Operator::NotEqual => {},
            Operator::LessOrEqual => {},
            Operator::GreaterOrEqual => {},
            Operator::Less => {},
            Operator::Greater => {},
            Operator::Plus => {},
            Operator::Minus => {},
            Operator::Times => {},
            Operator::Divide => {},
        }
    }
}

/// A run within a window of the text ends where the run in the text ends,
/// or at the end of the window if that comes first.
pub proof fn lemma_run_in_window(text: Seq<u8>, from: int, to: int, pos: int, class: ByteClass)
    requires
        0 <= from <= pos <= to <= text.len(),
    ensures
        run_end(text.subrange(from, to), pos - from, class) == if run_end(text, pos, class) <= to {
            run_end(text, pos, class) - from
        } else {
            to - from
        },
    decreases to - pos,
{
    let window = text.subrange(from, to);
    lemma_run_end(text, pos, class);
    if pos < to {
        assert(window[pos - from] == text[pos]);
        if class.spec_holds(text[pos]) {
            lemma_run_in_window(text, from, to, pos + 1, class);
        }
    }
}

/// A run of bytes that are part of identifiers and that starts with a
/// letter or an underscore is a bare word without a backquote.
pub proof fn lemma_word_is_plain(text: Seq<u8>, pos: int)
    requires
        0 <= pos < text.len(),
        is_identifier_start(text[pos]),
    ensures
        pos < run_end(text, pos, ByteClass::IdentifierPart) <= text.len(),
        is_plain_identifier(text.subrange(pos, run_end(text, pos, ByteClass::IdentifierPart))),
        !text.subrange(pos, run_end(text, pos, ByteClass::IdentifierPart)).contains(BACKQUOTE),
{
    let end = run_end(text, pos, ByteClass::IdentifierPart);
    lemma_run_end(text, pos, ByteClass::IdentifierPart);
    lemma_run_end(text, pos + 1, ByteClass::IdentifierPart);
    let word = text.subrange(pos, end);
    assert forall|i: int| 0 <= i < word.len() implies is_identifier_part(#[trigger] word[i]) by {
        assert(ByteClass::IdentifierPart.spec_holds(text[pos + i]));
    }
    assert(word[0] == text[pos]);
}

/// The number that the grammar reads is well formed.
pub proof fn lemma_number_well_formed(text: Seq<u8>, pos: int)
    requires
        0 <= pos < text.len(),
        is_digit(text[pos]),
    ensures
        number_at(text, pos).0.well_formed(),
        pos < number_at(text, pos).1 <= text.len(),
{
    let whole_end = run_end(text, pos, ByteClass::Digit);
    lemma_run_end(text, pos, ByteClass::Digit);
    lemma_run_end(text, pos + 1, ByteClass::Digit);
    if whole_end + 1 < text.len() && text[whole_end] == DOT && is_digit(text[whole_end + 1]) {
        let end = run_end(text, whole_end + 1, ByteClass::Digit);
        lemma_run_end(text, whole_end + 1, ByteClass::Digit);
        lemma_run_end(text, whole_end + 2, ByteClass::Digit);
        let numeral = text.subrange(pos, end);
        lemma_run_in_window(text, pos, end, pos, ByteClass::Digit);
        lemma_run_in_window(text, pos, end, whole_end + 1, ByteClass::Digit);
        assert(numeral[whole_end - pos] == text[whole_end]);
    } else {
        let numeral = text.subrange(pos, whole_end);
        lemma_run_in_window(text, pos, whole_end, pos, ByteClass::Digit);
        assert(numeral[0] == text[pos]);
    }
}

/// The expression that the grammar reads is well formed.
pub proof fn lemma_expression_well_formed(text: Seq<u8>, pos: int)
    requires
        0 <= pos,
    ensures
        expression_at(text, pos) matches Some((e, next)) ==> e.well_formed(),
    decreases text.len() - pos, 9nat,
{
    match binary_at(text, pos, 1) {
        Some((left, next)) => {
            if pos < next <= text.len() {
                lemma_binary_well_formed(text, pos, 1);
                lemma_piped_well_formed(text, left, next);
            }
        },
        None => {},
    }
}

/// What a well-formed expression comes to with the pipes that follow it is
/// well formed.
pub proof fn lemma_piped_well_formed(text: Seq<u8>, left: Syntax, pos: int)
    requires
        0 <= pos,
        left.well_formed(),
    ensures
        piped_at(text, left, pos) matches Some((e, next)) ==> e.well_formed(),
    decreases text.len() - pos, 0nat,
{
    let bar = run_end(text, pos, ByteClass::Space);
    if pos <= bar < text.len() && text[bar] == BAR {
        let start = run_end(text, bar + 1, ByteClass::Space);
        if bar < start < text.len() && is_identifier_start(text[start]) {
            let end = run_end(text, start, ByteClass::IdentifierPart);
            let word = text.subrange(start, end);
            let paren = run_end(text, end, ByteClass::Space);
            lemma_word_is_plain(text, start);
            if start < end <= paren <= text.len() {
                if paren < text.len() && text[paren] == OPEN_PAREN {
                    match arguments_at(text, paren + 1) {
                        Some((args, next)) => {
                            if paren < next <= text.len() {
                                lemma_arguments_well_formed(text, paren + 1);
                                let call = Syntax::Call(word, seq![left] + args);
                                assert forall|i: int| 0 <= i < (seq![left] + args).len() implies (
                                #[trigger] (seq![left] + args)[i]).well_formed() by {
                                    if i > 0 {
                                        assert((seq![left] + args)[i] == args[i - 1]);
                                    }
                                }
                                lemma_piped_well_formed(text, call, next);
                            }
                        },
                        None => {},
                    }
                } else {
                    lemma_piped_well_formed(text, Syntax::Call(word, seq![left]), end);
                }
            }
        }
    }
}

/// The expression of binary operators that the grammar reads is well
/// formed.
pub proof fn lemma_binary_well_formed(text: Seq<u8>, pos: int, level: nat)
    requires
        0 <= pos,
    ensures
        binary_at(text, pos, level) matches Some((e, next)) ==> e.well_formed(),
    decreases text.len() - pos, crate::parser::level_rank(level),
{
    if level > LEVELS {
        lemma_unary_well_formed(text, pos);
    } else {
        match binary_at(text, pos, level + 1) {
            Some((left, next)) => {
                if pos < next <= text.len() {
                    lemma_binary_well_formed(text, pos, level + 1);
                    lemma_binary_rest_well_formed(text, left, next, level);
                }
            },
            None => {},
        }
    }
}

/// What a well-formed operand comes to with the operators and operands
/// that follow it is well formed.
pub proof fn lemma_binary_rest_well_formed(text: Seq<u8>, left: Syntax, pos: int, level: nat)
    requires
        0 <= pos,
        left.well_formed(),
    ensures
        binary_rest(text, left, pos, level) matches Some((e, next)) ==> e.well_formed(),
    decreases text.len() - pos, 0nat,
{
    let at = run_end(text, pos, ByteClass::Space);
    match operator_at(text, at) {
        Some(operator) => {
            if operator.spec_level() == level && pos <= at {
                let start = run_end(text, at + operator.spec_width(), ByteClass::Space);
                if at < start <= text.len() {
                    match binary_at(text, start, level + 1) {
                        Some((right, next)) => {
                            if start < next <= text.len() {
                                lemma_binary_well_formed(text, start, level + 1);
                                lemma_operator_names();
                                let call = crate::parser::binary_call(operator, left, right);
                                assert(is_plain_identifier(operator.spec_name()));
                                assert(call.well_formed());
                                lemma_binary_rest_well_formed(text, call, next, level);
                            }
                        },
                        None => {},
                    }
                }
            }
        },
        None => {},
    }
}

/// The unary expression that the grammar reads is well formed.
pub proof fn lemma_unary_well_formed(text: Seq<u8>, pos: int)
    requires
        0 <= pos,
    ensures
        unary_at(text, pos) matches Some((e, next)) ==> e.well_formed(),
    decreases text.len() - pos, 2nat,
{
    if 0 <= pos < text.len() && (text[pos] == MINUS_SIGN || text[pos] == BANG) {
        let start = run_end(text, pos + 1, ByteClass::Space);
        if pos < start <= text.len() {
            lemma_unary_well_formed(text, start);
            lemma_operator_names();
        }
    } else {
        lemma_primary_well_formed(text, pos);
    }
}

/// The primary expression that the grammar reads is well formed.
pub proof fn lemma_primary_well_formed(text: Seq<u8>, pos: int)
    requires
        0 <= pos,
    ensures
        primary_at(text, pos) matches Some((e, next)) ==> e.well_formed(),
    decreases text.len() - pos, 1nat,
{
    if pos < 0 || pos >= text.len() {
    } else if text[pos] == BACKQUOTE {
        lemma_find_byte(text, pos + 1, BACKQUOTE);
        match find_byte(text, pos + 1, BACKQUOTE) {
            Some(end) => {
                let name = text.subrange(pos + 1, end);
                assert forall|i: int| 0 <= i < name.len() implies name[i] != BACKQUOTE by {
                    assert(name[i] == text[pos + 1 + i]);
                }
            },
            None => {},
        }
    } else if text[pos] == DOUBLE_QUOTE || text[pos] == SINGLE_QUOTE {
    } else if is_digit(text[pos]) {
        lemma_number_well_formed(text, pos);
    } else if is_identifier_start(text[pos]) {
        let end = run_end(text, pos, ByteClass::IdentifierPart);
        let paren = run_end(text, end, ByteClass::Space);
        lemma_word_is_plain(text, pos);
        if pos < end <= paren < text.len() && text[paren] == OPEN_PAREN {
            lemma_arguments_well_formed(text, paren + 1);
        }
    } else if text[pos] == OPEN_PAREN {
        let inner = run_end(text, pos + 1, ByteClass::Space);
        if !(inner <= pos || inner > text.len()) {
            lemma_expression_well_formed(text, inner);
        }
    }
}

/// The arguments that the grammar reads are well formed.
pub proof fn lemma_arguments_well_formed(text: Seq<u8>, pos: int)
    requires
        0 <= pos,
    ensures
        arguments_at(text, pos) matches Some((args, next)) ==> forall|i: int|
            0 <= i < args.len() ==> (#[trigger] args[i]).well_formed(),
    decreases text.len() - pos, 11nat,
{
    let first = run_end(text, pos, ByteClass::Space);
    if first < pos || first > text.len() {
    } else if 0 <= first < text.len() && text[first] == CLOSE_PAREN {
    } else {
        lemma_more_arguments_well_formed(text, first);
    }
}

/// The arguments that the grammar reads are well formed.
pub proof fn lemma_more_arguments_well_formed(text: Seq<u8>, pos: int)
    requires
        0 <= pos,
    ensures
        more_arguments_at(text, pos) matches Some((args, next)) ==> forall|i: int|
            0 <= i < args.len() ==> (#[trigger] args[i]).well_formed(),
    decreases text.len() - pos, 10nat,
{
    match expression_at(text, pos) {
        Some((e, next)) => {
            lemma_expression_well_formed(text, pos);
            let stop = run_end(text, next, ByteClass::Space);
            if next <= pos || stop < next || stop >= text.len() {
            } else if text[stop] == CLOSE_PAREN {
            } else if text[stop] == COMMA {
                let following = run_end(text, stop + 1, ByteClass::Space);
                if !(following <= stop || following > text.len()) {
                    lemma_more_arguments_well_formed(text, following);
                    match more_arguments_at(text, following) {
                        Some((rest, end)) => {
                            assert forall|i: int| 0 <= i < (seq![e] + rest).len() implies (
                            #[trigger] (seq![e] + rest)[i]).well_formed() by {
                                if i > 0 {
                                    assert((seq![e] + rest)[i] == rest[i - 1]);
                                }
                            }
                        },
                        None => {},
                    }
                }
            }
        },
        None => {},
    }
}

/// Parsing an expression and writing it in canonical form gives a source
/// that reads back as the same expression. So whatever is made of the
/// expression, such as its binding to a header, is made the same of what
/// is read back.
pub proof fn lemma_round_trip(source: Seq<u8>, e: Syntax)
    requires
        expression_of(source) == Some(e),
    ensures
        e.well_formed(),
        expression_of(e.canonical()) == Some(e),
{
    lemma_run_end(source, 0, ByteClass::Space);
    lemma_expression_well_formed(source, run_end(source, 0, ByteClass::Space));
    lemma_canonical_reads_back(e);
}

/// Every argument of the aggregation is well formed, and its key is the
/// canonical text of its first argument.
pub open spec fn is_keyed(aggregation: crate::parser::AggregationSyntax) -> bool {
    &&& aggregation.expr_key == crate::parser::expression_key(aggregation.args)
    &&& forall|a: int|
        0 <= a < aggregation.args.len() ==> (#[trigger] aggregation.args[a]).well_formed()
}

/// The aggregations that the grammar reads are keyed by the canonical text
/// of their first argument, and their arguments are well formed.
pub proof fn lemma_aggregations_keyed(text: Seq<u8>, pos: int)
    requires
        0 <= pos,
    ensures
        forall|list: Seq<crate::parser::AggregationSyntax>, i: int|
            crate::parser::aggregations_from(text, pos) == Some(list) && 0 <= i < list.len()
                ==> is_keyed(#[trigger] list[i]),
    decreases text.len() - pos,
{
    match crate::parser::aggregation_at(text, pos) {
        Some((aggregation, next)) => {
            let end = run_end(text, pos, ByteClass::IdentifierPart);
            let paren = run_end(text, end, ByteClass::Space);
            if pos < end <= paren < text.len() {
                lemma_arguments_well_formed(text, paren + 1);
            }
            assert(is_keyed(aggregation));
            let stop = run_end(text, next, ByteClass::Space);
            if next <= pos || stop < next || stop > text.len() {
            } else if stop == text.len() {
            } else if text[stop] == COMMA {
                let following = run_end(text, stop + 1, ByteClass::Space);
                if !(following <= stop || following > text.len()) {
                    lemma_aggregations_keyed(text, following);
                    match crate::parser::aggregations_from(text, following) {
                        Some(rest) => {
                            assert forall|i: int| 0 <= i < (seq![aggregation] + rest).len() implies is_keyed(
                                #[trigger] (seq![aggregation] + rest)[i],
                            ) by {
                                if i > 0 {
                                    assert((seq![aggregation] + rest)[i] == rest[i - 1]);
                                }
                            }
                        },
                        None => {},
                    }
                }
            }
        },
        None => {},
    }
}

/// The key of a parsed aggregation that has an argument is the canonical
/// text of the argument, and a source that holds the argument and nothing
/// else: parsing the key gives the argument back, so binding the key to a
/// header is binding the argument.
pub proof fn lemma_key_reads_back(
    source: Seq<u8>,
    aggregations: Seq<crate::parser::AggregationSyntax>,
    i: int,
)
    requires
        crate::parser::aggregations_of(source) == Some(aggregations),
        0 <= i < aggregations.len(),
        aggregations[i].args.len() > 0,
    ensures
        aggregations[i].expr_key == aggregations[i].args[0].canonical(),
        expression_of(aggregations[i].expr_key) == Some(aggregations[i].args[0]),
{
    lemma_run_end(source, 0, ByteClass::Space);
    let start = run_end(source, 0, ByteClass::Space);
    lemma_aggregations_keyed(source, start);
    assert(crate::parser::aggregations_from(source, start) == Some(aggregations));
    assert(is_keyed(aggregations[i]));
    lemma_canonical_reads_back(aggregations[i].args[0]);
}

} // verus!
