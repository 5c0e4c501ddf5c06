//! The syntax of expressions and of aggregation lists.
//!
//! The grammar is given by the specification functions [`expression_at`],
//! [`primary_at`] and [`arguments_at`], which read a byte string from a
//! position on and answer with the tree that stands there and the position
//! behind it. The executable parser is proved to compute them.

use vstd::prelude::*;
use vstd::string::StringSliceAdditionalSpecFns;
use crate::text::{bytes_eq, copy_bytes, is_digit, numeral_value, parse_integer, DIGIT_NINE, DIGIT_ZERO};

verus! {

pub const SPACE: u8 = 32;

pub const TAB: u8 = 9;

pub const NEWLINE: u8 = 10;

pub const CARRIAGE_RETURN: u8 = 13;

pub const DOUBLE_QUOTE: u8 = 34;

pub const SINGLE_QUOTE: u8 = 39;

pub const OPEN_PAREN: u8 = 40;

pub const CLOSE_PAREN: u8 = 41;

pub const COMMA: u8 = 44;

pub const DOT: u8 = 46;

pub const BACKSLASH: u8 = 92;

pub const UNDERSCORE: u8 = 95;

pub const BACKQUOTE: u8 = 96;

pub const BANG: u8 = 33;

pub const AMPERSAND: u8 = 38;

pub const STAR: u8 = 42;

pub const PLUS_SIGN: u8 = 43;

pub const MINUS_SIGN: u8 = 45;

pub const SLASH: u8 = 47;

pub const LESS_THAN: u8 = 60;

pub const EQUALS: u8 = 61;

pub const GREATER_THAN: u8 = 62;

pub const BAR: u8 = 124;

/// How many levels of binding strength the binary operators have. An
/// operand of the strongest level is a unary expression.
pub const LEVELS: u8 = 5;

/// A class of bytes that a token is made of.
#[derive(Clone, Copy, Debug, PartialEq, Eq, Structural)]
pub enum ByteClass {
    /// Blanks between tokens: space, tab, line feed, carriage return.
    Space,
    /// ASCII letters, digits and the underscore.
    IdentifierPart,
    /// ASCII digits.
    Digit,
}

pub open spec fn is_space(byte: u8) -> bool {
    byte == SPACE || byte == TAB || byte == NEWLINE || byte == CARRIAGE_RETURN
}

pub open spec fn is_identifier_start(byte: u8) -> bool {
    (65 <= byte <= 90) || (97 <= byte <= 122) || byte == UNDERSCORE
}

pub open spec fn is_identifier_part(byte: u8) -> bool {
    is_identifier_start(byte) || is_digit(byte)
}

impl ByteClass {
    pub open spec fn spec_holds(self, byte: u8) -> bool {
        match self {
            ByteClass::Space => is_space(byte),
            ByteClass::IdentifierPart => is_identifier_part(byte),
            ByteClass::Digit => is_digit(byte),
        }
    }

    #[verifier::when_used_as_spec(spec_holds)]
    pub fn holds(self, byte: u8) -> (r: bool)
        ensures
            r == self.spec_holds(byte),
    {
        match self {
            ByteClass::Space => byte == SPACE || byte == TAB || byte == NEWLINE || byte
                == CARRIAGE_RETURN,
            ByteClass::IdentifierPart => (65 <= byte && byte <= 90) || (97 <= byte && byte <= 122)
                || byte == UNDERSCORE || (DIGIT_ZERO <= byte && byte <= DIGIT_NINE),
            ByteClass::Digit => DIGIT_ZERO <= byte && byte <= DIGIT_NINE,
        }
    }
}

/// The end of the longest run of bytes of a class that starts at `pos`.
pub open spec fn run_end(text: Seq<u8>, pos: int, class: ByteClass) -> int
    decreases text.len() - pos,
{
    if 0 <= pos < text.len() && class.spec_holds(text[pos]) {
        run_end(text, pos + 1, class)
    } else {
        pos
    }
}

/// A run ends within the text, holds only bytes of its class and stops at
/// the first byte that is not of it.
pub proof fn lemma_run_end(text: Seq<u8>, pos: int, class: ByteClass)
    requires
        0 <= pos <= text.len(),
    ensures
        pos <= run_end(text, pos, class) <= text.len(),
        forall|i: int| pos <= i < run_end(text, pos, class) ==> class.spec_holds(#[trigger] text[i]),
        run_end(text, pos, class) < text.len() ==> !class.spec_holds(
            text[run_end(text, pos, class)],
        ),
    decreases text.len() - pos,
{
    if pos < text.len() && class.spec_holds(text[pos]) {
        lemma_run_end(text, pos + 1, class);
    }
}

/// Finds the end of the run of bytes of a class that starts at `pos`.
pub fn scan(text: &[u8], pos: usize, class: ByteClass) -> (r: usize)
    requires
        pos <= text.len(),
    ensures
        r == run_end(text@, pos as int, class),
        pos <= r <= text.len(),
{
    let mut i = pos;
    while i < text.len() && class.holds(text[i])
        invariant
            pos <= i <= text.len(),
            run_end(text@, pos as int, class) == run_end(text@, i as int, class),
        decreases text.len() - i,
    {
        i += 1;
    }
    i
}

/// The first position from `pos` on that holds `byte`.
pub open spec fn find_byte(text: Seq<u8>, pos: int, byte: u8) -> Option<int>
    decreases text.len() - pos,
{
    if pos < 0 || pos >= text.len() {
        None
    } else if text[pos] == byte {
        Some(pos)
    } else {
        find_byte(text, pos + 1, byte)
    }
}

/// What `find_byte` finds lies within the text, holds the byte, and no
/// earlier position does.
pub proof fn lemma_find_byte(text: Seq<u8>, pos: int, byte: u8)
    requires
        0 <= pos,
    ensures
        match find_byte(text, pos, byte) {
            Some(at) => pos <= at < text.len() && text[at] == byte && forall|i: int|
                pos <= i < at ==> #[trigger] text[i] != byte,
            None => forall|i: int| pos <= i < text.len() ==> #[trigger] text[i] != byte,
        },
    decreases text.len() - pos,
{
    if pos < text.len() && text[pos] != byte {
        lemma_find_byte(text, pos + 1, byte);
    }
}

/// Finds the first position from `pos` on that holds `byte`.
pub fn find(text: &[u8], pos: usize, byte: u8) -> (r: Option<usize>)
    requires
        pos <= text.len(),
    ensures
        match r {
            Some(at) => find_byte(text@, pos as int, byte) == Some(at as int) && pos <= at
                < text.len(),
            None => find_byte(text@, pos as int, byte) is None,
        },
{
    let mut i = pos;
    while i < text.len()
        invariant
            pos <= i <= text.len(),
            find_byte(text@, pos as int, byte) == find_byte(text@, i as int, byte),
        decreases text.len() - i,
    {
        if text[i] == byte {
            return Some(i);
        }
        i += 1;
    }
    None
}

/// The content of a quoted string whose opening quote stands before `pos`,
/// and the position behind its closing quote. A backslash makes the byte
/// after it part of the content, whatever it is.
pub open spec fn quoted_at(text: Seq<u8>, pos: int, quote: u8) -> Option<(Seq<u8>, int)>
    decreases text.len() - pos,
{
    if pos < 0 || pos >= text.len() {
        None
    } else if text[pos] == quote {
        Some((Seq::empty(), pos + 1))
    } else if text[pos] == BACKSLASH {
        if pos + 1 >= text.len() {
            None
        } else {
            match quoted_at(text, pos + 2, quote) {
                Some((rest, end)) => Some((seq![text[pos + 1]] + rest, end)),
                None => None,
            }
        }
    } else {
        match quoted_at(text, pos + 1, quote) {
            Some((rest, end)) => Some((seq![text[pos]] + rest, end)),
            None => None,
        }
    }
}

/// With `content` read so far, what the whole string comes to.
pub open spec fn quoted_from(content: Seq<u8>, rest: Option<(Seq<u8>, int)>) -> Option<
    (Seq<u8>, int),
> {
    match rest {
        Some((more, end)) => Some((content + more, end)),
        None => None,
    }
}

/// Reads a quoted string whose opening quote stands before `pos`.
pub fn parse_quoted(text: &[u8], pos: usize, quote: u8) -> (r: Option<(Vec<u8>, usize)>)
    requires
        pos <= text.len(),
    ensures
        match r {
            Some((content, end)) => quoted_at(text@, pos as int, quote) == Some(
                (content@, end as int),
            ) && pos < end <= text.len(),
            None => quoted_at(text@, pos as int, quote) is None,
        },
{
    let mut content: Vec<u8> = Vec::new();
    let mut i = pos;
    proof {
        assert(Seq::<u8>::empty() + Seq::<u8>::empty() =~= Seq::<u8>::empty());
        match quoted_at(text@, pos as int, quote) {
            Some((more, end)) => {
                assert(content@ + more =~= more);
            },
            None => {},
        }
    }
    while i < text.len()
        invariant
            pos <= i <= text.len(),
            quoted_at(text@, pos as int, quote) == quoted_from(
                content@,
                quoted_at(text@, i as int, quote),
            ),
        decreases text.len() - i,
    {
        let byte = text[i];
        let ghost before = content@;
        if byte == quote {
            proof {
                assert(before + Seq::<u8>::empty() =~= before);
            }
            return Some((content, i + 1));
        }
        if byte == BACKSLASH {
            if i + 1 >= text.len() {
                return None;
            }
            content.push(text[i + 1]);
            proof {
                match quoted_at(text@, i + 2, quote) {
                    Some((more, end)) => {
                        assert(before + (seq![text@[i + 1]] + more) =~= content@ + more);
                    },
                    None => {},
                }
            }
            i += 2;
        } else {
            content.push(byte);
            proof {
                match quoted_at(text@, i + 1, quote) {
                    Some((more, end)) => {
                        assert(before + (seq![byte] + more) =~= content@ + more);
                    },
                    None => {},
                }
            }
            i += 1;
        }
    }
    None
}

/// An expression as it was written.
#[derive(Debug, PartialEq, Eq)]
pub enum Expr {
    /// The name of a column.
    Identifier(Vec<u8>),
    Integer(i64),
    /// A numeral that is no machine integer, as written. It is rounded to a
    /// binary64 value when the expression is bound to a header.
    Float(Vec<u8>),
    String(Vec<u8>),
    Boolean(bool),
    Null,
    /// A function and its arguments.
    Call(Vec<u8>, Vec<Expr>),
}

/// What an [`Expr`] holds.
pub enum Syntax {
    Identifier(Seq<u8>),
    Integer(i64),
    Float(Seq<u8>),
    String(Seq<u8>),
    Boolean(bool),
    Null,
    Call(Seq<u8>, Seq<Syntax>),
}

impl View for Expr {
    type V = Syntax;

    open spec fn view(&self) -> Syntax {
        self.syntax()
    }
}

impl Expr {
    /// The tree that the expression holds.
    pub open spec fn syntax(&self) -> Syntax
        decreases self, 0nat,
    {
        match self {
            Expr::Identifier(name) => Syntax::Identifier(name@),
            Expr::Integer(value) => Syntax::Integer(*value),
            Expr::Float(numeral) => Syntax::Float(numeral@),
            Expr::String(content) => Syntax::String(content@),
            Expr::Boolean(value) => Syntax::Boolean(*value),
            Expr::Null => Syntax::Null,
            Expr::Call(name, args) => Syntax::Call(name@, leading_syntax(args, args@.len())),
        }
    }
}

/// The trees of the first `count` of the expressions.
pub open spec fn leading_syntax(exprs: &Vec<Expr>, count: nat) -> Seq<Syntax>
    decreases exprs, count,
{
    if count == 0 || count > exprs@.len() {
        Seq::empty()
    } else {
        leading_syntax(exprs, (count - 1) as nat).push(exprs@[count - 1].syntax())
    }
}

/// The trees that a sequence of expressions holds.
pub open spec fn syntax_of(exprs: Seq<Expr>) -> Seq<Syntax> {
    Seq::new(exprs.len(), |i: int| exprs[i]@)
}

/// The leading trees are the trees of the leading expressions.
pub proof fn lemma_leading_syntax(exprs: &Vec<Expr>, count: nat)
    requires
        count <= exprs@.len(),
    ensures
        leading_syntax(exprs, count) == syntax_of(exprs@.take(count as int)),
    decreases count,
{
    if count > 0 {
        lemma_leading_syntax(exprs, (count - 1) as nat);
        assert(exprs@.take(count as int).take(count - 1) =~= exprs@.take(count - 1));
        assert(syntax_of(exprs@.take(count as int)) =~= syntax_of(exprs@.take(count - 1)).push(
            exprs@[count - 1]@,
        ));
    } else {
        assert(syntax_of(exprs@.take(0)) =~= Seq::<Syntax>::empty());
    }
}

/// The tree of a call is made of the trees of its arguments.
pub proof fn lemma_call_view(name: Vec<u8>, args: Vec<Expr>)
    ensures
        Expr::Call(name, args)@ == Syntax::Call(name@, syntax_of(args@)),
{
    lemma_leading_syntax(&args, args@.len());
    assert(args@.take(args@.len() as int) =~= args@);
}

/// The number that stands at `pos`, where a digit does: digits, and after
/// them possibly a point and more digits. Digits alone that fit a machine
/// integer are one; everything else is kept as the numeral of a binary64
/// value.
pub open spec fn number_at(text: Seq<u8>, pos: int) -> (Syntax, int) {
    let whole_end = run_end(text, pos, ByteClass::Digit);
    if whole_end + 1 < text.len() && text[whole_end] == DOT && is_digit(text[whole_end + 1]) {
        let end = run_end(text, whole_end + 1, ByteClass::Digit);
        (Syntax::Float(text.subrange(pos, end)), end)
    } else {
        match numeral_value(text.subrange(pos, whole_end)) {
            Some(value) => (Syntax::Integer(value), whole_end),
            None => (Syntax::Float(text.subrange(pos, whole_end)), whole_end),
        }
    }
}

/// What a bare word stands for where no call follows it.
pub open spec fn word_syntax(word: Seq<u8>) -> Syntax {
    if word == "true".spec_bytes() {
        Syntax::Boolean(true)
    } else if word == "false".spec_bytes() {
        Syntax::Boolean(false)
    } else if word == "null".spec_bytes() {
        Syntax::Null
    } else {
        Syntax::Identifier(word)
    }
}

/// A binary operator.
#[derive(Clone, Copy, Debug, PartialEq, Eq, Structural)]
pub enum Operator {
    Or,
    And,
    Equal,
    NotEqual,
    LessOrEqual,
    GreaterOrEqual,
    Less,
    Greater,
    Plus,
    Minus,
    Times,
    Divide,
}

impl Operator {
    /// How strongly the operator binds: `||` least, then `&&`, then the
    /// comparisons, then `+` and `-`, then `*` and `/`.
    pub open spec fn spec_level(self) -> nat {
        match self {
            Operator::Or => 1,
            Operator::And => 2,
            Operator::Equal
            | Operator::NotEqual
            | Operator::LessOrEqual
            | Operator::GreaterOrEqual
            | Operator::Less
            | Operator::Greater => 3,
            Operator::Plus | Operator::Minus => 4,
            Operator::Times | Operator::Divide => 5,
        }
    }

    /// How many bytes the operator is written with.
    pub open spec fn spec_width(self) -> int {
        match self {
            Operator::Or
            | Operator::And
            | Operator::Equal
            | Operator::NotEqual
            | Operator::LessOrEqual
            | Operator::GreaterOrEqual => 2,
            _ => 1,
        }
    }

    /// The function that the operator stands for.
    pub open spec fn spec_name(self) -> Seq<u8> {
        match self {
            Operator::Or => "or".spec_bytes(),
            Operator::And => "and".spec_bytes(),
            Operator::Equal => "eq".spec_bytes(),
            Operator::NotEqual => "ne".spec_bytes(),
            Operator::LessOrEqual => "le".spec_bytes(),
            Operator::GreaterOrEqual => "ge".spec_bytes(),
            Operator::Less => "lt".spec_bytes(),
            Operator::Greater => "gt".spec_bytes(),
            Operator::Plus => "add".spec_bytes(),
            Operator::Minus => "sub".spec_bytes(),
            Operator::Times => "mul".spec_bytes(),
            Operator::Divide => "div".spec_bytes(),
        }
    }

    pub fn level(self) -> (r: u8)
        ensures
            r == self.spec_level(),
            1 <= r <= LEVELS,
    {
        match self {
            Operator::Or => 1,
            Operator::And => 2,
            Operator::Equal
            | Operator::NotEqual
            | Operator::LessOrEqual
            | Operator::GreaterOrEqual
            | Operator::Less
            | Operator::Greater => 3,
            Operator::Plus | Operator::Minus => 4,
            Operator::Times | Operator::Divide => 5,
        }
    }

    pub fn width(self) -> (r: usize)
        ensures
            r == self.spec_width(),
            1 <= r <= 2,
    {
        match self {
            Operator::Or
            | Operator::And
            | Operator::Equal
            | Operator::NotEqual
            | Operator::LessOrEqual
            | Operator::GreaterOrEqual => 2,
            _ => 1,
        }
    }

    pub fn name(self) -> (r: Vec<u8>)
        ensures
            r@ == self.spec_name(),
    {
        let text = match self {
            Operator::Or => "or",
            Operator::And => "and",
            Operator::Equal => "eq",
            Operator::NotEqual => "ne",
            Operator::LessOrEqual => "le",
            Operator::GreaterOrEqual => "ge",
            Operator::Less => "lt",
            Operator::Greater => "gt",
            Operator::Plus => "add",
            Operator::Minus => "sub",
            Operator::Times => "mul",
            Operator::Divide => "div",
        };
        copy_bytes(text.as_bytes())
    }
}

/// The binary operator that stands at `pos`. An operator of two bytes is
/// preferred to one of one byte.
pub open spec fn operator_at(text: Seq<u8>, pos: int) -> Option<Operator> {
    if pos < 0 || pos >= text.len() {
        None
    } else {
        let first = text[pos];
        let doubled = pos + 1 < text.len() && text[pos + 1] == first;
        let equals = pos + 1 < text.len() && text[pos + 1] == EQUALS;
        if first == BAR && doubled {
            Some(Operator::Or)
        } else if first == AMPERSAND && doubled {
            Some(Operator::And)
        } else if first == EQUALS && equals {
            Some(Operator::Equal)
        } else if first == BANG && equals {
            Some(Operator::NotEqual)
        } else if first == LESS_THAN && equals {
            Some(Operator::LessOrEqual)
        } else if first == GREATER_THAN && equals {
            Some(Operator::GreaterOrEqual)
        } else if first == LESS_THAN {
            Some(Operator::Less)
        } else if first == GREATER_THAN {
            Some(Operator::Greater)
        } else if first == PLUS_SIGN {
            Some(Operator::Plus)
        } else if first == MINUS_SIGN {
            Some(Operator::Minus)
        } else if first == STAR {
            Some(Operator::Times)
        } else if first == SLASH {
            Some(Operator::Divide)
        } else {
            None
        }
    }
}

/// The call that a binary operator stands for.
pub open spec fn binary_call(operator: Operator, left: Syntax, right: Syntax) -> Syntax {
    Syntax::Call(operator.spec_name(), seq![left, right])
}

/// The expression that stands at `pos`, and the position behind it: an
/// expression of binary operators, and after it any number of pipes. A pipe
/// `| f(b)` makes what stands before it the first argument of the call:
/// `a | f(b)` is `f(a, b)`, and `a | f` is `f(a)`.
pub open spec fn expression_at(text: Seq<u8>, pos: int) -> Option<(Syntax, int)>
    decreases text.len() - pos, 9nat,
{
    match binary_at(text, pos, 1) {
        Some((left, next)) => if pos < next <= text.len() {
            piped_at(text, left, next)
        } else {
            None
        },
        None => None,
    }
}

/// What the expression `left`, which ends at `pos`, comes to with the pipes
/// that follow it.
pub open spec fn piped_at(text: Seq<u8>, left: Syntax, pos: int) -> Option<(Syntax, int)>
    decreases text.len() - pos, 0nat,
{
    let bar = run_end(text, pos, ByteClass::Space);
    if pos <= bar < text.len() && text[bar] == BAR {
        let start = run_end(text, bar + 1, ByteClass::Space);
        if bar < start < text.len() && is_identifier_start(text[start]) {
            let end = run_end(text, start, ByteClass::IdentifierPart);
            let word = text.subrange(start, end);
            let paren = run_end(text, end, ByteClass::Space);
            if !(start < end <= paren <= text.len()) {
                None
            } else if paren < text.len() && text[paren] == OPEN_PAREN {
                match arguments_at(text, paren + 1) {
                    Some((args, next)) => if paren < next <= text.len() {
                        piped_at(text, Syntax::Call(word, seq![left] + args), next)
                    } else {
                        None
                    },
                    None => None,
                }
            } else {
                piped_at(text, Syntax::Call(word, seq![left]), end)
            }
        } else {
            None
        }
    } else {
        Some((left, pos))
    }
}

/// The measure by which an expression of binary operators of a level is
/// smaller than those of the weaker levels.
pub open spec fn level_rank(level: nat) -> nat {
    if level > LEVELS {
        3
    } else {
        (9 - level) as nat
    }
}

/// The expression of binary operators of the given level and of all
/// stronger levels that stands at `pos`. Operators of one level group to
/// the left.
pub open spec fn binary_at(text: Seq<u8>, pos: int, level: nat) -> Option<(Syntax, int)>
    decreases text.len() - pos, level_rank(level),
{
    if level > LEVELS {
        unary_at(text, pos)
    } else {
        match binary_at(text, pos, level + 1) {
            Some((left, next)) => if pos < next <= text.len() {
                binary_rest(text, left, next, level)
            } else {
                None
            },
            None => None,
        }
    }
}

/// What the operand `left`, which ends at `pos`, comes to with the
/// operators of the given level and the operands that follow it.
pub open spec fn binary_rest(text: Seq<u8>, left: Syntax, pos: int, level: nat) -> Option<
    (Syntax, int),
>
    decreases text.len() - pos, 0nat,
{
    let at = run_end(text, pos, ByteClass::Space);
    match operator_at(text, at) {
        Some(operator) => if operator.spec_level() == level && pos <= at {
            let start = run_end(text, at + operator.spec_width(), ByteClass::Space);
            if !(at < start <= text.len()) {
                None
            } else {
                match binary_at(text, start, level + 1) {
                    Some((right, next)) => if start < next <= text.len() {
                        binary_rest(text, binary_call(operator, left, right), next, level)
                    } else {
                        None
                    },
                    None => None,
                }
            }
        } else {
            Some((left, pos))
        },
        None => Some((left, pos)),
    }
}

/// The unary expression that stands at `pos`: a primary expression, or a
/// minus sign or an exclamation mark before a unary expression, which
/// stand for `neg` and `not`.
pub open spec fn unary_at(text: Seq<u8>, pos: int) -> Option<(Syntax, int)>
    decreases text.len() - pos, 2nat,
{
    if 0 <= pos < text.len() && (text[pos] == MINUS_SIGN || text[pos] == BANG) {
        let start = run_end(text, pos + 1, ByteClass::Space);
        if !(pos < start <= text.len()) {
            None
        } else {
            match unary_at(text, start) {
                Some((operand, next)) => Some(
                    (
                        Syntax::Call(
                            if text[pos] == MINUS_SIGN {
                                "neg".spec_bytes()
                            } else {
                                "not".spec_bytes()
                            },
                            seq![operand],
                        ),
                        next,
                    ),
                ),
                None => None,
            }
        }
    } else {
        primary_at(text, pos)
    }
}

/// The primary expression that stands at `pos`: a column name between
/// backquotes, a quoted string, a number, a word (a call where a parenthesis
/// follows it, else `true`, `false`, `null` or a column name), or an
/// expression between parentheses.
pub open spec fn primary_at(text: Seq<u8>, pos: int) -> Option<(Syntax, int)>
    decreases text.len() - pos, 1nat,
{
    if pos < 0 || pos >= text.len() {
        None
    } else if text[pos] == BACKQUOTE {
        match find_byte(text, pos + 1, BACKQUOTE) {
            Some(end) => Some((Syntax::Identifier(text.subrange(pos + 1, end)), end + 1)),
            None => None,
        }
    } else if text[pos] == DOUBLE_QUOTE || text[pos] == SINGLE_QUOTE {
        match quoted_at(text, pos + 1, text[pos]) {
            Some((content, end)) => Some((Syntax::String(content), end)),
            None => None,
        }
    } else if is_digit(text[pos]) {
        Some(number_at(text, pos))
    } else if is_identifier_start(text[pos]) {
        let end = run_end(text, pos, ByteClass::IdentifierPart);
        let word = text.subrange(pos, end);
        let paren = run_end(text, end, ByteClass::Space);
        if pos < end <= paren < text.len() && text[paren] == OPEN_PAREN {
            match arguments_at(text, paren + 1) {
                Some((args, next)) => Some((Syntax::Call(word, args), next)),
                None => None,
            }
        } else {
            Some((word_syntax(word), end))
        }
    } else if text[pos] == OPEN_PAREN {
        let inner = run_end(text, pos + 1, ByteClass::Space);
        if inner <= pos || inner > text.len() {
            None
        } else {
            match expression_at(text, inner) {
                Some((e, next)) => {
                    let close = run_end(text, next, ByteClass::Space);
                    if 0 <= close < text.len() && text[close] == CLOSE_PAREN {
                        Some((e, close + 1))
                    } else {
                        None
                    }
                },
                None => None,
            }
        }
    } else {
        None
    }
}

/// The arguments of a call whose opening parenthesis stands before `pos`,
/// and the position behind its closing parenthesis: nothing, or expressions
/// with commas between them.
pub open spec fn arguments_at(text: Seq<u8>, pos: int) -> Option<(Seq<Syntax>, int)>
    decreases text.len() - pos, 11nat,
{
    let first = run_end(text, pos, ByteClass::Space);
    if first < pos || first > text.len() {
        None
    } else if 0 <= first < text.len() && text[first] == CLOSE_PAREN {
        Some((Seq::empty(), first + 1))
    } else {
        more_arguments_at(text, first)
    }
}

/// One expression at `pos`, then a closing parenthesis or a comma and more
/// expressions.
pub open spec fn more_arguments_at(text: Seq<u8>, pos: int) -> Option<(Seq<Syntax>, int)>
    decreases text.len() - pos, 10nat,
{
    match expression_at(text, pos) {
        Some((e, next)) => {
            let stop = run_end(text, next, ByteClass::Space);
            if next <= pos || stop < next || stop >= text.len() {
                None
            } else if text[stop] == CLOSE_PAREN {
                Some((seq![e], stop + 1))
            } else if text[stop] == COMMA {
                let following = run_end(text, stop + 1, ByteClass::Space);
                if following <= stop || following > text.len() {
                    None
                } else {
                    match more_arguments_at(text, following) {
                        Some((rest, end)) => Some((seq![e] + rest, end)),
                        None => None,
                    }
                }
            } else {
                None
            }
        },
        None => None,
    }
}

/// Whether the parser's answer `r` is what the grammar says stands at `pos`.
pub open spec fn reads_expression(
    r: Option<(Expr, usize)>,
    expected: Option<(Syntax, int)>,
    pos: usize,
    len: nat,
) -> bool {
    match r {
        Some((e, next)) => expected == Some((e@, next as int)) && pos < next <= len,
        None => expected is None,
    }
}

/// Whether the parser's answer `r` is what the grammar says stands at `pos`.
pub open spec fn reads_arguments(
    r: Option<(Vec<Expr>, usize)>,
    expected: Option<(Seq<Syntax>, int)>,
    pos: usize,
    len: nat,
) -> bool {
    match r {
        Some((args, next)) => expected == Some((syntax_of(args@), next as int)) && pos < next
            <= len,
        None => expected is None,
    }
}

/// Reads the number that stands at `pos`.
fn parse_number(text: &[u8], pos: usize) -> (r: (Expr, usize))
    requires
        pos < text.len(),
        is_digit(text@[pos as int]),
    ensures
        number_at(text@, pos as int) == (r.0@, r.1 as int),
        pos < r.1 <= text.len(),
{
    let whole_end = scan(text, pos, ByteClass::Digit);
    proof {
        lemma_run_end(text@, pos + 1, ByteClass::Digit);
    }
    if whole_end < text.len() && whole_end + 1 < text.len() && text[whole_end] == DOT
        && ByteClass::Digit.holds(text[whole_end + 1]) {
        let end = scan(text, whole_end + 1, ByteClass::Digit);
        let numeral = copy_bytes(slice_of(text, pos, end));
        (Expr::Float(numeral), end)
    } else {
        let digits = slice_of(text, pos, whole_end);
        match parse_integer(digits) {
            Some(value) => (Expr::Integer(value), whole_end),
            None => (Expr::Float(copy_bytes(digits)), whole_end),
        }
    }
}

/// The bytes from `from` up to `to`.
pub fn slice_of(text: &[u8], from: usize, to: usize) -> (r: &[u8])
    requires
        from <= to <= text.len(),
    ensures
        r@ == text@.subrange(from as int, to as int),
{
    vstd::slice::slice_subrange(text, from, to)
}

/// Reads the word that the grammar takes apart in [`word_syntax`].
fn parse_word(word: &[u8]) -> (r: Expr)
    ensures
        r@ == word_syntax(word@),
{
    if bytes_eq(word, "true".as_bytes()) {
        Expr::Boolean(true)
    } else if bytes_eq(word, "false".as_bytes()) {
        Expr::Boolean(false)
    } else if bytes_eq(word, "null".as_bytes()) {
        Expr::Null
    } else {
        Expr::Identifier(copy_bytes(word))
    }
}

/// Reads the binary operator that stands at `pos`.
fn parse_operator_at(text: &[u8], pos: usize) -> (r: Option<Operator>)
    requires
        pos <= text.len(),
    ensures
        r == operator_at(text@, pos as int),
{
    if pos >= text.len() {
        return None;
    }
    let first = text[pos];
    let doubled = text.len() - pos > 1 && text[pos + 1] == first;
    let equals = text.len() - pos > 1 && text[pos + 1] == EQUALS;
    if first == BAR && doubled {
        Some(Operator::Or)
    } else if first == AMPERSAND && doubled {
        Some(Operator::And)
    } else if first == EQUALS && equals {
        Some(Operator::Equal)
    } else if first == BANG && equals {
        Some(Operator::NotEqual)
    } else if first == LESS_THAN && equals {
        Some(Operator::LessOrEqual)
    } else if first == GREATER_THAN && equals {
        Some(Operator::GreaterOrEqual)
    } else if first == LESS_THAN {
        Some(Operator::Less)
    } else if first == GREATER_THAN {
        Some(Operator::Greater)
    } else if first == PLUS_SIGN {
        Some(Operator::Plus)
    } else if first == MINUS_SIGN {
        Some(Operator::Minus)
    } else if first == STAR {
        Some(Operator::Times)
    } else if first == SLASH {
        Some(Operator::Divide)
    } else {
        None
    }
}

/// The call of `name` on `first` and then on `rest`.
fn call_with_first(name: Vec<u8>, first: Expr, rest: Vec<Expr>) -> (r: Expr)
    ensures
        r@ == Syntax::Call(name@, seq![first@] + syntax_of(rest@)),
{
    let mut args: Vec<Expr> = Vec::new();
    args.push(first);
    let mut rest = rest;
    let ghost tail = syntax_of(rest@);
    let ghost head = first@;
    args.append(&mut rest);
    proof {
        lemma_call_view(name, args);
        assert(syntax_of(args@) =~= seq![head] + tail);
    }
    Expr::Call(name, args)
}

/// Reads the expression that stands at `pos`.
pub fn parse_expression_at(text: &[u8], pos: usize) -> (r: Option<(Expr, usize)>)
    requires
        pos <= text.len(),
    ensures
        reads_expression(r, expression_at(text@, pos as int), pos, text@.len()),
    decreases text.len() - pos, 9nat,
{
    let (first, first_end) = match parse_binary_at(text, pos, 1) {
        Some(found) => found,
        None => {
            return None;
        },
    };
    let mut left = first;
    let mut next = first_end;
    loop
        invariant
            pos < next <= text.len(),
            expression_at(text@, pos as int) == piped_at(text@, left@, next as int),
        decreases text.len() - next,
    {
        let bar = scan(text, next, ByteClass::Space);
        if !(bar < text.len() && text[bar] == BAR) {
            return Some((left, next));
        }
        let start = scan(text, bar + 1, ByteClass::Space);
        if !(start < text.len() && ((65 <= text[start] && text[start] <= 90) || (97 <= text[start]
            && text[start] <= 122) || text[start] == UNDERSCORE)) {
            return None;
        }
        let end = scan(text, start, ByteClass::IdentifierPart);
        proof {
            lemma_run_end(text@, start + 1, ByteClass::IdentifierPart);
        }
        let word = copy_bytes(slice_of(text, start, end));
        let paren = scan(text, end, ByteClass::Space);
        if paren < text.len() && text[paren] == OPEN_PAREN {
            match parse_arguments_at(text, paren + 1) {
                Some((args, after)) => {
                    left = call_with_first(word, left, args);
                    next = after;
                },
                None => {
                    return None;
                },
            }
        } else {
            let ghost operand = left@;
            left = call_with_first(word, left, Vec::new());
            proof {
                assert(seq![operand] + syntax_of(Seq::<Expr>::empty()) =~= seq![operand]);
            }
            next = end;
        }
    }
}

/// Reads the expression of binary operators of the given level and of all
/// stronger levels that stands at `pos`.
pub fn parse_binary_at(text: &[u8], pos: usize, level: u8) -> (r: Option<(Expr, usize)>)
    requires
        pos <= text.len(),
        level >= 1,
    ensures
        reads_expression(r, binary_at(text@, pos as int, level as nat), pos, text@.len()),
    decreases text.len() - pos, level_rank(level as nat),
{
    if level > LEVELS {
        return parse_unary_at(text, pos);
    }
    let (first, first_end) = match parse_binary_at(text, pos, level + 1) {
        Some(found) => found,
        None => {
            return None;
        },
    };
    let mut left = first;
    let mut next = first_end;
    loop
        invariant
            pos < next <= text.len(),
            1 <= level <= LEVELS,
            binary_at(text@, pos as int, level as nat) == binary_rest(
                text@,
                left@,
                next as int,
                level as nat,
            ),
        decreases text.len() - next,
    {
        let at = scan(text, next, ByteClass::Space);
        let operator = match parse_operator_at(text, at) {
            Some(operator) => operator,
            None => {
                return Some((left, next));
            },
        };
        if operator.level() != level {
            return Some((left, next));
        }
        let start = scan(text, at + operator.width(), ByteClass::Space);
        match parse_binary_at(text, start, level + 1) {
            Some((right, after)) => {
                let mut right_only: Vec<Expr> = Vec::new();
                let ghost l = left@;
                let ghost r = right@;
                right_only.push(right);
                proof {
                    assert(syntax_of(right_only@) =~= seq![r]);
                    assert(seq![l] + seq![r] =~= seq![l, r]);
                }
                left = call_with_first(operator.name(), left, right_only);
                next = after;
            },
            None => {
                return None;
            },
        }
    }
}

/// Reads the unary expression that stands at `pos`.
pub fn parse_unary_at(text: &[u8], pos: usize) -> (r: Option<(Expr, usize)>)
    requires
        pos <= text.len(),
    ensures
        reads_expression(r, unary_at(text@, pos as int), pos, text@.len()),
    decreases text.len() - pos, 2nat,
{
    if pos < text.len() && (text[pos] == MINUS_SIGN || text[pos] == BANG) {
        let start = scan(text, pos + 1, ByteClass::Space);
        match parse_unary_at(text, start) {
            Some((operand, next)) => {
                let name = if text[pos] == MINUS_SIGN {
                    copy_bytes("neg".as_bytes())
                } else {
                    copy_bytes("not".as_bytes())
                };
                let ghost tree = operand@;
                let call = call_with_first(name, operand, Vec::new());
                proof {
                    assert(seq![tree] + syntax_of(Seq::<Expr>::empty()) =~= seq![tree]);
                }
                Some((call, next))
            },
            None => None,
        }
    } else {
        parse_primary_at(text, pos)
    }
}

/// Reads the primary expression that stands at `pos`.
pub fn parse_primary_at(text: &[u8], pos: usize) -> (r: Option<(Expr, usize)>)
    requires
        pos <= text.len(),
    ensures
        reads_expression(r, primary_at(text@, pos as int), pos, text@.len()),
    decreases text.len() - pos, 1nat,
{
    if pos >= text.len() {
        return None;
    }
    let byte = text[pos];
    if byte == BACKQUOTE {
        match find(text, pos + 1, BACKQUOTE) {
            Some(end) => {
                let name = copy_bytes(slice_of(text, pos + 1, end));
                Some((Expr::Identifier(name), end + 1))
            },
            None => None,
        }
    } else if byte == DOUBLE_QUOTE || byte == SINGLE_QUOTE {
        match parse_quoted(text, pos + 1, byte) {
            Some((content, end)) => Some((Expr::String(content), end)),
            None => None,
        }
    } else if ByteClass::Digit.holds(byte) {
        let (number, end) = parse_number(text, pos);
        Some((number, end))
    } else if (65 <= byte && byte <= 90) || (97 <= byte && byte <= 122) || byte == UNDERSCORE {
        let end = scan(text, pos, ByteClass::IdentifierPart);
        let paren = scan(text, end, ByteClass::Space);
        proof {
            lemma_run_end(text@, pos + 1, ByteClass::IdentifierPart);
            assert(run_end(text@, pos as int, ByteClass::IdentifierPart) > pos);
        }
        if paren < text.len() && text[paren] == OPEN_PAREN {
            match parse_arguments_at(text, paren + 1) {
                Some((args, next)) => {
                    let name = copy_bytes(slice_of(text, pos, end));
                    proof {
                        lemma_call_view(name, args);
                    }
                    Some((Expr::Call(name, args), next))
                },
                None => None,
            }
        } else {
            Some((parse_word(slice_of(text, pos, end)), end))
        }
    } else if byte == OPEN_PAREN {
        let inner = scan(text, pos + 1, ByteClass::Space);
        match parse_expression_at(text, inner) {
            Some((e, next)) => {
                let close = scan(text, next, ByteClass::Space);
                if close < text.len() && text[close] == CLOSE_PAREN {
                    Some((e, close + 1))
                } else {
                    None
                }
            },
            None => None,
        }
    } else {
        None
    }
}

/// Reads the arguments of a call whose opening parenthesis stands before
/// `pos`.
pub fn parse_arguments_at(text: &[u8], pos: usize) -> (r: Option<(Vec<Expr>, usize)>)
    requires
        pos <= text.len(),
    ensures
        reads_arguments(r, arguments_at(text@, pos as int), pos, text@.len()),
    decreases text.len() - pos, 11nat,
{
    let first = scan(text, pos, ByteClass::Space);
    if first < text.len() && text[first] == CLOSE_PAREN {
        let args: Vec<Expr> = Vec::new();
        proof {
            assert(syntax_of(args@) =~= Seq::<Syntax>::empty());
        }
        return Some((args, first + 1));
    }
    let mut args: Vec<Expr> = Vec::new();
    let mut at = first;
    proof {
        assert(syntax_of(args@) =~= Seq::<Syntax>::empty());
        match more_arguments_at(text@, first as int) {
            Some((rest, end)) => {
                assert(syntax_of(args@) + rest =~= rest);
            },
            None => {},
        }
    }
    loop
        invariant
            pos <= first <= at <= text.len(),
            arguments_at(text@, pos as int) == more_arguments_at(text@, first as int),
            more_arguments_at(text@, first as int) == match more_arguments_at(text@, at as int) {
                Some((rest, end)) => Some((syntax_of(args@) + rest, end)),
                None => None,
            },
        decreases text.len() - at,
    {
        match parse_expression_at(text, at) {
            Some((e, next)) => {
                let stop = scan(text, next, ByteClass::Space);
                if stop >= text.len() {
                    return None;
                }
                let ghost before = syntax_of(args@);
                let ghost tree = e@;
                if text[stop] == CLOSE_PAREN {
                    args.push(e);
                    proof {
                        assert(syntax_of(args@) =~= before + seq![tree]);
                    }
                    return Some((args, stop + 1));
                } else if text[stop] == COMMA {
                    let following = scan(text, stop + 1, ByteClass::Space);
                    args.push(e);
                    proof {
                        assert(syntax_of(args@) =~= before + seq![tree]);
                        match more_arguments_at(text@, following as int) {
                            Some((rest, end)) => {
                                assert(before + (seq![tree] + rest) =~= syntax_of(args@) + rest);
                            },
                            None => {},
                        }
                    }
                    at = following;
                } else {
                    return None;
                }
            },
            None => {
                return None;
            },
        }
    }
}

/// A name that can be written as a bare word: a letter or an underscore,
/// then letters, digits and underscores.
pub open spec fn is_plain_identifier(name: Seq<u8>) -> bool {
    &&& name.len() > 0
    &&& is_identifier_start(name[0])
    &&& forall|i: int| 0 <= i < name.len() ==> is_identifier_part(#[trigger] name[i])
}

/// A word that stands for a constant where it is written bare.
pub open spec fn is_keyword(name: Seq<u8>) -> bool {
    name == "true".spec_bytes() || name == "false".spec_bytes() || name == "null".spec_bytes()
}

/// The content of a string with a backslash before every double quote and
/// every backslash.
pub open spec fn escaped(content: Seq<u8>) -> Seq<u8>
    decreases content.len(),
{
    if content.len() == 0 {
        Seq::empty()
    } else if content[0] == DOUBLE_QUOTE || content[0] == BACKSLASH {
        seq![BACKSLASH, content[0]] + escaped(content.skip(1))
    } else {
        seq![content[0]] + escaped(content.skip(1))
    }
}

/// The canonical text of a column name: the bare word where it can be
/// written as one, else the name between backquotes.
pub open spec fn canonical_name(name: Seq<u8>) -> Seq<u8> {
    if is_plain_identifier(name) && !is_keyword(name) {
        name
    } else {
        seq![BACKQUOTE] + name + seq![BACKQUOTE]
    }
}

impl Syntax {
    /// The canonical text of the expression. Two expressions that are the
    /// same tree have the same text, however they were written.
    pub open spec fn canonical(self) -> Seq<u8>
        decreases self, 0nat,
    {
        match self {
            Syntax::Identifier(name) => canonical_name(name),
            Syntax::Integer(value) => crate::text::integer_numeral(value as int),
            Syntax::Float(numeral) => numeral,
            Syntax::String(content) => seq![DOUBLE_QUOTE] + escaped(content) + seq![DOUBLE_QUOTE],
            Syntax::Boolean(value) => if value {
                "true".spec_bytes()
            } else {
                "false".spec_bytes()
            },
            Syntax::Null => "null".spec_bytes(),
            Syntax::Call(name, args) => name + seq![OPEN_PAREN] + canonical_list(args, 0) + seq![
                CLOSE_PAREN,
            ],
        }
    }
}

/// The canonical texts of the expressions from `from` on, with a comma and a
/// space between them.
pub open spec fn canonical_list(args: Seq<Syntax>, from: nat) -> Seq<u8>
    decreases args, args.len() - from,
{
    if from >= args.len() {
        Seq::empty()
    } else if from + 1 == args.len() {
        args[from as int].canonical()
    } else {
        args[from as int].canonical() + seq![COMMA, SPACE] + canonical_list(args, from + 1)
    }
}

/// Appends the escaped content of a string.
fn write_escaped(content: &[u8], out: &mut Vec<u8>)
    ensures
        final(out)@ == old(out)@ + escaped(content@),
{
    let mut i: usize = 0;
    proof {
        assert(content@.skip(0) =~= content@);
    }
    while i < content.len()
        invariant
            i <= content.len(),
            old(out)@ + escaped(content@) == out@ + escaped(content@.skip(i as int)),
        decreases content.len() - i,
    {
        let byte = content[i];
        let ghost before = out@;
        let ghost rest = content@.skip(i as int);
        proof {
            assert(rest[0] == byte);
            assert(rest.skip(1) =~= content@.skip(i + 1));
        }
        if byte == DOUBLE_QUOTE || byte == BACKSLASH {
            out.push(BACKSLASH);
            out.push(byte);
            proof {
                assert(before + (seq![BACKSLASH, byte] + escaped(rest.skip(1))) =~= out@ + escaped(
                    rest.skip(1),
                ));
            }
        } else {
            out.push(byte);
            proof {
                assert(before + (seq![byte] + escaped(rest.skip(1))) =~= out@ + escaped(
                    rest.skip(1),
                ));
            }
        }
        i += 1;
    }
    proof {
        assert(out@ + Seq::<u8>::empty() =~= out@);
    }
}

/// Appends all of `bytes`.
pub fn write_bytes(bytes: &[u8], out: &mut Vec<u8>)
    ensures
        final(out)@ == old(out)@ + bytes@,
{
    let mut i: usize = 0;
    while i < bytes.len()
        invariant
            i <= bytes.len(),
            out@ == old(out)@ + bytes@.take(i as int),
        decreases bytes.len() - i,
    {
        out.push(bytes[i]);
        proof {
            assert(old(out)@ + bytes@.take(i + 1) =~= (old(out)@ + bytes@.take(i as int)).push(
                bytes@[i as int],
            ));
        }
        i += 1;
    }
    proof {
        assert(bytes@.take(i as int) =~= bytes@);
    }
}

/// Whether a name can be written as a bare word.
pub fn plain_identifier(name: &[u8]) -> (r: bool)
    ensures
        r == is_plain_identifier(name@),
{
    if name.len() == 0 {
        return false;
    }
    let first = name[0];
    if !((65 <= first && first <= 90) || (97 <= first && first <= 122) || first == UNDERSCORE) {
        return false;
    }
    let mut i: usize = 0;
    while i < name.len()
        invariant
            i <= name.len(),
            forall|j: int| 0 <= j < i ==> is_identifier_part(#[trigger] name@[j]),
        decreases name.len() - i,
    {
        if !ByteClass::IdentifierPart.holds(name[i]) {
            return false;
        }
        i += 1;
    }
    true
}

/// Whether a word stands for a constant where it is written bare.
pub fn keyword(name: &[u8]) -> (r: bool)
    ensures
        r == is_keyword(name@),
{
    bytes_eq(name, "true".as_bytes()) || bytes_eq(name, "false".as_bytes()) || bytes_eq(
        name,
        "null".as_bytes(),
    )
}

/// Appends the canonical text of a column name.
fn write_canonical_name(name: &[u8], out: &mut Vec<u8>)
    ensures
        final(out)@ == old(out)@ + canonical_name(name@),
{
    let ghost before = out@;
    if plain_identifier(name) && !keyword(name) {
        write_bytes(name, out);
    } else {
        out.push(BACKQUOTE);
        write_bytes(name, out);
        out.push(BACKQUOTE);
        proof {
            assert(out@ =~= before + (seq![BACKQUOTE] + name@ + seq![BACKQUOTE]));
        }
    }
}

impl Expr {
    /// The canonical text of the expression.
    pub fn canonical(&self) -> (r: Vec<u8>)
        ensures
            r@ == self@.canonical(),
    {
        let mut out: Vec<u8> = Vec::new();
        self.write_canonical(&mut out);
        proof {
            assert(Seq::<u8>::empty() + self@.canonical() =~= self@.canonical());
        }
        out
    }

    /// Appends the canonical text of the expression.
    pub fn write_canonical(&self, out: &mut Vec<u8>)
        ensures
            final(out)@ == old(out)@ + self@.canonical(),
        decreases self,
    {
        let ghost before = out@;
        match self {
            Expr::Identifier(name) => write_canonical_name(name.as_slice(), out),
            Expr::Integer(value) => {
                let numeral = crate::text::integer_text(*value);
                write_bytes(numeral.as_slice(), out);
            },
            Expr::Float(numeral) => write_bytes(numeral.as_slice(), out),
            Expr::String(content) => {
                out.push(DOUBLE_QUOTE);
                write_escaped(content.as_slice(), out);
                out.push(DOUBLE_QUOTE);
                proof {
                    assert(out@ =~= before + (seq![DOUBLE_QUOTE] + escaped(content@) + seq![
                        DOUBLE_QUOTE,
                    ]));
                }
            },
            Expr::Boolean(value) => {
                if *value {
                    write_bytes("true".as_bytes(), out);
                } else {
                    write_bytes("false".as_bytes(), out);
                }
            },
            Expr::Null => write_bytes("null".as_bytes(), out),
            Expr::Call(name, args) => {
                write_bytes(name.as_slice(), out);
                out.push(OPEN_PAREN);
                let ghost trees = syntax_of(args@);
                let ghost opened = out@;
                proof {
                    lemma_call_view(*name, *args);
                }
                let mut i: usize = 0;
                while i < args.len()
                    invariant
                        i <= args.len(),
                        trees == syntax_of(args@),
                        self matches Expr::Call(_, a) && a == args,
                        opened + canonical_list(trees, 0) == out@ + canonical_list(trees, i as nat),
                    decreases args.len() - i,
                {
                    let ghost start = out@;
                    args[i].write_canonical(out);
                    if i + 1 < args.len() {
                        out.push(COMMA);
                        out.push(SPACE);
                        proof {
                            assert(start + (trees[i as int].canonical() + seq![COMMA, SPACE]
                                + canonical_list(trees, (i + 1) as nat)) =~= out@ + canonical_list(
                                trees,
                                (i + 1) as nat,
                            ));
                        }
                    } else {
                        proof {
                            assert(canonical_list(trees, (i + 1) as nat) =~= Seq::<u8>::empty());
                            assert(out@ + Seq::<u8>::empty() =~= out@);
                        }
                    }
                    i += 1;
                }
                out.push(CLOSE_PAREN);
                proof {
                    assert(canonical_list(trees, i as nat) =~= Seq::<u8>::empty());
                    assert(out@ =~= before + (name@ + seq![OPEN_PAREN] + canonical_list(trees, 0)
                        + seq![CLOSE_PAREN]));
                }
            },
        }
    }
}

/// One aggregation of an aggregation list, as it was written.
#[derive(Debug, PartialEq, Eq)]
pub struct Aggregation {
    /// The name of the output column: the name given after `as`, or the
    /// canonical text of the call.
    pub agg_name: Vec<u8>,
    /// The name of the aggregation function.
    pub func_name: Vec<u8>,
    /// The canonical text of the first argument; empty without arguments.
    pub expr_key: Vec<u8>,
    /// The arguments of the call.
    pub args: Vec<Expr>,
}

/// What an [`Aggregation`] holds.
pub struct AggregationSyntax {
    pub agg_name: Seq<u8>,
    pub func_name: Seq<u8>,
    pub expr_key: Seq<u8>,
    pub args: Seq<Syntax>,
}

impl View for Aggregation {
    type V = AggregationSyntax;

    open spec fn view(&self) -> AggregationSyntax {
        AggregationSyntax {
            agg_name: self.agg_name@,
            func_name: self.func_name@,
            expr_key: self.expr_key@,
            args: syntax_of(self.args@),
        }
    }
}

/// A parsed aggregation list.
pub type Aggregations = Vec<Aggregation>;

/// What a sequence of aggregations holds.
pub open spec fn aggregations_view(aggregations: Seq<Aggregation>) -> Seq<AggregationSyntax> {
    Seq::new(aggregations.len(), |i: int| aggregations[i]@)
}

/// The source of an aggregation list or of an expression that could not be
/// parsed.
#[derive(Debug, Clone, PartialEq, Eq)]
pub struct ParseError {
    pub source: Vec<u8>,
}

/// The key under which the arguments of a call are evaluated: the canonical
/// text of the first one.
pub open spec fn expression_key(args: Seq<Syntax>) -> Seq<u8> {
    if args.len() == 0 {
        Seq::empty()
    } else {
        args[0].canonical()
    }
}

/// The name that stands at `pos`: a bare word, a name between backquotes or
/// a quoted string.
pub open spec fn name_at(text: Seq<u8>, pos: int) -> Option<(Seq<u8>, int)> {
    if pos < 0 || pos >= text.len() {
        None
    } else if text[pos] == BACKQUOTE {
        match find_byte(text, pos + 1, BACKQUOTE) {
            Some(end) => Some((text.subrange(pos + 1, end), end + 1)),
            None => None,
        }
    } else if text[pos] == DOUBLE_QUOTE || text[pos] == SINGLE_QUOTE {
        quoted_at(text, pos + 1, text[pos])
    } else if is_identifier_start(text[pos]) {
        let end = run_end(text, pos, ByteClass::IdentifierPart);
        Some((text.subrange(pos, end), end))
    } else {
        None
    }
}

/// What stands behind a call at `pos`.
pub enum Alias {
    /// `as` and a name: the name and the position behind it.
    Given(Seq<u8>, int),
    /// No `as`.
    Absent,
    /// `as` without a name.
    Broken,
}

/// Whether the word `as` stands at `pos` with a blank behind it.
pub open spec fn as_at(text: Seq<u8>, pos: int) -> bool {
    &&& 0 <= pos
    &&& pos + 2 < text.len()
    &&& text.subrange(pos, pos + 2) == "as".spec_bytes()
    &&& is_space(text[pos + 2])
}

/// The alias that stands behind a call that ends at `pos`: blanks, the word
/// `as`, blanks and a name.
pub open spec fn alias_at(text: Seq<u8>, pos: int) -> Alias {
    let word = run_end(text, pos, ByteClass::Space);
    if pos < word && as_at(text, word) {
        match name_at(text, run_end(text, word + 2, ByteClass::Space)) {
            Some((name, end)) => Alias::Given(name, end),
            None => Alias::Broken,
        }
    } else {
        Alias::Absent
    }
}

/// The aggregation that stands at `pos`: the name of a function, its
/// arguments between parentheses and possibly an alias.
pub open spec fn aggregation_at(text: Seq<u8>, pos: int) -> Option<(AggregationSyntax, int)> {
    if pos < 0 || pos >= text.len() || !is_identifier_start(text[pos]) {
        None
    } else {
        let end = run_end(text, pos, ByteClass::IdentifierPart);
        let paren = run_end(text, end, ByteClass::Space);
        if !(pos < end <= paren < text.len()) || text[paren] != OPEN_PAREN {
            None
        } else {
            match arguments_at(text, paren + 1) {
                Some((args, next)) => {
                    let func_name = text.subrange(pos, end);
                    let expr_key = expression_key(args);
                    match alias_at(text, next) {
                        Alias::Given(agg_name, after) => Some(
                            (AggregationSyntax { agg_name, func_name, expr_key, args }, after),
                        ),
                        Alias::Absent => Some(
                            (
                                AggregationSyntax {
                                    agg_name: Syntax::Call(func_name, args).canonical(),
                                    func_name,
                                    expr_key,
                                    args,
                                },
                                next,
                            ),
                        ),
                        Alias::Broken => None,
                    }
                },
                None => None,
            }
        }
    }
}

/// The aggregations that stand from `pos` to the end of the text, with
/// commas between them.
pub open spec fn aggregations_from(text: Seq<u8>, pos: int) -> Option<Seq<AggregationSyntax>>
    decreases text.len() - pos,
{
    match aggregation_at(text, pos) {
        Some((aggregation, next)) => {
            let stop = run_end(text, next, ByteClass::Space);
            if next <= pos || stop < next || stop > text.len() {
                None
            } else if stop == text.len() {
                Some(seq![aggregation])
            } else if text[stop] == COMMA {
                let following = run_end(text, stop + 1, ByteClass::Space);
                if following <= stop || following > text.len() {
                    None
                } else {
                    match aggregations_from(text, following) {
                        Some(rest) => Some(seq![aggregation] + rest),
                        None => None,
                    }
                }
            } else {
                None
            }
        },
        None => None,
    }
}

/// The aggregation list that a source holds, if it is one: at least one
/// aggregation, blanks allowed around every token.
pub open spec fn aggregations_of(text: Seq<u8>) -> Option<Seq<AggregationSyntax>> {
    aggregations_from(text, run_end(text, 0, ByteClass::Space))
}

/// The expression that a source holds, if it is one and nothing else.
pub open spec fn expression_of(text: Seq<u8>) -> Option<Syntax> {
    match expression_at(text, run_end(text, 0, ByteClass::Space)) {
        Some((e, next)) => if run_end(text, next, ByteClass::Space) == text.len() {
            Some(e)
        } else {
            None
        },
        None => None,
    }
}

/// Reads the name that stands at `pos`.
fn parse_name_at(text: &[u8], pos: usize) -> (r: Option<(Vec<u8>, usize)>)
    requires
        pos <= text.len(),
    ensures
        match r {
            Some((name, end)) => name_at(text@, pos as int) == Some((name@, end as int)) && pos
                < end <= text.len(),
            None => name_at(text@, pos as int) is None,
        },
{
    if pos >= text.len() {
        return None;
    }
    let byte = text[pos];
    if byte == BACKQUOTE {
        match find(text, pos + 1, BACKQUOTE) {
            Some(end) => Some((copy_bytes(slice_of(text, pos + 1, end)), end + 1)),
            None => None,
        }
    } else if byte == DOUBLE_QUOTE || byte == SINGLE_QUOTE {
        parse_quoted(text, pos + 1, byte)
    } else if (65 <= byte && byte <= 90) || (97 <= byte && byte <= 122) || byte == UNDERSCORE {
        let end = scan(text, pos, ByteClass::IdentifierPart);
        proof {
            lemma_run_end(text@, pos + 1, ByteClass::IdentifierPart);
        }
        Some((copy_bytes(slice_of(text, pos, end)), end))
    } else {
        None
    }
}

/// Reads the aggregation that stands at `pos`.
fn parse_aggregation_at(text: &[u8], pos: usize) -> (r: Option<(Aggregation, usize)>)
    requires
        pos <= text.len(),
    ensures
        match r {
            Some((aggregation, next)) => aggregation_at(text@, pos as int) == Some(
                (aggregation@, next as int),
            ) && pos < next <= text.len(),
            None => aggregation_at(text@, pos as int) is None,
        },
{
    if pos >= text.len() {
        return None;
    }
    let byte = text[pos];
    if !((65 <= byte && byte <= 90) || (97 <= byte && byte <= 122) || byte == UNDERSCORE) {
        return None;
    }
    let end = scan(text, pos, ByteClass::IdentifierPart);
    let paren = scan(text, end, ByteClass::Space);
    proof {
        lemma_run_end(text@, pos + 1, ByteClass::IdentifierPart);
    }
    if paren >= text.len() || text[paren] != OPEN_PAREN {
        return None;
    }
    match parse_arguments_at(text, paren + 1) {
        Some((args, next)) => {
            let func_name = copy_bytes(slice_of(text, pos, end));
            let ghost trees = syntax_of(args@);
            let expr_key = if args.len() == 0 {
                Vec::new()
            } else {
                args[0].canonical()
            };
            let word = scan(text, next, ByteClass::Space);
            let aliased = next < word && text.len() - word > 2 && bytes_eq(
                slice_of(text, word, word + 2),
                "as".as_bytes(),
            ) && ByteClass::Space.holds(text[word + 2]);
            if aliased {
                let start = scan(text, word + 2, ByteClass::Space);
                match parse_name_at(text, start) {
                    Some((agg_name, after)) => Some(
                        (Aggregation { agg_name, func_name, expr_key, args }, after),
                    ),
                    None => None,
                }
            } else {
                let call = Expr::Call(func_name, args);
                proof {
                    lemma_call_view(func_name, args);
                }
                let agg_name = call.canonical();
                match call {
                    Expr::Call(func_name, args) => Some(
                        (Aggregation { agg_name, func_name, expr_key, args }, next),
                    ),
                    _ => None,
                }
            }
        },
        None => None,
    }
}

/// Parses an aggregation list: calls of aggregation functions with commas
/// between them, each possibly followed by `as` and the name of its column.
pub fn parse_aggregations(code: &[u8]) -> (r: Result<Aggregations, ParseError>)
    ensures
        match r {
            Ok(aggregations) => aggregations_of(code@) == Some(aggregations_view(aggregations@)),
            Err(error) => aggregations_of(code@) is None && error.source@ == code@,
        },
{
    let mut aggregations: Vec<Aggregation> = Vec::new();
    let start = scan(code, 0, ByteClass::Space);
    let mut at = start;
    proof {
        assert(aggregations_view(aggregations@) =~= Seq::<AggregationSyntax>::empty());
        match aggregations_from(code@, start as int) {
            Some(rest) => {
                assert(aggregations_view(aggregations@) + rest =~= rest);
            },
            None => {},
        }
    }
    loop
        invariant
            at <= code.len(),
            aggregations_of(code@) == match aggregations_from(code@, at as int) {
                Some(rest) => Some(aggregations_view(aggregations@) + rest),
                None => None,
            },
        decreases code.len() - at,
    {
        match parse_aggregation_at(code, at) {
            Some((aggregation, next)) => {
                let stop = scan(code, next, ByteClass::Space);
                let ghost before = aggregations_view(aggregations@);
                let ghost tree = aggregation@;
                if stop == code.len() {
                    aggregations.push(aggregation);
                    proof {
                        assert(aggregations_view(aggregations@) =~= before + seq![tree]);
                    }
                    return Ok(aggregations);
                } else if code[stop] == COMMA {
                    let following = scan(code, stop + 1, ByteClass::Space);
                    aggregations.push(aggregation);
                    proof {
                        assert(aggregations_view(aggregations@) =~= before + seq![tree]);
                        match aggregations_from(code@, following as int) {
                            Some(rest) => {
                                assert(before + (seq![tree] + rest) =~= aggregations_view(
                                    aggregations@,
                                ) + rest);
                            },
                            None => {},
                        }
                    }
                    at = following;
                } else {
                    return Err(ParseError { source: copy_bytes(code) });
                }
            },
            None => {
                return Err(ParseError { source: copy_bytes(code) });
            },
        }
    }
}

/// Parses a source that holds one expression and nothing else.
pub fn parse_expression(code: &[u8]) -> (r: Result<Expr, ParseError>)
    ensures
        match r {
            Ok(e) => expression_of(code@) == Some(e@),
            Err(error) => expression_of(code@) is None && error.source@ == code@,
        },
{
    let start = scan(code, 0, ByteClass::Space);
    match parse_expression_at(code, start) {
        Some((e, next)) => {
            if scan(code, next, ByteClass::Space) == code.len() {
                Ok(e)
            } else {
                Err(ParseError { source: copy_bytes(code) })
            }
        },
        None => Err(ParseError { source: copy_bytes(code) }),
    }
}

} // verus!
