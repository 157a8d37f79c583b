//! The reader/parser: source text to entity trees.
//!
//! The ghost model is the recursive-descent parser [`p_program`] and its
//! production functions, defined over the text as a `Seq<char>` with an
//! explicit cursor (index, line, column). The executable [`Parser`] is
//! proved to return exactly what the ghost parser says.
//!
//! Grammar:
//! ```text
//! program    := (ws* expression)*
//! expression := '(' ws* identifier (ws* entity)* ws* ')'
//! entity     := expression | list | string | number | identifier
//! list       := '[' ws* (entity ws*)* ']'
//! string     := '"' char* '"'
//! number     := '-'? digit+ ('.' digit+)?
//! identifier := (alpha | '_') (alnum | '_')*
//! ```
//! Whitespace and `#`-to-end-of-line comments are skippable between tokens;
//! the keywords `true`, `false` and `nil` read as primitives. At the top
//! level, text before the next `(` is skipped silently. Line and column
//! counters serve diagnostics only: a newline bumps the line and resets the
//! column, any other consumed character bumps the column (both saturate).

use vstd::prelude::*;

use crate::entities::Entity;
use crate::entities::EntityV;
use crate::entities::ExprV;
use crate::entities::Expression;
use crate::entities::Identifier;
use crate::entities::List;
use crate::entities::Primitive;
use crate::entities::Value;
use crate::entities::ent_view;
use crate::entities::lemma_list_view;
use crate::errors::ParseError;
use crate::number::Number;
use crate::number::digit_prefix_len;
use crate::number::digits_val;
use crate::number::is_digit;
use crate::number::norm_spec;
use crate::number::lemma_digit_prefix_len_of;
use crate::render::bool_text;
use crate::render::nil_text;

verus! {

/// A count increased by one, saturating at `usize::MAX`.
pub open spec fn bump(x: int) -> int {
    if x < usize::MAX {
        x + 1
    } else {
        x as int
    }
}

/// A count increased by `k`, saturating at `usize::MAX`.
pub open spec fn bump_by(x: int, k: int) -> int {
    if x + k <= usize::MAX {
        x + k
    } else {
        usize::MAX as int
    }
}

/// True iff `c` is an ASCII letter.
pub open spec fn is_alpha(c: char) -> bool {
    (97 <= c as u32 && c as u32 <= 122) || (65 <= c as u32 && c as u32 <= 90)
}

/// True iff `c` may start an identifier.
pub open spec fn is_ident_start(c: char) -> bool {
    is_alpha(c) || c == '_'
}

/// True iff `c` may continue an identifier.
pub open spec fn is_ident_char(c: char) -> bool {
    is_ident_start(c) || is_digit(c)
}

/// The number of leading identifier characters of `t`.
pub open spec fn ident_prefix_len(t: Seq<char>) -> nat
    decreases t.len(),
{
    if t.len() == 0 || !is_ident_char(t[0]) {
        0
    } else {
        1 + ident_prefix_len(t.skip(1))
    }
}

/// `ident_prefix_len` is the first position holding a non-identifier
/// character.
pub proof fn lemma_ident_prefix_len_of(t: Seq<char>, k: nat)
    requires
        k <= t.len(),
        forall|j: int| 0 <= j < k ==> is_ident_char(#[trigger] t[j]),
        k == t.len() || !is_ident_char(t[k as int]),
    ensures
        ident_prefix_len(t) == k,
    decreases k,
{
    if k > 0 {
        let t2 = t.skip(1);
        assert(forall|j: int| 0 <= j < k - 1 ==> is_ident_char(#[trigger] t2[j]));
        assert(k - 1 == t2.len() || !is_ident_char(t2[k - 1]));
        lemma_ident_prefix_len_of(t2, (k - 1) as nat);
    }
}

/// An identifier prefix is no longer than the text.
pub proof fn lemma_ident_prefix_le(t: Seq<char>)
    ensures
        ident_prefix_len(t) <= t.len(),
    decreases t.len(),
{
    if t.len() > 0 && is_ident_char(t[0]) {
        lemma_ident_prefix_le(t.skip(1));
    }
}

/// The number of leading string-content characters of `t` (anything but a
/// closing quote or a newline).
pub open spec fn str_content_len(t: Seq<char>) -> nat
    decreases t.len(),
{
    if t.len() == 0 || t[0] == '"' || t[0] == '\n' {
        0
    } else {
        1 + str_content_len(t.skip(1))
    }
}

/// `str_content_len` is the first position holding a quote or newline.
pub proof fn lemma_str_content_len_of(t: Seq<char>, k: nat)
    requires
        k <= t.len(),
        forall|j: int| 0 <= j < k ==> #[trigger] t[j] != '"' && t[j] != '\n',
        k == t.len() || t[k as int] == '"' || t[k as int] == '\n',
    ensures
        str_content_len(t) == k,
    decreases k,
{
    if k > 0 {
        let t2 = t.skip(1);
        assert(forall|j: int| 0 <= j < k - 1 ==> #[trigger] t2[j] != '"' && t2[j] != '\n');
        assert(k - 1 == t2.len() || t2[k - 1] == '"' || t2[k - 1] == '\n');
        lemma_str_content_len_of(t2, (k - 1) as nat);
    }
}

/// Consumes a comment: everything up to and including the next newline.
pub open spec fn skip_comment(s: Seq<char>, i: int, line: int, col: int) -> (int, int, int)
    decreases s.len() - i,
{
    if i < 0 || i >= s.len() {
        (if i < 0 {
            0int
        } else {
            i
        }, line, col)
    } else if s[i] == '\n' {
        (i + 1, bump(line), 0)
    } else {
        skip_comment(s, i + 1, line, bump(col))
    }
}

/// A comment skip never moves backward.
pub proof fn lemma_skip_comment_ge(s: Seq<char>, i: int, line: int, col: int)
    requires
        0 <= i <= s.len(),
    ensures
        ({
            let (i2, l2, c2) = skip_comment(s, i, line, col);
            i <= i2 <= s.len()
        }),
    decreases s.len() - i,
{
    if i < s.len() && s[i] != '\n' {
        lemma_skip_comment_ge(s, i + 1, line, bump(col));
    }
}

/// Skips whitespace and comments between tokens.
pub open spec fn skip_ws(s: Seq<char>, i: int, line: int, col: int) -> (int, int, int)
    decreases s.len() - i, 1int,
    via skip_ws_dec
{
    if i < 0 || i >= s.len() {
        (if i < 0 {
            0int
        } else {
            i
        }, line, col)
    } else if s[i] == ' ' || s[i] == '\t' || s[i] == '\r' {
        skip_ws(s, i + 1, line, bump(col))
    } else if s[i] == '\n' {
        skip_ws(s, i + 1, bump(line), 0)
    } else if s[i] == '#' {
        let (i2, l2, c2) = skip_comment(s, i + 1, line, bump(col));
        skip_ws(s, i2, l2, c2)
    } else {
        (i, line, col)
    }
}

#[via_fn]
proof fn skip_ws_dec(s: Seq<char>, i: int, line: int, col: int) {
    if 0 <= i < s.len() && s[i] == '#' {
        lemma_skip_comment_ge(s, i + 1, line, bump(col));
    }
}

/// A whitespace skip never moves backward and stays in bounds.
pub proof fn lemma_skip_ws_ge(s: Seq<char>, i: int, line: int, col: int)
    requires
        0 <= i <= s.len(),
    ensures
        ({
            let (i2, l2, c2) = skip_ws(s, i, line, col);
            i <= i2 <= s.len()
        }),
    decreases s.len() - i, 1int,
{
    if 0 <= i < s.len() {
        if s[i] == ' ' || s[i] == '\t' || s[i] == '\r' {
            lemma_skip_ws_ge(s, i + 1, line, bump(col));
        } else if s[i] == '\n' {
            lemma_skip_ws_ge(s, i + 1, bump(line), 0);
        } else if s[i] == '#' {
            lemma_skip_comment_ge(s, i + 1, line, bump(col));
            let (i2, l2, c2) = skip_comment(s, i + 1, line, bump(col));
            lemma_skip_ws_ge(s, i2, l2, c2);
        }
    }
}

/// Skips to the next top-level `(`: whitespace, comments and any stray
/// text before a form are passed over silently.
pub open spec fn top_skip(s: Seq<char>, i: int, line: int, col: int) -> (int, int, int)
    decreases s.len() - i, 1int,
    via top_skip_dec
{
    if i < 0 || i >= s.len() {
        (if i < 0 {
            0int
        } else {
            i
        }, line, col)
    } else if s[i] == '(' {
        (i, line, col)
    } else if s[i] == '\n' {
        top_skip(s, i + 1, bump(line), 0)
    } else if s[i] == '#' {
        let (i2, l2, c2) = skip_comment(s, i + 1, line, bump(col));
        top_skip(s, i2, l2, c2)
    } else {
        top_skip(s, i + 1, line, bump(col))
    }
}

#[via_fn]
proof fn top_skip_dec(s: Seq<char>, i: int, line: int, col: int) {
    if 0 <= i < s.len() && s[i] == '#' {
        lemma_skip_comment_ge(s, i + 1, line, bump(col));
    }
}

/// A top-level skip never moves backward, stays in bounds, and stops only
/// at `(` or the end.
pub proof fn lemma_top_skip_ge(s: Seq<char>, i: int, line: int, col: int)
    requires
        0 <= i <= s.len(),
    ensures
        ({
            let (i2, l2, c2) = top_skip(s, i, line, col);
            i <= i2 <= s.len() && (i2 == s.len() || s[i2] == '(')
        }),
    decreases s.len() - i, 1int,
{
    if 0 <= i < s.len() && s[i] != '(' {
        if s[i] == '\n' {
            lemma_top_skip_ge(s, i + 1, bump(line), 0);
        } else if s[i] == '#' {
            lemma_skip_comment_ge(s, i + 1, line, bump(col));
            let (i2, l2, c2) = skip_comment(s, i + 1, line, bump(col));
            lemma_top_skip_ge(s, i2, l2, c2);
        } else {
            lemma_top_skip_ge(s, i + 1, line, bump(col));
        }
    }
}

/// Reads a number literal at `i` (`s[i]` is `-` or a digit).
pub open spec fn p_number(s: Seq<char>, i: int, line: int, col: int) -> (
    Result<EntityV, ParseError>,
    int,
    int,
    int,
)
    recommends
        0 <= i < s.len(),
{
    let neg = s[i] == '-';
    let d0 = if neg {
        i + 1
    } else {
        i
    };
    let k1 = digit_prefix_len(s.skip(d0)) as int;
    if k1 == 0 {
        (
            Err(
                ParseError::UnknownToken {
                    line: line as usize,
                    position: col as usize,
                    ch: s[i],
                },
            ),
            i,
            line,
            col,
        )
    } else {
        let e1 = d0 + k1;
        let k2 = if e1 < s.len() && s[e1] == '.' {
            digit_prefix_len(s.skip(e1 + 1)) as int
        } else {
            0int
        };
        let e2 = if k2 > 0 {
            e1 + 1 + k2
        } else {
            e1
        };
        let digits = if k2 > 0 {
            s.subrange(d0, e1) + s.subrange(e1 + 1, e2)
        } else {
            s.subrange(d0, e1)
        };
        let scale = if k2 > 0 {
            k2
        } else {
            0int
        };
        if digits_val(digits) > u128::MAX || scale > u32::MAX {
            (
                Err(ParseError::NumberTooLarge { line: line as usize, position: col as usize }),
                i,
                line,
                col,
            )
        } else {
            (
                Ok(EntityV::Num(norm_spec(neg, digits_val(digits) as u128, scale as u32))),
                e2,
                line,
                bump_by(col, e2 - i),
            )
        }
    }
}

/// Reads a string literal at `i` (`s[i]` is `"`): its raw content up to
/// the closing quote; a newline or the end of input before it is an error.
pub open spec fn p_string(s: Seq<char>, i: int, line: int, col: int) -> (
    Result<EntityV, ParseError>,
    int,
    int,
    int,
)
    recommends
        0 <= i < s.len(),
{
    let k = str_content_len(s.skip(i + 1)) as int;
    let j = i + 1 + k;
    if j >= s.len() || s[j] == '\n' {
        (
            Err(ParseError::UnterminatedString { line: line as usize, position: col as usize }),
            i,
            line,
            col,
        )
    } else {
        (Ok(EntityV::Str(s.subrange(i + 1, j))), j + 1, line, bump_by(col, k + 2))
    }
}

/// Reads an identifier or keyword at `i` (`s[i]` starts an identifier):
/// `true`, `false` and `nil` read as primitives, anything else as an
/// identifier.
pub open spec fn p_ident(s: Seq<char>, i: int, line: int, col: int) -> (
    Result<EntityV, ParseError>,
    int,
    int,
    int,
)
    recommends
        0 <= i < s.len(),
{
    let k = ident_prefix_len(s.skip(i)) as int;
    let name = s.subrange(i, i + k);
    let v = if name == bool_text(true) {
        EntityV::Bool(true)
    } else if name == bool_text(false) {
        EntityV::Bool(false)
    } else if name == nil_text() {
        EntityV::Nil
    } else {
        EntityV::Id(name)
    };
    (Ok(v), i + k, line, bump_by(col, k))
}

/// Reads one entity at `i`: dispatch on the current character.
pub open spec fn p_entity(s: Seq<char>, i: int, line: int, col: int) -> (
    Result<EntityV, ParseError>,
    int,
    int,
    int,
)
    decreases s.len() - i, 2int,
{
    if i < 0 || i >= s.len() {
        (
            Err(
                ParseError::UnknownToken { line: line as usize, position: col as usize, ch: ' ' },
            ),
            i,
            line,
            col,
        )
    } else if s[i] == '(' {
        p_expr(s, i, line, col)
    } else if s[i] == '[' {
        p_list(s, i, line, col)
    } else if s[i] == '"' {
        p_string(s, i, line, col)
    } else if s[i] == '-' || is_digit(s[i]) {
        p_number(s, i, line, col)
    } else if is_ident_start(s[i]) {
        p_ident(s, i, line, col)
    } else {
        (
            Err(
                ParseError::UnknownToken {
                    line: line as usize,
                    position: col as usize,
                    ch: s[i],
                },
            ),
            i,
            line,
            col,
        )
    }
}

/// Reads a call expression at `i` (`s[i]` is `(`): the function
/// identifier, then entities until the closing `)`.
pub open spec fn p_expr(s: Seq<char>, i: int, line: int, col: int) -> (
    Result<EntityV, ParseError>,
    int,
    int,
    int,
)
    decreases s.len() - i, 1int,
        when 0 <= i < s.len()
        via p_expr_dec
{
    let (i1, l1, c1) = skip_ws(s, i + 1, line, bump(col));
    if i1 >= s.len() {
        (
            Err(ParseError::IncompleteExpression { line: l1 as usize, position: c1 as usize }),
            i1,
            l1,
            c1,
        )
    } else if !is_ident_start(s[i1]) {
        (
            Err(ParseError::ExpectedIdentifier { line: l1 as usize, position: c1 as usize }),
            i1,
            l1,
            c1,
        )
    } else {
        let k = ident_prefix_len(s.skip(i1)) as int;
        let fid = s.subrange(i1, i1 + k);
        let (r, i2, l2, c2) = p_args(s, i1 + k, l1, bump_by(c1, k), Seq::empty());
        match r {
            Err(e) => (Err(e), i2, l2, c2),
            Ok(args) => (Ok(EntityV::Call(ExprV { fid, args })), i2, l2, c2),
        }
    }
}

#[via_fn]
proof fn p_expr_dec(s: Seq<char>, i: int, line: int, col: int) {
    if 0 <= i < s.len() {
        lemma_skip_ws_ge(s, i + 1, line, bump(col));
        let (i1, l1, c1) = skip_ws(s, i + 1, line, bump(col));
        if 0 <= i1 <= s.len() {
            lemma_ident_prefix_le(s.skip(i1));
        }
    }
}

/// Reads the argument entities of a call from `i` on, up to the closing
/// `)`; the end of input first is an error.
pub open spec fn p_args(s: Seq<char>, i: int, line: int, col: int, acc: Seq<EntityV>) -> (
    Result<Seq<EntityV>, ParseError>,
    int,
    int,
    int,
)
    decreases s.len() - i, 3int,
        when 0 <= i <= s.len()
        via p_args_dec
{
    let (i1, l1, c1) = skip_ws(s, i, line, col);
    if i1 >= s.len() {
        (
            Err(ParseError::IncompleteExpression { line: l1 as usize, position: c1 as usize }),
            i1,
            l1,
            c1,
        )
    } else if s[i1] == ')' {
        (Ok(acc), i1 + 1, l1, bump(c1))
    } else {
        let (r, i2, l2, c2) = p_entity(s, i1, l1, c1);
        match r {
            Err(e) => (Err(e), i2, l2, c2),
            Ok(v) => if i2 <= i1 || i2 > s.len() {
                (
                    Err(
                        ParseError::IncompleteExpression {
                            line: l2 as usize,
                            position: c2 as usize,
                        },
                    ),
                    i2,
                    l2,
                    c2,
                )
            } else {
                p_args(s, i2, l2, c2, acc.push(v))
            },
        }
    }
}

#[via_fn]
proof fn p_args_dec(s: Seq<char>, i: int, line: int, col: int, acc: Seq<EntityV>) {
    if 0 <= i <= s.len() {
        lemma_skip_ws_ge(s, i, line, col);
    }
}

/// Reads a list literal at `i` (`s[i]` is `[`): entities until the closing
/// `]`; the end of input first is an error.
pub open spec fn p_list(s: Seq<char>, i: int, line: int, col: int) -> (
    Result<EntityV, ParseError>,
    int,
    int,
    int,
)
    decreases s.len() - i, 1int,
        when 0 <= i < s.len()
{
    let (r, i2, l2, c2) = p_items(s, i + 1, line, bump(col), Seq::empty());
    match r {
        Err(e) => (Err(e), i2, l2, c2),
        Ok(items) => (Ok(EntityV::List(items)), i2, l2, c2),
    }
}

/// Reads list items from `i` on, up to the closing `]`.
pub open spec fn p_items(s: Seq<char>, i: int, line: int, col: int, acc: Seq<EntityV>) -> (
    Result<Seq<EntityV>, ParseError>,
    int,
    int,
    int,
)
    decreases s.len() - i, 3int,
        when 0 <= i <= s.len()
        via p_items_dec
{
    let (i1, l1, c1) = skip_ws(s, i, line, col);
    if i1 >= s.len() {
        (
            Err(ParseError::IncompleteList { line: l1 as usize, position: c1 as usize }),
            i1,
            l1,
            c1,
        )
    } else if s[i1] == ']' {
        (Ok(acc), i1 + 1, l1, bump(c1))
    } else {
        let (r, i2, l2, c2) = p_entity(s, i1, l1, c1);
        match r {
            Err(e) => (Err(e), i2, l2, c2),
            Ok(v) => if i2 <= i1 || i2 > s.len() {
                (
                    Err(
                        ParseError::IncompleteList { line: l2 as usize, position: c2 as usize },
                    ),
                    i2,
                    l2,
                    c2,
                )
            } else {
                p_items(s, i2, l2, c2, acc.push(v))
            },
        }
    }
}

#[via_fn]
proof fn p_items_dec(s: Seq<char>, i: int, line: int, col: int, acc: Seq<EntityV>) {
    if 0 <= i <= s.len() {
        lemma_skip_ws_ge(s, i, line, col);
    }
}

/// Reads every top-level form from `i` on: scans to the next `(`, reads
/// one expression, and repeats until the end of input.
pub open spec fn p_program(s: Seq<char>, i: int, line: int, col: int, acc: Seq<ExprV>) -> Result<
    Seq<ExprV>,
    ParseError,
>
    decreases s.len() - i, 4int,
        when 0 <= i <= s.len()
        via p_program_dec
{
    let (i1, l1, c1) = top_skip(s, i, line, col);
    if i1 >= s.len() {
        Ok(acc)
    } else {
        let (r, i2, l2, c2) = p_expr(s, i1, l1, c1);
        match r {
            Err(e) => Err(e),
            Ok(v) => if i2 <= i1 || i2 > s.len() {
                Err(
                    ParseError::IncompleteExpression { line: l2 as usize, position: c2 as usize },
                )
            } else {
                match v {
                    EntityV::Call(x) => p_program(s, i2, l2, c2, acc.push(x)),
                    _ => Err(
                        ParseError::ExpectedIdentifier { line: l2 as usize, position: c2 as usize },
                    ),
                }
            },
        }
    }
}

#[via_fn]
proof fn p_program_dec(s: Seq<char>, i: int, line: int, col: int, acc: Seq<ExprV>) {
    if 0 <= i <= s.len() {
        lemma_top_skip_ge(s, i, line, col);
    }
}

/// What parsing a whole source text yields: the top-level forms, starting
/// at line 1, column 0.
pub open spec fn parse_spec(s: Seq<char>) -> Result<Seq<ExprV>, ParseError> {
    p_program(s, 0, 1, 0, Seq::empty())
}

/// A count increased by one, saturating at `usize::MAX`.
fn bump_x(x: usize) -> (r: usize)
    ensures
        r as int == bump(x as int),
{
    if x < usize::MAX {
        x + 1
    } else {
        x
    }
}

/// A count increased by `k`, saturating at `usize::MAX`.
fn bump_by_x(x: usize, k: usize) -> (r: usize)
    ensures
        r as int == bump_by(x as int, k as int),
{
    if x <= usize::MAX - k {
        x + k
    } else {
        usize::MAX
    }
}

/// True iff `c` may start an identifier.
pub fn is_ident_start_char(c: char) -> (r: bool)
    ensures
        r == is_ident_start(c),
{
    let u = c as u32;
    (97 <= u && u <= 122) || (65 <= u && u <= 90) || c == '_'
}

/// True iff `c` may continue an identifier.
pub fn is_ident_char_x(c: char) -> (r: bool)
    ensures
        r == is_ident_char(c),
{
    is_ident_start_char(c) || crate::number::is_digit_char(c)
}

/// Consumes a comment (see [`skip_comment`]).
fn skip_comment_x(s: &str, i: usize, line: usize, col: usize) -> (r: (usize, usize, usize))
    requires
        i <= s@.len(),
    ensures
        (r.0 as int, r.1 as int, r.2 as int) == skip_comment(s@, i as int, line as int, col as int),
        i <= r.0 <= s@.len(),
{
    let n = s.unicode_len();
    let mut j = i;
    let mut l = line;
    let mut c = col;
    loop
        invariant_except_break
            skip_comment(s@, i as int, line as int, col as int) == skip_comment(
                s@,
                j as int,
                l as int,
                c as int,
            ),
        invariant
            i <= j <= n,
            n == s@.len(),
        ensures
            i <= j <= n,
            skip_comment(s@, i as int, line as int, col as int) == (j as int, l as int, c as int),
        decreases n - j,
    {
        if j == n {
            break ;
        }
        let ch = s.get_char(j);
        if ch == '\n' {
            proof {
                assert(skip_comment(s@, j as int, l as int, c as int) == (
                    j + 1,
                    bump(l as int),
                    0int,
                ));
            }
            j = j + 1;
            l = bump_x(l);
            c = 0;
            break ;
        }
        c = bump_x(c);
        j = j + 1;
    }
    (j, l, c)
}

/// Skips whitespace and comments (see [`skip_ws`]).
fn skip_ws_x(s: &str, i: usize, line: usize, col: usize) -> (r: (usize, usize, usize))
    requires
        i <= s@.len(),
    ensures
        (r.0 as int, r.1 as int, r.2 as int) == skip_ws(s@, i as int, line as int, col as int),
        i <= r.0 <= s@.len(),
{
    let n = s.unicode_len();
    let mut j = i;
    let mut l = line;
    let mut c = col;
    loop
        invariant
            i <= j <= n,
            n == s@.len(),
            skip_ws(s@, i as int, line as int, col as int) == skip_ws(
                s@,
                j as int,
                l as int,
                c as int,
            ),
        ensures
            i <= j <= n,
            skip_ws(s@, i as int, line as int, col as int) == (j as int, l as int, c as int),
        decreases n - j,
    {
        if j == n {
            break ;
        }
        let ch = s.get_char(j);
        if ch == ' ' || ch == '\t' || ch == '\r' {
            c = bump_x(c);
            j = j + 1;
        } else if ch == '\n' {
            l = bump_x(l);
            c = 0;
            j = j + 1;
        } else if ch == '#' {
            let (j2, l2, c2) = skip_comment_x(s, j + 1, l, bump_x(c));
            j = j2;
            l = l2;
            c = c2;
        } else {
            break ;
        }
    }
    (j, l, c)
}

/// Skips to the next top-level `(` (see [`top_skip`]).
fn top_skip_x(s: &str, i: usize, line: usize, col: usize) -> (r: (usize, usize, usize))
    requires
        i <= s@.len(),
    ensures
        (r.0 as int, r.1 as int, r.2 as int) == top_skip(s@, i as int, line as int, col as int),
        i <= r.0 <= s@.len(),
        r.0 == s@.len() || s@[r.0 as int] == '(',
{
    let n = s.unicode_len();
    let mut j = i;
    let mut l = line;
    let mut c = col;
    loop
        invariant
            i <= j <= n,
            n == s@.len(),
            top_skip(s@, i as int, line as int, col as int) == top_skip(
                s@,
                j as int,
                l as int,
                c as int,
            ),
        ensures
            i <= j <= n,
            top_skip(s@, i as int, line as int, col as int) == (j as int, l as int, c as int),
            j == n || s@[j as int] == '(',
        decreases n - j,
    {
        if j == n {
            break ;
        }
        let ch = s.get_char(j);
        if ch == '(' {
            break ;
        } else if ch == '\n' {
            l = bump_x(l);
            c = 0;
            j = j + 1;
        } else if ch == '#' {
            let (j2, l2, c2) = skip_comment_x(s, j + 1, l, bump_x(c));
            j = j2;
            l = l2;
            c = c2;
        } else {
            c = bump_x(c);
            j = j + 1;
        }
    }
    (j, l, c)
}

/// Finds the end of the identifier starting at `i`.
fn scan_ident(s: &str, i: usize) -> (r: usize)
    requires
        i <= s@.len(),
    ensures
        i <= r <= s@.len(),
        r - i == ident_prefix_len(s@.skip(i as int)),
{
    let n = s.unicode_len();
    let mut j = i;
    while j < n && is_ident_char_x(s.get_char(j))
        invariant
            i <= j <= n,
            n == s@.len(),
            forall|k: int| i <= k < j ==> is_ident_char(#[trigger] s@[k]),
        decreases n - j,
    {
        j = j + 1;
    }
    proof {
        let t = s@.skip(i as int);
        assert(forall|k: int| 0 <= k < j - i ==> is_ident_char(#[trigger] t[k]));
        if j < n {
            assert(t[j - i] == s@[j as int]);
        }
        lemma_ident_prefix_len_of(t, (j - i) as nat);
    }
    j
}

/// Reads a number literal at `i` (see [`p_number`]).
fn parse_number_at(s: &str, i: usize, line: usize, col: usize) -> (r: (
    Result<Entity, ParseError>,
    usize,
    usize,
    usize,
))
    requires
        i < s@.len(),
    ensures
        ({
            let (res, i2, l2, c2) = p_number(s@, i as int, line as int, col as int);
            &&& (r.1 as int, r.2 as int, r.3 as int) == (i2, l2, c2)
            &&& i <= r.1 <= s@.len()
            &&& match (r.0, res) {
                (Ok(e), Ok(ev)) => e@ == ev,
                (Err(a), Err(b)) => a == b,
                _ => false,
            }
        }),
{
    let n = s.unicode_len();
    let neg = s.get_char(i) == '-';
    let d0 = if neg {
        i + 1
    } else {
        i
    };
    proof {
        assert(Seq::<char>::empty() + s@.subrange(d0 as int, d0 as int) =~= Seq::<char>::empty());
    }
    let (e1, acc1, big1) = crate::number::scan_digits(s, d0, 0, false, Ghost(Seq::empty()));
    if e1 == d0 {
        return (
            (
                Err(
                    ParseError::UnknownToken { line, position: col, ch: s.get_char(i) },
                ),
                i,
                line,
                col,
            )
        );
    }
    let ghost ds1 = s@.subrange(d0 as int, e1 as int);
    proof {
        assert(Seq::<char>::empty() + ds1 =~= ds1);
    }
    let mut e2 = e1;
    let mut acc = acc1;
    let mut big = big1;
    let mut scale: usize = 0;
    if e1 < n && s.get_char(e1) == '.' {
        let (e2b, acc2, big2) = crate::number::scan_digits(s, e1 + 1, acc1, big1, Ghost(ds1));
        if e2b > e1 + 1 {
            e2 = e2b;
            acc = acc2;
            big = big2;
            scale = e2b - (e1 + 1);
            proof {
                assert(ds1 + s@.subrange(e1 as int + 1, e2b as int) =~= s@.subrange(
                    d0 as int,
                    e1 as int,
                ) + s@.subrange(e1 as int + 1, e2b as int));
            }
        }
    }
    proof {
        if scale == 0 {
            assert(s@.subrange(d0 as int, e1 as int) == ds1);
        }
    }
    if big {
        return ((Err(ParseError::NumberTooLarge { line, position: col }), i, line, col));
    }
    if scale > u32::MAX as usize {
        return ((Err(ParseError::NumberTooLarge { line, position: col }), i, line, col));
    }
    let num = Number::new(neg, acc, scale as u32);
    (
        (
            Ok(Entity::Value(Value::Primitive(Primitive::Number(num)))),
            e2,
            line,
            bump_by_x(col, e2 - i),
        )
    )
}

/// Reads a string literal at `i` (see [`p_string`]).
fn parse_string_at(s: &str, i: usize, line: usize, col: usize) -> (r: (
    Result<Entity, ParseError>,
    usize,
    usize,
    usize,
))
    requires
        i < s@.len(),
    ensures
        ({
            let (res, i2, l2, c2) = p_string(s@, i as int, line as int, col as int);
            &&& (r.1 as int, r.2 as int, r.3 as int) == (i2, l2, c2)
            &&& i <= r.1 <= s@.len()
            &&& match (r.0, res) {
                (Ok(e), Ok(ev)) => e@ == ev,
                (Err(a), Err(b)) => a == b,
                _ => false,
            }
        }),
{
    let n = s.unicode_len();
    let mut j = i + 1;
    while j < n && s.get_char(j) != '"' && s.get_char(j) != '\n'
        invariant
            i + 1 <= j <= n,
            n == s@.len(),
            forall|k: int| i + 1 <= k < j ==> #[trigger] s@[k] != '"' && s@[k] != '\n',
        decreases n - j,
    {
        j = j + 1;
    }
    proof {
        let t = s@.skip(i as int + 1);
        assert(forall|k: int| 0 <= k < j - i - 1 ==> #[trigger] t[k] != '"' && t[k] != '\n');
        if j < n {
            assert(t[j - i - 1] == s@[j as int]);
        }
        lemma_str_content_len_of(t, (j - i - 1) as nat);
    }
    if j == n || s.get_char(j) == '\n' {
        return ((Err(ParseError::UnterminatedString { line, position: col }), i, line, col));
    }
    let content = s.substring_char(i + 1, j).to_owned();
    (
        (
            Ok(Entity::Value(Value::Primitive(Primitive::String(content)))),
            j + 1,
            line,
            bump_by_x(col, (j - i - 1) + 2),
        )
    )
}

/// Reads an identifier or keyword at `i` (see [`p_ident`]).
fn parse_ident_at(s: &str, i: usize, line: usize, col: usize) -> (r: (
    Result<Entity, ParseError>,
    usize,
    usize,
    usize,
))
    requires
        i < s@.len(),
    ensures
        ({
            let (res, i2, l2, c2) = p_ident(s@, i as int, line as int, col as int);
            &&& (r.1 as int, r.2 as int, r.3 as int) == (i2, l2, c2)
            &&& i <= r.1 <= s@.len()
            &&& match (r.0, res) {
                (Ok(e), Ok(ev)) => e@ == ev,
                (Err(a), Err(b)) => a == b,
                _ => false,
            }
        }),
{
    let j = scan_ident(s, i);
    let name = s.substring_char(i, j);
    proof {
        reveal_strlit("true");
        reveal_strlit("false");
        reveal_strlit("nil");
        assert("true"@ =~= bool_text(true));
        assert("false"@ =~= bool_text(false));
        assert("nil"@ =~= nil_text());
    }
    let e = if crate::executer::str_eq(name, "true") {
        Entity::Value(Value::Primitive(Primitive::Bool(true)))
    } else if crate::executer::str_eq(name, "false") {
        Entity::Value(Value::Primitive(Primitive::Bool(false)))
    } else if crate::executer::str_eq(name, "nil") {
        Entity::Value(Value::Primitive(Primitive::Nil))
    } else {
        Entity::Identifier(Identifier(name.to_owned()))
    };
    ((Ok(e), j, line, bump_by_x(col, j - i)))
}

/// Reads one entity at `i` (see [`p_entity`]).
fn parse_entity_at(s: &str, i: usize, line: usize, col: usize) -> (r: (
    Result<Entity, ParseError>,
    usize,
    usize,
    usize,
))
    requires
        i < s@.len(),
    ensures
        ({
            let (res, i2, l2, c2) = p_entity(s@, i as int, line as int, col as int);
            &&& (r.1 as int, r.2 as int, r.3 as int) == (i2, l2, c2)
            &&& i <= r.1 <= s@.len()
            &&& match (r.0, res) {
                (Ok(e), Ok(ev)) => e@ == ev,
                (Err(a), Err(b)) => a == b,
                _ => false,
            }
        }),
    decreases s@.len() - i, 2int,
{
    let c = s.get_char(i);
    if c == '(' {
        parse_expr_at(s, i, line, col)
    } else if c == '[' {
        parse_list_at(s, i, line, col)
    } else if c == '"' {
        parse_string_at(s, i, line, col)
    } else if c == '-' || crate::number::is_digit_char(c) {
        parse_number_at(s, i, line, col)
    } else if is_ident_start_char(c) {
        parse_ident_at(s, i, line, col)
    } else {
        ((Err(ParseError::UnknownToken { line, position: col, ch: c }), i, line, col))
    }
}

/// Reads a call expression at `i` (see [`p_expr`]). The produced
/// expression records the line and column of its opening parenthesis.
fn parse_expr_at(s: &str, i: usize, line: usize, col: usize) -> (r: (
    Result<Entity, ParseError>,
    usize,
    usize,
    usize,
))
    requires
        i < s@.len(),
    ensures
        ({
            let (res, i2, l2, c2) = p_expr(s@, i as int, line as int, col as int);
            &&& (r.1 as int, r.2 as int, r.3 as int) == (i2, l2, c2)
            &&& i <= r.1 <= s@.len()
            &&& match (r.0, res) {
                (Ok(e), Ok(ev)) => e@ == ev,
                (Err(a), Err(b)) => a == b,
                _ => false,
            }
        }),
    decreases s@.len() - i, 1int,
{
    let n = s.unicode_len();
    let (i1, l1, c1) = skip_ws_x(s, i + 1, line, bump_x(col));
    if i1 == n {
        return ((Err(ParseError::IncompleteExpression { line: l1, position: c1 }), i1, l1, c1));
    }
    if !is_ident_start_char(s.get_char(i1)) {
        return ((Err(ParseError::ExpectedIdentifier { line: l1, position: c1 }), i1, l1, c1));
    }
    let j = scan_ident(s, i1);
    let fid = s.substring_char(i1, j).to_owned();
    let (ra, i2, l2, c2) = parse_args_at(s, j, l1, bump_by_x(c1, j - i1), Vec::new());
    match ra {
        Err(e) => ((Err(e), i2, l2, c2)),
        Ok(items) => {
            let x = Expression { fid: Identifier(fid), args: List(items), line, pos: col };
            proof {
                lemma_list_view(x.args);
            }
            ((Ok(Entity::Expression(x)), i2, l2, c2))
        },
    }
}

/// Reads the arguments of a call up to `)` (see [`p_args`]), extending
/// `items`.
fn parse_args_at(s: &str, i: usize, line: usize, col: usize, items: Vec<Entity>) -> (r: (
    Result<Vec<Entity>, ParseError>,
    usize,
    usize,
    usize,
))
    requires
        i <= s@.len(),
    ensures
        ({
            let (res, i2, l2, c2) = p_args(
                s@,
                i as int,
                line as int,
                col as int,
                crate::entities::ents_view_from(items@, 0),
            );
            &&& (r.1 as int, r.2 as int, r.3 as int) == (i2, l2, c2)
            &&& i <= r.1 <= s@.len()
            &&& match (r.0, res) {
                (Ok(v), Ok(ev)) => crate::entities::ents_view_from(v@, 0) == ev,
                (Err(a), Err(b)) => a == b,
                _ => false,
            }
        }),
    decreases s@.len() - i, 3int,
{
    let n = s.unicode_len();
    let (j1, l1, c1) = skip_ws_x(s, i, line, col);
    if j1 == n {
        return ((Err(ParseError::IncompleteExpression { line: l1, position: c1 }), j1, l1, c1));
    }
    if s.get_char(j1) == ')' {
        return ((Ok(items), j1 + 1, l1, bump_x(c1)));
    }
    let (re, j2, l2, c2) = parse_entity_at(s, j1, l1, c1);
    match re {
        Err(e) => ((Err(e), j2, l2, c2)),
        Ok(v) => {
            if j2 <= j1 {
                return (
                    (Err(ParseError::IncompleteExpression { line: l2, position: c2 }), j2, l2, c2)
                );
            }
            let ghost before = items@;
            let mut items2 = items;
            items2.push(v);
            proof {
                crate::entities::lemma_ents_view_from(before, 0);
                crate::entities::lemma_ents_view_from(items2@, 0);
                assert(crate::entities::ents_view_from(items2@, 0) =~= crate::entities::ents_view_from(
                    before,
                    0,
                ).push(v@));
            }
            parse_args_at(s, j2, l2, c2, items2)
        },
    }
}

/// Reads a list literal at `i` (see [`p_list`]).
fn parse_list_at(s: &str, i: usize, line: usize, col: usize) -> (r: (
    Result<Entity, ParseError>,
    usize,
    usize,
    usize,
))
    requires
        i < s@.len(),
    ensures
        ({
            let (res, i2, l2, c2) = p_list(s@, i as int, line as int, col as int);
            &&& (r.1 as int, r.2 as int, r.3 as int) == (i2, l2, c2)
            &&& i <= r.1 <= s@.len()
            &&& match (r.0, res) {
                (Ok(e), Ok(ev)) => e@ == ev,
                (Err(a), Err(b)) => a == b,
                _ => false,
            }
        }),
    decreases s@.len() - i, 1int,
{
    let n = s.unicode_len();
    let (ri, i2, l2, c2) = parse_items_at(s, i + 1, line, bump_x(col), Vec::new());
    match ri {
        Err(e) => ((Err(e), i2, l2, c2)),
        Ok(items) => {
            let l = List(items);
            proof {
                lemma_list_view(l);
                assert(crate::entities::ents_view_from(l.0@, 0) == l@);
            }
            ((Ok(Entity::Value(Value::List(l))), i2, l2, c2))
        },
    }
}

/// Reads list items up to `]` (see [`p_items`]), extending `items`.
fn parse_items_at(s: &str, i: usize, line: usize, col: usize, items: Vec<Entity>) -> (r: (
    Result<Vec<Entity>, ParseError>,
    usize,
    usize,
    usize,
))
    requires
        i <= s@.len(),
    ensures
        ({
            let (res, i2, l2, c2) = p_items(
                s@,
                i as int,
                line as int,
                col as int,
                crate::entities::ents_view_from(items@, 0),
            );
            &&& (r.1 as int, r.2 as int, r.3 as int) == (i2, l2, c2)
            &&& i <= r.1 <= s@.len()
            &&& match (r.0, res) {
                (Ok(v), Ok(ev)) => crate::entities::ents_view_from(v@, 0) == ev,
                (Err(a), Err(b)) => a == b,
                _ => false,
            }
        }),
    decreases s@.len() - i, 3int,
{
    let n = s.unicode_len();
    let (j1, l1, c1) = skip_ws_x(s, i, line, col);
    if j1 == n {
        return ((Err(ParseError::IncompleteList { line: l1, position: c1 }), j1, l1, c1));
    }
    if s.get_char(j1) == ']' {
        return ((Ok(items), j1 + 1, l1, bump_x(c1)));
    }
    let (re, j2, l2, c2) = parse_entity_at(s, j1, l1, c1);
    match re {
        Err(e) => ((Err(e), j2, l2, c2)),
        Ok(v) => {
            if j2 <= j1 {
                return ((Err(ParseError::IncompleteList { line: l2, position: c2 }), j2, l2, c2));
            }
            let ghost before = items@;
            let mut items2 = items;
            items2.push(v);
            proof {
                crate::entities::lemma_ents_view_from(before, 0);
                crate::entities::lemma_ents_view_from(items2@, 0);
                assert(crate::entities::ents_view_from(items2@, 0) =~= crate::entities::ents_view_from(
                    before,
                    0,
                ).push(v@));
            }
            parse_items_at(s, j2, l2, c2, items2)
        },
    }
}

/// The ghost models of a vector of expressions.
pub open spec fn exprs_view(v: Seq<Expression>) -> Seq<ExprV> {
    Seq::new(v.len(), |k: int| v[k]@)
}

/// Reads every remaining top-level form (see [`p_program`]), extending
/// `acc`.
fn parse_program_at(s: &str, i: usize, line: usize, col: usize, acc: Vec<Expression>) -> (r: Result<
    Vec<Expression>,
    ParseError,
>)
    requires
        i <= s@.len(),
    ensures
        ({
            let res = p_program(s@, i as int, line as int, col as int, exprs_view(acc@));
            match (r, res) {
                (Ok(v), Ok(ev)) => exprs_view(v@) == ev,
                (Err(a), Err(b)) => a == b,
                _ => false,
            }
        }),
    decreases s@.len() - i, 4int,
{
    let n = s.unicode_len();
    let (j1, l1, c1) = top_skip_x(s, i, line, col);
    if j1 == n {
        return Ok(acc);
    }
    let (re, j2, l2, c2) = parse_expr_at(s, j1, l1, c1);
    match re {
        Err(e) => Err(e),
        Ok(v) => {
            if j2 <= j1 {
                return Err(ParseError::IncompleteExpression { line: l2, position: c2 });
            }
            match v {
                Entity::Expression(x) => {
                    let ghost before = acc@;
                    let mut acc2 = acc;
                    acc2.push(x);
                    proof {
                        assert(exprs_view(acc2@) =~= exprs_view(before).push(acc2@.last()@));
                    }
                    parse_program_at(s, j2, l2, c2, acc2)
                },
                _ => Err(ParseError::ExpectedIdentifier { line: l2, position: c2 }),
            }
        },
    }
}

/// Parses a whole source text into its top-level forms (see
/// [`parse_spec`]).
pub fn parse(input: &str) -> (r: Result<Vec<Expression>, ParseError>)
    ensures
        ({
            match (r, parse_spec(input@)) {
                (Ok(v), Ok(ev)) => exprs_view(v@) == ev,
                (Err(a), Err(b)) => a == b,
                _ => false,
            }
        }),
{
    let acc: Vec<Expression> = Vec::new();
    proof {
        assert(exprs_view(acc@) =~= Seq::<ExprV>::empty());
    }
    parse_program_at(input, 0, 1, 0, acc)
}

/// The character-level scanner and recursive-descent consumer: tracks a
/// position in the source and hands out the next syntactic unit on demand.
pub struct Parser<'a> {
    /// The source text.
    pub src: &'a str,
    /// The index of the next character to read.
    pub i: usize,
    /// The current line, starting at 1; for diagnostics.
    pub line: usize,
    /// The current column, reset at each newline; for diagnostics.
    pub pos: usize,
}

impl<'a> Parser<'a> {
    /// A parser at the start of the given source text.
    pub fn new(input: &'a str) -> (r: Parser<'a>)
        ensures
            r.src@ == input@ && r.i == 0 && r.line == 1 && r.pos == 0,
    {
        Parser { src: input, i: 0, line: 1, pos: 0 }
    }

    /// Parses every top-level form of the source (see [`parse_spec`]).
    pub fn parse_expressions(&mut self) -> (r: Result<Vec<Expression>, ParseError>)
        requires
            old(self).i <= old(self).src@.len(),
        ensures
            ({
                let res = p_program(
                    old(self).src@,
                    old(self).i as int,
                    old(self).line as int,
                    old(self).pos as int,
                    Seq::empty(),
                );
                match (r, res) {
                    (Ok(v), Ok(ev)) => exprs_view(v@) == ev,
                    (Err(a), Err(b)) => a == b,
                    _ => false,
                }
            }),
    {
        let acc: Vec<Expression> = Vec::new();
        proof {
            assert(exprs_view(acc@) =~= Seq::<ExprV>::empty());
        }
        parse_program_at(self.src, self.i, self.line, self.pos, acc)
    }

    /// Reads one number literal at the current position (see
    /// [`p_number`]).
    pub fn parse_number(&mut self) -> (r: Result<Entity, ParseError>)
        requires
            old(self).i < old(self).src@.len(),
        ensures
            final(self).src@ == old(self).src@,
            ({
                let (res, i2, l2, c2) = p_number(
                    old(self).src@,
                    old(self).i as int,
                    old(self).line as int,
                    old(self).pos as int,
                );
                &&& (final(self).i as int, final(self).line as int, final(self).pos as int) == (
                    i2,
                    l2,
                    c2,
                )
                &&& match (r, res) {
                    (Ok(e), Ok(ev)) => e@ == ev,
                    (Err(a), Err(b)) => a == b,
                    _ => false,
                }
            }),
    {
        let (r, i2, l2, c2) = parse_number_at(self.src, self.i, self.line, self.pos);
        self.i = i2;
        self.line = l2;
        self.pos = c2;
        r
    }

    /// Reads one string literal at the current position (see
    /// [`p_string`]).
    pub fn parse_string(&mut self) -> (r: Result<Entity, ParseError>)
        requires
            old(self).i < old(self).src@.len(),
        ensures
            final(self).src@ == old(self).src@,
            ({
                let (res, i2, l2, c2) = p_string(
                    old(self).src@,
                    old(self).i as int,
                    old(self).line as int,
                    old(self).pos as int,
                );
                &&& (final(self).i as int, final(self).line as int, final(self).pos as int) == (
                    i2,
                    l2,
                    c2,
                )
                &&& match (r, res) {
                    (Ok(e), Ok(ev)) => e@ == ev,
                    (Err(a), Err(b)) => a == b,
                    _ => false,
                }
            }),
    {
        let (r, i2, l2, c2) = parse_string_at(self.src, self.i, self.line, self.pos);
        self.i = i2;
        self.line = l2;
        self.pos = c2;
        r
    }

    /// Reads one identifier or keyword at the current position (see
    /// [`p_ident`]).
    pub fn parse_identifier(&mut self) -> (r: Result<Entity, ParseError>)
        requires
            old(self).i < old(self).src@.len(),
        ensures
            final(self).src@ == old(self).src@,
            ({
                let (res, i2, l2, c2) = p_ident(
                    old(self).src@,
                    old(self).i as int,
                    old(self).line as int,
                    old(self).pos as int,
                );
                &&& (final(self).i as int, final(self).line as int, final(self).pos as int) == (
                    i2,
                    l2,
                    c2,
                )
                &&& match (r, res) {
                    (Ok(e), Ok(ev)) => e@ == ev,
                    (Err(a), Err(b)) => a == b,
                    _ => false,
                }
            }),
    {
        let (r, i2, l2, c2) = parse_ident_at(self.src, self.i, self.line, self.pos);
        self.i = i2;
        self.line = l2;
        self.pos = c2;
        r
    }

    /// Reads one list literal at the current position (see [`p_list`]).
    pub fn parse_list(&mut self) -> (r: Result<Entity, ParseError>)
        requires
            old(self).i < old(self).src@.len(),
        ensures
            final(self).src@ == old(self).src@,
            ({
                let (res, i2, l2, c2) = p_list(
                    old(self).src@,
                    old(self).i as int,
                    old(self).line as int,
                    old(self).pos as int,
                );
                &&& (final(self).i as int, final(self).line as int, final(self).pos as int) == (
                    i2,
                    l2,
                    c2,
                )
                &&& match (r, res) {
                    (Ok(e), Ok(ev)) => e@ == ev,
                    (Err(a), Err(b)) => a == b,
                    _ => false,
                }
            }),
    {
        let (r, i2, l2, c2) = parse_list_at(self.src, self.i, self.line, self.pos);
        self.i = i2;
        self.line = l2;
        self.pos = c2;
        r
    }
}

} // verus!