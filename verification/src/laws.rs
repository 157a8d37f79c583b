//! Library-wide properties, stated and proved over the ghost models.
//!
//! - [`lemma_parse_source_roundtrip`]: parsing the source text of a
//!   well-formed expression reproduces exactly that expression (render and
//!   parse are inverse on the core grammar);
//! - [`lemma_add_is_sum`] and [`lemma_mul_is_product`]: `add` and `mul` of
//!   number literals fold to the exact sum and product, with 0 and 1 for
//!   no operands, and leave the state alone;
//! - [`lemma_sub_needs_two`] and [`lemma_div_needs_two`]: `sub` and `div`
//!   with fewer than two operands fail with the not-enough-arguments
//!   error.

use vstd::prelude::*;

use crate::entities::EntityV;
use crate::entities::ExprV;
use crate::entities::ent_size;
use crate::entities::seq_size_from;
use crate::entities::lemma_seq_size_elem;
use crate::entities::lemma_ent_size_pos;
use crate::errors::ErrV;
use crate::errors::ParseError;
use crate::executer::StateV;
use crate::executer::eval_call;
use crate::number::Number;
use crate::number::add_spec;
use crate::number::mul_spec;
use crate::number::digits_val;
use crate::number::digit_prefix_len;
use crate::number::dec_digits;
use crate::number::is_digit;
use crate::number::lemma_dec_digits_props;
use crate::number::lemma_digit_prefix_len_of;
use crate::number::lemma_digits_val_zero_prefix;
use crate::number::lemma_norm_spec_id;
use crate::number::norm_spec;
use crate::number::num_text;
use crate::number::zero_seq;
use crate::parser::ident_prefix_len;
use crate::parser::is_ident_char;
use crate::parser::is_ident_start;
use crate::parser::lemma_ident_prefix_len_of;
use crate::parser::lemma_str_content_len_of;
use crate::parser::p_args;
use crate::parser::p_entity;
use crate::parser::p_expr;
use crate::parser::p_items;
use crate::parser::p_number;
use crate::parser::p_program;
use crate::parser::parse_spec;
use crate::parser::skip_ws;
use crate::parser::top_skip;
use crate::render::bool_text;
use crate::render::nil_text;
use crate::render::source_tail;
use crate::render::source_text;

verus! {

/// True iff `name` is valid identifier text: an identifier-start character
/// followed by identifier characters.
pub open spec fn ident_text(name: Seq<char>) -> bool {
    &&& name.len() >= 1
    &&& is_ident_start(name[0])
    &&& forall|j: int| 0 <= j < name.len() ==> is_ident_char(#[trigger] name[j])
}

/// True iff the entity's source text reads back as the entity: numbers
/// canonical, strings free of quotes and newlines, identifiers valid
/// non-keyword names, function ids valid names, and every nested entity
/// the same.
pub open spec fn writable(v: EntityV) -> bool
    decreases v, 0int,
{
    match v {
        EntityV::Num(n) => n.wf(),
        EntityV::Str(s) => forall|j: int|
            0 <= j < s.len() ==> #[trigger] s[j] != '"' && s[j] != '\n',
        EntityV::Bool(_) => true,
        EntityV::Nil => true,
        EntityV::Id(name) => ident_text(name) && name != bool_text(true) && name != bool_text(
            false,
        ) && name != nil_text(),
        EntityV::List(items) => writable_from(items, 0),
        EntityV::Call(x) => ident_text(x.fid) && writable_from(x.args, 0),
    }
}

/// True iff every entity of `s` from `i` on is writable.
pub open spec fn writable_from(s: Seq<EntityV>, i: int) -> bool
    decreases s, s.len() - i,
{
    if i < 0 || i >= s.len() {
        true
    } else {
        writable(s[i]) && writable_from(s, i + 1)
    }
}

/// Each entity of a writable sequence is writable, and so is each tail.
proof fn lemma_writable_at(s: Seq<EntityV>, i: int, j: int)
    requires
        writable_from(s, i),
        0 <= i <= j <= s.len(),
    ensures
        j < s.len() ==> writable(s[j]),
        writable_from(s, j),
    decreases j - i,
{
    if i < j {
        lemma_writable_at(s, i + 1, j);
    }
}

/// The source text of a writable entity is never empty.
proof fn lemma_source_len_pos(v: EntityV)
    requires
        writable(v),
    ensures
        source_text(v).len() >= 1,
{
    match v {
        EntityV::Num(n) => {
            lemma_dec_digits_props(n.mant as nat);
            let ds = dec_digits(n.mant as nat);
            if n.scale == 0 {
                assert(num_text(n).len() >= ds.len());
            } else if ds.len() > n.scale as nat {
                assert(num_text(n).len() >= 1);
            } else {
                assert(num_text(n).len() >= 2);
            }
        },
        EntityV::Str(c) => {
            assert(source_text(v).len() == c.len() + 2);
        },
        EntityV::List(items) => {
            if items.len() == 0 {
                assert(source_text(v).len() == 2);
            } else {
                assert(source_text(v).len() >= 2);
            }
        },
        EntityV::Call(x) => {
            assert(source_text(v).len() >= 2);
        },
        _ => {},
    }
}

/// True iff position `j` may legally follow an entity in generated source
/// text: the end, a joining space, or a closer.
pub open spec fn delim_after(s: Seq<char>, j: int) -> bool {
    j == s.len() || s[j] == ' ' || s[j] == ')' || s[j] == ']'
}

/// The first character of a writable entity's source text is a token
/// start: not whitespace, not a comment and not a closer.
proof fn lemma_source_first(v: EntityV)
    requires
        writable(v),
    ensures
        ({
            let c = source_text(v)[0];
            &&& c != ' '
            &&& c != '\t'
            &&& c != '\r'
            &&& c != '\n'
            &&& c != '#'
            &&& c != ')'
            &&& c != ']'
        }),
{
    lemma_source_len_pos(v);
    match v {
        EntityV::Num(n) => {
            lemma_dec_digits_props(n.mant as nat);
            let ds = dec_digits(n.mant as nat);
            if !n.neg {
                assert(is_digit(ds[0]));
                if n.scale == 0 {
                    assert(source_text(v)[0] == ds[0]);
                } else if ds.len() > n.scale as nat {
                    assert(source_text(v)[0] == ds[0]);
                } else {
                    assert(source_text(v)[0] == '0');
                }
            } else {
                assert(source_text(v)[0] == '-');
            }
        },
        EntityV::Id(name) => {
            assert(source_text(v)[0] == name[0]);
            assert(is_ident_start(name[0]));
        },
        _ => {},
    }
}

/// Consuming a number's text at `i` yields the number (see
/// [`p_number`]); the text must be followed by a delimiter.
#[verifier::rlimit(60)]
proof fn lemma_parse_number_at(s: Seq<char>, i: int, line: int, col: int, n: Number)
    requires
        n.wf(),
        0 <= i,
        i + num_text(n).len() <= s.len(),
        forall|j: int| 0 <= j < num_text(n).len() ==> s[i + j] == #[trigger] num_text(n)[j],
        delim_after(s, i + num_text(n).len() as int),
    ensures
        ({
            let (r, i2, l2, c2) = p_number(s, i, line, col);
            r == Ok::<EntityV, ParseError>(EntityV::Num(n)) && i2 == i + num_text(n).len()
        }),
{
    let t = num_text(n);
    let e = i + t.len() as int;
    let ds = dec_digits(n.mant as nat);
    let sc = n.scale as nat;
    let l = ds.len() as int;
    lemma_dec_digits_props(n.mant as nat);
    lemma_norm_spec_id(n);
    let d0 = if n.neg {
        i + 1
    } else {
        i
    };
    assert(s[i] == t[0]);
    if n.neg {
        assert(t[0] == '-');
    } else {
        if n.scale == 0 || l > sc {
            assert(t[0] == ds[0]);
            assert(is_digit(t[0]));
        } else {
            assert(t[0] == '0');
            assert(is_digit('0'));
        }
        assert(s[i] != '-');
    }
    if e < s.len() {
        assert(!is_digit(s[e]) && s[e] != '.');
    }
    if n.scale == 0 {
        // t is the optional sign followed by the digits of the numerator
        assert forall|j: int| 0 <= j < l implies is_digit(#[trigger] s.skip(d0)[j]) by {
            assert(s.skip(d0)[j] == s[d0 + j]);
            assert(s[d0 + j] == t[d0 - i + j]);
            assert(t[d0 - i + j] == ds[j]);
        };
        assert(d0 + l == e);
        if e < s.len() {
            assert(s.skip(d0)[l] == s[e]);
        }
        lemma_digit_prefix_len_of(s.skip(d0), l as nat);
        assert forall|j: int| 0 <= j < l implies s.subrange(d0, d0 + l)[j] == #[trigger] ds[j] by {
            assert(s.subrange(d0, d0 + l)[j] == s[d0 + j]);
            assert(s[d0 + j] == t[d0 - i + j]);
            assert(t[d0 - i + j] == ds[j]);
        };
        assert(s.subrange(d0, d0 + l) =~= ds);
    } else if l > sc {
        // t splits the digits around a point: sign, integer digits, '.',
        // fraction digits
        let a = ds.subrange(0, l - sc as int);
        let b = ds.subrange(l - sc as int, l);
        let ka = a.len() as int;
        assert forall|j: int| 0 <= j < ka implies is_digit(#[trigger] s.skip(d0)[j]) by {
            assert(s.skip(d0)[j] == s[d0 + j]);
            assert(s[d0 + j] == t[d0 - i + j]);
            assert(t[d0 - i + j] == a[j]);
            assert(a[j] == ds[j]);
        };
        assert(s.skip(d0)[ka] == s[d0 + ka]);
        assert(s[d0 + ka] == t[d0 - i + ka]);
        assert(t[d0 - i + ka] == '.');
        assert(!is_digit('.'));
        lemma_digit_prefix_len_of(s.skip(d0), ka as nat);
        let e1 = d0 + ka;
        assert(s[e1] == '.');
        assert forall|j: int| 0 <= j < sc implies is_digit(#[trigger] s.skip(e1 + 1)[j]) by {
            assert(s.skip(e1 + 1)[j] == s[e1 + 1 + j]);
            assert(s[e1 + 1 + j] == t[e1 + 1 - i + j]);
            assert(t[e1 + 1 - i + j] == b[j]);
            assert(b[j] == ds[l - sc + j]);
        };
        assert(e1 + 1 + sc == e);
        if e < s.len() {
            assert(s.skip(e1 + 1)[sc as int] == s[e]);
        }
        lemma_digit_prefix_len_of(s.skip(e1 + 1), sc);
        assert forall|j: int| 0 <= j < ka implies s.subrange(d0, e1)[j] == #[trigger] a[j] by {
            assert(s.subrange(d0, e1)[j] == s[d0 + j]);
            assert(s[d0 + j] == t[d0 - i + j]);
            assert(t[d0 - i + j] == a[j]);
        };
        assert(s.subrange(d0, e1) =~= a);
        assert forall|j: int| 0 <= j < sc implies s.subrange(e1 + 1, e)[j] == #[trigger] b[j] by {
            assert(s.subrange(e1 + 1, e)[j] == s[e1 + 1 + j]);
            assert(s[e1 + 1 + j] == t[e1 + 1 - i + j]);
            assert(t[e1 + 1 - i + j] == b[j]);
        };
        assert(s.subrange(e1 + 1, e) =~= b);
        assert(a + b =~= ds);
        assert(s.subrange(d0, e1) + s.subrange(e1 + 1, e) =~= ds);
    } else {
        // t is the sign, then "0.", then padding zeros, then the digits
        let z = zero_seq((sc - l) as nat);
        assert(s.skip(d0)[0] == s[d0]);
        assert(s[d0] == t[d0 - i]);
        assert(t[d0 - i] == '0');
        assert(is_digit('0'));
        assert(s.skip(d0)[1] == s[d0 + 1]);
        assert(s[d0 + 1] == t[d0 - i + 1]);
        assert(t[d0 - i + 1] == '.');
        assert(!is_digit('.'));
        lemma_digit_prefix_len_of(s.skip(d0), 1);
        let e1 = d0 + 1;
        assert(s[e1] == '.');
        assert forall|j: int| 0 <= j < sc implies is_digit(#[trigger] s.skip(e1 + 1)[j]) by {
            assert(s.skip(e1 + 1)[j] == s[e1 + 1 + j]);
            assert(s[e1 + 1 + j] == t[e1 + 1 - i + j]);
            if j < sc - l {
                assert(t[e1 + 1 - i + j] == z[j]);
                assert(z[j] == '0');
            } else {
                assert(t[e1 + 1 - i + j] == ds[j - (sc - l)]);
            }
        };
        assert(e1 + 1 + sc == e);
        if e < s.len() {
            assert(s.skip(e1 + 1)[sc as int] == s[e]);
        }
        lemma_digit_prefix_len_of(s.skip(e1 + 1), sc);
        let digits = s.subrange(d0, e1) + s.subrange(e1 + 1, e);
        let want = zero_seq((sc - l + 1) as nat) + ds;
        assert forall|j: int| 0 <= j < digits.len() implies digits[j] == #[trigger] want[j] by {
            if j == 0 {
                assert(digits[0] == s[d0]);
                assert(want[0] == '0');
            } else {
                assert(digits[j] == s[e1 + 1 + j - 1]);
                assert(s[e1 + 1 + j - 1] == t[e1 + 1 - i + j - 1]);
                if j - 1 < sc - l {
                    assert(t[e1 + 1 - i + j - 1] == z[j - 1]);
                    assert(want[j] == '0' && z[j - 1] == '0');
                } else {
                    assert(t[e1 + 1 - i + j - 1] == ds[j - 1 - (sc - l)]);
                    assert(want[j] == ds[j - 1 - (sc - l)]);
                }
            }
        };
        assert(digits =~= want);
        lemma_digits_val_zero_prefix((sc - l + 1) as nat, ds);
    }
}

/// An identifier's characters scan as one identifier token.
proof fn lemma_ident_at(s: Seq<char>, i: int, name: Seq<char>)
    requires
        0 <= i,
        name.len() >= 1,
        i + name.len() <= s.len(),
        forall|j: int| 0 <= j < name.len() ==> s[i + j] == #[trigger] name[j],
        forall|j: int| 0 <= j < name.len() ==> is_ident_char(#[trigger] name[j]),
        delim_after(s, i + name.len() as int),
    ensures
        ident_prefix_len(s.skip(i)) == name.len(),
        s.subrange(i, i + name.len() as int) == name,
{
    let k = name.len() as int;
    assert forall|j: int| 0 <= j < k implies is_ident_char(#[trigger] s.skip(i)[j]) by {
        assert(s.skip(i)[j] == s[i + j]);
        assert(s[i + j] == name[j]);
    };
    if i + k < s.len() {
        assert(s.skip(i)[k] == s[i + k]);
        assert(!is_ident_char(s[i + k]));
    }
    lemma_ident_prefix_len_of(s.skip(i), k as nat);
    assert forall|j: int| 0 <= j < k implies s.subrange(i, i + k)[j] == #[trigger] name[j] by {
        assert(s.subrange(i, i + k)[j] == s[i + j]);
    };
    assert(s.subrange(i, i + k) =~= name);
}

/// Consuming a writable entity's source text at `i` yields the entity
/// (see [`p_entity`]); the text must be followed by a delimiter.
#[verifier::rlimit(60)]
proof fn lemma_parse_entity_at(s: Seq<char>, i: int, line: int, col: int, v: EntityV)
    requires
        writable(v),
        0 <= i,
        i + source_text(v).len() <= s.len(),
        forall|j: int| 0 <= j < source_text(v).len() ==> s[i + j] == #[trigger] source_text(v)[j],
        delim_after(s, i + source_text(v).len() as int),
    ensures
        ({
            let (r, i2, l2, c2) = p_entity(s, i, line, col);
            r == Ok::<EntityV, ParseError>(v) && i2 == i + source_text(v).len()
        }),
    decreases ent_size(v), 2int,
{
    let t = source_text(v);
    let e = i + t.len() as int;
    lemma_source_len_pos(v);
    lemma_source_first(v);
    assert(s[i] == t[0]);
    match v {
        EntityV::Num(n) => {
            lemma_dec_digits_props(n.mant as nat);
            let ds = dec_digits(n.mant as nat);
            if n.neg {
                assert(t[0] == '-');
            } else {
                if n.scale == 0 || ds.len() > n.scale as nat {
                    assert(t[0] == ds[0] && is_digit(ds[0]));
                } else {
                    assert(t[0] == '0' && is_digit('0'));
                }
            }
            assert(s[i] != '(' && s[i] != '[' && s[i] != '"');
            lemma_parse_number_at(s, i, line, col, n);
        },
        EntityV::Str(content) => {
            assert(t[0] == '"');
            let k = content.len() as int;
            assert forall|j: int|
                0 <= j < k implies #[trigger] s.skip(i + 1)[j] != '"' && s.skip(i + 1)[j]
                != '\n' by {
                assert(s.skip(i + 1)[j] == s[i + 1 + j]);
                assert(s[i + 1 + j] == t[1 + j]);
                assert(t[1 + j] == content[j]);
            };
            assert(s.skip(i + 1)[k] == s[i + 1 + k]);
            assert(s[i + 1 + k] == t[1 + k]);
            assert(t[1 + k] == '"');
            lemma_str_content_len_of(s.skip(i + 1), k as nat);
            assert forall|j: int|
                0 <= j < k implies s.subrange(i + 1, i + 1 + k)[j] == #[trigger] content[j] by {
                assert(s.subrange(i + 1, i + 1 + k)[j] == s[i + 1 + j]);
                assert(s[i + 1 + j] == t[1 + j]);
                assert(t[1 + j] == content[j]);
            };
            assert(s.subrange(i + 1, i + 1 + k) =~= content);
            assert(t.len() == content.len() + 2);
            assert(i + 1 + k < s.len());
        },
        EntityV::Bool(b) => {
            let name = bool_text(b);
            assert(forall|j: int| 0 <= j < name.len() ==> s[i + j] == #[trigger] name[j]);
            lemma_ident_at(s, i, name);
            if b {
                assert(name != bool_text(false) && name != nil_text());
            } else {
                assert(name != bool_text(true) && name != nil_text());
            }
        },
        EntityV::Nil => {
            let name = nil_text();
            assert(forall|j: int| 0 <= j < name.len() ==> s[i + j] == #[trigger] name[j]);
            lemma_ident_at(s, i, name);
            assert(name != bool_text(true) && name != bool_text(false));
        },
        EntityV::Id(name) => {
            lemma_ident_at(s, i, name);
        },
        EntityV::List(items) => {
            assert(t[0] == '[');
            if items.len() == 0 {
                assert(t =~= seq!['[', ']']);
                assert(s[i + 1] == ']');
                assert(i + 1 < s.len());
                assert(skip_ws(s, i + 1, line, crate::parser::bump(col)) == (
                    i + 1,
                    line,
                    crate::parser::bump(col),
                ));
                assert(Seq::<EntityV>::empty() + items.skip(0) =~= items);
            } else {
                let t0 = source_text(items[0]);
                lemma_writable_at(items, 0, 0);
                lemma_source_len_pos(items[0]);
                lemma_source_first(items[0]);
                assert(forall|j: int|
                    0 <= j < t0.len() ==> s[i + 1 + j] == #[trigger] t0[j]) by {
                    assert(forall|j: int|
                        0 <= j < t0.len() ==> s[i + 1 + j] == t[1 + j] && t[1 + j]
                            == #[trigger] t0[j]);
                };
                let e0 = i + 1 + t0.len() as int;
                let rest = source_tail(items, 1);
                assert(forall|j: int|
                    0 <= j < rest.len() ==> s[e0 + j] == #[trigger] rest[j]) by {
                    assert(forall|j: int|
                        0 <= j < rest.len() ==> s[e0 + j] == t[1 + t0.len() + j] && t[1
                            + t0.len() + j] == #[trigger] rest[j]);
                };
                assert(s[e0 + rest.len()] == t[t.len() - 1] && t[t.len() - 1] == ']');
                assert(delim_after(s, e0)) by {
                    if items.len() > 1 {
                        assert(rest[0] == ' ');
                        assert(s[e0] == ' ');
                    } else {
                        assert(rest.len() == 0);
                        assert(s[e0] == ']');
                    }
                };
                assert(s[i + 1] == t0[0]);
                assert(skip_ws(s, i + 1, line, crate::parser::bump(col)) == (
                    i + 1,
                    line,
                    crate::parser::bump(col),
                ));
                assert(s[i + 1] != ']' && i + 1 < s.len());
                lemma_seq_size_elem(items, 0, 0);
                lemma_parse_entity_at(s, i + 1, line, crate::parser::bump(col), items[0]);
                let (r0, j0, l0, c0) = p_entity(s, i + 1, line, crate::parser::bump(col));
                assert(j0 == e0 && j0 > i + 1);
                lemma_parse_items_at(s, e0, l0, c0, items, 1, seq![items[0]]);
                assert(seq![items[0]] + items.skip(1) =~= items);
            }
        },
        EntityV::Call(x) => {
            assert(t[0] == '(');
            lemma_parse_expr_at(s, i, line, col, x);
        },
    }
}

/// Consuming a space-joined item tail plus `]` yields the accumulated
/// items followed by the remaining ones (see [`p_items`]).
proof fn lemma_parse_items_at(
    s: Seq<char>,
    i: int,
    line: int,
    col: int,
    items: Seq<EntityV>,
    k: int,
    acc: Seq<EntityV>,
)
    requires
        0 <= k <= items.len(),
        writable_from(items, k),
        0 <= i,
        i + source_tail(items, k).len() + 1 <= s.len(),
        forall|j: int|
            0 <= j < source_tail(items, k).len() ==> s[i + j] == #[trigger] source_tail(
                items,
                k,
            )[j],
        s[i + source_tail(items, k).len() as int] == ']',
        delim_after(s, i + source_tail(items, k).len() + 1),
    ensures
        ({
            let (r, i2, l2, c2) = p_items(s, i, line, col, acc);
            r == Ok::<Seq<EntityV>, ParseError>(acc + items.skip(k)) && i2 == i + source_tail(
                items,
                k,
            ).len() + 1
        }),
    decreases seq_size_from(items, k), 3int,
{
    let u = source_tail(items, k);
    if k == items.len() {
        assert(u.len() == 0);
        assert(s[i] == ']');
        assert(skip_ws(s, i, line, col) == (i, line, col));
        assert(acc + items.skip(k) =~= acc);
    } else {
        lemma_writable_at(items, k, k);
        let t0 = source_text(items[k]);
        lemma_source_len_pos(items[k]);
        lemma_source_first(items[k]);
        assert(u[0] == ' ');
        assert(s[i] == ' ');
        assert(s[i + 1] == u[1] && u[1] == t0[0]);
        assert(skip_ws(s, i, line, col) == skip_ws(
            s,
            i + 1,
            line,
            crate::parser::bump(col),
        ));
        assert(skip_ws(s, i + 1, line, crate::parser::bump(col)) == (
            i + 1,
            line,
            crate::parser::bump(col),
        ));
        let i1 = i + 1;
        assert(s[i1] != ']' && i1 < s.len());
        assert(forall|j: int| 0 <= j < t0.len() ==> s[i1 + j] == u[1 + j] && u[1 + j]
            == #[trigger] t0[j]);
        let e0 = i1 + t0.len() as int;
        let rest = source_tail(items, k + 1);
        assert(u =~= seq![' '] + t0 + rest);
        assert(forall|j: int|
            0 <= j < rest.len() ==> s[e0 + j] == u[1 + t0.len() + j] && u[1 + t0.len() + j]
                == #[trigger] rest[j]);
        assert(i + u.len() == e0 + rest.len());
        assert(delim_after(s, e0)) by {
            if k + 1 < items.len() {
                assert(rest[0] == ' ');
                assert(s[e0] == ' ');
            } else {
                assert(rest.len() == 0);
                assert(s[e0] == ']');
            }
        };
        lemma_seq_size_elem(items, k, k);
        lemma_ent_size_pos(items[k]);
        lemma_parse_entity_at(s, i1, line, crate::parser::bump(col), items[k]);
        let (r0, j0, l0, c0) = p_entity(s, i1, line, crate::parser::bump(col));
        assert(j0 == e0 && j0 > i1 && j0 <= s.len());
        lemma_parse_items_at(s, e0, l0, c0, items, k + 1, acc.push(items[k]));
        assert(acc.push(items[k]) + items.skip(k + 1) =~= acc + items.skip(k));
    }
}

/// Consuming a space-joined argument tail plus `)` yields the accumulated
/// arguments followed by the remaining ones (see [`p_args`]).
proof fn lemma_parse_args_at(
    s: Seq<char>,
    i: int,
    line: int,
    col: int,
    items: Seq<EntityV>,
    k: int,
    acc: Seq<EntityV>,
)
    requires
        0 <= k <= items.len(),
        writable_from(items, k),
        0 <= i,
        i + source_tail(items, k).len() + 1 <= s.len(),
        forall|j: int|
            0 <= j < source_tail(items, k).len() ==> s[i + j] == #[trigger] source_tail(
                items,
                k,
            )[j],
        s[i + source_tail(items, k).len() as int] == ')',
        delim_after(s, i + source_tail(items, k).len() + 1),
    ensures
        ({
            let (r, i2, l2, c2) = p_args(s, i, line, col, acc);
            r == Ok::<Seq<EntityV>, ParseError>(acc + items.skip(k)) && i2 == i + source_tail(
                items,
                k,
            ).len() + 1
        }),
    decreases seq_size_from(items, k), 3int,
{
    let u = source_tail(items, k);
    if k == items.len() {
        assert(u.len() == 0);
        assert(s[i] == ')');
        assert(skip_ws(s, i, line, col) == (i, line, col));
        assert(acc + items.skip(k) =~= acc);
    } else {
        lemma_writable_at(items, k, k);
        let t0 = source_text(items[k]);
        lemma_source_len_pos(items[k]);
        lemma_source_first(items[k]);
        assert(u[0] == ' ');
        assert(s[i] == ' ');
        assert(s[i + 1] == u[1] && u[1] == t0[0]);
        assert(skip_ws(s, i, line, col) == skip_ws(
            s,
            i + 1,
            line,
            crate::parser::bump(col),
        ));
        assert(skip_ws(s, i + 1, line, crate::parser::bump(col)) == (
            i + 1,
            line,
            crate::parser::bump(col),
        ));
        let i1 = i + 1;
        assert(s[i1] != ')' && i1 < s.len());
        assert(forall|j: int| 0 <= j < t0.len() ==> s[i1 + j] == u[1 + j] && u[1 + j]
            == #[trigger] t0[j]);
        let e0 = i1 + t0.len() as int;
        let rest = source_tail(items, k + 1);
        assert(u =~= seq![' '] + t0 + rest);
        assert(forall|j: int|
            0 <= j < rest.len() ==> s[e0 + j] == u[1 + t0.len() + j] && u[1 + t0.len() + j]
                == #[trigger] rest[j]);
        assert(i + u.len() == e0 + rest.len());
        assert(delim_after(s, e0)) by {
            if k + 1 < items.len() {
                assert(rest[0] == ' ');
                assert(s[e0] == ' ');
            } else {
                assert(rest.len() == 0);
                assert(s[e0] == ')');
            }
        };
        lemma_seq_size_elem(items, k, k);
        lemma_ent_size_pos(items[k]);
        lemma_parse_entity_at(s, i1, line, crate::parser::bump(col), items[k]);
        let (r0, j0, l0, c0) = p_entity(s, i1, line, crate::parser::bump(col));
        assert(j0 == e0 && j0 > i1 && j0 <= s.len());
        lemma_parse_args_at(s, e0, l0, c0, items, k + 1, acc.push(items[k]));
        assert(acc.push(items[k]) + items.skip(k + 1) =~= acc + items.skip(k));
    }
}

/// Consuming a writable call's source text at `i` yields the call (see
/// [`p_expr`]).
proof fn lemma_parse_expr_at(s: Seq<char>, i: int, line: int, col: int, x: ExprV)
    requires
        writable(EntityV::Call(x)),
        0 <= i,
        i + source_text(EntityV::Call(x)).len() <= s.len(),
        forall|j: int|
            0 <= j < source_text(EntityV::Call(x)).len() ==> s[i + j] == #[trigger] source_text(
                EntityV::Call(x),
            )[j],
        delim_after(s, i + source_text(EntityV::Call(x)).len() as int),
    ensures
        ({
            let (r, i2, l2, c2) = p_expr(s, i, line, col);
            r == Ok::<EntityV, ParseError>(EntityV::Call(x)) && i2 == i + source_text(
                EntityV::Call(x),
            ).len()
        }),
    decreases ent_size(EntityV::Call(x)), 1int,
{
    let t = source_text(EntityV::Call(x));
    let e = i + t.len() as int;
    let fid = x.fid;
    let kf = fid.len() as int;
    let rest = source_tail(x.args, 0);
    assert(t =~= seq!['('] + fid + rest + seq![')']);
    assert(t[0] == (seq!['('] + fid + rest + seq![')'])[0]);
    assert(((seq!['('] + fid) + rest)[0] == (seq!['('] + fid)[0]);
    assert((seq!['('] + fid)[0] == seq!['('][0]);
    assert(t[0] == '(');
    assert(s[i] == '(');
    assert(forall|j: int| 0 <= j < kf ==> s[i + 1 + j] == t[1 + j] && t[1 + j] == #[trigger] fid[j]);
    assert(is_ident_start(fid[0]));
    assert(s[i + 1] == fid[0]);
    assert(skip_ws(s, i + 1, line, crate::parser::bump(col)) == (
        i + 1,
        line,
        crate::parser::bump(col),
    ));
    let i1 = i + 1;
    assert(i1 < s.len());
    assert(is_ident_start(s[i1]));
    let e1 = i1 + kf;
    assert(forall|j: int|
        0 <= j < rest.len() ==> s[e1 + j] == t[1 + kf + j] && t[1 + kf + j] == #[trigger] rest[j]);
    assert(s[e1 + rest.len()] == t[t.len() - 1] && t[t.len() - 1] == ')');
    assert(delim_after(s, e1)) by {
        if x.args.len() > 0 {
            assert(rest[0] == ' ');
            assert(s[e1] == ' ');
        } else {
            assert(rest.len() == 0);
            assert(s[e1] == ')');
        }
    };
    lemma_ident_at(s, i1, fid);
    lemma_parse_args_at(s, e1, line, crate::parser::bump_by(crate::parser::bump(col), kf), x.args, 0, Seq::empty());
    assert(Seq::<EntityV>::empty() + x.args.skip(0) =~= x.args);
    assert(e1 + rest.len() + 1 == e);
}

/// Round trip of the core grammar: parsing the source text of a
/// well-formed expression yields exactly that expression.
///
/// Well-formed means [`writable`]: the numbers canonical, the strings free
/// of quotes and newlines, and the identifiers valid non-keyword names; a
/// string holding a quote, such as the one-character string `"`, cannot be
/// written back into the grammar and is excluded.
pub proof fn lemma_parse_source_roundtrip(x: ExprV)
    requires
        writable(EntityV::Call(x)),
    ensures
        parse_spec(source_text(EntityV::Call(x))) == Ok::<Seq<ExprV>, ParseError>(seq![x]),
{
    let s = source_text(EntityV::Call(x));
    lemma_source_len_pos(EntityV::Call(x));
    assert(s[0] == '(') by {
        assert(s =~= seq!['('] + x.fid + source_tail(x.args, 0) + seq![')']);
        assert((seq!['('] + x.fid + source_tail(x.args, 0) + seq![')'])[0] == '(') by {
            assert(((seq!['('] + x.fid) + source_tail(x.args, 0))[0] == (seq!['('] + x.fid)[0]);
            assert((seq!['('] + x.fid)[0] == seq!['('][0]);
        };
    };
    assert(top_skip(s, 0, 1, 0) == (0int, 1int, 0int));
    assert(forall|j: int| 0 <= j < s.len() ==> s[0 + j] == #[trigger] s[j]);
    lemma_parse_expr_at(s, 0, 1, 0, x);
    let (r, i2, l2, c2) = p_expr(s, 0, 1, 0);
    assert(r == Ok::<EntityV, ParseError>(EntityV::Call(x)) && i2 == s.len());
    let acc2 = Seq::<ExprV>::empty().push(x);
    assert(top_skip(s, i2, l2, c2) == (i2, l2, c2));
    assert(p_program(s, i2, l2, c2, acc2) == Ok::<Seq<ExprV>, ParseError>(acc2));
    assert(p_program(s, 0, 1, 0, Seq::<ExprV>::empty()) == Ok::<Seq<ExprV>, ParseError>(acc2));
    assert(acc2 =~= seq![x]);
}

/// The numbers of a literal argument list folded left with exact addition
/// or multiplication.
pub open spec fn fold_nums(args: Seq<EntityV>, i: int, acc: Number, mulp: bool) -> Option<Number>
    decreases args.len() - i,
{
    if i < 0 || i >= args.len() {
        Some(acc)
    } else {
        match args[i] {
            EntityV::Num(n) => {
                let folded = if mulp {
                    mul_spec(acc, n)
                } else {
                    add_spec(acc, n)
                };
                match folded {
                    None => None,
                    Some(acc2) => fold_nums(args, i + 1, acc2, mulp),
                }
            },
            _ => None,
        }
    }
}

/// Folding number literals evaluates them unchanged: the builtin fold
/// agrees with the pure fold and leaves the state alone.
proof fn lemma_fold_literals(args: Seq<EntityV>, i: int, acc: Number, mulp: bool, st: StateV, fuel: nat)
    requires
        0 <= i,
        forall|j: int| 0 <= j < args.len() ==> #[trigger] args[j] matches EntityV::Num(_),
    ensures
        ({
            let (r, st2) = crate::builtins::eval_add_fold(args, i, acc, mulp, st, fuel);
            &&& st2 == st
            &&& match fold_nums(args, i, acc, mulp) {
                Some(n) => r == Ok::<EntityV, ErrV>(EntityV::Num(n)),
                None => r == Err::<EntityV, ErrV>(ErrV::NumberOverflow),
            }
        }),
    decreases args.len() - i,
{
    if i < args.len() {
        assert(args[i] matches EntityV::Num(_));
        let n = args[i]->Num_0;
        assert(crate::executer::eval_entity(args[i], st, fuel) == (
            Ok::<EntityV, ErrV>(args[i]),
            st,
        ));
        assert(crate::builtins::value_as_number(args[i]) == Ok::<Number, ErrV>(n));
        let folded = if mulp {
            mul_spec(acc, n)
        } else {
            add_spec(acc, n)
        };
        match folded {
            None => {
                assert(crate::builtins::eval_add_fold(args, i, acc, mulp, st, fuel) == (
                    Err::<EntityV, ErrV>(ErrV::NumberOverflow),
                    st,
                ));
            },
            Some(acc2) => {
                lemma_fold_literals(args, i + 1, acc2, mulp, st, fuel);
                assert(crate::builtins::eval_add_fold(args, i, acc, mulp, st, fuel)
                    == crate::builtins::eval_add_fold(args, i + 1, acc2, mulp, st, fuel));
            },
        }
    } else {
        assert(crate::builtins::eval_add_fold(args, i, acc, mulp, st, fuel) == (
            Ok::<EntityV, ErrV>(EntityV::Num(acc)),
            st,
        ));
    }
}

/// For every well-formed `(add n1 ... nk)` over number literals, the
/// result is the exact sum of the operands and the state is unchanged;
/// `(add)` is 0. An unrepresentable sum reports overflow.
pub proof fn lemma_add_is_sum(args: Seq<EntityV>, st: StateV, fuel: nat)
    requires
        forall|j: int| 0 <= j < args.len() ==> #[trigger] args[j] matches EntityV::Num(_),
    ensures
        ({
            let (r, st2) = eval_call(ExprV { fid: "add"@, args }, st, fuel);
            &&& st2 == st
            &&& match fold_nums(args, 0, Number { neg: false, mant: 0, scale: 0 }, false) {
                Some(n) => r == Ok::<EntityV, ErrV>(EntityV::Num(n)),
                None => r == Err::<EntityV, ErrV>(ErrV::NumberOverflow),
            }
        }),
{
    reveal_strlit("add");
    reveal_strlit("var");
    reveal_strlit("func");
    reveal_strlit("typeof");
    reveal_strlit("if");
    reveal_strlit("eq");
    reveal_strlit("ne");
    reveal_strlit("lt");
    reveal_strlit("gt");
    reveal_strlit("le");
    reveal_strlit("ge");
    let zero = Number { neg: false, mant: 0u128, scale: 0u32 };
    assert("add"@[0] == 'a' && "var"@[0] == 'v');
    assert(eval_call(ExprV { fid: "add"@, args }, st, fuel) == crate::builtins::eval_add_fold(
        args,
        0,
        zero,
        false,
        st,
        fuel,
    ));
    lemma_fold_literals(args, 0, zero, false, st, fuel);
}

/// For every well-formed `(mul n1 ... nk)` over number literals, the
/// result is the exact product of the operands and the state is
/// unchanged; `(mul)` is 1. An unrepresentable product reports overflow.
pub proof fn lemma_mul_is_product(args: Seq<EntityV>, st: StateV, fuel: nat)
    requires
        forall|j: int| 0 <= j < args.len() ==> #[trigger] args[j] matches EntityV::Num(_),
    ensures
        ({
            let (r, st2) = eval_call(ExprV { fid: "mul"@, args }, st, fuel);
            &&& st2 == st
            &&& match fold_nums(args, 0, Number { neg: false, mant: 1, scale: 0 }, true) {
                Some(n) => r == Ok::<EntityV, ErrV>(EntityV::Num(n)),
                None => r == Err::<EntityV, ErrV>(ErrV::NumberOverflow),
            }
        }),
{
    reveal_strlit("mul");
    reveal_strlit("var");
    reveal_strlit("func");
    reveal_strlit("typeof");
    reveal_strlit("if");
    reveal_strlit("eq");
    reveal_strlit("ne");
    reveal_strlit("lt");
    reveal_strlit("gt");
    reveal_strlit("le");
    reveal_strlit("ge");
    reveal_strlit("add");
    reveal_strlit("sub");
    let one = Number { neg: false, mant: 1u128, scale: 0u32 };
    assert("mul"@[0] == 'm' && "var"@[0] == 'v' && "add"@[0] == 'a' && "sub"@[0] == 's');
    assert(eval_call(ExprV { fid: "mul"@, args }, st, fuel) == crate::builtins::eval_add_fold(
        args,
        0,
        one,
        true,
        st,
        fuel,
    ));
    lemma_fold_literals(args, 0, one, true, st, fuel);
}

/// `(sub a)` with fewer than two operands fails with
/// `NotEnoughArgs { min: 2 }` and leaves the state alone.
pub proof fn lemma_sub_needs_two(args: Seq<EntityV>, st: StateV, fuel: nat)
    requires
        args.len() < 2,
    ensures
        eval_call(ExprV { fid: "sub"@, args }, st, fuel) == (
            Err::<EntityV, ErrV>(ErrV::NotEnoughArgs { min: 2 }),
            st,
        ),
{
    reveal_strlit("sub");
    reveal_strlit("var");
    reveal_strlit("func");
    reveal_strlit("typeof");
    reveal_strlit("if");
    reveal_strlit("eq");
    reveal_strlit("ne");
    reveal_strlit("lt");
    reveal_strlit("gt");
    reveal_strlit("le");
    reveal_strlit("ge");
    reveal_strlit("add");
    assert("sub"@[0] == 's' && "var"@[0] == 'v' && "add"@[0] == 'a');
    assert(eval_call(ExprV { fid: "sub"@, args }, st, fuel)
        == crate::executer::eval_base_fold(args, st, fuel, false));
    assert(crate::executer::eval_base_fold(args, st, fuel, false) == (
        Err::<EntityV, ErrV>(ErrV::NotEnoughArgs { min: 2 }),
        st,
    ));
}

/// `(div a)` with fewer than two operands fails with
/// `NotEnoughArgs { min: 2 }` and leaves the state alone.
pub proof fn lemma_div_needs_two(args: Seq<EntityV>, st: StateV, fuel: nat)
    requires
        args.len() < 2,
    ensures
        eval_call(ExprV { fid: "div"@, args }, st, fuel) == (
            Err::<EntityV, ErrV>(ErrV::NotEnoughArgs { min: 2 }),
            st,
        ),
{
    reveal_strlit("div");
    reveal_strlit("var");
    reveal_strlit("func");
    reveal_strlit("typeof");
    reveal_strlit("if");
    reveal_strlit("eq");
    reveal_strlit("ne");
    reveal_strlit("lt");
    reveal_strlit("gt");
    reveal_strlit("le");
    reveal_strlit("ge");
    reveal_strlit("add");
    reveal_strlit("sub");
    reveal_strlit("mul");
    assert("div"@[0] == 'd' && "var"@[0] == 'v' && "add"@[0] == 'a' && "sub"@[0] == 's' && "mul"@[0]
        == 'm');
    assert(eval_call(ExprV { fid: "div"@, args }, st, fuel)
        == crate::executer::eval_base_fold(args, st, fuel, true));
    assert(crate::executer::eval_base_fold(args, st, fuel, true) == (
        Err::<EntityV, ErrV>(ErrV::NotEnoughArgs { min: 2 }),
        st,
    ));
}

} // verus!
