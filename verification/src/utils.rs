//! Backslash-escape handling for printed text.

use vstd::prelude::*;

verus! {

/// What an escaped character stands for: `n`, `r`, `t` give the control
/// character, anything else (including `\`) passes through.
pub open spec fn unescape_char(c: char) -> char {
    if c == 'n' {
        '\n'
    } else if c == 'r' {
        '\r'
    } else if c == 't' {
        '\t'
    } else {
        c
    }
}

/// The text with backslash escapes interpreted: `\n`, `\r`, `\t`, `\\` give
/// one character; an unrecognised escape passes the escaped character
/// through; a trailing lone backslash is dropped.
pub open spec fn unescape_spec(s: Seq<char>) -> Seq<char>
    decreases s.len(),
{
    if s.len() == 0 {
        Seq::empty()
    } else if s[0] == '\\' {
        if s.len() == 1 {
            Seq::empty()
        } else {
            seq![unescape_char(s[1])] + unescape_spec(s.skip(2))
        }
    } else {
        seq![s[0]] + unescape_spec(s.skip(1))
    }
}

/// The text with backslash escapes interpreted (see [`unescape_spec`]).
pub fn unescape(s: &str) -> (r: String)
    ensures
        r@ == unescape_spec(s@),
{
    let n = s.unicode_len();
    let mut out = String::new();
    let mut i: usize = 0;
    proof {
        assert(s@.skip(0) =~= s@);
        assert(out@ + unescape_spec(s@) =~= unescape_spec(s@));
    }
    while i < n
        invariant
            i <= n,
            n == s@.len(),
            out@ + unescape_spec(s@.skip(i as int)) == unescape_spec(s@),
        decreases n - i,
    {
        let ghost before = out@;
        let ghost rest = s@.skip(i as int);
        let c = s.get_char(i);
        if c == '\\' {
            if i + 1 == n {
                proof {
                    assert(rest.len() == 1);
                    assert(out@ + unescape_spec(s@.skip(i as int + 1)) == unescape_spec(s@));
                }
                i = i + 1;
            } else {
                let c2 = s.get_char(i + 1);
                if c2 == 'n' {
                    out.append("\n");
                    proof {
                        reveal_strlit("\n");
                        assert("\n"@ =~= seq!['\n']);
                    }
                } else if c2 == 'r' {
                    out.append("\r");
                    proof {
                        reveal_strlit("\r");
                        assert("\r"@ =~= seq!['\r']);
                    }
                } else if c2 == 't' {
                    out.append("\t");
                    proof {
                        reveal_strlit("\t");
                        assert("\t"@ =~= seq!['\t']);
                    }
                } else {
                    out.append(s.substring_char(i + 1, i + 2));
                }
                proof {
                    assert(rest[1] == s@[i as int + 1]);
                    assert(out@ =~= before + seq![unescape_char(rest[1])]);
                    assert(rest.skip(2) =~= s@.skip(i as int + 2));
                    assert(before + (seq![unescape_char(rest[1])] + unescape_spec(rest.skip(2)))
                        =~= out@ + unescape_spec(s@.skip(i as int + 2)));
                }
                i = i + 2;
            }
        } else {
            out.append(s.substring_char(i, i + 1));
            proof {
                assert(out@ =~= before + seq![rest[0]]);
                assert(rest.skip(1) =~= s@.skip(i as int + 1));
                assert(before + (seq![rest[0]] + unescape_spec(rest.skip(1))) =~= out@
                    + unescape_spec(s@.skip(i as int + 1)));
            }
            i = i + 1;
        }
    }
    proof {
        assert(s@.skip(n as int) =~= Seq::<char>::empty());
        assert(out@ + Seq::<char>::empty() =~= out@);
    }
    out
}

} // verus!
