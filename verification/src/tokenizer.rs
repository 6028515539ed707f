//! Lexical layer: character classes, the grammar of numeric literals and
//! identifiers, and the splitting of input text into tokens.

use vstd::prelude::*;

verus! {

/// Whitespace that separates tokens: the characters with the Unicode
/// `White_Space` property.
pub open spec fn is_ws_char(c: char) -> bool {
    let u: u32 = c as u32;
    u == 0x09 || u == 0x0A || u == 0x0B || u == 0x0C || u == 0x0D || u == 0x20 || u == 0x85
        || u == 0xA0 || u == 0x1680 || (0x2000 <= u && u <= 0x200A) || u == 0x2028 || u == 0x2029
        || u == 0x202F || u == 0x205F || u == 0x3000
}

/// Whether `c` is whitespace.
fn is_whitespace(c: char) -> (r: bool)
    ensures
        r == is_ws_char(c),
{
    let u: u32 = c as u32;
    u == 0x09 || u == 0x0A || u == 0x0B || u == 0x0C || u == 0x0D || u == 0x20 || u == 0x85
        || u == 0xA0 || u == 0x1680 || (0x2000 <= u && u <= 0x200A) || u == 0x2028 || u == 0x2029
        || u == 0x202F || u == 0x205F || u == 0x3000
}

/// Characters that always form a token of their own: parentheses, the
/// comma, and the single-character infix operator symbols.
pub open spec fn is_restricted_char(c: char) -> bool {
    c == '(' || c == ')' || c == ',' || c == '+' || c == '-' || c == '*' || c == '/'
}

pub open spec fn is_digit_char(c: char) -> bool {
    48 <= c as u32 && c as u32 <= 57
}

pub open spec fn is_sign_char(c: char) -> bool {
    c == '+' || c == '-'
}

/// ASCII letters and digits: the characters an identifier may consist of.
pub open spec fn is_alnum_char(c: char) -> bool {
    (48 <= c as u32 && c as u32 <= 57)  // '0' ..= '9'
    || (65 <= c as u32 && c as u32 <= 90)  // 'A' ..= 'Z'
    || (97 <= c as u32 && c as u32 <= 122)  // 'a' ..= 'z'
}

/// A variable name: one or more alphanumeric characters.
pub open spec fn is_identifier(s: Seq<char>) -> bool {
    s.len() > 0 && forall|i: int| 0 <= i < s.len() ==> is_alnum_char(#[trigger] s[i])
}

/// The end of the run of digits beginning at `from`: the first position at
/// or after `from` holding no digit.
pub open spec fn digit_run_end(s: Seq<char>, from: int) -> int
    decreases s.len() - from when 0 <= from <= s.len()
{
    if from < s.len() && is_digit_char(s[from]) {
        digit_run_end(s, from + 1)
    } else {
        from
    }
}

pub proof fn lemma_digit_run_end_bounds(s: Seq<char>, from: int)
    requires
        0 <= from <= s.len(),
    ensures
        from <= digit_run_end(s, from) <= s.len(),
    decreases s.len() - from,
{
    if from < s.len() && is_digit_char(s[from]) {
        lemma_digit_run_end_bounds(s, from + 1);
    }
}

/// An exponent part starting at position `i`: `e` or `E`, an optional sign,
/// and one or more digits running to the end of the text.
pub open spec fn is_exp_at(s: Seq<char>, i: int) -> bool {
    0 <= i < s.len() && (s[i] == 'e' || s[i] == 'E') && ({
        let j: int = if i + 1 < s.len() && is_sign_char(s[i + 1]) {
            i + 2
        } else {
            i + 1
        };
        j < s.len() && digit_run_end(s, j) == s.len()
    })
}

/// The unsigned number forms accepted as a numeric literal, starting at
/// position `i`: digits with an optional point, optional further digits and
/// an optional exponent; or a point followed by digits and an optional
/// exponent.
pub open spec fn is_number_body_at(s: Seq<char>, i: int) -> bool
    recommends
        0 <= i <= s.len(),
{
    let d1: int = digit_run_end(s, i);
    if d1 > i {
        if d1 == s.len() {
            true
        } else if s[d1] == '.' {
            let d2: int = digit_run_end(s, d1 + 1);
            d2 == s.len() || is_exp_at(s, d2)
        } else {
            is_exp_at(s, d1)
        }
    } else {
        i < s.len() && s[i] == '.' && ({
            let d2: int = digit_run_end(s, i + 1);
            d2 > i + 1 && (d2 == s.len() || is_exp_at(s, d2))
        })
    }
}

/// The word `inf`, in any letter case, filling the text from `i` on.
pub open spec fn is_inf_at(s: Seq<char>, i: int) -> bool {
    0 <= i && s.len() - i == 3
        && (s[i] == 'i' || s[i] == 'I')
        && (s[i + 1] == 'n' || s[i + 1] == 'N')
        && (s[i + 2] == 'f' || s[i + 2] == 'F')
}

/// The word `infinity`, in any letter case, filling the text from `i` on.
pub open spec fn is_infinity_at(s: Seq<char>, i: int) -> bool {
    0 <= i && s.len() - i == 8
        && (s[i] == 'i' || s[i] == 'I')
        && (s[i + 1] == 'n' || s[i + 1] == 'N')
        && (s[i + 2] == 'f' || s[i + 2] == 'F')
        && (s[i + 3] == 'i' || s[i + 3] == 'I')
        && (s[i + 4] == 'n' || s[i + 4] == 'N')
        && (s[i + 5] == 'i' || s[i + 5] == 'I')
        && (s[i + 6] == 't' || s[i + 6] == 'T')
        && (s[i + 7] == 'y' || s[i + 7] == 'Y')
}

/// The word `nan`, in any letter case, filling the text from `i` on.
pub open spec fn is_nan_at(s: Seq<char>, i: int) -> bool {
    0 <= i && s.len() - i == 3
        && (s[i] == 'n' || s[i] == 'N')
        && (s[i + 1] == 'a' || s[i + 1] == 'A')
        && (s[i + 2] == 'n' || s[i + 2] == 'N')
}

/// The texts accepted as a floating-point literal: an optional sign
/// followed by `inf`, `infinity`, `nan` (in any letter case) or a decimal
/// number with optional fraction and exponent.
pub open spec fn is_float_literal(s: Seq<char>) -> bool {
    let i: int = if s.len() > 0 && is_sign_char(s[0]) {
        1
    } else {
        0
    };
    is_inf_at(s, i) || is_infinity_at(s, i) || is_nan_at(s, i) || is_number_body_at(s, i)
}

/// Whether `c` is a decimal digit.
fn is_digit(c: char) -> (r: bool)
    ensures
        r == is_digit_char(c),
{
    let u = c as u32;
    48 <= u && u <= 57
}

/// The end of the run of digits beginning at `from`.
fn scan_digits(s: &str, len: usize, from: usize) -> (r: usize)
    requires
        len == s@.len(),
        from <= len,
    ensures
        r == digit_run_end(s@, from as int),
        from <= r <= len,
{
    let mut i: usize = from;
    while i < len && is_digit(s.get_char(i))
        invariant
            len == s@.len(),
            from <= i <= len,
            digit_run_end(s@, from as int) == digit_run_end(s@, i as int),
        decreases len - i,
    {
        proof {
            assert(digit_run_end(s@, i as int) == digit_run_end(s@, i + 1 as int));
        }
        i = i + 1;
    }
    proof {
        assert(digit_run_end(s@, i as int) == i as int);
    }
    i
}

/// An exponent part at position `i` running to the end of the token.
fn scan_exp(s: &str, len: usize, i: usize) -> (r: bool)
    requires
        len == s@.len(),
        i <= len,
    ensures
        r == is_exp_at(s@, i as int),
{
    if i < len {
        let c = s.get_char(i);
        if c == 'e' || c == 'E' {
            let j: usize = if i + 1 < len {
                let c1 = s.get_char(i + 1);
                if c1 == '+' || c1 == '-' {
                    i + 2
                } else {
                    i + 1
                }
            } else {
                i + 1
            };
            if j < len {
                scan_digits(s, len, j) == len
            } else {
                false
            }
        } else {
            false
        }
    } else {
        false
    }
}

/// The unsigned number forms of a numeric literal, starting at `start`.
fn scan_number_body(s: &str, len: usize, start: usize) -> (r: bool)
    requires
        len == s@.len(),
        start <= len,
    ensures
        r == is_number_body_at(s@, start as int),
{
    let d1 = scan_digits(s, len, start);
    if d1 > start {
        if d1 == len {
            true
        } else if s.get_char(d1) == '.' {
            let d2 = scan_digits(s, len, d1 + 1);
            if d2 == len {
                true
            } else {
                scan_exp(s, len, d2)
            }
        } else {
            scan_exp(s, len, d1)
        }
    } else {
        if start < len && s.get_char(start) == '.' {
            let d2 = scan_digits(s, len, start + 1);
            if d2 > start + 1 {
                if d2 == len {
                    true
                } else {
                    scan_exp(s, len, d2)
                }
            } else {
                false
            }
        } else {
            false
        }
    }
}

/// Whether the token is a numeric literal.
pub fn is_number_token(token: &str) -> (r: bool)
    ensures
        r == is_float_literal(token@),
{
    let len = token.unicode_len();
    if len == 0 {
        return false;
    }
    let c0 = token.get_char(0);
    let start: usize = if c0 == '+' || c0 == '-' {
        1
    } else {
        0
    };
    if len - start == 3 {
        let a = token.get_char(start);
        let b = token.get_char(start + 1);
        let c = token.get_char(start + 2);
        if (a == 'i' || a == 'I') && (b == 'n' || b == 'N') && (c == 'f' || c == 'F') {
            return true;
        }
        if (a == 'n' || a == 'N') && (b == 'a' || b == 'A') && (c == 'n' || c == 'N') {
            return true;
        }
    }
    if len - start == 8 {
        let c0w = token.get_char(start);
        let c1w = token.get_char(start + 1);
        let c2w = token.get_char(start + 2);
        let c3w = token.get_char(start + 3);
        let c4w = token.get_char(start + 4);
        let c5w = token.get_char(start + 5);
        let c6w = token.get_char(start + 6);
        let c7w = token.get_char(start + 7);
        if (c0w == 'i' || c0w == 'I') && (c1w == 'n' || c1w == 'N') && (c2w == 'f' || c2w == 'F')
            && (c3w == 'i' || c3w == 'I') && (c4w == 'n' || c4w == 'N') && (c5w == 'i' || c5w
            == 'I') && (c6w == 't' || c6w == 'T') && (c7w == 'y' || c7w == 'Y') {
            return true;
        }
    }
    scan_number_body(token, len, start)
}

/// Whether the token is a valid variable name. Returns the name as an owned
/// string when it is.
pub fn try_parse_variable(token: &str) -> (r: Option<String>)
    ensures
        ({
            if is_identifier(token@) {
                r matches Some(s) && s@ == token@
            } else {
                r is None
            }
        }),
{
    let len = token.unicode_len();
    if len == 0 {
        return None;
    }
    let mut i: usize = 0;
    while i < len
        invariant
            len == token@.len(),
            0 <= i <= len,
            forall|k: int| 0 <= k < i ==> is_alnum_char(#[trigger] token@[k]),
        decreases len - i,
    {
        let c = token.get_char(i);
        let u = c as u32;
        let ok = (48 <= u && u <= 57) || (65 <= u && u <= 90) || (97 <= u && u <= 122);
        if !ok {
            return None;
        }
        i = i + 1;
    }
    Some(token.to_owned())
}

/// The first restricted character at or after `left` and before `right`.
pub open spec fn spec_find_restricted(s: Seq<char>, i: int, end: int) -> Option<int>
    decreases end - i when i <= end <= s.len()
{
    if i >= end {
        None
    } else if is_restricted_char(s[i]) {
        Some(i)
    } else {
        spec_find_restricted(s, i + 1, end)
    }
}

/// Position of the first parenthesis, comma or single-character operator
/// symbol in `s` between the character positions `left` and `right`.
pub fn find_restricted_character(s: &str, left: usize, right: usize) -> (r: Option<usize>)
    requires
        left <= right <= s@.len(),
    ensures
        ({
            match r {
                Some(i) => spec_find_restricted(s@, left as int, right as int) == Some(i as int),
                None => spec_find_restricted(s@, left as int, right as int) is None,
            }
        }),
{
    let mut i: usize = left;
    while i < right
        invariant
            left <= i <= right <= s@.len(),
            spec_find_restricted(s@, left as int, right as int) == spec_find_restricted(
                s@,
                i as int,
                right as int,
            ),
        decreases right - i,
    {
        let c = s.get_char(i);
        if c == '(' || c == ')' || c == ',' || c == '+' || c == '-' || c == '*' || c == '/' {
            return Some(i);
        }
        i = i + 1;
    }
    None
}

/// A possibly pending token: the empty sequence stands for no pending
/// token and yields nothing.
pub open spec fn flush_chunk(cur: Seq<char>) -> Seq<Seq<char>> {
    if cur.len() == 0 {
        seq![]
    } else {
        seq![cur]
    }
}

/// The token texts of the input `s`, given a pending chunk `cur`:
/// whitespace ends the pending token and is dropped; a restricted character
/// ends the pending token and forms a token of its own; any other character
/// extends the pending token.
pub open spec fn spec_tokenize(s: Seq<char>, cur: Seq<char>) -> Seq<Seq<char>>
    decreases s.len(),
{
    if s.len() == 0 {
        flush_chunk(cur)
    } else {
        let c = s[0];
        let rest = s.drop_first();
        if is_ws_char(c) {
            flush_chunk(cur) + spec_tokenize(rest, Seq::empty())
        } else if is_restricted_char(c) {
            flush_chunk(cur) + seq![seq![c]] + spec_tokenize(rest, Seq::empty())
        } else {
            spec_tokenize(rest, cur.push(c))
        }
    }
}

/// The token texts of the input `s`.
pub open spec fn spec_tokens(s: Seq<char>) -> Seq<Seq<char>> {
    spec_tokenize(s, Seq::empty())
}

/// The texts of a sequence of owned tokens.
pub open spec fn tokens_view(ts: Seq<String>) -> Seq<Seq<char>> {
    ts.map_values(|t: String| t@)
}

/// Split the input into tokens: maximal runs of unrestricted
/// non-whitespace characters, and one single-character token for each
/// parenthesis, comma or operator symbol.
pub fn tokenize(s: &str) -> (tokens: Vec<String>)
    ensures
        tokens_view(tokens@) == spec_tokens(s@),
{
    let len = s.unicode_len();
    let mut tokens: Vec<String> = Vec::new();
    let mut start: usize = 0;
    let mut i: usize = 0;
    proof {
        assert(s@.skip(0) =~= s@);
        assert(s@.subrange(0, 0) =~= Seq::<char>::empty());
        assert(tokens_view(tokens@) =~= Seq::<Seq<char>>::empty());
        assert(tokens_view(tokens@) + spec_tokenize(s@, Seq::empty()) =~= spec_tokenize(
            s@,
            Seq::empty(),
        ));
    }
    while i < len
        invariant
            len == s@.len(),
            start <= i <= len,
            spec_tokens(s@) == tokens_view(tokens@) + spec_tokenize(
                s@.skip(i as int),
                s@.subrange(start as int, i as int),
            ),
        decreases len - i,
    {
        let ghost pre_tokens = tokens@;
        let ghost cur = s@.subrange(start as int, i as int);
        proof {
            assert(s@.skip(i as int)[0] == s@[i as int]);
            assert(s@.skip(i as int).drop_first() =~= s@.skip(i as int + 1));
        }
        let c = s.get_char(i);
        if is_whitespace(c) {
            if start < i {
                let tok = s.substring_char(start, i).to_owned();
                tokens.push(tok);
                proof {
                    assert(cur.len() > 0);
                    assert(tokens_view(tokens@) =~= tokens_view(pre_tokens).push(cur));
                    assert(tokens_view(pre_tokens) + flush_chunk(cur) =~= tokens_view(tokens@));
                }
            } else {
                proof {
                    assert(cur.len() == 0);
                    assert(tokens_view(pre_tokens) + flush_chunk(cur) =~= tokens_view(tokens@));
                }
            }
            start = i + 1;
            proof {
                assert(s@.subrange(start as int, i + 1 as int) =~= Seq::<char>::empty());
                assert(spec_tokens(s@) == tokens_view(tokens@) + spec_tokenize(
                    s@.skip(i + 1 as int),
                    s@.subrange(start as int, i + 1 as int),
                ));
            }
        } else if c == '(' || c == ')' || c == ',' || c == '+' || c == '-' || c == '*' || c
            == '/' {
            if start < i {
                let tok = s.substring_char(start, i).to_owned();
                tokens.push(tok);
                proof {
                    assert(cur.len() > 0);
                    assert(tokens_view(tokens@) =~= tokens_view(pre_tokens).push(cur));
                    assert(tokens_view(pre_tokens) + flush_chunk(cur) =~= tokens_view(tokens@));
                }
            } else {
                proof {
                    assert(cur.len() == 0);
                    assert(tokens_view(pre_tokens) + flush_chunk(cur) =~= tokens_view(tokens@));
                }
            }
            let ghost mid_tokens = tokens@;
            let tok1 = s.substring_char(i, i + 1).to_owned();
            tokens.push(tok1);
            start = i + 1;
            proof {
                assert(tok1@ =~= seq![s@[i as int]]);
                assert(tokens_view(tokens@) =~= tokens_view(mid_tokens).push(tok1@));
                assert(tokens_view(pre_tokens) + (flush_chunk(cur) + seq![seq![s@[i as int]]])
                    =~= tokens_view(tokens@));
                assert(s@.subrange(start as int, i + 1 as int) =~= Seq::<char>::empty());
                assert(spec_tokens(s@) == tokens_view(tokens@) + spec_tokenize(
                    s@.skip(i + 1 as int),
                    s@.subrange(start as int, i + 1 as int),
                ));
            }
        } else {
            proof {
                assert(s@.subrange(start as int, i + 1 as int) =~= cur.push(s@[i as int]));
            }
        }
        i = i + 1;
    }
    proof {
        assert(s@.skip(len as int) =~= Seq::<char>::empty());
    }
    let ghost pre_tokens = tokens@;
    let ghost cur = s@.subrange(start as int, len as int);
    if start < len {
        let tok = s.substring_char(start, len).to_owned();
        tokens.push(tok);
        proof {
            assert(cur.len() > 0);
            assert(tokens_view(tokens@) =~= tokens_view(pre_tokens).push(cur));
            assert(tokens_view(pre_tokens) + flush_chunk(cur) =~= tokens_view(tokens@));
        }
    } else {
        proof {
            assert(cur.len() == 0);
            assert(tokens_view(pre_tokens) + flush_chunk(cur) =~= tokens_view(tokens@));
        }
    }
    tokens
}

/// Whether two string slices hold the same characters.
pub fn str_eq(a: &str, b: &str) -> (r: bool)
    ensures
        r == (a@ == b@),
{
    let la = a.unicode_len();
    let lb = b.unicode_len();
    if la != lb {
        proof {
            assert(a@ != b@) by {
                if a@ == b@ {
                    assert(a@.len() == b@.len());
                }
            }
        }
        return false;
    }
    let mut i: usize = 0;
    while i < la
        invariant
            la == a@.len(),
            la == b@.len(),
            0 <= i <= la,
            forall|k: int| 0 <= k < i ==> a@[k] == b@[k],
        decreases la - i,
    {
        if a.get_char(i) != b.get_char(i) {
            proof {
                assert(a@[i as int] != b@[i as int]);
            }
            return false;
        }
        i = i + 1;
    }
    proof {
        assert(a@ =~= b@);
    }
    true
}

} // verus!
