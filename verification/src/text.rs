//! Verified decimal text handling for configuration entries: parsing an
//! `i32` from a coordinate field, and printing one back.

use vstd::prelude::*;

verus! {

/// An ASCII decimal digit, by code point.
pub open spec fn is_dec_digit(c: char) -> bool {
    48 <= c as int <= 57
}

/// The numeric value of one digit.
pub open spec fn dec_digit_val(c: char) -> int {
    c as int - 48
}

/// A non-empty run of digits.
pub open spec fn all_dec_digits(s: Seq<char>) -> bool {
    s.len() > 0 && forall|i: int| 0 <= i < s.len() ==> is_dec_digit(#[trigger] s[i])
}

/// The value of a digit run, most significant first.
pub open spec fn dec_digits_val(s: Seq<char>) -> int
    decreases s.len(),
{
    if s.len() == 0 {
        0
    } else {
        dec_digits_val(s.drop_last()) * 10 + dec_digit_val(s.last())
    }
}

/// What `i32` text parsing accepts: an optional sign followed by one or more
/// digits, with the value in range.
pub open spec fn parse_i32_spec(s: Seq<char>) -> Option<i32> {
    if s.len() > 0 && (s[0] == '-' || s[0] == '+') {
        let body = s.subrange(1, s.len() as int);
        if all_dec_digits(body) {
            let v: int = if s[0] == '-' {
                -dec_digits_val(body)
            } else {
                dec_digits_val(body)
            };
            if i32::MIN <= v <= i32::MAX {
                Some(v as i32)
            } else {
                None
            }
        } else {
            None
        }
    } else if all_dec_digits(s) {
        if dec_digits_val(s) <= i32::MAX {
            Some(dec_digits_val(s) as i32)
        } else {
            None
        }
    } else {
        None
    }
}

/// Digit runs have non-negative value.
proof fn lemma_dec_digits_val_nonneg(s: Seq<char>)
    requires
        forall|i: int| 0 <= i < s.len() ==> is_dec_digit(#[trigger] s[i]),
    ensures
        dec_digits_val(s) >= 0,
    decreases s.len(),
{
    if s.len() > 0 {
        lemma_dec_digits_val_nonneg(s.drop_last());
    }
}

/// Extending a digit run never shrinks its value.
proof fn lemma_dec_digits_val_prefix_le(s: Seq<char>, i: int)
    requires
        0 <= i <= s.len(),
        forall|j: int| 0 <= j < s.len() ==> is_dec_digit(#[trigger] s[j]),
    ensures
        dec_digits_val(s.subrange(0, i)) <= dec_digits_val(s),
    decreases s.len() - i,
{
    if i < s.len() {
        let pre = s.subrange(0, i);
        let ext = s.subrange(0, i + 1);
        assert(ext.drop_last() =~= pre);
        lemma_dec_digits_val_nonneg(pre);
        lemma_dec_digits_val_prefix_le(s, i + 1);
    } else {
        assert(s.subrange(0, i) =~= s);
    }
}

/// Parses an `i32` from decimal text: an optional sign and digits, rejecting
/// anything else and any value out of range, exactly as `parse_i32_spec`.
pub fn parse_i32(s: &str) -> (r: Option<i32>)
    ensures
        r == parse_i32_spec(s@),
{
    let len = s.unicode_len();
    if len == 0 {
        return None;
    }
    let first = s.get_char(0);
    let negative = first == '-';
    let signed = first == '-' || first == '+';
    let start: usize = if signed {
        1
    } else {
        0
    };
    if start == len {
        return None;
    }
    let ghost body = if signed {
        s@.subrange(1, s@.len() as int)
    } else {
        s@
    };
    let mut i = start;
    let mut acc: i64 = 0;
    while i < len
        invariant
            start <= i <= len,
            len == s@.len(),
            s@.len() > 0,
            first == s@[0],
            signed == (first == '-' || first == '+'),
            negative == (first == '-'),
            start == if signed {
                1int
            } else {
                0int
            },
            body == if signed {
                s@.subrange(1, s@.len() as int)
            } else {
                s@
            },
            start < len,
            0 <= acc <= 0x8000_0000,
            forall|j: int| 0 <= j < i - start ==> is_dec_digit(#[trigger] body[j]),
            acc == dec_digits_val(body.subrange(0, i - start)),
        decreases len - i,
    {
        let c = s.get_char(i);
        let cv = c as u32;
        if cv < 48 || cv > 57 {
            proof {
                assert(body[i - start] == s@[i as int]);
                assert(!is_dec_digit(body[i - start]));
                assert(!all_dec_digits(body));
                assert(parse_i32_spec(s@) is None);
            }
            return None;
        }
        proof {
            assert(body.subrange(0, i - start + 1).drop_last() =~= body.subrange(0, i - start));
            assert(body.subrange(0, i - start + 1).last() == body[i - start]);
            assert(body[i - start] == s@[i as int]);
            assert(48 <= cv <= 57 ==> is_dec_digit(s@[i as int]) && dec_digit_val(s@[i as int])
                == cv - 48);
        }
        let d = (cv - 48) as i64;
        acc = acc * 10 + d;
        i = i + 1;
        if acc > 0x8000_0000 {
            proof {
                if all_dec_digits(body) {
                    lemma_dec_digits_val_prefix_le(body, i - start);
                    assert(dec_digits_val(body) > 0x7FFF_FFFF);
                }
                assert(parse_i32_spec(s@) is None);
            }
            return None;
        }
    }
    proof {
        assert(body.subrange(0, body.len() as int) =~= body);
        assert(all_dec_digits(body));
    }
    if negative {
        Some((-acc) as i32)
    } else if acc <= 0x7FFF_FFFF {
        Some(acc as i32)
    } else {
        None
    }
}

/// Horizontal whitespace between tokens of a configuration line.
pub open spec fn is_space_char(c: char) -> bool {
    c == ' ' || c == '\t' || c == '\r'
}

/// The tokens of `s` from position `i` on, given the token collected so far
/// and the tokens already emitted: maximal runs of non-space characters.
pub open spec fn tokens_from(s: Seq<char>, i: int, cur: Seq<char>, acc: Seq<Seq<char>>) -> Seq<
    Seq<char>,
>
    decreases s.len() - i,
{
    if i < 0 || i >= s.len() {
        if cur.len() > 0 {
            acc.push(cur)
        } else {
            acc
        }
    } else if is_space_char(s[i]) {
        if cur.len() > 0 {
            tokens_from(s, i + 1, Seq::empty(), acc.push(cur))
        } else {
            tokens_from(s, i + 1, Seq::empty(), acc)
        }
    } else {
        tokens_from(s, i + 1, cur.push(s[i]), acc)
    }
}

/// The whitespace-separated tokens of a line.
pub open spec fn tokens_spec(s: Seq<char>) -> Seq<Seq<char>> {
    tokens_from(s, 0, Seq::empty(), Seq::empty())
}

/// Splits a line into its whitespace-separated tokens.
pub fn tokenize(s: &str) -> (r: Vec<String>)
    ensures
        r@.map_values(|t: String| t@) == tokens_spec(s@),
{
    let len = s.unicode_len();
    let mut out: Vec<String> = Vec::new();
    let mut cur_start: Option<usize> = None;
    let mut i: usize = 0;
    proof {
        assert(out@.map_values(|t: String| t@) =~= Seq::<Seq<char>>::empty());
    }
    while i < len
        invariant
            0 <= i <= len,
            len == s@.len(),
            match cur_start {
                Some(st) => st < i,
                None => true,
            },
            tokens_from(
                s@,
                i as int,
                match cur_start {
                    Some(st) => s@.subrange(st as int, i as int),
                    None => Seq::empty(),
                },
                out@.map_values(|t: String| t@),
            ) == tokens_spec(s@),
        decreases len - i,
    {
        let c = s.get_char(i);
        let ghost cur = match cur_start {
            Some(st) => s@.subrange(st as int, i as int),
            None => Seq::<char>::empty(),
        };
        let ghost acc = out@.map_values(|t: String| t@);
        if c == ' ' || c == '\t' || c == '\r' {
            match cur_start {
                Some(st) => {
                    let token = s.substring_char(st, i).to_owned();
                    out.push(token);
                    cur_start = None;
                    proof {
                        assert(out@.map_values(|t: String| t@) =~= acc.push(cur));
                    }
                },
                None => {},
            }
        } else {
            match cur_start {
                Some(_) => {
                    proof {
                        let st = cur_start.unwrap();
                        assert(s@.subrange(st as int, i as int + 1) =~= cur.push(s@[i as int]));
                    }
                },
                None => {
                    cur_start = Some(i);
                    proof {
                        assert(s@.subrange(i as int, i as int + 1) =~= cur.push(s@[i as int]));
                    }
                },
            }
        }
        i = i + 1;
    }
    match cur_start {
        Some(st) => {
            let ghost acc = out@.map_values(|t: String| t@);
            let token = s.substring_char(st, len).to_owned();
            out.push(token);
            proof {
                assert(out@.map_values(|t: String| t@) =~= acc.push(
                    s@.subrange(st as int, len as int),
                ));
            }
        },
        None => {},
    }
    out
}

/// The character of one decimal digit.
pub open spec fn digit_char(d: int) -> char {
    ((48 + d) as u8) as char
}

/// The decimal digits of a non-negative value, most significant first.
pub open spec fn dec_of_nat(v: int) -> Seq<char>
    decreases v,
{
    if v < 0 {
        Seq::empty()
    } else if v < 10 {
        seq![digit_char(v)]
    } else {
        dec_of_nat(v / 10).push(digit_char(v % 10))
    }
}

/// The decimal text of an `i32`: a minus sign for negatives, then digits.
pub open spec fn dec_of_i32(v: int) -> Seq<char> {
    if v < 0 {
        seq!['-'] + dec_of_nat(-v)
    } else {
        dec_of_nat(v)
    }
}

/// Appends one digit.
fn push_digit(out: &mut String, d: u32)
    requires
        d < 10,
    ensures
        final(out)@ == old(out)@ + seq![digit_char(d as int)],
{
    let piece: &str = match d {
        0 => "0",
        1 => "1",
        2 => "2",
        3 => "3",
        4 => "4",
        5 => "5",
        6 => "6",
        7 => "7",
        8 => "8",
        _ => "9",
    };
    proof {
        reveal_strlit("0");
        reveal_strlit("1");
        reveal_strlit("2");
        reveal_strlit("3");
        reveal_strlit("4");
        reveal_strlit("5");
        reveal_strlit("6");
        reveal_strlit("7");
        reveal_strlit("8");
        reveal_strlit("9");
        assert(piece@ =~= seq![digit_char(d as int)]);
    }
    out.append(piece);
}

/// Appends the decimal digits of `v`.
fn push_dec_u32(out: &mut String, v: u32)
    ensures
        final(out)@ == old(out)@ + dec_of_nat(v as int),
    decreases v,
{
    if v >= 10 {
        push_dec_u32(out, v / 10);
    }
    push_digit(out, v % 10);
    proof {
        if v >= 10 {
            assert(old(out)@ + dec_of_nat(v as int / 10) + seq![digit_char(v as int % 10)]
                =~= old(out)@ + dec_of_nat(v as int));
        } else {
            assert(old(out)@ + seq![digit_char(v as int)] =~= old(out)@ + dec_of_nat(v as int));
        }
    }
}

/// Appends the decimal text of an `i32`.
pub fn push_dec_i32(out: &mut String, v: i32)
    ensures
        final(out)@ == old(out)@ + dec_of_i32(v as int),
{
    if v < 0 {
        proof {
            reveal_strlit("-");
            assert("-"@ =~= seq!['-']);
        }
        out.append("-");
        let ghost mid = out@;
        let magnitude = (-(v as i64)) as u32;
        push_dec_u32(out, magnitude);
        proof {
            assert(old(out)@ + seq!['-'] + dec_of_nat(magnitude as int) =~= old(out)@ + dec_of_i32(
                v as int,
            ));
        }
    } else {
        push_dec_u32(out, v as u32);
    }
}

/// The lines of a file, from position `i` on: segments separated by newline
/// characters, with a final segment kept only when it is non-empty.
pub open spec fn lines_from(s: Seq<char>, i: int, cur: Seq<char>, acc: Seq<Seq<char>>) -> Seq<
    Seq<char>,
>
    decreases s.len() - i,
{
    if i < 0 || i >= s.len() {
        if cur.len() > 0 {
            acc.push(cur)
        } else {
            acc
        }
    } else if s[i] == '\n' {
        lines_from(s, i + 1, Seq::empty(), acc.push(cur))
    } else {
        lines_from(s, i + 1, cur.push(s[i]), acc)
    }
}

/// The newline-separated lines of a file.
pub open spec fn lines_spec(s: Seq<char>) -> Seq<Seq<char>> {
    lines_from(s, 0, Seq::empty(), Seq::empty())
}

/// Splits a file into its newline-separated lines.
pub fn split_lines(s: &str) -> (r: Vec<String>)
    ensures
        r@.map_values(|t: String| t@) == lines_spec(s@),
{
    let len = s.unicode_len();
    let mut out: Vec<String> = Vec::new();
    let mut line_start: usize = 0;
    let mut i: usize = 0;
    proof {
        assert(out@.map_values(|t: String| t@) =~= Seq::<Seq<char>>::empty());
        assert(s@.subrange(0, 0) =~= Seq::<char>::empty());
    }
    while i < len
        invariant
            0 <= line_start <= i <= len,
            len == s@.len(),
            lines_from(
                s@,
                i as int,
                s@.subrange(line_start as int, i as int),
                out@.map_values(|t: String| t@),
            ) == lines_spec(s@),
        decreases len - i,
    {
        let c = s.get_char(i);
        let ghost cur = s@.subrange(line_start as int, i as int);
        let ghost acc = out@.map_values(|t: String| t@);
        if c == '\n' {
            let line = s.substring_char(line_start, i).to_owned();
            out.push(line);
            line_start = i + 1;
            proof {
                assert(out@.map_values(|t: String| t@) =~= acc.push(cur));
                assert(s@.subrange(i as int + 1, i as int + 1) =~= Seq::<char>::empty());
            }
        } else {
            proof {
                assert(s@.subrange(line_start as int, i as int + 1) =~= cur.push(s@[i as int]));
            }
        }
        i = i + 1;
    }
    if line_start < len {
        let ghost acc = out@.map_values(|t: String| t@);
        let line = s.substring_char(line_start, len).to_owned();
        out.push(line);
        proof {
            assert(out@.map_values(|t: String| t@) =~= acc.push(
                s@.subrange(line_start as int, len as int),
            ));
        }
    } else {
        proof {
            assert(s@.subrange(line_start as int, len as int).len() == 0);
        }
    }
    out
}

} // verus!
