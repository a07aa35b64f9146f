use vstd::prelude::*;

verus! {

/// Whether `c` has the Unicode `White_Space` property: tab, line feed, vertical tab, form
/// feed, carriage return, space, next line, no-break space, ogham space mark, the spaces
/// U+2000 to U+200A, line and paragraph separators, narrow no-break space, medium
/// mathematical space and ideographic space.
pub open spec fn is_whitespace(c: char) -> bool {
    let n = c as int;
    ||| 0x09 <= n <= 0x0d
    ||| n == 0x20
    ||| n == 0x85
    ||| n == 0xa0
    ||| n == 0x1680
    ||| 0x2000 <= n <= 0x200a
    ||| n == 0x2028
    ||| n == 0x2029
    ||| n == 0x202f
    ||| n == 0x205f
    ||| n == 0x3000
}

/// Calls `char::is_whitespace`, which answers whether `c` has the Unicode `White_Space`
/// property.
#[verifier::external_body]
pub(crate) fn char_is_whitespace(c: char) -> (r: bool)
    ensures
        r == is_whitespace(c),
{
    c.is_whitespace()
}

/// `s` without its trailing whitespace.
pub open spec fn trim_end(s: Seq<char>) -> Seq<char>
    decreases s.len(),
{
    if s.len() == 0 || !is_whitespace(s.last()) {
        s
    } else {
        trim_end(s.drop_last())
    }
}

/// The length of `s` without its trailing whitespace.
pub fn trimmed_len(s: &Vec<char>) -> (r: usize)
    ensures
        r <= s@.len(),
        s@.take(r as int) == trim_end(s@),
{
    let mut n: usize = s.len();
    proof {
        assert(s@.take(n as int) =~= s@);
    }
    while n > 0 && char_is_whitespace(s[n - 1])
        invariant
            n <= s@.len(),
            trim_end(s@.take(n as int)) == trim_end(s@),
        decreases n,
    {
        proof {
            assert(s@.take(n as int).drop_last() =~= s@.take(n - 1));
        }
        n = n - 1;
    }
    n
}

/// Whether `c` is a decimal digit.
pub open spec fn is_digit(c: char) -> bool {
    '0' <= c <= '9'
}

/// The number that the decimal digits `s` write.
pub open spec fn digits_value(s: Seq<char>) -> int
    decreases s.len(),
{
    if s.len() == 0 {
        0
    } else {
        digits_value(s.drop_last()) * 10 + (s.last() as int - '0' as int)
    }
}

/// `s` without its leading sign, if it has one.
pub open spec fn unsigned_part(s: Seq<char>) -> Seq<char> {
    if s.len() > 0 && (s[0] == '-' || s[0] == '+') {
        s.drop_first()
    } else {
        s
    }
}

/// Whether every character of `s` is a decimal digit.
pub open spec fn all_digits(s: Seq<char>) -> bool {
    forall|i: int| 0 <= i < s.len() ==> is_digit(#[trigger] s[i])
}

/// What `str::parse::<i32>` gives for `s`: an optional `+` or `-` sign followed by at
/// least one decimal digit and nothing else, whose value fits in an `i32`.
pub open spec fn spec_parse_i32(s: Seq<char>) -> Option<i32> {
    let neg = s.len() > 0 && s[0] == '-';
    let body = unsigned_part(s);
    if body.len() == 0 || !all_digits(body) {
        None
    } else {
        let v = if neg {
            -digits_value(body)
        } else {
            digits_value(body)
        };
        if i32::MIN <= v <= i32::MAX {
            Some(v as i32)
        } else {
            None
        }
    }
}

/// Digits never write a negative number, and more digits never write a smaller one.
pub proof fn lemma_digits_value(s: Seq<char>, k: int)
    requires
        0 <= k <= s.len(),
        forall|i: int| 0 <= i < s.len() ==> is_digit(#[trigger] s[i]),
    ensures
        0 <= digits_value(s.take(k)) <= digits_value(s),
    decreases s.len(),
{
    if s.len() > 0 {
        if k < s.len() {
            assert(s.drop_last().take(k) =~= s.take(k));
            lemma_digits_value(s.drop_last(), k);
        } else {
            assert(s.take(k) =~= s);
            lemma_digits_value(s.drop_last(), k - 1);
            assert(s.drop_last().take(k - 1) =~= s.drop_last());
        }
    }
}

/// The `i32` that `s` writes, as `str::parse::<i32>` reads it; `None` when `s` is not an
/// optionally signed run of decimal digits or its value does not fit.
pub fn parse_i32(s: &Vec<char>) -> (r: Option<i32>)
    ensures
        r == spec_parse_i32(s@),
{
    let n = s.len();
    let mut start: usize = 0;
    let mut neg = false;
    if n > 0 && (s[0] == '-' || s[0] == '+') {
        neg = s[0] == '-';
        start = 1;
    }
    let ghost body = s@.subrange(start as int, n as int);
    proof {
        if start == 1 {
            assert(body =~= s@.drop_first());
        } else {
            assert(body =~= s@);
        }
    }
    if start == n {
        return None;
    }
    let mut v: i64 = 0;
    let mut i: usize = start;
    while i < n
        invariant
            start <= i <= n,
            n == s@.len(),
            body == s@.subrange(start as int, n as int),
            start == if s@.len() > 0 && (s@[0] == '-' || s@[0] == '+') {
                1usize
            } else {
                0usize
            },
            neg == (s@.len() > 0 && s@[0] == '-'),
            body == if start == 1 {
                s@.drop_first()
            } else {
                s@
            },
            forall|j: int| 0 <= j < i - start ==> is_digit(#[trigger] body[j]),
            v == digits_value(body.take(i - start)),
            0 <= v <= 2147483648,
        decreases n - i,
    {
        let c = s[i];
        if !('0' <= c && c <= '9') {
            proof {
                assert(body[i - start] == c);
                assert(!is_digit(body[i - start]));
                assert(!(forall|j: int| 0 <= j < body.len() ==> is_digit(#[trigger] body[j])));
                assert(unsigned_part(s@) == body);
            }
            return None;
        }
        proof {
            assert(body.take(i - start + 1).drop_last() =~= body.take(i - start));
        }
        let d = (c as u32 - '0' as u32) as i64;
        v = v * 10 + d;
        if v > 2147483648 {
            proof {
                assert(body.take(i - start + 1).last() == c);
                assert(v == digits_value(body.take(i - start + 1)));
                assert(unsigned_part(s@) == body);
                if all_digits(body) {
                    lemma_digits_value(body, i - start + 1);
                    assert(digits_value(body) > 2147483648);
                }
            }
            return None;
        }
        i = i + 1;
    }
    proof {
        assert(body.take(n - start) =~= body);
        assert(unsigned_part(s@) == body);
    }
    let w: i64 = if neg {
        -v
    } else {
        v
    };
    if w > 2147483647 {
        None
    } else {
        Some(w as i32)
    }
}

/// A line without its carriage return, if it ends with one.
pub open spec fn strip_cr(line: Seq<char>) -> Seq<char> {
    if line.len() > 0 && line.last() == '\r' {
        line.drop_last()
    } else {
        line
    }
}

/// The lines ended so far among the first `n` characters of `s`, and the line under way.
pub open spec fn lines_acc(s: Seq<char>, n: int) -> (Seq<Seq<char>>, Seq<char>)
    decreases n,
{
    if n <= 0 {
        (Seq::empty(), Seq::empty())
    } else {
        let (done, cur) = lines_acc(s, n - 1);
        if s[n - 1] == '\n' {
            (done.push(strip_cr(cur)), Seq::empty())
        } else {
            (done, cur.push(s[n - 1]))
        }
    }
}

/// The lines of `s`, as `str::lines` gives them: split at each `\n`, a line ended by
/// `\r\n` losing both, and a last line that is empty not counted.
pub open spec fn spec_lines(s: Seq<char>) -> Seq<Seq<char>> {
    let (done, cur) = lines_acc(s, s.len() as int);
    if cur.len() == 0 {
        done
    } else {
        done.push(cur)
    }
}

/// The pieces ended so far among the first `n` characters of `s` when split at each
/// whitespace character, and the piece under way.
pub open spec fn split_acc(s: Seq<char>, n: int) -> (Seq<Seq<char>>, Seq<char>)
    decreases n,
{
    if n <= 0 {
        (Seq::empty(), Seq::empty())
    } else {
        let (done, cur) = split_acc(s, n - 1);
        if is_whitespace(s[n - 1]) {
            (done.push(cur), Seq::empty())
        } else {
            (done, cur.push(s[n - 1]))
        }
    }
}

/// The pieces of `s` between whitespace characters, as `str::split(char::is_whitespace)`
/// gives them: empty pieces included, one more piece than whitespace characters.
pub open spec fn spec_split_ws(s: Seq<char>) -> Seq<Seq<char>> {
    let (done, cur) = split_acc(s, s.len() as int);
    done.push(cur)
}

/// The lines of `s`.
pub fn lines(s: &Vec<char>) -> (r: Vec<Vec<char>>)
    ensures
        r@.map_values(|l: Vec<char>| l@) == spec_lines(s@),
{
    let mut done: Vec<Vec<char>> = Vec::new();
    let mut cur: Vec<char> = Vec::new();
    let mut i: usize = 0;
    while i < s.len()
        invariant
            i <= s@.len(),
            (done@.map_values(|l: Vec<char>| l@), cur@) == lines_acc(s@, i as int),
        decreases s.len() - i,
    {
        let c = s[i];
        if c == '\n' {
            let ghost d = done@;
            let ghost cv = cur@;
            if cur.len() > 0 && cur[cur.len() - 1] == '\r' {
                cur.pop();
            }
            let mut line: Vec<char> = Vec::new();
            std::mem::swap(&mut line, &mut cur);
            done.push(line);
            proof {
                assert(done@.map_values(|l: Vec<char>| l@) =~= d.map_values(|l: Vec<char>| l@).push(
                    strip_cr(cv),
                ));
            }
        } else {
            cur.push(c);
        }
        i = i + 1;
    }
    if cur.len() > 0 {
        let ghost d = done@;
        done.push(cur);
        proof {
            assert(done@.map_values(|l: Vec<char>| l@) =~= d.map_values(|l: Vec<char>| l@).push(
                lines_acc(s@, s@.len() as int).1,
            ));
        }
    }
    done
}

/// The pieces of `s` between whitespace characters, empty pieces included.
pub fn split_ws(s: &Vec<char>) -> (r: Vec<Vec<char>>)
    ensures
        r@.map_values(|l: Vec<char>| l@) == spec_split_ws(s@),
{
    let mut done: Vec<Vec<char>> = Vec::new();
    let mut cur: Vec<char> = Vec::new();
    let mut i: usize = 0;
    while i < s.len()
        invariant
            i <= s@.len(),
            (done@.map_values(|l: Vec<char>| l@), cur@) == split_acc(s@, i as int),
        decreases s.len() - i,
    {
        let c = s[i];
        if char_is_whitespace(c) {
            let ghost d = done@;
            let ghost cv = cur@;
            let mut piece: Vec<char> = Vec::new();
            std::mem::swap(&mut piece, &mut cur);
            done.push(piece);
            proof {
                assert(done@.map_values(|l: Vec<char>| l@) =~= d.map_values(|l: Vec<char>| l@).push(
                    cv,
                ));
            }
        } else {
            cur.push(c);
        }
        i = i + 1;
    }
    let ghost d = done@;
    let ghost cv = cur@;
    done.push(cur);
    proof {
        assert(done@.map_values(|l: Vec<char>| l@) =~= d.map_values(|l: Vec<char>| l@).push(cv));
    }
    done
}

} // verus!
