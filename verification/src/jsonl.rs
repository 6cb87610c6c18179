//! Framing of JSON Lines files: UTF-8 text split into its non-blank lines.
use vstd::prelude::*;
use crate::text::{chars_of, string_of};

verus! {

/// `std::str::Utf8Error`, the error of a failed UTF-8 decoding.
#[verifier::external_type_specification]
#[verifier::external_body]
pub struct ExUtf8Error(core::str::Utf8Error);

/// `std::str::from_utf8` decodes bytes that are valid UTF-8, and fails on any others.
pub assume_specification[ core::str::from_utf8 ](v: &[u8]) -> (r: Result<
    &str,
    core::str::Utf8Error,
>)
    ensures
        match r {
            Ok(s) => vstd::utf8::encode_utf8(s@) == v@,
            Err(_) => !vstd::utf8::valid_utf8(v@),
        },
;

/// A character with the Unicode `White_Space` property (what `char::is_whitespace` and
/// `str::trim` go by).
pub open spec fn is_space(c: char) -> bool {
    let u = c as u32;
    ||| 9 <= u <= 13
    ||| u == 32
    ||| u == 0x85
    ||| u == 0xa0
    ||| u == 0x1680
    ||| 0x2000 <= u <= 0x200a
    ||| u == 0x2028
    ||| u == 0x2029
    ||| u == 0x202f
    ||| u == 0x205f
    ||| u == 0x3000
}

/// A line that is empty once surrounding white space is trimmed.
pub open spec fn blank(line: Seq<char>) -> bool {
    forall|k: int| 0 <= k < line.len() ==> is_space(#[trigger] line[k])
}

/// The position of the first `\n` at or after `i`, or the length when there is none.
pub open spec fn newline_from(s: Seq<char>, i: int) -> int
    decreases s.len() - i,
{
    if i < 0 {
        newline_from(s, 0)
    } else if i >= s.len() {
        s.len() as int
    } else if s[i] == '\n' {
        i
    } else {
        newline_from(s, i + 1)
    }
}

/// A line without the `\r` of a `\r\n` ending.
pub open spec fn strip_cr(line: Seq<char>) -> Seq<char> {
    if line.len() > 0 && line.last() == '\r' {
        line.drop_last()
    } else {
        line
    }
}

pub proof fn lemma_newline_from_bounds(s: Seq<char>, i: int)
    requires
        0 <= i,
    ensures
        i <= newline_from(s, i) <= s.len() || (i > s.len() && newline_from(s, i) == s.len()),
        newline_from(s, i) < s.len() ==> s[newline_from(s, i)] == '\n',
    decreases s.len() - i,
{
    if i < s.len() && s[i] != '\n' {
        lemma_newline_from_bounds(s, i + 1);
    }
}

/// The lines of a text as `str::lines` yields them: split after each `\n`, without the
/// line ending (`\n` or `\r\n`); a last line without `\n` is kept as it is, and a text
/// that ends with `\n` has no empty last line.
pub open spec fn text_lines(s: Seq<char>) -> Seq<Seq<char>>
    decreases s.len(),
{
    if s.len() == 0 {
        seq![]
    } else {
        let k = newline_from(s, 0);
        if k >= s.len() || k < 0 {
            seq![s]
        } else {
            proof {
                lemma_newline_from_bounds(s, 0);
            }
            seq![strip_cr(s.take(k))] + text_lines(s.skip(k + 1))
        }
    }
}

/// The non-blank lines of a text, in order.
pub open spec fn content_lines(s: Seq<char>) -> Seq<Seq<char>> {
    text_lines(s).filter(|l: Seq<char>| !blank(l))
}

/// Whether `c` has the `White_Space` property.
pub fn is_space_exec(c: char) -> (r: bool)
    ensures
        r == is_space(c),
{
    let u = c as u32;
    (9 <= u && u <= 13) || u == 32 || u == 0x85 || u == 0xa0 || u == 0x1680 || (0x2000 <= u && u
        <= 0x200a) || u == 0x2028 || u == 0x2029 || u == 0x202f || u == 0x205f || u == 0x3000
}

fn blank_exec(line: &[char]) -> (r: bool)
    ensures
        r == blank(line@),
{
    let n = line.len();
    let mut i: usize = 0;
    while i < n
        invariant
            n == line@.len(),
            i <= n,
            forall|k: int| 0 <= k < i ==> is_space(#[trigger] line@[k]),
        decreases n - i,
    {
        if !is_space_exec(line[i]) {
            return false;
        }
        i += 1;
    }
    true
}

proof fn lemma_newline_at(s: Seq<char>, start: int, i: int, j: int)
    requires
        0 <= start <= j <= i,
        i <= s.len(),
        forall|k: int| start <= k < i ==> s[k] != '\n',
        i < s.len() ==> s[i] == '\n',
    ensures
        newline_from(s.skip(start), j - start) == i - start,
    decreases i - j,
{
    if j < i {
        lemma_newline_at(s, start, i, j + 1);
    }
}

proof fn lemma_filter_push(a: Seq<Seq<char>>, l: Seq<char>)
    ensures
        (seq![l] + a).filter(|x: Seq<char>| !blank(x)) == if blank(l) {
            a.filter(|x: Seq<char>| !blank(x))
        } else {
            seq![l] + a.filter(|x: Seq<char>| !blank(x))
        },
{
    let f = |x: Seq<char>| !blank(x);
    Seq::filter_distributes_over_add(seq![l], a, f);
    assert(seq![l].filter(f) == if blank(l) {
        Seq::<Seq<char>>::empty()
    } else {
        seq![l]
    }) by {
        reveal_with_fuel(Seq::filter, 2);
        assert(seq![l].drop_last() =~= Seq::<Seq<char>>::empty());
    }
    assert(Seq::<Seq<char>>::empty() + a.filter(f) =~= a.filter(f));
}

/// Lines written one after another, each followed by a line feed.
pub open spec fn encode_lines(lines: Seq<Seq<char>>) -> Seq<char>
    decreases lines.len(),
{
    if lines.len() == 0 {
        seq![]
    } else {
        encode_lines(lines.drop_last()) + lines.last() + seq!['\n']
    }
}

/// Writing one more line appends it and its line feed.
pub proof fn lemma_encode_push(lines: Seq<Seq<char>>, l: Seq<char>)
    ensures
        encode_lines(lines.push(l)) == encode_lines(lines) + l + seq!['\n'],
{
    assert(lines.push(l).drop_last() =~= lines);
}

proof fn lemma_encode_first(lines: Seq<Seq<char>>)
    requires
        lines.len() > 0,
    ensures
        encode_lines(lines) == lines[0] + seq!['\n'] + encode_lines(lines.drop_first()),
    decreases lines.len(),
{
    if lines.len() == 1 {
        assert(lines.drop_last() =~= Seq::<Seq<char>>::empty());
        assert(lines.drop_first() =~= Seq::<Seq<char>>::empty());
        assert(Seq::<char>::empty() + lines.last() + seq!['\n'] =~= lines[0] + seq!['\n']
            + Seq::<char>::empty());
    } else {
        let init = lines.drop_last();
        lemma_encode_first(init);
        assert(init.drop_first() =~= lines.drop_first().drop_last());
        assert(lines.drop_first().last() == lines.last());
        assert(encode_lines(lines.drop_first()) == encode_lines(init.drop_first())
            + lines.last() + seq!['\n']);
        assert(encode_lines(lines) =~= lines[0] + seq!['\n'] + encode_lines(lines.drop_first()));
    }
}

/// A line that framing gives back unchanged: no line feed inside, not blank, and no
/// carriage return at its end.
pub open spec fn plain_line(line: Seq<char>) -> bool {
    &&& !line.contains('\n')
    &&& !blank(line)
    &&& !(line.len() > 0 && line.last() == '\r')
}

proof fn lemma_text_lines_first(line: Seq<char>, rest: Seq<char>)
    requires
        !line.contains('\n'),
    ensures
        text_lines(line + seq!['\n'] + rest) == seq![strip_cr(line)] + text_lines(rest),
{
    let s = line + seq!['\n'] + rest;
    let k = line.len() as int;
    assert forall|j: int| 0 <= j < k implies s[j] != '\n' by {
        assert(s[j] == line[j]);
    }
    lemma_newline_at(s, 0, k, 0);
    assert(s.skip(0) =~= s);
    assert(s.take(k) =~= line);
    assert(s.skip(k + 1) =~= rest);
}

/// Framing and reading back are inverse: lines written as JSON Lines and split again are
/// the same lines, as long as each is a plain line (as every compact JSON text is).
pub proof fn law_framing_round_trip(lines: Seq<Seq<char>>)
    requires
        forall|i: int| 0 <= i < lines.len() ==> plain_line(#[trigger] lines[i]),
    ensures
        content_lines(encode_lines(lines)) == lines,
    decreases lines.len(),
{
    if lines.len() == 0 {
        assert(text_lines(Seq::<char>::empty()) == Seq::<Seq<char>>::empty());
        assert(Seq::<Seq<char>>::empty().filter(|x: Seq<char>| !blank(x)) =~= Seq::<
            Seq<char>,
        >::empty()) by {
            reveal_with_fuel(Seq::filter, 1);
        }
    } else {
        let rest = lines.drop_first();
        assert forall|i: int| 0 <= i < rest.len() implies plain_line(#[trigger] rest[i]) by {
            assert(rest[i] == lines[i + 1]);
        }
        law_framing_round_trip(rest);
        assert(plain_line(lines[0]));
        lemma_encode_first(lines);
        lemma_text_lines_first(lines[0], encode_lines(rest));
        assert(strip_cr(lines[0]) == lines[0]);
        lemma_filter_push(text_lines(encode_lines(rest)), lines[0]);
        assert(seq![lines[0]] + rest =~= lines);
    }
}

/// Why a JSON Lines file could not be framed.
#[derive(Debug, PartialEq, Eq, Structural, Clone, Copy)]
pub enum FrameError {
    /// The file is not UTF-8 text.
    NotUtf8,
}

/// The non-blank lines of a JSON Lines file, in order. Fails exactly when the bytes are
/// not UTF-8.
pub fn split_lines(bytes: &[u8]) -> (r: Result<Vec<String>, FrameError>)
    ensures
        match r {
            Ok(lines) => vstd::utf8::valid_utf8(bytes@) && exists|s: Seq<char>|
                vstd::utf8::encode_utf8(s) == bytes@ && lines@.map_values(|l: String| l@)
                    == content_lines(s),
            Err(_) => !vstd::utf8::valid_utf8(bytes@),
        },
{
    let text = match core::str::from_utf8(bytes) {
        Ok(t) => t,
        Err(_) => {
            return Err(FrameError::NotUtf8);
        },
    };
    proof {
        vstd::utf8::encode_utf8_valid_utf8(text@);
    }
    let s = chars_of(text);
    let lines = split_chars(&s);
    Ok(lines)
}

/// The non-blank lines of a text, in order (see [`content_lines`]).
pub fn split_chars(s: &Vec<char>) -> (lines: Vec<String>)
    ensures
        lines@.map_values(|l: String| l@) == content_lines(s@),
{
    let n = s.len();
    let mut out: Vec<String> = Vec::new();
    let mut cur: Vec<char> = Vec::new();
    let mut start: usize = 0;
    let mut i: usize = 0;
    proof {
        assert(s@.skip(0) =~= s@);
        assert(out@.map_values(|l: String| l@) + content_lines(s@) =~= content_lines(s@));
    }
    while i < n
        invariant
            n == s@.len(),
            start <= i <= n,
            cur@ == s@.subrange(start as int, i as int),
            forall|k: int| start <= k < i ==> s@[k] != '\n',
            out@.map_values(|l: String| l@) + content_lines(s@.skip(start as int)) == content_lines(
                s@,
            ),
        decreases n - i,
    {
        let c = s[i];
        if c == '\n' {
            let ghost rest = s@.skip(start as int);
            proof {
                lemma_newline_at(s@, start as int, i as int, start as int);
                assert(newline_from(rest, 0) == i - start);
                assert(rest.take(i - start) =~= cur@);
                assert(rest.skip(i - start + 1) =~= s@.skip(i + 1));
                assert(text_lines(rest) == seq![strip_cr(cur@)] + text_lines(s@.skip(i + 1)));
                lemma_filter_push(text_lines(s@.skip(i + 1)), strip_cr(cur@));
            }
            let len = cur.len();
            let line_end = if len > 0 && cur[len - 1] == '\r' {
                len - 1
            } else {
                len
            };
            let line = cur.split_at(line_end).0;
            proof {
                assert(line@ =~= strip_cr(cur@));
            }
            if !blank_exec(line) {
                let ls = string_of(line);
                let ghost before = out@.map_values(|l: String| l@);
                out.push(ls);
                proof {
                    assert(out@.map_values(|l: String| l@) =~= before.push(line@));
                    assert(before.push(line@) + content_lines(s@.skip(i + 1)) =~= before + (seq![
                        line@,
                    ] + content_lines(s@.skip(i + 1))));
                }
            }
            cur = Vec::new();
            start = i + 1;
        } else {
            cur.push(c);
            proof {
                assert(cur@ =~= s@.subrange(start as int, i + 1));
            }
        }
        i += 1;
    }
    if cur.len() > 0 {
        let ghost rest = s@.skip(start as int);
        proof {
            lemma_newline_at(s@, start as int, n as int, start as int);
            assert(rest =~= cur@);
            assert(text_lines(rest) == seq![cur@]);
            assert(s@.skip(n as int) =~= Seq::<char>::empty());
            assert(text_lines(s@.skip(n as int)) == Seq::<Seq<char>>::empty());
            lemma_filter_push(Seq::<Seq<char>>::empty(), cur@);
            assert(seq![cur@] + Seq::<Seq<char>>::empty() =~= seq![cur@]);
        }
        if !blank_exec(&cur) {
            let ls = string_of(&cur);
            let ghost before = out@.map_values(|l: String| l@);
            out.push(ls);
            proof {
                assert(out@.map_values(|l: String| l@) =~= before.push(cur@));
                assert(Seq::<Seq<char>>::empty().filter(|x: Seq<char>| !blank(x)) =~= Seq::<
                    Seq<char>,
                >::empty()) by {
                    reveal_with_fuel(Seq::filter, 1);
                }
            }
        } else {
            proof {
                assert(Seq::<Seq<char>>::empty().filter(|x: Seq<char>| !blank(x)) =~= Seq::<
                    Seq<char>,
                >::empty()) by {
                    reveal_with_fuel(Seq::filter, 1);
                }
            }
        }
    } else {
        proof {
            assert(s@.skip(start as int) =~= Seq::<char>::empty());
            assert(text_lines(s@.skip(start as int)) == Seq::<Seq<char>>::empty());
            assert(Seq::<Seq<char>>::empty().filter(|x: Seq<char>| !blank(x)) =~= Seq::<
                Seq<char>,
            >::empty()) by {
                reveal_with_fuel(Seq::filter, 1);
            }
        }
    }
    proof {
        assert(out@.map_values(|l: String| l@) + Seq::<Seq<char>>::empty() =~= out@.map_values(
            |l: String| l@,
        ));
    }
    out
}

} // verus!
