//! Parse-failure diagnostics: turning a reported offset into a line
//! and column with the offending line's text, by walking the file's
//! line boundaries until the offset is found.
use vstd::prelude::*;
use crate::text::push_char;

verus! {

/// The decimal digit character for `d` (0 to 9).
pub open spec fn digit_char(d: int) -> char {
    ((48 + d) as u32) as char
}

/// The decimal spelling of a number, most significant digit first.
pub open spec fn dec_rep(n: nat) -> Seq<char>
    decreases n,
{
    if n < 10 {
        seq![digit_char(n as int)]
    } else {
        dec_rep(n / 10) + seq![digit_char((n % 10) as int)]
    }
}

/// Appends the decimal spelling of `n`.
pub fn push_dec(s: &mut String, n: usize)
    ensures
        final(s)@ == old(s)@ + dec_rep(n as nat),
    decreases n,
{
    if n >= 10 {
        push_dec(s, n / 10);
    }
    push_char(s, ((48 + (n % 10)) as u8) as char);
    assert(final(s)@ =~= old(s)@ + dec_rep(n as nat));
}

/// The number of bytes a character occupies in UTF-8, by its code
/// point: one below 0x80, two below 0x800, three below 0x10000, else
/// four.
pub open spec fn char_utf8_len(c: char) -> int {
    if (c as u32) < 0x80 {
        1
    } else if (c as u32) < 0x800 {
        2
    } else if (c as u32) < 0x10000 {
        3
    } else {
        4
    }
}

/// The UTF-8 byte length of a text.
pub open spec fn seq_utf8_len(s: Seq<char>) -> int
    decreases s.len(),
{
    if s.len() == 0 {
        0
    } else {
        char_utf8_len(s[0]) + seq_utf8_len(s.drop_first())
    }
}

/// Byte lengths are nonnegative and add over a split.
pub proof fn lemma_utf8_split(s: Seq<char>, i: int)
    requires
        0 <= i <= s.len(),
    ensures
        seq_utf8_len(s) == seq_utf8_len(s.take(i)) + seq_utf8_len(s.skip(i)),
        seq_utf8_len(s.take(i)) >= 0,
        seq_utf8_len(s.skip(i)) >= 0,
    decreases i,
{
    lemma_utf8_nonneg(s.take(i));
    lemma_utf8_nonneg(s.skip(i));
    if i == 0 {
        assert(s.take(0) =~= Seq::<char>::empty());
        assert(s.skip(0) =~= s);
    } else {
        lemma_utf8_split(s.drop_first(), i - 1);
        assert(s.take(i).drop_first() =~= s.drop_first().take(i - 1));
        assert(s.skip(i) =~= s.drop_first().skip(i - 1));
        assert(s.take(i)[0] == s[0]);
    }
}

pub proof fn lemma_utf8_nonneg(s: Seq<char>)
    ensures
        seq_utf8_len(s) >= 0,
    decreases s.len(),
{
    if s.len() > 0 {
        lemma_utf8_nonneg(s.drop_first());
    }
}

/// Appending one character adds its width.
pub proof fn lemma_utf8_push(s: Seq<char>, c: char)
    ensures
        seq_utf8_len(s.push(c)) == seq_utf8_len(s) + char_utf8_len(c),
    decreases s.len(),
{
    if s.len() == 0 {
        assert(s.push(c).drop_first() =~= Seq::<char>::empty());
        assert(s.push(c)[0] == c);
        assert(seq_utf8_len(s.push(c)) == char_utf8_len(c) + seq_utf8_len(
            s.push(c).drop_first(),
        ));
        assert(seq_utf8_len(Seq::<char>::empty()) == 0);
        assert(seq_utf8_len(s) == 0);
    } else {
        lemma_utf8_push(s.drop_first(), c);
        assert(s.push(c).drop_first() =~= s.drop_first().push(c));
        assert(s.push(c)[0] == s[0]);
        assert(seq_utf8_len(s.push(c)) == char_utf8_len(s[0]) + seq_utf8_len(
            s.push(c).drop_first(),
        ));
        assert(seq_utf8_len(s) == char_utf8_len(s[0]) + seq_utf8_len(s.drop_first()));
    }
}

/// The UTF-8 width of one character.
fn char_len(c: char) -> (r: usize)
    ensures
        r as int == char_utf8_len(c),
{
    let u = c as u32;
    if u < 0x80 {
        1
    } else if u < 0x800 {
        2
    } else if u < 0x10000 {
        3
    } else {
        4
    }
}

/// Relies on str::len: the byte length of the text, which is the sum
/// of its characters' UTF-8 widths.
#[verifier::external_body]
fn byte_len(s: &str) -> (r: usize)
    ensures
        r as int == seq_utf8_len(s@),
{
    s.len()
}

/// Mapping a pushed line pushes its view.
pub proof fn lemma_line_views_push(s: Seq<(String, usize)>, x: (String, usize))
    ensures
        line_views(s.push(x)) == line_views(s).push((x.0@, x.1 as int)),
{
    assert forall|k: int| 0 <= k < s.push(x).len() implies line_views(s.push(x))[k]
        == line_views(s).push((x.0@, x.1 as int))[k] by {
        if k < s.len() {
            assert(s.push(x)[k] == s[k]);
            assert(line_views(s)[k] == (s[k].0@, s[k].1 as int));
        }
    }
    assert(line_views(s.push(x)).len() == s.len() + 1);
    assert(line_views(s.push(x)) =~~= line_views(s).push((x.0@, x.1 as int)));
}

/// A line as the splitter reports it: a trailing carriage return is
/// not part of it.
pub open spec fn strip_cr(l: Seq<char>) -> Seq<char> {
    if l.len() > 0 && l.last() == '\r' {
        l.drop_last()
    } else {
        l
    }
}

/// Splits text into lines at each newline, dropping the newline itself
/// and a carriage return before it; text after the last newline is a
/// final line only when it is not empty. Beside each line stands the
/// number of bytes it consumed from the raw text, the newline byte
/// included, so that a reported byte offset can be walked to its line.
pub open spec fn scan_lines(rest: Seq<char>, cur: Seq<char>) -> Seq<(Seq<char>, int)>
    decreases rest.len(),
{
    if rest.len() == 0 {
        if cur.len() == 0 {
            Seq::empty()
        } else {
            seq![(strip_cr(cur), seq_utf8_len(cur))]
        }
    } else if rest[0] == '\n' {
        seq![(strip_cr(cur), seq_utf8_len(cur) + 1)] + scan_lines(rest.drop_first(), Seq::empty())
    } else {
        scan_lines(rest.drop_first(), cur.push(rest[0]))
    }
}

/// The lines of a text, each with its consumed span.
pub open spec fn lines_of(s: Seq<char>) -> Seq<(Seq<char>, int)> {
    scan_lines(s, Seq::empty())
}

/// The view of the split lines: text and consumed span of each.
pub open spec fn line_views(v: Seq<(String, usize)>) -> Seq<(Seq<char>, int)> {
    v.map_values(|p: (String, usize)| (p.0@, p.1 as int))
}

/// Materializes the gathered characters of one line.
fn chars_to_string(v: &Vec<char>) -> (r: String)
    ensures
        r@ == v@,
{
    let mut out = String::new();
    let mut i: usize = 0;
    while i < v.len()
        invariant
            i <= v@.len(),
            out@ == v@.take(i as int),
        decreases v@.len() - i,
    {
        push_char(&mut out, v[i]);
        proof {
            assert(out@ =~= v@.take(i + 1));
        }
        i = i + 1;
    }
    proof {
        assert(v@.take(v@.len() as int) =~= v@);
    }
    out
}

/// Strips one trailing carriage return and materializes the line.
fn finish_line(cur: Vec<char>) -> (r: String)
    ensures
        r@ == strip_cr(cur@),
{
    let ghost orig = cur@;
    let mut finished = cur;
    if finished.len() > 0 && finished[finished.len() - 1] == '\r' {
        finished.pop();
        proof {
            assert(finished@ =~= orig.drop_last());
        }
    }
    chars_to_string(&finished)
}

/// Splits a catalog's raw text into its lines, each with the count of
/// raw bytes it consumed.
pub fn split_lines(content: &str) -> (r: Vec<(String, usize)>)
    ensures
        line_views(r@) == lines_of(content@),
{
    let n: usize = content.unicode_len();
    let total = byte_len(content);
    let mut out: Vec<(String, usize)> = Vec::new();
    let mut cur: Vec<char> = Vec::new();
    let mut cur_bytes: usize = 0;
    let mut done_bytes: usize = 0;
    let mut i: usize = 0;
    proof {
        assert(content@.skip(0) =~= content@);
        assert(content@.take(0) =~= Seq::<char>::empty());
        assert(line_views(out@) + scan_lines(content@, cur@) =~= lines_of(content@));
    }
    while i < n
        invariant
            i <= n,
            n == content@.len(),
            total as int == seq_utf8_len(content@),
            done_bytes as int == seq_utf8_len(content@.take(i as int)),
            cur_bytes as int == seq_utf8_len(cur@),
            cur_bytes <= done_bytes,
            line_views(out@) + scan_lines(content@.skip(i as int), cur@) == lines_of(content@),
        decreases n - i,
    {
        let ghost rest = content@.skip(i as int);
        let ghost cur_pre = cur@;
        let ghost out_pre = out@;
        proof {
            assert(rest[0] == content@[i as int]);
            assert(rest.drop_first() =~= content@.skip(i as int + 1));
            // the next character's width still fits under the total
            lemma_utf8_split(content@, i as int + 1);
            assert(content@.take(i + 1) =~= content@.take(i as int).push(content@[i as int]));
            lemma_utf8_push(content@.take(i as int), content@[i as int]);
        }
        let c = content.get_char(i);
        let w = char_len(c);
        done_bytes = done_bytes + w;
        if c == '\n' {
            let consumed = cur_bytes + 1;
            let line = finish_line(cur);
            out.push((line, consumed));
            cur = Vec::new();
            cur_bytes = 0;
            proof {
                lemma_line_views_push(out_pre, out@.last());
                assert(line_views(out@) =~= line_views(out_pre).push(
                    (strip_cr(cur_pre), seq_utf8_len(cur_pre) + 1),
                ));
                assert(scan_lines(rest, cur_pre) == seq![(strip_cr(cur_pre), seq_utf8_len(cur_pre)
                    + 1)] + scan_lines(rest.drop_first(), Seq::<char>::empty()));
                assert(line_views(out@) + scan_lines(
                    content@.skip(i as int + 1),
                    cur@,
                ) =~= lines_of(content@));
            }
        } else {
            cur.push(c);
            cur_bytes = cur_bytes + w;
            proof {
                lemma_utf8_push(cur_pre, content@[i as int]);
                assert(scan_lines(rest, cur_pre) == scan_lines(rest.drop_first(), cur@));
            }
        }
        i = i + 1;
    }
    proof {
        assert(content@.skip(n as int) =~= Seq::<char>::empty());
    }
    if cur.len() > 0 {
        let ghost out_pre = out@;
        let ghost cur_pre = cur@;
        let consumed = cur_bytes;
        let line = finish_line(cur);
        out.push((line, consumed));
        proof {
            lemma_line_views_push(out_pre, out@.last());
            assert(scan_lines(Seq::<char>::empty(), cur_pre) == seq![(
                strip_cr(cur_pre),
                seq_utf8_len(cur_pre),
            )]);
            assert(line_views(out@) =~= lines_of(content@));
        }
    } else {
        proof {
            assert(scan_lines(Seq::<char>::empty(), cur@) =~= Seq::<(Seq<char>, int)>::empty());
            assert(line_views(out@) =~= lines_of(content@));
        }
    }
    out
}

/// The walk over the lines: accumulate each line's consumed span, the
/// newline included, until the line whose span covers the target
/// offset; the result is the one-based line number, the offset within
/// that line, and the line's text. Past the end of the file the count
/// and the last line stand.
pub open spec fn locate(
    lines: Seq<(Seq<char>, int)>,
    target: int,
    pos0: int,
    count0: int,
    cur: Seq<char>,
) -> (int, int, Seq<char>)
    decreases lines.len(),
{
    if lines.len() == 0 {
        (count0, target - pos0, cur)
    } else if pos0 + lines[0].1 > target {
        (count0 + 1, target - pos0, lines[0].0)
    } else {
        locate(lines.drop_first(), target, pos0 + lines[0].1, count0 + 1, lines[0].0)
    }
}

fn locate_exec(
    lines: &Vec<(String, usize)>,
    idx: usize,
    target: usize,
    pos: usize,
    count: usize,
    cur: String,
) -> (r: (usize, usize, String))
    requires
        idx <= lines@.len(),
        pos <= target,
        count + lines@.len() - idx <= usize::MAX,
    ensures
        (r.0 as int, r.1 as int, r.2@) == locate(
            line_views(lines@).skip(idx as int),
            target as int,
            pos as int,
            count as int,
            cur@,
        ),
    decreases lines@.len() - idx,
{
    let ghost rest = line_views(lines@).skip(idx as int);
    if idx == lines.len() {
        proof {
            assert(rest =~= Seq::<(Seq<char>, int)>::empty());
        }
        (count, target - pos, cur)
    } else {
        proof {
            assert(rest[0] == line_views(lines@)[idx as int]);
            assert(rest[0] == (lines@[idx as int].0@, lines@[idx as int].1 as int));
            assert(rest.drop_first() =~= line_views(lines@).skip(idx as int + 1));
        }
        let span = lines[idx].1;
        if span > target - pos {
            (count + 1, target - pos, lines[idx].0.clone())
        } else {
            locate_exec(lines, idx + 1, target, pos + span, count + 1, lines[idx].0.clone())
        }
    }
}

/// The full diagnostic line for one parse failure: the error kind, the
/// one-based line and the column of the reported offset, and the text
/// of that line.
pub open spec fn pretty_error(content: Seq<char>, kind: Seq<char>, target: int) -> Seq<char> {
    let found = locate(lines_of(content), target, 0, 0, Seq::empty());
    kind + " at "@ + dec_rep(found.0 as nat) + ":"@ + dec_rep(found.1 as nat) + "\n    "@
        + found.2
}

/// Renders a parse failure at byte-offset `start` of `content` as a
/// human-readable message with line and column context.
pub fn prettify_parse_error(content: &str, kind: &str, start: usize) -> (r: String)
    ensures
        r@ == pretty_error(content@, kind@, start as int),
{
    let lines = split_lines(content);
    let line_count = lines.len();
    proof {
        assert(line_views(lines@).skip(0) =~= line_views(lines@));
    }
    let located = locate_exec(&lines, 0, start, 0, 0, String::new());
    let mut out = String::new();
    out.append(kind);
    out.append(" at ");
    push_dec(&mut out, located.0);
    out.append(":");
    push_dec(&mut out, located.1);
    out.append("\n    ");
    out.append(located.2.as_str());
    proof {
        assert(out@ =~= pretty_error(content@, kind@, start as int));
    }
    out
}

} // verus!
