//! The textual form of manifests: YAML emitters write every sequence in
//! block style, and manifest positions are rewritten to flow style
//! (`position: [x, y]`) to keep human-edited YAML compact.

use vstd::prelude::*;

use crate::text::{chars_of, is_whitespace, is_whitespace_char, push_char};

verus! {

/// How many characters precede the first line feed of `s` (all of them if
/// there is none).
pub open spec fn line_end(s: Seq<char>) -> nat
    decreases s.len(),
{
    if s.len() == 0 {
        0
    } else if s[0] == '\n' {
        0
    } else {
        1 + line_end(s.drop_first())
    }
}

pub proof fn lemma_line_end_bound(s: Seq<char>)
    ensures
        line_end(s) <= s.len(),
        line_end(s) < s.len() ==> s[line_end(s) as int] == '\n',
        forall|j: int| 0 <= j < line_end(s) ==> s[j] != '\n',
    decreases s.len(),
{
    if s.len() > 0 && s[0] != '\n' {
        lemma_line_end_bound(s.drop_first());
        assert forall|j: int| 0 <= j < line_end(s) implies s[j] != '\n' by {
            if j > 0 {
                assert(s[j] == s.drop_first()[j - 1]);
            }
        }
    }
}

/// A line without its line terminator: one carriage return before the line
/// feed belongs to it.
pub open spec fn strip_cr(t: Seq<char>) -> Seq<char> {
    if t.len() > 0 && t.last() == '\r' { t.drop_last() } else { t }
}

/// The lines of `s`, as `str::lines` yields them: split at each line feed,
/// a final line ending being optional, and a `\r` before a line feed taken
/// as part of the line ending.
pub open spec fn split_lines(s: Seq<char>) -> Seq<Seq<char>>
    decreases s.len(),
{
    if s.len() == 0 {
        Seq::empty()
    } else {
        proof {
            lemma_line_end_bound(s);
        }
        let k = line_end(s);
        if k == s.len() {
            seq![s]
        } else {
            seq![strip_cr(s.take(k as int))] + split_lines(s.skip((k + 1) as int))
        }
    }
}

/// How many whitespace characters open `t`.
pub open spec fn leading_ws(t: Seq<char>) -> nat
    decreases t.len(),
{
    if t.len() > 0 && is_whitespace(t[0]) {
        1 + leading_ws(t.drop_first())
    } else {
        0
    }
}

/// How many whitespace characters close `t`.
pub open spec fn trailing_ws(t: Seq<char>) -> nat
    decreases t.len(),
{
    if t.len() > 0 && is_whitespace(t.last()) {
        1 + trailing_ws(t.drop_last())
    } else {
        0
    }
}

pub proof fn lemma_ws_bounds(t: Seq<char>)
    ensures
        leading_ws(t) <= t.len(),
        trailing_ws(t) <= t.len(),
    decreases t.len(),
{
    if t.len() > 0 {
        lemma_ws_bounds(t.drop_first());
        lemma_ws_bounds(t.drop_last());
    }
}

/// `str::trim_start`.
pub open spec fn trim_start(t: Seq<char>) -> Seq<char> {
    t.skip(leading_ws(t) as int)
}

/// `str::trim`.
pub open spec fn trim(t: Seq<char>) -> Seq<char> {
    let u = trim_start(t);
    u.take(u.len() - trailing_ws(u))
}

/// A line `position:` on its own, whatever its indentation.
pub open spec fn is_position_key(l: Seq<char>) -> bool {
    trim(l) == "position:"@
}

/// A block sequence item `- value`.
pub open spec fn is_item(l: Seq<char>) -> bool {
    "- "@.is_prefix_of(trim(l))
}

/// The value of a block sequence item.
pub open spec fn item_value(l: Seq<char>) -> Seq<char> {
    trim(l).skip("- "@.len() as int)
}

/// Rewrite each `position:` key followed by two block items as one flow
/// sequence, keeping the key's indentation; every other line is kept. Every
/// output line ends with a line feed.
pub open spec fn inline_lines(ls: Seq<Seq<char>>) -> Seq<char>
    decreases ls.len(),
{
    if ls.len() == 0 {
        Seq::empty()
    } else if ls.len() >= 3 && is_position_key(ls[0]) && is_item(ls[1]) && is_item(ls[2]) {
        ls[0].take(leading_ws(ls[0]) as int) + "position: ["@ + item_value(ls[1]) + ", "@ + item_value(ls[2])
            + "]\n"@ + inline_lines(ls.skip(3))
    } else {
        ls[0] + "\n"@ + inline_lines(ls.skip(1))
    }
}

/// The YAML text `yaml` with its block-style positions in flow style.
pub open spec fn inline_yaml_positions_spec(yaml: Seq<char>) -> Seq<char> {
    inline_lines(split_lines(yaml))
}

proof fn lemma_line_end_concat(buf: Seq<char>, rest: Seq<char>)
    requires
        forall|j: int| 0 <= j < buf.len() ==> buf[j] != '\n',
    ensures
        line_end(buf + rest) == buf.len() + line_end(rest),
    decreases buf.len(),
{
    if buf.len() > 0 {
        assert((buf + rest).drop_first() =~= buf.drop_first() + rest);
        lemma_line_end_concat(buf.drop_first(), rest);
    } else {
        assert(buf + rest =~= rest);
    }
}

pub open spec fn char_lines(v: Seq<Vec<char>>) -> Seq<Seq<char>> {
    v.map_values(|l: Vec<char>| l@)
}

/// The lines of `s` (`str::lines`).
fn lines_of(s: &str) -> (res: Vec<Vec<char>>)
    ensures
        char_lines(res@) == split_lines(s@),
{
    let cs = chars_of(s);
    let mut done: Vec<Vec<char>> = Vec::new();
    let mut buf: Vec<char> = Vec::new();
    let mut i: usize = 0;
    proof {
        assert(char_lines(done@) =~= Seq::<Seq<char>>::empty());
        assert(buf@ + cs@.skip(0) =~= cs@);
    }
    while i < cs.len()
        invariant
            cs@ == s@,
            i <= cs.len(),
            forall|j: int| 0 <= j < buf@.len() ==> buf@[j] != '\n',
            split_lines(s@) == char_lines(done@) + split_lines(buf@ + cs@.skip(i as int)),
        decreases cs.len() - i,
    {
        let c = cs[i];
        let ghost rest = cs@.skip(i + 1);
        proof {
            assert(cs@.skip(i as int) =~= seq![c] + rest);
        }
        if c == '\n' {
            proof {
                let t = buf@ + cs@.skip(i as int);
                lemma_line_end_concat(buf@, cs@.skip(i as int));
                assert(line_end(t) == buf@.len());
                assert(t.take(buf@.len() as int) =~= buf@);
                assert(t.skip((buf@.len() + 1) as int) =~= rest);
                assert(Seq::<char>::empty() + rest =~= rest);
            }
            let ghost whole = buf@;
            let mut line = buf;
            if line.len() > 0 && line[line.len() - 1] == '\r' {
                line.pop();
            }
            proof {
                assert(line@ =~= strip_cr(whole));
            }
            let ghost before = done@;
            done.push(line);
            buf = Vec::new();
            proof {
                assert(char_lines(done@) =~= char_lines(before).push(strip_cr(whole)));
                assert(seq![strip_cr(whole)] + split_lines(rest) =~= seq![strip_cr(whole)] + split_lines(buf@ + rest));
            }
        } else {
            let ghost old_buf = buf@;
            buf.push(c);
            proof {
                assert(old_buf + cs@.skip(i as int) =~= buf@ + rest);
            }
        }
        i = i + 1;
    }
    proof {
        assert(buf@ + cs@.skip(i as int) =~= buf@);
        if buf@.len() > 0 {
            lemma_line_end_concat(buf@, Seq::<char>::empty());
            assert(buf@ + Seq::<char>::empty() =~= buf@);
        }
    }
    if buf.len() > 0 {
        let ghost before = done@;
        done.push(buf);
        proof {
            assert(char_lines(done@) =~= char_lines(before).push(done@.last()@));
        }
    } else {
        proof {
            assert(char_lines(done@) + Seq::<Seq<char>>::empty() =~= char_lines(done@));
        }
    }
    done
}

} // verus!

verus! {

/// The characters of `v` from `from` up to `to`.
fn slice_chars(v: &Vec<char>, from: usize, to: usize) -> (res: Vec<char>)
    requires
        from <= to <= v@.len(),
    ensures
        res@ == v@.subrange(from as int, to as int),
{
    let mut res: Vec<char> = Vec::new();
    let mut i = from;
    while i < to
        invariant
            from <= i <= to,
            to <= v@.len(),
            res@ == v@.subrange(from as int, i as int),
        decreases to - i,
    {
        res.push(v[i]);
        proof {
            assert(res@ =~= v@.subrange(from as int, i + 1));
        }
        i = i + 1;
    }
    res
}

fn leading_ws_count(v: &Vec<char>) -> (res: usize)
    ensures
        res == leading_ws(v@),
{
    let mut i: usize = 0;
    proof {
        assert(v@.skip(0) =~= v@);
    }
    while i < v.len() && is_whitespace_char(v[i])
        invariant
            i <= v@.len(),
            leading_ws(v@) == i + leading_ws(v@.skip(i as int)),
        decreases v@.len() - i,
    {
        proof {
            assert(v@.skip(i as int)[0] == v@[i as int]);
            assert(v@.skip(i as int).drop_first() =~= v@.skip(i + 1));
        }
        i = i + 1;
    }
    proof {
        if i < v@.len() {
            assert(v@.skip(i as int)[0] == v@[i as int]);
        }
    }
    i
}

fn trailing_ws_count(v: &Vec<char>) -> (res: usize)
    ensures
        res == trailing_ws(v@),
        res <= v@.len(),
{
    let mut k: usize = 0;
    proof {
        assert(v@.take(v@.len() as int) =~= v@);
    }
    while k < v.len() && is_whitespace_char(v[v.len() - 1 - k])
        invariant
            k <= v@.len(),
            trailing_ws(v@) == k + trailing_ws(v@.take(v@.len() - k)),
        decreases v@.len() - k,
    {
        proof {
            let t = v@.take(v@.len() - k);
            assert(t.last() == v@[v@.len() - 1 - k]);
            assert(t.drop_last() =~= v@.take(v@.len() - (k + 1)));
        }
        k = k + 1;
    }
    proof {
        if k < v@.len() {
            assert(v@.take(v@.len() - k).last() == v@[v@.len() - 1 - k]);
        }
    }
    k
}

/// `t.trim()`.
fn trim_chars(v: &Vec<char>) -> (res: Vec<char>)
    ensures
        res@ == trim(v@),
{
    let lead = leading_ws_count(v);
    proof {
        lemma_ws_bounds(v@);
    }
    let u = slice_chars(v, lead, v.len());
    proof {
        assert(u@ =~= trim_start(v@));
    }
    let trail = trailing_ws_count(&u);
    let res = slice_chars(&u, 0, u.len() - trail);
    proof {
        assert(res@ =~= trim(v@));
    }
    res
}

/// Whether `a` and `b` hold the same characters.
fn same_chars(a: &Vec<char>, b: &Vec<char>) -> (res: bool)
    ensures
        res == (a@ == b@),
{
    if a.len() != b.len() {
        return false;
    }
    let mut i: usize = 0;
    while i < a.len()
        invariant
            a@.len() == b@.len(),
            i <= a@.len(),
            forall|j: int| 0 <= j < i ==> a@[j] == b@[j],
        decreases a@.len() - i,
    {
        if a[i] != b[i] {
            return false;
        }
        i = i + 1;
    }
    proof {
        assert(a@ =~= b@);
    }
    true
}

/// Whether `a` opens with `p`.
fn starts_with_chars(a: &Vec<char>, p: &Vec<char>) -> (res: bool)
    ensures
        res == p@.is_prefix_of(a@),
{
    if p.len() > a.len() {
        return false;
    }
    let head = slice_chars(a, 0, p.len());
    same_chars(&head, p)
}

/// Append the characters of `v` from `from` on.
fn push_chars_from(out: &mut String, v: &Vec<char>, from: usize)
    requires
        from <= v@.len(),
    ensures
        final(out)@ == old(out)@ + v@.skip(from as int),
{
    let ghost start = out@;
    let mut i = from;
    while i < v.len()
        invariant
            from <= i <= v@.len(),
            out@ == start + v@.subrange(from as int, i as int),
        decreases v@.len() - i,
    {
        push_char(out, v[i]);
        proof {
            assert(start + v@.subrange(from as int, i + 1) =~= start + v@.subrange(from as int, i as int) + seq![v@[i as int]]);
        }
        i = i + 1;
    }
    proof {
        assert(v@.subrange(from as int, v@.len() as int) =~= v@.skip(from as int));
    }
}

/// `serde_yaml` emits all sequences in block style. Manifest positions use
/// flow style to keep human-edited YAML compact: every `position:` key
/// followed by two block items becomes `position: [x, y]`.
pub fn inline_yaml_positions(yaml: String) -> (res: String)
    ensures
        res@ == inline_yaml_positions_spec(yaml@),
{
    let lines = lines_of(yaml.as_str());
    let ghost ls = char_lines(lines@);
    let key = chars_of("position:");
    let dash = chars_of("- ");
    let mut output = String::new();
    let mut index: usize = 0;
    proof {
        assert(ls.skip(0) =~= ls);
    }
    while index < lines.len()
        invariant
            index <= lines@.len(),
            ls == char_lines(lines@),
            key@ == "position:"@,
            dash@ == "- "@,
            output@ + inline_lines(ls.skip(index as int)) == inline_lines(ls),
        decreases lines@.len() - index,
    {
        let ghost rest = ls.skip(index as int);
        proof {
            assert(rest[0] == lines@[index as int]@);
        }
        let line = &lines[index];
        let mut block = false;
        if lines.len() - index > 2 && same_chars(&trim_chars(line), &key) {
            let x = trim_chars(&lines[index + 1]);
            let y = trim_chars(&lines[index + 2]);
            if starts_with_chars(&x, &dash) && starts_with_chars(&y, &dash) {
                proof {
                    assert(rest[1] == lines@[index + 1]@);
                    assert(rest[2] == lines@[index + 2]@);
                    assert(rest.skip(3) =~= ls.skip(index + 3));
                }
                let ghost before = output@;
                proof {
                    reveal_strlit("- ");
                }
                let lead = leading_ws_count(line);
                proof {
                    lemma_ws_bounds(line@);
                }
                let indentation = slice_chars(line, 0, lead);
                push_chars_from(&mut output, &indentation, 0);
                output.append("position: [");
                push_chars_from(&mut output, &x, 2);
                output.append(", ");
                push_chars_from(&mut output, &y, 2);
                output.append("]\n");
                proof {
                    reveal_strlit("- ");
                    assert(indentation@.skip(0) =~= indentation@);
                    assert(output@ =~= before + (rest[0].take(leading_ws(rest[0]) as int) + "position: ["@ + item_value(rest[1]) + ", "@
                        + item_value(rest[2]) + "]\n"@));
                }
                index = index + 3;
                block = true;
            }
        }
        if !block {
            proof {
                assert(rest.skip(1) =~= ls.skip(index + 1));
            }
            let ghost before = output@;
            push_chars_from(&mut output, line, 0);
            output.append("\n");
            proof {
                assert(line@.skip(0) =~= line@);
                assert(output@ =~= before + (rest[0] + "\n"@));
            }
            index = index + 1;
        }
    }
    proof {
        assert(ls.skip(index as int) =~= Seq::<Seq<char>>::empty());
        assert(output@ + Seq::<char>::empty() =~= output@);
    }
    output
}

} // verus!

verus! {

/// Whether lines `ls` open with a `position:` key and two block items.
pub open spec fn collapses(ls: Seq<Seq<char>>) -> bool {
    ls.len() >= 3 && is_position_key(ls[0]) && is_item(ls[1]) && is_item(ls[2])
}

/// The flow-style line that replaces the first three lines of `ls`.
pub open spec fn collapsed_line(ls: Seq<Seq<char>>) -> Seq<char> {
    ls[0].take(leading_ws(ls[0]) as int) + "position: ["@ + item_value(ls[1]) + ", "@ + item_value(ls[2]) + "]"@
}

/// The lines the rewrite writes, each without its line feed.
pub open spec fn rewritten_lines(ls: Seq<Seq<char>>) -> Seq<Seq<char>>
    decreases ls.len(),
{
    if ls.len() == 0 {
        Seq::empty()
    } else if collapses(ls) {
        seq![collapsed_line(ls)] + rewritten_lines(ls.skip(3))
    } else {
        seq![ls[0]] + rewritten_lines(ls.skip(1))
    }
}

/// Lines `xs`, each followed by a line feed.
pub open spec fn join_lines(xs: Seq<Seq<char>>) -> Seq<char>
    decreases xs.len(),
{
    if xs.len() == 0 {
        Seq::empty()
    } else {
        xs[0] + "\n"@ + join_lines(xs.skip(1))
    }
}

/// A line that reads back as it was written: it holds no line feed and does
/// not end with a carriage return.
pub open spec fn reads_back(t: Seq<char>) -> bool {
    &&& forall|j: int| 0 <= j < t.len() ==> t[j] != '\n'
    &&& !(t.len() > 0 && t.last() == '\r')
}

proof fn lemma_inline_is_join(ls: Seq<Seq<char>>)
    ensures
        inline_lines(ls) == join_lines(rewritten_lines(ls)),
    decreases ls.len(),
{
    reveal_strlit("\n");
    reveal_strlit("]");
    reveal_strlit("]\n");
    if ls.len() > 0 {
        let r = rewritten_lines(ls);
        if collapses(ls) {
            lemma_inline_is_join(ls.skip(3));
            assert(r.skip(1) =~= rewritten_lines(ls.skip(3)));
            assert(inline_lines(ls) =~= collapsed_line(ls) + "\n"@ + inline_lines(ls.skip(3)));
        } else {
            lemma_inline_is_join(ls.skip(1));
            assert(r.skip(1) =~= rewritten_lines(ls.skip(1)));
        }
    }
}

proof fn lemma_split_join(xs: Seq<Seq<char>>)
    requires
        forall|i: int| 0 <= i < xs.len() ==> reads_back(#[trigger] xs[i]),
    ensures
        split_lines(join_lines(xs)) == xs,
    decreases xs.len(),
{
    reveal_strlit("\n");
    if xs.len() == 0 {
        assert(split_lines(Seq::<char>::empty()) =~= Seq::<Seq<char>>::empty());
    } else {
        let x = xs[0];
        let rest = join_lines(xs.skip(1));
        let s = join_lines(xs);
        assert(reads_back(x));
        assert(s =~= x + ("\n"@ + rest));
        lemma_line_end_concat(x, "\n"@ + rest);
        assert(line_end("\n"@ + rest) == 0);
        assert(s.take(x.len() as int) =~= x);
        assert(s.skip((x.len() + 1) as int) =~= rest);
        assert forall|i: int| 0 <= i < xs.skip(1).len() implies reads_back(#[trigger] xs.skip(1)[i]) by {
            assert(xs.skip(1)[i] == xs[i + 1]);
        }
        lemma_split_join(xs.skip(1));
        assert(split_lines(s) == seq![strip_cr(x)] + split_lines(rest));
        assert(seq![x] + xs.skip(1) =~= xs);
    }
}

proof fn lemma_split_no_feed(s: Seq<char>)
    ensures
        forall|i: int| 0 <= i < split_lines(s).len() ==> forall|j: int|
            0 <= j < (#[trigger] split_lines(s)[i]).len() ==> split_lines(s)[i][j] != '\n',
    decreases s.len(),
{
    if s.len() > 0 {
        lemma_line_end_bound(s);
        let k = line_end(s);
        if k < s.len() {
            lemma_split_no_feed(s.skip((k + 1) as int));
            let first = strip_cr(s.take(k as int));
            assert forall|i: int| 0 <= i < split_lines(s).len() implies forall|j: int|
                0 <= j < (#[trigger] split_lines(s)[i]).len() ==> split_lines(s)[i][j] != '\n' by {
                if i == 0 {
                    assert(split_lines(s)[0] == first);
                } else {
                    assert(split_lines(s)[i] == split_lines(s.skip((k + 1) as int))[i - 1]);
                }
            }
        }
    }
}

pub open spec fn no_feed(t: Seq<char>) -> bool {
    forall|j: int| 0 <= j < t.len() ==> t[j] != '\n'
}

proof fn lemma_leading_ws_prefix(t: Seq<char>)
    ensures
        leading_ws(t) <= t.len(),
        forall|j: int| 0 <= j < leading_ws(t) ==> is_whitespace(#[trigger] t[j]),
        leading_ws(t) < t.len() ==> !is_whitespace(t[leading_ws(t) as int]),
    decreases t.len(),
{
    if t.len() > 0 && is_whitespace(t[0]) {
        lemma_leading_ws_prefix(t.drop_first());
        assert forall|j: int| 0 <= j < leading_ws(t) implies is_whitespace(#[trigger] t[j]) by {
            if j > 0 {
                assert(t[j] == t.drop_first()[j - 1]);
            }
        }
    }
}

proof fn lemma_leading_ws_concat(a: Seq<char>, b: Seq<char>)
    requires
        forall|j: int| 0 <= j < a.len() ==> is_whitespace(#[trigger] a[j]),
        b.len() > 0,
        !is_whitespace(b[0]),
    ensures
        leading_ws(a + b) == a.len(),
    decreases a.len(),
{
    if a.len() > 0 {
        assert((a + b).drop_first() =~= a.drop_first() + b);
        lemma_leading_ws_concat(a.drop_first(), b);
    } else {
        assert(a + b =~= b);
    }
}

proof fn lemma_trim_within(t: Seq<char>)
    ensures
        no_feed(t) ==> no_feed(trim(t)),
{
    lemma_ws_bounds(t);
    let u = trim_start(t);
    lemma_ws_bounds(u);
    assert forall|j: int| no_feed(t) && 0 <= j < trim(t).len() implies trim(t)[j] != '\n' by {
        assert(trim(t)[j] == u[j]);
        assert(u[j] == t[leading_ws(t) + j]);
    }
}

/// The flow-style line is neither a `position:` key nor a block item, holds
/// no line feed when its lines hold none, and ends with `]`.
proof fn lemma_collapsed_line(ls: Seq<Seq<char>>)
    requires
        collapses(ls),
    ensures
        !is_position_key(collapsed_line(ls)),
        !is_item(collapsed_line(ls)),
        (no_feed(ls[0]) && no_feed(ls[1]) && no_feed(ls[2])) ==> reads_back(collapsed_line(ls)),
{
    reveal_strlit("position: [");
    reveal_strlit(", ");
    reveal_strlit("]");
    reveal_strlit("position:");
    reveal_strlit("- ");
    let indent = ls[0].take(leading_ws(ls[0]) as int);
    let body = "position: ["@ + item_value(ls[1]) + ", "@ + item_value(ls[2]) + "]"@;
    let c = collapsed_line(ls);
    assert(c =~= indent + body);
    lemma_leading_ws_prefix(ls[0]);
    assert forall|j: int| 0 <= j < indent.len() implies is_whitespace(#[trigger] indent[j]) by {
        assert(indent[j] == ls[0][j]);
    }
    assert(body[0] == 'p');
    lemma_leading_ws_concat(indent, body);
    assert(trim_start(c) =~= body);
    assert(body.last() == ']');
    assert(trailing_ws(body) == 0);
    assert(trim(c) =~= body);
    assert(body.len() >= 13);
    assert(trim(c) != "position:"@);
    assert(trim(c)[0] != "- "@[0]);
    lemma_trim_within(ls[1]);
    lemma_trim_within(ls[2]);
    lemma_ws_bounds(ls[1]);
    lemma_ws_bounds(ls[2]);
    if no_feed(ls[0]) && no_feed(ls[1]) && no_feed(ls[2]) {
        assert forall|j: int| 0 <= j < c.len() implies c[j] != '\n' by {
            if j < indent.len() {
                assert(c[j] == ls[0][j]);
            } else if j < indent.len() + 11 {
            } else if j < indent.len() + 11 + item_value(ls[1]).len() {
                assert(c[j] == item_value(ls[1])[j - indent.len() - 11]);
                assert(item_value(ls[1])[j - indent.len() - 11] == trim(ls[1])[j - indent.len() - 9]);
            } else if j < indent.len() + 13 + item_value(ls[1]).len() {
            } else if j < c.len() - 1 {
                let k = j - indent.len() - 13 - item_value(ls[1]).len();
                assert(c[j] == item_value(ls[2])[k]);
                assert(item_value(ls[2])[k] == trim(ls[2])[k + 2]);
            }
        }
    }
}

proof fn lemma_rewritten_read_back(ls: Seq<Seq<char>>)
    requires
        forall|i: int| 0 <= i < ls.len() ==> no_feed(#[trigger] ls[i]),
    ensures
        forall|i: int| 0 <= i < rewritten_lines(ls).len() ==> no_feed(#[trigger] rewritten_lines(ls)[i]),
    decreases ls.len(),
{
    if ls.len() > 0 {
        let r = rewritten_lines(ls);
        let k: int = if collapses(ls) { 3 } else { 1 };
        let t = ls.skip(k);
        assert forall|i: int| 0 <= i < t.len() implies no_feed(#[trigger] t[i]) by {
            assert(t[i] == ls[i + k]);
        }
        lemma_rewritten_read_back(t);
        if collapses(ls) {
            assert(no_feed(ls[0]) && no_feed(ls[1]) && no_feed(ls[2]));
            lemma_collapsed_line(ls);
        }
        assert forall|i: int| 0 <= i < r.len() implies no_feed(#[trigger] r[i]) by {
            if i > 0 {
                assert(r[i] == rewritten_lines(t)[i - 1]);
            }
        }
    }
}

proof fn lemma_rewrite_settles(ls: Seq<Seq<char>>)
    ensures
        inline_lines(rewritten_lines(ls)) == inline_lines(ls),
    decreases ls.len(),
{
    reveal_strlit("\n");
    reveal_strlit("]");
    reveal_strlit("]\n");
    if ls.len() > 0 {
        let r = rewritten_lines(ls);
        if collapses(ls) {
            lemma_collapsed_line(ls);
            lemma_rewrite_settles(ls.skip(3));
            assert(!collapses(r));
            assert(r.skip(1) =~= rewritten_lines(ls.skip(3)));
            assert(inline_lines(ls) =~= collapsed_line(ls) + "\n"@ + inline_lines(ls.skip(3)));
        } else {
            lemma_rewrite_settles(ls.skip(1));
            let t = ls.skip(1);
            let r1 = rewritten_lines(t);
            assert(r.skip(1) =~= r1);
            if is_position_key(ls[0]) && r.len() >= 3 {
                if collapses(t) {
                    lemma_collapsed_line(t);
                    assert(r[1] == collapsed_line(t));
                } else {
                    assert(t[0] == ls[1]);
                    assert(r[1] == ls[1]);
                    if is_item(ls[1]) {
                        let t2 = ls.skip(2);
                        assert(t.skip(1) =~= t2);
                        assert(r1 == seq![ls[1]] + rewritten_lines(t2));
                        if t2.len() == 0 {
                            assert(rewritten_lines(t2) =~= Seq::<Seq<char>>::empty());
                        } else if collapses(t2) {
                            lemma_collapsed_line(t2);
                            assert(r[2] == collapsed_line(t2));
                        } else {
                            assert(t2[0] == ls[2]);
                            assert(r[2] == ls[2]);
                        }
                    }
                }
            }
            assert(!collapses(r));
        }
    }
}

/// Lines without a `position:` key are written as they are.
proof fn lemma_rewrite_keeps(ls: Seq<Seq<char>>)
    requires
        forall|i: int| 0 <= i < ls.len() ==> !is_position_key(#[trigger] ls[i]),
    ensures
        rewritten_lines(ls) == ls,
    decreases ls.len(),
{
    if ls.len() > 0 {
        assert(!is_position_key(ls[0]));
        let rest = ls.skip(1);
        assert forall|i: int| 0 <= i < rest.len() implies !is_position_key(#[trigger] rest[i]) by {
            assert(rest[i] == ls[i + 1]);
        }
        lemma_rewrite_keeps(rest);
        assert(seq![ls[0]] + rest =~= ls);
    }
}

/// Text with line-feed line endings and no carriage return, ending with a
/// line feed, is its lines joined again.
proof fn lemma_join_split(s: Seq<char>)
    requires
        forall|j: int| 0 <= j < s.len() ==> s[j] != '\r',
        s.len() == 0 || s.last() == '\n',
    ensures
        join_lines(split_lines(s)) == s,
    decreases s.len(),
{
    reveal_strlit("\n");
    if s.len() == 0 {
        assert(split_lines(s) =~= Seq::<Seq<char>>::empty());
    } else {
        lemma_line_end_bound(s);
        let k = line_end(s) as int;
        assert(k < s.len()) by {
            if k == s.len() {
                assert(s[s.len() - 1] != '\n');
            }
        }
        let first = s.take(k);
        let rest = s.skip(k + 1);
        if first.len() > 0 {
            assert(first.last() == s[k - 1]);
        }
        assert(strip_cr(first) == first);
        assert forall|j: int| 0 <= j < rest.len() implies rest[j] != '\r' by {
            assert(rest[j] == s[k + 1 + j]);
        }
        if rest.len() > 0 {
            assert(rest.last() == s.last());
        }
        lemma_join_split(rest);
        let ls = split_lines(s);
        assert(ls == seq![first] + split_lines(rest));
        assert(ls[0] == first);
        assert(ls.skip(1) =~= split_lines(rest));
        assert(first + "\n"@ + rest =~= s);
    }
}

/// YAML without a `position:` key, with line-feed line endings and a final
/// line feed, comes out of the rewrite unchanged.
pub proof fn lemma_yaml_without_positions_unchanged(yaml: Seq<char>)
    requires
        forall|i: int| 0 <= i < split_lines(yaml).len() ==> !is_position_key(#[trigger] split_lines(yaml)[i]),
        forall|j: int| 0 <= j < yaml.len() ==> yaml[j] != '\r',
        yaml.len() == 0 || yaml.last() == '\n',
    ensures
        inline_yaml_positions_spec(yaml) == yaml,
{
    let ls = split_lines(yaml);
    lemma_inline_is_join(ls);
    lemma_rewrite_keeps(ls);
    lemma_join_split(yaml);
}

/// Rewriting positions a second time changes nothing, for every text whose
/// rewritten lines read back as written (none ends with a carriage return,
/// which a line reader would take as part of the line ending).
pub proof fn lemma_inline_yaml_positions_idempotent(yaml: Seq<char>)
    requires
        forall|i: int| 0 <= i < rewritten_lines(split_lines(yaml)).len() ==> {
            let l = #[trigger] rewritten_lines(split_lines(yaml))[i];
            !(l.len() > 0 && l.last() == '\r')
        },
    ensures
        inline_yaml_positions_spec(inline_yaml_positions_spec(yaml)) == inline_yaml_positions_spec(yaml),
{
    let ls = split_lines(yaml);
    let r = rewritten_lines(ls);
    lemma_inline_is_join(ls);
    lemma_split_no_feed(yaml);
    assert forall|i: int| 0 <= i < ls.len() implies no_feed(#[trigger] ls[i]) by {
        assert(forall|j: int| 0 <= j < ls[i].len() ==> ls[i][j] != '\n');
    }
    lemma_rewritten_read_back(ls);
    assert forall|i: int| 0 <= i < r.len() implies reads_back(#[trigger] r[i]) by {
        assert(no_feed(r[i]));
    }
    lemma_split_join(r);
    lemma_rewrite_settles(ls);
}

} // verus!
