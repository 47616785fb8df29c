//! Character-level text rules shared by manifest processing and SVG output.

use vstd::prelude::*;

verus! {

/// Whether `c` has the Unicode `White_Space` property, which is exactly the
/// set of characters for which `char::is_whitespace` holds.
pub open spec fn is_whitespace(c: char) -> bool {
    let u = c as u32;
    ||| 0x9 <= u <= 0xd
    ||| u == 0x20
    ||| u == 0x85
    ||| u == 0xa0
    ||| u == 0x1680
    ||| 0x2000 <= u <= 0x200a
    ||| u == 0x2028
    ||| u == 0x2029
    ||| u == 0x202f
    ||| u == 0x205f
    ||| u == 0x3000
}

/// A text is blank when trimming its surrounding whitespace leaves nothing.
pub open spec fn is_blank_spec(s: Seq<char>) -> bool {
    forall|i: int| 0 <= i < s.len() ==> is_whitespace(#[trigger] s[i])
}

pub fn is_whitespace_char(c: char) -> (res: bool)
    ensures
        res == is_whitespace(c),
{
    let u = c as u32;
    (0x9 <= u && u <= 0xd) || u == 0x20 || u == 0x85 || u == 0xa0 || u == 0x1680 || (0x2000 <= u
        && u <= 0x200a) || u == 0x2028 || u == 0x2029 || u == 0x202f || u == 0x205f || u == 0x3000
}

/// The characters of `s`, in order.
pub fn chars_of(s: &str) -> (res: Vec<char>)
    ensures
        res@ == s@,
{
    let mut res: Vec<char> = Vec::new();
    for c in it: s.chars()
        invariant
            it.seq() == s@,
            res@ == it.seq().take(it.index() as int),
    {
        res.push(c);
    }
    res
}

/// Whether `s` holds nothing but whitespace (`s.trim().is_empty()`).
pub fn is_blank(s: &str) -> (res: bool)
    ensures
        res == is_blank_spec(s@),
{
    let cs = chars_of(s);
    let mut i: usize = 0;
    while i < cs.len()
        invariant
            cs@ == s@,
            i <= cs.len(),
            forall|j: int| 0 <= j < i ==> is_whitespace(#[trigger] cs@[j]),
        decreases cs.len() - i,
    {
        if !is_whitespace_char(cs[i]) {
            return false;
        }
        i = i + 1;
    }
    true
}

} // verus!

verus! {

/// Append one character (`String::push`).
#[verifier::external_body]
pub(crate) fn push_char(s: &mut String, c: char)
    ensures
        final(s)@ == old(s)@.push(c),
{
    s.push(c);
}

/// The markup for one character of XML text or attribute content.
pub open spec fn escape_char(c: char) -> Seq<char> {
    if c == '&' {
        "&amp;"@
    } else if c == '<' {
        "&lt;"@
    } else if c == '>' {
        "&gt;"@
    } else if c == '"' {
        "&quot;"@
    } else if c == '\'' {
        "&apos;"@
    } else {
        seq![c]
    }
}

/// Escape every markup-significant character of `s`.
pub open spec fn xml_escape_spec(s: Seq<char>) -> Seq<char>
    decreases s.len(),
{
    if s.len() == 0 {
        Seq::empty()
    } else {
        xml_escape_spec(s.drop_last()) + escape_char(s.last())
    }
}

/// Escape `&`, `<`, `>`, `"` and `'` so that `value` can stand in XML text
/// or in a double-quoted attribute.
pub fn xml_escape(value: &str) -> (res: String)
    ensures
        res@ == xml_escape_spec(value@),
{
    let cs = chars_of(value);
    let mut out = String::new();
    let mut i: usize = 0;
    while i < cs.len()
        invariant
            cs@ == value@,
            i <= cs.len(),
            out@ == xml_escape_spec(cs@.take(i as int)),
        decreases cs.len() - i,
    {
        let c = cs[i];
        proof {
            assert(cs@.take(i + 1).drop_last() =~= cs@.take(i as int));
        }
        if c == '&' {
            out.append("&amp;");
        } else if c == '<' {
            out.append("&lt;");
        } else if c == '>' {
            out.append("&gt;");
        } else if c == '"' {
            out.append("&quot;");
        } else if c == '\'' {
            out.append("&apos;");
        } else {
            push_char(&mut out, c);
        }
        i = i + 1;
    }
    proof {
        assert(cs@.take(cs.len() as int) =~= cs@);
    }
    out
}

/// Whether `t` begins with `p`.
pub open spec fn starts_with(t: Seq<char>, p: Seq<char>) -> bool {
    p.len() <= t.len() && t.take(p.len() as int) == p
}

/// XML character data read back: each of the five predefined entities
/// stands for its character, and every other character for itself.
pub open spec fn xml_unescape_spec(t: Seq<char>) -> Seq<char>
    decreases t.len(),
{
    if t.len() == 0 {
        Seq::empty()
    } else if starts_with(t, seq!['&', 'a', 'm', 'p', ';']) {
        seq!['&'] + xml_unescape_spec(t.skip(5))
    } else if starts_with(t, seq!['&', 'l', 't', ';']) {
        seq!['<'] + xml_unescape_spec(t.skip(4))
    } else if starts_with(t, seq!['&', 'g', 't', ';']) {
        seq!['>'] + xml_unescape_spec(t.skip(4))
    } else if starts_with(t, seq!['&', 'q', 'u', 'o', 't', ';']) {
        seq!['"'] + xml_unescape_spec(t.skip(6))
    } else if starts_with(t, seq!['&', 'a', 'p', 'o', 's', ';']) {
        seq!['\''] + xml_unescape_spec(t.skip(6))
    } else {
        seq![t[0]] + xml_unescape_spec(t.skip(1))
    }
}

/// Escaping text piecewise escapes the whole.
proof fn lemma_escape_concat(a: Seq<char>, b: Seq<char>)
    ensures
        xml_escape_spec(a + b) == xml_escape_spec(a) + xml_escape_spec(b),
    decreases b.len(),
{
    if b.len() == 0 {
        assert(a + b =~= a);
        assert(xml_escape_spec(a) + xml_escape_spec(b) =~= xml_escape_spec(a));
    } else {
        assert((a + b).drop_last() =~= a + b.drop_last());
        assert((a + b).last() == b.last());
        lemma_escape_concat(a, b.drop_last());
        assert(xml_escape_spec(a) + xml_escape_spec(b.drop_last()) + escape_char(b.last())
            =~= xml_escape_spec(a) + (xml_escape_spec(b.drop_last()) + escape_char(b.last())));
    }
}

/// `t` does not begin with `p` where they differ at `i`.
proof fn lemma_differs_at(t: Seq<char>, p: Seq<char>, i: int)
    requires
        0 <= i < p.len(),
        i < t.len(),
        t[i] != p[i],
    ensures
        !starts_with(t, p),
{
    if starts_with(t, p) {
        assert(t.take(p.len() as int)[i] == t[i]);
    }
}

/// Reading back the markup of one character gives that character, and the
/// text after it is read on its own.
proof fn lemma_unescape_char(c: char, rest: Seq<char>)
    ensures
        xml_unescape_spec(escape_char(c) + rest) == seq![c] + xml_unescape_spec(rest),
{
    reveal_strlit("&amp;");
    reveal_strlit("&lt;");
    reveal_strlit("&gt;");
    reveal_strlit("&quot;");
    reveal_strlit("&apos;");
    let amp = seq!['&', 'a', 'm', 'p', ';'];
    let lt = seq!['&', 'l', 't', ';'];
    let gt = seq!['&', 'g', 't', ';'];
    let quot = seq!['&', 'q', 'u', 'o', 't', ';'];
    let apos = seq!['&', 'a', 'p', 'o', 's', ';'];
    let t = escape_char(c) + rest;
    if c == '&' {
        assert(escape_char(c) =~= amp);
        assert(t.take(5) =~= amp);
        assert(t.skip(5) =~= rest);
    } else if c == '<' {
        assert(escape_char(c) =~= lt);
        lemma_differs_at(t, amp, 1);
        assert(t.take(4) =~= lt);
        assert(t.skip(4) =~= rest);
    } else if c == '>' {
        assert(escape_char(c) =~= gt);
        lemma_differs_at(t, amp, 1);
        lemma_differs_at(t, lt, 1);
        assert(t.take(4) =~= gt);
        assert(t.skip(4) =~= rest);
    } else if c == '"' {
        assert(escape_char(c) =~= quot);
        lemma_differs_at(t, amp, 1);
        lemma_differs_at(t, lt, 1);
        lemma_differs_at(t, gt, 1);
        assert(t.take(6) =~= quot);
        assert(t.skip(6) =~= rest);
    } else if c == '\'' {
        assert(escape_char(c) =~= apos);
        lemma_differs_at(t, amp, 2);
        lemma_differs_at(t, lt, 1);
        lemma_differs_at(t, gt, 1);
        lemma_differs_at(t, quot, 1);
        assert(t.take(6) =~= apos);
        assert(t.skip(6) =~= rest);
    } else {
        assert(escape_char(c) =~= seq![c]);
        lemma_differs_at(t, amp, 0);
        lemma_differs_at(t, lt, 0);
        lemma_differs_at(t, gt, 0);
        lemma_differs_at(t, quot, 0);
        lemma_differs_at(t, apos, 0);
        assert(t.skip(1) =~= rest);
    }
}

/// Escaping loses nothing: reading the markup back as XML gives back the
/// text that was escaped.
pub proof fn lemma_unescape_inverts_escape(s: Seq<char>)
    ensures
        xml_unescape_spec(xml_escape_spec(s)) == s,
    decreases s.len(),
{
    if s.len() > 0 {
        let head = seq![s[0]];
        let tail = s.drop_first();
        assert(s =~= head + tail);
        lemma_escape_concat(head, tail);
        assert(head.drop_last() =~= Seq::<char>::empty());
        assert(head.last() == s[0]);
        assert(xml_escape_spec(Seq::<char>::empty()) == Seq::<char>::empty());
        assert(Seq::<char>::empty() + escape_char(s[0]) =~= escape_char(s[0]));
        assert(xml_escape_spec(head) == escape_char(s[0]));
        lemma_unescape_char(s[0], xml_escape_spec(tail));
        lemma_unescape_inverts_escape(tail);
    }
}

/// Escaped text holds none of `<`, `>`, `"` and `'`: it cannot end an
/// attribute value or open an element.
pub proof fn lemma_escape_is_inert(s: Seq<char>)
    ensures
        forall|i: int|
            0 <= i < xml_escape_spec(s).len() ==> {
                let c = #[trigger] xml_escape_spec(s)[i];
                c != '<' && c != '>' && c != '"' && c != '\''
            },
    decreases s.len(),
{
    reveal_strlit("&amp;");
    reveal_strlit("&lt;");
    reveal_strlit("&gt;");
    reveal_strlit("&quot;");
    reveal_strlit("&apos;");
    if s.len() > 0 {
        lemma_escape_is_inert(s.drop_last());
        let a = xml_escape_spec(s.drop_last());
        let b = escape_char(s.last());
        assert forall|i: int| 0 <= i < (a + b).len() implies {
            let c = #[trigger] (a + b)[i];
            c != '<' && c != '>' && c != '"' && c != '\''
        } by {
            if i < a.len() {
                assert((a + b)[i] == a[i]);
            } else {
                assert((a + b)[i] == b[i - a.len()]);
            }
        }
    }
}

} // verus!

verus! {

/// Lexicographic order of texts by code point, which is the order of
/// `String`'s `Ord` (UTF-8 byte order agrees with code-point order).
pub open spec fn text_lt(a: Seq<char>, b: Seq<char>) -> bool
    decreases a.len(),
{
    if a.len() == 0 {
        b.len() > 0
    } else if b.len() == 0 {
        false
    } else if a[0] != b[0] {
        (a[0] as u32) < (b[0] as u32)
    } else {
        text_lt(a.drop_first(), b.drop_first())
    }
}

pub proof fn lemma_text_lt_irreflexive(a: Seq<char>)
    ensures
        !text_lt(a, a),
    decreases a.len(),
{
    if a.len() > 0 {
        lemma_text_lt_irreflexive(a.drop_first());
    }
}

pub proof fn lemma_text_lt_transitive(a: Seq<char>, b: Seq<char>, c: Seq<char>)
    requires
        text_lt(a, b),
        text_lt(b, c),
    ensures
        text_lt(a, c),
    decreases a.len(),
{
    if a.len() > 0 && b.len() > 0 && c.len() > 0 {
        if a[0] == b[0] && b[0] == c[0] {
            lemma_text_lt_transitive(a.drop_first(), b.drop_first(), c.drop_first());
        }
    }
}

/// Distinct texts are ordered one way or the other.
pub proof fn lemma_text_lt_total(a: Seq<char>, b: Seq<char>)
    requires
        a != b,
    ensures
        text_lt(a, b) || text_lt(b, a),
    decreases a.len(),
{
    if a.len() == 0 && b.len() == 0 {
        assert(a =~= b);
    } else if a.len() > 0 && b.len() > 0 && a[0] != b[0] {
        vstd::utf8::char_u32_cast(a[0], a[0] as u32);
        vstd::utf8::char_u32_cast(b[0], b[0] as u32);
    } else if a.len() > 0 && b.len() > 0 && a[0] == b[0] {
        if a.drop_first() == b.drop_first() {
            assert(a =~= seq![a[0]] + a.drop_first());
            assert(b =~= seq![b[0]] + b.drop_first());
        }
        lemma_text_lt_total(a.drop_first(), b.drop_first());
    }
}

/// The outcome of comparing two texts.
#[derive(Clone, Copy, Debug, PartialEq, Eq, Structural)]
pub enum TextOrder {
    Less,
    Equal,
    Greater,
}

/// Compare two texts in `String` order.
pub fn compare_text(a: &str, b: &str) -> (res: TextOrder)
    ensures
        res == TextOrder::Less <==> text_lt(a@, b@),
        res == TextOrder::Equal <==> a@ == b@,
        res == TextOrder::Greater <==> text_lt(b@, a@),
{
    let x = chars_of(a);
    let y = chars_of(b);
    let mut i: usize = 0;
    while i < x.len() && i < y.len() && x[i] == y[i]
        invariant
            x@ == a@,
            y@ == b@,
            i <= x.len(),
            i <= y.len(),
            x@.take(i as int) == y@.take(i as int),
        decreases x.len() - i,
    {
        proof {
            assert(x@.take(i + 1) =~= x@.take(i as int).push(x@[i as int]));
            assert(y@.take(i + 1) =~= y@.take(i as int).push(y@[i as int]));
        }
        i = i + 1;
    }
    proof {
        lemma_text_lt_common_prefix(x@, y@, i as int);
    }
    if i == x.len() && i == y.len() {
        proof {
            assert(x@ =~= x@.take(i as int));
            assert(y@ =~= y@.take(i as int));
            lemma_text_lt_irreflexive(x@);
        }
        TextOrder::Equal
    } else if i == x.len() {
        TextOrder::Less
    } else if i == y.len() {
        TextOrder::Greater
    } else if (x[i] as u32) < (y[i] as u32) {
        TextOrder::Less
    } else {
        proof {
            vstd::utf8::char_u32_cast(x@[i as int], x@[i as int] as u32);
            vstd::utf8::char_u32_cast(y@[i as int], y@[i as int] as u32);
        }
        TextOrder::Greater
    }
}

/// Comparing two texts that agree on their first `i` characters.
/// Texts are ordered at the first place they differ, by code point: after a
/// common prefix of length `i`, `a` comes first exactly when its character
/// there is the lower.
pub proof fn lemma_text_lt_at_first_difference(a: Seq<char>, b: Seq<char>, i: int)
    requires
        0 <= i < a.len(),
        i < b.len(),
        a.take(i) == b.take(i),
        a[i] != b[i],
    ensures
        text_lt(a, b) <==> (a[i] as u32) < (b[i] as u32),
{
    lemma_text_lt_common_prefix(a, b, i);
    assert(a.skip(i)[0] == a[i]);
    assert(b.skip(i)[0] == b[i]);
}

/// A proper prefix comes before the texts that extend it.
pub proof fn lemma_text_lt_prefix(a: Seq<char>, b: Seq<char>)
    requires
        a.len() < b.len(),
        b.take(a.len() as int) == a,
    ensures
        text_lt(a, b),
{
    assert(a.take(a.len() as int) =~= a);
    lemma_text_lt_common_prefix(a, b, a.len() as int);
    assert(a.skip(a.len() as int).len() == 0);
}

proof fn lemma_text_lt_common_prefix(a: Seq<char>, b: Seq<char>, i: int)
    requires
        0 <= i <= a.len(),
        i <= b.len(),
        a.take(i) == b.take(i),
    ensures
        text_lt(a, b) == text_lt(a.skip(i), b.skip(i)),
        text_lt(b, a) == text_lt(b.skip(i), a.skip(i)),
        (a.skip(i) == b.skip(i)) ==> a == b,
        a != b ==> a.skip(i) != b.skip(i),
    decreases i,
{
    if i > 0 {
        assert(a[0] == a.take(i)[0]);
        assert(b[0] == b.take(i)[0]);
        assert(a.drop_first().take(i - 1) =~= a.take(i).drop_first());
        assert(b.drop_first().take(i - 1) =~= b.take(i).drop_first());
        lemma_text_lt_common_prefix(a.drop_first(), b.drop_first(), i - 1);
        assert(a.drop_first().skip(i - 1) =~= a.skip(i));
        assert(b.drop_first().skip(i - 1) =~= b.skip(i));
        assert(a =~= seq![a[0]] + a.drop_first());
        assert(b =~= seq![b[0]] + b.drop_first());
    } else {
        assert(a.skip(0) =~= a);
        assert(b.skip(0) =~= b);
    }
}

} // verus!

verus! {

/// The texts of a sequence of strings.
pub open spec fn texts(v: Seq<String>) -> Seq<Seq<char>> {
    v.map_values(|s: String| s@)
}

/// Whether `v` holds the text `s`.
pub fn contains_text(v: &Vec<String>, s: &str) -> (res: bool)
    ensures
        res == texts(v@).contains(s@),
{
    let mut i: usize = 0;
    while i < v.len()
        invariant
            i <= v.len(),
            forall|j: int| 0 <= j < i ==> v@[j]@ != s@,
        decreases v.len() - i,
    {
        if compare_text(v[i].as_str(), s) == TextOrder::Equal {
            proof {
                assert(texts(v@)[i as int] == s@);
            }
            return true;
        }
        i = i + 1;
    }
    proof {
        assert forall|j: int| 0 <= j < texts(v@).len() implies texts(v@)[j] != s@ by {
            assert(texts(v@)[j] == v@[j]@);
        }
    }
    false
}

/// A copy of `s`.
pub fn copy_text(s: &String) -> (res: String)
    ensures
        res@ == s@,
{
    s.clone()
}

} // verus!

verus! {

/// Where `x` first occurs in `s`, or `-1`.
#[verifier::opaque]
pub open spec fn first_index(s: Seq<Seq<char>>, x: Seq<char>) -> int {
    if exists|i: int| 0 <= i < s.len() && s[i] == x {
        choose|i: int| 0 <= i < s.len() && s[i] == x && forall|j: int| 0 <= j < i ==> s[j] != x
    } else {
        -1
    }
}

pub proof fn lemma_first_index_found(s: Seq<Seq<char>>, x: Seq<char>, i: int)
    requires
        0 <= i < s.len(),
        s[i] == x,
        forall|j: int| 0 <= j < i ==> s[j] != x,
    ensures
        first_index(s, x) == i,
{
    reveal(first_index);
    assert(exists|k: int| 0 <= k < s.len() && s[k] == x && forall|j: int| 0 <= j < k ==> s[j] != x);
    let k = choose|k: int| 0 <= k < s.len() && s[k] == x && forall|j: int| 0 <= j < k ==> s[j] != x;
    if k < i {
        assert(s[k] != x);
    } else if k > i {
        assert(s[i] != x);
    }
}

pub proof fn lemma_first_index_contains(s: Seq<Seq<char>>, x: Seq<char>)
    requires
        s.contains(x),
    ensures
        0 <= first_index(s, x) < s.len(),
        s[first_index(s, x)] == x,
{
    reveal(first_index);
    let i = choose|i: int| 0 <= i < s.len() && s[i] == x;
    assert(exists|i: int| 0 <= i < s.len() && s[i] == x);
    lemma_least_witness(s, x, i);
}

proof fn lemma_least_witness(s: Seq<Seq<char>>, x: Seq<char>, i: int)
    requires
        0 <= i < s.len(),
        s[i] == x,
    ensures
        exists|k: int| 0 <= k < s.len() && s[k] == x && forall|j: int| 0 <= j < k ==> s[j] != x,
    decreases i,
{
    if exists|j: int| 0 <= j < i && s[j] == x {
        let j = choose|j: int| 0 <= j < i && s[j] == x;
        lemma_least_witness(s, x, j);
    } else {
        assert(0 <= i < s.len() && s[i] == x && forall|j: int| 0 <= j < i ==> s[j] != x);
    }
}

pub proof fn lemma_first_index_absent(s: Seq<Seq<char>>, x: Seq<char>)
    requires
        forall|j: int| 0 <= j < s.len() ==> s[j] != x,
    ensures
        first_index(s, x) == -1,
{
    reveal(first_index);
}

/// Where `s` first occurs in `v`, if anywhere.
pub fn find_text(v: &Vec<String>, s: &str) -> (res: Option<usize>)
    ensures
        match res {
            Some(i) => i < v@.len() && first_index(texts(v@), s@) == i,
            None => first_index(texts(v@), s@) == -1 && !texts(v@).contains(s@),
        },
{
    let mut i: usize = 0;
    while i < v.len()
        invariant
            i <= v.len(),
            forall|j: int| 0 <= j < i ==> texts(v@)[j] != s@,
        decreases v.len() - i,
    {
        if compare_text(v[i].as_str(), s) == TextOrder::Equal {
            proof {
                lemma_first_index_found(texts(v@), s@, i as int);
            }
            return Some(i);
        }
        i = i + 1;
    }
    proof {
        lemma_first_index_absent(texts(v@), s@);
    }
    None
}

} // verus!
