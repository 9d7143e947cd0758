//! Text primitives: characters, line splitting, trimming and number rendering.

use vstd::prelude::*;
use vstd::utf8::*;

verus! {

/// `String::push` appends one character.
pub assume_specification[ String::push ](s: &mut String, ch: char)
    ensures
        final(s)@ == old(s)@.push(ch),
;

/// Collects the characters of a text.
pub fn chars_of(s: &str) -> (v: Vec<char>)
    ensures
        v@ == s@,
{
    let mut v: Vec<char> = Vec::new();
    for c in it: s.chars()
        invariant
            it.seq() == s@,
            v@ == s@.take(it.index()),
    {
        v.push(c);
        proof {
            assert(s@.take(it.index() + 1) == s@.take(it.index()).push(c));
        }
    }
    assert(s@.take(s@.len() as int) == s@);
    v
}

/// Whether two texts hold the same characters.
pub fn str_eq(a: &str, b: &str) -> (r: bool)
    ensures
        r == (a@ == b@),
{
    let x = chars_of(a);
    let y = chars_of(b);
    if x.len() != y.len() {
        return false;
    }
    let mut i: usize = 0;
    while i < x.len()
        invariant
            i <= x.len(),
            x.len() == y.len(),
            x@ == a@,
            y@ == b@,
            forall|j: int| 0 <= j < i ==> x@[j] == y@[j],
        decreases x.len() - i,
    {
        if x[i] != y[i] {
            assert(a@[i as int] != b@[i as int]);
            return false;
        }
        i += 1;
    }
    assert(a@ =~= b@);
    true
}

/// The number of bytes that UTF-8 gives one character.
pub open spec fn char_width(c: char) -> nat {
    if c as u32 <= 0x7f {
        1
    } else if c as u32 <= 0x7ff {
        2
    } else if c as u32 <= 0xffff {
        3
    } else {
        4
    }
}

/// The number of bytes of a text in UTF-8.
pub open spec fn byte_len(s: Seq<char>) -> nat
    decreases s.len(),
{
    if s.len() == 0 {
        0
    } else {
        byte_len(s.drop_last()) + char_width(s.last())
    }
}

pub proof fn lemma_byte_len_push(s: Seq<char>, c: char)
    ensures
        byte_len(s.push(c)) == byte_len(s) + char_width(c),
{
    assert(s.push(c).drop_last() == s);
}

pub proof fn lemma_byte_len_concat(a: Seq<char>, b: Seq<char>)
    ensures
        byte_len(a + b) == byte_len(a) + byte_len(b),
    decreases b.len(),
{
    if b.len() == 0 {
        assert(a + b == a);
    } else {
        lemma_byte_len_concat(a, b.drop_last());
        assert((a + b).drop_last() == a + b.drop_last());
    }
}

proof fn lemma_byte_len_encode(s: Seq<char>)
    ensures
        encode_utf8(s).len() == byte_len(s),
    decreases s.len(),
{
    if s.len() > 0 {
        let head = seq![s[0]];
        lemma_byte_len_encode(s.drop_first());
        lemma_byte_len_concat(head, s.drop_first());
        assert(head + s.drop_first() == s);
        assert(head.drop_last() == Seq::<char>::empty());
        reveal_with_fuel(byte_len, 2);
        assert(byte_len(head) == char_width(s[0]));
        char_is_scalar(s[0]);
        assert(encode_scalar(s[0] as u32).len() == char_width(s[0]));
    }
}

/// The number of bytes of a text in UTF-8.
pub fn byte_count(s: &str) -> (n: usize)
    ensures
        n == byte_len(s@),
{
    proof {
        lemma_byte_len_encode(s@);
    }
    s.as_bytes().len()
}

// ---------------------------------------------------------------------------
// Slices and joins
// ---------------------------------------------------------------------------

/// The number of bytes of a character.
pub fn width(c: char) -> (w: usize)
    ensures
        w == char_width(c),
{
    let u: u32 = c as u32;
    if u <= 0x7f {
        1
    } else if u <= 0x7ff {
        2
    } else if u <= 0xffff {
        3
    } else {
        4
    }
}

/// A prefix that is longer by one character has that character's bytes more.
pub proof fn lemma_byte_len_take(s: Seq<char>, i: int)
    requires
        0 <= i < s.len(),
    ensures
        byte_len(s.take(i + 1)) == byte_len(s.take(i)) + char_width(s[i]),
{
    assert(s.take(i + 1) =~= s.take(i).push(s[i]));
    lemma_byte_len_push(s.take(i), s[i]);
}

/// A prefix has no more bytes than the text.
pub proof fn lemma_byte_len_take_bound(s: Seq<char>, i: int)
    requires
        0 <= i <= s.len(),
    ensures
        byte_len(s.take(i)) <= byte_len(s),
{
    assert(s =~= s.take(i) + s.skip(i));
    lemma_byte_len_concat(s.take(i), s.skip(i));
}

/// Only the empty text has no bytes.
pub proof fn lemma_byte_len_zero(s: Seq<char>)
    ensures
        byte_len(s) == 0 <==> s.len() == 0,
{
}

/// The texts that a list of strings holds.
pub open spec fn views(v: Seq<String>) -> Seq<Seq<char>> {
    Seq::new(v.len(), |i: int| v[i]@)
}

pub proof fn lemma_views_push(v: Seq<String>, s: String)
    ensures
        views(v.push(s)) == views(v).push(s@),
{
    assert(views(v.push(s)) =~= views(v).push(s@));
}

/// The text between two positions of a character list.
pub fn sub_string(v: &Vec<char>, from: usize, to: usize) -> (r: String)
    requires
        from <= to <= v@.len(),
    ensures
        r@ == v@.subrange(from as int, to as int),
{
    let mut r = String::new();
    let mut i: usize = from;
    while i < to
        invariant
            from <= i <= to <= v@.len(),
            r@ == v@.subrange(from as int, i as int),
        decreases to - i,
    {
        r.push(v[i]);
        assert(v@.subrange(from as int, i + 1) == v@.subrange(from as int, i as int).push(
            v@[i as int],
        ));
        i += 1;
    }
    r
}

/// The parts in order, with `sep` between each two neighbours.
pub open spec fn joined(parts: Seq<Seq<char>>, sep: Seq<char>) -> Seq<char>
    decreases parts.len(),
{
    if parts.len() == 0 {
        Seq::empty()
    } else if parts.len() == 1 {
        parts[0]
    } else {
        joined(parts.drop_last(), sep) + sep + parts.last()
    }
}

/// Joins texts with a separator.
pub fn join(parts: &Vec<String>, sep: &str) -> (r: String)
    ensures
        r@ == joined(views(parts@), sep@),
{
    let mut r = String::new();
    let mut i: usize = 0;
    let ghost all = views(parts@);
    while i < parts.len()
        invariant
            i <= parts.len(),
            all == views(parts@),
            r@ == joined(all.take(i as int), sep@),
        decreases parts.len() - i,
    {
        proof {
            assert(all.take(i + 1).drop_last() == all.take(i as int));
            assert(all.take(i + 1).last() == parts@[i as int]@);
        }
        if i > 0 {
            r.append(sep);
        }
        r.append(parts[i].as_str());
        assert(i == 0 ==> r@ =~= parts@[0]@);
        i += 1;
    }
    assert(all.take(all.len() as int) == all);
    r
}

/// The parts one behind the other.
pub open spec fn concatenated(parts: Seq<Seq<char>>) -> Seq<char>
    decreases parts.len(),
{
    if parts.len() == 0 {
        Seq::empty()
    } else {
        concatenated(parts.drop_last()) + parts.last()
    }
}

pub proof fn lemma_concatenated_push(parts: Seq<Seq<char>>, p: Seq<char>)
    ensures
        concatenated(parts.push(p)) == concatenated(parts) + p,
{
    assert(parts.push(p).drop_last() =~= parts);
}

pub proof fn lemma_concatenated_add(a: Seq<Seq<char>>, b: Seq<Seq<char>>)
    ensures
        concatenated(a + b) == concatenated(a) + concatenated(b),
    decreases b.len(),
{
    if b.len() == 0 {
        assert(a + b =~= a);
        assert(concatenated(a) + Seq::<char>::empty() =~= concatenated(a));
    } else {
        lemma_concatenated_add(a, b.drop_last());
        assert((a + b).drop_last() =~= a + b.drop_last());
        assert(concatenated(a) + concatenated(b.drop_last()) + b.last() =~= concatenated(a) + (
        concatenated(b.drop_last()) + b.last()));
    }
}

/// Puts texts one behind the other.
pub fn concat(parts: &Vec<String>) -> (r: String)
    ensures
        r@ == concatenated(views(parts@)),
{
    let mut r = String::new();
    let mut i: usize = 0;
    let ghost all = views(parts@);
    while i < parts.len()
        invariant
            i <= parts.len(),
            all == views(parts@),
            r@ == concatenated(all.take(i as int)),
        decreases parts.len() - i,
    {
        proof {
            assert(all.take(i + 1).drop_last() == all.take(i as int));
            assert(all.take(i + 1).last() == parts@[i as int]@);
        }
        r.append(parts[i].as_str());
        i += 1;
    }
    assert(all.take(all.len() as int) == all);
    r
}

/// Copies a text.
pub fn copy(s: &str) -> (r: String)
    ensures
        r@ == s@,
{
    s.to_owned()
}

/// Copies a list of texts.
pub fn copy_all(v: &Vec<String>) -> (r: Vec<String>)
    ensures
        views(r@) == views(v@),
        r@ == v@,
{
    let mut r: Vec<String> = Vec::new();
    let mut i: usize = 0;
    while i < v.len()
        invariant
            i <= v.len(),
            r@ == v@.take(i as int),
        decreases v.len() - i,
    {
        r.push(v[i].clone());
        assert(v@.take(i + 1) == v@.take(i as int).push(v@[i as int]));
        i += 1;
    }
    assert(v@.take(v@.len() as int) == v@);
    r
}

// ---------------------------------------------------------------------------
// Searching
// ---------------------------------------------------------------------------

/// The first position at or after `from` that holds `c`, or the length of the text.
pub open spec fn next_at(s: Seq<char>, c: char, from: int) -> int
    decreases s.len() - from,
{
    if from >= s.len() {
        s.len() as int
    } else if s[from] == c {
        from
    } else {
        next_at(s, c, from + 1)
    }
}

pub proof fn lemma_next_at(s: Seq<char>, c: char, from: int)
    requires
        0 <= from <= s.len(),
    ensures
        from <= next_at(s, c, from) <= s.len(),
        next_at(s, c, from) < s.len() ==> s[next_at(s, c, from)] == c,
        forall|i: int| from <= i < next_at(s, c, from) ==> s[i] != c,
    decreases s.len() - from,
{
    if from < s.len() && s[from] != c {
        lemma_next_at(s, c, from + 1);
    }
}

/// Finds the first position at or after `from` that holds `c`.
pub fn position_from(v: &Vec<char>, c: char, from: usize) -> (r: usize)
    requires
        from <= v@.len(),
    ensures
        r == next_at(v@, c, from as int),
        from <= r <= v@.len(),
{
    let mut i: usize = from;
    while i < v.len() && v[i] != c
        invariant
            from <= i <= v@.len(),
            next_at(v@, c, from as int) == next_at(v@, c, i as int),
        decreases v@.len() - i,
    {
        i += 1;
    }
    i
}

/// Whether `p` stands in `s` at position `i`.
pub open spec fn occurs_at(s: Seq<char>, p: Seq<char>, i: int) -> bool {
    &&& 0 <= i
    &&& i + p.len() <= s.len()
    &&& s.subrange(i, i + p.len()) == p
}

/// Whether `p` stands somewhere in `s`.
pub open spec fn contains_text(s: Seq<char>, p: Seq<char>) -> bool {
    exists|i: int| occurs_at(s, p, i)
}

fn matches_at(s: &Vec<char>, p: &Vec<char>, i: usize) -> (r: bool)
    requires
        i <= s@.len(),
    ensures
        r == occurs_at(s@, p@, i as int),
{
    if p.len() > s.len() - i {
        return false;
    }
    let mut j: usize = 0;
    while j < p.len()
        invariant
            j <= p@.len(),
            i + p.len() <= s.len(),
            forall|k: int| 0 <= k < j ==> s@[i + k] == p@[k],
        decreases p@.len() - j,
    {
        if s[i + j] != p[j] {
            assert(s@.subrange(i as int, i + p@.len())[j as int] != p@[j as int]);
            return false;
        }
        j += 1;
    }
    assert(s@.subrange(i as int, i + p@.len()) =~= p@);
    true
}

/// Whether `p` stands somewhere in `s`.
pub fn contains(s: &str, p: &str) -> (r: bool)
    ensures
        r == contains_text(s@, p@),
{
    let text = chars_of(s);
    let pat = chars_of(p);
    let mut i: usize = 0;
    loop
        invariant
            i <= text@.len(),
            text@ == s@,
            pat@ == p@,
            forall|k: int| 0 <= k < i ==> !occurs_at(s@, p@, k),
        decreases text@.len() - i,
    {
        if matches_at(&text, &pat, i) {
            return true;
        }
        if i == text.len() {
            return false;
        }
        i += 1;
    }
}

/// Whether `s` begins with `p`.
pub open spec fn begins_with(s: Seq<char>, p: Seq<char>) -> bool {
    occurs_at(s, p, 0)
}

/// Whether `s` ends with `p`.
pub open spec fn finishes_with(s: Seq<char>, p: Seq<char>) -> bool {
    occurs_at(s, p, s.len() - p.len())
}

/// Whether `s` ends with `p`.
pub fn ends_with(s: &str, p: &str) -> (r: bool)
    ensures
        r == finishes_with(s@, p@),
{
    let text = chars_of(s);
    let pat = chars_of(p);
    if pat.len() > text.len() {
        return false;
    }
    matches_at(&text, &pat, text.len() - pat.len())
}

/// `s` without the leading copies of `p`.
pub open spec fn without_leading(s: Seq<char>, p: Seq<char>) -> Seq<char>
    decreases s.len(),
{
    if p.len() > 0 && begins_with(s, p) {
        without_leading(s.skip(p.len() as int), p)
    } else {
        s
    }
}

/// Removes every leading copy of `p`.
pub fn trim_start_matches(s: &str, p: &str) -> (r: String)
    requires
        p@.len() > 0,
    ensures
        r@ == without_leading(s@, p@),
{
    let text = chars_of(s);
    let pat = chars_of(p);
    let mut i: usize = 0;
    assert(s@.skip(0) == s@);
    while matches_at(&text, &pat, i)
        invariant
            i <= text@.len(),
            text@ == s@,
            pat@ == p@,
            p@.len() > 0,
            without_leading(s@, p@) == without_leading(s@.skip(i as int), p@),
        ensures
            i <= text@.len(),
            !occurs_at(s@, p@, i as int),
            without_leading(s@, p@) == without_leading(s@.skip(i as int), p@),
        decreases text@.len() - i,
    {
        proof {
            let rest = s@.skip(i as int);
            assert(rest.subrange(0, p@.len() as int) =~= s@.subrange(i as int, i + p@.len()));
            assert(rest.skip(p@.len() as int) =~= s@.skip(i + p@.len()));
        }
        assert(i + pat.len() <= text.len());
        i += pat.len();
    }
    proof {
        let rest = s@.skip(i as int);
        if begins_with(rest, p@) {
            assert(rest.subrange(0, p@.len() as int) =~= s@.subrange(i as int, i + p@.len()));
        }
        assert(s@.skip(i as int) =~= s@.subrange(i as int, s@.len() as int));
    }
    sub_string(&text, i, text.len())
}

// ---------------------------------------------------------------------------
// White space
// ---------------------------------------------------------------------------

/// The characters with the Unicode property `White_Space`.
pub open spec fn is_white(c: char) -> bool {
    ||| 0x9 <= c as u32 <= 0xd
    ||| c as u32 == 0x20
    ||| c as u32 == 0x85
    ||| c as u32 == 0xa0
    ||| c as u32 == 0x1680
    ||| 0x2000 <= c as u32 <= 0x200a
    ||| c as u32 == 0x2028
    ||| c as u32 == 0x2029
    ||| c as u32 == 0x202f
    ||| c as u32 == 0x205f
    ||| c as u32 == 0x3000
}

/// Whether a character is white space.
pub fn white(c: char) -> (r: bool)
    ensures
        r == is_white(c),
{
    let u: u32 = c as u32;
    (0x9 <= u && u <= 0xd) || u == 0x20 || u == 0x85 || u == 0xa0 || u == 0x1680 || (0x2000 <= u
        && u <= 0x200a) || u == 0x2028 || u == 0x2029 || u == 0x202f || u == 0x205f || u == 0x3000
}

/// The text without its trailing white space.
pub open spec fn trimmed_end(s: Seq<char>) -> Seq<char>
    decreases s.len(),
{
    if s.len() > 0 && is_white(s.last()) {
        trimmed_end(s.drop_last())
    } else {
        s
    }
}

/// The text without its leading white space.
pub open spec fn trimmed_start(s: Seq<char>) -> Seq<char>
    decreases s.len(),
{
    if s.len() > 0 && is_white(s[0]) {
        trimmed_start(s.drop_first())
    } else {
        s
    }
}

/// The text without white space at either end.
pub open spec fn trimmed(s: Seq<char>) -> Seq<char> {
    trimmed_start(trimmed_end(s))
}

fn end_of_text(v: &Vec<char>) -> (r: usize)
    ensures
        r <= v@.len(),
        v@.take(r as int) == trimmed_end(v@),
{
    let mut e: usize = v.len();
    assert(v@.take(e as int) == v@);
    while e > 0 && white(v[e - 1])
        invariant
            e <= v@.len(),
            trimmed_end(v@) == trimmed_end(v@.take(e as int)),
        decreases e,
    {
        assert(v@.take(e as int).drop_last() == v@.take(e - 1));
        e -= 1;
    }
    e
}

/// Removes trailing white space.
pub fn trim_end(s: &str) -> (r: String)
    ensures
        r@ == trimmed_end(s@),
{
    let v = chars_of(s);
    let e = end_of_text(&v);
    assert(v@.take(e as int) =~= v@.subrange(0, e as int));
    sub_string(&v, 0, e)
}

/// Removes white space at both ends.
pub fn trim(s: &str) -> (r: String)
    ensures
        r@ == trimmed(s@),
{
    let v = chars_of(s);
    let e = end_of_text(&v);
    let ghost t = trimmed_end(s@);
    let mut b: usize = 0;
    assert(t.skip(0) == t);
    while b < e && white(v[b])
        invariant
            b <= e <= v@.len(),
            v@.take(e as int) == t,
            trimmed_start(t) == trimmed_start(t.skip(b as int)),
        decreases e - b,
    {
        assert(t.skip(b as int)[0] == v@[b as int]);
        assert(t.skip(b as int).drop_first() == t.skip(b + 1));
        b += 1;
    }
    proof {
        if b < e {
            assert(t.skip(b as int)[0] == v@[b as int]);
        }
        assert(t.skip(b as int) =~= v@.subrange(b as int, e as int));
    }
    sub_string(&v, b, e)
}

/// Whether a text holds nothing but white space.
pub open spec fn is_blank(s: Seq<char>) -> bool {
    forall|i: int| 0 <= i < s.len() ==> is_white(#[trigger] s[i])
}

/// Whether a text holds nothing but white space.
pub fn blank(s: &str) -> (r: bool)
    ensures
        r == is_blank(s@),
{
    let v = chars_of(s);
    let mut i: usize = 0;
    while i < v.len()
        invariant
            i <= v@.len(),
            v@ == s@,
            forall|k: int| 0 <= k < i ==> is_white(#[trigger] s@[k]),
        decreases v@.len() - i,
    {
        if !white(v[i]) {
            assert(!is_white(s@[i as int]));
            return false;
        }
        i += 1;
    }
    true
}

// ---------------------------------------------------------------------------
// Lines and words
// ---------------------------------------------------------------------------

/// A line without the carriage return that belongs to its line ending.
pub open spec fn without_cr(s: Seq<char>) -> Seq<char> {
    if s.len() > 0 && s.last() == '\r' {
        s.drop_last()
    } else {
        s
    }
}

/// The lines of a text from position `from` on. A line ends at `\n` or `\r\n`, and the ending
/// of the last line may be absent.
pub open spec fn lines_from(s: Seq<char>, from: int) -> Seq<Seq<char>>
    decreases s.len() - from,
    when 0 <= from <= s.len()
{
    if from == s.len() {
        Seq::empty()
    } else {
        proof {
            lemma_next_at(s, '\n', from);
        }
        let e = next_at(s, '\n', from);
        if e == s.len() {
            seq![s.subrange(from, e)]
        } else {
            seq![without_cr(s.subrange(from, e))] + lines_from(s, e + 1)
        }
    }
}

/// The lines of a text.
pub open spec fn lines_of(s: Seq<char>) -> Seq<Seq<char>> {
    lines_from(s, 0)
}

/// Splits a text into its lines.
pub fn lines(s: &str) -> (r: Vec<String>)
    ensures
        views(r@) == lines_of(s@),
{
    let v = chars_of(s);
    let mut r: Vec<String> = Vec::new();
    let mut i: usize = 0;
    assert(views(r@) + lines_of(s@) =~= lines_of(s@));
    while i < v.len()
        invariant
            i <= v@.len(),
            v@ == s@,
            views(r@) + lines_from(s@, i as int) == lines_of(s@),
        decreases v@.len() - i,
    {
        let e = position_from(&v, '\n', i);
        let ghost before = r@;
        if e == v.len() {
            let line = sub_string(&v, i, e);
            r.push(line);
            proof {
                lemma_views_push(before, line);
                assert(views(r@) + lines_from(s@, e as int) =~= views(before) + lines_from(
                    s@,
                    i as int,
                ));
            }
            i = e;
        } else {
            let stop = if e > i && v[e - 1] == '\r' {
                e - 1
            } else {
                e
            };
            let line = sub_string(&v, i, stop);
            r.push(line);
            proof {
                lemma_views_push(before, line);
                assert(line@ =~= without_cr(s@.subrange(i as int, e as int)));
                assert(views(r@) + lines_from(s@, e + 1) =~= views(before) + lines_from(
                    s@,
                    i as int,
                ));
            }
            i = e + 1;
        }
    }
    assert(views(r@) + Seq::<Seq<char>>::empty() =~= views(r@));
    r
}

/// A text without the line ending that it ends with, if any.
pub open spec fn without_end(s: Seq<char>) -> Seq<char> {
    if s.len() > 0 && s.last() == '\n' {
        without_cr(s.drop_last())
    } else {
        s
    }
}

/// Removes the line ending that a text ends with.
pub fn trim_line_end(s: &str) -> (r: String)
    ensures
        r@ == without_end(s@),
{
    let v = chars_of(s);
    let n: usize = v.len();
    let stop: usize = if n > 0 && v[n - 1] == '\n' {
        if n > 1 && v[n - 2] == '\r' {
            n - 2
        } else {
            n - 1
        }
    } else {
        n
    };
    let r = sub_string(&v, 0, stop);
    assert(r@ =~= without_end(s@));
    r
}

/// The lines of a text from position `from` on, each with its line ending.
pub open spec fn segments_from(s: Seq<char>, from: int) -> Seq<Seq<char>>
    decreases s.len() - from,
    when 0 <= from <= s.len()
{
    if from == s.len() {
        Seq::empty()
    } else {
        proof {
            lemma_next_at(s, '\n', from);
        }
        let e = next_at(s, '\n', from);
        if e == s.len() {
            seq![s.subrange(from, e)]
        } else {
            seq![s.subrange(from, e + 1)] + segments_from(s, e + 1)
        }
    }
}

/// The lines of a text, each with its line ending.
pub open spec fn segments_of(s: Seq<char>) -> Seq<Seq<char>> {
    segments_from(s, 0)
}

/// There is one segment for each line: the line and its ending.
pub proof fn lemma_segments_are_lines(s: Seq<char>, from: int)
    requires
        0 <= from <= s.len(),
    ensures
        segments_from(s, from).len() == lines_from(s, from).len(),
        forall|k: int|
            0 <= k < lines_from(s, from).len() ==> without_end(
                #[trigger] segments_from(s, from)[k],
            ) == lines_from(s, from)[k],
    decreases s.len() - from,
{
    if from < s.len() {
        lemma_next_at(s, '\n', from);
        let e = next_at(s, '\n', from);
        let segs = segments_from(s, from);
        let ls = lines_from(s, from);
        if e < s.len() {
            lemma_segments_are_lines(s, e + 1);
            assert(s.subrange(from, e + 1).drop_last() =~= s.subrange(from, e));
            assert forall|k: int| 0 <= k < ls.len() implies without_end(#[trigger] segs[k])
                == ls[k] by {
                if k > 0 {
                    assert(segs[k] == segments_from(s, e + 1)[k - 1]);
                    assert(ls[k] == lines_from(s, e + 1)[k - 1]);
                }
            }
        }
    }
}

/// The segments make up the text. None is empty, and all but the last end with a newline; the
/// last does where the text does.
pub proof fn lemma_segments_make_up_the_text(s: Seq<char>, from: int)
    requires
        0 <= from <= s.len(),
    ensures
        concatenated(segments_from(s, from)) == s.subrange(from, s.len() as int),
        from < s.len() ==> segments_from(s, from).len() > 0,
        forall|k: int|
            0 <= k < segments_from(s, from).len() ==> (#[trigger] segments_from(
                s,
                from,
            )[k]).len() > 0,
        forall|k: int|
            0 <= k < segments_from(s, from).len() && (k < segments_from(s, from).len() - 1
                || s.last() == '\n') ==> (#[trigger] segments_from(s, from)[k]).last() == '\n',
        from < s.len() ==> segments_from(s, from).last().last() == s.last(),
    decreases s.len() - from,
{
    if from < s.len() {
        lemma_next_at(s, '\n', from);
        let e = next_at(s, '\n', from);
        let segs = segments_from(s, from);
        if e == s.len() {
            assert(segs =~= Seq::<Seq<char>>::empty().push(s.subrange(from, e)));
            lemma_concatenated_push(Seq::empty(), s.subrange(from, e));
            assert(concatenated(segs) =~= s.subrange(from, s.len() as int));
            assert(s.last() != '\n');
        } else {
            lemma_segments_make_up_the_text(s, e + 1);
            let head = seq![s.subrange(from, e + 1)];
            let rest = segments_from(s, e + 1);
            lemma_concatenated_add(head, rest);
            assert(head =~= Seq::<Seq<char>>::empty().push(s.subrange(from, e + 1)));
            lemma_concatenated_push(Seq::empty(), s.subrange(from, e + 1));
            assert(concatenated(segs) =~= s.subrange(from, s.len() as int));
            assert forall|k: int| 0 <= k < segs.len() implies (#[trigger] segs[k]).len() > 0 && (k
                < segs.len() - 1 || s.last() == '\n' ==> segs[k].last() == '\n') by {
                if k > 0 {
                    assert(segs[k] == rest[k - 1]);
                }
            }
            if e + 1 < s.len() {
                assert(segs.last() == rest.last());
            }
        }
    } else {
        assert(s.subrange(from, s.len() as int) =~= Seq::<char>::empty());
    }
}

/// Lines with a newline at their end and nowhere else are the segments of what they make up.
pub proof fn lemma_segments_of_lines(lines: Seq<Seq<char>>, k: int)
    requires
        0 <= k <= lines.len(),
        forall|i: int|
            0 <= i < lines.len() ==> (#[trigger] lines[i]).len() > 0 && lines[i].last() == '\n'
                && !lines[i].drop_last().contains('\n'),
    ensures
        segments_from(
            concatenated(lines),
            concatenated(lines.take(k)).len() as int,
        ) == lines.skip(k),
    decreases lines.len() - k,
{
    let s = concatenated(lines);
    let from = concatenated(lines.take(k)).len() as int;
    lemma_concatenated_add(lines.take(k), lines.skip(k));
    assert(lines.take(k) + lines.skip(k) =~= lines);
    if k < lines.len() {
        lemma_segments_of_lines(lines, k + 1);
        let line = lines[k];
        assert(lines.take(k + 1) =~= lines.take(k).push(line));
        lemma_concatenated_push(lines.take(k), line);
        lemma_concatenated_add(lines.take(k + 1), lines.skip(k + 1));
        assert(lines.take(k + 1) + lines.skip(k + 1) =~= lines);
        assert(s.subrange(from, from + line.len()) =~= line);
        assert forall|j: int| from <= j < from + line.len() - 1 implies #[trigger] s[j] != '\n' by {
            assert(s[j] == line[j - from]);
            assert(line.drop_last()[j - from] == s[j]);
        }
        assert(s[from + line.len() - 1] == line.last());
        lemma_next_at(s, '\n', from);
        assert(next_at(s, '\n', from) == from + line.len() - 1);
        assert(lines.skip(k) =~= seq![line] + lines.skip(k + 1));
    } else {
        assert(lines.take(k) =~= lines);
        assert(lines.skip(k) =~= Seq::<Seq<char>>::empty());
    }
}

/// Splits a text into its lines, each with its line ending.
pub fn segments(s: &str) -> (r: Vec<String>)
    ensures
        views(r@) == segments_of(s@),
{
    let v = chars_of(s);
    let mut r: Vec<String> = Vec::new();
    let mut i: usize = 0;
    assert(views(r@) + segments_of(s@) =~= segments_of(s@));
    while i < v.len()
        invariant
            i <= v@.len(),
            v@ == s@,
            views(r@) + segments_from(s@, i as int) == segments_of(s@),
        decreases v@.len() - i,
    {
        let e = position_from(&v, '\n', i);
        let ghost before = r@;
        let stop: usize = if e == v.len() {
            e
        } else {
            e + 1
        };
        let line = sub_string(&v, i, stop);
        r.push(line);
        proof {
            lemma_views_push(before, line);
            assert(views(r@) + segments_from(s@, stop as int) =~= views(before) + segments_from(
                s@,
                i as int,
            ));
        }
        i = stop;
    }
    assert(views(r@) + Seq::<Seq<char>>::empty() =~= views(r@));
    r
}

/// The first position at or after `from` whose character is white exactly when `w` says so, or
/// the length of the text.
pub open spec fn next_white(s: Seq<char>, w: bool, from: int) -> int
    decreases s.len() - from,
{
    if from >= s.len() {
        s.len() as int
    } else if is_white(s[from]) == w {
        from
    } else {
        next_white(s, w, from + 1)
    }
}

pub proof fn lemma_next_white(s: Seq<char>, w: bool, from: int)
    requires
        0 <= from <= s.len(),
    ensures
        from <= next_white(s, w, from) <= s.len(),
        next_white(s, w, from) < s.len() ==> is_white(s[next_white(s, w, from)]) == w,
        forall|i: int| from <= i < next_white(s, w, from) ==> is_white(s[i]) != w,
    decreases s.len() - from,
{
    if from < s.len() && is_white(s[from]) != w {
        lemma_next_white(s, w, from + 1);
    }
}

/// The words of a text from position `from` on: its longest runs without white space.
pub open spec fn words_from(s: Seq<char>, from: int) -> Seq<Seq<char>>
    decreases s.len() - from,
    when 0 <= from <= s.len()
{
    proof {
        lemma_next_white(s, false, from);
    }
    let b = next_white(s, false, from);
    if b == s.len() {
        Seq::empty()
    } else {
        proof {
            lemma_next_white(s, true, b);
        }
        let e = next_white(s, true, b);
        seq![s.subrange(b, e)] + words_from(s, e)
    }
}

/// The words of a text, separated by white space.
pub open spec fn words_of(s: Seq<char>) -> Seq<Seq<char>> {
    words_from(s, 0)
}

fn white_from(v: &Vec<char>, w: bool, from: usize) -> (r: usize)
    requires
        from <= v@.len(),
    ensures
        r == next_white(v@, w, from as int),
        from <= r <= v@.len(),
        r < v@.len() ==> is_white(v@[r as int]) == w,
{
    let mut i: usize = from;
    while i < v.len() && white(v[i]) != w
        invariant
            from <= i <= v@.len(),
            next_white(v@, w, from as int) == next_white(v@, w, i as int),
        decreases v@.len() - i,
    {
        i += 1;
    }
    i
}

/// Splits a text into its words.
pub fn split_whitespace(s: &str) -> (r: Vec<String>)
    ensures
        views(r@) == words_of(s@),
{
    let v = chars_of(s);
    let mut r: Vec<String> = Vec::new();
    let mut i: usize = 0;
    assert(views(r@) + words_of(s@) =~= words_of(s@));
    loop
        invariant
            i <= v@.len(),
            v@ == s@,
            views(r@) + words_from(s@, i as int) == words_of(s@),
        decreases v@.len() - i,
    {
        let b = white_from(&v, false, i);
        if b == v.len() {
            assert(views(r@) + Seq::<Seq<char>>::empty() =~= views(r@));
            return r;
        }
        let e = white_from(&v, true, b);
        let word = sub_string(&v, b, e);
        let ghost before = r@;
        r.push(word);
        proof {
            lemma_next_white(s@, true, b as int);
            lemma_views_push(before, word);
            assert(views(r@) + words_from(s@, e as int) =~= views(before) + words_from(
                s@,
                i as int,
            ));
        }
        i = e;
    }
}

// ---------------------------------------------------------------------------
// Numbers
// ---------------------------------------------------------------------------

/// The decimal digit with the value `d`.
pub open spec fn digit_char(d: nat) -> char {
    ('0' as u32 + d) as char
}

/// A number in decimal.
pub open spec fn decimal(n: nat) -> Seq<char>
    decreases n,
{
    if n < 10 {
        seq![digit_char(n)]
    } else {
        decimal(n / 10).push(digit_char(n % 10))
    }
}

fn digit(d: u8) -> (c: char)
    requires
        d < 10,
    ensures
        c == digit_char(d as nat),
{
    (48u8 + d) as char
}

/// Renders a number in decimal.
pub fn decimal_text(n: u128) -> (r: String)
    ensures
        r@ == decimal(n as nat),
    decreases n,
{
    if n < 10 {
        let mut r = String::new();
        r.push(digit(n as u8));
        assert(r@ =~= decimal(n as nat));
        r
    } else {
        let mut r = decimal_text(n / 10);
        r.push(digit((n % 10) as u8));
        r
    }
}

/// A signed number in decimal.
pub open spec fn signed_decimal(n: int) -> Seq<char> {
    if n < 0 {
        seq!['-'] + decimal((-n) as nat)
    } else {
        decimal(n as nat)
    }
}

/// Renders a signed number in decimal.
pub fn signed_decimal_text(n: i64) -> (r: String)
    ensures
        r@ == signed_decimal(n as int),
{
    if n < 0 {
        let mut r = String::new();
        r.push('-');
        let magnitude: i128 = -(n as i128);
        let rest = decimal_text(magnitude as u128);
        r.append(rest.as_str());
        assert(r@ =~= signed_decimal(n as int));
        r
    } else {
        decimal_text(n as u128)
    }
}

/// Whether a character is a decimal digit.
pub open spec fn is_digit(c: char) -> bool {
    '0' <= c <= '9'
}

/// Whether a text holds decimal digits alone.
pub open spec fn all_digits(s: Seq<char>) -> bool {
    forall|i: int| 0 <= i < s.len() ==> is_digit(#[trigger] s[i])
}

/// The value of a run of decimal digits.
pub open spec fn digits_value(s: Seq<char>) -> nat
    decreases s.len(),
{
    if s.len() == 0 {
        0
    } else {
        digits_value(s.drop_last()) * 10 + (s.last() as u32 - '0' as u32) as nat
    }
}

/// The number that a text spells in decimal, with an optional leading `+`, if it is a `u32`.
pub open spec fn u32_value(s: Seq<char>) -> Option<u32> {
    let body = if s.len() > 0 && s[0] == '+' {
        s.drop_first()
    } else {
        s
    };
    if body.len() > 0 && all_digits(body) && digits_value(body) <= u32::MAX {
        Some(digits_value(body) as u32)
    } else {
        None
    }
}

/// Reads a `u32` in decimal.
pub fn parse_u32(s: &str) -> (r: Option<u32>)
    ensures
        r == u32_value(s@),
{
    let v = chars_of(s);
    let b: usize = if v.len() > 0 && v[0] == '+' {
        1
    } else {
        0
    };
    let ghost body = s@.skip(b as int);
    proof {
        assert(b == 1 ==> body == s@.drop_first());
        assert(b == 0 ==> body == s@);
    }
    if b == v.len() {
        return None;
    }
    let mut n: u64 = 0;
    let mut i: usize = b;
    let mut over: bool = false;
    assert(body.take(0) =~= Seq::<char>::empty());
    while i < v.len()
        invariant
            b <= i <= v@.len(),
            v@ == s@,
            body == (if s@.len() > 0 && s@[0] == '+' {
                s@.drop_first()
            } else {
                s@
            }),
            body == s@.skip(b as int),
            forall|k: int| 0 <= k < i - b ==> is_digit(#[trigger] body[k]),
            !over ==> n == digits_value(body.take(i - b)) && n <= u32::MAX,
            over ==> digits_value(body.take(i - b)) > u32::MAX,
        decreases v@.len() - i,
    {
        let c = v[i];
        if !('0' <= c && c <= '9') {
            assert(body[i - b] == c);
            assert(!is_digit(body[i - b]));
            return None;
        }
        proof {
            assert(body[i - b] == c);
            assert(body.take(i - b + 1).drop_last() == body.take(i - b));
            assert(body.take(i - b + 1).last() == c);
        }
        if !over {
            n = n * 10 + (c as u32 - '0' as u32) as u64;
            if n > u32::MAX as u64 {
                over = true;
            }
        }
        i += 1;
    }
    assert(body.take(v@.len() - b) == body);
    if over {
        None
    } else {
        Some(n as u32)
    }
}

/// A text followed by as many spaces as bring it to `width` characters.
pub open spec fn padded_right(s: Seq<char>, width: nat) -> Seq<char> {
    if s.len() >= width {
        s
    } else {
        s + Seq::new((width - s.len()) as nat, |i: int| ' ')
    }
}

/// A text preceded by as many spaces as bring it to `width` characters.
pub open spec fn padded_left(s: Seq<char>, width: nat) -> Seq<char> {
    if s.len() >= width {
        s
    } else {
        Seq::new((width - s.len()) as nat, |i: int| ' ') + s
    }
}

/// `n` copies of one character.
pub open spec fn repeated(c: char, n: nat) -> Seq<char> {
    Seq::new(n, |i: int| c)
}

/// Repeats a character.
pub fn repeat(c: char, n: usize) -> (r: String)
    ensures
        r@ == repeated(c, n as nat),
{
    let mut r = String::new();
    let mut i: usize = 0;
    assert(r@ =~= repeated(c, 0));
    while i < n
        invariant
            i <= n,
            r@ == repeated(c, i as nat),
        decreases n - i,
    {
        r.push(c);
        i += 1;
        assert(r@ =~= repeated(c, i as nat));
    }
    r
}

/// Pads a text with spaces on the right.
pub fn pad_right(s: &str, width: usize) -> (r: String)
    ensures
        r@ == padded_right(s@, width as nat),
{
    let n = chars_of(s).len();
    let mut r = copy(s);
    if n < width {
        let fill = repeat(' ', width - n);
        r.append(fill.as_str());
    }
    assert(r@ =~= padded_right(s@, width as nat));
    r
}

/// Pads a text with spaces on the left.
pub fn pad_left(s: &str, width: usize) -> (r: String)
    ensures
        r@ == padded_left(s@, width as nat),
{
    let n = chars_of(s).len();
    if n < width {
        let mut r = repeat(' ', width - n);
        r.append(s);
        assert(r@ =~= padded_left(s@, width as nat));
        r
    } else {
        copy(s)
    }
}

// ---------------------------------------------------------------------------
// Laws
// ---------------------------------------------------------------------------

/// Lines that end with a newline each are read back from the text that they make up.
pub proof fn law_lines_are_read_back(lines: Seq<Seq<char>>)
    requires
        forall|i: int|
            0 <= i < lines.len() ==> !(#[trigger] lines[i]).contains('\n') && (lines[i].len() == 0
                || lines[i].last() != '\r'),
    ensures
        lines_of(concatenated(Seq::new(lines.len(), |i: int| lines[i].push('\n')))) == lines,
        lines_of(concatenated(Seq::new(lines.len(), |i: int| lines[i].push('\r').push('\n'))))
            == lines,
{
    let lf = Seq::new(lines.len(), |i: int| lines[i].push('\n'));
    let crlf = Seq::new(lines.len(), |i: int| lines[i].push('\r').push('\n'));
    assert forall|i: int| 0 <= i < lf.len() implies (#[trigger] lf[i]).len() > 0 && lf[i].last()
        == '\n' && !lf[i].drop_last().contains('\n') by {
        assert(lf[i].drop_last() =~= lines[i]);
    }
    assert forall|i: int| 0 <= i < crlf.len() implies (#[trigger] crlf[i]).len() > 0
        && crlf[i].last() == '\n' && !crlf[i].drop_last().contains('\n') by {
        assert(crlf[i].drop_last() =~= lines[i].push('\r'));
        assert forall|k: int| 0 <= k < lines[i].push('\r').len() implies lines[i].push('\r')[k]
            != '\n' by {
            if k < lines[i].len() {
                assert(lines[i][k] != '\n');
            }
        }
    }
    lemma_segments_of_lines(lf, 0);
    lemma_segments_of_lines(crlf, 0);
    assert(lf.take(0) =~= Seq::empty() && crlf.take(0) =~= Seq::empty());
    assert(lf.skip(0) =~= lf && crlf.skip(0) =~= crlf);
    lemma_segments_are_lines(concatenated(lf), 0);
    lemma_segments_are_lines(concatenated(crlf), 0);
    assert forall|i: int| 0 <= i < lines.len() implies without_end(lf[i]) == #[trigger] lines[i] by {
        assert(lf[i].drop_last() =~= lines[i]);
    }
    assert forall|i: int| 0 <= i < lines.len() implies without_end(crlf[i])
        == #[trigger] lines[i] by {
        assert(crlf[i].drop_last() =~= lines[i].push('\r'));
        assert(lines[i].push('\r').drop_last() =~= lines[i]);
    }
    assert(lines_of(concatenated(lf)) =~= lines);
    assert(lines_of(concatenated(crlf)) =~= lines);
}

/// A last line without a newline behind it is a line too.
pub proof fn law_a_last_line_needs_no_newline(s: Seq<char>, last: Seq<char>)
    requires
        s.len() > 0 ==> s.last() == '\n',
        last.len() > 0,
        !last.contains('\n'),
    ensures
        lines_of(s + last) == lines_of(s).push(last),
{
    lemma_last_line(s, last, 0);
}

proof fn lemma_last_line(s: Seq<char>, last: Seq<char>, from: int)
    requires
        s.len() > 0 ==> s.last() == '\n',
        last.len() > 0,
        !last.contains('\n'),
        0 <= from <= s.len(),
    ensures
        lines_from(s + last, from) == lines_from(s, from).push(last),
    decreases s.len() - from,
{
    let all = s + last;
    lemma_next_at(all, '\n', from);
    if from == s.len() {
        let e = next_at(all, '\n', from);
        if e < all.len() {
            assert(last[e - from] == '\n');
        }
        assert(all.subrange(from, e) =~= last);
        assert(lines_from(all, from) =~= seq![last]);
        assert(lines_from(s, from).push(last) =~= seq![last]);
    } else {
        lemma_next_at(s, '\n', from);
        let e = next_at(s, '\n', from);
        assert(e < s.len()) by {
            assert(s[s.len() - 1] == '\n');
        }
        let d = next_at(all, '\n', from);
        assert(d == e) by {
            assert(all[e] == '\n');
            if d < e {
                assert(s[d] == all[d]);
            }
        }
        assert(all.subrange(from, e) =~= s.subrange(from, e));
        lemma_last_line(s, last, e + 1);
        assert(lines_from(all, from) =~= lines_from(s, from).push(last));
    }
}

proof fn lemma_digit(d: nat)
    requires
        d < 10,
    ensures
        is_digit(digit_char(d)),
        (digit_char(d) as u32 - '0' as u32) == d,
{
}

/// A number in decimal holds digits alone and spells the number.
pub proof fn law_decimals_spell_their_number(n: nat)
    ensures
        decimal(n).len() > 0,
        forall|i: int| 0 <= i < decimal(n).len() ==> '0' <= #[trigger] decimal(n)[i] <= '9',
        digits_value(decimal(n)) == n,
        n > 0 ==> decimal(n)[0] != '0',
        n <= u32::MAX ==> u32_value(decimal(n)) == Some(n as u32),
    decreases n,
{
    if n < 10 {
        lemma_digit(n);
        assert(decimal(n).drop_last() =~= Seq::empty());
        assert(digits_value(Seq::empty()) == 0);
    } else {
        law_decimals_spell_their_number(n / 10);
        lemma_digit(n % 10);
        assert(decimal(n).drop_last() =~= decimal(n / 10));
        assert forall|i: int| 0 <= i < decimal(n).len() implies '0' <= #[trigger] decimal(n)[i]
            <= '9' by {
            if i < decimal(n / 10).len() {
                assert(decimal(n)[i] == decimal(n / 10)[i]);
            }
        }
        assert(decimal(n)[0] == decimal(n / 10)[0]);
    }
    assert(all_digits(decimal(n)));
    assert(decimal(n)[0] != '+');
}

/// The value of digits is that of place notation: one more digit counts the others tenfold.
pub proof fn law_a_digit_more_counts_the_others_tenfold(s: Seq<char>, d: nat)
    requires
        d < 10,
    ensures
        digits_value(s.push(('0' as u32 + d) as char)) == digits_value(s) * 10 + d,
{
    lemma_digit(d);
    assert(s.push(digit_char(d)).drop_last() =~= s);
}

/// Trimming takes white space off both ends, and nothing else.
pub proof fn law_trimming_takes_off_white_space(s: Seq<char>) -> (r: (int, int))
    ensures
        0 <= r.0 <= r.1 <= s.len(),
        trimmed(s) == s.subrange(r.0, r.1),
        forall|i: int| 0 <= i < r.0 || r.1 <= i < s.len() ==> is_white(#[trigger] s[i]),
        trimmed(s).len() > 0 ==> !is_white(trimmed(s)[0]) && !is_white(trimmed(s).last()),
{
    let n = lemma_trim_end(s);
    let t = s.take(n);
    let m = lemma_trim_start(t);
    assert(t.skip(m) =~= s.subrange(m, n));
    assert forall|i: int| 0 <= i < m || n <= i < s.len() implies is_white(#[trigger] s[i]) by {
        if i < m {
            assert(t[i] == s[i]);
        }
    }
    (m, n)
}

proof fn lemma_trim_end(s: Seq<char>) -> (n: int)
    ensures
        0 <= n <= s.len(),
        trimmed_end(s) == s.take(n),
        forall|i: int| n <= i < s.len() ==> is_white(#[trigger] s[i]),
        n > 0 ==> !is_white(s[n - 1]),
    decreases s.len(),
{
    if s.len() > 0 && is_white(s.last()) {
        let t = s.drop_last();
        let n = lemma_trim_end(t);
        assert(t.take(n) =~= s.take(n));
        assert forall|i: int| n <= i < s.len() implies is_white(#[trigger] s[i]) by {
            if i < t.len() {
                assert(t[i] == s[i]);
            }
        }
        if n > 0 {
            assert(t[n - 1] == s[n - 1]);
        }
        n
    } else {
        assert(s.take(s.len() as int) =~= s);
        s.len() as int
    }
}

proof fn lemma_trim_start(s: Seq<char>) -> (n: int)
    ensures
        0 <= n <= s.len(),
        trimmed_start(s) == s.skip(n),
        forall|i: int| 0 <= i < n ==> is_white(#[trigger] s[i]),
        n < s.len() ==> !is_white(s[n]),
    decreases s.len(),
{
    if s.len() > 0 && is_white(s[0]) {
        let t = s.drop_first();
        let n = lemma_trim_start(t);
        assert(t.skip(n) =~= s.skip(n + 1));
        assert forall|i: int| 0 <= i < n + 1 implies is_white(#[trigger] s[i]) by {
            if i > 0 {
                assert(t[i - 1] == s[i]);
            }
        }
        if n < t.len() {
            assert(t[n] == s[n + 1]);
        }
        n + 1
    } else {
        assert(s.skip(0) =~= s);
        0
    }
}

proof fn lemma_next_white_same(s: Seq<char>, all: Seq<char>, w: bool, from: int)
    requires
        0 <= from <= s.len() <= all.len(),
        s == all.take(s.len() as int),
    ensures
        next_white(s, w, from) < s.len() ==> next_white(all, w, from) == next_white(s, w, from),
        next_white(s, w, from) == s.len() ==> next_white(all, w, from) == next_white(
            all,
            w,
            s.len() as int,
        ),
    decreases s.len() - from,
{
    if from < s.len() {
        assert(all[from] == s[from]);
        if is_white(s[from]) != w {
            lemma_next_white_same(s, all, w, from + 1);
        }
    }
}

proof fn lemma_one_more_word(s: Seq<char>, c: char, w: Seq<char>, from: int)
    requires
        is_white(c),
        w.len() > 0,
        forall|i: int| 0 <= i < w.len() ==> !is_white(#[trigger] w[i]),
        0 <= from <= s.len(),
    ensures
        words_from(s.push(c) + w, from) == words_from(s, from).push(w),
    decreases s.len() - from,
{
    let all = s.push(c) + w;
    let n = s.len() as int;
    assert(all.take(n) =~= s);
    lemma_next_white(s, false, from);
    lemma_next_white_same(s, all, false, from);
    let b = next_white(s, false, from);
    if b == n {
        assert(all[n] == c && all[n + 1] == w[0]);
        assert(next_white(all, false, n + 1) == n + 1);
        assert(next_white(all, false, n) == n + 1);
        lemma_next_white(all, true, n + 1);
        let e = next_white(all, true, n + 1);
        if e < all.len() {
            assert(all[e] == w[e - n - 1]);
        }
        assert(all.subrange(n + 1, e) =~= w);
        assert(next_white(all, false, all.len() as int) == all.len());
        assert(words_from(all, all.len() as int) =~= Seq::empty());
        assert(words_from(all, from) =~= seq![w]);
        assert(words_from(s, from).push(w) =~= seq![w]);
    } else {
        lemma_next_white(s, true, b);
        lemma_next_white_same(s, all, true, b);
        let e = next_white(s, true, b);
        if e == n {
            assert(all[n] == c);
            assert(next_white(all, true, n) == n);
        }
        assert(next_white(all, true, b) == e);
        assert(e > b) by {
            if e == b {
                assert(is_white(s[b]));
            }
        }
        lemma_one_more_word(s, c, w, e);
        assert(all.subrange(b, e) =~= s.subrange(b, e));
        assert(words_from(all, from) =~= words_from(s, from).push(w));
    }
}

/// White space separates words: with one more word behind white space, a text has that word more.
/// A text of white space alone has no words.
pub proof fn law_white_space_separates_words(s: Seq<char>, c: char, w: Seq<char>)
    requires
        is_white(c),
        w.len() > 0,
        forall|i: int| 0 <= i < w.len() ==> !is_white(#[trigger] w[i]),
    ensures
        words_of(s.push(c) + w) == words_of(s).push(w),
        words_of(w) == seq![w],
        is_blank(s) ==> words_of(s).len() == 0,
{
    lemma_one_more_word(s, c, w, 0);
    assert(!is_white(w[0]));
    assert(next_white(w, false, 0) == 0);
    lemma_next_white(w, true, 0);
    let e = next_white(w, true, 0);
    assert(e == w.len());
    assert(w.subrange(0, e) =~= w);
    assert(next_white(w, false, e) == e);
    assert(words_from(w, e) =~= Seq::empty());
    assert(words_of(w) =~= seq![w]);
    if is_blank(s) {
        lemma_next_white(s, false, 0);
    }
}

/// Joining puts the separator between each two neighbours.
pub proof fn law_joining_puts_the_separator_between(
    parts: Seq<Seq<char>>,
    p: Seq<char>,
    sep: Seq<char>,
)
    ensures
        joined(Seq::<Seq<char>>::empty(), sep) == Seq::<char>::empty(),
        joined(seq![p], sep) == p,
        parts.len() > 0 ==> joined(parts.push(p), sep) == joined(parts, sep) + sep + p,
{
    assert(parts.push(p).drop_last() =~= parts);
}

/// A newline stands at the end of a segment, and nowhere else in it.
pub proof fn lemma_segments_hold_one_line(s: Seq<char>, from: int)
    requires
        0 <= from <= s.len(),
    ensures
        forall|k: int, i: int|
            0 <= k < segments_from(s, from).len() && 0 <= i < segments_from(s, from)[k].len() - 1
                ==> #[trigger] segments_from(s, from)[k][i] != '\n',
    decreases s.len() - from,
{
    if from < s.len() {
        lemma_next_at(s, '\n', from);
        let e = next_at(s, '\n', from);
        let all = segments_from(s, from);
        if e < s.len() {
            lemma_segments_hold_one_line(s, e + 1);
        }
        assert forall|k: int, i: int|
            0 <= k < all.len() && 0 <= i < all[k].len() - 1 implies #[trigger] all[k][i]
            != '\n' by {
            if k == 0 {
                assert(all[0][i] == s[from + i]);
            } else {
                assert(all[k] == segments_from(s, e + 1)[k - 1]);
                assert(segments_from(s, e + 1)[k - 1][i] != '\n');
            }
        }
    }
}

/// Padding brings a text to the width with blanks, on one side of it, and never cuts it.
pub proof fn law_padding_brings_a_text_to_the_width(s: Seq<char>, width: nat)
    ensures
        s.len() >= width ==> padded_right(s, width) == s && padded_left(s, width) == s,
        s.len() < width ==> padded_right(s, width) == s + repeated(
            ' ',
            (width - s.len()) as nat,
        ) && padded_left(s, width) == repeated(' ', (width - s.len()) as nat) + s,
        padded_right(s, width).len() == padded_left(s, width).len(),
        padded_right(s, width).len() >= width,
{
}

/// A repeated character stands at every place.
pub proof fn law_repeating_gives_copies(c: char, n: nat, i: int)
    requires
        0 <= i < n,
    ensures
        repeated(c, n).len() == n,
        repeated(c, n)[i] == c,
{
}

/// A negative number stands behind a minus sign.
pub proof fn law_negative_numbers_have_a_minus_sign(n: nat)
    ensures
        signed_decimal(n as int) == decimal(n),
        n > 0 ==> signed_decimal(-n) == seq!['-'] + decimal(n),
{
}

/// Every leading copy goes, and nothing else.
pub proof fn law_leading_copies_are_removed(s: Seq<char>, p: Seq<char>)
    requires
        p.len() > 0,
    ensures
        without_leading(p + s, p) == without_leading(s, p),
        !begins_with(without_leading(s, p), p),
        !begins_with(s, p) ==> without_leading(s, p) == s,
    decreases s.len(),
{
    assert((p + s).subrange(0, p.len() as int) =~= p);
    assert((p + s).skip(p.len() as int) =~= s);
    if begins_with(s, p) {
        law_leading_copies_are_removed(s.skip(p.len() as int), p);
    }
}

/// A text that is joined of parts holds each of them.
pub proof fn law_joined_texts_hold_their_parts(parts: Seq<Seq<char>>, sep: Seq<char>, i: int)
    requires
        0 <= i < parts.len(),
    ensures
        contains_text(joined(parts, sep), parts[i]),
    decreases parts.len(),
{
    let all = joined(parts, sep);
    if parts.len() == 1 {
        assert(all.subrange(0, all.len() as int) =~= all);
        assert(occurs_at(all, parts[i], 0));
    } else {
        let front = joined(parts.drop_last(), sep);
        if i == parts.len() - 1 {
            let k = front.len() + sep.len();
            assert(all.subrange(k as int, (k + parts[i].len()) as int) =~= parts[i]);
            assert(occurs_at(all, parts[i], k as int));
        } else {
            law_joined_texts_hold_their_parts(parts.drop_last(), sep, i);
            let k = choose|k: int| occurs_at(front, parts.drop_last()[i], k);
            assert(all.subrange(k, k + parts[i].len()) =~= front.subrange(
                k,
                k + parts[i].len(),
            ));
            assert(occurs_at(all, parts[i], k));
        }
    }
}

/// What a part of a text holds, the text holds.
pub proof fn lemma_contains_within(a: Seq<char>, s: Seq<char>, b: Seq<char>, p: Seq<char>)
    requires
        contains_text(s, p),
    ensures
        contains_text(a + s + b, p),
{
    let k = choose|k: int| occurs_at(s, p, k);
    let all = a + s + b;
    assert(all.subrange(a.len() + k, a.len() + k + p.len()) =~= s.subrange(k, k + p.len()));
    assert(occurs_at(all, p, a.len() + k));
}

/// A part of a text stands in it.
pub proof fn lemma_contains_between(a: Seq<char>, p: Seq<char>, b: Seq<char>)
    ensures
        contains_text(a + p + b, p),
{
    let all = a + p + b;
    assert(all.subrange(a.len() as int, (a.len() + p.len()) as int) =~= p);
    assert(occurs_at(all, p, a.len() as int));
}

/// White space is the tab to the carriage return, the blank, the next line, the no-break space,
/// and the blanks, separators and wide spaces of other scripts.
pub proof fn law_white_space_is_that_of_unicode(c: char)
    ensures
        is_white(c) <==> seq![
            0x9u32,
            0xa,
            0xb,
            0xc,
            0xd,
            0x20,
            0x85,
            0xa0,
            0x1680,
            0x2000,
            0x2001,
            0x2002,
            0x2003,
            0x2004,
            0x2005,
            0x2006,
            0x2007,
            0x2008,
            0x2009,
            0x200a,
            0x2028,
            0x2029,
            0x202f,
            0x205f,
            0x3000,
        ].contains(c as u32),
{
    let all = seq![
        0x9u32,
        0xa,
        0xb,
        0xc,
        0xd,
        0x20,
        0x85,
        0xa0,
        0x1680,
        0x2000,
        0x2001,
        0x2002,
        0x2003,
        0x2004,
        0x2005,
        0x2006,
        0x2007,
        0x2008,
        0x2009,
        0x200a,
        0x2028,
        0x2029,
        0x202f,
        0x205f,
        0x3000,
    ];
    let n = c as u32;
    if is_white(c) {
        let i: int = if n <= 0xd {
            n - 0x9
        } else if n == 0x20 {
            5
        } else if n == 0x85 {
            6
        } else if n == 0xa0 {
            7
        } else if n == 0x1680 {
            8
        } else if n <= 0x200a {
            9 + (n - 0x2000)
        } else if n == 0x2028 {
            20
        } else if n == 0x2029 {
            21
        } else if n == 0x202f {
            22
        } else if n == 0x205f {
            23
        } else {
            24
        };
        assert(all[i] == n);
    }
}

/// Digits spell a number where it fits, with a plus sign in front or without. A text with any
/// other character, or without a digit, spells none.
pub proof fn law_only_digits_spell_a_number(s: Seq<char>, i: int)
    ensures
        s.len() > 0 && all_digits(s) && digits_value(s) <= u32::MAX ==> u32_value(s) == Some(
            digits_value(s) as u32,
        ) && u32_value(seq!['+'] + s) == Some(digits_value(s) as u32),
        s.len() == 0 ==> u32_value(s) is None && u32_value(seq!['+'] + s) is None,
        0 < i < s.len() && !('0' <= s[i] <= '9') ==> u32_value(s) is None,
        0 <= i < s.len() && !('0' <= s[i] <= '9') && s[i] != '+' ==> u32_value(s) is None,
        0 <= i < s.len() && !('0' <= s[i] <= '9') ==> u32_value(seq!['+'] + s) is None,
        all_digits(s) && digits_value(s) > u32::MAX ==> u32_value(s) is None,
{
    let plus = seq!['+'] + s;
    assert(plus.drop_first() =~= s);
    if s.len() > 0 {
        assert(is_digit('0') && !is_digit('+'));
        if all_digits(s) {
            assert(is_digit(s[0]));
        }
    }
    if 0 <= i < s.len() && !('0' <= s[i] <= '9') {
        assert(!is_digit(s[i]));
        if s[0] == '+' && i > 0 {
            assert(s.drop_first()[i - 1] == s[i]);
        }
    }
}

/// Texts are listed one by one.
pub proof fn law_texts_are_listed_one_by_one(v: Seq<String>, i: int)
    requires
        0 <= i < v.len(),
    ensures
        views(v).len() == v.len(),
        views(v)[i] == v[i]@,
{
}

/// The segments of a text make it up, and there is one for each line.
pub proof fn law_segments_make_up_the_text(s: Seq<char>)
    ensures
        concatenated(segments_of(s)) == s,
        segments_of(s).len() == lines_of(s).len(),
{
    lemma_segments_make_up_the_text(s, 0);
    lemma_segments_are_lines(s, 0);
    assert(s.subrange(0, s.len() as int) =~= s);
}

/// A text ends with what was put behind it, and with nothing else of that length.
pub proof fn law_a_text_ends_with_what_stands_last(s: Seq<char>, p: Seq<char>, q: Seq<char>)
    ensures
        finishes_with(s + p, p),
        begins_with(p + s, p),
        finishes_with(s + p, q) && q.len() == p.len() ==> q == p,
        begins_with(p + s, q) && q.len() == p.len() ==> q == p,
        finishes_with(s, p) ==> p.len() <= s.len(),
{
    assert((s + p).subrange(s.len() as int, (s + p).len() as int) =~= p);
    assert((p + s).subrange(0, p.len() as int) =~= p);
}

/// A text is blank where nothing is left of it without white space.
pub proof fn law_blank_texts_are_white_space_alone(s: Seq<char>, i: int)
    ensures
        is_blank(Seq::empty()),
        is_blank(s) && 0 <= i < s.len() ==> is_white(s[i]),
        (forall|k: int| 0 <= k < s.len() ==> is_white(#[trigger] s[k])) ==> is_blank(s),
{
}

} // verus!
