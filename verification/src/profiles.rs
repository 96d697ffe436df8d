//! Profile names in configuration text.
//!
//! A line that is a name in square brackets opens a section. The name of
//! the section, without the blanks around it and without the word
//! `profile` in front of it, is the name of a profile.

use vstd::prelude::*;
use vstd::string::*;
use crate::costs::with_key;
use crate::periods::{holds_text, texts};

verus! {

/// Whether `c` is white space.
pub open spec fn is_blank(c: char) -> bool {
    ||| c == ' '
    ||| '\t' <= c <= '\r'
    ||| c == '\u{85}'
    ||| c == '\u{a0}'
    ||| c == '\u{1680}'
    ||| '\u{2000}' <= c <= '\u{200a}'
    ||| c == '\u{2028}'
    ||| c == '\u{2029}'
    ||| c == '\u{202f}'
    ||| c == '\u{205f}'
    ||| c == '\u{3000}'
}

/// The word that may stand in front of a profile's name.
pub open spec fn profile_word() -> Seq<char> {
    seq!['p', 'r', 'o', 'f', 'i', 'l', 'e', ' ']
}

/// The number of blanks that `s` starts with.
pub open spec fn blanks_in_front(s: Seq<char>) -> nat
    decreases s.len(),
{
    if s.len() > 0 && is_blank(s[0]) {
        1 + blanks_in_front(s.drop_first())
    } else {
        0
    }
}

/// The length of `s` without the blanks that it ends with.
pub open spec fn length_before_blanks(s: Seq<char>) -> nat
    decreases s.len(),
{
    if s.len() > 0 && is_blank(s.last()) {
        length_before_blanks(s.drop_last())
    } else {
        s.len()
    }
}

/// `s` without the blanks around it.
pub open spec fn trimmed(s: Seq<char>) -> Seq<char> {
    if blanks_in_front(s) >= length_before_blanks(s) {
        Seq::empty()
    } else {
        s.subrange(blanks_in_front(s) as int, length_before_blanks(s) as int)
    }
}

/// `s` without any of the copies of `prefix` that it starts with.
pub open spec fn trimmed_start(s: Seq<char>, prefix: Seq<char>) -> Seq<char>
    decreases s.len(),
{
    if prefix.len() > 0 && s.len() >= prefix.len() && s.take(prefix.len() as int) == prefix {
        trimmed_start(s.skip(prefix.len() as int), prefix)
    } else {
        s
    }
}

/// The profile that `line` names, if it opens a section.
pub open spec fn section_name(line: Seq<char>) -> Option<Seq<char>> {
    if line.len() >= 2 && line[0] == '[' && line.last() == ']' {
        Some(trimmed_start(trimmed(line.subrange(1, line.len() - 1)), profile_word()))
    } else {
        None
    }
}

/// The position of the first line feed of `s`; its length where it has none.
pub open spec fn line_stop(s: Seq<char>) -> nat
    decreases s.len(),
{
    if s.len() == 0 || s[0] == '\n' {
        0
    } else {
        1 + line_stop(s.drop_first())
    }
}

/// Where the first line of `s` ends: before its line feed, and before a
/// carriage return in front of that.
pub open spec fn line_end(s: Seq<char>) -> int {
    let k = line_stop(s) as int;
    if 0 < k < s.len() && s[k - 1] == '\r' {
        k - 1
    } else {
        k
    }
}

/// What follows the first line of `s`.
pub open spec fn after_line(s: Seq<char>) -> Seq<char> {
    if line_stop(s) < s.len() {
        s.skip(line_stop(s) as int + 1)
    } else {
        Seq::empty()
    }
}

/// `seen` extended by the profiles that the lines of `s` name, each once,
/// in the order of their first line.
pub open spec fn names_in(s: Seq<char>, seen: Seq<Seq<char>>) -> Seq<Seq<char>>
    decreases s.len(),
{
    if s.len() == 0 {
        seen
    } else {
        names_in(
            after_line(s),
            match section_name(s.take(line_end(s))) {
                Some(name) => with_key(seen, name),
                None => seen,
            },
        )
    }
}

/// Where the first line feed stands, given how far `s` holds none.
pub proof fn lemma_line_stop(s: Seq<char>, q: int)
    requires
        0 <= q <= s.len(),
        forall|j: int| 0 <= j < q ==> #[trigger] s[j] != '\n',
        q == s.len() || s[q] == '\n',
    ensures
        line_stop(s) == q,
    decreases q,
{
    if q > 0 {
        let rest = s.drop_first();
        assert(s[0] != '\n');
        assert forall|j: int| 0 <= j < q - 1 implies #[trigger] rest[j] != '\n' by {
            assert(rest[j] == s[j + 1]);
        }
        if q < s.len() {
            assert(rest[q - 1] == s[q]);
        }
        lemma_line_stop(rest, q - 1);
    }
}

/// How many blanks `s` starts with, given where its first other character stands.
pub proof fn lemma_blanks_in_front(s: Seq<char>, q: int)
    requires
        0 <= q <= s.len(),
        forall|j: int| 0 <= j < q ==> is_blank(#[trigger] s[j]),
        q == s.len() || !is_blank(s[q]),
    ensures
        blanks_in_front(s) == q,
    decreases q,
{
    if q > 0 {
        let rest = s.drop_first();
        assert(is_blank(s[0]));
        assert forall|j: int| 0 <= j < q - 1 implies is_blank(#[trigger] rest[j]) by {
            assert(rest[j] == s[j + 1]);
        }
        if q < s.len() {
            assert(rest[q - 1] == s[q]);
        }
        lemma_blanks_in_front(rest, q - 1);
    }
}

/// How long `s` is without its last blanks, given where its last other character stands.
pub proof fn lemma_length_before_blanks(s: Seq<char>, q: int)
    requires
        0 <= q <= s.len(),
        forall|j: int| q <= j < s.len() ==> is_blank(#[trigger] s[j]),
        q == 0 || !is_blank(s[q - 1]),
    ensures
        length_before_blanks(s) == q,
    decreases s.len(),
{
    if q < s.len() {
        let front = s.drop_last();
        assert(is_blank(s[s.len() - 1]));
        assert forall|j: int| q <= j < front.len() implies is_blank(#[trigger] front[j]) by {
            assert(front[j] == s[j]);
        }
        if q > 0 {
            assert(front[q - 1] == s[q - 1]);
        }
        lemma_length_before_blanks(front, q);
    }
}

/// Both bounds of trimming lie within `s`.
pub proof fn lemma_trim_range(s: Seq<char>)
    ensures
        blanks_in_front(s) <= s.len(),
        length_before_blanks(s) <= s.len(),
    decreases s.len(),
{
    if s.len() > 0 {
        lemma_trim_range(s.drop_first());
        lemma_trim_range(s.drop_last());
    }
}

/// The characters of `text`.
pub fn chars_of(text: &str) -> (chars: Vec<char>)
    ensures
        chars@ == text@,
{
    let mut chars: Vec<char> = Vec::new();
    for c in it: text.chars()
        invariant
            it.seq() == text@,
            chars@ == text@.take(it.index()),
    {
        let ghost held = chars@;
        chars.push(c);
        proof {
            assert(chars@ =~= text@.take(it.index() + 1));
        }
    }
    proof {
        assert(text@.take(text@.len() as int) =~= text@);
    }
    chars
}

/// Whether `c` is white space.
pub fn blank(c: char) -> (b: bool)
    ensures
        b == is_blank(c),
{
    c == ' ' || ('\t' <= c && c <= '\r') || c == '\u{85}' || c == '\u{a0}' || c == '\u{1680}' || (
    '\u{2000}' <= c && c <= '\u{200a}') || c == '\u{2028}' || c == '\u{2029}' || c == '\u{202f}'
        || c == '\u{205f}' || c == '\u{3000}'
}

/// The position of the first line feed from `from` on; the length where there is none.
pub fn line_break(chars: &Vec<char>, from: usize) -> (k: usize)
    requires
        from <= chars@.len(),
    ensures
        from <= k <= chars@.len(),
        k - from == line_stop(chars@.skip(from as int)),
{
    let mut k: usize = from;
    while k < chars.len() && chars[k] != '\n'
        invariant
            from <= k <= chars@.len(),
            forall|j: int| from <= j < k ==> #[trigger] chars@[j] != '\n',
        decreases chars@.len() - k,
    {
        k += 1;
    }
    proof {
        let s = chars@.skip(from as int);
        assert forall|j: int| 0 <= j < k - from implies #[trigger] s[j] != '\n' by {
            assert(s[j] == chars@[from + j]);
        }
        lemma_line_stop(s, k - from);
    }
    k
}

/// The bounds of what stands between `lo` and `hi` without the blanks around it.
pub fn trim_bounds(chars: &Vec<char>, lo: usize, hi: usize) -> (r: (usize, usize))
    requires
        lo <= hi <= chars@.len(),
    ensures
        lo <= r.0 <= r.1 <= hi,
        chars@.subrange(r.0 as int, r.1 as int) == trimmed(chars@.subrange(lo as int, hi as int)),
{
    let ghost s = chars@.subrange(lo as int, hi as int);
    let mut a: usize = lo;
    while a < hi && blank(chars[a])
        invariant
            lo <= a <= hi <= chars@.len(),
            forall|j: int| lo <= j < a ==> is_blank(#[trigger] chars@[j]),
        decreases hi - a,
    {
        a += 1;
    }
    let mut b: usize = hi;
    while b > a && blank(chars[b - 1])
        invariant
            a <= b <= hi <= chars@.len(),
            forall|j: int| b <= j < hi ==> is_blank(#[trigger] chars@[j]),
        decreases b,
    {
        b -= 1;
    }
    proof {
        assert forall|j: int| 0 <= j < a - lo implies is_blank(#[trigger] s[j]) by {
            assert(s[j] == chars@[lo + j]);
        }
        lemma_blanks_in_front(s, a - lo);
        lemma_trim_range(s);
        if a < hi {
            assert(s[a - lo] == chars@[a as int]);
            assert(b > a);
            assert forall|j: int| b - lo <= j < s.len() implies is_blank(#[trigger] s[j]) by {
                assert(s[j] == chars@[lo + j]);
            }
            assert(s[b - lo - 1] == chars@[b - 1]);
            lemma_length_before_blanks(s, b - lo);
            assert(s.subrange(a - lo, b - lo) =~= chars@.subrange(a as int, b as int));
        } else {
            assert(chars@.subrange(a as int, b as int) =~= Seq::<char>::empty());
        }
    }
    (a, b)
}

/// Whether the word `profile` and a blank stand at `at`.
pub fn word_at(chars: &Vec<char>, at: usize, hi: usize) -> (found: bool)
    requires
        at <= hi <= chars@.len(),
    ensures
        found == (hi - at >= 8 && chars@.subrange(at as int, at + 8) == profile_word()),
{
    if hi - at < 8 {
        return false;
    }
    let found = chars[at] == 'p' && chars[at + 1] == 'r' && chars[at + 2] == 'o' && chars[at + 3]
        == 'f' && chars[at + 4] == 'i' && chars[at + 5] == 'l' && chars[at + 6] == 'e' && chars[at
        + 7] == ' ';
    proof {
        let w = chars@.subrange(at as int, at + 8);
        if found {
            assert(w =~= profile_word());
        } else {
            assert(w[0] == chars@[at as int]);
            assert(w[1] == chars@[at + 1]);
            assert(w[2] == chars@[at + 2]);
            assert(w[3] == chars@[at + 3]);
            assert(w[4] == chars@[at + 4]);
            assert(w[5] == chars@[at + 5]);
            assert(w[6] == chars@[at + 6]);
            assert(w[7] == chars@[at + 7]);
        }
    }
    found
}

/// The bounds of the profile's name in the line between `lo` and `hi`, if
/// the line opens a section.
pub fn section_bounds(chars: &Vec<char>, lo: usize, hi: usize) -> (r: Option<(usize, usize)>)
    requires
        lo <= hi <= chars@.len(),
    ensures
        match r {
            Some((a, b)) => lo <= a <= b <= hi && section_name(chars@.subrange(lo as int, hi as int))
                == Some(chars@.subrange(a as int, b as int)),
            None => section_name(chars@.subrange(lo as int, hi as int)) is None,
        },
{
    let ghost line = chars@.subrange(lo as int, hi as int);
    if hi - lo < 2 {
        return None;
    }
    proof {
        assert(line[0] == chars@[lo as int]);
        assert(line.last() == chars@[hi - 1]);
    }
    if chars[lo] != '[' || chars[hi - 1] != ']' {
        return None;
    }
    let (first, b) = trim_bounds(chars, lo + 1, hi - 1);
    let mut a: usize = first;
    let ghost inner = chars@.subrange(first as int, b as int);
    proof {
        assert(line.subrange(1, line.len() - 1) =~= chars@.subrange(lo + 1, hi - 1));
    }
    while word_at(chars, a, b)
        invariant
            first <= a <= b <= chars@.len(),
            trimmed_start(inner, profile_word()) == trimmed_start(
                chars@.subrange(a as int, b as int),
                profile_word(),
            ),
        decreases b - a,
    {
        proof {
            let s = chars@.subrange(a as int, b as int);
            assert(s.take(8) =~= chars@.subrange(a as int, a + 8));
            assert(s.skip(8) =~= chars@.subrange(a + 8, b as int));
        }
        a += 8;
    }
    proof {
        let s = chars@.subrange(a as int, b as int);
        if s.len() >= 8 {
            assert(s.take(8) =~= chars@.subrange(a as int, a + 8));
        }
    }
    Some((a, b))
}

/// Appends to `names` the profiles that `content` names and `names` does not hold yet.
pub fn profile_names(content: &str, names: &mut Vec<String>)
    ensures
        texts(final(names)@) == names_in(content@, texts(old(names)@)),
{
    let chars = chars_of(content);
    let n = chars.len();
    let mut pos: usize = 0;
    proof {
        assert(content@.skip(0) =~= content@);
    }
    while pos < n
        invariant
            chars@ == content@,
            n == chars@.len(),
            pos <= n,
            names_in(content@, texts(old(names)@)) == names_in(
                content@.skip(pos as int),
                texts(names@),
            ),
        decreases n - pos,
    {
        let ghost s = content@.skip(pos as int);
        let k = line_break(&chars, pos);
        let end: usize = if pos < k && k < n && chars[k - 1] == '\r' {
            k - 1
        } else {
            k
        };
        proof {
            if 0 < k - pos && k < n {
                assert(s[k - pos - 1] == chars@[k - 1]);
            }
            assert(line_end(s) == end - pos);
            assert(s.take(end - pos) =~= chars@.subrange(pos as int, end as int));
        }
        match section_bounds(&chars, pos, end) {
            Some((a, b)) => {
                let name = String::from_str(content.substring_char(a, b));
                if !holds_text(names, &name) {
                    let ghost held = texts(names@);
                    names.push(name);
                    proof {
                        assert(texts(names@) =~= held.push(name@));
                    }
                }
            },
            None => {},
        }
        proof {
            if k < n {
                assert(after_line(s) =~= content@.skip(k + 1));
            } else {
                assert(after_line(s) =~= content@.skip(n as int));
            }
        }
        pos = if k < n {
            k + 1
        } else {
            n
        };
    }
    proof {
        assert(content@.skip(n as int).len() == 0);
    }
}

/// The profiles that the configuration texts name, each once, in the order
/// of their first line.
pub open spec fn names_of(contents: Seq<String>) -> Seq<Seq<char>>
    decreases contents.len(),
{
    if contents.len() == 0 {
        Seq::empty()
    } else {
        names_in(contents.last()@, names_of(contents.drop_last()))
    }
}

/// Collects the profiles that the configuration texts name.
pub fn collect_profiles(contents: &Vec<String>) -> (names: Vec<String>)
    ensures
        texts(names@) == names_of(contents@),
{
    let mut names: Vec<String> = Vec::new();
    let mut i: usize = 0;
    proof {
        assert(contents@.take(0) =~= Seq::<String>::empty());
        assert(texts(names@) =~= Seq::<Seq<char>>::empty());
    }
    while i < contents.len()
        invariant
            i <= contents@.len(),
            texts(names@) == names_of(contents@.take(i as int)),
        decreases contents@.len() - i,
    {
        proof {
            assert(contents@.take(i + 1).drop_last() =~= contents@.take(i as int));
            assert(contents@.take(i + 1).last() == contents@[i as int]);
        }
        profile_names(contents[i].as_str(), &mut names);
        i += 1;
    }
    proof {
        assert(contents@.take(i as int) =~= contents@);
    }
    names
}

} // verus!
