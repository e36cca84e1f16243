//! Characters and strings as sequences of characters.

use vstd::prelude::*;

verus! {

/// `String::push`: the character becomes the last one of the string.
pub assume_specification[ String::push ](s: &mut String, c: char)
    ensures
        final(s)@ == old(s)@.push(c),
;

/// The sets of characters that the formats of this library are made of.
#[derive(Clone, Copy, Debug, PartialEq, Eq, Structural)]
pub enum CharClass {
    /// The Unicode property White_Space.
    WhiteSpace,
    /// A slash.
    Slash,
    /// A full stop.
    Dot,
    /// A space or a tab.
    Blank,
    /// An ASCII decimal digit.
    Digit,
    /// Anything but space, tab, carriage return and line feed.
    Token,
    /// Anything but space, tab, carriage return, line feed and slash.
    Label,
    /// Anything but a line feed.
    Line,
}

/// The characters with the Unicode property White_Space.
pub open spec fn white_space(c: char) -> bool {
    ||| '\u{9}' <= c <= '\u{d}'
    ||| c == '\u{20}'
    ||| c == '\u{85}'
    ||| c == '\u{a0}'
    ||| c == '\u{1680}'
    ||| '\u{2000}' <= c <= '\u{200a}'
    ||| c == '\u{2028}'
    ||| c == '\u{2029}'
    ||| c == '\u{202f}'
    ||| c == '\u{205f}'
    ||| c == '\u{3000}'
}

impl CharClass {
    /// The characters of the class.
    pub open spec fn contains(self, c: char) -> bool {
        match self {
            CharClass::WhiteSpace => white_space(c),
            CharClass::Slash => c == '/',
            CharClass::Dot => c == '.',
            CharClass::Blank => c == ' ' || c == '\t',
            CharClass::Digit => '0' <= c <= '9',
            CharClass::Token => !(c == ' ' || c == '\t' || c == '\r' || c == '\n'),
            CharClass::Label => !(c == ' ' || c == '\t' || c == '\r' || c == '\n' || c == '/'),
            CharClass::Line => c != '\n',
        }
    }

    /// Whether the class holds `c`.
    pub fn has(self, c: char) -> (r: bool)
        ensures
            r == self.contains(c),
    {
        match self {
            CharClass::WhiteSpace => {
                ('\u{9}' <= c && c <= '\u{d}') || c == '\u{20}' || c == '\u{85}' || c == '\u{a0}'
                    || c == '\u{1680}' || ('\u{2000}' <= c && c <= '\u{200a}') || c == '\u{2028}'
                    || c == '\u{2029}' || c == '\u{202f}' || c == '\u{205f}' || c == '\u{3000}'
            },
            CharClass::Slash => c == '/',
            CharClass::Dot => c == '.',
            CharClass::Blank => c == ' ' || c == '\t',
            CharClass::Digit => '0' <= c && c <= '9',
            CharClass::Token => !(c == ' ' || c == '\t' || c == '\r' || c == '\n'),
            CharClass::Label => !(c == ' ' || c == '\t' || c == '\r' || c == '\n' || c == '/'),
            CharClass::Line => c != '\n',
        }
    }
}

/// How many characters at the start of `s` belong to `class`.
pub open spec fn run(s: Seq<char>, class: CharClass) -> nat
    decreases s.len(),
{
    if s.len() > 0 && class.contains(s[0]) {
        1 + run(s.drop_first(), class)
    } else {
        0
    }
}

/// How many characters at the end of `s` belong to `class`.
pub open spec fn run_back(s: Seq<char>, class: CharClass) -> nat
    decreases s.len(),
{
    if s.len() > 0 && class.contains(s.last()) {
        1 + run_back(s.drop_last(), class)
    } else {
        0
    }
}

/// `s` without the characters of `class` at its start.
pub open spec fn trim_start(s: Seq<char>, class: CharClass) -> Seq<char> {
    s.skip(run(s, class) as int)
}

/// `s` without the characters of `class` at its end.
pub open spec fn trim_end(s: Seq<char>, class: CharClass) -> Seq<char> {
    s.take(s.len() - run_back(s, class))
}

/// `s` without the characters of `class` at either end.
pub open spec fn trim(s: Seq<char>, class: CharClass) -> Seq<char> {
    trim_end(trim_start(s, class), class)
}

/// The lower case form of an ASCII letter; any other character itself.
pub open spec fn lower(c: char) -> char {
    if 'A' <= c <= 'Z' {
        ((c as u8) + 32) as char
    } else {
        c
    }
}

/// `s` with its ASCII letters in lower case.
pub open spec fn lowered(s: Seq<char>) -> Seq<char> {
    s.map_values(|c: char| lower(c))
}

/// `s` begins with `tag`, whatever the case of the ASCII letters.
pub open spec fn starts_with_no_case(s: Seq<char>, tag: Seq<char>) -> bool {
    &&& tag.len() <= s.len()
    &&& lowered(s.take(tag.len() as int)) == lowered(tag)
}

/// What `run` counts is the longest such prefix.
pub proof fn lemma_run(s: Seq<char>, class: CharClass)
    ensures
        run(s, class) <= s.len(),
        forall|i: int| 0 <= i < run(s, class) ==> class.contains(#[trigger] s[i]),
        run(s, class) < s.len() ==> !class.contains(s[run(s, class) as int]),
    decreases s.len(),
{
    if s.len() > 0 && class.contains(s[0]) {
        let t = s.drop_first();
        lemma_run(t, class);
        assert forall|i: int| 0 <= i < run(s, class) implies class.contains(#[trigger] s[i]) by {
            if i > 0 {
                assert(s[i] == t[i - 1]);
            }
        }
        if run(s, class) < s.len() {
            assert(s[run(s, class) as int] == t[run(t, class) as int]);
        }
    }
}

/// Only `run` counts the longest such prefix.
pub proof fn lemma_run_is(s: Seq<char>, class: CharClass, n: int)
    requires
        0 <= n <= s.len(),
        forall|i: int| 0 <= i < n ==> class.contains(#[trigger] s[i]),
        n < s.len() ==> !class.contains(s[n]),
    ensures
        run(s, class) == n,
{
    lemma_run(s, class);
    let k = run(s, class) as int;
    if k < n {
        assert(class.contains(s[k]));
    } else if n < k {
        assert(class.contains(s[n]));
    }
}

/// A run is as long as what is in the class, where what follows it is not.
pub proof fn lemma_run_then(a: Seq<char>, b: Seq<char>, class: CharClass)
    requires
        forall|i: int| 0 <= i < a.len() ==> class.contains(#[trigger] a[i]),
        b.len() > 0 ==> !class.contains(b[0]),
    ensures
        run(a + b, class) == a.len(),
        (a + b).take(a.len() as int) == a,
        (a + b).skip(a.len() as int) == b,
{
    let s = a + b;
    assert forall|i: int| 0 <= i < a.len() implies class.contains(#[trigger] s[i]) by {
        assert(s[i] == a[i]);
    }
    lemma_run_is(s, class, a.len() as int);
    assert(s.take(a.len() as int) =~= a);
    assert(s.skip(a.len() as int) =~= b);
}

/// What `run_back` counts is the longest such suffix.
pub proof fn lemma_run_back(s: Seq<char>, class: CharClass)
    ensures
        run_back(s, class) <= s.len(),
        forall|i: int| s.len() - run_back(s, class) <= i < s.len() ==> class.contains(#[trigger] s[i]),
        run_back(s, class) < s.len() ==> !class.contains(s[s.len() - run_back(s, class) - 1]),
    decreases s.len(),
{
    if s.len() > 0 && class.contains(s.last()) {
        let t = s.drop_last();
        lemma_run_back(t, class);
        assert forall|i: int|
            s.len() - run_back(s, class) <= i < s.len() implies class.contains(#[trigger] s[i]) by {
            if i < s.len() - 1 {
                assert(s[i] == t[i]);
            }
        }
        if run_back(s, class) < s.len() {
            assert(s[s.len() - run_back(s, class) - 1] == t[t.len() - run_back(t, class) - 1]);
        }
    }
}

/// Only `run_back` counts the longest such suffix.
pub proof fn lemma_run_back_is(s: Seq<char>, class: CharClass, n: int)
    requires
        0 <= n <= s.len(),
        forall|i: int| s.len() - n <= i < s.len() ==> class.contains(#[trigger] s[i]),
        n < s.len() ==> !class.contains(s[s.len() - n - 1]),
    ensures
        run_back(s, class) == n,
{
    lemma_run_back(s, class);
    let k = run_back(s, class) as int;
    if k < n {
        assert(class.contains(s[s.len() - k - 1]));
    } else if n < k {
        assert(class.contains(s[s.len() - n - 1]));
    }
}

/// Characters of the class around a sequence are trimmed with those at its ends.
pub proof fn lemma_trim_padded(left: Seq<char>, s: Seq<char>, right: Seq<char>, class: CharClass)
    requires
        forall|i: int| 0 <= i < left.len() ==> class.contains(#[trigger] left[i]),
        forall|i: int| 0 <= i < right.len() ==> class.contains(#[trigger] right[i]),
    ensures
        trim((left + s) + right, class) == trim(s, class),
{
    let whole = (left + s) + right;
    lemma_run(s, class);
    let n = run(s, class) as int;
    if n == s.len() {
        assert forall|i: int| 0 <= i < whole.len() implies class.contains(#[trigger] whole[i]) by {
            if i < left.len() {
                assert(whole[i] == left[i]);
            } else if i < left.len() + s.len() {
                assert(whole[i] == s[i - left.len()]);
            } else {
                assert(whole[i] == right[i - left.len() - s.len()]);
            }
        }
        lemma_run_is(whole, class, whole.len() as int);
        assert(trim_start(whole, class) =~= trim_start(s, class));
    } else {
        assert forall|i: int| 0 <= i < left.len() + n implies class.contains(
            #[trigger] whole[i],
        ) by {
            if i < left.len() {
                assert(whole[i] == left[i]);
            } else {
                assert(whole[i] == s[i - left.len()]);
            }
        }
        assert(whole[left.len() + n] == s[n]);
        lemma_run_is(whole, class, left.len() + n);
        let t = trim_start(s, class);
        let u = trim_start(whole, class);
        assert(u =~= t + right);
        lemma_run_back(t, class);
        let m = run_back(t, class) as int;
        assert(t[0] == s[n]);
        assert forall|i: int| u.len() - (right.len() + m) <= i < u.len() implies class.contains(
            #[trigger] u[i],
        ) by {
            if i < t.len() {
                assert(u[i] == t[i]);
            } else {
                assert(u[i] == right[i - t.len()]);
            }
        }
        assert(u[t.len() - m - 1] == t[t.len() - m - 1]);
        lemma_run_back_is(u, class, right.len() + m);
        assert(trim_end(u, class) =~= trim_end(t, class));
    }
}

/// The characters of a string.
pub fn chars_of(s: &str) -> (r: Vec<char>)
    ensures
        r@ == s@,
{
    let mut r: Vec<char> = Vec::new();
    for c in it: s.chars()
        invariant
            it.seq() == s@,
            r@ == s@.take(it.index()),
    {
        r.push(c);
    }
    r
}

/// The string of the characters from `from` up to `to`.
pub fn string_of(chars: &Vec<char>, from: usize, to: usize) -> (r: String)
    requires
        from <= to <= chars@.len(),
    ensures
        r@ == chars@.subrange(from as int, to as int),
{
    let mut r = String::new();
    let mut i: usize = from;
    while i < to
        invariant
            from <= i <= to <= chars@.len(),
            r@ == chars@.subrange(from as int, i as int),
        decreases to - i,
    {
        r.push(chars[i]);
        i = i + 1;
        assert(r@ =~= chars@.subrange(from as int, i as int));
    }
    r
}

/// Where the run of `class` that starts at `from` ends, not going beyond `to`.
pub fn run_end(chars: &Vec<char>, from: usize, to: usize, class: CharClass) -> (r: usize)
    requires
        from <= to <= chars@.len(),
    ensures
        from <= r <= to,
        r == from + run(chars@.subrange(from as int, to as int), class),
{
    let mut i: usize = from;
    while i < to && class.has(chars[i])
        invariant
            from <= i <= to <= chars@.len(),
            forall|k: int| from <= k < i ==> class.contains(#[trigger] chars@[k]),
        decreases to - i,
    {
        i = i + 1;
    }
    proof {
        lemma_run_is(chars@.subrange(from as int, to as int), class, i - from);
    }
    i
}

/// Where the run of `class` that ends at `to` starts, not going below `from`.
pub fn run_start(chars: &Vec<char>, from: usize, to: usize, class: CharClass) -> (r: usize)
    requires
        from <= to <= chars@.len(),
    ensures
        from <= r <= to,
        r == to - run_back(chars@.subrange(from as int, to as int), class),
{
    let mut i: usize = to;
    while from < i && class.has(chars[i - 1])
        invariant
            from <= i <= to <= chars@.len(),
            forall|k: int| i <= k < to ==> class.contains(#[trigger] chars@[k]),
        decreases i,
    {
        i = i - 1;
    }
    proof {
        lemma_run_back_is(chars@.subrange(from as int, to as int), class, to - i);
    }
    i
}

/// Narrows a range until neither of its ends is in `class`.
pub fn trim_range(chars: &Vec<char>, from: usize, to: usize, class: CharClass) -> (r: (usize, usize))
    requires
        from <= to <= chars@.len(),
    ensures
        from <= r.0 <= r.1 <= to,
        chars@.subrange(r.0 as int, r.1 as int) == trim(
            chars@.subrange(from as int, to as int),
            class,
        ),
{
    let lo = run_end(chars, from, to, class);
    proof {
        assert(chars@.subrange(lo as int, to as int) =~= trim_start(
            chars@.subrange(from as int, to as int),
            class,
        ));
    }
    let hi = run_start(chars, lo, to, class);
    proof {
        assert(chars@.subrange(lo as int, hi as int) =~= trim_end(
            chars@.subrange(lo as int, to as int),
            class,
        ));
    }
    (lo, hi)
}

/// The lower case form of an ASCII letter; any other character itself.
pub fn to_lower(c: char) -> (r: char)
    ensures
        r == lower(c),
{
    if 'A' <= c && c <= 'Z' {
        ((c as u8) + 32) as char
    } else {
        c
    }
}

/// The string of the characters from `from` up to `to`, ASCII letters in lower case.
pub fn lower_string_of(chars: &Vec<char>, from: usize, to: usize) -> (r: String)
    requires
        from <= to <= chars@.len(),
    ensures
        r@ == lowered(chars@.subrange(from as int, to as int)),
{
    let mut r = String::new();
    let mut i: usize = from;
    while i < to
        invariant
            from <= i <= to <= chars@.len(),
            r@ == lowered(chars@.subrange(from as int, i as int)),
        decreases to - i,
    {
        r.push(to_lower(chars[i]));
        i = i + 1;
        assert(r@ =~= lowered(chars@.subrange(from as int, i as int)));
    }
    r
}

/// Whether the characters from `from` on begin with `tag`, whatever the case
/// of the ASCII letters.
pub fn has_tag_no_case(chars: &Vec<char>, from: usize, tag: &str) -> (r: bool)
    requires
        from <= chars@.len(),
    ensures
        r == starts_with_no_case(chars@.skip(from as int), tag@),
{
    let tag_chars = chars_of(tag);
    let n: usize = tag_chars.len();
    if chars.len() - from < n {
        return false;
    }
    let ghost head = chars@.skip(from as int).take(n as int);
    let mut i: usize = 0;
    while i < n
        invariant
            i <= n == tag_chars@.len() == tag@.len(),
            tag_chars@ == tag@,
            from + n <= chars@.len() <= usize::MAX,
            head == chars@.skip(from as int).take(n as int),
            forall|k: int| 0 <= k < i ==> lower(#[trigger] head[k]) == lower(tag@[k]),
        decreases n - i,
    {
        if to_lower(chars[from + i]) != to_lower(tag_chars[i]) {
            proof {
                assert(lowered(head)[i as int] != lowered(tag@)[i as int]);
            }
            return false;
        }
        assert(head[i as int] == chars@[from + i]);
        i = i + 1;
    }
    proof {
        assert(lowered(head) =~= lowered(tag@));
    }
    true
}

/// Whether the characters from `from` on are those of `other`.
pub fn same_from(chars: &Vec<char>, from: usize, other: &Vec<char>) -> (r: bool)
    requires
        from <= chars@.len(),
    ensures
        r == (chars@.skip(from as int) == other@),
{
    let n: usize = other.len();
    if chars.len() - from != n {
        return false;
    }
    let ghost rest = chars@.skip(from as int);
    let mut i: usize = 0;
    while i < n
        invariant
            i <= n == other@.len(),
            from + n == chars@.len() <= usize::MAX,
            rest == chars@.skip(from as int),
            forall|k: int| 0 <= k < i ==> #[trigger] rest[k] == other@[k],
        decreases n - i,
    {
        if chars[from + i] != other[i] {
            assert(rest[i as int] != other@[i as int]);
            return false;
        }
        i = i + 1;
    }
    assert(rest =~= other@);
    true
}

/// A text begins with a tag exactly if it has as many characters, and each is that of the
/// tag once capital ASCII letters are lowered.
pub proof fn law_tags_are_compared_letter_by_letter(s: Seq<char>, tag: Seq<char>)
    ensures
        starts_with_no_case(s, tag) <==> tag.len() <= s.len() && forall|k: int|
            0 <= k < tag.len() ==> lower(#[trigger] s[k]) == lower(tag[k]),
        forall|c: char| !('A' <= c <= 'Z') ==> #[trigger] lower(c) == c,
        forall|c: char| 'A' <= c <= 'Z' ==> #[trigger] lower(c) as int == c as int + 32,
{
    if tag.len() <= s.len() {
        let head = s.take(tag.len() as int);
        if lowered(head) == lowered(tag) {
            assert forall|k: int| 0 <= k < tag.len() implies lower(#[trigger] s[k]) == lower(
                tag[k],
            ) by {
                assert(lowered(head)[k] == lower(head[k]));
                assert(lowered(tag)[k] == lower(tag[k]));
            }
        }
        if forall|k: int| 0 <= k < tag.len() ==> lower(#[trigger] s[k]) == lower(tag[k]) {
            assert forall|k: int| 0 <= k < tag.len() implies lowered(head)[k] == lowered(
                tag,
            )[k] by {
                assert(head[k] == s[k]);
            }
            assert(lowered(head) =~= lowered(tag));
        }
    }
}

} // verus!
