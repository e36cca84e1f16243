//! Domain names: their normal form, how a rule covers a name, and what a
//! configuration line may name.

use vstd::prelude::*;

use crate::text;
use crate::text::CharClass;

verus! {

/// The normal form of a domain: without white space around it, then without
/// slashes around that, then without full stops at its end, in lower case.
pub open spec fn normalized(s: Seq<char>) -> Seq<char> {
    text::lowered(
        text::trim_end(text::trim(text::trim(s, CharClass::WhiteSpace), CharClass::Slash), CharClass::Dot),
    )
}

/// The name that a text denotes: without the full stop at its end, if there is one, in
/// lower case.
pub open spec fn named(s: Seq<char>) -> Seq<char> {
    if s.len() > 0 && s.last() == '.' {
        text::lowered(s.drop_last())
    } else {
        text::lowered(s)
    }
}

/// `s` ends with `tail`.
pub open spec fn ends_with(s: Seq<char>, tail: Seq<char>) -> bool {
    tail.len() <= s.len() && s.skip(s.len() - tail.len()) == tail
}

/// `qname` is `rule`, or a name below it.
pub open spec fn matches_domain(qname: Seq<char>, rule: Seq<char>) -> bool {
    qname == rule || ends_with(qname, seq!['.'] + rule)
}

/// The normal form of a domain.
pub fn normalize_domain(input: &str) -> (r: String)
    ensures
        r@ == normalized(input@),
{
    let chars = text::chars_of(input);
    let whole: usize = chars.len();
    let (a, b) = text::trim_range(&chars, 0, whole, CharClass::WhiteSpace);
    let (lo, mid) = text::trim_range(&chars, a, b, CharClass::Slash);
    let hi = text::run_start(&chars, lo, mid, CharClass::Dot);
    proof {
        assert(chars@.subrange(0, whole as int) =~= input@);
        assert(chars@.subrange(lo as int, hi as int) =~= text::trim_end(
            chars@.subrange(lo as int, mid as int),
            CharClass::Dot,
        ));
    }
    text::lower_string_of(&chars, lo, hi)
}

/// Whether `qname` is `rule`, or a name below it.
pub fn domain_matches(qname: &str, rule: &str) -> (r: bool)
    ensures
        r == matches_domain(qname@, rule@),
{
    let q = text::chars_of(qname);
    let d = text::chars_of(rule);
    let ghost tail = seq!['.'] + d@;
    if q.len() < d.len() {
        return false;
    }
    let at: usize = q.len() - d.len();
    if !text::same_from(&q, at, &d) {
        proof {
            if q@ == d@ {
                assert(q@.skip(at as int) =~= d@);
            }
            if ends_with(q@, tail) {
                assert(q@.skip(at as int) =~= tail.drop_first());
                assert(tail.drop_first() =~= d@);
            }
        }
        return false;
    }
    if at == 0 {
        assert(q@.skip(0) =~= q@);
        return true;
    }
    if q[at - 1] == '.' {
        assert(q@.skip(at - 1) =~= tail);
        return true;
    }
    proof {
        if ends_with(q@, tail) {
            assert(q@.skip(at - 1)[0] == tail[0]);
        }
    }
    false
}

/// A domain name.
#[derive(Debug, Eq, Hash)]
pub struct Name {
    text: String,
}

impl View for Name {
    type V = Seq<char>;

    closed spec fn view(&self) -> Seq<char> {
        self.text@
    }
}

impl Clone for Name {
    fn clone(&self) -> (r: Name)
        ensures
            r == *self,
    {
        Name { text: self.text.clone() }
    }
}

impl PartialEq for Name {
    fn eq(&self, other: &Name) -> (r: bool) {
        self.text == other.text
    }
}

impl vstd::std_specs::cmp::PartialEqSpecImpl for Name {
    open spec fn obeys_eq_spec() -> bool {
        true
    }

    open spec fn eq_spec(&self, other: &Name) -> bool {
        self@ == other@
    }
}

impl Name {
    /// The name that a text denotes.
    pub fn new(text: &str) -> (r: Name)
        ensures
            r@ == named(text@),
    {
        let chars = text::chars_of(text);
        let len: usize = chars.len();
        let end: usize = if len > 0 && chars[len - 1] == '.' {
            len - 1
        } else {
            len
        };
        proof {
            assert(chars@.subrange(0, len as int) =~= text@);
            if end < len {
                assert(chars@.subrange(0, end as int) =~= text@.drop_last());
            }
        }
        Name { text: text::lower_string_of(&chars, 0, end) }
    }

    /// The name that is the normal form of a domain.
    pub fn normal(domain: &str) -> (r: Name)
        ensures
            r@ == normalized(domain@),
    {
        Name { text: normalize_domain(domain) }
    }

    /// The text of the name.
    pub fn as_str(&self) -> (r: &str)
        ensures
            r@ == self@,
    {
        self.text.as_str()
    }
}

/// A name as a rule states it.
#[derive(Debug, PartialEq, Eq)]
pub enum WildcardName {
    /// The name itself and every name below it.
    Default(Name),
}

impl View for WildcardName {
    type V = Seq<char>;

    open spec fn view(&self) -> Seq<char> {
        match self {
            WildcardName::Default(name) => name@,
        }
    }
}

impl Clone for WildcardName {
    fn clone(&self) -> (r: WildcardName)
        ensures
            r == *self,
    {
        match self {
            WildcardName::Default(name) => WildcardName::Default(name.clone()),
        }
    }
}

impl WildcardName {
    /// Whether the rule covers `name`.
    pub fn is_match(&self, name: &Name) -> (r: bool)
        ensures
            r == matches_domain(name@, self@),
    {
        domain_matches(name.as_str(), self.name().as_str())
    }

    /// The name that the rule is stated for.
    pub fn name(&self) -> (r: &Name)
        ensures
            r@ == self@,
            *self == WildcardName::Default(*r),
    {
        match self {
            WildcardName::Default(name) => name,
        }
    }
}

/// What a `cfst-domain` line is about.
#[derive(Debug, PartialEq, Eq)]
pub enum Domain {
    /// A name.
    Name(WildcardName),
    /// A set of names that is defined elsewhere, given by its own name.
    DomainSet(String),
}

/// What a `cfst-domain` line is about, in terms of characters.
pub enum DomainView {
    Name(Seq<char>),
    DomainSet(Seq<char>),
}

impl View for Domain {
    type V = DomainView;

    open spec fn view(&self) -> DomainView {
        match self {
            Domain::Name(name) => DomainView::Name(name@),
            Domain::DomainSet(set) => DomainView::DomainSet(set@),
        }
    }
}

impl Clone for Domain {
    fn clone(&self) -> (r: Domain)
        ensures
            r == *self,
    {
        match self {
            Domain::Name(name) => Domain::Name(name.clone()),
            Domain::DomainSet(set) => Domain::DomainSet(set.clone()),
        }
    }
}

impl Domain {
    /// The text of the name, or the name of the set.
    pub fn to_string(&self) -> (r: String)
        ensures
            r@ == (match self@ {
                DomainView::Name(name) => name,
                DomainView::DomainSet(set) => set,
            }),
    {
        match self {
            Domain::Name(name) => name.name().text.clone(),
            Domain::DomainSet(set) => set.clone(),
        }
    }
}

/// Lowering the case of a letter takes it into or out of none of the classes
/// that are trimmed.
proof fn lemma_lower_class(c: char)
    ensures
        text::white_space(text::lower(c)) == text::white_space(c),
        text::lower(c) == '/' <==> c == '/',
        text::lower(c) == '.' <==> c == '.',
{
    if 'A' <= c <= 'Z' {
        let l = text::lower(c);
        assert('a' <= l <= 'z');
    }
}

/// Trimming and lowering the case can change places.
proof fn lemma_lowered_trim(s: Seq<char>, class: CharClass)
    requires
        class == CharClass::WhiteSpace || class == CharClass::Slash || class == CharClass::Dot,
    ensures
        text::trim_end(text::lowered(s), class) == text::lowered(text::trim_end(s, class)),
        text::trim_start(text::lowered(s), class) == text::lowered(text::trim_start(s, class)),
{
    let l = text::lowered(s);
    assert forall|i: int| 0 <= i < s.len() implies class.contains(#[trigger] l[i])
        == class.contains(s[i]) by {
        lemma_lower_class(s[i]);
    }
    text::lemma_run(s, class);
    text::lemma_run_back(s, class);
    let n = text::run(s, class) as int;
    let m = text::run_back(s, class) as int;
    text::lemma_run_is(l, class, n);
    text::lemma_run_back_is(l, class, m);
    assert(l.skip(n) =~= text::lowered(s.skip(n)));
    assert(l.take(l.len() - m) =~= text::lowered(s.take(s.len() - m)));
}

/// A letter in lower case stays as it is.
proof fn lemma_lowered_twice(s: Seq<char>)
    ensures
        text::lowered(text::lowered(s)) == text::lowered(s),
{
    assert forall|i: int| 0 <= i < s.len() implies text::lower(text::lower(#[trigger] s[i]))
        == text::lower(s[i]) by {
        if 'A' <= s[i] <= 'Z' {
            assert('a' <= text::lower(s[i]) <= 'z');
        }
    }
    assert(text::lowered(text::lowered(s)) =~= text::lowered(s));
}

/// What is left after trimming has no character of the class at the end, and at
/// the start the one it had, if anything is left.
proof fn lemma_trim_end(s: Seq<char>, class: CharClass)
    ensures
        text::trim_end(s, class).len() <= s.len(),
        text::trim_end(s, class).len() > 0 ==> {
            &&& !class.contains(text::trim_end(s, class).last())
            &&& text::trim_end(s, class)[0] == s[0]
        },
{
    text::lemma_run_back(s, class);
}

proof fn lemma_trim(s: Seq<char>, class: CharClass)
    ensures
        text::trim(s, class).len() > 0 ==> {
            &&& !class.contains(text::trim(s, class)[0])
            &&& !class.contains(text::trim(s, class).last())
        },
{
    text::lemma_run(s, class);
    lemma_trim_end(text::trim_start(s, class), class);
}

/// Nothing is trimmed where the ends are not in the class.
proof fn lemma_trim_none(s: Seq<char>, class: CharClass)
    requires
        s.len() > 0 ==> !class.contains(s[0]) && !class.contains(s.last()),
    ensures
        text::trim(s, class) == s,
        text::trim_end(s, class) == s,
{
    text::lemma_run_is(s, class, 0);
    text::lemma_run_back_is(s, class, 0);
    assert(s.skip(0) =~= s);
    assert(s.take(s.len() as int) =~= s);
}

/// A domain in normal form has no capital ASCII letter, does not begin with a
/// slash and does not end with a full stop.
pub proof fn law_normal_form(s: Seq<char>)
    ensures
        forall|i: int|
            0 <= i < normalized(s).len() ==> !('A' <= #[trigger] normalized(s)[i] <= 'Z'),
        normalized(s).len() > 0 ==> normalized(s)[0] != '/' && normalized(s).last() != '.',
{
    let a = text::trim(s, CharClass::WhiteSpace);
    let b = text::trim(a, CharClass::Slash);
    let c = text::trim_end(b, CharClass::Dot);
    lemma_trim(a, CharClass::Slash);
    lemma_trim_end(b, CharClass::Dot);
    let n = normalized(s);
    assert forall|i: int| 0 <= i < n.len() implies !('A' <= #[trigger] n[i] <= 'Z') by {
        if 'A' <= c[i] <= 'Z' {
            assert('a' <= text::lower(c[i]) <= 'z');
        }
    }
    if n.len() > 0 {
        lemma_lower_class(c[0]);
        lemma_lower_class(c.last());
        assert(n.last() == text::lower(c.last()));
    }
}

/// The normal form of a domain does not depend on the case of ASCII letters.
pub proof fn law_normal_form_ignores_case(s: Seq<char>, t: Seq<char>)
    requires
        text::lowered(s) == text::lowered(t),
    ensures
        normalized(s) == normalized(t),
{
    lemma_normalized_lowered(s);
    lemma_normalized_lowered(t);
}

proof fn lemma_normalized_lowered(s: Seq<char>)
    ensures
        normalized(text::lowered(s)) == normalized(s),
{
    let a0 = text::trim_start(s, CharClass::WhiteSpace);
    let a = text::trim_end(a0, CharClass::WhiteSpace);
    let b0 = text::trim_start(a, CharClass::Slash);
    let b = text::trim_end(b0, CharClass::Slash);
    lemma_lowered_trim(s, CharClass::WhiteSpace);
    lemma_lowered_trim(a0, CharClass::WhiteSpace);
    lemma_lowered_trim(a, CharClass::Slash);
    lemma_lowered_trim(b0, CharClass::Slash);
    lemma_lowered_trim(b, CharClass::Dot);
    lemma_lowered_twice(text::trim_end(b, CharClass::Dot));
}

/// A domain in normal form is its own normal form, unless white space or, at the
/// end, a slash has come to its ends in the process.
pub proof fn law_normal_form_is_stable(s: Seq<char>)
    requires
        normalized(s).len() > 0 ==> {
            &&& !text::white_space(normalized(s)[0])
            &&& !text::white_space(normalized(s).last())
            &&& normalized(s).last() != '/'
        },
    ensures
        normalized(normalized(s)) == normalized(s),
{
    let n = normalized(s);
    law_normal_form(s);
    lemma_trim_none(n, CharClass::WhiteSpace);
    lemma_trim_none(n, CharClass::Slash);
    text::lemma_run_back_is(n, CharClass::Dot, 0);
    assert(n.take(n.len() as int) =~= n);
    lemma_lowered_twice(
        text::trim_end(
            text::trim(text::trim(s, CharClass::WhiteSpace), CharClass::Slash),
            CharClass::Dot,
        ),
    );
}

/// A name lies under a rule exactly if it is the rule, or some labels, a full stop
/// and the rule.
pub proof fn law_match_is_label_aware(qname: Seq<char>, rule: Seq<char>)
    ensures
        matches_domain(qname, rule) <==> qname == rule || exists|labels: Seq<char>|
            qname == #[trigger] (labels + seq!['.']) + rule,
{
    if ends_with(qname, seq!['.'] + rule) {
        let labels = qname.take(qname.len() - rule.len() - 1);
        assert(qname =~= labels + qname.skip(qname.len() - rule.len() - 1));
        assert(qname =~= (labels + seq!['.']) + rule);
    }
    if exists|labels: Seq<char>| qname == #[trigger] (labels + seq!['.']) + rule {
        let labels = choose|labels: Seq<char>| qname == #[trigger] (labels + seq!['.']) + rule;
        assert(qname.skip(qname.len() - rule.len() - 1) =~= seq!['.'] + rule);
    }
}

/// A name that merely ends with the same characters as a rule does not lie under
/// it.
pub proof fn law_match_needs_a_label(prefix: Seq<char>, rule: Seq<char>)
    requires
        prefix.len() > 0,
        prefix.last() != '.',
    ensures
        !matches_domain(prefix + rule, rule),
{
    let qname = prefix + rule;
    if ends_with(qname, seq!['.'] + rule) {
        let tail = qname.skip(qname.len() - rule.len() - 1);
        assert(tail[0] == '.');
        assert(tail[0] == prefix.last());
    }
}

/// A rule covers its own name, and what lies under a name under it lies under it.
pub proof fn law_match_is_a_preorder(a: Seq<char>, b: Seq<char>, c: Seq<char>)
    ensures
        matches_domain(a, a),
        matches_domain(a, b) && matches_domain(b, c) ==> matches_domain(a, c),
{
    if ends_with(a, seq!['.'] + b) && ends_with(b, seq!['.'] + c) {
        let tail = a.skip(a.len() - c.len() - 1);
        assert(tail =~= (seq!['.'] + b).skip(b.len() - c.len()));
        assert((seq!['.'] + b).skip(b.len() - c.len()) =~= b.skip(b.len() - c.len() - 1));
    }
}

/// A name does not depend on the case of ASCII letters, nor on whether a full stop is
/// written at its end. Nothing else about it is changed.
pub proof fn law_names_ignore_case_and_final_stop(s: Seq<char>, t: Seq<char>)
    requires
        text::lowered(s) == text::lowered(t),
    ensures
        named(s) == named(t),
        s.len() == 0 || s.last() != '.' ==> named(s.push('.')) == named(s) && named(s)
            == text::lowered(s),
{
    assert(s.len() == text::lowered(s).len() == text::lowered(t).len() == t.len());
    assert(s.push('.').drop_last() =~= s);
    if s.len() > 0 {
        assert(text::lowered(s).last() == text::lower(s.last()));
        assert(text::lowered(t).last() == text::lower(t.last()));
        lemma_lower_class(s.last());
        lemma_lower_class(t.last());
        assert(text::lowered(s.drop_last()) =~= text::lowered(s).drop_last());
        assert(text::lowered(t.drop_last()) =~= text::lowered(t).drop_last());
    }
}

/// Of two domains that cover the same name, the longer one lies under the other.
pub proof fn lemma_longer_cover_is_below(qname: Seq<char>, long: Seq<char>, short: Seq<char>)
    requires
        matches_domain(qname, long),
        matches_domain(qname, short),
        short.len() <= long.len(),
    ensures
        matches_domain(long, short),
{
    if qname != long && qname != short {
        let a = seq!['.'] + long;
        let b = seq!['.'] + short;
        assert(qname.skip(qname.len() - a.len()) =~= a);
        assert(qname.skip(qname.len() - b.len()) =~= b);
        if long.len() == short.len() {
            assert(a =~= b);
            assert(long =~= a.skip(1));
            assert(short =~= b.skip(1));
        } else {
            assert(a.skip(1) =~= long);
            assert(long.skip(long.len() - b.len()) =~= qname.skip(qname.len() - b.len()));
        }
    } else if qname != long {
        assert(qname == short);
        assert((seq!['.'] + long).len() <= qname.len());
    }
}

/// The normal form of a domain is the domain in lower case, without the white space and
/// then the slashes around it and the full stops at its end. Nothing else of it is
/// changed.
pub proof fn law_normal_form_keeps_the_domain(
    left: Seq<char>,
    slashes: Seq<char>,
    core: Seq<char>,
    stops: Seq<char>,
    closing: Seq<char>,
    right: Seq<char>,
)
    requires
        forall|i: int| 0 <= i < left.len() ==> text::white_space(#[trigger] left[i]),
        forall|i: int| 0 <= i < slashes.len() ==> #[trigger] slashes[i] == '/',
        forall|i: int| 0 <= i < stops.len() ==> #[trigger] stops[i] == '.',
        forall|i: int| 0 <= i < closing.len() ==> #[trigger] closing[i] == '/',
        forall|i: int| 0 <= i < right.len() ==> text::white_space(#[trigger] right[i]),
        core.len() > 0,
        !text::white_space(core[0]) && core[0] != '/',
        !text::white_space(core.last()) && core.last() != '/' && core.last() != '.',
    ensures
        ({
            let normal = normalized(
                (left + ((slashes + (core + stops)) + closing)) + right,
            );
            &&& normal.len() == core.len()
            &&& forall|i: int|
                0 <= i < core.len() ==> #[trigger] normal[i] == if 'A' <= core[i] <= 'Z' {
                    ((core[i] as u8) + 32) as char
                } else {
                    core[i]
                }
        }),
{
    let named_part = core + stops;
    let slashed = (slashes + named_part) + closing;
    assert(slashed[0] == if slashes.len() > 0 {
        slashes[0]
    } else {
        core[0]
    });
    assert(slashed.last() == if closing.len() > 0 {
        closing.last()
    } else if stops.len() > 0 {
        stops.last()
    } else {
        core.last()
    });
    text::lemma_trim_padded(left, slashed, right, CharClass::WhiteSpace);
    lemma_trim_none(slashed, CharClass::WhiteSpace);
    text::lemma_trim_padded(slashes, named_part, closing, CharClass::Slash);
    assert(named_part[0] == core[0]);
    assert(named_part.last() == if stops.len() > 0 {
        stops.last()
    } else {
        core.last()
    });
    lemma_trim_none(named_part, CharClass::Slash);
    assert forall|i: int|
        named_part.len() - stops.len() <= i < named_part.len() implies CharClass::Dot.contains(
        #[trigger] named_part[i],
    ) by {
        assert(named_part[i] == stops[i - core.len()]);
    }
    assert(named_part[core.len() - 1] == core.last());
    text::lemma_run_back_is(named_part, CharClass::Dot, stops.len() as int);
    assert(named_part.take(core.len() as int) =~= core);
}

/// A name is the text in lower case, but for one full stop at its end. Nothing else of it
/// is changed.
pub proof fn law_names_keep_the_text(s: Seq<char>)
    ensures
        named(s).len() == if s.len() > 0 && s.last() == '.' {
            s.len() - 1
        } else {
            s.len() as int
        },
        forall|i: int|
            0 <= i < named(s).len() ==> #[trigger] named(s)[i] == if 'A' <= s[i] <= 'Z' {
                ((s[i] as u8) + 32) as char
            } else {
                s[i]
            },
{
}

/// What is said of a domain in terms of characters is said of what it holds.
pub proof fn law_domains_are_seen_as_they_are(domain: Domain)
    ensures
        match domain {
            Domain::Name(WildcardName::Default(name)) => domain@ == DomainView::Name(name@),
            Domain::DomainSet(set) => domain@ == DomainView::DomainSet(set@),
        },
{
}

} // verus!
