use vstd::prelude::*;
use crate::text::{chars_of, string_of};

verus! {

/// The string type of XML Schema (`xs:string`).
pub type XSDString = String;

/// A character that a normalized string may not hold: line feed,
/// carriage return or tab.
pub open spec fn is_break_char(c: char) -> bool {
    c == '\n' || c == '\r' || c == '\t'
}

/// A character of the Unicode property `White_Space`, the set by which
/// `str::trim` decides what to strip.
pub open spec fn is_white_space(c: char) -> bool {
    ||| ('\u{9}' <= c && c <= '\u{d}')
    ||| c == ' '
    ||| c == '\u{85}'
    ||| c == '\u{a0}'
    ||| c == '\u{1680}'
    ||| ('\u{2000}' <= c && c <= '\u{200a}')
    ||| c == '\u{2028}'
    ||| c == '\u{2029}'
    ||| c == '\u{202f}'
    ||| c == '\u{205f}'
    ||| c == '\u{3000}'
}

/// `xs:normalizedString`: no line feed, carriage return or tab.
pub open spec fn spec_is_normalized(s: Seq<char>) -> bool {
    forall|i: int| 0 <= i < s.len() ==> !is_break_char(#[trigger] s[i])
}

/// Two spaces in a row somewhere in `s`.
pub open spec fn has_double_space(s: Seq<char>) -> bool {
    exists|i: int| 0 <= i < s.len() - 1 && #[trigger] s[i] == ' ' && s[i + 1] == ' '
}

/// `xs:token`: normalized, no leading or trailing space, no two spaces in a row.
pub open spec fn spec_is_token(s: Seq<char>) -> bool {
    &&& spec_is_normalized(s)
    &&& !(s.len() > 0 && s[0] == ' ')
    &&& !(s.len() > 0 && s[s.len() - 1] == ' ')
    &&& !has_double_space(s)
}

/// `s` with every line feed, carriage return and tab removed.
pub open spec fn strip_breaks(s: Seq<char>) -> Seq<char> {
    s.filter(|c: char| !is_break_char(c))
}

/// `s` without its leading white space.
pub open spec fn trim_start(s: Seq<char>) -> Seq<char>
    decreases s.len(),
{
    if s.len() > 0 && is_white_space(s[0]) {
        trim_start(s.drop_first())
    } else {
        s
    }
}

/// `s` without its trailing white space.
pub open spec fn trim_end(s: Seq<char>) -> Seq<char>
    decreases s.len(),
{
    if s.len() > 0 && is_white_space(s.last()) {
        trim_end(s.drop_last())
    } else {
        s
    }
}

/// `s` without its leading and trailing white space, as `str::trim` gives it.
pub open spec fn trim_white(s: Seq<char>) -> Seq<char> {
    trim_end(trim_start(s))
}

/// `s` with every run of spaces shortened to a single space.
pub open spec fn collapse_spaces(s: Seq<char>) -> Seq<char>
    decreases s.len(),
{
    if s.len() == 0 {
        s
    } else if s.len() >= 2 && s[0] == ' ' && s[1] == ' ' {
        collapse_spaces(s.drop_first())
    } else {
        seq![s[0]] + collapse_spaces(s.drop_first())
    }
}

/// What `to_norm` turns `s` into.
pub open spec fn spec_to_norm(s: Seq<char>) -> Seq<char> {
    strip_breaks(s)
}

/// What `to_token` turns `s` into: a token is kept as it is; any other
/// string loses its line breaks and tabs and its outer white space, and
/// each run of spaces in it becomes one space.
pub open spec fn spec_to_token(s: Seq<char>) -> Seq<char> {
    if spec_is_token(s) {
        s
    } else {
        collapse_spaces(trim_white(strip_breaks(s)))
    }
}

/// The simple-type conversions of XML Schema strings.
pub trait XString {
    fn is_normalized(&self) -> bool;
    fn to_norm(self) -> Self;
    fn is_token(&self) -> bool;
    fn to_token(self) -> Self;
}

impl XString for XSDString {
    fn is_normalized(&self) -> (r: bool)
        ensures
            r == spec_is_normalized(self@),
    {
        let cs = chars_of(self.as_str());
        for i in 0..cs.len()
            invariant
                cs@ == self@,
                forall|j: int| 0 <= j < i ==> !is_break_char(#[trigger] cs@[j]),
        {
            if cs[i] == '\n' || cs[i] == '\r' || cs[i] == '\t' {
                assert(is_break_char(self@[i as int]));
                return false;
            }
        }
        true
    }

    fn to_norm(self) -> (r: Self)
        ensures
            r@ == spec_to_norm(self@),
    {
        let cs = chars_of(self.as_str());
        let mut out: Vec<char> = Vec::new();
        for i in 0..cs.len()
            invariant
                cs@ == self@,
                out@ == strip_breaks(cs@.take(i as int)),
        {
            let c = cs[i];
            proof {
                reveal_with_fuel(Seq::filter, 1);
                assert(cs@.take(i + 1).drop_last() == cs@.take(i as int));
            }
            if !(c == '\n' || c == '\r' || c == '\t') {
                out.push(c);
            }
        }
        assert(cs@.take(cs.len() as int) == cs@);
        string_of(&out)
    }

    fn is_token(&self) -> (r: bool)
        ensures
            r == spec_is_token(self@),
    {
        let cs = chars_of(self.as_str());
        let n = cs.len();
        if n > 0 && cs[n - 1] == ' ' {
            return false;
        }
        if n > 0 && cs[0] == ' ' {
            return false;
        }
        for i in 0..n
            invariant
                n == cs.len(),
                cs@ == self@,
                forall|j: int| 0 <= j < i ==> !is_break_char(#[trigger] cs@[j]),
                forall|j: int| 0 <= j < i && j + 1 < n ==> !(#[trigger] cs@[j] == ' ' && cs@[j + 1] == ' '),
        {
            if cs[i] == '\n' || cs[i] == '\r' || cs[i] == '\t' {
                assert(is_break_char(self@[i as int]));
                return false;
            }
            if i + 1 < n && cs[i] == ' ' && cs[i + 1] == ' ' {
                assert(has_double_space(self@));
                return false;
            }
        }
        true
    }

    fn to_token(self) -> (r: Self)
        ensures
            r@ == spec_to_token(self@),
    {
        if self.is_token() {
            return self;
        }
        let cs = chars_of(self.as_str());
        let stripped = strip_breaks_vec(&cs);
        let trimmed = trim_white_vec(&stripped);
        let collapsed = collapse_spaces_vec(&trimmed);
        string_of(&collapsed)
    }
}

fn is_white_space_char(c: char) -> (r: bool)
    ensures
        r == is_white_space(c),
{
    ('\u{9}' <= c && c <= '\u{d}') || c == ' ' || c == '\u{85}' || c == '\u{a0}' || c == '\u{1680}'
        || ('\u{2000}' <= c && c <= '\u{200a}') || c == '\u{2028}' || c == '\u{2029}' || c
        == '\u{202f}' || c == '\u{205f}' || c == '\u{3000}'
}

fn strip_breaks_vec(cs: &Vec<char>) -> (out: Vec<char>)
    ensures
        out@ == strip_breaks(cs@),
{
    let mut out: Vec<char> = Vec::new();
    for i in 0..cs.len()
        invariant
            out@ == strip_breaks(cs@.take(i as int)),
    {
        let c = cs[i];
        proof {
            reveal_with_fuel(Seq::filter, 1);
            assert(cs@.take(i + 1).drop_last() == cs@.take(i as int));
        }
        if !(c == '\n' || c == '\r' || c == '\t') {
            out.push(c);
        }
    }
    assert(cs@.take(cs.len() as int) == cs@);
    out
}

proof fn lemma_trim_start_skip(s: Seq<char>, k: int)
    requires
        0 <= k <= s.len(),
        forall|j: int| 0 <= j < k ==> is_white_space(#[trigger] s[j]),
    ensures
        trim_start(s) == trim_start(s.skip(k)),
    decreases k,
{
    if k > 0 {
        assert(s.skip(1) == s.drop_first());
        lemma_trim_start_skip(s.drop_first(), k - 1);
        assert(s.drop_first().skip(k - 1) == s.skip(k));
    } else {
        assert(s.skip(0) == s);
    }
}

proof fn lemma_trim_end_take(s: Seq<char>, k: int)
    requires
        0 <= k <= s.len(),
        forall|j: int| k <= j < s.len() ==> is_white_space(#[trigger] s[j]),
    ensures
        trim_end(s) == trim_end(s.take(k)),
    decreases s.len() - k,
{
    if k < s.len() {
        assert(s.take(s.len() - 1) == s.drop_last());
        lemma_trim_end_take(s.drop_last(), k);
        assert(s.drop_last().take(k) == s.take(k));
    } else {
        assert(s.take(k) == s);
    }
}

fn trim_white_vec(cs: &Vec<char>) -> (out: Vec<char>)
    ensures
        out@ == trim_white(cs@),
{
    let n = cs.len();
    let mut lo: usize = 0;
    while lo < n && is_white_space_char(cs[lo])
        invariant
            n == cs.len(),
            lo <= n,
            forall|j: int| 0 <= j < lo ==> is_white_space(#[trigger] cs@[j]),
        decreases n - lo,
    {
        lo = lo + 1;
    }
    let ghost rest = cs@.skip(lo as int);
    proof {
        lemma_trim_start_skip(cs@, lo as int);
        if rest.len() > 0 {
            assert(rest[0] == cs@[lo as int]);
        }
        assert(trim_start(rest) == rest);
    }
    let mut hi: usize = n;
    while hi > lo && is_white_space_char(cs[hi - 1])
        invariant
            n == cs.len(),
            lo <= hi <= n,
            forall|j: int| hi <= j < n ==> is_white_space(#[trigger] cs@[j]),
        decreases hi,
    {
        hi = hi - 1;
    }
    let mut out: Vec<char> = Vec::new();
    let mut i: usize = lo;
    while i < hi
        invariant
            lo <= i <= hi <= n,
            n == cs.len(),
            out@ == cs@.subrange(lo as int, i as int),
        decreases hi - i,
    {
        out.push(cs[i as usize]);
        i = i + 1;
    }
    proof {
        let r = cs@.skip(lo as int);
        lemma_trim_end_take(r, hi - lo);
        assert(r.take(hi - lo) == out@);
        if out@.len() > 0 {
            assert(out@.last() == cs@[hi - 1]);
        }
        assert(trim_end(out@) == out@);
    }
    out
}

fn collapse_spaces_vec(cs: &Vec<char>) -> (out: Vec<char>)
    ensures
        out@ == collapse_spaces(cs@),
{
    let n = cs.len();
    let mut out: Vec<char> = Vec::new();
    let mut i: usize = 0;
    assert(cs@.skip(0) == cs@);
    assert(out@ + collapse_spaces(cs@) == collapse_spaces(cs@));
    while i < n
        invariant
            n == cs.len(),
            i <= n,
            collapse_spaces(cs@) == out@ + collapse_spaces(cs@.skip(i as int)),
        decreases n - i,
    {
        let ghost s = cs@.skip(i as int);
        assert(s.drop_first() == cs@.skip(i + 1));
        if i + 1 < n && cs[i] == ' ' && cs[i + 1] == ' ' {
        } else {
            out.push(cs[i]);
            assert(out@ + collapse_spaces(s.drop_first()) == out@.drop_last() + (seq![cs@[i as int]] + collapse_spaces(s.drop_first())));
        }
        i = i + 1;
    }
    assert(cs@.skip(n as int).len() == 0);
    assert(out@ + collapse_spaces(cs@.skip(n as int)) == out@);
    out
}

proof fn lemma_strip_breaks_normalized(s: Seq<char>)
    ensures
        spec_is_normalized(strip_breaks(s)),
{
    let pred = |c: char| !is_break_char(c);
    assert forall|i: int| 0 <= i < strip_breaks(s).len() implies !is_break_char(
        #[trigger] strip_breaks(s)[i],
    ) by {
        s.lemma_filter_pred(pred, i);
    }
}

proof fn lemma_strip_breaks_keeps_normalized(s: Seq<char>)
    requires
        spec_is_normalized(s),
    ensures
        strip_breaks(s) == s,
    decreases s.len(),
{
    reveal_with_fuel(Seq::filter, 1);
    if s.len() > 0 {
        assert(spec_is_normalized(s.drop_last()));
        lemma_strip_breaks_keeps_normalized(s.drop_last());
        assert(!is_break_char(s[s.len() - 1]));
        assert(s.drop_last().push(s.last()) == s);
    }
}

proof fn lemma_trim_start_suffix(s: Seq<char>)
    ensures
        trim_start(s) == s.skip(s.len() - trim_start(s).len()),
        trim_start(s).len() <= s.len(),
        trim_start(s).len() > 0 ==> !is_white_space(trim_start(s)[0]),
    decreases s.len(),
{
    if s.len() > 0 && is_white_space(s[0]) {
        lemma_trim_start_suffix(s.drop_first());
        let t = trim_start(s.drop_first());
        assert(s.drop_first().skip(s.drop_first().len() - t.len()) == s.skip(s.len() - t.len()));
    } else {
        assert(s.skip(0) == s);
    }
}

proof fn lemma_trim_end_prefix(s: Seq<char>)
    ensures
        trim_end(s) == s.take(trim_end(s).len() as int),
        trim_end(s).len() <= s.len(),
        trim_end(s).len() > 0 ==> !is_white_space(trim_end(s).last()),
    decreases s.len(),
{
    if s.len() > 0 && is_white_space(s.last()) {
        lemma_trim_end_prefix(s.drop_last());
        let t = trim_end(s.drop_last());
        assert(s.drop_last().take(t.len() as int) == s.take(t.len() as int));
    } else {
        assert(s.take(s.len() as int) == s);
    }
}

proof fn lemma_trim_white_shape(s: Seq<char>)
    requires
        spec_is_normalized(s),
    ensures
        spec_is_normalized(trim_white(s)),
        trim_white(s).len() > 0 ==> !is_white_space(trim_white(s)[0]),
        trim_white(s).len() > 0 ==> !is_white_space(trim_white(s).last()),
{
    lemma_trim_start_suffix(s);
    let a = trim_start(s);
    lemma_trim_end_prefix(a);
    let b = trim_end(a);
    assert forall|i: int| 0 <= i < b.len() implies !is_break_char(#[trigger] b[i]) by {
        assert(b[i] == a[i]);
        assert(a[i] == s[s.len() - a.len() + i]);
    }
    if b.len() > 0 {
        assert(b[0] == a[0]);
    }
}

proof fn lemma_collapse_shape(s: Seq<char>)
    ensures
        spec_is_normalized(s) ==> spec_is_normalized(collapse_spaces(s)),
        s.len() > 0 ==> collapse_spaces(s).len() > 0 && collapse_spaces(s)[0] == s[0]
            && collapse_spaces(s).last() == s.last(),
        s.len() == 0 ==> collapse_spaces(s).len() == 0,
        !has_double_space(collapse_spaces(s)),
    decreases s.len(),
{
    if s.len() > 0 {
        let t = s.drop_first();
        lemma_collapse_shape(t);
        let ct = collapse_spaces(t);
        if spec_is_normalized(s) {
            assert forall|i: int| 0 <= i < t.len() implies !is_break_char(#[trigger] t[i]) by {
                assert(t[i] == s[i + 1]);
            }
        }
        if s.len() >= 2 && s[0] == ' ' && s[1] == ' ' {
            assert(t[0] == s[1]);
        } else {
            let c = seq![s[0]] + ct;
            assert(c[0] == s[0]);
            if t.len() > 0 {
                assert(c.last() == ct.last());
                assert(t.last() == s.last());
            }
            if spec_is_normalized(s) {
                assert forall|i: int| 0 <= i < c.len() implies !is_break_char(#[trigger] c[i]) by {
                    if i > 0 {
                        assert(c[i] == ct[i - 1]);
                    }
                }
            }
            assert forall|i: int| 0 <= i < c.len() - 1 implies !(#[trigger] c[i] == ' ' && c[i + 1] == ' ') by {
                if i > 0 {
                    assert(c[i] == ct[i - 1]);
                    assert(c[i + 1] == ct[i]);
                } else {
                    assert(c[1] == ct[0]);
                    assert(ct[0] == t[0]);
                    assert(t[0] == s[1]);
                }
            }
        }
    }
}

/// A string that `to_norm` gives back is normalized.
pub proof fn law_to_norm_normalizes(s: Seq<char>)
    ensures
        spec_is_normalized(spec_to_norm(s)),
{
    lemma_strip_breaks_normalized(s);
}

/// `to_norm` leaves a normalized string as it is, so applying it twice is
/// applying it once.
pub proof fn law_to_norm_keeps_normalized(s: Seq<char>)
    ensures
        spec_is_normalized(s) ==> spec_to_norm(s) == s,
        spec_to_norm(spec_to_norm(s)) == spec_to_norm(s),
{
    if spec_is_normalized(s) {
        lemma_strip_breaks_keeps_normalized(s);
    }
    lemma_strip_breaks_normalized(s);
    lemma_strip_breaks_keeps_normalized(strip_breaks(s));
}

/// Every token is a normalized string.
pub proof fn law_token_is_normalized(s: Seq<char>)
    ensures
        spec_is_token(s) ==> spec_is_normalized(s),
{
}

/// A string that `to_token` gives back is a token.
pub proof fn law_to_token_tokenizes(s: Seq<char>)
    ensures
        spec_is_token(spec_to_token(s)),
{
    if !spec_is_token(s) {
        let a = strip_breaks(s);
        lemma_strip_breaks_normalized(s);
        lemma_trim_white_shape(a);
        let b = trim_white(a);
        lemma_collapse_shape(b);
        let c = collapse_spaces(b);
        if b.len() > 0 {
            assert(c[0] == b[0]);
            assert(c[c.len() - 1] == b.last());
        }
    }
}

/// `to_token` leaves a token as it is, so applying it twice is applying it
/// once.
pub proof fn law_to_token_keeps_token(s: Seq<char>)
    ensures
        spec_is_token(s) ==> spec_to_token(s) == s,
        spec_to_token(spec_to_token(s)) == spec_to_token(s),
{
    law_to_token_tokenizes(s);
}

}
