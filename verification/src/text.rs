//! Character-level text helpers shared by the tokenizers and transcript code.
use vstd::prelude::*;

verus! {

/// Unicode `White_Space`: the characters that `char::is_whitespace` accepts.
pub open spec fn is_unicode_whitespace(c: char) -> bool {
    let v = c as u32;
    ||| 0x09 <= v <= 0x0D
    ||| v == 0x20
    ||| v == 0x85
    ||| v == 0xA0
    ||| v == 0x1680
    ||| 0x2000 <= v <= 0x200A
    ||| v == 0x2028
    ||| v == 0x2029
    ||| v == 0x202F
    ||| v == 0x205F
    ||| v == 0x3000
}

/// Returns whether `c` is Unicode whitespace.
pub fn char_is_whitespace(c: char) -> (b: bool)
    ensures
        b == is_unicode_whitespace(c),
{
    let v = c as u32;
    (0x09 <= v && v <= 0x0D) || v == 0x20 || v == 0x85 || v == 0xA0 || v == 0x1680 || (0x2000
        <= v && v <= 0x200A) || v == 0x2028 || v == 0x2029 || v == 0x202F || v == 0x205F || v
        == 0x3000
}

/// Number of whitespace characters at the start of `s`.
pub open spec fn leading_whitespace(s: Seq<char>) -> nat
    decreases s.len(),
{
    if s.len() == 0 {
        0
    } else if is_unicode_whitespace(s[0]) {
        1 + leading_whitespace(s.drop_first())
    } else {
        0
    }
}

/// Number of whitespace characters at the end of `s`.
pub open spec fn trailing_whitespace(s: Seq<char>) -> nat
    decreases s.len(),
{
    if s.len() == 0 {
        0
    } else if is_unicode_whitespace(s.last()) {
        1 + trailing_whitespace(s.drop_last())
    } else {
        0
    }
}

/// `s` without leading and trailing whitespace, as `str::trim` returns it.
pub open spec fn trim(s: Seq<char>) -> Seq<char> {
    let rest = s.skip(leading_whitespace(s) as int);
    rest.take(rest.len() - trailing_whitespace(rest))
}

/// `s` without any whitespace character.
pub open spec fn without_whitespace(s: Seq<char>) -> Seq<char> {
    s.filter(|c: char| !is_unicode_whitespace(c))
}

/// Whether `s` begins with `prefix`.
pub open spec fn starts_with(s: Seq<char>, prefix: Seq<char>) -> bool {
    prefix.len() <= s.len() && s.take(prefix.len() as int) == prefix
}

/// The concatenation of the views of `strings`.
pub open spec fn concat_views(strings: Seq<String>) -> Seq<char>
    decreases strings.len(),
{
    if strings.len() == 0 {
        Seq::empty()
    } else {
        concat_views(strings.drop_last()) + strings.last()@
    }
}

pub proof fn lemma_leading_whitespace_bound(s: Seq<char>)
    ensures
        leading_whitespace(s) <= s.len(),
        forall|j: int| 0 <= j < leading_whitespace(s) ==> is_unicode_whitespace(#[trigger] s[j]),
        leading_whitespace(s) < s.len() ==> !is_unicode_whitespace(s[leading_whitespace(s) as int]),
    decreases s.len(),
{
    if s.len() > 0 && is_unicode_whitespace(s[0]) {
        lemma_leading_whitespace_bound(s.drop_first());
        assert forall|j: int| 0 <= j < leading_whitespace(s) implies is_unicode_whitespace(
            #[trigger] s[j],
        ) by {
            if j > 0 {
                assert(s[j] == s.drop_first()[j - 1]);
            }
        }
    }
}

pub proof fn lemma_trailing_whitespace_bound(s: Seq<char>)
    ensures
        trailing_whitespace(s) <= s.len(),
        forall|j: int|
            s.len() - trailing_whitespace(s) <= j < s.len() ==> is_unicode_whitespace(
                #[trigger] s[j],
            ),
        trailing_whitespace(s) < s.len() ==> !is_unicode_whitespace(
            s[s.len() - trailing_whitespace(s) - 1],
        ),
    decreases s.len(),
{
    if s.len() > 0 && is_unicode_whitespace(s.last()) {
        lemma_trailing_whitespace_bound(s.drop_last());
        assert forall|j: int|
            s.len() - trailing_whitespace(s) <= j < s.len() implies is_unicode_whitespace(
            #[trigger] s[j],
        ) by {
            if j < s.len() - 1 {
                assert(s[j] == s.drop_last()[j]);
            }
        }
    }
}

/// `leading_whitespace` is the length of the maximal whitespace prefix.
pub proof fn lemma_leading_whitespace_exact(s: Seq<char>, k: nat)
    requires
        k <= s.len(),
        forall|j: int| 0 <= j < k ==> is_unicode_whitespace(#[trigger] s[j]),
        k < s.len() ==> !is_unicode_whitespace(s[k as int]),
    ensures
        leading_whitespace(s) == k,
    decreases k,
{
    if k > 0 {
        assert(is_unicode_whitespace(s[0]));
        assert forall|j: int| 0 <= j < k - 1 implies is_unicode_whitespace(
            #[trigger] s.drop_first()[j],
        ) by {
            assert(s.drop_first()[j] == s[j + 1]);
        }
        if k < s.len() {
            assert(s.drop_first()[k - 1] == s[k as int]);
        }
        lemma_leading_whitespace_exact(s.drop_first(), (k - 1) as nat);
    }
}

/// `trailing_whitespace` is the length of the maximal whitespace suffix.
pub proof fn lemma_trailing_whitespace_exact(s: Seq<char>, k: nat)
    requires
        k <= s.len(),
        forall|j: int| s.len() - k <= j < s.len() ==> is_unicode_whitespace(#[trigger] s[j]),
        k < s.len() ==> !is_unicode_whitespace(s[s.len() - k - 1]),
    ensures
        trailing_whitespace(s) == k,
    decreases k,
{
    if k > 0 {
        assert(is_unicode_whitespace(s[s.len() - 1]));
        let t = s.drop_last();
        assert forall|j: int| t.len() - (k - 1) <= j < t.len() implies is_unicode_whitespace(
            #[trigger] t[j],
        ) by {
            assert(t[j] == s[j]);
        }
        if k < s.len() {
            assert(t[t.len() - (k - 1) - 1] == s[s.len() - k - 1]);
        }
        lemma_trailing_whitespace_exact(t, (k - 1) as nat);
    }
}

/// Copies the characters of `s`.
pub fn chars_of(s: &str) -> (v: Vec<char>)
    ensures
        v@ == s@,
{
    let mut v: Vec<char> = Vec::new();
    for c in it: s.chars()
        invariant
            it.seq() == s@,
            v@ == it.seq().take(it.index() as int),
    {
        v.push(c);
    }
    v
}

/// `String::push`: appends one character.
#[verifier::external_body]
fn push_char(s: &mut String, c: char)
    ensures
        final(s)@ == old(s)@.push(c),
{
    s.push(c);
}

/// `char::from_u32`: the character with scalar value `v`, if `v` is one.
#[verifier::external_body]
pub(crate) fn char_from_u32(v: u32) -> (r: Option<char>)
    ensures
        r is Some <==> (v <= 0x10FFFF && !(0xD800 <= v <= 0xDFFF)),
        r is Some ==> r->0 as u32 == v,
{
    char::from_u32(v)
}

/// Builds a string from its characters.
pub fn string_of(chars: &Vec<char>) -> (s: String)
    ensures
        s@ == chars@,
{
    let mut s = String::new();
    let mut index: usize = 0;
    while index < chars.len()
        invariant
            index <= chars.len(),
            s@ == chars@.take(index as int),
        decreases chars.len() - index,
    {
        push_char(&mut s, chars[index]);
        assert(chars@.take(index + 1) =~= chars@.take(index as int).push(chars@[index as int]));
        index = index + 1;
    }
    assert(chars@.take(chars.len() as int) =~= chars@);
    s
}

/// Appends the characters of `t` to `s`.
pub fn append_str(s: &mut String, t: &str)
    ensures
        final(s)@ == old(s)@ + t@,
{
    let chars = chars_of(t);
    let ghost start = s@;
    let mut index: usize = 0;
    while index < chars.len()
        invariant
            index <= chars.len(),
            chars@ == t@,
            s@ == start + chars@.take(index as int),
        decreases chars.len() - index,
    {
        push_char(s, chars[index]);
        assert(start + chars@.take(index + 1) =~= (start + chars@.take(index as int)).push(
            chars@[index as int],
        ));
        index = index + 1;
    }
    assert(chars@.take(chars.len() as int) =~= chars@);
}

/// Number of leading whitespace characters of `s`.
pub fn leading_whitespace_count(s: &Vec<char>) -> (k: usize)
    ensures
        k == leading_whitespace(s@),
{
    let mut k: usize = 0;
    while k < s.len() && char_is_whitespace(s[k])
        invariant
            k <= s.len(),
            forall|j: int| 0 <= j < k ==> is_unicode_whitespace(#[trigger] s@[j]),
        decreases s.len() - k,
    {
        k = k + 1;
    }
    proof {
        lemma_leading_whitespace_exact(s@, k as nat);
    }
    k
}

/// Number of trailing whitespace characters of `s`.
pub fn trailing_whitespace_count(s: &Vec<char>) -> (k: usize)
    ensures
        k == trailing_whitespace(s@),
{
    let mut k: usize = 0;
    while k < s.len() && char_is_whitespace(s[s.len() - 1 - k])
        invariant
            k <= s.len(),
            forall|j: int| s@.len() - k <= j < s@.len() ==> is_unicode_whitespace(#[trigger] s@[j]),
        decreases s.len() - k,
    {
        k = k + 1;
    }
    proof {
        lemma_trailing_whitespace_exact(s@, k as nat);
    }
    k
}

/// The characters of `s` without its leading and trailing whitespace.
pub fn trimmed_chars(s: &Vec<char>) -> (r: Vec<char>)
    ensures
        r@ == trim(s@),
{
    let lead = leading_whitespace_count(s);
    proof {
        lemma_leading_whitespace_bound(s@);
        assert(s@.subrange(lead as int, lead as int) =~= Seq::<char>::empty());
    }
    let mut rest: Vec<char> = Vec::new();
    let mut index = lead;
    while index < s.len()
        invariant
            lead <= index <= s.len(),
            rest@ == s@.subrange(lead as int, index as int),
        decreases s.len() - index,
    {
        rest.push(s[index]);
        assert(s@.subrange(lead as int, index + 1) =~= s@.subrange(lead as int, index as int).push(
            s@[index as int],
        ));
        index = index + 1;
    }
    assert(rest@ =~= s@.skip(lead as int));
    let trail = trailing_whitespace_count(&rest);
    proof {
        lemma_trailing_whitespace_bound(rest@);
    }
    let keep = rest.len() - trail;
    let mut r: Vec<char> = Vec::new();
    let mut i: usize = 0;
    while i < keep
        invariant
            keep <= rest.len(),
            i <= keep,
            r@ == rest@.take(i as int),
        decreases keep - i,
    {
        r.push(rest[i]);
        assert(rest@.take(i + 1) =~= rest@.take(i as int).push(rest@[i as int]));
        i = i + 1;
    }
    r
}

/// The characters of `s` that are not whitespace, in order.
pub fn remove_whitespace(s: &Vec<char>) -> (r: Vec<char>)
    ensures
        r@ == without_whitespace(s@),
{
    let mut r: Vec<char> = Vec::new();
    let mut index: usize = 0;
    while index < s.len()
        invariant
            index <= s.len(),
            r@ == without_whitespace(s@.take(index as int)),
        decreases s.len() - index,
    {
        let c = s[index];
        proof {
            assert(s@.take(index + 1).drop_last() =~= s@.take(index as int));
            reveal(Seq::filter);
        }
        if !char_is_whitespace(c) {
            r.push(c);
        }
        index = index + 1;
    }
    assert(s@.take(s.len() as int) =~= s@);
    r
}

} // verus!
