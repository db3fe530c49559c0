//! Lexing of the small text formats the kernel exposes.
//!
//! Text is modelled as a sequence of characters. Each function below cuts slices out of the
//! text it is given; its contract says which characters the slice holds.

use vstd::prelude::*;
use vstd::string::*;

verus! {

/// The characters that Unicode gives the property `White_Space`.
pub open spec fn is_space(c: char) -> bool {
    ||| '\u{9}' <= c <= '\u{d}'
    ||| c == ' '
    ||| c == '\u{85}'
    ||| c == '\u{a0}'
    ||| c == '\u{1680}'
    ||| '\u{2000}' <= c <= '\u{200a}'
    ||| c == '\u{2028}'
    ||| c == '\u{2029}'
    ||| c == '\u{202f}'
    ||| c == '\u{205f}'
    ||| c == '\u{3000}'
}

/// The predicate that holds of white space.
pub open spec fn spaces() -> spec_fn(char) -> bool {
    |c: char| is_space(c)
}

/// The predicate that holds of everything but white space.
pub open spec fn non_spaces() -> spec_fn(char) -> bool {
    |c: char| !is_space(c)
}

/// The predicate that holds of every character but `sep`.
pub open spec fn other_than(sep: char) -> spec_fn(char) -> bool {
    |c: char| c != sep
}

/// How many characters at the start of `s` satisfy `p` before the first that does not.
pub open spec fn span(s: Seq<char>, p: spec_fn(char) -> bool) -> nat
    decreases s.len(),
{
    if s.len() > 0 && p(s[0]) {
        1 + span(s.skip(1), p)
    } else {
        0
    }
}

/// `s` without the white space at its start.
pub open spec fn trim_start(s: Seq<char>) -> Seq<char> {
    s.skip(span(s, spaces()) as int)
}

/// `s` without the white space at its end.
pub open spec fn trim_end(s: Seq<char>) -> Seq<char>
    decreases s.len(),
{
    if s.len() > 0 && is_space(s.last()) {
        trim_end(s.drop_last())
    } else {
        s
    }
}

/// `s` without the white space at both ends.
pub open spec fn trimmed(s: Seq<char>) -> Seq<char> {
    trim_end(trim_start(s))
}

/// The words of `s`: its longest runs without white space, in order.
pub open spec fn words(s: Seq<char>) -> Seq<Seq<char>>
    decreases s.len(),
{
    if s.len() == 0 {
        seq![]
    } else if is_space(s[0]) {
        words(s.skip(1))
    } else {
        let n = span(s, non_spaces()) as int;
        proof {
            lemma_span_bound(s, non_spaces());
        }
        seq![s.take(n)] + words(s.skip(n))
    }
}

/// The pieces of `s` between the occurrences of `sep`, in order.
pub open spec fn fields(s: Seq<char>, sep: char) -> Seq<Seq<char>>
    decreases s.len(),
{
    let n = span(s, other_than(sep)) as int;
    if n >= s.len() {
        seq![s]
    } else {
        seq![s.take(n)] + fields(s.skip(n + 1), sep)
    }
}

/// What stands before and after the first `sep` in `s`, if there is one.
pub open spec fn cut_at(s: Seq<char>, sep: char) -> Option<(Seq<char>, Seq<char>)> {
    let n = span(s, other_than(sep)) as int;
    if n >= s.len() {
        None
    } else {
        Some((s.take(n), s.skip(n + 1)))
    }
}

/// Whether `s` begins with `prefix`.
pub open spec fn starts_with(s: Seq<char>, prefix: Seq<char>) -> bool {
    prefix.len() <= s.len() && s.take(prefix.len() as int) == prefix
}

/// The texts that a sequence of slices holds.
pub open spec fn texts(slices: Seq<&str>) -> Seq<Seq<char>> {
    Seq::new(slices.len(), |i: int| slices[i]@)
}

/// The run that `span` counts ends inside `s`, and is not empty if `s` starts with it.
pub proof fn lemma_span_bound(s: Seq<char>, p: spec_fn(char) -> bool)
    ensures
        span(s, p) <= s.len(),
        s.len() > 0 && p(s[0]) ==> span(s, p) > 0,
    decreases s.len(),
{
    if s.len() > 0 && p(s[0]) {
        lemma_span_bound(s.skip(1), p);
    }
}

/// `span` is the one length `n` such that the first `n` characters satisfy `p` and the next,
/// if there is one, does not.
pub proof fn lemma_span_is(s: Seq<char>, p: spec_fn(char) -> bool, n: int)
    requires
        0 <= n <= s.len(),
        forall|i: int| 0 <= i < n ==> p(#[trigger] s[i]),
        n < s.len() ==> !p(s[n]),
    ensures
        span(s, p) == n,
    decreases s.len(),
{
    if n > 0 {
        assert(p(s[0]));
        let rest = s.skip(1);
        assert forall|i: int| 0 <= i < n - 1 implies p(#[trigger] rest[i]) by {
            assert(rest[i] == s[i + 1]);
        }
        lemma_span_is(rest, p, n - 1);
    }
}

/// Text that neither starts nor ends with white space is trimmed already.
pub proof fn lemma_trimmed_bare(s: Seq<char>)
    requires
        s.len() > 0,
        !is_space(s[0]),
        !is_space(s.last()),
    ensures
        trimmed(s) == s,
{
    assert(s.skip(0) =~= s);
}

/// Joining two texts by a separator joins their fields.
pub proof fn lemma_fields_join(a: Seq<char>, b: Seq<char>, sep: char)
    ensures
        fields(a + seq![sep] + b, sep) == fields(a, sep) + fields(b, sep),
    decreases a.len(),
{
    let s = a + seq![sep] + b;
    let n = span(a, other_than(sep)) as int;
    lemma_span_all(a, other_than(sep));
    assert forall|i: int| 0 <= i < n implies other_than(sep)(#[trigger] s[i]) by {
        assert(s[i] == a[i]);
    }
    lemma_span_is(s, other_than(sep), n);
    if n == a.len() {
        assert(s.take(n) =~= a);
        assert(s.skip(n + 1) =~= b);
    } else {
        let rest = a.skip(n + 1);
        lemma_fields_join(rest, b, sep);
        assert(s.take(n) =~= a.take(n));
        assert(s.skip(n + 1) =~= rest + seq![sep] + b);
        assert(seq![a.take(n)] + (fields(rest, sep) + fields(b, sep)) =~= (seq![a.take(n)]
            + fields(rest, sep)) + fields(b, sep));
    }
}

/// White space between two texts ends the words of the first.
pub proof fn lemma_words_join(a: Seq<char>, gap: char, b: Seq<char>)
    requires
        is_space(gap),
    ensures
        words(a + seq![gap] + b) == words(a) + words(b),
    decreases a.len(),
{
    let s = a + seq![gap] + b;
    if a.len() == 0 {
        assert(s[0] == gap);
        assert(s.skip(1) =~= b);
        assert(words(a) + words(b) =~= words(b));
    } else if is_space(a[0]) {
        assert(s[0] == a[0]);
        assert(s.skip(1) =~= a.skip(1) + seq![gap] + b);
        lemma_words_join(a.skip(1), gap, b);
    } else {
        let n = span(a, non_spaces()) as int;
        lemma_span_all(a, non_spaces());
        lemma_span_bound(a, non_spaces());
        assert forall|i: int| 0 <= i < n implies non_spaces()(#[trigger] s[i]) by {
            assert(s[i] == a[i]);
        }
        assert(n < a.len() ==> s[n] == a[n]);
        lemma_span_is(s, non_spaces(), n);
        assert(s[0] == a[0]);
        assert(s.take(n) =~= a.take(n));
        assert(s.skip(n) =~= a.skip(n) + seq![gap] + b);
        lemma_words_join(a.skip(n), gap, b);
        assert(seq![a.take(n)] + (words(a.skip(n)) + words(b)) =~= (seq![a.take(n)] + words(
            a.skip(n),
        )) + words(b));
    }
}

/// A run without white space is the first word of a text in which white space follows it.
pub proof fn lemma_first_word(word: Seq<char>, tail: Seq<char>)
    requires
        word.len() > 0,
        forall|i: int| 0 <= i < word.len() ==> !is_space(#[trigger] word[i]),
        tail.len() == 0 || is_space(tail[0]),
    ensures
        words(word + tail).len() > 0,
        words(word + tail)[0] == word,
{
    let s = word + tail;
    let n = word.len() as int;
    assert forall|i: int| 0 <= i < n implies non_spaces()(#[trigger] s[i]) by {
        assert(s[i] == word[i]);
    }
    assert(s[0] == word[0]);
    lemma_span_is(s, non_spaces(), n);
    assert(s.take(n) =~= word);
}

/// The run that `span` counts satisfies the predicate, and the next character does not.
pub proof fn lemma_span_all(s: Seq<char>, p: spec_fn(char) -> bool)
    ensures
        span(s, p) <= s.len(),
        forall|i: int| 0 <= i < span(s, p) ==> p(#[trigger] s[i]),
        span(s, p) < s.len() ==> !p(s[span(s, p) as int]),
    decreases s.len(),
{
    if s.len() > 0 && p(s[0]) {
        let rest = s.skip(1);
        lemma_span_all(rest, p);
        assert forall|i: int| 0 <= i < span(s, p) implies p(#[trigger] s[i]) by {
            if i > 0 {
                assert(s[i] == rest[i - 1]);
            }
        }
    }
}

/// Whether `c` is white space.
pub fn is_white_space(c: char) -> (r: bool)
    ensures
        r == is_space(c),
{
    ('\u{9}' <= c && c <= '\u{d}') || c == ' ' || c == '\u{85}' || c == '\u{a0}' || c == '\u{1680}'
        || ('\u{2000}' <= c && c <= '\u{200a}') || c == '\u{2028}' || c == '\u{2029}'
        || c == '\u{202f}' || c == '\u{205f}' || c == '\u{3000}'
}

/// The characters of `s`.
pub fn chars_of(s: &str) -> (r: Vec<char>)
    ensures
        r@ == s@,
{
    let mut r: Vec<char> = Vec::new();
    for c in it: s.chars()
        invariant
            it.seq() == s@,
            r@ == s@.take(it.index() as int),
    {
        r.push(c);
    }
    r
}

/// Whether two strings hold the same characters.
pub fn same_text(a: &str, b: &str) -> (r: bool)
    ensures
        r == (a@ == b@),
{
    a.to_owned() == b.to_owned()
}

/// `s` without the white space at both ends.
pub fn trim<'a>(s: &'a str) -> (r: &'a str)
    ensures
        r@ == trimmed(s@),
{
    let chars: Vec<char> = chars_of(s);
    let mut from: usize = 0;
    while from < chars.len() && is_white_space(chars[from])
        invariant
            from <= chars.len(),
            forall|i: int| 0 <= i < from ==> is_space(#[trigger] chars@[i]),
        decreases chars.len() - from,
    {
        from += 1;
    }
    proof {
        lemma_span_is(s@, spaces(), from as int);
    }
    let mut to: usize = chars.len();
    while to > from && is_white_space(chars[to - 1])
        invariant
            from <= to <= chars.len(),
            trim_end(chars@.skip(from as int)) == trim_end(chars@.subrange(from as int, to as int)),
        decreases to,
    {
        assert(chars@.subrange(from as int, to as int).drop_last() =~= chars@.subrange(
            from as int,
            to - 1,
        ));
        to -= 1;
    }
    s.substring_char(from, to)
}

/// The words of `s`.
pub fn split_whitespace<'a>(s: &'a str) -> (r: Vec<&'a str>)
    ensures
        texts(r@) == words(s@),
{
    let chars: Vec<char> = chars_of(s);
    let mut r: Vec<&'a str> = Vec::new();
    let mut i: usize = 0;
    assert(s@.skip(0) =~= s@);
    while i < chars.len()
        invariant
            i <= chars.len(),
            chars@ == s@,
            words(s@) == texts(r@) + words(s@.skip(i as int)),
        decreases chars.len() - i,
    {
        if is_white_space(chars[i]) {
            assert(s@.skip(i as int).skip(1) =~= s@.skip(i + 1));
            i += 1;
        } else {
            let start: usize = i;
            i += 1;
            while i < chars.len() && !is_white_space(chars[i])
                invariant
                    start < i <= chars.len(),
                    forall|j: int| start <= j < i ==> !is_space(#[trigger] chars@[j]),
                decreases chars.len() - i,
            {
                i += 1;
            }
            let ghost before = r@;
            r.push(s.substring_char(start, i));
            proof {
                let rest = s@.skip(start as int);
                let n = (i - start) as int;
                assert forall|j: int| 0 <= j < n implies non_spaces()(#[trigger] rest[j]) by {
                    assert(rest[j] == chars@[start + j]);
                }
                lemma_span_is(rest, non_spaces(), n);
                assert(rest.take(n) =~= s@.subrange(start as int, i as int));
                assert(rest.skip(n) =~= s@.skip(i as int));
                assert(texts(r@) =~= texts(before) + seq![rest.take(n)]);
                assert(texts(before) + (seq![rest.take(n)] + words(rest.skip(n))) =~= texts(r@)
                    + words(s@.skip(i as int)));
            }
        }
    }
    assert(words(s@.skip(i as int)) =~= seq![]);
    r
}

/// The place of the first `sep` in `chars` at or after `from`, or the length of `chars`.
fn find_char(chars: &Vec<char>, from: usize, sep: char) -> (r: usize)
    requires
        from <= chars.len(),
    ensures
        from <= r <= chars.len(),
        r - from == span(chars@.skip(from as int), other_than(sep)),
{
    let mut i: usize = from;
    while i < chars.len() && chars[i] != sep
        invariant
            from <= i <= chars.len(),
            forall|j: int| from <= j < i ==> #[trigger] chars@[j] != sep,
        decreases chars.len() - i,
    {
        i += 1;
    }
    proof {
        let rest = chars@.skip(from as int);
        let n = (i - from) as int;
        assert forall|j: int| 0 <= j < n implies other_than(sep)(#[trigger] rest[j]) by {
            assert(rest[j] == chars@[from + j]);
        }
        lemma_span_is(rest, other_than(sep), n);
    }
    i
}

/// The pieces of `s` between the occurrences of `sep`.
pub fn split<'a>(s: &'a str, sep: char) -> (r: Vec<&'a str>)
    ensures
        texts(r@) == fields(s@, sep),
{
    let chars: Vec<char> = chars_of(s);
    let mut r: Vec<&'a str> = Vec::new();
    let mut from: usize = 0;
    let mut to: usize = find_char(&chars, 0, sep);
    assert(s@.skip(0) =~= s@);
    while to < chars.len()
        invariant
            from <= to <= chars.len(),
            chars@ == s@,
            to - from == span(s@.skip(from as int), other_than(sep)),
            fields(s@, sep) == texts(r@) + fields(s@.skip(from as int), sep),
        decreases chars.len() - from,
    {
        let ghost before = r@;
        let ghost rest = s@.skip(from as int);
        let ghost n = (to - from) as int;
        r.push(s.substring_char(from, to));
        from = to + 1;
        to = find_char(&chars, from, sep);
        proof {
            assert(rest.take(n) =~= s@.subrange(from - 1 - n, from - 1));
            assert(rest.skip(n + 1) =~= s@.skip(from as int));
            assert(texts(r@) =~= texts(before) + seq![rest.take(n)]);
            assert(texts(before) + (seq![rest.take(n)] + fields(rest.skip(n + 1), sep)) =~= texts(
                r@,
            ) + fields(s@.skip(from as int), sep));
        }
    }
    let ghost before = r@;
    r.push(s.substring_char(from, to));
    proof {
        assert(s@.subrange(from as int, to as int) =~= s@.skip(from as int));
        assert(texts(r@) =~= texts(before) + seq![s@.skip(from as int)]);
    }
    r
}

/// What stands before and after the first `sep` in `s`.
pub fn split_once<'a>(s: &'a str, sep: char) -> (r: Option<(&'a str, &'a str)>)
    ensures
        match r {
            Some((head, tail)) => cut_at(s@, sep) == Some((head@, tail@)),
            None => cut_at(s@, sep) is None,
        },
{
    let chars: Vec<char> = chars_of(s);
    let at: usize = find_char(&chars, 0, sep);
    assert(s@.skip(0) =~= s@);
    if at < chars.len() {
        let head = s.substring_char(0, at);
        let tail = s.substring_char(at + 1, chars.len());
        assert(head@ =~= s@.take(at as int));
        assert(tail@ =~= s@.skip(at + 1));
        Some((head, tail))
    } else {
        None
    }
}

/// What follows `prefix` in `s`, if `s` begins with it.
pub fn strip_prefix<'a>(s: &'a str, prefix: &str) -> (r: Option<&'a str>)
    ensures
        match r {
            Some(tail) => starts_with(s@, prefix@) && tail@ == s@.skip(prefix@.len() as int),
            None => !starts_with(s@, prefix@),
        },
{
    let n: usize = prefix.unicode_len();
    let total: usize = s.unicode_len();
    if n <= total && same_text(s.substring_char(0, n), prefix) {
        assert(s@.subrange(n as int, total as int) =~= s@.skip(n as int));
        assert(s@.subrange(0, n as int) =~= s@.take(n as int));
        Some(s.substring_char(n, total))
    } else {
        assert(n <= total ==> s@.subrange(0, n as int) =~= s@.take(n as int));
        None
    }
}

/// Whether all of `s` is white space.
pub open spec fn blank(s: Seq<char>) -> bool {
    forall|i: int| 0 <= i < s.len() ==> is_space(#[trigger] s[i])
}

/// Trimming takes white space off both ends, and stops at the first other character.
pub proof fn law_trimming(lead: Seq<char>, core: Seq<char>, trail: Seq<char>)
    requires
        blank(lead),
        blank(trail),
        core.len() > 0 ==> !is_space(core[0]) && !is_space(core.last()),
    ensures
        trimmed(lead + core + trail) == core,
    decreases trail.len(),
{
    let s = lead + core + trail;
    if core.len() == 0 {
        assert forall|i: int| 0 <= i < s.len() implies spaces()(#[trigger] s[i]) by {
            if i < lead.len() {
                assert(s[i] == lead[i]);
            } else {
                assert(s[i] == trail[i - lead.len()]);
            }
        }
        lemma_span_is(s, spaces(), s.len() as int);
        assert(trimmed(s) =~= core);
    } else {
        let n = lead.len() as int;
        assert forall|i: int| 0 <= i < n implies spaces()(#[trigger] s[i]) by {
            assert(s[i] == lead[i]);
        }
        assert(s[n] == core[0]);
        lemma_span_is(s, spaces(), n);
        assert(s.skip(n) =~= core + trail);
        lemma_trim_end(core, trail);
    }
}

proof fn lemma_trim_end(core: Seq<char>, trail: Seq<char>)
    requires
        blank(trail),
        core.len() > 0,
        !is_space(core.last()),
    ensures
        trim_end(core + trail) == core,
    decreases trail.len(),
{
    let s = core + trail;
    if trail.len() == 0 {
        assert(s =~= core);
    } else {
        assert(s.last() == trail[trail.len() - 1]);
        assert(s.drop_last() =~= core + trail.drop_last());
        assert forall|i: int| 0 <= i < trail.drop_last().len() implies is_space(
            #[trigger] trail.drop_last()[i],
        ) by {
            assert(trail.drop_last()[i] == trail[i]);
        }
        lemma_trim_end(core, trail.drop_last());
    }
}

/// Every text is white space, its trimmed form, and white space again.
pub proof fn lemma_trim_parts(s: Seq<char>) -> (r: (Seq<char>, Seq<char>))
    ensures
        blank(r.0),
        blank(r.1),
        s == r.0 + trimmed(s) + r.1,
        trimmed(s).len() > 0 ==> !is_space(trimmed(s)[0]) && !is_space(trimmed(s).last()),
        trimmed(s).len() == 0 <==> blank(s),
{
    let n = span(s, spaces()) as int;
    lemma_span_all(s, spaces());
    let lead = s.take(n);
    let rest = s.skip(n);
    assert forall|i: int| 0 <= i < lead.len() implies is_space(#[trigger] lead[i]) by {
        assert(spaces()(s[i]));
    }
    let trail = lemma_trim_end_parts(rest);
    assert(s =~= lead + rest);
    assert(lead + (trimmed(s) + trail) =~= lead + trimmed(s) + trail);
    if trimmed(s).len() > 0 {
        assert(trimmed(s)[0] == rest[0]);
        assert(rest[0] == s[n]);
        assert(!spaces()(s[n]));
        assert(s[n] == trimmed(s)[0]);
        assert(!blank(s));
    } else {
        assert forall|i: int| 0 <= i < s.len() implies is_space(#[trigger] s[i]) by {
            if i < n {
                assert(s[i] == lead[i]);
            } else {
                assert(s[i] == trail[i - n]);
            }
        }
    }
    (lead, trail)
}

proof fn lemma_trim_end_parts(s: Seq<char>) -> (trail: Seq<char>)
    ensures
        blank(trail),
        s == trim_end(s) + trail,
        trim_end(s).len() > 0 ==> !is_space(trim_end(s).last()),
    decreases s.len(),
{
    if s.len() > 0 && is_space(s.last()) {
        let t = lemma_trim_end_parts(s.drop_last());
        let trail = t.push(s.last());
        let core = trim_end(s.drop_last());
        assert(s =~= s.drop_last().push(s.last()));
        assert((core + t).push(s.last()) =~= core + trail);
        trail
    } else {
        assert(s =~= trim_end(s) + seq![]);
        seq![]
    }
}

/// White space around a text does not matter to its trimmed form.
pub proof fn law_trimming_ignores_outer_space(lead: Seq<char>, s: Seq<char>, trail: Seq<char>)
    requires
        blank(lead),
        blank(trail),
    ensures
        trimmed(lead + s + trail) == trimmed(s),
{
    let (a, b) = lemma_trim_parts(s);
    let core = trimmed(s);
    assert forall|i: int| 0 <= i < (lead + a).len() implies is_space(#[trigger] (lead + a)[i]) by {
        if i >= lead.len() {
            assert((lead + a)[i] == a[i - lead.len()]);
        }
    }
    assert forall|i: int| 0 <= i < (b + trail).len() implies is_space(
        #[trigger] (b + trail)[i],
    ) by {
        if i >= b.len() {
            assert((b + trail)[i] == trail[i - b.len()]);
        }
    }
    law_trimming(lead + a, core, b + trail);
    assert(lead + s + trail =~= (lead + a) + core + (b + trail));
}

/// A text without white space is a single word; white space has none; and white space between
/// two texts keeps their words apart. No two ways to find words have all of these in common.
pub proof fn law_words(a: Seq<char>, gap: char, b: Seq<char>)
    ensures
        blank(a) ==> words(a) == Seq::<Seq<char>>::empty(),
        a.len() > 0 && (forall|i: int| 0 <= i < a.len() ==> !is_space(#[trigger] a[i])) ==> words(a)
            == seq![a],
        is_space(gap) ==> words(a + seq![gap] + b) == words(a) + words(b),
    decreases a.len(),
{
    if is_space(gap) {
        lemma_words_join(a, gap, b);
    }
    if blank(a) && a.len() > 0 {
        assert forall|i: int| 0 <= i < a.skip(1).len() implies is_space(#[trigger] a.skip(1)[i]) by {
            assert(a.skip(1)[i] == a[i + 1]);
        }
        law_words(a.skip(1), gap, b);
    }
    if a.len() > 0 && (forall|i: int| 0 <= i < a.len() ==> !is_space(#[trigger] a[i])) {
        assert(forall|i: int| 0 <= i < a.len() ==> non_spaces()(#[trigger] a[i]));
        lemma_span_is(a, non_spaces(), a.len() as int);
        assert(a.take(a.len() as int) =~= a);
        assert(words(a.skip(a.len() as int)) =~= seq![]);
        assert(words(a) =~= seq![a]);
    }
}

/// A text without the separator is a single field, and a separator between two texts keeps
/// their fields apart. No two ways to find fields have both in common.
pub proof fn law_fields(a: Seq<char>, sep: char, b: Seq<char>)
    ensures
        !a.contains(sep) ==> fields(a, sep) == seq![a],
        fields(a + seq![sep] + b, sep) == fields(a, sep) + fields(b, sep),
{
    lemma_fields_join(a, b, sep);
    if !a.contains(sep) {
        assert(forall|i: int| 0 <= i < a.len() ==> other_than(sep)(#[trigger] a[i]));
        lemma_span_is(a, other_than(sep), a.len() as int);
    }
}

/// A text is cut where the separator first occurs, and only there.
pub proof fn law_cut(a: Seq<char>, sep: char, b: Seq<char>)
    requires
        !a.contains(sep),
    ensures
        cut_at(a, sep) is None,
        cut_at(a + seq![sep] + b, sep) == Some((a, b)),
{
    let s = a + seq![sep] + b;
    let n = a.len() as int;
    assert(forall|i: int| 0 <= i < n ==> other_than(sep)(#[trigger] a[i]));
    lemma_span_is(a, other_than(sep), n);
    assert forall|i: int| 0 <= i < n implies other_than(sep)(#[trigger] s[i]) by {
        assert(s[i] == a[i]);
    }
    assert(s[n] == sep);
    lemma_span_is(s, other_than(sep), n);
    assert(s.take(n) =~= a);
    assert(s.skip(n + 1) =~= b);
}

/// A text starts with another where something added to that other gives the text.
pub proof fn law_prefix(s: Seq<char>, prefix: Seq<char>, tail: Seq<char>)
    ensures
        starts_with(prefix + tail, prefix),
        starts_with(s, prefix) ==> s == prefix + s.skip(prefix.len() as int),
{
    assert((prefix + tail).take(prefix.len() as int) =~= prefix);
    if starts_with(s, prefix) {
        assert(s =~= s.take(prefix.len() as int) + s.skip(prefix.len() as int));
    }
}

/// White space around a text does not matter to the trimmed forms of its fields.
pub proof fn lemma_fields_outer_space(
    lead: Seq<char>,
    s: Seq<char>,
    trail: Seq<char>,
    sep: char,
)
    requires
        blank(lead),
        blank(trail),
        !is_space(sep),
    ensures
        fields(lead + s + trail, sep).len() == fields(s, sep).len(),
        forall|i: int|
            0 <= i < fields(s, sep).len() ==> trimmed(
                #[trigger] fields(lead + s + trail, sep)[i],
            ) == trimmed(fields(s, sep)[i]),
    decreases s.len(),
{
    let all = lead + s + trail;
    let n = span(s, other_than(sep)) as int;
    let m = (lead.len() + n) as int;
    lemma_span_all(s, other_than(sep));
    assert forall|i: int| 0 <= i < m implies other_than(sep)(#[trigger] all[i]) by {
        if i < lead.len() {
            assert(all[i] == lead[i]);
        } else {
            assert(all[i] == s[i - lead.len()]);
        }
    }
    if n == s.len() {
        assert forall|i: int| 0 <= i < all.len() implies other_than(sep)(#[trigger] all[i]) by {
            if i >= m {
                assert(all[i] == trail[i - m]);
            }
        }
        lemma_span_is(all, other_than(sep), all.len() as int);
        law_trimming_ignores_outer_space(lead, s, trail);
    } else {
        assert(all[m] == s[n]);
        lemma_span_is(all, other_than(sep), m);
        let empty = Seq::<char>::empty();
        let (first, rest) = (s.take(n), s.skip(n + 1));
        assert(all.take(m) =~= lead + first + empty);
        assert(all.skip(m + 1) =~= empty + rest + trail);
        law_trimming_ignores_outer_space(lead, first, empty);
        lemma_fields_outer_space(empty, rest, trail, sep);
        let (x, y) = (fields(all, sep), fields(s, sep));
        assert forall|i: int| 0 <= i < y.len() implies trimmed(#[trigger] x[i]) == trimmed(
            y[i],
        ) by {
            if i > 0 {
                assert(x[i] == fields(empty + rest + trail, sep)[i - 1]);
                assert(y[i] == fields(rest, sep)[i - 1]);
            }
        }
    }
}

/// White space is the tabulator, the line breaks and the space, the two controls of Latin-1 that
/// count as such, and the spaces and separators of Unicode's general punctuation, of Ogham and
/// of the ideographs.
pub proof fn law_white_space(c: char)
    ensures
        is_space(c) <==> {
            let code = c as int;
            ||| 9 <= code <= 13
            ||| code == 32
            ||| code == 133
            ||| code == 160
            ||| code == 5760
            ||| 8192 <= code <= 8202
            ||| code == 8232
            ||| code == 8233
            ||| code == 8239
            ||| code == 8287
            ||| code == 12288
        },
        '!' <= c <= '~' ==> !is_space(c),
{
}

/// The texts of some slices are theirs, one by one.
pub proof fn law_texts(slices: Seq<&str>, i: int)
    requires
        0 <= i < slices.len(),
    ensures
        texts(slices).len() == slices.len(),
        texts(slices)[i] == slices[i]@,
{
}

} // verus!
