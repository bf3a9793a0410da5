//! Tag codec: named fields are carried as tagged spans
//! (`<name>value</name>`) inside free text, and recovered from arbitrary
//! surrounding prose by two independent substring searches per tag.

use vstd::prelude::*;
use vstd::string::*;

verus! {

/// A character is one of the four ASCII whitespace characters that the
/// codec's trimming recognises.
pub open spec fn is_space_char(c: char) -> bool {
    c == ' ' || c == '\t' || c == '\n' || c == '\r'
}

/// Whether a character counts as whitespace for trimming.
pub fn is_space(c: char) -> (b: bool)
    ensures
        b == is_space_char(c),
{
    c == ' ' || c == '\t' || c == '\n' || c == '\r'
}

/// The pattern occurs in `text` starting at position `i`.
pub open spec fn match_at(text: Seq<char>, pat: Seq<char>, i: int) -> bool {
    &&& 0 <= i
    &&& i + pat.len() <= text.len()
    &&& text.subrange(i, i + pat.len() as int) == pat
}

/// Position of the first occurrence of `pat` in `text` at or after `from`.
pub open spec fn find_from(text: Seq<char>, pat: Seq<char>, from: int) -> Option<int>
    recommends
        0 <= from <= text.len(),
    decreases text.len() - from + 1,
{
    if from < 0 || from + pat.len() > text.len() {
        None
    } else if match_at(text, pat, from) {
        Some(from)
    } else {
        find_from(text, pat, from + 1)
    }
}

/// What `find_from` returns is a first match: a match at or after `from`,
/// with no match between `from` and it.
pub proof fn lemma_find_from_some(text: Seq<char>, pat: Seq<char>, from: int, i: int)
    requires
        0 <= from,
        find_from(text, pat, from) == Some(i),
    ensures
        from <= i,
        match_at(text, pat, i),
        forall|j: int| from <= j < i ==> !match_at(text, pat, j),
    decreases text.len() - from + 1,
{
    if from + pat.len() > text.len() {
    } else if match_at(text, pat, from) {
    } else {
        lemma_find_from_some(text, pat, from + 1, i);
    }
}

/// A match with none before it is exactly what `find_from` returns.
pub proof fn lemma_find_from_at(text: Seq<char>, pat: Seq<char>, from: int, i: int)
    requires
        0 <= from <= i,
        match_at(text, pat, i),
        forall|j: int| from <= j < i ==> !match_at(text, pat, j),
    ensures
        find_from(text, pat, from) == Some(i),
    decreases i - from,
{
    if from == i {
    } else {
        lemma_find_from_at(text, pat, from + 1, i);
    }
}

/// The pattern occurs at `i` in `text` exactly when every pattern character
/// agrees with the text there.
pub proof fn lemma_match_at_chars(text: Seq<char>, pat: Seq<char>, i: int)
    requires
        0 <= i,
        i + pat.len() <= text.len(),
        forall|k: int| 0 <= k < pat.len() ==> text[i + k] == pat[k],
    ensures
        match_at(text, pat, i),
{
    assert(text.subrange(i, i + pat.len() as int) =~= pat);
}

/// Whether `text` contains `pat` starting exactly at `i`, by comparing
/// characters.
fn match_here(text: &str, pat: &str, i: usize, n: usize, m: usize) -> (b: bool)
    requires
        n == text@.len(),
        m == pat@.len(),
        i + m <= n,
    ensures
        b == match_at(text@, pat@, i as int),
{
    let mut j: usize = 0;
    while j < m
        invariant
            0 <= j <= m,
            n == text@.len(),
            m == pat@.len(),
            i + m <= n,
            forall|k: int| 0 <= k < j ==> text@[i + k] == pat@[k],
        decreases m - j,
    {
        let tc = text.get_char(i + j);
        let pc = pat.get_char(j);
        if tc != pc {
            proof {
                assert(text@.subrange(i as int, i + m as int)[j as int] == text@[i + j]);
            }
            return false;
        }
        j = j + 1;
    }
    proof {
        lemma_match_at_chars(text@, pat@, i as int);
    }
    true
}

/// First occurrence of `pat` in `text` at or after `from`, as a position.
pub fn find_in(text: &str, pat: &str, from: usize) -> (r: Option<usize>)
    requires
        from <= text@.len(),
    ensures
        match r {
            Some(i) => find_from(text@, pat@, from as int) == Some(i as int),
            None => find_from(text@, pat@, from as int) is None,
        },
{
    let n = text.unicode_len();
    let m = pat.unicode_len();
    let mut i: usize = from;
    loop
        invariant
            from <= i <= n,
            n == text@.len(),
            m == pat@.len(),
            find_from(text@, pat@, from as int) == find_from(text@, pat@, i as int),
        decreases n - i,
    {
        if m > n - i {
            return None;
        }
        if match_here(text, pat, i, n, m) {
            return Some(i);
        }
        proof {
            if m == 0 {
                assert(text@.subrange(i as int, i as int) =~= pat@);
            }
        }
        i = i + 1;
    }
}

/// The text with leading whitespace removed.
pub open spec fn trim_start_rec(s: Seq<char>) -> Seq<char>
    decreases s.len(),
{
    if s.len() > 0 && is_space_char(s[0]) {
        trim_start_rec(s.subrange(1, s.len() as int))
    } else {
        s
    }
}

/// The text with trailing whitespace removed.
pub open spec fn trim_end_rec(s: Seq<char>) -> Seq<char>
    decreases s.len(),
{
    if s.len() > 0 && is_space_char(s[s.len() - 1]) {
        trim_end_rec(s.subrange(0, s.len() - 1))
    } else {
        s
    }
}

/// The text with leading and trailing whitespace removed.
pub open spec fn trim_chars(s: Seq<char>) -> Seq<char> {
    trim_end_rec(trim_start_rec(s))
}

/// Removing leading whitespace keeps everything from the first
/// non-whitespace character on.
pub proof fn lemma_trim_start_index(s: Seq<char>, a: int)
    requires
        0 <= a <= s.len(),
        forall|k: int| 0 <= k < a ==> is_space_char(s[k]),
        a < s.len() ==> !is_space_char(s[a]),
    ensures
        trim_start_rec(s) == s.subrange(a, s.len() as int),
    decreases a,
{
    if a == 0 {
        assert(s =~= s.subrange(0, s.len() as int));
    } else {
        let s1 = s.subrange(1, s.len() as int);
        lemma_trim_start_index(s1, a - 1);
        assert(s1.subrange(a - 1, s1.len() as int) =~= s.subrange(a, s.len() as int));
    }
}

/// Removing trailing whitespace keeps everything up to the end of the last
/// non-whitespace character.
pub proof fn lemma_trim_end_index(s: Seq<char>, b: int)
    requires
        0 <= b <= s.len(),
        forall|k: int| b <= k < s.len() ==> is_space_char(s[k]),
        b > 0 ==> !is_space_char(s[b - 1]),
    ensures
        trim_end_rec(s) == s.subrange(0, b),
    decreases s.len() - b,
{
    if b == s.len() {
        assert(s =~= s.subrange(0, s.len() as int));
    } else {
        let s1 = s.subrange(0, s.len() - 1);
        lemma_trim_end_index(s1, b);
        assert(s1.subrange(0, b) =~= s.subrange(0, b));
    }
}

/// A text without leading or trailing whitespace trims to itself.
pub proof fn lemma_trim_of_clean(s: Seq<char>)
    requires
        s.len() > 0,
        !is_space_char(s[0]),
        !is_space_char(s[s.len() - 1]),
    ensures
        trim_chars(s) == s,
{
    assert(trim_start_rec(s) == s);
    assert(trim_end_rec(s) == s);
}

/// The input with leading and trailing whitespace removed.
pub fn trim(s: &str) -> (r: String)
    ensures
        r@ == trim_chars(s@),
{
    let n = s.unicode_len();
    let mut a: usize = 0;
    loop
        invariant
            a <= n,
            n == s@.len(),
            forall|k: int| 0 <= k < a ==> is_space_char(s@[k]),
        ensures
            a <= n,
            n == s@.len(),
            forall|k: int| 0 <= k < a ==> is_space_char(s@[k]),
            a < n ==> !is_space_char(s@[a as int]),
        decreases n - a,
    {
        if a == n {
            break;
        }
        let c = s.get_char(a);
        if !is_space(c) {
            break;
        }
        a = a + 1;
    }
    let mut b: usize = n;
    loop
        invariant
            a <= b <= n,
            n == s@.len(),
            forall|k: int| b <= k < n ==> is_space_char(s@[k]),
            a < n ==> !is_space_char(s@[a as int]),
        ensures
            a <= b <= n,
            forall|k: int| b <= k < n ==> is_space_char(s@[k]),
            b > a ==> !is_space_char(s@[b - 1]),
        decreases b - a,
    {
        if b == a {
            break;
        }
        let c = s.get_char(b - 1);
        if !is_space(c) {
            break;
        }
        b = b - 1;
    }
    proof {
        lemma_trim_start_index(s@, a as int);
        let t1 = s@.subrange(a as int, n as int);
        lemma_trim_end_index(t1, b - a);
        assert(t1.subrange(0, b - a) =~= s@.subrange(a as int, b as int));
    }
    let span = s.substring_char(a, b);
    span.to_owned()
}

/// The opening delimiter of a tagged span.
pub open spec fn open_tag(name: Seq<char>) -> Seq<char> {
    seq!['<'] + name + seq!['>']
}

/// The closing delimiter of a tagged span.
pub open spec fn close_tag(name: Seq<char>) -> Seq<char> {
    seq!['<', '/'] + name + seq!['>']
}

/// A complete tagged span: a value between its named delimiters.
pub open spec fn tagged_span(name: Seq<char>, value: Seq<char>) -> Seq<char> {
    open_tag(name) + value + close_tag(name)
}

/// The opening delimiter, as text.
pub fn make_open_tag(name: &str) -> (r: String)
    ensures
        r@ == open_tag(name@),
{
    let mut s = String::from_str("<");
    s.append(name);
    s.append(">");
    proof {
        reveal_strlit("<");
        reveal_strlit(">");
        assert(s@ =~= open_tag(name@));
    }
    s
}

/// The closing delimiter, as text.
pub fn make_close_tag(name: &str) -> (r: String)
    ensures
        r@ == close_tag(name@),
{
    let mut s = String::from_str("</");
    s.append(name);
    s.append(">");
    proof {
        reveal_strlit("</");
        reveal_strlit(">");
        assert(s@ =~= close_tag(name@));
    }
    s
}

/// A field encoded as a tagged span.
pub fn encode_field(name: &str, value: &str) -> (r: String)
    ensures
        r@ == tagged_span(name@, value@),
{
    let mut s = make_open_tag(name);
    s.append(value);
    let c = make_close_tag(name);
    s.append(c.as_str());
    proof {
        assert(s@ =~= tagged_span(name@, value@));
    }
    s
}

/// The value decoded for a tag: the trimmed text between the first opening
/// delimiter and the first closing delimiter after it; absent when either
/// delimiter is missing or the span trims to nothing.
pub open spec fn decode_spec(text: Seq<char>, tag: Seq<char>) -> Option<Seq<char>> {
    match find_from(text, open_tag(tag), 0) {
        Option::None => Option::None,
        Option::Some(o) => {
            let vstart = o + open_tag(tag).len();
            match find_from(text, close_tag(tag), vstart) {
                Option::None => Option::None,
                Option::Some(c) => {
                    let v = trim_chars(text.subrange(vstart, c));
                    if v.len() == 0 {
                        Option::None
                    } else {
                        Option::Some(v)
                    }
                },
            }
        },
    }
}

/// A decoded value is never empty.
pub proof fn lemma_decode_nonempty(text: Seq<char>, tag: Seq<char>)
    ensures
        decode_spec(text, tag) matches Some(v) ==> v.len() > 0,
{
}

/// The value carried for `tag` somewhere in `text`, tolerant of arbitrary
/// prose around the tagged spans.
pub fn decode(text: &str, tag: &str) -> (r: Option<String>)
    ensures
        match r {
            Option::Some(s) => decode_spec(text@, tag@) == Option::Some(s@),
            Option::None => decode_spec(text@, tag@) is None,
        },
{
    let n = text.unicode_len();
    let ot = make_open_tag(tag);
    let ct = make_close_tag(tag);
    let no = ot.as_str().unicode_len();
    match find_in(text, ot.as_str(), 0) {
        Option::None => Option::None,
        Option::Some(o) => {
            proof {
                lemma_find_from_some(text@, open_tag(tag@), 0, o as int);
            }
            let vstart = o + no;
            match find_in(text, ct.as_str(), vstart) {
                Option::None => Option::None,
                Option::Some(c) => {
                    proof {
                        lemma_find_from_some(text@, close_tag(tag@), vstart as int, c as int);
                    }
                    let span = text.substring_char(vstart, c);
                    let trimmed = trim(span);
                    if trimmed.as_str().is_empty() {
                        Option::None
                    } else {
                        Option::Some(trimmed)
                    }
                },
            }
        },
    }
}

/// A text free of the delimiter-opening character.
pub open spec fn lt_free(v: Seq<char>) -> bool {
    forall|k: int| 0 <= k < v.len() ==> v[k] != '<'
}

/// A value that embeds cleanly in a tagged span: non-empty, free of the
/// delimiter-opening character, and without surrounding whitespace.
pub open spec fn plain_value(v: Seq<char>) -> bool {
    &&& v.len() > 0
    &&& lt_free(v)
    &&& !is_space_char(v[0])
    &&& !is_space_char(v[v.len() - 1])
}

/// In an opening delimiter whose name is free of the delimiter-opening
/// character, that character stands only at the front.
pub proof fn lemma_open_tag_lt_positions(name: Seq<char>)
    requires
        lt_free(name),
    ensures
        forall|k: int| 0 <= k < open_tag(name).len() && open_tag(name)[k] == '<' ==> k == 0,
{
    let s = open_tag(name);
    assert forall|k: int| 0 <= k < s.len() && s[k] == '<' implies k == 0 by {
        if 0 < k < s.len() - 1 {
            assert(s[k] == name[k - 1]);
        } else if k == s.len() - 1 {
            assert(s[k] == '>');
        }
    }
}

/// Decoding tolerates arbitrary prose around a tagged span: wherever the
/// first opening delimiter for `tag` is the one of this span, the span's
/// value is recovered exactly.
pub proof fn lemma_decode_embedded(a: Seq<char>, tag: Seq<char>, v: Seq<char>, b: Seq<char>)
    requires
        plain_value(v),
        forall|j: int|
            0 <= j < a.len() ==> !match_at(
                a + tagged_span(tag, v) + b,
                open_tag(tag),
                j,
            ),
    ensures
        decode_spec(a + tagged_span(tag, v) + b, tag) == Option::Some(v),
{
    let t = a + tagged_span(tag, v) + b;
    let ot = open_tag(tag);
    let ct = close_tag(tag);
    let o = a.len() as int;
    let vstart = o + ot.len();
    let cpos = vstart + v.len();
    assert forall|k: int| 0 <= k < ot.len() implies t[o + k] == ot[k] by {
        assert(tagged_span(tag, v)[k] == ot[k]);
    }
    lemma_match_at_chars(t, ot, o);
    lemma_find_from_at(t, ot, 0, o);
    assert forall|k: int| 0 <= k < ct.len() implies t[cpos + k] == ct[k] by {
        assert(tagged_span(tag, v)[ot.len() + v.len() + k] == ct[k]);
    }
    lemma_match_at_chars(t, ct, cpos);
    assert forall|j: int| vstart <= j < cpos implies !match_at(t, ct, j) by {
        if match_at(t, ct, j) {
            assert(t.subrange(j, j + ct.len() as int)[0] == t[j]);
            assert(ct[0] == '<');
            assert(t[j] == tagged_span(tag, v)[j - o]);
            assert(tagged_span(tag, v)[j - o] == v[j - o - ot.len()]);
        }
    }
    lemma_find_from_at(t, ct, vstart, cpos);
    assert(t.subrange(vstart, cpos) =~= v);
    lemma_trim_of_clean(v);
}

/// Where no opening delimiter for `tag` occurs at all, decoding yields
/// absence.
pub proof fn lemma_decode_absent(text: Seq<char>, tag: Seq<char>)
    requires
        forall|j: int| !match_at(text, open_tag(tag), j),
    ensures
        decode_spec(text, tag) is None,
{
    match find_from(text, open_tag(tag), 0) {
        Option::Some(o) => {
            lemma_find_from_some(text, open_tag(tag), 0, o);
        },
        Option::None => {},
    }
}

/// In a tagged span whose name and value are free of the delimiter-opening
/// character, that character occurs only where the two delimiters start.
pub proof fn lemma_span_lt_positions(name: Seq<char>, v: Seq<char>)
    requires
        forall|k: int| 0 <= k < name.len() ==> name[k] != '<',
        forall|k: int| 0 <= k < v.len() ==> v[k] != '<',
    ensures
        forall|k: int|
            0 <= k < tagged_span(name, v).len() && tagged_span(name, v)[k] == '<' ==> (k == 0 || k
                == name.len() + 2 + v.len()),
{
    let s = tagged_span(name, v);
    let ol = name.len() + 2;
    assert forall|k: int| 0 <= k < s.len() && s[k] == '<' implies (k == 0 || k == name.len() + 2
        + v.len()) by {
        if 0 < k < ol {
            if k < ol - 1 {
                assert(s[k] == name[k - 1]);
            } else {
                assert(s[k] == '>');
            }
        } else if ol <= k < ol + v.len() {
            assert(s[k] == v[k - ol]);
        } else if k > ol + v.len() {
            let ck = k - ol - v.len();
            assert(s[k] == close_tag(name)[ck]);
            if ck == 1 {
                assert(close_tag(name)[1] == '/');
            } else if 2 <= ck < 2 + name.len() {
                assert(close_tag(name)[ck] == name[ck - 2]);
            } else {
                assert(close_tag(name)[ck] == '>');
            }
        }
    }
}

} // verus!

