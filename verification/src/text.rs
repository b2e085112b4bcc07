//! Character-level text handling: Unicode white space, splitting a request
//! into whitespace-separated words, and building strings.

use vstd::prelude::*;
use vstd::string::*;

verus! {

/// The Unicode `White_Space` property: the characters that separate the
/// words of a request.
pub open spec fn is_white_space(c: char) -> bool {
    let u = c as u32;
    ||| 0x9 <= u <= 0xd
    ||| u == 0x20
    ||| u == 0x85
    ||| u == 0xa0
    ||| u == 0x1680
    ||| 0x2000 <= u <= 0x200a
    ||| u == 0x2028
    ||| u == 0x2029
    ||| u == 0x202f
    ||| u == 0x205f
    ||| u == 0x3000
}

/// Tests whether `c` has the Unicode `White_Space` property.
pub fn is_white_space_char(c: char) -> (r: bool)
    ensures
        r == is_white_space(c),
{
    let u = c as u32;
    (0x9 <= u && u <= 0xd) || u == 0x20 || u == 0x85 || u == 0xa0 || u == 0x1680 || (0x2000 <= u
        && u <= 0x200a) || u == 0x2028 || u == 0x2029 || u == 0x202f || u == 0x205f || u == 0x3000
}

/// Splitting state: `done` holds the words already closed, `cur` the word
/// being read; the rest of the text is `s`.
pub open spec fn split_from(s: Seq<char>, done: Seq<Seq<char>>, cur: Seq<char>) -> Seq<Seq<char>>
    decreases s.len(),
{
    if s.len() == 0 {
        if cur.len() > 0 {
            done.push(cur)
        } else {
            done
        }
    } else if is_white_space(s[0]) {
        split_from(s.drop_first(), if cur.len() > 0 { done.push(cur) } else { done }, seq![])
    } else {
        split_from(s.drop_first(), done, cur.push(s[0]))
    }
}

/// The words of `s`: its maximal runs of characters that are not white
/// space, in order.
pub open spec fn words(s: Seq<char>) -> Seq<Seq<char>> {
    split_from(s, seq![], seq![])
}

/// Appends one character to a string.
/// Trusted: `String::push` appends `c` to the end of the string.
#[verifier::external_body]
pub fn push_char(s: &mut String, c: char)
    ensures
        final(s)@ == old(s)@.push(c),
{
    s.push(c);
}

/// Splits the first `end` characters of `v` into their words.
pub fn split_chars(v: &Vec<char>, end: usize) -> (parts: Vec<String>)
    requires
        end <= v@.len(),
    ensures
        parts.deep_view() == words(v@.take(end as int)),
{
    let ghost s = v@.take(end as int);
    let mut parts: Vec<String> = Vec::new();
    let mut cur = String::new();
    let mut cur_len: usize = 0;
    let mut i: usize = 0;
    assert(s.skip(0) == s);
    assert(parts.deep_view() =~= Seq::<Seq<char>>::empty());
    while i < end
        invariant
            end <= v@.len(),
            s == v@.take(end as int),
            i <= end,
            cur_len == cur@.len(),
            cur_len <= i,
            split_from(s.skip(i as int), parts.deep_view(), cur@) == words(s),
        decreases end - i,
    {
        let c = v[i];
        let ghost rest = s.skip(i as int);
        let ghost done0 = parts.deep_view();
        let ghost cur0 = cur@;
        assert(rest[0] == c);
        assert(rest.drop_first() == s.skip(i + 1));
        assert(split_from(rest, done0, cur0) == if is_white_space(c) {
            split_from(s.skip(i + 1), if cur0.len() > 0 { done0.push(cur0) } else { done0 }, seq![])
        } else {
            split_from(s.skip(i + 1), done0, cur0.push(c))
        });
        if is_white_space_char(c) {
            if cur_len > 0 {
                let ghost old_parts = parts.deep_view();
                parts.push(cur);
                assert(parts.deep_view() == old_parts.push(cur@));
                cur = String::new();
                cur_len = 0;
            } else {
                assert(cur0 =~= seq![]);
            }
        } else {
            push_char(&mut cur, c);
            cur_len = cur_len + 1;
        }
        i = i + 1;
    }
    if cur_len > 0 {
        let ghost old_parts = parts.deep_view();
        parts.push(cur);
        assert(parts.deep_view() == old_parts.push(cur@));
    }
    parts
}


/// A word in the sense of `words`: non-empty, with no white space in it.
pub open spec fn is_word(w: Seq<char>) -> bool {
    w.len() > 0 && forall|j: int| 0 <= j < w.len() ==> !is_white_space(#[trigger] w[j])
}

/// Text made only of white space.
pub open spec fn all_white_space(t: Seq<char>) -> bool {
    forall|j: int| 0 <= j < t.len() ==> is_white_space(#[trigger] t[j])
}

/// The words `ws` written one after another, separated by single spaces.
pub open spec fn join_words(ws: Seq<Seq<char>>) -> Seq<char>
    decreases ws.len(),
{
    if ws.len() == 0 {
        seq![]
    } else if ws.len() == 1 {
        ws[0]
    } else {
        ws[0] + seq![' '] + join_words(ws.drop_first())
    }
}

proof fn lemma_split_keeps_words(s: Seq<char>, done: Seq<Seq<char>>, cur: Seq<char>)
    requires
        forall|i: int| 0 <= i < done.len() ==> is_word(#[trigger] done[i]),
        forall|j: int| 0 <= j < cur.len() ==> !is_white_space(#[trigger] cur[j]),
    ensures
        forall|i: int|
            0 <= i < split_from(s, done, cur).len() ==> is_word(#[trigger] split_from(s, done, cur)[i]),
    decreases s.len(),
{
    if s.len() == 0 {
        let d = if cur.len() > 0 { done.push(cur) } else { done };
        assert forall|i: int| 0 <= i < d.len() implies is_word(#[trigger] d[i]) by {
            if i < done.len() {
                assert(d[i] == done[i]);
            }
        }
        assert(split_from(s, done, cur) == d);
    } else if is_white_space(s[0]) {
        let d = if cur.len() > 0 { done.push(cur) } else { done };
        assert forall|i: int| 0 <= i < d.len() implies is_word(#[trigger] d[i]) by {
            if i < done.len() {
                assert(d[i] == done[i]);
            }
        }
        lemma_split_keeps_words(s.drop_first(), d, seq![]);
        assert(split_from(s, done, cur) == split_from(s.drop_first(), d, seq![]));
    } else {
        let c = cur.push(s[0]);
        assert forall|j: int| 0 <= j < c.len() implies !is_white_space(#[trigger] c[j]) by {
            if j < cur.len() {
                assert(c[j] == cur[j]);
            }
        }
        lemma_split_keeps_words(s.drop_first(), done, c);
        assert(split_from(s, done, cur) == split_from(s.drop_first(), done, c));
    }
}

/// Every word that `words` yields is non-empty and holds no white space.
pub proof fn lemma_words_are_words(s: Seq<char>)
    ensures
        forall|i: int| 0 <= i < words(s).len() ==> is_word(#[trigger] words(s)[i]),
{
    lemma_split_keeps_words(s, seq![], seq![]);
}

proof fn lemma_split_over_word(w: Seq<char>, r: Seq<char>, done: Seq<Seq<char>>, cur: Seq<char>)
    requires
        forall|j: int| 0 <= j < w.len() ==> !is_white_space(#[trigger] w[j]),
    ensures
        split_from(w + r, done, cur) == split_from(r, done, cur + w),
    decreases w.len(),
{
    if w.len() == 0 {
        assert(w + r =~= r);
        assert(cur + w =~= cur);
    } else {
        let t = w + r;
        assert(t[0] == w[0]);
        assert(!is_white_space(w[0]));
        assert(t.drop_first() =~= w.drop_first() + r);
        let w1 = w.drop_first();
        assert forall|j: int| 0 <= j < w1.len() implies !is_white_space(#[trigger] w1[j]) by {
            assert(w1[j] == w[j + 1]);
        }
        lemma_split_over_word(w1, r, done, cur.push(w[0]));
        assert(cur.push(w[0]) + w1 =~= cur + w);
    }
}

proof fn lemma_split_white_tail(t: Seq<char>, done: Seq<Seq<char>>)
    requires
        all_white_space(t),
    ensures
        split_from(t, done, seq![]) == done,
    decreases t.len(),
{
    if t.len() > 0 {
        assert(is_white_space(t[0]));
        let t1 = t.drop_first();
        assert forall|j: int| 0 <= j < t1.len() implies is_white_space(#[trigger] t1[j]) by {
            assert(t1[j] == t[j + 1]);
        }
        lemma_split_white_tail(t1, done);
    }
}

proof fn lemma_split_joined(ws: Seq<Seq<char>>, tail: Seq<char>, done: Seq<Seq<char>>)
    requires
        forall|i: int| 0 <= i < ws.len() ==> is_word(#[trigger] ws[i]),
        all_white_space(tail),
    ensures
        split_from(join_words(ws) + tail, done, seq![]) == done + ws,
    decreases ws.len(),
{
    if ws.len() == 0 {
        assert(join_words(ws) + tail =~= tail);
        lemma_split_white_tail(tail, done);
        assert(done + ws =~= done);
    } else {
        let w = ws[0];
        assert(is_word(w));
        if ws.len() == 1 {
            lemma_split_over_word(w, tail, done, seq![]);
            assert(seq![] + w =~= w);
            if tail.len() == 0 {
            } else {
                assert(is_white_space(tail[0]));
                let t1 = tail.drop_first();
                assert forall|j: int| 0 <= j < t1.len() implies is_white_space(#[trigger] t1[j]) by {
                    assert(t1[j] == tail[j + 1]);
                }
                lemma_split_white_tail(t1, done.push(w));
            }
            assert(done + ws =~= done.push(w));
        } else {
            let rest = ws.drop_first();
            let r = seq![' '] + join_words(rest) + tail;
            assert(join_words(ws) + tail =~= w + r);
            lemma_split_over_word(w, r, done, seq![]);
            assert(seq![] + w =~= w);
            assert(r[0] == ' ');
            assert(r.drop_first() =~= join_words(rest) + tail);
            assert forall|i: int| 0 <= i < rest.len() implies is_word(#[trigger] rest[i]) by {
                assert(rest[i] == ws[i + 1]);
            }
            lemma_split_joined(rest, tail, done.push(w));
            assert(done.push(w) + rest =~= done + ws);
        }
    }
}

/// Words written with single spaces between them, followed by any white
/// space, split back into exactly those words.
pub proof fn lemma_words_of_joined(ws: Seq<Seq<char>>, tail: Seq<char>)
    requires
        forall|i: int| 0 <= i < ws.len() ==> is_word(#[trigger] ws[i]),
        all_white_space(tail),
    ensures
        words(join_words(ws) + tail) == ws,
{
    lemma_split_joined(ws, tail, seq![]);
    assert(seq![] + ws =~= ws);
}


/// The characters of `s`, one by one.
pub fn chars_of(s: &str) -> (v: Vec<char>)
    ensures
        v@ == s@,
{
    let n = s.unicode_len();
    let mut v: Vec<char> = Vec::new();
    let mut i: usize = 0;
    while i < n
        invariant
            n == s@.len(),
            i <= n,
            v@ == s@.take(i as int),
        decreases n - i,
    {
        let c = s.get_char(i);
        v.push(c);
        i = i + 1;
        assert(v@ =~= s@.take(i as int));
    }
    assert(s@.take(n as int) =~= s@);
    v
}

/// Whether two texts are the same, character for character.
pub fn text_eq(a: &str, b: &str) -> (r: bool)
    ensures
        r == (a@ == b@),
{
    let x = chars_of(a);
    let y = chars_of(b);
    if x.len() != y.len() {
        return false;
    }
    let mut i: usize = 0;
    while i < x.len()
        invariant
            x@ == a@,
            y@ == b@,
            x.len() == y.len(),
            i <= x.len(),
            forall|j: int| 0 <= j < i ==> x@[j] == y@[j],
        decreases x.len() - i,
    {
        if x[i] != y[i] {
            return false;
        }
        i = i + 1;
    }
    assert(x@ =~= y@);
    true
}


/// Splits `s` into its words, as `str::split_whitespace` does.
pub fn split_whitespace(s: &str) -> (parts: Vec<String>)
    ensures
        parts.deep_view() == words(s@),
{
    let v = chars_of(s);
    assert(v@.take(v@.len() as int) =~= s@);
    split_chars(&v, v.len())
}

/// `s` without its leading white space.
pub open spec fn trim_start(s: Seq<char>) -> Seq<char>
    decreases s.len(),
{
    if s.len() > 0 && is_white_space(s[0]) {
        trim_start(s.drop_first())
    } else {
        s
    }
}

/// `s` without its trailing white space.
pub open spec fn trim_end(s: Seq<char>) -> Seq<char>
    decreases s.len(),
{
    if s.len() > 0 && is_white_space(s.last()) {
        trim_end(s.drop_last())
    } else {
        s
    }
}

/// `s` without leading or trailing white space, as `str::trim` gives it.
pub open spec fn trimmed(s: Seq<char>) -> Seq<char> {
    trim_end(trim_start(s))
}

/// The characters of `v` from `from` up to `to`, as a string.
pub fn string_of(v: &Vec<char>, from: usize, to: usize) -> (r: String)
    requires
        from <= to <= v@.len(),
    ensures
        r@ == v@.subrange(from as int, to as int),
{
    let mut r = String::new();
    let mut i = from;
    while i < to
        invariant
            from <= i <= to <= v@.len(),
            r@ == v@.subrange(from as int, i as int),
        decreases to - i,
    {
        push_char(&mut r, v[i]);
        i = i + 1;
        assert(r@ =~= v@.subrange(from as int, i as int));
    }
    r
}

/// `s` without leading or trailing white space.
pub fn trim(s: &str) -> (r: String)
    ensures
        r@ == trimmed(s@),
{
    let v = chars_of(s);
    let n = v.len();
    let mut a: usize = 0;
    assert(v@.skip(0) =~= v@);
    while a < n && is_white_space_char(v[a])
        invariant
            n == v@.len(),
            a <= n,
            trim_start(v@.skip(a as int)) == trim_start(v@),
        decreases n - a,
    {
        assert(v@.skip(a as int).drop_first() =~= v@.skip(a + 1));
        a = a + 1;
    }
    let ghost u = v@.skip(a as int);
    assert(trim_start(u) == u);
    let mut b: usize = n;
    assert(v@.subrange(a as int, n as int) =~= u);
    while b > a && is_white_space_char(v[b - 1])
        invariant
            n == v@.len(),
            a <= b <= n,
            u == v@.skip(a as int),
            trim_end(v@.subrange(a as int, b as int)) == trim_end(u),
        decreases b - a,
    {
        let ghost w = v@.subrange(a as int, b as int);
        assert(w.last() == v@[b - 1]);
        assert(w.drop_last() =~= v@.subrange(a as int, b - 1));
        b = b - 1;
    }
    let ghost w = v@.subrange(a as int, b as int);
    assert(trim_end(w) == w);
    string_of(&v, a, b)
}

/// `s` without the `'\0'` characters at its end.
pub open spec fn trim_end_nul(s: Seq<char>) -> Seq<char>
    decreases s.len(),
{
    if s.len() > 0 && s.last() == '\0' {
        trim_end_nul(s.drop_last())
    } else {
        s
    }
}

/// Decoding of `bytes` as UTF-8 with each invalid sequence replaced by
/// U+FFFD, as `String::from_utf8_lossy` does it.
pub uninterp spec fn lossy_utf8(bytes: Seq<u8>) -> Seq<char>;

/// Decodes bytes received from a client.
/// Trusted: `String::from_utf8_lossy` turns `bytes` into text, replacing each
/// invalid UTF-8 sequence by U+FFFD; valid UTF-8 comes out as its plain
/// decoding. Which replacement characters stand where in other input is not
/// stated here: the result is only named, as `lossy_utf8(bytes)`.
#[verifier::external_body]
pub fn decode_lossy(bytes: &[u8]) -> (s: String)
    ensures
        s@ == lossy_utf8(bytes@),
        vstd::utf8::valid_utf8(bytes@) ==> s@ == vstd::utf8::decode_utf8(bytes@),
{
    String::from_utf8_lossy(bytes).into_owned()
}

/// The words of `bytes` read as text, after dropping the `'\0'` characters
/// that pad the end of a receive buffer.
pub fn words_of_buffer(bytes: &[u8]) -> (parts: Vec<String>)
    ensures
        parts.deep_view() == words(trim_end_nul(lossy_utf8(bytes@))),
{
    let text = decode_lossy(bytes);
    let v = chars_of(text.as_str());
    let mut end = v.len();
    assert(v@.take(end as int) =~= v@);
    while end > 0 && v[end - 1] == '\0'
        invariant
            end <= v@.len(),
            v@ == lossy_utf8(bytes@),
            trim_end_nul(v@.take(end as int)) == trim_end_nul(v@),
        decreases end,
    {
        assert(v@.take(end as int).drop_last() =~= v@.take(end - 1));
        end = end - 1;
    }
    split_chars(&v, end)
}

} // verus!
