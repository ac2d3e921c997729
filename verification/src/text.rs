//! Text: characters, trimming, searching, splitting and replacing.

use vstd::prelude::*;

verus! {

/// `String::push` of the standard library: appends the character.
pub assume_specification[ String::push ](s: &mut String, c: char)
    ensures
        final(s)@ == old(s)@.push(c),
;

/// A text in lower case, as `str::to_lowercase` of the standard library gives it.
pub uninterp spec fn lowercased(s: Seq<char>) -> Seq<char>;

/// `str::to_lowercase` of the standard library: its result is a function of the text.
pub assume_specification[ str::to_lowercase ](s: &str) -> (res: String)
    ensures
        res@ == lowercased(s@),
;

/// The characters of a text.
pub fn chars_of(s: &str) -> (res: Vec<char>)
    ensures
        res@ == s@,
{
    let mut out: Vec<char> = Vec::new();
    for c in it: s.chars()
        invariant
            it.seq() == s@,
            out@ == s@.take(it.index()),
    {
        assert(s@.take(it.index() + 1) =~= s@.take(it.index()).push(c));
        out.push(c);
    }
    assert(s@.take(s@.len() as int) =~= s@);
    out
}

/// The text of some characters.
pub fn string_of(chars: &[char]) -> (res: String)
    ensures
        res@ == chars@,
{
    let mut out: String = String::new();
    for i in 0..chars.len()
        invariant
            out@ == chars@.take(i as int),
    {
        assert(chars@.take(i + 1) =~= chars@.take(i as int).push(chars@[i as int]));
        out.push(chars[i]);
    }
    assert(chars@.take(chars@.len() as int) =~= chars@);
    out
}

/// The text of the characters from `from` up to `to`.
pub fn text_between(chars: &Vec<char>, from: usize, to: usize) -> (res: String)
    requires
        from <= to <= chars@.len(),
    ensures
        res@ == chars@.subrange(from as int, to as int),
{
    string_of(vstd::slice::slice_subrange(chars.as_slice(), from, to))
}

/// Whether two texts are the same.
pub fn same_text(a: &str, b: &str) -> (res: bool)
    ensures
        res == (a@ == b@),
{
    a.to_owned() == b.to_owned()
}

/// Two texts, one behind the other.
pub fn joined(a: &str, b: &str) -> (res: String)
    ensures
        res@ == a@ + b@,
{
    let mut out: String = a.to_owned();
    out.append(b);
    out
}

/// The characters of the Unicode property `White_Space`.
pub open spec fn white_space(c: char) -> bool {
    let u = c as u32;
    ||| 0x9 <= u <= 0xD
    ||| u == 0x20
    ||| u == 0x85
    ||| u == 0xA0
    ||| u == 0x1680
    ||| 0x2000 <= u <= 0x200A
    ||| u == 0x2028
    ||| u == 0x2029
    ||| u == 0x202F
    ||| u == 0x205F
    ||| u == 0x3000
}

/// Whether a character is white space.
pub fn is_white_space(c: char) -> (res: bool)
    ensures
        res == white_space(c),
{
    let u: u32 = c as u32;
    (0x9 <= u && u <= 0xD) || u == 0x20 || u == 0x85 || u == 0xA0 || u == 0x1680 || (0x2000 <= u && u
        <= 0x200A) || u == 0x2028 || u == 0x2029 || u == 0x202F || u == 0x205F || u == 0x3000
}

/// The text without the white space in front.
pub open spec fn trimmed_start(s: Seq<char>) -> Seq<char>
    decreases s.len(),
{
    if s.len() > 0 && white_space(s[0]) {
        trimmed_start(s.drop_first())
    } else {
        s
    }
}

/// The text without the white space at the end.
pub open spec fn trimmed_end(s: Seq<char>) -> Seq<char>
    decreases s.len(),
{
    if s.len() > 0 && white_space(s.last()) {
        trimmed_end(s.drop_last())
    } else {
        s
    }
}

/// The text without the white space in front and at the end.
pub open spec fn trimmed(s: Seq<char>) -> Seq<char> {
    trimmed_end(trimmed_start(s))
}

/// The text without the white space in front and at the end.
pub fn trim(s: &str) -> (res: String)
    ensures
        res@ == trimmed(s@),
{
    let chars = chars_of(s);
    let mut from: usize = 0;
    assert(s@.skip(0) =~= s@);
    while from < chars.len() && is_white_space(chars[from])
        invariant
            chars@ == s@,
            from <= chars@.len(),
            trimmed_start(s@.skip(from as int)) == trimmed_start(s@),
        decreases chars@.len() - from,
    {
        assert(s@.skip(from as int).drop_first() =~= s@.skip(from + 1));
        from = from + 1;
    }
    let mut to: usize = chars.len();
    let ghost t = s@.skip(from as int);
    assert(t =~= s@.subrange(from as int, to as int));
    assert(trimmed_start(s@) == t);
    while to > from && is_white_space(chars[to - 1])
        invariant
            chars@ == s@,
            from <= to <= chars@.len(),
            trimmed_end(s@.subrange(from as int, to as int)) == trimmed_end(t),
        decreases to,
    {
        assert(s@.subrange(from as int, to as int).drop_last() =~= s@.subrange(
            from as int,
            to - 1,
        ));
        to = to - 1;
    }
    text_between(&chars, from, to)
}

/// Whether there is nothing but white space in a text.
pub fn is_blank(s: &str) -> (res: bool)
    ensures
        res == (trimmed(s@).len() == 0),
{
    let t = trim(s);
    t.as_str().is_empty()
}

/// `s` begins with `prefix`.
pub open spec fn begins_with(s: Seq<char>, prefix: Seq<char>) -> bool {
    prefix.len() <= s.len() && s.take(prefix.len() as int) == prefix
}

/// `s` ends with `suffix`.
pub open spec fn finishes_with(s: Seq<char>, suffix: Seq<char>) -> bool {
    suffix.len() <= s.len() && s.skip(s.len() - suffix.len()) == suffix
}

/// `part` stands at index `i` of `s`.
pub open spec fn stands_at(s: Seq<char>, part: Seq<char>, i: int) -> bool {
    0 <= i && i + part.len() <= s.len() && s.subrange(i, i + part.len()) == part
}

/// `part` stands somewhere in `s`.
pub open spec fn holds(s: Seq<char>, part: Seq<char>) -> bool {
    exists|i: int| stands_at(s, part, i)
}

/// Whether `part` stands at index `i`.
fn is_at(s: &Vec<char>, part: &Vec<char>, i: usize) -> (res: bool)
    requires
        i <= s@.len(),
    ensures
        res == stands_at(s@, part@, i as int),
{
    if s.len() - i < part.len() {
        return false;
    }
    let mut k: usize = 0;
    while k < part.len()
        invariant
            k <= part@.len(),
            i + part.len() <= s.len(),
            forall|j: int| 0 <= j < k ==> s@[i + j] == part@[j],
        decreases part@.len() - k,
    {
        if s[i + k] != part[k] {
            assert(s@.subrange(i as int, i + part@.len())[k as int] != part@[k as int]);
            return false;
        }
        k = k + 1;
    }
    assert(s@.subrange(i as int, i + part@.len()) =~= part@);
    true
}

/// Whether a text begins with `prefix`.
pub fn starts_with(s: &str, prefix: &str) -> (res: bool)
    ensures
        res == begins_with(s@, prefix@),
{
    let chars = chars_of(s);
    let part = chars_of(prefix);
    assert(part@.len() <= s@.len() ==> s@.take(part@.len() as int) =~= s@.subrange(
        0,
        part@.len() as int,
    ));
    is_at(&chars, &part, 0)
}

/// Whether a text ends with `suffix`.
pub fn ends_with(s: &str, suffix: &str) -> (res: bool)
    ensures
        res == finishes_with(s@, suffix@),
{
    let chars = chars_of(s);
    let part = chars_of(suffix);
    if part.len() > chars.len() {
        return false;
    }
    let at: usize = chars.len() - part.len();
    assert(s@.skip(at as int) =~= s@.subrange(at as int, at + part@.len()));
    is_at(&chars, &part, at)
}

/// Whether `part` stands in a text.
pub fn contains(s: &str, part: &str) -> (res: bool)
    ensures
        res == holds(s@, part@),
{
    let chars = chars_of(s);
    let piece = chars_of(part);
    let mut i: usize = 0;
    while i < chars.len()
        invariant
            chars@ == s@,
            piece@ == part@,
            i <= chars@.len(),
            forall|j: int| 0 <= j < i ==> !#[trigger] stands_at(s@, piece@, j),
        decreases chars@.len() - i,
    {
        if is_at(&chars, &piece, i) {
            return true;
        }
        i = i + 1;
    }
    is_at(&chars, &piece, i)
}

/// The text behind `prefix`, where it begins with that.
pub open spec fn behind_prefix(s: Seq<char>, prefix: Seq<char>) -> Option<Seq<char>> {
    if begins_with(s, prefix) {
        Some(s.skip(prefix.len() as int))
    } else {
        None
    }
}

/// The text behind `prefix`, where it begins with that.
pub fn strip_prefix(s: &str, prefix: &str) -> (res: Option<String>)
    ensures
        match res {
            Some(t) => behind_prefix(s@, prefix@) == Some(t@),
            None => behind_prefix(s@, prefix@) is None,
        },
{
    if !starts_with(s, prefix) {
        return None;
    }
    let chars = chars_of(s);
    let n: usize = chars_of(prefix).len();
    assert(s@.subrange(n as int, s@.len() as int) =~= s@.skip(n as int));
    Some(text_between(&chars, n, chars.len()))
}

/// `i` is the index of the first `c` of `s`.
pub open spec fn is_first_index(s: Seq<char>, c: char, i: int) -> bool {
    0 <= i < s.len() && s[i] == c && forall|j: int| 0 <= j < i ==> #[trigger] s[j] != c
}

/// The text in front of the first `c`; the whole text where there is none.
pub open spec fn before_char(s: Seq<char>, c: char) -> Seq<char>
    decreases s.len(),
{
    if s.len() == 0 || s[0] == c {
        Seq::empty()
    } else {
        seq![s[0]] + before_char(s.drop_first(), c)
    }
}

/// What stands in front of the first `c` ends right before it, or is everything.
pub proof fn lemma_before_char(s: Seq<char>, c: char)
    ensures
        before_char(s, c).len() <= s.len(),
        before_char(s, c) == s.take(before_char(s, c).len() as int),
        before_char(s, c).len() < s.len() <==> s.contains(c),
        before_char(s, c).len() < s.len() ==> is_first_index(
            s,
            c,
            before_char(s, c).len() as int,
        ),
    decreases s.len(),
{
    let b = before_char(s, c);
    if s.len() > 0 && s[0] != c {
        let t = s.drop_first();
        lemma_before_char(t, c);
        let bt = before_char(t, c);
        assert(b =~= s.take(b.len() as int));
        if bt.len() < t.len() {
            assert(s[b.len() as int] == t[bt.len() as int]);
            assert forall|j: int| 0 <= j < b.len() implies #[trigger] s[j] != c by {
                if j > 0 {
                    assert(t[j - 1] != c);
                }
            }
        } else {
            if s.contains(c) {
                let k = choose|k: int| 0 <= k < s.len() && s[k] == c;
                assert(t[k - 1] == c);
            }
        }
    } else {
        assert(b =~= s.take(0));
        if s.len() > 0 {
            assert(s.contains(c));
        }
    }
}

/// The index of the first `c`; the length where there is none.
fn find_char(chars: &Vec<char>, c: char, from: usize) -> (res: usize)
    requires
        from <= chars@.len(),
    ensures
        from <= res <= chars@.len(),
        res - from == before_char(chars@.skip(from as int), c).len(),
{
    let ghost s = chars@.skip(from as int);
    let mut i: usize = from;
    while i < chars.len() && chars[i] != c
        invariant
            from <= i <= chars@.len(),
            s == chars@.skip(from as int),
            forall|j: int| 0 <= j < i - from ==> #[trigger] s[j] != c,
        decreases chars@.len() - i,
    {
        assert(s[i - from] != c);
        i = i + 1;
    }
    proof {
        lemma_before_char(s, c);
        let n = before_char(s, c).len() as int;
        if n < s.len() {
            if n < i - from {
                assert(s[n] != c);
            }
            if i - from < n {
                assert(s[i - from] == c);
            }
        } else {
            if i < chars@.len() {
                assert(s[i - from] == c);
                assert(s.contains(c));
            }
        }
    }
    i
}

/// The text in front of the first `c`; the whole text where there is none.
pub fn up_to_char(s: &str, c: char) -> (res: String)
    ensures
        res@ == before_char(s@, c),
{
    let chars = chars_of(s);
    assert(s@.skip(0) =~= s@);
    let i: usize = find_char(&chars, c, 0);
    proof {
        lemma_before_char(s@, c);
        assert(s@.subrange(0, i as int) =~= s@.take(i as int));
    }
    text_between(&chars, 0, i)
}

/// The texts in front of and behind the first `c`.
pub open spec fn split_at_char(s: Seq<char>, c: char) -> Option<(Seq<char>, Seq<char>)> {
    if s.contains(c) {
        Some((before_char(s, c), s.skip(before_char(s, c).len() as int + 1)))
    } else {
        None
    }
}

/// The texts in front of and behind the first `c`.
pub fn split_once(s: &str, c: char) -> (res: Option<(String, String)>)
    ensures
        match res {
            Some(p) => split_at_char(s@, c) == Some((p.0@, p.1@)),
            None => split_at_char(s@, c) is None,
        },
{
    let chars = chars_of(s);
    assert(s@.skip(0) =~= s@);
    let i: usize = find_char(&chars, c, 0);
    proof {
        lemma_before_char(s@, c);
    }
    if i == chars.len() {
        return None;
    }
    proof {
        assert(s@.subrange(0, i as int) =~= s@.take(i as int));
        assert(s@.subrange(i + 1, s@.len() as int) =~= s@.skip(i + 1));
    }
    Some((text_between(&chars, 0, i), text_between(&chars, i + 1, chars.len())))
}

/// A line without the carriage return in front of its line feed.
pub open spec fn without_carriage_return(line: Seq<char>) -> Seq<char> {
    if line.len() > 0 && line.last() == '\r' {
        line.drop_last()
    } else {
        line
    }
}

/// The lines of a text: each ends with a line feed, with or without a carriage return in front of
/// it; what stands behind the last line feed is a line where it is not empty.
pub open spec fn lines_of(s: Seq<char>) -> Seq<Seq<char>>
    decreases s.len(),
{
    if s.len() == 0 {
        Seq::empty()
    } else if s.contains('\n') {
        let n = before_char(s, '\n').len() as int;
        if n + 1 <= s.len() {
            seq![without_carriage_return(before_char(s, '\n'))] + lines_of(s.skip(n + 1))
        } else {
            Seq::empty()
        }
    } else {
        seq![s]
    }
}

/// The views of texts.
pub open spec fn text_views(s: Seq<String>) -> Seq<Seq<char>> {
    s.map_values(|t: String| t@)
}

/// The lines of a text.
pub fn lines(s: &str) -> (res: Vec<String>)
    ensures
        text_views(res@) == lines_of(s@),
{
    let chars = chars_of(s);
    let mut out: Vec<String> = Vec::new();
    let mut at: usize = 0;
    assert(s@.skip(0) =~= s@);
    assert(text_views(out@) + lines_of(s@) =~= lines_of(s@));
    while at < chars.len()
        invariant
            chars@ == s@,
            at <= chars@.len(),
            text_views(out@) + lines_of(s@.skip(at as int)) == lines_of(s@),
        decreases chars@.len() - at,
    {
        let ghost r = s@.skip(at as int);
        let ghost before = out@;
        proof {
            lemma_before_char(r, '\n');
        }
        let i: usize = find_char(&chars, '\n', at);
        assert(s@.subrange(at as int, i as int) =~= r.take(i - at));
        let ghost line = before_char(r, '\n');
        if i < chars.len() && i > at && chars[i - 1] == '\r' {
            assert(s@.subrange(at as int, i - 1) =~= line.drop_last());
            out.push(text_between(&chars, at, i - 1));
        } else {
            out.push(text_between(&chars, at, i));
        }
        proof {
            if i < chars@.len() {
                assert(text_views(out@) =~= text_views(before).push(without_carriage_return(line)));
                assert(r.skip(i - at + 1) =~= s@.skip(i + 1));
                assert(text_views(before) + lines_of(r) =~= text_views(out@) + lines_of(
                    s@.skip(i + 1),
                ));
            } else {
                assert(r.take(r.len() as int) =~= r);
                assert(text_views(out@) =~= text_views(before).push(r));
                assert(text_views(before) + lines_of(r) =~= text_views(out@));
                assert(s@.skip(chars@.len() as int) =~= Seq::<char>::empty());
                assert(text_views(out@) + lines_of(Seq::<char>::empty()) =~= text_views(out@));
            }
        }
        at = if i < chars.len() {
            i + 1
        } else {
            i
        };
    }
    assert(s@.skip(at as int) =~= Seq::<char>::empty());
    assert(text_views(out@) + lines_of(Seq::<char>::empty()) =~= text_views(out@));
    out
}

/// `s` with every `part` replaced by `with`, from left to right.
pub open spec fn replaced(s: Seq<char>, part: Seq<char>, with: Seq<char>) -> Seq<char>
    decreases s.len(),
{
    if s.len() == 0 || part.len() == 0 {
        s
    } else if begins_with(s, part) {
        with + replaced(s.skip(part.len() as int), part, with)
    } else {
        seq![s[0]] + replaced(s.drop_first(), part, with)
    }
}

/// Replaces every `part` of a text.
pub fn replace(s: &str, part: &str, with: &str) -> (res: String)
    requires
        part@.len() > 0,
    ensures
        res@ == replaced(s@, part@, with@),
{
    let chars = chars_of(s);
    let piece = chars_of(part);
    let mut out: String = String::new();
    let mut at: usize = 0;
    assert(s@.skip(0) =~= s@);
    assert(out@ + replaced(s@, part@, with@) =~= replaced(s@, part@, with@));
    while at < chars.len()
        invariant
            chars@ == s@,
            piece@ == part@,
            part@.len() > 0,
            at <= chars@.len(),
            out@ + replaced(s@.skip(at as int), part@, with@) == replaced(s@, part@, with@),
        decreases chars@.len() - at,
    {
        let ghost r = s@.skip(at as int);
        let ghost before = out@;
        if is_at(&chars, &piece, at) {
            assert(r.take(part@.len() as int) =~= s@.subrange(at as int, at + part@.len()));
            out.append(with);
            at = at + piece.len();
            assert(r.skip(part@.len() as int) =~= s@.skip(at as int));
            assert(before + (with@ + replaced(s@.skip(at as int), part@, with@)) =~= out@
                + replaced(s@.skip(at as int), part@, with@));
        } else {
            proof {
                if begins_with(r, part@) {
                    assert(r.take(part@.len() as int) =~= s@.subrange(
                        at as int,
                        at + part@.len(),
                    ));
                }
            }
            out.push(chars[at]);
            at = at + 1;
            assert(r.drop_first() =~= s@.skip(at as int));
            assert(before + (seq![r[0]] + replaced(s@.skip(at as int), part@, with@)) =~= out@
                + replaced(s@.skip(at as int), part@, with@));
        }
    }
    assert(s@.skip(at as int) =~= Seq::<char>::empty());
    assert(out@ + Seq::<char>::empty() =~= out@);
    out
}

/// What is trimmed off is white space, and nothing is left of it at the ends: the text is some white
/// space, what is left, and some white space, and what is left begins and ends with something else.
pub proof fn law_trimming_takes_the_white_space_off(s: Seq<char>)
    ensures
        exists|from: int, to: int| #[trigger] is_trimmed_to(s, from, to) && trimmed(s) == s.subrange(
            from,
            to,
        ),
        trimmed(s).len() > 0 ==> !white_space(trimmed(s)[0]) && !white_space(trimmed(s).last()),
        trimmed(s).len() == 0 <==> forall|i: int| 0 <= i < s.len() ==> white_space(#[trigger] s[i]),
{
    lemma_trimmed_start(s);
    let t = trimmed_start(s);
    lemma_trimmed_end(t);
    let from = s.len() - t.len();
    let to = from + trimmed_end(t).len();
    assert(t == s.skip(from));
    assert(trimmed(s) =~= s.subrange(from, to));
    assert forall|i: int| to <= i < s.len() implies white_space(#[trigger] s[i]) by {
        assert(t[i - from] == s[i]);
    }
    assert(is_trimmed_to(s, from, to));
    let r = trimmed(s);
    if r.len() > 0 {
        assert(r[0] == t[0]);
        assert(!white_space(t[0]));
    } else {
        assert forall|i: int| 0 <= i < s.len() implies white_space(#[trigger] s[i]) by {
            if i >= from {
                assert(t[i - from] == s[i]);
            }
        }
    }
    if forall|i: int| 0 <= i < s.len() ==> white_space(#[trigger] s[i]) {
        if r.len() > 0 {
            assert(r[0] == s[from]);
        }
    }
}

/// Around the characters from `from` up to `to` there is only white space.
pub open spec fn is_trimmed_to(s: Seq<char>, from: int, to: int) -> bool {
    &&& 0 <= from <= to <= s.len()
    &&& forall|i: int| 0 <= i < from ==> white_space(#[trigger] s[i])
    &&& forall|i: int| to <= i < s.len() ==> white_space(#[trigger] s[i])
}

proof fn lemma_trimmed_start(s: Seq<char>)
    ensures
        trimmed_start(s).len() <= s.len(),
        trimmed_start(s) == s.skip(s.len() - trimmed_start(s).len()),
        trimmed_start(s).len() > 0 ==> !white_space(trimmed_start(s)[0]),
        forall|i: int| 0 <= i < s.len() - trimmed_start(s).len() ==> white_space(#[trigger] s[i]),
    decreases s.len(),
{
    if s.len() > 0 && white_space(s[0]) {
        let t = s.drop_first();
        lemma_trimmed_start(t);
        assert(trimmed_start(s) =~= s.skip(s.len() - trimmed_start(s).len()));
        assert forall|i: int| 0 <= i < s.len() - trimmed_start(s).len() implies white_space(
            #[trigger] s[i],
        ) by {
            if i > 0 {
                assert(t[i - 1] == s[i]);
            }
        }
    } else {
        assert(s =~= s.skip(0));
    }
}

proof fn lemma_trimmed_end(s: Seq<char>)
    ensures
        trimmed_end(s).len() <= s.len(),
        trimmed_end(s) == s.take(trimmed_end(s).len() as int),
        trimmed_end(s).len() > 0 ==> !white_space(trimmed_end(s).last()),
        forall|i: int| trimmed_end(s).len() <= i < s.len() ==> white_space(#[trigger] s[i]),
    decreases s.len(),
{
    if s.len() > 0 && white_space(s.last()) {
        let t = s.drop_last();
        lemma_trimmed_end(t);
        assert(trimmed_end(s) =~= s.take(trimmed_end(s).len() as int));
        assert forall|i: int| trimmed_end(s).len() <= i < s.len() implies white_space(
            #[trigger] s[i],
        ) by {
            if i < t.len() {
                assert(t[i] == s[i]);
            }
        }
    } else {
        assert(s =~= s.take(s.len() as int));
    }
}

/// A text begins with its first part and ends with its last one, and holds each part; what stands
/// behind its beginning is the rest.
pub proof fn law_texts_hold_their_parts(a: Seq<char>, part: Seq<char>, b: Seq<char>)
    ensures
        begins_with(part + b, part),
        behind_prefix(part + b, part) == Some(b),
        finishes_with(a + part, part),
        holds(a + part + b, part),
{
    assert((part + b).take(part.len() as int) =~= part);
    assert((part + b).skip(part.len() as int) =~= b);
    assert((a + part).skip((a + part).len() - part.len()) =~= part);
    assert((a + part + b).subrange(a.len() as int, (a.len() + part.len()) as int) =~= part);
    assert(stands_at(a + part + b, part, a.len() as int));
}

/// Only a text that is made so begins with a part, ends with it, or holds it.
pub proof fn law_only_parts_are_held(s: Seq<char>, part: Seq<char>)
    ensures
        begins_with(s, part) ==> exists|b: Seq<char>| s == #[trigger] (part + b),
        behind_prefix(s, part) matches Some(b) ==> s == part + b,
        finishes_with(s, part) ==> exists|a: Seq<char>| s == #[trigger] (a + part),
        holds(s, part) ==> exists|a: Seq<char>, b: Seq<char>| s == #[trigger] (a + part + b),
{
    if begins_with(s, part) {
        assert(s =~= part + s.skip(part.len() as int));
    }
    if finishes_with(s, part) {
        let n = s.len() - part.len();
        assert(s =~= s.take(n) + part);
    }
    if holds(s, part) {
        let i = choose|i: int| stands_at(s, part, i);
        assert(s =~= s.take(i) + part + s.skip(i + part.len()));
    }
}

/// A text is split at the first place where the character stands: nothing of it is in front, and the
/// pieces make the text.
pub proof fn law_split_at_the_first(a: Seq<char>, c: char, b: Seq<char>)
    requires
        !a.contains(c),
    ensures
        split_at_char(a + seq![c] + b, c) == Some((a, b)),
        before_char(a + seq![c] + b, c) == a,
        split_at_char(a, c) is None,
        before_char(a, c) == a,
{
    let s = a + seq![c] + b;
    lemma_before_char(s, c);
    lemma_before_char(a, c);
    assert(s[a.len() as int] == c);
    assert(s.contains(c));
    let n = before_char(s, c).len() as int;
    if n < a.len() {
        assert(a[n] == s[n]);
        assert(a.contains(c));
    }
    if n > a.len() {
        assert(s[a.len() as int] != c);
    }
    assert(before_char(s, c) =~= a);
    assert(s.skip(n + 1) =~= b);
    assert(a.take(a.len() as int) =~= a);
}

/// A text with a line feed has the line in front of it, without the carriage return at its end, and
/// then the lines of the rest; a text without a line feed is one line, or none where it is empty.
pub proof fn law_lines_are_cut_at_line_feeds(line: Seq<char>, rest: Seq<char>)
    requires
        !line.contains('\n'),
    ensures
        lines_of(line + seq!['\n'] + rest) == seq![without_carriage_return(line)] + lines_of(rest),
        line.len() > 0 ==> lines_of(line) == seq![line],
        lines_of(Seq::empty()) == Seq::<Seq<char>>::empty(),
        without_carriage_return(line.push('\r')) == line,
        line.len() == 0 || line.last() != '\r' ==> without_carriage_return(line) == line,
{
    law_split_at_the_first(line, '\n', rest);
    let s = line + seq!['\n'] + rest;
    assert(s[line.len() as int] == '\n');
    assert(s.contains('\n'));
    assert(s.skip(line.len() as int + 1) =~= rest);
    assert(line.push('\r').drop_last() =~= line);
}

/// Replacing puts the new text in the place of a part and goes on behind it, and leaves everything
/// else; a text that does not hold the part stays.
pub proof fn law_parts_are_replaced(s: Seq<char>, part: Seq<char>, with: Seq<char>, rest: Seq<char>)
    requires
        part.len() > 0,
    ensures
        replaced(part + rest, part, with) == with + replaced(rest, part, with),
        !holds(s, part) ==> replaced(s, part, with) == s,
        s.len() > 0 && !begins_with(s, part) ==> replaced(s, part, with) == seq![s[0]] + replaced(
            s.drop_first(),
            part,
            with,
        ),
    decreases s.len(),
{
    let whole = part + rest;
    assert(whole.take(part.len() as int) =~= part);
    assert(whole.skip(part.len() as int) =~= rest);
    if !holds(s, part) && s.len() > 0 {
        let t = s.drop_first();
        if begins_with(s, part) {
            assert(s.subrange(0, part.len() as int) =~= s.take(part.len() as int));
            assert(stands_at(s, part, 0));
        }
        if holds(t, part) {
            let i = choose|i: int| stands_at(t, part, i);
            assert(s.subrange(i + 1, i + 1 + part.len()) =~= t.subrange(i, i + part.len()));
            assert(stands_at(s, part, i + 1));
        }
        law_parts_are_replaced(t, part, with, rest);
        assert(seq![s[0]] + t =~= s);
    }
}

/// White space is what has the Unicode property of this name; among the characters of ASCII these are
/// the tabulators, the ends of lines and of pages, and the blank.
pub proof fn law_white_space_of_ascii(c: char)
    requires
        c as u32 <= 0x7F,
    ensures
        white_space(c) <==> c == '\t' || c == '\n' || c as u32 == 0xB || c as u32 == 0xC || c == '\r' || c
            == ' ',
{
}

/// A text between white space is what is left of it where it begins and ends with something else.
pub proof fn law_text_between_white_space(before: Seq<char>, s: Seq<char>, after: Seq<char>)
    requires
        forall|i: int| 0 <= i < before.len() ==> white_space(#[trigger] before[i]),
        forall|i: int| 0 <= i < after.len() ==> white_space(#[trigger] after[i]),
        s.len() > 0,
        !white_space(s[0]),
        !white_space(s.last()),
    ensures
        trimmed(before + s + after) == s,
{
    let all = before + s + after;
    law_trimming_takes_the_white_space_off(all);
    let (from, to) = choose|from: int, to: int| #[trigger]
        is_trimmed_to(all, from, to) && trimmed(all) == all.subrange(from, to);
    let n = before.len() as int;
    let m = n + s.len();
    assert(all[n] == s[0]);
    assert(all[m - 1] == s.last());
    assert(from <= n);
    assert(to >= m);
    if from < n {
        assert(all[from] == before[from]);
        assert(trimmed(all)[0] == all[from]);
    }
    if to > m {
        assert(all[to - 1] == after[to - 1 - m]);
        assert(trimmed(all).last() == all[to - 1]);
    }
    assert(trimmed(all) =~= s);
}

} // verus!
