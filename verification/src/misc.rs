//! Text helpers: characters of a string, Unicode white space, splitting, and
//! the whitespace-delimited tokens that UCI commands are made of.
use vstd::prelude::*;
use crate::lan::bytes_before;

verus! {

/// Bytes in a mebibyte.
pub const MEBIBYTES: usize = 1024 * 1024;

/// Whether a character has the Unicode `White_Space` property.
pub open spec fn is_ws(c: char) -> bool {
    ||| ('\u{9}' <= c <= '\u{d}')
    ||| c == ' '
    ||| c == '\u{85}'
    ||| c == '\u{a0}'
    ||| c == '\u{1680}'
    ||| ('\u{2000}' <= c <= '\u{200a}')
    ||| c == '\u{2028}'
    ||| c == '\u{2029}'
    ||| c == '\u{202f}'
    ||| c == '\u{205f}'
    ||| c == '\u{3000}'
}

/// Whether a character has the Unicode `White_Space` property.
pub fn is_whitespace(c: char) -> (r: bool)
    ensures
        r == is_ws(c),
{
    ('\u{9}' <= c && c <= '\u{d}') || c == ' ' || c == '\u{85}' || c == '\u{a0}' || c == '\u{1680}'
        || ('\u{2000}' <= c && c <= '\u{200a}') || c == '\u{2028}' || c == '\u{2029}' || c
        == '\u{202f}' || c == '\u{205f}' || c == '\u{3000}'
}

/// The characters of a string.
pub fn chars_of(s: &str) -> (v: Vec<char>)
    ensures
        v@ == s@,
{
    let n = s.unicode_len();
    let mut v: Vec<char> = Vec::new();
    let mut i: usize = 0;
    while i < n
        invariant
            n == s@.len(),
            0 <= i <= n,
            v@ == s@.subrange(0, i as int),
        decreases n - i,
    {
        v.push(s.get_char(i));
        i = i + 1;
        proof {
            assert(v@ =~= s@.subrange(0, i as int));
        }
    }
    proof {
        assert(v@ =~= s@);
    }
    v
}

/// Splitting from index `i` on, with the pieces `done` already cut and the
/// piece `cur` being read: every `sep` ends a piece.
pub open spec fn split_from(s: Seq<char>, sep: char, i: int, cur: Seq<char>, done: Seq<Seq<char>>) -> Seq<Seq<char>>
    decreases s.len() - i,
{
    if i < 0 || i >= s.len() {
        done.push(cur)
    } else if s[i] == sep {
        split_from(s, sep, i + 1, Seq::empty(), done.push(cur))
    } else {
        split_from(s, sep, i + 1, cur.push(s[i]), done)
    }
}

/// The pieces of `s` between the separators `sep` (always at least one).
pub open spec fn split_on(s: Seq<char>, sep: char) -> Seq<Seq<char>> {
    split_from(s, sep, 0, Seq::empty(), Seq::empty())
}

proof fn lemma_split_read(s: Seq<char>, sep: char, i: int, j: int, cur: Seq<char>, done: Seq<Seq<char>>)
    requires
        0 <= i <= j <= s.len(),
        forall|k: int| i <= k < j ==> s[k] != sep,
    ensures
        split_from(s, sep, i, cur, done) == split_from(s, sep, j, cur + s.subrange(i, j), done),
    decreases j - i,
{
    if i < j {
        lemma_split_read(s, sep, i + 1, j, cur.push(s[i]), done);
        assert(cur.push(s[i]) + s.subrange(i + 1, j) =~= cur + s.subrange(i, j));
    } else {
        assert(cur + s.subrange(i, j) =~= cur);
    }
}

proof fn lemma_split_shift(p: Seq<char>, b: Seq<char>, sep: char, j: int, cur: Seq<char>, done: Seq<Seq<char>>)
    requires
        0 <= j <= b.len(),
    ensures
        split_from(p + b, sep, p.len() + j, cur, done) == split_from(b, sep, j, cur, done),
    decreases b.len() - j,
{
    if j < b.len() {
        assert((p + b)[p.len() + j] == b[j]);
        if b[j] == sep {
            lemma_split_shift(p, b, sep, j + 1, Seq::empty(), done.push(cur));
        } else {
            lemma_split_shift(p, b, sep, j + 1, cur.push(b[j]), done);
        }
    }
}

proof fn lemma_split_done(b: Seq<char>, sep: char, j: int, cur: Seq<char>, done: Seq<Seq<char>>)
    ensures
        split_from(b, sep, j, cur, done) == done + split_from(b, sep, j, cur, Seq::empty()),
    decreases b.len() - j,
{
    if j < 0 || j >= b.len() {
        assert(done.push(cur) =~= done + Seq::<Seq<char>>::empty().push(cur));
    } else if b[j] == sep {
        lemma_split_done(b, sep, j + 1, Seq::empty(), done.push(cur));
        lemma_split_done(b, sep, j + 1, Seq::empty(), Seq::empty().push(cur));
        assert(done.push(cur) + split_from(b, sep, j + 1, Seq::empty(), Seq::empty()) =~= done + (
        Seq::<Seq<char>>::empty().push(cur) + split_from(b, sep, j + 1, Seq::empty(), Seq::empty())));
    } else {
        lemma_split_done(b, sep, j + 1, cur.push(b[j]), done);
        lemma_split_done(b, sep, j + 1, cur.push(b[j]), Seq::empty());
    }
}

/// A text without the separator is one piece.
pub proof fn lemma_split_single(a: Seq<char>, sep: char)
    requires
        !a.contains(sep),
    ensures
        split_on(a, sep) == seq![a],
{
    assert forall|k: int| 0 <= k < a.len() implies a[k] != sep by {
        if a[k] == sep {
            assert(a.contains(sep));
        }
    }
    lemma_split_read(a, sep, 0, a.len() as int, Seq::empty(), Seq::empty());
    assert(Seq::<char>::empty() + a.subrange(0, a.len() as int) =~= a);
    assert(Seq::<Seq<char>>::empty().push(a) =~= seq![a]);
}

/// Cutting a text without the separator, then the separator, then more
/// text, gives that text and then the pieces of the rest.
pub proof fn lemma_split_concat(a: Seq<char>, b: Seq<char>, sep: char)
    requires
        !a.contains(sep),
    ensures
        split_on(a + seq![sep] + b, sep) == seq![a] + split_on(b, sep),
{
    let s = a + seq![sep] + b;
    assert forall|k: int| 0 <= k < a.len() implies s[k] != sep by {
        assert(s[k] == a[k]);
        if a[k] == sep {
            assert(a.contains(sep));
        }
    }
    lemma_split_read(s, sep, 0, a.len() as int, Seq::empty(), Seq::empty());
    assert(Seq::<char>::empty() + s.subrange(0, a.len() as int) =~= a);
    assert(s[a.len() as int] == sep);
    let p = a + seq![sep];
    assert(s =~= p + b);
    lemma_split_shift(p, b, sep, 0, Seq::empty(), Seq::<Seq<char>>::empty().push(a));
    lemma_split_done(b, sep, 0, Seq::empty(), Seq::<Seq<char>>::empty().push(a));
    assert(Seq::<Seq<char>>::empty().push(a) =~= seq![a]);
}

/// The views of a list of character lists.
pub open spec fn views(v: Seq<Vec<char>>) -> Seq<Seq<char>> {
    v.map_values(|p: Vec<char>| p@)
}

/// Cuts `s` at every `sep`, as `split_on` says.
pub fn split_chars(s: &Vec<char>, sep: char) -> (r: Vec<Vec<char>>)
    ensures
        views(r@) == split_on(s@, sep),
{
    let mut done: Vec<Vec<char>> = Vec::new();
    let mut cur: Vec<char> = Vec::new();
    let mut i: usize = 0;
    proof {
        assert(views(done@) =~= Seq::<Seq<char>>::empty());
        assert(cur@ =~= Seq::<char>::empty());
    }
    while i < s.len()
        invariant
            0 <= i <= s@.len(),
            split_on(s@, sep) == split_from(s@, sep, i as int, cur@, views(done@)),
        decreases s@.len() - i,
    {
        if s[i] == sep {
            let piece = cur;
            proof {
                assert(views(done@.push(piece)) =~= views(done@).push(piece@));
            }
            done.push(piece);
            cur = Vec::new();
            proof {
                assert(cur@ =~= Seq::<char>::empty());
            }
        } else {
            cur.push(s[i]);
        }
        i = i + 1;
    }
    proof {
        assert(views(done@.push(cur)) =~= views(done@).push(cur@));
    }
    done.push(cur);
    done
}

/// The first index from `i` on that holds no white space (or the length).
pub open spec fn skip_ws(s: Seq<char>, i: int) -> int
    decreases s.len() - i,
{
    if i < 0 || i >= s.len() {
        i
    } else if is_ws(s[i]) {
        skip_ws(s, i + 1)
    } else {
        i
    }
}

/// The end of the text before the white space that ends it, looking back from `j`.
pub open spec fn back_ws(s: Seq<char>, j: int) -> int
    decreases j,
{
    if j <= 0 || j > s.len() {
        j
    } else if is_ws(s[j - 1]) {
        back_ws(s, j - 1)
    } else {
        j
    }
}

/// The first white-space index from `i` on (or the length).
pub open spec fn next_ws(s: Seq<char>, i: int) -> int
    decreases s.len() - i,
{
    if i < 0 || i >= s.len() {
        i
    } else if is_ws(s[i]) {
        i
    } else {
        next_ws(s, i + 1)
    }
}

/// The text without the white space that starts and ends it.
pub open spec fn trim_ws(s: Seq<char>) -> Seq<char> {
    let a = skip_ws(s, 0);
    let b = back_ws(s, s.len() as int);
    if a < b {
        s.subrange(a, b)
    } else {
        Seq::empty()
    }
}

/// The text without the white space that starts and ends it.
pub fn trim(s: &str) -> (r: &str)
    ensures
        r@ == trim_ws(s@),
        r@.len() <= s@.len(),
{
    let n = s.unicode_len();
    let mut a: usize = 0;
    while a < n && is_whitespace(s.get_char(a))
        invariant
            0 <= a <= n,
            n == s@.len(),
            skip_ws(s@, 0) == skip_ws(s@, a as int),
        decreases n - a,
    {
        a = a + 1;
    }
    let mut b: usize = n;
    while b > 0 && is_whitespace(s.get_char(b - 1))
        invariant
            0 <= b <= n,
            n == s@.len(),
            back_ws(s@, n as int) == back_ws(s@, b as int),
        decreases b,
    {
        b = b - 1;
    }
    if a < b {
        s.substring_char(a, b)
    } else {
        proof {
            reveal_strlit("");
        }
        ""
    }
}

/// Whether two texts are the same.
pub fn str_eq(a: &str, b: &str) -> (r: bool)
    ensures
        r == (a@ == b@),
{
    let n = a.unicode_len();
    if b.unicode_len() != n {
        return false;
    }
    let mut i: usize = 0;
    while i < n
        invariant
            0 <= i <= n,
            n == a@.len(),
            n == b@.len(),
            forall|j: int| 0 <= j < i ==> a@[j] == b@[j],
        decreases n - i,
    {
        if a.get_char(i) != b.get_char(i) {
            return false;
        }
        i = i + 1;
    }
    proof {
        assert(a@ =~= b@);
    }
    true
}

/// `t` starts `s` as a whole token: it is a prefix, followed by the end or by white space.
pub open spec fn token_prefix(s: Seq<char>, t: Seq<char>) -> bool {
    t.len() <= s.len() && s.subrange(0, t.len() as int) == t && (s.len() == t.len() || is_ws(
        s[t.len() as int],
    ))
}

/// `t` occurs in `s` at index `p`.
pub open spec fn occurs_at(s: Seq<char>, t: Seq<char>, p: int) -> bool {
    0 <= p && p + t.len() <= s.len() && s.subrange(p, p + t.len()) == t
}

/// The first index from `from` on where `t` occurs in `s`.
pub open spec fn next_match(s: Seq<char>, t: Seq<char>, from: int) -> Option<int>
    decreases s.len() + 1 - from,
{
    if from < 0 || from + t.len() > s.len() {
        None
    } else if occurs_at(s, t, from) {
        Some(from)
    } else {
        next_match(s, t, from + 1)
    }
}

/// An occurrence of `t` at `p` stands alone: white space or an end on both sides.
pub open spec fn token_at(s: Seq<char>, t: Seq<char>, p: int) -> bool {
    (p + t.len() == s.len() || is_ws(s[p + t.len()])) && (p == 0 || is_ws(s[p - 1]))
}

/// Among the occurrences of `t` found left to right without overlap, from
/// `from` on, the first that stands alone.
pub open spec fn find_token_from(s: Seq<char>, t: Seq<char>, from: int) -> Option<int>
    decreases s.len() + 1 - from,
{
    match next_match(s, t, from) {
        None => None,
        Some(p) => if p < from || p + t.len() > s.len() {
            None
        } else if token_at(s, t, p) {
            Some(p)
        } else {
            find_token_from(s, t, p + if t.len() == 0 { 1 } else { t.len() as int })
        },
    }
}

proof fn lemma_next_match_range(s: Seq<char>, t: Seq<char>, from: int)
    ensures
        next_match(s, t, from) matches Some(p) ==> from <= p && occurs_at(s, t, p),
    decreases s.len() + 1 - from,
{
    if 0 <= from && from + t.len() <= s.len() && !occurs_at(s, t, from) {
        lemma_next_match_range(s, t, from + 1);
    }
}

proof fn lemma_find_token_range(s: Seq<char>, t: Seq<char>, from: int)
    ensures
        find_token_from(s, t, from) matches Some(p) ==> from <= p && occurs_at(s, t, p) && token_at(s, t, p),
    decreases s.len() + 1 - from,
{
    lemma_next_match_range(s, t, from);
    if let Some(p) = next_match(s, t, from) {
        if p >= from && !token_at(s, t, p) {
            lemma_find_token_range(s, t, p + if t.len() == 0 { 1 } else { t.len() as int });
        }
    }
}

/// Whether `t` occurs in `s` at `p`.
fn occurs_at_exec(s: &Vec<char>, t: &Vec<char>, p: usize) -> (r: bool)
    ensures
        r == occurs_at(s@, t@, p as int),
{
    if p > s.len() || t.len() > s.len() - p {
        return false;
    }
    let n = s.len();
    let mut k: usize = 0;
    while k < t.len()
        invariant
            n == s@.len(),
            p + t@.len() <= s@.len(),
            0 <= k <= t@.len(),
            forall|j: int| 0 <= j < k ==> s@[p + j] == t@[j],
        decreases t@.len() - k,
    {
        assert(p + k < s@.len());
        if s[p + k] != t[k] {
            proof {
                assert(s@.subrange(p as int, p + t@.len())[k as int] != t@[k as int]);
            }
            return false;
        }
        k = k + 1;
    }
    proof {
        assert(s@.subrange(p as int, p + t@.len()) =~= t@);
    }
    true
}

/// The first index from `from` on where `t` occurs in `s`.
fn find_match(s: &Vec<char>, t: &Vec<char>, from: usize) -> (r: Option<usize>)
    requires
        from <= s@.len() + 1,
        s@.len() < usize::MAX,
    ensures
        match r {
            Some(p) => next_match(s@, t@, from as int) == Some(p as int),
            None => next_match(s@, t@, from as int) is None,
        },
{
    let mut p = from;
    while p <= s.len() && t.len() <= s.len() - p
        invariant
            s@.len() < usize::MAX,
            from <= p <= s@.len() + 1,
            next_match(s@, t@, from as int) == next_match(s@, t@, p as int),
        decreases s@.len() + 1 - p,
    {
        if occurs_at_exec(s, t, p) {
            return Some(p);
        }
        p = p + 1;
    }
    None
}

/// Where `t` first occurs as a whole token in `s`, as a character index.
fn find_token_index(s: &Vec<char>, t: &Vec<char>) -> (r: Option<usize>)
    requires
        s@.len() < usize::MAX,
    ensures
        match r {
            Some(p) => find_token_from(s@, t@, 0) == Some(p as int),
            None => find_token_from(s@, t@, 0) is None,
        },
{
    let mut from: usize = 0;
    loop
        invariant
            s@.len() < usize::MAX,
            0 <= from <= s@.len() + 1,
            find_token_from(s@, t@, 0) == find_token_from(s@, t@, from as int),
        decreases s@.len() + 1 - from,
    {
        let found = find_match(s, t, from);
        match found {
            None => {
                return None;
            },
            Some(p) => {
                proof {
                    lemma_next_match_range(s@, t@, from as int);
                }
                let after = p + t.len();
                let ends = after == s.len() || is_whitespace(s[after]);
                let starts = p == 0 || is_whitespace(s[p - 1]);
                if ends && starts {
                    return Some(p);
                }
                from = if t.len() == 0 {
                    p + 1
                } else {
                    after
                };
            },
        }
    }
}

/// The number of UTF-8 bytes of the first `n` characters.
fn byte_offset(s: &Vec<char>, n: usize) -> (r: usize)
    requires
        n <= s@.len(),
        s@.len() <= usize::MAX / 4,
    ensures
        r == bytes_before(s@, n as int),
{
    let mut i: usize = 0;
    let mut b: usize = 0;
    while i < n
        invariant
            0 <= i <= n <= s@.len(),
            s@.len() <= usize::MAX / 4,
            b == bytes_before(s@, i as int),
            b <= 4 * i,
        decreases n - i,
    {
        let c = s[i];
        let v = c as u32;
        let w: usize = if v < 0x80 {
            1
        } else if v < 0x800 {
            2
        } else if v < 0x10000 {
            3
        } else {
            4
        };
        b = b + w;
        i = i + 1;
    }
    b
}

/// `search` starts `src` as a whole token.
pub fn starts_with_token(src: &str, search: &str) -> (r: bool)
    ensures
        r == token_prefix(src@, search@),
{
    let s = chars_of(src);
    let t = chars_of(search);
    if t.len() > s.len() {
        return false;
    }
    if !occurs_at_exec(&s, &t, 0) {
        return false;
    }
    t.len() == s.len() || is_whitespace(s[t.len()])
}

/// What follows `search` when it starts `src` as a whole token, with the
/// white space after it removed.
pub fn strip_prefix_token<'a>(src: &'a str, search: &str) -> (r: Option<&'a str>)
    ensures
        r is Some <==> token_prefix(src@, search@),
        r matches Some(rest) ==> rest@ == src@.subrange(skip_ws(src@, search@.len() as int), src@.len() as int)
            && rest@.len() <= src@.len(),
{
    let s = chars_of(src);
    if !starts_with_token(src, search) {
        return None;
    }
    let mut i = search.unicode_len();
    while i < s.len() && is_whitespace(s[i])
        invariant
            search@.len() <= i <= s@.len(),
            skip_ws(src@, search@.len() as int) == skip_ws(src@, i as int),
            s@ == src@,
        decreases s@.len() - i,
    {
        i = i + 1;
    }
    Some(src.substring_char(i, s.len()))
}

/// The text of `src` before its first white space.
pub fn extract_prefix_token(src: &str) -> (r: &str)
    ensures
        r@ == src@.subrange(0, next_ws(src@, 0)),
{
    let s = chars_of(src);
    let mut i: usize = 0;
    while i < s.len() && !is_whitespace(s[i])
        invariant
            0 <= i <= s@.len(),
            next_ws(src@, 0) == next_ws(src@, i as int),
            s@ == src@,
        decreases s@.len() - i,
    {
        i = i + 1;
    }
    src.substring_char(0, i)
}

/// The byte index where `search` first occurs in `src` as a whole token:
/// among its occurrences found left to right without overlap, the first with
/// white space or an end on both sides.
pub fn find_token(src: &str, search: &str) -> (r: Option<usize>)
    requires
        src@.len() <= usize::MAX / 4,
    ensures
        match find_token_from(src@, search@, 0) {
            Some(p) => r == Some(bytes_before(src@, p) as usize),
            None => r is None,
        },
{
    let s = chars_of(src);
    let t = chars_of(search);
    proof {
        lemma_find_token_range(s@, t@, 0);
    }
    match find_token_index(&s, &t) {
        Some(p) => Some(byte_offset(&s, p)),
        None => None,
    }
}

/// The texts before and after the first whole-token occurrence of `search`
/// in `src` (as `find_token` finds it), without the white space next to it.
pub fn split_by_token<'a>(src: &'a str, search: &str) -> (r: Option<(&'a str, &'a str)>)
    requires
        src@.len() < usize::MAX,
    ensures
        match find_token_from(src@, search@, 0) {
            Some(p) => r matches Some((before, after)) && before@ == src@.subrange(0, back_ws(src@, p))
                && after@ == src@.subrange(
                skip_ws(src@, p + search@.len()),
                src@.len() as int,
            ),
            None => r is None,
        },
{
    let s = chars_of(src);
    let t = chars_of(search);
    proof {
        lemma_find_token_range(s@, t@, 0);
    }
    match find_token_index(&s, &t) {
        Some(p) => {
            let mut j = p;
            while j > 0 && is_whitespace(s[j - 1])
                invariant
                    0 <= j <= p <= s@.len(),
                    back_ws(src@, p as int) == back_ws(src@, j as int),
                    s@ == src@,
                decreases j,
            {
                j = j - 1;
            }
            let mut i = p + t.len();
            while i < s.len() && is_whitespace(s[i])
                invariant
                    p + t@.len() <= i <= s@.len(),
                    skip_ws(src@, p + t@.len()) == skip_ws(src@, i as int),
                    s@ == src@,
                decreases s@.len() - i,
            {
                i = i + 1;
            }
            Some((src.substring_char(0, j), src.substring_char(i, s.len())))
        },
        None => None,
    }
}


/// Two small signed numbers (each from -8 to 7) packed in one byte: the left
/// one in the high nibble, the right one in the low nibble.
#[derive(Debug, Clone, Copy, PartialEq, Eq, Hash, Structural)]
pub struct CompoundI8(pub i8);

/// The left number of a packed byte.
pub open spec fn left_of(b: i8) -> i8 {
    b >> 4u8
}

/// The right number of a packed byte.
pub open spec fn right_of(b: i8) -> i8 {
    ((b << 4u8) as i8) >> 4u8
}

/// The byte that packs `left` and `right`.
pub open spec fn pack(left: i8, right: i8) -> i8 {
    ((left << 4u8) as i8) | (right & 15i8)
}

/// Both numbers fit a nibble.
pub open spec fn nibbles(left: int, right: int) -> bool {
    -8 <= left < 8 && -8 <= right < 8
}

impl CompoundI8 {
    /// The left number.
    pub open spec fn left_value(self) -> int {
        left_of(self.0) as int
    }

    /// The right number.
    pub open spec fn right_value(self) -> int {
        right_of(self.0) as int
    }

    /// Packs two numbers from -8 to 7.
    pub fn new(left: i8, right: i8) -> (r: CompoundI8)
        requires
            nibbles(left as int, right as int),
        ensures
            r.0 == pack(left, right),
            r.left_value() == left,
            r.right_value() == right,
    {
        proof {
            lemma_pack(left, right);
        }
        CompoundI8(((left << 4u8) as i8) | (right & 15i8))
    }

    /// The left number.
    pub fn left(self) -> (r: i8)
        ensures
            r == self.left_value(),
            -8 <= r < 8,
    {
        let b = self.0;
        assert(-8 <= (b >> 4u8) < 8) by (bit_vector);
        b >> 4u8
    }

    /// The right number.
    pub fn right(self) -> (r: i8)
        ensures
            r == self.right_value(),
            -8 <= r < 8,
    {
        let b = self.0;
        assert(-8 <= (((b << 4u8) as i8) >> 4u8) < 8) by (bit_vector);
        ((b << 4u8) as i8) >> 4u8
    }

    /// The pair (0, 0).
    pub fn zero() -> (r: CompoundI8)
        ensures
            r.left_value() == 0,
            r.right_value() == 0,
    {
        CompoundI8::new(0, 0)
    }

    /// Both numbers negated.
    pub fn negated(self) -> (r: CompoundI8)
        requires
            self.left_value() > -8,
            self.right_value() > -8,
        ensures
            r.left_value() == -self.left_value(),
            r.right_value() == -self.right_value(),
    {
        CompoundI8::new(-self.left(), -self.right())
    }

    /// The pairwise sum.
    pub fn plus(self, rhs: CompoundI8) -> (r: CompoundI8)
        requires
            nibbles(self.left_value() + rhs.left_value(), self.right_value() + rhs.right_value()),
        ensures
            r.left_value() == self.left_value() + rhs.left_value(),
            r.right_value() == self.right_value() + rhs.right_value(),
    {
        CompoundI8::new(self.left() + rhs.left(), self.right() + rhs.right())
    }

    /// The pairwise difference.
    pub fn minus(self, rhs: CompoundI8) -> (r: CompoundI8)
        requires
            nibbles(self.left_value() - rhs.left_value(), self.right_value() - rhs.right_value()),
        ensures
            r.left_value() == self.left_value() - rhs.left_value(),
            r.right_value() == self.right_value() - rhs.right_value(),
    {
        CompoundI8::new(self.left() - rhs.left(), self.right() - rhs.right())
    }
}

/// Packing two numbers and reading them back gives the numbers.
pub proof fn lemma_pack(left: i8, right: i8)
    requires
        nibbles(left as int, right as int),
    ensures
        left_of(pack(left, right)) == left,
        right_of(pack(left, right)) == right,
{
    assert(-8 <= left < 8 && -8 <= right < 8 ==> ((((left << 4u8) as i8) | (right & 15i8)) >> 4u8) == left) by (bit_vector);
    assert(-8 <= left < 8 && -8 <= right < 8 ==> ((((((left << 4u8) as i8) | (right & 15i8)) << 4u8) as i8) >> 4u8) == right) by (bit_vector);
}

/// Every byte is the packing of its two numbers.
pub proof fn lemma_unpack(b: i8)
    ensures
        nibbles(left_of(b) as int, right_of(b) as int),
        pack(left_of(b), right_of(b)) == b,
{
    assert(-8 <= (b >> 4u8) < 8) by (bit_vector);
    assert(-8 <= (((b << 4u8) as i8) >> 4u8) < 8) by (bit_vector);
    assert(((((b >> 4u8) << 4u8) as i8) | ((((b << 4u8) as i8) >> 4u8) & 15i8)) == b) by (bit_vector);
}

} // verus!
