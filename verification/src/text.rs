//! Text helpers over the characters of a string: white space, trimming,
//! prefixes and splitting, each specified over `Seq<char>`.

use vstd::prelude::*;

verus! {

/// The characters that Rust's `char::is_whitespace` accepts: those with the
/// Unicode `White_Space` property.
pub open spec fn is_white_space(c: char) -> bool {
    let u = c as u32;
    ||| 0x09 <= u <= 0x0D
    ||| u == 0x20
    ||| u == 0x85
    ||| u == 0xA0
    ||| u == 0x1680
    ||| 0x2000 <= u <= 0x200A
    ||| u == 0x2028
    ||| u == 0x2029
    ||| u == 0x202F
    ||| u == 0x205F
    ||| u == 0x3000
}

/// Whether `c` is a white-space character.
pub fn white_space(c: char) -> (r: bool)
    ensures
        r == is_white_space(c),
{
    let u = c as u32;
    (0x09 <= u && u <= 0x0D) || u == 0x20 || u == 0x85 || u == 0xA0 || u == 0x1680 || (0x2000
        <= u && u <= 0x200A) || u == 0x2028 || u == 0x2029 || u == 0x202F || u == 0x205F || u
        == 0x3000
}


/// `s` without its leading white space (`str::trim_start`).
pub open spec fn trim_start(s: Seq<char>) -> Seq<char>
    decreases s.len(),
{
    if s.len() > 0 && is_white_space(s[0]) {
        trim_start(s.drop_first())
    } else {
        s
    }
}

/// `s` without its trailing white space (`str::trim_end`).
pub open spec fn trim_end(s: Seq<char>) -> Seq<char>
    decreases s.len(),
{
    if s.len() > 0 && is_white_space(s.last()) {
        trim_end(s.drop_last())
    } else {
        s
    }
}

/// `s` without leading and trailing white space (`str::trim`).
pub open spec fn trim(s: Seq<char>) -> Seq<char> {
    trim_end(trim_start(s))
}

/// `s` without the leading run of the character `c` (`str::trim_start_matches`
/// with a character pattern).
pub open spec fn trim_start_char(s: Seq<char>, c: char) -> Seq<char>
    decreases s.len(),
{
    if s.len() > 0 && s[0] == c {
        trim_start_char(s.drop_first(), c)
    } else {
        s
    }
}

/// Whether `s` begins with `p` (`str::starts_with`).
pub open spec fn has_prefix(s: Seq<char>, p: Seq<char>) -> bool {
    p.len() <= s.len() && s.subrange(0, p.len() as int) == p
}

/// The index of the first `c` in `s`, if any.
pub open spec fn find_char(s: Seq<char>, c: char) -> Option<int>
    decreases s.len(),
{
    if s.len() == 0 {
        None
    } else if s[0] == c {
        Some(0)
    } else {
        match find_char(s.drop_first(), c) {
            Some(i) => Some(i + 1),
            None => None,
        }
    }
}

/// The pieces of `s` cut at the first `n - 1` occurrences of `c`, as
/// `str::splitn(n, c)` yields them (for `n >= 1`): the last piece is the rest.
pub open spec fn split_n(s: Seq<char>, n: nat, c: char) -> Seq<Seq<char>>
    decreases n,
{
    if n <= 1 {
        seq![s]
    } else {
        match find_char(s, c) {
            None => seq![s],
            Some(i) => seq![s.subrange(0, i)] + split_n(s.subrange(i + 1, s.len() as int), (n - 1) as nat, c),
        }
    }
}

/// `find_char` is the first index that holds `c`.
pub proof fn lemma_find_char(s: Seq<char>, c: char)
    ensures
        match find_char(s, c) {
            Some(i) => 0 <= i < s.len() && s[i] == c && forall|j: int| 0 <= j < i ==> s[j] != c,
            None => forall|j: int| 0 <= j < s.len() ==> s[j] != c,
        },
    decreases s.len(),
{
    if s.len() > 0 && s[0] != c {
        lemma_find_char(s.drop_first(), c);
        match find_char(s.drop_first(), c) {
            Some(i) => {
                assert forall|j: int| 0 <= j < i + 1 implies s[j] != c by {
                    if j > 0 {
                        assert(s[j] == s.drop_first()[j - 1]);
                    }
                }
            },
            None => {
                assert forall|j: int| 0 <= j < s.len() implies s[j] != c by {
                    if j > 0 {
                        assert(s[j] == s.drop_first()[j - 1]);
                    }
                }
            },
        }
    }
}

/// A first index that holds `c` is what `find_char` gives.
pub proof fn lemma_find_char_at(s: Seq<char>, c: char, i: int)
    requires
        0 <= i < s.len(),
        s[i] == c,
        forall|j: int| 0 <= j < i ==> s[j] != c,
    ensures
        find_char(s, c) == Some(i),
{
    lemma_find_char(s, c);
}

/// With no `c` in `s`, `find_char` gives nothing.
pub proof fn lemma_find_char_none(s: Seq<char>, c: char)
    requires
        forall|j: int| 0 <= j < s.len() ==> s[j] != c,
    ensures
        find_char(s, c) is None,
{
    lemma_find_char(s, c);
}

/// Cutting at a space that follows a piece `a` without spaces gives `a`, then
/// the pieces of the rest.
pub proof fn lemma_split_first(a: Seq<char>, rest: Seq<char>, n: nat)
    requires
        n >= 2,
        !a.contains(' '),
    ensures
        split_n(a + seq![' '] + rest, n, ' ') == seq![a] + split_n(rest, (n - 1) as nat, ' '),
{
    let s = a + seq![' '] + rest;
    assert forall|j: int| 0 <= j < a.len() implies s[j] != ' ' by {
        assert(s[j] == a[j]);
    }
    assert(s[a.len() as int] == ' ');
    lemma_find_char_at(s, ' ', a.len() as int);
    assert(s.subrange(0, a.len() as int) =~= a);
    assert(s.subrange(a.len() as int + 1, s.len() as int) =~= rest);
}

/// A text without spaces, or one cut into at most one piece, is one piece.
pub proof fn lemma_split_whole(s: Seq<char>, n: nat)
    requires
        n <= 1 || !s.contains(' '),
    ensures
        split_n(s, n, ' ') == seq![s],
{
    if n > 1 {
        assert forall|j: int| 0 <= j < s.len() implies s[j] != ' ' by {
            if s[j] == ' ' {
                assert(s.contains(' '));
            }
        }
        lemma_find_char_none(s, ' ');
    }
}

/// Whether the two texts hold the same characters.
pub fn text_eq(a: &str, b: &str) -> (r: bool)
    ensures
        r == (a@ == b@),
{
    let n = a.unicode_len();
    let m = b.unicode_len();
    if n != m {
        return false;
    }
    let mut i: usize = 0;
    while i < n
        invariant
            n == a@.len(),
            m == b@.len(),
            n == m,
            i <= n,
            forall|j: int| 0 <= j < i ==> a@[j] == b@[j],
        decreases n - i,
    {
        if a.get_char(i) != b.get_char(i) {
            return false;
        }
        i = i + 1;
    }
    assert(a@ =~= b@);
    true
}

/// Whether `s` begins with `p`.
pub fn starts_with(s: &str, p: &str) -> (r: bool)
    ensures
        r == has_prefix(s@, p@),
{
    let n = s.unicode_len();
    let m = p.unicode_len();
    if m > n {
        return false;
    }
    let mut i: usize = 0;
    while i < m
        invariant
            n == s@.len(),
            m == p@.len(),
            m <= n,
            i <= m,
            forall|j: int| 0 <= j < i ==> s@[j] == p@[j],
        decreases m - i,
    {
        if s.get_char(i) != p.get_char(i) {
            assert(s@.subrange(0, m as int)[i as int] != p@[i as int]);
            return false;
        }
        i = i + 1;
    }
    assert(s@.subrange(0, m as int) =~= p@);
    true
}

/// The first index at or after `from` that holds `c`, if any.
fn find_from(s: &str, from: usize, c: char) -> (r: Option<usize>)
    requires
        from <= s@.len(),
    ensures
        match r {
            Some(i) => from <= i < s@.len() && s@[i as int] == c && forall|j: int|
                from <= j < i ==> s@[j] != c,
            None => forall|j: int| from <= j < s@.len() ==> s@[j] != c,
        },
{
    let n = s.unicode_len();
    let mut i = from;
    while i < n
        invariant
            n == s@.len(),
            from <= i <= n,
            forall|j: int| from <= j < i ==> s@[j] != c,
        decreases n - i,
    {
        if s.get_char(i) == c {
            return Some(i);
        }
        i = i + 1;
    }
    None
}

/// The index of the first `c` in `s`, if any (`str::find` with a character,
/// counted in characters).
pub fn find(s: &str, c: char) -> (r: Option<usize>)
    ensures
        match r {
            Some(i) => find_char(s@, c) == Some(i as int),
            None => find_char(s@, c) is None,
        },
{
    let r = find_from(s, 0, c);
    proof {
        match r {
            Some(i) => lemma_find_char_at(s@, c, i as int),
            None => lemma_find_char_none(s@, c),
        }
    }
    r
}

/// `s` without leading and trailing white space.
pub fn trim_text(s: &str) -> (r: String)
    ensures
        r@ == trim(s@),
{
    let n = s.unicode_len();
    let mut a: usize = 0;
    assert(s@.subrange(0, n as int) =~= s@);
    while a < n && white_space(s.get_char(a))
        invariant
            n == s@.len(),
            a <= n,
            trim_start(s@) == trim_start(s@.subrange(a as int, n as int)),
        decreases n - a,
    {
        assert(s@.subrange(a as int, n as int).drop_first() =~= s@.subrange(a + 1, n as int));
        a = a + 1;
    }
    assert(trim_start(s@) == s@.subrange(a as int, n as int));
    let mut b: usize = n;
    while b > a && white_space(s.get_char(b - 1))
        invariant
            n == s@.len(),
            a <= b <= n,
            trim(s@) == trim_end(s@.subrange(a as int, b as int)),
        decreases b - a,
    {
        assert(s@.subrange(a as int, b as int).drop_last() =~= s@.subrange(a as int, b - 1));
        b = b - 1;
    }
    s.substring_char(a, b).to_owned()
}

/// `s` without its leading run of `c`.
pub fn trim_start_matches(s: &str, c: char) -> (r: String)
    ensures
        r@ == trim_start_char(s@, c),
{
    let n = s.unicode_len();
    let mut a: usize = 0;
    assert(s@.subrange(0, n as int) =~= s@);
    while a < n && s.get_char(a) == c
        invariant
            n == s@.len(),
            a <= n,
            trim_start_char(s@, c) == trim_start_char(s@.subrange(a as int, n as int), c),
        decreases n - a,
    {
        assert(s@.subrange(a as int, n as int).drop_first() =~= s@.subrange(a + 1, n as int));
        a = a + 1;
    }
    s.substring_char(a, n).to_owned()
}

/// The pieces of `s` cut at the first `n - 1` spaces, as `s.splitn(n, ' ')`
/// yields them.
pub fn split_spaces(s: &str, n: usize) -> (r: Vec<String>)
    requires
        n >= 1,
    ensures
        r.deep_view() == split_n(s@, n as nat, ' '),
{
    let len = s.unicode_len();
    let mut parts: Vec<String> = Vec::new();
    let mut start: usize = 0;
    let ghost whole = split_n(s@, n as nat, ' ');
    assert(s@.subrange(0, len as int) =~= s@);
    assert(parts.deep_view() =~= Seq::<Seq<char>>::empty());
    while parts.len() + 1 < n
        invariant
            len == s@.len(),
            n >= 1,
            start <= len,
            parts.len() < n,
            whole == split_n(s@, n as nat, ' '),
            whole == parts.deep_view() + split_n(
                s@.subrange(start as int, len as int),
                (n - parts.len()) as nat,
                ' ',
            ),
        ensures
            start <= len,
            whole == parts.deep_view() + seq![s@.subrange(start as int, len as int)],
        decreases n - parts.len(),
    {
        let ghost rest = s@.subrange(start as int, len as int);
        match find_from(s, start, ' ') {
            None => {
                proof {
                    assert forall|j: int| 0 <= j < rest.len() implies rest[j] != ' ' by {
                        assert(rest[j] == s@[start + j]);
                    }
                    lemma_find_char_none(rest, ' ');
                    assert(split_n(rest, (n - parts.len()) as nat, ' ') == seq![rest]);
                }
                break ;
            },
            Some(i) => {
                let piece = s.substring_char(start, i).to_owned();
                proof {
                    assert forall|j: int| 0 <= j < i - start implies rest[j] != ' ' by {
                        assert(rest[j] == s@[start + j]);
                    }
                    lemma_find_char_at(rest, ' ', i - start);
                    assert(rest.subrange(0, i - start) =~= piece@);
                    assert(rest.subrange(i - start + 1, rest.len() as int) =~= s@.subrange(
                        i + 1,
                        len as int,
                    ));
                }
                let ghost old_parts = parts.deep_view();
                parts.push(piece);
                proof {
                    assert(parts.deep_view() =~= old_parts.push(piece@));
                    assert(whole =~= parts.deep_view() + split_n(
                        s@.subrange(i + 1, len as int),
                        (n - parts.len()) as nat,
                        ' ',
                    ));
                }
                start = i + 1;
            },
        }
    }
    let last = s.substring_char(start, len).to_owned();
    assert(last@ == s@.subrange(start as int, len as int));
    let ghost old_parts = parts.deep_view();
    parts.push(last);
    proof {
        assert(parts.deep_view() =~= old_parts.push(last@));
    }
    parts
}

} // verus!
