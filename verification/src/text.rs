//! Character-level text helpers: locating a character, splitting a string on
//! a separator character, splitting a line into whitespace-delimited words,
//! and joining pieces with commas.

use vstd::prelude::*;

verus! {

/// Whether a character counts as whitespace (the Unicode `White_Space`
/// property); the result depends on the character alone.
pub uninterp spec fn is_space(c: char) -> bool;

/// Whether a character counts as alphanumeric (a Unicode letter or digit);
/// the result depends on the character alone.
pub uninterp spec fn is_alphanum(c: char) -> bool;

/// Relies on char::is_whitespace: true exactly for characters with the
/// Unicode `White_Space` property, a function of the character alone.
pub assume_specification[ char::is_whitespace ](c: char) -> (r: bool)
    ensures
        r == is_space(c),
;

/// Relies on char::is_alphanumeric: true exactly for Unicode letters and
/// digits, a function of the character alone.
pub assume_specification[ char::is_alphanumeric ](c: char) -> (r: bool)
    ensures
        r == is_alphanum(c),
;

/// Index of the first occurrence of `c` in `s`, or `s.len()` when absent.
pub open spec fn find_char(s: Seq<char>, c: char) -> int
    decreases s.len(),
{
    if s.len() == 0 {
        0
    } else if s[0] == c {
        0
    } else {
        1 + find_char(s.subrange(1, s.len() as int), c)
    }
}

pub proof fn lemma_find_char(s: Seq<char>, c: char)
    ensures
        0 <= find_char(s, c) <= s.len(),
        find_char(s, c) < s.len() ==> s[find_char(s, c)] == c,
        forall|m: int| 0 <= m < find_char(s, c) ==> s[m] != c,
    decreases s.len(),
{
    if s.len() == 0 {
    } else if s[0] == c {
    } else {
        let t = s.subrange(1, s.len() as int);
        lemma_find_char(t, c);
        assert forall|m: int| 0 <= m < find_char(s, c) implies s[m] != c by {
            if m > 0 {
                assert(t[m - 1] == s[m]);
            }
        }
    }
}

pub proof fn lemma_find_char_at(s: Seq<char>, c: char, j: int)
    requires
        0 <= j <= s.len(),
        forall|m: int| 0 <= m < j ==> s[m] != c,
        j < s.len() ==> s[j] == c,
    ensures
        find_char(s, c) == j,
    decreases s.len(),
{
    if s.len() == 0 {
    } else if s[0] == c {
        if j > 0 {
            assert(s[0] != c);
        }
    } else {
        let t = s.subrange(1, s.len() as int);
        assert(j >= 1) by {
            if j == 0 {
                assert(s[j] == c);
            }
        }
        assert(forall|m: int| 0 <= m < j - 1 ==> t[m] == s[m + 1] && s[m + 1] != c);
        assert(j - 1 < t.len() ==> t[j - 1] == s[j]);
        lemma_find_char_at(t, c, j - 1);
    }
}

/// Index of the first whitespace character in `s`, or `s.len()` when absent.
pub open spec fn find_space(s: Seq<char>) -> int
    decreases s.len(),
{
    if s.len() == 0 {
        0
    } else if is_space(s[0]) {
        0
    } else {
        1 + find_space(s.subrange(1, s.len() as int))
    }
}

pub proof fn lemma_find_space(s: Seq<char>)
    ensures
        0 <= find_space(s) <= s.len(),
        find_space(s) < s.len() ==> is_space(s[find_space(s)]),
        forall|m: int| 0 <= m < find_space(s) ==> !is_space(s[m]),
    decreases s.len(),
{
    if s.len() == 0 {
    } else if is_space(s[0]) {
    } else {
        let t = s.subrange(1, s.len() as int);
        lemma_find_space(t);
        assert forall|m: int| 0 <= m < find_space(s) implies !is_space(s[m]) by {
            if m > 0 {
                assert(t[m - 1] == s[m]);
            }
        }
    }
}

pub proof fn lemma_find_space_at(s: Seq<char>, j: int)
    requires
        0 <= j <= s.len(),
        forall|m: int| 0 <= m < j ==> !is_space(s[m]),
        j < s.len() ==> is_space(s[j]),
    ensures
        find_space(s) == j,
    decreases s.len(),
{
    if s.len() == 0 {
    } else if is_space(s[0]) {
        if j > 0 {
            assert(!is_space(s[0]));
        }
    } else {
        let t = s.subrange(1, s.len() as int);
        assert(j >= 1) by {
            if j == 0 {
                assert(is_space(s[j]));
            }
        }
        assert(forall|m: int| 0 <= m < j - 1 ==> t[m] == s[m + 1] && !is_space(s[m + 1]));
        assert(j - 1 < t.len() ==> t[j - 1] == s[j]);
        lemma_find_space_at(t, j - 1);
    }
}

/// The pieces of `s` between occurrences of the separator `c`, in order.
/// A string without the separator yields one piece; each further separator
/// adds one piece, so empty pieces arise from adjacent separators.
pub open spec fn split_on(s: Seq<char>, c: char) -> Seq<Seq<char>>
    decreases s.len(),
{
    let i = find_char(s, c);
    if 0 <= i < s.len() {
        seq![s.subrange(0, i)] + split_on(s.subrange(i + 1, s.len() as int), c)
    } else {
        seq![s]
    }
}

/// The maximal runs of non-whitespace characters of `s`, in order.
pub open spec fn words(s: Seq<char>) -> Seq<Seq<char>>
    decreases s.len(),
{
    if s.len() == 0 {
        Seq::empty()
    } else if is_space(s[0]) {
        words(s.subrange(1, s.len() as int))
    } else {
        let k = find_space(s);
        if 1 <= k <= s.len() {
            seq![s.subrange(0, k)] + words(s.subrange(k, s.len() as int))
        } else {
            seq![s]
        }
    }
}

/// Every word of a line is non-empty.
pub proof fn lemma_words_nonempty(s: Seq<char>)
    ensures
        forall|i: int| 0 <= i < words(s).len() ==> #[trigger] words(s)[i].len() >= 1,
    decreases s.len(),
{
    if s.len() == 0 {
    } else if is_space(s[0]) {
        let rest = words(s.subrange(1, s.len() as int));
        lemma_words_nonempty(s.subrange(1, s.len() as int));
        assert forall|i: int| 0 <= i < words(s).len() implies #[trigger] words(s)[i].len()
            >= 1 by {
            assert(words(s)[i] == rest[i]);
        }
    } else {
        let k = find_space(s);
        lemma_find_space(s);
        if 1 <= k <= s.len() {
            let rest = words(s.subrange(k, s.len() as int));
            lemma_words_nonempty(s.subrange(k, s.len() as int));
            assert forall|i: int| 0 <= i < words(s).len() implies #[trigger] words(s)[i].len()
                >= 1 by {
                if i == 0 {
                    assert(words(s)[0] == s.subrange(0, k));
                } else {
                    assert(words(s)[i] == rest[i - 1]);
                }
            }
        } else {
            assert(words(s)[0] == s);
        }
    }
}

/// Adjacent words need a separating character between them, so a line of
/// `n` characters holds at most `(n + 1) / 2` words.
pub proof fn lemma_words_len_bound(s: Seq<char>)
    ensures
        2 * words(s).len() <= s.len() + 1,
        s.len() > 0 && is_space(s[0]) ==> 2 * words(s).len() <= s.len(),
    decreases s.len(),
{
    if s.len() == 0 {
    } else if is_space(s[0]) {
        lemma_words_len_bound(s.subrange(1, s.len() as int));
    } else {
        let k = find_space(s);
        lemma_find_space(s);
        if 1 <= k <= s.len() {
            let t = s.subrange(k, s.len() as int);
            lemma_words_len_bound(t);
            if t.len() > 0 {
                assert(t[0] == s[k]);
                assert(is_space(t[0]));
            }
        }
    }
}

/// The views of a sequence of strings.
pub open spec fn seq_views(v: Seq<String>) -> Seq<Seq<char>> {
    Seq::new(v.len(), |i: int| v[i]@)
}

pub proof fn lemma_seq_views_push(v: Seq<String>, x: String)
    ensures
        seq_views(v.push(x)) == seq_views(v).push(x@),
{
    assert(seq_views(v.push(x)) =~= seq_views(v).push(x@));
}

/// The pieces joined with a comma between each neighbouring pair.
pub open spec fn join_commas(ss: Seq<Seq<char>>) -> Seq<char>
    decreases ss.len(),
{
    if ss.len() == 0 {
        Seq::empty()
    } else if ss.len() == 1 {
        ss[0]
    } else {
        ss[0] + seq![','] + join_commas(ss.subrange(1, ss.len() as int))
    }
}

pub proof fn lemma_join_commas_push(ss: Seq<Seq<char>>, x: Seq<char>)
    ensures
        ss.len() == 0 ==> join_commas(ss.push(x)) == x,
        ss.len() > 0 ==> join_commas(ss.push(x)) == join_commas(ss) + seq![','] + x,
    decreases ss.len(),
{
    let p = ss.push(x);
    if ss.len() == 0 {
        assert(p[0] == x);
    } else if ss.len() == 1 {
        assert(p.subrange(1, p.len() as int) =~= seq![x]);
        assert(join_commas(seq![x]) == seq![x][0]);
        assert(join_commas(ss) == ss[0]);
        assert(p[0] == ss[0]);
    } else {
        let t = ss.subrange(1, ss.len() as int);
        lemma_join_commas_push(t, x);
        assert(p.subrange(1, p.len() as int) =~= t.push(x));
        assert(p[0] == ss[0]);
        assert(ss[0] + seq![','] + (join_commas(t) + seq![','] + x) =~= (ss[0] + seq![',']
            + join_commas(t)) + seq![','] + x);
    }
}

/// Index of the first occurrence of `c` in `s`, or the character length of
/// `s` when `c` does not occur.
pub fn locate_char(s: &str, c: char) -> (i: usize)
    ensures
        i as int == find_char(s@, c),
        i <= s@.len(),
{
    let n = s.unicode_len();
    let mut i: usize = 0;
    while i < n
        invariant
            0 <= i <= n,
            n == s@.len(),
            forall|m: int| 0 <= m < i ==> s@[m] != c,
        decreases n - i,
    {
        if s.get_char(i) == c {
            proof {
                lemma_find_char_at(s@, c, i as int);
            }
            return i;
        }
        i = i + 1;
    }
    proof {
        lemma_find_char_at(s@, c, n as int);
    }
    n
}

/// Splits `s` on the separator `c`, keeping empty pieces.
pub fn split_on_char(s: &str, c: char) -> (parts: Vec<String>)
    ensures
        seq_views(parts@) == split_on(s@, c),
{
    let mut parts: Vec<String> = Vec::new();
    let mut rest: &str = s;
    loop
        invariant
            split_on(s@, c) == seq_views(parts@) + split_on(rest@, c),
        decreases rest@.len(),
    {
        let n = rest.unicode_len();
        let i = locate_char(rest, c);
        proof {
            lemma_find_char(rest@, c);
        }
        if i < n {
            let piece = rest.substring_char(0, i).to_owned();
            let tail = rest.substring_char(i + 1, n);
            proof {
                lemma_seq_views_push(parts@, piece);
                assert(seq_views(parts@.push(piece)) + split_on(tail@, c) =~= seq_views(parts@)
                    + (seq![rest@.subrange(0, i as int)] + split_on(tail@, c)));
            }
            parts.push(piece);
            rest = tail;
        } else {
            let piece = rest.to_owned();
            proof {
                lemma_seq_views_push(parts@, piece);
                assert(split_on(rest@, c) =~= seq![rest@]);
                assert(seq_views(parts@.push(piece)) =~= seq_views(parts@) + seq![rest@]);
                assert(seq_views(parts@.push(piece)) =~= split_on(s@, c));
            }
            parts.push(piece);
            return parts;
        }
    }
}

/// Splits a line into its whitespace-delimited words.
pub fn split_whitespace_words(s: &str) -> (ws: Vec<String>)
    ensures
        seq_views(ws@) == words(s@),
{
    let mut ws: Vec<String> = Vec::new();
    let mut rest: &str = s;
    loop
        invariant
            words(s@) == seq_views(ws@) + words(rest@),
        decreases rest@.len(),
    {
        let n = rest.unicode_len();
        if n == 0 {
            proof {
                assert(words(rest@) =~= Seq::<Seq<char>>::empty());
                assert(seq_views(ws@) + words(rest@) =~= seq_views(ws@));
            }
            return ws;
        }
        if rest.get_char(0).is_whitespace() {
            let tail = rest.substring_char(1, n);
            rest = tail;
        } else {
            let k = locate_space(rest);
            proof {
                lemma_find_space(rest@);
            }
            let word = rest.substring_char(0, k).to_owned();
            let tail = rest.substring_char(k, n);
            proof {
                lemma_seq_views_push(ws@, word);
                assert(seq_views(ws@.push(word)) + words(tail@) =~= seq_views(ws@) + (seq![
                    rest@.subrange(0, k as int),
                ] + words(tail@)));
            }
            ws.push(word);
            rest = tail;
        }
    }
}

/// Index of the first whitespace character of `s`, or the character length
/// of `s` when none occurs.
pub fn locate_space(s: &str) -> (i: usize)
    ensures
        i as int == find_space(s@),
        i <= s@.len(),
{
    let n = s.unicode_len();
    let mut i: usize = 0;
    while i < n
        invariant
            0 <= i <= n,
            n == s@.len(),
            forall|m: int| 0 <= m < i ==> !is_space(s@[m]),
        decreases n - i,
    {
        if s.get_char(i).is_whitespace() {
            proof {
                lemma_find_space_at(s@, i as int);
            }
            return i;
        }
        i = i + 1;
    }
    proof {
        lemma_find_space_at(s@, n as int);
    }
    n
}

/// Joins the pieces with a comma between each neighbouring pair.
pub fn join_with_commas(parts: &Vec<String>) -> (r: String)
    ensures
        r@ == join_commas(seq_views(parts@)),
{
    let mut r = String::new();
    let n = parts.len();
    let mut i: usize = 0;
    while i < n
        invariant
            0 <= i <= n,
            n == parts@.len(),
            r@ == join_commas(seq_views(parts@).subrange(0, i as int)),
        decreases n - i,
    {
        proof {
            let pre = seq_views(parts@).subrange(0, i as int);
            lemma_join_commas_push(pre, parts@[i as int]@);
            assert(seq_views(parts@).subrange(0, i + 1) =~= pre.push(parts@[i as int]@));
        }
        if i > 0 {
            r.append(",");
            proof {
                reveal_strlit(",");
                assert(","@ =~= seq![',']);
            }
        }
        r.append(parts[i].as_str());
        i = i + 1;
    }
    proof {
        assert(seq_views(parts@).subrange(0, n as int) =~= seq_views(parts@));
    }
    r
}

} // verus!
