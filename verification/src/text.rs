use vstd::prelude::*;

verus! {

/// Turns a string slice into the vector of its characters.
pub fn str_chars(s: &str) -> (r: Vec<char>)
    ensures
        r@ == s@,
{
    let n = s.unicode_len();
    let mut r: Vec<char> = Vec::new();
    let mut i: usize = 0;
    while i < n
        invariant
            n == s@.len(),
            i <= n,
            r@ == s@.subrange(0, i as int),
        decreases n - i,
    {
        r.push(s.get_char(i));
        i = i + 1;
        proof {
            assert(r@ =~= s@.subrange(0, i as int));
        }
    }
    proof {
        assert(r@ =~= s@);
    }
    r
}

/// Turns a vector of characters into the string holding exactly them.
pub fn chars_string(v: &Vec<char>) -> (r: String)
    ensures
        r@ == v@,
{
    let mut r = String::new();
    let mut i: usize = 0;
    while i < v.len()
        invariant
            i <= v@.len(),
            r@ == v@.subrange(0, i as int),
        decreases v@.len() - i,
    {
        crate::string_push(&mut r, v[i]);
        i = i + 1;
        proof {
            assert(r@ =~= v@.subrange(0, i as int));
        }
    }
    proof {
        assert(r@ =~= v@);
    }
    r
}

/// True when `pat` occurs in `s` starting at position `i`.
pub open spec fn matches_at(s: Seq<char>, pat: Seq<char>, i: int) -> bool {
    0 <= i && i + pat.len() <= s.len() && s.subrange(i, i + pat.len()) == pat
}

/// The first position at or after `from` where `pat` occurs in `s`, if any.
pub open spec fn first_match_from(s: Seq<char>, pat: Seq<char>, from: int) -> Option<int>
    decreases s.len() - from,
{
    if from < 0 || from + pat.len() > s.len() {
        None
    } else if matches_at(s, pat, from) {
        Some(from)
    } else if from >= s.len() {
        None
    } else {
        first_match_from(s, pat, from + 1)
    }
}

/// What `first_match_from` returns: the first match position, and none earlier.
pub proof fn lemma_first_match_from(s: Seq<char>, pat: Seq<char>, from: int)
    requires
        0 <= from,
    ensures
        match first_match_from(s, pat, from) {
            Some(i) => from <= i && matches_at(s, pat, i) && forall|j: int|
                from <= j < i ==> !matches_at(s, pat, j),
            None => forall|j: int| from <= j ==> !matches_at(s, pat, j),
        },
    decreases s.len() - from,
{
    if from + pat.len() > s.len() {
    } else if matches_at(s, pat, from) {
    } else if from >= s.len() {
    } else {
        lemma_first_match_from(s, pat, from + 1);
    }
}

/// Finds the first occurrence of `pat` in `v` at or after `from`.
pub fn find_pattern(v: &Vec<char>, pat: &Vec<char>, from: usize) -> (r: Option<usize>)
    ensures
        match r {
            Some(i) => first_match_from(v@, pat@, from as int) == Some(i as int),
            None => first_match_from(v@, pat@, from as int) is None,
        },
{
    let n = v.len();
    let m = pat.len();
    if m > n || from > n - m {
        proof {
            lemma_first_match_from(v@, pat@, from as int);
            if first_match_from(v@, pat@, from as int) is Some {
                let i = first_match_from(v@, pat@, from as int)->Some_0;
                assert(matches_at(v@, pat@, i));
            }
        }
        return None;
    }
    let mut i: usize = from;
    while i <= n - m
        invariant
            from <= i,
            m <= n,
            i <= n - m + 1,
            n == v@.len(),
            m == pat@.len(),
            first_match_from(v@, pat@, from as int) == first_match_from(v@, pat@, i as int),
        decreases n - i,
    {
        let mut j: usize = 0;
        let mut ok = true;
        while j < m
            invariant
                i + m <= n,
                n == v@.len(),
                m == pat@.len(),
                j <= m,
                ok ==> forall|k: int| 0 <= k < j ==> v@[i + k] == pat@[k],
                !ok ==> exists|k: int| 0 <= k < j && v@[i + k] != pat@[k],
            decreases m - j,
        {
            if v[i + j] != pat[j] {
                proof {
                    assert(v@[i + j as int] != pat@[j as int]);
                }
                ok = false;
            }
            j = j + 1;
        }
        if ok {
            proof {
                assert(v@.subrange(i as int, i + m) =~= pat@);
                assert(matches_at(v@, pat@, i as int));
            }
            return Some(i);
        }
        proof {
            let k = choose|k: int| 0 <= k < m && v@[i + k] != pat@[k];
            assert(!matches_at(v@, pat@, i as int)) by {
                if matches_at(v@, pat@, i as int) {
                    assert(v@.subrange(i as int, i + m)[k] == pat@[k]);
                }
            }
        }
        i = i + 1;
    }
    None
}

/// True when the characters of `s` begin with `pat`.
pub open spec fn starts_with(s: Seq<char>, pat: Seq<char>) -> bool {
    matches_at(s, pat, 0)
}

/// Tests whether `v` begins with `pat`.
pub fn begins_with(v: &Vec<char>, pat: &Vec<char>) -> (r: bool)
    ensures
        r == starts_with(v@, pat@),
{
    let m = pat.len();
    if m > v.len() {
        return false;
    }
    let mut j: usize = 0;
    while j < m
        invariant
            m == pat@.len(),
            m <= v@.len(),
            j <= m,
            forall|k: int| 0 <= k < j ==> v@[k] == pat@[k],
        decreases m - j,
    {
        if v[j] != pat[j] {
            proof {
                assert(!starts_with(v@, pat@)) by {
                    if matches_at(v@, pat@, 0) {
                        assert(v@.subrange(0, m as int)[j as int] == pat@[j as int]);
                    }
                }
            }
            return false;
        }
        j = j + 1;
    }
    proof {
        assert(v@.subrange(0, m as int) =~= pat@);
    }
    true
}

/// Compares two character vectors for equality of their contents.
pub fn chars_eq(a: &Vec<char>, b: &Vec<char>) -> (r: bool)
    ensures
        r == (a@ == b@),
{
    if a.len() != b.len() {
        return false;
    }
    let mut j: usize = 0;
    while j < a.len()
        invariant
            a@.len() == b@.len(),
            j <= a@.len(),
            forall|k: int| 0 <= k < j ==> a@[k] == b@[k],
        decreases a@.len() - j,
    {
        if a[j] != b[j] {
            return false;
        }
        j = j + 1;
    }
    proof {
        assert(a@ =~= b@);
    }
    true
}

/// Copies the characters of `v` with indices in `a .. b`.
pub fn subvec(v: &Vec<char>, a: usize, b: usize) -> (r: Vec<char>)
    requires
        a <= b <= v@.len(),
    ensures
        r@ == v@.subrange(a as int, b as int),
{
    let mut r: Vec<char> = Vec::new();
    let mut i: usize = a;
    proof {
        assert(r@ =~= v@.subrange(a as int, a as int));
    }
    while i < b
        invariant
            a <= i <= b <= v@.len(),
            r@ == v@.subrange(a as int, i as int),
        decreases b - i,
    {
        r.push(v[i]);
        proof {
            assert(r@ =~= v@.subrange(a as int, i + 1 as int));
        }
        i = i + 1;
    }
    r
}

/// The characters Rust counts as whitespace: those with the Unicode
/// White_Space property.
pub open spec fn is_space_char(c: char) -> bool {
    c == ' ' || c == '\t' || c == '\n' || c == '\u{B}' || c == '\u{C}' || c == '\r' || c
        == '\u{85}' || c == '\u{A0}' || c == '\u{1680}' || c == '\u{2000}' || c == '\u{2001}' || c
        == '\u{2002}' || c == '\u{2003}' || c == '\u{2004}' || c == '\u{2005}' || c == '\u{2006}'
        || c == '\u{2007}' || c == '\u{2008}' || c == '\u{2009}' || c == '\u{200A}' || c
        == '\u{2028}' || c == '\u{2029}' || c == '\u{202F}' || c == '\u{205F}' || c == '\u{3000}'
}

/// Tests whether a character has the Unicode White_Space property.
pub fn is_space(c: char) -> (r: bool)
    ensures
        r == is_space_char(c),
{
    c == ' ' || c == '\t' || c == '\n' || c == '\u{B}' || c == '\u{C}' || c == '\r' || c
        == '\u{85}' || c == '\u{A0}' || c == '\u{1680}' || c == '\u{2000}' || c == '\u{2001}' || c
        == '\u{2002}' || c == '\u{2003}' || c == '\u{2004}' || c == '\u{2005}' || c == '\u{2006}'
        || c == '\u{2007}' || c == '\u{2008}' || c == '\u{2009}' || c == '\u{200A}' || c
        == '\u{2028}' || c == '\u{2029}' || c == '\u{202F}' || c == '\u{205F}' || c == '\u{3000}'
}

/// The first position at or after `i` holding a character that is not
/// whitespace, or the length.
pub open spec fn first_nonspace_from(s: Seq<char>, i: int) -> int
    decreases s.len() - i,
{
    if i < 0 || i >= s.len() {
        s.len() as int
    } else if is_space_char(s[i]) {
        first_nonspace_from(s, i + 1)
    } else {
        i
    }
}

/// The text with its leading whitespace removed.
pub open spec fn trim_start(s: Seq<char>) -> Seq<char> {
    s.skip(first_nonspace_from(s, 0))
}

/// Removes leading whitespace.
pub fn trim_start_chars(v: &Vec<char>) -> (r: Vec<char>)
    ensures
        r@ == trim_start(v@),
{
    let mut i: usize = 0;
    while i < v.len()
        invariant
            i <= v@.len(),
            first_nonspace_from(v@, 0) == first_nonspace_from(v@, i as int),
        decreases v@.len() - i,
    {
        if !is_space(v[i]) {
            return subvec(v, i, v.len());
        }
        i = i + 1;
    }
    proof {
        assert(v@.subrange(v@.len() as int, v@.len() as int) =~= v@.skip(v@.len() as int));
    }
    subvec(v, v.len(), v.len())
}

/// The lines of a text from position `p` on: pieces split at each newline,
/// a carriage return just before a newline dropped, and no empty final
/// piece after a closing newline.
pub open spec fn spec_lines_from(s: Seq<char>, p: int) -> Seq<Seq<char>>
    decreases s.len() - p,
    via spec_lines_from_dec
{
    if p < 0 || p >= s.len() {
        Seq::empty()
    } else {
        match first_match_from(s, seq!['\n'], p) {
            None => seq![s.skip(p)],
            Some(j) => seq![strip_cr(s.subrange(p, j))] + spec_lines_from(s, j + 1),
        }
    }
}

#[via_fn]
proof fn spec_lines_from_dec(s: Seq<char>, p: int) {
    if 0 <= p < s.len() {
        match first_match_from(s, seq!['\n'], p) {
            None => {},
            Some(j) => {
                lemma_first_match_from(s, seq!['\n'], p);
            },
        }
    }
}

/// A final carriage return removed.
pub open spec fn strip_cr(l: Seq<char>) -> Seq<char> {
    if l.len() > 0 && l[l.len() - 1] == '\r' {
        l.drop_last()
    } else {
        l
    }
}

/// The lines of a text.
pub open spec fn spec_lines(s: Seq<char>) -> Seq<Seq<char>> {
    spec_lines_from(s, 0)
}

/// Splits a text into its lines.
pub fn split_lines(v: &Vec<char>) -> (r: Vec<Vec<char>>)
    ensures
        r.deep_view() == spec_lines(v@),
{
    let mut nl: Vec<char> = Vec::new();
    nl.push('\n');
    proof {
        assert(nl@ =~= seq!['\n']);
    }
    let mut acc: Vec<Vec<char>> = Vec::new();
    let mut p: usize = 0;
    let n = v.len();
    proof {
        assert(acc.deep_view() =~~= Seq::<Seq<char>>::empty());
    }
    while p < n
        invariant
            p <= n,
            n == v@.len(),
            nl@ == seq!['\n'],
            spec_lines(v@) == acc.deep_view() + spec_lines_from(v@, p as int),
        decreases n - p,
    {
        let ghost accv = acc.deep_view();
        match find_pattern(v, &nl, p) {
            None => {
                let chunk = subvec(v, p, n);
                proof {
                    assert(chunk@ =~= v@.skip(p as int));
                }
                acc.push(chunk);
                proof {
                    assert(acc.deep_view() =~~= accv.push(v@.skip(p as int)));
                    assert(accv.push(v@.skip(p as int)) =~= accv + seq![v@.skip(p as int)]);
                    assert(spec_lines_from(v@, n as int) =~= Seq::<Seq<char>>::empty());
                }
                return acc;
            },
            Some(j) => {
                proof {
                    lemma_first_match_from(v@, nl@, p as int);
                }
                let mut chunk = subvec(v, p, j);
                if chunk.len() > 0 && chunk[chunk.len() - 1] == '\r' {
                    let ghost cv = chunk@;
                    let _ = chunk.pop();
                    proof {
                        assert(chunk@ =~= cv.drop_last());
                    }
                }
                proof {
                    assert(chunk@ == strip_cr(v@.subrange(p as int, j as int)));
                }
                acc.push(chunk);
                proof {
                    assert(acc.deep_view() =~~= accv.push(strip_cr(v@.subrange(p as int, j as int))));
                    assert(accv + (seq![strip_cr(v@.subrange(p as int, j as int))] + spec_lines_from(
                        v@,
                        j + 1 as int,
                    )) =~= accv.push(strip_cr(v@.subrange(p as int, j as int))) + spec_lines_from(
                        v@,
                        j + 1 as int,
                    ));
                }
                p = j + 1;
            },
        }
    }
    proof {
        assert(spec_lines_from(v@, p as int) =~= Seq::<Seq<char>>::empty());
        assert(acc.deep_view() + Seq::<Seq<char>>::empty() =~= acc.deep_view());
    }
    acc
}

} // verus!
