use vstd::prelude::*;

verus! {

/// The components of a path text from position `i` on, given the components
/// already finished (`acc`) and the partial component being read (`cur`).
/// A component is a maximal run of characters other than `/`; empty runs
/// are dropped, so doubled or trailing separators do not count.
pub open spec fn comps_from(
    s: Seq<char>,
    i: int,
    acc: Seq<Seq<char>>,
    cur: Seq<char>,
) -> Seq<Seq<char>>
    decreases s.len() - i,
{
    if i < 0 || i >= s.len() {
        if cur.len() > 0 {
            acc.push(cur)
        } else {
            acc
        }
    } else if s[i] == '/' {
        if cur.len() > 0 {
            comps_from(s, i + 1, acc.push(cur), Seq::empty())
        } else {
            comps_from(s, i + 1, acc, Seq::empty())
        }
    } else {
        comps_from(s, i + 1, acc, cur.push(s[i]))
    }
}

/// The components of a path text.
pub open spec fn path_comps(s: Seq<char>) -> Seq<Seq<char>> {
    comps_from(s, 0, Seq::empty(), Seq::empty())
}

/// A path text is absolute when it begins with the separator.
pub open spec fn is_absolute(s: Seq<char>) -> bool {
    s.len() > 0 && s[0] == '/'
}

/// Splits a path text into its components.
pub fn split_comps(v: &Vec<char>) -> (r: Vec<Vec<char>>)
    ensures
        r.deep_view() == path_comps(v@),
{
    let mut acc: Vec<Vec<char>> = Vec::new();
    let mut cur: Vec<char> = Vec::new();
    let mut i: usize = 0;
    proof {
        assert(acc.deep_view() =~~= Seq::<Seq<char>>::empty());
    }
    while i < v.len()
        invariant
            i <= v@.len(),
            path_comps(v@) == comps_from(v@, i as int, acc.deep_view(), cur@),
        decreases v@.len() - i,
    {
        if v[i] == '/' {
            if cur.len() > 0 {
                let ghost prev = acc.deep_view();
                acc.push(cur);
                proof {
                    assert(acc.deep_view() =~~= prev.push(cur@));
                }
                cur = Vec::new();
            } else {
                proof {
                    assert(cur@ =~= Seq::<char>::empty());
                }
            }
        } else {
            cur.push(v[i]);
        }
        i = i + 1;
    }
    if cur.len() > 0 {
        let ghost prev = acc.deep_view();
        acc.push(cur);
        proof {
            assert(acc.deep_view() =~~= prev.push(cur@));
        }
    }
    acc
}

/// Tests whether the first character is the separator.
pub fn is_absolute_chars(v: &Vec<char>) -> (r: bool)
    ensures
        r == is_absolute(v@),
{
    v.len() > 0 && v[0] == '/'
}

/// One component sequence is a prefix of another.
pub open spec fn comps_prefix(a: Seq<Seq<char>>, b: Seq<Seq<char>>) -> bool {
    a.len() <= b.len() && a == b.take(a.len() as int)
}

/// Tests whether the first `k` components of `a` are a prefix of `b`.
pub fn comps_prefix_upto(a: &Vec<Vec<char>>, k: usize, b: &Vec<Vec<char>>) -> (r: bool)
    requires
        k <= a@.len(),
    ensures
        r == comps_prefix(a.deep_view().take(k as int), b.deep_view()),
{
    if k > b.len() {
        return false;
    }
    let mut j: usize = 0;
    while j < k
        invariant
            k <= a@.len(),
            k <= b@.len(),
            j <= k,
            a@.len() == a.deep_view().len(),
            b@.len() == b.deep_view().len(),
            forall|m: int| 0 <= m < j ==> a.deep_view()[m] == b.deep_view()[m],
        decreases k - j,
    {
        if !crate::text::chars_eq(&a[j], &b[j]) {
            proof {
                assert(a.deep_view()[j as int] == a@[j as int]@);
                assert(b.deep_view()[j as int] == b@[j as int]@);
                assert(!comps_prefix(a.deep_view().take(k as int), b.deep_view())) by {
                    if comps_prefix(a.deep_view().take(k as int), b.deep_view()) {
                        assert(a.deep_view().take(k as int)[j as int] == b.deep_view().take(
                            k as int,
                        )[j as int]);
                    }
                }
            }
            return false;
        }
        proof {
            assert(a.deep_view()[j as int] == a@[j as int]@);
            assert(b.deep_view()[j as int] == b@[j as int]@);
        }
        j = j + 1;
    }
    proof {
        assert(a.deep_view().take(k as int) =~= b.deep_view().take(k as int));
    }
    true
}

/// The largest `k` not above `bc.len()` for which the first `k` components
/// of `bc` are a prefix of `tc`.
pub open spec fn reduce_len(bc: Seq<Seq<char>>, tc: Seq<Seq<char>>) -> int {
    reduce_from(bc, tc, bc.len() as int)
}

/// Helper for `reduce_len`, counting down from `k`.
pub open spec fn reduce_from(bc: Seq<Seq<char>>, tc: Seq<Seq<char>>, k: int) -> int
    decreases k,
{
    if k <= 0 {
        0
    } else if comps_prefix(bc.take(k), tc) {
        k
    } else {
        reduce_from(bc, tc, k - 1)
    }
}

/// The parent-directory component.
pub open spec fn dotdot() -> Seq<char> {
    seq!['.', '.']
}

/// `n` repetitions of the text `../`.
pub open spec fn repeat_updir(n: nat) -> Seq<char>
    decreases n,
{
    if n == 0 {
        Seq::empty()
    } else {
        seq!['.', '.', '/'] + repeat_updir((n - 1) as nat)
    }
}

/// Components joined by the separator, without a leading one.
pub open spec fn join_comps(cs: Seq<Seq<char>>) -> Seq<char>
    decreases cs.len(),
{
    if cs.len() == 0 {
        Seq::empty()
    } else if cs.len() == 1 {
        cs[0]
    } else {
        cs[0] + seq!['/'] + join_comps(cs.drop_first())
    }
}

/// The relative path expression from `b` to `t`, when both are absolute:
/// one `../` for every component of `b` beyond their shared prefix, then
/// the rest of `t`.
pub open spec fn spec_relativise(b: Seq<char>, t: Seq<char>) -> Option<Seq<char>> {
    if !is_absolute(b) || !is_absolute(t) {
        None
    } else {
        let bc = path_comps(b);
        let tc = path_comps(t);
        let k = reduce_len(bc, tc);
        Some(repeat_updir((bc.len() - k) as nat) + join_comps(tc.skip(k)))
    }
}

/// Appending one more `../` at the end equals prepending it at the front.
pub proof fn lemma_repeat_updir_snoc(n: nat)
    ensures
        repeat_updir(n + 1) == repeat_updir(n) + seq!['.', '.', '/'],
    decreases n,
{
    if n == 0 {
        assert(repeat_updir(1) =~= repeat_updir(0) + seq!['.', '.', '/']);
    } else {
        lemma_repeat_updir_snoc((n - 1) as nat);
        assert(repeat_updir(n + 1) =~= repeat_updir(n) + seq!['.', '.', '/']);
    }
}

/// Builds the text of `n` repetitions of `../`.
pub fn updir_chars(n: usize) -> (r: Vec<char>)
    ensures
        r@ == repeat_updir(n as nat),
{
    let mut r: Vec<char> = Vec::new();
    let mut i: usize = 0;
    proof {
        assert(r@ =~= repeat_updir(0));
    }
    while i < n
        invariant
            i <= n,
            r@ == repeat_updir(i as nat),
        decreases n - i,
    {
        r.push('.');
        r.push('.');
        r.push('/');
        proof {
            lemma_repeat_updir_snoc(i as nat);
            assert(r@ =~= repeat_updir(i as nat) + seq!['.', '.', '/']);
        }
        i = i + 1;
    }
    r
}

/// Joining one more component appends a separator and the component.
pub proof fn lemma_join_snoc(cs: Seq<Seq<char>>, c: Seq<char>)
    ensures
        cs.len() == 0 ==> join_comps(cs.push(c)) == c,
        cs.len() > 0 ==> join_comps(cs.push(c)) == join_comps(cs) + seq!['/'] + c,
    decreases cs.len(),
{
    if cs.len() == 0 {
        assert(cs.push(c)[0] == c);
    } else if cs.len() == 1 {
        assert(cs.push(c).drop_first() =~= cs.drop_first().push(c));
        assert(cs.push(c).drop_first() =~= seq![c]);
        assert(join_comps(seq![c]) == c);
        assert(join_comps(cs.push(c)) == cs[0] + seq!['/'] + c);
        assert(join_comps(cs) == cs[0]);
    } else {
        assert(cs.push(c).drop_first() =~= cs.drop_first().push(c));
        lemma_join_snoc(cs.drop_first(), c);
        assert(join_comps(cs.push(c)) == cs[0] + seq!['/'] + (join_comps(cs.drop_first())
            + seq!['/'] + c));
        assert(cs[0] + seq!['/'] + (join_comps(cs.drop_first()) + seq!['/'] + c) =~= (cs[0]
            + seq!['/'] + join_comps(cs.drop_first())) + seq!['/'] + c);
    }
}

/// Joins the components of `cs` from position `from` on with separators.
pub fn join_comps_from(cs: &Vec<Vec<char>>, from: usize) -> (r: Vec<char>)
    requires
        from <= cs@.len(),
    ensures
        r@ == join_comps(cs.deep_view().skip(from as int)),
{
    let ghost whole = cs.deep_view().skip(from as int);
    let mut r: Vec<char> = Vec::new();
    let mut j: usize = from;
    proof {
        assert(cs.deep_view().subrange(from as int, from as int) =~= Seq::<Seq<char>>::empty());
    }
    while j < cs.len()
        invariant
            from <= j <= cs@.len(),
            cs@.len() == cs.deep_view().len(),
            r@ == join_comps(cs.deep_view().subrange(from as int, j as int)),
        decreases cs@.len() - j,
    {
        let ghost sofar = cs.deep_view().subrange(from as int, j as int);
        proof {
            assert(cs.deep_view().subrange(from as int, j + 1) =~= sofar.push(
                cs.deep_view()[j as int],
            ));
            lemma_join_snoc(sofar, cs.deep_view()[j as int]);
        }
        if j > from {
            r.push('/');
        }
        let mut piece = cs[j].clone();
        proof {
            assert(piece@ == cs@[j as int]@);
            assert(cs.deep_view()[j as int] == cs@[j as int]@);
        }
        r.append(&mut piece);
        j = j + 1;
    }
    proof {
        assert(cs.deep_view().subrange(from as int, cs.deep_view().len() as int) =~= cs.deep_view()
            .skip(from as int));
    }
    r
}

/// The relative path expression from `base` to `target`. Both must be
/// absolute, else nothing is returned. `base` is taken as a directory: a
/// caller holding a file path drops its final component first. Components
/// of `base` are dropped from its end, counting the drops, until what is
/// left is a prefix of `target`; the result is one `../` per drop followed
/// by the rest of `target`.
pub fn relativise_path(base: &str, target: &str) -> (r: Option<String>)
    ensures
        match r {
            Some(s) => spec_relativise(base@, target@) == Some(s@),
            None => spec_relativise(base@, target@) is None,
        },
{
    let bv = crate::text::str_chars(base);
    let tv = crate::text::str_chars(target);
    if !is_absolute_chars(&bv) || !is_absolute_chars(&tv) {
        return None;
    }
    let bc = split_comps(&bv);
    let tc = split_comps(&tv);
    let ghost bcs = bc.deep_view();
    let ghost tcs = tc.deep_view();
    let mut k: usize = bc.len();
    proof {
        assert(bc@.len() == bcs.len());
    }
    while !comps_prefix_upto(&bc, k, &tc)
        invariant
            k <= bcs.len(),
            bc@.len() == bcs.len(),
            bcs == bc.deep_view(),
            tcs == tc.deep_view(),
            reduce_from(bcs, tcs, bcs.len() as int) == reduce_from(bcs, tcs, k as int),
        decreases k,
    {
        proof {
            assert(bcs.take(0) =~= tcs.take(0));
            assert(comps_prefix(bcs.take(0), tcs));
            assert(k > 0);
        }
        k = k - 1;
    }
    proof {
        assert(reduce_len(bcs, tcs) == k as int);
    }
    let pops = bc.len() - k;
    let mut out = updir_chars(pops);
    let mut tail = join_comps_from(&tc, k);
    out.append(&mut tail);
    let res = crate::text::chars_string(&out);
    proof {
        assert(out@ == repeat_updir((bcs.len() - k) as nat) + join_comps(tcs.skip(k as int)));
    }
    Some(res)
}

/// A well-formed component: nonempty and free of the separator.
pub open spec fn comp_wf(c: Seq<char>) -> bool {
    c.len() > 0 && forall|j: int| 0 <= j < c.len() ==> c[j] != '/'
}

/// All components well formed.
pub open spec fn comps_all_wf(cs: Seq<Seq<char>>) -> bool {
    forall|i: int| 0 <= i < cs.len() ==> comp_wf(#[trigger] cs[i])
}

/// The accumulator only stands in front of what is still to be read.
pub proof fn lemma_comps_from_acc(s: Seq<char>, i: int, acc: Seq<Seq<char>>, cur: Seq<char>)
    ensures
        comps_from(s, i, acc, cur) == acc + comps_from(s, i, Seq::empty(), cur),
    decreases s.len() - i,
{
    if i < 0 || i >= s.len() {
        if cur.len() > 0 {
            assert(acc.push(cur) =~= acc + Seq::<Seq<char>>::empty().push(cur));
        } else {
            assert(acc =~= acc + Seq::<Seq<char>>::empty());
        }
    } else if s[i] == '/' {
        if cur.len() > 0 {
            lemma_comps_from_acc(s, i + 1, acc.push(cur), Seq::empty());
            lemma_comps_from_acc(s, i + 1, Seq::<Seq<char>>::empty().push(cur), Seq::empty());
            assert(acc.push(cur) =~= acc + Seq::<Seq<char>>::empty().push(cur));
            assert(acc.push(cur) + comps_from(s, i + 1, Seq::empty(), Seq::empty()) =~= acc + (
            Seq::<Seq<char>>::empty().push(cur) + comps_from(s, i + 1, Seq::empty(), Seq::empty())));
        } else {
            lemma_comps_from_acc(s, i + 1, acc, Seq::empty());
        }
    } else {
        lemma_comps_from_acc(s, i + 1, acc, cur.push(s[i]));
    }
}

/// Reading a concatenation from the start of its second part is reading
/// that part.
pub proof fn lemma_comps_from_shift(
    a: Seq<char>,
    b: Seq<char>,
    j: int,
    acc: Seq<Seq<char>>,
    cur: Seq<char>,
)
    requires
        0 <= j <= b.len(),
    ensures
        comps_from(a + b, a.len() + j, acc, cur) == comps_from(b, j, acc, cur),
    decreases b.len() - j,
{
    if j >= b.len() {
    } else {
        assert((a + b)[a.len() + j] == b[j]);
        if b[j] == '/' {
            if cur.len() > 0 {
                lemma_comps_from_shift(a, b, j + 1, acc.push(cur), Seq::empty());
            } else {
                lemma_comps_from_shift(a, b, j + 1, acc, Seq::empty());
            }
        } else {
            lemma_comps_from_shift(a, b, j + 1, acc, cur.push(b[j]));
        }
    }
}

/// Reading a run without separators accumulates it onto `cur`.
pub proof fn lemma_comps_from_run(s: Seq<char>, i: int, k: int, acc: Seq<Seq<char>>, cur: Seq<char>)
    requires
        0 <= i,
        0 <= k,
        i + k <= s.len(),
        forall|j: int| i <= j < i + k ==> s[j] != '/',
    ensures
        comps_from(s, i, acc, cur) == comps_from(s, i + k, acc, cur + s.subrange(i, i + k)),
    decreases k,
{
    if k == 0 {
        assert(cur + s.subrange(i, i) =~= cur);
    } else {
        lemma_comps_from_run(s, i + 1, k - 1, acc, cur.push(s[i]));
        assert(cur.push(s[i]) + s.subrange(i + 1, i + k) =~= cur + s.subrange(i, i + k));
    }
}

/// The components of a single well-formed component are just itself.
pub proof fn lemma_path_comps_single(c: Seq<char>)
    requires
        comp_wf(c),
    ensures
        path_comps(c) == seq![c],
{
    lemma_comps_from_run(c, 0, c.len() as int, Seq::empty(), Seq::empty());
    assert(Seq::<char>::empty() + c.subrange(0, c.len() as int) =~= c);
    assert(Seq::<Seq<char>>::empty().push(c) =~= seq![c]);
}

/// Splitting `c/rest` yields `c` and then the components of `rest`.
pub proof fn lemma_path_comps_cons(c: Seq<char>, rest: Seq<char>)
    requires
        comp_wf(c),
    ensures
        path_comps(c + seq!['/'] + rest) == seq![c] + path_comps(rest),
{
    let s = c + seq!['/'] + rest;
    let a = c + seq!['/'];
    assert(s =~= a + rest);
    lemma_comps_from_run(s, 0, c.len() as int, Seq::empty(), Seq::empty());
    assert(Seq::<char>::empty() + s.subrange(0, c.len() as int) =~= c);
    assert(s[c.len() as int] == '/');
    assert(comps_from(s, 0, Seq::empty(), Seq::empty()) == comps_from(
        s,
        c.len() + 1 as int,
        seq![c],
        Seq::empty(),
    ));
    lemma_comps_from_shift(a, rest, 0, seq![c], Seq::empty());
    lemma_comps_from_acc(rest, 0, seq![c], Seq::empty());
}

/// Joined well-formed components split back into themselves.
pub proof fn lemma_join_roundtrip(cs: Seq<Seq<char>>)
    requires
        comps_all_wf(cs),
    ensures
        path_comps(join_comps(cs)) == cs,
    decreases cs.len(),
{
    if cs.len() == 0 {
        assert(path_comps(Seq::<char>::empty()) =~= Seq::<Seq<char>>::empty());
    } else if cs.len() == 1 {
        lemma_path_comps_single(cs[0]);
        assert(seq![cs[0]] =~= cs);
    } else {
        lemma_path_comps_cons(cs[0], join_comps(cs.drop_first()));
        lemma_join_roundtrip(cs.drop_first());
        assert(seq![cs[0]] + cs.drop_first() =~= cs);
    }
}

/// `n` parent-directory components.
pub open spec fn dotdots(n: nat) -> Seq<Seq<char>>
    decreases n,
{
    if n == 0 {
        Seq::empty()
    } else {
        seq![dotdot()] + dotdots((n - 1) as nat)
    }
}

/// The components of `../` repeated `n` times and then `rest`.
pub proof fn lemma_path_comps_updirs(n: nat, rest: Seq<char>)
    ensures
        path_comps(repeat_updir(n) + rest) == dotdots(n) + path_comps(rest),
    decreases n,
{
    if n == 0 {
        assert(repeat_updir(0) + rest =~= rest);
        assert(dotdots(0) + path_comps(rest) =~= path_comps(rest));
    } else {
        let tail = repeat_updir((n - 1) as nat) + rest;
        assert(repeat_updir(n) + rest =~= dotdot() + seq!['/'] + tail);
        assert(comp_wf(dotdot()));
        lemma_path_comps_cons(dotdot(), tail);
        lemma_path_comps_updirs((n - 1) as nat, rest);
        assert(seq![dotdot()] + (dotdots((n - 1) as nat) + path_comps(rest)) =~= dotdots(n)
            + path_comps(rest));
    }
}

/// Resolves a relative component sequence against a directory: each
/// parent-directory component drops the last component of the directory,
/// every other component is appended.
pub open spec fn resolve(dir: Seq<Seq<char>>, rel: Seq<Seq<char>>) -> Seq<Seq<char>>
    decreases rel.len(),
{
    if rel.len() == 0 {
        dir
    } else if rel[0] == dotdot() {
        resolve(
            if dir.len() > 0 {
                dir.drop_last()
            } else {
                dir
            },
            rel.drop_first(),
        )
    } else {
        resolve(dir.push(rel[0]), rel.drop_first())
    }
}

/// Resolving `n` parent-directory components drops `n` components.
pub proof fn lemma_resolve_pops(dir: Seq<Seq<char>>, n: nat, rest: Seq<Seq<char>>)
    requires
        n <= dir.len(),
    ensures
        resolve(dir, dotdots(n) + rest) == resolve(dir.take((dir.len() - n) as int), rest),
    decreases n,
{
    if n == 0 {
        assert(dotdots(0) + rest =~= rest);
        assert(dir.take(dir.len() as int) =~= dir);
    } else {
        let rel = dotdots(n) + rest;
        assert(rel[0] == dotdot());
        assert(rel.drop_first() =~= dotdots((n - 1) as nat) + rest);
        assert(dir.len() > 0);
        lemma_resolve_pops(dir.drop_last(), (n - 1) as nat, rest);
        assert(dir.drop_last() =~= dir.take(dir.len() - 1));
        assert(dir.take(dir.len() - 1).take(dir.len() - n) =~= dir.take((dir.len() - n) as int));
    }
}

/// Resolving components free of parent-directory steps appends them.
pub proof fn lemma_resolve_append(dir: Seq<Seq<char>>, rest: Seq<Seq<char>>)
    requires
        forall|i: int| 0 <= i < rest.len() ==> rest[i] != dotdot(),
    ensures
        resolve(dir, rest) == dir + rest,
    decreases rest.len(),
{
    if rest.len() == 0 {
        assert(dir + rest =~= dir);
    } else {
        lemma_resolve_append(dir.push(rest[0]), rest.drop_first());
        assert(dir.push(rest[0]) + rest.drop_first() =~= dir + rest);
    }
}

/// What `reduce_from` returns: a prefix length, the largest one below `k`.
pub proof fn lemma_reduce_from(bc: Seq<Seq<char>>, tc: Seq<Seq<char>>, k: int)
    requires
        0 <= k <= bc.len(),
    ensures
        0 <= reduce_from(bc, tc, k) <= k,
        comps_prefix(bc.take(reduce_from(bc, tc, k)), tc),
        forall|j: int| reduce_from(bc, tc, k) < j <= k ==> !comps_prefix(bc.take(j), tc),
    decreases k,
{
    if k <= 0 {
        assert(bc.take(0) =~= tc.take(0));
    } else if comps_prefix(bc.take(k), tc) {
    } else {
        lemma_reduce_from(bc, tc, k - 1);
    }
}

/// The components of every path are well formed.
pub proof fn lemma_path_comps_wf_from(s: Seq<char>, i: int, acc: Seq<Seq<char>>, cur: Seq<char>)
    requires
        comps_all_wf(acc),
        forall|j: int| 0 <= j < cur.len() ==> cur[j] != '/',
    ensures
        comps_all_wf(comps_from(s, i, acc, cur)),
    decreases s.len() - i,
{
    if i < 0 || i >= s.len() {
        if cur.len() > 0 {
            assert(comps_all_wf(acc.push(cur))) by {
                assert(forall|m: int| 0 <= m < acc.len() ==> acc.push(cur)[m] == acc[m]);
                assert(acc.push(cur)[acc.len() as int] == cur);
            }
        }
    } else if s[i] == '/' {
        if cur.len() > 0 {
            assert(comps_all_wf(acc.push(cur))) by {
                assert(forall|m: int| 0 <= m < acc.len() ==> acc.push(cur)[m] == acc[m]);
                assert(acc.push(cur)[acc.len() as int] == cur);
            }
            lemma_path_comps_wf_from(s, i + 1, acc.push(cur), Seq::empty());
        } else {
            lemma_path_comps_wf_from(s, i + 1, acc, Seq::empty());
        }
    } else {
        lemma_path_comps_wf_from(s, i + 1, acc, cur.push(s[i]));
    }
}

/// The components of every path text are well formed.
pub proof fn lemma_path_comps_wf(s: Seq<char>)
    ensures
        comps_all_wf(path_comps(s)),
{
    lemma_path_comps_wf_from(s, 0, Seq::empty(), Seq::empty());
}

/// When the target lies under the base, the relative expression has no
/// parent-directory segments, and the base's components followed by the
/// expression's components are exactly the target's components.
pub proof fn lemma_relativise_under_base(b: Seq<char>, t: Seq<char>)
    requires
        is_absolute(b),
        is_absolute(t),
        comps_prefix(path_comps(b), path_comps(t)),
        forall|i: int| 0 <= i < path_comps(t).len() ==> path_comps(t)[i] != dotdot(),
    ensures
        spec_relativise(b, t) is Some,
        path_comps(spec_relativise(b, t)->Some_0) == path_comps(t).skip(path_comps(b).len() as int),
        forall|i: int|
            0 <= i < path_comps(spec_relativise(b, t)->Some_0).len() ==> path_comps(
                spec_relativise(b, t)->Some_0,
            )[i] != dotdot(),
        path_comps(b) + path_comps(spec_relativise(b, t)->Some_0) == path_comps(t),
{
    let bc = path_comps(b);
    let tc = path_comps(t);
    assert(bc.take(bc.len() as int) =~= bc);
    let k = reduce_len(bc, tc);
    assert(k == bc.len()) by {
        if bc.len() > 0 {
            assert(comps_prefix(bc.take(bc.len() as int), tc));
        }
    }
    let r = spec_relativise(b, t)->Some_0;
    assert(repeat_updir(0) + join_comps(tc.skip(k)) =~= join_comps(tc.skip(k)));
    assert(comps_all_wf(tc.skip(k))) by {
        lemma_path_comps_wf(t);
        assert(forall|i: int| 0 <= i < tc.skip(k).len() ==> tc.skip(k)[i] == #[trigger] tc[i + k]);
    }
    lemma_join_roundtrip(tc.skip(k));
    assert(path_comps(r) == tc.skip(k));
    assert(forall|i: int| 0 <= i < tc.skip(k).len() ==> tc.skip(k)[i] == #[trigger] tc[i + k]);
    assert(bc + path_comps(r) =~= tc);
}

/// Resolving the relative expression against the base's components gives
/// back the target's components, for any two absolute paths whose
/// components contain no parent-directory segments.
pub proof fn lemma_relativise_resolves(b: Seq<char>, t: Seq<char>)
    requires
        is_absolute(b),
        is_absolute(t),
        forall|i: int| 0 <= i < path_comps(t).len() ==> path_comps(t)[i] != dotdot(),
    ensures
        spec_relativise(b, t) is Some,
        resolve(path_comps(b), path_comps(spec_relativise(b, t)->Some_0)) == path_comps(t),
{
    let bc = path_comps(b);
    let tc = path_comps(t);
    let k = reduce_len(bc, tc);
    lemma_reduce_from(bc, tc, bc.len() as int);
    let r = spec_relativise(b, t)->Some_0;
    let n = (bc.len() - k) as nat;
    assert(comps_all_wf(tc.skip(k))) by {
        lemma_path_comps_wf(t);
        assert(forall|i: int| 0 <= i < tc.skip(k).len() ==> tc.skip(k)[i] == #[trigger] tc[i + k]);
    }
    lemma_join_roundtrip(tc.skip(k));
    lemma_path_comps_updirs(n, join_comps(tc.skip(k)));
    assert(path_comps(r) == dotdots(n) + tc.skip(k));
    lemma_resolve_pops(bc, n, tc.skip(k));
    assert(forall|i: int| 0 <= i < tc.skip(k).len() ==> tc.skip(k)[i] == #[trigger] tc[i + k]);
    lemma_resolve_append(bc.take(k), tc.skip(k));
    assert(comps_prefix(bc.take(k), tc));
    assert(bc.take(k) + tc.skip(k) =~= tc) by {
        assert(forall|i: int| 0 <= i < k ==> bc.take(k)[i] == tc.take(k)[i]);
    }
}

/// The largest index `i` with `lo <= i < hi` where `s[i] == c`, or `-1`.
pub open spec fn last_in_range(s: Seq<char>, c: char, lo: int, hi: int) -> int
    decreases hi - lo,
{
    if lo < 0 || hi > s.len() || hi <= lo {
        -1
    } else if s[hi - 1] == c {
        hi - 1
    } else {
        last_in_range(s, c, lo, hi - 1)
    }
}

/// Finds the largest index `i` with `lo <= i < hi` where `v[i] == c`.
pub fn last_char_in_range(v: &Vec<char>, c: char, lo: usize, hi: usize) -> (r: Option<usize>)
    requires
        hi <= v@.len(),
    ensures
        match r {
            Some(i) => lo <= i < hi && last_in_range(v@, c, lo as int, hi as int) == i as int,
            None => last_in_range(v@, c, lo as int, hi as int) == -1,
        },
{
    let mut h = hi;
    while h > lo
        invariant
            hi <= v@.len(),
            h <= hi,
            last_in_range(v@, c, lo as int, hi as int) == last_in_range(v@, c, lo as int, h as int),
        decreases h,
    {
        if v[h - 1] == c {
            return Some(h - 1);
        }
        h = h - 1;
    }
    None
}

/// The start of the final path segment: one past the last separator.
pub open spec fn seg_start(s: Seq<char>) -> int {
    last_in_range(s, '/', 0, s.len() as int) + 1
}

/// The index of the dot introducing the extension, or `-1`. The dot of the
/// extension is the last one in the final segment, and a dot that begins
/// the segment does not count.
pub open spec fn ext_dot(s: Seq<char>) -> int {
    last_in_range(s, '.', seg_start(s) + 1, s.len() as int)
}

/// The extension of the final path segment: the text after its last dot,
/// or empty when there is none.
pub open spec fn ext_of(s: Seq<char>) -> Seq<char> {
    if ext_dot(s) == -1 {
        Seq::empty()
    } else {
        s.skip(ext_dot(s) + 1)
    }
}

/// The final path segment.
pub open spec fn file_name(s: Seq<char>) -> Seq<char> {
    s.skip(seg_start(s))
}

/// The path with the extension of its final segment replaced by `e`.
pub open spec fn set_ext(s: Seq<char>, e: Seq<char>) -> Seq<char> {
    if ext_dot(s) == -1 {
        s + seq!['.'] + e
    } else {
        s.take(ext_dot(s)) + seq!['.'] + e
    }
}

/// The path with the extension of its final segment removed.
pub open spec fn strip_ext(s: Seq<char>) -> Seq<char> {
    if ext_dot(s) == -1 {
        s
    } else {
        s.take(ext_dot(s))
    }
}

/// Computes the extension of the final segment of `v`.
pub fn ext_of_chars(v: &Vec<char>) -> (r: Vec<char>)
    ensures
        r@ == ext_of(v@),
{
    let sl = last_char_in_range(v, '/', 0, v.len());
    let start: usize = match sl {
        Some(i) => i + 1,
        None => 0,
    };
    let lo = if start < v.len() {
        start + 1
    } else {
        v.len()
    };
    let dot = last_char_in_range(v, '.', lo, v.len());
    proof {
        assert(last_in_range(v@, '.', lo as int, v@.len() as int) == last_in_range(
            v@,
            '.',
            start + 1 as int,
            v@.len() as int,
        ));
    }
    match dot {
        None => Vec::new(),
        Some(d) => {
            let mut r: Vec<char> = Vec::new();
            let mut i: usize = d + 1;
            proof {
                assert(r@ =~= v@.subrange(d + 1 as int, d + 1 as int));
            }
            while i < v.len()
                invariant
                    d + 1 <= i <= v@.len(),
                    r@ == v@.subrange(d + 1 as int, i as int),
                decreases v@.len() - i,
            {
                r.push(v[i]);
                proof {
                    assert(r@ =~= v@.subrange(d + 1 as int, i + 1 as int));
                }
                i = i + 1;
            }
            proof {
                assert(v@.subrange(d + 1 as int, v@.len() as int) =~= v@.skip(d + 1));
            }
            r
        },
    }
}

/// Computes the final segment of `v`.
pub fn file_name_chars(v: &Vec<char>) -> (r: Vec<char>)
    ensures
        r@ == file_name(v@),
{
    let sl = last_char_in_range(v, '/', 0, v.len());
    let start: usize = match sl {
        Some(i) => i + 1,
        None => 0,
    };
    let mut r: Vec<char> = Vec::new();
    let mut i: usize = start;
    proof {
        assert(r@ =~= v@.subrange(start as int, start as int));
    }
    while i < v.len()
        invariant
            start <= i <= v@.len(),
            r@ == v@.subrange(start as int, i as int),
        decreases v@.len() - i,
    {
        r.push(v[i]);
        proof {
            assert(r@ =~= v@.subrange(start as int, i + 1 as int));
        }
        i = i + 1;
    }
    proof {
        assert(v@.subrange(start as int, v@.len() as int) =~= v@.skip(start as int));
    }
    r
}

/// Replaces the extension of the final segment of `v` with `e`.
pub fn set_ext_chars(v: &Vec<char>, e: &Vec<char>) -> (r: Vec<char>)
    ensures
        r@ == set_ext(v@, e@),
{
    let sl = last_char_in_range(v, '/', 0, v.len());
    let start: usize = match sl {
        Some(i) => i + 1,
        None => 0,
    };
    let lo = if start < v.len() {
        start + 1
    } else {
        v.len()
    };
    let dot = last_char_in_range(v, '.', lo, v.len());
    proof {
        assert(last_in_range(v@, '.', lo as int, v@.len() as int) == last_in_range(
            v@,
            '.',
            start + 1 as int,
            v@.len() as int,
        ));
    }
    let stop: usize = match dot {
        None => v.len(),
        Some(d) => d,
    };
    let mut r: Vec<char> = Vec::new();
    let mut i: usize = 0;
    proof {
        assert(r@ =~= v@.subrange(0, 0));
    }
    while i < stop
        invariant
            stop <= v@.len(),
            i <= stop,
            r@ == v@.subrange(0, i as int),
        decreases stop - i,
    {
        r.push(v[i]);
        proof {
            assert(r@ =~= v@.subrange(0, i + 1 as int));
        }
        i = i + 1;
    }
    r.push('.');
    let mut tail = e.clone();
    r.append(&mut tail);
    proof {
        if ext_dot(v@) == -1 {
            assert(v@.subrange(0, v@.len() as int) =~= v@);
        }
        assert(r@ =~= set_ext(v@, e@));
    }
    r
}

/// Removes the extension of the final segment of `v`.
pub fn strip_ext_chars(v: &Vec<char>) -> (r: Vec<char>)
    ensures
        r@ == strip_ext(v@),
{
    let sl = last_char_in_range(v, '/', 0, v.len());
    let start: usize = match sl {
        Some(i) => i + 1,
        None => 0,
    };
    let lo = if start < v.len() {
        start + 1
    } else {
        v.len()
    };
    let dot = last_char_in_range(v, '.', lo, v.len());
    proof {
        assert(last_in_range(v@, '.', lo as int, v@.len() as int) == last_in_range(
            v@,
            '.',
            start + 1 as int,
            v@.len() as int,
        ));
    }
    let stop: usize = match dot {
        None => v.len(),
        Some(d) => d,
    };
    let r = crate::text::subvec(v, 0, stop);
    proof {
        if ext_dot(v@) == -1 {
            assert(v@.subrange(0, v@.len() as int) =~= v@);
        }
    }
    r
}

/// Splitting a path that begins with the separator is splitting the rest.
pub proof fn lemma_path_comps_lead_slash(s: Seq<char>)
    ensures
        path_comps(seq!['/'] + s) == path_comps(s),
{
    let w = seq!['/'] + s;
    assert(w[0] == '/');
    lemma_comps_from_shift(seq!['/'], s, 0, Seq::empty(), Seq::empty());
}

/// The absolute path of the directory holding the final segment of `p`,
/// or nothing when `p` is not absolute or has no segment to drop.
pub open spec fn spec_parent(s: Seq<char>) -> Option<Seq<char>> {
    if !is_absolute(s) || path_comps(s).len() == 0 {
        None
    } else {
        Some(seq!['/'] + join_comps(path_comps(s).drop_last()))
    }
}

/// Computes the directory part of an absolute path: the path without its
/// final segment, keeping the leading separator.
pub fn path_parent(p: &str) -> (r: Option<String>)
    ensures
        match r {
            Some(s) => spec_parent(p@) == Some(s@) && is_absolute(s@) && path_comps(s@)
                == path_comps(p@).drop_last(),
            None => spec_parent(p@) is None,
        },
{
    let pv = crate::text::str_chars(p);
    if !is_absolute_chars(&pv) {
        return None;
    }
    let comps = split_comps(&pv);
    if comps.len() == 0 {
        return None;
    }
    let mut out: Vec<char> = Vec::new();
    out.push('/');
    let ghost cs = comps.deep_view();
    let mut tail = join_comps_from_upto(&comps, 0, comps.len() - 1);
    out.append(&mut tail);
    let res = crate::text::chars_string(&out);
    proof {
        assert(cs.subrange(0, cs.len() - 1) =~= cs.drop_last());
        assert(out@ =~= seq!['/'] + join_comps(cs.drop_last()));
        assert(is_absolute(out@));
        lemma_path_comps_lead_slash(join_comps(cs.drop_last()));
        assert(comps_all_wf(cs.drop_last())) by {
            lemma_path_comps_wf(pv@);
            assert(forall|i: int|
                0 <= i < cs.drop_last().len() ==> cs.drop_last()[i] == #[trigger] cs[i]);
        }
        lemma_join_roundtrip(cs.drop_last());
    }
    Some(res)
}

/// Joins the components of `cs` with indices in `from .. upto`.
pub fn join_comps_from_upto(cs: &Vec<Vec<char>>, from: usize, upto: usize) -> (r: Vec<char>)
    requires
        from <= upto <= cs@.len(),
    ensures
        r@ == join_comps(cs.deep_view().subrange(from as int, upto as int)),
{
    let mut r: Vec<char> = Vec::new();
    let mut j: usize = from;
    proof {
        assert(cs.deep_view().subrange(from as int, from as int) =~= Seq::<Seq<char>>::empty());
    }
    while j < upto
        invariant
            from <= j <= upto <= cs@.len(),
            cs@.len() == cs.deep_view().len(),
            r@ == join_comps(cs.deep_view().subrange(from as int, j as int)),
        decreases upto - j,
    {
        let ghost sofar = cs.deep_view().subrange(from as int, j as int);
        proof {
            assert(cs.deep_view().subrange(from as int, j + 1) =~= sofar.push(
                cs.deep_view()[j as int],
            ));
            lemma_join_snoc(sofar, cs.deep_view()[j as int]);
        }
        if j > from {
            r.push('/');
        }
        let mut piece = cs[j].clone();
        proof {
            assert(piece@ == cs@[j as int]@);
            assert(cs.deep_view()[j as int] == cs@[j as int]@);
        }
        r.append(&mut piece);
        j = j + 1;
    }
    r
}

} // verus!
