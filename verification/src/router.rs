use crate::method::method_index;
use crate::method::HttpMethod;
use crate::method::METHOD_COUNT;
use crate::text::push_char;
use crate::text::str_eq;
use crate::trie::Trie;
use vstd::prelude::*;
use vstd::string::StringSliceAdditionalSpecFns;

verus! {

broadcast use vstd::string::group_string_axioms;

// Path normalization.  A path must be rooted; its segments are processed
// in order: empty segments and `.` are dropped, `..` removes the last
// kept segment and rejects the path where none is left, and any other
// segment is kept.  The result is the root and the kept segments.

/// Where a character first occurs, or -1 where it does not.
pub open spec fn char_pos(s: Seq<char>, c: char) -> int
    decreases s.len(),
{
    if s.len() == 0 {
        -1
    } else if s[0] == c {
        0
    } else {
        let r = char_pos(s.skip(1), c);
        if r == -1 {
            -1
        } else {
            r + 1
        }
    }
}

/// What the first occurrence means.
pub proof fn lemma_char_pos(s: Seq<char>, c: char)
    ensures
        char_pos(s, c) == -1 || 0 <= char_pos(s, c) < s.len(),
        char_pos(s, c) == -1 ==> forall|j: int| 0 <= j < s.len() ==> (#[trigger] s[j]) != c,
        char_pos(s, c) >= 0 ==> s[char_pos(s, c)] == c,
        char_pos(s, c) >= 0 ==> forall|j: int| 0 <= j < char_pos(s, c) ==> (#[trigger] s[j]) != c,
    decreases s.len(),
{
    if s.len() > 0 && s[0] != c {
        lemma_char_pos(s.skip(1), c);
        let r = char_pos(s.skip(1), c);
        if r == -1 {
            assert forall|j: int| 0 <= j < s.len() implies (#[trigger] s[j]) != c by {
                if j > 0 {
                    assert(s.skip(1)[j - 1] == s[j]);
                }
            }
        } else {
            assert(s.skip(1)[r] == s[r + 1]);
            assert forall|j: int| 0 <= j < char_pos(s, c) implies (#[trigger] s[j]) != c by {
                if j > 0 {
                    assert(s.skip(1)[j - 1] == s[j]);
                }
            }
        }
    }
}

/// The segments of a path remainder, split at every separator.
pub open spec fn split_segs(s: Seq<char>) -> Seq<Seq<char>>
    decreases s.len(),
{
    let p = char_pos(s, '/');
    if p < 0 || p >= s.len() {
        seq![s]
    } else {
        seq![s.take(p)] + split_segs(s.skip(p + 1))
    }
}

/// Processes the segments in order against a stack of kept segments.
pub open spec fn reduce_segs(segs: Seq<Seq<char>>, stack: Seq<Seq<char>>) -> Option<Seq<Seq<char>>>
    decreases segs.len(),
{
    if segs.len() == 0 {
        Some(stack)
    } else {
        let h = segs[0];
        if h.len() == 0 || h == "."@ {
            reduce_segs(segs.skip(1), stack)
        } else if h == ".."@ {
            if stack.len() == 0 {
                None
            } else {
                reduce_segs(segs.skip(1), stack.drop_last())
            }
        } else {
            reduce_segs(segs.skip(1), stack.push(h))
        }
    }
}

/// The kept segments written back as a path: the root alone where none
/// was kept, else a separator before each segment.
pub open spec fn join_segs(stack: Seq<Seq<char>>) -> Seq<char>
    decreases stack.len(),
{
    if stack.len() == 0 {
        "/"@
    } else if stack.len() == 1 {
        seq!['/'] + stack[0]
    } else {
        join_segs(stack.drop_last()) + seq!['/'] + stack.last()
    }
}

/// The normalized form of a path, or nothing where the path is relative
/// or escapes the root.
pub open spec fn spec_normalize(s: Seq<char>) -> Option<Seq<char>> {
    if s.len() == 0 || s[0] != '/' {
        None
    } else {
        match reduce_segs(split_segs(s.skip(1)), Seq::empty()) {
            None => None,
            Some(stack) => Some(join_segs(stack)),
        }
    }
}

/// Rewrites a path into its normalized form: rooted, with no empty, `.`
/// or `..` segments and no trailing separator; a relative path and a path
/// that climbs above the root are rejected.
#[verifier::loop_isolation(false)]
pub fn normalize(path: &str) -> (r: Result<String, String>)
    ensures
        match r {
            Ok(p) => spec_normalize(path@) == Some(p@),
            Err(m) => spec_normalize(path@) is None && m@ == "invalid path"@,
        },
{
    let n = path.unicode_len();
    if n == 0 || path.get_char(0) != '/' {
        return Err(String::from_str("invalid path"));
    }
    let ghost whole = path@.skip(1);
    // Split the remainder into its segments.
    let mut segs: Vec<String> = Vec::new();
    let mut j: usize = 1;
    proof {
        assert(whole.skip(0) =~= whole);
        assert(split_segs(whole) =~= segs.deep_view() + split_segs(whole.skip(j - 1)));
    }
    loop
        invariant
            1 <= j <= n,
            n == path@.len(),
            whole == path@.skip(1),
            split_segs(whole) == segs.deep_view() + split_segs(whole.skip(j - 1)),
        decreases n - j,
    {
        let ghost rest = whole.skip(j - 1);
        let mut e = j;
        while e < n && path.get_char(e) != '/'
            invariant
                j <= e <= n,
                forall|t: int| j <= t < e ==> (#[trigger] path@[t]) != '/',
            decreases n - e,
        {
            e = e + 1;
        }
        let mut seg = String::new();
        let mut t = j;
        while t < e
            invariant
                j <= t <= e <= n,
                seg@ == path@.subrange(j as int, t as int),
            decreases e - t,
        {
            push_char(&mut seg, path.get_char(t));
            t = t + 1;
            proof {
                assert(path@.subrange(j as int, t as int) =~= path@.subrange(
                    j as int,
                    t - 1,
                ).push(path@[t - 1]));
            }
        }
        proof {
            lemma_char_pos(rest, '/');
            assert(forall|m: int| 0 <= m < e - j ==> (#[trigger] rest[m]) == path@[m + j]);
            assert(seg@ =~= rest.take(e - j));
            if e == n {
                assert(char_pos(rest, '/') == -1) by {
                    if char_pos(rest, '/') >= 0 {
                        assert(rest[char_pos(rest, '/')] == '/');
                        assert(path@[char_pos(rest, '/') + j] != '/');
                    }
                }
                assert(rest.take(rest.len() as int) =~= rest);
                assert(split_segs(rest) == seq![seg@]);
            } else {
                assert(rest[e - j] == path@[e as int]);
                assert(path@[e as int] == '/');
                assert(char_pos(rest, '/') == e - j) by {
                    let p = char_pos(rest, '/');
                    if 0 <= p < e - j {
                        assert(rest[p] == '/');
                        assert(path@[p + j] != '/');
                    }
                    if p == -1 || p > e - j {
                        assert(rest[e - j] == '/');
                    }
                }
                assert(split_segs(rest) == seq![seg@] + split_segs(rest.skip(e - j + 1)));
                assert(rest.skip(e - j + 1) =~= whole.skip(e + 1 - 1));
            }
        }
        let ghost old_view = segs.deep_view();
        segs.push(seg);
        proof {
            assert(segs.deep_view() =~= old_view.push(seg@));
        }
        if e == n {
            proof {
                assert(split_segs(whole) =~= segs.deep_view());
            }
            break ;
        }
        proof {
            assert(old_view + (seq![seg@] + split_segs(whole.skip(e + 1 - 1))) =~= segs.deep_view()
                + split_segs(whole.skip(e + 1 - 1)));
        }
        j = e + 1;
    }
    // Fold the segments into the stack of kept segments.
    let ghost sv = segs.deep_view();
    let mut stack: Vec<String> = Vec::new();
    let mut t: usize = 0;
    proof {
        assert(sv.skip(0) =~= sv);
        assert(stack.deep_view() =~= Seq::<Seq<char>>::empty());
    }
    while t < segs.len()
        invariant
            t <= segs@.len(),
            sv == segs.deep_view(),
            reduce_segs(split_segs(whole), Seq::empty()) == reduce_segs(
                sv.skip(t as int),
                stack.deep_view(),
            ),
        decreases segs@.len() - t,
    {
        proof {
            assert(sv.skip(t as int)[0] == sv[t as int]);
            assert(sv.skip(t as int).skip(1) =~= sv.skip(t + 1));
            assert(sv[t as int] == segs@[t as int]@);
        }
        let is_empty = segs[t].as_str().unicode_len() == 0;
        let is_dot = str_eq(segs[t].as_str(), ".");
        let is_dotdot = str_eq(segs[t].as_str(), "..");
        if is_empty || is_dot {
            // Dropped.
        } else if is_dotdot {
            if stack.len() == 0 {
                return Err(String::from_str("invalid path"));
            }
            let ghost old_stack = stack.deep_view();
            let _ = stack.pop();
            proof {
                assert(stack.deep_view() =~= old_stack.drop_last());
            }
        } else {
            let ghost old_stack = stack.deep_view();
            let kept = segs[t].clone();
            stack.push(kept);
            proof {
                assert(stack.deep_view() =~= old_stack.push(sv[t as int]));
            }
        }
        t = t + 1;
    }
    proof {
        assert(sv.skip(sv.len() as int) =~= Seq::<Seq<char>>::empty());
    }
    // Write the kept segments back as a path.
    let ghost keep = stack.deep_view();
    let m = stack.len();
    if m == 0 {
        let out = String::from_str("/");
        return Ok(out);
    }
    let mut out = String::new();
    let mut k: usize = 0;
    while k < m
        invariant
            1 <= m == stack@.len(),
            keep == stack.deep_view(),
            k <= m,
            k > 0 ==> out@ == join_segs(keep.take(k as int)),
            k == 0 ==> out@ == Seq::<char>::empty(),
        decreases m - k,
    {
        push_char(&mut out, '/');
        out.append(stack[k].as_str());
        k = k + 1;
        proof {
            assert(keep.take(k as int).drop_last() =~= keep.take(k - 1));
            assert(keep.take(k as int).last() == keep[k - 1]);
            assert(keep[k - 1] == stack@[k - 1]@);
            if k == 1 {
                assert(out@ =~= seq!['/'] + keep.take(1int)[0]);
                assert(keep.take(1int)[0] == keep[0]);
            } else {
                assert(out@ =~= join_segs(keep.take(k - 1)) + seq!['/'] + keep.take(
                    k as int,
                ).last());
            }
        }
    }
    proof {
        assert(keep.take(m as int) =~= keep);
    }
    Ok(out)
}


// The canonical form: what normalization promises of its output.

/// A segment that normalization keeps: non-empty, not a dot form, and
/// free of separators.
pub open spec fn good_seg(s: Seq<char>) -> bool {
    &&& s.len() >= 1
    &&& s != "."@
    &&& s != ".."@
    &&& forall|i: int| 0 <= i < s.len() ==> (#[trigger] s[i]) != '/'
}

/// Whether a segment is free of separators.
pub open spec fn seg_no_sep(s: Seq<char>) -> bool {
    forall|i: int| 0 <= i < s.len() ==> (#[trigger] s[i]) != '/'
}

/// Splitting yields segments free of separators.
pub proof fn lemma_split_no_sep(s: Seq<char>)
    ensures
        forall|i: int| 0 <= i < split_segs(s).len() ==> seg_no_sep(#[trigger] split_segs(s)[i]),
    decreases s.len(),
{
    lemma_char_pos(s, '/');
    let p = char_pos(s, '/');
    if p < 0 || p >= s.len() {
        assert forall|i: int| 0 <= i < split_segs(s).len() implies seg_no_sep(
            #[trigger] split_segs(s)[i],
        ) by {
            assert(split_segs(s)[i] == s);
            assert forall|j: int| 0 <= j < s.len() implies (#[trigger] s[j]) != '/' by {}
        }
    } else {
        lemma_split_no_sep(s.skip(p + 1));
        assert forall|i: int| 0 <= i < split_segs(s).len() implies seg_no_sep(
            #[trigger] split_segs(s)[i],
        ) by {
            if i == 0 {
                assert(split_segs(s)[0] == s.take(p));
                assert forall|j: int| 0 <= j < s.take(p).len() implies (#[trigger] s.take(p)[j])
                    != '/' by {
                    assert(s.take(p)[j] == s[j]);
                }
            } else {
                assert(split_segs(s)[i] == split_segs(s.skip(p + 1))[i - 1]);
            }
        }
    }
}

/// Folding segments that are all kept appends them to the stack.
pub proof fn lemma_reduce_appends(segs: Seq<Seq<char>>, stack: Seq<Seq<char>>)
    requires
        forall|i: int| 0 <= i < segs.len() ==> good_seg(#[trigger] segs[i]),
    ensures
        reduce_segs(segs, stack) == Some(stack + segs),
    decreases segs.len(),
{
    if segs.len() == 0 {
        assert(stack + segs =~= stack);
    } else {
        assert(good_seg(segs[0]));
        assert forall|i: int| 0 <= i < segs.skip(1).len() implies good_seg(
            #[trigger] segs.skip(1)[i],
        ) by {
            assert(segs.skip(1)[i] == segs[i + 1]);
        }
        lemma_reduce_appends(segs.skip(1), stack.push(segs[0]));
        assert(stack.push(segs[0]) + segs.skip(1) =~= stack + segs);
    }
}

/// Folding segments free of separators keeps the stack free of dot forms
/// and separators.
pub proof fn lemma_reduce_good(segs: Seq<Seq<char>>, stack: Seq<Seq<char>>)
    requires
        forall|i: int| 0 <= i < stack.len() ==> good_seg(#[trigger] stack[i]),
        forall|i: int| 0 <= i < segs.len() ==> seg_no_sep(#[trigger] segs[i]),
    ensures
        reduce_segs(segs, stack) matches Some(st) ==> forall|i: int|
            0 <= i < st.len() ==> good_seg(#[trigger] st[i]),
    decreases segs.len(),
{
    if segs.len() > 0 {
        let h = segs[0];
        assert forall|i: int| 0 <= i < segs.skip(1).len() implies seg_no_sep(
            #[trigger] segs.skip(1)[i],
        ) by {
            assert(segs.skip(1)[i] == segs[i + 1]);
        }
        if h.len() == 0 || h == "."@ {
            lemma_reduce_good(segs.skip(1), stack);
        } else if h == ".."@ {
            if stack.len() > 0 {
                assert forall|i: int| 0 <= i < stack.drop_last().len() implies good_seg(
                    #[trigger] stack.drop_last()[i],
                ) by {
                    assert(stack.drop_last()[i] == stack[i]);
                }
                lemma_reduce_good(segs.skip(1), stack.drop_last());
            }
        } else {
            assert(seg_no_sep(h));
            assert(good_seg(h));
            assert forall|i: int| 0 <= i < stack.push(h).len() implies good_seg(
                #[trigger] stack.push(h)[i],
            ) by {
                if i < stack.len() {
                    assert(stack.push(h)[i] == stack[i]);
                } else {
                    assert(stack.push(h)[i] == h);
                }
            }
            lemma_reduce_good(segs.skip(1), stack.push(h));
        }
    }
}

/// Appending a separator and one clean segment adds one segment to the
/// split.
pub proof fn lemma_split_append(x: Seq<char>, y: Seq<char>)
    requires
        seg_no_sep(y),
    ensures
        split_segs(x + seq!['/'] + y) == split_segs(x).push(y),
    decreases x.len(),
{
    let w = x + seq!['/'] + y;
    lemma_char_pos(x, '/');
    lemma_char_pos(w, '/');
    let p = char_pos(x, '/');
    if p < 0 || p >= x.len() {
        assert(w[x.len() as int] == '/');
        assert(char_pos(w, '/') == x.len() as int) by {
            let q = char_pos(w, '/');
            if 0 <= q < x.len() {
                assert(w[q] == '/');
                assert(w[q] == x[q]);
            }
            if q == -1 || q > x.len() {
                assert(w[x.len() as int] == '/');
            }
        }
        assert(w.take(x.len() as int) =~= x);
        assert(w.skip(x.len() as int + 1) =~= y);
        assert(char_pos(y, '/') == -1) by {
            lemma_char_pos(y, '/');
            if char_pos(y, '/') >= 0 {
                assert(y[char_pos(y, '/')] == '/');
            }
        }
        assert(split_segs(w) == seq![w.take(x.len() as int)] + split_segs(
            w.skip(x.len() as int + 1),
        ));
        assert(split_segs(y) == seq![y]);
        assert(split_segs(w) == seq![x] + seq![y]);
        assert(seq![x] + seq![y] =~= seq![x].push(y));
        assert(split_segs(x) == seq![x]);
    } else {
        assert(w[p] == x[p]);
        assert(char_pos(w, '/') == p) by {
            let q = char_pos(w, '/');
            if 0 <= q < p {
                assert(w[q] == '/');
                assert(w[q] == x[q]);
            }
            if q == -1 || q > p {
                assert(w[p] == '/');
            }
        }
        assert(w.take(p) =~= x.take(p));
        assert(w.skip(p + 1) =~= x.skip(p + 1) + seq!['/'] + y);
        lemma_split_append(x.skip(p + 1), y);
        assert(split_segs(w) == seq![x.take(p)] + split_segs(x.skip(p + 1)).push(y));
        assert(seq![x.take(p)] + split_segs(x.skip(p + 1)).push(y) =~= (seq![x.take(p)]
            + split_segs(x.skip(p + 1))).push(y));
    }
}

/// What the written-back path looks like: rooted, with no trailing
/// separator, splitting back into exactly the kept segments.
pub proof fn lemma_join_props(st: Seq<Seq<char>>)
    requires
        st.len() >= 1,
        forall|i: int| 0 <= i < st.len() ==> good_seg(#[trigger] st[i]),
    ensures
        join_segs(st).len() >= 2,
        join_segs(st)[0] == '/',
        join_segs(st).last() != '/',
        split_segs(join_segs(st).skip(1)) == st,
    decreases st.len(),
{
    if st.len() == 1 {
        let q = join_segs(st);
        assert(good_seg(st[0]));
        assert(q =~= seq!['/'] + st[0]);
        assert(q.last() == st[0].last());
        assert(q.skip(1) =~= st[0]);
        assert(char_pos(st[0], '/') == -1) by {
            lemma_char_pos(st[0], '/');
            if char_pos(st[0], '/') >= 0 {
                assert(st[0][char_pos(st[0], '/')] == '/');
            }
        }
        assert(split_segs(q.skip(1)) =~= seq![st[0]]);
        assert(seq![st[0]] =~= st);
    } else {
        let d = st.drop_last();
        assert forall|i: int| 0 <= i < d.len() implies good_seg(#[trigger] d[i]) by {
            assert(d[i] == st[i]);
        }
        lemma_join_props(d);
        let q = join_segs(st);
        let qd = join_segs(d);
        assert(q == qd + seq!['/'] + st.last());
        assert(q[0] == qd[0]);
        assert(good_seg(st.last()));
        assert(q.last() == st.last().last());
        assert(q.skip(1) =~= qd.skip(1) + seq!['/'] + st.last());
        lemma_split_append(qd.skip(1), st.last());
        assert(split_segs(q.skip(1)) == st.drop_last().push(st.last()));
        assert(st.drop_last().push(st.last()) =~= st);
    }
}

/// The law of normalization: its result is idempotent, rooted, has no
/// trailing separator except as the bare root, and contains no empty or
/// dot segments.
pub proof fn lemma_normalize_idempotent(p: Seq<char>)
    requires
        spec_normalize(p) is Some,
    ensures
        spec_normalize(p) matches Some(q) ==> {
            &&& spec_normalize(q) == Some(q)
            &&& q.len() >= 1 && q[0] == '/'
            &&& q.len() > 1 ==> q.last() != '/'
            &&& q.len() > 1 ==> forall|i: int|
                0 <= i < split_segs(q.skip(1)).len() ==> good_seg(#[trigger] split_segs(q.skip(1))[i])
        },
{
    reveal_strlit("/");
    let segs = split_segs(p.skip(1));
    let st = match reduce_segs(segs, Seq::empty()) {
        Some(st) => st,
        None => Seq::empty(),
    };
    lemma_split_no_sep(p.skip(1));
    lemma_reduce_good(segs, Seq::empty());
    let q = join_segs(st);
    if st.len() == 0 {
        assert(q == "/"@);
        assert(("/"@).len() == 1 && ("/"@)[0] == '/');
        assert(q.skip(1) =~= Seq::<char>::empty());
        assert(char_pos(Seq::<char>::empty(), '/') == -1);
        assert(split_segs(q.skip(1)) =~= seq![Seq::<char>::empty()]);
        assert(reduce_segs(seq![Seq::<char>::empty()], Seq::empty()) == reduce_segs(
            seq![Seq::<char>::empty()].skip(1),
            Seq::<Seq<char>>::empty(),
        ));
        assert(seq![Seq::<char>::empty()].skip(1) =~= Seq::<Seq<char>>::empty());
        assert(spec_normalize(q) == Some(join_segs(Seq::<Seq<char>>::empty())));
    } else {
        lemma_join_props(st);
        lemma_reduce_appends(st, Seq::empty());
        assert(Seq::<Seq<char>>::empty() + st =~= st);
        assert(spec_normalize(q) == Some(join_segs(st)));
    }
}

// The router: a trie over the octets of normalized paths, each node
// carrying one optional handler per method.

/// The handlers installed at one route, one slot per method.
#[derive(Debug)]
pub struct MethodHandlers<T> {
    actions: Vec<Option<T>>,
}

impl<T> MethodHandlers<T> {
    /// Well-formed: one slot per method.
    pub closed spec fn wf(&self) -> bool {
        self.actions@.len() == METHOD_COUNT
    }

    /// The handler installed for a method, if any.
    pub closed spec fn spec_action(&self, m: HttpMethod) -> Option<T> {
        self.actions@[method_index(m)]
    }

    /// A route with no handlers.
    pub fn new() -> (r: Self)
        ensures
            r.wf(),
            forall|m: HttpMethod| (#[trigger] r.spec_action(m)) is None,
    {
        let mut actions: Vec<Option<T>> = Vec::new();
        let mut i: usize = 0;
        while i < METHOD_COUNT
            invariant
                i <= METHOD_COUNT,
                actions@.len() == i,
                forall|j: int| 0 <= j < i ==> (#[trigger] actions@[j]) is None,
            decreases METHOD_COUNT - i,
        {
            actions.push(None);
            i = i + 1;
        }
        MethodHandlers { actions }
    }

    /// The handler installed for a method, by reference.
    pub fn get_action(&self, method: HttpMethod) -> (r: Option<&T>)
        requires
            self.wf(),
        ensures
            r is Some <==> self.spec_action(method) is Some,
            r matches Some(v) ==> self.spec_action(method) == Some(*v),
    {
        let idx = method.index();
        self.actions[idx].as_ref()
    }

    /// Installs a handler for a method, replacing any previous one.
    pub fn set_action(&mut self, method: HttpMethod, action: T)
        requires
            old(self).wf(),
        ensures
            final(self).wf(),
            forall|m: HttpMethod|
                #[trigger] final(self).spec_action(m) == if m == method {
                    Some(action)
                } else {
                    old(self).spec_action(m)
                },
    {
        let idx = method.index();
        self.actions.set(idx, Some(action));
        proof {
            assert forall|m: HttpMethod| #[trigger]
                final(self).spec_action(m) == if m == method {
                    Some(action)
                } else {
                    old(self).spec_action(m)
                } by {
                crate::method::lemma_method_roundtrip(m);
                crate::method::lemma_method_roundtrip(method);
            }
        }
    }
}

/// Routes requests: maps a path and a method to the handler of the
/// deepest route that is an ancestor of the path and serves the method.
#[derive(Debug)]
pub struct Router<T> {
    routes: Trie<MethodHandlers<T>>,
}

impl<T> Router<T> {
    /// Well-formed: the trie is, and so is every handler table in it.
    pub closed spec fn wf(&self) -> bool {
        &&& self.routes.wf()
        &&& forall|k: Seq<u8>|
            (#[trigger] self.routes.value_at(k)) matches Some(mh) ==> mh.wf()
    }

    /// The handler installed at exactly this path for this method.
    pub closed spec fn route_action(&self, path: Seq<u8>, m: HttpMethod) -> Option<T> {
        match self.routes.value_at(path) {
            Some(mh) => mh.spec_action(m),
            None => None,
        }
    }

    /// An empty router.
    pub fn new() -> (r: Router<T>)
        ensures
            r.wf(),
            forall|k: Seq<u8>, m: HttpMethod| (#[trigger] r.route_action(k, m)) is None,
    {
        Router { routes: Trie::new() }
    }

    /// Adds a route: requests for this path, or for any descendant with
    /// no deeper route for the method, are served by this handler.
    pub fn add(&mut self, route: &str, method: HttpMethod, action: T)
        requires
            old(self).wf(),
            route.spec_bytes().len() >= 1,
        ensures
            final(self).wf(),
            forall|k: Seq<u8>, m: HttpMethod|
                #[trigger] final(self).route_action(k, m) == if k == route.spec_bytes() && m
                    == method {
                    Some(action)
                } else {
                    old(self).route_action(k, m)
                },
    {
        let bytes = route.as_bytes();
        let mut handlers = match self.routes.move_value_out(bytes) {
            None => MethodHandlers::new(),
            Some(h) => h,
        };
        handlers.set_action(method, action);
        self.routes.add_value(bytes, handlers);
    }

    /// The handler installed at exactly this path for this method.
    pub fn get(&self, route: &str, method: HttpMethod) -> (r: Option<&T>)
        requires
            self.wf(),
        ensures
            r is Some <==> self.route_action(route.spec_bytes(), method) is Some,
            r matches Some(v) ==> self.route_action(route.spec_bytes(), method) == Some(*v),
    {
        let bytes = route.as_bytes();
        let handlers = match self.routes.get_value(bytes) {
            None => {
                return None;
            },
            Some(h) => h,
        };
        handlers.get_action(method)
    }

    /// The handler at the deepest route that is a non-empty ancestor of
    /// the path and has one installed for the method, or nothing where no
    /// ancestor has.
    #[verifier::loop_isolation(false)]
    pub fn get_prefix(&self, route: &str, method: HttpMethod) -> (r: Option<&T>)
        requires
            self.wf(),
        ensures
            r is Some <==> exists|l: int|
                1 <= l <= route.spec_bytes().len() && (#[trigger] self.route_action(
                    route.spec_bytes().take(l),
                    method,
                )) is Some,
            r matches Some(v) ==> exists|l: int|
                1 <= l <= route.spec_bytes().len() && (#[trigger] self.route_action(
                    route.spec_bytes().take(l),
                    method,
                )) == Some(*v) && forall|m2: int|
                    l < m2 <= route.spec_bytes().len() ==> self.route_action(
                        #[trigger] route.spec_bytes().take(m2),
                        method,
                    ) is None,
    {
        let bytes = route.as_bytes();
        let ghost key = route.spec_bytes();
        let n = bytes.len();
        let mut l: usize = n;
        while l >= 1
            invariant
                l <= n,
                n == key.len(),
                forall|m2: int|
                    l < m2 <= key.len() ==> self.route_action(
                        #[trigger] key.take(m2),
                        method,
                    ) is None,
            decreases l,
        {
            proof {
                assert(bytes@.subrange(0, l as int) == key.take(l as int));
            }
            match self.routes.get_value(&bytes[0..l]) {
                None => {
                    proof {
                        assert(self.route_action(key.take(l as int), method) is None);
                    }
                },
                Some(handlers) => {
                    match handlers.get_action(method) {
                        Some(v) => {
                            return Some(v);
                        },
                        None => {
                            proof {
                                assert(self.route_action(key.take(l as int), method) is None);
                            }
                        },
                    }
                },
            }
            l = l - 1;
        }
        None
    }
}

} // verus!
