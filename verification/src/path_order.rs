//! Paths compared as the standard library compares them: split into
//! components, with repeated separators, a trailing separator and `.` inside
//! the path left out.

use vstd::prelude::*;

verus! {

/// The segments of the first `n` characters of `p` that a `/` has closed,
/// and the segment still open.
pub open spec fn split_upto(p: Seq<char>, n: int) -> (Seq<Seq<char>>, Seq<char>)
    decreases n,
{
    if n <= 0 {
        (Seq::empty(), Seq::empty())
    } else {
        let (segs, cur) = split_upto(p, n - 1);
        if p[n - 1] == '/' {
            (segs.push(cur), Seq::empty())
        } else {
            (segs, cur.push(p[n - 1]))
        }
    }
}

/// The text of `p` between its separators, empty segments included.
pub open spec fn segments(p: Seq<char>) -> Seq<Seq<char>> {
    split_upto(p, p.len() as int).0.push(split_upto(p, p.len() as int).1)
}

/// The component a segment gives, as a kind and a text: none for an empty
/// segment or `.`; the parent directory (kind 2) for `..`; else a name
/// (kind 3) with its text.
pub open spec fn segment_component(s: Seq<char>) -> Option<(u8, Seq<char>)> {
    if s.len() == 0 || s == seq!['.'] {
        None
    } else if s == seq!['.', '.'] {
        Some((2u8, Seq::empty()))
    } else {
        Some((3u8, s))
    }
}

/// The components that the segments `segs` give, in order.
pub open spec fn segment_components(segs: Seq<Seq<char>>) -> Seq<(u8, Seq<char>)>
    decreases segs.len(),
{
    if segs.len() == 0 {
        Seq::empty()
    } else {
        let rest = segment_components(segs.drop_last());
        match segment_component(segs.last()) {
            Some(c) => rest.push(c),
            None => rest,
        }
    }
}

/// The components of the path `p`, each a kind and a text: the root (kind
/// 0) when `p` starts with `/`; the current directory (kind 1) when a
/// relative path starts with the segment `.`; then the components of its
/// segments.
#[verifier::opaque]
pub open spec fn path_components(p: Seq<char>) -> Seq<(u8, Seq<char>)> {
    let lead: Seq<(u8, Seq<char>)> = if p.len() > 0 && p[0] == '/' {
        seq![(0u8, Seq::<char>::empty())]
    } else if segments(p)[0] == seq!['.'] {
        seq![(1u8, Seq::<char>::empty())]
    } else {
        Seq::empty()
    };
    lead + segment_components(segments(p))
}

/// Two texts name the same path: they have the same components.
pub open spec fn same_path(a: Seq<char>, b: Seq<char>) -> bool {
    path_components(a) == path_components(b)
}

/// `a` comes strictly before `b` by the codes of their characters, a
/// proper prefix first.
pub open spec fn text_before(a: Seq<char>, b: Seq<char>) -> bool
    decreases a.len(),
{
    if a.len() == 0 {
        b.len() > 0
    } else if b.len() == 0 {
        false
    } else if a[0] != b[0] {
        (a[0] as int) < (b[0] as int)
    } else {
        text_before(a.drop_first(), b.drop_first())
    }
}

/// A component comes before another of a later kind, or of the same kind
/// with a text that comes before.
pub open spec fn component_before(a: (u8, Seq<char>), b: (u8, Seq<char>)) -> bool {
    a.0 < b.0 || (a.0 == b.0 && text_before(a.1, b.1))
}

/// `a` comes strictly before `b` component by component, a proper prefix
/// first.
pub open spec fn components_before(a: Seq<(u8, Seq<char>)>, b: Seq<(u8, Seq<char>)>) -> bool
    decreases a.len(),
{
    if a.len() == 0 {
        b.len() > 0
    } else if b.len() == 0 {
        false
    } else if a[0] != b[0] {
        component_before(a[0], b[0])
    } else {
        components_before(a.drop_first(), b.drop_first())
    }
}

/// The path `a` comes strictly before the path `b`, as paths are ordered:
/// by their components.
pub open spec fn path_before(a: Seq<char>, b: Seq<char>) -> bool {
    components_before(path_components(a), path_components(b))
}

/// Two sequences that agree on their first item and on the rest are equal.
proof fn lemma_seq_head_tail<A>(a: Seq<A>, b: Seq<A>)
    requires
        a.len() > 0,
        b.len() > 0,
        a[0] == b[0],
        a.drop_first() == b.drop_first(),
    ensures
        a == b,
{
    assert(a.len() == a.drop_first().len() + 1);
    assert(b.len() == b.drop_first().len() + 1);
    assert forall|i: int| 0 <= i < a.len() implies a[i] == b[i] by {
        if i > 0 {
            assert(a[i] == a.drop_first()[i - 1]);
            assert(b[i] == b.drop_first()[i - 1]);
        }
    }
    assert(a =~= b);
}

/// No text comes before itself.
pub proof fn lemma_text_before_irreflexive(a: Seq<char>)
    ensures
        !text_before(a, a),
    decreases a.len(),
{
    if a.len() > 0 {
        lemma_text_before_irreflexive(a.drop_first());
    }
}

/// The order of texts is transitive.
pub proof fn lemma_text_before_transitive(a: Seq<char>, b: Seq<char>, c: Seq<char>)
    requires
        text_before(a, b),
        text_before(b, c),
    ensures
        text_before(a, c),
    decreases a.len(),
{
    if a.len() > 0 && a[0] == b[0] && b[0] == c[0] {
        lemma_text_before_transitive(a.drop_first(), b.drop_first(), c.drop_first());
    }
}

/// Of two different texts, one comes before the other.
pub proof fn lemma_text_before_total(a: Seq<char>, b: Seq<char>)
    requires
        a != b,
    ensures
        text_before(a, b) || text_before(b, a),
    decreases a.len(),
{
    if a.len() > 0 && b.len() > 0 {
        if a[0] == b[0] {
            if a.drop_first() == b.drop_first() {
                lemma_seq_head_tail(a, b);
            }
            lemma_text_before_total(a.drop_first(), b.drop_first());
        } else {
            let (x, y) = (a[0], b[0]);
            assert(x as int != y as int);
        }
    } else if a.len() == 0 && b.len() == 0 {
        assert(a =~= b);
    }
}

/// The order of components is a strict total order.
pub proof fn lemma_component_before_order(a: (u8, Seq<char>), b: (u8, Seq<char>), c: (u8, Seq<char>))
    ensures
        !component_before(a, a),
        component_before(a, b) && component_before(b, c) ==> component_before(a, c),
        a != b ==> component_before(a, b) || component_before(b, a),
{
    lemma_text_before_irreflexive(a.1);
    if component_before(a, b) && component_before(b, c) && a.0 == b.0 && b.0 == c.0 {
        lemma_text_before_transitive(a.1, b.1, c.1);
    }
    if a != b && a.0 == b.0 {
        lemma_text_before_total(a.1, b.1);
    }
}

/// No sequence of components comes before itself.
pub proof fn lemma_components_before_irreflexive(a: Seq<(u8, Seq<char>)>)
    ensures
        !components_before(a, a),
    decreases a.len(),
{
    if a.len() > 0 {
        lemma_components_before_irreflexive(a.drop_first());
    }
}

/// The order of sequences of components is transitive.
pub proof fn lemma_components_before_transitive(
    a: Seq<(u8, Seq<char>)>,
    b: Seq<(u8, Seq<char>)>,
    c: Seq<(u8, Seq<char>)>,
)
    requires
        components_before(a, b),
        components_before(b, c),
    ensures
        components_before(a, c),
    decreases a.len(),
{
    if a.len() > 0 && b.len() > 0 && c.len() > 0 {
        lemma_component_before_order(a[0], b[0], c[0]);
        if a[0] == b[0] && b[0] == c[0] {
            lemma_components_before_transitive(a.drop_first(), b.drop_first(), c.drop_first());
        }
    }
}

/// Of two different sequences of components, one comes before the other.
pub proof fn lemma_components_before_total(a: Seq<(u8, Seq<char>)>, b: Seq<(u8, Seq<char>)>)
    requires
        a != b,
    ensures
        components_before(a, b) || components_before(b, a),
    decreases a.len(),
{
    if a.len() > 0 && b.len() > 0 {
        lemma_component_before_order(a[0], b[0], b[0]);
        if a[0] == b[0] {
            if a.drop_first() == b.drop_first() {
                lemma_seq_head_tail(a, b);
            }
            lemma_components_before_total(a.drop_first(), b.drop_first());
        }
    } else if a.len() == 0 && b.len() == 0 {
        assert(a =~= b);
    }
}

/// No path comes before itself, the order of paths is transitive, and of
/// two paths with different components one comes before the other.
pub proof fn lemma_path_before_order(a: Seq<char>, b: Seq<char>, c: Seq<char>)
    ensures
        !path_before(a, a),
        path_before(a, b) && path_before(b, c) ==> path_before(a, c),
        !same_path(a, b) ==> path_before(a, b) || path_before(b, a),
{
    lemma_components_before_irreflexive(path_components(a));
    if path_before(a, b) && path_before(b, c) {
        lemma_components_before_transitive(path_components(a), path_components(b), path_components(c));
    }
    if !same_path(a, b) {
        lemma_components_before_total(path_components(a), path_components(b));
    }
}

/// The abstract value of components held as kinds and strings.
pub open spec fn components_view(v: Seq<(u8, String)>) -> Seq<(u8, Seq<char>)> {
    v.map_values(|c: (u8, String)| (c.0, c.1@))
}

/// The component that the segment `s` gives.
fn component_of_segment(s: &str) -> (r: Option<(u8, String)>)
    ensures
        match r {
            Some(c) => segment_component(s@) == Some((c.0, c.1@)),
            None => segment_component(s@) is None,
        },
{
    let n = s.unicode_len();
    if n == 0 {
        return None;
    }
    if n == 1 && s.get_char(0) == '.' {
        assert(s@ =~= seq!['.']);
        return None;
    }
    if n == 2 && s.get_char(0) == '.' && s.get_char(1) == '.' {
        assert(s@ =~= seq!['.', '.']);
        return Some((2, String::new()));
    }
    proof {
        if s@ == seq!['.'] {
            assert(s@[0] == '.');
        }
        if s@ == seq!['.', '.'] {
            assert(s@[0] == '.' && s@[1] == '.');
        }
    }
    Some((3, String::from_str(s)))
}

/// The components of the path `p`.
pub fn path_components_of(p: &String) -> (c: Vec<(u8, String)>)
    ensures
        components_view(c@) == path_components(p@),
{
    let s = p.as_str();
    let n = s.unicode_len();
    let mut body: Vec<(u8, String)> = Vec::new();
    let ghost mut segs: Seq<Seq<char>> = Seq::empty();
    let mut start: usize = 0;
    let mut i: usize = 0;
    let mut first_is_dot = false;
    let mut seen_sep = false;
    while i < n
        invariant
            n == p@.len(),
            s@ == p@,
            start <= i <= n,
            split_upto(p@, i as int) == (segs, p@.subrange(start as int, i as int)),
            components_view(body@) == segment_components(segs),
            segs.len() > 0 ==> first_is_dot == (segs[0] == seq!['.']),
            seen_sep == (segs.len() > 0),
            !seen_sep ==> start == 0,
        decreases n - i,
    {
        let c = s.get_char(i);
        if c == '/' {
            let seg = s.substring_char(start, i);
            let ghost before = body@;
            if let Some(comp) = component_of_segment(seg) {
                body.push(comp);
                proof {
                    assert(components_view(body@) =~= components_view(before).push((comp.0, comp.1@)));
                }
            }
            proof {
                assert(segs.push(seg@).drop_last() =~= segs);
                if segs.len() == 0 {
                    assert(segs.push(seg@)[0] == seg@);
                } else {
                    assert(segs.push(seg@)[0] == segs[0]);
                }
            }
            if !seen_sep {
                first_is_dot = seg.unicode_len() == 1 && seg.get_char(0) == '.';
                proof {
                    if seg@ == seq!['.'] {
                        assert(seg@[0] == '.');
                    }
                    if first_is_dot {
                        assert(seg@ =~= seq!['.']);
                    }
                }
            }
            proof {
                segs = segs.push(seg@);
                assert(p@.subrange(i + 1, i + 1) =~= Seq::<char>::empty());
            }
            start = i + 1;
            seen_sep = true;
        } else {
            proof {
                assert(p@.subrange(start as int, i + 1) =~= p@.subrange(start as int, i as int).push(c));
            }
        }
        i += 1;
    }
    let last = s.substring_char(start, n);
    let ghost before = body@;
    if let Some(comp) = component_of_segment(last) {
        body.push(comp);
        proof {
            assert(components_view(body@) =~= components_view(before).push((comp.0, comp.1@)));
        }
    }
    let ghost all = segs.push(last@);
    proof {
        assert(all.drop_last() =~= segs);
        assert(all == segments(p@));
        assert(components_view(body@) == segment_components(all));
    }
    let lead_dot = if !seen_sep {
        let d = n == 1 && s.get_char(0) == '.';
        proof {
            assert(last@ == p@.subrange(0, n as int));
            assert(last@.len() == n);
            assert(all[0] == last@);
            if last@ == seq!['.'] {
                assert(last@[0] == '.');
            }
            if d {
                assert(last@ =~= seq!['.']);
            }
        }
        d
    } else {
        proof {
            assert(all[0] == segs[0]);
        }
        first_is_dot
    };
    let rooted = n > 0 && s.get_char(0) == '/';
    let ghost lead: Seq<(u8, Seq<char>)> = if rooted {
        seq![(0u8, Seq::<char>::empty())]
    } else if lead_dot {
        seq![(1u8, Seq::<char>::empty())]
    } else {
        Seq::empty()
    };
    let ghost body_view = components_view(body@);
    if rooted {
        body.insert(0, (0, String::new()));
    } else if lead_dot {
        body.insert(0, (1, String::new()));
    }
    proof {
        reveal(path_components);
        assert(components_view(body@) =~= lead + body_view);
    }
    body
}

/// Whether the text `a` comes strictly before the text `b`.
fn text_lt(a: &String, b: &String) -> (r: bool)
    ensures
        r == text_before(a@, b@),
{
    let sa = a.as_str();
    let sb = b.as_str();
    let la = sa.unicode_len();
    let lb = sb.unicode_len();
    let mut i: usize = 0;
    proof {
        assert(a@.skip(0) =~= a@);
        assert(b@.skip(0) =~= b@);
    }
    while i < la && i < lb
        invariant
            i <= la,
            i <= lb,
            la == a@.len(),
            lb == b@.len(),
            sa@ == a@,
            sb@ == b@,
            text_before(a@, b@) == text_before(a@.skip(i as int), b@.skip(i as int)),
        decreases la - i,
    {
        let ca = sa.get_char(i);
        let cb = sb.get_char(i);
        if ca != cb {
            proof {
                assert(a@.skip(i as int)[0] == ca);
                assert(b@.skip(i as int)[0] == cb);
            }
            return ca < cb;
        }
        proof {
            assert(a@.skip(i as int).drop_first() =~= a@.skip(i + 1));
            assert(b@.skip(i as int).drop_first() =~= b@.skip(i + 1));
        }
        i += 1;
    }
    i == la && i < lb
}

/// Whether the components `a` and `b` are the same.
fn components_eq(a: &Vec<(u8, String)>, b: &Vec<(u8, String)>) -> (r: bool)
    ensures
        r == (components_view(a@) == components_view(b@)),
{
    if a.len() != b.len() {
        proof {
            assert(components_view(a@).len() != components_view(b@).len());
        }
        return false;
    }
    let mut i: usize = 0;
    while i < a.len()
        invariant
            i <= a@.len(),
            a@.len() == b@.len(),
            forall|j: int| 0 <= j < i ==> components_view(a@)[j] == components_view(b@)[j],
        decreases a@.len() - i,
    {
        if a[i].0 != b[i].0 || a[i].1 != b[i].1 {
            proof {
                assert(components_view(a@)[i as int] != components_view(b@)[i as int]);
            }
            return false;
        }
        i += 1;
    }
    assert(components_view(a@) =~= components_view(b@));
    true
}

/// Whether the components `a` come strictly before the components `b`.
fn components_lt(a: &Vec<(u8, String)>, b: &Vec<(u8, String)>) -> (r: bool)
    ensures
        r == components_before(components_view(a@), components_view(b@)),
{
    let ghost va = components_view(a@);
    let ghost vb = components_view(b@);
    let mut i: usize = 0;
    proof {
        assert(va.skip(0) =~= va);
        assert(vb.skip(0) =~= vb);
    }
    while i < a.len() && i < b.len()
        invariant
            i <= a@.len(),
            i <= b@.len(),
            va == components_view(a@),
            vb == components_view(b@),
            components_before(va, vb) == components_before(va.skip(i as int), vb.skip(i as int)),
        decreases a@.len() - i,
    {
        proof {
            assert(va.skip(i as int)[0] == va[i as int]);
            assert(vb.skip(i as int)[0] == vb[i as int]);
        }
        if a[i].0 != b[i].0 {
            return a[i].0 < b[i].0;
        }
        if a[i].1 != b[i].1 {
            return text_lt(&a[i].1, &b[i].1);
        }
        proof {
            assert(va.skip(i as int).drop_first() =~= va.skip(i + 1));
            assert(vb.skip(i as int).drop_first() =~= vb.skip(i + 1));
        }
        i += 1;
    }
    i == a.len() && i < b.len()
}

/// Whether the path `a` comes strictly before the path `b`.
pub fn path_lt(a: &String, b: &String) -> (r: bool)
    ensures
        r == path_before(a@, b@),
{
    let ca = path_components_of(a);
    let cb = path_components_of(b);
    components_lt(&ca, &cb)
}

/// Whether the texts `a` and `b` name the same path.
pub fn is_same_path(a: &String, b: &String) -> (r: bool)
    ensures
        r == same_path(a@, b@),
{
    let ca = path_components_of(a);
    let cb = path_components_of(b);
    components_eq(&ca, &cb)
}

/// Each path comes strictly before every later one: the paths are sorted
/// and no two name the same path.
pub open spec fn paths_sorted(s: Seq<Seq<char>>) -> bool {
    forall|i: int, j: int| 0 <= i < j < s.len() ==> path_before(#[trigger] s[i], #[trigger] s[j])
}

/// Put `p` into the sorted paths `v`, whose components are `keys`, unless a
/// path with the same components is there already.
pub fn insert_path(v: &mut Vec<String>, keys: &mut Vec<Vec<(u8, String)>>, p: &String)
    requires
        paths_sorted(crate::views(old(v)@)),
        old(keys)@.len() == old(v)@.len(),
        forall|i: int| 0 <= i < old(v)@.len() ==> components_view(#[trigger] old(keys)@[i]@) == path_components(old(v)@[i]@),
    ensures
        paths_sorted(crate::views(final(v)@)),
        final(keys)@.len() == final(v)@.len(),
        forall|i: int| 0 <= i < final(v)@.len() ==> components_view(#[trigger] final(keys)@[i]@) == path_components(final(v)@[i]@),
        forall|q: Seq<char>| #[trigger]
            crate::views(final(v)@).contains(q) ==> (crate::views(old(v)@).contains(q) || q == p@),
        forall|q: Seq<char>| #[trigger]
            crate::views(old(v)@).contains(q) ==> crate::views(final(v)@).contains(q),
        exists|i: int| 0 <= i < final(v)@.len() && same_path(#[trigger] final(v)@[i]@, p@),
{
    let ghost vo = crate::views(v@);
    let ghost ko = keys@;
    let pc = path_components_of(p);
    let mut k: usize = 0;
    while k < keys.len() && components_lt(&keys[k], &pc)
        invariant
            k <= v@.len(),
            keys@.len() == v@.len(),
            vo == crate::views(v@),
            ko == keys@,
            components_view(pc@) == path_components(p@),
            forall|i: int| 0 <= i < v@.len() ==> components_view(#[trigger] keys@[i]@) == path_components(v@[i]@),
            forall|j: int| 0 <= j < k ==> path_before(#[trigger] vo[j], p@),
        decreases v@.len() - k,
    {
        proof {
            assert(vo[k as int] == v@[k as int]@);
        }
        k += 1;
    }
    if k < keys.len() && components_eq(&keys[k], &pc) {
        proof {
            assert(vo[k as int] == v@[k as int]@);
            assert(same_path(v@[k as int]@, p@));
        }
        return;
    }
    proof {
        if k < vo.len() {
            assert(vo[k as int] == v@[k as int]@);
            assert(!same_path(vo[k as int], p@));
            assert(!path_before(vo[k as int], p@));
            lemma_path_before_order(vo[k as int], p@, p@);
        }
    }
    v.insert(k, p.clone());
    keys.insert(k, pc);
    proof {
        let vn = crate::views(v@);
        assert(vn =~= vo.insert(k as int, p@));
        assert forall|i: int| 0 <= i < v@.len() implies components_view(#[trigger] keys@[i]@) == path_components(v@[i]@) by {
            if i < k {
                assert(keys@[i] == ko[i] && v@[i]@ == vo[i]);
            } else if i > k {
                assert(keys@[i] == ko[i - 1] && v@[i]@ == vo[i - 1]);
                assert(vo[i - 1] == old(v)@[i - 1]@);
            } else {
                assert(v@[i]@ == p@);
            }
        }
        assert forall|i: int, j: int| 0 <= i < j < vn.len() implies path_before(
            #[trigger] vn[i],
            #[trigger] vn[j],
        ) by {
            if j < k {
                assert(vn[i] == vo[i] && vn[j] == vo[j]);
            } else if j == k {
                assert(vn[i] == vo[i]);
            } else if i < k {
                assert(vn[i] == vo[i] && vn[j] == vo[j - 1]);
                assert(path_before(vo[i], vo[j - 1]));
            } else if i == k {
                assert(vn[j] == vo[j - 1]);
                if j - 1 > k {
                    assert(path_before(vo[k as int], vo[j - 1]));
                    lemma_path_before_order(p@, vo[k as int], vo[j - 1]);
                }
            } else {
                assert(vn[i] == vo[i - 1] && vn[j] == vo[j - 1]);
                assert(path_before(vo[i - 1], vo[j - 1]));
            }
        }
        assert forall|q: Seq<char>| #[trigger] vn.contains(q) implies (vo.contains(q) || q == p@) by {
            let i = choose|i: int| 0 <= i < vn.len() && vn[i] == q;
            if i < k {
                assert(vo[i] == q);
            } else if i > k {
                assert(vo[i - 1] == q);
            }
        }
        assert forall|q: Seq<char>| #[trigger] vo.contains(q) implies vn.contains(q) by {
            let i = choose|i: int| 0 <= i < vo.len() && vo[i] == q;
            if i < k {
                assert(vn[i] == q);
            } else {
                assert(vn[i + 1] == q);
            }
        }
        assert(v@[k as int]@ == p@);
        assert(same_path(v@[k as int]@, p@));
    }
}

} // verus!
