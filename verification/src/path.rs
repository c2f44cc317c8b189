//! Ordering and equality of slash-separated paths by their components, as
//! `Path` compares them: a root, a leading `.`, `..` and normal names, with
//! empty and inner `.` components ignored.
//!
//! A path is mapped to a key, a sequence of integers whose lexicographic
//! order is the component order: each component is a tag (root 1, current
//! directory 2, parent 3, normal 4), then for a normal name each character's
//! code plus one, then a terminating 0.

use crate::text::chars_of;
use vstd::prelude::*;

verus! {

/// The `/`-separated segments of `s`, empty ones included.
pub open spec fn segments(s: Seq<char>) -> Seq<Seq<char>>
    decreases s.len(),
{
    if s.len() == 0 {
        seq![Seq::empty()]
    } else {
        let p = segments(s.drop_last());
        if s.last() == '/' {
            p.push(Seq::empty())
        } else {
            p.update(p.len() - 1, p.last().push(s.last()))
        }
    }
}

pub open spec fn name_codes(name: Seq<char>) -> Seq<u64> {
    name.map_values(|c: char| ((c as u32) as u64 + 1) as u64)
}

/// The key of one segment: nothing for empty and `.` segments.
pub open spec fn segment_key(seg: Seq<char>) -> Seq<u64> {
    if seg.len() == 0 || seg == seq!['.'] {
        Seq::empty()
    } else if seg == seq!['.', '.'] {
        seq![3u64, 0u64]
    } else {
        seq![4u64] + name_codes(seg) + seq![0u64]
    }
}

pub open spec fn segments_key(segs: Seq<Seq<char>>) -> Seq<u64>
    decreases segs.len(),
{
    if segs.len() == 0 {
        Seq::empty()
    } else {
        segments_key(segs.drop_last()) + segment_key(segs.last())
    }
}

/// The component key of a path.
#[verifier::opaque]
pub open spec fn path_key(s: Seq<char>) -> Seq<u64> {
    let head = if s.len() > 0 && s[0] == '/' {
        seq![1u64, 0u64]
    } else if segments(s)[0] == seq!['.'] {
        seq![2u64, 0u64]
    } else {
        Seq::empty()
    };
    head + segments_key(segments(s))
}

/// Strict lexicographic order on keys.
pub open spec fn lex_lt(a: Seq<u64>, b: Seq<u64>) -> bool
    decreases a.len(),
{
    if a.len() == 0 {
        b.len() > 0
    } else if b.len() == 0 {
        false
    } else if a[0] < b[0] {
        true
    } else if a[0] > b[0] {
        false
    } else {
        lex_lt(a.drop_first(), b.drop_first())
    }
}

/// `a` and `b` are the same path.
pub open spec fn path_eq(a: Seq<char>, b: Seq<char>) -> bool {
    path_key(a) == path_key(b)
}

pub proof fn lemma_lex_irreflexive(a: Seq<u64>)
    ensures
        !lex_lt(a, a),
    decreases a.len(),
{
    if a.len() > 0 {
        lemma_lex_irreflexive(a.drop_first());
    }
}

pub proof fn lemma_lex_transitive(a: Seq<u64>, b: Seq<u64>, c: Seq<u64>)
    requires
        lex_lt(a, b),
        lex_lt(b, c),
    ensures
        lex_lt(a, c),
    decreases a.len(),
{
    if a.len() > 0 && b.len() > 0 && c.len() > 0 {
        if a[0] == b[0] && b[0] == c[0] {
            lemma_lex_transitive(a.drop_first(), b.drop_first(), c.drop_first());
        }
    }
}

pub proof fn lemma_lex_total(a: Seq<u64>, b: Seq<u64>)
    ensures
        lex_lt(a, b) || lex_lt(b, a) || a == b,
    decreases a.len(),
{
    if a.len() > 0 && b.len() > 0 {
        if a[0] == b[0] {
            lemma_lex_total(a.drop_first(), b.drop_first());
            if a.drop_first() == b.drop_first() {
                assert(a =~= seq![a[0]] + a.drop_first());
                assert(b =~= seq![b[0]] + b.drop_first());
            }
        }
    } else if a.len() == 0 && b.len() == 0 {
        assert(a =~= b);
    }
}

pub proof fn lemma_lex_asymmetric(a: Seq<u64>, b: Seq<u64>)
    requires
        lex_lt(a, b),
    ensures
        !lex_lt(b, a),
    decreases a.len(),
{
    if a.len() > 0 && b.len() > 0 && a[0] == b[0] {
        lemma_lex_asymmetric(a.drop_first(), b.drop_first());
    }
}

/// Whether `a` orders strictly before `b`.
pub fn lex_lt_exec(a: &Vec<u64>, b: &Vec<u64>) -> (r: bool)
    ensures
        r == lex_lt(a@, b@),
{
    let n = a.len();
    let m = b.len();
    let mut i: usize = 0;
    assert(a@.skip(0) =~= a@);
    assert(b@.skip(0) =~= b@);
    while i < n && i < m && a[i] == b[i]
        invariant
            n == a@.len(),
            m == b@.len(),
            i <= n,
            i <= m,
            lex_lt(a@, b@) == lex_lt(a@.skip(i as int), b@.skip(i as int)),
        decreases n - i,
    {
        proof {
            assert(a@.skip(i as int).drop_first() =~= a@.skip(i + 1));
            assert(b@.skip(i as int).drop_first() =~= b@.skip(i + 1));
        }
        i = i + 1;
    }
    if i == n {
        i < m
    } else if i == m {
        false
    } else {
        a[i] < b[i]
    }
}

/// The code points of a string, in order.
pub open spec fn char_codes(s: Seq<char>) -> Seq<u64> {
    s.map_values(|c: char| (c as u32) as u64)
}

/// `a` orders strictly before `b` as strings do: code point by code point,
/// a proper prefix first (the byte order of their UTF-8 forms).
pub open spec fn name_lt(a: Seq<char>, b: Seq<char>) -> bool {
    lex_lt(char_codes(a), char_codes(b))
}

pub proof fn lemma_char_codes_injective(a: Seq<char>, b: Seq<char>)
    requires
        char_codes(a) == char_codes(b),
    ensures
        a == b,
{
    assert(a.len() == char_codes(a).len());
    assert(b.len() == char_codes(b).len());
    assert forall|i: int| 0 <= i < a.len() implies a[i] == b[i] by {
        assert(char_codes(a)[i] == char_codes(b)[i]);
        assert(char_codes(b)[i] == (b[i] as u32) as u64);
        let ua = a[i] as u32;
        let ub = b[i] as u32;
        assert(ua as u64 == ub as u64);
        assert(ua == ub);
        vstd::utf8::char_u32_cast(a[i], ua);
        vstd::utf8::char_u32_cast(b[i], ub);
    }
    assert(a =~= b);
}

/// Strings are totally and strictly ordered by `name_lt`.
pub proof fn lemma_name_order(a: Seq<char>, b: Seq<char>, c: Seq<char>)
    ensures
        !name_lt(a, a),
        name_lt(a, b) || name_lt(b, a) || a == b,
        name_lt(a, b) ==> !name_lt(b, a),
        name_lt(a, b) && name_lt(b, c) ==> name_lt(a, c),
{
    lemma_lex_irreflexive(char_codes(a));
    lemma_lex_total(char_codes(a), char_codes(b));
    if char_codes(a) == char_codes(b) {
        lemma_char_codes_injective(a, b);
    }
    if name_lt(a, b) {
        lemma_lex_asymmetric(char_codes(a), char_codes(b));
        if name_lt(b, c) {
            lemma_lex_transitive(char_codes(a), char_codes(b), char_codes(c));
        }
    }
}

/// The code points of a string.
pub fn char_codes_exec(s: &str) -> (codes: Vec<u64>)
    ensures
        codes@ == char_codes(s@),
{
    let mut codes: Vec<u64> = Vec::new();
    for c in it: s.chars()
        invariant
            it.seq() == s@,
            codes@ == char_codes(it.seq().take(it.index())),
    {
        proof {
            assert(char_codes(it.seq().take(it.index() + 1)) =~= char_codes(
                it.seq().take(it.index()),
            ).push((c as u32) as u64));
        }
        codes.push((c as u32) as u64);
    }
    assert(s@.take(s@.len() as int) =~= s@);
    codes
}

/// Whether `a` orders strictly before `b` as strings.
pub fn name_lt_exec(a: &str, b: &str) -> (r: bool)
    ensures
        r == name_lt(a@, b@),
{
    let ka = char_codes_exec(a);
    let kb = char_codes_exec(b);
    lex_lt_exec(&ka, &kb)
}

/// Whether two keys are equal.
pub fn key_eq_exec(a: &Vec<u64>, b: &Vec<u64>) -> (r: bool)
    ensures
        r == (a@ == b@),
{
    if a.len() != b.len() {
        return false;
    }
    let n = a.len();
    let mut i: usize = 0;
    while i < n
        invariant
            n == a@.len(),
            n == b@.len(),
            i <= n,
            forall|k: int| 0 <= k < i ==> a@[k] == b@[k],
        decreases n - i,
    {
        if a[i] != b[i] {
            return false;
        }
        i = i + 1;
    }
    assert(a@ =~= b@);
    true
}

fn push_segment_key(out: &mut Vec<u64>, seg: &Vec<char>)
    ensures
        final(out)@ == old(out)@ + segment_key(seg@),
{
    let n = seg.len();
    if n == 0 {
        assert(old(out)@ + segment_key(seg@) =~= old(out)@);
        return;
    }
    if n == 1 && seg[0] == '.' {
        assert(seg@ =~= seq!['.']);
        assert(old(out)@ + segment_key(seg@) =~= old(out)@);
        return;
    }
    if n == 2 && seg[0] == '.' && seg[1] == '.' {
        assert(seg@ =~= seq!['.', '.']);
        out.push(3);
        out.push(0);
        assert(out@ =~= old(out)@ + segment_key(seg@));
        return;
    }
    assert(seg@ != seq!['.']) by {
        if n == 1 {
            assert(seg@[0] != seq!['.'][0]);
        }
    }
    assert(seg@ != seq!['.', '.']) by {
        if n == 2 {
            assert(seg@[0] != '.' || seg@[1] != '.');
        }
    }
    let ghost start = out@;
    out.push(4);
    let mut i: usize = 0;
    while i < n
        invariant
            n == seg@.len(),
            i <= n,
            out@ == start + seq![4u64] + name_codes(seg@.take(i as int)),
        decreases n - i,
    {
        out.push((seg[i] as u32) as u64 + 1);
        i = i + 1;
        assert(name_codes(seg@.take(i as int)) =~= name_codes(seg@.take(i - 1)).push(
            ((seg@[i - 1] as u32) as u64 + 1) as u64,
        ));
        assert(out@ =~= start + seq![4u64] + name_codes(seg@.take(i as int)));
    }
    out.push(0);
    assert(seg@.take(n as int) =~= seg@);
    assert(out@ =~= start + segment_key(seg@));
}

/// The `/`-separated segments of `s`.
fn split_segments(s: &Vec<char>) -> (segs: Vec<Vec<char>>)
    ensures
        segs@.len() == segments(s@).len(),
        forall|k: int| 0 <= k < segs@.len() ==> (#[trigger] segs@[k])@ == segments(s@)[k],
{
    let n = s.len();
    let mut segs: Vec<Vec<char>> = Vec::new();
    let mut cur: Vec<char> = Vec::new();
    let mut i: usize = 0;
    proof {
        lemma_segments_nonempty(s@.take(0));
        assert(s@.take(0) =~= Seq::<char>::empty());
    }
    while i < n
        invariant
            n == s@.len(),
            i <= n,
            segs@.len() + 1 == segments(s@.take(i as int)).len(),
            forall|k: int| 0 <= k < segs@.len() ==> (#[trigger] segs@[k])@ == segments(
                s@.take(i as int),
            )[k],
            cur@ == segments(s@.take(i as int)).last(),
        decreases n - i,
    {
        let c = s[i];
        proof {
            assert(s@.take(i + 1).drop_last() =~= s@.take(i as int));
            lemma_segments_nonempty(s@.take(i as int));
        }
        if c == '/' {
            segs.push(cur);
            cur = Vec::new();
        } else {
            cur.push(c);
        }
        i = i + 1;
        proof {
            let p = segments(s@.take(i - 1));
            let q = segments(s@.take(i as int));
            assert forall|k: int| 0 <= k < segs@.len() implies (#[trigger] segs@[k])@ == q[k] by {
                if c != '/' {
                    assert(q[k] == p[k]);
                }
            }
        }
    }
    segs.push(cur);
    assert(s@.take(n as int) =~= s@);
    segs
}

proof fn lemma_segments_nonempty(s: Seq<char>)
    ensures
        segments(s).len() >= 1,
    decreases s.len(),
{
    if s.len() > 0 {
        lemma_segments_nonempty(s.drop_last());
    }
}

proof fn lemma_segments_first(s: Seq<char>)
    ensures
        segments(s).len() >= 1,
        s.len() > 0 && s[0] == '/' ==> segments(s).len() >= 2 && segments(s)[0].len() == 0,
        s.len() == 1 && s[0] == '.' ==> segments(s)[0] == seq!['.'],
    decreases s.len(),
{
    lemma_segments_nonempty(s);
    if s.len() > 1 {
        lemma_segments_first(s.drop_last());
        lemma_segments_nonempty(s.drop_last());
        assert(s.drop_last()[0] == s[0]);
    } else if s.len() == 1 {
        assert(s.drop_last() =~= Seq::<char>::empty());
        assert(segments(s.drop_last()) =~= seq![Seq::<char>::empty()]);
    }
}

/// The component key of a path.
pub fn path_key_exec(path: &str) -> (key: Vec<u64>)
    ensures
        key@ == path_key(path@),
{
    reveal(path_key);
    let s = chars_of(path);
    let segs = split_segments(&s);
    proof {
        lemma_segments_first(s@);
        lemma_segments_nonempty(s@);
    }
    let mut key: Vec<u64> = Vec::new();
    let ghost head: Seq<u64>;
    if s.len() > 0 && s[0] == '/' {
        key.push(1);
        key.push(0);
        proof {
            head = seq![1u64, 0u64];
        }
    } else if segs[0].len() == 1 && segs[0][0] == '.' {
        key.push(2);
        key.push(0);
        proof {
            assert(segs@[0]@ =~= seq!['.']);
            head = seq![2u64, 0u64];
        }
    } else {
        proof {
            head = Seq::empty();
            assert(segs@[0]@ != seq!['.']) by {
                if segs@[0]@.len() == 1 {
                    assert(segs@[0]@[0] != '.');
                }
            }
        }
    }
    assert(key@ =~= head);
    let n = segs.len();
    let mut i: usize = 0;
    while i < n
        invariant
            n == segs@.len(),
            n == segments(s@).len(),
            forall|k: int| 0 <= k < segs@.len() ==> (#[trigger] segs@[k])@ == segments(s@)[k],
            i <= n,
            key@ == head + segments_key(segments(s@).take(i as int)),
        decreases n - i,
    {
        let ghost before = key@;
        push_segment_key(&mut key, &segs[i]);
        i = i + 1;
        proof {
            assert(segments(s@).take(i as int).drop_last() =~= segments(s@).take(i - 1));
            assert(key@ =~= head + segments_key(segments(s@).take(i as int)));
        }
    }
    assert(segments(s@).take(n as int) =~= segments(s@));
    key
}

} // verus!
