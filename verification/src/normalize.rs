//! Rewriting of ASCII operator shorthands into the canonical Unicode
//! operator symbols, applied to sentence and citation text before parsing.
//!
//! The rewrite is a sequence of passes.  Each pass scans left to right and
//! replaces every occurrence of one of its patterns by a single canonical
//! character; the passes run in a fixed order (biconditional before
//! conditional, so that `<->` is not eaten by the `->` rule).

use vstd::prelude::*;

verus! {

/// The first pattern in `pats` that is a prefix of `s`, if any.
pub open spec fn first_match(pats: Seq<Seq<char>>, s: Seq<char>) -> Option<Seq<char>>
    decreases pats.len(),
{
    if pats.len() == 0 {
        None
    } else if pats[0].is_prefix_of(s) {
        Some(pats[0])
    } else {
        first_match(pats.drop_first(), s)
    }
}

/// How far a match advances the scan: the pattern length, but at least one
/// character, so that rewriting always makes progress.
pub open spec fn step_len(p: Seq<char>) -> int {
    if p.len() == 0 {
        1int
    } else {
        p.len() as int
    }
}

/// Rewrites `s` left to right: wherever one of `pats` begins, the occurrence
/// is replaced by the single character `to`; all other characters are kept.
pub open spec fn spec_replace(s: Seq<char>, pats: Seq<Seq<char>>, to: char) -> Seq<char>
    decreases s.len(),
{
    if s.len() == 0 {
        Seq::<char>::empty()
    } else {
        match first_match(pats, s) {
            Some(p) => {
                let k = if step_len(p) <= s.len() {
                    step_len(p)
                } else {
                    s.len() as int
                };
                seq![to] + spec_replace(s.skip(k), pats, to)
            },
            None => seq![s[0]] + spec_replace(s.skip(1), pats, to),
        }
    }
}

/// A successful `first_match` returns a pattern from the list, and that
/// pattern is a prefix of the scanned text.
pub proof fn lemma_first_match_some(pats: Seq<Seq<char>>, s: Seq<char>, p: Seq<char>)
    requires
        first_match(pats, s) == Some(p),
    ensures
        pats.contains(p),
        p.is_prefix_of(s),
    decreases pats.len(),
{
    if pats.len() == 0 {
    } else if pats[0].is_prefix_of(s) {
        assert(pats.contains(pats[0]));
    } else {
        lemma_first_match_some(pats.drop_first(), s, p);
        let i = choose|i: int| 0 <= i < pats.drop_first().len() && pats.drop_first()[i] == p;
        assert(pats[i + 1] == p);
        assert(pats.contains(p));
    }
}

/// Every pattern is at least one character long.
pub open spec fn pats_wf(pats: Seq<Seq<char>>) -> bool {
    forall|k: int| 0 <= k < pats.len() ==> #[trigger] pats[k].len() >= 1
}

/// A `first_match` miss means no pattern is a prefix of the text.
pub proof fn lemma_first_match_none(pats: Seq<Seq<char>>, s: Seq<char>)
    requires
        first_match(pats, s) is None,
    ensures
        forall|k: int| 0 <= k < pats.len() ==> !(#[trigger] pats[k]).is_prefix_of(s),
    decreases pats.len(),
{
    if pats.len() > 0 {
        lemma_first_match_none(pats.drop_first(), s);
        assert forall|k: int| 0 <= k < pats.len() implies !(#[trigger] pats[k]).is_prefix_of(s) by {
            if k > 0 {
                assert(pats.drop_first()[k - 1] == pats[k]);
            }
        }
    }
}

/// The pattern `p` occurs in `s` starting at position `i`.
pub open spec fn occurs_at(s: Seq<char>, p: Seq<char>, i: int) -> bool {
    0 <= i && i + p.len() <= s.len() && p.is_prefix_of(s.skip(i))
}

/// The pattern `p` occurs somewhere in `s`.
pub open spec fn occurs(s: Seq<char>, p: Seq<char>) -> bool {
    exists|i: int| occurs_at(s, p, i)
}

/// An occurrence in a contiguous part is an occurrence in the whole.
pub proof fn lemma_occurs_subrange(s: Seq<char>, p: Seq<char>, a: int, b: int)
    requires
        0 <= a <= b <= s.len(),
        occurs(s.subrange(a, b), p),
    ensures
        occurs(s, p),
{
    let u = s.subrange(a, b);
    let j = choose|j: int| occurs_at(u, p, j);
    assert(p == u.skip(j).subrange(0, p.len() as int));
    assert forall|x: int| 0 <= x < p.len() implies p[x] == s.skip(a + j)[x] by {
        assert(p[x] == u.skip(j)[x]);
        assert(u.skip(j)[x] == u[j + x]);
        assert(u[j + x] == s[a + j + x]);
    }
    assert(p =~= s.skip(a + j).subrange(0, p.len() as int));
    assert(p.is_prefix_of(s.skip(a + j)));
    assert(occurs_at(s, p, a + j));
}

/// An occurrence in a suffix is an occurrence in the whole.
pub proof fn lemma_occurs_skip(s: Seq<char>, p: Seq<char>, k: int)
    requires
        0 <= k <= s.len(),
        occurs(s.skip(k), p),
    ensures
        occurs(s, p),
{
    let i = choose|i: int| occurs_at(s.skip(k), p, i);
    assert(s.skip(k).skip(i) =~= s.skip(k + i));
    assert(occurs_at(s, p, k + i));
}

/// A nonempty prefix of the rewritten text that avoids the replacement
/// character was already a prefix of the text before the pass.
pub proof fn lemma_prefix_transfer(s: Seq<char>, pats: Seq<Seq<char>>, to: char, p: Seq<char>)
    requires
        p.len() >= 1,
        !p.contains(to),
        p.is_prefix_of(spec_replace(s, pats, to)),
    ensures
        p.is_prefix_of(s),
    decreases s.len(),
{
    let out = spec_replace(s, pats, to);
    assert(p == out.subrange(0, p.len() as int));
    if s.len() == 0 {
        assert(false);
    } else {
        match first_match(pats, s) {
            Some(q) => {
                assert(out[0] == to);
                assert(p[0] == to);
                assert(p.contains(to));
                assert(false);
            },
            None => {
                let rest = spec_replace(s.skip(1), pats, to);
                assert(out == seq![s[0]] + rest);
                assert(p[0] == out[0]);
                assert(out[0] == s[0]);
                if p.len() == 1 {
                    assert(p =~= s.subrange(0, 1));
                    assert(p.is_prefix_of(s));
                } else {
                    let pt = p.skip(1);
                    assert forall|x: int| 0 <= x < pt.len() implies pt[x] == rest[x] by {
                        assert(pt[x] == p[x + 1]);
                        assert(p[x + 1] == out[x + 1]);
                        assert(out[x + 1] == rest[x]);
                    }
                    assert(pt =~= rest.subrange(0, pt.len() as int));
                    assert(pt.is_prefix_of(rest));
                    assert(!pt.contains(to)) by {
                        if pt.contains(to) {
                            let x = choose|x: int| 0 <= x < pt.len() && pt[x] == to;
                            assert(p[x + 1] == to);
                            assert(p.contains(to));
                        }
                    }
                    lemma_prefix_transfer(s.skip(1), pats, to, pt);
                    assert forall|x: int| 0 <= x < p.len() implies p[x] == s.skip(0)[x] by {
                        if x == 0 {
                        } else {
                            assert(pt[x - 1] == s.skip(1).subrange(0, pt.len() as int)[x - 1]);
                            assert(s.skip(1)[x - 1] == s[x]);
                        }
                    }
                    assert(p =~= s.subrange(0, p.len() as int));
                    assert(p.is_prefix_of(s));
                }
            },
        }
    }
}

/// After a rewrite pass, a pattern of the pass never occurs in the output,
/// and a pattern absent from the input stays absent — provided the pattern
/// avoids the replacement character.
pub proof fn lemma_no_occurs_in_replace(
    s: Seq<char>,
    pats: Seq<Seq<char>>,
    to: char,
    q: Seq<char>,
)
    requires
        pats_wf(pats),
        q.len() >= 1,
        !q.contains(to),
        pats.contains(q) || !occurs(s, q),
    ensures
        !occurs(spec_replace(s, pats, to), q),
    decreases s.len(),
{
    let out = spec_replace(s, pats, to);
    if s.len() == 0 {
        assert forall|i: int| !occurs_at(out, q, i) by {}
    } else {
        match first_match(pats, s) {
            Some(p) => {
                lemma_first_match_some(pats, s, p);
                let k = step_len(p);
                assert(1 <= k <= s.len());
                let rest = spec_replace(s.skip(k), pats, to);
                assert(out == seq![to] + rest);
                if !pats.contains(q) {
                    if occurs(s.skip(k), q) {
                        lemma_occurs_skip(s, q, k);
                    }
                }
                lemma_no_occurs_in_replace(s.skip(k), pats, to, q);
                assert forall|i: int| !occurs_at(out, q, i) by {
                    if occurs_at(out, q, i) {
                        if i == 0 {
                            assert(q[0] == out.subrange(0, q.len() as int)[0]);
                            assert(q[0] == to);
                            assert(q.contains(to));
                        } else {
                            assert(out.skip(i) =~= rest.skip(i - 1));
                            assert(occurs_at(rest, q, i - 1));
                            assert(occurs(rest, q));
                        }
                    }
                }
            },
            None => {
                let rest = spec_replace(s.skip(1), pats, to);
                assert(out == seq![s[0]] + rest);
                if !pats.contains(q) {
                    if occurs(s.skip(1), q) {
                        lemma_occurs_skip(s, q, 1);
                    }
                }
                lemma_no_occurs_in_replace(s.skip(1), pats, to, q);
                assert forall|i: int| !occurs_at(out, q, i) by {
                    if occurs_at(out, q, i) {
                        if i == 0 {
                            assert(q.is_prefix_of(out));
                            lemma_prefix_transfer(s, pats, to, q);
                            assert(s.skip(0) =~= s);
                            assert(occurs_at(s, q, 0));
                            if pats.contains(q) {
                                lemma_first_match_none(pats, s);
                                let x = choose|x: int| 0 <= x < pats.len() && pats[x] == q;
                                assert(!pats[x].is_prefix_of(s));
                            } else {
                                assert(occurs(s, q));
                            }
                        } else {
                            assert(out.skip(i) =~= rest.skip(i - 1));
                            assert(occurs_at(rest, q, i - 1));
                            assert(occurs(rest, q));
                        }
                    }
                }
            },
        }
    }
}

/// A rewrite pass whose patterns are all absent from the text leaves the
/// text unchanged.
pub proof fn lemma_replace_identity(s: Seq<char>, pats: Seq<Seq<char>>, to: char)
    requires
        pats_wf(pats),
        forall|k: int| 0 <= k < pats.len() ==> !occurs(s, #[trigger] pats[k]),
    ensures
        spec_replace(s, pats, to) == s,
    decreases s.len(),
{
    if s.len() == 0 {
        assert(spec_replace(s, pats, to) =~= s);
    } else {
        match first_match(pats, s) {
            Some(p) => {
                lemma_first_match_some(pats, s, p);
                let x = choose|x: int| 0 <= x < pats.len() && pats[x] == p;
                assert(s.skip(0) =~= s);
                assert(occurs_at(s, p, 0));
                assert(occurs(s, pats[x]));
                assert(false);
            },
            None => {
                assert forall|k: int| 0 <= k < pats.len() implies !occurs(
                    s.skip(1),
                    #[trigger] pats[k],
                ) by {
                    if occurs(s.skip(1), pats[k]) {
                        lemma_occurs_skip(s, pats[k], 1);
                    }
                }
                lemma_replace_identity(s.skip(1), pats, to);
                assert(spec_replace(s, pats, to) == seq![s[0]] + s.skip(1));
                assert(seq![s[0]] + s.skip(1) =~= s);
            },
        }
    }
}

pub open spec fn bic_pats() -> Seq<Seq<char>> {
    seq![seq!['≡'], seq!['<', '-', '>']]
}

pub open spec fn imp_pats() -> Seq<Seq<char>> {
    seq![seq!['⇒'], seq!['⊃'], seq!['-', '>']]
}

pub open spec fn con_pats() -> Seq<Seq<char>> {
    seq![seq!['^'], seq!['&'], seq!['.'], seq!['·'], seq!['*']]
}

pub open spec fn dis_pats() -> Seq<Seq<char>> {
    seq![seq!['v']]
}

pub open spec fn neg_pats() -> Seq<Seq<char>> {
    seq![seq!['~'], seq!['∼'], seq!['-'], seq!['−']]
}

pub open spec fn bot_pats() -> Seq<Seq<char>> {
    seq![seq!['X', 'X'], seq!['#']]
}

pub open spec fn nec_pats() -> Seq<Seq<char>> {
    seq![seq!['[', ']']]
}

pub open spec fn pos_pats() -> Seq<Seq<char>> {
    seq![seq!['<', '>']]
}

/// Every pattern of every pass, in pass order.
pub open spec fn all_pats() -> Seq<Seq<char>> {
    bic_pats() + imp_pats() + con_pats() + dis_pats() + neg_pats() + bot_pats() + nec_pats()
        + pos_pats()
}

/// A canonical operator symbol: the replacement character of one of the
/// passes.
pub open spec fn is_canonical_op(c: char) -> bool {
    c == '↔' || c == '→' || c == '∧' || c == '∨' || c == '¬' || c == '⊥' || c == '□' || c == '◇'
}

/// A pattern suitable for idempotent rewriting: nonempty, and free of every
/// canonical operator symbol.
pub open spec fn avoids_canonicals(p: Seq<char>) -> bool {
    p.len() >= 1 && forall|c: char| is_canonical_op(c) ==> !p.contains(c)
}

/// A pattern that mentions no plain parenthesis.
pub open spec fn paren_free(p: Seq<char>) -> bool {
    !p.contains('(') && !p.contains(')')
}

/// No pattern of the list mentions the character `c`.
pub open spec fn pats_avoid_char(pats: Seq<Seq<char>>, c: char) -> bool {
    forall|k: int| 0 <= k < pats.len() ==> !(#[trigger] pats[k]).contains(c)
}

/// No alias pattern mentions a blank character.
pub proof fn lemma_all_pats_avoid_blank(c: char)
    requires
        crate::sentence::spec_is_space(c),
    ensures
        pats_avoid_char(all_pats(), c),
{
    let a = all_pats();
    assert forall|k: int| 0 <= k < a.len() implies !(#[trigger] a[k]).contains(c) by {
        assert forall|x: int| 0 <= x < a[k].len() implies a[k][x] != c by {}
    }
}

/// Every alias pattern is nonempty and mentions no canonical operator
/// symbol.
pub proof fn lemma_all_pats_facts()
    ensures
        all_pats().len() == 19,
        forall|k: int| 0 <= k < all_pats().len() ==> avoids_canonicals(#[trigger] all_pats()[k]),
        bic_pats() == all_pats().subrange(0, 2),
        imp_pats() == all_pats().subrange(2, 5),
        con_pats() == all_pats().subrange(5, 10),
        dis_pats() == all_pats().subrange(10, 11),
        neg_pats() == all_pats().subrange(11, 15),
        bot_pats() == all_pats().subrange(15, 17),
        nec_pats() == all_pats().subrange(17, 18),
        pos_pats() == all_pats().subrange(18, 19),
        forall|k: int| 0 <= k < all_pats().len() ==> paren_free(#[trigger] all_pats()[k]),
{
    let a = all_pats();
    assert(bic_pats() =~= a.subrange(0, 2));
    assert(imp_pats() =~= a.subrange(2, 5));
    assert(con_pats() =~= a.subrange(5, 10));
    assert(dis_pats() =~= a.subrange(10, 11));
    assert(neg_pats() =~= a.subrange(11, 15));
    assert(bot_pats() =~= a.subrange(15, 17));
    assert(nec_pats() =~= a.subrange(17, 18));
    assert(pos_pats() =~= a.subrange(18, 19));
    assert forall|k: int| 0 <= k < a.len() implies avoids_canonicals(#[trigger] a[k]) by {
        assert forall|c: char| is_canonical_op(c) implies !a[k].contains(c) by {
            assert forall|x: int| 0 <= x < a[k].len() implies a[k][x] != c by {}
        }
    }
    assert forall|k: int| 0 <= k < a.len() implies paren_free(#[trigger] a[k]) by {
        assert forall|x: int| 0 <= x < a[k].len() implies a[k][x] != '(' && a[k][x] != ')' by {}
    }
}

/// One rewrite pass leaves absent every watched pattern that it either owns
/// or that was already absent, provided the watched patterns avoid the
/// replacement character.
pub proof fn lemma_pass_clean(t: Seq<char>, pats: Seq<Seq<char>>, to: char, qs: Seq<Seq<char>>)
    requires
        pats_wf(pats),
        forall|k: int| 0 <= k < qs.len() ==> (#[trigger] qs[k]).len() >= 1 && !qs[k].contains(to),
        forall|k: int|
            0 <= k < qs.len() ==> pats.contains(#[trigger] qs[k]) || !occurs(t, qs[k]),
    ensures
        forall|k: int| 0 <= k < qs.len() ==> !occurs(spec_replace(t, pats, to), #[trigger] qs[k]),
{
    assert forall|k: int| 0 <= k < qs.len() implies !occurs(
        spec_replace(t, pats, to),
        #[trigger] qs[k],
    ) by {
        lemma_no_occurs_in_replace(t, pats, to, qs[k]);
    }
}

/// No alias pattern occurs in the output of the operator rewrite.
pub proof fn lemma_normalize_ops_clean(s: Seq<char>)
    ensures
        forall|k: int|
            0 <= k < all_pats().len() ==> !occurs(spec_normalize_ops(s), #[trigger] all_pats()[k]),
{
    lemma_all_pats_facts();
    let a = all_pats();
    assert forall|k: int|
        0 <= k < a.len() implies #[trigger] a[k].len() >= 1 && !a[k].contains('↔') && !a[k].contains(
        '→',
    ) && !a[k].contains('∧') && !a[k].contains('∨') && !a[k].contains('¬') && !a[k].contains('⊥')
        && !a[k].contains('□') && !a[k].contains('◇') by {
        assert(avoids_canonicals(a[k]));
        assert(is_canonical_op('↔') && is_canonical_op('→') && is_canonical_op('∧')
            && is_canonical_op('∨') && is_canonical_op('¬') && is_canonical_op('⊥')
            && is_canonical_op('□') && is_canonical_op('◇'));
    }
    assert(pats_wf(bic_pats()));
    assert(pats_wf(imp_pats()));
    assert(pats_wf(con_pats()));
    assert(pats_wf(dis_pats()));
    assert(pats_wf(neg_pats()));
    assert(pats_wf(bot_pats()));
    assert(pats_wf(nec_pats()));
    assert(pats_wf(pos_pats()));
    let t1 = spec_replace(s, bic_pats(), '↔');
    let t2 = spec_replace(t1, imp_pats(), '→');
    let t3 = spec_replace(t2, con_pats(), '∧');
    let t4 = spec_replace(t3, dis_pats(), '∨');
    let t5 = spec_replace(t4, neg_pats(), '¬');
    let t6 = spec_replace(t5, bot_pats(), '⊥');
    let t7 = spec_replace(t6, nec_pats(), '□');
    let t8 = spec_replace(t7, pos_pats(), '◇');
    assert(spec_normalize_ops(s) == t8);
    lemma_pass_clean(s, bic_pats(), '↔', a.subrange(0, 2));
    lemma_pass_clean(t1, imp_pats(), '→', a.subrange(0, 5));
    lemma_pass_clean(t2, con_pats(), '∧', a.subrange(0, 10));
    lemma_pass_clean(t3, dis_pats(), '∨', a.subrange(0, 11));
    lemma_pass_clean(t4, neg_pats(), '¬', a.subrange(0, 15));
    lemma_pass_clean(t5, bot_pats(), '⊥', a.subrange(0, 17));
    lemma_pass_clean(t6, nec_pats(), '□', a.subrange(0, 18));
    lemma_pass_clean(t7, pos_pats(), '◇', a.subrange(0, 19));
    assert(a.subrange(0, 19) =~= a);
    assert forall|k: int| 0 <= k < a.len() implies !occurs(t8, #[trigger] a[k]) by {
        assert(a.subrange(0, 19)[k] == a[k]);
    }
}

/// Rewriting aliases is idempotent: a second application of the operator
/// rewrite changes nothing.
pub proof fn lemma_normalize_ops_idempotent(s: Seq<char>)
    ensures
        spec_normalize_ops(spec_normalize_ops(s)) == spec_normalize_ops(s),
{
    lemma_all_pats_facts();
    lemma_normalize_ops_clean(s);
    let a = all_pats();
    assert forall|k: int| 0 <= k < a.len() implies #[trigger] a[k].len() >= 1 by {
        assert(avoids_canonicals(a[k]));
    }
    assert(pats_wf(bic_pats()));
    assert(pats_wf(imp_pats()));
    assert(pats_wf(con_pats()));
    assert(pats_wf(dis_pats()));
    assert(pats_wf(neg_pats()));
    assert(pats_wf(bot_pats()));
    assert(pats_wf(nec_pats()));
    assert(pats_wf(pos_pats()));
    let t8 = spec_normalize_ops(s);
    lemma_replace_identity(t8, bic_pats(), '↔');
    lemma_replace_identity(t8, imp_pats(), '→');
    lemma_replace_identity(t8, con_pats(), '∧');
    lemma_replace_identity(t8, dis_pats(), '∨');
    lemma_replace_identity(t8, neg_pats(), '¬');
    lemma_replace_identity(t8, bot_pats(), '⊥');
    lemma_replace_identity(t8, nec_pats(), '□');
    lemma_replace_identity(t8, pos_pats(), '◇');
}

/// The operator rewrite: all eight passes in order.
pub open spec fn spec_normalize_ops(s: Seq<char>) -> Seq<char> {
    let s1 = spec_replace(s, bic_pats(), '↔');
    let s2 = spec_replace(s1, imp_pats(), '→');
    let s3 = spec_replace(s2, con_pats(), '∧');
    let s4 = spec_replace(s3, dis_pats(), '∨');
    let s5 = spec_replace(s4, neg_pats(), '¬');
    let s6 = spec_replace(s5, bot_pats(), '⊥');
    let s7 = spec_replace(s6, nec_pats(), '□');
    spec_replace(s7, pos_pats(), '◇')
}

/// Collects the characters of a string slice into a vector.
pub fn str_to_chars(s: &str) -> (r: Vec<char>)
    ensures
        r@ == s@,
{
    let n = s.unicode_len();
    let mut v: Vec<char> = Vec::new();
    let mut i: usize = 0;
    while i < n
        invariant
            n == s@.len(),
            i <= n,
            v@ == s@.subrange(0, i as int),
        decreases n - i,
    {
        let c = s.get_char(i);
        v.push(c);
        proof {
            assert(v@ =~= s@.subrange(0, i + 1 as int));
        }
        i += 1;
    }
    proof {
        assert(v@ =~= s@);
    }
    v
}

/// Relies on `String: FromIterator<char>`: collecting characters yields the
/// string of exactly those characters, in order.
#[verifier::external_body]
pub fn chars_to_string(v: &Vec<char>) -> (r: String)
    ensures
        r@ == v@,
{
    v.iter().collect()
}

/// Whether the pattern `p` occurs starting at position `i` of `v`.
fn prefix_at(v: &Vec<char>, i: usize, p: &Vec<char>) -> (r: bool)
    requires
        i <= v@.len(),
    ensures
        r == p@.is_prefix_of(v@.skip(i as int)),
{
    let vlen = v.len();
    let plen = p.len();
    if plen > vlen - i {
        proof {
            assert(!p@.is_prefix_of(v@.skip(i as int)));
        }
        return false;
    }
    let mut j: usize = 0;
    while j < plen
        invariant
            vlen == v@.len(),
            i <= vlen,
            plen == p@.len(),
            plen <= vlen - i,
            j <= plen,
            forall|m: int| 0 <= m < j ==> p@[m] == v@[i + m],
        decreases plen - j,
    {
        if p[j] != v[i + j] {
            proof {
                assert(v@.skip(i as int)[j as int] == v@[i + j]);
                assert(!p@.is_prefix_of(v@.skip(i as int)));
            }
            return false;
        }
        j += 1;
    }
    proof {
        assert forall|m: int| 0 <= m < plen implies v@.skip(i as int)[m] == p@[m] by {
            assert(v@.skip(i as int)[m] == v@[i + m]);
        }
        assert(p@.is_prefix_of(v@.skip(i as int)));
    }
    true
}

/// Finds the first pattern that matches at position `i` of `v`, returning its
/// index in `pats`.
fn find_match(v: &Vec<char>, i: usize, pats: &Vec<Vec<char>>) -> (r: Option<usize>)
    requires
        i <= v@.len(),
    ensures
        match r {
            Some(k) => k < pats@.len() && first_match(pats.deep_view(), v@.skip(i as int))
                == Some(pats@[k as int]@),
            None => first_match(pats.deep_view(), v@.skip(i as int)) is None,
        },
{
    let ghost s = v@.skip(i as int);
    let n = pats.len();
    let mut k: usize = 0;
    proof {
        assert(pats.deep_view().skip(0) =~= pats.deep_view());
    }
    while k < n
        invariant
            i <= v@.len(),
            n == pats@.len(),
            k <= n,
            s == v@.skip(i as int),
            first_match(pats.deep_view(), s) == first_match(pats.deep_view().skip(k as int), s),
        decreases n - k,
    {
        let hit = prefix_at(v, i, &pats[k]);
        proof {
            assert(pats.deep_view()[k as int] =~= pats@[k as int]@);
            assert(pats.deep_view().skip(k as int)[0] == pats.deep_view()[k as int]);
        }
        if hit {
            proof {
                assert(first_match(pats.deep_view().skip(k as int), s)
                    == Some(pats.deep_view()[k as int]));
            }
            return Some(k);
        }
        proof {
            assert(pats.deep_view().skip(k as int).drop_first()
                =~= pats.deep_view().skip(k as int + 1));
        }
        k += 1;
    }
    proof {
        assert(pats.deep_view().skip(n as int) =~= Seq::<Seq<char>>::empty());
    }
    None
}

/// One rewrite pass over `v`, replacing each occurrence of a pattern by `to`.
pub(crate) fn replace_chars(v: &Vec<char>, pats: &Vec<Vec<char>>, to: char) -> (r: Vec<char>)
    requires
        pats_wf(pats.deep_view()),
    ensures
        r@ == spec_replace(v@, pats.deep_view(), to),
{
    let ghost dv = pats.deep_view();
    let mut out: Vec<char> = Vec::new();
    let mut i: usize = 0;
    proof {
        assert(v@.skip(0) =~= v@);
        assert(out@ + spec_replace(v@, dv, to) =~= spec_replace(v@, dv, to));
    }
    while i < v.len()
        invariant
            i <= v@.len(),
            dv == pats.deep_view(),
            pats_wf(dv),
            spec_replace(v@, dv, to) == out@ + spec_replace(v@.skip(i as int), dv, to),
        decreases v@.len() - i,
    {
        let ghost pre = out@;
        match find_match(v, i, pats) {
            Some(k) => {
                let plen = pats[k].len();
                proof {
                    assert(dv[k as int] =~= pats@[k as int]@);
                    assert(plen >= 1);
                    lemma_first_match_some(dv, v@.skip(i as int), dv[k as int]);
                    assert(plen <= v@.len() - i);
                }
                out.push(to);
                i += plen;
                proof {
                    assert(v@.skip(i - plen as int).skip(plen as int) =~= v@.skip(i as int));
                    assert(step_len(dv[k as int]) == plen as int);
                    assert(spec_replace(v@.skip(i - plen as int), dv, to)
                        == seq![to] + spec_replace(v@.skip(i as int), dv, to));
                    assert(pre + (seq![to] + spec_replace(v@.skip(i as int), dv, to))
                        =~= out@ + spec_replace(v@.skip(i as int), dv, to));
                }
            },
            None => {
                let c = v[i];
                out.push(c);
                i += 1;
                proof {
                    assert(v@.skip(i - 1 as int).skip(1) =~= v@.skip(i as int));
                    assert(v@.skip(i - 1 as int)[0] == c);
                    assert(spec_replace(v@.skip(i - 1 as int), dv, to)
                        == seq![c] + spec_replace(v@.skip(i as int), dv, to));
                    assert(pre + (seq![c] + spec_replace(v@.skip(i as int), dv, to))
                        =~= out@ + spec_replace(v@.skip(i as int), dv, to));
                }
            },
        }
    }
    proof {
        assert(v@.skip(v@.len() as int) =~= Seq::<char>::empty());
        assert(out@ + spec_replace(Seq::<char>::empty(), dv, to) =~= out@);
    }
    out
}

/// Builds the executable form of one pattern list and proves it matches the
/// given specification-level list.
pub(crate) fn push_pat(pats: &mut Vec<Vec<char>>, p: Vec<char>)
    ensures
        final(pats).deep_view() == old(pats).deep_view().push(p@),
{
    pats.push(p);
    proof {
        assert(pats.deep_view() =~~= old(pats).deep_view().push(p@));
    }
}

/// Applies all eight operator passes to a character vector.
pub(crate) fn normalize_ops_chars(v: Vec<char>) -> (r: Vec<char>)
    ensures
        r@ == spec_normalize_ops(v@),
{
    let mut bic: Vec<Vec<char>> = Vec::new();
    push_pat(&mut bic, vec!['≡']);
    push_pat(&mut bic, vec!['<', '-', '>']);
    proof {
        assert(bic.deep_view() =~~= bic_pats());
    }
    let s1 = replace_chars(&v, &bic, '↔');

    let mut imp: Vec<Vec<char>> = Vec::new();
    push_pat(&mut imp, vec!['⇒']);
    push_pat(&mut imp, vec!['⊃']);
    push_pat(&mut imp, vec!['-', '>']);
    proof {
        assert(imp.deep_view() =~~= imp_pats());
    }
    let s2 = replace_chars(&s1, &imp, '→');

    let mut con: Vec<Vec<char>> = Vec::new();
    push_pat(&mut con, vec!['^']);
    push_pat(&mut con, vec!['&']);
    push_pat(&mut con, vec!['.']);
    push_pat(&mut con, vec!['·']);
    push_pat(&mut con, vec!['*']);
    proof {
        assert(con.deep_view() =~~= con_pats());
    }
    let s3 = replace_chars(&s2, &con, '∧');

    let mut dis: Vec<Vec<char>> = Vec::new();
    push_pat(&mut dis, vec!['v']);
    proof {
        assert(dis.deep_view() =~~= dis_pats());
    }
    let s4 = replace_chars(&s3, &dis, '∨');

    let mut neg: Vec<Vec<char>> = Vec::new();
    push_pat(&mut neg, vec!['~']);
    push_pat(&mut neg, vec!['∼']);
    push_pat(&mut neg, vec!['-']);
    push_pat(&mut neg, vec!['−']);
    proof {
        assert(neg.deep_view() =~~= neg_pats());
    }
    let s5 = replace_chars(&s4, &neg, '¬');

    let mut bot: Vec<Vec<char>> = Vec::new();
    push_pat(&mut bot, vec!['X', 'X']);
    push_pat(&mut bot, vec!['#']);
    proof {
        assert(bot.deep_view() =~~= bot_pats());
    }
    let s6 = replace_chars(&s5, &bot, '⊥');

    let mut nec: Vec<Vec<char>> = Vec::new();
    push_pat(&mut nec, vec!['[', ']']);
    proof {
        assert(nec.deep_view() =~~= nec_pats());
    }
    let s7 = replace_chars(&s6, &nec, '□');

    let mut pos: Vec<Vec<char>> = Vec::new();
    push_pat(&mut pos, vec!['<', '>']);
    proof {
        assert(pos.deep_view() =~~= pos_pats());
    }
    replace_chars(&s7, &pos, '◇')
}

/// Normalizes operator shorthands in a string: every accepted alias is
/// rewritten to its canonical Unicode operator symbol.
pub fn normalize_ops(i: &str) -> (r: String)
    ensures
        r@ == spec_normalize_ops(i@),
{
    let v = str_to_chars(i);
    let out = normalize_ops_chars(v);
    chars_to_string(&out)
}

} // verus!
