//! The round-trip law: rendering a parsed version yields text that parses
//! back to the very same value.

use vstd::prelude::*;

use crate::text::{
    all_digits, dec_rep, dec_val, digit_val, find_char, is_digit, lemma_dec_val_of_rep,
    lemma_find_char, lemma_find_char_absent, lemma_find_char_is, lemma_rfind_char,
    lemma_rfind_char_is, rfind_char,
};
use crate::version::{
    empty_elem, push_digit, render_elem, render_part, render_version, scan_rec, spec_parse_part,
    spec_parse_version, split_upstream_revision, valid_epoch, ElemModel, VersionModel,
};

verus! {

/// The alpha run of an element never holds a digit.
pub open spec fn wf_elem_alpha(e: ElemModel) -> bool {
    forall|j: int| 0 <= j < e.alpha.len() ==> !is_digit(e.alpha[j])
}

/// The shape every scanned segment has: alpha runs hold no digits, and every
/// element after the first starts with at least one non-digit character.
pub open spec fn wf_part(p: Seq<ElemModel>) -> bool {
    &&& forall|i: int| 0 <= i < p.len() ==> wf_elem_alpha(#[trigger] p[i])
    &&& forall|i: int| 1 <= i < p.len() ==> (#[trigger] p[i]).alpha.len() > 0
}

/// Some alpha run of `p` holds the character `c`.
pub open spec fn part_has_char(p: Seq<ElemModel>, c: char) -> bool {
    exists|i: int| 0 <= i < p.len() && (#[trigger] p[i]).alpha.contains(c)
}

proof fn lemma_scan_rec_wf(s: Seq<char>, in_num: bool, cur: ElemModel, acc: Seq<ElemModel>)
    requires
        forall|i: int| 0 <= i < acc.len() ==> wf_elem_alpha(#[trigger] acc[i]),
        forall|i: int| 1 <= i < acc.len() ==> (#[trigger] acc[i]).alpha.len() > 0,
        wf_elem_alpha(cur),
        acc.len() > 0 ==> cur.alpha.len() > 0,
    ensures
        wf_part(scan_rec(s, in_num, cur, acc)),
    decreases s.len(),
{
    if s.len() == 0 {
        let r = acc.push(cur);
        assert(forall|i: int| 0 <= i < acc.len() ==> r[i] == acc[i]);
        assert(r[acc.len() as int] == cur);
    } else {
        let c = s[0];
        let rest = s.drop_first();
        if is_digit(c) {
            lemma_scan_rec_wf(
                rest,
                true,
                ElemModel { alpha: cur.alpha, numeric: push_digit(cur.numeric, c) },
                acc,
            );
        } else if !in_num {
            let cur2 = ElemModel { alpha: cur.alpha.push(c), numeric: cur.numeric };
            assert(wf_elem_alpha(cur2)) by {
                assert(forall|j: int| 0 <= j < cur.alpha.len() ==> cur2.alpha[j] == cur.alpha[j]);
                assert(cur2.alpha[cur.alpha.len() as int] == c);
            }
            lemma_scan_rec_wf(rest, false, cur2, acc);
        } else {
            let acc2 = acc.push(cur);
            assert(forall|i: int| 0 <= i < acc.len() ==> acc2[i] == acc[i]);
            assert(acc2[acc.len() as int] == cur);
            let cur2 = ElemModel { alpha: seq![c], numeric: 0u64 };
            lemma_scan_rec_wf(rest, false, cur2, acc2);
        }
    }
}

/// Whatever text is scanned, the resulting segment is well-formed.
pub proof fn lemma_parse_part_wf(s: Seq<char>)
    ensures
        wf_part(spec_parse_part(s)),
{
    if s.len() == 0 {
    } else {
        lemma_scan_rec_wf(s, false, empty_elem(), Seq::empty());
    }
}

proof fn lemma_scan_rec_chars(
    s: Seq<char>,
    in_num: bool,
    cur: ElemModel,
    acc: Seq<ElemModel>,
    c: char,
)
    requires
        !s.contains(c),
        !cur.alpha.contains(c),
        !part_has_char(acc, c),
    ensures
        !part_has_char(scan_rec(s, in_num, cur, acc), c),
    decreases s.len(),
{
    if s.len() == 0 {
        let r = acc.push(cur);
        assert forall|i: int| 0 <= i < r.len() implies !(#[trigger] r[i]).alpha.contains(c) by {
            if i < acc.len() {
                assert(!acc[i].alpha.contains(c));
            }
        }
    } else {
        let c0 = s[0];
        let rest = s.drop_first();
        assert(s[0] != c);
        assert(!rest.contains(c)) by {
            if rest.contains(c) {
                let k = choose|k: int| 0 <= k < rest.len() && rest[k] == c;
                assert(s[k + 1] == c);
            }
        }
        if is_digit(c0) {
            lemma_scan_rec_chars(
                rest,
                true,
                ElemModel { alpha: cur.alpha, numeric: push_digit(cur.numeric, c0) },
                acc,
                c,
            );
        } else if !in_num {
            let cur2 = ElemModel { alpha: cur.alpha.push(c0), numeric: cur.numeric };
            assert(!cur2.alpha.contains(c)) by {
                if cur2.alpha.contains(c) {
                    let k = choose|k: int| 0 <= k < cur2.alpha.len() && cur2.alpha[k] == c;
                    if k < cur.alpha.len() {
                        assert(cur.alpha[k] == c);
                    } else {
                        assert(cur2.alpha[k] == c0);
                    }
                }
            }
            lemma_scan_rec_chars(rest, false, cur2, acc, c);
        } else {
            let acc2 = acc.push(cur);
            assert forall|i: int| 0 <= i < acc2.len() implies !(#[trigger] acc2[i]).alpha.contains(
                c,
            ) by {
                if i < acc.len() {
                    assert(!acc[i].alpha.contains(c));
                }
            }
            let cur2 = ElemModel { alpha: seq![c0], numeric: 0u64 };
            assert(!cur2.alpha.contains(c)) by {
                if cur2.alpha.contains(c) {
                    let k = choose|k: int| 0 <= k < 1 && cur2.alpha[k] == c;
                    assert(cur2.alpha[0] == c0);
                }
            }
            lemma_scan_rec_chars(rest, false, cur2, acc2, c);
        }
    }
}

/// A character that the source text does not hold does not appear in any
/// alpha run of the scanned segment.
pub proof fn lemma_parse_part_chars(s: Seq<char>, c: char)
    requires
        !s.contains(c),
    ensures
        !part_has_char(spec_parse_part(s), c),
{
    if s.len() == 0 {
    } else {
        assert(!empty_elem().alpha.contains(c));
        lemma_scan_rec_chars(s, false, empty_elem(), Seq::empty(), c);
    }
}

/// A non-digit character missing from every alpha run of a segment is
/// missing from the segment's rendered text.
pub proof fn lemma_render_part_chars(p: Seq<ElemModel>, c: char)
    requires
        !part_has_char(p, c),
        !is_digit(c),
    ensures
        !render_part(p).contains(c),
    decreases p.len(),
{
    if p.len() == 0 {
    } else {
        assert(!p[0].alpha.contains(c));
        lemma_dec_val_of_rep(p[0].numeric);
        assert(!dec_rep(p[0].numeric).contains(c)) by {
            if dec_rep(p[0].numeric).contains(c) {
                let k = choose|k: int|
                    0 <= k < dec_rep(p[0].numeric).len() && dec_rep(p[0].numeric)[k] == c;
                assert(is_digit(dec_rep(p[0].numeric)[k]));
            }
        }
        assert(!part_has_char(p.drop_first(), c)) by {
            if part_has_char(p.drop_first(), c) {
                let k = choose|k: int|
                    0 <= k < p.drop_first().len() && p.drop_first()[k].alpha.contains(c);
                assert(p[k + 1].alpha.contains(c));
            }
        }
        lemma_render_part_chars(p.drop_first(), c);
        assert(!render_part(p).contains(c)) by {
            if render_part(p).contains(c) {
                let k = choose|k: int| 0 <= k < render_part(p).len() && render_part(p)[k] == c;
                let la = p[0].alpha.len() as int;
                let ld = dec_rep(p[0].numeric).len() as int;
                if k < la {
                    assert(p[0].alpha[k] == c);
                } else if k < la + ld {
                    assert(dec_rep(p[0].numeric)[k - la] == c);
                } else {
                    assert(render_part(p.drop_first())[k - la - ld] == c);
                    assert(render_part(p.drop_first()).contains(c));
                }
            }
        }
    }
}

/// The numeric value accumulated by scanning a run of digits.
spec fn fold_digits(m: u64, d: Seq<char>) -> u64
    decreases d.len(),
{
    if d.len() == 0 {
        m
    } else {
        fold_digits(push_digit(m, d[0]), d.drop_first())
    }
}

proof fn lemma_fold_digits_push(m: u64, d: Seq<char>, c: char)
    ensures
        fold_digits(m, d.push(c)) == push_digit(fold_digits(m, d), c),
    decreases d.len(),
{
    if d.len() == 0 {
        assert(d.push(c)[0] == c);
        assert(d.push(c).drop_first() =~= Seq::<char>::empty());
        assert(fold_digits(push_digit(m, c), Seq::<char>::empty()) == push_digit(m, c));
        assert(fold_digits(m, Seq::<char>::empty()) == m);
    } else {
        assert(d.push(c)[0] == d[0]);
        assert(d.push(c).drop_first() =~= d.drop_first().push(c));
        lemma_fold_digits_push(push_digit(m, d[0]), d.drop_first(), c);
    }
}

proof fn lemma_fold_dec_rep(n: u64)
    ensures
        fold_digits(0u64, dec_rep(n)) == n,
    decreases n,
{
    assert(forall|d: u64| d < 10 ==> #[trigger] digit_val(crate::text::digit_char(d)) == d);
    if n < 10 {
        let d = dec_rep(n);
        assert(d =~= seq![crate::text::digit_char(n)]);
        assert(d.drop_first() =~= Seq::<char>::empty());
        assert(fold_digits(push_digit(0u64, crate::text::digit_char(n)), Seq::<char>::empty())
            == push_digit(0u64, crate::text::digit_char(n)));
        assert(fold_digits(0u64, d) == push_digit(0u64, crate::text::digit_char(n)));
        assert(push_digit(0u64, crate::text::digit_char(n)) == n) by {
            assert(vstd::wrapping::u64_specs::wrapping_mul(0u64, 10u64) == 0u64);
        }
    } else {
        lemma_fold_dec_rep(n / 10);
        assert(dec_rep(n) == dec_rep((n / 10) as u64).push(crate::text::digit_char(n % 10)));
        lemma_fold_digits_push(0u64, dec_rep((n / 10) as u64), crate::text::digit_char(n % 10));
        assert(push_digit((n / 10) as u64, crate::text::digit_char(n % 10)) == n) by {
            let h = (n / 10) as u64;
            assert(vstd::wrapping::u64_specs::wrapping_mul(h, 10u64) == ((h as nat * 10nat)
                % 0x1_0000_0000_0000_0000nat) as u64);
            assert(h as nat * 10nat < 0x1_0000_0000_0000_0000nat);
            assert(vstd::wrapping::u64_specs::wrapping_mul(h, 10u64) == h * 10);
            assert(h * 10 + n % 10 == n);
        }
    }
}

proof fn lemma_scan_alpha(x: Seq<char>, t: Seq<char>, in_num: bool, cur: ElemModel, acc: Seq<ElemModel>)
    requires
        forall|j: int| 0 <= j < x.len() ==> !is_digit(x[j]),
        !in_num,
    ensures
        scan_rec(x + t, in_num, cur, acc) == scan_rec(
            t,
            false,
            ElemModel { alpha: cur.alpha + x, numeric: cur.numeric },
            acc,
        ),
    decreases x.len(),
{
    if x.len() == 0 {
        assert(x + t =~= t);
        assert(cur.alpha + x =~= cur.alpha);
        assert(ElemModel { alpha: cur.alpha + x, numeric: cur.numeric } == cur);
    } else {
        let c = x[0];
        assert((x + t)[0] == c);
        assert((x + t).drop_first() =~= x.drop_first() + t);
        let cur2 = ElemModel { alpha: cur.alpha.push(c), numeric: cur.numeric };
        lemma_scan_alpha(x.drop_first(), t, false, cur2, acc);
        assert(cur2.alpha + x.drop_first() =~= cur.alpha + x);
    }
}

proof fn lemma_scan_digits(d: Seq<char>, t: Seq<char>, in_num: bool, cur: ElemModel, acc: Seq<ElemModel>)
    requires
        d.len() > 0,
        all_digits(d),
    ensures
        scan_rec(d + t, in_num, cur, acc) == scan_rec(
            t,
            true,
            ElemModel { alpha: cur.alpha, numeric: fold_digits(cur.numeric, d) },
            acc,
        ),
    decreases d.len(),
{
    let c = d[0];
    assert(is_digit(c));
    assert((d + t)[0] == c);
    assert((d + t).drop_first() =~= d.drop_first() + t);
    let cur2 = ElemModel { alpha: cur.alpha, numeric: push_digit(cur.numeric, c) };
    if d.len() == 1 {
        assert(d.drop_first() =~= Seq::<char>::empty());
        assert(d.drop_first() + t =~= t);
        assert(fold_digits(cur2.numeric, Seq::<char>::empty()) == cur2.numeric);
        assert(fold_digits(cur.numeric, d) == cur2.numeric);
    } else {
        assert(forall|j: int|
            0 <= j < d.drop_first().len() ==> #[trigger] d.drop_first()[j] == d[j + 1]);
        lemma_scan_digits(d.drop_first(), t, true, cur2, acc);
        assert(fold_digits(cur.numeric, d) == fold_digits(cur2.numeric, d.drop_first()));
    }
}

proof fn lemma_scan_render(p: Seq<ElemModel>, a: Seq<char>, acc: Seq<ElemModel>)
    requires
        p.len() > 0,
        forall|i: int| 0 <= i < p.len() ==> wf_elem_alpha(#[trigger] p[i]),
        forall|i: int| 1 <= i < p.len() ==> (#[trigger] p[i]).alpha.len() > 0,
        forall|j: int| 0 <= j < a.len() ==> !is_digit(a[j]),
    ensures
        scan_rec(render_part(p), false, ElemModel { alpha: a, numeric: 0u64 }, acc) == acc
            + p.update(0, ElemModel { alpha: a + p[0].alpha, numeric: p[0].numeric }),
    decreases p.len(),
{
    let e0 = p[0];
    let rest = p.drop_first();
    let d0 = dec_rep(e0.numeric);
    lemma_dec_val_of_rep(e0.numeric);
    assert(render_part(p) == render_elem(e0) + render_part(rest));
    assert(render_elem(e0) + render_part(rest) =~= e0.alpha + (d0 + render_part(rest)));
    lemma_scan_alpha(e0.alpha, d0 + render_part(rest), false, ElemModel { alpha: a, numeric: 0u64 }, acc);
    let cur1 = ElemModel { alpha: a + e0.alpha, numeric: 0u64 };
    lemma_scan_digits(d0, render_part(rest), false, cur1, acc);
    lemma_fold_dec_rep(e0.numeric);
    assert(fold_digits(0u64, d0) == e0.numeric);
    let cur2 = ElemModel { alpha: a + e0.alpha, numeric: e0.numeric };
    assert(scan_rec(render_part(p), false, ElemModel { alpha: a, numeric: 0u64 }, acc)
        == scan_rec(render_part(rest), true, cur2, acc));
    if rest.len() == 0 {
        assert(scan_rec(render_part(rest), true, cur2, acc) == acc.push(cur2));
        assert(acc.push(cur2) =~= acc + p.update(0, cur2));
    } else {
        let e1 = rest[0];
        assert(e1.alpha.len() > 0);
        let c = e1.alpha[0];
        assert(!is_digit(c));
        assert(render_part(rest) == render_elem(e1) + render_part(rest.drop_first()));
        assert(render_part(rest)[0] == c);
        assert(render_part(rest).len() > 0);
        let acc2 = acc.push(cur2);
        let cur3 = ElemModel { alpha: seq![c], numeric: 0u64 };
        assert(scan_rec(render_part(rest), true, cur2, acc) == scan_rec(
            render_part(rest).drop_first(),
            false,
            cur3,
            acc2,
        ));
        let e1b = ElemModel { alpha: e1.alpha.drop_first(), numeric: e1.numeric };
        let pb = rest.update(0, e1b);
        assert(pb.len() > 0);
        assert(forall|i: int| 1 <= i < pb.len() ==> #[trigger] pb[i] == rest[i]);
        assert(wf_elem_alpha(e1b)) by {
            assert(forall|j: int|
                0 <= j < e1b.alpha.len() ==> #[trigger] e1b.alpha[j] == e1.alpha[j + 1]);
        }
        assert(render_part(pb) =~= render_part(rest).drop_first()) by {
            assert(pb.drop_first() =~= rest.drop_first());
            assert(render_part(pb) == render_elem(e1b) + render_part(pb.drop_first()));
            assert(render_elem(e1) =~= seq![c] + render_elem(e1b));
            assert(render_part(rest).drop_first() =~= render_elem(e1b) + render_part(
                rest.drop_first(),
            ));
        }
        assert(seq![c] + e1b.alpha =~= e1.alpha);
        lemma_scan_render(pb, seq![c], acc2);
        assert(pb.update(0, ElemModel { alpha: seq![c] + e1b.alpha, numeric: e1b.numeric })
            =~= rest);
        assert(scan_rec(render_part(rest).drop_first(), false, cur3, acc2) == acc2 + rest);
        assert(acc2 + rest =~= acc + p.update(0, cur2));
    }
}

/// Scanning the rendered text of a well-formed segment gives that segment
/// back: the segment level of the round trip.
pub proof fn lemma_part_round_trip(p: Seq<ElemModel>)
    requires
        wf_part(p),
    ensures
        spec_parse_part(render_part(p)) == p,
{
    if p.len() == 0 {
        assert(spec_parse_part(render_part(p)) =~= p);
    } else {
        lemma_dec_val_of_rep(p[0].numeric);
        assert(render_part(p) == render_elem(p[0]) + render_part(p.drop_first()));
        assert(render_part(p).len() > 0);
        lemma_scan_render(p, Seq::empty(), Seq::empty());
        assert(Seq::empty() + p[0].alpha =~= p[0].alpha);
        assert(ElemModel {
            alpha: Seq::empty() + p[0].alpha,
            numeric: p[0].numeric,
        } == p[0]);
        assert(p.update(0, p[0]) =~= p);
        assert(Seq::<ElemModel>::empty() + p.update(0, p[0]) =~= p);
    }
}

/// Rendering a well-formed version value and parsing the text back yields
/// the value itself, provided the text is unambiguous: a version without an
/// epoch must not carry a colon in its runs, and a version without a
/// revision must not carry a dash in its upstream runs.
pub proof fn lemma_version_render_parse(v: VersionModel)
    requires
        wf_part(v.upstream),
        wf_part(v.revision),
        !part_has_char(v.revision, '-'),
        v.epoch == 0 ==> !part_has_char(v.upstream, ':') && !part_has_char(v.revision, ':'),
        v.revision.len() == 0 ==> !part_has_char(v.upstream, '-'),
    ensures
        spec_parse_version(render_version(v)) == Some(v),
{
    let up = render_part(v.upstream);
    let rev = render_part(v.revision);
    let r = render_version(v);
    assert(!is_digit('-'));
    assert(!is_digit(':'));
    lemma_render_part_chars(v.revision, '-');
    lemma_part_round_trip(v.upstream);
    lemma_part_round_trip(v.revision);
    if v.epoch == 0 {
        lemma_render_part_chars(v.upstream, ':');
        lemma_render_part_chars(v.revision, ':');
        if v.revision.len() == 0 {
            lemma_render_part_chars(v.upstream, '-');
            assert(r == up);
            assert(forall|j: int| 0 <= j < r.len() ==> r[j] != ':') by {
                assert(forall|j: int| 0 <= j < up.len() ==> up.contains(#[trigger] up[j]));
            }
            assert(forall|j: int| 0 <= j < r.len() ==> r[j] != '-') by {
                assert(forall|j: int| 0 <= j < up.len() ==> up.contains(#[trigger] up[j]));
            }
            lemma_find_char_absent(r, ':');
            lemma_find_char_absent(r, '-');
            let w = split_upstream_revision(r, 0, 0);
            assert(r.subrange(0, r.len() as int) =~= up);
            assert(w.upstream == v.upstream);
            assert(w.revision =~= v.revision);
        } else {
            assert(r == up + seq!['-'] + rev);
            assert(forall|j: int| 0 <= j < up.len() ==> up.contains(#[trigger] up[j]));
            assert(forall|j: int| 0 <= j < rev.len() ==> rev.contains(#[trigger] rev[j]));
            assert(forall|j: int| 0 <= j < r.len() ==> r[j] != ':') by {
                assert(forall|j: int| 0 <= j < up.len() ==> r[j] == up[j]);
                assert(r[up.len() as int] == '-');
                assert(forall|j: int|
                    up.len() + 1 <= j < r.len() ==> r[j] == rev[j - up.len() - 1]);
            }
            lemma_find_char_absent(r, ':');
            assert(r[up.len() as int] == '-');
            assert(forall|j: int| up.len() < j < r.len() ==> r[j] != '-') by {
                assert(forall|j: int|
                    up.len() + 1 <= j < r.len() ==> r[j] == rev[j - up.len() - 1]);
            }
            lemma_rfind_char_is(r, '-', up.len() as int);
            let w = split_upstream_revision(r, 0, 0);
            assert(r.subrange(0, up.len() as int) =~= up);
            assert(r.subrange(up.len() as int + 1, r.len() as int) =~= rev);
            assert(w.upstream == v.upstream);
            assert(w.revision == v.revision);
        }
    } else {
        let d = dec_rep(v.epoch as u64);
        lemma_dec_val_of_rep(v.epoch as u64);
        let base = if v.revision.len() == 0 {
            up
        } else {
            up + seq!['-'] + rev
        };
        assert(r == d + seq![':'] + base);
        let dl = d.len() as int;
        assert(forall|j: int| 0 <= j < dl ==> r[j] == d[j]);
        assert(r[dl] == ':');
        assert(forall|j: int| 0 <= j < dl ==> is_digit(#[trigger] r[j]));
        assert(forall|j: int| 0 <= j < dl ==> r[j] != ':');
        lemma_find_char_is(r, ':', dl);
        assert(r.take(dl) =~= d);
        assert(valid_epoch(r.take(dl)));
        assert(dec_val(r.take(dl)) as u32 == v.epoch);
        assert(forall|j: int| dl + 1 <= j < r.len() ==> r[j] == base[j - dl - 1]);
        if v.revision.len() == 0 {
            lemma_render_part_chars(v.upstream, '-');
            assert(forall|j: int| 0 <= j < up.len() ==> up.contains(#[trigger] up[j]));
            assert(forall|j: int| 0 <= j < r.len() ==> r[j] != '-');
            lemma_find_char_absent(r, '-');
            let w = split_upstream_revision(r, dl + 1, v.epoch);
            assert(r.subrange(dl + 1, r.len() as int) =~= up);
            assert(w.upstream == v.upstream);
            assert(w.revision =~= v.revision);
        } else {
            assert(forall|j: int| 0 <= j < rev.len() ==> rev.contains(#[trigger] rev[j]));
            let sep = dl + 1 + up.len() as int;
            assert(base[up.len() as int] == '-');
            assert(r[sep] == '-');
            assert(forall|j: int| sep < j < r.len() ==> r[j] == rev[j - sep - 1]);
            assert(forall|j: int| sep < j < r.len() ==> r[j] != '-');
            lemma_rfind_char_is(r, '-', sep);
            let w = split_upstream_revision(r, dl + 1, v.epoch);
            assert(forall|j: int| 0 <= j < up.len() ==> base[j] == up[j]);
            assert(r.subrange(dl + 1, sep) =~= up);
            assert(r.subrange(sep + 1, r.len() as int) =~= rev);
            assert(w.upstream == v.upstream);
            assert(w.revision == v.revision);
        }
    }
}

/// The round-trip law on strings: when parsing succeeds, rendering the
/// parsed version gives text that parses back to an equal version. The two
/// ambiguous shapes are excluded: an input whose upstream text carries a
/// colon although its epoch is zero, and one whose upstream text carries a
/// dash although its revision is empty.
pub proof fn lemma_version_round_trip(s: Seq<char>)
    requires
        spec_parse_version(s) is Some,
        spec_parse_version(s)->0.epoch == 0 ==> !part_has_char(
            spec_parse_version(s)->0.upstream,
            ':',
        ) && !part_has_char(spec_parse_version(s)->0.revision, ':'),
        spec_parse_version(s)->0.revision.len() == 0 ==> !part_has_char(
            spec_parse_version(s)->0.upstream,
            '-',
        ),
    ensures
        spec_parse_version(render_version(spec_parse_version(s)->0)) == spec_parse_version(s),
{
    let v = spec_parse_version(s)->0;
    lemma_find_char(s, ':');
    lemma_rfind_char(s, '-');
    assert(wf_part(v.upstream) && wf_part(v.revision) && !part_has_char(v.revision, '-')) by {
        match find_char(s, ':') {
            Some(l) => {
                match rfind_char(s, '-') {
                    Some(r) => {
                        lemma_parse_part_wf(s.subrange(l + 1, r));
                        lemma_parse_part_wf(s.subrange(r + 1, s.len() as int));
                        let tail = s.subrange(r + 1, s.len() as int);
                        assert(!tail.contains('-')) by {
                            if tail.contains('-') {
                                let k = choose|k: int| 0 <= k < tail.len() && tail[k] == '-';
                                assert(s[r + 1 + k] == '-');
                            }
                        }
                        lemma_parse_part_chars(tail, '-');
                    },
                    None => {
                        lemma_parse_part_wf(s.subrange(l + 1, s.len() as int));
                    },
                }
            },
            None => {
                match rfind_char(s, '-') {
                    Some(r) => {
                        lemma_parse_part_wf(s.subrange(0, r));
                        lemma_parse_part_wf(s.subrange(r + 1, s.len() as int));
                        let tail = s.subrange(r + 1, s.len() as int);
                        assert(!tail.contains('-')) by {
                            if tail.contains('-') {
                                let k = choose|k: int| 0 <= k < tail.len() && tail[k] == '-';
                                assert(s[r + 1 + k] == '-');
                            }
                        }
                        lemma_parse_part_chars(tail, '-');
                    },
                    None => {
                        lemma_parse_part_wf(s.subrange(0, s.len() as int));
                    },
                }
            },
        }
    }
    lemma_version_render_parse(v);
}

} // verus!
