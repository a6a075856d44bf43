//! The read side: filtering partitions by month, ordering them most
//! recent first, and rendering them with each partition's lines reversed
//! so the newest entry of a month comes first.

use vstd::prelude::*;
use crate::nums::{num_ok, digits_val, parse_digits, u64_chars};
use crate::store::month_key;
use crate::text::{
    first_occ, find_char, lines_of, join_nl, string_to_chars, chars_to_string, split_lines,
    join_lines, reversed,
};

verus! {

/// A partition key `"{year}_{month}"` parsed back into its two numbers;
/// `None` for any string not of that shape (the numeric parts must be
/// well-formed digit strings as `num_ok` describes, the year possibly
/// signed).
pub open spec fn key_parse(s: Seq<char>) -> Option<(int, int)> {
    let u = first_occ(s, '_') as int;
    if u >= s.len() {
        None
    } else {
        let ys = s.subrange(0, u);
        let ms = s.subrange(u + 1, s.len() as int);
        if !num_ok(ms) {
            None
        } else if num_ok(ys) {
            Some((digits_val(ys) as int, digits_val(ms) as int))
        } else if ys.len() > 1 && ys[0] == '-' && num_ok(ys.drop_first()) {
            Some((-(digits_val(ys.drop_first()) as int), digits_val(ms) as int))
        } else {
            None
        }
    }
}

/// Parses a partition key, as `key_parse` describes.
pub fn parse_key(key: &Vec<char>) -> (r: Option<(i64, u64)>)
    ensures
        ({
            let p = key_parse(key@);
            match (r, p) {
                (Some((y, m)), Some((ys, ms))) => y as int == ys && m as int == ms,
                (None, None) => true,
                _ => false,
            }
        }),
{
    let u = find_char(key, '_');
    proof {
        crate::text::lemma_first_occ(key@, '_');
    }
    if u >= key.len() {
        return None;
    }
    let ghost ys = key@.subrange(0, u as int);
    let ghost ms = key@.subrange(u as int + 1, key@.len() as int);
    let m = match parse_digits(key, u + 1, key.len()) {
        Some(m) => m,
        None => {
            return None;
        },
    };
    if key[0] == '-' {
        proof {
            assert(ys.len() == u);
            if u >= 1 {
                assert(ys[0] == '-');
                assert(crate::nums::digit_val(ys[0]) == 10);
            }
            assert(u >= 1);
            assert(!num_ok(ys));
            assert(ys.drop_first() =~= key@.subrange(1, u as int));
        }
        if u < 2 {
            proof {
                assert(!(ys.len() > 1));
            }
            return None;
        }
        match parse_digits(key, 1, u) {
            Some(y) => Some((-(y as i64), m)),
            None => None,
        }
    } else {
        proof {
            if u >= 1 {
                assert(ys[0] == key@[0]);
            }
            assert(!(ys.len() > 1 && ys[0] == '-'));
        }
        match parse_digits(key, 0, u) {
            Some(y) => Some((y as i64, m)),
            None => None,
        }
    }
}

/// Whether the partition under key `a` displays strictly before the one
/// under key `b`: parsed keys order by `(year, month)` descending, and a
/// key that does not parse displays after every key that does.
pub open spec fn key_before(a: Seq<char>, b: Seq<char>) -> bool {
    match (key_parse(a), key_parse(b)) {
        (Some(x), Some(y)) => x.0 > y.0 || (x.0 == y.0 && x.1 > y.1),
        (Some(x), None) => true,
        (None, _) => false,
    }
}

/// Decides `key_before` on two keys.
fn key_displays_before(a: &String, b: &String) -> (r: bool)
    ensures
        r == key_before(a@, b@),
{
    let ca = string_to_chars(a.as_str());
    let cb = string_to_chars(b.as_str());
    let pa = parse_key(&ca);
    let pb = parse_key(&cb);
    match (pa, pb) {
        (Some((ya, ma)), Some((yb, mb))) => ya > yb || (ya == yb && ma > mb),
        (Some(_), None) => true,
        (None, _) => false,
    }
}

/// The partitions whose key is exactly `k`, in their given order.
pub open spec fn filter_by_key(ps: Seq<(Seq<char>, Seq<char>)>, k: Seq<char>) -> Seq<
    (Seq<char>, Seq<char>),
>
    decreases ps.len(),
{
    if ps.len() == 0 {
        Seq::empty()
    } else {
        let rest = filter_by_key(ps.drop_last(), k);
        if ps.last().0 == k {
            rest.push(ps.last())
        } else {
            rest
        }
    }
}

/// The partitions for one month: those whose key equals
/// `"{year}_{month}"`, order kept (at most one normally exists).
pub fn history_for(parts: &Vec<(String, String)>, year: u64, month: u64) -> (r: Vec<
    (String, String),
>)
    ensures
        r.deep_view() == filter_by_key(parts.deep_view(), month_key(year as int, month as int)),
{
    let ghost dv = parts.deep_view();
    let ghost k = month_key(year as int, month as int);
    let mut kv = u64_chars(year);
    kv.push('_');
    let mut mv = u64_chars(month);
    kv.append(&mut mv);
    proof {
        assert(kv@ =~= k);
    }
    let key = chars_to_string(&kv);
    let mut r: Vec<(String, String)> = Vec::new();
    let mut i: usize = 0;
    proof {
        assert(dv.subrange(0, 0) =~= Seq::<(Seq<char>, Seq<char>)>::empty());
        assert(r.deep_view() =~= filter_by_key(dv.subrange(0, 0), k));
    }
    while i < parts.len()
        invariant
            i <= parts@.len(),
            dv == parts.deep_view(),
            k == month_key(year as int, month as int),
            key@ == k,
            r.deep_view() == filter_by_key(dv.subrange(0, i as int), k),
        decreases parts@.len() - i,
    {
        let ghost pre = dv.subrange(0, i as int);
        let ghost pre1 = dv.subrange(0, i + 1);
        proof {
            assert(pre1.drop_last() =~= pre);
            assert(pre1.last() == dv[i as int]);
            assert(dv[i as int].0 == parts@[i as int].0@);
        }
        let p = &parts[i];
        if p.0.eq(&key) {
            let ghost r0 = r.deep_view();
            r.push((p.0.clone(), p.1.clone()));
            proof {
                assert(r.deep_view() =~~= r0.push(dv[i as int]));
            }
        }
        i = i + 1;
    }
    proof {
        assert(dv.subrange(0, dv.len() as int) =~= dv);
    }
    r
}

/// Stable insertion of `x` into a run already in display order: `x` goes
/// after every element it does not strictly precede.
pub open spec fn insert_pair(
    x: (Seq<char>, Seq<char>),
    s: Seq<(Seq<char>, Seq<char>)>,
) -> Seq<(Seq<char>, Seq<char>)>
    decreases s.len(),
{
    if s.len() == 0 {
        seq![x]
    } else if key_before(x.0, s[0].0) {
        seq![x] + s
    } else {
        seq![s[0]] + insert_pair(x, s.drop_first())
    }
}

/// The display order of a set of partitions: insertion sort by
/// `key_before`, stable for equal ranks.
pub open spec fn sort_pairs(s: Seq<(Seq<char>, Seq<char>)>) -> Seq<(Seq<char>, Seq<char>)>
    decreases s.len(),
{
    if s.len() == 0 {
        Seq::empty()
    } else {
        insert_pair(s.last(), sort_pairs(s.drop_last()))
    }
}

/// A run of partitions in display order: no later one strictly precedes
/// an earlier one.
pub open spec fn display_sorted(s: Seq<(Seq<char>, Seq<char>)>) -> bool {
    forall|i: int, j: int| 0 <= i < j < s.len() ==> !key_before(s[j].0, s[i].0)
}

proof fn lemma_key_before_asym(a: Seq<char>, b: Seq<char>)
    requires
        key_before(a, b),
    ensures
        !key_before(b, a),
{
}

proof fn lemma_key_before_step(a: Seq<char>, b: Seq<char>, c: Seq<char>)
    requires
        key_before(a, b),
        !key_before(c, b),
    ensures
        !key_before(c, a),
{
}

proof fn lemma_insert_pair_multiset(x: (Seq<char>, Seq<char>), s: Seq<(Seq<char>, Seq<char>)>)
    ensures
        insert_pair(x, s).to_multiset() == s.to_multiset().insert(x),
    decreases s.len(),
{
    broadcast use vstd::seq_lib::group_to_multiset_ensures;

    if s.len() == 0 {
        assert(seq![x] =~= s.push(x));
        assert(insert_pair(x, s).to_multiset() =~= s.to_multiset().insert(x));
    } else if key_before(x.0, s[0].0) {
        assert(seq![x] + s =~= s.insert(0, x));
        assert(insert_pair(x, s).to_multiset() =~= s.to_multiset().insert(x));
    } else {
        let t = s.drop_first();
        lemma_insert_pair_multiset(x, t);
        assert(seq![s[0]] + insert_pair(x, t) =~= insert_pair(x, t).insert(0, s[0]));
        assert(insert_pair(x, s).to_multiset() =~= insert_pair(x, t).to_multiset().insert(s[0]));
        assert(s =~= t.insert(0, s[0]));
        assert(s.to_multiset() =~= t.to_multiset().insert(s[0]));
        assert(insert_pair(x, s).to_multiset() =~= t.to_multiset().insert(x).insert(s[0]));
        assert(t.to_multiset().insert(x).insert(s[0]) =~= t.to_multiset().insert(s[0]).insert(x));
    }
}

proof fn lemma_insert_pair_sorted(x: (Seq<char>, Seq<char>), s: Seq<(Seq<char>, Seq<char>)>)
    requires
        display_sorted(s),
    ensures
        display_sorted(insert_pair(x, s)),
    decreases s.len(),
{
    broadcast use vstd::seq_lib::group_to_multiset_ensures;

    if s.len() == 0 {
    } else if key_before(x.0, s[0].0) {
        let r = seq![x] + s;
        assert forall|i: int, j: int| 0 <= i < j < r.len() implies !key_before(
            r[j].0,
            r[i].0,
        ) by {
            if i == 0 {
                if j == 1 {
                    lemma_key_before_asym(x.0, s[0].0);
                } else {
                    assert(!key_before(s[j - 1].0, s[0].0));
                    lemma_key_before_step(x.0, s[0].0, s[j - 1].0);
                }
            } else {
                assert(!key_before(s[j - 1].0, s[i - 1].0));
            }
        }
    } else {
        let t = s.drop_first();
        assert forall|i: int, j: int| 0 <= i < j < t.len() implies !key_before(
            t[j].0,
            t[i].0,
        ) by {
            assert(t[i] == s[i + 1]);
            assert(t[j] == s[j + 1]);
        }
        lemma_insert_pair_sorted(x, t);
        lemma_insert_pair_multiset(x, t);
        let w = insert_pair(x, t);
        let r = seq![s[0]] + w;
        assert(insert_pair(x, s) == r);
        assert forall|i: int, j: int| 0 <= i < j < r.len() implies !key_before(
            r[j].0,
            r[i].0,
        ) by {
            if i == 0 {
                let y = r[j];
                assert(w.contains(y));
                assert(w.to_multiset().count(y) > 0);
                if y == x {
                    assert(!key_before(x.0, s[0].0));
                } else {
                    assert(t.to_multiset().count(y) > 0);
                    assert(t.contains(y));
                    let j0 = choose|j0: int| 0 <= j0 < t.len() && t[j0] == y;
                    assert(t[j0] == s[j0 + 1]);
                    assert(!key_before(s[j0 + 1].0, s[0].0));
                }
            } else {
                assert(r[i] == w[i - 1]);
                assert(r[j] == w[j - 1]);
            }
        }
    }
}

/// The display order law: sorting loses and invents no partition, and
/// afterwards no later partition strictly precedes an earlier one under
/// the descending `(year, month)` order of `key_before`.
pub proof fn lemma_sort_pairs_ordered(s: Seq<(Seq<char>, Seq<char>)>)
    ensures
        display_sorted(sort_pairs(s)),
        sort_pairs(s).to_multiset() == s.to_multiset(),
    decreases s.len(),
{
    broadcast use vstd::seq_lib::group_to_multiset_ensures;

    if s.len() > 0 {
        lemma_sort_pairs_ordered(s.drop_last());
        lemma_insert_pair_sorted(s.last(), sort_pairs(s.drop_last()));
        lemma_insert_pair_multiset(s.last(), sort_pairs(s.drop_last()));
        assert(s.drop_last().push(s.last()) =~= s);
        assert(s.drop_last().to_multiset().insert(s.last()) =~= s.to_multiset());
    }
}

proof fn lemma_insert_pair_at(
    x: (Seq<char>, Seq<char>),
    s: Seq<(Seq<char>, Seq<char>)>,
    idx: int,
)
    requires
        0 <= idx <= s.len(),
        forall|j: int| 0 <= j < idx ==> !key_before(x.0, s[j].0),
        idx < s.len() ==> key_before(x.0, s[idx].0),
    ensures
        insert_pair(x, s) == s.subrange(0, idx) + seq![x] + s.subrange(idx, s.len() as int),
    decreases s.len(),
{
    if s.len() == 0 {
        assert(insert_pair(x, s) =~= s.subrange(0, idx) + seq![x] + s.subrange(
            idx,
            s.len() as int,
        ));
    } else if idx == 0 {
        assert(insert_pair(x, s) =~= s.subrange(0, 0) + seq![x] + s.subrange(0, s.len() as int));
    } else {
        assert(!key_before(x.0, s[0].0));
        let t = s.drop_first();
        assert forall|j: int| 0 <= j < idx - 1 implies !key_before(x.0, t[j].0) by {
            assert(t[j] == s[j + 1]);
        }
        if idx - 1 < t.len() {
            assert(t[idx - 1] == s[idx]);
        }
        lemma_insert_pair_at(x, t, idx - 1);
        assert(insert_pair(x, s) == seq![s[0]] + (t.subrange(0, idx - 1) + seq![x] + t.subrange(
            idx - 1,
            t.len() as int,
        )));
        assert(seq![s[0]] + (t.subrange(0, idx - 1) + seq![x] + t.subrange(idx - 1, t.len() as int))
            =~= s.subrange(0, idx) + seq![x] + s.subrange(idx, s.len() as int));
    }
}

/// Inserts `p` into the sorted run `v`, as `insert_pair` describes.
fn insert_sorted(v: &mut Vec<(String, String)>, p: (String, String))
    ensures
        final (v).deep_view() == insert_pair(p.deep_view(), old(v).deep_view()),
{
    let ghost dv = old(v).deep_view();
    let mut idx: usize = 0;
    let mut stop = false;
    while idx < v.len() && !stop
        invariant
            idx <= v@.len(),
            v == old(v),
            dv == v.deep_view(),
            forall|j: int| 0 <= j < idx ==> !key_before(p.deep_view().0, dv[j].0),
            stop ==> idx < v@.len() && key_before(p.deep_view().0, dv[idx as int].0),
        decreases v@.len() - idx + if stop {
            0int
        } else {
            1int
        },
    {
        let q = &v[idx];
        proof {
            assert(dv[idx as int].0 == v@[idx as int].0@);
        }
        if key_displays_before(&p.0, &q.0) {
            stop = true;
        } else {
            idx = idx + 1;
        }
    }
    proof {
        lemma_insert_pair_at(p.deep_view(), dv, idx as int);
    }
    let ghost x = p.deep_view();
    v.insert(idx, p);
    proof {
        assert(v.deep_view() =~~= dv.subrange(0, idx as int) + seq![x] + dv.subrange(
            idx as int,
            dv.len() as int,
        ));
    }
}

/// One rendered partition: its key, a colon and newline, then its lines
/// newest first.
pub open spec fn render_pair(p: (Seq<char>, Seq<char>)) -> Seq<char> {
    p.0 + seq![':', '\n'] + join_nl(lines_of(p.1).reverse())
}

/// Each partition of a run rendered by `render_pair`, order kept.
pub open spec fn rendered(ps: Seq<(Seq<char>, Seq<char>)>) -> Seq<Seq<char>>
    decreases ps.len(),
{
    if ps.len() == 0 {
        Seq::empty()
    } else {
        rendered(ps.drop_last()).push(render_pair(ps.last()))
    }
}

/// The rendered history: partitions in display order, each rendered by
/// `render_pair`, joined by newlines.
pub open spec fn render_spec(ps: Seq<(Seq<char>, Seq<char>)>) -> Seq<char> {
    join_nl(rendered(sort_pairs(ps)))
}

/// Renders one partition, as `render_pair` describes.
fn render_one(p: &(String, String)) -> (r: Vec<char>)
    ensures
        r@ == render_pair(p.deep_view()),
{
    let mut out = string_to_chars(p.0.as_str());
    out.push(':');
    out.push('\n');
    let cc = string_to_chars(p.1.as_str());
    let lines = split_lines(&cc);
    let ghost ldv = lines.deep_view();
    let rev = reversed(lines);
    proof {
        assert(rev.deep_view() =~~= ldv.reverse());
    }
    let mut joined = join_lines(&rev);
    out.append(&mut joined);
    proof {
        assert(out@ =~= render_pair(p.deep_view()));
    }
    out
}

/// Renders a set of partitions for display, as `render_spec` describes:
/// most recent month first, and within each month the most recent entry
/// line first.
pub fn get_history_string(all_hists: Vec<(String, String)>) -> (r: String)
    ensures
        r@ == render_spec(all_hists.deep_view()),
{
    let ghost dv0 = all_hists.deep_view();
    let mut rest = all_hists;
    let mut sorted: Vec<(String, String)> = Vec::new();
    let ghost total = dv0.len() as int;
    proof {
        assert(dv0.subrange(0, 0) =~= Seq::<(Seq<char>, Seq<char>)>::empty());
        assert(rest.deep_view() =~= dv0.subrange(0, total));
    }
    while rest.len() > 0
        invariant
            total == dv0.len(),
            rest@.len() <= total,
            rest.deep_view() == dv0.subrange(total - rest@.len(), total),
            sorted.deep_view() == sort_pairs(dv0.subrange(0, total - rest@.len())),
        decreases rest@.len(),
    {
        let ghost k = total - rest@.len();
        let ghost rv0 = rest@;
        let ghost rdv = rest.deep_view();
        let p = rest.remove(0);
        proof {
            assert(p == rv0[0]);
            assert(p.deep_view() == rdv[0]);
            assert(rdv[0] == dv0[k]);
            assert forall|j: int| 0 <= j < rest@.len() implies #[trigger] rest.deep_view()[j]
                == rdv[j + 1] by {
                assert(rest@[j] == rv0[j + 1]);
            }
            assert(rest.deep_view() =~~= dv0.subrange(k + 1, total));
            assert(dv0.subrange(0, k + 1).drop_last() =~= dv0.subrange(0, k));
            assert(dv0.subrange(0, k + 1).last() == dv0[k]);
        }
        insert_sorted(&mut sorted, p);
    }
    proof {
        assert(dv0.subrange(0, total) =~= dv0);
    }
    let mut pieces: Vec<Vec<char>> = Vec::new();
    let ghost sdv = sorted.deep_view();
    let mut i: usize = 0;
    proof {
        assert(sdv.subrange(0, 0) =~= Seq::<(Seq<char>, Seq<char>)>::empty());
        assert(pieces.deep_view() =~= rendered(sdv.subrange(0, 0)));
    }
    while i < sorted.len()
        invariant
            i <= sorted@.len(),
            sdv == sorted.deep_view(),
            pieces.deep_view() == rendered(sdv.subrange(0, i as int)),
        decreases sorted@.len() - i,
    {
        let ghost p0 = pieces.deep_view();
        let piece = render_one(&sorted[i]);
        proof {
            assert(sorted@[i as int].deep_view() == sdv[i as int]);
        }
        pieces.push(piece);
        proof {
            assert(sdv.subrange(0, i + 1).drop_last() =~= sdv.subrange(0, i as int));
            assert(sdv.subrange(0, i + 1).last() == sdv[i as int]);
            assert(pieces.deep_view() =~~= rendered(sdv.subrange(0, i + 1)));
        }
        i = i + 1;
    }
    proof {
        assert(sdv.subrange(0, sdv.len() as int) =~= sdv);
    }
    let all = join_lines(&pieces);
    chars_to_string(&all)
}

/// The content of a partition after a series of entry lines was appended
/// to it in order, each line newline-terminated.
pub open spec fn terminated(entries: Seq<Seq<char>>) -> Seq<char>
    decreases entries.len(),
{
    if entries.len() == 0 {
        Seq::empty()
    } else {
        entries.first() + seq!['\n'] + terminated(entries.drop_first())
    }
}

proof fn lemma_lines_of_terminated(entries: Seq<Seq<char>>)
    requires
        forall|i: int| 0 <= i < entries.len() ==> crate::text::nl_free(#[trigger] entries[i]),
    ensures
        lines_of(terminated(entries)) == entries,
    decreases entries.len(),
{
    if entries.len() == 0 {
        assert(lines_of(terminated(entries)) =~= entries);
    } else {
        let rest = entries.drop_first();
        assert forall|i: int| 0 <= i < rest.len() implies crate::text::nl_free(
            #[trigger] rest[i],
        ) by {
            assert(rest[i] == entries[i + 1]);
        }
        crate::text::lemma_lines_unfold(entries.first(), terminated(rest));
        lemma_lines_of_terminated(rest);
        assert(seq![entries.first()] + rest =~= entries);
    }
}

/// Round trip: entry lines appended within one calendar month, queried
/// back for that month, render as the month's key and then the lines in
/// exactly the reverse of their append order.
pub proof fn lemma_history_round_trip(year: int, month: int, entries: Seq<Seq<char>>)
    requires
        forall|i: int| 0 <= i < entries.len() ==> crate::text::nl_free(#[trigger] entries[i]),
    ensures
        ({
            let key = month_key(year, month);
            render_spec(filter_by_key(seq![(key, terminated(entries))], key)) == key + seq![
                ':',
                '\n',
            ] + join_nl(entries.reverse())
        }),
{
    let key = month_key(year, month);
    let p = (key, terminated(entries));
    let ps = seq![p];
    assert(ps.drop_last() =~= Seq::<(Seq<char>, Seq<char>)>::empty());
    assert(ps.last() == p);
    assert(filter_by_key(Seq::<(Seq<char>, Seq<char>)>::empty(), key)
        == Seq::<(Seq<char>, Seq<char>)>::empty());
    assert(filter_by_key(ps, key) =~= Seq::<(Seq<char>, Seq<char>)>::empty().push(p));
    assert(Seq::<(Seq<char>, Seq<char>)>::empty().push(p) =~= ps);
    assert(filter_by_key(ps, key) == ps);
    assert(sort_pairs(Seq::<(Seq<char>, Seq<char>)>::empty())
        == Seq::<(Seq<char>, Seq<char>)>::empty());
    assert(sort_pairs(ps) == insert_pair(p, sort_pairs(ps.drop_last())));
    assert(sort_pairs(ps) == seq![p]);
    assert(rendered(Seq::<(Seq<char>, Seq<char>)>::empty()) == Seq::<Seq<char>>::empty());
    assert(seq![p].drop_last() =~= Seq::<(Seq<char>, Seq<char>)>::empty());
    assert(seq![p].last() == p);
    assert(rendered(seq![p]) =~= seq![render_pair(p)]);
    assert(join_nl(seq![render_pair(p)]) == render_pair(p));
    lemma_lines_of_terminated(entries);
    assert(render_pair(p) == key + seq![':', '\n'] + join_nl(entries.reverse()));
}

} // verus!
