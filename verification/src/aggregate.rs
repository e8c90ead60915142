//! Merging discovery results into one deduplicated, deterministically
//! ordered report.
//!
//! Every address is rendered to its display text; identical renderings
//! are kept once, in first-seen order. Small reports keep that order;
//! reports with more than [`SORT_THRESHOLD`] entries are sorted
//! lexicographically before being joined with newlines, so large output
//! is deterministic and diff-friendly. The size switch is deliberate:
//! do not replace it with always-sort or never-sort.

use vstd::prelude::*;
use vstd::multiset::Multiset;
use vstd::relations::sorted_by;
use vstd::seq_lib::lemma_sorted_unique;
use crate::AllSourcesFailed;
use crate::MyIps;
use crate::PathError;
use crate::myip::MyIp;
use crate::text::{
    join_with, lemma_join_push, lemma_text_le_connected, lemma_text_le_reflexive,
    lemma_text_le_total_ordering, lemma_text_le_transitive, str_le, text_le, text_le_fn,
};

verus! {

/// Reports with more entries than this are sorted before printing.
pub const SORT_THRESHOLD: usize = 5;

/// The texts of a sequence of strings.
pub open spec fn views_of(v: Seq<String>) -> Seq<Seq<char>> {
    v.map_values(|s: String| s@)
}

/// The display texts of one address collection, in order.
pub open spec fn display_texts(c: Seq<MyIp>) -> Seq<Seq<char>> {
    c.map_values(|m: MyIp| m.display_text())
}

/// The display texts of several address collections, one after another.
pub open spec fn all_display_texts(cs: Seq<Seq<MyIp>>) -> Seq<Seq<char>>
    decreases cs.len(),
{
    if cs.len() == 0 {
        Seq::empty()
    } else {
        display_texts(cs.first()) + all_display_texts(cs.drop_first())
    }
}

/// The inner views of a sequence of vectors of addresses.
pub open spec fn collection_views(cs: Seq<Vec<MyIp>>) -> Seq<Seq<MyIp>> {
    cs.map_values(|c: Vec<MyIp>| c@)
}

/// The given texts with every repeated text dropped, keeping the first
/// occurrence of each and the order of first occurrences.
pub open spec fn first_seen_dedup(s: Seq<Seq<char>>) -> Seq<Seq<char>>
    decreases s.len(),
{
    if s.len() == 0 {
        Seq::empty()
    } else {
        let rest = first_seen_dedup(s.drop_last());
        if rest.contains(s.last()) {
            rest
        } else {
            rest.push(s.last())
        }
    }
}

/// Deduplication keeps exactly the distinct texts: the result holds a
/// text if and only if the input does, and holds no text twice.
pub proof fn lemma_dedup_distinct(s: Seq<Seq<char>>)
    ensures
        forall|x: Seq<char>| first_seen_dedup(s).contains(x) <==> s.contains(x),
        forall|i: int, j: int|
            0 <= i < j < first_seen_dedup(s).len() ==> first_seen_dedup(s)[i] != first_seen_dedup(
                s,
            )[j],
    decreases s.len(),
{
    if s.len() == 0 {
    } else {
        lemma_dedup_distinct(s.drop_last());
        let rest = first_seen_dedup(s.drop_last());
        assert forall|x: Seq<char>| first_seen_dedup(s).contains(x) implies s.contains(x) by {
            if rest.contains(x) {
                assert(s.drop_last().contains(x));
                let i = choose|i: int| 0 <= i < s.drop_last().len() && s.drop_last()[i] == x;
                assert(s[i] == x);
            } else {
                assert(x == s.last());
            }
        }
        assert forall|x: Seq<char>| s.contains(x) implies first_seen_dedup(s).contains(x) by {
            let i = choose|i: int| 0 <= i < s.len() && s[i] == x;
            if i < s.len() - 1 {
                assert(s.drop_last()[i] == x);
                assert(s.drop_last().contains(x));
                assert(rest.contains(x));
                let j = choose|j: int| 0 <= j < rest.len() && rest[j] == x;
                if !rest.contains(s.last()) {
                    assert(rest.push(s.last())[j] == x);
                    assert(first_seen_dedup(s).contains(x));
                }
            } else {
                assert(x == s.last());
                if !rest.contains(x) {
                    let d = first_seen_dedup(s);
                    assert(d == rest.push(x));
                    assert(d[d.len() - 1] == x);
                }
            }
        }
    }
}

/// The unique display lines of the given collections, in first-seen
/// order. This is the set the aggregator prints: one line per distinct
/// rendering, however many paths produced it.
pub fn process_ips(collections: &Vec<Vec<MyIp>>) -> (r: Vec<String>)
    ensures
        views_of(r@) == first_seen_dedup(all_display_texts(collection_views(collections@))),
{
    let lines = display_lines(collections);
    dedup_lines(lines)
}

/// Appending one collection appends its display texts.
proof fn lemma_all_display_push(cs: Seq<Seq<MyIp>>, c: Seq<MyIp>)
    ensures
        all_display_texts(cs.push(c)) == all_display_texts(cs) + display_texts(c),
    decreases cs.len(),
{
    if cs.len() == 0 {
        assert(cs.push(c).first() == c);
        assert(cs.push(c).drop_first() =~= Seq::empty());
        assert(all_display_texts(cs.push(c)) == display_texts(c) + all_display_texts(
            Seq::empty(),
        ));
        assert(display_texts(c) + Seq::<Seq<char>>::empty() =~= display_texts(c));
        assert(all_display_texts(cs) + display_texts(c) =~= display_texts(c));
    } else {
        lemma_all_display_push(cs.drop_first(), c);
        assert(cs.push(c).drop_first() =~= cs.drop_first().push(c));
        assert(cs.push(c).first() == cs.first());
        assert(all_display_texts(cs.push(c)) == display_texts(cs.first()) + all_display_texts(
            cs.drop_first().push(c),
        ));
        assert(all_display_texts(cs) + display_texts(c) =~= display_texts(cs.first()) + (
        all_display_texts(cs.drop_first()) + display_texts(c)));
    }
}

/// Render every address of every collection, in order.
fn display_lines(collections: &Vec<Vec<MyIp>>) -> (r: Vec<String>)
    ensures
        views_of(r@) == all_display_texts(collection_views(collections@)),
{
    let mut r: Vec<String> = Vec::new();
    let mut i: usize = 0;
    proof {
        assert(collection_views(collections@.take(0)) =~= Seq::empty());
        assert(views_of(r@) =~= all_display_texts(collection_views(collections@.take(0))));
    }
    while i < collections.len()
        invariant
            i <= collections.len(),
            views_of(r@) == all_display_texts(collection_views(collections@.take(i as int))),
        decreases collections.len() - i,
    {
        let c = &collections[i];
        let mut j: usize = 0;
        proof {
            assert(c@.take(0) =~= Seq::empty());
            assert(display_texts(c@.take(0)) =~= Seq::empty());
            assert(views_of(r@) + display_texts(c@.take(0)) =~= views_of(r@));
        }
        let ghost r_start = views_of(r@);
        while j < c.len()
            invariant
                j <= c.len(),
                views_of(r@) == r_start + display_texts(c@.take(j as int)),
            decreases c.len() - j,
        {
            let ghost r_pre = r@;
            let line = c[j].to_display_string();
            r.push(line);
            proof {
                assert(views_of(r@) =~= views_of(r_pre).push(c@[j as int].display_text()));
                assert(c@.take(j + 1) =~= c@.take(j as int).push(c@[j as int]));
                assert(display_texts(c@.take(j + 1)) =~= display_texts(c@.take(j as int)).push(
                    c@[j as int].display_text(),
                ));
                assert(views_of(r@) =~= r_start + display_texts(c@.take(j + 1)));
            }
            j = j + 1;
        }
        proof {
            assert(c@.take(c@.len() as int) =~= c@);
            lemma_all_display_push(collection_views(collections@.take(i as int)), c@);
            assert(collection_views(collections@.take(i + 1)) =~= collection_views(
                collections@.take(i as int),
            ).push(c@));
            assert(views_of(r@) =~= all_display_texts(collection_views(collections@.take(i + 1))));
        }
        i = i + 1;
    }
    proof {
        assert(collections@.take(collections@.len() as int) =~= collections@);
    }
    r
}

/// Whether some string in `v` has the same text as `line`.
fn contains_line(v: &Vec<String>, line: &String) -> (r: bool)
    ensures
        r == views_of(v@).contains(line@),
{
    let mut k: usize = 0;
    while k < v.len()
        invariant
            k <= v.len(),
            forall|m: int| 0 <= m < k ==> views_of(v@)[m] != line@,
        decreases v.len() - k,
    {
        if v[k] == *line {
            proof {
                assert(views_of(v@)[k as int] == line@);
            }
            return true;
        }
        proof {
            assert(views_of(v@)[k as int] == v@[k as int]@);
        }
        k = k + 1;
    }
    proof {
        assert forall|m: int| 0 <= m < views_of(v@).len() implies views_of(v@)[m] != line@ by {}
    }
    false
}

/// Drop repeated texts, keeping first occurrences in order.
fn dedup_lines(lines: Vec<String>) -> (r: Vec<String>)
    ensures
        views_of(r@) == first_seen_dedup(views_of(lines@)),
{
    let mut out: Vec<String> = Vec::new();
    let mut i: usize = 0;
    proof {
        assert(views_of(lines@).take(0) =~= Seq::empty());
        assert(views_of(out@) =~= first_seen_dedup(views_of(lines@).take(0)));
    }
    while i < lines.len()
        invariant
            i <= lines.len(),
            views_of(out@) == first_seen_dedup(views_of(lines@).take(i as int)),
        decreases lines.len() - i,
    {
        let line = lines[i].clone();
        proof {
            assert(line@ == views_of(lines@)[i as int]);
        }
        let dup = contains_line(&out, &line);
        if !dup {
            out.push(line);
        }
        proof {
            let pre = views_of(lines@).take(i as int);
            let post = views_of(lines@).take(i + 1);
            assert(post.drop_last() =~= pre);
            assert(post.last() == views_of(lines@)[i as int]);
            if dup {
                assert(views_of(out@) =~= first_seen_dedup(post));
            } else {
                assert(views_of(out@) =~= first_seen_dedup(pre).push(views_of(lines@)[i as int]));
                assert(views_of(out@) =~= first_seen_dedup(post));
            }
        }
        i = i + 1;
    }
    proof {
        assert(views_of(lines@).take(views_of(lines@).len() as int) =~= views_of(lines@));
    }
    out
}

/// The index of a least line under the lexicographic order.
fn min_line_index(v: &Vec<String>) -> (m: usize)
    requires
        v@.len() > 0,
    ensures
        m < v@.len(),
        forall|j: int| 0 <= j < v@.len() ==> text_le(v@[m as int]@, v@[j]@),
{
    let mut m: usize = 0;
    let mut k: usize = 1;
    proof {
        lemma_text_le_reflexive(v@[0]@);
    }
    while k < v.len()
        invariant
            m < k <= v@.len(),
            forall|j: int| 0 <= j < k ==> text_le(v@[m as int]@, v@[j]@),
        decreases v.len() - k,
    {
        if !str_le(&v[m], &v[k]) {
            proof {
                lemma_text_le_connected(v@[m as int]@, v@[k as int]@);
                lemma_text_le_reflexive(v@[k as int]@);
                assert forall|j: int| 0 <= j < k + 1 implies text_le(v@[k as int]@, v@[j]@) by {
                    if j < k {
                        lemma_text_le_transitive(v@[k as int]@, v@[m as int]@, v@[j]@);
                    }
                }
            }
            m = k;
        } else {
            proof {
                assert(text_le(v@[m as int]@, v@[k as int]@));
            }
        }
        k = k + 1;
    }
    m
}

/// Sort lines lexicographically; the result is a permutation of the
/// input.
fn sort_lines(lines: Vec<String>) -> (r: Vec<String>)
    ensures
        sorted_by(views_of(r@), text_le_fn()),
        views_of(r@).to_multiset() == views_of(lines@).to_multiset(),
{
    broadcast use vstd::seq_lib::group_to_multiset_ensures;

    let mut rest = lines;
    let mut out: Vec<String> = Vec::new();
    proof {
        assert(views_of(out@).to_multiset().add(views_of(rest@).to_multiset()) =~= views_of(
            lines@,
        ).to_multiset());
    }
    while rest.len() > 0
        invariant
            sorted_by(views_of(out@), text_le_fn()),
            forall|i: int, j: int|
                0 <= i < out@.len() && 0 <= j < rest@.len() ==> text_le(
                    views_of(out@)[i],
                    views_of(rest@)[j],
                ),
            views_of(out@).to_multiset().add(views_of(rest@).to_multiset()) == views_of(
                lines@,
            ).to_multiset(),
        decreases rest.len(),
    {
        let m = min_line_index(&rest);
        let ghost old_out = views_of(out@);
        let ghost old_rest = views_of(rest@);
        let x = rest.remove(m);
        out.push(x);
        proof {
            let e = old_rest[m as int];
            assert(views_of(out@) =~= old_out.push(e));
            assert(views_of(rest@) =~= old_rest.remove(m as int));
            assert forall|i: int, j: int|
                0 <= i < j < views_of(out@).len() implies text_le_fn()(
                views_of(out@)[i],
                views_of(out@)[j],
            ) by {
                if j == views_of(out@).len() - 1 {
                    assert(views_of(out@)[i] == old_out[i]);
                    assert(views_of(out@)[j] == e);
                    assert(text_le(old_out[i], e));
                }
            }
            assert forall|i: int, j: int|
                0 <= i < views_of(out@).len() && 0 <= j < views_of(rest@).len() implies text_le(
                views_of(out@)[i],
                views_of(rest@)[j],
            ) by {
                let rj = views_of(rest@)[j];
                assert(rj == if j < m as int {
                    old_rest[j]
                } else {
                    old_rest[j + 1]
                });
                if i < views_of(out@).len() - 1 {
                    assert(text_le(old_out[i], rj));
                } else {
                    assert(text_le(e, rj));
                }
            }
            broadcast use vstd::multiset::group_multiset_axioms;

            vstd::seq_lib::to_multiset_build(old_out, e);
            vstd::seq_lib::to_multiset_remove(old_rest, m as int);
            vstd::seq_lib::to_multiset_contains(old_rest, e);
            assert(old_out.push(e).to_multiset() == old_out.to_multiset().insert(e));
            assert(old_rest.remove(m as int).to_multiset() == old_rest.to_multiset().remove(e));
            assert(old_rest.contains(e));
            assert(old_rest.to_multiset().count(e) > 0);
            assert(views_of(out@).to_multiset().add(views_of(rest@).to_multiset()) =~= views_of(
                lines@,
            ).to_multiset());
        }
    }
    proof {
        assert(views_of(rest@).to_multiset() =~= Multiset::empty());
        assert(views_of(out@).to_multiset() =~= views_of(lines@).to_multiset());
    }
    out
}

/// Join the lines with newlines, in order.
fn join_lines(v: &Vec<String>) -> (r: String)
    ensures
        r@ == join_with(views_of(v@), '\n'),
{
    let mut s = String::new();
    let mut i: usize = 0;
    proof {
        assert(views_of(v@.take(0)) =~= Seq::empty());
        assert(s@ =~= join_with(views_of(v@.take(0)), '\n'));
    }
    while i < v.len()
        invariant
            i <= v.len(),
            s@ == join_with(views_of(v@.take(i as int)), '\n'),
        decreases v.len() - i,
    {
        proof {
            reveal_strlit("\n");
        }
        if i > 0 {
            s.append("\n");
        }
        s.append(v[i].as_str());
        proof {
            let pre = views_of(v@.take(i as int));
            let post = views_of(v@.take(i + 1));
            assert(post =~= pre.push(v@[i as int]@));
            if i > 0 {
                lemma_join_push(pre, v@[i as int]@, '\n');
            } else {
                assert(post.len() == 1);
                assert(join_with(post, '\n') == post[0]);
            }
            assert(s@ =~= join_with(post, '\n'));
        }
        i = i + 1;
    }
    proof {
        assert(v@.take(v@.len() as int) =~= v@);
    }
    s
}

/// The collections of the paths that succeeded, in path order.
pub open spec fn ok_collections(ps: Seq<Result<MyIps, PathError>>) -> Seq<Seq<MyIp>>
    decreases ps.len(),
{
    if ps.len() == 0 {
        Seq::empty()
    } else {
        ok_collections(ps.drop_last()) + (match ps.last() {
            Result::Ok(v) => seq![v@],
            Result::Err(_) => Seq::empty(),
        })
    }
}

/// The failures of the paths that failed, in path order.
pub open spec fn err_list(ps: Seq<Result<MyIps, PathError>>) -> Seq<PathError>
    decreases ps.len(),
{
    if ps.len() == 0 {
        Seq::empty()
    } else {
        err_list(ps.drop_last()) + (match ps.last() {
            Result::Ok(_) => Seq::empty(),
            Result::Err(e) => seq![e],
        })
    }
}

/// No path succeeded exactly when no collection was kept.
pub proof fn lemma_ok_collections_empty(ps: Seq<Result<MyIps, PathError>>)
    ensures
        ok_collections(ps).len() == 0 <==> (forall|i: int| 0 <= i < ps.len() ==> ps[i] is Err),
    decreases ps.len(),
{
    if ps.len() > 0 {
        lemma_ok_collections_empty(ps.drop_last());
        if ok_collections(ps).len() == 0 {
            assert forall|i: int| 0 <= i < ps.len() implies ps[i] is Err by {
                if i < ps.len() - 1 {
                    assert(ps.drop_last()[i] == ps[i]);
                }
            }
        } else {
            if !(ok_collections(ps.drop_last()).len() == 0) {
                let i = choose|i: int| 0 <= i < ps.drop_last().len() && !(ps.drop_last()[i] is Err);
                assert(!(ps[i] is Err));
            }
        }
    }
}

/// Combine every requested path's result into one report.
///
/// When no path succeeded the whole operation fails, carrying each
/// path's failure. Otherwise the successful collections are rendered,
/// deduplicated in first-seen order, put in output order and joined
/// with newlines; failed paths contribute nothing.
pub fn aggregate_report(paths: Vec<Result<MyIps, PathError>>) -> (r: Result<
    String,
    AllSourcesFailed,
>)
    ensures
        r is Ok <==> (exists|i: int| 0 <= i < paths@.len() && paths@[i] is Ok),
        match r {
            Result::Ok(s) => s@ == join_with(
                output_order(first_seen_dedup(all_display_texts(ok_collections(paths@)))),
                '\n',
            ),
            Result::Err(e) => e.failures@ == err_list(paths@),
        },
{
    let ghost orig = paths@;
    let mut paths = paths;
    let mut oks: Vec<MyIps> = Vec::new();
    let mut errs: Vec<PathError> = Vec::new();
    let mut i: usize = 0;
    let n = paths.len();
    proof {
        assert(orig.len() == n as int);
        assert(orig.take(0) =~= Seq::empty());
        assert(collection_views(oks@) =~= ok_collections(orig.take(0)));
        assert(errs@ =~= err_list(orig.take(0)));
    }
    while paths.len() > 0
        invariant
            orig.len() <= usize::MAX,
            i + paths@.len() == orig.len(),
            paths@ =~= orig.skip(i as int),
            collection_views(oks@) == ok_collections(orig.take(i as int)),
            errs@ == err_list(orig.take(i as int)),
        decreases paths@.len(),
    {
        let p = paths.remove(0);
        proof {
            assert(p == orig[i as int]);
        }
        let ghost oks_pre = collection_views(oks@);
        match p {
            Result::Ok(v) => oks.push(v),
            Result::Err(e) => errs.push(e),
        }
        proof {
            let pre = orig.take(i as int);
            let post = orig.take(i + 1);
            assert(post.drop_last() =~= pre);
            assert(post.last() == orig[i as int]);
            if orig[i as int] is Ok {
                assert(collection_views(oks@) =~= oks_pre + seq![orig[i as int]->Ok_0@]);
                assert(collection_views(oks@) =~= ok_collections(post));
            } else {
                assert(collection_views(oks@) =~= ok_collections(post));
                assert(errs@ =~= err_list(post));
            }
            assert(paths@ =~= orig.skip(i + 1));
        }
        i = i + 1;
    }
    proof {
        assert(orig.take(orig.len() as int) =~= orig);
        lemma_ok_collections_empty(orig);
    }
    if oks.len() == 0 {
        proof {
            assert(collection_views(oks@).len() == oks@.len());
        }
        Err(AllSourcesFailed { failures: errs })
    } else {
        proof {
            assert(collection_views(oks@).len() == oks@.len());
            assert(!(forall|j: int| 0 <= j < orig.len() ==> orig[j] is Err));
            let w = choose|j: int| 0 <= j < orig.len() && !(orig[j] is Err);
            assert(orig[w] is Ok);
        }
        let lines = process_ips(&oks);
        Ok(format_ips(lines))
    }
}

/// The order in which entries are printed: first-seen order for at most
/// [`SORT_THRESHOLD`] entries, lexicographic order above that.
pub open spec fn output_order(entries: Seq<Seq<char>>) -> Seq<Seq<char>> {
    if entries.len() <= SORT_THRESHOLD {
        entries
    } else {
        entries.sort_by(text_le_fn())
    }
}

/// Format the report: the entries in output order, joined by newlines.
///
/// At most [`SORT_THRESHOLD`] entries keep their given order; more are
/// sorted lexicographically first.
pub fn format_ips(ips: Vec<String>) -> (r: String)
    ensures
        r@ == join_with(output_order(views_of(ips@)), '\n'),
{
    if ips.len() <= SORT_THRESHOLD {
        join_lines(&ips)
    } else {
        let ghost in_views = views_of(ips@);
        let sorted = sort_lines(ips);
        proof {
            lemma_text_le_total_ordering();
            in_views.lemma_sort_by_ensures(text_le_fn());
            lemma_sorted_unique(views_of(sorted@), in_views.sort_by(text_le_fn()), text_le_fn());
        }
        join_lines(&sorted)
    }
}

} // verus!
