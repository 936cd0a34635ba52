//! Checking a question, and laying out the passages found for it.
use vstd::prelude::*;

use crate::error::CoiError;
use crate::text::{chars_of, push_char, trim, trim_str};

verus! {

/// The trimmed question, or an input error when it is blank.
pub fn validate_question(question: &str) -> (r: Result<String, CoiError>)
    ensures
        match r {
            Ok(q) => q@ == trim(question@) && q@.len() > 0,
            Err(CoiError::InvalidInput { reason }) => trim(question@).len() == 0 && reason@
                == "问题内容不能为空"@,
            Err(_) => false,
        },
{
    let q = trim_str(question);
    if q.as_str().is_empty() {
        return Err(CoiError::InvalidInput { reason: "问题内容不能为空".to_owned() });
    }
    Ok(q)
}

/// The input error reported when the vector store holds nothing.
pub fn empty_store_error() -> (e: CoiError)
    ensures
        e matches CoiError::InvalidInput { reason } && reason@
            == "向量库为空，请先执行 tell-me init 构建知识库"@,
{
    CoiError::InvalidInput { reason: "向量库为空，请先执行 tell-me init 构建知识库".to_owned() }
}

/// The text on one line: every `'\n'` and `'\r'` becomes a space.
pub open spec fn single_line(s: Seq<char>) -> Seq<char> {
    s.map_values(|c: char| if c == '\n' || c == '\r' { ' ' } else { c })
}

/// A passage as shown: on one line, and cut after `max_chars` characters with
/// `...` appended when longer.
pub open spec fn preview(s: Seq<char>, max_chars: nat) -> Seq<char> {
    if single_line(s).len() <= max_chars {
        single_line(s)
    } else {
        single_line(s).take(max_chars as int) + "..."@
    }
}

/// A passage as shown (see `preview`).
pub fn truncate_content(content: &str, max_chars: usize) -> (r: String)
    ensures
        r@ == preview(content@, max_chars as nat),
{
    let v = chars_of(content);
    let n = v.len();
    let limit = if n <= max_chars {
        n
    } else {
        max_chars
    };
    let mut r = String::new();
    let mut i: usize = 0;
    while i < limit
        invariant
            limit <= n == v.len(),
            i <= limit,
            r@ == single_line(v@).take(i as int),
        decreases limit - i,
    {
        let c = v[i];
        push_char(&mut r, if c == '\n' || c == '\r' { ' ' } else { c });
        i = i + 1;
        assert(r@ =~= single_line(v@).take(i as int));
    }
    if n > max_chars {
        r.append("...");
    } else {
        assert(single_line(v@).take(n as int) =~= single_line(v@));
    }
    r
}

/// The items grouped by source, in order of each source's first appearance;
/// within a group the items keep their order.
pub open spec fn grouped<T>(items: Seq<(Seq<char>, T)>) -> Seq<(Seq<char>, Seq<T>)>
    decreases items.len(),
{
    if items.len() == 0 {
        Seq::empty()
    } else {
        let g = grouped(items.drop_last());
        let (src, x) = items.last();
        let k = group_index(g, src);
        if k < 0 {
            g.push((src, seq![x]))
        } else {
            g.update(k, (src, g[k].1.push(x)))
        }
    }
}

/// The position of the group for `src`, or -1.
pub open spec fn group_index<T>(g: Seq<(Seq<char>, Seq<T>)>, src: Seq<char>) -> int
    decreases g.len(),
{
    if g.len() == 0 {
        -1
    } else if g.last().0 == src {
        g.len() - 1
    } else {
        group_index(g.drop_last(), src)
    }
}

/// `group_index` is -1 or the position of a group with that source.
proof fn lemma_group_index<T>(g: Seq<(Seq<char>, Seq<T>)>, src: Seq<char>)
    ensures
        -1 <= group_index(g, src) < g.len(),
        group_index(g, src) >= 0 ==> g[group_index(g, src)].0 == src,
        group_index(g, src) < 0 ==> forall|i: int| 0 <= i < g.len() ==> #[trigger] g[i].0 != src,
    decreases g.len(),
{
    if g.len() > 0 && g.last().0 != src {
        lemma_group_index(g.drop_last(), src);
        assert forall|i: int| 0 <= i < g.len() - 1 implies g[i] == g.drop_last()[i] by {}
    }
}

/// Groups as character sequences.
pub open spec fn groups_view<T>(g: Seq<(String, Vec<T>)>) -> Seq<(Seq<char>, Seq<T>)> {
    g.map_values(|p: (String, Vec<T>)| (p.0@, p.1@))
}

/// Items as character sequences.
pub open spec fn items_view<T>(items: Seq<(String, T)>) -> Seq<(Seq<char>, T)> {
    items.map_values(|p: (String, T)| (p.0@, p.1))
}

/// The position of the group for `src` (see `group_index`).
fn find_group<T>(g: &Vec<(String, Vec<T>)>, src: &String) -> (r: Option<usize>)
    ensures
        match r {
            None => group_index(groups_view(g@), src@) < 0,
            Some(k) => k as int == group_index(groups_view(g@), src@),
        },
{
    let ghost v = groups_view(g@);
    let mut k = g.len();
    assert(v.take(k as int) =~= v);
    while k > 0
        invariant
            k <= g.len(),
            v == groups_view(g@),
            group_index(v, src@) == group_index(v.take(k as int), src@),
        decreases k,
    {
        assert(v.take(k as int).drop_last() =~= v.take(k - 1));
        assert(v.take(k as int).last() == v[k - 1]);
        if g[k - 1].0 == *src {
            return Some(k - 1);
        }
        k = k - 1;
    }
    None
}

/// Groups items by source (see `grouped`).
pub fn group_by_source<T>(items: Vec<(String, T)>) -> (r: Vec<(String, Vec<T>)>)
    ensures
        groups_view(r@) == grouped(items_view(items@)),
{
    let ghost iv = items_view(items@);
    let mut groups: Vec<(String, Vec<T>)> = Vec::new();
    for item in it: items
        invariant
            iv == items_view(it.seq()),
            groups_view(groups@) == grouped(iv.take(it.index() as int)),
    {
        let ghost i = it.index();
        let ghost g0 = groups_view(groups@);
        proof {
            assert(iv.take(i + 1).drop_last() =~= iv.take(i as int));
            assert(iv.take(i + 1).last() == iv[i as int]);
            lemma_group_index(g0, item.0@);
        }
        let (src, x) = item;
        match find_group(&groups, &src) {
            None => {
                let mut v: Vec<T> = Vec::new();
                v.push(x);
                groups.push((src, v));
                assert(groups_view(groups@) =~= g0.push((src@, seq![x])));
            },
            Some(k) => {
                let (s, mut v) = groups.remove(k);
                v.push(x);
                groups.insert(k, (s, v));
                assert(groups_view(groups@) =~= g0.update(k as int, (src@, g0[k as int].1.push(x))));
            },
        }
    }
    assert(iv.take(iv.len() as int) =~= iv);
    groups
}

/// A preview is one line, at most three characters longer than the limit,
/// and the whole passage (on one line) when that fits.
pub proof fn lemma_preview_shape(s: Seq<char>, max_chars: nat)
    ensures
        preview(s, max_chars).len() <= max_chars + 3,
        forall|i: int|
            0 <= i < preview(s, max_chars).len() ==> #[trigger] preview(s, max_chars)[i] != '\n'
                && preview(s, max_chars)[i] != '\r',
        single_line(s).len() <= max_chars ==> preview(s, max_chars) == single_line(s),
{
    reveal_strlit("...");
    let l = single_line(s);
    if l.len() > max_chars {
        let p = preview(s, max_chars);
        assert forall|i: int| 0 <= i < p.len() implies #[trigger] p[i] != '\n' && p[i] != '\r' by {
            if i < max_chars {
                assert(p[i] == l[i]);
            } else {
                assert(p[i] == "..."@[i - max_chars]);
            }
        }
    }
}

/// How many items the groups hold together.
pub open spec fn group_sizes<T>(g: Seq<(Seq<char>, Seq<T>)>) -> nat
    decreases g.len(),
{
    if g.len() == 0 {
        0
    } else {
        group_sizes(g.drop_last()) + g.last().1.len()
    }
}

/// Adding one item to group `k` adds one to the total.
proof fn lemma_group_sizes_update<T>(g: Seq<(Seq<char>, Seq<T>)>, k: int, x: T)
    requires
        0 <= k < g.len(),
    ensures
        group_sizes(g.update(k, (g[k].0, g[k].1.push(x)))) == group_sizes(g) + 1,
    decreases g.len(),
{
    let u = g.update(k, (g[k].0, g[k].1.push(x)));
    if k < g.len() - 1 {
        lemma_group_sizes_update(g.drop_last(), k, x);
        assert(u.drop_last() =~= g.drop_last().update(k, (g[k].0, g[k].1.push(x))));
    } else {
        assert(u.drop_last() =~= g.drop_last());
    }
}

/// Grouping loses and repeats nothing: the groups hold as many items as
/// were given, none is empty, and no two share a source.
pub proof fn lemma_grouping_keeps_items<T>(items: Seq<(Seq<char>, T)>)
    ensures
        group_sizes(grouped(items)) == items.len(),
        forall|i: int| 0 <= i < grouped(items).len() ==> (#[trigger] grouped(items)[i]).1.len() > 0,
        forall|i: int, j: int|
            0 <= i < grouped(items).len() && 0 <= j < grouped(items).len() && i != j ==> (
            #[trigger] grouped(items)[i]).0 != (#[trigger] grouped(items)[j]).0,
    decreases items.len(),
{
    if items.len() > 0 {
        let p = items.drop_last();
        lemma_grouping_keeps_items(p);
        let g = grouped(p);
        let (src, x) = items.last();
        lemma_group_index(g, src);
        let k = group_index(g, src);
        let r = grouped(items);
        if k < 0 {
            assert(r == g.push((src, seq![x])));
            assert(r.drop_last() =~= g);
            assert forall|i: int| 0 <= i < r.len() implies (#[trigger] r[i]).1.len() > 0 by {
                if i < g.len() {
                    assert(r[i] == g[i]);
                }
            }
            assert forall|i: int, j: int|
                0 <= i < r.len() && 0 <= j < r.len() && i != j implies (#[trigger] r[i]).0 != (
                #[trigger] r[j]).0 by {
                if i < g.len() && j < g.len() {
                    assert(r[i] == g[i] && r[j] == g[j]);
                } else if i < g.len() {
                    assert(g[i].0 != src);
                } else {
                    assert(g[j].0 != src);
                }
            }
        } else {
            assert(r == g.update(k, (src, g[k].1.push(x))));
            lemma_group_sizes_update(g, k, x);
            assert forall|i: int| 0 <= i < r.len() implies (#[trigger] r[i]).1.len() > 0 by {
                if i != k {
                    assert(r[i] == g[i]);
                }
            }
            assert forall|i: int, j: int|
                0 <= i < r.len() && 0 <= j < r.len() && i != j implies (#[trigger] r[i]).0 != (
                #[trigger] r[j]).0 by {
                assert(r[i].0 == g[i].0 && r[j].0 == g[j].0);
            }
        }
    }
}

/// The items of `items` whose source is `src`, in order.
pub open spec fn items_from<T>(items: Seq<(Seq<char>, T)>, src: Seq<char>) -> Seq<T>
    decreases items.len(),
{
    if items.len() == 0 {
        Seq::empty()
    } else {
        items_from(items.drop_last(), src) + if items.last().0 == src {
            seq![items.last().1]
        } else {
            Seq::<T>::empty()
        }
    }
}

/// A source that some item has.
proof fn lemma_items_from_nonempty<T>(items: Seq<(Seq<char>, T)>, src: Seq<char>)
    requires
        items_from(items, src).len() > 0,
    ensures
        exists|j: int| 0 <= j < items.len() && (#[trigger] items[j]).0 == src,
    decreases items.len(),
{
    let p = items.drop_last();
    if items.last().0 == src {
        assert(items[items.len() - 1].0 == src);
    } else {
        assert(items_from(items, src) =~= items_from(p, src));
        lemma_items_from_nonempty(p, src);
        let j = choose|j: int| 0 <= j < p.len() && (#[trigger] p[j]).0 == src;
        assert(items[j] == p[j]);
    }
}

/// Every item lands in the group of its own source: each group holds exactly
/// the items with its source, in their order, and every item's source has a
/// group.
pub proof fn lemma_groups_hold_their_sources<T>(items: Seq<(Seq<char>, T)>)
    ensures
        forall|i: int|
            0 <= i < grouped(items).len() ==> (#[trigger] grouped(items)[i]).1 == items_from(
                items,
                grouped(items)[i].0,
            ),
        forall|j: int|
            0 <= j < items.len() ==> exists|i: int|
                0 <= i < grouped(items).len() && (#[trigger] grouped(items)[i]).0 == (
                #[trigger] items[j]).0,
    decreases items.len(),
{
    if items.len() > 0 {
        let p = items.drop_last();
        lemma_groups_hold_their_sources(p);
        lemma_grouping_keeps_items(p);
        let g = grouped(p);
        let (src, x) = items.last();
        lemma_group_index(g, src);
        let k = group_index(g, src);
        let r = grouped(items);
        assert forall|s: Seq<char>| #[trigger] items_from(items, s) == items_from(p, s) + if src == s {
            seq![x]
        } else {
            Seq::<T>::empty()
        } by {}
        if k < 0 {
            assert(r == g.push((src, seq![x])));
            assert(items_from(p, src).len() == 0) by {
                if items_from(p, src).len() > 0 {
                    lemma_items_from_nonempty(p, src);
                    let j = choose|j: int| 0 <= j < p.len() && (#[trigger] p[j]).0 == src;
                    let i = choose|i: int| 0 <= i < g.len() && (#[trigger] g[i]).0 == p[j].0;
                    assert(g[i].0 != src);
                }
            }
            assert forall|i: int| 0 <= i < r.len() implies (#[trigger] r[i]).1 == items_from(
                items,
                r[i].0,
            ) by {
                if i < g.len() {
                    assert(r[i] == g[i]);
                    assert(g[i].0 != src);
                    assert(items_from(p, g[i].0) + Seq::<T>::empty() =~= items_from(p, g[i].0));
                } else {
                    assert(r[i] == (src, seq![x]));
                    assert(items_from(p, src) + seq![x] =~= seq![x]);
                }
            }
            assert forall|j: int| 0 <= j < items.len() implies exists|i: int|
                0 <= i < r.len() && (#[trigger] r[i]).0 == (#[trigger] items[j]).0 by {
                if j < p.len() {
                    assert(items[j] == p[j]);
                    let i = choose|i: int| 0 <= i < g.len() && (#[trigger] g[i]).0 == p[j].0;
                    assert(r[i] == g[i]);
                } else {
                    assert(r[g.len() as int].0 == items[j].0);
                }
            }
        } else {
            assert(r == g.update(k, (src, g[k].1.push(x))));
            assert forall|i: int| 0 <= i < r.len() implies (#[trigger] r[i]).1 == items_from(
                items,
                r[i].0,
            ) by {
                if i != k {
                    assert(r[i] == g[i]);
                    assert(g[i].0 != g[k].0);
                    assert(items_from(p, g[i].0) + Seq::<T>::empty() =~= items_from(p, g[i].0));
                } else {
                    assert(g[k].1.push(x) =~= items_from(p, src) + seq![x]);
                }
            }
            assert forall|j: int| 0 <= j < items.len() implies exists|i: int|
                0 <= i < r.len() && (#[trigger] r[i]).0 == (#[trigger] items[j]).0 by {
                if j < p.len() {
                    assert(items[j] == p[j]);
                    let i = choose|i: int| 0 <= i < g.len() && (#[trigger] g[i]).0 == p[j].0;
                    assert(r[i].0 == g[i].0);
                } else {
                    assert(r[k].0 == items[j].0);
                }
            }
        }
    }
}

/// The position of the first item with source `src`, or -1.
pub open spec fn first_position<T>(items: Seq<(Seq<char>, T)>, src: Seq<char>) -> int
    decreases items.len(),
{
    if items.len() == 0 {
        -1
    } else {
        let f = first_position(items.drop_last(), src);
        if f >= 0 {
            f
        } else if items.last().0 == src {
            items.len() - 1
        } else {
            -1
        }
    }
}

/// `first_position` is -1 when no item has the source, else the position of one.
proof fn lemma_first_position<T>(items: Seq<(Seq<char>, T)>, src: Seq<char>)
    ensures
        -1 <= first_position(items, src) < items.len(),
        first_position(items, src) >= 0 ==> items[first_position(items, src)].0 == src,
        first_position(items, src) < 0 ==> forall|j: int|
            0 <= j < items.len() ==> (#[trigger] items[j]).0 != src,
    decreases items.len(),
{
    if items.len() > 0 {
        let p = items.drop_last();
        lemma_first_position(p, src);
        if first_position(p, src) >= 0 {
            assert(items[first_position(p, src)] == p[first_position(p, src)]);
        } else {
            assert forall|j: int| 0 <= j < p.len() implies items[j] == p[j] by {}
        }
    }
}

/// The groups come in the order in which their sources first appear among
/// the items.
pub proof fn lemma_groups_in_order_of_first_appearance<T>(items: Seq<(Seq<char>, T)>)
    ensures
        forall|i: int, j: int|
            0 <= i < j < grouped(items).len() ==> first_position(
                items,
                #[trigger] grouped(items)[i].0,
            ) < first_position(items, #[trigger] grouped(items)[j].0),
        forall|i: int|
            0 <= i < grouped(items).len() ==> first_position(items, #[trigger] grouped(items)[i].0)
                >= 0,
    decreases items.len(),
{
    if items.len() > 0 {
        let p = items.drop_last();
        lemma_groups_in_order_of_first_appearance(p);
        lemma_groups_hold_their_sources(p);
        let g = grouped(p);
        let (src, x) = items.last();
        lemma_group_index(g, src);
        let k = group_index(g, src);
        let r = grouped(items);
        assert forall|s: Seq<char>| first_position(p, s) >= 0 implies #[trigger] first_position(
            items,
            s,
        ) == first_position(p, s) by {}
        assert forall|i: int| 0 <= i < g.len() implies #[trigger] first_position(p, g[i].0) < p.len() by {
            lemma_first_position(p, g[i].0);
        }
        if k < 0 {
            assert(r == g.push((src, seq![x])));
            lemma_first_position(p, src);
            assert(first_position(p, src) < 0) by {
                if first_position(p, src) >= 0 {
                    let j = first_position(p, src);
                    assert(p[j].0 == src);
                    let i = choose|i: int| 0 <= i < g.len() && (#[trigger] g[i]).0 == p[j].0;
                    assert(g[i].0 != src);
                }
            }
            assert(first_position(items, src) == p.len());
            assert forall|i: int, j: int| 0 <= i < j < r.len() implies first_position(
                items,
                #[trigger] r[i].0,
            ) < first_position(items, #[trigger] r[j].0) by {
                assert(r[i] == g[i]);
                if j < g.len() {
                    assert(r[j] == g[j]);
                }
            }
            assert forall|i: int| 0 <= i < r.len() implies first_position(
                items,
                #[trigger] r[i].0,
            ) >= 0 by {
                if i < g.len() {
                    assert(r[i] == g[i]);
                }
            }
        } else {
            assert(r == g.update(k, (src, g[k].1.push(x))));
            assert forall|i: int| 0 <= i < r.len() implies #[trigger] r[i].0 == g[i].0 by {}
        }
    }
}

} // verus!
