//! Building does not depend on the order in which routes were registered.
use vstd::prelude::*;
use crate::files::{
    apply, cleared, lemma_run_untouched, lemma_run_within, lemma_touches_within, run, stays_within,
    touches,
};
use crate::path::{
    final_path, is_within, join, lemma_join_is_under, lemma_final_path_is_under,
    lemma_within_transitive, trim_leading_separators,
};
use crate::site::{
    build_plan, content_ops, destination, lemma_build_runs_table, lemma_table_ops_within,
    resolved, routes_separate, table_ops, tree_ops, App, Content, OpView,
};

verus! {

/// `s1` and `s2` hold the same files outside `out`, and the same at `q`.
pub open spec fn agree_at(
    s1: Map<Seq<char>, Seq<char>>,
    s2: Map<Seq<char>, Seq<char>>,
    out: Seq<char>,
    q: Seq<char>,
) -> bool {
    forall|p: Seq<char>|
        (!is_within(p, out) || p == q) ==> (#[trigger] s1.contains_key(p) == s2.contains_key(p) && (
        s1.contains_key(p) ==> s1[p] == s2[p]))
}

/// A mirror reads from a non-empty source apart from `out`.
pub open spec fn reads_outside(op: OpView, out: Seq<char>) -> bool {
    match op {
        OpView::Mirror { from, .. } => from.len() > 0 && !is_within(from, out) && !is_within(
            out,
            from,
        ),
        _ => true,
    }
}

/// The operations of the route at index `j` of `a`, built at `out`.
pub open spec fn route_ops(a: App, out: Seq<char>, j: int) -> Seq<OpView> {
    content_ops(a.entries()[j].1, destination(out, a.entries()[j].0@))
}

/// The place the route at index `j` of `a` resolves to, built at `out`.
pub open spec fn route_place(a: App, out: Seq<char>, j: int) -> Seq<char> {
    resolved(a.entries()[j].1, destination(out, a.entries()[j].0@))
}

/// Every mirror of every route of `a` built at `out` reads from apart from
/// `out`.
pub open spec fn mirrors_read_outside(a: App, out: Seq<char>) -> bool {
    forall|j: int, m: int|
        0 <= j < a.entries().len() && 0 <= m < route_ops(a, out, j).len() ==> reads_outside(
            #[trigger] route_ops(a, out, j)[m],
            out,
        )
}

/// Two paths that both hold `q` are one at or beneath the other.
pub proof fn lemma_places_nest(q: Seq<char>, x: Seq<char>, y: Seq<char>)
    requires
        is_within(q, x),
        is_within(q, y),
    ensures
        is_within(x, y) || is_within(y, x),
{
    if x.len() <= y.len() {
        lemma_places_nest_ordered(q, x, y);
    } else {
        lemma_places_nest_ordered(q, y, x);
    }
}

proof fn lemma_places_nest_ordered(q: Seq<char>, x: Seq<char>, y: Seq<char>)
    requires
        is_within(q, x),
        is_within(q, y),
        x.len() <= y.len(),
    ensures
        is_within(y, x),
{
    if x != q && y != q {
        assert forall|i: int| 0 <= i < x.len() implies y[i] == x[i] by {
            assert(q.subrange(0, x.len() as int)[i] == q[i]);
            assert(q.subrange(0, y.len() as int)[i] == q[i]);
        }
        if x.len() == y.len() {
            assert(x =~= y);
        } else {
            assert(y.subrange(0, x.len() as int) =~= x);
            assert(q.subrange(0, y.len() as int)[x.len() as int] == q[x.len() as int]);
        }
    } else if y == q {
        if x != q {
            assert(x.len() < y.len());
        }
    } else {
        assert(q.subrange(0, y.len() as int).len() == y.len());
    }
}

proof fn lemma_source_outside(from: Seq<char>, r: Seq<char>, out: Seq<char>)
    requires
        from.len() > 0,
        !is_within(from, out),
        !is_within(out, from),
    ensures
        !is_within(join(from, r), out),
{
    let j = join(from, r);
    if r.len() > 0 {
        lemma_join_is_under(from, r);
    } else if from.last() != '/' {
        assert(j.subrange(0, from.len() as int) =~= from);
    } else {
        assert(j =~= from);
    }
    if is_within(j, out) {
        lemma_places_nest(j, from, out);
    }
}

proof fn lemma_apply_agree(
    op: OpView,
    s1: Map<Seq<char>, Seq<char>>,
    s2: Map<Seq<char>, Seq<char>>,
    out: Seq<char>,
    q: Seq<char>,
)
    requires
        agree_at(s1, s2, out, q),
        reads_outside(op, out),
    ensures
        agree_at(apply(op, s1), apply(op, s2), out, q),
{
    match op {
        OpView::Mirror { from, to } => {
            assert forall|p: Seq<char>| true implies !is_within(
                #[trigger] join(from, crate::path::relative_to(p, to)),
                out,
            ) by {
                lemma_source_outside(from, crate::path::relative_to(p, to), out);
            }
            let t1 = apply(op, s1);
            let t2 = apply(op, s2);
            assert forall|p: Seq<char>| (!is_within(p, out) || p == q) implies (
            #[trigger] t1.contains_key(p) == t2.contains_key(p) && (t1.contains_key(p) ==> t1[p]
                == t2[p])) by {
                let src = join(from, crate::path::relative_to(p, to));
                assert(!is_within(src, out));
                assert(s1.contains_key(src) == s2.contains_key(src));
                assert(s1.contains_key(p) == s2.contains_key(p));
            }
        },
        OpView::Clear { dir } => {
            let t1 = apply(op, s1);
            let t2 = apply(op, s2);
            assert forall|p: Seq<char>| (!is_within(p, out) || p == q) implies (
            #[trigger] t1.contains_key(p) == t2.contains_key(p) && (t1.contains_key(p) ==> t1[p]
                == t2[p])) by {
                assert(s1.contains_key(p) == s2.contains_key(p));
            }
        },
        OpView::Write { path, text } => {
            let t1 = apply(op, s1);
            let t2 = apply(op, s2);
            assert forall|p: Seq<char>| (!is_within(p, out) || p == q) implies (
            #[trigger] t1.contains_key(p) == t2.contains_key(p) && (t1.contains_key(p) ==> t1[p]
                == t2[p])) by {
                assert(s1.contains_key(p) == s2.contains_key(p));
            }
        },
        OpView::MakeDir { .. } => {},
    }
}

proof fn lemma_run_agree(
    ops: Seq<OpView>,
    s1: Map<Seq<char>, Seq<char>>,
    s2: Map<Seq<char>, Seq<char>>,
    out: Seq<char>,
    q: Seq<char>,
)
    requires
        agree_at(s1, s2, out, q),
        forall|k: int| 0 <= k < ops.len() ==> reads_outside(#[trigger] ops[k], out),
    ensures
        agree_at(run(ops, s1), run(ops, s2), out, q),
    decreases ops.len(),
{
    if ops.len() > 0 {
        lemma_apply_agree(ops[0], s1, s2, out, q);
        assert forall|k: int| 0 <= k < ops.drop_first().len() implies reads_outside(
            #[trigger] ops.drop_first()[k],
            out,
        ) by {
            assert(ops.drop_first()[k] == ops[k + 1]);
        }
        lemma_run_agree(ops.drop_first(), apply(ops[0], s1), apply(ops[0], s2), out, q);
    }
}

proof fn lemma_run_leaves(ops: Seq<OpView>, s: Map<Seq<char>, Seq<char>>, out: Seq<char>, q: Seq<char>)
    requires
        forall|k: int| 0 <= k < ops.len() ==> stays_within(#[trigger] ops[k], out),
        forall|k: int| 0 <= k < ops.len() ==> !touches(#[trigger] ops[k], q),
    ensures
        agree_at(run(ops, s), s, out, q),
{
    lemma_run_within(ops, s, out);
    lemma_run_untouched(ops, s, q);
    let r = run(ops, s);
    assert forall|p: Seq<char>| (!is_within(p, out) || p == q) implies (#[trigger] r.contains_key(p)
        == s.contains_key(p) && (r.contains_key(p) ==> r[p] == s[p])) by {
        if p != q {
            assert(cleared(r, out).contains_key(p) == r.contains_key(p));
            assert(cleared(s, out).contains_key(p) == s.contains_key(p));
            if r.contains_key(p) {
                assert(cleared(r, out)[p] == r[p]);
                assert(cleared(s, out)[p] == s[p]);
            }
        }
    }
}

pub proof fn lemma_run_concat(a: Seq<OpView>, b: Seq<OpView>, s: Map<Seq<char>, Seq<char>>)
    ensures
        run(a + b, s) == run(b, run(a, s)),
    decreases a.len(),
{
    if a.len() > 0 {
        assert((a + b).drop_first() =~= a.drop_first() + b);
        lemma_run_concat(a.drop_first(), b, apply(a[0], s));
    } else {
        assert(a + b =~= b);
    }
}

/// The operations of one route stay within `out`, and touch only what lies
/// at or beneath the place the route resolves to.
proof fn lemma_route_ops_local(a: App, out: Seq<char>, j: int, q: Seq<char>)
    requires
        out.len() > 0,
        0 <= j < a.entries().len(),
    ensures
        forall|m: int|
            0 <= m < route_ops(a, out, j).len() ==> stays_within(#[trigger] route_ops(a, out, j)[m], out),
        forall|m: int|
            0 <= m < route_ops(a, out, j).len() && touches(#[trigger] route_ops(a, out, j)[m], q)
                ==> is_within(q, route_place(a, out, j)),
{
    let e = a.entries()[j];
    let key = trim_leading_separators(e.0@);
    let dest = destination(out, e.0@);
    if key.len() > 0 {
        lemma_join_is_under(out, key);
    }
    let b = route_ops(a, out, j);
    match e.1 {
        Content::Text(_) => {
            lemma_final_path_is_under(dest);
            lemma_within_transitive(final_path(dest), dest, out);
        },
        Content::Mirror(_) => {},
        Content::Table(sub) => {
            lemma_table_ops_within(sub, dest, sub.entries().len());
            assert(b == table_ops(sub, dest, sub.entries().len()));
            assert forall|m: int| 0 <= m < b.len() implies stays_within(#[trigger] b[m], out) by {
                match b[m] {
                    OpView::Write { path, .. } => {
                        lemma_within_transitive(path, dest, out);
                    },
                    OpView::Mirror { to, .. } => {
                        lemma_within_transitive(to, dest, out);
                    },
                    _ => {},
                }
            }
            assert forall|m: int| 0 <= m < b.len() && touches(#[trigger] b[m], q) implies is_within(
                q,
                route_place(a, out, j),
            ) by {
                lemma_touches_within(b[m], dest, q);
            }
        },
    }
}

/// What the first `n` routes of a table leave at `q`: what the one route
/// whose place holds `q` leaves there when run alone, or else what was there.
proof fn lemma_table_local(a: App, out: Seq<char>, n: nat, s: Map<Seq<char>, Seq<char>>, q: Seq<char>)
    requires
        out.len() > 0,
        routes_separate(a, out),
        mirrors_read_outside(a, out),
        n <= a.entries().len(),
    ensures
        (forall|j: int| 0 <= j < n ==> !is_within(q, #[trigger] route_place(a, out, j))) ==> agree_at(
            run(table_ops(a, out, n), s),
            s,
            out,
            q,
        ),
        forall|j: int|
            0 <= j < n && is_within(q, #[trigger] route_place(a, out, j)) ==> agree_at(
                run(table_ops(a, out, n), s),
                run(route_ops(a, out, j), s),
                out,
                q,
            ),
    decreases n,
{
    if n == 0 {
        let t = table_ops(a, out, 0);
        assert(run(t, s) == run(t.drop_first(), apply(t[0], s)));
        assert(t.drop_first().len() == 0);
    } else {
        let m = (n - 1) as nat;
        lemma_table_local(a, out, m, s, q);
        let left = table_ops(a, out, m);
        let b = route_ops(a, out, m as int);
        assert(table_ops(a, out, n) == left + b);
        lemma_run_concat(left, b, s);
        let s1 = run(left, s);
        lemma_route_ops_local(a, out, m as int, q);
        if is_within(q, route_place(a, out, m as int)) {
            assert forall|j: int| 0 <= j < m implies !is_within(q, #[trigger] route_place(a, out, j)) by {
                if is_within(q, route_place(a, out, j)) {
                    lemma_places_nest(q, route_place(a, out, j), route_place(a, out, m as int));
                    assert(!is_within(
                        resolved(a.entries()[j].1, destination(out, a.entries()[j].0@)),
                        resolved(a.entries()[m as int].1, destination(out, a.entries()[m as int].0@)),
                    ));
                    assert(!is_within(
                        resolved(a.entries()[m as int].1, destination(out, a.entries()[m as int].0@)),
                        resolved(a.entries()[j].1, destination(out, a.entries()[j].0@)),
                    ));
                }
            }
            assert forall|k: int| 0 <= k < b.len() implies reads_outside(#[trigger] b[k], out) by {
                assert(reads_outside(route_ops(a, out, m as int)[k], out));
            }
            lemma_run_agree(b, s1, s, out, q);
        } else {
            lemma_table_ops_within(a, out, m);
            lemma_run_leaves(b, s1, out, q);
        }
    }
}

/// Building does not depend on registration order: two apps holding the same
/// routes build the same files, when no route's place lies at or beneath
/// another's and every mirror reads from apart from the output.
pub proof fn lemma_build_order_independent(
    a1: App,
    a2: App,
    out: Seq<char>,
    fs: Map<Seq<char>, Seq<char>>,
)
    requires
        out.len() > 0,
        forall|x: (String, Content)| a1.entries().contains(x) <==> a2.entries().contains(x),
        routes_separate(a1, out),
        routes_separate(a2, out),
        mirrors_read_outside(a1, out),
        mirrors_read_outside(a2, out),
    ensures
        run(build_plan(a1, out), fs) == run(build_plan(a2, out), fs),
{
    let s = cleared(fs, out);
    let r1 = run(tree_ops(a1, out), s);
    let r2 = run(tree_ops(a2, out), s);
    lemma_build_runs_table(a1, out, fs);
    lemma_build_runs_table(a2, out, fs);
    assert forall|q: Seq<char>| #[trigger] r1.contains_key(q) == r2.contains_key(q) && (
    r1.contains_key(q) ==> r1[q] == r2[q]) by {
        lemma_table_local(a1, out, a1.entries().len(), s, q);
        lemma_table_local(a2, out, a2.entries().len(), s, q);
        if exists|j: int| 0 <= j < a1.entries().len() && is_within(q, #[trigger] route_place(a1, out, j)) {
            let j = choose|j: int| 0 <= j < a1.entries().len() && is_within(q, #[trigger] route_place(a1, out, j));
            let e = a1.entries()[j];
            assert(a1.entries().contains(e));
            let k = choose|k: int| 0 <= k < a2.entries().len() && a2.entries()[k] == e;
            assert(route_place(a2, out, k) == route_place(a1, out, j));
            assert(route_ops(a2, out, k) == route_ops(a1, out, j));
        } else if exists|k: int| 0 <= k < a2.entries().len() && is_within(q, #[trigger] route_place(a2, out, k)) {
            let k = choose|k: int| 0 <= k < a2.entries().len() && is_within(q, #[trigger] route_place(a2, out, k));
            let e = a2.entries()[k];
            assert(a2.entries().contains(e));
            let j = choose|j: int| 0 <= j < a1.entries().len() && a1.entries()[j] == e;
            assert(route_place(a2, out, k) == route_place(a1, out, j));
        }
    }
    assert(r1 =~= r2);
}

} // verus!
