//! A model of the output: the files present, each path mapped to its text,
//! and what each build operation does to them.
use vstd::prelude::*;
use crate::path::{is_under, is_within, join, relative_to};
use crate::site::{write_op, OpView};

verus! {

/// `p` is beneath `to` and the file at the same relative place beneath
/// `from` exists in `fs`.
pub open spec fn is_mirrored(
    fs: Map<Seq<char>, Seq<char>>,
    from: Seq<char>,
    to: Seq<char>,
    p: Seq<char>,
) -> bool {
    is_under(p, to) && fs.contains_key(join(from, relative_to(p, to)))
}

/// `fs` without the files at or beneath `dir`.
pub open spec fn cleared(fs: Map<Seq<char>, Seq<char>>, dir: Seq<char>) -> Map<
    Seq<char>,
    Seq<char>,
> {
    Map::new(|p: Seq<char>| fs.contains_key(p) && !is_within(p, dir), |p: Seq<char>| fs[p])
}

/// The files after `op` is performed on `fs`.
pub open spec fn apply(op: OpView, fs: Map<Seq<char>, Seq<char>>) -> Map<Seq<char>, Seq<char>> {
    match op {
        OpView::Clear { dir } => cleared(fs, dir),
        OpView::MakeDir { dir } => fs,
        OpView::Write { path, text } => fs.insert(path, text),
        OpView::Mirror { from, to } => Map::new(
            |p: Seq<char>| fs.contains_key(p) || is_mirrored(fs, from, to, p),
            |p: Seq<char>|
                if is_mirrored(fs, from, to, p) {
                    fs[join(from, relative_to(p, to))]
                } else {
                    fs[p]
                },
        ),
    }
}

/// The files after `ops` are performed on `fs`, first to last.
pub open spec fn run(ops: Seq<OpView>, fs: Map<Seq<char>, Seq<char>>) -> Map<Seq<char>, Seq<char>>
    decreases ops.len(),
{
    if ops.len() == 0 {
        fs
    } else {
        run(ops.drop_first(), apply(ops[0], fs))
    }
}

/// `op` changes no file outside `dir`.
pub open spec fn stays_within(op: OpView, dir: Seq<char>) -> bool {
    match op {
        OpView::Clear { .. } => false,
        OpView::MakeDir { .. } => true,
        OpView::Write { path, .. } => is_within(path, dir),
        OpView::Mirror { to, .. } => is_within(to, dir),
    }
}

pub proof fn lemma_cleared_twice(fs: Map<Seq<char>, Seq<char>>, dir: Seq<char>)
    ensures
        cleared(cleared(fs, dir), dir) == cleared(fs, dir),
{
    assert(cleared(cleared(fs, dir), dir) =~= cleared(fs, dir));
}

pub proof fn lemma_apply_within(op: OpView, fs: Map<Seq<char>, Seq<char>>, dir: Seq<char>)
    requires
        stays_within(op, dir),
    ensures
        cleared(apply(op, fs), dir) == cleared(fs, dir),
{
    match op {
        OpView::Mirror { from, to } => {
            assert forall|p: Seq<char>| is_under(p, to) implies #[trigger] is_under(p, dir) by {
                crate::path::lemma_within_transitive(p, to, dir);
            }
        },
        _ => {},
    }
    assert(cleared(apply(op, fs), dir) =~= cleared(fs, dir));
}

pub proof fn lemma_run_within(ops: Seq<OpView>, fs: Map<Seq<char>, Seq<char>>, dir: Seq<char>)
    requires
        forall|i: int| 0 <= i < ops.len() ==> stays_within(#[trigger] ops[i], dir),
    ensures
        cleared(run(ops, fs), dir) == cleared(fs, dir),
    decreases ops.len(),
{
    if ops.len() > 0 {
        lemma_apply_within(ops[0], fs, dir);
        assert forall|i: int| 0 <= i < ops.drop_first().len() implies stays_within(
            #[trigger] ops.drop_first()[i],
            dir,
        ) by {
            assert(ops.drop_first()[i] == ops[i + 1]);
        }
        lemma_run_within(ops.drop_first(), apply(ops[0], fs), dir);
    }
}


/// `op` may change or remove the file at `p`.
pub open spec fn touches(op: OpView, p: Seq<char>) -> bool {
    match op {
        OpView::Clear { dir } => is_within(p, dir),
        OpView::MakeDir { .. } => false,
        OpView::Write { path, .. } => path == p,
        OpView::Mirror { to, .. } => is_under(p, to),
    }
}

/// An operation that stays within `dir` touches only files at or beneath it.
pub proof fn lemma_touches_within(op: OpView, dir: Seq<char>, p: Seq<char>)
    requires
        stays_within(op, dir),
        touches(op, p),
    ensures
        is_within(p, dir),
{
    match op {
        OpView::Mirror { to, .. } => {
            crate::path::lemma_within_transitive(p, to, dir);
        },
        _ => {},
    }
}

pub proof fn lemma_run_untouched(ops: Seq<OpView>, fs: Map<Seq<char>, Seq<char>>, p: Seq<char>)
    requires
        forall|k: int| 0 <= k < ops.len() ==> !touches(#[trigger] ops[k], p),
    ensures
        run(ops, fs).contains_key(p) == fs.contains_key(p),
        fs.contains_key(p) ==> run(ops, fs)[p] == fs[p],
    decreases ops.len(),
{
    if ops.len() > 0 {
        assert(!touches(ops[0], p));
        assert forall|k: int| 0 <= k < ops.drop_first().len() implies !touches(
            #[trigger] ops.drop_first()[k],
            p,
        ) by {
            assert(ops.drop_first()[k] == ops[k + 1]);
        }
        lemma_run_untouched(ops.drop_first(), apply(ops[0], fs), p);
    }
}

/// A file that the operations write, and that nothing else among them
/// changes, holds the written text afterwards.
pub proof fn lemma_run_writes(
    ops: Seq<OpView>,
    fs: Map<Seq<char>, Seq<char>>,
    p: Seq<char>,
    text: Seq<char>,
)
    requires
        ops.contains(write_op(p, text)),
        forall|k: int| 0 <= k < ops.len() && touches(#[trigger] ops[k], p) ==> ops[k] == write_op(p, text),
    ensures
        run(ops, fs).contains_key(p),
        run(ops, fs)[p] == text,
    decreases ops.len(),
{
    let w = write_op(p, text);
    let rest = ops.drop_first();
    assert forall|k: int| 0 <= k < rest.len() && touches(#[trigger] rest[k], p) implies rest[k]
        == w by {
        assert(rest[k] == ops[k + 1]);
    }
    if ops[0] == w {
        if rest.contains(w) {
            lemma_run_writes(rest, apply(ops[0], fs), p, text);
        } else {
            assert forall|k: int| 0 <= k < rest.len() implies !touches(#[trigger] rest[k], p) by {
                if touches(rest[k], p) {
                    assert(rest.contains(w));
                }
            }
            lemma_run_untouched(rest, apply(ops[0], fs), p);
        }
    } else {
        let j = choose|j: int| 0 <= j < ops.len() && ops[j] == w;
        assert(rest[j - 1] == w);
        lemma_run_writes(rest, apply(ops[0], fs), p, text);
    }
}

} // verus!
