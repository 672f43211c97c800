//! The decisions of a directory walk: which directories remain to be read
//! and which files were found, as paths relative to the walk's root.
use vstd::prelude::*;
use vstd::string::*;
use crate::path::{join, join_path};

verus! {

/// The path of entry `name` of the directory at relative path `dir`; the
/// root itself is the empty path.
pub open spec fn child(dir: Seq<char>, name: Seq<char>) -> Seq<char> {
    if dir.len() == 0 {
        name
    } else {
        join(dir, name)
    }
}

/// The paths of the entries of `dir` that are directories (`dirs`) or files
/// (`!dirs`), in the order of `entries`; each entry is a name and whether it
/// is a directory.
pub open spec fn children(dir: Seq<char>, entries: Seq<(Seq<char>, bool)>, dirs: bool) -> Seq<
    Seq<char>,
>
    decreases entries.len(),
{
    if entries.len() == 0 {
        Seq::empty()
    } else {
        let rest = children(dir, entries.drop_last(), dirs);
        if entries.last().1 == dirs {
            rest.push(child(dir, entries.last().0))
        } else {
            rest
        }
    }
}

/// The views of a sequence of strings.
pub open spec fn string_views(v: Seq<String>) -> Seq<Seq<char>> {
    v.map_values(|s: String| s@)
}

/// The views of directory entries.
pub open spec fn entry_views(v: Seq<(String, bool)>) -> Seq<(Seq<char>, bool)> {
    v.map_values(|e: (String, bool)| (e.0@, e.1))
}

/// The state of a walk over a directory tree.
pub struct Walk {
    pending: Vec<String>,
    found: Vec<String>,
}

impl Walk {
    /// Directories still to be read, the next one last.
    pub closed spec fn pending(&self) -> Seq<Seq<char>> {
        string_views(self.pending@)
    }

    /// Files found so far.
    pub closed spec fn found(&self) -> Seq<Seq<char>> {
        string_views(self.found@)
    }

    /// A walk that has still to read the root.
    pub fn new() -> (r: Walk)
        ensures
            r.pending() == seq![Seq::<char>::empty()],
            r.found() == Seq::<Seq<char>>::empty(),
    {
        let mut pending: Vec<String> = Vec::new();
        pending.push(String::new());
        let r = Walk { pending, found: Vec::new() };
        assert(r.pending() =~= seq![Seq::<char>::empty()]);
        assert(r.found() =~= Seq::<Seq<char>>::empty());
        r
    }

    /// The next directory to read, or `None` when the walk is over.
    pub fn next_dir(&mut self) -> (r: Option<String>)
        ensures
            old(self).pending().len() == 0 <==> r is None,
            r matches Some(d) ==> d@ == old(self).pending().last() && final(self).pending()
                == old(self).pending().drop_last(),
            r is None ==> final(self).pending() == old(self).pending(),
            final(self).found() == old(self).found(),
    {
        let r = self.pending.pop();
        proof {
            assert(self.pending() =~= old(self).pending().take(self.pending@.len() as int));
        }
        r
    }

    /// Records what the directory `dir` holds: its subdirectories are to be
    /// read, its files are found.
    pub fn visit(&mut self, dir: &str, entries: Vec<(String, bool)>)
        ensures
            final(self).pending() == old(self).pending() + children(dir@, entry_views(entries@), true),
            final(self).found() == old(self).found() + children(dir@, entry_views(entries@), false),
    {
        let ghost ev = entry_views(entries@);
        let mut i: usize = 0;
        while i < entries.len()
            invariant
                i <= entries.len(),
                ev == entry_views(entries@),
                self.pending() == old(self).pending() + children(dir@, ev.take(i as int), true),
                self.found() == old(self).found() + children(dir@, ev.take(i as int), false),
            decreases entries.len() - i,
        {
            let path = if dir.unicode_len() == 0 {
                String::from_str(entries[i].0.as_str())
            } else {
                join_path(dir, entries[i].0.as_str())
            };
            proof {
                assert(ev[i as int] == (entries@[i as int].0@, entries@[i as int].1));
                assert(path@ == child(dir@, ev[i as int].0));
                assert(ev.take(i + 1).drop_last() =~= ev.take(i as int));
                assert(ev.take(i + 1).last() == ev[i as int]);
                assert(children(dir@, ev.take(i + 1), entries@[i as int].1) == children(
                    dir@,
                    ev.take(i as int),
                    entries@[i as int].1,
                ).push(path@));
                assert(children(dir@, ev.take(i + 1), !entries@[i as int].1) == children(
                    dir@,
                    ev.take(i as int),
                    !entries@[i as int].1,
                ));
            }
            let ghost pending_before = self.pending();
            let ghost found_before = self.found();
            let ghost pv = path@;
            if entries[i].1 {
                self.pending.push(path);
                assert(self.pending() =~= pending_before.push(pv));
                assert(self.found() =~= found_before);
            } else {
                self.found.push(path);
                assert(self.found() =~= found_before.push(pv));
                assert(self.pending() =~= pending_before);
            }
            proof {
                assert(self.pending() =~= old(self).pending() + children(dir@, ev.take(i + 1), true));
                assert(self.found() =~= old(self).found() + children(dir@, ev.take(i + 1), false));
            }
            i = i + 1;
        }
        assert(ev.take(entries.len() as int) =~= ev);
    }

    /// The files found.
    pub fn into_found(self) -> (r: Vec<String>)
        ensures
            string_views(r@) == self.found(),
    {
        self.found
    }
}

} // verus!
