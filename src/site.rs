//! The route table, the kinds of content it holds, and the plan of
//! filesystem operations that building it performs.
use vstd::prelude::*;
use vstd::string::*;
use crate::files::{
    apply, cleared, lemma_cleared_twice, lemma_run_within, lemma_run_writes, lemma_touches_within, run,
    stays_within, touches,
};
use crate::path::{
    is_within, lemma_final_path_is_under, lemma_join_is_under, lemma_within_transitive,
    final_path, has_leading_separator, is_absolute, is_absolute_path, join, join_path,
    to_final_path, trim_leading_separators, trim_separators,
};

verus! {

/// A directory whose files are copied, at the same relative places, beneath
/// the route it is registered under.
#[derive(Clone, Debug)]
pub struct ServeDir(pub String);

/// What a route renders to.
#[derive(Debug)]
pub enum Content {
    /// Text written to one file.
    Text(String),
    /// A directory tree copied file by file.
    Mirror(ServeDir),
    /// A nested route table, built beneath the route.
    Table(App),
}

/// A static website: a table from route keys to content.
#[derive(Debug)]
pub struct App {
    routes: Vec<(String, Content)>,
}

/// Anything that can be registered under a route.
pub trait Route: Sized {
    /// `c` is the content that `self` renders as.
    spec fn is_content(&self, c: &Content) -> bool;

    fn into_content(self) -> (c: Content)
        ensures
            self.is_content(&c),
    ;
}

impl Route for String {
    open spec fn is_content(&self, c: &Content) -> bool {
        c is Text && c->Text_0@ == self@
    }

    fn into_content(self) -> (c: Content) {
        Content::Text(self)
    }
}

impl<'a> Route for &'a str {
    open spec fn is_content(&self, c: &Content) -> bool {
        c is Text && c->Text_0@ == self@
    }

    fn into_content(self) -> (c: Content) {
        Content::Text(String::from_str(self))
    }
}

impl Route for ServeDir {
    open spec fn is_content(&self, c: &Content) -> bool {
        c is Mirror && c->Mirror_0.0@ == self.0@
    }

    fn into_content(self) -> (c: Content) {
        Content::Mirror(self)
    }
}

impl Route for App {
    open spec fn is_content(&self, c: &Content) -> bool {
        *c == Content::Table(*self)
    }

    fn into_content(self) -> (c: Content) {
        Content::Table(self)
    }
}

/// One filesystem operation of a build.
#[derive(Debug, PartialEq, Eq)]
pub enum Op {
    /// Remove every entry of `dir`, creating it when it is missing.
    Clear { dir: String },
    /// Create `dir` and its missing ancestors.
    MakeDir { dir: String },
    /// Write `text` to the file `path`, creating its missing ancestors.
    Write { path: String, text: String },
    /// Copy every file beneath `from` to the same relative place beneath `to`.
    Mirror { from: String, to: String },
}

/// An operation over character sequences.
pub enum OpView {
    Clear { dir: Seq<char> },
    MakeDir { dir: Seq<char> },
    Write { path: Seq<char>, text: Seq<char> },
    Mirror { from: Seq<char>, to: Seq<char> },
}

impl View for Op {
    type V = OpView;

    open spec fn view(&self) -> OpView {
        match self {
            Op::Clear { dir } => OpView::Clear { dir: dir@ },
            Op::MakeDir { dir } => OpView::MakeDir { dir: dir@ },
            Op::Write { path, text } => OpView::Write { path: path@, text: text@ },
            Op::Mirror { from, to } => OpView::Mirror { from: from@, to: to@ },
        }
    }
}

/// The operation that writes `text` to the file `path`.
pub open spec fn write_op(path: Seq<char>, text: Seq<char>) -> OpView {
    OpView::Write { path, text }
}

/// The views of a sequence of operations.
pub open spec fn views(ops: Seq<Op>) -> Seq<OpView> {
    ops.map_values(|o: Op| o@)
}

/// Why a route could not be registered.
#[derive(Debug, PartialEq, Eq, Structural)]
pub enum RouteError {
    /// The path does not start with the separator.
    MissingSeparator,
    /// The key is already registered in the table.
    Duplicate,
}

/// Why a build was refused.
#[derive(Debug, PartialEq, Eq, Structural)]
pub enum BuildError {
    /// The output path is empty.
    EmptyOutput,
}

/// Where the content of route key `key` goes in a table built at `prefix`: a
/// key of separators alone names `prefix` itself.
pub open spec fn destination(prefix: Seq<char>, key: Seq<char>) -> Seq<char> {
    if trim_leading_separators(key).len() == 0 {
        prefix
    } else {
        join(prefix, trim_leading_separators(key))
    }
}

/// The operations that render content `c` at `dest`.
pub open spec fn content_ops(c: Content, dest: Seq<char>) -> Seq<OpView>
    decreases c, 0nat,
{
    match c {
        Content::Text(t) => seq![OpView::Write { path: final_path(dest), text: t@ }],
        Content::Mirror(d) => seq![OpView::Mirror { from: d.0@, to: dest }],
        Content::Table(sub) => table_ops(sub, dest, sub.entries().len()),
    }
}

/// The operations that build the first `n` routes of `a` at `prefix`, after
/// creating `prefix` itself.
pub open spec fn table_ops(a: App, prefix: Seq<char>, n: nat) -> Seq<OpView>
    decreases a, n,
{
    if n == 0 || n > a.entries().len() {
        seq![OpView::MakeDir { dir: prefix }]
    } else {
        table_ops(a, prefix, (n - 1) as nat) + content_ops(
            a.entries()[n - 1].1,
            destination(prefix, a.entries()[n - 1].0@),
        )
    }
}


/// The operations that build all of `a` at `prefix`.
pub open spec fn tree_ops(a: App, prefix: Seq<char>) -> Seq<OpView> {
    table_ops(a, prefix, a.entries().len())
}

/// The operations of a build of `a` into `out`: clear `out`, then build the
/// table there.
pub open spec fn build_plan(a: App, out: Seq<char>) -> Seq<OpView> {
    seq![OpView::Clear { dir: out }] + tree_ops(a, out)
}

/// `new` is `old` with key `key` registered to what `r` renders as.
pub open spec fn is_registration<R: Route>(old: App, new: App, key: Seq<char>, r: R) -> bool {
    &&& new.entries().len() == old.entries().len() + 1
    &&& new.entries().drop_last() == old.entries()
    &&& new.entries().last().0@ == key
    &&& r.is_content(&new.entries().last().1)
}

impl App {
    /// The registered (key, content) pairs, in order of registration.
    pub closed spec fn entries(&self) -> Seq<(String, Content)> {
        self.routes@
    }

    /// `key` is registered.
    pub open spec fn has_key(&self, key: Seq<char>) -> bool {
        exists|i: int| 0 <= i < self.entries().len() && #[trigger] self.entries()[i].0@ == key
    }

    /// No two registered keys are equal.
    pub open spec fn wf(&self) -> bool {
        forall|i: int, j: int|
            0 <= i < j < self.entries().len() ==> #[trigger] self.entries()[i].0@
                != #[trigger] self.entries()[j].0@
    }

    /// `path` starts with the separator and the key it names is still free.
    pub open spec fn can_register(&self, path: Seq<char>) -> bool {
        has_leading_separator(path) && !self.has_key(path.drop_first())
    }

    /// Returns an empty app.
    pub fn new() -> (r: App)
        ensures
            r.entries().len() == 0,
            r.wf(),
    {
        App { routes: Vec::new() }
    }

    /// The key that `path` registers under, when it can be registered.
    pub fn to_final_route(&self, path: &str) -> (r: Option<String>)
        ensures
            r is Some <==> self.can_register(path@),
            r matches Some(k) ==> k@ == path@.drop_first(),
    {
        if !is_absolute_path(path) {
            return None;
        }
        let n = path.unicode_len();
        let key = String::from_str(path.substring_char(1, n));
        assert(key@ =~= path@.drop_first());
        let mut i: usize = 0;
        while i < self.routes.len()
            invariant
                key@ == path@.drop_first(),
                i <= self.routes.len(),
                forall|j: int| 0 <= j < i ==> self.routes@[j].0@ != key@,
            decreases self.routes.len() - i,
        {
            if self.routes[i].0 == key {
                assert(self.entries()[i as int].0@ == path@.drop_first());
                return None;
            }
            i = i + 1;
        }
        Some(key)
    }

    fn add_route(&mut self, key: String, content: Content)
        requires
            !old(self).has_key(key@),
        ensures
            final(self).entries() == old(self).entries().push((key, content)),
            final(self).entries().drop_last() == old(self).entries(),
            old(self).wf() ==> final(self).wf(),
    {
        self.routes.push((key, content));
        proof {
            let e = self.entries();
            let o = old(self).entries();
            assert(e.drop_last() =~= o);
            if old(self).wf() {
                assert forall|i: int, j: int| 0 <= i < j < e.len() implies #[trigger] e[i].0@
                    != #[trigger] e[j].0@ by {
                    if j == o.len() {
                        assert(e[i] == o[i]);
                        if e[i].0@ == e[j].0@ {
                            assert(o[i].0@ == key@);
                        }
                    } else {
                        assert(e[i] == o[i] && e[j] == o[j]);
                    }
                }
            }
        }
    }

    /// Registers `route` under `path`, or says why it cannot; on an error the
    /// app is left as it was.
    pub fn try_route<R: Route>(&mut self, path: &str, route: R) -> (r: Result<(), RouteError>)
        ensures
            !has_leading_separator(path@) <==> r == Err::<(), RouteError>(RouteError::MissingSeparator),
            has_leading_separator(path@) && old(self).has_key(path@.drop_first()) <==> r == Err::<
                (),
                RouteError,
            >(RouteError::Duplicate),
            r is Err ==> *final(self) == *old(self),
            r is Ok ==> is_registration(*old(self), *final(self), path@.drop_first(), route),
            old(self).wf() ==> final(self).wf(),
    {
        match self.to_final_route(path) {
            Some(key) => {
                let content = route.into_content();
                self.add_route(key, content);
                Ok(())
            },
            None => {
                if is_absolute_path(path) {
                    Err(RouteError::Duplicate)
                } else {
                    Err(RouteError::MissingSeparator)
                }
            },
        }
    }

    /// Registers `route` under `path`, and hands the app back for more.
    pub fn route<R: Route>(&mut self, path: &str, route: R) -> (r: &mut App)
        requires
            old(self).can_register(path@),
        ensures
            is_registration(*old(self), *r, path@.drop_first(), route),
            old(self).wf() ==> r.wf(),
            *final(self) == *final(r),
    {
        let key = self.to_final_route(path).unwrap();
        let content = route.into_content();
        self.add_route(key, content);
        self
    }

    /// Appends to `ops` the operations that build this table at `prefix`.
    fn plan_into(&self, prefix: &str, ops: &mut Vec<Op>)
        ensures
            views(final(ops)@) == views(old(ops)@) + tree_ops(*self, prefix@),
        decreases self,
    {
        let ghost start = views(ops@);
        ops.push(Op::MakeDir { dir: String::from_str(prefix) });
        assert(views(ops@) =~= start + table_ops(*self, prefix@, 0));
        let mut i: usize = 0;
        while i < self.routes.len()
            invariant
                i <= self.routes.len(),
                views(ops@) == start + table_ops(*self, prefix@, i as nat),
            decreases self.routes.len() - i,
        {
            let key = trim_separators(self.routes[i].0.as_str());
            let dest = if key.unicode_len() == 0 {
                String::from_str(prefix)
            } else {
                join_path(prefix, key)
            };
            let ghost before = views(ops@);
            match &self.routes[i].1 {
                Content::Text(t) => {
                    ops.push(Op::Write { path: to_final_path(dest.as_str()), text: t.clone() });
                },
                Content::Mirror(d) => {
                    ops.push(Op::Mirror { from: d.0.clone(), to: dest });
                },
                Content::Table(sub) => {
                    sub.plan_into(dest.as_str(), ops);
                },
            }
            assert(views(ops@) =~= before + content_ops(
                self.routes@[i as int].1,
                destination(prefix@, self.routes@[i as int].0@),
            ));
            i = i + 1;
            assert(views(ops@) =~= start + table_ops(*self, prefix@, i as nat));
        }
    }

    /// The operations that build the app into `out`, in order. The output
    /// must be relative; an empty one is refused.
    pub fn build(&self, out: &str) -> (r: Result<Vec<Op>, BuildError>)
        requires
            !is_absolute(out@),
        ensures
            out@.len() == 0 <==> r is Err,
            r matches Err(e) ==> e == BuildError::EmptyOutput,
            r matches Ok(ops) ==> views(ops@) == build_plan(*self, out@),
    {
        if out.unicode_len() == 0 {
            return Err(BuildError::EmptyOutput);
        }
        let mut ops: Vec<Op> = Vec::new();
        ops.push(Op::Clear { dir: String::from_str(out) });
        self.plan_into(out, &mut ops);
        assert(views(ops@) =~= build_plan(*self, out@));
        Ok(ops)
    }
}

/// `a` and `b` hold the same keys, in the same order, and each key's content
/// renders the same way everywhere.
pub open spec fn same_routes(a: App, b: App) -> bool {
    &&& a.entries().len() == b.entries().len()
    &&& forall|j: int|
        0 <= j < a.entries().len() ==> #[trigger] a.entries()[j].0@ == b.entries()[j].0@
            && forall|d: Seq<char>|
            content_ops(a.entries()[j].1, d) == #[trigger] content_ops(b.entries()[j].1, d)
}

/// Tables with the same routes build the same way.
pub proof fn lemma_same_routes_same_plan(a: App, b: App, prefix: Seq<char>, n: nat)
    requires
        same_routes(a, b),
    ensures
        table_ops(a, prefix, n) == table_ops(b, prefix, n),
    decreases n,
{
    if n > 0 && n <= a.entries().len() {
        lemma_same_routes_same_plan(a, b, prefix, (n - 1) as nat);
        let j = n - 1;
        assert(a.entries()[j].0@ == b.entries()[j].0@);
        let d = destination(prefix, a.entries()[j].0@);
        assert(content_ops(a.entries()[j].1, d) == content_ops(b.entries()[j].1, d));
    }
}

impl Content {
    /// A deep copy.
    pub fn duplicate(&self) -> (r: Content)
        ensures
            forall|d: Seq<char>| content_ops(r, d) == #[trigger] content_ops(*self, d),
        decreases self, 0nat,
    {
        match self {
            Content::Text(t) => Content::Text(t.clone()),
            Content::Mirror(d) => Content::Mirror(ServeDir(d.0.clone())),
            Content::Table(a) => {
                let b = a.duplicate();
                proof {
                    assert forall|d: Seq<char>| content_ops(Content::Table(b), d) == content_ops(
                        *self,
                        d,
                    ) by {
                        lemma_same_routes_same_plan(b, *a, d, b.entries().len());
                    }
                }
                Content::Table(b)
            },
        }
    }
}

impl App {
    /// A deep copy, so that one table can be registered in several places.
    pub fn duplicate(&self) -> (r: App)
        ensures
            same_routes(r, *self),
        decreases self, 1nat,
    {
        let mut routes: Vec<(String, Content)> = Vec::new();
        let mut i: usize = 0;
        while i < self.routes.len()
            invariant
                i <= self.routes.len(),
                routes.len() == i,
                forall|j: int|
                    0 <= j < i ==> #[trigger] routes@[j].0@ == self.routes@[j].0@ && forall|
                        d: Seq<char>,
                    | content_ops(routes@[j].1, d) == #[trigger] content_ops(self.routes@[j].1, d),
            decreases self.routes.len() - i,
        {
            let key = self.routes[i].0.clone();
            let content = self.routes[i].1.duplicate();
            routes.push((key, content));
            i = i + 1;
        }
        let r = App { routes };
        assert(r.entries() == routes@);
        r
    }
}

impl Clone for Content {
    fn clone(&self) -> (r: Content)
        ensures
            forall|d: Seq<char>| content_ops(r, d) == #[trigger] content_ops(*self, d),
    {
        self.duplicate()
    }
}

impl Clone for App {
    fn clone(&self) -> (r: App)
        ensures
            same_routes(r, *self),
    {
        self.duplicate()
    }
}

impl Default for App {
    fn default() -> (r: App)
        ensures
            r.entries().len() == 0,
    {
        App::new()
    }
}

impl ServeDir {
    /// The (source, target) pair of each copy that mirrors this directory at
    /// `dest`, given the paths of its files relative to it.
    pub fn copies(&self, dest: &str, files: &Vec<String>) -> (r: Vec<(String, String)>)
        ensures
            r.len() == files.len(),
            forall|i: int|
                0 <= i < r.len() ==> #[trigger] r@[i].0@ == join(self.0@, files@[i]@) && r@[i].1@
                    == join(dest@, files@[i]@),
    {
        let mut r: Vec<(String, String)> = Vec::new();
        let mut i: usize = 0;
        while i < files.len()
            invariant
                i <= files.len(),
                r.len() == i,
                forall|j: int|
                    0 <= j < i ==> #[trigger] r@[j].0@ == join(self.0@, files@[j]@) && r@[j].1@
                        == join(dest@, files@[j]@),
            decreases files.len() - i,
        {
            let from = join_path(self.0.as_str(), files[i].as_str());
            let to = join_path(dest, files[i].as_str());
            r.push((from, to));
            i = i + 1;
        }
        r
    }
}


/// Building a table at a non-empty `prefix` changes nothing outside `prefix`.
pub proof fn lemma_table_ops_within(a: App, prefix: Seq<char>, n: nat)
    requires
        prefix.len() > 0,
    ensures
        forall|k: int|
            0 <= k < table_ops(a, prefix, n).len() ==> stays_within(
                #[trigger] table_ops(a, prefix, n)[k],
                prefix,
            ),
    decreases a, n,
{
    if n == 0 || n > a.entries().len() {
    } else {
        let m = (n - 1) as nat;
        lemma_table_ops_within(a, prefix, m);
        let c = a.entries()[m as int].1;
        let key = trim_leading_separators(a.entries()[m as int].0@);
        let dest = destination(prefix, a.entries()[m as int].0@);
        if key.len() > 0 {
            lemma_join_is_under(prefix, key);
        }
        assert(is_within(dest, prefix));
        let left = table_ops(a, prefix, m);
        let right = content_ops(c, dest);
        match c {
            Content::Text(t) => {
                lemma_final_path_is_under(dest);
                lemma_within_transitive(final_path(dest), dest, prefix);
            },
            Content::Mirror(d) => {},
            Content::Table(sub) => {
                lemma_table_ops_within(sub, dest, sub.entries().len());
                assert(right == table_ops(sub, dest, sub.entries().len()));
                assert forall|k: int| 0 <= k < right.len() implies stays_within(
                    #[trigger] right[k],
                    prefix,
                ) by {
                    assert(stays_within(right[k], dest));
                    match right[k] {
                        OpView::Write { path, .. } => {
                            lemma_within_transitive(path, dest, prefix);
                        },
                        OpView::Mirror { to, .. } => {
                            lemma_within_transitive(to, dest, prefix);
                        },
                        _ => {},
                    }
                }
            },
        }
        assert forall|k: int| 0 <= k < table_ops(a, prefix, n).len() implies stays_within(
            #[trigger] table_ops(a, prefix, n)[k],
            prefix,
        ) by {
            if k < left.len() {
                assert(table_ops(a, prefix, n)[k] == left[k]);
            } else {
                assert(table_ops(a, prefix, n)[k] == right[k - left.len()]);
            }
        }
    }
}

/// Building is idempotent: performing the plan of a build on the files that
/// the same plan left behind gives the same files again.
pub proof fn lemma_build_idempotent(a: App, out: Seq<char>, fs: Map<Seq<char>, Seq<char>>)
    requires
        out.len() > 0,
    ensures
        run(build_plan(a, out), run(build_plan(a, out), fs)) == run(build_plan(a, out), fs),
{
    let plan = build_plan(a, out);
    let t = tree_ops(a, out);
    assert(plan.drop_first() =~= t);
    lemma_table_ops_within(a, out, a.entries().len());
    let once = run(plan, fs);
    assert(once == run(t, cleared(fs, out)));
    lemma_run_within(t, cleared(fs, out), out);
    lemma_cleared_twice(fs, out);
    assert(run(plan, once) == run(t, cleared(once, out)));
}


proof fn lemma_table_ops_grow(a: App, prefix: Seq<char>, m: nat, n: nat)
    requires
        m <= n <= a.routes.len(),
    ensures
        forall|x: OpView| table_ops(a, prefix, m).contains(x) ==> table_ops(a, prefix, n).contains(x),
    decreases n - m,
{
    if m < n {
        let n1 = (n - 1) as nat;
        lemma_table_ops_grow(a, prefix, m, n1);
        assert forall|x: OpView| table_ops(a, prefix, n1).contains(x) implies table_ops(
            a,
            prefix,
            n,
        ).contains(x) by {
            let k = choose|k: int| 0 <= k < table_ops(a, prefix, n1).len() && table_ops(a, prefix, n1)[k] == x;
            assert(table_ops(a, prefix, n)[k] == x);
        }
    }
}

proof fn lemma_route_planned(a: App, out: Seq<char>, i: int)
    requires
        0 <= i < a.entries().len(),
    ensures
        forall|k: int|
            0 <= k < content_ops(a.entries()[i].1, destination(out, a.entries()[i].0@)).len()
                ==> build_plan(a, out).contains(
                #[trigger] content_ops(a.entries()[i].1, destination(out, a.entries()[i].0@))[k],
            ),
{
    let c = content_ops(a.entries()[i].1, destination(out, a.entries()[i].0@));
    let n = (i + 1) as nat;
    let upto = table_ops(a, out, n);
    let left = table_ops(a, out, i as nat);
    lemma_table_ops_grow(a, out, n, a.routes.len() as nat);
    assert forall|k: int| 0 <= k < c.len() implies build_plan(a, out).contains(#[trigger] c[k]) by {
        assert(upto[left.len() + k] == c[k]);
        assert(upto.contains(c[k]));
        let t = tree_ops(a, out);
        let j = choose|j: int| 0 <= j < t.len() && t[j] == c[k];
        assert(build_plan(a, out)[j + 1] == c[k]);
    }
}

/// Every text route is written, with exactly its text, at the file its key
/// resolves to beneath the output directory.
pub proof fn lemma_text_route_written(a: App, out: Seq<char>, i: int)
    requires
        0 <= i < a.entries().len(),
        a.entries()[i].1 is Text,
    ensures
        build_plan(a, out).contains(
            write_op(final_path(destination(out, a.entries()[i].0@)), a.entries()[i].1->Text_0@),
        ),
{
    lemma_route_planned(a, out, i);
    let c = content_ops(a.entries()[i].1, destination(out, a.entries()[i].0@));
    assert(build_plan(a, out).contains(c[0]));
}

/// Every mirrored directory is copied to the place its key resolves to
/// beneath the output directory.
pub proof fn lemma_mirror_route_planned(a: App, out: Seq<char>, i: int)
    requires
        0 <= i < a.entries().len(),
        a.entries()[i].1 is Mirror,
    ensures
        build_plan(a, out).contains(
            OpView::Mirror {
                from: a.entries()[i].1->Mirror_0.0@,
                to: destination(out, a.entries()[i].0@),
            },
        ),
{
    lemma_route_planned(a, out, i);
    let c = content_ops(a.entries()[i].1, destination(out, a.entries()[i].0@));
    assert(build_plan(a, out).contains(c[0]));
}

/// A nested table is built at the place its key resolves to: every
/// operation of building it there is part of the whole build.
pub proof fn lemma_nested_table_planned(a: App, out: Seq<char>, i: int)
    requires
        0 <= i < a.entries().len(),
        a.entries()[i].1 is Table,
    ensures
        forall|op: OpView|
            tree_ops(a.entries()[i].1->Table_0, destination(out, a.entries()[i].0@)).contains(op)
                ==> build_plan(a, out).contains(op),
{
    lemma_route_planned(a, out, i);
    let sub = a.entries()[i].1->Table_0;
    let c = content_ops(a.entries()[i].1, destination(out, a.entries()[i].0@));
    assert(c == tree_ops(sub, destination(out, a.entries()[i].0@)));
    assert forall|op: OpView| c.contains(op) implies build_plan(a, out).contains(op) by {
        let k = choose|k: int| 0 <= k < c.len() && c[k] == op;
        assert(build_plan(a, out).contains(c[k]));
    }
}

/// A path without the leading separator can never be registered: `route`
/// does not admit it and `try_route` refuses it, leaving the app as it was.
pub proof fn lemma_missing_separator_refused(a: App, path: Seq<char>)
    requires
        !has_leading_separator(path),
    ensures
        !a.can_register(path),
{
}

/// Once a path is registered, registering it again is refused.
pub proof fn lemma_registered_key_taken<R: Route>(old: App, new: App, path: Seq<char>, r: R)
    requires
        is_registration(old, new, path.drop_first(), r),
    ensures
        new.has_key(path.drop_first()),
        !new.can_register(path),
{
    let last = new.entries().len() - 1;
    assert(new.entries()[last].0@ == path.drop_first());
}


/// Where the content `c` registered at `dest` ends up: the file for text,
/// `dest` itself otherwise.
pub open spec fn resolved(c: Content, dest: Seq<char>) -> Seq<char> {
    if c is Text {
        final_path(dest)
    } else {
        dest
    }
}

/// No route of `a` built at `out` resolves to a place at or beneath the place
/// of another.
pub open spec fn routes_separate(a: App, out: Seq<char>) -> bool {
    forall|i: int, j: int|
        0 <= i < a.entries().len() && 0 <= j < a.entries().len() && i != j ==> !is_within(
            resolved(#[trigger] a.entries()[i].1, destination(out, a.entries()[i].0@)),
            resolved(#[trigger] a.entries()[j].1, destination(out, a.entries()[j].0@)),
        )
}

/// Each operation of building the first `n` routes of a table is the
/// creation of the table's directory or an operation of rendering one of
/// those routes at its destination.
pub proof fn lemma_table_ops_members(a: App, prefix: Seq<char>, n: nat, k: int)
    requires
        n <= a.entries().len(),
        0 <= k < table_ops(a, prefix, n).len(),
    ensures
        table_ops(a, prefix, n)[k] == (OpView::MakeDir { dir: prefix }) || exists|j: int, m: int|
            0 <= j < n && 0 <= m < content_ops(a.entries()[j].1, destination(prefix, a.entries()[j].0@)).len()
                && table_ops(a, prefix, n)[k] == #[trigger] content_ops(
                a.entries()[j].1,
                destination(prefix, a.entries()[j].0@),
            )[m],
    decreases n,
{
    if n > 0 {
        let m1 = (n - 1) as nat;
        let left = table_ops(a, prefix, m1);
        if k < left.len() {
            lemma_table_ops_members(a, prefix, m1, k);
            assert(table_ops(a, prefix, n)[k] == left[k]);
        } else {
            let c = content_ops(a.entries()[m1 as int].1, destination(prefix, a.entries()[m1 as int].0@));
            assert(table_ops(a, prefix, n)[k] == c[k - left.len()]);
        }
    }
}

/// A build first clears the output, then builds the table there.
pub proof fn lemma_build_runs_table(a: App, out: Seq<char>, fs: Map<Seq<char>, Seq<char>>)
    ensures
        run(build_plan(a, out), fs) == run(tree_ops(a, out), cleared(fs, out)),
{
    assert(build_plan(a, out).drop_first() =~= tree_ops(a, out));
}

/// A build into a non-empty output changes no file outside the output.
pub proof fn lemma_build_stays_in_output(a: App, out: Seq<char>, fs: Map<Seq<char>, Seq<char>>)
    requires
        out.len() > 0,
    ensures
        cleared(run(build_plan(a, out), fs), out) == cleared(fs, out),
{
    lemma_build_runs_table(a, out, fs);
    lemma_table_ops_within(a, out, a.entries().len());
    lemma_run_within(tree_ops(a, out), cleared(fs, out), out);
    lemma_cleared_twice(fs, out);
}

/// A table without routes only creates its directory; building an app
/// without routes leaves nothing at or beneath the output.
pub proof fn lemma_empty_app_build(a: App, out: Seq<char>, fs: Map<Seq<char>, Seq<char>>)
    requires
        a.entries().len() == 0,
    ensures
        tree_ops(a, out) == seq![OpView::MakeDir { dir: out }],
        run(build_plan(a, out), fs) == cleared(fs, out),
{
    lemma_build_runs_table(a, out, fs);
    let t = tree_ops(a, out);
    assert(t =~= seq![OpView::MakeDir { dir: out }]);
    assert(t.drop_first() =~= Seq::<OpView>::empty());
    let c = cleared(fs, out);
    assert(run(t, c) == run(t.drop_first(), apply(t[0], c)));
    assert(run(t.drop_first(), c) == c);
}

/// After a build, the file that a text route resolves to holds exactly the
/// route's text, when no route resolves to a place at or beneath another's.
pub proof fn lemma_text_route_file(a: App, out: Seq<char>, fs: Map<Seq<char>, Seq<char>>, i: int)
    requires
        out.len() > 0,
        routes_separate(a, out),
        0 <= i < a.entries().len(),
        a.entries()[i].1 is Text,
    ensures
        run(build_plan(a, out), fs).contains_key(final_path(destination(out, a.entries()[i].0@))),
        run(build_plan(a, out), fs)[final_path(destination(out, a.entries()[i].0@))]
            == a.entries()[i].1->Text_0@,
{
    let e = a.entries();
    let p = final_path(destination(out, e[i].0@));
    let w = write_op(p, e[i].1->Text_0@);
    let t = tree_ops(a, out);
    lemma_build_runs_table(a, out, fs);
    lemma_text_route_written(a, out, i);
    let plan = build_plan(a, out);
    let x = choose|x: int| 0 <= x < plan.len() && plan[x] == w;
    assert(x > 0);
    assert(t[x - 1] == w);
    assert forall|k: int| 0 <= k < t.len() && touches(#[trigger] t[k], p) implies t[k] == w by {
        lemma_table_ops_members(a, out, e.len(), k);
        if t[k] != (OpView::MakeDir { dir: out }) {
            let (j, m) = choose|j: int, m: int|
                0 <= j < e.len() && 0 <= m < content_ops(e[j].1, destination(out, e[j].0@)).len()
                    && t[k] == #[trigger] content_ops(e[j].1, destination(out, e[j].0@))[m];
            let dj = destination(out, e[j].0@);
            if j != i {
                assert(!is_within(resolved(e[i].1, destination(out, e[i].0@)), resolved(e[j].1, dj)));
                match e[j].1 {
                    Content::Text(_) => {},
                    Content::Mirror(_) => {},
                    Content::Table(sub) => {
                        if trim_leading_separators(e[j].0@).len() > 0 {
                            lemma_join_is_under(out, trim_leading_separators(e[j].0@));
                        }
                        lemma_table_ops_within(sub, dj, sub.entries().len());
                        assert(content_ops(e[j].1, dj) == table_ops(sub, dj, sub.entries().len()));
                        lemma_touches_within(t[k], dj, p);
                    },
                }
            }
        }
    }
    lemma_run_writes(t, cleared(fs, out), p, e[i].1->Text_0@);
}

} // verus!
